use icscript::builtin::{functions, print};
use icscript::dictionary::Dictionary;
use icscript::error::RuntimeError;
use icscript::format::{convert_newlines, count_percent, fill_placeholders, format_print};
use icscript::text::{to_chars, trim_range};
use icscript::value::{parse_digits, VariableValue};

fn chars(s: &str) -> Vec<char> {
    s.chars().collect()
}

fn text(v: Vec<char>) -> String {
    v.into_iter().collect()
}

#[test]
fn values_render_as_text() {
    assert_eq!(VariableValue::Integer(0).render(), "0");
    assert_eq!(VariableValue::Integer(7).render(), "7");
    assert_eq!(VariableValue::Integer(10).render(), "10");
    assert_eq!(VariableValue::Integer(-42).render(), "-42");
    assert_eq!(VariableValue::Integer(1234567890).render(), "1234567890");
    assert_eq!(VariableValue::Integer(i64::MAX).render(), "9223372036854775807");
    assert_eq!(VariableValue::Integer(i64::MIN).render(), "-9223372036854775808");
    assert_eq!(VariableValue::String("a b".to_string()).render(), "a b");
    assert_eq!(VariableValue::String(String::new()).render(), "");
    assert_eq!(VariableValue::Undefined.render(), "");
}

#[test]
fn values_compare_by_what_they_hold() {
    assert_eq!(VariableValue::Integer(1), VariableValue::Integer(1));
    assert_ne!(VariableValue::Integer(1), VariableValue::String("1".to_string()));
    assert_ne!(VariableValue::Undefined, VariableValue::String(String::new()));
    assert_eq!(VariableValue::String("x".to_string()).clone(), VariableValue::String("x".to_string()));
}

#[test]
fn digits_are_read_back() {
    let v = chars("x123y");
    assert_eq!(parse_digits(&v, 1, 4), Some(123));
    assert_eq!(parse_digits(&v, 1, 1), None);
    assert_eq!(parse_digits(&v, 0, 4), None);
    assert_eq!(parse_digits(&v, 1, 5), None);
    let big = chars("9223372036854775807");
    assert_eq!(parse_digits(&big, 0, big.len()), Some(i64::MAX));
    let too_big = chars("9223372036854775808");
    assert_eq!(parse_digits(&too_big, 0, too_big.len()), None);
    let rendered = VariableValue::Integer(90210).render();
    let back = to_chars(&rendered);
    assert_eq!(parse_digits(&back, 0, back.len()), Some(90210));
}

#[test]
fn trimming_follows_unicode_whitespace() {
    let v = chars("\u{a0} a b \t\n");
    assert_eq!(trim_range(&v, 0, v.len()), (2, 5));
    let blank = chars(" \u{2003} ");
    assert_eq!(trim_range(&blank, 0, blank.len()), (3, 3));
    let inner = chars("ab cd");
    assert_eq!(trim_range(&inner, 2, 3), (3, 3));
    assert_eq!(trim_range(&inner, 1, 4), (1, 4));
}

#[test]
fn percent_signs_are_counted() {
    assert_eq!(count_percent(&chars("")), 0);
    assert_eq!(count_percent(&chars("%s and %s")), 2);
    assert_eq!(count_percent(&chars("100% %d %")), 3);
}

#[test]
fn placeholders_are_filled_in_order() {
    let values = vec![chars("1"), chars("22")];
    assert_eq!(text(fill_placeholders(&chars("%s+%s=3"), &values)), "1+22=3");
    assert_eq!(text(fill_placeholders(&chars("a%sb"), &values)), "a1b");
    assert_eq!(text(fill_placeholders(&chars("%s%s%s"), &values)), "122%s");
    assert_eq!(text(fill_placeholders(&chars("%d %s %"), &values)), "%d 1 %");
    assert_eq!(text(fill_placeholders(&chars("none"), &values)), "none");
    assert_eq!(text(fill_placeholders(&chars("%s"), &vec![chars("%s%s")])), "%s%s");
    assert_eq!(text(fill_placeholders(&chars("%s"), &vec![])), "%s");
}

#[test]
fn written_newlines_are_converted() {
    assert_eq!(text(convert_newlines(&chars("a\\nb"))), "a\nb");
    assert_eq!(text(convert_newlines(&chars("\\n\\n"))), "\n\n");
    assert_eq!(text(convert_newlines(&chars("\\\\n"))), "\\\n");
    assert_eq!(text(convert_newlines(&chars("a\\"))), "a\\");
    assert_eq!(text(convert_newlines(&chars("\\t"))), "\\t");
}

#[test]
fn a_print_statement_is_formatted() {
    let mut variables: Dictionary<VariableValue> = Dictionary::new();
    variables.insert("n".to_string(), VariableValue::String("Bob".to_string()));
    variables.insert("k".to_string(), VariableValue::Integer(-3));
    variables.insert("e".to_string(), VariableValue::String(String::new()));
    let first = "\"%s has %s\\n\"".to_string();
    let args = vec![first.clone(), "n".to_string(), "k".to_string()];
    assert_eq!(
        format_print(&first, &args, &variables).map(text),
        Ok("Bob has -3\n".to_string())
    );
    let args = vec![first.clone(), "n".to_string()];
    assert_eq!(
        format_print(&first, &args, &variables),
        Err(RuntimeError::FormatArityMismatch(first.clone()))
    );
    assert_eq!(
        format_print(&first, &vec![], &variables),
        Err(RuntimeError::FormatArityMismatch(first.clone()))
    );
    let args = vec![first.clone(), "n".to_string(), "m".to_string()];
    assert_eq!(
        format_print(&first, &args, &variables),
        Err(RuntimeError::UndefinedVariable("m".to_string()))
    );
    let bare = "e".to_string();
    assert_eq!(
        format_print(&bare, &vec![bare.clone()], &variables).map(text),
        Ok("true".to_string())
    );
    let bare = "n".to_string();
    assert_eq!(
        format_print(&bare, &vec![bare.clone()], &variables).map(text),
        Ok("false".to_string())
    );
    let bare = "\"".to_string();
    assert_eq!(
        format_print(&bare, &vec![bare.clone()], &variables).map(text),
        Ok(String::new())
    );
    let empty_format = "\"\"".to_string();
    assert_eq!(
        format_print(&empty_format, &vec![empty_format.clone()], &variables).map(text),
        Ok(String::new())
    );
}

#[test]
fn a_dictionary_keeps_one_value_for_each_name() {
    let mut d: Dictionary<VariableValue> = Dictionary::new();
    assert_eq!(d.len(), 0);
    assert_eq!(d.get("a"), None);
    d.insert("a".to_string(), VariableValue::Integer(1));
    d.insert("b".to_string(), VariableValue::Integer(2));
    d.insert("a".to_string(), VariableValue::Integer(3));
    assert_eq!(d.len(), 2);
    assert_eq!(d.get("a"), Some(&VariableValue::Integer(3)));
    assert_eq!(d.get("b"), Some(&VariableValue::Integer(2)));
    assert!(d.contains("b"));
    assert!(!d.contains("c"));
    assert!(!d.contains(""));
}

#[test]
fn the_built_in_print_puts_each_argument_on_a_line() {
    assert_eq!(print(vec![]), "");
    assert_eq!(print(vec!["a".to_string(), "b c".to_string()]), "a\nb c\n");
    assert_eq!(functions(), vec!["print".to_string()]);
}
