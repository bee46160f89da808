use icscript::lexer::{syntax, Lexer};
use icscript::token::{keywords, Keyword, LexicalError, Token};
use icscript::value::VariableValue;

fn tokens(script: &str) -> Vec<Result<Token, LexicalError>> {
    let mut lexer = Lexer::new(script);
    let mut out = Vec::new();
    loop {
        let token = lexer.next_token();
        let end = token == Ok(Token::EOF);
        out.push(token);
        if end || out.len() > 100 {
            return out;
        }
    }
}

fn text(s: &str) -> String {
    s.to_string()
}

#[test]
fn an_empty_text_is_at_its_end() {
    assert_eq!(tokens(""), vec![Ok(Token::EOF)]);
    assert_eq!(tokens(" \n\t "), vec![Ok(Token::EOF)]);
}

#[test]
fn the_end_repeats() {
    let mut lexer = Lexer::new("var x");
    assert_eq!(
        lexer.next_token(),
        Ok(Token::Variable(text("x"), VariableValue::Undefined))
    );
    assert_eq!(lexer.next_token(), Ok(Token::EOF));
    assert_eq!(lexer.next_token(), Ok(Token::EOF));
    assert_eq!(lexer.cursor(), 5);
}

#[test]
fn reads_a_print_statement() {
    assert_eq!(
        tokens("print(\"Hello, World!\")"),
        vec![
            Ok(Token::PrintWithArgument(
                text("\"Hello, World!\""),
                vec![text("\"Hello, World!\"")]
            )),
            Ok(Token::EOF)
        ]
    );
}

#[test]
fn reads_the_arguments_of_a_print_statement() {
    assert_eq!(
        tokens("print (\"a, b %s %s\" ,  x , y)"),
        vec![
            Ok(Token::PrintWithArgument(
                text("\"a, b %s %s\""),
                vec![text("\"a, b %s %s\""), text("x"), text("y")]
            )),
            Ok(Token::EOF)
        ]
    );
}

#[test]
fn nested_brackets_do_not_end_a_print_statement() {
    assert_eq!(
        tokens("print(f(a, (b)), c) var z"),
        vec![
            Ok(Token::PrintWithArgument(
                text("f(a"),
                vec![text("f(a"), text("(b))"), text("c")]
            )),
            Ok(Token::Variable(text("z"), VariableValue::Undefined)),
            Ok(Token::EOF)
        ]
    );
}

#[test]
fn a_print_statement_without_an_argument_fails() {
    assert_eq!(
        tokens("print()"),
        vec![Err(LexicalError::MissingArgument), Ok(Token::EOF)]
    );
    assert_eq!(
        tokens("print( )"),
        vec![Err(LexicalError::MissingArgument), Ok(Token::EOF)]
    );
    assert_eq!(
        tokens("print( , ) var x"),
        vec![
            Err(LexicalError::MissingArgument),
            Ok(Token::Variable(text("x"), VariableValue::Undefined)),
            Ok(Token::EOF)
        ]
    );
}

#[test]
fn a_print_token_holds_its_first_argument_twice() {
    for script in [
        "print(a)",
        "print(\"x\", b)",
        "print( , c, d)",
        "print((e), f)",
    ] {
        match Lexer::new(script).next_token() {
            Ok(Token::PrintWithArgument(first, args)) => {
                assert!(!args.is_empty());
                assert_eq!(args[0], first);
            }
            other => panic!("no print token: {:?}", other),
        }
    }
}

#[test]
fn print_without_a_bracket_fails() {
    assert_eq!(
        tokens("print \"x\""),
        vec![Err(LexicalError::UnmatchedBracket), Ok(Token::EOF)]
    );
}

#[test]
fn print_without_a_closing_bracket_fails() {
    assert_eq!(
        tokens("print(\"x\", (a)"),
        vec![Err(LexicalError::UnmatchedBracket), Ok(Token::EOF)]
    );
}

#[test]
fn an_open_quote_in_an_argument_list_fails() {
    assert_eq!(
        tokens("print(\"x)"),
        vec![Err(LexicalError::UnterminatedQuote), Ok(Token::EOF)]
    );
    assert_eq!(
        tokens("print(a,\"x)"),
        vec![Err(LexicalError::UnterminatedQuote), Ok(Token::EOF)]
    );
}

#[test]
fn reads_variable_declarations() {
    assert_eq!(
        tokens("var x = 10\nvar s=\"hi\"\nvar u\n"),
        vec![
            Ok(Token::Variable(text("x"), VariableValue::Integer(10))),
            Ok(Token::Variable(text("s"), VariableValue::String(text("hi")))),
            Ok(Token::Variable(text("u"), VariableValue::Undefined)),
            Ok(Token::EOF)
        ]
    );
}

#[test]
fn a_text_value_is_taken_as_it_stands() {
    assert_eq!(
        tokens("var s = \"a\\\"b\\n\" var t = \"\""),
        vec![
            Ok(Token::Variable(
                text("s"),
                VariableValue::String(text("a\\\"b\\n"))
            )),
            Ok(Token::Variable(text("t"), VariableValue::String(text("")))),
            Ok(Token::EOF)
        ]
    );
}

#[test]
fn an_escaped_backslash_does_not_escape_the_quote() {
    assert_eq!(
        tokens("var s = \"a\\\\\" var t"),
        vec![
            Ok(Token::Variable(text("s"), VariableValue::String(text("a\\\\")))),
            Ok(Token::Variable(text("t"), VariableValue::Undefined)),
            Ok(Token::EOF)
        ]
    );
}

#[test]
fn a_text_value_without_an_end_fails() {
    assert_eq!(
        tokens("var s = \"abc\\\""),
        vec![Err(LexicalError::UnterminatedQuote), Ok(Token::EOF)]
    );
}

#[test]
fn the_largest_integer_is_read() {
    assert_eq!(
        tokens("var x = 9223372036854775807"),
        vec![
            Ok(Token::Variable(text("x"), VariableValue::Integer(i64::MAX))),
            Ok(Token::EOF)
        ]
    );
    assert_eq!(
        tokens("var x = 0009"),
        vec![
            Ok(Token::Variable(text("x"), VariableValue::Integer(9))),
            Ok(Token::EOF)
        ]
    );
}

#[test]
fn an_integer_that_does_not_fit_fails() {
    assert_eq!(
        tokens("var x = 9223372036854775808"),
        vec![Err(LexicalError::InvalidInteger), Ok(Token::EOF)]
    );
    assert_eq!(
        tokens("var x = 99999999999999999999999"),
        vec![Err(LexicalError::InvalidInteger), Ok(Token::EOF)]
    );
}

#[test]
fn a_value_that_is_no_integer_fails() {
    assert_eq!(
        tokens("var x = -"),
        vec![Err(LexicalError::InvalidInteger), Ok(Token::EOF)]
    );
    assert_eq!(
        tokens("var x ="),
        vec![Err(LexicalError::InvalidInteger), Ok(Token::EOF)]
    );
}

#[test]
fn names_and_spaces_follow_unicode() {
    assert_eq!(
        tokens("var\u{a0}\u{e9}t\u{e9}1\u{2003}=\u{3000}5"),
        vec![
            Ok(Token::Variable(
                text("\u{e9}t\u{e9}1"),
                VariableValue::Integer(5)
            )),
            Ok(Token::EOF)
        ]
    );
    assert_eq!(
        tokens("var a_b"),
        vec![
            Ok(Token::Variable(text("a"), VariableValue::Undefined)),
            Ok(Token::EOF)
        ]
    );
}

#[test]
fn the_plain_whitespace_characters_separate() {
    assert_eq!(
        tokens("\u{b}\u{c}var\tx\r\n=\u{b}7\u{c}"),
        vec![
            Ok(Token::Variable(text("x"), VariableValue::Integer(7))),
            Ok(Token::EOF)
        ]
    );
    assert_eq!(
        tokens("var\u{85}y\u{2028}"),
        vec![
            Ok(Token::Variable(text("y"), VariableValue::Undefined)),
            Ok(Token::EOF)
        ]
    );
}

#[test]
fn a_name_is_made_of_letters_and_digits() {
    assert_eq!(
        tokens("var azAZ09-"),
        vec![
            Ok(Token::Variable(text("azAZ09"), VariableValue::Undefined)),
            Ok(Token::EOF)
        ]
    );
    assert_eq!(
        tokens("var @x"),
        vec![
            Ok(Token::Variable(text(""), VariableValue::Undefined)),
            Ok(Token::EOF)
        ]
    );
    assert_eq!(
        tokens("var \u{1f}x"),
        vec![
            Ok(Token::Variable(text(""), VariableValue::Undefined)),
            Ok(Token::EOF)
        ]
    );
}

#[test]
fn reads_a_function_definition() {
    assert_eq!(
        tokens("funky  greet ( a, b ,c )  {\n  print(\"x\")\n}\n"),
        vec![
            Ok(Token::FunctionDefinition(
                text("greet"),
                text("print(\"x\")"),
                vec![text("a"), text("b"), text("c")]
            )),
            Ok(Token::EOF)
        ]
    );
}

#[test]
fn a_body_keeps_its_nested_braces() {
    assert_eq!(
        tokens("funky f() { funky g() { print(\"g\") } g() } var x"),
        vec![
            Ok(Token::FunctionDefinition(
                text("f"),
                text("funky g() { print(\"g\") } g()"),
                vec![]
            )),
            Ok(Token::Variable(text("x"), VariableValue::Undefined)),
            Ok(Token::EOF)
        ]
    );
}

#[test]
fn a_body_without_an_end_fails() {
    assert_eq!(
        tokens("funky f() { { print(\"x\") }"),
        vec![Err(LexicalError::UnmatchedBrace), Ok(Token::EOF)]
    );
    assert_eq!(
        tokens("funky f() print(\"x\")"),
        vec![Err(LexicalError::UnmatchedBrace), Ok(Token::EOF)]
    );
}

#[test]
fn a_definition_without_brackets_fails() {
    assert_eq!(
        tokens("funky f { }"),
        vec![Err(LexicalError::UnmatchedBracket), Ok(Token::EOF)]
    );
    assert_eq!(
        tokens("funky f(a { }"),
        vec![Err(LexicalError::UnmatchedBracket), Ok(Token::EOF)]
    );
}

#[test]
fn reads_a_function_call() {
    assert_eq!(
        tokens("f()"),
        vec![Ok(Token::FunctionCall(text("f"), vec![])), Ok(Token::EOF)]
    );
    assert_eq!(
        tokens("var x = 1\n   go()  \n"),
        vec![
            Ok(Token::Variable(text("x"), VariableValue::Integer(1))),
            Ok(Token::FunctionCall(text("go"), vec![])),
            Ok(Token::EOF)
        ]
    );
}

#[test]
fn the_name_of_a_call_is_all_that_stands_before_it_on_its_line() {
    assert_eq!(
        tokens("var x = 1 go()"),
        vec![
            Ok(Token::Variable(text("x"), VariableValue::Integer(1))),
            Ok(Token::FunctionCall(text("var x = 1 go"), vec![])),
            Ok(Token::EOF)
        ]
    );
}

#[test]
fn reserved_words_are_rejected() {
    assert_eq!(
        tokens("if"),
        vec![
            Err(LexicalError::UnsupportedKeyword(Keyword::If)),
            Ok(Token::EOF)
        ]
    );
    assert_eq!(
        tokens("  else while for here"),
        vec![
            Err(LexicalError::UnsupportedKeyword(Keyword::Else)),
            Err(LexicalError::UnsupportedKeyword(Keyword::While)),
            Err(LexicalError::UnsupportedKeyword(Keyword::For)),
            Err(LexicalError::UnsupportedKeyword(Keyword::Here)),
            Ok(Token::EOF)
        ]
    );
}

#[test]
fn other_characters_are_passed_over() {
    assert_eq!(
        tokens("@ ; 12 + var x = 3 ;;"),
        vec![
            Ok(Token::Variable(text("x"), VariableValue::Integer(3))),
            Ok(Token::EOF)
        ]
    );
}

#[test]
fn the_cursor_counts_characters() {
    let mut lexer = Lexer::new("  \u{e9}\u{e9} var x");
    assert_eq!(lexer.cursor(), 0);
    assert_eq!(lexer.current_char(), Some(' '));
    lexer.skip_whitespace();
    assert_eq!(lexer.cursor(), 2);
    assert_eq!(lexer.current_char(), Some('\u{e9}'));
    assert_eq!(
        lexer.next_token(),
        Ok(Token::Variable(text("x"), VariableValue::Undefined))
    );
    assert_eq!(lexer.cursor(), 10);
    assert_eq!(lexer.current_char(), None);
}

#[test]
fn extract_args_splits_at_commas_outside_quotes() {
    let lexer = Lexer::new("");
    assert_eq!(
        lexer.extract_args("\"a,b\", c ,, d ,"),
        Ok(vec![text("\"a,b\""), text("c"), text("d")])
    );
    assert_eq!(lexer.extract_args(""), Ok(vec![]));
    assert_eq!(lexer.extract_args(" , "), Ok(vec![]));
    assert_eq!(
        lexer.extract_args("a \"b,c\""),
        Ok(vec![text("a \"b"), text("c\"")])
    );
    assert_eq!(
        lexer.extract_args("x, \"open"),
        Ok(vec![text("x"), text("\"open")])
    );
    assert_eq!(
        lexer.extract_args("x,\"open"),
        Err(LexicalError::UnterminatedQuote)
    );
}

#[test]
fn the_keywords_come_in_their_order() {
    assert_eq!(
        keywords(),
        vec![
            Keyword::Var,
            Keyword::Print,
            Keyword::If,
            Keyword::Else,
            Keyword::While,
            Keyword::For,
            Keyword::Funky,
            Keyword::Here
        ]
    );
    let spelled: Vec<String> = keywords()
        .iter()
        .map(|k| k.spelling().iter().collect())
        .collect();
    assert_eq!(
        spelled,
        vec!["var", "print", "if", "else", "while", "for", "funky", "here"]
    );
    assert_eq!(syntax(), vec![vec!['(', ')']]);
}
