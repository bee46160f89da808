use icscript::error::{Error, RuntimeError};
use icscript::interpreter::{Function, Interpreter};
use icscript::token::{LexicalError, Token};
use icscript::value::VariableValue;

fn run(script: &str) -> (Interpreter, Result<(), Error>) {
    let mut interpreter = Interpreter::new();
    let result = interpreter.run(script.to_string());
    (interpreter, result)
}

#[test]
fn can_print_hello_world() {
    let mut interpreter = Interpreter::new();
    let result = interpreter.run("print(\"Hello, World!\")".to_string());
    assert_eq!(result, Ok(()));
    assert_eq!(interpreter.output, "Hello, World!");
}

#[test]
fn can_assign_variable() {
    let mut interpreter = Interpreter::new();
    let result = interpreter.run("var x = 10".to_string());
    assert_eq!(result, Ok(()));
    assert_eq!(interpreter.variables.get("x").unwrap(), &VariableValue::Integer(10));
}

#[test]
fn assigns_a_text() {
    let (interpreter, result) = run("var s = \"hi\"");
    assert_eq!(result, Ok(()));
    assert_eq!(
        interpreter.variables.get("s"),
        Some(&VariableValue::String("hi".to_string()))
    );
}

#[test]
fn declares_without_a_value() {
    let (interpreter, result) = run("var u");
    assert_eq!(result, Ok(()));
    assert_eq!(interpreter.variables.get("u"), Some(&VariableValue::Undefined));
    assert_eq!(interpreter.variables.len(), 1);
}

#[test]
fn a_later_declaration_replaces_an_earlier_one() {
    let (interpreter, result) = run("var x = 1\nvar x = \"two\"");
    assert_eq!(result, Ok(()));
    assert_eq!(
        interpreter.variables.get("x"),
        Some(&VariableValue::String("two".to_string()))
    );
    assert_eq!(interpreter.variables.len(), 1);
}

#[test]
fn substitutes_a_variable() {
    let (interpreter, result) = run("var n = \"Bob\"\nprint(\"Hello %s\", n)");
    assert_eq!(result, Ok(()));
    assert_eq!(interpreter.output, "Hello Bob");
}

#[test]
fn substitutes_an_integer() {
    let (interpreter, result) = run("var n = 42\nprint(\"n is %s.\", n)");
    assert_eq!(result, Ok(()));
    assert_eq!(interpreter.output, "n is 42.");
}

#[test]
fn an_undefined_value_renders_as_nothing() {
    let (interpreter, result) = run("var u\nprint(\"[%s]\", u)");
    assert_eq!(result, Ok(()));
    assert_eq!(interpreter.output, "[]");
}

#[test]
fn too_few_arguments_fail_and_write_nothing() {
    let (interpreter, result) = run("var n = \"Bob\"\nprint(\"%s %s\", n)");
    assert_eq!(
        result,
        Err(Error::Runtime(RuntimeError::FormatArityMismatch(
            "\"%s %s\"".to_string()
        )))
    );
    assert_eq!(interpreter.output, "");
}

#[test]
fn too_many_arguments_fail() {
    let (interpreter, result) = run("var n = \"Bob\"\nprint(\"Hello\", n)");
    assert_eq!(
        result,
        Err(Error::Runtime(RuntimeError::FormatArityMismatch(
            "\"Hello\"".to_string()
        )))
    );
    assert_eq!(interpreter.output, "");
}

#[test]
fn every_percent_counts_as_a_marker() {
    let (interpreter, result) = run("print(\"100%\")");
    assert_eq!(
        result,
        Err(Error::Runtime(RuntimeError::FormatArityMismatch(
            "\"100%\"".to_string()
        )))
    );
    assert_eq!(interpreter.output, "");
}

#[test]
fn an_unbound_argument_fails() {
    let (interpreter, result) = run("var a = 1\nprint(\"%s %s\", a, zz)");
    assert_eq!(
        result,
        Err(Error::Runtime(RuntimeError::UndefinedVariable("zz".to_string())))
    );
    assert_eq!(interpreter.output, "");
}

#[test]
fn the_first_unbound_argument_is_reported() {
    let (_, result) = run("print(\"%s %s\", yy, zz)");
    assert_eq!(
        result,
        Err(Error::Runtime(RuntimeError::UndefinedVariable("yy".to_string())))
    );
}

#[test]
fn substitution_goes_left_to_right_and_uses_each_argument_once() {
    let (interpreter, result) =
        run("var a = \"x%s\"\nvar b = \"y\"\nvar c = \"z\"\nprint(\"%s-%s-%s\", a, b, c)");
    assert_eq!(result, Ok(()));
    assert_eq!(interpreter.output, "x%s-y-z");
}

#[test]
fn a_written_newline_becomes_a_newline() {
    let (interpreter, result) = run("var a = \"1\\n2\"\nprint(\"a\\nb %s\", a)");
    assert_eq!(result, Ok(()));
    assert_eq!(interpreter.output, "a\nb 1\n2");
}

#[test]
fn print_writes_no_newline_of_its_own() {
    let (interpreter, result) = run("print(\"a\")\nprint(\"b\")");
    assert_eq!(result, Ok(()));
    assert_eq!(interpreter.output, "ab");
}

#[test]
fn a_bare_name_prints_whether_the_value_is_the_empty_text() {
    let (interpreter, result) = run("var e = \"\"\nvar x = 10\nprint(e)\nprint(x)");
    assert_eq!(result, Ok(()));
    assert_eq!(interpreter.output, "truefalse");
}

#[test]
fn a_bare_name_that_is_not_bound_prints_nothing() {
    let (interpreter, result) = run("print(nothing)");
    assert_eq!(result, Ok(()));
    assert_eq!(interpreter.output, "");
}

#[test]
fn a_print_statement_without_an_argument_stops_the_run() {
    let (interpreter, result) = run("print(\"a\")\nprint()\nprint(\"b\")");
    assert_eq!(result, Err(Error::Lexical(LexicalError::MissingArgument)));
    assert_eq!(interpreter.output, "a");
}

#[test]
fn output_before_a_failure_stays() {
    let (interpreter, result) = run("print(\"a\")\nprint(\"%s\", zz)\nprint(\"b\")");
    assert_eq!(
        result,
        Err(Error::Runtime(RuntimeError::UndefinedVariable("zz".to_string())))
    );
    assert_eq!(interpreter.output, "a");
}

#[test]
fn defines_a_function() {
    let (interpreter, result) = run("funky greet(a, b) { print(\"hi\") }");
    assert_eq!(result, Ok(()));
    assert_eq!(
        interpreter.functions.get("greet"),
        Some(&Function {
            body: "print(\"hi\")".to_string(),
            params: vec!["a".to_string(), "b".to_string()],
        })
    );
    assert_eq!(interpreter.output, "");
}

#[test]
fn calls_a_function() {
    let (interpreter, result) = run("funky f() { print(\"in f\") }\nf()");
    assert_eq!(result, Ok(()));
    assert_eq!(interpreter.output, "in f");
    assert!(interpreter.call_stack.is_empty());
}

#[test]
fn calls_from_an_indented_line() {
    let script = "funky g() { print(\"b\") }\nfunky f() {\n    print(\"a\")\n    g()\n}\n  f()";
    let (interpreter, result) = run(script);
    assert_eq!(result, Ok(()));
    assert_eq!(interpreter.output, "ab");
}

#[test]
fn a_second_definition_replaces_the_first() {
    let script = "funky f() { print(\"one\") }\nfunky f() { print(\"two\") }\nf()";
    let (interpreter, result) = run(script);
    assert_eq!(result, Ok(()));
    assert_eq!(interpreter.output, "two");
    assert_eq!(interpreter.functions.len(), 1);
}

#[test]
fn a_function_that_calls_itself_is_stopped() {
    let script = "funky f() {\n print(\"x\")\n f()\n}\nf()";
    let (interpreter, result) = run(script);
    assert_eq!(
        result,
        Err(Error::Runtime(RuntimeError::RecursiveCallDetected(
            "f".to_string()
        )))
    );
    assert_eq!(interpreter.output, "x");
    assert!(interpreter.call_stack.is_empty());
}

#[test]
fn a_call_back_through_another_function_is_stopped() {
    let script = "funky f() { g() }\nfunky g() { f() }\nf()";
    let (interpreter, result) = run(script);
    assert_eq!(
        result,
        Err(Error::Runtime(RuntimeError::RecursiveCallDetected(
            "f".to_string()
        )))
    );
    assert!(interpreter.call_stack.is_empty());
}

#[test]
fn a_function_can_be_called_twice_in_a_row() {
    let script = "funky f() { print(\"x\") }\nf()\nf()";
    let (interpreter, result) = run(script);
    assert_eq!(result, Ok(()));
    assert_eq!(interpreter.output, "xx");
}

#[test]
fn an_unknown_function_fails() {
    let (interpreter, result) = run("print(\"a\")\nnope()");
    assert_eq!(
        result,
        Err(Error::Runtime(RuntimeError::FunctionNotFound("nope".to_string())))
    );
    assert_eq!(interpreter.output, "a");
}

#[test]
fn a_function_does_not_see_the_variables_of_its_caller() {
    let script = "var x = 1\nfunky f() { print(\"%s\", x) }\nf()";
    let (interpreter, result) = run(script);
    assert_eq!(
        result,
        Err(Error::Runtime(RuntimeError::UndefinedVariable("x".to_string())))
    );
    assert!(interpreter.call_stack.is_empty());
}

#[test]
fn the_variables_of_a_function_end_with_it() {
    let script = "var x = 1\nfunky f() { var x = 2\nvar y = 3 }\nf()";
    let (interpreter, result) = run(script);
    assert_eq!(result, Ok(()));
    assert_eq!(interpreter.variables.get("x"), Some(&VariableValue::Integer(1)));
    assert_eq!(interpreter.variables.get("y"), None);
}

#[test]
fn a_function_defined_in_a_body_stays_defined() {
    let script = "funky outer() { funky inner() { print(\"i\") } }\nouter()\ninner()";
    let (interpreter, result) = run(script);
    assert_eq!(result, Ok(()));
    assert_eq!(interpreter.output, "i");
    assert!(interpreter.functions.contains("inner"));
}

#[test]
fn a_lexical_failure_stops_the_run() {
    let (interpreter, result) = run("print(\"a\")\nvar s = \"open");
    assert_eq!(result, Err(Error::Lexical(LexicalError::UnterminatedQuote)));
    assert_eq!(interpreter.output, "a");
}

#[test]
fn evaluate_binds_parameters_by_position() {
    let mut interpreter = Interpreter::new();
    let define = Token::FunctionDefinition(
        "f".to_string(),
        "print(\"%s|%s\", a, b)".to_string(),
        vec!["a".to_string(), "b".to_string()],
    );
    assert_eq!(interpreter.evaluate(&define), Ok(()));
    let call = Token::FunctionCall("f".to_string(), vec!["1".to_string()]);
    assert_eq!(interpreter.evaluate(&call), Ok(()));
    assert_eq!(interpreter.output, "1|");
    let call = Token::FunctionCall(
        "f".to_string(),
        vec!["x".to_string(), "y".to_string(), "z".to_string()],
    );
    assert_eq!(interpreter.evaluate(&call), Ok(()));
    assert_eq!(interpreter.output, "1|x|y");
}

#[test]
fn evaluate_refuses_a_function_that_is_on_the_stack() {
    let mut interpreter = Interpreter::new();
    let define = Token::FunctionDefinition("f".to_string(), "print(\"x\")".to_string(), vec![]);
    assert_eq!(interpreter.evaluate(&define), Ok(()));
    interpreter.call_stack.push("f".to_string());
    let call = Token::FunctionCall("f".to_string(), vec![]);
    assert_eq!(
        interpreter.evaluate(&call),
        Err(Error::Runtime(RuntimeError::RecursiveCallDetected(
            "f".to_string()
        )))
    );
    assert_eq!(interpreter.call_stack, vec!["f".to_string()]);
    assert_eq!(interpreter.output, "");
}

#[test]
fn evaluate_of_the_end_of_input_changes_nothing() {
    let mut interpreter = Interpreter::new();
    interpreter.assign("x", VariableValue::Integer(1));
    assert_eq!(interpreter.evaluate(&Token::EOF), Ok(()));
    assert_eq!(interpreter.variables.len(), 1);
    assert_eq!(interpreter.functions.len(), 0);
    assert_eq!(interpreter.output, "");
}

#[test]
fn assign_binds_and_replaces() {
    let mut interpreter = Interpreter::new();
    interpreter.assign("x", VariableValue::Integer(1));
    interpreter.assign("x", VariableValue::Integer(2));
    assert_eq!(interpreter.variables.get("x"), Some(&VariableValue::Integer(2)));
    assert!(interpreter.variables.contains("x"));
    assert!(!interpreter.variables.contains("y"));
}

#[test]
fn a_run_goes_on_with_the_state_of_the_run_before() {
    let mut interpreter = Interpreter::new();
    assert_eq!(interpreter.run("var n = 7".to_string()), Ok(()));
    assert_eq!(interpreter.run("print(\"%s\", n)".to_string()), Ok(()));
    assert_eq!(interpreter.output, "7");
}
