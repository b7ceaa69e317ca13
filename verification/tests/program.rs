use cel::objects::{Key, KeyRef, StringValue, ValueType};
use cel::parser::winnow_parser::WinnowParser as Parser;
use cel::{ExecutionError, OverloadError, Program};

#[test]
fn parse() {
    Program::compile("1 + 1").unwrap();
}

#[test]
fn references() {
    let p = Program::compile("[1, 1].map(x, x * 2)").unwrap();
    assert!(p.references().has_variable("x"));
    assert_eq!(p.references().variables().len(), 1);
}

#[test]
fn references_name_variables_and_functions() {
    let expression = Parser::new().parse("foo.bar == true").unwrap();
    assert!(expression.references().has_variable("foo"));
    let expression = Parser::new().parse("size(foo) > 0").unwrap();
    let references = expression.references();
    assert!(references.has_function("size"));
    assert!(references.has_function("_>_"));
    let mut functions = references.functions();
    functions.sort();
    assert_eq!(functions, vec!["_>_".to_string(), "size".to_string()]);
    let expression = Parser::new()
        .parse("foo.bar == true && bar.baz == false && zzz.bar == false")
        .unwrap();
    let mut variables = expression.references().variables();
    variables.sort();
    assert_eq!(variables, vec!["bar".to_string(), "foo".to_string(), "zzz".to_string()]);
    let expression = Parser::new().parse("foo && size(foo) > 0").unwrap();
    let references = expression.references();
    assert!(references.has_variable("foo"));
    assert!(references.has_function("size"));
    assert!(!references.has_variable("size"));
}

#[test]
fn compile_reports_errors() {
    let err = Program::compile("1 +").unwrap_err();
    assert!(!err.errors.is_empty());
}

#[test]
fn program_keeps_its_expression() {
    let p = Program::compile("a").unwrap();
    assert!(matches!(&p.expression().expr, cel::common::ast::Expr::Ident(s) if s == "a"));
}

#[test]
fn no_such_overload_reports_the_call_and_types() {
    let e = ExecutionError::no_such_overload("_>_", vec!["int".to_string(), "string".to_string()]);
    let ExecutionError::NoSuchOverload(o) = e else { panic!("expected a no-such-overload error") };
    assert_eq!(o.message(), "found no matching overload for '_>_' applied to '(int, string)'");
    assert!(!o.is_member_function());
    let e = ExecutionError::no_such_member_overload("contains", vec!["string".to_string(), "int".to_string()]);
    let ExecutionError::NoSuchOverload(o) = e else { panic!("expected a no-such-overload error") };
    assert_eq!(o.message(), "found no matching overload for 'contains' applied to 'string.(int)'");
    assert_eq!(o.function(), Some("contains"));
    assert_eq!(o.argument_types(), ["string", "int"]);
    assert!(o.is_member_function());
    assert_eq!(OverloadError::default().message(), "No such overload");
    assert_eq!(OverloadError::default().function(), None);
}

#[test]
fn execution_errors_carry_their_details() {
    assert_eq!(
        ExecutionError::invalid_argument_count(2, 3),
        ExecutionError::InvalidArgumentCount { expected: 2, actual: 3 }
    );
    assert_eq!(ExecutionError::no_such_key("baz"), ExecutionError::NoSuchKey("baz".to_string()));
    assert_eq!(
        ExecutionError::undeclared_reference("missing"),
        ExecutionError::UndeclaredReference("missing".to_string())
    );
    assert_eq!(ExecutionError::missing_argument_or_target(), ExecutionError::MissingArgumentOrTarget);
}

#[test]
fn object_keys_and_values() {
    assert_eq!(Key::Int(-12).text(), "-12");
    assert_eq!(Key::Int(i64::MIN).text(), "-9223372036854775808");
    assert_eq!(Key::Uint(7).text(), "7");
    assert_eq!(Key::Bool(false).text(), "false");
    assert_eq!(Key::from("k".to_string()).text(), "k");
    let k = Key::String("k".to_string());
    assert_eq!(k.as_key_ref(), KeyRef::String(StringValue::Owned("k".to_string())));
    assert_eq!(k.as_key_ref().to_key(), k);
    assert_eq!(StringValue::Borrowed("a").as_owned(), "a");
    assert_eq!(ValueType::Mapping.as_str(), "map");
    assert_eq!(ValueType::Null.as_str(), "null");
    assert_eq!(Key::from(5i64), Key::Int(5));
}
