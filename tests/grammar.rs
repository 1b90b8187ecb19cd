use foamparser::scanner::{Scanner, Token};
use foamparser::Foam;

#[test]
fn attrib_single_value() {
    let result = Foam::parse("a_var value;");
    assert!(result.is_ok());
}

#[test]
fn multiple_values() {
    let result = Foam::parse("a_var value1 valu2;");
    assert!(result.is_ok());
}

#[test]
fn single_name() {
    let result = Foam::parse("a a;");
    assert!(result.is_ok());
}

#[test]
fn dict() {
    let result = Foam::parse("dict { a 1; }");
    assert!(result.is_ok(), "{:?}", result);
}

#[test]
fn two_attribs() {
    let result = Foam::parse("dict { a 1; b 2; }");
    assert!(result.is_ok(), "{:?}", result);
}

#[test]
fn dict_with_list() {
    let result = Foam::parse("dict { l ( 1 2 ); }");
    assert!(result.is_ok(), "{:?}", result);
}

#[test]
fn dict_with_dicts() {
    let result = Foam::parse("dict { d { a 1; } }");
    assert!(result.is_ok(), "{:?}", result);
}

#[test]
fn with_size() {
    let result = Foam::parse("2 ( 1 2 )");
    assert!(result.is_ok());
}

#[test]
fn comment() {
    let mut scanner = Scanner::new("/* this is comment */");
    let result = scanner.next().unwrap();
    assert!(matches!(result, Ok(Token::MultilineComment("/* this is comment */"))));
}

#[test]
fn broken() {
    let mut scanner = Scanner::new("/* this is comment");
    let result = scanner.next().unwrap();
    assert!(result.is_err());
}

#[test]
fn embedded() {
    let mut scanner = Scanner::new("/* this /* is */ comment */");
    let result = scanner.next().unwrap();
    assert!(matches!(result, Ok(Token::MultilineComment("/* this /* is */"))));
}
