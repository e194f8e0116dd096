use bftml::parser::attributes::{many, single};
use bftml::parser::errors::{ErrorKind, SyntaxError};
use bftml::parser::values::Value;
use indexmap::IndexMap;

#[test]
fn attributes_test_parse_attr() {
    let mut input = "foo=\"bar\"";
    let parsed = single(&mut input);
    assert_eq!(input, "");
    assert!(parsed.is_ok());
    let pair = parsed.unwrap();
    assert_eq!(pair.0, "foo");
    assert_eq!(pair.1, Value::String("bar".into()));
}

#[test]
fn attributes_test_parse_attrs() {
    let mut input = "foo=\"bar\" bo=\"burnham\"";
    let parsed = many(&mut input);
    assert_eq!(input, "");
    assert!(parsed.is_ok());

    let mut expected: IndexMap<String, Value> = IndexMap::new();
    expected.insert("foo".into(), Value::String("bar".into()));
    expected.insert("bo".into(), Value::String("burnham".into()));

    let actual = parsed.unwrap();
    assert_eq!(expected, actual);
}

#[test]
fn attribute_skips_blanks_before_the_key_only() {
    let mut input = "\t answer=42 rest";
    assert_eq!(Ok(("answer", Value::Int(42))), single(&mut input));
    assert_eq!(" rest", input);

    let mut input = "answer =42";
    assert_eq!(
        Err(SyntaxError { kind: ErrorKind::ExpectedTagName, position: 0 }),
        single(&mut input)
    );
    assert_eq!("answer =42", input);

    let mut input = "answer= 42";
    assert_eq!(
        Err(SyntaxError { kind: ErrorKind::MalformedLiteral, position: 7 }),
        single(&mut input)
    );
}

#[test]
fn attribute_needs_a_key() {
    assert_eq!(
        Err(SyntaxError { kind: ErrorKind::ExpectedTagName, position: 1 }),
        single(&mut " =1")
    );
    assert_eq!(
        Err(SyntaxError { kind: ErrorKind::ExpectedTagName, position: 0 }),
        single(&mut "foo bar=1")
    );
    assert_eq!(
        Err(SyntaxError { kind: ErrorKind::UnexpectedEndOfInput, position: 0 }),
        single(&mut "foo")
    );
    assert_eq!(
        Err(SyntaxError { kind: ErrorKind::UnexpectedEndOfInput, position: 0 }),
        single(&mut "")
    );
}

#[test]
fn attribute_value_failure_is_the_literals() {
    assert_eq!(
        Err(SyntaxError { kind: ErrorKind::MalformedLiteral, position: 4 }),
        single(&mut "foo=bar")
    );
    assert_eq!(
        Err(SyntaxError { kind: ErrorKind::UnexpectedEndOfInput, position: 4 }),
        single(&mut "foo=")
    );
    assert_eq!(
        Err(SyntaxError { kind: ErrorKind::UnexpectedEndOfInput, position: 4 }),
        single(&mut "foo=\"bar")
    );
}

#[test]
fn attributes_of_every_kind_in_order() {
    let mut input = "foo=\"bar\" answer=42 based=true pi=3.14 range=0..1>";
    let found = many(&mut input).unwrap();
    assert_eq!(">", input);
    let entries: Vec<(&str, Value)> = found.iter().map(|(k, v)| (k.as_str(), v.clone())).collect();
    assert_eq!(
        vec![
            ("foo", Value::String("bar".into())),
            ("answer", Value::Int(42)),
            ("based", Value::Bool(true)),
            ("pi", Value::Float("3.14".into())),
            ("range", Value::Range(0..1)),
        ],
        entries
    );
}

#[test]
fn later_value_replaces_earlier_in_place() {
    let mut input = "a=1 b=2 a=3";
    let found = many(&mut input).unwrap();
    assert_eq!("", input);
    let entries: Vec<(&str, Value)> = found.iter().map(|(k, v)| (k.as_str(), v.clone())).collect();
    assert_eq!(vec![("a", Value::Int(3)), ("b", Value::Int(2))], entries);
}

#[test]
fn attributes_stop_where_no_key_follows() {
    let mut input = "a=1 b c=2";
    let found = many(&mut input).unwrap();
    assert_eq!(1, found.len());
    assert_eq!(" b c=2", input);

    let mut input = "/>";
    assert!(many(&mut input).unwrap().is_empty());
    assert_eq!("/>", input);
}

#[test]
fn malformed_value_fails_the_whole_run() {
    let mut input = "a=1 b=nope c=2";
    assert_eq!(
        Err(SyntaxError { kind: ErrorKind::MalformedLiteral, position: 6 }),
        many(&mut input)
    );
    assert_eq!("a=1 b=nope c=2", input);
}
