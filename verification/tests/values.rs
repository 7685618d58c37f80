use haversine::{Number, Object, Parser, Token, Value, ValueError};

fn number(significand: u64) -> Value {
    Value::Number(Number::from_parts(false, significand, 0))
}

fn parsed(text: &str) -> Value {
    Parser::new(text).parse().unwrap().unwrap()
}

#[test]
fn objects_are_equal_in_any_order() {
    assert_eq!(
        parsed("{\"one\": 1, \"two\": 2}"),
        parsed("{\"two\": 2, \"one\": 1}")
    );
    let mut forth = Object::new();
    forth.insert("one".into(), number(1));
    forth.insert("two".into(), number(2));
    forth.insert("three".into(), Value::Null);
    let mut back = Object::new();
    back.insert("three".into(), Value::Null);
    back.insert("two".into(), number(2));
    back.insert("one".into(), number(1));
    assert_eq!(forth, back);
    assert_eq!(Value::Object(forth), Value::Object(back));
}

#[test]
fn objects_differ_by_key_or_value() {
    assert_ne!(parsed("{\"a\": 1}"), parsed("{\"a\": 2}"));
    assert_ne!(parsed("{\"a\": 1}"), parsed("{\"b\": 1}"));
    assert_ne!(parsed("{\"a\": 1}"), parsed("{\"a\": 1, \"b\": 1}"));
    assert_ne!(parsed("{\"a\": 1, \"b\": 1}"), parsed("{\"a\": 1}"));
    assert_ne!(parsed("{}"), parsed("[]"));
    assert_ne!(
        parsed("{\"a\": {\"x\": 1, \"y\": 2}}"),
        parsed("{\"a\": {\"x\": 2, \"y\": 1}}")
    );
}

#[test]
fn arrays_keep_their_order() {
    assert_eq!(
        parsed("[1, 2, 3]"),
        Value::Array(vec![number(1), number(2), number(3)])
    );
    assert_ne!(parsed("[1, 2, 3]"), parsed("[3, 2, 1]"));
    assert_ne!(parsed("[1, 2]"), parsed("[1, 2, 3]"));
    assert_ne!(parsed("[[]]"), parsed("[]"));
}

#[test]
fn values_of_different_kinds_differ() {
    let values = [
        parsed("null"),
        parsed("true"),
        parsed("false"),
        parsed("0"),
        parsed("\"\""),
        parsed("\"null\""),
        parsed("[]"),
        parsed("{}"),
    ];
    for (i, a) in values.iter().enumerate() {
        for (j, b) in values.iter().enumerate() {
            assert_eq!(a == b, i == j);
        }
    }
}

#[test]
fn object_holds_each_key_once() {
    let mut object = Object::new();
    assert_eq!(object.len(), 0);
    assert!(!object.contains_key("a"));
    assert_eq!(object.get("a"), None);
    assert_eq!(object.insert("a".into(), number(1)), None);
    assert_eq!(object.insert("b".into(), number(2)), None);
    assert_eq!(object.len(), 2);
    assert!(object.contains_key("a"));
    assert!(!object.contains_key("ab"));
    assert!(!object.contains_key(""));
    assert_eq!(object.get("a"), Some(&number(1)));
    assert_eq!(object.get("b"), Some(&number(2)));
    assert_eq!(object.insert("a".into(), number(3)), Some(number(1)));
    assert_eq!(object.len(), 2);
    assert_eq!(object.get("a"), Some(&number(3)));
    assert_eq!(object.get("b"), Some(&number(2)));
}

#[test]
fn keys_are_whole_strings() {
    let value = parsed("{\"radius\": 1, \"radiu\": 2, \"radius \": 3}");
    match value {
        Value::Object(object) => {
            assert_eq!(object.len(), 3);
            assert_eq!(object.get("radius"), Some(&number(1)));
            assert_eq!(object.get("radiu"), Some(&number(2)));
            assert_eq!(object.get("radius "), Some(&number(3)));
            assert_eq!(object.get("Radius"), None);
        }
        other => panic!("no object: {:?}", other),
    }
}

#[test]
fn clone_is_equal() {
    let value = parsed(" {\"pairs\": [{\"x\": 1.5, \"y\": [null, true, \"s\"]}, {}], \"n\": -2 }");
    assert_eq!(value.clone(), value);
    match &value {
        Value::Object(object) => assert_eq!(&object.clone(), object),
        other => panic!("no object: {:?}", other),
    }
}

#[test]
fn value_of_a_token() {
    assert_eq!(Value::try_from(Token::Null), Ok(Value::Null));
    assert_eq!(Value::try_from(Token::Bool(true)), Ok(Value::Bool(true)));
    assert_eq!(
        Value::try_from(Token::Number(Number::from_parts(false, 7, 0))),
        Ok(number(7))
    );
    assert_eq!(
        Value::try_from(Token::String("s".into())),
        Ok(Value::String("s".into()))
    );
    for token in [
        Token::Eof,
        Token::Quote,
        Token::OpenBrace,
        Token::CloseBrace,
        Token::OpenBracket,
        Token::CloseBracket,
        Token::Comma,
        Token::Colon,
    ] {
        assert_eq!(
            Value::try_from(token.clone()),
            Err(ValueError::TryFromToken(token))
        );
    }
}

#[test]
fn number_of_a_value() {
    let value = parsed("-12.5");
    assert_eq!((&value).try_into(), Ok(&Number::from_parts(true, 125, 1)));
    for text in ["null", "true", "\"1\"", "[1]", "{\"a\": 1}"] {
        assert_eq!((&parsed(text)).try_into(), Err(ValueError::TryIntof64));
    }
}
