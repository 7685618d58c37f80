use haversine::{Number, Parser, ParsingError, Token, TokenizeError, Value};

fn number(significand: u64) -> Number {
    Number::from_parts(false, significand, 0)
}

fn parse(text: &str) -> Result<Option<Value>, ParsingError> {
    Parser::new(text).parse()
}

#[test]
fn empty_text_holds_no_value() {
    assert_eq!(parse(""), Ok(None));
    assert_eq!(parse(" \t\r\n "), Ok(None));
    assert_ne!(parse(""), Ok(Some(Value::Null)));
}

#[test]
fn empty_containers_with_whitespace() {
    assert_eq!(parse(" [ \n ] "), Ok(Some(Value::Array(vec![]))));
    assert_eq!(parse("\t{\r\n}\t"), parse("{}"));
    assert_eq!(parse("[]"), parse(" [ ] "));
}

#[test]
fn whitespace_between_tokens_changes_nothing() {
    let dense = "{\"a\":[1,-2.5,true,null,\"x y\"],\"b\":{\"c\":{}}}";
    let spaced = " \n{ \"a\"\t:\r\n[ 1 , -2.5\t,true ,\n null, \"x y\" ] ,\"b\" : { \"c\" :{ } }\n}\n ";
    assert!(parse(dense).unwrap().is_some());
    assert_eq!(parse(dense), parse(spaced));
    assert_eq!(parse("[1,2 3]"), parse(" [ 1 , 2\n3 ] "));
    assert_eq!(parse("[1,]"), parse("[ 1 , ]"));
}

#[test]
fn whitespace_inside_tokens_changes_them() {
    assert_ne!(parse("\"ab\""), parse("\"a b\""));
    assert_ne!(parse("12"), parse("1 2"));
    assert_ne!(parse("null"), parse("nu ll"));
}

#[test]
fn extra_data() {
    assert_eq!(parse("123 456"), Err(ParsingError::ExtraData));
    assert_eq!(parse("null null"), Err(ParsingError::ExtraData));
    assert_eq!(parse("[] ]"), Err(ParsingError::ExtraData));
    assert_eq!(parse("{} ,"), Err(ParsingError::ExtraData));
    assert_eq!(parse("1 2 @"), Err(ParsingError::ExtraData));
}

#[test]
fn tokenizer_error_behind_the_value() {
    assert_eq!(
        parse("1 @"),
        Err(ParsingError::Tokenize(TokenizeError::UnexpectedChar('@')))
    );
    assert_eq!(
        parse("true fals"),
        Err(ParsingError::Tokenize(TokenizeError::InvalidFalse))
    );
    assert_eq!(
        parse("[] \"abc"),
        Err(ParsingError::Tokenize(TokenizeError::ReachedEOF("\"")))
    );
    assert_eq!(
        parse("{} 1.2.3"),
        Err(ParsingError::Tokenize(TokenizeError::InvalidNumber(
            "1.2.3".into()
        )))
    );
}

#[test]
fn duplicate_key() {
    assert_eq!(
        parse("{\"a\": 1, \"a\": 2}"),
        Err(ParsingError::DuplicateObjectKey("a".into()))
    );
    assert_eq!(
        parse("{\"a\": 1, \"b\": 2, \"a\": 1}"),
        Err(ParsingError::DuplicateObjectKey("a".into()))
    );
    assert_eq!(
        parse("[{\"k\": {\"k\": 1}, \"k\": 2}]"),
        Err(ParsingError::DuplicateObjectKey("k".into()))
    );
    assert!(parse("{\"a\": {\"a\": 1}, \"b\": {\"a\": 2}}").is_ok());
}

#[test]
fn a_duplicate_key_is_found_behind_its_value() {
    assert_eq!(
        parse("{\"a\": 1, \"a\": nul}"),
        Err(ParsingError::Tokenize(TokenizeError::InvalidNull))
    );
}

#[test]
fn starting_token() {
    assert_eq!(parse("]"), Err(ParsingError::StartingToken(Token::CloseBracket)));
    assert_eq!(parse("}"), Err(ParsingError::StartingToken(Token::CloseBrace)));
    assert_eq!(parse(","), Err(ParsingError::StartingToken(Token::Comma)));
    assert_eq!(parse(":"), Err(ParsingError::StartingToken(Token::Colon)));
    assert_eq!(parse("[,1]"), Err(ParsingError::StartingToken(Token::Comma)));
    assert_eq!(parse("[1,,2]"), Err(ParsingError::StartingToken(Token::Comma)));
    assert_eq!(parse("{\"a\": }"), Err(ParsingError::StartingToken(Token::CloseBrace)));
}

#[test]
fn token_after_value() {
    assert_eq!(
        parse("[1 2]"),
        Err(ParsingError::TokenAfterValue(Token::Number(number(2))))
    );
    assert_eq!(
        parse("[1 }"),
        Err(ParsingError::TokenAfterValue(Token::CloseBrace))
    );
    assert_eq!(
        parse("[1 : 2]"),
        Err(ParsingError::TokenAfterValue(Token::Colon))
    );
    assert_eq!(
        parse("{\"a\": 1 \"b\": 2}"),
        Err(ParsingError::TokenAfterValue(Token::String("b".into())))
    );
    assert_eq!(
        parse("{\"a\": 1 ]"),
        Err(ParsingError::TokenAfterValue(Token::CloseBracket))
    );
    assert_eq!(
        parse("[[] []]"),
        Err(ParsingError::TokenAfterValue(Token::OpenBracket))
    );
}

#[test]
fn missing_colon() {
    assert_eq!(parse("{\"a\" 1}"), Err(ParsingError::MissingColon));
    assert_eq!(parse("{\"a\", 1}"), Err(ParsingError::MissingColon));
    assert_eq!(parse("{\"a\"}"), Err(ParsingError::MissingColon));
    assert_eq!(parse("{\"a\" \"b\": 1}"), Err(ParsingError::MissingColon));
}

#[test]
fn invalid_key() {
    assert_eq!(
        parse("{1 : 2}"),
        Err(ParsingError::InvalidKey(Value::Number(number(1))))
    );
    assert_eq!(parse("{null: 2}"), Err(ParsingError::InvalidKey(Value::Null)));
    assert_eq!(
        parse("{true: 2}"),
        Err(ParsingError::InvalidKey(Value::Bool(true)))
    );
    assert_eq!(
        parse("{[1]: 2}"),
        Err(ParsingError::InvalidKey(Value::Array(vec![Value::Number(
            number(1)
        )])))
    );
    assert_eq!(
        parse("{\"a\": 1, {}: 2}"),
        Err(ParsingError::InvalidKey(Value::Object(
            haversine::Object::new()
        )))
    );
}

#[test]
fn end_of_input_inside_an_array() {
    let open = Err(ParsingError::ReachedEOF(Token::OpenBracket));
    assert_eq!(parse("["), open);
    assert_eq!(parse("[ "), open);
    assert_eq!(parse("[1"), open);
    assert_eq!(parse("[1,"), open);
    assert_eq!(parse("[1, 2, 3"), open);
    assert_eq!(parse("[[1], "), open);
    assert_eq!(parse("{\"a\": [1, 2"), open);
}

#[test]
fn end_of_input_inside_an_object() {
    let open = Err(ParsingError::ReachedEOF(Token::OpenBrace));
    assert_eq!(parse("{"), open);
    assert_eq!(parse("{ "), open);
    assert_eq!(parse("{\"a\""), open);
    assert_eq!(parse("{\"a\":"), open);
    assert_eq!(parse("{\"a\": 1"), open);
    assert_eq!(parse("{\"a\": 1,"), open);
    assert_eq!(parse("[{\"a\": 1, "), open);
}

#[test]
fn the_innermost_open_structure_is_named() {
    assert_eq!(
        parse("[{\"a\": 1"),
        Err(ParsingError::ReachedEOF(Token::OpenBrace))
    );
    assert_eq!(
        parse("{\"a\": [1"),
        Err(ParsingError::ReachedEOF(Token::OpenBracket))
    );
}

#[test]
fn trailing_comma() {
    assert_eq!(parse("[1,]"), Err(ParsingError::TrailingComma));
    assert_eq!(parse("{\"a\": 1,}"), Err(ParsingError::TrailingComma));
    assert_eq!(parse("[[1, 2, ], 3]"), Err(ParsingError::TrailingComma));
    assert_eq!(
        parse("[1,}"),
        Err(ParsingError::StartingToken(Token::CloseBrace))
    );
    assert_eq!(
        parse("{\"a\": 1,]"),
        Err(ParsingError::StartingToken(Token::CloseBracket))
    );
}

#[test]
fn tokenizer_errors_are_handed_on() {
    assert_eq!(
        parse("nul"),
        Err(ParsingError::Tokenize(TokenizeError::InvalidNull))
    );
    assert_eq!(
        parse("[tru]"),
        Err(ParsingError::Tokenize(TokenizeError::InvalidTrue))
    );
    assert_eq!(
        parse("{\"a\": fals}"),
        Err(ParsingError::Tokenize(TokenizeError::InvalidFalse))
    );
    assert_eq!(
        parse("[1, 2.3.4]"),
        Err(ParsingError::Tokenize(TokenizeError::InvalidNumber(
            "2.3.4".into()
        )))
    );
    assert_eq!(
        parse("[1e5]"),
        Err(ParsingError::Tokenize(TokenizeError::InvalidNumber(
            "1e5".into()
        )))
    );
    assert_eq!(
        parse("[\"abc"),
        Err(ParsingError::Tokenize(TokenizeError::ReachedEOF("\"")))
    );
    assert_eq!(
        parse("[1, @]"),
        Err(ParsingError::Tokenize(TokenizeError::UnexpectedChar('@')))
    );
    assert_eq!(
        parse("[@"),
        Err(ParsingError::Tokenize(TokenizeError::UnexpectedChar('@')))
    );
    assert_eq!(
        parse("[1 @"),
        Err(ParsingError::Tokenize(TokenizeError::UnexpectedChar('@')))
    );
    assert_eq!(
        parse("{\"a\" @"),
        Err(ParsingError::Tokenize(TokenizeError::UnexpectedChar('@')))
    );
}

#[test]
fn the_first_error_is_the_one_returned() {
    assert_eq!(
        parse("[1 2 @"),
        Err(ParsingError::TokenAfterValue(Token::Number(number(2))))
    );
    assert_eq!(
        parse("[@ 1 2"),
        Err(ParsingError::Tokenize(TokenizeError::UnexpectedChar('@')))
    );
}

#[test]
fn error_from_a_tokenizer_error() {
    assert_eq!(
        ParsingError::from(TokenizeError::InvalidTrue),
        ParsingError::Tokenize(TokenizeError::InvalidTrue)
    );
}

#[test]
fn parse_value_reads_one_value_and_stops() {
    let mut parser = Parser::new(" [1, 2] {\"a\": null} 3");
    assert_eq!(
        parser.parse_value(),
        Ok(Some(Value::Array(vec![
            Value::Number(number(1)),
            Value::Number(number(2))
        ])))
    );
    let mut object = haversine::Object::new();
    object.insert("a".into(), Value::Null);
    assert_eq!(parser.parse_value(), Ok(Some(Value::Object(object))));
    assert_eq!(parser.parse_value(), Ok(Some(Value::Number(number(3)))));
    assert_eq!(parser.parse_value(), Ok(None));
    assert_eq!(parser.parse_value(), Ok(None));
}

#[test]
fn nested_values() {
    let deep = format!("{}{}", "[".repeat(200), "]".repeat(200));
    let mut expected = Value::Array(vec![]);
    for _ in 1..200 {
        expected = Value::Array(vec![expected]);
    }
    assert_eq!(parse(&deep), Ok(Some(expected)));
}
