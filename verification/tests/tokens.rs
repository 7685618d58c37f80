use haversine::tokenize::EOF_CHAR;
use haversine::{is_whitespace, Number, Token, TokenizeError, Tokenizer};

#[test]
fn whitespace_is_four_characters() {
    assert!(is_whitespace(' '));
    assert!(is_whitespace('\t'));
    assert!(is_whitespace('\n'));
    assert!(is_whitespace('\r'));
    assert!(!is_whitespace('a'));
    assert!(!is_whitespace('\0'));
    assert!(!is_whitespace('\u{a0}'));
}

#[test]
fn tokens_in_order() {
    let mut tokenizer = Tokenizer::new(" { \"a\" : [ 1 , true,false , null ] } ");
    let expected = vec![
        Token::OpenBrace,
        Token::String("a".into()),
        Token::Colon,
        Token::OpenBracket,
        Token::Number(Number::from_parts(false, 1, 0)),
        Token::Comma,
        Token::Bool(true),
        Token::Comma,
        Token::Bool(false),
        Token::Comma,
        Token::Null,
        Token::CloseBracket,
        Token::CloseBrace,
        Token::Eof,
    ];
    for token in expected {
        assert_eq!(tokenizer.next_token(), Ok(token));
    }
}

#[test]
fn end_of_input_again_and_again() {
    let mut tokenizer = Tokenizer::new("null  ");
    assert_eq!(tokenizer.next_token(), Ok(Token::Null));
    assert_eq!(tokenizer.next_token(), Ok(Token::Eof));
    assert_eq!(tokenizer.next_token(), Ok(Token::Eof));
    assert_eq!(tokenizer.peek_next(), Ok(Token::Eof));
    assert_eq!(tokenizer.next_token(), Ok(Token::Eof));
    let mut empty = Tokenizer::new("");
    assert_eq!(empty.next_token(), Ok(Token::Eof));
    assert_eq!(empty.next_token(), Ok(Token::Eof));
}

#[test]
fn peek_leaves_the_token_in_place() {
    let mut tokenizer = Tokenizer::new("  [ 17 ]");
    assert_eq!(tokenizer.peek_next(), Ok(Token::OpenBracket));
    assert_eq!(tokenizer.peek_next(), Ok(Token::OpenBracket));
    assert_eq!(tokenizer.next_token(), Ok(Token::OpenBracket));
    assert_eq!(
        tokenizer.peek_next(),
        Ok(Token::Number(Number::from_parts(false, 17, 0)))
    );
    assert_eq!(
        tokenizer.next_token(),
        Ok(Token::Number(Number::from_parts(false, 17, 0)))
    );
    assert_eq!(tokenizer.next_token(), Ok(Token::CloseBracket));
}

#[test]
fn peek_of_an_error_leaves_the_text_in_place() {
    let mut tokenizer = Tokenizer::new(" nulx");
    assert_eq!(tokenizer.peek_next(), Err(TokenizeError::InvalidNull));
    assert_eq!(tokenizer.peek_next_char(), ' ');
    assert_eq!(tokenizer.next_token(), Err(TokenizeError::InvalidNull));
    assert_eq!(tokenizer.peek_next_char(), EOF_CHAR);
}

#[test]
fn misspelled_literals() {
    assert_eq!(Tokenizer::new("nul").next_token(), Err(TokenizeError::InvalidNull));
    assert_eq!(Tokenizer::new("nill").next_token(), Err(TokenizeError::InvalidNull));
    assert_eq!(Tokenizer::new("n").next_token(), Err(TokenizeError::InvalidNull));
    assert_eq!(Tokenizer::new("tru").next_token(), Err(TokenizeError::InvalidTrue));
    assert_eq!(Tokenizer::new("trUe").next_token(), Err(TokenizeError::InvalidTrue));
    assert_eq!(Tokenizer::new("fals").next_token(), Err(TokenizeError::InvalidFalse));
    assert_eq!(Tokenizer::new("falsy").next_token(), Err(TokenizeError::InvalidFalse));
}

#[test]
fn a_literal_takes_its_length_whatever_it_finds() {
    let mut tokenizer = Tokenizer::new("nope,1");
    assert_eq!(tokenizer.next_token(), Err(TokenizeError::InvalidNull));
    assert_eq!(tokenizer.next_token(), Ok(Token::Comma));
    let mut tokenizer = Tokenizer::new("nullnull");
    assert_eq!(tokenizer.next_token(), Ok(Token::Null));
    assert_eq!(tokenizer.next_token(), Ok(Token::Null));
    assert_eq!(tokenizer.next_token(), Ok(Token::Eof));
}

#[test]
fn strings_are_taken_as_they_stand() {
    let mut tokenizer = Tokenizer::new("\"a\\n b\\\" ,");
    assert_eq!(tokenizer.next_token(), Ok(Token::String("a\\n b\\".into())));
    assert_eq!(tokenizer.next_token(), Ok(Token::Comma));
    assert_eq!(
        Tokenizer::new("\"\"").next_token(),
        Ok(Token::String(String::new()))
    );
    assert_eq!(
        Tokenizer::new("\"h\u{e9}llo \u{1f600}\"").next_token(),
        Ok(Token::String("h\u{e9}llo \u{1f600}".into()))
    );
}

#[test]
fn unterminated_string() {
    let mut tokenizer = Tokenizer::new("\"abc");
    assert_eq!(tokenizer.next_token(), Err(TokenizeError::ReachedEOF("\"")));
    assert_eq!(tokenizer.next_token(), Ok(Token::Eof));
    assert_eq!(
        Tokenizer::new("\"").next_token(),
        Err(TokenizeError::ReachedEOF("\""))
    );
}

#[test]
fn a_number_runs_up_to_what_ends_it() {
    for end in [" ", "\t", "\n", "\r", ",", "]", "}", "\0", ""] {
        let text = format!("-12.5{}", end);
        let mut tokenizer = Tokenizer::new(&text);
        assert_eq!(
            tokenizer.next_token(),
            Ok(Token::Number(Number::from_parts(true, 125, 1)))
        );
        assert_eq!(
            tokenizer.peek_next_char(),
            end.chars().next().unwrap_or(EOF_CHAR)
        );
    }
}

#[test]
fn invalid_number_carries_its_text() {
    assert_eq!(
        Tokenizer::new("1.2.3 4").next_token(),
        Err(TokenizeError::InvalidNumber("1.2.3".into()))
    );
    assert_eq!(
        Tokenizer::new("-").next_token(),
        Err(TokenizeError::InvalidNumber("-".into()))
    );
    assert_eq!(
        Tokenizer::new("12null").next_token(),
        Err(TokenizeError::InvalidNumber("12null".into()))
    );
    assert_eq!(
        Tokenizer::new("1e5,").next_token(),
        Err(TokenizeError::InvalidNumber("1e5".into()))
    );
    assert_eq!(
        Tokenizer::new("1:2").next_token(),
        Err(TokenizeError::InvalidNumber("1:2".into()))
    );
}

#[test]
fn unexpected_characters() {
    assert_eq!(
        Tokenizer::new("@").next_token(),
        Err(TokenizeError::UnexpectedChar('@'))
    );
    assert_eq!(
        Tokenizer::new(" .5").next_token(),
        Err(TokenizeError::UnexpectedChar('.'))
    );
    assert_eq!(
        Tokenizer::new("+1").next_token(),
        Err(TokenizeError::UnexpectedChar('+'))
    );
    assert_eq!(
        Tokenizer::new("\0").next_token(),
        Err(TokenizeError::UnexpectedChar('\0'))
    );
    let mut tokenizer = Tokenizer::new("'a'");
    assert_eq!(tokenizer.next_token(), Err(TokenizeError::UnexpectedChar('\'')));
    assert_eq!(tokenizer.peek_next_char(), 'a');
}

#[test]
fn bump_takes_one_character() {
    let mut tokenizer = Tokenizer::new("a\u{e9}");
    assert_eq!(tokenizer.peek_next_char(), 'a');
    assert_eq!(tokenizer.bump(), Some('a'));
    assert_eq!(tokenizer.peek_next_char(), '\u{e9}');
    assert_eq!(tokenizer.bump(), Some('\u{e9}'));
    assert_eq!(tokenizer.bump(), None);
    assert_eq!(tokenizer.bump(), None);
    assert_eq!(tokenizer.peek_next_char(), EOF_CHAR);
}

#[test]
fn is_eof_at_the_end_and_before_nul() {
    let mut tokenizer = Tokenizer::new("a\0b");
    assert!(!tokenizer.is_eof());
    tokenizer.bump();
    assert!(tokenizer.is_eof());
    tokenizer.bump();
    assert!(!tokenizer.is_eof());
    tokenizer.bump();
    assert!(tokenizer.is_eof());
}

#[test]
fn eat_whitespace_stops_at_the_token() {
    let mut tokenizer = Tokenizer::new(" \t\r\n x ");
    tokenizer.eat_whitespace();
    assert_eq!(tokenizer.peek_next_char(), 'x');
    tokenizer.eat_whitespace();
    assert_eq!(tokenizer.bump(), Some('x'));
    tokenizer.eat_whitespace();
    assert_eq!(tokenizer.bump(), None);
}

#[test]
fn eat_while_takes_what_the_predicate_accepts() {
    let mut tokenizer = Tokenizer::new("aaab");
    tokenizer.eat_while(|c| c == 'a');
    assert_eq!(tokenizer.bump(), Some('b'));
    let mut tokenizer = Tokenizer::new("aaab");
    tokenizer.eat_while(|c| c == 'b');
    assert_eq!(tokenizer.bump(), Some('a'));
    let mut tokenizer = Tokenizer::new("aaa");
    tokenizer.eat_while(|_| true);
    assert_eq!(tokenizer.bump(), None);
}

#[test]
fn eat_while_stops_before_nul() {
    let mut tokenizer = Tokenizer::new("aa\0a");
    tokenizer.eat_while(|_| true);
    assert_eq!(tokenizer.bump(), Some('\0'));
    assert_eq!(tokenizer.bump(), Some('a'));
}
