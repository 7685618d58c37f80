//! The parser: from a text to the value that it holds.

use crate::grammar::{
    lemma_list_next_len, lemma_value_from_len, parse_array_from, parse_items_from,
    parse_members_from, parse_object_from, parse_text, parse_value_from, ParsingErrorView,
};
use crate::lexing::lemma_lex_len;
use crate::tokenize::{Token, TokenView, TokenizeError, Tokenizer};
use crate::value::{views_of, Object, Value, ValueView};
use vstd::prelude::*;

verus! {

/// Why a text holds no value.
#[derive(Debug, Clone, PartialEq)]
pub enum ParsingError {
    /// A member's key is not followed by a colon
    MissingColon,
    /// A comma stands before the closing bracket or brace
    TrailingComma,
    /// Something follows the value
    ExtraData,
    /// A member's key is not a string
    InvalidKey(Value),
    /// The input ended inside the array or object that the token opened
    ReachedEOF(Token),
    /// No value begins with the token
    StartingToken(Token),
    /// The text could not be cut into tokens
    Tokenize(TokenizeError),
    /// The token is none that stands for a value by itself
    TryFromToken(Token),
    /// The token stands behind an element where a comma or the closing
    /// bracket or brace belongs
    TokenAfterValue(Token),
    /// The key stands twice in one object
    DuplicateObjectKey(String),
}

impl View for ParsingError {
    type V = ParsingErrorView;

    open spec fn view(&self) -> ParsingErrorView {
        match self {
            ParsingError::MissingColon => ParsingErrorView::MissingColon,
            ParsingError::TrailingComma => ParsingErrorView::TrailingComma,
            ParsingError::ExtraData => ParsingErrorView::ExtraData,
            ParsingError::InvalidKey(v) => ParsingErrorView::InvalidKey(v@),
            ParsingError::ReachedEOF(t) => ParsingErrorView::ReachedEOF(t@),
            ParsingError::StartingToken(t) => ParsingErrorView::StartingToken(t@),
            ParsingError::Tokenize(e) => ParsingErrorView::Tokenize(e@),
            ParsingError::TryFromToken(t) => ParsingErrorView::TryFromToken(t@),
            ParsingError::TokenAfterValue(t) => ParsingErrorView::TokenAfterValue(t@),
            ParsingError::DuplicateObjectKey(k) => ParsingErrorView::DuplicateObjectKey(k@),
        }
    }
}

impl From<TokenizeError> for ParsingError {
    fn from(error: TokenizeError) -> (r: ParsingError) {
        ParsingError::Tokenize(error)
    }
}

impl vstd::std_specs::convert::FromSpecImpl<TokenizeError> for ParsingError {
    open spec fn obeys_from_spec() -> bool {
        true
    }

    open spec fn from_spec(error: TokenizeError) -> ParsingError {
        ParsingError::Tokenize(error)
    }
}

/// The mathematical content of what `parse_value` and `parse` return.
pub open spec fn outcome_of(r: Result<Option<Value>, ParsingError>) -> Result<
    Option<ValueView>,
    ParsingErrorView,
> {
    match r {
        Ok(Some(v)) => Ok(Some(v@)),
        Ok(None) => Ok(None),
        Err(e) => Err(e@),
    }
}

/// The mathematical content of a parsed array or object, or of the error.
pub open spec fn result_of(r: Result<Value, ParsingError>) -> Result<ValueView, ParsingErrorView> {
    match r {
        Ok(v) => Ok(v@),
        Err(e) => Err(e@),
    }
}

/// A parser over one text, to be used once.
pub struct Parser {
    tokenizer: Tokenizer,
}

impl View for Parser {
    type V = Seq<char>;

    /// The text that is still to be read.
    closed spec fn view(&self) -> Seq<char> {
        self.tokenizer@
    }
}

impl Parser {
    /// A parser at the start of `input`.
    pub fn new(input: &str) -> (r: Parser)
        ensures
            r@ == input@,
    {
        Parser { tokenizer: Tokenizer::new(input) }
    }

    /// Reads the whole text: one value with nothing behind it, or no value
    /// where the text holds no token. Another token behind the value is
    /// extra data.
    pub fn parse(self) -> (r: Result<Option<Value>, ParsingError>)
        ensures
            outcome_of(r) == parse_text(self@),
    {
        let mut parser = self;
        let parsed = match parser.parse_value() {
            Ok(parsed) => parsed,
            Err(e) => {
                return Err(e);
            },
        };
        match parser.tokenizer.next_token() {
            Ok(Token::Eof) => Ok(parsed),
            Ok(_) => Err(ParsingError::ExtraData),
            Err(e) => Err(ParsingError::from(e)),
        }
    }

    /// Reads the value that the text begins with, if it begins with one.
    pub fn parse_value(&mut self) -> (r: Result<Option<Value>, ParsingError>)
        ensures
            (outcome_of(r), final(self)@) == parse_value_from(old(self)@),
        decreases old(self)@.len(), 0int,
    {
        proof {
            lemma_lex_len(self@);
        }
        match self.tokenizer.next_token() {
            Ok(Token::Eof) => Ok(None),
            Ok(Token::Null) => Ok(Some(Value::Null)),
            Ok(Token::Bool(b)) => Ok(Some(Value::Bool(b))),
            Ok(Token::String(s)) => Ok(Some(Value::String(s))),
            Ok(Token::Number(n)) => Ok(Some(Value::Number(n))),
            Ok(Token::OpenBracket) => match self.parse_array() {
                Ok(v) => Ok(Some(v)),
                Err(e) => Err(e),
            },
            Ok(Token::OpenBrace) => match self.parse_object() {
                Ok(v) => Ok(Some(v)),
                Err(e) => Err(e),
            },
            Ok(t) => Err(ParsingError::StartingToken(t)),
            Err(e) => Err(ParsingError::Tokenize(e)),
        }
    }

    /// Reads an array behind its opening bracket.
    fn parse_array(&mut self) -> (r: Result<Value, ParsingError>)
        ensures
            (result_of(r), final(self)@) == parse_array_from(old(self)@),
        decreases old(self)@.len(), 2int,
    {
        let mut items: Vec<Value> = Vec::new();

        // Handle empty array right away: `[]`
        match self.tokenizer.peek_next() {
            Err(e) => {
                return Err(ParsingError::from(e));
            },
            Ok(Token::CloseBracket) => {
                let _ = self.tokenizer.next_token();
                assert(views_of(items@) =~= Seq::<ValueView>::empty());
                return Ok(Value::Array(items));
            },
            Ok(Token::Eof) => {
                return Err(ParsingError::ReachedEOF(Token::OpenBracket));
            },
            Ok(_) => {},
        }
        assert(views_of(items@) =~= Seq::<ValueView>::empty());

        loop
            invariant
                self@.len() <= old(self)@.len(),
                parse_array_from(old(self)@) == parse_items_from(self@, views_of(items@)),
            decreases self@.len(),
        {
            proof {
                lemma_value_from_len(self@);
            }
            let ghost before = self@;
            let ghost seen = views_of(items@);
            let v = match self.parse_value() {
                Err(e) => {
                    return Err(e);
                },
                Ok(None) => {
                    return Err(ParsingError::ReachedEOF(Token::OpenBracket));
                },
                Ok(Some(v)) => v,
            };
            items.push(v);
            proof {
                assert(views_of(items@) =~= seen.push(v@));
                lemma_list_next_len(self@, TokenView::OpenBracket, TokenView::CloseBracket);
            }

            // After a value we must see either `,` (more) or `]` (end)
            match self.tokenizer.next_token() {
                Err(e) => {
                    return Err(ParsingError::from(e));
                },
                Ok(Token::Comma) => {
                    // Disallow trailing comma: `,]`
                    match self.tokenizer.peek_next() {
                        Err(e) => {
                            return Err(ParsingError::from(e));
                        },
                        Ok(Token::CloseBracket) => {
                            return Err(ParsingError::TrailingComma);
                        },
                        Ok(Token::Eof) => {
                            return Err(ParsingError::ReachedEOF(Token::OpenBracket));
                        },
                        Ok(_) => {},
                    }
                },
                Ok(Token::CloseBracket) => {
                    return Ok(Value::Array(items));
                },
                Ok(Token::Eof) => {
                    return Err(ParsingError::ReachedEOF(Token::OpenBracket));
                },
                Ok(tok) => {
                    return Err(ParsingError::TokenAfterValue(tok));
                },
            }
        }
    }

    /// Reads an object behind its opening brace.
    fn parse_object(&mut self) -> (r: Result<Value, ParsingError>)
        ensures
            (result_of(r), final(self)@) == parse_object_from(old(self)@),
        decreases old(self)@.len(), 2int,
    {
        let mut map = Object::new();

        // Empty object: `{}`
        match self.tokenizer.peek_next() {
            Err(e) => {
                return Err(ParsingError::from(e));
            },
            Ok(Token::CloseBrace) => {
                let _ = self.tokenizer.next_token();
                return Ok(Value::Object(map));
            },
            Ok(Token::Eof) => {
                return Err(ParsingError::ReachedEOF(Token::OpenBrace));
            },
            Ok(_) => {},
        }

        loop
            invariant
                self@.len() <= old(self)@.len(),
                parse_object_from(old(self)@) == parse_members_from(self@, map@),
            decreases self@.len(),
        {
            proof {
                lemma_value_from_len(self@);
            }
            // Key must be a string
            let key = match self.parse_value() {
                Err(e) => {
                    return Err(e);
                },
                Ok(Some(Value::String(s))) => s,
                Ok(Some(val)) => {
                    return Err(ParsingError::InvalidKey(val));
                },
                Ok(None) => {
                    return Err(ParsingError::ReachedEOF(Token::OpenBrace));
                },
            };
            proof {
                lemma_lex_len(self@);
            }

            // Colon after key
            match self.tokenizer.next_token() {
                Err(e) => {
                    return Err(ParsingError::from(e));
                },
                Ok(Token::Colon) => {},
                Ok(Token::Eof) => {
                    return Err(ParsingError::ReachedEOF(Token::OpenBrace));
                },
                Ok(_) => {
                    return Err(ParsingError::MissingColon);
                },
            }
            proof {
                lemma_value_from_len(self@);
            }

            let value = match self.parse_value() {
                Err(e) => {
                    return Err(e);
                },
                Ok(None) => {
                    return Err(ParsingError::ReachedEOF(Token::OpenBrace));
                },
                Ok(Some(v)) => v,
            };

            // Forbid duplicate keys
            if map.contains_key(key.as_str()) {
                return Err(ParsingError::DuplicateObjectKey(key));
            }
            map.insert(key, value);
            proof {
                lemma_list_next_len(self@, TokenView::OpenBrace, TokenView::CloseBrace);
            }

            // After a member, require `,` or `}`
            match self.tokenizer.next_token() {
                Err(e) => {
                    return Err(ParsingError::from(e));
                },
                Ok(Token::Comma) => {
                    // Forbid trailing comma: `,}`
                    match self.tokenizer.peek_next() {
                        Err(e) => {
                            return Err(ParsingError::from(e));
                        },
                        Ok(Token::CloseBrace) => {
                            return Err(ParsingError::TrailingComma);
                        },
                        Ok(Token::Eof) => {
                            return Err(ParsingError::ReachedEOF(Token::OpenBrace));
                        },
                        Ok(_) => {},
                    }
                },
                Ok(Token::CloseBrace) => {
                    return Ok(Value::Object(map));
                },
                Ok(Token::Eof) => {
                    return Err(ParsingError::ReachedEOF(Token::OpenBrace));
                },
                Ok(tok) => {
                    return Err(ParsingError::TokenAfterValue(tok));
                },
            }
        }
    }
}

} // verus!
