//! What a text holds: the definition of the parser on sequences of
//! characters.

use crate::lexing::{lemma_lex_at_end, lemma_lex_end, lemma_lex_len};
use crate::tokenize::{all_whitespace, lex, TokenView, TokenizeErrorView};
use crate::value::ValueView;
use vstd::prelude::*;

verus! {

/// The mathematical content of a parsing error.
pub enum ParsingErrorView {
    MissingColon,
    TrailingComma,
    ExtraData,
    InvalidKey(ValueView),
    ReachedEOF(TokenView),
    StartingToken(TokenView),
    Tokenize(TokenizeErrorView),
    TryFromToken(TokenView),
    TokenAfterValue(TokenView),
    DuplicateObjectKey(Seq<char>),
}

/// How a list of elements or members goes on.
pub enum Step {
    /// Another element follows.
    More,
    /// The closing bracket or brace was read.
    Done,
    /// The text is no list.
    Fail(ParsingErrorView),
}

/// What is found where a list's first element may begin, behind the opening
/// token `open`. Only a closing token is taken from the text `s`; anything
/// else is looked at and left in place.
pub open spec fn list_start(s: Seq<char>, open: TokenView, close: TokenView) -> (Step, Seq<char>) {
    match lex(s).0 {
        Err(e) => (Step::Fail(ParsingErrorView::Tokenize(e)), s),
        Ok(token) => if token == close {
            (Step::Done, lex(s).1)
        } else if token == TokenView::Eof {
            (Step::Fail(ParsingErrorView::ReachedEOF(open)), s)
        } else {
            (Step::More, s)
        },
    }
}

/// What is found behind an element of a list: a comma with something other
/// than the closing token behind it, or the closing token. The token behind
/// a comma is looked at and left in place.
pub open spec fn list_next(s: Seq<char>, open: TokenView, close: TokenView) -> (Step, Seq<char>) {
    let (lexeme, rest) = lex(s);
    match lexeme {
        Err(e) => (Step::Fail(ParsingErrorView::Tokenize(e)), rest),
        Ok(token) => if token == TokenView::Comma {
            match lex(rest).0 {
                Err(e) => (Step::Fail(ParsingErrorView::Tokenize(e)), rest),
                Ok(next) => if next == close {
                    (Step::Fail(ParsingErrorView::TrailingComma), rest)
                } else if next == TokenView::Eof {
                    (Step::Fail(ParsingErrorView::ReachedEOF(open)), rest)
                } else {
                    (Step::More, rest)
                },
            }
        } else if token == close {
            (Step::Done, rest)
        } else if token == TokenView::Eof {
            (Step::Fail(ParsingErrorView::ReachedEOF(open)), rest)
        } else {
            (Step::Fail(ParsingErrorView::TokenAfterValue(token)), rest)
        },
    }
}

/// What is found behind a member's key: the colon.
pub open spec fn member_colon(s: Seq<char>) -> (Option<ParsingErrorView>, Seq<char>) {
    let (lexeme, rest) = lex(s);
    match lexeme {
        Err(e) => (Some(ParsingErrorView::Tokenize(e)), rest),
        Ok(token) => if token == TokenView::Colon {
            (None, rest)
        } else if token == TokenView::Eof {
            (Some(ParsingErrorView::ReachedEOF(TokenView::OpenBrace)), rest)
        } else {
            (Some(ParsingErrorView::MissingColon), rest)
        },
    }
}

/// The value that the text `s` begins with, if it begins with one, and the
/// text that is left behind it. Text that holds no token holds no value.
pub open spec fn parse_value_from(s: Seq<char>) -> (
    Result<Option<ValueView>, ParsingErrorView>,
    Seq<char>,
)
    decreases s.len(), 0int,
{
    let (lexeme, rest) = lex(s);
    match lexeme {
        Err(e) => (Err(ParsingErrorView::Tokenize(e)), rest),
        Ok(TokenView::Eof) => (Ok(None), rest),
        Ok(TokenView::Null) => (Ok(Some(ValueView::Null)), rest),
        Ok(TokenView::Bool(b)) => (Ok(Some(ValueView::Bool(b))), rest),
        Ok(TokenView::String(text)) => (Ok(Some(ValueView::String(text))), rest),
        Ok(TokenView::Number(n)) => (Ok(Some(ValueView::Number(n))), rest),
        Ok(TokenView::OpenBracket) => {
            proof {
                lemma_lex_len(s);
            }
            let (array, rest) = parse_array_from(rest);
            (
                match array {
                    Ok(v) => Ok(Some(v)),
                    Err(e) => Err(e),
                },
                rest,
            )
        },
        Ok(TokenView::OpenBrace) => {
            proof {
                lemma_lex_len(s);
            }
            let (object, rest) = parse_object_from(rest);
            (
                match object {
                    Ok(v) => Ok(Some(v)),
                    Err(e) => Err(e),
                },
                rest,
            )
        },
        Ok(token) => (Err(ParsingErrorView::StartingToken(token)), rest),
    }
}

/// The array whose text `s` follows the opening bracket.
pub open spec fn parse_array_from(s: Seq<char>) -> (Result<ValueView, ParsingErrorView>, Seq<char>)
    decreases s.len(), 2int,
{
    let (step, rest) = list_start(s, TokenView::OpenBracket, TokenView::CloseBracket);
    match step {
        Step::Fail(e) => (Err(e), rest),
        Step::Done => (Ok(ValueView::Array(Seq::empty())), rest),
        Step::More => parse_items_from(s, Seq::empty()),
    }
}

/// The array that begins with `items` and goes on with the elements in `s`.
///
/// Each element takes at least one character, so the text behind it is
/// shorter than `s` ([`lemma_value_from_len`]); the definition asks for that
/// before it goes on with the next element, to be seen to end.
pub open spec fn parse_items_from(s: Seq<char>, items: Seq<ValueView>) -> (
    Result<ValueView, ParsingErrorView>,
    Seq<char>,
)
    decreases s.len(), 1int,
{
    let (element, rest) = parse_value_from(s);
    match element {
        Err(e) => (Err(e), rest),
        Ok(None) => (Err(ParsingErrorView::ReachedEOF(TokenView::OpenBracket)), rest),
        Ok(Some(v)) => {
            let (step, rest) = list_next(rest, TokenView::OpenBracket, TokenView::CloseBracket);
            match step {
                Step::Fail(e) => (Err(e), rest),
                Step::Done => (Ok(ValueView::Array(items.push(v))), rest),
                Step::More => if rest.len() < s.len() {
                    parse_items_from(rest, items.push(v))
                } else {
                    (Ok(ValueView::Array(items.push(v))), rest)
                },
            }
        },
    }
}

/// The object whose text `s` follows the opening brace.
pub open spec fn parse_object_from(s: Seq<char>) -> (Result<ValueView, ParsingErrorView>, Seq<char>)
    decreases s.len(), 2int,
{
    let (step, rest) = list_start(s, TokenView::OpenBrace, TokenView::CloseBrace);
    match step {
        Step::Fail(e) => (Err(e), rest),
        Step::Done => (Ok(ValueView::Object(Map::empty())), rest),
        Step::More => parse_members_from(s, Map::empty()),
    }
}

/// The object that begins with `members` and goes on with the members in `s`.
///
/// As in [`parse_items_from`], the comparisons of lengths always hold.
pub open spec fn parse_members_from(s: Seq<char>, members: Map<Seq<char>, ValueView>) -> (
    Result<ValueView, ParsingErrorView>,
    Seq<char>,
)
    decreases s.len(), 1int,
{
    let (key, rest) = parse_value_from(s);
    match key {
        Err(e) => (Err(e), rest),
        Ok(None) => (Err(ParsingErrorView::ReachedEOF(TokenView::OpenBrace)), rest),
        Ok(Some(ValueView::String(name))) => {
            let (missing, rest) = member_colon(rest);
            match missing {
                Some(e) => (Err(e), rest),
                None => if rest.len() < s.len() {
                    let (value, rest) = parse_value_from(rest);
                    match value {
                        Err(e) => (Err(e), rest),
                        Ok(None) => (Err(ParsingErrorView::ReachedEOF(TokenView::OpenBrace)), rest),
                        Ok(Some(v)) => if members.dom().contains(name) {
                            (Err(ParsingErrorView::DuplicateObjectKey(name)), rest)
                        } else {
                            let (step, rest) = list_next(
                                rest,
                                TokenView::OpenBrace,
                                TokenView::CloseBrace,
                            );
                            match step {
                                Step::Fail(e) => (Err(e), rest),
                                Step::Done => (Ok(ValueView::Object(members.insert(name, v))), rest),
                                Step::More => if rest.len() < s.len() {
                                    parse_members_from(rest, members.insert(name, v))
                                } else {
                                    (Ok(ValueView::Object(members.insert(name, v))), rest)
                                },
                            }
                        },
                    }
                } else {
                    (Ok(ValueView::Object(members)), rest)
                },
            }
        },
        Ok(Some(v)) => (Err(ParsingErrorView::InvalidKey(v)), rest),
    }
}

/// What a whole text holds: one value and nothing behind it, or nothing at
/// all. Another token behind the value is extra data; text behind it that
/// is no token fails as it fails anywhere else.
pub open spec fn parse_text(s: Seq<char>) -> Result<Option<ValueView>, ParsingErrorView> {
    let (value, rest) = parse_value_from(s);
    match value {
        Err(e) => Err(e),
        Ok(v) => match lex(rest).0 {
            Ok(TokenView::Eof) => Ok(v),
            Ok(_) => Err(ParsingErrorView::ExtraData),
            Err(e) => Err(ParsingErrorView::Tokenize(e)),
        },
    }
}

/// A text holds no value exactly when it holds nothing but whitespace.
pub proof fn lemma_blank_text(s: Seq<char>)
    ensures
        parse_text(s) == Ok::<Option<ValueView>, ParsingErrorView>(None) <==> all_whitespace(s),
{
    lemma_lex_end(s);
    if all_whitespace(s) {
        lemma_lex_at_end(s);
    }
}

/// The first step into a list takes nothing from the text or one token.
pub proof fn lemma_list_start_len(s: Seq<char>, open: TokenView, close: TokenView)
    ensures
        list_start(s, open, close).1.len() <= s.len(),
{
    lemma_lex_len(s);
}

/// The step behind an element takes at least the token it reads.
pub proof fn lemma_list_next_len(s: Seq<char>, open: TokenView, close: TokenView)
    ensures
        list_next(s, open, close).1.len() <= s.len(),
        list_next(s, open, close).0 is More ==> list_next(s, open, close).1.len() < s.len(),
{
    lemma_lex_len(s);
}

/// A value is cut from the front of the text: what is left behind it is
/// shorter than the text.
pub proof fn lemma_value_from_len(s: Seq<char>)
    ensures
        parse_value_from(s).1.len() <= s.len(),
        parse_value_from(s).0 matches Ok(Some(_)) ==> parse_value_from(s).1.len() < s.len(),
    decreases s.len(), 0int,
{
    lemma_lex_len(s);
    let (lexeme, rest) = lex(s);
    match lexeme {
        Ok(TokenView::OpenBracket) => lemma_array_from_len(rest),
        Ok(TokenView::OpenBrace) => lemma_object_from_len(rest),
        _ => {},
    }
}

/// What is left behind an array is no longer than the text.
pub proof fn lemma_array_from_len(s: Seq<char>)
    ensures
        parse_array_from(s).1.len() <= s.len(),
    decreases s.len(), 2int,
{
    lemma_list_start_len(s, TokenView::OpenBracket, TokenView::CloseBracket);
    lemma_items_from_len(s, Seq::empty());
}

/// What is left behind the elements of an array is no longer than the text.
pub proof fn lemma_items_from_len(s: Seq<char>, items: Seq<ValueView>)
    ensures
        parse_items_from(s, items).1.len() <= s.len(),
    decreases s.len(), 1int,
{
    lemma_value_from_len(s);
    let (element, rest) = parse_value_from(s);
    if let Ok(Some(v)) = element {
        lemma_list_next_len(rest, TokenView::OpenBracket, TokenView::CloseBracket);
        let (step, rest) = list_next(rest, TokenView::OpenBracket, TokenView::CloseBracket);
        if step is More {
            lemma_items_from_len(rest, items.push(v));
        }
    }
}

/// What is left behind an object is no longer than the text.
pub proof fn lemma_object_from_len(s: Seq<char>)
    ensures
        parse_object_from(s).1.len() <= s.len(),
    decreases s.len(), 2int,
{
    lemma_list_start_len(s, TokenView::OpenBrace, TokenView::CloseBrace);
    lemma_members_from_len(s, Map::empty());
}

/// What is left behind the members of an object is no longer than the text.
pub proof fn lemma_members_from_len(s: Seq<char>, members: Map<Seq<char>, ValueView>)
    ensures
        parse_members_from(s, members).1.len() <= s.len(),
    decreases s.len(), 1int,
{
    lemma_value_from_len(s);
    let (key, rest) = parse_value_from(s);
    if let Ok(Some(ValueView::String(name))) = key {
        lemma_lex_len(rest);
        let (missing, rest) = member_colon(rest);
        if missing is None {
            lemma_value_from_len(rest);
            let (value, rest) = parse_value_from(rest);
            if let Ok(Some(v)) = value {
                lemma_list_next_len(rest, TokenView::OpenBrace, TokenView::CloseBrace);
                let (step, rest) = list_next(rest, TokenView::OpenBrace, TokenView::CloseBrace);
                if step is More && !members.dom().contains(name) {
                    lemma_members_from_len(rest, members.insert(name, v));
                }
            }
        }
    }
}

} // verus!
