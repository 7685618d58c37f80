//! The tokens of a text, and that what a text holds depends on them alone.

use crate::grammar::{
    lemma_list_next_len, lemma_value_from_len, list_next, list_start, member_colon,
    parse_array_from, parse_items_from, parse_members_from, parse_object_from, parse_text,
    parse_value_from,
};
use crate::lexing::{lemma_lex_at_end, lemma_lex_len};
use crate::tokenize::{is_proper_token, lex, Lexeme, TokenView, TokenizeErrorView};
use crate::value::ValueView;
use vstd::prelude::*;

verus! {

/// The tokens of `s` in their order, up to and with the end of the input or
/// the first error.
pub open spec fn tokens(s: Seq<char>) -> Seq<Lexeme>
    decreases s.len(),
{
    let (lexeme, rest) = lex(s);
    if is_proper_token(lexeme) {
        proof {
            lemma_lex_len(s);
        }
        seq![lexeme] + tokens(rest)
    } else {
        seq![lexeme]
    }
}

/// The tokens of a text that begins with a token are that token and the
/// tokens of what is left behind it.
pub proof fn lemma_tokens_behind(s: Seq<char>)
    requires
        is_proper_token(lex(s).0),
    ensures
        tokens(s) == seq![lex(s).0] + tokens(lex(s).1),
{
}

/// Behind the end of the input there are the tokens of the end of the input.
pub proof fn lemma_tokens_at_end(s: Seq<char>)
    requires
        lex(s).0 == Ok::<TokenView, TokenizeErrorView>(TokenView::Eof),
    ensures
        tokens(lex(s).1) == tokens(s),
{
    lemma_lex_at_end(s);
}

/// Texts with the same tokens begin with the same token, and have the same
/// tokens behind it.
pub proof fn lemma_lex_same_tokens(a: Seq<char>, b: Seq<char>)
    requires
        tokens(a) == tokens(b),
    ensures
        lex(a).0 == lex(b).0,
        lex(a).0 is Ok ==> tokens(lex(a).1) == tokens(lex(b).1),
{
    assert(tokens(a)[0] == lex(a).0);
    assert(tokens(b)[0] == lex(b).0);
    if is_proper_token(lex(a).0) {
        assert(tokens(lex(a).1) =~= tokens(a).skip(1));
        assert(tokens(lex(b).1) =~= tokens(b).skip(1));
    } else if lex(a).0 is Ok {
        lemma_tokens_at_end(a);
        lemma_tokens_at_end(b);
    }
}

/// Texts with the same tokens begin a list in the same way.
proof fn lemma_list_start_same(a: Seq<char>, b: Seq<char>, open: TokenView, close: TokenView)
    requires
        tokens(a) == tokens(b),
    ensures
        list_start(a, open, close).0 == list_start(b, open, close).0,
        tokens(list_start(a, open, close).1) == tokens(list_start(b, open, close).1),
{
    lemma_lex_same_tokens(a, b);
}

/// Texts with the same tokens go on behind an element in the same way.
proof fn lemma_list_next_same(a: Seq<char>, b: Seq<char>, open: TokenView, close: TokenView)
    requires
        tokens(a) == tokens(b),
    ensures
        list_next(a, open, close).0 == list_next(b, open, close).0,
        !(list_next(a, open, close).0 is Fail) ==> tokens(list_next(a, open, close).1) == tokens(
            list_next(b, open, close).1,
        ),
{
    lemma_lex_same_tokens(a, b);
    if lex(a).0 is Ok {
        lemma_lex_same_tokens(lex(a).1, lex(b).1);
    }
}

/// Texts with the same tokens have the colon behind a key, or both lack it.
proof fn lemma_member_colon_same(a: Seq<char>, b: Seq<char>)
    requires
        tokens(a) == tokens(b),
    ensures
        member_colon(a).0 == member_colon(b).0,
        member_colon(a).0 is None ==> tokens(member_colon(a).1) == tokens(member_colon(b).1),
{
    lemma_lex_same_tokens(a, b);
}

/// Texts with the same tokens begin with the same value, and have the same
/// tokens behind it.
pub proof fn lemma_value_same(a: Seq<char>, b: Seq<char>)
    requires
        tokens(a) == tokens(b),
    ensures
        parse_value_from(a).0 == parse_value_from(b).0,
        parse_value_from(a).0 is Ok ==> tokens(parse_value_from(a).1) == tokens(
            parse_value_from(b).1,
        ),
    decreases a.len(), 0int,
{
    lemma_lex_same_tokens(a, b);
    lemma_lex_len(a);
    match lex(a).0 {
        Ok(TokenView::OpenBracket) => lemma_array_same(lex(a).1, lex(b).1),
        Ok(TokenView::OpenBrace) => lemma_object_same(lex(a).1, lex(b).1),
        _ => {},
    }
}

/// Texts with the same tokens hold the same array behind the bracket.
proof fn lemma_array_same(a: Seq<char>, b: Seq<char>)
    requires
        tokens(a) == tokens(b),
    ensures
        parse_array_from(a).0 == parse_array_from(b).0,
        parse_array_from(a).0 is Ok ==> tokens(parse_array_from(a).1) == tokens(
            parse_array_from(b).1,
        ),
    decreases a.len(), 2int,
{
    lemma_list_start_same(a, b, TokenView::OpenBracket, TokenView::CloseBracket);
    lemma_items_same(a, b, Seq::empty());
}

/// Texts with the same tokens hold the same elements.
proof fn lemma_items_same(a: Seq<char>, b: Seq<char>, items: Seq<ValueView>)
    requires
        tokens(a) == tokens(b),
    ensures
        parse_items_from(a, items).0 == parse_items_from(b, items).0,
        parse_items_from(a, items).0 is Ok ==> tokens(parse_items_from(a, items).1) == tokens(
            parse_items_from(b, items).1,
        ),
    decreases a.len(), 1int,
{
    lemma_value_same(a, b);
    lemma_value_from_len(a);
    lemma_value_from_len(b);
    if let Ok(Some(v)) = parse_value_from(a).0 {
        let a1 = parse_value_from(a).1;
        let b1 = parse_value_from(b).1;
        lemma_list_next_same(a1, b1, TokenView::OpenBracket, TokenView::CloseBracket);
        lemma_list_next_len(a1, TokenView::OpenBracket, TokenView::CloseBracket);
        lemma_list_next_len(b1, TokenView::OpenBracket, TokenView::CloseBracket);
        if list_next(a1, TokenView::OpenBracket, TokenView::CloseBracket).0 is More {
            lemma_items_same(
                list_next(a1, TokenView::OpenBracket, TokenView::CloseBracket).1,
                list_next(b1, TokenView::OpenBracket, TokenView::CloseBracket).1,
                items.push(v),
            );
        }
    }
}

/// Texts with the same tokens hold the same object behind the brace.
proof fn lemma_object_same(a: Seq<char>, b: Seq<char>)
    requires
        tokens(a) == tokens(b),
    ensures
        parse_object_from(a).0 == parse_object_from(b).0,
        parse_object_from(a).0 is Ok ==> tokens(parse_object_from(a).1) == tokens(
            parse_object_from(b).1,
        ),
    decreases a.len(), 2int,
{
    lemma_list_start_same(a, b, TokenView::OpenBrace, TokenView::CloseBrace);
    lemma_members_same(a, b, Map::empty());
}

/// Texts with the same tokens hold the same members.
proof fn lemma_members_same(a: Seq<char>, b: Seq<char>, members: Map<Seq<char>, ValueView>)
    requires
        tokens(a) == tokens(b),
    ensures
        parse_members_from(a, members).0 == parse_members_from(b, members).0,
        parse_members_from(a, members).0 is Ok ==> tokens(parse_members_from(a, members).1)
            == tokens(parse_members_from(b, members).1),
    decreases a.len(), 1int,
{
    lemma_value_same(a, b);
    lemma_value_from_len(a);
    lemma_value_from_len(b);
    if let Ok(Some(ValueView::String(name))) = parse_value_from(a).0 {
        let a1 = parse_value_from(a).1;
        let b1 = parse_value_from(b).1;
        lemma_member_colon_same(a1, b1);
        lemma_lex_len(a1);
        lemma_lex_len(b1);
        if member_colon(a1).0 is None {
            let a2 = member_colon(a1).1;
            let b2 = member_colon(b1).1;
            lemma_value_same(a2, b2);
            lemma_value_from_len(a2);
            lemma_value_from_len(b2);
            if let Ok(Some(v)) = parse_value_from(a2).0 {
                let a3 = parse_value_from(a2).1;
                let b3 = parse_value_from(b2).1;
                lemma_list_next_same(a3, b3, TokenView::OpenBrace, TokenView::CloseBrace);
                lemma_list_next_len(a3, TokenView::OpenBrace, TokenView::CloseBrace);
                lemma_list_next_len(b3, TokenView::OpenBrace, TokenView::CloseBrace);
                if list_next(a3, TokenView::OpenBrace, TokenView::CloseBrace).0 is More
                    && !members.dom().contains(name) {
                    lemma_members_same(
                        list_next(a3, TokenView::OpenBrace, TokenView::CloseBrace).1,
                        list_next(b3, TokenView::OpenBrace, TokenView::CloseBrace).1,
                        members.insert(name, v),
                    );
                }
            }
        }
    }
}

/// What a text holds depends on its tokens alone: two texts with the same
/// tokens hold the same value, or fail with the same error.
pub proof fn lemma_parse_depends_on_tokens(a: Seq<char>, b: Seq<char>)
    requires
        tokens(a) == tokens(b),
    ensures
        parse_text(a) == parse_text(b),
{
    lemma_value_same(a, b);
    if parse_value_from(a).0 is Ok {
        lemma_lex_same_tokens(parse_value_from(a).1, parse_value_from(b).1);
    }
}

} // verus!
