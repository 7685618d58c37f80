//! A document's text holds the document's value, however it is spaced out
//! between its tokens.

use crate::document::{
    closing, is_filled_list, is_number_literal, is_writable, item_values, items_text, member_keys,
    member_values, members_text, opening, quote_free, text_of, unclosed_text, value_of, Document,
};
use crate::grammar::{
    lemma_list_next_len, lemma_value_from_len, list_next, list_start, member_colon,
    parse_items_from, parse_members_from, parse_text, parse_value_from, ParsingErrorView, Step,
};
use crate::lexing::{insert_at, lemma_lex_end, lemma_lex_leading_whitespace, lemma_lex_local};
use crate::number::{has_sign, is_digit, magnitude_text, number_of_text};
use crate::stream::tokens;
use crate::text::lemma_prefix_len;
use crate::tokenize::{
    all_whitespace, ends_number, inside_number, is_proper_token, lex, skip_whitespace, unquoted,
    TokenView, TokenizeErrorView,
};
use crate::value::{distinct, lemma_map_of_index, lemma_map_of_push, map_of, ValueView};
use crate::whitespace::{insert_runs, lemma_whitespace_invariance, runs_between_tokens};
use vstd::prelude::*;

verus! {

/// A token's own text, with any other text behind it, is read as that
/// token, and the other text is left. Behind a number the other text must
/// begin with a character that ends a number, if it is not empty.
proof fn lemma_token_then(text: Seq<char>, behind: Seq<char>)
    requires
        is_proper_token(lex(text).0),
        lex(text).1.len() == 0,
        lex(text).0 matches Ok(TokenView::Number(_)) ==> behind.len() == 0 || ends_number(
            behind[0],
        ),
    ensures
        lex(text + behind) == (lex(text).0, behind),
{
    lemma_lex_local(text, behind);
    assert(text.take(text.len() - 0) =~= text);
}

/// One of the six marks is read as its token.
pub proof fn lemma_mark_then(c: char, behind: Seq<char>)
    requires
        c == '[' || c == ']' || c == '{' || c == '}' || c == ',' || c == ':',
    ensures
        lex(seq![c] + behind).1 == behind,
        lex(seq![c] + behind).0 == Ok::<TokenView, TokenizeErrorView>(
            if c == '[' {
                TokenView::OpenBracket
            } else if c == ']' {
                TokenView::CloseBracket
            } else if c == '{' {
                TokenView::OpenBrace
            } else if c == '}' {
                TokenView::CloseBrace
            } else if c == ',' {
                TokenView::Comma
            } else {
                TokenView::Colon
            },
        ),
{
    reveal(lex);
    let text = seq![c];
    assert(skip_whitespace(text) =~= text);
    assert(text.skip(1) =~= Seq::<char>::empty());
    lemma_token_then(text, behind);
}

/// A string in quotes is read as that string.
pub proof fn lemma_string_then(s: Seq<char>, behind: Seq<char>)
    requires
        quote_free(s),
    ensures
        lex(seq!['"'] + s + seq!['"'] + behind) == (
            Ok::<TokenView, TokenizeErrorView>(TokenView::String(s)),
            behind,
        ),
{
    reveal(lex);
    let text = seq!['"'] + s + seq!['"'];
    assert(skip_whitespace(text) =~= text);
    let inner = text.skip(1);
    assert(inner =~= s + seq!['"']);
    assert forall|i: int| 0 <= i < s.len() implies unquoted()(#[trigger] inner[i]) by {
        assert(inner[i] == s[i]);
    }
    assert(inner[s.len() as int] == '"');
    lemma_prefix_len(inner, unquoted(), s.len() as int);
    assert(inner.take(s.len() as int) =~= s);
    assert(inner.skip(s.len() as int + 1) =~= Seq::<char>::empty());
    lemma_token_then(text, behind);
}

/// A number is read as what it denotes.
proof fn lemma_number_then(text: Seq<char>, behind: Seq<char>)
    requires
        is_number_literal(text),
        behind.len() == 0 || ends_number(behind[0]),
    ensures
        lex(text + behind) == (
            Ok::<TokenView, TokenizeErrorView>(TokenView::Number(number_of_text(text)->0)),
            behind,
        ),
{
    reveal(lex);
    let body = magnitude_text(text);
    assert(body.len() > 0);
    assert(is_digit(text[0]) || text[0] == '-') by {
        if !has_sign(text) {
            assert(is_digit(body[0]) || body[0] == '.');
        }
    }
    assert forall|i: int| 0 <= i < text.len() implies inside_number()(#[trigger] text[i]) by {
        if has_sign(text) {
            if i > 0 {
                assert(is_digit(body[i - 1]) || body[i - 1] == '.');
            }
        } else {
            assert(is_digit(body[i]) || body[i] == '.');
        }
    }
    lemma_prefix_len(text, inside_number(), text.len() as int);
    assert(skip_whitespace(text) =~= text);
    assert(text.take(text.len() as int) =~= text);
    assert(text.skip(text.len() as int) =~= Seq::<char>::empty());
    lemma_token_then(text, behind);
}

/// `null`, `true` or `false` is read as its token.
proof fn lemma_literal_then(doc: Document, behind: Seq<char>)
    requires
        doc is Null || doc is Bool,
    ensures
        lex(text_of(doc) + behind) == (
            Ok::<TokenView, TokenizeErrorView>(
                match doc {
                    Document::Bool(b) => TokenView::Bool(b),
                    _ => TokenView::Null,
                },
            ),
            behind,
        ),
{
    reveal(lex);
    let text = text_of(doc);
    assert(skip_whitespace(text) =~= text);
    let tail = text.skip(1);
    if text.len() == 4 {
        assert(tail.take(3) =~= seq![text[1], text[2], text[3]]);
        assert(tail.skip(3) =~= Seq::<char>::empty());
    } else {
        assert(tail.take(4) =~= seq![text[1], text[2], text[3], text[4]]);
        assert(tail.skip(4) =~= Seq::<char>::empty());
    }
    lemma_token_then(text, behind);
}

/// Brackets or braces with nothing between them are read as the empty list.
proof fn lemma_empty_list_read_back(doc: Document, behind: Seq<char>)
    requires
        doc is Array || doc is Object,
        !is_filled_list(doc),
    ensures
        parse_value_from(text_of(doc) + behind) == (
            Ok::<Option<ValueView>, ParsingErrorView>(Some(value_of(doc))),
            behind,
        ),
{
    let open = if doc is Array { '[' } else { '{' };
    let close = if doc is Array { ']' } else { '}' };
    assert(text_of(doc) + behind =~= seq![open] + (seq![close] + behind)) by {
        match doc {
            Document::Array(items) => {
                assert(items_text(items, 0) =~= Seq::<char>::empty());
            },
            Document::Object(members) => {
                assert(members_text(members, 0) =~= Seq::<char>::empty());
            },
            _ => {},
        }
    }
    lemma_mark_then(open, seq![close] + behind);
    lemma_mark_then(close, behind);
    match doc {
        Document::Array(items) => {
            assert(item_values(items) =~= Seq::<ValueView>::empty());
        },
        Document::Object(members) => {
            assert(map_of(member_keys(members), member_values(members)) =~= Map::<
                Seq<char>,
                ValueView,
            >::empty());
        },
        _ => {},
    }
}

/// A writable document's text is read as the document's value, and what
/// stands behind the text is left. Behind a number that must begin with a
/// character that ends a number, if it is not empty.
pub proof fn lemma_value_read_back(doc: Document, behind: Seq<char>)
    requires
        is_writable(doc),
        doc is Number ==> behind.len() == 0 || ends_number(behind[0]),
    ensures
        parse_value_from(text_of(doc) + behind) == (
            Ok::<Option<ValueView>, ParsingErrorView>(Some(value_of(doc))),
            behind,
        ),
    decreases doc, 1int,
{
    match doc {
        Document::Number(text) => {
            lemma_number_then(text, behind);
        },
        Document::String(text) => {
            lemma_string_then(text, behind);
        },
        Document::Array(_) | Document::Object(_) => {
            if is_filled_list(doc) {
                let close = text_of(doc).last();
                lemma_mark_then(close, behind);
                assert(text_of(doc) + behind =~= unclosed_text(doc) + (seq![close] + behind));
                lemma_list_then(doc, seq![close] + behind);
            } else {
                lemma_empty_list_read_back(doc, behind);
            }
        },
        _ => {
            lemma_literal_then(doc, behind);
        },
    }
}

/// What is read behind the last element of a list, where that is not the
/// start of another element: the list, or the error.
pub open spec fn list_end(
    after_last: Seq<char>,
    open: TokenView,
    close: TokenView,
    list: ValueView,
) -> (Result<ValueView, ParsingErrorView>, Seq<char>) {
    (
        match list_next(after_last, open, close).0 {
            Step::Fail(e) => Err(e),
            _ => Ok(list),
        },
        list_next(after_last, open, close).1,
    )
}

/// The elements of an array from the one at `from` on are read, and then
/// the text `after_last` that follows the last of them decides: it closes
/// the array or it is an error.
proof fn lemma_items_then(items: Seq<Document>, from: int, after_last: Seq<char>)
    requires
        forall|i: int| 0 <= i < items.len() ==> is_writable(#[trigger] items[i]),
        0 <= from < items.len(),
        after_last.len() == 0 || ends_number(after_last[0]),
        !(list_next(after_last, TokenView::OpenBracket, TokenView::CloseBracket).0 is More),
    ensures
        parse_items_from(items_text(items, from) + after_last, item_values(items).take(from))
            == list_end(
            after_last,
            TokenView::OpenBracket,
            TokenView::CloseBracket,
            ValueView::Array(item_values(items)),
        ),
        list_start(
            items_text(items, from) + after_last,
            TokenView::OpenBracket,
            TokenView::CloseBracket,
        ) == (Step::More, items_text(items, from) + after_last),
    decreases items, items.len() - from,
{
    let s = items_text(items, from) + after_last;
    let seen = item_values(items).take(from);
    let more = from + 1 < items.len();
    let next = items_text(items, from + 1) + after_last;
    let after = if more {
        seq![','] + next
    } else {
        after_last
    };
    assert(s =~= text_of(items[from]) + after) by {
        if !more {
            assert(items_text(items, from + 1) =~= Seq::<char>::empty());
        }
    }
    lemma_value_read_back(items[from], after);
    lemma_value_from_len(s);
    lemma_list_next_len(after, TokenView::OpenBracket, TokenView::CloseBracket);
    assert(seen.push(value_of(items[from])) =~= item_values(items).take(from + 1));
    if more {
        lemma_mark_then(',', next);
        lemma_items_then(items, from + 1, after_last);
    } else {
        assert(item_values(items).take(from + 1) =~= item_values(items));
    }
}

/// A member's text is read as its key, the colon and its value, and what
/// stands behind the member is left.
pub proof fn lemma_member_read(key: Seq<char>, value: Document, after: Seq<char>)
    requires
        quote_free(key),
        is_writable(value),
        value is Number ==> after.len() == 0 || ends_number(after[0]),
    ensures
        ({
            let after_colon = text_of(value) + after;
            let after_key = seq![':'] + after_colon;
            let s = seq!['"'] + key + seq!['"'] + after_key;
            &&& parse_value_from(s) == (
                Ok::<Option<ValueView>, ParsingErrorView>(Some(ValueView::String(key))),
                after_key,
            )
            &&& lex(s).0 == Ok::<TokenView, TokenizeErrorView>(TokenView::String(key))
            &&& member_colon(after_key) == (None::<ParsingErrorView>, after_colon)
            &&& parse_value_from(after_colon) == (
                Ok::<Option<ValueView>, ParsingErrorView>(Some(value_of(value))),
                after,
            )
            &&& after.len() < after_colon.len() < s.len()
        }),
    decreases value, 2int,
{
    let after_colon = text_of(value) + after;
    let after_key = seq![':'] + after_colon;
    let s = seq!['"'] + key + seq!['"'] + after_key;
    lemma_string_then(key, after_key);
    lemma_mark_then(':', after_colon);
    lemma_value_read_back(value, after);
    lemma_value_from_len(after_colon);
}

/// The members of an object from the one at `from` on are read, and then
/// the text `after_last` that follows the last of them decides: it closes
/// the object or it is an error.
proof fn lemma_members_then(
    members: Seq<(Seq<char>, Document)>,
    from: int,
    after_last: Seq<char>,
)
    requires
        distinct(member_keys(members)),
        forall|i: int|
            0 <= i < members.len() ==> quote_free((#[trigger] members[i]).0) && is_writable(
                members[i].1,
            ),
        0 <= from < members.len(),
        after_last.len() == 0 || ends_number(after_last[0]),
        !(list_next(after_last, TokenView::OpenBrace, TokenView::CloseBrace).0 is More),
    ensures
        parse_members_from(
            members_text(members, from) + after_last,
            map_of(member_keys(members).take(from), member_values(members).take(from)),
        ) == list_end(
            after_last,
            TokenView::OpenBrace,
            TokenView::CloseBrace,
            ValueView::Object(map_of(member_keys(members), member_values(members))),
        ),
        list_start(
            members_text(members, from) + after_last,
            TokenView::OpenBrace,
            TokenView::CloseBrace,
        ) == (Step::More, members_text(members, from) + after_last),
    decreases members, members.len() - from,
{
    let s = members_text(members, from) + after_last;
    let keys = member_keys(members);
    let values = member_values(members);
    let seen = map_of(keys.take(from), values.take(from));
    let key = members[from].0;
    let value = members[from].1;
    let more = from + 1 < members.len();
    let next = members_text(members, from + 1) + after_last;
    let after = if more {
        seq![','] + next
    } else {
        after_last
    };
    let after_colon = text_of(value) + after;
    let after_key = seq![':'] + after_colon;
    assert(quote_free(key) && is_writable(value));
    assert(s =~= seq!['"'] + key + seq!['"'] + after_key) by {
        if !more {
            assert(members_text(members, from + 1) =~= Seq::<char>::empty());
        }
    }
    lemma_member_read(key, value, after);
    lemma_members_seen(members, from);
    lemma_list_next_len(after, TokenView::OpenBrace, TokenView::CloseBrace);
    if more {
        lemma_mark_then(',', next);
        lemma_members_then(members, from + 1, after_last);
    } else {
        assert(keys.take(from + 1) =~= keys);
        assert(values.take(from + 1) =~= values);
    }
    lemma_member_step(s, seen, key, value_of(value), after_key, after_colon, after);
}

/// One member read: its key, the colon, its value, and what follows them.
pub proof fn lemma_member_step(
    s: Seq<char>,
    seen: Map<Seq<char>, ValueView>,
    key: Seq<char>,
    value: ValueView,
    after_key: Seq<char>,
    after_colon: Seq<char>,
    after: Seq<char>,
)
    requires
        parse_value_from(s) == (
            Ok::<Option<ValueView>, ParsingErrorView>(Some(ValueView::String(key))),
            after_key,
        ),
        member_colon(after_key) == (None::<ParsingErrorView>, after_colon),
        after_colon.len() < s.len(),
        parse_value_from(after_colon) == (
            Ok::<Option<ValueView>, ParsingErrorView>(Some(value)),
            after,
        ),
        !seen.dom().contains(key),
        list_next(after, TokenView::OpenBrace, TokenView::CloseBrace).1.len() < s.len(),
    ensures
        parse_members_from(s, seen) == match list_next(
            after,
            TokenView::OpenBrace,
            TokenView::CloseBrace,
        ).0 {
            Step::Fail(e) => (
                Err::<ValueView, ParsingErrorView>(e),
                list_next(after, TokenView::OpenBrace, TokenView::CloseBrace).1,
            ),
            Step::Done => (
                Ok::<ValueView, ParsingErrorView>(ValueView::Object(seen.insert(key, value))),
                list_next(after, TokenView::OpenBrace, TokenView::CloseBrace).1,
            ),
            Step::More => parse_members_from(
                list_next(after, TokenView::OpenBrace, TokenView::CloseBrace).1,
                seen.insert(key, value),
            ),
        },
{
}

/// The members read so far do not hold the next member's key, and with the
/// next member they are the members read one step later.
proof fn lemma_members_seen(members: Seq<(Seq<char>, Document)>, from: int)
    requires
        distinct(member_keys(members)),
        0 <= from < members.len(),
    ensures
        !map_of(member_keys(members).take(from), member_values(members).take(from)).dom().contains(
            members[from].0,
        ),
        map_of(member_keys(members).take(from), member_values(members).take(from)).insert(
            members[from].0,
            value_of(members[from].1),
        ) == map_of(member_keys(members).take(from + 1), member_values(members).take(from + 1)),
{
    let keys = member_keys(members);
    let values = member_values(members);
    let key = members[from].0;
    assert(keys[from] == key);
    assert(!keys.take(from).contains(key)) by {
        if keys.take(from).contains(key) {
            let i = choose|i: int| 0 <= i < keys.take(from).len() && keys.take(from)[i] == key;
            assert(keys[i] == keys[from]);
        }
    }
    assert(distinct(keys.take(from))) by {
        assert forall|i: int, j: int| 0 <= i < j < keys.take(from).len() implies keys.take(from)[i]
            != keys.take(from)[j] by {
            assert(keys[i] != keys[j]);
        }
    }
    lemma_map_of_push(keys.take(from), values.take(from), key, value_of(members[from].1));
    assert(keys.take(from).push(key) =~= keys.take(from + 1));
    assert(values.take(from).push(value_of(members[from].1)) =~= values.take(from + 1));
}

/// A list's elements or members are read, and then the text `after_last`
/// that follows the last of them decides: it closes the list or it is an
/// error. (Behind a number it must begin with a character that ends the
/// number, and it must not go on with another element.)
pub proof fn lemma_list_then(doc: Document, after_last: Seq<char>)
    requires
        is_writable(doc),
        is_filled_list(doc),
        after_last.len() == 0 || ends_number(after_last[0]),
        !(list_next(after_last, opening(doc), closing(doc)).0 is More),
    ensures
        parse_value_from(unclosed_text(doc) + after_last) == (
            match list_next(after_last, opening(doc), closing(doc)).0 {
                Step::Fail(e) => Err::<Option<ValueView>, ParsingErrorView>(e),
                _ => Ok(Some(value_of(doc))),
            },
            list_next(after_last, opening(doc), closing(doc)).1,
        ),
    decreases doc, 0int,
{
    match doc {
        Document::Array(items) => {
            let inside = items_text(items, 0) + after_last;
            assert(unclosed_text(doc) + after_last =~= seq!['['] + inside);
            lemma_mark_then('[', inside);
            assert(item_values(items).take(0) =~= Seq::<ValueView>::empty());
            assert forall|i: int| 0 <= i < items.len() implies is_writable(#[trigger] items[i]) by {}
            lemma_items_then(items, 0, after_last);
        },
        Document::Object(members) => {
            let inside = members_text(members, 0) + after_last;
            assert(unclosed_text(doc) + after_last =~= seq!['{'] + inside);
            lemma_mark_then('{', inside);
            assert(member_keys(members).take(0) =~= Seq::<Seq<char>>::empty());
            assert(member_values(members).take(0) =~= Seq::<ValueView>::empty());
            assert(map_of(Seq::<Seq<char>>::empty(), Seq::<ValueView>::empty()) =~= Map::<
                Seq<char>,
                ValueView,
            >::empty());
            lemma_members_then(members, 0, after_last);
        },
        _ => {},
    }
}

/// Every writable document's text holds the document's value: what is
/// written as the format asks is read back as it was meant.
pub proof fn lemma_text_is_read_back(doc: Document)
    requires
        is_writable(doc),
    ensures
        parse_text(text_of(doc)) == Ok::<Option<ValueView>, ParsingErrorView>(Some(value_of(doc))),
{
    let nothing = Seq::<char>::empty();
    lemma_value_read_back(doc, nothing);
    assert(text_of(doc) + nothing =~= text_of(doc));
    lemma_lex_end(nothing);
}

/// However a writable document's text is spaced out between its tokens, it
/// holds the document's value.
pub proof fn lemma_spaced_text_is_read_back(doc: Document, runs: Seq<(int, Seq<char>)>)
    requires
        is_writable(doc),
        runs_between_tokens(text_of(doc), runs),
    ensures
        parse_text(insert_runs(text_of(doc), runs)) == Ok::<Option<ValueView>, ParsingErrorView>(
            Some(value_of(doc)),
        ),
{
    lemma_text_is_read_back(doc);
    lemma_whitespace_invariance(text_of(doc), runs);
}

/// What stands between an opening and a closing mark with whitespace before,
/// between and behind them is read as the opening token, then the closing
/// token, then the end of the input.
proof fn lemma_padded_pair(
    open: char,
    close: char,
    before: Seq<char>,
    between: Seq<char>,
    after: Seq<char>,
)
    requires
        open == '[' && close == ']' || open == '{' && close == '}',
        all_whitespace(before),
        all_whitespace(between),
        all_whitespace(after),
    ensures
        ({
            let s = before + seq![open] + between + seq![close] + after;
            let inside = between + seq![close] + after;
            &&& lex(s).0 == lex(seq![open] + inside).0
            &&& lex(s).1 == inside
            &&& lex(inside).0 == lex(seq![close] + after).0
            &&& lex(inside).1 == after
            &&& lex(after).0 == Ok::<TokenView, TokenizeErrorView>(TokenView::Eof)
        }),
{
    let s = before + seq![open] + between + seq![close] + after;
    let inside = between + seq![close] + after;
    lemma_lex_end(after);
    lemma_mark_then(close, after);
    lemma_lex_leading_whitespace(seq![close] + after, 0, between);
    assert(insert_at(seq![close] + after, 0, between) =~= inside);
    lemma_mark_then(open, inside);
    lemma_lex_leading_whitespace(seq![open] + inside, 0, before);
    assert(insert_at(seq![open] + inside, 0, before) =~= s);
}

/// Brackets with nothing but whitespace before, between and behind them
/// hold the empty array.
pub proof fn lemma_empty_array(before: Seq<char>, between: Seq<char>, after: Seq<char>)
    requires
        all_whitespace(before),
        all_whitespace(between),
        all_whitespace(after),
    ensures
        parse_text(before + seq!['['] + between + seq![']'] + after) == Ok::<
            Option<ValueView>,
            ParsingErrorView,
        >(Some(ValueView::Array(Seq::empty()))),
{
    lemma_padded_pair('[', ']', before, between, after);
    lemma_mark_then('[', between + seq![']'] + after);
    lemma_mark_then(']', after);
}

/// Braces with nothing but whitespace before, between and behind them hold
/// the empty object.
pub proof fn lemma_empty_object(before: Seq<char>, between: Seq<char>, after: Seq<char>)
    requires
        all_whitespace(before),
        all_whitespace(between),
        all_whitespace(after),
    ensures
        parse_text(before + seq!['{'] + between + seq!['}'] + after) == Ok::<
            Option<ValueView>,
            ParsingErrorView,
        >(Some(ValueView::Object(Map::empty()))),
{
    lemma_padded_pair('{', '}', before, between, after);
    lemma_mark_then('{', between + seq!['}'] + after);
    lemma_mark_then('}', after);
}

/// The order of an object's members plays no part: two writable objects
/// with the same members, in whatever order they are written, have texts
/// that hold the same value.
pub proof fn lemma_member_order(a: Seq<(Seq<char>, Document)>, b: Seq<(Seq<char>, Document)>)
    requires
        is_writable(Document::Object(a)),
        is_writable(Document::Object(b)),
        forall|i: int| 0 <= i < a.len() ==> b.contains(#[trigger] a[i]),
        forall|j: int| 0 <= j < b.len() ==> a.contains(#[trigger] b[j]),
    ensures
        value_of(Document::Object(a)) == value_of(Document::Object(b)),
        parse_text(text_of(Document::Object(a))) == parse_text(text_of(Document::Object(b))),
{
    let map_a = map_of(member_keys(a), member_values(a));
    let map_b = map_of(member_keys(b), member_values(b));
    assert forall|k: Seq<char>| #[trigger] map_a.dom().contains(k) implies map_b.dom().contains(
        k,
    ) by {
        let i = member_keys(a).index_of(k);
        assert(b.contains(a[i]));
        let j = choose|j: int| 0 <= j < b.len() && b[j] == a[i];
        assert(member_keys(b)[j] == k);
    }
    assert forall|k: Seq<char>| #[trigger] map_b.dom().contains(k) implies map_a.dom().contains(
        k,
    ) by {
        let j = member_keys(b).index_of(k);
        assert(a.contains(b[j]));
        let i = choose|i: int| 0 <= i < a.len() && a[i] == b[j];
        assert(member_keys(a)[i] == k);
    }
    assert(map_a.dom() =~= map_b.dom());
    assert forall|k: Seq<char>| map_a.dom().contains(k) implies #[trigger] map_a[k] == map_b[k] by {
        let i = member_keys(a).index_of(k);
        assert(b.contains(a[i]));
        let j = choose|j: int| 0 <= j < b.len() && b[j] == a[i];
        assert(member_keys(b)[j] == k);
        lemma_map_of_index(member_keys(a), member_values(a), i);
        lemma_map_of_index(member_keys(b), member_values(b), j);
    }
    assert(map_a =~= map_b);
    lemma_text_is_read_back(Document::Object(a));
    lemma_text_is_read_back(Document::Object(b));
}

} // verus!
