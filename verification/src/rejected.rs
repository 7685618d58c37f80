//! Texts that hold no value, and the errors that they fail with.

use crate::document::{
    closing, is_filled_list, is_writable, items_text, member_keys, member_values, members_text,
    opening, quote_free, text_of, unclosed_text, value_of, Document,
};
use crate::grammar::{
    lemma_list_next_len, list_start, member_colon, parse_members_from, parse_text,
    parse_value_from, ParsingErrorView, Step,
};
use crate::lexing::{insert_at, lemma_lex_end, lemma_lex_leading_whitespace};
use crate::read_back::{
    lemma_list_then, lemma_mark_then, lemma_member_read, lemma_member_step, lemma_value_read_back,
};
use crate::tokenize::{all_whitespace, ends_number, lex, TokenView, TokenizeErrorView};
use crate::value::{distinct, lemma_map_of_push, map_of, ValueView};
use vstd::prelude::*;

verus! {

/// A token behind a document's text is extra data. (Behind a number the
/// text that follows must begin with a character that ends the number, or it
/// is read as part of the number.)
pub proof fn lemma_extra_data(doc: Document, more: Seq<char>)
    requires
        is_writable(doc),
        !all_whitespace(more),
        lex(more).0 is Ok,
        doc is Number ==> ends_number(more[0]),
    ensures
        parse_text(text_of(doc) + more) == Err::<Option<ValueView>, ParsingErrorView>(
            ParsingErrorView::ExtraData,
        ),
{
    lemma_value_read_back(doc, more);
    lemma_lex_end(more);
}

/// Text behind a document's text that is no token fails the whole text with
/// the tokenizer's error. (Behind a number it must begin with a character
/// that ends the number, or it is read as part of the number.)
pub proof fn lemma_error_behind_value(doc: Document, more: Seq<char>)
    requires
        is_writable(doc),
        lex(more).0 is Err,
        doc is Number ==> more.len() == 0 || ends_number(more[0]),
    ensures
        parse_text(text_of(doc) + more) == Err::<Option<ValueView>, ParsingErrorView>(
            ParsingErrorView::Tokenize(lex(more).0->Err_0),
        ),
{
    lemma_value_read_back(doc, more);
}

/// A comma between the last element or member of a list and its closing
/// mark is a trailing comma, whatever whitespace stands around it.
pub proof fn lemma_trailing_comma(
    doc: Document,
    before: Seq<char>,
    padding: Seq<char>,
    behind: Seq<char>,
)
    requires
        is_writable(doc),
        is_filled_list(doc),
        all_whitespace(before),
        all_whitespace(padding),
    ensures
        parse_text(
            unclosed_text(doc) + before + seq![','] + padding + seq![text_of(doc).last()] + behind,
        ) == Err::<Option<ValueView>, ParsingErrorView>(ParsingErrorView::TrailingComma),
{
    let close = text_of(doc).last();
    let closed = seq![close] + behind;
    let peeked = padding + closed;
    let comma = seq![','] + peeked;
    let after_last = before + comma;
    assert(close == if doc is Array { ']' } else { '}' });
    lemma_mark_then(close, behind);
    lemma_lex_leading_whitespace(closed, 0, padding);
    assert(insert_at(closed, 0, padding) =~= peeked);
    lemma_mark_then(',', peeked);
    lemma_lex_leading_whitespace(comma, 0, before);
    assert(insert_at(comma, 0, before) =~= after_last);
    assert(after_last.len() > 0 && ends_number(after_last[0])) by {
        if before.len() > 0 {
            assert(after_last[0] == before[0]);
        } else {
            assert(after_last[0] == ',');
        }
    }
    lemma_list_then(doc, after_last);
    assert(unclosed_text(doc) + before + seq![','] + padding + seq![close] + behind
        =~= unclosed_text(doc) + after_last);
}

/// A list that is not closed before the input ends fails at the end of the
/// input, and the error names the token that opened the list.
pub proof fn lemma_unclosed_list(doc: Document, padding: Seq<char>)
    requires
        is_writable(doc),
        doc is Array || doc is Object,
        all_whitespace(padding),
    ensures
        parse_text(unclosed_text(doc) + padding) == Err::<Option<ValueView>, ParsingErrorView>(
            ParsingErrorView::ReachedEOF(opening(doc)),
        ),
{
    lemma_lex_end(padding);
    if is_filled_list(doc) {
        assert(padding.len() > 0 ==> ends_number(padding[0]));
        lemma_list_then(doc, padding);
    } else {
        let open = if doc is Array { '[' } else { '{' };
        assert(text_of(doc) =~= seq![open, if doc is Array { ']' } else { '}' }]) by {
            match doc {
                Document::Array(items) => {
                    assert(items_text(items, 0) =~= Seq::<char>::empty());
                },
                Document::Object(members) => {
                    assert(members_text(members, 0) =~= Seq::<char>::empty());
                },
                _ => {},
            }
        }
        assert(unclosed_text(doc) + padding =~= seq![open] + padding);
        lemma_mark_then(open, padding);
    }
}

/// A token behind the last element or member of a list that is neither a
/// comma nor the closing mark is a token after a value.
pub proof fn lemma_token_after_value(doc: Document, after_last: Seq<char>, token: TokenView)
    requires
        is_writable(doc),
        is_filled_list(doc),
        after_last.len() == 0 || ends_number(after_last[0]),
        lex(after_last).0 == Ok::<TokenView, TokenizeErrorView>(token),
        token != TokenView::Comma,
        token != closing(doc),
        token != TokenView::Eof,
    ensures
        parse_text(unclosed_text(doc) + after_last) == Err::<Option<ValueView>, ParsingErrorView>(
            ParsingErrorView::TokenAfterValue(token),
        ),
{
    lemma_list_then(doc, after_last);
}

/// A member whose key is held already fails the object, behind its value.
proof fn lemma_member_repeated(
    s: Seq<char>,
    seen: Map<Seq<char>, ValueView>,
    key: Seq<char>,
    value: ValueView,
    after_key: Seq<char>,
    after_colon: Seq<char>,
    after: Seq<char>,
)
    requires
        parse_value_from(s) == (
            Ok::<Option<ValueView>, ParsingErrorView>(Some(ValueView::String(key))),
            after_key,
        ),
        member_colon(after_key) == (None::<ParsingErrorView>, after_colon),
        after_colon.len() < s.len(),
        parse_value_from(after_colon) == (
            Ok::<Option<ValueView>, ParsingErrorView>(Some(value)),
            after,
        ),
        seen.dom().contains(key),
    ensures
        parse_members_from(s, seen) == (
            Err::<ValueView, ParsingErrorView>(ParsingErrorView::DuplicateObjectKey(key)),
            after,
        ),
{
}

/// The members from the one at `from` on are read up to the last one,
/// whose key stood before.
proof fn lemma_members_until_repeated(
    members: Seq<(Seq<char>, Document)>,
    from: int,
    after: Seq<char>,
)
    requires
        0 <= from < members.len(),
        forall|i: int|
            0 <= i < members.len() ==> quote_free((#[trigger] members[i]).0) && is_writable(
                members[i].1,
            ),
        distinct(member_keys(members).drop_last()),
        member_keys(members).drop_last().contains(members.last().0),
        after.len() == 0 || ends_number(after[0]),
    ensures
        parse_members_from(
            members_text(members, from) + after,
            map_of(member_keys(members).take(from), member_values(members).take(from)),
        ) == (
            Err::<ValueView, ParsingErrorView>(
                ParsingErrorView::DuplicateObjectKey(members.last().0),
            ),
            after,
        ),
        list_start(members_text(members, from) + after, TokenView::OpenBrace, TokenView::CloseBrace)
            == (Step::More, members_text(members, from) + after),
    decreases members.len() - from,
{
    let s = members_text(members, from) + after;
    let keys = member_keys(members);
    let values = member_values(members);
    let seen = map_of(keys.take(from), values.take(from));
    let key = members[from].0;
    let value = members[from].1;
    let last = members.len() - 1;
    let next = members_text(members, from + 1) + after;
    let behind = if from < last {
        seq![','] + next
    } else {
        after
    };
    let after_colon = text_of(value) + behind;
    let after_key = seq![':'] + after_colon;
    assert(quote_free(key) && is_writable(value));
    assert(s =~= seq!['"'] + key + seq!['"'] + after_key) by {
        if from == last {
            assert(members_text(members, from + 1) =~= Seq::<char>::empty());
        }
    }
    lemma_member_read(key, value, behind);
    assert(distinct(keys.take(from)) && keys.take(from).len() == values.take(from).len()) by {
        assert forall|i: int, j: int| 0 <= i < j < from implies keys.take(from)[i] != keys.take(
            from,
        )[j] by {
            assert(keys.drop_last()[i] != keys.drop_last()[j]);
        }
    }
    if from < last {
        assert(!seen.dom().contains(key)) by {
            if keys.take(from).contains(key) {
                let i = choose|i: int| 0 <= i < from && keys.take(from)[i] == key;
                assert(keys.drop_last()[i] == keys.drop_last()[from]);
            }
        }
        lemma_map_of_push(keys.take(from), values.take(from), key, value_of(value));
        assert(keys.take(from).push(key) =~= keys.take(from + 1));
        assert(values.take(from).push(value_of(value)) =~= values.take(from + 1));
        lemma_mark_then(',', next);
        lemma_list_next_len(behind, TokenView::OpenBrace, TokenView::CloseBrace);
        lemma_members_until_repeated(members, from + 1, after);
        lemma_member_step(s, seen, key, value_of(value), after_key, after_colon, behind);
    } else {
        assert(seen.dom().contains(key)) by {
            assert(keys.take(from) =~= keys.drop_last());
        }
        lemma_member_repeated(s, seen, key, value_of(value), after_key, after_colon, behind);
    }
}

/// A key that stands twice in one object fails the object with that key,
/// behind the value of the member that repeats it and whatever follows.
pub proof fn lemma_duplicate_key(members: Seq<(Seq<char>, Document)>, after: Seq<char>)
    requires
        members.len() > 0,
        forall|i: int|
            0 <= i < members.len() ==> quote_free((#[trigger] members[i]).0) && is_writable(
                members[i].1,
            ),
        distinct(member_keys(members).drop_last()),
        member_keys(members).drop_last().contains(members.last().0),
        after.len() == 0 || ends_number(after[0]),
    ensures
        parse_text(seq!['{'] + members_text(members, 0) + after) == Err::<
            Option<ValueView>,
            ParsingErrorView,
        >(ParsingErrorView::DuplicateObjectKey(members.last().0)),
{
    let inside = members_text(members, 0) + after;
    assert(seq!['{'] + members_text(members, 0) + after =~= seq!['{'] + inside);
    lemma_mark_then('{', inside);
    assert(member_keys(members).take(0) =~= Seq::<Seq<char>>::empty());
    assert(member_values(members).take(0) =~= Seq::<ValueView>::empty());
    assert(map_of(Seq::<Seq<char>>::empty(), Seq::<ValueView>::empty()) =~= Map::<
        Seq<char>,
        ValueView,
    >::empty());
    lemma_members_until_repeated(members, 0, after);
}

} // verus!
