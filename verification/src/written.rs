//! A text that holds a value has the tokens of a document with that value.

use crate::document::{
    is_writable, item_values, items_text, member_keys, member_values, members_text, quote_free,
    text_of, value_of, Document,
};
use crate::grammar::{
    lemma_list_next_len, lemma_value_from_len, list_next, list_start, member_colon,
    parse_array_from, parse_items_from, parse_members_from, parse_object_from, parse_text,
    parse_value_from, ParsingErrorView,
};
use crate::lexing::{lemma_lex_end, lemma_lex_len};
use crate::read_back::{
    lemma_mark_then, lemma_string_then, lemma_text_is_read_back, lemma_value_read_back,
};
use crate::stream::{lemma_parse_depends_on_tokens, lemma_tokens_behind, tokens};
use crate::text::lemma_prefix_len;
use crate::tokenize::{
    ends_number, inside_number, lex, skip_whitespace, unquoted, TokenView, TokenizeErrorView,
};
use crate::value::{distinct, lemma_map_of_index, map_of, ValueView};
use vstd::prelude::*;

verus! {

/// The elements behind the first one have their text as they have it by
/// themselves.
proof fn lemma_items_text_behind_first(first: Document, others: Seq<Document>, from: int)
    requires
        0 <= from <= others.len(),
    ensures
        items_text(seq![first] + others, from + 1) == items_text(others, from),
    decreases others.len() - from,
{
    let items = seq![first] + others;
    if from < others.len() {
        assert(items[from + 1] == others[from]);
        lemma_items_text_behind_first(first, others, from + 1);
    }
}

/// The members behind the first one have their text as they have it by
/// themselves.
proof fn lemma_members_text_behind_first(
    first: (Seq<char>, Document),
    others: Seq<(Seq<char>, Document)>,
    from: int,
)
    requires
        0 <= from <= others.len(),
    ensures
        members_text(seq![first] + others, from + 1) == members_text(others, from),
    decreases others.len() - from,
{
    let members = seq![first] + others;
    if from < others.len() {
        assert(members[from + 1] == others[from]);
        lemma_members_text_behind_first(first, others, from + 1);
    }
}

/// An array that is read is an array, and an object an object.
proof fn lemma_list_shapes(s: Seq<char>)
    ensures
        parse_array_from(s).0 matches Ok(v) ==> v is Array,
        parse_object_from(s).0 matches Ok(v) ==> v is Object,
{
    lemma_items_shape(s, Seq::empty());
    lemma_members_shape(s, Map::empty());
}

/// Elements that are read make an array.
proof fn lemma_items_shape(s: Seq<char>, seen: Seq<ValueView>)
    ensures
        parse_items_from(s, seen).0 matches Ok(v) ==> v is Array,
    decreases s.len(),
{
    let (element, after) = parse_value_from(s);
    if let Ok(Some(value)) = element {
        let (step, next) = list_next(after, TokenView::OpenBracket, TokenView::CloseBracket);
        if step is More && next.len() < s.len() {
            lemma_items_shape(next, seen.push(value));
        }
    }
}

/// Members that are read make an object.
proof fn lemma_members_shape(s: Seq<char>, seen: Map<Seq<char>, ValueView>)
    ensures
        parse_members_from(s, seen).0 matches Ok(v) ==> v is Object,
    decreases s.len(),
{
    let (name, after_key) = parse_value_from(s);
    if let Ok(Some(ValueView::String(key))) = name {
        let (missing, after_colon) = member_colon(after_key);
        if missing is None && after_colon.len() < s.len() {
            let (element, after) = parse_value_from(after_colon);
            if let Ok(Some(value)) = element {
                let (step, next) = list_next(after, TokenView::OpenBrace, TokenView::CloseBrace);
                if step is More && next.len() < s.len() && !seen.dom().contains(key) {
                    lemma_members_shape(next, seen.insert(key, value));
                }
            }
        }
    }
}

/// The document of which the text `s` begins with the tokens: a writable
/// document with the value that is read from `s`, whose own text, put before
/// any text `behind` with the tokens of what is left of `s`, has the tokens
/// of `s`.
proof fn lemma_value_written(s: Seq<char>, behind: Seq<char>) -> (doc: Document)
    requires
        parse_value_from(s).0 matches Ok(Some(_)),
        tokens(behind) == tokens(parse_value_from(s).1),
        behind.len() == 0 || ends_number(behind[0]),
    ensures
        is_writable(doc),
        parse_value_from(s).0 == Ok::<Option<ValueView>, ParsingErrorView>(Some(value_of(doc))),
        tokens(text_of(doc) + behind) == tokens(s),
    decreases s.len(), 2int,
{
    match lex(s).0 {
        Ok(TokenView::OpenBracket) => lemma_array_written(s, behind),
        Ok(TokenView::OpenBrace) => lemma_object_written(s, behind),
        _ => lemma_literal_written(s, behind),
    }
}

/// The document of a literal, a string or a number that is read from `s`.
proof fn lemma_literal_written(s: Seq<char>, behind: Seq<char>) -> (doc: Document)
    requires
        parse_value_from(s).0 matches Ok(Some(_)),
        lex(s).0 != Ok::<TokenView, TokenizeErrorView>(TokenView::OpenBracket),
        lex(s).0 != Ok::<TokenView, TokenizeErrorView>(TokenView::OpenBrace),
        tokens(behind) == tokens(parse_value_from(s).1),
        behind.len() == 0 || ends_number(behind[0]),
    ensures
        is_writable(doc),
        parse_value_from(s).0 == Ok::<Option<ValueView>, ParsingErrorView>(Some(value_of(doc))),
        tokens(text_of(doc) + behind) == tokens(s),
{
    reveal(lex);
    let t = skip_whitespace(s);
    let doc = match lex(s).0 {
        Ok(TokenView::Bool(b)) => Document::Bool(b),
        Ok(TokenView::String(text)) => Document::String(text),
        Ok(TokenView::Number(d)) => Document::Number(
            t.take(crate::text::prefix_len(t, inside_number()) as int),
        ),
        _ => Document::Null,
    };
    assert(is_writable(doc) && value_of(doc) == parse_value_from(s).0->Ok_0->0) by {
        lemma_prefix_len(t.skip(1), unquoted(), 0);
        lemma_prefix_len(t, inside_number(), 0);
        match doc {
            Document::String(text) => {
                let inner = t.skip(1);
                assert forall|i: int| 0 <= i < text.len() implies #[trigger] text[i] != '"' by {
                    assert(text[i] == inner[i]);
                    assert(unquoted()(inner[i]));
                }
            },
            Document::Number(text) => {
                assert(text[0] == t[0]);
            },
            _ => {},
        }
    }
    lemma_value_read_back(doc, behind);
    lemma_lex_len(s);
    lemma_tokens_behind(s);
    lemma_lex_len(text_of(doc) + behind);
    lemma_tokens_behind(text_of(doc) + behind);
    doc
}

/// The document of an array that is read from `s`.
proof fn lemma_array_written(s: Seq<char>, behind: Seq<char>) -> (doc: Document)
    requires
        parse_value_from(s).0 matches Ok(Some(_)),
        lex(s).0 == Ok::<TokenView, TokenizeErrorView>(TokenView::OpenBracket),
        tokens(behind) == tokens(parse_value_from(s).1),
    ensures
        is_writable(doc),
        parse_value_from(s).0 == Ok::<Option<ValueView>, ParsingErrorView>(Some(value_of(doc))),
        tokens(text_of(doc) + behind) == tokens(s),
    decreases s.len(), 1int,
{
    let rest = lex(s).1;
    lemma_lex_len(s);
    lemma_tokens_behind(s);
    let (step, inside) = list_start(rest, TokenView::OpenBracket, TokenView::CloseBracket);
    let items = if step is Done {
        Seq::<Document>::empty()
    } else {
        lemma_items_written(rest, Seq::empty(), behind)
    };
    let doc = Document::Array(items);
    let inner = items_text(items, 0) + seq![']'] + behind;
    assert(tokens(inner) == tokens(rest)) by {
        if step is Done {
            lemma_lex_len(rest);
            lemma_tokens_behind(rest);
            assert(inner =~= seq![']'] + behind);
            lemma_mark_then(']', behind);
            lemma_tokens_behind(inner);
        }
    }
    assert(tokens(text_of(doc) + behind) == tokens(s)) by {
        assert(text_of(doc) + behind =~= seq!['['] + inner);
        lemma_mark_then('[', inner);
        lemma_tokens_behind(seq!['['] + inner);
    }
    assert(parse_array_from(rest).0 == Ok::<ValueView, ParsingErrorView>(value_of(doc))) by {
        assert(Seq::<ValueView>::empty() + item_values(items) =~= item_values(items));
        if step is Done {
            assert(item_values(items) =~= Seq::<ValueView>::empty());
        }
    }
    doc
}

/// The document of an object that is read from `s`.
proof fn lemma_object_written(s: Seq<char>, behind: Seq<char>) -> (doc: Document)
    requires
        parse_value_from(s).0 matches Ok(Some(_)),
        lex(s).0 == Ok::<TokenView, TokenizeErrorView>(TokenView::OpenBrace),
        tokens(behind) == tokens(parse_value_from(s).1),
    ensures
        is_writable(doc),
        parse_value_from(s).0 == Ok::<Option<ValueView>, ParsingErrorView>(Some(value_of(doc))),
        tokens(text_of(doc) + behind) == tokens(s),
    decreases s.len(), 1int,
{
    let rest = lex(s).1;
    lemma_lex_len(s);
    lemma_tokens_behind(s);
    let (step, inside) = list_start(rest, TokenView::OpenBrace, TokenView::CloseBrace);
    let members = if step is Done {
        Seq::<(Seq<char>, Document)>::empty()
    } else {
        lemma_members_written(rest, Map::empty(), behind)
    };
    let doc = Document::Object(members);
    let inner = members_text(members, 0) + seq!['}'] + behind;
    assert(tokens(inner) == tokens(rest)) by {
        if step is Done {
            lemma_lex_len(rest);
            lemma_tokens_behind(rest);
            assert(inner =~= seq!['}'] + behind);
            lemma_mark_then('}', behind);
            lemma_tokens_behind(inner);
        }
    }
    assert(tokens(text_of(doc) + behind) == tokens(s)) by {
        assert(text_of(doc) + behind =~= seq!['{'] + inner);
        lemma_mark_then('{', inner);
        lemma_tokens_behind(seq!['{'] + inner);
    }
    let whole = map_of(member_keys(members), member_values(members));
    assert(parse_object_from(rest).0 == Ok::<ValueView, ParsingErrorView>(value_of(doc))) by {
        assert(Map::<Seq<char>, ValueView>::empty().union_prefer_right(whole) =~= whole);
        if step is Done {
            assert(whole =~= Map::<Seq<char>, ValueView>::empty());
        }
    }
    assert(is_writable(doc)) by {
        if step is Done {
            assert(distinct(member_keys(members)));
        }
    }
    doc
}

/// The documents of the elements that are read from `s`, behind the
/// elements with the values `seen`.
proof fn lemma_items_written(s: Seq<char>, seen: Seq<ValueView>, behind: Seq<char>) -> (items: Seq<
    Document,
>)
    requires
        parse_items_from(s, seen).0 is Ok,
        tokens(behind) == tokens(parse_items_from(s, seen).1),
    ensures
        items.len() > 0,
        forall|i: int| 0 <= i < items.len() ==> is_writable(#[trigger] items[i]),
        parse_items_from(s, seen).0 == Ok::<ValueView, ParsingErrorView>(
            ValueView::Array(seen + item_values(items)),
        ),
        tokens(items_text(items, 0) + seq![']'] + behind) == tokens(s),
    decreases s.len(), 4int,
{
    let (element, after) = parse_value_from(s);
    lemma_value_from_len(s);
    let value = element->Ok_0->0;
    let (step, next) = list_next(after, TokenView::OpenBracket, TokenView::CloseBracket);
    lemma_list_next_len(after, TokenView::OpenBracket, TokenView::CloseBracket);
    let others = if step is Done {
        Seq::<Document>::empty()
    } else {
        lemma_items_written(next, seen.push(value), behind)
    };
    let tail = if step is Done {
        seq![']'] + behind
    } else {
        seq![','] + (items_text(others, 0) + seq![']'] + behind)
    };
    assert(tokens(tail) == tokens(after) && ends_number(tail[0])) by {
        lemma_lex_len(after);
        lemma_tokens_behind(after);
        if step is Done {
            lemma_mark_then(']', behind);
        } else {
            lemma_mark_then(',', items_text(others, 0) + seq![']'] + behind);
        }
        lemma_tokens_behind(tail);
    }
    let first = lemma_value_written(s, tail);
    let items = seq![first] + others;
    assert(items_text(items, 0) + seq![']'] + behind =~= text_of(first) + tail) by {
        lemma_items_text_behind_first(first, others, 0);
        assert(items[0] == first);
    }
    assert(item_values(items) =~= seq![value] + item_values(others)) by {
        assert forall|i: int| 0 <= i < items.len() implies item_values(items)[i] == (seq![
            value,
        ] + item_values(others))[i] by {
            if i > 0 {
                assert(items[i] == others[i - 1]);
            }
        }
    }
    assert(seen + item_values(items) =~= seen.push(value) + item_values(others));
    assert forall|i: int| 0 <= i < items.len() implies is_writable(#[trigger] items[i]) by {
        if i > 0 {
            assert(items[i] == others[i - 1]);
        }
    }
    if step is Done {
        assert(seen.push(value) + item_values(others) =~= seen.push(value));
    }
    items
}

/// The parts of one member that is read: its key, what is left behind the
/// key and behind the colon, its value, and what is left behind the value.
proof fn lemma_member_parts(s: Seq<char>, seen: Map<Seq<char>, ValueView>) -> (parts: (
    Seq<char>,
    Seq<char>,
    Seq<char>,
    ValueView,
    Seq<char>,
))
    requires
        parse_members_from(s, seen).0 is Ok,
    ensures
        parse_value_from(s) == (
            Ok::<Option<ValueView>, ParsingErrorView>(Some(ValueView::String(parts.0))),
            parts.1,
        ),
        lex(parts.1) == (Ok::<TokenView, TokenizeErrorView>(TokenView::Colon), parts.2),
        parts.2.len() < s.len(),
        parse_value_from(parts.2) == (
            Ok::<Option<ValueView>, ParsingErrorView>(Some(parts.3)),
            parts.4,
        ),
        !seen.dom().contains(parts.0),
        !(list_next(parts.4, TokenView::OpenBrace, TokenView::CloseBrace).0 is Fail),
        list_next(parts.4, TokenView::OpenBrace, TokenView::CloseBrace).1.len() < s.len(),
        parse_members_from(s, seen) == if list_next(
            parts.4,
            TokenView::OpenBrace,
            TokenView::CloseBrace,
        ).0 is Done {
            (
                Ok::<ValueView, ParsingErrorView>(
                    ValueView::Object(seen.insert(parts.0, parts.3)),
                ),
                list_next(parts.4, TokenView::OpenBrace, TokenView::CloseBrace).1,
            )
        } else {
            parse_members_from(
                list_next(parts.4, TokenView::OpenBrace, TokenView::CloseBrace).1,
                seen.insert(parts.0, parts.3),
            )
        },
{
    lemma_value_from_len(s);
    let (name, after_key) = parse_value_from(s);
    lemma_lex_len(after_key);
    let after_colon = member_colon(after_key).1;
    lemma_value_from_len(after_colon);
    let (element, after) = parse_value_from(after_colon);
    lemma_list_next_len(after, TokenView::OpenBrace, TokenView::CloseBrace);
    (name->Ok_0->0->String_0, after_key, after_colon, element->Ok_0->0, after)
}

/// The document of one member's value, where the documents of the members
/// behind it are known: the member's text, put before theirs, has the
/// tokens of `s`.
proof fn lemma_member_written(
    s: Seq<char>,
    key: Seq<char>,
    after_key: Seq<char>,
    after_colon: Seq<char>,
    after: Seq<char>,
    others: Seq<(Seq<char>, Document)>,
    behind: Seq<char>,
) -> (doc: Document)
    requires
        parse_value_from(s) == (
            Ok::<Option<ValueView>, ParsingErrorView>(Some(ValueView::String(key))),
            after_key,
        ),
        lex(after_key) == (Ok::<TokenView, TokenizeErrorView>(TokenView::Colon), after_colon),
        after_colon.len() < s.len(),
        parse_value_from(after_colon).0 matches Ok(Some(_)),
        parse_value_from(after_colon).1 == after,
        tokens(
            if others.len() == 0 {
                seq!['}'] + behind
            } else {
                seq![','] + (members_text(others, 0) + seq!['}'] + behind)
            },
        ) == tokens(after),
    ensures
        quote_free(key),
        is_writable(doc),
        parse_value_from(after_colon).0 == Ok::<Option<ValueView>, ParsingErrorView>(
            Some(value_of(doc)),
        ),
        tokens(members_text(seq![(key, doc)] + others, 0) + seq!['}'] + behind) == tokens(s),
    decreases s.len(), 3int,
{
    let tail = if others.len() == 0 {
        seq!['}'] + behind
    } else {
        seq![','] + (members_text(others, 0) + seq!['}'] + behind)
    };
    let doc = lemma_value_written(after_colon, tail);
    let written = text_of(doc) + tail;
    let from_colon = seq![':'] + written;
    assert(tokens(from_colon) == tokens(after_key)) by {
        lemma_lex_len(after_key);
        lemma_tokens_behind(after_key);
        lemma_mark_then(':', written);
        lemma_tokens_behind(from_colon);
    }
    lemma_key_written(s, from_colon);
    let members = seq![(key, doc)] + others;
    assert(members_text(members, 0) + seq!['}'] + behind =~= seq!['"'] + key + seq!['"']
        + from_colon) by {
        lemma_members_text_behind_first((key, doc), others, 0);
        assert(members[0] == (key, doc));
    }
    doc
}

/// The keys and documents of the members that are read from `s`, behind the
/// members `seen`.
proof fn lemma_members_written(
    s: Seq<char>,
    seen: Map<Seq<char>, ValueView>,
    behind: Seq<char>,
) -> (members: Seq<(Seq<char>, Document)>)
    requires
        parse_members_from(s, seen).0 is Ok,
        tokens(behind) == tokens(parse_members_from(s, seen).1),
    ensures
        members.len() > 0,
        distinct(member_keys(members)),
        forall|i: int|
            0 <= i < members.len() ==> quote_free((#[trigger] members[i]).0) && is_writable(
                members[i].1,
            ) && !seen.dom().contains(members[i].0),
        parse_members_from(s, seen).0 == Ok::<ValueView, ParsingErrorView>(
            ValueView::Object(
                seen.union_prefer_right(map_of(member_keys(members), member_values(members))),
            ),
        ),
        tokens(members_text(members, 0) + seq!['}'] + behind) == tokens(s),
    decreases s.len(), 4int,
{
    let (key, after_key, after_colon, value, after) = lemma_member_parts(s, seen);
    let (step, next) = list_next(after, TokenView::OpenBrace, TokenView::CloseBrace);
    let grown = seen.insert(key, value);
    let others = if step is Done {
        Seq::<(Seq<char>, Document)>::empty()
    } else {
        lemma_members_written(next, grown, behind)
    };
    let tail = if others.len() == 0 {
        seq!['}'] + behind
    } else {
        seq![','] + (members_text(others, 0) + seq!['}'] + behind)
    };
    assert(tokens(tail) == tokens(after)) by {
        lemma_lex_len(after);
        lemma_tokens_behind(after);
        if step is Done {
            lemma_mark_then('}', behind);
        } else {
            lemma_mark_then(',', members_text(others, 0) + seq!['}'] + behind);
        }
        lemma_tokens_behind(tail);
    }
    let doc = lemma_member_written(s, key, after_key, after_colon, after, others, behind);
    lemma_members_joined(seen, key, doc, others);
    if step is Done {
        let whole = map_of(member_keys(others), member_values(others));
        assert(whole =~= Map::<Seq<char>, ValueView>::empty());
        assert(grown.union_prefer_right(whole) =~= grown);
    }
    seq![(key, doc)] + others
}

/// A member before others that were read behind it: keys stay distinct, and
/// the members together are the first one and then the others.
proof fn lemma_members_joined(
    seen: Map<Seq<char>, ValueView>,
    key: Seq<char>,
    doc: Document,
    others: Seq<(Seq<char>, Document)>,
)
    requires
        quote_free(key),
        is_writable(doc),
        !seen.dom().contains(key),
        distinct(member_keys(others)),
        forall|i: int|
            0 <= i < others.len() ==> quote_free((#[trigger] others[i]).0) && is_writable(
                others[i].1,
            ) && !seen.insert(key, value_of(doc)).dom().contains(others[i].0),
    ensures
        ({
            let members = seq![(key, doc)] + others;
            &&& distinct(member_keys(members))
            &&& forall|i: int|
                0 <= i < members.len() ==> quote_free((#[trigger] members[i]).0) && is_writable(
                    members[i].1,
                ) && !seen.dom().contains(members[i].0)
            &&& seen.insert(key, value_of(doc)).union_prefer_right(
                map_of(member_keys(others), member_values(others)),
            ) == seen.union_prefer_right(map_of(member_keys(members), member_values(members)))
        }),
{
    let members = seq![(key, doc)] + others;
    let value = value_of(doc);
    let keys = member_keys(members);
    let values = member_values(members);
    let other_keys = member_keys(others);
    let other_values = member_values(others);
    assert(keys =~= seq![key] + other_keys && values =~= seq![value] + other_values) by {
        assert forall|i: int| 0 <= i < members.len() implies keys[i] == (seq![key] + other_keys)[i]
            && values[i] == (seq![value] + other_values)[i] by {
            if i > 0 {
                assert(members[i] == others[i - 1]);
            }
        }
    }
    assert forall|i: int| 0 <= i < members.len() implies quote_free((#[trigger] members[i]).0)
        && is_writable(members[i].1) && !seen.dom().contains(members[i].0) by {
        if i > 0 {
            assert(members[i] == others[i - 1]);
        }
    }
    assert(!other_keys.contains(key)) by {
        if other_keys.contains(key) {
            let i = choose|i: int| 0 <= i < other_keys.len() && other_keys[i] == key;
            assert(others[i].0 == key);
        }
    }
    lemma_map_of_first(key, value, other_keys, other_values);
    assert(distinct(keys)) by {
        assert forall|i: int, j: int| 0 <= i < j < keys.len() implies keys[i] != keys[j] by {
            assert(keys[j] == other_keys[j - 1]);
            if i > 0 {
                assert(keys[i] == other_keys[i - 1]);
            }
        }
    }
    assert(seen.insert(key, value).union_prefer_right(map_of(other_keys, other_values))
        =~= seen.union_prefer_right(map_of(keys, values)));
}

/// A key that is read from `s` is a string without a quote, and its text in
/// quotes, put before any text with the tokens of what is left of `s`, has
/// the tokens of `s`.
proof fn lemma_key_written(s: Seq<char>, behind: Seq<char>)
    requires
        parse_value_from(s).0 matches Ok(Some(ValueView::String(_))),
        tokens(behind) == tokens(parse_value_from(s).1),
    ensures
        quote_free(parse_value_from(s).0->Ok_0->0->String_0),
        tokens(
            seq!['"'] + parse_value_from(s).0->Ok_0->0->String_0 + seq!['"'] + behind,
        ) == tokens(s),
{
    reveal(lex);
    let key = parse_value_from(s).0->Ok_0->0->String_0;
    let t = skip_whitespace(s);
    lemma_lex_len(s);
    lemma_tokens_behind(s);
    lemma_list_shapes(lex(s).1);
    assert(lex(s).0 == Ok::<TokenView, TokenizeErrorView>(TokenView::String(key)));
    let inner = t.skip(1);
    lemma_prefix_len(inner, unquoted(), 0);
    assert forall|i: int| 0 <= i < key.len() implies #[trigger] key[i] != '"' by {
        assert(key[i] == inner[i]);
        assert(unquoted()(inner[i]));
    }
    lemma_string_then(key, behind);
    lemma_tokens_behind(seq!['"'] + key + seq!['"'] + behind);
}

/// The map of a first key and value and of others, where the first key is
/// not among the others.
proof fn lemma_map_of_first(
    key: Seq<char>,
    value: ValueView,
    keys: Seq<Seq<char>>,
    values: Seq<ValueView>,
)
    requires
        distinct(keys),
        keys.len() == values.len(),
        !keys.contains(key),
    ensures
        map_of(seq![key] + keys, seq![value] + values) == map_of(keys, values).insert(key, value),
{
    let longer_keys = seq![key] + keys;
    let longer_values = seq![value] + values;
    assert forall|i: int, j: int| 0 <= i < j < longer_keys.len() implies longer_keys[i]
        != longer_keys[j] by {
        assert(longer_keys[j] == keys[j - 1]);
        if i > 0 {
            assert(longer_keys[i] == keys[i - 1]);
        }
    }
    let joined = map_of(longer_keys, longer_values);
    let inserted = map_of(keys, values).insert(key, value);
    assert forall|q: Seq<char>| joined.dom().contains(q) <==> inserted.dom().contains(q) by {
        if joined.dom().contains(q) {
            let j = longer_keys.index_of(q);
            if j > 0 {
                assert(keys[j - 1] == q);
            }
        }
        if inserted.dom().contains(q) {
            if q == key {
                assert(longer_keys[0] == q);
            } else {
                let j = keys.index_of(q);
                assert(longer_keys[j + 1] == q);
            }
        }
    }
    assert forall|q: Seq<char>| joined.dom().contains(q) implies #[trigger] joined[q]
        == inserted[q] by {
        let j = longer_keys.index_of(q);
        lemma_map_of_index(longer_keys, longer_values, j);
        if j > 0 {
            assert(keys[j - 1] == q);
            lemma_map_of_index(keys, values, j - 1);
        }
    }
    assert(joined =~= inserted);
}

/// The text `s` has the tokens of the writable document `doc`, which stands
/// for the value `v`.
pub open spec fn is_written_as(s: Seq<char>, doc: Document, v: ValueView) -> bool {
    is_writable(doc) && value_of(doc) == v && tokens(s) == tokens(text_of(doc))
}

/// A text holds a value exactly when it has the tokens of a writable
/// document, and the value that it holds is the one that the document
/// stands for.
pub proof fn lemma_holds_value_iff_written(s: Seq<char>, v: ValueView)
    ensures
        parse_text(s) == Ok::<Option<ValueView>, ParsingErrorView>(Some(v)) <==> exists|
            doc: Document,
        |
            is_written_as(s, doc, v),
{
    if parse_text(s) == Ok::<Option<ValueView>, ParsingErrorView>(Some(v)) {
        let nothing = Seq::<char>::empty();
        let rest = parse_value_from(s).1;
        assert(tokens(nothing) == tokens(rest)) by {
            lemma_lex_end(nothing);
        }
        let doc = lemma_value_written(s, nothing);
        assert(text_of(doc) + nothing =~= text_of(doc));
        assert(is_written_as(s, doc, v));
    }
    if exists|doc: Document| is_written_as(s, doc, v) {
        let doc = choose|doc: Document| is_written_as(s, doc, v);
        lemma_text_is_read_back(doc);
        lemma_parse_depends_on_tokens(s, text_of(doc));
    }
}

} // verus!
