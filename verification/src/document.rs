//! Documents: the texts of the format without whitespace, taken apart.

use crate::number::number_of_text;
use crate::stream::tokens;
use crate::tokenize::TokenView;
use crate::value::{distinct, map_of, ValueView};
use vstd::prelude::*;

verus! {

/// A text of the format without whitespace, taken apart: the literals, the
/// elements of each array and the members of each object, in the order in
/// which they are written.
pub enum Document {
    Null,
    Bool(bool),
    /// A number, as it is written.
    Number(Seq<char>),
    /// A string, without its quotes.
    String(Seq<char>),
    Array(Seq<Document>),
    Object(Seq<(Seq<char>, Document)>),
}

/// No character of `s` is a quote.
pub open spec fn quote_free(s: Seq<char>) -> bool {
    forall|i: int| 0 <= i < s.len() ==> #[trigger] s[i] != '"'
}

/// The text is a number that can begin a token: it denotes a number and
/// does not begin with the decimal point.
pub open spec fn is_number_literal(text: Seq<char>) -> bool {
    number_of_text(text) is Some && text[0] != '.'
}

/// The keys of `members`, in their order.
pub open spec fn member_keys(members: Seq<(Seq<char>, Document)>) -> Seq<Seq<char>> {
    Seq::new(members.len(), |i: int| members[i].0)
}

/// Everything in the document can be written: no string holds a quote, each
/// number is one, and no object has a key twice.
pub open spec fn is_writable(doc: Document) -> bool
    decreases doc,
{
    match doc {
        Document::Null => true,
        Document::Bool(_) => true,
        Document::Number(text) => is_number_literal(text),
        Document::String(s) => quote_free(s),
        Document::Array(items) => forall|i: int|
            0 <= i < items.len() ==> is_writable(#[trigger] items[i]),
        Document::Object(members) => {
            &&& distinct(member_keys(members))
            &&& forall|i: int|
                0 <= i < members.len() ==> quote_free((#[trigger] members[i]).0) && is_writable(
                    members[i].1,
                )
        },
    }
}

/// The values of `items`, in their order.
pub open spec fn item_values(items: Seq<Document>) -> Seq<ValueView>
    decreases items, 0int,
{
    Seq::new(
        items.len(),
        |i: int|
            if 0 <= i < items.len() {
                value_of(items[i])
            } else {
                ValueView::Null
            },
    )
}

/// The values of `members`, in their order.
pub open spec fn member_values(members: Seq<(Seq<char>, Document)>) -> Seq<ValueView>
    decreases members, 0int,
{
    Seq::new(
        members.len(),
        |i: int|
            if 0 <= i < members.len() {
                value_of(members[i].1)
            } else {
                ValueView::Null
            },
    )
}

/// The value that the document stands for.
pub open spec fn value_of(doc: Document) -> ValueView
    decreases doc, 1int,
{
    match doc {
        Document::Null => ValueView::Null,
        Document::Bool(b) => ValueView::Bool(b),
        Document::Number(text) => ValueView::Number(number_of_text(text)->0),
        Document::String(s) => ValueView::String(s),
        Document::Array(items) => ValueView::Array(item_values(items)),
        Document::Object(members) => ValueView::Object(
            map_of(member_keys(members), member_values(members)),
        ),
    }
}

/// The document written out, with nothing between its tokens.
pub open spec fn text_of(doc: Document) -> Seq<char>
    decreases doc, 0int,
{
    match doc {
        Document::Null => seq!['n', 'u', 'l', 'l'],
        Document::Bool(b) => if b {
            seq!['t', 'r', 'u', 'e']
        } else {
            seq!['f', 'a', 'l', 's', 'e']
        },
        Document::Number(text) => text,
        Document::String(s) => seq!['"'] + s + seq!['"'],
        Document::Array(items) => seq!['['] + items_text(items, 0) + seq![']'],
        Document::Object(members) => seq!['{'] + members_text(members, 0) + seq!['}'],
    }
}

/// The elements of an array from the one at `from` on, with commas between
/// them.
pub open spec fn items_text(items: Seq<Document>, from: int) -> Seq<char>
    decreases items, items.len() - from,
{
    if 0 <= from < items.len() {
        text_of(items[from]) + if from + 1 < items.len() {
            seq![','] + items_text(items, from + 1)
        } else {
            Seq::empty()
        }
    } else {
        Seq::empty()
    }
}

/// The members of an object from the one at `from` on, each as its key in
/// quotes, a colon and its value, with commas between them.
pub open spec fn members_text(members: Seq<(Seq<char>, Document)>, from: int) -> Seq<char>
    decreases members, members.len() - from,
{
    if 0 <= from < members.len() {
        seq!['"'] + members[from].0 + seq!['"', ':'] + text_of(members[from].1) + if from + 1
            < members.len() {
            seq![','] + members_text(members, from + 1)
        } else {
            Seq::empty()
        }
    } else {
        Seq::empty()
    }
}

/// The document is an array or an object with at least one element or
/// member.
pub open spec fn is_filled_list(doc: Document) -> bool {
    match doc {
        Document::Array(items) => items.len() > 0,
        Document::Object(members) => members.len() > 0,
        _ => false,
    }
}

/// The token that opens the list.
pub open spec fn opening(doc: Document) -> TokenView {
    if doc is Array {
        TokenView::OpenBracket
    } else {
        TokenView::OpenBrace
    }
}

/// The token that closes the list.
pub open spec fn closing(doc: Document) -> TokenView {
    if doc is Array {
        TokenView::CloseBracket
    } else {
        TokenView::CloseBrace
    }
}

/// The text of a list without its closing mark.
pub open spec fn unclosed_text(doc: Document) -> Seq<char> {
    text_of(doc).drop_last()
}

} // verus!
