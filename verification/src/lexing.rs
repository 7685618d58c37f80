//! What holds of `lex`, the definition of the tokenizer's step.

use crate::text::{lemma_prefix_len, prefix_len};
use crate::tokenize::{
    all_whitespace, ends_number, inside_number, is_proper_token, lex, skip_whitespace, unquoted,
    whitespace, TokenView, TokenizeErrorView,
};
use vstd::prelude::*;

verus! {

/// A token is cut from the front of the text: what is left is no longer
/// than the text, and shorter where a token other than the end of the input
/// was read.
pub proof fn lemma_lex_len(s: Seq<char>)
    ensures
        lex(s).1.len() <= s.len(),
        is_proper_token(lex(s).0) ==> lex(s).1.len() < s.len(),
{
    reveal(lex);
    lemma_prefix_len(s, whitespace(), 0);
    let t = skip_whitespace(s);
    if t.len() > 0 {
        let rest = t.skip(1);
        lemma_prefix_len(rest, unquoted(), 0);
        lemma_prefix_len(t, inside_number(), 0);
    }
}

/// What is left behind a token is the end of the text.
pub proof fn lemma_lex_is_suffix(s: Seq<char>)
    ensures
        lex(s).1.len() <= s.len(),
        lex(s).1 == s.skip(s.len() - lex(s).1.len()),
{
    reveal(lex);
    lemma_lex_len(s);
    lemma_prefix_len(s, whitespace(), 0);
    let t = skip_whitespace(s);
    let lead = prefix_len(s, whitespace()) as int;
    if t.len() > 0 {
        lemma_prefix_len(t.skip(1), unquoted(), 0);
        lemma_prefix_len(t, inside_number(), 0);
        let k = t.len() - lex(s).1.len();
        assert(lex(s).1 =~= t.skip(k));
        assert(t.skip(k) =~= s.skip(lead + k));
    }
}

/// A token ends behind the whitespace that stands before it.
pub proof fn lemma_token_behind_whitespace(s: Seq<char>)
    ensures
        prefix_len(s, whitespace()) <= s.len() - lex(s).1.len(),
{
    reveal(lex);
    lemma_prefix_len(s, whitespace(), 0);
    let t = skip_whitespace(s);
    if t.len() > 0 {
        lemma_prefix_len(t.skip(1), unquoted(), 0);
        lemma_prefix_len(t, inside_number(), 0);
    }
}

/// The end of the input is found where nothing but whitespace is left, and
/// nowhere else.
pub proof fn lemma_lex_end(s: Seq<char>)
    ensures
        lex(s).0 == Ok::<TokenView, TokenizeErrorView>(TokenView::Eof) <==> all_whitespace(s),
{
    reveal(lex);
    lemma_prefix_len(s, whitespace(), s.len() as int);
    let t = skip_whitespace(s);
    if t.len() > 0 {
        lemma_prefix_len(t.skip(1), unquoted(), 0);
        lemma_prefix_len(t, inside_number(), 0);
        assert(t[0] == s[prefix_len(s, whitespace()) as int]);
    }
}

/// At the end of the input the tokenizer stays where it is: asked again, it
/// answers with the end of the input again.
pub proof fn lemma_lex_at_end(s: Seq<char>)
    requires
        lex(s).0 == Ok::<TokenView, TokenizeErrorView>(TokenView::Eof),
    ensures
        lex(lex(s).1) == lex(s),
{
    reveal(lex);
    let t = skip_whitespace(s);
    lemma_prefix_len(t.skip(1), unquoted(), 0);
    lemma_prefix_len(t, inside_number(), 0);
    assert(t.len() == 0);
    lemma_prefix_len(t, whitespace(), 0);
    assert(skip_whitespace(t) =~= t);
}

/// Behind a number stands a character that ends it, or nothing.
pub proof fn lemma_number_is_ended(s: Seq<char>)
    requires
        lex(s).0 matches Ok(TokenView::Number(_)),
    ensures
        lex(s).1.len() == 0 || ends_number(lex(s).1[0]),
{
    reveal(lex);
    let t = skip_whitespace(s);
    lemma_prefix_len(t, inside_number(), 0);
    lemma_prefix_len(t.skip(1), unquoted(), 0);
}

/// A token is read from its own characters: with another text behind them
/// the same token is read, and that text is left. A number's characters are
/// its own only while no character that belongs to a number follows them.
pub proof fn lemma_lex_local(s: Seq<char>, behind: Seq<char>)
    requires
        is_proper_token(lex(s).0),
        lex(s).0 matches Ok(TokenView::Number(_)) ==> behind.len() == 0 || ends_number(behind[0]),
    ensures
        lex(s).1.len() < s.len(),
        lex(s.take(s.len() - lex(s).1.len()) + behind) == (lex(s).0, behind),
        prefix_len(s.take(s.len() - lex(s).1.len()) + behind, whitespace()) == prefix_len(
            s,
            whitespace(),
        ),
{
    reveal(lex);
    lemma_lex_len(s);
    let rest = lex(s).1;
    let end = s.len() - rest.len();
    let head = s.take(end);
    let other = head + behind;
    let lead = prefix_len(s, whitespace()) as int;
    lemma_prefix_len(s, whitespace(), 0);
    let t = skip_whitespace(s);
    assert(t.len() > 0);
    let c = t[0];
    assert(c == s[lead]);
    lemma_prefix_len(t.skip(1), unquoted(), 0);
    lemma_prefix_len(t, inside_number(), 0);
    assert(lead < end);
    assert forall|i: int| 0 <= i < lead implies whitespace()(#[trigger] other[i]) by {
        assert(other[i] == s[i]);
    }
    assert(other[lead] == s[lead]);
    lemma_prefix_len(other, whitespace(), lead);
    let t2 = skip_whitespace(other);
    assert(t2 =~= head.skip(lead) + behind);
    assert(t2[0] == c);
    assert(rest == t.skip(end - lead));
    if c == '[' || c == ']' || c == '{' || c == '}' || c == ',' || c == ':' {
        assert(t2.skip(1) =~= behind);
    } else if c == 'n' || c == 't' {
        assert(t2.skip(1).take(3) =~= t.skip(1).take(3));
        assert(t2.skip(1).skip(3) =~= behind);
    } else if c == 'f' {
        assert(t2.skip(1).take(4) =~= t.skip(1).take(4));
        assert(t2.skip(1).skip(4) =~= behind);
    } else if c == '"' {
        let n = prefix_len(t.skip(1), unquoted()) as int;
        assert forall|i: int| 0 <= i < n implies unquoted()(#[trigger] t2.skip(1)[i]) by {
            assert(t2.skip(1)[i] == t.skip(1)[i]);
        }
        assert(t2.skip(1)[n] == t.skip(1)[n]);
        lemma_prefix_len(t2.skip(1), unquoted(), n);
        assert(t2.skip(1).take(n) =~= t.skip(1).take(n));
        assert(t2.skip(1).skip(n + 1) =~= behind);
    } else {
        let n = prefix_len(t, inside_number()) as int;
        assert forall|i: int| 0 <= i < n implies inside_number()(#[trigger] t2[i]) by {
            assert(t2[i] == t[i]);
        }
        if n < t2.len() {
            assert(t2[n] == behind[0]);
        }
        lemma_prefix_len(t2, inside_number(), n);
        assert(t2.take(n) =~= t.take(n));
        assert(t2.skip(n) =~= behind);
    }
}

/// The text `s` with `w` put in at position `p`.
pub open spec fn insert_at(s: Seq<char>, p: int, w: Seq<char>) -> Seq<char> {
    s.take(p) + w + s.skip(p)
}

/// Whitespace before the first token changes neither the token nor what is
/// left behind it.
pub proof fn lemma_lex_leading_whitespace(s: Seq<char>, p: int, w: Seq<char>)
    requires
        0 <= p <= prefix_len(s, whitespace()),
        all_whitespace(w),
    ensures
        lex(insert_at(s, p, w)) == lex(s),
{
    reveal(lex);
    let lead = prefix_len(s, whitespace()) as int;
    let longer = insert_at(s, p, w);
    lemma_prefix_len(s, whitespace(), 0);
    assert forall|i: int| 0 <= i < lead + w.len() implies whitespace()(#[trigger] longer[i]) by {
        if i < p {
            assert(longer[i] == s[i]);
        } else if i < p + w.len() {
            assert(longer[i] == w[i - p]);
        } else {
            assert(longer[i] == s[i - w.len()]);
        }
    }
    if lead + w.len() < longer.len() {
        assert(longer[lead + w.len()] == s[lead]);
    }
    lemma_prefix_len(longer, whitespace(), lead + w.len());
    assert(skip_whitespace(longer) =~= skip_whitespace(s));
}

/// Whitespace put into the leading whitespace makes it longer by its length.
pub proof fn lemma_leading_whitespace_len(s: Seq<char>, p: int, w: Seq<char>)
    requires
        0 <= p <= prefix_len(s, whitespace()),
        all_whitespace(w),
    ensures
        prefix_len(insert_at(s, p, w), whitespace()) == prefix_len(s, whitespace()) + w.len(),
{
    let lead = prefix_len(s, whitespace()) as int;
    let longer = insert_at(s, p, w);
    lemma_prefix_len(s, whitespace(), 0);
    assert forall|i: int| 0 <= i < lead + w.len() implies whitespace()(#[trigger] longer[i]) by {
        if i < p {
            assert(longer[i] == s[i]);
        } else if i < p + w.len() {
            assert(longer[i] == w[i - p]);
        } else {
            assert(longer[i] == s[i - w.len()]);
        }
    }
    if lead + w.len() < longer.len() {
        assert(longer[lead + w.len()] == s[lead]);
    }
    lemma_prefix_len(longer, whitespace(), lead + w.len());
}

} // verus!
