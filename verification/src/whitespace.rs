//! Whitespace between tokens is insignificant.

use crate::grammar::parse_text;
use crate::lexing::{
    insert_at, lemma_leading_whitespace_len, lemma_lex_is_suffix, lemma_lex_leading_whitespace,
    lemma_lex_len, lemma_lex_local, lemma_number_is_ended, lemma_token_behind_whitespace,
};
use crate::stream::{lemma_parse_depends_on_tokens, tokens};
use crate::text::{lemma_prefix_len, prefix_len};
use crate::tokenize::{all_whitespace, is_proper_token, lex, whitespace, TokenView};
use vstd::prelude::*;

verus! {

/// Position `p` of `s` lies between tokens: in the whitespace before the
/// first token or at its start, or behind the first token and between the
/// tokens of what follows it. Behind an error there is no such position.
pub open spec fn between_tokens(s: Seq<char>, p: int) -> bool
    decreases s.len(),
{
    let (lexeme, rest) = lex(s);
    ||| 0 <= p <= prefix_len(s, whitespace())
    ||| {
        &&& is_proper_token(lexeme)
        &&& p >= s.len() - rest.len()
        &&& {
            proof {
                lemma_lex_len(s);
            }
            between_tokens(rest, p - (s.len() - rest.len()))
        }
    }
}

/// A position between tokens is a position of the text.
pub proof fn lemma_between_tokens_range(s: Seq<char>, p: int)
    requires
        between_tokens(s, p),
    ensures
        0 <= p <= s.len(),
    decreases s.len(),
{
    lemma_prefix_len(s, whitespace(), 0);
    lemma_lex_len(s);
    if !(0 <= p <= prefix_len(s, whitespace())) {
        let rest = lex(s).1;
        lemma_between_tokens_range(rest, p - (s.len() - rest.len()));
    }
}

/// Whitespace between tokens leaves the tokens as they are.
pub proof fn lemma_tokens_with_whitespace(s: Seq<char>, p: int, w: Seq<char>)
    requires
        between_tokens(s, p),
        all_whitespace(w),
    ensures
        tokens(insert_at(s, p, w)) == tokens(s),
    decreases s.len(),
{
    let (lexeme, rest) = lex(s);
    if 0 <= p <= prefix_len(s, whitespace()) {
        lemma_lex_leading_whitespace(s, p, w);
    } else {
        lemma_lex_len(s);
        let end = s.len() - rest.len();
        let behind = insert_at(rest, p - end, w);
        lemma_between_tokens_range(rest, p - end);
        assert(rest == s.skip(end)) by {
            lemma_lex_is_suffix(s);
        }
        assert(insert_at(s, p, w) =~= s.take(end) + behind);
        if lexeme matches Ok(TokenView::Number(_)) {
            lemma_number_is_ended(s);
            if behind.len() > 0 {
                if p - end > 0 {
                    assert(behind[0] == rest[0]);
                } else if w.len() > 0 {
                    assert(behind[0] == w[0]);
                } else {
                    assert(behind[0] == rest[0]);
                }
            }
        }
        lemma_lex_local(s, behind);
        lemma_tokens_with_whitespace(rest, p - end, w);
    }
}

/// Whitespace between tokens leaves the other places between tokens where
/// they are: those before it in place, those behind it moved on by its
/// length.
pub proof fn lemma_between_tokens_with_whitespace(s: Seq<char>, p: int, w: Seq<char>, q: int)
    requires
        between_tokens(s, p),
        all_whitespace(w),
        between_tokens(s, q),
    ensures
        q <= p ==> between_tokens(insert_at(s, p, w), q),
        q >= p ==> between_tokens(insert_at(s, p, w), q + w.len()),
    decreases s.len(),
{
    let (lexeme, rest) = lex(s);
    let lead = prefix_len(s, whitespace()) as int;
    let longer = insert_at(s, p, w);
    lemma_lex_len(s);
    lemma_prefix_len(s, whitespace(), 0);
    lemma_between_tokens_range(s, p);
    lemma_between_tokens_range(s, q);
    let end = s.len() - rest.len();
    if 0 <= p <= lead {
        lemma_lex_leading_whitespace(s, p, w);
        lemma_leading_whitespace_len(s, p, w);
        if !(0 <= q <= lead) {
            assert(lead <= end) by {
                lemma_lex_is_suffix(s);
                lemma_token_behind_whitespace(s);
            }
        }
    } else {
        let behind = insert_at(rest, p - end, w);
        lemma_between_tokens_range(rest, p - end);
        assert(rest == s.skip(end)) by {
            lemma_lex_is_suffix(s);
        }
        assert(longer =~= s.take(end) + behind);
        if lexeme matches Ok(TokenView::Number(_)) {
            lemma_number_is_ended(s);
            if behind.len() > 0 {
                if p - end > 0 {
                    assert(behind[0] == rest[0]);
                } else if w.len() > 0 {
                    assert(behind[0] == w[0]);
                } else {
                    assert(behind[0] == rest[0]);
                }
            }
        }
        lemma_lex_local(s, behind);
        assert(lead <= end) by {
            lemma_token_behind_whitespace(s);
        }
        if !(0 <= q <= lead) {
            lemma_between_tokens_with_whitespace(rest, p - end, w, q - end);
        }
    }
}

/// A run of whitespace put in before the first token, between two tokens or
/// behind the last one changes neither the value that the text holds nor
/// the error it fails with.
pub proof fn lemma_whitespace_run(s: Seq<char>, p: int, w: Seq<char>)
    requires
        between_tokens(s, p),
        all_whitespace(w),
    ensures
        parse_text(insert_at(s, p, w)) == parse_text(s),
{
    lemma_tokens_with_whitespace(s, p, w);
    lemma_parse_depends_on_tokens(insert_at(s, p, w), s);
}

/// Runs of whitespace for places of `s` between tokens, listed from the end
/// of the text to its start.
pub open spec fn runs_between_tokens(s: Seq<char>, runs: Seq<(int, Seq<char>)>) -> bool {
    &&& forall|i: int|
        0 <= i < runs.len() ==> between_tokens(s, (#[trigger] runs[i]).0) && all_whitespace(
            runs[i].1,
        )
    &&& forall|i: int, j: int| 0 <= i <= j < runs.len() ==> runs[i].0 >= runs[j].0
}

/// The text `s` with each run put in at its place.
pub open spec fn insert_runs(s: Seq<char>, runs: Seq<(int, Seq<char>)>) -> Seq<char>
    decreases runs.len(),
{
    if runs.len() == 0 {
        s
    } else {
        insert_runs(insert_at(s, runs[0].0, runs[0].1), runs.skip(1))
    }
}

/// Whitespace is insignificant between tokens: any runs of whitespace, put in
/// at any places between the tokens of a text, change neither its tokens, nor
/// the value that it holds, nor the error it fails with.
pub proof fn lemma_whitespace_invariance(s: Seq<char>, runs: Seq<(int, Seq<char>)>)
    requires
        runs_between_tokens(s, runs),
    ensures
        tokens(insert_runs(s, runs)) == tokens(s),
        parse_text(insert_runs(s, runs)) == parse_text(s),
    decreases runs.len(),
{
    if runs.len() > 0 {
        let (p, w) = runs[0];
        let longer = insert_at(s, p, w);
        let others = runs.skip(1);
        lemma_tokens_with_whitespace(s, p, w);
        assert forall|i: int| 0 <= i < others.len() implies between_tokens(
            longer,
            (#[trigger] others[i]).0,
        ) && all_whitespace(others[i].1) by {
            assert(others[i] == runs[i + 1]);
            lemma_between_tokens_with_whitespace(s, p, w, others[i].0);
        }
        assert forall|i: int, j: int| 0 <= i <= j < others.len() implies others[i].0
            >= others[j].0 by {
            assert(others[i] == runs[i + 1]);
            assert(others[j] == runs[j + 1]);
        }
        lemma_whitespace_invariance(longer, others);
    }
    lemma_parse_depends_on_tokens(insert_runs(s, runs), s);
}

} // verus!
