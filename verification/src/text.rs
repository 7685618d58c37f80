//! Characters and strings: what is taken from `std` on trust, and prefixes
//! of a text.

use vstd::prelude::*;

verus! {

/// `String::push` appends the character to the end of the string and
/// changes nothing else of it.
pub assume_specification[ std::string::String::push ](s: &mut std::string::String, c: char)
    ensures
        final(s)@ == old(s)@.push(c),
;

/// `eq` of `str`, which is `==` on string slices, answers whether the two
/// slices hold the same characters.
pub assume_specification[ <str as PartialEq<str>>::eq ](a: &str, b: &str) -> (r: bool)
    ensures
        r == (a@ == b@),
;

/// The length of the longest prefix of `s` whose characters all satisfy `p`.
pub open spec fn prefix_len(s: Seq<char>, p: spec_fn(char) -> bool) -> nat
    decreases s.len(),
{
    if s.len() > 0 && p(s[0]) {
        1 + prefix_len(s.skip(1), p)
    } else {
        0
    }
}

/// `n` characters of `s` satisfy `p`, and the one after them, if any, does not.
pub open spec fn is_prefix_len(s: Seq<char>, p: spec_fn(char) -> bool, n: int) -> bool {
    &&& 0 <= n <= s.len()
    &&& forall|i: int| 0 <= i < n ==> p(#[trigger] s[i])
    &&& n < s.len() ==> !p(s[n])
}

/// `prefix_len` is the one length that `is_prefix_len` describes.
pub proof fn lemma_prefix_len(s: Seq<char>, p: spec_fn(char) -> bool, n: int)
    ensures
        is_prefix_len(s, p, prefix_len(s, p) as int),
        is_prefix_len(s, p, n) ==> n == prefix_len(s, p),
    decreases s.len(),
{
    if s.len() > 0 && p(s[0]) {
        let tail = s.skip(1);
        lemma_prefix_len(tail, p, n - 1);
        let m = prefix_len(tail, p) as int;
        assert forall|i: int| 0 <= i < m + 1 implies p(#[trigger] s[i]) by {
            if i > 0 {
                assert(s[i] == tail[i - 1]);
            }
        }
        if m + 1 < s.len() {
            assert(s[m + 1] == tail[m]);
        }
        if is_prefix_len(s, p, n) {
            if n == 0 {
                assert(!p(s[0]));
            }
            assert forall|i: int| 0 <= i < n - 1 implies p(#[trigger] tail[i]) by {
                assert(tail[i] == s[i + 1]);
            }
            if n - 1 < tail.len() {
                assert(tail[n - 1] == s[n]);
            }
            assert(is_prefix_len(tail, p, n - 1));
        }
    } else {
        if is_prefix_len(s, p, n) && n > 0 {
            assert(p(s[0]));
        }
    }
}

/// Copies characters into a new string.
pub fn string_of(chars: &[char]) -> (s: String)
    ensures
        s@ == chars@,
{
    let mut s = String::new();
    let mut i: usize = 0;
    while i < chars.len()
        invariant
            i <= chars.len(),
            s@ == chars@.take(i as int),
        decreases chars.len() - i,
    {
        s.push(chars[i]);
        assert(chars@.take(i + 1) =~= chars@.take(i as int).push(chars@[i as int]));
        i = i + 1;
    }
    assert(chars@.take(i as int) =~= chars@);
    s
}

} // verus!
