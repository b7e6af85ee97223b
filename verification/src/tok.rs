//! Whitespace tokenization: splitting a character sequence into the
//! maximal runs of non-whitespace characters, in order.

use vstd::prelude::*;

verus! {

/// Whether a character counts as whitespace for tokenization.
pub uninterp spec fn is_space(c: char) -> bool;

/// Relies on char::is_whitespace: whether `c` has the Unicode whitespace
/// property, a function of the character alone.
#[verifier::external_body]
pub fn char_is_space(c: char) -> (r: bool)
    ensures
        r == is_space(c),
{
    c.is_whitespace()
}

/// Length of the maximal non-whitespace prefix of `s`.
pub open spec fn token_end(s: Seq<char>) -> nat
    decreases s.len(),
{
    if s.len() == 0 || is_space(s[0]) {
        0
    } else {
        1 + token_end(s.skip(1))
    }
}

pub proof fn lemma_token_end_le(s: Seq<char>)
    ensures
        token_end(s) <= s.len(),
    decreases s.len(),
{
    if s.len() != 0 && !is_space(s[0]) {
        lemma_token_end_le(s.skip(1));
    }
}

/// The sequence of whitespace-delimited tokens of `s`, in order.
pub open spec fn tokenize(s: Seq<char>) -> Seq<Seq<char>>
    decreases s.len(),
    via tokenize_dec
{
    if s.len() == 0 {
        Seq::empty()
    } else if is_space(s[0]) {
        tokenize(s.skip(1))
    } else {
        seq![s.take(token_end(s) as int)] + tokenize(s.skip(token_end(s) as int))
    }
}

#[via_fn]
proof fn tokenize_dec(s: Seq<char>) {
    if s.len() != 0 && !is_space(s[0]) {
        lemma_token_end_le(s);
    }
}

/// If the first `k` characters of `s` are non-whitespace and the next
/// position (if any) is whitespace, then `k` is the end of the first token.
pub proof fn lemma_token_end_at(s: Seq<char>, k: int)
    requires
        0 <= k <= s.len(),
        forall|t: int| 0 <= t < k ==> !is_space(#[trigger] s[t]),
        k == s.len() || is_space(s[k]),
    ensures
        token_end(s) == k,
    decreases k,
{
    if k == 0 {
    } else {
        assert(!is_space(s[0]));
        lemma_token_end_at(s.skip(1), k - 1);
    }
}

/// With the first token ending at `k >= 1`, tokenization peels it off.
pub proof fn lemma_tokenize_step(s: Seq<char>, k: int)
    requires
        1 <= k <= s.len(),
        forall|t: int| 0 <= t < k ==> !is_space(#[trigger] s[t]),
        k == s.len() || is_space(s[k]),
    ensures
        tokenize(s) == seq![s.take(k)] + tokenize(s.skip(k)),
{
    lemma_token_end_at(s, k);
}

} // verus!
