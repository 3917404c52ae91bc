//! Token-cost estimation: the count of whitespace-delimited words plus the
//! count of ASCII punctuation characters. A deliberately crude, deterministic
//! proxy for model tokenization.

use crate::chars::{chars_of, is_punct, is_white, punct_char, whitespace_char};
use vstd::prelude::*;

verus! {

/// Contribution of one character: 1 if it starts a word (it is not white and
/// the previous character was white or there was none), plus 1 if it is ASCII
/// punctuation.
pub open spec fn est_step(c: char, prev_white: bool) -> nat {
    (if !is_white(c) && prev_white {
        1nat
    } else {
        0nat
    }) + (if is_punct(c) {
        1nat
    } else {
        0nat
    })
}

/// Word starts plus punctuation over `s`, where `prev_white` says whether the
/// character just before `s` was white space (true at the start of a text).
pub open spec fn est_core(s: Seq<char>, prev_white: bool) -> nat
    decreases s.len(),
{
    if s.len() == 0 {
        0
    } else {
        est_step(s[0], prev_white) + est_core(s.drop_first(), is_white(s[0]))
    }
}

/// The estimated token cost of a text: its whitespace-delimited word count
/// plus its ASCII punctuation count.
pub open spec fn token_estimate(s: Seq<char>) -> nat {
    est_core(s, true)
}

/// Count of whitespace-delimited words alone.
pub open spec fn word_core(s: Seq<char>, prev_white: bool) -> nat
    decreases s.len(),
{
    if s.len() == 0 {
        0
    } else {
        (if !is_white(s[0]) && prev_white {
            1nat
        } else {
            0nat
        }) + word_core(s.drop_first(), is_white(s[0]))
    }
}

pub open spec fn word_count(s: Seq<char>) -> nat {
    word_core(s, true)
}

/// Count of ASCII punctuation characters alone.
pub open spec fn punct_count(s: Seq<char>) -> nat
    decreases s.len(),
{
    if s.len() == 0 {
        0
    } else {
        (if is_punct(s[0]) {
            1nat
        } else {
            0nat
        }) + punct_count(s.drop_first())
    }
}

/// The estimate is exactly words plus punctuation.
pub proof fn lemma_estimate_decomposes(s: Seq<char>, prev_white: bool)
    ensures
        est_core(s, prev_white) == word_core(s, prev_white) + punct_count(s),
    decreases s.len(),
{
    if s.len() > 0 {
        lemma_estimate_decomposes(s.drop_first(), is_white(s[0]));
    }
}

/// The estimate never exceeds the length plus one.
pub proof fn lemma_est_core_bound(s: Seq<char>, prev_white: bool)
    ensures
        est_core(s, prev_white) <= s.len() + if prev_white {
            1int
        } else {
            0int
        },
    decreases s.len(),
{
    if s.len() > 0 {
        lemma_est_core_bound(s.drop_first(), is_white(s[0]));
    }
}

/// The white-or-none state after processing `s`, starting from `prev_white`.
pub open spec fn state_after(s: Seq<char>, prev_white: bool) -> bool {
    if s.len() == 0 {
        prev_white
    } else {
        is_white(s[s.len() - 1])
    }
}

/// The estimate splits over concatenation, threading the boundary state.
pub proof fn lemma_est_concat(a: Seq<char>, b: Seq<char>, prev_white: bool)
    ensures
        est_core(a + b, prev_white) == est_core(a, prev_white) + est_core(
            b,
            state_after(a, prev_white),
        ),
    decreases a.len(),
{
    if a.len() == 0 {
        assert(a + b =~= b);
    } else {
        assert((a + b).drop_first() =~= a.drop_first() + b);
        lemma_est_concat(a.drop_first(), b, is_white(a[0]));
        if a.len() == 1 {
            assert(state_after(a.drop_first(), is_white(a[0])) == is_white(a[0]));
        } else {
            assert(a.drop_first()[a.drop_first().len() - 1] == a[a.len() - 1]);
        }
    }
}

/// A text has estimate zero exactly when it holds no word and no punctuation,
/// that is, when every character is white space.
pub proof fn lemma_token_estimate_zero(s: Seq<char>)
    ensures
        token_estimate(s) >= 0,
        (token_estimate(s) == 0 <==> word_count(s) == 0 && punct_count(s) == 0),
        (token_estimate(s) == 0 <==> (forall|i: int| 0 <= i < s.len() ==> is_white(s[i]))),
{
    lemma_estimate_decomposes(s, true);
    lemma_est_zero_iff_white(s, true);
}

proof fn lemma_est_zero_iff_white(s: Seq<char>, prev_white: bool)
    ensures
        est_core(s, prev_white) == 0 && prev_white <==> prev_white && (forall|i: int|
            0 <= i < s.len() ==> is_white(s[i])),
    decreases s.len(),
{
    if s.len() > 0 {
        lemma_est_zero_iff_white(s.drop_first(), is_white(s[0]));
        if est_core(s, prev_white) == 0 && prev_white {
            assert(is_white(s[0]));
            assert forall|i: int| 0 <= i < s.len() implies is_white(s[i]) by {
                if i > 0 {
                    assert(s.drop_first()[i - 1] == s[i]);
                }
            }
        }
        if prev_white && (forall|i: int| 0 <= i < s.len() ==> is_white(s[i])) {
            assert(is_white(s[0]));
            assert forall|i: int| 0 <= i < s.drop_first().len() implies is_white(
                s.drop_first()[i],
            ) by {
                assert(s.drop_first()[i] == s[i + 1]);
            }
            assert(est_step(s[0], prev_white) == 0);
        }
    }
}

/// Estimate the token cost of a character vector.
pub fn token_count_chars(v: &Vec<char>) -> (n: usize)
    requires
        v@.len() < usize::MAX,
    ensures
        n == token_estimate(v@),
{
    let ghost total = token_estimate(v@);
    proof {
        lemma_est_core_bound(v@, true);
        assert(v@.subrange(0, v@.len() as int) =~= v@);
    }
    let mut n: usize = 0;
    let mut prev: bool = true;
    let mut i: usize = 0;
    proof {
        assert(v@.subrange(0, 0) =~= Seq::<char>::empty());
        assert(token_estimate(v@) == n + est_core(v@.subrange(0, v@.len() as int), prev)) by {
            assert(v@.subrange(0, v@.len() as int) =~= v@);
        }
    }
    while i < v.len()
        invariant
            i <= v@.len(),
            v@.len() < usize::MAX,
            total == token_estimate(v@),
            total <= v@.len() + 1,
            total == n + est_core(v@.subrange(i as int, v@.len() as int), prev),
        decreases v@.len() - i,
    {
        let c = v[i];
        proof {
            let suffix = v@.subrange(i as int, v@.len() as int);
            assert(suffix.drop_first() =~= v@.subrange(i + 1, v@.len() as int));
            assert(suffix[0] == v@[i as int]);
            assert(est_core(suffix, prev) == est_step(c, prev) + est_core(
                v@.subrange(i + 1, v@.len() as int),
                is_white(c),
            ));
        }
        let w = whitespace_char(c);
        if !w && prev {
            n += 1;
        }
        if punct_char(c) {
            n += 1;
        }
        prev = w;
        i += 1;
    }
    proof {
        assert(v@.subrange(v@.len() as int, v@.len() as int) =~= Seq::<char>::empty());
    }
    n
}

/// Estimated token cost of a text: whitespace-delimited words plus ASCII
/// punctuation characters. Deterministic; the empty string costs 0.
pub fn estimate_token_count(text: &str) -> (n: usize)
    requires
        text@.len() < usize::MAX,
    ensures
        n == token_estimate(text@),
{
    let v = chars_of(text);
    token_count_chars(&v)
}

} // verus!
