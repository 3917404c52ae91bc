//! Character classes, UTF-8 byte lengths, and whitespace trimming over
//! character sequences.

use vstd::prelude::*;
use vstd::string::StrSliceExecFns;

verus! {

/// The Unicode white-space characters, the class used for word splitting
/// and trimming.
pub open spec fn is_white(c: char) -> bool {
    c as u32 == 0x20 || c as u32 == 0x09 || c as u32 == 0x0A || c as u32 == 0x0B || c as u32
        == 0x0C || c as u32 == 0x0D || c as u32 == 0x85 || c as u32 == 0xA0 || c as u32 == 0x1680
        || (0x2000 <= c as u32 && c as u32 <= 0x200A) || c as u32 == 0x2028 || c as u32 == 0x2029
        || c as u32 == 0x202F || c as u32 == 0x205F || c as u32 == 0x3000
}

/// The ASCII punctuation characters: `!`..`/`, `:`..`@`, `[`..`` ` ``, `{`..`~`.
pub open spec fn is_punct(c: char) -> bool {
    (0x21 <= c as u32 && c as u32 <= 0x2F) || (0x3A <= c as u32 && c as u32 <= 0x40) || (0x5B <= c
        as u32 && c as u32 <= 0x60) || (0x7B <= c as u32 && c as u32 <= 0x7E)
}

/// Sentence boundaries: `.`, `!`, `?`, or a line break.
pub open spec fn is_sentence_sep(c: char) -> bool {
    c == '.' || c == '!' || c == '?' || c == '\n'
}

pub fn whitespace_char(c: char) -> (r: bool)
    ensures
        r == is_white(c),
{
    let u = c as u32;
    u == 0x20 || u == 0x09 || u == 0x0A || u == 0x0B || u == 0x0C || u == 0x0D || u == 0x85 || u
        == 0xA0 || u == 0x1680 || (0x2000 <= u && u <= 0x200A) || u == 0x2028 || u == 0x2029 || u
        == 0x202F || u == 0x205F || u == 0x3000
}

pub fn punct_char(c: char) -> (r: bool)
    ensures
        r == is_punct(c),
{
    let u = c as u32;
    (0x21 <= u && u <= 0x2F) || (0x3A <= u && u <= 0x40) || (0x5B <= u && u <= 0x60) || (0x7B <= u
        && u <= 0x7E)
}

pub fn sentence_sep_char(c: char) -> (r: bool)
    ensures
        r == is_sentence_sep(c),
{
    c == '.' || c == '!' || c == '?' || c == '\n'
}

/// Number of bytes of the UTF-8 encoding of `c`.
pub open spec fn utf8_len(c: char) -> nat {
    if (c as u32) < 0x80 {
        1
    } else if (c as u32) < 0x800 {
        2
    } else if (c as u32) < 0x10000 {
        3
    } else {
        4
    }
}

/// Number of bytes of the UTF-8 encoding of the whole sequence.
pub open spec fn byte_len(s: Seq<char>) -> nat
    decreases s.len(),
{
    if s.len() == 0 {
        0
    } else {
        utf8_len(s[0]) + byte_len(s.drop_first())
    }
}

pub fn char_utf8_len(c: char) -> (n: usize)
    ensures
        n == utf8_len(c),
{
    let u = c as u32;
    if u < 0x80 {
        1
    } else if u < 0x800 {
        2
    } else if u < 0x10000 {
        3
    } else {
        4
    }
}

pub proof fn lemma_byte_len_step(s: Seq<char>, i: int)
    requires
        0 <= i < s.len(),
    ensures
        byte_len(s.subrange(0, i + 1)) == byte_len(s.subrange(0, i)) + utf8_len(s[i]),
    decreases i,
{
    if i == 0 {
        assert(s.subrange(0, 1).drop_first() =~= s.subrange(0, 0));
        assert(byte_len(s.subrange(0, 0)) == 0);
    } else {
        lemma_byte_len_step(s.drop_first(), i - 1);
        assert(s.subrange(0, i + 1).drop_first() =~= s.drop_first().subrange(0, i));
        assert(s.subrange(0, i).drop_first() =~= s.drop_first().subrange(0, i - 1));
        assert(s.drop_first().subrange(0, (i - 1) + 1) =~= s.drop_first().subrange(0, i));
        assert(s.drop_first()[i - 1] == s[i]);
    }
}

/// What is left of `s` after the leading white space is dropped.
pub open spec fn trim_front(s: Seq<char>) -> Seq<char>
    decreases s.len(),
{
    if s.len() > 0 && is_white(s[0]) {
        trim_front(s.drop_first())
    } else {
        s
    }
}

/// What is left of `s` after the trailing white space is dropped.
pub open spec fn trim_back(s: Seq<char>) -> Seq<char>
    decreases s.len(),
{
    if s.len() > 0 && is_white(s[s.len() - 1]) {
        trim_back(s.drop_last())
    } else {
        s
    }
}

/// `s` with leading and trailing white space dropped.
pub open spec fn trim(s: Seq<char>) -> Seq<char> {
    trim_back(trim_front(s))
}

/// A sequence that neither starts nor ends with white space.
pub open spec fn is_trimmed(s: Seq<char>) -> bool {
    s.len() == 0 || (!is_white(s[0]) && !is_white(s[s.len() - 1]))
}

proof fn lemma_trim_front_at(s: Seq<char>, a: int)
    requires
        0 <= a <= s.len(),
        forall|i: int| 0 <= i < a ==> is_white(s[i]),
        a == s.len() || !is_white(s[a]),
    ensures
        trim_front(s) == s.subrange(a, s.len() as int),
    decreases a,
{
    if a == 0 {
        assert(s.subrange(0, s.len() as int) =~= s);
    } else {
        assert(is_white(s[0]));
        lemma_trim_front_at(s.drop_first(), a - 1);
        assert(s.drop_first().subrange(a - 1, s.drop_first().len() as int) =~= s.subrange(
            a,
            s.len() as int,
        ));
    }
}

proof fn lemma_trim_back_at(s: Seq<char>, b: int)
    requires
        0 <= b <= s.len(),
        forall|i: int| b <= i < s.len() ==> is_white(s[i]),
        b == 0 || !is_white(s[b - 1]),
    ensures
        trim_back(s) == s.subrange(0, b),
    decreases s.len() - b,
{
    if b == s.len() {
        assert(s.subrange(0, b) =~= s);
        if s.len() > 0 {
            assert(!is_white(s[s.len() - 1]));
        }
    } else {
        assert(is_white(s[s.len() - 1]));
        lemma_trim_back_at(s.drop_last(), b);
        assert(s.drop_last().subrange(0, b) =~= s.subrange(0, b));
    }
}

/// The trim of `s` is exactly the subrange between the first and last
/// non-white characters.
pub proof fn lemma_trim_at(s: Seq<char>, a: int, b: int)
    requires
        0 <= a <= b <= s.len(),
        forall|i: int| 0 <= i < a ==> is_white(s[i]),
        forall|i: int| b <= i < s.len() ==> is_white(s[i]),
        a == b || (!is_white(s[a]) && !is_white(s[b - 1])),
    ensures
        trim(s) == s.subrange(a, b),
{
    if a == b {
        lemma_trim_front_at(s, s.len() as int);
        assert(trim_front(s) =~= s.subrange(s.len() as int, s.len() as int));
        lemma_trim_back_at(trim_front(s), 0);
        assert(trim(s) =~= s.subrange(a, b));
    } else {
        lemma_trim_front_at(s, a);
        let t = s.subrange(a, s.len() as int);
        lemma_trim_back_at(t, b - a);
        assert(t.subrange(0, b - a) =~= s.subrange(a, b));
    }
}

/// Trimming yields a trimmed sequence.
pub proof fn lemma_trim_is_trimmed(s: Seq<char>)
    ensures
        is_trimmed(trim(s)),
        trim(s).len() <= s.len(),
        is_trimmed(s) ==> trim(s) == s,
{
    let a = choose_first_non_white(s);
    let b = choose_last_non_white(s, a);
    lemma_trim_at(s, a, b);
    if a < b {
        assert(trim(s)[0] == s[a]);
        assert(trim(s)[trim(s).len() - 1] == s[b - 1]);
    }
    if is_trimmed(s) {
        assert(trim(s) =~= s);
    }
}

proof fn choose_first_non_white(s: Seq<char>) -> (a: int)
    ensures
        0 <= a <= s.len(),
        forall|i: int| 0 <= i < a ==> is_white(s[i]),
        a == s.len() || !is_white(s[a]),
    decreases s.len(),
{
    if s.len() == 0 {
        0
    } else if !is_white(s[0]) {
        0
    } else {
        let a0 = choose_first_non_white(s.drop_first());
        assert forall|i: int| 0 <= i < a0 + 1 implies is_white(s[i]) by {
            if i > 0 {
                assert(s.drop_first()[i - 1] == s[i]);
            }
        }
        if a0 == s.drop_first().len() {
            assert(a0 + 1 == s.len());
        } else {
            assert(s.drop_first()[a0] == s[a0 + 1]);
        }
        a0 + 1
    }
}

proof fn choose_last_non_white(s: Seq<char>, a: int) -> (b: int)
    requires
        0 <= a <= s.len(),
        forall|i: int| 0 <= i < a ==> is_white(s[i]),
        a == s.len() || !is_white(s[a]),
    ensures
        a <= b <= s.len(),
        forall|i: int| b <= i < s.len() ==> is_white(s[i]),
        a == b || (!is_white(s[a]) && !is_white(s[b - 1])),
    decreases s.len() - a,
{
    if a == s.len() {
        a
    } else if !is_white(s[s.len() - 1]) {
        s.len() as int
    } else {
        // last char is white; recurse on drop_last
        let s2 = s.drop_last();
        assert(!is_white(s[a]));
        assert(a != s.len() - 1);
        assert(a <= s2.len());
        if a < s2.len() {
            assert(s2[a] == s[a]);
        }
        let b = choose_last_non_white(s2, a);
        assert forall|i: int| b <= i < s.len() implies is_white(s[i]) by {
            if i < s2.len() {
                assert(s2[i] == s[i]);
            }
        }
        if a != b {
            assert(s2[b - 1] == s[b - 1]);
        }
        b
    }
}

/// Copy the subrange `[a, b)` of `v` into a fresh vector.
pub fn copy_range(v: &Vec<char>, a: usize, b: usize) -> (r: Vec<char>)
    requires
        a <= b <= v@.len(),
    ensures
        r@ == v@.subrange(a as int, b as int),
{
    let mut r: Vec<char> = Vec::new();
    let mut i: usize = a;
    while i < b
        invariant
            a <= i <= b <= v@.len(),
            r@ == v@.subrange(a as int, i as int),
        decreases b - i,
    {
        r.push(v[i]);
        proof {
            assert(r@ =~= v@.subrange(a as int, i + 1 as int));
        }
        i += 1;
    }
    r
}

/// Trim white space from both ends of a character vector.
pub fn trim_chars(v: &Vec<char>) -> (r: Vec<char>)
    ensures
        r@ == trim(v@),
        is_trimmed(r@),
        r@.len() <= v@.len(),
{
    let n = v.len();
    let mut a: usize = 0;
    while a < n && whitespace_char(v[a])
        invariant
            a <= n,
            n == v@.len(),
            forall|i: int| 0 <= i < a ==> is_white(v@[i]),
        decreases n - a,
    {
        a += 1;
    }
    let mut b: usize = n;
    if a == n {
        b = a;
    } else {
        while b > a && whitespace_char(v[b - 1])
            invariant
                a <= b <= n,
                n == v@.len(),
                forall|i: int| b <= i < n ==> is_white(v@[i]),
            decreases b,
        {
            b -= 1;
        }
        assert(b > a) by {
            if b == a {
                assert(is_white(v@[a as int]));
            }
        }
    }
    proof {
        lemma_trim_at(v@, a as int, b as int);
    }
    let r = copy_range(v, a, b);
    proof {
        lemma_trim_is_trimmed(v@);
    }
    r
}

/// Read the characters of a string slice into a vector.
pub fn chars_of(text: &str) -> (v: Vec<char>)
    ensures
        v@ == text@,
{
    let n = text.unicode_len();
    let mut v: Vec<char> = Vec::new();
    let mut i: usize = 0;
    while i < n
        invariant
            n == text@.len(),
            i <= n,
            v@ == text@.subrange(0, i as int),
        decreases n - i,
    {
        let c = text.get_char(i);
        v.push(c);
        proof {
            assert(v@ =~= text@.subrange(0, i + 1 as int));
        }
        i += 1;
    }
    proof {
        assert(v@ =~= text@);
    }
    v
}

/// Relies on `String`'s `FromIterator<char>` implementation (via
/// `Iterator::collect`): the built string consists of exactly the iterated
/// characters, in order.
#[verifier::external_body]
pub fn string_from_chars(v: &Vec<char>) -> (s: String)
    ensures
        s@ == v@,
{
    v.iter().collect()
}

proof fn lemma_trim_back_empty(s: Seq<char>)
    ensures
        trim_back(s).len() == 0 ==> forall|i: int| 0 <= i < s.len() ==> is_white(s[i]),
    decreases s.len(),
{
    if s.len() > 0 && is_white(s[s.len() - 1]) {
        lemma_trim_back_empty(s.drop_last());
        if trim_back(s).len() == 0 {
            assert forall|i: int| 0 <= i < s.len() implies is_white(s[i]) by {
                if i < s.len() - 1 {
                    assert(s.drop_last()[i] == s[i]);
                }
            }
        }
    }
}

proof fn lemma_trim_front_empty(s: Seq<char>)
    ensures
        trim_front(s).len() == 0 ==> forall|i: int| 0 <= i < s.len() ==> is_white(s[i]),
    decreases s.len(),
{
    if s.len() > 0 && is_white(s[0]) {
        lemma_trim_front_empty(s.drop_first());
        if trim_front(s).len() == 0 {
            assert forall|i: int| 0 <= i < s.len() implies is_white(s[i]) by {
                if i > 0 {
                    assert(s.drop_first()[i - 1] == s[i]);
                }
            }
        }
    }
}

proof fn lemma_trim_front_all_white(s: Seq<char>)
    ensures
        (forall|i: int| 0 <= i < s.len() ==> is_white(s[i])) ==> trim_front(s).len() == 0,
    decreases s.len(),
{
    if s.len() > 0 && is_white(s[0]) {
        lemma_trim_front_all_white(s.drop_first());
        if forall|i: int| 0 <= i < s.len() ==> is_white(s[i]) {
            assert forall|i: int| 0 <= i < s.drop_first().len() implies is_white(
                s.drop_first()[i],
            ) by {
                assert(s.drop_first()[i] == s[i + 1]);
            }
        }
    }
}

proof fn lemma_trim_front_starts(s: Seq<char>)
    ensures
        trim_front(s).len() > 0 ==> !is_white(trim_front(s)[0]),
    decreases s.len(),
{
    if s.len() > 0 && is_white(s[0]) {
        lemma_trim_front_starts(s.drop_first());
    }
}

/// A sequence trims to nothing exactly when every character is white space.
pub proof fn lemma_trim_empty_all_white(s: Seq<char>)
    ensures
        trim(s).len() == 0 <==> (forall|i: int| 0 <= i < s.len() ==> is_white(s[i])),
{
    lemma_trim_back_empty(trim_front(s));
    lemma_trim_front_empty(s);
    lemma_trim_front_starts(s);
    if trim(s).len() == 0 {
        let tf = trim_front(s);
        if tf.len() > 0 {
            assert(!is_white(tf[0]));
            assert(forall|i: int| 0 <= i < tf.len() ==> is_white(tf[i]));
            assert(false);
        }
    }
    if forall|i: int| 0 <= i < s.len() ==> is_white(s[i]) {
        lemma_trim_front_all_white(s);
        assert(trim_front(s).len() == 0);
        assert(trim_back(trim_front(s)).len() == 0);
    }
}

/// The trim of `s` is a contiguous subrange of `s`.
pub proof fn lemma_trim_is_subrange(s: Seq<char>)
    ensures
        exists|a: int|
            0 <= a && a + trim(s).len() <= s.len() && trim(s) == #[trigger] s.subrange(
                a,
                a + trim(s).len(),
            ),
{
    let a = choose_first_non_white(s);
    let b = choose_last_non_white(s, a);
    lemma_trim_at(s, a, b);
    assert(trim(s) == s.subrange(a, a + trim(s).len()));
}

/// The trim of `s` sits inside `s` with only white space outside it.
pub proof fn lemma_trim_frame(s: Seq<char>)
    ensures
        exists|a: int|
            {
                &&& 0 <= a
                &&& a + trim(s).len() <= s.len()
                &&& trim(s) == #[trigger] s.subrange(a, a + trim(s).len())
                &&& (forall|i: int| 0 <= i < a ==> is_white(s[i]))
                &&& (forall|i: int| a + trim(s).len() <= i < s.len() ==> is_white(s[i]))
            },
{
    let a = choose_first_non_white(s);
    let b = choose_last_non_white(s, a);
    lemma_trim_at(s, a, b);
    assert(trim(s) == s.subrange(a, a + trim(s).len()));
}

} // verus!
