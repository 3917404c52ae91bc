//! Primitive text operations for the chunk splitter: splitting on blank
//! lines, splitting on sentence boundaries, and first-occurrence substring
//! search with byte offsets.

use crate::chars::{
    byte_len, char_utf8_len, is_sentence_sep, is_trimmed, lemma_byte_len_step, sentence_sep_char,
    trim, trim_chars, copy_range,
};
use vstd::prelude::*;

verus! {

/// A blank-line boundary (two consecutive line breaks) begins at `i`.
pub open spec fn has_nn_at(s: Seq<char>, i: int) -> bool {
    0 <= i && i + 2 <= s.len() && s[i] == '\n' && s[i + 1] == '\n'
}

/// Index of the first blank-line boundary, or `s.len()` if there is none.
pub open spec fn first_nn(s: Seq<char>) -> int
    decreases s.len(),
{
    if s.len() < 2 {
        s.len() as int
    } else if s[0] == '\n' && s[1] == '\n' {
        0int
    } else {
        1 + first_nn(s.drop_first())
    }
}

pub proof fn lemma_first_nn(s: Seq<char>)
    ensures
        0 <= first_nn(s) <= s.len(),
        first_nn(s) < s.len() ==> has_nn_at(s, first_nn(s)),
        forall|j: int| 0 <= j < first_nn(s) ==> !has_nn_at(s, j),
    decreases s.len(),
{
    if s.len() < 2 {
    } else if s[0] == '\n' && s[1] == '\n' {
    } else {
        lemma_first_nn(s.drop_first());
        let f = first_nn(s.drop_first());
        if f < s.drop_first().len() {
            assert(s.drop_first()[f] == s[f + 1]);
            assert(s.drop_first()[f + 1] == s[f + 2]);
        }
        assert forall|j: int| 0 <= j < 1 + f implies !has_nn_at(s, j) by {
            if j == 0 {
                assert(!(s[0] == '\n' && s[1] == '\n'));
            } else {
                assert(!has_nn_at(s.drop_first(), j - 1));
                if has_nn_at(s, j) {
                    assert(s.drop_first()[j - 1] == s[j]);
                    assert(s.drop_first()[j] == s[j + 1]);
                    assert(false);
                }
            }
        }
    }
}

pub proof fn lemma_first_nn_is(s: Seq<char>, k: int)
    requires
        has_nn_at(s, k),
        forall|j: int| 0 <= j < k ==> !has_nn_at(s, j),
    ensures
        first_nn(s) == k,
{
    lemma_first_nn(s);
    if first_nn(s) < k {
        assert(has_nn_at(s, first_nn(s)));
        assert(false);
    }
    if first_nn(s) > k {
        if first_nn(s) < s.len() {
            assert(!has_nn_at(s, k));
        } else {
            assert(!has_nn_at(s, k));
        }
        assert(false);
    }
}

pub proof fn lemma_first_nn_none(s: Seq<char>)
    requires
        forall|j: int| !has_nn_at(s, j),
    ensures
        first_nn(s) == s.len(),
{
    lemma_first_nn(s);
    if first_nn(s) < s.len() {
        assert(has_nn_at(s, first_nn(s)));
        assert(false);
    }
}

/// Split on blank-line boundaries, left to right, non-overlapping. Every
/// span between boundaries is kept, empty ones included.
pub open spec fn split_nn(s: Seq<char>) -> Seq<Seq<char>>
    decreases s.len(),
    via split_nn_decreases
{
    let i = first_nn(s);
    if i == s.len() {
        seq![s]
    } else {
        seq![s.subrange(0, i)] + split_nn(s.subrange(i + 2, s.len() as int))
    }
}

#[via_fn]
proof fn split_nn_decreases(s: Seq<char>) {
    lemma_first_nn(s);
}

/// Index of the first sentence separator, or `s.len()` if there is none.
pub open spec fn first_sep(s: Seq<char>) -> int
    decreases s.len(),
{
    if s.len() == 0 {
        0int
    } else if is_sentence_sep(s[0]) {
        0int
    } else {
        1 + first_sep(s.drop_first())
    }
}

pub proof fn lemma_first_sep(s: Seq<char>)
    ensures
        0 <= first_sep(s) <= s.len(),
        first_sep(s) < s.len() ==> is_sentence_sep(s[first_sep(s)]),
        forall|j: int| 0 <= j < first_sep(s) ==> !is_sentence_sep(s[j]),
    decreases s.len(),
{
    if s.len() > 0 && !is_sentence_sep(s[0]) {
        lemma_first_sep(s.drop_first());
        let f = first_sep(s.drop_first());
        if f < s.drop_first().len() {
            assert(s.drop_first()[f] == s[f + 1]);
        }
        assert forall|j: int| 0 <= j < 1 + f implies !is_sentence_sep(s[j]) by {
            if j > 0 {
                assert(s.drop_first()[j - 1] == s[j]);
            }
        }
    }
}

pub proof fn lemma_first_sep_is(s: Seq<char>, k: int)
    requires
        0 <= k < s.len(),
        is_sentence_sep(s[k]),
        forall|j: int| 0 <= j < k ==> !is_sentence_sep(s[j]),
    ensures
        first_sep(s) == k,
{
    lemma_first_sep(s);
    if first_sep(s) < k {
        assert(is_sentence_sep(s[first_sep(s)]));
        assert(false);
    }
    if first_sep(s) > k {
        assert(!is_sentence_sep(s[k]));
        assert(false);
    }
}

pub proof fn lemma_first_sep_none(s: Seq<char>)
    requires
        forall|j: int| 0 <= j < s.len() ==> !is_sentence_sep(s[j]),
    ensures
        first_sep(s) == s.len(),
{
    lemma_first_sep(s);
    if first_sep(s) < s.len() {
        assert(false);
    }
}

/// Split on single sentence separators, left to right. Every span between
/// separators is kept, empty ones included.
pub open spec fn split_seps(s: Seq<char>) -> Seq<Seq<char>>
    decreases s.len(),
    via split_seps_decreases
{
    let i = first_sep(s);
    if i == s.len() {
        seq![s]
    } else {
        seq![s.subrange(0, i)] + split_seps(s.subrange(i + 1, s.len() as int))
    }
}

#[via_fn]
proof fn split_seps_decreases(s: Seq<char>) {
    lemma_first_sep(s);
}

/// Trim each piece and keep the non-empty results, in order.
pub open spec fn kept_pieces(pieces: Seq<Seq<char>>) -> Seq<Seq<char>>
    decreases pieces.len(),
{
    if pieces.len() == 0 {
        Seq::<Seq<char>>::empty()
    } else {
        let rest = kept_pieces(pieces.drop_first());
        if trim(pieces[0]).len() > 0 {
            seq![trim(pieces[0])] + rest
        } else {
            rest
        }
    }
}

/// The trimmed, non-empty paragraphs of a document: maximal spans between
/// blank-line boundaries.
pub open spec fn paragraphs_of(s: Seq<char>) -> Seq<Seq<char>> {
    kept_pieces(split_nn(s))
}

/// The trimmed, non-empty sentence fragments of a paragraph.
pub open spec fn sentences_of(p: Seq<char>) -> Seq<Seq<char>> {
    kept_pieces(split_seps(p))
}

/// Every kept piece is trimmed and non-empty.
pub proof fn lemma_kept_pieces_trimmed(pieces: Seq<Seq<char>>)
    ensures
        forall|i: int|
            0 <= i < kept_pieces(pieces).len() ==> #[trigger] kept_pieces(pieces)[i].len() > 0
                && is_trimmed(kept_pieces(pieces)[i]),
    decreases pieces.len(),
{
    if pieces.len() > 0 {
        lemma_kept_pieces_trimmed(pieces.drop_first());
        crate::chars::lemma_trim_is_trimmed(pieces[0]);
        let rest = kept_pieces(pieces.drop_first());
        assert forall|i: int|
            0 <= i < kept_pieces(pieces).len() implies #[trigger] kept_pieces(pieces)[i].len() > 0
            && is_trimmed(kept_pieces(pieces)[i]) by {
            if trim(pieces[0]).len() > 0 {
                assert(kept_pieces(pieces) == seq![trim(pieces[0])] + rest);
                if i == 0 {
                    assert(kept_pieces(pieces)[0] == trim(pieces[0]));
                } else {
                    assert(kept_pieces(pieces)[i] == rest[i - 1]);
                }
            } else {
                assert(kept_pieces(pieces)[i] == rest[i]);
            }
        }
    }
}

/// Split `v` on blank-line boundaries, trim each piece, and keep the
/// non-empty ones: the paragraph list of the document.
pub fn split_paragraphs(v: &Vec<char>) -> (out: Vec<Vec<char>>)
    ensures
        out.deep_view() == paragraphs_of(v@),
{
    let n = v.len();
    let mut out: Vec<Vec<char>> = Vec::new();
    let mut start: usize = 0;
    let mut i: usize = 0;
    proof {
        assert(v@.subrange(0, n as int) =~= v@);
    }
    while i < n && i + 1 < n
        invariant
            start <= i <= n,
            i + 1 >= start,
            n == v@.len(),
            paragraphs_of(v@) == out.deep_view() + kept_pieces(
                split_nn(v@.subrange(start as int, n as int)),
            ),
            forall|j: int| start <= j < i ==> !has_nn_at(v@, j),
        decreases n - i,
    {
        if v[i] == '\n' && v[i + 1] == '\n' {
            let piece = copy_range(v, start, i);
            proof {
                let suffix = v@.subrange(start as int, n as int);
                assert forall|j: int| 0 <= j < i - start implies !has_nn_at(suffix, j) by {
                    assert(suffix[j] == v@[start + j]);
                    assert(j + 1 < suffix.len());
                    assert(suffix[j + 1] == v@[start + j + 1]);
                    assert(!has_nn_at(v@, start + j));
                }
                assert(suffix[i - start] == v@[i as int]);
                assert(suffix[i - start + 1] == v@[i + 1]);
                assert(has_nn_at(suffix, i - start));
                lemma_first_nn_is(suffix, i - start);
                assert(split_nn(suffix) == seq![suffix.subrange(0, i - start)] + split_nn(
                    suffix.subrange(i - start + 2, suffix.len() as int),
                ));
                assert(suffix.subrange(0, i - start) =~= v@.subrange(start as int, i as int));
                assert(suffix.subrange(i - start + 2, suffix.len() as int) =~= v@.subrange(
                    i + 2,
                    n as int,
                ));
                assert(piece@ == suffix.subrange(0, i - start));
            }
            let t = trim_chars(&piece);
            let ghost pre = out.deep_view();
            if t.len() > 0 {
                out.push(t);
                proof {
                    assert(out.deep_view() =~~= pre.push(trim(piece@)));
                }
            }
            proof {
                let suffix = v@.subrange(start as int, n as int);
                let rest = split_nn(v@.subrange(i + 2, n as int));
                assert((seq![suffix.subrange(0, i - start)] + rest).drop_first() =~= rest);
                assert((seq![suffix.subrange(0, i - start)] + rest)[0] == piece@);
                if trim(piece@).len() > 0 {
                    assert(kept_pieces(split_nn(suffix)) =~= seq![trim(piece@)] + kept_pieces(
                        rest,
                    ));
                    assert(out.deep_view() + kept_pieces(rest) =~= pre + (seq![trim(piece@)]
                        + kept_pieces(rest)));
                } else {
                    assert(kept_pieces(split_nn(suffix)) == kept_pieces(rest));
                }
            }
            start = i + 2;
            i = i + 2;
        } else {
            proof {
                assert(!has_nn_at(v@, i as int));
            }
            i += 1;
        }
    }
    // No boundary in the remaining suffix: it is the final piece.
    let piece = copy_range(v, start, n);
    proof {
        let suffix = v@.subrange(start as int, n as int);
        assert forall|j: int| !has_nn_at(suffix, j) by {
            if 0 <= j && j + 2 <= suffix.len() {
                assert(suffix[j] == v@[start + j]);
                assert(suffix[j + 1] == v@[start + j + 1]);
                assert(start + j < i || start + j + 2 > n);
                assert(!has_nn_at(v@, start + j));
            }
        }
        lemma_first_nn_none(suffix);
        assert(split_nn(suffix) == seq![suffix]);
        assert(piece@ == suffix);
    }
    let t = trim_chars(&piece);
    let ghost pre = out.deep_view();
    if t.len() > 0 {
        out.push(t);
        proof {
            assert(out.deep_view() =~~= pre.push(trim(piece@)));
        }
    }
    proof {
        let suffix = v@.subrange(start as int, n as int);
        assert(seq![suffix].drop_first() =~= Seq::<Seq<char>>::empty());
        assert(kept_pieces(Seq::<Seq<char>>::empty()) =~= Seq::<Seq<char>>::empty());
        if trim(piece@).len() > 0 {
            assert(kept_pieces(seq![suffix]) =~= seq![trim(piece@)]);
            assert(pre.push(trim(piece@)) =~= pre + seq![trim(piece@)]);
        } else {
            assert(kept_pieces(seq![suffix]) =~= Seq::<Seq<char>>::empty());
            assert(out.deep_view() =~= out.deep_view() + kept_pieces(seq![suffix]));
        }
    }
    out
}

/// Split `v` on sentence separators, trim each fragment, and keep the
/// non-empty ones: the sentence list of a paragraph.
pub fn split_sentences(v: &Vec<char>) -> (out: Vec<Vec<char>>)
    ensures
        out.deep_view() == sentences_of(v@),
{
    let n = v.len();
    let mut out: Vec<Vec<char>> = Vec::new();
    let mut start: usize = 0;
    let mut i: usize = 0;
    proof {
        assert(v@.subrange(0, n as int) =~= v@);
    }
    while i < n
        invariant
            start <= i <= n,
            n == v@.len(),
            sentences_of(v@) == out.deep_view() + kept_pieces(
                split_seps(v@.subrange(start as int, n as int)),
            ),
            forall|j: int| start <= j < i ==> !is_sentence_sep(v@[j]),
        decreases n - i,
    {
        if sentence_sep_char(v[i]) {
            let piece = copy_range(v, start, i);
            proof {
                let suffix = v@.subrange(start as int, n as int);
                assert forall|j: int| 0 <= j < i - start implies !is_sentence_sep(suffix[j]) by {
                    assert(suffix[j] == v@[start + j]);
                }
                assert(suffix[i - start] == v@[i as int]);
                lemma_first_sep_is(suffix, i - start);
                assert(split_seps(suffix) == seq![suffix.subrange(0, i - start)] + split_seps(
                    suffix.subrange(i - start + 1, suffix.len() as int),
                ));
                assert(suffix.subrange(0, i - start) =~= v@.subrange(start as int, i as int));
                assert(suffix.subrange(i - start + 1, suffix.len() as int) =~= v@.subrange(
                    i + 1,
                    n as int,
                ));
                assert(piece@ == suffix.subrange(0, i - start));
            }
            let t = trim_chars(&piece);
            let ghost pre = out.deep_view();
            if t.len() > 0 {
                out.push(t);
                proof {
                    assert(out.deep_view() =~~= pre.push(trim(piece@)));
                }
            }
            proof {
                let suffix = v@.subrange(start as int, n as int);
                let rest = split_seps(v@.subrange(i + 1, n as int));
                assert((seq![suffix.subrange(0, i - start)] + rest).drop_first() =~= rest);
                assert((seq![suffix.subrange(0, i - start)] + rest)[0] == piece@);
                if trim(piece@).len() > 0 {
                    assert(kept_pieces(split_seps(suffix)) =~= seq![trim(piece@)] + kept_pieces(
                        rest,
                    ));
                    assert(out.deep_view() + kept_pieces(rest) =~= pre + (seq![trim(piece@)]
                        + kept_pieces(rest)));
                } else {
                    assert(kept_pieces(split_seps(suffix)) == kept_pieces(rest));
                }
            }
            start = i + 1;
            i = i + 1;
        } else {
            i += 1;
        }
    }
    let piece = copy_range(v, start, n);
    proof {
        let suffix = v@.subrange(start as int, n as int);
        assert forall|j: int| 0 <= j < suffix.len() implies !is_sentence_sep(suffix[j]) by {
            assert(suffix[j] == v@[start + j]);
        }
        lemma_first_sep_none(suffix);
        assert(split_seps(suffix) == seq![suffix]);
        assert(piece@ == suffix);
    }
    let t = trim_chars(&piece);
    let ghost pre = out.deep_view();
    if t.len() > 0 {
        out.push(t);
        proof {
            assert(out.deep_view() =~~= pre.push(trim(piece@)));
        }
    }
    proof {
        let suffix = v@.subrange(start as int, n as int);
        assert(seq![suffix].drop_first() =~= Seq::<Seq<char>>::empty());
        assert(kept_pieces(Seq::<Seq<char>>::empty()) =~= Seq::<Seq<char>>::empty());
        if trim(piece@).len() > 0 {
            assert(kept_pieces(seq![suffix]) =~= seq![trim(piece@)]);
            assert(pre.push(trim(piece@)) =~= pre + seq![trim(piece@)]);
        } else {
            assert(kept_pieces(seq![suffix]) =~= Seq::<Seq<char>>::empty());
            assert(out.deep_view() =~= out.deep_view() + kept_pieces(seq![suffix]));
        }
    }
    out
}

/// `needle` occurs in `hay` starting at character index `i`.
pub open spec fn occurs_at(hay: Seq<char>, needle: Seq<char>, i: int) -> bool {
    0 <= i && i + needle.len() <= hay.len() && hay.subrange(i, i + needle.len() as int) == needle
}

/// Character index of the first occurrence of `needle` in `hay`, or
/// `hay.len() + 1` if there is none.
pub open spec fn first_occ(hay: Seq<char>, needle: Seq<char>) -> int
    decreases hay.len(),
    via first_occ_decreases
{
    if needle.len() > hay.len() {
        hay.len() as int + 1
    } else if hay.subrange(0, needle.len() as int) == needle {
        0int
    } else {
        1 + first_occ(hay.drop_first(), needle)
    }
}

#[via_fn]
proof fn first_occ_decreases(hay: Seq<char>, needle: Seq<char>) {
    if needle.len() <= hay.len() && hay.subrange(0, needle.len() as int) != needle {
        if hay.len() == 0 {
            assert(hay.subrange(0, needle.len() as int) =~= needle);
            assert(false);
        }
    }
}

pub proof fn lemma_first_occ(hay: Seq<char>, needle: Seq<char>)
    ensures
        0 <= first_occ(hay, needle) <= hay.len() + 1,
        first_occ(hay, needle) <= hay.len() ==> occurs_at(hay, needle, first_occ(hay, needle)),
        forall|j: int| 0 <= j < first_occ(hay, needle) ==> !occurs_at(hay, needle, j),
    decreases hay.len(),
{
    if needle.len() > hay.len() {
        assert forall|j: int| 0 <= j < first_occ(hay, needle) implies !occurs_at(
            hay,
            needle,
            j,
        ) by {
            assert(j + needle.len() > hay.len());
        }
    } else if hay.subrange(0, needle.len() as int) == needle {
    } else {
        assert(hay.len() > 0) by {
            if hay.len() == 0 {
                assert(hay.subrange(0, needle.len() as int) =~= needle);
            }
        }
        lemma_first_occ(hay.drop_first(), needle);
        let f = first_occ(hay.drop_first(), needle);
        if f <= hay.drop_first().len() {
            assert(occurs_at(hay.drop_first(), needle, f));
            assert(hay.drop_first().subrange(f, f + needle.len() as int) =~= hay.subrange(
                f + 1,
                f + 1 + needle.len() as int,
            ));
        }
        assert forall|j: int| 0 <= j < 1 + f implies !occurs_at(hay, needle, j) by {
            if j == 0 {
                assert(hay.subrange(0, needle.len() as int) != needle);
            } else {
                assert(!occurs_at(hay.drop_first(), needle, j - 1));
                if occurs_at(hay, needle, j) {
                    assert(hay.drop_first().subrange(j - 1, j - 1 + needle.len() as int)
                        =~= hay.subrange(j, j + needle.len() as int));
                    assert(false);
                }
            }
        }
    }
}

/// Find the first occurrence of `pat` in `text`, as a character index.
pub fn find_first(text: &Vec<char>, pat: &Vec<char>) -> (r: Option<usize>)
    ensures
        match r {
            Some(i) => i == first_occ(text@, pat@) && occurs_at(text@, pat@, i as int),
            None => first_occ(text@, pat@) == text@.len() + 1,
        },
{
    let n = text.len();
    let m = pat.len();
    proof {
        lemma_first_occ(text@, pat@);
    }
    if m > n {
        return None;
    }
    let mut i: usize = 0;
    while i <= n - m
        invariant
            m <= n,
            n == text@.len(),
            m == pat@.len(),
            i <= n - m + 1,
            forall|j: int| 0 <= j < i ==> !occurs_at(text@, pat@, j),
        decreases n - m + 1 - i,
    {
        let mut k: usize = 0;
        let mut matched: bool = true;
        while k < m
            invariant
                i + m <= n,
                n == text@.len(),
                m == pat@.len(),
                k <= m,
                matched <==> (forall|j: int| 0 <= j < k ==> text@[i + j] == pat@[j]),
            decreases m - k,
        {
            if text[i + k] != pat[k] {
                proof {
                    assert(text@[i + k] != pat@[k as int]);
                }
                matched = false;
                k = m;
            } else {
                proof {
                    assert(text@[i + k] == pat@[k as int]);
                }
                k += 1;
            }
        }
        if matched {
            proof {
                assert(text@.subrange(i as int, i + m) =~= pat@) by {
                    assert(forall|j: int|
                        0 <= j < m ==> #[trigger] text@.subrange(i as int, i + m)[j] == text@[i
                            + j]);
                }
                assert(occurs_at(text@, pat@, i as int));
                lemma_first_occ(text@, pat@);
                if first_occ(text@, pat@) < i {
                    assert(occurs_at(text@, pat@, first_occ(text@, pat@)));
                    assert(false);
                }
                if first_occ(text@, pat@) > i {
                    assert(!occurs_at(text@, pat@, i as int));
                    assert(false);
                }
            }
            return Some(i);
        }
        proof {
            if occurs_at(text@, pat@, i as int) {
                assert(text@.subrange(i as int, i + m) == pat@);
                assert(forall|j: int|
                    0 <= j < m ==> #[trigger] text@.subrange(i as int, i + m)[j] == text@[i + j]);
                assert(false);
            }
        }
        i += 1;
    }
    proof {
        lemma_first_occ(text@, pat@);
        if first_occ(text@, pat@) <= text@.len() {
            let f = first_occ(text@, pat@);
            assert(occurs_at(text@, pat@, f));
            assert(f < i);
            assert(false);
        }
    }
    None
}

/// Byte length of the UTF-8 encoding of the first `upto` characters.
pub fn byte_offset_of_prefix(text: &Vec<char>, upto: usize) -> (n: usize)
    requires
        upto <= text@.len(),
        text@.len() <= usize::MAX / 4,
    ensures
        n == byte_len(text@.subrange(0, upto as int)),
{
    let mut n: usize = 0;
    let mut i: usize = 0;
    proof {
        assert(text@.subrange(0, 0) =~= Seq::<char>::empty());
    }
    while i < upto
        invariant
            i <= upto <= text@.len(),
            text@.len() <= usize::MAX / 4,
            n == byte_len(text@.subrange(0, i as int)),
            n <= 4 * i,
        decreases upto - i,
    {
        proof {
            lemma_byte_len_step(text@, i as int);
        }
        n = n + char_utf8_len(text[i]);
        i += 1;
    }
    n
}

/// Byte offset recorded for a chunk: the byte position of the first
/// occurrence of its text in `text`, or 0 when the text does not occur
/// (it was reassembled across separators).
pub open spec fn start_pos_of(text: Seq<char>, chunk: Seq<char>) -> nat {
    if first_occ(text, chunk) <= text.len() {
        byte_len(text.subrange(0, first_occ(text, chunk)))
    } else {
        0
    }
}

/// Compute the recorded byte offset for a chunk of `text`.
pub fn chunk_start_position(text: &Vec<char>, chunk: &Vec<char>) -> (n: usize)
    requires
        text@.len() <= usize::MAX / 4,
    ensures
        n == start_pos_of(text@, chunk@),
{
    proof {
        lemma_first_occ(text@, chunk@);
    }
    match find_first(text, chunk) {
        Some(i) => byte_offset_of_prefix(text, i),
        None => 0,
    }
}

/// Length accounting for split pieces: each piece costs its length plus two,
/// covering any separator and joining overhead.
pub open spec fn pieces_budget(pieces: Seq<Seq<char>>) -> int
    decreases pieces.len(),
{
    if pieces.len() == 0 {
        0int
    } else {
        pieces[0].len() + 2 + pieces_budget(pieces.drop_first())
    }
}

pub proof fn lemma_pieces_budget_nonneg(pieces: Seq<Seq<char>>)
    ensures
        pieces_budget(pieces) >= 2 * pieces.len(),
    decreases pieces.len(),
{
    if pieces.len() > 0 {
        lemma_pieces_budget_nonneg(pieces.drop_first());
    }
}

/// Splitting on blank-line boundaries costs exactly the text length plus two.
pub proof fn lemma_split_nn_budget(s: Seq<char>)
    ensures
        pieces_budget(split_nn(s)) == s.len() + 2,
    decreases s.len(),
{
    lemma_first_nn(s);
    let i = first_nn(s);
    if i == s.len() {
        assert(split_nn(s) == seq![s]);
        assert(seq![s][0] == s);
        assert(seq![s].drop_first() =~= Seq::<Seq<char>>::empty());
        assert(pieces_budget(Seq::<Seq<char>>::empty()) == 0);
        assert(pieces_budget(seq![s]) == s.len() + 2);
    } else {
        let rest = split_nn(s.subrange(i + 2, s.len() as int));
        assert(split_nn(s) == seq![s.subrange(0, i)] + rest);
        lemma_split_nn_budget(s.subrange(i + 2, s.len() as int));
        assert((seq![s.subrange(0, i)] + rest).drop_first() =~= rest);
        assert((seq![s.subrange(0, i)] + rest)[0] == s.subrange(0, i));
    }
}

/// Splitting on sentence separators costs at most twice the text length
/// plus two.
pub proof fn lemma_split_seps_budget(s: Seq<char>)
    ensures
        pieces_budget(split_seps(s)) <= 2 * s.len() + 2,
    decreases s.len(),
{
    lemma_first_sep(s);
    let i = first_sep(s);
    if i == s.len() {
        assert(split_seps(s) == seq![s]);
        assert(seq![s][0] == s);
        assert(seq![s].drop_first() =~= Seq::<Seq<char>>::empty());
        assert(pieces_budget(Seq::<Seq<char>>::empty()) == 0);
    } else {
        let rest = split_seps(s.subrange(i + 1, s.len() as int));
        assert(split_seps(s) == seq![s.subrange(0, i)] + rest);
        lemma_split_seps_budget(s.subrange(i + 1, s.len() as int));
        assert((seq![s.subrange(0, i)] + rest).drop_first() =~= rest);
        assert((seq![s.subrange(0, i)] + rest)[0] == s.subrange(0, i));
    }
}

/// Trimming pieces and dropping empty ones only lowers the budget.
pub proof fn lemma_kept_budget(pieces: Seq<Seq<char>>)
    ensures
        pieces_budget(kept_pieces(pieces)) <= pieces_budget(pieces),
    decreases pieces.len(),
{
    if pieces.len() > 0 {
        lemma_kept_budget(pieces.drop_first());
        let rest = kept_pieces(pieces.drop_first());
        crate::chars::lemma_trim_is_trimmed(pieces[0]);
        if trim(pieces[0]).len() > 0 {
            assert(kept_pieces(pieces) == seq![trim(pieces[0])] + rest);
            assert((seq![trim(pieces[0])] + rest).drop_first() =~= rest);
            assert((seq![trim(pieces[0])] + rest)[0] == trim(pieces[0]));
        } else {
            lemma_pieces_budget_nonneg(pieces.drop_first());
        }
    }
}

/// Stepping one piece: the budget of the remaining suffix decomposes.
pub proof fn lemma_pieces_budget_parts(pieces: Seq<Seq<char>>, i: int)
    requires
        0 <= i < pieces.len(),
    ensures
        pieces_budget(pieces.skip(i)) == pieces[i].len() + 2 + pieces_budget(pieces.skip(i + 1)),
        pieces_budget(pieces.skip(i)) <= pieces_budget(pieces),
        pieces_budget(pieces.skip(i + 1)) >= 0,
    decreases i,
{
    lemma_pieces_budget_nonneg(pieces.skip(i + 1));
    assert(pieces.skip(i).drop_first() =~= pieces.skip(i + 1));
    assert(pieces.skip(i)[0] == pieces[i]);
    if i == 0 {
        assert(pieces.skip(0) =~= pieces);
    } else {
        lemma_pieces_budget_parts(pieces, i - 1);
        assert(pieces_budget(pieces.skip(i)) <= pieces_budget(pieces.skip(i - 1)));
    }
}

/// A fragment holding no sentence separator.
pub open spec fn sep_free(s: Seq<char>) -> bool {
    forall|x: int| 0 <= x < s.len() ==> !is_sentence_sep(s[x])
}

/// Every piece of a sentence split is separator-free.
pub proof fn lemma_split_seps_sep_free(s: Seq<char>)
    ensures
        forall|j: int| 0 <= j < split_seps(s).len() ==> sep_free(#[trigger] split_seps(s)[j]),
    decreases s.len(),
{
    lemma_first_sep(s);
    let i = first_sep(s);
    if i == s.len() {
        assert(split_seps(s) == seq![s]);
        assert(split_seps(s)[0] == s);
        assert(sep_free(s));
    } else {
        let head = s.subrange(0, i);
        let rest = split_seps(s.subrange(i + 1, s.len() as int));
        assert(split_seps(s) == seq![head] + rest);
        lemma_split_seps_sep_free(s.subrange(i + 1, s.len() as int));
        assert(sep_free(head)) by {
            assert(forall|x: int| 0 <= x < head.len() ==> head[x] == s[x]);
        }
        assert forall|j: int| 0 <= j < split_seps(s).len() implies sep_free(
            #[trigger] split_seps(s)[j],
        ) by {
            if j == 0 {
                assert(split_seps(s)[0] == head);
            } else {
                assert(split_seps(s)[j] == rest[j - 1]);
            }
        }
    }
}

/// Trimming and filtering keep pieces separator-free.
pub proof fn lemma_kept_pieces_sep_free(pieces: Seq<Seq<char>>)
    requires
        forall|j: int| 0 <= j < pieces.len() ==> sep_free(#[trigger] pieces[j]),
    ensures
        forall|j: int|
            0 <= j < kept_pieces(pieces).len() ==> sep_free(#[trigger] kept_pieces(pieces)[j]),
    decreases pieces.len(),
{
    if pieces.len() > 0 {
        assert forall|j: int| 0 <= j < pieces.drop_first().len() implies sep_free(
            #[trigger] pieces.drop_first()[j],
        ) by {
            assert(pieces.drop_first()[j] == pieces[j + 1]);
        }
        lemma_kept_pieces_sep_free(pieces.drop_first());
        let rest = kept_pieces(pieces.drop_first());
        let t = trim(pieces[0]);
        assert(sep_free(t)) by {
            crate::chars::lemma_trim_is_subrange(pieces[0]);
            let a = choose|a: int|
                0 <= a && a + t.len() <= pieces[0].len() && t == #[trigger] pieces[0].subrange(
                    a,
                    a + t.len(),
                );
            assert forall|x: int| 0 <= x < t.len() implies !is_sentence_sep(t[x]) by {
                assert(t[x] == pieces[0][a + x]);
            }
        }
        if t.len() > 0 {
            assert forall|j: int| 0 <= j < kept_pieces(pieces).len() implies sep_free(
                #[trigger] kept_pieces(pieces)[j],
            ) by {
                assert(kept_pieces(pieces) == seq![t] + rest);
                if j == 0 {
                    assert(kept_pieces(pieces)[0] == t);
                } else {
                    assert(kept_pieces(pieces)[j] == rest[j - 1]);
                }
            }
        }
    }
}

/// Every split piece occurs contiguously in the split text.
pub proof fn lemma_split_nn_piece_occurs(s: Seq<char>, j: int)
    requires
        0 <= j < split_nn(s).len(),
    ensures
        exists|off: int| #[trigger] occurs_at(s, split_nn(s)[j], off),
    decreases s.len(),
{
    lemma_first_nn(s);
    let i = first_nn(s);
    if i == s.len() {
        assert(split_nn(s) == seq![s]);
        assert(seq![s][0] == s);
        assert(s.subrange(0, s.len() as int) =~= s);
        assert(occurs_at(s, split_nn(s)[0], 0));
    } else {
        let head = s.subrange(0, i);
        let tail = s.subrange(i + 2, s.len() as int);
        let rest = split_nn(tail);
        assert(split_nn(s) == seq![head] + rest);
        if j == 0 {
            assert(split_nn(s)[0] == head);
            assert(s.subrange(0, head.len() as int) =~= head);
            assert(occurs_at(s, split_nn(s)[0], 0));
        } else {
            assert(split_nn(s)[j] == rest[j - 1]);
            lemma_split_nn_piece_occurs(tail, j - 1);
            let off = choose|off: int| #[trigger] occurs_at(tail, split_nn(tail)[j - 1], off);
            assert(s.subrange(i + 2 + off, i + 2 + off + rest[j - 1].len() as int)
                =~= tail.subrange(off, off + rest[j - 1].len() as int));
            assert(occurs_at(s, split_nn(s)[j], i + 2 + off));
        }
    }
}

/// A fragment without line breaks cannot straddle a blank-line boundary: it
/// occurs inside one of the split pieces.
pub proof fn lemma_split_nn_no_straddle(text: Seq<char>, s: Seq<char>, off: int)
    requires
        occurs_at(text, s, off),
        s.len() > 0,
        forall|x: int| 0 <= x < s.len() ==> s[x] != '\n',
    ensures
        exists|j: int, off2: int|
            0 <= j < split_nn(text).len() && #[trigger] occurs_at(split_nn(text)[j], s, off2),
    decreases text.len(),
{
    lemma_first_nn(text);
    let i = first_nn(text);
    assert(forall|x: int| 0 <= x < s.len() ==> text[off + x] == s[x]) by {
        assert(forall|x: int|
            0 <= x < s.len() ==> #[trigger] text.subrange(off, off + s.len() as int)[x]
                == text[off + x]);
    }
    if i == text.len() {
        assert(split_nn(text) == seq![text]);
        assert(occurs_at(split_nn(text)[0], s, off));
    } else {
        let head = text.subrange(0, i);
        let tail = text.subrange(i + 2, text.len() as int);
        let rest = split_nn(tail);
        assert(split_nn(text) == seq![head] + rest);
        if off + s.len() <= i {
            assert(occurs_at(head, s, off)) by {
                assert(head.subrange(off, off + s.len() as int) =~= text.subrange(
                    off,
                    off + s.len() as int,
                ));
            }
            assert(split_nn(text)[0] == head);
        } else if off >= i + 2 {
            assert(occurs_at(tail, s, off - (i + 2))) by {
                assert(tail.subrange(off - (i + 2), off - (i + 2) + s.len() as int)
                    =~= text.subrange(off, off + s.len() as int));
            }
            lemma_split_nn_no_straddle(tail, s, off - (i + 2));
            let (j, off2) = choose|j: int, off2: int|
                0 <= j < rest.len() && #[trigger] occurs_at(rest[j], s, off2);
            assert(split_nn(text)[j + 1] == rest[j]);
            assert(occurs_at(split_nn(text)[j + 1], s, off2));
        } else {
            // the fragment would have to contain one of the two line breaks
            if off <= i {
                assert(s[i - off] == text[i as int]);
                assert(false);
            } else {
                assert(off == i + 1);
                assert(s[0] == text[i + 1]);
                assert(false);
            }
        }
    }
}

/// A separator-free fragment cannot straddle a sentence boundary: it occurs
/// inside one of the split pieces.
pub proof fn lemma_split_seps_no_straddle(text: Seq<char>, s: Seq<char>, off: int)
    requires
        occurs_at(text, s, off),
        s.len() > 0,
        sep_free(s),
    ensures
        exists|j: int, off2: int|
            0 <= j < split_seps(text).len() && #[trigger] occurs_at(split_seps(text)[j], s, off2),
    decreases text.len(),
{
    lemma_first_sep(text);
    let i = first_sep(text);
    assert(forall|x: int| 0 <= x < s.len() ==> text[off + x] == s[x]) by {
        assert(forall|x: int|
            0 <= x < s.len() ==> #[trigger] text.subrange(off, off + s.len() as int)[x]
                == text[off + x]);
    }
    if i == text.len() {
        assert(split_seps(text) == seq![text]);
        assert(occurs_at(split_seps(text)[0], s, off));
    } else {
        let head = text.subrange(0, i);
        let tail = text.subrange(i + 1, text.len() as int);
        let rest = split_seps(tail);
        assert(split_seps(text) == seq![head] + rest);
        if off + s.len() <= i {
            assert(occurs_at(head, s, off)) by {
                assert(head.subrange(off, off + s.len() as int) =~= text.subrange(
                    off,
                    off + s.len() as int,
                ));
            }
            assert(split_seps(text)[0] == head);
        } else if off >= i + 1 {
            assert(occurs_at(tail, s, off - (i + 1))) by {
                assert(tail.subrange(off - (i + 1), off - (i + 1) + s.len() as int)
                    =~= text.subrange(off, off + s.len() as int));
            }
            lemma_split_seps_no_straddle(tail, s, off - (i + 1));
            let (j, off2) = choose|j: int, off2: int|
                0 <= j < rest.len() && #[trigger] occurs_at(rest[j], s, off2);
            assert(split_seps(text)[j + 1] == rest[j]);
            assert(occurs_at(split_seps(text)[j + 1], s, off2));
        } else {
            // the fragment would have to contain the separator
            assert(off <= i < off + s.len());
            assert(s[i - off] == text[i as int]);
            assert(false);
        }
    }
}

/// A trimmed fragment occurring in a piece occurs in its trim, which is then
/// one of the kept pieces.
pub proof fn lemma_kept_pieces_retain(pieces: Seq<Seq<char>>, j: int, s: Seq<char>, off: int)
    requires
        0 <= j < pieces.len(),
        occurs_at(pieces[j], s, off),
        s.len() > 0,
        is_trimmed(s),
    ensures
        exists|jj: int, off2: int|
            0 <= jj < kept_pieces(pieces).len() && #[trigger] occurs_at(
                kept_pieces(pieces)[jj],
                s,
                off2,
            ),
    decreases pieces.len(),
{
    let piece = pieces[j];
    if j == 0 {
        let t = trim(piece);
        crate::chars::lemma_trim_frame(piece);
        let a = choose|a: int|
            {
                &&& 0 <= a
                &&& a + trim(piece).len() <= piece.len()
                &&& trim(piece) == #[trigger] piece.subrange(a, a + trim(piece).len())
                &&& (forall|i: int| 0 <= i < a ==> crate::chars::is_white(piece[i]))
                &&& (forall|i: int|
                    a + trim(piece).len() <= i < piece.len() ==> crate::chars::is_white(piece[i]))
            };
        assert(forall|x: int| 0 <= x < s.len() ==> piece[off + x] == s[x]) by {
            assert(forall|x: int|
                0 <= x < s.len() ==> #[trigger] piece.subrange(off, off + s.len() as int)[x]
                    == piece[off + x]);
        }
        assert(off >= a) by {
            if off < a {
                assert(crate::chars::is_white(piece[off]));
                assert(piece[off] == s[0]);
            }
        }
        assert(off + s.len() <= a + t.len()) by {
            if off + s.len() > a + t.len() {
                assert(crate::chars::is_white(piece[off + s.len() - 1]));
                assert(piece[off + s.len() - 1] == s[s.len() - 1]);
            }
        }
        assert(occurs_at(t, s, off - a)) by {
            assert(t.subrange(off - a, off - a + s.len() as int) =~= piece.subrange(
                off,
                off + s.len() as int,
            ));
        }
        assert(t.len() > 0);
        assert(kept_pieces(pieces)[0] == t) by {
            assert(kept_pieces(pieces) == seq![t] + kept_pieces(pieces.drop_first()));
        }
    } else {
        assert(pieces.drop_first()[j - 1] == pieces[j]);
        lemma_kept_pieces_retain(pieces.drop_first(), j - 1, s, off);
        let rest = kept_pieces(pieces.drop_first());
        let (jj, off2) = choose|jj: int, off2: int|
            0 <= jj < rest.len() && #[trigger] occurs_at(rest[jj], s, off2);
        if trim(pieces[0]).len() > 0 {
            assert(kept_pieces(pieces) == seq![trim(pieces[0])] + rest);
            assert(kept_pieces(pieces)[jj + 1] == rest[jj]);
        } else {
            assert(kept_pieces(pieces) == rest);
        }
    }
}

/// Every kept piece is the trim of one of the split pieces.
pub proof fn lemma_kept_pieces_origin(pieces: Seq<Seq<char>>, jj: int)
    requires
        0 <= jj < kept_pieces(pieces).len(),
    ensures
        exists|j: int|
            0 <= j < pieces.len() && kept_pieces(pieces)[jj] == trim(#[trigger] pieces[j]),
    decreases pieces.len(),
{
    let rest = kept_pieces(pieces.drop_first());
    if trim(pieces[0]).len() > 0 {
        assert(kept_pieces(pieces) == seq![trim(pieces[0])] + rest);
        if jj == 0 {
            assert(kept_pieces(pieces)[0] == trim(pieces[0]));
        } else {
            lemma_kept_pieces_origin(pieces.drop_first(), jj - 1);
            let j = choose|j: int|
                0 <= j < pieces.drop_first().len() && rest[jj - 1] == trim(
                    #[trigger] pieces.drop_first()[j],
                );
            assert(pieces.drop_first()[j] == pieces[j + 1]);
            assert(kept_pieces(pieces)[jj] == rest[jj - 1]);
        }
    } else {
        assert(kept_pieces(pieces) == rest);
        lemma_kept_pieces_origin(pieces.drop_first(), jj);
        let j = choose|j: int|
            0 <= j < pieces.drop_first().len() && rest[jj] == trim(
                #[trigger] pieces.drop_first()[j],
            );
        assert(pieces.drop_first()[j] == pieces[j + 1]);
    }
}

/// Every sentence-split piece occurs contiguously in the split text.
pub proof fn lemma_split_seps_piece_occurs(s: Seq<char>, j: int)
    requires
        0 <= j < split_seps(s).len(),
    ensures
        exists|off: int| #[trigger] occurs_at(s, split_seps(s)[j], off),
    decreases s.len(),
{
    lemma_first_sep(s);
    let i = first_sep(s);
    if i == s.len() {
        assert(split_seps(s) == seq![s]);
        assert(seq![s][0] == s);
        assert(s.subrange(0, s.len() as int) =~= s);
        assert(occurs_at(s, split_seps(s)[0], 0));
    } else {
        let head = s.subrange(0, i);
        let tail = s.subrange(i + 1, s.len() as int);
        let rest = split_seps(tail);
        assert(split_seps(s) == seq![head] + rest);
        if j == 0 {
            assert(split_seps(s)[0] == head);
            assert(s.subrange(0, head.len() as int) =~= head);
            assert(occurs_at(s, split_seps(s)[0], 0));
        } else {
            assert(split_seps(s)[j] == rest[j - 1]);
            lemma_split_seps_piece_occurs(tail, j - 1);
            let off = choose|off: int| #[trigger] occurs_at(tail, split_seps(tail)[j - 1], off);
            assert(s.subrange(i + 1 + off, i + 1 + off + rest[j - 1].len() as int)
                =~= tail.subrange(off, off + rest[j - 1].len() as int));
            assert(occurs_at(s, split_seps(s)[j], i + 1 + off));
        }
    }
}

} // verus!
