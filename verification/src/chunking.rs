//! The chunk splitter: partitions a document into an ordered sequence of
//! bounded, overlapping segments, re-splitting oversized segments a bounded
//! number of times.
//!
//! The entire algorithm is modelled by spec functions; `split_into_chunks`
//! returns exactly the modelled sequence, which makes the splitter
//! deterministic by construction.

use crate::chars::{
    chars_of, is_punct, is_trimmed, is_white, string_from_chars, trim, trim_chars, copy_range,
    lemma_trim_is_trimmed,
};
use crate::tokens::{
    est_core, est_step, lemma_est_concat, lemma_est_core_bound, state_after, token_count_chars,
    token_estimate,
};
use crate::textops::{
    chunk_start_position, occurs_at, sep_free, kept_pieces, lemma_kept_budget, lemma_kept_pieces_trimmed,
    lemma_pieces_budget_nonneg, lemma_pieces_budget_parts, lemma_split_nn_budget,
    lemma_split_seps_budget, paragraphs_of, pieces_budget, sentences_of, split_paragraphs,
    split_sentences, start_pos_of,
};
use vstd::prelude::*;

verus! {

/// Token budget a chunk is accumulated towards.
pub const TARGET_TOKENS: usize = 500;

/// Token size of the overlap carried from a closed chunk into the next one.
pub const OVERLAP_TOKENS: usize = 50;

/// The overlap measured in characters: an approximation of four characters
/// per token.
pub const OVERLAP_CHARS: usize = OVERLAP_TOKENS * 4;

/// Threshold above which a produced chunk is re-split.
pub const OVERSIZE_TOKENS: usize = TARGET_TOKENS * 3;

/// Defensive bound on the re-split recursion: pathological input (one dense
/// run without usable boundaries) could otherwise re-split without end. A
/// segment still oversized after this many passes is emitted as it stands.
pub const MAX_SPLIT_DEPTH: usize = 8;

/// Largest supported document size in characters, so that token counts and
/// byte offsets fit in `usize` on every platform through every re-split pass.
pub const MAX_DOCUMENT_CHARS: usize = usize::MAX / 4096;

/// Model of a chunk before it is stamped with a document id.
#[verifier::ext_equal]
pub ghost struct ChunkModel {
    pub text: Seq<char>,
    pub token_count: nat,
    pub start_position: nat,
}

/// Model of a finished chunk.
#[verifier::ext_equal]
pub ghost struct TextChunkModel {
    pub text: Seq<char>,
    pub token_count: nat,
    pub document_id: Seq<char>,
    pub start_position: nat,
}

/// Accumulator of one splitting pass: the chunks closed so far, the buffer
/// being grown, and its running token count.
#[verifier::ext_equal]
pub ghost struct SplitAcc {
    pub chunks: Seq<ChunkModel>,
    pub buf: Seq<char>,
    pub cnt: nat,
}

/// The trailing overlap carried out of a closed buffer: its last
/// `OVERLAP_CHARS` characters, trimmed.
pub open spec fn suffix_overlap(s: Seq<char>) -> Seq<char> {
    trim(
        s.subrange(
            if s.len() <= OVERLAP_CHARS {
                0int
            } else {
                s.len() - OVERLAP_CHARS
            },
            s.len() as int,
        ),
    )
}

pub proof fn lemma_suffix_overlap(s: Seq<char>)
    ensures
        suffix_overlap(s).len() <= OVERLAP_CHARS,
        suffix_overlap(s).len() <= s.len(),
        is_trimmed(suffix_overlap(s)),
        token_estimate(suffix_overlap(s)) <= OVERLAP_CHARS + 1,
{
    let lo = if s.len() <= OVERLAP_CHARS {
        0int
    } else {
        s.len() - OVERLAP_CHARS
    };
    let tail = s.subrange(lo, s.len() as int);
    lemma_trim_is_trimmed(tail);
    lemma_est_core_bound(suffix_overlap(s), true);
}

/// Close the buffer as a finished chunk and seed the next buffer with the
/// trailing overlap.
pub open spec fn close_chunk(acc: SplitAcc, text: Seq<char>) -> SplitAcc {
    let chunk = ChunkModel {
        text: acc.buf,
        token_count: acc.cnt,
        start_position: start_pos_of(text, acc.buf),
    };
    let ov = suffix_overlap(acc.buf);
    SplitAcc { chunks: acc.chunks.push(chunk), buf: ov, cnt: token_estimate(ov) }
}

/// One sentence appended to the sentence buffer, closing the buffer first if
/// the sentence would push it over the target. The sentence is re-suffixed
/// with a literal period; sentences are joined by single spaces.
pub open spec fn sent_step(acc: SplitAcc, s: Seq<char>, text: Seq<char>) -> SplitAcc {
    let acc1 = if acc.cnt + token_estimate(s) > TARGET_TOKENS && acc.buf.len() > 0 {
        close_chunk(acc, text)
    } else {
        acc
    };
    let buf2 = if acc1.buf.len() > 0 {
        acc1.buf + seq![' '] + s + seq!['.']
    } else {
        s + seq!['.']
    };
    SplitAcc { chunks: acc1.chunks, buf: buf2, cnt: acc1.cnt + token_estimate(s) + 1 }
}

pub open spec fn sent_fold(sents: Seq<Seq<char>>, i: int, acc: SplitAcc, text: Seq<char>) -> SplitAcc
    decreases sents.len() - i,
{
    if i < 0 || i >= sents.len() {
        acc
    } else {
        sent_fold(sents, i + 1, sent_step(acc, sents[i], text), text)
    }
}

/// Flush a non-empty sentence buffer as a final chunk.
pub open spec fn sent_flush(acc: SplitAcc, text: Seq<char>) -> Seq<ChunkModel> {
    if acc.buf.len() > 0 {
        acc.chunks.push(
            ChunkModel {
                text: acc.buf,
                token_count: acc.cnt,
                start_position: start_pos_of(text, acc.buf),
            },
        )
    } else {
        acc.chunks
    }
}

/// Sentence-level mode for one oversized paragraph, independent of the outer
/// paragraph buffer.
pub open spec fn sentence_mode(chunks: Seq<ChunkModel>, p: Seq<char>, text: Seq<char>) -> Seq<
    ChunkModel,
> {
    sent_flush(
        sent_fold(sentences_of(p), 0, SplitAcc { chunks, buf: Seq::empty(), cnt: 0 }, text),
        text,
    )
}

/// The buffer ends with a blank-line separator.
pub open spec fn ends_nn(s: Seq<char>) -> bool {
    s.len() >= 2 && s[s.len() - 2] == '\n' && s[s.len() - 1] == '\n'
}

/// One paragraph consumed: oversized paragraphs go through sentence mode;
/// others are appended to the buffer, closing it first when they would push
/// it over the target. Paragraphs are joined by blank lines.
pub open spec fn par_step(acc: SplitAcc, p: Seq<char>, text: Seq<char>) -> SplitAcc {
    let pt = token_estimate(p);
    if pt > TARGET_TOKENS {
        SplitAcc { chunks: sentence_mode(acc.chunks, p, text), buf: acc.buf, cnt: acc.cnt }
    } else {
        let acc1 = if acc.cnt + pt > TARGET_TOKENS && acc.buf.len() > 0 {
            let c = close_chunk(acc, text);
            SplitAcc {
                chunks: c.chunks,
                buf: if c.buf.len() > 0 {
                    c.buf + seq!['\n', '\n']
                } else {
                    c.buf
                },
                cnt: c.cnt,
            }
        } else {
            acc
        };
        let buf2 = if acc1.buf.len() > 0 && !ends_nn(acc1.buf) {
            acc1.buf + seq!['\n', '\n']
        } else {
            acc1.buf
        };
        SplitAcc { chunks: acc1.chunks, buf: buf2 + p, cnt: acc1.cnt + pt }
    }
}

pub open spec fn par_fold(pars: Seq<Seq<char>>, i: int, acc: SplitAcc, text: Seq<char>) -> SplitAcc
    decreases pars.len() - i,
{
    if i < 0 || i >= pars.len() {
        acc
    } else {
        par_fold(pars, i + 1, par_step(acc, pars[i], text), text)
    }
}

/// Flush the trailing paragraph buffer if it holds any non-white content.
pub open spec fn par_flush(acc: SplitAcc, text: Seq<char>) -> Seq<ChunkModel> {
    if trim(acc.buf).len() > 0 {
        acc.chunks.push(
            ChunkModel {
                text: acc.buf,
                token_count: acc.cnt,
                start_position: start_pos_of(text, acc.buf),
            },
        )
    } else {
        acc.chunks
    }
}

/// One full splitting pass over a text, without the oversize re-split.
pub open spec fn split_pass(text: Seq<char>) -> Seq<ChunkModel> {
    par_flush(
        par_fold(
            paragraphs_of(text),
            0,
            SplitAcc { chunks: Seq::empty(), buf: Seq::empty(), cnt: 0 },
            text,
        ),
        text,
    )
}

/// The oversize post-pass: chunks over the threshold are re-split
/// recursively while fuel remains; all others pass through unchanged.
pub open spec fn post_fold(
    chunks: Seq<ChunkModel>,
    i: int,
    acc: Seq<ChunkModel>,
    fuel: nat,
) -> Seq<ChunkModel>
    decreases fuel, 1nat, chunks.len() - i,
{
    if i < 0 || i >= chunks.len() {
        acc
    } else {
        let c = chunks[i];
        if c.token_count > OVERSIZE_TOKENS && fuel > 0 {
            post_fold(chunks, i + 1, acc + split_rec(c.text, (fuel - 1) as nat), fuel)
        } else {
            post_fold(chunks, i + 1, acc.push(c), fuel)
        }
    }
}

/// Split a text and re-split its oversized chunks, with bounded recursion.
pub open spec fn split_rec(text: Seq<char>, fuel: nat) -> Seq<ChunkModel>
    decreases fuel, 2nat, 0nat,
{
    post_fold(split_pass(text), 0, Seq::empty(), fuel)
}

/// Stamp every chunk with the document id.
pub open spec fn stamp(chunks: Seq<ChunkModel>, id: Seq<char>) -> Seq<TextChunkModel>
    decreases chunks.len(),
{
    if chunks.len() == 0 {
        Seq::empty()
    } else {
        seq![
            TextChunkModel {
                text: chunks[0].text,
                token_count: chunks[0].token_count,
                document_id: id,
                start_position: chunks[0].start_position,
            },
        ] + stamp(chunks.drop_first(), id)
    }
}

/// The full splitter: what `split_into_chunks` returns.
pub open spec fn spec_split_chunks(text: Seq<char>, id: Seq<char>) -> Seq<TextChunkModel> {
    stamp(split_rec(text, MAX_SPLIT_DEPTH as nat), id)
}

// --- token bookkeeping lemmas ---------------------------------------------

proof fn lemma_char_classes()
    ensures
        is_white(' '),
        is_white('\n'),
        !is_punct(' '),
        !is_punct('\n'),
        is_punct('.'),
        !is_white('.'),
{
    assert(' ' as u32 == 0x20);
    assert('\n' as u32 == 0x0A);
    assert('.' as u32 == 0x2E);
}

proof fn lemma_est_singleton(c: char, prev_white: bool)
    ensures
        est_core(seq![c], prev_white) == est_step(c, prev_white),
{
    assert(seq![c][0] == c);
    assert(seq![c].drop_first() =~= Seq::<char>::empty());
    assert(est_core(Seq::<char>::empty(), is_white(c)) == 0);
}

/// Appending a sentence with its joining space and closing period adds the
/// sentence's estimate plus one (for the period).
pub proof fn lemma_est_append_sentence(buf: Seq<char>, s: Seq<char>)
    requires
        buf.len() > 0,
        s.len() > 0,
        is_trimmed(s),
    ensures
        token_estimate(buf + seq![' '] + s + seq!['.']) == token_estimate(buf) + token_estimate(s)
            + 1,
{
    let t1 = buf + seq![' '];
    let t2 = t1 + s;
    let t3 = t2 + seq!['.'];
    lemma_est_concat(buf, seq![' '], true);
    lemma_char_classes();
    lemma_est_singleton(' ', state_after(buf, true));
    assert(est_core(seq![' '], state_after(buf, true)) == 0);
    assert(state_after(t1, true) == is_white(' '));
    lemma_est_concat(t1, s, true);
    assert(est_core(s, true) == token_estimate(s));
    lemma_est_concat(t2, seq!['.'], true);
    assert(state_after(t2, true) == is_white(s[s.len() - 1])) by {
        assert(t2[t2.len() - 1] == s[s.len() - 1]);
    }
    lemma_est_singleton('.', false);
    assert(est_core(seq!['.'], false) == 1);
}

/// The first sentence of a buffer: its estimate plus one for the period.
pub proof fn lemma_est_first_sentence(s: Seq<char>)
    requires
        s.len() > 0,
        is_trimmed(s),
    ensures
        token_estimate(s + seq!['.']) == token_estimate(s) + 1,
{
    lemma_est_concat(s, seq!['.'], true);
    assert(state_after(s, true) == is_white(s[s.len() - 1]));
    lemma_char_classes();
    lemma_est_singleton('.', false);
    assert(est_core(seq!['.'], false) == 1);
}

/// Appending directly after a blank-line separator that is already in place.
pub proof fn lemma_est_append_direct(buf: Seq<char>, p: Seq<char>)
    requires
        p.len() > 0,
        is_trimmed(p),
        buf.len() == 0 || is_white(buf[buf.len() - 1]),
    ensures
        token_estimate(buf + p) == token_estimate(buf) + token_estimate(p),
{
    lemma_est_concat(buf, p, true);
    assert(est_core(p, state_after(buf, true)) == est_core(p, true));
}

/// Appending a blank-line separator never changes the estimate.
pub proof fn lemma_est_append_nn(buf: Seq<char>)
    ensures
        token_estimate(buf + seq!['\n', '\n']) == token_estimate(buf),
        (buf + seq!['\n', '\n']).len() == buf.len() + 2,
        is_white((buf + seq!['\n', '\n']).last()),
{
    lemma_char_classes();
    lemma_est_concat(buf, seq!['\n', '\n'], true);
    assert(est_core(seq!['\n', '\n'], state_after(buf, true)) == 0) by {
        lemma_char_classes();
        let nn = seq!['\n', '\n'];
        assert(nn[0] == '\n');
        assert(nn.drop_first() =~= seq!['\n']);
        lemma_est_singleton('\n', is_white('\n'));
        assert(est_step('\n', state_after(buf, true)) == 0);
        assert(est_step('\n', is_white('\n')) == 0);
    }
    assert((buf + seq!['\n', '\n']).last() == '\n');
}

// --- chunk goodness and recursion budget ----------------------------------

/// The properties every produced chunk has: its token count is exactly the
/// estimate of its text, and its text is non-empty and trimmed.
pub open spec fn good_chunk(c: ChunkModel) -> bool {
    &&& c.token_count == token_estimate(c.text)
    &&& c.text.len() > 0
    &&& is_trimmed(c.text)
}

/// Input-size budget after `d` re-split passes: each pass can at most double
/// a segment and add a little joining overhead.
pub open spec fn budget_rec(d: nat) -> int
    decreases d,
{
    if d == 0 {
        MAX_DOCUMENT_CHARS as int
    } else {
        2 * budget_rec((d - 1) as nat) + 512
    }
}

/// Input-size budget available at a given remaining fuel.
pub open spec fn len_budget(fuel: nat) -> int {
    if fuel >= MAX_SPLIT_DEPTH {
        MAX_DOCUMENT_CHARS as int
    } else {
        budget_rec((MAX_SPLIT_DEPTH - fuel) as nat)
    }
}

pub proof fn lemma_budget_step(fuel: nat)
    requires
        1 <= fuel <= MAX_SPLIT_DEPTH,
    ensures
        len_budget((fuel - 1) as nat) == 2 * len_budget(fuel) + 512,
{
    if fuel == MAX_SPLIT_DEPTH {
        assert(len_budget(fuel) == MAX_DOCUMENT_CHARS as int);
        assert((MAX_SPLIT_DEPTH - (fuel - 1)) as nat == 1nat);
        assert(budget_rec(1nat) == 2 * budget_rec(0nat) + 512);
        assert(budget_rec(0nat) == MAX_DOCUMENT_CHARS as int);
    } else {
        let d = (MAX_SPLIT_DEPTH - fuel) as nat;
        assert((MAX_SPLIT_DEPTH - (fuel - 1)) as nat == d + 1);
        assert(budget_rec(d + 1) == 2 * budget_rec(d) + 512);
    }
}

pub proof fn lemma_budget_max(fuel: nat)
    requires
        fuel <= MAX_SPLIT_DEPTH,
    ensures
        MAX_DOCUMENT_CHARS as int <= len_budget(fuel),
        len_budget(fuel) <= usize::MAX as int / 8,
{
    let m = MAX_DOCUMENT_CHARS as int;
    assert(budget_rec(0nat) == m);
    assert(budget_rec(1nat) == 2 * m + 512);
    assert(budget_rec(2nat) == 4 * m + 1536);
    assert(budget_rec(3nat) == 8 * m + 3584);
    assert(budget_rec(4nat) == 16 * m + 7680);
    assert(budget_rec(5nat) == 32 * m + 15872);
    assert(budget_rec(6nat) == 64 * m + 32256);
    assert(budget_rec(7nat) == 128 * m + 65024);
    assert(budget_rec(8nat) == 256 * m + 130560);
    assert(256 * m + 130560 <= usize::MAX as int / 8) by {
        assert(m == usize::MAX as int / 4096);
        assert(4096 * m <= usize::MAX as int);
        assert(usize::MAX >= 0xffff_ffff);
    }
    if fuel < MAX_SPLIT_DEPTH {
        let d = (MAX_SPLIT_DEPTH - fuel) as nat;
        assert(d <= 8);
        lemma_budget_rec_nonneg(d);
        lemma_budget_rec_mono(d, 8nat);
    }
}

proof fn lemma_budget_rec_nonneg(d: nat)
    ensures
        budget_rec(d) >= MAX_DOCUMENT_CHARS as int,
    decreases d,
{
    if d > 0 {
        lemma_budget_rec_nonneg((d - 1) as nat);
    }
}

proof fn lemma_budget_rec_mono(d1: nat, d2: nat)
    requires
        d1 <= d2,
    ensures
        budget_rec(d1) <= budget_rec(d2),
    decreases d2,
{
    if d1 < d2 {
        lemma_budget_rec_mono(d1, (d2 - 1) as nat);
        lemma_budget_rec_nonneg((d2 - 1) as nat);
    }
}

// --- executable chunks -----------------------------------------------------

/// A chunk before it is stamped with the document id.
struct RawChunk {
    text: Vec<char>,
    token_count: usize,
    start_position: usize,
}

impl View for RawChunk {
    type V = ChunkModel;

    closed spec fn view(&self) -> ChunkModel {
        ChunkModel {
            text: self.text@,
            token_count: self.token_count as nat,
            start_position: self.start_position as nat,
        }
    }
}

spec fn models_of(s: Seq<RawChunk>) -> Seq<ChunkModel>
    decreases s.len(),
{
    if s.len() == 0 {
        Seq::<ChunkModel>::empty()
    } else {
        seq![s[0]@] + models_of(s.drop_first())
    }
}

proof fn lemma_models_index(s: Seq<RawChunk>)
    ensures
        models_of(s).len() == s.len(),
        forall|i: int| 0 <= i < s.len() ==> models_of(s)[i] == s[i]@,
    decreases s.len(),
{
    if s.len() > 0 {
        lemma_models_index(s.drop_first());
        assert forall|i: int| 0 <= i < s.len() implies models_of(s)[i] == s[i]@ by {
            if i > 0 {
                assert(models_of(s)[i] == models_of(s.drop_first())[i - 1]);
                assert(s.drop_first()[i - 1] == s[i]);
            }
        }
    }
}

proof fn lemma_models_push(s: Seq<RawChunk>, r: RawChunk)
    ensures
        models_of(s.push(r)) == models_of(s).push(r@),
{
    lemma_models_index(s);
    lemma_models_index(s.push(r));
    assert(models_of(s.push(r)) =~= models_of(s).push(r@));
}

/// Append all of `src` onto `dst`.
fn push_all(dst: &mut Vec<char>, src: &Vec<char>)
    ensures
        final(dst)@ == old(dst)@ + src@,
{
    let mut i: usize = 0;
    proof {
        assert(dst@ =~= old(dst)@ + src@.subrange(0, 0));
    }
    while i < src.len()
        invariant
            i <= src@.len(),
            dst@ == old(dst)@ + src@.subrange(0, i as int),
        decreases src@.len() - i,
    {
        dst.push(src[i]);
        proof {
            assert(old(dst)@ + src@.subrange(0, i + 1) =~= (old(dst)@ + src@.subrange(
                0,
                i as int,
            )).push(src@[i as int]));
        }
        i += 1;
    }
    proof {
        assert(src@.subrange(0, src@.len() as int) =~= src@);
    }
}

/// The trailing overlap of a closed buffer.
fn overlap_of(buf: &Vec<char>) -> (ov: Vec<char>)
    ensures
        ov@ == suffix_overlap(buf@),
{
    let lo = if buf.len() <= OVERLAP_CHARS {
        0
    } else {
        buf.len() - OVERLAP_CHARS
    };
    let tail = copy_range(buf, lo, buf.len());
    trim_chars(&tail)
}

/// Does the buffer end with a blank-line separator?
fn ends_with_nn(buf: &Vec<char>) -> (r: bool)
    ensures
        r == ends_nn(buf@),
{
    let n = buf.len();
    n >= 2 && buf[n - 2] == '\n' && buf[n - 1] == '\n'
}

/// Sentence-level mode for one oversized paragraph: split it into sentences
/// and accumulate them into chunks appended to `chunks`, independent of the
/// outer paragraph buffer.
fn sentence_mode_exec(chunks: &mut Vec<RawChunk>, p: &Vec<char>, text: &Vec<char>)
    requires
        text@.len() <= usize::MAX as int / 8,
        p@.len() <= text@.len(),
    ensures
        models_of(final(chunks)@) == sentence_mode(models_of(old(chunks)@), p@, text@),
        final(chunks)@.len() >= old(chunks)@.len(),
        forall|j: int| 0 <= j < old(chunks)@.len() ==> final(chunks)@[j] == old(chunks)@[j],
        forall|j: int|
            old(chunks)@.len() <= j < final(chunks)@.len() ==> (good_chunk(
                #[trigger] final(chunks)@[j]@,
            ) && final(chunks)@[j]@.text.len() <= 2 * p@.len() + 204),
{
    let ghost old_models = models_of(chunks@);
    let ghost t = text@;
    let sents = split_sentences(p);
    let ghost ss = sentences_of(p@);
    proof {
        lemma_kept_pieces_trimmed(crate::textops::split_seps(p@));
        lemma_split_seps_budget(p@);
        lemma_kept_budget(crate::textops::split_seps(p@));
        lemma_pieces_budget_nonneg(ss);
    }
    let ghost bud = pieces_budget(ss);
    let mut buf: Vec<char> = Vec::new();
    let mut cnt: usize = 0;
    let mut i: usize = 0;
    proof {
        assert(ss.skip(0) =~= ss);
        assert(token_estimate(Seq::<char>::empty()) == 0);
        assert(models_of(chunks@) == old_models);
    }
    while i < sents.len()
        invariant
            i <= ss.len(),
            t == text@,
            sents.deep_view() == ss,
            ss == sentences_of(p@),
            text@.len() <= usize::MAX as int / 8,
            p@.len() <= text@.len(),
            bud == pieces_budget(ss),
            bud <= 2 * p@.len() + 2,
            forall|j: int| 0 <= j < ss.len() ==> (#[trigger] ss[j]).len() > 0 && is_trimmed(ss[j]),
            cnt == token_estimate(buf@),
            is_trimmed(buf@),
            buf@.len() + pieces_budget(ss.skip(i as int)) <= 202 + bud,
            sent_fold(ss, 0, SplitAcc { chunks: old_models, buf: Seq::empty(), cnt: 0 }, t)
                == sent_fold(
                ss,
                i as int,
                SplitAcc { chunks: models_of(chunks@), buf: buf@, cnt: cnt as nat },
                t,
            ),
            old_models == models_of(old(chunks)@),
            chunks@.len() >= old(chunks)@.len(),
            forall|j: int| 0 <= j < old(chunks)@.len() ==> chunks@[j] == old(chunks)@[j],
            forall|j: int|
                old(chunks)@.len() <= j < chunks@.len() ==> good_chunk(#[trigger] chunks@[j]@)
                    && chunks@[j]@.text.len() <= 2 * p@.len() + 204,
        decreases ss.len() - i,
    {
        let ghost acc = SplitAcc { chunks: models_of(chunks@), buf: buf@, cnt: cnt as nat };
        let s = &sents[i];
        proof {
            assert(sents.deep_view()[i as int] == sents@[i as int].deep_view());
            assert(sents@[i as int].deep_view() =~= sents@[i as int]@);
            assert(s@ == ss[i as int]);
            lemma_pieces_budget_parts(ss, i as int);
        }
        let st = token_count_chars(s);
        proof {
            crate::tokens::lemma_est_core_bound(ss[i as int], true);
            assert(st <= ss[i as int].len() + 1);
            assert(ss[i as int].len() + 2 <= pieces_budget(ss.skip(i as int)));
            assert(ss[i as int].len() <= 2 * p@.len());
        }
        let need_close = (cnt > TARGET_TOKENS || st > TARGET_TOKENS - cnt) && buf.len() > 0;
        proof {
            assert(need_close == (acc.cnt + token_estimate(ss[i as int]) > TARGET_TOKENS
                && acc.buf.len() > 0));
        }
        if need_close {
            let sp = chunk_start_position(text, &buf);
            let ctext = copy_range(&buf, 0, buf.len());
            proof {
                assert(ctext@ =~= buf@);
            }
            let closed = RawChunk { text: ctext, token_count: cnt, start_position: sp };
            proof {
                assert(closed@.text == acc.buf);
                assert(closed@.token_count == acc.cnt);
                assert(closed@.start_position == start_pos_of(t, acc.buf));
            }
            let ghost pre_vec = chunks@;
            chunks.push(closed);
            proof {
                assert(chunks@ == pre_vec.push(closed));
                lemma_models_push(pre_vec, closed);
                assert(closed@ =~= ChunkModel {
                    text: acc.buf,
                    token_count: acc.cnt,
                    start_position: start_pos_of(t, acc.buf),
                });
                assert(models_of(chunks@) == close_chunk(acc, t).chunks);
            }
            proof {
                lemma_suffix_overlap(acc.buf);
            }
            let ov = overlap_of(&buf);
            buf = ov;
            cnt = token_count_chars(&buf);
        }
        proof {
            let acc1 = if acc.cnt + token_estimate(ss[i as int]) > TARGET_TOKENS && acc.buf.len()
                > 0 {
                close_chunk(acc, t)
            } else {
                acc
            };
            assert(models_of(chunks@) == acc1.chunks);
            assert(buf@ == acc1.buf);
            assert(cnt as nat == acc1.cnt);
        }
        let ghost acc1 = SplitAcc { chunks: models_of(chunks@), buf: buf@, cnt: cnt as nat };
        // append the sentence, re-suffixed with a period
        let had = buf.len() > 0;
        if had {
            buf.push(' ');
        }
        push_all(&mut buf, s);
        buf.push('.');
        proof {
            if had {
                assert(buf@ =~= acc1.buf + seq![' '] + ss[i as int] + seq!['.']);
                lemma_est_append_sentence(acc1.buf, ss[i as int]);
            } else {
                assert(acc1.buf =~= Seq::<char>::empty());
                assert(buf@ =~= ss[i as int] + seq!['.']);
                lemma_est_first_sentence(ss[i as int]);
                assert(token_estimate(acc1.buf) == 0);
            }
            lemma_char_classes();
            assert(buf@[buf@.len() - 1] == '.');
            assert(!is_white(buf@[0])) by {
                if had {
                    assert(buf@[0] == acc1.buf[0]);
                } else {
                    assert(buf@[0] == ss[i as int][0]);
                }
            }
            // the new count fits in usize
            assert(acc1.cnt + st + 1 <= 703 + 2 * p@.len()) by {
                if need_close {
                    lemma_suffix_overlap(acc.buf);
                    crate::tokens::lemma_est_core_bound(acc1.buf, true);
                } else {
                    if acc.buf.len() == 0 {
                        assert(acc.cnt == 0);
                    } else {
                        assert(acc.cnt + st <= TARGET_TOKENS);
                    }
                }
            }
        }
        cnt = cnt + st + 1;
        proof {
            let stepped = sent_step(acc, ss[i as int], t);
            assert(SplitAcc { chunks: models_of(chunks@), buf: buf@, cnt: cnt as nat }
                =~= stepped);
            assert(sent_fold(ss, i as int, acc, t) == sent_fold(ss, i + 1, stepped, t));
            // budget
            assert(buf@.len() + pieces_budget(ss.skip(i + 1)) <= 202 + bud) by {
                assert(buf@.len() <= acc1.buf.len() + ss[i as int].len() + 2);
                if need_close {
                    lemma_suffix_overlap(acc.buf);
                    assert(acc1.buf.len() <= OVERLAP_CHARS);
                } else {
                    assert(acc.buf.len() + pieces_budget(ss.skip(i as int)) <= 202 + bud);
                }
                assert(pieces_budget(ss.skip(i as int)) == ss[i as int].len() + 2
                    + pieces_budget(ss.skip(i + 1)));
            }
        }
        i += 1;
    }
    // flush any remaining buffer
    let ghost accf = SplitAcc { chunks: models_of(chunks@), buf: buf@, cnt: cnt as nat };
    proof {
        assert(sent_fold(ss, ss.len() as int, accf, t) == accf);
        assert(sent_fold(ss, 0, SplitAcc { chunks: old_models, buf: Seq::empty(), cnt: 0 }, t)
            == accf);
    }
    if buf.len() > 0 {
        let sp = chunk_start_position(text, &buf);
        let ctext = copy_range(&buf, 0, buf.len());
        proof {
            assert(ctext@ =~= buf@);
        }
        let closed = RawChunk { text: ctext, token_count: cnt, start_position: sp };
        let ghost pre_vec = chunks@;
        chunks.push(closed);
        proof {
            assert(chunks@ == pre_vec.push(closed));
            lemma_models_push(pre_vec, closed);
            assert(closed@ =~= ChunkModel {
                text: accf.buf,
                token_count: accf.cnt,
                start_position: start_pos_of(t, accf.buf),
            });
            assert(models_of(chunks@) == sent_flush(accf, t));
        }
    } else {
        proof {
            assert(models_of(chunks@) == sent_flush(accf, t));
        }
    }
}

/// One full splitting pass over the text, paragraph by paragraph, without
/// the oversize re-split.
fn split_pass_exec(text: &Vec<char>) -> (out: Vec<RawChunk>)
    requires
        text@.len() <= usize::MAX as int / 8,
    ensures
        models_of(out@) == split_pass(text@),
        forall|j: int|
            0 <= j < out@.len() ==> (good_chunk(#[trigger] out@[j]@) && out@[j]@.text.len() <= 2
                * text@.len() + 204),
{
    let ghost t = text@;
    let pars = split_paragraphs(text);
    let ghost pp = paragraphs_of(text@);
    proof {
        lemma_kept_pieces_trimmed(crate::textops::split_nn(text@));
        lemma_split_nn_budget(text@);
        lemma_kept_budget(crate::textops::split_nn(text@));
        lemma_pieces_budget_nonneg(pp);
    }
    let ghost bud = pieces_budget(pp);
    let mut chunks: Vec<RawChunk> = Vec::new();
    let mut buf: Vec<char> = Vec::new();
    let mut cnt: usize = 0;
    let mut i: usize = 0;
    proof {
        assert(pp.skip(0) =~= pp);
        assert(token_estimate(Seq::<char>::empty()) == 0);
        assert(models_of(chunks@) =~= Seq::<ChunkModel>::empty());
    }
    while i < pars.len()
        invariant
            i <= pp.len(),
            t == text@,
            pars.deep_view() == pp,
            pp == paragraphs_of(text@),
            text@.len() <= usize::MAX as int / 8,
            bud == pieces_budget(pp),
            bud <= text@.len() + 2,
            forall|j: int| 0 <= j < pp.len() ==> (#[trigger] pp[j]).len() > 0 && is_trimmed(pp[j]),
            cnt == token_estimate(buf@),
            cnt <= 701,
            is_trimmed(buf@),
            buf@.len() + pieces_budget(pp.skip(i as int)) <= 202 + bud,
            par_fold(pp, 0, SplitAcc { chunks: Seq::empty(), buf: Seq::empty(), cnt: 0 }, t)
                == par_fold(
                pp,
                i as int,
                SplitAcc { chunks: models_of(chunks@), buf: buf@, cnt: cnt as nat },
                t,
            ),
            forall|j: int|
                0 <= j < chunks@.len() ==> (good_chunk(#[trigger] chunks@[j]@)
                    && chunks@[j]@.text.len() <= 2 * text@.len() + 204),
        decreases pp.len() - i,
    {
        let ghost acc = SplitAcc { chunks: models_of(chunks@), buf: buf@, cnt: cnt as nat };
        let p = &pars[i];
        proof {
            assert(pars.deep_view()[i as int] == pars@[i as int].deep_view());
            assert(pars@[i as int].deep_view() =~= pars@[i as int]@);
            assert(p@ == pp[i as int]);
            lemma_pieces_budget_parts(pp, i as int);
            assert(pp[i as int].len() <= text@.len());
        }
        let pt = token_count_chars(p);
        proof {
            crate::tokens::lemma_est_core_bound(pp[i as int], true);
        }
        if pt > TARGET_TOKENS {
            let ghost pre_len = chunks@.len();
            sentence_mode_exec(&mut chunks, p, text);
            proof {
                let stepped = par_step(acc, pp[i as int], t);
                assert(stepped.chunks == sentence_mode(acc.chunks, pp[i as int], t));
                assert(SplitAcc { chunks: models_of(chunks@), buf: buf@, cnt: cnt as nat }
                    =~= stepped);
                assert(par_fold(pp, i as int, acc, t) == par_fold(pp, i + 1, stepped, t));
                assert forall|j: int|
                    0 <= j < chunks@.len() implies (good_chunk(#[trigger] chunks@[j]@)
                        && chunks@[j]@.text.len() <= 2 * text@.len() + 204) by {
                    if j >= pre_len {
                        assert(good_chunk(chunks@[j]@));
                        assert(chunks@[j]@.text.len() <= 2 * pp[i as int].len() + 204);
                    }
                }
            }
        } else {
            let need_close = (cnt > TARGET_TOKENS || pt > TARGET_TOKENS - cnt) && buf.len() > 0;
            proof {
                assert(need_close == (acc.cnt + token_estimate(pp[i as int]) > TARGET_TOKENS
                    && acc.buf.len() > 0));
            }
            if need_close {
                let sp = chunk_start_position(text, &buf);
                let ctext = copy_range(&buf, 0, buf.len());
                proof {
                    assert(ctext@ =~= buf@);
                }
                let closed = RawChunk { text: ctext, token_count: cnt, start_position: sp };
                let ghost pre_vec = chunks@;
                chunks.push(closed);
                proof {
                    assert(chunks@ == pre_vec.push(closed));
                    lemma_models_push(pre_vec, closed);
                    assert(closed@ =~= ChunkModel {
                        text: acc.buf,
                        token_count: acc.cnt,
                        start_position: start_pos_of(t, acc.buf),
                    });
                    assert(models_of(chunks@) == close_chunk(acc, t).chunks);
                    assert(good_chunk(closed@));
                    assert(closed@.text.len() <= 202 + bud);
                    lemma_suffix_overlap(acc.buf);
                }
                let ov = overlap_of(&buf);
                buf = ov;
                cnt = token_count_chars(&buf);
                if buf.len() > 0 {
                    buf.push('\n');
                    buf.push('\n');
                    proof {
                        assert(buf@ =~= suffix_overlap(acc.buf) + seq!['\n', '\n']);
                        lemma_est_append_nn(suffix_overlap(acc.buf));
                    }
                }
            }
            proof {
                let spec1 = if acc.cnt + token_estimate(pp[i as int]) > TARGET_TOKENS
                    && acc.buf.len() > 0 {
                    let c = close_chunk(acc, t);
                    SplitAcc {
                        chunks: c.chunks,
                        buf: if c.buf.len() > 0 {
                            c.buf + seq!['\n', '\n']
                        } else {
                            c.buf
                        },
                        cnt: c.cnt,
                    }
                } else {
                    acc
                };
                assert(models_of(chunks@) == spec1.chunks);
                assert(buf@ == spec1.buf);
                assert(cnt as nat == spec1.cnt);
                assert(cnt <= 701) by {
                    if need_close {
                        lemma_suffix_overlap(acc.buf);
                        crate::tokens::lemma_est_core_bound(suffix_overlap(acc.buf), true);
                    }
                }
                assert(buf@.len() == 0 || !is_white(buf@[0])) by {
                    if need_close {
                        lemma_suffix_overlap(acc.buf);
                        let ov = suffix_overlap(acc.buf);
                        if ov.len() > 0 {
                            assert(buf@[0] == ov[0]);
                        }
                    }
                }
            }
            let ghost acc1 = SplitAcc { chunks: models_of(chunks@), buf: buf@, cnt: cnt as nat };
            let add_sep = buf.len() > 0 && !ends_with_nn(&buf);
            if add_sep {
                buf.push('\n');
                buf.push('\n');
            }
            push_all(&mut buf, p);
            proof {
                lemma_char_classes();
                if add_sep {
                    assert(buf@ =~= acc1.buf + seq!['\n', '\n'] + pp[i as int]);
                    lemma_est_append_nn(acc1.buf);
                    lemma_est_append_direct(acc1.buf + seq!['\n', '\n'], pp[i as int]);
                } else if acc1.buf.len() == 0 {
                    assert(acc1.buf =~= Seq::<char>::empty());
                    assert(buf@ =~= pp[i as int]);
                    assert(token_estimate(acc1.buf) == 0);
                } else {
                    assert(ends_nn(acc1.buf));
                    assert(is_white(acc1.buf[acc1.buf.len() - 1]));
                    assert(buf@ =~= acc1.buf + pp[i as int]);
                    lemma_est_append_direct(acc1.buf, pp[i as int]);
                }
                assert(token_estimate(buf@) == acc1.cnt + token_estimate(pp[i as int]));
                assert(cnt + pt <= 701) by {
                    if need_close {
                    } else {
                        if acc.buf.len() == 0 {
                            assert(acc.cnt == 0);
                        } else {
                            assert(acc.cnt + pt <= TARGET_TOKENS);
                        }
                    }
                }
            }
            cnt = cnt + pt;
            proof {
                let stepped = par_step(acc, pp[i as int], t);
                assert(SplitAcc { chunks: models_of(chunks@), buf: buf@, cnt: cnt as nat }
                    =~= stepped);
                assert(par_fold(pp, i as int, acc, t) == par_fold(pp, i + 1, stepped, t));
                // the buffer stays trimmed
                assert(buf@[buf@.len() - 1] == pp[i as int][pp[i as int].len() - 1]);
                assert(!is_white(buf@[buf@.len() - 1]));
                assert(!is_white(buf@[0])) by {
                    if acc1.buf.len() > 0 {
                        assert(buf@[0] == acc1.buf[0]);
                    } else {
                        assert(buf@[0] == pp[i as int][0]);
                    }
                }
                // buffer budget
                assert(buf@.len() + pieces_budget(pp.skip(i + 1)) <= 202 + bud) by {
                    assert(buf@.len() <= acc1.buf.len() + pp[i as int].len() + 2);
                    if need_close {
                        lemma_suffix_overlap(acc.buf);
                        assert(acc1.buf.len() <= OVERLAP_CHARS + 2);
                    } else {
                        assert(acc.buf.len() + pieces_budget(pp.skip(i as int)) <= 202 + bud);
                    }
                    assert(pieces_budget(pp.skip(i as int)) == pp[i as int].len() + 2
                        + pieces_budget(pp.skip(i + 1)));
                }
            }
        }
        i += 1;
    }
    // flush the trailing buffer
    let ghost accf = SplitAcc { chunks: models_of(chunks@), buf: buf@, cnt: cnt as nat };
    proof {
        assert(par_fold(pp, pp.len() as int, accf, t) == accf);
        lemma_trim_is_trimmed(buf@);
        lemma_pieces_budget_nonneg(pp.skip(pp.len() as int));
    }
    if buf.len() > 0 {
        let sp = chunk_start_position(text, &buf);
        let ctext = copy_range(&buf, 0, buf.len());
        proof {
            assert(ctext@ =~= buf@);
        }
        let closed = RawChunk { text: ctext, token_count: cnt, start_position: sp };
        let ghost pre_vec = chunks@;
        chunks.push(closed);
        proof {
            assert(chunks@ == pre_vec.push(closed));
            lemma_models_push(pre_vec, closed);
            assert(closed@ =~= ChunkModel {
                text: accf.buf,
                token_count: accf.cnt,
                start_position: start_pos_of(t, accf.buf),
            });
            assert(trim(accf.buf) == accf.buf);
            assert(models_of(chunks@) == par_flush(accf, t));
        }
    } else {
        proof {
            assert(trim(accf.buf).len() == 0) by {
                assert(accf.buf =~= Seq::<char>::empty());
                crate::chars::lemma_trim_is_trimmed(accf.buf);
            }
            assert(models_of(chunks@) == par_flush(accf, t));
        }
    }
    chunks
}

/// Split a text and re-split oversized chunks, with bounded recursion depth.
fn split_rec_exec(text: &Vec<char>, fuel: usize) -> (out: Vec<RawChunk>)
    requires
        fuel <= MAX_SPLIT_DEPTH,
        text@.len() <= len_budget(fuel as nat),
    ensures
        models_of(out@) == split_rec(text@, fuel as nat),
        forall|k: int| 0 <= k < out@.len() ==> good_chunk(#[trigger] out@[k]@),
    decreases fuel,
{
    proof {
        lemma_budget_max(fuel as nat);
    }
    let raw = split_pass_exec(text);
    let ghost rr = models_of(raw@);
    proof {
        lemma_models_index(raw@);
    }
    let mut out: Vec<RawChunk> = Vec::new();
    let mut j: usize = 0;
    proof {
        assert(models_of(out@) =~= Seq::<ChunkModel>::empty());
    }
    while j < raw.len()
        invariant
            j <= raw@.len(),
            fuel <= MAX_SPLIT_DEPTH,
            text@.len() <= len_budget(fuel as nat),
            rr == models_of(raw@),
            rr == split_pass(text@),
            rr.len() == raw@.len(),
            forall|k: int| 0 <= k < raw@.len() ==> rr[k] == raw@[k]@,
            forall|k: int|
                0 <= k < rr.len() ==> (good_chunk(#[trigger] rr[k]) && rr[k].text.len() <= 2
                    * text@.len() + 204),
            split_rec(text@, fuel as nat) == post_fold(rr, j as int, models_of(out@), fuel as nat),
            forall|k: int| 0 <= k < out@.len() ==> good_chunk(#[trigger] out@[k]@),
        decreases raw@.len() - j,
    {
        let c = &raw[j];
        proof {
            assert(c@ == rr[j as int]);
        }
        let ghost pre_models = models_of(out@);
        if c.token_count > OVERSIZE_TOKENS && fuel > 0 {
            proof {
                lemma_budget_step(fuel as nat);
                assert(c@.text.len() <= 2 * text@.len() + 204);
                assert(c.text@.len() <= len_budget((fuel - 1) as nat));
            }
            let mut subs = split_rec_exec(&c.text, fuel - 1);
            let ghost subs_models = models_of(subs@);
            proof {
                assert(models_of(subs@).len() == subs@.len()) by {
                    lemma_models_index(subs@);
                }
            }
            while subs.len() > 0
                invariant
                    models_of(out@) + models_of(subs@) == pre_models + subs_models,
                    forall|k: int| 0 <= k < out@.len() ==> good_chunk(#[trigger] out@[k]@),
                    forall|k: int| 0 <= k < subs@.len() ==> good_chunk(#[trigger] subs@[k]@),
                decreases subs@.len(),
            {
                let ghost sv = subs@;
                let ghost ov = out@;
                let r = subs.remove(0);
                proof {
                    assert(sv.remove(0) =~= sv.drop_first());
                }
                out.push(r);
                proof {
                    assert(out@ == ov.push(sv[0]));
                    lemma_models_push(ov, sv[0]);
                    assert(models_of(sv) == seq![sv[0]@] + models_of(sv.drop_first()));
                    assert(models_of(ov).push(sv[0]@) + models_of(sv.drop_first())
                        =~= models_of(ov) + (seq![sv[0]@] + models_of(sv.drop_first())));
                    lemma_models_index(sv);
                    lemma_models_index(out@);
                    assert forall|k: int| 0 <= k < out@.len() implies good_chunk(
                        #[trigger] out@[k]@,
                    ) by {
                        if k == out@.len() - 1 {
                            assert(out@[k]@ == sv[0]@);
                            assert(models_of(sv)[0] == sv[0]@);
                        }
                    }
                }
            }
            proof {
                assert(models_of(subs@) =~= Seq::<ChunkModel>::empty());
                assert(models_of(out@) == pre_models + subs_models);
                assert(post_fold(rr, j as int, pre_models, fuel as nat) == post_fold(
                    rr,
                    j + 1,
                    pre_models + split_rec(c.text@, (fuel - 1) as nat),
                    fuel as nat,
                ));
            }
        } else {
            let ctext = copy_range(&c.text, 0, c.text.len());
            proof {
                assert(ctext@ =~= c.text@);
            }
            let copied = RawChunk {
                text: ctext,
                token_count: c.token_count,
                start_position: c.start_position,
            };
            let ghost ov = out@;
            out.push(copied);
            proof {
                assert(out@ == ov.push(copied));
                lemma_models_push(ov, copied);
                assert(copied@ =~= c@);
                assert(post_fold(rr, j as int, pre_models, fuel as nat) == post_fold(
                    rr,
                    j + 1,
                    pre_models.push(rr[j as int]),
                    fuel as nat,
                ));
                lemma_models_index(out@);
            }
        }
        j += 1;
    }
    proof {
        assert(post_fold(rr, rr.len() as int, models_of(out@), fuel as nat) == models_of(out@));
    }
    out
}

// --- the public splitter ----------------------------------------------------

/// A text chunk with metadata.
#[derive(Debug, Clone)]
pub struct TextChunk {
    /// The chunk's literal content, trimmed of leading and trailing white
    /// space.
    pub text: String,
    /// Estimated token cost of `text`, computed once at creation time.
    pub token_count: usize,
    /// Identifier of the source document; every chunk of one splitting pass
    /// carries the same identifier.
    pub document_id: String,
    /// Byte offset of the first occurrence of `text` in the split input, or
    /// 0 when the reassembled text does not occur literally.
    pub start_position: usize,
}

impl View for TextChunk {
    type V = TextChunkModel;

    open spec fn view(&self) -> TextChunkModel {
        TextChunkModel {
            text: self.text@,
            token_count: self.token_count as nat,
            document_id: self.document_id@,
            start_position: self.start_position as nat,
        }
    }
}

/// The models of a chunk sequence, in order.
pub open spec fn chunk_views(s: Seq<TextChunk>) -> Seq<TextChunkModel>
    decreases s.len(),
{
    if s.len() == 0 {
        Seq::<TextChunkModel>::empty()
    } else {
        seq![s[0]@] + chunk_views(s.drop_first())
    }
}

/// `chunk_views` is the element-wise view.
pub proof fn lemma_chunk_views_index(s: Seq<TextChunk>)
    ensures
        chunk_views(s).len() == s.len(),
        forall|i: int| 0 <= i < s.len() ==> chunk_views(s)[i] == s[i]@,
    decreases s.len(),
{
    if s.len() > 0 {
        lemma_chunk_views_index(s.drop_first());
        assert forall|i: int| 0 <= i < s.len() implies chunk_views(s)[i] == s[i]@ by {
            if i > 0 {
                assert(chunk_views(s)[i] == chunk_views(s.drop_first())[i - 1]);
                assert(s.drop_first()[i - 1] == s[i]);
            }
        }
    }
}

/// An empty input yields no chunks at any fuel.
pub proof fn lemma_split_empty_input(fuel: nat)
    ensures
        split_rec(Seq::<char>::empty(), fuel).len() == 0,
{
    let e = Seq::<char>::empty();
    assert(crate::textops::first_nn(e) == 0);
    assert(crate::textops::split_nn(e) == seq![e]);
    assert(trim(e).len() == 0) by {
        crate::chars::lemma_trim_is_trimmed(e);
    }
    assert(seq![e].drop_first() =~= Seq::<Seq<char>>::empty());
    assert(kept_pieces(Seq::<Seq<char>>::empty()) =~= Seq::<Seq<char>>::empty());
    assert(paragraphs_of(e) =~= Seq::<Seq<char>>::empty());
    let init = SplitAcc { chunks: Seq::empty(), buf: Seq::empty(), cnt: 0 };
    assert(par_fold(paragraphs_of(e), 0, init, e) == init);
    assert(split_pass(e) =~= Seq::<ChunkModel>::empty());
    assert(post_fold(split_pass(e), 0, Seq::empty(), fuel) =~= Seq::<ChunkModel>::empty());
}

/// Split a document's text into an ordered sequence of bounded, overlapping
/// chunks of roughly `TARGET_TOKENS` estimated tokens. Oversized chunks are
/// re-split recursively, to a bounded depth. The result is exactly the
/// sequence modelled by `spec_split_chunks`: splitting is deterministic, no
/// input ever fails, every chunk carries the given document id, its text is
/// trimmed and non-empty, and its token count is exactly the estimate of its
/// text.
pub fn split_into_chunks(text: &str, file_name: &str) -> (chunks: Vec<TextChunk>)
    requires
        text@.len() <= MAX_DOCUMENT_CHARS,
    ensures
        chunk_views(chunks@) == spec_split_chunks(text@, file_name@),
        forall|i: int|
            0 <= i < chunks@.len() ==> (#[trigger] chunks@[i]@).document_id == file_name@,
        forall|i: int|
            0 <= i < chunks@.len() ==> (#[trigger] chunks@[i]@).token_count == token_estimate(
                chunks@[i]@.text,
            ),
        forall|i: int|
            0 <= i < chunks@.len() ==> ((#[trigger] chunks@[i]@).text.len() > 0 && is_trimmed(
                chunks@[i]@.text,
            )),
        text@.len() == 0 ==> chunks@.len() == 0,
{
    let cv = chars_of(text);
    proof {
        assert(len_budget(MAX_SPLIT_DEPTH as nat) == MAX_DOCUMENT_CHARS as int);
    }
    let raw = split_rec_exec(&cv, MAX_SPLIT_DEPTH);
    let ghost models = models_of(raw@);
    let ghost id = file_name@;
    proof {
        lemma_models_index(raw@);
        assert(models.skip(0) =~= models);
    }
    let mut chunks: Vec<TextChunk> = Vec::new();
    let mut k: usize = 0;
    proof {
        assert(chunk_views(chunks@) =~= Seq::<TextChunkModel>::empty());
    }
    while k < raw.len()
        invariant
            k <= raw@.len(),
            id == file_name@,
            models == models_of(raw@),
            models == split_rec(text@, MAX_SPLIT_DEPTH as nat),
            models.len() == raw@.len(),
            forall|i: int| 0 <= i < raw@.len() ==> models[i] == raw@[i]@,
            forall|i: int| 0 <= i < models.len() ==> good_chunk(#[trigger] models[i]),
            stamp(models, id) == chunk_views(chunks@) + stamp(models.skip(k as int), id),
            chunks@.len() == k,
            forall|i: int| 0 <= i < chunks@.len() ==> (#[trigger] chunks@[i]@).document_id == id,
            forall|i: int|
                0 <= i < chunks@.len() ==> (#[trigger] chunks@[i]@).token_count == token_estimate(
                    chunks@[i]@.text,
                ),
            forall|i: int|
                0 <= i < chunks@.len() ==> ((#[trigger] chunks@[i]@).text.len() > 0 && is_trimmed(
                    chunks@[i]@.text,
                )),
        decreases raw@.len() - k,
    {
        let r = &raw[k];
        proof {
            assert(r@ == models[k as int]);
        }
        let tc = TextChunk {
            text: string_from_chars(&r.text),
            token_count: r.token_count,
            document_id: file_name.to_owned(),
            start_position: r.start_position,
        };
        let ghost pre = chunks@;
        proof {
            assert(tc@ =~= TextChunkModel {
                text: models[k as int].text,
                token_count: models[k as int].token_count,
                document_id: id,
                start_position: models[k as int].start_position,
            });
        }
        chunks.push(tc);
        proof {
            assert(chunks@ == pre.push(tc));
            lemma_chunk_views_index(pre);
            lemma_chunk_views_index(chunks@);
            assert forall|i: int| 0 <= i < chunks@.len() - 1 implies pre[i] == chunks@[i] by {}
            assert(chunk_views(chunks@) =~= chunk_views(pre).push(tc@));
            // one step of stamping
            let suffix = models.skip(k as int);
            assert(suffix[0] == models[k as int]);
            assert(suffix.drop_first() =~= models.skip(k + 1));
            assert(stamp(suffix, id) == seq![tc@] + stamp(models.skip(k + 1), id));
            assert(chunk_views(pre).push(tc@) + stamp(models.skip(k + 1), id) =~= chunk_views(pre)
                + (seq![tc@] + stamp(models.skip(k + 1), id)));
        }
        k += 1;
    }
    proof {
        assert(models.skip(models.len() as int) =~= Seq::<ChunkModel>::empty());
        assert(stamp(Seq::<ChunkModel>::empty(), id) =~= Seq::<TextChunkModel>::empty());
        assert(chunk_views(chunks@) + Seq::<TextChunkModel>::empty() =~= chunk_views(chunks@));
        if text@.len() == 0 {
            assert(text@ =~= Seq::<char>::empty());
            lemma_split_empty_input(MAX_SPLIT_DEPTH as nat);
        }
    }
    chunks
}

/// The splitter is deterministic: equal text and document id give an equal
/// chunk sequence.
pub proof fn lemma_split_deterministic(t1: Seq<char>, id1: Seq<char>, t2: Seq<char>, id2: Seq<char>)
    requires
        t1 == t2,
        id1 == id2,
    ensures
        spec_split_chunks(t1, id1) == spec_split_chunks(t2, id2),
{
}

// --- coverage law -----------------------------------------------------------

/// `sub` occurs contiguously somewhere in `hay`.
pub open spec fn contains_seq(hay: Seq<char>, sub: Seq<char>) -> bool {
    exists|off: int| occurs_at(hay, sub, off)
}

proof fn lemma_contains_extend(a: Seq<char>, b: Seq<char>, sub: Seq<char>)
    requires
        contains_seq(a, sub),
    ensures
        contains_seq(a + b, sub),
{
    let off = choose|off: int| occurs_at(a, sub, off);
    assert((a + b).subrange(off, off + sub.len() as int) =~= a.subrange(
        off,
        off + sub.len() as int,
    ));
    assert(occurs_at(a + b, sub, off));
}

proof fn lemma_contains_tail(a: Seq<char>, p: Seq<char>)
    ensures
        contains_seq(a + p, p),
{
    assert((a + p).subrange(a.len() as int, a.len() + p.len() as int) =~= p);
    assert(occurs_at(a + p, p, a.len() as int));
}

/// The running count always matches the buffer's estimate and stays within
/// one paragraph of the target.
spec fn acc_ok(acc: SplitAcc) -> bool {
    &&& acc.cnt == token_estimate(acc.buf)
    &&& acc.cnt <= 701
}

/// The paragraph `p` already stands in a closed, never-oversized chunk, or
/// still in the open buffer.
spec fn covered(acc: SplitAcc, p: Seq<char>) -> bool {
    (exists|k: int|
        0 <= k < acc.chunks.len() && (#[trigger] acc.chunks[k]).token_count <= 701 && contains_seq(
            acc.chunks[k].text,
            p,
        )) || contains_seq(acc.buf, p)
}

proof fn lemma_sent_fold_prefix(sents: Seq<Seq<char>>, i: int, acc: SplitAcc, text: Seq<char>)
    ensures
        sent_fold(sents, i, acc, text).chunks.len() >= acc.chunks.len(),
        forall|k: int|
            0 <= k < acc.chunks.len() ==> sent_fold(sents, i, acc, text).chunks[k]
                == acc.chunks[k],
    decreases sents.len() - i,
{
    if 0 <= i < sents.len() {
        let stepped = sent_step(acc, sents[i], text);
        assert(stepped.chunks.len() >= acc.chunks.len());
        assert(forall|k: int| 0 <= k < acc.chunks.len() ==> stepped.chunks[k] == acc.chunks[k]);
        lemma_sent_fold_prefix(sents, i + 1, stepped, text);
    }
}

proof fn lemma_sentence_mode_prefix(chunks: Seq<ChunkModel>, p: Seq<char>, text: Seq<char>)
    ensures
        sentence_mode(chunks, p, text).len() >= chunks.len(),
        forall|k: int| 0 <= k < chunks.len() ==> sentence_mode(chunks, p, text)[k] == chunks[k],
{
    let init = SplitAcc { chunks, buf: Seq::empty(), cnt: 0 };
    lemma_sent_fold_prefix(sentences_of(p), 0, init, text);
}

/// One paragraph step preserves the bookkeeping invariant and coverage.
proof fn lemma_par_step_covers(acc: SplitAcc, p: Seq<char>, text: Seq<char>, q: Seq<char>)
    requires
        acc_ok(acc),
        p.len() > 0,
        is_trimmed(p),
    ensures
        acc_ok(par_step(acc, p, text)),
        covered(acc, q) ==> covered(par_step(acc, p, text), q),
        token_estimate(p) <= TARGET_TOKENS && q == p ==> covered(par_step(acc, p, text), q),
{
    let pt = token_estimate(p);
    let stepped = par_step(acc, p, text);
    if pt > TARGET_TOKENS {
        lemma_sentence_mode_prefix(acc.chunks, p, text);
        assert(stepped.buf == acc.buf);
        assert(stepped.cnt == acc.cnt);
        if covered(acc, q) {
            if exists|k: int|
                0 <= k < acc.chunks.len() && (#[trigger] acc.chunks[k]).token_count <= 701
                    && contains_seq(acc.chunks[k].text, q) {
                let k = choose|k: int|
                    0 <= k < acc.chunks.len() && (#[trigger] acc.chunks[k]).token_count <= 701
                        && contains_seq(acc.chunks[k].text, q);
                assert(stepped.chunks[k] == acc.chunks[k]);
            }
        }
    } else {
        let acc1 = if acc.cnt + pt > TARGET_TOKENS && acc.buf.len() > 0 {
            let c = close_chunk(acc, text);
            SplitAcc {
                chunks: c.chunks,
                buf: if c.buf.len() > 0 {
                    c.buf + seq!['\n', '\n']
                } else {
                    c.buf
                },
                cnt: c.cnt,
            }
        } else {
            acc
        };
        let closed = acc.cnt + pt > TARGET_TOKENS && acc.buf.len() > 0;
        // bookkeeping through the close
        if closed {
            lemma_suffix_overlap(acc.buf);
            crate::tokens::lemma_est_core_bound(suffix_overlap(acc.buf), true);
            if suffix_overlap(acc.buf).len() > 0 {
                lemma_est_append_nn(suffix_overlap(acc.buf));
            }
            assert(acc1.cnt == token_estimate(acc1.buf));
            assert(acc1.cnt <= OVERLAP_CHARS + 1);
        }
        let buf2 = if acc1.buf.len() > 0 && !ends_nn(acc1.buf) {
            acc1.buf + seq!['\n', '\n']
        } else {
            acc1.buf
        };
        // bookkeeping through the append
        lemma_char_classes();
        if acc1.buf.len() > 0 && !ends_nn(acc1.buf) {
            lemma_est_append_nn(acc1.buf);
            lemma_est_append_direct(buf2, p);
        } else if acc1.buf.len() == 0 {
            assert(buf2 =~= Seq::<char>::empty());
            assert(buf2 + p =~= p);
            assert(token_estimate(buf2) == 0);
        } else {
            assert(is_white(acc1.buf[acc1.buf.len() - 1]));
            lemma_est_append_direct(buf2, p);
        }
        assert(stepped.buf == buf2 + p);
        assert(stepped.cnt == acc1.cnt + pt);
        assert(token_estimate(stepped.buf) == token_estimate(buf2) + pt);
        assert(token_estimate(buf2) == acc1.cnt);
        // the count stays small
        if closed {
            assert(stepped.cnt <= OVERLAP_CHARS + 1 + TARGET_TOKENS);
        } else {
            if acc.buf.len() == 0 {
                assert(acc.cnt == 0) by {
                    assert(acc.buf =~= Seq::<char>::empty());
                }
            }
            assert(stepped.cnt <= 701);
        }
        // coverage
        if covered(acc, q) {
            if exists|k: int|
                0 <= k < acc.chunks.len() && (#[trigger] acc.chunks[k]).token_count <= 701
                    && contains_seq(acc.chunks[k].text, q) {
                let k = choose|k: int|
                    0 <= k < acc.chunks.len() && (#[trigger] acc.chunks[k]).token_count <= 701
                        && contains_seq(acc.chunks[k].text, q);
                assert(stepped.chunks[k] == acc.chunks[k]);
            } else {
                assert(contains_seq(acc.buf, q));
                if closed {
                    // the buffer became a chunk whose count is the old count
                    let k = acc.chunks.len() as int;
                    assert(stepped.chunks[k].text == acc.buf);
                    assert(stepped.chunks[k].token_count == acc.cnt);
                } else {
                    lemma_contains_extend(acc.buf, seq!['\n', '\n'], q);
                    if acc.buf.len() > 0 && !ends_nn(acc.buf) {
                        assert(buf2 == acc.buf + seq!['\n', '\n']);
                    } else {
                        assert(buf2 == acc.buf);
                    }
                    lemma_contains_extend(buf2, p, q);
                }
            }
        }
        if q == p {
            lemma_contains_tail(buf2, p);
        }
    }
}

proof fn lemma_par_fold_covers(
    pars: Seq<Seq<char>>,
    i: int,
    acc: SplitAcc,
    text: Seq<char>,
    j: int,
)
    requires
        0 <= i <= pars.len(),
        forall|k: int| 0 <= k < pars.len() ==> (#[trigger] pars[k]).len() > 0 && is_trimmed(
            pars[k],
        ),
        acc_ok(acc),
        0 <= j < pars.len(),
        token_estimate(pars[j]) <= TARGET_TOKENS,
        j < i ==> covered(acc, pars[j]),
    ensures
        exists|k: int|
            0 <= k < par_flush(par_fold(pars, i, acc, text), text).len() && (#[trigger] par_flush(
                par_fold(pars, i, acc, text),
                text,
            )[k]).token_count <= 701 && contains_seq(
                par_flush(par_fold(pars, i, acc, text), text)[k].text,
                pars[j],
            ),
    decreases pars.len() - i,
{
    let p = pars[j];
    let result = par_flush(par_fold(pars, i, acc, text), text);
    if i == pars.len() {
        // flush
        assert(par_fold(pars, i, acc, text) == acc);
        assert(result == par_flush(acc, text));
        assert(covered(acc, p));
        if exists|k: int|
            0 <= k < acc.chunks.len() && (#[trigger] acc.chunks[k]).token_count <= 701
                && contains_seq(acc.chunks[k].text, p) {
            let k = choose|k: int|
                0 <= k < acc.chunks.len() && (#[trigger] acc.chunks[k]).token_count <= 701
                    && contains_seq(acc.chunks[k].text, p);
            assert(result[k] == acc.chunks[k]);
            assert(0 <= k < result.len() && (#[trigger] result[k]).token_count <= 701
                && contains_seq(result[k].text, p));
        } else {
            assert(contains_seq(acc.buf, p));
            let off = choose|off: int| occurs_at(acc.buf, p, off);
            assert(!is_white(p[0]));
            assert(acc.buf.subrange(off, off + p.len() as int) == p);
            assert(acc.buf[off] == p[0]) by {
                assert(acc.buf.subrange(off, off + p.len() as int)[0] == acc.buf[off]);
            }
            crate::chars::lemma_trim_empty_all_white(acc.buf);
            assert(trim(acc.buf).len() > 0);
            let k = acc.chunks.len() as int;
            assert(result[k].text == acc.buf);
            assert(result[k].token_count == acc.cnt);
            assert(0 <= k < result.len() && (#[trigger] result[k]).token_count <= 701
                && contains_seq(result[k].text, p));
        }
    } else {
        lemma_par_step_covers(acc, pars[i], text, p);
        let stepped = par_step(acc, pars[i], text);
        assert(par_fold(pars, i, acc, text) == par_fold(pars, i + 1, stepped, text));
        if j < i {
            assert(covered(stepped, p));
        } else if j == i {
            assert(covered(stepped, p));
        }
        lemma_par_fold_covers(pars, i + 1, stepped, text, j);
        let k = choose|k: int|
            0 <= k < par_flush(par_fold(pars, i + 1, stepped, text), text).len() && (
            #[trigger] par_flush(par_fold(pars, i + 1, stepped, text), text)[k]).token_count <= 701
                && contains_seq(par_flush(par_fold(pars, i + 1, stepped, text), text)[k].text, p);
        assert(0 <= k < result.len() && (#[trigger] result[k]).token_count <= 701 && contains_seq(
            result[k].text,
            p,
        ));
    }
}

proof fn lemma_post_fold_prefix(chunks: Seq<ChunkModel>, i: int, acc: Seq<ChunkModel>, fuel: nat)
    ensures
        post_fold(chunks, i, acc, fuel).len() >= acc.len(),
        forall|k: int| 0 <= k < acc.len() ==> post_fold(chunks, i, acc, fuel)[k] == acc[k],
    decreases fuel, 3nat, chunks.len() - i,
{
    if 0 <= i < chunks.len() {
        let c = chunks[i];
        if c.token_count > OVERSIZE_TOKENS && fuel > 0 {
            let acc2 = acc + split_rec(c.text, (fuel - 1) as nat);
            lemma_post_fold_prefix(chunks, i + 1, acc2, fuel);
            assert(forall|k: int| 0 <= k < acc.len() ==> acc2[k] == acc[k]);
        } else {
            lemma_post_fold_prefix(chunks, i + 1, acc.push(c), fuel);
            assert(forall|k: int| 0 <= k < acc.len() ==> acc.push(c)[k] == acc[k]);
        }
    }
}

proof fn lemma_post_fold_keeps(
    chunks: Seq<ChunkModel>,
    i: int,
    acc: Seq<ChunkModel>,
    fuel: nat,
    m: int,
)
    requires
        0 <= i <= m < chunks.len(),
        chunks[m].token_count <= OVERSIZE_TOKENS || fuel == 0,
    ensures
        exists|k: int|
            0 <= k < post_fold(chunks, i, acc, fuel).len() && #[trigger] post_fold(
                chunks,
                i,
                acc,
                fuel,
            )[k] == chunks[m],
    decreases m - i,
{
    let c = chunks[i];
    let result = post_fold(chunks, i, acc, fuel);
    if i == m {
        assert(!(c.token_count > OVERSIZE_TOKENS && fuel > 0));
        assert(result == post_fold(chunks, i + 1, acc.push(c), fuel));
        lemma_post_fold_prefix(chunks, i + 1, acc.push(c), fuel);
        let k = acc.len() as int;
        assert(result[k] == acc.push(c)[k]);
        assert(acc.push(c)[k] == c);
        assert(result.len() >= acc.push(c).len());
        assert(0 <= k < result.len() && #[trigger] result[k] == chunks[m]);
    } else {
        if c.token_count > OVERSIZE_TOKENS && fuel > 0 {
            let acc2 = acc + split_rec(c.text, (fuel - 1) as nat);
            assert(result == post_fold(chunks, i + 1, acc2, fuel));
            lemma_post_fold_keeps(chunks, i + 1, acc2, fuel, m);
            let k = choose|k: int|
                0 <= k < post_fold(chunks, i + 1, acc2, fuel).len() && #[trigger] post_fold(
                    chunks,
                    i + 1,
                    acc2,
                    fuel,
                )[k] == chunks[m];
            assert(0 <= k < result.len() && #[trigger] result[k] == chunks[m]);
        } else {
            assert(result == post_fold(chunks, i + 1, acc.push(c), fuel));
            lemma_post_fold_keeps(chunks, i + 1, acc.push(c), fuel, m);
            let k = choose|k: int|
                0 <= k < post_fold(chunks, i + 1, acc.push(c), fuel).len() && #[trigger] post_fold(
                    chunks,
                    i + 1,
                    acc.push(c),
                    fuel,
                )[k] == chunks[m];
            assert(0 <= k < result.len() && #[trigger] result[k] == chunks[m]);
        }
    }
}

proof fn lemma_stamp_index(s: Seq<ChunkModel>, id: Seq<char>)
    ensures
        stamp(s, id).len() == s.len(),
        forall|k: int|
            0 <= k < s.len() ==> (#[trigger] stamp(s, id)[k]).text == s[k].text && stamp(
                s,
                id,
            )[k].token_count == s[k].token_count && stamp(s, id)[k].document_id == id && stamp(
                s,
                id,
            )[k].start_position == s[k].start_position,
    decreases s.len(),
{
    if s.len() > 0 {
        lemma_stamp_index(s.drop_first(), id);
        assert forall|k: int| 0 <= k < s.len() implies (#[trigger] stamp(s, id)[k]).text
            == s[k].text && stamp(s, id)[k].token_count == s[k].token_count && stamp(s, id)[k].document_id
            == id && stamp(s, id)[k].start_position == s[k].start_position by {
            if k > 0 {
                assert(stamp(s, id)[k] == stamp(s.drop_first(), id)[k - 1]);
                assert(s.drop_first()[k - 1] == s[k]);
            }
        }
    }
}

/// No paragraph is silently dropped: every paragraph of the document whose
/// estimate is within the accumulation target occurs contiguously in the
/// text of some returned chunk. (A paragraph above the target is split into
/// sentences and re-terminated, so its literal text need not survive.)
pub proof fn lemma_paragraph_coverage(text: Seq<char>, id: Seq<char>, j: int)
    requires
        0 <= j < paragraphs_of(text).len(),
        token_estimate(paragraphs_of(text)[j]) <= TARGET_TOKENS,
    ensures
        exists|k: int|
            0 <= k < spec_split_chunks(text, id).len() && contains_seq(
                (#[trigger] spec_split_chunks(text, id)[k]).text,
                paragraphs_of(text)[j],
            ),
{
    let pars = paragraphs_of(text);
    lemma_kept_pieces_trimmed(crate::textops::split_nn(text));
    let init = SplitAcc { chunks: Seq::empty(), buf: Seq::empty(), cnt: 0 };
    assert(acc_ok(init)) by {
        assert(token_estimate(Seq::<char>::empty()) == 0);
    }
    lemma_par_fold_covers(pars, 0, init, text, j);
    let pass = split_pass(text);
    let m = choose|m: int|
        0 <= m < pass.len() && (#[trigger] pass[m]).token_count <= 701 && contains_seq(
            pass[m].text,
            pars[j],
        );
    assert(pass[m].token_count <= OVERSIZE_TOKENS);
    lemma_post_fold_keeps(pass, 0, Seq::empty(), MAX_SPLIT_DEPTH as nat, m);
    let rec = split_rec(text, MAX_SPLIT_DEPTH as nat);
    let k = choose|k: int| 0 <= k < rec.len() && #[trigger] rec[k] == pass[m];
    lemma_stamp_index(rec, id);
    assert(spec_split_chunks(text, id)[k].text == rec[k].text);
    assert(contains_seq(spec_split_chunks(text, id)[k].text, pars[j]));
}

// --- oversize law -----------------------------------------------------------

/// All but a bounded rest of the count is carried by one separator-free
/// fragment occurring in the text: the chunk cannot be split further along
/// sentence boundaries without leaving that fragment intact.
pub open spec fn atomic_overrun(text: Seq<char>, token_count: nat) -> bool {
    exists|s: Seq<char>, off: int|
        occurs_at(text, s, off) && sep_free(s) && token_estimate(s) + TARGET_TOKENS + 2
            >= token_count
}

/// What holds of every produced chunk: within the re-split threshold, or
/// oversized only on account of a single unbreakable sentence fragment.
pub open spec fn size_ok(c: ChunkModel) -> bool {
    c.token_count <= OVERSIZE_TOKENS || atomic_overrun(c.text, c.token_count)
}

/// Sentence-buffer invariant: the count matches the buffer, and is small or
/// witnessed by an unbreakable fragment.
spec fn sent_ok(acc: SplitAcc) -> bool {
    &&& acc.cnt == token_estimate(acc.buf)
    &&& (acc.cnt <= TARGET_TOKENS + 1 || atomic_overrun(acc.buf, acc.cnt))
}

proof fn lemma_sent_step_size(acc: SplitAcc, s: Seq<char>, text: Seq<char>)
    requires
        sent_ok(acc),
        forall|k: int| 0 <= k < acc.chunks.len() ==> size_ok(#[trigger] acc.chunks[k]),
        s.len() > 0,
        is_trimmed(s),
        sep_free(s),
    ensures
        sent_ok(sent_step(acc, s, text)),
        forall|k: int|
            0 <= k < sent_step(acc, s, text).chunks.len() ==> size_ok(
                #[trigger] sent_step(acc, s, text).chunks[k],
            ),
{
    let st = token_estimate(s);
    let closed = acc.cnt + st > TARGET_TOKENS && acc.buf.len() > 0;
    let acc1 = if closed {
        close_chunk(acc, text)
    } else {
        acc
    };
    let stepped = sent_step(acc, s, text);
    if closed {
        lemma_suffix_overlap(acc.buf);
        crate::tokens::lemma_est_core_bound(suffix_overlap(acc.buf), true);
        assert(acc1.cnt <= OVERLAP_CHARS + 1);
        // the emitted chunk inherits the buffer's witness, if it needed one
        let emitted = acc1.chunks[acc1.chunks.len() - 1];
        assert(emitted.text == acc.buf && emitted.token_count == acc.cnt);
        assert(size_ok(emitted));
        assert forall|k: int| 0 <= k < acc1.chunks.len() implies size_ok(
            #[trigger] acc1.chunks[k],
        ) by {
            if k < acc.chunks.len() {
                assert(acc1.chunks[k] == acc.chunks[k]);
            }
        }
    } else {
        if acc.buf.len() == 0 {
            assert(acc.buf =~= Seq::<char>::empty());
            assert(acc.cnt == 0);
        } else {
            assert(acc.cnt + st <= TARGET_TOKENS);
        }
    }
    // the append
    let buf2 = if acc1.buf.len() > 0 {
        acc1.buf + seq![' '] + s + seq!['.']
    } else {
        s + seq!['.']
    };
    if acc1.buf.len() > 0 {
        lemma_est_append_sentence(acc1.buf, s);
    } else {
        assert(acc1.buf =~= Seq::<char>::empty());
        assert(token_estimate(acc1.buf) == 0);
        lemma_est_first_sentence(s);
    }
    assert(stepped.cnt == token_estimate(stepped.buf));
    if closed {
        // count is at most the fragment's estimate plus overlap and period
        if acc1.buf.len() > 0 {
            let off = acc1.buf.len() + 1;
            assert((acc1.buf + seq![' '] + s + seq!['.']).subrange(off as int, off + s.len() as int)
                =~= s);
            assert(occurs_at(buf2, s, off as int));
        } else {
            assert(buf2 =~= s + seq!['.']);
            assert(buf2.subrange(0, s.len() as int) =~= s);
            assert(occurs_at(buf2, s, 0));
        }
        assert(atomic_overrun(buf2, stepped.cnt));
    } else if acc.buf.len() == 0 {
        assert(buf2 =~= s + seq!['.']);
        assert(buf2.subrange(0, s.len() as int) =~= s);
        assert(occurs_at(buf2, s, 0));
        assert(atomic_overrun(buf2, stepped.cnt));
    } else {
        assert(stepped.cnt <= TARGET_TOKENS + 1);
    }
}

proof fn lemma_sent_fold_size(sents: Seq<Seq<char>>, i: int, acc: SplitAcc, text: Seq<char>)
    requires
        0 <= i <= sents.len(),
        forall|k: int|
            0 <= k < sents.len() ==> (#[trigger] sents[k]).len() > 0 && is_trimmed(sents[k])
                && sep_free(sents[k]),
        sent_ok(acc),
        forall|k: int| 0 <= k < acc.chunks.len() ==> size_ok(#[trigger] acc.chunks[k]),
    ensures
        forall|k: int|
            0 <= k < sent_flush(sent_fold(sents, i, acc, text), text).len() ==> size_ok(
                #[trigger] sent_flush(sent_fold(sents, i, acc, text), text)[k],
            ),
    decreases sents.len() - i,
{
    if i == sents.len() {
        assert(sent_fold(sents, i, acc, text) == acc);
        let result = sent_flush(acc, text);
        assert forall|k: int| 0 <= k < result.len() implies size_ok(#[trigger] result[k]) by {
            if k < acc.chunks.len() {
                assert(result[k] == acc.chunks[k]);
            } else {
                assert(result[k].text == acc.buf && result[k].token_count == acc.cnt);
            }
        }
    } else {
        lemma_sent_step_size(acc, sents[i], text);
        let stepped = sent_step(acc, sents[i], text);
        assert(sent_fold(sents, i, acc, text) == sent_fold(sents, i + 1, stepped, text));
        lemma_sent_fold_size(sents, i + 1, stepped, text);
    }
}

proof fn lemma_sentence_mode_size(chunks: Seq<ChunkModel>, p: Seq<char>, text: Seq<char>)
    requires
        forall|k: int| 0 <= k < chunks.len() ==> size_ok(#[trigger] chunks[k]),
    ensures
        forall|k: int|
            0 <= k < sentence_mode(chunks, p, text).len() ==> size_ok(
                #[trigger] sentence_mode(chunks, p, text)[k],
            ),
{
    let ss = sentences_of(p);
    lemma_kept_pieces_trimmed(crate::textops::split_seps(p));
    crate::textops::lemma_split_seps_sep_free(p);
    crate::textops::lemma_kept_pieces_sep_free(crate::textops::split_seps(p));
    let init = SplitAcc { chunks, buf: Seq::empty(), cnt: 0 };
    assert(sent_ok(init)) by {
        assert(token_estimate(Seq::<char>::empty()) == 0);
    }
    lemma_sent_fold_size(ss, 0, init, text);
}

proof fn lemma_par_fold_size(pars: Seq<Seq<char>>, i: int, acc: SplitAcc, text: Seq<char>)
    requires
        0 <= i <= pars.len(),
        forall|k: int| 0 <= k < pars.len() ==> (#[trigger] pars[k]).len() > 0 && is_trimmed(
            pars[k],
        ),
        acc_ok(acc),
        forall|k: int| 0 <= k < acc.chunks.len() ==> size_ok(#[trigger] acc.chunks[k]),
    ensures
        forall|k: int|
            0 <= k < par_flush(par_fold(pars, i, acc, text), text).len() ==> size_ok(
                #[trigger] par_flush(par_fold(pars, i, acc, text), text)[k],
            ),
    decreases pars.len() - i,
{
    if i == pars.len() {
        assert(par_fold(pars, i, acc, text) == acc);
        let result = par_flush(acc, text);
        assert forall|k: int| 0 <= k < result.len() implies size_ok(#[trigger] result[k]) by {
            if k < acc.chunks.len() {
                assert(result[k] == acc.chunks[k]);
            } else {
                assert(result[k].token_count == acc.cnt);
            }
        }
    } else {
        let p = pars[i];
        let stepped = par_step(acc, p, text);
        lemma_par_step_covers(acc, p, text, p);
        assert(acc_ok(stepped));
        let pt = token_estimate(p);
        if pt > TARGET_TOKENS {
            lemma_sentence_mode_size(acc.chunks, p, text);
            assert(stepped.chunks == sentence_mode(acc.chunks, p, text));
        } else {
            let closed = acc.cnt + pt > TARGET_TOKENS && acc.buf.len() > 0;
            assert forall|k: int| 0 <= k < stepped.chunks.len() implies size_ok(
                #[trigger] stepped.chunks[k],
            ) by {
                if k < acc.chunks.len() {
                    assert(stepped.chunks[k] == acc.chunks[k]);
                } else {
                    assert(closed);
                    assert(stepped.chunks[k].token_count == acc.cnt);
                }
            }
        }
        assert(par_fold(pars, i, acc, text) == par_fold(pars, i + 1, stepped, text));
        lemma_par_fold_size(pars, i + 1, stepped, text);
    }
}

proof fn lemma_split_pass_size(text: Seq<char>)
    ensures
        forall|k: int|
            0 <= k < split_pass(text).len() ==> size_ok(#[trigger] split_pass(text)[k]),
{
    lemma_kept_pieces_trimmed(crate::textops::split_nn(text));
    let init = SplitAcc { chunks: Seq::empty(), buf: Seq::empty(), cnt: 0 };
    assert(acc_ok(init)) by {
        assert(token_estimate(Seq::<char>::empty()) == 0);
    }
    lemma_par_fold_size(paragraphs_of(text), 0, init, text);
}

proof fn lemma_post_fold_size(chunks: Seq<ChunkModel>, i: int, acc: Seq<ChunkModel>, fuel: nat)
    requires
        forall|k: int| 0 <= k < chunks.len() ==> size_ok(#[trigger] chunks[k]),
        forall|k: int| 0 <= k < acc.len() ==> size_ok(#[trigger] acc[k]),
    ensures
        forall|k: int|
            0 <= k < post_fold(chunks, i, acc, fuel).len() ==> size_ok(
                #[trigger] post_fold(chunks, i, acc, fuel)[k],
            ),
    decreases fuel, 3nat, chunks.len() - i,
{
    if 0 <= i < chunks.len() {
        let c = chunks[i];
        if c.token_count > OVERSIZE_TOKENS && fuel > 0 {
            lemma_split_rec_size(c.text, (fuel - 1) as nat);
            let subs = split_rec(c.text, (fuel - 1) as nat);
            let acc2 = acc + subs;
            assert forall|k: int| 0 <= k < acc2.len() implies size_ok(#[trigger] acc2[k]) by {
                if k < acc.len() {
                    assert(acc2[k] == acc[k]);
                } else {
                    assert(acc2[k] == subs[k - acc.len()]);
                }
            }
            lemma_post_fold_size(chunks, i + 1, acc2, fuel);
            assert(post_fold(chunks, i, acc, fuel) == post_fold(chunks, i + 1, acc2, fuel));
        } else {
            assert forall|k: int| 0 <= k < acc.push(c).len() implies size_ok(
                #[trigger] acc.push(c)[k],
            ) by {
                if k < acc.len() {
                    assert(acc.push(c)[k] == acc[k]);
                }
            }
            lemma_post_fold_size(chunks, i + 1, acc.push(c), fuel);
            assert(post_fold(chunks, i, acc, fuel) == post_fold(chunks, i + 1, acc.push(c), fuel));
        }
    } else {
        assert(post_fold(chunks, i, acc, fuel) == acc);
    }
}

proof fn lemma_split_rec_size(text: Seq<char>, fuel: nat)
    ensures
        forall|k: int|
            0 <= k < split_rec(text, fuel).len() ==> size_ok(#[trigger] split_rec(text, fuel)[k]),
    decreases fuel, 4nat, 0nat,
{
    lemma_split_pass_size(text);
    lemma_post_fold_size(split_pass(text), 0, Seq::empty(), fuel);
    assert(split_rec(text, fuel) == post_fold(split_pass(text), 0, Seq::empty(), fuel));
}

/// No returned chunk exceeds three times the accumulation target, unless a
/// single unbreakable sentence fragment inside it accounts for all but a
/// bounded rest of its count: such a chunk cannot be reduced by splitting on
/// sentence boundaries.
pub proof fn lemma_oversize_exception(text: Seq<char>, id: Seq<char>, k: int)
    requires
        0 <= k < spec_split_chunks(text, id).len(),
    ensures
        spec_split_chunks(text, id)[k].token_count <= OVERSIZE_TOKENS || atomic_overrun(
            spec_split_chunks(text, id)[k].text,
            spec_split_chunks(text, id)[k].token_count,
        ),
{
    let rec = split_rec(text, MAX_SPLIT_DEPTH as nat);
    lemma_split_rec_size(text, MAX_SPLIT_DEPTH as nat);
    lemma_stamp_index(rec, id);
    assert(size_ok(rec[k]));
    assert(spec_split_chunks(text, id)[k].text == rec[k].text);
    assert(spec_split_chunks(text, id)[k].token_count == rec[k].token_count);
}

// --- retention law ----------------------------------------------------------

proof fn lemma_occurs_trans(a: Seq<char>, b: Seq<char>, c: Seq<char>, o1: int, o2: int)
    requires
        occurs_at(a, b, o1),
        occurs_at(b, c, o2),
    ensures
        occurs_at(a, c, o1 + o2),
{
    assert(a.subrange(o1 + o2, o1 + o2 + c.len() as int) =~= b.subrange(o2, o2 + c.len() as int))
        by {
        assert(forall|x: int|
            0 <= x < b.len() ==> #[trigger] a.subrange(o1, o1 + b.len() as int)[x] == a[o1 + x]);
        assert(forall|x: int|
            0 <= x < c.len() ==> #[trigger] b.subrange(o2, o2 + c.len() as int)[x] == b[o2 + x]);
        assert(forall|x: int|
            0 <= x < c.len() ==> #[trigger] a.subrange(o1 + o2, o1 + o2 + c.len() as int)[x]
                == a[o1 + o2 + x]);
    }
}

/// The fragment stands in a closed chunk, or still in the open buffer.
spec fn retained(acc: SplitAcc, q: Seq<char>) -> bool {
    (exists|k: int|
        0 <= k < acc.chunks.len() && contains_seq((#[trigger] acc.chunks[k]).text, q))
        || contains_seq(acc.buf, q)
}

proof fn lemma_sent_step_retains(acc: SplitAcc, s: Seq<char>, text: Seq<char>, q: Seq<char>)
    requires
        s.len() > 0,
    ensures
        retained(acc, q) ==> retained(sent_step(acc, s, text), q),
        q == s ==> retained(sent_step(acc, s, text), q),
{
    let closed = acc.cnt + token_estimate(s) > TARGET_TOKENS && acc.buf.len() > 0;
    let acc1 = if closed {
        close_chunk(acc, text)
    } else {
        acc
    };
    let stepped = sent_step(acc, s, text);
    let buf2 = if acc1.buf.len() > 0 {
        acc1.buf + seq![' '] + s + seq!['.']
    } else {
        s + seq!['.']
    };
    assert(stepped.buf == buf2);
    if retained(acc, q) {
        if exists|k: int|
            0 <= k < acc.chunks.len() && contains_seq((#[trigger] acc.chunks[k]).text, q) {
            let k = choose|k: int|
                0 <= k < acc.chunks.len() && contains_seq((#[trigger] acc.chunks[k]).text, q);
            assert(stepped.chunks[k] == acc.chunks[k]);
            assert(contains_seq((stepped.chunks[k]).text, q));
        } else {
            assert(contains_seq(acc.buf, q));
            if closed {
                let k = acc.chunks.len() as int;
                assert(stepped.chunks[k].text == acc.buf);
                assert(contains_seq((stepped.chunks[k]).text, q));
            } else {
                // the buffer only grows at its end
                assert(acc1.buf == acc.buf);
                if acc1.buf.len() > 0 {
                    lemma_contains_extend(acc1.buf, seq![' '], q);
                    lemma_contains_extend(acc1.buf + seq![' '], s, q);
                    lemma_contains_extend(acc1.buf + seq![' '] + s, seq!['.'], q);
                } else {
                    assert(acc.buf.len() == 0);
                    let off = choose|off: int| occurs_at(acc.buf, q, off);
                    assert(q.len() == 0);
                    assert(buf2.subrange(0, 0) =~= q);
                    assert(occurs_at(buf2, q, 0));
                }
            }
        }
    }
    if q == s {
        if acc1.buf.len() > 0 {
            let pre = acc1.buf + seq![' '];
            assert((pre + s + seq!['.']).subrange(pre.len() as int, pre.len() + s.len() as int)
                =~= s);
            assert(occurs_at(buf2, s, pre.len() as int));
        } else {
            assert((s + seq!['.']).subrange(0, s.len() as int) =~= s);
            assert(occurs_at(buf2, s, 0));
        }
    }
}

proof fn lemma_sent_fold_retains(
    sents: Seq<Seq<char>>,
    i: int,
    acc: SplitAcc,
    text: Seq<char>,
    js: int,
)
    requires
        0 <= i <= sents.len(),
        forall|k: int| 0 <= k < sents.len() ==> (#[trigger] sents[k]).len() > 0,
        0 <= js < sents.len(),
        js < i ==> retained(acc, sents[js]),
    ensures
        exists|k: int|
            0 <= k < sent_flush(sent_fold(sents, i, acc, text), text).len() && contains_seq(
                (#[trigger] sent_flush(sent_fold(sents, i, acc, text), text)[k]).text,
                sents[js],
            ),
    decreases sents.len() - i,
{
    let q = sents[js];
    let result = sent_flush(sent_fold(sents, i, acc, text), text);
    if i == sents.len() {
        assert(sent_fold(sents, i, acc, text) == acc);
        assert(retained(acc, q));
        if exists|k: int|
            0 <= k < acc.chunks.len() && contains_seq((#[trigger] acc.chunks[k]).text, q) {
            let k = choose|k: int|
                0 <= k < acc.chunks.len() && contains_seq((#[trigger] acc.chunks[k]).text, q);
            assert(result[k] == acc.chunks[k]);
            assert(0 <= k < result.len() && contains_seq((#[trigger] result[k]).text, q));
        } else {
            assert(contains_seq(acc.buf, q));
            assert(q.len() > 0);
            let off = choose|off: int| occurs_at(acc.buf, q, off);
            assert(acc.buf.len() > 0);
            let k = acc.chunks.len() as int;
            assert(result[k].text == acc.buf);
            assert(0 <= k < result.len() && contains_seq((#[trigger] result[k]).text, q));
        }
    } else {
        lemma_sent_step_retains(acc, sents[i], text, q);
        let stepped = sent_step(acc, sents[i], text);
        assert(sent_fold(sents, i, acc, text) == sent_fold(sents, i + 1, stepped, text));
        if js < i + 1 {
            assert(retained(stepped, q));
        }
        lemma_sent_fold_retains(sents, i + 1, stepped, text, js);
        let k = choose|k: int|
            0 <= k < sent_flush(sent_fold(sents, i + 1, stepped, text), text).len()
                && contains_seq(
                (#[trigger] sent_flush(sent_fold(sents, i + 1, stepped, text), text)[k]).text,
                q,
            );
        assert(0 <= k < result.len() && contains_seq((#[trigger] result[k]).text, q));
    }
}

/// The chunks already closed survive, unchanged and in place, through the
/// rest of the paragraph fold and the final flush.
proof fn lemma_par_fold_chunks_grow(pars: Seq<Seq<char>>, i: int, acc: SplitAcc, text: Seq<char>)
    ensures
        par_flush(par_fold(pars, i, acc, text), text).len() >= acc.chunks.len(),
        forall|k: int|
            0 <= k < acc.chunks.len() ==> #[trigger] par_flush(par_fold(pars, i, acc, text), text)[k]
                == acc.chunks[k],
    decreases pars.len() - i,
{
    if 0 <= i < pars.len() {
        let stepped = par_step(acc, pars[i], text);
        assert(par_fold(pars, i, acc, text) == par_fold(pars, i + 1, stepped, text));
        if token_estimate(pars[i]) > TARGET_TOKENS {
            lemma_sentence_mode_prefix(acc.chunks, pars[i], text);
        }
        assert(stepped.chunks.len() >= acc.chunks.len());
        assert(forall|k: int|
            0 <= k < acc.chunks.len() ==> #[trigger] stepped.chunks[k] == acc.chunks[k]);
        lemma_par_fold_chunks_grow(pars, i + 1, stepped, text);
    } else {
        assert(par_fold(pars, i, acc, text) == acc);
    }
}

/// A fragment inside a sentence of an oversized paragraph ends up inside
/// some chunk of the pass.
proof fn lemma_par_fold_sentence(
    pars: Seq<Seq<char>>,
    i: int,
    acc: SplitAcc,
    text: Seq<char>,
    jp: int,
    q: Seq<char>,
)
    requires
        0 <= i <= jp < pars.len(),
        token_estimate(pars[jp]) > TARGET_TOKENS,
        exists|js: int|
            0 <= js < sentences_of(pars[jp]).len() && contains_seq(
                #[trigger] sentences_of(pars[jp])[js],
                q,
            ),
    ensures
        exists|k: int|
            0 <= k < par_flush(par_fold(pars, i, acc, text), text).len() && contains_seq(
                (#[trigger] par_flush(par_fold(pars, i, acc, text), text)[k]).text,
                q,
            ),
    decreases jp - i,
{
    let result = par_flush(par_fold(pars, i, acc, text), text);
    let stepped = par_step(acc, pars[i], text);
    assert(par_fold(pars, i, acc, text) == par_fold(pars, i + 1, stepped, text));
    if i == jp {
        let p = pars[jp];
        let ss = sentences_of(p);
        lemma_kept_pieces_trimmed(crate::textops::split_seps(p));
        let js = choose|js: int|
            0 <= js < ss.len() && contains_seq(#[trigger] ss[js], q);
        let init = SplitAcc { chunks: acc.chunks, buf: Seq::empty(), cnt: 0 };
        lemma_sent_fold_retains(ss, 0, init, text, js);
        let sm = sentence_mode(acc.chunks, p, text);
        let k = choose|k: int|
            0 <= k < sent_flush(sent_fold(ss, 0, init, text), text).len() && contains_seq(
                (#[trigger] sent_flush(sent_fold(ss, 0, init, text), text)[k]).text,
                ss[js],
            );
        assert(sm[k].text == sent_flush(sent_fold(ss, 0, init, text), text)[k].text);
        // the fragment sits inside the sentence, the sentence inside the chunk
        let o1 = choose|o1: int| occurs_at(sm[k].text, ss[js], o1);
        let o2 = choose|o2: int| occurs_at(ss[js], q, o2);
        lemma_occurs_trans(sm[k].text, ss[js], q, o1, o2);
        assert(contains_seq(sm[k].text, q));
        assert(stepped.chunks == sm);
        lemma_par_fold_chunks_grow(pars, i + 1, stepped, text);
        assert(result[k] == stepped.chunks[k]);
        assert(0 <= k < result.len() && contains_seq((#[trigger] result[k]).text, q));
    } else {
        lemma_par_fold_sentence(pars, i + 1, stepped, text, jp, q);
        let k = choose|k: int|
            0 <= k < par_flush(par_fold(pars, i + 1, stepped, text), text).len() && contains_seq(
                (#[trigger] par_flush(par_fold(pars, i + 1, stepped, text), text)[k]).text,
                q,
            );
        assert(0 <= k < result.len() && contains_seq((#[trigger] result[k]).text, q));
    }
}

/// A separator-free, trimmed fragment of the document survives the pass:
/// it occurs inside some produced chunk.
proof fn lemma_split_pass_retains(text: Seq<char>, s: Seq<char>)
    requires
        s.len() > 0,
        is_trimmed(s),
        sep_free(s),
        contains_seq(text, s),
    ensures
        exists|k: int|
            0 <= k < split_pass(text).len() && contains_seq(
                (#[trigger] split_pass(text)[k]).text,
                s,
            ),
{
    lemma_char_classes();
    assert(forall|x: int| 0 <= x < s.len() ==> s[x] != '\n');
    let off = choose|off: int| occurs_at(text, s, off);
    crate::textops::lemma_split_nn_no_straddle(text, s, off);
    let (j, off2) = choose|j: int, off2: int|
        0 <= j < crate::textops::split_nn(text).len() && #[trigger] occurs_at(
            crate::textops::split_nn(text)[j],
            s,
            off2,
        );
    crate::textops::lemma_kept_pieces_retain(crate::textops::split_nn(text), j, s, off2);
    let (jp, offp) = choose|jp: int, offp: int|
        0 <= jp < paragraphs_of(text).len() && #[trigger] occurs_at(
            paragraphs_of(text)[jp],
            s,
            offp,
        );
    let pars = paragraphs_of(text);
    let p = pars[jp];
    lemma_kept_pieces_trimmed(crate::textops::split_nn(text));
    let init = SplitAcc { chunks: Seq::empty(), buf: Seq::empty(), cnt: 0 };
    assert(split_pass(text) == par_flush(par_fold(pars, 0, init, text), text));
    if token_estimate(p) <= TARGET_TOKENS {
        assert(acc_ok(init)) by {
            assert(token_estimate(Seq::<char>::empty()) == 0);
        }
        lemma_par_fold_covers(pars, 0, init, text, jp);
        let k = choose|k: int|
            0 <= k < par_flush(par_fold(pars, 0, init, text), text).len() && (#[trigger] par_flush(
                par_fold(pars, 0, init, text),
                text,
            )[k]).token_count <= 701 && contains_seq(
                par_flush(par_fold(pars, 0, init, text), text)[k].text,
                p,
            );
        let chunk = split_pass(text)[k];
        let o1 = choose|o1: int| occurs_at(chunk.text, p, o1);
        lemma_occurs_trans(chunk.text, p, s, o1, offp);
        assert(0 <= k < split_pass(text).len() && contains_seq(
            (#[trigger] split_pass(text)[k]).text,
            s,
        ));
    } else {
        crate::textops::lemma_split_seps_no_straddle(p, s, offp);
        let (jf, off3) = choose|jf: int, off3: int|
            0 <= jf < crate::textops::split_seps(p).len() && #[trigger] occurs_at(
                crate::textops::split_seps(p)[jf],
                s,
                off3,
            );
        crate::textops::lemma_kept_pieces_retain(crate::textops::split_seps(p), jf, s, off3);
        let (js, offs) = choose|js: int, offs: int|
            0 <= js < sentences_of(p).len() && #[trigger] occurs_at(sentences_of(p)[js], s, offs);
        assert(contains_seq(sentences_of(p)[js], s));
        lemma_par_fold_sentence(pars, 0, init, text, jp, s);
        let k = choose|k: int|
            0 <= k < par_flush(par_fold(pars, 0, init, text), text).len() && contains_seq(
                (#[trigger] par_flush(par_fold(pars, 0, init, text), text)[k]).text,
                s,
            );
        assert(0 <= k < split_pass(text).len() && contains_seq(
            (#[trigger] split_pass(text)[k]).text,
            s,
        ));
    }
}

/// The sub-chunks of a re-split chunk all appear in the post-pass result.
proof fn lemma_post_fold_keeps_sub(
    chunks: Seq<ChunkModel>,
    i: int,
    acc: Seq<ChunkModel>,
    fuel: nat,
    m: int,
    idx: int,
)
    requires
        0 <= i <= m < chunks.len(),
        chunks[m].token_count > OVERSIZE_TOKENS,
        fuel > 0,
        0 <= idx < split_rec(chunks[m].text, (fuel - 1) as nat).len(),
    ensures
        exists|k: int|
            0 <= k < post_fold(chunks, i, acc, fuel).len() && #[trigger] post_fold(
                chunks,
                i,
                acc,
                fuel,
            )[k] == split_rec(chunks[m].text, (fuel - 1) as nat)[idx],
    decreases m - i,
{
    let c = chunks[i];
    let result = post_fold(chunks, i, acc, fuel);
    let target = split_rec(chunks[m].text, (fuel - 1) as nat)[idx];
    if i == m {
        let acc2 = acc + split_rec(c.text, (fuel - 1) as nat);
        assert(result == post_fold(chunks, i + 1, acc2, fuel));
        lemma_post_fold_prefix(chunks, i + 1, acc2, fuel);
        let k = acc.len() + idx;
        assert(acc2[k] == target);
        assert(result[k] == acc2[k]);
        assert(0 <= k < result.len() && #[trigger] result[k] == target);
    } else {
        if c.token_count > OVERSIZE_TOKENS && fuel > 0 {
            let acc2 = acc + split_rec(c.text, (fuel - 1) as nat);
            assert(result == post_fold(chunks, i + 1, acc2, fuel));
            lemma_post_fold_keeps_sub(chunks, i + 1, acc2, fuel, m, idx);
            let k = choose|k: int|
                0 <= k < post_fold(chunks, i + 1, acc2, fuel).len() && #[trigger] post_fold(
                    chunks,
                    i + 1,
                    acc2,
                    fuel,
                )[k] == target;
            assert(0 <= k < result.len() && #[trigger] result[k] == target);
        } else {
            assert(result == post_fold(chunks, i + 1, acc.push(c), fuel));
            lemma_post_fold_keeps_sub(chunks, i + 1, acc.push(c), fuel, m, idx);
            let k = choose|k: int|
                0 <= k < post_fold(chunks, i + 1, acc.push(c), fuel).len() && #[trigger] post_fold(
                    chunks,
                    i + 1,
                    acc.push(c),
                    fuel,
                )[k] == target;
            assert(0 <= k < result.len() && #[trigger] result[k] == target);
        }
    }
}

proof fn lemma_split_rec_retains(text: Seq<char>, fuel: nat, s: Seq<char>)
    requires
        s.len() > 0,
        is_trimmed(s),
        sep_free(s),
        contains_seq(text, s),
    ensures
        exists|k: int|
            0 <= k < split_rec(text, fuel).len() && contains_seq(
                (#[trigger] split_rec(text, fuel)[k]).text,
                s,
            ),
    decreases fuel,
{
    lemma_split_pass_retains(text, s);
    let pass = split_pass(text);
    let m = choose|m: int|
        0 <= m < pass.len() && contains_seq((#[trigger] pass[m]).text, s);
    let rec = split_rec(text, fuel);
    assert(rec == post_fold(pass, 0, Seq::empty(), fuel));
    if pass[m].token_count <= OVERSIZE_TOKENS || fuel == 0 {
        lemma_post_fold_keeps(pass, 0, Seq::empty(), fuel, m);
        let k = choose|k: int|
            0 <= k < post_fold(pass, 0, Seq::empty(), fuel).len() && #[trigger] post_fold(
                pass,
                0,
                Seq::empty(),
                fuel,
            )[k] == pass[m];
        assert(0 <= k < rec.len() && contains_seq((#[trigger] rec[k]).text, s));
    } else {
        lemma_split_rec_retains(pass[m].text, (fuel - 1) as nat, s);
        let idx = choose|idx: int|
            0 <= idx < split_rec(pass[m].text, (fuel - 1) as nat).len() && contains_seq(
                (#[trigger] split_rec(pass[m].text, (fuel - 1) as nat)[idx]).text,
                s,
            );
        lemma_post_fold_keeps_sub(pass, 0, Seq::empty(), fuel, m, idx);
        let k = choose|k: int|
            0 <= k < post_fold(pass, 0, Seq::empty(), fuel).len() && #[trigger] post_fold(
                pass,
                0,
                Seq::empty(),
                fuel,
            )[k] == split_rec(pass[m].text, (fuel - 1) as nat)[idx];
        assert(0 <= k < rec.len() && contains_seq((#[trigger] rec[k]).text, s));
    }
}

/// No separator-free content is ever lost: every trimmed fragment of the
/// document that holds no sentence boundary occurs contiguously in the text
/// of some returned chunk, whatever re-splitting took place.
pub proof fn lemma_fragment_retention(text: Seq<char>, id: Seq<char>, s: Seq<char>)
    requires
        s.len() > 0,
        is_trimmed(s),
        sep_free(s),
        contains_seq(text, s),
    ensures
        exists|k: int|
            0 <= k < spec_split_chunks(text, id).len() && contains_seq(
                (#[trigger] spec_split_chunks(text, id)[k]).text,
                s,
            ),
{
    lemma_split_rec_retains(text, MAX_SPLIT_DEPTH as nat, s);
    let rec = split_rec(text, MAX_SPLIT_DEPTH as nat);
    lemma_stamp_index(rec, id);
    let k = choose|k: int|
        0 <= k < rec.len() && contains_seq((#[trigger] rec[k]).text, s);
    assert(spec_split_chunks(text, id)[k].text == rec[k].text);
    assert(0 <= k < spec_split_chunks(text, id).len() && contains_seq(
        (#[trigger] spec_split_chunks(text, id)[k]).text,
        s,
    ));
}

/// Every sentence of every oversized paragraph occurs contiguously in some
/// returned chunk: together with the paragraph coverage law, no paragraph's
/// content is silently dropped.
pub proof fn lemma_sentence_coverage(text: Seq<char>, id: Seq<char>, jp: int, js: int)
    requires
        0 <= jp < paragraphs_of(text).len(),
        0 <= js < sentences_of(paragraphs_of(text)[jp]).len(),
    ensures
        exists|k: int|
            0 <= k < spec_split_chunks(text, id).len() && contains_seq(
                (#[trigger] spec_split_chunks(text, id)[k]).text,
                sentences_of(paragraphs_of(text)[jp])[js],
            ),
{
    let p = paragraphs_of(text)[jp];
    let s = sentences_of(p)[js];
    // the sentence is trimmed, non-empty and separator-free
    lemma_kept_pieces_trimmed(crate::textops::split_seps(p));
    crate::textops::lemma_split_seps_sep_free(p);
    crate::textops::lemma_kept_pieces_sep_free(crate::textops::split_seps(p));
    // the paragraph occurs in the text
    crate::textops::lemma_kept_pieces_origin(crate::textops::split_nn(text), jp);
    let jpiece = choose|j: int|
        0 <= j < crate::textops::split_nn(text).len() && paragraphs_of(text)[jp] == trim(
            #[trigger] crate::textops::split_nn(text)[j],
        );
    let piece = crate::textops::split_nn(text)[jpiece];
    crate::textops::lemma_split_nn_piece_occurs(text, jpiece);
    let opiece = choose|off: int| #[trigger] occurs_at(text, piece, off);
    crate::chars::lemma_trim_frame(piece);
    let a = choose|a: int|
        {
            &&& 0 <= a
            &&& a + trim(piece).len() <= piece.len()
            &&& trim(piece) == #[trigger] piece.subrange(a, a + trim(piece).len())
            &&& (forall|i: int| 0 <= i < a ==> is_white(piece[i]))
            &&& (forall|i: int| a + trim(piece).len() <= i < piece.len() ==> is_white(piece[i]))
        };
    assert(occurs_at(piece, p, a)) by {
        assert(piece.subrange(a, a + p.len() as int) == p);
    }
    lemma_occurs_trans(text, piece, p, opiece, a);
    // the sentence occurs in the paragraph
    crate::textops::lemma_kept_pieces_origin(crate::textops::split_seps(p), js);
    let jfrag = choose|j: int|
        0 <= j < crate::textops::split_seps(p).len() && sentences_of(p)[js] == trim(
            #[trigger] crate::textops::split_seps(p)[j],
        );
    let frag = crate::textops::split_seps(p)[jfrag];
    crate::textops::lemma_split_seps_piece_occurs(p, jfrag);
    let ofrag = choose|off: int| #[trigger] occurs_at(p, frag, off);
    crate::chars::lemma_trim_frame(frag);
    let af = choose|af: int|
        {
            &&& 0 <= af
            &&& af + trim(frag).len() <= frag.len()
            &&& trim(frag) == #[trigger] frag.subrange(af, af + trim(frag).len())
            &&& (forall|i: int| 0 <= i < af ==> is_white(frag[i]))
            &&& (forall|i: int| af + trim(frag).len() <= i < frag.len() ==> is_white(frag[i]))
        };
    assert(occurs_at(frag, s, af)) by {
        assert(frag.subrange(af, af + s.len() as int) == s);
    }
    lemma_occurs_trans(p, frag, s, ofrag, af);
    let op = choose|op: int| occurs_at(text, p, op);
    let os = choose|os: int| occurs_at(p, s, os);
    lemma_occurs_trans(text, p, s, op, os);
    lemma_fragment_retention(text, id, s);
}

} // verus!
