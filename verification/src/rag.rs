//! Retrieval plumbing that is pure: joining retrieved chunk texts into the
//! context handed to the generation service. Embedding, search and the
//! interactive loop live outside this library.

use crate::chunking::TextChunk;
use vstd::prelude::*;
use vstd::string::StringExecFns;

verus! {

/// The texts of a chunk sequence, in order.
pub open spec fn texts_of(s: Seq<TextChunk>) -> Seq<Seq<char>>
    decreases s.len(),
{
    if s.len() == 0 {
        Seq::<Seq<char>>::empty()
    } else {
        seq![s[0]@.text] + texts_of(s.drop_first())
    }
}

/// Texts joined by blank lines.
pub open spec fn joined_texts(ts: Seq<Seq<char>>) -> Seq<char>
    decreases ts.len(),
{
    if ts.len() == 0 {
        Seq::<char>::empty()
    } else if ts.len() == 1 {
        ts[0]
    } else {
        ts[0] + seq!['\n', '\n'] + joined_texts(ts.drop_first())
    }
}

proof fn lemma_texts_of_index(s: Seq<TextChunk>)
    ensures
        texts_of(s).len() == s.len(),
        forall|i: int| 0 <= i < s.len() ==> texts_of(s)[i] == s[i]@.text,
    decreases s.len(),
{
    if s.len() > 0 {
        lemma_texts_of_index(s.drop_first());
        assert forall|i: int| 0 <= i < s.len() implies texts_of(s)[i] == s[i]@.text by {
            if i > 0 {
                assert(texts_of(s)[i] == texts_of(s.drop_first())[i - 1]);
                assert(s.drop_first()[i - 1] == s[i]);
            }
        }
    }
}

proof fn lemma_joined_snoc(ts: Seq<Seq<char>>, t: Seq<char>)
    requires
        ts.len() > 0,
    ensures
        joined_texts(ts.push(t)) == joined_texts(ts) + seq!['\n', '\n'] + t,
    decreases ts.len(),
{
    if ts.len() == 1 {
        assert(ts.push(t)[0] == ts[0]);
        assert(ts.push(t).drop_first() =~= seq![t]);
        assert(joined_texts(seq![t]) == t);
        assert(joined_texts(ts.push(t)) == ts[0] + seq!['\n', '\n'] + t);
        assert(joined_texts(ts) == ts[0]);
    } else {
        assert(ts.push(t)[0] == ts[0]);
        assert(ts.push(t).drop_first() =~= ts.drop_first().push(t));
        lemma_joined_snoc(ts.drop_first(), t);
        assert(ts[0] + seq!['\n', '\n'] + (joined_texts(ts.drop_first()) + seq!['\n', '\n'] + t)
            =~= (ts[0] + seq!['\n', '\n'] + joined_texts(ts.drop_first())) + seq!['\n', '\n'] + t);
    }
}

/// Join the texts of retrieved chunks with blank lines, forming the context
/// for answer generation.
pub fn join_chunk_texts(chunks: &Vec<TextChunk>) -> (r: String)
    ensures
        r@ == joined_texts(texts_of(chunks@)),
{
    let ghost ts = texts_of(chunks@);
    proof {
        lemma_texts_of_index(chunks@);
    }
    let mut r = String::new();
    let mut i: usize = 0;
    while i < chunks.len()
        invariant
            i <= chunks@.len(),
            ts == texts_of(chunks@),
            ts.len() == chunks@.len(),
            forall|j: int| 0 <= j < chunks@.len() ==> ts[j] == chunks@[j]@.text,
            r@ == joined_texts(ts.subrange(0, i as int)),
        decreases chunks@.len() - i,
    {
        if i > 0 {
            r.append("\n\n");
            proof {
                reveal_strlit("\n\n");
            }
        }
        r.append(chunks[i].text.as_str());
        proof {
            let pre = ts.subrange(0, i as int);
            let cur = ts.subrange(0, i + 1);
            assert(cur =~= pre.push(ts[i as int]));
            if i > 0 {
                lemma_joined_snoc(pre, ts[i as int]);
                assert(r@ == joined_texts(pre) + "\n\n"@ + chunks@[i as int]@.text);
                assert("\n\n"@ =~= seq!['\n', '\n']);
            } else {
                assert(pre =~= Seq::<Seq<char>>::empty());
                assert(joined_texts(pre) =~= Seq::<char>::empty());
                assert(cur =~= seq![ts[0]]);
                assert(joined_texts(cur) == ts[0]);
                assert(r@ =~= ts[0]);
            }
        }
        i += 1;
    }
    proof {
        assert(ts.subrange(0, ts.len() as int) =~= ts);
    }
    r
}

} // verus!
