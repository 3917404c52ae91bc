//! Documents and whitespace normalization. Reading a document from disk and
//! extracting text from binary formats happen outside this library; here the
//! content is plain text.

use crate::chars::{chars_of, string_from_chars, trim, trim_chars};
use vstd::prelude::*;

verus! {

/// A document with its content and metadata.
#[derive(Debug, Clone)]
pub struct Document {
    /// The text content of the document.
    pub content: String,
    /// The document's file name, used as its identifier.
    pub document_id: String,
    /// The document's MIME type.
    pub mime_type: String,
}

/// State of the normalization scan: output so far, the previous
/// non-line-break character, and the length of the current line-break run.
#[verifier::ext_equal]
pub ghost struct NormState {
    pub out: Seq<char>,
    pub prev: char,
    pub nl: nat,
}

/// One character of the scan: carriage returns are dropped, line-break runs
/// are collapsed to at most a blank line, and runs of spaces to one space.
pub open spec fn norm_step(st: NormState, c: char) -> NormState {
    if c == '\r' {
        st
    } else if c == '\n' {
        NormState { out: st.out, prev: st.prev, nl: st.nl + 1 }
    } else {
        let out1 = if st.nl >= 2 {
            st.out + seq!['\n', '\n']
        } else if st.nl == 1 {
            st.out + seq!['\n']
        } else {
            st.out
        };
        let out2 = if c == ' ' && st.prev == ' ' {
            out1
        } else {
            out1.push(c)
        };
        NormState { out: out2, prev: c, nl: 0 }
    }
}

pub open spec fn norm_fold(s: Seq<char>, i: int, st: NormState) -> NormState
    decreases s.len() - i,
{
    if i < 0 || i >= s.len() {
        st
    } else {
        norm_fold(s, i + 1, norm_step(st, s[i]))
    }
}

/// A trailing line-break run is flushed at the end of the scan.
pub open spec fn norm_finish(st: NormState) -> Seq<char> {
    if st.nl >= 2 {
        st.out + seq!['\n', '\n']
    } else if st.nl == 1 {
        st.out + seq!['\n']
    } else {
        st.out
    }
}

/// The normalized form of a text: carriage returns removed, line-break runs
/// collapsed (two or more become a paragraph break), consecutive spaces
/// collapsed, and the result trimmed.
pub open spec fn normalized_text(s: Seq<char>) -> Seq<char> {
    trim(norm_finish(norm_fold(s, 0, NormState { out: Seq::empty(), prev: ' ', nl: 0 })))
}

/// Normalize whitespace in a text: remove carriage returns, collapse runs of
/// line breaks (two or more become one paragraph break), collapse runs of
/// spaces to a single space, and trim the result.
pub fn normalize_whitespace(text: &str) -> (r: String)
    ensures
        r@ == normalized_text(text@),
{
    let ghost s = text@;
    let ghost init = NormState { out: Seq::empty(), prev: ' ', nl: 0 };
    let v = chars_of(text);
    let n = v.len();
    let mut out: Vec<char> = Vec::new();
    let mut prev: char = ' ';
    let mut nl: usize = 0;
    let mut i: usize = 0;
    proof {
        assert(out@ =~= Seq::<char>::empty());
    }
    while i < n
        invariant
            i <= n,
            n == v@.len(),
            v@ == s,
            nl <= i,
            norm_fold(s, 0, init) == norm_fold(
                s,
                i as int,
                NormState { out: out@, prev: prev, nl: nl as nat },
            ),
        decreases n - i,
    {
        let ghost st = NormState { out: out@, prev: prev, nl: nl as nat };
        let c = v[i];
        if c == '\r' {
            // dropped
        } else if c == '\n' {
            nl += 1;
        } else {
            if nl >= 2 {
                out.push('\n');
                out.push('\n');
                proof {
                    assert(out@ =~= st.out + seq!['\n', '\n']);
                }
            } else if nl == 1 {
                out.push('\n');
                proof {
                    assert(out@ =~= st.out + seq!['\n']);
                }
            }
            if !(c == ' ' && prev == ' ') {
                out.push(c);
            }
            prev = c;
            nl = 0;
        }
        proof {
            let stepped = norm_step(st, s[i as int]);
            assert(NormState { out: out@, prev: prev, nl: nl as nat } =~= stepped);
            assert(norm_fold(s, i as int, st) == norm_fold(s, i + 1, stepped));
        }
        i += 1;
    }
    let ghost folded = NormState { out: out@, prev: prev, nl: nl as nat };
    if nl >= 2 {
        out.push('\n');
        out.push('\n');
        proof {
            assert(out@ =~= norm_finish(folded));
        }
    } else if nl == 1 {
        out.push('\n');
        proof {
            assert(out@ =~= norm_finish(folded));
        }
    } else {
        proof {
            assert(out@ =~= norm_finish(folded));
        }
    }
    let trimmed = trim_chars(&out);
    string_from_chars(&trimmed)
}

} // verus!
