//! Context enrichment: building the enrichment prompt for a chunk and
//! forming the enriched chunk from the generated context. The external
//! generation call itself, and the sleep that the rate limiter may demand,
//! live outside this library; the caller passes the generated text in.

use crate::chars::{chars_of, string_from_chars, trim, trim_chars};
use crate::chunking::TextChunk;
use crate::tokens::{token_count_chars, token_estimate};
use vstd::prelude::*;
use vstd::string::StringExecFns;

verus! {

/// A chunk with prepended contextual information.
#[derive(Debug, Clone)]
pub struct ContextualizedChunk {
    /// The original chunk, unchanged.
    pub original_chunk: TextChunk,
    /// The chunk text with its situating context prepended.
    pub contextualized_text: String,
    /// Token estimate of the contextualized text.
    pub token_count: usize,
}

/// The prompt asking the generation service to situate a chunk within its
/// document.
pub fn build_context_prompt(source_document: &str, chunk_text: &str) -> (r: String)
    ensures
        r@ == "<document>\n"@ + source_document@ + "\n</document>\nHere is the chunk we want to situate within the whole document\n<chunk>\n"@
            + chunk_text@
            + "\n</chunk>\nPlease give a short succinct context to situate this chunk within the overall document for the purposes of improving search retrieval of the chunk. Answer only with the succinct context and nothing else."@,
{
    let mut r = String::new();
    r.append("<document>\n");
    r.append(source_document);
    r.append(
        "\n</document>\nHere is the chunk we want to situate within the whole document\n<chunk>\n",
    );
    r.append(chunk_text);
    r.append(
        "\n</chunk>\nPlease give a short succinct context to situate this chunk within the overall document for the purposes of improving search retrieval of the chunk. Answer only with the succinct context and nothing else.",
    );
    r
}

/// Enrich a chunk for an empty source document: a fixed placeholder context
/// is prepended and no external call is needed. The original chunk is kept,
/// and the token count is the estimate of the new text.
pub fn contextualize_standalone(chunk: TextChunk) -> (r: ContextualizedChunk)
    requires
        chunk.text@.len() <= usize::MAX / 2,
    ensures
        r.contextualized_text@ == "Context: This is a standalone text excerpt.\n\n"@
            + chunk.text@,
        r.token_count == token_estimate(r.contextualized_text@),
        r.original_chunk == chunk,
{
    let mut text = String::new();
    text.append("Context: This is a standalone text excerpt.\n\n");
    text.append(chunk.text.as_str());
    proof {
        reveal_strlit("Context: This is a standalone text excerpt.\n\n");
    }
    let tv = chars_of(text.as_str());
    let token_count = token_count_chars(&tv);
    ContextualizedChunk { original_chunk: chunk, contextualized_text: text, token_count }
}

/// Enrich a chunk with a generated context: the trimmed context is
/// prepended as `Context: {context}\n\n{chunk text}`. The original chunk is
/// kept, and the token count is the estimate of the new text.
pub fn contextualize_with(chunk: TextChunk, generated_context: &str) -> (r: ContextualizedChunk)
    requires
        chunk.text@.len() <= usize::MAX / 4,
        generated_context@.len() <= usize::MAX / 4,
    ensures
        r.contextualized_text@ == "Context: "@ + trim(generated_context@) + "\n\n"@
            + chunk.text@,
        r.token_count == token_estimate(r.contextualized_text@),
        r.original_chunk == chunk,
{
    let gv = chars_of(generated_context);
    let gt = trim_chars(&gv);
    let trimmed = string_from_chars(&gt);
    let mut text = String::new();
    text.append("Context: ");
    text.append(trimmed.as_str());
    text.append("\n\n");
    text.append(chunk.text.as_str());
    proof {
        reveal_strlit("Context: ");
        reveal_strlit("\n\n");
    }
    let tv = chars_of(text.as_str());
    let token_count = token_count_chars(&tv);
    ContextualizedChunk { original_chunk: chunk, contextualized_text: text, token_count }
}

} // verus!
