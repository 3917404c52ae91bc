use gemini_rag::chunking::TextChunk;
use gemini_rag::context::{build_context_prompt, contextualize_standalone, contextualize_with};
use gemini_rag::database::get_collection_name;
use gemini_rag::gemini::{
    answer_prompt, embed_url, extract_generated_text, generate_url, Candidate, Content,
    GenerateResponse, ResponseContent, ResponsePart,
};
use gemini_rag::rag::join_chunk_texts;
use gemini_rag::tokens::estimate_token_count;

fn chunk(text: &str) -> TextChunk {
    TextChunk {
        text: text.to_string(),
        token_count: estimate_token_count(text),
        document_id: "doc.txt".to_string(),
        start_position: 0,
    }
}

#[test]
fn collection_name_lowercases_and_underscores() {
    assert_eq!(get_collection_name("My File.txt"), "rag_my_file_txt");
    assert_eq!(get_collection_name("ABC-123.pdf"), "rag_abc_123_pdf");
    assert_eq!(get_collection_name(""), "rag_");
    // Unicode letters survive and are lowercased.
    assert_eq!(get_collection_name("\u{c9}cho \u{dc}ber.txt"), "rag_\u{e9}cho_\u{fc}ber_txt");
}

#[test]
fn urls_are_shaped_for_the_service() {
    assert_eq!(
        embed_url("https://api.example", "models/embed-1", "SECRET"),
        "https://api.example/models/embed-1:embedContent?key=SECRET"
    );
    assert_eq!(
        generate_url("https://api.example", "models/gen-1", "SECRET"),
        "https://api.example/models/gen-1:generateContent?key=SECRET"
    );
}

#[test]
fn answer_prompt_is_shaped() {
    assert_eq!(
        answer_prompt("some facts", "what now?"),
        "Context: some facts\n\nQuestion: what now?"
    );
}

#[test]
fn context_prompt_embeds_document_and_chunk() {
    let p = build_context_prompt("DOC BODY", "CHUNK BODY");
    assert!(p.starts_with("<document>\nDOC BODY\n</document>\n"));
    assert!(p.contains("<chunk>\nCHUNK BODY\n</chunk>\n"));
    assert!(p.ends_with("Answer only with the succinct context and nothing else."));
}

#[test]
fn standalone_contextualization_uses_placeholder() {
    let c = contextualize_standalone(chunk("Hello world."));
    assert_eq!(
        c.contextualized_text,
        "Context: This is a standalone text excerpt.\n\nHello world."
    );
    assert_eq!(c.token_count, estimate_token_count(&c.contextualized_text));
    assert_eq!(c.original_chunk.text, "Hello world.");
}

#[test]
fn contextualization_prepends_trimmed_context() {
    let c = contextualize_with(chunk("Body text."), "  situating summary \n");
    assert_eq!(
        c.contextualized_text,
        "Context: situating summary\n\nBody text."
    );
    assert_eq!(c.token_count, estimate_token_count(&c.contextualized_text));
    assert_eq!(c.original_chunk.document_id, "doc.txt");
}

#[test]
fn extract_takes_first_part_of_first_candidate() {
    let resp = GenerateResponse {
        candidates: vec![
            Candidate {
                content: ResponseContent {
                    parts: vec![
                        ResponsePart { text: "first".to_string() },
                        ResponsePart { text: "second".to_string() },
                    ],
                },
            },
            Candidate { content: ResponseContent { parts: vec![] } },
        ],
    };
    assert_eq!(extract_generated_text(resp), Some("first".to_string()));
}

#[test]
fn extract_handles_missing_candidates_and_parts() {
    assert_eq!(extract_generated_text(GenerateResponse { candidates: vec![] }), None);
    let resp = GenerateResponse {
        candidates: vec![Candidate { content: ResponseContent { parts: vec![] } }],
    };
    assert_eq!(extract_generated_text(resp), None);
}

#[test]
fn content_holds_one_part_with_role() {
    let c = Content::new_with_role("hi there", "user");
    assert_eq!(c.parts.len(), 1);
    assert_eq!(c.parts[0].text, "hi there");
    assert_eq!(c.role, "user");
}

#[test]
fn joined_texts_use_blank_line_separators() {
    let chunks = vec![chunk("alpha"), chunk("beta"), chunk("gamma")];
    assert_eq!(join_chunk_texts(&chunks), "alpha\n\nbeta\n\ngamma");
    let one = vec![chunk("only")];
    assert_eq!(join_chunk_texts(&one), "only");
    let none: Vec<TextChunk> = vec![];
    assert_eq!(join_chunk_texts(&none), "");
}
