//! Request and response shaping for the generation service: URL and prompt
//! construction and response extraction. The HTTP calls themselves live
//! outside this library; these functions take and return plain values.

use vstd::prelude::*;
use vstd::string::StringExecFns;

verus! {

/// Configuration for the generation service.
#[derive(Clone)]
pub struct GeminiConfig {
    pub api_key: String,
    pub base_url: String,
    pub embedding_model: String,
    pub generate_model: String,
    pub contextualize_model: String,
}

/// One text part of a request.
#[derive(Debug, Clone)]
pub struct Part {
    pub text: String,
}

/// A role-tagged content block of a generation request.
#[derive(Debug, Clone)]
pub struct Content {
    pub parts: Vec<Part>,
    pub role: String,
}

impl Content {
    /// A content block holding a single text part under the given role.
    pub fn new_with_role(text: &str, role: &str) -> (c: Content)
        ensures
            c.parts@.len() == 1,
            c.parts@[0].text@ == text@,
            c.role@ == role@,
    {
        let part = Part { text: text.to_owned() };
        let mut parts: Vec<Part> = Vec::new();
        parts.push(part);
        Content { parts, role: role.to_owned() }
    }
}

/// One text part of a generation response.
#[derive(Debug, Clone)]
pub struct ResponsePart {
    pub text: String,
}

/// The content of one response candidate.
#[derive(Debug, Clone)]
pub struct ResponseContent {
    pub parts: Vec<ResponsePart>,
}

/// One candidate of a generation response.
#[derive(Debug, Clone)]
pub struct Candidate {
    pub content: ResponseContent,
}

/// A parsed generation response.
#[derive(Debug, Clone)]
pub struct GenerateResponse {
    pub candidates: Vec<Candidate>,
}

/// The generated text of a response: the first part of the first candidate,
/// or nothing when either is missing.
pub fn extract_generated_text(resp: GenerateResponse) -> (r: Option<String>)
    ensures
        (r is Some <==> resp.candidates@.len() > 0
            && resp.candidates@[0].content.parts@.len() > 0),
        r is Some ==> r->Some_0@ == resp.candidates@[0].content.parts@[0].text@,
{
    let mut cands = resp.candidates;
    if cands.len() == 0 {
        return None;
    }
    let c = cands.remove(0);
    let mut parts = c.content.parts;
    if parts.len() == 0 {
        return None;
    }
    let p = parts.remove(0);
    Some(p.text)
}

/// URL of the embedding endpoint: `{base}/{model}:embedContent?key={key}`.
pub fn embed_url(base_url: &str, model: &str, api_key: &str) -> (r: String)
    ensures
        r@ == base_url@ + "/"@ + model@ + ":embedContent?key="@ + api_key@,
{
    let mut r = String::new();
    r.append(base_url);
    r.append("/");
    r.append(model);
    r.append(":embedContent?key=");
    r.append(api_key);
    r
}

/// URL of the generation endpoint: `{base}/{model}:generateContent?key={key}`.
pub fn generate_url(base_url: &str, model: &str, api_key: &str) -> (r: String)
    ensures
        r@ == base_url@ + "/"@ + model@ + ":generateContent?key="@ + api_key@,
{
    let mut r = String::new();
    r.append(base_url);
    r.append("/");
    r.append(model);
    r.append(":generateContent?key=");
    r.append(api_key);
    r
}

/// Prompt for answering a question over retrieved context:
/// `Context: {context}\n\nQuestion: {question}`.
pub fn answer_prompt(context: &str, question: &str) -> (r: String)
    ensures
        r@ == "Context: "@ + context@ + "\n\nQuestion: "@ + question@,
{
    let mut r = String::new();
    r.append("Context: ");
    r.append(context);
    r.append("\n\nQuestion: ");
    r.append(question);
    r
}

} // verus!
