//! Core of a retrieval-augmented document pipeline: token estimation,
//! chunk splitting with overlap continuity, a sliding-window rate limiter,
//! whitespace normalization, and the pure request-shaping helpers around them.
//! All I/O (file reading, HTTP calls, vector-index access) lives outside this
//! library; it receives plain text and numeric limits only.

pub mod chars;
pub mod tokens;
pub mod limiter;
pub mod textops;
pub mod chunking;
pub mod document;
pub mod database;
pub mod gemini;
pub mod context;
pub mod rag;
