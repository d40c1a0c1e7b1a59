//! Static-site full-text search: field extraction from parsed documents, a
//! shared tokenizer, an inverted-index builder, query matching (exact,
//! prefix and one-edit fuzzy), ranking by score with a threshold and a
//! limit, and snippet extraction, with their behaviour proved.
//!
//! Scores themselves are floating-point BM25 values computed by the caller
//! from each candidate's hits; the ranking takes them as keys that order as
//! the scores do.

pub mod builder;
pub mod extract;
pub mod fuzzy;
pub mod laws;
mod lemmas;
pub mod model;
pub mod options;
pub mod query;
pub mod rank;
pub mod snippet;
mod text;
pub mod tokenizer;
pub mod validate;
