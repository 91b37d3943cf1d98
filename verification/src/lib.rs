//! A small relevance-ranking library: BM25 scoring of text documents
//! against a free-text query, with pluggable tokenization, plus the
//! plain data types of the note application built around it.
//!
//! The engine lives in [`bm25`]: it reorders a corpus by descending
//! BM25 score against a query, stable on ties.  Scores are exact
//! fixed-point integers (see [`score`]); the stable descending sort
//! lives in [`order`]; the word and trigram tokenizers in
//! [`tokenize`]; and the engine's laws — permutation, empty-query and
//! no-match order preservation, idempotence — are proved in [`laws`].

pub mod bm25;
pub mod cli;
pub mod laws;
pub mod list;
pub mod note;
pub mod order;
pub mod score;
pub mod tokenize;
pub mod ui;
