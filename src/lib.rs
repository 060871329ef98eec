//! Token model, tag finalization and rule matching of a rule-based text checker.
//!
//! A [`types::Word`] borrows its text from the analysed document or from the
//! [`tagger::Tagger`]'s string tables; the `Owned*` mirrors hold copies and
//! outlive the analysis. [`rule`] matches compiled patterns against a
//! finalized token sequence and narrows candidate analyses.

pub mod error;
pub mod rule;
pub mod tagger;
pub mod types;
