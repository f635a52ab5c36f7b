//! Core of a grammar/spelling diagnostic engine: a layered word dictionary
//! with first-match precedence, deterministic aggregation of lint-rule
//! output, and greedy resolution of overlapping diagnostic spans.
//!
//! The surrounding collaborators — the text parser, the concrete lint rules
//! and any compressed dictionary backend — are consumed as black boxes: they
//! hand this core plain values (word lists, per-rule diagnostic sequences)
//! and get plain values back.

pub mod diag;
pub mod dict;
pub mod engine;
pub mod group;
pub mod resolve;

pub use diag::Diag;
pub use diag::LintError;
pub use diag::SpanViolation;
pub use dict::MergedDictionary;
pub use dict::WordList;
pub use dict::WordMeta;
pub use engine::Dialect;
pub use engine::HarperLinter;
