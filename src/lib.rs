//! Bayesian odds calculator: a set of hypotheses with prior odds, a sequence
//! of evidence items with per-hypothesis likelihoods, and the posterior odds
//! derived from them; a structural editor that keeps the shapes consistent;
//! and a plain-text (markdown) document format that reads back what it
//! writes.
//!
//! Numbers are non-negative fixed-point decimals with nine fractional digits,
//! held as a count of units (`fixed::ONE` units make `1.0`). Products round
//! down to a unit and saturate at `u64::MAX` units; percentages and fractions
//! are rounded so that they add up to exactly one hundred, or one.
//!
//! - `fixed`: the units and their product.
//! - `odds`: folding likelihood rows into prior odds, and percentages.
//! - `model`: the document, its well-formedness, and the edits.
//! - `editor`: edits as events, with what the caller does after each.
//! - `decimal`, `chars`: decimal text and character-level text helpers.
//! - `markdown`: writing and reading the markdown text.
//! - `roundtrip`: reading the written text gives the document back.

pub mod chars;
pub mod decimal;
pub mod editor;
pub mod fixed;
pub mod markdown;
pub mod model;
pub mod odds;
pub mod roundtrip;

pub use markdown::{export_to_markdown, parse_markdown, MarkdownParseError};
pub use editor::{Msg, Outcome};
pub use model::BayesData;
pub use odds::{normalize, percentize, recalculate, recalculate_to};
