//! Renders the coverage counters of a fuzzing run as annotated source text and
//! answers queries about which corpus inputs reach which counters.
//!
//! The counters of a function are brought into one ordered sequence of units
//! ([`normalize`]), the units are rendered over the source text into lines of
//! classified spans ([`render`], [`report`]), and the spans get their status
//! from the corpus statistics ([`status`]). [`tiling`] states what holds of
//! the rendered lines, [`query`] and [`listing`] answer questions about the
//! corpus and the functions.

pub mod coverage;
pub mod filter;
pub mod fuzzcheck;
pub mod geometry;
pub mod listing;
pub mod normalize;
pub mod order;
pub mod query;
pub mod render;
pub mod report;
pub mod status;
pub mod text;
pub mod tiling;

pub use crate::coverage::{
    CodeLine, CodeSpan, CodeSpanKind, CoverageStatus, FunctionCoverage, FunctionName,
};
pub use crate::filter::{CoverageKindFilter, FunctionFilter, InputFilter, InputInfo};
