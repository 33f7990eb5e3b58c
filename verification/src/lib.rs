//! A line-oriented text slicer in the tradition of the Unix `cut` utility,
//! with a richer range syntax: `start:end:step` triples, negative indices
//! counted from the end of the line, comma-separated range lists, and a
//! complement mode that keeps everything a range does not select.
//!
//! The crate is organised around a small mathematical model:
//! * [`numbers`] — decimal parsing and formatting of `i32` values;
//! * [`text`] — splitting on a literal delimiter and joining with a separator;
//! * [`selection`] — which zero-based indices a resolved range selects;
//! * [`range_parser`] — the `start:end:step` grammar and the [`range_parser::Range`] type;
//! * [`cut`] — segmenting a line into units and assembling the selected ones;
//! * [`lines`] — applying a whole range spec to one line and to a batch of lines.

pub mod cut;
pub mod lines;
pub mod numbers;
pub mod range_parser;
pub mod selection;
pub mod text;
