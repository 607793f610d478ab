//! Sorts bibliography reference entries into a canonical academic order:
//! Latin-script entries first, ordered by code points, followed by
//! Han-script entries ordered by the stroke count of their leading
//! character, with an optional 1-indexed numbering of the final sequence.

pub mod chars;
pub mod classify;
pub mod engine;
pub mod numbers;
pub mod order;
pub mod sorting;
pub mod stroke_table;
pub mod text;
