//! Truncation of Unicode text to a display width, with an ellipsis where text was cut.
//!
//! Text is measured in terminal columns, grapheme cluster by grapheme cluster, and cut
//! between the pieces that the truncation walks over: single ASCII characters at the edge
//! that is kept, grapheme clusters beyond them.
//!
//! - [`width`] measures grapheme clusters and texts.
//! - [`truncate`] truncates a string, at its end or at its start.
//! - [`select`] decides how many pieces of given widths find room.
//! - [`segment`] splits a text into grapheme clusters.
//! - [`model`] says what a truncation returns, and [`laws`] what holds of it.
//! - [`text`] holds facts about the UTF-8 encoding.

pub mod laws;
pub mod model;
pub mod segment;
pub mod select;
pub mod text;
pub mod truncate;
pub mod width;

pub use crate::model::Direction;
pub use crate::select::select_clusters;
pub use crate::truncate::{
    add_ellipsis, greedy_ascii_add, handle_remaining, truncate_clusters, truncate_str,
    truncate_str_inner, truncate_str_leading, AsciiIterationResult,
};
pub use crate::width::{checked_str_width, checked_total, grapheme_width, str_width};
