//! Reports a span of bytes in a text for a reader: the line that holds the
//! span with the lines before and after it, a pointer line that marks the span
//! under it, and the number of the line and of the column at which the span
//! begins.
//!
//! Offsets, lengths and columns count bytes of the text's UTF-8 encoding.
pub mod lines;
pub mod render;
pub mod reporter;
pub mod slicing;
pub mod split;

pub use reporter::{is_valid_span, report, ErrorReport};
