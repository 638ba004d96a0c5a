//! A verified core for a lenient `cut`-style column extractor.
//!
//! Each input line is segmented into bytes, characters, or delimited fields;
//! a list of selector tokens such as `"1,3-5,8-"` is resolved against the
//! segment count of the line, and the chosen segments are reassembled with
//! configurable delimiters. Malformed selector bounds fall back to the
//! nearest sensible boundary instead of aborting the run.

pub mod config;
pub mod line;
pub mod render;
pub mod segment;
pub mod selector;
pub mod text;
