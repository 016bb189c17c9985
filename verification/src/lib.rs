//! Field selection for delimited text lines.
//!
//! A line of text is split after every occurrence of a delimiter. A field
//! selector such as `3`, `2-4`, `-3`, `3-` or `1,3,5` says which of the
//! resulting chunks are kept; the kept chunks are written one after the
//! other, followed by a newline.
//!
//! - [`selector`] reads the selector into a list of field numbers.
//! - [`line`] splits a line and keeps the selected chunks.
//! - [`config`] holds the settings of a run and applies them to each line.
//! - [`number`] reads the numbers of a selector.
//! - [`text`] converts between strings and characters.

pub mod config;
pub mod line;
pub mod number;
pub mod selector;
pub mod text;

pub use crate::config::{Action, RunConfig};
pub use crate::selector::{validate_input, SelectorError};
