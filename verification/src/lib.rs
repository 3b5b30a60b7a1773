//! Alignment of delimiter-separated columns in plain text, driven by
//! directives that the text itself holds.
//!
//! A directive stands on a line of its own, usually in a comment of
//! whatever language the text is written in:
//!
//! ```text
//! align_by cancel_file
//! align_by pause
//! align_by resume
//! align_by "<delimiter> <delimiter> ..."
//! align_by sort "<delimiter> <delimiter> ..."
//! align_by regex "<delimiter> <delimiter> ..."
//! align_by regex sort "<delimiter> <delimiter> ..."
//! ```
//!
//! The lines under a delimiter list form a block, as far as each of them
//! holds every delimiter of the list, in the order of the list. The block
//! is aligned: the whitespace of each line is collapsed, the lines are cut
//! at the delimiters, and the pieces are padded with spaces so that each
//! delimiter stands in one column. With `sort` the aligned lines are sorted
//! as well. Everything else is passed through as it is.
//!
//! Lines end at line feeds, with or without a carriage return before them.
//! The lines that are passed through are put out with the terminator that
//! the document mostly uses, the rows of a block with a line feed; and the
//! last line gets a terminator where the document ends with the terminator
//! that it mostly uses.
//!
//! [`align_string`] is the entry point; [`align_file`] tells a program
//! that runs over files what to do with each of them. The module [`laws`]
//! states and proves what holds of the engine.

pub mod block;
pub mod collapse;
pub mod columns;
pub mod directive;
pub mod engine;
pub mod error;
pub mod files;
pub mod laws;
pub mod lines;
pub mod newline;
pub mod passes;
pub mod quote;
pub mod sort;
pub mod stability;
pub mod text;

pub use crate::block::seperate_str_on_alignments;
pub use crate::directive::{Directive, Mode};
pub use crate::engine::{align_string, Document, EngineState};
pub use crate::error::{AlignmentError, InvalidAlignmentStatement};
pub use crate::files::{align_file, report, Event, ExitStatus, FileOutcome, Tally};
pub use crate::newline::{detect_newline_style, NewlineCount, NewlineStyle};
pub use crate::quote::extract_quote;
