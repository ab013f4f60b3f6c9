//! A Markdown scanner for live-styled editing: `&str` in, styled spans and
//! hideable syntax markers out, everything in character offsets.
//!
//! As well as what is styled, the scanner reports exactly which characters are
//! syntax, so an editor can hide them everywhere except in the construct that
//! holds the caret. Scanning is line-based, and inline styling does not cross
//! a line break: that is what makes re-scanning exactly one line on a
//! keystroke possible.
use vstd::prelude::*;

pub mod types;
pub mod text;
pub mod inline;
pub mod block;
pub mod note;
pub mod snippet;
pub mod links;
pub mod lists;
pub mod format;
pub mod laws;
pub mod agreement;
pub mod apart;
pub mod settle;
pub mod written;
pub mod shift;

pub use types::{Style, ListLevels, Span, Marker, LineState, Parsed, MAX_LIST_DEPTH};
pub use note::{parse, scan_line};
pub use snippet::{strip, strip_with};
pub use links::{extract, extract_with, rewrite_target, Extracted, TagRef, WikiLink};
pub use lists::{list_enter, renumber, ListEnter, Renumber};
pub use format::{Format, Edit};

verus! {

} // verus!
