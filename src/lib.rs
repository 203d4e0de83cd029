//! Counting files by extension over a directory tree, and ranking the
//! extensions by how often they occur.
//!
//! The walk itself (listing directories) is done by the caller; this crate
//! holds the decisions: which entries go back onto the frontier, how a file
//! name yields its extension, how the tally grows, and how it is ranked.
use vstd::prelude::*;

pub mod extension;
pub mod render;
pub mod report;
pub mod scan;
pub mod tally;

pub use extension::extension;
pub use render::{render_line, render_report};
pub use report::{top_entries, REPORT_LIMIT};
pub use scan::Scanner;
pub use tally::{RankedEntry, Tally};

verus! {

} // verus!
