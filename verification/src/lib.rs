//! Report materialization for a task-management command-line tool.
//!
//! The tool emits human-formatted, fixed-width, column-aligned text.  This
//! library reverse-engineers column boundaries from the header's underline
//! row, slices data rows into trimmed fields, and classifies every column
//! through a catalog built from the tool's column-metadata listing.
//!
//! Process invocation itself is left to the surrounding application; the
//! functions here are pure: they take the tool's output text and return
//! structured values or typed errors.

pub mod opts;
pub mod text;
pub mod tw;
