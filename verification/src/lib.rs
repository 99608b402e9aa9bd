//! Disk-usage aggregation and display.
//!
//! The library walks an already-read directory tree, aggregates byte totals
//! bottom-up, and renders a ranked, size-banded view of the result.  It also
//! carries the interactive browser's state — its lazily filled cache of
//! directory listings and its cursor — and the human-readable size and
//! duration formatters.

pub mod browser;
pub mod display_duration_as_hms;
pub mod display_letters_by_u8;
pub mod display_u64_as_file_size;
pub mod render;
pub mod report;
pub mod text;
pub mod tree;
pub mod types;
