//! The lines that frame a report: the header naming the scanned directory,
//! the table heading, and the closing summary.

use vstd::prelude::*;
use vstd::string::StringExecFns;
use vstd::string::StrSliceExecFns;
use crate::display_duration_as_hms::hms_view;
use crate::display_duration_as_hms::Hms;
use crate::display_u64_as_file_size::file_size_view;
use crate::display_u64_as_file_size::grouped;
use crate::display_u64_as_file_size::DisplayFileSize;
use crate::render::gap_len;
use crate::text::dec_digits;
use crate::text::push_decimal;
use crate::text::push_repeat;
use crate::text::repeat_char;

verus! {

/// The header line naming the scanned directory.
pub open spec fn header_view(path: Seq<char>) -> Seq<char> {
    "Indexing "@ + path
}

/// The heading of the table of rows: the size column, then the count of
/// subdirectories, a tab, and the directory name column.
pub open spec fn table_header_view() -> Seq<char> {
    "SIZE"@ + repeat_char(gap_len("SIZE"@.len()), ' ') + "SUBS\tDIRECTORY"@
}

/// The first summary line: how many files were indexed and how long it took.
pub open spec fn summary_count_view(file_count: nat, elapsed_ms: nat) -> Seq<char> {
    dec_digits(file_count) + " files indexed at "@ + hms_view(elapsed_ms)
}

/// The second summary line: the grand total, formatted and raw.
pub open spec fn summary_size_view(total_size: nat) -> Seq<char> {
    file_size_view(total_size) + " ("@ + grouped(dec_digits(total_size)) + " bytes)"@
}

/// The header line for a scan of `path`.
pub fn header_line(path: &str) -> (r: String)
    ensures
        r@ == header_view(path@),
{
    let mut s = String::new();
    s.append("Indexing ");
    s.append(path);
    assert(s@ =~= header_view(path@));
    s
}

/// The heading of the table of rows.
pub fn table_header() -> (r: String)
    ensures
        r@ == table_header_view(),
{
    let mut s = String::new();
    s.append("SIZE");
    let occupied = s.as_str().unicode_len();
    let pad = if occupied < crate::render::SIZE_COLUMN {
        crate::render::SIZE_COLUMN - occupied
    } else {
        0
    };
    push_repeat(&mut s, pad, ' ');
    s.append("SUBS\tDIRECTORY");
    assert(s@ =~= table_header_view());
    s
}

/// The two closing summary lines for a finished scan.
pub fn summary_lines(file_count: u64, elapsed_ms: u32, total_size: u64) -> (r: (String, String))
    ensures
        r.0@ == summary_count_view(file_count as nat, elapsed_ms as nat),
        r.1@ == summary_size_view(total_size as nat),
{
    let mut first = String::new();
    push_decimal(&mut first, file_count);
    first.append(" files indexed at ");
    let duration = elapsed_ms.to_hms();
    first.append(duration.as_str());
    assert(first@ =~= summary_count_view(file_count as nat, elapsed_ms as nat));

    let mut second = total_size.display_as_file_size();
    second.append(" (");
    let commas = total_size.add_commas();
    second.append(commas.as_str());
    second.append(" bytes)");
    assert(second@ =~= summary_size_view(total_size as nat));

    (first, second)
}

} // verus!
