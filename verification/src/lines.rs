//! Conversions between the row counts an engine reports and the line numbers the scanners keep.
use vstd::prelude::*;

verus! {

/// A scrollback movement a viewer asks for.
#[derive(Debug, Clone, Copy, PartialEq, Eq)]
pub enum ScrollMotion {
    /// By a signed number of lines — positive scrolls up into history, negative back down.
    Lines(i32),
    /// By a whole viewport, up into history or back down toward the live screen.
    PageUp,
    PageDown,
    /// All the way to the oldest retained line, or back to the live bottom.
    Top,
    Bottom,
}

/// Where a command's output sits in the document: its first and last absolute lines, inclusive,
/// and the grid's last column, which a whole-output selection runs to.
#[derive(Debug, Clone, Copy, PartialEq, Eq)]
pub struct OutputSpan {
    pub start_line: u64,
    pub end_line: u64,
    pub last_col: u16,
}

/// A row count or page row index as a signed engine line number.
pub fn as_line_number(rows: usize) -> (line: i32)
    requires
        rows <= i32::MAX,
    ensures
        line == rows,
{
    rows as i32
}

/// The engine's line number for a row of the page: 0 is the top of the screen.
pub fn page_line(row: usize) -> (line: i32)
    requires
        row <= i32::MAX,
    ensures
        line == row,
{
    as_line_number(row)
}

/// The engine's line number for a scrolled-off row, counted back from the page: `back == 0` is
/// the newest row of the scrollback, line -1.
pub fn history_line(back: usize) -> (line: i32)
    requires
        back <= i32::MAX,
    ensures
        line == -1 - back,
{
    -1 - as_line_number(back)
}

/// A row count as an absolute document line.
pub fn as_document_line(rows: usize) -> (line: u64)
    ensures
        line == rows,
{
    rows as u64
}

/// An absolute document line as a signed number, saturating at the top of `i64`.
pub fn as_signed_line(line: u64) -> (signed: i64)
    ensures
        signed == if line <= i64::MAX { line as int } else { i64::MAX as int },
{
    if line <= i64::MAX as u64 {
        line as i64
    } else {
        i64::MAX
    }
}

/// A scroll distance, clamped into the range of an `i32`.
pub fn scroll_delta(lines: i64) -> (delta: i32)
    ensures
        delta == if lines < i32::MIN { i32::MIN as int } else if lines > i32::MAX { i32::MAX as int } else { lines as int },
{
    if lines < i32::MIN as i64 {
        i32::MIN
    } else if lines > i32::MAX as i64 {
        i32::MAX
    } else {
        lines as i32
    }
}

} // verus!
