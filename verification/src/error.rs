//! Why a load fails.

use vstd::prelude::*;

verus! {

/// The reason for which input is rejected. A load that fails yields no
/// points and no events at all.
///
/// Rows are counted from zero and the header row counts, so the first row of
/// data is row 1.
#[derive(Clone, Copy, Debug, PartialEq, Eq, Structural)]
pub enum LoadError {
    /// The input is not a table: a row is malformed.
    Malformed,
    /// The header row does not name a column that is needed.
    MissingColumn,
    /// The header row names a column that is needed more than once.
    DuplicateColumn,
    /// A coordinate in the given row is missing or is not a number.
    BadNumber { row: usize },
    /// The timestamp in the given row is missing or is not a date and time.
    BadTimestamp { row: usize },
}

} // verus!
