//! Tables of text: rows of fields under a header row.

use vstd::prelude::*;
use crate::error::LoadError;

verus! {

/// A row of a table: its fields in order.
pub type Row = Seq<Seq<char>>;

/// A table: its rows in order, the header row first.
pub type Table = Seq<Row>;

/// `csv::Error`, the error of the `csv` crate, carried through as an opaque
/// value.
#[verifier::external_type_specification]
#[verifier::external_body]
pub struct ExCsvError(csv::Error);

/// The rows that the `csv` crate reads from `data`, the header row first,
/// each row as its fields in order; `None` where it reports an error. The
/// rows depend on the bytes alone.
pub uninterp spec fn csv_rows(data: Seq<u8>) -> Option<Seq<Seq<Seq<char>>>>;

/// Calls `csv::ReaderBuilder::from_reader` on a builder that is left as
/// `csv::ReaderBuilder::new` makes it but for `has_headers(false)`, so that
/// the header row is handed out as the first row, then `csv::Reader::records`.
/// Nothing is proved of the call: its outcome is named `csv_rows`, and the
/// contract claims only that the outcome is this function of the bytes. The
/// first error that `csv` reports is returned, and no row with it.
#[verifier::external_body]
fn read_rows(data: &[u8]) -> (r: Result<Vec<Vec<String>>, csv::Error>)
    ensures
        match r {
            Ok(rows) => csv_rows(data@) == Some(rows.deep_view()),
            Err(_) => csv_rows(data@) is None,
        },
{
    let mut reader = csv::ReaderBuilder::new().has_headers(false).from_reader(data);
    let mut rows = Vec::new();
    for record in reader.records() {
        rows.push(record?.iter().map(String::from).collect());
    }
    Ok(rows)
}

/// Reads the table that `data` holds. Returns the rows exactly where `csv`
/// accepts the bytes, and `LoadError::Malformed` where it does not.
pub fn read_table(data: &[u8]) -> (r: Result<Vec<Vec<String>>, LoadError>)
    ensures
        match r {
            Ok(rows) => csv_rows(data@) == Some(rows.deep_view()),
            Err(e) => csv_rows(data@) is None && e == LoadError::Malformed,
        },
{
    match read_rows(data) {
        Ok(rows) => Ok(rows),
        Err(_) => Err(LoadError::Malformed),
    }
}

/// Whether two different fields of `header` both hold `name`.
pub open spec fn names_twice(header: Row, name: Seq<char>) -> bool {
    exists|i: int, j: int|
        0 <= i < j < header.len() && #[trigger] header[i] == name && #[trigger] header[j] == name
}

/// The column that `header` gives to `name`: the index of the one field
/// that holds exactly `name`.
pub open spec fn column(header: Row, name: Seq<char>) -> Result<int, LoadError> {
    if !header.contains(name) {
        Err(LoadError::MissingColumn)
    } else if names_twice(header, name) {
        Err(LoadError::DuplicateColumn)
    } else {
        Ok(header.index_of(name))
    }
}

/// The field of `row` in column `col`, if the row is that long.
pub open spec fn field(row: Row, col: int) -> Option<Seq<char>> {
    if 0 <= col < row.len() {
        Some(row[col])
    } else {
        None
    }
}

/// Looks `name` up in the header row.
pub fn find_column(header: &Vec<String>, name: &str) -> (r: Result<usize, LoadError>)
    ensures
        match r {
            Ok(col) => column(header.deep_view(), name@) == Ok::<int, LoadError>(col as int) && col
                < header@.len(),
            Err(e) => column(header.deep_view(), name@) == Err::<int, LoadError>(e),
        },
{
    let ghost fields = header.deep_view();
    let wanted = String::from_str(name);
    let mut found: Option<usize> = None;
    let mut i: usize = 0;
    while i < header.len()
        invariant
            i <= header@.len(),
            fields == header.deep_view(),
            wanted@ == name@,
            match found {
                Some(col) => col < i && fields[col as int] == name@ && forall|j: int|
                    0 <= j < i && #[trigger] fields[j] == name@ ==> j == col,
                None => forall|j: int| 0 <= j < i ==> #[trigger] fields[j] != name@,
            },
        decreases header@.len() - i,
    {
        assert(fields[i as int] == header@[i as int]@);
        if header[i] == wanted {
            match found {
                Some(col) => {
                    assert(names_twice(fields, name@)) by {
                        assert(fields[col as int] == name@ && fields[i as int] == name@);
                    }
                    assert(fields.contains(name@));
                    return Err(LoadError::DuplicateColumn);
                },
                None => {
                    found = Some(i);
                },
            }
        }
        i += 1;
    }
    match found {
        Some(col) => {
            assert(fields.contains(name@));
            assert(fields.index_of(name@) == col);
            Ok(col)
        },
        None => {
            Err(LoadError::MissingColumn)
        },
    }
}

/// The field of a row in a column, where the row has one there.
pub fn field_of(row: &Vec<String>, col: usize) -> (r: Option<&str>)
    ensures
        match r {
            Some(text) => field(row.deep_view(), col as int) == Some(text@),
            None => field(row.deep_view(), col as int) is None,
        },
{
    if col < row.len() {
        assert(row.deep_view()[col as int] == row@[col as int]@);
        Some(row[col].as_str())
    } else {
        None
    }
}

} // verus!
