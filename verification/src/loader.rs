//! Loading the points and the events of a run from tables.
//!
//! Both tables start with a header row. The columns that are needed are
//! found by their names in that row, wherever they stand; other columns are
//! passed over. A table with no row of data yields nothing, whatever its
//! header says. The first row that cannot be converted fails the whole load.
//! Input that is malformed anywhere is rejected before any row is converted.

use vstd::prelude::*;
use crate::decimal::decimal_units;
use crate::decimal::parse_decimal;
use crate::error::LoadError;
use crate::table::column;
use crate::table::csv_rows;
use crate::table::field;
use crate::table::field_of;
use crate::table::find_column;
use crate::table::read_table;
use crate::table::Row;
use crate::table::Table;
use crate::timestamp::Timestamp;
use crate::track::Event;
use crate::track::Point;

verus! {

/// The number of rows of data in a table: all its rows but the header row.
pub open spec fn data_rows(table: Table) -> nat {
    if table.len() == 0 {
        0
    } else {
        (table.len() - 1) as nat
    }
}

/// The coordinate that a row holds in a column.
pub open spec fn number_at(row: Row, col: int) -> Option<i64> {
    match field(row, col) {
        Some(text) => decimal_units(text),
        None => None,
    }
}

/// The timestamp that a row holds in a column.
pub open spec fn timestamp_at(row: Row, col: int) -> Option<Timestamp> {
    match field(row, col) {
        Some(text) => Timestamp::parsed(text),
        None => None,
    }
}

/// The point that row `index` of a table holds.
pub open spec fn point_in(row: Row, index: int, x_col: int, y_col: int) -> Result<
    Point,
    LoadError,
> {
    match (number_at(row, x_col), number_at(row, y_col)) {
        (Some(x), Some(y)) => Ok(Point { x, y }),
        _ => Err(LoadError::BadNumber { row: index as usize }),
    }
}

/// The event that row `index` of a table holds. The coordinates are
/// converted before the timestamp.
pub open spec fn event_in(row: Row, index: int, t_col: int, x_col: int, y_col: int) -> Result<
    Event,
    LoadError,
> {
    match point_in(row, index, x_col, y_col) {
        Err(e) => Err(e),
        Ok(p) => match timestamp_at(row, t_col) {
            Some(timestamp) => Ok(Event { timestamp, x: p.x, y: p.y }),
            None => Err(LoadError::BadTimestamp { row: index as usize }),
        },
    }
}

/// The points of the rows of data before row `end`, in order, or the error
/// of the first row that holds no point.
pub open spec fn points_before(table: Table, x_col: int, y_col: int, end: int) -> Result<
    Seq<Point>,
    LoadError,
>
    decreases end,
{
    if end <= 1 {
        Ok(Seq::empty())
    } else {
        match points_before(table, x_col, y_col, end - 1) {
            Err(e) => Err(e),
            Ok(points) => match point_in(table[end - 1], end - 1, x_col, y_col) {
                Err(e) => Err(e),
                Ok(p) => Ok(points.push(p)),
            },
        }
    }
}

/// The events of the rows of data before row `end`, in order, or the error
/// of the first row that holds no event.
pub open spec fn events_before(
    table: Table,
    t_col: int,
    x_col: int,
    y_col: int,
    end: int,
) -> Result<Seq<Event>, LoadError>
    decreases end,
{
    if end <= 1 {
        Ok(Seq::empty())
    } else {
        match events_before(table, t_col, x_col, y_col, end - 1) {
            Err(e) => Err(e),
            Ok(events) => match event_in(table[end - 1], end - 1, t_col, x_col, y_col) {
                Err(e) => Err(e),
                Ok(event) => Ok(events.push(event)),
            },
        }
    }
}

/// The points that a table holds under the column names `x_name` and
/// `y_name`.
pub open spec fn points_of(table: Table, x_name: Seq<char>, y_name: Seq<char>) -> Result<
    Seq<Point>,
    LoadError,
> {
    if table.len() <= 1 {
        Ok(Seq::empty())
    } else {
        match column(table[0], x_name) {
            Err(e) => Err(e),
            Ok(x_col) => match column(table[0], y_name) {
                Err(e) => Err(e),
                Ok(y_col) => points_before(table, x_col, y_col, table.len() as int),
            },
        }
    }
}

/// The events that a table holds under the column names `t_name`, `x_name`
/// and `y_name`. The events stand in the order of the rows: they are neither
/// sorted nor checked for their order in time.
pub open spec fn events_of(
    table: Table,
    t_name: Seq<char>,
    x_name: Seq<char>,
    y_name: Seq<char>,
) -> Result<Seq<Event>, LoadError> {
    if table.len() <= 1 {
        Ok(Seq::empty())
    } else {
        match column(table[0], t_name) {
            Err(e) => Err(e),
            Ok(t_col) => match column(table[0], x_name) {
                Err(e) => Err(e),
                Ok(x_col) => match column(table[0], y_name) {
                    Err(e) => Err(e),
                    Ok(y_col) => events_before(table, t_col, x_col, y_col, table.len() as int),
                },
            },
        }
    }
}

/// The points of a coordinate file: the table that the bytes hold, read
/// under the column names `x_led` and `y_led`.
pub open spec fn coordinates_in(data: Seq<u8>) -> Result<Seq<Point>, LoadError> {
    match csv_rows(data) {
        Some(table) => points_of(table, "x_led"@, "y_led"@),
        None => Err(LoadError::Malformed),
    }
}

/// The events of an event file: the table that the bytes hold, read under
/// the column names `timestamp`, `x_data` and `y_data`.
pub open spec fn race_data_in(data: Seq<u8>) -> Result<Seq<Event>, LoadError> {
    match csv_rows(data) {
        Some(table) => events_of(table, "timestamp"@, "x_data"@, "y_data"@),
        None => Err(LoadError::Malformed),
    }
}

proof fn lemma_points_before(table: Table, x_col: int, y_col: int, end: int)
    requires
        1 <= end,
        points_before(table, x_col, y_col, end) is Ok,
    ensures
        points_before(table, x_col, y_col, end)->Ok_0.len() == end - 1,
        forall|i: int|
            1 <= i < end ==> point_in(#[trigger] table[i], i, x_col, y_col) == Ok::<
                Point,
                LoadError,
            >(points_before(table, x_col, y_col, end)->Ok_0[i - 1]),
    decreases end,
{
    if end > 1 {
        lemma_points_before(table, x_col, y_col, end - 1);
    }
}

proof fn lemma_events_before(table: Table, t_col: int, x_col: int, y_col: int, end: int)
    requires
        1 <= end,
        events_before(table, t_col, x_col, y_col, end) is Ok,
    ensures
        events_before(table, t_col, x_col, y_col, end)->Ok_0.len() == end - 1,
        forall|i: int|
            1 <= i < end ==> event_in(#[trigger] table[i], i, t_col, x_col, y_col) == Ok::<
                Event,
                LoadError,
            >(events_before(table, t_col, x_col, y_col, end)->Ok_0[i - 1]),
    decreases end,
{
    if end > 1 {
        lemma_events_before(table, t_col, x_col, y_col, end - 1);
    }
}

/// A table that loads yields one point for each row of data, in the order
/// of the rows, and each point is the one that its row holds.
pub proof fn lemma_one_point_per_row(table: Table, x_name: Seq<char>, y_name: Seq<char>)
    requires
        points_of(table, x_name, y_name) is Ok,
    ensures
        points_of(table, x_name, y_name)->Ok_0.len() == data_rows(table),
        forall|i: int|
            1 <= i < table.len() ==> point_in(
                #[trigger] table[i],
                i,
                column(table[0], x_name)->Ok_0,
                column(table[0], y_name)->Ok_0,
            ) == Ok::<Point, LoadError>(points_of(table, x_name, y_name)->Ok_0[i - 1]),
{
    if table.len() > 1 {
        lemma_points_before(
            table,
            column(table[0], x_name)->Ok_0,
            column(table[0], y_name)->Ok_0,
            table.len() as int,
        );
    }
}

/// A table that loads yields one event for each row of data, in the order
/// of the rows, and each event is the one that its row holds.
pub proof fn lemma_one_event_per_row(
    table: Table,
    t_name: Seq<char>,
    x_name: Seq<char>,
    y_name: Seq<char>,
)
    requires
        events_of(table, t_name, x_name, y_name) is Ok,
    ensures
        events_of(table, t_name, x_name, y_name)->Ok_0.len() == data_rows(table),
        forall|i: int|
            1 <= i < table.len() ==> event_in(
                #[trigger] table[i],
                i,
                column(table[0], t_name)->Ok_0,
                column(table[0], x_name)->Ok_0,
                column(table[0], y_name)->Ok_0,
            ) == Ok::<Event, LoadError>(events_of(table, t_name, x_name, y_name)->Ok_0[i - 1]),
{
    if table.len() > 1 {
        lemma_events_before(
            table,
            column(table[0], t_name)->Ok_0,
            column(table[0], x_name)->Ok_0,
            column(table[0], y_name)->Ok_0,
            table.len() as int,
        );
    }
}

/// A coordinate file that loads holds a table, and yields as many points as
/// the table has rows of data.
pub proof fn lemma_coordinate_count(data: Seq<u8>)
    requires
        coordinates_in(data) is Ok,
    ensures
        csv_rows(data) is Some,
        coordinates_in(data)->Ok_0.len() == data_rows(csv_rows(data)->Some_0),
{
    lemma_one_point_per_row(csv_rows(data)->Some_0, "x_led"@, "y_led"@);
}

/// An event file that loads holds a table, and yields as many events as the
/// table has rows of data.
pub proof fn lemma_race_data_count(data: Seq<u8>)
    requires
        race_data_in(data) is Ok,
    ensures
        csv_rows(data) is Some,
        race_data_in(data)->Ok_0.len() == data_rows(csv_rows(data)->Some_0),
{
    lemma_one_event_per_row(csv_rows(data)->Some_0, "timestamp"@, "x_data"@, "y_data"@);
}

/// Converts the coordinate that a row holds in a column.
fn number_of(row: &Vec<String>, col: usize) -> (r: Option<i64>)
    ensures
        r == number_at(row.deep_view(), col as int),
{
    match field_of(row, col) {
        Some(text) => parse_decimal(text),
        None => None,
    }
}

/// Converts one row of data to a point.
fn point_from_row(row: &Vec<String>, index: usize, x_col: usize, y_col: usize) -> (r: Result<
    Point,
    LoadError,
>)
    ensures
        r == point_in(row.deep_view(), index as int, x_col as int, y_col as int),
{
    match number_of(row, x_col) {
        Some(x) => match number_of(row, y_col) {
            Some(y) => Ok(Point { x, y }),
            None => Err(LoadError::BadNumber { row: index }),
        },
        None => Err(LoadError::BadNumber { row: index }),
    }
}

/// Converts one row of data to an event.
fn event_from_row(row: &Vec<String>, index: usize, t_col: usize, x_col: usize, y_col: usize) -> (r:
    Result<Event, LoadError>)
    ensures
        r == event_in(row.deep_view(), index as int, t_col as int, x_col as int, y_col as int),
{
    let p = match point_from_row(row, index, x_col, y_col) {
        Ok(p) => p,
        Err(e) => {
            return Err(e);
        },
    };
    let timestamp = match field_of(row, t_col) {
        Some(text) => Timestamp::parse(text),
        None => None,
    };
    match timestamp {
        Some(timestamp) => Ok(Event { timestamp, x: p.x, y: p.y }),
        None => Err(LoadError::BadTimestamp { row: index }),
    }
}

/// Loads the points of a table whose coordinates stand in the columns named
/// `x_name` and `y_name`. A load that succeeds yields one point for each row
/// of data.
pub fn points_from_table(table: &Vec<Vec<String>>, x_name: &str, y_name: &str) -> (r: Result<
    Vec<Point>,
    LoadError,
>)
    ensures
        match r {
            Ok(points) => points_of(table.deep_view(), x_name@, y_name@) == Ok::<
                Seq<Point>,
                LoadError,
            >(points@),
            Err(e) => points_of(table.deep_view(), x_name@, y_name@) == Err::<
                Seq<Point>,
                LoadError,
            >(e),
        },
        r matches Ok(points) ==> points@.len() == data_rows(table.deep_view()),
{
    let ghost rows = table.deep_view();
    let mut points: Vec<Point> = Vec::new();
    if table.len() <= 1 {
        return Ok(points);
    }
    assert(rows[0] == table@[0].deep_view());
    let x_col = match find_column(&table[0], x_name) {
        Ok(col) => col,
        Err(e) => {
            return Err(e);
        },
    };
    let y_col = match find_column(&table[0], y_name) {
        Ok(col) => col,
        Err(e) => {
            return Err(e);
        },
    };
    let mut i: usize = 1;
    while i < table.len()
        invariant
            1 <= i <= table@.len(),
            rows == table.deep_view(),
            column(rows[0], x_name@) == Ok::<int, LoadError>(x_col as int),
            column(rows[0], y_name@) == Ok::<int, LoadError>(y_col as int),
            points_before(rows, x_col as int, y_col as int, i as int) == Ok::<
                Seq<Point>,
                LoadError,
            >(points@),
            points@.len() == i - 1,
        decreases table@.len() - i,
    {
        assert(rows[i as int] == table@[i as int].deep_view());
        match point_from_row(&table[i], i, x_col, y_col) {
            Ok(p) => {
                points.push(p);
            },
            Err(e) => {
                proof {
                    assert(points_before(rows, x_col as int, y_col as int, i as int + 1) == Err::<
                        Seq<Point>,
                        LoadError,
                    >(e));
                    lemma_first_bad_point(
                        rows,
                        x_col as int,
                        y_col as int,
                        i as int + 1,
                        table@.len() as int,
                    );
                }
                return Err(e);
            },
        }
        i += 1;
    }
    Ok(points)
}

/// Loads the events of a table whose timestamps stand in the column named
/// `t_name` and whose coordinates stand in those named `x_name` and `y_name`.
/// A load that succeeds yields one event for each row of data.
pub fn events_from_table(table: &Vec<Vec<String>>, t_name: &str, x_name: &str, y_name: &str) -> (r:
    Result<Vec<Event>, LoadError>)
    ensures
        match r {
            Ok(events) => events_of(table.deep_view(), t_name@, x_name@, y_name@) == Ok::<
                Seq<Event>,
                LoadError,
            >(events@),
            Err(e) => events_of(table.deep_view(), t_name@, x_name@, y_name@) == Err::<
                Seq<Event>,
                LoadError,
            >(e),
        },
        r matches Ok(events) ==> events@.len() == data_rows(table.deep_view()),
{
    let ghost rows = table.deep_view();
    let mut events: Vec<Event> = Vec::new();
    if table.len() <= 1 {
        return Ok(events);
    }
    assert(rows[0] == table@[0].deep_view());
    let t_col = match find_column(&table[0], t_name) {
        Ok(col) => col,
        Err(e) => {
            return Err(e);
        },
    };
    let x_col = match find_column(&table[0], x_name) {
        Ok(col) => col,
        Err(e) => {
            return Err(e);
        },
    };
    let y_col = match find_column(&table[0], y_name) {
        Ok(col) => col,
        Err(e) => {
            return Err(e);
        },
    };
    let mut i: usize = 1;
    while i < table.len()
        invariant
            1 <= i <= table@.len(),
            rows == table.deep_view(),
            column(rows[0], t_name@) == Ok::<int, LoadError>(t_col as int),
            column(rows[0], x_name@) == Ok::<int, LoadError>(x_col as int),
            column(rows[0], y_name@) == Ok::<int, LoadError>(y_col as int),
            events_before(rows, t_col as int, x_col as int, y_col as int, i as int) == Ok::<
                Seq<Event>,
                LoadError,
            >(events@),
            events@.len() == i - 1,
        decreases table@.len() - i,
    {
        assert(rows[i as int] == table@[i as int].deep_view());
        match event_from_row(&table[i], i, t_col, x_col, y_col) {
            Ok(event) => {
                events.push(event);
            },
            Err(e) => {
                proof {
                    assert(events_before(
                        rows,
                        t_col as int,
                        x_col as int,
                        y_col as int,
                        i as int + 1,
                    ) == Err::<Seq<Event>, LoadError>(e));
                    lemma_first_bad_event(
                        rows,
                        t_col as int,
                        x_col as int,
                        y_col as int,
                        i as int + 1,
                        table@.len() as int,
                    );
                }
                return Err(e);
            },
        }
        i += 1;
    }
    Ok(events)
}

/// Once a row has failed, the rows after it do not change the error.
proof fn lemma_first_bad_point(table: Table, x_col: int, y_col: int, failed: int, end: int)
    requires
        1 <= failed <= end,
        points_before(table, x_col, y_col, failed) is Err,
    ensures
        points_before(table, x_col, y_col, end) == points_before(table, x_col, y_col, failed),
    decreases end,
{
    if failed < end {
        lemma_first_bad_point(table, x_col, y_col, failed, end - 1);
    }
}

/// Once a row has failed, the rows after it do not change the error.
proof fn lemma_first_bad_event(
    table: Table,
    t_col: int,
    x_col: int,
    y_col: int,
    failed: int,
    end: int,
)
    requires
        1 <= failed <= end,
        events_before(table, t_col, x_col, y_col, failed) is Err,
    ensures
        events_before(table, t_col, x_col, y_col, end) == events_before(
            table,
            t_col,
            x_col,
            y_col,
            failed,
        ),
    decreases end,
{
    if failed < end {
        lemma_first_bad_event(table, t_col, x_col, y_col, failed, end - 1);
    }
}

/// Loads the points of a coordinate file from its bytes. A load that
/// succeeds yields one point for each row of data.
pub fn parse_coordinates(data: &[u8]) -> (r: Result<Vec<Point>, LoadError>)
    ensures
        match r {
            Ok(points) => coordinates_in(data@) == Ok::<Seq<Point>, LoadError>(points@),
            Err(e) => coordinates_in(data@) == Err::<Seq<Point>, LoadError>(e),
        },
        r matches Ok(points) ==> csv_rows(data@) matches Some(table) && points@.len() == data_rows(
            table,
        ),
{
    match read_table(data) {
        Ok(table) => points_from_table(&table, "x_led", "y_led"),
        Err(e) => Err(e),
    }
}

/// Loads the events of an event file from its bytes. A load that succeeds
/// yields one event for each row of data.
pub fn parse_race_data(data: &[u8]) -> (r: Result<Vec<Event>, LoadError>)
    ensures
        match r {
            Ok(events) => race_data_in(data@) == Ok::<Seq<Event>, LoadError>(events@),
            Err(e) => race_data_in(data@) == Err::<Seq<Event>, LoadError>(e),
        },
        r matches Ok(events) ==> csv_rows(data@) matches Some(table) && events@.len() == data_rows(
            table,
        ),
{
    match read_table(data) {
        Ok(table) => events_from_table(&table, "timestamp", "x_data", "y_data"),
        Err(e) => Err(e),
    }
}

} // verus!
