use led_circuit::error::LoadError;
use led_circuit::loader::events_from_table;
use led_circuit::loader::parse_coordinates;
use led_circuit::loader::parse_race_data;
use led_circuit::loader::points_from_table;
use led_circuit::table::field_of;
use led_circuit::table::find_column;
use led_circuit::table::read_table;
use led_circuit::timestamp::Timestamp;
use led_circuit::track::Event;
use led_circuit::track::Point;

const T0: i64 = 1_704_110_400;

fn row(fields: &[&str]) -> Vec<String> {
    fields.iter().map(|f| String::from(*f)).collect()
}

#[test]
fn a_table_is_read_row_by_row() {
    let table = read_table(b"a,b\n1,2\n3,4\n").unwrap();
    assert_eq!(table, vec![row(&["a", "b"]), row(&["1", "2"]), row(&["3", "4"])]);
}

#[test]
fn quotes_are_taken_off_the_fields() {
    let table = read_table(b"name,note\n\"x, y\",\"say \"\"hi\"\"\"\r\n").unwrap();
    assert_eq!(table, vec![row(&["name", "note"]), row(&["x, y", "say \"hi\""])]);
}

#[test]
fn no_bytes_no_rows() {
    assert_eq!(read_table(b""), Ok(Vec::new()));
}

#[test]
fn rows_of_unequal_length_are_malformed() {
    assert_eq!(read_table(b"a,b\n1\n"), Err(LoadError::Malformed));
    assert_eq!(read_table(b"a,b\n1,2,3\n"), Err(LoadError::Malformed));
}

#[test]
fn bytes_that_are_no_text_are_malformed() {
    assert_eq!(read_table(b"a,b\n\xff,2\n"), Err(LoadError::Malformed));
}

#[test]
fn a_column_is_found_by_its_name() {
    let header = row(&["timestamp", "x_data", "y_data"]);
    assert_eq!(find_column(&header, "timestamp"), Ok(0));
    assert_eq!(find_column(&header, "x_data"), Ok(1));
    assert_eq!(find_column(&header, "y_data"), Ok(2));
}

#[test]
fn a_column_that_is_not_named_is_missing() {
    let header = row(&["timestamp", "x_data", "y_data"]);
    assert_eq!(find_column(&header, "x_led"), Err(LoadError::MissingColumn));
    assert_eq!(find_column(&header, "X_DATA"), Err(LoadError::MissingColumn));
    assert_eq!(find_column(&header, "x_data "), Err(LoadError::MissingColumn));
    assert_eq!(find_column(&Vec::new(), "x_data"), Err(LoadError::MissingColumn));
}

#[test]
fn a_column_that_is_named_twice_is_a_duplicate() {
    let header = row(&["x_led", "y_led", "x_led"]);
    assert_eq!(find_column(&header, "x_led"), Err(LoadError::DuplicateColumn));
    assert_eq!(find_column(&header, "y_led"), Ok(1));
}

#[test]
fn a_field_is_taken_where_the_row_has_one() {
    let r = row(&["a", "b"]);
    assert_eq!(field_of(&r, 0), Some("a"));
    assert_eq!(field_of(&r, 1), Some("b"));
    assert_eq!(field_of(&r, 2), None);
}

#[test]
fn coordinates_are_loaded_in_the_order_of_the_rows() {
    let points = parse_coordinates(b"x_led,y_led\n1.5,2\n-3,0.25\n0,0\n").unwrap();
    assert_eq!(
        points,
        vec![
            Point { x: 1_500_000, y: 2_000_000 },
            Point { x: -3_000_000, y: 250_000 },
            Point { x: 0, y: 0 },
        ]
    );
}

#[test]
fn coordinates_may_be_written_with_exponents() {
    let data = b"x_led,y_led\n1.5e1,-2E-1\n-1.4210854715202004e-14,3\n";
    let points = parse_coordinates(data).unwrap();
    assert_eq!(
        points,
        vec![Point { x: 15_000_000, y: -200_000 }, Point { x: 0, y: 3_000_000 }]
    );
}

#[test]
fn the_point_count_equals_the_row_count() {
    let mut data = String::from("x_led,y_led\n");
    let mut i: usize = 0;
    while i < 250 {
        data.push_str(&format!("{}.5,{}\n", i, 2 * i));
        i += 1;
    }
    let points = parse_coordinates(data.as_bytes()).unwrap();
    assert_eq!(points.len(), 250);
    assert_eq!(points[249], Point { x: 249_500_000, y: 498_000_000 });
}

#[test]
fn columns_are_matched_by_name_not_by_place() {
    let points = parse_coordinates(b"y_led,label,x_led\n2,first,1\n4,second,3\n").unwrap();
    assert_eq!(
        points,
        vec![Point { x: 1_000_000, y: 2_000_000 }, Point { x: 3_000_000, y: 4_000_000 }]
    );
}

#[test]
fn an_empty_file_holds_no_points() {
    assert_eq!(parse_coordinates(b""), Ok(Vec::new()));
}

#[test]
fn a_header_alone_holds_no_points() {
    assert_eq!(parse_coordinates(b"x_led,y_led\n"), Ok(Vec::new()));
    assert_eq!(parse_coordinates(b"something,else\n"), Ok(Vec::new()));
}

#[test]
fn a_non_numeric_x_fails_the_load() {
    assert_eq!(
        parse_coordinates(b"x_led,y_led\nabc,1\n"),
        Err(LoadError::BadNumber { row: 1 })
    );
}

#[test]
fn the_first_bad_row_is_reported() {
    assert_eq!(
        parse_coordinates(b"x_led,y_led\n1,1\n2,\n3,x\n"),
        Err(LoadError::BadNumber { row: 2 })
    );
    assert_eq!(
        parse_coordinates(b"x_led,y_led\n1,1\n2,2\n3,4e\n"),
        Err(LoadError::BadNumber { row: 3 })
    );
    assert_eq!(
        parse_coordinates(b"x_led,y_led\n1,1\n2,2\n3,NaN\n"),
        Err(LoadError::BadNumber { row: 3 })
    );
    assert_eq!(
        parse_coordinates(b"x_led,y_led\n 1,1\n"),
        Err(LoadError::BadNumber { row: 1 })
    );
}

#[test]
fn a_malformed_row_fails_the_load() {
    assert_eq!(parse_coordinates(b"x_led,y_led\n1,2\n3\n"), Err(LoadError::Malformed));
    assert_eq!(parse_coordinates(b"x_led,y_led\nabc,1\n3\n"), Err(LoadError::Malformed));
}

#[test]
fn missing_and_duplicate_columns_fail_the_load() {
    assert_eq!(parse_coordinates(b"x,y\n1,2\n"), Err(LoadError::MissingColumn));
    assert_eq!(parse_coordinates(b"x_led,y\n1,2\n"), Err(LoadError::MissingColumn));
    assert_eq!(
        parse_coordinates(b"x_led,y_led,x_led\n1,2,3\n"),
        Err(LoadError::DuplicateColumn)
    );
}

#[test]
fn other_column_names_can_be_asked_for() {
    let table = vec![row(&["x", "y"]), row(&["1", "2"])];
    assert_eq!(
        points_from_table(&table, "x", "y"),
        Ok(vec![Point { x: 1_000_000, y: 2_000_000 }])
    );
    assert_eq!(points_from_table(&table, "x_led", "y_led"), Err(LoadError::MissingColumn));
}

#[test]
fn a_short_row_holds_no_point() {
    let table = vec![row(&["x", "y"]), row(&["1", "2"]), row(&["3"])];
    assert_eq!(points_from_table(&table, "x", "y"), Err(LoadError::BadNumber { row: 2 }));
    assert_eq!(points_from_table(&Vec::new(), "x", "y"), Ok(Vec::new()));
}

#[test]
fn events_are_loaded_in_the_order_of_the_rows() {
    let data = b"timestamp,x_data,y_data\n\
        2024-01-01T12:00:00Z,1,1\n\
        2024-01-01T12:00:05Z,2,2\n";
    assert_eq!(
        parse_race_data(data),
        Ok(vec![
            Event { timestamp: Timestamp::new(T0, 0), x: 1_000_000, y: 1_000_000 },
            Event { timestamp: Timestamp::new(T0 + 5, 0), x: 2_000_000, y: 2_000_000 },
        ])
    );
}

#[test]
fn the_event_count_equals_the_row_count() {
    let mut data = String::from("timestamp,x_data,y_data\n");
    let mut i: usize = 0;
    while i < 60 {
        data.push_str(&format!("2024-01-01T12:00:{:02}Z,{},{}\n", i, i, i));
        i += 1;
    }
    let events = parse_race_data(data.as_bytes()).unwrap();
    assert_eq!(events.len(), 60);
    assert_eq!(events[59].timestamp, Timestamp::new(T0 + 59, 0));
}

#[test]
fn each_way_of_writing_an_instant_loads_the_same_event() {
    let data = b"timestamp,x_data,y_data\n\
        2024-01-01T12:00:00Z,1,1\n\
        2024-01-01T12:00:00+00:00,1,1\n\
        2024-01-01 12:00:00Z,1,1\n\
        2024-01-01T12:00:00.000Z,1,1\n";
    let events = parse_race_data(data).unwrap();
    assert_eq!(events.len(), 4);
    for event in &events {
        assert_eq!(*event, events[0]);
        assert_eq!(event.timestamp, Timestamp::new(T0, 0));
    }
}

#[test]
fn events_are_not_sorted() {
    let data = b"timestamp,x_data,y_data\n\
        2024-01-01T12:00:05Z,2,2\n\
        2024-01-01T12:00:00Z,1,1\n";
    let events = parse_race_data(data).unwrap();
    assert_eq!(events[0].timestamp, Timestamp::new(T0 + 5, 0));
    assert_eq!(events[1].timestamp, Timestamp::new(T0, 0));
}

#[test]
fn an_empty_event_file_holds_no_events() {
    assert_eq!(parse_race_data(b""), Ok(Vec::new()));
    assert_eq!(parse_race_data(b"timestamp,x_data,y_data\n"), Ok(Vec::new()));
}

#[test]
fn a_bad_timestamp_fails_the_load() {
    let data = b"timestamp,x_data,y_data\n\
        2024-01-01T12:00:00Z,1,1\n\
        noon,2,2\n";
    assert_eq!(parse_race_data(data), Err(LoadError::BadTimestamp { row: 2 }));
}

#[test]
fn a_bad_number_in_an_event_fails_the_load() {
    let data = b"timestamp,x_data,y_data\n2024-01-01T12:00:00Z,one,1\n";
    assert_eq!(parse_race_data(data), Err(LoadError::BadNumber { row: 1 }));
}

#[test]
fn the_coordinates_of_an_event_are_converted_before_its_timestamp() {
    let data = b"timestamp,x_data,y_data\nnoon,one,1\n";
    assert_eq!(parse_race_data(data), Err(LoadError::BadNumber { row: 1 }));
}

#[test]
fn event_columns_are_looked_up_in_the_order_timestamp_x_y() {
    assert_eq!(parse_race_data(b"a,b,c\n1,2,3\n"), Err(LoadError::MissingColumn));
    assert_eq!(
        parse_race_data(b"timestamp,timestamp,y_data\n1,2,3\n"),
        Err(LoadError::DuplicateColumn)
    );
    assert_eq!(
        parse_race_data(b"timestamp,x_data,x_data\n1,2,3\n"),
        Err(LoadError::DuplicateColumn)
    );
    assert_eq!(
        parse_race_data(b"timestamp,x_data,z\n1,2,3\n"),
        Err(LoadError::MissingColumn)
    );
}

#[test]
fn events_can_be_loaded_under_other_column_names() {
    let table = vec![
        row(&["x_led", "when", "y_led"]),
        row(&["1", "2024-01-01T12:00:00Z", "2"]),
    ];
    assert_eq!(
        events_from_table(&table, "when", "x_led", "y_led"),
        Ok(vec![Event { timestamp: Timestamp::new(T0, 0), x: 1_000_000, y: 2_000_000 }])
    );
}

#[test]
fn loaded_events_light_loaded_points() {
    let points = parse_coordinates(b"x_led,y_led\n1.50,2\n3,4\n").unwrap();
    let events =
        parse_race_data(b"timestamp,x_data,y_data\n2024-01-01T12:00:00Z,1.5,2.0\n").unwrap();
    assert!(events[0].hits(&points[0]));
    assert!(!events[0].hits(&points[1]));
}
