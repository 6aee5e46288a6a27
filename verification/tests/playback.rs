use led_circuit::playback::step;
use led_circuit::playback::PlaybackState;
use led_circuit::timestamp::Timestamp;
use led_circuit::track::is_activated;
use led_circuit::track::Event;
use led_circuit::track::Point;

const T0: i64 = 1_704_110_400;

fn event(secs: i64, x: i64, y: i64) -> Event {
    Event { timestamp: Timestamp::new(secs, 0), x, y }
}

fn two_events() -> Vec<Event> {
    vec![event(T0, 1, 1), event(T0 + 5, 2, 2)]
}

#[test]
fn step_moves_past_an_event_whose_time_has_come() {
    let events = two_events();
    let start = Timestamp::new(T0, 0);
    assert_eq!(step(&events, &start, 0, 0), 1);
    assert_eq!(step(&events, &start, 1, 4), 1);
    assert_eq!(step(&events, &start, 1, 5), 2);
    assert_eq!(step(&events, &start, 2, 500), 2);
}

#[test]
fn step_waits_for_an_event_that_lies_ahead() {
    let events = two_events();
    let start = Timestamp::new(T0 - 10, 0);
    assert_eq!(step(&events, &start, 0, 0), 0);
    assert_eq!(step(&events, &start, 0, 9), 0);
    assert_eq!(step(&events, &start, 0, 10), 1);
}

#[test]
fn step_leaves_a_cursor_beyond_the_events_alone() {
    let events = two_events();
    let start = Timestamp::new(T0, 0);
    assert_eq!(step(&events, &start, 7, 100), 7);
}

#[test]
fn at_most_one_event_fires_per_frame() {
    let events = two_events();
    let mut state = PlaybackState::starting_at(Timestamp::new(T0, 0));
    state.advance(&events, 1_000);
    assert_eq!(state.cursor, 1);
    state.advance(&events, 1_000);
    assert_eq!(state.cursor, 2);
    state.advance(&events, 1_000);
    assert_eq!(state.cursor, 2);
}

#[test]
fn playback_starts_before_the_first_event() {
    let state = PlaybackState::starting_at(Timestamp::new(T0, 123));
    assert_eq!(state.cursor, 0);
    assert_eq!(state.start_simtime, Timestamp::new(T0, 123));
    assert!(state.start_wallclock.elapsed().as_secs() < 3_600);
}

#[test]
fn advance_keeps_the_start() {
    let events = two_events();
    let mut state = PlaybackState::starting_at(Timestamp::new(T0, 0));
    let wallclock = state.start_wallclock;
    state.advance(&events, 10);
    assert_eq!(state.start_simtime, Timestamp::new(T0, 0));
    assert_eq!(state.start_wallclock, wallclock);
}

#[test]
fn the_cursor_never_moves_back_nor_past_the_end() {
    let events = vec![
        event(T0 + 2, 1, 1),
        event(T0 + 2, 2, 2),
        event(T0 + 9, 3, 3),
        event(T0 + 4, 4, 4),
    ];
    let frames: Vec<u64> = vec![0, 1, 2, 2, 1, 0, 3, 50, 8, 9, 9, 4, 100, 100, 0];
    let mut state = PlaybackState::starting_at(Timestamp::new(T0, 0));
    let mut previous: usize = state.cursor;
    for elapsed in frames {
        state.advance(&events, elapsed);
        assert!(previous <= state.cursor);
        assert!(state.cursor <= previous + 1);
        assert!(state.cursor <= events.len());
        previous = state.cursor;
    }
    assert_eq!(state.cursor, 4);
}

#[test]
fn tick_follows_the_wall_clock() {
    let events = vec![event(T0 - 1, 1, 1), event(T0 + 86_400, 2, 2)];
    let mut state = PlaybackState::starting_at(Timestamp::new(T0, 0));
    state.tick(&events);
    assert_eq!(state.cursor, 1);
    state.tick(&events);
    assert_eq!(state.cursor, 1);
}

#[test]
fn two_events_light_two_of_three_points() {
    let events = two_events();
    let points = vec![Point { x: 1, y: 1 }, Point { x: 2, y: 2 }, Point { x: 3, y: 3 }];
    let mut state = PlaybackState::starting_at(Timestamp::new(T0, 0));

    state.advance(&events, 1);
    assert_eq!(state.cursor, 1);
    assert!(is_activated(&points[0], &events, state.cursor));
    assert!(!is_activated(&points[1], &events, state.cursor));
    assert!(!is_activated(&points[2], &events, state.cursor));

    state.advance(&events, 6);
    assert_eq!(state.cursor, 2);
    assert!(is_activated(&points[0], &events, state.cursor));
    assert!(is_activated(&points[1], &events, state.cursor));
    assert!(!is_activated(&points[2], &events, state.cursor));

    state.advance(&events, 3_600);
    assert_eq!(state.cursor, 2);
    assert!(!is_activated(&points[2], &events, state.cursor));
}

#[test]
fn without_events_the_cursor_stays_at_zero() {
    let events: Vec<Event> = Vec::new();
    let points = vec![Point { x: 1, y: 1 }, Point { x: 2, y: 2 }];
    let mut state = PlaybackState::starting_at(Timestamp::new(T0, 0));
    let frames: Vec<u64> = vec![0, 1, 60, 3_600, u64::MAX];
    for elapsed in frames {
        state.advance(&events, elapsed);
        assert_eq!(state.cursor, 0);
        assert!(!is_activated(&points[0], &events, state.cursor));
        assert!(!is_activated(&points[1], &events, state.cursor));
    }
    state.tick(&events);
    assert_eq!(state.cursor, 0);
}

#[test]
fn activation_needs_both_coordinates_to_be_equal() {
    let events = vec![event(T0, 1, 2)];
    assert!(events[0].hits(&Point { x: 1, y: 2 }));
    assert!(!events[0].hits(&Point { x: 2, y: 1 }));
    assert!(!events[0].hits(&Point { x: 1, y: 1 }));
    assert!(is_activated(&Point { x: 1, y: 2 }, &events, 1));
    assert!(!is_activated(&Point { x: 1, y: 3 }, &events, 1));
    assert!(!is_activated(&Point { x: 1, y: 2 }, &events, 0));
}

#[test]
fn activation_looks_at_fired_events_only() {
    let events = vec![event(T0, 1, 1), event(T0 + 1, 2, 2), event(T0 + 2, 1, 1)];
    let p = Point { x: 2, y: 2 };
    assert!(!is_activated(&p, &events, 0));
    assert!(!is_activated(&p, &events, 1));
    assert!(is_activated(&p, &events, 2));
    assert!(is_activated(&p, &events, 3));
    assert!(is_activated(&p, &events, 99));
}

#[test]
fn events_that_are_due_fire_one_per_frame_until_none_is_left() {
    let events = vec![event(T0, 1, 1), event(T0 + 1, 2, 2), event(T0 + 2, 3, 3)];
    let mut state = PlaybackState::starting_at(Timestamp::new(T0, 0));
    let expected: Vec<usize> = vec![1, 2, 3, 3, 3];
    for want in expected {
        state.advance(&events, 10);
        assert_eq!(state.cursor, want);
    }
}

#[test]
fn a_settled_cursor_splits_sorted_events_into_fired_and_pending() {
    let events = vec![
        event(T0, 1, 1),
        event(T0 + 3, 2, 2),
        event(T0 + 3, 3, 3),
        event(T0 + 7, 4, 4),
    ];
    let start = Timestamp::new(T0, 0);
    let mut state = PlaybackState::starting_at(start);
    let elapsed: u64 = 5;
    let mut frame: u32 = 0;
    while frame < 10 {
        state.advance(&events, elapsed);
        frame += 1;
    }
    assert_eq!(state.cursor, 3);
    for (k, e) in events.iter().enumerate() {
        assert_eq!(start.has_reached(elapsed, &e.timestamp), k < state.cursor);
    }
}

#[test]
fn unsorted_events_fire_in_the_order_in_which_they_stand() {
    let events = vec![event(T0 + 9, 1, 1), event(T0, 2, 2)];
    let mut state = PlaybackState::starting_at(Timestamp::new(T0, 0));
    state.advance(&events, 5);
    assert_eq!(state.cursor, 0);
    state.advance(&events, 9);
    assert_eq!(state.cursor, 1);
    state.advance(&events, 9);
    assert_eq!(state.cursor, 2);
}
