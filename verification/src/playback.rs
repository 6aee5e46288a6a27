//! The playback cursor: how many events have fired so far.

use vstd::prelude::*;
use std::time::Instant;
use crate::clock::elapsed_secs;
use crate::timestamp::Timestamp;
use crate::track::Event;

verus! {

/// Where playback stands: the wall-clock instant and the simulated time at
/// which it started, and the number of events that have fired.
///
/// Simulated time runs at the pace of the wall clock, in whole seconds: after
/// `n` whole seconds on the wall clock it is `start_simtime` plus `n` seconds.
#[derive(Clone, Copy, Debug)]
pub struct PlaybackState {
    pub start_wallclock: Instant,
    pub start_simtime: Timestamp,
    pub cursor: usize,
}

/// The cursor after one frame: it moves past the next event when that event's
/// time has been reached, and by no more than one event per frame.
pub open spec fn next_cursor(
    events: Seq<Event>,
    start: Timestamp,
    cursor: nat,
    elapsed_secs: u64,
) -> nat {
    if cursor < events.len() && start.reaches(elapsed_secs, events[cursor as int].timestamp) {
        cursor + 1
    } else {
        cursor
    }
}

/// The cursor after a run of frames, given the elapsed whole seconds read at
/// each frame in turn.
pub open spec fn cursor_after(
    events: Seq<Event>,
    start: Timestamp,
    cursor: nat,
    frames: Seq<u64>,
) -> nat
    decreases frames.len(),
{
    if frames.len() == 0 {
        cursor
    } else {
        next_cursor(
            events,
            start,
            cursor_after(events, start, cursor, frames.drop_last()),
            frames.last(),
        )
    }
}

/// Whether each of the first `cursor` events has had its time reached
/// `elapsed_secs` whole seconds after `start`.
pub open spec fn fired_are_due(
    events: Seq<Event>,
    start: Timestamp,
    cursor: nat,
    elapsed_secs: u64,
) -> bool {
    forall|k: int|
        0 <= k < cursor && k < events.len() ==> start.reaches(
            elapsed_secs,
            (#[trigger] events[k]).timestamp,
        )
}

/// Whether the events stand in the order of their times. Playback fires
/// them in the order in which they stand, sorted or not.
pub open spec fn in_time_order(events: Seq<Event>) -> bool {
    forall|i: int, j: int|
        0 <= i <= j < events.len() ==> (#[trigger] events[i]).timestamp.at_or_before(
            (#[trigger] events[j]).timestamp,
        )
}

/// One frame's decision, on plain values. The cursor does not move back,
/// moves by one event at most, and does not pass the end of the events.
pub fn step(events: &Vec<Event>, start: &Timestamp, cursor: usize, elapsed_secs: u64) -> (next:
    usize)
    ensures
        next == next_cursor(events@, *start, cursor as nat, elapsed_secs),
        cursor <= next <= cursor + 1,
        cursor <= events@.len() ==> next <= events@.len(),
{
    if cursor < events.len() && start.has_reached(elapsed_secs, &events[cursor].timestamp) {
        cursor + 1
    } else {
        cursor
    }
}

impl PlaybackState {
    /// Playback that starts now on the wall clock, at simulated time
    /// `start_simtime`.
    pub fn starting_at(start_simtime: Timestamp) -> (state: PlaybackState)
        ensures
            state.cursor == 0,
            state.start_simtime == start_simtime,
    {
        PlaybackState { start_wallclock: Instant::now(), start_simtime, cursor: 0 }
    }

    /// One frame, `elapsed_secs` whole seconds after the start.
    pub fn advance(&mut self, events: &Vec<Event>, elapsed_secs: u64)
        ensures
            final(self).cursor == next_cursor(
                events@,
                old(self).start_simtime,
                old(self).cursor as nat,
                elapsed_secs,
            ),
            final(self).start_simtime == old(self).start_simtime,
            final(self).start_wallclock == old(self).start_wallclock,
            old(self).cursor <= final(self).cursor <= old(self).cursor + 1,
            old(self).cursor <= events@.len() ==> final(self).cursor <= events@.len(),
    {
        self.cursor = step(events, &self.start_simtime, self.cursor, elapsed_secs);
    }

    /// One frame at the present reading of the wall clock. Whatever the
    /// clock reads, the frame is the one that `advance` makes of that reading.
    pub fn tick(&mut self, events: &Vec<Event>)
        ensures
            exists|elapsed_secs: u64|
                final(self).cursor == #[trigger] next_cursor(
                    events@,
                    old(self).start_simtime,
                    old(self).cursor as nat,
                    elapsed_secs,
                ),
            final(self).start_simtime == old(self).start_simtime,
            final(self).start_wallclock == old(self).start_wallclock,
            old(self).cursor <= final(self).cursor <= old(self).cursor + 1,
            old(self).cursor <= events@.len() ==> final(self).cursor <= events@.len(),
    {
        let elapsed_secs: u64 = elapsed_secs(&self.start_wallclock);
        self.advance(events, elapsed_secs);
    }
}

/// Across any run of frames the cursor never moves back and never passes the
/// end of the event list.
pub proof fn lemma_cursor_monotone(
    events: Seq<Event>,
    start: Timestamp,
    cursor: nat,
    frames: Seq<u64>,
    i: int,
    j: int,
)
    requires
        cursor <= events.len(),
        0 <= i <= j <= frames.len(),
    ensures
        cursor <= cursor_after(events, start, cursor, frames.take(i)),
        cursor_after(events, start, cursor, frames.take(i)) <= cursor_after(
            events,
            start,
            cursor,
            frames.take(j),
        ),
        cursor_after(events, start, cursor, frames.take(j)) <= events.len(),
    decreases j,
{
    if j == 0 {
        assert(frames.take(0).len() == 0);
    } else if i == j {
        lemma_cursor_monotone(events, start, cursor, frames, i - 1, j - 1);
        assert(frames.take(j).drop_last() == frames.take(j - 1));
    } else {
        lemma_cursor_monotone(events, start, cursor, frames, i, j - 1);
        assert(frames.take(j).drop_last() == frames.take(j - 1));
    }
}

/// An event fires only once its time has been reached: as long as the wall
/// clock does not run backwards from one frame to the next, the time of every
/// event that has fired lies at or before the simulated time of the frame.
/// Nothing is asked of the order of the events.
pub proof fn lemma_fired_stay_due(
    events: Seq<Event>,
    start: Timestamp,
    cursor: nat,
    before_secs: u64,
    now_secs: u64,
)
    requires
        fired_are_due(events, start, cursor, before_secs),
        before_secs <= now_secs,
    ensures
        fired_are_due(events, start, next_cursor(events, start, cursor, now_secs), now_secs),
{
    let next = next_cursor(events, start, cursor, now_secs);
    assert forall|k: int| 0 <= k < next && k < events.len() implies start.reaches(
        now_secs,
        (#[trigger] events[k]).timestamp,
    ) by {
        if k < cursor {
            assert(start.reaches(before_secs, events[k].timestamp));
        }
    }
}

/// Where the events stand in the order of their times, a cursor that the
/// frame leaves in place has settled: the events that have fired are exactly
/// those whose time has been reached.
pub proof fn lemma_settled_cursor_splits_events(
    events: Seq<Event>,
    start: Timestamp,
    cursor: nat,
    elapsed_secs: u64,
)
    requires
        in_time_order(events),
        cursor <= events.len(),
        fired_are_due(events, start, cursor, elapsed_secs),
        next_cursor(events, start, cursor, elapsed_secs) == cursor,
    ensures
        forall|k: int|
            0 <= k < events.len() ==> (start.reaches(elapsed_secs, (#[trigger] events[k]).timestamp)
                <==> k < cursor),
{
    assert forall|k: int| 0 <= k < events.len() implies (start.reaches(
        elapsed_secs,
        (#[trigger] events[k]).timestamp,
    ) <==> k < cursor) by {
        if k >= cursor {
            assert(events[cursor as int].timestamp.at_or_before(events[k].timestamp));
        }
    }
}

/// Events whose time has been reached fire one per frame, in turn, until
/// none is left: where every event from the cursor on is due at every frame
/// of a run, the run moves the cursor by one event per frame up to the end
/// of the events.
pub proof fn lemma_due_events_fire_in_turn(
    events: Seq<Event>,
    start: Timestamp,
    cursor: nat,
    frames: Seq<u64>,
)
    requires
        cursor <= events.len(),
        forall|f: int, k: int|
            0 <= f < frames.len() && cursor <= k < events.len() ==> start.reaches(
                #[trigger] frames[f],
                (#[trigger] events[k]).timestamp,
            ),
    ensures
        cursor_after(events, start, cursor, frames) == if cursor + frames.len() <= events.len() {
            cursor + frames.len()
        } else {
            events.len()
        },
    decreases frames.len(),
{
    if frames.len() > 0 {
        let earlier = frames.drop_last();
        assert forall|f: int, k: int|
            0 <= f < earlier.len() && cursor <= k < events.len() implies start.reaches(
            #[trigger] earlier[f],
            (#[trigger] events[k]).timestamp,
        ) by {
            assert(earlier[f] == frames[f]);
        }
        lemma_due_events_fire_in_turn(events, start, cursor, earlier);
        let reached = cursor_after(events, start, cursor, earlier);
        if reached < events.len() {
            assert(start.reaches(frames[frames.len() - 1], events[reached as int].timestamp));
        }
    }
}

/// With no events the cursor stays at zero, whatever the clock reads.
pub proof fn lemma_no_events_no_motion(start: Timestamp, frames: Seq<u64>)
    ensures
        cursor_after(Seq::<Event>::empty(), start, 0, frames) == 0,
    decreases frames.len(),
{
    if frames.len() > 0 {
        lemma_no_events_no_motion(start, frames.drop_last());
    }
}

} // verus!
