//! A running visualization: the markers, the events, and the frames drawn
//! from them.
//!
//! A marker is drawn as activated once an event that has fired names exactly
//! its coordinates, and stays so for the rest of the run.

use vstd::prelude::*;
use std::time::Instant;
use crate::canvas::bounding_box;
use crate::canvas::bounding_box_of;
use crate::canvas::canvas_x;
use crate::canvas::canvas_y;
use crate::canvas::lemma_bounding_box_tight;
use crate::canvas::place;
use crate::canvas::BoundingBox;
use crate::clock::elapsed_secs;
use crate::playback::next_cursor;
use crate::playback::PlaybackState;
use crate::timestamp::Timestamp;
use crate::track::activated;
use crate::track::is_activated;
use crate::track::Event;
use crate::track::Point;

verus! {

/// The side of the square drawn for each marker, in canvas units.
pub const MARKER_SIZE: u32 = 20;

/// One square to draw: its corner on the canvas, with `y` measured from the
/// top, and whether its point has been activated.
#[derive(Clone, Copy, Debug, PartialEq, Eq, Structural)]
pub struct Marker {
    pub x: u32,
    pub y: u32,
    pub active: bool,
}

/// The marker drawn for `p` when the first `cursor` events have fired.
pub open spec fn marker_of(
    p: Point,
    bounds: BoundingBox,
    events: Seq<Event>,
    cursor: int,
    width: u32,
    height: u32,
) -> Marker {
    Marker {
        x: canvas_x(p, bounds, width) as u32,
        y: canvas_y(p, bounds, height) as u32,
        active: activated(p, events, cursor),
    }
}

/// The markers of one frame, one for each point and in the order of the
/// points.
pub open spec fn frame_markers(
    points: Seq<Point>,
    events: Seq<Event>,
    cursor: int,
    width: u32,
    height: u32,
) -> Seq<Marker> {
    Seq::new(
        points.len(),
        |i: int| marker_of(points[i], bounding_box_of(points), events, cursor, width, height),
    )
}

/// Computes the markers of one frame. Every marker lies on the canvas.
pub fn markers(
    points: &Vec<Point>,
    events: &Vec<Event>,
    cursor: usize,
    width: u32,
    height: u32,
) -> (r: Vec<Marker>)
    ensures
        r@ == frame_markers(points@, events@, cursor as int, width, height),
        forall|i: int| 0 <= i < r@.len() ==> (#[trigger] r@[i]).x <= width && r@[i].y <= height,
{
    let mut out: Vec<Marker> = Vec::new();
    let bounds = match bounding_box(points) {
        Some(bounds) => bounds,
        None => {
            return out;
        },
    };
    proof {
        lemma_bounding_box_tight(points@);
    }
    let mut i: usize = 0;
    while i < points.len()
        invariant
            i <= points.len(),
            out@.len() == i,
            bounds == bounding_box_of(points@),
            forall|j: int| 0 <= j < points@.len() ==> bounds.contains(#[trigger] points@[j]),
            forall|j: int|
                0 <= j < i ==> out@[j] == marker_of(
                    points@[j],
                    bounds,
                    events@,
                    cursor as int,
                    width,
                    height,
                ),
            forall|j: int| 0 <= j < i ==> (#[trigger] out@[j]).x <= width && out@[j].y <= height,
        decreases points.len() - i,
    {
        let p = points[i];
        let position = place(&p, &bounds, width, height);
        let active = is_activated(&p, events, cursor);
        out.push(Marker { x: position.0, y: position.1, active });
        i += 1;
    }
    out
}

/// What a simulation holds: the points and the events as sequences, the
/// wall-clock instant and the simulated time at which playback started, and
/// the number of events that have fired.
pub struct SimulationView {
    pub points: Seq<Point>,
    pub events: Seq<Event>,
    pub start_wallclock: Instant,
    pub start_simtime: Timestamp,
    pub cursor: nat,
}

impl SimulationView {
    /// The simulation one frame later, `elapsed_secs` whole seconds after its
    /// start. Only the cursor moves.
    pub open spec fn after_frame(self, elapsed_secs: u64) -> SimulationView {
        SimulationView {
            cursor: next_cursor(self.events, self.start_simtime, self.cursor, elapsed_secs),
            ..self
        }
    }

    /// The markers to draw for the simulation as it stands.
    pub open spec fn markers(self, width: u32, height: u32) -> Seq<Marker> {
        frame_markers(self.points, self.events, self.cursor as int, width, height)
    }
}

/// The markers of a circuit, the events that light them, and the state of
/// the playback. The cursor never passes the end of the event list.
pub struct Simulation {
    points: Vec<Point>,
    events: Vec<Event>,
    state: PlaybackState,
}

impl View for Simulation {
    type V = SimulationView;

    closed spec fn view(&self) -> SimulationView {
        SimulationView {
            points: self.points@,
            events: self.events@,
            start_wallclock: self.state.start_wallclock,
            start_simtime: self.state.start_simtime,
            cursor: self.state.cursor as nat,
        }
    }
}

impl Simulation {
    #[verifier::type_invariant]
    spec fn cursor_in_range(self) -> bool {
        self.state.cursor <= self.events@.len()
    }

    /// A simulation that starts now on the wall clock, at simulated time
    /// `start_simtime`, with no event fired.
    pub fn starting_at(
        points: Vec<Point>,
        events: Vec<Event>,
        start_simtime: Timestamp,
    ) -> (sim: Simulation)
        ensures
            sim@.points == points@,
            sim@.events == events@,
            sim@.start_simtime == start_simtime,
            sim@.cursor == 0,
    {
        Simulation { points, events, state: PlaybackState::starting_at(start_simtime) }
    }

    /// The number of events that have fired.
    pub fn cursor(&self) -> (cursor: usize)
        ensures
            cursor == self@.cursor,
            cursor <= self@.events.len(),
    {
        proof {
            use_type_invariant(self);
        }
        self.state.cursor
    }

    /// One frame, `elapsed_secs` whole seconds after the start: the cursor
    /// moves first, then the markers are laid out for the canvas.
    pub fn frame_at(&mut self, elapsed_secs: u64, width: u32, height: u32) -> (r: Vec<Marker>)
        ensures
            final(self)@ == old(self)@.after_frame(elapsed_secs),
            final(self)@.start_wallclock == old(self)@.start_wallclock,
            r@ == final(self)@.markers(width, height),
            old(self)@.cursor <= final(self)@.cursor <= final(self)@.events.len(),
            forall|i: int| 0 <= i < r@.len() ==> (#[trigger] r@[i]).x <= width && r@[i].y <= height,
    {
        proof {
            use_type_invariant(&*self);
        }
        let mut state = self.state;
        state.advance(&self.events, elapsed_secs);
        self.state = state;
        markers(&self.points, &self.events, self.state.cursor, width, height)
    }

    /// One frame at the present reading of the wall clock. Whatever the
    /// clock reads, the frame is the one that `frame_at` makes of that
    /// reading.
    pub fn frame(&mut self, width: u32, height: u32) -> (r: Vec<Marker>)
        ensures
            exists|elapsed_secs: u64|
                final(self)@ == #[trigger] old(self)@.after_frame(elapsed_secs),
            final(self)@.start_wallclock == old(self)@.start_wallclock,
            r@ == final(self)@.markers(width, height),
            old(self)@.cursor <= final(self)@.cursor <= final(self)@.events.len(),
            forall|i: int| 0 <= i < r@.len() ==> (#[trigger] r@[i]).x <= width && r@[i].y <= height,
    {
        let elapsed_secs: u64 = elapsed_secs(&self.state.start_wallclock);
        self.frame_at(elapsed_secs, width, height)
    }
}

} // verus!
