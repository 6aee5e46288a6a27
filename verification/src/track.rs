//! The markers of a circuit and the events that light them.

use vstd::prelude::*;
use crate::timestamp::Timestamp;

verus! {

/// A fixed marker position. Coordinates are fixed-point integers; a point is
/// identified by its pair of coordinates.
#[derive(Clone, Copy, Debug, PartialEq, Eq, Structural)]
pub struct Point {
    pub x: i64,
    pub y: i64,
}

/// The activation of the marker at `(x, y)` at simulated time `timestamp`.
#[derive(Clone, Copy, Debug, PartialEq, Eq, Structural)]
pub struct Event {
    pub timestamp: Timestamp,
    pub x: i64,
    pub y: i64,
}

impl Event {
    /// An event lights a point when both coordinates are exactly equal.
    pub open spec fn lights(self, p: Point) -> bool {
        self.x == p.x && self.y == p.y
    }

    /// Decides `lights`.
    pub fn hits(&self, p: &Point) -> (r: bool)
        ensures
            r == self.lights(*p),
    {
        self.x == p.x && self.y == p.y
    }
}

/// Whether one of the first `cursor` events lights `p`.
pub open spec fn activated(p: Point, events: Seq<Event>, cursor: int) -> bool {
    exists|k: int| 0 <= k < cursor && k < events.len() && (#[trigger] events[k]).lights(p)
}

/// A point that has been activated stays so as the cursor moves on.
pub proof fn lemma_activation_lasts(p: Point, events: Seq<Event>, cursor: int, later: int)
    requires
        activated(p, events, cursor),
        cursor <= later,
    ensures
        activated(p, events, later),
{
    let k = choose|k: int| 0 <= k < cursor && k < events.len() && (#[trigger] events[k]).lights(p);
    assert(0 <= k < later && k < events.len() && events[k].lights(p));
}

/// Before any event has fired no point is activated.
pub proof fn lemma_nothing_activated_at_start(p: Point, events: Seq<Event>)
    ensures
        !activated(p, events, 0),
{
}

/// Scans the events that have fired for one that lights `p`.
pub fn is_activated(p: &Point, events: &Vec<Event>, cursor: usize) -> (r: bool)
    ensures
        r == activated(*p, events@, cursor as int),
{
    let limit: usize = if cursor < events.len() { cursor } else { events.len() };
    let mut k: usize = 0;
    while k < limit
        invariant
            k <= limit,
            limit <= events.len(),
            limit <= cursor,
            limit == cursor || limit == events.len(),
            forall|j: int| 0 <= j < k ==> !(#[trigger] events@[j]).lights(*p),
        decreases limit - k,
    {
        if events[k].hits(p) {
            return true;
        }
        k += 1;
    }
    false
}

} // verus!
