//! Instants of simulated time.

use vstd::prelude::*;
use chrono::TimeZone;

verus! {

/// An instant on the UTC time line: whole seconds since the Unix epoch and
/// the nanoseconds past that second.
///
/// Instants are ordered by `secs` first and `nanos` second. Within a leap
/// second `nanos` runs on past 999,999,999.
#[derive(Clone, Copy, Debug, PartialEq, Eq, Structural)]
pub struct Timestamp {
    pub secs: i64,
    pub nanos: u32,
}

/// `chrono::ParseError`, the error of a parse by `chrono`, carried through
/// as an opaque value.
#[verifier::external_type_specification]
#[verifier::external_body]
pub struct ExParseError(chrono::ParseError);

/// What `chrono` reads from a date and time in RFC 3339 form, taken as UTC:
/// the seconds since the Unix epoch and the nanoseconds past that second, or
/// `None` where it rejects the text. The reading depends on the text alone.
pub uninterp spec fn utc_reading(text: Seq<char>) -> Option<(i64, u32)>;

/// Calls `chrono::TimeZone::datetime_from_str` on `Utc` with the format `%+`,
/// then `DateTime::timestamp` and `DateTime::timestamp_subsec_nanos` on what
/// was parsed. Nothing is proved of the call: its outcome is named
/// `utc_reading`, and the contract claims only that the outcome is this
/// function of the text.
#[verifier::external_body]
#[allow(deprecated)]
fn utc_from_str(text: &str) -> (r: Result<(i64, u32), chrono::ParseError>)
    ensures
        match r {
            Ok(reading) => utc_reading(text@) == Some(reading),
            Err(_) => utc_reading(text@) is None,
        },
{
    chrono::Utc.datetime_from_str(text, "%+").map(|t| (t.timestamp(), t.timestamp_subsec_nanos()))
}

impl Timestamp {
    /// The instant `nanos` nanoseconds past the second `secs`.
    pub fn new(secs: i64, nanos: u32) -> (t: Timestamp)
        ensures
            t == (Timestamp { secs, nanos }),
    {
        Timestamp { secs, nanos }
    }

    /// The instant that is read from `text`, a date and time in RFC 3339
    /// form; `None` where the text is not accepted.
    pub open spec fn parsed(text: Seq<char>) -> Option<Timestamp> {
        match utc_reading(text) {
            Some(reading) => Some(Timestamp { secs: reading.0, nanos: reading.1 }),
            None => None,
        }
    }

    /// Reads a timestamp field. Returns `None` exactly where the text is not
    /// accepted as a UTC date and time.
    pub fn parse(text: &str) -> (r: Option<Timestamp>)
        ensures
            r == Timestamp::parsed(text@),
    {
        match utc_from_str(text) {
            Ok(reading) => Some(Timestamp::new(reading.0, reading.1)),
            Err(_) => None,
        }
    }

    /// Whether `self` is at or before `other`.
    pub open spec fn at_or_before(self, other: Timestamp) -> bool {
        self.secs < other.secs || (self.secs == other.secs && self.nanos <= other.nanos)
    }

    /// Whether the instant `elapsed_secs` whole seconds after `self` is at or
    /// after `at`. The sum is taken in the integers, so it never wraps.
    pub open spec fn reaches(self, elapsed_secs: u64, at: Timestamp) -> bool {
        let now_secs = self.secs + elapsed_secs;
        now_secs > at.secs || (now_secs == at.secs && self.nanos >= at.nanos)
    }

    /// Decides `reaches` without overflow for every pair of instants.
    pub fn has_reached(&self, elapsed_secs: u64, at: &Timestamp) -> (r: bool)
        ensures
            r == self.reaches(elapsed_secs, *at),
    {
        let now_secs: i128 = self.secs as i128 + elapsed_secs as i128;
        let at_secs: i128 = at.secs as i128;
        now_secs > at_secs || (now_secs == at_secs && self.nanos >= at.nanos)
    }
}

} // verus!
