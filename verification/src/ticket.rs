//! The speeding ticket record of the speed daemon.
use vstd::prelude::*;

verus! {

/// A speeding notification: the plate, the road, the two sightings in
/// chronological order, and the average speed in hundredths of a mile per
/// hour.
#[derive(Debug, Clone, PartialEq)]
pub struct Ticket {
    pub plate: String,
    pub road: u16,
    pub mile1: u16,
    pub timestamp1: u32,
    pub mile2: u16,
    pub timestamp2: u32,
    pub speed: u16,
}

/// The calendar day of a timestamp: days since the epoch.
pub open spec fn day_of(ts: u32) -> int {
    (ts as int) / 86400
}

/// The ticket covers calendar day `d`.
pub open spec fn covers_day(t: Ticket, d: int) -> bool {
    day_of(t.timestamp1) <= d <= day_of(t.timestamp2)
}

/// The day ranges of the two tickets share no calendar day.
pub open spec fn days_disjoint(a: Ticket, b: Ticket) -> bool {
    day_of(a.timestamp2) < day_of(b.timestamp1) || day_of(b.timestamp2) < day_of(a.timestamp1)
}

/// The calendar day of a timestamp, as computed on the wire types.
pub fn day_of_timestamp(ts: u32) -> (d: u32)
    ensures
        d == day_of(ts),
{
    ts / 86400
}

} // verus!
