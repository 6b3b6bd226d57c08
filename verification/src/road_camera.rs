//! Cameras of the speed daemon and the speeding check between two
//! sightings of one plate on one road.
//!
//! Average speed between two sightings at miles `m1`, `m2` and seconds
//! `t1 < t2` is `|m2 - m1| / ((t2 - t1) / 3600)` miles per hour. A pair is
//! speeding when that average strictly exceeds the road limit; the wire
//! protocol reports the average in hundredths of a mile per hour, rounded
//! to the nearest integer.
use vstd::prelude::*;

verus! {

/// Absolute distance in miles between two camera positions.
pub open spec fn mile_distance(m1: u16, m2: u16) -> int {
    if m1 <= m2 {
        m2 - m1
    } else {
        m1 - m2
    }
}

/// The pair of sightings exceeds `limit` miles per hour: the average speed
/// `dist / (dt / 3600)` is strictly above the limit, compared exactly as
/// `dist * 3600 > limit * dt`.
pub open spec fn is_speeding(m1: u16, t1: u32, m2: u16, t2: u32, limit: u16) -> bool {
    t1 < t2 && mile_distance(m1, m2) * 3600 > (limit as int) * (t2 - t1)
}

/// The average speed in hundredths of a mile per hour, rounded to the
/// nearest integer (halves away from zero): `round(dist * 360000 / dt)`.
pub open spec fn speed_hundredths(m1: u16, t1: u32, m2: u16, t2: u32) -> int
    recommends
        t1 < t2,
{
    (2 * mile_distance(m1, m2) * 360000 + (t2 - t1)) / (2 * (t2 - t1))
}

/// What the ticket's 16-bit speed field holds: the rounded hundredths,
/// saturated at the largest representable value.
pub open spec fn speed_field(m1: u16, t1: u32, m2: u16, t2: u32) -> u16 {
    if speed_hundredths(m1, t1, m2, t2) > u16::MAX {
        u16::MAX
    } else {
        speed_hundredths(m1, t1, m2, t2) as u16
    }
}

/// A camera, immutable after declaration: its road, its position along the
/// road in miles, and the road's speed limit in miles per hour.
#[derive(Debug, Clone, Copy)]
pub struct Camera {
    pub road: u16,
    pub location: u16,
    pub limit: u16,
}

impl Camera {
    /// Builds a camera record from its declaration.
    pub fn new(road: u16, location: u16, limit: u16) -> (c: Self)
        ensures
            c.road == road,
            c.location == location,
            c.limit == limit,
    {
        Self { road, location, limit }
    }

    /// Judges the pair formed by this camera's sighting at `own_timestamp`
    /// and `other`'s sighting at the strictly later `other_timestamp`:
    /// `Some(speed)` with the rounded hundredths-of-mph exactly when the
    /// average speed exceeds this camera's limit.
    pub fn speeding(self, own_timestamp: &u32, other: &Camera, other_timestamp: &u32) -> (r:
        Option<u16>)
        requires
            *own_timestamp < *other_timestamp,
        ensures
            r is Some <==> is_speeding(
                self.location,
                *own_timestamp,
                other.location,
                *other_timestamp,
                self.limit,
            ),
            r is Some ==> r->0 == speed_field(
                self.location,
                *own_timestamp,
                other.location,
                *other_timestamp,
            ),
    {
        let dist: u64 = if self.location <= other.location {
            (other.location - self.location) as u64
        } else {
            (self.location - other.location) as u64
        };
        let dt: u64 = (*other_timestamp - *own_timestamp) as u64;
        assert((self.limit as u64) * dt < 0x1_0000_0000_0000_0000) by (nonlinear_arith)
            requires
                self.limit <= 0xffff && dt < 0x1_0000_0000,
        ;
        if dist * 3600 > (self.limit as u64) * dt {
            let num: u64 = 2 * dist * 360000 + dt;
            let rounded: u64 = num / (2 * dt);
            assert(rounded == speed_hundredths(
                self.location,
                *own_timestamp,
                other.location,
                *other_timestamp,
            ));
            if rounded > u16::MAX as u64 {
                Some(u16::MAX)
            } else {
                Some(rounded as u16)
            }
        } else {
            None
        }
    }
}

} // verus!
