//! Per-plate state of the speed daemon: sightings ordered by time on each
//! road, the calendar days already ticketed, and the speeding detection
//! with its at-most-one-ticket-per-day rule.
use vstd::prelude::*;

use crate::road_camera::Camera;
use crate::road_camera::is_speeding;
use crate::road_camera::speed_field;
use crate::ticket::Ticket;
use crate::ticket::covers_day;
use crate::ticket::day_of;
use crate::ticket::day_of_timestamp;
use crate::ticket::days_disjoint;

verus! {

/// One recorded sighting: when, at which mile, and under which limit the
/// reporting camera stood.
#[derive(Debug, Clone, Copy)]
pub struct Sighting {
    pub timestamp: u32,
    pub mile: u16,
    pub limit: u16,
}

/// The sightings of one plate on one road, in strictly increasing time
/// order.
#[derive(Debug)]
pub struct RoadLog {
    pub road: u16,
    pub entries: Vec<Sighting>,
}

/// The entries stand in strictly increasing time order.
pub open spec fn log_sorted(entries: Seq<Sighting>) -> bool {
    forall|i: int, j: int|
        0 <= i < j < entries.len() ==> (#[trigger] entries[i]).timestamp < (
        #[trigger] entries[j]).timestamp
}

/// The indices of the nearest entries strictly before and strictly after
/// `key` in a time-sorted log: the immediate predecessor and successor.
pub fn neighbors(entries: &Vec<Sighting>, key: u32) -> (r: (Option<usize>, Option<usize>))
    requires
        log_sorted(entries@),
    ensures
        match r.0 {
            Some(p) => p < entries@.len() && entries@[p as int].timestamp < key && forall|k: int|
                0 <= k < entries@.len() && (#[trigger] entries@[k]).timestamp < key ==> k <= p,
            None => forall|k: int|
                0 <= k < entries@.len() ==> (#[trigger] entries@[k]).timestamp >= key,
        },
        match r.1 {
            Some(n) => n < entries@.len() && entries@[n as int].timestamp > key && forall|k: int|
                0 <= k < entries@.len() && (#[trigger] entries@[k]).timestamp > key ==> k >= n,
            None => forall|k: int|
                0 <= k < entries@.len() ==> (#[trigger] entries@[k]).timestamp <= key,
        },
{
    let mut prev: Option<usize> = None;
    let mut next: Option<usize> = None;
    let mut i: usize = 0;
    while i < entries.len()
        invariant
            i <= entries@.len(),
            match prev {
                Some(p) => p < i && entries@[p as int].timestamp < key && forall|k: int|
                    0 <= k < i && (#[trigger] entries@[k]).timestamp < key ==> k <= p,
                None => forall|k: int|
                    0 <= k < i ==> (#[trigger] entries@[k]).timestamp >= key,
            },
            match next {
                Some(n) => n < i && entries@[n as int].timestamp > key && forall|k: int|
                    0 <= k < entries@.len() && (#[trigger] entries@[k]).timestamp > key ==> k >= n,
                None => forall|k: int|
                    0 <= k < i ==> (#[trigger] entries@[k]).timestamp <= key,
            },
        decreases entries@.len() - i,
    {
        let ts = entries[i].timestamp;
        if ts < key {
            prev = Some(i);
        } else if ts > key && matches!(next, None) {
            next = Some(i);
        }
        i += 1;
    }
    (prev, next)
}

/// The index of the entry at exactly `key`, if present.
pub fn find_entry(entries: &Vec<Sighting>, key: u32) -> (r: Option<usize>)
    ensures
        match r {
            Some(ci) => ci < entries@.len() && entries@[ci as int].timestamp == key,
            None => forall|k: int|
                0 <= k < entries@.len() ==> (#[trigger] entries@[k]).timestamp != key,
        },
{
    let mut i: usize = 0;
    while i < entries.len()
        invariant
            i <= entries@.len(),
            forall|k: int| 0 <= k < i ==> (#[trigger] entries@[k]).timestamp != key,
        decreases entries@.len() - i,
    {
        if entries[i].timestamp == key {
            return Some(i);
        }
        i += 1;
    }
    None
}

/// The sighting at `ci` and its predecessor form a speeding pair under
/// the predecessor camera's limit.
pub open spec fn prev_speeds(e: Seq<Sighting>, ci: int) -> bool {
    ci > 0 && is_speeding(
        e[ci - 1].mile,
        e[ci - 1].timestamp,
        e[ci].mile,
        e[ci].timestamp,
        e[ci - 1].limit,
    )
}

/// The sighting at `ci` and its successor form a speeding pair under the
/// sighting's own camera limit.
pub open spec fn next_speeds(e: Seq<Sighting>, ci: int) -> bool {
    ci + 1 < e.len() && is_speeding(
        e[ci].mile,
        e[ci].timestamp,
        e[ci + 1].mile,
        e[ci + 1].timestamp,
        e[ci].limit,
    )
}

/// The ticket for the pair formed by `ci` and its predecessor.
pub open spec fn prev_ticket(name: String, road: u16, e: Seq<Sighting>, ci: int) -> Ticket {
    Ticket {
        plate: name,
        road,
        mile1: e[ci - 1].mile,
        timestamp1: e[ci - 1].timestamp,
        mile2: e[ci].mile,
        timestamp2: e[ci].timestamp,
        speed: speed_field(e[ci - 1].mile, e[ci - 1].timestamp, e[ci].mile, e[ci].timestamp),
    }
}

/// The ticket for the pair formed by `ci` and its successor.
pub open spec fn next_ticket(name: String, road: u16, e: Seq<Sighting>, ci: int) -> Ticket {
    Ticket {
        plate: name,
        road,
        mile1: e[ci].mile,
        timestamp1: e[ci].timestamp,
        mile2: e[ci + 1].mile,
        timestamp2: e[ci + 1].timestamp,
        speed: speed_field(e[ci].mile, e[ci].timestamp, e[ci + 1].mile, e[ci + 1].timestamp),
    }
}

/// The candidate tickets that the sighting at `ci` gives rise to: one for
/// the predecessor pair and one for the successor pair, each present
/// exactly when that pair is speeding.
pub open spec fn spec_candidates(name: String, road: u16, e: Seq<Sighting>, ci: int) -> Seq<
    Ticket,
> {
    (if prev_speeds(e, ci) {
        seq![prev_ticket(name, road, e, ci)]
    } else {
        Seq::empty()
    }) + (if next_speeds(e, ci) {
        seq![next_ticket(name, road, e, ci)]
    } else {
        Seq::empty()
    })
}

/// The day interval of `t` meets the recorded interval `iv`.
pub open spec fn overlaps(t: Ticket, iv: (u32, u32)) -> bool {
    day_of(t.timestamp1) <= iv.1 && iv.0 <= day_of(t.timestamp2)
}

/// The day interval of `t` meets some recorded interval.
pub open spec fn overlaps_any(t: Ticket, taken: Seq<(u32, u32)>) -> bool {
    exists|i: int| 0 <= i < taken.len() && overlaps(t, #[trigger] taken[i])
}

/// The candidates that survive day deduplication, in order: a candidate
/// whose day interval meets an already-taken interval is dropped, and a
/// kept candidate's interval is taken from then on.
pub open spec fn dedup_filter(cands: Seq<Ticket>, taken: Seq<(u32, u32)>) -> Seq<Ticket>
    decreases cands.len(),
{
    if cands.len() == 0 {
        Seq::empty()
    } else {
        let t = cands[0];
        if overlaps_any(t, taken) {
            dedup_filter(cands.subrange(1, cands.len() as int), taken)
        } else {
            seq![t] + dedup_filter(
                cands.subrange(1, cands.len() as int),
                taken.push((day_of(t.timestamp1) as u32, day_of(t.timestamp2) as u32)),
            )
        }
    }
}

/// Every ticket that survives deduplication is one of the candidates.
pub proof fn lemma_dedup_subset(cands: Seq<Ticket>, taken: Seq<(u32, u32)>, k: int)
    requires
        0 <= k < dedup_filter(cands, taken).len(),
    ensures
        exists|j: int| 0 <= j < cands.len() && #[trigger] cands[j] == dedup_filter(
            cands,
            taken,
        )[k],
    decreases cands.len(),
{
    let rest = cands.subrange(1, cands.len() as int);
    let t = cands[0];
    if overlaps_any(t, taken) {
        lemma_dedup_subset(rest, taken, k);
        let j = choose|j: int|
            0 <= j < rest.len() && #[trigger] rest[j] == dedup_filter(rest, taken)[k];
        assert(cands[j + 1] == dedup_filter(cands, taken)[k]);
    } else {
        let taken2 = taken.push((day_of(t.timestamp1) as u32, day_of(t.timestamp2) as u32));
        if k == 0 {
            assert(cands[0] == dedup_filter(cands, taken)[0]);
        } else {
            lemma_dedup_subset(rest, taken2, k - 1);
            let j = choose|j: int|
                0 <= j < rest.len() && #[trigger] rest[j] == dedup_filter(rest, taken2)[k - 1];
            assert(cands[j + 1] == dedup_filter(cands, taken)[k]);
        }
    }
}

/// The new entry list is the old one with `s` recorded: an entry at the
/// same timestamp is replaced, otherwise `s` is inserted at its place in
/// time order.
pub open spec fn entries_record(old_e: Seq<Sighting>, new_e: Seq<Sighting>, s: Sighting) -> bool {
    if exists|ci: int| 0 <= ci < old_e.len() && (#[trigger] old_e[ci]).timestamp == s.timestamp {
        forall|ci: int|
            0 <= ci < old_e.len() && (#[trigger] old_e[ci]).timestamp == s.timestamp ==> new_e
                == old_e.update(ci, s)
    } else {
        exists|pos: int|
            #![trigger old_e.insert(pos, s)]
            0 <= pos <= old_e.len() && (forall|k: int|
                0 <= k < pos ==> (#[trigger] old_e[k]).timestamp < s.timestamp) && (pos
                < old_e.len() ==> old_e[pos].timestamp > s.timestamp) && new_e == old_e.insert(
                pos,
                s,
            )
    }
}

/// The new road logs are the old ones with one sighting recorded for the
/// camera's road: that road's log gains (or replaces) the entry, a road
/// seen for the first time gains a one-entry log, and every other log is
/// unchanged.
pub open spec fn logs_record(
    old_logs: Seq<RoadLog>,
    new_logs: Seq<RoadLog>,
    timestamp: u32,
    camera: Camera,
) -> bool {
    let s = Sighting { timestamp, mile: camera.location, limit: camera.limit };
    if exists|li: int| 0 <= li < old_logs.len() && (#[trigger] old_logs[li]).road == camera.road {
        &&& new_logs.len() == old_logs.len()
        &&& forall|li: int|
            0 <= li < old_logs.len() && (#[trigger] old_logs[li]).road != camera.road
                ==> new_logs[li] == old_logs[li]
        &&& forall|li: int|
            0 <= li < old_logs.len() && (#[trigger] old_logs[li]).road == camera.road
                ==> new_logs[li].road == camera.road && entries_record(
                old_logs[li].entries@,
                new_logs[li].entries@,
                s,
            )
    } else {
        &&& new_logs.len() == old_logs.len() + 1
        &&& forall|li: int| 0 <= li < old_logs.len() ==> #[trigger] new_logs[li] == old_logs[li]
        &&& new_logs.last().road == camera.road
        &&& new_logs.last().entries@ =~= seq![s]
    }
}

/// The day intervals of a ticket list, in order.
pub open spec fn day_intervals(r: Seq<Ticket>) -> Seq<(u32, u32)> {
    Seq::new(
        r.len(),
        |i: int| ((day_of(r[i].timestamp1) as u32, day_of(r[i].timestamp2) as u32)),
    )
}

/// The road logs are each time-sorted and concern pairwise distinct
/// roads.
pub open spec fn logs_ok(logs: Seq<RoadLog>) -> bool {
    &&& forall|li: int| 0 <= li < logs.len() ==> log_sorted((#[trigger] logs[li]).entries@)
    &&& forall|li: int, lj: int|
        0 <= li < lj < logs.len() ==> (#[trigger] logs[li]).road != (#[trigger] logs[lj]).road
}

/// The emitted tickets and the recorded day intervals line up: interval
/// `i` is exactly the day range of emitted ticket `i`, each ticket's
/// range is well formed, and the ranges are pairwise disjoint.
pub open spec fn tickets_ok(emitted: Seq<Ticket>, ticketed: Seq<(u32, u32)>) -> bool {
    &&& ticketed.len() == emitted.len()
    &&& forall|i: int|
        0 <= i < emitted.len() ==> (#[trigger] ticketed[i]).0 == day_of(emitted[i].timestamp1)
            && ticketed[i].1 == day_of(emitted[i].timestamp2)
    &&& forall|i: int|
        0 <= i < emitted.len() ==> (#[trigger] emitted[i]).timestamp1 < emitted[i].timestamp2
    &&& forall|i: int, j: int|
        0 <= i < j < emitted.len() ==> days_disjoint(#[trigger] emitted[i], #[trigger] emitted[j])
}

/// The ticket is witnessed by the plate's own record: two sightings on
/// the ticket's road in chronological order, matching the ticket's miles
/// and times, whose average speed exceeds the earlier camera's limit and
/// is the ticket's speed field.
pub open spec fn ticket_witnessed(logs: Seq<RoadLog>, t: Ticket) -> bool {
    exists|li: int, a: int, b: int|
        #![trigger logs[li].entries@[a], logs[li].entries@[b]]
        {
            let e = logs[li].entries@;
            &&& 0 <= li < logs.len()
            &&& logs[li].road == t.road
            &&& 0 <= a < b < e.len()
            &&& e[a].timestamp == t.timestamp1
            &&& e[a].mile == t.mile1
            &&& e[b].timestamp == t.timestamp2
            &&& e[b].mile == t.mile2
            &&& is_speeding(t.mile1, t.timestamp1, t.mile2, t.timestamp2, e[a].limit)
            &&& t.speed == speed_field(t.mile1, t.timestamp1, t.mile2, t.timestamp2)
        }
}

/// The state kept for one plate: its name, its sightings by road, the day
/// intervals already ticketed, and — as a record for the ticket-per-day
/// law — the tickets emitted so far.
pub struct PlateState {
    pub name: String,
    pub sightings: Vec<RoadLog>,
    pub ticketed_days: Vec<(u32, u32)>,
    pub emitted: Ghost<Seq<Ticket>>,
}

impl PlateState {
    /// The plate state's well-formedness.
    pub open spec fn wf(&self) -> bool {
        &&& logs_ok(self.sightings@)
        &&& tickets_ok(self.emitted@, self.ticketed_days@)
    }

    /// A fresh plate state holding one sighting.
    pub fn new(name: &str, timestamp: u32, camera: &Camera) -> (ps: Self)
        ensures
            ps.wf(),
            ps.name@ == name@,
            ps.emitted@.len() == 0,
            ps.sightings@.len() == 1,
            ps.sightings@[0].road == camera.road,
            ps.sightings@[0].entries@ =~= seq![
                (Sighting { timestamp, mile: camera.location, limit: camera.limit }),
            ],
    {
        let mut entries: Vec<Sighting> = Vec::new();
        entries.push(Sighting { timestamp, mile: camera.location, limit: camera.limit });
        let mut sightings: Vec<RoadLog> = Vec::new();
        sightings.push(RoadLog { road: camera.road, entries });
        PlateState {
            name: name.to_owned(),
            sightings,
            ticketed_days: Vec::new(),
            emitted: Ghost(Seq::empty()),
        }
    }

    /// The index of this plate's log for `road`, if any.
    fn find_log(&self, road: u16) -> (r: Option<usize>)
        ensures
            match r {
                Some(li) => li < self.sightings@.len() && self.sightings@[li as int].road == road,
                None => forall|li: int|
                    0 <= li < self.sightings@.len() ==> (#[trigger] self.sightings@[li]).road
                        != road,
            },
    {
        let mut li: usize = 0;
        while li < self.sightings.len()
            invariant
                li <= self.sightings@.len(),
                forall|i: int| 0 <= i < li ==> (#[trigger] self.sightings@[i]).road != road,
            decreases self.sightings@.len() - li,
        {
            if self.sightings[li].road == road {
                return Some(li);
            }
            li += 1;
        }
        None
    }

    /// The candidate tickets arising from this plate's sighting at
    /// `timestamp` on `road`: the ticket of the predecessor pair and of
    /// the successor pair, each exactly when that pair is speeding. Empty
    /// when the plate has no sighting at that time on that road.
    pub fn has_ticket_for_road(&self, road: &u16, timestamp: &u32) -> (r: Vec<Ticket>)
        requires
            self.wf(),
        ensures
            forall|li: int, ci: int|
                0 <= li < self.sightings@.len() && (#[trigger] self.sightings@[li]).road == road
                    && 0 <= ci < self.sightings@[li].entries@.len() && (
                #[trigger] self.sightings@[li].entries@[ci]).timestamp == timestamp ==> r@
                    == spec_candidates(self.name, *road, self.sightings@[li].entries@, ci),
            (forall|li: int|
                0 <= li < self.sightings@.len() ==> (#[trigger] self.sightings@[li]).road
                    != road) ==> r@.len() == 0,
            forall|li: int|
                0 <= li < self.sightings@.len() && (#[trigger] self.sightings@[li]).road == road
                    && (forall|ci: int|
                    0 <= ci < self.sightings@[li].entries@.len() ==> (
                    #[trigger] self.sightings@[li].entries@[ci]).timestamp != timestamp)
                    ==> r@.len() == 0,
    {
        let mut out: Vec<Ticket> = Vec::new();
        let li = match self.find_log(*road) {
            Some(li) => li,
            None => {
                return out;
            },
        };
        let entries = &self.sightings[li].entries;
        let ci = match find_entry(entries, *timestamp) {
            Some(ci) => ci,
            None => {
                return out;
            },
        };
        proof {
            assert(log_sorted(entries@));
        }
        let (prev, next) = neighbors(entries, *timestamp);
        let cur = entries[ci];
        if let Some(p) = prev {
            proof {
                assert(entries@[p as int].timestamp < entries@[ci as int].timestamp);
                assert(p < ci);
                if p + 1 < ci {
                    assert(entries@[ci - 1].timestamp < entries@[ci as int].timestamp);
                    assert(ci - 1 <= p);
                    assert(false);
                }
                assert(p == ci - 1);
            }
            let a = entries[p];
            let cam_a = Camera::new(*road, a.mile, a.limit);
            let cam_b = Camera::new(*road, cur.mile, cur.limit);
            if let Some(speed) = cam_a.speeding(&a.timestamp, &cam_b, &cur.timestamp) {
                out.push(
                    Ticket {
                        plate: self.name.clone(),
                        road: *road,
                        mile1: a.mile,
                        timestamp1: a.timestamp,
                        mile2: cur.mile,
                        timestamp2: cur.timestamp,
                        speed,
                    },
                );
            }
        } else {
            proof {
                if ci > 0 {
                    assert(entries@[ci - 1].timestamp < entries@[ci as int].timestamp);
                    assert(entries@[ci - 1].timestamp >= *timestamp);
                    assert(false);
                }
            }
        }
        if let Some(n) = next {
            proof {
                assert(entries@[n as int].timestamp > entries@[ci as int].timestamp);
                assert(ci < n);
                if ci + 1 < n {
                    assert(entries@[ci + 1].timestamp > entries@[ci as int].timestamp);
                    assert(n <= ci + 1);
                    assert(false);
                }
                assert(n == ci + 1);
            }
            let b = entries[n];
            let cam_a = Camera::new(*road, cur.mile, cur.limit);
            let cam_b = Camera::new(*road, b.mile, b.limit);
            if let Some(speed) = cam_a.speeding(&cur.timestamp, &cam_b, &b.timestamp) {
                out.push(
                    Ticket {
                        plate: self.name.clone(),
                        road: *road,
                        mile1: cur.mile,
                        timestamp1: cur.timestamp,
                        mile2: b.mile,
                        timestamp2: b.timestamp,
                        speed,
                    },
                );
            }
        } else {
            proof {
                if ci + 1 < entries@.len() {
                    assert(entries@[ci + 1].timestamp > entries@[ci as int].timestamp);
                    assert(entries@[ci + 1].timestamp <= *timestamp);
                    assert(false);
                }
            }
        }
        proof {
            assert(out@ =~= spec_candidates(self.name, *road, entries@, ci as int));
            assert forall|li2: int, ci2: int|
                0 <= li2 < self.sightings@.len() && (#[trigger] self.sightings@[li2]).road == road
                    && 0 <= ci2 < self.sightings@[li2].entries@.len() && (
                #[trigger] self.sightings@[li2].entries@[ci2]).timestamp == timestamp implies out@
                == spec_candidates(self.name, *road, self.sightings@[li2].entries@, ci2) by {
                if li2 < li {
                    assert(self.sightings@[li2].road != self.sightings@[li as int].road);
                } else if li2 > li {
                    assert(self.sightings@[li as int].road != self.sightings@[li2].road);
                }
                assert(li2 == li);
                if ci2 < ci {
                    assert(entries@[ci2].timestamp < entries@[ci as int].timestamp);
                } else if ci2 > ci {
                    assert(entries@[ci as int].timestamp < entries@[ci2].timestamp);
                }
                assert(ci2 == ci);
            }
        }
        out
    }
    /// Records the sighting reported by `camera` at `timestamp` and
    /// returns the tickets to issue for it: the speeding candidates of
    /// the new sighting's neighbor pairs, minus any whose day range meets
    /// a day already ticketed for this plate. Every returned ticket's day
    /// range is recorded, and the ticket is appended to the emitted
    /// record.
    #[verifier::rlimit(100)]
    pub fn update(&mut self, timestamp: u32, camera: &Camera) -> (r: Vec<Ticket>)
        requires
            old(self).wf(),
        ensures
            final(self).wf(),
            final(self).name == old(self).name,
            final(self).emitted@ == old(self).emitted@ + r@,
            logs_record(old(self).sightings@, final(self).sightings@, timestamp, *camera),
            final(self).ticketed_days@ =~= old(self).ticketed_days@ + day_intervals(r@),
            forall|li: int, ci: int|
                0 <= li < final(self).sightings@.len() && (#[trigger] final(self).sightings@[li]).road == camera.road && 0 <= ci < final(self).sightings@[li].entries@.len() && (#[trigger] final(self).sightings@[li].entries@[ci]).timestamp == timestamp ==> r@ == dedup_filter(
                    spec_candidates(
                        final(self).name,
                        camera.road,
                        final(self).sightings@[li].entries@,
                        ci,
                    ),
                    old(self).ticketed_days@,
                ),
            exists|li: int, ci: int|
                0 <= li < final(self).sightings@.len() && final(self).sightings@[li].road
                    == camera.road && 0 <= ci < final(self).sightings@[li].entries@.len() && (
                #[trigger] final(self).sightings@[li].entries@[ci]) == (Sighting {
                    timestamp,
                    mile: camera.location,
                    limit: camera.limit,
                }),
            forall|k: int|
                0 <= k < r@.len() ==> (#[trigger] r@[k]).plate == final(self).name && r@[k].road
                    == camera.road && r@[k].timestamp1 < r@[k].timestamp2 && ticket_witnessed(
                    final(self).sightings@,
                    r@[k],
                ),
    {
        let li = match self.find_log(camera.road) {
            Some(li) => li,
            None => {
                let li = self.sightings.len();
                self.sightings.push(RoadLog { road: camera.road, entries: Vec::new() });
                proof {
                    assert forall|i: int|
                        0 <= i < self.sightings@.len() implies log_sorted(
                        (#[trigger] self.sightings@[i]).entries@,
                    ) by {
                        if i < self.sightings@.len() - 1 {
                            assert(log_sorted(old(self).sightings@[i].entries@));
                        }
                    }
                }
                li
            },
        };
        let s = Sighting { timestamp, mile: camera.location, limit: camera.limit };
        let ghost mid0 = *self;
        let mut pos: usize = 0;
        let n = self.sightings[li].entries.len();
        while pos < n
            invariant
                *self == mid0,
                li < self.sightings@.len(),
                n == self.sightings@[li as int].entries@.len(),
                pos <= n,
                forall|k: int|
                    0 <= k < pos ==> (#[trigger] self.sightings@[li as int].entries@[k]).timestamp
                        < timestamp,
            ensures
                *self == mid0,
                pos <= self.sightings@[li as int].entries@.len(),
                forall|k: int|
                    0 <= k < pos ==> (#[trigger] self.sightings@[li as int].entries@[k]).timestamp
                        < timestamp,
                pos < self.sightings@[li as int].entries@.len()
                    ==> self.sightings@[li as int].entries@[pos as int].timestamp >= timestamp,
            decreases n - pos,
        {
            if self.sightings[li].entries[pos].timestamp >= timestamp {
                break;
            }
            pos += 1;
        }
        let replace = pos < self.sightings[li].entries.len()
            && self.sightings[li].entries[pos].timestamp == timestamp;
        if replace {
            self.sightings[li].entries[pos] = s;
        } else {
            self.sightings[li].entries.insert(pos, s);
        }
        proof {
            let e = self.sightings@[li as int].entries@;
            let e0 = mid0.sightings@[li as int].entries@;
            assert(log_sorted(e0));
            if replace {
                assert forall|i: int, j: int|
                    0 <= i < j < e.len() implies (#[trigger] e[i]).timestamp < (
                #[trigger] e[j]).timestamp by {
                    assert(e0[i].timestamp < e0[j].timestamp);
                }
            } else {
                assert forall|i: int, j: int|
                    0 <= i < j < e.len() implies (#[trigger] e[i]).timestamp < (
                #[trigger] e[j]).timestamp by {
                    if i < pos && j < pos {
                        assert(e[i] == e0[i] && e[j] == e0[j]);
                    } else if i < pos && j == pos {
                        assert(e[i] == e0[i]);
                    } else if i < pos && j > pos {
                        assert(e[i] == e0[i] && e[j] == e0[j - 1]);
                        if pos <= j - 1 {
                            assert(e0[j - 1].timestamp >= timestamp);
                            if e0[j - 1].timestamp == timestamp {
                                assert(!replace);
                                assert(pos < e0.len() && e0[pos as int].timestamp >= timestamp);
                                if pos as int == j - 1 {
                                } else {
                                    assert(e0[pos as int].timestamp < e0[j - 1].timestamp);
                                }
                                assert(e0[pos as int].timestamp == timestamp);
                                assert(false);
                            }
                        }
                    } else if i == pos && j > pos {
                        assert(e[j] == e0[j - 1]);
                        assert(e0[j - 1].timestamp >= timestamp);
                        if e0[j - 1].timestamp == timestamp {
                            assert(pos as int <= j - 1);
                            if pos as int == j - 1 {
                            } else {
                                assert(e0[pos as int].timestamp < e0[j - 1].timestamp);
                                assert(e0[pos as int].timestamp >= timestamp);
                            }
                            assert(false);
                        }
                    } else {
                        assert(e[i] == e0[i - 1] && e[j] == e0[j - 1]);
                        assert(e0[i - 1].timestamp < e0[j - 1].timestamp);
                    }
                }
            }
            assert forall|i: int|
                0 <= i < self.sightings@.len() implies log_sorted(
                (#[trigger] self.sightings@[i]).entries@,
            ) by {
                if i != li {
                    assert(log_sorted(mid0.sightings@[i].entries@));
                }
            }
            assert forall|a: int, b: int|
                0 <= a < b < self.sightings@.len() implies (#[trigger] self.sightings@[a]).road
                != (#[trigger] self.sightings@[b]).road by {
                assert(mid0.sightings@[a].road != mid0.sightings@[b].road);
            }
        }
        proof {
            let oldl = old(self).sightings@;
            let newl = self.sightings@;
            let e = self.sightings@[li as int].entries@;
            let e0 = mid0.sightings@[li as int].entries@;
            if li < oldl.len() {
                assert(oldl[li as int].road == camera.road);
                assert(oldl[li as int] == mid0.sightings@[li as int]);
                if replace {
                    assert(e == e0.update(pos as int, s));
                    assert(e0[pos as int].timestamp == timestamp);
                    assert forall|ci: int|
                        0 <= ci < e0.len() && (#[trigger] e0[ci]).timestamp
                            == s.timestamp implies e == e0.update(ci, s) by {
                        if ci < pos {
                            assert(e0[ci].timestamp < e0[pos as int].timestamp);
                            assert(false);
                        } else if ci > pos {
                            assert(e0[pos as int].timestamp < e0[ci].timestamp);
                            assert(false);
                        }
                    }
                    assert(entries_record(e0, e, s));
                } else {
                    assert forall|ci: int|
                        0 <= ci < e0.len() implies (#[trigger] e0[ci]).timestamp
                        != s.timestamp by {
                        if e0[ci].timestamp == timestamp {
                            if ci < pos {
                                assert(e0[ci].timestamp < timestamp);
                                assert(false);
                            } else {
                                assert(pos < e0.len());
                                assert(e0[pos as int].timestamp >= timestamp);
                                assert(e0[pos as int].timestamp != timestamp);
                                if ci > pos {
                                    assert(e0[pos as int].timestamp < e0[ci].timestamp);
                                }
                                assert(false);
                            }
                        }
                    }
                    assert(e == e0.insert(pos as int, s));
                    assert(pos < e0.len() ==> e0[pos as int].timestamp > timestamp);
                    assert(entries_record(e0, e, s));
                }
                assert forall|li2: int|
                    0 <= li2 < oldl.len() && (#[trigger] oldl[li2]).road
                        != camera.road implies newl[li2] == oldl[li2] by {
                    assert(li2 != li);
                    assert(newl[li2] == mid0.sightings@[li2]);
                }
                assert forall|li2: int|
                    0 <= li2 < oldl.len() && (#[trigger] oldl[li2]).road
                        == camera.road implies newl[li2].road == camera.road && entries_record(
                    oldl[li2].entries@,
                    newl[li2].entries@,
                    s,
                ) by {
                    if li2 != li as int {
                        assert(oldl[li2].road != oldl[li as int].road);
                        assert(false);
                    }
                }
                assert(logs_record(oldl, newl, timestamp, *camera));
            } else {
                assert(newl.len() == oldl.len() + 1);
                assert forall|li2: int|
                    0 <= li2 < oldl.len() implies #[trigger] newl[li2] == oldl[li2] by {
                    assert(newl[li2] == mid0.sightings@[li2]);
                }
                assert(newl.last().road == camera.road);
                assert(e0.len() == 0);
                assert(pos == 0);
                assert(e =~= seq![s]);
                assert(!(exists|li2: int|
                    0 <= li2 < oldl.len() && (#[trigger] oldl[li2]).road == camera.road));
                assert(logs_record(oldl, newl, timestamp, *camera));
            }
        }
        let ghost ci = pos as int;
        proof {
            assert(self.sightings@[li as int].entries@[ci].timestamp == timestamp);
        }
        let cands = self.has_ticket_for_road(&camera.road, &timestamp);
        proof {
            assert(cands@ == spec_candidates(
                self.name,
                camera.road,
                self.sightings@[li as int].entries@,
                ci,
            ));
        }
        let ghost old_tk = self.ticketed_days@;
        let ghost mid1 = *self;
        proof {
            let e = self.sightings@[li as int].entries@;
            let sc = spec_candidates(self.name, camera.road, e, ci);
            assert forall|k: int|
                0 <= k < cands@.len() implies (#[trigger] cands@[k]).timestamp1
                < cands@[k].timestamp2 by {
                if prev_speeds(e, ci) && next_speeds(e, ci) {
                    assert(sc[0] == prev_ticket(self.name, camera.road, e, ci));
                    assert(sc[1] == next_ticket(self.name, camera.road, e, ci));
                } else if prev_speeds(e, ci) {
                    assert(sc[0] == prev_ticket(self.name, camera.road, e, ci));
                } else if next_speeds(e, ci) {
                    assert(sc[0] == next_ticket(self.name, camera.road, e, ci));
                }
            }
        }
        let mut out: Vec<Ticket> = Vec::new();
        let mut i: usize = 0;
        proof {
            assert(cands@.subrange(0, cands@.len() as int) =~= cands@);
        }
        while i < cands.len()
            invariant
                self.wf(),
                i <= cands@.len(),
                self.name == mid1.name,
                self.sightings == mid1.sightings,
                self.emitted@ == mid1.emitted@ + out@,
                self.ticketed_days@ =~= old_tk + day_intervals(out@),
                dedup_filter(cands@, old_tk) == out@ + dedup_filter(
                    cands@.subrange(i as int, cands@.len() as int),
                    self.ticketed_days@,
                ),
                forall|k: int|
                    0 <= k < cands@.len() ==> (#[trigger] cands@[k]).timestamp1
                        < cands@[k].timestamp2,
            decreases cands@.len() - i,
        {
            let t = &cands[i];
            let d1 = day_of_timestamp(t.timestamp1);
            let d2 = day_of_timestamp(t.timestamp2);
            let mut hit = false;
            let mut j: usize = 0;
            while j < self.ticketed_days.len()
                invariant_except_break
                    !hit,
                invariant
                    j <= self.ticketed_days@.len(),
                    forall|k: int|
                        0 <= k < j ==> !overlaps(cands@[i as int], #[trigger] self.ticketed_days@[k]),
                    d1 == day_of(cands@[i as int].timestamp1),
                    d2 == day_of(cands@[i as int].timestamp2),
                    i < cands@.len(),
                ensures
                    hit == overlaps_any(cands@[i as int], self.ticketed_days@),
                    d1 == day_of(cands@[i as int].timestamp1),
                    d2 == day_of(cands@[i as int].timestamp2),
                    i < cands@.len(),
                decreases self.ticketed_days@.len() - j,
            {
                let iv = self.ticketed_days[j];
                if d1 <= iv.1 && iv.0 <= d2 {
                    hit = true;
                    break;
                }
                j += 1;
            }
            let ghost pre = *self;
            let ghost pre_out = out@;
            let ghost tick = cands@[i as int];
            let ghost sub_i = cands@.subrange(i as int, cands@.len() as int);
            proof {
                assert(sub_i[0] == cands@[i as int]);
                assert(sub_i.subrange(1, sub_i.len() as int) =~= cands@.subrange(
                    i + 1,
                    cands@.len() as int,
                ));
            }
            if !hit {
                out.push(
                    Ticket {
                        plate: t.plate.clone(),
                        road: t.road,
                        mile1: t.mile1,
                        timestamp1: t.timestamp1,
                        mile2: t.mile2,
                        timestamp2: t.timestamp2,
                        speed: t.speed,
                    },
                );
                self.ticketed_days.push((d1, d2));
                proof {
                    self.emitted@ = pre.emitted@.push(cands@[i as int]);
                }
                proof {
                    let em = self.emitted@;
                    let tk = self.ticketed_days@;
                    assert(out@[out@.len() - 1].plate == tick.plate);
                    assert(out@[out@.len() - 1] == tick);
                    assert(out@ =~= pre_out.push(tick));
                    assert(pre.emitted@ == mid1.emitted@ + pre_out);
                    assert(em == pre.emitted@.push(tick));
                    assert(em =~= mid1.emitted@ + out@);
                    assert(tk =~= old_tk + day_intervals(out@)) by {
                        assert(tk == pre.ticketed_days@.push((d1, d2)));
                        assert(pre.ticketed_days@ =~= old_tk + day_intervals(pre_out));
                        assert(day_intervals(out@) =~= day_intervals(pre_out).push((d1, d2)));
                    }
                    assert forall|a: int|
                        0 <= a < em.len() implies (#[trigger] tk[a]).0 == day_of(em[a].timestamp1)
                            && tk[a].1 == day_of(em[a].timestamp2) by {
                        if a < em.len() - 1 {
                            assert(tk[a] == pre.ticketed_days@[a]);
                            assert(em[a] == pre.emitted@[a]);
                        }
                    }
                    assert forall|a: int|
                        0 <= a < em.len() implies (#[trigger] em[a]).timestamp1
                        < em[a].timestamp2 by {
                        if a < em.len() - 1 {
                            assert(em[a] == pre.emitted@[a]);
                        }
                    }
                    assert forall|a: int, b: int|
                        0 <= a < b < em.len() implies days_disjoint(
                        #[trigger] em[a],
                        #[trigger] em[b],
                    ) by {
                        if b < em.len() - 1 {
                            assert(em[a] == pre.emitted@[a] && em[b] == pre.emitted@[b]);
                            assert(days_disjoint(pre.emitted@[a], pre.emitted@[b]));
                        } else {
                            assert(em[a] == pre.emitted@[a]);
                            assert(!overlaps(cands@[i as int], pre.ticketed_days@[a]));
                            assert(pre.ticketed_days@[a].0 == day_of(pre.emitted@[a].timestamp1));
                            assert(pre.ticketed_days@[a].1 == day_of(pre.emitted@[a].timestamp2));
                        }
                    }
                }
            } else {
                proof {
                    assert(overlaps_any(sub_i[0], self.ticketed_days@));
                    assert(self.ticketed_days@ =~= old_tk + day_intervals(out@));
                }
            }
            i += 1;
            proof {
                assert(cands@.subrange(i as int, cands@.len() as int) =~= sub_i.subrange(
                    1,
                    sub_i.len() as int,
                ));
            }
        }
        proof {
            assert(cands@.subrange(cands@.len() as int, cands@.len() as int) =~= Seq::<
                Ticket,
            >::empty());
            assert(dedup_filter(cands@.subrange(cands@.len() as int, cands@.len() as int),
                self.ticketed_days@) =~= Seq::<Ticket>::empty());
            assert(out@ + Seq::<Ticket>::empty() =~= out@);
            assert(dedup_filter(cands@, old_tk) == out@);
            assert(self.emitted@ =~= old(self).emitted@ + out@);
            assert(old_tk == old(self).ticketed_days@);
            assert(self.ticketed_days@ =~= old(self).ticketed_days@ + day_intervals(out@));
            assert forall|li2: int, ci2: int|
                0 <= li2 < self.sightings@.len() && (#[trigger] self.sightings@[li2]).road
                    == camera.road && 0 <= ci2 < self.sightings@[li2].entries@.len() && (
                #[trigger] self.sightings@[li2].entries@[ci2]).timestamp == timestamp implies out@
                == dedup_filter(
                spec_candidates(self.name, camera.road, self.sightings@[li2].entries@, ci2),
                old_tk,
            ) by {
                if li2 < li {
                    assert(self.sightings@[li2].road != self.sightings@[li as int].road);
                } else if li2 > li {
                    assert(self.sightings@[li as int].road != self.sightings@[li2].road);
                }
                let e = self.sightings@[li as int].entries@;
                if ci2 < ci {
                    assert(e[ci2].timestamp < e[ci].timestamp);
                } else if ci2 > ci {
                    assert(e[ci].timestamp < e[ci2].timestamp);
                }
            }
            assert(self.sightings@[li as int].entries@[ci] == (Sighting {
                timestamp,
                mile: camera.location,
                limit: camera.limit,
            }));
            let e = self.sightings@[li as int].entries@;
            let sc = spec_candidates(self.name, camera.road, e, ci);
            assert forall|k: int|
                0 <= k < out@.len() implies (#[trigger] out@[k]).plate == self.name && out@[k].road
                == camera.road && out@[k].timestamp1 < out@[k].timestamp2 && ticket_witnessed(
                self.sightings@,
                out@[k],
            ) by {
                lemma_dedup_subset(sc, old_tk, k);
                let j = choose|j: int| 0 <= j < sc.len() && #[trigger] sc[j] == out@[k];
                lemma_candidates_sound(self.name, camera.road, e, ci, j);
                let (a, b) = choose|a: int, b: int|
                    0 <= a < b < e.len() && (#[trigger] e[a]).timestamp == sc[j].timestamp1
                        && e[a].mile == sc[j].mile1 && (#[trigger] e[b]).timestamp
                        == sc[j].timestamp2 && e[b].mile == sc[j].mile2 && is_speeding(
                        sc[j].mile1,
                        sc[j].timestamp1,
                        sc[j].mile2,
                        sc[j].timestamp2,
                        e[a].limit,
                    );
                assert(self.sightings@[li as int].entries@[a] == e[a]);
                assert(self.sightings@[li as int].entries@[b] == e[b]);
            }
        }
        out
    }
}

/// All plate states, looked up by plate name.
pub struct PlateStorage {
    pub plates: Vec<PlateState>,
}

impl PlateStorage {
    /// Every plate state is well formed and plate names are distinct.
    pub open spec fn wf(&self) -> bool {
        &&& forall|i: int| 0 <= i < self.plates@.len() ==> (#[trigger] self.plates@[i]).wf()
        &&& forall|i: int, j: int|
            0 <= i < j < self.plates@.len() ==> (#[trigger] self.plates@[i]).name@ != (
            #[trigger] self.plates@[j]).name@
    }

    /// An empty registry.
    pub fn new() -> (st: Self)
        ensures
            st.wf(),
            st.plates@.len() == 0,
    {
        PlateStorage { plates: Vec::new() }
    }

    /// Records a sighting of plate `name` from `camera` and returns the
    /// tickets to issue, creating the plate's state on first sight. The
    /// named plate's emitted record grows by exactly the returned
    /// tickets; every other plate is untouched.
    pub fn update_plate(&mut self, name: &str, timestamp: u32, camera: &Camera) -> (r: Vec<Ticket>)
        requires
            old(self).wf(),
        ensures
            final(self).wf(),
            (forall|pi: int|
                0 <= pi < old(self).plates@.len() ==> (#[trigger] old(self).plates@[pi]).name@
                    != name@) ==> final(self).plates@.len() == old(self).plates@.len() + 1 && (
            forall|pi: int|
                0 <= pi < old(self).plates@.len() ==> #[trigger] final(self).plates@[pi] == old(self).plates@[pi]) && final(self).plates@.last().name@ == name@ && final(self).plates@.last().emitted@ == r@
                && final(self).plates@.last().sightings@.len() == 1 && final(self).plates@.last().sightings@[0].road
                == camera.road && final(self).plates@.last().sightings@[0].entries@ =~= seq![
                (Sighting { timestamp, mile: camera.location, limit: camera.limit }),
            ] && r@ =~= Seq::<Ticket>::empty(),
            forall|pi: int|
                0 <= pi < old(self).plates@.len() && (#[trigger] old(self).plates@[pi]).name@
                    == name@ ==> final(self).plates@.len() == old(self).plates@.len() && final(self).plates@[pi].name@ == name@ && final(self).plates@[pi].emitted@ == old(self).plates@[pi].emitted@ + r@ && (forall|pj: int|
                    0 <= pj < old(self).plates@.len() && pj != pi ==> #[trigger] final(self).plates@[pj] == old(self).plates@[pj]) && logs_record(
                    old(self).plates@[pi].sightings@,
                    final(self).plates@[pi].sightings@,
                    timestamp,
                    *camera,
                ) && final(self).plates@[pi].ticketed_days@ =~= old(self).plates@[pi].ticketed_days@
                + day_intervals(r@) && (forall|li: int, ci: int|
                    0 <= li < final(self).plates@[pi].sightings@.len() && (#[trigger] final(self).plates@[pi].sightings@[li]).road
                        == camera.road && 0 <= ci < final(self).plates@[pi].sightings@[li].entries@.len()
                        && (#[trigger] final(self).plates@[pi].sightings@[li].entries@[ci]).timestamp
                        == timestamp ==> r@ == dedup_filter(
                        spec_candidates(
                            final(self).plates@[pi].name,
                            camera.road,
                            final(self).plates@[pi].sightings@[li].entries@,
                            ci,
                        ),
                        old(self).plates@[pi].ticketed_days@,
                    )),
            forall|k: int|
                0 <= k < r@.len() ==> (#[trigger] r@[k]).plate@ == name@ && r@[k].road
                    == camera.road && r@[k].timestamp1 < r@[k].timestamp2,
            forall|k: int|
                0 <= k < r@.len() ==> exists|pi: int|
                    0 <= pi < final(self).plates@.len() && final(self).plates@[pi].name@ == name@
                        && ticket_witnessed(final(self).plates@[pi].sightings@, #[trigger] r@[k]),
    {
        let name_string = name.to_owned();
        let mut pi: usize = 0;
        let n = self.plates.len();
        let mut found: Option<usize> = None;
        while pi < n
            invariant_except_break
                found is None,
            invariant
                self == old(self),
                n == self.plates@.len(),
                pi <= n,
                name_string@ == name@,
                forall|k: int| 0 <= k < pi ==> (#[trigger] self.plates@[k]).name@ != name@,
            ensures
                self == old(self),
                name_string@ == name@,
                match found {
                    Some(f) => f < self.plates@.len() && self.plates@[f as int].name@ == name@,
                    None => forall|k: int|
                        0 <= k < self.plates@.len() ==> (#[trigger] self.plates@[k]).name@
                            != name@,
                },
            decreases n - pi,
        {
            if self.plates[pi].name == name_string {
                found = Some(pi);
                break;
            }
            pi += 1;
        }
        match found {
            Some(f) => {
                let plate = &mut self.plates[f];
                let r = plate.update(timestamp, camera);
                proof {
                    assert forall|i: int|
                        0 <= i < self.plates@.len() implies (#[trigger] self.plates@[i]).wf() by {
                        if i != f {
                            assert(self.plates@[i] == old(self).plates@[i]);
                            assert(old(self).plates@[i].wf());
                        }
                    }
                    assert forall|i: int, j: int|
                        0 <= i < j < self.plates@.len() implies (
                    #[trigger] self.plates@[i]).name@ != (#[trigger] self.plates@[j]).name@ by {
                        assert(old(self).plates@[i].name@ != old(self).plates@[j].name@);
                        if i == f {
                            assert(self.plates@[i].name == old(self).plates@[i].name);
                        } else if j == f {
                            assert(self.plates@[j].name == old(self).plates@[j].name);
                        }
                    }
                    assert forall|k: int|
                        0 <= k < r@.len() implies exists|pi: int|
                        0 <= pi < self.plates@.len() && self.plates@[pi].name@ == name@
                            && ticket_witnessed(
                            self.plates@[pi].sightings@,
                            #[trigger] r@[k],
                        ) by {
                        assert(self.plates@[f as int].name@ == name@);
                        assert(ticket_witnessed(self.plates@[f as int].sightings@, r@[k]));
                    }
                    assert forall|pi: int|
                        0 <= pi < old(self).plates@.len() && (
                        #[trigger] old(self).plates@[pi]).name@ == name@ implies pi
                        == f as int by {
                        if pi != f {
                            if pi < f {
                                assert(old(self).plates@[pi].name@
                                    != old(self).plates@[f as int].name@);
                            } else {
                                assert(old(self).plates@[f as int].name@
                                    != old(self).plates@[pi].name@);
                            }
                        }
                    }
                    assert(logs_record(
                        old(self).plates@[f as int].sightings@,
                        self.plates@[f as int].sightings@,
                        timestamp,
                        *camera,
                    ));
                    assert(self.plates@[f as int].ticketed_days@
                        =~= old(self).plates@[f as int].ticketed_days@ + day_intervals(r@));
                    assert forall|li: int, ci: int|
                        0 <= li < self.plates@[f as int].sightings@.len() && (
                        #[trigger] self.plates@[f as int].sightings@[li]).road == camera.road && 0
                            <= ci < self.plates@[f as int].sightings@[li].entries@.len() && (
                        #[trigger] self.plates@[f as int].sightings@[li].entries@[ci]).timestamp
                            == timestamp implies r@ == dedup_filter(
                        spec_candidates(
                            self.plates@[f as int].name,
                            camera.road,
                            self.plates@[f as int].sightings@[li].entries@,
                            ci,
                        ),
                        old(self).plates@[f as int].ticketed_days@,
                    ) by {}
                }
                r
            },
            None => {
                let f = self.plates.len();
                let ps = PlateState::new(name, timestamp, camera);
                self.plates.push(ps);
                let plate = &mut self.plates[f];
                let r = plate.update(timestamp, camera);
                proof {
                    assert forall|i: int|
                        0 <= i < self.plates@.len() implies (#[trigger] self.plates@[i]).wf() by {
                        if i < f {
                            assert(self.plates@[i] == old(self).plates@[i]);
                            assert(old(self).plates@[i].wf());
                        }
                    }
                    assert forall|i: int, j: int|
                        0 <= i < j < self.plates@.len() implies (
                    #[trigger] self.plates@[i]).name@ != (#[trigger] self.plates@[j]).name@ by {
                        if j < f {
                            assert(old(self).plates@[i].name@ != old(self).plates@[j].name@);
                            assert(self.plates@[i] == old(self).plates@[i]);
                            assert(self.plates@[j] == old(self).plates@[j]);
                        } else {
                            assert(self.plates@[i] == old(self).plates@[i]);
                            assert(old(self).plates@[i].name@ != name@);
                            assert(self.plates@[j].name@ == name@);
                        }
                    }
                    assert(self.plates@.last().emitted@ =~= Seq::<Ticket>::empty() + r@);
                    assert(self.plates@.last().emitted@ == r@);
                    let ghost s_new = Sighting {
                        timestamp,
                        mile: camera.location,
                        limit: camera.limit,
                    };
                    let ghost fp = self.plates@[f as int];
                    assert(fp.sightings@.len() == 1 && fp.sightings@[0].road == camera.road
                        && fp.sightings@[0].entries@ =~= seq![s_new]) by {
                        let ghost ops = old(self).plates@.push(ps).last();
                        assert(logs_record(ops.sightings@, fp.sightings@, timestamp, *camera));
                        assert(ops.sightings@[0].road == camera.road);
                        assert(entries_record(
                            ops.sightings@[0].entries@,
                            fp.sightings@[0].entries@,
                            s_new,
                        ));
                        assert(ops.sightings@[0].entries@[0].timestamp == timestamp);
                        assert(fp.sightings@[0].entries@ == ops.sightings@[0].entries@.update(
                            0,
                            s_new,
                        ));
                        assert(fp.sightings@[0].entries@ =~= seq![s_new]);
                    }
                    assert(r@ =~= Seq::<Ticket>::empty()) by {
                        assert(fp.sightings@[0].entries@[0].timestamp == timestamp);
                        assert(r@ == dedup_filter(
                            spec_candidates(fp.name, camera.road, fp.sightings@[0].entries@, 0),
                            old(self).plates@.push(ps).last().ticketed_days@,
                        ));
                        assert(!prev_speeds(fp.sightings@[0].entries@, 0));
                        assert(!next_speeds(fp.sightings@[0].entries@, 0));
                        assert(spec_candidates(fp.name, camera.road, fp.sightings@[0].entries@, 0)
                            =~= Seq::<Ticket>::empty());
                        assert(dedup_filter(
                            Seq::<Ticket>::empty(),
                            old(self).plates@.push(ps).last().ticketed_days@,
                        ) =~= Seq::<Ticket>::empty());
                    }
                    assert forall|k: int|
                        0 <= k < r@.len() implies exists|pi: int|
                        0 <= pi < self.plates@.len() && self.plates@[pi].name@ == name@
                            && ticket_witnessed(
                            self.plates@[pi].sightings@,
                            #[trigger] r@[k],
                        ) by {
                        assert(self.plates@[f as int].name@ == name@);
                        assert(ticket_witnessed(self.plates@[f as int].sightings@, r@[k]));
                    }
                }
                r
            },
        }
    }
}

/// For any calendar day, at most one emitted ticket of a plate covers
/// it: two emitted tickets covering the same day are the same ticket.
pub proof fn lemma_one_ticket_per_day(ps: &PlateState, i: int, j: int, d: int)
    requires
        ps.wf(),
        0 <= i < ps.emitted@.len(),
        0 <= j < ps.emitted@.len(),
        covers_day(ps.emitted@[i], d),
        covers_day(ps.emitted@[j], d),
    ensures
        i == j,
{
    if i < j {
        assert(days_disjoint(ps.emitted@[i], ps.emitted@[j]));
    } else if j < i {
        assert(days_disjoint(ps.emitted@[j], ps.emitted@[i]));
    }
}

/// Every candidate ticket is witnessed by two recorded sightings in
/// chronological order on the road, whose average speed exceeds the
/// earlier camera's limit, and carries the rounded average in its speed
/// field.
pub proof fn lemma_candidates_sound(name: String, road: u16, e: Seq<Sighting>, ci: int, k: int)
    requires
        log_sorted(e),
        0 <= ci < e.len(),
        0 <= k < spec_candidates(name, road, e, ci).len(),
    ensures
        ({
            let t = spec_candidates(name, road, e, ci)[k];
            &&& t.plate == name
            &&& t.road == road
            &&& t.timestamp1 < t.timestamp2
            &&& exists|a: int, b: int|
                0 <= a < b < e.len() && (#[trigger] e[a]).timestamp == t.timestamp1 && e[a].mile
                    == t.mile1 && (#[trigger] e[b]).timestamp == t.timestamp2 && e[b].mile
                    == t.mile2 && is_speeding(
                    t.mile1,
                    t.timestamp1,
                    t.mile2,
                    t.timestamp2,
                    e[a].limit,
                )
            &&& t.speed == speed_field(t.mile1, t.timestamp1, t.mile2, t.timestamp2)
        }),
{
    let sc = spec_candidates(name, road, e, ci);
    if prev_speeds(e, ci) && k == 0 {
        assert(sc[k] == prev_ticket(name, road, e, ci));
        assert(e[ci - 1].timestamp == sc[k].timestamp1 && e[ci - 1].mile == sc[k].mile1);
        assert(e[ci].timestamp == sc[k].timestamp2 && e[ci].mile == sc[k].mile2);
    } else {
        assert(next_speeds(e, ci));
        assert(sc[k] == next_ticket(name, road, e, ci));
        assert(e[ci].timestamp == sc[k].timestamp1 && e[ci].mile == sc[k].mile1);
        assert(e[ci + 1].timestamp == sc[k].timestamp2 && e[ci + 1].mile == sc[k].mile2);
    }
}

} // verus!
