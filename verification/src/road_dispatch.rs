//! Ticket routing of the speed daemon: per road, the connected
//! dispatchers and the tickets produced while none was connected.
//!
//! The decisions live here; the connection tasks perform the sends that
//! the decisions call for and report a failed send back via `requeue`.
use vstd::prelude::*;

use crate::ticket::Ticket;

verus! {

/// One road's dispatch state: the writer ids of the connected
/// dispatchers that declared the road, and the tickets waiting for one.
#[derive(Debug)]
pub struct RoadDispatcher {
    pub senders: Vec<u64>,
    pub queue: Vec<Ticket>,
}

impl RoadDispatcher {
    /// A road with no dispatcher and nothing pending.
    pub fn new() -> (d: Self)
        ensures
            d.senders@.len() == 0,
            d.queue@.len() == 0,
    {
        RoadDispatcher { senders: Vec::new(), queue: Vec::new() }
    }

    /// Routes one ticket: to the first connected dispatcher if any —
    /// returning the writer to send it to — else onto the pending queue.
    pub fn add_ticket(&mut self, ticket: Ticket) -> (r: Option<(u64, Ticket)>)
        ensures
            old(self).senders@.len() > 0 ==> (r matches Some((sid, t)) && sid == old(
                self,
            ).senders@[0] && t == ticket && *final(self) == *old(self)),
            old(self).senders@.len() == 0 ==> r is None && final(self).queue@ == old(self).queue@.push(ticket) && final(self).senders == old(self).senders,
    {
        if self.senders.len() > 0 {
            let sid = self.senders[0];
            Some((sid, ticket))
        } else {
            self.queue.push(ticket);
            None
        }
    }

    /// Puts a ticket whose send failed back on the pending queue and
    /// forgets the dead writer.
    pub fn requeue_ticket(&mut self, ticket: Ticket, failed: u64)
        ensures
            final(self).queue@ == old(self).queue@.push(ticket),
            forall|j: int|
                0 <= j < final(self).senders@.len() ==> (#[trigger] final(self).senders@[j])
                    != failed,
            forall|j: int|
                0 <= j < final(self).senders@.len() ==> old(self).senders@.contains(
                    #[trigger] final(self).senders@[j],
                ),
            forall|k: int|
                0 <= k < old(self).senders@.len() && (#[trigger] old(self).senders@[k]) != failed
                    ==> final(self).senders@.contains(old(self).senders@[k]),
    {
        self.queue.push(ticket);
        let mut kept: Vec<u64> = Vec::new();
        let mut k: usize = 0;
        let n = self.senders.len();
        while k < n
            invariant
                n == self.senders@.len(),
                k <= n,
                forall|j: int| 0 <= j < kept@.len() ==> (#[trigger] kept@[j]) != failed,
                forall|j: int|
                    0 <= j < kept@.len() ==> self.senders@.contains(#[trigger] kept@[j]),
                forall|k0: int|
                    0 <= k0 < k && (#[trigger] self.senders@[k0]) != failed ==> kept@.contains(
                        self.senders@[k0],
                    ),
            decreases n - k,
        {
            let w = self.senders[k];
            let ghost kept0 = kept@;
            if w != failed {
                kept.push(w);
            }
            k += 1;
            proof {
                let ws = self.senders@;
                assert forall|j: int|
                    0 <= j < kept@.len() implies ws.contains(#[trigger] kept@[j]) by {
                    if j < kept0.len() {
                        assert(kept@[j] == kept0[j]);
                    } else {
                        assert(ws[k - 1] == kept@[j]);
                    }
                }
                assert forall|k0: int|
                    0 <= k0 < k && (#[trigger] ws[k0]) != failed implies kept@.contains(
                    ws[k0],
                ) by {
                    if k0 < k - 1 {
                        let j = choose|j: int| 0 <= j < kept0.len() && kept0[j] == ws[k0];
                        assert(kept@[j] == ws[k0]);
                    } else {
                        assert(kept@[kept@.len() - 1] == ws[k0]);
                    }
                }
            }
        }
        let ghost keptv = kept@;
        let ghost olds = self.senders@;
        self.senders = kept;
        proof {
            assert(self.senders@ == keptv);
            assert forall|j: int|
                0 <= j < keptv.len() implies old(self).senders@.contains(#[trigger] keptv[j]) by {
                let k0 = choose|k0: int| 0 <= k0 < olds.len() && olds[k0] == keptv[j];
                assert(old(self).senders@[k0] == keptv[j]);
            }
        }
    }

    /// Registers a connected dispatcher's writer and hands back every
    /// pending ticket for it to send.
    pub fn add_sender(&mut self, id: u64) -> (drained: Vec<Ticket>)
        ensures
            drained@ == old(self).queue@,
            final(self).queue@.len() == 0,
            final(self).senders@ == old(self).senders@.push(id),
    {
        let mut drained: Vec<Ticket> = Vec::new();
        core::mem::swap(&mut drained, &mut self.queue);
        self.senders.push(id);
        drained
    }

    /// Forgets a disconnected dispatcher's writer; pending tickets stay
    /// for the next one.
    pub fn remove_sender(&mut self, id: u64)
        ensures
            final(self).queue == old(self).queue,
            forall|j: int|
                0 <= j < final(self).senders@.len() ==> (#[trigger] final(self).senders@[j]) != id,
            forall|j: int|
                0 <= j < final(self).senders@.len() ==> old(self).senders@.contains(
                    #[trigger] final(self).senders@[j],
                ),
            forall|k: int|
                0 <= k < old(self).senders@.len() && (#[trigger] old(self).senders@[k]) != id
                    ==> final(self).senders@.contains(old(self).senders@[k]),
    {
        let mut kept: Vec<u64> = Vec::new();
        let mut k: usize = 0;
        let n = self.senders.len();
        while k < n
            invariant
                n == self.senders@.len(),
                k <= n,
                forall|j: int| 0 <= j < kept@.len() ==> (#[trigger] kept@[j]) != id,
                forall|j: int|
                    0 <= j < kept@.len() ==> self.senders@.contains(#[trigger] kept@[j]),
                forall|k0: int|
                    0 <= k0 < k && (#[trigger] self.senders@[k0]) != id ==> kept@.contains(
                        self.senders@[k0],
                    ),
            decreases n - k,
        {
            let w = self.senders[k];
            let ghost kept0 = kept@;
            if w != id {
                kept.push(w);
            }
            k += 1;
            proof {
                let ws = self.senders@;
                assert forall|j: int|
                    0 <= j < kept@.len() implies ws.contains(#[trigger] kept@[j]) by {
                    if j < kept0.len() {
                        assert(kept@[j] == kept0[j]);
                    } else {
                        assert(ws[k - 1] == kept@[j]);
                    }
                }
                assert forall|k0: int|
                    0 <= k0 < k && (#[trigger] ws[k0]) != id implies kept@.contains(ws[k0]) by {
                    if k0 < k - 1 {
                        let j = choose|j: int| 0 <= j < kept0.len() && kept0[j] == ws[k0];
                        assert(kept@[j] == ws[k0]);
                    } else {
                        assert(kept@[kept@.len() - 1] == ws[k0]);
                    }
                }
            }
        }
        let ghost keptv = kept@;
        let ghost olds = self.senders@;
        self.senders = kept;
        proof {
            assert(self.senders@ == keptv);
            assert forall|j: int|
                0 <= j < keptv.len() implies old(self).senders@.contains(#[trigger] keptv[j]) by {
                let k0 = choose|k0: int| 0 <= k0 < olds.len() && olds[k0] == keptv[j];
                assert(old(self).senders@[k0] == keptv[j]);
            }
        }
    }
}

/// One entry of the registry: a road and its dispatch state.
#[derive(Debug)]
pub struct RoadEntry {
    pub road: u16,
    pub dispatcher: RoadDispatcher,
}

/// The dispatch state of every road seen so far.
#[derive(Debug)]
pub struct DispatcherRegistry {
    pub roads: Vec<RoadEntry>,
}

impl DispatcherRegistry {
    /// Roads are registered at most once.
    pub open spec fn wf(&self) -> bool {
        forall|i: int, j: int|
            0 <= i < j < self.roads@.len() ==> (#[trigger] self.roads@[i]).road != (
            #[trigger] self.roads@[j]).road
    }

    /// An empty registry.
    pub fn new() -> (r: Self)
        ensures
            r.wf(),
            r.roads@.len() == 0,
    {
        DispatcherRegistry { roads: Vec::new() }
    }

    /// The index of `road`'s entry, creating an empty one if need be.
    pub fn ensure_road(&mut self, road: u16) -> (ri: usize)
        requires
            old(self).wf(),
        ensures
            final(self).wf(),
            ri < final(self).roads@.len(),
            final(self).roads@[ri as int].road == road,
            old(self).roads@.len() <= final(self).roads@.len() <= old(self).roads@.len() + 1,
            forall|i: int|
                0 <= i < old(self).roads@.len() ==> #[trigger] final(self).roads@[i] == old(self).roads@[i],
            final(self).roads@.len() > old(self).roads@.len() ==> final(self).roads@.last().dispatcher.senders@.len() == 0 && final(self).roads@.last().dispatcher.queue@.len() == 0,
            final(self).roads@.len() > old(self).roads@.len() ==> ri == old(self).roads@.len(),
            (exists|j: int|
                0 <= j < old(self).roads@.len() && (#[trigger] old(self).roads@[j]).road == road)
                ==> final(self).roads@.len() == old(self).roads@.len(),
    {
        let mut i: usize = 0;
        let n = self.roads.len();
        while i < n
            invariant
                self == old(self),
                self.wf(),
                n == self.roads@.len(),
                i <= n,
                forall|k: int| 0 <= k < i ==> (#[trigger] self.roads@[k]).road != road,
            decreases n - i,
        {
            if self.roads[i].road == road {
                return i;
            }
            i += 1;
        }
        let ri = self.roads.len();
        self.roads.push(RoadEntry { road, dispatcher: RoadDispatcher::new() });
        proof {
            assert forall|a: int, b: int|
                0 <= a < b < self.roads@.len() implies (#[trigger] self.roads@[a]).road != (
            #[trigger] self.roads@[b]).road by {
                if b < self.roads@.len() - 1 {
                    assert(old(self).roads@[a].road != old(self).roads@[b].road);
                } else {
                    assert(self.roads@[a] == old(self).roads@[a]);
                    assert(old(self).roads@[a].road != road);
                }
            }
        }
        ri
    }
}


/// Whether the registry holds an entry for `road`.
pub open spec fn has_road(reg: DispatcherRegistry, road: u16) -> bool {
    exists|ri: int| 0 <= ri < reg.roads@.len() && (#[trigger] reg.roads@[ri]).road == road
}

/// The index of `road`'s entry, when one exists.
pub open spec fn road_index(reg: DispatcherRegistry, road: u16) -> int {
    choose|ri: int| 0 <= ri < reg.roads@.len() && (#[trigger] reg.roads@[ri]).road == road
}

/// The pending tickets of `road`: its entry's queue, or empty when the
/// road has no entry yet.
pub open spec fn road_queue(reg: DispatcherRegistry, road: u16) -> Seq<Ticket> {
    if has_road(reg, road) {
        reg.roads@[road_index(reg, road)].dispatcher.queue@
    } else {
        Seq::empty()
    }
}

/// The registered writers of `road`, or empty when the road has no entry
/// yet.
pub open spec fn road_senders(reg: DispatcherRegistry, road: u16) -> Seq<u64> {
    if has_road(reg, road) {
        reg.roads@[road_index(reg, road)].dispatcher.senders@
    } else {
        Seq::empty()
    }
}

/// With distinct roads, entry `ri` is the lookup result for its own road.
pub proof fn lemma_road_lookup(reg: DispatcherRegistry, ri: int)
    requires
        reg.wf(),
        0 <= ri < reg.roads@.len(),
    ensures
        has_road(reg, reg.roads@[ri].road),
        road_index(reg, reg.roads@[ri].road) == ri,
        road_queue(reg, reg.roads@[ri].road) == reg.roads@[ri].dispatcher.queue@,
        road_senders(reg, reg.roads@[ri].road) == reg.roads@[ri].dispatcher.senders@,
{
    let road = reg.roads@[ri].road;
    assert(reg.roads@[ri].road == road);
    assert(has_road(reg, road));
    let rj = road_index(reg, road);
    assert(0 <= rj < reg.roads@.len() && reg.roads@[rj].road == road);
    if rj != ri {
        if rj < ri {
            assert(reg.roads@[rj].road != reg.roads@[ri].road);
        } else {
            assert(reg.roads@[ri].road != reg.roads@[rj].road);
        }
    }
}

/// A road absent from the registry has no pending tickets and no writers.
pub proof fn lemma_road_absent(reg: DispatcherRegistry, road: u16)
    requires
        forall|ri: int| 0 <= ri < reg.roads@.len() ==> (#[trigger] reg.roads@[ri]).road != road,
    ensures
        !has_road(reg, road),
        road_queue(reg, road) =~= Seq::<Ticket>::empty(),
        road_senders(reg, road) =~= Seq::<u64>::empty(),
{
}

} // verus!
