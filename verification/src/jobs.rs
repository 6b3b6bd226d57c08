//! The job-center scheduler: a job table, named queues of ready jobs,
//! blocked waiters, and per-client leases.
//!
//! The scheduler is the single owner of all job state. Connection tasks
//! send it commands and perform only the I/O that its outcomes call for.
//! Job ids are indices into the job table and are therefore strictly
//! monotonic and never reused; a deleted job keeps its slot with state
//! `Deleted`. Queue heaps are hints: an entry whose job is no longer
//! `Ready` is stale and is discarded on peek (lazy cleanup).
use vstd::prelude::*;

use crate::jobs_proto::JobPayload;
use crate::jobs_proto::Request;
use crate::jobs_proto::Response;

verus! {

/// The lifecycle state of a job. `Given` holds the identifier of the
/// client connection currently leasing the job.
#[derive(Debug, Clone, Copy, PartialEq, Eq, Structural)]
pub enum JobState {
    Ready,
    Given(u64),
    Deleted,
}

/// One job: its priority, the queue it was put on, its state, and the
/// text of its JSON payload, which the scheduler never reads.
#[derive(Debug)]
pub struct Job {
    pub priority: usize,
    pub queue: String,
    pub state: JobState,
    pub value: String,
}

impl Job {
    /// A fresh `Ready` job for `queue` with the given payload and priority.
    pub fn new(queue: String, value: String, priority: usize) -> (j: Self)
        ensures
            j.priority == priority,
            j.queue == queue,
            j.state == JobState::Ready,
            j.value == value,
    {
        Self { priority, queue, state: JobState::Ready, value }
    }

    /// The wire payload echoing this job's fields.
    pub fn to_serd(&self) -> (p: JobPayload)
        ensures
            p.spec_job() == self.value,
            p.spec_priority() == self.priority,
            p.spec_queue() == self.queue,
    {
        JobPayload::new(self.value.clone(), self.priority, self.queue.clone())
    }
}

/// A heap entry: a job id at the priority it was enqueued with.
#[derive(Debug, Clone, Copy)]
pub struct Entry {
    pub priority: usize,
    pub id: usize,
}

/// A registration left by a blocked `get`: one row per queue the `get`
/// named. The registration id is shared by all rows of one blocked `get`;
/// `queue` is the index of the queue the row waits on.
#[derive(Debug, Clone, Copy)]
pub struct Waiter {
    pub waiter_id: u64,
    pub client: u64,
    pub queue: usize,
}

/// A named queue: its heap of entries.
#[derive(Debug)]
pub struct Queue {
    pub name: String,
    pub jobs: Vec<Entry>,
}

/// The job ids currently leased to one client.
#[derive(Debug)]
pub struct Lease {
    pub client: u64,
    pub ids: Vec<usize>,
}

/// A job handed to a blocked waiter: the reply the connection task owes
/// that waiter.
#[derive(Debug)]
pub struct Handoff {
    pub waiter_id: u64,
    pub client: u64,
    pub id: usize,
    pub payload: JobPayload,
}

/// A command sent to the scheduler by a connection task. `client` is the
/// identifier of the connection the command came from.
pub enum JobCommand {
    Put { queue: String, job: String, pri: usize },
    Get { queues: Vec<String>, wait: bool, client: u64 },
    Delete { id: usize },
    Abort { id: usize, client: u64 },
    Disconnect { client: u64 },
}

/// What a command asks the connection tasks to do: an immediate reply to
/// the requester, a suspension (the requester waits under the given
/// registration id), and replies owed to waiters that were handed a job.
pub struct Effect {
    pub reply: Option<Response>,
    pub suspended: Option<u64>,
    pub handoffs: Vec<Handoff>,
}

/// The outcome of a get request: a job (echoed in `payload`), a
/// registration to be resumed later (`wait` was asked and nothing was
/// ready), or nothing.
pub enum GetOutcome {
    Got { id: usize, payload: JobPayload },
    Registered { waiter_id: u64 },
    NoJob,
}

/// The outcome of an abort request: the job went back to service (with
/// any handoffs the re-enqueue caused), the job is leased by another
/// client, or there is no such leased job.
pub enum AbortOutcome {
    Aborted(Vec<Handoff>),
    WrongClient,
    NoSuchJob,
}

/// The scheduler state: job table, queues, leases, and the counter that
/// names waiter registrations.
pub struct JobManager {
    pub jobs: Vec<Job>,
    pub queues: Vec<Queue>,
    pub waiters: Vec<Waiter>,
    pub leases: Vec<Lease>,
    pub next_waiter: u64,
}

impl JobManager {
    /// Entry `k` of queue `qi` names a job of the table, at that job's
    /// priority, and the job belongs to that queue.
    pub open spec fn entry_ok(jobs: Seq<Job>, queues: Seq<Queue>, qi: int, k: int) -> bool {
        let e = queues[qi].jobs[k];
        &&& e.id < jobs.len()
        &&& jobs[e.id as int].priority == e.priority
        &&& jobs[e.id as int].queue@ == queues[qi].name@
    }

    /// Every heap entry is well formed.
    pub open spec fn heaps_ok(jobs: Seq<Job>, queues: Seq<Queue>) -> bool {
        forall|qi: int, k: int|
            0 <= qi < queues.len() && 0 <= k < queues[qi].jobs.len()
                ==> #[trigger] Self::entry_ok(jobs, queues, qi, k)
    }

    /// Queue names are pairwise distinct.
    pub open spec fn names_ok(queues: Seq<Queue>) -> bool {
        forall|i: int, j: int|
            0 <= i < j < queues.len() ==> #[trigger] queues[i].name@ != #[trigger] queues[j].name@
    }

    /// Slot `k` of lease `li` names a job that is `Given` to that lease's
    /// client.
    pub open spec fn lease_slot_ok(jobs: Seq<Job>, leases: Seq<Lease>, li: int, k: int) -> bool {
        let id = leases[li].ids[k];
        &&& id < jobs.len()
        &&& jobs[id as int].state == JobState::Given(leases[li].client)
    }

    /// Leases are sound: every leased id is `Given` to the leasing client,
    /// clients own at most one lease, and no lease lists an id twice.
    pub open spec fn leases_ok(jobs: Seq<Job>, leases: Seq<Lease>) -> bool {
        &&& forall|li: int, k: int|
            0 <= li < leases.len() && 0 <= k < leases[li].ids.len()
                ==> #[trigger] Self::lease_slot_ok(jobs, leases, li, k)
        &&& forall|li: int, lj: int|
            0 <= li < lj < leases.len() ==> #[trigger] leases[li].client
                != #[trigger] leases[lj].client
        &&& forall|li: int, j: int, k: int|
            0 <= li < leases.len() && 0 <= j < k < leases[li].ids.len()
                ==> #[trigger] leases[li].ids[j] != #[trigger] leases[li].ids[k]
    }

    /// The `Given` job `id` stands in the lease of the client it was given
    /// to.
    pub open spec fn given_leased_at(jobs: Seq<Job>, leases: Seq<Lease>, id: int) -> bool {
        jobs[id].state is Given ==> exists|li: int, k: int|
            0 <= li < leases.len() && 0 <= k < leases[li].ids.len() && leases[li].client
                == jobs[id].state->Given_0 && #[trigger] leases[li].ids[k] == id
    }

    /// `given_leased_at` for the whole table.
    pub open spec fn given_leased(jobs: Seq<Job>, leases: Seq<Lease>) -> bool {
        forall|id: int| 0 <= id < jobs.len() ==> #[trigger] Self::given_leased_at(jobs, leases, id)
    }

    /// The `Ready` job `id` has an entry in the heap of its own queue.
    pub open spec fn ready_at(jobs: Seq<Job>, queues: Seq<Queue>, id: int) -> bool {
        exists|qi: int, k: int|
            0 <= qi < queues.len() && 0 <= k < queues[qi].jobs.len() && (
            #[trigger] queues[qi].jobs[k]).id == id && queues[qi].name@ == jobs[id].queue@
    }

    /// Every `Ready` job has an entry in the heap of its own queue, except
    /// possibly the job `ex` (used while a job is in flight).
    pub open spec fn ready_in_heap_except(jobs: Seq<Job>, queues: Seq<Queue>, ex: int) -> bool {
        forall|id: int|
            0 <= id < jobs.len() && id != ex && (#[trigger] jobs[id].state) is Ready
                ==> Self::ready_at(jobs, queues, id)
    }

    /// The scheduler's well-formedness: heaps, names, leases, and the
    /// `Given`/`Ready` bookkeeping all agree.
    pub open spec fn wf(&self) -> bool {
        &&& Self::heaps_ok(self.jobs@, self.queues@)
        &&& Self::names_ok(self.queues@)
        &&& Self::leases_ok(self.jobs@, self.leases@)
        &&& Self::given_leased(self.jobs@, self.leases@)
        &&& Self::ready_in_heap_except(self.jobs@, self.queues@, -1)
    }

    /// Well-formedness with the job `ex` exempted from `ready_in_heap`.
    pub open spec fn wf_except(&self, ex: int) -> bool {
        &&& Self::heaps_ok(self.jobs@, self.queues@)
        &&& Self::names_ok(self.queues@)
        &&& Self::leases_ok(self.jobs@, self.leases@)
        &&& Self::given_leased(self.jobs@, self.leases@)
        &&& Self::ready_in_heap_except(self.jobs@, self.queues@, ex)
    }

    /// Every entry of queue `qi` points at a `Ready` job: the queue holds
    /// no stale entries.
    pub open spec fn queue_clean(jobs: Seq<Job>, q: Queue) -> bool {
        forall|k: int|
            0 <= k < q.jobs.len() ==> jobs[(#[trigger] q.jobs[k]).id as int].state is Ready
    }

    /// An empty scheduler.
    pub fn new() -> (m: Self)
        ensures
            m.wf(),
            m.jobs@.len() == 0,
            m.queues@.len() == 0,
            m.waiters@.len() == 0,
            m.leases@.len() == 0,
    {
        Self {
            jobs: Vec::new(),
            queues: Vec::new(),
            waiters: Vec::new(),
            leases: Vec::new(),
            next_waiter: 0,
        }
    }

    /// The index of the queue named `name`, if one exists.
    fn find_queue(&self, name: &String) -> (r: Option<usize>)
        ensures
            match r {
                Some(qi) => qi < self.queues@.len() && self.queues@[qi as int].name@ == name@,
                None => forall|qi: int|
                    0 <= qi < self.queues@.len() ==> (#[trigger] self.queues@[qi].name@) != name@,
            },
    {
        let mut qi: usize = 0;
        while qi < self.queues.len()
            invariant
                qi <= self.queues@.len(),
                forall|i: int| 0 <= i < qi ==> (#[trigger] self.queues@[i].name@) != name@,
            decreases self.queues@.len() - qi,
        {
            if self.queues[qi].name == *name {
                return Some(qi);
            }
            qi += 1;
        }
        None
    }

    /// The index of the queue named `name`, creating an empty queue when
    /// none exists. Only the queue list changes, and at most by one new
    /// empty queue at the end.
    fn ensure_queue(&mut self, name: &String, ex: Ghost<int>) -> (qi: usize)
        requires
            old(self).wf_except(ex@),
        ensures
            final(self).wf_except(ex@),
            qi < final(self).queues@.len(),
            final(self).queues@[qi as int].name@ == name@,
            final(self).jobs == old(self).jobs,
            final(self).waiters == old(self).waiters,
            final(self).leases == old(self).leases,
            final(self).next_waiter == old(self).next_waiter,
            old(self).queues@.len() <= final(self).queues@.len() <= old(self).queues@.len() + 1,
            forall|i: int|
                0 <= i < old(self).queues@.len() ==> #[trigger] final(self).queues@[i] == old(self).queues@[i],
            final(self).queues@.len() > old(self).queues@.len() ==> final(self).queues@.last().jobs@.len()
                == 0,
    {
        match self.find_queue(name) {
            Some(qi) => qi,
            None => {
                let qi = self.queues.len();
                self.queues.push(Queue { name: name.clone(), jobs: Vec::new() });
                proof {
                    let jobs = self.jobs@;
                    let qs = self.queues@;
                    let old_qs = old(self).queues@;
                    assert forall|i: int, k: int|
                        0 <= i < qs.len() && 0 <= k < qs[i].jobs.len() implies #[trigger] Self::entry_ok(
                        jobs,
                        qs,
                        i,
                        k,
                    ) by {
                        assert(Self::entry_ok(jobs, old_qs, i, k));
                    }
                    assert forall|id: int|
                        0 <= id < jobs.len() && id != ex@ && (#[trigger] jobs[id].state) is Ready implies Self::ready_at(
                        jobs,
                        qs,
                        id,
                    ) by {
                        let (i, k) = choose|i: int, k: int|
                            0 <= i < old_qs.len() && 0 <= k < old_qs[i].jobs.len() && (
                            #[trigger] old_qs[i].jobs[k]).id == id && old_qs[i].name@
                                == jobs[id].queue@;
                        assert(qs[i].jobs[k].id == id);
                    }
                }
                qi
            },
        }
    }

    /// Every entry of `a` occurs somewhere in `b`.
    pub open spec fn entries_from(a: Seq<Entry>, b: Seq<Entry>) -> bool {
        forall|j: int| 0 <= j < a.len() ==> b.contains(#[trigger] a[j])
    }

    /// Every waiter row of `a` occurs somewhere in `b`.
    pub open spec fn waiters_from(a: Seq<Waiter>, b: Seq<Waiter>) -> bool {
        forall|j: int| 0 <= j < a.len() ==> b.contains(#[trigger] a[j])
    }

    /// Every row among the first `hi` of `b` whose registration id is not
    /// `wid` occurs in `a`.
    pub open spec fn waiters_kept_upto(a: Seq<Waiter>, b: Seq<Waiter>, wid: u64, hi: int) -> bool {
        forall|k: int|
            0 <= k < hi && (#[trigger] b[k]).waiter_id != wid ==> a.contains(b[k])
    }

    /// Every waiter row of `b` whose registration id is not `wid` occurs
    /// in `a`.
    pub open spec fn waiters_kept(a: Seq<Waiter>, b: Seq<Waiter>, wid: u64) -> bool {
        Self::waiters_kept_upto(a, b, wid, b.len() as int)
    }

    /// The queue list only grows, and existing queues keep their names.
    pub open spec fn queues_preserved(old_q: Seq<Queue>, new_q: Seq<Queue>) -> bool {
        &&& old_q.len() <= new_q.len()
        &&& forall|qi: int| 0 <= qi < old_q.len() ==> (#[trigger] new_q[qi]).name == old_q[qi].name
    }

    /// Some handoff of `hs` answers the registration `wid`.
    pub open spec fn handed(hs: Seq<Handoff>, wid: u64) -> bool {
        exists|h: int| 0 <= h < hs.len() && (#[trigger] hs[h]).waiter_id == wid
    }

    /// Waiter rows vanish only by being satisfied: every row of `old_w`
    /// whose registration no handoff of `hs` answers still stands in
    /// `new_w`.
    pub open spec fn waiters_kept_unless_handed(
        old_w: Seq<Waiter>,
        new_w: Seq<Waiter>,
        hs: Seq<Handoff>,
    ) -> bool {
        forall|w: int|
            0 <= w < old_w.len() && !Self::handed(hs, (#[trigger] old_w[w]).waiter_id)
                ==> new_w.contains(old_w[w])
    }

    /// Every entry among the first `hi` of `b` whose job is `Ready` in
    /// `jobs` occurs in `a`.
    pub open spec fn ready_entries_kept_upto(
        jobs: Seq<Job>,
        b: Seq<Entry>,
        a: Seq<Entry>,
        hi: int,
    ) -> bool {
        forall|k0: int|
            0 <= k0 < hi && jobs[(#[trigger] b[k0]).id as int].state is Ready ==> a.contains(
                b[k0],
            )
    }

    /// Every entry of `b` whose job is `Ready` in `jobs` occurs in `a`.
    pub open spec fn ready_entries_kept(jobs: Seq<Job>, b: Seq<Entry>, a: Seq<Entry>) -> bool {
        Self::ready_entries_kept_upto(jobs, b, a, b.len() as int)
    }

    /// Discards every stale entry of queue `qi`: entries whose job is no
    /// longer `Ready`. Entries of `Ready` jobs are all kept.
    fn cleanup_queue(&mut self, qi: usize)
        requires
            old(self).wf_except(-1),
            qi < old(self).queues@.len(),
        ensures
            final(self).wf_except(-1),
            final(self).jobs == old(self).jobs,
            final(self).waiters == old(self).waiters,
            final(self).leases == old(self).leases,
            final(self).next_waiter == old(self).next_waiter,
            final(self).queues@.len() == old(self).queues@.len(),
            forall|i: int|
                0 <= i < old(self).queues@.len() && i != qi ==> #[trigger] final(self).queues@[i]
                    == old(self).queues@[i],
            final(self).queues@[qi as int].name == old(self).queues@[qi as int].name,
            Self::queue_clean(final(self).jobs@, final(self).queues@[qi as int]),
            Self::entries_from(
                final(self).queues@[qi as int].jobs@,
                old(self).queues@[qi as int].jobs@,
            ),
            Self::ready_entries_kept(
                old(self).jobs@,
                old(self).queues@[qi as int].jobs@,
                final(self).queues@[qi as int].jobs@,
            ),
    {
        let ghost old_q = self.queues@[qi as int];
        let mut kept: Vec<Entry> = Vec::new();
        let mut k: usize = 0;
        let n = self.queues[qi].jobs.len();
        while k < n
            invariant
                self == old(self),
                qi < self.queues@.len(),
                n == self.queues@[qi as int].jobs.len(),
                old_q == self.queues@[qi as int],
                k <= n,
                self.wf_except(-1),
                Self::entries_from(kept@, old_q.jobs@),
                forall|j: int|
                    0 <= j < kept@.len() ==> self.jobs@[(#[trigger] kept@[j]).id as int].state
                        is Ready,
                Self::ready_entries_kept_upto(self.jobs@, old_q.jobs@, kept@, k as int),
            decreases n - k,
        {
            let e = self.queues[qi].jobs[k];
            proof {
                assert(Self::entry_ok(self.jobs@, self.queues@, qi as int, k as int));
            }
            let keep = match self.jobs[e.id].state {
                JobState::Ready => true,
                _ => false,
            };
            let ghost kept0 = kept@;
            if keep {
                kept.push(e);
            }
            k += 1;
            proof {
                assert forall|j: int|
                    0 <= j < kept@.len() implies old_q.jobs@.contains(#[trigger] kept@[j]) by {
                    if j < kept0.len() {
                        assert(kept@[j] == kept0[j]);
                    } else {
                        assert(old_q.jobs@[k - 1] == kept@[j]);
                    }
                }
                assert(Self::entries_from(kept@, old_q.jobs@));
                assert forall|j: int|
                    0 <= j < kept@.len() implies self.jobs@[(#[trigger] kept@[j]).id as int].state
                    is Ready by {
                    if j < kept0.len() {
                        assert(kept@[j] == kept0[j]);
                    }
                }
                assert forall|k0: int|
                    0 <= k0 < k && self.jobs@[(#[trigger] old_q.jobs@[k0]).id as int].state
                        is Ready implies kept@.contains(old_q.jobs@[k0]) by {
                    if k0 < k - 1 {
                        let j = choose|j: int|
                            0 <= j < kept0.len() && kept0[j] == old_q.jobs@[k0];
                        assert(kept@[j] == old_q.jobs@[k0]);
                    } else {
                        assert(keep);
                        assert(kept@[kept@.len() - 1] == old_q.jobs@[k0]);
                    }
                }
                assert(Self::ready_entries_kept_upto(self.jobs@, old_q.jobs@, kept@, k as int));
            }
        }
        let ghost keptv = kept@;
        self.queues[qi].jobs = kept;
        proof {
            assert(self.queues@[qi as int].jobs@ == keptv);
            assert(Self::entries_from(self.queues@[qi as int].jobs@, old_q.jobs@));
            assert(Self::ready_entries_kept(old(self).jobs@, old_q.jobs@, keptv));
            let jobs = self.jobs@;
            let qs = self.queues@;
            let old_qs = old(self).queues@;
            assert forall|i: int, j: int|
                0 <= i < qs.len() && 0 <= j < qs[i].jobs.len() implies #[trigger] Self::entry_ok(
                jobs,
                qs,
                i,
                j,
            ) by {
                if i == qi {
                    assert(qs[i].jobs@[j] == keptv[j]);
                    let k0 = choose|k0: int|
                        0 <= k0 < old_q.jobs@.len() && old_q.jobs@[k0] == keptv[j];
                    assert(Self::entry_ok(jobs, old_qs, i, k0));
                } else {
                    assert(Self::entry_ok(jobs, old_qs, i, j));
                }
            }
            assert forall|id: int|
                0 <= id < jobs.len() && id != -1 && (#[trigger] jobs[id].state) is Ready implies Self::ready_at(
                jobs,
                qs,
                id,
            ) by {
                let (i, k0) = choose|i: int, k0: int|
                    0 <= i < old_qs.len() && 0 <= k0 < old_qs[i].jobs.len() && (
                    #[trigger] old_qs[i].jobs[k0]).id == id && old_qs[i].name@ == jobs[id].queue@;
                if i == qi {
                    assert(old(self).jobs@[old_q.jobs@[k0].id as int].state is Ready);
                    let j = choose|j: int| 0 <= j < keptv.len() && keptv[j] == old_q.jobs@[k0];
                    assert(qs[i].jobs[j].id == id);
                } else {
                    assert(qs[i].jobs[k0].id == id);
                }
            }
        }
    }

    /// The index of a maximal-priority entry of queue `qi`, taking the
    /// earliest among equals; `None` exactly when the queue is empty.
    fn best_in_queue(&self, qi: usize) -> (r: Option<usize>)
        requires
            qi < self.queues@.len(),
        ensures
            match r {
                Some(k) => k < self.queues@[qi as int].jobs.len() && forall|k2: int|
                    0 <= k2 < self.queues@[qi as int].jobs.len() ==> (#[trigger] self.queues@[qi as int].jobs[k2]).priority
                        <= self.queues@[qi as int].jobs[k as int].priority,
                None => self.queues@[qi as int].jobs.len() == 0,
            },
    {
        let n = self.queues[qi].jobs.len();
        if n == 0 {
            return None;
        }
        let mut best: usize = 0;
        let mut k: usize = 1;
        while k < n
            invariant
                qi < self.queues@.len(),
                n == self.queues@[qi as int].jobs.len(),
                best < k <= n,
                forall|k2: int|
                    0 <= k2 < k ==> (#[trigger] self.queues@[qi as int].jobs[k2]).priority
                        <= self.queues@[qi as int].jobs[best as int].priority,
            decreases n - k,
        {
            if self.queues[qi].jobs[k].priority > self.queues[qi].jobs[best].priority {
                best = k;
            }
            k += 1;
        }
        Some(best)
    }

    /// The index of the earliest-registered waiter row of queue `qi`: the
    /// row with the least registration id among those waiting on `qi`;
    /// `None` exactly when no row waits on `qi`.
    fn earliest_waiter(&self, qi: usize) -> (r: Option<usize>)
        ensures
            match r {
                Some(wi) => wi < self.waiters@.len() && self.waiters@[wi as int].queue == qi
                    && forall|w2: int|
                    0 <= w2 < self.waiters@.len() && (#[trigger] self.waiters@[w2]).queue == qi
                        ==> self.waiters@[w2].waiter_id >= self.waiters@[wi as int].waiter_id,
                None => forall|w2: int|
                    0 <= w2 < self.waiters@.len() ==> (#[trigger] self.waiters@[w2]).queue != qi,
            },
    {
        let mut best: Option<usize> = None;
        let mut k: usize = 0;
        while k < self.waiters.len()
            invariant
                k <= self.waiters@.len(),
                match best {
                    Some(wi) => wi < k && self.waiters@[wi as int].queue == qi && forall|w2: int|
                        0 <= w2 < k && (#[trigger] self.waiters@[w2]).queue == qi
                            ==> self.waiters@[w2].waiter_id >= self.waiters@[wi as int].waiter_id,
                    None => forall|w2: int|
                        0 <= w2 < k ==> (#[trigger] self.waiters@[w2]).queue != qi,
                },
            decreases self.waiters@.len() - k,
        {
            if self.waiters[k].queue == qi {
                match best {
                    None => {
                        best = Some(k);
                    },
                    Some(wi) => {
                        if self.waiters[k].waiter_id < self.waiters[wi].waiter_id {
                            best = Some(k);
                        }
                    },
                }
            }
            k += 1;
        }
        best
    }

    /// Drops every waiter row carrying the registration id `wid`: the
    /// blocked `get` it stands for has been satisfied or has gone away.
    fn remove_waiter_rows(&mut self, wid: u64)
        ensures
            final(self).jobs == old(self).jobs,
            final(self).queues == old(self).queues,
            final(self).leases == old(self).leases,
            final(self).next_waiter == old(self).next_waiter,
            final(self).waiters@.len() <= old(self).waiters@.len(),
            forall|j: int|
                0 <= j < final(self).waiters@.len() ==> (#[trigger] final(self).waiters@[j]).waiter_id
                    != wid,
            Self::waiters_from(final(self).waiters@, old(self).waiters@),
            Self::waiters_kept(final(self).waiters@, old(self).waiters@, wid),
            (exists|k: int|
                0 <= k < old(self).waiters@.len() && (#[trigger] old(self).waiters@[k]).waiter_id
                    == wid) ==> final(self).waiters@.len() < old(self).waiters@.len(),
    {
        let mut kept: Vec<Waiter> = Vec::new();
        let mut k: usize = 0;
        let n = self.waiters.len();
        while k < n
            invariant
                self == old(self),
                n == self.waiters@.len(),
                k <= n,
                kept@.len() <= k,
                forall|j: int|
                    0 <= j < kept@.len() ==> (#[trigger] kept@[j]).waiter_id != wid,
                Self::waiters_from(kept@, self.waiters@),
                Self::waiters_kept_upto(kept@, self.waiters@, wid, k as int),
                (exists|k0: int|
                    0 <= k0 < k && (#[trigger] self.waiters@[k0]).waiter_id == wid) ==> kept@.len()
                    < k,
            decreases n - k,
        {
            let w = self.waiters[k];
            let ghost kept0 = kept@;
            if w.waiter_id != wid {
                kept.push(w);
            }
            k += 1;
            proof {
                let ws = self.waiters@;
                assert forall|j: int|
                    0 <= j < kept@.len() implies ws.contains(#[trigger] kept@[j]) by {
                    if j < kept0.len() {
                        assert(kept@[j] == kept0[j]);
                    } else {
                        assert(ws[k - 1] == kept@[j]);
                    }
                }
                assert(Self::waiters_from(kept@, ws));
                assert forall|k0: int|
                    0 <= k0 < k && (#[trigger] ws[k0]).waiter_id != wid implies kept@.contains(
                        ws[k0],
                    ) by {
                    if k0 < k - 1 {
                        let j = choose|j: int| 0 <= j < kept0.len() && kept0[j] == ws[k0];
                        assert(kept@[j] == ws[k0]);
                    } else {
                        assert(kept@[kept@.len() - 1] == ws[k0]);
                    }
                }
                assert(Self::waiters_kept_upto(kept@, ws, wid, k as int));
            }
        }
        let ghost keptv = kept@;
        self.waiters = kept;
        proof {
            assert(self.waiters@ == keptv);
            assert(Self::waiters_from(keptv, old(self).waiters@));
            assert(Self::waiters_kept(keptv, old(self).waiters@, wid));
        }
    }

    /// The index of `client`'s lease, if it has one.
    fn find_lease(&self, client: u64) -> (r: Option<usize>)
        ensures
            match r {
                Some(li) => li < self.leases@.len() && self.leases@[li as int].client == client,
                None => forall|li: int|
                    0 <= li < self.leases@.len() ==> (#[trigger] self.leases@[li].client) != client,
            },
    {
        let mut li: usize = 0;
        while li < self.leases.len()
            invariant
                li <= self.leases@.len(),
                forall|i: int| 0 <= i < li ==> (#[trigger] self.leases@[i].client) != client,
            decreases self.leases@.len() - li,
        {
            if self.leases[li].client == client {
                return Some(li);
            }
            li += 1;
        }
        None
    }

    /// Marks the `Ready` job `id` as `Given` to `client` and records it in
    /// that client's lease. Any heap entry the job still has becomes stale.
    /// Returns the wire payload of the job.
    #[verifier::rlimit(60)]
    pub fn give_job(&mut self, id: usize, client: u64) -> (p: JobPayload)
        requires
            old(self).wf_except(-1),
            id < old(self).jobs@.len(),
            old(self).jobs@[id as int].state is Ready,
        ensures
            final(self).wf_except(id as int),
            final(self).wf_except(-1),
            final(self).jobs@.len() == old(self).jobs@.len(),
            final(self).jobs@[id as int].state == JobState::Given(client),
            final(self).jobs@[id as int].priority == old(self).jobs@[id as int].priority,
            final(self).jobs@[id as int].queue == old(self).jobs@[id as int].queue,
            final(self).jobs@[id as int].value == old(self).jobs@[id as int].value,
            forall|i: int|
                0 <= i < old(self).jobs@.len() && i != id ==> #[trigger] final(self).jobs@[i]
                    == old(self).jobs@[i],
            final(self).queues == old(self).queues,
            final(self).waiters == old(self).waiters,
            final(self).next_waiter == old(self).next_waiter,
            p.spec_job() == old(self).jobs@[id as int].value,
            p.spec_priority() == old(self).jobs@[id as int].priority,
            p.spec_queue() == old(self).jobs@[id as int].queue,
            exists|li: int, k: int|
                0 <= li < final(self).leases@.len() && 0 <= k < final(self).leases@[li].ids.len()
                    && final(self).leases@[li].client == client
                    && #[trigger] final(self).leases@[li].ids[k] == id,
    {
        let payload = self.jobs[id].to_serd();
        proof {
            assert forall|li: int, k: int|
                0 <= li < self.leases@.len() && 0 <= k
                    < self.leases@[li].ids.len() implies (#[trigger] self.leases@[li].ids[k])
                != id by {
                assert(Self::lease_slot_ok(self.jobs@, self.leases@, li, k));
            }
        }
        self.jobs[id].state = JobState::Given(client);
        proof {
            let jobs = self.jobs@;
            let old_jobs = old(self).jobs@;
            let qs = self.queues@;
            assert forall|i: int, j: int|
                0 <= i < qs.len() && 0 <= j < qs[i].jobs.len() implies #[trigger] Self::entry_ok(
                jobs,
                qs,
                i,
                j,
            ) by {
                assert(Self::entry_ok(old_jobs, qs, i, j));
            }
            assert forall|id2: int|
                0 <= id2 < jobs.len() && id2 != id && (#[trigger] jobs[id2].state)
                    is Ready implies Self::ready_at(jobs, qs, id2) by {
                assert(old_jobs[id2].state is Ready);
                let (i, k) = choose|i: int, k: int|
                    0 <= i < qs.len() && 0 <= k < qs[i].jobs.len() && (#[trigger] qs[i].jobs[k]).id
                        == id2 && qs[i].name@ == old_jobs[id2].queue@;
                assert(qs[i].jobs[k].id == id2 && qs[i].name@ == jobs[id2].queue@);
            }
        }
        let ghost mid = *self;
        match self.find_lease(client) {
            Some(li) => {
                self.leases[li].ids.push(id);
                proof {
                    let jobs = self.jobs@;
                    let ls = self.leases@;
                    let old_ls = mid.leases@;
                    assert(ls[li as int].ids@ == old_ls[li as int].ids@.push(id));
                    assert forall|li2: int, k: int|
                        0 <= li2 < ls.len() && 0 <= k
                            < ls[li2].ids.len() implies #[trigger] Self::lease_slot_ok(
                        jobs,
                        ls,
                        li2,
                        k,
                    ) by {
                        if li2 == li && k == ls[li2].ids.len() - 1 {
                            assert(ls[li2].ids[k] == id);
                        } else {
                            assert(Self::lease_slot_ok(old(self).jobs@, old_ls, li2, k));
                            assert(old_ls[li2].ids[k] != id);
                        }
                    }
                    assert forall|id2: int|
                        0 <= id2 < jobs.len() implies #[trigger] Self::given_leased_at(
                        jobs,
                        ls,
                        id2,
                    ) by {
                        if id2 == id {
                            assert(ls[li as int].ids[ls[li as int].ids.len() - 1] == id);
                        } else if jobs[id2].state is Given {
                            assert(Self::given_leased_at(old(self).jobs@, old_ls, id2));
                            let (lj, k) = choose|lj: int, k: int|
                                0 <= lj < old_ls.len() && 0 <= k < old_ls[lj].ids.len()
                                    && old_ls[lj].client == old(self).jobs@[id2].state->Given_0 && (
                                #[trigger] old_ls[lj].ids[k]) == id2;
                            assert(ls[lj].ids[k] == id2);
                        }
                    }
                    assert forall|li2: int, j: int, k: int|
                        0 <= li2 < ls.len() && 0 <= j < k
                            < ls[li2].ids.len() implies #[trigger] ls[li2].ids[j]
                        != #[trigger] ls[li2].ids[k] by {
                        if li2 == li && k == ls[li2].ids.len() - 1 {
                            assert(old_ls[li2].ids[j] != id);
                            assert(ls[li2].ids[j] == old_ls[li2].ids[j]);
                            assert(ls[li2].ids[k] == id);
                        } else {
                            assert(ls[li2].ids[j] == old_ls[li2].ids[j]);
                            assert(ls[li2].ids[k] == old_ls[li2].ids[k]);
                            assert(old_ls[li2].ids[j] != old_ls[li2].ids[k]);
                        }
                    }
                    assert forall|a: int, b: int|
                        0 <= a < b < ls.len() implies #[trigger] ls[a].client
                        != #[trigger] ls[b].client by {
                        assert(ls[a].client == old_ls[a].client);
                        assert(ls[b].client == old_ls[b].client);
                    }
                    assert(ls[li as int].client == client && ls[li as int].ids[ls[li as int].ids.len()
                        - 1] == id);
                }
            },
            None => {
                let mut ids: Vec<usize> = Vec::new();
                ids.push(id);
                self.leases.push(Lease { client, ids });
                proof {
                    let jobs = self.jobs@;
                    let ls = self.leases@;
                    let old_ls = mid.leases@;
                    assert forall|li2: int, k: int|
                        0 <= li2 < ls.len() && 0 <= k
                            < ls[li2].ids.len() implies #[trigger] Self::lease_slot_ok(
                        jobs,
                        ls,
                        li2,
                        k,
                    ) by {
                        if li2 == ls.len() - 1 {
                            assert(ls[li2].ids[0] == id);
                        } else {
                            assert(Self::lease_slot_ok(old(self).jobs@, old_ls, li2, k));
                            assert(old_ls[li2].ids[k] != id);
                        }
                    }
                    assert forall|id2: int|
                        0 <= id2 < jobs.len() implies #[trigger] Self::given_leased_at(
                        jobs,
                        ls,
                        id2,
                    ) by {
                        if id2 == id {
                            assert(ls[ls.len() - 1].ids[0] == id);
                        } else if jobs[id2].state is Given {
                            assert(Self::given_leased_at(old(self).jobs@, old_ls, id2));
                            let (lj, k) = choose|lj: int, k: int|
                                0 <= lj < old_ls.len() && 0 <= k < old_ls[lj].ids.len()
                                    && old_ls[lj].client == old(self).jobs@[id2].state->Given_0 && (
                                #[trigger] old_ls[lj].ids[k]) == id2;
                            assert(ls[lj].ids[k] == id2);
                        }
                    }
                    assert forall|li2: int, j: int, k: int|
                        0 <= li2 < ls.len() && 0 <= j < k
                            < ls[li2].ids.len() implies #[trigger] ls[li2].ids[j]
                        != #[trigger] ls[li2].ids[k] by {
                        if li2 < ls.len() - 1 {
                            assert(ls[li2].ids[j] == old_ls[li2].ids[j]);
                            assert(ls[li2].ids[k] == old_ls[li2].ids[k]);
                            assert(old_ls[li2].ids[j] != old_ls[li2].ids[k]);
                        } else {
                            assert(ls[li2].ids.len() == 1);
                        }
                    }
                    assert forall|a: int, b: int|
                        0 <= a < b < ls.len() implies #[trigger] ls[a].client
                        != #[trigger] ls[b].client by {
                        if b == ls.len() - 1 {
                            assert(ls[a].client == old_ls[a].client);
                            assert(old_ls[a].client != client);
                        } else {
                            assert(ls[a].client == old_ls[a].client);
                            assert(ls[b].client == old_ls[b].client);
                        }
                    }
                    assert(ls[ls.len() - 1].client == client && ls[ls.len() - 1].ids[0] == id);
                }
            },
        }
        payload
    }

    /// The handoff `h` is sound against the job table as it stood before
    /// (`old_jobs`), the waiters as they stood before (`old_waiters`), and
    /// the table as it stands now (`jobs`): it answers a waiter that was
    /// registered, with a job that was `Ready` and is now `Given` to that
    /// waiter's client, echoing the job's fields.
    pub open spec fn handoff_ok(
        old_jobs: Seq<Job>,
        old_waiters: Seq<Waiter>,
        jobs: Seq<Job>,
        h: Handoff,
    ) -> bool {
        &&& h.id < jobs.len()
        &&& h.id < old_jobs.len()
        &&& old_jobs[h.id as int].state is Ready
        &&& jobs[h.id as int].state == JobState::Given(h.client)
        &&& jobs[h.id as int].priority == old_jobs[h.id as int].priority
        &&& jobs[h.id as int].queue == old_jobs[h.id as int].queue
        &&& jobs[h.id as int].value == old_jobs[h.id as int].value
        &&& h.payload.spec_job() == old_jobs[h.id as int].value
        &&& h.payload.spec_priority() == old_jobs[h.id as int].priority
        &&& h.payload.spec_queue() == old_jobs[h.id as int].queue
        &&& exists|w: int|
            0 <= w < old_waiters.len() && (#[trigger] old_waiters[w]).waiter_id == h.waiter_id
                && old_waiters[w].client == h.client
    }

    /// `handoff_ok` for a whole list of handoffs.
    pub open spec fn handoffs_ok(
        old_jobs: Seq<Job>,
        old_waiters: Seq<Waiter>,
        jobs: Seq<Job>,
        hs: Seq<Handoff>,
    ) -> bool {
        forall|h: int|
            0 <= h < hs.len() ==> Self::handoff_ok(old_jobs, old_waiters, jobs, #[trigger] hs[h])
    }

    /// Some handoff of `hs` concerns job `i`.
    pub open spec fn touches(hs: Seq<Handoff>, i: int) -> bool {
        exists|h: int| 0 <= h < hs.len() && (#[trigger] hs[h]).id == i
    }

    /// A handoff performed during disconnect cleanup is sound: it hands
    /// the job to another client's registered waiter and echoes the job's
    /// fields.
    pub open spec fn disc_handoff_ok(
        m: JobManager,
        old_waiters: Seq<Waiter>,
        client: u64,
        h: Handoff,
    ) -> bool {
        &&& h.id < m.jobs@.len()
        &&& m.jobs@[h.id as int].state == JobState::Given(h.client)
        &&& h.client != client
        &&& h.payload.spec_job() == m.jobs@[h.id as int].value
        &&& h.payload.spec_priority() == m.jobs@[h.id as int].priority
        &&& h.payload.spec_queue() == m.jobs@[h.id as int].queue
        &&& exists|w: int|
            0 <= w < old_waiters.len() && (#[trigger] old_waiters[w]).waiter_id == h.waiter_id
                && old_waiters[w].client == h.client
    }

    /// The handoff pass for the queue named `qname` ran to completion: no
    /// waiter still points at that queue while a `Ready` job belongs to
    /// it; the handoffs went to ever-later registrations, each earlier
    /// than every waiter still on the queue.
    pub open spec fn handoff_complete(m: JobManager, qname: Seq<char>, hs: Seq<Handoff>) -> bool {
        &&& ((forall|w: int|
            0 <= w < m.waiters@.len() ==> !((#[trigger] m.waiters@[w]).queue < m.queues@.len()
                && m.queues@[m.waiters@[w].queue as int].name@ == qname)) || (forall|j: int|
            0 <= j < m.jobs@.len() ==> !((#[trigger] m.jobs@[j].state) is Ready
                && m.jobs@[j].queue@ == qname)))
        &&& (forall|h1: int, h2: int|
            0 <= h1 < h2 < hs.len() ==> (#[trigger] hs[h1]).waiter_id < (
            #[trigger] hs[h2]).waiter_id)
        &&& (forall|h: int, w: int|
            0 <= h < hs.len() && 0 <= w < m.waiters@.len() && (#[trigger] m.waiters@[w]).queue
                < m.queues@.len() && m.queues@[m.waiters@[w].queue as int].name@ == qname ==> (
            #[trigger] hs[h]).waiter_id < m.waiters@[w].waiter_id)
    }

    /// Jobs that no handoff of `hs` concerns are unchanged between
    /// `old_jobs` and `jobs`.
    pub open spec fn jobs_unchanged_outside(
        old_jobs: Seq<Job>,
        jobs: Seq<Job>,
        hs: Seq<Handoff>,
    ) -> bool {
        forall|i: int|
            0 <= i < old_jobs.len() && !Self::touches(hs, i) ==> #[trigger] jobs[i] == old_jobs[i]
    }

    /// `waiters_from` is reflexive.
    proof fn lemma_waiters_from_refl(a: Seq<Waiter>)
        ensures
            Self::waiters_from(a, a),
    {
        assert forall|j: int| 0 <= j < a.len() implies a.contains(#[trigger] a[j]) by {
            assert(a[j] == a[j]);
        }
    }

    /// Hands jobs of queue `qi` to its blocked waiters while both a
    /// `Ready` job and a waiter remain: the earliest-registered waiter
    /// receives the highest-priority `Ready` job of the queue. Returns the
    /// handoffs performed; the connection tasks owe each one a reply.
    fn handoff_queue(&mut self, qi: usize) -> (hs: Vec<Handoff>)
        requires
            old(self).wf_except(-1),
            qi < old(self).queues@.len(),
        ensures
            final(self).wf_except(-1),
            final(self).jobs@.len() == old(self).jobs@.len(),
            final(self).queues@.len() == old(self).queues@.len(),
            forall|i: int|
                0 <= i < final(self).queues@.len() ==> (#[trigger] final(self).queues@[i]).name
                    == old(self).queues@[i].name,
            final(self).next_waiter == old(self).next_waiter,
            Self::waiters_from(final(self).waiters@, old(self).waiters@),
            Self::waiters_kept_unless_handed(old(self).waiters@, final(self).waiters@, hs@),
            Self::handoffs_ok(old(self).jobs@, old(self).waiters@, final(self).jobs@, hs@),
            Self::jobs_unchanged_outside(old(self).jobs@, final(self).jobs@, hs@),
            (forall|w: int|
                0 <= w < final(self).waiters@.len() ==> (#[trigger] final(self).waiters@[w]).queue
                    != qi) || (forall|j: int|
                0 <= j < final(self).jobs@.len() ==> !((#[trigger] final(self).jobs@[j].state)
                    is Ready && final(self).jobs@[j].queue@ == final(self).queues@[qi as int].name@)),
            forall|h: int, w: int|
                0 <= h < hs@.len() && 0 <= w < final(self).waiters@.len() && (#[trigger] final(self).waiters@[w]).queue
                    == qi ==> (#[trigger] hs@[h]).waiter_id < final(self).waiters@[w].waiter_id,
            forall|h1: int, h2: int|
                0 <= h1 < h2 < hs@.len() ==> (#[trigger] hs@[h1]).waiter_id < (
                #[trigger] hs@[h2]).waiter_id,
    {
        let mut out: Vec<Handoff> = Vec::new();
        let mut done = false;
        proof {
            Self::lemma_waiters_from_refl(self.waiters@);
            assert(Self::waiters_kept_unless_handed(self.waiters@, self.waiters@, out@)) by {
                assert forall|w: int|
                    0 <= w < self.waiters@.len() implies self.waiters@.contains(
                    #[trigger] self.waiters@[w]) by {
                    assert(self.waiters@[w] == self.waiters@[w]);
                }
            }
        }
        while !done
            invariant
                self.wf_except(-1),
                qi < self.queues@.len(),
                self.queues@.len() == old(self).queues@.len(),
                forall|i: int|
                    0 <= i < self.queues@.len() ==> (#[trigger] self.queues@[i]).name == old(self).queues@[i].name,
                self.jobs@.len() == old(self).jobs@.len(),
                self.next_waiter == old(self).next_waiter,
                Self::waiters_from(self.waiters@, old(self).waiters@),
                Self::waiters_kept_unless_handed(old(self).waiters@, self.waiters@, out@),
                Self::handoffs_ok(old(self).jobs@, old(self).waiters@, self.jobs@, out@),
                Self::jobs_unchanged_outside(old(self).jobs@, self.jobs@, out@),
                forall|h: int, w: int|
                    0 <= h < out@.len() && 0 <= w < self.waiters@.len() && (
                    #[trigger] self.waiters@[w]).queue == qi ==> (#[trigger] out@[h]).waiter_id
                        < self.waiters@[w].waiter_id,
                forall|h1: int, h2: int|
                    0 <= h1 < h2 < out@.len() ==> (#[trigger] out@[h1]).waiter_id < (
                    #[trigger] out@[h2]).waiter_id,
                done ==> (forall|w: int|
                    0 <= w < self.waiters@.len() ==> (#[trigger] self.waiters@[w]).queue != qi)
                    || (forall|j: int|
                    0 <= j < self.jobs@.len() ==> !((#[trigger] self.jobs@[j].state) is Ready
                        && self.jobs@[j].queue@ == self.queues@[qi as int].name@)),
            decreases self.waiters@.len(), (if done { 0int } else { 1int }),
        {
            let ghost pre = *self;
            let ghost out0 = out@;
            self.cleanup_queue(qi);
            let bk = self.best_in_queue(qi);
            let wo = self.earliest_waiter(qi);
            match (bk, wo) {
                (Some(k), Some(wi)) => {
                    let w = self.waiters[wi];
                    let e = self.queues[qi].jobs[k];
                    proof {
                        assert(Self::entry_ok(self.jobs@, self.queues@, qi as int, k as int));
                        assert(self.jobs@[e.id as int].state is Ready);
                    }
                    let ghost mid = *self;
                    let payload = self.give_job(e.id, w.client);
                    self.remove_waiter_rows(w.waiter_id);
                    out.push(Handoff { waiter_id: w.waiter_id, client: w.client, id: e.id, payload });
                    proof {
                        let oj = old(self).jobs@;
                        let ow = old(self).waiters@;
                        // the fresh job was untouched so far, hence Ready at entry
                        assert(!Self::touches(out0, e.id as int)) by {
                            if Self::touches(out0, e.id as int) {
                                let h = choose|h: int|
                                    0 <= h < out0.len() && (#[trigger] out0[h]).id == e.id;
                                assert(Self::handoff_ok(oj, ow, mid.jobs@, out0[h]));
                            }
                        }
                        assert(oj[e.id as int] == mid.jobs@[e.id as int]);
                        // the waiter answered was registered at entry
                        assert(ow.contains(mid.waiters@[wi as int]));
                        let w0 = choose|w0: int|
                            0 <= w0 < ow.len() && ow[w0] == mid.waiters@[wi as int];
                        assert(ow[w0].waiter_id == w.waiter_id && ow[w0].client == w.client);
                        // waiters only shrink
                        assert forall|j: int|
                            0 <= j < self.waiters@.len() implies ow.contains(
                            #[trigger] self.waiters@[j]) by {
                            let k1 = choose|k1: int|
                                0 <= k1 < mid.waiters@.len() && mid.waiters@[k1]
                                    == self.waiters@[j];
                            let k2 = choose|k2: int|
                                0 <= k2 < ow.len() && ow[k2] == mid.waiters@[k1];
                            assert(ow[k2] == self.waiters@[j]);
                        }
                        assert(Self::waiters_from(self.waiters@, ow));
                        // rows vanish only when their registration was answered
                        assert forall|w2: int|
                            0 <= w2 < ow.len() && !Self::handed(out@, (
                        #[trigger] ow[w2]).waiter_id) implies self.waiters@.contains(ow[w2]) by {
                            assert(!Self::handed(out0, ow[w2].waiter_id)) by {
                                if Self::handed(out0, ow[w2].waiter_id) {
                                    let h = choose|h: int|
                                        0 <= h < out0.len() && (#[trigger] out0[h]).waiter_id
                                            == ow[w2].waiter_id;
                                    assert(out@[h].waiter_id == ow[w2].waiter_id);
                                }
                            }
                            assert(mid.waiters@.contains(ow[w2]));
                            let k1 = choose|k1: int|
                                0 <= k1 < mid.waiters@.len() && mid.waiters@[k1] == ow[w2];
                            assert(ow[w2].waiter_id != w.waiter_id) by {
                                assert(out@[out@.len() - 1].waiter_id == w.waiter_id);
                            }
                            assert(Self::waiters_kept(self.waiters@, mid.waiters@, w.waiter_id));
                            assert(self.waiters@.contains(mid.waiters@[k1]));
                        }
                        assert(Self::waiters_kept_unless_handed(ow, self.waiters@, out@));
                        // each earlier handoff still holds; the new one holds
                        assert forall|h: int|
                            0 <= h < out@.len() implies Self::handoff_ok(
                            oj,
                            ow,
                            self.jobs@,
                            #[trigger] out@[h],
                        ) by {
                            if h < out0.len() {
                                assert(out@[h] == out0[h]);
                                assert(Self::handoff_ok(oj, ow, mid.jobs@, out0[h]));
                                assert(out0[h].id != e.id);
                                assert(self.jobs@[out0[h].id as int] == mid.jobs@[out0[h].id as int]);
                            } else {
                                assert(out@[h].id == e.id && out@[h].client == w.client);
                            }
                        }
                        assert(Self::handoffs_ok(oj, ow, self.jobs@, out@));
                        // jobs not named by any handoff are unchanged
                        assert forall|i: int|
                            0 <= i < oj.len() && !Self::touches(out@, i) implies #[trigger] self.jobs@[i]
                                == oj[i] by {
                            assert(!Self::touches(out0, i)) by {
                                if Self::touches(out0, i) {
                                    let h = choose|h: int|
                                        0 <= h < out0.len() && (#[trigger] out0[h]).id == i;
                                    assert(out@[h].id == i);
                                }
                            }
                            assert(mid.jobs@[i] == oj[i]);
                            assert(i != e.id) by {
                                assert(out@[out@.len() - 1].id == e.id);
                            }
                        }
                        assert(Self::jobs_unchanged_outside(oj, self.jobs@, out@));
                        // the earliest-registered waiter won, and later ones only later
                        assert forall|h: int, w2: int|
                            0 <= h < out@.len() && 0 <= w2 < self.waiters@.len() && (
                        #[trigger] self.waiters@[w2]).queue == qi implies (
                        #[trigger] out@[h]).waiter_id < self.waiters@[w2].waiter_id by {
                            assert(mid.waiters@.contains(self.waiters@[w2]));
                            let k1 = choose|k1: int|
                                0 <= k1 < mid.waiters@.len() && mid.waiters@[k1]
                                    == self.waiters@[w2];
                            assert(mid.waiters@[k1].waiter_id >= mid.waiters@[wi as int].waiter_id);
                            assert(self.waiters@[w2].waiter_id != w.waiter_id);
                            if h < out@.len() - 1 {
                                assert(out@[h].waiter_id < mid.waiters@[k1].waiter_id);
                            } else {
                                assert(out@[h].waiter_id == w.waiter_id);
                            }
                        }
                        assert forall|h1: int, h2: int|
                            0 <= h1 < h2 < out@.len() implies (#[trigger] out@[h1]).waiter_id < (
                        #[trigger] out@[h2]).waiter_id by {
                            if h2 == out@.len() - 1 {
                                assert(mid.waiters@[wi as int].queue == qi);
                                assert(out@[h1].waiter_id < mid.waiters@[wi as int].waiter_id);
                            }
                        }
                    }
                },
                (None, _) => {
                    proof {
                        assert forall|j: int|
                            0 <= j < self.jobs@.len() implies !((#[trigger] self.jobs@[j].state)
                            is Ready && self.jobs@[j].queue@
                            == self.queues@[qi as int].name@) by {
                            if self.jobs@[j].state is Ready && self.jobs@[j].queue@
                                == self.queues@[qi as int].name@ {
                                assert(Self::ready_at(self.jobs@, self.queues@, j));
                                let (i, k2) = choose|i: int, k2: int|
                                    0 <= i < self.queues@.len() && 0 <= k2
                                        < self.queues@[i].jobs.len() && (
                                    #[trigger] self.queues@[i].jobs[k2]).id == j
                                        && self.queues@[i].name@ == self.jobs@[j].queue@;
                                if i != qi as int {
                                    if i < qi as int {
                                        assert(self.queues@[i].name@
                                            != self.queues@[qi as int].name@);
                                    } else {
                                        assert(self.queues@[qi as int].name@
                                            != self.queues@[i].name@);
                                    }
                                }
                                assert(i == qi as int);
                                assert(false);
                            }
                        }
                    }
                    done = true;
                },
                (_, None) => {
                    done = true;
                },
            }
        }
        out
    }

    /// Enqueues the `Ready` job `id` on `queue` at `priority`, creating
    /// the queue if need be, then hands jobs of that queue to its waiters.
    /// This is the requeue path shared by put, abort and disconnect.
    pub fn add_to_queue(&mut self, queue: &String, id: usize, priority: usize) -> (hs: Vec<
        Handoff,
    >)
        requires
            old(self).wf_except(id as int),
            id < old(self).jobs@.len(),
            old(self).jobs@[id as int].state is Ready,
            old(self).jobs@[id as int].priority == priority,
            old(self).jobs@[id as int].queue@ == queue@,
        ensures
            final(self).wf_except(-1),
            final(self).jobs@.len() == old(self).jobs@.len(),
            final(self).next_waiter == old(self).next_waiter,
            Self::waiters_from(final(self).waiters@, old(self).waiters@),
            Self::handoffs_ok(old(self).jobs@, old(self).waiters@, final(self).jobs@, hs@),
            Self::jobs_unchanged_outside(old(self).jobs@, final(self).jobs@, hs@),
            Self::waiters_kept_unless_handed(old(self).waiters@, final(self).waiters@, hs@),
            Self::queues_preserved(old(self).queues@, final(self).queues@),
            Self::handoff_complete(*final(self), queue@, hs@),
    {
        let qi = self.ensure_queue(queue, Ghost(id as int));
        let ghost mid = *self;
        self.queues[qi].jobs.push(Entry { priority, id });
        proof {
            let jobs = self.jobs@;
            let qs = self.queues@;
            let mqs = mid.queues@;
            assert(qs[qi as int].jobs@ == mqs[qi as int].jobs@.push(Entry { priority, id }));
            assert forall|i: int, j: int|
                0 <= i < qs.len() && 0 <= j < qs[i].jobs.len() implies #[trigger] Self::entry_ok(
                jobs,
                qs,
                i,
                j,
            ) by {
                if i == qi as int && j == qs[i].jobs.len() - 1 {
                    assert(qs[i].jobs[j].id == id);
                    assert(qs[i].name@ == queue@);
                } else {
                    assert(Self::entry_ok(jobs, mqs, i, j));
                    assert(qs[i].jobs[j] == mqs[i].jobs[j]);
                }
            }
            assert forall|id2: int|
                0 <= id2 < jobs.len() && id2 != -1 && (#[trigger] jobs[id2].state)
                    is Ready implies Self::ready_at(jobs, qs, id2) by {
                if id2 == id {
                    assert(qs[qi as int].jobs[qs[qi as int].jobs.len() - 1].id == id);
                    assert(qs[qi as int].name@ == jobs[id as int].queue@);
                } else {
                    let (i, k) = choose|i: int, k: int|
                        0 <= i < mqs.len() && 0 <= k < mqs[i].jobs.len() && (
                        #[trigger] mqs[i].jobs[k]).id == id2 && mqs[i].name@ == jobs[id2].queue@;
                    assert(qs[i].jobs[k].id == id2);
                }
            }
        }
        let hs = self.handoff_queue(qi);
        proof {
            assert(self.queues@[qi as int].name@ == queue@);
            if !(forall|w: int|
                0 <= w < self.waiters@.len() ==> (#[trigger] self.waiters@[w]).queue != qi) {
                assert forall|j: int|
                    0 <= j < self.jobs@.len() implies !((#[trigger] self.jobs@[j].state) is Ready
                    && self.jobs@[j].queue@ == queue@) by {}
            }
            assert forall|h: int, w: int|
                0 <= h < hs@.len() && 0 <= w < self.waiters@.len() && (
            #[trigger] self.waiters@[w]).queue < self.queues@.len()
                && self.queues@[self.waiters@[w].queue as int].name@ == queue@ implies (
            #[trigger] hs@[h]).waiter_id < self.waiters@[w].waiter_id by {
                let qidx = self.waiters@[w].queue as int;
                if qidx != qi as int {
                    if qidx < qi as int {
                        assert(self.queues@[qidx].name@ != self.queues@[qi as int].name@);
                    } else {
                        assert(self.queues@[qi as int].name@ != self.queues@[qidx].name@);
                    }
                }
                assert(qidx == qi as int);
            }
            assert forall|w: int|
                0 <= w < self.waiters@.len() && ((#[trigger] self.waiters@[w]).queue
                    < self.queues@.len() && self.queues@[self.waiters@[w].queue as int].name@
                    == queue@) implies self.waiters@[w].queue == qi by {
                let qidx = self.waiters@[w].queue as int;
                if qidx != qi as int {
                    if qidx < qi as int {
                        assert(self.queues@[qidx].name@ != self.queues@[qi as int].name@);
                    } else {
                        assert(self.queues@[qi as int].name@ != self.queues@[qidx].name@);
                    }
                }
            }
            assert(Self::handoff_complete(*self, queue@, hs@));
        }
        hs
    }

    /// Adds a fresh `Ready` job to the table and its queue, then attempts
    /// waiter handoff on that queue. Returns the new job's id — the table
    /// index, so ids are strictly monotonic and never reused — and the
    /// handoffs performed.
    pub fn add_job(&mut self, queue: &String, job: Job) -> (r: (usize, Vec<Handoff>))
        requires
            old(self).wf(),
            job.state is Ready,
            job.queue@ == queue@,
        ensures
            final(self).wf(),
            r.0 == old(self).jobs@.len(),
            final(self).jobs@.len() == old(self).jobs@.len() + 1,
            final(self).next_waiter == old(self).next_waiter,
            Self::waiters_from(final(self).waiters@, old(self).waiters@),
            Self::handoffs_ok(
                old(self).jobs@.push(job),
                old(self).waiters@,
                final(self).jobs@,
                r.1@,
            ),
            Self::jobs_unchanged_outside(old(self).jobs@.push(job), final(self).jobs@, r.1@),
            Self::waiters_kept_unless_handed(old(self).waiters@, final(self).waiters@, r.1@),
            Self::queues_preserved(old(self).queues@, final(self).queues@),
            Self::handoff_complete(*final(self), queue@, r.1@),
            final(self).jobs@[r.0 as int].priority == job.priority,
            final(self).jobs@[r.0 as int].queue == job.queue,
            final(self).jobs@[r.0 as int].value == job.value,
    {
        let id = self.jobs.len();
        let ghost pushed = job;
        let priority = job.priority;
        self.jobs.push(job);
        proof {
            let jobs = self.jobs@;
            let old_jobs = old(self).jobs@;
            let qs = self.queues@;
            let ls = self.leases@;
            assert forall|i: int, j: int|
                0 <= i < qs.len() && 0 <= j < qs[i].jobs.len() implies #[trigger] Self::entry_ok(
                jobs,
                qs,
                i,
                j,
            ) by {
                assert(Self::entry_ok(old_jobs, qs, i, j));
            }
            assert forall|li: int, k: int|
                0 <= li < ls.len() && 0 <= k < ls[li].ids.len() implies #[trigger] Self::lease_slot_ok(
                jobs,
                ls,
                li,
                k,
            ) by {
                assert(Self::lease_slot_ok(old_jobs, ls, li, k));
            }
            assert forall|id2: int|
                0 <= id2 < jobs.len() implies #[trigger] Self::given_leased_at(jobs, ls, id2) by {
                if id2 < old_jobs.len() && jobs[id2].state is Given {
                    assert(Self::given_leased_at(old_jobs, ls, id2));
                    let (lj, k) = choose|lj: int, k: int|
                        0 <= lj < ls.len() && 0 <= k < ls[lj].ids.len() && ls[lj].client
                            == old_jobs[id2].state->Given_0 && (#[trigger] ls[lj].ids[k]) == id2;
                    assert(ls[lj].ids[k] == id2);
                }
            }
            assert forall|id2: int|
                0 <= id2 < jobs.len() && id2 != id && (#[trigger] jobs[id2].state)
                    is Ready implies Self::ready_at(jobs, qs, id2) by {
                assert(old_jobs[id2].state is Ready);
                let (i, k) = choose|i: int, k: int|
                    0 <= i < qs.len() && 0 <= k < qs[i].jobs.len() && (#[trigger] qs[i].jobs[k]).id
                        == id2 && qs[i].name@ == old_jobs[id2].queue@;
                assert(qs[i].jobs[k].id == id2 && qs[i].name@ == jobs[id2].queue@);
            }
        }
        let hs = self.add_to_queue(queue, id, priority);
        (id, hs)
    }

    /// The job `id` seen through a `get`-style read: `Some` exactly when
    /// the job exists and is `Ready`.
    pub fn get_job(&self, id: usize) -> (r: Option<&Job>)
        ensures
            match r {
                Some(j) => id < self.jobs@.len() && *j == self.jobs@[id as int] && j.state
                    is Ready,
                None => id >= self.jobs@.len() || !(self.jobs@[id as int].state is Ready),
            },
    {
        if id < self.jobs.len() {
            let job = &self.jobs[id];
            match job.state {
                JobState::Ready => Some(job),
                _ => None,
            }
        } else {
            None
        }
    }

    /// Deletes job `id`: marks it `Deleted` and drops it from any lease.
    /// Returns whether a not-yet-deleted job with that id existed; any
    /// heap entry the job still had becomes stale.
    pub fn delete_job(&mut self, id: usize) -> (r: bool)
        requires
            old(self).wf(),
        ensures
            final(self).wf(),
            r == (id < old(self).jobs@.len() && !(old(self).jobs@[id as int].state is Deleted)),
            final(self).jobs@.len() == old(self).jobs@.len(),
            r ==> final(self).jobs@[id as int].state is Deleted,
            r ==> final(self).jobs@[id as int].priority == old(self).jobs@[id as int].priority
                && final(self).jobs@[id as int].queue == old(self).jobs@[id as int].queue
                && final(self).jobs@[id as int].value == old(self).jobs@[id as int].value,
            forall|i: int|
                0 <= i < old(self).jobs@.len() && i != id ==> #[trigger] final(self).jobs@[i]
                    == old(self).jobs@[i],
            final(self).queues == old(self).queues,
            final(self).waiters == old(self).waiters,
            final(self).next_waiter == old(self).next_waiter,
            !r ==> *final(self) == *old(self),
    {
        if id >= self.jobs.len() {
            return false;
        }
        let was_given = match self.jobs[id].state {
            JobState::Deleted => {
                return false;
            },
            JobState::Given(c) => Some(c),
            JobState::Ready => None,
        };
        if let Some(c) = was_given {
            proof {
                assert(Self::given_leased_at(self.jobs@, self.leases@, id as int));
            }
            let li = match self.find_lease(c) {
                Some(li) => li,
                None => {
                    proof {
                        let (lj, k) = choose|lj: int, k: int|
                            0 <= lj < self.leases@.len() && 0 <= k < self.leases@[lj].ids.len()
                                && self.leases@[lj].client == self.jobs@[id as int].state->Given_0
                                && (#[trigger] self.leases@[lj].ids[k]) == id;
                        assert(false);
                    }
                    0
                },
            };
            let mut pos: usize = 0;
            let mut found = false;
            while pos < self.leases[li].ids.len()
                invariant_except_break
                    !found,
                invariant
                    old(self).wf(),
                    self == old(self),
                    li < self.leases@.len(),
                    self.leases@[li as int].client == self.jobs@[id as int].state->Given_0,
                    pos <= self.leases@[li as int].ids.len(),
                    forall|k: int|
                        0 <= k < pos ==> (#[trigger] self.leases@[li as int].ids[k]) != id,
                ensures
                    self == old(self),
                    li < self.leases@.len(),
                    self.leases@[li as int].client == self.jobs@[id as int].state->Given_0,
                    found ==> pos < self.leases@[li as int].ids.len()
                        && self.leases@[li as int].ids[pos as int] == id,
                    !found ==> forall|k: int|
                        0 <= k < self.leases@[li as int].ids.len() ==> (
                        #[trigger] self.leases@[li as int].ids[k]) != id,
                decreases self.leases@[li as int].ids.len() - pos,
            {
                if self.leases[li].ids[pos] == id {
                    found = true;
                    break;
                }
                pos += 1;
            }
            if !found {
                proof {
                    let (lj, k) = choose|lj: int, k: int|
                        0 <= lj < self.leases@.len() && 0 <= k < self.leases@[lj].ids.len()
                            && self.leases@[lj].client == self.jobs@[id as int].state->Given_0 && (
                        #[trigger] self.leases@[lj].ids[k]) == id;
                    assert(Self::lease_slot_ok(self.jobs@, self.leases@, lj, k));
                    assert(lj == li);
                    assert(false);
                }
            }
            let ghost pre = *self;
            self.leases[li].ids.remove(pos);
            proof {
                let jobs = self.jobs@;
                let ls = self.leases@;
                let pls = pre.leases@;
                assert forall|lj: int, k: int|
                    0 <= lj < ls.len() && 0 <= k < ls[lj].ids.len() implies #[trigger] Self::lease_slot_ok(
                    jobs,
                    ls,
                    lj,
                    k,
                ) by {
                    if lj == li {
                        if k < pos {
                            assert(Self::lease_slot_ok(jobs, pls, lj, k));
                            assert(ls[lj].ids[k] == pls[lj].ids[k]);
                        } else {
                            assert(Self::lease_slot_ok(jobs, pls, lj, k + 1));
                            assert(ls[lj].ids[k] == pls[lj].ids[k + 1]);
                        }
                    } else {
                        assert(Self::lease_slot_ok(jobs, pls, lj, k));
                    }
                }
                assert forall|lj: int, j: int, k: int|
                    0 <= lj < ls.len() && 0 <= j < k < ls[lj].ids.len() implies #[trigger] ls[lj].ids[j]
                        != #[trigger] ls[lj].ids[k] by {
                    if lj == li {
                        let j0: int = if j < pos { j } else { j + 1 };
                        let k0: int = if k < pos { k } else { k + 1 };
                        assert(ls[lj].ids[j] == pls[lj].ids[j0]);
                        assert(ls[lj].ids[k] == pls[lj].ids[k0]);
                    }
                }
                assert forall|id2: int|
                    0 <= id2 < jobs.len() && id2 != id implies #[trigger] Self::given_leased_at(
                    jobs,
                    ls,
                    id2,
                ) by {
                    if jobs[id2].state is Given {
                        assert(Self::given_leased_at(pre.jobs@, pls, id2));
                        let (lj, k) = choose|lj: int, k: int|
                            0 <= lj < pls.len() && 0 <= k < pls[lj].ids.len() && pls[lj].client
                                == jobs[id2].state->Given_0 && (#[trigger] pls[lj].ids[k]) == id2;
                        if lj == li {
                            assert(pls[lj].ids[k] != pls[lj].ids[pos as int]);
                            if k < pos {
                                assert(ls[lj].ids[k] == id2);
                            } else {
                                assert(ls[lj].ids[k - 1] == id2);
                            }
                        } else {
                            assert(ls[lj].ids[k] == id2);
                        }
                    }
                }
                assert forall|k: int|
                    0 <= k < ls[li as int].ids.len() implies (#[trigger] ls[li as int].ids[k])
                    != id by {
                    let k0: int = if k < pos { k } else { k + 1 };
                    assert(ls[li as int].ids[k] == pls[li as int].ids[k0]);
                    assert(pls[li as int].ids[pos as int] == id);
                }
                assert forall|lj: int, k: int|
                    0 <= lj < ls.len() && 0 <= k < ls[lj].ids.len() implies (#[trigger] ls[lj].ids[k])
                    != id by {
                    if ls[lj].ids[k] == id {
                        assert(Self::lease_slot_ok(jobs, ls, lj, k));
                        assert(ls[lj].client == jobs[id as int].state->Given_0);
                        assert(lj == li);
                    }
                }
            }
        } else {
            proof {
                assert forall|lj: int, k: int|
                    0 <= lj < self.leases@.len() && 0 <= k
                        < self.leases@[lj].ids.len() implies (#[trigger] self.leases@[lj].ids[k])
                    != id by {
                    assert(Self::lease_slot_ok(self.jobs@, self.leases@, lj, k));
                }
            }
        }
        let ghost mid = *self;
        self.jobs[id].state = JobState::Deleted;
        proof {
            let jobs = self.jobs@;
            let qs = self.queues@;
            let ls = self.leases@;
            assert forall|i: int, j: int|
                0 <= i < qs.len() && 0 <= j < qs[i].jobs.len() implies #[trigger] Self::entry_ok(
                jobs,
                qs,
                i,
                j,
            ) by {
                assert(Self::entry_ok(mid.jobs@, qs, i, j));
            }
            assert forall|lj: int, k: int|
                0 <= lj < ls.len() && 0 <= k < ls[lj].ids.len() implies #[trigger] Self::lease_slot_ok(
                jobs,
                ls,
                lj,
                k,
            ) by {
                assert(Self::lease_slot_ok(mid.jobs@, ls, lj, k));
                assert(ls[lj].ids[k] != id);
            }
            assert forall|id2: int|
                0 <= id2 < jobs.len() implies #[trigger] Self::given_leased_at(jobs, ls, id2) by {
                if id2 != id && jobs[id2].state is Given {
                    assert(Self::given_leased_at(mid.jobs@, mid.leases@, id2));
                    let (lj, k) = choose|lj: int, k: int|
                        0 <= lj < ls.len() && 0 <= k < ls[lj].ids.len() && ls[lj].client
                            == mid.jobs@[id2].state->Given_0 && (#[trigger] ls[lj].ids[k]) == id2;
                    assert(ls[lj].ids[k] == id2);
                }
            }
            assert forall|id2: int|
                0 <= id2 < jobs.len() && id2 != -1 && (#[trigger] jobs[id2].state)
                    is Ready implies Self::ready_at(jobs, qs, id2) by {
                assert(mid.jobs@[id2].state is Ready);
                let (i, k) = choose|i: int, k: int|
                    0 <= i < qs.len() && 0 <= k < qs[i].jobs.len() && (#[trigger] qs[i].jobs[k]).id
                        == id2 && qs[i].name@ == mid.jobs@[id2].queue@;
                assert(qs[i].jobs[k].id == id2 && qs[i].name@ == jobs[id2].queue@);
            }
        }
        true
    }

    /// Marks job `id` as deleted, silently ignoring an unknown id.
    pub fn mark_job(&mut self, id: usize)
        requires
            old(self).wf(),
        ensures
            final(self).wf(),
            final(self).jobs@.len() == old(self).jobs@.len(),
            id < old(self).jobs@.len() ==> final(self).jobs@[id as int].state is Deleted,
            forall|i: int|
                0 <= i < old(self).jobs@.len() && i != id ==> #[trigger] final(self).jobs@[i]
                    == old(self).jobs@[i],
            final(self).queues == old(self).queues,
            final(self).waiters == old(self).waiters,
            final(self).next_waiter == old(self).next_waiter,
    {
        let _ = self.delete_job(id);
    }

    /// Drops job `id` from the lease of the client it is `Given` to. On
    /// return no lease lists `id`; every invariant holds but for the
    /// `Given` job `id` itself standing in no lease.
    fn unlease(&mut self, id: usize)
        requires
            old(self).wf(),
            id < old(self).jobs@.len(),
            old(self).jobs@[id as int].state is Given,
        ensures
            final(self).jobs == old(self).jobs,
            final(self).queues == old(self).queues,
            final(self).waiters == old(self).waiters,
            final(self).next_waiter == old(self).next_waiter,
            Self::leases_ok(final(self).jobs@, final(self).leases@),
            forall|id2: int|
                0 <= id2 < final(self).jobs@.len() && id2 != id ==> #[trigger] Self::given_leased_at(
                    final(self).jobs@,
                    final(self).leases@,
                    id2,
                ),
            forall|lj: int, k: int|
                0 <= lj < final(self).leases@.len() && 0 <= k < final(self).leases@[lj].ids.len()
                    ==> (#[trigger] final(self).leases@[lj].ids[k]) != id,
    {
        let c = match self.jobs[id].state {
            JobState::Given(c) => c,
            _ => {
                proof {
                    assert(false);
                }
                0
            },
        };
        proof {
            assert(Self::given_leased_at(self.jobs@, self.leases@, id as int));
        }
        let li = match self.find_lease(c) {
            Some(li) => li,
            None => {
                proof {
                    let (lj, k) = choose|lj: int, k: int|
                        0 <= lj < self.leases@.len() && 0 <= k < self.leases@[lj].ids.len()
                            && self.leases@[lj].client == self.jobs@[id as int].state->Given_0 && (
                        #[trigger] self.leases@[lj].ids[k]) == id;
                    assert(false);
                }
                0
            },
        };
        let mut pos: usize = 0;
        let mut found = false;
        while pos < self.leases[li].ids.len()
            invariant_except_break
                !found,
            invariant
                old(self).wf(),
                self == old(self),
                li < self.leases@.len(),
                self.leases@[li as int].client == self.jobs@[id as int].state->Given_0,
                pos <= self.leases@[li as int].ids.len(),
                forall|k: int|
                    0 <= k < pos ==> (#[trigger] self.leases@[li as int].ids[k]) != id,
            ensures
                self == old(self),
                li < self.leases@.len(),
                self.leases@[li as int].client == self.jobs@[id as int].state->Given_0,
                found ==> pos < self.leases@[li as int].ids.len()
                    && self.leases@[li as int].ids[pos as int] == id,
                !found ==> forall|k: int|
                    0 <= k < self.leases@[li as int].ids.len() ==> (
                    #[trigger] self.leases@[li as int].ids[k]) != id,
            decreases self.leases@[li as int].ids.len() - pos,
        {
            if self.leases[li].ids[pos] == id {
                found = true;
                break;
            }
            pos += 1;
        }
        if !found {
            proof {
                let (lj, k) = choose|lj: int, k: int|
                    0 <= lj < self.leases@.len() && 0 <= k < self.leases@[lj].ids.len()
                        && self.leases@[lj].client == self.jobs@[id as int].state->Given_0 && (
                    #[trigger] self.leases@[lj].ids[k]) == id;
                assert(Self::lease_slot_ok(self.jobs@, self.leases@, lj, k));
                assert(lj == li);
                assert(false);
            }
        }
        let ghost pre = *self;
        self.leases[li].ids.remove(pos);
        proof {
            let jobs = self.jobs@;
            let ls = self.leases@;
            let pls = pre.leases@;
            assert forall|lj: int, k: int|
                0 <= lj < ls.len() && 0 <= k < ls[lj].ids.len() implies #[trigger] Self::lease_slot_ok(
                jobs,
                ls,
                lj,
                k,
            ) by {
                if lj == li {
                    if k < pos {
                        assert(Self::lease_slot_ok(jobs, pls, lj, k));
                        assert(ls[lj].ids[k] == pls[lj].ids[k]);
                    } else {
                        assert(Self::lease_slot_ok(jobs, pls, lj, k + 1));
                        assert(ls[lj].ids[k] == pls[lj].ids[k + 1]);
                    }
                } else {
                    assert(Self::lease_slot_ok(jobs, pls, lj, k));
                }
            }
            assert forall|lj: int, j: int, k: int|
                0 <= lj < ls.len() && 0 <= j < k < ls[lj].ids.len() implies #[trigger] ls[lj].ids[j]
                    != #[trigger] ls[lj].ids[k] by {
                if lj == li {
                    let j0: int = if j < pos { j } else { j + 1 };
                    let k0: int = if k < pos { k } else { k + 1 };
                    assert(ls[lj].ids[j] == pls[lj].ids[j0]);
                    assert(ls[lj].ids[k] == pls[lj].ids[k0]);
                }
            }
            assert forall|id2: int|
                0 <= id2 < jobs.len() && id2 != id implies #[trigger] Self::given_leased_at(
                jobs,
                ls,
                id2,
            ) by {
                if jobs[id2].state is Given {
                    assert(Self::given_leased_at(pre.jobs@, pls, id2));
                    let (lj, k) = choose|lj: int, k: int|
                        0 <= lj < pls.len() && 0 <= k < pls[lj].ids.len() && pls[lj].client
                            == jobs[id2].state->Given_0 && (#[trigger] pls[lj].ids[k]) == id2;
                    if lj == li {
                        assert(pls[lj].ids[k] != pls[lj].ids[pos as int]);
                        if k < pos {
                            assert(ls[lj].ids[k] == id2);
                        } else {
                            assert(ls[lj].ids[k - 1] == id2);
                        }
                    } else {
                        assert(ls[lj].ids[k] == id2);
                    }
                }
            }
            assert forall|k: int|
                0 <= k < ls[li as int].ids.len() implies (#[trigger] ls[li as int].ids[k])
                != id by {
                let k0: int = if k < pos { k } else { k + 1 };
                assert(ls[li as int].ids[k] == pls[li as int].ids[k0]);
                assert(pls[li as int].ids[pos as int] == id);
            }
            assert forall|lj: int, k: int|
                0 <= lj < ls.len() && 0 <= k < ls[lj].ids.len() implies (#[trigger] ls[lj].ids[k])
                != id by {
                if ls[lj].ids[k] == id {
                    assert(Self::lease_slot_ok(jobs, ls, lj, k));
                    assert(ls[lj].client == jobs[id as int].state->Given_0);
                    assert(lj == li);
                }
            }
        }
    }

    /// Returns the `Given` job `id` to service: drops it from its lease,
    /// marks it `Ready`, re-enqueues it on its queue, and attempts waiter
    /// handoff there. This is the shared body of abort and of the cleanup
    /// on client disconnect.
    pub fn release_job(&mut self, id: usize) -> (hs: Vec<Handoff>)
        requires
            old(self).wf(),
            id < old(self).jobs@.len(),
            old(self).jobs@[id as int].state is Given,
        ensures
            final(self).wf(),
            final(self).jobs@.len() == old(self).jobs@.len(),
            final(self).next_waiter == old(self).next_waiter,
            Self::waiters_from(final(self).waiters@, old(self).waiters@),
            Self::handoffs_ok(
                old(self).jobs@.update(
                    id as int,
                    (Job {
                        priority: old(self).jobs@[id as int].priority,
                        queue: old(self).jobs@[id as int].queue,
                        state: JobState::Ready,
                        value: old(self).jobs@[id as int].value,
                    }),
                ),
                old(self).waiters@,
                final(self).jobs@,
                hs@,
            ),
            Self::jobs_unchanged_outside(
                old(self).jobs@.update(
                    id as int,
                    (Job {
                        priority: old(self).jobs@[id as int].priority,
                        queue: old(self).jobs@[id as int].queue,
                        state: JobState::Ready,
                        value: old(self).jobs@[id as int].value,
                    }),
                ),
                final(self).jobs@,
                hs@,
            ),
            Self::waiters_kept_unless_handed(old(self).waiters@, final(self).waiters@, hs@),
            Self::queues_preserved(old(self).queues@, final(self).queues@),
            Self::handoff_complete(*final(self), old(self).jobs@[id as int].queue@, hs@),
    {
        self.unlease(id);
        let ghost mid = *self;
        self.jobs[id].state = JobState::Ready;
        proof {
            let jobs = self.jobs@;
            let qs = self.queues@;
            let ls = self.leases@;
            assert forall|i: int, j: int|
                0 <= i < qs.len() && 0 <= j < qs[i].jobs.len() implies #[trigger] Self::entry_ok(
                jobs,
                qs,
                i,
                j,
            ) by {
                assert(Self::entry_ok(mid.jobs@, qs, i, j));
            }
            assert forall|lj: int, k: int|
                0 <= lj < ls.len() && 0 <= k < ls[lj].ids.len() implies #[trigger] Self::lease_slot_ok(
                jobs,
                ls,
                lj,
                k,
            ) by {
                assert(Self::lease_slot_ok(mid.jobs@, ls, lj, k));
                assert(ls[lj].ids[k] != id);
            }
            assert forall|id2: int|
                0 <= id2 < jobs.len() implies #[trigger] Self::given_leased_at(jobs, ls, id2) by {
                if id2 != id && jobs[id2].state is Given {
                    assert(Self::given_leased_at(mid.jobs@, mid.leases@, id2));
                    let (lj, k) = choose|lj: int, k: int|
                        0 <= lj < ls.len() && 0 <= k < ls[lj].ids.len() && ls[lj].client
                            == mid.jobs@[id2].state->Given_0 && (#[trigger] ls[lj].ids[k]) == id2;
                    assert(ls[lj].ids[k] == id2);
                }
            }
            assert forall|id2: int|
                0 <= id2 < jobs.len() && id2 != id && (#[trigger] jobs[id2].state)
                    is Ready implies Self::ready_at(jobs, qs, id2) by {
                assert(mid.jobs@[id2].state is Ready);
                let (i, k) = choose|i: int, k: int|
                    0 <= i < qs.len() && 0 <= k < qs[i].jobs.len() && (#[trigger] qs[i].jobs[k]).id
                        == id2 && qs[i].name@ == mid.jobs@[id2].queue@;
                assert(qs[i].jobs[k].id == id2 && qs[i].name@ == jobs[id2].queue@);
            }
        }
        let qname = self.jobs[id].queue.clone();
        let priority = self.jobs[id].priority;
        let hs = self.add_to_queue(&qname, id, priority);
        hs
    }

    /// Aborts job `id` on behalf of `client`: only the leasing client may
    /// abort, returning the job to service. `WrongClient` reports a job
    /// leased by someone else; `NoSuchJob` an id that is unknown or not
    /// currently leased.
    pub fn abort_job(&mut self, id: usize, client: u64) -> (r: AbortOutcome)
        requires
            old(self).wf(),
        ensures
            final(self).wf(),
            match r {
                AbortOutcome::Aborted(hs) => {
                    &&& id < old(self).jobs@.len()
                    &&& old(self).jobs@[id as int].state == JobState::Given(client)
                    &&& final(self).jobs@.len() == old(self).jobs@.len()
                    &&& Self::handoff_complete(*final(self), old(self).jobs@[id as int].queue@, hs@)
                    &&& Self::waiters_kept_unless_handed(
                        old(self).waiters@,
                        final(self).waiters@,
                        hs@,
                    )
                    &&& Self::queues_preserved(old(self).queues@, final(self).queues@)
                    &&& Self::waiters_from(final(self).waiters@, old(self).waiters@)
                    &&& Self::handoffs_ok(
                        old(self).jobs@.update(
                            id as int,
                            (Job {
                                priority: old(self).jobs@[id as int].priority,
                                queue: old(self).jobs@[id as int].queue,
                                state: JobState::Ready,
                                value: old(self).jobs@[id as int].value,
                            }),
                        ),
                        old(self).waiters@,
                        final(self).jobs@,
                        hs@,
                    )
                    &&& Self::jobs_unchanged_outside(
                        old(self).jobs@.update(
                            id as int,
                            (Job {
                                priority: old(self).jobs@[id as int].priority,
                                queue: old(self).jobs@[id as int].queue,
                                state: JobState::Ready,
                                value: old(self).jobs@[id as int].value,
                            }),
                        ),
                        final(self).jobs@,
                        hs@,
                    )
                },
                AbortOutcome::WrongClient => {
                    &&& *final(self) == *old(self)
                    &&& id < old(self).jobs@.len()
                    &&& old(self).jobs@[id as int].state is Given
                    &&& old(self).jobs@[id as int].state != JobState::Given(client)
                },
                AbortOutcome::NoSuchJob => {
                    &&& *final(self) == *old(self)
                    &&& (id >= old(self).jobs@.len() || !(old(self).jobs@[id as int].state
                        is Given))
                },
            },
    {
        if id >= self.jobs.len() {
            return AbortOutcome::NoSuchJob;
        }
        match self.jobs[id].state {
            JobState::Given(c) => {
                if c == client {
                    let hs = self.release_job(id);
                    AbortOutcome::Aborted(hs)
                } else {
                    AbortOutcome::WrongClient
                }
            },
            _ => AbortOutcome::NoSuchJob,
        }
    }

    /// Drops every waiter row of `client`: a disconnected client can no
    /// longer be handed a job.
    fn remove_client_waiters(&mut self, client: u64)
        ensures
            final(self).jobs == old(self).jobs,
            final(self).queues == old(self).queues,
            final(self).leases == old(self).leases,
            final(self).next_waiter == old(self).next_waiter,
            forall|j: int|
                0 <= j < final(self).waiters@.len() ==> (#[trigger] final(self).waiters@[j]).client
                    != client,
            Self::waiters_from(final(self).waiters@, old(self).waiters@),
            forall|w: int|
                0 <= w < old(self).waiters@.len() && (#[trigger] old(self).waiters@[w]).client
                    != client ==> final(self).waiters@.contains(old(self).waiters@[w]),
    {
        let mut kept: Vec<Waiter> = Vec::new();
        let mut k: usize = 0;
        let n = self.waiters.len();
        while k < n
            invariant
                self == old(self),
                n == self.waiters@.len(),
                k <= n,
                forall|j: int| 0 <= j < kept@.len() ==> (#[trigger] kept@[j]).client != client,
                Self::waiters_from(kept@, self.waiters@),
                forall|w: int|
                    0 <= w < k && (#[trigger] self.waiters@[w]).client != client ==> kept@.contains(
                        self.waiters@[w],
                    ),
            decreases n - k,
        {
            let w = self.waiters[k];
            let ghost kept0 = kept@;
            if w.client != client {
                kept.push(w);
            }
            k += 1;
            proof {
                let ws = self.waiters@;
                assert forall|j: int|
                    0 <= j < kept@.len() implies ws.contains(#[trigger] kept@[j]) by {
                    if j < kept0.len() {
                        assert(kept@[j] == kept0[j]);
                    } else {
                        assert(ws[k - 1] == kept@[j]);
                    }
                }
                assert(Self::waiters_from(kept@, ws));
                assert forall|w2: int|
                    0 <= w2 < k && (#[trigger] ws[w2]).client != client implies kept@.contains(
                    ws[w2],
                ) by {
                    if w2 < k - 1 {
                        let j = choose|j: int| 0 <= j < kept0.len() && kept0[j] == ws[w2];
                        assert(kept@[j] == ws[w2]);
                    } else {
                        assert(kept@[kept@.len() - 1] == ws[w2]);
                    }
                }
            }
        }
        let ghost keptv = kept@;
        self.waiters = kept;
        proof {
            assert(self.waiters@ == keptv);
        }
    }

    /// Cleans up after the disconnect of `client`: removes its waiter
    /// registrations and returns every job it still leases to service,
    /// re-enqueueing and handing off each one. Afterwards no job is
    /// `Given` to `client`.
    pub fn disconnect(&mut self, client: u64) -> (hs: Vec<Handoff>)
        requires
            old(self).wf(),
        ensures
            final(self).wf(),
            final(self).jobs@.len() == old(self).jobs@.len(),
            forall|id2: int|
                0 <= id2 < final(self).jobs@.len() ==> (#[trigger] final(self).jobs@[id2].state)
                    != JobState::Given(client),
            forall|j: int|
                0 <= j < final(self).waiters@.len() ==> (#[trigger] final(self).waiters@[j]).client
                    != client,
            forall|h: int|
                0 <= h < hs@.len() ==> Self::disc_handoff_ok(
                    *final(self),
                    old(self).waiters@,
                    client,
                    #[trigger] hs@[h],
                ),
            forall|id2: int|
                0 <= id2 < old(self).jobs@.len() && (#[trigger] old(self).jobs@[id2].state)
                    == JobState::Given(client) ==> final(self).jobs@[id2].priority == old(self).jobs@[id2].priority
                    && final(self).jobs@[id2].queue == old(self).jobs@[id2].queue
                    && final(self).jobs@[id2].value == old(self).jobs@[id2].value && (final(self).jobs@[id2].state
                    is Ready || Self::touches(hs@, id2)),
            forall|id2: int|
                0 <= id2 < old(self).jobs@.len() && (#[trigger] old(self).jobs@[id2].state)
                    != JobState::Given(client) && !Self::touches(hs@, id2) ==> final(self).jobs@[id2]
                    == old(self).jobs@[id2],
            forall|w: int|
                0 <= w < old(self).waiters@.len() && (#[trigger] old(self).waiters@[w]).client
                    != client && !Self::handed(hs@, old(self).waiters@[w].waiter_id) ==> final(self).waiters@.contains(old(self).waiters@[w]),
    {
        self.remove_client_waiters(client);
        let ghost w0 = self.waiters@;
        proof {
            assert forall|w: int|
                0 <= w < w0.len() implies self.waiters@.contains(#[trigger] w0[w]) by {
                assert(self.waiters@[w] == w0[w]);
            }
        }
        let mut pending: Vec<usize> = Vec::new();
        match self.find_lease(client) {
            Some(li) => {
                let mut k: usize = 0;
                while k < self.leases[li].ids.len()
                    invariant
                        li < self.leases@.len(),
                        k <= self.leases@[li as int].ids.len(),
                        pending@.len() == k,
                        forall|j: int|
                            0 <= j < k ==> #[trigger] pending@[j]
                                == self.leases@[li as int].ids[j],
                    decreases self.leases@[li as int].ids.len() - k,
                {
                    let idv = self.leases[li].ids[k];
                    pending.push(idv);
                    k += 1;
                }
                proof {
                    assert forall|id2: int|
                        0 <= id2 < self.jobs@.len() && (#[trigger] self.jobs@[id2].state)
                            == JobState::Given(client) implies exists|j: int|
                        0 <= j < pending@.len() && pending@[j] == id2 by {
                        assert(Self::given_leased_at(self.jobs@, self.leases@, id2));
                        let (lj, kk) = choose|lj: int, kk: int|
                            0 <= lj < self.leases@.len() && 0 <= kk < self.leases@[lj].ids.len()
                                && self.leases@[lj].client == self.jobs@[id2].state->Given_0 && (
                            #[trigger] self.leases@[lj].ids[kk]) == id2;
                        assert(lj == li);
                        assert(pending@[kk] == id2);
                    }
                }
            },
            None => {
                proof {
                    assert forall|id2: int|
                        0 <= id2 < self.jobs@.len() && (#[trigger] self.jobs@[id2].state)
                            == JobState::Given(client) implies exists|j: int|
                        0 <= j < pending@.len() && pending@[j] == id2 by {
                        assert(Self::given_leased_at(self.jobs@, self.leases@, id2));
                        let (lj, kk) = choose|lj: int, kk: int|
                            0 <= lj < self.leases@.len() && 0 <= kk < self.leases@[lj].ids.len()
                                && self.leases@[lj].client == self.jobs@[id2].state->Given_0 && (
                            #[trigger] self.leases@[lj].ids[kk]) == id2;
                        assert(false);
                    }
                }
            },
        }
        let mut out: Vec<Handoff> = Vec::new();
        let mut i: usize = 0;
        let ghost jn = self.jobs@.len();
        while i < pending.len()
            invariant
                self.wf(),
                jn == old(self).jobs@.len(),
                self.jobs@.len() == jn,
                i <= pending@.len(),
                Self::waiters_from(self.waiters@, w0),
                Self::waiters_from(w0, old(self).waiters@),
                forall|j: int| 0 <= j < w0.len() ==> (#[trigger] w0[j]).client != client,
                forall|w: int|
                    0 <= w < w0.len() && !Self::handed(out@, (#[trigger] w0[w]).waiter_id)
                        ==> self.waiters@.contains(w0[w]),
                forall|id2: int|
                    0 <= id2 < self.jobs@.len() && (#[trigger] self.jobs@[id2].state)
                        == JobState::Given(client) ==> exists|j: int|
                        i <= j < pending@.len() && pending@[j] == id2,
                forall|h: int|
                    0 <= h < out@.len() ==> Self::disc_handoff_ok(
                        *self,
                        old(self).waiters@,
                        client,
                        #[trigger] out@[h],
                    ),
                forall|id2: int|
                    0 <= id2 < old(self).jobs@.len() && (#[trigger] old(self).jobs@[id2].state)
                        == JobState::Given(client) ==> self.jobs@[id2].priority == old(self).jobs@[id2].priority
                        && self.jobs@[id2].queue == old(self).jobs@[id2].queue
                        && self.jobs@[id2].value == old(self).jobs@[id2].value && (self.jobs@[id2].state
                        is Ready || Self::touches(out@, id2) || self.jobs@[id2].state
                        == JobState::Given(client)),
                forall|id2: int|
                    0 <= id2 < old(self).jobs@.len() && (#[trigger] old(self).jobs@[id2].state)
                        != JobState::Given(client) && !Self::touches(out@, id2) ==> self.jobs@[id2]
                        == old(self).jobs@[id2],
            decreases pending@.len() - i,
        {
            let idv = pending[i];
            let still = if idv < self.jobs.len() {
                match self.jobs[idv].state {
                    JobState::Given(c) => c == client,
                    _ => false,
                }
            } else {
                false
            };
            let ghost pre = *self;
            if still {
                let hs = self.release_job(idv);
                proof {
                    let mid_jobs = pre.jobs@.update(
                        idv as int,
                        (Job {
                            priority: pre.jobs@[idv as int].priority,
                            queue: pre.jobs@[idv as int].queue,
                            state: JobState::Ready,
                            value: pre.jobs@[idv as int].value,
                        }),
                    );
                    assert forall|id2: int|
                        0 <= id2 < self.jobs@.len() && (#[trigger] self.jobs@[id2].state)
                            == JobState::Given(client) implies exists|j: int|
                        i + 1 <= j < pending@.len() && pending@[j] == id2 by {
                        if Self::touches(hs@, id2) {
                            let h = choose|h: int|
                                0 <= h < hs@.len() && (#[trigger] hs@[h]).id == id2;
                            assert(Self::handoff_ok(mid_jobs, pre.waiters@, self.jobs@, hs@[h]));
                            let wk = choose|wk: int|
                                0 <= wk < pre.waiters@.len() && (
                                #[trigger] pre.waiters@[wk]).waiter_id == hs@[h].waiter_id
                                    && pre.waiters@[wk].client == hs@[h].client;
                            assert(w0.contains(pre.waiters@[wk]));
                            let w1 = choose|w1: int|
                                0 <= w1 < w0.len() && w0[w1] == pre.waiters@[wk];
                            assert(w0[w1].client != client);
                            assert(false);
                        } else {
                            assert(self.jobs@[id2] == mid_jobs[id2]);
                            assert(id2 != idv);
                            assert(pre.jobs@[id2].state == JobState::Given(client));
                            let j = choose|j: int|
                                i <= j < pending@.len() && #[trigger] pending@[j] == id2;
                            assert(j != i);
                        }
                    }
                    assert forall|j: int|
                        0 <= j < self.waiters@.len() implies w0.contains(
                        #[trigger] self.waiters@[j]) by {
                        let k1 = choose|k1: int|
                            0 <= k1 < pre.waiters@.len() && pre.waiters@[k1] == self.waiters@[j];
                        let k2 = choose|k2: int| 0 <= k2 < w0.len() && w0[k2] == pre.waiters@[k1];
                        assert(w0[k2] == self.waiters@[j]);
                    }
                    assert(Self::waiters_from(self.waiters@, w0));
                    // each handoff of this step is sound against the final state
                    assert forall|h: int|
                        0 <= h < hs@.len() implies Self::disc_handoff_ok(
                        *self,
                        old(self).waiters@,
                        client,
                        #[trigger] hs@[h],
                    ) by {
                        assert(Self::handoff_ok(mid_jobs, pre.waiters@, self.jobs@, hs@[h]));
                        let wk = choose|wk: int|
                            0 <= wk < pre.waiters@.len() && (
                            #[trigger] pre.waiters@[wk]).waiter_id == hs@[h].waiter_id
                                && pre.waiters@[wk].client == hs@[h].client;
                        assert(w0.contains(pre.waiters@[wk]));
                        let w1 = choose|w1: int| 0 <= w1 < w0.len() && w0[w1] == pre.waiters@[wk];
                        assert(w0[w1].client != client);
                        assert(old(self).waiters@.contains(w0[w1]));
                        let w2 = choose|w2: int|
                            0 <= w2 < old(self).waiters@.len() && old(self).waiters@[w2]
                                == w0[w1];
                        assert(old(self).waiters@[w2].waiter_id == hs@[h].waiter_id
                            && old(self).waiters@[w2].client == hs@[h].client);
                    }
                    // handoffs of earlier steps are untouched by this one
                    assert forall|h: int|
                        0 <= h < out@.len() implies Self::disc_handoff_ok(
                        *self,
                        old(self).waiters@,
                        client,
                        #[trigger] out@[h],
                    ) by {
                        assert(Self::disc_handoff_ok(pre, old(self).waiters@, client, out@[h]));
                        assert(out@[h].id != idv);
                        assert(!Self::touches(hs@, out@[h].id as int)) by {
                            if Self::touches(hs@, out@[h].id as int) {
                                let h2 = choose|h2: int|
                                    0 <= h2 < hs@.len() && (#[trigger] hs@[h2]).id == out@[h].id;
                                assert(Self::handoff_ok(
                                    mid_jobs,
                                    pre.waiters@,
                                    self.jobs@,
                                    hs@[h2],
                                ));
                            }
                        }
                        assert(self.jobs@[out@[h].id as int] == mid_jobs[out@[h].id as int]);
                    }
                    // formerly leased jobs keep their fields, and are back in
                    // service unless handed off
                    assert forall|id2: int|
                        0 <= id2 < old(self).jobs@.len() && (
                        #[trigger] old(self).jobs@[id2].state) == JobState::Given(
                        client,
                    ) implies self.jobs@[id2].priority == old(self).jobs@[id2].priority
                        && self.jobs@[id2].queue == old(self).jobs@[id2].queue
                        && self.jobs@[id2].value == old(self).jobs@[id2].value && (
                    self.jobs@[id2].state is Ready || Self::touches(out@ + hs@, id2)
                        || self.jobs@[id2].state == JobState::Given(client)) by {
                        if id2 == idv {
                            if Self::touches(hs@, id2) {
                                let h2 = choose|h2: int|
                                    0 <= h2 < hs@.len() && (#[trigger] hs@[h2]).id == id2;
                                assert(Self::handoff_ok(
                                    mid_jobs,
                                    pre.waiters@,
                                    self.jobs@,
                                    hs@[h2],
                                ));
                                assert((out@ + hs@)[out@.len() + h2] == hs@[h2]);
                            } else {
                                assert(self.jobs@[id2] == mid_jobs[id2]);
                            }
                        } else {
                            if Self::touches(out@, id2) {
                                let h2 = choose|h2: int|
                                    0 <= h2 < out@.len() && (#[trigger] out@[h2]).id == id2;
                                assert((out@ + hs@)[h2] == out@[h2]);
                                assert(Self::touches(out@ + hs@, id2));
                                assert(Self::disc_handoff_ok(
                                    *self,
                                    old(self).waiters@,
                                    client,
                                    out@[h2],
                                ));
                            } else if Self::touches(hs@, id2) {
                                let h2 = choose|h2: int|
                                    0 <= h2 < hs@.len() && (#[trigger] hs@[h2]).id == id2;
                                assert(Self::handoff_ok(
                                    mid_jobs,
                                    pre.waiters@,
                                    self.jobs@,
                                    hs@[h2],
                                ));
                                assert((out@ + hs@)[out@.len() + h2] == hs@[h2]);
                            } else {
                                assert(self.jobs@[id2] == mid_jobs[id2]);
                                assert(mid_jobs[id2] == pre.jobs@[id2]);
                            }
                        }
                    }
                    // jobs not named by any handoff so far are untouched
                    assert forall|id2: int|
                        0 <= id2 < old(self).jobs@.len() && (
                        #[trigger] old(self).jobs@[id2].state) != JobState::Given(client)
                            && !Self::touches(out@ + hs@, id2) implies self.jobs@[id2] == old(self).jobs@[id2] by {
                        assert(!Self::touches(out@, id2)) by {
                            if Self::touches(out@, id2) {
                                let h2 = choose|h2: int|
                                    0 <= h2 < out@.len() && (#[trigger] out@[h2]).id == id2;
                                assert((out@ + hs@)[h2] == out@[h2]);
                            }
                        }
                        assert(!Self::touches(hs@, id2)) by {
                            if Self::touches(hs@, id2) {
                                let h2 = choose|h2: int|
                                    0 <= h2 < hs@.len() && (#[trigger] hs@[h2]).id == id2;
                                assert((out@ + hs@)[out@.len() + h2] == hs@[h2]);
                            }
                        }
                        assert(id2 != idv);
                        assert(self.jobs@[id2] == mid_jobs[id2]);
                    }
                }
                let ghost out0 = out@;
                let ghost hsv = hs@;
                let mut hs2 = hs;
                proof {
                    assert(hs2@ =~= hsv.subrange(0, hsv.len() as int));
                    assert(out@ =~= out0 + hsv.subrange(0, 0));
                }
                while hs2.len() > 0
                    invariant
                        hs2@.len() <= hsv.len(),
                        hs2@ =~= hsv.subrange(
                            (hsv.len() - hs2@.len()) as int,
                            hsv.len() as int,
                        ),
                        out@ =~= out0 + hsv.subrange(0, (hsv.len() - hs2@.len()) as int),
                    decreases hs2@.len(),
                {
                    let ghost presub = hs2@;
                    let h = hs2.remove(0);
                    proof {
                        assert(h == presub[0]);
                        assert(presub[0] == hsv[(hsv.len() - presub.len()) as int]);
                        assert(hs2@ =~= presub.subrange(1, presub.len() as int));
                        assert(hs2@ =~= hsv.subrange(
                            (hsv.len() - hs2@.len()) as int,
                            hsv.len() as int,
                        ));
                    }
                    out.push(h);
                    proof {
                        assert(out@ =~= out0 + hsv.subrange(
                            0,
                            (hsv.len() - hs2@.len()) as int,
                        ));
                    }
                }
                proof {
                    assert(hsv.subrange(0, hsv.len() as int) =~= hsv);
                    assert(out@ =~= out0 + hsv);
                    assert forall|h: int|
                        0 <= h < out@.len() implies Self::disc_handoff_ok(
                        *self,
                        old(self).waiters@,
                        client,
                        #[trigger] out@[h],
                    ) by {
                        if h < out0.len() {
                            assert(out@[h] == out0[h]);
                        } else {
                            assert(out@[h] == hsv[h - out0.len()]);
                        }
                    }
                    assert forall|id2: int|
                        0 <= id2 < old(self).jobs@.len() && (
                        #[trigger] old(self).jobs@[id2].state) == JobState::Given(
                        client,
                    ) implies self.jobs@[id2].priority == old(self).jobs@[id2].priority
                        && self.jobs@[id2].queue == old(self).jobs@[id2].queue
                        && self.jobs@[id2].value == old(self).jobs@[id2].value && (
                    self.jobs@[id2].state is Ready || Self::touches(out@, id2)
                        || self.jobs@[id2].state == JobState::Given(client)) by {
                        assert(Self::touches(out0 + hsv, id2) == Self::touches(out@, id2));
                    }
                    assert forall|id2: int|
                        0 <= id2 < old(self).jobs@.len() && (
                        #[trigger] old(self).jobs@[id2].state) != JobState::Given(client)
                            && !Self::touches(out@, id2) implies self.jobs@[id2] == old(self).jobs@[id2] by {
                        assert(Self::touches(out0 + hsv, id2) == Self::touches(out@, id2));
                    }
                    assert forall|w: int|
                        0 <= w < w0.len() && !Self::handed(out@, (
                    #[trigger] w0[w]).waiter_id) implies self.waiters@.contains(w0[w]) by {
                        assert(!Self::handed(out0, w0[w].waiter_id)) by {
                            if Self::handed(out0, w0[w].waiter_id) {
                                let h = choose|h: int|
                                    0 <= h < out0.len() && (#[trigger] out0[h]).waiter_id
                                        == w0[w].waiter_id;
                                assert(out@[h].waiter_id == w0[w].waiter_id);
                            }
                        }
                        assert(!Self::handed(hsv, w0[w].waiter_id)) by {
                            if Self::handed(hsv, w0[w].waiter_id) {
                                let h = choose|h: int|
                                    0 <= h < hsv.len() && (#[trigger] hsv[h]).waiter_id
                                        == w0[w].waiter_id;
                                assert(out@[out0.len() + h].waiter_id == w0[w].waiter_id);
                            }
                        }
                        assert(pre.waiters@.contains(w0[w]));
                        let k1 = choose|k1: int|
                            0 <= k1 < pre.waiters@.len() && pre.waiters@[k1] == w0[w];
                        assert(Self::waiters_kept_unless_handed(
                            pre.waiters@,
                            self.waiters@,
                            hsv,
                        ));
                        assert(!Self::handed(hsv, pre.waiters@[k1].waiter_id));
                        assert(self.waiters@.contains(pre.waiters@[k1]));
                    }
                }
            } else {
                proof {
                    assert forall|id2: int|
                        0 <= id2 < self.jobs@.len() && (#[trigger] self.jobs@[id2].state)
                            == JobState::Given(client) implies exists|j: int|
                        i + 1 <= j < pending@.len() && pending@[j] == id2 by {
                        let j = choose|j: int|
                            i <= j < pending@.len() && #[trigger] pending@[j] == id2;
                        assert(j != i);
                    }
                    assert forall|h: int|
                        0 <= h < out@.len() implies Self::disc_handoff_ok(
                        *self,
                        old(self).waiters@,
                        client,
                        #[trigger] out@[h],
                    ) by {
                        assert(Self::disc_handoff_ok(pre, old(self).waiters@, client, out@[h]));
                    }
                }
            }
            i += 1;
        }
        proof {
            assert forall|id2: int|
                0 <= id2 < self.jobs@.len() implies (#[trigger] self.jobs@[id2].state)
                != JobState::Given(client) by {
                if self.jobs@[id2].state == JobState::Given(client) {
                    let j = choose|j: int|
                        i <= j < pending@.len() && #[trigger] pending@[j] == id2;
                }
            }
            assert forall|j: int|
                0 <= j < self.waiters@.len() implies (#[trigger] self.waiters@[j]).client
                != client by {
                let k2 = choose|k2: int| 0 <= k2 < w0.len() && w0[k2] == self.waiters@[j];
            }
            assert forall|w: int|
                0 <= w < old(self).waiters@.len() && (#[trigger] old(self).waiters@[w]).client
                    != client && !Self::handed(out@, old(self).waiters@[w].waiter_id) implies self.waiters@.contains(
                old(self).waiters@[w],
            ) by {
                assert(w0.contains(old(self).waiters@[w]));
                let k2 = choose|k2: int| 0 <= k2 < w0.len() && w0[k2] == old(self).waiters@[w];
                assert(w0[k2].waiter_id == old(self).waiters@[w].waiter_id);
                assert(!Self::handed(out@, w0[k2].waiter_id));
                assert(self.waiters@.contains(w0[k2]));
            }
        }
        out
    }

    /// The name list holds `q` among its first `hi` entries.
    pub open spec fn names_contain_upto(names: Seq<String>, q: Seq<char>, hi: int) -> bool {
        exists|i: int| 0 <= i < hi && (#[trigger] names[i])@ == q
    }

    /// The name list holds `q`.
    pub open spec fn names_contain(names: Seq<String>, q: Seq<char>) -> bool {
        Self::names_contain_upto(names, q, names.len() as int)
    }

    /// The registration `wid` of `client` has a waiter row pointing at a
    /// queue named `name`.
    pub open spec fn registered_on(m: JobManager, name: Seq<char>, wid: u64, client: u64) -> bool {
        exists|w: int|
            0 <= w < m.waiters@.len() && (#[trigger] m.waiters@[w]).waiter_id == wid
                && m.waiters@[w].client == client && m.waiters@[w].queue < m.queues@.len()
                && m.queues@[m.waiters@[w].queue as int].name@ == name
    }

    /// The registration `wid` of `client` stands on every queue of the
    /// name list.
    pub open spec fn registered_on_all(
        m: JobManager,
        names: Seq<String>,
        wid: u64,
        client: u64,
    ) -> bool
        decreases names.len(),
    {
        names.len() == 0 || (Self::registered_on(m, names.last()@, wid, client)
            && Self::registered_on_all(m, names.drop_last(), wid, client))
    }

    /// A registration survives appending waiter rows and queues: the
    /// witnessing rows and queues are untouched.
    proof fn lemma_registered_preserved(
        m1: JobManager,
        m2: JobManager,
        names: Seq<String>,
        wid: u64,
        client: u64,
    )
        requires
            Self::registered_on_all(m1, names, wid, client),
            m1.waiters@.len() <= m2.waiters@.len(),
            forall|k: int|
                0 <= k < m1.waiters@.len() ==> #[trigger] m2.waiters@[k] == m1.waiters@[k],
            m1.queues@.len() <= m2.queues@.len(),
            forall|i: int|
                0 <= i < m1.queues@.len() ==> #[trigger] m2.queues@[i] == m1.queues@[i],
        ensures
            Self::registered_on_all(m2, names, wid, client),
        decreases names.len(),
    {
        if names.len() > 0 {
            let w = choose|w: int|
                0 <= w < m1.waiters@.len() && (#[trigger] m1.waiters@[w]).waiter_id == wid
                    && m1.waiters@[w].client == client && m1.waiters@[w].queue < m1.queues@.len()
                    && m1.queues@[m1.waiters@[w].queue as int].name@ == names.last()@;
            assert(m2.waiters@[w] == m1.waiters@[w]);
            assert(m2.queues@[m1.waiters@[w].queue as int] == m1.queues@[m1.waiters@[w].queue as int]);
            Self::lemma_registered_preserved(m1, m2, names.drop_last(), wid, client);
        }
    }

    /// Serves a get request: discards stale entries of the named queues,
    /// then takes the highest-priority `Ready` job across them, marking it
    /// `Given` to `client` and adding it to the client's lease. When no
    /// such job exists, either registers a waiter on every named queue
    /// (`wait`) or reports that there is no job.
    #[verifier::rlimit(60)]
    pub fn get_from_queues(&mut self, queues: &Vec<String>, wait: bool, client: u64) -> (r:
        GetOutcome)
        requires
            old(self).wf(),
        ensures
            final(self).wf(),
            final(self).jobs@.len() == old(self).jobs@.len(),
            Self::queues_preserved(old(self).queues@, final(self).queues@),
            match r {
                GetOutcome::Got { id, payload } => {
                    &&& id < old(self).jobs@.len()
                    &&& old(self).jobs@[id as int].state is Ready
                    &&& Self::names_contain(queues@, old(self).jobs@[id as int].queue@)
                    &&& final(self).jobs@[id as int].state == JobState::Given(client)
                    &&& payload.spec_job() == old(self).jobs@[id as int].value
                    &&& payload.spec_priority() == old(self).jobs@[id as int].priority
                    &&& payload.spec_queue() == old(self).jobs@[id as int].queue
                    &&& forall|i: int|
                        0 <= i < old(self).jobs@.len() && i != id ==> #[trigger] final(self).jobs@[i]
                            == old(self).jobs@[i]
                    &&& forall|j: int|
                        0 <= j < old(self).jobs@.len() && (#[trigger] old(self).jobs@[j].state)
                            is Ready && Self::names_contain(queues@, old(self).jobs@[j].queue@)
                            ==> old(self).jobs@[j].priority <= old(self).jobs@[id as int].priority
                    &&& exists|li: int, k: int|
                        0 <= li < final(self).leases@.len() && 0 <= k
                            < final(self).leases@[li].ids.len() && final(self).leases@[li].client
                            == client && #[trigger] final(self).leases@[li].ids[k] == id
                    &&& final(self).waiters == old(self).waiters
                },
                GetOutcome::Registered { waiter_id } => {
                    &&& wait
                    &&& waiter_id == old(self).next_waiter
                    &&& final(self).next_waiter == (if old(self).next_waiter < u64::MAX {
                        (old(self).next_waiter + 1) as u64
                    } else {
                        old(self).next_waiter
                    })
                    &&& final(self).jobs == old(self).jobs
                    &&& final(self).leases == old(self).leases
                    &&& forall|j: int|
                        0 <= j < old(self).jobs@.len() && (#[trigger] old(self).jobs@[j].state)
                            is Ready ==> !Self::names_contain(queues@, old(self).jobs@[j].queue@)
                    &&& old(self).waiters@.len() <= final(self).waiters@.len()
                    &&& forall|k: int|
                        0 <= k < old(self).waiters@.len() ==> #[trigger] final(self).waiters@[k]
                            == old(self).waiters@[k]
                    &&& forall|k: int|
                        old(self).waiters@.len() <= k < final(self).waiters@.len() ==> (
                        #[trigger] final(self).waiters@[k]).waiter_id == waiter_id
                            && final(self).waiters@[k].client == client
                    &&& Self::registered_on_all(*final(self), queues@, waiter_id, client)
                },
                GetOutcome::NoJob => {
                    &&& !wait
                    &&& final(self).jobs == old(self).jobs
                    &&& final(self).leases == old(self).leases
                    &&& final(self).waiters == old(self).waiters
                    &&& forall|j: int|
                        0 <= j < old(self).jobs@.len() && (#[trigger] old(self).jobs@[j].state)
                            is Ready ==> !Self::names_contain(queues@, old(self).jobs@[j].queue@)
                },
            },
    {
        let ghost names = queues@;
        let mut ni: usize = 0;
        while ni < queues.len()
            invariant
                self.wf(),
                ni <= names.len(),
                names == queues@,
                self.jobs == old(self).jobs,
                self.leases == old(self).leases,
                self.waiters == old(self).waiters,
                self.next_waiter == old(self).next_waiter,
                self.queues@.len() == old(self).queues@.len(),
                Self::queues_preserved(old(self).queues@, self.queues@),
                forall|qi: int|
                    0 <= qi < self.queues@.len() ==> (#[trigger] self.queues@[qi]).name == old(self).queues@[qi].name,
                forall|qi: int|
                    0 <= qi < self.queues@.len() && Self::names_contain_upto(
                        names,
                        (#[trigger] self.queues@[qi]).name@,
                        ni as int,
                    ) ==> Self::queue_clean(self.jobs@, self.queues@[qi]),
            decreases names.len() - ni,
        {
            let ghost pre = *self;
            match self.find_queue(&queues[ni]) {
                Some(qi) => {
                    self.cleanup_queue(qi);
                    proof {
                        assert forall|qj: int|
                            0 <= qj < self.queues@.len() && Self::names_contain_upto(
                                names,
                                (#[trigger] self.queues@[qj]).name@,
                                ni + 1,
                            ) implies Self::queue_clean(self.jobs@, self.queues@[qj]) by {
                            if qj == qi {
                            } else {
                                assert(self.queues@[qj] == pre.queues@[qj]);
                                let i = choose|i: int|
                                    0 <= i < ni + 1 && (#[trigger] names[i])@
                                        == self.queues@[qj].name@;
                                if i == ni {
                                    assert(self.queues@[qj].name@ == self.queues@[qi as int].name@);
                                    assert(false);
                                } else {
                                    assert(Self::names_contain_upto(
                                        names,
                                        self.queues@[qj].name@,
                                        ni as int,
                                    ));
                                    assert(Self::queue_clean(pre.jobs@, pre.queues@[qj]));
                                }
                            }
                        }
                    }
                },
                None => {
                    proof {
                        assert forall|qj: int|
                            0 <= qj < self.queues@.len() && Self::names_contain_upto(
                                names,
                                (#[trigger] self.queues@[qj]).name@,
                                ni + 1,
                            ) implies Self::queue_clean(self.jobs@, self.queues@[qj]) by {
                            let i = choose|i: int|
                                0 <= i < ni + 1 && (#[trigger] names[i])@
                                    == self.queues@[qj].name@;
                            if i == ni {
                                assert(false);
                            } else {
                                assert(Self::names_contain_upto(
                                    names,
                                    self.queues@[qj].name@,
                                    ni as int,
                                ));
                            }
                        }
                    }
                },
            }
            ni += 1;
        }
        let ghost mid = *self;
        let mut best: Option<(usize, usize)> = None;
        let mut ni2: usize = 0;
        while ni2 < queues.len()
            invariant
                *self == mid,
                mid.wf(),
                Self::queues_preserved(old(self).queues@, self.queues@),
                ni2 <= names.len(),
                names == queues@,
                self.jobs == old(self).jobs,
                forall|qi: int|
                    0 <= qi < self.queues@.len() && Self::names_contain(
                        names,
                        (#[trigger] self.queues@[qi]).name@,
                    ) ==> Self::queue_clean(self.jobs@, self.queues@[qi]),
                match best {
                    Some((qi, k)) => qi < self.queues@.len() && k
                        < self.queues@[qi as int].jobs.len() && self.jobs@[self.queues@[qi as int].jobs[k as int].id as int].state
                        is Ready && Self::names_contain(names, self.queues@[qi as int].name@)
                        && forall|j: int|
                        0 <= j < self.jobs@.len() && (#[trigger] self.jobs@[j].state) is Ready
                            && Self::names_contain_upto(names, self.jobs@[j].queue@, ni2 as int)
                            ==> self.jobs@[j].priority
                            <= self.queues@[qi as int].jobs[k as int].priority,
                    None => forall|j: int|
                        0 <= j < self.jobs@.len() && (#[trigger] self.jobs@[j].state) is Ready
                            ==> !Self::names_contain_upto(names, self.jobs@[j].queue@, ni2 as int),
                },
            decreases names.len() - ni2,
        {
            match self.find_queue(&queues[ni2]) {
                Some(qi) => {
                    match self.best_in_queue(qi) {
                        Some(k) => {
                            proof {
                                assert(Self::entry_ok(self.jobs@, self.queues@, qi as int, k as int));
                                assert(Self::names_contain(names, self.queues@[qi as int].name@))
                                    by {
                                    assert(names[ni2 as int]@ == self.queues@[qi as int].name@);
                                }
                                assert(Self::queue_clean(self.jobs@, self.queues@[qi as int]));
                            }
                            let cand_pri = self.queues[qi].jobs[k].priority;
                            let replace = match best {
                                None => true,
                                Some((bqi, bk)) => cand_pri
                                    > self.queues[bqi].jobs[bk].priority,
                            };
                            let ghost best0 = best;
                            if replace {
                                best = Some((qi, k));
                            }
                            proof {
                                let (nqi, nk) = best->Some_0;
                                assert forall|j: int|
                                    0 <= j < self.jobs@.len() && (#[trigger] self.jobs@[j].state)
                                        is Ready && Self::names_contain_upto(
                                        names,
                                        self.jobs@[j].queue@,
                                        ni2 + 1,
                                    ) implies self.jobs@[j].priority
                                    <= self.queues@[nqi as int].jobs[nk as int].priority by {
                                    let i = choose|i: int|
                                        0 <= i < ni2 + 1 && (#[trigger] names[i])@
                                            == self.jobs@[j].queue@;
                                    if i < ni2 {
                                        assert(Self::names_contain_upto(
                                            names,
                                            self.jobs@[j].queue@,
                                            ni2 as int,
                                        ));
                                        match best0 {
                                            Some((bqi, bk)) => {
                                                assert(self.jobs@[j].priority
                                                    <= self.queues@[bqi as int].jobs[bk as int].priority);
                                            },
                                            None => {
                                                assert(false);
                                            },
                                        }
                                    } else {
                                        assert(Self::ready_at(self.jobs@, self.queues@, j));
                                        let (qj, kk) = choose|qj: int, kk: int|
                                            0 <= qj < self.queues@.len() && 0 <= kk
                                                < self.queues@[qj].jobs.len() && (
                                            #[trigger] self.queues@[qj].jobs[kk]).id == j
                                                && self.queues@[qj].name@ == self.jobs@[j].queue@;
                                        assert(qj == qi) by {
                                            if qj != qi {
                                                assert(self.queues@[qj].name@
                                                    == self.queues@[qi as int].name@);
                                            }
                                        }
                                        assert(Self::entry_ok(self.jobs@, self.queues@, qj, kk));
                                        assert(self.queues@[qj].jobs[kk].priority
                                            <= self.queues@[qi as int].jobs[k as int].priority);
                                    }
                                }
                            }
                        },
                        None => {
                            proof {
                                assert forall|j: int|
                                    0 <= j < self.jobs@.len() && (#[trigger] self.jobs@[j].state)
                                        is Ready && Self::names_contain_upto(
                                        names,
                                        self.jobs@[j].queue@,
                                        ni2 + 1,
                                    ) implies Self::names_contain_upto(
                                    names,
                                    self.jobs@[j].queue@,
                                    ni2 as int,
                                ) by {
                                    let i = choose|i: int|
                                        0 <= i < ni2 + 1 && (#[trigger] names[i])@
                                            == self.jobs@[j].queue@;
                                    if i == ni2 {
                                        assert(Self::ready_at(self.jobs@, self.queues@, j));
                                        let (qj, kk) = choose|qj: int, kk: int|
                                            0 <= qj < self.queues@.len() && 0 <= kk
                                                < self.queues@[qj].jobs.len() && (
                                            #[trigger] self.queues@[qj].jobs[kk]).id == j
                                                && self.queues@[qj].name@ == self.jobs@[j].queue@;
                                        assert(qj == qi) by {
                                            if qj != qi {
                                                assert(self.queues@[qj].name@
                                                    == self.queues@[qi as int].name@);
                                            }
                                        }
                                        assert(false);
                                    }
                                }
                            }
                        },
                    }
                },
                None => {
                    proof {
                        assert forall|j: int|
                            0 <= j < self.jobs@.len() && (#[trigger] self.jobs@[j].state) is Ready
                                && Self::names_contain_upto(
                                names,
                                self.jobs@[j].queue@,
                                ni2 + 1,
                            ) implies Self::names_contain_upto(
                            names,
                            self.jobs@[j].queue@,
                            ni2 as int,
                        ) by {
                            let i = choose|i: int|
                                0 <= i < ni2 + 1 && (#[trigger] names[i])@
                                    == self.jobs@[j].queue@;
                            if i == ni2 {
                                assert(Self::ready_at(self.jobs@, self.queues@, j));
                                let (qj, kk) = choose|qj: int, kk: int|
                                    0 <= qj < self.queues@.len() && 0 <= kk
                                        < self.queues@[qj].jobs.len() && (
                                    #[trigger] self.queues@[qj].jobs[kk]).id == j
                                        && self.queues@[qj].name@ == self.jobs@[j].queue@;
                                assert(false);
                            }
                        }
                    }
                },
            }
            ni2 += 1;
        }
        match best {
            Some((qi, k)) => {
                let e = self.queues[qi].jobs[k];
                proof {
                    assert(Self::entry_ok(self.jobs@, self.queues@, qi as int, k as int));
                }
                let payload = self.give_job(e.id, client);
                GetOutcome::Got { id: e.id, payload }
            },
            None => {
                if wait {
                    let wid = self.next_waiter;
                    if wid < u64::MAX {
                        self.next_waiter = wid + 1;
                    }
                    let ghost nw = self.next_waiter;
                    proof {
                        assert(Self::registered_on_all(
                            *self,
                            names.subrange(0, 0),
                            wid,
                            client,
                        ));
                    }
                    let mut ni3: usize = 0;
                    while ni3 < queues.len()
                        invariant
                            self.wf(),
                            ni3 <= names.len(),
                            names == queues@,
                            self.jobs == old(self).jobs,
                            self.leases == old(self).leases,
                            self.next_waiter == nw,
                            Self::queues_preserved(old(self).queues@, self.queues@),
                            old(self).waiters@.len() <= self.waiters@.len(),
                            forall|k2: int|
                                0 <= k2 < old(self).waiters@.len() ==> #[trigger] self.waiters@[k2]
                                    == old(self).waiters@[k2],
                            forall|k2: int|
                                old(self).waiters@.len() <= k2 < self.waiters@.len() ==> (
                                #[trigger] self.waiters@[k2]).waiter_id == wid
                                    && self.waiters@[k2].client == client,
                            Self::registered_on_all(
                                *self,
                                names.subrange(0, ni3 as int),
                                wid,
                                client,
                            ),
                        decreases names.len() - ni3,
                    {
                        let ghost pre = *self;
                        let qi = self.ensure_queue(&queues[ni3], Ghost(-1int));
                        self.waiters.push(Waiter { waiter_id: wid, client, queue: qi });
                        ni3 += 1;
                        proof {
                            assert forall|q2: int|
                                0 <= q2 < old(self).queues@.len() implies (
                            #[trigger] self.queues@[q2]).name == old(self).queues@[q2].name by {
                                assert(self.queues@[q2] == pre.queues@[q2]);
                            }
                        }
                        proof {
                            let prefix = names.subrange(0, ni3 as int);
                            let prefix0 = names.subrange(0, ni3 - 1);
                            Self::lemma_registered_preserved(pre, *self, prefix0, wid, client);
                            let w = self.waiters@.len() - 1;
                            assert(self.waiters@[w].waiter_id == wid && self.waiters@[w].client
                                == client && self.waiters@[w].queue == qi as usize
                                && self.queues@[qi as int].name@ == names[ni3 - 1]@);
                            assert(Self::registered_on(*self, prefix.last()@, wid, client));
                            assert(prefix.drop_last() =~= prefix0);
                            assert(Self::registered_on_all(*self, prefix, wid, client));
                        }
                    }
                    proof {
                        assert(names.subrange(0, names.len() as int) =~= names);
                        assert(Self::registered_on_all(*self, names, wid, client));
                    }
                    GetOutcome::Registered { waiter_id: wid }
                } else {
                    GetOutcome::NoJob
                }
            },
        }
    }

    /// Applies one command to the scheduler and says what the connection
    /// tasks owe in return. This is the whole decision part of the
    /// scheduler's command loop; the loop itself only receives commands
    /// and performs the sends.
    pub fn apply(&mut self, cmd: JobCommand) -> (r: Effect)
        requires
            old(self).wf(),
        ensures
            final(self).wf(),
            match cmd {
                JobCommand::Put { queue, job, pri } => {
                    &&& r.suspended is None
                    &&& r.reply == Some(
                        Response::Okay { id: Some(old(self).jobs@.len() as usize), job: None },
                    )
                    &&& final(self).jobs@.len() == old(self).jobs@.len() + 1
                    &&& final(self).jobs@[old(self).jobs@.len() as int].queue == queue
                    &&& final(self).jobs@[old(self).jobs@.len() as int].value == job
                    &&& final(self).jobs@[old(self).jobs@.len() as int].priority == pri
                    &&& Self::handoffs_ok(
                        old(self).jobs@.push(
                            (Job { priority: pri, queue, state: JobState::Ready, value: job }),
                        ),
                        old(self).waiters@,
                        final(self).jobs@,
                        r.handoffs@,
                    )
                    &&& Self::jobs_unchanged_outside(
                        old(self).jobs@.push(
                            (Job { priority: pri, queue, state: JobState::Ready, value: job }),
                        ),
                        final(self).jobs@,
                        r.handoffs@,
                    )
                    &&& Self::handoff_complete(*final(self), queue@, r.handoffs@)
                    &&& Self::waiters_kept_unless_handed(
                        old(self).waiters@,
                        final(self).waiters@,
                        r.handoffs@,
                    )
                    &&& Self::queues_preserved(old(self).queues@, final(self).queues@)
                },
                JobCommand::Get { queues, wait, client } => {
                    &&& r.handoffs@.len() == 0
                    &&& final(self).jobs@.len() == old(self).jobs@.len()
                    &&& (r.suspended matches Some(wid) ==> wait && r.reply is None && wid == old(self).next_waiter && final(self).jobs == old(self).jobs && final(self).next_waiter
                        == (if old(self).next_waiter < u64::MAX {
                        (old(self).next_waiter + 1) as u64
                    } else {
                        old(self).next_waiter
                    }) && Self::registered_on_all(*final(self), queues@, wid, client) && old(self).waiters@.len()
                        <= final(self).waiters@.len() && (forall|k: int|
                        0 <= k < old(self).waiters@.len() ==> #[trigger] final(self).waiters@[k]
                            == old(self).waiters@[k]) && (forall|k: int|
                        old(self).waiters@.len() <= k < final(self).waiters@.len() ==> (
                        #[trigger] final(self).waiters@[k]).waiter_id == wid && final(self).waiters@[k].client
                            == client))
                    &&& (r.suspended is None ==> r.reply is Some)
                    &&& (r.reply matches Some(Response::NoJob) ==> !wait && final(self).jobs
                        == old(self).jobs && (forall|j: int|
                        0 <= j < old(self).jobs@.len() && (#[trigger] old(self).jobs@[j].state)
                            is Ready ==> !Self::names_contain(queues@, old(self).jobs@[j].queue@)))
                    &&& (r.reply matches Some(Response::Error { error }) ==> false)
                    &&& (r.reply matches Some(Response::Okay { id: rid, job: rjob }) ==> rid
                        matches Some(gid) && rjob matches Some(p) && gid < old(self).jobs@.len()
                        && old(self).jobs@[gid as int].state is Ready && Self::names_contain(
                        queues@,
                        old(self).jobs@[gid as int].queue@,
                    ) && final(self).jobs@[gid as int].state == JobState::Given(client)
                        && p.spec_job() == old(self).jobs@[gid as int].value && p.spec_priority()
                        == old(self).jobs@[gid as int].priority && p.spec_queue() == old(self).jobs@[gid as int].queue && (forall|j: int|
                        0 <= j < old(self).jobs@.len() && (#[trigger] old(self).jobs@[j].state)
                            is Ready && Self::names_contain(queues@, old(self).jobs@[j].queue@)
                            ==> old(self).jobs@[j].priority <= old(self).jobs@[gid as int].priority))
                },
                JobCommand::Delete { id } => {
                    &&& r.suspended is None
                    &&& r.handoffs@.len() == 0
                    &&& final(self).jobs@.len() == old(self).jobs@.len()
                    &&& (id < old(self).jobs@.len() && !(old(self).jobs@[id as int].state
                        is Deleted) ==> r.reply == Some(
                        Response::Okay { id: None, job: None },
                    ) && final(self).jobs@[id as int].state is Deleted)
                    &&& (!(id < old(self).jobs@.len() && !(old(self).jobs@[id as int].state
                        is Deleted)) ==> r.reply == Some(Response::NoJob) && *final(self) == *old(self))
                },
                JobCommand::Abort { id, client } => {
                    &&& r.suspended is None
                    &&& final(self).jobs@.len() == old(self).jobs@.len()
                    &&& (id < old(self).jobs@.len() && old(self).jobs@[id as int].state
                        == JobState::Given(client) ==> r.reply == Some(
                        Response::Okay { id: None, job: None },
                    ) && Self::handoff_complete(
                        *final(self),
                        old(self).jobs@[id as int].queue@,
                        r.handoffs@,
                    ) && Self::waiters_kept_unless_handed(
                        old(self).waiters@,
                        final(self).waiters@,
                        r.handoffs@,
                    ) && Self::handoffs_ok(
                        old(self).jobs@.update(
                            id as int,
                            (Job {
                                priority: old(self).jobs@[id as int].priority,
                                queue: old(self).jobs@[id as int].queue,
                                state: JobState::Ready,
                                value: old(self).jobs@[id as int].value,
                            }),
                        ),
                        old(self).waiters@,
                        final(self).jobs@,
                        r.handoffs@,
                    ))
                    &&& (id < old(self).jobs@.len() && old(self).jobs@[id as int].state is Given
                        && old(self).jobs@[id as int].state != JobState::Given(client) ==> (
                    r.reply matches Some(Response::Error { error }) && error@
                        == "Has not been given job"@) && *final(self) == *old(self))
                    &&& ((id >= old(self).jobs@.len() || !(old(self).jobs@[id as int].state
                        is Given)) ==> r.reply == Some(Response::NoJob) && *final(self) == *old(self))
                },
                JobCommand::Disconnect { client } => {
                    &&& r.reply is None
                    &&& r.suspended is None
                    &&& final(self).jobs@.len() == old(self).jobs@.len()
                    &&& (forall|id2: int|
                        0 <= id2 < final(self).jobs@.len() ==> (#[trigger] final(self).jobs@[id2].state) != JobState::Given(client))
                    &&& (forall|j: int|
                        0 <= j < final(self).waiters@.len() ==> (#[trigger] final(self).waiters@[j]).client != client)
                    &&& (forall|h: int|
                        0 <= h < r.handoffs@.len() ==> Self::disc_handoff_ok(
                            *final(self),
                            old(self).waiters@,
                            client,
                            #[trigger] r.handoffs@[h],
                        ))
                    &&& (forall|id2: int|
                        0 <= id2 < old(self).jobs@.len() && (#[trigger] old(self).jobs@[id2].state)
                            == JobState::Given(client) ==> final(self).jobs@[id2].priority == old(self).jobs@[id2].priority
                            && final(self).jobs@[id2].queue == old(self).jobs@[id2].queue
                            && final(self).jobs@[id2].value == old(self).jobs@[id2].value && (final(self).jobs@[id2].state
                            is Ready || Self::touches(r.handoffs@, id2)))
                    &&& (forall|id2: int|
                        0 <= id2 < old(self).jobs@.len() && (#[trigger] old(self).jobs@[id2].state)
                            != JobState::Given(client) && !Self::touches(r.handoffs@, id2)
                            ==> final(self).jobs@[id2] == old(self).jobs@[id2])
                    &&& (forall|w: int|
                        0 <= w < old(self).waiters@.len() && (#[trigger] old(self).waiters@[w]).client
                            != client && !Self::handed(r.handoffs@, old(self).waiters@[w].waiter_id)
                            ==> final(self).waiters@.contains(old(self).waiters@[w]))
                },
            },
    {
        match cmd {
            JobCommand::Put { queue, job, pri } => {
                let jobv = Job::new(queue.clone(), job, pri);
                let (id, hs) = self.add_job(&queue, jobv);
                Effect {
                    reply: Some(Response::Okay { id: Some(id), job: None }),
                    suspended: None,
                    handoffs: hs,
                }
            },
            JobCommand::Get { queues, wait, client } => {
                match self.get_from_queues(&queues, wait, client) {
                    GetOutcome::Got { id, payload } => Effect {
                        reply: Some(Response::Okay { id: Some(id), job: Some(payload) }),
                        suspended: None,
                        handoffs: Vec::new(),
                    },
                    GetOutcome::Registered { waiter_id } => Effect {
                        reply: None,
                        suspended: Some(waiter_id),
                        handoffs: Vec::new(),
                    },
                    GetOutcome::NoJob => Effect {
                        reply: Some(Response::NoJob),
                        suspended: None,
                        handoffs: Vec::new(),
                    },
                }
            },
            JobCommand::Delete { id } => {
                let existed = self.delete_job(id);
                let reply = if existed {
                    Some(Response::Okay { id: None, job: None })
                } else {
                    Some(Response::NoJob)
                };
                Effect { reply, suspended: None, handoffs: Vec::new() }
            },
            JobCommand::Abort { id, client } => {
                match self.abort_job(id, client) {
                    AbortOutcome::Aborted(hs) => Effect {
                        reply: Some(Response::Okay { id: None, job: None }),
                        suspended: None,
                        handoffs: hs,
                    },
                    AbortOutcome::WrongClient => Effect {
                        reply: Some(
                            Response::Error { error: String::from_str("Has not been given job") },
                        ),
                        suspended: None,
                        handoffs: Vec::new(),
                    },
                    AbortOutcome::NoSuchJob => Effect {
                        reply: Some(Response::NoJob),
                        suspended: None,
                        handoffs: Vec::new(),
                    },
                }
            },
            JobCommand::Disconnect { client } => {
                let hs = self.disconnect(client);
                Effect { reply: None, suspended: None, handoffs: hs }
            },
        }
    }
}

/// Every entry of every queue heap names a job of the table; on a queue
/// freed of stale entries, that job is moreover `Ready`.
pub proof fn lemma_heap_entry_valid(m: &JobManager, qi: int, k: int)
    requires
        m.wf(),
        0 <= qi < m.queues@.len(),
        0 <= k < m.queues@[qi].jobs.len(),
    ensures
        m.queues@[qi].jobs[k].id < m.jobs@.len(),
        JobManager::queue_clean(m.jobs@, m.queues@[qi]) ==> m.jobs@[m.queues@[qi].jobs[k].id as int].state
            is Ready,
{
    assert(JobManager::entry_ok(m.jobs@, m.queues@, qi, k));
}

/// A job id stands in at most one client's lease: two lease slots holding
/// the same id belong to one lease, and to one slot of it.
pub proof fn lemma_lease_exclusive(m: &JobManager, li: int, ki: int, lj: int, kj: int)
    requires
        m.wf(),
        0 <= li < m.leases@.len(),
        0 <= ki < m.leases@[li].ids.len(),
        0 <= lj < m.leases@.len(),
        0 <= kj < m.leases@[lj].ids.len(),
        m.leases@[li].ids[ki] == m.leases@[lj].ids[kj],
    ensures
        li == lj,
        ki == kj,
        m.leases@[li].client == m.leases@[lj].client,
{
    assert(JobManager::lease_slot_ok(m.jobs@, m.leases@, li, ki));
    assert(JobManager::lease_slot_ok(m.jobs@, m.leases@, lj, kj));
    let id = m.leases@[li].ids[ki];
    assert(m.jobs@[id as int].state == JobState::Given(m.leases@[li].client));
    assert(m.jobs@[id as int].state == JobState::Given(m.leases@[lj].client));
    if li != lj {
        if li < lj {
            assert(m.leases@[li].client != m.leases@[lj].client);
        } else {
            assert(m.leases@[lj].client != m.leases@[li].client);
        }
    }
    if ki != kj {
        if ki < kj {
            assert(m.leases@[li].ids[ki] != m.leases@[li].ids[kj]);
        } else {
            assert(m.leases@[li].ids[kj] != m.leases@[li].ids[ki]);
        }
    }
}


/// The scheduler command for a parsed request from `client`: a `get`
/// without a `wait` field does not wait.
pub fn command_for(request: Request, client: u64) -> (cmd: JobCommand)
    ensures
        match request {
            Request::Put { queue, job, pri } => cmd == (JobCommand::Put { queue, job, pri }),
            Request::Get { queues, wait } => cmd == (JobCommand::Get {
                queues,
                wait: wait == Some(true),
                client,
            }),
            Request::Delete { id } => cmd == (JobCommand::Delete { id }),
            Request::Abort { id } => cmd == (JobCommand::Abort { id, client }),
        },
{
    match request {
        Request::Put { queue, job, pri } => JobCommand::Put { queue, job, pri },
        Request::Get { queues, wait } => {
            let w = match wait {
                Some(true) => true,
                _ => false,
            };
            JobCommand::Get { queues, wait: w, client }
        },
        Request::Delete { id } => JobCommand::Delete { id },
        Request::Abort { id } => JobCommand::Abort { id, client },
    }
}

} // verus!
