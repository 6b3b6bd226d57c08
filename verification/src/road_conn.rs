//! The speed daemon's per-connection role machine and the dispatch of one
//! decoded client message against the shared state.
//!
//! A connection starts unidentified; its first identify message makes it
//! a camera or a dispatcher; a second identify, a second heartbeat
//! request, or a plate from a non-camera is a fatal protocol error. The
//! connection task performs the sends and timers that the returned
//! outcome calls for.
use vstd::prelude::*;

use crate::road_camera::Camera;
use crate::road_codec::ReqValue;
use crate::road_codec::RespValue;
use crate::road_dispatch::road_queue;
use crate::road_dispatch::road_senders;
use crate::road_dispatch::DispatcherRegistry;
use crate::road_plate::logs_record;
use crate::road_plate::PlateStorage;
use crate::road_plate::Sighting;
use crate::ticket::Ticket;

verus! {

/// What a connection has identified itself as.
#[derive(Debug)]
pub enum IAm {
    Unidentified,
    Camera(Camera),
    Dispatcher(Vec<u16>),
}

/// A protocol error on a road connection; all are fatal.
#[derive(Debug, PartialEq)]
pub enum RoadError {
    AlreadyDefined,
    AlreadyWatching,
    HeartbeatAgain,
    NotCamera,
}

impl RoadError {
    /// The error text sent to the client before the connection closes.
    pub fn message(&self) -> (s: String)
        ensures
            match self {
                RoadError::AlreadyDefined => s@ == "Client already Defined"@,
                RoadError::AlreadyWatching => s@ == "Road is already being watched"@,
                RoadError::HeartbeatAgain => s@ == "Heartbeat cannot be set again"@,
                RoadError::NotCamera => s@ == "Client is not a Camera"@,
            },
    {
        match self {
            RoadError::AlreadyDefined => String::from_str("Client already Defined"),
            RoadError::AlreadyWatching => String::from_str("Road is already being watched"),
            RoadError::HeartbeatAgain => String::from_str("Heartbeat cannot be set again"),
            RoadError::NotCamera => String::from_str("Client is not a Camera"),
        }
    }
}

/// Declares the connection a camera; only an unidentified connection may
/// identify.
pub fn set_camera(i_am: &mut IAm, road: u16, location: u16, limit: u16) -> (r: Result<
    (),
    RoadError,
>)
    ensures
        *old(i_am) is Unidentified ==> r is Ok && *final(i_am) == IAm::Camera(
            Camera { road, location, limit },
        ),
        !(*old(i_am) is Unidentified) ==> r == Result::<(), RoadError>::Err(
            RoadError::AlreadyDefined,
        ) && *final(i_am) == *old(i_am),
{
    match i_am {
        IAm::Unidentified => {
            *i_am = IAm::Camera(Camera::new(road, location, limit));
            Ok(())
        },
        _ => Err(RoadError::AlreadyDefined),
    }
}

/// Declares the connection a dispatcher for `roads`; only an
/// unidentified connection may identify.
pub fn set_dispatcher(i_am: &mut IAm, roads: Vec<u16>) -> (r: Result<(), RoadError>)
    ensures
        *old(i_am) is Unidentified ==> r is Ok && *final(i_am) == IAm::Dispatcher(roads),
        !(*old(i_am) is Unidentified) ==> r == Result::<(), RoadError>::Err(
            RoadError::AlreadyWatching,
        ) && *final(i_am) == *old(i_am),
{
    match i_am {
        IAm::Unidentified => {
            *i_am = IAm::Dispatcher(roads);
            Ok(())
        },
        _ => Err(RoadError::AlreadyWatching),
    }
}

/// Records a heartbeat request; a second request is an error. The
/// connection task starts the timer for a non-zero interval.
pub fn set_heartbeat(heartbeat: &mut Option<u32>, interval: u32) -> (r: Result<(), RoadError>)
    ensures
        *old(heartbeat) is None ==> r is Ok && *final(heartbeat) == Some(interval),
        *old(heartbeat) is Some ==> r == Result::<(), RoadError>::Err(RoadError::HeartbeatAgain)
            && *final(heartbeat) == *old(heartbeat),
{
    match heartbeat {
        None => {
            *heartbeat = Some(interval);
            Ok(())
        },
        Some(_) => Err(RoadError::HeartbeatAgain),
    }
}

/// The connection-local state of one road client.
pub struct ConnState {
    pub i_am: IAm,
    pub heartbeat: Option<u32>,
}

impl ConnState {
    /// A fresh, unidentified connection with no heartbeat.
    pub fn new() -> (c: Self)
        ensures
            c.i_am is Unidentified,
            c.heartbeat is None,
    {
        ConnState { i_am: IAm::Unidentified, heartbeat: None }
    }
}

/// The tickets that a plate report produced: what the named plate's
/// emitted record gained (the whole record of a plate seen for the first
/// time).
pub open spec fn new_tickets(old_st: PlateStorage, new_st: PlateStorage, plate: Seq<char>) -> Seq<
    Ticket,
> {
    if exists|pi: int|
        0 <= pi < old_st.plates@.len() && (#[trigger] old_st.plates@[pi]).name@ == plate {
        let pi = choose|pi: int|
            0 <= pi < old_st.plates@.len() && (#[trigger] old_st.plates@[pi]).name@ == plate;
        new_st.plates@[pi].emitted@.skip(old_st.plates@[pi].emitted@.len() as int)
    } else {
        new_st.plates@.last().emitted@
    }
}

/// How a plate report's tickets were routed: with a writer registered for
/// the camera's road, every produced ticket is delivered to the first
/// writer and the pending queue is untouched; with none, nothing is
/// delivered and every produced ticket joins the road's pending queue in
/// order. Writers and other roads are untouched either way.
pub open spec fn plate_routing(
    old_st: PlateStorage,
    new_st: PlateStorage,
    old_reg: DispatcherRegistry,
    new_reg: DispatcherRegistry,
    deliveries: Seq<(u64, Ticket)>,
    plate: Seq<char>,
    cam: Camera,
) -> bool {
    let tickets = new_tickets(old_st, new_st, plate);
    &&& road_senders(new_reg, cam.road) == road_senders(old_reg, cam.road)
    &&& (road_senders(old_reg, cam.road).len() > 0 ==> deliveries =~= Seq::new(
        tickets.len(),
        |i: int| (road_senders(old_reg, cam.road)[0], tickets[i]),
    ) && road_queue(new_reg, cam.road) == road_queue(old_reg, cam.road))
    &&& (road_senders(old_reg, cam.road).len() == 0 ==> deliveries.len() == 0 && road_queue(
        new_reg,
        cam.road,
    ) =~= road_queue(old_reg, cam.road) + tickets)
    &&& forall|ri: int|
        0 <= ri < old_reg.roads@.len() && (#[trigger] old_reg.roads@[ri]).road != cam.road
            ==> new_reg.roads@[ri] == old_reg.roads@[ri]
}

/// Every ticket of the queue has been delivered to `conn_id`.
pub open spec fn queue_delivered(q: Seq<Ticket>, conn_id: u64, del: Seq<(u64, Ticket)>) -> bool {
    forall|pos: int| 0 <= pos < q.len() ==> del.contains((conn_id, #[trigger] q[pos]))
}

/// The ticket stood on the pending queue of one of the declared roads.
pub open spec fn delivery_from(t: Ticket, reg: DispatcherRegistry, roads: Seq<u16>) -> bool {
    exists|k: int| 0 <= k < roads.len() && road_queue(reg, #[trigger] roads[k]).contains(t)
}

/// What the connection task owes after one message: an error frame to
/// send before closing (fatal), ticket deliveries `(writer, ticket)` to
/// connected dispatchers, and possibly a heartbeat timer to start.
pub struct ReqOutcome {
    pub reply: Option<RespValue>,
    pub fatal: bool,
    pub deliveries: Vec<(u64, Ticket)>,
    pub start_heartbeat: Option<u32>,
}

/// Applies one decoded client message to the connection and the shared
/// state. This is the whole decision part of the road reader task.
#[verifier::rlimit(100)]
pub fn handle_request(
    conn: &mut ConnState,
    storage: &mut PlateStorage,
    registry: &mut DispatcherRegistry,
    conn_id: u64,
    req: ReqValue,
) -> (out: ReqOutcome)
    requires
        old(storage).wf(),
        old(registry).wf(),
    ensures
        final(storage).wf(),
        final(registry).wf(),
        out.fatal <==> out.reply is Some,
        match req {
            ReqValue::WantHeartbeat(interval) => {
                &&& *final(storage) == *old(storage)
                &&& *final(registry) == *old(registry)
                &&& final(conn).i_am == old(conn).i_am
                &&& out.deliveries@.len() == 0
                &&& (old(conn).heartbeat is None ==> !out.fatal && final(conn).heartbeat == Some(
                    interval,
                ) && out.start_heartbeat == (if interval == 0 {
                    None
                } else {
                    Some(interval)
                }))
                &&& (old(conn).heartbeat is Some ==> out.fatal && *final(conn) == *old(conn)
                    && out.start_heartbeat is None)
            },
            ReqValue::IAmCamera(road, location, limit) => {
                &&& *final(storage) == *old(storage)
                &&& *final(registry) == *old(registry)
                &&& final(conn).heartbeat == old(conn).heartbeat
                &&& out.deliveries@.len() == 0
                &&& out.start_heartbeat is None
                &&& (old(conn).i_am is Unidentified ==> !out.fatal && final(conn).i_am
                    == IAm::Camera(Camera { road, location, limit }))
                &&& (!(old(conn).i_am is Unidentified) ==> out.fatal && *final(conn) == *old(
                    conn,
                ))
            },
            ReqValue::IAmDispatcher(roads) => {
                &&& *final(storage) == *old(storage)
                &&& final(conn).heartbeat == old(conn).heartbeat
                &&& out.start_heartbeat is None
                &&& (old(conn).i_am is Unidentified ==> !out.fatal && final(conn).i_am
                    is Dispatcher)
                &&& (!(old(conn).i_am is Unidentified) ==> out.fatal && *final(conn) == *old(conn)
                    && *final(registry) == *old(registry) && out.deliveries@.len() == 0)
                &&& forall|d: int|
                    0 <= d < out.deliveries@.len() ==> (#[trigger] out.deliveries@[d]).0
                        == conn_id
                &&& (old(conn).i_am is Unidentified ==> (forall|k: int|
                    0 <= k < roads@.len() ==> road_senders(
                        *final(registry),
                        #[trigger] roads@[k],
                    ).contains(conn_id) && road_queue(*final(registry), roads@[k]).len() == 0)
                    && (forall|k: int|
                    0 <= k < roads@.len() ==> queue_delivered(
                        road_queue(*old(registry), #[trigger] roads@[k]),
                        conn_id,
                        out.deliveries@,
                    )) && (forall|d: int|
                    0 <= d < out.deliveries@.len() ==> delivery_from(
                        (#[trigger] out.deliveries@[d]).1,
                        *old(registry),
                        roads@,
                    )))
            },
            ReqValue::Plate(plate, ts) => {
                &&& final(conn).i_am == old(conn).i_am
                &&& final(conn).heartbeat == old(conn).heartbeat
                &&& out.start_heartbeat is None
                &&& (!(old(conn).i_am is Camera) ==> out.fatal && *final(storage) == *old(storage)
                    && *final(registry) == *old(registry) && out.deliveries@.len() == 0)
                &&& (old(conn).i_am is Camera ==> !out.fatal)
                &&& (old(conn).i_am matches IAm::Camera(cam) ==> forall|d: int|
                    0 <= d < out.deliveries@.len() ==> (#[trigger] out.deliveries@[d]).1.plate@
                        == plate@ && out.deliveries@[d].1.road == cam.road && (exists|pi: int|
                        0 <= pi < final(storage).plates@.len()
                            && final(storage).plates@[pi].name@ == plate@
                            && crate::road_plate::ticket_witnessed(
                            final(storage).plates@[pi].sightings@,
                            out.deliveries@[d].1,
                        )))
                &&& (old(conn).i_am matches IAm::Camera(cam) ==> plate_routing(
                    *old(storage),
                    *final(storage),
                    *old(registry),
                    *final(registry),
                    out.deliveries@,
                    plate@,
                    cam,
                ) && (forall|pi: int|
                    0 <= pi < old(storage).plates@.len() && (
                    #[trigger] old(storage).plates@[pi]).name@ == plate@ ==> logs_record(
                        old(storage).plates@[pi].sightings@,
                        final(storage).plates@[pi].sightings@,
                        ts,
                        cam,
                    )) && ((forall|pi: int|
                    0 <= pi < old(storage).plates@.len() ==> (
                    #[trigger] old(storage).plates@[pi]).name@ != plate@) ==> final(storage).plates@.len() == old(storage).plates@.len() + 1 && final(storage).plates@.last().name@ == plate@ && final(storage).plates@.last().sightings@.len()
                    == 1 && final(storage).plates@.last().sightings@[0].road == cam.road && final(storage).plates@.last().sightings@[0].entries@ =~= seq![
                    (Sighting { timestamp: ts, mile: cam.location, limit: cam.limit }),
                ]))
            },
            ReqValue::ReqError(_) => {
                &&& *final(conn) == *old(conn)
                &&& *final(storage) == *old(storage)
                &&& *final(registry) == *old(registry)
                &&& !out.fatal
                &&& out.deliveries@.len() == 0
                &&& out.start_heartbeat is None
            },
        },
{
    match req {
        ReqValue::WantHeartbeat(interval) => {
            match set_heartbeat(&mut conn.heartbeat, interval) {
                Ok(()) => ReqOutcome {
                    reply: None,
                    fatal: false,
                    deliveries: Vec::new(),
                    start_heartbeat: if interval == 0 {
                        None
                    } else {
                        Some(interval)
                    },
                },
                Err(e) => ReqOutcome {
                    reply: Some(RespValue::Error(e.message())),
                    fatal: true,
                    deliveries: Vec::new(),
                    start_heartbeat: None,
                },
            }
        },
        ReqValue::IAmCamera(road, location, limit) => {
            match set_camera(&mut conn.i_am, road, location, limit) {
                Ok(()) => ReqOutcome {
                    reply: None,
                    fatal: false,
                    deliveries: Vec::new(),
                    start_heartbeat: None,
                },
                Err(e) => ReqOutcome {
                    reply: Some(RespValue::Error(e.message())),
                    fatal: true,
                    deliveries: Vec::new(),
                    start_heartbeat: None,
                },
            }
        },
        ReqValue::IAmDispatcher(roads) => {
            let mut road_list: Vec<u16> = Vec::new();
            let mut i: usize = 0;
            while i < roads.len()
                invariant
                    i <= roads@.len(),
                    road_list@ =~= roads@.subrange(0, i as int),
                decreases roads@.len() - i,
            {
                let road = roads[i];
                road_list.push(road);
                proof {
                    assert(road_list@ =~= roads@.subrange(0, i + 1));
                }
                i += 1;
            }
            match set_dispatcher(&mut conn.i_am, roads) {
                Ok(()) => {
                    let ghost reg0 = *registry;
                    let ghost rl = road_list@;
                    let mut deliveries: Vec<(u64, Ticket)> = Vec::new();
                    let mut k: usize = 0;
                    while k < road_list.len()
                        invariant
                            k <= road_list@.len(),
                            road_list@ == rl,
                            registry.wf(),
                            reg0.wf(),
                            reg0.roads@.len() <= registry.roads@.len(),
                            forall|ri: int|
                                0 <= ri < reg0.roads@.len() ==> (#[trigger] registry.roads@[ri]).road
                                    == reg0.roads@[ri].road,
                            forall|ri: int|
                                0 <= ri < reg0.roads@.len() && (forall|k2: int|
                                    0 <= k2 < k ==> rl[k2] != (#[trigger] reg0.roads@[ri]).road)
                                    ==> registry.roads@[ri] == reg0.roads@[ri],
                            forall|ri: int|
                                reg0.roads@.len() <= ri < registry.roads@.len() ==> (
                                #[trigger] registry.roads@[ri]).dispatcher.queue@.len() == 0,
                            forall|k2: int|
                                0 <= k2 < k ==> road_senders(
                                    *registry,
                                    #[trigger] rl[k2],
                                ).contains(conn_id) && road_queue(*registry, rl[k2]).len() == 0,
                            forall|k2: int|
                                0 <= k2 < k ==> queue_delivered(
                                    road_queue(reg0, #[trigger] rl[k2]),
                                    conn_id,
                                    deliveries@,
                                ),
                            forall|d: int|
                                0 <= d < deliveries@.len() ==> (#[trigger] deliveries@[d]).0
                                    == conn_id && delivery_from(deliveries@[d].1, reg0, rl),
                        decreases road_list@.len() - k,
                    {
                        let road = road_list[k];
                        let ghost pre_reg = *registry;
                        let ghost pre_del = deliveries@;
                        let ri = registry.ensure_road(road);
                        let ghost mid_reg = *registry;
                        let drained = registry.roads[ri].dispatcher.add_sender(conn_id);
                        let ghost dr = drained@;
                        proof {
                            crate::road_dispatch::lemma_road_lookup(mid_reg, ri as int);
                            crate::road_dispatch::lemma_road_lookup(*registry, ri as int);
                            assert(registry.roads@[ri as int].road == road);
                            assert(registry.roads@[ri as int].dispatcher.senders@
                                == mid_reg.roads@[ri as int].dispatcher.senders@.push(conn_id));
                            assert(road_senders(*registry, road).contains(conn_id)) by {
                                let ss = registry.roads@[ri as int].dispatcher.senders@;
                                assert(ss[ss.len() - 1] == conn_id);
                            }
                            assert(road_queue(*registry, road).len() == 0);
                            assert(dr == mid_reg.roads@[ri as int].dispatcher.queue@);
                            if ri < reg0.roads@.len() {
                                assert(pre_reg.roads@[ri as int].road
                                    == reg0.roads@[ri as int].road);
                                assert(mid_reg.roads@[ri as int] == pre_reg.roads@[ri as int]);
                                assert(reg0.roads@[ri as int].road == road);
                                crate::road_dispatch::lemma_road_lookup(reg0, ri as int);
                                if forall|k2: int| 0 <= k2 < k ==> rl[k2] != road {
                                    assert(pre_reg.roads@[ri as int] == reg0.roads@[ri as int]);
                                    assert(dr =~= road_queue(reg0, road));
                                } else {
                                    let k2p = choose|k2: int| 0 <= k2 < k && rl[k2] == road;
                                    assert(road_queue(pre_reg, rl[k2p]).len() == 0);
                                    crate::road_dispatch::lemma_road_lookup(pre_reg, ri as int);
                                    assert(dr.len() == 0);
                                }
                            } else {
                                assert forall|rj: int|
                                    0 <= rj < reg0.roads@.len() implies (
                                #[trigger] reg0.roads@[rj]).road != road by {
                                    if reg0.roads@[rj].road == road {
                                        assert(pre_reg.roads@[rj].road == road);
                                        assert(mid_reg.roads@[rj] == pre_reg.roads@[rj]);
                                        assert(mid_reg.roads@[rj].road
                                            == mid_reg.roads@[ri as int].road);
                                        assert(rj != ri as int);
                                        assert(false);
                                    }
                                }
                                crate::road_dispatch::lemma_road_absent(reg0, road);
                                if mid_reg.roads@.len() > pre_reg.roads@.len() {
                                    assert(ri == pre_reg.roads@.len());
                                    assert(dr.len() == 0);
                                } else {
                                    assert(mid_reg.roads@[ri as int]
                                        == pre_reg.roads@[ri as int]);
                                    assert(pre_reg.roads@[ri as int].dispatcher.queue@.len()
                                        == 0);
                                    assert(dr.len() == 0);
                                }
                                assert(road_queue(reg0, road).len() == 0);
                            }
                            assert(dr =~= road_queue(reg0, road) || (dr.len() == 0 && ((exists|
                                k3: int,
                            |
                                0 <= k3 < k && rl[k3] == road) || road_queue(
                                reg0,
                                road,
                            ).len() == 0)));
                        }
                        let mut j: usize = 0;
                        while j < drained.len()
                            invariant
                                j <= drained@.len(),
                                drained@ == dr,
                                deliveries@ =~= pre_del + Seq::new(
                                    j as nat,
                                    |x: int| (conn_id, dr[x]),
                                ),
                            decreases drained@.len() - j,
                        {
                            let t = &drained[j];
                            let tc = Ticket {
                                plate: t.plate.clone(),
                                road: t.road,
                                mile1: t.mile1,
                                timestamp1: t.timestamp1,
                                mile2: t.mile2,
                                timestamp2: t.timestamp2,
                                speed: t.speed,
                            };
                            proof {
                                assert(tc == dr[j as int]);
                            }
                            deliveries.push((conn_id, tc));
                            j += 1;
                            proof {
                                assert(deliveries@ =~= pre_del + Seq::new(
                                    j as nat,
                                    |x: int| (conn_id, dr[x]),
                                ));
                            }
                        }
                        k += 1;
                        proof {
                            // registry shape invariants
                            assert forall|rj: int|
                                0 <= rj < reg0.roads@.len() implies (
                            #[trigger] registry.roads@[rj]).road == reg0.roads@[rj].road by {
                                if rj != ri as int {
                                    assert(mid_reg.roads@[rj] == pre_reg.roads@[rj]);
                                    assert(registry.roads@[rj] == mid_reg.roads@[rj]);
                                } else {
                                    assert(registry.roads@[rj].road == road);
                                    assert(pre_reg.roads@[rj].road == reg0.roads@[rj].road);
                                    assert(mid_reg.roads@[rj].road == pre_reg.roads@[rj].road);
                                    assert(mid_reg.roads@[rj].road == road);
                                }
                            }
                            assert forall|rj: int|
                                0 <= rj < reg0.roads@.len() && (forall|k2: int|
                                    0 <= k2 < k ==> rl[k2] != (
                                    #[trigger] reg0.roads@[rj]).road) implies registry.roads@[rj]
                                == reg0.roads@[rj] by {
                                assert(reg0.roads@[rj].road != road);
                                assert(rj != ri as int);
                                assert(pre_reg.roads@[rj] == reg0.roads@[rj]);
                                assert(mid_reg.roads@[rj] == pre_reg.roads@[rj]);
                                assert(registry.roads@[rj] == mid_reg.roads@[rj]);
                            }
                            assert forall|rj: int|
                                reg0.roads@.len() <= rj < registry.roads@.len() implies (
                            #[trigger] registry.roads@[rj]).dispatcher.queue@.len() == 0 by {
                                if rj == ri as int {
                                    assert(registry.roads@[rj].dispatcher.queue@.len() == 0);
                                } else if rj < mid_reg.roads@.len() {
                                    assert(registry.roads@[rj] == mid_reg.roads@[rj]);
                                    if rj < pre_reg.roads@.len() {
                                        assert(mid_reg.roads@[rj] == pre_reg.roads@[rj]);
                                    }
                                }
                            }
                            // every processed road is registered with an empty queue
                            assert forall|k2: int|
                                0 <= k2 < k implies road_senders(
                                *registry,
                                #[trigger] rl[k2],
                            ).contains(conn_id) && road_queue(*registry, rl[k2]).len() == 0 by {
                                if rl[k2] == road {
                                    assert(road_senders(*registry, road).contains(conn_id));
                                    assert(road_queue(*registry, road).len() == 0);
                                } else {
                                    let r2 = rl[k2];
                                    assert(k2 < k - 1);
                                    let ss = road_senders(pre_reg, r2);
                                    let si = choose|si: int| 0 <= si < ss.len() && ss[si] == conn_id;
                                    if crate::road_dispatch::has_road(pre_reg, r2) {
                                        let rj = crate::road_dispatch::road_index(pre_reg, r2);
                                        crate::road_dispatch::lemma_road_lookup(pre_reg, rj);
                                        assert(rj != ri as int);
                                        assert(mid_reg.roads@[rj] == pre_reg.roads@[rj]);
                                        assert(registry.roads@[rj] == mid_reg.roads@[rj]);
                                        crate::road_dispatch::lemma_road_lookup(*registry, rj);
                                        assert(road_senders(*registry, r2)[si] == conn_id);
                                        assert(road_queue(*registry, r2).len() == 0);
                                    } else {
                                        assert(ss.len() == 0);
                                        assert(false);
                                    }
                                }
                            }
                            // delivered-exactly-the-pending accounting
                            assert forall|k2: int|
                                0 <= k2 < k implies queue_delivered(
                                road_queue(reg0, #[trigger] rl[k2]),
                                conn_id,
                                deliveries@,
                            ) by {
                                let q = road_queue(reg0, rl[k2]);
                                assert forall|pos: int|
                                    0 <= pos < q.len() implies deliveries@.contains(
                                    (conn_id, #[trigger] q[pos]),
                                ) by {
                                    if k2 < k - 1 {
                                        assert(queue_delivered(q, conn_id, pre_del));
                                        let d = choose|d: int|
                                            0 <= d < pre_del.len() && pre_del[d] == (
                                            conn_id,
                                            q[pos],
                                            );
                                        assert(deliveries@[d] == (conn_id, q[pos]));
                                    } else {
                                        if dr =~= road_queue(reg0, road) {
                                            assert(deliveries@[pre_del.len() + pos] == (
                                                conn_id,
                                                q[pos],
                                            ));
                                        } else if exists|k3: int|
                                            0 <= k3 < k - 1 && rl[k3] == road {
                                            let k3 = choose|k3: int|
                                                0 <= k3 < k - 1 && rl[k3] == road;
                                            assert(queue_delivered(
                                                road_queue(reg0, rl[k3]),
                                                conn_id,
                                                pre_del,
                                            ));
                                            let d = choose|d: int|
                                                0 <= d < pre_del.len() && pre_del[d] == (
                                                conn_id,
                                                q[pos],
                                                );
                                            assert(deliveries@[d] == (conn_id, q[pos]));
                                        }
                                    }
                                }
                            }
                            assert forall|d: int|
                                0 <= d < deliveries@.len() implies (
                            #[trigger] deliveries@[d]).0 == conn_id && delivery_from(
                                deliveries@[d].1,
                                reg0,
                                rl,
                            ) by {
                                if d < pre_del.len() {
                                    assert(deliveries@[d] == pre_del[d]);
                                    assert(delivery_from(pre_del[d].1, reg0, rl));
                                } else {
                                    assert(deliveries@[d] == (conn_id, dr[d - pre_del.len()]));
                                    assert(dr.len() > 0);
                                    assert(dr =~= road_queue(reg0, road));
                                    assert(road_queue(reg0, rl[k - 1]).contains(
                                        deliveries@[d].1,
                                    )) by {
                                        assert(road_queue(reg0, rl[k - 1])[d - pre_del.len()]
                                            == deliveries@[d].1);
                                    }
                                }
                            }
                        }
                    }
                    proof {
                        assert(rl =~= roads@.subrange(0, roads@.len() as int));
                        assert(rl =~= roads@);
                        assert(reg0 == *old(registry));
                    }
                    ReqOutcome {
                        reply: None,
                        fatal: false,
                        deliveries,
                        start_heartbeat: None,
                    }
                },
                Err(e) => ReqOutcome {
                    reply: Some(RespValue::Error(e.message())),
                    fatal: true,
                    deliveries: Vec::new(),
                    start_heartbeat: None,
                },
            }
        },
        ReqValue::Plate(plate, ts) => {
            let cam = match &conn.i_am {
                IAm::Camera(cam) => Some(*cam),
                _ => None,
            };
            match cam {
                Some(cam) => {
                    let tickets = storage.update_plate(plate.as_str(), ts, &cam);
                    let ghost t0 = tickets@;
                    proof {
                        if exists|pi: int|
                            0 <= pi < old(storage).plates@.len() && (
                            #[trigger] old(storage).plates@[pi]).name@ == plate@ {
                            let pi = choose|pi: int|
                                0 <= pi < old(storage).plates@.len() && (
                                #[trigger] old(storage).plates@[pi]).name@ == plate@;
                            assert(storage.plates@[pi].emitted@ == old(storage).plates@[pi].emitted@
                                + t0);
                            assert(storage.plates@[pi].emitted@.skip(
                                old(storage).plates@[pi].emitted@.len() as int,
                            ) =~= t0);
                            assert(new_tickets(*old(storage), *storage, plate@) =~= t0);
                        } else {
                            assert(storage.plates@.last().emitted@ == t0);
                            assert(new_tickets(*old(storage), *storage, plate@) =~= t0);
                        }
                    }
                    let ghost reg0 = *registry;
                    let mut deliveries: Vec<(u64, Ticket)> = Vec::new();
                    let mut i: usize = 0;
                    while i < tickets.len()
                        invariant
                            registry.wf(),
                            i <= tickets@.len(),
                            tickets@ == t0,
                            road_senders(*registry, cam.road) == road_senders(reg0, cam.road),
                            forall|ri: int|
                                0 <= ri < reg0.roads@.len() && (#[trigger] reg0.roads@[ri]).road
                                    != cam.road ==> registry.roads@[ri] == reg0.roads@[ri],
                            forall|ri: int|
                                0 <= ri < reg0.roads@.len() ==> (#[trigger] registry.roads@[ri]).road
                                    == reg0.roads@[ri].road,
                            reg0.roads@.len() <= registry.roads@.len() <= reg0.roads@.len() + 1,
                            registry.roads@.len() > reg0.roads@.len()
                                ==> registry.roads@.last().road == cam.road,
                            road_senders(reg0, cam.road).len() > 0 ==> deliveries@ =~= Seq::new(
                                i as nat,
                                |k: int| (road_senders(reg0, cam.road)[0], t0[k]),
                            ) && road_queue(*registry, cam.road) == road_queue(reg0, cam.road),
                            road_senders(reg0, cam.road).len() == 0 ==> deliveries@.len() == 0
                                && road_queue(*registry, cam.road) =~= road_queue(reg0, cam.road)
                                + t0.subrange(0, i as int),
                            forall|k: int|
                                0 <= k < t0.len() ==> (#[trigger] t0[k]).plate@ == plate@
                                    && t0[k].road == cam.road && (exists|pi: int|
                                    0 <= pi < storage.plates@.len() && storage.plates@[pi].name@
                                        == plate@ && crate::road_plate::ticket_witnessed(
                                        storage.plates@[pi].sightings@,
                                        t0[k],
                                    )),
                            forall|d: int|
                                0 <= d < deliveries@.len() ==> (#[trigger] deliveries@[d]).1.plate@
                                    == plate@ && deliveries@[d].1.road == cam.road && (exists|
                                    pi: int,
                                |
                                    0 <= pi < storage.plates@.len() && storage.plates@[pi].name@
                                        == plate@ && crate::road_plate::ticket_witnessed(
                                        storage.plates@[pi].sightings@,
                                        deliveries@[d].1,
                                    )),
                        decreases tickets@.len() - i,
                    {
                        let t = &tickets[i];
                        let tc = Ticket {
                            plate: t.plate.clone(),
                            road: t.road,
                            mile1: t.mile1,
                            timestamp1: t.timestamp1,
                            mile2: t.mile2,
                            timestamp2: t.timestamp2,
                            speed: t.speed,
                        };
                        proof {
                            assert(tc == t0[i as int]);
                        }
                        let ghost pre_reg = *registry;
                        let ghost pre_del = deliveries@;
                        let ri = registry.ensure_road(cam.road);
                        proof {
                            crate::road_dispatch::lemma_road_lookup(*registry, ri as int);
                            if registry.roads@.len() > pre_reg.roads@.len() {
                                assert forall|rj: int|
                                    0 <= rj < pre_reg.roads@.len() implies (
                                #[trigger] pre_reg.roads@[rj]).road != cam.road by {
                                    if pre_reg.roads@[rj].road == cam.road {
                                        assert(registry.roads@.len() == pre_reg.roads@.len());
                                        assert(false);
                                    }
                                }
                                crate::road_dispatch::lemma_road_absent(pre_reg, cam.road);
                                assert forall|rj: int|
                                    0 <= rj < reg0.roads@.len() implies (
                                #[trigger] reg0.roads@[rj]).road != cam.road by {
                                    assert(pre_reg.roads@[rj].road == reg0.roads@[rj].road);
                                }
                                crate::road_dispatch::lemma_road_absent(reg0, cam.road);
                                assert(registry.roads@[ri as int].dispatcher.queue@ =~= Seq::<
                                    Ticket,
                                >::empty());
                                assert(registry.roads@[ri as int].dispatcher.senders@ =~= Seq::<
                                    u64,
                                >::empty());
                            } else {
                                assert(ri < pre_reg.roads@.len());
                                assert(registry.roads@[ri as int] == pre_reg.roads@[ri as int]);
                                crate::road_dispatch::lemma_road_lookup(pre_reg, ri as int);
                            }
                        }
                        let ghost mid_reg = *registry;
                        match registry.roads[ri].dispatcher.add_ticket(tc) {
                            Some((sid, t2)) => {
                                deliveries.push((sid, t2));
                            },
                            None => {},
                        }
                        i += 1;
                        proof {
                            let rs0 = road_senders(reg0, cam.road);
                            crate::road_dispatch::lemma_road_lookup(mid_reg, ri as int);
                            assert(mid_reg.roads@[ri as int].dispatcher.senders@ == rs0);
                            crate::road_dispatch::lemma_road_lookup(*registry, ri as int);
                            assert forall|rj: int|
                                0 <= rj < reg0.roads@.len() implies (
                            #[trigger] registry.roads@[rj]).road == reg0.roads@[rj].road by {
                                if rj != ri as int {
                                    assert(registry.roads@[rj] == mid_reg.roads@[rj]);
                                } else {
                                    assert(registry.roads@[rj].road == cam.road);
                                    assert(mid_reg.roads@[rj].road == cam.road);
                                }
                            }
                            if rs0.len() > 0 {
                                assert(registry.roads@[ri as int].dispatcher
                                    == mid_reg.roads@[ri as int].dispatcher);
                                assert(registry.roads@[ri as int].dispatcher.senders@ == rs0);
                                assert(road_senders(*registry, cam.road) == rs0);
                                assert(road_queue(*registry, cam.road) == road_queue(
                                    mid_reg,
                                    cam.road,
                                ));
                                assert forall|rj: int|
                                    0 <= rj < reg0.roads@.len() && (
                                    #[trigger] reg0.roads@[rj]).road != cam.road implies registry.roads@[rj]
                                    == reg0.roads@[rj] by {
                                    assert(rj != ri as int);
                                    assert(registry.roads@[rj] == mid_reg.roads@[rj]);
                                }
                                assert(deliveries@ =~= pre_del.push((rs0[0], t0[i - 1])));
                                assert(deliveries@ =~= Seq::new(
                                    i as nat,
                                    |k: int| (rs0[0], t0[k]),
                                ));
                            } else {
                                assert(registry.roads@[ri as int].dispatcher.queue@
                                    == mid_reg.roads@[ri as int].dispatcher.queue@.push(
                                    t0[i - 1],
                                ));
                                assert(registry.roads@[ri as int].dispatcher.senders@ == rs0);
                                assert(road_senders(*registry, cam.road) == rs0);
                                assert forall|rj: int|
                                    0 <= rj < reg0.roads@.len() && (
                                    #[trigger] reg0.roads@[rj]).road != cam.road implies registry.roads@[rj]
                                    == reg0.roads@[rj] by {
                                    assert(rj != ri as int);
                                    assert(registry.roads@[rj] == mid_reg.roads@[rj]);
                                }
                                assert(road_queue(*registry, cam.road) =~= road_queue(
                                    reg0,
                                    cam.road,
                                ) + t0.subrange(0, i as int));
                            }
                        }
                    }
                    proof {
                        if road_senders(reg0, cam.road).len() == 0 {
                            assert(t0.subrange(0, t0.len() as int) =~= t0);
                        }
                        assert(reg0 == *old(registry));
                        assert(plate_routing(
                            *old(storage),
                            *storage,
                            *old(registry),
                            *registry,
                            deliveries@,
                            plate@,
                            cam,
                        ));
                    }
                    ReqOutcome {
                        reply: None,
                        fatal: false,
                        deliveries,
                        start_heartbeat: None,
                    }
                },
                None => {
                    let e = RoadError::NotCamera;
                    ReqOutcome {
                        reply: Some(RespValue::Error(e.message())),
                        fatal: true,
                        deliveries: Vec::new(),
                        start_heartbeat: None,
                    }
                },
            }
        },
        ReqValue::ReqError(_) => ReqOutcome {
            reply: None,
            fatal: false,
            deliveries: Vec::new(),
            start_heartbeat: None,
        },
    }
}

} // verus!
