use protohack::road_camera::Camera;
use protohack::road_codec::{ReqValue, RespValue};
use protohack::road_conn::{handle_request, ConnState};
use protohack::road_dispatch::DispatcherRegistry;
use protohack::road_plate::PlateStorage;

#[test]
fn speeding_single_pair_emits_one_ticket() {
    // Road 123, limit 60, cameras at miles 8 and 9; plate seen at t=0 and
    // t=45: average 80 mph, reported as 8000 hundredths.
    let mut storage = PlateStorage::new();
    let cam8 = Camera::new(123, 8, 60);
    let cam9 = Camera::new(123, 9, 60);
    let t1 = storage.update_plate("UN1X", 0, &cam8);
    assert!(t1.is_empty());
    let t2 = storage.update_plate("UN1X", 45, &cam9);
    assert_eq!(t2.len(), 1);
    let t = &t2[0];
    assert_eq!(t.plate, "UN1X");
    assert_eq!(t.road, 123);
    assert_eq!(t.mile1, 8);
    assert_eq!(t.timestamp1, 0);
    assert_eq!(t.mile2, 9);
    assert_eq!(t.timestamp2, 45);
    assert_eq!(t.speed, 8000);
}

#[test]
fn at_the_limit_is_not_speeding() {
    // One mile in one minute is exactly 60 mph: not strictly above.
    let mut storage = PlateStorage::new();
    let cam8 = Camera::new(5, 8, 60);
    let cam9 = Camera::new(5, 9, 60);
    storage.update_plate("AAA", 0, &cam8);
    let t = storage.update_plate("AAA", 60, &cam9);
    assert!(t.is_empty());
}

#[test]
fn day_dedup_one_ticket_per_day() {
    // Two independent speeding intervals within one calendar day: only
    // the first yields a ticket.
    let mut storage = PlateStorage::new();
    let cam1 = Camera::new(9, 10, 60);
    let cam2 = Camera::new(9, 11, 60);
    let cam3 = Camera::new(9, 20, 60);
    let cam4 = Camera::new(9, 21, 60);
    storage.update_plate("FAST", 100, &cam1);
    let first = storage.update_plate("FAST", 130, &cam2);
    assert_eq!(first.len(), 1);
    storage.update_plate("FAST", 5000, &cam3);
    let second = storage.update_plate("FAST", 5030, &cam4);
    assert!(second.is_empty(), "second interval on the same day must not be ticketed");
}

#[test]
fn out_of_order_sighting_checks_both_neighbors() {
    // Sightings at t=0 (mile 8) and t=90 (mile 10); a new sighting at
    // t=45 (mile 9) forms two speeding pairs, one ticket per day rule
    // leaves one.
    let mut storage = PlateStorage::new();
    let cam8 = Camera::new(7, 8, 60);
    let cam10 = Camera::new(7, 10, 60);
    let cam9 = Camera::new(7, 9, 60);
    storage.update_plate("MIX", 0, &cam8);
    let early = storage.update_plate("MIX", 90, &cam10);
    assert_eq!(early.len(), 1);
    let later = storage.update_plate("MIX", 45, &cam9);
    assert!(later.is_empty(), "same day is already ticketed");
}

#[test]
fn pending_ticket_delivered_on_dispatcher_arrival() {
    // No dispatcher when the ticket is produced: it is buffered; the
    // first dispatcher for the road receives it on registration.
    let mut cam_a = ConnState::new();
    let mut cam_b = ConnState::new();
    let mut storage = PlateStorage::new();
    let mut registry = DispatcherRegistry::new();

    let out = handle_request(
        &mut cam_a,
        &mut storage,
        &mut registry,
        1,
        ReqValue::IAmCamera(123, 8, 60),
    );
    assert!(!out.fatal);
    handle_request(
        &mut cam_b,
        &mut storage,
        &mut registry,
        3,
        ReqValue::IAmCamera(123, 9, 60),
    );
    handle_request(
        &mut cam_a,
        &mut storage,
        &mut registry,
        1,
        ReqValue::Plate("UN1X".to_string(), 0),
    );
    let out = handle_request(
        &mut cam_b,
        &mut storage,
        &mut registry,
        3,
        ReqValue::Plate("UN1X".to_string(), 45),
    );
    assert!(!out.fatal);
    assert!(out.deliveries.is_empty(), "no dispatcher yet: ticket buffered");

    let mut conn_disp = ConnState::new();
    let out = handle_request(
        &mut conn_disp,
        &mut storage,
        &mut registry,
        2,
        ReqValue::IAmDispatcher(vec![123]),
    );
    assert!(!out.fatal);
    assert_eq!(out.deliveries.len(), 1);
    let (writer, ticket) = &out.deliveries[0];
    assert_eq!(*writer, 2);
    assert_eq!(ticket.plate, "UN1X");
    assert_eq!(ticket.speed, 8000);
}

#[test]
fn connected_dispatcher_gets_ticket_at_once() {
    let mut conn_disp = ConnState::new();
    let mut cam_a = ConnState::new();
    let mut cam_b = ConnState::new();
    let mut storage = PlateStorage::new();
    let mut registry = DispatcherRegistry::new();

    handle_request(
        &mut conn_disp,
        &mut storage,
        &mut registry,
        9,
        ReqValue::IAmDispatcher(vec![123]),
    );
    handle_request(
        &mut cam_a,
        &mut storage,
        &mut registry,
        1,
        ReqValue::IAmCamera(123, 8, 60),
    );
    handle_request(
        &mut cam_b,
        &mut storage,
        &mut registry,
        3,
        ReqValue::IAmCamera(123, 9, 60),
    );
    handle_request(
        &mut cam_a,
        &mut storage,
        &mut registry,
        1,
        ReqValue::Plate("UN1X".to_string(), 0),
    );
    let out = handle_request(
        &mut cam_b,
        &mut storage,
        &mut registry,
        3,
        ReqValue::Plate("UN1X".to_string(), 45),
    );
    assert_eq!(out.deliveries.len(), 1);
    assert_eq!(out.deliveries[0].0, 9);
}

#[test]
fn role_machine_rejects_second_identify_and_foreign_plate() {
    let mut conn = ConnState::new();
    let mut storage = PlateStorage::new();
    let mut registry = DispatcherRegistry::new();

    let out = handle_request(
        &mut conn,
        &mut storage,
        &mut registry,
        1,
        ReqValue::Plate("X".to_string(), 0),
    );
    assert!(out.fatal, "a plate before identifying as a camera is fatal");
    match out.reply {
        Some(RespValue::Error(msg)) => assert_eq!(msg, "Client is not a Camera"),
        other => panic!("expected an error frame, got {:?}", other),
    }

    let mut conn = ConnState::new();
    handle_request(
        &mut conn,
        &mut storage,
        &mut registry,
        1,
        ReqValue::IAmCamera(1, 2, 3),
    );
    let out = handle_request(
        &mut conn,
        &mut storage,
        &mut registry,
        1,
        ReqValue::IAmCamera(1, 2, 3),
    );
    assert!(out.fatal);
    match out.reply {
        Some(RespValue::Error(msg)) => assert_eq!(msg, "Client already Defined"),
        other => panic!("expected an error frame, got {:?}", other),
    }
}

#[test]
fn second_heartbeat_request_is_fatal() {
    let mut conn = ConnState::new();
    let mut storage = PlateStorage::new();
    let mut registry = DispatcherRegistry::new();

    let out = handle_request(
        &mut conn,
        &mut storage,
        &mut registry,
        1,
        ReqValue::WantHeartbeat(10),
    );
    assert!(!out.fatal);
    assert_eq!(out.start_heartbeat, Some(10));
    let out = handle_request(
        &mut conn,
        &mut storage,
        &mut registry,
        1,
        ReqValue::WantHeartbeat(10),
    );
    assert!(out.fatal);
    match out.reply {
        Some(RespValue::Error(msg)) => assert_eq!(msg, "Heartbeat cannot be set again"),
        other => panic!("expected an error frame, got {:?}", other),
    }
}
