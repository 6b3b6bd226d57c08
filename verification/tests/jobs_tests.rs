use protohack::jobs::{command_for, AbortOutcome, GetOutcome, JobCommand, JobManager, JobState};
use protohack::jobs_proto::{Request, Response};

fn queues(names: &[&str]) -> Vec<String> {
    names.iter().map(|s| s.to_string()).collect()
}

#[test]
fn put_then_get_returns_highest_priority() {
    let mut m = JobManager::new();
    let (id0, h0) = m.add_job(
        &"q".to_string(),
        protohack::jobs::Job::new("q".to_string(), "{\"a\":1}".to_string(), 5),
    );
    assert_eq!(id0, 0);
    assert!(h0.is_empty());
    let (id1, _) = m.add_job(
        &"q".to_string(),
        protohack::jobs::Job::new("q".to_string(), "{\"b\":2}".to_string(), 9),
    );
    assert_eq!(id1, 1);

    match m.get_from_queues(&queues(&["q"]), false, 7) {
        GetOutcome::Got { id, payload } => {
            assert_eq!(id, 1);
            assert_eq!(payload.priority(), 9);
            assert_eq!(payload.queue(), "q");
            assert_eq!(payload.job(), "{\"b\":2}");
        }
        _ => panic!("expected a job"),
    }
    assert!(matches!(m.jobs[1].state, JobState::Given(7)));
}

#[test]
fn get_on_empty_queue_reports_no_job() {
    let mut m = JobManager::new();
    match m.get_from_queues(&queues(&["nothing"]), false, 1) {
        GetOutcome::NoJob => {}
        _ => panic!("expected no-job"),
    }
}

#[test]
fn waiting_get_is_satisfied_by_put() {
    // Client A waits on "q"; a later put hands the job to A directly.
    let mut m = JobManager::new();
    let wid = match m.get_from_queues(&queues(&["q"]), true, 100) {
        GetOutcome::Registered { waiter_id } => waiter_id,
        _ => panic!("expected a registration"),
    };
    let (id, handoffs) = m.add_job(
        &"q".to_string(),
        protohack::jobs::Job::new("q".to_string(), "{}".to_string(), 5),
    );
    assert_eq!(handoffs.len(), 1);
    assert_eq!(handoffs[0].waiter_id, wid);
    assert_eq!(handoffs[0].client, 100);
    assert_eq!(handoffs[0].id, id);
    assert!(matches!(m.jobs[id].state, JobState::Given(100)));
}

#[test]
fn disconnect_requeues_and_next_get_sees_same_id() {
    // A waits, B puts, A gets the job and disconnects without abort or
    // delete; a third client's get returns the same id.
    let mut m = JobManager::new();
    match m.get_from_queues(&queues(&["q"]), true, 100) {
        GetOutcome::Registered { .. } => {}
        _ => panic!("expected a registration"),
    }
    let (id, handoffs) = m.add_job(
        &"q".to_string(),
        protohack::jobs::Job::new("q".to_string(), "{\"n\":1}".to_string(), 5),
    );
    assert_eq!(handoffs.len(), 1);
    assert!(matches!(m.jobs[id].state, JobState::Given(100)));

    let handoffs = m.disconnect(100);
    assert!(handoffs.is_empty());
    assert!(matches!(m.jobs[id].state, JobState::Ready));

    match m.get_from_queues(&queues(&["q"]), false, 300) {
        GetOutcome::Got { id: got, .. } => assert_eq!(got, id),
        _ => panic!("expected the requeued job"),
    }
}

#[test]
fn delete_makes_job_invisible() {
    let mut m = JobManager::new();
    let (id, _) = m.add_job(
        &"q".to_string(),
        protohack::jobs::Job::new("q".to_string(), "{}".to_string(), 3),
    );
    assert!(m.delete_job(id));
    assert!(!m.delete_job(id), "second delete reports no job");
    match m.get_from_queues(&queues(&["q"]), false, 1) {
        GetOutcome::NoJob => {}
        _ => panic!("deleted job must not be handed out"),
    }
}

#[test]
fn abort_rules() {
    let mut m = JobManager::new();
    let (id, _) = m.add_job(
        &"q".to_string(),
        protohack::jobs::Job::new("q".to_string(), "{}".to_string(), 3),
    );
    match m.abort_job(id, 5) {
        AbortOutcome::NoSuchJob => {}
        _ => panic!("aborting a job that was never given reports no-job"),
    }
    match m.get_from_queues(&queues(&["q"]), false, 5) {
        GetOutcome::Got { id: got, .. } => assert_eq!(got, id),
        _ => panic!("expected the job"),
    }
    match m.abort_job(id, 6) {
        AbortOutcome::WrongClient => {}
        _ => panic!("only the lessee may abort"),
    }
    match m.abort_job(id, 5) {
        AbortOutcome::Aborted(hs) => assert!(hs.is_empty()),
        _ => panic!("the lessee's abort succeeds"),
    }
    assert!(matches!(m.jobs[id].state, JobState::Ready));
    match m.abort_job(999, 5) {
        AbortOutcome::NoSuchJob => {}
        _ => panic!("unknown id reports no-job"),
    }
}

#[test]
fn get_scans_multiple_queues() {
    let mut m = JobManager::new();
    m.add_job(
        &"q1".to_string(),
        protohack::jobs::Job::new("q1".to_string(), "{\"low\":0}".to_string(), 1),
    );
    let (hi, _) = m.add_job(
        &"q2".to_string(),
        protohack::jobs::Job::new("q2".to_string(), "{\"hi\":0}".to_string(), 8),
    );
    match m.get_from_queues(&queues(&["q1", "q2"]), false, 1) {
        GetOutcome::Got { id, payload } => {
            assert_eq!(id, hi);
            assert_eq!(payload.queue(), "q2");
        }
        _ => panic!("expected the higher-priority job"),
    }
}

#[test]
fn apply_maps_commands_to_replies() {
    let mut m = JobManager::new();
    let eff = m.apply(JobCommand::Put {
        queue: "q".to_string(),
        job: "{\"x\":9}".to_string(),
        pri: 4,
    });
    match eff.reply {
        Some(Response::Okay { id: Some(0), job: None }) => {}
        other => panic!("unexpected put reply: {:?}", other),
    }
    let eff = m.apply(JobCommand::Get {
        queues: queues(&["q"]),
        wait: false,
        client: 11,
    });
    match eff.reply {
        Some(Response::Okay { id: Some(0), job: Some(p) }) => {
            assert_eq!(p.priority(), 4);
        }
        other => panic!("unexpected get reply: {:?}", other),
    }
    let eff = m.apply(JobCommand::Abort { id: 0, client: 12 });
    match eff.reply {
        Some(Response::Error { error }) => assert_eq!(error, "Has not been given job"),
        other => panic!("unexpected abort reply: {:?}", other),
    }
    let eff = m.apply(JobCommand::Delete { id: 0 });
    match eff.reply {
        Some(Response::Okay { id: None, job: None }) => {}
        other => panic!("unexpected delete reply: {:?}", other),
    }
    let eff = m.apply(JobCommand::Delete { id: 0 });
    match eff.reply {
        Some(Response::NoJob) => {}
        other => panic!("unexpected second delete reply: {:?}", other),
    }
    let eff = m.apply(JobCommand::Disconnect { client: 11 });
    assert!(eff.reply.is_none());
}

#[test]
fn command_for_defaults_wait_to_false() {
    match command_for(Request::Get { queues: queues(&["q"]), wait: None }, 3) {
        JobCommand::Get { wait, client, .. } => {
            assert!(!wait);
            assert_eq!(client, 3);
        }
        _ => panic!("wrong command"),
    }
    match command_for(Request::Put { queue: "q".into(), job: "1".into(), pri: 2 }, 3) {
        JobCommand::Put { queue, job, pri } => {
            assert_eq!(queue, "q");
            assert_eq!(job, "1");
            assert_eq!(pri, 2);
        }
        _ => panic!("wrong command"),
    }
}
