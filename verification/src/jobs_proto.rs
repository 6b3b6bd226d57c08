//! Requests and responses of the job-center line protocol.
//!
//! One request per line, one response per line. The job payload is carried
//! opaquely as the text of its JSON value: the scheduler never reads it.
use vstd::prelude::*;

verus! {

/// A client request, already parsed from its JSON line.
#[derive(Debug)]
pub enum Request {
    Put { queue: String, job: String, pri: usize },
    Get { queues: Vec<String>, wait: Option<bool> },
    Delete { id: usize },
    Abort { id: usize },
}

/// The job fields echoed back by a successful `get`.
#[derive(Debug, Clone)]
pub struct JobPayload {
    job: String,
    priority: usize,
    queue: String,
}

impl JobPayload {
    /// Assembles the payload from its three fields.
    pub fn new(job: String, priority: usize, queue: String) -> (p: Self)
        ensures
            p.spec_job() == job,
            p.spec_priority() == priority,
            p.spec_queue() == queue,
    {
        Self { job, priority, queue }
    }

    /// The job's JSON text.
    pub fn job(&self) -> (r: &String)
        ensures
            r == self.spec_job(),
    {
        &self.job
    }

    /// The job's priority.
    pub fn priority(&self) -> (r: usize)
        ensures
            r == self.spec_priority(),
    {
        self.priority
    }

    /// The queue the job was put on.
    pub fn queue(&self) -> (r: &String)
        ensures
            r == self.spec_queue(),
    {
        &self.queue
    }

    /// The job's JSON text, seen from a contract.
    pub closed spec fn spec_job(&self) -> String {
        self.job
    }

    /// The job's priority, seen from a contract.
    pub closed spec fn spec_priority(&self) -> usize {
        self.priority
    }

    /// The queue name, seen from a contract.
    pub closed spec fn spec_queue(&self) -> String {
        self.queue
    }
}

/// A response on the wire: `ok` with optional id and job fields, `error`
/// with a message, or `no-job`.
#[derive(Debug, Clone)]
pub enum Response {
    Okay { id: Option<usize>, job: Option<JobPayload> },
    Error { error: String },
    NoJob,
}

} // verus!
