//! The worker agent: its life cycle from registration to `Done`, and the
//! work it does for each map and reduce request.
//!
//! The RPC server and the file I/O live with the caller, which feeds each
//! event to this state machine and persists what it computes. A request is
//! served only by a registered worker that is not running another one.
use vstd::prelude::*;
use vstd::utf8::valid_utf8;
use crate::common::{Job, KeyValue, OperationKind, RegisterArgs, RegisterReply, Task, records_view};
use crate::data::{bucket_records, store_local};

verus! {

/// How long a worker waits before trying to register again, in seconds.
pub const REGISTER_RETRY_SECS: u64 = 2;

/// Where a worker stands in its life cycle.
#[derive(Clone, Copy, Debug, PartialEq, Eq, Structural)]
pub enum WorkerState {
    Unregistered,
    Registering,
    Idle,
    Running { kind: OperationKind },
    Done,
}

/// A worker process's own state.
#[derive(Debug)]
pub struct Worker<J> {
    pub id: i32,
    pub hostname: String,
    pub master_hostname: String,
    pub task: Task<J>,
    pub state: WorkerState,
}

impl<J: Job> Worker<J> {
    /// A worker of the given job that has not registered yet.
    pub fn new_worker(id: i32, hostname: String, master_hostname: String, job: J) -> (r: Worker<J>)
        ensures
            r.task.job == job,
            r.id == id,
            r.hostname@ == hostname@,
            r.master_hostname@ == master_hostname@,
            r.task.num_reduce_jobs == 1,
            r.task.num_map_files == 1,
            r.state == WorkerState::Unregistered,
    {
        Worker { id, hostname, master_hostname, task: Task::new_task(job), state: WorkerState::Unregistered }
    }

    /// Whether the worker serves map and reduce requests: it registered and
    /// has not been told it is done.
    pub open spec fn serving(&self) -> bool {
        self.state == WorkerState::Idle || self.state is Running
    }

    /// Starts (or restarts) registration: the message to send to the master.
    /// Only a worker that has not registered yet may register.
    pub fn register(&mut self) -> (r: Option<RegisterArgs>)
        ensures
            r is Some <==> (old(self).state == WorkerState::Unregistered || old(self).state
                == WorkerState::Registering),
            r is Some ==> r->Some_0.worker_hostname@ == old(self).hostname@ && final(self).state
                == WorkerState::Registering,
            r is None ==> final(self).state == old(self).state,
            final(self).id == old(self).id,
            final(self).hostname@ == old(self).hostname@,
            final(self).master_hostname@ == old(self).master_hostname@,
            final(self).task == old(self).task,
    {
        match self.state {
            WorkerState::Unregistered | WorkerState::Registering => {
                self.state = WorkerState::Registering;
                Some(RegisterArgs { worker_hostname: self.hostname.clone() })
            },
            _ => None,
        }
    }

    /// The master could not be reached: stay registering and try again
    /// after the returned number of seconds.
    pub fn registration_failed(&self) -> (r: u64)
        ensures
            r == REGISTER_RETRY_SECS,
    {
        REGISTER_RETRY_SECS
    }

    /// The master answered: keep the id and the number of reduce buckets,
    /// and start serving. A reply is taken only while registering and only
    /// with at least one bucket.
    pub fn registered(&mut self, reply: RegisterReply) -> (r: bool)
        ensures
            r == (old(self).state == WorkerState::Registering && reply.reduce_jobs > 0),
            r ==> final(self).id == reply.worker_id && final(self).task.num_reduce_jobs
                == reply.reduce_jobs && final(self).task.num_map_files
                == old(self).task.num_map_files && final(self).task.job == old(self).task.job
                && final(self).state == WorkerState::Idle && final(self).task.wf(),
            !r ==> final(self).id == old(self).id && final(self).task == old(self).task
                && final(self).state == old(self).state,
            final(self).hostname@ == old(self).hostname@,
            final(self).master_hostname@ == old(self).master_hostname@,
    {
        if self.state == WorkerState::Registering && reply.reduce_jobs > 0 {
            self.id = reply.worker_id;
            self.task.num_reduce_jobs = reply.reduce_jobs;
            self.state = WorkerState::Idle;
            true
        } else {
            false
        }
    }

    /// Takes a map or reduce request: only an idle worker does.
    pub fn start_operation(&mut self, kind: OperationKind) -> (r: bool)
        ensures
            r == (old(self).state == WorkerState::Idle),
            r ==> final(self).state == (WorkerState::Running { kind }),
            !r ==> final(self).state == old(self).state,
            final(self).id == old(self).id,
            final(self).task == old(self).task,
            final(self).hostname@ == old(self).hostname@,
            final(self).master_hostname@ == old(self).master_hostname@,
    {
        if self.state == WorkerState::Idle {
            self.state = WorkerState::Running { kind };
            true
        } else {
            false
        }
    }

    /// The output of the running operation is stored: back to idle.
    pub fn finish_operation(&mut self) -> (r: bool)
        ensures
            r == old(self).state is Running,
            r ==> final(self).state == WorkerState::Idle,
            !r ==> final(self).state == old(self).state,
            final(self).id == old(self).id,
            final(self).task == old(self).task,
            final(self).hostname@ == old(self).hostname@,
            final(self).master_hostname@ == old(self).master_hostname@,
    {
        match self.state {
            WorkerState::Running { .. } => {
                self.state = WorkerState::Idle;
                true
            },
            _ => false,
        }
    }

    /// The master said the job is done: the worker stops serving for good.
    pub fn done(&mut self)
        ensures
            final(self).state == WorkerState::Done,
            final(self).id == old(self).id,
            final(self).task == old(self).task,
            final(self).hostname@ == old(self).hostname@,
            final(self).master_hostname@ == old(self).master_hostname@,
    {
        self.state = WorkerState::Done;
    }

    /// The work of a map request on the contents of its input chunk: the
    /// records of the chunk, spread over the buckets; entry `r` goes to the
    /// shard `reduce/reduce-<operation id>-<r>`.
    pub fn map_shards(&self, contents: &Vec<u8>) -> (r: Vec<Vec<KeyValue>>)
        requires
            self.task.wf(),
            valid_utf8(contents@),
        ensures
            r@.len() == self.task.num_reduce_jobs,
            forall|b: int|
                0 <= b < r@.len() ==> records_view(#[trigger] r@[b]@) == bucket_records(
                    self.task.job,
                    self.task.job.map_spec(contents@),
                    self.task.num_reduce_jobs as int,
                    b,
                ),
    {
        let records = self.task.job.map(contents);
        store_local(&self.task, &records)
    }

    /// The work of a reduce request on the records of its merged bucket;
    /// `None` when the reduce is not defined on them.
    pub fn reduce_records(&self, records: Vec<KeyValue>) -> (r: Option<Vec<KeyValue>>)
        ensures
            r is Some <==> self.task.job.reduce_accepts(records_view(records@)),
            r is Some ==> records_view(r->Some_0@) == self.task.job.reduce_spec(
                records_view(records@),
            ),
    {
        if !self.task.job.accepts(&records) {
            return None;
        }
        let mut records = records;
        self.task.job.reduce(&mut records);
        Some(records)
    }
}

} // verus!
