//! The records that flow through a job, the job's parameters, the unit of
//! scheduling and the messages exchanged between master and workers.
use vstd::prelude::*;

verus! {

/// The mathematical form of a record: its key and its value, as text.
pub type Record = (Seq<char>, Seq<char>);

/// One record of a job: produced by a map, routed by its key, consumed by a
/// reduce.
#[derive(Clone, Debug)]
pub struct KeyValue {
    pub key: String,
    pub value: String,
}

impl View for KeyValue {
    type V = Record;

    open spec fn view(&self) -> Record {
        (self.key@, self.value@)
    }
}

/// The records of a vector, in order.
pub open spec fn records_view(v: Seq<KeyValue>) -> Seq<Record> {
    v.map_values(|kv: KeyValue| kv@)
}

impl KeyValue {
    pub fn new(key: String, value: String) -> (r: KeyValue)
        ensures
            r.key@ == key@,
            r.value@ == value@,
    {
        KeyValue { key, value }
    }

    /// A copy of the record.
    pub fn duplicate(&self) -> (r: KeyValue)
        ensures
            r@ == self@,
    {
        KeyValue { key: self.key.clone(), value: self.value.clone() }
    }
}

/// The two kinds of schedulable work.
#[derive(Clone, Copy, Debug, PartialEq, Eq, Structural)]
pub enum OperationKind {
    RunMap,
    RunReduce,
}

/// A unit of work that the master hands to one worker: apply the job's map
/// to one input chunk, or its reduce to one bucket.
#[derive(Clone, Debug)]
pub struct Operation {
    pub kind: OperationKind,
    pub id: i32,
    pub file_path: String,
}

impl Operation {
    pub fn new(kind: OperationKind, id: i32, file_path: String) -> (r: Operation)
        ensures
            r.kind == kind,
            r.id == id,
            r.file_path@ == file_path@,
    {
        Operation { kind, id, file_path }
    }

    /// A copy of the operation, with the same kind, id and path.
    pub fn duplicate(&self) -> (r: Operation)
        ensures
            r.kind == self.kind,
            r.id == self.id,
            r.file_path@ == self.file_path@,
    {
        Operation { kind: self.kind, id: self.id, file_path: self.file_path.clone() }
    }
}

/// A job definition: the three pure functions that the framework runs.
///
/// Each is stated by a spec function of its arguments alone; in particular
/// the bucket of a key depends on nothing but the key and the number of
/// buckets, so the master and every worker compute the same one.
pub trait Job {
    /// The records that the map produces from a chunk of input.
    spec fn map_spec(&self, chunk: Seq<u8>) -> Seq<Record>;

    /// The reduce bucket of a key when there are `n` buckets.
    spec fn bucket_spec(&self, key: Seq<char>, n: int) -> int;

    /// The records that the reduce produces from the records of a bucket.
    spec fn reduce_spec(&self, records: Seq<Record>) -> Seq<Record>;

    /// The inputs the reduce is defined on.
    spec fn reduce_accepts(&self, records: Seq<Record>) -> bool;

    /// Every bucket lies in `[0, n)`.
    proof fn lemma_bucket_range(&self, key: Seq<char>, n: int)
        requires
            n > 0,
        ensures
            0 <= self.bucket_spec(key, n) < n,
    ;

    /// The map: defined on text.
    fn map(&self, chunk: &Vec<u8>) -> (r: Vec<KeyValue>)
        requires
            vstd::utf8::valid_utf8(chunk@),
        ensures
            records_view(r@) == self.map_spec(chunk@),
    ;

    /// The shuffle: a bucket in `[0, num_reduce)`.
    fn shuffle(&self, key: &String, num_reduce: i32) -> (r: i32)
        requires
            num_reduce > 0,
        ensures
            r as int == self.bucket_spec(key@, num_reduce as int),
            0 <= r < num_reduce,
    ;

    /// Whether the reduce is defined on these records.
    fn accepts(&self, records: &Vec<KeyValue>) -> (r: bool)
        ensures
            r == self.reduce_accepts(records_view(records@)),
    ;

    /// The reduce: replaces the records of a bucket with its output.
    fn reduce(&self, records: &mut Vec<KeyValue>)
        requires
            self.reduce_accepts(records_view(old(records)@)),
        ensures
            records_view(final(records)@) == self.reduce_spec(records_view(old(records)@)),
    ;
}

/// A job as every process holds it: its definition, how many reduce buckets
/// the keys are routed to and how many map inputs there are. Each process
/// builds its own from the same definition.
#[derive(Clone, Copy, Debug)]
pub struct Task<J> {
    pub job: J,
    pub num_reduce_jobs: i32,
    pub num_map_files: i32,
}

impl<J: Job> Task<J> {
    /// A job with one reduce bucket and one map input.
    pub fn new_task(job: J) -> (r: Task<J>)
        ensures
            r.job == job,
            r.num_reduce_jobs == 1,
            r.num_map_files == 1,
            r.wf(),
    {
        Task { job, num_reduce_jobs: 1, num_map_files: 1 }
    }

    /// A job with the given number of reduce buckets and map inputs.
    pub fn with_jobs(job: J, num_reduce_jobs: i32, num_map_files: i32) -> (r: Task<J>)
        ensures
            r.job == job,
            r.num_reduce_jobs == num_reduce_jobs,
            r.num_map_files == num_map_files,
    {
        Task { job, num_reduce_jobs, num_map_files }
    }
}

impl<J> Task<J> {
    /// A job can route keys only when it has at least one reduce bucket.
    pub open spec fn wf(&self) -> bool {
        self.num_reduce_jobs > 0
    }
}

/// What a worker sends to register with the master.
#[derive(Clone, Debug)]
pub struct RegisterArgs {
    pub worker_hostname: String,
}

/// The master's answer to a registration.
#[derive(Clone, Copy, Debug, PartialEq, Eq, Structural)]
pub struct RegisterReply {
    pub worker_id: i32,
    pub reduce_jobs: i32,
}

/// What the master sends with a map or reduce request.
#[derive(Clone, Debug)]
pub struct RunArgs {
    pub id: i32,
    pub file_path: String,
}

} // verus!
