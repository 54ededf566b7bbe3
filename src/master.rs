//! The master's scheduler: the registry of workers, the queue of idle
//! workers, the queue of operations waiting for a worker, and the count of
//! completed operations.
//!
//! The master's event loop lives with the caller. It hands each event
//! (a registration, a finished or failed call) to this state machine and
//! performs the action that `next_action` decides. Every decision here keeps
//! the scheduler's invariant: a failed worker is never dispatched again, an
//! operation whose worker fails goes back to the queue with the same id and
//! path, and no operation is counted complete twice.
use vstd::prelude::*;
use crate::common::{Operation, OperationKind, RegisterArgs, RegisterReply};

verus! {

/// Where a registered worker stands, as the master sees it.
#[derive(Clone, Copy, Debug, PartialEq, Eq, Structural)]
pub enum WorkerStatus {
    Idle,
    Running,
    Failed,
}

/// The master's handle on a registered worker.
#[derive(Clone, Debug)]
pub struct RemoteWorker {
    pub id: usize,
    pub hostname: String,
    pub status: WorkerStatus,
}

impl RemoteWorker {
    /// A newly registered worker: idle.
    pub fn new_worker(id: usize, hostname: String) -> (r: RemoteWorker)
        ensures
            r.id == id,
            r.hostname@ == hostname@,
            r.status == WorkerStatus::Idle,
    {
        RemoteWorker { id, hostname, status: WorkerStatus::Idle }
    }
}

/// The mathematical form of an operation: kind, id and path.
pub type OpView = (OperationKind, i32, Seq<char>);

pub open spec fn op_view(op: Operation) -> OpView {
    (op.kind, op.id, op.file_path@)
}

/// What the caller of the scheduler does next.
#[derive(Debug)]
pub enum SchedulerAction {
    /// Send `operation` to the worker `worker_id`.
    Run { worker_id: usize, operation: Operation },
    /// Wait for the next event: every worker is busy, the last operations
    /// of the phase are still running, or no worker has registered yet.
    Wait,
    /// Every operation of the phase completed: the barrier is crossed.
    PhaseComplete,
    /// Operations are left and every worker that registered has failed:
    /// the job fails.
    NoWorkers,
}

/// The scheduler of one job.
pub struct Master {
    workers: Vec<RemoteWorker>,
    total_workers: usize,
    idle: Vec<usize>,
    failed: Vec<usize>,
    pending: Vec<Operation>,
    running: Vec<(usize, Operation)>,
    completed: usize,
    total: usize,
    num_reduce_jobs: i32,
}

/// The index of the worker with id `id` in `ws`.
pub open spec fn worker_index(ws: Seq<RemoteWorker>, id: nat) -> int {
    choose|i: int| 0 <= i < ws.len() && ws[i].id == id
}

/// The index of the assignment of worker `id` in `rs`.
pub open spec fn running_index(rs: Seq<(usize, Operation)>, id: nat) -> int {
    choose|i: int| 0 <= i < rs.len() && rs[i].0 == id
}

pub open spec fn has_worker(ws: Seq<RemoteWorker>, id: nat) -> bool {
    exists|i: int| 0 <= i < ws.len() && ws[i].id == id
}

pub open spec fn has_running(rs: Seq<(usize, Operation)>, id: nat) -> bool {
    exists|i: int| 0 <= i < rs.len() && rs[i].0 == id
}

pub open spec fn worker_ids_distinct(ws: Seq<RemoteWorker>) -> bool {
    forall|i: int, j: int| 0 <= i < j < ws.len() ==> ws[i].id != ws[j].id
}

pub open spec fn running_ids_distinct(rs: Seq<(usize, Operation)>) -> bool {
    forall|i: int, j: int| 0 <= i < j < rs.len() ==> rs[i].0 != rs[j].0
}

pub open spec fn status_map(ws: Seq<RemoteWorker>) -> Map<nat, WorkerStatus> {
    Map::new(|id: nat| has_worker(ws, id), |id: nat| ws[worker_index(ws, id)].status)
}

pub open spec fn hostname_map(ws: Seq<RemoteWorker>) -> Map<nat, Seq<char>> {
    Map::new(|id: nat| has_worker(ws, id), |id: nat| ws[worker_index(ws, id)].hostname@)
}

pub open spec fn running_map(rs: Seq<(usize, Operation)>) -> Map<nat, OpView> {
    Map::new(|id: nat| has_running(rs, id), |id: nat| op_view(rs[running_index(rs, id)].1))
}

pub open spec fn ops_view(ops: Seq<Operation>) -> Seq<OpView> {
    ops.map_values(|op: Operation| op_view(op))
}

pub open spec fn ids_view(ids: Seq<usize>) -> Seq<nat> {
    ids.map_values(|i: usize| i as nat)
}

proof fn lemma_worker_index(ws: Seq<RemoteWorker>, i: int)
    requires
        worker_ids_distinct(ws),
        0 <= i < ws.len(),
    ensures
        has_worker(ws, ws[i].id as nat),
        worker_index(ws, ws[i].id as nat) == i,
{
    assert(has_worker(ws, ws[i].id as nat));
    let j = worker_index(ws, ws[i].id as nat);
    if j != i {
        if j < i {
            assert(ws[j].id != ws[i].id);
        } else {
            assert(ws[i].id != ws[j].id);
        }
    }
}

proof fn lemma_running_index(rs: Seq<(usize, Operation)>, i: int)
    requires
        running_ids_distinct(rs),
        0 <= i < rs.len(),
    ensures
        has_running(rs, rs[i].0 as nat),
        running_index(rs, rs[i].0 as nat) == i,
{
    assert(has_running(rs, rs[i].0 as nat));
    let j = running_index(rs, rs[i].0 as nat);
    if j != i {
        if j < i {
            assert(rs[j].0 != rs[i].0);
        } else {
            assert(rs[i].0 != rs[j].0);
        }
    }
}

proof fn lemma_workers_push(ws: Seq<RemoteWorker>, w: RemoteWorker)
    requires
        worker_ids_distinct(ws),
        !has_worker(ws, w.id as nat),
    ensures
        worker_ids_distinct(ws.push(w)),
        status_map(ws.push(w)) == status_map(ws).insert(w.id as nat, w.status),
        hostname_map(ws.push(w)) == hostname_map(ws).insert(w.id as nat, w.hostname@),
{
    let ws2 = ws.push(w);
    assert forall|i: int, j: int| 0 <= i < j < ws2.len() implies ws2[i].id != ws2[j].id by {
        if j == ws.len() {
            assert(ws2[i] == ws[i]);
        } else {
            assert(ws2[i] == ws[i] && ws2[j] == ws[j]);
        }
    }
    lemma_worker_index(ws2, ws.len() as int);
    assert forall|x: nat| has_worker(ws2, x) <==> (has_worker(ws, x) || x == w.id) by {
        if has_worker(ws, x) {
            let j = worker_index(ws, x);
            assert(ws2[j] == ws[j]);
        }
        if has_worker(ws2, x) && x != w.id {
            let j = worker_index(ws2, x);
            assert(ws2[j] == ws[j]);
        }
    }
    assert forall|x: nat| has_worker(ws, x) implies ws2[worker_index(ws2, x)] == ws[worker_index(
        ws,
        x,
    )] by {
        let j = worker_index(ws, x);
        lemma_worker_index(ws2, j);
        assert(ws2[j] == ws[j]);
    }
    assert(status_map(ws2) =~= status_map(ws).insert(w.id as nat, w.status));
    assert(hostname_map(ws2) =~= hostname_map(ws).insert(w.id as nat, w.hostname@));
}

proof fn lemma_workers_set(ws: Seq<RemoteWorker>, i: int, w: RemoteWorker)
    requires
        worker_ids_distinct(ws),
        0 <= i < ws.len(),
        w.id == ws[i].id,
        w.hostname@ == ws[i].hostname@,
    ensures
        worker_ids_distinct(ws.update(i, w)),
        status_map(ws.update(i, w)) == status_map(ws).insert(w.id as nat, w.status),
        hostname_map(ws.update(i, w)) == hostname_map(ws),
{
    let ws2 = ws.update(i, w);
    assert forall|a: int, b: int| 0 <= a < b < ws2.len() implies ws2[a].id != ws2[b].id by {
        assert(ws2[a].id == ws[a].id && ws2[b].id == ws[b].id);
    }
    assert forall|x: nat| has_worker(ws2, x) <==> has_worker(ws, x) by {
        if has_worker(ws, x) {
            let j = worker_index(ws, x);
            assert(ws2[j].id == ws[j].id);
        }
        if has_worker(ws2, x) {
            let j = worker_index(ws2, x);
            assert(ws2[j].id == ws[j].id);
        }
    }
    assert forall|x: nat| has_worker(ws, x) implies {
        &&& ws2[worker_index(ws2, x)].hostname@ == ws[worker_index(ws, x)].hostname@
        &&& x != w.id ==> ws2[worker_index(ws2, x)] == ws[worker_index(ws, x)]
        &&& x == w.id ==> ws2[worker_index(ws2, x)] == w
    } by {
        let j = worker_index(ws, x);
        lemma_worker_index(ws, j);
        assert(ws2[j].id == ws[j].id);
        lemma_worker_index(ws2, j);
    }
    assert(status_map(ws2) =~= status_map(ws).insert(w.id as nat, w.status));
    assert(hostname_map(ws2) =~= hostname_map(ws));
}

proof fn lemma_workers_remove(ws: Seq<RemoteWorker>, i: int)
    requires
        worker_ids_distinct(ws),
        0 <= i < ws.len(),
    ensures
        worker_ids_distinct(ws.remove(i)),
        status_map(ws.remove(i)) == status_map(ws).remove(ws[i].id as nat),
        hostname_map(ws.remove(i)) == hostname_map(ws).remove(ws[i].id as nat),
{
    let ws2 = ws.remove(i);
    let id = ws[i].id;
    assert forall|a: int, b: int| 0 <= a < b < ws2.len() implies ws2[a].id != ws2[b].id by {
        let a0 = if a < i { a } else { a + 1 };
        let b0 = if b < i { b } else { b + 1 };
        assert(ws2[a] == ws[a0] && ws2[b] == ws[b0]);
    }
    assert forall|x: nat| has_worker(ws2, x) <==> (has_worker(ws, x) && x != id) by {
        if has_worker(ws, x) && x != id {
            let j = worker_index(ws, x);
            assert(j != i);
            if j < i {
                assert(ws2[j] == ws[j]);
            } else {
                assert(ws2[j - 1] == ws[j]);
            }
        }
        if has_worker(ws2, x) {
            let j = worker_index(ws2, x);
            let j0 = if j < i { j } else { j + 1 };
            assert(ws2[j] == ws[j0]);
            assert(j0 != i ==> ws[j0].id != ws[i].id);
        }
    }
    assert forall|x: nat| has_worker(ws2, x) implies ws2[worker_index(ws2, x)] == ws[worker_index(
        ws,
        x,
    )] by {
        let j = worker_index(ws2, x);
        let j0 = if j < i { j } else { j + 1 };
        assert(ws2[j] == ws[j0]);
        lemma_worker_index(ws, j0);
    }
    assert(status_map(ws2) =~= status_map(ws).remove(id as nat));
    assert(hostname_map(ws2) =~= hostname_map(ws).remove(id as nat));
}

proof fn lemma_running_push(rs: Seq<(usize, Operation)>, e: (usize, Operation))
    requires
        running_ids_distinct(rs),
        !has_running(rs, e.0 as nat),
    ensures
        running_ids_distinct(rs.push(e)),
        running_map(rs.push(e)) == running_map(rs).insert(e.0 as nat, op_view(e.1)),
{
    let rs2 = rs.push(e);
    assert forall|i: int, j: int| 0 <= i < j < rs2.len() implies rs2[i].0 != rs2[j].0 by {
        if j == rs.len() {
            assert(rs2[i] == rs[i]);
        } else {
            assert(rs2[i] == rs[i] && rs2[j] == rs[j]);
        }
    }
    lemma_running_index(rs2, rs.len() as int);
    assert forall|x: nat| has_running(rs2, x) <==> (has_running(rs, x) || x == e.0) by {
        if has_running(rs, x) {
            let j = running_index(rs, x);
            assert(rs2[j] == rs[j]);
        }
        if has_running(rs2, x) && x != e.0 {
            let j = running_index(rs2, x);
            assert(rs2[j] == rs[j]);
        }
    }
    assert forall|x: nat| has_running(rs, x) implies rs2[running_index(rs2, x)] == rs[running_index(
        rs,
        x,
    )] by {
        let j = running_index(rs, x);
        lemma_running_index(rs2, j);
        assert(rs2[j] == rs[j]);
    }
    assert(running_map(rs2) =~= running_map(rs).insert(e.0 as nat, op_view(e.1)));
}

proof fn lemma_running_remove(rs: Seq<(usize, Operation)>, i: int)
    requires
        running_ids_distinct(rs),
        0 <= i < rs.len(),
    ensures
        running_ids_distinct(rs.remove(i)),
        running_map(rs.remove(i)) == running_map(rs).remove(rs[i].0 as nat),
        running_map(rs).contains_key(rs[i].0 as nat),
        running_map(rs)[rs[i].0 as nat] == op_view(rs[i].1),
{
    let rs2 = rs.remove(i);
    let id = rs[i].0;
    lemma_running_index(rs, i);
    assert forall|a: int, b: int| 0 <= a < b < rs2.len() implies rs2[a].0 != rs2[b].0 by {
        let a0 = if a < i { a } else { a + 1 };
        let b0 = if b < i { b } else { b + 1 };
        assert(rs2[a] == rs[a0] && rs2[b] == rs[b0]);
    }
    assert forall|x: nat| has_running(rs2, x) <==> (has_running(rs, x) && x != id) by {
        if has_running(rs, x) && x != id {
            let j = running_index(rs, x);
            assert(j != i);
            if j < i {
                assert(rs2[j] == rs[j]);
            } else {
                assert(rs2[j - 1] == rs[j]);
            }
        }
        if has_running(rs2, x) {
            let j = running_index(rs2, x);
            let j0 = if j < i { j } else { j + 1 };
            assert(rs2[j] == rs[j0]);
            assert(j0 != i ==> rs[j0].0 != rs[i].0);
        }
    }
    assert forall|x: nat| has_running(rs2, x) implies rs2[running_index(rs2, x)] == rs[running_index(
        rs,
        x,
    )] by {
        let j = running_index(rs2, x);
        let j0 = if j < i { j } else { j + 1 };
        assert(rs2[j] == rs[j0]);
        lemma_running_index(rs, j0);
    }
    assert(running_map(rs2) =~= running_map(rs).remove(id as nat));
}

impl Master {
    /// The status of each registered worker, by id.
    pub closed spec fn statuses(&self) -> Map<nat, WorkerStatus> {
        status_map(self.workers@)
    }

    /// The hostname of each registered worker, by id.
    pub closed spec fn hostnames(&self) -> Map<nat, Seq<char>> {
        hostname_map(self.workers@)
    }

    /// The operation that each running worker executes, by worker id.
    pub closed spec fn running_ops(&self) -> Map<nat, OpView> {
        running_map(self.running@)
    }

    /// How many operations are out with a worker.
    pub closed spec fn in_flight(&self) -> nat {
        self.running@.len()
    }

    /// The idle workers, in the order they will be handed work.
    pub closed spec fn idle_queue(&self) -> Seq<nat> {
        ids_view(self.idle@)
    }

    /// The workers whose call failed, in the order they failed.
    pub closed spec fn failed_workers(&self) -> Seq<nat> {
        ids_view(self.failed@)
    }

    /// The operations waiting for a worker, in the order they will go out.
    pub closed spec fn pending_ops(&self) -> Seq<OpView> {
        ops_view(self.pending@)
    }

    /// How many operations of the phase completed.
    pub closed spec fn completed(&self) -> nat {
        self.completed as nat
    }

    /// How many operations the phase has.
    pub closed spec fn total(&self) -> nat {
        self.total as nat
    }

    /// The id that the next registration gets.
    pub closed spec fn next_id(&self) -> nat {
        self.total_workers as nat
    }

    /// The number of reduce buckets announced to workers.
    pub closed spec fn reduce_jobs(&self) -> i32 {
        self.num_reduce_jobs
    }

    /// The scheduler's invariant.
    pub closed spec fn wf(&self) -> bool {
        let st = status_map(self.workers@);
        let run = running_map(self.running@);
        let idle = ids_view(self.idle@);
        &&& worker_ids_distinct(self.workers@)
        &&& running_ids_distinct(self.running@)
        &&& forall|x: nat| #[trigger] st.contains_key(x) ==> x < self.total_workers && st[x]
            != WorkerStatus::Failed
        // the idle queue holds each idle worker once, and nothing else
        &&& idle.no_duplicates()
        &&& forall|x: nat| #[trigger] idle.contains(x) <==> (st.contains_key(x) && st[x]
            == WorkerStatus::Idle)
        // each running worker has exactly one operation
        &&& forall|x: nat| #[trigger] run.contains_key(x) <==> (st.contains_key(x) && st[x]
            == WorkerStatus::Running)
        // failed workers are gone for good
        &&& forall|i: int|
            0 <= i < self.failed@.len() ==> !st.contains_key(#[trigger] self.failed@[i] as nat)
                && self.failed@[i] < self.total_workers
        // every operation of the phase is pending, running or completed, once
        &&& self.completed + self.pending@.len() + self.running@.len() == self.total
    }
}

/// Nothing about the workers changed between `a` and `b`.
pub open spec fn same_workers(a: &Master, b: &Master) -> bool {
    &&& a.statuses() == b.statuses()
    &&& a.hostnames() == b.hostnames()
    &&& a.idle_queue() == b.idle_queue()
    &&& a.failed_workers() == b.failed_workers()
    &&& a.next_id() == b.next_id()
    &&& a.reduce_jobs() == b.reduce_jobs()
}

/// Nothing about the operations changed between `a` and `b`.
pub open spec fn same_work(a: &Master, b: &Master) -> bool {
    &&& a.running_ops() == b.running_ops()
    &&& a.in_flight() == b.in_flight()
    &&& a.pending_ops() == b.pending_ops()
    &&& a.completed() == b.completed()
    &&& a.total() == b.total()
}

impl Master {
    /// A scheduler with no worker and no operation, announcing
    /// `num_reduce_jobs` buckets to the workers that register.
    pub fn new_master(num_reduce_jobs: i32) -> (r: Master)
        ensures
            r.wf(),
            r.statuses() == Map::<nat, WorkerStatus>::empty(),
            r.hostnames() == Map::<nat, Seq<char>>::empty(),
            r.running_ops() == Map::<nat, OpView>::empty(),
            r.in_flight() == 0,
            r.idle_queue() == Seq::<nat>::empty(),
            r.failed_workers() == Seq::<nat>::empty(),
            r.pending_ops() == Seq::<OpView>::empty(),
            r.completed() == 0,
            r.total() == 0,
            r.next_id() == 0,
            r.reduce_jobs() == num_reduce_jobs,
    {
        let r = Master {
            workers: Vec::new(),
            total_workers: 0,
            idle: Vec::new(),
            failed: Vec::new(),
            pending: Vec::new(),
            running: Vec::new(),
            completed: 0,
            total: 0,
            num_reduce_jobs,
        };
        proof {
            assert(r.statuses() =~= Map::<nat, WorkerStatus>::empty());
            assert(r.hostnames() =~= Map::<nat, Seq<char>>::empty());
            assert(r.running_ops() =~= Map::<nat, OpView>::empty());
            assert(r.idle_queue() =~= Seq::<nat>::empty());
            assert(r.failed_workers() =~= Seq::<nat>::empty());
            assert(r.pending_ops() =~= Seq::<OpView>::empty());
        }
        r
    }

    fn find_worker(&self, id: usize) -> (r: Option<usize>)
        ensures
            r is Some ==> r->Some_0 < self.workers@.len() && self.workers@[r->Some_0 as int].id
                == id,
            r is None ==> !has_worker(self.workers@, id as nat),
    {
        let mut j: usize = 0;
        while j < self.workers.len()
            invariant
                j <= self.workers@.len(),
                forall|t: int| 0 <= t < j ==> self.workers@[t].id != id,
            decreases self.workers@.len() - j,
        {
            if self.workers[j].id == id {
                return Some(j);
            }
            j = j + 1;
        }
        None
    }

    fn find_running(&self, id: usize) -> (r: Option<usize>)
        ensures
            r is Some ==> r->Some_0 < self.running@.len() && self.running@[r->Some_0 as int].0
                == id,
            r is None ==> !has_running(self.running@, id as nat),
    {
        let mut j: usize = 0;
        while j < self.running.len()
            invariant
                j <= self.running@.len(),
                forall|t: int| 0 <= t < j ==> self.running@[t].0 != id,
            decreases self.running@.len() - j,
        {
            if self.running[j].0 == id {
                return Some(j);
            }
            j = j + 1;
        }
        None
    }

    /// Registers a worker: it gets the next id, becomes idle and joins the
    /// end of the idle queue, all in one step, so that it can be handed work
    /// as soon as the reply reaches it. Fails only when worker ids no longer
    /// fit the reply.
    pub fn register(&mut self, args: RegisterArgs) -> (r: Option<RegisterReply>)
        requires
            old(self).wf(),
        ensures
            final(self).wf(),
            r is Some <==> old(self).next_id() < i32::MAX,
            r is None ==> *final(self) == *old(self),
            r is Some ==> {
                let id = old(self).next_id();
                &&& r->Some_0.worker_id == id
                &&& r->Some_0.reduce_jobs == old(self).reduce_jobs()
                &&& final(self).statuses() == old(self).statuses().insert(id, WorkerStatus::Idle)
                &&& final(self).hostnames() == old(self).hostnames().insert(
                    id,
                    args.worker_hostname@,
                )
                &&& final(self).idle_queue() == old(self).idle_queue().push(id)
                &&& final(self).failed_workers() == old(self).failed_workers()
                &&& final(self).next_id() == id + 1
                &&& final(self).reduce_jobs() == old(self).reduce_jobs()
                &&& same_work(&*final(self), &*old(self))
            },
    {
        if self.total_workers >= i32::MAX as usize {
            return None;
        }
        let id = self.total_workers;
        let w = RemoteWorker::new_worker(id, args.worker_hostname);
        let ghost st = status_map(self.workers@);
        let ghost old_idle = ids_view(self.idle@);
        proof {
            if has_worker(self.workers@, id as nat) {
                assert(st.contains_key(id as nat));
            }
            lemma_workers_push(self.workers@, w);
        }
        self.workers.push(w);
        self.idle.push(id);
        self.total_workers = id + 1;
        proof {
            assert(ids_view(self.idle@) =~= old_idle.push(id as nat));
            assert(!old_idle.contains(id as nat));
            assert forall|x: nat| #[trigger] ids_view(self.idle@).contains(x) <==> (old_idle.contains(x) || x == id) by {
                if x == id {
                    assert(ids_view(self.idle@)[old_idle.len() as int] == x);
                }
                if old_idle.contains(x) {
                    let k = choose|k: int| 0 <= k < old_idle.len() && old_idle[k] == x;
                    assert(ids_view(self.idle@)[k] == x);
                }
                if ids_view(self.idle@).contains(x) && x != id {
                    let k = choose|k: int| 0 <= k < ids_view(self.idle@).len() && ids_view(self.idle@)[k] == x;
                    assert(old_idle[k] == x);
                }
            }
        }
        Some(RegisterReply { worker_id: id as i32, reduce_jobs: self.num_reduce_jobs })
    }

    /// Starts a phase: its operations wait for workers in the given order.
    /// A phase starts only once the previous one has crossed its barrier.
    pub fn start_phase(&mut self, ops: Vec<Operation>)
        requires
            old(self).wf(),
            old(self).pending_ops().len() == 0,
            old(self).in_flight() == 0,
        ensures
            final(self).wf(),
            final(self).pending_ops() == ops_view(ops@),
            final(self).completed() == 0,
            final(self).total() == ops@.len(),
            final(self).running_ops() == old(self).running_ops(),
            final(self).in_flight() == 0,
            same_workers(&*final(self), &*old(self)),
    {
        self.total = ops.len();
        self.pending = ops;
        self.completed = 0;
    }

    /// Decides what the master does next. With operations waiting and an idle
    /// worker, the first idle worker gets the first waiting operation and
    /// becomes running. With nothing waiting and nothing running, the phase
    /// is complete. With operations waiting and every worker lost to a
    /// failure, the job cannot go on. Otherwise the master waits for the next
    /// event: an operation finishing, or a worker registering.
    pub fn next_action(&mut self) -> (r: SchedulerAction)
        requires
            old(self).wf(),
        ensures
            final(self).wf(),
            match r {
                SchedulerAction::Run { worker_id, operation } => {
                    &&& old(self).idle_queue().len() > 0
                    &&& old(self).pending_ops().len() > 0
                    &&& worker_id == old(self).idle_queue()[0]
                    &&& op_view(operation) == old(self).pending_ops()[0]
                    &&& final(self).idle_queue() == old(self).idle_queue().drop_first()
                    &&& final(self).pending_ops() == old(self).pending_ops().drop_first()
                    &&& final(self).statuses() == old(self).statuses().insert(
                        worker_id as nat,
                        WorkerStatus::Running,
                    )
                    &&& final(self).running_ops() == old(self).running_ops().insert(
                        worker_id as nat,
                        op_view(operation),
                    )
                    &&& final(self).in_flight() == old(self).in_flight() + 1
                    &&& final(self).hostnames() == old(self).hostnames()
                    &&& final(self).failed_workers() == old(self).failed_workers()
                    &&& final(self).next_id() == old(self).next_id()
                    &&& final(self).reduce_jobs() == old(self).reduce_jobs()
                    &&& final(self).completed() == old(self).completed()
                    &&& final(self).total() == old(self).total()
                },
                SchedulerAction::Wait => {
                    &&& *final(self) == *old(self)
                    &&& old(self).pending_ops().len() == 0 ==> old(self).in_flight() > 0
                    &&& old(self).pending_ops().len() > 0 ==> old(self).idle_queue().len() == 0
                    &&& (old(self).in_flight() == 0 ==> old(self).statuses()
                        == Map::<nat, WorkerStatus>::empty() && old(self).failed_workers().len()
                        == 0)
                },
                SchedulerAction::PhaseComplete => {
                    &&& *final(self) == *old(self)
                    &&& old(self).pending_ops().len() == 0
                    &&& old(self).in_flight() == 0
                    &&& old(self).completed() == old(self).total()
                },
                SchedulerAction::NoWorkers => {
                    &&& *final(self) == *old(self)
                    &&& old(self).pending_ops().len() > 0
                    &&& old(self).statuses() == Map::<nat, WorkerStatus>::empty()
                    &&& old(self).failed_workers().len() > 0
                },
            },
    {
        if self.pending.len() == 0 {
            if self.running.len() == 0 {
                return SchedulerAction::PhaseComplete;
            } else {
                return SchedulerAction::Wait;
            }
        }
        if self.idle.len() == 0 {
            if self.running.len() > 0 {
                return SchedulerAction::Wait;
            }
            let no_failures = self.failed.len() == 0;
            proof {
                let st = status_map(self.workers@);
                assert forall|x: nat| !st.contains_key(x) by {
                    if st.contains_key(x) {
                        if st[x] == WorkerStatus::Idle {
                            assert(ids_view(self.idle@).contains(x));
                        } else {
                            assert(running_map(self.running@).contains_key(x));
                        }
                    }
                }
                assert(st =~= Map::<nat, WorkerStatus>::empty());
            }
            if no_failures {
                return SchedulerAction::Wait;
            }
            return SchedulerAction::NoWorkers;
        }
        let ghost old_idle = ids_view(self.idle@);
        let ghost old_pending = ops_view(self.pending@);
        let ghost st = status_map(self.workers@);
        let ghost run = running_map(self.running@);
        let w = self.idle.remove(0);
        let op = self.pending.remove(0);
        proof {
            assert(old_idle[0] == w as nat);
            assert(old_idle.contains(w as nat));
            assert(ids_view(self.idle@) =~= old_idle.drop_first());
            assert(ops_view(self.pending@) =~= old_pending.drop_first());
        }
        let i = match self.find_worker(w) {
            Some(i) => i,
            None => {
                proof {
                    assert(st.contains_key(w as nat));
                    let j = worker_index(self.workers@, w as nat);
                    assert(self.workers@[j].id == w);
                }
                return SchedulerAction::Wait;
            },
        };
        let host = self.workers[i].hostname.clone();
        let updated = RemoteWorker { id: w, hostname: host, status: WorkerStatus::Running };
        proof {
            lemma_workers_set(self.workers@, i as int, updated);
            if has_running(self.running@, w as nat) {
                assert(run.contains_key(w as nat));
            }
        }
        self.workers.set(i, updated);
        let entry = (w, op.duplicate());
        proof {
            lemma_running_push(self.running@, entry);
        }
        self.running.push(entry);
        proof {
            let idle2 = ids_view(self.idle@);
            assert forall|x: nat| #[trigger] idle2.contains(x) <==> (old_idle.contains(x) && x != w) by {
                if idle2.contains(x) {
                    let k = choose|k: int| 0 <= k < idle2.len() && idle2[k] == x;
                    assert(old_idle[k + 1] == x);
                    assert(old_idle[0] != old_idle[k + 1]);
                }
                if old_idle.contains(x) && x != w {
                    let k = choose|k: int| 0 <= k < old_idle.len() && old_idle[k] == x;
                    assert(k != 0);
                    assert(idle2[k - 1] == x);
                }
            }
            assert(idle2.no_duplicates()) by {
                assert forall|a: int, b: int| 0 <= a < idle2.len() && 0 <= b < idle2.len() && a != b
                    implies idle2[a] != idle2[b] by {
                    assert(idle2[a] == old_idle[a + 1] && idle2[b] == old_idle[b + 1]);
                }
            }
        }
        SchedulerAction::Run { worker_id: w, operation: op }
    }

    /// Records that `worker_id` finished its operation: the operation counts
    /// as completed and the worker goes back to the end of the idle queue.
    /// A worker that runs nothing changes nothing, so an operation is never
    /// counted twice.
    pub fn operation_succeeded(&mut self, worker_id: usize) -> (r: bool)
        requires
            old(self).wf(),
        ensures
            final(self).wf(),
            r == old(self).running_ops().contains_key(worker_id as nat),
            !r ==> *final(self) == *old(self),
            r ==> {
                &&& final(self).statuses() == old(self).statuses().insert(
                    worker_id as nat,
                    WorkerStatus::Idle,
                )
                &&& final(self).running_ops() == old(self).running_ops().remove(worker_id as nat)
                &&& final(self).in_flight() + 1 == old(self).in_flight()
                &&& final(self).idle_queue() == old(self).idle_queue().push(worker_id as nat)
                &&& final(self).completed() == old(self).completed() + 1
                &&& final(self).pending_ops() == old(self).pending_ops()
                &&& final(self).total() == old(self).total()
                &&& final(self).hostnames() == old(self).hostnames()
                &&& final(self).failed_workers() == old(self).failed_workers()
                &&& final(self).next_id() == old(self).next_id()
                &&& final(self).reduce_jobs() == old(self).reduce_jobs()
            },
    {
        let a = match self.find_running(worker_id) {
            Some(a) => a,
            None => {
                proof {
                    assert(!running_map(self.running@).contains_key(worker_id as nat));
                }
                return false;
            },
        };
        let ghost old_idle = ids_view(self.idle@);
        let ghost st = status_map(self.workers@);
        let ghost run = running_map(self.running@);
        proof {
            lemma_running_remove(self.running@, a as int);
        }
        let entry = self.running.remove(a);
        let w = entry.0;
        let i = match self.find_worker(w) {
            Some(i) => i,
            None => {
                proof {
                    assert(st.contains_key(w as nat));
                    let j = worker_index(self.workers@, w as nat);
                    assert(self.workers@[j].id == w);
                }
                return false;
            },
        };
        let host = self.workers[i].hostname.clone();
        let updated = RemoteWorker { id: w, hostname: host, status: WorkerStatus::Idle };
        proof {
            lemma_workers_set(self.workers@, i as int, updated);
            assert(!old_idle.contains(w as nat));
        }
        self.workers.set(i, updated);
        self.idle.push(w);
        self.completed = self.completed + 1;
        proof {
            let idle2 = ids_view(self.idle@);
            assert(idle2 =~= old_idle.push(w as nat));
            assert forall|x: nat| #[trigger] idle2.contains(x) <==> (old_idle.contains(x) || x == w) by {
                if x == w {
                    assert(idle2[old_idle.len() as int] == x);
                }
                if old_idle.contains(x) {
                    let k = choose|k: int| 0 <= k < old_idle.len() && old_idle[k] == x;
                    assert(idle2[k] == x);
                }
                if idle2.contains(x) && x != w {
                    let k = choose|k: int| 0 <= k < idle2.len() && idle2[k] == x;
                    assert(old_idle[k] == x);
                }
            }
        }
        true
    }

    /// Records that the call to `worker_id` failed: the worker leaves the
    /// registry for good and its operation goes back to the end of the queue
    /// with the same kind, id and path, for another worker to run.
    pub fn operation_failed(&mut self, worker_id: usize) -> (r: bool)
        requires
            old(self).wf(),
        ensures
            final(self).wf(),
            r == old(self).running_ops().contains_key(worker_id as nat),
            !r ==> *final(self) == *old(self),
            r ==> {
                &&& final(self).statuses() == old(self).statuses().remove(worker_id as nat)
                &&& final(self).hostnames() == old(self).hostnames().remove(worker_id as nat)
                &&& final(self).running_ops() == old(self).running_ops().remove(worker_id as nat)
                &&& final(self).in_flight() + 1 == old(self).in_flight()
                &&& final(self).pending_ops() == old(self).pending_ops().push(
                    old(self).running_ops()[worker_id as nat],
                )
                &&& final(self).failed_workers() == old(self).failed_workers().push(
                    worker_id as nat,
                )
                &&& final(self).idle_queue() == old(self).idle_queue()
                &&& final(self).completed() == old(self).completed()
                &&& final(self).total() == old(self).total()
                &&& final(self).next_id() == old(self).next_id()
                &&& final(self).reduce_jobs() == old(self).reduce_jobs()
            },
    {
        let a = match self.find_running(worker_id) {
            Some(a) => a,
            None => {
                proof {
                    assert(!running_map(self.running@).contains_key(worker_id as nat));
                }
                return false;
            },
        };
        let ghost old_pending = ops_view(self.pending@);
        let ghost old_failed = ids_view(self.failed@);
        let ghost st = status_map(self.workers@);
        proof {
            lemma_running_remove(self.running@, a as int);
        }
        let entry = self.running.remove(a);
        let w = entry.0;
        let op = entry.1;
        let i = match self.find_worker(w) {
            Some(i) => i,
            None => {
                proof {
                    assert(st.contains_key(w as nat));
                    let j = worker_index(self.workers@, w as nat);
                    assert(self.workers@[j].id == w);
                }
                return false;
            },
        };
        proof {
            lemma_workers_remove(self.workers@, i as int);
        }
        self.workers.remove(i);
        self.failed.push(w);
        self.pending.push(op);
        proof {
            assert(ops_view(self.pending@) =~= old_pending.push(op_view(op)));
            assert(ids_view(self.failed@) =~= old_failed.push(w as nat));
        }
        true
    }

    /// How many operations of the phase completed.
    pub fn completed_operations(&self) -> (r: usize)
        ensures
            r == self.completed(),
    {
        self.completed
    }

    /// How many operations the phase has.
    pub fn total_operations(&self) -> (r: usize)
        ensures
            r == self.total(),
    {
        self.total
    }

    /// Whether the phase crossed its barrier: nothing waits and nothing runs.
    pub fn phase_complete(&self) -> (r: bool)
        requires
            self.wf(),
        ensures
            r == (self.pending_ops().len() == 0 && self.in_flight() == 0),
            r ==> self.completed() == self.total(),
    {
        self.pending.len() == 0 && self.running.len() == 0
    }

    /// The number of reduce buckets announced to workers.
    pub fn num_reduce_jobs(&self) -> (r: i32)
        ensures
            r == self.reduce_jobs(),
    {
        self.num_reduce_jobs
    }

    /// The ids of the registered workers: those the master sends `Done` to.
    pub fn registered_workers(&self) -> (r: Vec<usize>)
        requires
            self.wf(),
        ensures
            forall|x: nat| #[trigger] ids_view(r@).contains(x) <==> self.statuses().contains_key(x),
    {
        let mut r: Vec<usize> = Vec::new();
        let mut i: usize = 0;
        while i < self.workers.len()
            invariant
                i <= self.workers@.len(),
                r@.len() == i,
                forall|k: int| 0 <= k < i ==> r@[k] == self.workers@[k].id,
            decreases self.workers@.len() - i,
        {
            r.push(self.workers[i].id);
            i = i + 1;
        }
        proof {
            assert forall|x: nat| #[trigger] ids_view(r@).contains(x) <==> has_worker(self.workers@, x) by {
                if ids_view(r@).contains(x) {
                    let k = choose|k: int| 0 <= k < ids_view(r@).len() && ids_view(r@)[k] == x;
                    assert(self.workers@[k].id == x);
                }
                if has_worker(self.workers@, x) {
                    let k = worker_index(self.workers@, x);
                    assert(ids_view(r@)[k] == x);
                }
            }
        }
        r
    }

    /// The hostname of a registered worker.
    pub fn hostname_of(&self, id: usize) -> (r: Option<String>)
        requires
            self.wf(),
        ensures
            r is Some <==> self.hostnames().contains_key(id as nat),
            r is Some ==> r->Some_0@ == self.hostnames()[id as nat],
    {
        match self.find_worker(id) {
            Some(i) => {
                proof {
                    lemma_worker_index(self.workers@, i as int);
                }
                Some(self.workers[i].hostname.clone())
            },
            None => None,
        }
    }
}

/// Every operation of a phase is waiting, running or completed, and only
/// once: the completed count never exceeds the number of operations, and it
/// reaches it exactly when nothing waits and nothing runs.
pub proof fn lemma_operations_accounted(m: &Master)
    requires
        m.wf(),
    ensures
        m.completed() + m.pending_ops().len() + m.in_flight() == m.total(),
        m.completed() <= m.total(),
        (m.pending_ops().len() == 0 && m.in_flight() == 0) <==> m.completed() == m.total(),
{
}

/// A worker whose call failed is out of the registry and out of the idle
/// queue, and its id is never issued again, so it is never handed another
/// operation; every idle worker is registered.
pub proof fn lemma_failed_workers_never_dispatched(m: &Master)
    requires
        m.wf(),
    ensures
        forall|i: int|
            0 <= i < m.failed_workers().len() ==> !m.statuses().contains_key(
                #[trigger] m.failed_workers()[i],
            ) && !m.idle_queue().contains(m.failed_workers()[i]) && m.failed_workers()[i]
                < m.next_id(),
        forall|x: nat| #[trigger]
            m.idle_queue().contains(x) ==> m.statuses().contains_key(x) && m.statuses()[x]
                == WorkerStatus::Idle,
{
    assert forall|i: int| 0 <= i < m.failed_workers().len() implies !m.statuses().contains_key(
        #[trigger] m.failed_workers()[i],
    ) && !m.idle_queue().contains(m.failed_workers()[i]) && m.failed_workers()[i] < m.next_id() by {
        assert(m.failed_workers()[i] == m.failed@[i] as nat);
    }
}

} // verus!
