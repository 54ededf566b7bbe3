use mapreduce::common::{Operation, OperationKind, RegisterArgs};
use mapreduce::master::{Master, RemoteWorker, SchedulerAction, WorkerStatus};

fn register(m: &mut Master, host: &str) -> usize {
    let reply = m.register(RegisterArgs { worker_hostname: host.to_string() }).unwrap();
    reply.worker_id as usize
}

fn map_ops(n: i32) -> Vec<Operation> {
    (0..n).map(|i| Operation::new(OperationKind::RunMap, i, format!("map/map-{}", i))).collect()
}

#[test]
fn new_worker_is_idle() {
    let w = RemoteWorker::new_worker(4, "host".to_string());
    assert_eq!(w.id, 4);
    assert_eq!(w.hostname, "host");
    assert_eq!(w.status, WorkerStatus::Idle);
}

#[test]
fn registration_issues_increasing_ids() {
    let mut m = Master::new_master(5);
    let reply = m.register(RegisterArgs { worker_hostname: "a".to_string() }).unwrap();
    assert_eq!(reply.worker_id, 0);
    assert_eq!(reply.reduce_jobs, 5);
    let reply = m.register(RegisterArgs { worker_hostname: "b".to_string() }).unwrap();
    assert_eq!(reply.worker_id, 1);
    assert_eq!(m.hostname_of(1), Some("b".to_string()));
    assert_eq!(m.hostname_of(2), None);
    let mut ids = m.registered_workers();
    ids.sort();
    assert_eq!(ids, vec![0, 1]);
}

#[test]
fn failed_map_three_is_rerun_by_the_other_worker() {
    let mut m = Master::new_master(1);
    let w0 = register(&mut m, "a");
    let w1 = register(&mut m, "b");
    m.start_phase(map_ops(5));
    let mut executed_by: Vec<Option<usize>> = vec![None; 5];
    let mut failed_once = false;
    let mut steps = 0;
    loop {
        steps += 1;
        assert!(steps < 100);
        match m.next_action() {
            SchedulerAction::Run { worker_id, operation } => {
                assert_eq!(operation.kind, OperationKind::RunMap);
                if operation.id == 3 && !failed_once {
                    failed_once = true;
                    assert!(m.operation_failed(worker_id));
                    assert_eq!(m.hostname_of(worker_id), None);
                } else {
                    assert_eq!(operation.file_path, format!("map/map-{}", operation.id));
                    assert!(m.operation_succeeded(worker_id));
                    assert!(!m.operation_succeeded(worker_id));
                    assert!(executed_by[operation.id as usize].is_none());
                    executed_by[operation.id as usize] = Some(worker_id);
                }
            }
            SchedulerAction::PhaseComplete => break,
            SchedulerAction::Wait => panic!("nothing is running"),
            SchedulerAction::NoWorkers => panic!("a worker is left"),
        }
    }
    assert!(failed_once);
    assert!(m.phase_complete());
    assert_eq!(m.completed_operations(), 5);
    assert_eq!(m.total_operations(), 5);
    let survivor = m.registered_workers();
    assert_eq!(survivor.len(), 1);
    assert!(survivor[0] == w0 || survivor[0] == w1);
    assert_eq!(executed_by[3], Some(survivor[0]));
    assert!(executed_by.iter().all(|e| e.is_some()));
}

#[test]
fn busy_workers_make_the_master_wait() {
    let mut m = Master::new_master(1);
    let w = register(&mut m, "a");
    m.start_phase(map_ops(2));
    match m.next_action() {
        SchedulerAction::Run { worker_id, operation } => {
            assert_eq!(worker_id, w);
            assert_eq!(operation.id, 0);
        }
        _ => panic!("expected a dispatch"),
    }
    assert!(matches!(m.next_action(), SchedulerAction::Wait));
    assert!(m.operation_succeeded(w));
    match m.next_action() {
        SchedulerAction::Run { operation, .. } => assert_eq!(operation.id, 1),
        _ => panic!("expected a dispatch"),
    }
    assert!(matches!(m.next_action(), SchedulerAction::Wait));
    assert!(!m.phase_complete());
}

#[test]
fn losing_every_worker_fails_the_job() {
    let mut m = Master::new_master(1);
    let w = register(&mut m, "a");
    m.start_phase(map_ops(1));
    match m.next_action() {
        SchedulerAction::Run { worker_id, .. } => assert!(m.operation_failed(worker_id)),
        _ => panic!("expected a dispatch"),
    }
    assert!(!m.operation_failed(w));
    assert!(matches!(m.next_action(), SchedulerAction::NoWorkers));
    assert_eq!(m.completed_operations(), 0);
}

#[test]
fn empty_phase_is_complete_at_once() {
    let mut m = Master::new_master(1);
    m.start_phase(Vec::new());
    assert!(matches!(m.next_action(), SchedulerAction::PhaseComplete));
    assert!(!m.operation_succeeded(0));
}

#[test]
fn reduce_phase_follows_the_map_barrier() {
    let mut m = Master::new_master(2);
    let w = register(&mut m, "a");
    m.start_phase(map_ops(1));
    if let SchedulerAction::Run { worker_id, .. } = m.next_action() {
        assert!(m.operation_succeeded(worker_id));
    }
    assert!(matches!(m.next_action(), SchedulerAction::PhaseComplete));
    let reduces: Vec<Operation> = (0..2)
        .map(|r| Operation::new(OperationKind::RunReduce, r, format!("reduce/reduce-{}", r)))
        .collect();
    m.start_phase(reduces);
    match m.next_action() {
        SchedulerAction::Run { worker_id, operation } => {
            assert_eq!(worker_id, w);
            assert_eq!(operation.kind, OperationKind::RunReduce);
            assert_eq!(operation.id, 0);
        }
        _ => panic!("expected a dispatch"),
    }
}

#[test]
fn master_waits_for_the_first_worker() {
    let mut m = Master::new_master(1);
    m.start_phase(map_ops(2));
    assert!(matches!(m.next_action(), SchedulerAction::Wait));
    let w = register(&mut m, "late");
    match m.next_action() {
        SchedulerAction::Run { worker_id, operation } => {
            assert_eq!(worker_id, w);
            assert_eq!(operation.id, 0);
        }
        _ => panic!("expected a dispatch"),
    }
}
