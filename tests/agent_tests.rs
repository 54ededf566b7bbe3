use mapreduce::word_count::WordCount;
use mapreduce::common::{OperationKind, RegisterReply};
use mapreduce::display::{extract_file_name_from_path, NodeStatus, NodeType};
use mapreduce::worker::{Worker, WorkerState, REGISTER_RETRY_SECS};

#[test]
fn worker_life_cycle() {
    let mut w = Worker::new_worker(0, "host-a".to_string(), "http://master".to_string(), WordCount);
    assert_eq!(w.state, WorkerState::Unregistered);
    assert!(!w.start_operation(OperationKind::RunMap));
    let args = w.register().unwrap();
    assert_eq!(args.worker_hostname, "host-a");
    assert_eq!(w.state, WorkerState::Registering);
    assert_eq!(w.registration_failed(), REGISTER_RETRY_SECS);
    assert!(w.register().is_some());
    assert!(!w.registered(RegisterReply { worker_id: 3, reduce_jobs: 0 }));
    assert!(w.registered(RegisterReply { worker_id: 3, reduce_jobs: 4 }));
    assert_eq!(w.id, 3);
    assert_eq!(w.task.num_reduce_jobs, 4);
    assert_eq!(w.state, WorkerState::Idle);
    assert!(w.register().is_none());
    assert!(w.start_operation(OperationKind::RunMap));
    assert_eq!(w.state, WorkerState::Running { kind: OperationKind::RunMap });
    assert!(!w.start_operation(OperationKind::RunReduce));
    assert!(w.finish_operation());
    assert!(!w.finish_operation());
    w.done();
    assert_eq!(w.state, WorkerState::Done);
    assert!(!w.start_operation(OperationKind::RunReduce));
}

#[test]
fn worker_map_and_reduce_work() {
    let mut w = Worker::new_worker(0, "h".to_string(), "m".to_string(), WordCount);
    w.register();
    assert!(w.registered(RegisterReply { worker_id: 0, reduce_jobs: 2 }));
    let shards = w.map_shards(&b"x y x".to_vec());
    assert_eq!(shards.len(), 2);
    let all: Vec<_> = shards.into_iter().flatten().collect();
    assert_eq!(all.len(), 3);
    let reduced = w.reduce_records(all).unwrap();
    let mut got: Vec<(String, String)> = reduced.iter().map(|kv| (kv.key.clone(), kv.value.clone())).collect();
    got.sort();
    assert_eq!(got, vec![("x".to_string(), "2".to_string()), ("y".to_string(), "1".to_string())]);
}

#[test]
fn file_name_from_path() {
    assert_eq!(extract_file_name_from_path(&Some("files/pg1342.txt".to_string())), "pg1342.txt");
    assert_eq!(extract_file_name_from_path(&Some("/a/b/".to_string())), "");
    assert_eq!(extract_file_name_from_path(&Some("plain".to_string())), "plain");
    assert_eq!(extract_file_name_from_path(&None), "");
}

#[test]
fn display_values() {
    assert_ne!(NodeStatus::Failed, NodeStatus::Finished);
    assert_eq!(NodeStatus::Default, NodeStatus::Default);
    assert_ne!(NodeType::MapNode, NodeType::ReduceNode);
}

#[test]
fn worker_rejects_records_without_counts() {
    let w = Worker::new_worker(0, "h".to_string(), "m".to_string(), WordCount);
    let bad = vec![mapreduce::common::KeyValue::new("x".to_string(), "one".to_string())];
    assert!(w.reduce_records(bad).is_none());
}
