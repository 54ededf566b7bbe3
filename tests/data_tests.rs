use mapreduce::word_count::WordCount;
use mapreduce::common::{KeyValue, Task};
use mapreduce::data::{
    after_failed_open, frame_lines, map_file_name, map_file_names, merge_contents, merge_reduce_name,
    merged_path, merged_paths, reduce_name, result_file_name, result_file_names, shard_path,
    shard_paths_of_bucket, split_lines, store_local,
    OpenStep, FINAL_RESULT_PATH, OPEN_FILE_MAX_RETRY,
};
use mapreduce::word_count::shuffle_func;

#[test]
fn file_names() {
    assert_eq!(merge_reduce_name(3), "reduce-3");
    assert_eq!(reduce_name(12, 0), "reduce-12-0");
    assert_eq!(map_file_name(7), "map/map-7");
    assert_eq!(result_file_name(42), "result/result-42");
    assert_eq!(shard_path(1, 2), "reduce/reduce-1-2");
    assert_eq!(merged_path(5), "reduce/reduce-5");
    assert_eq!(merge_reduce_name(-4), "reduce--4");
    assert_eq!(map_file_name(1234567), "map/map-1234567");
    assert_eq!(FINAL_RESULT_PATH, "result/result-final.txt");
}

#[test]
fn path_lists() {
    assert_eq!(map_file_names(3), vec!["map/map-0", "map/map-1", "map/map-2"]);
    assert!(map_file_names(0).is_empty());
    assert!(map_file_names(-2).is_empty());
    assert_eq!(merged_paths(2), vec!["reduce/reduce-0", "reduce/reduce-1"]);
}

#[test]
fn store_local_partitions_by_shuffle() {
    let task = Task::with_jobs(WordCount, 3, 1);
    let words = ["a", "b", "c", "d", "e", "a", "f"];
    let data: Vec<KeyValue> = words.iter().map(|w| KeyValue::new(w.to_string(), "1".to_string())).collect();
    let shards = store_local(&task, &data);
    assert_eq!(shards.len(), 3);
    let total: usize = shards.iter().map(|s| s.len()).sum();
    assert_eq!(total, words.len());
    for (b, shard) in shards.iter().enumerate() {
        for kv in shard {
            assert_eq!(shuffle_func(&task, kv.key.clone()), b as i32);
        }
        let expected: Vec<&str> = words
            .iter()
            .cloned()
            .filter(|w| shuffle_func(&task, w.to_string()) == b as i32)
            .collect();
        let got: Vec<&str> = shard.iter().map(|kv| kv.key.as_str()).collect();
        assert_eq!(got, expected);
    }
}

#[test]
fn merge_concatenates_in_order() {
    let parts = vec![b"ab\n".to_vec(), Vec::new(), b"c\n".to_vec()];
    assert_eq!(merge_contents(&parts), b"ab\nc\n".to_vec());
    assert!(merge_contents(&Vec::new()).is_empty());
}

#[test]
fn frame_and_split_round_trip() {
    let lines = vec![b"{\"key\":\"a\"}".to_vec(), Vec::new(), b"x".to_vec()];
    let framed = frame_lines(&lines);
    assert_eq!(framed, b"{\"key\":\"a\"}\n\nx\n".to_vec());
    assert_eq!(split_lines(&framed), lines);
}

#[test]
fn split_keeps_an_unterminated_last_line() {
    assert_eq!(split_lines(&b"a\nb".to_vec()), vec![b"a".to_vec(), b"b".to_vec()]);
    assert!(split_lines(&Vec::new()).is_empty());
}

#[test]
fn store_merge_load_keeps_every_record_once() {
    let task = Task::with_jobs(WordCount, 2, 2);
    let map0: Vec<KeyValue> = ["x", "y", "x"].iter().map(|w| KeyValue::new(w.to_string(), "1".to_string())).collect();
    let map1: Vec<KeyValue> = ["y", "z"].iter().map(|w| KeyValue::new(w.to_string(), "1".to_string())).collect();
    let shards0 = store_local(&task, &map0);
    let shards1 = store_local(&task, &map1);
    let mut loaded_total = 0;
    for r in 0..2usize {
        let encode = |s: &Vec<KeyValue>| -> Vec<Vec<u8>> { s.iter().map(|kv| kv.key.as_bytes().to_vec()).collect() };
        let merged = merge_contents(&vec![frame_lines(&encode(&shards0[r])), frame_lines(&encode(&shards1[r]))]);
        let loaded = split_lines(&merged);
        let mut expected: Vec<Vec<u8>> = Vec::new();
        for kv in map0.iter().chain(map1.iter()) {
            if shuffle_func(&task, kv.key.clone()) == r as i32 {
                expected.push(kv.key.as_bytes().to_vec());
            }
        }
        assert_eq!(loaded, expected);
        loaded_total += loaded.len();
    }
    assert_eq!(loaded_total, 5);
}

#[test]
fn open_retry_policy() {
    assert_eq!(OPEN_FILE_MAX_RETRY, 3);
    assert_eq!(after_failed_open(0), OpenStep::Retry);
    assert_eq!(after_failed_open(2), OpenStep::Retry);
    assert_eq!(after_failed_open(3), OpenStep::GiveUp);
    assert_eq!(after_failed_open(200), OpenStep::GiveUp);
}

#[test]
fn bucket_and_result_path_lists() {
    assert_eq!(shard_paths_of_bucket(3, 1), vec!["reduce/reduce-0-1", "reduce/reduce-1-1", "reduce/reduce-2-1"]);
    assert!(shard_paths_of_bucket(0, 4).is_empty());
    assert_eq!(result_file_names(2), vec!["result/result-0", "result/result-1"]);
}
