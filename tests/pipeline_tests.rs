use mapreduce::word_count::WordCount;
use mapreduce::common::Task;
use mapreduce::sequential::run_sequential;
use mapreduce::split::split_text;

fn counts(result: &[Vec<mapreduce::common::KeyValue>]) -> Vec<(String, String)> {
    let mut out: Vec<(String, String)> = result
        .iter()
        .flat_map(|b| b.iter().map(|kv| (kv.key.clone(), kv.value.clone())))
        .collect();
    out.sort();
    out
}

#[test]
fn sequential_a_b_a() {
    let task = Task::with_jobs(WordCount, 1, 1);
    let chunks = split_text("a b a", 100);
    assert_eq!(chunks.len(), 1);
    let result = run_sequential(&task, &chunks).unwrap();
    assert_eq!(result.len(), 1);
    assert_eq!(
        counts(&result),
        vec![("a".to_string(), "2".to_string()), ("b".to_string(), "1".to_string())]
    );
}

#[test]
fn sequential_matches_across_chunkings_and_buckets() {
    let text = "The cat saw the other cat. The end, the END!";
    let expected = vec![
        ("cat".to_string(), "2".to_string()),
        ("end".to_string(), "2".to_string()),
        ("other".to_string(), "1".to_string()),
        ("saw".to_string(), "1".to_string()),
        ("the".to_string(), "4".to_string()),
    ];
    for size in [3usize, 8, 1000].iter() {
        for n in 1..5 {
            let task = Task::with_jobs(WordCount, n, 1);
            let result = run_sequential(&task, &split_text(text, *size)).unwrap();
            assert_eq!(result.len(), n as usize);
            assert_eq!(counts(&result), expected);
        }
    }
}

#[test]
fn sequential_of_no_chunks_gives_empty_buckets() {
    let task = Task::with_jobs(WordCount, 3, 0);
    let result = run_sequential(&task, &Vec::new()).unwrap();
    assert_eq!(result.len(), 3);
    assert!(result.iter().all(|b| b.is_empty()));
}
