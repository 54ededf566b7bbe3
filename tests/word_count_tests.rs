use mapreduce::word_count::WordCount;
use mapreduce::common::{KeyValue, Task};
use mapreduce::word_count::{counts_valid, map_func, reduce_func, shuffle_func};
use mapreduce::text::parse_count;

fn kv(key: &str, value: &str) -> KeyValue {
    KeyValue::new(key.to_string(), value.to_string())
}

fn pairs(v: &[KeyValue]) -> Vec<(String, String)> {
    let mut out: Vec<(String, String)> = v.iter().map(|r| (r.key.clone(), r.value.clone())).collect();
    out.sort();
    out
}

#[test]
fn map_emits_one_record_per_word() {
    let out = map_func(&b"the cat\tsat\n\nthe  end ".to_vec());
    let keys: Vec<&str> = out.iter().map(|r| r.key.as_str()).collect();
    assert_eq!(keys, vec!["the", "cat", "sat", "the", "end"]);
    assert!(out.iter().all(|r| r.value == "1"));
}

#[test]
fn map_of_blank_input_is_empty() {
    assert!(map_func(&Vec::new()).is_empty());
    assert!(map_func(&b"  \n\t ".to_vec()).is_empty());
}

#[test]
fn map_keeps_non_ascii_words() {
    let out = map_func(&"über café".as_bytes().to_vec());
    let keys: Vec<&str> = out.iter().map(|r| r.key.as_str()).collect();
    assert_eq!(keys, vec!["über", "café"]);
}

#[test]
fn reduce_counts_the_the_cat() {
    let orders = [["the", "the", "cat"], ["the", "cat", "the"], ["cat", "the", "the"]];
    for order in orders.iter() {
        let mut records: Vec<KeyValue> = order.iter().map(|w| kv(w, "1")).collect();
        reduce_func(&mut records);
        assert_eq!(
            pairs(&records),
            vec![("cat".to_string(), "1".to_string()), ("the".to_string(), "2".to_string())]
        );
    }
}

#[test]
fn reduce_keeps_first_occurrence_order() {
    let mut records = vec![kv("b", "1"), kv("a", "1"), kv("b", "1")];
    reduce_func(&mut records);
    assert_eq!(records[0].key, "b");
    assert_eq!(records[0].value, "2");
    assert_eq!(records[1].key, "a");
    assert_eq!(records[1].value, "1");
}

#[test]
fn reduce_of_nothing_is_nothing() {
    let mut records: Vec<KeyValue> = Vec::new();
    reduce_func(&mut records);
    assert!(records.is_empty());
}

#[test]
fn reduce_counts_past_nine() {
    let mut records: Vec<KeyValue> = (0..12).map(|_| kv("x", "1")).collect();
    reduce_func(&mut records);
    assert_eq!(pairs(&records), vec![("x".to_string(), "12".to_string())]);
}

#[test]
fn shuffle_is_in_range_and_deterministic() {
    for n in 1..9 {
        let task = Task::with_jobs(WordCount, n, 1);
        for key in ["the", "cat", "", "a longer key", "über"].iter() {
            let b = shuffle_func(&task, key.to_string());
            assert!(0 <= b && b < n);
            assert_eq!(b, shuffle_func(&task, key.to_string()));
        }
    }
}

#[test]
fn shuffle_with_one_bucket_is_zero() {
    let task = Task::new_task(WordCount);
    assert_eq!(shuffle_func(&task, "anything".to_string()), 0);
}

#[test]
fn shuffle_spreads_keys() {
    let task = Task::with_jobs(WordCount, 16, 1);
    let words: Vec<String> = (0..64).map(|i| format!("word{}", i)).collect();
    let first = shuffle_func(&task, words[0].clone());
    assert!(words.iter().any(|w| shuffle_func(&task, w.clone()) != first));
}

#[test]
fn reduce_sums_counts() {
    let mut records = vec![kv("a", "2")];
    reduce_func(&mut records);
    assert_eq!(pairs(&records), vec![("a".to_string(), "2".to_string())]);
    let mut records = vec![kv("the", "2"), kv("cat", "10"), kv("the", "3"), kv("the", "007")];
    reduce_func(&mut records);
    assert_eq!(
        pairs(&records),
        vec![("cat".to_string(), "10".to_string()), ("the".to_string(), "12".to_string())]
    );
}

#[test]
fn reduce_of_its_own_output_is_unchanged() {
    let mut records = vec![kv("the", "1"), kv("cat", "1"), kv("the", "1")];
    reduce_func(&mut records);
    let once = pairs(&records);
    reduce_func(&mut records);
    assert_eq!(pairs(&records), once);
}

#[test]
fn counts_must_be_decimal_and_fit() {
    assert!(counts_valid(&vec![kv("a", "1"), kv("b", "0042")]));
    assert!(counts_valid(&Vec::new()));
    assert!(!counts_valid(&vec![kv("a", "")]));
    assert!(!counts_valid(&vec![kv("a", "1x")]));
    assert!(!counts_valid(&vec![kv("a", "-1")]));
    assert!(!counts_valid(&vec![kv("a", "18446744073709551615"), kv("b", "1")]));
    assert!(counts_valid(&vec![kv("a", "18446744073709551615")]));
}

#[test]
fn parse_counts() {
    assert_eq!(parse_count(&"0".to_string()), Some(0));
    assert_eq!(parse_count(&"12345".to_string()), Some(12345));
    assert_eq!(parse_count(&"18446744073709551615".to_string()), Some(u64::MAX));
    assert_eq!(parse_count(&"18446744073709551616".to_string()), None);
    assert_eq!(parse_count(&"".to_string()), None);
    assert_eq!(parse_count(&"4 2".to_string()), None);
}
