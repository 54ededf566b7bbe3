//! The reference job: count how often each word occurs.
//!
//! `map_func` turns a chunk of text into one `(word, "1")` record per
//! whitespace-separated word, `shuffle_func` routes a key to a reduce bucket
//! by its hash, and `reduce_func` groups the records of a bucket by key and
//! counts them.
use vstd::prelude::*;
use vstd::utf8::*;
use crate::common::{Job, KeyValue, Record, Task, records_view};
use crate::data::lemma_records_push;
use crate::text::{
    ascii_space_byte, count_to_string, decimal, decimal_value, is_ascii_space_byte, is_decimal,
    lemma_decimal_round_trip, parse_count,
};

verus! {

/// The words of a byte string: its maximal runs of bytes that are not ASCII
/// whitespace, in order.
pub open spec fn words(s: Seq<u8>) -> Seq<Seq<u8>>
    decreases s.len(),
{
    if s.len() == 0 {
        seq![]
    } else {
        let prev = words(s.drop_last());
        let b = s.last();
        if is_ascii_space_byte(b) {
            prev
        } else if s.len() > 1 && !is_ascii_space_byte(s[s.len() - 2]) {
            prev.update(prev.len() - 1, prev.last().push(b))
        } else {
            prev.push(seq![b])
        }
    }
}

/// The record that the map emits for one word.
pub open spec fn word_record(w: Seq<u8>) -> Record {
    (decode_utf8(w), seq!['1'])
}

/// What the word-count map produces from a chunk.
pub open spec fn map_spec(buffer: Seq<u8>) -> Seq<Record> {
    words(buffer).map_values(|w: Seq<u8>| word_record(w))
}

/// How many records of `recs` have key `k`.
pub open spec fn key_count(recs: Seq<Record>, k: Seq<char>) -> nat
    decreases recs.len(),
{
    if recs.len() == 0 {
        0
    } else {
        key_count(recs.drop_last(), k) + if recs.last().0 == k {
            1nat
        } else {
            0nat
        }
    }
}

/// The keys of `recs`, each once, in the order of their first occurrence.
pub open spec fn distinct_keys(recs: Seq<Record>) -> Seq<Seq<char>>
    decreases recs.len(),
{
    if recs.len() == 0 {
        seq![]
    } else {
        let prev = distinct_keys(recs.drop_last());
        if prev.contains(recs.last().0) {
            prev
        } else {
            prev.push(recs.last().0)
        }
    }
}

/// The sum of the values, read as decimal counts, of the records of `recs`
/// with key `k`.
pub open spec fn key_sum(recs: Seq<Record>, k: Seq<char>) -> nat
    decreases recs.len(),
{
    if recs.len() == 0 {
        0
    } else {
        key_sum(recs.drop_last(), k) + if recs.last().0 == k {
            decimal_value(recs.last().1)
        } else {
            0nat
        }
    }
}

/// The sum of the values of all records of `recs`, read as decimal counts.
pub open spec fn value_total(recs: Seq<Record>) -> nat
    decreases recs.len(),
{
    if recs.len() == 0 {
        0
    } else {
        value_total(recs.drop_last()) + decimal_value(recs.last().1)
    }
}

/// The records the word-count reduce takes: every value is a count written
/// in decimal, and all the counts together fit in 64 bits.
pub open spec fn counts_ok(recs: Seq<Record>) -> bool {
    &&& forall|i: int| 0 <= i < recs.len() ==> is_decimal(#[trigger] recs[i].1)
    &&& value_total(recs) <= u64::MAX
}

/// What the word-count reduce produces: one record per distinct key, whose
/// value is the sum of that key's counts, in decimal.
pub open spec fn reduce_spec(recs: Seq<Record>) -> Seq<Record> {
    distinct_keys(recs).map_values(|k: Seq<char>| (k, decimal(key_sum(recs, k))))
}

/// The hash that routes a key; a function of the key's text alone.
pub uninterp spec fn default_hash(key: Seq<char>) -> u64;

/// The reduce bucket of a key when there are `n` buckets.
pub open spec fn bucket_of(key: Seq<char>, n: int) -> int {
    default_hash(key) as int % n
}

/// Relies on std's `BuildHasher::hash_one` over `BuildHasherDefault<DefaultHasher>`:
/// every `DefaultHasher::new()` starts in the same state, so the hash of a
/// string depends on its characters alone.
#[verifier::external_body]
fn hash_key(key: &String) -> (r: u64)
    ensures
        r == default_hash(key@),
{
    std::hash::BuildHasher::hash_one(
        &std::hash::BuildHasherDefault::<std::collections::hash_map::DefaultHasher>::default(),
        key,
    )
}

/// Relies on std's `String::from_utf8`: it succeeds exactly on valid UTF-8
/// and then holds the characters those bytes encode.
#[verifier::external_body]
fn utf8_string(bytes: Vec<u8>) -> (r: Option<String>)
    ensures
        r is Some <==> valid_utf8(bytes@),
        r is Some ==> r->Some_0@ == decode_utf8(bytes@),
{
    String::from_utf8(bytes).ok()
}

/// A stretch of a valid UTF-8 string that is bounded by ASCII bytes (or by
/// the ends) is valid UTF-8 itself.
proof fn lemma_ascii_bounded_valid(s: Seq<u8>, a: int, b: int)
    requires
        valid_utf8(s),
        0 <= a <= b <= s.len(),
        a == 0 || s[a - 1] < 128,
        b == s.len() || s[b] < 128,
    ensures
        valid_utf8(s.subrange(a, b)),
{
    let t = s.subrange(a, s.len() as int);
    if a > 0 {
        is_char_boundary_iff_not_is_continuation_byte(s, a - 1);
        valid_utf8_split(s, a - 1);
        let u = s.subrange(a - 1, s.len() as int);
        assert(valid_utf8(u));
        assert(pop_first_scalar(u) =~= t);
    } else {
        assert(t =~= s);
    }
    if b < s.len() {
        is_char_boundary_iff_not_is_continuation_byte(t, b - a);
        valid_utf8_split(t, b - a);
        assert(t.subrange(0, b - a) =~= s.subrange(a, b));
    } else {
        assert(t =~= s.subrange(a, b));
    }
}

/// One step of `words`: how the words of a prefix grow by one byte.
proof fn lemma_words_step(s: Seq<u8>, i: int)
    requires
        0 <= i < s.len(),
    ensures
        words(s.take(i + 1)) == if is_ascii_space_byte(s[i]) {
            words(s.take(i))
        } else if i > 0 && !is_ascii_space_byte(s[i - 1]) {
            words(s.take(i)).update(
                words(s.take(i)).len() - 1,
                words(s.take(i)).last().push(s[i]),
            )
        } else {
            words(s.take(i)).push(seq![s[i]])
        },
{
    assert(s.take(i + 1).drop_last() =~= s.take(i));
}

/// Appending the record of one more word keeps the records in step with the
/// words.
proof fn lemma_push_record(rs: Seq<KeyValue>, kv: KeyValue, ws: Seq<Seq<u8>>, w: Seq<u8>)
    requires
        records_view(rs) == ws.map_values(|w: Seq<u8>| word_record(w)),
        kv@ == word_record(w),
    ensures
        records_view(rs.push(kv)) == ws.push(w).map_values(|w: Seq<u8>| word_record(w)),
{
    let lhs = records_view(rs.push(kv));
    let rhs = ws.push(w).map_values(|w: Seq<u8>| word_record(w));
    assert(records_view(rs).len() == ws.map_values(|w: Seq<u8>| word_record(w)).len());
    assert(lhs.len() == rhs.len());
    assert forall|k: int| 0 <= k < lhs.len() implies lhs[k] == rhs[k] by {
        if k < rs.len() {
            assert(rs.push(kv)[k] == rs[k]);
            assert(records_view(rs)[k] == ws.map_values(|w: Seq<u8>| word_record(w))[k]);
            assert(ws.push(w)[k] == ws[k]);
        }
    }
    assert(lhs =~= rhs);
}

/// The record of the word `buffer[start..end]`, which ASCII bytes (or the
/// ends of the buffer) bound on both sides.
fn word_at(buffer: &Vec<u8>, start: usize, end: usize) -> (r: KeyValue)
    requires
        valid_utf8(buffer@),
        start <= end <= buffer@.len(),
        start == 0 || is_ascii_space_byte(buffer@[start - 1]),
        end == buffer@.len() || is_ascii_space_byte(buffer@[end as int]),
    ensures
        r@ == word_record(buffer@.subrange(start as int, end as int)),
{
    proof {
        lemma_ascii_bounded_valid(buffer@, start as int, end as int);
        reveal_strlit("1");
    }
    let bytes = vstd::slice::slice_to_vec(vstd::slice::slice_subrange(buffer.as_slice(), start, end));
    let key = match utf8_string(bytes) {
        Some(k) => k,
        None => {
            proof {
                assert(false);
            }
            String::new()
        },
    };
    KeyValue { key, value: String::from_str("1") }
}

/// The words of the chunk, each as a `(word, "1")` record, in order.
pub fn map_func(buffer: &Vec<u8>) -> (r: Vec<KeyValue>)
    requires
        valid_utf8(buffer@),
    ensures
        records_view(r@) == map_spec(buffer@),
{
    let n = buffer.len();
    let mut result: Vec<KeyValue> = Vec::new();
    let mut start: usize = 0;
    let mut in_word = false;
    let ghost done: Seq<Seq<u8>> = seq![];
    let mut i: usize = 0;
    while i < n
        invariant
            n == buffer@.len(),
            valid_utf8(buffer@),
            i <= n,
            in_word ==> start < i,
            in_word ==> (start == 0 || is_ascii_space_byte(buffer@[start - 1])),
            !in_word ==> (i == 0 || is_ascii_space_byte(buffer@[i - 1])),
            in_word ==> !is_ascii_space_byte(buffer@[i - 1]),
            words(buffer@.take(i as int)) == if in_word {
                done.push(buffer@.subrange(start as int, i as int))
            } else {
                done
            },
            records_view(result@) == done.map_values(|w: Seq<u8>| word_record(w)),
        decreases n - i,
    {
        let b = buffer[i];
        proof {
            lemma_words_step(buffer@, i as int);
        }
        if ascii_space_byte(b) {
            if in_word {
                let kv = word_at(buffer, start, i);
                proof {
                    lemma_push_record(result@, kv, done, buffer@.subrange(start as int, i as int));
                    done = done.push(buffer@.subrange(start as int, i as int));
                }
                result.push(kv);
                in_word = false;
            }
        } else if !in_word {
            start = i;
            in_word = true;
            proof {
                assert(buffer@.subrange(i as int, i + 1) =~= seq![b]);
            }
        } else {
            proof {
                let cur = buffer@.subrange(start as int, i as int);
                assert(cur.push(b) =~= buffer@.subrange(start as int, i + 1));
                assert(done.push(cur).update(done.len() as int, cur.push(b)) =~= done.push(
                    cur.push(b),
                ));
            }
        }
        i = i + 1;
    }
    if in_word {
        let kv = word_at(buffer, start, n);
        proof {
            lemma_push_record(result@, kv, done, buffer@.subrange(start as int, n as int));
            done = done.push(buffer@.subrange(start as int, n as int));
        }
        result.push(kv);
    }
    proof {
        assert(buffer@.take(n as int) =~= buffer@);
    }
    result
}

/// The position of `key` among `keys`, if it is there.
fn find_key(keys: &Vec<String>, key: &String) -> (r: Option<usize>)
    ensures
        r is Some ==> r->Some_0 < keys@.len() && keys@[r->Some_0 as int]@ == key@,
        r is None ==> forall|t: int| 0 <= t < keys@.len() ==> keys@[t]@ != key@,
{
    let mut j: usize = 0;
    while j < keys.len()
        invariant
            j <= keys@.len(),
            forall|t: int| 0 <= t < j ==> keys@[t]@ != key@,
        decreases keys@.len() - j,
    {
        if keys[j] == *key {
            return Some(j);
        }
        j = j + 1;
    }
    None
}

/// One step of `distinct_keys`, `key_count`, `key_sum` and `value_total`:
/// how they grow by one record.
proof fn lemma_reduce_step(recs: Seq<Record>, i: int)
    requires
        0 <= i < recs.len(),
    ensures
        distinct_keys(recs.take(i + 1)) == if distinct_keys(recs.take(i)).contains(recs[i].0) {
            distinct_keys(recs.take(i))
        } else {
            distinct_keys(recs.take(i)).push(recs[i].0)
        },
        forall|k: Seq<char>|
            #[trigger] key_count(recs.take(i + 1), k) == key_count(recs.take(i), k) + if recs[i].0
                == k {
                1nat
            } else {
                0nat
            },
        forall|k: Seq<char>|
            #[trigger] key_sum(recs.take(i + 1), k) == key_sum(recs.take(i), k) + if recs[i].0
                == k {
                decimal_value(recs[i].1)
            } else {
                0nat
            },
        value_total(recs.take(i + 1)) == value_total(recs.take(i)) + decimal_value(recs[i].1),
{
    assert(recs.take(i + 1).drop_last() =~= recs.take(i));
}

/// The counts of a prefix add up to no more than those of the whole.
proof fn lemma_total_prefix(recs: Seq<Record>, i: int)
    requires
        0 <= i <= recs.len(),
    ensures
        value_total(recs.take(i)) <= value_total(recs),
    decreases recs.len() - i,
{
    if i < recs.len() {
        lemma_reduce_step(recs, i);
        lemma_total_prefix(recs, i + 1);
    } else {
        assert(recs.take(i) =~= recs);
    }
}

/// The counts of one key add up to no more than all the counts.
proof fn lemma_key_sum_le_total(recs: Seq<Record>, k: Seq<char>)
    ensures
        key_sum(recs, k) <= value_total(recs),
    decreases recs.len(),
{
    if recs.len() > 0 {
        lemma_key_sum_le_total(recs.drop_last(), k);
    }
}

/// Whether the records are ones the word-count reduce takes: every value a
/// decimal count, all of them together within 64 bits.
pub fn counts_valid(records: &Vec<KeyValue>) -> (r: bool)
    ensures
        r == counts_ok(records_view(records@)),
{
    let ghost recs = records_view(records@);
    let mut total: u64 = 0;
    let mut i: usize = 0;
    while i < records.len()
        invariant
            recs == records_view(records@),
            i <= records@.len(),
            total == value_total(recs.take(i as int)),
            forall|j: int| 0 <= j < i ==> is_decimal(#[trigger] recs[j].1),
        decreases records@.len() - i,
    {
        proof {
            lemma_reduce_step(recs, i as int);
            lemma_total_prefix(recs, i + 1);
            assert(recs[i as int].1 == records@[i as int].value@);
        }
        let v = match parse_count(&records[i].value) {
            Some(v) => v,
            None => {
                return false;
            },
        };
        total = match total.checked_add(v) {
            Some(t) => t,
            None => {
                return false;
            },
        };
        i = i + 1;
    }
    proof {
        assert(recs.take(records@.len() as int) =~= recs);
    }
    true
}

/// Groups the records by key and replaces them with one record per distinct
/// key, in the order of first occurrence, whose value is the sum of that
/// key's counts.
pub fn reduce_func(inputs: &mut Vec<KeyValue>)
    requires
        counts_ok(records_view(old(inputs)@)),
    ensures
        records_view(final(inputs)@) == reduce_spec(records_view(old(inputs)@)),
{
    let ghost recs = records_view(inputs@);
    let n = inputs.len();
    let mut keys: Vec<String> = Vec::new();
    let mut sums: Vec<u64> = Vec::new();
    let mut i: usize = 0;
    while i < n
        invariant
            n == inputs@.len(),
            recs == records_view(inputs@),
            counts_ok(recs),
            i <= n,
            keys@.len() == sums@.len(),
            keys@.map_values(|k: String| k@) == distinct_keys(recs.take(i as int)),
            forall|j: int|
                0 <= j < keys@.len() ==> sums@[j] == key_sum(recs.take(i as int), keys@[j]@),
            forall|a: int, b: int| 0 <= a < b < keys@.len() ==> keys@[a]@ != keys@[b]@,
        decreases n - i,
    {
        proof {
            lemma_reduce_step(recs, i as int);
            lemma_total_prefix(recs, i + 1);
            assert(recs[i as int].0 == inputs@[i as int].key@);
            assert(recs[i as int].1 == inputs@[i as int].value@);
        }
        let v = match parse_count(&inputs[i].value) {
            Some(v) => v,
            None => {
                proof {
                    assert(is_decimal(recs[i as int].1));
                }
                0
            },
        };
        let ghost dk = distinct_keys(recs.take(i as int));
        match find_key(&keys, &inputs[i].key) {
            Some(j) => {
                proof {
                    assert(dk[j as int] == keys@[j as int]@);
                    assert(dk.contains(recs[i as int].0));
                    lemma_key_sum_le_total(recs.take(i + 1), keys@[j as int]@);
                }
                let c = sums[j];
                sums.set(j, c + v);
            },
            None => {
                proof {
                    assert(!dk.contains(recs[i as int].0)) by {
                        if dk.contains(recs[i as int].0) {
                            let t = choose|t: int| 0 <= t < dk.len() && dk[t] == recs[i as int].0;
                            assert(keys@[t]@ == dk[t]);
                        }
                    }
                }
                let ghost old_keys = keys@;
                keys.push(inputs[i].key.clone());
                sums.push(v);
                proof {
                    assert(keys@.map_values(|k: String| k@) =~= old_keys.map_values(
                        |k: String| k@,
                    ).push(recs[i as int].0));
                    lemma_key_absent(recs.take(i as int), recs[i as int].0);
                }
            },
        }
        i = i + 1;
    }
    proof {
        assert(recs.take(n as int) =~= recs);
    }
    let ghost dk = distinct_keys(recs);
    let mut result: Vec<KeyValue> = Vec::new();
    let mut j: usize = 0;
    while j < keys.len()
        invariant
            j <= keys@.len(),
            keys@.len() == sums@.len(),
            dk == distinct_keys(recs),
            keys@.map_values(|k: String| k@) == dk,
            forall|t: int| 0 <= t < keys@.len() ==> sums@[t] == key_sum(recs, keys@[t]@),
            records_view(result@) == reduce_spec(recs).take(j as int),
        decreases keys@.len() - j,
    {
        let kv = KeyValue { key: keys[j].clone(), value: count_to_string(sums[j]) };
        proof {
            assert(keys@.map_values(|k: String| k@).len() == keys@.len());
            assert(dk[j as int] == keys@[j as int]@);
            let f = |k: Seq<char>| (k, decimal(key_sum(recs, k)));
            assert(reduce_spec(recs) =~= dk.map_values(f));
            assert(dk.map_values(f)[j as int] == f(dk[j as int]));
            assert(reduce_spec(recs)[j as int] == kv@);
            lemma_records_push(result@, kv);
            assert(reduce_spec(recs).take(j + 1) =~= reduce_spec(recs).take(j as int).push(
                reduce_spec(recs)[j as int],
            ));
        }
        result.push(kv);
        j = j + 1;
    }
    proof {
        assert(reduce_spec(recs).take(j as int) =~= reduce_spec(recs));
    }
    *inputs = result;
}

/// A key that is not among the distinct keys has no records, and so no
/// counts.
proof fn lemma_key_absent(recs: Seq<Record>, k: Seq<char>)
    requires
        !distinct_keys(recs).contains(k),
    ensures
        key_count(recs, k) == 0,
        key_sum(recs, k) == 0,
    decreases recs.len(),
{
    if recs.len() > 0 {
        let prev = distinct_keys(recs.drop_last());
        if !prev.contains(recs.last().0) {
            assert(distinct_keys(recs) == prev.push(recs.last().0));
            assert(distinct_keys(recs)[prev.len() as int] == recs.last().0);
        }
        assert(!prev.contains(k)) by {
            if prev.contains(k) {
                let t = choose|t: int| 0 <= t < prev.len() && prev[t] == k;
                if !prev.contains(recs.last().0) {
                    assert(prev.push(recs.last().0)[t] == k);
                }
            }
        }
        lemma_key_absent(recs.drop_last(), k);
    }
}

/// The reduce bucket of `key`, in `[0, num_reduce_jobs)`, the same for every
/// process that computes it.
pub fn shuffle_func<J>(task: &Task<J>, key: String) -> (r: i32)
    requires
        task.wf(),
    ensures
        r as int == bucket_of(key@, task.num_reduce_jobs as int),
        0 <= r < task.num_reduce_jobs,
{
    bucket_of_key(&key, task.num_reduce_jobs)
}

fn bucket_of_key(key: &String, n: i32) -> (r: i32)
    requires
        n > 0,
    ensures
        r as int == bucket_of(key@, n as int),
        0 <= r < n,
{
    let h = hash_key(key);
    (h % (n as u64)) as i32
}

/// The word-count job.
#[derive(Clone, Copy, Debug, PartialEq, Eq, Structural)]
pub struct WordCount;

impl Job for WordCount {
    open spec fn map_spec(&self, chunk: Seq<u8>) -> Seq<Record> {
        map_spec(chunk)
    }

    open spec fn bucket_spec(&self, key: Seq<char>, n: int) -> int {
        bucket_of(key, n)
    }

    open spec fn reduce_spec(&self, records: Seq<Record>) -> Seq<Record> {
        reduce_spec(records)
    }

    open spec fn reduce_accepts(&self, records: Seq<Record>) -> bool {
        counts_ok(records)
    }

    proof fn lemma_bucket_range(&self, key: Seq<char>, n: int) {
    }

    fn accepts(&self, records: &Vec<KeyValue>) -> (r: bool) {
        counts_valid(records)
    }

    fn map(&self, chunk: &Vec<u8>) -> (r: Vec<KeyValue>) {
        map_func(chunk)
    }

    fn shuffle(&self, key: &String, num_reduce: i32) -> (r: i32) {
        bucket_of_key(key, num_reduce)
    }

    fn reduce(&self, records: &mut Vec<KeyValue>) {
        reduce_func(records)
    }
}

/// Routing is a pure function of the key and the number of buckets: equal
/// keys land in the same bucket, and every bucket lies in `[0, n)`.
pub proof fn lemma_shuffle_deterministic(k1: Seq<char>, k2: Seq<char>, n: int)
    requires
        n > 0,
    ensures
        0 <= bucket_of(k1, n) < n,
        k1 == k2 ==> bucket_of(k1, n) == bucket_of(k2, n),
{
}

/// The keys of a sequence of records, in order.
pub open spec fn keys_of(recs: Seq<Record>) -> Seq<Seq<char>> {
    recs.map_values(|r: Record| r.0)
}

/// What one record adds to the number of records with key `k`.
pub open spec fn count_of(r: Record, k: Seq<char>) -> nat {
    if r.0 == k {
        1
    } else {
        0
    }
}

/// What one record adds to the counts of key `k`.
pub open spec fn sum_of(r: Record, k: Seq<char>) -> nat {
    if r.0 == k {
        decimal_value(r.1)
    } else {
        0
    }
}

proof fn lemma_key_remove(s: Seq<Record>, i: int, k: Seq<char>)
    requires
        0 <= i < s.len(),
    ensures
        key_count(s, k) == key_count(s.remove(i), k) + count_of(s[i], k),
        key_sum(s, k) == key_sum(s.remove(i), k) + sum_of(s[i], k),
    decreases s.len(),
{
    if i == s.len() - 1 {
        assert(s.remove(i) =~= s.drop_last());
    } else {
        lemma_key_remove(s.drop_last(), i, k);
        assert(s.remove(i).drop_last() =~= s.drop_last().remove(i));
        assert(s.remove(i).last() == s.last());
    }
}

proof fn lemma_permuted_sums(a: Seq<Record>, b: Seq<Record>)
    requires
        a.to_multiset() == b.to_multiset(),
    ensures
        forall|k: Seq<char>| key_count(a, k) == key_count(b, k) && key_sum(a, k) == key_sum(b, k),
    decreases a.len(),
{
    broadcast use vstd::seq_lib::group_to_multiset_ensures;

    a.to_multiset_ensures();
    b.to_multiset_ensures();
    if a.len() == 0 {
        assert(b.len() == b.to_multiset().len());
        assert(b.len() == 0);
    } else {
        let x = a.last();
        let a1 = a.drop_last();
        assert(a1.push(x) =~= a);
        assert(a[a.len() - 1] == x);
        assert(a.contains(x));
        assert(a.to_multiset().count(x) > 0);
        assert(b.to_multiset().count(x) > 0);
        assert(b.contains(x));
        let i = choose|i: int| 0 <= i < b.len() && b[i] == x;
        let b1 = b.remove(i);
        assert(b1.to_multiset() =~= a1.to_multiset()) by {
            assert(b1.to_multiset() =~= b.to_multiset().remove(x));
            assert(a.to_multiset() =~= a1.to_multiset().insert(x));
        }
        lemma_permuted_sums(a1, b1);
        assert forall|k: Seq<char>| key_count(a, k) == key_count(b, k) && key_sum(a, k) == key_sum(
            b,
            k,
        ) by {
            lemma_key_remove(b, i, k);
        }
    }
}

proof fn lemma_distinct_keys(recs: Seq<Record>)
    ensures
        distinct_keys(recs).no_duplicates(),
        forall|k: Seq<char>| #[trigger]
            distinct_keys(recs).contains(k) <==> key_count(recs, k) > 0,
    decreases recs.len(),
{
    if recs.len() > 0 {
        let prev = distinct_keys(recs.drop_last());
        let last = recs.last().0;
        lemma_distinct_keys(recs.drop_last());
        if !prev.contains(last) {
            let cur = prev.push(last);
            assert(cur.no_duplicates()) by {
                assert forall|i: int, j: int| 0 <= i < cur.len() && 0 <= j < cur.len() && i != j
                    implies cur[i] != cur[j] by {
                    if i < prev.len() && j < prev.len() {
                        assert(cur[i] == prev[i] && cur[j] == prev[j]);
                    } else if i < prev.len() {
                        assert(cur[i] == prev[i]);
                    } else {
                        assert(cur[j] == prev[j]);
                    }
                }
            }
            assert forall|k: Seq<char>| #[trigger] cur.contains(k) <==> (prev.contains(k) || k
                == last) by {
                if k == last {
                    assert(cur[prev.len() as int] == k);
                }
                if prev.contains(k) {
                    let t = choose|t: int| 0 <= t < prev.len() && prev[t] == k;
                    assert(cur[t] == k);
                }
                if cur.contains(k) && k != last {
                    let t = choose|t: int| 0 <= t < cur.len() && cur[t] == k;
                    assert(prev[t] == k);
                }
            }
        }
    }
}

proof fn lemma_reduce_contains(a: Seq<Record>)
    ensures
        forall|x: Record| #[trigger]
            reduce_spec(a).contains(x) <==> (key_count(a, x.0) > 0 && x.1 == decimal(
                key_sum(a, x.0),
            )),
        keys_of(reduce_spec(a)).no_duplicates(),
{
    lemma_distinct_keys(a);
    let dk = distinct_keys(a);
    let ra = reduce_spec(a);
    assert(keys_of(ra) =~= dk);
    assert forall|x: Record| #[trigger]
        ra.contains(x) <==> (dk.contains(x.0) && x.1 == decimal(key_sum(a, x.0))) by {
        if ra.contains(x) {
            let t = choose|t: int| 0 <= t < ra.len() && ra[t] == x;
            assert(dk[t] == x.0);
        }
        if dk.contains(x.0) && x.1 == decimal(key_sum(a, x.0)) {
            let t = choose|t: int| 0 <= t < dk.len() && dk[t] == x.0;
            assert(ra[t] == x);
        }
    }
}

/// The reduce does not depend on the order of its input: two inputs that
/// hold the same records, each as often, give the same output records, one
/// per key, perhaps in another order.
pub proof fn lemma_reduce_order_free(a: Seq<Record>, b: Seq<Record>)
    requires
        a.to_multiset() == b.to_multiset(),
    ensures
        forall|x: Record| #[trigger] reduce_spec(a).contains(x) <==> reduce_spec(b).contains(x),
        keys_of(reduce_spec(a)).no_duplicates(),
        keys_of(reduce_spec(b)).no_duplicates(),
{
    lemma_permuted_sums(a, b);
    lemma_reduce_contains(a);
    lemma_reduce_contains(b);
}

proof fn lemma_unique_keys(s: Seq<Record>)
    requires
        keys_of(s).no_duplicates(),
    ensures
        distinct_keys(s) == keys_of(s),
        forall|i: int| 0 <= i < s.len() ==> key_sum(s, #[trigger] s[i].0) == decimal_value(s[i].1),
    decreases s.len(),
{
    if s.len() == 0 {
        assert(keys_of(s) =~= Seq::<Seq<char>>::empty());
    } else {
        let s1 = s.drop_last();
        let x = s.last();
        assert(keys_of(s) =~= keys_of(s1).push(x.0));
        assert(keys_of(s1).no_duplicates()) by {
            assert forall|i: int, j: int| 0 <= i < keys_of(s1).len() && 0 <= j < keys_of(s1).len()
                && i != j implies keys_of(s1)[i] != keys_of(s1)[j] by {
                assert(keys_of(s1)[i] == keys_of(s)[i] && keys_of(s1)[j] == keys_of(s)[j]);
            }
        }
        lemma_unique_keys(s1);
        assert(!keys_of(s1).contains(x.0)) by {
            if keys_of(s1).contains(x.0) {
                let t = choose|t: int| 0 <= t < keys_of(s1).len() && keys_of(s1)[t] == x.0;
                assert(keys_of(s)[t] == keys_of(s)[s.len() - 1]);
            }
        }
        lemma_key_absent(s1, x.0);
        assert forall|i: int| 0 <= i < s.len() implies key_sum(s, #[trigger] s[i].0)
            == decimal_value(s[i].1) by {
            if i < s.len() - 1 {
                assert(s[i] == s1[i]);
                assert(keys_of(s)[i] != keys_of(s)[s.len() - 1]);
            }
        }
    }
}

/// Reducing the reduce's own output gives it back: each key is there once,
/// and its count is its sum.
pub proof fn lemma_reduce_idempotent(recs: Seq<Record>)
    ensures
        reduce_spec(reduce_spec(recs)) == reduce_spec(recs),
{
    let out = reduce_spec(recs);
    lemma_reduce_contains(recs);
    lemma_unique_keys(out);
    let dk = distinct_keys(recs);
    assert(keys_of(out) =~= dk);
    assert forall|i: int| 0 <= i < out.len() implies #[trigger] reduce_spec(out)[i] == out[i] by {
        assert(out[i] == (dk[i], decimal(key_sum(recs, dk[i]))));
        lemma_decimal_round_trip(key_sum(recs, dk[i]));
        assert(key_sum(out, out[i].0) == decimal_value(out[i].1));
    }
    assert(reduce_spec(out) =~= out);
}

} // verus!
