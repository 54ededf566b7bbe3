//! The single-process pipeline: map every chunk, spread each map's records
//! over the buckets, merge each bucket in map order and reduce it. It is the
//! reference the distributed run is held to.
use vstd::prelude::*;
use vstd::utf8::valid_utf8;
use crate::common::{Job, KeyValue, Record, Task, records_view};
use crate::data::{bucket_records, lemma_records_push, merged_bucket, store_local};

verus! {

/// The records that the maps produce from the chunks, one sequence per map.
pub open spec fn map_outputs<J: Job>(job: J, chunks: Seq<Seq<u8>>) -> Seq<Seq<Record>> {
    chunks.map_values(|c: Seq<u8>| job.map_spec(c))
}

/// What the pipeline produces for each of the `n` buckets: the reduce of the
/// bucket's merged records.
pub open spec fn sequential_spec<J: Job>(job: J, chunks: Seq<Seq<u8>>, n: int) -> Seq<Seq<Record>> {
    Seq::new(n as nat, |r: int| job.reduce_spec(merged_bucket(job, map_outputs(job, chunks), n, r)))
}

/// Every chunk is text.
pub open spec fn chunks_are_text(chunks: Seq<Vec<u8>>) -> bool {
    forall|m: int| 0 <= m < chunks.len() ==> valid_utf8(#[trigger] chunks[m]@)
}

/// Whether the reduce is defined on the merged records of every bucket.
pub open spec fn sequential_defined<J: Job>(job: J, chunks: Seq<Seq<u8>>, n: int) -> bool {
    forall|b: int|
        0 <= b < n ==> #[trigger] job.reduce_accepts(merged_bucket(job, map_outputs(job, chunks), n, b))
}

/// Runs the whole job in this process: entry `r` of the result is what the
/// reduce of bucket `r` writes. Fails, with `None`, exactly when the reduce
/// is not defined on the merged records of some bucket.
pub fn run_sequential<J: Job>(task: &Task<J>, chunks: &Vec<Vec<u8>>) -> (r: Option<Vec<Vec<KeyValue>>>)
    requires
        task.wf(),
        chunks_are_text(chunks@),
    ensures
        r is Some <==> sequential_defined(
            task.job,
            chunks@.map_values(|c: Vec<u8>| c@),
            task.num_reduce_jobs as int,
        ),
        r is Some ==> r->Some_0@.len() == task.num_reduce_jobs,
        r is Some ==> forall|b: int|
            0 <= b < r->Some_0@.len() ==> records_view(#[trigger] r->Some_0@[b]@) == sequential_spec(
                task.job,
                chunks@.map_values(|c: Vec<u8>| c@),
                task.num_reduce_jobs as int,
            )[b],
{
    let ghost n = task.num_reduce_jobs as int;
    let ghost inputs = chunks@.map_values(|c: Vec<u8>| c@);
    let ghost outputs = map_outputs(task.job, inputs);
    let mut shards: Vec<Vec<Vec<KeyValue>>> = Vec::new();
    let mut m: usize = 0;
    while m < chunks.len()
        invariant
            task.wf(),
            n == task.num_reduce_jobs,
            inputs == chunks@.map_values(|c: Vec<u8>| c@),
            outputs == map_outputs(task.job, inputs),
            chunks_are_text(chunks@),
            m <= chunks@.len(),
            shards@.len() == m,
            forall|k: int| 0 <= k < m ==> (#[trigger] shards@[k])@.len() == n,
            forall|k: int, b: int|
                0 <= k < m && 0 <= b < n ==> records_view((#[trigger] shards@[k]@[b])@)
                    == bucket_records(task.job, outputs[k], n, b),
        decreases chunks@.len() - m,
    {
        let out = task.job.map(&chunks[m]);
        let stored = store_local(task, &out);
        proof {
            assert(outputs[m as int] == task.job.map_spec(chunks@[m as int]@));
        }
        shards.push(stored);
        m = m + 1;
    }
    let mut results: Vec<Vec<KeyValue>> = Vec::new();
    let mut b: i32 = 0;
    while b < task.num_reduce_jobs
        invariant
            task.wf(),
            n == task.num_reduce_jobs,
            inputs == chunks@.map_values(|c: Vec<u8>| c@),
            outputs == map_outputs(task.job, inputs),
            outputs.len() == shards@.len(),
            forall|k: int| 0 <= k < shards@.len() ==> (#[trigger] shards@[k])@.len() == n,
            forall|k: int, c: int|
                0 <= k < shards@.len() && 0 <= c < n ==> records_view((#[trigger] shards@[k]@[c])@)
                    == bucket_records(task.job, outputs[k], n, c),
            0 <= b <= n,
            results@.len() == b,
            forall|c: int|
                0 <= c < b ==> records_view(#[trigger] results@[c]@) == sequential_spec(task.job, inputs, n)[c],
            forall|c: int|
                0 <= c < b ==> #[trigger] task.job.reduce_accepts(
                    merged_bucket(task.job, outputs, n, c),
                ),
        decreases n - b,
    {
        let mut merged: Vec<KeyValue> = Vec::new();
        let mut k: usize = 0;
        while k < shards.len()
            invariant
                n == task.num_reduce_jobs,
                0 <= b < n,
                outputs.len() == shards@.len(),
                forall|k: int| 0 <= k < shards@.len() ==> (#[trigger] shards@[k])@.len() == n,
                forall|k: int, c: int|
                    0 <= k < shards@.len() && 0 <= c < n ==> records_view(
                        (#[trigger] shards@[k]@[c])@,
                    ) == bucket_records(task.job, outputs[k], n, c),
                k <= shards@.len(),
                records_view(merged@) == merged_bucket(task.job, outputs.take(k as int), n, b as int),
            decreases shards@.len() - k,
        {
            let shard = &shards[k][b as usize];
            let ghost before = merged@;
            let mut j: usize = 0;
            while j < shard.len()
                invariant
                    j <= shard@.len(),
                    records_view(merged@) == records_view(before) + records_view(shard@).take(
                        j as int,
                    ),
                decreases shard@.len() - j,
            {
                let copy = shard[j].duplicate();
                proof {
                    lemma_records_push(merged@, copy);
                    assert(records_view(shard@).take(j + 1) =~= records_view(shard@).take(
                        j as int,
                    ).push(copy@));
                }
                merged.push(copy);
                j = j + 1;
            }
            proof {
                assert(records_view(shard@).take(shard@.len() as int) =~= records_view(shard@));
                lemma_merged_bucket_step(task.job, outputs, n, b as int, k as int);
            }
            k = k + 1;
        }
        proof {
            assert(outputs.take(outputs.len() as int) =~= outputs);
        }
        if !task.job.accepts(&merged) {
            return None;
        }
        task.job.reduce(&mut merged);
        results.push(merged);
        b = b + 1;
    }
    Some(results)
}

/// The merged records of a bucket grow by one map's records at a time.
proof fn lemma_merged_bucket_step<J: Job>(job: J, outputs: Seq<Seq<Record>>, n: int, r: int, k: int)
    requires
        0 <= k < outputs.len(),
    ensures
        merged_bucket(job, outputs.take(k + 1), n, r) == merged_bucket(job, outputs.take(k), n, r)
            + bucket_records(job, outputs[k], n, r),
{
    let fb = |o: Seq<Record>| bucket_records(job, o, n, r);
    assert(outputs.take(k + 1).map_values(fb) =~= outputs.take(k).map_values(fb).push(
        bucket_records(job, outputs[k], n, r),
    ));
    outputs.take(k).map_values(fb).lemma_flatten_push(bucket_records(job, outputs[k], n, r));
}

} // verus!
