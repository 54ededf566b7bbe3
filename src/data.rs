//! The intermediate-data pipeline: where each file of a job lives, how the
//! records of one map are spread over the reduce buckets, how the shards of
//! a bucket are merged, and how a file of records is framed into lines.
//!
//! Reading and writing the files is the caller's; what goes into each file,
//! and what comes back out of it, is decided here.
use vstd::prelude::*;
use vstd::seq_lib::lemma_flatten_concat;
use crate::common::{Job, KeyValue, Record, Task, records_view};
use crate::text::{append_int, decimal_int};

verus! {

/// Directory of the normalized input chunks.
pub const MAP_PATH: &'static str = "map";

/// Directory of the per-map shards and the merged buckets.
pub const REDUCE_PATH: &'static str = "reduce";

/// Directory of the per-bucket results and the final result.
pub const RESULT_PATH: &'static str = "result";

/// The file that the final merge writes.
pub const FINAL_RESULT_PATH: &'static str = "result/result-final.txt";

/// How many times opening a shard is retried before the merge gives up.
pub const OPEN_FILE_MAX_RETRY: u8 = 3;

/// How long to wait between two attempts to open a shard, in seconds.
pub const OPEN_FILE_RETRY_SECS: u64 = 1;

/// Name of the merged file of a reduce bucket: `reduce-<r>`.
pub fn merge_reduce_name(id_reduce: i32) -> (r: String)
    ensures
        r@ == "reduce-"@ + decimal_int(id_reduce as int),
{
    let mut s = String::from_str("reduce-");
    append_int(&mut s, id_reduce);
    s
}

/// Name of the shard that map `m` writes for bucket `r`: `reduce-<m>-<r>`.
pub fn reduce_name(id_map: i32, id_reduce: i32) -> (r: String)
    ensures
        r@ == "reduce-"@ + decimal_int(id_map as int) + "-"@ + decimal_int(id_reduce as int),
{
    let mut s = String::from_str("reduce-");
    append_int(&mut s, id_map);
    s.append("-");
    append_int(&mut s, id_reduce);
    s
}

/// Path of the input chunk of map `id`: `map/map-<id>`.
pub fn map_file_name(id: i32) -> (r: String)
    ensures
        r@ == "map/map-"@ + decimal_int(id as int),
{
    let mut s = String::from_str("map/map-");
    append_int(&mut s, id);
    s
}

/// Path of the result of reduce bucket `id`: `result/result-<id>`.
pub fn result_file_name(id: i32) -> (r: String)
    ensures
        r@ == "result/result-"@ + decimal_int(id as int),
{
    let mut s = String::from_str("result/result-");
    append_int(&mut s, id);
    s
}

/// Path of the shard that map `m` writes for bucket `r`: `reduce/reduce-<m>-<r>`.
pub fn shard_path(id_map: i32, id_reduce: i32) -> (r: String)
    ensures
        r@ == "reduce/reduce-"@ + decimal_int(id_map as int) + "-"@ + decimal_int(
            id_reduce as int,
        ),
{
    let mut s = String::from_str("reduce/reduce-");
    append_int(&mut s, id_map);
    s.append("-");
    append_int(&mut s, id_reduce);
    s
}

/// Path of the merged file of bucket `r`: `reduce/reduce-<r>`.
pub fn merged_path(id_reduce: i32) -> (r: String)
    ensures
        r@ == "reduce/reduce-"@ + decimal_int(id_reduce as int),
{
    let mut s = String::from_str("reduce/reduce-");
    append_int(&mut s, id_reduce);
    s
}

/// The paths of the input chunks of maps `0..n`, in order.
pub fn map_file_names(n: i32) -> (r: Vec<String>)
    ensures
        r@.len() == if n > 0 { n as int } else { 0 },
        forall|i: int| 0 <= i < r@.len() ==> #[trigger] r@[i]@ == "map/map-"@ + decimal_int(i),
{
    let mut r: Vec<String> = Vec::new();
    let mut i: i32 = 0;
    while i < n
        invariant
            0 <= i,
            n > 0 ==> i <= n,
            n <= 0 ==> i == 0,
            r@.len() == i,
            forall|j: int| 0 <= j < r@.len() ==> #[trigger] r@[j]@ == "map/map-"@ + decimal_int(j),
        decreases n - i,
    {
        r.push(map_file_name(i));
        i = i + 1;
    }
    r
}

/// The paths of the merged files of buckets `0..n`, in order.
pub fn merged_paths(n: i32) -> (r: Vec<String>)
    ensures
        r@.len() == if n > 0 { n as int } else { 0 },
        forall|i: int|
            0 <= i < r@.len() ==> #[trigger] r@[i]@ == "reduce/reduce-"@ + decimal_int(i),
{
    let mut r: Vec<String> = Vec::new();
    let mut i: i32 = 0;
    while i < n
        invariant
            0 <= i,
            n > 0 ==> i <= n,
            n <= 0 ==> i == 0,
            r@.len() == i,
            forall|j: int|
                0 <= j < r@.len() ==> #[trigger] r@[j]@ == "reduce/reduce-"@ + decimal_int(j),
        decreases n - i,
    {
        r.push(merged_path(i));
        i = i + 1;
    }
    r
}

/// The records of `recs` whose key the job routes to bucket `r` of `n`, in
/// order.
pub open spec fn bucket_records<J: Job>(job: J, recs: Seq<Record>, n: int, r: int) -> Seq<Record> {
    recs.filter(|kv: Record| job.bucket_spec(kv.0, n) == r)
}

/// Spreads the records of one map over the job's reduce buckets: entry `r`
/// holds, in order, the records whose key routes to bucket `r`. Entry `r` is
/// what goes into the shard `reduce/reduce-<map>-<r>`.
pub fn store_local<J: Job>(task: &Task<J>, data: &Vec<KeyValue>) -> (r: Vec<Vec<KeyValue>>)
    requires
        task.wf(),
    ensures
        r@.len() == task.num_reduce_jobs,
        forall|b: int|
            0 <= b < r@.len() ==> records_view(#[trigger] r@[b]@) == bucket_records(
                task.job,
                records_view(data@),
                task.num_reduce_jobs as int,
                b,
            ),
{
    let ghost recs = records_view(data@);
    let ghost n = task.num_reduce_jobs as int;
    let mut shards: Vec<Vec<KeyValue>> = Vec::new();
    let mut b: i32 = 0;
    while b < task.num_reduce_jobs
        invariant
            task.wf(),
            n == task.num_reduce_jobs,
            recs == records_view(data@),
            0 <= b <= n,
            shards@.len() == b,
            forall|c: int|
                0 <= c < shards@.len() ==> records_view(#[trigger] shards@[c]@) == bucket_records(
                    task.job,
                    recs,
                    n,
                    c,
                ),
        decreases n - b,
    {
        let mut shard: Vec<KeyValue> = Vec::new();
        let mut i: usize = 0;
        while i < data.len()
            invariant
                task.wf(),
                n == task.num_reduce_jobs,
                recs == records_view(data@),
                0 <= b < n,
                i <= data@.len(),
                records_view(shard@) == bucket_records(task.job, recs.take(i as int), n, b as int),
            decreases data@.len() - i,
        {
            let kv = &data[i];
            let dest = task.job.shuffle(&kv.key, task.num_reduce_jobs);
            proof {
                reveal(Seq::filter);
                assert(recs.take(i + 1).drop_last() =~= recs.take(i as int));
                assert(recs.take(i + 1).last() == kv@);
            }
            if dest == b {
                let copy = kv.duplicate();
                proof {
                    lemma_records_push(shard@, copy);
                }
                shard.push(copy);
            }
            i = i + 1;
        }
        proof {
            assert(recs.take(data@.len() as int) =~= recs);
        }
        shards.push(shard);
        b = b + 1;
    }
    shards
}

/// The records of a vector grow by the record pushed onto it.
pub proof fn lemma_records_push(v: Seq<KeyValue>, kv: KeyValue)
    ensures
        records_view(v.push(kv)) == records_view(v).push(kv@),
{
    assert forall|t: int| 0 <= t < v.len() implies records_view(v.push(kv))[t] == records_view(
        v,
    )[t] by {
        assert(v.push(kv)[t] == v[t]);
    }
    assert(records_view(v.push(kv)) =~= records_view(v).push(kv@));
}

/// Concatenates the contents of the given files, in order: what a merge
/// writes into its target.
pub fn merge_contents(parts: &Vec<Vec<u8>>) -> (r: Vec<u8>)
    ensures
        r@ == parts@.map_values(|p: Vec<u8>| p@).flatten(),
{
    let ghost views = parts@.map_values(|p: Vec<u8>| p@);
    let mut out: Vec<u8> = Vec::new();
    let mut i: usize = 0;
    while i < parts.len()
        invariant
            views == parts@.map_values(|p: Vec<u8>| p@),
            i <= parts@.len(),
            out@ == views.take(i as int).flatten(),
        decreases parts@.len() - i,
    {
        let part = &parts[i];
        let mut j: usize = 0;
        let ghost before = out@;
        while j < part.len()
            invariant
                j <= part@.len(),
                out@ == before + part@.take(j as int),
            decreases part@.len() - j,
        {
            out.push(part[j]);
            proof {
                assert(before + part@.take(j + 1) =~= (before + part@.take(j as int)).push(
                    part@[j as int],
                ));
            }
            j = j + 1;
        }
        proof {
            assert(part@.take(part@.len() as int) =~= part@);
            assert(views.take(i + 1) =~= views.take(i as int).push(views[i as int]));
            views.take(i as int).lemma_flatten_push(views[i as int]);
        }
        i = i + 1;
    }
    proof {
        assert(views.take(parts@.len() as int) =~= views);
    }
    out
}

/// What the merge does after a failed attempt to open a shard.
#[derive(Clone, Copy, Debug, PartialEq, Eq, Structural)]
pub enum OpenStep {
    /// Wait `OPEN_FILE_RETRY_SECS` and try again.
    Retry,
    /// Give up: the merge fails.
    GiveUp,
}

/// The merge's retry policy: after `failures` failed attempts to open a
/// shard, retry while fewer than `OPEN_FILE_MAX_RETRY` have failed.
pub fn after_failed_open(failures: u8) -> (r: OpenStep)
    ensures
        r == (if failures < OPEN_FILE_MAX_RETRY {
            OpenStep::Retry
        } else {
            OpenStep::GiveUp
        }),
{
    if failures < OPEN_FILE_MAX_RETRY {
        OpenStep::Retry
    } else {
        OpenStep::GiveUp
    }
}

/// The newline byte that ends each line of a record file.
pub const NEWLINE: u8 = 10;

/// A file of lines: each line followed by a newline, in order.
pub open spec fn framed(lines: Seq<Seq<u8>>) -> Seq<u8> {
    lines.map_values(|l: Seq<u8>| l.push(NEWLINE)).flatten()
}

/// Reading a file line by line: the lines ended so far, and the bytes of the
/// line not yet ended.
pub open spec fn scan_lines(s: Seq<u8>) -> (Seq<Seq<u8>>, Seq<u8>)
    decreases s.len(),
{
    if s.len() == 0 {
        (seq![], seq![])
    } else {
        let (done, cur) = scan_lines(s.drop_last());
        if s.last() == NEWLINE {
            (done.push(cur), seq![])
        } else {
            (done, cur.push(s.last()))
        }
    }
}

/// The lines of a file: the parts between newlines, and a last part that no
/// newline ends if it is not empty.
pub open spec fn lines_of(s: Seq<u8>) -> Seq<Seq<u8>> {
    let (done, cur) = scan_lines(s);
    if cur.len() > 0 {
        done.push(cur)
    } else {
        done
    }
}

/// The byte strings of a vector of byte vectors.
pub open spec fn bytes_views(v: Seq<Vec<u8>>) -> Seq<Seq<u8>> {
    v.map_values(|b: Vec<u8>| b@)
}

/// Writes each line followed by a newline: the contents of a record file.
pub fn frame_lines(lines: &Vec<Vec<u8>>) -> (r: Vec<u8>)
    ensures
        r@ == framed(bytes_views(lines@)),
{
    let ghost views = bytes_views(lines@);
    let mut out: Vec<u8> = Vec::new();
    let mut i: usize = 0;
    while i < lines.len()
        invariant
            views == bytes_views(lines@),
            i <= lines@.len(),
            out@ == framed(views.take(i as int)),
        decreases lines@.len() - i,
    {
        let line = &lines[i];
        let mut j: usize = 0;
        let ghost before = out@;
        while j < line.len()
            invariant
                j <= line@.len(),
                out@ == before + line@.take(j as int),
            decreases line@.len() - j,
        {
            out.push(line[j]);
            proof {
                assert(before + line@.take(j + 1) =~= (before + line@.take(j as int)).push(
                    line@[j as int],
                ));
            }
            j = j + 1;
        }
        out.push(NEWLINE);
        proof {
            assert(line@.take(line@.len() as int) =~= line@);
            lemma_framed_push(views.take(i as int), views[i as int]);
            assert(views.take(i + 1) =~= views.take(i as int).push(views[i as int]));
            assert(out@ =~= before + line@.push(NEWLINE));
        }
        i = i + 1;
    }
    proof {
        assert(views.take(lines@.len() as int) =~= views);
    }
    out
}

/// Framing one more line appends it and its newline.
pub proof fn lemma_framed_push(lines: Seq<Seq<u8>>, l: Seq<u8>)
    ensures
        framed(lines.push(l)) == framed(lines) + l.push(NEWLINE),
{
    let f = |l: Seq<u8>| l.push(NEWLINE);
    assert(lines.push(l).map_values(f) =~= lines.map_values(f).push(l.push(NEWLINE)));
    lines.map_values(f).lemma_flatten_push(l.push(NEWLINE));
}

/// Splits the contents of a record file into its lines.
pub fn split_lines(text: &Vec<u8>) -> (r: Vec<Vec<u8>>)
    ensures
        bytes_views(r@) == lines_of(text@),
{
    let mut done: Vec<Vec<u8>> = Vec::new();
    let mut cur: Vec<u8> = Vec::new();
    let mut i: usize = 0;
    while i < text.len()
        invariant
            i <= text@.len(),
            scan_lines(text@.take(i as int)) == (bytes_views(done@), cur@),
        decreases text@.len() - i,
    {
        let b = text[i];
        proof {
            assert(text@.take(i + 1).drop_last() =~= text@.take(i as int));
        }
        if b == NEWLINE {
            let ghost old_done = done@;
            let line = cur;
            proof {
                assert(bytes_views(old_done.push(line)) =~= bytes_views(old_done).push(line@));
            }
            done.push(line);
            cur = Vec::new();
        } else {
            cur.push(b);
        }
        i = i + 1;
    }
    proof {
        assert(text@.take(text@.len() as int) =~= text@);
    }
    if cur.len() > 0 {
        let ghost old_done = done@;
        proof {
            assert(bytes_views(old_done.push(cur)) =~= bytes_views(old_done).push(cur@));
        }
        done.push(cur);
    }
    done
}

/// No line of `lines` holds a newline.
pub open spec fn newline_free(lines: Seq<Seq<u8>>) -> bool {
    forall|i: int, j: int|
        0 <= i < lines.len() && 0 <= j < lines[i].len() ==> #[trigger] lines[i][j] != NEWLINE
}

proof fn lemma_scan_line(prefix: Seq<u8>, done: Seq<Seq<u8>>, l: Seq<u8>, k: int)
    requires
        scan_lines(prefix) == (done, Seq::<u8>::empty()),
        0 <= k <= l.len(),
        forall|j: int| 0 <= j < l.len() ==> l[j] != NEWLINE,
    ensures
        scan_lines(prefix + l.take(k)) == (done, l.take(k)),
    decreases k,
{
    if k == 0 {
        assert(prefix + l.take(0) =~= prefix);
        assert(l.take(0) =~= Seq::<u8>::empty());
    } else {
        lemma_scan_line(prefix, done, l, k - 1);
        assert((prefix + l.take(k)).drop_last() =~= prefix + l.take(k - 1));
        assert(l.take(k - 1).push(l[k - 1]) =~= l.take(k));
    }
}

/// Splitting framed lines gives the lines back, when none of them holds a
/// newline.
pub proof fn lemma_split_framed(lines: Seq<Seq<u8>>)
    requires
        newline_free(lines),
    ensures
        scan_lines(framed(lines)) == (lines, Seq::<u8>::empty()),
        lines_of(framed(lines)) == lines,
    decreases lines.len(),
{
    if lines.len() == 0 {
        assert(framed(lines) =~= Seq::<u8>::empty());
    } else {
        let init = lines.drop_last();
        let l = lines.last();
        assert(newline_free(init)) by {
            assert forall|i: int, j: int| 0 <= i < init.len() && 0 <= j < init[i].len() implies
                #[trigger] init[i][j] != NEWLINE by {
                assert(init[i] == lines[i]);
            }
        }
        lemma_split_framed(init);
        assert(init.push(l) =~= lines);
        lemma_framed_push(init, l);
        assert forall|j: int| 0 <= j < l.len() implies l[j] != NEWLINE by {
            assert(lines[lines.len() - 1][j] != NEWLINE);
        }
        lemma_scan_line(framed(init), init, l, l.len() as int);
        assert(l.take(l.len() as int) =~= l);
        let whole = framed(init) + l.push(NEWLINE);
        assert(whole.drop_last() =~= framed(init) + l);
    }
}

/// Framing distributes over concatenation of line sequences.
pub proof fn lemma_framed_concat(a: Seq<Seq<u8>>, b: Seq<Seq<u8>>)
    ensures
        framed(a + b) == framed(a) + framed(b),
{
    let f = |l: Seq<u8>| l.push(NEWLINE);
    assert((a + b).map_values(f) =~= a.map_values(f) + b.map_values(f));
    lemma_flatten_concat(a.map_values(f), b.map_values(f));
}

/// What the merged file of bucket `r` holds after the maps that produced
/// `outputs` stored their shards: each map's records of bucket `r`, in map
/// order.
pub open spec fn merged_bucket<J: Job>(job: J, outputs: Seq<Seq<Record>>, n: int, r: int) -> Seq<
    Record,
> {
    outputs.map_values(|o: Seq<Record>| bucket_records(job, o, n, r)).flatten()
}

/// The merged file of bucket `r`, its records written one per line by
/// `encode`.
pub open spec fn merged_file<J: Job>(
    job: J,
    outputs: Seq<Seq<Record>>,
    encode: spec_fn(Record) -> Seq<u8>,
    n: int,
    r: int,
) -> Seq<u8> {
    outputs.map_values(
        |o: Seq<Record>| framed(bucket_records(job, o, n, r).map_values(encode)),
    ).flatten()
}

/// Storing the outputs of any number of maps, merging the shards of bucket
/// `r` in map order and loading the merged file back gives exactly the
/// records of all map outputs whose key routes to `r`, each once, in order;
/// this holds for any record encoding that writes no newline.
pub proof fn lemma_store_merge_load<J: Job>(
    job: J,
    outputs: Seq<Seq<Record>>,
    encode: spec_fn(Record) -> Seq<u8>,
    n: int,
    r: int,
)
    requires
        n > 0,
        0 <= r < n,
        forall|kv: Record, j: int| 0 <= j < encode(kv).len() ==> #[trigger] encode(kv)[j] != NEWLINE,
    ensures
        merged_bucket(job, outputs, n, r) == bucket_records(job, outputs.flatten(), n, r),
        lines_of(merged_file(job, outputs, encode, n, r)) == bucket_records(job, 
            outputs.flatten(),
            n,
            r,
        ).map_values(encode),
{
    let all = bucket_records(job, outputs.flatten(), n, r).map_values(encode);
    lemma_merged_file(job, outputs, encode, n, r);
    assert(newline_free(all)) by {
        assert forall|i: int, j: int| 0 <= i < all.len() && 0 <= j < all[i].len() implies
            #[trigger] all[i][j] != NEWLINE by {
            assert(all[i] == encode(bucket_records(job, outputs.flatten(), n, r)[i]));
        }
    }
    lemma_split_framed(all);
}

proof fn lemma_merged_file<J: Job>(
    job: J,
    outputs: Seq<Seq<Record>>,
    encode: spec_fn(Record) -> Seq<u8>,
    n: int,
    r: int,
)
    ensures
        merged_bucket(job, outputs, n, r) == bucket_records(job, outputs.flatten(), n, r),
        merged_file(job, outputs, encode, n, r) == framed(
            bucket_records(job, outputs.flatten(), n, r).map_values(encode),
        ),
    decreases outputs.len(),
{
    let pred = |kv: Record| job.bucket_spec(kv.0, n) == r;
    if outputs.len() == 0 {
        reveal(Seq::filter);
        assert(merged_bucket(job, outputs, n, r) =~= Seq::<Record>::empty());
        assert(merged_file(job, outputs, encode, n, r) =~= Seq::<u8>::empty());
        assert(outputs.flatten() =~= Seq::<Record>::empty());
        assert(bucket_records(job, outputs.flatten(), n, r) =~= Seq::<Record>::empty());
        assert(framed(Seq::<Record>::empty().map_values(encode)) =~= Seq::<u8>::empty());
    } else {
        let init = outputs.drop_last();
        let o = outputs.last();
        lemma_merged_file(job, init, encode, n, r);
        assert(init.push(o) =~= outputs);
        init.lemma_flatten_push(o);
        Seq::filter_distributes_over_add(init.flatten(), o, pred);
        let fb = |o: Seq<Record>| bucket_records(job, o, n, r);
        assert(outputs.map_values(fb) =~= init.map_values(fb).push(bucket_records(job, o, n, r)));
        init.map_values(fb).lemma_flatten_push(bucket_records(job, o, n, r));
        let ff = |o: Seq<Record>| framed(bucket_records(job, o, n, r).map_values(encode));
        assert(outputs.map_values(ff) =~= init.map_values(ff).push(
            framed(bucket_records(job, o, n, r).map_values(encode)),
        ));
        init.map_values(ff).lemma_flatten_push(framed(bucket_records(job, o, n, r).map_values(encode)));
        let a = bucket_records(job, init.flatten(), n, r);
        let b = bucket_records(job, o, n, r);
        assert((a + b).map_values(encode) =~= a.map_values(encode) + b.map_values(encode));
        lemma_framed_concat(a.map_values(encode), b.map_values(encode));
    }
}

/// The paths of the shards of bucket `id_reduce` written by maps
/// `0..map_counter`, in map order: what the merge of that bucket reads.
pub fn shard_paths_of_bucket(map_counter: i32, id_reduce: i32) -> (r: Vec<String>)
    ensures
        r@.len() == if map_counter > 0 { map_counter as int } else { 0 },
        forall|m: int|
            0 <= m < r@.len() ==> #[trigger] r@[m]@ == "reduce/reduce-"@ + decimal_int(m) + "-"@
                + decimal_int(id_reduce as int),
{
    let mut r: Vec<String> = Vec::new();
    let mut m: i32 = 0;
    while m < map_counter
        invariant
            0 <= m,
            map_counter > 0 ==> m <= map_counter,
            map_counter <= 0 ==> m == 0,
            r@.len() == m,
            forall|j: int|
                0 <= j < r@.len() ==> #[trigger] r@[j]@ == "reduce/reduce-"@ + decimal_int(j) + "-"@
                    + decimal_int(id_reduce as int),
        decreases map_counter - m,
    {
        r.push(shard_path(m, id_reduce));
        m = m + 1;
    }
    r
}

/// The paths of the results of buckets `0..n`, in bucket order: what the
/// final merge reads.
pub fn result_file_names(n: i32) -> (r: Vec<String>)
    ensures
        r@.len() == if n > 0 { n as int } else { 0 },
        forall|i: int| 0 <= i < r@.len() ==> #[trigger] r@[i]@ == "result/result-"@ + decimal_int(i),
{
    let mut r: Vec<String> = Vec::new();
    let mut i: i32 = 0;
    while i < n
        invariant
            0 <= i,
            n > 0 ==> i <= n,
            n <= 0 ==> i == 0,
            r@.len() == i,
            forall|j: int| 0 <= j < r@.len() ==> #[trigger] r@[j]@ == "result/result-"@ + decimal_int(j),
        decreases n - i,
    {
        r.push(result_file_name(i));
        i = i + 1;
    }
    r
}

/// How many records of `recs` the job routes to buckets `0..m`.
pub open spec fn bucket_sizes<J: Job>(job: J, recs: Seq<Record>, n: int, m: int) -> nat
    decreases m,
{
    if m <= 0 {
        0
    } else {
        bucket_sizes(job, recs, n, m - 1) + bucket_records(job, recs, n, m - 1).len()
    }
}

proof fn lemma_bucket_sizes_push<J: Job>(job: J, recs: Seq<Record>, x: Record, n: int, m: int)
    requires
        0 <= m,
    ensures
        bucket_sizes(job, recs.push(x), n, m) == bucket_sizes(job, recs, n, m) + if 0
            <= job.bucket_spec(x.0, n) < m {
            1nat
        } else {
            0nat
        },
    decreases m,
{
    if m > 0 {
        lemma_bucket_sizes_push(job, recs, x, n, m - 1);
        reveal(Seq::filter);
        assert(recs.push(x).drop_last() =~= recs);
    }
}

/// Every record lands in exactly one bucket: the sizes of the buckets add
/// up to the number of records, so partitioning loses and duplicates
/// nothing.
pub proof fn lemma_buckets_partition<J: Job>(job: J, recs: Seq<Record>, n: int)
    requires
        n > 0,
    ensures
        bucket_sizes(job, recs, n, n) == recs.len(),
    decreases recs.len(),
{
    if recs.len() == 0 {
        lemma_empty_sizes(job, recs, n, n);
    } else {
        let r1 = recs.drop_last();
        let x = recs.last();
        lemma_buckets_partition(job, r1, n);
        job.lemma_bucket_range(x.0, n);
        lemma_bucket_sizes_push(job, r1, x, n, n);
        assert(r1.push(x) =~= recs);
    }
}

proof fn lemma_empty_sizes<J: Job>(job: J, recs: Seq<Record>, n: int, m: int)
    requires
        recs.len() == 0,
    ensures
        bucket_sizes(job, recs, n, m) == 0,
    decreases m,
{
    if m > 0 {
        lemma_empty_sizes(job, recs, n, m - 1);
        reveal(Seq::filter);
    }
}

} // verus!
