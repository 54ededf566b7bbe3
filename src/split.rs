//! Preparing the input of a job: normalizing its text and cutting it into
//! the chunks that the maps consume, never inside a word.
use vstd::prelude::*;
use vstd::utf8::encode_utf8;
use crate::data::bytes_views;
use crate::text::{ascii_space_byte, is_ascii_space_byte};
use crate::word_count::words;

verus! {

/// ASCII upper-case letters become lower-case; every other character stays.
pub open spec fn ascii_lower(c: char) -> char {
    if 'A' <= c && c <= 'Z' {
        ((c as u32) + 32) as char
    } else {
        c
    }
}

/// The punctuation that normalization turns into spaces.
pub open spec fn is_stripped(c: char) -> bool {
    c == '(' || c == ')' || c == ',' || c == '"' || c == '.' || c == ';' || c == ':' || c == '\''
        || c == '`' || c == '-' || c == '?' || c == '_' || c == '!'
}

/// How normalization treats one character: punctuation and line feeds
/// become spaces, ASCII letters are lower-cased.
pub open spec fn normalize_char(c: char) -> char {
    if is_stripped(c) || c == '\n' {
        ' '
    } else {
        ascii_lower(c)
    }
}

/// The normalized form of an input text.
pub open spec fn normalized(s: Seq<char>) -> Seq<char> {
    s.map_values(|c: char| normalize_char(c))
}

/// Relies on std's `str::to_ascii_lowercase`: 'A' to 'Z' become 'a' to 'z',
/// every other character is unchanged.
#[verifier::external_body]
fn ascii_lowercase(s: &str) -> (r: String)
    ensures
        r@ == s@.map_values(|c: char| ascii_lower(c)),
{
    s.to_ascii_lowercase()
}

/// Relies on std's `str::replace` with a pattern of characters: each
/// character of the text that is in `pattern` becomes one space.
#[verifier::external_body]
fn blank_chars(s: &str, pattern: &[char]) -> (r: String)
    ensures
        r@ == s@.map_values(|c: char| if pattern@.contains(c) { ' ' } else { c }),
{
    s.replace(pattern, " ")
}

/// Lower-cases the text and turns punctuation and line feeds into spaces.
pub fn normalize_text(s: &str) -> (r: String)
    ensures
        r@ == normalized(s@),
{
    let lower = ascii_lowercase(s);
    let punct: Vec<char> = vec!['(', ')', ',', '"', '.', ';', ':', '\'', '`', '-', '?', '_', '!'];
    let stripped = blank_chars(lower.as_str(), punct.as_slice());
    let newline: Vec<char> = vec!['\n'];
    let r = blank_chars(stripped.as_str(), newline.as_slice());
    proof {
        assert forall|c: char| punct@.contains(c) <==> is_stripped(c) by {
            if is_stripped(c) {
                if c == '(' { assert(punct@[0] == c); }
                else if c == ')' { assert(punct@[1] == c); }
                else if c == ',' { assert(punct@[2] == c); }
                else if c == '"' { assert(punct@[3] == c); }
                else if c == '.' { assert(punct@[4] == c); }
                else if c == ';' { assert(punct@[5] == c); }
                else if c == ':' { assert(punct@[6] == c); }
                else if c == '\'' { assert(punct@[7] == c); }
                else if c == '`' { assert(punct@[8] == c); }
                else if c == '-' { assert(punct@[9] == c); }
                else if c == '?' { assert(punct@[10] == c); }
                else if c == '_' { assert(punct@[11] == c); }
                else { assert(punct@[12] == c); }
            }
        }
        assert forall|c: char| newline@.contains(c) <==> c == '\n' by {
            if c == '\n' {
                assert(newline@[0] == c);
            }
        }
        assert(r@ =~= normalized(s@));
    }
    r
}

/// The byte offsets at which text_splitter starts each chunk of a text,
/// measuring chunks in characters, whitespace kept.
pub uninterp spec fn splitter_offsets(text: Seq<char>, capacity: nat) -> Seq<usize>;

/// Relies on text_splitter's `TextSplitter::chunk_indices` with
/// `with_trim_chunks(false)` and the default character sizer: the byte
/// offset at which each chunk of the text starts, in order.
#[verifier::external_body]
fn chunk_offsets(text: &str, capacity: usize) -> (r: Vec<usize>)
    ensures
        r@ == splitter_offsets(text@, capacity as nat),
{
    let splitter = text_splitter::TextSplitter::default().with_trim_chunks(false);
    splitter.chunk_indices(text, capacity).map(|(offset, _)| offset).collect()
}

/// A cut at byte `p` of `s` leaves every word whole: it is at an end of `s`
/// or next to ASCII whitespace.
pub open spec fn clean_at(s: Seq<u8>, p: int) -> bool {
    p <= 0 || p >= s.len() || is_ascii_space_byte(s[p - 1]) || is_ascii_space_byte(s[p])
}

/// The first clean cut at or after `p`.
pub open spec fn advance(s: Seq<u8>, p: int) -> int
    decreases s.len() - p,
{
    if p >= s.len() || clean_at(s, p) {
        p
    } else {
        advance(s, p + 1)
    }
}

/// The cuts inside `s` once each offset of `offsets` is moved to the first
/// clean cut at or after it; cuts at the ends and repeated cuts are dropped.
pub open spec fn aligned_cuts(s: Seq<u8>, offsets: Seq<usize>) -> Seq<int>
    decreases offsets.len(),
{
    if offsets.len() == 0 {
        seq![]
    } else {
        let prev = aligned_cuts(s, offsets.drop_last());
        let q = advance(s, offsets.last() as int);
        if q <= 0 || q >= s.len() || (prev.len() > 0 && prev.last() >= q) {
            prev
        } else {
            prev.push(q)
        }
    }
}

/// The start and end of each chunk: 0, the inner cuts, the end of `s`.
pub open spec fn chunk_bounds(s: Seq<u8>, cuts: Seq<int>) -> Seq<int> {
    seq![0int] + cuts + seq![s.len() as int]
}

/// The chunks of `s` between consecutive bounds; none for an empty `s`.
pub open spec fn chunk_pieces(s: Seq<u8>, cuts: Seq<int>) -> Seq<Seq<u8>> {
    if s.len() == 0 {
        seq![]
    } else {
        Seq::new(
            (cuts.len() + 1) as nat,
            |i: int| s.subrange(chunk_bounds(s, cuts)[i], chunk_bounds(s, cuts)[i + 1]),
        )
    }
}

proof fn lemma_advance_clean(s: Seq<u8>, p: int)
    requires
        0 <= p,
    ensures
        p <= advance(s, p),
        clean_at(s, advance(s, p)),
        advance(s, p) <= if p >= s.len() { p } else { s.len() as int },
    decreases s.len() - p,
{
    if p >= s.len() || clean_at(s, p) {
    } else {
        lemma_advance_clean(s, p + 1);
    }
}

proof fn lemma_aligned_cuts_sorted(s: Seq<u8>, offsets: Seq<usize>)
    ensures
        forall|i: int, j: int|
            0 <= i < j < aligned_cuts(s, offsets).len() ==> aligned_cuts(s, offsets)[i]
                < aligned_cuts(s, offsets)[j],
        forall|i: int|
            0 <= i < aligned_cuts(s, offsets).len() ==> 0 < #[trigger] aligned_cuts(s, offsets)[i]
                < s.len() && clean_at(s, aligned_cuts(s, offsets)[i]),
    decreases offsets.len(),
{
    if offsets.len() > 0 {
        let prev = aligned_cuts(s, offsets.drop_last());
        let q = advance(s, offsets.last() as int);
        lemma_aligned_cuts_sorted(s, offsets.drop_last());
        lemma_advance_clean(s, offsets.last() as int);
        if !(q <= 0 || q >= s.len() || (prev.len() > 0 && prev.last() >= q)) {
            let cur = prev.push(q);
            assert(aligned_cuts(s, offsets) == cur);
            assert forall|i: int, j: int| 0 <= i < j < cur.len() implies cur[i] < cur[j] by {
                if j == prev.len() {
                    if i < prev.len() - 1 {
                        assert(prev[i] < prev[prev.len() - 1]);
                    }
                }
            }
            assert forall|i: int| 0 <= i < cur.len() implies 0 < #[trigger] cur[i] < s.len()
                && clean_at(s, cur[i]) by {
                if i < prev.len() {
                    assert(cur[i] == prev[i]);
                }
            }
        }
    }
}

fn clean_cut(text: &Vec<u8>, p: usize) -> (r: bool)
    ensures
        r == clean_at(text@, p as int),
{
    p == 0 || p >= text.len() || ascii_space_byte(text[p - 1]) || ascii_space_byte(text[p])
}

/// The integer values of a sequence of offsets.
pub open spec fn as_ints(v: Seq<usize>) -> Seq<int> {
    v.map_values(|x: usize| x as int)
}

/// Moves each offset to the first clean cut at or after it, keeping the
/// cuts strictly inside the text and strictly increasing.
pub fn aligned_offsets(text: &Vec<u8>, offsets: &Vec<usize>) -> (r: Vec<usize>)
    ensures
        as_ints(r@) == aligned_cuts(text@, offsets@),
{
    let n = text.len();
    let mut cuts: Vec<usize> = Vec::new();
    let mut i: usize = 0;
    while i < offsets.len()
        invariant
            n == text@.len(),
            i <= offsets@.len(),
            as_ints(cuts@) == aligned_cuts(text@, offsets@.take(i as int)),
        decreases offsets@.len() - i,
    {
        let p = offsets[i];
        let mut q = p;
        while q < n && !clean_cut(text, q)
            invariant
                n == text@.len(),
                p <= q <= n || (p == q && p > n),
                advance(text@, p as int) == advance(text@, q as int),
            decreases n - q,
        {
            q = q + 1;
        }
        proof {
            assert(offsets@.take(i + 1).drop_last() =~= offsets@.take(i as int));
            assert(offsets@.take(i + 1).last() == p);
            assert(advance(text@, q as int) == q);
        }
        let ghost prev = cuts@;
        if !(q == 0 || q >= n || (cuts.len() > 0 && cuts[cuts.len() - 1] >= q)) {
            cuts.push(q);
            proof {
                assert(as_ints(cuts@) =~= as_ints(prev).push(q as int));
            }
        }
        i = i + 1;
    }
    proof {
        assert(offsets@.take(offsets@.len() as int) =~= offsets@);
    }
    cuts
}

/// Cuts `text` at the given cuts, which lie strictly inside it in increasing
/// order.
fn cut_pieces(text: &Vec<u8>, cuts: &Vec<usize>) -> (r: Vec<Vec<u8>>)
    requires
        forall|i: int, j: int| 0 <= i < j < cuts@.len() ==> cuts@[i] < cuts@[j],
        forall|i: int| 0 <= i < cuts@.len() ==> 0 < #[trigger] cuts@[i] < text@.len(),
    ensures
        bytes_views(r@) == chunk_pieces(text@, as_ints(cuts@)),
{
    let n = text.len();
    let mut out: Vec<Vec<u8>> = Vec::new();
    if n == 0 {
        proof {
            assert(bytes_views(out@) =~= chunk_pieces(text@, as_ints(cuts@)));
        }
        return out;
    }
    let ghost bounds = chunk_bounds(text@, as_ints(cuts@));
    let mut start: usize = 0;
    let mut i: usize = 0;
    while i < cuts.len()
        invariant
            n == text@.len(),
            n > 0,
            bounds == chunk_bounds(text@, as_ints(cuts@)),
            forall|a: int, b: int| 0 <= a < b < cuts@.len() ==> cuts@[a] < cuts@[b],
            forall|a: int| 0 <= a < cuts@.len() ==> 0 < #[trigger] cuts@[a] < text@.len(),
            i <= cuts@.len(),
            start == bounds[i as int],
            start < n,
            out@.len() == i,
            forall|k: int|
                0 <= k < i ==> #[trigger] out@[k]@ == text@.subrange(bounds[k], bounds[k + 1]),
        decreases cuts@.len() - i,
    {
        let end = cuts[i];
        proof {
            assert(end == bounds[i + 1]);
            if i > 0 {
                assert(start == cuts@[i - 1]);
            }
        }
        let piece = vstd::slice::slice_to_vec(vstd::slice::slice_subrange(text.as_slice(), start, end));
        out.push(piece);
        start = end;
        i = i + 1;
    }
    proof {
        assert(n == bounds[i + 1]);
    }
    let last = vstd::slice::slice_to_vec(vstd::slice::slice_subrange(text.as_slice(), start, n));
    out.push(last);
    proof {
        assert(bytes_views(out@) =~= chunk_pieces(text@, as_ints(cuts@)));
    }
    out
}

/// Cuts `text` at the first clean cut at or after each offset.
pub fn align_chunks(text: &Vec<u8>, offsets: &Vec<usize>) -> (r: Vec<Vec<u8>>)
    ensures
        bytes_views(r@) == chunk_pieces(text@, aligned_cuts(text@, offsets@)),
{
    let cuts = aligned_offsets(text, offsets);
    proof {
        lemma_aligned_cuts_sorted(text@, offsets@);
        assert forall|i: int| 0 <= i < cuts@.len() implies as_ints(cuts@)[i] == cuts@[i] as int by {}
    }
    cut_pieces(text, &cuts)
}

/// The chunk size that the input is chunked with: the requested one, and at
/// least one.
pub open spec fn effective_capacity(chunk_size: usize) -> nat {
    if chunk_size == 0 {
        1
    } else {
        chunk_size as nat
    }
}

/// There is ASCII whitespace among the bytes `s[i..=j]`.
pub open spec fn has_space_in(s: Seq<u8>, i: int, j: int) -> bool {
    exists|t: int| i <= t <= j && is_ascii_space_byte(s[t])
}

/// Every word of `s` has at most `cap` bytes: no `cap + 1` bytes in a row
/// are all outside ASCII whitespace.
pub open spec fn words_fit(s: Seq<u8>, cap: int) -> bool {
    forall|i: int| 0 <= i && i + cap < s.len() ==> #[trigger] has_space_in(s, i, i + cap)
}

/// The last clean cut in `(lo, hi]`, or `lo` when there is none.
pub open spec fn last_clean(s: Seq<u8>, lo: int, hi: int) -> int
    decreases hi - lo,
{
    if hi <= lo {
        lo
    } else if clean_at(s, hi) {
        hi
    } else {
        last_clean(s, lo, hi - 1)
    }
}

/// Where the chunk that starts at `cur` ends, when the next cut that must be
/// kept is `m`: at `m` if that is at most `cap` bytes away; else at the last
/// clean cut at most `cap` bytes away; else, the word at `cur` being longer
/// than `cap`, at the first clean cut after `cur`, and no later than `m`.
pub open spec fn next_cut(s: Seq<u8>, cap: int, cur: int, m: int) -> int {
    let m1 = if m > cur {
        m
    } else {
        cur + 1
    };
    if m1 - cur <= cap {
        m1
    } else if last_clean(s, cur, cur + cap) > cur {
        last_clean(s, cur, cur + cap)
    } else if cur < advance(s, cur + 1) < m1 {
        advance(s, cur + 1)
    } else {
        m1
    }
}

/// The cuts after `cur` that keep every cut of `q` and add, where a chunk
/// would grow past `cap` bytes, cuts that split no word.
pub open spec fn refine_cuts(s: Seq<u8>, cap: int, q: Seq<int>, cur: int) -> Seq<int>
    decreases s.len() - cur,
{
    if cur < 0 || cur >= s.len() {
        seq![]
    } else {
        let m = if q.len() > 0 {
            q[0]
        } else {
            s.len() as int
        };
        let c = next_cut(s, cap, cur, m);
        if c >= s.len() {
            seq![]
        } else if q.len() > 0 && c >= q[0] {
            seq![c] + refine_cuts(s, cap, q.drop_first(), c)
        } else {
            seq![c] + refine_cuts(s, cap, q, c)
        }
    }
}

/// The cuts of the map inputs: text_splitter's offsets moved to the first
/// clean cut at or after each, then refined to keep chunks within `cap`
/// bytes.
pub open spec fn final_cuts(s: Seq<u8>, offsets: Seq<usize>, cap: int) -> Seq<int> {
    refine_cuts(s, cap, aligned_cuts(s, offsets), 0)
}

/// The map inputs of a job: the normalized text, as UTF-8, cut at its final
/// cuts.
pub open spec fn split_spec(content: Seq<char>, chunk_size: usize) -> Seq<Seq<u8>> {
    let text = encode_utf8(normalized(content));
    chunk_pieces(
        text,
        final_cuts(
            text,
            splitter_offsets(normalized(content), effective_capacity(chunk_size)),
            effective_capacity(chunk_size) as int,
        ),
    )
}

fn first_clean_cut(text: &Vec<u8>, p: usize) -> (r: usize)
    ensures
        r == advance(text@, p as int),
        p <= r,
{
    let n = text.len();
    let mut q = p;
    while q < n && !clean_cut(text, q)
        invariant
            n == text@.len(),
            p <= q <= n || (p == q && p > n),
            advance(text@, p as int) == advance(text@, q as int),
        decreases n - q,
    {
        q = q + 1;
    }
    q
}

fn last_clean_cut(text: &Vec<u8>, lo: usize, hi: usize) -> (r: usize)
    requires
        lo <= hi,
    ensures
        r == last_clean(text@, lo as int, hi as int),
{
    let mut c = hi;
    while c > lo && !clean_cut(text, c)
        invariant
            lo <= c <= hi,
            last_clean(text@, lo as int, hi as int) == last_clean(text@, lo as int, c as int),
        decreases c - lo,
    {
        c = c - 1;
    }
    c
}

fn next_cut_exec(text: &Vec<u8>, cap: usize, cur: usize, m: usize) -> (r: usize)
    requires
        cur < text@.len(),
        m <= text@.len(),
    ensures
        r == next_cut(text@, cap as int, cur as int, m as int),
{
    let n = text.len();
    let m1 = if m > cur {
        m
    } else {
        cur + 1
    };
    if m1 - cur <= cap {
        return m1;
    }
    let c = last_clean_cut(text, cur, cur + cap);
    if c > cur {
        return c;
    }
    let a = first_clean_cut(text, cur + 1);
    if cur < a && a < m1 {
        a
    } else {
        m1
    }
}

/// Keeps every cut of `cuts` and adds, wherever a chunk would grow past
/// `cap` bytes, the cut that `next_cut` picks.
pub fn refine(text: &Vec<u8>, cap: usize, cuts: &Vec<usize>) -> (r: Vec<usize>)
    requires
        forall|i: int| 0 <= i < cuts@.len() ==> #[trigger] cuts@[i] <= text@.len(),
    ensures
        as_ints(r@) == refine_cuts(text@, cap as int, as_ints(cuts@), 0),
{
    let n = text.len();
    let ghost q = as_ints(cuts@);
    let mut out: Vec<usize> = Vec::new();
    let mut cur: usize = 0;
    let mut k: usize = 0;
    proof {
        assert(q.skip(0) =~= q);
        assert(as_ints(out@) + refine_cuts(text@, cap as int, q, 0) =~= refine_cuts(
            text@,
            cap as int,
            q,
            0,
        ));
    }
    while cur < n
        invariant
            n == text@.len(),
            q == as_ints(cuts@),
            forall|i: int| 0 <= i < cuts@.len() ==> #[trigger] cuts@[i] <= text@.len(),
            k <= cuts@.len(),
            cur <= n,
            as_ints(out@) + refine_cuts(text@, cap as int, q.skip(k as int), cur as int)
                == refine_cuts(text@, cap as int, q, 0),
        decreases n - cur,
    {
        let m = if k < cuts.len() {
            cuts[k]
        } else {
            n
        };
        let c = next_cut_exec(text, cap, cur, m);
        let ghost rest = q.skip(k as int);
        proof {
            if k < cuts@.len() {
                assert(rest[0] == q[k as int]);
                assert(rest.drop_first() =~= q.skip(k + 1));
            }
        }
        if c >= n {
            proof {
                assert(refine_cuts(text@, cap as int, rest, cur as int) =~= Seq::<int>::empty());
                assert(as_ints(out@) + Seq::<int>::empty() =~= as_ints(out@));
                assert(refine_cuts(text@, cap as int, rest, n as int) =~= Seq::<int>::empty());
            }
            cur = n;
        } else {
            let ghost old_out = as_ints(out@);
            out.push(c);
            proof {
                assert(as_ints(out@) =~= old_out.push(c as int));
            }
            if k < cuts.len() && c >= cuts[k] {
                k = k + 1;
            }
            proof {
                assert(old_out.push(c as int) + refine_cuts(text@, cap as int, q.skip(k as int), c as int)
                    =~= old_out + (seq![c as int] + refine_cuts(text@, cap as int, q.skip(k as int), c as int)));
            }
            cur = c;
        }
    }
    proof {
        assert(refine_cuts(text@, cap as int, q.skip(k as int), cur as int) =~= Seq::<int>::empty());
        assert(as_ints(out@) + Seq::<int>::empty() =~= as_ints(out@));
    }
    out
}

proof fn lemma_last_clean(s: Seq<u8>, lo: int, hi: int)
    requires
        lo <= hi,
    ensures
        lo <= last_clean(s, lo, hi) <= hi,
        last_clean(s, lo, hi) > lo ==> clean_at(s, last_clean(s, lo, hi)),
        forall|t: int| lo < t <= hi && clean_at(s, t) ==> last_clean(s, lo, hi) >= t,
    decreases hi - lo,
{
    if hi > lo && !clean_at(s, hi) {
        lemma_last_clean(s, lo, hi - 1);
    }
}

/// What `refine_cuts` keeps: its cuts lie after `cur` and inside `s`, grow
/// strictly, split no word and include every cut of `q`; when every word
/// fits in `cap` bytes, so does every chunk between `cur` and the end.
proof fn lemma_refine_cuts(s: Seq<u8>, cap: int, q: Seq<int>, cur: int)
    requires
        cap >= 1,
        0 <= cur,
        forall|i: int, j: int| 0 <= i < j < q.len() ==> q[i] < q[j],
        forall|i: int| 0 <= i < q.len() ==> cur < #[trigger] q[i] < s.len() && clean_at(s, q[i]),
    ensures
        ({
            let r = refine_cuts(s, cap, q, cur);
            let b = seq![cur] + r + seq![s.len() as int];
            &&& forall|i: int| 0 <= i < r.len() ==> cur < #[trigger] r[i] < s.len() && clean_at(s, r[i])
            &&& forall|i: int, j: int| 0 <= i < j < r.len() ==> r[i] < r[j]
            &&& forall|i: int| 0 <= i < q.len() ==> r.contains(#[trigger] q[i])
            &&& (words_fit(s, cap) && cur < s.len()) ==> forall|i: int|
                0 <= i < b.len() - 1 ==> #[trigger] b[i + 1] - b[i] <= cap
        }),
    decreases s.len() - cur,
{
    let r = refine_cuts(s, cap, q, cur);
    let b = seq![cur] + r + seq![s.len() as int];
    if cur >= s.len() {
        if q.len() > 0 {
            assert(q[0] < s.len());
        }
        return;
    }
    let m = if q.len() > 0 {
        q[0]
    } else {
        s.len() as int
    };
    let m1 = if m > cur {
        m
    } else {
        cur + 1
    };
    let c = next_cut(s, cap, cur, m);
    lemma_last_clean(s, cur, cur + cap);
    lemma_advance_clean(s, cur + 1);
    assert(cur < c <= m1);
    // under words_fit, a chunk longer than cap has a clean cut within cap
    if words_fit(s, cap) && m1 - cur > cap {
        assert(cur + cap < s.len());
        assert(has_space_in(s, cur, cur + cap));
        let t = choose|t: int| cur <= t <= cur + cap && is_ascii_space_byte(s[t]);
        if t > cur {
            assert(clean_at(s, t));
        } else {
            assert(clean_at(s, cur + 1));
        }
        assert(c <= cur + cap);
    }
    if q.len() > 0 {
        assert(m == q[0] && m1 == q[0]);
    }
    if c >= s.len() {
        assert(q.len() == 0);
        assert(r =~= Seq::<int>::empty());
        assert(b =~= seq![cur, s.len() as int]);
    } else {
        assert(clean_at(s, c));
        let q2 = if q.len() > 0 && c >= q[0] {
            q.drop_first()
        } else {
            q
        };
        assert forall|i: int| 0 <= i < q2.len() implies c < #[trigger] q2[i] < s.len() && clean_at(
            s,
            q2[i],
        ) by {
            if q.len() > 0 && c >= q[0] {
                assert(q2[i] == q[i + 1]);
                assert(q[0] < q[i + 1]);
            } else {
                if i > 0 {
                    assert(q[0] < q[i]);
                }
            }
        }
        assert forall|i: int, j: int| 0 <= i < j < q2.len() implies q2[i] < q2[j] by {
            if q.len() > 0 && c >= q[0] {
                assert(q2[i] == q[i + 1] && q2[j] == q[j + 1]);
            }
        }
        lemma_refine_cuts(s, cap, q2, c);
        let r2 = refine_cuts(s, cap, q2, c);
        assert(r == seq![c] + r2);
        let b2 = seq![c] + r2 + seq![s.len() as int];
        assert forall|i: int| 0 <= i < q.len() implies r.contains(#[trigger] q[i]) by {
            if q.len() > 0 && c >= q[0] && i == 0 {
                assert(r[0] == q[0]);
            } else {
                let i2 = if q.len() > 0 && c >= q[0] {
                    i - 1
                } else {
                    i
                };
                assert(q2[i2] == q[i]);
                assert(r2.contains(q2[i2]));
                let t = choose|t: int| 0 <= t < r2.len() && r2[t] == q2[i2];
                assert(r[t + 1] == q[i]);
            }
        }
        assert forall|i: int| 0 <= i < r.len() implies cur < #[trigger] r[i] < s.len() && clean_at(
            s,
            r[i],
        ) by {
            if i > 0 {
                assert(r[i] == r2[i - 1]);
            }
        }
        assert forall|i: int, j: int| 0 <= i < j < r.len() implies r[i] < r[j] by {
            assert(r[j] == r2[j - 1]);
            if i > 0 {
                assert(r[i] == r2[i - 1]);
            }
        }
        if words_fit(s, cap) {
            assert forall|i: int| 0 <= i < b.len() - 1 implies #[trigger] b[i + 1] - b[i] <= cap by {
                if i > 0 {
                    assert(b[i] == b2[i - 1] && b[i + 1] == b2[i]);
                    assert(b2[i - 1 + 1] - b2[i - 1] <= cap);
                } else {
                    assert(b[0] == cur && b[1] == c);
                }
            }
        }
    }
}

/// Normalizes the input of a job and cuts it into the chunks that the maps
/// consume: where text_splitter cuts, each cut moved to the first place that
/// splits no word, with more such cuts wherever a chunk would grow past the
/// chunk size. When every word fits in the chunk size (in bytes), so does
/// every chunk.
pub fn split_text(content: &str, chunk_size: usize) -> (r: Vec<Vec<u8>>)
    ensures
        bytes_views(r@) == split_spec(content@, chunk_size),
        words_fit(encode_utf8(normalized(content@)), effective_capacity(chunk_size) as int) ==> forall|
            i: int,
        |
            0 <= i < r@.len() ==> (#[trigger] r@[i])@.len() <= effective_capacity(chunk_size),
{
    let norm = normalize_text(content);
    let capacity: usize = if chunk_size == 0 {
        1
    } else {
        chunk_size
    };
    let offsets = chunk_offsets(norm.as_str(), capacity);
    let bytes = norm.as_str().as_bytes_vec();
    let cuts = aligned_offsets(&bytes, &offsets);
    proof {
        lemma_aligned_cuts_sorted(bytes@, offsets@);
        assert forall|i: int| 0 <= i < cuts@.len() implies #[trigger] cuts@[i] <= bytes@.len() by {
            assert(as_ints(cuts@)[i] == cuts@[i] as int);
        }
    }
    let refined = refine(&bytes, capacity, &cuts);
    let ghost text = bytes@;
    let ghost rc = as_ints(refined@);
    proof {
        lemma_final_cuts(text, offsets@, capacity as int);
        assert(rc == final_cuts(text, offsets@, capacity as int));
        assert(rc.len() == refined@.len());
        assert forall|i: int| 0 <= i < refined@.len() implies 0 < #[trigger] refined@[i] < text.len() by {
            assert(rc[i] == refined@[i] as int);
        }
        assert forall|i: int, j: int| 0 <= i < j < refined@.len() implies refined@[i] < refined@[j] by {
            assert(rc[i] == refined@[i] as int && rc[j] == refined@[j] as int);
        }
    }
    let r = cut_pieces(&bytes, &refined);
    proof {
        if words_fit(text, capacity as int) {
            assert forall|i: int| 0 <= i < r@.len() implies (#[trigger] r@[i])@.len() <= capacity by {
                assert(bytes_views(r@)[i] == r@[i]@);
            }
        }
    }
    r
}

/// What the final cuts keep, over any offsets: inner cuts that grow
/// strictly, split no word, include every aligned text_splitter cut, and,
/// when every word fits in `cap` bytes, chunks of at most `cap` bytes.
pub proof fn lemma_final_cuts(s: Seq<u8>, offsets: Seq<usize>, cap: int)
    requires
        cap >= 1,
    ensures
        forall|i: int|
            0 <= i < final_cuts(s, offsets, cap).len() ==> 0 < #[trigger] final_cuts(s, offsets, cap)[i]
                < s.len() && clean_at(s, final_cuts(s, offsets, cap)[i]),
        forall|i: int, j: int|
            0 <= i < j < final_cuts(s, offsets, cap).len() ==> final_cuts(s, offsets, cap)[i]
                < final_cuts(s, offsets, cap)[j],
        forall|i: int|
            0 <= i < aligned_cuts(s, offsets).len() ==> final_cuts(s, offsets, cap).contains(
                #[trigger] aligned_cuts(s, offsets)[i],
            ),
        words_fit(s, cap) ==> forall|i: int|
            0 <= i < chunk_pieces(s, final_cuts(s, offsets, cap)).len() ==> (#[trigger] chunk_pieces(
                s,
                final_cuts(s, offsets, cap),
            )[i]).len() <= cap,
{
    lemma_aligned_cuts_sorted(s, offsets);
    let q = aligned_cuts(s, offsets);
    lemma_refine_cuts(s, cap, q, 0);
    let r = final_cuts(s, offsets, cap);
    if words_fit(s, cap) && s.len() > 0 {
        let b = seq![0int] + r + seq![s.len() as int];
        assert(b =~= chunk_bounds(s, r));
        assert forall|i: int| 0 <= i < chunk_pieces(s, r).len() implies (#[trigger] chunk_pieces(
            s,
            r,
        )[i]).len() <= cap by {
            assert(b[i + 1] - b[i] <= cap);
            assert(b[i] <= b[i + 1]) by {
                if 0 < i && i + 1 < b.len() - 1 {
                    assert(b[i] == r[i - 1] && b[i + 1] == r[i]);
                } else if 0 < i {
                    assert(b[i] == r[i - 1]);
                } else if i + 1 < b.len() - 1 {
                    assert(b[i + 1] == r[i]);
                }
            }
        }
    }
}

proof fn lemma_prefix_pieces(s: Seq<u8>, b: Seq<int>, k: int)
    requires
        b.len() > 0,
        b[0] == 0,
        forall|i: int, j: int| 0 <= i < j < b.len() ==> b[i] <= b[j],
        forall|i: int| 0 <= i < b.len() ==> 0 <= #[trigger] b[i] <= s.len(),
        0 <= k < b.len(),
    ensures
        Seq::new(k as nat, |i: int| s.subrange(b[i], b[i + 1])).flatten() == s.subrange(0, b[k]),
    decreases k,
{
    let f = |i: int| s.subrange(b[i], b[i + 1]);
    if k == 0 {
        assert(Seq::new(0, f) =~= Seq::<Seq<u8>>::empty());
        assert(s.subrange(0, 0) =~= Seq::<u8>::empty());
    } else {
        lemma_prefix_pieces(s, b, k - 1);
        assert(Seq::new(k as nat, f) =~= Seq::new((k - 1) as nat, f).push(f(k - 1)));
        Seq::new((k - 1) as nat, f).lemma_flatten_push(f(k - 1));
        assert(s.subrange(0, b[k - 1]) + s.subrange(b[k - 1], b[k]) =~= s.subrange(0, b[k]));
    }
}

/// Cutting a text into map inputs loses nothing and splits no word, for any
/// offsets text_splitter gives and any chunk size: concatenating the chunks
/// gives the text back, no chunk is empty, where one chunk ends and the next
/// begins there is ASCII whitespace on at least one side, and so the words
/// of the chunks, in order, are the words of the text.
pub proof fn lemma_chunks_keep_words(s: Seq<u8>, offsets: Seq<usize>, cap: int)
    requires
        cap >= 1,
    ensures
        chunk_pieces(s, final_cuts(s, offsets, cap)).flatten() == s,
        forall|i: int|
            0 <= i < chunk_pieces(s, final_cuts(s, offsets, cap)).len() ==> (#[trigger] chunk_pieces(
                s,
                final_cuts(s, offsets, cap),
            )[i]).len() > 0,
        forall|i: int|
            0 <= i < chunk_pieces(s, final_cuts(s, offsets, cap)).len() - 1 ==> {
                let a = #[trigger] chunk_pieces(s, final_cuts(s, offsets, cap))[i];
                let b = chunk_pieces(s, final_cuts(s, offsets, cap))[i + 1];
                is_ascii_space_byte(a.last()) || is_ascii_space_byte(b.first())
            },
        chunk_pieces(s, final_cuts(s, offsets, cap)).map_values(|p: Seq<u8>| words(p)).flatten()
            == words(s),
{
    let cuts = final_cuts(s, offsets, cap);
    let pieces = chunk_pieces(s, cuts);
    lemma_final_cuts(s, offsets, cap);
    if s.len() == 0 {
        assert(pieces =~= Seq::<Seq<u8>>::empty());
        assert(s =~= Seq::<u8>::empty());
    } else {
        let b = chunk_bounds(s, cuts);
        assert(b.len() == cuts.len() + 2);
        assert forall|i: int| 0 <= i < b.len() implies 0 <= #[trigger] b[i] <= s.len() by {
            if 0 < i < b.len() - 1 {
                assert(b[i] == cuts[i - 1]);
            }
        }
        assert forall|i: int, j: int| 0 <= i < j < b.len() implies b[i] < b[j] by {
            if 0 < i && j < b.len() - 1 {
                assert(b[i] == cuts[i - 1] && b[j] == cuts[j - 1]);
            } else if 0 < i {
                assert(b[i] == cuts[i - 1]);
            } else if j < b.len() - 1 {
                assert(b[j] == cuts[j - 1]);
            }
        }
        lemma_prefix_pieces(s, b, cuts.len() + 1int);
        let f = |i: int| s.subrange(b[i], b[i + 1]);
        assert(pieces =~= Seq::new((cuts.len() + 1) as nat, f));
        assert(s.subrange(0, b[cuts.len() + 1int]) =~= s);
        assert forall|i: int| 0 <= i < pieces.len() implies (#[trigger] pieces[i]).len() > 0 by {
            assert(b[i] < b[i + 1]);
        }
        assert forall|i: int| 0 <= i < pieces.len() - 1 implies {
            let a = #[trigger] pieces[i];
            let c = pieces[i + 1];
            is_ascii_space_byte(a.last()) || is_ascii_space_byte(c.first())
        } by {
            assert(b[i] < b[i + 1] && b[i + 1] < b[i + 2]);
            assert(b[i + 1] == cuts[i]);
            assert(clean_at(s, cuts[i]));
            assert(pieces[i].last() == s[cuts[i] - 1]);
            assert(pieces[i + 1].first() == s[cuts[i] as int]);
        }
    }
    lemma_words_of_pieces(pieces);
}

proof fn lemma_words_nonempty(s: Seq<u8>)
    requires
        s.len() > 0,
        !is_ascii_space_byte(s.last()),
    ensures
        words(s).len() > 0,
    decreases s.len(),
{
    let prev = words(s.drop_last());
    if s.len() > 1 && !is_ascii_space_byte(s[s.len() - 2]) {
        assert(s.drop_last().last() == s[s.len() - 2]);
        lemma_words_nonempty(s.drop_last());
    }
}

/// The words of two texts joined where no word is cut are the words of the
/// first followed by the words of the second.
pub proof fn lemma_words_append(a: Seq<u8>, b: Seq<u8>)
    requires
        a.len() == 0 || b.len() == 0 || is_ascii_space_byte(a.last()) || is_ascii_space_byte(
            b.first(),
        ),
    ensures
        words(a + b) == words(a) + words(b),
    decreases b.len(),
{
    if b.len() == 0 {
        assert(a + b =~= a);
        assert(words(b) =~= Seq::<Seq<u8>>::empty());
        assert(words(a) + words(b) =~= words(a));
    } else {
        let b1 = b.drop_last();
        let c = b.last();
        let ab = a + b;
        assert(ab.drop_last() =~= a + b1);
        assert(ab.last() == c);
        if b1.len() > 0 {
            assert(b1.first() == b.first());
        }
        lemma_words_append(a, b1);
        let wa = words(a);
        let wb1 = words(b1);
        if is_ascii_space_byte(c) {
        } else if ab.len() > 1 && !is_ascii_space_byte(ab[ab.len() - 2]) {
            if b1.len() == 0 {
                assert(a.len() > 0);
                assert(ab[ab.len() - 2] == a.last());
                assert(b.first() == c);
                assert(false);
            }
            assert(ab[ab.len() - 2] == b[b.len() - 2]);
            assert(b1.last() == b[b.len() - 2]);
            lemma_words_nonempty(b1);
            assert(words(b) == wb1.update(wb1.len() - 1, wb1.last().push(c)));
            assert((wa + wb1).last() == wb1.last());
            assert((wa + wb1).update((wa + wb1).len() - 1, wb1.last().push(c)) =~= wa + wb1.update(
                wb1.len() - 1,
                wb1.last().push(c),
            ));
        } else {
            if b1.len() > 0 {
                assert(ab[ab.len() - 2] == b[b.len() - 2]);
            }
            assert(words(b) == wb1.push(seq![c]));
            assert((wa + wb1).push(seq![c]) =~= wa + wb1.push(seq![c]));
        }
    }
}

/// The words of pieces that are not empty and meet only where no word is
/// cut are, in order, the words of the whole.
proof fn lemma_words_of_pieces(pieces: Seq<Seq<u8>>)
    requires
        forall|i: int| 0 <= i < pieces.len() ==> (#[trigger] pieces[i]).len() > 0,
        forall|i: int|
            0 <= i < pieces.len() - 1 ==> is_ascii_space_byte((#[trigger] pieces[i]).last())
                || is_ascii_space_byte(pieces[i + 1].first()),
    ensures
        pieces.map_values(|p: Seq<u8>| words(p)).flatten() == words(pieces.flatten()),
        pieces.len() > 0 ==> pieces.flatten().len() > 0 && pieces.flatten().last()
            == pieces.last().last(),
    decreases pieces.len(),
{
    let f = |p: Seq<u8>| words(p);
    if pieces.len() == 0 {
        assert(pieces.map_values(f) =~= Seq::<Seq<Seq<u8>>>::empty());
        assert(pieces.flatten() =~= Seq::<u8>::empty());
        assert(words(Seq::<u8>::empty()) =~= Seq::<Seq<u8>>::empty());
    } else {
        let init = pieces.drop_last();
        let p = pieces.last();
        assert(init.push(p) =~= pieces);
        assert forall|i: int| 0 <= i < init.len() implies (#[trigger] init[i]).len() > 0 by {
            assert(init[i] == pieces[i]);
        }
        assert forall|i: int| 0 <= i < init.len() - 1 implies is_ascii_space_byte(
            (#[trigger] init[i]).last(),
        ) || is_ascii_space_byte(init[i + 1].first()) by {
            assert(init[i] == pieces[i] && init[i + 1] == pieces[i + 1]);
        }
        lemma_words_of_pieces(init);
        init.lemma_flatten_push(p);
        assert(pieces.map_values(f) =~= init.map_values(f).push(words(p)));
        init.map_values(f).lemma_flatten_push(words(p));
        if init.len() > 0 {
            assert(init.last() == pieces[pieces.len() - 2]);
            assert(pieces[pieces.len() - 2 + 1] == p);
        }
        lemma_words_append(init.flatten(), p);
        assert(p.len() > 0);
        assert(pieces.flatten() == init.flatten() + p);
        assert((init.flatten() + p).last() == p.last());
    }
}

} // verus!
