//! Status values that a job's visualizer shows, and the file name it
//! labels the input with.
use vstd::prelude::*;

verus! {

/// How a node of the job graph is drawn.
#[derive(Clone, Copy, Debug, PartialEq, Eq, Structural)]
pub enum NodeStatus {
    Failed,
    Default,
    Finished,
}

/// What a node of the job graph stands for.
#[derive(Clone, Copy, Debug, PartialEq, Eq, Structural)]
pub enum NodeType {
    InputNode,
    MapNode,
    ReduceNode,
    ResultNode,
}

/// The position just after the last `/` of `s`, or 0 when it has none.
pub open spec fn after_last_slash(s: Seq<char>) -> int
    decreases s.len(),
{
    if s.len() == 0 {
        0
    } else if s.last() == '/' {
        s.len() as int
    } else {
        after_last_slash(s.drop_last())
    }
}

/// The last `/`-separated part of a path; empty when there is no path.
pub open spec fn file_name_of(path: Option<Seq<char>>) -> Seq<char> {
    match path {
        Some(p) => p.subrange(after_last_slash(p), p.len() as int),
        None => Seq::empty(),
    }
}

proof fn lemma_after_last_slash(s: Seq<char>, i: int)
    requires
        0 <= i < s.len(),
    ensures
        after_last_slash(s.take(i + 1)) == if s[i] == '/' {
            i + 1
        } else {
            after_last_slash(s.take(i))
        },
        0 <= after_last_slash(s.take(i + 1)) <= i + 1,
    decreases i,
{
    assert(s.take(i + 1).drop_last() =~= s.take(i));
    if i > 0 {
        lemma_after_last_slash(s, i - 1);
        assert(s.take(i - 1 + 1) == s.take(i));
        assert(0 <= after_last_slash(s.take(i)) <= i);
    } else {
        assert(s.take(0).len() == 0);
        assert(after_last_slash(s.take(0)) == 0);
    }
}

/// The file name of the path the user opened, for the input node's label.
pub fn extract_file_name_from_path(opened_file: &Option<String>) -> (r: String)
    ensures
        r@ == file_name_of(
            match opened_file {
                Some(p) => Some(p@),
                None => None,
            },
        ),
{
    match opened_file {
        None => String::new(),
        Some(path) => {
            let s = path.as_str();
            let n = s.unicode_len();
            let mut start: usize = 0;
            let mut i: usize = 0;
            while i < n
                invariant
                    n == s@.len(),
                    i <= n,
                    start as int == after_last_slash(s@.take(i as int)),
                    start <= i,
                decreases n - i,
            {
                proof {
                    lemma_after_last_slash(s@, i as int);
                }
                if s.get_char(i) == '/' {
                    start = i + 1;
                }
                i = i + 1;
            }
            proof {
                assert(s@.take(n as int) =~= s@);
            }
            String::from_str(s.substring_char(start, n))
        },
    }
}

} // verus!
