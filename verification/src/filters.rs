use vstd::prelude::*;
use vstd::hash_set::StringHashSet;
use crate::mtimes::{holds_string, string_set};
use crate::text::{chars_of, starts_with, seq_starts_with};

verus! {

/// Which indexed paths a requested source covers: the files a glob pattern
/// matched, or everything under a directory's canonical path (a plain
/// string prefix).
pub enum SourceFilter {
    Matches(StringHashSet),
    Prefix(String),
}

/// Whether the filter `f` accepts `path`.
pub open spec fn filter_accepts(f: SourceFilter, path: Seq<char>) -> bool {
    match f {
        SourceFilter::Matches(set) => set@.contains(path),
        SourceFilter::Prefix(root) => seq_starts_with(path, root@),
    }
}

impl SourceFilter {
    /// A filter accepting exactly the given paths.
    pub fn matching(paths: &[String]) -> (r: SourceFilter)
        ensures
            forall|p: Seq<char>| filter_accepts(r, p) <==> holds_string(paths@, p),
    {
        SourceFilter::Matches(string_set(paths))
    }

    /// A filter accepting the paths that begin with `root`.
    pub fn under(root: String) -> (r: SourceFilter)
        ensures
            forall|p: Seq<char>| filter_accepts(r, p) <==> seq_starts_with(p, root@),
    {
        SourceFilter::Prefix(root)
    }

    /// Whether this filter accepts `path`.
    pub fn accepts(&self, path: &str) -> (r: bool)
        ensures
            r == filter_accepts(*self, path@),
    {
        match self {
            SourceFilter::Matches(set) => set.contains(path),
            SourceFilter::Prefix(root) => under_root(path, root.as_str()),
        }
    }
}

/// Whether `path` begins with the string `root`.
pub fn under_root(path: &str, root: &str) -> (r: bool)
    ensures
        r == seq_starts_with(path@, root@),
{
    let pc = chars_of(path);
    let rc = chars_of(root);
    starts_with(pc.as_slice(), rc.as_slice())
}

/// Whether some filter of `filters` accepts `path`.
pub fn accepted_by_any(filters: &[SourceFilter], path: &str) -> (r: bool)
    ensures
        r == exists|i: int| 0 <= i < filters.len() && filter_accepts(#[trigger] filters@[i], path@),
{
    let mut i: usize = 0;
    while i < filters.len()
        invariant
            i <= filters.len(),
            forall|j: int| 0 <= j < i ==> !filter_accepts(#[trigger] filters@[j], path@),
        decreases filters.len() - i,
    {
        if filters[i].accepts(path) {
            return true;
        }
        i = i + 1;
    }
    false
}

/// The paths of `paths` that begin with `root`, in order.
pub fn keep_under_root(paths: Vec<String>, root: &str) -> (r: Vec<String>)
    ensures
        r@.map_values(|s: String| s@) == paths@.map_values(|s: String| s@).filter(|p: Seq<char>| seq_starts_with(p, root@)),
{
    let ghost pv = paths@.map_values(|s: String| s@);
    let ghost pred = |p: Seq<char>| seq_starts_with(p, root@);
    let mut out: Vec<String> = Vec::new();
    let mut i: usize = 0;
    proof {
        reveal(Seq::filter);
    }
    assert(pv.take(0) == Seq::<Seq<char>>::empty());
    while i < paths.len()
        invariant
            pv == paths@.map_values(|s: String| s@),
            pred == (|p: Seq<char>| seq_starts_with(p, root@)),
            i <= paths.len(),
            out@.map_values(|s: String| s@) == pv.take(i as int).filter(pred),
        decreases paths.len() - i,
    {
        let ghost before = out@.map_values(|s: String| s@);
        assert(pv[i as int] == paths@[i as int]@);
        assert(pv.take(i + 1) == pv.take(i as int).push(pv[i as int]));
        proof {
            pv.take(i as int).lemma_filter_push(pv[i as int], pred);
        }
        if under_root(paths[i].as_str(), root) {
            out.push(paths[i].clone());
            assert(out@.map_values(|s: String| s@) =~= before.push(pv[i as int]));
        }
        i = i + 1;
    }
    assert(pv.take(paths.len() as int) == pv);
    out
}

/// The number of worker threads: the count asked for when positive, else the
/// number of CPUs.
pub fn thread_count(jobs: i32, cpus: usize) -> (r: usize)
    ensures
        r == if jobs <= 0 {
            cpus as int
        } else {
            jobs as int
        },
{
    if jobs <= 0 {
        cpus
    } else {
        jobs as usize
    }
}

} // verus!
