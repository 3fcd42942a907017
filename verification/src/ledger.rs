use vstd::prelude::*;
use crate::mtimes::{MtimeTable, FileAction, file_action, holds_string, distinct_strings};
use crate::text::seq_starts_with;

verus! {

/// The strings of `v[..n]`.
pub open spec fn prefix_set(v: Seq<String>, n: int) -> Set<Seq<char>> {
    Set::new(|k: Seq<char>| exists|j: int| 0 <= j < n && (#[trigger] v[j])@ == k)
}

proof fn lemma_prefix_set_step(v: Seq<String>, n: int)
    requires
        0 <= n < v.len(),
    ensures
        prefix_set(v, n + 1) == prefix_set(v, n).insert(v[n]@),
{
    assert forall|k: Seq<char>| prefix_set(v, n + 1).contains(k) <==> prefix_set(v, n).insert(v[n]@).contains(k) by {
        if prefix_set(v, n + 1).contains(k) {
            let j = choose|j: int| 0 <= j < n + 1 && (#[trigger] v[j])@ == k;
            if j < n {
                assert(prefix_set(v, n).contains(k));
            }
        }
        if prefix_set(v, n).contains(k) {
            let j = choose|j: int| 0 <= j < n && (#[trigger] v[j])@ == k;
            assert(0 <= j < n + 1 && v[j]@ == k);
        }
        if k == v[n]@ {
            assert(0 <= n < n + 1 && v[n]@ == k);
        }
    }
    assert(prefix_set(v, n + 1) =~= prefix_set(v, n).insert(v[n]@));
}

/// Documents added between two intermediate commits of the index writer
/// during one walk.
pub const COMMIT_BATCH: usize = 500;

/// Whether a file of `len` bytes may be indexed under the size limit `max`
/// (none when `max` is `None`).
pub fn fits_max_filesize(len: u64, max: Option<u64>) -> (r: bool)
    ensures
        r == match max {
            Some(m) => len <= m,
            None => true,
        },
{
    match max {
        Some(m) => len <= m,
        None => true,
    }
}

/// One document that a walk (re)indexes: the file's path and modification
/// time, whether its old document is deleted first, and whether an
/// intermediate commit follows it.
#[derive(Debug, Clone, PartialEq, Eq)]
pub struct IndexStep {
    pub path: String,
    pub mtime: u64,
    pub replace: bool,
    pub flush: bool,
}

/// The files that a walk found, as plain values: each file's path, its
/// modification time, and whether its text can be indexed.
pub open spec fn walk_view(walk: Seq<(String, u64, bool)>) -> Seq<(Seq<char>, u64, bool)> {
    walk.map_values(|t: (String, u64, bool)| (t.0@, t.1, t.2))
}

/// The documents of `steps` as (path, modification time, delete first).
pub open spec fn step_view(steps: Seq<IndexStep>) -> Seq<(Seq<char>, u64, bool)> {
    steps.map_values(|s: IndexStep| (s.path@, s.mtime, s.replace))
}

/// Whether a walk that found the file `f` (its path, its modification time,
/// and whether its text can be indexed) indexes it, given the recorded times
/// `prev`: the file must be readable and not kept as it is.
pub open spec fn indexes_file(prev: Map<Seq<char>, u64>, f: (Seq<char>, u64, bool), force: bool) -> bool {
    f.2 && file_action(prev, f.0, f.1, force) != FileAction::Keep
}

/// The recorded times after the files `walk` found were handled in order:
/// each file indexed gets its modification time recorded.
pub open spec fn pass_times(m: Map<Seq<char>, u64>, walk: Seq<(Seq<char>, u64, bool)>, force: bool) -> Map<Seq<char>, u64>
    decreases walk.len(),
{
    if walk.len() == 0 {
        m
    } else {
        let prev = pass_times(m, walk.drop_last(), force);
        let f = walk.last();
        if indexes_file(prev, f, force) {
            prev.insert(f.0, f.1)
        } else {
            prev
        }
    }
}

/// The documents that a walk over `walk` adds, in walk order, each as its
/// path, its modification time and whether the old document is deleted
/// first (a time was recorded for it).
pub open spec fn pass_steps(m: Map<Seq<char>, u64>, walk: Seq<(Seq<char>, u64, bool)>, force: bool) -> Seq<(Seq<char>, u64, bool)>
    decreases walk.len(),
{
    if walk.len() == 0 {
        Seq::empty()
    } else {
        let prev = pass_times(m, walk.drop_last(), force);
        let rest = pass_steps(m, walk.drop_last(), force);
        let f = walk.last();
        if indexes_file(prev, f, force) {
            rest.push((f.0, f.1, file_action(prev, f.0, f.1, force) == FileAction::Replace))
        } else {
            rest
        }
    }
}

/// Whether the walk found the file at `k`.
pub open spec fn walk_finds(walk: Seq<(Seq<char>, u64, bool)>, k: Seq<char>) -> bool {
    exists|i: int| 0 <= i < walk.len() && (#[trigger] walk[i]).0 == k
}

/// The recorded paths under `root` that the walk did not find, whose
/// documents a walk deletes.
pub open spec fn pass_stale(m: Map<Seq<char>, u64>, root: Seq<char>, walk: Seq<(Seq<char>, u64, bool)>, force: bool) -> Set<Seq<char>> {
    Set::new(|k: Seq<char>| pass_times(m, walk, force).contains_key(k) && seq_starts_with(k, root) && !walk_finds(walk, k))
}

/// The recorded times after a whole walk of `root`.
pub open spec fn after_pass(m: Map<Seq<char>, u64>, root: Seq<char>, walk: Seq<(Seq<char>, u64, bool)>, force: bool) -> Map<Seq<char>, u64> {
    pass_times(m, walk, force).remove_keys(pass_stale(m, root, walk, force))
}

/// Whether a walk changes the index: it adds a document or deletes a stale
/// one.
pub open spec fn pass_changed(m: Map<Seq<char>, u64>, root: Seq<char>, walk: Seq<(Seq<char>, u64, bool)>, force: bool) -> bool {
    pass_steps(m, walk, force).len() > 0 || pass_stale(m, root, walk, force) != Set::<Seq<char>>::empty()
}

/// Whether each file is found once.
pub open spec fn distinct_paths(walk: Seq<(Seq<char>, u64, bool)>) -> bool {
    forall|i: int, j: int| 0 <= i < j < walk.len() ==> (#[trigger] walk[i]).0 != (#[trigger] walk[j]).0
}

/// The bookkeeping of one indexing session: the recorded modification
/// times, and whether anything changed (so that the index must be committed
/// and the times saved).
pub struct IndexLedger {
    mtimes: MtimeTable,
    changed: bool,
}

impl IndexLedger {
    /// The recorded modification times.
    pub closed spec fn times(&self) -> Map<Seq<char>, u64> {
        self.mtimes@
    }

    /// Whether the session changed the index.
    pub closed spec fn is_changed(&self) -> bool {
        self.changed
    }

    /// The ledger's invariant.
    pub closed spec fn wf(&self) -> bool {
        self.mtimes.wf()
    }

    /// A session starting from the recorded times `mtimes`.
    pub fn new(mtimes: MtimeTable) -> (r: Self)
        requires
            mtimes.wf(),
        ensures
            r.wf(),
            r.times() == mtimes@,
            !r.is_changed(),
    {
        IndexLedger { mtimes, changed: false }
    }

    /// The recorded times, to be saved.
    pub fn mtimes(&self) -> (r: &MtimeTable)
        ensures
            r@ == self.times(),
    {
        &self.mtimes
    }

    /// The recorded times, handed back at the end of the session.
    pub fn into_mtimes(self) -> (r: MtimeTable)
        requires
            self.wf(),
        ensures
            r.wf(),
            r@ == self.times(),
    {
        self.mtimes
    }

    /// Whether the index must be committed and the times saved.
    pub fn changed(&self) -> (r: bool)
        ensures
            r == self.is_changed(),
    {
        self.changed
    }

    /// What to do with a file found by the walk (see [`file_action`]).
    pub fn plan_file(&self, path: &str, mtime: u64, force: bool) -> (r: FileAction)
        ensures
            r == file_action(self.times(), path@, mtime, force),
    {
        self.mtimes.plan_file(path, mtime, force)
    }

    /// Plays a whole walk of `root` over the files it found (`walk`: each
    /// file's path, its modification time, and whether its text can be
    /// indexed, which matters only for a file not kept as it is). Records the
    /// times of the files indexed and forgets the stale ones; returns the
    /// documents to add, in walk order, with an intermediate commit after
    /// every `COMMIT_BATCH` of them, and the stale paths whose documents are
    /// deleted.
    pub fn apply_walk(&mut self, root: &str, walk: &[(String, u64, bool)], force: bool) -> (r: (Vec<IndexStep>, Vec<String>))
        requires
            old(self).wf(),
        ensures
            final(self).wf(),
            final(self).times() == after_pass(old(self).times(), root@, walk_view(walk@), force),
            step_view(r.0@) == pass_steps(old(self).times(), walk_view(walk@), force),
            forall|j: int| 0 <= j < r.0@.len() ==> (#[trigger] r.0@[j]).flush == ((j + 1) % (COMMIT_BATCH as int) == 0),
            distinct_strings(r.1@),
            forall|k: Seq<char>| #[trigger] holds_string(r.1@, k) <==> pass_stale(old(self).times(), root@, walk_view(walk@), force).contains(k),
            final(self).is_changed() == (old(self).is_changed() || pass_changed(old(self).times(), root@, walk_view(walk@), force)),
    {
        let ghost m0 = self.mtimes@;
        let ghost wv = walk_view(walk@);
        let mut steps: Vec<IndexStep> = Vec::new();
        let mut found: Vec<String> = Vec::new();
        let mut i: usize = 0;
        assert(wv.take(0) == Seq::<(Seq<char>, u64, bool)>::empty());
        assert(step_view(steps@) =~= Seq::<(Seq<char>, u64, bool)>::empty());
        while i < walk.len()
            invariant
                self.mtimes.wf(),
                self.changed == old(self).changed,
                m0 == old(self).mtimes@,
                wv == walk_view(walk@),
                i <= walk.len(),
                steps@.len() <= i,
                self.mtimes@ == pass_times(m0, wv.take(i as int), force),
                step_view(steps@) == pass_steps(m0, wv.take(i as int), force),
                forall|j: int| 0 <= j < steps@.len() ==> (#[trigger] steps@[j]).flush == ((j + 1) % (COMMIT_BATCH as int) == 0),
                found@.len() == i,
                forall|j: int| 0 <= j < i ==> (#[trigger] found@[j])@ == wv[j].0,
            decreases walk.len() - i,
        {
            let path = &walk[i].0;
            let mtime = walk[i].1;
            let readable = walk[i].2;
            proof {
                assert(wv.take(i + 1).drop_last() == wv.take(i as int));
                assert(wv.take(i + 1).last() == wv[i as int]);
                assert(wv[i as int] == (walk@[i as int].0@, walk@[i as int].1, walk@[i as int].2));
            }
            let action = self.mtimes.plan_file(path.as_str(), mtime, force);
            if readable && action != FileAction::Keep {
                let n = steps.len();
                let flush = (n + 1) % COMMIT_BATCH == 0;
                let ghost before = steps@;
                steps.push(IndexStep { path: path.clone(), mtime, replace: action == FileAction::Replace, flush });
                assert(step_view(steps@) =~= step_view(before).push((path@, mtime, action == FileAction::Replace)));
                self.mtimes.insert(path.clone(), mtime);
            }
            found.push(path.clone());
            i = i + 1;
        }
        assert(wv.take(walk.len() as int) == wv);
        let stale = self.mtimes.stale_under(root, &found);
        assert forall|k: Seq<char>| holds_string(found@, k) <==> walk_finds(wv, k) by {
            if holds_string(found@, k) {
                let j = choose|j: int| 0 <= j < found@.len() && (#[trigger] found@[j])@ == k;
                assert(wv[j].0 == k);
            }
            if walk_finds(wv, k) {
                let j = choose|j: int| 0 <= j < wv.len() && (#[trigger] wv[j]).0 == k;
                assert(found@[j]@ == k);
            }
        }
        let ghost stale_set = pass_stale(m0, root@, wv, force);
        assert(Set::new(|k: Seq<char>| holds_string(stale@, k)) =~= stale_set);
        self.forget_each(&stale);
        if steps.len() > 0 {
            self.changed = true;
        }
        proof {
            if stale@.len() > 0 {
                assert(holds_string(stale@, stale@[0]@));
                assert(stale_set.contains(stale@[0]@));
            }
            if stale_set != Set::<Seq<char>>::empty() {
                assert(!(stale_set =~= Set::<Seq<char>>::empty()));
                let k = choose|k: Seq<char>| stale_set.contains(k);
                assert(holds_string(stale@, k));
            }
            assert(step_view(steps@).len() == steps@.len());
        }
        (steps, stale)
    }

    /// Forgets the recorded files `paths`; the session counts as changed
    /// when there was at least one.
    pub fn forget_each(&mut self, paths: &[String])
        requires
            old(self).wf(),
        ensures
            final(self).wf(),
            final(self).times() == old(self).times().remove_keys(Set::new(|k: Seq<char>| holds_string(paths@, k))),
            final(self).is_changed() == (old(self).is_changed() || paths@.len() > 0),
    {
        let mut i: usize = 0;
        assert(prefix_set(paths@, 0) =~= Set::<Seq<char>>::empty());
        assert(old(self).mtimes@.remove_keys(Set::<Seq<char>>::empty()) =~= old(self).mtimes@);
        while i < paths.len()
            invariant
                self.wf(),
                i <= paths.len(),
                self.changed == old(self).changed,
                self.mtimes@ == old(self).mtimes@.remove_keys(prefix_set(paths@, i as int)),
            decreases paths.len() - i,
        {
            self.mtimes.remove(paths[i].as_str());
            proof {
                lemma_prefix_set_step(paths@, i as int);
                assert(self.mtimes@ =~= old(self).mtimes@.remove_keys(prefix_set(paths@, i + 1)));
            }
            i = i + 1;
        }
        assert(prefix_set(paths@, paths@.len() as int) =~= Set::new(|k: Seq<char>| holds_string(paths@, k)));
        if paths.len() > 0 {
            self.changed = true;
        }
    }
}

proof fn lemma_pass_records(m: Map<Seq<char>, u64>, walk: Seq<(Seq<char>, u64, bool)>, force: bool)
    requires
        distinct_paths(walk),
    ensures
        forall|i: int| 0 <= i < walk.len() && (#[trigger] walk[i]).2 ==> pass_times(m, walk, force).contains_key(walk[i].0)
            && pass_times(m, walk, force)[walk[i].0] == walk[i].1,
    decreases walk.len(),
{
    if walk.len() > 0 {
        let w = walk.drop_last();
        assert(distinct_paths(w)) by {
            assert forall|i: int, j: int| 0 <= i < j < w.len() implies (#[trigger] w[i]).0 != (#[trigger] w[j]).0 by {
                assert(w[i] == walk[i] && w[j] == walk[j]);
            }
        }
        lemma_pass_records(m, w, force);
        assert forall|i: int| 0 <= i < walk.len() && (#[trigger] walk[i]).2 implies pass_times(m, walk, force).contains_key(walk[i].0)
            && pass_times(m, walk, force)[walk[i].0] == walk[i].1 by {
            if i < walk.len() - 1 {
                assert(w[i] == walk[i]);
                assert(walk[i].0 != walk[walk.len() - 1].0);
            }
        }
    }
}

proof fn lemma_pass_keeps(m: Map<Seq<char>, u64>, walk: Seq<(Seq<char>, u64, bool)>)
    requires
        forall|i: int| 0 <= i < walk.len() && (#[trigger] walk[i]).2 ==> m.contains_key(walk[i].0) && m[walk[i].0] == walk[i].1,
    ensures
        pass_times(m, walk, false) == m,
        pass_steps(m, walk, false).len() == 0,
    decreases walk.len(),
{
    if walk.len() > 0 {
        let w = walk.drop_last();
        assert forall|i: int| 0 <= i < w.len() && (#[trigger] w[i]).2 implies m.contains_key(w[i].0) && m[w[i].0] == w[i].1 by {
            assert(w[i] == walk[i]);
        }
        lemma_pass_keeps(m, w);
        let f = walk.last();
        assert(f == walk[walk.len() - 1]);
    }
}

/// A second walk over a directory in which nothing changed changes nothing.
/// The second walk finds the same files with the same modification times;
/// of the files it does not keep as they are, only those whose text could be
/// indexed the first time can be indexed now. Starting from the times that
/// the first walk left, it then adds no document, deletes none, leaves the
/// recorded times as they are, and so reports no change. Each file is found
/// once by a walk.
pub proof fn lemma_unchanged_walk_changes_nothing(
    m: Map<Seq<char>, u64>,
    root: Seq<char>,
    walk: Seq<(Seq<char>, u64, bool)>,
    again: Seq<(Seq<char>, u64, bool)>,
    force: bool,
)
    requires
        distinct_paths(walk),
        again.len() == walk.len(),
        forall|i: int| 0 <= i < walk.len() ==> (#[trigger] again[i]).0 == walk[i].0 && again[i].1 == walk[i].1
            && (again[i].2 ==> walk[i].2),
    ensures
        pass_steps(after_pass(m, root, walk, force), again, false).len() == 0,
        pass_stale(after_pass(m, root, walk, force), root, again, false) == Set::<Seq<char>>::empty(),
        after_pass(after_pass(m, root, walk, force), root, again, false) == after_pass(m, root, walk, force),
        !pass_changed(after_pass(m, root, walk, force), root, again, false),
{
    let stale = pass_stale(m, root, walk, force);
    let m1 = after_pass(m, root, walk, force);
    lemma_pass_records(m, walk, force);
    assert forall|i: int| 0 <= i < again.len() && (#[trigger] again[i]).2 implies m1.contains_key(again[i].0) && m1[again[i].0] == again[i].1 by {
        assert(walk[i].2);
        assert(walk_finds(walk, walk[i].0));
        assert(!stale.contains(walk[i].0));
    }
    lemma_pass_keeps(m1, again);
    assert forall|k: Seq<char>| !pass_stale(m1, root, again, false).contains(k) by {
        if m1.contains_key(k) && seq_starts_with(k, root) && !walk_finds(again, k) {
            assert(!stale.contains(k));
            if walk_finds(walk, k) {
                let i = choose|i: int| 0 <= i < walk.len() && (#[trigger] walk[i]).0 == k;
                assert(again[i].0 == k);
            }
        }
    }
    assert(pass_stale(m1, root, again, false) =~= Set::<Seq<char>>::empty());
    assert(m1.remove_keys(Set::<Seq<char>>::empty()) =~= m1);
}

} // verus!
