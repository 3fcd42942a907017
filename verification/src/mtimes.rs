use vstd::prelude::*;
use vstd::hash_map::StringHashMap;
use vstd::hash_set::StringHashSet;
use crate::text::{chars_of, str_eq, starts_with, seq_starts_with};

verus! {

/// Whether the strings of `v` are pairwise distinct.
pub open spec fn distinct_strings(v: Seq<String>) -> bool {
    forall|i: int, j: int| 0 <= i < j < v.len() ==> (#[trigger] v[i])@ != (#[trigger] v[j])@
}

/// Whether `k` is the view of one of the strings of `v`.
pub open spec fn holds_string(v: Seq<String>, k: Seq<char>) -> bool {
    exists|i: int| 0 <= i < v.len() && (#[trigger] v[i])@ == k
}

/// The modification time (seconds since the Unix epoch) recorded for each
/// indexed file, keyed by its path.
pub struct MtimeTable {
    map: StringHashMap<u64>,
    keys: Vec<String>,
}

/// What to do with a file that the walk found.
#[derive(Debug, Clone, Copy, PartialEq, Eq, Structural)]
pub enum FileAction {
    /// Its recorded time is current: leave it alone.
    Keep,
    /// Not indexed yet: add it.
    Add,
    /// Indexed with another time (or a re-crawl was asked for): delete the
    /// old document, then add it again.
    Replace,
}

impl View for MtimeTable {
    type V = Map<Seq<char>, u64>;

    closed spec fn view(&self) -> Map<Seq<char>, u64> {
        self.map@
    }
}

impl MtimeTable {
    /// The table's invariant: `keys` lists each path of the map once.
    pub closed spec fn wf(&self) -> bool {
        &&& distinct_strings(self.keys@)
        &&& forall|k: Seq<char>| #[trigger] self.map@.contains_key(k) <==> holds_string(self.keys@, k)
    }

    /// An empty table.
    pub fn new() -> (r: Self)
        ensures
            r.wf(),
            r@ == Map::<Seq<char>, u64>::empty(),
    {
        MtimeTable { map: StringHashMap::new(), keys: Vec::new() }
    }

    /// The time recorded for `path`, if any.
    pub fn get(&self, path: &str) -> (r: Option<u64>)
        ensures
            r == (if self@.contains_key(path@) {
                Some(self@[path@])
            } else {
                None
            }),
    {
        match self.map.get(path) {
            Some(v) => Some(*v),
            None => None,
        }
    }

    /// Whether a time is recorded for `path`.
    pub fn contains(&self, path: &str) -> (r: bool)
        ensures
            r == self@.contains_key(path@),
    {
        self.map.contains_key(path)
    }

    /// The number of recorded paths.
    pub fn len(&self) -> (r: usize)
        requires
            self.wf(),
        ensures
            r as nat == self@.dom().len(),
    {
        proof {
            self.lemma_len();
        }
        self.keys.len()
    }

    proof fn lemma_len(&self)
        requires
            self.wf(),
        ensures
            self.keys@.len() == self.map@.dom().len(),
    {
        let ks = self.keys@.map_values(|s: String| s@);
        assert(ks.no_duplicates()) by {
            assert forall|i: int, j: int| 0 <= i < ks.len() && 0 <= j < ks.len() && i != j implies ks[i] != ks[j] by {
                if i < j {
                    assert(self.keys@[i]@ != self.keys@[j]@);
                } else {
                    assert(self.keys@[j]@ != self.keys@[i]@);
                }
            }
        }
        assert(ks.to_set() =~= self.map@.dom()) by {
            assert forall|k: Seq<char>| ks.to_set().contains(k) implies self.map@.dom().contains(k) by {
                let i = choose|i: int| 0 <= i < ks.len() && ks[i] == k;
                assert(holds_string(self.keys@, k));
            }
            assert forall|k: Seq<char>| self.map@.dom().contains(k) implies ks.to_set().contains(k) by {
                assert(self.map@.contains_key(k));
                let i = choose|i: int| 0 <= i < self.keys@.len() && (#[trigger] self.keys@[i])@ == k;
                assert(ks[i] == k);
            }
        }
        ks.unique_seq_to_set();
    }

    /// Records `mtime` for `path`, replacing any earlier time.
    pub fn insert(&mut self, path: String, mtime: u64)
        requires
            old(self).wf(),
        ensures
            final(self).wf(),
            final(self)@ == old(self)@.insert(path@, mtime),
    {
        if !self.map.contains_key(path.as_str()) {
            let ghost k = path@;
            self.keys.push(path.clone());
            self.map.insert(path, mtime);
            assert(self.keys@.last()@ == k);
            assert forall|kk: Seq<char>| #[trigger] self.map@.contains_key(kk) <==> holds_string(self.keys@, kk) by {
                if holds_string(old(self).keys@, kk) {
                    let i = choose|i: int| 0 <= i < old(self).keys@.len() && (#[trigger] old(self).keys@[i])@ == kk;
                    assert(self.keys@[i] == old(self).keys@[i]);
                }
                if holds_string(self.keys@, kk) {
                    let i = choose|i: int| 0 <= i < self.keys@.len() && (#[trigger] self.keys@[i])@ == kk;
                    if i < old(self).keys@.len() {
                        assert(self.keys@[i] == old(self).keys@[i]);
                        assert(holds_string(old(self).keys@, kk));
                    }
                }
                if kk == k {
                    assert(self.keys@[self.keys@.len() - 1]@ == kk);
                }
            }
            assert forall|i: int, j: int| 0 <= i < j < self.keys@.len() implies (#[trigger] self.keys@[i])@
                != (#[trigger] self.keys@[j])@ by {
                if j == self.keys@.len() - 1 {
                    assert(self.keys@[i] == old(self).keys@[i]);
                    assert(holds_string(old(self).keys@, self.keys@[i]@));
                } else {
                    assert(self.keys@[i] == old(self).keys@[i]);
                    assert(self.keys@[j] == old(self).keys@[j]);
                }
            }
        } else {
            self.map.insert(path, mtime);
        }
    }

    /// Forgets the time recorded for `path`.
    pub fn remove(&mut self, path: &str)
        requires
            old(self).wf(),
        ensures
            final(self).wf(),
            final(self)@ == old(self)@.remove(path@),
    {
        if !self.map.contains_key(path) {
            self.map.remove(path);
            assert(self.map@ =~= old(self).map@);
            return;
        }
        let mut i: usize = 0;
        while i < self.keys.len() && !str_eq(self.keys[i].as_str(), path)
            invariant
                self.keys@ == old(self).keys@,
                self.map@ == old(self).map@,
                i <= self.keys.len(),
                forall|j: int| 0 <= j < i ==> (#[trigger] self.keys@[j])@ != path@,
            decreases self.keys.len() - i,
        {
            i = i + 1;
        }
        if i >= self.keys.len() {
            proof {
                assert(holds_string(self.keys@, path@));
                let j = choose|j: int| 0 <= j < self.keys@.len() && (#[trigger] self.keys@[j])@ == path@;
                assert(self.keys@[j]@ != path@);
            }
            return;
        }
        let ghost idx = i as int;
        assert(self.keys@[idx]@ == path@);
        self.keys.remove(i);
        self.map.remove(path);
        assert forall|kk: Seq<char>| #[trigger] self.map@.contains_key(kk) <==> holds_string(self.keys@, kk) by {
            if holds_string(self.keys@, kk) {
                let j = choose|j: int| 0 <= j < self.keys@.len() && (#[trigger] self.keys@[j])@ == kk;
                if j < idx {
                    assert(self.keys@[j] == old(self).keys@[j]);
                    assert(j != idx);
                    assert(old(self).keys@[j]@ != old(self).keys@[idx]@);
                    assert(holds_string(old(self).keys@, kk));
                } else {
                    assert(self.keys@[j] == old(self).keys@[j + 1]);
                    assert(old(self).keys@[idx]@ != old(self).keys@[j + 1]@);
                    assert(holds_string(old(self).keys@, kk));
                }
            }
            if self.map@.contains_key(kk) {
                assert(kk != path@);
                assert(holds_string(old(self).keys@, kk));
                let j = choose|j: int| 0 <= j < old(self).keys@.len() && (#[trigger] old(self).keys@[j])@ == kk;
                assert(j != idx);
                if j < idx {
                    assert(self.keys@[j] == old(self).keys@[j]);
                } else {
                    assert(self.keys@[j - 1] == old(self).keys@[j]);
                }
            }
        }
        assert forall|a: int, b: int| 0 <= a < b < self.keys@.len() implies (#[trigger] self.keys@[a])@
            != (#[trigger] self.keys@[b])@ by {
            let oa = if a < idx { a } else { a + 1 };
            let ob = if b < idx { b } else { b + 1 };
            assert(self.keys@[a] == old(self).keys@[oa]);
            assert(self.keys@[b] == old(self).keys@[ob]);
        }
    }

    /// The recorded paths with their times, each path once.
    pub fn entries(&self) -> (r: Vec<(String, u64)>)
        requires
            self.wf(),
        ensures
            lists_map(r@, self@),
    {
        let mut out: Vec<(String, u64)> = Vec::new();
        let mut i: usize = 0;
        while i < self.keys.len()
            invariant
                self.wf(),
                i <= self.keys.len(),
                out@.len() == i,
                forall|j: int| 0 <= j < i ==> (#[trigger] out@[j]).0@ == self.keys@[j]@ && self.map@.contains_key(self.keys@[j]@)
                    && out@[j].1 == self.map@[self.keys@[j]@],
            decreases self.keys.len() - i,
        {
            assert(holds_string(self.keys@, self.keys@[i as int]@));
            let t = match self.map.get(self.keys[i].as_str()) {
                Some(t) => *t,
                None => 0,
            };
            out.push((self.keys[i].clone(), t));
            i = i + 1;
        }
        assert forall|a: int, b: int| 0 <= a < b < out@.len() implies (#[trigger] out@[a]).0@ != (#[trigger] out@[b]).0@ by {
            assert(self.keys@[a]@ != self.keys@[b]@);
        }
        assert forall|k: Seq<char>| #[trigger] self.map@.contains_key(k) implies exists|i: int| 0 <= i < out@.len() && (#[trigger] out@[i]).0@ == k by {
            let j = choose|j: int| 0 <= j < self.keys@.len() && (#[trigger] self.keys@[j])@ == k;
            assert(out@[j].0@ == k);
        }
        out
    }

    /// A table holding the pairs of `v` (a later pair for the same path
    /// wins).
    pub fn from_entries(v: &[(String, u64)]) -> (r: Self)
        ensures
            r.wf(),
            r@ == entries_map(v@),
    {
        let mut t = MtimeTable::new();
        let mut i: usize = 0;
        assert(v@.take(0) == Seq::<(String, u64)>::empty());
        while i < v.len()
            invariant
                t.wf(),
                i <= v.len(),
                t@ == entries_map(v@.take(i as int)),
            decreases v.len() - i,
        {
            assert(v@.take(i + 1).drop_last() == v@.take(i as int));
            assert(v@.take(i + 1).last() == v@[i as int]);
            t.insert(v[i].0.clone(), v[i].1);
            i = i + 1;
        }
        assert(v@.take(v.len() as int) == v@);
        t
    }

    /// What to do with the file at `path`, modified at `mtime`, that a walk
    /// found (see [`file_action`]).
    pub fn plan_file(&self, path: &str, mtime: u64, force: bool) -> (r: FileAction)
        ensures
            r == file_action(self@, path@, mtime, force),
    {
        match self.get(path) {
            None => FileAction::Add,
            Some(t) => {
                if !force && t == mtime {
                    FileAction::Keep
                } else {
                    FileAction::Replace
                }
            },
        }
    }

    /// The recorded paths that begin with `root` but that the last walk of
    /// `root` did not find (the files deleted since), each once.
    pub fn stale_under(&self, root: &str, found_paths: &[String]) -> (r: Vec<String>)
        requires
            self.wf(),
        ensures
            distinct_strings(r@),
            forall|k: Seq<char>| #[trigger] holds_string(r@, k) <==> (self@.contains_key(k)
                && seq_starts_with(k, root@) && !holds_string(found_paths@, k)),
    {
        let found = string_set(found_paths);
        let rc = chars_of(root);
        let mut out: Vec<String> = Vec::new();
        let mut i: usize = 0;
        while i < self.keys.len()
            invariant
                self.wf(),
                rc@ == root@,
                i <= self.keys.len(),
                distinct_strings(out@),
                forall|k: Seq<char>| #[trigger] holds_string(out@, k) <==> (exists|j: int| 0 <= j < i
                    && (#[trigger] self.keys@[j])@ == k && seq_starts_with(k, root@) && !found@.contains(k)),
            decreases self.keys.len() - i,
        {
            let key = &self.keys[i];
            let kc = chars_of(key.as_str());
            if starts_with(kc.as_slice(), rc.as_slice()) && !found.contains(key.as_str()) {
                let ghost before = out@;
                out.push(key.clone());
                assert forall|a: int, b: int| 0 <= a < b < out@.len() implies (#[trigger] out@[a])@ != (#[trigger] out@[b])@ by {
                    if b == out@.len() - 1 {
                        assert(out@[a] == before[a]);
                        assert(holds_string(before, out@[a]@));
                        let j = choose|j: int| 0 <= j < i && (#[trigger] self.keys@[j])@ == out@[a]@
                            && seq_starts_with(out@[a]@, root@) && !found@.contains(out@[a]@);
                        assert(self.keys@[j]@ != self.keys@[i as int]@);
                    } else {
                        assert(out@[a] == before[a]);
                        assert(out@[b] == before[b]);
                    }
                }
                assert forall|k: Seq<char>| #[trigger] holds_string(out@, k) <==> (exists|j: int| 0 <= j < i + 1
                    && (#[trigger] self.keys@[j])@ == k && seq_starts_with(k, root@) && !found@.contains(k)) by {
                    if holds_string(out@, k) {
                        let a = choose|a: int| 0 <= a < out@.len() && (#[trigger] out@[a])@ == k;
                        if a < before.len() {
                            assert(out@[a] == before[a]);
                            assert(holds_string(before, k));
                        } else {
                            assert(self.keys@[i as int]@ == k);
                        }
                    }
                    if exists|j: int| 0 <= j < i + 1 && (#[trigger] self.keys@[j])@ == k && seq_starts_with(k, root@)
                        && !found@.contains(k) {
                        let j = choose|j: int| 0 <= j < i + 1 && (#[trigger] self.keys@[j])@ == k
                            && seq_starts_with(k, root@) && !found@.contains(k);
                        if j < i {
                            assert(holds_string(before, k));
                            let a = choose|a: int| 0 <= a < before.len() && (#[trigger] before[a])@ == k;
                            assert(out@[a] == before[a]);
                        } else {
                            assert(out@[out@.len() - 1]@ == k);
                        }
                    }
                }
            } else {
                assert forall|k: Seq<char>| #[trigger] holds_string(out@, k) <==> (exists|j: int| 0 <= j < i + 1
                    && (#[trigger] self.keys@[j])@ == k && seq_starts_with(k, root@) && !found@.contains(k)) by {
                    if exists|j: int| 0 <= j < i + 1 && (#[trigger] self.keys@[j])@ == k && seq_starts_with(k, root@)
                        && !found@.contains(k) {
                        let j = choose|j: int| 0 <= j < i + 1 && (#[trigger] self.keys@[j])@ == k
                            && seq_starts_with(k, root@) && !found@.contains(k);
                        assert(j < i);
                    }
                }
            }
            i = i + 1;
        }
        assert forall|k: Seq<char>| #[trigger] holds_string(out@, k) <==> (self@.contains_key(k)
            && seq_starts_with(k, root@) && !found@.contains(k)) by {
            if self@.contains_key(k) && seq_starts_with(k, root@) && !found@.contains(k) {
                assert(self.map@.contains_key(k));
                let j = choose|j: int| 0 <= j < self.keys@.len() && (#[trigger] self.keys@[j])@ == k;
                assert(exists|j: int| 0 <= j < i && (#[trigger] self.keys@[j])@ == k && seq_starts_with(k, root@)
                    && !found@.contains(k));
            }
            if holds_string(out@, k) {
                let j = choose|j: int| 0 <= j < i && (#[trigger] self.keys@[j])@ == k && seq_starts_with(k, root@)
                    && !found@.contains(k);
                assert(holds_string(self.keys@, k));
                assert(self.map@.contains_key(k));
            }
        }
        out
    }
}

/// The map that inserting the pairs of `v` in order into an empty table
/// gives (a later pair for the same path wins).
pub open spec fn entries_map(v: Seq<(String, u64)>) -> Map<Seq<char>, u64>
    decreases v.len(),
{
    if v.len() == 0 {
        Map::empty()
    } else {
        entries_map(v.drop_last()).insert(v.last().0@, v.last().1)
    }
}

/// Whether `v` lists the pairs of `m`, each path once.
pub open spec fn lists_map(v: Seq<(String, u64)>, m: Map<Seq<char>, u64>) -> bool {
    &&& forall|i: int, j: int| 0 <= i < j < v.len() ==> (#[trigger] v[i]).0@ != (#[trigger] v[j]).0@
    &&& forall|i: int| 0 <= i < v.len() ==> m.contains_key((#[trigger] v[i]).0@) && m[v[i].0@] == v[i].1
    &&& forall|k: Seq<char>| #[trigger] m.contains_key(k) ==> exists|i: int| 0 <= i < v.len() && (#[trigger] v[i]).0@ == k
}

proof fn lemma_entries_map_prefix(v: Seq<(String, u64)>, m: Map<Seq<char>, u64>, n: int)
    requires
        lists_map(v, m),
        0 <= n <= v.len(),
    ensures
        forall|k: Seq<char>| #[trigger] entries_map(v.take(n)).contains_key(k) <==> exists|i: int| 0 <= i < n && (#[trigger] v[i]).0@ == k,
        forall|k: Seq<char>| #[trigger] entries_map(v.take(n)).contains_key(k) ==> entries_map(v.take(n))[k] == m[k],
    decreases n,
{
    if n > 0 {
        lemma_entries_map_prefix(v, m, n - 1);
        assert(v.take(n).drop_last() == v.take(n - 1));
        assert(v.take(n).last() == v[n - 1]);
        assert forall|k: Seq<char>| #[trigger] entries_map(v.take(n)).contains_key(k) <==> exists|i: int| 0 <= i < n && (#[trigger] v[i]).0@ == k by {
            if exists|i: int| 0 <= i < n && (#[trigger] v[i]).0@ == k {
                let i = choose|i: int| 0 <= i < n && (#[trigger] v[i]).0@ == k;
                if i < n - 1 {
                    assert(entries_map(v.take(n - 1)).contains_key(k));
                }
            }
            if entries_map(v.take(n - 1)).contains_key(k) {
                let i = choose|i: int| 0 <= i < n - 1 && (#[trigger] v[i]).0@ == k;
                assert(0 <= i < n && v[i].0@ == k);
            }
        }
    }
}

/// Listing a table's pairs and inserting them back gives the same table.
pub proof fn lemma_entries_roundtrip(v: Seq<(String, u64)>, m: Map<Seq<char>, u64>)
    requires
        lists_map(v, m),
    ensures
        entries_map(v) == m,
{
    lemma_entries_map_prefix(v, m, v.len() as int);
    assert(v.take(v.len() as int) == v);
    assert(entries_map(v) =~= m);
}

/// The table that `serde_json::from_str` reads from the JSON text `text`
/// (an object from path to time), or `None` when `text` is not such an
/// object.
pub uninterp spec fn json_mtimes(text: Seq<char>) -> Option<Map<Seq<char>, u64>>;

/// Calls `serde_json::from_str` into a `HashMap<String, u64>` and hands back
/// its pairs; what it reads is named [`json_mtimes`].
#[verifier::external_body]
fn parse_mtimes_json(text: &str) -> (r: Option<Vec<(String, u64)>>)
    ensures
        match r {
            None => json_mtimes(text@) is None,
            Some(v) => json_mtimes(text@) == Some(entries_map(v@)),
        },
{
    let m: std::collections::HashMap<String, u64> = serde_json::from_str(text).ok()?;
    Some(m.into_iter().collect())
}

/// Calls `serde_json::to_string` on the map of `entries` (a later pair for
/// the same path wins, as in a `HashMap`), which writes it as a JSON object
/// from path to time; its documentation names only maps with non-string
/// keys and failing `Serialize` impls as errors, so it does not fail here.
/// The text follows the map's iteration order, so only that reading it back
/// gives the same map is stated.
#[verifier::external_body]
fn mtimes_json(entries: &[(String, u64)]) -> (r: String)
    ensures
        json_mtimes(r@) == Some(entries_map(entries@)),
{
    let m: std::collections::HashMap<&str, u64> = entries.iter().map(|(k, v)| (k.as_str(), *v)).collect();
    serde_json::to_string(&m).unwrap_or_default()
}

/// The table saved as the JSON text `text` (see [`json_mtimes`]), or `None`
/// when the text does not hold one.
pub fn mtimes_from_json(text: &str) -> (r: Option<MtimeTable>)
    ensures
        match r {
            None => json_mtimes(text@) is None,
            Some(t) => t.wf() && json_mtimes(text@) == Some(t@),
        },
{
    match parse_mtimes_json(text) {
        None => None,
        Some(v) => Some(MtimeTable::from_entries(&v)),
    }
}

impl MtimeTable {
    /// The table as JSON text, an object from path to time; reading the
    /// text back gives this table.
    pub fn to_json(&self) -> (r: String)
        requires
            self.wf(),
        ensures
            json_mtimes(r@) == Some(self@),
    {
        let v = self.entries();
        proof {
            lemma_entries_roundtrip(v@, self@);
        }
        mtimes_json(&v)
    }
}

/// The set of the strings of `v`.
pub(crate) fn string_set(v: &[String]) -> (r: StringHashSet)
    ensures
        forall|k: Seq<char>| #[trigger] r@.contains(k) <==> holds_string(v@, k),
{
    let mut set = StringHashSet::new();
    let mut i: usize = 0;
    while i < v.len()
        invariant
            i <= v.len(),
            forall|k: Seq<char>| #[trigger] set@.contains(k) <==> (exists|j: int| 0 <= j < i && (#[trigger] v@[j])@ == k),
        decreases v.len() - i,
    {
        set.insert(v[i].clone());
        assert forall|k: Seq<char>| #[trigger] set@.contains(k) <==> (exists|j: int| 0 <= j < i + 1 && (#[trigger] v@[j])@ == k) by {
            if exists|j: int| 0 <= j < i + 1 && (#[trigger] v@[j])@ == k {
                let j = choose|j: int| 0 <= j < i + 1 && (#[trigger] v@[j])@ == k;
                if j < i {
                    assert(exists|j: int| 0 <= j < i && (#[trigger] v@[j])@ == k);
                }
            }
        }
        i = i + 1;
    }
    set
}

/// What to do with a file at `path` modified at `mtime`, given the recorded
/// times `m`: add it when no time is recorded; keep it when the recorded time
/// equals `mtime` and no re-crawl is forced; else replace it.
pub open spec fn file_action(m: Map<Seq<char>, u64>, path: Seq<char>, mtime: u64, force: bool) -> FileAction {
    if !m.contains_key(path) {
        FileAction::Add
    } else if !force && m[path] == mtime {
        FileAction::Keep
    } else {
        FileAction::Replace
    }
}

/// Once a file's time is recorded, a walk that finds it unmodified leaves it
/// alone, unless a re-crawl is forced; a walk that finds it with another time
/// replaces it.
pub proof fn lemma_recorded_file_is_kept(m: Map<Seq<char>, u64>, path: Seq<char>, mtime: u64, later: u64)
    ensures
        file_action(m.insert(path, mtime), path, mtime, false) == FileAction::Keep,
        file_action(m.insert(path, mtime), path, mtime, true) == FileAction::Replace,
        later != mtime ==> file_action(m.insert(path, mtime), path, later, false) == FileAction::Replace,
        file_action(m.remove(path), path, mtime, false) == FileAction::Add,
{
}

} // verus!
