use vstd::prelude::*;
use crate::text::str_eq;
use crate::glob::{is_glob, has_glob};

verus! {

/// A directory (or glob base) registered for indexing, with when it was
/// added and last synced (seconds since the Unix epoch) and the walk options
/// it was registered with.
#[derive(Debug, Clone)]
pub struct Source {
    pub uri: String,
    pub added_at: u64,
    pub last_synced: u64,
    pub no_ignore: bool,
    pub max_filesize: Option<u64>,
}

/// The plain contents of a [`Source`].
pub ghost struct SourceView {
    pub uri: Seq<char>,
    pub added_at: u64,
    pub last_synced: u64,
    pub no_ignore: bool,
    pub max_filesize: Option<u64>,
}

impl View for Source {
    type V = SourceView;

    open spec fn view(&self) -> SourceView {
        SourceView {
            uri: self.uri@,
            added_at: self.added_at,
            last_synced: self.last_synced,
            no_ignore: self.no_ignore,
            max_filesize: self.max_filesize,
        }
    }
}

/// The views of a list of sources.
pub open spec fn sources_view(v: Seq<Source>) -> Seq<SourceView> {
    v.map_values(|s: Source| s@)
}

/// The entries of `v` whose uri is not `uri`.
pub open spec fn without_uri(v: Seq<SourceView>, uri: Seq<char>) -> Seq<SourceView> {
    v.filter(|s: SourceView| s.uri != uri)
}

/// Whether `v` holds an entry with this uri.
pub open spec fn has_uri(v: Seq<SourceView>, uri: Seq<char>) -> bool {
    exists|i: int| 0 <= i < v.len() && (#[trigger] v[i]).uri == uri
}

/// The first entry of `v` with this uri (its index), if any.
pub open spec fn first_with_uri(v: Seq<SourceView>, uri: Seq<char>, from: int) -> Option<int>
    decreases v.len() - from,
{
    if from < 0 || from >= v.len() {
        None
    } else if v[from].uri == uri {
        Some(from)
    } else {
        first_with_uri(v, uri, from + 1)
    }
}

/// A copy of `s`.
pub fn copy_source(s: &Source) -> (r: Source)
    ensures
        r@ == s@,
{
    Source {
        uri: s.uri.clone(),
        added_at: s.added_at,
        last_synced: s.last_synced,
        no_ignore: s.no_ignore,
        max_filesize: s.max_filesize,
    }
}

/// Drops every entry of `sources` with this uri; returns whether there was
/// one.
pub fn unregister(sources: &mut Vec<Source>, uri: &str) -> (found: bool)
    ensures
        sources_view(final(sources)@) == without_uri(sources_view(old(sources)@), uri@),
        found == has_uri(sources_view(old(sources)@), uri@),
{
    let ghost old_v = sources_view(old(sources)@);
    let ghost pred = |s: SourceView| s.uri != uri@;
    let mut kept: Vec<Source> = Vec::new();
    let mut found = false;
    let mut i: usize = 0;
    assert(old_v.take(0) == Seq::<SourceView>::empty());
    proof {
        reveal(Seq::filter);
    }
    while i < sources.len()
        invariant
            sources@ == old(sources)@,
            old_v == sources_view(sources@),
            pred == (|s: SourceView| s.uri != uri@),
            i <= sources.len(),
            sources_view(kept@) == old_v.take(i as int).filter(pred),
            found == has_uri(old_v.take(i as int), uri@),
        decreases sources.len() - i,
    {
        let ghost before = sources_view(kept@);
        assert(old_v[i as int] == sources@[i as int]@);
        assert(old_v.take(i + 1) == old_v.take(i as int).push(old_v[i as int]));
        proof {
            old_v.take(i as int).lemma_filter_push(old_v[i as int], pred);
        }
        if str_eq(sources[i].uri.as_str(), uri) {
            found = true;
            assert(old_v.take(i + 1)[i as int].uri == uri@);
            assert(!pred(old_v[i as int]));
            assert(old_v.take(i + 1).filter(pred) == old_v.take(i as int).filter(pred));
        } else {
            kept.push(copy_source(&sources[i]));
            assert(sources_view(kept@) =~= before.push(old_v[i as int]));
            assert(pred(old_v[i as int]));
            assert(old_v.take(i + 1).filter(pred) == old_v.take(i as int).filter(pred).push(old_v[i as int]));
            proof {
                if has_uri(old_v.take(i + 1), uri@) {
                    let j = choose|j: int| 0 <= j < old_v.take(i + 1).len() && (#[trigger] old_v.take(i + 1)[j]).uri == uri@;
                    assert(j < i);
                    assert(old_v.take(i as int)[j] == old_v.take(i + 1)[j]);
                }
            }
        }
        proof {
            if has_uri(old_v.take(i as int), uri@) {
                let j = choose|j: int| 0 <= j < old_v.take(i as int).len() && (#[trigger] old_v.take(i as int)[j]).uri == uri@;
                assert(old_v.take(i + 1)[j] == old_v.take(i as int)[j]);
            }
            if !has_uri(old_v.take(i as int), uri@) && has_uri(old_v.take(i + 1), uri@) {
                let j = choose|j: int| 0 <= j < old_v.take(i + 1).len() && (#[trigger] old_v.take(i + 1)[j]).uri == uri@;
                if j < i {
                    assert(old_v.take(i as int)[j] == old_v.take(i + 1)[j]);
                }
            }
        }
        i = i + 1;
    }
    assert(old_v.take(sources.len() as int) == old_v);
    *sources = kept;
    found
}

} // verus!

verus! {

/// The view of the entry that [`register`] appends.
pub open spec fn new_source(uri: Seq<char>, now: u64, no_ignore: bool, max_filesize: Option<u64>) -> SourceView {
    SourceView { uri, added_at: now, last_synced: now, no_ignore, max_filesize }
}

/// Registers `uri`, added and synced at `now`: any entry with the same uri is
/// dropped and the new entry appended.
pub fn register(registered: &mut Vec<Source>, uri: String, now: u64, no_ignore: bool, max_filesize: Option<u64>)
    ensures
        sources_view(final(registered)@) == without_uri(sources_view(old(registered)@), uri@).push(
            new_source(uri@, now, no_ignore, max_filesize),
        ),
{
    unregister(registered, uri.as_str());
    let ghost mid = sources_view(registered@);
    registered.push(Source { uri, added_at: now, last_synced: now, no_ignore, max_filesize });
    assert(sources_view(registered@) =~= mid.push(new_source(uri@, now, no_ignore, max_filesize)));
}

/// After registering a uri, exactly one entry has it: the new one, last.
pub proof fn lemma_register_unique(v: Seq<SourceView>, uri: Seq<char>, now: u64, no_ignore: bool, max_filesize: Option<u64>)
    ensures
        ({
            let r = without_uri(v, uri).push(new_source(uri, now, no_ignore, max_filesize));
            &&& r.last() == new_source(uri, now, no_ignore, max_filesize)
            &&& forall|i: int| 0 <= i < r.len() - 1 ==> (#[trigger] r[i]).uri != uri
        }),
{
    let pred = |s: SourceView| s.uri != uri;
    let f = v.filter(pred);
    assert forall|i: int| 0 <= i < f.len() implies (#[trigger] f[i]).uri != uri by {
        v.lemma_filter_pred(pred, i);
    }
}

/// Whether `base` is a prefix of `path` component by component, as
/// `std::path::Path::starts_with` decides it.
pub uninterp spec fn path_prefix(path: Seq<char>, base: Seq<char>) -> bool;

/// Calls `std::path::Path::starts_with` on the two paths; the result is named
/// [`path_prefix`], a function of the two strings alone.
#[verifier::external_body]
fn path_starts_with(path: &str, base: &str) -> (r: bool)
    ensures
        r == path_prefix(path@, base@),
{
    std::path::Path::new(path).starts_with(base)
}

/// Whether `path` (a plain path, not a pattern), whose canonical form is
/// `abs`, lies inside a registered plain source, given the canonical form of
/// each registered uri in `roots` (`None` where it could not be resolved).
pub open spec fn covered_by(
    registered: Seq<SourceView>,
    roots: Seq<Option<Seq<char>>>,
    path: Seq<char>,
    abs: Option<Seq<char>>,
) -> bool {
    &&& !has_glob(path)
    &&& abs is Some
    &&& exists|i: int| 0 <= i < registered.len() && !has_glob((#[trigger] registered[i]).uri) && roots[i] is Some
        && path_prefix(abs->0, roots[i]->0)
}

/// The views of optional strings.
pub open spec fn opt_strings_view(v: Seq<Option<String>>) -> Seq<Option<Seq<char>>> {
    v.map_values(|o: Option<String>| match o {
        Some(s) => Some(s@),
        None => None,
    })
}

/// The view of an optional string.
pub open spec fn opt_str_view(o: Option<&str>) -> Option<Seq<char>> {
    match o {
        Some(s) => Some(s@),
        None => None,
    }
}

/// Whether `path` is already inside a registered source (see
/// [`covered_by`]); then it is not registered again.
pub fn is_covered(registered: &[Source], roots: &[Option<String>], path: &str, abs: Option<&str>) -> (r: bool)
    requires
        roots.len() == registered.len(),
    ensures
        r == covered_by(sources_view(registered@), opt_strings_view(roots@), path@, opt_str_view(abs)),
{
    let ghost rv = sources_view(registered@);
    let ghost ov = opt_strings_view(roots@);
    if is_glob(path) {
        return false;
    }
    let a = match abs {
        Some(a) => a,
        None => return false,
    };
    assert(opt_str_view(abs) == Some(a@));
    let mut i: usize = 0;
    while i < registered.len()
        invariant
            roots.len() == registered.len(),
            rv == sources_view(registered@),
            ov == opt_strings_view(roots@),
            opt_str_view(abs) == Some(a@),
            !has_glob(path@),
            i <= registered.len(),
            forall|j: int| 0 <= j < i ==> !(!has_glob((#[trigger] rv[j]).uri) && ov[j] is Some && path_prefix(a@, ov[j]->0)),
        decreases registered.len() - i,
    {
        assert(rv[i as int] == registered@[i as int]@);
        if !is_glob(registered[i].uri.as_str()) {
            match &roots[i] {
                Some(root) => {
                    assert(ov[i as int] == Some(root@));
                    if path_starts_with(a, root.as_str()) {
                        assert(!has_glob(rv[i as int].uri) && ov[i as int] is Some && path_prefix(a@, ov[i as int]->0));
                        assert(rv.len() == registered.len());
                        assert(exists|k: int| 0 <= k < rv.len() && !has_glob((#[trigger] rv[k]).uri) && ov[k] is Some
                            && path_prefix(opt_str_view(abs)->0, ov[k]->0));
                        return true;
                    }
                },
                None => {
                    assert(ov[i as int] is None);
                },
            }
        }
        i = i + 1;
    }
    false
}

/// The walk options for syncing `uri`: those it was registered with, if it
/// is registered (its size limit, when it has none, falling back to
/// `max_filesize`), else the ones given.
pub open spec fn sync_options_spec(
    registered: Seq<SourceView>,
    uri: Seq<char>,
    no_ignore: bool,
    max_filesize: Option<u64>,
) -> (bool, Option<u64>) {
    match first_with_uri(registered, uri, 0) {
        Some(i) => (
            registered[i].no_ignore,
            match registered[i].max_filesize {
                Some(m) => Some(m),
                None => max_filesize,
            },
        ),
        None => (no_ignore, max_filesize),
    }
}

fn find_source(registered: &[Source], uri: &str) -> (r: Option<usize>)
    ensures
        r matches Some(i) ==> i < registered.len() && first_with_uri(sources_view(registered@), uri@, 0) == Some(i as int),
        r is None ==> first_with_uri(sources_view(registered@), uri@, 0) is None,
{
    let ghost rv = sources_view(registered@);
    let mut i: usize = 0;
    while i < registered.len()
        invariant
            rv == sources_view(registered@),
            i <= registered.len(),
            first_with_uri(rv, uri@, i as int) == first_with_uri(rv, uri@, 0),
        decreases registered.len() - i,
    {
        assert(rv[i as int] == registered@[i as int]@);
        if str_eq(registered[i].uri.as_str(), uri) {
            return Some(i);
        }
        i = i + 1;
    }
    None
}

/// The walk options for syncing `uri` (see [`sync_options_spec`]).
pub fn sync_options(registered: &[Source], uri: &str, no_ignore: bool, max_filesize: Option<u64>) -> (r: (
    bool,
    Option<u64>,
))
    ensures
        r == sync_options_spec(sources_view(registered@), uri@, no_ignore, max_filesize),
{
    match find_source(registered, uri) {
        Some(i) => {
            assert(sources_view(registered@)[i as int] == registered@[i as int]@);
            let s = &registered[i];
            let m = match s.max_filesize {
                Some(m) => Some(m),
                None => max_filesize,
            };
            (s.no_ignore, m)
        },
        None => (no_ignore, max_filesize),
    }
}

/// How the registered list changes when `uri` was synced at `now`: a
/// registered `uri` gets `now` as its last sync; otherwise `reg_uri` (the uri,
/// or for a pattern the canonical form of its base directory) is registered,
/// unless `uri` is a plain path inside a registered source (decided with
/// `Path::starts_with` on `reg_uri`).
pub open spec fn after_sync(
    registered: Seq<SourceView>,
    uri: Seq<char>,
    reg_uri: Seq<char>,
    now: u64,
    no_ignore: bool,
    max_filesize: Option<u64>,
) -> Seq<SourceView> {
    match first_with_uri(registered, uri, 0) {
        Some(i) => registered.update(i, SourceView { last_synced: now, ..registered[i] }),
        None => {
            if !has_glob(uri) && exists|j: int| 0 <= j < registered.len() && path_prefix(reg_uri, (#[trigger] registered[j]).uri) {
                registered
            } else {
                without_uri(registered, reg_uri).push(new_source(reg_uri, now, no_ignore, max_filesize))
            }
        },
    }
}

/// Records in `registered` that `uri` was synced at `now` (see
/// [`after_sync`]).
pub fn record_sync(
    registered: &mut Vec<Source>,
    uri: &str,
    reg_uri: String,
    now: u64,
    no_ignore: bool,
    max_filesize: Option<u64>,
)
    ensures
        sources_view(final(registered)@) == after_sync(
            sources_view(old(registered)@),
            uri@,
            reg_uri@,
            now,
            no_ignore,
            max_filesize,
        ),
{
    let ghost rv = sources_view(registered@);
    match find_source(registered.as_slice(), uri) {
        Some(i) => {
            let mut s = copy_source(&registered[i]);
            s.last_synced = now;
            registered.set(i, s);
            assert(sources_view(registered@) =~= rv.update(i as int, SourceView { last_synced: now, ..rv[i as int] }));
        },
        None => {
            let mut covered = false;
            if !is_glob(uri) {
                let mut j: usize = 0;
                while j < registered.len()
                    invariant
                        rv == sources_view(registered@),
                        j <= registered.len(),
                        covered == exists|k: int| 0 <= k < j && path_prefix(reg_uri@, (#[trigger] rv[k]).uri),
                    decreases registered.len() - j,
                {
                    assert(rv[j as int] == registered@[j as int]@);
                    if path_starts_with(reg_uri.as_str(), registered[j].uri.as_str()) {
                        covered = true;
                    }
                    proof {
                        if exists|k: int| 0 <= k < j + 1 && path_prefix(reg_uri@, (#[trigger] rv[k]).uri) {
                            let k = choose|k: int| 0 <= k < j + 1 && path_prefix(reg_uri@, (#[trigger] rv[k]).uri);
                            if k < j {
                                assert(exists|k: int| 0 <= k < j && path_prefix(reg_uri@, (#[trigger] rv[k]).uri));
                            }
                        }
                    }
                    j = j + 1;
                }
            }
            assert(covered == (!has_glob(uri@) && exists|k: int| 0 <= k < rv.len() && path_prefix(reg_uri@, (#[trigger] rv[k]).uri)));
            if !covered {
                register(registered, reg_uri, now, no_ignore, max_filesize);
            }
        },
    }
}

} // verus!

verus! {

/// After unregistering a uri no entry has it, and every other entry stays,
/// in order.
pub proof fn lemma_unregister_removes(v: Seq<SourceView>, uri: Seq<char>)
    ensures
        !has_uri(without_uri(v, uri), uri),
        forall|i: int| 0 <= i < v.len() && v[i].uri != uri ==> without_uri(v, uri).contains(#[trigger] v[i]),
{
    let pred = |s: SourceView| s.uri != uri;
    let f = v.filter(pred);
    if has_uri(f, uri) {
        let j = choose|j: int| 0 <= j < f.len() && (#[trigger] f[j]).uri == uri;
        v.lemma_filter_pred(pred, j);
    }
    assert forall|i: int| 0 <= i < v.len() && v[i].uri != uri implies f.contains(#[trigger] v[i]) by {
        v.lemma_filter_contains(pred, i);
    }
}

proof fn lemma_first_with_uri_none(v: Seq<SourceView>, uri: Seq<char>, from: int)
    requires
        0 <= from,
        forall|i: int| from <= i < v.len() ==> (#[trigger] v[i]).uri != uri,
    ensures
        first_with_uri(v, uri, from) is None,
    decreases v.len() - from,
{
    if from < v.len() {
        lemma_first_with_uri_none(v, uri, from + 1);
    }
}

proof fn lemma_first_with_uri_at(v: Seq<SourceView>, uri: Seq<char>, from: int, i: int)
    requires
        0 <= from <= i < v.len(),
        v[i].uri == uri,
        forall|k: int| from <= k < i ==> (#[trigger] v[k]).uri != uri,
    ensures
        first_with_uri(v, uri, from) == Some(i),
    decreases i - from,
{
    if from < i {
        lemma_first_with_uri_at(v, uri, from + 1, i);
    }
}

/// Syncing a plain path that is not registered itself but lies inside a
/// registered source, wherever that source stands in the list, leaves the
/// registry as it is.
pub proof fn lemma_sync_inside_a_source_keeps_registry(
    registered: Seq<SourceView>,
    uri: Seq<char>,
    reg_uri: Seq<char>,
    now: u64,
    no_ignore: bool,
    max_filesize: Option<u64>,
    j: int,
)
    requires
        forall|i: int| 0 <= i < registered.len() ==> (#[trigger] registered[i]).uri != uri,
        !has_glob(uri),
        0 <= j < registered.len(),
        path_prefix(reg_uri, registered[j].uri),
    ensures
        after_sync(registered, uri, reg_uri, now, no_ignore, max_filesize) == registered,
{
    lemma_first_with_uri_none(registered, uri, 0);
    assert(path_prefix(reg_uri, registered[j].uri));
}

/// Syncing a registered uri changes only its first entry, and of that entry
/// only the time of the last sync, which becomes `now`.
pub proof fn lemma_sync_of_a_registered_source(
    registered: Seq<SourceView>,
    uri: Seq<char>,
    reg_uri: Seq<char>,
    now: u64,
    no_ignore: bool,
    max_filesize: Option<u64>,
    i: int,
)
    requires
        0 <= i < registered.len(),
        registered[i].uri == uri,
        forall|k: int| 0 <= k < i ==> (#[trigger] registered[k]).uri != uri,
    ensures
        ({
            let r = after_sync(registered, uri, reg_uri, now, no_ignore, max_filesize);
            &&& r.len() == registered.len()
            &&& r[i].uri == uri && r[i].added_at == registered[i].added_at && r[i].last_synced == now
            &&& r[i].no_ignore == registered[i].no_ignore && r[i].max_filesize == registered[i].max_filesize
            &&& forall|k: int| 0 <= k < registered.len() && k != i ==> r[k] == registered[k]
        }),
{
    lemma_first_with_uri_at(registered, uri, 0, i);
}

/// Syncing a uri that is not registered and does not lie inside a registered
/// source registers `reg_uri` once, as the last entry, added and synced at
/// `now`, and keeps every entry with another uri.
pub proof fn lemma_sync_of_a_new_source(
    registered: Seq<SourceView>,
    uri: Seq<char>,
    reg_uri: Seq<char>,
    now: u64,
    no_ignore: bool,
    max_filesize: Option<u64>,
)
    requires
        forall|i: int| 0 <= i < registered.len() ==> (#[trigger] registered[i]).uri != uri,
        has_glob(uri) || forall|j: int| 0 <= j < registered.len() ==> !path_prefix(reg_uri, (#[trigger] registered[j]).uri),
    ensures
        ({
            let r = after_sync(registered, uri, reg_uri, now, no_ignore, max_filesize);
            &&& r.len() >= 1
            &&& r.last() == new_source(reg_uri, now, no_ignore, max_filesize)
            &&& forall|k: int| 0 <= k < r.len() - 1 ==> (#[trigger] r[k]).uri != reg_uri
            &&& forall|k: int| 0 <= k < registered.len() && registered[k].uri != reg_uri ==> r.contains(#[trigger] registered[k])
        }),
{
    lemma_first_with_uri_none(registered, uri, 0);
    let w = without_uri(registered, reg_uri);
    lemma_unregister_removes(registered, reg_uri);
    let r = after_sync(registered, uri, reg_uri, now, no_ignore, max_filesize);
    assert(r == w.push(new_source(reg_uri, now, no_ignore, max_filesize)));
    assert forall|k: int| 0 <= k < r.len() - 1 implies (#[trigger] r[k]).uri != reg_uri by {
        assert(r[k] == w[k]);
    }
    assert forall|k: int| 0 <= k < registered.len() && registered[k].uri != reg_uri implies r.contains(#[trigger] registered[k]) by {
        assert(w.contains(registered[k]));
        let m = choose|m: int| 0 <= m < w.len() && w[m] == registered[k];
        assert(r[m] == registered[k]);
    }
}

} // verus!
