use vstd::prelude::*;
use crate::text::{chars_of, string_from_chars};

verus! {

/// Whether `c` is a glob meta-character (`*`, `?`, `[`, `{`).
pub open spec fn is_glob_char(c: char) -> bool {
    c == '*' || c == '?' || c == '[' || c == '{'
}

/// Whether `s` holds a glob meta-character.
pub open spec fn has_glob(s: Seq<char>) -> bool {
    exists|i: int| 0 <= i < s.len() && is_glob_char(#[trigger] s[i])
}

/// Index of the first glob meta-character in `s`, or `s.len()`.
pub open spec fn first_glob(s: Seq<char>, from: int) -> int
    decreases s.len() - from,
{
    if from < 0 || from >= s.len() {
        s.len() as int
    } else if is_glob_char(s[from]) {
        from
    } else {
        first_glob(s, from + 1)
    }
}

/// `s` without its trailing run of `c`.
pub open spec fn strip_trailing(s: Seq<char>, c: char) -> Seq<char>
    decreases s.len(),
{
    if s.len() > 0 && s.last() == c {
        strip_trailing(s.drop_last(), c)
    } else {
        s
    }
}

/// The directory a glob pattern starts from: the text before its first
/// meta-character, without trailing `/` and then without trailing `\`, or
/// `"."` when that is empty. A pattern without meta-characters is its own
/// base.
pub open spec fn glob_base(p: Seq<char>) -> Seq<char> {
    let i = first_glob(p, 0);
    let base = if i < p.len() {
        strip_trailing(strip_trailing(p.take(i), '/'), '\\')
    } else {
        p
    };
    if base.len() == 0 {
        "."@
    } else {
        base
    }
}

/// Whether `s` holds a glob meta-character, so names a pattern rather than a
/// path.
pub fn is_glob(s: &str) -> (r: bool)
    ensures
        r == has_glob(s@),
{
    let cs = chars_of(s);
    let mut i: usize = 0;
    while i < cs.len()
        invariant
            cs@ == s@,
            i <= cs.len(),
            forall|j: int| 0 <= j < i ==> !is_glob_char(#[trigger] cs@[j]),
        decreases cs.len() - i,
    {
        let c = cs[i];
        if c == '*' || c == '?' || c == '[' || c == '{' {
            assert(is_glob_char(cs@[i as int]));
            return true;
        }
        i = i + 1;
    }
    false
}

proof fn lemma_first_glob(s: Seq<char>, from: int)
    requires
        0 <= from <= s.len(),
    ensures
        from <= first_glob(s, from) <= s.len(),
        first_glob(s, from) < s.len() ==> is_glob_char(s[first_glob(s, from)]),
        forall|j: int| from <= j < first_glob(s, from) ==> !is_glob_char(#[trigger] s[j]),
    decreases s.len() - from,
{
    if from < s.len() && !is_glob_char(s[from]) {
        lemma_first_glob(s, from + 1);
    }
}

fn strip_trailing_exec(s: &[char], end: usize, c: char) -> (r: usize)
    requires
        end <= s.len(),
    ensures
        r <= end,
        s@.take(r as int) == strip_trailing(s@.take(end as int), c),
{
    let mut j = end;
    while j > 0 && s[j - 1] == c
        invariant
            j <= end <= s.len(),
            strip_trailing(s@.take(j as int), c) == strip_trailing(s@.take(end as int), c),
        decreases j,
    {
        assert(s@.take(j as int).drop_last() == s@.take(j - 1));
        j = j - 1;
    }
    j
}

/// The directory that a glob pattern starts from (see [`glob_base`]).
pub fn glob_base_dir(pattern: &str) -> (r: String)
    ensures
        r@ == glob_base(pattern@),
{
    let cs = chars_of(pattern);
    let ghost p = cs@;
    let mut i: usize = 0;
    while i < cs.len() && !(cs[i] == '*' || cs[i] == '?' || cs[i] == '[' || cs[i] == '{')
        invariant
            cs@ == p,
            i <= cs.len(),
            first_glob(p, i as int) == first_glob(p, 0),
        decreases cs.len() - i,
    {
        i = i + 1;
    }
    let end = if i < cs.len() {
        let e1 = strip_trailing_exec(cs.as_slice(), i, '/');
        let e2 = strip_trailing_exec(cs.as_slice(), e1, '\\');
        proof {
            assert(p.take(e1 as int).take(e1 as int) == p.take(e1 as int));
        }
        e2
    } else {
        assert(p.take(cs.len() as int) == p);
        cs.len()
    };
    if end == 0 {
        string_from_chars(chars_of(".").as_slice())
    } else {
        string_from_chars(vstd::slice::slice_subrange(cs.as_slice(), 0, end))
    }
}

} // verus!

verus! {

proof fn lemma_strip_trailing_prefix(s: Seq<char>, c: char)
    ensures
        strip_trailing(s, c).len() <= s.len(),
        strip_trailing(s, c) == s.take(strip_trailing(s, c).len() as int),
    decreases s.len(),
{
    if s.len() > 0 && s.last() == c {
        lemma_strip_trailing_prefix(s.drop_last(), c);
        let k = strip_trailing(s, c).len() as int;
        assert(s.drop_last().take(k) == s.take(k));
    } else {
        assert(s.take(s.len() as int) == s);
    }
}

/// The base directory of a glob pattern is never itself a pattern and never
/// empty.
pub proof fn lemma_glob_base_is_plain(p: Seq<char>)
    ensures
        !has_glob(glob_base(p)),
        glob_base(p).len() > 0,
{
    lemma_first_glob(p, 0);
    let i = first_glob(p, 0);
    if i < p.len() {
        let t = p.take(i);
        let a = strip_trailing(t, '/');
        let b = strip_trailing(a, '\\');
        lemma_strip_trailing_prefix(t, '/');
        lemma_strip_trailing_prefix(a, '\\');
        if b.len() > 0 {
            assert forall|j: int| 0 <= j < b.len() implies !is_glob_char(#[trigger] b[j]) by {
                assert(b[j] == a[j]);
                assert(a[j] == t[j]);
                assert(t[j] == p[j]);
            }
        }
    }
    if glob_base(p) == "."@ {
        reveal_strlit(".");
        assert(!is_glob_char("."@[0]));
    }
}

} // verus!

verus! {

/// Whether a directory of this name is never walked (build output and
/// installed packages).
pub open spec fn skipped_dir_name(name: Seq<char>) -> bool {
    name == "target"@ || name == "node_modules"@
}

/// Whether the walk descends into (or visits) an entry: every file, and
/// every directory but `target` and `node_modules`.
pub fn walk_keeps(is_dir: bool, name: &str) -> (r: bool)
    ensures
        r == !(is_dir && skipped_dir_name(name@)),
{
    if is_dir {
        !(crate::text::str_eq(name, "target") || crate::text::str_eq(name, "node_modules"))
    } else {
        true
    }
}

} // verus!
