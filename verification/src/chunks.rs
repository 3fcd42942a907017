use vstd::prelude::*;
use crate::text::{byte_len, is_ws, is_whitespace, string_from_chars, lemma_byte_len_range_concat, lemma_byte_len_range_bound, byte_len_range};

verus! {

/// Index of the first `"\n\n"` in `s` at or after `from`, or `s.len()` when
/// there is none.
pub open spec fn find_pair(s: Seq<char>, from: int) -> int
    decreases s.len() - from,
{
    if from < 0 || from + 1 >= s.len() {
        s.len() as int
    } else if s[from] == '\n' && s[from + 1] == '\n' {
        from
    } else {
        find_pair(s, from + 1)
    }
}

pub proof fn lemma_find_pair_bounds(s: Seq<char>, from: int)
    requires
        0 <= from <= s.len(),
    ensures
        from <= find_pair(s, from) <= s.len(),
        find_pair(s, from) < s.len() ==> find_pair(s, from) + 1 < s.len() && s[find_pair(s, from)] == '\n'
            && s[find_pair(s, from) + 1] == '\n',
    decreases s.len() - from,
{
    if from + 1 < s.len() && !(s[from] == '\n' && s[from + 1] == '\n') {
        lemma_find_pair_bounds(s, from + 1);
    }
}

pub proof fn lemma_find_newline_bounds(s: Seq<char>, from: int, to: int)
    requires
        from <= to,
    ensures
        from <= find_newline(s, from, to) <= to,
        find_newline(s, from, to) < to ==> s[find_newline(s, from, to)] == '\n',
    decreases to - from,
{
    if from < to && s[from] != '\n' {
        lemma_find_newline_bounds(s, from + 1, to);
    }
}

/// Index of the first `'\n'` in `s[from..to]`, or `to` when there is none.
pub open spec fn find_newline(s: Seq<char>, from: int, to: int) -> int
    decreases to - from,
{
    if from >= to {
        to
    } else if s[from] == '\n' {
        from
    } else {
        find_newline(s, from + 1, to)
    }
}

/// First index in `s[i..to]` that is not whitespace, or `to`.
pub open spec fn skip_ws(s: Seq<char>, i: int, to: int) -> int
    decreases to - i,
{
    if i >= to {
        to
    } else if is_ws(s[i]) {
        skip_ws(s, i + 1, to)
    } else {
        i
    }
}

/// End of `s[from..j]` once trailing whitespace is dropped.
pub open spec fn back_ws(s: Seq<char>, from: int, j: int) -> int
    decreases j - from,
{
    if j <= from {
        from
    } else if is_ws(s[j - 1]) {
        back_ws(s, from, j - 1)
    } else {
        j
    }
}

/// The range of `s[from..to]` that `str::trim` keeps.
pub open spec fn trim_range(s: Seq<char>, from: int, to: int) -> (int, int) {
    let a = skip_ws(s, from, to);
    (a, back_ws(s, a, to))
}

/// The characters of `s[from..to]` with surrounding whitespace removed.
pub open spec fn trimmed(s: Seq<char>, from: int, to: int) -> Seq<char> {
    let r = trim_range(s, from, to);
    s.subrange(r.0, r.1)
}

/// Chunks made of the lines (split on `'\n'`) of `s[ls..pe]`; `bpos` is the
/// byte offset of `s[ls]`. A line is kept, trimmed, when its trimmed form has
/// at least `min` characters.
pub open spec fn line_chunks(s: Seq<char>, ls: int, pe: int, bpos: int, min: int) -> Seq<(int, Seq<char>)>
    decreases pe - ls,
{
    let le = find_newline(s, ls, pe);
    let t = trimmed(s, ls, le);
    let here = if t.len() >= min {
        seq![(bpos, t)]
    } else {
        Seq::empty()
    };
    if le >= pe || ls >= pe {
        here
    } else {
        proof {
            lemma_find_newline_bounds(s, ls, pe);
        }
        here + line_chunks(s, le + 1, pe, bpos + byte_len(s.subrange(ls, le)) + 1, min)
    }
}

/// Chunks of the paragraph `s[ps..pe]` that starts at byte offset `bpos`.
pub open spec fn part_chunks(s: Seq<char>, ps: int, pe: int, bpos: int, min: int, max: int) -> Seq<(int, Seq<char>)> {
    let t = trimmed(s, ps, pe);
    if t.len() == 0 {
        Seq::empty()
    } else if t.len() > max {
        line_chunks(s, ps, pe, bpos, min)
    } else if t.len() >= min {
        seq![(bpos, t)]
    } else {
        Seq::empty()
    }
}

/// Chunks of the paragraphs (split on `"\n\n"`) of `s` from `ps` on, where
/// `s[ps]` sits at byte offset `bpos`.
pub open spec fn chunks_from(s: Seq<char>, ps: int, bpos: int, min: int, max: int) -> Seq<(int, Seq<char>)>
    decreases s.len() - ps,
{
    let pe = find_pair(s, ps);
    let here = part_chunks(s, ps, pe, bpos, min, max);
    if ps < 0 || ps > s.len() || pe >= s.len() {
        here
    } else {
        proof {
            lemma_find_pair_bounds(s, ps);
        }
        here + chunks_from(s, pe + 2, bpos + byte_len(s.subrange(ps, pe)) + 2, min, max)
    }
}

/// The chunks that `paragraph_chunks` returns for `text`: the paragraphs of
/// `text`, trimmed, each with the byte offset at which its untrimmed
/// paragraph starts; paragraphs whose trimmed form has fewer than `min`
/// characters are dropped; those with more than `max` characters are split
/// again into lines, each trimmed and kept when it has at least `min`
/// characters, with the byte
/// offset of its untrimmed line.
pub open spec fn paragraph_chunks_spec(text: Seq<char>, min: int, max: int) -> Seq<(int, Seq<char>)> {
    chunks_from(text, 0, 0, min, max)
}

/// A chunk of the input: its byte offset and its trimmed text.
pub struct Chunk {
    pub pos: usize,
    pub text: String,
}

impl View for Chunk {
    type V = (int, Seq<char>);

    open spec fn view(&self) -> (int, Seq<char>) {
        (self.pos as int, self.text@)
    }
}

/// The views of a sequence of chunks.
pub open spec fn chunks_view(v: Seq<Chunk>) -> Seq<(int, Seq<char>)> {
    v.map_values(|c: Chunk| c@)
}

fn find_pair_exec(s: &[char], from: usize) -> (r: usize)
    requires
        from <= s.len(),
    ensures
        r as int == find_pair(s@, from as int),
        from <= r <= s.len(),
        r < s.len() ==> r + 1 < s.len() && s@[r as int] == '\n' && s@[r + 1] == '\n',
{
    let mut i = from;
    while i < s.len() && i + 1 < s.len()
        invariant
            from <= i <= s.len(),
            find_pair(s@, i as int) == find_pair(s@, from as int),
        decreases s.len() - i,
    {
        if s[i] == '\n' && s[i + 1] == '\n' {
            return i;
        }
        i = i + 1;
    }
    s.len()
}

fn find_newline_exec(s: &[char], from: usize, to: usize) -> (r: usize)
    requires
        from <= to <= s.len(),
    ensures
        r as int == find_newline(s@, from as int, to as int),
        from <= r <= to,
        r < to ==> s@[r as int] == '\n',
{
    let mut i = from;
    while i < to
        invariant
            from <= i <= to <= s.len(),
            find_newline(s@, i as int, to as int) == find_newline(s@, from as int, to as int),
        decreases to - i,
    {
        if s[i] == '\n' {
            return i;
        }
        i = i + 1;
    }
    to
}

proof fn lemma_skip_ws_bounds(s: Seq<char>, i: int, to: int)
    requires
        i <= to,
    ensures
        i <= skip_ws(s, i, to) <= to,
    decreases to - i,
{
    if i < to && is_ws(s[i]) {
        lemma_skip_ws_bounds(s, i + 1, to);
    }
}

proof fn lemma_back_ws_bounds(s: Seq<char>, from: int, j: int)
    requires
        from <= j,
    ensures
        from <= back_ws(s, from, j) <= j,
    decreases j - from,
{
    if j > from && is_ws(s[j - 1]) {
        lemma_back_ws_bounds(s, from, j - 1);
    }
}

/// The bounds of `s[from..to]` once trimmed.
fn trim_exec(s: &[char], from: usize, to: usize) -> (r: (usize, usize))
    requires
        from <= to <= s.len(),
    ensures
        r.0 as int == trim_range(s@, from as int, to as int).0,
        r.1 as int == trim_range(s@, from as int, to as int).1,
        from <= r.0 <= r.1 <= to,
{
    let mut a = from;
    while a < to && is_whitespace(s[a])
        invariant
            from <= a <= to <= s.len(),
            skip_ws(s@, a as int, to as int) == skip_ws(s@, from as int, to as int),
        decreases to - a,
    {
        a = a + 1;
    }
    let mut b = to;
    while b > a && is_whitespace(s[b - 1])
        invariant
            a <= b <= to <= s.len(),
            back_ws(s@, a as int, b as int) == back_ws(s@, a as int, to as int),
        decreases b - a,
    {
        b = b - 1;
    }
    (a, b)
}

fn push_chunk(out: &mut Vec<Chunk>, pos: usize, s: &[char], a: usize, b: usize)
    requires
        a <= b <= s.len(),
    ensures
        chunks_view(final(out)@) == chunks_view(old(out)@).push((pos as int, s@.subrange(a as int, b as int))),
{
    let text = string_from_chars(vstd::slice::slice_subrange(s, a, b));
    out.push(Chunk { pos, text });
    assert(chunks_view(out@) =~= chunks_view(old(out)@).push((pos as int, s@.subrange(a as int, b as int))));
}

} // verus!

verus! {

proof fn lemma_newline_width(s: Seq<char>, i: int)
    requires
        0 <= i < s.len(),
        s[i] == '\n',
    ensures
        byte_len(s.take(i + 1)) == byte_len(s.take(i)) + 1,
{
    crate::text::lemma_byte_len_range_step(s, 0, i);
    assert(s.take(i + 1) == s.subrange(0, i + 1));
    assert(s.take(i) == s.subrange(0, i));
    assert(vstd::utf8::has_width_1_encoding('\n' as u32));
}

fn push_line_chunks(s: &[char], ps: usize, pe: usize, bpos: usize, min: usize, out: &mut Vec<Chunk>)
    requires
        ps <= pe <= s.len(),
        byte_len(s@) <= usize::MAX,
        bpos as nat == byte_len(s@.take(ps as int)),
    ensures
        chunks_view(final(out)@) == chunks_view(old(out)@) + line_chunks(s@, ps as int, pe as int, bpos as int, min as int),
{
    let mut ls = ps;
    let mut lpos = bpos;
    let ghost target = chunks_view(old(out)@) + line_chunks(s@, ps as int, pe as int, bpos as int, min as int);
    assert(chunks_view(out@) + line_chunks(s@, ls as int, pe as int, lpos as int, min as int) == target);
    loop
        invariant_except_break
            ps <= ls <= pe <= s.len(),
            byte_len(s@) <= usize::MAX,
            lpos as nat == byte_len(s@.take(ls as int)),
            chunks_view(out@) + line_chunks(s@, ls as int, pe as int, lpos as int, min as int) == target,
        ensures
            chunks_view(out@) == target,
        decreases pe - ls,
    {
        let ghost before = chunks_view(out@);
        let le = find_newline_exec(s, ls, pe);
        let (a, b) = trim_exec(s, ls, le);
        let n = b - a;
        let ghost here = if n >= min {
            seq![(lpos as int, s@.subrange(a as int, b as int))]
        } else {
            Seq::<(int, Seq<char>)>::empty()
        };
        if n >= min {
            push_chunk(out, lpos, s, a, b);
        }
        assert(chunks_view(out@) == before + here);
        if le >= pe {
            assert(line_chunks(s@, ls as int, pe as int, lpos as int, min as int) == here);
            assert(before + here == target);
            break;
        }
        proof {
            lemma_byte_len_range_bound(s@, ls as int, le as int);
        }
        let w = byte_len_range(s, ls, le);
        proof {
            lemma_byte_len_range_concat(s@, 0, ls as int, le as int);
            assert(s@.take(ls as int) == s@.subrange(0, ls as int));
            assert(s@.take(le as int) == s@.subrange(0, le as int));
            lemma_newline_width(s@, le as int);
            lemma_byte_len_range_bound(s@, 0, le + 1);
            assert(s@.take(le + 1) == s@.subrange(0, le + 1));
            assert(line_chunks(s@, ls as int, pe as int, lpos as int, min as int) == here
                + line_chunks(s@, le + 1, pe as int, lpos + w + 1, min as int));
            assert(before + (here + line_chunks(s@, le + 1, pe as int, lpos + w + 1, min as int))
                == (before + here) + line_chunks(s@, le + 1, pe as int, lpos + w + 1, min as int));
        }
        lpos = lpos + w + 1;
        ls = le + 1;
    }
}

/// Splits `text` into the chunks that are ranked: paragraphs separated by a
/// blank line (`"\n\n"`), trimmed, that have at least `min` characters; a
/// paragraph with more than `max` characters is split again into its lines,
/// and each line, trimmed, is kept when it has at least `min` characters.
/// Each chunk
/// carries the byte offset in `text` of its untrimmed paragraph or line.
pub fn paragraph_chunks(text: &str, min: usize, max: usize) -> (res: Vec<Chunk>)
    requires
        byte_len(text@) <= usize::MAX,
    ensures
        chunks_view(res@) == paragraph_chunks_spec(text@, min as int, max as int),
{
    let s = crate::text::chars_of(text);
    let ghost sv = s@;
    let mut out: Vec<Chunk> = Vec::new();
    let mut ps: usize = 0;
    let mut bpos: usize = 0;
    let ghost target = chunks_from(sv, 0, 0, min as int, max as int);
    assert(sv.take(0) == Seq::<char>::empty());
    assert(vstd::utf8::encode_utf8(Seq::<char>::empty()) == Seq::<u8>::empty());
    assert(chunks_view(out@) == Seq::<(int, Seq<char>)>::empty());
    assert(chunks_view(out@) + chunks_from(sv, 0, 0, min as int, max as int) == target);
    loop
        invariant_except_break
            s@ == sv,
            ps <= s.len(),
            byte_len(sv) <= usize::MAX,
            bpos as nat == byte_len(sv.take(ps as int)),
            chunks_view(out@) + chunks_from(sv, ps as int, bpos as int, min as int, max as int) == target,
        ensures
            chunks_view(out@) == target,
        decreases s.len() - ps,
    {
        let ghost before = chunks_view(out@);
        let pe = find_pair_exec(s.as_slice(), ps);
        let (a, b) = trim_exec(s.as_slice(), ps, pe);
        let ghost here = part_chunks(sv, ps as int, pe as int, bpos as int, min as int, max as int);
        if a < b {
            let n = b - a;
            if n > max {
                push_line_chunks(s.as_slice(), ps, pe, bpos, min, &mut out);
            } else if n >= min {
                push_chunk(&mut out, bpos, s.as_slice(), a, b);
            }
        }
        assert(chunks_view(out@) == before + here);
        if pe >= s.len() {
            assert(chunks_from(sv, ps as int, bpos as int, min as int, max as int) == here);
            break;
        }
        proof {
            lemma_byte_len_range_bound(sv, ps as int, pe as int);
        }
        let w = byte_len_range(s.as_slice(), ps, pe);
        proof {
            lemma_byte_len_range_concat(sv, 0, ps as int, pe as int);
            assert(sv.take(ps as int) == sv.subrange(0, ps as int));
            assert(sv.take(pe as int) == sv.subrange(0, pe as int));
            lemma_newline_width(sv, pe as int);
            lemma_newline_width(sv, pe + 1);
            lemma_byte_len_range_bound(sv, 0, pe + 2);
            assert(sv.take(pe + 2) == sv.subrange(0, pe + 2));
            let rest = chunks_from(sv, pe + 2, bpos + w + 2, min as int, max as int);
            assert(chunks_from(sv, ps as int, bpos as int, min as int, max as int) == here + rest);
            assert(before + (here + rest) == (before + here) + rest);
        }
        bpos = bpos + w + 2;
        ps = pe + 2;
    }
    out
}

} // verus!

verus! {

/// Whether `t` neither starts nor ends with whitespace.
pub open spec fn clean(t: Seq<char>) -> bool {
    t.len() == 0 || (!is_ws(t[0]) && !is_ws(t.last()))
}

/// Whether every chunk of `v` has at least `min` characters and is trimmed.
pub open spec fn all_at_least(v: Seq<(int, Seq<char>)>, min: int) -> bool {
    forall|i: int| 0 <= i < v.len() ==> (#[trigger] v[i]).1.len() >= min && clean(v[i].1)
}

proof fn lemma_skip_ws_stop(s: Seq<char>, i: int, to: int)
    requires
        0 <= i <= to <= s.len(),
    ensures
        skip_ws(s, i, to) < to ==> !is_ws(s[skip_ws(s, i, to)]),
    decreases to - i,
{
    if i < to && is_ws(s[i]) {
        lemma_skip_ws_stop(s, i + 1, to);
    }
}

proof fn lemma_back_ws_stop(s: Seq<char>, from: int, j: int)
    requires
        0 <= from <= j <= s.len(),
    ensures
        back_ws(s, from, j) > from ==> !is_ws(s[back_ws(s, from, j) - 1]),
    decreases j - from,
{
    if j > from && is_ws(s[j - 1]) {
        lemma_back_ws_stop(s, from, j - 1);
    }
}

/// A trimmed range neither starts nor ends with whitespace.
proof fn lemma_trimmed_clean(s: Seq<char>, from: int, to: int)
    requires
        0 <= from <= to <= s.len(),
    ensures
        clean(trimmed(s, from, to)),
{
    let a = skip_ws(s, from, to);
    lemma_skip_ws_bounds(s, from, to);
    lemma_back_ws_bounds(s, a, to);
    let b = back_ws(s, a, to);
    lemma_skip_ws_stop(s, from, to);
    lemma_back_ws_stop(s, a, to);
    let t = s.subrange(a, b);
    if t.len() > 0 {
        assert(a < to);
        assert(t[0] == s[a]);
        assert(t.last() == s[b - 1]);
    }
}

proof fn lemma_concat_at_least(a: Seq<(int, Seq<char>)>, b: Seq<(int, Seq<char>)>, min: int)
    requires
        all_at_least(a, min),
        all_at_least(b, min),
    ensures
        all_at_least(a + b, min),
{
    assert forall|i: int| 0 <= i < (a + b).len() implies (#[trigger] (a + b)[i]).1.len() >= min && clean((a + b)[i].1) by {
        if i < a.len() {
            assert((a + b)[i] == a[i]);
        } else {
            assert((a + b)[i] == b[i - a.len()]);
        }
    }
}

proof fn lemma_line_chunks_at_least(s: Seq<char>, ls: int, pe: int, bpos: int, min: int)
    requires
        0 <= ls <= pe <= s.len(),
    ensures
        all_at_least(line_chunks(s, ls, pe, bpos, min), min),
    decreases pe - ls,
{
    let le = find_newline(s, ls, pe);
    let t = trimmed(s, ls, le);
    let here = if t.len() >= min {
        seq![(bpos, t)]
    } else {
        Seq::<(int, Seq<char>)>::empty()
    };
    if 0 <= ls <= pe <= s.len() {
        lemma_find_newline_bounds(s, ls, pe);
        lemma_trimmed_clean(s, ls, le);
    }
    assert(all_at_least(here, min));
    if !(le >= pe || ls >= pe) {
        lemma_find_newline_bounds(s, ls, pe);
        lemma_line_chunks_at_least(s, le + 1, pe, bpos + byte_len(s.subrange(ls, le)) + 1, min);
        lemma_concat_at_least(here, line_chunks(s, le + 1, pe, bpos + byte_len(s.subrange(ls, le)) + 1, min), min);
    }
}

proof fn lemma_chunks_from_at_least(s: Seq<char>, ps: int, bpos: int, min: int, max: int)
    requires
        0 <= ps <= s.len(),
    ensures
        all_at_least(chunks_from(s, ps, bpos, min, max), min),
    decreases s.len() - ps,
{
    let pe = find_pair(s, ps);
    let here = part_chunks(s, ps, pe, bpos, min, max);
    lemma_find_pair_bounds(s, ps);
    lemma_line_chunks_at_least(s, ps, pe, bpos, min);
    lemma_trimmed_clean(s, ps, pe);
    assert(all_at_least(here, min));
    if !(ps < 0 || ps > s.len() || pe >= s.len()) {
        lemma_find_pair_bounds(s, ps);
        let next = bpos + byte_len(s.subrange(ps, pe)) + 2;
        lemma_chunks_from_at_least(s, pe + 2, next, min, max);
        lemma_concat_at_least(here, chunks_from(s, pe + 2, next, min, max), min);
    }
}

/// Every chunk has at least `min` characters (shorter paragraphs and lines are
/// skipped) and neither starts nor ends with whitespace.
pub proof fn lemma_chunks_trimmed_and_long_enough(text: Seq<char>, min: int, max: int)
    ensures
        all_at_least(paragraph_chunks_spec(text, min, max), min),
{
    lemma_chunks_from_at_least(text, 0, 0, min, max);
}

} // verus!

verus! {

/// Whether the chunk `c` is a piece of `s` that begins at or after the byte
/// offset it carries: its text is `s[i..j]` and its offset is that of some
/// `s[a]` with `a <= i`.
pub open spec fn located(s: Seq<char>, c: (int, Seq<char>)) -> bool {
    exists|a: int, i: int, j: int|
        #![trigger s.take(a), s.subrange(i, j)]
        0 <= a <= i <= j <= s.len() && c.0 == byte_len(s.take(a)) && c.1 == s.subrange(i, j)
}

/// Whether every chunk of `v` is located in `s`.
pub open spec fn all_located(s: Seq<char>, v: Seq<(int, Seq<char>)>) -> bool {
    forall|k: int| 0 <= k < v.len() ==> located(s, #[trigger] v[k])
}

proof fn lemma_concat_located(s: Seq<char>, a: Seq<(int, Seq<char>)>, b: Seq<(int, Seq<char>)>)
    requires
        all_located(s, a),
        all_located(s, b),
    ensures
        all_located(s, a + b),
{
    assert forall|k: int| 0 <= k < (a + b).len() implies located(s, #[trigger] (a + b)[k]) by {
        if k < a.len() {
            assert((a + b)[k] == a[k]);
        } else {
            assert((a + b)[k] == b[k - a.len()]);
        }
    }
}

proof fn lemma_trimmed_located(s: Seq<char>, from: int, to: int, pos: int)
    requires
        0 <= from <= to <= s.len(),
        pos == byte_len(s.take(from)),
    ensures
        located(s, (pos, trimmed(s, from, to))),
{
    lemma_skip_ws_bounds(s, from, to);
    let a = skip_ws(s, from, to);
    lemma_back_ws_bounds(s, a, to);
    let b = back_ws(s, a, to);
    assert(0 <= from <= a <= b <= s.len() && pos == byte_len(s.take(from)) && trimmed(s, from, to) == s.subrange(a, b));
}

proof fn lemma_step_offset(s: Seq<char>, from: int, nl: int)
    requires
        0 <= from <= nl < s.len(),
        s[nl] == '\n',
    ensures
        byte_len(s.take(from)) + byte_len(s.subrange(from, nl)) + 1 == byte_len(s.take(nl + 1)),
{
    lemma_byte_len_range_concat(s, 0, from, nl);
    assert(s.take(from) == s.subrange(0, from));
    assert(s.take(nl) == s.subrange(0, nl));
    lemma_newline_width(s, nl);
}

proof fn lemma_line_chunks_located(s: Seq<char>, ls: int, pe: int, bpos: int, min: int)
    requires
        0 <= ls <= pe <= s.len(),
        bpos == byte_len(s.take(ls)),
    ensures
        all_located(s, line_chunks(s, ls, pe, bpos, min)),
    decreases pe - ls,
{
    lemma_find_newline_bounds(s, ls, pe);
    let le = find_newline(s, ls, pe);
    let t = trimmed(s, ls, le);
    let here = if t.len() >= min {
        seq![(bpos, t)]
    } else {
        Seq::<(int, Seq<char>)>::empty()
    };
    lemma_trimmed_located(s, ls, le, bpos);
    assert(all_located(s, here));
    if !(le >= pe || ls >= pe) {
        lemma_step_offset(s, ls, le);
        let next = bpos + byte_len(s.subrange(ls, le)) + 1;
        lemma_line_chunks_located(s, le + 1, pe, next, min);
        lemma_concat_located(s, here, line_chunks(s, le + 1, pe, next, min));
    }
}

proof fn lemma_chunks_from_located(s: Seq<char>, ps: int, bpos: int, min: int, max: int)
    requires
        0 <= ps <= s.len(),
        bpos == byte_len(s.take(ps)),
    ensures
        all_located(s, chunks_from(s, ps, bpos, min, max)),
    decreases s.len() - ps,
{
    lemma_find_pair_bounds(s, ps);
    let pe = find_pair(s, ps);
    let here = part_chunks(s, ps, pe, bpos, min, max);
    lemma_line_chunks_located(s, ps, pe, bpos, min);
    lemma_trimmed_located(s, ps, pe, bpos);
    assert(all_located(s, here));
    if pe < s.len() {
        lemma_step_offset(s, ps, pe);
        lemma_newline_width(s, pe + 1);
        let next = bpos + byte_len(s.subrange(ps, pe)) + 2;
        assert(next == byte_len(s.take(pe + 2)));
        lemma_chunks_from_located(s, pe + 2, next, min, max);
        lemma_concat_located(s, here, chunks_from(s, pe + 2, next, min, max));
    }
}

/// Every chunk is a piece of the input that begins at or after the byte
/// offset it carries (the offset of its untrimmed paragraph or line).
pub proof fn lemma_chunks_are_located(text: Seq<char>, min: int, max: int)
    ensures
        all_located(text, paragraph_chunks_spec(text, min, max)),
{
    assert(text.take(0) == Seq::<char>::empty());
    assert(vstd::utf8::encode_utf8(Seq::<char>::empty()) == Seq::<u8>::empty());
    lemma_chunks_from_located(text, 0, 0, min, max);
}

/// Whether `t` holds no line break.
pub open spec fn single_line(t: Seq<char>) -> bool {
    forall|k: int| 0 <= k < t.len() ==> t[k] != '\n'
}

/// Whether every chunk of `v` with more than `max` characters is a single
/// line.
pub open spec fn long_chunks_single_line(v: Seq<(int, Seq<char>)>, max: int) -> bool {
    forall|i: int| 0 <= i < v.len() && (#[trigger] v[i]).1.len() > max ==> single_line(v[i].1)
}

proof fn lemma_no_newline_before_first(s: Seq<char>, from: int, to: int)
    requires
        from <= to,
    ensures
        forall|k: int| from <= k < find_newline(s, from, to) ==> s[k] != '\n',
    decreases to - from,
{
    if from < to && s[from] != '\n' {
        lemma_no_newline_before_first(s, from + 1, to);
    }
}

proof fn lemma_trimmed_single_line(s: Seq<char>, from: int, to: int)
    requires
        0 <= from <= to <= s.len(),
        forall|k: int| from <= k < to ==> s[k] != '\n',
    ensures
        single_line(trimmed(s, from, to)),
{
    lemma_skip_ws_bounds(s, from, to);
    let a = skip_ws(s, from, to);
    lemma_back_ws_bounds(s, a, to);
    let b = back_ws(s, a, to);
    assert forall|k: int| 0 <= k < trimmed(s, from, to).len() implies trimmed(s, from, to)[k] != '\n' by {
        assert(trimmed(s, from, to)[k] == s[a + k]);
    }
}

proof fn lemma_concat_long_single(a: Seq<(int, Seq<char>)>, b: Seq<(int, Seq<char>)>, max: int)
    requires
        long_chunks_single_line(a, max),
        long_chunks_single_line(b, max),
    ensures
        long_chunks_single_line(a + b, max),
{
    assert forall|i: int| 0 <= i < (a + b).len() && (#[trigger] (a + b)[i]).1.len() > max implies single_line((a + b)[i].1) by {
        if i < a.len() {
            assert((a + b)[i] == a[i]);
        } else {
            assert((a + b)[i] == b[i - a.len()]);
        }
    }
}

proof fn lemma_line_chunks_single_line(s: Seq<char>, ls: int, pe: int, bpos: int, min: int)
    requires
        0 <= ls <= pe <= s.len(),
    ensures
        forall|i: int| 0 <= i < line_chunks(s, ls, pe, bpos, min).len() ==> single_line(
            #[trigger] line_chunks(s, ls, pe, bpos, min)[i].1,
        ),
    decreases pe - ls,
{
    let le = find_newline(s, ls, pe);
    lemma_find_newline_bounds(s, ls, pe);
    lemma_no_newline_before_first(s, ls, pe);
    lemma_trimmed_single_line(s, ls, le);
    let t = trimmed(s, ls, le);
    let here = if t.len() >= min {
        seq![(bpos, t)]
    } else {
        Seq::<(int, Seq<char>)>::empty()
    };
    if !(le >= pe || ls >= pe) {
        let nb = bpos + byte_len(s.subrange(ls, le)) + 1;
        lemma_line_chunks_single_line(s, le + 1, pe, nb, min);
        let rest = line_chunks(s, le + 1, pe, nb, min);
        assert(line_chunks(s, ls, pe, bpos, min) == here + rest);
        assert forall|i: int| 0 <= i < (here + rest).len() implies single_line(#[trigger] (here + rest)[i].1) by {
            if i < here.len() {
                assert((here + rest)[i] == here[i]);
            } else {
                assert((here + rest)[i] == rest[i - here.len()]);
            }
        }
    }
}

proof fn lemma_chunks_from_long_single(s: Seq<char>, ps: int, bpos: int, min: int, max: int)
    requires
        0 <= ps <= s.len(),
    ensures
        long_chunks_single_line(chunks_from(s, ps, bpos, min, max), max),
    decreases s.len() - ps,
{
    let pe = find_pair(s, ps);
    lemma_find_pair_bounds(s, ps);
    let here = part_chunks(s, ps, pe, bpos, min, max);
    lemma_line_chunks_single_line(s, ps, pe, bpos, min);
    assert(long_chunks_single_line(here, max));
    if pe < s.len() {
        let next = bpos + byte_len(s.subrange(ps, pe)) + 2;
        lemma_chunks_from_long_single(s, pe + 2, next, min, max);
        lemma_concat_long_single(here, chunks_from(s, pe + 2, next, min, max), max);
    }
}

/// A paragraph longer than `max` characters is cut at every line break: a
/// chunk with more than `max` characters is always a single line (so a
/// chunk that spans several lines never has more than `max` characters).
pub proof fn lemma_long_chunks_are_single_lines(text: Seq<char>, min: int, max: int)
    ensures
        forall|i: int| 0 <= i < paragraph_chunks_spec(text, min, max).len()
            && (#[trigger] paragraph_chunks_spec(text, min, max)[i]).1.len() > max
            ==> single_line(paragraph_chunks_spec(text, min, max)[i].1),
{
    lemma_chunks_from_long_single(text, 0, 0, min, max);
}

/// The number of characters of `t` that are not whitespace.
pub open spec fn solid_count(t: Seq<char>) -> nat
    decreases t.len(),
{
    if t.len() == 0 {
        0
    } else {
        solid_count(t.drop_last()) + if is_ws(t.last()) {
            0nat
        } else {
            1nat
        }
    }
}

/// The number of characters that are not whitespace, over all chunks of `v`.
pub open spec fn chunks_solid_count(v: Seq<(int, Seq<char>)>) -> nat
    decreases v.len(),
{
    if v.len() == 0 {
        0
    } else {
        chunks_solid_count(v.drop_last()) + solid_count(v.last().1)
    }
}

proof fn lemma_solid_concat(a: Seq<char>, b: Seq<char>)
    ensures
        solid_count(a + b) == solid_count(a) + solid_count(b),
    decreases b.len(),
{
    if b.len() > 0 {
        lemma_solid_concat(a, b.drop_last());
        assert((a + b).drop_last() == a + b.drop_last());
        assert((a + b).last() == b.last());
    } else {
        assert(a + b == a);
    }
}

proof fn lemma_solid_split(s: Seq<char>, a: int, b: int, c: int)
    requires
        0 <= a <= b <= c <= s.len(),
    ensures
        solid_count(s.subrange(a, c)) == solid_count(s.subrange(a, b)) + solid_count(s.subrange(b, c)),
{
    assert(s.subrange(a, c) == s.subrange(a, b) + s.subrange(b, c));
    lemma_solid_concat(s.subrange(a, b), s.subrange(b, c));
}

proof fn lemma_solid_blank(t: Seq<char>)
    requires
        forall|k: int| 0 <= k < t.len() ==> is_ws(t[k]),
    ensures
        solid_count(t) == 0,
    decreases t.len(),
{
    if t.len() > 0 {
        lemma_solid_blank(t.drop_last());
    }
}

proof fn lemma_skip_ws_all_ws(s: Seq<char>, i: int, to: int)
    requires
        i <= to,
    ensures
        forall|k: int| i <= k < skip_ws(s, i, to) ==> is_ws(s[k]),
    decreases to - i,
{
    if i < to && is_ws(s[i]) {
        lemma_skip_ws_all_ws(s, i + 1, to);
    }
}

proof fn lemma_back_ws_all_ws(s: Seq<char>, from: int, j: int)
    requires
        from <= j,
    ensures
        forall|k: int| back_ws(s, from, j) <= k < j ==> is_ws(s[k]),
    decreases j - from,
{
    if j > from && is_ws(s[j - 1]) {
        lemma_back_ws_all_ws(s, from, j - 1);
    }
}

/// Trimming drops only whitespace.
proof fn lemma_trimmed_solid(s: Seq<char>, from: int, to: int)
    requires
        0 <= from <= to <= s.len(),
    ensures
        solid_count(trimmed(s, from, to)) == solid_count(s.subrange(from, to)),
{
    lemma_skip_ws_bounds(s, from, to);
    let a = skip_ws(s, from, to);
    lemma_back_ws_bounds(s, a, to);
    let b = back_ws(s, a, to);
    lemma_skip_ws_all_ws(s, from, to);
    lemma_back_ws_all_ws(s, a, to);
    lemma_solid_split(s, from, a, to);
    lemma_solid_split(s, a, b, to);
    lemma_solid_blank(s.subrange(from, a));
    lemma_solid_blank(s.subrange(b, to));
}

proof fn lemma_chunks_solid_concat(a: Seq<(int, Seq<char>)>, b: Seq<(int, Seq<char>)>)
    ensures
        chunks_solid_count(a + b) == chunks_solid_count(a) + chunks_solid_count(b),
    decreases b.len(),
{
    if b.len() > 0 {
        lemma_chunks_solid_concat(a, b.drop_last());
        assert((a + b).drop_last() == a + b.drop_last());
        assert((a + b).last() == b.last());
    } else {
        assert(a + b == a);
    }
}

proof fn lemma_one_chunk_solid(p: int, t: Seq<char>)
    ensures
        chunks_solid_count(seq![(p, t)]) == solid_count(t),
{
    assert(seq![(p, t)].drop_last() == Seq::<(int, Seq<char>)>::empty());
    assert(chunks_solid_count(Seq::<(int, Seq<char>)>::empty()) == 0);
    assert(seq![(p, t)].last() == (p, t));
}

proof fn lemma_newline_solid(s: Seq<char>, i: int)
    requires
        0 <= i < s.len(),
        is_ws(s[i]),
    ensures
        solid_count(s.subrange(i, i + 1)) == 0,
{
    lemma_solid_blank(s.subrange(i, i + 1));
}

proof fn lemma_line_chunks_solid(s: Seq<char>, ls: int, pe: int, bpos: int, min: int)
    requires
        0 <= ls <= pe <= s.len(),
        min <= 1,
    ensures
        chunks_solid_count(line_chunks(s, ls, pe, bpos, min)) == solid_count(s.subrange(ls, pe)),
    decreases pe - ls,
{
    let le = find_newline(s, ls, pe);
    lemma_find_newline_bounds(s, ls, pe);
    let t = trimmed(s, ls, le);
    lemma_trimmed_solid(s, ls, le);
    let here = if t.len() >= min {
        seq![(bpos, t)]
    } else {
        Seq::<(int, Seq<char>)>::empty()
    };
    if t.len() >= min {
        lemma_one_chunk_solid(bpos, t);
    } else {
        assert(t.len() == 0);
        lemma_solid_blank(t);
    }
    assert(chunks_solid_count(here) == solid_count(s.subrange(ls, le)));
    if !(le >= pe || ls >= pe) {
        let nb = bpos + byte_len(s.subrange(ls, le)) + 1;
        lemma_line_chunks_solid(s, le + 1, pe, nb, min);
        lemma_chunks_solid_concat(here, line_chunks(s, le + 1, pe, nb, min));
        lemma_solid_split(s, ls, le, pe);
        lemma_solid_split(s, le, le + 1, pe);
        lemma_newline_solid(s, le);
    }
}

proof fn lemma_chunks_from_solid(s: Seq<char>, ps: int, bpos: int, min: int, max: int)
    requires
        0 <= ps <= s.len(),
        min <= 1,
    ensures
        chunks_solid_count(chunks_from(s, ps, bpos, min, max)) == solid_count(s.subrange(ps, s.len() as int)),
    decreases s.len() - ps,
{
    let pe = find_pair(s, ps);
    lemma_find_pair_bounds(s, ps);
    let here = part_chunks(s, ps, pe, bpos, min, max);
    let t = trimmed(s, ps, pe);
    lemma_trimmed_solid(s, ps, pe);
    lemma_line_chunks_solid(s, ps, pe, bpos, min);
    if t.len() == 0 {
        lemma_solid_blank(t);
    } else if t.len() > max {
    } else if t.len() >= min {
        lemma_one_chunk_solid(bpos, t);
    } else {
        assert(t.len() == 0);
    }
    assert(chunks_solid_count(here) == solid_count(s.subrange(ps, pe)));
    if pe < s.len() {
        let next = bpos + byte_len(s.subrange(ps, pe)) + 2;
        lemma_chunks_from_solid(s, pe + 2, next, min, max);
        lemma_chunks_solid_concat(here, chunks_from(s, pe + 2, next, min, max));
        lemma_solid_split(s, ps, pe, s.len() as int);
        lemma_solid_split(s, pe, pe + 2, s.len() as int);
        lemma_solid_split(s, pe, pe + 1, pe + 2);
        lemma_newline_solid(s, pe);
        lemma_newline_solid(s, pe + 1);
    } else {
        assert(pe == s.len());
    }
}

/// Nothing but whitespace is lost when at most one character is asked of a
/// chunk: every character of the text that is not whitespace is in exactly
/// one chunk, whether its paragraph is kept whole or split into lines (so no
/// line of a split paragraph is dropped or repeated).
pub proof fn lemma_chunks_keep_every_solid_character(text: Seq<char>, min: int, max: int)
    requires
        min <= 1,
    ensures
        chunks_solid_count(paragraph_chunks_spec(text, min, max)) == solid_count(text),
{
    lemma_chunks_from_solid(text, 0, 0, min, max);
    assert(text.subrange(0, text.len() as int) == text);
}

} // verus!
