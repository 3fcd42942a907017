use vstd::prelude::*;
use vstd::utf8::{valid_utf8, decode_utf8, is_char_boundary, is_leading_byte_width_1, is_continuation_byte};
use crate::content::utf8_text;

verus! {

/// Bytes written before a snippet: two spaces and an ellipsis.
pub open spec fn snippet_open() -> Seq<u8> {
    seq![32u8, 32u8, 46u8, 46u8, 46u8]
}

/// Bytes written after a snippet: an ellipsis.
pub open spec fn snippet_close() -> Seq<u8> {
    seq![46u8, 46u8, 46u8]
}

/// The terminal escape that starts bold text (`ESC [1m`).
pub open spec fn bold_on() -> Seq<u8> {
    seq![27u8, 91u8, 49u8, 109u8]
}

/// The terminal escape that resets the text style (`ESC [0m`).
pub open spec fn bold_off() -> Seq<u8> {
    seq![27u8, 91u8, 48u8, 109u8]
}

/// Whether the highlighted byte ranges `hs[i..]` of `f`, read after byte
/// `last`, each start no earlier than the previous one ended, end no earlier
/// than they start, stay within `f` and fall on character boundaries.
pub open spec fn ranges_ok(f: Seq<u8>, hs: Seq<(usize, usize)>, i: int, last: int) -> bool
    decreases hs.len() - i,
{
    if i < 0 || i >= hs.len() {
        last <= f.len()
    } else {
        &&& last <= hs[i].0 <= hs[i].1 <= f.len()
        &&& is_char_boundary(f, hs[i].0 as int)
        &&& is_char_boundary(f, hs[i].1 as int)
        &&& ranges_ok(f, hs, i + 1, hs[i].1 as int)
    }
}

/// The bytes of the fragment `f` from `last` on, with each highlighted range
/// `hs[i..]` wrapped in the bold escapes.
pub open spec fn marked_from(f: Seq<u8>, hs: Seq<(usize, usize)>, i: int, last: int) -> Seq<u8>
    decreases hs.len() - i,
{
    if i < 0 || i >= hs.len() {
        f.subrange(last, f.len() as int)
    } else {
        f.subrange(last, hs[i].0 as int) + bold_on() + f.subrange(hs[i].0 as int, hs[i].1 as int) + bold_off()
            + marked_from(f, hs, i + 1, hs[i].1 as int)
    }
}

/// The rendered snippet, as UTF-8 bytes: the fragment with its highlighted
/// ranges in bold, between the opening and closing ellipses.
pub open spec fn rendered(f: Seq<u8>, hs: Seq<(usize, usize)>) -> Seq<u8> {
    snippet_open() + marked_from(f, hs, 0, 0) + snippet_close()
}

proof fn lemma_ascii_valid(s: Seq<u8>)
    requires
        forall|i: int| 0 <= i < s.len() ==> #[trigger] s[i] < 0x80,
    ensures
        valid_utf8(s),
{
    assert(s.subrange(0, 0) == Seq::<u8>::empty());
    assert(vstd::utf8::partial_valid_utf8(s, 0));
    assert forall|i: int| 0 <= 0 <= i < s.len() <= s.len() implies #[trigger] is_leading_byte_width_1(s[i]) by {
        assert(s[i] < 0x80);
    }
    vstd::utf8::partial_valid_utf8_extend_ascii_block(s, 0, s.len() as int);
    assert(s.subrange(0, s.len() as int) == s);
}

proof fn lemma_valid_range(f: Seq<u8>, a: int, b: int)
    requires
        valid_utf8(f),
        0 <= a <= b <= f.len(),
        is_char_boundary(f, a),
        is_char_boundary(f, b),
    ensures
        valid_utf8(f.subrange(a, b)),
{
    vstd::utf8::valid_utf8_split(f, b);
    let p = f.subrange(0, b);
    if a < b {
        vstd::utf8::is_char_boundary_iff_not_is_continuation_byte(f, a);
        vstd::utf8::is_char_boundary_iff_not_is_continuation_byte(p, a);
        assert(p[a] == f[a]);
    } else {
        vstd::utf8::is_char_boundary_start_end_of_seq(p);
    }
    vstd::utf8::valid_utf8_split(p, a);
    assert(p.subrange(a, p.len() as int) == f.subrange(a, b));
}

proof fn lemma_marked_valid(f: Seq<u8>, hs: Seq<(usize, usize)>, i: int, last: int)
    requires
        valid_utf8(f),
        0 <= i <= hs.len(),
        0 <= last,
        is_char_boundary(f, last),
        ranges_ok(f, hs, i, last),
    ensures
        valid_utf8(marked_from(f, hs, i, last)),
    decreases hs.len() - i,
{
    if i >= hs.len() {
        vstd::utf8::is_char_boundary_start_end_of_seq(f);
        lemma_valid_range(f, last, f.len() as int);
    } else {
        let s = hs[i].0 as int;
        let e = hs[i].1 as int;
        lemma_valid_range(f, last, s);
        lemma_valid_range(f, s, e);
        lemma_ascii_valid(bold_on());
        lemma_ascii_valid(bold_off());
        lemma_marked_valid(f, hs, i + 1, e);
        vstd::utf8::valid_utf8_concat(f.subrange(last, s), bold_on());
        vstd::utf8::valid_utf8_concat(f.subrange(last, s) + bold_on(), f.subrange(s, e));
        vstd::utf8::valid_utf8_concat(f.subrange(last, s) + bold_on() + f.subrange(s, e), bold_off());
        vstd::utf8::valid_utf8_concat(
            f.subrange(last, s) + bold_on() + f.subrange(s, e) + bold_off(),
            marked_from(f, hs, i + 1, e),
        );
    }
}

fn push_range(out: &mut Vec<u8>, f: &[u8], a: usize, b: usize)
    requires
        a <= b <= f.len(),
    ensures
        final(out)@ == old(out)@ + f@.subrange(a as int, b as int),
{
    let mut i = a;
    while i < b
        invariant
            a <= i <= b <= f.len(),
            out@ == old(out)@ + f@.subrange(a as int, i as int),
        decreases b - i,
    {
        out.push(f[i]);
        assert(f@.subrange(a as int, i + 1) == f@.subrange(a as int, i as int).push(f@[i as int]));
        i = i + 1;
    }
}

fn push_escape(out: &mut Vec<u8>, on: bool)
    ensures
        final(out)@ == old(out)@ + if on {
            bold_on()
        } else {
            bold_off()
        },
{
    out.push(27u8);
    out.push(91u8);
    out.push(if on {
        49u8
    } else {
        48u8
    });
    out.push(109u8);
    assert(out@ =~= old(out)@ + if on {
        bold_on()
    } else {
        bold_off()
    });
}

/// Renders a search snippet for the terminal: `"  ..."`, then the fragment
/// with each highlighted byte range in bold, then `"..."`.
pub fn render_snippet(fragment: &str, highlighted: &[(usize, usize)]) -> (r: String)
    requires
        ranges_ok(vstd::utf8::encode_utf8(fragment@), highlighted@, 0, 0),
    ensures
        r@ == decode_utf8(rendered(vstd::utf8::encode_utf8(fragment@), highlighted@)),
{
    let f = fragment.as_bytes();
    let ghost fb = f@;
    let ghost hs = highlighted@;
    let mut out: Vec<u8> = Vec::new();
    out.push(32u8);
    out.push(32u8);
    out.push(46u8);
    out.push(46u8);
    out.push(46u8);
    assert(out@ == snippet_open());
    let mut last: usize = 0;
    let mut i: usize = 0;
    assert(marked_from(fb, hs, 0, 0) == marked_from(fb, hs, i as int, last as int));
    while i < highlighted.len()
        invariant
            f@ == fb,
            highlighted@ == hs,
            i <= highlighted.len(),
            ranges_ok(fb, hs, i as int, last as int),
            out@ + marked_from(fb, hs, i as int, last as int) == snippet_open() + marked_from(fb, hs, 0, 0),
        decreases highlighted.len() - i,
    {
        let ghost before = out@;
        let (s, e) = highlighted[i];
        push_range(&mut out, f, last, s);
        push_escape(&mut out, true);
        push_range(&mut out, f, s, e);
        push_escape(&mut out, false);
        proof {
            let rest = marked_from(fb, hs, i + 1, e as int);
            assert(marked_from(fb, hs, i as int, last as int) == fb.subrange(last as int, s as int) + bold_on()
                + fb.subrange(s as int, e as int) + bold_off() + rest);
            assert(before + (fb.subrange(last as int, s as int) + bold_on() + fb.subrange(s as int, e as int)
                + bold_off() + rest) == out@ + rest);
        }
        last = e;
        i = i + 1;
    }
    push_range(&mut out, f, last, f.len());
    let ghost mid = out@;
    out.push(46u8);
    out.push(46u8);
    out.push(46u8);
    assert(out@ == mid + snippet_close());
    assert(out@ == rendered(fb, hs));
    proof {
        vstd::utf8::encode_utf8_valid_utf8(fragment@);
        vstd::utf8::is_char_boundary_start_end_of_seq(fb);
        lemma_marked_valid(fb, hs, 0, 0);
        lemma_ascii_valid(snippet_open());
        lemma_ascii_valid(snippet_close());
        vstd::utf8::valid_utf8_concat(snippet_open(), marked_from(fb, hs, 0, 0));
        vstd::utf8::valid_utf8_concat(snippet_open() + marked_from(fb, hs, 0, 0), snippet_close());
    }
    match utf8_text(out.as_slice()) {
        Some(s) => s,
        None => String::new(),
    }
}

} // verus!

verus! {

/// Whether `highlighted` meets the requirement of [`render_snippet`] for
/// `fragment` (ordered, within bounds, on character boundaries).
pub fn snippet_ranges_ok(fragment: &str, highlighted: &[(usize, usize)]) -> (r: bool)
    ensures
        r == ranges_ok(vstd::utf8::encode_utf8(fragment@), highlighted@, 0, 0),
{
    let ghost fb = vstd::utf8::encode_utf8(fragment@);
    let n = fragment.as_bytes().len();
    let mut last: usize = 0;
    let mut ok = true;
    let mut k: usize = 0;
    while k < highlighted.len()
        invariant
            fb == vstd::utf8::encode_utf8(fragment@),
            n == fb.len(),
            k <= highlighted.len(),
            ok ==> (ranges_ok(fb, highlighted@, 0, 0) <==> ranges_ok(fb, highlighted@, k as int, last as int)),
            !ok ==> !ranges_ok(fb, highlighted@, 0, 0),
        decreases highlighted.len() - k,
    {
        if ok {
            let (s, e) = highlighted[k];
            if last <= s && s <= e && e <= n && fragment.is_char_boundary(s) && fragment.is_char_boundary(e) {
                last = e;
            } else {
                ok = false;
            }
        }
        k = k + 1;
    }
    ok && last <= n
}

} // verus!

verus! {

proof fn lemma_marked_len(f: Seq<u8>, hs: Seq<(usize, usize)>, i: int, last: int)
    requires
        0 <= i <= hs.len(),
        0 <= last,
        ranges_ok(f, hs, i, last),
    ensures
        marked_from(f, hs, i, last).len() == f.len() - last + 8 * (hs.len() - i),
    decreases hs.len() - i,
{
    if i < hs.len() {
        lemma_marked_len(f, hs, i + 1, hs[i].1 as int);
    }
}

/// Rendering adds exactly the two ellipses and one pair of escapes per
/// highlighted range: no byte of the fragment is lost or repeated; with no
/// highlight the fragment appears unchanged between the ellipses.
pub proof fn lemma_rendered_shape(f: Seq<u8>, hs: Seq<(usize, usize)>)
    requires
        ranges_ok(f, hs, 0, 0),
    ensures
        rendered(f, hs).len() == f.len() + 8 + 8 * hs.len(),
        hs.len() == 0 ==> rendered(f, hs) == snippet_open() + f + snippet_close(),
{
    lemma_marked_len(f, hs, 0, 0);
    if hs.len() == 0 {
        assert(f.subrange(0, f.len() as int) == f);
    }
}

} // verus!
