use vstd::prelude::*;

verus! {

/// The characters of `s`, in order.
pub fn chars_of(s: &str) -> (res: Vec<char>)
    ensures
        res@ == s@,
{
    let mut out: Vec<char> = Vec::new();
    for c in it: s.chars()
        invariant
            out@ == it.seq().take(it.index() as int),
    {
        out.push(c);
    }
    out
}

/// Whether two strings hold the same characters.
pub fn str_eq(a: &str, b: &str) -> (res: bool)
    ensures
        res == (a@ == b@),
{
    let sa = a.to_owned();
    let sb = b.to_owned();
    sa == sb
}

/// Whether `s` begins with `p`.
pub open spec fn seq_starts_with(s: Seq<char>, p: Seq<char>) -> bool {
    p.len() <= s.len() && s.take(p.len() as int) == p
}

/// Whether the character slice `s` begins with the characters of `p`.
pub fn starts_with(s: &[char], p: &[char]) -> (res: bool)
    ensures
        res == seq_starts_with(s@, p@),
{
    if p.len() > s.len() {
        return false;
    }
    let mut i: usize = 0;
    while i < p.len()
        invariant
            p.len() <= s.len(),
            i <= p.len(),
            s@.take(i as int) == p@.take(i as int),
        decreases p.len() - i,
    {
        if s[i] != p[i] {
            assert(s@.take(p.len() as int)[i as int] != p@[i as int]);
            return false;
        }
        assert(s@.take(i + 1) == s@.take(i as int).push(s@[i as int]));
        assert(p@.take(i + 1) == p@.take(i as int).push(p@[i as int]));
        i += 1;
    }
    assert(p@ == p@.take(p.len() as int));
    true
}

/// Builds a `String` from a slice of characters.
///
/// Calls `FromIterator<&char>` for `String` (`Iterator::collect`), which
/// appends the characters in order; the contract states that the string holds
/// exactly those characters.
#[verifier::external_body]
pub(crate) fn string_from_chars(cs: &[char]) -> (res: String)
    ensures
        res@ == cs@,
{
    cs.iter().collect()
}

} // verus!

verus! {

/// Whether `c` has the Unicode `White_Space` property (what `char::is_whitespace`
/// tests, and what `str::trim` removes).
pub open spec fn is_ws(c: char) -> bool {
    let u = c as u32;
    ||| 0x09 <= u <= 0x0D
    ||| u == 0x20
    ||| u == 0x85
    ||| u == 0xA0
    ||| u == 0x1680
    ||| 0x2000 <= u <= 0x200A
    ||| u == 0x2028
    ||| u == 0x2029
    ||| u == 0x202F
    ||| u == 0x205F
    ||| u == 0x3000
}

/// Executable form of [`is_ws`].
pub fn is_whitespace(c: char) -> (res: bool)
    ensures
        res == is_ws(c),
{
    let u = c as u32;
    (0x09 <= u && u <= 0x0D) || u == 0x20 || u == 0x85 || u == 0xA0 || u == 0x1680 || (0x2000
        <= u && u <= 0x200A) || u == 0x2028 || u == 0x2029 || u == 0x202F || u == 0x205F || u
        == 0x3000
}

/// Number of bytes in the UTF-8 encoding of a character sequence.
pub open spec fn byte_len(s: Seq<char>) -> nat {
    vstd::utf8::encode_utf8(s).len()
}

/// The UTF-8 encoding of a concatenation is the concatenation of the encodings.
pub proof fn lemma_encode_concat(a: Seq<char>, b: Seq<char>)
    ensures
        vstd::utf8::encode_utf8(a + b) == vstd::utf8::encode_utf8(a) + vstd::utf8::encode_utf8(b),
    decreases a.len(),
{
    if a.len() == 0 {
        assert(a + b == b);
        assert(vstd::utf8::encode_utf8(a) == Seq::<u8>::empty());
    } else {
        assert((a + b).drop_first() == a.drop_first() + b);
        assert((a + b)[0] == a[0]);
        lemma_encode_concat(a.drop_first(), b);
    }
}

/// Byte length is additive over concatenation.
pub proof fn lemma_byte_len_concat(a: Seq<char>, b: Seq<char>)
    ensures
        byte_len(a + b) == byte_len(a) + byte_len(b),
{
    lemma_encode_concat(a, b);
}

/// Bytes taken by one character in UTF-8.
pub open spec fn char_width(c: char) -> nat {
    vstd::utf8::encode_scalar(c as u32).len()
}

/// The byte length of a one-character sequence is the character's width.
pub proof fn lemma_byte_len_single(c: char)
    ensures
        byte_len(seq![c]) == char_width(c),
{
    let s = seq![c];
    assert(s.drop_first() == Seq::<char>::empty());
    assert(vstd::utf8::encode_utf8(Seq::<char>::empty()) == Seq::<u8>::empty());
    assert(vstd::utf8::encode_utf8(s) == vstd::utf8::encode_scalar(c as u32) + Seq::<u8>::empty());
}

/// Number of UTF-8 bytes of `c` (what `char::len_utf8` returns).
pub fn utf8_width(c: char) -> (w: usize)
    ensures
        w as nat == char_width(c),
        1 <= w <= 4,
{
    proof {
        vstd::utf8::char_is_scalar(c);
    }
    let u = c as u32;
    if u <= 0x7F {
        1
    } else if u <= 0x7FF {
        2
    } else if u <= 0xFFFF {
        3
    } else {
        4
    }
}

/// Byte length of a range grows by the width of the next character.
pub proof fn lemma_byte_len_range_step(s: Seq<char>, a: int, i: int)
    requires
        0 <= a <= i < s.len(),
    ensures
        byte_len(s.subrange(a, i + 1)) == byte_len(s.subrange(a, i)) + char_width(s[i]),
{
    assert(s.subrange(a, i + 1) == s.subrange(a, i) + seq![s[i]]);
    lemma_byte_len_concat(s.subrange(a, i), seq![s[i]]);
    lemma_byte_len_single(s[i]);
}

/// A range never has more bytes than the whole sequence.
pub proof fn lemma_byte_len_range_bound(s: Seq<char>, a: int, b: int)
    requires
        0 <= a <= b <= s.len(),
    ensures
        byte_len(s.subrange(a, b)) <= byte_len(s),
{
    assert(s == s.subrange(0, a) + s.subrange(a, b) + s.subrange(b, s.len() as int));
    lemma_byte_len_concat(s.subrange(0, a) + s.subrange(a, b), s.subrange(b, s.len() as int));
    lemma_byte_len_concat(s.subrange(0, a), s.subrange(a, b));
}

/// Byte length of `s[a..c]` is that of `s[a..b]` plus that of `s[b..c]`.
pub proof fn lemma_byte_len_range_concat(s: Seq<char>, a: int, b: int, c: int)
    requires
        0 <= a <= b <= c <= s.len(),
    ensures
        byte_len(s.subrange(a, c)) == byte_len(s.subrange(a, b)) + byte_len(s.subrange(b, c)),
{
    assert(s.subrange(a, c) == s.subrange(a, b) + s.subrange(b, c));
    lemma_byte_len_concat(s.subrange(a, b), s.subrange(b, c));
}

/// UTF-8 byte length of the characters `s[a..b]`.
pub fn byte_len_range(s: &[char], a: usize, b: usize) -> (n: usize)
    requires
        a <= b <= s.len(),
        byte_len(s@) <= usize::MAX,
    ensures
        n as nat == byte_len(s@.subrange(a as int, b as int)),
{
    let mut n: usize = 0;
    let mut i: usize = a;
    assert(s@.subrange(a as int, a as int) == Seq::<char>::empty());
    while i < b
        invariant
            a <= i <= b <= s.len(),
            byte_len(s@) <= usize::MAX,
            n as nat == byte_len(s@.subrange(a as int, i as int)),
        decreases b - i,
    {
        let w = utf8_width(s[i]);
        proof {
            lemma_byte_len_range_step(s@, a as int, i as int);
            lemma_byte_len_range_bound(s@, a as int, i + 1);
        }
        n = n + w;
        i = i + 1;
    }
    n
}

} // verus!

verus! {

/// The decimal digit character for `d < 10`.
pub open spec fn digit_char(d: int) -> char {
    if d == 0 {
        '0'
    } else if d == 1 {
        '1'
    } else if d == 2 {
        '2'
    } else if d == 3 {
        '3'
    } else if d == 4 {
        '4'
    } else if d == 5 {
        '5'
    } else if d == 6 {
        '6'
    } else if d == 7 {
        '7'
    } else if d == 8 {
        '8'
    } else {
        '9'
    }
}

/// The decimal representation of `n`, without leading zeros.
pub open spec fn decimal(n: nat) -> Seq<char>
    decreases n,
{
    if n < 10 {
        seq![digit_char(n as int)]
    } else {
        decimal(n / 10).push(digit_char((n % 10) as int))
    }
}

fn digit_exec(d: u64) -> (c: char)
    requires
        d < 10,
    ensures
        c == digit_char(d as int),
{
    match d {
        0 => '0',
        1 => '1',
        2 => '2',
        3 => '3',
        4 => '4',
        5 => '5',
        6 => '6',
        7 => '7',
        8 => '8',
        _ => '9',
    }
}

/// Appends the decimal digits of `n`.
pub fn push_decimal(n: u64, out: &mut Vec<char>)
    ensures
        final(out)@ == old(out)@ + decimal(n as nat),
    decreases n,
{
    if n >= 10 {
        push_decimal(n / 10, out);
    }
    out.push(digit_exec(n % 10));
    proof {
        if n >= 10 {
            assert(old(out)@ + decimal(n as nat) == (old(out)@ + decimal((n / 10) as nat)).push(digit_char((n % 10) as int)));
        } else {
            assert(old(out)@ + decimal(n as nat) == old(out)@.push(digit_char(n as int)));
        }
    }
}

/// Appends the characters of `s`.
pub fn push_str(out: &mut Vec<char>, s: &str)
    ensures
        final(out)@ == old(out)@ + s@,
{
    let cs = chars_of(s);
    let mut i: usize = 0;
    while i < cs.len()
        invariant
            cs@ == s@,
            i <= cs.len(),
            out@ == old(out)@ + cs@.take(i as int),
        decreases cs.len() - i,
    {
        out.push(cs[i]);
        assert(cs@.take(i + 1) == cs@.take(i as int).push(cs@[i as int]));
        i = i + 1;
    }
    assert(cs@.take(cs.len() as int) == cs@);
}

} // verus!
