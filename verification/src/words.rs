use vstd::prelude::*;
use crate::text::{byte_len, char_width, chars_of, string_from_chars, utf8_width, lemma_byte_len_range_step,
    lemma_byte_len_range_bound};

verus! {

/// Whether `c` is alphabetic or numeric in Unicode (what `char::is_alphanumeric`
/// returns).
pub uninterp spec fn unicode_alnum(c: char) -> bool;

/// Calls `char::is_alphanumeric`; its result is named [`unicode_alnum`].
#[verifier::external_body]
fn is_alphanumeric(c: char) -> (r: bool)
    ensures
        r == unicode_alnum(c),
{
    c.is_alphanumeric()
}

/// An ASCII capital letter.
pub open spec fn ascii_upper(c: char) -> bool {
    'A' <= c && c <= 'Z'
}

/// An ASCII small letter.
pub open spec fn ascii_lower(c: char) -> bool {
    'a' <= c && c <= 'z'
}

/// An ASCII digit.
pub open spec fn ascii_digit(c: char) -> bool {
    '0' <= c && c <= '9'
}

/// Whether a camelCase word breaks before `s[i]`: a capital after a small
/// letter or a digit (`paymentHandler`, `utf8Decoder`), or the last capital
/// of a run of capitals when a small letter follows (`HTTPServer`).
pub open spec fn camel_break(s: Seq<char>, i: int) -> bool {
    &&& 0 < i < s.len()
    &&& (((ascii_lower(s[i - 1]) || ascii_digit(s[i - 1])) && ascii_upper(s[i])) || (ascii_upper(s[i - 1])
        && ascii_upper(s[i]) && i + 1 < s.len() && ascii_lower(s[i + 1])))
}

/// Whether a word ends before position `i`: at the end of the text, at a
/// character that is not alphanumeric, or at a camelCase break.
pub open spec fn word_cut(s: Seq<char>, i: int) -> bool {
    i >= s.len() || !unicode_alnum(s[i]) || camel_break(s, i)
}

/// Whether a word begins at position `i`.
pub open spec fn word_start(s: Seq<char>, i: int) -> bool {
    unicode_alnum(s[i]) && (i == 0 || !unicode_alnum(s[i - 1]) || camel_break(s, i))
}

/// Where the word that begins at `i` ends (exclusive).
pub open spec fn word_end(s: Seq<char>, i: int) -> int
    decreases s.len() - i,
{
    if i + 1 >= s.len() || word_cut(s, i + 1) {
        i + 1
    } else {
        word_end(s, i + 1)
    }
}

/// The word that begins at `i`: its byte offsets in the text and its
/// characters.
pub open spec fn word_at(s: Seq<char>, i: int) -> (int, int, Seq<char>) {
    let e = word_end(s, i);
    (byte_len(s.take(i)) as int, byte_len(s.take(e)) as int, s.subrange(i, e))
}

/// The words that begin before position `n`, in order.
pub open spec fn words_before(s: Seq<char>, n: int) -> Seq<(int, int, Seq<char>)>
    decreases n,
{
    if n <= 0 {
        Seq::empty()
    } else {
        let r = words_before(s, n - 1);
        if word_start(s, n - 1) {
            r.push(word_at(s, n - 1))
        } else {
            r
        }
    }
}

/// A word of source text, with its byte offsets.
#[derive(Debug, Clone, PartialEq, Eq)]
pub struct Word {
    pub from: usize,
    pub to: usize,
    pub text: String,
}

/// The words as (start offset, end offset, characters).
pub open spec fn words_view(w: Seq<Word>) -> Seq<(int, int, Seq<char>)> {
    w.map_values(|x: Word| (x.from as int, x.to as int, x.text@))
}

fn camel_break_at(s: &Vec<char>, i: usize) -> (r: bool)
    ensures
        r == camel_break(s@, i as int),
{
    if i == 0 || i >= s.len() {
        return false;
    }
    let p = s[i - 1];
    let c = s[i];
    let c_upper = 'A' <= c && c <= 'Z';
    if (('a' <= p && p <= 'z') || ('0' <= p && p <= '9')) && c_upper {
        return true;
    }
    'A' <= p && p <= 'Z' && c_upper && i + 1 < s.len() && 'a' <= s[i + 1] && s[i + 1] <= 'z'
}

proof fn lemma_take_step(s: Seq<char>, i: int)
    requires
        0 <= i < s.len(),
    ensures
        byte_len(s.take(i + 1)) == byte_len(s.take(i)) + char_width(s[i]),
        byte_len(s.take(i + 1)) <= byte_len(s),
{
    assert(s.take(i + 1) == s.subrange(0, i + 1));
    assert(s.take(i) == s.subrange(0, i));
    lemma_byte_len_range_step(s, 0, i);
    lemma_byte_len_range_bound(s, 0, i + 1);
}

/// Splits source text into the words that the index holds: runs of
/// alphanumeric characters, split again at camelCase breaks
/// (`PaymentHandler` gives `Payment` and `Handler`; `handle_payment` gives
/// `handle` and `payment`), each with its byte offsets in `text`.
pub fn code_words(text: &str) -> (r: Vec<Word>)
    requires
        byte_len(text@) <= usize::MAX,
    ensures
        words_view(r@) == words_before(text@, text@.len() as int),
{
    let s = chars_of(text);
    let ghost sv = s@;
    let n = s.len();
    let mut al: Vec<bool> = Vec::new();
    let mut k: usize = 0;
    while k < n
        invariant
            s@ == sv,
            n == s.len(),
            k <= n,
            al@.len() == k,
            forall|j: int| 0 <= j < k ==> al@[j] == unicode_alnum(sv[j]),
        decreases n - k,
    {
        al.push(is_alphanumeric(s[k]));
        k = k + 1;
    }
    let mut out: Vec<Word> = Vec::new();
    let mut i: usize = 0;
    let mut bpos: usize = 0;
    assert(sv.take(0) == Seq::<char>::empty());
    assert(vstd::utf8::encode_utf8(Seq::<char>::empty()) == Seq::<u8>::empty());
    assert(words_view(out@) == Seq::<(int, int, Seq<char>)>::empty());
    while i < n
        invariant
            s@ == sv,
            sv == text@,
            n == s.len(),
            byte_len(sv) <= usize::MAX,
            al@.len() == n,
            forall|j: int| 0 <= j < n ==> al@[j] == unicode_alnum(sv[j]),
            i <= n,
            bpos as nat == byte_len(sv.take(i as int)),
            words_view(out@) == words_before(sv, i as int),
        decreases n - i,
    {
        let starts = al[i] && (i == 0 || !al[i - 1] || camel_break_at(&s, i));
        proof {
            lemma_take_step(sv, i as int);
        }
        let w = utf8_width(s[i]);
        if starts {
            let mut j: usize = i + 1;
            let mut bj: usize = bpos + w;
            while j < n && al[j] && !camel_break_at(&s, j)
                invariant
                    s@ == sv,
                    n == s.len(),
                    byte_len(sv) <= usize::MAX,
                    al@.len() == n,
                    forall|t: int| 0 <= t < n ==> al@[t] == unicode_alnum(sv[t]),
                    i < j <= n,
                    bj as nat == byte_len(sv.take(j as int)),
                    word_end(sv, i as int) == word_end(sv, j - 1),
                decreases n - j,
            {
                proof {
                    lemma_take_step(sv, j as int);
                    assert(!word_cut(sv, j as int));
                }
                bj = bj + utf8_width(s[j]);
                j = j + 1;
            }
            assert(word_cut(sv, j as int));
            assert(word_end(sv, j - 1) == j);
            let part = vstd::slice::slice_subrange(s.as_slice(), i, j);
            let text_part = string_from_chars(part);
            let ghost before = out@;
            out.push(Word { from: bpos, to: bj, text: text_part });
            assert(words_view(out@) =~= words_view(before).push(word_at(sv, i as int)));
        }
        bpos = bpos + w;
        i = i + 1;
    }
    out
}

} // verus!
