use vstd::prelude::*;
use vstd::utf8::{valid_utf8, decode_utf8};
use crate::text::{chars_of, is_whitespace, is_ws};

verus! {

/// Number of leading bytes in which a zero byte marks a file as binary.
pub const SNIFF_LEN: usize = 8192;

/// Whether a zero byte occurs among the first `SNIFF_LEN` bytes.
pub open spec fn looks_binary(b: Seq<u8>) -> bool {
    exists|i: int| 0 <= i < b.len() && i < SNIFF_LEN && #[trigger] b[i] == 0
}

/// Whether the file contents `bytes` look binary: a zero byte occurs among
/// the first `SNIFF_LEN` bytes.
pub fn is_binary(bytes: &[u8]) -> (r: bool)
    ensures
        r == looks_binary(bytes@),
{
    let n = if bytes.len() < SNIFF_LEN {
        bytes.len()
    } else {
        SNIFF_LEN
    };
    let mut i: usize = 0;
    while i < n
        invariant
            n <= bytes.len(),
            n <= SNIFF_LEN,
            n == bytes.len() || n == SNIFF_LEN,
            i <= n,
            forall|j: int| 0 <= j < i ==> #[trigger] bytes@[j] != 0,
        decreases n - i,
    {
        if bytes[i] == 0 {
            assert(bytes@[i as int] == 0);
            return true;
        }
        i = i + 1;
    }
    false
}

/// Whether every character of `s` is whitespace (so `s.trim()` is empty).
pub open spec fn blank(s: Seq<char>) -> bool {
    forall|i: int| 0 <= i < s.len() ==> is_ws(#[trigger] s[i])
}

/// Whether `s` is empty once trimmed.
pub fn is_blank(s: &str) -> (r: bool)
    ensures
        r == blank(s@),
{
    let cs = chars_of(s);
    let mut i: usize = 0;
    while i < cs.len()
        invariant
            cs@ == s@,
            i <= cs.len(),
            forall|j: int| 0 <= j < i ==> is_ws(#[trigger] cs@[j]),
        decreases cs.len() - i,
    {
        if !is_whitespace(cs[i]) {
            assert(!is_ws(cs@[i as int]));
            return false;
        }
        i = i + 1;
    }
    true
}

/// The bytes as a string when they are valid UTF-8.
///
/// Calls `std::str::from_utf8`, which accepts exactly the valid UTF-8
/// sequences; the contract states that with vstd's `valid_utf8` and
/// `decode_utf8`.
#[verifier::external_body]
pub(crate) fn utf8_text(bytes: &[u8]) -> (r: Option<String>)
    ensures
        r is Some <==> valid_utf8(bytes@),
        r matches Some(s) ==> s@ == decode_utf8(bytes@),
{
    std::str::from_utf8(bytes).ok().map(|s| s.to_owned())
}

/// What `String::from_utf8_lossy` makes of `bytes`: the text, with each
/// invalid sequence replaced by U+FFFD.
pub uninterp spec fn utf8_lossy(bytes: Seq<u8>) -> Seq<char>;

/// Calls `String::from_utf8_lossy`; its result is named [`utf8_lossy`], and,
/// as its documentation says, valid UTF-8 comes back unchanged.
#[verifier::external_body]
fn lossy_text(bytes: &[u8]) -> (r: String)
    ensures
        r@ == utf8_lossy(bytes@),
        valid_utf8(bytes@) ==> r@ == decode_utf8(bytes@),
{
    String::from_utf8_lossy(bytes).into_owned()
}

/// The text of a fetched page: the bytes when they are valid UTF-8, else
/// their lossy decoding.
pub open spec fn page_text(bytes: Seq<u8>) -> Seq<char> {
    if valid_utf8(bytes) {
        decode_utf8(bytes)
    } else {
        utf8_lossy(bytes)
    }
}

/// Decodes a fetched page body (see [`page_text`]).
pub fn decode_bytes(bytes: &[u8]) -> (r: String)
    ensures
        r@ == page_text(bytes@),
{
    match utf8_text(bytes) {
        Some(s) => s,
        None => lossy_text(bytes),
    }
}

/// The text of a file found by a directory search, or `None` when it looks
/// binary or its lossy decoding is blank.
pub open spec fn search_text(bytes: Seq<u8>) -> Option<Seq<char>> {
    if looks_binary(bytes) || blank(utf8_lossy(bytes)) {
        None
    } else {
        Some(utf8_lossy(bytes))
    }
}

/// The text that a directory search indexes for a file (see
/// [`search_text`]).
pub fn file_text(bytes: &[u8]) -> (r: Option<String>)
    ensures
        match r {
            Some(s) => search_text(bytes@) == Some(s@),
            None => search_text(bytes@) is None,
        },
{
    if is_binary(bytes) {
        return None;
    }
    let text = lossy_text(bytes);
    if is_blank(text.as_str()) {
        None
    } else {
        Some(text)
    }
}

/// Length of the byte order mark that `bytes` starts with (UTF-8, UTF-16LE or
/// UTF-16BE), or 0.
pub open spec fn bom_len(b: Seq<u8>) -> int {
    if b.len() >= 3 && b[0] == 0xEF && b[1] == 0xBB && b[2] == 0xBF {
        3
    } else if b.len() >= 2 && b[0] == 0xFF && b[1] == 0xFE {
        2
    } else if b.len() >= 2 && b[0] == 0xFE && b[1] == 0xFF {
        2
    } else {
        0
    }
}

/// The name of the encoding that the byte order mark of `b` announces:
/// `UTF-8` for EF BB BF, `UTF-16LE` for FF FE and `UTF-16BE` for FE FF.
pub open spec fn bom_encoding(b: Seq<u8>) -> Seq<char> {
    if b.len() >= 3 && b[0] == 0xEF && b[1] == 0xBB && b[2] == 0xBF {
        "UTF-8"@
    } else if b.len() >= 2 && b[0] == 0xFF && b[1] == 0xFE {
        "UTF-16LE"@
    } else {
        "UTF-16BE"@
    }
}

/// Whether `encoding_rs::Encoding::for_label` recognizes `label` as naming an
/// encoding.
pub uninterp spec fn encoding_label(label: Seq<char>) -> bool;

/// What `encoding_rs::Encoding::decode` makes of `bytes` in the encoding that
/// `label` names: the whole input decoded (after its own byte order mark
/// sniffing), with malformed sequences replaced by U+FFFD.
pub uninterp spec fn decoded_text(label: Seq<char>, bytes: Seq<u8>) -> Seq<char>;

/// The name of the encoding that `chardetng` guesses for `bytes`, fed whole,
/// with no top-level domain and UTF-8 allowed.
pub uninterp spec fn guessed_encoding(bytes: Seq<u8>) -> Seq<char>;

/// Calls `encoding_rs::Encoding::for_bom`, which recognizes the UTF-8,
/// UTF-16LE and UTF-16BE byte order marks, and hands back the name of the
/// encoding found (`Encoding::name`) with the mark's length. Every encoding's
/// name is one of its labels.
#[verifier::external_body]
fn sniff_bom(bytes: &[u8]) -> (r: Option<(String, usize)>)
    ensures
        r is Some <==> bom_len(bytes@) > 0,
        r matches Some((name, n)) ==> n as int == bom_len(bytes@) && name@ == bom_encoding(bytes@)
            && encoding_label(name@),
{
    match encoding_rs::Encoding::for_bom(bytes) {
        Some((enc, n)) => Some((enc.name().to_owned(), n)),
        None => None,
    }
}

/// Calls `encoding_rs::Encoding::decode` on `bytes` with the encoding that
/// `encoding_rs::Encoding::for_label` finds for `label`; its text is named
/// [`decoded_text`].
#[verifier::external_body]
fn decode_in(label: &str, bytes: &[u8]) -> (r: String)
    requires
        encoding_label(label@),
    ensures
        r@ == decoded_text(label@, bytes@),
{
    let enc = encoding_rs::Encoding::for_label(label.as_bytes()).unwrap();
    enc.decode(bytes).0.into_owned()
}

/// Builds a `chardetng::EncodingDetector`, feeds it the whole of `bytes` once
/// (`feed` with `last` set), and calls `guess` with no top-level domain and
/// UTF-8 allowed; hands back the guessed encoding's name, named
/// [`guessed_encoding`]. Every encoding's name is one of its labels.
#[verifier::external_body]
fn detect_encoding(bytes: &[u8]) -> (r: String)
    ensures
        r@ == guessed_encoding(bytes@),
        encoding_label(r@),
{
    let mut det = chardetng::EncodingDetector::new();
    det.feed(bytes, true);
    det.guess(None, true).name().to_owned()
}

/// The text of an indexed file: `None` when it looks binary; the text itself
/// when it is valid UTF-8; otherwise, with a byte order mark, the bytes after
/// the mark decoded in the encoding the mark names, and without one, the
/// bytes decoded in the encoding `chardetng` guesses.
pub open spec fn content_text(b: Seq<u8>) -> Option<Seq<char>> {
    if looks_binary(b) {
        None
    } else if valid_utf8(b) {
        Some(decode_utf8(b))
    } else if bom_len(b) > 0 {
        Some(decoded_text(bom_encoding(b), b.subrange(bom_len(b), b.len() as int)))
    } else {
        Some(decoded_text(guessed_encoding(b), b))
    }
}

/// The text of an indexed file (see [`content_text`]).
pub fn decode_content(bytes: &[u8]) -> (r: Option<String>)
    ensures
        match r {
            Some(s) => content_text(bytes@) == Some(s@),
            None => content_text(bytes@) is None,
        },
{
    if is_binary(bytes) {
        return None;
    }
    if let Some(s) = utf8_text(bytes) {
        return Some(s);
    }
    if let Some((name, n)) = sniff_bom(bytes) {
        let rest = vstd::slice::slice_subrange(bytes, n, bytes.len());
        return Some(decode_in(name.as_str(), rest));
    }
    let name = detect_encoding(bytes);
    Some(decode_in(name.as_str(), bytes))
}

} // verus!
