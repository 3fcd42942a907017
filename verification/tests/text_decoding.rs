use bm25_cli::content::{decode_bytes, decode_content, file_text, is_binary, is_blank};
use bm25_cli::html::{convert, page_markdown, HtmlError};
use bm25_cli::snippet::{render_snippet, snippet_ranges_ok};

#[test]
fn binary_detection_looks_at_the_first_8192_bytes() {
    assert!(is_binary(b"abc\0def"));
    assert!(!is_binary(b"plain text"));
    let mut late = vec![b'a'; 8192];
    late.push(0);
    assert!(!is_binary(&late));
    late[8191] = 0;
    assert!(is_binary(&late));
}

#[test]
fn blank_text() {
    assert!(is_blank(""));
    assert!(is_blank(" \t\n\u{3000}\u{a0}"));
    assert!(!is_blank("  x "));
}

#[test]
fn content_decoding() {
    assert_eq!(decode_content(b"hello"), Some("hello".to_string()));
    assert_eq!(decode_content("héllo".as_bytes()), Some("héllo".to_string()));
    assert_eq!(decode_content(b"a\0b"), None);
    // UTF-16LE with its byte order mark (and no zero byte).
    assert_eq!(decode_content(&[0xFF, 0xFE, 0x2D, 0x4E, 0x87, 0x65]), Some("中文".to_string()));
    // UTF-16 holding ASCII has zero bytes, so it counts as binary.
    assert_eq!(decode_content(&[0xFF, 0xFE, b'h', 0]), None);
    // Not UTF-8, no byte order mark: the detector picks a legacy encoding.
    assert_eq!(
        decode_content(b"caf\xe9 cr\xe8me br\xfbl\xe9e"),
        Some("caf\u{e9} cr\u{e8}me br\u{fb}l\u{e9}e".to_string())
    );
}

#[test]
fn byte_order_marks_name_the_encoding_and_are_removed() {
    // UTF-16BE mark, then the same two characters big-endian.
    assert_eq!(decode_content(&[0xFE, 0xFF, 0x4E, 0x2D, 0x65, 0x87]), Some("中文".to_string()));
    // A UTF-8 mark before invalid UTF-8: the mark is dropped, the rest decoded
    // as UTF-8 with a replacement character.
    assert_eq!(decode_content(&[0xEF, 0xBB, 0xBF, b'a', 0xFF, b'b']), Some("a\u{FFFD}b".to_string()));
    // Valid UTF-8 keeps its mark.
    assert_eq!(decode_content(&[0xEF, 0xBB, 0xBF, b'o', b'k']), Some("\u{FEFF}ok".to_string()));
}

#[test]
fn page_decoding_is_lossy() {
    assert_eq!(decode_bytes(b"ok"), "ok");
    assert_eq!(decode_bytes(b"a\xffb"), "a\u{FFFD}b");
}

#[test]
fn directory_file_text() {
    assert_eq!(file_text(b"fn main() {}"), Some("fn main() {}".to_string()));
    assert_eq!(file_text(b"   \n "), None);
    assert_eq!(file_text(b"x\0"), None);
    assert_eq!(file_text(b"bad \xff byte"), Some("bad \u{FFFD} byte".to_string()));
}

#[test]
fn article_to_markdown() {
    let html = "<html><head><title>T</title></head><body><article><h1>Deploy guide</h1>\
        <p>The default timeout for a function is three seconds, and it can be raised to fifteen minutes \
        when the workload needs more time to finish its work.</p>\
        <p>Rollback is done by redeploying the previous version of the package from the registry.</p>\
        </article></body></html>";
    let md = convert(html, "https://docs.example.org/page").unwrap();
    assert!(md.contains("default timeout"));
    assert!(!md.contains("<p>"));
    let md2 = convert(html, "not a url").unwrap();
    assert!(md2.contains("Rollback"));
}

#[test]
fn empty_page_gives_empty_markdown() {
    let md = convert("<html><body></body></html>", "https://example.com");
    assert_eq!(md.map(|s| s.trim().is_empty()), Ok::<bool, HtmlError>(true));
}

#[test]
fn snippets_highlight_ranges() {
    assert_eq!(
        render_snippet("hello world", &[(0, 5)]),
        "  ...\x1b[1mhello\x1b[0m world..."
    );
    assert_eq!(
        render_snippet("a b c", &[(0, 1), (4, 5)]),
        "  ...\x1b[1ma\x1b[0m b \x1b[1mc\x1b[0m..."
    );
    assert_eq!(render_snippet("plain", &[]), "  ...plain...");
    assert_eq!(render_snippet("café au lait", &[(0, 5)]), "  ...\x1b[1mcafé\x1b[0m au lait...");
}

#[test]
fn snippet_range_checks() {
    assert!(snippet_ranges_ok("hello", &[(0, 2), (2, 5)]));
    assert!(!snippet_ranges_ok("hello", &[(2, 3), (0, 1)]));
    assert!(!snippet_ranges_ok("hello", &[(0, 6)]));
    assert!(!snippet_ranges_ok("café", &[(0, 4)]));
    assert!(snippet_ranges_ok("café", &[(0, 5)]));
}

#[test]
fn empty_page_has_no_markdown() {
    assert_eq!(page_markdown(b"", "https://example.com/a"), Err(HtmlError::EmptyPage));
}
