use bm25_cli::chunks::{paragraph_chunks, Chunk};
use bm25_cli::select::{WindowSelector, WINDOW};

fn pairs(v: &[Chunk]) -> Vec<(usize, String)> {
    v.iter().map(|c| (c.pos, c.text.clone())).collect()
}

#[test]
fn paragraphs_are_trimmed_with_byte_offsets() {
    let got = paragraph_chunks("alpha beta\n\n  gamma  \n\ndelta", 0, 100);
    assert_eq!(
        pairs(&got),
        vec![
            (0, "alpha beta".to_string()),
            (12, "gamma".to_string()),
            (23, "delta".to_string()),
        ]
    );
}

#[test]
fn long_paragraph_is_split_into_lines() {
    let got = paragraph_chunks("line one\nline two\n\nshort", 0, 5);
    assert_eq!(
        pairs(&got),
        vec![
            (0, "line one".to_string()),
            (9, "line two".to_string()),
            (19, "short".to_string()),
        ]
    );
}

#[test]
fn short_chunks_are_skipped() {
    let got = paragraph_chunks("line one\nline two\n\nshort", 6, 5);
    assert_eq!(
        pairs(&got),
        vec![(0, "line one".to_string()), (9, "line two".to_string())]
    );
}

#[test]
fn offsets_count_utf8_bytes() {
    let got = paragraph_chunks("héllo\n\nwörld", 0, 100);
    assert_eq!(
        pairs(&got),
        vec![(0, "héllo".to_string()), (8, "wörld".to_string())]
    );
}

#[test]
fn sizes_count_characters() {
    // Four characters, eight bytes.
    assert!(paragraph_chunks("éééé", 5, 100).is_empty());
    assert_eq!(pairs(&paragraph_chunks("éééé", 4, 100)), vec![(0, "éééé".to_string())]);
    // Five characters over two lines: above a maximum of four, so split.
    assert_eq!(
        pairs(&paragraph_chunks("éé\néé", 0, 4)),
        vec![(0, "éé".to_string()), (5, "éé".to_string())]
    );
    assert_eq!(pairs(&paragraph_chunks("éé\néé", 0, 5)), vec![(0, "éé\néé".to_string())]);
}

#[test]
fn blank_paragraphs_are_dropped() {
    let got = paragraph_chunks("\n\n   \n\n\t\n\nword\n\n", 0, 100);
    assert_eq!(pairs(&got), vec![(10, "word".to_string())]);
}

#[test]
fn three_newlines_leave_a_leading_newline_in_the_next_part() {
    let got = paragraph_chunks("a\n\n\nb", 0, 100);
    assert_eq!(pairs(&got), vec![(0, "a".to_string()), (3, "b".to_string())]);
}

#[test]
fn default_minimum_drops_small_paragraphs() {
    let long = "x".repeat(70);
    let text = format!("tiny\n\n{long}");
    let got = paragraph_chunks(&text, 64, 2048);
    assert_eq!(pairs(&got), vec![(6, long)]);
}

#[test]
fn nearby_hits_are_collapsed() {
    let mut sel = WindowSelector::new(2);
    assert!(!sel.is_full());
    assert!(sel.offer(0));
    assert!(!sel.offer(WINDOW - 1));
    assert!(sel.offer(WINDOW));
    assert!(sel.is_full());
}

#[test]
fn far_hits_are_all_kept_up_to_the_limit() {
    let mut sel = WindowSelector::new(3);
    assert!(sel.offer(1000));
    assert!(!sel.offer(900));
    assert!(sel.offer(500));
    assert!(sel.offer(0));
    assert!(sel.is_full());
}
