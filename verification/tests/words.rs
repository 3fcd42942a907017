use bm25_cli::tokenizer::{index_plan, pipeline, AnalyzerPlan, BaseTokenizer, Stage};
use bm25_cli::words::{code_words, Word};

fn texts(s: &str) -> Vec<String> {
    code_words(s).into_iter().map(|w| w.text).collect()
}

#[test]
fn camel_case_words_are_split() {
    assert_eq!(texts("PaymentHandler is now here"), vec!["Payment", "Handler", "is", "now", "here"]);
    assert_eq!(texts("HTTPServer utf8Decoder"), vec!["HTTP", "Server", "utf8", "Decoder"]);
}

#[test]
fn snake_and_dotted_words_are_split() {
    assert_eq!(
        texts("fn handle_payment(amount: u64) { PaymentHandler::new() }"),
        vec!["fn", "handle", "payment", "amount", "u64", "Payment", "Handler", "new"]
    );
    assert_eq!(texts("MAX_RETRY_COUNT"), vec!["MAX", "RETRY", "COUNT"]);
    assert_eq!(texts("payment.succeeded"), vec!["payment", "succeeded"]);
    assert_eq!(texts("ALLCAPS lower"), vec!["ALLCAPS", "lower"]);
    assert!(texts("  -- ").is_empty());
}

#[test]
fn words_carry_byte_offsets() {
    assert_eq!(
        code_words("été xYz"),
        vec![
            Word { from: 0, to: 5, text: "été".to_string() },
            Word { from: 6, to: 7, text: "x".to_string() },
            Word { from: 7, to: 9, text: "Yz".to_string() },
        ]
    );
}

#[test]
fn index_uses_code_words_lowercased() {
    assert_eq!(
        index_plan(),
        AnalyzerPlan { base: BaseTokenizer::Code, ascii_fold: false, remove_long: false, stem: None }
    );
    assert_eq!(pipeline(&index_plan()), vec![Stage::Lowercase]);
}
