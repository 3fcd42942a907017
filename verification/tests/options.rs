use bm25_cli::cli::{check_fuzzy_context, check_fuzzy_distance, is_web_url, parse_filters, FuzzyError};
use bm25_cli::tokenizer::{
    analyzer_plan, parse_filter, parse_lang, pipeline, AnalyzerPlan, BaseTokenizer, Filter, Lang, Stage,
    REMOVE_LONG_LIMIT,
};

#[test]
fn filter_names() {
    assert_eq!(parse_filter("stem"), Some(Filter::Stem));
    assert_eq!(parse_filter("ascii-fold"), Some(Filter::AsciiFold));
    assert_eq!(parse_filter("remove-long"), Some(Filter::RemoveLong));
    assert_eq!(parse_filter("Stem"), None);
    assert_eq!(parse_filter(""), None);
}

#[test]
fn filter_lists_skip_unknown_names() {
    let names = vec!["stem".to_string(), "bogus".to_string(), "remove-long".to_string()];
    assert_eq!(parse_filters(&names), vec![Filter::Stem, Filter::RemoveLong]);
}

#[test]
fn language_names_in_any_case() {
    assert_eq!(parse_lang("english"), Some(Lang::English));
    assert_eq!(parse_lang("FRENCH"), Some(Lang::French));
    assert_eq!(parse_lang("Turkish"), Some(Lang::Turkish));
    assert_eq!(parse_lang("klingon"), None);
}

#[test]
fn analyzer_plans() {
    assert_eq!(
        analyzer_plan("simple", &[], Some(Lang::English)),
        AnalyzerPlan { base: BaseTokenizer::Simple, ascii_fold: false, remove_long: false, stem: None }
    );
    assert_eq!(
        analyzer_plan("whitespace", &[Filter::Stem, Filter::AsciiFold], Some(Lang::German)),
        AnalyzerPlan { base: BaseTokenizer::Whitespace, ascii_fold: true, remove_long: false, stem: Some(Lang::German) }
    );
    assert_eq!(
        analyzer_plan("raw", &[Filter::RemoveLong], None),
        AnalyzerPlan { base: BaseTokenizer::Raw, ascii_fold: false, remove_long: true, stem: None }
    );
    assert_eq!(analyzer_plan("nonsense", &[], None).base, BaseTokenizer::Simple);
}

#[test]
fn web_targets() {
    assert!(is_web_url("http://example.com"));
    assert!(is_web_url("https://example.com/x"));
    assert!(!is_web_url("ftp://example.com"));
    assert!(!is_web_url("./docs"));
    assert!(!is_web_url("http:/"));
}

#[test]
fn pipelines_follow_the_canonical_order() {
    let all = analyzer_plan("simple", &[Filter::Stem, Filter::RemoveLong, Filter::AsciiFold], Some(Lang::French));
    assert_eq!(
        pipeline(&all),
        vec![Stage::Lowercase, Stage::AsciiFold, Stage::RemoveLong(REMOVE_LONG_LIMIT), Stage::Stem(Lang::French)]
    );
    let none = analyzer_plan("simple", &[], None);
    assert_eq!(pipeline(&none), vec![Stage::Lowercase]);
    let stem_no_lang = analyzer_plan("simple", &[Filter::Stem], None);
    assert_eq!(pipeline(&stem_no_lang), vec![Stage::Lowercase]);
    assert_eq!(REMOVE_LONG_LIMIT, 41);
}

#[test]
fn fuzzy_flag_checks() {
    assert_eq!(check_fuzzy_context(Some(1), Some(80)), Err(FuzzyError::WithContext));
    assert_eq!(check_fuzzy_context(Some(1), None), Ok(()));
    assert_eq!(check_fuzzy_context(None, Some(80)), Ok(()));
    assert_eq!(check_fuzzy_distance(0), Ok(0));
    assert_eq!(check_fuzzy_distance(2), Ok(2));
    assert_eq!(check_fuzzy_distance(3), Err(FuzzyError::Distance(3)));
}
