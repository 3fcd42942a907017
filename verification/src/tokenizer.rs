use vstd::prelude::*;
use crate::text::str_eq;

verus! {

/// A token filter that can be chained after the base tokenizer.
#[derive(Debug, Clone, Copy, PartialEq, Eq, Structural)]
pub enum Filter {
    Stem,
    AsciiFold,
    RemoveLong,
}

/// The filter named by `s`, if any.
pub open spec fn filter_named(s: Seq<char>) -> Option<Filter> {
    if s == "stem"@ {
        Some(Filter::Stem)
    } else if s == "ascii-fold"@ {
        Some(Filter::AsciiFold)
    } else if s == "remove-long"@ {
        Some(Filter::RemoveLong)
    } else {
        None
    }
}

/// Parses a filter name as given on the command line.
pub fn parse_filter(s: &str) -> (res: Option<Filter>)
    ensures
        res == filter_named(s@),
{
    if str_eq(s, "stem") {
        Some(Filter::Stem)
    } else if str_eq(s, "ascii-fold") {
        Some(Filter::AsciiFold)
    } else if str_eq(s, "remove-long") {
        Some(Filter::RemoveLong)
    } else {
        None
    }
}

} // verus!

verus! {

/// A stemmer language.
#[derive(Debug, Clone, Copy, PartialEq, Eq, Structural)]
pub enum Lang {
    Arabic,
    Danish,
    Dutch,
    English,
    Finnish,
    French,
    German,
    Greek,
    Hungarian,
    Italian,
    Norwegian,
    Portuguese,
    Romanian,
    Russian,
    Spanish,
    Swedish,
    Tamil,
    Turkish,
}

/// The language whose lower-case English name is `s`, if any.
pub open spec fn lang_named(s: Seq<char>) -> Option<Lang> {
    if s == "arabic"@ {
        Some(Lang::Arabic)
    } else if s == "danish"@ {
        Some(Lang::Danish)
    } else if s == "dutch"@ {
        Some(Lang::Dutch)
    } else if s == "english"@ {
        Some(Lang::English)
    } else if s == "finnish"@ {
        Some(Lang::Finnish)
    } else if s == "french"@ {
        Some(Lang::French)
    } else if s == "german"@ {
        Some(Lang::German)
    } else if s == "greek"@ {
        Some(Lang::Greek)
    } else if s == "hungarian"@ {
        Some(Lang::Hungarian)
    } else if s == "italian"@ {
        Some(Lang::Italian)
    } else if s == "norwegian"@ {
        Some(Lang::Norwegian)
    } else if s == "portuguese"@ {
        Some(Lang::Portuguese)
    } else if s == "romanian"@ {
        Some(Lang::Romanian)
    } else if s == "russian"@ {
        Some(Lang::Russian)
    } else if s == "spanish"@ {
        Some(Lang::Spanish)
    } else if s == "swedish"@ {
        Some(Lang::Swedish)
    } else if s == "tamil"@ {
        Some(Lang::Tamil)
    } else if s == "turkish"@ {
        Some(Lang::Turkish)
    } else {
        None
    }
}

/// The language whose lower-case name is exactly `s`.
pub fn lang_from_lowercase(s: &str) -> (r: Option<Lang>)
    ensures
        r == lang_named(s@),
{
    if str_eq(s, "arabic") {
        Some(Lang::Arabic)
    } else if str_eq(s, "danish") {
        Some(Lang::Danish)
    } else if str_eq(s, "dutch") {
        Some(Lang::Dutch)
    } else if str_eq(s, "english") {
        Some(Lang::English)
    } else if str_eq(s, "finnish") {
        Some(Lang::Finnish)
    } else if str_eq(s, "french") {
        Some(Lang::French)
    } else if str_eq(s, "german") {
        Some(Lang::German)
    } else if str_eq(s, "greek") {
        Some(Lang::Greek)
    } else if str_eq(s, "hungarian") {
        Some(Lang::Hungarian)
    } else if str_eq(s, "italian") {
        Some(Lang::Italian)
    } else if str_eq(s, "norwegian") {
        Some(Lang::Norwegian)
    } else if str_eq(s, "portuguese") {
        Some(Lang::Portuguese)
    } else if str_eq(s, "romanian") {
        Some(Lang::Romanian)
    } else if str_eq(s, "russian") {
        Some(Lang::Russian)
    } else if str_eq(s, "spanish") {
        Some(Lang::Spanish)
    } else if str_eq(s, "swedish") {
        Some(Lang::Swedish)
    } else if str_eq(s, "tamil") {
        Some(Lang::Tamil)
    } else if str_eq(s, "turkish") {
        Some(Lang::Turkish)
    } else {
        None
    }
}

/// What `str::to_lowercase` makes of `s` (Unicode lower-casing).
pub uninterp spec fn unicode_lowercase(s: Seq<char>) -> Seq<char>;

/// Calls `str::to_lowercase`; the result is named [`unicode_lowercase`].
#[verifier::external_body]
fn to_lowercase(s: &str) -> (r: String)
    ensures
        r@ == unicode_lowercase(s@),
{
    s.to_lowercase()
}

/// Parses a stemmer language name, in any case.
pub fn parse_lang(s: &str) -> (r: Option<Lang>)
    ensures
        r == lang_named(unicode_lowercase(s@)),
{
    let lower = to_lowercase(s);
    lang_from_lowercase(lower.as_str())
}

/// The tokenizer that splits text before the filters run.
#[derive(Debug, Clone, Copy, PartialEq, Eq, Structural)]
pub enum BaseTokenizer {
    /// Splits on non-alphanumeric characters.
    Simple,
    /// Splits on whitespace.
    Whitespace,
    /// Keeps the whole input as one token.
    Raw,
    /// Splits source text into words: on non-alphanumeric characters and at
    /// camelCase breaks (see [`crate::words::code_words`]).
    Code,
}

/// The analysis pipeline: a base tokenizer, then lower-casing (always), then
/// the optional filters in a fixed order: ASCII folding, removal of long
/// tokens, stemming.
#[derive(Debug, Clone, Copy, PartialEq, Eq, Structural)]
pub struct AnalyzerPlan {
    pub base: BaseTokenizer,
    pub ascii_fold: bool,
    pub remove_long: bool,
    pub stem: Option<Lang>,
}

/// The pipeline for a tokenizer name, the filters asked for and a language:
/// an unknown tokenizer name means `simple`; the language only counts when
/// stemming was asked for.
pub open spec fn plan_for(tokenizer: Seq<char>, filters: Seq<Filter>, lang: Option<Lang>) -> AnalyzerPlan {
    AnalyzerPlan {
        base: if tokenizer == "whitespace"@ {
            BaseTokenizer::Whitespace
        } else if tokenizer == "raw"@ {
            BaseTokenizer::Raw
        } else {
            BaseTokenizer::Simple
        },
        ascii_fold: filters.contains(Filter::AsciiFold),
        remove_long: filters.contains(Filter::RemoveLong),
        stem: if filters.contains(Filter::Stem) {
            lang
        } else {
            None
        },
    }
}

fn has_filter(filters: &[Filter], f: Filter) -> (r: bool)
    ensures
        r == filters@.contains(f),
{
    let mut i: usize = 0;
    while i < filters.len()
        invariant
            i <= filters.len(),
            forall|j: int| 0 <= j < i ==> filters@[j] != f,
        decreases filters.len() - i,
    {
        if filters[i] == f {
            assert(filters@[i as int] == f);
            return true;
        }
        i = i + 1;
    }
    false
}

/// The analysis pipeline of the persistent index: source-text words,
/// lower-cased, with no other filter.
pub open spec fn index_plan_spec() -> AnalyzerPlan {
    AnalyzerPlan { base: BaseTokenizer::Code, ascii_fold: false, remove_long: false, stem: None }
}

/// The analysis pipeline of the persistent index (see [`index_plan_spec`]).
pub fn index_plan() -> (r: AnalyzerPlan)
    ensures
        r == index_plan_spec(),
{
    AnalyzerPlan { base: BaseTokenizer::Code, ascii_fold: false, remove_long: false, stem: None }
}

/// The analysis pipeline for the command-line choices (see [`plan_for`]).
pub fn analyzer_plan(tokenizer: &str, filters: &[Filter], lang: Option<Lang>) -> (r: AnalyzerPlan)
    ensures
        r == plan_for(tokenizer@, filters@, lang),
{
    let base = if str_eq(tokenizer, "whitespace") {
        BaseTokenizer::Whitespace
    } else if str_eq(tokenizer, "raw") {
        BaseTokenizer::Raw
    } else {
        BaseTokenizer::Simple
    };
    let stem = if has_filter(filters, Filter::Stem) {
        lang
    } else {
        None
    };
    AnalyzerPlan {
        base,
        ascii_fold: has_filter(filters, Filter::AsciiFold),
        remove_long: has_filter(filters, Filter::RemoveLong),
        stem,
    }
}

} // verus!

verus! {

/// The remove-long filter's limit: it drops every token of this many bytes
/// or more, so tokens of at most 40 bytes are kept.
pub const REMOVE_LONG_LIMIT: usize = 41;

/// One filter stage of the analysis pipeline.
#[derive(Debug, Clone, Copy, PartialEq, Eq, Structural)]
pub enum Stage {
    Lowercase,
    AsciiFold,
    RemoveLong(usize),
    Stem(Lang),
}

/// The filter stages of a plan, in the order they run: lower-casing always,
/// then ASCII folding, removal of tokens of `REMOVE_LONG_LIMIT` bytes or more and
/// stemming, each when the plan asks for it.
pub open spec fn stages_of(plan: AnalyzerPlan) -> Seq<Stage> {
    let s1 = seq![Stage::Lowercase];
    let s2 = if plan.ascii_fold {
        s1.push(Stage::AsciiFold)
    } else {
        s1
    };
    let s3 = if plan.remove_long {
        s2.push(Stage::RemoveLong(REMOVE_LONG_LIMIT))
    } else {
        s2
    };
    match plan.stem {
        Some(l) => s3.push(Stage::Stem(l)),
        None => s3,
    }
}

/// The filter stages of `plan` (see [`stages_of`]).
pub fn pipeline(plan: &AnalyzerPlan) -> (r: Vec<Stage>)
    ensures
        r@ == stages_of(*plan),
{
    let mut v: Vec<Stage> = Vec::new();
    v.push(Stage::Lowercase);
    if plan.ascii_fold {
        v.push(Stage::AsciiFold);
    }
    if plan.remove_long {
        v.push(Stage::RemoveLong(REMOVE_LONG_LIMIT));
    }
    match plan.stem {
        Some(l) => v.push(Stage::Stem(l)),
        None => {},
    }
    v
}

/// The rank of a stage in the canonical order.
pub open spec fn stage_rank(s: Stage) -> int {
    match s {
        Stage::Lowercase => 0,
        Stage::AsciiFold => 1,
        Stage::RemoveLong(_) => 2,
        Stage::Stem(_) => 3,
    }
}

/// Lower-casing always runs first, and the stages follow the canonical order
/// lowercase, ascii-fold, remove-long, stem, each at most once; stemming
/// happens exactly when stemming was asked for with a language.
pub proof fn lemma_pipeline_order(tokenizer: Seq<char>, filters: Seq<Filter>, lang: Option<Lang>)
    ensures
        ({
            let st = stages_of(plan_for(tokenizer, filters, lang));
            &&& st.len() >= 1
            &&& st[0] == Stage::Lowercase
            &&& forall|i: int, j: int| 0 <= i < j < st.len() ==> stage_rank(#[trigger] st[i]) < stage_rank(#[trigger] st[j])
            &&& (exists|i: int| 0 <= i < st.len() && st[i] is Stem) <==> (filters.contains(Filter::Stem) && lang is Some)
        }),
{
    let p = plan_for(tokenizer, filters, lang);
    let st = stages_of(p);
    if p.stem is Some {
        assert(st[st.len() - 1] is Stem);
    }
}

/// Each filter asked for runs, independently of the others, and only then:
/// ASCII folding exactly when the plan asks for it, removal of long tokens
/// (with `REMOVE_LONG_LIMIT`) exactly when it asks for it, stemming in a
/// language exactly when the plan stems in that language; lower-casing
/// always runs; and nothing else runs.
pub proof fn lemma_pipeline_has_each_filter_asked_for(plan: AnalyzerPlan)
    ensures
        stages_of(plan).contains(Stage::Lowercase),
        stages_of(plan).contains(Stage::AsciiFold) <==> plan.ascii_fold,
        stages_of(plan).contains(Stage::RemoveLong(REMOVE_LONG_LIMIT)) <==> plan.remove_long,
        forall|n: usize| #[trigger] stages_of(plan).contains(Stage::RemoveLong(n)) ==> n == REMOVE_LONG_LIMIT,
        forall|l: Lang| #[trigger] stages_of(plan).contains(Stage::Stem(l)) <==> plan.stem == Some(l),
        stages_of(plan).len() == 1 + (if plan.ascii_fold { 1int } else { 0int }) + (if plan.remove_long { 1int } else { 0int })
            + (if plan.stem is Some { 1int } else { 0int }),
{
    let st = stages_of(plan);
    assert(st[0] == Stage::Lowercase);
    if plan.ascii_fold {
        assert(st[1] == Stage::AsciiFold);
    }
    if plan.remove_long {
        let k = if plan.ascii_fold { 2int } else { 1int };
        assert(st[k] == Stage::RemoveLong(REMOVE_LONG_LIMIT));
    }
    if plan.stem is Some {
        assert(st[st.len() - 1] == Stage::Stem(plan.stem->0));
    }
    assert forall|l: Lang| #[trigger] st.contains(Stage::Stem(l)) <==> plan.stem == Some(l) by {
        if st.contains(Stage::Stem(l)) {
            let i = choose|i: int| 0 <= i < st.len() && st[i] == Stage::Stem(l);
        }
    }
}

/// For the command-line choices: ASCII folding runs exactly when
/// `ascii-fold` was asked for, removal of long tokens exactly when
/// `remove-long` was, and stemming in `l` exactly when `stem` was asked for
/// with the language `l`.
pub proof fn lemma_pipeline_follows_the_filters(tokenizer: Seq<char>, filters: Seq<Filter>, lang: Option<Lang>)
    ensures
        stages_of(plan_for(tokenizer, filters, lang)).contains(Stage::AsciiFold) <==> filters.contains(Filter::AsciiFold),
        stages_of(plan_for(tokenizer, filters, lang)).contains(Stage::RemoveLong(REMOVE_LONG_LIMIT))
            <==> filters.contains(Filter::RemoveLong),
        forall|l: Lang| #[trigger] stages_of(plan_for(tokenizer, filters, lang)).contains(Stage::Stem(l))
            <==> (filters.contains(Filter::Stem) && lang == Some(l)),
{
    lemma_pipeline_has_each_filter_asked_for(plan_for(tokenizer, filters, lang));
}

} // verus!
