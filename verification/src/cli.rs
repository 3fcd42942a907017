use vstd::prelude::*;
use crate::text::{chars_of, starts_with};
use crate::tokenizer::{Filter, filter_named, parse_filter};

verus! {

/// The command-line arguments.
#[derive(Debug)]
pub struct Cli {
    /// Search query.
    pub query: String,
    /// File path, directory, or URL to search.
    pub path_or_url: Option<String>,
    /// Tokenizer: simple (default), whitespace, raw.
    pub tokenizer: String,
    /// Filters to apply: stem, ascii-fold, remove-long.
    pub filter: Vec<String>,
    /// Stemmer language for the stem filter.
    pub lang: Option<String>,
    /// Minimum chunk size in characters; shorter chunks are skipped.
    pub min: usize,
    /// Maximum chunk size in characters; longer chunks are split on newlines.
    pub max: usize,
    /// Treat piped standard input as HTML.
    pub html: bool,
    /// Do not respect `.gitignore` / `.ignore` rules.
    pub no_ignore: bool,
    /// Stop after this many results.
    pub limit: usize,
    /// Output results as JSON lines.
    pub json: bool,
}

/// Whether `s` begins with `http://` or `https://`, so names a page to fetch.
pub open spec fn web_url(s: Seq<char>) -> bool {
    (s.len() >= 7 && s.take(7) == "http://"@) || (s.len() >= 8 && s.take(8) == "https://"@)
}

/// Whether the target names a page to fetch (see [`web_url`]).
pub fn is_web_url(target: &str) -> (r: bool)
    ensures
        r == web_url(target@),
{
    let t = chars_of(target);
    let http = chars_of("http://");
    let https = chars_of("https://");
    proof {
        reveal_strlit("http://");
        reveal_strlit("https://");
    }
    starts_with(t.as_slice(), http.as_slice()) || starts_with(t.as_slice(), https.as_slice())
}

/// The filters named in `names`, in order, skipping unknown names.
pub open spec fn filters_named(names: Seq<Seq<char>>) -> Seq<Filter>
    decreases names.len(),
{
    if names.len() == 0 {
        Seq::empty()
    } else {
        let rest = filters_named(names.drop_last());
        match filter_named(names.last()) {
            Some(f) => rest.push(f),
            None => rest,
        }
    }
}

/// Parses the `--filter` values, skipping unknown names.
pub fn parse_filters(names: &[String]) -> (r: Vec<Filter>)
    ensures
        r@ == filters_named(names@.map_values(|s: String| s@)),
{
    let ghost nv = names@.map_values(|s: String| s@);
    let mut out: Vec<Filter> = Vec::new();
    let mut i: usize = 0;
    while i < names.len()
        invariant
            nv == names@.map_values(|s: String| s@),
            i <= names.len(),
            out@ == filters_named(nv.take(i as int)),
        decreases names.len() - i,
    {
        assert(nv.take(i + 1).drop_last() == nv.take(i as int));
        assert(nv.take(i + 1).last() == names@[i as int]@);
        match parse_filter(names[i].as_str()) {
            Some(f) => out.push(f),
            None => {},
        }
        i = i + 1;
    }
    assert(nv.take(names.len() as int) == nv);
    out
}

/// Why the fuzzy-matching flags of a search cannot be used as given.
#[derive(Debug, Clone, Copy, PartialEq, Eq, Structural)]
pub enum FuzzyError {
    /// `--fuzzy` and `--context` were both given.
    WithContext,
    /// The `--fuzzy` edit distance is over 2.
    Distance(u8),
}

/// Checks, before anything is indexed, that `--fuzzy` and `--context` are
/// not both given.
pub fn check_fuzzy_context(fuzzy: Option<u8>, context_chars: Option<usize>) -> (r: Result<(), FuzzyError>)
    ensures
        r is Err <==> (fuzzy is Some && context_chars is Some),
        r matches Err(e) ==> e == FuzzyError::WithContext,
{
    if fuzzy.is_some() && context_chars.is_some() {
        Err(FuzzyError::WithContext)
    } else {
        Ok(())
    }
}

/// Checks the `--fuzzy` edit distance when the query is built: at most 2.
pub fn check_fuzzy_distance(distance: u8) -> (r: Result<u8, FuzzyError>)
    ensures
        r == (if distance <= 2 {
            Ok::<u8, FuzzyError>(distance)
        } else {
            Err(FuzzyError::Distance(distance))
        }),
{
    if distance <= 2 {
        Ok(distance)
    } else {
        Err(FuzzyError::Distance(distance))
    }
}

} // verus!
