use vstd::prelude::*;
use crate::content::{blank, is_blank, decode_bytes, page_text};

verus! {

/// Why an article could not be made into markdown.
#[derive(Debug, Clone, Copy, PartialEq, Eq, Structural)]
pub enum HtmlError {
    /// The server sent an empty body (the site may block automated
    /// requests).
    EmptyPage,
    /// The readability extraction failed.
    Extraction,
    /// The extracted article is blank (the page may need JavaScript or a
    /// login).
    NoContent,
    /// The HTML-to-markdown conversion failed.
    Markdown,
}

/// The base URL used when the given one does not parse.
pub open spec fn fallback_url() -> Seq<char> {
    "https://example.com"@
}

/// What the readability extraction makes of `html` relative to `url`: `None`
/// when `url` does not parse as a URL, `Some(None)` when the extraction
/// fails, else the HTML of the article found.
pub uninterp spec fn readability_article(html: Seq<char>, url: Seq<char>) -> Option<Option<Seq<char>>>;

/// Parses `url` with `url::Url::parse` (the conversion of the argument that
/// the extractor takes) and calls `readability::extractor::extract` on the
/// bytes of `html`, keeping the article's `content`. The result is named
/// [`readability_article`]; the fixed fallback URL parses.
#[verifier::external_body]
fn extract_article(html: &str, url: &str) -> (r: Option<Option<String>>)
    ensures
        match r {
            None => readability_article(html@, url@) is None,
            Some(None) => readability_article(html@, url@) == Some(None::<Seq<char>>),
            Some(Some(c)) => readability_article(html@, url@) == Some(Some(c@)),
        },
        url@ == fallback_url() ==> r is Some,
{
    let url = url::Url::parse(url).ok()?;
    Some(readability::extractor::extract(&mut html.as_bytes(), &url).ok().map(|p| p.content))
}

/// What `htmd::convert` makes of `html`: the markdown text, or `None` on
/// failure.
pub uninterp spec fn html_markdown(html: Seq<char>) -> Option<Seq<char>>;

/// Calls `htmd::convert`; the result is named [`html_markdown`].
#[verifier::external_body]
fn to_markdown(html: &str) -> (r: Option<String>)
    ensures
        match r {
            None => html_markdown(html@) is None,
            Some(m) => html_markdown(html@) == Some(m@),
        },
{
    htmd::convert(html).ok()
}

/// The markdown of the article in `html` read relative to `base_url` (or to
/// the fallback URL when `base_url` does not parse), or why there is none.
pub open spec fn convert_spec(html: Seq<char>, base_url: Seq<char>) -> Result<Seq<char>, HtmlError> {
    let outcome = match readability_article(html, base_url) {
        Some(o) => o,
        None => match readability_article(html, fallback_url()) {
            Some(o) => o,
            None => None,
        },
    };
    match outcome {
        None => Err(HtmlError::Extraction),
        Some(c) => if blank(c) {
            Err(HtmlError::NoContent)
        } else {
            match html_markdown(c) {
                Some(m) => Ok(m),
                None => Err(HtmlError::Markdown),
            }
        },
    }
}

/// Extracts the main article of an HTML page and converts it to markdown.
pub fn convert(html: &str, base_url: &str) -> (r: Result<String, HtmlError>)
    ensures
        match (r, convert_spec(html@, base_url@)) {
            (Ok(a), Ok(b)) => a@ == b,
            (Err(a), Err(b)) => a == b,
            _ => false,
        },
{
    let outcome = match extract_article(html, base_url) {
        Some(o) => o,
        None => {
            let fallback = "https://example.com";
            proof {
                reveal_strlit("https://example.com");
            }
            match extract_article(html, fallback) {
                Some(o) => o,
                None => None,
            }
        },
    };
    match outcome {
        None => Err(HtmlError::Extraction),
        Some(c) => {
            if is_blank(c.as_str()) {
                Err(HtmlError::NoContent)
            } else {
                match to_markdown(c.as_str()) {
                    Some(m) => Ok(m),
                    None => Err(HtmlError::Markdown),
                }
            }
        },
    }
}

/// The markdown of a fetched page whose body is `body`: none when the body is
/// empty, else that of its text (see [`page_text`]) read relative to `url`.
pub open spec fn page_markdown_spec(body: Seq<u8>, url: Seq<char>) -> Result<Seq<char>, HtmlError> {
    if body.len() == 0 {
        Err(HtmlError::EmptyPage)
    } else {
        convert_spec(page_text(body), url)
    }
}

/// Converts the body of the page fetched from `url` to markdown.
pub fn page_markdown(body: &[u8], url: &str) -> (r: Result<String, HtmlError>)
    ensures
        match (r, page_markdown_spec(body@, url@)) {
            (Ok(a), Ok(b)) => a@ == b,
            (Err(a), Err(b)) => a == b,
            _ => false,
        },
{
    if body.len() == 0 {
        return Err(HtmlError::EmptyPage);
    }
    let text = decode_bytes(body);
    convert(text.as_str(), url)
}

/// When the page's own URL parses, the markdown is made from the article
/// that readability extracts relative to that URL (so links and images are
/// resolved against it): a failed extraction is `Extraction`, a blank article
/// `NoContent`, and otherwise the article's markdown or `Markdown` when the
/// conversion fails. The fallback URL counts only when the page's URL does
/// not parse.
pub proof fn lemma_convert_reads_the_page_url(html: Seq<char>, base_url: Seq<char>)
    ensures
        readability_article(html, base_url) == Some(None::<Seq<char>>) ==> convert_spec(html, base_url) == Err::<
            Seq<char>,
            HtmlError,
        >(HtmlError::Extraction),
        readability_article(html, base_url) matches Some(Some(c)) ==> (blank(c) ==> convert_spec(html, base_url)
            == Err::<Seq<char>, HtmlError>(HtmlError::NoContent)),
        readability_article(html, base_url) matches Some(Some(c)) ==> (!blank(c) ==> convert_spec(html, base_url)
            == match html_markdown(c) {
            Some(m) => Ok::<Seq<char>, HtmlError>(m),
            None => Err(HtmlError::Markdown),
        }),
        readability_article(html, base_url) is None ==> convert_spec(html, base_url) == convert_spec(html, fallback_url()),
{
}

/// Two pages whose articles, read relative to their own URLs (both of which
/// parse), are the same give the same markdown.
pub proof fn lemma_convert_depends_on_the_page_article(h1: Seq<char>, u1: Seq<char>, h2: Seq<char>, u2: Seq<char>)
    requires
        readability_article(h1, u1) is Some,
        readability_article(h1, u1) == readability_article(h2, u2),
    ensures
        convert_spec(h1, u1) == convert_spec(h2, u2),
{
}

} // verus!
