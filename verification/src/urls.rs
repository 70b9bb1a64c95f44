//! URLs as the `url` crate reads them.
use vstd::prelude::*;

verus! {

/// What `url::Url::parse` makes of a text, which the URL standard's parser
/// decides from the text alone: `None` when it refuses it, else the
/// serialised URL, the scheme, the host (when there is one), the explicit
/// port (absent when it is the scheme's default) and the path.
pub uninterp spec fn parsed_url(s: Seq<char>) -> Option<
    (Seq<char>, Seq<char>, Option<Seq<char>>, Option<u16>, Seq<char>),
>;

/// The parts of a parsed URL that the crawler reads.
pub struct UrlParts {
    pub text: String,
    pub scheme: String,
    pub host: Option<String>,
    pub port: Option<u16>,
    pub path: String,
}

/// The view of optional text.
pub open spec fn opt_view(s: Option<String>) -> Option<Seq<char>> {
    match s {
        Some(t) => Some(t@),
        None => None,
    }
}

/// Calls `url::Url::parse` and reads `as_str`, `scheme`, `host_str`, `port`
/// and `path` of the result.
#[verifier::external_body]
pub(crate) fn parse_url(s: &str) -> (r: Option<UrlParts>)
    ensures
        match r {
            Some(p) => parsed_url(s@) == Some(
                (p.text@, p.scheme@, opt_view(p.host), p.port, p.path@),
            ),
            None => parsed_url(s@) is None,
        },
{
    match url::Url::parse(s) {
        Ok(u) => Some(
            UrlParts {
                text: u.as_str().to_string(),
                scheme: u.scheme().to_string(),
                host: u.host_str().map(|h| h.to_string()),
                port: u.port(),
                path: u.path().to_string(),
            },
        ),
        Err(_) => None,
    }
}

} // verus!
