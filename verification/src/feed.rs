//! Feed polling decisions: reading HTTP answers, turning feed entries into
//! articles, and summarising a polling round.
use vstd::prelude::*;

use crate::chars::{chars_of, push_char, str_eq};
use crate::models::{Article, NewArticle};
use crate::parse::{parse_u64, parsed_unsigned};
use feed_rs::model::Feed as FeedDocument;

verus! {

/// Result of fetching a single feed.
#[derive(Debug)]
pub struct FeedResult {
    pub feed_id: i64,
    pub new_articles: Vec<Article>,
    pub not_modified: bool,
}

/// Summary of fetching all feeds.
#[derive(Debug)]
pub struct FetchSummary {
    pub feeds_fetched: usize,
    pub feeds_not_modified: usize,
    pub feeds_errored: usize,
    pub new_articles_total: usize,
    pub errors: Vec<(i64, String)>,
}

// ── Summary text of feed entries ────────────────────────────────────

/// Whether the text after `s` is inside a tag: the last `<` or `>` of `s`
/// is a `<`.
pub open spec fn inside_tag(s: Seq<char>) -> bool
    decreases s.len(),
{
    if s.len() == 0 {
        false
    } else if s.last() == '<' {
        true
    } else if s.last() == '>' {
        false
    } else {
        inside_tag(s.drop_last())
    }
}

/// `s` without its tags: every `<` and `>` and every character between a
/// `<` and the next `>` removed.
pub open spec fn without_tags(s: Seq<char>) -> Seq<char>
    decreases s.len(),
{
    if s.len() == 0 {
        Seq::empty()
    } else {
        let r = without_tags(s.drop_last());
        let c = s.last();
        if c == '<' || c == '>' || inside_tag(s.drop_last()) {
            r
        } else {
            r.push(c)
        }
    }
}

/// Text without angle brackets.
pub open spec fn bracket_free(t: Seq<char>) -> bool {
    forall|i: int| 0 <= i < t.len() ==> #[trigger] t[i] != '<' && t[i] != '>'
}

/// Stripping leaves no angle bracket, and text without brackets is left
/// as it is, so stripping twice is stripping once.
pub proof fn lemma_strip_tags_clean(s: Seq<char>)
    ensures
        bracket_free(without_tags(s)),
        without_tags(without_tags(s)) == without_tags(s),
    decreases s.len(),
{
    if s.len() > 0 {
        lemma_strip_tags_clean(s.drop_last());
        let r = without_tags(s.drop_last());
        assert forall|i: int| 0 <= i < without_tags(s).len() implies #[trigger] without_tags(s)[i]
            != '<' && without_tags(s)[i] != '>' by {
            if i < r.len() {
                assert(without_tags(s)[i] == r[i]);
            }
        }
    }
    lemma_bracket_free_fixed(without_tags(s));
}

/// Text without brackets is never inside a tag and is left as it is.
proof fn lemma_bracket_free_fixed(t: Seq<char>)
    requires
        bracket_free(t),
    ensures
        without_tags(t) == t,
        !inside_tag(t),
    decreases t.len(),
{
    if t.len() > 0 {
        let p = t.drop_last();
        assert forall|i: int| 0 <= i < p.len() implies #[trigger] p[i] != '<' && p[i] != '>' by {
            assert(p[i] == t[i]);
        }
        lemma_bracket_free_fixed(p);
        assert(t.last() == t[t.len() - 1]);
        assert(without_tags(t) =~= t);
    }
}

/// Simple HTML tag stripping for summary fields.
pub fn strip_html_tags(html: &str) -> (r: String)
    ensures
        r@ == without_tags(html@),
{
    let v = chars_of(html);
    let mut result = String::new();
    let mut in_tag = false;
    let mut i: usize = 0;
    while i < v.len()
        invariant
            i <= v@.len(),
            result@ == without_tags(v@.take(i as int)),
            in_tag == inside_tag(v@.take(i as int)),
        decreases v@.len() - i,
    {
        let ch = v[i];
        assert(v@.take(i + 1).drop_last() =~= v@.take(i as int));
        if ch == '<' {
            in_tag = true;
        } else if ch == '>' {
            in_tag = false;
        } else if !in_tag {
            push_char(&mut result, ch);
        }
        i += 1;
    }
    assert(v@.take(v@.len() as int) =~= v@);
    result
}

// ── Entries ─────────────────────────────────────────────────────────

/// What an RSS or Atom entry holds that becomes an article: its id, the
/// targets of its links in order, its title, its authors' names in order,
/// its published and updated times as RFC 3339 text, and its raw summary.
#[derive(Debug, Clone)]
pub struct EntryData {
    pub id: String,
    pub link_hrefs: Vec<String>,
    pub title: Option<String>,
    pub author_names: Vec<String>,
    pub published: Option<String>,
    pub updated: Option<String>,
    pub summary: Option<String>,
}

/// Views of an optional string.
pub open spec fn opt_view(o: Option<String>) -> Option<Seq<char>> {
    match o {
        Some(s) => Some(s@),
        None => None,
    }
}

/// The article an entry becomes: its first link (or its id) as URL, its id
/// as guid unless empty, its title or "(untitled)", its first author, its
/// published time or else its updated time, and its summary without tags.
pub open spec fn entry_article_ok(feed_id: i64, e: EntryData, a: NewArticle) -> bool {
    &&& a.feed_id == feed_id
    &&& a.url@ == (if e.link_hrefs@.len() > 0 {
        e.link_hrefs@[0]@
    } else {
        e.id@
    })
    &&& opt_view(a.guid) == (if e.id@.len() == 0 {
        None
    } else {
        Some(e.id@)
    })
    &&& a.title@ == (match e.title {
        Some(t) => t@,
        None => "(untitled)"@,
    })
    &&& opt_view(a.author) == (if e.author_names@.len() > 0 {
        Some(e.author_names@[0]@)
    } else {
        None
    })
    &&& opt_view(a.published_at) == (match e.published {
        Some(p) => Some(p@),
        None => opt_view(e.updated),
    })
    &&& opt_view(a.summary) == (match e.summary {
        Some(s) => Some(without_tags(s@)),
        None => None,
    })
    &&& a.content is None
    &&& a.content_hash is None
}

/// An entry's published time, when it has one, is the article's
/// publication time; only an entry without one falls back to its updated
/// time. The article's URL is the entry's first link, and only an entry
/// without links uses its id.
pub proof fn lemma_article_dates(feed_id: i64, e: EntryData, a: NewArticle)
    requires
        entry_article_ok(feed_id, e, a),
    ensures
        e.published matches Some(p) ==> (a.published_at matches Some(q) && q@ == p@),
        e.published is None ==> (a.published_at is Some <==> e.updated is Some),
        e.published is None ==> (e.updated matches Some(u) ==> (a.published_at matches Some(q)
            && q@ == u@)),
        e.link_hrefs@.len() > 0 ==> a.url@ == e.link_hrefs@[0]@,
{
}

/// Convert a feed entry to an article to insert.
pub fn entry_to_new_article(feed_id: i64, entry: &EntryData) -> (a: NewArticle)
    ensures
        entry_article_ok(feed_id, *entry, a),
{
    let url = if entry.link_hrefs.len() > 0 {
        entry.link_hrefs[0].clone()
    } else {
        entry.id.clone()
    };
    let guid = if entry.id.as_str().is_empty() {
        None
    } else {
        Some(entry.id.clone())
    };
    let title = match &entry.title {
        Some(t) => t.clone(),
        None => "(untitled)".to_owned(),
    };
    let author = if entry.author_names.len() > 0 {
        Some(entry.author_names[0].clone())
    } else {
        None
    };
    let published_at = match &entry.published {
        Some(p) => Some(p.clone()),
        None => match &entry.updated {
            Some(u) => Some(u.clone()),
            None => None,
        },
    };
    let summary = match &entry.summary {
        Some(s) => Some(strip_html_tags(s.as_str())),
        None => None,
    };
    NewArticle {
        feed_id,
        guid,
        url,
        title,
        author,
        published_at,
        summary,
        content: None,
        content_hash: None,
    }
}

/// A link of a feed: its target and its relation, when given.
#[derive(Debug, Clone)]
pub struct FeedLink {
    pub href: String,
    pub rel: Option<String>,
}

/// Index of the first link whose relation is not `self`, if any.
pub open spec fn first_site_link(links: Seq<FeedLink>) -> Option<int>
    decreases links.len(),
{
    if links.len() == 0 {
        None
    } else if !(links[0].rel matches Some(r) && r@ == "self"@) {
        Some(0)
    } else {
        match first_site_link(links.drop_first()) {
            Some(i) => Some(i + 1),
            None => None,
        }
    }
}

/// The site URL of a feed: the target of its first link that is not a
/// `self` link.
pub fn site_url(links: &[FeedLink]) -> (r: Option<String>)
    ensures
        match first_site_link(links@) {
            Some(i) => r matches Some(u) && u@ == links@[i].href@,
            None => r is None,
        },
{
    let mut i: usize = 0;
    assert(links@.skip(0) =~= links@);
    while i < links.len()
        invariant
            i <= links@.len(),
            first_site_link(links@) == (match first_site_link(links@.skip(i as int)) {
                Some(j) => Some(j + i),
                None => None,
            }),
        decreases links@.len() - i,
    {
        assert(links@.skip(i as int).drop_first() =~= links@.skip(i + 1));
        assert(links@.skip(i as int)[0] == links@[i as int]);
        let is_self = match &links[i].rel {
            Some(r) => str_eq(r.as_str(), "self"),
            None => false,
        };
        if !is_self {
            return Some(links[i].href.clone());
        }
        i += 1;
    }
    None
}

// ── HTTP answers ────────────────────────────────────────────────────

/// What to do with the answer to a feed request.
#[derive(Debug, PartialEq, Eq)]
pub enum FetchDecision {
    /// 304: nothing new; record a successful poll.
    NotModified,
    /// 429 or 503: back off for the given number of seconds.
    RateLimited { retry_after_secs: u64 },
    /// Another unsuccessful status; `moved_to` is the new address when the
    /// request was redirected.
    Failed { status: u16, moved_to: Option<String> },
    /// A successful answer to parse; `moved_to` as above.
    Parse { moved_to: Option<String> },
}

/// Seconds to wait when a rate-limited answer gives no usable Retry-After.
pub const DEFAULT_RETRY_AFTER_SECS: u64 = 60;

/// The Retry-After delay: the header's value when it is a decimal number of
/// seconds, 60 otherwise.
pub open spec fn retry_after_secs(header: Option<Seq<char>>) -> u64 {
    match header {
        Some(h) => match parsed_unsigned(h, u64::MAX as nat) {
            Some(n) => n as u64,
            None => 60,
        },
        None => 60,
    }
}

/// Whether the answer came from another address than the one asked for.
pub open spec fn moved(d: FetchDecision) -> Option<Seq<char>> {
    match d {
        FetchDecision::Failed { moved_to, .. } => opt_view(moved_to),
        FetchDecision::Parse { moved_to } => opt_view(moved_to),
        _ => None,
    }
}

/// Decide what to do with the answer to a feed request: 304 means not
/// modified, 429 and 503 mean rate limited (Retry-After seconds, else 60);
/// otherwise a changed final address is reported as a move, and a status
/// outside 200..=299 is a failure.
pub fn classify_response(
    status: u16,
    retry_after: Option<&str>,
    final_url: &str,
    requested_url: &str,
) -> (d: FetchDecision)
    ensures
        status == 304 ==> d is NotModified,
        (status == 429 || status == 503) ==> d == (FetchDecision::RateLimited {
            retry_after_secs: retry_after_secs(
                match retry_after {
                    Some(h) => Some(h@),
                    None => None,
                },
            ),
        }),
        status != 304 && status != 429 && status != 503 && !(200 <= status <= 299) ==> (
        d matches FetchDecision::Failed { status: s, .. } && s == status),
        status != 304 && status != 429 && status != 503 && 200 <= status <= 299 ==> d is Parse,
        (d is Failed || d is Parse) ==> moved(d) == (if final_url@ != requested_url@ {
            Some(final_url@)
        } else {
            None
        }),
{
    if status == 304 {
        return FetchDecision::NotModified;
    }
    if status == 429 || status == 503 {
        let retry_after_secs = match retry_after {
            Some(h) => match parse_u64(h) {
                Some(n) => n,
                None => DEFAULT_RETRY_AFTER_SECS,
            },
            None => DEFAULT_RETRY_AFTER_SECS,
        };
        return FetchDecision::RateLimited { retry_after_secs };
    }
    let moved_to = if str_eq(final_url, requested_url) {
        None
    } else {
        Some(final_url.to_owned())
    };
    if !(200 <= status && status <= 299) {
        FetchDecision::Failed { status, moved_to }
    } else {
        FetchDecision::Parse { moved_to }
    }
}

// ── Polling round ───────────────────────────────────────────────────

/// Consecutive failures after which a feed is reported as possibly dead.
pub const CONSECUTIVE_FAILURE_WARN_THRESHOLD: i64 = 10;

/// Whether a feed that had failed `prev_error_count` times in a row, and
/// failed again, should be reported as possibly dead.
pub fn feed_may_be_dead(prev_error_count: i64) -> (r: bool)
    requires
        prev_error_count < i64::MAX,
    ensures
        r == (prev_error_count + 1 >= CONSECUTIVE_FAILURE_WARN_THRESHOLD),
{
    prev_error_count + 1 >= CONSECUTIVE_FAILURE_WARN_THRESHOLD
}

/// How fetching one feed ended.
pub enum FetchOutcome {
    /// Fetched and parsed, with this many new articles.
    Fetched { new_articles: usize },
    /// Not modified since the last poll.
    NotModified,
    /// Failed with an error message.
    Failed { feed_id: i64, message: String },
    /// The task fetching the feed did not finish.
    Aborted,
}

impl FetchSummary {
    /// A summary of no feeds.
    pub fn new() -> (s: Self)
        ensures
            s.feeds_fetched == 0,
            s.feeds_not_modified == 0,
            s.feeds_errored == 0,
            s.new_articles_total == 0,
            s.errors@.len() == 0,
    {
        FetchSummary {
            feeds_fetched: 0,
            feeds_not_modified: 0,
            feeds_errored: 0,
            new_articles_total: 0,
            errors: Vec::new(),
        }
    }

    /// Count one feed's outcome.
    pub fn record(&mut self, outcome: FetchOutcome)
        requires
            old(self).feeds_fetched < usize::MAX,
            old(self).feeds_not_modified < usize::MAX,
            old(self).feeds_errored < usize::MAX,
            outcome matches FetchOutcome::Fetched { new_articles } ==> old(self).new_articles_total
                + new_articles <= usize::MAX,
        ensures
            match outcome {
                FetchOutcome::Fetched { new_articles } => {
                    &&& final(self).feeds_fetched == old(self).feeds_fetched + 1
                    &&& final(self).new_articles_total == old(self).new_articles_total
                        + new_articles
                    &&& final(self).feeds_not_modified == old(self).feeds_not_modified
                    &&& final(self).feeds_errored == old(self).feeds_errored
                    &&& final(self).errors@ == old(self).errors@
                },
                FetchOutcome::NotModified => {
                    &&& final(self).feeds_not_modified == old(self).feeds_not_modified + 1
                    &&& final(self).feeds_fetched == old(self).feeds_fetched
                    &&& final(self).new_articles_total == old(self).new_articles_total
                    &&& final(self).feeds_errored == old(self).feeds_errored
                    &&& final(self).errors@ == old(self).errors@
                },
                FetchOutcome::Failed { feed_id, message } => {
                    &&& final(self).feeds_errored == old(self).feeds_errored + 1
                    &&& final(self).errors@ == old(self).errors@.push((feed_id, message))
                    &&& final(self).feeds_fetched == old(self).feeds_fetched
                    &&& final(self).feeds_not_modified == old(self).feeds_not_modified
                    &&& final(self).new_articles_total == old(self).new_articles_total
                },
                FetchOutcome::Aborted => {
                    &&& final(self).feeds_errored == old(self).feeds_errored + 1
                    &&& final(self).errors@ == old(self).errors@
                    &&& final(self).feeds_fetched == old(self).feeds_fetched
                    &&& final(self).feeds_not_modified == old(self).feeds_not_modified
                    &&& final(self).new_articles_total == old(self).new_articles_total
                },
            },
    {
        match outcome {
            FetchOutcome::Fetched { new_articles } => {
                self.feeds_fetched = self.feeds_fetched + 1;
                self.new_articles_total = self.new_articles_total + new_articles;
            },
            FetchOutcome::NotModified => {
                self.feeds_not_modified = self.feeds_not_modified + 1;
            },
            FetchOutcome::Failed { feed_id, message } => {
                self.feeds_errored = self.feeds_errored + 1;
                self.errors.push((feed_id, message));
            },
            FetchOutcome::Aborted => {
                self.feeds_errored = self.feeds_errored + 1;
            },
        }
    }
}

// ── Parsing feed documents ──────────────────────────────────────────

/// Why a feed could not be used, as far as the answer itself tells.
pub enum FeedError {
    HttpStatus { url: String, status: u16 },
    Parse(String),
    RateLimited { retry_after_secs: u64 },
}

/// The plain values of a feed link: its target and its relation.
pub open spec fn link_view(l: FeedLink) -> (Seq<char>, Option<Seq<char>>) {
    (l.href@, opt_view(l.rel))
}

/// The plain values of a sequence of feed links.
pub open spec fn links_view(links: Seq<FeedLink>) -> Seq<(Seq<char>, Option<Seq<char>>)> {
    links.map_values(|l: FeedLink| link_view(l))
}

/// The target of the first link whose relation is not `self`, over the
/// plain values of the links.
pub open spec fn site_of(links: Seq<(Seq<char>, Option<Seq<char>>)>) -> Option<Seq<char>>
    decreases links.len(),
{
    if links.len() == 0 {
        None
    } else if links[0].1 != Some("self"@) {
        Some(links[0].0)
    } else {
        site_of(links.drop_first())
    }
}

/// The plain values of an entry as the parser gives it: its id (`None`
/// where the parser made one up), the targets of its links, its title,
/// its authors' names, its published and updated times as RFC 3339 text,
/// and its summary.
pub type EntryPlain = (
    Option<Seq<char>>,
    Seq<Seq<char>>,
    Option<Seq<char>>,
    Seq<Seq<char>>,
    Option<Seq<char>>,
    Option<Seq<char>>,
    Option<Seq<char>>,
);

/// The plain values of a feed: title text, description text, links
/// (target, relation) and entries.
pub type FeedPlain = (
    Option<Seq<char>>,
    Option<Seq<char>>,
    Seq<(Seq<char>, Option<Seq<char>>)>,
    Seq<EntryPlain>,
);

/// The views of a sequence of strings.
pub open spec fn strs_view(v: Seq<String>) -> Seq<Seq<char>> {
    v.map_values(|s: String| s@)
}

/// The plain values of an entry of a parsed document: its id, the targets
/// of its links, its title, its authors' names, its published and updated
/// times as RFC 3339 text, and its summary.
pub type EntryValues = (
    Seq<char>,
    Seq<Seq<char>>,
    Option<Seq<char>>,
    Seq<Seq<char>>,
    Option<Seq<char>>,
    Option<Seq<char>>,
    Option<Seq<char>>,
);

/// The plain values of an entry.
pub open spec fn entry_values(e: EntryData) -> EntryValues {
    (
        e.id@,
        strs_view(e.link_hrefs@),
        opt_view(e.title),
        strs_view(e.author_names@),
        opt_view(e.published),
        opt_view(e.updated),
        opt_view(e.summary),
    )
}

/// An entry of a parsed document holds what the parser read for `p`: the
/// same links, title, authors, times and summary, and the same id unless
/// the parser made one up, in which case the id is some non-empty text.
pub open spec fn entry_fits(p: EntryPlain, q: EntryValues) -> bool {
    &&& match p.0 {
        Some(id) => q.0 == id,
        None => q.0.len() > 0,
    }
    &&& q.1 == p.1
    &&& q.2 == p.2
    &&& q.3 == p.3
    &&& q.4 == p.4
    &&& q.5 == p.5
    &&& q.6 == p.6
}

/// What `feed_rs::parser::parse` makes of a body, as far as it depends on
/// the body alone: the text of its error for a body it refuses, or else
/// the feed's title, description, links and entries. Only the id of an
/// entry with neither an id nor links is left out: the parser makes it up
/// at random.
pub uninterp spec fn parsed_feed(body: Seq<u8>) -> Result<FeedPlain, Seq<char>>;

/// The entries a parsed document (`feed_rs::model::Feed`) holds, in
/// order, by their plain values.
pub uninterp spec fn document_entries(d: FeedDocument) -> Seq<EntryValues>;

/// Declares `feed_rs::model::Feed`, a parsed feed document.
#[verifier::external_type_specification]
#[verifier::external_body]
pub struct ExFeedDocument(FeedDocument);

/// Calls `feed_rs::parser::parse` on the body of an answer and reads the
/// feed's title text, description text and links; a refusal comes back as
/// the parser error's text. These are named by `parsed_feed`, and so are
/// the document's entries, one for one and in order: the same entries as
/// `document_entries` of the document handed on, except that the id of an
/// entry the parser gave a random id is only said to be non-empty.
#[verifier::external_body]
fn parse_feed_document(body: &[u8]) -> (r: Result<
    (FeedDocument, Option<String>, Option<String>, Vec<FeedLink>),
    String,
>)
    ensures
        match r {
            Ok((doc, title, description, links)) => parsed_feed(body@) matches Ok(p) && p.0
                == opt_view(title) && p.1 == opt_view(description) && p.2 == links_view(links@)
                && p.3.len() == document_entries(doc).len() && forall|k: int|
                0 <= k < p.3.len() ==> entry_fits(p.3[k], #[trigger] document_entries(doc)[k]),
            Err(m) => parsed_feed(body@) == Err::<FeedPlain, Seq<char>>(m@),
        },
{
    match feed_rs::parser::parse(body) {
        Ok(f) => {
            let title = f.title.as_ref().map(|t| t.content.clone());
            let description = f.description.as_ref().map(|d| d.content.clone());
            let links: Vec<FeedLink> = f.links.iter().map(
                |l| FeedLink { href: l.href.clone(), rel: l.rel.clone() },
            ).collect();
            Ok((f, title, description, links))
        },
        Err(e) => Err(e.to_string()),
    }
}

/// Reads the entries of a parsed feed, their times rendered as RFC 3339:
/// exactly `document_entries` of the document, in order.
#[verifier::external_body]
fn feed_entries(f: &FeedDocument) -> (r: Vec<EntryData>)
    ensures
        r@.len() == document_entries(*f).len(),
        forall|k: int| 0 <= k < r@.len() ==> entry_values(#[trigger] r@[k]) == document_entries(*f)[k],
{
    f.entries.iter().map(
        |e| EntryData {
            id: e.id.clone(),
            link_hrefs: e.links.iter().map(|l| l.href.clone()).collect(),
            title: e.title.as_ref().map(|t| t.content.clone()),
            author_names: e.authors.iter().map(|a| a.name.clone()).collect(),
            published: e.published.map(|d| d.to_rfc3339()),
            updated: e.updated.map(|d| d.to_rfc3339()),
            summary: e.summary.as_ref().map(|t| t.content.clone()),
        },
    ).collect()
}

/// What a feed document tells: the feed's title, description and site
/// address, and its entries as articles to insert.
pub struct FeedContent {
    pub title: Option<String>,
    pub description: Option<String>,
    pub site_url: Option<String>,
    pub articles: Vec<NewArticle>,
}

/// The content of a parsed feed of `feed_id`: its title and description,
/// the target of its first link that is not a `self` link, and each entry
/// as an article, in order.
pub fn feed_content(
    feed_id: i64,
    title: Option<String>,
    description: Option<String>,
    links: &[FeedLink],
    entries: &[EntryData],
) -> (c: FeedContent)
    ensures
        c.title == title,
        c.description == description,
        match first_site_link(links@) {
            Some(i) => c.site_url matches Some(u) && u@ == links@[i].href@,
            None => c.site_url is None,
        },
        c.articles@.len() == entries@.len(),
        forall|k: int|
            0 <= k < entries@.len() ==> entry_article_ok(feed_id, entries@[k], c.articles@[k]),
{
    let site_url = site_url(links);
    let mut articles: Vec<NewArticle> = Vec::new();
    let mut k: usize = 0;
    while k < entries.len()
        invariant
            k <= entries@.len(),
            articles@.len() == k,
            forall|j: int|
                0 <= j < k ==> entry_article_ok(feed_id, entries@[j], articles@[j]),
        decreases entries@.len() - k,
    {
        articles.push(entry_to_new_article(feed_id, &entries[k]));
        k += 1;
    }
    FeedContent { title, description, site_url, articles }
}

/// Article `a` of feed `feed_id` is made from an entry holding what the
/// parser read for `p` (any id, where the parser made the id up).
pub open spec fn article_from(feed_id: i64, p: EntryPlain, a: NewArticle) -> bool {
    exists|e: EntryData| entry_fits(p, entry_values(e)) && entry_article_ok(feed_id, e, a)
}

/// The site address picked from links is the one named over their plain
/// values.
proof fn lemma_site_of(links: Seq<FeedLink>)
    ensures
        first_site_link(links) matches Some(i) ==> 0 <= i < links.len(),
        match first_site_link(links) {
            Some(i) => site_of(links_view(links)) == Some(
                links[i].href@,
            ),
            None => site_of(links_view(links)) is None,
        },
    decreases links.len(),
{
    let views = links_view(links);
    if links.len() > 0 {
        lemma_site_of(links.drop_first());
        assert(views.drop_first() =~= links_view(links.drop_first()));
        assert(views[0] == link_view(links[0]));
        let is_self = links[0].rel matches Some(r) && r@ == "self"@;
        assert(is_self <==> views[0].1 == Some("self"@));
        if is_self {
            match first_site_link(links.drop_first()) {
                Some(i) => {
                    assert(links[i + 1] == links.drop_first()[i]);
                },
                None => {},
            }
        }
    }
}

/// Read the body of a successful answer for the feed at `url`: it is read
/// exactly when the parser accepts the body, and a document the parser
/// refuses is a parse error naming the feed, then the parser's message.
/// The content has the feed's title and description, the target of its
/// first link that is not a `self` link, and one article per entry, in
/// document order.
pub fn read_feed(feed_id: i64, url: &str, body: &[u8]) -> (r: Result<FeedContent, FeedError>)
    ensures
        match r {
            Ok(c) => {
                &&& parsed_feed(body@) matches Ok(h)
                &&& opt_view(c.title) == h.0
                &&& opt_view(c.description) == h.1
                &&& opt_view(c.site_url) == site_of(h.2)
                &&& c.articles@.len() == h.3.len()
                &&& forall|k: int|
                    0 <= k < h.3.len() ==> article_from(feed_id, h.3[k], #[trigger] c.articles@[k])
            },
            Err(FeedError::Parse(m)) => parsed_feed(body@) matches Err(msg) && m@ == url@ + ": "@
                + msg,
            Err(_) => false,
        },
{
    let (doc, title, description, links) = match parse_feed_document(body) {
        Ok(parts) => parts,
        Err(msg) => {
            let mut m = url.to_owned();
            m.append(": ");
            m.append(msg.as_str());
            assert(m@ == url@ + ": "@ + msg@);
            return Err(FeedError::Parse(m));
        },
    };
    let entries = feed_entries(&doc);
    let c = feed_content(feed_id, title, description, links.as_slice(), entries.as_slice());
    proof {
        lemma_site_of(links@);
    }
    assert forall|k: int| 0 <= k < c.articles@.len() implies article_from(
        feed_id,
        parsed_feed(body@)->Ok_0.3[k],
        #[trigger] c.articles@[k],
    ) by {
        assert(entry_values(entries@[k]) == document_entries(doc)[k]);
        assert(entry_fits(parsed_feed(body@)->Ok_0.3[k], entry_values(entries@[k])));
        assert(entry_article_ok(feed_id, entries@[k], c.articles@[k]));
    }
    Ok(c)
}

/// The error for a rate-limited or failed answer; `None` for an answer to
/// go on with.
pub fn decision_error(url: &str, d: &FetchDecision) -> (r: Option<FeedError>)
    ensures
        match *d {
            FetchDecision::RateLimited { retry_after_secs } => r matches Some(
                FeedError::RateLimited { retry_after_secs: s },
            ) && s == retry_after_secs,
            FetchDecision::Failed { status, .. } => r matches Some(
                FeedError::HttpStatus { url: u, status: s },
            ) && u@ == url@ && s == status,
            _ => r is None,
        },
{
    match d {
        FetchDecision::RateLimited { retry_after_secs } => Some(
            FeedError::RateLimited { retry_after_secs: *retry_after_secs },
        ),
        FetchDecision::Failed { status, .. } => Some(
            FeedError::HttpStatus { url: url.to_owned(), status: *status },
        ),
        _ => None,
    }
}

// ── Summarising a round ─────────────────────────────────────────────

/// Counts over the outcomes of a polling round: feeds fetched, not
/// modified and errored, new articles, and the failures' messages.
pub open spec fn tally(os: Seq<FetchOutcome>) -> (nat, nat, nat, nat, Seq<(i64, String)>)
    decreases os.len(),
{
    if os.len() == 0 {
        (0, 0, 0, 0, Seq::empty())
    } else {
        let t = tally(os.drop_last());
        match os.last() {
            FetchOutcome::Fetched { new_articles } => (t.0 + 1, t.1, t.2, t.3 + new_articles as nat, t.4),
            FetchOutcome::NotModified => (t.0, t.1 + 1, t.2, t.3, t.4),
            FetchOutcome::Failed { feed_id, message } => (
                t.0,
                t.1,
                t.2 + 1,
                t.3,
                t.4.push((feed_id, message)),
            ),
            FetchOutcome::Aborted => (t.0, t.1, t.2 + 1, t.3, t.4),
        }
    }
}

/// Summarise the outcomes of a polling round, in the order they were
/// collected.
pub fn summarize(outcomes: Vec<FetchOutcome>) -> (s: FetchSummary)
    requires
        tally(outcomes@).3 <= usize::MAX,
    ensures
        s.feeds_fetched == tally(outcomes@).0,
        s.feeds_not_modified == tally(outcomes@).1,
        s.feeds_errored == tally(outcomes@).2,
        s.new_articles_total == tally(outcomes@).3,
        s.errors@ == tally(outcomes@).4,
{
    let n = outcomes.len();
    let ghost os = outcomes@;
    let mut s = FetchSummary::new();
    let mut rest = outcomes;
    let mut i: usize = 0;
    assert(os.skip(0) =~= os);
    while rest.len() > 0
        invariant
            i + rest@.len() == os.len(),
            os.len() == n,
            rest@ == os.skip(i as int),
            tally(os).3 <= usize::MAX,
            s.feeds_fetched == tally(os.take(i as int)).0,
            s.feeds_not_modified == tally(os.take(i as int)).1,
            s.feeds_errored == tally(os.take(i as int)).2,
            s.new_articles_total == tally(os.take(i as int)).3,
            s.errors@ == tally(os.take(i as int)).4,
        decreases rest@.len(),
    {
        let o = rest.remove(0);
        proof {
            assert(o == os[i as int]);
            assert(rest@ =~= os.skip(i + 1));
            assert(os.take(i + 1).drop_last() =~= os.take(i as int));
            lemma_tally_bounded(os, i as int);
            lemma_tally_bounded(os, i + 1);
        }
        s.record(o);
        i += 1;
    }
    assert(os.take(os.len() as int) =~= os);
    s
}

/// The counts of a prefix of the outcomes are within those of the whole
/// round and within the number of outcomes.
proof fn lemma_tally_bounded(os: Seq<FetchOutcome>, n: int)
    requires
        0 <= n <= os.len(),
    ensures
        tally(os.take(n)).3 <= tally(os).3,
        tally(os.take(n)).0 + tally(os.take(n)).1 + tally(os.take(n)).2 == n,
    decreases os.len() - n,
{
    if n < os.len() {
        lemma_tally_bounded(os, n + 1);
        assert(os.take(n + 1).drop_last() =~= os.take(n));
    } else {
        assert(os.take(n) =~= os);
        lemma_round_accounted(os);
    }
}

/// Every feed of a round is counted once: as fetched, as not modified or
/// as errored.
pub proof fn lemma_round_accounted(os: Seq<FetchOutcome>)
    ensures
        tally(os).0 + tally(os).1 + tally(os).2 == os.len(),
    decreases os.len(),
{
    if os.len() > 0 {
        lemma_round_accounted(os.drop_last());
    }
}

} // verus!
