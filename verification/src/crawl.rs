//! Crawling etiquette: the origin a request belongs to, what robots.txt
//! allows, and the spacing of requests to one origin.
use vstd::prelude::*;

use crate::chars::str_eq;
use crate::parse::{decimal_text, push_decimal};
use crate::robots::{parse_robots_rules, path_allowed, robots_rules_for, RobotsRules};
use crate::urls::{opt_view, parse_url, parsed_url, UrlParts};

verus! {

/// Why fetching an article's content was refused before its body was read.
pub enum ExtractorError {
    InvalidUrl(String),
    RobotsDisallowed { url: String },
    HttpStatus { url: String, status: u16 },
}

// ── Origins ─────────────────────────────────────────────────────────

/// Parse the address of an article; a text the URL parser refuses is an
/// invalid URL, reported with the text as given.
pub fn parse_article_url(url: &str) -> (r: Result<UrlParts, ExtractorError>)
    ensures
        match r {
            Ok(p) => parsed_url(url@) == Some(
                (p.text@, p.scheme@, opt_view(p.host), p.port, p.path@),
            ),
            Err(ExtractorError::InvalidUrl(t)) => t@ == url@ && parsed_url(url@) is None,
            Err(_) => false,
        },
{
    match parse_url(url) {
        Some(p) => Ok(p),
        None => Err(ExtractorError::InvalidUrl(url.to_owned())),
    }
}

/// `scheme://host`, with `:port` when the URL names a port.
pub open spec fn origin_text(scheme: Seq<char>, host: Seq<char>, port: Option<u16>) -> Seq<char> {
    scheme + "://"@ + host + match port {
        Some(p) => ":"@ + decimal_text(p as nat),
        None => Seq::empty(),
    }
}

/// The key that groups requests by origin. A URL without a host has none.
pub fn domain_key(url: &UrlParts) -> (r: Result<String, ExtractorError>)
    ensures
        match url.host {
            Some(h) => r matches Ok(k) && k@ == origin_text(url.scheme@, h@, url.port),
            None => r matches Err(ExtractorError::InvalidUrl(t)) && t@ == url.text@,
        },
{
    let host = match &url.host {
        Some(h) => h,
        None => return Err(ExtractorError::InvalidUrl(url.text.as_str().to_owned())),
    };
    let mut key = url.scheme.as_str().to_owned();
    key.append("://");
    key.append(host.as_str());
    match url.port {
        Some(p) => {
            key.append(":");
            push_decimal(&mut key, p as u64);
        },
        None => {},
    }
    proof {
        reveal_strlit("://");
        reveal_strlit(":");
    }
    Ok(key)
}

/// Where an origin keeps its robots.txt.
pub fn robots_url(domain: &str) -> (r: String)
    ensures
        r@ == domain@ + "/robots.txt"@,
{
    let mut r = domain.to_owned();
    r.append("/robots.txt");
    r
}

// ── Verdicts ────────────────────────────────────────────────────────

/// Whether an HTTP status is a success (200 to 299).
pub open spec fn status_success(status: u16) -> bool {
    200 <= status <= 299
}

/// Whether an HTTP status is a success.
pub fn is_success(status: u16) -> (r: bool)
    ensures
        r == status_success(status),
{
    200 <= status && status <= 299
}

/// The article fetch goes ahead only where robots.txt allows it.
pub fn robots_verdict(url: &str, allowed: bool) -> (r: Result<(), ExtractorError>)
    ensures
        allowed ==> r is Ok,
        !allowed ==> (r matches Err(ExtractorError::RobotsDisallowed { url: u }) && u@ == url@),
{
    if allowed {
        Ok(())
    } else {
        Err(ExtractorError::RobotsDisallowed { url: url.to_owned() })
    }
}

/// An article response is read only when its status is a success.
pub fn status_verdict(url: &str, status: u16) -> (r: Result<(), ExtractorError>)
    ensures
        status_success(status) ==> r is Ok,
        !status_success(status) ==> (r matches Err(
            ExtractorError::HttpStatus { url: u, status: s },
        ) && u@ == url@ && s == status),
{
    if is_success(status) {
        Ok(())
    } else {
        Err(ExtractorError::HttpStatus { url: url.to_owned(), status })
    }
}

/// What came of asking an origin for its robots.txt: no answer (or an
/// unreadable body), an answer with a status other than success, or the
/// text of a successful answer.
pub enum RobotsReply {
    Failed,
    Status(u16),
    Text(String),
}

/// Whether the path may be crawled given the origin's robots.txt reply, and
/// the rules to remember for the origin. An origin that cannot be asked,
/// or answers with an error, allows everything and nothing is remembered.
pub fn robots_outcome(reply: &RobotsReply, user_agent: &str, path: &str) -> (r: (
    bool,
    Option<RobotsRules>,
))
    ensures
        match reply {
            RobotsReply::Text(t) => r.1 matches Some(rules) && rules@ == robots_rules_for(
                t@,
                user_agent@,
            ) && r.0 == path_allowed(rules@, path@),
            _ => r.0 && r.1 is None,
        },
{
    match reply {
        RobotsReply::Text(t) => {
            let rules = parse_robots_rules(t.as_str(), user_agent);
            let allowed = rules.allows(path);
            (allowed, Some(rules))
        },
        _ => (true, None),
    }
}

// ── Spacing requests ────────────────────────────────────────────────

/// Least time between two requests to one origin, in nanoseconds.
pub const MIN_REQUEST_SPACING_NANOS: u64 = 1_000_000_000;

/// When each origin was last asked for something, in nanoseconds on a
/// monotonic clock.
pub struct DomainThrottle {
    entries: Vec<(String, u64)>,
}

/// The recorded time of `domain` among `entries`, which hold each origin
/// once.
pub open spec fn recorded(entries: Seq<(String, u64)>, domain: Seq<char>) -> Option<u64> {
    if exists|i: int| 0 <= i < entries.len() && entries[i].0@ == domain {
        let i = choose|i: int| 0 <= i < entries.len() && entries[i].0@ == domain;
        Some(entries[i].1)
    } else {
        None
    }
}

/// How long a request to `domain` at `now` must wait: until a full spacing
/// has passed since the last one.
pub open spec fn throttle_wait(last: Option<u64>, now: u64) -> int {
    match last {
        Some(t) => if t + MIN_REQUEST_SPACING_NANOS > now {
            t + MIN_REQUEST_SPACING_NANOS - now
        } else {
            0
        },
        None => 0,
    }
}

impl DomainThrottle {
    /// Each origin is recorded once, at a time that a spacing can be added
    /// to.
    pub closed spec fn wf(&self) -> bool {
        &&& forall|i: int, j: int|
            0 <= i < j < self.entries@.len() ==> self.entries@[i].0@ != self.entries@[j].0@
        &&& forall|i: int|
            0 <= i < self.entries@.len() ==> self.entries@[i].1 <= u64::MAX
                - MIN_REQUEST_SPACING_NANOS
    }

    /// When `domain` was last asked, if ever.
    pub closed spec fn last_request(&self, domain: Seq<char>) -> Option<u64> {
        recorded(self.entries@, domain)
    }

    /// No origin asked yet.
    pub fn new() -> (t: Self)
        ensures
            t.wf(),
            forall|d: Seq<char>| t.last_request(d) is None,
    {
        DomainThrottle { entries: Vec::new() }
    }

    /// Try to take a turn for `domain` at time `now`: returns how long to
    /// wait first, and when that is zero records `now` as the origin's last
    /// request. Other origins are unaffected.
    pub fn acquire(&mut self, domain: &str, now: u64) -> (wait: u64)
        requires
            old(self).wf(),
            now <= u64::MAX - MIN_REQUEST_SPACING_NANOS,
        ensures
            final(self).wf(),
            wait == throttle_wait(old(self).last_request(domain@), now),
            wait == 0 ==> final(self).last_request(domain@) == Some(now),
            wait != 0 ==> final(self).last_request(domain@) == old(self).last_request(domain@),
            forall|d: Seq<char>|
                d != domain@ ==> final(self).last_request(d) == old(self).last_request(d),
    {
        let ghost old_entries = self.entries@;
        let mut i: usize = 0;
        while i < self.entries.len()
            invariant
                i <= self.entries@.len(),
                self.entries@ == old_entries,
                old_entries == old(self).entries@,
                self.wf(),
                now <= u64::MAX - MIN_REQUEST_SPACING_NANOS,
                forall|j: int| 0 <= j < i ==> self.entries@[j].0@ != domain@,
            decreases self.entries@.len() - i,
        {
            if str_eq(self.entries[i].0.as_str(), domain) {
                let last = self.entries[i].1;
                proof {
                    lemma_recorded_at(old_entries, i as int);
                    assert(old_entries[i as int].0@ == domain@);
                }
                if last + MIN_REQUEST_SPACING_NANOS > now {
                    return last + MIN_REQUEST_SPACING_NANOS - now;
                }
                let name = self.entries[i].0.clone();
                proof {
                    assert(name@ == old_entries[i as int].0@);
                }
                self.entries.set(i, (name, now));
                proof {
                    let ne = self.entries@;
                    assert forall|a: int, b: int| 0 <= a < b < ne.len() implies ne[a].0@
                        != ne[b].0@ by {
                        assert(ne[a].0@ == old_entries[a].0@);
                        assert(ne[b].0@ == old_entries[b].0@);
                    }
                    lemma_recorded_at(ne, i as int);
                    assert forall|d: Seq<char>| d != domain@ implies recorded(ne, d) == recorded(
                        old_entries,
                        d,
                    ) by {
                        lemma_recorded_other(old_entries, ne, d);
                    }
                }
                return 0;
            }
            i += 1;
        }
        let ghost before = self.entries@;
        self.entries.push((domain.to_owned(), now));
        proof {
            let ne = self.entries@;
            assert(!(exists|j: int| 0 <= j < before.len() && before[j].0@ == domain@));
            assert(ne[before.len() as int].0@ == domain@);
            lemma_recorded_at(ne, before.len() as int);
            assert forall|d: Seq<char>| d != domain@ implies recorded(ne, d) == recorded(
                before,
                d,
            ) by {
                lemma_recorded_other(before, ne, d);
            }
        }
        0
    }
}

/// With each origin recorded once, the entry at `i` is what is recorded
/// for its origin.
proof fn lemma_recorded_at(entries: Seq<(String, u64)>, i: int)
    requires
        0 <= i < entries.len(),
        forall|a: int, b: int| 0 <= a < b < entries.len() ==> entries[a].0@ != entries[b].0@,
    ensures
        recorded(entries, entries[i].0@) == Some(entries[i].1),
{
    let d = entries[i].0@;
    assert(exists|j: int| 0 <= j < entries.len() && entries[j].0@ == d);
    let j = choose|j: int| 0 <= j < entries.len() && entries[j].0@ == d;
    if j < i {
        assert(entries[j].0@ != entries[i].0@);
    } else if i < j {
        assert(entries[i].0@ != entries[j].0@);
    }
}

/// Two entry lists that agree on every entry whose origin is not `d`'s
/// replacement record the same for `d`.
proof fn lemma_recorded_other(a: Seq<(String, u64)>, b: Seq<(String, u64)>, d: Seq<char>)
    requires
        a.len() <= b.len(),
        forall|i: int| 0 <= i < a.len() && a[i].0@ == d ==> b[i] == a[i],
        forall|i: int| 0 <= i < a.len() && b[i].0@ == d ==> b[i] == a[i],
        forall|i: int| a.len() <= i < b.len() ==> b[i].0@ != d,
        forall|x: int, y: int| 0 <= x < y < a.len() ==> a[x].0@ != a[y].0@,
        forall|x: int, y: int| 0 <= x < y < b.len() ==> b[x].0@ != b[y].0@,
    ensures
        recorded(b, d) == recorded(a, d),
{
    if exists|i: int| 0 <= i < a.len() && a[i].0@ == d {
        let i = choose|i: int| 0 <= i < a.len() && a[i].0@ == d;
        lemma_recorded_at(a, i);
        lemma_recorded_at(b, i);
    } else if exists|i: int| 0 <= i < b.len() && b[i].0@ == d {
        let i = choose|i: int| 0 <= i < b.len() && b[i].0@ == d;
        if i < a.len() {
            assert(b[i] == a[i]);
        }
    }
}

/// Two requests to one origin that were both let through at once are a
/// full spacing apart: after a turn taken at `t1`, a turn at `t2` needs no
/// wait only when `t2` is at least one spacing later.
pub proof fn lemma_requests_spaced(t1: u64, t2: u64)
    requires
        throttle_wait(Some(t1), t2) == 0,
    ensures
        t2 >= t1 + MIN_REQUEST_SPACING_NANOS,
{
}

} // verus!
