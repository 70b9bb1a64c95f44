//! Full-text search decisions: which hits survive the date and feed
//! filters and the offset, how many to ask the index for, the terms that
//! drive snippets, and the dates of indexed articles.
use vstd::prelude::*;

use crate::chars::{chars_of, push_char, slice_to_vec, str_eq, string_from_chars};
use crate::time::{
    naive_date_midnight, naive_datetime_instant, parse_naive_date, parse_naive_datetime, parse_rfc3339,
    rfc3339_instant,
};
use crate::unicode::{char_is_whitespace, is_white_space, lowercase, to_lowercase};

verus! {

/// Extra candidates fetched per result when post-filters are active.
pub const OVERFETCH_FACTOR: usize = 3;

/// Default number of results.
pub const DEFAULT_LIMIT: usize = 20;

/// Order of search results.
#[derive(Debug, Clone, Copy, PartialEq, Eq)]
pub enum SortBy {
    Relevance,
    Date,
}

/// The filters applied to index hits after the query ran: a publication
/// window in Unix seconds (inclusive), the feed titles to keep, and the
/// page (offset and limit).
#[derive(Debug, Clone)]
pub struct PostFilter {
    pub date_from: Option<i64>,
    pub date_to: Option<i64>,
    pub feed_filter: Option<Vec<String>>,
    pub offset: usize,
    pub limit: usize,
}

/// What the filters read of a hit: its publication time and feed title.
#[derive(Debug, Clone)]
pub struct HitFacts {
    pub published_ts: Option<i64>,
    pub feed_title: String,
}

/// Whether post-filters are active (a date bound or a feed list).
pub open spec fn has_post_filter(f: PostFilter) -> bool {
    f.date_from is Some || f.date_to is Some || f.feed_filter is Some
}

/// How many hits to ask the index for: offset plus limit, three times that
/// when post-filters will drop some.
pub fn top_n(f: &PostFilter) -> (n: usize)
    requires
        f.offset + f.limit <= usize::MAX,
        has_post_filter(*f) ==> 3 * (f.offset + f.limit) <= usize::MAX,
    ensures
        n == (if has_post_filter(*f) {
            3 * (f.offset + f.limit)
        } else {
            f.offset + f.limit
        }),
{
    let base = f.offset + f.limit;
    if f.date_from.is_some() || f.date_to.is_some() || f.feed_filter.is_some() {
        base * OVERFETCH_FACTOR
    } else {
        base
    }
}

/// A hit passes when it is published inside the window (a hit without a
/// date fails any bound) and, with a feed list, its feed title is listed.
pub open spec fn passes(h: HitFacts, f: PostFilter) -> bool {
    &&& (f.date_from matches Some(from) ==> (h.published_ts matches Some(ts) && ts >= from))
    &&& (f.date_to matches Some(to) ==> (h.published_ts matches Some(ts) && ts <= to))
    &&& (f.feed_filter matches Some(list) ==> exists|i: int|
        0 <= i < list@.len() && list@[i]@ == h.feed_title@)
}

/// Positions of the hits that pass the filters, in order.
pub open spec fn passing(hits: Seq<HitFacts>, f: PostFilter) -> Seq<usize>
    decreases hits.len(),
{
    if hits.len() == 0 {
        Seq::empty()
    } else if passes(hits.last(), f) {
        passing(hits.drop_last(), f).push((hits.len() - 1) as usize)
    } else {
        passing(hits.drop_last(), f)
    }
}

/// The hits kept: past the first `offset` passing hits, as many as `limit`
/// (at least one, since a hit is taken before the limit is checked).
pub open spec fn selected(hits: Seq<HitFacts>, f: PostFilter) -> Seq<usize> {
    let p = passing(hits, f);
    let cap: int = if f.limit == 0 {
        1
    } else {
        f.limit as int
    };
    if p.len() <= f.offset {
        Seq::empty()
    } else {
        let rest = p.skip(f.offset as int);
        if rest.len() <= cap {
            rest
        } else {
            rest.take(cap)
        }
    }
}

/// Whether one hit passes the filters.
pub fn hit_passes(h: &HitFacts, f: &PostFilter) -> (r: bool)
    ensures
        r == passes(*h, *f),
{
    if let Some(from) = f.date_from {
        match h.published_ts {
            Some(ts) => {
                if ts < from {
                    return false;
                }
            },
            None => return false,
        }
    }
    if let Some(to) = f.date_to {
        match h.published_ts {
            Some(ts) => {
                if ts > to {
                    return false;
                }
            },
            None => return false,
        }
    }
    match &f.feed_filter {
        Some(list) => title_listed(list, h.feed_title.as_str()),
        None => true,
    }
}

/// Whether `title` is one of `list`.
fn title_listed(list: &Vec<String>, title: &str) -> (r: bool)
    ensures
        r == exists|i: int| 0 <= i < list@.len() && list@[i]@ == title@,
{
    let mut i: usize = 0;
    while i < list.len()
        invariant
            i <= list@.len(),
            forall|j: int| 0 <= j < i ==> list@[j]@ != title@,
        decreases list@.len() - i,
    {
        if str_eq(list[i].as_str(), title) {
            return true;
        }
        i += 1;
    }
    false
}

/// Positions of the hits to return, in order: hits that pass the filters,
/// after skipping `offset` of them, until `limit` are taken.
pub fn select_hits(hits: &[HitFacts], f: &PostFilter) -> (r: Vec<usize>)
    ensures
        r@ == selected(hits@, *f),
{
    let ghost cap: int = if f.limit == 0 {
        1
    } else {
        f.limit as int
    };
    let cap_exec: usize = if f.limit == 0 {
        1
    } else {
        f.limit
    };
    let mut results: Vec<usize> = Vec::new();
    let mut skipped: usize = 0;
    let mut i: usize = 0;
    while i < hits.len()
        invariant
            i <= hits@.len(),
            cap == (if f.limit == 0 {
                1
            } else {
                f.limit as int
            }),
            skipped == (if passing(hits@.take(i as int), *f).len() <= f.offset {
                passing(hits@.take(i as int), *f).len() as int
            } else {
                f.offset as int
            }),
            results@ == (if passing(hits@.take(i as int), *f).len() <= f.offset {
                Seq::empty()
            } else {
                passing(hits@.take(i as int), *f).skip(f.offset as int)
            }),
            results@.len() < cap,
            cap_exec == cap,
        decreases hits@.len() - i,
    {
        let ghost p = passing(hits@.take(i as int), *f);
        assert(hits@.take(i + 1).drop_last() =~= hits@.take(i as int));
        if hit_passes(&hits[i], f) {
            let ghost np = passing(hits@.take(i + 1), *f);
            assert(np == p.push(i as usize));
            if skipped < f.offset {
                skipped += 1;
            } else {
                results.push(i);
                assert(results@ =~= np.skip(f.offset as int));
                if results.len() >= cap_exec {
                    proof {
                        lemma_passing_prefix(hits@, *f, i + 1);
                        assert(np.skip(f.offset as int) =~= passing(hits@, *f).skip(
                            f.offset as int,
                        ).take(cap));
                    }
                    return results;
                }
            }
        }
        i += 1;
    }
    assert(hits@.take(hits@.len() as int) =~= hits@);
    results
}

/// The passing positions among the first `n` hits are a prefix of all of
/// them.
proof fn lemma_passing_prefix(hits: Seq<HitFacts>, f: PostFilter, n: int)
    requires
        0 <= n <= hits.len(),
    ensures
        passing(hits.take(n), f) == passing(hits, f).take(passing(hits.take(n), f).len() as int),
        passing(hits.take(n), f).len() <= passing(hits, f).len(),
    decreases hits.len() - n,
{
    if n == hits.len() {
        assert(hits.take(n) =~= hits);
    } else {
        lemma_passing_prefix(hits, f, n + 1);
        assert(hits.take(n + 1).drop_last() =~= hits.take(n));
    }
}

/// Every position the filters let through is a hit that passes them, and
/// positions come in increasing order.
pub proof fn lemma_passing_sound(hits: Seq<HitFacts>, f: PostFilter)
    requires
        hits.len() <= usize::MAX,
    ensures
        forall|k: int|
            0 <= k < passing(hits, f).len() ==> passing(hits, f)[k] < hits.len() && passes(
                hits[passing(hits, f)[k] as int],
                f,
            ),
        forall|k: int, l: int|
            0 <= k < l < passing(hits, f).len() ==> passing(hits, f)[k] < passing(hits, f)[l],
    decreases hits.len(),
{
    if hits.len() > 0 {
        let prev = hits.drop_last();
        lemma_passing_sound(prev, f);
        let pp = passing(prev, f);
        assert forall|k: int| 0 <= k < pp.len() implies hits[pp[k] as int] == prev[pp[k] as int] by {}
        if passes(hits.last(), f) {
            let last = (hits.len() - 1) as usize;
            assert(passing(hits, f) == pp.push(last));
            assert(last as int == hits.len() - 1);
        } else {
            assert(passing(hits, f) == pp);
        }
    }
}

/// The hits returned all pass the filters, in the order they came, and
/// there are at most `limit` of them (at least one when any is returned).
pub proof fn lemma_selected_sound(hits: Seq<HitFacts>, f: PostFilter)
    requires
        hits.len() <= usize::MAX,
    ensures
        forall|k: int|
            0 <= k < selected(hits, f).len() ==> selected(hits, f)[k] < hits.len() && passes(
                hits[selected(hits, f)[k] as int],
                f,
            ),
        forall|k: int, l: int|
            0 <= k < l < selected(hits, f).len() ==> selected(hits, f)[k] < selected(hits, f)[l],
        selected(hits, f).len() <= (if f.limit == 0 {
            1
        } else {
            f.limit as int
        }),
{
    lemma_passing_sound(hits, f);
    let p = passing(hits, f);
    if p.len() > f.offset {
        let rest = p.skip(f.offset as int);
        assert forall|k: int| 0 <= k < rest.len() implies rest[k] == p[k + f.offset] by {}
    }
}

/// How many of the first `j` hits pass the filters.
pub open spec fn passing_before(hits: Seq<HitFacts>, f: PostFilter, j: int) -> nat
    decreases j,
{
    if j <= 0 {
        0
    } else if passes(hits[j - 1], f) {
        passing_before(hits, f, j - 1) + 1
    } else {
        passing_before(hits, f, j - 1)
    }
}

/// The hits returned are the page of passing hits that starts after the
/// first `offset` of them: the `k`-th one returned passes the filters and
/// is preceded by exactly `offset + k` hits that pass; as many are returned
/// as the limit allows (at least one) and the passing hits left after the
/// offset provide.
pub proof fn lemma_selected_window(hits: Seq<HitFacts>, f: PostFilter)
    requires
        hits.len() <= usize::MAX,
    ensures
        ({
            let total = passing_before(hits, f, hits.len() as int);
            let cap: int = if f.limit == 0 {
                1
            } else {
                f.limit as int
            };
            let left: int = if total <= f.offset {
                0
            } else {
                total - f.offset
            };
            selected(hits, f).len() == (if left <= cap {
                left
            } else {
                cap
            })
        }),
        forall|k: int|
            0 <= k < selected(hits, f).len() ==> {
                let x = #[trigger] selected(hits, f)[k];
                &&& x < hits.len()
                &&& passes(hits[x as int], f)
                &&& passing_before(hits, f, x as int) == f.offset + k
            },
{
    lemma_passing_sound(hits, f);
    let p = passing(hits, f);
    lemma_passing_count(hits, f, hits.len() as int);
    assert(hits.take(hits.len() as int) =~= hits);
    assert forall|k: int| 0 <= k < p.len() implies passing_before(hits, f, p[k] as int) == k by {
        lemma_passing_rank(hits, f, k);
    }
    if p.len() > f.offset {
        let rest = p.skip(f.offset as int);
        assert forall|k: int| 0 <= k < rest.len() implies rest[k] == p[k + f.offset] by {}
    }
}

/// The passing positions among the first `j` hits are as many as the hits
/// counted by `passing_before`.
proof fn lemma_passing_count(hits: Seq<HitFacts>, f: PostFilter, j: int)
    requires
        0 <= j <= hits.len(),
    ensures
        passing(hits.take(j), f).len() == passing_before(hits, f, j),
    decreases j,
{
    if j > 0 {
        lemma_passing_count(hits, f, j - 1);
        assert(hits.take(j).drop_last() =~= hits.take(j - 1));
        assert(hits.take(j).last() == hits[j - 1]);
    }
}

/// The `k`-th passing position is preceded by exactly `k` passing hits.
proof fn lemma_passing_rank(hits: Seq<HitFacts>, f: PostFilter, k: int)
    requires
        hits.len() <= usize::MAX,
        0 <= k < passing(hits, f).len(),
    ensures
        passing_before(hits, f, passing(hits, f)[k] as int) == k,
{
    lemma_passing_sound(hits, f);
    let p = passing(hits, f);
    let x = p[k] as int;
    // Before `x`: the passing positions of the first `x` hits are a prefix
    // of `p` made of positions below `x`, so of those before `p[k]`.
    lemma_passing_prefix(hits, f, x);
    lemma_passing_count(hits, f, x);
    lemma_passing_sound(hits.take(x), f);
    let c: int = passing_before(hits, f, x) as int;
    let q = passing(hits.take(x), f);
    assert(q == p.take(c));
    if c > k {
        assert(q[k] == p[k]);
        assert(q[k] < x);
    }
    // Up to and including `x`: the passing positions end with `x`.
    lemma_passing_prefix(hits, f, x + 1);
    lemma_passing_count(hits, f, x + 1);
    assert(hits.take(x + 1).drop_last() =~= hits.take(x));
    assert(hits.take(x + 1).last() == hits[x]);
    let q1 = passing(hits.take(x + 1), f);
    assert(q1 == q.push(x as usize));
    assert(q1.len() == c + 1);
    assert(q1 == p.take(c + 1));
    assert(q1[c] == x);
    assert(p.take(c + 1)[c] == p[c]);
    assert(p[c] == x);
    if c < k {
        assert(p[c] < p[k]);
    }
}

// ── Snippet terms ───────────────────────────────────────────────────

/// The maximal runs of non-whitespace characters of `s`, in order.
pub open spec fn words(s: Seq<char>) -> Seq<Seq<char>>
    decreases s.len(),
{
    if s.len() == 0 {
        Seq::empty()
    } else {
        let prev = s.drop_last();
        let w = words(prev);
        let c = s.last();
        if is_white_space(c) {
            w
        } else if prev.len() == 0 || is_white_space(prev.last()) {
            w.push(seq![c])
        } else {
            w.update(w.len() - 1, w.last().push(c))
        }
    }
}

/// `s` without leading and trailing double quotes.
pub open spec fn trim_quotes(s: Seq<char>) -> Seq<char>
    decreases s.len(),
{
    if s.len() > 0 && s[0] == '"' {
        trim_quotes(s.drop_first())
    } else if s.len() > 0 && s.last() == '"' {
        trim_quotes(s.drop_last())
    } else {
        s
    }
}

/// The query operators `and`, `or` and `not` (lower-cased).
pub open spec fn is_operator_word(w: Seq<char>) -> bool {
    w == seq!['a', 'n', 'd'] || w == seq!['o', 'r'] || w == seq!['n', 'o', 't']
}

/// Query words that drive snippets: the lower-cased query's words, without
/// the operators `and`, `or` and `not`, stripped of quotes, non-empty.
pub open spec fn term_list(ws: Seq<Seq<char>>) -> Seq<Seq<char>>
    decreases ws.len(),
{
    if ws.len() == 0 {
        Seq::empty()
    } else {
        let rest = term_list(ws.drop_last());
        let w = ws.last();
        if is_operator_word(w) || trim_quotes(w).len() == 0 {
            rest
        } else {
            rest.push(trim_quotes(w))
        }
    }
}

/// The words of `v`, as `str::split_whitespace` yields them.
pub fn split_words(v: &[char]) -> (r: Vec<Vec<char>>)
    ensures
        r@.len() == words(v@).len(),
        forall|k: int| 0 <= k < r@.len() ==> r@[k]@ == words(v@)[k],
{
    let mut done: Vec<Vec<char>> = Vec::new();
    let mut cur: Vec<char> = Vec::new();
    let mut i: usize = 0;
    while i < v.len()
        invariant
            i <= v@.len(),
            (i > 0 && !is_white_space(v@[i - 1])) ==> (words(v@.take(i as int)).len()
                == done@.len() + 1 && words(v@.take(i as int)).last() == cur@ && cur@.len() > 0),
            !(i > 0 && !is_white_space(v@[i - 1])) ==> (words(v@.take(i as int)).len()
                == done@.len() && cur@.len() == 0),
            forall|k: int| 0 <= k < done@.len() ==> done@[k]@ == words(v@.take(i as int))[k],
        decreases v@.len() - i,
    {
        let c = v[i];
        let ghost w = words(v@.take(i as int));
        let ghost old_done = done@;
        assert(v@.take(i + 1).drop_last() =~= v@.take(i as int));
        assert(v@.take(i + 1).last() == c);
        if char_is_whitespace(c) {
            assert(words(v@.take(i + 1)) == w);
            if cur.len() > 0 {
                let ghost cw = cur@;
                let w2 = cur;
                done.push(w2);
                cur = Vec::new();
                assert(done@[done@.len() - 1]@ == cw);
            }
        } else {
            cur.push(c);
            proof {
                if i > 0 && !is_white_space(v@[i - 1]) {
                    assert(words(v@.take(i + 1)) == w.update(w.len() - 1, w.last().push(c)));
                } else {
                    assert(cur@ =~= seq![c]);
                    assert(words(v@.take(i + 1)) == w.push(seq![c]));
                }
            }
        }
        i += 1;
    }
    assert(v@.take(v@.len() as int) =~= v@);
    if cur.len() > 0 {
        done.push(cur);
    }
    done
}

/// `v` without leading and trailing double quotes.
pub fn strip_quotes(v: &[char]) -> (r: Vec<char>)
    ensures
        r@ == trim_quotes(v@),
{
    let mut lo: usize = 0;
    let mut hi: usize = v.len();
    assert(v@.subrange(0, v@.len() as int) =~= v@);
    while lo < hi && v[lo] == '"'
        invariant
            lo <= hi == v@.len(),
            trim_quotes(v@.subrange(lo as int, hi as int)) == trim_quotes(v@),
        decreases hi - lo,
    {
        assert(v@.subrange(lo as int, hi as int).drop_first() =~= v@.subrange(lo + 1, hi as int));
        lo += 1;
    }
    while lo < hi && v[hi - 1] == '"'
        invariant
            lo <= hi <= v@.len(),
            lo == hi || v@[lo as int] != '"',
            trim_quotes(v@.subrange(lo as int, hi as int)) == trim_quotes(v@),
        decreases hi - lo,
    {
        assert(v@.subrange(lo as int, hi as int).drop_last() =~= v@.subrange(lo as int, hi - 1));
        hi -= 1;
    }
    slice_to_vec(v, lo, hi)
}

/// Whether `w` is one of the query operators.
fn is_operator(w: &[char]) -> (r: bool)
    ensures
        r == is_operator_word(w@),
{
    let r = (w.len() == 3 && w[0] == 'a' && w[1] == 'n' && w[2] == 'd') || (w.len() == 2 && w[0]
        == 'o' && w[1] == 'r') || (w.len() == 3 && w[0] == 'n' && w[1] == 'o' && w[2] == 't');
    proof {
        if w@.len() == 3 && w@[0] == 'a' && w@[1] == 'n' && w@[2] == 'd' {
            assert(w@ =~= seq!['a', 'n', 'd']);
        }
        if w@.len() == 2 && w@[0] == 'o' && w@[1] == 'r' {
            assert(w@ =~= seq!['o', 'r']);
        }
        if w@.len() == 3 && w@[0] == 'n' && w@[1] == 'o' && w@[2] == 't' {
            assert(w@ =~= seq!['n', 'o', 't']);
        }
    }
    r
}

/// The terms that pick where a snippet starts: the words of the lower-cased
/// query, less the operators, stripped of quotes, the empty ones dropped.
pub fn snippet_terms(query: &str) -> (r: Vec<String>)
    ensures
        r@.len() == term_list(words(lowercase(query@))).len(),
        forall|k: int|
            0 <= k < r@.len() ==> r@[k]@ == term_list(words(lowercase(query@)))[k],
{
    let lower = to_lowercase(query);
    let v = chars_of(lower.as_str());
    let ws = split_words(v.as_slice());
    let ghost wv = words(lowercase(query@));
    let mut out: Vec<String> = Vec::new();
    let mut i: usize = 0;
    while i < ws.len()
        invariant
            i <= ws@.len() == wv.len(),
            forall|k: int| 0 <= k < ws@.len() ==> ws@[k]@ == wv[k],
            out@.len() == term_list(wv.take(i as int)).len(),
            forall|k: int| 0 <= k < out@.len() ==> out@[k]@ == term_list(wv.take(i as int))[k],
        decreases ws@.len() - i,
    {
        assert(wv.take(i + 1).drop_last() =~= wv.take(i as int));
        let w = &ws[i];
        if !is_operator(w.as_slice()) {
            let t = strip_quotes(w.as_slice());
            if t.len() > 0 {
                out.push(string_from_chars(t.as_slice()));
            }
        }
        i += 1;
    }
    assert(wv.take(wv.len() as int) =~= wv);
    out
}

// ── Indexed documents ───────────────────────────────────────────────

/// The fields an article is indexed with.
pub struct ArticleIndexData<'a> {
    pub article_id: i64,
    pub title: &'a str,
    pub content: Option<&'a str>,
    pub summary: Option<&'a str>,
    pub author: Option<&'a str>,
    pub tags: &'a [String],
    pub feed_title: Option<&'a str>,
    pub published_at: Option<&'a str>,
}

/// The values stored in the index for one article: absent texts are empty,
/// tags are joined by spaces and the publication date is a Unix timestamp.
pub struct IndexDocument {
    pub article_id: u64,
    pub title: String,
    pub content: String,
    pub summary: String,
    pub author: String,
    pub tags: String,
    pub feed_title: String,
    pub published_at: Option<i64>,
}

/// The words joined by single spaces.
pub open spec fn joined(ws: Seq<Seq<char>>) -> Seq<char>
    decreases ws.len(),
{
    if ws.len() == 0 {
        Seq::empty()
    } else if ws.len() == 1 {
        ws[0]
    } else {
        joined(ws.drop_last()) + seq![' '] + ws.last()
    }
}

/// The text of an optional field, empty when absent.
pub open spec fn or_empty(s: Option<&str>) -> Seq<char> {
    match s {
        Some(t) => t@,
        None => Seq::empty(),
    }
}

/// The timestamp an article's stored publication date is indexed under:
/// the text read as RFC 3339, else as a UTC date-time
/// (`%Y-%m-%d %H:%M:%S`), else as a date at midnight UTC (`%Y-%m-%d`).
pub open spec fn index_timestamp(s: Seq<char>) -> Option<i64> {
    if rfc3339_instant(s) is Some {
        Some((rfc3339_instant(s)->0).0)
    } else if naive_datetime_instant(s, "%Y-%m-%d %H:%M:%S"@) is Some {
        Some((naive_datetime_instant(s, "%Y-%m-%d %H:%M:%S"@)->0).0)
    } else {
        naive_date_midnight(s, "%Y-%m-%d"@)
    }
}

/// Read a stored publication date for the index.
pub fn parse_index_timestamp(s: &str) -> (r: Option<i64>)
    ensures
        r == index_timestamp(s@),
{
    if let Some(t) = parse_rfc3339(s) {
        return Some(t.0);
    }
    if let Some(t) = parse_naive_datetime(s, "%Y-%m-%d %H:%M:%S") {
        return Some(t.0);
    }
    parse_naive_date(s, "%Y-%m-%d")
}

/// The strings joined by single spaces.
pub fn join_with_spaces(parts: &[String]) -> (r: String)
    ensures
        r@ == joined(parts@.map_values(|p: String| p@)),
{
    let ghost ps = parts@.map_values(|p: String| p@);
    let mut out = String::new();
    let mut i: usize = 0;
    while i < parts.len()
        invariant
            i <= parts@.len(),
            ps == parts@.map_values(|p: String| p@),
            out@ == joined(ps.take(i as int)),
        decreases parts@.len() - i,
    {
        assert(ps.take(i + 1).drop_last() =~= ps.take(i as int));
        if i > 0 {
            push_char(&mut out, ' ');
        } else {
            assert(ps.take(1) =~= seq![ps[0]]);
        }
        out.append(parts[i].as_str());
        i += 1;
    }
    assert(ps.take(ps.len() as int) =~= ps);
    out
}

/// The text of an optional field, empty when absent.
fn text_or_empty(s: Option<&str>) -> (r: String)
    ensures
        r@ == or_empty(s),
{
    match s {
        Some(t) => t.to_owned(),
        None => String::new(),
    }
}

/// The values to store in the index for an article.
pub fn document_fields(data: &ArticleIndexData) -> (d: IndexDocument)
    ensures
        d.article_id == data.article_id as u64,
        d.title@ == data.title@,
        d.content@ == or_empty(data.content),
        d.summary@ == or_empty(data.summary),
        d.author@ == or_empty(data.author),
        d.tags@ == joined(data.tags@.map_values(|p: String| p@)),
        d.feed_title@ == or_empty(data.feed_title),
        d.published_at == match data.published_at {
            Some(p) => index_timestamp(p@),
            None => None,
        },
{
    let published_at = match data.published_at {
        Some(p) => parse_index_timestamp(p),
        None => None,
    };
    IndexDocument {
        article_id: data.article_id as u64,
        title: data.title.to_owned(),
        content: text_or_empty(data.content),
        summary: text_or_empty(data.summary),
        author: text_or_empty(data.author),
        tags: join_with_spaces(data.tags),
        feed_title: text_or_empty(data.feed_title),
        published_at,
    }
}

// ── Ordering by date ────────────────────────────────────────────────

/// `a` sorts before `b` in the order `str::cmp` uses: code point by code
/// point, a proper prefix first.
pub open spec fn text_lt(a: Seq<char>, b: Seq<char>) -> bool
    decreases a.len(),
{
    if a.len() == 0 {
        b.len() > 0
    } else if b.len() == 0 {
        false
    } else if a[0] != b[0] {
        (a[0] as u32) < (b[0] as u32)
    } else {
        text_lt(a.drop_first(), b.drop_first())
    }
}

/// The order of optional dates: a missing date sorts first, then texts in
/// order.
pub open spec fn date_lt(a: Option<Seq<char>>, b: Option<Seq<char>>) -> bool {
    match (a, b) {
        (None, Some(_)) => true,
        (Some(x), Some(y)) => text_lt(x, y),
        _ => false,
    }
}

/// The optional date of a result, as text.
pub open spec fn date_key(d: Option<String>) -> Option<Seq<char>> {
    match d {
        Some(t) => Some(t@),
        None => None,
    }
}

proof fn lemma_text_lt_irrefl(a: Seq<char>)
    ensures
        !text_lt(a, a),
    decreases a.len(),
{
    if a.len() > 0 {
        lemma_text_lt_irrefl(a.drop_first());
    }
}

proof fn lemma_text_lt_trans(a: Seq<char>, b: Seq<char>, c: Seq<char>)
    requires
        text_lt(a, b),
        text_lt(b, c),
    ensures
        text_lt(a, c),
    decreases a.len(),
{
    if a.len() > 0 && b.len() > 0 && c.len() > 0 && a[0] == b[0] && b[0] == c[0] {
        lemma_text_lt_trans(a.drop_first(), b.drop_first(), c.drop_first());
    }
}

proof fn lemma_text_lt_total(a: Seq<char>, b: Seq<char>)
    ensures
        a == b || text_lt(a, b) || text_lt(b, a),
    decreases a.len(),
{
    if a.len() > 0 && b.len() > 0 && a[0] != b[0] {
        vstd::utf8::char_u32_cast(a[0], a[0] as u32);
        vstd::utf8::char_u32_cast(b[0], b[0] as u32);
    } else if a.len() > 0 && b.len() > 0 && a[0] == b[0] {
        lemma_text_lt_total(a.drop_first(), b.drop_first());
        if a.drop_first() == b.drop_first() {
            assert(a =~= seq![a[0]] + a.drop_first());
            assert(b =~= seq![b[0]] + b.drop_first());
        }
    } else if a.len() == 0 && b.len() == 0 {
        assert(a =~= b);
    }
}

proof fn lemma_date_lt_trans(a: Option<Seq<char>>, b: Option<Seq<char>>, c: Option<Seq<char>>)
    requires
        date_lt(a, b),
        date_lt(b, c),
    ensures
        date_lt(a, c),
{
    if a is Some {
        lemma_text_lt_trans(a->0, b->0, c->0);
    }
}

proof fn lemma_date_lt_total(a: Option<Seq<char>>, b: Option<Seq<char>>)
    ensures
        a == b || date_lt(a, b) || date_lt(b, a),
{
    if a is Some && b is Some {
        lemma_text_lt_total(a->0, b->0);
    }
}

proof fn lemma_date_lt_irrefl(a: Option<Seq<char>>)
    ensures
        !date_lt(a, a),
{
    if a is Some {
        lemma_text_lt_irrefl(a->0);
    }
}

/// Whether `a` sorts before `b`.
fn text_less(a: &[char], b: &[char]) -> (r: bool)
    ensures
        r == text_lt(a@, b@),
{
    let mut i: usize = 0;
    assert(a@.skip(0) =~= a@);
    assert(b@.skip(0) =~= b@);
    while i < a.len() && i < b.len()
        invariant
            i <= a@.len(),
            i <= b@.len(),
            text_lt(a@, b@) == text_lt(a@.skip(i as int), b@.skip(i as int)),
        decreases a@.len() - i,
    {
        assert(a@.skip(i as int).drop_first() =~= a@.skip(i + 1));
        assert(b@.skip(i as int).drop_first() =~= b@.skip(i + 1));
        if a[i] != b[i] {
            return (a[i] as u32) < (b[i] as u32);
        }
        i += 1;
    }
    i == a.len() && i < b.len()
}

/// Whether the date `a` sorts before the date `b`.
fn date_less(a: &Option<String>, b: &Option<String>) -> (r: bool)
    ensures
        r == date_lt(date_key(*a), date_key(*b)),
{
    match (a, b) {
        (None, Some(_)) => true,
        (Some(x), Some(y)) => {
            let xv = chars_of(x.as_str());
            let yv = chars_of(y.as_str());
            text_less(xv.as_slice(), yv.as_slice())
        },
        _ => false,
    }
}

/// The positions of results ordered newest first, as a stable sort leaves
/// them: every position once, later dates (a missing date last) before
/// earlier ones, and results with equal dates in the order they came.
pub fn newest_first(dates: &[Option<String>]) -> (p: Vec<usize>)
    ensures
        p@.len() == dates@.len(),
        forall|i: int| 0 <= i < p@.len() ==> p@[i] < dates@.len(),
        forall|i: int, j: int| 0 <= i < j < p@.len() ==> p@[i] != p@[j],
        forall|i: int, j: int|
            0 <= i < j < p@.len() ==> !date_lt(
                date_key(dates@[p@[i] as int]),
                date_key(dates@[p@[j] as int]),
            ),
        forall|i: int, j: int|
            0 <= i < j < p@.len() && date_key(dates@[p@[i] as int]) == date_key(
                dates@[p@[j] as int],
            ) ==> p@[i] < p@[j],
{
    let ghost keys = dates@.map_values(|d: Option<String>| date_key(d));
    let mut p: Vec<usize> = Vec::new();
    let mut k: usize = 0;
    while k < dates.len()
        invariant
            k <= dates@.len(),
            keys == dates@.map_values(|d: Option<String>| date_key(d)),
            p@.len() == k,
            forall|i: int| 0 <= i < p@.len() ==> p@[i] < k,
            forall|i: int, j: int| 0 <= i < j < p@.len() ==> p@[i] != p@[j],
            forall|i: int, j: int|
                0 <= i < j < p@.len() ==> !date_lt(keys[p@[i] as int], keys[p@[j] as int]),
            forall|i: int, j: int|
                0 <= i < j < p@.len() && keys[p@[i] as int] == keys[p@[j] as int] ==> p@[i]
                    < p@[j],
        decreases dates@.len() - k,
    {
        let mut pos: usize = 0;
        while pos < p.len() && !date_less(&dates[p[pos]], &dates[k])
            invariant
                k < dates@.len(),
                keys == dates@.map_values(|d: Option<String>| date_key(d)),
                pos <= p@.len() == k,
                forall|i: int| 0 <= i < p@.len() ==> p@[i] < k,
                forall|i: int| 0 <= i < pos ==> !date_lt(keys[p@[i] as int], keys[k as int]),
            decreases p@.len() - pos,
        {
            pos += 1;
        }
        let ghost old_p = p@;
        proof {
            if pos < old_p.len() {
                assert(date_lt(keys[old_p[pos as int] as int], keys[k as int]));
                assert forall|j: int| pos <= j < old_p.len() implies date_lt(
                    keys[old_p[j] as int],
                    keys[k as int],
                ) by {
                    if j > pos {
                        lemma_date_lt_total(keys[old_p[j] as int], keys[old_p[pos as int] as int]);
                        if keys[old_p[j] as int] != keys[old_p[pos as int] as int] {
                            lemma_date_lt_trans(
                                keys[old_p[j] as int],
                                keys[old_p[pos as int] as int],
                                keys[k as int],
                            );
                        }
                    }
                }
            }
        }
        p.insert(pos, k);
        proof {
            assert forall|i: int, j: int| 0 <= i < j < p@.len() implies !date_lt(
                keys[p@[i] as int],
                keys[p@[j] as int],
            ) by {
                if j == pos {
                } else if i == pos {
                    assert(date_lt(keys[old_p[j - 1] as int], keys[k as int]));
                    lemma_date_lt_irrefl(keys[k as int]);
                    if date_lt(keys[k as int], keys[old_p[j - 1] as int]) {
                        lemma_date_lt_trans(
                            keys[k as int],
                            keys[old_p[j - 1] as int],
                            keys[k as int],
                        );
                    }
                }
            }
            assert forall|i: int, j: int|
                0 <= i < j < p@.len() && keys[p@[i] as int] == keys[p@[j] as int] implies p@[i]
                < p@[j] by {
                if i == pos {
                    assert(date_lt(keys[old_p[j - 1] as int], keys[k as int]));
                    lemma_date_lt_irrefl(keys[k as int]);
                }
            }
        }
        k += 1;
    }
    p
}

// ── Rebuilding the index ────────────────────────────────────────────

/// The tag names of `article_id` among `(article, tag name)` rows, in row
/// order.
pub open spec fn tags_of_article(rows: Seq<(i64, String)>, article_id: i64) -> Seq<Seq<char>>
    decreases rows.len(),
{
    if rows.len() == 0 {
        Seq::empty()
    } else {
        let rest = tags_of_article(rows.drop_last(), article_id);
        if rows.last().0 == article_id {
            rest.push(rows.last().1@)
        } else {
            rest
        }
    }
}

/// The tag names of an article, from all article-tag rows.
pub fn article_tags(rows: &[(i64, String)], article_id: i64) -> (r: Vec<String>)
    ensures
        r@.map_values(|t: String| t@) == tags_of_article(rows@, article_id),
{
    let mut r: Vec<String> = Vec::new();
    let mut i: usize = 0;
    while i < rows.len()
        invariant
            i <= rows@.len(),
            r@.map_values(|t: String| t@) == tags_of_article(rows@.take(i as int), article_id),
        decreases rows@.len() - i,
    {
        assert(rows@.take(i + 1).drop_last() =~= rows@.take(i as int));
        if rows[i].0 == article_id {
            let ghost before = r@;
            let name = rows[i].1.as_str().to_owned();
            r.push(name);
            assert(r@.map_values(|t: String| t@) =~= before.map_values(|t: String| t@).push(
                rows@[i as int].1@,
            ));
        }
        i += 1;
    }
    assert(rows@.take(rows@.len() as int) =~= rows@);
    r
}

/// The title of feed `feed_id` among `(feed, title)` rows: the last titled
/// row of that feed, as a map built from the titled rows keeps it.
pub open spec fn title_of_feed(feeds: Seq<(i64, Option<String>)>, feed_id: i64) -> Option<
    Seq<char>,
>
    decreases feeds.len(),
{
    if feeds.len() == 0 {
        None
    } else if feeds.last().0 == feed_id && feeds.last().1 is Some {
        Some(feeds.last().1->0@)
    } else {
        title_of_feed(feeds.drop_last(), feed_id)
    }
}

/// The title of a feed, from all feed rows.
pub fn feed_title(feeds: &[(i64, Option<String>)], feed_id: i64) -> (r: Option<String>)
    ensures
        match r {
            Some(t) => title_of_feed(feeds@, feed_id) == Some(t@),
            None => title_of_feed(feeds@, feed_id) is None,
        },
{
    let mut i: usize = feeds.len();
    assert(feeds@.take(i as int) =~= feeds@);
    while i > 0
        invariant
            i <= feeds@.len(),
            title_of_feed(feeds@, feed_id) == title_of_feed(feeds@.take(i as int), feed_id),
        decreases i,
    {
        assert(feeds@.take(i as int).drop_last() =~= feeds@.take(i - 1));
        if feeds[i - 1].0 == feed_id {
            if let Some(t) = &feeds[i - 1].1 {
                return Some(t.as_str().to_owned());
            }
        }
        i -= 1;
    }
    None
}

} // verus!
