//! Text clean-up and classification used when extracting article content.
use vstd::prelude::*;
use vstd::utf8::encode_utf8;

use crate::chars::{
    chars_of, contains_seq, starts_with_seq, str_contains, string_from_chars, trim_chars,
    trim_end_ws, trim_start_ws, trim_str, trim_ws, matches_at,
};
use crate::time::{
    naive_date_midnight, naive_datetime_instant, parse_naive_date, parse_naive_datetime,
    parse_rfc2822, parse_rfc3339, rfc2822_instant, rfc3339_instant,
};
use crate::embeddings::{byte_len, fitting_prefix_bytes, floor_boundary, prefix_at};
use crate::unicode::{char_is_whitespace, is_white_space, lowercase, to_lowercase};

verus! {

broadcast use vstd::utf8::group_utf8_lib;

// ── Whitespace normalisation ────────────────────────────────────────

/// `s` with every run of whitespace replaced by a single space.
pub open spec fn collapse_ws(s: Seq<char>) -> Seq<char>
    decreases s.len(),
{
    if s.len() == 0 {
        Seq::empty()
    } else {
        let prev = s.drop_last();
        let r = collapse_ws(prev);
        let c = s.last();
        if is_white_space(c) {
            if prev.len() > 0 && is_white_space(prev.last()) {
                r
            } else {
                r.push(' ')
            }
        } else {
            r.push(c)
        }
    }
}

/// `s` with whitespace runs collapsed to one space and no whitespace at
/// either end.
pub open spec fn normalized(s: Seq<char>) -> Seq<char> {
    trim_ws(collapse_ws(s))
}

/// Collapse every run of whitespace to a single space and trim both ends.
pub fn normalize_whitespace(input: &str) -> (r: String)
    ensures
        r@ == normalized(input@),
{
    let v = chars_of(input);
    let mut out: Vec<char> = Vec::new();
    let mut previous_was_space = false;
    let mut i: usize = 0;
    while i < v.len()
        invariant
            i <= v@.len(),
            out@ == collapse_ws(v@.take(i as int)),
            previous_was_space == (i > 0 && is_white_space(v@[i - 1])),
        decreases v@.len() - i,
    {
        let ch = v[i];
        assert(v@.take(i + 1).drop_last() =~= v@.take(i as int));
        if char_is_whitespace(ch) {
            if !previous_was_space {
                out.push(' ');
                previous_was_space = true;
            }
        } else {
            out.push(ch);
            previous_was_space = false;
        }
        i += 1;
    }
    assert(v@.take(v@.len() as int) =~= v@);
    let t = trim_chars(out.as_slice());
    string_from_chars(t.as_slice())
}

/// Text whose only whitespace is single spaces between other characters'
/// runs: every whitespace character is a space, and none follows another.
pub open spec fn single_spaced(t: Seq<char>) -> bool {
    forall|i: int|
        0 <= i < t.len() && is_white_space(#[trigger] t[i]) ==> t[i] == ' ' && (i + 1 < t.len()
            ==> !is_white_space(t[i + 1]))
}

/// Collapsing yields single-spaced text that is empty exactly when the input
/// is, and ends in whitespace exactly when the input does.
proof fn lemma_collapse_shape(s: Seq<char>)
    ensures
        single_spaced(collapse_ws(s)),
        (collapse_ws(s).len() == 0) == (s.len() == 0),
        s.len() > 0 ==> (is_white_space(collapse_ws(s).last()) == is_white_space(s.last())),
    decreases s.len(),
{
    if s.len() > 0 {
        let prev = s.drop_last();
        lemma_collapse_shape(prev);
        let r = collapse_ws(prev);
        let c = s.last();
        if is_white_space(c) {
            if prev.len() > 0 && is_white_space(prev.last()) {
            } else {
                let t = r.push(' ');
                assert forall|i: int| 0 <= i < t.len() && is_white_space(#[trigger] t[i]) implies t[i]
                    == ' ' && (i + 1 < t.len() ==> !is_white_space(t[i + 1])) by {
                    if i + 1 < r.len() {
                        assert(t[i] == r[i]);
                        assert(t[i + 1] == r[i + 1]);
                    } else if i + 1 == r.len() {
                        assert(t[i] == r.last());
                    }
                }
            }
        } else {
            let t = r.push(c);
            assert forall|i: int| 0 <= i < t.len() && is_white_space(#[trigger] t[i]) implies t[i]
                == ' ' && (i + 1 < t.len() ==> !is_white_space(t[i + 1])) by {
                if i + 1 < r.len() {
                    assert(t[i] == r[i]);
                    assert(t[i + 1] == r[i + 1]);
                }
            }
        }
    }
}

/// Single-spaced text is left as it is by collapsing.
proof fn lemma_collapse_fixed(t: Seq<char>)
    requires
        single_spaced(t),
    ensures
        collapse_ws(t) == t,
    decreases t.len(),
{
    if t.len() > 0 {
        let prev = t.drop_last();
        assert forall|i: int| 0 <= i < prev.len() && is_white_space(#[trigger] prev[i]) implies prev[i]
            == ' ' && (i + 1 < prev.len() ==> !is_white_space(prev[i + 1])) by {
            assert(prev[i] == t[i]);
            if i + 1 < prev.len() {
                assert(prev[i + 1] == t[i + 1]);
            }
        }
        lemma_collapse_fixed(prev);
        let c = t.last();
        if is_white_space(c) {
            assert(t[t.len() - 1] == c);
            if prev.len() > 0 {
                assert(prev.last() == t[t.len() - 2]);
                assert(!is_white_space(prev.last())) by {
                    if is_white_space(t[t.len() - 2]) {
                        assert(!is_white_space(t[t.len() - 1]));
                    }
                }
            }
        }
        assert(collapse_ws(t) =~= t);
    }
}

/// Dropping leading whitespace keeps a suffix that does not start with
/// whitespace.
proof fn lemma_trim_start_shape(s: Seq<char>)
    ensures
        exists|k: int| 0 <= k <= s.len() && trim_start_ws(s) == s.skip(k),
        trim_start_ws(s).len() > 0 ==> !is_white_space(trim_start_ws(s)[0]),
    decreases s.len(),
{
    if s.len() > 0 && is_white_space(s[0]) {
        lemma_trim_start_shape(s.drop_first());
        let k = choose|k: int|
            0 <= k <= s.drop_first().len() && trim_start_ws(s.drop_first()) == s.drop_first().skip(
                k,
            );
        assert(s.drop_first().skip(k) =~= s.skip(k + 1));
    } else {
        assert(s.skip(0) =~= s);
    }
}

/// Dropping trailing whitespace keeps a prefix that does not end with
/// whitespace.
proof fn lemma_trim_end_shape(s: Seq<char>)
    ensures
        exists|m: int| 0 <= m <= s.len() && trim_end_ws(s) == s.take(m),
        trim_end_ws(s).len() > 0 ==> !is_white_space(trim_end_ws(s).last()),
    decreases s.len(),
{
    if s.len() > 0 && is_white_space(s.last()) {
        lemma_trim_end_shape(s.drop_last());
        let m = choose|m: int|
            0 <= m <= s.drop_last().len() && trim_end_ws(s.drop_last()) == s.drop_last().take(m);
        assert(s.drop_last().take(m) =~= s.take(m));
    } else {
        assert(s.take(s.len() as int) =~= s);
    }
}

/// Normalising twice changes nothing: normalised text has no whitespace at
/// either end and only single spaces inside.
pub proof fn lemma_normalized_idempotent(s: Seq<char>)
    ensures
        normalized(normalized(s)) == normalized(s),
{
    let c = collapse_ws(s);
    lemma_collapse_shape(s);
    lemma_trim_start_shape(c);
    let u = trim_start_ws(c);
    let k = choose|k: int| 0 <= k <= c.len() && u == c.skip(k);
    lemma_trim_end_shape(u);
    let t = trim_end_ws(u);
    let m = choose|m: int| 0 <= m <= u.len() && t == u.take(m);
    assert(t == normalized(s));
    assert forall|i: int| 0 <= i < t.len() && is_white_space(#[trigger] t[i]) implies t[i] == ' '
        && (i + 1 < t.len() ==> !is_white_space(t[i + 1])) by {
        assert(t[i] == c[i + k]);
        if i + 1 < t.len() {
            assert(t[i + 1] == c[i + 1 + k]);
        }
    }
    lemma_collapse_fixed(t);
    if t.len() > 0 {
        assert(t[0] == u[0]);
        assert(trim_start_ws(t) == t);
        assert(trim_end_ws(t) == t);
    } else {
        assert(trim_start_ws(t) == t);
        assert(trim_end_ws(t) == t);
    }
}

/// The content hash of a text is the hash of its normalised form, so texts
/// that differ only in whitespace runs and surrounding whitespace hash
/// alike.
pub proof fn lemma_hash_ignores_whitespace(a: Seq<char>, b: Seq<char>)
    requires
        normalized(a) == normalized(b),
    ensures
        hex_lower(sha256(encode_utf8(normalized(a)))) == hex_lower(sha256(encode_utf8(normalized(b)))),
        hex_lower(sha256(encode_utf8(normalized(normalized(a))))) == hex_lower(
            sha256(encode_utf8(normalized(a))),
        ),
{
    lemma_normalized_idempotent(a);
}

// ── Words ───────────────────────────────────────────────────────────

/// Number of maximal runs of non-whitespace characters in `s`, which is
/// what `str::split_whitespace` yields.
pub open spec fn word_count(s: Seq<char>) -> nat
    decreases s.len(),
{
    if s.len() == 0 {
        0
    } else {
        let prev = s.drop_last();
        word_count(prev) + if !is_white_space(s.last()) && (prev.len() == 0 || is_white_space(
            prev.last(),
        )) {
            1nat
        } else {
            0nat
        }
    }
}

proof fn lemma_word_count_bound(s: Seq<char>)
    ensures
        word_count(s) <= s.len(),
    decreases s.len(),
{
    if s.len() > 0 {
        lemma_word_count_bound(s.drop_last());
    }
}

/// Number of whitespace-separated words in `text`.
pub fn count_words(text: &str) -> (n: usize)
    ensures
        n == word_count(text@),
{
    let v = chars_of(text);
    let mut n: usize = 0;
    let mut i: usize = 0;
    while i < v.len()
        invariant
            i <= v@.len(),
            n == word_count(v@.take(i as int)),
        decreases v@.len() - i,
    {
        assert(v@.take(i + 1).drop_last() =~= v@.take(i as int));
        proof {
            lemma_word_count_bound(v@.take(i as int));
        }
        if !char_is_whitespace(v[i]) && (i == 0 || char_is_whitespace(v[i - 1])) {
            n += 1;
        }
        i += 1;
    }
    assert(v@.take(v@.len() as int) =~= v@);
    n
}

// ── Truncation ──────────────────────────────────────────────────────

/// Truncate `input` to at most `max_bytes` bytes of UTF-8 without splitting
/// a character.
pub fn truncate_utf8(input: &str, max_bytes: usize) -> (r: String)
    ensures
        encode_utf8(r@) == fitting_prefix_bytes(input@, max_bytes as int),
{
    if byte_len(input) <= max_bytes {
        let r = input.to_owned();
        return r;
    }
    let end = floor_boundary(input, max_bytes);
    prefix_at(input, end)
}

// ── Bylines ─────────────────────────────────────────────────────────

/// `s` with every leading copy of `p` removed, as `str::trim_start_matches`
/// does for a non-empty pattern.
pub open spec fn strip_repeated(s: Seq<char>, p: Seq<char>) -> Seq<char>
    decreases s.len(),
{
    if p.len() > 0 && starts_with_seq(s, p) {
        strip_repeated(s.skip(p.len() as int), p)
    } else {
        s
    }
}

/// An author line without a leading "By " or "by " and surrounding
/// whitespace.
pub open spec fn author_name(s: Seq<char>) -> Seq<char> {
    trim_ws(strip_repeated(strip_repeated(trim_ws(s), "By "@), "by "@))
}

/// The characters of `v` after every leading copy of `p`.
fn strip_prefix_repeated(v: &Vec<char>, p: &Vec<char>) -> (r: Vec<char>)
    ensures
        r@ == strip_repeated(v@, p@),
{
    if p.len() == 0 {
        return v.clone();
    }
    let mut i: usize = 0;
    assert(v@.skip(0) =~= v@);
    while i <= v.len() && matches_at(v.as_slice(), p.as_slice(), i)
        invariant
            p@.len() > 0,
            i <= v@.len(),
            strip_repeated(v@, p@) == strip_repeated(v@.skip(i as int), p@),
        decreases v@.len() - i,
    {
        assert(v@.skip(i as int).subrange(0, p@.len() as int) =~= v@.subrange(
            i as int,
            i + p@.len(),
        ));
        assert(v@.skip(i as int).skip(p@.len() as int) =~= v@.skip(i + p@.len()));
        i += p.len();
    }
    assert(!starts_with_seq(v@.skip(i as int), p@)) by {
        if starts_with_seq(v@.skip(i as int), p@) {
            assert(v@.skip(i as int).subrange(0, p@.len() as int) =~= v@.subrange(
                i as int,
                i + p@.len(),
            ));
        }
    }
    let out = crate::chars::slice_to_vec(v.as_slice(), i, v.len());
    assert(out@ =~= v@.skip(i as int));
    out
}

/// Clean an author line: trim it and drop a leading "By " or "by ".
pub fn strip_by_prefix(author: &str) -> (r: String)
    ensures
        r@ == author_name(author@),
{
    let v = chars_of(author);
    let t = trim_chars(v.as_slice());
    let p1 = chars_of("By ");
    let p2 = chars_of("by ");
    let s1 = strip_prefix_repeated(&t, &p1);
    let s2 = strip_prefix_repeated(&s1, &p2);
    let t2 = trim_chars(s2.as_slice());
    string_from_chars(t2.as_slice())
}

// ── Boilerplate and paywalls ────────────────────────────────────────

/// A lower-cased class or id that marks navigation, ads and other page
/// furniture.
pub open spec fn is_boilerplate_name(l: Seq<char>) -> bool {
    ||| contains_seq(l, "nav"@)
    ||| contains_seq(l, "menu"@)
    ||| contains_seq(l, "header"@)
    ||| contains_seq(l, "footer"@)
    ||| contains_seq(l, "sidebar"@)
    ||| contains_seq(l, "comment"@)
    ||| contains_seq(l, "advert"@)
    ||| contains_seq(l, "ad-"@)
    ||| contains_seq(l, "promo"@)
    ||| contains_seq(l, "subscribe"@)
    ||| contains_seq(l, "related"@)
    ||| contains_seq(l, "social"@)
    ||| contains_seq(l, "share"@)
}

/// Whether a class or id attribute value names page furniture
/// (case-insensitively).
pub fn has_boilerplate_keyword(value: Option<&str>) -> (r: bool)
    ensures
        r == match value {
            Some(raw) => is_boilerplate_name(lowercase(raw@)),
            None => false,
        },
{
    let raw = match value {
        Some(raw) => raw,
        None => return false,
    };
    let lower = to_lowercase(raw);
    let l = lower.as_str();
    str_contains(l, "nav") || str_contains(l, "menu") || str_contains(l, "header")
        || str_contains(l, "footer") || str_contains(l, "sidebar") || str_contains(l, "comment")
        || str_contains(l, "advert") || str_contains(l, "ad-") || str_contains(l, "promo")
        || str_contains(l, "subscribe") || str_contains(l, "related") || str_contains(l, "social")
        || str_contains(l, "share")
}

/// A lower-cased page that carries one of the usual paywall notices.
pub open spec fn has_paywall_marker(l: Seq<char>) -> bool {
    ||| contains_seq(l, "subscriber only"@)
    ||| contains_seq(l, "premium content"@)
    ||| contains_seq(l, "subscribe now"@)
    ||| contains_seq(l, "subscribe to continue"@)
    ||| contains_seq(l, "sign in to continue"@)
    ||| contains_seq(l, "paywall"@)
}

/// Fewest words an extracted article can have without being suspect.
pub const MIN_COMPLETE_WORDS: usize = 250;

/// A page is potentially incomplete when it shows a paywall notice and the
/// extracted text has fewer than 250 words.
pub fn is_potentially_incomplete(raw_html: &str, extracted_text: &str) -> (r: bool)
    ensures
        r == (has_paywall_marker(lowercase(raw_html@)) && word_count(extracted_text@) < 250),
{
    let lower = to_lowercase(raw_html);
    let l = lower.as_str();
    let has_paywall_marker = str_contains(l, "subscriber only") || str_contains(
        l,
        "premium content",
    ) || str_contains(l, "subscribe now") || str_contains(l, "subscribe to continue")
        || str_contains(l, "sign in to continue") || str_contains(l, "paywall");
    let short_content = count_words(extracted_text) < MIN_COMPLETE_WORDS;
    has_paywall_marker && short_content
}

// ── Content hash ────────────────────────────────────────────────────

/// The SHA-256 digest of `data`.
pub uninterp spec fn sha256(data: Seq<u8>) -> Seq<u8>;

/// Calls `sha2::Sha256::digest`, whose result is the SHA-256 digest of the
/// input: 32 bytes that depend on the input alone.
#[verifier::external_body]
fn sha256_digest(data: &[u8]) -> (r: Vec<u8>)
    ensures
        r@ == sha256(data@),
        r@.len() == 32,
{
    <sha2::Sha256 as sha2::Digest>::digest(data).to_vec()
}

/// Lower-case hexadecimal digit for a value below 16.
pub open spec fn hex_digit(n: int) -> char {
    if n < 10 {
        (48 + n) as char
    } else {
        (87 + n) as char
    }
}

/// Two lower-case hex digits per byte, most significant first.
pub open spec fn hex_lower(b: Seq<u8>) -> Seq<char>
    decreases b.len(),
{
    if b.len() == 0 {
        Seq::empty()
    } else {
        hex_lower(b.drop_last()) + seq![hex_digit(b.last() as int / 16), hex_digit(b.last() as int % 16)]
    }
}

fn hex_char(n: u8) -> (c: char)
    requires
        n < 16,
    ensures
        c == hex_digit(n as int),
{
    if n < 10 {
        (n + 48) as char
    } else {
        (n + 87) as char
    }
}

/// Lower-case hexadecimal text of `bytes`.
pub fn to_hex_lower(bytes: &[u8]) -> (r: String)
    ensures
        r@ == hex_lower(bytes@),
{
    let mut out = String::new();
    let mut i: usize = 0;
    while i < bytes.len()
        invariant
            i <= bytes@.len(),
            out@ == hex_lower(bytes@.take(i as int)),
        decreases bytes@.len() - i,
    {
        let b = bytes[i];
        assert(bytes@.take(i + 1).drop_last() =~= bytes@.take(i as int));
        crate::chars::push_char(&mut out, hex_char(b / 16));
        crate::chars::push_char(&mut out, hex_char(b % 16));
        i += 1;
        assert(out@ =~= hex_lower(bytes@.take(i as int)));
    }
    assert(bytes@.take(bytes@.len() as int) =~= bytes@);
    out
}

/// Hash of the whitespace-normalised text: lower-case hex of its SHA-256.
pub fn compute_content_hash(text: &str) -> (r: String)
    ensures
        r@ == hex_lower(sha256(encode_utf8(normalized(text@)))),
{
    let normalized_text = normalize_whitespace(text);
    let bytes = normalized_text.as_str().as_bytes();
    let digest = sha256_digest(bytes);
    to_hex_lower(digest.as_slice())
}

// ── Dates ───────────────────────────────────────────────────────────

/// The instant a date found in a page names: the trimmed text read as
/// RFC 3339, else RFC 2822, else as a UTC date-time in one of three layouts,
/// else as a date (midnight UTC) in one of three layouts.
pub open spec fn page_date(input: Seq<char>) -> Option<(i64, u32)> {
    let c = trim_ws(input);
    if rfc3339_instant(c) is Some {
        rfc3339_instant(c)
    } else if rfc2822_instant(c) is Some {
        rfc2822_instant(c)
    } else if naive_datetime_instant(c, "%Y-%m-%d %H:%M:%S"@) is Some {
        naive_datetime_instant(c, "%Y-%m-%d %H:%M:%S"@)
    } else if naive_datetime_instant(c, "%Y-%m-%dT%H:%M:%S"@) is Some {
        naive_datetime_instant(c, "%Y-%m-%dT%H:%M:%S"@)
    } else if naive_datetime_instant(c, "%Y-%m-%d %H:%M"@) is Some {
        naive_datetime_instant(c, "%Y-%m-%d %H:%M"@)
    } else if naive_date_midnight(c, "%Y-%m-%d"@) is Some {
        Some((naive_date_midnight(c, "%Y-%m-%d"@)->0, 0u32))
    } else if naive_date_midnight(c, "%B %d, %Y"@) is Some {
        Some((naive_date_midnight(c, "%B %d, %Y"@)->0, 0u32))
    } else if naive_date_midnight(c, "%b %d, %Y"@) is Some {
        Some((naive_date_midnight(c, "%b %d, %Y"@)->0, 0u32))
    } else {
        None
    }
}

/// Read a publication date found in a page, trying the usual layouts in
/// turn.
pub fn parse_datetime(input: &str) -> (r: Option<(i64, u32)>)
    ensures
        r == page_date(input@),
{
    let trimmed = trim_str(input);
    let c = trimmed.as_str();
    let r = parse_rfc3339(c);
    if r.is_some() {
        return r;
    }
    let r = parse_rfc2822(c);
    if r.is_some() {
        return r;
    }
    let r = parse_naive_datetime(c, "%Y-%m-%d %H:%M:%S");
    if r.is_some() {
        return r;
    }
    let r = parse_naive_datetime(c, "%Y-%m-%dT%H:%M:%S");
    if r.is_some() {
        return r;
    }
    let r = parse_naive_datetime(c, "%Y-%m-%d %H:%M");
    if r.is_some() {
        return r;
    }
    if let Some(t) = parse_naive_date(c, "%Y-%m-%d") {
        return Some((t, 0));
    }
    if let Some(t) = parse_naive_date(c, "%B %d, %Y") {
        return Some((t, 0));
    }
    if let Some(t) = parse_naive_date(c, "%b %d, %Y") {
        return Some((t, 0));
    }
    None
}

// ── Pages ───────────────────────────────────────────────────────────

/// A response is read as HTML when its lower-cased content type names HTML
/// or XHTML, or its body holds an `html`, `article` or `body` tag.
pub open spec fn looks_like_html(content_type: Seq<char>, body: Seq<char>) -> bool {
    ||| contains_seq(content_type, "text/html"@)
    ||| contains_seq(content_type, "application/xhtml+xml"@)
    ||| contains_seq(body, "<html"@)
    ||| contains_seq(body, "<article"@)
    ||| contains_seq(body, "<body"@)
}

/// Whether a response is an HTML page, judged by its content type
/// (compared lower-cased) and its body.
pub fn is_html_document(content_type: &str, body: &str) -> (r: bool)
    ensures
        r == looks_like_html(lowercase(content_type@), body@),
{
    let lower = to_lowercase(content_type);
    let content_type = lower.as_str();
    str_contains(content_type, "text/html") || str_contains(content_type, "application/xhtml+xml")
        || str_contains(body, "<html") || str_contains(body, "<article") || str_contains(
        body,
        "<body",
    )
}

/// What the HTML reader found in a page: its readable text, and the title,
/// author and publication instant given in its markup.
pub struct PageParts {
    pub text: String,
    pub title: Option<String>,
    pub author: Option<String>,
    pub published_at: Option<(i64, u32)>,
}

/// The outcome of extracting an article.
pub struct ExtractedContent {
    pub text: String,
    pub title: Option<String>,
    pub author: Option<String>,
    pub published_at: Option<(i64, u32)>,
    pub word_count: usize,
    pub content_hash: String,
    pub potentially_incomplete: bool,
}

/// The text kept of an article: whitespace-normalised, then cut to the
/// byte budget.
pub open spec fn kept_text_bytes(raw: Seq<char>, max_bytes: int) -> Seq<u8> {
    fitting_prefix_bytes(normalized(raw), max_bytes)
}

/// Finish an extraction once the body is known (already cut to the byte
/// budget): an HTML page brings the parts its reader found, any other body
/// is its own text. The text is normalised and cut to the budget, then
/// counted, hashed and checked for paywalls against the body.
pub fn finish_extraction(body: &str, html: Option<PageParts>, max_bytes: usize) -> (r:
    ExtractedContent)
    ensures
        encode_utf8(r.text@) == kept_text_bytes(
            match html {
                Some(p) => p.text@,
                None => normalized(body@),
            },
            max_bytes as int,
        ),
        r.title == (match html {
            Some(p) => p.title,
            None => None,
        }),
        r.author == (match html {
            Some(p) => p.author,
            None => None,
        }),
        r.published_at == (match html {
            Some(p) => p.published_at,
            None => None,
        }),
        r.word_count == word_count(r.text@),
        r.content_hash@ == hex_lower(sha256(encode_utf8(normalized(r.text@)))),
        r.potentially_incomplete == (has_paywall_marker(lowercase(body@)) && word_count(r.text@)
            < 250),
{
    let (raw, title, author, published_at) = match html {
        Some(p) => (p.text, p.title, p.author, p.published_at),
        None => (normalize_whitespace(body), None, None, None),
    };
    let text = normalize_whitespace(raw.as_str());
    let text = truncate_utf8(text.as_str(), max_bytes);
    let word_count = count_words(text.as_str());
    let content_hash = compute_content_hash(text.as_str());
    let potentially_incomplete = is_potentially_incomplete(body, text.as_str());
    ExtractedContent {
        text,
        title,
        author,
        published_at,
        word_count,
        content_hash,
        potentially_incomplete,
    }
}

} // verus!
