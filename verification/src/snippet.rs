//! Context snippets for search results: a window of an article's text
//! around the earliest occurrence of a query term. Positions are byte
//! offsets into the UTF-8 text.
use vstd::prelude::*;
use vstd::string::StringSliceAdditionalSpecFns;
use vstd::utf8::{
    decode_utf8, encode_utf8, is_char_boundary, is_char_boundary_iff_not_is_continuation_byte,
    is_char_boundary_start_end_of_seq, is_continuation_byte, valid_utf8, valid_utf8_split,
};

use crate::chars::push_char;
use crate::embeddings::byte_len;
use crate::unicode::{lowercase, to_lowercase};

verus! {

broadcast use vstd::utf8::group_utf8_lib;

/// Longest stretch of text a snippet shows before it is extended to a word
/// end.
pub const SNIPPET_MAX_LEN: usize = 200;

/// How much of the text, in bytes, is searched for query terms.
pub const SNIPPET_SCAN_LIMIT: usize = 2000;

/// How far before a match a snippet may start when no space precedes it.
pub const SNIPPET_LEAD: usize = 40;

/// The byte of an ASCII space.
pub const SPACE: u8 = 32;

// ── Byte search ─────────────────────────────────────────────────────

/// `needle` occurs in `hay` at byte `i`.
pub open spec fn occurs_at(hay: Seq<u8>, needle: Seq<u8>, i: int) -> bool {
    0 <= i && i + needle.len() <= hay.len() && hay.subrange(i, i + needle.len()) == needle
}

/// The first position at or after `i` where `needle` occurs in `hay`. For
/// UTF-8 text and a non-empty UTF-8 needle this is what `str::find` gives,
/// since a match can only start at a character boundary.
pub open spec fn first_match_from(hay: Seq<u8>, needle: Seq<u8>, i: int) -> Option<int>
    decreases hay.len() + 1 - i,
{
    if i < 0 || i + needle.len() > hay.len() {
        None
    } else if occurs_at(hay, needle, i) {
        Some(i)
    } else {
        first_match_from(hay, needle, i + 1)
    }
}

/// The earliest position where any of `terms` occurs in `hay`.
pub open spec fn earliest_match(hay: Seq<u8>, terms: Seq<Seq<u8>>) -> Option<int>
    decreases terms.len(),
{
    if terms.len() == 0 {
        None
    } else {
        let best = earliest_match(hay, terms.drop_last());
        match first_match_from(hay, terms.last(), 0) {
            Some(p) => if best is None || p < best->0 {
                Some(p)
            } else {
                best
            },
            None => best,
        }
    }
}

/// Whether `needle` occurs in `hay` at byte `i`.
fn bytes_match_at(hay: &[u8], needle: &[u8], i: usize) -> (r: bool)
    requires
        i + needle@.len() <= hay@.len(),
    ensures
        r == occurs_at(hay@, needle@, i as int),
{
    let n = hay.len();
    let mut k: usize = 0;
    while k < needle.len()
        invariant
            n == hay@.len(),
            i + needle@.len() <= hay@.len(),
            k <= needle@.len(),
            forall|j: int| 0 <= j < k ==> hay@[i + j] == needle@[j],
        decreases needle@.len() - k,
    {
        if hay[i + k] != needle[k] {
            assert(hay@.subrange(i as int, i + needle@.len())[k as int] != needle@[k as int]);
            return false;
        }
        k += 1;
    }
    assert(hay@.subrange(i as int, i + needle@.len()) =~= needle@);
    true
}

/// The first position where `needle` occurs in `hay`.
pub fn find_bytes(hay: &[u8], needle: &[u8]) -> (r: Option<usize>)
    ensures
        match r {
            Some(p) => first_match_from(hay@, needle@, 0) == Some(p as int),
            None => first_match_from(hay@, needle@, 0) is None,
        },
{
    if needle.len() > hay.len() {
        return None;
    }
    let last = hay.len() - needle.len();
    let mut i: usize = 0;
    loop
        invariant
            needle@.len() <= hay@.len(),
            last == hay@.len() - needle@.len(),
            i <= last,
            first_match_from(hay@, needle@, 0) == first_match_from(hay@, needle@, i as int),
        decreases last - i,
    {
        if bytes_match_at(hay, needle, i) {
            return Some(i);
        }
        if i == last {
            assert(first_match_from(hay@, needle@, i + 1) is None);
            return None;
        }
        i += 1;
    }
}

/// The earliest position where any of the terms occurs in `hay`.
pub fn earliest_term(hay: &[u8], terms: &[String]) -> (r: Option<usize>)
    ensures
        match r {
            Some(p) => earliest_match(hay@, terms@.map_values(|t: String| encode_utf8(t@)))
                == Some(p as int),
            None => earliest_match(hay@, terms@.map_values(|t: String| encode_utf8(t@))) is None,
        },
{
    let ghost ts = terms@.map_values(|t: String| encode_utf8(t@));
    let mut best: Option<usize> = None;
    let mut i: usize = 0;
    while i < terms.len()
        invariant
            i <= terms@.len(),
            ts == terms@.map_values(|t: String| encode_utf8(t@)),
            match best {
                Some(p) => earliest_match(hay@, ts.take(i as int)) == Some(p as int),
                None => earliest_match(hay@, ts.take(i as int)) is None,
            },
        decreases terms@.len() - i,
    {
        assert(ts.take(i + 1).drop_last() =~= ts.take(i as int));
        let found = find_bytes(hay, terms[i].as_str().as_bytes());
        if let Some(p) = found {
            let replace = match best {
                Some(b) => p < b,
                None => true,
            };
            if replace {
                best = Some(p);
            }
        }
        i += 1;
    }
    assert(ts.take(ts.len() as int) =~= ts);
    best
}

// ── The window ──────────────────────────────────────────────────────

/// The last space before byte `end`.
pub open spec fn last_space_before(b: Seq<u8>, end: int) -> Option<int>
    decreases end,
{
    if end <= 0 {
        None
    } else if b[end - 1] == SPACE {
        Some(end - 1)
    } else {
        last_space_before(b, end - 1)
    }
}

/// The first space at or after byte `i`.
pub open spec fn first_space_from(b: Seq<u8>, i: int) -> Option<int>
    decreases b.len() - i,
{
    if i < 0 || i >= b.len() {
        None
    } else if b[i] == SPACE {
        Some(i)
    } else {
        first_space_from(b, i + 1)
    }
}

/// Where a snippet for a match at `start` begins: at the text's start when
/// the match is near it, else just after the last space before the match,
/// else a little before the match.
pub open spec fn window_begin(b: Seq<u8>, start: int) -> int {
    if start > SNIPPET_LEAD {
        match last_space_before(b, start) {
            Some(p) => p + 1,
            None => start - SNIPPET_LEAD,
        }
    } else {
        0
    }
}

/// Where the stretch of `SNIPPET_MAX_LEN` bytes from `begin` ends, within
/// the text.
pub open spec fn stretch_end(b: Seq<u8>, begin: int) -> int {
    if begin + SNIPPET_MAX_LEN < b.len() {
        begin + SNIPPET_MAX_LEN
    } else {
        b.len() as int
    }
}

/// Where a snippet beginning at `begin` ends: at the first space from the
/// end of its stretch, or the stretch's end when none follows.
pub open spec fn window_end(b: Seq<u8>, begin: int) -> int {
    let end = stretch_end(b, begin);
    if end < b.len() {
        match first_space_from(b, end) {
            Some(p) => p,
            None => end,
        }
    } else {
        end
    }
}

/// Three full stops.
pub open spec fn ellipsis() -> Seq<u8> {
    seq![46u8, 46u8, 46u8]
}

/// The snippet for a match at `start`: the window, with an ellipsis on each
/// side where text was cut.
pub open spec fn snippet_bytes(b: Seq<u8>, start: int) -> Seq<u8> {
    let s0 = window_begin(b, start);
    let s1 = window_end(b, s0);
    (if s0 > 0 {
        ellipsis()
    } else {
        Seq::empty()
    }) + b.subrange(s0, s1) + (if s1 < b.len() {
        ellipsis()
    } else {
        Seq::empty()
    })
}

/// The window for a match at `start` can be cut out of the text: the match,
/// a fallback beginning and the stretch's end all fall on character
/// boundaries where they are used.
pub open spec fn window_cuttable(b: Seq<u8>, start: int) -> bool {
    &&& start > SNIPPET_LEAD ==> is_char_boundary(b, start)
    &&& (start > SNIPPET_LEAD && last_space_before(b, start) is None) ==> is_char_boundary(
        b,
        start - SNIPPET_LEAD,
    )
    &&& stretch_end(b, window_begin(b, start)) < b.len() ==> is_char_boundary(
        b,
        stretch_end(b, window_begin(b, start)),
    )
}

/// The position of the last space before byte `end`.
fn last_space(b: &[u8], end: usize) -> (r: Option<usize>)
    requires
        end <= b@.len(),
    ensures
        match r {
            Some(p) => last_space_before(b@, end as int) == Some(p as int) && p < end && b@[p as int]
                == SPACE,
            None => last_space_before(b@, end as int) is None,
        },
{
    let mut e: usize = end;
    while e > 0
        invariant
            e <= end <= b@.len(),
            last_space_before(b@, end as int) == last_space_before(b@, e as int),
        decreases e,
    {
        if b[e - 1] == SPACE {
            return Some(e - 1);
        }
        e -= 1;
    }
    None
}

/// The position of the first space at or after byte `i`.
fn first_space(b: &[u8], i: usize) -> (r: Option<usize>)
    ensures
        match r {
            Some(p) => first_space_from(b@, i as int) == Some(p as int) && i <= p < b@.len()
                && b@[p as int] == SPACE,
            None => first_space_from(b@, i as int) is None,
        },
{
    let mut k: usize = i;
    while k < b.len()
        invariant
            i <= k,
            first_space_from(b@, i as int) == first_space_from(b@, k as int),
        decreases b@.len() - k,
    {
        if b[k] == SPACE {
            return Some(k);
        }
        k += 1;
    }
    None
}

/// UTF-8 encoding distributes over concatenation.
proof fn lemma_encode_concat(a: Seq<char>, c: Seq<char>)
    ensures
        encode_utf8(a + c) == encode_utf8(a) + encode_utf8(c),
    decreases a.len(),
{
    if a.len() == 0 {
        assert(a + c =~= c);
    } else {
        assert((a + c).drop_first() =~= a.drop_first() + c);
        lemma_encode_concat(a.drop_first(), c);
        assert((a + c)[0] == a[0]);
    }
}

/// Three full stops take three bytes.
proof fn lemma_encode_dots()
    ensures
        encode_utf8(seq!['.', '.', '.']) == ellipsis(),
{
    let d = seq!['.', '.', '.'];
    let v: u32 = '.' as u32;
    assert(v == 46);
    assert(v & 0x7F == v) by (bit_vector)
        requires
            v == 46,
    ;
    assert(d.drop_first() =~= seq!['.', '.']);
    assert(d.drop_first().drop_first() =~= seq!['.']);
    assert(d.drop_first().drop_first().drop_first() =~= Seq::<char>::empty());
    reveal_with_fuel(encode_utf8, 4);
    assert(encode_utf8(d) =~= ellipsis());
}

/// The byte after a space starts a character.
proof fn lemma_boundary_after_space(b: Seq<u8>, p: int)
    requires
        valid_utf8(b),
        0 <= p < b.len(),
        b[p] == SPACE,
    ensures
        is_char_boundary(b, p + 1),
{
    is_char_boundary_start_end_of_seq(b);
    if p + 1 < b.len() {
        is_char_boundary_iff_not_is_continuation_byte(b, p);
        valid_utf8_split(b, p);
        let tail = b.subrange(p, b.len() as int);
        assert(tail[0] == SPACE);
        assert(valid_utf8(tail));
        let rest = tail.subrange(1, tail.len() as int);
        assert(vstd::utf8::pop_first_scalar(tail) == rest);
        assert(valid_utf8(rest));
        assert(rest[0] == b[p + 1]);
        assert(!is_continuation_byte(b[p + 1]));
        is_char_boundary_iff_not_is_continuation_byte(b, p + 1);
    }
}

/// A boundary before a boundary `j` is a boundary of the text cut at `j`.
proof fn lemma_boundary_in_prefix(b: Seq<u8>, i: int, j: int)
    requires
        valid_utf8(b),
        0 <= i <= j <= b.len(),
        is_char_boundary(b, i),
        is_char_boundary(b, j),
    ensures
        is_char_boundary(b.subrange(0, j), i),
{
    let h = b.subrange(0, j);
    valid_utf8_split(b, j);
    is_char_boundary_start_end_of_seq(h);
    if 0 < i < j {
        is_char_boundary_iff_not_is_continuation_byte(b, i);
        assert(h[i] == b[i]);
        is_char_boundary_iff_not_is_continuation_byte(h, i);
    }
}

/// Whether the window for a match at `start` can be cut out of the text.
pub fn can_cut_window(content: &str, start: usize) -> (r: bool)
    ensures
        r == window_cuttable(content.spec_bytes(), start as int),
{
    let b = content.as_bytes();
    let len = b.len();
    let begin: usize;
    proof {
        vstd::utf8::encode_utf8_valid_utf8(content@);
    }
    if start > SNIPPET_LEAD {
        if !content.is_char_boundary(start) {
            return false;
        }
        match last_space(b, start) {
            Some(p) => {
                begin = p + 1;
            },
            None => {
                if !content.is_char_boundary(start - SNIPPET_LEAD) {
                    return false;
                }
                begin = start - SNIPPET_LEAD;
            },
        }
    } else {
        begin = 0;
    }
    assert(begin == window_begin(b@, start as int));
    if len - begin > SNIPPET_MAX_LEN {
        content.is_char_boundary(begin + SNIPPET_MAX_LEN)
    } else {
        true
    }
}

/// The snippet for a match at byte `start`, which must leave a window that
/// can be cut out of the text.
pub fn snippet_at(content: &str, start: usize) -> (r: String)
    requires
        window_cuttable(content.spec_bytes(), start as int),
    ensures
        encode_utf8(r@) == snippet_bytes(content.spec_bytes(), start as int),
{
    let ghost bs = content.spec_bytes();
    proof {
        vstd::utf8::encode_utf8_valid_utf8(content@);
        is_char_boundary_start_end_of_seq(bs);
    }
    let b = content.as_bytes();
    let len = b.len();
    let begin: usize;
    if start > SNIPPET_LEAD {
        match last_space(b, start) {
            Some(p) => {
                proof {
                    lemma_boundary_after_space(bs, p as int);
                }
                begin = p + 1;
            },
            None => {
                begin = start - SNIPPET_LEAD;
            },
        }
    } else {
        begin = 0;
    }
    assert(begin == window_begin(bs, start as int));
    assert(is_char_boundary(bs, begin as int));
    let end: usize = if len - begin > SNIPPET_MAX_LEN {
        begin + SNIPPET_MAX_LEN
    } else {
        len
    };
    assert(end == stretch_end(bs, begin as int));
    let finish: usize = if end < len {
        match first_space(b, end) {
            Some(p) => {
                proof {
                    is_char_boundary_iff_not_is_continuation_byte(bs, p as int);
                }
                p
            },
            None => end,
        }
    } else {
        end
    };
    assert(finish == window_end(bs, begin as int));
    assert(is_char_boundary(bs, finish as int));
    proof {
        lemma_boundary_in_prefix(bs, begin as int, finish as int);
    }
    let (head, _tail) = content.split_at(finish);
    let (_skip, mid) = head.split_at(begin);
    assert(mid.spec_bytes() =~= bs.subrange(begin as int, finish as int));
    let mut out = String::new();
    let ghost dots = seq!['.', '.', '.'];
    proof {
        lemma_encode_dots();
    }
    if begin > 0 {
        push_char(&mut out, '.');
        push_char(&mut out, '.');
        push_char(&mut out, '.');
        assert(out@ =~= dots);
    }
    let ghost pre = out@;
    assert(encode_utf8(pre) == (if begin > 0 {
        ellipsis()
    } else {
        Seq::empty()
    }));
    out.append(mid);
    let ghost body = out@;
    if finish < len {
        push_char(&mut out, '.');
        push_char(&mut out, '.');
        push_char(&mut out, '.');
        assert(out@ =~= body + dots);
    } else {
        assert(out@ =~= body + Seq::<char>::empty());
    }
    let ghost suf = if finish < len {
        dots
    } else {
        Seq::<char>::empty()
    };
    proof {
        assert(out@ == body + suf);
        assert(encode_utf8(suf) == (if finish < len {
            ellipsis()
        } else {
            Seq::empty()
        }));
        lemma_encode_concat(pre, mid@);
        lemma_encode_concat(body, suf);
        assert(encode_utf8(mid@) == bs.subrange(begin as int, finish as int));
        assert(encode_utf8(out@) == encode_utf8(pre) + bs.subrange(begin as int, finish as int)
            + encode_utf8(suf));
    }
    out
}

// ── Snippets ────────────────────────────────────────────────────────

/// How many bytes at the start of the text are searched for terms.
pub open spec fn scan_len(b: Seq<u8>) -> int {
    if b.len() < SNIPPET_SCAN_LIMIT {
        b.len() as int
    } else {
        SNIPPET_SCAN_LIMIT as int
    }
}

/// Where the snippet of a text starts: the earliest occurrence of a term in
/// the lower-cased searched part, else the start.
pub open spec fn snippet_start(b: Seq<u8>, terms: Seq<String>) -> int {
    let region = lowercase(decode_utf8(b.subrange(0, scan_len(b))));
    match earliest_match(encode_utf8(region), terms.map_values(|t: String| encode_utf8(t@))) {
        Some(p) => p,
        None => 0,
    }
}

/// The snippet of a text can be made: the searched part ends on a character
/// boundary and the window around the start can be cut out.
pub open spec fn snippet_possible(b: Seq<u8>, terms: Seq<String>) -> bool {
    is_char_boundary(b, scan_len(b)) && window_cuttable(b, snippet_start(b, terms))
}

/// A snippet of `content` around the earliest of the (lower-cased) terms
/// found in its first 2000 bytes. `None` where the byte positions involved
/// would cut through a character.
pub fn generate_snippet(content: &str, terms: &[String]) -> (r: Option<String>)
    ensures
        r is Some <==> snippet_possible(content.spec_bytes(), terms@),
        r matches Some(s) ==> encode_utf8(s@) == snippet_bytes(
            content.spec_bytes(),
            snippet_start(content.spec_bytes(), terms@),
        ),
{
    let ghost bs = content.spec_bytes();
    let len = byte_len(content);
    let limit: usize = if len < SNIPPET_SCAN_LIMIT {
        len
    } else {
        SNIPPET_SCAN_LIMIT
    };
    if !content.is_char_boundary(limit) {
        return None;
    }
    let (region, _rest) = content.split_at(limit);
    proof {
        assert(region.spec_bytes() == bs.subrange(0, limit as int));
        vstd::utf8::encode_utf8_decode_utf8(region@);
    }
    let lower = to_lowercase(region);
    let best = earliest_term(lower.as_str().as_bytes(), terms);
    let start: usize = match best {
        Some(p) => p,
        None => 0,
    };
    assert(start == snippet_start(bs, terms@));
    if !can_cut_window(content, start) {
        return None;
    }
    Some(snippet_at(content, start))
}

} // verus!
