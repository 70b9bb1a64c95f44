//! robots.txt rules: parsing the groups that apply to a crawler and
//! deciding whether a path may be fetched.
use vstd::prelude::*;
use vstd::utf8::{encode_scalar, encode_utf8};

use crate::chars::{
    chars_eq, chars_of, slice_to_vec, starts_with_seq, str_starts_with, string_from_chars,
    trim_chars, trim_ws,
};
use crate::embeddings::byte_len;
use crate::unicode::{lowercase, to_lowercase};

verus! {

/// Allow and disallow path prefixes that apply to one crawler.
#[derive(Debug)]
pub struct RobotsRules {
    pub allow_paths: Vec<String>,
    pub disallow_paths: Vec<String>,
}

/// Abstract robots rules: allowed and disallowed path prefixes.
pub struct RulesView {
    pub allow: Seq<Seq<char>>,
    pub disallow: Seq<Seq<char>>,
}

impl View for RobotsRules {
    type V = RulesView;

    open spec fn view(&self) -> RulesView {
        RulesView {
            allow: strings_view(self.allow_paths@),
            disallow: strings_view(self.disallow_paths@),
        }
    }
}

/// The views of a sequence of strings.
pub open spec fn strings_view(v: Seq<String>) -> Seq<Seq<char>> {
    v.map_values(|p: String| p@)
}

/// Length in UTF-8 bytes of the longest non-empty prefix in `prefixes` that
/// `path` starts with, or 0.
pub open spec fn longest_match(prefixes: Seq<Seq<char>>, path: Seq<char>) -> nat
    decreases prefixes.len(),
{
    if prefixes.len() == 0 {
        0
    } else {
        let rest = longest_match(prefixes.drop_last(), path);
        let p = prefixes.last();
        if p.len() > 0 && starts_with_seq(path, p) && encode_utf8(p).len() > rest {
            encode_utf8(p).len()
        } else {
            rest
        }
    }
}

/// A path is allowed unless a disallow rule matches and no allow rule
/// matches at least as long a prefix.
pub open spec fn path_allowed(rules: RulesView, path: Seq<char>) -> bool {
    let d = longest_match(rules.disallow, path);
    d == 0 || longest_match(rules.allow, path) >= d
}

/// The prefix `p` is a rule that applies to `path`: non-empty and a prefix
/// of it.
pub open spec fn rule_applies(p: Seq<char>, path: Seq<char>) -> bool {
    p.len() > 0 && starts_with_seq(path, p)
}

/// The length compared for a list of rules is the greatest byte length of
/// the rules that apply to the path: no applying rule is longer, one of
/// them has exactly that length, and it is 0 when none applies.
pub proof fn lemma_longest_match_is_max(prefixes: Seq<Seq<char>>, path: Seq<char>)
    ensures
        forall|k: int|
            0 <= k < prefixes.len() && rule_applies(#[trigger] prefixes[k], path) ==> encode_utf8(
                prefixes[k],
            ).len() <= longest_match(prefixes, path),
        longest_match(prefixes, path) > 0 ==> exists|k: int|
            0 <= k < prefixes.len() && rule_applies(#[trigger] prefixes[k], path) && encode_utf8(
                prefixes[k],
            ).len() == longest_match(prefixes, path),
        (forall|k: int| 0 <= k < prefixes.len() ==> !rule_applies(#[trigger] prefixes[k], path))
            ==> longest_match(prefixes, path) == 0,
    decreases prefixes.len(),
{
    if prefixes.len() > 0 {
        let prev = prefixes.drop_last();
        lemma_longest_match_is_max(prev, path);
        assert forall|k: int|
            0 <= k < prefixes.len() && rule_applies(#[trigger] prefixes[k], path) implies encode_utf8(
            prefixes[k],
        ).len() <= longest_match(prefixes, path) by {
            if k < prev.len() {
                assert(prefixes[k] == prev[k]);
            }
        }
        if longest_match(prefixes, path) > 0 {
            if longest_match(prefixes, path) == longest_match(prev, path) {
                let k = choose|k: int|
                    0 <= k < prev.len() && rule_applies(#[trigger] prev[k], path) && encode_utf8(
                        prev[k],
                    ).len() == longest_match(prev, path);
                assert(prefixes[k] == prev[k]);
            } else {
                assert(rule_applies(prefixes[prefixes.len() - 1], path));
            }
        }
        if forall|k: int| 0 <= k < prefixes.len() ==> !rule_applies(#[trigger] prefixes[k], path) {
            assert forall|k: int| 0 <= k < prev.len() implies !rule_applies(#[trigger] prev[k], path) by {
                assert(prefixes[k] == prev[k]);
            }
            assert(!rule_applies(prefixes[prefixes.len() - 1], path));
        }
    }
}

/// A path may be fetched exactly when every disallow rule that applies to
/// it is matched by an allow rule that applies to it and is at least as
/// long in bytes.
pub proof fn lemma_allowed_by_longest_rule(rules: RulesView, path: Seq<char>)
    ensures
        path_allowed(rules, path) <==> forall|d: int|
            0 <= d < rules.disallow.len() && rule_applies(#[trigger] rules.disallow[d], path)
                ==> exists|a: int|
                0 <= a < rules.allow.len() && rule_applies(#[trigger] rules.allow[a], path)
                    && encode_utf8(rules.allow[a]).len() >= encode_utf8(rules.disallow[d]).len(),
{
    lemma_longest_match_is_max(rules.allow, path);
    lemma_longest_match_is_max(rules.disallow, path);
    let dl = longest_match(rules.disallow, path);
    let al = longest_match(rules.allow, path);
    if path_allowed(rules, path) {
        assert forall|d: int|
            0 <= d < rules.disallow.len() && rule_applies(#[trigger] rules.disallow[d], path)
            implies exists|a: int|
            0 <= a < rules.allow.len() && rule_applies(#[trigger] rules.allow[a], path)
                && encode_utf8(rules.allow[a]).len() >= encode_utf8(rules.disallow[d]).len() by {
            assert(encode_utf8(rules.disallow[d]).len() > 0) by {
                lemma_encode_nonempty(rules.disallow[d]);
            }
            let a = choose|a: int|
                0 <= a < rules.allow.len() && rule_applies(#[trigger] rules.allow[a], path)
                    && encode_utf8(rules.allow[a]).len() == al;
        }
    } else {
        let d = choose|d: int|
            0 <= d < rules.disallow.len() && rule_applies(#[trigger] rules.disallow[d], path)
                && encode_utf8(rules.disallow[d]).len() == dl;
        if exists|a: int|
            0 <= a < rules.allow.len() && rule_applies(#[trigger] rules.allow[a], path)
                && encode_utf8(rules.allow[a]).len() >= encode_utf8(rules.disallow[d]).len() {
            let a = choose|a: int|
                0 <= a < rules.allow.len() && rule_applies(#[trigger] rules.allow[a], path)
                    && encode_utf8(rules.allow[a]).len() >= encode_utf8(rules.disallow[d]).len();
            assert(encode_utf8(rules.allow[a]).len() <= al);
        }
    }
}

/// A non-empty text has a non-empty UTF-8 encoding.
proof fn lemma_encode_nonempty(p: Seq<char>)
    requires
        p.len() > 0,
    ensures
        encode_utf8(p).len() > 0,
{
    assert(encode_scalar(p[0] as u32).len() >= 1);
    assert(encode_utf8(p) == encode_scalar(p[0] as u32) + encode_utf8(p.drop_first()));
}

/// Longest matching prefix, in bytes.
fn longest_matching(prefixes: &Vec<String>, path: &str) -> (n: usize)
    ensures
        n == longest_match(strings_view(prefixes@), path@),
{
    let ghost ps = strings_view(prefixes@);
    let mut best: usize = 0;
    let mut i: usize = 0;
    while i < prefixes.len()
        invariant
            i <= prefixes@.len(),
            ps == strings_view(prefixes@),
            best == longest_match(ps.take(i as int), path@),
        decreases prefixes@.len() - i,
    {
        let p = prefixes[i].as_str();
        assert(ps.take(i + 1).drop_last() =~= ps.take(i as int));
        assert(ps.take(i + 1).last() == p@);
        let len = byte_len(p);
        if len > 0 && str_starts_with(path, p) && len > best {
            best = len;
        }
        proof {
            if len > 0 {
                assert(p@.len() > 0) by {
                    if p@.len() == 0 {
                        assert(encode_utf8(p@) =~= Seq::<u8>::empty());
                    }
                }
            } else {
                assert(p@.len() == 0 ==> true);
            }
        }
        i += 1;
    }
    assert(ps.take(prefixes@.len() as int) =~= ps);
    best
}

impl RobotsRules {
    /// Rules that allow everything.
    pub fn empty() -> (r: Self)
        ensures
            r@.allow.len() == 0,
            r@.disallow.len() == 0,
    {
        RobotsRules { allow_paths: Vec::new(), disallow_paths: Vec::new() }
    }

    /// Whether `path` may be fetched: the longest matching allow rule must
    /// be at least as long as the longest matching disallow rule.
    pub fn allows(&self, path: &str) -> (r: bool)
        ensures
            r == path_allowed(self@, path@),
    {
        let allow_len = longest_matching(&self.allow_paths, path);
        let disallow_len = longest_matching(&self.disallow_paths, path);
        if disallow_len == 0 {
            return true;
        }
        allow_len >= disallow_len
    }
}

// ── Parsing ─────────────────────────────────────────────────────────

/// Index of the first `c` in `s`, or the length of `s` when there is none.
pub open spec fn first_index_of(s: Seq<char>, c: char) -> int
    decreases s.len(),
{
    if s.len() == 0 {
        0
    } else if s[0] == c {
        0
    } else {
        1 + first_index_of(s.drop_first(), c)
    }
}

proof fn lemma_first_index_of(s: Seq<char>, c: char, i: int)
    requires
        0 <= i <= s.len(),
        i == s.len() || s[i] == c,
        forall|j: int| 0 <= j < i ==> s[j] != c,
    ensures
        first_index_of(s, c) == i,
    decreases s.len(),
{
    if s.len() > 0 && s[0] != c {
        lemma_first_index_of(s.drop_first(), c, i - 1);
    }
}

/// The part of `s` before its first `c` (all of `s` when there is none), as
/// `split(c).next()` yields it.
pub open spec fn before_char(s: Seq<char>, c: char) -> Seq<char> {
    s.take(first_index_of(s, c))
}

/// The pieces of `s` between newlines.
pub open spec fn segments(s: Seq<char>) -> Seq<Seq<char>>
    decreases s.len(),
{
    if s.len() == 0 {
        seq![Seq::<char>::empty()]
    } else {
        let r = segments(s.drop_last());
        if s.last() == '\n' {
            r.push(Seq::empty())
        } else {
            r.update(r.len() - 1, r.last().push(s.last()))
        }
    }
}

proof fn lemma_segments_nonempty(s: Seq<char>)
    ensures
        segments(s).len() > 0,
    decreases s.len(),
{
    if s.len() > 0 {
        lemma_segments_nonempty(s.drop_last());
    }
}

/// What the parser has gathered so far: the user agents named since the
/// start, and the allow/disallow prefixes for this crawler and for `*`.
pub struct ParseState {
    pub agents: Seq<Seq<char>>,
    pub specific_allow: Seq<Seq<char>>,
    pub specific_disallow: Seq<Seq<char>>,
    pub wildcard_allow: Seq<Seq<char>>,
    pub wildcard_disallow: Seq<Seq<char>>,
}

/// The state before any line.
pub open spec fn initial_state() -> ParseState {
    ParseState {
        agents: Seq::empty(),
        specific_allow: Seq::empty(),
        specific_disallow: Seq::empty(),
        wildcard_allow: Seq::empty(),
        wildcard_disallow: Seq::empty(),
    }
}

/// Some user agent named so far is this crawler's token, or the token
/// followed by `*`.
pub open spec fn names_crawler(agents: Seq<Seq<char>>, token: Seq<char>) -> bool {
    exists|i: int| 0 <= i < agents.len() && (agents[i] == token || agents[i] == token.push('*'))
}

/// Some user agent named so far is `*`.
pub open spec fn names_wildcard(agents: Seq<Seq<char>>) -> bool {
    exists|i: int| 0 <= i < agents.len() && agents[i] == seq!['*']
}

/// One line of robots.txt: comments after `#` are dropped, `key: value`
/// lines are read, `User-agent` lines add an agent, and `Allow`/`Disallow`
/// lines add a prefix for this crawler and/or for `*` when an agent named so
/// far matches.
pub open spec fn step(st: ParseState, raw: Seq<char>, token: Seq<char>) -> ParseState {
    let line = trim_ws(before_char(raw, '#'));
    let ci = first_index_of(line, ':');
    if line.len() == 0 || ci == line.len() {
        st
    } else {
        let key = lowercase(trim_ws(line.take(ci)));
        let value = trim_ws(line.skip(ci + 1));
        if key == "user-agent"@ {
            ParseState { agents: st.agents.push(lowercase(value)), ..st }
        } else if key != "allow"@ && key != "disallow"@ {
            st
        } else if st.agents.len() == 0 {
            st
        } else {
            let specific = names_crawler(st.agents, token);
            let wildcard = names_wildcard(st.agents);
            let v = trim_ws(value);
            let is_allow = key == "allow"@;
            ParseState {
                agents: st.agents,
                specific_allow: if specific && is_allow {
                    st.specific_allow.push(v)
                } else {
                    st.specific_allow
                },
                specific_disallow: if specific && !is_allow {
                    st.specific_disallow.push(v)
                } else {
                    st.specific_disallow
                },
                wildcard_allow: if wildcard && is_allow {
                    st.wildcard_allow.push(v)
                } else {
                    st.wildcard_allow
                },
                wildcard_disallow: if wildcard && !is_allow {
                    st.wildcard_disallow.push(v)
                } else {
                    st.wildcard_disallow
                },
            }
        }
    }
}

/// The state after the given lines.
pub open spec fn run(lines: Seq<Seq<char>>, token: Seq<char>) -> ParseState
    decreases lines.len(),
{
    if lines.len() == 0 {
        initial_state()
    } else {
        step(run(lines.drop_last(), token), lines.last(), token)
    }
}

/// The crawler's token: the user-agent string before its first `/`,
/// trimmed and lower-cased.
pub open spec fn agent_token(user_agent: Seq<char>) -> Seq<char> {
    lowercase(trim_ws(before_char(user_agent, '/')))
}

/// The rules robots.txt sets for a crawler: those of groups naming it when
/// there are any, otherwise those of `*` groups.
pub open spec fn robots_rules_for(robots_txt: Seq<char>, user_agent: Seq<char>) -> RulesView {
    let st = run(segments(robots_txt), agent_token(user_agent));
    if st.specific_allow.len() > 0 || st.specific_disallow.len() > 0 {
        RulesView { allow: st.specific_allow, disallow: st.specific_disallow }
    } else {
        RulesView { allow: st.wildcard_allow, disallow: st.wildcard_disallow }
    }
}

/// Mutable counterpart of `ParseState`.
struct Parser {
    agents: Vec<Vec<char>>,
    specific_allow: Vec<Vec<char>>,
    specific_disallow: Vec<Vec<char>>,
    wildcard_allow: Vec<Vec<char>>,
    wildcard_disallow: Vec<Vec<char>>,
}

/// The views of a vector of character vectors.
pub open spec fn seqs(v: Seq<Vec<char>>) -> Seq<Seq<char>> {
    v.map_values(|x: Vec<char>| x@)
}

impl Parser {
    spec fn state(&self) -> ParseState {
        ParseState {
            agents: seqs(self.agents@),
            specific_allow: seqs(self.specific_allow@),
            specific_disallow: seqs(self.specific_disallow@),
            wildcard_allow: seqs(self.wildcard_allow@),
            wildcard_disallow: seqs(self.wildcard_disallow@),
        }
    }
}

/// Position of the first `c` in `v`, or its length.
fn index_of_char(v: &[char], c: char) -> (i: usize)
    ensures
        i == first_index_of(v@, c),
        i <= v@.len(),
{
    let mut i: usize = 0;
    while i < v.len() && v[i] != c
        invariant
            i <= v@.len(),
            forall|j: int| 0 <= j < i ==> v@[j] != c,
        decreases v@.len() - i,
    {
        i += 1;
    }
    proof {
        lemma_first_index_of(v@, c, i as int);
    }
    i
}

/// Lower-cased copy of a character vector.
fn lower_chars(v: &[char]) -> (r: Vec<char>)
    ensures
        r@ == lowercase(v@),
{
    let s = string_from_chars(v);
    let l = to_lowercase(s.as_str());
    chars_of(l.as_str())
}

/// Whether any agent is `token` or `token*`, and whether any is `*`.
fn match_agents(agents: &Vec<Vec<char>>, token: &Vec<char>) -> (r: (bool, bool))
    ensures
        r.0 == names_crawler(seqs(agents@), token@),
        r.1 == names_wildcard(seqs(agents@)),
{
    let mut starred = token.clone();
    starred.push('*');
    let mut star: Vec<char> = Vec::new();
    star.push('*');
    assert(star@ =~= seq!['*']);
    let ghost ag = seqs(agents@);
    let mut specific = false;
    let mut wildcard = false;
    let mut i: usize = 0;
    while i < agents.len()
        invariant
            i <= agents@.len(),
            ag == seqs(agents@),
            starred@ == token@.push('*'),
            star@ == seq!['*'],
            specific == exists|j: int| 0 <= j < i && (ag[j] == token@ || ag[j] == token@.push('*')),
            wildcard == exists|j: int| 0 <= j < i && ag[j] == seq!['*'],
        decreases agents@.len() - i,
    {
        let ua = agents[i].as_slice();
        assert(ag[i as int] == ua@);
        if chars_eq(ua, token.as_slice()) || chars_eq(ua, starred.as_slice()) {
            specific = true;
        }
        if chars_eq(ua, star.as_slice()) {
            wildcard = true;
        }
        i += 1;
    }
    (specific, wildcard)
}

impl Parser {
    fn new() -> (p: Self)
        ensures
            p.state() == initial_state(),
    {
        let p = Parser {
            agents: Vec::new(),
            specific_allow: Vec::new(),
            specific_disallow: Vec::new(),
            wildcard_allow: Vec::new(),
            wildcard_disallow: Vec::new(),
        };
        assert(seqs(p.agents@) =~= Seq::<Seq<char>>::empty());
        assert(seqs(p.specific_allow@) =~= Seq::<Seq<char>>::empty());
        assert(seqs(p.specific_disallow@) =~= Seq::<Seq<char>>::empty());
        assert(seqs(p.wildcard_allow@) =~= Seq::<Seq<char>>::empty());
        assert(seqs(p.wildcard_disallow@) =~= Seq::<Seq<char>>::empty());
        p
    }

    /// Handle one line of robots.txt.
    fn step_line(&mut self, raw: &[char], token: &Vec<char>)
        ensures
            final(self).state() == step(old(self).state(), raw@, token@),
    {
        let hash = index_of_char(raw, '#');
        let before = slice_to_vec(raw, 0, hash);
        assert(before@ =~= before_char(raw@, '#'));
        let line = trim_chars(before.as_slice());
        let ci = index_of_char(line.as_slice(), ':');
        if line.len() == 0 || ci == line.len() {
            return;
        }
        let key_raw = slice_to_vec(line.as_slice(), 0, ci);
        assert(key_raw@ =~= line@.take(ci as int));
        let key_trim = trim_chars(key_raw.as_slice());
        let key = lower_chars(key_trim.as_slice());
        let value_raw = slice_to_vec(line.as_slice(), ci + 1, line.len());
        assert(value_raw@ =~= line@.skip(ci + 1));
        let value = trim_chars(value_raw.as_slice());
        let ua_key = chars_of("user-agent");
        let allow_key = chars_of("allow");
        let disallow_key = chars_of("disallow");
        if chars_eq(key.as_slice(), ua_key.as_slice()) {
            let lv = lower_chars(value.as_slice());
            self.agents.push(lv);
            assert(seqs(self.agents@) =~= seqs(old(self).agents@).push(lv@));
            return;
        }
        let is_allow = chars_eq(key.as_slice(), allow_key.as_slice());
        if !is_allow && !chars_eq(key.as_slice(), disallow_key.as_slice()) {
            return;
        }
        if self.agents.len() == 0 {
            return;
        }
        let (specific, wildcard) = match_agents(&self.agents, token);
        if !specific && !wildcard {
            return;
        }
        let v = trim_chars(value.as_slice());
        if specific {
            if is_allow {
                self.specific_allow.push(v.clone());
                assert(seqs(self.specific_allow@) =~= seqs(old(self).specific_allow@).push(v@));
            } else {
                self.specific_disallow.push(v.clone());
                assert(seqs(self.specific_disallow@) =~= seqs(old(self).specific_disallow@).push(
                    v@,
                ));
            }
        }
        if wildcard {
            if is_allow {
                self.wildcard_allow.push(v);
                assert(seqs(self.wildcard_allow@) =~= seqs(old(self).wildcard_allow@).push(v@));
            } else {
                self.wildcard_disallow.push(v);
                assert(seqs(self.wildcard_disallow@) =~= seqs(old(self).wildcard_disallow@).push(
                    v@,
                ));
            }
        }
    }
}

/// Strings holding the given character vectors.
fn to_strings(v: &Vec<Vec<char>>) -> (r: Vec<String>)
    ensures
        strings_view(r@) == seqs(v@),
{
    let mut r: Vec<String> = Vec::new();
    let mut i: usize = 0;
    while i < v.len()
        invariant
            i <= v@.len(),
            strings_view(r@) == seqs(v@.take(i as int)),
        decreases v@.len() - i,
    {
        let s = string_from_chars(v[i].as_slice());
        let ghost before = r@;
        r.push(s);
        assert(r@ == before.push(s));
        assert(strings_view(r@) =~= strings_view(before).push(s@));
        assert(seqs(v@.take(i + 1)) =~= seqs(v@.take(i as int)).push(v@[i as int]@));
        assert(strings_view(r@) =~= seqs(v@.take(i + 1)));
        i += 1;
    }
    assert(v@.take(v@.len() as int) =~= v@);
    r
}

/// Parse the allow/disallow rules that robots.txt sets for the crawler
/// whose User-Agent header is `user_agent`.
pub fn parse_robots_rules(robots_txt: &str, user_agent: &str) -> (r: RobotsRules)
    ensures
        r@ == robots_rules_for(robots_txt@, user_agent@),
{
    let ua = chars_of(user_agent);
    let slash = index_of_char(ua.as_slice(), '/');
    let ua_head = slice_to_vec(ua.as_slice(), 0, slash);
    assert(ua_head@ =~= before_char(user_agent@, '/'));
    let ua_trim = trim_chars(ua_head.as_slice());
    let token = lower_chars(ua_trim.as_slice());
    let v = chars_of(robots_txt);
    let mut p = Parser::new();
    let mut start: usize = 0;
    let mut i: usize = 0;
    proof {
        assert(v@.take(0) =~= Seq::<char>::empty());
        assert(segments(Seq::<char>::empty()).drop_last() =~= Seq::<Seq<char>>::empty());
    }
    while i < v.len()
        invariant
            start <= i <= v@.len(),
            token@ == agent_token(user_agent@),
            segments(v@.take(i as int)).len() > 0,
            p.state() == run(segments(v@.take(i as int)).drop_last(), token@),
            segments(v@.take(i as int)).last() == v@.subrange(start as int, i as int),
        decreases v@.len() - i,
    {
        let ghost seg = segments(v@.take(i as int));
        assert(v@.take(i + 1).drop_last() =~= v@.take(i as int));
        if v[i] == '\n' {
            let line = slice_to_vec(v.as_slice(), start, i);
            p.step_line(line.as_slice(), &token);
            start = i + 1;
            proof {
                let ns = segments(v@.take(i + 1));
                assert(ns == seg.push(Seq::empty()));
                assert(ns.drop_last() =~= seg);
                assert(seg =~= seg.drop_last().push(seg.last()));
                assert(v@.subrange(start as int, i + 1) =~= Seq::<char>::empty());
            }
        } else {
            proof {
                let ns = segments(v@.take(i + 1));
                assert(ns.drop_last() =~= seg.drop_last());
                assert(v@.subrange(start as int, i + 1) =~= seg.last().push(v@[i as int]));
            }
        }
        i += 1;
    }
    assert(v@.take(v@.len() as int) =~= v@);
    let last = slice_to_vec(v.as_slice(), start, v.len());
    p.step_line(last.as_slice(), &token);
    proof {
        let seg = segments(robots_txt@);
        assert(seg =~= seg.drop_last().push(seg.last()));
    }
    if p.specific_allow.len() > 0 || p.specific_disallow.len() > 0 {
        RobotsRules {
            allow_paths: to_strings(&p.specific_allow),
            disallow_paths: to_strings(&p.specific_disallow),
        }
    } else {
        RobotsRules {
            allow_paths: to_strings(&p.wildcard_allow),
            disallow_paths: to_strings(&p.wildcard_disallow),
        }
    }
}

} // verus!
