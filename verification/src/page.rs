//! Reading an article page. The HTML reader answers the page's selector
//! queries (which elements match, their ancestors, text and attributes);
//! the choices made from those answers are here: which element holds the
//! article, which blocks make its text, and where its title, author and
//! date come from.
use vstd::prelude::*;
use vstd::utf8::encode_utf8;

use crate::chars::{str_eq, trim_str, trim_ws};
use crate::embeddings::byte_len;
use crate::extract::{
    author_name, has_boilerplate_keyword, is_boilerplate_name, normalize_whitespace, normalized,
    page_date, parse_datetime, strip_by_prefix,
};
use crate::search::{join_with_spaces, joined};
use crate::unicode::lowercase;

verus! {

/// An element as the boilerplate check reads it: its tag name and its
/// class and id attributes.
pub struct ElementFacts {
    pub tag: String,
    pub class: Option<String>,
    pub id: Option<String>,
}

/// An element matched by a selector: its ancestors (parent first, up to the
/// document root) and its text nodes in document order.
pub struct MatchedElement {
    pub ancestors: Vec<ElementFacts>,
    pub texts: Vec<String>,
}

/// Tags whose content is page furniture.
pub open spec fn furniture_tag(t: Seq<char>) -> bool {
    ||| t == "nav"@
    ||| t == "header"@
    ||| t == "footer"@
    ||| t == "aside"@
    ||| t == "script"@
    ||| t == "style"@
    ||| t == "noscript"@
    ||| t == "form"@
    ||| t == "svg"@
}

/// An attribute value that names page furniture.
pub open spec fn furniture_attr(v: Option<String>) -> bool {
    match v {
        Some(s) => is_boilerplate_name(lowercase(s@)),
        None => false,
    }
}

/// An element that is page furniture: by its tag, class or id.
pub open spec fn is_furniture(e: ElementFacts) -> bool {
    furniture_tag(e.tag@) || furniture_attr(e.class) || furniture_attr(e.id)
}

/// An element is boilerplate when one of its ancestors is page furniture.
pub open spec fn inside_furniture(ancestors: Seq<ElementFacts>) -> bool {
    exists|i: int| 0 <= i < ancestors.len() && is_furniture(#[trigger] ancestors[i])
}

/// An element under a `nav`, `header`, `footer`, `aside`, `script`,
/// `style`, `noscript`, `form` or `svg` element is boilerplate, whatever
/// its other ancestors; an element none of whose ancestors has one of these
/// tags, a class or an id is not.
pub proof fn lemma_furniture_tags(ancestors: Seq<ElementFacts>, i: int)
    ensures
        0 <= i < ancestors.len() && {
            let t = ancestors[i].tag@;
            ||| t == "nav"@
            ||| t == "header"@
            ||| t == "footer"@
            ||| t == "aside"@
            ||| t == "script"@
            ||| t == "style"@
            ||| t == "noscript"@
            ||| t == "form"@
            ||| t == "svg"@
        } ==> inside_furniture(ancestors),
        (forall|j: int|
            0 <= j < ancestors.len() ==> {
                let t = (#[trigger] ancestors[j]).tag@;
                &&& t != "nav"@
                &&& t != "header"@
                &&& t != "footer"@
                &&& t != "aside"@
                &&& t != "script"@
                &&& t != "style"@
                &&& t != "noscript"@
                &&& t != "form"@
                &&& t != "svg"@
                &&& ancestors[j].class is None
                &&& ancestors[j].id is None
            }) ==> !inside_furniture(ancestors),
{
    if 0 <= i < ancestors.len() && furniture_tag(ancestors[i].tag@) {
        assert(is_furniture(ancestors[i]));
    }
}

/// The text nodes' views.
pub open spec fn text_views(texts: Seq<String>) -> Seq<Seq<char>> {
    texts.map_values(|t: String| t@)
}

/// Whether an element lies inside page furniture.
pub fn is_boilerplate(ancestors: &[ElementFacts]) -> (r: bool)
    ensures
        r == inside_furniture(ancestors@),
{
    let mut i: usize = 0;
    while i < ancestors.len()
        invariant
            i <= ancestors@.len(),
            forall|j: int| 0 <= j < i ==> !is_furniture(#[trigger] ancestors@[j]),
        decreases ancestors@.len() - i,
    {
        let a = &ancestors[i];
        let t = a.tag.as_str();
        let tag_hit = str_eq(t, "nav") || str_eq(t, "header") || str_eq(t, "footer") || str_eq(
            t,
            "aside",
        ) || str_eq(t, "script") || str_eq(t, "style") || str_eq(t, "noscript") || str_eq(
            t,
            "form",
        ) || str_eq(t, "svg");
        let class_hit = match &a.class {
            Some(c) => has_boilerplate_keyword(Some(c.as_str())),
            None => has_boilerplate_keyword(None),
        };
        let id_hit = match &a.id {
            Some(c) => has_boilerplate_keyword(Some(c.as_str())),
            None => has_boilerplate_keyword(None),
        };
        if tag_hit || class_hit || id_hit {
            assert(is_furniture(ancestors@[i as int]));
            return true;
        }
        i += 1;
    }
    false
}

// ── The article's root ──────────────────────────────────────────────

/// The selectors tried for the element holding the article, in order, with
/// the bonus a match of each earns.
pub open spec fn root_selector_table() -> Seq<(Seq<char>, usize)> {
    seq![
        ("article"@, 3000usize),
        ("main"@, 2000usize),
        ("[role='main']"@, 1500usize),
        (".post"@, 1000usize),
        (".article"@, 1000usize),
        (".entry-content"@, 900usize),
        (".content"@, 600usize),
        ("body"@, 0usize),
    ]
}

/// The selectors tried for the article's root element, with their bonuses.
pub fn root_selectors() -> (r: Vec<(&'static str, usize)>)
    ensures
        r@.len() == root_selector_table().len(),
        forall|i: int|
            0 <= i < r@.len() ==> r@[i].0@ == root_selector_table()[i].0 && r@[i].1
                == root_selector_table()[i].1,
{
    let r: Vec<(&'static str, usize)> = vec![
        ("article", 3000),
        ("main", 2000),
        ("[role='main']", 1500),
        (".post", 1000),
        (".article", 1000),
        (".entry-content", 900),
        (".content", 600),
        ("body", 0),
    ];
    r
}

/// The length in bytes of an element's text: its text nodes joined by
/// spaces, trimmed.
pub open spec fn text_len(e: MatchedElement) -> nat {
    encode_utf8(trim_ws(joined(text_views(e.texts@)))).len()
}

/// How well a candidate holds the article: its text length plus the bonus
/// of the selector that matched it.
pub open spec fn root_score(c: (usize, MatchedElement)) -> int {
    text_len(c.1) + c.0
}

/// The best candidate for the article's root among candidates listed in
/// selector order and then document order: candidates inside furniture
/// are passed over, and a later one wins only with a strictly higher score.
pub open spec fn best_root(cs: Seq<(usize, MatchedElement)>) -> Option<int>
    decreases cs.len(),
{
    if cs.len() == 0 {
        None
    } else {
        let b = best_root(cs.drop_last());
        let c = cs.last();
        if inside_furniture(c.1.ancestors@) {
            b
        } else if b is None || root_score(cs[b->0]) < root_score(c) {
            Some(cs.len() - 1)
        } else {
            b
        }
    }
}

/// Byte length of an element's joined, trimmed text.
pub fn element_text_len(e: &MatchedElement) -> (n: usize)
    ensures
        n == text_len(*e),
{
    let joined_text = join_with_spaces(e.texts.as_slice());
    let t = trim_str(joined_text.as_str());
    byte_len(t.as_str())
}

/// Which candidate (bonus, element) holds the article.
pub fn select_primary_root(candidates: &[(usize, MatchedElement)]) -> (r: Option<usize>)
    ensures
        match best_root(candidates@) {
            Some(i) => r == Some(i as usize),
            None => r is None,
        },
{
    let mut best: Option<(u128, usize)> = None;
    let mut i: usize = 0;
    while i < candidates.len()
        invariant
            i <= candidates@.len(),
            match best_root(candidates@.take(i as int)) {
                Some(b) => best matches Some(p) && p.1 == b && p.0 == root_score(candidates@[b])
                    && b < i,
                None => best is None,
            },
        decreases candidates@.len() - i,
    {
        let ghost cs = candidates@.take(i + 1);
        assert(cs.drop_last() =~= candidates@.take(i as int));
        assert(cs.last() == candidates@[i as int]);
        let c = &candidates[i];
        if !is_boilerplate(c.1.ancestors.as_slice()) {
            let score: u128 = element_text_len(&c.1) as u128 + c.0 as u128;
            let better = match best {
                Some(p) => p.0 < score,
                None => true,
            };
            if better {
                best = Some((score, i));
            }
        }
        proof {
            if let Some(b) = best_root(cs) {
                assert(cs[b] == candidates@[b]);
            }
        }
        i += 1;
    }
    assert(candidates@.take(candidates@.len() as int) =~= candidates@);
    match best {
        Some(p) => Some(p.1),
        None => None,
    }
}

// ── Readable blocks ─────────────────────────────────────────────────

/// A block's text as it appears in the article: headings marked with `#`
/// (level one) or `##`, list items with `-`.
pub open spec fn formatted_block(tag: Seq<char>, text: Seq<char>) -> Seq<char> {
    if tag == "h1"@ {
        "# "@ + text
    } else if tag == "h2"@ || tag == "h3"@ || tag == "h4"@ || tag == "h5"@ || tag == "h6"@ {
        "## "@ + text
    } else if tag == "li"@ {
        "- "@ + text
    } else {
        text
    }
}

/// The blocks of an article, from the block elements (tag and element) in
/// document order: blocks inside furniture and empty blocks are skipped,
/// and a block equal to the one before it is kept once.
pub open spec fn readable_blocks(bs: Seq<(String, MatchedElement)>) -> Seq<Seq<char>>
    decreases bs.len(),
{
    if bs.len() == 0 {
        Seq::empty()
    } else {
        let rest = readable_blocks(bs.drop_last());
        let b = bs.last();
        let text = normalized(joined(text_views(b.1.texts@)));
        let f = formatted_block(b.0@, text);
        if inside_furniture(b.1.ancestors@) || text.len() == 0 {
            rest
        } else if rest.len() > 0 && rest.last() == f {
            rest
        } else {
            rest.push(f)
        }
    }
}

/// The parts joined by blank lines.
pub open spec fn paragraphs(ws: Seq<Seq<char>>) -> Seq<char>
    decreases ws.len(),
{
    if ws.len() == 0 {
        Seq::empty()
    } else if ws.len() == 1 {
        ws[0]
    } else {
        paragraphs(ws.drop_last()) + seq!['\n', '\n'] + ws.last()
    }
}

/// A block's text marked by its tag.
fn format_block(tag: &str, text: String) -> (r: String)
    ensures
        r@ == formatted_block(tag@, text@),
{
    if str_eq(tag, "h1") {
        let mut r = "# ".to_owned();
        r.append(text.as_str());
        r
    } else if str_eq(tag, "h2") || str_eq(tag, "h3") || str_eq(tag, "h4") || str_eq(tag, "h5")
        || str_eq(tag, "h6") {
        let mut r = "## ".to_owned();
        r.append(text.as_str());
        r
    } else if str_eq(tag, "li") {
        let mut r = "- ".to_owned();
        r.append(text.as_str());
        r
    } else {
        text
    }
}

/// The readable text of an article root from its block elements (headings,
/// paragraphs, list items, preformatted text and quotes) in document order.
pub fn collect_readable_blocks(blocks: &[(String, MatchedElement)]) -> (r: String)
    ensures
        r@ == paragraphs(readable_blocks(blocks@)),
{
    let mut kept: Vec<String> = Vec::new();
    let mut i: usize = 0;
    while i < blocks.len()
        invariant
            i <= blocks@.len(),
            text_views(kept@) == readable_blocks(blocks@.take(i as int)),
        decreases blocks@.len() - i,
    {
        let ghost bs = blocks@.take(i + 1);
        assert(bs.drop_last() =~= blocks@.take(i as int));
        assert(bs.last() == blocks@[i as int]);
        let b = &blocks[i];
        if !is_boilerplate(b.1.ancestors.as_slice()) {
            let joined_text = join_with_spaces(b.1.texts.as_slice());
            let text = normalize_whitespace(joined_text.as_str());
            if byte_len(text.as_str()) > 0 {
                let f = format_block(b.0.as_str(), text);
                let same = kept.len() > 0 && str_eq(kept[kept.len() - 1].as_str(), f.as_str());
                if !same {
                    let ghost before = kept@;
                    kept.push(f);
                    assert(text_views(kept@) =~= text_views(before).push(f@));
                }
            }
        }
        i += 1;
    }
    assert(blocks@.take(blocks@.len() as int) =~= blocks@);
    join_paragraphs(kept.as_slice())
}

/// The strings joined by blank lines.
fn join_paragraphs(parts: &[String]) -> (r: String)
    ensures
        r@ == paragraphs(text_views(parts@)),
{
    let ghost ps = text_views(parts@);
    let mut out = String::new();
    let mut i: usize = 0;
    while i < parts.len()
        invariant
            i <= parts@.len(),
            ps == text_views(parts@),
            out@ == paragraphs(ps.take(i as int)),
        decreases parts@.len() - i,
    {
        assert(ps.take(i + 1).drop_last() =~= ps.take(i as int));
        let ghost before = out@;
        if i > 0 {
            out.append("\n\n");
            proof {
                reveal_strlit("\n\n");
                assert(out@ =~= before + seq!['\n', '\n']);
            }
        } else {
            assert(ps.take(1) =~= seq![ps[0]]);
        }
        out.append(parts[i].as_str());
        i += 1;
    }
    assert(ps.take(ps.len() as int) =~= ps);
    out
}

/// The readable text of a page: the root's blocks when there are any, else
/// the root rendered as text (normalised), else the whole page rendered as
/// text (normalised). The renderings are given whether or not they are
/// needed; `None` stands for a page without a root.
pub fn choose_readable_text(
    root_blocks: Option<&str>,
    root_rendered: &str,
    page_rendered: &str,
) -> (r: String)
    ensures
        r@ == match root_blocks {
            Some(b) if b@.len() > 0 => b@,
            Some(_) if normalized(root_rendered@).len() > 0 => normalized(root_rendered@),
            _ => normalized(page_rendered@),
        },
{
    if let Some(b) = root_blocks {
        if byte_len(b) > 0 {
            return b.to_owned();
        }
        let n = normalize_whitespace(root_rendered);
        if byte_len(n.as_str()) > 0 {
            return n;
        }
    }
    normalize_whitespace(page_rendered)
}

// ── Title, author and date ──────────────────────────────────────────

/// The selectors whose `content` attribute may give the title, in order.
pub fn title_meta_selectors() -> (r: Vec<&'static str>)
    ensures
        r@.len() == 3,
        r@[0]@ == "meta[property='og:title']"@,
        r@[1]@ == "meta[name='twitter:title']"@,
        r@[2]@ == "meta[name='title']"@,
{
    vec!["meta[property='og:title']", "meta[name='twitter:title']", "meta[name='title']"]
}

/// The selectors whose first match's text may give the title, in order.
pub fn title_heading_selectors() -> (r: Vec<&'static str>)
    ensures
        r@.len() == 7,
        r@[0]@ == "article h1"@,
        r@[1]@ == "article h2"@,
        r@[2]@ == "main article h1"@,
        r@[3]@ == "main article h2"@,
        r@[4]@ == "title"@,
        r@[5]@ == "main h1"@,
        r@[6]@ == "h1"@,
{
    vec!["article h1", "article h2", "main article h1", "main article h2", "title", "main h1", "h1"]
}

/// The selectors whose `content` attribute may name the author, in order.
pub fn author_meta_selectors() -> (r: Vec<&'static str>)
    ensures
        r@.len() == 3,
        r@[0]@ == "meta[name='author']"@,
        r@[1]@ == "meta[property='article:author']"@,
        r@[2]@ == "meta[name='parsely-author']"@,
{
    vec!["meta[name='author']", "meta[property='article:author']", "meta[name='parsely-author']"]
}

/// The selectors whose first match's text may name the author, in order.
pub fn author_element_selectors() -> (r: Vec<&'static str>)
    ensures
        r@.len() == 4,
        r@[0]@ == "[rel='author']"@,
        r@[1]@ == ".author"@,
        r@[2]@ == ".byline"@,
        r@[3]@ == "[itemprop='author']"@,
{
    vec!["[rel='author']", ".author", ".byline", "[itemprop='author']"]
}

/// The selectors whose `content` attribute may give the publication date,
/// in order.
pub fn date_meta_selectors() -> (r: Vec<&'static str>)
    ensures
        r@.len() == 5,
        r@[0]@ == "meta[property='article:published_time']"@,
        r@[1]@ == "meta[property='og:published_time']"@,
        r@[2]@ == "meta[name='pubdate']"@,
        r@[3]@ == "meta[name='date']"@,
        r@[4]@ == "meta[name='publish-date']"@,
{
    vec![
        "meta[property='article:published_time']",
        "meta[property='og:published_time']",
        "meta[name='pubdate']",
        "meta[name='date']",
        "meta[name='publish-date']",
    ]
}

/// A meta value: the `content` attribute of a selector's first match,
/// normalised, when it is not empty.
pub open spec fn meta_value(content: Option<String>) -> Option<Seq<char>> {
    match content {
        Some(c) if normalized(c@).len() > 0 => Some(normalized(c@)),
        _ => None,
    }
}

/// The normalised `content` attribute of a selector's first match, when
/// it has one and it is not empty.
pub fn meta_content(content: &Option<String>) -> (r: Option<String>)
    ensures
        match meta_value(*content) {
            Some(v) => r matches Some(s) && s@ == v,
            None => r is None,
        },
{
    match content {
        Some(c) => {
            let cleaned = normalize_whitespace(c.as_str());
            if byte_len(cleaned.as_str()) > 0 {
                Some(cleaned)
            } else {
                None
            }
        },
        None => None,
    }
}

/// The first meta value among the selectors' answers.
pub open spec fn first_meta(metas: Seq<Option<String>>) -> Option<Seq<char>>
    decreases metas.len(),
{
    if metas.len() == 0 {
        None
    } else if meta_value(metas[0]) is Some {
        meta_value(metas[0])
    } else {
        first_meta(metas.drop_first())
    }
}

/// An element text: the first match's text nodes joined by spaces and
/// normalised, when the selector matched and the text is not empty.
pub open spec fn element_text(texts: Option<Vec<String>>) -> Option<Seq<char>> {
    match texts {
        Some(t) if normalized(joined(text_views(t@))).len() > 0 => Some(
            normalized(joined(text_views(t@))),
        ),
        _ => None,
    }
}

/// The first element text among the selectors' answers.
pub open spec fn first_text(els: Seq<Option<Vec<String>>>) -> Option<Seq<char>>
    decreases els.len(),
{
    if els.len() == 0 {
        None
    } else if element_text(els[0]) is Some {
        element_text(els[0])
    } else {
        first_text(els.drop_first())
    }
}

/// The first meta value among the answers, normalised.
fn first_meta_content(metas: &[Option<String>]) -> (r: Option<String>)
    ensures
        match first_meta(metas@) {
            Some(v) => r matches Some(s) && s@ == v,
            None => r is None,
        },
{
    let mut i: usize = 0;
    assert(metas@.skip(0) =~= metas@);
    while i < metas.len()
        invariant
            i <= metas@.len(),
            first_meta(metas@) == first_meta(metas@.skip(i as int)),
        decreases metas@.len() - i,
    {
        assert(metas@.skip(i as int).drop_first() =~= metas@.skip(i + 1));
        assert(metas@.skip(i as int)[0] == metas@[i as int]);
        let m = meta_content(&metas[i]);
        if m.is_some() {
            return m;
        }
        i += 1;
    }
    None
}

/// The text of a selector's first match, joined and normalised, when not
/// empty.
fn element_text_of(texts: &Option<Vec<String>>) -> (r: Option<String>)
    ensures
        match element_text(*texts) {
            Some(v) => r matches Some(s) && s@ == v,
            None => r is None,
        },
{
    match texts {
        Some(t) => {
            let joined_text = join_with_spaces(t.as_slice());
            let n = normalize_whitespace(joined_text.as_str());
            if byte_len(n.as_str()) > 0 {
                Some(n)
            } else {
                None
            }
        },
        None => None,
    }
}

/// The first non-empty element text among the answers.
fn first_element_text(els: &[Option<Vec<String>>]) -> (r: Option<String>)
    ensures
        match first_text(els@) {
            Some(v) => r matches Some(s) && s@ == v,
            None => r is None,
        },
{
    let mut i: usize = 0;
    assert(els@.skip(0) =~= els@);
    while i < els.len()
        invariant
            i <= els@.len(),
            first_text(els@) == first_text(els@.skip(i as int)),
        decreases els@.len() - i,
    {
        assert(els@.skip(i as int).drop_first() =~= els@.skip(i + 1));
        assert(els@.skip(i as int)[0] == els@[i as int]);
        let t = element_text_of(&els[i]);
        if t.is_some() {
            return t;
        }
        i += 1;
    }
    None
}

/// The title of a page: the first meta value of the title meta selectors,
/// else the first non-empty text of the heading selectors' first matches.
pub fn extract_title(metas: &[Option<String>], headings: &[Option<Vec<String>>]) -> (r: Option<
    String,
>)
    ensures
        match (if first_meta(metas@) is Some {
            first_meta(metas@)
        } else {
            first_text(headings@)
        }) {
            Some(v) => r matches Some(s) && s@ == v,
            None => r is None,
        },
{
    let m = first_meta_content(metas);
    if m.is_some() {
        return m;
    }
    first_element_text(headings)
}

/// The author of a page, from the author meta selectors or else the byline
/// elements, without a leading "By ".
pub fn extract_author(metas: &[Option<String>], bylines: &[Option<Vec<String>>]) -> (r: Option<
    String,
>)
    ensures
        match (if first_meta(metas@) is Some {
            first_meta(metas@)
        } else {
            first_text(bylines@)
        }) {
            Some(v) => r matches Some(s) && s@ == author_name(v),
            None => r is None,
        },
{
    if let Some(m) = first_meta_content(metas) {
        return Some(strip_by_prefix(m.as_str()));
    }
    match first_element_text(bylines) {
        Some(t) => Some(strip_by_prefix(t.as_str())),
        None => None,
    }
}

/// The date a meta value gives, when it has one that reads as a date.
pub open spec fn meta_date(content: Option<String>) -> Option<(i64, u32)> {
    match meta_value(content) {
        Some(v) => page_date(v),
        None => None,
    }
}

/// The date a `time` element gives: its `datetime` attribute when that reads
/// as a date, else its normalised text.
pub open spec fn time_date(t: (Option<String>, Vec<String>)) -> Option<(i64, u32)> {
    if t.0 is Some && page_date(t.0->0@) is Some {
        page_date(t.0->0@)
    } else {
        page_date(normalized(joined(text_views(t.1@))))
    }
}

/// The first date among the meta answers, else among the `time` elements.
pub open spec fn first_page_date(
    metas: Seq<Option<String>>,
    times: Seq<(Option<String>, Vec<String>)>,
) -> Option<(i64, u32)>
    decreases metas.len() + times.len(),
{
    if metas.len() > 0 {
        if meta_date(metas[0]) is Some {
            meta_date(metas[0])
        } else {
            first_page_date(metas.drop_first(), times)
        }
    } else if times.len() > 0 {
        if time_date(times[0]) is Some {
            time_date(times[0])
        } else {
            first_page_date(metas, times.drop_first())
        }
    } else {
        None
    }
}

/// The publication date of a page: the first date-valued meta of the date
/// meta selectors, else the first `time` element (attribute `datetime`,
/// text) that reads as a date.
pub fn extract_published_at(
    metas: &[Option<String>],
    times: &[(Option<String>, Vec<String>)],
) -> (r: Option<(i64, u32)>)
    ensures
        r == first_page_date(metas@, times@),
{
    let mut i: usize = 0;
    assert(metas@.skip(0) =~= metas@);
    assert(times@.skip(0) =~= times@);
    while i < metas.len()
        invariant
            i <= metas@.len(),
            first_page_date(metas@, times@) == first_page_date(metas@.skip(i as int), times@),
        decreases metas@.len() - i,
    {
        assert(metas@.skip(i as int).drop_first() =~= metas@.skip(i + 1));
        assert(metas@.skip(i as int)[0] == metas@[i as int]);
        if let Some(c) = meta_content(&metas[i]) {
            let d = parse_datetime(c.as_str());
            if d.is_some() {
                return d;
            }
        }
        i += 1;
    }
    assert(metas@.skip(i as int) =~= Seq::<Option<String>>::empty());
    let mut k: usize = 0;
    while k < times.len()
        invariant
            k <= times@.len(),
            first_page_date(metas@, times@) == first_page_date(
                Seq::<Option<String>>::empty(),
                times@.skip(k as int),
            ),
        decreases times@.len() - k,
    {
        assert(times@.skip(k as int).drop_first() =~= times@.skip(k + 1));
        assert(times@.skip(k as int)[0] == times@[k as int]);
        let t = &times[k];
        if let Some(a) = &t.0 {
            let d = parse_datetime(a.as_str());
            if d.is_some() {
                return d;
            }
        }
        let joined_text = join_with_spaces(t.1.as_slice());
        let n = normalize_whitespace(joined_text.as_str());
        let d = parse_datetime(n.as_str());
        if d.is_some() {
            return d;
        }
        k += 1;
    }
    None
}

} // verus!
