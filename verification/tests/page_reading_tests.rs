use rss_ai::page::{
    choose_readable_text, collect_readable_blocks, extract_author, extract_published_at,
    extract_title, is_boilerplate, root_selectors, select_primary_root, ElementFacts,
    MatchedElement,
};

fn el(tag: &str, class: Option<&str>, id: Option<&str>) -> ElementFacts {
    ElementFacts {
        tag: tag.to_string(),
        class: class.map(|c| c.to_string()),
        id: id.map(|c| c.to_string()),
    }
}

fn matched(ancestors: Vec<ElementFacts>, texts: &[&str]) -> MatchedElement {
    MatchedElement { ancestors, texts: texts.iter().map(|t| t.to_string()).collect() }
}

fn plain_ancestors() -> Vec<ElementFacts> {
    vec![el("body", None, None), el("html", None, None)]
}

#[test]
fn boilerplate_is_judged_by_ancestors() {
    assert!(is_boilerplate(&[el("div", Some("Main-Nav"), None)]));
    assert!(is_boilerplate(&[el("p", None, None), el("aside", None, None)]));
    assert!(is_boilerplate(&[el("div", None, Some("comments"))]));
    assert!(!is_boilerplate(&[el("section", Some("story"), None)]));
    assert!(!is_boilerplate(&[]));
}

#[test]
fn root_selector_bonuses() {
    let table = root_selectors();
    assert_eq!(table.len(), 8);
    assert_eq!(table[0], ("article", 3000));
    assert_eq!(table[7], ("body", 0));
}

#[test]
fn primary_root_prefers_article_bonus() {
    let candidates = vec![
        (3000, matched(plain_ancestors(), &["hello", "world"])),
        (0, matched(vec![el("html", None, None)], &["hello world and much more text"])),
    ];
    assert_eq!(select_primary_root(&candidates), Some(0));
}

#[test]
fn primary_root_skips_furniture_and_keeps_first_of_equals() {
    let candidates = vec![
        (1000, matched(vec![el("nav", None, None)], &["a very long navigation text"])),
        (600, matched(plain_ancestors(), &["abc"])),
        (600, matched(plain_ancestors(), &["xyz"])),
    ];
    assert_eq!(select_primary_root(&candidates), Some(1));
    assert_eq!(select_primary_root(&[]), None);
}

#[test]
fn extraction_output_strips_html_tags() {
    let blocks = vec![
        ("h1".to_string(), matched(plain_ancestors(), &["Title"])),
        ("p".to_string(), matched(plain_ancestors(), &["  Some  ", " text "])),
        ("p".to_string(), matched(plain_ancestors(), &["Some text"])),
        ("li".to_string(), matched(plain_ancestors(), &["item"])),
        ("p".to_string(), matched(vec![el("footer", None, None)], &["Copyright"])),
        ("h3".to_string(), matched(plain_ancestors(), &["Sub"])),
        ("p".to_string(), matched(plain_ancestors(), &["   "])),
        ("blockquote".to_string(), matched(plain_ancestors(), &["Quote"])),
    ];
    assert_eq!(
        collect_readable_blocks(&blocks),
        "# Title\n\nSome text\n\n- item\n\n## Sub\n\nQuote"
    );
}

#[test]
fn readable_text_falls_back_to_renderings() {
    assert_eq!(choose_readable_text(Some("# T\n\nBody"), "x", "y"), "# T\n\nBody");
    assert_eq!(choose_readable_text(Some(""), "  root   text ", "page"), "root text");
    assert_eq!(choose_readable_text(Some(""), "   ", " page  text "), "page text");
    assert_eq!(choose_readable_text(None, "root", " page "), "page");
}

#[test]
fn title_from_meta_or_headings() {
    let metas = vec![None, Some("   ".to_string()), Some(" Meta   Title ".to_string())];
    assert_eq!(extract_title(&metas, &[]).as_deref(), Some("Meta Title"));
    let none: Vec<Option<String>> = vec![None, None, None];
    let headings = vec![
        None,
        Some(vec!["  ".to_string()]),
        Some(vec!["Main".to_string(), "Heading".to_string()]),
    ];
    assert_eq!(extract_title(&none, &headings).as_deref(), Some("Main Heading"));
    assert_eq!(extract_title(&none, &[None]), None);
}

#[test]
fn author_without_byline_word() {
    let metas = vec![Some("By Jane Doe".to_string())];
    assert_eq!(extract_author(&metas, &[]).as_deref(), Some("Jane Doe"));
    let bylines = vec![Some(vec!["by".to_string(), "John".to_string()])];
    assert_eq!(extract_author(&[None], &bylines).as_deref(), Some("John"));
}

#[test]
fn published_date_from_meta_then_time_elements() {
    let metas = vec![Some("not a date".to_string()), Some("2024-03-01".to_string())];
    assert_eq!(extract_published_at(&metas, &[]), Some((1_709_251_200, 0)));
    let times = vec![
        (Some("soon".to_string()), vec!["whenever".to_string()]),
        (None, vec!["2024-03-01".to_string(), "09:30".to_string()]),
    ];
    assert_eq!(extract_published_at(&[None], &times), Some((1_709_285_400, 0)));
    assert_eq!(extract_published_at(&[], &[]), None);
}
