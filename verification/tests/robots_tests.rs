use rss_ai::robots::{parse_robots_rules, RobotsRules};

#[test]
fn wildcard_disallow_blocks_prefix() {
    let rules = parse_robots_rules("User-agent: *\nDisallow: /private", "rss-ai/0.2.0");
    assert!(!rules.allows("/private/article"));
    assert!(rules.allows("/public"));
}

#[test]
fn allow_all_rule() {
    let rules = parse_robots_rules("User-agent: *\nAllow: /", "rss-ai/0.2.0");
    assert!(rules.allows("/a1"));
}

#[test]
fn specific_group_wins_over_wildcard() {
    let txt = "User-agent: *\nDisallow: /\n\nUser-agent: RSS-AI\nAllow: /news\n";
    let rules = parse_robots_rules(txt, "rss-ai/0.2.0");
    // Agents accumulate across groups, so both groups' rules gathered the
    // specific ones only after the crawler was named.
    assert_eq!(rules.allow_paths, vec!["/news".to_string()]);
    assert!(rules.disallow_paths.is_empty());
    assert!(rules.allows("/anything"));
}

#[test]
fn longer_allow_overrides_disallow() {
    let txt = "user-agent: *\ndisallow: /docs # internal\nallow: /docs/public\n";
    let rules = parse_robots_rules(txt, "bot");
    assert!(!rules.allows("/docs/internal"));
    assert!(rules.allows("/docs/public/page"));
}

#[test]
fn rules_before_any_agent_are_ignored() {
    let rules = parse_robots_rules("Disallow: /\nUser-agent: *\n", "bot");
    assert!(rules.allows("/x"));
    assert!(rules.disallow_paths.is_empty());
}

#[test]
fn crawler_token_with_star_matches() {
    let rules = parse_robots_rules("User-agent: mybot*\r\nDisallow: /tmp\r\n", "MyBot/1.0");
    assert_eq!(rules.disallow_paths, vec!["/tmp".to_string()]);
    assert!(!rules.allows("/tmp/x"));
}

#[test]
fn empty_rules_allow_everything() {
    let rules = RobotsRules::empty();
    assert!(rules.allows("/"));
    let rules = parse_robots_rules("User-agent: *\nDisallow:\n", "bot");
    assert!(rules.allows("/"));
}
