use robots_server::robots_data::{AccessResult, Group, RobotsData, Rule};

fn rule(rule_type: i32, pattern: &str) -> Rule {
    Rule {
        rule_type,
        path_pattern: pattern.to_string(),
    }
}

fn group(user_agents: &[&str], rules: Vec<Rule>) -> Group {
    Group {
        user_agents: user_agents.iter().map(|s| s.to_string()).collect(),
        rules,
    }
}

fn policy(groups: Vec<Group>) -> RobotsData {
    RobotsData {
        target_url: "http://h/".to_string(),
        robots_txt_url: "http://h/robots.txt".to_string(),
        access_result: AccessResult::Success,
        http_status_code: 200,
        groups,
        sitemaps: vec![],
        content_length_bytes: 0,
        truncated: false,
    }
}

#[test]
fn test_simple_disallow() {
    let p = policy(vec![group(&["*"], vec![rule(2, "/admin/")])]);
    assert!(!p.is_allowed("MyBot", "/admin/x"));
    assert!(p.is_allowed("MyBot", "/index"));
}

#[test]
fn test_specific_ua_beats_wildcard() {
    let p = policy(vec![
        group(&["MyBot"], vec![rule(2, "/")]),
        group(&["*"], vec![rule(1, "/")]),
    ]);
    assert!(!p.is_allowed("MyBot", "/x"));
    assert!(p.is_allowed("Other", "/x"));
}

#[test]
fn test_allow_on_tie() {
    let p = policy(vec![group(&["*"], vec![rule(2, "/admin/"), rule(1, "/admin/")])]);
    assert!(p.is_allowed("Bot", "/admin/y"));
}

#[test]
fn test_end_anchor() {
    let p = policy(vec![group(&["*"], vec![rule(2, "/secret$")])]);
    assert!(!p.is_allowed("Bot", "/secret"));
    assert!(p.is_allowed("Bot", "/secret/"));
    assert!(p.is_allowed("Bot", "/secret/more"));
}

#[test]
fn test_wildcard_with_anchor() {
    let p = policy(vec![group(&["*"], vec![rule(2, "/*.pdf$"), rule(1, "/")])]);
    assert!(!p.is_allowed("Bot", "/a/b.pdf"));
    assert!(p.is_allowed("Bot", "/a.html"));
}

#[test]
fn test_case_insensitive_ua_substring() {
    let p = policy(vec![group(&["Googlebot"], vec![rule(2, "/")])]);
    assert!(!p.is_allowed("googlebot/1.0", "/x"));
}

#[test]
fn test_query_string_pattern() {
    let p = policy(vec![group(&["*"], vec![rule(2, "/search?")])]);
    assert!(!p.is_allowed("MyBot", "/search?q=x"));
    assert!(p.is_allowed("MyBot", "/search"));
}

#[test]
fn test_empty_pattern_restricts_nothing() {
    let p = policy(vec![group(&["*"], vec![rule(2, "")])]);
    assert!(p.is_allowed("MyBot", "/anything"));
}

#[test]
fn test_multiple_wildcards() {
    let p = policy(vec![group(&["*"], vec![rule(2, "/a*b*c*d/")])]);
    assert!(!p.is_allowed("MyBot", "/axbyczd/page.html"));
    assert!(p.is_allowed("MyBot", "/other/page.html"));
}

#[test]
fn test_consecutive_wildcards() {
    let p = policy(vec![group(&["*"], vec![rule(2, "/a**b/")])]);
    assert!(!p.is_allowed("MyBot", "/axxxb/page.html"));
}

#[test]
fn test_wildcard_at_start() {
    let p = policy(vec![group(&["*"], vec![rule(2, "*.pdf$")])]);
    assert!(!p.is_allowed("MyBot", "/documents/file.pdf"));
    assert!(!p.is_allowed("MyBot", "/file.pdf"));
    assert!(p.is_allowed("MyBot", "/file.html"));
}

#[test]
fn test_root_path_anchor_only() {
    let p = policy(vec![group(&["*"], vec![rule(2, "/$")])]);
    assert!(!p.is_allowed("MyBot", "/"));
    assert!(p.is_allowed("MyBot", "/page.html"));
}

#[test]
fn test_no_user_agent_match() {
    let p = policy(vec![group(&["SpecificBot"], vec![rule(2, "/")])]);
    assert!(p.is_allowed("OtherBot", "/page.html"));
}

#[test]
fn test_multiple_specific_user_agents() {
    let p = policy(vec![
        group(&["BotOne", "BotTwo"], vec![rule(2, "/private/")]),
        group(&["*"], vec![rule(1, "/")]),
    ]);
    assert!(!p.is_allowed("BotOne", "/private/page.html"));
    assert!(!p.is_allowed("BotTwo", "/private/page.html"));
    assert!(p.is_allowed("OtherBot", "/private/page.html"));
}

#[test]
fn test_longest_match_wins() {
    let p = policy(vec![group(&["*"], vec![rule(2, "/dir/"), rule(1, "/dir/open")])]);
    assert!(p.is_allowed("Bot", "/dir/open/file"));
    assert!(!p.is_allowed("Bot", "/dir/closed"));
}

#[test]
fn test_unknown_rule_type_is_skipped() {
    let p = policy(vec![group(&["*"], vec![rule(7, "/"), rule(2, "/admin/")])]);
    assert!(p.is_allowed("Bot", "/open"));
    assert!(!p.is_allowed("Bot", "/admin/x"));
}

#[test]
fn test_static_pattern_helpers() {
    assert!(RobotsData::path_matches_rfc9309("/admin/test", "/admin/"));
    assert!(!RobotsData::path_matches_rfc9309("/public/", "/admin/"));
    assert!(RobotsData::path_matches_rfc9309("/file.html", "/*.html"));
    assert!(RobotsData::path_matches_rfc9309("/test.html", "/test.html$"));
    assert!(!RobotsData::path_matches_rfc9309("/test.html/more", "/test.html$"));
    assert!(RobotsData::match_pattern("/abc", "/a", false));
    assert!(!RobotsData::match_pattern("/abc", "/a", true));
    assert!(RobotsData::wildcard_match("/a/b.pdf", "/*.pdf", true));
    assert!(!RobotsData::wildcard_match("/a/b.pdfx", "/*.pdf", true));
    assert!(RobotsData::wildcard_match("/a/b.pdfx", "/*.pdf", false));
}
