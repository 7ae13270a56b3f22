use robots_server::robots_data::{AccessResult, Group, ParsedEntry, RobotsData, Rule};

#[test]
fn test_from_parse_projects_entries() {
    let entries = vec![ParsedEntry {
        user_agent: "*".to_string(),
        allowed: vec!["/public/".to_string()],
        disallowed: vec!["/admin/".to_string(), "/tmp/".to_string()],
    }];
    let sitemaps = vec!["https://example.com/sitemap.xml".to_string()];
    let data = RobotsData::from_parse(entries, sitemaps);
    assert_eq!(data.access_result, AccessResult::Unspecified);
    assert_eq!(data.http_status_code, 0);
    assert_eq!(data.groups.len(), 1);
    assert_eq!(data.groups[0].user_agents, vec!["*".to_string()]);
    // Allow rules come first, Disallow rules second, in parser order
    let rules = &data.groups[0].rules;
    assert_eq!(rules.len(), 3);
    assert_eq!((rules[0].rule_type, rules[0].path_pattern.as_str()), (1, "/public/"));
    assert_eq!((rules[1].rule_type, rules[1].path_pattern.as_str()), (2, "/admin/"));
    assert_eq!((rules[2].rule_type, rules[2].path_pattern.as_str()), (2, "/tmp/"));
    assert_eq!(data.sitemaps, vec!["https://example.com/sitemap.xml".to_string()]);
}

#[test]
fn test_emission_round_shape() {
    let data = RobotsData {
        target_url: String::new(),
        robots_txt_url: String::new(),
        access_result: AccessResult::Success,
        http_status_code: 200,
        groups: vec![
            Group {
                user_agents: vec!["googlebot".to_string(), "bingbot".to_string()],
                rules: vec![
                    Rule { rule_type: 1, path_pattern: "/public/".to_string() },
                    Rule { rule_type: 2, path_pattern: "/admin/".to_string() },
                ],
            },
            Group {
                user_agents: vec!["*".to_string()],
                rules: vec![Rule { rule_type: 2, path_pattern: "/".to_string() }],
            },
        ],
        sitemaps: vec!["https://example.com/sitemap.xml".to_string()],
        content_length_bytes: 0,
        truncated: false,
    };
    let text = data.to_robots_txt();
    assert_eq!(
        text,
        "User-agent: googlebot\nUser-agent: bingbot\nAllow: /public/\nDisallow: /admin/\n\nUser-agent: *\nDisallow: /\n\nSitemap: https://example.com/sitemap.xml"
    );
}

#[test]
fn test_emission_skips_unknown_rule_types() {
    let data = RobotsData {
        target_url: String::new(),
        robots_txt_url: String::new(),
        access_result: AccessResult::Success,
        http_status_code: 200,
        groups: vec![Group {
            user_agents: vec!["*".to_string()],
            rules: vec![
                Rule { rule_type: 0, path_pattern: "/x".to_string() },
                Rule { rule_type: 2, path_pattern: "/y".to_string() },
            ],
        }],
        sitemaps: vec![],
        content_length_bytes: 0,
        truncated: false,
    };
    assert_eq!(data.to_robots_txt(), "User-agent: *\nDisallow: /y\n");
}

#[test]
fn test_emission_empty_policy() {
    let data = RobotsData {
        target_url: String::new(),
        robots_txt_url: String::new(),
        access_result: AccessResult::Unavailable,
        http_status_code: 404,
        groups: vec![],
        sitemaps: vec![],
        content_length_bytes: 0,
        truncated: false,
    };
    assert_eq!(data.to_robots_txt(), "");
}

#[test]
fn test_emission_reparse_round_trip() {
    let entries = vec![ParsedEntry {
        user_agent: "*".to_string(),
        allowed: vec!["/public/".to_string()],
        disallowed: vec!["/admin/".to_string()],
    }];
    let sitemaps = vec!["https://example.com/sitemap.xml".to_string()];
    let data = RobotsData::from_parse(entries, sitemaps);
    let text = data.to_robots_txt();
    let reparsed = robots_server::fetcher::build_success_snapshot(
        "http://h/",
        "http://h/robots.txt",
        200,
        0,
        &text.clone().into_bytes(),
        false,
    );
    assert_eq!(reparsed.groups.len(), data.groups.len());
    assert_eq!(reparsed.groups[0].user_agents, data.groups[0].user_agents);
    assert_eq!(reparsed.groups[0].rules.len(), data.groups[0].rules.len());
    for (a, b) in reparsed.groups[0].rules.iter().zip(data.groups[0].rules.iter()) {
        assert_eq!(a.rule_type, b.rule_type);
        assert_eq!(a.path_pattern, b.path_pattern);
    }
    assert_eq!(reparsed.sitemaps, data.sitemaps);
    // the same requests decide the same way on both
    for (ua, path) in [("Bot", "/admin/x"), ("Bot", "/public/y"), ("Bot", "/")] {
        assert_eq!(reparsed.is_allowed(ua, path), data.is_allowed(ua, path));
    }
}
