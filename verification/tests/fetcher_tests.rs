use robots_server::fetcher::{
    build_success_snapshot, classify_status, BodyAccumulator, FetchError, MAX_ROBOTS_TXT_SIZE,
};
use robots_server::robots_data::AccessResult;

#[test]
fn test_accumulator_small_body_untouched() {
    let mut acc = BodyAccumulator::new();
    let more = acc.push_chunk(&b"User-agent: *\nDisallow: /private\n".to_vec());
    assert!(more);
    let (body, truncated) = acc.finish();
    assert_eq!(body, b"User-agent: *\nDisallow: /private\n".to_vec());
    assert!(!truncated);
}

#[test]
fn test_accumulator_truncates_at_cap_on_newline() {
    // lines of 1024 bytes; the cap is a multiple of the line length, so
    // the crossing chunk holds no newline before the cap and the body
    // falls back to everything before the last newline seen
    let line = {
        let mut l = vec![b'x'; 1023];
        l.push(b'\n');
        l
    };
    let mut acc = BodyAccumulator::new();
    let mut fed: usize = 0;
    let mut more = true;
    while more && fed < 680 * 1024 {
        more = acc.push_chunk(&line);
        fed += line.len();
    }
    let (body, truncated) = acc.finish();
    assert!(truncated);
    assert!(body.len() <= MAX_ROBOTS_TXT_SIZE);
    // cut exactly before the stream's last newline: no partial line kept
    assert_eq!(body.len(), MAX_ROBOTS_TXT_SIZE - 1);
    assert_eq!(*body.last().unwrap(), b'x');
}

#[test]
fn test_accumulator_crossing_chunk_keeps_last_line() {
    let mut acc = BodyAccumulator::new();
    // fill close to the cap with complete lines
    let filler = vec![b'a'; MAX_ROBOTS_TXT_SIZE - 10];
    let mut chunk = filler.clone();
    chunk[MAX_ROBOTS_TXT_SIZE - 11] = b'\n';
    assert!(acc.push_chunk(&chunk));
    // a crossing chunk whose prefix holds a newline
    let crossing = b"12345\n6789012345".to_vec();
    let more = acc.push_chunk(&crossing);
    assert!(!more);
    let (body, truncated) = acc.finish();
    assert!(truncated);
    assert!(body.len() <= MAX_ROBOTS_TXT_SIZE);
    assert!(body.ends_with(b"12345\n"));
}

#[test]
fn test_accumulator_no_newline_yields_empty_body() {
    // repeated text with no newline at all, past the cap
    let chunk = b"User-agent: bot".to_vec();
    let mut acc = BodyAccumulator::new();
    let mut more = true;
    let mut fed: usize = 0;
    while more && fed < 680 * 1024 {
        more = acc.push_chunk(&chunk);
        fed += chunk.len();
    }
    let (body, truncated) = acc.finish();
    assert!(truncated);
    assert!(body.is_empty());
}

#[test]
fn test_classify_status_2xx() {
    assert!(classify_status(200).is_ok());
    assert!(classify_status(204).is_ok());
    assert!(classify_status(299).is_ok());
}

#[test]
fn test_classify_status_4xx() {
    assert_eq!(classify_status(404), Err(FetchError::Unavailable(404)));
    assert_eq!(classify_status(403), Err(FetchError::Unavailable(403)));
}

#[test]
fn test_classify_status_5xx() {
    match classify_status(503) {
        Err(FetchError::Unreachable((msg, status))) => {
            assert_eq!(msg, "Server error: 503");
            assert_eq!(status, Some(503));
        }
        other => panic!("unexpected: {other:?}"),
    }
}

#[test]
fn test_classify_status_other() {
    match classify_status(301) {
        Err(FetchError::Unreachable((msg, status))) => {
            assert_eq!(msg, "Unexpected status: 301");
            assert_eq!(status, None);
        }
        other => panic!("unexpected: {other:?}"),
    }
}

#[test]
fn test_error_messages() {
    assert_eq!(FetchError::TooManyRedirects.message(), "Too many redirects");
    assert_eq!(FetchError::Timeout.message(), "Request timeout");
    assert_eq!(
        FetchError::Unavailable(404).message(),
        "Robots.txt unavailable: HTTP 404"
    );
    assert_eq!(
        FetchError::Unreachable(("boom".to_string(), None)).message(),
        "Server unreachable: boom"
    );
    assert_eq!(
        FetchError::InvalidUrl("no scheme".to_string()).message(),
        "Invalid URL: no scheme"
    );
    assert_eq!(
        FetchError::ParseError("x".to_string()).message(),
        "Failed to parse robots.txt"
    );
}

#[test]
fn test_build_success_snapshot_parses_body() {
    let body = b"User-agent: *\nDisallow: /private\n\nSitemap: https://example.com/sitemap.xml".to_vec();
    let snap = build_success_snapshot(
        "http://example.com/",
        "http://example.com/robots.txt",
        200,
        body.len() as u64,
        &body,
        false,
    );
    assert_eq!(snap.access_result, AccessResult::Success);
    assert_eq!(snap.http_status_code, 200);
    assert_eq!(snap.target_url, "http://example.com/");
    assert_eq!(snap.robots_txt_url, "http://example.com/robots.txt");
    assert_eq!(snap.content_length_bytes, body.len() as u64);
    assert!(!snap.truncated);
    assert_eq!(snap.sitemaps, vec!["https://example.com/sitemap.xml".to_string()]);
    assert_eq!(snap.groups.len(), 1);
    assert_eq!(snap.groups[0].user_agents, vec!["*".to_string()]);
    assert_eq!(snap.groups[0].rules.len(), 1);
    assert_eq!(snap.groups[0].rules[0].rule_type, 2);
    assert_eq!(snap.groups[0].rules[0].path_pattern, "/private");
    assert!(!snap.is_allowed("AnyBot", "/private/x"));
    assert!(snap.is_allowed("AnyBot", "/public"));
}

#[test]
fn test_build_success_snapshot_empty_body() {
    let snap = build_success_snapshot("http://h/", "http://h/robots.txt", 200, 0, &vec![], false);
    assert_eq!(snap.groups.len(), 0);
    assert_eq!(snap.sitemaps.len(), 0);
    assert!(snap.is_allowed("AnyBot", "/anything"));
}

#[test]
fn test_truncated_stream_still_parses() {
    // one user-agent line, then ~680 KiB of complete directive lines;
    // the stored prefix must parse to at least one group.
    let mut acc = BodyAccumulator::new();
    acc.push_chunk(&b"User-agent: *\n".to_vec());
    let chunk: Vec<u8> = b"Disallow: /private\n".repeat(3400);
    let mut more = true;
    let mut fed: usize = 14;
    while more && fed < 680 * 1024 {
        more = acc.push_chunk(&chunk);
        fed += chunk.len();
    }
    let (body, truncated) = acc.finish();
    assert!(truncated);
    assert!(body.len() <= MAX_ROBOTS_TXT_SIZE);
    let snap = build_success_snapshot(
        "http://h/",
        "http://h/robots.txt",
        200,
        fed as u64,
        &body,
        truncated,
    );
    assert!(snap.truncated);
    assert_eq!(snap.content_length_bytes, fed as u64);
    assert!(snap.groups.len() >= 1);
    assert!(!snap.is_allowed("bot", "/private/x"));
}
