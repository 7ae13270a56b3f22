use robots_server::cache::{Cache, MokaCache};
use robots_server::fetcher::FetchError;
use robots_server::robots_data::{AccessResult, RobotsData};
use robots_server::service::{
    decide_allowed, extract_path_from_url, outcome_snapshot, RobotsServer, ServiceError,
};

fn success_snapshot(target: &str, robots: &str) -> RobotsData {
    robots_server::fetcher::build_success_snapshot(
        target,
        robots,
        200,
        0,
        &b"User-agent: *\nDisallow: /private\n".to_vec(),
        false,
    )
}

#[test]
fn test_extract_path_plain() {
    assert_eq!(
        extract_path_from_url("http://example.com/a/b.html").unwrap(),
        "/a/b.html"
    );
}

#[test]
fn test_extract_path_with_query() {
    assert_eq!(
        extract_path_from_url("http://example.com/search?q=test").unwrap(),
        "/search?q=test"
    );
}

#[test]
fn test_extract_path_drops_fragment() {
    assert_eq!(
        extract_path_from_url("http://example.com/page#section").unwrap(),
        "/page"
    );
}

#[test]
fn test_extract_path_invalid_url() {
    match extract_path_from_url("not-a-valid-url") {
        Err(ServiceError::InvalidArgument(_)) => {}
        other => panic!("unexpected: {other:?}"),
    }
}

#[test]
fn test_cache_miss_then_hit() {
    let mut server = RobotsServer::new(MokaCache::new());
    let robots_url = "http://h/robots.txt".to_string();
    assert!(server.get_cached(&robots_url).unwrap().is_none());
    let snap = success_snapshot("http://h/", "http://h/robots.txt");
    let stored = server
        .complete_fetch(robots_url.clone(), "http://h/".to_string(), Ok(snap))
        .unwrap();
    let first = server.get_cached(&robots_url).unwrap().unwrap();
    let second = server.get_cached(&robots_url).unwrap().unwrap();
    // cache-hit equivalence: both hits are the stored snapshot, field for field
    for got in [&first, &second] {
        assert_eq!(got.target_url, stored.target_url);
        assert_eq!(got.robots_txt_url, stored.robots_txt_url);
        assert_eq!(got.access_result, stored.access_result);
        assert_eq!(got.http_status_code, stored.http_status_code);
        assert_eq!(got.groups.len(), stored.groups.len());
        assert_eq!(got.sitemaps, stored.sitemaps);
        assert_eq!(got.to_robots_txt(), stored.to_robots_txt());
    }
}

#[test]
fn test_404_is_cached_negatively() {
    let mut server = RobotsServer::new(MokaCache::new());
    let robots_url = "http://h/robots.txt".to_string();
    let stored = server
        .complete_fetch(
            robots_url.clone(),
            "http://h/".to_string(),
            Err(FetchError::Unavailable(404)),
        )
        .unwrap();
    assert_eq!(stored.access_result, AccessResult::Unavailable);
    assert_eq!(stored.http_status_code, 404);
    // a later lookup hits: no second fetch is needed within the TTL
    let hit = server.get_cached(&robots_url).unwrap().unwrap();
    assert_eq!(hit.access_result, AccessResult::Unavailable);
    assert_eq!(hit.http_status_code, 404);
    assert!(hit.groups.is_empty());
}

#[test]
fn test_500_is_cached_negatively() {
    let mut server = RobotsServer::new(MokaCache::new());
    let robots_url = "http://h/robots.txt".to_string();
    let stored = server
        .complete_fetch(
            robots_url.clone(),
            "http://h/".to_string(),
            Err(FetchError::Unreachable(("Server error: 500".to_string(), Some(500)))),
        )
        .unwrap();
    assert_eq!(stored.access_result, AccessResult::Unreachable);
    assert_eq!(stored.http_status_code, 500);
    let hit = server.get_cached(&robots_url).unwrap().unwrap();
    assert_eq!(hit.access_result, AccessResult::Unreachable);
}

#[test]
fn test_timeout_is_cached_as_unreachable() {
    let mut server = RobotsServer::new(MokaCache::new());
    let robots_url = "http://h/robots.txt".to_string();
    let stored = server
        .complete_fetch(robots_url.clone(), "http://h/".to_string(), Err(FetchError::Timeout))
        .unwrap();
    assert_eq!(stored.access_result, AccessResult::Unreachable);
    assert_eq!(stored.http_status_code, 0);
    assert!(server.get_cached(&robots_url).unwrap().is_some());
}

#[test]
fn test_redirect_limit_is_cached_as_unreachable() {
    let mut server = RobotsServer::new(MokaCache::new());
    let robots_url = "http://h/robots.txt".to_string();
    let stored = server
        .complete_fetch(
            robots_url.clone(),
            "http://h/".to_string(),
            Err(FetchError::TooManyRedirects),
        )
        .unwrap();
    assert_eq!(stored.access_result, AccessResult::Unreachable);
    // fail-closed follows for such a snapshot
    assert_eq!(decide_allowed(&stored, "MyBot", "http://h/x").unwrap(), false);
}

#[test]
fn test_invalid_url_is_not_cached() {
    let mut server = RobotsServer::new(MokaCache::new());
    let robots_url = "http://h/robots.txt".to_string();
    let r = server.complete_fetch(
        robots_url.clone(),
        "http://h/".to_string(),
        Err(FetchError::InvalidUrl("bad".to_string())),
    );
    match r {
        Err(ServiceError::InvalidArgument(m)) => assert_eq!(m, "Invalid URL: bad"),
        other => panic!("unexpected: {other:?}"),
    }
    assert!(server.get_cached(&robots_url).unwrap().is_none());
}

#[test]
fn test_parse_error_is_internal() {
    let mut server = RobotsServer::new(MokaCache::new());
    let r = server.complete_fetch(
        "http://h/robots.txt".to_string(),
        "http://h/".to_string(),
        Err(FetchError::ParseError("bad".to_string())),
    );
    match r {
        Err(ServiceError::Internal(m)) => assert_eq!(m, "Failed to parse robots.txt"),
        other => panic!("unexpected: {other:?}"),
    }
}

#[test]
fn test_different_urls_different_entries() {
    let mut server = RobotsServer::new(MokaCache::new());
    let a = "http://a.example/robots.txt".to_string();
    let b = "http://b.example/robots.txt".to_string();
    server
        .complete_fetch(a.clone(), "http://a.example/".to_string(), Err(FetchError::Unavailable(404)))
        .unwrap();
    assert!(server.get_cached(&a).unwrap().is_some());
    assert!(server.get_cached(&b).unwrap().is_none());
}

#[test]
fn test_evict_removes_entry() {
    let mut server = RobotsServer::new(MokaCache::new());
    let key = "http://h/robots.txt".to_string();
    server
        .complete_fetch(key.clone(), "http://h/".to_string(), Err(FetchError::Unavailable(404)))
        .unwrap();
    assert!(server.get_cached(&key).unwrap().is_some());
    assert!(server.evict(&key).unwrap());
    assert!(server.get_cached(&key).unwrap().is_none());
    assert!(!server.evict(&key).unwrap());
}

#[test]
fn test_fail_closed_on_unreachable() {
    let snap = outcome_snapshot(
        "http://h/x".to_string(),
        "http://h/robots.txt".to_string(),
        AccessResult::Unreachable,
        0,
    );
    assert_eq!(decide_allowed(&snap, "MyBot", "http://h/x").unwrap(), false);
}

#[test]
fn test_unavailable_allows_everything() {
    let snap = outcome_snapshot(
        "http://h/x".to_string(),
        "http://h/robots.txt".to_string(),
        AccessResult::Unavailable,
        404,
    );
    assert_eq!(decide_allowed(&snap, "MyBot", "http://h/x").unwrap(), true);
}

#[test]
fn test_decide_allowed_uses_path_and_query() {
    let snap = robots_server::fetcher::build_success_snapshot(
        "http://h/",
        "http://h/robots.txt",
        200,
        0,
        &b"User-agent: *\nDisallow: /search?\n".to_vec(),
        false,
    );
    assert_eq!(decide_allowed(&snap, "MyBot", "http://h/search?q=test").unwrap(), false);
    assert_eq!(decide_allowed(&snap, "MyBot", "http://h/search").unwrap(), true);
}

#[test]
fn test_moka_cache_direct_operations() {
    let mut cache = MokaCache::new();
    let key = "http://h/robots.txt".to_string();
    assert!(cache.get(&key).unwrap().is_none());
    let value = success_snapshot("http://h/", "http://h/robots.txt");
    cache.set(&key, &value).unwrap();
    let got = cache.get(&key).unwrap().unwrap();
    assert_eq!(got.target_url, value.target_url);
    assert_eq!(got.groups.len(), value.groups.len());
    assert!(cache.delete(&key).unwrap());
    assert!(cache.get(&key).unwrap().is_none());
    assert!(!cache.delete(&key).unwrap());
}
