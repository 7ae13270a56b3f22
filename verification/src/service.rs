//! The request coordinator: cache lookups keyed by canonical robots URL,
//! normalization of fetch outcomes into snapshots, negative caching, and
//! the fail-closed IsAllowed decision.

use vstd::prelude::*;
use vstd::string::StringExecFns;

use crate::cache::{Cache, CacheError};
use crate::fetcher::{url_parse_err_of, url_parts_of, FetchError};
use crate::matcher::spec_is_allowed;
use crate::robots_data::{AccessResult, RobotsData, RobotsDataV};

verus! {

/// A caller-visible failure of the service: the caller's URL was bad, or
/// something internal went wrong.
#[derive(Debug)]
pub enum ServiceError {
    InvalidArgument(String),
    Internal(String),
}

/// The description of a service error.
pub open spec fn spec_service_message(e: ServiceError) -> Seq<char> {
    match e {
        ServiceError::InvalidArgument(m) => m@,
        ServiceError::Internal(m) => m@,
    }
}

impl ServiceError {
    /// Renders the error as text.
    pub fn message(&self) -> (r: String)
        ensures
            r@ == spec_service_message(*self),
    {
        match self {
            ServiceError::InvalidArgument(m) => String::from_str(m.as_str()),
            ServiceError::Internal(m) => String::from_str(m.as_str()),
        }
    }
}

/// The path-plus-query of a target URL: the URL's path, and `?` with the
/// raw query when one is present; or the parse error's text.
pub open spec fn path_query_spec(s: Seq<char>) -> Result<Seq<char>, Seq<char>> {
    match url_parts_of(s) {
        None => Err(url_parse_err_of(s)),
        Some(p) => Ok(
            p.path + match p.query {
                None => Seq::<char>::empty(),
                Some(q) => "?"@ + q,
            },
        ),
    }
}

/// Extracts the request path for matching: path plus `?` and the raw
/// query; fragments are discarded.
pub fn extract_path_from_url(url: &str) -> (r: Result<String, ServiceError>)
    ensures
        ({
            let expect = path_query_spec(url@);
            match r {
                Ok(p) => expect is Ok && p@ == expect->Ok_0,
                Err(e) => expect is Err && match e {
                    ServiceError::InvalidArgument(m) => m@ == expect->Err_0,
                    _ => false,
                },
            }
        }),
{
    let parts = match crate::fetcher::parse_url_parts(url) {
        Ok(p) => p,
        Err(m) => {
            return Err(ServiceError::InvalidArgument(m));
        },
    };
    let mut path = String::from_str(parts.path.as_str());
    match parts.query {
        Some(q) => {
            path.append("?");
            path.append(q.as_str());
        },
        None => {},
    }
    Ok(path)
}

/// An empty snapshot that records only a fetch outcome.
pub open spec fn outcome_snapshot_v(
    target_url: Seq<char>,
    robots_url: Seq<char>,
    access: AccessResult,
    status: u32,
) -> RobotsDataV {
    RobotsDataV {
        target_url: target_url,
        robots_txt_url: robots_url,
        access_result: access,
        http_status_code: status,
        groups: Seq::empty(),
        sitemaps: Seq::empty(),
        content_length_bytes: 0,
        truncated: false,
    }
}

/// Builds the empty snapshot for a non-success outcome.
pub fn outcome_snapshot(
    target_url: String,
    robots_url: String,
    access: AccessResult,
    status: u32,
) -> (r: RobotsData)
    ensures
        r@ == outcome_snapshot_v(target_url@, robots_url@, access, status),
{
    let r = RobotsData {
        target_url,
        robots_txt_url: robots_url,
        access_result: access,
        http_status_code: status,
        groups: Vec::new(),
        sitemaps: Vec::new(),
        content_length_bytes: 0,
        truncated: false,
    };
    proof {
        assert(r@.groups =~= Seq::<crate::robots_data::GroupV>::empty());
        assert(r@.sitemaps =~= Seq::<Seq<char>>::empty());
    }
    r
}

/// The snapshot that a fetch outcome is normalized to, when it is one of
/// the outcomes that are recovered locally and cached.
pub open spec fn normalized_snapshot_v(
    target_url: Seq<char>,
    robots_url: Seq<char>,
    e: FetchError,
) -> RobotsDataV {
    match e {
        FetchError::Unavailable(s) => outcome_snapshot_v(
            target_url,
            robots_url,
            AccessResult::Unavailable,
            s as u32,
        ),
        FetchError::Unreachable(p) => outcome_snapshot_v(
            target_url,
            robots_url,
            AccessResult::Unreachable,
            match p.1 {
                Some(s) => s as u32,
                None => 0,
            },
        ),
        _ => outcome_snapshot_v(target_url, robots_url, AccessResult::Unreachable, 0),
    }
}

/// A fetch outcome that is recovered locally: it becomes a snapshot and
/// is cached. Invalid URLs and parse errors are surfaced instead.
pub open spec fn outcome_is_recovered(outcome: Result<RobotsData, FetchError>) -> bool {
    match outcome {
        Ok(_) => true,
        Err(e) => match e {
            FetchError::Unavailable(_) => true,
            FetchError::Unreachable(_) => true,
            FetchError::Timeout => true,
            FetchError::TooManyRedirects => true,
            FetchError::ParseError(_) => false,
            FetchError::InvalidUrl(_) => false,
        },
    }
}

/// The shared server state: the snapshot cache behind the coordinator.
/// The fetch itself is I/O and runs outside; the coordinator consumes
/// its outcome.
pub struct RobotsServer<T: Cache<String, RobotsData>> {
    cache: T,
}

impl<T: Cache<String, RobotsData>> RobotsServer<T> {
    /// The snapshots currently stored, keyed by canonical robots URL.
    pub closed spec fn cached(&self) -> Map<Seq<char>, RobotsData> {
        self.cache.contents()
    }

    /// A coordinator over the given cache.
    pub fn new(cache: T) -> (r: RobotsServer<T>)
        ensures
            r.cached() == cache.contents(),
    {
        RobotsServer { cache }
    }

    /// Cache lookup for a canonical robots URL. A hit returns exactly
    /// the stored snapshot; on a miss the caller fetches and then calls
    /// `complete_fetch`.
    pub fn get_cached(&self, robots_url: &String) -> (r: Result<Option<RobotsData>, ServiceError>)
        ensures
            match r {
                Ok(Some(v)) => self.cached().contains_key(robots_url@) && v == self.cached().index(
                    robots_url@,
                ),
                Ok(None) => true,
                Err(e) => e is Internal,
            },
    {
        match self.cache.get(robots_url) {
            Ok(v) => Ok(v),
            Err(e) => Err(ServiceError::Internal(e.message())),
        }
    }

    /// Normalizes a fetch outcome into the snapshot the caller receives.
    /// Success, unavailable (4xx), unreachable (5xx and transport
    /// failures), timeout and the redirect limit are recovered locally:
    /// the snapshot is stored under the robots URL — negative outcomes
    /// exactly like successes, so that one fetch serves a whole TTL
    /// window — and returned. A fetched snapshot must already name the
    /// robots URL it was fetched from: the cache key and the snapshot's
    /// `robots_txt_url` coincide. An invalid URL surfaces as
    /// InvalidArgument and a parse failure as Internal; neither is
    /// cached. A failure of the cache write is swallowed: the caller
    /// still gets the snapshot.
    pub fn complete_fetch(
        &mut self,
        robots_url: String,
        target_url: String,
        outcome: Result<RobotsData, FetchError>,
    ) -> (r: Result<RobotsData, ServiceError>)
        requires
            outcome matches Ok(d) ==> d@.robots_txt_url == robots_url@ && d@.target_url
                == target_url@,
        ensures
            match r {
                Ok(data) => {
                    &&& outcome_is_recovered(outcome)
                    &&& data@.robots_txt_url == robots_url@
                    &&& data@.target_url == target_url@
                    &&& (final(self).cached() == old(self).cached().insert(robots_url@, data)
                        || final(self).cached() == old(self).cached())
                    &&& (match outcome {
                        Ok(d) => data == d,
                        Err(e) => data@ == normalized_snapshot_v(target_url@, robots_url@, e),
                    })
                },
                Err(e) => {
                    &&& !outcome_is_recovered(outcome)
                    &&& final(self).cached() == old(self).cached()
                    &&& (match outcome {
                        Ok(_) => false,
                        Err(fe) => match fe {
                            FetchError::InvalidUrl(m) => e matches ServiceError::InvalidArgument(
                                em,
                            ) && em@ == crate::fetcher::spec_message(FetchError::InvalidUrl(m)),
                            FetchError::ParseError(m) => e matches ServiceError::Internal(em)
                                && em@ == crate::fetcher::spec_message(FetchError::ParseError(m)),
                            _ => false,
                        },
                    })
                },
            },
    {
        let data = match outcome {
            Ok(d) => d,
            Err(e) => match e {
                FetchError::Unavailable(s) => outcome_snapshot(
                    target_url,
                    robots_url.clone(),
                    AccessResult::Unavailable,
                    s as u32,
                ),
                FetchError::Unreachable(p) => {
                    let status: u32 = match p.1 {
                        Some(s) => s as u32,
                        None => 0,
                    };
                    outcome_snapshot(
                        target_url,
                        robots_url.clone(),
                        AccessResult::Unreachable,
                        status,
                    )
                },
                FetchError::Timeout => outcome_snapshot(
                    target_url,
                    robots_url.clone(),
                    AccessResult::Unreachable,
                    0,
                ),
                FetchError::TooManyRedirects => outcome_snapshot(
                    target_url,
                    robots_url.clone(),
                    AccessResult::Unreachable,
                    0,
                ),
                FetchError::InvalidUrl(_) => {
                    let m = e.message();
                    return Err(ServiceError::InvalidArgument(m));
                },
                FetchError::ParseError(_) => {
                    let m = e.message();
                    return Err(ServiceError::Internal(m));
                },
            },
        };
        let _ = self.cache.set(&robots_url, &data);
        Ok(data)
    }

    /// Removes the snapshot stored under a robots URL.
    pub fn evict(&mut self, robots_url: &String) -> (r: Result<bool, ServiceError>)
        ensures
            match r {
                Ok(_) => final(self).cached() == old(self).cached().remove(robots_url@),
                Err(e) => final(self).cached() == old(self).cached() && e is Internal,
            },
    {
        match self.cache.delete(robots_url) {
            Ok(b) => Ok(b),
            Err(e) => Err(ServiceError::Internal(e.message())),
        }
    }
}

/// The IsAllowed decision over a snapshot. Fail-closed: a snapshot whose
/// access result is Unreachable denies every request. Any other snapshot
/// — success, unavailable, or not yet fetched — is evaluated by the
/// matcher on the target's path-plus-query; an unavailable snapshot has
/// no groups, so it allows everything.
pub fn decide_allowed(data: &RobotsData, user_agent: &str, target_url: &str) -> (r: Result<
    bool,
    ServiceError,
>)
    ensures
        data@.access_result == AccessResult::Unreachable ==> r == Ok::<bool, ServiceError>(false),
        data@.access_result != AccessResult::Unreachable ==> match r {
            Ok(b) => path_query_spec(target_url@) is Ok && b == spec_is_allowed(
                data@,
                user_agent@,
                path_query_spec(target_url@)->Ok_0,
            ),
            Err(e) => path_query_spec(target_url@) is Err && e is InvalidArgument,
        },
{
    match data.access_result {
        AccessResult::Unreachable => Ok(false),
        _ => {
            let path = match extract_path_from_url(target_url) {
                Ok(p) => p,
                Err(e) => {
                    return Err(e);
                },
            };
            Ok(data.is_allowed(user_agent, path.as_str()))
        },
    }
}

/// Unlimited access when robots.txt is unavailable: an unavailable
/// snapshot carries no groups, so the matcher allows every request
/// against it — only an unreachable snapshot fails closed.
pub proof fn lemma_unavailable_allows(
    target_url: Seq<char>,
    robots_url: Seq<char>,
    status: u32,
    ua: Seq<char>,
    path: Seq<char>,
)
    ensures
        spec_is_allowed(
            outcome_snapshot_v(target_url, robots_url, AccessResult::Unavailable, status),
            ua,
            path,
        ),
{
    crate::matcher::lemma_empty_policy_allows(
        outcome_snapshot_v(target_url, robots_url, AccessResult::Unavailable, status),
        ua,
        path,
    );
}

/// Cache-hit equivalence: once a snapshot has been stored under its
/// robots URL, a lookup that hits that key returns the stored snapshot
/// itself — two consecutive reads in one TTL window see byte-identical
/// data, and no second fetch stands between them.
pub proof fn lemma_cache_hit_equivalence(
    before: Map<Seq<char>, RobotsData>,
    key: Seq<char>,
    data: RobotsData,
    hit: RobotsData,
)
    requires
        hit == before.insert(key, data)[key],
    ensures
        hit == data,
{
}

/// Negative caching: an unavailable or unreachable snapshot is stored
/// exactly like a success, so within one TTL window a later lookup that
/// hits the key serves the stored negative snapshot and the origin is
/// not contacted again; entries under other keys are untouched.
pub proof fn lemma_negative_caching(
    before: Map<Seq<char>, RobotsData>,
    key: Seq<char>,
    snap: RobotsData,
    hit: RobotsData,
)
    requires
        snap@.access_result == AccessResult::Unavailable || snap@.access_result
            == AccessResult::Unreachable,
        hit == before.insert(key, snap)[key],
    ensures
        hit == snap,
        hit@.access_result != AccessResult::Success,
        forall|k: Seq<char>| k != key ==> before.insert(key, snap).contains_key(k) == #[trigger] before.contains_key(k),
        forall|k: Seq<char>|
            k != key && before.contains_key(k) ==> before.insert(key, snap)[k] == #[trigger] before[k],
{
}

} // verus!
