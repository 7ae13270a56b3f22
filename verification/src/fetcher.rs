//! The fetch pipeline's verifiable core: canonicalization of a target URL
//! to its robots.txt URL, classification of HTTP status codes into fetch
//! outcomes, the size-bounded newline-aligned body accumulator, and the
//! projection of a fetched body into a policy snapshot.

use vstd::prelude::*;
use vstd::string::StrSliceExecFns;
use vstd::string::StringExecFns;

use crate::robots_data::{AccessResult, ParsedEntry, RobotsData};
use crate::text::{
    append_decimal, contains_sub, dec_rep, digit_char, lemma_dec_rep_digits,
    lemma_dec_rep_injective, matches_at,
};

verus! {

/// Why a fetch failed.
#[derive(Debug, PartialEq, Eq)]
pub enum FetchError {
    TooManyRedirects,
    Unavailable(u16),
    Unreachable((String, Option<u16>)),
    Timeout,
    ParseError(String),
    InvalidUrl(String),
}

/// The description of a fetch error.
pub open spec fn spec_message(e: FetchError) -> Seq<char> {
    match e {
        FetchError::TooManyRedirects => "Too many redirects"@,
        FetchError::Unavailable(s) => "Robots.txt unavailable: HTTP "@ + dec_rep(s as nat),
        FetchError::Unreachable(p) => "Server unreachable: "@ + p.0@,
        FetchError::Timeout => "Request timeout"@,
        FetchError::ParseError(_) => "Failed to parse robots.txt"@,
        FetchError::InvalidUrl(m) => "Invalid URL: "@ + m@,
    }
}

impl FetchError {
    /// Renders the error as text.
    pub fn message(&self) -> (r: String)
        ensures
            r@ == spec_message(*self),
    {
        match self {
            FetchError::TooManyRedirects => String::from_str("Too many redirects"),
            FetchError::Unavailable(s) => {
                let mut m = String::from_str("Robots.txt unavailable: HTTP ");
                append_decimal(&mut m, *s);
                m
            },
            FetchError::Unreachable(p) => {
                let mut m = String::from_str("Server unreachable: ");
                m.append(p.0.as_str());
                m
            },
            FetchError::Timeout => String::from_str("Request timeout"),
            FetchError::ParseError(_) => String::from_str("Failed to parse robots.txt"),
            FetchError::InvalidUrl(m0) => {
                let mut m = String::from_str("Invalid URL: ");
                m.append(m0.as_str());
                m
            },
        }
    }
}

/// The components of an absolute URL that this library reads, as plain
/// values, in the normalized form the URL parser produces.
pub struct UrlParts {
    pub scheme: String,
    pub host: Option<String>,
    pub port: Option<u16>,
    pub path: String,
    pub query: Option<String>,
}

/// Mathematical model of the URL components.
#[verifier::ext_equal]
pub struct UrlPartsV {
    pub scheme: Seq<char>,
    pub host: Option<Seq<char>>,
    pub port: Option<u16>,
    pub path: Seq<char>,
    pub query: Option<Seq<char>>,
}

impl View for UrlParts {
    type V = UrlPartsV;

    open spec fn view(&self) -> UrlPartsV {
        UrlPartsV {
            scheme: self.scheme@,
            host: match self.host {
                Some(h) => Some(h@),
                None => None,
            },
            port: self.port,
            path: self.path@,
            query: match self.query {
                Some(q) => Some(q@),
                None => None,
            },
        }
    }
}

/// What `url::Url::parse` and its accessors yield for a given input:
/// `None` when the input is not an absolute URL.
pub uninterp spec fn url_parts_of(s: Seq<char>) -> Option<UrlPartsV>;

/// The display text of the parse error for an input that is not an
/// absolute URL.
pub uninterp spec fn url_parse_err_of(s: Seq<char>) -> Seq<char>;

/// Relies on url::Url::parse and its accessors scheme, host_str, port,
/// path and query: the components depend on the input string alone, and
/// come back normalized (lowercased scheme and host, default port
/// elided). On failure, the parse error's display text.
#[verifier::external_body]
pub(crate) fn parse_url_parts(s: &str) -> (r: Result<UrlParts, String>)
    ensures
        match r {
            Ok(p) => url_parts_of(s@) is Some && p@ == url_parts_of(s@)->0,
            Err(m) => url_parts_of(s@) is None && m@ == url_parse_err_of(s@),
        },
{
    match url::Url::parse(s) {
        Ok(u) => Ok(UrlParts {
            scheme: u.scheme().to_string(),
            host: u.host_str().map(|h| h.to_string()),
            port: u.port(),
            path: u.path().to_string(),
            query: u.query().map(|q| q.to_string()),
        }),
        Err(e) => Err(e.to_string()),
    }
}

/// The default port of a supported scheme.
pub open spec fn default_port(scheme: Seq<char>) -> u16 {
    if scheme == "http"@ {
        80
    } else {
        443
    }
}

/// Default-port elision: the port to print, if any.
pub open spec fn elided_port(scheme: Seq<char>, port: Option<u16>) -> Option<u16> {
    match port {
        None => None,
        Some(p) => if p == default_port(scheme) {
            None
        } else {
            Some(p)
        },
    }
}

/// The canonical robots.txt URL for a scheme, host and port.
pub open spec fn canonical_robots_url(scheme: Seq<char>, host: Seq<char>, port: Option<u16>) -> Seq<
    char,
> {
    match elided_port(scheme, port) {
        None => scheme + "://"@ + host + "/robots.txt"@,
        Some(p) => scheme + "://"@ + host + ":"@ + dec_rep(p as nat) + "/robots.txt"@,
    }
}

/// What `extract_robots_url` returns: the canonical robots URL of a valid
/// http or https URL, or the text of the error that rejects the input.
pub open spec fn robots_url_spec(s: Seq<char>) -> Result<Seq<char>, Seq<char>> {
    match url_parts_of(s) {
        None => Err("Failed to parse URL: "@ + url_parse_err_of(s)),
        Some(p) => if p.scheme != "http"@ && p.scheme != "https"@ {
            Err("Unsupported scheme: "@ + p.scheme)
        } else if p.host is None {
            Err("URL has no host"@)
        } else {
            Ok(canonical_robots_url(p.scheme, p.host->0, p.port))
        },
    }
}

/// Derives the canonical robots.txt URL for a target URL: the scheme must
/// be http or https and a host must be present; path, query and fragment
/// are discarded, and a default port is elided.
pub fn extract_robots_url(target_url: &str) -> (r: Result<String, FetchError>)
    ensures
        ({
            let expect = robots_url_spec(target_url@);
            match r {
                Ok(u) => expect is Ok && u@ == expect->Ok_0,
                Err(e) => expect is Err && match e {
                    FetchError::InvalidUrl(m) => m@ == expect->Err_0,
                    _ => false,
                },
            }
        }),
{
    let parts = match parse_url_parts(target_url) {
        Ok(p) => p,
        Err(m) => {
            let mut s = String::from_str("Failed to parse URL: ");
            s.append(m.as_str());
            return Err(FetchError::InvalidUrl(s));
        },
    };
    let http_s = String::from_str("http");
    let https_s = String::from_str("https");
    let is_http = parts.scheme == http_s;
    let is_https = parts.scheme == https_s;
    if !is_http && !is_https {
        let mut s = String::from_str("Unsupported scheme: ");
        s.append(parts.scheme.as_str());
        return Err(FetchError::InvalidUrl(s));
    }
    let host = match parts.host {
        Some(h) => h,
        None => {
            return Err(FetchError::InvalidUrl(String::from_str("URL has no host")));
        },
    };
    let mut u = String::new();
    u.append(parts.scheme.as_str());
    u.append("://");
    u.append(host.as_str());
    match parts.port {
        Some(p) => {
            let dp: u16 = if is_http {
                80
            } else {
                443
            };
            if p != dp {
                u.append(":");
                append_decimal(&mut u, p);
            }
        },
        None => {},
    }
    u.append("/robots.txt");
    proof {
        let pv = url_parts_of(target_url@)->0;
        assert(u@ == canonical_robots_url(pv.scheme, pv.host->0, pv.port));
    }
    Ok(u)
}

/// Canonical idempotence: canonicalizing the components a canonical
/// robots URL is built from — same scheme and host, the elided port,
/// path `/robots.txt`, no query — yields the same robots URL, and
/// elision itself is idempotent.
pub proof fn lemma_canonical_idempotent(scheme: Seq<char>, host: Seq<char>, port: Option<u16>)
    ensures
        canonical_robots_url(scheme, host, elided_port(scheme, port)) == canonical_robots_url(
            scheme,
            host,
            port,
        ),
        elided_port(scheme, elided_port(scheme, port)) == elided_port(scheme, port),
{
}

/// The tail of every canonical robots URL holds no colon and starts
/// with a slash.
proof fn lemma_tail_chars()
    ensures
        "/robots.txt"@.len() == 11,
        "/robots.txt"@[0] == '/',
        forall|j: int| 0 <= j < 11 ==> #[trigger] "/robots.txt"@[j] != ':',
{
    reveal_strlit("/robots.txt");
    assert forall|j: int| 0 <= j < 11 implies #[trigger] "/robots.txt"@[j] != ':' by {
        if j == 0 {
        } else if j == 1 {
        } else if j == 2 {
        } else if j == 3 {
        } else if j == 4 {
        } else if j == 5 {
        } else if j == 6 {
        } else if j == 7 {
        } else if j == 8 {
        } else if j == 9 {
        } else {
            assert(j == 10);
        }
    }
}

/// A supported scheme's text holds neither colon nor slash.
proof fn lemma_scheme_chars(scheme: Seq<char>)
    requires
        scheme == "http"@ || scheme == "https"@,
    ensures
        forall|j: int| 0 <= j < scheme.len() ==> #[trigger] scheme[j] != ':' && scheme[j] != '/',
{
    reveal_strlit("http");
    reveal_strlit("https");
    assert forall|j: int| 0 <= j < scheme.len() implies #[trigger] scheme[j] != ':' && scheme[j]
        != '/' by {
        if j == 0 {
        } else if j == 1 {
        } else if j == 2 {
        } else if j == 3 {
        } else {
            assert(j == 4);
        }
    }
}

/// In a canonical robots URL, a colon followed by a decimal number and a
/// slash occurs exactly when that number is the printed port.
proof fn lemma_port_pattern_occurrence(
    scheme: Seq<char>,
    host: Seq<char>,
    port: Option<u16>,
    q: u16,
)
    requires
        scheme == "http"@ || scheme == "https"@,
        forall|i: int| 0 <= i < host.len() ==> #[trigger] host[i] != ':' && host[i] != '/',
        1 <= q,
    ensures
        contains_sub(
            canonical_robots_url(scheme, host, port),
            seq![':'] + dec_rep(q as nat) + seq!['/'],
        ) <==> elided_port(scheme, port) == Some(q),
{
    reveal_strlit("://");
    lemma_tail_chars();
    lemma_scheme_chars(scheme);
    lemma_dec_rep_digits(q as nat);
    let s = canonical_robots_url(scheme, host, port);
    let dq = dec_rep(q as nat);
    let pat = seq![':'] + dq + seq!['/'];
    let tail = "/robots.txt"@;
    let pre = scheme + "://"@ + host;
    assert(pat.len() == dq.len() + 2);
    assert(pat[0] == ':');
    assert(forall|k: int| 0 <= k < dq.len() ==> #[trigger] pat[1 + k] == dq[k]);
    assert(pat[dq.len() as int + 1] == '/');
    if elided_port(scheme, port) == Some(q) {
        // the pattern sits exactly at the printed port
        let i0 = pre.len() as int;
        assert(s == pre + ":"@ + dec_rep(q as nat) + tail);
        reveal_strlit(":");
        assert(s.subrange(i0, i0 + pat.len()) =~= pat) by {
            assert forall|k: int| 0 <= k < pat.len() implies s[i0 + k] == pat[k] by {
                if k == 0 {
                    assert(s[i0] == ':');
                } else if k <= dq.len() {
                    assert(s[i0 + k] == dq[k - 1]);
                } else {
                    assert(s[i0 + k] == tail[0]);
                }
            }
        }
        assert(matches_at(s, pat, i0));
        assert(contains_sub(s, pat));
    }
    if contains_sub(s, pat) && elided_port(scheme, port) != Some(q) {
        let i = choose|i: int| matches_at(s, pat, i);
        assert(s.subrange(i, i + pat.len())[0] == pat[0]);
        assert(s[i] == ':');
        match elided_port(scheme, port) {
            None => {
                assert(s == pre + tail);
                if i < scheme.len() {
                    assert(s[i] == scheme[i]);
                    assert(false);
                } else if i < scheme.len() + 3 {
                    let k = i - scheme.len();
                    assert(s[i] == "://"@[k]);
                    if k == 0 {
                        assert(s.subrange(i, i + pat.len())[1] == pat[1]);
                        assert(s[i + 1] == "://"@[1]);
                        assert(pat[1] == dq[0]);
                        assert(48 <= dq[0] as int <= 57);
                        assert(false);
                    } else {
                        assert(false);
                    }
                } else if i < pre.len() {
                    assert(s[i] == host[i - (scheme.len() + 3)]);
                    assert(false);
                } else {
                    assert(s[i] == tail[i - pre.len()]);
                    assert(false);
                }
            },
            Some(p2) => {
                let dp = dec_rep(p2 as nat);
                lemma_dec_rep_digits(p2 as nat);
                reveal_strlit(":");
                assert(s == pre + ":"@ + dp + tail);
                let i0 = pre.len() as int;
                if i < scheme.len() {
                    assert(s[i] == scheme[i]);
                    assert(false);
                } else if i < scheme.len() + 3 {
                    let k = i - scheme.len();
                    assert(s[i] == "://"@[k]);
                    if k == 0 {
                        assert(s.subrange(i, i + pat.len())[1] == pat[1]);
                        assert(s[i + 1] == "://"@[1]);
                        assert(pat[1] == dq[0]);
                        assert(48 <= dq[0] as int <= 57);
                        assert(false);
                    } else {
                        assert(false);
                    }
                } else if i < i0 {
                    assert(s[i] == host[i - (scheme.len() + 3)]);
                    assert(false);
                } else if i == i0 {
                    // a match here forces the printed port to read as q
                    if dp.len() == dq.len() {
                        assert(dp =~= dq) by {
                            assert forall|k: int| 0 <= k < dp.len() implies dp[k] == dq[k] by {
                                assert(s.subrange(i, i + pat.len())[1 + k] == pat[1 + k]);
                                assert(s[i0 + 1 + k] == dp[k]);
                            }
                        }
                        lemma_dec_rep_injective(p2 as nat, q as nat);
                        assert(false);
                    } else if dp.len() < dq.len() {
                        let k = 1 + dp.len() as int;
                        assert(s.subrange(i, i + pat.len())[k] == pat[k]);
                        assert(s[i0 + k] == tail[0]);
                        assert(pat[k] == dq[dp.len() as int]);
                        assert(48 <= dq[dp.len() as int] as int <= 57);
                        assert(false);
                    } else {
                        let k = 1 + dq.len() as int;
                        assert(s.subrange(i, i + pat.len())[k] == pat[k]);
                        assert(s[i0 + k] == dp[dq.len() as int]);
                        assert(pat[k] == '/');
                        assert(48 <= dp[dq.len() as int] as int <= 57);
                        assert(false);
                    }
                } else if i < i0 + 1 + dp.len() as int {
                    assert(s[i] == dp[i - (i0 + 1)]);
                    assert(48 <= dp[i - (i0 + 1)] as int <= 57);
                    assert(false);
                } else {
                    assert(s[i] == tail[i - (i0 + 1 + dp.len())]);
                    assert(false);
                }
            },
        }
    }
}

/// Port elision at the text level: the canonical robots URL contains
/// `:80/` exactly when it was built for an https URL naming port 80, and
/// `:443/` exactly when it was built for an http URL naming port 443 —
/// the scheme's own default port never appears, and no other port can
/// spell these texts. The host must hold neither `:` nor `/`, which is
/// true of domain names and IPv4 addresses (a bracketed IPv6 host is not
/// covered).
pub proof fn lemma_port_elision(scheme: Seq<char>, host: Seq<char>, port: Option<u16>)
    requires
        scheme == "http"@ || scheme == "https"@,
        forall|i: int| 0 <= i < host.len() ==> #[trigger] host[i] != ':' && host[i] != '/',
    ensures
        contains_sub(canonical_robots_url(scheme, host, port), ":80/"@) <==> (scheme == "https"@
            && port == Some(80u16)),
        contains_sub(canonical_robots_url(scheme, host, port), ":443/"@) <==> (scheme == "http"@
            && port == Some(443u16)),
{
    reveal_strlit(":80/");
    reveal_strlit(":443/");
    reveal_strlit("http");
    reveal_strlit("https");
    assert(dec_rep(8nat) =~= seq![digit_char(8nat)]);
    assert(dec_rep(80nat) =~= seq![digit_char(8nat), digit_char(0nat)]);
    assert(dec_rep(4nat) =~= seq![digit_char(4nat)]);
    assert(dec_rep(44nat) =~= seq![digit_char(4nat), digit_char(4nat)]);
    assert(dec_rep(443nat) =~= seq![digit_char(4nat), digit_char(4nat), digit_char(3nat)]);
    assert(digit_char(8nat) == '8');
    assert(digit_char(0nat) == '0');
    assert(digit_char(4nat) == '4');
    assert(digit_char(3nat) == '3');
    assert(":80/"@ =~= seq![':'] + dec_rep(80nat) + seq!['/']);
    assert(":443/"@ =~= seq![':'] + dec_rep(443nat) + seq!['/']);
    lemma_port_pattern_occurrence(scheme, host, port, 80);
    lemma_port_pattern_occurrence(scheme, host, port, 443);
    assert("http"@ != "https"@) by {
        assert("http"@.len() == 4);
    }
}

/// The cap on a robots.txt body: 550 KiB of raw bytes.
pub const MAX_ROBOTS_TXT_SIZE: usize = 550 * 1024;

/// Index of the last newline byte in `s`, or -1 if there is none.
pub open spec fn last_newline_in(s: Seq<u8>) -> int
    decreases s.len(),
{
    if s.len() == 0 {
        -1
    } else if s[s.len() - 1] == 10 {
        s.len() - 1
    } else {
        last_newline_in(s.drop_last())
    }
}

/// The last newline is a newline, and nothing after it is one.
pub proof fn lemma_last_newline_in(s: Seq<u8>)
    ensures
        last_newline_in(s) >= 0 ==> last_newline_in(s) < s.len() && s[last_newline_in(s)] == 10,
        forall|j: int| last_newline_in(s) < j < s.len() ==> s[j] != 10,
        -1 <= last_newline_in(s),
    decreases s.len(),
{
    if s.len() > 0 && s[s.len() - 1] != 10 {
        lemma_last_newline_in(s.drop_last());
        assert forall|j: int| last_newline_in(s) < j < s.len() implies s[j] != 10 by {
            if j < s.len() - 1 {
                assert(s.drop_last()[j] == s[j]);
            }
        }
    }
}

/// Finds the index of the last newline among the first `upto` bytes.
fn last_newline_pos(v: &Vec<u8>, upto: usize) -> (r: Option<usize>)
    requires
        upto <= v@.len(),
    ensures
        match r {
            Some(i) => i < upto && last_newline_in(v@.take(upto as int)) == i as int,
            None => last_newline_in(v@.take(upto as int)) == -1,
        },
{
    let mut j: usize = upto;
    while j > 0
        invariant
            j <= upto,
            upto <= v@.len(),
            last_newline_in(v@.take(upto as int)) == last_newline_in(v@.take(j as int)),
        decreases j,
    {
        j -= 1;
        if v[j] == 10 {
            proof {
                assert(v@.take(j + 1).drop_last() =~= v@.take(j as int));
                assert(v@.take(j + 1)[j as int] == 10);
            }
            return Some(j);
        }
        proof {
            assert(v@.take(j + 1).drop_last() =~= v@.take(j as int));
            assert(v@.take(j + 1)[j as int] != 10);
        }
    }
    proof {
        assert(v@.take(0) =~= Seq::<u8>::empty());
    }
    None
}

/// Copies the first `n` bytes of `v` into a fresh vector.
fn take_prefix_u8(v: &Vec<u8>, n: usize) -> (r: Vec<u8>)
    requires
        n <= v@.len(),
    ensures
        r@ == v@.take(n as int),
{
    let mut r: Vec<u8> = Vec::new();
    let mut i: usize = 0;
    while i < n
        invariant
            i <= n,
            n <= v@.len(),
            r@ == v@.take(i as int),
        decreases n - i,
    {
        r.push(v[i]);
        proof {
            assert(r@ =~= v@.take(i + 1));
        }
        i += 1;
    }
    r
}

/// The size-bounded streaming reader's state: the accumulated body, the
/// position of the last newline seen, and whether the cap was hit. The
/// ghost `stream` records every byte ever pushed.
pub struct BodyAccumulator {
    pub body: Vec<u8>,
    pub last_newline: usize,
    pub truncated: bool,
    pub stream: Ghost<Seq<u8>>,
}

impl BodyAccumulator {
    /// The accumulator's invariant. The body never exceeds the cap and is
    /// a prefix of the byte stream; before truncation it is the whole
    /// stream and `last_newline` locates the last newline in it; after
    /// truncation the body is empty, ends in a newline, or is cut exactly
    /// before a newline of the stream — never in the middle of a line.
    pub open spec fn wf(&self) -> bool {
        &&& self.body@.len() <= MAX_ROBOTS_TXT_SIZE
        &&& self.body@.len() <= self.stream@.len()
        &&& self.body@ == self.stream@.take(self.body@.len() as int)
        &&& (!self.truncated ==> {
            &&& self.body@ == self.stream@
            &&& self.last_newline <= self.body@.len()
            &&& (self.last_newline > 0 ==> self.last_newline < self.body@.len()
                && self.body@[self.last_newline as int] == 10)
            &&& (forall|j: int| self.last_newline < j < self.body@.len() ==> self.body@[j] != 10)
        })
        &&& (self.truncated ==> (self.body@.len() == 0 || self.body@[self.body@.len() - 1] == 10
            || (self.body@.len() < self.stream@.len() && self.stream@[self.body@.len() as int]
                == 10)))
    }

    /// A fresh, empty accumulator.
    pub fn new() -> (r: BodyAccumulator)
        ensures
            r.wf(),
            r.body@ == Seq::<u8>::empty(),
            r.stream@ == Seq::<u8>::empty(),
            !r.truncated,
    {
        let r = BodyAccumulator {
            body: Vec::new(),
            last_newline: 0,
            truncated: false,
            stream: Ghost(Seq::empty()),
        };
        proof {
            assert(r.stream@.take(r.body@.len() as int) =~= r.body@);
        }
        r
    }

    /// Feeds one chunk. A chunk that fits under the cap is appended
    /// whole. A chunk that would cross the cap truncates: the body keeps
    /// the chunk's prefix through its last newline before the cap, or —
    /// if that prefix has none — falls back to everything up to the last
    /// newline seen in earlier chunks. Returns whether to keep reading.
    pub fn push_chunk(&mut self, chunk: &Vec<u8>) -> (more: bool)
        requires
            old(self).wf(),
            !old(self).truncated,
        ensures
            final(self).wf(),
            final(self).stream@ == old(self).stream@ + chunk@,
            more == !final(self).truncated,
            old(self).body@.len() + chunk@.len() <= MAX_ROBOTS_TXT_SIZE ==> {
                &&& !final(self).truncated
                &&& final(self).body@ == old(self).body@ + chunk@
            },
            old(self).body@.len() + chunk@.len() > MAX_ROBOTS_TXT_SIZE ==> {
                &&& final(self).truncated
                &&& ({
                    let rem = MAX_ROBOTS_TXT_SIZE - old(self).body@.len();
                    let cut = last_newline_in(chunk@.take(rem));
                    if cut >= 0 {
                        final(self).body@ == old(self).body@ + chunk@.take(cut + 1)
                    } else {
                        final(self).body@ == old(self).body@.take(old(self).last_newline as int)
                    }
                })
            },
    {
        let bl = self.body.len();
        let cl = chunk.len();
        if cl <= MAX_ROBOTS_TXT_SIZE - bl {
            match last_newline_pos(chunk, cl) {
                Some(p) => {
                    proof {
                        assert(chunk@.take(cl as int) =~= chunk@);
                        lemma_last_newline_in(chunk@);
                    }
                    self.last_newline = bl + p;
                },
                None => {
                    proof {
                        assert(chunk@.take(cl as int) =~= chunk@);
                        lemma_last_newline_in(chunk@);
                    }
                },
            }
            self.body.extend_from_slice(chunk.as_slice());
            proof {
                self.stream@ = self.stream@ + chunk@;
            }
            proof {
                assert(self.body@ =~= self.stream@.take(self.body@.len() as int));
                assert(self.body@ =~= old(self).body@ + chunk@);
                let bv = self.body@;
                let ln = self.last_newline as int;
                assert(ln > 0 ==> bv[ln] == 10) by {
                    if last_newline_in(chunk@) >= 0 {
                        assert(bv[ln] == chunk@[last_newline_in(chunk@)]);
                    } else {
                        if ln > 0 {
                            assert(bv[ln] == old(self).body@[ln]);
                        }
                    }
                }
                assert forall|j: int| ln < j < bv.len() implies bv[j] != 10 by {
                    if j < old(self).body@.len() {
                        assert(bv[j] == old(self).body@[j]);
                    } else {
                        assert(bv[j] == chunk@[j - old(self).body@.len()]);
                    }
                }
            }
            true
        } else {
            self.truncated = true;
            let rem = MAX_ROBOTS_TXT_SIZE - bl;
            match last_newline_pos(chunk, rem) {
                Some(i) => {
                    proof {
                        lemma_last_newline_in(chunk@.take(rem as int));
                        assert(chunk@.take(rem as int)[i as int] == 10);
                    }
                    let pre = take_prefix_u8(chunk, i + 1);
                    self.body.extend_from_slice(pre.as_slice());
                    proof {
                        assert(chunk@.take(i + 1) =~= chunk@.take(rem as int).take(i + 1));
                        assert(self.body@[self.body@.len() - 1] == chunk@[i as int]);
                        assert(chunk@[i as int] == chunk@.take(rem as int)[i as int]);
                    }
                },
                None => {
                    let nb = take_prefix_u8(&self.body, self.last_newline);
                    self.body = nb;
                },
            }
            proof {
                self.stream@ = self.stream@ + chunk@;
            }
            proof {
                assert(self.body@ =~= self.stream@.take(self.body@.len() as int));
                let bv = self.body@;
                let ln = old(self).last_newline as int;
                if bv.len() > 0 && !(bv[bv.len() - 1] == 10) {
                    assert(bv =~= old(self).body@.take(ln));
                    assert(ln > 0);
                    assert(self.stream@[bv.len() as int] == old(self).body@[ln]);
                }
            }
            false
        }
    }

    /// Hands out the accumulated body and the truncation flag. A
    /// truncated body is empty or ends on a newline boundary of the
    /// stream.
    pub fn finish(self) -> (r: (Vec<u8>, bool))
        requires
            self.wf(),
        ensures
            r.0@ == self.body@,
            r.1 == self.truncated,
            r.1 ==> (r.0@.len() == 0 || r.0@[r.0@.len() - 1] == 10 || (r.0@.len()
                < self.stream@.len() && self.stream@[r.0@.len() as int] == 10)),
    {
        (self.body, self.truncated)
    }
}

/// Sorts a response's status code into the fetch outcome: 2xx reads the
/// body, 4xx is Unavailable, 5xx is Unreachable with the status, and
/// anything else is Unreachable without one.
pub fn classify_status(status: u16) -> (r: Result<(), FetchError>)
    ensures
        200 <= status < 300 ==> r is Ok,
        400 <= status < 500 ==> r == Err::<(), FetchError>(FetchError::Unavailable(status)),
        500 <= status < 600 ==> r is Err && match r->Err_0 {
            FetchError::Unreachable(p) => p.0@ == "Server error: "@ + dec_rep(status as nat) && p.1
                == Some(status),
            _ => false,
        },
        !(200 <= status < 300) && !(400 <= status < 600) ==> r is Err && match r->Err_0 {
            FetchError::Unreachable(p) => p.0@ == "Unexpected status: "@ + dec_rep(status as nat)
                && p.1 is None,
            _ => false,
        },
{
    if 200 <= status && status < 300 {
        Ok(())
    } else if 400 <= status && status < 500 {
        Err(FetchError::Unavailable(status))
    } else if 500 <= status && status < 600 {
        let mut m = String::from_str("Server error: ");
        append_decimal(&mut m, status);
        Err(FetchError::Unreachable((m, Some(status))))
    } else {
        let mut m = String::from_str("Unexpected status: ");
        append_decimal(&mut m, status);
        Err(FetchError::Unreachable((m, None)))
    }
}

/// What lossy UTF-8 decoding yields for a byte sequence.
pub uninterp spec fn lossy_decode_of(b: Seq<u8>) -> Seq<char>;

/// Relies on String::from_utf8_lossy: the text depends on the bytes
/// alone; invalid sequences become the replacement character.
#[verifier::external_body]
fn lossy_decode(b: &Vec<u8>) -> (r: String)
    ensures
        r@ == lossy_decode_of(b@),
{
    String::from_utf8_lossy(b.as_slice()).into_owned()
}

/// The sitemap URLs a robots.txt text lists, in line order.
pub uninterp spec fn sitemaps_of(body: Seq<char>) -> Seq<Seq<char>>;

/// The parse of a robots.txt text, as a map: for each lowercased
/// user-agent token the text names, the Allow patterns and the Disallow
/// patterns listed for it, each in line order.
pub uninterp spec fn entries_of(body: Seq<char>) -> Map<Seq<char>, (Seq<Seq<char>>, Seq<Seq<char>>)>;

/// Relies on robotstxt_rs::RobotsTxt::parse with get_rules and
/// get_sitemaps: parsing never fails; each entry is one distinct
/// lowercased user-agent token with its Allow and Disallow patterns in
/// line order — which token gets which patterns depends on the text
/// alone; the entries come out of a hash map, so nothing is promised of
/// their order; the sitemaps are in line order.
#[verifier::external_body]
fn parse_robots_text(body: &str) -> (r: (Vec<ParsedEntry>, Vec<String>))
    ensures
        r.1.deep_view() == sitemaps_of(body@),
        forall|i: int, j: int|
            0 <= i < j < r.0@.len() ==> (#[trigger] r.0@[i])@.user_agent != (
            #[trigger] r.0@[j])@.user_agent,
        forall|i: int|
            0 <= i < r.0@.len() ==> entries_of(body@).contains_key(
                (#[trigger] r.0@[i])@.user_agent,
            ) && entries_of(body@)[r.0@[i]@.user_agent] == ((r.0@[i])@.allowed, (r.0@[i])@.disallowed),
        forall|k: Seq<char>|
            #[trigger] entries_of(body@).contains_key(k) ==> exists|i: int|
                0 <= i < r.0@.len() && (#[trigger] r.0@[i])@.user_agent == k,
{
    let robots = robotstxt_rs::RobotsTxt::parse(body);
    let entries = robots
        .get_rules()
        .iter()
        .map(|(ua, rule)| ParsedEntry {
            user_agent: ua.clone(),
            allowed: rule.allowed.clone(),
            disallowed: rule.disallowed.clone(),
        })
        .collect();
    (entries, robots.get_sitemaps().to_vec())
}

/// The group carries exactly one user-agent token, that token stands in
/// the entry map, and the group's rules are the token's Allow patterns
/// followed by its Disallow patterns.
pub open spec fn group_matches_entries(
    g: crate::robots_data::GroupV,
    m: Map<Seq<char>, (Seq<Seq<char>>, Seq<Seq<char>>)>,
) -> bool {
    &&& g.user_agents.len() == 1
    &&& m.contains_key(g.user_agents[0])
    &&& g == crate::robots_data::entry_group(
        crate::robots_data::ParsedEntryV {
            user_agent: g.user_agents[0],
            allowed: m[g.user_agents[0]].0,
            disallowed: m[g.user_agents[0]].1,
        },
    )
}

/// Builds the Success snapshot for a 2xx response: the accumulated body
/// is decoded lossily and parsed, the parse is projected into the policy
/// model, and the outcome fields are filled from the response. The
/// groups are, in some order, exactly the entries the parser found in
/// the body: one group per token, its Allow rules before its Disallow
/// rules, no token twice and none missing.
pub fn build_success_snapshot(
    target_url: &str,
    robots_url: &str,
    status: u16,
    content_length: u64,
    body: &Vec<u8>,
    truncated: bool,
) -> (r: RobotsData)
    requires
        200 <= status < 300,
    ensures
        r@.target_url == target_url@,
        r@.robots_txt_url == robots_url@,
        r@.access_result == AccessResult::Success,
        r@.http_status_code == status as u32,
        r@.content_length_bytes == content_length,
        r@.truncated == truncated,
        r@.sitemaps == sitemaps_of(lossy_decode_of(body@)),
        forall|i: int|
            0 <= i < r@.groups.len() ==> group_matches_entries(
                #[trigger] r@.groups[i],
                entries_of(lossy_decode_of(body@)),
            ),
        forall|i: int, j: int|
            0 <= i < j < r@.groups.len() ==> (#[trigger] r@.groups[i]).user_agents != (
            #[trigger] r@.groups[j]).user_agents,
        forall|k: Seq<char>|
            #[trigger] entries_of(lossy_decode_of(body@)).contains_key(k) ==> exists|i: int|
                0 <= i < r@.groups.len() && (#[trigger] r@.groups[i]).user_agents == seq![k],
{
    let text = lossy_decode(body);
    let (entries, sitemaps) = parse_robots_text(text.as_str());
    let ghost entries_view = entries@;
    let mut data = RobotsData::from_parse(entries, sitemaps);
    data.target_url = String::from_str(target_url);
    data.robots_txt_url = String::from_str(robots_url);
    data.access_result = AccessResult::Success;
    data.http_status_code = status as u32;
    data.content_length_bytes = content_length;
    data.truncated = truncated;
    proof {
        let m = entries_of(lossy_decode_of(body@));
        assert(text@ == lossy_decode_of(body@));
        assert forall|i: int| 0 <= i < data@.groups.len() implies group_matches_entries(
            data@.groups[i],
            m,
        ) by {
            let e = entries_view[i]@;
            assert(data@.groups[i] == crate::robots_data::entry_group(e));
            assert(crate::robots_data::entry_group(e).user_agents == seq![e.user_agent]);
            assert(data@.groups[i].user_agents[0] == e.user_agent);
            assert(m.contains_key(e.user_agent));
            assert(m[e.user_agent] == (e.allowed, e.disallowed));
            let e2 = crate::robots_data::ParsedEntryV {
                user_agent: data@.groups[i].user_agents[0],
                allowed: m[data@.groups[i].user_agents[0]].0,
                disallowed: m[data@.groups[i].user_agents[0]].1,
            };
            assert(e2 == e);
        }
        assert forall|i: int, j: int|
            0 <= i < j < data@.groups.len() implies (#[trigger] data@.groups[i]).user_agents != (
        #[trigger] data@.groups[j]).user_agents by {
            let ei = entries_view[i]@;
            let ej = entries_view[j]@;
            assert(data@.groups[i] == crate::robots_data::entry_group(ei));
            assert(data@.groups[j] == crate::robots_data::entry_group(ej));
            assert(ei.user_agent != ej.user_agent);
            assert(data@.groups[i].user_agents[0] != data@.groups[j].user_agents[0]);
        }
        assert forall|k: Seq<char>| #[trigger] m.contains_key(k) implies exists|i: int|
            0 <= i < data@.groups.len() && (#[trigger] data@.groups[i]).user_agents == seq![k] by {
            let i = choose|i: int| 0 <= i < entries_view.len() && (#[trigger] entries_view[i])@.user_agent == k;
            assert(data@.groups[i] == crate::robots_data::entry_group(entries_view[i]@));
            assert(data@.groups[i].user_agents =~= seq![k]);
        }
    }
    data
}

} // verus!
