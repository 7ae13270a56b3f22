//! The RFC 9309 decision engine: group selection by case-folded user-agent
//! substring match, path-pattern matching with `*` wildcards and the `$`
//! end anchor, longest-match-wins and allow-on-tie.

use vstd::prelude::*;
use vstd::string::StrSliceExecFns;

use crate::robots_data::{RobotsData, RobotsDataV, RuleV};
use crate::text::{
    chars_eq, contains_chars, contains_sub, find_from, first_match_from, is_prefix_of,
    is_suffix_of, lower_of, lowercase, str_to_chars,
};

verus! {

/// The pattern split at every `*`: the literal segments, in order. A
/// pattern without `*` yields one segment, itself.
pub open spec fn split_star(p: Seq<char>) -> Seq<Seq<char>>
    decreases p.len(),
{
    if p.len() == 0 {
        seq![Seq::<char>::empty()]
    } else if p[0] == '*' {
        seq![Seq::<char>::empty()] + split_star(p.drop_first())
    } else {
        let rest = split_star(p.drop_first());
        rest.update(0, seq![p[0]] + rest[0])
    }
}

/// A split always has at least one segment.
pub proof fn lemma_split_star_len(p: Seq<char>)
    ensures
        split_star(p).len() >= 1,
    decreases p.len(),
{
    if p.len() != 0 {
        lemma_split_star_len(p.drop_first());
    }
}

/// The wildcard scan of RFC 9309 section 2.2.3: empty segments are skipped; the
/// first segment must sit at the start of the path; under `$`-anchoring
/// the last segment must end the path; every other segment must occur at
/// or after the current scan position, and the scan resumes after its
/// leftmost such occurrence.
pub open spec fn scan_parts(
    path: Seq<char>,
    parts: Seq<Seq<char>>,
    i: int,
    pos: int,
    exact: bool,
) -> bool
    decreases parts.len() - i,
{
    if i >= parts.len() {
        true
    } else if parts[i].len() == 0 {
        scan_parts(path, parts, i + 1, pos, exact)
    } else if i == 0 {
        is_prefix_of(parts[0], path) && scan_parts(path, parts, 1, parts[0].len() as int, exact)
    } else if i == parts.len() - 1 && exact {
        is_suffix_of(parts[i], path)
    } else {
        let f = first_match_from(path, parts[i], pos);
        f >= 0 && scan_parts(path, parts, i + 1, f + parts[i].len(), exact)
    }
}

/// Wildcard matching of a pattern against a path. Without any `*` this is
/// plain equality (anchored) or prefix matching; with wildcards it is the
/// segment scan.
pub open spec fn spec_wildcard_match(path: Seq<char>, pattern: Seq<char>, exact: bool) -> bool {
    let parts = split_star(pattern);
    if parts.len() <= 1 {
        if exact {
            path == pattern
        } else {
            is_prefix_of(pattern, path)
        }
    } else {
        scan_parts(path, parts, 0, 0, exact)
    }
}

/// Pattern matching before the `$` anchor is considered.
pub open spec fn spec_match_pattern(path: Seq<char>, pattern: Seq<char>, exact: bool) -> bool {
    if contains_sub(pattern, seq!['*']) {
        spec_wildcard_match(path, pattern, exact)
    } else if exact {
        path == pattern
    } else {
        is_prefix_of(pattern, path)
    }
}

/// Full pattern semantics: a trailing `$` anchors the rest of the pattern
/// to the end of the path.
pub open spec fn spec_path_matches(path: Seq<char>, pattern: Seq<char>) -> bool {
    if pattern.len() > 0 && pattern[pattern.len() - 1] == '$' {
        spec_match_pattern(path, pattern.drop_last(), true)
    } else {
        spec_match_pattern(path, pattern, false)
    }
}

/// The length that competes in longest-match-wins: the character count of
/// the pattern as written, `*` included, the anchoring `$` excluded.
pub open spec fn eff_len(pattern: Seq<char>) -> int {
    if pattern.len() > 0 && pattern[pattern.len() - 1] == '$' {
        pattern.len() - 1
    } else {
        pattern.len() as int
    }
}

/// A product token matches the request user-agent if its case-folded form
/// equals, or is a substring of, the case-folded request user-agent.
pub open spec fn ua_token_matches(ua_low: Seq<char>, token: Seq<char>) -> bool {
    ua_low == lower_of(token) || contains_sub(ua_low, lower_of(token))
}

/// The group names a token matching the request user-agent.
pub open spec fn group_direct_match(g: crate::robots_data::GroupV, ua_low: Seq<char>) -> bool {
    exists|i: int|
        0 <= i < g.user_agents.len() && ua_token_matches(ua_low, #[trigger] g.user_agents[i])
}

/// The group names the literal wildcard token `*`.
pub open spec fn group_has_star(g: crate::robots_data::GroupV) -> bool {
    exists|i: int| 0 <= i < g.user_agents.len() && #[trigger] g.user_agents[i] == seq!['*']
}

/// Some group matches the request user-agent directly.
pub open spec fn any_direct_match(d: RobotsDataV, ua_low: Seq<char>) -> bool {
    exists|gi: int|
        0 <= gi < d.groups.len() && group_direct_match(#[trigger] d.groups[gi], ua_low)
}

/// Whether group `gi` contributes its rules: the directly matching groups
/// if any exist, else the `*` groups.
pub open spec fn group_selected(d: RobotsDataV, ua_low: Seq<char>, gi: int) -> bool {
    if any_direct_match(d, ua_low) {
        group_direct_match(d.groups[gi], ua_low)
    } else {
        group_has_star(d.groups[gi])
    }
}

/// A rule joins the candidate pool if it is an Allow or Disallow, its
/// pattern is nonempty, and its pattern matches the request path.
pub open spec fn rule_is_candidate(r: RuleV, path: Seq<char>) -> bool {
    (r.rule_type == 1 || r.rule_type == 2) && r.path_pattern.len() > 0 && spec_path_matches(
        path,
        r.path_pattern,
    )
}

/// Rule `ri` of group `gi` is in the candidate pool for this request.
pub open spec fn rule_applies(
    d: RobotsDataV,
    ua_low: Seq<char>,
    path: Seq<char>,
    gi: int,
    ri: int,
) -> bool {
    0 <= gi < d.groups.len() && 0 <= ri < d.groups[gi].rules.len() && group_selected(d, ua_low, gi)
        && rule_is_candidate(d.groups[gi].rules[ri], path)
}

/// The pattern of rule `ri` of group `gi`.
pub open spec fn rule_pattern(d: RobotsDataV, gi: int, ri: int) -> Seq<char> {
    d.groups[gi].rules[ri].path_pattern
}

/// The request is blocked: some Disallow candidate is strictly longer
/// than every Allow candidate. Equivalently, the longest candidates are
/// all Disallow rules — longest-match-wins with allow-on-tie.
pub open spec fn blocked(d: RobotsDataV, ua_low: Seq<char>, path: Seq<char>) -> bool {
    exists|gi: int, ri: int|
        #[trigger] rule_applies(d, ua_low, path, gi, ri) && d.groups[gi].rules[ri].rule_type == 2
            && (forall|gj: int, rj: int|
            #[trigger] rule_applies(d, ua_low, path, gj, rj) && d.groups[gj].rules[rj].rule_type
                == 1 ==> eff_len(rule_pattern(d, gj, rj)) < eff_len(rule_pattern(d, gi, ri)))
}

/// The decision of the matcher for a policy, a request user-agent and a
/// request path.
pub open spec fn spec_is_allowed(d: RobotsDataV, ua: Seq<char>, path: Seq<char>) -> bool {
    !blocked(d, lower_of(ua), path)
}

/// Longest-match determinism: if `(gi, ri)` is a candidate of maximal
/// effective pattern length, the decision is read off the longest
/// candidates alone — allowed exactly when an Allow rule reaches that
/// length, ties included.
pub proof fn lemma_longest_match_determinism(
    d: RobotsDataV,
    ua: Seq<char>,
    path: Seq<char>,
    gi: int,
    ri: int,
)
    requires
        rule_applies(d, lower_of(ua), path, gi, ri),
        forall|gj: int, rj: int|
            #[trigger] rule_applies(d, lower_of(ua), path, gj, rj) ==> eff_len(
                rule_pattern(d, gj, rj),
            ) <= eff_len(rule_pattern(d, gi, ri)),
    ensures
        (exists|gj: int, rj: int|
            #[trigger] rule_applies(d, lower_of(ua), path, gj, rj) && d.groups[gj].rules[rj].rule_type
                == 1 && eff_len(rule_pattern(d, gj, rj)) == eff_len(rule_pattern(d, gi, ri)))
            ==> spec_is_allowed(d, ua, path),
        (forall|gj: int, rj: int|
            #[trigger] rule_applies(d, lower_of(ua), path, gj, rj) && d.groups[gj].rules[rj].rule_type
                == 1 ==> eff_len(rule_pattern(d, gj, rj)) < eff_len(rule_pattern(d, gi, ri)))
            ==> !spec_is_allowed(d, ua, path),
{
    let ua_low = lower_of(ua);
    let max = eff_len(rule_pattern(d, gi, ri));
    if exists|gj: int, rj: int|
        #[trigger] rule_applies(d, ua_low, path, gj, rj) && d.groups[gj].rules[rj].rule_type == 1
            && eff_len(rule_pattern(d, gj, rj)) == max {
        let (ga, ra): (int, int) = choose|gj: int, rj: int|
            #[trigger] rule_applies(d, ua_low, path, gj, rj) && d.groups[gj].rules[rj].rule_type
                == 1 && eff_len(rule_pattern(d, gj, rj)) == max;
        assert forall|gd: int, rd: int|
            !(#[trigger] rule_applies(d, ua_low, path, gd, rd) && d.groups[gd].rules[rd].rule_type
                == 2 && (forall|gj: int, rj: int|
                #[trigger] rule_applies(d, ua_low, path, gj, rj) && d.groups[gj].rules[rj].rule_type
                    == 1 ==> eff_len(rule_pattern(d, gj, rj)) < eff_len(
                    rule_pattern(d, gd, rd),
                ))) by {
            if rule_applies(d, ua_low, path, gd, rd) && d.groups[gd].rules[rd].rule_type == 2 {
                assert(rule_applies(d, ua_low, path, ga, ra));
                assert(eff_len(rule_pattern(d, gd, rd)) <= max);
            }
        }
        assert(!blocked(d, ua_low, path));
    }
    if forall|gj: int, rj: int|
        #[trigger] rule_applies(d, ua_low, path, gj, rj) && d.groups[gj].rules[rj].rule_type == 1
            ==> eff_len(rule_pattern(d, gj, rj)) < max {
        if d.groups[gi].rules[ri].rule_type == 1 {
            assert(rule_applies(d, ua_low, path, gi, ri));
            assert(false);
        }
        assert(rule_applies(d, ua_low, path, gi, ri) && d.groups[gi].rules[ri].rule_type == 2
            && (forall|gj: int, rj: int|
            #[trigger] rule_applies(d, ua_low, path, gj, rj) && d.groups[gj].rules[rj].rule_type
                == 1 ==> eff_len(rule_pattern(d, gj, rj)) < eff_len(rule_pattern(d, gi, ri))));
        assert(blocked(d, ua_low, path));
    }
}

/// Pair `(gj, rj)` precedes `(gi, ri)` in the scan order of the matcher.
spec fn before_pair(gj: int, rj: int, gi: int, ri: int) -> bool {
    gj < gi || (gj == gi && rj < ri)
}

/// A candidate of rule type `t` that the scan has already passed.
spec fn seen_cand(
    d: RobotsDataV,
    ua_low: Seq<char>,
    path: Seq<char>,
    t: int,
    gi: int,
    ri: int,
    gj: int,
    rj: int,
) -> bool {
    rule_applies(d, ua_low, path, gj, rj) && d.groups[gj].rules[rj].rule_type == t && before_pair(
        gj,
        rj,
        gi,
        ri,
    )
}

/// `b` is the maximal effective pattern length over the candidates of
/// rule type `t` passed so far, `None` when there is none.
spec fn best_tracks(
    d: RobotsDataV,
    ua_low: Seq<char>,
    path: Seq<char>,
    t: int,
    gi: int,
    ri: int,
    b: Option<usize>,
) -> bool {
    match b {
        None => forall|gj: int, rj: int| !#[trigger] seen_cand(d, ua_low, path, t, gi, ri, gj, rj),
        Some(l) => (exists|gj: int, rj: int|
            #[trigger] seen_cand(d, ua_low, path, t, gi, ri, gj, rj) && eff_len(
                rule_pattern(d, gj, rj),
            ) == l as int) && (forall|gj: int, rj: int|
            #[trigger] seen_cand(d, ua_low, path, t, gi, ri, gj, rj) ==> eff_len(
                rule_pattern(d, gj, rj),
            ) <= l as int),
    }
}

/// A tracked maximum carries over to another scan position whose set of
/// passed candidates is the same.
proof fn lemma_best_same(
    d: RobotsDataV,
    ua_low: Seq<char>,
    path: Seq<char>,
    t: int,
    gi1: int,
    ri1: int,
    gi2: int,
    ri2: int,
    b: Option<usize>,
)
    requires
        best_tracks(d, ua_low, path, t, gi1, ri1, b),
        forall|gj: int, rj: int|
            #![trigger seen_cand(d, ua_low, path, t, gi1, ri1, gj, rj)]
            #![trigger seen_cand(d, ua_low, path, t, gi2, ri2, gj, rj)]
            seen_cand(d, ua_low, path, t, gi2, ri2, gj, rj) == seen_cand(
                d,
                ua_low,
                path,
                t,
                gi1,
                ri1,
                gj,
                rj,
            ),
    ensures
        best_tracks(d, ua_low, path, t, gi2, ri2, b),
{
    match b {
        None => {
            assert forall|gj: int, rj: int|
                !#[trigger] seen_cand(d, ua_low, path, t, gi2, ri2, gj, rj) by {
                assert(!seen_cand(d, ua_low, path, t, gi1, ri1, gj, rj));
            }
        },
        Some(l) => {
            let (ga, ra): (int, int) = choose|ga: int, ra: int|
                #[trigger] seen_cand(d, ua_low, path, t, gi1, ri1, ga, ra) && eff_len(
                    rule_pattern(d, ga, ra),
                ) == l as int;
            assert(seen_cand(d, ua_low, path, t, gi2, ri2, ga, ra));
            assert forall|gj: int, rj: int|
                #[trigger] seen_cand(d, ua_low, path, t, gi2, ri2, gj, rj) implies eff_len(
                rule_pattern(d, gj, rj),
            ) <= l as int by {
                assert(seen_cand(d, ua_low, path, t, gi1, ri1, gj, rj));
            }
        },
    }
}

/// Stepping the scan past a candidate of type `t` updates the tracked
/// maximum to the larger of the old maximum and the candidate's length.
proof fn lemma_best_update(
    d: RobotsDataV,
    ua_low: Seq<char>,
    path: Seq<char>,
    t: int,
    gi: int,
    ri: int,
    b_old: Option<usize>,
    b_new: Option<usize>,
    l_new: usize,
)
    requires
        best_tracks(d, ua_low, path, t, gi, ri, b_old),
        rule_applies(d, ua_low, path, gi, ri),
        d.groups[gi].rules[ri].rule_type == t,
        l_new as int == eff_len(rule_pattern(d, gi, ri)),
        b_new == (match b_old {
            None => Some(l_new),
            Some(b) => Some(
                if l_new > b {
                    l_new
                } else {
                    b
                },
            ),
        }),
    ensures
        best_tracks(d, ua_low, path, t, gi, ri + 1, b_new),
{
    assert(seen_cand(d, ua_low, path, t, gi, ri + 1, gi, ri));
    let l2 = b_new->0;
    assert(l2 as int >= l_new as int);
    match b_old {
        None => {
            assert forall|gj: int, rj: int|
                #[trigger] seen_cand(d, ua_low, path, t, gi, ri + 1, gj, rj) implies eff_len(
                rule_pattern(d, gj, rj),
            ) <= l2 as int by {
                if !(gj == gi && rj == ri) {
                    assert(seen_cand(d, ua_low, path, t, gi, ri, gj, rj));
                    assert(false);
                }
            }
        },
        Some(b) => {
            let (ga, ra): (int, int) = choose|ga: int, ra: int|
                #[trigger] seen_cand(d, ua_low, path, t, gi, ri, ga, ra) && eff_len(
                    rule_pattern(d, ga, ra),
                ) == b as int;
            assert(seen_cand(d, ua_low, path, t, gi, ri + 1, ga, ra));
            if l_new > b {
                assert(seen_cand(d, ua_low, path, t, gi, ri + 1, gi, ri) && eff_len(
                    rule_pattern(d, gi, ri),
                ) == l2 as int);
            } else {
                assert(seen_cand(d, ua_low, path, t, gi, ri + 1, ga, ra) && eff_len(
                    rule_pattern(d, ga, ra),
                ) == l2 as int);
            }
            assert forall|gj: int, rj: int|
                #[trigger] seen_cand(d, ua_low, path, t, gi, ri + 1, gj, rj) implies eff_len(
                rule_pattern(d, gj, rj),
            ) <= l2 as int by {
                if gj == gi && rj == ri {
                } else {
                    assert(seen_cand(d, ua_low, path, t, gi, ri, gj, rj));
                }
            }
        },
    }
}

/// A policy without groups restricts nothing: whatever the user-agent
/// and path, the request is allowed.
pub proof fn lemma_empty_policy_allows(d: RobotsDataV, ua: Seq<char>, path: Seq<char>)
    requires
        d.groups.len() == 0,
    ensures
        spec_is_allowed(d, ua, path),
{
    assert forall|gi: int, ri: int| !#[trigger] rule_applies(d, lower_of(ua), path, gi, ri) by {}
}

/// Splits a pattern at every `*`.
fn split_pattern(p: &Vec<char>) -> (r: Vec<Vec<char>>)
    ensures
        r.deep_view() == split_star(p@),
{
    let mut finished: Vec<Vec<char>> = Vec::new();
    let mut cur: Vec<char> = Vec::new();
    proof {
        lemma_split_star_len(p@);
        assert(p@.subrange(0, p@.len() as int) =~= p@);
        assert(cur@ + split_star(p@)[0] =~= split_star(p@)[0]);
        assert(split_star(p@) =~~= finished.deep_view() + seq![cur@ + split_star(p@)[0]]
            + split_star(p@).drop_first());
    }
    let mut k: usize = 0;
    while k < p.len()
        invariant
            k <= p@.len(),
            split_star(p@) == finished.deep_view() + seq![
                cur@ + split_star(p@.subrange(k as int, p@.len() as int))[0],
            ] + split_star(p@.subrange(k as int, p@.len() as int)).drop_first(),
        decreases p@.len() - k,
    {
        let ghost suffix = p@.subrange(k as int, p@.len() as int);
        let ghost suffix2 = p@.subrange(k + 1, p@.len() as int);
        proof {
            assert(suffix.len() > 0);
            assert(suffix[0] == p@[k as int]);
            assert(suffix.drop_first() =~= suffix2);
            lemma_split_star_len(suffix2);
        }
        if p[k] == '*' {
            proof {
                assert(split_star(suffix) == seq![Seq::<char>::empty()] + split_star(suffix2));
                assert(split_star(suffix)[0] =~= Seq::<char>::empty());
                assert(split_star(suffix).drop_first() =~= split_star(suffix2));
                assert(cur@ + split_star(suffix)[0] =~= cur@);
                assert(split_star(suffix2) =~= seq![split_star(suffix2)[0]] + split_star(
                    suffix2,
                ).drop_first());
            }
            let ghost old_finished = finished.deep_view();
            finished.push(cur);
            proof {
                assert(finished.deep_view() =~~= old_finished.push(cur@));
                assert(split_star(p@) =~~= finished.deep_view() + seq![
                    Seq::<char>::empty() + split_star(suffix2)[0],
                ] + split_star(suffix2).drop_first());
            }
            cur = Vec::new();
        } else {
            proof {
                let rest = split_star(suffix2);
                assert(split_star(suffix) == rest.update(0, seq![suffix[0]] + rest[0]));
                assert(split_star(suffix)[0] == seq![p@[k as int]] + rest[0]);
                assert(split_star(suffix).drop_first() =~= rest.drop_first());
            }
            let c = p[k];
            let ghost old_cur = cur@;
            cur.push(c);
            proof {
                assert(cur@ =~= old_cur.push(c));
                assert(old_cur + split_star(suffix)[0] =~= cur@ + split_star(suffix2)[0]);
                assert(split_star(p@) =~~= finished.deep_view() + seq![
                    cur@ + split_star(suffix2)[0],
                ] + split_star(suffix2).drop_first());
            }
        }
        k += 1;
    }
    proof {
        let ghost tail = p@.subrange(p@.len() as int, p@.len() as int);
        assert(tail =~= Seq::<char>::empty());
        assert(split_star(tail) == seq![Seq::<char>::empty()]);
        assert(cur@ + split_star(tail)[0] =~= cur@);
        assert(split_star(tail).drop_first() =~= Seq::<Seq<char>>::empty());
    }
    let ghost old_finished = finished.deep_view();
    finished.push(cur);
    proof {
        assert(finished.deep_view() =~~= old_finished.push(cur@));
        assert(split_star(p@) =~~= finished.deep_view());
    }
    finished
}

impl RobotsData {
    /// The RFC 9309 decision for this snapshot, a request user-agent and a
    /// request path: the rules of the selected groups are filtered to those
    /// matching the path, the longest pattern wins, and a tie goes to Allow.
    pub fn is_allowed(&self, user_agent: &str, path: &str) -> (r: bool)
        ensures
            r == spec_is_allowed(self@, user_agent@, path@),
    {
        let ghost d = self@;
        let ua_low_s = lowercase(user_agent);
        let ua_low = str_to_chars(ua_low_s.as_str());
        let ghost ual = lower_of(user_agent@);
        proof {
            assert(ua_low@ == ual);
        }
        // First pass: which groups name a token matching the request
        // user-agent, and which name the literal `*`.
        let mut direct: Vec<bool> = Vec::new();
        let mut star: Vec<bool> = Vec::new();
        let mut any_direct = false;
        let mut gi: usize = 0;
        while gi < self.groups.len()
            invariant
                d == self@,
                ual == ua_low@,
                gi <= d.groups.len(),
                direct@.len() == gi,
                star@.len() == gi,
                forall|j: int|
                    0 <= j < gi ==> direct@[j] == group_direct_match(#[trigger] d.groups[j], ual),
                forall|j: int| 0 <= j < gi ==> star@[j] == group_has_star(#[trigger] d.groups[j]),
                any_direct == exists|j: int|
                    0 <= j < gi && group_direct_match(#[trigger] d.groups[j], ual),
            decreases d.groups.len() - gi,
        {
            let g = &self.groups[gi];
            proof {
                assert(g@ == d.groups[gi as int]);
            }
            let mut dm = false;
            let mut sm = false;
            let mut ti: usize = 0;
            while ti < g.user_agents.len()
                invariant
                    ual == ua_low@,
                    g@.user_agents.len() == g.user_agents@.len(),
                    ti <= g.user_agents@.len(),
                    dm == exists|t: int|
                        0 <= t < ti && ua_token_matches(ual, #[trigger] g@.user_agents[t]),
                    sm == exists|t: int| 0 <= t < ti && #[trigger] g@.user_agents[t] == seq!['*'],
                decreases g.user_agents@.len() - ti,
            {
                let tok = &g.user_agents[ti];
                proof {
                    assert(tok@ == g@.user_agents[ti as int]);
                }
                let tok_low = lowercase(tok.as_str());
                let tok_c = str_to_chars(tok_low.as_str());
                let m = chars_eq(&ua_low, &tok_c) || contains_chars(&ua_low, &tok_c);
                proof {
                    assert(m == ua_token_matches(ual, g@.user_agents[ti as int]));
                }
                if m {
                    dm = true;
                }
                let tc = str_to_chars(tok.as_str());
                if tc.len() == 1 && tc[0] == '*' {
                    proof {
                        assert(tok@ =~= seq!['*']);
                    }
                    sm = true;
                } else {
                    proof {
                        if tok@ == seq!['*'] {
                            assert(tc@.len() == 1 && tc@[0] == '*');
                        }
                    }
                }
                ti += 1;
            }
            proof {
                assert(dm == group_direct_match(d.groups[gi as int], ual));
                assert(sm == group_has_star(d.groups[gi as int]));
            }
            direct.push(dm);
            star.push(sm);
            if dm {
                any_direct = true;
            }
            gi += 1;
        }
        proof {
            assert(any_direct == any_direct_match(d, ual));
        }
        // Second pass: over the rules of the selected groups, track the
        // maximal effective pattern length of the matching Allow rules and
        // of the matching Disallow rules.
        let mut best_allow: Option<usize> = None;
        let mut best_dis: Option<usize> = None;
        let mut gi: usize = 0;
        while gi < self.groups.len()
            invariant
                d == self@,
                ual == ua_low@,
                gi <= d.groups.len(),
                direct@.len() == d.groups.len(),
                star@.len() == d.groups.len(),
                forall|j: int|
                    0 <= j < d.groups.len() ==> direct@[j] == group_direct_match(
                        #[trigger] d.groups[j],
                        ual,
                    ),
                forall|j: int|
                    0 <= j < d.groups.len() ==> star@[j] == group_has_star(#[trigger] d.groups[j]),
                any_direct == any_direct_match(d, ual),
                best_tracks(d, ual, path@, 1, gi as int, 0, best_allow),
                best_tracks(d, ual, path@, 2, gi as int, 0, best_dis),
            decreases d.groups.len() - gi,
        {
            let g = &self.groups[gi];
            proof {
                assert(g@ == d.groups[gi as int]);
            }
            let sel = if any_direct {
                direct[gi]
            } else {
                star[gi]
            };
            proof {
                assert(sel == group_selected(d, ual, gi as int));
            }
            if sel {
                let mut ri: usize = 0;
                while ri < g.rules.len()
                    invariant
                        d == self@,
                        ual == ua_low@,
                        0 <= gi < d.groups.len(),
                        g@ == d.groups[gi as int],
                        g@.rules.len() == g.rules@.len(),
                        ri <= g.rules@.len(),
                        group_selected(d, ual, gi as int),
                        best_tracks(d, ual, path@, 1, gi as int, ri as int, best_allow),
                        best_tracks(d, ual, path@, 2, gi as int, ri as int, best_dis),
                    decreases g.rules@.len() - ri,
                {
                    let rule = &g.rules[ri];
                    proof {
                        assert(rule@ == d.groups[gi as int].rules[ri as int]);
                    }
                    let mut is_cand = false;
                    let mut l: usize = 0;
                    if rule.rule_type == 1 || rule.rule_type == 2 {
                        let pat_c = str_to_chars(rule.path_pattern.as_str());
                        if pat_c.len() > 0 && RobotsData::path_matches_rfc9309(
                            path,
                            rule.path_pattern.as_str(),
                        ) {
                            is_cand = true;
                            l = if pat_c[pat_c.len() - 1] == '$' {
                                pat_c.len() - 1
                            } else {
                                pat_c.len()
                            };
                            proof {
                                assert(l as int == eff_len(rule_pattern(d, gi as int, ri as int)));
                            }
                        }
                    }
                    proof {
                        assert(is_cand == rule_is_candidate(
                            d.groups[gi as int].rules[ri as int],
                            path@,
                        ));
                    }
                    if is_cand && rule.rule_type == 1 {
                        let nb = match best_allow {
                            None => Some(l),
                            Some(b) => if l > b {
                                Some(l)
                            } else {
                                Some(b)
                            },
                        };
                        proof {
                            assert(rule_applies(d, ual, path@, gi as int, ri as int));
                            lemma_best_update(d, ual, path@, 1, gi as int, ri as int, best_allow, nb, l);
                            assert forall|gj: int, rj: int|
                                #![trigger seen_cand(d, ual, path@, 2, gi as int, ri as int, gj, rj)]
                                #![trigger seen_cand(d, ual, path@, 2, gi as int, ri + 1, gj, rj)]
                                seen_cand(d, ual, path@, 2, gi as int, ri + 1, gj, rj) == seen_cand(
                                    d, ual, path@, 2, gi as int, ri as int, gj, rj) by {
                                if gj == gi as int && rj == ri as int {
                                    assert(d.groups[gj].rules[rj].rule_type == 1);
                                }
                            }
                            lemma_best_same(d, ual, path@, 2, gi as int, ri as int, gi as int, ri + 1, best_dis);
                        }
                        best_allow = nb;
                    } else if is_cand {
                        let nb = match best_dis {
                            None => Some(l),
                            Some(b) => if l > b {
                                Some(l)
                            } else {
                                Some(b)
                            },
                        };
                        proof {
                            assert(rule_applies(d, ual, path@, gi as int, ri as int));
                            lemma_best_update(d, ual, path@, 2, gi as int, ri as int, best_dis, nb, l);
                            assert forall|gj: int, rj: int|
                                #![trigger seen_cand(d, ual, path@, 1, gi as int, ri as int, gj, rj)]
                                #![trigger seen_cand(d, ual, path@, 1, gi as int, ri + 1, gj, rj)]
                                seen_cand(d, ual, path@, 1, gi as int, ri + 1, gj, rj) == seen_cand(
                                    d, ual, path@, 1, gi as int, ri as int, gj, rj) by {
                                if gj == gi as int && rj == ri as int {
                                    assert(d.groups[gj].rules[rj].rule_type == 2);
                                }
                            }
                            lemma_best_same(d, ual, path@, 1, gi as int, ri as int, gi as int, ri + 1, best_allow);
                        }
                        best_dis = nb;
                    } else {
                        proof {
                            assert forall|gj: int, rj: int, t: int|
                                #![trigger seen_cand(d, ual, path@, t, gi as int, ri as int, gj, rj)]
                                #![trigger seen_cand(d, ual, path@, t, gi as int, ri + 1, gj, rj)]
                                seen_cand(d, ual, path@, t, gi as int, ri + 1, gj, rj) == seen_cand(
                                    d, ual, path@, t, gi as int, ri as int, gj, rj) by {
                                if gj == gi as int && rj == ri as int {
                                    assert(!rule_is_candidate(d.groups[gj].rules[rj], path@));
                                }
                            }
                            lemma_best_same(d, ual, path@, 1, gi as int, ri as int, gi as int, ri + 1, best_allow);
                            lemma_best_same(d, ual, path@, 2, gi as int, ri as int, gi as int, ri + 1, best_dis);
                        }
                    }
                    ri += 1;
                }
                proof {
                    let rl = g@.rules.len() as int;
                    assert forall|gj: int, rj: int, t: int|
                        #![trigger seen_cand(d, ual, path@, t, gi as int, rl, gj, rj)]
                        #![trigger seen_cand(d, ual, path@, t, gi + 1, 0, gj, rj)]
                        seen_cand(d, ual, path@, t, gi + 1, 0, gj, rj) == seen_cand(
                            d, ual, path@, t, gi as int, rl, gj, rj) by {
                        if rule_applies(d, ual, path@, gj, rj) && gj == gi as int {
                            assert(rj < rl);
                        }
                    }
                    lemma_best_same(d, ual, path@, 1, gi as int, rl, gi + 1, 0, best_allow);
                    lemma_best_same(d, ual, path@, 2, gi as int, rl, gi + 1, 0, best_dis);
                }
            } else {
                proof {
                    assert(!group_selected(d, ual, gi as int));
                    assert forall|gj: int, rj: int, t: int|
                        #![trigger seen_cand(d, ual, path@, t, gi as int, 0, gj, rj)]
                        #![trigger seen_cand(d, ual, path@, t, gi + 1, 0, gj, rj)]
                        seen_cand(d, ual, path@, t, gi + 1, 0, gj, rj) == seen_cand(
                            d, ual, path@, t, gi as int, 0, gj, rj) by {
                        if rule_applies(d, ual, path@, gj, rj) && gj == gi as int {
                            assert(group_selected(d, ual, gj));
                        }
                    }
                    lemma_best_same(d, ual, path@, 1, gi as int, 0, gi + 1, 0, best_allow);
                    lemma_best_same(d, ual, path@, 2, gi as int, 0, gi + 1, 0, best_dis);
                }
            }
            gi += 1;
        }
        // Decision: no Disallow candidate allows; otherwise an Allow
        // candidate at least as long as the best Disallow wins the tie.
        proof {
            assert(forall|gj: int, rj: int, t: int|
                #[trigger] seen_cand(d, ual, path@, t, d.groups.len() as int, 0, gj, rj) == (
                rule_applies(d, ual, path@, gj, rj) && d.groups[gj].rules[rj].rule_type == t));
        }
        let r = match (best_dis, best_allow) {
            (None, _) => true,
            (Some(ld), Some(la)) => la >= ld,
            (Some(_), None) => false,
        };
        proof {
            let nlen = d.groups.len() as int;
            match best_dis {
                None => {
                    assert forall|gd: int, rd: int|
                        !(#[trigger] rule_applies(d, ual, path@, gd, rd)
                            && d.groups[gd].rules[rd].rule_type == 2) by {
                        if rule_applies(d, ual, path@, gd, rd) && d.groups[gd].rules[rd].rule_type
                            == 2 {
                            assert(seen_cand(d, ual, path@, 2, nlen, 0, gd, rd));
                        }
                    }
                    assert(!blocked(d, ual, path@));
                },
                Some(ld) => {
                    match best_allow {
                        Some(la) => {
                            if la >= ld {
                                assert forall|gd: int, rd: int|
                                    !(#[trigger] rule_applies(d, ual, path@, gd, rd)
                                        && d.groups[gd].rules[rd].rule_type == 2 && (forall|
                                        gj: int,
                                        rj: int,
                                    |
                                        #[trigger] rule_applies(d, ual, path@, gj, rj)
                                            && d.groups[gj].rules[rj].rule_type == 1 ==> eff_len(
                                            rule_pattern(d, gj, rj),
                                        ) < eff_len(rule_pattern(d, gd, rd)))) by {
                                    if rule_applies(d, ual, path@, gd, rd)
                                        && d.groups[gd].rules[rd].rule_type == 2 {
                                        assert(seen_cand(d, ual, path@, 2, nlen, 0, gd, rd));
                                        assert(eff_len(rule_pattern(d, gd, rd)) <= ld as int);
                                        let (ga, ra): (int, int) = choose|ga: int, ra: int|
                                            #[trigger] seen_cand(d, ual, path@, 1, nlen, 0, ga, ra)
                                                && eff_len(rule_pattern(d, ga, ra)) == la as int;
                                        assert(rule_applies(d, ual, path@, ga, ra)
                                            && d.groups[ga].rules[ra].rule_type == 1);
                                        assert(!(eff_len(rule_pattern(d, ga, ra)) < eff_len(
                                            rule_pattern(d, gd, rd),
                                        )));
                                    }
                                }
                                assert(!blocked(d, ual, path@));
                            } else {
                                let (gd, rd): (int, int) = choose|gd: int, rd: int|
                                    #[trigger] seen_cand(d, ual, path@, 2, nlen, 0, gd, rd)
                                        && eff_len(rule_pattern(d, gd, rd)) == ld as int;
                                assert forall|gj: int, rj: int|
                                    #[trigger] rule_applies(d, ual, path@, gj, rj)
                                        && d.groups[gj].rules[rj].rule_type == 1 implies eff_len(
                                    rule_pattern(d, gj, rj),
                                ) < eff_len(rule_pattern(d, gd, rd)) by {
                                    assert(seen_cand(d, ual, path@, 1, nlen, 0, gj, rj));
                                }
                                assert(blocked(d, ual, path@));
                            }
                        },
                        None => {
                            let (gd, rd): (int, int) = choose|gd: int, rd: int|
                                #[trigger] seen_cand(d, ual, path@, 2, nlen, 0, gd, rd) && eff_len(
                                    rule_pattern(d, gd, rd),
                                ) == ld as int;
                            assert forall|gj: int, rj: int|
                                #[trigger] rule_applies(d, ual, path@, gj, rj)
                                    && d.groups[gj].rules[rj].rule_type == 1 implies eff_len(
                                rule_pattern(d, gj, rj),
                            ) < eff_len(rule_pattern(d, gd, rd)) by {
                                assert(seen_cand(d, ual, path@, 1, nlen, 0, gj, rj));
                                assert(false);
                            }
                            assert(blocked(d, ual, path@));
                        },
                    }
                },
            }
        }
        r
    }

    /// Wildcard matching of `pattern` (whose `$`, if any, has already been
    /// stripped) against `path`; `exact` anchors the match to the path end.
    pub fn wildcard_match(path: &str, pattern: &str, exact: bool) -> (r: bool)
        ensures
            r == spec_wildcard_match(path@, pattern@, exact),
    {
        let path_c = str_to_chars(path);
        let pattern_c = str_to_chars(pattern);
        let parts = split_pattern(&pattern_c);
        proof {
            lemma_split_star_len(pattern@);
        }
        if parts.len() <= 1 {
            if exact {
                return chars_eq(&path_c, &pattern_c);
            } else {
                return if pattern_c.len() <= path_c.len() {
                    crate::text::starts_with_chars(&path_c, &pattern_c)
                } else {
                    false
                };
            }
        }
        let ghost pv = parts.deep_view();
        let pl = path_c.len();
        let mut i: usize = 0;
        let mut pos: usize = 0;
        while i < parts.len()
            invariant
                pv == parts.deep_view(),
                pv == split_star(pattern@),
                pv.len() >= 2,
                i <= pv.len(),
                pl == path_c@.len(),
                pos <= path_c@.len(),
                path_c@ == path@,
                scan_parts(path@, pv, 0, 0, exact) == scan_parts(
                    path@,
                    pv,
                    i as int,
                    pos as int,
                    exact,
                ),
            decreases pv.len() - i,
        {
            let part = &parts[i];
            proof {
                assert(part@ == pv[i as int]);
            }
            if part.len() == 0 {
                i += 1;
                continue;
            }
            if i == 0 {
                if part.len() > path_c.len() || !crate::text::starts_with_chars(&path_c, part) {
                    proof {
                        assert(!scan_parts(path@, pv, 0, 0, exact));
                    }
                    return false;
                }
                pos = part.len();
                i = 1;
                continue;
            }
            if i == parts.len() - 1 && exact {
                let ok = if part.len() <= path_c.len() {
                    crate::text::ends_with_chars(&path_c, part)
                } else {
                    false
                };
                proof {
                    assert(scan_parts(path@, pv, i as int, pos as int, exact) == is_suffix_of(
                        pv[i as int],
                        path@,
                    ));
                }
                return ok;
            }
            match find_from(&path_c, part, pos) {
                Some(f) => {
                    pos = f + part.len();
                    i += 1;
                }
                None => {
                    proof {
                        assert(first_match_from(path@, pv[i as int], pos as int) == -1);
                        assert(!scan_parts(path@, pv, i as int, pos as int, exact));
                    }
                    return false;
                }
            }
        }
        proof {
            assert(scan_parts(path@, pv, i as int, pos as int, exact));
        }
        true
    }

    /// Matches `pattern` against `path`: wildcard scan when the pattern
    /// holds a `*`, otherwise plain equality or prefix matching.
    pub fn match_pattern(path: &str, pattern: &str, exact: bool) -> (r: bool)
        ensures
            r == spec_match_pattern(path@, pattern@, exact),
    {
        let pattern_c = str_to_chars(pattern);
        let mut star: Vec<char> = Vec::new();
        star.push('*');
        proof {
            assert(star@ =~= seq!['*']);
        }
        if contains_chars(&pattern_c, &star) {
            RobotsData::wildcard_match(path, pattern, exact)
        } else if exact {
            let path_c = str_to_chars(path);
            chars_eq(&path_c, &pattern_c)
        } else {
            let path_c = str_to_chars(path);
            if pattern_c.len() <= path_c.len() {
                crate::text::starts_with_chars(&path_c, &pattern_c)
            } else {
                false
            }
        }
    }

    /// Full pattern semantics: a trailing `$` anchors the pattern to the
    /// end of the path.
    pub fn path_matches_rfc9309(path: &str, pattern: &str) -> (r: bool)
        ensures
            r == spec_path_matches(path@, pattern@),
    {
        let n = pattern.unicode_len();
        if n > 0 && pattern.get_char(n - 1) == '$' {
            let prefix = pattern.substring_char(0, n - 1);
            proof {
                assert(prefix@ == pattern@.drop_last());
            }
            RobotsData::match_pattern(path, prefix, true)
        } else {
            RobotsData::match_pattern(path, pattern, false)
        }
    }
}

} // verus!
