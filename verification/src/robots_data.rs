//! The policy model: an immutable snapshot of one origin's robots.txt,
//! its groups of user-agent tokens and allow/disallow rules, and the
//! projection of a parser's output into that model.

use vstd::prelude::*;
use vstd::string::StringExecFns;

verus! {

/// Coarse outcome of a fetch attempt.
#[derive(Clone, Copy, Debug, PartialEq, Eq, Structural)]
pub enum AccessResult {
    Unspecified,
    Success,
    Unavailable,
    Unreachable,
}

/// An allow-or-disallow directive. `rule_type` is 1 for Allow and 2 for
/// Disallow; any other value is ignored by the matcher.
#[derive(Clone, Debug)]
pub struct Rule {
    pub rule_type: i32,
    pub path_pattern: String,
}

/// A cluster of user-agent tokens sharing one rule list.
#[derive(Clone, Debug)]
pub struct Group {
    pub user_agents: Vec<String>,
    pub rules: Vec<Rule>,
}

/// A parsed, immutable snapshot of one origin's robots.txt together with
/// the outcome classification of the fetch that produced it.
#[derive(Clone, Debug)]
pub struct RobotsData {
    pub target_url: String,
    pub robots_txt_url: String,
    pub access_result: AccessResult,
    pub http_status_code: u32,
    pub groups: Vec<Group>,
    pub sitemaps: Vec<String>,
    pub content_length_bytes: u64,
    pub truncated: bool,
}

/// Mathematical model of a rule.
#[verifier::ext_equal]
pub struct RuleV {
    pub rule_type: int,
    pub path_pattern: Seq<char>,
}

/// Mathematical model of a group.
#[verifier::ext_equal]
pub struct GroupV {
    pub user_agents: Seq<Seq<char>>,
    pub rules: Seq<RuleV>,
}

/// Mathematical model of a snapshot.
#[verifier::ext_equal]
pub struct RobotsDataV {
    pub target_url: Seq<char>,
    pub robots_txt_url: Seq<char>,
    pub access_result: AccessResult,
    pub http_status_code: u32,
    pub groups: Seq<GroupV>,
    pub sitemaps: Seq<Seq<char>>,
    pub content_length_bytes: u64,
    pub truncated: bool,
}

impl View for Rule {
    type V = RuleV;

    open spec fn view(&self) -> RuleV {
        RuleV { rule_type: self.rule_type as int, path_pattern: self.path_pattern@ }
    }
}

impl View for Group {
    type V = GroupV;

    open spec fn view(&self) -> GroupV {
        GroupV {
            user_agents: self.user_agents.deep_view(),
            rules: self.rules@.map_values(|r: Rule| r@),
        }
    }
}

impl View for RobotsData {
    type V = RobotsDataV;

    open spec fn view(&self) -> RobotsDataV {
        RobotsDataV {
            target_url: self.target_url@,
            robots_txt_url: self.robots_txt_url@,
            access_result: self.access_result,
            http_status_code: self.http_status_code,
            groups: self.groups@.map_values(|g: Group| g@),
            sitemaps: self.sitemaps.deep_view(),
            content_length_bytes: self.content_length_bytes,
            truncated: self.truncated,
        }
    }
}

/// One user agent's worth of a parser's output: the token and the allow
/// and disallow patterns listed for it, in parser order.
pub struct ParsedEntry {
    pub user_agent: String,
    pub allowed: Vec<String>,
    pub disallowed: Vec<String>,
}

/// Mathematical model of a parsed entry.
#[verifier::ext_equal]
pub struct ParsedEntryV {
    pub user_agent: Seq<char>,
    pub allowed: Seq<Seq<char>>,
    pub disallowed: Seq<Seq<char>>,
}

impl View for ParsedEntry {
    type V = ParsedEntryV;

    open spec fn view(&self) -> ParsedEntryV {
        ParsedEntryV {
            user_agent: self.user_agent@,
            allowed: self.allowed.deep_view(),
            disallowed: self.disallowed.deep_view(),
        }
    }
}

/// An Allow rule for a pattern.
pub open spec fn allow_rule(p: Seq<char>) -> RuleV {
    RuleV { rule_type: 1, path_pattern: p }
}

/// A Disallow rule for a pattern.
pub open spec fn disallow_rule(p: Seq<char>) -> RuleV {
    RuleV { rule_type: 2, path_pattern: p }
}

/// The group that one parsed entry projects to: a single user-agent token,
/// the Allow rules first, the Disallow rules second, parser order kept
/// within each kind.
pub open spec fn entry_group(e: ParsedEntryV) -> GroupV {
    GroupV {
        user_agents: seq![e.user_agent],
        rules: Seq::new(e.allowed.len(), |i: int| allow_rule(e.allowed[i])) + Seq::new(
            e.disallowed.len(),
            |i: int| disallow_rule(e.disallowed[i]),
        ),
    }
}

impl RobotsData {
    /// Projects a parser's output into the policy model: one group per
    /// entry, in the given order, and the sitemap list carried through.
    /// Everything but the groups and sitemaps is left at its initial value.
    pub fn from_parse(entries: Vec<ParsedEntry>, sitemaps: Vec<String>) -> (r: RobotsData)
        ensures
            r@.groups.len() == entries@.len(),
            forall|i: int|
                0 <= i < entries@.len() ==> r@.groups[i] == entry_group(#[trigger] entries@[i]@),
            r@.sitemaps == sitemaps.deep_view(),
            r@.target_url.len() == 0,
            r@.robots_txt_url.len() == 0,
            r@.access_result == AccessResult::Unspecified,
            r@.http_status_code == 0,
            r@.content_length_bytes == 0,
            r@.truncated == false,
    {
        let mut groups: Vec<Group> = Vec::new();
        let mut i: usize = 0;
        while i < entries.len()
            invariant
                i <= entries@.len(),
                groups@.len() == i,
                forall|j: int| 0 <= j < i ==> groups@[j]@ == entry_group(#[trigger] entries@[j]@),
            decreases entries@.len() - i,
        {
            let e = &entries[i];
            let mut rules: Vec<Rule> = Vec::new();
            let mut a: usize = 0;
            while a < e.allowed.len()
                invariant
                    a <= e.allowed@.len(),
                    rules@.len() == a,
                    forall|j: int| 0 <= j < a ==> (#[trigger] rules@[j])@ == allow_rule(e@.allowed[j]),
                decreases e.allowed@.len() - a,
            {
                rules.push(Rule { rule_type: 1, path_pattern: e.allowed[a].clone() });
                a += 1;
            }
            let na = e.allowed.len();
            let mut d: usize = 0;
            while d < e.disallowed.len()
                invariant
                    d <= e.disallowed@.len(),
                    na == e.allowed@.len(),
                    rules@.len() == na + d,
                    forall|j: int| 0 <= j < na ==> (#[trigger] rules@[j])@ == allow_rule(e@.allowed[j]),
                    forall|j: int|
                        0 <= j < d ==> (#[trigger] rules@[na + j])@ == disallow_rule(
                            e@.disallowed[j],
                        ),
                decreases e.disallowed@.len() - d,
            {
                rules.push(Rule { rule_type: 2, path_pattern: e.disallowed[d].clone() });
                d += 1;
            }
            let mut uas: Vec<String> = Vec::new();
            uas.push(e.user_agent.clone());
            let g = Group { user_agents: uas, rules };
            proof {
                assert(g@.user_agents =~= seq![e@.user_agent]);
                let target = entry_group(e@);
                assert forall|j: int| 0 <= j < g@.rules.len() implies g@.rules[j] == target.rules[j]
                by {
                    assert(g@.rules[j] == rules@[j]@);
                    if j < e@.allowed.len() {
                        assert(rules@[j]@ == allow_rule(e@.allowed[j]));
                        assert(target.rules[j] == allow_rule(e@.allowed[j]));
                    } else {
                        let k = j - e@.allowed.len();
                        assert(rules@[na + k]@ == disallow_rule(e@.disallowed[k]));
                        assert(na + k == j);
                        assert(target.rules[j] == disallow_rule(e@.disallowed[k]));
                    }
                }
                assert(g@.rules =~= target.rules);
                assert(g@ =~= target);
            }
            groups.push(g);
            i += 1;
        }
        let r = RobotsData {
            target_url: String::new(),
            robots_txt_url: String::new(),
            access_result: AccessResult::Unspecified,
            http_status_code: 0,
            groups,
            sitemaps,
            content_length_bytes: 0,
            truncated: false,
        };
        proof {
            assert(r@.groups.len() == entries@.len());
        }
        r
    }
}

/// The character sequences of a sequence of strings.
pub open spec fn strings_view(v: Seq<String>) -> Seq<Seq<char>> {
    v.map_values(|s: String| s@)
}

/// The `User-agent:` lines for a group's tokens.
pub open spec fn ua_lines(ts: Seq<Seq<char>>) -> Seq<Seq<char>>
    decreases ts.len(),
{
    if ts.len() == 0 {
        Seq::empty()
    } else {
        ua_lines(ts.drop_last()).push("User-agent: "@ + ts.last())
    }
}

/// The directive line a rule emits: an `Allow:` or `Disallow:` line, or
/// nothing for an unknown rule type.
pub open spec fn rule_line(r: RuleV) -> Seq<Seq<char>> {
    if r.rule_type == 1 {
        seq!["Allow: "@ + r.path_pattern]
    } else if r.rule_type == 2 {
        seq!["Disallow: "@ + r.path_pattern]
    } else {
        Seq::empty()
    }
}

/// The directive lines of a rule list.
pub open spec fn rule_lines(rs: Seq<RuleV>) -> Seq<Seq<char>>
    decreases rs.len(),
{
    if rs.len() == 0 {
        Seq::empty()
    } else {
        rule_lines(rs.drop_last()) + rule_line(rs.last())
    }
}

/// The lines of one group: its `User-agent:` lines, its directive lines,
/// and a blank line.
pub open spec fn group_lines(g: GroupV) -> Seq<Seq<char>> {
    ua_lines(g.user_agents) + rule_lines(g.rules) + seq![Seq::<char>::empty()]
}

/// The lines of a group list.
pub open spec fn groups_lines(gs: Seq<GroupV>) -> Seq<Seq<char>>
    decreases gs.len(),
{
    if gs.len() == 0 {
        Seq::empty()
    } else {
        groups_lines(gs.drop_last()) + group_lines(gs.last())
    }
}

/// The trailing `Sitemap:` lines.
pub open spec fn sitemap_lines(ss: Seq<Seq<char>>) -> Seq<Seq<char>>
    decreases ss.len(),
{
    if ss.len() == 0 {
        Seq::empty()
    } else {
        sitemap_lines(ss.drop_last()).push("Sitemap: "@ + ss.last())
    }
}

/// Every line a snapshot emits, in order.
pub open spec fn data_lines(d: RobotsDataV) -> Seq<Seq<char>> {
    groups_lines(d.groups) + sitemap_lines(d.sitemaps)
}

/// The lines joined with a newline between neighbours.
pub open spec fn join_lines(lines: Seq<Seq<char>>) -> Seq<char>
    decreases lines.len(),
{
    if lines.len() == 0 {
        Seq::empty()
    } else if lines.len() == 1 {
        lines[0]
    } else {
        join_lines(lines.drop_last()) + "\n"@ + lines.last()
    }
}

/// Joins the lines with newlines.
fn join_newline(lines: &Vec<String>) -> (r: String)
    ensures
        r@ == join_lines(strings_view(lines@)),
{
    let mut out = String::new();
    let mut i: usize = 0;
    while i < lines.len()
        invariant
            i <= lines@.len(),
            out@ == join_lines(strings_view(lines@).take(i as int)),
        decreases lines@.len() - i,
    {
        if i > 0 {
            out.append("\n");
        }
        out.append(lines[i].as_str());
        proof {
            let lv = strings_view(lines@);
            assert(lv.take(i + 1).drop_last() =~= lv.take(i as int));
            assert(lv.take(i + 1).last() == lv[i as int]);
            if i == 0 {
                assert(out@ =~= lv.take(1)[0]);
            } else {
                assert(out@ =~= join_lines(lv.take(i as int)) + "\n"@ + lv[i as int]);
            }
        }
        i += 1;
    }
    proof {
        assert(strings_view(lines@).take(lines@.len() as int) =~= strings_view(lines@));
    }
    out
}

impl RobotsData {
    /// Re-emits the policy in robots.txt text form: for each group one
    /// `User-agent:` line per token, then its `Allow:` and `Disallow:`
    /// lines, then a blank line; after the groups, one `Sitemap:` line
    /// per sitemap URL; neighbouring lines joined by a newline.
    pub fn to_robots_txt(&self) -> (r: String)
        ensures
            r@ == join_lines(data_lines(self@)),
    {
        let ghost d = self@;
        let mut lines: Vec<String> = Vec::new();
        let mut gi: usize = 0;
        while gi < self.groups.len()
            invariant
                d == self@,
                gi <= d.groups.len(),
                strings_view(lines@) == groups_lines(d.groups.take(gi as int)),
            decreases d.groups.len() - gi,
        {
            let g = &self.groups[gi];
            proof {
                assert(g@ == d.groups[gi as int]);
            }
            let ghost done = strings_view(lines@);
            let mut ti: usize = 0;
            while ti < g.user_agents.len()
                invariant
                    g@.user_agents.len() == g.user_agents@.len(),
                    ti <= g.user_agents@.len(),
                    strings_view(lines@) == done + ua_lines(g@.user_agents.take(ti as int)),
                decreases g.user_agents@.len() - ti,
            {
                let mut l = String::from_str("User-agent: ");
                l.append(g.user_agents[ti].as_str());
                let ghost before = strings_view(lines@);
                lines.push(l);
                proof {
                    assert(strings_view(lines@) =~= before.push(l@));
                    assert(g@.user_agents.take(ti + 1).drop_last() =~= g@.user_agents.take(
                        ti as int,
                    ));
                    assert(g@.user_agents.take(ti + 1).last() == g@.user_agents[ti as int]);
                    assert(strings_view(lines@) =~= done + ua_lines(g@.user_agents.take(ti + 1)));
                }
                ti += 1;
            }
            proof {
                assert(g@.user_agents.take(g@.user_agents.len() as int) =~= g@.user_agents);
            }
            let ghost done2 = strings_view(lines@);
            let mut ri: usize = 0;
            while ri < g.rules.len()
                invariant
                    g@.rules.len() == g.rules@.len(),
                    ri <= g.rules@.len(),
                    strings_view(lines@) == done2 + rule_lines(g@.rules.take(ri as int)),
                decreases g.rules@.len() - ri,
            {
                let rule = &g.rules[ri];
                proof {
                    assert(rule@ == g@.rules[ri as int]);
                    assert(g@.rules.take(ri + 1).drop_last() =~= g@.rules.take(ri as int));
                    assert(g@.rules.take(ri + 1).last() == g@.rules[ri as int]);
                }
                if rule.rule_type == 1 {
                    let mut l = String::from_str("Allow: ");
                    l.append(rule.path_pattern.as_str());
                    let ghost before = strings_view(lines@);
                    lines.push(l);
                    proof {
                        assert(strings_view(lines@) =~= before.push(l@));
                        assert(strings_view(lines@) =~= done2 + rule_lines(g@.rules.take(ri + 1)));
                    }
                } else if rule.rule_type == 2 {
                    let mut l = String::from_str("Disallow: ");
                    l.append(rule.path_pattern.as_str());
                    let ghost before = strings_view(lines@);
                    lines.push(l);
                    proof {
                        assert(strings_view(lines@) =~= before.push(l@));
                        assert(strings_view(lines@) =~= done2 + rule_lines(g@.rules.take(ri + 1)));
                    }
                } else {
                    proof {
                        assert(rule_lines(g@.rules.take(ri + 1)) =~= rule_lines(
                            g@.rules.take(ri as int),
                        ));
                    }
                }
                ri += 1;
            }
            proof {
                assert(g@.rules.take(g@.rules.len() as int) =~= g@.rules);
            }
            let ghost before = strings_view(lines@);
            lines.push(String::new());
            proof {
                assert(strings_view(lines@) =~= before.push(Seq::<char>::empty()));
                assert(d.groups.take(gi + 1).drop_last() =~= d.groups.take(gi as int));
                assert(d.groups.take(gi + 1).last() == d.groups[gi as int]);
                assert(strings_view(lines@) =~= groups_lines(d.groups.take(gi as int))
                    + group_lines(g@));
                assert(strings_view(lines@) =~= groups_lines(d.groups.take(gi + 1)));
            }
            gi += 1;
        }
        proof {
            assert(d.groups.take(d.groups.len() as int) =~= d.groups);
        }
        let ghost done3 = strings_view(lines@);
        let mut si: usize = 0;
        while si < self.sitemaps.len()
            invariant
                d == self@,
                d.sitemaps.len() == self.sitemaps@.len(),
                si <= d.sitemaps.len(),
                strings_view(lines@) == done3 + sitemap_lines(d.sitemaps.take(si as int)),
            decreases d.sitemaps.len() - si,
        {
            let mut l = String::from_str("Sitemap: ");
            l.append(self.sitemaps[si].as_str());
            let ghost before = strings_view(lines@);
            lines.push(l);
            proof {
                assert(strings_view(lines@) =~= before.push(l@));
                assert(d.sitemaps.take(si + 1).drop_last() =~= d.sitemaps.take(si as int));
                assert(d.sitemaps.take(si + 1).last() == d.sitemaps[si as int]);
                assert(l@ =~= "Sitemap: "@ + d.sitemaps[si as int]);
                assert(strings_view(lines@) =~= done3 + sitemap_lines(d.sitemaps.take(si + 1)));
            }
            si += 1;
        }
        proof {
            assert(d.sitemaps.take(d.sitemaps.len() as int) =~= d.sitemaps);
            assert(strings_view(lines@) =~= data_lines(d));
        }
        join_newline(&lines)
    }
}

} // verus!
