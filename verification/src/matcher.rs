//! Path-to-group resolution by ordered pattern matching. The first declared
//! pattern that matches the request path decides; a matching pattern whose
//! group resolved to no valid servers is a distinct, recoverable failure,
//! and such a pattern still occupies its slot so that later duplicates of
//! the same pattern stay unreachable.

use vstd::prelude::*;

use crate::config::Group;
use crate::config::GroupView;
use crate::config::Outbound;
use crate::config::OutboundView;
use crate::config::PropsView;
use crate::config::ProxyProperties;
use crate::urls::url_ok;
use crate::urls::url_valid;

verus! {

/// The request timeout a group gets when its declaration names none.
pub const DEFAULT_TIMEOUT_SECS: u64 = 60;

#[verifier::external_type_specification]
#[verifier::external_body]
pub struct ExRegex(regex::Regex);

/// Whether `regex::Regex::new` accepts the pattern: acceptance depends on
/// the pattern alone.
pub uninterp spec fn regex_valid(pat: Seq<char>) -> bool;

/// Whether the pattern matches anywhere in the text, as
/// `regex::Regex::is_match` decides it: a function of pattern and text
/// alone.
pub uninterp spec fn regex_match(pat: Seq<char>, text: Seq<char>) -> bool;

/// A pattern kept together with its compiled form; the compiled form is
/// built from `pattern` and nothing else.
pub struct CompiledPattern {
    pattern: String,
    compiled: regex::Regex,
}

impl View for CompiledPattern {
    type V = Seq<char>;

    closed spec fn view(&self) -> Seq<char> {
        self.pattern@
    }
}

impl CompiledPattern {
    /// Relies on regex::Regex::new: Ok exactly on the patterns the crate's
    /// grammar accepts (within its default size limit).
    #[verifier::external_body]
    pub fn compile(pat: &String) -> (r: Option<CompiledPattern>)
        ensures
            r is Some <==> regex_valid(pat@),
            r is Some ==> r->Some_0@ == pat@,
    {
        match regex::Regex::new(pat.as_str()) {
            Ok(compiled) => Some(CompiledPattern { pattern: pat.clone(), compiled }),
            Err(_) => None,
        }
    }

    /// Relies on regex::Regex::is_match: whether the pattern this value was
    /// compiled from matches anywhere in `text`.
    #[verifier::external_body]
    pub fn is_match(&self, text: &str) -> (r: bool)
        ensures
            r == regex_match(self@, text@),
    {
        self.compiled.is_match(text)
    }
}

/// The two recoverable resolution failures: no pattern matched, or the
/// matching pattern's group has no usable servers.
#[derive(Debug, PartialEq, Eq, Structural, Clone, Copy)]
pub enum MatchError {
    NotFound,
    NoServers,
}

/// The building failure: a declared pattern the regex grammar refuses.
#[derive(Debug)]
pub struct InvalidPattern {
    pub pattern: String,
}

/// The server addresses that parse as URLs, in declaration order.
pub open spec fn valid_servers(servers: Seq<Seq<char>>) -> Seq<Seq<char>>
    decreases servers.len(),
{
    if servers.len() == 0 {
        Seq::<Seq<char>>::empty()
    } else {
        let rest = valid_servers(servers.drop_first());
        if url_valid(servers.first()) {
            seq![servers.first()] + rest
        } else {
            rest
        }
    }
}

pub open spec fn spec_timeout(t: Option<u64>) -> u64 {
    match t {
        Some(s) => s,
        None => DEFAULT_TIMEOUT_SECS,
    }
}

/// What a declared outbound resolves to: its usable servers and timeout,
/// or nothing when no server address parses.
pub open spec fn spec_convert_group(name: Seq<char>, ob: OutboundView) -> Option<GroupView> {
    let vs = valid_servers(ob.servers);
    if vs.len() == 0 {
        None
    } else {
        Some(GroupView { servers: vs, name: name, timeout_secs: spec_timeout(ob.timeout) })
    }
}

/// The declared outbound a name refers to: the last declaration wins.
pub open spec fn spec_lookup_outbound(outs: Seq<OutboundView>, name: Seq<char>) -> Option<
    OutboundView,
>
    decreases outs.len(),
{
    if outs.len() == 0 {
        None
    } else if outs.last().group == name {
        Some(outs.last())
    } else {
        spec_lookup_outbound(outs.drop_last(), name)
    }
}

/// The group bound to the i-th inbound rule, if its outbound exists and
/// resolves.
pub open spec fn spec_rule_group(props: PropsView, i: int) -> Option<GroupView> {
    match spec_lookup_outbound(props.outbound, props.inbound[i].group) {
        Some(ob) => spec_convert_group(props.inbound[i].group, ob),
        None => None,
    }
}

/// The mathematical content of one matcher rule.
pub struct RuleView {
    pub pattern: Seq<char>,
    pub group: Option<GroupView>,
}

pub open spec fn rules_view(ms: Seq<(CompiledPattern, Option<Group>)>) -> Seq<RuleView> {
    ms.map_values(
        |m: (CompiledPattern, Option<Group>)|
            RuleView {
                pattern: m.0@,
                group: match m.1 {
                    Some(g) => Some(g@),
                    None => None,
                },
            },
    )
}

/// A freshly built rule table: one rule per declared inbound, in order,
/// each holding its declared pattern and the group its name resolves to.
pub open spec fn matcher_built(rules: Seq<RuleView>, props: PropsView) -> bool {
    &&& rules.len() == props.inbound.len()
    &&& forall|i: int|
        0 <= i < rules.len() ==> {
            &&& (#[trigger] rules[i]).pattern == props.inbound[i].path
            &&& regex_valid(rules[i].pattern)
            &&& rules[i].group == spec_rule_group(props, i)
        }
}

/// A failed build: the first declared pattern the regex grammar refuses.
pub open spec fn build_failed(props: PropsView, p: Seq<char>) -> bool {
    exists|i: int|
        0 <= i < props.inbound.len() && !regex_valid(#[trigger] props.inbound[i].path) && p
            == props.inbound[i].path && (forall|j: int|
            0 <= j < i ==> regex_valid(props.inbound[j].path))
}

/// What resolution returns: the group of the first matching rule; the
/// no-servers failure when that rule's group is empty; the not-found
/// failure when no rule matches.
pub open spec fn find_group_post(
    rules: Seq<RuleView>,
    path: Seq<char>,
    r: Result<Group, MatchError>,
) -> bool {
    match r {
        Ok(g) => exists|i: int|
            0 <= i < rules.len() && regex_match(#[trigger] rules[i].pattern, path) && rules[i].group
                == Some(g@) && (forall|j: int|
                0 <= j < i ==> !regex_match(rules[j].pattern, path)),
        Err(e) => match e {
            MatchError::NoServers => exists|i: int|
                0 <= i < rules.len() && regex_match(#[trigger] rules[i].pattern, path)
                    && rules[i].group is None && (forall|j: int|
                    0 <= j < i ==> !regex_match(rules[j].pattern, path)),
            MatchError::NotFound => forall|i: int|
                0 <= i < rules.len() ==> !regex_match(#[trigger] rules[i].pattern, path),
        },
    }
}

/// Every group a rule binds has at least one usable server: what building
/// guarantees and resolution relies on.
pub open spec fn rules_ok(rules: Seq<RuleView>) -> bool {
    forall|i: int|
        0 <= i < rules.len() ==> ((#[trigger] rules[i]).group is Some
            ==> rules[i].group->Some_0.servers.len() > 0)
}

/// Law: a freshly built table only binds groups with usable servers.
pub proof fn lemma_built_rules_ok(rules: Seq<RuleView>, props: PropsView)
    requires
        matcher_built(rules, props),
    ensures
        rules_ok(rules),
{
    assert forall|i: int|
        0 <= i < rules.len() implies ((#[trigger] rules[i]).group is Some
        ==> rules[i].group->Some_0.servers.len() > 0) by {
        assert(rules[i].group == spec_rule_group(props, i));
    }
}

spec fn outs_view(outs: Seq<Outbound>) -> Seq<OutboundView> {
    outs.map_values(|o: Outbound| o@)
}

/// The declared outbound a name refers to, last declaration first.
fn lookup_outbound<'a>(outs: &'a Vec<Outbound>, name: &String) -> (r: Option<&'a Outbound>)
    ensures
        match r {
            Some(ob) => spec_lookup_outbound(outs_view(outs@), name@) == Some(ob@),
            None => spec_lookup_outbound(outs_view(outs@), name@) is None,
        },
{
    let ghost ov = outs_view(outs@);
    proof {
        assert(ov.take(outs@.len() as int) =~= ov);
    }
    let mut k: usize = outs.len();
    while k > 0
        invariant
            k <= outs@.len(),
            ov == outs_view(outs@),
            ov.len() == outs@.len(),
            spec_lookup_outbound(ov, name@) == spec_lookup_outbound(ov.take(k as int), name@),
        decreases k,
    {
        let ghost pre = ov.take(k as int);
        proof {
            assert(pre.last() == ov[k - 1]);
            assert(ov[k - 1] == outs@[k - 1]@);
            assert(pre.drop_last() =~= ov.take(k - 1));
        }
        let ob = &outs[k - 1];
        if ob.group == *name {
            return Some(ob);
        }
        k = k - 1;
    }
    proof {
        assert(ov.take(0) =~= Seq::<OutboundView>::empty());
    }
    None
}

/// A declared outbound resolved to a usable group: the server addresses
/// that parse, the group's name, and its timeout; nothing when no address
/// parses (the rule then keeps its slot with no group).
pub fn convert_to_group(group: &str, outbound: &Outbound) -> (r: Option<Group>)
    ensures
        match r {
            Some(g) => spec_convert_group(group@, outbound@) == Some(g@),
            None => spec_convert_group(group@, outbound@) is None,
        },
{
    let ghost all = outbound.servers.deep_view();
    let mut servers: Vec<String> = Vec::new();
    proof {
        assert(all.skip(0) =~= all);
        assert(servers.deep_view() =~= Seq::<Seq<char>>::empty());
        assert(servers.deep_view() + valid_servers(all) =~= valid_servers(all));
    }
    let mut i: usize = 0;
    while i < outbound.servers.len()
        invariant
            i <= outbound.servers@.len(),
            all == outbound.servers.deep_view(),
            all.len() == outbound.servers@.len(),
            valid_servers(all) == servers.deep_view() + valid_servers(all.skip(i as int)),
        decreases outbound.servers@.len() - i,
    {
        let ghost tail = all.skip(i as int);
        let ghost pre = servers.deep_view();
        proof {
            assert(tail.first() == all[i as int]);
            assert(all[i as int] == outbound.servers@[i as int]@);
            assert(tail.drop_first() =~= all.skip(i + 1));
        }
        let s = &outbound.servers[i];
        if url_ok(s.as_str()) {
            servers.push(s.clone());
            proof {
                assert(servers.deep_view() =~= pre.push(outbound.servers@[i as int]@));
                assert(servers.deep_view() + valid_servers(all.skip(i + 1)) =~= pre + (seq![
                    tail.first(),
                ] + valid_servers(tail.drop_first())));
            }
        }
        i = i + 1;
    }
    proof {
        assert(all.skip(all.len() as int) =~= Seq::<Seq<char>>::empty());
        assert(valid_servers(all) =~= servers.deep_view());
        assert(servers.deep_view().len() == servers@.len());
    }
    if servers.len() == 0 {
        None
    } else {
        let timeout_secs = match outbound.timeout {
            Some(t) => t,
            None => DEFAULT_TIMEOUT_SECS,
        };
        let g = Group { servers, name: group.to_owned(), timeout_secs };
        Some(g)
    }
}

/// One rule per declared inbound, in order; fails on the first pattern the
/// regex grammar refuses.
fn create_path_matchers(props: &ProxyProperties) -> (r: Result<
    Vec<(CompiledPattern, Option<Group>)>,
    InvalidPattern,
>)
    ensures
        match r {
            Ok(v) => matcher_built(rules_view(v@), props@),
            Err(e) => build_failed(props@, e.pattern@),
        },
{
    let mut out: Vec<(CompiledPattern, Option<Group>)> = Vec::new();
    let mut i: usize = 0;
    while i < props.inbound.len()
        invariant
            i <= props.inbound@.len(),
            props@.inbound.len() == props.inbound@.len(),
            rules_view(out@).len() == i,
            forall|j: int|
                0 <= j < i ==> {
                    &&& (#[trigger] rules_view(out@)[j]).pattern == props@.inbound[j].path
                    &&& regex_valid(rules_view(out@)[j].pattern)
                    &&& rules_view(out@)[j].group == spec_rule_group(props@, j)
                },
        decreases props.inbound@.len() - i,
    {
        proof {
            assert(props@.inbound[i as int] == props.inbound@[i as int]@);
        }
        let inb = &props.inbound[i];
        match CompiledPattern::compile(&inb.path) {
            None => {
                proof {
                    assert(!regex_valid(props@.inbound[i as int].path));
                    assert forall|j: int| 0 <= j < i implies regex_valid(
                        #[trigger] props@.inbound[j].path,
                    ) by {
                        assert(rules_view(out@)[j].pattern == props@.inbound[j].path);
                    }
                    assert(build_failed(props@, inb.path@));
                }
                return Err(InvalidPattern { pattern: inb.path.clone() });
            },
            Some(cp) => {
                let g = match lookup_outbound(&props.outbound, &inb.group) {
                    Some(ob) => convert_to_group(inb.group.as_str(), ob),
                    None => None,
                };
                let ghost pre = out@;
                proof {
                    assert(outs_view(props.outbound@) == props@.outbound);
                }
                out.push((cp, g));
                proof {
                    assert(rules_view(out@) =~= rules_view(pre).push(rules_view(out@)[i as int]));
                    assert(rules_view(out@)[i as int].pattern == props@.inbound[i as int].path);
                    assert(rules_view(out@)[i as int].group == spec_rule_group(props@, i as int));
                }
            },
        }
        i = i + 1;
    }
    Ok(out)
}

/// The ordered rule table, rebuilt wholesale from each configuration.
pub struct PathMatcher {
    matchers: Vec<(CompiledPattern, Option<Group>)>,
}

impl View for PathMatcher {
    type V = Seq<RuleView>;

    closed spec fn view(&self) -> Seq<RuleView> {
        rules_view(self.matchers@)
    }
}

impl PathMatcher {
    /// A table built from the configuration; fails on the first declared
    /// pattern the regex grammar refuses.
    pub fn new(config: &ProxyProperties) -> (r: Result<Self, InvalidPattern>)
        ensures
            match r {
                Ok(m) => matcher_built(m@, config@),
                Err(e) => build_failed(config@, e.pattern@),
            },
    {
        match create_path_matchers(config) {
            Ok(matchers) => Ok(PathMatcher { matchers }),
            Err(e) => Err(e),
        }
    }

    /// Recompute the whole table from a new configuration; on failure the
    /// old table stays as it was.
    pub fn rebuild(&mut self, config: &ProxyProperties) -> (r: Result<(), InvalidPattern>)
        ensures
            match r {
                Ok(()) => matcher_built(final(self)@, config@),
                Err(e) => build_failed(config@, e.pattern@) && *final(self) == *old(self),
            },
    {
        match create_path_matchers(config) {
            Ok(matchers) => {
                self.matchers = matchers;
                Ok(())
            },
            Err(e) => Err(e),
        }
    }

    /// The group of the first rule whose pattern matches the path;
    /// `NoServers` when that rule's group is empty, `NotFound` when no
    /// rule matches.
    pub fn find_group(&self, req_path: &str) -> (r: Result<Group, MatchError>)
        ensures
            find_group_post(self@, req_path@, r),
    {
        let mut i: usize = 0;
        while i < self.matchers.len()
            invariant
                i <= self.matchers@.len(),
                self@.len() == self.matchers@.len(),
                forall|j: int| 0 <= j < i ==> !regex_match(self@[j].pattern, req_path@),
            decreases self.matchers@.len() - i,
        {
            proof {
                assert(self@[i as int].pattern == self.matchers@[i as int].0@);
            }
            let m = &self.matchers[i];
            if m.0.is_match(req_path) {
                match &m.1 {
                    Some(g) => {
                        let out = g.clone();
                        proof {
                            assert(self@[i as int].group == Some(out@));
                        }
                        return Ok(out);
                    },
                    None => {
                        proof {
                            assert(self@[i as int].group is None);
                        }
                        return Err(MatchError::NoServers);
                    },
                }
            }
            i = i + 1;
        }
        Err(MatchError::NotFound)
    }
}

} // verus!
