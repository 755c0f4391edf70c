//! Configuration data: the service settings, the inbound pattern list, the
//! outbound server groups, and the resolved `Group` the matcher hands out.

use vstd::prelude::*;

use crate::matcher::InvalidPattern;
use crate::matcher::MatchError;
use crate::matcher::PathMatcher;
use crate::matcher::RuleView;
use crate::matcher::build_failed;
use crate::matcher::find_group_post;
use crate::matcher::lemma_built_rules_ok;
use crate::matcher::matcher_built;
use crate::matcher::rules_ok;

verus! {

/// Settings of the listening service.
pub struct Service {
    pub ip: String,
    pub port: String,
    pub workers: usize,
    pub log_path: Option<String>,
    pub dev_mode: bool,
}

impl Clone for Service {
    fn clone(&self) -> (r: Self)
        ensures
            r == *self,
    {
        Service {
            ip: self.ip.clone(),
            port: self.port.clone(),
            workers: self.workers,
            log_path: match &self.log_path {
                Some(p) => Some(p.clone()),
                None => None,
            },
            dev_mode: self.dev_mode,
        }
    }
}

impl Default for Service {
    /// The fallback settings: a local developer service.
    fn default() -> (r: Self)
        ensures
            r.ip@ == "localhost"@,
            r.port@ == "8080"@,
            r.workers == 6,
            r.log_path is None,
            r.dev_mode == true,
    {
        Service {
            ip: "localhost".to_owned(),
            port: "8080".to_owned(),
            workers: 6,
            log_path: None,
            dev_mode: true,
        }
    }
}

/// The mathematical content of a `Service`.
pub struct ServiceView {
    pub ip: Seq<char>,
    pub port: Seq<char>,
    pub workers: usize,
    pub log_path: Option<Seq<char>>,
    pub dev_mode: bool,
}

impl View for Service {
    type V = ServiceView;

    open spec fn view(&self) -> ServiceView {
        ServiceView {
            ip: self.ip@,
            port: self.port@,
            workers: self.workers,
            log_path: match self.log_path {
                Some(p) => Some(p@),
                None => None,
            },
            dev_mode: self.dev_mode,
        }
    }
}

/// One declared inbound rule: a path pattern and the group it routes to.
pub struct Inbound {
    pub path: String,
    pub group: String,
}

/// The mathematical content of an `Inbound`.
pub struct InboundView {
    pub path: Seq<char>,
    pub group: Seq<char>,
}

impl View for Inbound {
    type V = InboundView;

    open spec fn view(&self) -> InboundView {
        InboundView { path: self.path@, group: self.group@ }
    }
}

/// One declared outbound group: its name, its servers, and an optional
/// request timeout in seconds.
pub struct Outbound {
    pub timeout: Option<u64>,
    pub group: String,
    pub servers: Vec<String>,
}

/// The mathematical content of an `Outbound`.
pub struct OutboundView {
    pub timeout: Option<u64>,
    pub group: Seq<char>,
    pub servers: Seq<Seq<char>>,
}

impl View for Outbound {
    type V = OutboundView;

    open spec fn view(&self) -> OutboundView {
        OutboundView {
            timeout: self.timeout,
            group: self.group@,
            servers: self.servers.deep_view(),
        }
    }
}

/// The whole configuration handed to the core.
pub struct ProxyProperties {
    pub service: Service,
    pub inbound: Vec<Inbound>,
    pub outbound: Vec<Outbound>,
}

/// The mathematical content of a `ProxyProperties`.
pub struct PropsView {
    pub service: ServiceView,
    pub inbound: Seq<InboundView>,
    pub outbound: Seq<OutboundView>,
}

impl View for ProxyProperties {
    type V = PropsView;

    open spec fn view(&self) -> PropsView {
        PropsView {
            service: self.service@,
            inbound: self.inbound@.map_values(|i: Inbound| i@),
            outbound: self.outbound@.map_values(|o: Outbound| o@),
        }
    }
}

/// A resolved routing group: the validated server addresses, the group
/// name, and the request timeout in seconds.
pub struct Group {
    pub servers: Vec<String>,
    pub name: String,
    pub timeout_secs: u64,
}

/// The mathematical content of a `Group`.
pub struct GroupView {
    pub servers: Seq<Seq<char>>,
    pub name: Seq<char>,
    pub timeout_secs: u64,
}

impl View for Group {
    type V = GroupView;

    open spec fn view(&self) -> GroupView {
        GroupView {
            servers: self.servers.deep_view(),
            name: self.name@,
            timeout_secs: self.timeout_secs,
        }
    }
}

impl Clone for Group {
    fn clone(&self) -> (r: Self)
        ensures
            r@ == self@,
            r.name == self.name,
            r.timeout_secs == self.timeout_secs,
            r.servers@.len() == self.servers@.len(),
            forall|i: int| 0 <= i < self.servers@.len() ==> r.servers@[i] == self.servers@[i],
    {
        let mut servers: Vec<String> = Vec::new();
        let mut i: usize = 0;
        while i < self.servers.len()
            invariant
                i <= self.servers@.len(),
                servers@.len() == i,
                forall|j: int| 0 <= j < i ==> servers@[j] == self.servers@[j],
            decreases self.servers@.len() - i,
        {
            servers.push(self.servers[i].clone());
            i = i + 1;
        }
        let r = Group { servers, name: self.name.clone(), timeout_secs: self.timeout_secs };
        proof {
            assert(r.servers.deep_view() =~~= self.servers.deep_view());
        }
        r
    }
}

/// The live configuration: the declared properties and the rule table
/// built from them, replaced wholesale on each successful reload.
pub struct Configuration {
    props: ProxyProperties,
    matchers: PathMatcher,
}

impl Configuration {
    pub closed spec fn spec_props(&self) -> PropsView {
        self.props@
    }

    pub closed spec fn spec_rules(&self) -> Seq<RuleView> {
        self.matchers@
    }

    /// Well-formed: every group a rule binds has a server to balance to.
    pub open spec fn wf(&self) -> bool {
        rules_ok(self.spec_rules())
    }

    /// A configuration with its rule table built; fails on the first
    /// declared pattern the regex grammar refuses.
    pub fn new(props: ProxyProperties) -> (r: Result<Configuration, InvalidPattern>)
        ensures
            match r {
                Ok(c) => c.wf() && c.spec_props() == props@ && matcher_built(
                    c.spec_rules(),
                    props@,
                ),
                Err(e) => build_failed(props@, e.pattern@),
            },
    {
        match PathMatcher::new(&props) {
            Ok(m) => {
                proof {
                    lemma_built_rules_ok(m@, props@);
                }
                Ok(Configuration { props, matchers: m })
            },
            Err(e) => Err(e),
        }
    }

    /// Resolve a request path against the current rule table.
    pub fn find_group(&self, req_path: &str) -> (r: Result<Group, MatchError>)
        ensures
            find_group_post(self.spec_rules(), req_path@, r),
    {
        self.matchers.find_group(req_path)
    }

    /// The service settings of the current configuration.
    pub fn service_config(&self) -> (r: Service)
        ensures
            r@ == self.spec_props().service,
    {
        self.props.service.clone()
    }

    /// Whether a written file is this configuration's own file.
    pub fn interested(&self, file_name: &str) -> (r: bool)
        ensures
            r == (file_name@ == "proxy.yaml"@),
    {
        let own = "proxy.yaml".to_owned();
        let given = file_name.to_owned();
        given == own
    }

    /// Replace the whole configuration: the rule table is rebuilt from the
    /// new properties and swapped in with them; on failure both stay as
    /// they were.
    pub fn reload(&mut self, props: ProxyProperties) -> (r: Result<(), InvalidPattern>)
        ensures
            match r {
                Ok(()) => final(self).wf() && final(self).spec_props() == props@ && matcher_built(
                    final(self).spec_rules(),
                    props@,
                ),
                Err(e) => build_failed(props@, e.pattern@) && *final(self) == *old(self),
            },
    {
        match self.matchers.rebuild(&props) {
            Ok(()) => {
                self.props = props;
                proof {
                    lemma_built_rules_ok(self.matchers@, self.props@);
                }
                Ok(())
            },
            Err(e) => Err(e),
        }
    }
}

} // verus!
