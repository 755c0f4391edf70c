//! The orchestrator for one request: cache lookup, path matching,
//! balancing, the outbound header and URL rewrite, and the conditional
//! cache write. Sending bytes on the wire belongs to the HTTP client
//! outside the core; the core decides, and hands it plain values.

use vstd::prelude::*;
use vstd::string::StrSliceExecFns;
use vstd::string::StringExecFns;

use crate::balancer::Balancer;
use crate::balancer::Instance;
use crate::balancer::next_count;
use crate::balancer::spec_count;
use crate::cache::CachedResponse;
use crate::cache::ResponseCache;
use crate::cache::spec_cache_key;
use crate::cache::spec_ttl;
use crate::http_utils::spec_max_age;
use crate::config::Configuration;
use crate::config::Group;
use crate::http_utils::HeaderMap;
use crate::http_utils::Cacheable;
use crate::http_utils::bytes_eq_ignore_case;
use crate::http_utils::get_host;
use crate::http_utils::header_name_matches;
use crate::http_utils::spec_host;
use crate::matcher::MatchError;
use crate::matcher::find_group_post;
use crate::urls::url_path;
use crate::urls::url_path_of;
use crate::urls::url_replace;
use crate::urls::url_valid;
use crate::urls::url_with;

verus! {

/// What the core reads from one inbound request: its method, its path and
/// query, its headers, and the connection host of the client.
pub struct RequestInfo {
    pub method: String,
    pub path: String,
    pub query: String,
    pub headers: HeaderMap,
    pub client_host: String,
}

impl Cacheable for RequestInfo {
    /// Only GET requests consult or fill the cache.
    open spec fn spec_cacheable(&self) -> bool {
        self.method@ == "GET"@
    }

    fn is_cacheable(&self) -> (r: bool) {
        let get_method = "GET".to_owned();
        self.method == get_method
    }
}

/// The hop-by-hop connection header, dropped on the outbound leg.
pub open spec fn connection_name() -> Seq<u8> {
    seq![99u8, 111u8, 110u8, 110u8, 101u8, 99u8, 116u8, 105u8, 111u8, 110u8]
}

/// The forwarding-chain header, rebuilt on the outbound leg.
pub open spec fn xff_name_bytes() -> Seq<u8> {
    seq![
        120u8,
        45u8,
        102u8,
        111u8,
        114u8,
        119u8,
        97u8,
        114u8,
        100u8,
        101u8,
        100u8,
        45u8,
        102u8,
        111u8,
        114u8,
    ]
}

/// The headers that pass through untouched: all but the connection header
/// and the old forwarding chain, in order.
pub open spec fn passed_headers(hs: Seq<(String, String)>) -> Seq<(String, String)>
    decreases hs.len(),
{
    if hs.len() == 0 {
        hs
    } else {
        let rest = passed_headers(hs.drop_first());
        if header_name_matches(hs.first().0@, connection_name()) || header_name_matches(
            hs.first().0@,
            xff_name_bytes(),
        ) {
            rest
        } else {
            seq![hs.first()] + rest
        }
    }
}

/// The first forwarding chain the request carried, if any.
pub open spec fn spec_xff(hs: Seq<(String, String)>) -> Option<String>
    decreases hs.len(),
{
    if hs.len() == 0 {
        None
    } else if header_name_matches(hs.first().0@, xff_name_bytes()) {
        Some(hs.first().1)
    } else {
        spec_xff(hs.drop_first())
    }
}

/// The outbound forwarding chain: the inbound chain, a comma, and the
/// client host; or the client host alone when no chain came in.
pub open spec fn spec_xff_value(hs: Seq<(String, String)>, host: Seq<char>) -> Seq<char> {
    match spec_xff(hs) {
        Some(v) => v@ + ", "@ + spec_host(host),
        None => spec_host(host),
    }
}

/// What the outbound leg carries: the passed-through headers and, last,
/// the rebuilt forwarding chain under the forwarding header name.
pub open spec fn forward_headers_post(
    hs: Seq<(String, String)>,
    host: Seq<char>,
    r: Seq<(String, String)>,
) -> bool {
    &&& r.len() == passed_headers(hs).len() + 1
    &&& r.take(r.len() - 1) == passed_headers(hs)
    &&& r.last().0@ == "X-Forwarded-For"@
    &&& r.last().1@ == spec_xff_value(hs, host)
}

/// The outbound header set for one request: hop-by-hop `Connection`
/// dropped, and the forwarding chain extended by the client host.
pub fn forward_headers(headers: &HeaderMap, client_host: &str) -> (r: HeaderMap)
    ensures
        forward_headers_post(headers@, client_host@, r@),
{
    let mut conn_name: Vec<u8> = Vec::new();
    conn_name.push(99);
    conn_name.push(111);
    conn_name.push(110);
    conn_name.push(110);
    conn_name.push(101);
    conn_name.push(99);
    conn_name.push(116);
    conn_name.push(105);
    conn_name.push(111);
    conn_name.push(110);
    let mut xff_name: Vec<u8> = Vec::new();
    xff_name.push(120);
    xff_name.push(45);
    xff_name.push(102);
    xff_name.push(111);
    xff_name.push(114);
    xff_name.push(119);
    xff_name.push(97);
    xff_name.push(114);
    xff_name.push(100);
    xff_name.push(101);
    xff_name.push(100);
    xff_name.push(45);
    xff_name.push(102);
    xff_name.push(111);
    xff_name.push(114);
    proof {
        assert(conn_name@ =~= connection_name());
        assert(xff_name@ =~= xff_name_bytes());
    }
    let mut out: Vec<(String, String)> = Vec::new();
    let mut xff_val: Option<&String> = None;
    proof {
        assert(headers@.skip(0) =~= headers@);
        assert(out@ + passed_headers(headers@) =~= passed_headers(headers@));
    }
    let mut i: usize = 0;
    while i < headers.entries.len()
        invariant
            i <= headers@.len(),
            conn_name@ == connection_name(),
            xff_name@ == xff_name_bytes(),
            passed_headers(headers@) == out@ + passed_headers(headers@.skip(i as int)),
            match xff_val {
                Some(v) => spec_xff(headers@) == Some(*v),
                None => spec_xff(headers@) == spec_xff(headers@.skip(i as int)),
            },
        decreases headers@.len() - i,
    {
        let ghost tail = headers@.skip(i as int);
        let ghost pre_out = out@;
        proof {
            assert(tail.first() == headers@[i as int]);
            assert(tail.drop_first() =~= headers@.skip(i + 1));
        }
        let e = &headers.entries[i];
        let is_conn = bytes_eq_ignore_case(e.0.as_str().as_bytes(), conn_name.as_slice());
        let is_xff = bytes_eq_ignore_case(e.0.as_str().as_bytes(), xff_name.as_slice());
        if is_xff {
            match xff_val {
                None => {
                    xff_val = Some(&e.1);
                },
                Some(_) => {},
            }
        }
        if !is_conn && !is_xff {
            out.push((e.0.clone(), e.1.clone()));
            proof {
                assert(out@ =~= pre_out.push(headers@[i as int]));
                assert(passed_headers(tail) =~= seq![tail.first()] + passed_headers(
                    headers@.skip(i + 1),
                ));
                assert(out@ + passed_headers(headers@.skip(i + 1)) =~= pre_out + passed_headers(
                    tail,
                ));
            }
        } else {
            proof {
                assert(passed_headers(tail) =~= passed_headers(headers@.skip(i + 1)));
            }
        }
        i = i + 1;
    }
    proof {
        assert(headers@.skip(headers@.len() as int) =~= Seq::<(String, String)>::empty());
        assert(passed_headers(headers@) =~= out@);
    }
    let host_part = get_host(client_host);
    let chain: String = match xff_val {
        Some(v) => {
            let mut s = v.clone();
            s.append(", ");
            s.append(host_part.as_str());
            s
        },
        None => host_part,
    };
    let ghost pre_out = out@;
    out.push(("X-Forwarded-For".to_owned(), chain));
    let r = HeaderMap { entries: out };
    proof {
        assert(r@.take(r@.len() - 1) =~= pre_out);
    }
    r
}

/// Where the base URL's own path joins the request path: the base path
/// without its leading slash, then the request path as it came in.
pub open spec fn joined_path(base_path: Seq<char>, req_path: Seq<char>) -> Seq<char> {
    if base_path.len() == 0 {
        req_path
    } else {
        base_path.skip(1) + req_path
    }
}

/// The outbound URL for one request: the server base with its path
/// replaced by the joined path, carrying the request query when there is
/// one. Refused exactly when the base does not parse as a URL.
pub fn create_proxy_uri(base_url: &str, path: &str, query: &str) -> (r: Option<String>)
    ensures
        r is Some <==> url_valid(base_url@),
        r is Some ==> r->Some_0@ == url_with(
            base_url@,
            joined_path(url_path_of(base_url@), path@),
            if query@.len() == 0 {
                None
            } else {
                Some(query@)
            },
        ),
{
    let bp = match url_path(base_url) {
        Some(p) => p,
        None => {
            return None;
        },
    };
    let n = bp.as_str().unicode_len();
    let mut joined: String = if n >= 1 {
        let tail = bp.as_str().substring_char(1, n);
        proof {
            assert(tail@ =~= bp@.skip(1));
        }
        tail.to_owned()
    } else {
        String::new()
    };
    joined.append(path);
    proof {
        assert(joined@ == joined_path(url_path_of(base_url@), path@));
    }
    let q: Option<&str> = if query.is_empty() {
        None
    } else {
        Some(query)
    };
    url_replace(base_url, joined.as_str(), q)
}

/// How many responses the orchestrator's cache may hold at once.
pub const RES_CACHE_CAPACITY: usize = 10000;

/// What the orchestrator decides for one request: answer from the cache,
/// forward to a balanced server, or refuse with a resolution failure.
pub enum ProxyAction {
    Respond(CachedResponse),
    Forward(Instance),
    Reject(MatchError),
}

/// No fresh response is cached under the key: every entry with the key,
/// if any, is already stale at `now`.
pub open spec fn no_fresh_entry(
    es: Seq<(String, CachedResponse)>,
    key: Seq<char>,
    now: u64,
) -> bool {
    forall|i: int|
        0 <= i < es.len() && (#[trigger] es[i]).0@ == key ==> es[i].1.spec_expired(now)
}

/// The orchestrator: the configuration's rule table, the balancer, and
/// the response cache, composed for one request at a time.
pub struct Proxy {
    config: Configuration,
    balancer: Balancer,
    res_cache: ResponseCache,
}

impl Proxy {
    pub closed spec fn spec_rules(&self) -> Seq<crate::matcher::RuleView> {
        self.config.spec_rules()
    }

    pub closed spec fn spec_counters(&self) -> Seq<(Seq<char>, usize)> {
        self.balancer@
    }

    pub closed spec fn spec_cache(&self) -> Seq<(String, CachedResponse)> {
        self.res_cache@
    }

    pub closed spec fn spec_cache_capacity(&self) -> usize {
        self.res_cache.spec_capacity()
    }

    pub closed spec fn wf(&self) -> bool {
        &&& self.config.wf()
        &&& self.balancer.wf()
        &&& self.res_cache.wf()
        &&& self.res_cache.spec_capacity() >= 1
    }

    /// An orchestrator over a configuration, with no rotations made and
    /// nothing cached yet.
    pub fn new(config: Configuration) -> (r: Proxy)
        requires
            config.wf(),
        ensures
            r.wf(),
            r.spec_rules() == config.spec_rules(),
            r.spec_counters() == Seq::<(Seq<char>, usize)>::empty(),
            r.spec_cache() == Seq::<(String, CachedResponse)>::empty(),
    {
        Proxy {
            config,
            balancer: Balancer::new(),
            res_cache: ResponseCache::with_capacity(RES_CACHE_CAPACITY),
        }
    }

    /// The cache key of a request: its full URI, path and query.
    pub fn build_cache_key(req: &RequestInfo) -> (r: String)
        ensures
            r@ == spec_cache_key(req.path@, req.query@),
    {
        ResponseCache::build_cache_key(req.path.as_str(), req.query.as_str())
    }

    /// The fresh response cached under the key, if one is: a stale entry
    /// counts as absent, since the sweep may lag behind the expiry.
    pub fn cache_read(&self, key: &str, now: u64) -> (r: Option<CachedResponse>)
        requires
            self.wf(),
        ensures
            match r {
                Some(v) => exists|i: int|
                    0 <= i < self.spec_cache().len() && (#[trigger] self.spec_cache()[i]).0@ == key@
                        && v@ == self.spec_cache()[i].1@ && !self.spec_cache()[i].1.spec_expired(
                        now,
                    ),
                None => no_fresh_entry(self.spec_cache(), key@, now),
            },
    {
        match self.res_cache.get(key) {
            Some(v) => {
                proof {
                    crate::cache::lemma_cache_keys_unique(&self.res_cache);
                }
                if v.expired(now) {
                    proof {
                        let i = choose|i: int|
                            0 <= i < self.res_cache@.len() && (#[trigger] self.res_cache@[i]).0@
                                == key@ && v@ == self.res_cache@[i].1@;
                        assert(self.spec_cache()[i].1.ttl == v.ttl);
                        assert forall|j: int|
                            0 <= j < self.spec_cache().len() && (#[trigger] self.spec_cache()[
                            j]).0@ == key@ implies self.spec_cache()[j].1.spec_expired(now) by {
                            if j < i {
                                assert(self.res_cache@[j].0@ != self.res_cache@[i].0@);
                            } else if i < j {
                                assert(self.res_cache@[i].0@ != self.res_cache@[j].0@);
                            }
                            assert(j == i);
                        }
                    }
                    None
                } else {
                    proof {
                        let i = choose|i: int|
                            0 <= i < self.res_cache@.len() && (#[trigger] self.res_cache@[i]).0@
                                == key@ && v@ == self.res_cache@[i].1@;
                        assert(self.spec_cache()[i].1.ttl == v.ttl);
                        assert(!self.spec_cache()[i].1.spec_expired(now));
                    }
                    Some(v)
                }
            },
            None => None,
        }
    }

    /// One routing decision. A cacheable request answered by a fresh
    /// cached response touches nothing else; otherwise the first matching
    /// rule decides, and a forward advances that group's rotation.
    pub fn plan(&mut self, req: &RequestInfo, now: u64) -> (r: ProxyAction)
        requires
            old(self).wf(),
        ensures
            final(self).wf(),
            final(self).spec_rules() == old(self).spec_rules(),
            final(self).spec_cache() == old(self).spec_cache(),
            match r {
                ProxyAction::Respond(v) => {
                    &&& req.spec_cacheable()
                    &&& final(self).spec_counters() == old(self).spec_counters()
                    &&& exists|i: int|
                        0 <= i < old(self).spec_cache().len() && (#[trigger] old(
                            self,
                        ).spec_cache()[i]).0@ == spec_cache_key(req.path@, req.query@) && v@ == old(
                            self,
                        ).spec_cache()[i].1@ && !old(self).spec_cache()[i].1.spec_expired(now)
                },
                ProxyAction::Reject(e) => {
                    &&& final(self).spec_counters() == old(self).spec_counters()
                    &&& find_group_post(old(self).spec_rules(), req.path@, Err(e))
                    &&& (!req.spec_cacheable() || no_fresh_entry(
                        old(self).spec_cache(),
                        spec_cache_key(req.path@, req.query@),
                        now,
                    ))
                },
                ProxyAction::Forward(inst) => {
                    &&& (!req.spec_cacheable() || no_fresh_entry(
                        old(self).spec_cache(),
                        spec_cache_key(req.path@, req.query@),
                        now,
                    ))
                    &&& exists|g: Group|
                        {
                            &&& #[trigger] find_group_post(
                                old(self).spec_rules(),
                                req.path@,
                                Ok(g),
                            )
                            &&& g.servers@.len() > 0
                            &&& inst.timeout_secs == g.timeout_secs
                            &&& inst.url == g.servers@[spec_count(
                                old(self).spec_counters(),
                                g.name@,
                            ) as int % g.servers@.len() as int]
                            &&& spec_count(final(self).spec_counters(), g.name@) == next_count(
                                spec_count(old(self).spec_counters(), g.name@),
                            )
                            &&& (forall|n: Seq<char>|
                                n != g.name@ ==> spec_count(final(self).spec_counters(), n)
                                    == spec_count(old(self).spec_counters(), n))
                        }
                },
            },
    {
        let key = Self::build_cache_key(req);
        if req.is_cacheable() {
            match self.cache_read(key.as_str(), now) {
                Some(v) => {
                    return ProxyAction::Respond(v);
                },
                None => {},
            }
        }
        match self.config.find_group(req.path.as_str()) {
            Err(e) => ProxyAction::Reject(e),
            Ok(g) => {
                proof {
                    let i = choose|i: int|
                        0 <= i < self.spec_rules().len() && crate::matcher::regex_match(
                            (#[trigger] self.spec_rules()[i]).pattern,
                            req.path@,
                        ) && self.spec_rules()[i].group == Some(g@) && (forall|j: int|
                            0 <= j < i ==> !crate::matcher::regex_match(
                                self.spec_rules()[j].pattern,
                                req.path@,
                            ));
                    assert(g@.servers.len() > 0);
                    assert(g.servers@.len() == g.servers.deep_view().len());
                }
                let inst = self.balancer.balance(&g);
                ProxyAction::Forward(inst)
            },
        }
    }

    /// The conditional cache write after a forwarded response: only a
    /// cacheable request with a 200 response carrying a public lifetime
    /// is stored, under the request's key, for that many seconds from
    /// `now`; everything else leaves the cache as it was. Best effort:
    /// refusal never fails the request.
    pub fn cache_write(
        &mut self,
        req: &RequestInfo,
        cache_key: &str,
        status_code: u16,
        headers: HeaderMap,
        body: Vec<u8>,
        now: u64,
    ) -> (r: bool)
        requires
            old(self).wf(),
        ensures
            final(self).wf(),
            final(self).spec_rules() == old(self).spec_rules(),
            final(self).spec_counters() == old(self).spec_counters(),
            r == (req.spec_cacheable() && status_code == 200 && spec_max_age(
                crate::http_utils::cc_values(headers@),
            ) is Some && old(self).spec_cache().len() < old(self).spec_cache_capacity() && (
            forall|i: int|
                0 <= i < old(self).spec_cache().len() ==> (#[trigger] old(self).spec_cache()[
                i]).0@ != cache_key@)),
            r ==> final(self).spec_cache().len() == old(self).spec_cache().len() + 1
                && final(self).spec_cache() == old(self).spec_cache().push(
                final(self).spec_cache().last(),
            ) && final(self).spec_cache().last().0@ == cache_key@
                && final(self).spec_cache().last().1 == (CachedResponse {
                status_code,
                headers,
                body,
                ttl: spec_ttl(
                    now,
                    spec_max_age(crate::http_utils::cc_values(headers@))->Some_0,
                ),
            }),
            !r ==> final(self).spec_cache() == old(self).spec_cache(),
    {
        if req.is_cacheable() {
            self.res_cache.store(cache_key, status_code, headers, body, now)
        } else {
            false
        }
    }

    /// Whether a written file is the proxy's own configuration file.
    pub fn interested(&self, file_name: &str) -> (r: bool)
        ensures
            r == (file_name@ == "proxy.yaml"@),
    {
        self.config.interested(file_name)
    }

    /// Swap in a whole new configuration: the rule table is rebuilt and
    /// replaced atomically with the properties; rotations and cached
    /// responses stay. On failure the old configuration keeps serving.
    pub fn reload_config(&mut self, props: crate::config::ProxyProperties) -> (r: Result<
        (),
        crate::matcher::InvalidPattern,
    >)
        requires
            old(self).wf(),
        ensures
            final(self).wf(),
            final(self).spec_counters() == old(self).spec_counters(),
            final(self).spec_cache() == old(self).spec_cache(),
            match r {
                Ok(()) => crate::matcher::matcher_built(final(self).spec_rules(), props@),
                Err(e) => crate::matcher::build_failed(props@, e.pattern@)
                    && final(self).spec_rules() == old(self).spec_rules(),
            },
    {
        self.config.reload(props)
    }

    /// One eviction sweep: every entry already stale at `now` leaves the
    /// cache; everything fresh stays, in order. Meant to run periodically
    /// on a dedicated background task for the cache's lifetime.
    pub fn sweep(&mut self, now: u64)
        requires
            old(self).wf(),
        ensures
            final(self).wf(),
            final(self).spec_rules() == old(self).spec_rules(),
            final(self).spec_counters() == old(self).spec_counters(),
            final(self).spec_cache() == crate::cache::fresh_only(old(self).spec_cache(), now),
    {
        self.res_cache.expire(now);
    }
}

} // verus!
