use roxy::config::Configuration;
use roxy::config::Inbound;
use roxy::config::Outbound;
use roxy::config::ProxyProperties;
use roxy::config::Service;
use roxy::http_utils::HeaderMap;
use roxy::matcher::MatchError;
use roxy::proxy::Proxy;
use roxy::proxy::ProxyAction;
use roxy::proxy::RequestInfo;
use roxy::proxy::create_proxy_uri;
use roxy::proxy::forward_headers;

fn api_props(servers: Vec<&str>) -> ProxyProperties {
    ProxyProperties {
        service: Service::default(),
        inbound: vec![Inbound { path: "^/api/.*".to_string(), group: "api".to_string() }],
        outbound: vec![Outbound {
            timeout: None,
            group: "api".to_string(),
            servers: servers.into_iter().map(|s| s.to_string()).collect(),
        }],
    }
}

fn get_req(path: &str) -> RequestInfo {
    RequestInfo {
        method: "GET".to_string(),
        path: path.to_string(),
        query: String::new(),
        headers: HeaderMap { entries: vec![] },
        client_host: "9.9.9.9:1000".to_string(),
    }
}

fn forwarded_url(action: ProxyAction) -> String {
    match action {
        ProxyAction::Forward(inst) => inst.url,
        _ => panic!("expected a forward"),
    }
}

#[test]
fn requests_rotate_across_the_group_servers() {
    let cfg = Configuration::new(api_props(vec!["http://a:1", "http://b:1"])).unwrap();
    let mut proxy = Proxy::new(cfg);
    let now = 1_000;
    assert_eq!("http://a:1", forwarded_url(proxy.plan(&get_req("/api/x"), now)));
    assert_eq!("http://b:1", forwarded_url(proxy.plan(&get_req("/api/y"), now)));
    assert_eq!("http://a:1", forwarded_url(proxy.plan(&get_req("/api/z"), now)));
}

#[test]
fn an_unmatched_path_is_rejected_not_forwarded() {
    let cfg = Configuration::new(api_props(vec!["http://a:1"])).unwrap();
    let mut proxy = Proxy::new(cfg);
    match proxy.plan(&get_req("/other"), 0) {
        ProxyAction::Reject(e) => assert!(matches!(e, MatchError::NotFound)),
        _ => panic!("expected a rejection"),
    }
}

#[test]
fn a_cacheable_response_is_served_from_the_cache_until_swept() {
    let cfg = Configuration::new(api_props(vec!["http://a:1", "http://b:1"])).unwrap();
    let mut proxy = Proxy::new(cfg);
    let req = get_req("/api/x");
    let now = 10_000;

    // first request: a miss, forwarded to the first server
    assert_eq!("http://a:1", forwarded_url(proxy.plan(&req, now)));

    // the upstream answers 200 with a one-second public lifetime
    let key = Proxy::build_cache_key(&req);
    let headers = HeaderMap {
        entries: vec![("Cache-Control".to_string(), "public, max-age=1".to_string())],
    };
    assert!(proxy.cache_write(&req, &key, 200, headers, b"payload".to_vec(), now));

    // a repeat request within the second is answered from the cache
    match proxy.plan(&req, now + 500) {
        ProxyAction::Respond(v) => {
            assert_eq!(b"payload".to_vec(), v.body);
            assert_eq!(200, v.status_code);
        },
        _ => panic!("expected a cached response"),
    }

    // after the lifetime and one sweep, the next request goes upstream again
    proxy.sweep(now + 1500);
    assert_eq!("http://b:1", forwarded_url(proxy.plan(&req, now + 1500)));
}

#[test]
fn non_get_requests_never_touch_the_cache() {
    let cfg = Configuration::new(api_props(vec!["http://a:1"])).unwrap();
    let mut proxy = Proxy::new(cfg);
    let mut req = get_req("/api/x");
    req.method = "POST".to_string();
    let key = Proxy::build_cache_key(&req);
    let headers = HeaderMap {
        entries: vec![("Cache-Control".to_string(), "public, max-age=60".to_string())],
    };
    assert!(!proxy.cache_write(&req, &key, 200, headers, vec![1], 0));
    assert!(matches!(proxy.plan(&req, 0), ProxyAction::Forward(_)));
}

#[test]
fn a_failed_cache_write_never_fails_the_request() {
    let cfg = Configuration::new(api_props(vec!["http://a:1"])).unwrap();
    let mut proxy = Proxy::new(cfg);
    let req = get_req("/api/x");
    let key = Proxy::build_cache_key(&req);
    let headers = HeaderMap { entries: vec![] };
    // nothing cacheable about this response: the write is refused ...
    assert!(!proxy.cache_write(&req, &key, 500, headers, vec![], 0));
    // ... and routing still works
    assert!(matches!(proxy.plan(&req, 0), ProxyAction::Forward(_)));
}

#[test]
fn reloading_the_configuration_redirects_routing() {
    let cfg = Configuration::new(api_props(vec!["http://a:1"])).unwrap();
    let mut proxy = Proxy::new(cfg);
    assert_eq!("http://a:1", forwarded_url(proxy.plan(&get_req("/api/x"), 0)));

    assert!(proxy.interested("proxy.yaml"));
    assert!(!proxy.interested("other.yaml"));

    let new_props = ProxyProperties {
        service: Service::default(),
        inbound: vec![Inbound { path: "^/v2/.*".to_string(), group: "api".to_string() }],
        outbound: vec![Outbound {
            timeout: None,
            group: "api".to_string(),
            servers: vec!["http://b:1".to_string()],
        }],
    };
    proxy.reload_config(new_props).unwrap();
    assert!(matches!(proxy.plan(&get_req("/api/x"), 0), ProxyAction::Reject(MatchError::NotFound)));
    assert_eq!("http://b:1", forwarded_url(proxy.plan(&get_req("/v2/x"), 0)));
}

#[test]
fn the_outbound_url_joins_base_path_request_path_and_query() {
    assert_eq!(
        Some("http://up:8080/api/x?a=1".to_string()),
        create_proxy_uri("http://up:8080", "/api/x", "a=1"),
    );
    assert_eq!(
        Some("http://up:8080/base/api/x".to_string()),
        create_proxy_uri("http://up:8080/base", "/api/x", ""),
    );
    assert_eq!(None, create_proxy_uri("not a url", "/api/x", ""));
}

#[test]
fn the_outbound_headers_drop_connection_and_extend_the_chain() {
    let headers = HeaderMap {
        entries: vec![
            ("Connection".to_string(), "close".to_string()),
            ("X-Forwarded-For".to_string(), "1.2.3.4".to_string()),
            ("Accept".to_string(), "*/*".to_string()),
        ],
    };
    let out = forward_headers(&headers, "5.6.7.8:1234");
    assert_eq!(
        vec![
            ("Accept".to_string(), "*/*".to_string()),
            ("X-Forwarded-For".to_string(), "1.2.3.4, 5.6.7.8".to_string()),
        ],
        out.entries,
    );
}

#[test]
fn a_request_with_no_chain_starts_one_with_the_client_host() {
    let headers = HeaderMap { entries: vec![("Accept".to_string(), "*/*".to_string())] };
    let out = forward_headers(&headers, "5.6.7.8:1234");
    assert_eq!(
        vec![
            ("Accept".to_string(), "*/*".to_string()),
            ("X-Forwarded-For".to_string(), "5.6.7.8".to_string()),
        ],
        out.entries,
    );
}
