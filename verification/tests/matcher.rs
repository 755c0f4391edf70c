use roxy::config::Inbound;
use roxy::config::Outbound;
use roxy::config::ProxyProperties;
use roxy::config::Service;
use roxy::matcher::MatchError;
use roxy::matcher::PathMatcher;
use roxy::matcher::convert_to_group;

fn props(inbound: Vec<(&str, &str)>, outbound: Vec<(&str, Vec<&str>, Option<u64>)>) -> ProxyProperties {
    ProxyProperties {
        service: Service::default(),
        inbound: inbound
            .into_iter()
            .map(|(path, group)| Inbound { path: path.to_string(), group: group.to_string() })
            .collect(),
        outbound: outbound
            .into_iter()
            .map(|(group, servers, timeout)| Outbound {
                timeout,
                group: group.to_string(),
                servers: servers.into_iter().map(|s| s.to_string()).collect(),
            })
            .collect(),
    }
}

#[test]
fn first_declared_matching_pattern_wins() {
    let p = props(
        vec![("^/api/.*", "first"), ("^/api/x", "second")],
        vec![
            ("first", vec!["http://a:1"], None),
            ("second", vec!["http://b:1"], None),
        ],
    );
    let m = PathMatcher::new(&p).unwrap();
    let g = m.find_group("/api/x").unwrap();
    assert_eq!("first", g.name);
}

#[test]
fn no_servers_is_not_not_found() {
    let p = props(
        vec![("^/api/.*", "api")],
        vec![("api", vec!["not a url at all"], None)],
    );
    let m = PathMatcher::new(&p).unwrap();
    assert!(matches!(m.find_group("/api/x"), Err(MatchError::NoServers)));
    assert!(matches!(m.find_group("/other"), Err(MatchError::NotFound)));
}

#[test]
fn missing_outbound_group_keeps_the_slot_without_servers() {
    let p = props(vec![("^/api/.*", "ghost")], vec![]);
    let m = PathMatcher::new(&p).unwrap();
    assert!(matches!(m.find_group("/api/x"), Err(MatchError::NoServers)));
}

#[test]
fn invalid_pattern_fails_the_build() {
    let p = props(vec![("(", "api")], vec![("api", vec!["http://a:1"], None)]);
    let e = PathMatcher::new(&p).err().unwrap();
    assert_eq!("(", e.pattern);
}

#[test]
fn rebuild_keeps_the_old_table_on_failure() {
    let good = props(
        vec![("^/api/.*", "api")],
        vec![("api", vec!["http://a:1"], None)],
    );
    let bad = props(vec![("(", "api")], vec![("api", vec!["http://a:1"], None)]);
    let mut m = PathMatcher::new(&good).unwrap();
    assert!(m.rebuild(&bad).is_err());
    assert_eq!("api", m.find_group("/api/x").unwrap().name);
}

#[test]
fn malformed_server_addresses_are_skipped() {
    let ob = Outbound {
        timeout: None,
        group: "g".to_string(),
        servers: vec!["://bad".to_string(), "http://ok:8080".to_string()],
    };
    let g = convert_to_group("g", &ob).unwrap();
    assert_eq!(vec!["http://ok:8080".to_string()], g.servers);
}

#[test]
fn a_group_with_no_valid_server_resolves_to_nothing() {
    let ob = Outbound {
        timeout: None,
        group: "g".to_string(),
        servers: vec!["definitely not a url".to_string()],
    };
    assert!(convert_to_group("g", &ob).is_none());
}

#[test]
fn timeout_defaults_to_sixty_seconds() {
    let ob = Outbound {
        timeout: None,
        group: "g".to_string(),
        servers: vec!["http://ok:8080".to_string()],
    };
    assert_eq!(60, convert_to_group("g", &ob).unwrap().timeout_secs);

    let ob2 = Outbound {
        timeout: Some(5),
        group: "g".to_string(),
        servers: vec!["http://ok:8080".to_string()],
    };
    assert_eq!(5, convert_to_group("g", &ob2).unwrap().timeout_secs);
}

#[test]
fn the_last_declaration_of_a_group_name_wins() {
    let p = props(
        vec![("^/api/.*", "api")],
        vec![
            ("api", vec!["http://old:1"], None),
            ("api", vec!["http://new:1"], None),
        ],
    );
    let m = PathMatcher::new(&p).unwrap();
    let g = m.find_group("/api/x").unwrap();
    assert_eq!(vec!["http://new:1".to_string()], g.servers);
}
