use roxy::config::Configuration;
use roxy::config::Inbound;
use roxy::config::Outbound;
use roxy::config::ProxyProperties;
use roxy::config::Service;

fn props(pattern: &str, servers: Vec<&str>) -> ProxyProperties {
    ProxyProperties {
        service: Service::default(),
        inbound: vec![Inbound { path: pattern.to_string(), group: "api".to_string() }],
        outbound: vec![Outbound {
            timeout: None,
            group: "api".to_string(),
            servers: servers.into_iter().map(|s| s.to_string()).collect(),
        }],
    }
}

#[test]
fn default_service_settings_are_a_local_developer_service() {
    let s = Service::default();
    assert_eq!("localhost", s.ip);
    assert_eq!("8080", s.port);
    assert_eq!(6, s.workers);
    assert!(s.log_path.is_none());
    assert!(s.dev_mode);
}

#[test]
fn the_configuration_resolves_groups_and_hands_out_settings() {
    let cfg = Configuration::new(props("^/api/.*", vec!["http://a:1"])).unwrap();
    assert_eq!("api", cfg.find_group("/api/x").unwrap().name);
    assert_eq!("localhost", cfg.service_config().ip);
}

#[test]
fn only_the_own_config_file_is_interesting() {
    let cfg = Configuration::new(props("^/api/.*", vec!["http://a:1"])).unwrap();
    assert!(cfg.interested("proxy.yaml"));
    assert!(!cfg.interested("other.yaml"));
    assert!(!cfg.interested("proxy.yaml.bak"));
}

#[test]
fn a_reload_swaps_the_whole_rule_table() {
    let mut cfg = Configuration::new(props("^/api/.*", vec!["http://a:1"])).unwrap();
    cfg.reload(props("^/v2/.*", vec!["http://b:1"])).unwrap();
    assert!(cfg.find_group("/api/x").is_err());
    assert_eq!(
        vec!["http://b:1".to_string()],
        cfg.find_group("/v2/x").unwrap().servers
    );
}

#[test]
fn a_failed_reload_keeps_the_old_configuration() {
    let mut cfg = Configuration::new(props("^/api/.*", vec!["http://a:1"])).unwrap();
    assert!(cfg.reload(props("(", vec!["http://b:1"])).is_err());
    assert_eq!("api", cfg.find_group("/api/x").unwrap().name);
}

#[test]
fn a_bad_pattern_fails_construction_with_that_pattern() {
    let e = Configuration::new(props("(", vec!["http://a:1"])).err().unwrap();
    assert_eq!("(", e.pattern);
}
