use roxy::balancer::Balancer;
use roxy::config::Group;

fn group(servers: Vec<&str>) -> Group {
    Group {
        servers: servers.into_iter().map(|s| s.to_string()).collect(),
        name: "g".to_string(),
        timeout_secs: 60,
    }
}

#[test]
fn round_robin_cycles_without_repeats_or_skips() {
    let g = group(vec!["s0", "s1", "s2"]);
    let mut b = Balancer::new();
    assert_eq!("s0", b.balance(&g).url);
    assert_eq!("s1", b.balance(&g).url);
    assert_eq!("s2", b.balance(&g).url);
    assert_eq!("s0", b.balance(&g).url);
}

#[test]
fn counter_maximum_wraps_to_one_not_zero() {
    let g = group(vec!["s0", "s1", "s2"]);
    let mut b = Balancer::with_counts(vec![("g".to_string(), usize::MAX)]);
    // usize::MAX is divisible by 3, so the call at the maximum picks s0;
    // the counter then wraps to 1, and the next call picks index 1.
    assert_eq!("s0", b.balance(&g).url);
    assert_eq!("s1", b.balance(&g).url);
}

#[test]
fn groups_rotate_independently() {
    let ga = Group {
        servers: vec!["a0".to_string(), "a1".to_string()],
        name: "a".to_string(),
        timeout_secs: 60,
    };
    let gb = Group {
        servers: vec!["b0".to_string(), "b1".to_string()],
        name: "b".to_string(),
        timeout_secs: 60,
    };
    let mut b = Balancer::new();
    assert_eq!("a0", b.balance(&ga).url);
    assert_eq!("b0", b.balance(&gb).url);
    assert_eq!("a1", b.balance(&ga).url);
    assert_eq!("b1", b.balance(&gb).url);
}

#[test]
fn the_instance_carries_the_group_timeout() {
    let mut g = group(vec!["s0"]);
    g.timeout_secs = 7;
    let mut b = Balancer::new();
    assert_eq!(7, b.balance(&g).timeout_secs);
}
