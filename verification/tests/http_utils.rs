use roxy::http_utils::HeaderMap;
use roxy::http_utils::Headers;
use roxy::http_utils::bytes_eq;
use roxy::http_utils::get_host;
use roxy::http_utils::parse_u64_bytes;
use roxy::http_utils::split_bytes;
use roxy::http_utils::str_eq_ignore_ascii_case;
use roxy::http_utils::trim_bytes;

fn headers(entries: Vec<(&str, &str)>) -> HeaderMap {
    HeaderMap {
        entries: entries
            .into_iter()
            .map(|(n, v)| (n.to_string(), v.to_string()))
            .collect(),
    }
}

#[test]
fn max_age_needs_public_and_a_number() {
    assert_eq!(Some(1), headers(vec![("Cache-Control", "public, max-age=1")]).max_age());
    assert_eq!(None, headers(vec![("Cache-Control", "max-age=1")]).max_age());
    assert_eq!(None, headers(vec![("Cache-Control", "public")]).max_age());
    assert_eq!(None, headers(vec![]).max_age());
}

#[test]
fn max_age_directive_order_does_not_matter() {
    assert_eq!(Some(10), headers(vec![("Cache-Control", "max-age=10, public")]).max_age());
}

#[test]
fn max_age_last_occurrence_wins() {
    assert_eq!(
        Some(7),
        headers(vec![("Cache-Control", "public, max-age=5, max-age=7")]).max_age()
    );
}

#[test]
fn max_age_bad_numbers_are_refused() {
    assert_eq!(None, headers(vec![("Cache-Control", "public, max-age=abc")]).max_age());
    assert_eq!(None, headers(vec![("Cache-Control", "public, max-age=")]).max_age());
    assert_eq!(
        None,
        headers(vec![("Cache-Control", "public, max-age=99999999999999999999999")]).max_age()
    );
}

#[test]
fn max_age_reads_every_cache_control_value() {
    let h = headers(vec![("Cache-Control", "public"), ("Cache-Control", "max-age=3")]);
    assert_eq!(Some(3), h.max_age());
}

#[test]
fn max_age_header_name_is_case_insensitive() {
    assert_eq!(Some(2), headers(vec![("cache-CONTROL", "public, max-age=2")]).max_age());
}

#[test]
fn header_lookup_takes_the_first_match_ignoring_case() {
    let h = headers(vec![("Accept", "one"), ("ACCEPT", "two")]);
    assert_eq!(Some(&"one".to_string()), h.get_header_value("accept"));
    assert_eq!(None, h.get_header_value("missing"));
}

#[test]
fn xff_reads_the_forwarding_header() {
    let h = headers(vec![("x-forwarded-for", "1.2.3.4")]);
    assert_eq!(Some(&"1.2.3.4".to_string()), h.xff());
    assert_eq!(None, headers(vec![]).xff());
}

#[test]
fn get_host_takes_the_part_before_the_colon() {
    assert_eq!("example.com", get_host("example.com:8080"));
    assert_eq!("", get_host("example.com"));
    assert_eq!("", get_host(""));
    assert_eq!("a", get_host("a:1:2"));
}

#[test]
fn decimal_parsing_is_exact() {
    assert_eq!(Some(0), parse_u64_bytes(b"0"));
    assert_eq!(Some(18446744073709551615), parse_u64_bytes(b"18446744073709551615"));
    assert_eq!(None, parse_u64_bytes(b"18446744073709551616"));
    assert_eq!(None, parse_u64_bytes(b""));
    assert_eq!(None, parse_u64_bytes(b"1a"));
    assert_eq!(None, parse_u64_bytes(b"+1"));
}

#[test]
fn splitting_keeps_empty_segments() {
    let parts = split_bytes(b"a,,b", b',');
    assert_eq!(3, parts.len());
    assert_eq!(b"a".to_vec(), parts[0]);
    assert_eq!(b"".to_vec(), parts[1]);
    assert_eq!(b"b".to_vec(), parts[2]);
}

#[test]
fn trimming_strips_spaces_and_tabs() {
    assert_eq!(b"x y".to_vec(), trim_bytes(b" \t x y \t "));
    assert_eq!(b"".to_vec(), trim_bytes(b"   "));
}

#[test]
fn byte_string_helpers_compare_exactly() {
    assert!(bytes_eq(b"abc", b"abc"));
    assert!(!bytes_eq(b"abc", b"abd"));
    assert!(str_eq_ignore_ascii_case("Cache-Control", "cache-control"));
    assert!(!str_eq_ignore_ascii_case("Cache-Control", "cache-control2"));
}
