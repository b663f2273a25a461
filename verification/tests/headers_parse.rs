//! Tests for the comma-separated `key=value` header-list parser.

use nix_otel::headers::{parse_header_pairs, tracer_headers};

fn parse(s: &str) -> Vec<(String, String)> {
    let chars: Vec<char> = s.chars().collect();
    parse_header_pairs(&chars)
        .into_iter()
        .map(|(k, v)| (k.into_iter().collect(), v.into_iter().collect()))
        .collect()
}

fn pair(k: &str, v: &str) -> (String, String) {
    (String::from(k), String::from(v))
}

#[test]
fn single_pair() {
    assert_eq!(parse("a=b"), vec![pair("a", "b")]);
}

#[test]
fn several_pairs_keep_order() {
    assert_eq!(
        parse("authorization=token xyz,x-tenant=prod"),
        vec![pair("authorization", "token xyz"), pair("x-tenant", "prod")]
    );
}

#[test]
fn parts_without_equals_are_dropped() {
    assert_eq!(parse("noise,k=v,also noise"), vec![pair("k", "v")]);
}

#[test]
fn empty_input_has_no_pairs() {
    assert_eq!(parse(""), Vec::new());
}

#[test]
fn only_the_first_equals_splits() {
    assert_eq!(parse("k=v=w"), vec![pair("k", "v=w")]);
}

#[test]
fn empty_key_or_value_is_kept_for_the_transport_to_judge() {
    assert_eq!(parse("=v,k="), vec![pair("", "v"), pair("k", "")]);
}

#[test]
fn trailing_and_doubled_commas_add_nothing() {
    assert_eq!(parse("a=b,,c=d,"), vec![pair("a", "b"), pair("c", "d")]);
}

fn validated(s: &str) -> Vec<(String, String)> {
    let chars: Vec<char> = s.chars().collect();
    tracer_headers(&chars)
}

#[test]
fn transport_keeps_acceptable_headers() {
    assert_eq!(
        validated("authorization=token xyz,x-tenant=prod"),
        vec![pair("authorization", "token xyz"), pair("x-tenant", "prod")]
    );
}

#[test]
fn transport_drops_an_invalid_key() {
    // A space is never allowed in a metadata key.
    assert_eq!(validated("bad key=v,ok=v"), vec![pair("ok", "v")]);
}

#[test]
fn transport_drops_an_invalid_value() {
    // A newline is never allowed in a metadata value.
    assert_eq!(validated("k=line\nbreak,ok=v"), vec![pair("ok", "v")]);
}

#[test]
fn transport_drops_an_empty_key() {
    assert_eq!(validated("=v,ok=v"), vec![pair("ok", "v")]);
}
