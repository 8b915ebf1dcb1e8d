//! Tests for the service-layer helpers: query-string parsing and the
//! decimal formatting used by the renderer.

use code_svg::digits::{dec_string, dec_string_pad3};
use code_svg::query::parse_query_string;
use code_svg::scan::lookup_last;

#[test]
fn query_string_splits_into_pairs() {
    let pairs = parse_query_string("lang=rust&style=dark");
    assert_eq!(pairs.len(), 2);
    assert_eq!(pairs[0].0, "lang");
    assert_eq!(pairs[0].1, "rust");
    assert_eq!(pairs[1].0, "style");
    assert_eq!(pairs[1].1, "dark");
    assert_eq!(lookup_last(&pairs, "lang").unwrap().as_str(), "rust");
    assert!(lookup_last(&pairs, "missing").is_none());
}

#[test]
fn query_value_keeps_later_equals_signs() {
    let pairs = parse_query_string("expr=a=b");
    assert_eq!(pairs.len(), 1);
    assert_eq!(pairs[0].0, "expr");
    assert_eq!(pairs[0].1, "a=b");
}

#[test]
fn later_query_bindings_override_earlier_ones() {
    let pairs = parse_query_string("lang=rust&lang=haskell");
    assert_eq!(pairs.len(), 2);
    assert_eq!(lookup_last(&pairs, "lang").unwrap().as_str(), "haskell");
}

#[test]
fn empty_value_and_empty_key() {
    let pairs = parse_query_string("k=&=v");
    assert_eq!(pairs[0].0, "k");
    assert_eq!(pairs[0].1, "");
    assert_eq!(pairs[1].0, "");
    assert_eq!(pairs[1].1, "v");
}

#[test]
fn decimal_rendering() {
    assert_eq!(dec_string(0), "0");
    assert_eq!(dec_string(7), "7");
    assert_eq!(dec_string(1024), "1024");
    assert_eq!(dec_string(18446744073709551615), "18446744073709551615");
}

#[test]
fn gutter_numbers_pad_to_width_three() {
    assert_eq!(dec_string_pad3(1), "  1");
    assert_eq!(dec_string_pad3(42), " 42");
    assert_eq!(dec_string_pad3(100), "100");
    assert_eq!(dec_string_pad3(1000), "1000");
}
