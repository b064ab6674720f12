//! Usage as it is reported.

use kiro_gateway::anthropic::usage::build_usage_json;
use kiro_gateway::json::Json;

fn count(v: &Json, key: &str) -> Option<i64> {
    v.get(key).and_then(|n| n.as_i64())
}

#[test]
fn build_usage_omits_zero_cache_fields_and_keeps_full_input() {
    let v = build_usage_json(1000, 50, 0, 0);
    assert_eq!(count(&v, "input_tokens"), Some(1000));
    assert_eq!(count(&v, "output_tokens"), Some(50));
    assert!(v.get("cache_read_input_tokens").is_none());
    assert!(v.get("cache_creation_input_tokens").is_none());
}

#[test]
fn build_usage_subtracts_cache_from_input() {
    let v = build_usage_json(1000, 50, 800, 50);
    assert_eq!(count(&v, "input_tokens"), Some(150));
    assert_eq!(count(&v, "cache_read_input_tokens"), Some(800));
    assert_eq!(count(&v, "cache_creation_input_tokens"), Some(50));
    let sum = count(&v, "input_tokens").unwrap()
        + count(&v, "cache_read_input_tokens").unwrap()
        + count(&v, "cache_creation_input_tokens").unwrap();
    assert_eq!(sum, 1000);
}

#[test]
fn build_usage_clamps_negative_uncached_to_zero() {
    let v = build_usage_json(100, 5, 200, 0);
    assert_eq!(count(&v, "input_tokens"), Some(0));
    assert_eq!(count(&v, "cache_read_input_tokens"), Some(200));
}

#[test]
fn build_usage_inflated_cache_scenario() {
    let v = build_usage_json(6000, 100, 5100, 0);
    assert_eq!(count(&v, "input_tokens"), Some(900));
    assert_eq!(count(&v, "cache_read_input_tokens"), Some(5100));
}
