//! Tests of the propagation context: a key/value carrier that loses nothing.

use otel_util::propagation::PropagationContext;

#[test]
fn empty_context_has_no_keys() {
    let ctx = PropagationContext::empty();
    assert_eq!(ctx.len(), 0);
    assert!(ctx.get("traceparent").is_none());
}

#[test]
fn set_then_get_round_trips() {
    let mut ctx = PropagationContext::empty();
    ctx.set("traceparent", "00-abc-def-01".to_string());
    ctx.set("tracestate", "vendor=1".to_string());
    assert_eq!(ctx.get("traceparent"), Some("00-abc-def-01"));
    assert_eq!(ctx.get("tracestate"), Some("vendor=1"));
    assert!(ctx.get("baggage").is_none());
    assert_eq!(ctx.len(), 2);
}

#[test]
fn set_replaces_an_existing_key() {
    let mut ctx = PropagationContext::empty();
    ctx.set("traceparent", "first".to_string());
    ctx.set("traceparent", "second".to_string());
    assert_eq!(ctx.get("traceparent"), Some("second"));
    assert_eq!(ctx.len(), 1);
}

#[test]
fn keys_lists_every_key_once() {
    let mut ctx = PropagationContext::empty();
    ctx.set("a", "1".to_string());
    ctx.set("b", "2".to_string());
    ctx.set("a", "3".to_string());
    let keys = ctx.keys();
    assert_eq!(keys, vec!["a", "b"]);
}
