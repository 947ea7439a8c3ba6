//! Tests of the export reader: decoding lines into the trace model.

use otel_util::content::TraceContent;
use otel_util::model::{Attribute, Event, ResourceSpan, ScopeSpan, Span, TraceRecord};
use otel_util::reader::{build_trace_content, parse_record_line, read_export_lines};

fn span(name: &str, status: u32, events: Vec<Event>) -> Span {
    Span { name: name.to_string(), status_code: status, events }
}

fn content_of(lines: Vec<String>) -> TraceContent {
    build_trace_content(&lines).expect("lines must decode")
}

#[test]
fn parses_minimal_record() {
    let rec = parse_record_line(r#"{"resourceSpans":[]}"#).expect("must parse");
    assert_eq!(rec.resource_spans.len(), 0);
}

#[test]
fn parses_record_with_span_and_status() {
    let line = r#"{"resourceSpans":[{"resource":{"attributes":[{"key":"service.name","value":{"stringValue":"svc"}}]},"scopeSpans":[{"spans":[{"name":"work","status":{"code":2},"events":[]}]}]}]}"#;
    let rec = parse_record_line(line).expect("must parse");
    assert_eq!(rec.resource_spans.len(), 1);
    let rs = &rec.resource_spans[0];
    assert_eq!(rs.get_service_name(), "svc");
    assert_eq!(rs.scope_spans.len(), 1);
    let sp = &rs.scope_spans[0].spans[0];
    assert_eq!(sp.name, "work");
    assert_eq!(sp.status_code, 2);
}

#[test]
fn skips_unknown_members_and_whitespace() {
    // Fields the model does not keep (ids, timestamps, nested unknowns) are
    // skipped; whitespace between tokens is accepted.
    let line = r#" { "resourceSpans" : [ { "schemaUrl": "x", "resource": { "attributes": [], "droppedAttributesCount": 0 }, "scopeSpans": [ { "scope": {"name":"lib","version":"1.0"}, "spans": [ { "traceId": "abc123", "spanId": "def", "startTimeUnixNano": "170000", "name": "alpha", "kind": 1, "status": {}, "events": [ ], "flags": 256, "extras": [true, false, null, 1.5e-3, {"deep":[{"x":"}"}]}] } ] } ] } ] } "#;
    let rec = parse_record_line(line).expect("must parse");
    let sp = &rec.resource_spans[0].scope_spans[0].spans[0];
    assert_eq!(sp.name, "alpha");
    // An empty status object means code 0 (unset).
    assert_eq!(sp.status_code, 0);
    assert_eq!(sp.events.len(), 0);
}

#[test]
fn decodes_string_escapes() {
    let line = r#"{"resourceSpans":[{"scopeSpans":[{"spans":[{"name":"a\"b\\c\nd\te\/f"}]}]}]}"#;
    let rec = parse_record_line(line).expect("must parse");
    let sp = &rec.resource_spans[0].scope_spans[0].spans[0];
    assert_eq!(sp.name, "a\"b\\c\nd\te/f");
}

#[test]
fn keeps_only_string_valued_attributes() {
    let line = r#"{"resourceSpans":[{"scopeSpans":[{"spans":[{"name":"s","events":[{"name":"ev","attributes":[{"key":"n","value":{"intValue":"3"}},{"key":"exception.message","value":{"stringValue":"boom"}}]}]}]}]}]}"#;
    let rec = parse_record_line(line).expect("must parse");
    let ev = &rec.resource_spans[0].scope_spans[0].spans[0].events[0];
    assert_eq!(ev.attributes.len(), 1);
    assert_eq!(ev.attributes[0].key, "exception.message");
    assert_eq!(ev.attributes[0].value, "boom");
}

#[test]
fn rejects_malformed_line_with_its_index() {
    let lines = vec![
        r#"{"resourceSpans":[]}"#.to_string(),
        String::new(),
        r#"{"resourceSpans":"#.to_string(),
    ];
    let err = read_export_lines(&lines).expect_err("third line is malformed");
    assert_eq!(err.line, 2);
}

#[test]
fn rejects_trailing_garbage() {
    assert!(parse_record_line(r#"{"resourceSpans":[]} extra"#).is_none());
    assert!(parse_record_line(r#"{"resourceSpans":[]]}"#).is_none());
    assert!(parse_record_line("").is_none());
}

#[test]
fn skips_empty_lines_and_concatenates_resource_spans() {
    let lines = vec![
        r#"{"resourceSpans":[{"scopeSpans":[{"spans":[{"name":"one"}]}]}]}"#.to_string(),
        String::new(),
        r#"{"resourceSpans":[{"scopeSpans":[{"spans":[{"name":"two"}]},{"spans":[{"name":"three"}]}]}]}"#.to_string(),
    ];
    let content = content_of(lines);
    assert_eq!(content.trace.len(), 2);
    assert_eq!(content.span_count(), 3);
    let names = content.get_span_names();
    assert_eq!(names, vec!["one".to_string(), "three".to_string(), "two".to_string()]);
}

#[test]
fn status_codes_larger_than_u32_are_malformed() {
    let line = r#"{"resourceSpans":[{"scopeSpans":[{"spans":[{"name":"s","status":{"code":4294967296}}]}]}]}"#;
    assert!(parse_record_line(line).is_none());
}

#[test]
fn model_types_construct_directly() {
    let rec = TraceRecord {
        resource_spans: vec![ResourceSpan {
            attributes: vec![Attribute { key: "k".to_string(), value: "v".to_string() }],
            scope_spans: vec![ScopeSpan { spans: vec![span("s", 0, Vec::new())] }],
        }],
    };
    assert_eq!(rec.resource_spans[0].attributes[0].key, "k");
}

#[test]
fn span_names_are_invariant_to_line_order() {
    let one = r#"{"resourceSpans":[{"scopeSpans":[{"spans":[{"name":"zeta"},{"name":"alpha"}]}]}]}"#;
    let two = r#"{"resourceSpans":[{"scopeSpans":[{"spans":[{"name":"mid"}]}]}]}"#;
    let forward = content_of(vec![one.to_string(), two.to_string()]);
    let backward = content_of(vec![two.to_string(), one.to_string()]);
    let names = forward.get_span_names();
    assert_eq!(names, backward.get_span_names());
    assert_eq!(
        names,
        vec!["alpha".to_string(), "mid".to_string(), "zeta".to_string()]
    );
    // Idempotent: asking again changes nothing.
    assert_eq!(names, forward.get_span_names());
}

#[test]
fn resource_span_lists_its_span_names_in_order() {
    let line = r#"{"resourceSpans":[{"scopeSpans":[{"spans":[{"name":"b"},{"name":"a"}]},{"spans":[{"name":"c"}]}]}]}"#;
    let rec = parse_record_line(line).expect("must parse");
    let names = rec.resource_spans[0].get_span_names();
    assert_eq!(names, vec!["b".to_string(), "a".to_string(), "c".to_string()]);
}
