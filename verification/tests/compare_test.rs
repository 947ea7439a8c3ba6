//! Tests of the trace comparator: order-independent, itemized diffs.

use otel_util::compare::{compare, Mismatch};
use otel_util::content::TraceContent;
use otel_util::model::{Attribute, Event, ResourceSpan, ScopeSpan, Span, TraceRecord};
use otel_util::reader::build_trace_content;
use otel_util::writer::encode_records;

fn span_named(name: &str, events: &[&str]) -> Span {
    Span {
        name: name.to_string(),
        status_code: 0,
        events: events
            .iter()
            .map(|e| Event { name: e.to_string(), attributes: Vec::new() })
            .collect(),
    }
}

fn content_with_spans(spans: Vec<Span>) -> TraceContent {
    TraceContent {
        trace: vec![ResourceSpan {
            attributes: Vec::new(),
            scope_spans: vec![ScopeSpan { spans }],
        }],
    }
}

#[test]
fn equal_span_names_in_different_order_report_no_mismatch() {
    let actual = content_with_spans(vec![span_named("a", &[]), span_named("b", &[])]);
    let expected = content_with_spans(vec![span_named("b", &[]), span_named("a", &[])]);
    let mismatches = compare(&actual, &expected);
    assert!(mismatches.is_empty());
}

#[test]
fn missing_event_name_reports_exactly_one_mismatch_naming_the_span() {
    let actual = content_with_spans(vec![
        span_named("steady", &["setup"]),
        span_named("probe", &["lookup"]),
    ]);
    let expected = content_with_spans(vec![
        span_named("steady", &["setup"]),
        span_named("probe", &["lookup", "timeout"]),
    ]);
    let mismatches = compare(&actual, &expected);
    // Exactly one mismatch concerns the event names, and it names the
    // differing span.  (The extra event also shows up in the per-event
    // exception projection, reported separately.)
    let name_mismatches: Vec<&Mismatch> = mismatches
        .iter()
        .filter(|m| matches!(m, Mismatch::SpanEventNames { .. }))
        .collect();
    assert_eq!(name_mismatches.len(), 1);
    match name_mismatches[0] {
        Mismatch::SpanEventNames { span, actual, expected } => {
            assert_eq!(span, "probe");
            assert_eq!(actual.as_ref().unwrap(), &vec!["lookup".to_string()]);
            assert_eq!(
                expected.as_ref().unwrap(),
                &vec!["lookup".to_string(), "timeout".to_string()]
            );
        }
        other => panic!("wrong mismatch kind: {:?}", kind_of(other)),
    }
    assert!(mismatches.iter().all(|m| matches!(
        m,
        Mismatch::SpanEventNames { .. } | Mismatch::SpanEventExceptions { .. }
    )));
}

fn kind_of(m: &Mismatch) -> &'static str {
    match m {
        Mismatch::SpanNames { .. } => "span_names",
        Mismatch::SpanCount { .. } => "span_count",
        Mismatch::StatusCount { .. } => "status_count",
        Mismatch::SpanEventNames { .. } => "span_event_names",
        Mismatch::SpanEventExceptions { .. } => "span_event_exceptions",
    }
}

#[test]
fn differing_names_counts_and_status_are_each_reported() {
    let mut err_span = span_named("boom", &[]);
    err_span.status_code = 2;
    let actual = content_with_spans(vec![err_span]);
    let expected = content_with_spans(vec![span_named("calm", &[])]);
    let mismatches = compare(&actual, &expected);
    // Same scope count, but names, error-status count, and both per-span
    // maps diverge (two keys each map: boom only in actual, calm only in
    // expected).
    let kinds: Vec<&str> = mismatches.iter().map(kind_of).collect();
    assert_eq!(
        kinds,
        vec![
            "span_names",
            "status_count",
            "span_event_names",
            "span_event_names",
            "span_event_exceptions",
            "span_event_exceptions",
        ]
    );
}

#[test]
fn scope_count_difference_is_reported() {
    let actual = TraceContent {
        trace: vec![ResourceSpan {
            attributes: Vec::new(),
            scope_spans: vec![
                ScopeSpan { spans: vec![span_named("a", &[])] },
                ScopeSpan { spans: Vec::new() },
            ],
        }],
    };
    let expected = content_with_spans(vec![span_named("a", &[])]);
    let mismatches = compare(&actual, &expected);
    assert_eq!(mismatches.len(), 1);
    match &mismatches[0] {
        Mismatch::SpanCount { actual, expected } => {
            assert_eq!(*actual, 2);
            assert_eq!(*expected, 1);
        }
        other => panic!("wrong mismatch kind: {:?}", kind_of(other)),
    }
}

#[test]
fn comparison_against_reference_file_content() {
    // An "actual" export read from lines against an "expected" reference
    // built directly: equivalent projections, no mismatches.
    let records = vec![TraceRecord {
        resource_spans: vec![ResourceSpan {
            attributes: vec![Attribute {
                key: "service.name".to_string(),
                value: "svc".to_string(),
            }],
            scope_spans: vec![ScopeSpan {
                spans: vec![span_named("request", &["recv", "send"])],
            }],
        }],
    }];
    let lines = encode_records(&records).expect("records are encodable");
    let actual = build_trace_content(&lines).expect("written lines must read back");
    let expected = TraceContent { trace: records.into_iter().next().unwrap().resource_spans };
    assert!(compare(&actual, &expected).is_empty());
}
