//! Round-trip tests: records written as export lines read back unchanged.

use otel_util::content::TraceContent;
use otel_util::model::{Attribute, Event, ResourceSpan, ScopeSpan, Span, TraceRecord};
use otel_util::reader::build_trace_content;
use otel_util::writer::{encode_record, encode_records};

fn sample_record(names: &[&str], status: u32) -> TraceRecord {
    let scope_spans: Vec<ScopeSpan> = names
        .iter()
        .map(|n| ScopeSpan {
            spans: vec![Span {
                name: n.to_string(),
                status_code: status,
                events: vec![Event {
                    name: "ev".to_string(),
                    attributes: vec![Attribute {
                        key: "exception.message".to_string(),
                        value: format!("failed in {}", n),
                    }],
                }],
            }],
        })
        .collect();
    TraceRecord {
        resource_spans: vec![ResourceSpan {
            attributes: vec![Attribute {
                key: "service.name".to_string(),
                value: "svc".to_string(),
            }],
            scope_spans,
        }],
    }
}

#[test]
fn writing_scope_spans_across_lines_preserves_span_count() {
    // Seven scope spans spread over three export lines.
    let records = vec![
        sample_record(&["a", "b", "c"], 0),
        sample_record(&["d"], 2),
        sample_record(&["e", "f", "g"], 0),
    ];
    let lines = encode_records(&records).expect("records are encodable");
    assert_eq!(lines.len(), 3);
    let content = build_trace_content(&lines).expect("written lines must read back");
    assert_eq!(content.span_count(), 7);
}

#[test]
fn round_trip_preserves_projections() {
    let records = vec![sample_record(&["beta", "alpha"], 2)];
    let lines = encode_records(&records).expect("records are encodable");
    let content = build_trace_content(&lines).expect("written lines must read back");
    assert_eq!(
        content.get_span_names(),
        vec!["alpha".to_string(), "beta".to_string()]
    );
    assert_eq!(content.status_count(2), 2);
    assert_eq!(content.status_count(0), 0);
    let excs = content.get_span_event_exceptions();
    let alpha = otel_util::content::lookup_entry(&excs, "alpha").expect("alpha recorded");
    assert_eq!(alpha, &vec!["failed in alpha".to_string()]);
    assert_eq!(content.trace[0].get_service_name(), "svc");
}

#[test]
fn round_trip_preserves_escaped_text() {
    let rec = TraceRecord {
        resource_spans: vec![ResourceSpan {
            attributes: Vec::new(),
            scope_spans: vec![ScopeSpan {
                spans: vec![Span {
                    name: "quote\" slash\\ nl\n tab\t cr\r bs\u{8} ff\u{c}".to_string(),
                    status_code: 1,
                    events: Vec::new(),
                }],
            }],
        }],
    };
    let line = encode_record(&rec).expect("record is encodable");
    let back = otel_util::reader::parse_record_line(&line).expect("must parse");
    assert_eq!(
        back.resource_spans[0].scope_spans[0].spans[0].name,
        "quote\" slash\\ nl\n tab\t cr\r bs\u{8} ff\u{c}"
    );
}

#[test]
fn unrepresentable_control_character_is_rejected() {
    let rec = TraceRecord {
        resource_spans: vec![ResourceSpan {
            attributes: Vec::new(),
            scope_spans: vec![ScopeSpan {
                spans: vec![Span {
                    name: "bad\u{1}name".to_string(),
                    status_code: 0,
                    events: Vec::new(),
                }],
            }],
        }],
    };
    assert!(encode_record(&rec).is_err());
}

#[test]
fn written_line_is_compact_json() {
    let rec = TraceRecord { resource_spans: Vec::new() };
    let line = encode_record(&rec).expect("record is encodable");
    assert_eq!(line, r#"{"resourceSpans":[]}"#);
}

#[test]
fn empty_content_has_empty_projections() {
    let content = TraceContent::new(Vec::new());
    assert_eq!(content.span_count(), 0);
    assert_eq!(content.status_count(2), 0);
    assert!(content.get_span_names().is_empty());
    assert!(content.get_span_event_names().is_empty());
}
