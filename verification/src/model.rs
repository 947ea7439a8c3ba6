//! The in-memory trace model: the value a decoded export line denotes.
//!
//! A `TraceRecord` is one decoded line of the collector's export file.  It
//! holds resource spans, each of which pairs resource attributes (service
//! identity) with scope spans; a scope span groups spans, and a span carries a
//! name, a status code and events.  All values here are built once by the
//! reader and never mutated.
//!
//! Each executable type has a ghost counterpart (`...Model`) over `Seq` and
//! plain values; contracts throughout the crate speak of those models.

use vstd::prelude::*;

verus! {

/// Status code meaning "error" in the export format (0 = unset, 1 = ok).
pub const STATUS_ERROR: u32 = 2;

/// One key/value attribute with a string value, as it appears on resources
/// and on span events.
#[derive(Debug)]
pub struct Attribute {
    pub key: String,
    pub value: String,
}

/// A timestamped annotation attached to a span, e.g. an exception occurrence.
#[derive(Debug)]
pub struct Event {
    pub name: String,
    pub attributes: Vec<Attribute>,
}

/// A single named unit of traced work.
#[derive(Debug)]
pub struct Span {
    pub name: String,
    pub status_code: u32,
    pub events: Vec<Event>,
}

/// Spans sharing one instrumentation scope.
#[derive(Debug)]
pub struct ScopeSpan {
    pub spans: Vec<Span>,
}

/// Spans sharing one resource (service identity).
#[derive(Debug)]
pub struct ResourceSpan {
    pub attributes: Vec<Attribute>,
    pub scope_spans: Vec<ScopeSpan>,
}

/// One decoded export line.
#[derive(Debug)]
pub struct TraceRecord {
    pub resource_spans: Vec<ResourceSpan>,
}

#[verifier::ext_equal]
pub ghost struct AttributeModel {
    pub key: Seq<char>,
    pub value: Seq<char>,
}

#[verifier::ext_equal]
pub ghost struct EventModel {
    pub name: Seq<char>,
    pub attributes: Seq<AttributeModel>,
}

#[verifier::ext_equal]
pub ghost struct SpanModel {
    pub name: Seq<char>,
    pub status_code: u32,
    pub events: Seq<EventModel>,
}

#[verifier::ext_equal]
pub ghost struct ScopeSpanModel {
    pub spans: Seq<SpanModel>,
}

#[verifier::ext_equal]
pub ghost struct ResourceSpanModel {
    pub attributes: Seq<AttributeModel>,
    pub scope_spans: Seq<ScopeSpanModel>,
}

#[verifier::ext_equal]
pub ghost struct TraceRecordModel {
    pub resource_spans: Seq<ResourceSpanModel>,
}

impl View for Attribute {
    type V = AttributeModel;

    open spec fn view(&self) -> AttributeModel {
        AttributeModel { key: self.key@, value: self.value@ }
    }
}

impl View for Event {
    type V = EventModel;

    open spec fn view(&self) -> EventModel {
        EventModel {
            name: self.name@,
            attributes: self.attributes@.map_values(|a: Attribute| a@),
        }
    }
}

impl View for Span {
    type V = SpanModel;

    open spec fn view(&self) -> SpanModel {
        SpanModel {
            name: self.name@,
            status_code: self.status_code,
            events: self.events@.map_values(|e: Event| e@),
        }
    }
}

impl View for ScopeSpan {
    type V = ScopeSpanModel;

    open spec fn view(&self) -> ScopeSpanModel {
        ScopeSpanModel { spans: self.spans@.map_values(|s: Span| s@) }
    }
}

impl View for ResourceSpan {
    type V = ResourceSpanModel;

    open spec fn view(&self) -> ResourceSpanModel {
        ResourceSpanModel {
            attributes: self.attributes@.map_values(|a: Attribute| a@),
            scope_spans: self.scope_spans@.map_values(|s: ScopeSpan| s@),
        }
    }
}

impl View for TraceRecord {
    type V = TraceRecordModel;

    open spec fn view(&self) -> TraceRecordModel {
        TraceRecordModel {
            resource_spans: self.resource_spans@.map_values(|r: ResourceSpan| r@),
        }
    }
}

} // verus!
