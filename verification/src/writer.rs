//! The export writer: renders a `TraceRecord` as one compact export line in
//! exactly the shape the grammar accepts.
//!
//! The writer exists so that the reader can be exercised against known
//! content: everything it emits decodes back to the value it was given
//! (proved in the round-trip lemmas alongside).
//!
//! Strings whose characters can be represented — everything but the control
//! characters without a named escape — are escaped as needed; a record
//! holding any other character is rejected.

use vstd::prelude::*;

use crate::model::{
    Attribute, AttributeModel, Event, EventModel, ResourceSpan, ResourceSpanModel, ScopeSpan,
    ScopeSpanModel, Span, SpanModel, TraceRecord, TraceRecordModel,
};
use crate::strutil::chars_to_string;
use vstd::string::StrSliceExecFns;

verus! {

/// A character the writer can represent: printable, or one of the named
/// escapes.
pub open spec fn char_encodable(c: char) -> bool {
    (c as u32) >= 0x20 || c == '\n' || c == '\t' || c == '\r' || c == '\u{8}' || c == '\u{c}'
}

pub open spec fn text_encodable(t: Seq<char>) -> bool {
    forall|i: int| 0 <= i < t.len() ==> char_encodable(#[trigger] t[i])
}

/// How one character is written inside a string token.
pub open spec fn esc_char(c: char) -> Seq<char> {
    if c == '"' {
        seq!['\\', '"']
    } else if c == '\\' {
        seq!['\\', '\\']
    } else if c == '\n' {
        seq!['\\', 'n']
    } else if c == '\t' {
        seq!['\\', 't']
    } else if c == '\r' {
        seq!['\\', 'r']
    } else if c == '\u{8}' {
        seq!['\\', 'b']
    } else if c == '\u{c}' {
        seq!['\\', 'f']
    } else {
        seq![c]
    }
}

pub open spec fn enc_text_body(t: Seq<char>) -> Seq<char> {
    t.map_values(|c: char| esc_char(c)).flatten()
}

/// A string token: quoted, characters escaped.
pub open spec fn enc_text(t: Seq<char>) -> Seq<char> {
    seq!['"'] + enc_text_body(t) + seq!['"']
}

pub open spec fn digit_char(d: int) -> char {
    if d == 0 {
        '0'
    } else if d == 1 {
        '1'
    } else if d == 2 {
        '2'
    } else if d == 3 {
        '3'
    } else if d == 4 {
        '4'
    } else if d == 5 {
        '5'
    } else if d == 6 {
        '6'
    } else if d == 7 {
        '7'
    } else if d == 8 {
        '8'
    } else {
        '9'
    }
}

/// A number token: decimal digits, most significant first.
pub open spec fn enc_u32(v: int) -> Seq<char>
    decreases v,
{
    if v < 10 {
        seq![digit_char(v)]
    } else {
        enc_u32(v / 10) + seq![digit_char(v % 10)]
    }
}

pub open spec fn enc_attribute(a: AttributeModel) -> Seq<char> {
    seq!['{'] + enc_text("key"@) + seq![':'] + enc_text(a.key) + seq![','] + enc_text("value"@)
        + seq![':'] + seq!['{'] + enc_text("stringValue"@) + seq![':'] + enc_text(a.value) + seq![
        '}',
    ] + seq!['}']
}

pub open spec fn enc_attr_items(attrs: Seq<AttributeModel>) -> Seq<char>
    decreases attrs.len(),
{
    if attrs.len() == 0 {
        Seq::empty()
    } else if attrs.len() == 1 {
        enc_attribute(attrs[0])
    } else {
        enc_attribute(attrs[0]) + seq![','] + enc_attr_items(attrs.drop_first())
    }
}

pub open spec fn enc_attr_list(attrs: Seq<AttributeModel>) -> Seq<char> {
    seq!['['] + enc_attr_items(attrs) + seq![']']
}

pub open spec fn enc_event(e: EventModel) -> Seq<char> {
    seq!['{'] + enc_text("name"@) + seq![':'] + enc_text(e.name) + seq![','] + enc_text(
        "attributes"@,
    ) + seq![':'] + enc_attr_list(e.attributes) + seq!['}']
}

pub open spec fn enc_event_items(events: Seq<EventModel>) -> Seq<char>
    decreases events.len(),
{
    if events.len() == 0 {
        Seq::empty()
    } else if events.len() == 1 {
        enc_event(events[0])
    } else {
        enc_event(events[0]) + seq![','] + enc_event_items(events.drop_first())
    }
}

pub open spec fn enc_event_list(events: Seq<EventModel>) -> Seq<char> {
    seq!['['] + enc_event_items(events) + seq![']']
}

pub open spec fn enc_span(sp: SpanModel) -> Seq<char> {
    seq!['{'] + enc_text("name"@) + seq![':'] + enc_text(sp.name) + seq![','] + enc_text("status"@)
        + seq![':'] + seq!['{'] + enc_text("code"@) + seq![':'] + enc_u32(sp.status_code as int)
        + seq!['}'] + seq![','] + enc_text("events"@) + seq![':'] + enc_event_list(sp.events)
        + seq!['}']
}

pub open spec fn enc_span_items(spans: Seq<SpanModel>) -> Seq<char>
    decreases spans.len(),
{
    if spans.len() == 0 {
        Seq::empty()
    } else if spans.len() == 1 {
        enc_span(spans[0])
    } else {
        enc_span(spans[0]) + seq![','] + enc_span_items(spans.drop_first())
    }
}

pub open spec fn enc_span_list(spans: Seq<SpanModel>) -> Seq<char> {
    seq!['['] + enc_span_items(spans) + seq![']']
}

pub open spec fn enc_scope_span(sc: ScopeSpanModel) -> Seq<char> {
    seq!['{'] + enc_text("spans"@) + seq![':'] + enc_span_list(sc.spans) + seq!['}']
}

pub open spec fn enc_scope_items(scopes: Seq<ScopeSpanModel>) -> Seq<char>
    decreases scopes.len(),
{
    if scopes.len() == 0 {
        Seq::empty()
    } else if scopes.len() == 1 {
        enc_scope_span(scopes[0])
    } else {
        enc_scope_span(scopes[0]) + seq![','] + enc_scope_items(scopes.drop_first())
    }
}

pub open spec fn enc_scope_list(scopes: Seq<ScopeSpanModel>) -> Seq<char> {
    seq!['['] + enc_scope_items(scopes) + seq![']']
}

pub open spec fn enc_resource_span(rs: ResourceSpanModel) -> Seq<char> {
    seq!['{'] + enc_text("resource"@) + seq![':'] + seq!['{'] + enc_text("attributes"@) + seq![':']
        + enc_attr_list(rs.attributes) + seq!['}'] + seq![','] + enc_text("scopeSpans"@) + seq![
        ':',
    ] + enc_scope_list(rs.scope_spans) + seq!['}']
}

pub open spec fn enc_resource_items(trace: Seq<ResourceSpanModel>) -> Seq<char>
    decreases trace.len(),
{
    if trace.len() == 0 {
        Seq::empty()
    } else if trace.len() == 1 {
        enc_resource_span(trace[0])
    } else {
        enc_resource_span(trace[0]) + seq![','] + enc_resource_items(trace.drop_first())
    }
}

pub open spec fn enc_resource_list(trace: Seq<ResourceSpanModel>) -> Seq<char> {
    seq!['['] + enc_resource_items(trace) + seq![']']
}

/// One whole export line for a record.
pub open spec fn enc_record(m: TraceRecordModel) -> Seq<char> {
    seq!['{'] + enc_text("resourceSpans"@) + seq![':'] + enc_resource_list(m.resource_spans)
        + seq!['}']
}

// Which values the writer accepts: every string representable.
pub open spec fn attribute_encodable(a: AttributeModel) -> bool {
    text_encodable(a.key) && text_encodable(a.value)
}

pub open spec fn attrs_encodable(attrs: Seq<AttributeModel>) -> bool {
    forall|i: int| 0 <= i < attrs.len() ==> attribute_encodable(#[trigger] attrs[i])
}

pub open spec fn event_encodable(e: EventModel) -> bool {
    text_encodable(e.name) && attrs_encodable(e.attributes)
}

pub open spec fn events_encodable(events: Seq<EventModel>) -> bool {
    forall|i: int| 0 <= i < events.len() ==> event_encodable(#[trigger] events[i])
}

pub open spec fn span_encodable(sp: SpanModel) -> bool {
    text_encodable(sp.name) && events_encodable(sp.events)
}

pub open spec fn spans_encodable(spans: Seq<SpanModel>) -> bool {
    forall|i: int| 0 <= i < spans.len() ==> span_encodable(#[trigger] spans[i])
}

pub open spec fn scope_encodable(sc: ScopeSpanModel) -> bool {
    spans_encodable(sc.spans)
}

pub open spec fn scopes_encodable(scopes: Seq<ScopeSpanModel>) -> bool {
    forall|i: int| 0 <= i < scopes.len() ==> scope_encodable(#[trigger] scopes[i])
}

pub open spec fn resource_span_encodable(rs: ResourceSpanModel) -> bool {
    attrs_encodable(rs.attributes) && scopes_encodable(rs.scope_spans)
}

pub open spec fn trace_encodable(trace: Seq<ResourceSpanModel>) -> bool {
    forall|i: int| 0 <= i < trace.len() ==> resource_span_encodable(#[trigger] trace[i])
}

pub open spec fn record_encodable(m: TraceRecordModel) -> bool {
    trace_encodable(m.resource_spans)
}

} // verus!

verus! {

/// The writer was given a string it cannot represent (a control character
/// with no named escape).
#[derive(Debug)]
pub struct EncodeError {}

pub open spec fn attr_views(v: Seq<Attribute>) -> Seq<AttributeModel> {
    v.map_values(|a: Attribute| a@)
}

pub open spec fn event_views(v: Seq<Event>) -> Seq<EventModel> {
    v.map_values(|e: Event| e@)
}

pub open spec fn span_views(v: Seq<Span>) -> Seq<SpanModel> {
    v.map_values(|s: Span| s@)
}

pub open spec fn scope_views(v: Seq<ScopeSpan>) -> Seq<ScopeSpanModel> {
    v.map_values(|s: ScopeSpan| s@)
}

pub open spec fn rs_views(v: Seq<ResourceSpan>) -> Seq<ResourceSpanModel> {
    v.map_values(|s: ResourceSpan| s@)
}

/// Append a string token, escaping as needed.
fn encode_text_into(out: &mut Vec<char>, t: &str) -> (ok: bool)
    ensures
        ok ==> final(out)@ == old(out)@ + enc_text(t@) && text_encodable(t@),
        !ok ==> !text_encodable(t@),
{
    broadcast use vstd::seq::Seq::lemma_flatten_push;

    let ghost entry = out@;
    out.push('"');
    let n = t.unicode_len();
    let mut k: usize = 0;
    proof {
        assert(t@.take(0).map_values(|c: char| esc_char(c)) =~= Seq::<Seq<char>>::empty());
        assert(Seq::<Seq<char>>::empty().flatten() =~= Seq::<char>::empty());
        assert(out@ =~= entry + seq!['"'] + enc_text_body(t@.take(0)));
    }
    while k < n
        invariant
            k <= n,
            n == t@.len(),
            entry == old(out)@,
            out@ == entry + seq!['"'] + enc_text_body(t@.take(k as int)),
            forall|p: int| 0 <= p < k ==> char_encodable(#[trigger] t@[p]),
        decreases n - k,
    {
        broadcast use vstd::seq::Seq::lemma_flatten_push;

        let c = t.get_char(k);
        let ghost before = out@;
        if c == '"' {
            out.push('\\');
            out.push('"');
        } else if c == '\\' {
            out.push('\\');
            out.push('\\');
        } else if c == '\n' {
            out.push('\\');
            out.push('n');
        } else if c == '\t' {
            out.push('\\');
            out.push('t');
        } else if c == '\r' {
            out.push('\\');
            out.push('r');
        } else if c == '\u{8}' {
            out.push('\\');
            out.push('b');
        } else if c == '\u{c}' {
            out.push('\\');
            out.push('f');
        } else if (c as u32) >= 0x20 {
            out.push(c);
        } else {
            proof {
                assert(!char_encodable(t@[k as int]));
            }
            return false;
        }
        proof {
            assert(out@ =~= before + esc_char(t@[k as int]));
            assert(t@.take(k as int + 1).map_values(|ch: char| esc_char(ch)) =~= t@.take(
                k as int,
            ).map_values(|ch: char| esc_char(ch)).push(esc_char(t@[k as int])));
            assert(enc_text_body(t@.take(k as int + 1)) =~= enc_text_body(t@.take(k as int))
                + esc_char(t@[k as int]));
            assert(out@ =~= entry + seq!['"'] + enc_text_body(t@.take(k as int + 1)));
        }
        k = k + 1;
    }
    out.push('"');
    proof {
        assert(t@.take(n as int) =~= t@);
        assert(out@ =~= entry + enc_text(t@));
    }
    true
}

fn digit_char_exec(d: u32) -> (r: char)
    requires
        d < 10,
    ensures
        r == digit_char(d as int),
{
    if d == 0 {
        '0'
    } else if d == 1 {
        '1'
    } else if d == 2 {
        '2'
    } else if d == 3 {
        '3'
    } else if d == 4 {
        '4'
    } else if d == 5 {
        '5'
    } else if d == 6 {
        '6'
    } else if d == 7 {
        '7'
    } else if d == 8 {
        '8'
    } else {
        '9'
    }
}

/// Append a number token.
fn encode_u32_into(out: &mut Vec<char>, v: u32)
    ensures
        final(out)@ == old(out)@ + enc_u32(v as int),
    decreases v,
{
    if v < 10 {
        out.push(digit_char_exec(v));
        proof {
            assert(final(out)@ =~= old(out)@ + enc_u32(v as int));
        }
    } else {
        encode_u32_into(out, v / 10);
        out.push(digit_char_exec(v % 10));
        proof {
            assert(final(out)@ =~= old(out)@ + enc_u32(v as int));
        }
    }
}

/// Append one character.
fn push_char(out: &mut Vec<char>, c: char)
    ensures
        final(out)@ == old(out)@ + seq![c],
{
    out.push(c);
    proof {
        assert(final(out)@ =~= old(out)@ + seq![c]);
    }
}

/// Append a string token that is statically known to be representable.
fn encode_key_into(out: &mut Vec<char>, lit: &str)
    requires
        text_encodable(lit@),
    ensures
        final(out)@ == old(out)@ + enc_text(lit@),
{
    let ok = encode_text_into(out, lit);
    if !ok {
        proof {
            assert(false);
        }
    }
}

/// Append one attribute object.
fn encode_attribute_into(out: &mut Vec<char>, a: &Attribute) -> (ok: bool)
    ensures
        ok ==> final(out)@ == old(out)@ + enc_attribute(a@) && attribute_encodable(a@),
        !ok ==> !attribute_encodable(a@),
{
    let ghost entry = out@;
    proof {
        reveal_strlit("key");
        reveal_strlit("value");
        reveal_strlit("stringValue");
        assert(text_encodable("key"@));
        assert(text_encodable("value"@));
        assert(text_encodable("stringValue"@));
    }
    push_char(out, '{');
    encode_key_into(out, "key");
    push_char(out, ':');
    if !encode_text_into(out, a.key.as_str()) {
        return false;
    }
    push_char(out, ',');
    encode_key_into(out, "value");
    push_char(out, ':');
    push_char(out, '{');
    encode_key_into(out, "stringValue");
    push_char(out, ':');
    if !encode_text_into(out, a.value.as_str()) {
        return false;
    }
    push_char(out, '}');
    push_char(out, '}');
    proof {
        assert(out@ =~= entry + enc_attribute(a@));
    }
    true
}

/// Append the elements of an attribute array, from index `i` on.
fn encode_attr_items_into(out: &mut Vec<char>, attrs: &Vec<Attribute>, i: usize) -> (ok: bool)
    requires
        i < attrs@.len(),
    ensures
        ok ==> final(out)@ == old(out)@ + enc_attr_items(attr_views(attrs@).skip(i as int))
            && attrs_encodable(attr_views(attrs@).skip(i as int)),
        !ok ==> !attrs_encodable(attr_views(attrs@).skip(i as int)),
    decreases attrs@.len() - i,
{
    let ghost av = attr_views(attrs@).skip(i as int);
    proof {
        assert(av[0] == attrs@[i as int]@);
        if i + 1 < attrs@.len() {
            assert(av.drop_first() =~= attr_views(attrs@).skip(i as int + 1));
        }
    }
    let ghost entry = out@;
    if !encode_attribute_into(out, &attrs[i]) {
        return false;
    }
    if i < attrs.len() - 1 {
        push_char(out, ',');
        if !encode_attr_items_into(out, attrs, i + 1) {
            proof {
                assert(!attrs_encodable(av)) by {
                    assert(!attrs_encodable(av.drop_first()));
                    let p = choose|p: int|
                        0 <= p < av.drop_first().len() && !attribute_encodable(
                            #[trigger] av.drop_first()[p],
                        );
                    assert(av[p + 1] == av.drop_first()[p]);
                };
            }
            return false;
        }
        proof {
            assert(out@ =~= entry + enc_attr_items(av));
            assert forall|p: int| 0 <= p < av.len() implies attribute_encodable(
                #[trigger] av[p],
            ) by {
                if p > 0 {
                    assert(av[p] == av.drop_first()[p - 1]);
                }
            }
        }
    } else {
        proof {
            assert(av.len() == 1);
            assert(out@ =~= entry + enc_attr_items(av));
            assert forall|p: int| 0 <= p < av.len() implies attribute_encodable(
                #[trigger] av[p],
            ) by {
                assert(p == 0);
            }
        }
    }
    true
}

/// Append an attribute array.
fn encode_attr_list_into(out: &mut Vec<char>, attrs: &Vec<Attribute>) -> (ok: bool)
    ensures
        ok ==> final(out)@ == old(out)@ + enc_attr_list(attr_views(attrs@)) && attrs_encodable(
            attr_views(attrs@),
        ),
        !ok ==> !attrs_encodable(attr_views(attrs@)),
{
    let ghost entry = out@;
    push_char(out, '[');
    if attrs.len() > 0 {
        proof {
            assert(attr_views(attrs@).skip(0) =~= attr_views(attrs@));
        }
        if !encode_attr_items_into(out, attrs, 0) {
            return false;
        }
    } else {
        proof {
            assert(attr_views(attrs@) =~= Seq::<AttributeModel>::empty());
        }
    }
    push_char(out, ']');
    proof {
        assert(out@ =~= entry + enc_attr_list(attr_views(attrs@)));
    }
    true
}

} // verus!

verus! {

/// Append one event object.
fn encode_event_into(out: &mut Vec<char>, e: &Event) -> (ok: bool)
    ensures
        ok ==> final(out)@ == old(out)@ + enc_event(e@) && event_encodable(e@),
        !ok ==> !event_encodable(e@),
{
    let ghost entry = out@;
    proof {
        reveal_strlit("name");
        reveal_strlit("attributes");
        assert(text_encodable("name"@));
        assert(text_encodable("attributes"@));
    }
    push_char(out, '{');
    encode_key_into(out, "name");
    push_char(out, ':');
    if !encode_text_into(out, e.name.as_str()) {
        return false;
    }
    push_char(out, ',');
    encode_key_into(out, "attributes");
    push_char(out, ':');
    if !encode_attr_list_into(out, &e.attributes) {
        return false;
    }
    push_char(out, '}');
    proof {
        assert(out@ =~= entry + enc_event(e@));
    }
    true
}

/// Append the elements of an event array, from index `i` on.
fn encode_event_items_into(out: &mut Vec<char>, events: &Vec<Event>, i: usize) -> (ok: bool)
    requires
        i < events@.len(),
    ensures
        ok ==> final(out)@ == old(out)@ + enc_event_items(event_views(events@).skip(i as int))
            && events_encodable(event_views(events@).skip(i as int)),
        !ok ==> !events_encodable(event_views(events@).skip(i as int)),
    decreases events@.len() - i,
{
    let ghost av = event_views(events@).skip(i as int);
    proof {
        assert(av[0] == events@[i as int]@);
        if i + 1 < events@.len() {
            assert(av.drop_first() =~= event_views(events@).skip(i as int + 1));
        }
    }
    let ghost entry = out@;
    if !encode_event_into(out, &events[i]) {
        return false;
    }
    if i < events.len() - 1 {
        push_char(out, ',');
        if !encode_event_items_into(out, events, i + 1) {
            proof {
                assert(!events_encodable(av)) by {
                    assert(!events_encodable(av.drop_first()));
                    let p = choose|p: int|
                        0 <= p < av.drop_first().len() && !event_encodable(
                            #[trigger] av.drop_first()[p],
                        );
                    assert(av[p + 1] == av.drop_first()[p]);
                };
            }
            return false;
        }
        proof {
            assert(out@ =~= entry + enc_event_items(av));
            assert forall|p: int| 0 <= p < av.len() implies event_encodable(#[trigger] av[p]) by {
                if p > 0 {
                    assert(av[p] == av.drop_first()[p - 1]);
                }
            }
        }
    } else {
        proof {
            assert(av.len() == 1);
            assert(out@ =~= entry + enc_event_items(av));
            assert forall|p: int| 0 <= p < av.len() implies event_encodable(#[trigger] av[p]) by {
                assert(p == 0);
            }
        }
    }
    true
}

/// Append an event array.
fn encode_event_list_into(out: &mut Vec<char>, events: &Vec<Event>) -> (ok: bool)
    ensures
        ok ==> final(out)@ == old(out)@ + enc_event_list(event_views(events@)) && events_encodable(
            event_views(events@),
        ),
        !ok ==> !events_encodable(event_views(events@)),
{
    let ghost entry = out@;
    push_char(out, '[');
    if events.len() > 0 {
        proof {
            assert(event_views(events@).skip(0) =~= event_views(events@));
        }
        if !encode_event_items_into(out, events, 0) {
            return false;
        }
    } else {
        proof {
            assert(event_views(events@) =~= Seq::<EventModel>::empty());
        }
    }
    push_char(out, ']');
    proof {
        assert(out@ =~= entry + enc_event_list(event_views(events@)));
    }
    true
}

/// Append one span object.
fn encode_span_into(out: &mut Vec<char>, sp: &Span) -> (ok: bool)
    ensures
        ok ==> final(out)@ == old(out)@ + enc_span(sp@) && span_encodable(sp@),
        !ok ==> !span_encodable(sp@),
{
    let ghost entry = out@;
    proof {
        reveal_strlit("name");
        reveal_strlit("status");
        reveal_strlit("code");
        reveal_strlit("events");
        assert(text_encodable("name"@));
        assert(text_encodable("status"@));
        assert(text_encodable("code"@));
        assert(text_encodable("events"@));
    }
    push_char(out, '{');
    encode_key_into(out, "name");
    push_char(out, ':');
    if !encode_text_into(out, sp.name.as_str()) {
        return false;
    }
    push_char(out, ',');
    encode_key_into(out, "status");
    push_char(out, ':');
    push_char(out, '{');
    encode_key_into(out, "code");
    push_char(out, ':');
    encode_u32_into(out, sp.status_code);
    push_char(out, '}');
    push_char(out, ',');
    encode_key_into(out, "events");
    push_char(out, ':');
    if !encode_event_list_into(out, &sp.events) {
        return false;
    }
    push_char(out, '}');
    proof {
        assert(out@ =~= entry + enc_span(sp@));
    }
    true
}

/// Append the elements of a span array, from index `i` on.
fn encode_span_items_into(out: &mut Vec<char>, spans: &Vec<Span>, i: usize) -> (ok: bool)
    requires
        i < spans@.len(),
    ensures
        ok ==> final(out)@ == old(out)@ + enc_span_items(span_views(spans@).skip(i as int))
            && spans_encodable(span_views(spans@).skip(i as int)),
        !ok ==> !spans_encodable(span_views(spans@).skip(i as int)),
    decreases spans@.len() - i,
{
    let ghost av = span_views(spans@).skip(i as int);
    proof {
        assert(av[0] == spans@[i as int]@);
        if i + 1 < spans@.len() {
            assert(av.drop_first() =~= span_views(spans@).skip(i as int + 1));
        }
    }
    let ghost entry = out@;
    if !encode_span_into(out, &spans[i]) {
        return false;
    }
    if i < spans.len() - 1 {
        push_char(out, ',');
        if !encode_span_items_into(out, spans, i + 1) {
            proof {
                assert(!spans_encodable(av)) by {
                    assert(!spans_encodable(av.drop_first()));
                    let p = choose|p: int|
                        0 <= p < av.drop_first().len() && !span_encodable(
                            #[trigger] av.drop_first()[p],
                        );
                    assert(av[p + 1] == av.drop_first()[p]);
                };
            }
            return false;
        }
        proof {
            assert(out@ =~= entry + enc_span_items(av));
            assert forall|p: int| 0 <= p < av.len() implies span_encodable(#[trigger] av[p]) by {
                if p > 0 {
                    assert(av[p] == av.drop_first()[p - 1]);
                }
            }
        }
    } else {
        proof {
            assert(av.len() == 1);
            assert(out@ =~= entry + enc_span_items(av));
            assert forall|p: int| 0 <= p < av.len() implies span_encodable(#[trigger] av[p]) by {
                assert(p == 0);
            }
        }
    }
    true
}

/// Append a span array.
fn encode_span_list_into(out: &mut Vec<char>, spans: &Vec<Span>) -> (ok: bool)
    ensures
        ok ==> final(out)@ == old(out)@ + enc_span_list(span_views(spans@)) && spans_encodable(
            span_views(spans@),
        ),
        !ok ==> !spans_encodable(span_views(spans@)),
{
    let ghost entry = out@;
    push_char(out, '[');
    if spans.len() > 0 {
        proof {
            assert(span_views(spans@).skip(0) =~= span_views(spans@));
        }
        if !encode_span_items_into(out, spans, 0) {
            return false;
        }
    } else {
        proof {
            assert(span_views(spans@) =~= Seq::<SpanModel>::empty());
        }
    }
    push_char(out, ']');
    proof {
        assert(out@ =~= entry + enc_span_list(span_views(spans@)));
    }
    true
}

/// Append one scope span object.
fn encode_scope_span_into(out: &mut Vec<char>, sc: &ScopeSpan) -> (ok: bool)
    ensures
        ok ==> final(out)@ == old(out)@ + enc_scope_span(sc@) && scope_encodable(sc@),
        !ok ==> !scope_encodable(sc@),
{
    let ghost entry = out@;
    proof {
        reveal_strlit("spans");
        assert(text_encodable("spans"@));
    }
    push_char(out, '{');
    encode_key_into(out, "spans");
    push_char(out, ':');
    if !encode_span_list_into(out, &sc.spans) {
        return false;
    }
    push_char(out, '}');
    proof {
        assert(out@ =~= entry + enc_scope_span(sc@));
    }
    true
}

/// Append the elements of a scope span array, from index `i` on.
fn encode_scope_items_into(out: &mut Vec<char>, scopes: &Vec<ScopeSpan>, i: usize) -> (ok: bool)
    requires
        i < scopes@.len(),
    ensures
        ok ==> final(out)@ == old(out)@ + enc_scope_items(scope_views(scopes@).skip(i as int))
            && scopes_encodable(scope_views(scopes@).skip(i as int)),
        !ok ==> !scopes_encodable(scope_views(scopes@).skip(i as int)),
    decreases scopes@.len() - i,
{
    let ghost av = scope_views(scopes@).skip(i as int);
    proof {
        assert(av[0] == scopes@[i as int]@);
        if i + 1 < scopes@.len() {
            assert(av.drop_first() =~= scope_views(scopes@).skip(i as int + 1));
        }
    }
    let ghost entry = out@;
    if !encode_scope_span_into(out, &scopes[i]) {
        return false;
    }
    if i < scopes.len() - 1 {
        push_char(out, ',');
        if !encode_scope_items_into(out, scopes, i + 1) {
            proof {
                assert(!scopes_encodable(av)) by {
                    assert(!scopes_encodable(av.drop_first()));
                    let p = choose|p: int|
                        0 <= p < av.drop_first().len() && !scope_encodable(
                            #[trigger] av.drop_first()[p],
                        );
                    assert(av[p + 1] == av.drop_first()[p]);
                };
            }
            return false;
        }
        proof {
            assert(out@ =~= entry + enc_scope_items(av));
            assert forall|p: int| 0 <= p < av.len() implies scope_encodable(#[trigger] av[p]) by {
                if p > 0 {
                    assert(av[p] == av.drop_first()[p - 1]);
                }
            }
        }
    } else {
        proof {
            assert(av.len() == 1);
            assert(out@ =~= entry + enc_scope_items(av));
            assert forall|p: int| 0 <= p < av.len() implies scope_encodable(#[trigger] av[p]) by {
                assert(p == 0);
            }
        }
    }
    true
}

/// Append a scope span array.
fn encode_scope_list_into(out: &mut Vec<char>, scopes: &Vec<ScopeSpan>) -> (ok: bool)
    ensures
        ok ==> final(out)@ == old(out)@ + enc_scope_list(scope_views(scopes@))
            && scopes_encodable(scope_views(scopes@)),
        !ok ==> !scopes_encodable(scope_views(scopes@)),
{
    let ghost entry = out@;
    push_char(out, '[');
    if scopes.len() > 0 {
        proof {
            assert(scope_views(scopes@).skip(0) =~= scope_views(scopes@));
        }
        if !encode_scope_items_into(out, scopes, 0) {
            return false;
        }
    } else {
        proof {
            assert(scope_views(scopes@) =~= Seq::<ScopeSpanModel>::empty());
        }
    }
    push_char(out, ']');
    proof {
        assert(out@ =~= entry + enc_scope_list(scope_views(scopes@)));
    }
    true
}

/// Append one resource span object.
fn encode_resource_span_into(out: &mut Vec<char>, rs: &ResourceSpan) -> (ok: bool)
    ensures
        ok ==> final(out)@ == old(out)@ + enc_resource_span(rs@) && resource_span_encodable(rs@),
        !ok ==> !resource_span_encodable(rs@),
{
    let ghost entry = out@;
    proof {
        reveal_strlit("resource");
        reveal_strlit("attributes");
        reveal_strlit("scopeSpans");
        assert(text_encodable("resource"@));
        assert(text_encodable("attributes"@));
        assert(text_encodable("scopeSpans"@));
    }
    push_char(out, '{');
    encode_key_into(out, "resource");
    push_char(out, ':');
    push_char(out, '{');
    encode_key_into(out, "attributes");
    push_char(out, ':');
    if !encode_attr_list_into(out, &rs.attributes) {
        return false;
    }
    push_char(out, '}');
    push_char(out, ',');
    encode_key_into(out, "scopeSpans");
    push_char(out, ':');
    if !encode_scope_list_into(out, &rs.scope_spans) {
        return false;
    }
    push_char(out, '}');
    proof {
        assert(out@ =~= entry + enc_resource_span(rs@));
    }
    true
}

/// Append the elements of a resource span array, from index `i` on.
fn encode_resource_items_into(out: &mut Vec<char>, trace: &Vec<ResourceSpan>, i: usize) -> (ok:
    bool)
    requires
        i < trace@.len(),
    ensures
        ok ==> final(out)@ == old(out)@ + enc_resource_items(rs_views(trace@).skip(i as int))
            && trace_encodable(rs_views(trace@).skip(i as int)),
        !ok ==> !trace_encodable(rs_views(trace@).skip(i as int)),
    decreases trace@.len() - i,
{
    let ghost av = rs_views(trace@).skip(i as int);
    proof {
        assert(av[0] == trace@[i as int]@);
        if i + 1 < trace@.len() {
            assert(av.drop_first() =~= rs_views(trace@).skip(i as int + 1));
        }
    }
    let ghost entry = out@;
    if !encode_resource_span_into(out, &trace[i]) {
        return false;
    }
    if i < trace.len() - 1 {
        push_char(out, ',');
        if !encode_resource_items_into(out, trace, i + 1) {
            proof {
                assert(!trace_encodable(av)) by {
                    assert(!trace_encodable(av.drop_first()));
                    let p = choose|p: int|
                        0 <= p < av.drop_first().len() && !resource_span_encodable(
                            #[trigger] av.drop_first()[p],
                        );
                    assert(av[p + 1] == av.drop_first()[p]);
                };
            }
            return false;
        }
        proof {
            assert(out@ =~= entry + enc_resource_items(av));
            assert forall|p: int| 0 <= p < av.len() implies resource_span_encodable(
                #[trigger] av[p],
            ) by {
                if p > 0 {
                    assert(av[p] == av.drop_first()[p - 1]);
                }
            }
        }
    } else {
        proof {
            assert(av.len() == 1);
            assert(out@ =~= entry + enc_resource_items(av));
            assert forall|p: int| 0 <= p < av.len() implies resource_span_encodable(
                #[trigger] av[p],
            ) by {
                assert(p == 0);
            }
        }
    }
    true
}

/// Render one record as one export line.
pub fn encode_record(rec: &TraceRecord) -> (r: Result<String, EncodeError>)
    ensures
        r matches Ok(s) ==> s@ == enc_record(rec@) && record_encodable(rec@),
        r is Err ==> !record_encodable(rec@),
{
    let mut out: Vec<char> = Vec::new();
    let ghost entry = out@;
    proof {
        reveal_strlit("resourceSpans");
        assert(text_encodable("resourceSpans"@));
    }
    push_char(&mut out, '{');
    encode_key_into(&mut out, "resourceSpans");
    push_char(&mut out, ':');
    push_char(&mut out, '[');
    if rec.resource_spans.len() > 0 {
        proof {
            assert(rs_views(rec.resource_spans@).skip(0) =~= rs_views(rec.resource_spans@));
        }
        if !encode_resource_items_into(&mut out, &rec.resource_spans, 0) {
            return Err(EncodeError {});
        }
    } else {
        proof {
            assert(rs_views(rec.resource_spans@) =~= Seq::<ResourceSpanModel>::empty());
        }
    }
    push_char(&mut out, ']');
    push_char(&mut out, '}');
    proof {
        assert(out@ =~= entry + enc_record(rec@));
        assert(out@ =~= enc_record(rec@));
    }
    Ok(chars_to_string(&out))
}

} // verus!

verus! {

/// Render records as export lines, one line per record.
pub fn encode_records(records: &Vec<TraceRecord>) -> (r: Result<Vec<String>, EncodeError>)
    ensures
        r matches Ok(lines) ==> lines@.len() == records@.len() && (forall|i: int|
            0 <= i < lines@.len() ==> (#[trigger] lines@[i]@) == enc_record(records@[i]@)),
        r is Err ==> !crate::roundtrip::records_encodable(
            records@.map_values(|x: TraceRecord| x@),
        ),
{
    let mut lines: Vec<String> = Vec::new();
    let mut i: usize = 0;
    while i < records.len()
        invariant
            i <= records@.len(),
            lines@.len() == i,
            forall|q: int| 0 <= q < i ==> (#[trigger] lines@[q]@) == enc_record(records@[q]@),
        decreases records@.len() - i,
    {
        match encode_record(&records[i]) {
            Ok(s) => {
                lines.push(s);
            },
            Err(e) => {
                proof {
                    let rv = records@.map_values(|x: TraceRecord| x@);
                    assert(rv[i as int] == records@[i as int]@);
                    assert(!record_encodable(rv[i as int]));
                }
                return Err(e);
            },
        }
        i = i + 1;
    }
    Ok(lines)
}

} // verus!
