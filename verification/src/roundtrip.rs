//! The reader inverts the writer: parsing an encoded value yields that value
//! and consumes exactly its encoding.
//!
//! These lemmas build up from string and number tokens through every object
//! level to whole export lines, and culminate in the round-trip law: writing
//! records as lines and reading them back preserves the trace, and in
//! particular the scope-span count.

use vstd::prelude::*;

use crate::grammar;
use crate::model::{
    AttributeModel, EventModel, ResourceSpanModel, ScopeSpanModel, SpanModel, TraceRecordModel,
};
use crate::reader::{lemma_ten_pow_values, ten_pow};
use crate::writer::{
    attribute_encodable, attrs_encodable, char_encodable, enc_attr_items, enc_attr_list,
    enc_attribute, enc_event, enc_event_items, enc_event_list, enc_record, enc_resource_items,
    enc_resource_list, enc_resource_span, enc_scope_items, enc_scope_list, enc_scope_span,
    enc_span, enc_span_items, enc_span_list, enc_text, enc_text_body, enc_u32, esc_char,
    event_encodable, events_encodable, record_encodable, resource_span_encodable, scope_encodable,
    scopes_encodable, span_encodable, spans_encodable, text_encodable, trace_encodable, digit_char,
};

verus! {

/// Parsing a string token consumes exactly its encoding.
proof fn lemma_rt_text_body(t: Seq<char>, rest: Seq<char>)
    requires
        text_encodable(t),
    ensures
        grammar::text_body(enc_text_body(t) + seq!['"'] + rest) == Some((t, rest)),
    decreases t.len(),
{
    let s = enc_text_body(t) + seq!['"'] + rest;
    if t.len() == 0 {
        assert(t.map_values(|c: char| esc_char(c)) =~= Seq::<Seq<char>>::empty());
        assert(enc_text_body(t) =~= Seq::<char>::empty());
        assert(s[0] == '"');
        assert(s.drop_first() =~= rest);
        assert(t =~= Seq::<char>::empty());
    } else {
        let c = t[0];
        let t2 = t.drop_first();
        assert(char_encodable(c));
        assert(text_encodable(t2)) by {
            assert(forall|i: int| 0 <= i < t2.len() ==> t2[i] == t[i + 1]);
        }
        // enc_text_body(t) splits as esc_char(c) + enc_text_body(t2).
        let m = t.map_values(|ch: char| esc_char(ch));
        assert(m.len() > 0);
        assert(m[0] == esc_char(c));
        assert(m.drop_first() =~= t2.map_values(|ch: char| esc_char(ch)));
        assert(m.flatten() == m[0] + m.drop_first().flatten());
        assert(enc_text_body(t) =~= esc_char(c) + enc_text_body(t2));
        lemma_rt_text_body(t2, rest);
        let s2 = enc_text_body(t2) + seq!['"'] + rest;
        if c == '"' || c == '\\' || c == '\n' || c == '\t' || c == '\r' || c == '\u{8}' || c
            == '\u{c}' {
            // Escaped: two characters, then the rest of the body.
            assert(esc_char(c).len() == 2);
            assert(s =~= esc_char(c) + s2);
            assert(s[0] == '\\');
            assert(s.len() >= 2);
            assert(grammar::escape_of(s[1]) == Some(c));
            assert(s.skip(2) =~= s2);
            assert(seq![c] + t2 =~= t);
        } else {
            assert(esc_char(c) =~= seq![c]);
            assert(s =~= seq![c] + s2);
            assert(s[0] == c);
            assert(c != '"' && c != '\\');
            assert((c as u32) >= 0x20);
            assert(s.drop_first() =~= s2);
            assert(seq![c] + t2 =~= t);
        }
    }
}

/// Parsing a quoted string token consumes exactly its encoding.
proof fn lemma_rt_text(t: Seq<char>, rest: Seq<char>)
    requires
        text_encodable(t),
    ensures
        grammar::text_token(enc_text(t) + rest) == Some((t, rest)),
{
    let s = enc_text(t) + rest;
    assert(s[0] == '"');
    assert(s.drop_first() =~= enc_text_body(t) + seq!['"'] + rest);
    lemma_rt_text_body(t, rest);
}

proof fn lemma_enc_u32_digits(v: int)
    requires
        0 <= v,
    ensures
        enc_u32(v).len() >= 1,
        forall|i: int| 0 <= i < enc_u32(v).len() ==> grammar::is_digit(#[trigger] enc_u32(v)[i]),
    decreases v,
{
    if v < 10 {
        assert(grammar::is_digit(digit_char(v)));
    } else {
        lemma_enc_u32_digits(v / 10);
        assert(grammar::is_digit(digit_char(v % 10)));
        assert(forall|i: int|
            0 <= i < enc_u32(v / 10).len() ==> enc_u32(v)[i] == enc_u32(v / 10)[i]);
    }
}

proof fn lemma_enc_u32_len(v: int, k: int)
    requires
        0 <= v,
        1 <= k,
        v < ten_pow(k),
    ensures
        enc_u32(v).len() <= k,
    decreases v,
{
    if v < 10 {
    } else {
        assert(ten_pow(k) == 10 * ten_pow(k - 1));
        assert(v / 10 < ten_pow(k - 1));
        assert(k - 1 >= 1) by {
            if k == 1 {
                assert(ten_pow(1) == 10);
            }
        }
        lemma_enc_u32_len(v / 10, k - 1);
    }
}

proof fn lemma_digits_value_prefix(s1: Seq<char>, s2: Seq<char>, n: int)
    requires
        0 <= n <= s1.len(),
        n <= s2.len(),
        forall|i: int| 0 <= i < n ==> s1[i] == s2[i],
    ensures
        grammar::digits_value(s1, n) == grammar::digits_value(s2, n),
    decreases n,
{
    if n > 0 {
        lemma_digits_value_prefix(s1, s2, n - 1);
    }
}

proof fn lemma_enc_u32_value(v: int)
    requires
        0 <= v,
    ensures
        grammar::digits_value(enc_u32(v), enc_u32(v).len() as int) == v,
    decreases v,
{
    lemma_enc_u32_digits(v);
    let e = enc_u32(v);
    let n = e.len() as int;
    if v < 10 {
        assert(grammar::digits_value(e, 1) == grammar::digits_value(e, 0) * 10 + grammar::digit_of(
            e[0],
        ));
        assert(grammar::digit_of(digit_char(v)) == v);
    } else {
        let p = enc_u32(v / 10);
        lemma_enc_u32_value(v / 10);
        lemma_enc_u32_digits(v / 10);
        assert(e =~= p + seq![digit_char(v % 10)]);
        assert(e[n - 1] == digit_char(v % 10));
        assert(grammar::digit_of(digit_char(v % 10)) == v % 10);
        assert(forall|i: int| 0 <= i < p.len() ==> e[i] == p[i]);
        lemma_digits_value_prefix(p, e, p.len() as int);
        assert(grammar::digits_value(e, n) == grammar::digits_value(e, n - 1) * 10
            + grammar::digit_of(e[n - 1]));
        assert(grammar::digits_value(e, n - 1) == v / 10);
    }
}

proof fn lemma_digit_count_concat(a: Seq<char>, b: Seq<char>)
    requires
        forall|i: int| 0 <= i < a.len() ==> grammar::is_digit(#[trigger] a[i]),
        b.len() == 0 || !grammar::is_digit(b[0]),
    ensures
        grammar::digit_count(a + b) == a.len(),
    decreases a.len(),
{
    if a.len() == 0 {
        assert(a + b =~= b);
    } else {
        assert((a + b)[0] == a[0]);
        assert((a + b).drop_first() =~= a.drop_first() + b);
        assert(forall|i: int| 0 <= i < a.drop_first().len() ==> a.drop_first()[i] == a[i + 1]);
        lemma_digit_count_concat(a.drop_first(), b);
    }
}

/// Parsing a number token consumes exactly its encoding.
proof fn lemma_rt_u32(v: u32, rest: Seq<char>)
    requires
        rest.len() == 0 || !grammar::is_digit(rest[0]),
    ensures
        grammar::code_token(enc_u32(v as int) + rest) == Some((v, rest)),
{
    let e = enc_u32(v as int);
    let s = e + rest;
    lemma_enc_u32_digits(v as int);
    lemma_digit_count_concat(e, rest);
    lemma_ten_pow_values();
    assert((v as int) < ten_pow(10)) by {
        assert(v <= u32::MAX);
    }
    lemma_enc_u32_len(v as int, 10);
    lemma_enc_u32_value(v as int);
    assert(forall|i: int| 0 <= i < e.len() ==> s[i] == e[i]);
    lemma_digits_value_prefix(e, s, e.len() as int);
    assert(grammar::digits_value(s, e.len() as int) == v);
    assert(s.skip(e.len() as int) =~= rest);
}

/// Parsing a member key consumes its encoding and stops at the value.
proof fn lemma_rt_member_key(key: Seq<char>, rest: Seq<char>)
    requires
        text_encodable(key),
        rest.len() > 0,
        !grammar::is_ws(rest[0]),
    ensures
        grammar::member_key(enc_text(key) + seq![':'] + rest) == Some((key, rest)),
{
    let s = enc_text(key) + seq![':'] + rest;
    assert(s =~= enc_text(key) + (seq![':'] + rest));
    lemma_rt_text(key, seq![':'] + rest);
    let r = seq![':'] + rest;
    assert(grammar::strip_ws(r) == r) by {
        assert(r[0] == ':');
    }
    assert(r.drop_first() =~= rest);
    assert(grammar::strip_ws(rest) == rest);
}

/// A comma after a member means another member follows.
proof fn lemma_rt_member_more(rest: Seq<char>)
    requires
        rest.len() > 0,
        !grammar::is_ws(rest[0]),
    ensures
        grammar::member_sep(seq![','] + rest) == Some((true, rest)),
{
    let s = seq![','] + rest;
    assert(grammar::strip_ws(s) == s) by {
        assert(s[0] == ',');
    }
    assert(s.drop_first() =~= rest);
    assert(grammar::strip_ws(rest) == rest);
}

/// A closing brace after a member ends the object.
proof fn lemma_rt_member_end(rest: Seq<char>)
    ensures
        grammar::member_sep(seq!['}'] + rest) == Some((false, rest)),
{
    let s = seq!['}'] + rest;
    assert(grammar::strip_ws(s) == s) by {
        assert(s[0] == '}');
    }
    assert(s.drop_first() =~= rest);
}

/// A comma after an element means another element follows.
proof fn lemma_rt_element_more(rest: Seq<char>)
    requires
        rest.len() > 0,
        !grammar::is_ws(rest[0]),
    ensures
        grammar::element_sep(seq![','] + rest) == Some((true, rest)),
{
    let s = seq![','] + rest;
    assert(grammar::strip_ws(s) == s) by {
        assert(s[0] == ',');
    }
    assert(s.drop_first() =~= rest);
    assert(grammar::strip_ws(rest) == rest);
}

/// A closing bracket after an element ends the array.
proof fn lemma_rt_element_end(rest: Seq<char>)
    ensures
        grammar::element_sep(seq![']'] + rest) == Some((false, rest)),
{
    let s = seq![']'] + rest;
    assert(grammar::strip_ws(s) == s) by {
        assert(s[0] == ']');
    }
    assert(s.drop_first() =~= rest);
}

} // verus!

verus! {

/// Parsing an encoded attribute value object yields its string value.
#[verifier::spinoff_prover]
#[verifier::rlimit(100)]
proof fn lemma_rt_any_value(v: Seq<char>, rest: Seq<char>)
    requires
        text_encodable(v),
    ensures
        grammar::any_value_obj(
            seq!['{'] + enc_text("stringValue"@) + seq![':'] + enc_text(v) + seq!['}'] + rest,
        ) == Some((Some(v), rest)),
{
    reveal_strlit("stringValue");
    assert(text_encodable("stringValue"@));
    let s = seq!['{'] + enc_text("stringValue"@) + seq![':'] + enc_text(v) + seq!['}'] + rest;
    let rest1 = enc_text(v) + seq!['}'] + rest;
    let body = enc_text("stringValue"@) + seq![':'] + rest1;
    assert(s[0] == '{');
    assert(s.drop_first() =~= body);
    assert(body[0] == '"') by {
        assert(enc_text("stringValue"@)[0] == '"');
    }
    assert(grammar::strip_ws(body) == body);
    assert(rest1[0] == '"') by {
        assert(enc_text(v)[0] == '"');
    }
    lemma_rt_member_key("stringValue"@, rest1);
    assert(rest1 =~= enc_text(v) + (seq!['}'] + rest));
    lemma_rt_text(v, seq!['}'] + rest);
    lemma_rt_member_end(rest);
    assert(grammar::any_value_members(body, None) == Some((Some(v), rest)));
}

/// Parsing an encoded attribute yields that attribute.
#[verifier::spinoff_prover]
#[verifier::rlimit(100)]
proof fn lemma_rt_attribute(a: AttributeModel, rest: Seq<char>)
    requires
        attribute_encodable(a),
    ensures
        grammar::attribute_obj(enc_attribute(a) + rest) == Some((Some(a), rest)),
{
    reveal_strlit("key");
    reveal_strlit("value");
    assert(text_encodable("key"@));
    assert(text_encodable("value"@));
    let s = enc_attribute(a) + rest;
    let val_obj = seq!['{'] + enc_text("stringValue"@) + seq![':'] + enc_text(a.value) + seq!['}'];
    let rest3 = enc_text("value"@) + seq![':'] + (val_obj + seq!['}'] + rest);
    let rest1 = enc_text(a.key) + (seq![','] + rest3);
    let body = enc_text("key"@) + seq![':'] + rest1;
    assert(s[0] == '{');
    assert(s.drop_first() =~= body);
    assert(body[0] == '"') by {
        assert(enc_text("key"@)[0] == '"');
    }
    assert(grammar::strip_ws(body) == body);
    assert(rest1[0] == '"') by {
        assert(enc_text(a.key)[0] == '"');
    }
    lemma_rt_member_key("key"@, rest1);
    lemma_rt_text(a.key, seq![','] + rest3);
    assert(rest3[0] == '"') by {
        assert(enc_text("value"@)[0] == '"');
    }
    lemma_rt_member_more(rest3);
    // Second member: "value".
    assert("value"@ != "key"@) by {
        assert("value"@.len() == 5);
        assert("key"@.len() == 3);
    }
    let rest4 = val_obj + seq!['}'] + rest;
    assert(rest4[0] == '{') by {
        assert(val_obj[0] == '{');
    }
    assert(rest3 =~= enc_text("value"@) + seq![':'] + rest4);
    lemma_rt_member_key("value"@, rest4);
    assert(rest4 =~= seq!['{'] + enc_text("stringValue"@) + seq![':'] + enc_text(a.value) + seq![
        '}',
    ] + (seq!['}'] + rest));
    lemma_rt_any_value(a.value, seq!['}'] + rest);
    lemma_rt_member_end(rest);
    assert(grammar::attribute_members(rest3, a.key, None) == Some(((a.key, Some(a.value)), rest)));
    assert(grammar::attribute_members(body, Seq::empty(), None) == Some(
        ((a.key, Some(a.value)), rest),
    ));
    assert(AttributeModel { key: a.key, value: a.value } =~= a);
}

/// Parsing encoded attribute array elements yields those attributes.
#[verifier::spinoff_prover]
#[verifier::rlimit(100)]
proof fn lemma_rt_attr_items(attrs: Seq<AttributeModel>, rest: Seq<char>)
    requires
        attrs.len() >= 1,
        attrs_encodable(attrs),
    ensures
        grammar::attribute_items(enc_attr_items(attrs) + seq![']'] + rest) == Some((attrs, rest)),
    decreases attrs.len(),
{
    let s = enc_attr_items(attrs) + seq![']'] + rest;
    if attrs.len() == 1 {
        assert(s =~= enc_attribute(attrs[0]) + (seq![']'] + rest));
        lemma_rt_attribute(attrs[0], seq![']'] + rest);
        lemma_rt_element_end(rest);
        assert(seq![attrs[0]] =~= attrs);
    } else {
        let tail = attrs.drop_first();
        assert(attrs_encodable(tail)) by {
            assert(forall|i: int| 0 <= i < tail.len() ==> tail[i] == attrs[i + 1]);
        }
        let rest2 = enc_attr_items(tail) + seq![']'] + rest;
        assert(s =~= enc_attribute(attrs[0]) + (seq![','] + rest2));
        lemma_rt_attribute(attrs[0], seq![','] + rest2);
        assert(rest2[0] == '{') by {
            assert(enc_attr_items(tail)[0] == '{') by {
                assert(enc_attribute(tail[0])[0] == '{');
                if tail.len() == 1 {
                } else {
                    assert(enc_attr_items(tail)[0] == enc_attribute(tail[0])[0]);
                }
            }
        }
        lemma_rt_element_more(rest2);
        lemma_rt_attr_items(tail, rest);
        assert(seq![attrs[0]] + tail =~= attrs);
    }
}

/// Parsing an encoded attribute array yields those attributes.
#[verifier::spinoff_prover]
#[verifier::rlimit(100)]
proof fn lemma_rt_attr_list(attrs: Seq<AttributeModel>, rest: Seq<char>)
    requires
        attrs_encodable(attrs),
    ensures
        grammar::attribute_list(enc_attr_list(attrs) + rest) == Some((attrs, rest)),
{
    let s = enc_attr_list(attrs) + rest;
    assert(s[0] == '[');
    if attrs.len() == 0 {
        assert(s.drop_first() =~= seq![']'] + rest);
        assert((seq![']'] + rest)[0] == ']');
        assert(grammar::strip_ws(seq![']'] + rest) == seq![']'] + rest);
        assert((seq![']'] + rest).drop_first() =~= rest);
        assert(attrs =~= Seq::<AttributeModel>::empty());
    } else {
        assert(s.drop_first() =~= enc_attr_items(attrs) + seq![']'] + rest);
        let r = enc_attr_items(attrs) + seq![']'] + rest;
        assert(r[0] == '{') by {
            assert(enc_attribute(attrs[0])[0] == '{');
            if attrs.len() == 1 {
            } else {
                assert(enc_attr_items(attrs)[0] == enc_attribute(attrs[0])[0]);
            }
        }
        assert(grammar::strip_ws(r) == r);
        lemma_rt_attr_items(attrs, rest);
    }
}

} // verus!

verus! {

/// Parsing an encoded event yields that event.
#[verifier::spinoff_prover]
#[verifier::rlimit(100)]
proof fn lemma_rt_event(e: EventModel, rest: Seq<char>)
    requires
        event_encodable(e),
    ensures
        grammar::event_obj(enc_event(e) + rest) == Some((e, rest)),
{
    reveal_strlit("name");
    reveal_strlit("attributes");
    assert(text_encodable("name"@));
    assert(text_encodable("attributes"@));
    let s = enc_event(e) + rest;
    let rest4 = enc_attr_list(e.attributes) + (seq!['}'] + rest);
    let rest3 = enc_text("attributes"@) + seq![':'] + rest4;
    let rest1 = enc_text(e.name) + (seq![','] + rest3);
    let body = enc_text("name"@) + seq![':'] + rest1;
    assert(s[0] == '{');
    assert(s.drop_first() =~= body);
    assert(body[0] == '"') by {
        assert(enc_text("name"@)[0] == '"');
    }
    assert(grammar::strip_ws(body) == body);
    assert(rest1[0] == '"') by {
        assert(enc_text(e.name)[0] == '"');
    }
    lemma_rt_member_key("name"@, rest1);
    lemma_rt_text(e.name, seq![','] + rest3);
    assert(rest3[0] == '"') by {
        assert(enc_text("attributes"@)[0] == '"');
    }
    lemma_rt_member_more(rest3);
    assert("attributes"@ != "name"@) by {
        assert("attributes"@.len() == 10);
        assert("name"@.len() == 4);
    }
    assert(rest4[0] == '[') by {
        assert(enc_attr_list(e.attributes)[0] == '[');
    }
    lemma_rt_member_key("attributes"@, rest4);
    assert(rest4 =~= enc_attr_list(e.attributes) + (seq!['}'] + rest));
    lemma_rt_attr_list(e.attributes, seq!['}'] + rest);
    lemma_rt_member_end(rest);
    assert(EventModel { name: e.name, attributes: e.attributes } =~= e);
    let acc1 = grammar::empty_event();
    let acc2 = EventModel { name: e.name, attributes: acc1.attributes };
    assert(grammar::event_members(rest3, acc2) == Some((e, rest)));
    assert(grammar::event_members(body, acc1) == Some((e, rest)));
}

/// Parsing encoded event array elements yields those events.
#[verifier::spinoff_prover]
#[verifier::rlimit(100)]
proof fn lemma_rt_event_items(events: Seq<EventModel>, rest: Seq<char>)
    requires
        events.len() >= 1,
        events_encodable(events),
    ensures
        grammar::event_items(enc_event_items(events) + seq![']'] + rest) == Some((events, rest)),
    decreases events.len(),
{
    let s = enc_event_items(events) + seq![']'] + rest;
    if events.len() == 1 {
        assert(s =~= enc_event(events[0]) + (seq![']'] + rest));
        lemma_rt_event(events[0], seq![']'] + rest);
        lemma_rt_element_end(rest);
        assert(seq![events[0]] =~= events);
    } else {
        let tail = events.drop_first();
        assert(events_encodable(tail)) by {
            assert(forall|i: int| 0 <= i < tail.len() ==> tail[i] == events[i + 1]);
        }
        let rest2 = enc_event_items(tail) + seq![']'] + rest;
        assert(s =~= enc_event(events[0]) + (seq![','] + rest2));
        lemma_rt_event(events[0], seq![','] + rest2);
        assert(rest2[0] == '{') by {
            assert(enc_event(tail[0])[0] == '{');
            if tail.len() == 1 {
            } else {
                assert(enc_event_items(tail)[0] == enc_event(tail[0])[0]);
            }
        }
        lemma_rt_element_more(rest2);
        lemma_rt_event_items(tail, rest);
        assert(seq![events[0]] + tail =~= events);
    }
}

/// Parsing an encoded event array yields those events.
#[verifier::spinoff_prover]
#[verifier::rlimit(100)]
proof fn lemma_rt_event_list(events: Seq<EventModel>, rest: Seq<char>)
    requires
        events_encodable(events),
    ensures
        grammar::event_list(enc_event_list(events) + rest) == Some((events, rest)),
{
    let s = enc_event_list(events) + rest;
    assert(s[0] == '[');
    if events.len() == 0 {
        assert(s.drop_first() =~= seq![']'] + rest);
        assert((seq![']'] + rest)[0] == ']');
        assert(grammar::strip_ws(seq![']'] + rest) == seq![']'] + rest);
        assert((seq![']'] + rest).drop_first() =~= rest);
        assert(events =~= Seq::<EventModel>::empty());
    } else {
        assert(s.drop_first() =~= enc_event_items(events) + seq![']'] + rest);
        let r = enc_event_items(events) + seq![']'] + rest;
        assert(r[0] == '{') by {
            assert(enc_event(events[0])[0] == '{');
            if events.len() == 1 {
            } else {
                assert(enc_event_items(events)[0] == enc_event(events[0])[0]);
            }
        }
        assert(grammar::strip_ws(r) == r);
        lemma_rt_event_items(events, rest);
    }
}

/// Parsing an encoded status object yields its code.
#[verifier::spinoff_prover]
#[verifier::rlimit(100)]
proof fn lemma_rt_status(code: u32, rest: Seq<char>)
    ensures
        grammar::status_obj(
            seq!['{'] + enc_text("code"@) + seq![':'] + enc_u32(code as int) + seq!['}'] + rest,
        ) == Some((code, rest)),
{
    reveal_strlit("code");
    assert(text_encodable("code"@));
    let s = seq!['{'] + enc_text("code"@) + seq![':'] + enc_u32(code as int) + seq!['}'] + rest;
    let rest1 = enc_u32(code as int) + seq!['}'] + rest;
    let body = enc_text("code"@) + seq![':'] + rest1;
    assert(s[0] == '{');
    assert(s.drop_first() =~= body);
    assert(body[0] == '"') by {
        assert(enc_text("code"@)[0] == '"');
    }
    assert(grammar::strip_ws(body) == body);
    lemma_enc_u32_digits(code as int);
    assert(rest1[0] == enc_u32(code as int)[0]);
    assert(grammar::is_digit(rest1[0]));
    assert(!grammar::is_ws(rest1[0])) by {
        if grammar::is_ws(rest1[0]) {
            assert(!grammar::is_digit(rest1[0]));
        }
    }
    lemma_rt_member_key("code"@, rest1);
    assert(rest1 =~= enc_u32(code as int) + (seq!['}'] + rest));
    assert(!grammar::is_digit('}'));
    lemma_rt_u32(code, seq!['}'] + rest);
    lemma_rt_member_end(rest);
}

/// Parsing an encoded span yields that span.
#[verifier::spinoff_prover]
#[verifier::rlimit(100)]
proof fn lemma_rt_span(sp: SpanModel, rest: Seq<char>)
    requires
        span_encodable(sp),
    ensures
        grammar::span_obj(enc_span(sp) + rest) == Some((sp, rest)),
{
    reveal_strlit("name");
    reveal_strlit("status");
    reveal_strlit("code");
    reveal_strlit("events");
    assert(text_encodable("name"@));
    assert(text_encodable("status"@));
    assert(text_encodable("events"@));
    let s = enc_span(sp) + rest;
    let status_obj_enc = seq!['{'] + enc_text("code"@) + seq![':'] + enc_u32(sp.status_code as int)
        + seq!['}'];
    let rest6 = enc_event_list(sp.events) + (seq!['}'] + rest);
    let rest5 = enc_text("events"@) + seq![':'] + rest6;
    let rest4 = status_obj_enc + (seq![','] + rest5);
    let rest3 = enc_text("status"@) + seq![':'] + rest4;
    let rest1 = enc_text(sp.name) + (seq![','] + rest3);
    let body = enc_text("name"@) + seq![':'] + rest1;
    assert(s[0] == '{');
    assert(s.drop_first() =~= body);
    assert(body[0] == '"') by {
        assert(enc_text("name"@)[0] == '"');
    }
    assert(grammar::strip_ws(body) == body);
    assert(rest1[0] == '"') by {
        assert(enc_text(sp.name)[0] == '"');
    }
    lemma_rt_member_key("name"@, rest1);
    lemma_rt_text(sp.name, seq![','] + rest3);
    assert(rest3[0] == '"') by {
        assert(enc_text("status"@)[0] == '"');
    }
    lemma_rt_member_more(rest3);
    assert("status"@ != "name"@) by {
        assert("status"@.len() == 6);
        assert("name"@.len() == 4);
    }
    assert(rest4[0] == '{') by {
        assert(status_obj_enc[0] == '{');
    }
    lemma_rt_member_key("status"@, rest4);
    assert(rest4 =~= seq!['{'] + enc_text("code"@) + seq![':'] + enc_u32(sp.status_code as int)
        + seq!['}'] + (seq![','] + rest5));
    lemma_rt_status(sp.status_code, seq![','] + rest5);
    assert(rest5[0] == '"') by {
        assert(enc_text("events"@)[0] == '"');
    }
    lemma_rt_member_more(rest5);
    assert("events"@ != "name"@) by {
        assert("events"@.len() == 6);
        assert("name"@.len() == 4);
    }
    assert("events"@ != "status"@) by {
        if "events"@ == "status"@ {
            assert("events"@[0] == "status"@[0]);
            assert("events"@[0] == 'e');
            assert("status"@[0] == 's');
        }
    }
    assert(rest6[0] == '[') by {
        assert(enc_event_list(sp.events)[0] == '[');
    }
    lemma_rt_member_key("events"@, rest6);
    assert(rest6 =~= enc_event_list(sp.events) + (seq!['}'] + rest));
    lemma_rt_event_list(sp.events, seq!['}'] + rest);
    lemma_rt_member_end(rest);
    assert(SpanModel { name: sp.name, status_code: sp.status_code, events: sp.events } =~= sp);
    let acc1 = grammar::empty_span();
    let acc2 = SpanModel { name: sp.name, status_code: acc1.status_code, events: acc1.events };
    let acc3 = SpanModel { name: acc2.name, status_code: sp.status_code, events: acc2.events };
    assert(grammar::span_members(rest5, acc3) == Some((sp, rest)));
    assert(grammar::span_members(rest3, acc2) == Some((sp, rest)));
    assert(grammar::span_members(body, acc1) == Some((sp, rest)));
}

/// Parsing encoded span array elements yields those spans.
#[verifier::spinoff_prover]
#[verifier::rlimit(100)]
proof fn lemma_rt_span_items(spans: Seq<SpanModel>, rest: Seq<char>)
    requires
        spans.len() >= 1,
        spans_encodable(spans),
    ensures
        grammar::span_items(enc_span_items(spans) + seq![']'] + rest) == Some((spans, rest)),
    decreases spans.len(),
{
    let s = enc_span_items(spans) + seq![']'] + rest;
    if spans.len() == 1 {
        assert(s =~= enc_span(spans[0]) + (seq![']'] + rest));
        lemma_rt_span(spans[0], seq![']'] + rest);
        lemma_rt_element_end(rest);
        assert(seq![spans[0]] =~= spans);
    } else {
        let tail = spans.drop_first();
        assert(spans_encodable(tail)) by {
            assert(forall|i: int| 0 <= i < tail.len() ==> tail[i] == spans[i + 1]);
        }
        let rest2 = enc_span_items(tail) + seq![']'] + rest;
        assert(s =~= enc_span(spans[0]) + (seq![','] + rest2));
        lemma_rt_span(spans[0], seq![','] + rest2);
        assert(rest2[0] == '{') by {
            assert(enc_span(tail[0])[0] == '{');
            if tail.len() == 1 {
            } else {
                assert(enc_span_items(tail)[0] == enc_span(tail[0])[0]);
            }
        }
        lemma_rt_element_more(rest2);
        lemma_rt_span_items(tail, rest);
        assert(seq![spans[0]] + tail =~= spans);
    }
}

/// Parsing an encoded span array yields those spans.
#[verifier::spinoff_prover]
#[verifier::rlimit(100)]
proof fn lemma_rt_span_list(spans: Seq<SpanModel>, rest: Seq<char>)
    requires
        spans_encodable(spans),
    ensures
        grammar::span_list(enc_span_list(spans) + rest) == Some((spans, rest)),
{
    let s = enc_span_list(spans) + rest;
    assert(s[0] == '[');
    if spans.len() == 0 {
        assert(s.drop_first() =~= seq![']'] + rest);
        assert((seq![']'] + rest)[0] == ']');
        assert(grammar::strip_ws(seq![']'] + rest) == seq![']'] + rest);
        assert((seq![']'] + rest).drop_first() =~= rest);
        assert(spans =~= Seq::<SpanModel>::empty());
    } else {
        assert(s.drop_first() =~= enc_span_items(spans) + seq![']'] + rest);
        let r = enc_span_items(spans) + seq![']'] + rest;
        assert(r[0] == '{') by {
            assert(enc_span(spans[0])[0] == '{');
            if spans.len() == 1 {
            } else {
                assert(enc_span_items(spans)[0] == enc_span(spans[0])[0]);
            }
        }
        assert(grammar::strip_ws(r) == r);
        lemma_rt_span_items(spans, rest);
    }
}

/// Parsing an encoded scope span yields that scope span.
#[verifier::spinoff_prover]
#[verifier::rlimit(100)]
proof fn lemma_rt_scope_span(sc: ScopeSpanModel, rest: Seq<char>)
    requires
        scope_encodable(sc),
    ensures
        grammar::scope_span_obj(enc_scope_span(sc) + rest) == Some((sc, rest)),
{
    reveal_strlit("spans");
    assert(text_encodable("spans"@));
    let s = enc_scope_span(sc) + rest;
    let rest1 = enc_span_list(sc.spans) + (seq!['}'] + rest);
    let body = enc_text("spans"@) + seq![':'] + rest1;
    assert(s[0] == '{');
    assert(s.drop_first() =~= body);
    assert(body[0] == '"') by {
        assert(enc_text("spans"@)[0] == '"');
    }
    assert(grammar::strip_ws(body) == body);
    assert(rest1[0] == '[') by {
        assert(enc_span_list(sc.spans)[0] == '[');
    }
    lemma_rt_member_key("spans"@, rest1);
    assert(rest1 =~= enc_span_list(sc.spans) + (seq!['}'] + rest));
    lemma_rt_span_list(sc.spans, seq!['}'] + rest);
    lemma_rt_member_end(rest);
    assert(ScopeSpanModel { spans: sc.spans } =~= sc);
}

/// Parsing encoded scope span array elements yields those scope spans.
#[verifier::spinoff_prover]
#[verifier::rlimit(100)]
proof fn lemma_rt_scope_items(scopes: Seq<ScopeSpanModel>, rest: Seq<char>)
    requires
        scopes.len() >= 1,
        scopes_encodable(scopes),
    ensures
        grammar::scope_span_items(enc_scope_items(scopes) + seq![']'] + rest) == Some(
            (scopes, rest),
        ),
    decreases scopes.len(),
{
    let s = enc_scope_items(scopes) + seq![']'] + rest;
    if scopes.len() == 1 {
        assert(s =~= enc_scope_span(scopes[0]) + (seq![']'] + rest));
        lemma_rt_scope_span(scopes[0], seq![']'] + rest);
        lemma_rt_element_end(rest);
        assert(seq![scopes[0]] =~= scopes);
    } else {
        let tail = scopes.drop_first();
        assert(scopes_encodable(tail)) by {
            assert(forall|i: int| 0 <= i < tail.len() ==> tail[i] == scopes[i + 1]);
        }
        let rest2 = enc_scope_items(tail) + seq![']'] + rest;
        assert(s =~= enc_scope_span(scopes[0]) + (seq![','] + rest2));
        lemma_rt_scope_span(scopes[0], seq![','] + rest2);
        assert(rest2[0] == '{') by {
            assert(enc_scope_span(tail[0])[0] == '{');
            if tail.len() == 1 {
            } else {
                assert(enc_scope_items(tail)[0] == enc_scope_span(tail[0])[0]);
            }
        }
        lemma_rt_element_more(rest2);
        lemma_rt_scope_items(tail, rest);
        assert(seq![scopes[0]] + tail =~= scopes);
    }
}

/// Parsing an encoded scope span array yields those scope spans.
#[verifier::spinoff_prover]
#[verifier::rlimit(100)]
proof fn lemma_rt_scope_list(scopes: Seq<ScopeSpanModel>, rest: Seq<char>)
    requires
        scopes_encodable(scopes),
    ensures
        grammar::scope_span_list(enc_scope_list(scopes) + rest) == Some((scopes, rest)),
{
    let s = enc_scope_list(scopes) + rest;
    assert(s[0] == '[');
    if scopes.len() == 0 {
        assert(s.drop_first() =~= seq![']'] + rest);
        assert((seq![']'] + rest)[0] == ']');
        assert(grammar::strip_ws(seq![']'] + rest) == seq![']'] + rest);
        assert((seq![']'] + rest).drop_first() =~= rest);
        assert(scopes =~= Seq::<ScopeSpanModel>::empty());
    } else {
        assert(s.drop_first() =~= enc_scope_items(scopes) + seq![']'] + rest);
        let r = enc_scope_items(scopes) + seq![']'] + rest;
        assert(r[0] == '{') by {
            assert(enc_scope_span(scopes[0])[0] == '{');
            if scopes.len() == 1 {
            } else {
                assert(enc_scope_items(scopes)[0] == enc_scope_span(scopes[0])[0]);
            }
        }
        assert(grammar::strip_ws(r) == r);
        lemma_rt_scope_items(scopes, rest);
    }
}

} // verus!

verus! {

/// Parsing an encoded resource object yields its attributes.
#[verifier::spinoff_prover]
#[verifier::rlimit(100)]
proof fn lemma_rt_resource(attrs: Seq<AttributeModel>, rest: Seq<char>)
    requires
        attrs_encodable(attrs),
    ensures
        grammar::resource_obj(
            seq!['{'] + enc_text("attributes"@) + seq![':'] + enc_attr_list(attrs) + seq!['}']
                + rest,
        ) == Some((attrs, rest)),
{
    reveal_strlit("attributes");
    assert(text_encodable("attributes"@));
    let s = seq!['{'] + enc_text("attributes"@) + seq![':'] + enc_attr_list(attrs) + seq!['}']
        + rest;
    let rest1 = enc_attr_list(attrs) + (seq!['}'] + rest);
    let body = enc_text("attributes"@) + seq![':'] + rest1;
    assert(s[0] == '{');
    assert(s.drop_first() =~= body);
    assert(body[0] == '"') by {
        assert(enc_text("attributes"@)[0] == '"');
    }
    assert(grammar::strip_ws(body) == body);
    assert(rest1[0] == '[') by {
        assert(enc_attr_list(attrs)[0] == '[');
    }
    lemma_rt_member_key("attributes"@, rest1);
    assert(rest1 =~= enc_attr_list(attrs) + (seq!['}'] + rest));
    lemma_rt_attr_list(attrs, seq!['}'] + rest);
    lemma_rt_member_end(rest);
    assert(grammar::resource_members(body, Seq::empty()) == Some((attrs, rest)));
}

/// Parsing an encoded resource span yields that resource span.
#[verifier::spinoff_prover]
#[verifier::rlimit(100)]
proof fn lemma_rt_resource_span(rs: ResourceSpanModel, rest: Seq<char>)
    requires
        resource_span_encodable(rs),
    ensures
        grammar::resource_span_obj(enc_resource_span(rs) + rest) == Some((rs, rest)),
{
    reveal_strlit("resource");
    reveal_strlit("attributes");
    reveal_strlit("scopeSpans");
    assert(text_encodable("resource"@));
    assert(text_encodable("scopeSpans"@));
    let s = enc_resource_span(rs) + rest;
    let res_obj = seq!['{'] + enc_text("attributes"@) + seq![':'] + enc_attr_list(rs.attributes)
        + seq!['}'];
    let rest4 = enc_scope_list(rs.scope_spans) + (seq!['}'] + rest);
    let rest3 = enc_text("scopeSpans"@) + seq![':'] + rest4;
    let rest1 = res_obj + (seq![','] + rest3);
    let body = enc_text("resource"@) + seq![':'] + rest1;
    assert(s[0] == '{');
    assert(s.drop_first() =~= body);
    assert(body[0] == '"') by {
        assert(enc_text("resource"@)[0] == '"');
    }
    assert(grammar::strip_ws(body) == body);
    assert(rest1[0] == '{') by {
        assert(res_obj[0] == '{');
    }
    lemma_rt_member_key("resource"@, rest1);
    assert(rest1 =~= seq!['{'] + enc_text("attributes"@) + seq![':'] + enc_attr_list(rs.attributes)
        + seq!['}'] + (seq![','] + rest3));
    lemma_rt_resource(rs.attributes, seq![','] + rest3);
    assert(rest3[0] == '"') by {
        assert(enc_text("scopeSpans"@)[0] == '"');
    }
    lemma_rt_member_more(rest3);
    assert("scopeSpans"@ != "resource"@) by {
        assert("scopeSpans"@.len() == 10);
        assert("resource"@.len() == 8);
    }
    assert(rest4[0] == '[') by {
        assert(enc_scope_list(rs.scope_spans)[0] == '[');
    }
    lemma_rt_member_key("scopeSpans"@, rest4);
    assert(rest4 =~= enc_scope_list(rs.scope_spans) + (seq!['}'] + rest));
    lemma_rt_scope_list(rs.scope_spans, seq!['}'] + rest);
    lemma_rt_member_end(rest);
    assert(ResourceSpanModel { attributes: rs.attributes, scope_spans: rs.scope_spans } =~= rs);
    let acc1 = grammar::empty_resource_span();
    let acc2 = ResourceSpanModel { attributes: rs.attributes, scope_spans: acc1.scope_spans };
    assert(grammar::resource_span_members(rest3, acc2) == Some((rs, rest)));
    assert(grammar::resource_span_members(body, acc1) == Some((rs, rest)));
}

/// Parsing encoded resource span array elements yields those resource spans.
#[verifier::spinoff_prover]
#[verifier::rlimit(100)]
proof fn lemma_rt_resource_items(trace: Seq<ResourceSpanModel>, rest: Seq<char>)
    requires
        trace.len() >= 1,
        trace_encodable(trace),
    ensures
        grammar::resource_span_items(enc_resource_items(trace) + seq![']'] + rest) == Some(
            (trace, rest),
        ),
    decreases trace.len(),
{
    let s = enc_resource_items(trace) + seq![']'] + rest;
    if trace.len() == 1 {
        assert(s =~= enc_resource_span(trace[0]) + (seq![']'] + rest));
        lemma_rt_resource_span(trace[0], seq![']'] + rest);
        lemma_rt_element_end(rest);
        assert(seq![trace[0]] =~= trace);
    } else {
        let tail = trace.drop_first();
        assert(trace_encodable(tail)) by {
            assert(forall|i: int| 0 <= i < tail.len() ==> tail[i] == trace[i + 1]);
        }
        let rest2 = enc_resource_items(tail) + seq![']'] + rest;
        assert(s =~= enc_resource_span(trace[0]) + (seq![','] + rest2));
        lemma_rt_resource_span(trace[0], seq![','] + rest2);
        assert(rest2[0] == '{') by {
            assert(enc_resource_span(tail[0])[0] == '{');
            if tail.len() == 1 {
            } else {
                assert(enc_resource_items(tail)[0] == enc_resource_span(tail[0])[0]);
            }
        }
        lemma_rt_element_more(rest2);
        lemma_rt_resource_items(tail, rest);
        assert(seq![trace[0]] + tail =~= trace);
    }
}

/// Parsing an encoded resource span array yields those resource spans.
#[verifier::spinoff_prover]
#[verifier::rlimit(100)]
proof fn lemma_rt_resource_list(trace: Seq<ResourceSpanModel>, rest: Seq<char>)
    requires
        trace_encodable(trace),
    ensures
        grammar::resource_span_list(enc_resource_list(trace) + rest) == Some((trace, rest)),
{
    let s = enc_resource_list(trace) + rest;
    assert(s[0] == '[');
    if trace.len() == 0 {
        assert(s.drop_first() =~= seq![']'] + rest);
        assert((seq![']'] + rest)[0] == ']');
        assert(grammar::strip_ws(seq![']'] + rest) == seq![']'] + rest);
        assert((seq![']'] + rest).drop_first() =~= rest);
        assert(trace =~= Seq::<ResourceSpanModel>::empty());
    } else {
        assert(s.drop_first() =~= enc_resource_items(trace) + seq![']'] + rest);
        let r = enc_resource_items(trace) + seq![']'] + rest;
        assert(r[0] == '{') by {
            assert(enc_resource_span(trace[0])[0] == '{');
            if trace.len() == 1 {
            } else {
                assert(enc_resource_items(trace)[0] == enc_resource_span(trace[0])[0]);
            }
        }
        assert(grammar::strip_ws(r) == r);
        lemma_rt_resource_items(trace, rest);
    }
}

/// Parsing an encoded record yields that record and consumes the whole
/// encoding.
#[verifier::spinoff_prover]
#[verifier::rlimit(100)]
proof fn lemma_rt_record(m: TraceRecordModel, rest: Seq<char>)
    requires
        record_encodable(m),
    ensures
        grammar::record_obj(enc_record(m) + rest) == Some((m, rest)),
{
    reveal_strlit("resourceSpans");
    assert(text_encodable("resourceSpans"@));
    let s = enc_record(m) + rest;
    let rest1 = enc_resource_list(m.resource_spans) + (seq!['}'] + rest);
    let body = enc_text("resourceSpans"@) + seq![':'] + rest1;
    assert(s[0] == '{');
    assert(s.drop_first() =~= body);
    assert(body[0] == '"') by {
        assert(enc_text("resourceSpans"@)[0] == '"');
    }
    assert(grammar::strip_ws(body) == body);
    assert(rest1[0] == '[') by {
        assert(enc_resource_list(m.resource_spans)[0] == '[');
    }
    lemma_rt_member_key("resourceSpans"@, rest1);
    assert(rest1 =~= enc_resource_list(m.resource_spans) + (seq!['}'] + rest));
    lemma_rt_resource_list(m.resource_spans, seq!['}'] + rest);
    lemma_rt_member_end(rest);
    assert(TraceRecordModel { resource_spans: m.resource_spans } =~= m);
    assert(grammar::record_members(body, grammar::empty_record()) == Some((m, rest)));
}

/// Round trip for one export line: reading an encoded record yields exactly
/// the record that was written.
pub proof fn lemma_record_line_round_trip(m: TraceRecordModel)
    requires
        record_encodable(m),
    ensures
        grammar::record_line(enc_record(m)) == Some(m),
{
    let s = enc_record(m);
    assert(s + Seq::<char>::empty() =~= s);
    lemma_rt_record(m, Seq::empty());
    assert(s[0] == '{');
    assert(grammar::strip_ws(s) == s);
    assert(grammar::strip_ws(Seq::<char>::empty()) == Seq::<char>::empty());
}

} // verus!

verus! {

/// The resource spans a record sequence holds, concatenated in order.
pub open spec fn all_record_spans(records: Seq<TraceRecordModel>) -> Seq<ResourceSpanModel>
    decreases records.len(),
{
    if records.len() == 0 {
        Seq::empty()
    } else {
        records[0].resource_spans + all_record_spans(records.drop_first())
    }
}

pub open spec fn records_encodable(records: Seq<TraceRecordModel>) -> bool {
    forall|i: int| 0 <= i < records.len() ==> record_encodable(#[trigger] records[i])
}

/// The scope spans held by each record, summed.
pub open spec fn sum_scope_counts(records: Seq<TraceRecordModel>) -> int
    decreases records.len(),
{
    if records.len() == 0 {
        0
    } else {
        crate::content::scope_count(records[0].resource_spans) + sum_scope_counts(
            records.drop_first(),
        )
    }
}

proof fn lemma_scope_count_concat(a: Seq<ResourceSpanModel>, b: Seq<ResourceSpanModel>)
    ensures
        crate::content::scope_count(a + b) == crate::content::scope_count(a)
            + crate::content::scope_count(b),
    decreases a.len(),
{
    if a.len() == 0 {
        assert(a + b =~= b);
    } else {
        assert((a + b)[0] == a[0]);
        assert((a + b).drop_first() =~= a.drop_first() + b);
        lemma_scope_count_concat(a.drop_first(), b);
    }
}

/// Round trip over a whole export: writing any records as export lines and
/// reading the lines back yields exactly the written resource spans, and in
/// particular a trace whose scope-span count equals the total number of
/// scope spans written, however the spans were distributed over lines.
pub proof fn lemma_write_read_round_trip(records: Seq<TraceRecordModel>)
    requires
        records_encodable(records),
    ensures
        crate::reader::spans_of_lines(records.map_values(|m: TraceRecordModel| enc_record(m)))
            == Some(all_record_spans(records)),
        crate::content::scope_count(all_record_spans(records)) == sum_scope_counts(records),
    decreases records.len(),
{
    let lines = records.map_values(|m: TraceRecordModel| enc_record(m));
    if records.len() == 0 {
        assert(lines.len() == 0);
        assert(all_record_spans(records) =~= Seq::<ResourceSpanModel>::empty());
    } else {
        assert(lines[0] == enc_record(records[0]));
        assert(lines[0].len() > 0) by {
            assert(enc_record(records[0])[0] == '{');
        }
        lemma_record_line_round_trip(records[0]);
        let tail = records.drop_first();
        assert(records_encodable(tail)) by {
            assert(forall|i: int| 0 <= i < tail.len() ==> tail[i] == records[i + 1]);
        }
        lemma_write_read_round_trip(tail);
        assert(lines.drop_first() =~= tail.map_values(|m: TraceRecordModel| enc_record(m)));
        lemma_scope_count_concat(records[0].resource_spans, all_record_spans(tail));
    }
}

} // verus!
