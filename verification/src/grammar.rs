//! The export line format, as a mathematical grammar.
//!
//! Each function here consumes a prefix of a character sequence and returns
//! the value that prefix denotes together with the remaining suffix, or
//! `None` when the sequence does not start with a well-formed token.  The
//! executable reader and writer are specified against these functions.
//!
//! The format is line-oriented JSON restricted to the shape the collector
//! exports: an object `{"resourceSpans": [...]}` whose nested objects carry
//! `resource.attributes`, `scopeSpans`, `spans` (with `name`, `status.code`,
//! `events`), and event `attributes` with string values.  Members with other
//! keys are skipped: they must only be structurally balanced, not otherwise
//! well-formed.  String escapes are the named JSON escapes; numeric member
//! values are unsigned integers of at most ten digits.
//!
//! Several recursions continue on the suffix returned by an earlier
//! sub-parse.  A well-formed sub-parse always consumes at least one
//! character, so the explicit `len()` guards before those recursive calls
//! never fail; they make termination structural.  The lemmas at the end of
//! this module prove that consumption.

use vstd::prelude::*;

use crate::model::{
    AttributeModel, EventModel, ResourceSpanModel, ScopeSpanModel, SpanModel, TraceRecordModel,
};

verus! {

pub open spec fn is_ws(c: char) -> bool {
    c == ' ' || c == '\t' || c == '\r' || c == '\n'
}

pub open spec fn is_digit(c: char) -> bool {
    ('0' as u32) <= (c as u32) && (c as u32) <= ('9' as u32)
}

/// The character an escape sequence `\c` denotes, if `c` is a valid escape.
pub open spec fn escape_of(c: char) -> Option<char> {
    if c == '"' {
        Some('"')
    } else if c == '\\' {
        Some('\\')
    } else if c == '/' {
        Some('/')
    } else if c == 'n' {
        Some('\n')
    } else if c == 't' {
        Some('\t')
    } else if c == 'r' {
        Some('\r')
    } else if c == 'b' {
        Some('\u{8}')
    } else if c == 'f' {
        Some('\u{c}')
    } else {
        None
    }
}

/// Drop leading whitespace.
pub open spec fn strip_ws(s: Seq<char>) -> Seq<char>
    decreases s.len(),
{
    if s.len() > 0 && is_ws(s[0]) {
        strip_ws(s.drop_first())
    } else {
        s
    }
}

/// The body of a string token, after the opening quote: the denoted text and
/// the suffix after the closing quote.
pub open spec fn text_body(s: Seq<char>) -> Option<(Seq<char>, Seq<char>)>
    decreases s.len(),
{
    if s.len() == 0 {
        None
    } else if s[0] == '"' {
        Some((Seq::empty(), s.drop_first()))
    } else if s[0] == '\\' {
        if s.len() >= 2 {
            match escape_of(s[1]) {
                Some(u) => match text_body(s.skip(2)) {
                    Some((t, rest)) => Some((seq![u] + t, rest)),
                    None => None,
                },
                None => None,
            }
        } else {
            None
        }
    } else if (s[0] as u32) < 0x20 {
        None
    } else {
        match text_body(s.drop_first()) {
            Some((t, rest)) => Some((seq![s[0]] + t, rest)),
            None => None,
        }
    }
}

/// A full string token, opening quote included.
pub open spec fn text_token(s: Seq<char>) -> Option<(Seq<char>, Seq<char>)> {
    if s.len() > 0 && s[0] == '"' {
        text_body(s.drop_first())
    } else {
        None
    }
}

/// How many digits the sequence starts with.
pub open spec fn digit_count(s: Seq<char>) -> int
    decreases s.len(),
{
    if s.len() > 0 && is_digit(s[0]) {
        1 + digit_count(s.drop_first())
    } else {
        0
    }
}

pub open spec fn digit_of(c: char) -> int {
    c as u32 - '0' as u32
}

/// The value of the first `n` characters read as decimal digits.
pub open spec fn digits_value(s: Seq<char>, n: int) -> int
    decreases n,
{
    if n <= 0 {
        0
    } else {
        digits_value(s, n - 1) * 10 + digit_of(s[n - 1])
    }
}

/// An unsigned integer token that fits a `u32`: at most ten digits.
pub open spec fn code_token(s: Seq<char>) -> Option<(u32, Seq<char>)> {
    let n = digit_count(s);
    if 1 <= n <= 10 && digits_value(s, n) <= u32::MAX {
        Some(((digits_value(s, n)) as u32, s.skip(n)))
    } else {
        None
    }
}

/// Skip to just past the closing quote of a string whose opening quote has
/// been consumed.  Used for members the model does not keep, so escapes are
/// not validated, only quote/backslash structure.
pub open spec fn skip_text(s: Seq<char>) -> Option<Seq<char>>
    decreases s.len(),
{
    if s.len() == 0 {
        None
    } else if s[0] == '"' {
        Some(s.drop_first())
    } else if s[0] == '\\' {
        if s.len() >= 2 {
            skip_text(s.skip(2))
        } else {
            None
        }
    } else {
        skip_text(s.drop_first())
    }
}

/// Skip to just past the end of a composite value (object or array) whose
/// opening bracket has been consumed; `depth` counts open brackets.
pub open spec fn skip_composite(s: Seq<char>, depth: int) -> Option<Seq<char>>
    decreases s.len(),
{
    if s.len() == 0 || depth <= 0 {
        None
    } else if s[0] == '{' || s[0] == '[' {
        skip_composite(s.drop_first(), depth + 1)
    } else if s[0] == '}' || s[0] == ']' {
        if depth == 1 {
            Some(s.drop_first())
        } else {
            skip_composite(s.drop_first(), depth - 1)
        }
    } else if s[0] == '"' {
        match skip_text(s.drop_first()) {
            Some(rest) => {
                if rest.len() < s.len() {
                    skip_composite(rest, depth)
                } else {
                    None
                }
            },
            None => None,
        }
    } else {
        skip_composite(s.drop_first(), depth)
    }
}

pub open spec fn is_number_char(c: char) -> bool {
    is_digit(c) || c == '-' || c == '+' || c == '.' || c == 'e' || c == 'E'
}

/// Drop a leading run of number characters.
pub open spec fn strip_number(s: Seq<char>) -> Seq<char>
    decreases s.len(),
{
    if s.len() > 0 && is_number_char(s[0]) {
        strip_number(s.drop_first())
    } else {
        s
    }
}

pub open spec fn starts_with(s: Seq<char>, p: Seq<char>) -> bool {
    p.len() <= s.len() && s.take(p.len() as int) == p
}

/// Skip one value of any kind.
pub open spec fn skipped_value(s: Seq<char>) -> Option<Seq<char>> {
    if s.len() == 0 {
        None
    } else if s[0] == '"' {
        skip_text(s.drop_first())
    } else if s[0] == '{' || s[0] == '[' {
        skip_composite(s.drop_first(), 1)
    } else if is_number_char(s[0]) {
        Some(strip_number(s))
    } else if starts_with(s, "true"@) {
        Some(s.skip(4))
    } else if starts_with(s, "false"@) {
        Some(s.skip(5))
    } else if starts_with(s, "null"@) {
        Some(s.skip(4))
    } else {
        None
    }
}

/// A member key and its colon: the key text and the suffix at the value.
pub open spec fn member_key(s: Seq<char>) -> Option<(Seq<char>, Seq<char>)> {
    match text_token(s) {
        Some((k, rest)) => {
            let r = strip_ws(rest);
            if r.len() > 0 && r[0] == ':' {
                Some((k, strip_ws(r.drop_first())))
            } else {
                None
            }
        },
        None => None,
    }
}

/// After a member's value: `true` and the suffix at the next key after a
/// comma, or `false` and the suffix after the closing brace.
pub open spec fn member_sep(s: Seq<char>) -> Option<(bool, Seq<char>)> {
    let r = strip_ws(s);
    if r.len() > 0 && r[0] == ',' {
        Some((true, strip_ws(r.drop_first())))
    } else if r.len() > 0 && r[0] == '}' {
        Some((false, r.drop_first()))
    } else {
        None
    }
}

/// After an array element: `true` and the suffix at the next element after a
/// comma, or `false` and the suffix after the closing bracket.
pub open spec fn element_sep(s: Seq<char>) -> Option<(bool, Seq<char>)> {
    let r = strip_ws(s);
    if r.len() > 0 && r[0] == ',' {
        Some((true, strip_ws(r.drop_first())))
    } else if r.len() > 0 && r[0] == ']' {
        Some((false, r.drop_first()))
    } else {
        None
    }
}

/// Members of an attribute value object; `acc` is the string value seen so
/// far.  Only `stringValue` members are kept.
pub open spec fn any_value_members(s: Seq<char>, acc: Option<Seq<char>>) -> Option<
    (Option<Seq<char>>, Seq<char>),
>
    decreases s.len(),
{
    match member_key(s) {
        None => None,
        Some((k, r1)) => {
            let stepped: Option<(Option<Seq<char>>, Seq<char>)> = if k == "stringValue"@ {
                match text_token(r1) {
                    Some((t, r2)) => Some((Some(t), r2)),
                    None => None,
                }
            } else {
                match skipped_value(r1) {
                    Some(r2) => Some((acc, r2)),
                    None => None,
                }
            };
            match stepped {
                None => None,
                Some((acc2, r2)) => match member_sep(r2) {
                    None => None,
                    Some((more, r3)) => {
                        if more {
                            if r3.len() < s.len() {
                                any_value_members(r3, acc2)
                            } else {
                                None
                            }
                        } else {
                            Some((acc2, r3))
                        }
                    },
                },
            }
        },
    }
}

/// An attribute value object: its string value, if it has one.
pub open spec fn any_value_obj(s: Seq<char>) -> Option<(Option<Seq<char>>, Seq<char>)> {
    if s.len() > 0 && s[0] == '{' {
        let r = strip_ws(s.drop_first());
        if r.len() > 0 && r[0] == '}' {
            Some((None, r.drop_first()))
        } else {
            any_value_members(r, None)
        }
    } else {
        None
    }
}

/// Members of an attribute object: the key text and the string value seen so
/// far.
pub open spec fn attribute_members(
    s: Seq<char>,
    key: Seq<char>,
    val: Option<Seq<char>>,
) -> Option<((Seq<char>, Option<Seq<char>>), Seq<char>)>
    decreases s.len(),
{
    match member_key(s) {
        None => None,
        Some((k, r1)) => {
            let stepped: Option<((Seq<char>, Option<Seq<char>>), Seq<char>)> = if k == "key"@ {
                match text_token(r1) {
                    Some((t, r2)) => Some(((t, val), r2)),
                    None => None,
                }
            } else if k == "value"@ {
                match any_value_obj(r1) {
                    Some((v, r2)) => Some(((key, v), r2)),
                    None => None,
                }
            } else {
                match skipped_value(r1) {
                    Some(r2) => Some(((key, val), r2)),
                    None => None,
                }
            };
            match stepped {
                None => None,
                Some((acc2, r2)) => match member_sep(r2) {
                    None => None,
                    Some((more, r3)) => {
                        if more {
                            if r3.len() < s.len() {
                                attribute_members(r3, acc2.0, acc2.1)
                            } else {
                                None
                            }
                        } else {
                            Some((acc2, r3))
                        }
                    },
                },
            }
        },
    }
}

/// An attribute object.  Attributes without a string value are dropped from
/// the model, which the `Option` reflects.
pub open spec fn attribute_obj(s: Seq<char>) -> Option<(Option<AttributeModel>, Seq<char>)> {
    if s.len() > 0 && s[0] == '{' {
        let r = strip_ws(s.drop_first());
        let parsed: Option<((Seq<char>, Option<Seq<char>>), Seq<char>)> = if r.len() > 0 && r[0]
            == '}' {
            Some(((Seq::empty(), None), r.drop_first()))
        } else {
            attribute_members(r, Seq::empty(), None)
        };
        match parsed {
            None => None,
            Some(((key, val), rest)) => match val {
                Some(v) => Some((Some(AttributeModel { key: key, value: v }), rest)),
                None => Some((None, rest)),
            },
        }
    } else {
        None
    }
}

/// Elements of an attribute array, first element expected.
pub open spec fn attribute_items(s: Seq<char>) -> Option<(Seq<AttributeModel>, Seq<char>)>
    decreases s.len(),
{
    match attribute_obj(s) {
        None => None,
        Some((a, r1)) => match element_sep(r1) {
            None => None,
            Some((more, r2)) => {
                let head: Seq<AttributeModel> = match a {
                    Some(attr) => seq![attr],
                    None => Seq::empty(),
                };
                if more {
                    if r2.len() < s.len() {
                        match attribute_items(r2) {
                            Some((rest_items, r3)) => Some((head + rest_items, r3)),
                            None => None,
                        }
                    } else {
                        None
                    }
                } else {
                    Some((head, r2))
                }
            },
        },
    }
}

/// An attribute array.
pub open spec fn attribute_list(s: Seq<char>) -> Option<(Seq<AttributeModel>, Seq<char>)> {
    if s.len() > 0 && s[0] == '[' {
        let r = strip_ws(s.drop_first());
        if r.len() > 0 && r[0] == ']' {
            Some((Seq::empty(), r.drop_first()))
        } else {
            attribute_items(r)
        }
    } else {
        None
    }
}

pub open spec fn empty_event() -> EventModel {
    EventModel { name: Seq::empty(), attributes: Seq::empty() }
}

/// Members of an event object.
pub open spec fn event_members(s: Seq<char>, acc: EventModel) -> Option<(EventModel, Seq<char>)>
    decreases s.len(),
{
    match member_key(s) {
        None => None,
        Some((k, r1)) => {
            let stepped: Option<(EventModel, Seq<char>)> = if k == "name"@ {
                match text_token(r1) {
                    Some((t, r2)) => Some(
                        (EventModel { name: t, attributes: acc.attributes }, r2),
                    ),
                    None => None,
                }
            } else if k == "attributes"@ {
                match attribute_list(r1) {
                    Some((attrs, r2)) => Some(
                        (EventModel { name: acc.name, attributes: attrs }, r2),
                    ),
                    None => None,
                }
            } else {
                match skipped_value(r1) {
                    Some(r2) => Some((acc, r2)),
                    None => None,
                }
            };
            match stepped {
                None => None,
                Some((acc2, r2)) => match member_sep(r2) {
                    None => None,
                    Some((more, r3)) => {
                        if more {
                            if r3.len() < s.len() {
                                event_members(r3, acc2)
                            } else {
                                None
                            }
                        } else {
                            Some((acc2, r3))
                        }
                    },
                },
            }
        },
    }
}

/// An event object.
pub open spec fn event_obj(s: Seq<char>) -> Option<(EventModel, Seq<char>)> {
    if s.len() > 0 && s[0] == '{' {
        let r = strip_ws(s.drop_first());
        if r.len() > 0 && r[0] == '}' {
            Some((empty_event(), r.drop_first()))
        } else {
            event_members(r, empty_event())
        }
    } else {
        None
    }
}

/// Elements of an event array, first element expected.
pub open spec fn event_items(s: Seq<char>) -> Option<(Seq<EventModel>, Seq<char>)>
    decreases s.len(),
{
    match event_obj(s) {
        None => None,
        Some((e, r1)) => match element_sep(r1) {
            None => None,
            Some((more, r2)) => {
                if more {
                    if r2.len() < s.len() {
                        match event_items(r2) {
                            Some((rest_items, r3)) => Some((seq![e] + rest_items, r3)),
                            None => None,
                        }
                    } else {
                        None
                    }
                } else {
                    Some((seq![e], r2))
                }
            },
        },
    }
}

/// An event array.
pub open spec fn event_list(s: Seq<char>) -> Option<(Seq<EventModel>, Seq<char>)> {
    if s.len() > 0 && s[0] == '[' {
        let r = strip_ws(s.drop_first());
        if r.len() > 0 && r[0] == ']' {
            Some((Seq::empty(), r.drop_first()))
        } else {
            event_items(r)
        }
    } else {
        None
    }
}

/// Members of a status object; only `code` is kept.
pub open spec fn status_members(s: Seq<char>, acc: u32) -> Option<(u32, Seq<char>)>
    decreases s.len(),
{
    match member_key(s) {
        None => None,
        Some((k, r1)) => {
            let stepped: Option<(u32, Seq<char>)> = if k == "code"@ {
                match code_token(r1) {
                    Some((c, r2)) => Some((c, r2)),
                    None => None,
                }
            } else {
                match skipped_value(r1) {
                    Some(r2) => Some((acc, r2)),
                    None => None,
                }
            };
            match stepped {
                None => None,
                Some((acc2, r2)) => match member_sep(r2) {
                    None => None,
                    Some((more, r3)) => {
                        if more {
                            if r3.len() < s.len() {
                                status_members(r3, acc2)
                            } else {
                                None
                            }
                        } else {
                            Some((acc2, r3))
                        }
                    },
                },
            }
        },
    }
}

/// A status object: its code, 0 when absent.
pub open spec fn status_obj(s: Seq<char>) -> Option<(u32, Seq<char>)> {
    if s.len() > 0 && s[0] == '{' {
        let r = strip_ws(s.drop_first());
        if r.len() > 0 && r[0] == '}' {
            Some((0u32, r.drop_first()))
        } else {
            status_members(r, 0u32)
        }
    } else {
        None
    }
}

pub open spec fn empty_span() -> SpanModel {
    SpanModel { name: Seq::empty(), status_code: 0, events: Seq::empty() }
}

/// Members of a span object.
pub open spec fn span_members(s: Seq<char>, acc: SpanModel) -> Option<(SpanModel, Seq<char>)>
    decreases s.len(),
{
    match member_key(s) {
        None => None,
        Some((k, r1)) => {
            let stepped: Option<(SpanModel, Seq<char>)> = if k == "name"@ {
                match text_token(r1) {
                    Some((t, r2)) => Some(
                        (SpanModel { name: t, status_code: acc.status_code, events: acc.events }, r2),
                    ),
                    None => None,
                }
            } else if k == "status"@ {
                match status_obj(r1) {
                    Some((c, r2)) => Some(
                        (SpanModel { name: acc.name, status_code: c, events: acc.events }, r2),
                    ),
                    None => None,
                }
            } else if k == "events"@ {
                match event_list(r1) {
                    Some((es, r2)) => Some(
                        (SpanModel { name: acc.name, status_code: acc.status_code, events: es }, r2),
                    ),
                    None => None,
                }
            } else {
                match skipped_value(r1) {
                    Some(r2) => Some((acc, r2)),
                    None => None,
                }
            };
            match stepped {
                None => None,
                Some((acc2, r2)) => match member_sep(r2) {
                    None => None,
                    Some((more, r3)) => {
                        if more {
                            if r3.len() < s.len() {
                                span_members(r3, acc2)
                            } else {
                                None
                            }
                        } else {
                            Some((acc2, r3))
                        }
                    },
                },
            }
        },
    }
}

/// A span object.
pub open spec fn span_obj(s: Seq<char>) -> Option<(SpanModel, Seq<char>)> {
    if s.len() > 0 && s[0] == '{' {
        let r = strip_ws(s.drop_first());
        if r.len() > 0 && r[0] == '}' {
            Some((empty_span(), r.drop_first()))
        } else {
            span_members(r, empty_span())
        }
    } else {
        None
    }
}

/// Elements of a span array, first element expected.
pub open spec fn span_items(s: Seq<char>) -> Option<(Seq<SpanModel>, Seq<char>)>
    decreases s.len(),
{
    match span_obj(s) {
        None => None,
        Some((sp, r1)) => match element_sep(r1) {
            None => None,
            Some((more, r2)) => {
                if more {
                    if r2.len() < s.len() {
                        match span_items(r2) {
                            Some((rest_items, r3)) => Some((seq![sp] + rest_items, r3)),
                            None => None,
                        }
                    } else {
                        None
                    }
                } else {
                    Some((seq![sp], r2))
                }
            },
        },
    }
}

/// A span array.
pub open spec fn span_list(s: Seq<char>) -> Option<(Seq<SpanModel>, Seq<char>)> {
    if s.len() > 0 && s[0] == '[' {
        let r = strip_ws(s.drop_first());
        if r.len() > 0 && r[0] == ']' {
            Some((Seq::empty(), r.drop_first()))
        } else {
            span_items(r)
        }
    } else {
        None
    }
}

pub open spec fn empty_scope_span() -> ScopeSpanModel {
    ScopeSpanModel { spans: Seq::empty() }
}

/// Members of a scope span object; only `spans` is kept.
pub open spec fn scope_span_members(s: Seq<char>, acc: ScopeSpanModel) -> Option<
    (ScopeSpanModel, Seq<char>),
>
    decreases s.len(),
{
    match member_key(s) {
        None => None,
        Some((k, r1)) => {
            let stepped: Option<(ScopeSpanModel, Seq<char>)> = if k == "spans"@ {
                match span_list(r1) {
                    Some((sps, r2)) => Some((ScopeSpanModel { spans: sps }, r2)),
                    None => None,
                }
            } else {
                match skipped_value(r1) {
                    Some(r2) => Some((acc, r2)),
                    None => None,
                }
            };
            match stepped {
                None => None,
                Some((acc2, r2)) => match member_sep(r2) {
                    None => None,
                    Some((more, r3)) => {
                        if more {
                            if r3.len() < s.len() {
                                scope_span_members(r3, acc2)
                            } else {
                                None
                            }
                        } else {
                            Some((acc2, r3))
                        }
                    },
                },
            }
        },
    }
}

/// A scope span object.
pub open spec fn scope_span_obj(s: Seq<char>) -> Option<(ScopeSpanModel, Seq<char>)> {
    if s.len() > 0 && s[0] == '{' {
        let r = strip_ws(s.drop_first());
        if r.len() > 0 && r[0] == '}' {
            Some((empty_scope_span(), r.drop_first()))
        } else {
            scope_span_members(r, empty_scope_span())
        }
    } else {
        None
    }
}

/// Elements of a scope span array, first element expected.
pub open spec fn scope_span_items(s: Seq<char>) -> Option<(Seq<ScopeSpanModel>, Seq<char>)>
    decreases s.len(),
{
    match scope_span_obj(s) {
        None => None,
        Some((sc, r1)) => match element_sep(r1) {
            None => None,
            Some((more, r2)) => {
                if more {
                    if r2.len() < s.len() {
                        match scope_span_items(r2) {
                            Some((rest_items, r3)) => Some((seq![sc] + rest_items, r3)),
                            None => None,
                        }
                    } else {
                        None
                    }
                } else {
                    Some((seq![sc], r2))
                }
            },
        },
    }
}

/// A scope span array.
pub open spec fn scope_span_list(s: Seq<char>) -> Option<(Seq<ScopeSpanModel>, Seq<char>)> {
    if s.len() > 0 && s[0] == '[' {
        let r = strip_ws(s.drop_first());
        if r.len() > 0 && r[0] == ']' {
            Some((Seq::empty(), r.drop_first()))
        } else {
            scope_span_items(r)
        }
    } else {
        None
    }
}

/// Members of a resource object; only `attributes` is kept.
pub open spec fn resource_members(s: Seq<char>, acc: Seq<AttributeModel>) -> Option<
    (Seq<AttributeModel>, Seq<char>),
>
    decreases s.len(),
{
    match member_key(s) {
        None => None,
        Some((k, r1)) => {
            let stepped: Option<(Seq<AttributeModel>, Seq<char>)> = if k == "attributes"@ {
                match attribute_list(r1) {
                    Some((attrs, r2)) => Some((attrs, r2)),
                    None => None,
                }
            } else {
                match skipped_value(r1) {
                    Some(r2) => Some((acc, r2)),
                    None => None,
                }
            };
            match stepped {
                None => None,
                Some((acc2, r2)) => match member_sep(r2) {
                    None => None,
                    Some((more, r3)) => {
                        if more {
                            if r3.len() < s.len() {
                                resource_members(r3, acc2)
                            } else {
                                None
                            }
                        } else {
                            Some((acc2, r3))
                        }
                    },
                },
            }
        },
    }
}

/// A resource object: its attributes.
pub open spec fn resource_obj(s: Seq<char>) -> Option<(Seq<AttributeModel>, Seq<char>)> {
    if s.len() > 0 && s[0] == '{' {
        let r = strip_ws(s.drop_first());
        if r.len() > 0 && r[0] == '}' {
            Some((Seq::empty(), r.drop_first()))
        } else {
            resource_members(r, Seq::empty())
        }
    } else {
        None
    }
}

pub open spec fn empty_resource_span() -> ResourceSpanModel {
    ResourceSpanModel { attributes: Seq::empty(), scope_spans: Seq::empty() }
}

/// Members of a resource span object.
pub open spec fn resource_span_members(s: Seq<char>, acc: ResourceSpanModel) -> Option<
    (ResourceSpanModel, Seq<char>),
>
    decreases s.len(),
{
    match member_key(s) {
        None => None,
        Some((k, r1)) => {
            let stepped: Option<(ResourceSpanModel, Seq<char>)> = if k == "resource"@ {
                match resource_obj(r1) {
                    Some((attrs, r2)) => Some(
                        (ResourceSpanModel { attributes: attrs, scope_spans: acc.scope_spans }, r2),
                    ),
                    None => None,
                }
            } else if k == "scopeSpans"@ {
                match scope_span_list(r1) {
                    Some((scs, r2)) => Some(
                        (ResourceSpanModel { attributes: acc.attributes, scope_spans: scs }, r2),
                    ),
                    None => None,
                }
            } else {
                match skipped_value(r1) {
                    Some(r2) => Some((acc, r2)),
                    None => None,
                }
            };
            match stepped {
                None => None,
                Some((acc2, r2)) => match member_sep(r2) {
                    None => None,
                    Some((more, r3)) => {
                        if more {
                            if r3.len() < s.len() {
                                resource_span_members(r3, acc2)
                            } else {
                                None
                            }
                        } else {
                            Some((acc2, r3))
                        }
                    },
                },
            }
        },
    }
}

/// A resource span object.
pub open spec fn resource_span_obj(s: Seq<char>) -> Option<(ResourceSpanModel, Seq<char>)> {
    if s.len() > 0 && s[0] == '{' {
        let r = strip_ws(s.drop_first());
        if r.len() > 0 && r[0] == '}' {
            Some((empty_resource_span(), r.drop_first()))
        } else {
            resource_span_members(r, empty_resource_span())
        }
    } else {
        None
    }
}

/// Elements of a resource span array, first element expected.
pub open spec fn resource_span_items(s: Seq<char>) -> Option<(Seq<ResourceSpanModel>, Seq<char>)>
    decreases s.len(),
{
    match resource_span_obj(s) {
        None => None,
        Some((rs, r1)) => match element_sep(r1) {
            None => None,
            Some((more, r2)) => {
                if more {
                    if r2.len() < s.len() {
                        match resource_span_items(r2) {
                            Some((rest_items, r3)) => Some((seq![rs] + rest_items, r3)),
                            None => None,
                        }
                    } else {
                        None
                    }
                } else {
                    Some((seq![rs], r2))
                }
            },
        },
    }
}

/// A resource span array.
pub open spec fn resource_span_list(s: Seq<char>) -> Option<(Seq<ResourceSpanModel>, Seq<char>)> {
    if s.len() > 0 && s[0] == '[' {
        let r = strip_ws(s.drop_first());
        if r.len() > 0 && r[0] == ']' {
            Some((Seq::empty(), r.drop_first()))
        } else {
            resource_span_items(r)
        }
    } else {
        None
    }
}

pub open spec fn empty_record() -> TraceRecordModel {
    TraceRecordModel { resource_spans: Seq::empty() }
}

/// Members of the top-level record object; only `resourceSpans` is kept.
pub open spec fn record_members(s: Seq<char>, acc: TraceRecordModel) -> Option<
    (TraceRecordModel, Seq<char>),
>
    decreases s.len(),
{
    match member_key(s) {
        None => None,
        Some((k, r1)) => {
            let stepped: Option<(TraceRecordModel, Seq<char>)> = if k == "resourceSpans"@ {
                match resource_span_list(r1) {
                    Some((rss, r2)) => Some((TraceRecordModel { resource_spans: rss }, r2)),
                    None => None,
                }
            } else {
                match skipped_value(r1) {
                    Some(r2) => Some((acc, r2)),
                    None => None,
                }
            };
            match stepped {
                None => None,
                Some((acc2, r2)) => match member_sep(r2) {
                    None => None,
                    Some((more, r3)) => {
                        if more {
                            if r3.len() < s.len() {
                                record_members(r3, acc2)
                            } else {
                                None
                            }
                        } else {
                            Some((acc2, r3))
                        }
                    },
                },
            }
        },
    }
}

/// The top-level record object.
pub open spec fn record_obj(s: Seq<char>) -> Option<(TraceRecordModel, Seq<char>)> {
    if s.len() > 0 && s[0] == '{' {
        let r = strip_ws(s.drop_first());
        if r.len() > 0 && r[0] == '}' {
            Some((empty_record(), r.drop_first()))
        } else {
            record_members(r, empty_record())
        }
    } else {
        None
    }
}

/// A whole export line: one record object, surrounded only by whitespace.
pub open spec fn record_line(s: Seq<char>) -> Option<TraceRecordModel> {
    match record_obj(strip_ws(s)) {
        Some((m, rest)) => {
            if strip_ws(rest).len() == 0 {
                Some(m)
            } else {
                None
            }
        },
        None => None,
    }
}

} // verus!
