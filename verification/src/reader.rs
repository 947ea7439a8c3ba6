//! The executable export reader: parses one export line into a
//! `TraceRecord`, exactly as the grammar module specifies.
//!
//! Parsing works over a character vector with a cursor; every function's
//! contract ties its result to the corresponding grammar function applied to
//! the suffix at the cursor.

use vstd::prelude::*;

use crate::grammar;
use crate::model::{Attribute, Event, ResourceSpan, ScopeSpan, Span, TraceRecord};
use crate::strutil::{chars_to_string, str_eq};
use vstd::string::StrSliceExecFns;

verus! {

proof fn lemma_skip_unstep(s: Seq<char>, j: int)
    requires
        0 <= j < s.len(),
    ensures
        s.skip(j).drop_first() == s.skip(j + 1),
        s.skip(j)[0] == s[j],
        s.skip(j).len() == s.len() - j,
{
    assert(s.skip(j).drop_first() =~= s.skip(j + 1));
}

proof fn lemma_skip_two(s: Seq<char>, j: int)
    requires
        0 <= j,
        j + 2 <= s.len(),
    ensures
        s.skip(j).skip(2) == s.skip(j + 2),
        s.skip(j)[1] == s[j + 1],
{
    assert(s.skip(j).skip(2) =~= s.skip(j + 2));
}

fn is_ws_char(c: char) -> (r: bool)
    ensures
        r == grammar::is_ws(c),
{
    c == ' ' || c == '\t' || c == '\r' || c == '\n'
}

fn is_digit_char(c: char) -> (r: bool)
    ensures
        r == grammar::is_digit(c),
{
    ('0' as u32) <= (c as u32) && (c as u32) <= ('9' as u32)
}

fn is_number_char(c: char) -> (r: bool)
    ensures
        r == grammar::is_number_char(c),
{
    is_digit_char(c) || c == '-' || c == '+' || c == '.' || c == 'e' || c == 'E'
}

fn unescape_char(c: char) -> (r: Option<char>)
    ensures
        r == grammar::escape_of(c),
{
    if c == '"' {
        Some('"')
    } else if c == '\\' {
        Some('\\')
    } else if c == '/' {
        Some('/')
    } else if c == 'n' {
        Some('\n')
    } else if c == 't' {
        Some('\t')
    } else if c == 'r' {
        Some('\r')
    } else if c == 'b' {
        Some('\u{8}')
    } else if c == 'f' {
        Some('\u{c}')
    } else {
        None
    }
}

/// Advance past whitespace.
fn skip_ws(s: &Vec<char>, i: usize) -> (j: usize)
    requires
        i <= s@.len(),
    ensures
        i <= j <= s@.len(),
        s@.skip(j as int) == grammar::strip_ws(s@.skip(i as int)),
{
    let mut j: usize = i;
    loop
        invariant
            i <= j <= s@.len(),
            grammar::strip_ws(s@.skip(i as int)) == grammar::strip_ws(s@.skip(j as int)),
        decreases s@.len() - j,
    {
        if j >= s.len() {
            return j;
        }
        let c = s[j];
        proof {
            lemma_skip_unstep(s@, j as int);
        }
        if !is_ws_char(c) {
            return j;
        }
        j = j + 1;
    }
}

/// Parse a string token at `i`.
fn parse_text(s: &Vec<char>, i: usize) -> (r: Option<(String, usize)>)
    requires
        i <= s@.len(),
    ensures
        r matches Some((t, j)) ==> i < j <= s@.len() && grammar::text_token(s@.skip(i as int))
            == Some((t@, s@.skip(j as int))),
        r is None ==> grammar::text_token(s@.skip(i as int)) is None,
{
    proof {
        if (i as int) < s@.len() {
            lemma_skip_unstep(s@, i as int);
        }
    }
    if i >= s.len() {
        return None;
    }
    if s[i] != '"' {
        return None;
    }
    let mut acc: Vec<char> = Vec::new();
    let mut j: usize = i + 1;
    loop
        invariant
            i + 1 <= j <= s@.len(),
            (match grammar::text_body(s@.skip(j as int)) {
                Some((t, rest)) => grammar::text_body(s@.skip(i as int + 1)) == Some(
                    (acc@ + t, rest),
                ),
                None => grammar::text_body(s@.skip(i as int + 1)) is None,
            }),
            grammar::text_token(s@.skip(i as int)) == grammar::text_body(s@.skip(i as int + 1)),
        decreases s@.len() - j,
    {
        if j >= s.len() {
            return None;
        }
        let c = s[j];
        proof {
            lemma_skip_unstep(s@, j as int);
        }
        if c == '"' {
            let t = chars_to_string(&acc);
            proof {
                assert(acc@ + Seq::<char>::empty() =~= acc@);
            }
            return Some((t, j + 1));
        } else if c == '\\' {
            if j + 1 >= s.len() {
                return None;
            }
            let e = s[j + 1];
            proof {
                lemma_skip_two(s@, j as int);
            }
            match unescape_char(e) {
                None => {
                    return None;
                },
                Some(u) => {
                    let ghost old_acc = acc@;
                    acc.push(u);
                    proof {
                        match grammar::text_body(s@.skip(j as int + 2)) {
                            Some((t, rest)) => {
                                assert(acc@ + t =~= old_acc + (seq![u] + t));
                            },
                            None => {},
                        }
                    }
                    j = j + 2;
                },
            }
        } else if (c as u32) < 0x20 {
            return None;
        } else {
            let ghost old_acc = acc@;
            acc.push(c);
            proof {
                match grammar::text_body(s@.skip(j as int + 1)) {
                    Some((t, rest)) => {
                        assert(acc@ + t =~= old_acc + (seq![c] + t));
                    },
                    None => {},
                }
            }
            j = j + 1;
        }
    }
}

pub open spec fn ten_pow(n: int) -> int
    decreases n,
{
    if n <= 0 {
        1
    } else {
        10 * ten_pow(n - 1)
    }
}

pub proof fn lemma_ten_pow_values()
    ensures
        ten_pow(10) == 10000000000,
        forall|n: int| 0 <= n <= 9 ==> #[trigger] ten_pow(n) <= 1000000000,
{
    reveal_with_fuel(ten_pow, 12);
    assert forall|n: int| 0 <= n <= 9 implies #[trigger] ten_pow(n) <= 1000000000 by {
        reveal_with_fuel(ten_pow, 12);
        if n == 0 {
        } else if n == 1 {
        } else if n == 2 {
        } else if n == 3 {
        } else if n == 4 {
        } else if n == 5 {
        } else if n == 6 {
        } else if n == 7 {
        } else if n == 8 {
        } else {
            assert(n == 9);
        }
    }
}

proof fn lemma_digits_value_bound(s: Seq<char>, n: int)
    requires
        0 <= n <= s.len(),
        forall|k: int| 0 <= k < n ==> grammar::is_digit(#[trigger] s[k]),
    ensures
        0 <= grammar::digits_value(s, n) < ten_pow(n),
    decreases n,
{
    if n > 0 {
        lemma_digits_value_bound(s, n - 1);
        assert(grammar::digit_of(s[n - 1]) <= 9);
    }
}

/// Advance past a run of digits.
fn digit_run(s: &Vec<char>, i: usize) -> (j: usize)
    requires
        i <= s@.len(),
    ensures
        i <= j <= s@.len(),
        grammar::digit_count(s@.skip(i as int)) == j - i,
        forall|k: int| 0 <= k < j - i ==> grammar::is_digit(#[trigger] s@.skip(i as int)[k]),
    decreases s@.len() - i,
{
    if i >= s.len() {
        return i;
    }
    let c = s[i];
    proof {
        lemma_skip_unstep(s@, i as int);
    }
    if !is_digit_char(c) {
        return i;
    }
    let j = digit_run(s, i + 1);
    proof {
        assert forall|k: int| 0 <= k < j - i implies grammar::is_digit(
            #[trigger] s@.skip(i as int)[k],
        ) by {
            if k == 0 {
                assert(s@.skip(i as int)[0] == s@[i as int]);
            } else {
                assert(s@.skip(i as int)[k] == s@.skip(i as int + 1)[k - 1]);
            }
        }
    }
    j
}

/// Parse an unsigned integer token (at most ten digits, fits a `u32`).
fn parse_code(s: &Vec<char>, i: usize) -> (r: Option<(u32, usize)>)
    requires
        i <= s@.len(),
    ensures
        r matches Some((v, j)) ==> i < j <= s@.len() && grammar::code_token(s@.skip(i as int))
            == Some((v, s@.skip(j as int))),
        r is None ==> grammar::code_token(s@.skip(i as int)) is None,
{
    let ghost suff = s@.skip(i as int);
    let j = digit_run(s, i);
    let n = j - i;
    if n < 1 || n > 10 {
        return None;
    }
    // Accumulate the value.
    proof {
        lemma_ten_pow_values();
    }
    let mut acc: u64 = 0;
    let mut k: usize = i;
    while k < j
        invariant
            i <= k <= j <= s@.len(),
            j - i <= 10,
            suff == s@.skip(i as int),
            forall|q: int| 0 <= q < j - i ==> grammar::is_digit(#[trigger] suff[q]),
            acc == grammar::digits_value(suff, k - i),
            acc < ten_pow(10),
            ten_pow(10) == 10000000000,
            forall|q: int| 0 <= q <= 9 ==> #[trigger] ten_pow(q) <= 1000000000,
        decreases j - k,
    {
        let c = s[k];
        proof {
            assert(suff[k - i] == s@[k as int]);
            lemma_digits_value_bound(suff, k - i);
            assert(acc < ten_pow(k - i));
            assert(ten_pow(k - i) <= 1000000000);
        }
        proof {
            assert(grammar::is_digit(c));
        }
        let d32: u32 = (c as u32) - ('0' as u32);
        let d: u64 = d32 as u64;
        proof {
            assert(grammar::digit_of(suff[k - i]) == d);
        }
        acc = acc * 10 + d;
        k = k + 1;
        proof {
            lemma_digits_value_bound(suff, k - i);
        }
    }
    if acc > 0xFFFFFFFFu64 {
        proof {
            assert(grammar::digits_value(suff, grammar::digit_count(suff)) > u32::MAX);
        }
        return None;
    }
    let v: u32 = acc as u32;
    Some((v, j))
}

/// Skip past a string body whose opening quote has been consumed.
fn skip_text(s: &Vec<char>, i: usize) -> (r: Option<usize>)
    requires
        i <= s@.len(),
    ensures
        r matches Some(j) ==> i < j <= s@.len() && grammar::skip_text(s@.skip(i as int)) == Some(
            s@.skip(j as int),
        ),
        r is None ==> grammar::skip_text(s@.skip(i as int)) is None,
{
    let mut j: usize = i;
    loop
        invariant
            i <= j <= s@.len(),
            grammar::skip_text(s@.skip(i as int)) == grammar::skip_text(s@.skip(j as int)),
        decreases s@.len() - j,
    {
        if j >= s.len() {
            return None;
        }
        let c = s[j];
        proof {
            lemma_skip_unstep(s@, j as int);
        }
        if c == '"' {
            return Some(j + 1);
        } else if c == '\\' {
            if j + 1 >= s.len() {
                return None;
            }
            proof {
                lemma_skip_two(s@, j as int);
            }
            j = j + 2;
        } else {
            j = j + 1;
        }
    }
}

/// Skip past the rest of a composite value whose opening bracket has been
/// consumed.
fn skip_composite(s: &Vec<char>, i: usize) -> (r: Option<usize>)
    requires
        1 <= i <= s@.len(),
    ensures
        r matches Some(j) ==> i < j <= s@.len() && grammar::skip_composite(s@.skip(i as int), 1)
            == Some(s@.skip(j as int)),
        r is None ==> grammar::skip_composite(s@.skip(i as int), 1) is None,
{
    let mut j: usize = i;
    let mut depth: usize = 1;
    loop
        invariant
            1 <= i <= j <= s@.len(),
            1 <= depth,
            depth <= 1 + (j - i),
            grammar::skip_composite(s@.skip(i as int), 1) == grammar::skip_composite(
                s@.skip(j as int),
                depth as int,
            ),
        decreases s@.len() - j,
    {
        if j >= s.len() {
            return None;
        }
        let c = s[j];
        proof {
            lemma_skip_unstep(s@, j as int);
        }
        if c == '{' || c == '[' {
            proof {
                assert(j < s@.len());
                assert(depth <= 1 + (j - i));
                assert(depth < s@.len());
            }
            depth = depth + 1;
            j = j + 1;
        } else if c == '}' || c == ']' {
            if depth == 1 {
                return Some(j + 1);
            }
            depth = depth - 1;
            j = j + 1;
        } else if c == '"' {
            match skip_text(s, j + 1) {
                None => {
                    return None;
                },
                Some(j2) => {
                    proof {
                        assert(s@.skip(j2 as int).len() < s@.skip(j as int).len());
                    }
                    j = j2;
                },
            }
        } else {
            j = j + 1;
        }
    }
}

/// Advance past a run of number characters.
fn skip_number(s: &Vec<char>, i: usize) -> (j: usize)
    requires
        i <= s@.len(),
    ensures
        i <= j <= s@.len(),
        s@.skip(j as int) == grammar::strip_number(s@.skip(i as int)),
{
    let mut j: usize = i;
    loop
        invariant
            i <= j <= s@.len(),
            grammar::strip_number(s@.skip(i as int)) == grammar::strip_number(s@.skip(j as int)),
        decreases s@.len() - j,
    {
        if j >= s.len() {
            return j;
        }
        let c = s[j];
        proof {
            lemma_skip_unstep(s@, j as int);
        }
        if !is_number_char(c) {
            return j;
        }
        j = j + 1;
    }
}

/// Whether the characters `p` occur at position `i` of `s`.
fn has_prefix(s: &Vec<char>, i: usize, p: &str) -> (r: bool)
    requires
        i <= s@.len(),
    ensures
        r == grammar::starts_with(s@.skip(i as int), p@),
{
    let n = p.unicode_len();
    if n > s.len() - i {
        return false;
    }
    let mut k: usize = 0;
    let slen = s.len();
    while k < n
        invariant
            0 <= k <= n,
            n == p@.len(),
            i + n <= s@.len(),
            slen == s@.len(),
            forall|q: int| 0 <= q < k ==> s@[i + q] == p@[q],
        decreases n - k,
    {
        if s[i + k] != p.get_char(k) {
            proof {
                assert(s@.skip(i as int)[k as int] == s@[i + k]);
                assert(!grammar::starts_with(s@.skip(i as int), p@)) by {
                    if grammar::starts_with(s@.skip(i as int), p@) {
                        assert(s@.skip(i as int).take(p@.len() as int)[k as int] == p@[k as int]);
                    }
                };
            }
            return false;
        }
        k = k + 1;
    }
    proof {
        assert(s@.skip(i as int).take(p@.len() as int) =~= p@);
    }
    true
}

proof fn lemma_strip_number_len(s: Seq<char>)
    ensures
        grammar::strip_number(s).len() <= s.len(),
    decreases s.len(),
{
    if s.len() > 0 && grammar::is_number_char(s[0]) {
        lemma_strip_number_len(s.drop_first());
    }
}

/// Skip one value of any kind.
fn skip_value(s: &Vec<char>, i: usize) -> (r: Option<usize>)
    requires
        i <= s@.len(),
    ensures
        r matches Some(j) ==> i < j <= s@.len() && grammar::skipped_value(s@.skip(i as int))
            == Some(s@.skip(j as int)),
        r is None ==> grammar::skipped_value(s@.skip(i as int)) is None,
{
    if i >= s.len() {
        return None;
    }
    let c = s[i];
    proof {
        lemma_skip_unstep(s@, i as int);
    }
    if c == '"' {
        skip_text(s, i + 1)
    } else if c == '{' || c == '[' {
        skip_composite(s, i + 1)
    } else if is_number_char(c) {
        let j = skip_number(s, i);
        proof {
            assert(s@.skip(i as int)[0] == s@[i as int]);
            lemma_strip_number_len(s@.skip(i as int + 1));
            assert(grammar::strip_number(s@.skip(i as int)) == grammar::strip_number(
                s@.skip(i as int + 1),
            ));
            assert(s@.skip(j as int).len() < s@.skip(i as int).len());
        }
        Some(j)
    } else if has_prefix(s, i, "true") {
        proof {
            reveal_strlit("true");
            assert(s@.skip(i as int).skip(4) =~= s@.skip(i as int + 4));
        }
        Some(i + 4)
    } else if has_prefix(s, i, "false") {
        proof {
            reveal_strlit("false");
            reveal_strlit("true");
            assert(s@.skip(i as int).skip(5) =~= s@.skip(i as int + 5));
        }
        Some(i + 5)
    } else if has_prefix(s, i, "null") {
        proof {
            reveal_strlit("null");
            reveal_strlit("true");
            reveal_strlit("false");
            assert(s@.skip(i as int).skip(4) =~= s@.skip(i as int + 4));
        }
        Some(i + 4)
    } else {
        proof {
            reveal_strlit("true");
            reveal_strlit("false");
            reveal_strlit("null");
        }
        None
    }
}

} // verus!

verus! {

/// The view of an optional string.
pub open spec fn opt_text_view(v: Option<String>) -> Option<Seq<char>> {
    match v {
        Some(t) => Some(t@),
        None => None,
    }
}

/// Parse a member key and its colon; the returned cursor is at the value.
fn parse_member_key(s: &Vec<char>, i: usize) -> (r: Option<(String, usize)>)
    requires
        i <= s@.len(),
    ensures
        r matches Some((k, v)) ==> i < v <= s@.len() && grammar::member_key(s@.skip(i as int))
            == Some((k@, s@.skip(v as int))),
        r is None ==> grammar::member_key(s@.skip(i as int)) is None,
{
    match parse_text(s, i) {
        None => None,
        Some((k, j1)) => {
            let c1 = skip_ws(s, j1);
            if c1 < s.len() {
                let ch = s[c1];
                proof {
                    lemma_skip_unstep(s@, c1 as int);
                }
                if ch == ':' {
                    let v = skip_ws(s, c1 + 1);
                    return Some((k, v));
                }
            }
            None
        },
    }
}

/// After a member's value: `(true, cursor at next key)` or
/// `(false, cursor after the closing brace)`.
fn parse_member_sep(s: &Vec<char>, i: usize) -> (r: Option<(bool, usize)>)
    requires
        i <= s@.len(),
    ensures
        r matches Some((more, j)) ==> i < j <= s@.len() && grammar::member_sep(s@.skip(i as int))
            == Some((more, s@.skip(j as int))),
        r is None ==> grammar::member_sep(s@.skip(i as int)) is None,
{
    let p = skip_ws(s, i);
    if p >= s.len() {
        return None;
    }
    let c = s[p];
    proof {
        lemma_skip_unstep(s@, p as int);
    }
    if c == ',' {
        let n = skip_ws(s, p + 1);
        Some((true, n))
    } else if c == '}' {
        Some((false, p + 1))
    } else {
        None
    }
}

/// After an array element: `(true, cursor at next element)` or
/// `(false, cursor after the closing bracket)`.
fn parse_element_sep(s: &Vec<char>, i: usize) -> (r: Option<(bool, usize)>)
    requires
        i <= s@.len(),
    ensures
        r matches Some((more, j)) ==> i < j <= s@.len() && grammar::element_sep(s@.skip(i as int))
            == Some((more, s@.skip(j as int))),
        r is None ==> grammar::element_sep(s@.skip(i as int)) is None,
{
    let p = skip_ws(s, i);
    if p >= s.len() {
        return None;
    }
    let c = s[p];
    proof {
        lemma_skip_unstep(s@, p as int);
    }
    if c == ',' {
        let n = skip_ws(s, p + 1);
        Some((true, n))
    } else if c == ']' {
        Some((false, p + 1))
    } else {
        None
    }
}

/// Members of an attribute value object.
fn parse_any_value_members(s: &Vec<char>, i: usize, val: Option<String>) -> (r: Option<
    (Option<String>, usize),
>)
    requires
        i <= s@.len(),
    ensures
        r matches Some((v2, j)) ==> i < j <= s@.len() && grammar::any_value_members(
            s@.skip(i as int),
            opt_text_view(val),
        ) == Some((opt_text_view(v2), s@.skip(j as int))),
        r is None ==> grammar::any_value_members(s@.skip(i as int), opt_text_view(val)) is None,
    decreases s@.len() - i,
{
    match parse_member_key(s, i) {
        None => None,
        Some((k, v)) => {
            let val2: Option<String>;
            let j2: usize;
            if str_eq(k.as_str(), "stringValue") {
                match parse_text(s, v) {
                    None => {
                        return None;
                    },
                    Some((t, j)) => {
                        val2 = Some(t);
                        j2 = j;
                    },
                }
            } else {
                match skip_value(s, v) {
                    None => {
                        return None;
                    },
                    Some(j) => {
                        val2 = val;
                        j2 = j;
                    },
                }
            }
            match parse_member_sep(s, j2) {
                None => None,
                Some((more, j3)) => {
                    if more {
                        if j3 <= i {
                            return None;
                        }
                        parse_any_value_members(s, j3, val2)
                    } else {
                        Some((val2, j3))
                    }
                },
            }
        },
    }
}

/// An attribute value object: its string value, if any.
fn parse_any_value_obj(s: &Vec<char>, i: usize) -> (r: Option<(Option<String>, usize)>)
    requires
        i <= s@.len(),
    ensures
        r matches Some((v2, j)) ==> i < j <= s@.len() && grammar::any_value_obj(s@.skip(i as int))
            == Some((opt_text_view(v2), s@.skip(j as int))),
        r is None ==> grammar::any_value_obj(s@.skip(i as int)) is None,
{
    if i >= s.len() {
        return None;
    }
    let c = s[i];
    proof {
        lemma_skip_unstep(s@, i as int);
    }
    if c != '{' {
        return None;
    }
    let r = skip_ws(s, i + 1);
    if r < s.len() {
        let c2 = s[r];
        proof {
            lemma_skip_unstep(s@, r as int);
        }
        if c2 == '}' {
            return Some((None, r + 1));
        }
    }
    parse_any_value_members(s, r, None)
}

/// Members of an attribute object.
fn parse_attribute_members(s: &Vec<char>, i: usize, key: String, val: Option<String>) -> (r: Option<
    ((String, Option<String>), usize),
>)
    requires
        i <= s@.len(),
    ensures
        r matches Some(((k2, v2), j)) ==> i < j <= s@.len() && grammar::attribute_members(
            s@.skip(i as int),
            key@,
            opt_text_view(val),
        ) == Some(((k2@, opt_text_view(v2)), s@.skip(j as int))),
        r is None ==> grammar::attribute_members(s@.skip(i as int), key@, opt_text_view(val))
            is None,
    decreases s@.len() - i,
{
    match parse_member_key(s, i) {
        None => None,
        Some((k, v)) => {
            let key2: String;
            let val2: Option<String>;
            let j2: usize;
            if str_eq(k.as_str(), "key") {
                match parse_text(s, v) {
                    None => {
                        return None;
                    },
                    Some((t, j)) => {
                        key2 = t;
                        val2 = val;
                        j2 = j;
                    },
                }
            } else if str_eq(k.as_str(), "value") {
                match parse_any_value_obj(s, v) {
                    None => {
                        return None;
                    },
                    Some((v2, j)) => {
                        key2 = key;
                        val2 = v2;
                        j2 = j;
                    },
                }
            } else {
                match skip_value(s, v) {
                    None => {
                        return None;
                    },
                    Some(j) => {
                        key2 = key;
                        val2 = val;
                        j2 = j;
                    },
                }
            }
            match parse_member_sep(s, j2) {
                None => None,
                Some((more, j3)) => {
                    if more {
                        if j3 <= i {
                            return None;
                        }
                        parse_attribute_members(s, j3, key2, val2)
                    } else {
                        Some(((key2, val2), j3))
                    }
                },
            }
        },
    }
}

/// The view of an optional attribute.
pub open spec fn opt_attribute_view(a: Option<Attribute>) -> Option<
    crate::model::AttributeModel,
> {
    match a {
        Some(attr) => Some(attr@),
        None => None,
    }
}

/// An attribute object; `None` when it has no string value.
fn parse_attribute_obj(s: &Vec<char>, i: usize) -> (r: Option<(Option<Attribute>, usize)>)
    requires
        i <= s@.len(),
    ensures
        r matches Some((a, j)) ==> i < j <= s@.len() && grammar::attribute_obj(s@.skip(i as int))
            == Some((opt_attribute_view(a), s@.skip(j as int))),
        r is None ==> grammar::attribute_obj(s@.skip(i as int)) is None,
{
    if i >= s.len() {
        return None;
    }
    let c = s[i];
    proof {
        lemma_skip_unstep(s@, i as int);
    }
    if c != '{' {
        return None;
    }
    let r = skip_ws(s, i + 1);
    if r < s.len() {
        let c2 = s[r];
        proof {
            lemma_skip_unstep(s@, r as int);
        }
        if c2 == '}' {
            return Some((None, r + 1));
        }
    }
    match parse_attribute_members(s, r, String::new(), None) {
        None => None,
        Some(((k2, v2), j)) => match v2 {
            Some(v) => Some((Some(Attribute { key: k2, value: v }), j)),
            None => Some((None, j)),
        },
    }
}

/// Elements of an attribute array; attributes without string values are
/// dropped.
fn parse_attribute_items(s: &Vec<char>, i: usize) -> (r: Option<(Vec<Attribute>, usize)>)
    requires
        i <= s@.len(),
    ensures
        r matches Some((items, j)) ==> i < j <= s@.len() && grammar::attribute_items(
            s@.skip(i as int),
        ) == Some((items@.map_values(|a: Attribute| a@), s@.skip(j as int))),
        r is None ==> grammar::attribute_items(s@.skip(i as int)) is None,
    decreases s@.len() - i,
{
    match parse_attribute_obj(s, i) {
        None => None,
        Some((a, j1)) => match parse_element_sep(s, j1) {
            None => None,
            Some((more, j2)) => {
                if more {
                    if j2 <= i {
                        return None;
                    }
                    match parse_attribute_items(s, j2) {
                        None => None,
                        Some((mut items, j3)) => {
                            let ghost old_items = items@;
                            match a {
                                Some(attr) => {
                                    items.insert(0, attr);
                                    proof {
                                        assert(items@.map_values(|x: Attribute| x@) =~= seq![
                                            attr@,
                                        ] + old_items.map_values(|x: Attribute| x@));
                                    }
                                },
                                None => {
                                    proof {
                                        assert(items@.map_values(|x: Attribute| x@)
                                            =~= Seq::<crate::model::AttributeModel>::empty()
                                            + old_items.map_values(|x: Attribute| x@));
                                    }
                                },
                            }
                            Some((items, j3))
                        },
                    }
                } else {
                    let mut items: Vec<Attribute> = Vec::new();
                    match a {
                        Some(attr) => {
                            items.push(attr);
                            proof {
                                assert(items@.map_values(|x: Attribute| x@) =~= seq![attr@]);
                            }
                        },
                        None => {
                            proof {
                                assert(items@.map_values(|x: Attribute| x@) =~= Seq::<
                                    crate::model::AttributeModel,
                                >::empty());
                            }
                        },
                    }
                    Some((items, j2))
                }
            },
        },
    }
}

/// An attribute array.
fn parse_attribute_list(s: &Vec<char>, i: usize) -> (r: Option<(Vec<Attribute>, usize)>)
    requires
        i <= s@.len(),
    ensures
        r matches Some((items, j)) ==> i < j <= s@.len() && grammar::attribute_list(
            s@.skip(i as int),
        ) == Some((items@.map_values(|a: Attribute| a@), s@.skip(j as int))),
        r is None ==> grammar::attribute_list(s@.skip(i as int)) is None,
{
    if i >= s.len() {
        return None;
    }
    let c = s[i];
    proof {
        lemma_skip_unstep(s@, i as int);
    }
    if c != '[' {
        return None;
    }
    let r = skip_ws(s, i + 1);
    if r < s.len() {
        let c2 = s[r];
        proof {
            lemma_skip_unstep(s@, r as int);
        }
        if c2 == ']' {
            let items: Vec<Attribute> = Vec::new();
            proof {
                assert(items@.map_values(|a: Attribute| a@) =~= Seq::<
                    crate::model::AttributeModel,
                >::empty());
            }
            return Some((items, r + 1));
        }
    }
    parse_attribute_items(s, r)
}

} // verus!

verus! {

/// Members of an event object.
fn parse_event_members(s: &Vec<char>, i: usize, name: String, attributes: Vec<Attribute>) -> (r:
    Option<(Event, usize)>)
    requires
        i <= s@.len(),
    ensures
        ({
            let acc = crate::model::EventModel {
                name: name@,
                attributes: attributes@.map_values(|a: Attribute| a@),
            };
            &&& (r matches Some((e, j)) ==> i < j <= s@.len() && grammar::event_members(
                s@.skip(i as int),
                acc,
            ) == Some((e@, s@.skip(j as int))))
            &&& (r is None ==> grammar::event_members(s@.skip(i as int), acc) is None)
        }),
    decreases s@.len() - i,
{
    match parse_member_key(s, i) {
        None => None,
        Some((k, v)) => {
            let name2: String;
            let attributes2: Vec<Attribute>;
            let j2: usize;
            if str_eq(k.as_str(), "name") {
                match parse_text(s, v) {
                    None => {
                        return None;
                    },
                    Some((t, j)) => {
                        name2 = t;
                        attributes2 = attributes;
                        j2 = j;
                    },
                }
            } else if str_eq(k.as_str(), "attributes") {
                match parse_attribute_list(s, v) {
                    None => {
                        return None;
                    },
                    Some((attrs, j)) => {
                        name2 = name;
                        attributes2 = attrs;
                        j2 = j;
                    },
                }
            } else {
                match skip_value(s, v) {
                    None => {
                        return None;
                    },
                    Some(j) => {
                        name2 = name;
                        attributes2 = attributes;
                        j2 = j;
                    },
                }
            }
            match parse_member_sep(s, j2) {
                None => None,
                Some((more, j3)) => {
                    if more {
                        if j3 <= i {
                            return None;
                        }
                        parse_event_members(s, j3, name2, attributes2)
                    } else {
                        Some((Event { name: name2, attributes: attributes2 }, j3))
                    }
                },
            }
        },
    }
}

/// An event object.
fn parse_event_obj(s: &Vec<char>, i: usize) -> (r: Option<(Event, usize)>)
    requires
        i <= s@.len(),
    ensures
        r matches Some((e, j)) ==> i < j <= s@.len() && grammar::event_obj(s@.skip(i as int))
            == Some((e@, s@.skip(j as int))),
        r is None ==> grammar::event_obj(s@.skip(i as int)) is None,
{
    if i >= s.len() {
        return None;
    }
    let c = s[i];
    proof {
        lemma_skip_unstep(s@, i as int);
    }
    if c != '{' {
        return None;
    }
    let r = skip_ws(s, i + 1);
    if r < s.len() {
        let c2 = s[r];
        proof {
            lemma_skip_unstep(s@, r as int);
        }
        if c2 == '}' {
            let e = Event { name: String::new(), attributes: Vec::new() };
            proof {
                assert(e@ =~= grammar::empty_event());
            }
            return Some((e, r + 1));
        }
    }
    let res = parse_event_members(s, r, String::new(), Vec::new());
    proof {
        let acc = crate::model::EventModel {
            name: Seq::<char>::empty(),
            attributes: Seq::<Attribute>::empty().map_values(|a: Attribute| a@),
        };
        assert(acc =~= grammar::empty_event());
    }
    res
}

/// Elements of an event array.
fn parse_event_items(s: &Vec<char>, i: usize) -> (r: Option<(Vec<Event>, usize)>)
    requires
        i <= s@.len(),
    ensures
        r matches Some((items, j)) ==> i < j <= s@.len() && grammar::event_items(s@.skip(i as int))
            == Some((items@.map_values(|e: Event| e@), s@.skip(j as int))),
        r is None ==> grammar::event_items(s@.skip(i as int)) is None,
    decreases s@.len() - i,
{
    match parse_event_obj(s, i) {
        None => None,
        Some((e, j1)) => match parse_element_sep(s, j1) {
            None => None,
            Some((more, j2)) => {
                if more {
                    if j2 <= i {
                        return None;
                    }
                    match parse_event_items(s, j2) {
                        None => None,
                        Some((mut items, j3)) => {
                            let ghost old_items = items@;
                            let ghost ev = e@;
                            items.insert(0, e);
                            proof {
                                assert(items@.map_values(|x: Event| x@) =~= seq![ev]
                                    + old_items.map_values(|x: Event| x@));
                            }
                            Some((items, j3))
                        },
                    }
                } else {
                    let ghost ev = e@;
                    let mut items: Vec<Event> = Vec::new();
                    items.push(e);
                    proof {
                        assert(items@.map_values(|x: Event| x@) =~= seq![ev]);
                    }
                    Some((items, j2))
                }
            },
        },
    }
}

/// An event array.
fn parse_event_list(s: &Vec<char>, i: usize) -> (r: Option<(Vec<Event>, usize)>)
    requires
        i <= s@.len(),
    ensures
        r matches Some((items, j)) ==> i < j <= s@.len() && grammar::event_list(s@.skip(i as int))
            == Some((items@.map_values(|e: Event| e@), s@.skip(j as int))),
        r is None ==> grammar::event_list(s@.skip(i as int)) is None,
{
    if i >= s.len() {
        return None;
    }
    let c = s[i];
    proof {
        lemma_skip_unstep(s@, i as int);
    }
    if c != '[' {
        return None;
    }
    let r = skip_ws(s, i + 1);
    if r < s.len() {
        let c2 = s[r];
        proof {
            lemma_skip_unstep(s@, r as int);
        }
        if c2 == ']' {
            let items: Vec<Event> = Vec::new();
            proof {
                assert(items@.map_values(|e: Event| e@) =~= Seq::<
                    crate::model::EventModel,
                >::empty());
            }
            return Some((items, r + 1));
        }
    }
    parse_event_items(s, r)
}

/// Members of a status object.
fn parse_status_members(s: &Vec<char>, i: usize, code: u32) -> (r: Option<(u32, usize)>)
    requires
        i <= s@.len(),
    ensures
        r matches Some((c2, j)) ==> i < j <= s@.len() && grammar::status_members(
            s@.skip(i as int),
            code,
        ) == Some((c2, s@.skip(j as int))),
        r is None ==> grammar::status_members(s@.skip(i as int), code) is None,
    decreases s@.len() - i,
{
    match parse_member_key(s, i) {
        None => None,
        Some((k, v)) => {
            let code2: u32;
            let j2: usize;
            if str_eq(k.as_str(), "code") {
                match parse_code(s, v) {
                    None => {
                        return None;
                    },
                    Some((c, j)) => {
                        code2 = c;
                        j2 = j;
                    },
                }
            } else {
                match skip_value(s, v) {
                    None => {
                        return None;
                    },
                    Some(j) => {
                        code2 = code;
                        j2 = j;
                    },
                }
            }
            match parse_member_sep(s, j2) {
                None => None,
                Some((more, j3)) => {
                    if more {
                        if j3 <= i {
                            return None;
                        }
                        parse_status_members(s, j3, code2)
                    } else {
                        Some((code2, j3))
                    }
                },
            }
        },
    }
}

/// A status object.
fn parse_status_obj(s: &Vec<char>, i: usize) -> (r: Option<(u32, usize)>)
    requires
        i <= s@.len(),
    ensures
        r matches Some((c2, j)) ==> i < j <= s@.len() && grammar::status_obj(s@.skip(i as int))
            == Some((c2, s@.skip(j as int))),
        r is None ==> grammar::status_obj(s@.skip(i as int)) is None,
{
    if i >= s.len() {
        return None;
    }
    let c = s[i];
    proof {
        lemma_skip_unstep(s@, i as int);
    }
    if c != '{' {
        return None;
    }
    let r = skip_ws(s, i + 1);
    if r < s.len() {
        let c2 = s[r];
        proof {
            lemma_skip_unstep(s@, r as int);
        }
        if c2 == '}' {
            return Some((0u32, r + 1));
        }
    }
    parse_status_members(s, r, 0u32)
}

/// Members of a span object.
fn parse_span_members(
    s: &Vec<char>,
    i: usize,
    name: String,
    status_code: u32,
    events: Vec<Event>,
) -> (r: Option<(Span, usize)>)
    requires
        i <= s@.len(),
    ensures
        ({
            let acc = crate::model::SpanModel {
                name: name@,
                status_code: status_code,
                events: events@.map_values(|e: Event| e@),
            };
            &&& (r matches Some((sp, j)) ==> i < j <= s@.len() && grammar::span_members(
                s@.skip(i as int),
                acc,
            ) == Some((sp@, s@.skip(j as int))))
            &&& (r is None ==> grammar::span_members(s@.skip(i as int), acc) is None)
        }),
    decreases s@.len() - i,
{
    match parse_member_key(s, i) {
        None => None,
        Some((k, v)) => {
            let name2: String;
            let status2: u32;
            let events2: Vec<Event>;
            let j2: usize;
            if str_eq(k.as_str(), "name") {
                match parse_text(s, v) {
                    None => {
                        return None;
                    },
                    Some((t, j)) => {
                        name2 = t;
                        status2 = status_code;
                        events2 = events;
                        j2 = j;
                    },
                }
            } else if str_eq(k.as_str(), "status") {
                match parse_status_obj(s, v) {
                    None => {
                        return None;
                    },
                    Some((c, j)) => {
                        name2 = name;
                        status2 = c;
                        events2 = events;
                        j2 = j;
                    },
                }
            } else if str_eq(k.as_str(), "events") {
                match parse_event_list(s, v) {
                    None => {
                        return None;
                    },
                    Some((es, j)) => {
                        name2 = name;
                        status2 = status_code;
                        events2 = es;
                        j2 = j;
                    },
                }
            } else {
                match skip_value(s, v) {
                    None => {
                        return None;
                    },
                    Some(j) => {
                        name2 = name;
                        status2 = status_code;
                        events2 = events;
                        j2 = j;
                    },
                }
            }
            match parse_member_sep(s, j2) {
                None => None,
                Some((more, j3)) => {
                    if more {
                        if j3 <= i {
                            return None;
                        }
                        parse_span_members(s, j3, name2, status2, events2)
                    } else {
                        Some((Span { name: name2, status_code: status2, events: events2 }, j3))
                    }
                },
            }
        },
    }
}

/// A span object.
fn parse_span_obj(s: &Vec<char>, i: usize) -> (r: Option<(Span, usize)>)
    requires
        i <= s@.len(),
    ensures
        r matches Some((sp, j)) ==> i < j <= s@.len() && grammar::span_obj(s@.skip(i as int))
            == Some((sp@, s@.skip(j as int))),
        r is None ==> grammar::span_obj(s@.skip(i as int)) is None,
{
    if i >= s.len() {
        return None;
    }
    let c = s[i];
    proof {
        lemma_skip_unstep(s@, i as int);
    }
    if c != '{' {
        return None;
    }
    let r = skip_ws(s, i + 1);
    if r < s.len() {
        let c2 = s[r];
        proof {
            lemma_skip_unstep(s@, r as int);
        }
        if c2 == '}' {
            let sp = Span { name: String::new(), status_code: 0, events: Vec::new() };
            proof {
                assert(sp@ =~= grammar::empty_span());
            }
            return Some((sp, r + 1));
        }
    }
    let res = parse_span_members(s, r, String::new(), 0, Vec::new());
    proof {
        let acc = crate::model::SpanModel {
            name: Seq::<char>::empty(),
            status_code: 0,
            events: Seq::<Event>::empty().map_values(|e: Event| e@),
        };
        assert(acc =~= grammar::empty_span());
    }
    res
}

/// Elements of a span array.
fn parse_span_items(s: &Vec<char>, i: usize) -> (r: Option<(Vec<Span>, usize)>)
    requires
        i <= s@.len(),
    ensures
        r matches Some((items, j)) ==> i < j <= s@.len() && grammar::span_items(s@.skip(i as int))
            == Some((items@.map_values(|x: Span| x@), s@.skip(j as int))),
        r is None ==> grammar::span_items(s@.skip(i as int)) is None,
    decreases s@.len() - i,
{
    match parse_span_obj(s, i) {
        None => None,
        Some((sp, j1)) => match parse_element_sep(s, j1) {
            None => None,
            Some((more, j2)) => {
                if more {
                    if j2 <= i {
                        return None;
                    }
                    match parse_span_items(s, j2) {
                        None => None,
                        Some((mut items, j3)) => {
                            let ghost old_items = items@;
                            let ghost sv = sp@;
                            items.insert(0, sp);
                            proof {
                                assert(items@.map_values(|x: Span| x@) =~= seq![sv]
                                    + old_items.map_values(|x: Span| x@));
                            }
                            Some((items, j3))
                        },
                    }
                } else {
                    let ghost sv = sp@;
                    let mut items: Vec<Span> = Vec::new();
                    items.push(sp);
                    proof {
                        assert(items@.map_values(|x: Span| x@) =~= seq![sv]);
                    }
                    Some((items, j2))
                }
            },
        },
    }
}

/// A span array.
fn parse_span_list(s: &Vec<char>, i: usize) -> (r: Option<(Vec<Span>, usize)>)
    requires
        i <= s@.len(),
    ensures
        r matches Some((items, j)) ==> i < j <= s@.len() && grammar::span_list(s@.skip(i as int))
            == Some((items@.map_values(|x: Span| x@), s@.skip(j as int))),
        r is None ==> grammar::span_list(s@.skip(i as int)) is None,
{
    if i >= s.len() {
        return None;
    }
    let c = s[i];
    proof {
        lemma_skip_unstep(s@, i as int);
    }
    if c != '[' {
        return None;
    }
    let r = skip_ws(s, i + 1);
    if r < s.len() {
        let c2 = s[r];
        proof {
            lemma_skip_unstep(s@, r as int);
        }
        if c2 == ']' {
            let items: Vec<Span> = Vec::new();
            proof {
                assert(items@.map_values(|x: Span| x@) =~= Seq::<crate::model::SpanModel>::empty());
            }
            return Some((items, r + 1));
        }
    }
    parse_span_items(s, r)
}

} // verus!

verus! {

/// Members of a scope span object.
fn parse_scope_span_members(s: &Vec<char>, i: usize, spans: Vec<Span>) -> (r: Option<
    (ScopeSpan, usize),
>)
    requires
        i <= s@.len(),
    ensures
        ({
            let acc = crate::model::ScopeSpanModel { spans: spans@.map_values(|x: Span| x@) };
            &&& (r matches Some((sc, j)) ==> i < j <= s@.len() && grammar::scope_span_members(
                s@.skip(i as int),
                acc,
            ) == Some((sc@, s@.skip(j as int))))
            &&& (r is None ==> grammar::scope_span_members(s@.skip(i as int), acc) is None)
        }),
    decreases s@.len() - i,
{
    match parse_member_key(s, i) {
        None => None,
        Some((k, v)) => {
            let spans2: Vec<Span>;
            let j2: usize;
            if str_eq(k.as_str(), "spans") {
                match parse_span_list(s, v) {
                    None => {
                        return None;
                    },
                    Some((sps, j)) => {
                        spans2 = sps;
                        j2 = j;
                    },
                }
            } else {
                match skip_value(s, v) {
                    None => {
                        return None;
                    },
                    Some(j) => {
                        spans2 = spans;
                        j2 = j;
                    },
                }
            }
            match parse_member_sep(s, j2) {
                None => None,
                Some((more, j3)) => {
                    if more {
                        if j3 <= i {
                            return None;
                        }
                        parse_scope_span_members(s, j3, spans2)
                    } else {
                        Some((ScopeSpan { spans: spans2 }, j3))
                    }
                },
            }
        },
    }
}

/// A scope span object.
fn parse_scope_span_obj(s: &Vec<char>, i: usize) -> (r: Option<(ScopeSpan, usize)>)
    requires
        i <= s@.len(),
    ensures
        r matches Some((sc, j)) ==> i < j <= s@.len() && grammar::scope_span_obj(s@.skip(i as int))
            == Some((sc@, s@.skip(j as int))),
        r is None ==> grammar::scope_span_obj(s@.skip(i as int)) is None,
{
    if i >= s.len() {
        return None;
    }
    let c = s[i];
    proof {
        lemma_skip_unstep(s@, i as int);
    }
    if c != '{' {
        return None;
    }
    let r = skip_ws(s, i + 1);
    if r < s.len() {
        let c2 = s[r];
        proof {
            lemma_skip_unstep(s@, r as int);
        }
        if c2 == '}' {
            let sc = ScopeSpan { spans: Vec::new() };
            proof {
                assert(sc@ =~= grammar::empty_scope_span());
            }
            return Some((sc, r + 1));
        }
    }
    let res = parse_scope_span_members(s, r, Vec::new());
    proof {
        let acc = crate::model::ScopeSpanModel {
            spans: Seq::<Span>::empty().map_values(|x: Span| x@),
        };
        assert(acc =~= grammar::empty_scope_span());
    }
    res
}

/// Elements of a scope span array.
fn parse_scope_span_items(s: &Vec<char>, i: usize) -> (r: Option<(Vec<ScopeSpan>, usize)>)
    requires
        i <= s@.len(),
    ensures
        r matches Some((items, j)) ==> i < j <= s@.len() && grammar::scope_span_items(
            s@.skip(i as int),
        ) == Some((items@.map_values(|x: ScopeSpan| x@), s@.skip(j as int))),
        r is None ==> grammar::scope_span_items(s@.skip(i as int)) is None,
    decreases s@.len() - i,
{
    match parse_scope_span_obj(s, i) {
        None => None,
        Some((sc, j1)) => match parse_element_sep(s, j1) {
            None => None,
            Some((more, j2)) => {
                if more {
                    if j2 <= i {
                        return None;
                    }
                    match parse_scope_span_items(s, j2) {
                        None => None,
                        Some((mut items, j3)) => {
                            let ghost old_items = items@;
                            let ghost sv = sc@;
                            items.insert(0, sc);
                            proof {
                                assert(items@.map_values(|x: ScopeSpan| x@) =~= seq![sv]
                                    + old_items.map_values(|x: ScopeSpan| x@));
                            }
                            Some((items, j3))
                        },
                    }
                } else {
                    let ghost sv = sc@;
                    let mut items: Vec<ScopeSpan> = Vec::new();
                    items.push(sc);
                    proof {
                        assert(items@.map_values(|x: ScopeSpan| x@) =~= seq![sv]);
                    }
                    Some((items, j2))
                }
            },
        },
    }
}

/// A scope span array.
fn parse_scope_span_list(s: &Vec<char>, i: usize) -> (r: Option<(Vec<ScopeSpan>, usize)>)
    requires
        i <= s@.len(),
    ensures
        r matches Some((items, j)) ==> i < j <= s@.len() && grammar::scope_span_list(
            s@.skip(i as int),
        ) == Some((items@.map_values(|x: ScopeSpan| x@), s@.skip(j as int))),
        r is None ==> grammar::scope_span_list(s@.skip(i as int)) is None,
{
    if i >= s.len() {
        return None;
    }
    let c = s[i];
    proof {
        lemma_skip_unstep(s@, i as int);
    }
    if c != '[' {
        return None;
    }
    let r = skip_ws(s, i + 1);
    if r < s.len() {
        let c2 = s[r];
        proof {
            lemma_skip_unstep(s@, r as int);
        }
        if c2 == ']' {
            let items: Vec<ScopeSpan> = Vec::new();
            proof {
                assert(items@.map_values(|x: ScopeSpan| x@) =~= Seq::<
                    crate::model::ScopeSpanModel,
                >::empty());
            }
            return Some((items, r + 1));
        }
    }
    parse_scope_span_items(s, r)
}

/// Members of a resource object.
fn parse_resource_members(s: &Vec<char>, i: usize, attributes: Vec<Attribute>) -> (r: Option<
    (Vec<Attribute>, usize),
>)
    requires
        i <= s@.len(),
    ensures
        ({
            let acc = attributes@.map_values(|a: Attribute| a@);
            &&& (r matches Some((attrs, j)) ==> i < j <= s@.len() && grammar::resource_members(
                s@.skip(i as int),
                acc,
            ) == Some((attrs@.map_values(|a: Attribute| a@), s@.skip(j as int))))
            &&& (r is None ==> grammar::resource_members(s@.skip(i as int), acc) is None)
        }),
    decreases s@.len() - i,
{
    match parse_member_key(s, i) {
        None => None,
        Some((k, v)) => {
            let attrs2: Vec<Attribute>;
            let j2: usize;
            if str_eq(k.as_str(), "attributes") {
                match parse_attribute_list(s, v) {
                    None => {
                        return None;
                    },
                    Some((al, j)) => {
                        attrs2 = al;
                        j2 = j;
                    },
                }
            } else {
                match skip_value(s, v) {
                    None => {
                        return None;
                    },
                    Some(j) => {
                        attrs2 = attributes;
                        j2 = j;
                    },
                }
            }
            match parse_member_sep(s, j2) {
                None => None,
                Some((more, j3)) => {
                    if more {
                        if j3 <= i {
                            return None;
                        }
                        parse_resource_members(s, j3, attrs2)
                    } else {
                        Some((attrs2, j3))
                    }
                },
            }
        },
    }
}

/// A resource object: its attributes.
fn parse_resource_obj(s: &Vec<char>, i: usize) -> (r: Option<(Vec<Attribute>, usize)>)
    requires
        i <= s@.len(),
    ensures
        r matches Some((attrs, j)) ==> i < j <= s@.len() && grammar::resource_obj(
            s@.skip(i as int),
        ) == Some((attrs@.map_values(|a: Attribute| a@), s@.skip(j as int))),
        r is None ==> grammar::resource_obj(s@.skip(i as int)) is None,
{
    if i >= s.len() {
        return None;
    }
    let c = s[i];
    proof {
        lemma_skip_unstep(s@, i as int);
    }
    if c != '{' {
        return None;
    }
    let r = skip_ws(s, i + 1);
    if r < s.len() {
        let c2 = s[r];
        proof {
            lemma_skip_unstep(s@, r as int);
        }
        if c2 == '}' {
            let attrs: Vec<Attribute> = Vec::new();
            proof {
                assert(attrs@.map_values(|a: Attribute| a@) =~= Seq::<
                    crate::model::AttributeModel,
                >::empty());
            }
            return Some((attrs, r + 1));
        }
    }
    let res = parse_resource_members(s, r, Vec::new());
    proof {
        assert(Seq::<Attribute>::empty().map_values(|a: Attribute| a@) =~= Seq::<
            crate::model::AttributeModel,
        >::empty());
    }
    res
}

/// Members of a resource span object.
fn parse_resource_span_members(
    s: &Vec<char>,
    i: usize,
    attributes: Vec<Attribute>,
    scope_spans: Vec<ScopeSpan>,
) -> (r: Option<(ResourceSpan, usize)>)
    requires
        i <= s@.len(),
    ensures
        ({
            let acc = crate::model::ResourceSpanModel {
                attributes: attributes@.map_values(|a: Attribute| a@),
                scope_spans: scope_spans@.map_values(|x: ScopeSpan| x@),
            };
            &&& (r matches Some((rs, j)) ==> i < j <= s@.len() && grammar::resource_span_members(
                s@.skip(i as int),
                acc,
            ) == Some((rs@, s@.skip(j as int))))
            &&& (r is None ==> grammar::resource_span_members(s@.skip(i as int), acc) is None)
        }),
    decreases s@.len() - i,
{
    match parse_member_key(s, i) {
        None => None,
        Some((k, v)) => {
            let attrs2: Vec<Attribute>;
            let scopes2: Vec<ScopeSpan>;
            let j2: usize;
            if str_eq(k.as_str(), "resource") {
                match parse_resource_obj(s, v) {
                    None => {
                        return None;
                    },
                    Some((al, j)) => {
                        attrs2 = al;
                        scopes2 = scope_spans;
                        j2 = j;
                    },
                }
            } else if str_eq(k.as_str(), "scopeSpans") {
                match parse_scope_span_list(s, v) {
                    None => {
                        return None;
                    },
                    Some((scs, j)) => {
                        attrs2 = attributes;
                        scopes2 = scs;
                        j2 = j;
                    },
                }
            } else {
                match skip_value(s, v) {
                    None => {
                        return None;
                    },
                    Some(j) => {
                        attrs2 = attributes;
                        scopes2 = scope_spans;
                        j2 = j;
                    },
                }
            }
            match parse_member_sep(s, j2) {
                None => None,
                Some((more, j3)) => {
                    if more {
                        if j3 <= i {
                            return None;
                        }
                        parse_resource_span_members(s, j3, attrs2, scopes2)
                    } else {
                        Some((ResourceSpan { attributes: attrs2, scope_spans: scopes2 }, j3))
                    }
                },
            }
        },
    }
}

/// A resource span object.
fn parse_resource_span_obj(s: &Vec<char>, i: usize) -> (r: Option<(ResourceSpan, usize)>)
    requires
        i <= s@.len(),
    ensures
        r matches Some((rs, j)) ==> i < j <= s@.len() && grammar::resource_span_obj(
            s@.skip(i as int),
        ) == Some((rs@, s@.skip(j as int))),
        r is None ==> grammar::resource_span_obj(s@.skip(i as int)) is None,
{
    if i >= s.len() {
        return None;
    }
    let c = s[i];
    proof {
        lemma_skip_unstep(s@, i as int);
    }
    if c != '{' {
        return None;
    }
    let r = skip_ws(s, i + 1);
    if r < s.len() {
        let c2 = s[r];
        proof {
            lemma_skip_unstep(s@, r as int);
        }
        if c2 == '}' {
            let rs = ResourceSpan { attributes: Vec::new(), scope_spans: Vec::new() };
            proof {
                assert(rs@ =~= grammar::empty_resource_span());
            }
            return Some((rs, r + 1));
        }
    }
    let res = parse_resource_span_members(s, r, Vec::new(), Vec::new());
    proof {
        let acc = crate::model::ResourceSpanModel {
            attributes: Seq::<Attribute>::empty().map_values(|a: Attribute| a@),
            scope_spans: Seq::<ScopeSpan>::empty().map_values(|x: ScopeSpan| x@),
        };
        assert(acc =~= grammar::empty_resource_span());
    }
    res
}

/// Elements of a resource span array.
fn parse_resource_span_items(s: &Vec<char>, i: usize) -> (r: Option<(Vec<ResourceSpan>, usize)>)
    requires
        i <= s@.len(),
    ensures
        r matches Some((items, j)) ==> i < j <= s@.len() && grammar::resource_span_items(
            s@.skip(i as int),
        ) == Some((items@.map_values(|x: ResourceSpan| x@), s@.skip(j as int))),
        r is None ==> grammar::resource_span_items(s@.skip(i as int)) is None,
    decreases s@.len() - i,
{
    match parse_resource_span_obj(s, i) {
        None => None,
        Some((rs, j1)) => match parse_element_sep(s, j1) {
            None => None,
            Some((more, j2)) => {
                if more {
                    if j2 <= i {
                        return None;
                    }
                    match parse_resource_span_items(s, j2) {
                        None => None,
                        Some((mut items, j3)) => {
                            let ghost old_items = items@;
                            let ghost rv = rs@;
                            items.insert(0, rs);
                            proof {
                                assert(items@.map_values(|x: ResourceSpan| x@) =~= seq![rv]
                                    + old_items.map_values(|x: ResourceSpan| x@));
                            }
                            Some((items, j3))
                        },
                    }
                } else {
                    let ghost rv = rs@;
                    let mut items: Vec<ResourceSpan> = Vec::new();
                    items.push(rs);
                    proof {
                        assert(items@.map_values(|x: ResourceSpan| x@) =~= seq![rv]);
                    }
                    Some((items, j2))
                }
            },
        },
    }
}

/// A resource span array.
fn parse_resource_span_list(s: &Vec<char>, i: usize) -> (r: Option<(Vec<ResourceSpan>, usize)>)
    requires
        i <= s@.len(),
    ensures
        r matches Some((items, j)) ==> i < j <= s@.len() && grammar::resource_span_list(
            s@.skip(i as int),
        ) == Some((items@.map_values(|x: ResourceSpan| x@), s@.skip(j as int))),
        r is None ==> grammar::resource_span_list(s@.skip(i as int)) is None,
{
    if i >= s.len() {
        return None;
    }
    let c = s[i];
    proof {
        lemma_skip_unstep(s@, i as int);
    }
    if c != '[' {
        return None;
    }
    let r = skip_ws(s, i + 1);
    if r < s.len() {
        let c2 = s[r];
        proof {
            lemma_skip_unstep(s@, r as int);
        }
        if c2 == ']' {
            let items: Vec<ResourceSpan> = Vec::new();
            proof {
                assert(items@.map_values(|x: ResourceSpan| x@) =~= Seq::<
                    crate::model::ResourceSpanModel,
                >::empty());
            }
            return Some((items, r + 1));
        }
    }
    parse_resource_span_items(s, r)
}

/// Members of the top-level record object.
fn parse_record_members(s: &Vec<char>, i: usize, resource_spans: Vec<ResourceSpan>) -> (r: Option<
    (TraceRecord, usize),
>)
    requires
        i <= s@.len(),
    ensures
        ({
            let acc = crate::model::TraceRecordModel {
                resource_spans: resource_spans@.map_values(|x: ResourceSpan| x@),
            };
            &&& (r matches Some((rec, j)) ==> i < j <= s@.len() && grammar::record_members(
                s@.skip(i as int),
                acc,
            ) == Some((rec@, s@.skip(j as int))))
            &&& (r is None ==> grammar::record_members(s@.skip(i as int), acc) is None)
        }),
    decreases s@.len() - i,
{
    match parse_member_key(s, i) {
        None => None,
        Some((k, v)) => {
            let rss2: Vec<ResourceSpan>;
            let j2: usize;
            if str_eq(k.as_str(), "resourceSpans") {
                match parse_resource_span_list(s, v) {
                    None => {
                        return None;
                    },
                    Some((rss, j)) => {
                        rss2 = rss;
                        j2 = j;
                    },
                }
            } else {
                match skip_value(s, v) {
                    None => {
                        return None;
                    },
                    Some(j) => {
                        rss2 = resource_spans;
                        j2 = j;
                    },
                }
            }
            match parse_member_sep(s, j2) {
                None => None,
                Some((more, j3)) => {
                    if more {
                        if j3 <= i {
                            return None;
                        }
                        parse_record_members(s, j3, rss2)
                    } else {
                        Some((TraceRecord { resource_spans: rss2 }, j3))
                    }
                },
            }
        },
    }
}

/// The top-level record object.
fn parse_record_obj(s: &Vec<char>, i: usize) -> (r: Option<(TraceRecord, usize)>)
    requires
        i <= s@.len(),
    ensures
        r matches Some((rec, j)) ==> i < j <= s@.len() && grammar::record_obj(s@.skip(i as int))
            == Some((rec@, s@.skip(j as int))),
        r is None ==> grammar::record_obj(s@.skip(i as int)) is None,
{
    if i >= s.len() {
        return None;
    }
    let c = s[i];
    proof {
        lemma_skip_unstep(s@, i as int);
    }
    if c != '{' {
        return None;
    }
    let r = skip_ws(s, i + 1);
    if r < s.len() {
        let c2 = s[r];
        proof {
            lemma_skip_unstep(s@, r as int);
        }
        if c2 == '}' {
            let rec = TraceRecord { resource_spans: Vec::new() };
            proof {
                assert(rec@ =~= grammar::empty_record());
            }
            return Some((rec, r + 1));
        }
    }
    let res = parse_record_members(s, r, Vec::new());
    proof {
        let acc = crate::model::TraceRecordModel {
            resource_spans: Seq::<ResourceSpan>::empty().map_values(|x: ResourceSpan| x@),
        };
        assert(acc =~= grammar::empty_record());
    }
    res
}

/// Decode one export line, given as characters.
fn parse_record_chars(s: &Vec<char>) -> (r: Option<TraceRecord>)
    ensures
        r matches Some(rec) ==> grammar::record_line(s@) == Some(rec@),
        r is None ==> grammar::record_line(s@) is None,
{
    proof {
        assert(s@.skip(0) =~= s@);
    }
    let start = skip_ws(s, 0);
    match parse_record_obj(s, start) {
        None => None,
        Some((rec, j)) => {
            let e = skip_ws(s, j);
            if e < s.len() {
                proof {
                    assert(grammar::strip_ws(s@.skip(j as int)).len() > 0);
                }
                None
            } else {
                proof {
                    assert(grammar::strip_ws(s@.skip(j as int)).len() == 0);
                }
                Some(rec)
            }
        },
    }
}

/// Decode one export line.  Returns `None` exactly when the line is not a
/// well-formed record per the grammar.
pub fn parse_record_line(line: &str) -> (r: Option<TraceRecord>)
    ensures
        r matches Some(rec) ==> grammar::record_line(line@) == Some(rec@),
        r is None ==> grammar::record_line(line@) is None,
{
    let chars = crate::strutil::str_to_chars(line);
    parse_record_chars(&chars)
}

} // verus!

verus! {

/// The character sequences of a sequence of strings.
pub open spec fn lines_view(ls: Seq<String>) -> Seq<Seq<char>> {
    ls.map_values(|l: String| l@)
}

/// The resource spans denoted by a sequence of export lines: empty lines are
/// skipped, every other line must be a well-formed record, and the records'
/// resource spans are concatenated in order.
pub open spec fn spans_of_lines(lines: Seq<Seq<char>>) -> Option<Seq<ResourceSpanModel>>
    decreases lines.len(),
{
    if lines.len() == 0 {
        Some(Seq::empty())
    } else if lines[0].len() == 0 {
        spans_of_lines(lines.drop_first())
    } else {
        match grammar::record_line(lines[0]) {
            None => None,
            Some(m) => match spans_of_lines(lines.drop_first()) {
                None => None,
                Some(t) => Some(m.resource_spans + t),
            },
        }
    }
}

/// An export line failed to decode: a fatal pipeline fault, not recoverable
/// input.  `line` is the index of the first offending line.
#[derive(Debug)]
pub struct MalformedExportError {
    pub line: usize,
}

proof fn lemma_lines_unstep(s: Seq<Seq<char>>, j: int)
    requires
        0 <= j < s.len(),
    ensures
        s.skip(j).drop_first() == s.skip(j + 1),
        s.skip(j)[0] == s[j],
        s.skip(j).len() == s.len() - j,
{
    assert(s.skip(j).drop_first() =~= s.skip(j + 1));
}

use crate::model::ResourceSpanModel;

/// Decode a whole export file, given as its lines.  Empty lines are skipped;
/// the first malformed line aborts the read.
pub fn read_export_lines(lines: &Vec<String>) -> (r: Result<
    Vec<ResourceSpan>,
    MalformedExportError,
>)
    ensures
        r matches Ok(spans) ==> spans_of_lines(lines_view(lines@)) == Some(
            spans@.map_values(|x: ResourceSpan| x@),
        ),
        r matches Err(e) ==> {
            &&& spans_of_lines(lines_view(lines@)) is None
            &&& e.line < lines@.len()
            &&& lines@[e.line as int]@.len() > 0
            &&& grammar::record_line(lines@[e.line as int]@) is None
            &&& forall|q: int|
                0 <= q < e.line ==> (#[trigger] lines@[q]@.len() == 0 || grammar::record_line(
                    lines@[q]@,
                ) is Some)
        },
{
    let ghost lv = lines_view(lines@);
    proof {
        assert(lv.skip(0) =~= lv);
    }
    let mut out: Vec<ResourceSpan> = Vec::new();
    let mut idx: usize = 0;
    proof {
        assert(out@.map_values(|x: ResourceSpan| x@) =~= Seq::<ResourceSpanModel>::empty());
    }
    while idx < lines.len()
        invariant
            idx <= lines@.len(),
            lv == lines_view(lines@),
            (match spans_of_lines(lv.skip(idx as int)) {
                Some(t) => spans_of_lines(lv) == Some(out@.map_values(|x: ResourceSpan| x@) + t),
                None => spans_of_lines(lv) is None,
            }),
            forall|q: int|
                0 <= q < idx ==> (#[trigger] lines@[q]@.len() == 0 || grammar::record_line(
                    lines@[q]@,
                ) is Some),
        decreases lines@.len() - idx,
    {
        proof {
            lemma_lines_unstep(lv, idx as int);
            assert(lv[idx as int] == lines@[idx as int]@);
        }
        let line = &lines[idx];
        if line.as_str().is_empty() {
            idx = idx + 1;
            continue;
        }
        match parse_record_line(line.as_str()) {
            None => {
                return Err(MalformedExportError { line: idx });
            },
            Some(rec) => {
                let ghost old_out = out@;
                let ghost recv = rec@;
                let mut rss = rec.resource_spans;
                out.append(&mut rss);
                proof {
                    assert(out@.map_values(|x: ResourceSpan| x@) =~= old_out.map_values(
                        |x: ResourceSpan| x@,
                    ) + recv.resource_spans);
                    match spans_of_lines(lv.skip(idx as int + 1)) {
                        Some(t) => {
                            assert(out@.map_values(|x: ResourceSpan| x@) + t =~= old_out.map_values(
                                |x: ResourceSpan| x@,
                            ) + (recv.resource_spans + t));
                        },
                        None => {},
                    }
                }
                idx = idx + 1;
            },
        }
    }
    proof {
        assert(lv.skip(idx as int).len() == 0);
        assert(out@.map_values(|x: ResourceSpan| x@) + Seq::<ResourceSpanModel>::empty()
            =~= out@.map_values(|x: ResourceSpan| x@));
    }
    Ok(out)
}

} // verus!

verus! {

/// Decode a whole export file into its semantic view.
pub fn build_trace_content(lines: &Vec<String>) -> (r: Result<
    crate::content::TraceContent,
    MalformedExportError,
>)
    ensures
        r matches Ok(c) ==> spans_of_lines(lines_view(lines@)) == Some(c@),
        r matches Err(e) ==> spans_of_lines(lines_view(lines@)) is None && e.line < lines@.len(),
{
    match read_export_lines(lines) {
        Ok(spans) => Ok(crate::content::TraceContent::new(spans)),
        Err(e) => Err(e),
    }
}

} // verus!
