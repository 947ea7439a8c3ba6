//! `TraceComparator`: a projection-level diff between an actual and an
//! expected trace.
//!
//! Raw structural equality over exported traces is useless — span and trace
//! identifiers and timestamps differ on every run — so the comparison works
//! over the order-independent projections of `TraceContent`, and reports one
//! `Mismatch` per diverging projection instead of stopping at the first.

use vstd::prelude::*;

use crate::content::{
    TraceContent, entries_of_exceptions, entries_of_names, all_spans, scope_count,
    sorted_span_names, status_count_of, string_views, entry_views,
};
use crate::model::STATUS_ERROR;
use crate::strutil::{lex_leq, str_eq, str_leq};

verus! {

/// One reported difference between the actual and the expected trace.
pub enum Mismatch {
    /// The sorted span-name sequences differ.
    SpanNames { actual: Vec<String>, expected: Vec<String> },
    /// The scope-span counts differ.
    SpanCount { actual: usize, expected: usize },
    /// The counts of error-status spans differ.
    StatusCount { actual: usize, expected: usize },
    /// The event names recorded for one span differ (`None`: the span is
    /// absent on that side).
    SpanEventNames { span: String, actual: Option<Vec<String>>, expected: Option<Vec<String>> },
    /// The exception messages recorded for one span differ.
    SpanEventExceptions {
        span: String,
        actual: Option<Vec<String>>,
        expected: Option<Vec<String>>,
    },
}

#[verifier::ext_equal]
pub ghost enum MismatchModel {
    SpanNames { actual: Seq<Seq<char>>, expected: Seq<Seq<char>> },
    SpanCount { actual: int, expected: int },
    StatusCount { actual: int, expected: int },
    SpanEventNames {
        span: Seq<char>,
        actual: Option<Seq<Seq<char>>>,
        expected: Option<Seq<Seq<char>>>,
    },
    SpanEventExceptions {
        span: Seq<char>,
        actual: Option<Seq<Seq<char>>>,
        expected: Option<Seq<Seq<char>>>,
    },
}

pub open spec fn opt_views(v: Option<Vec<String>>) -> Option<Seq<Seq<char>>> {
    match v {
        Some(x) => Some(string_views(x@)),
        None => None,
    }
}

impl View for Mismatch {
    type V = MismatchModel;

    open spec fn view(&self) -> MismatchModel {
        match self {
            Mismatch::SpanNames { actual, expected } => MismatchModel::SpanNames {
                actual: string_views(actual@),
                expected: string_views(expected@),
            },
            Mismatch::SpanCount { actual, expected } => MismatchModel::SpanCount {
                actual: *actual as int,
                expected: *expected as int,
            },
            Mismatch::StatusCount { actual, expected } => MismatchModel::StatusCount {
                actual: *actual as int,
                expected: *expected as int,
            },
            Mismatch::SpanEventNames { span, actual, expected } => MismatchModel::SpanEventNames {
                span: span@,
                actual: opt_views(*actual),
                expected: opt_views(*expected),
            },
            Mismatch::SpanEventExceptions {
                span,
                actual,
                expected,
            } => MismatchModel::SpanEventExceptions {
                span: span@,
                actual: opt_views(*actual),
                expected: opt_views(*expected),
            },
        }
    }
}

/// The keyed diff of two sorted association lists: one triple per key whose
/// values differ, in key order; a missing side is `None`.
pub open spec fn entries_diff(
    a: Seq<(Seq<char>, Seq<Seq<char>>)>,
    e: Seq<(Seq<char>, Seq<Seq<char>>)>,
) -> Seq<(Seq<char>, Option<Seq<Seq<char>>>, Option<Seq<Seq<char>>>)>
    decreases a.len() + e.len(),
{
    if a.len() == 0 && e.len() == 0 {
        Seq::empty()
    } else if e.len() == 0 {
        seq![(a[0].0, Some(a[0].1), None::<Seq<Seq<char>>>)] + entries_diff(a.drop_first(), e)
    } else if a.len() == 0 {
        seq![(e[0].0, None::<Seq<Seq<char>>>, Some(e[0].1))] + entries_diff(a, e.drop_first())
    } else if a[0].0 == e[0].0 {
        (if a[0].1 == e[0].1 {
            Seq::empty()
        } else {
            seq![(a[0].0, Some(a[0].1), Some(e[0].1))]
        }) + entries_diff(a.drop_first(), e.drop_first())
    } else if lex_leq(a[0].0, e[0].0) {
        seq![(a[0].0, Some(a[0].1), None::<Seq<Seq<char>>>)] + entries_diff(a.drop_first(), e)
    } else {
        seq![(e[0].0, None::<Seq<Seq<char>>>, Some(e[0].1))] + entries_diff(a, e.drop_first())
    }
}

/// The full comparison: the mismatches of the five projection checks, in
/// order.
pub open spec fn spec_compare(
    a: Seq<crate::model::ResourceSpanModel>,
    e: Seq<crate::model::ResourceSpanModel>,
) -> Seq<MismatchModel> {
    let names_part: Seq<MismatchModel> = if sorted_span_names(a) == sorted_span_names(e) {
        Seq::empty()
    } else {
        seq![
            MismatchModel::SpanNames {
                actual: sorted_span_names(a),
                expected: sorted_span_names(e),
            },
        ]
    };
    let count_part: Seq<MismatchModel> = if scope_count(a) == scope_count(e) {
        Seq::empty()
    } else {
        seq![MismatchModel::SpanCount { actual: scope_count(a), expected: scope_count(e) }]
    };
    let status_part: Seq<MismatchModel> = if status_count_of(a, STATUS_ERROR) == status_count_of(
        e,
        STATUS_ERROR,
    ) {
        Seq::empty()
    } else {
        seq![
            MismatchModel::StatusCount {
                actual: status_count_of(a, STATUS_ERROR),
                expected: status_count_of(e, STATUS_ERROR),
            },
        ]
    };
    let names_diff = entries_diff(
        entries_of_names(all_spans(a)),
        entries_of_names(all_spans(e)),
    ).map_values(
        |d: (Seq<char>, Option<Seq<Seq<char>>>, Option<Seq<Seq<char>>>)|
            MismatchModel::SpanEventNames { span: d.0, actual: d.1, expected: d.2 },
    );
    let exc_diff = entries_diff(
        entries_of_exceptions(all_spans(a)),
        entries_of_exceptions(all_spans(e)),
    ).map_values(
        |d: (Seq<char>, Option<Seq<Seq<char>>>, Option<Seq<Seq<char>>>)|
            MismatchModel::SpanEventExceptions { span: d.0, actual: d.1, expected: d.2 },
    );
    names_part + count_part + status_part + names_diff + exc_diff
}

/// Copy a vector of strings.
fn clone_string_vec(v: &Vec<String>) -> (r: Vec<String>)
    ensures
        string_views(r@) == string_views(v@),
{
    let mut r: Vec<String> = Vec::new();
    let mut i: usize = 0;
    while i < v.len()
        invariant
            i <= v@.len(),
            string_views(r@) =~= string_views(v@).take(i as int),
        decreases v@.len() - i,
    {
        let ghost old_r = r@;
        let x = v[i].clone();
        proof {
            assert(x@ == v@[i as int]@);
            assert(string_views(v@)[i as int] == v@[i as int]@);
        }
        r.push(x);
        proof {
            assert(string_views(r@) =~= string_views(old_r).push(v@[i as int]@));
            assert(string_views(v@).take(i as int + 1) =~= string_views(v@).take(i as int).push(
                string_views(v@)[i as int],
            ));
            assert(string_views(r@) =~= string_views(v@).take(i as int + 1));
        }
        i = i + 1;
    }
    proof {
        assert(string_views(v@).take(v@.len() as int) =~= string_views(v@));
    }
    r
}

/// Whether two string vectors hold the same character sequences.
fn string_vecs_eq(a: &Vec<String>, b: &Vec<String>) -> (r: bool)
    ensures
        r == (string_views(a@) == string_views(b@)),
{
    if a.len() != b.len() {
        proof {
            assert(string_views(a@).len() != string_views(b@).len());
        }
        return false;
    }
    let mut i: usize = 0;
    while i < a.len()
        invariant
            i <= a@.len(),
            a@.len() == b@.len(),
            forall|p: int| 0 <= p < i ==> #[trigger] string_views(a@)[p] == string_views(b@)[p],
        decreases a@.len() - i,
    {
        let eq = str_eq(a[i].as_str(), b[i].as_str());
        proof {
            assert(string_views(a@)[i as int] == a@[i as int]@);
            assert(string_views(b@)[i as int] == b@[i as int]@);
        }
        if !eq {
            proof {
                if string_views(a@) == string_views(b@) {
                    assert(string_views(a@)[i as int] == string_views(b@)[i as int]);
                }
            }
            return false;
        }
        i = i + 1;
    }
    proof {
        assert(string_views(a@) =~= string_views(b@));
    }
    true
}

} // verus!

verus! {

/// Wrap one diff triple in the right `Mismatch` variant.
pub open spec fn wrap_diff(
    d: (Seq<char>, Option<Seq<Seq<char>>>, Option<Seq<Seq<char>>>),
    exceptions: bool,
) -> MismatchModel {
    if exceptions {
        MismatchModel::SpanEventExceptions { span: d.0, actual: d.1, expected: d.2 }
    } else {
        MismatchModel::SpanEventNames { span: d.0, actual: d.1, expected: d.2 }
    }
}

/// Diff two sorted association lists from the given cursors on, reporting
/// one mismatch per differing key.
fn diff_entry_lists(
    a: &Vec<(String, Vec<String>)>,
    e: &Vec<(String, Vec<String>)>,
    ia: usize,
    ie: usize,
    exceptions: bool,
) -> (r: Vec<Mismatch>)
    requires
        ia <= a@.len(),
        ie <= e@.len(),
    ensures
        r@.map_values(|m: Mismatch| m@) == entries_diff(
            entry_views(a@).skip(ia as int),
            entry_views(e@).skip(ie as int),
        ).map_values(|d: (Seq<char>, Option<Seq<Seq<char>>>, Option<Seq<Seq<char>>>)| wrap_diff(d, exceptions)),
    decreases a@.len() - ia + e@.len() - ie,
{
    let ghost av = entry_views(a@).skip(ia as int);
    let ghost ev = entry_views(e@).skip(ie as int);
    proof {
        if ia < a@.len() {
            assert(av.drop_first() =~= entry_views(a@).skip(ia as int + 1));
            assert(av[0] == entry_views(a@)[ia as int]);
            assert(entry_views(a@)[ia as int] == (a@[ia as int].0@, string_views(
                a@[ia as int].1@,
            )));
        }
        if ie < e@.len() {
            assert(ev.drop_first() =~= entry_views(e@).skip(ie as int + 1));
            assert(ev[0] == entry_views(e@)[ie as int]);
            assert(entry_views(e@)[ie as int] == (e@[ie as int].0@, string_views(
                e@[ie as int].1@,
            )));
        }
    }
    if ia >= a.len() && ie >= e.len() {
        let r: Vec<Mismatch> = Vec::new();
        proof {
            assert(r@.map_values(|m: Mismatch| m@) =~= entries_diff(av, ev).map_values(
                |d: (Seq<char>, Option<Seq<Seq<char>>>, Option<Seq<Seq<char>>>)| wrap_diff(
                    d,
                    exceptions,
                ),
            ));
        }
        return r;
    }
    // Decide which side's head key comes first.
    let take_left: bool;
    let keys_equal: bool;
    if ie >= e.len() {
        take_left = true;
        keys_equal = false;
    } else if ia >= a.len() {
        take_left = false;
        keys_equal = false;
    } else {
        keys_equal = str_eq(a[ia].0.as_str(), e[ie].0.as_str());
        if keys_equal {
            take_left = true;
        } else {
            take_left = str_leq(a[ia].0.as_str(), e[ie].0.as_str());
        }
    }
    if keys_equal {
        let values_equal = string_vecs_eq(&a[ia].1, &e[ie].1);
        let mut rest = diff_entry_lists(a, e, ia + 1, ie + 1, exceptions);
        if !values_equal {
            let m: Mismatch;
            if exceptions {
                m = Mismatch::SpanEventExceptions {
                    span: a[ia].0.clone(),
                    actual: Some(clone_string_vec(&a[ia].1)),
                    expected: Some(clone_string_vec(&e[ie].1)),
                };
            } else {
                m = Mismatch::SpanEventNames {
                    span: a[ia].0.clone(),
                    actual: Some(clone_string_vec(&a[ia].1)),
                    expected: Some(clone_string_vec(&e[ie].1)),
                };
            }
            let ghost old_rest = rest@;
            let ghost mv = m@;
            rest.insert(0, m);
            proof {
                assert(rest@.map_values(|x: Mismatch| x@) =~= seq![mv] + old_rest.map_values(
                    |x: Mismatch| x@,
                ));
                assert(entries_diff(av, ev) =~= seq![(av[0].0, Some(av[0].1), Some(ev[0].1))]
                    + entries_diff(av.drop_first(), ev.drop_first()));
                assert(rest@.map_values(|x: Mismatch| x@) =~= entries_diff(av, ev).map_values(
                    |d: (Seq<char>, Option<Seq<Seq<char>>>, Option<Seq<Seq<char>>>)| wrap_diff(
                        d,
                        exceptions,
                    ),
                ));
            }
        } else {
            proof {
                assert(entries_diff(av, ev) =~= Seq::<
                    (Seq<char>, Option<Seq<Seq<char>>>, Option<Seq<Seq<char>>>),
                >::empty() + entries_diff(av.drop_first(), ev.drop_first()));
                assert(rest@.map_values(|x: Mismatch| x@) =~= entries_diff(av, ev).map_values(
                    |d: (Seq<char>, Option<Seq<Seq<char>>>, Option<Seq<Seq<char>>>)| wrap_diff(
                        d,
                        exceptions,
                    ),
                ));
            }
        }
        rest
    } else if take_left {
        let mut rest = diff_entry_lists(a, e, ia + 1, ie, exceptions);
        let m: Mismatch;
        if exceptions {
            m = Mismatch::SpanEventExceptions {
                span: a[ia].0.clone(),
                actual: Some(clone_string_vec(&a[ia].1)),
                expected: None,
            };
        } else {
            m = Mismatch::SpanEventNames {
                span: a[ia].0.clone(),
                actual: Some(clone_string_vec(&a[ia].1)),
                expected: None,
            };
        }
        let ghost old_rest = rest@;
        let ghost mv = m@;
        rest.insert(0, m);
        proof {
            assert(rest@.map_values(|x: Mismatch| x@) =~= seq![mv] + old_rest.map_values(
                |x: Mismatch| x@,
            ));
            assert(entries_diff(av, ev) =~= seq![
                (av[0].0, Some(av[0].1), None::<Seq<Seq<char>>>),
            ] + entries_diff(av.drop_first(), ev));
            assert(rest@.map_values(|x: Mismatch| x@) =~= entries_diff(av, ev).map_values(
                |d: (Seq<char>, Option<Seq<Seq<char>>>, Option<Seq<Seq<char>>>)| wrap_diff(
                    d,
                    exceptions,
                ),
            ));
        }
        rest
    } else {
        let mut rest = diff_entry_lists(a, e, ia, ie + 1, exceptions);
        let m: Mismatch;
        if exceptions {
            m = Mismatch::SpanEventExceptions {
                span: e[ie].0.clone(),
                actual: None,
                expected: Some(clone_string_vec(&e[ie].1)),
            };
        } else {
            m = Mismatch::SpanEventNames {
                span: e[ie].0.clone(),
                actual: None,
                expected: Some(clone_string_vec(&e[ie].1)),
            };
        }
        let ghost old_rest = rest@;
        let ghost mv = m@;
        rest.insert(0, m);
        proof {
            assert(rest@.map_values(|x: Mismatch| x@) =~= seq![mv] + old_rest.map_values(
                |x: Mismatch| x@,
            ));
            assert(entries_diff(av, ev) =~= seq![
                (ev[0].0, None::<Seq<Seq<char>>>, Some(ev[0].1)),
            ] + entries_diff(av, ev.drop_first()));
            assert(rest@.map_values(|x: Mismatch| x@) =~= entries_diff(av, ev).map_values(
                |d: (Seq<char>, Option<Seq<Seq<char>>>, Option<Seq<Seq<char>>>)| wrap_diff(
                    d,
                    exceptions,
                ),
            ));
        }
        rest
    }
}

/// Compare an actual trace against an expected one, projection by
/// projection; each diverging check contributes its mismatches, in a fixed
/// order.  An empty result means the traces are equivalent under every
/// projection.
pub fn compare(actual: &TraceContent, expected: &TraceContent) -> (r: Vec<Mismatch>)
    requires
        scope_count(actual@) <= usize::MAX,
        scope_count(expected@) <= usize::MAX,
        status_count_of(actual@, STATUS_ERROR) <= usize::MAX,
        status_count_of(expected@, STATUS_ERROR) <= usize::MAX,
    ensures
        r@.map_values(|m: Mismatch| m@) == spec_compare(actual@, expected@),
{
    let ghost av = actual@;
    let ghost ev = expected@;
    let mut out: Vec<Mismatch> = Vec::new();

    let an = actual.get_span_names();
    let en = expected.get_span_names();
    if !string_vecs_eq(&an, &en) {
        out.push(Mismatch::SpanNames { actual: an, expected: en });
    }
    let ghost names_part: Seq<MismatchModel> = if sorted_span_names(av) == sorted_span_names(ev) {
        Seq::empty()
    } else {
        seq![
            MismatchModel::SpanNames {
                actual: sorted_span_names(av),
                expected: sorted_span_names(ev),
            },
        ]
    };
    proof {
        assert(out@.map_values(|m: Mismatch| m@) =~= names_part);
    }

    let ac = actual.span_count();
    let ec = expected.span_count();
    if ac != ec {
        out.push(Mismatch::SpanCount { actual: ac, expected: ec });
    }
    let ghost count_part: Seq<MismatchModel> = if scope_count(av) == scope_count(ev) {
        Seq::empty()
    } else {
        seq![MismatchModel::SpanCount { actual: scope_count(av), expected: scope_count(ev) }]
    };
    proof {
        assert(out@.map_values(|m: Mismatch| m@) =~= names_part + count_part);
    }

    let asc = actual.status_count(STATUS_ERROR);
    let esc = expected.status_count(STATUS_ERROR);
    if asc != esc {
        out.push(Mismatch::StatusCount { actual: asc, expected: esc });
    }
    let ghost status_part: Seq<MismatchModel> = if status_count_of(av, STATUS_ERROR)
        == status_count_of(ev, STATUS_ERROR) {
        Seq::empty()
    } else {
        seq![
            MismatchModel::StatusCount {
                actual: status_count_of(av, STATUS_ERROR),
                expected: status_count_of(ev, STATUS_ERROR),
            },
        ]
    };
    proof {
        assert(out@.map_values(|m: Mismatch| m@) =~= names_part + count_part + status_part);
    }

    let ane = actual.get_span_event_names();
    let ene = expected.get_span_event_names();
    proof {
        assert(entry_views(ane@).skip(0) =~= entry_views(ane@));
        assert(entry_views(ene@).skip(0) =~= entry_views(ene@));
    }
    let mut names_diff = diff_entry_lists(&ane, &ene, 0, 0, false);
    let ghost names_diff_model = entries_diff(
        entries_of_names(all_spans(av)),
        entries_of_names(all_spans(ev)),
    ).map_values(
        |d: (Seq<char>, Option<Seq<Seq<char>>>, Option<Seq<Seq<char>>>)|
            MismatchModel::SpanEventNames { span: d.0, actual: d.1, expected: d.2 },
    );
    proof {
        assert(names_diff@.map_values(|m: Mismatch| m@) =~= names_diff_model);
    }
    let ghost out_before = out@;
    out.append(&mut names_diff);
    proof {
        assert(out@.map_values(|m: Mismatch| m@) =~= names_part + count_part + status_part
            + names_diff_model);
    }

    let axe = actual.get_span_event_exceptions();
    let exe = expected.get_span_event_exceptions();
    proof {
        assert(entry_views(axe@).skip(0) =~= entry_views(axe@));
        assert(entry_views(exe@).skip(0) =~= entry_views(exe@));
    }
    let mut exc_diff = diff_entry_lists(&axe, &exe, 0, 0, true);
    let ghost exc_diff_model = entries_diff(
        entries_of_exceptions(all_spans(av)),
        entries_of_exceptions(all_spans(ev)),
    ).map_values(
        |d: (Seq<char>, Option<Seq<Seq<char>>>, Option<Seq<Seq<char>>>)|
            MismatchModel::SpanEventExceptions { span: d.0, actual: d.1, expected: d.2 },
    );
    proof {
        assert(exc_diff@.map_values(|m: Mismatch| m@) =~= exc_diff_model);
    }
    out.append(&mut exc_diff);
    proof {
        assert(out@.map_values(|m: Mismatch| m@) =~= names_part + count_part + status_part
            + names_diff_model + exc_diff_model);
        assert(spec_compare(av, ev) == names_part + count_part + status_part + names_diff_model
            + exc_diff_model);
    }
    out
}

} // verus!

verus! {

proof fn lemma_entries_diff_empty(
    a: Seq<(Seq<char>, Seq<Seq<char>>)>,
    e: Seq<(Seq<char>, Seq<Seq<char>>)>,
)
    ensures
        (entries_diff(a, e).len() == 0) <==> a == e,
    decreases a.len() + e.len(),
{
    if a.len() == 0 && e.len() == 0 {
        assert(a =~= e);
    } else if e.len() == 0 {
        assert(entries_diff(a, e).len() > 0);
    } else if a.len() == 0 {
        assert(entries_diff(a, e).len() > 0);
    } else if a[0].0 == e[0].0 {
        lemma_entries_diff_empty(a.drop_first(), e.drop_first());
        if a[0].1 == e[0].1 {
            assert(entries_diff(a, e) =~= entries_diff(a.drop_first(), e.drop_first()));
            if entries_diff(a, e).len() == 0 {
                assert(a.drop_first() == e.drop_first());
                assert forall|i: int| 0 <= i < a.len() implies a[i] == e[i] by {
                    if i > 0 {
                        assert(a[i] == a.drop_first()[i - 1]);
                        assert(e[i] == e.drop_first()[i - 1]);
                    } else {
                        assert(a[0].0 == e[0].0 && a[0].1 == e[0].1);
                    }
                }
                assert(a =~= e);
            }
            if a == e {
                assert(a.drop_first() =~= e.drop_first());
            }
        } else {
            assert(entries_diff(a, e).len() > 0);
            if a == e {
                assert(a[0] == e[0]);
            }
        }
    } else {
        assert(entries_diff(a, e).len() > 0);
        if a == e {
            assert(a[0] == e[0]);
        }
    }
}

/// The comparison is empty exactly when every projection agrees: equal
/// sorted span names, equal scope counts, equal error-status counts, and
/// equal per-span event-name and exception maps.
pub proof fn lemma_compare_empty_iff_equivalent(
    a: Seq<crate::model::ResourceSpanModel>,
    e: Seq<crate::model::ResourceSpanModel>,
)
    ensures
        (spec_compare(a, e).len() == 0) <==> {
            &&& sorted_span_names(a) == sorted_span_names(e)
            &&& scope_count(a) == scope_count(e)
            &&& status_count_of(a, STATUS_ERROR) == status_count_of(e, STATUS_ERROR)
            &&& entries_of_names(all_spans(a)) == entries_of_names(all_spans(e))
            &&& entries_of_exceptions(all_spans(a)) == entries_of_exceptions(all_spans(e))
        },
{
    lemma_entries_diff_empty(entries_of_names(all_spans(a)), entries_of_names(all_spans(e)));
    lemma_entries_diff_empty(
        entries_of_exceptions(all_spans(a)),
        entries_of_exceptions(all_spans(e)),
    );
}

} // verus!
