//! `TraceContent`: a semantic view over decoded resource spans.
//!
//! Every projection is a pure function of the underlying sequence, stated
//! against a spec-level definition: sorted span names, scope counts, status
//! histograms, and per-span maps of sorted event names and exception
//! messages.

use vstd::prelude::*;
use vstd::relations::sorted_by;
use vstd::seq_lib::lemma_sorted_unique;

use crate::model::{AttributeModel, Event, EventModel, ResourceSpan, ResourceSpanModel,
    ScopeSpanModel, Span, SpanModel};
use crate::strutil::{lex_leq, lemma_lex_leq_total, str_leq, str_eq};

verus! {

/// The lexicographic order, as a first-class spec value.
pub open spec fn name_leq() -> spec_fn(Seq<char>, Seq<char>) -> bool {
    |a: Seq<char>, b: Seq<char>| lex_leq(a, b)
}

/// The views of a vector of strings.
pub open spec fn string_views(v: Seq<String>) -> Seq<Seq<char>> {
    v.map_values(|s: String| s@)
}

/// The names of the spans of a span sequence, in order.
pub open spec fn names_of_spans(spans: Seq<SpanModel>) -> Seq<Seq<char>>
    decreases spans.len(),
{
    if spans.len() == 0 {
        Seq::empty()
    } else {
        seq![spans[0].name] + names_of_spans(spans.drop_first())
    }
}

/// The names of all spans under a scope span sequence, in order.
pub open spec fn names_of_scopes(scopes: Seq<ScopeSpanModel>) -> Seq<Seq<char>>
    decreases scopes.len(),
{
    if scopes.len() == 0 {
        Seq::empty()
    } else {
        names_of_spans(scopes[0].spans) + names_of_scopes(scopes.drop_first())
    }
}

/// The names of all spans under a resource span sequence, in file order.
pub open spec fn all_span_names(trace: Seq<ResourceSpanModel>) -> Seq<Seq<char>>
    decreases trace.len(),
{
    if trace.len() == 0 {
        Seq::empty()
    } else {
        names_of_scopes(trace[0].scope_spans) + all_span_names(trace.drop_first())
    }
}

/// The span-name projection: every span name, sorted.
pub open spec fn sorted_span_names(trace: Seq<ResourceSpanModel>) -> Seq<Seq<char>> {
    all_span_names(trace).sort_by(name_leq())
}

proof fn lemma_seq_skip_unstep<A>(s: Seq<A>, j: int)
    requires
        0 <= j < s.len(),
    ensures
        s.skip(j).drop_first() == s.skip(j + 1),
        s.skip(j)[0] == s[j],
        s.skip(j).len() == s.len() - j,
{
    assert(s.skip(j).drop_first() =~= s.skip(j + 1));
}

/// Insert a string into a vector kept sorted by `lex_leq`.
fn sorted_insert(v: &mut Vec<String>, x: String)
    requires
        sorted_by(string_views(old(v)@), name_leq()),
    ensures
        sorted_by(string_views(final(v)@), name_leq()),
        string_views(final(v)@).to_multiset() == string_views(old(v)@).to_multiset().insert(x@),
{
    let ghost leq = name_leq();
    proof {
        lemma_lex_leq_total();
    }
    let mut q: usize = 0;
    loop
        invariant
            leq == name_leq(),
            q <= v@.len(),
            sorted_by(string_views(v@), leq),
            v@ == old(v)@,
            forall|p: int| 0 <= p < q ==> #[trigger] leq(string_views(v@)[p], x@),
        ensures
            q <= v@.len(),
            v@ == old(v)@,
            leq == name_leq(),
            forall|p: int| 0 <= p < q ==> #[trigger] leq(string_views(v@)[p], x@),
            q < v@.len() ==> !leq(string_views(v@)[q as int], x@),
        decreases v@.len() - q,
    {
        if q >= v.len() {
            break;
        }
        let cmp = str_leq(v[q].as_str(), x.as_str());
        proof {
            assert(string_views(v@)[q as int] == v@[q as int]@);
        }
        if !cmp {
            break;
        }
        proof {
            assert(leq(string_views(v@)[q as int], x@));
        }
        q = q + 1;
    }
    proof {
        // Everything at or past `q` is at least `x`.
        assert forall|p: int| q <= p < v@.len() implies #[trigger] leq(x@, string_views(v@)[p]) by {
            if (q as int) < v@.len() {
                assert(string_views(v@)[q as int] == v@[q as int]@);
                assert(!leq(string_views(v@)[q as int], x@));
                crate::strutil::lemma_lex_leq_connected(string_views(v@)[q as int], x@);
                assert(leq(x@, string_views(v@)[q as int]));
                if p > q {
                    assert(leq(string_views(v@)[q as int], string_views(v@)[p]));
                }
            }
        }
    }
    let ghost before = v@;
    let ghost xv = x@;
    v.insert(q, x);
    proof {
        assert(string_views(v@) =~= string_views(before).insert(q as int, xv));
        lemma_insert_multiset(string_views(before), q as int, xv);
        let sv = string_views(v@);
        assert forall|i: int, j: int| 0 <= i < j < sv.len() implies #[trigger] leq(
            sv[i],
            sv[j],
        ) by {
            let bv = string_views(before);
            if i < q && j < q {
                assert(leq(bv[i], bv[j]));
            } else if i < q && j == q {
            } else if i < q && j > q {
                assert(leq(bv[i], bv[j - 1]));
            } else if i == q {
                if j > q {
                    assert(leq(xv, bv[j - 1]));
                }
            } else {
                assert(leq(bv[i - 1], bv[j - 1]));
            }
        }
    }
}

/// Inserting an element into a sequence inserts it into the multiset.
proof fn lemma_insert_multiset<A>(s: Seq<A>, i: int, x: A)
    requires
        0 <= i <= s.len(),
    ensures
        s.insert(i, x).to_multiset() == s.to_multiset().insert(x),
{
    broadcast use vstd::seq_lib::group_to_multiset_ensures;

    let b = s.insert(i, x);
    assert(b.remove(i) =~= s);
    assert(b.remove(i).to_multiset() =~= b.to_multiset().remove(b[i]));
    assert(b[i] == x);
    assert(b.to_multiset().contains(x)) by {
        assert(b.contains(x));
    }
    assert(b.to_multiset() =~= b.to_multiset().remove(x).insert(x));
}

/// Sort a vector of strings lexicographically.
pub fn sort_strings(v: Vec<String>) -> (r: Vec<String>)
    ensures
        string_views(r@) == string_views(v@).sort_by(name_leq()),
{
    proof {
        lemma_lex_leq_total();
    }
    let ghost leq = name_leq();
    let mut out: Vec<String> = Vec::new();
    let mut i: usize = 0;
    let ghost vv = string_views(v@);
    proof {
        assert(string_views(out@) =~= Seq::<Seq<char>>::empty());
        assert(vv.take(0) =~= Seq::<Seq<char>>::empty());
        vstd::seq_lib::lemma_multiset_commutative(Seq::<Seq<char>>::empty(), Seq::<
            Seq<char>,
        >::empty());
        assert(vv.take(0).to_multiset() =~= Seq::<Seq<char>>::empty().to_multiset());
    }
    while i < v.len()
        invariant
            leq == name_leq(),
            i <= v@.len(),
            vv == string_views(v@),
            sorted_by(string_views(out@), leq),
            string_views(out@).to_multiset() == vv.take(i as int).to_multiset(),
        decreases v@.len() - i,
    {
        broadcast use vstd::seq_lib::group_to_multiset_ensures;

        let x = v[i].clone();
        proof {
            assert(vv[i as int] == v@[i as int]@);
            assert(x@ == vv[i as int]);
            assert(vv.take(i as int + 1) =~= vv.take(i as int).push(vv[i as int]));
        }
        sorted_insert(&mut out, x);
        i = i + 1;
    }
    proof {
        assert(vv.take(vv.len() as int) =~= vv);
        string_views(v@).lemma_sort_by_ensures(leq);
        lemma_sorted_unique(string_views(out@), string_views(v@).sort_by(leq), leq);
    }
    out
}

} // verus!

verus! {

/// How many scope spans the trace holds (the historical meaning of
/// `span_count`).
pub open spec fn scope_count(trace: Seq<ResourceSpanModel>) -> int
    decreases trace.len(),
{
    if trace.len() == 0 {
        0
    } else {
        trace[0].scope_spans.len() + scope_count(trace.drop_first())
    }
}

proof fn lemma_scope_count_nonneg(trace: Seq<ResourceSpanModel>)
    ensures
        scope_count(trace) >= 0,
    decreases trace.len(),
{
    if trace.len() > 0 {
        lemma_scope_count_nonneg(trace.drop_first());
    }
}

/// How many spans of a span sequence carry the given status code.
pub open spec fn spans_status_count(spans: Seq<SpanModel>, status: u32) -> int
    decreases spans.len(),
{
    if spans.len() == 0 {
        0
    } else {
        (if spans[0].status_code == status {
            1int
        } else {
            0int
        }) + spans_status_count(spans.drop_first(), status)
    }
}

pub open spec fn scopes_status_count(scopes: Seq<ScopeSpanModel>, status: u32) -> int
    decreases scopes.len(),
{
    if scopes.len() == 0 {
        0
    } else {
        spans_status_count(scopes[0].spans, status) + scopes_status_count(
            scopes.drop_first(),
            status,
        )
    }
}

/// How many spans of the whole trace carry the given status code.
pub open spec fn status_count_of(trace: Seq<ResourceSpanModel>, status: u32) -> int
    decreases trace.len(),
{
    if trace.len() == 0 {
        0
    } else {
        scopes_status_count(trace[0].scope_spans, status) + status_count_of(
            trace.drop_first(),
            status,
        )
    }
}

proof fn lemma_spans_status_count_nonneg(spans: Seq<SpanModel>, status: u32)
    ensures
        spans_status_count(spans, status) >= 0,
    decreases spans.len(),
{
    if spans.len() > 0 {
        lemma_spans_status_count_nonneg(spans.drop_first(), status);
    }
}

proof fn lemma_scopes_status_count_nonneg(scopes: Seq<ScopeSpanModel>, status: u32)
    ensures
        scopes_status_count(scopes, status) >= 0,
    decreases scopes.len(),
{
    if scopes.len() > 0 {
        lemma_spans_status_count_nonneg(scopes[0].spans, status);
        lemma_scopes_status_count_nonneg(scopes.drop_first(), status);
    }
}

proof fn lemma_status_count_nonneg(trace: Seq<ResourceSpanModel>, status: u32)
    ensures
        status_count_of(trace, status) >= 0,
    decreases trace.len(),
{
    if trace.len() > 0 {
        lemma_scopes_status_count_nonneg(trace[0].scope_spans, status);
        lemma_status_count_nonneg(trace.drop_first(), status);
    }
}

/// An immutable semantic view over a sequence of decoded resource spans.
/// All projections are pure functions of `trace`, never cached state.
pub struct TraceContent {
    pub trace: Vec<ResourceSpan>,
}

impl View for TraceContent {
    type V = Seq<ResourceSpanModel>;

    open spec fn view(&self) -> Seq<ResourceSpanModel> {
        self.trace@.map_values(|r: ResourceSpan| r@)
    }
}

impl TraceContent {
    pub fn new(trace: Vec<ResourceSpan>) -> (r: Self)
        ensures
            r@ == trace@.map_values(|x: ResourceSpan| x@),
    {
        TraceContent { trace }
    }

    /// Every span name in the trace, sorted lexicographically.
    pub fn get_span_names(&self) -> (r: Vec<String>)
        ensures
            string_views(r@) == sorted_span_names(self@),
    {
        let ghost t = self@;
        let mut names: Vec<String> = Vec::new();
        proof {
            assert(t.skip(0) =~= t);
            assert(string_views(names@) =~= Seq::<Seq<char>>::empty());
            assert(all_span_names(t) =~= string_views(names@) + all_span_names(t.skip(0)));
        }
        let mut i: usize = 0;
        while i < self.trace.len()
            invariant
                t == self@,
                i <= self.trace@.len(),
                all_span_names(t) =~= string_views(names@) + all_span_names(t.skip(i as int)),
            decreases self.trace@.len() - i,
        {
            proof {
                lemma_seq_skip_unstep(t, i as int);
                assert(t[i as int] == self.trace@[i as int]@);
            }
            let rs = &self.trace[i];
            let ghost scs = t[i as int].scope_spans;
            let mut j: usize = 0;
            proof {
                assert(scs.skip(0) =~= scs);
                assert(all_span_names(t.skip(i as int)) == names_of_scopes(scs) + all_span_names(
                    t.skip(i as int + 1),
                ));
            }
            while j < rs.scope_spans.len()
                invariant
                    t == self@,
                    i < self.trace@.len(),
                    t[i as int] == self.trace@[i as int]@,
                    rs == &self.trace[i as int],
                    scs == t[i as int].scope_spans,
                    j <= rs.scope_spans@.len(),
                    scs.len() == rs.scope_spans@.len(),
                    all_span_names(t) =~= string_views(names@) + names_of_scopes(
                        scs.skip(j as int),
                    ) + all_span_names(t.skip(i as int + 1)),
                decreases rs.scope_spans@.len() - j,
            {
                proof {
                    lemma_seq_skip_unstep(scs, j as int);
                    assert(scs[j as int] == rs.scope_spans@[j as int]@);
                }
                let sc = &rs.scope_spans[j];
                let ghost sps = scs[j as int].spans;
                let mut k: usize = 0;
                proof {
                    assert(sps.skip(0) =~= sps);
                    assert(names_of_scopes(scs.skip(j as int)) == names_of_spans(sps)
                        + names_of_scopes(scs.skip(j as int + 1)));
                    assert(all_span_names(t) =~= string_views(names@) + names_of_spans(
                        sps.skip(0),
                    ) + names_of_scopes(scs.skip(j as int + 1)) + all_span_names(
                        t.skip(i as int + 1),
                    ));
                }
                while k < sc.spans.len()
                    invariant
                        t == self@,
                        i < self.trace@.len(),
                        j < scs.len(),
                        sc == &self.trace@[i as int].scope_spans[j as int],
                        scs == t[i as int].scope_spans,
                        scs[j as int] == self.trace@[i as int].scope_spans@[j as int]@,
                        sps == scs[j as int].spans,
                        k <= sc.spans@.len(),
                        sps.len() == sc.spans@.len(),
                        all_span_names(t) =~= string_views(names@) + names_of_spans(
                            sps.skip(k as int),
                        ) + names_of_scopes(scs.skip(j as int + 1)) + all_span_names(
                            t.skip(i as int + 1),
                        ),
                    decreases sc.spans@.len() - k,
                {
                    proof {
                        lemma_seq_skip_unstep(sps, k as int);
                        assert(sps[k as int] == sc.spans@[k as int]@);
                    }
                    let ghost old_names = names@;
                    names.push(sc.spans[k].name.clone());
                    proof {
                        assert(string_views(names@) =~= string_views(old_names) + seq![
                            sps[k as int].name,
                        ]);
                        assert(string_views(names@) + names_of_spans(sps.skip(k as int + 1))
                            =~= string_views(old_names) + names_of_spans(sps.skip(k as int)));
                        assert(all_span_names(t) =~= string_views(names@) + names_of_spans(
                            sps.skip(k as int + 1),
                        ) + names_of_scopes(scs.skip(j as int + 1)) + all_span_names(
                            t.skip(i as int + 1),
                        ));
                    }
                    k = k + 1;
                }
                proof {
                    assert(sps.skip(sps.len() as int) =~= Seq::<SpanModel>::empty());
                    assert(names_of_spans(sps.skip(sps.len() as int)) =~= Seq::<Seq<char>>::empty());
                    assert(string_views(names@) + names_of_scopes(scs.skip(j as int + 1))
                        + all_span_names(t.skip(i as int + 1)) =~= string_views(names@) + Seq::<
                        Seq<char>,
                    >::empty() + names_of_scopes(scs.skip(j as int + 1)) + all_span_names(
                        t.skip(i as int + 1),
                    ));
                }
                j = j + 1;
            }
            proof {
                assert(scs.skip(scs.len() as int) =~= Seq::<ScopeSpanModel>::empty());
                assert(names_of_scopes(scs.skip(scs.len() as int)) =~= Seq::<Seq<char>>::empty());
                assert(all_span_names(t) =~= string_views(names@) + all_span_names(
                    t.skip(i as int + 1),
                ));
            }
            i = i + 1;
        }
        proof {
            assert(t.skip(t.len() as int) =~= Seq::<ResourceSpanModel>::empty());
            assert(all_span_names(t.skip(t.len() as int)) =~= Seq::<Seq<char>>::empty());
            assert(all_span_names(t) =~= string_views(names@));
        }
        let r = sort_strings(names);
        proof {
            assert(string_views(r@) == all_span_names(t).sort_by(name_leq()));
        }
        r
    }

    /// The number of scope spans, summed over all resource spans.  Note that
    /// this counts scopes, not individual spans, which matches the export
    /// checks this projection serves.
    pub fn span_count(&self) -> (r: usize)
        requires
            scope_count(self@) <= usize::MAX,
        ensures
            r == scope_count(self@),
    {
        let ghost t = self@;
        proof {
            assert(t.skip(0) =~= t);
        }
        let mut acc: usize = 0;
        let mut i: usize = 0;
        while i < self.trace.len()
            invariant
                t == self@,
                scope_count(t) <= usize::MAX,
                i <= self.trace@.len(),
                scope_count(t) == acc + scope_count(t.skip(i as int)),
            decreases self.trace@.len() - i,
        {
            proof {
                lemma_seq_skip_unstep(t, i as int);
                assert(t[i as int] == self.trace@[i as int]@);
                lemma_scope_count_nonneg(t.skip(i as int + 1));
                assert(scope_count(t.skip(i as int)) == t[i as int].scope_spans.len()
                    + scope_count(t.skip(i as int + 1)));
            }
            let rs = &self.trace[i];
            acc = acc + rs.scope_spans.len();
            i = i + 1;
        }
        proof {
            assert(t.skip(t.len() as int) =~= Seq::<ResourceSpanModel>::empty());
        }
        acc
    }

    /// How many spans carry the given status code.
    pub fn status_count(&self, status: u32) -> (r: usize)
        requires
            status_count_of(self@, status) <= usize::MAX,
        ensures
            r == status_count_of(self@, status),
    {
        let ghost t = self@;
        proof {
            assert(t.skip(0) =~= t);
        }
        let mut acc: usize = 0;
        let mut i: usize = 0;
        while i < self.trace.len()
            invariant
                t == self@,
                status_count_of(t, status) <= usize::MAX,
                i <= self.trace@.len(),
                status_count_of(t, status) == acc + status_count_of(t.skip(i as int), status),
            decreases self.trace@.len() - i,
        {
            proof {
                lemma_seq_skip_unstep(t, i as int);
                assert(t[i as int] == self.trace@[i as int]@);
                assert(status_count_of(t.skip(i as int), status) == scopes_status_count(
                    t[i as int].scope_spans,
                    status,
                ) + status_count_of(t.skip(i as int + 1), status));
            }
            let rs = &self.trace[i];
            let ghost scs = t[i as int].scope_spans;
            let mut j: usize = 0;
            proof {
                assert(scs.skip(0) =~= scs);
            }
            while j < rs.scope_spans.len()
                invariant
                    t == self@,
                    status_count_of(t, status) <= usize::MAX,
                    i < self.trace@.len(),
                    t[i as int] == self.trace@[i as int]@,
                    rs == &self.trace[i as int],
                    scs == t[i as int].scope_spans,
                    j <= rs.scope_spans@.len(),
                    scs.len() == rs.scope_spans@.len(),
                    status_count_of(t, status) == acc + scopes_status_count(
                        scs.skip(j as int),
                        status,
                    ) + status_count_of(t.skip(i as int + 1), status),
                decreases rs.scope_spans@.len() - j,
            {
                proof {
                    lemma_seq_skip_unstep(scs, j as int);
                    assert(scs[j as int] == rs.scope_spans@[j as int]@);
                    assert(scopes_status_count(scs.skip(j as int), status) == spans_status_count(
                        scs[j as int].spans,
                        status,
                    ) + scopes_status_count(scs.skip(j as int + 1), status));
                }
                let sc = &rs.scope_spans[j];
                let ghost sps = scs[j as int].spans;
                let mut k: usize = 0;
                proof {
                    assert(sps.skip(0) =~= sps);
                }
                while k < sc.spans.len()
                    invariant
                        t == self@,
                        status_count_of(t, status) <= usize::MAX,
                        i < self.trace@.len(),
                        j < scs.len(),
                        sc == &self.trace@[i as int].scope_spans[j as int],
                        scs == t[i as int].scope_spans,
                        scs[j as int] == self.trace@[i as int].scope_spans@[j as int]@,
                        sps == scs[j as int].spans,
                        k <= sc.spans@.len(),
                        sps.len() == sc.spans@.len(),
                        status_count_of(t, status) == acc + spans_status_count(
                            sps.skip(k as int),
                            status,
                        ) + scopes_status_count(scs.skip(j as int + 1), status) + status_count_of(
                            t.skip(i as int + 1),
                            status,
                        ),
                    decreases sc.spans@.len() - k,
                {
                    proof {
                        lemma_seq_skip_unstep(sps, k as int);
                        assert(sps[k as int] == sc.spans@[k as int]@);
                        lemma_spans_status_count_nonneg(sps.skip(k as int + 1), status);
                        lemma_scopes_status_count_nonneg(scs.skip(j as int + 1), status);
                        lemma_status_count_nonneg(t.skip(i as int + 1), status);
                    }
                    let sp = &sc.spans[k];
                    if sp.status_code == status {
                        acc = acc + 1;
                    }
                    k = k + 1;
                }
                proof {
                    assert(sps.skip(sps.len() as int) =~= Seq::<SpanModel>::empty());
                }
                j = j + 1;
            }
            proof {
                assert(scs.skip(scs.len() as int) =~= Seq::<ScopeSpanModel>::empty());
            }
            i = i + 1;
        }
        proof {
            assert(t.skip(t.len() as int) =~= Seq::<ResourceSpanModel>::empty());
        }
        acc
    }
}

} // verus!

verus! {

/// All spans of a scope span sequence, in order.
pub open spec fn spans_of_scopes(scopes: Seq<ScopeSpanModel>) -> Seq<SpanModel>
    decreases scopes.len(),
{
    if scopes.len() == 0 {
        Seq::empty()
    } else {
        scopes[0].spans + spans_of_scopes(scopes.drop_first())
    }
}

/// All spans of the trace, in file order.
pub open spec fn all_spans(trace: Seq<ResourceSpanModel>) -> Seq<SpanModel>
    decreases trace.len(),
{
    if trace.len() == 0 {
        Seq::empty()
    } else {
        spans_of_scopes(trace[0].scope_spans) + all_spans(trace.drop_first())
    }
}

/// The value of the first attribute with the given key.
pub open spec fn find_attr(attrs: Seq<AttributeModel>, key: Seq<char>) -> Option<Seq<char>>
    decreases attrs.len(),
{
    if attrs.len() == 0 {
        None
    } else if attrs[0].key == key {
        Some(attrs[0].value)
    } else {
        find_attr(attrs.drop_first(), key)
    }
}

/// An event's `exception.message` attribute, or the empty string.
pub open spec fn exception_of(e: EventModel) -> Seq<char> {
    match find_attr(e.attributes, "exception.message"@) {
        Some(v) => v,
        None => Seq::empty(),
    }
}

/// A span's event names, sorted.
pub open spec fn sorted_event_names(sp: SpanModel) -> Seq<Seq<char>> {
    sp.events.map_values(|e: EventModel| e.name).sort_by(name_leq())
}

/// A span's per-event exception messages, sorted.
pub open spec fn sorted_event_exceptions(sp: SpanModel) -> Seq<Seq<char>> {
    sp.events.map_values(|e: EventModel| exception_of(e)).sort_by(name_leq())
}

/// The views of an association list's entries.
pub open spec fn entry_views(es: Seq<(String, Vec<String>)>) -> Seq<(Seq<char>, Seq<Seq<char>>)> {
    es.map_values(|e: (String, Vec<String>)| (e.0@, string_views(e.1@)))
}

/// The mapping an association list denotes (later entries win).
pub open spec fn assoc_map(es: Seq<(Seq<char>, Seq<Seq<char>>)>) -> Map<Seq<char>, Seq<Seq<char>>>
    decreases es.len(),
{
    if es.len() == 0 {
        Map::empty()
    } else {
        assoc_map(es.drop_last()).insert(es.last().0, es.last().1)
    }
}

/// Entries in strictly increasing key order (keys unique).
pub open spec fn entries_sorted(es: Seq<(Seq<char>, Seq<Seq<char>>)>) -> bool {
    forall|i: int, j: int|
        0 <= i < j < es.len() ==> lex_leq(#[trigger] es[i].0, #[trigger] es[j].0) && es[i].0
            != es[j].0
}

/// Span name -> sorted event names, over a span sequence; later spans with
/// the same name win.
pub open spec fn event_names_map(spans: Seq<SpanModel>) -> Map<Seq<char>, Seq<Seq<char>>>
    decreases spans.len(),
{
    if spans.len() == 0 {
        Map::empty()
    } else {
        event_names_map(spans.drop_last()).insert(
            spans.last().name,
            sorted_event_names(spans.last()),
        )
    }
}

/// Span name -> sorted exception messages, over a span sequence.
pub open spec fn event_exceptions_map(spans: Seq<SpanModel>) -> Map<Seq<char>, Seq<Seq<char>>>
    decreases spans.len(),
{
    if spans.len() == 0 {
        Map::empty()
    } else {
        event_exceptions_map(spans.drop_last()).insert(
            spans.last().name,
            sorted_event_exceptions(spans.last()),
        )
    }
}

/// Updating the entry at `q` updates the denoted mapping, provided no other
/// entry shares its key.
proof fn lemma_assoc_update(es: Seq<(Seq<char>, Seq<Seq<char>>)>, q: int, v: Seq<Seq<char>>)
    requires
        0 <= q < es.len(),
        forall|p: int| 0 <= p < es.len() && p != q ==> (#[trigger] es[p].0) != es[q].0,
    ensures
        assoc_map(es.update(q, (es[q].0, v))) == assoc_map(es).insert(es[q].0, v),
    decreases es.len(),
{
    let u = es.update(q, (es[q].0, v));
    if q == es.len() - 1 {
        assert(u.drop_last() =~= es.drop_last());
        assert(u.last() == (es[q].0, v));
        assert(assoc_map(u) == assoc_map(es.drop_last()).insert(es[q].0, v));
        assert(assoc_map(es.drop_last()).insert(es[q].0, v) =~= assoc_map(es).insert(es[q].0, v));
    } else {
        assert(u.drop_last() =~= es.drop_last().update(q, (es[q].0, v)));
        assert(u.last() == es.last());
        assert(es.drop_last()[q] == es[q]);
        lemma_assoc_update(es.drop_last(), q, v);
        assert(assoc_map(u) == assoc_map(es.drop_last()).insert(es[q].0, v).insert(
            es.last().0,
            es.last().1,
        ));
        assert(es.last().0 != es[q].0);
        assert(assoc_map(es.drop_last()).insert(es[q].0, v).insert(es.last().0, es.last().1)
            =~= assoc_map(es.drop_last()).insert(es.last().0, es.last().1).insert(es[q].0, v));
    }
}

/// Inserting an entry with a fresh key inserts it into the denoted mapping.
proof fn lemma_assoc_insert(
    es: Seq<(Seq<char>, Seq<Seq<char>>)>,
    q: int,
    key: Seq<char>,
    v: Seq<Seq<char>>,
)
    requires
        0 <= q <= es.len(),
        forall|p: int| 0 <= p < es.len() ==> (#[trigger] es[p].0) != key,
    ensures
        assoc_map(es.insert(q, (key, v))) == assoc_map(es).insert(key, v),
    decreases es.len(),
{
    let u = es.insert(q, (key, v));
    if q == es.len() {
        assert(u.drop_last() =~= es);
        assert(u.last() == (key, v));
    } else {
        assert(u.drop_last() =~= es.drop_last().insert(q, (key, v)));
        assert(u.last() == es.last());
        lemma_assoc_insert(es.drop_last(), q, key, v);
        assert(assoc_map(u) == assoc_map(es.drop_last()).insert(key, v).insert(
            es.last().0,
            es.last().1,
        ));
        assert(es.last().0 != key);
        assert(assoc_map(es.drop_last()).insert(key, v).insert(es.last().0, es.last().1)
            =~= assoc_map(es.drop_last()).insert(es.last().0, es.last().1).insert(key, v));
    }
}

/// What a lookup in a sorted-unique association list means for the mapping.
pub proof fn lemma_assoc_lookup(es: Seq<(Seq<char>, Seq<Seq<char>>)>, key: Seq<char>)
    requires
        forall|i: int, j: int| 0 <= i < j < es.len() ==> (#[trigger] es[i].0) != (#[trigger] es[j].0),
    ensures
        assoc_map(es).contains_key(key) <==> (exists|i: int|
            0 <= i < es.len() && (#[trigger] es[i].0) == key),
        forall|i: int|
            0 <= i < es.len() && (#[trigger] es[i].0) == key ==> assoc_map(es)[key] == es[i].1,
    decreases es.len(),
{
    if es.len() > 0 {
        assert(forall|i: int| 0 <= i < es.len() - 1 ==> es.drop_last()[i] == es[i]);
        lemma_assoc_lookup(es.drop_last(), key);
        if es.last().0 == key {
            assert(es[es.len() - 1].0 == key);
        } else {
            if exists|i: int| 0 <= i < es.len() && (#[trigger] es[i].0) == key {
                let i = choose|i: int| 0 <= i < es.len() && (#[trigger] es[i].0) == key;
                assert(i < es.len() - 1);
                assert(es.drop_last()[i].0 == key);
            }
        }
    }
}

/// Insert or replace the entry for `key` in a sorted association list.
fn upsert(entries: &mut Vec<(String, Vec<String>)>, key: String, val: Vec<String>)
    requires
        entries_sorted(entry_views(old(entries)@)),
    ensures
        entries_sorted(entry_views(final(entries)@)),
        assoc_map(entry_views(final(entries)@)) == assoc_map(entry_views(old(entries)@)).insert(
            key@,
            string_views(val@),
        ),
        entry_views(final(entries)@) == upsert_entry(
            entry_views(old(entries)@),
            key@,
            string_views(val@),
        ),
{
    proof {
        lemma_lex_leq_total();
    }
    let mut q: usize = 0;
    loop
        invariant
            q <= entries@.len(),
            entries@ == old(entries)@,
            entries_sorted(entry_views(entries@)),
            forall|p: int|
                0 <= p < q ==> lex_leq(#[trigger] entry_views(entries@)[p].0, key@) && entry_views(
                    entries@,
                )[p].0 != key@,
        ensures
            q <= entries@.len(),
            entries@ == old(entries)@,
            forall|p: int|
                0 <= p < q ==> lex_leq(#[trigger] entry_views(entries@)[p].0, key@) && entry_views(
                    entries@,
                )[p].0 != key@,
            q < entries@.len() ==> !(lex_leq(entry_views(entries@)[q as int].0, key@)
                && entry_views(entries@)[q as int].0 != key@),
        decreases entries@.len() - q,
    {
        if q >= entries.len() {
            break;
        }
        let le = str_leq(entries[q].0.as_str(), key.as_str());
        let eq = str_eq(entries[q].0.as_str(), key.as_str());
        proof {
            assert(entry_views(entries@)[q as int].0 == entries@[q as int].0@);
        }
        if !(le && !eq) {
            break;
        }
        q = q + 1;
    }
    let ghost before = entry_views(entries@);
    if q < entries.len() && str_eq(entries[q].0.as_str(), key.as_str()) {
        proof {
            assert(before[q as int].0 == entries@[q as int].0@);
            assert(before[q as int].0 == key@);
            assert(forall|p: int|
                0 <= p < before.len() && p != q ==> (#[trigger] before[p].0) != before[q as int].0);
        }
        let _ = entries.remove(q);
        entries.insert(q, (key, val));
        proof {
            assert(entry_views(entries@) =~= before.update(q as int, (key@, string_views(val@))));
            assert(before.update(q as int, (key@, string_views(val@))) =~= before.update(
                q as int,
                (before[q as int].0, string_views(val@)),
            ));
            lemma_assoc_update(before, q as int, string_views(val@));
            lemma_upsert_entry_at(before, q as int, key@, string_views(val@));
            let after = entry_views(entries@);
            assert forall|i: int, j: int| 0 <= i < j < after.len() implies lex_leq(
                #[trigger] after[i].0,
                #[trigger] after[j].0,
            ) && after[i].0 != after[j].0 by {
                assert(after[i].0 == before[i].0);
                assert(after[j].0 == before[j].0);
            }
        }
    } else {
        // `key` is not present: everything before `q` is strictly below it,
        // everything at or past `q` strictly above.
        proof {
            assert forall|p: int| q <= p < before.len() implies lex_leq(
                key@,
                #[trigger] before[p].0,
            ) && before[p].0 != key@ by {
                let bq = before[q as int].0;
                assert(bq == entries@[q as int].0@);
                if lex_leq(bq, key@) && bq != key@ {
                    assert(false);
                }
                crate::strutil::lemma_lex_leq_connected(bq, key@);
                if bq == key@ {
                    assert(false);
                }
                assert(lex_leq(key@, bq));
                if p > q {
                    assert(lex_leq(bq, before[p].0) && bq != before[p].0);
                    crate::strutil::lemma_lex_leq_transitive(key@, bq, before[p].0);
                    if before[p].0 == key@ {
                        crate::strutil::lemma_lex_leq_antisymmetric(bq, key@);
                    }
                }
            }
            assert(forall|p: int| 0 <= p < before.len() ==> (#[trigger] before[p].0) != key@);
        }
        entries.insert(q, (key, val));
        proof {
            assert(entry_views(entries@) =~= before.insert(q as int, (key@, string_views(val@))));
            lemma_assoc_insert(before, q as int, key@, string_views(val@));
            lemma_upsert_entry_at(before, q as int, key@, string_views(val@));
            let after = entry_views(entries@);
            assert forall|i: int, j: int| 0 <= i < j < after.len() implies lex_leq(
                #[trigger] after[i].0,
                #[trigger] after[j].0,
            ) && after[i].0 != after[j].0 by {
                crate::strutil::lemma_lex_leq_total();
                if i < q && j == q {
                } else if i < q && j > q {
                    assert(after[i].0 == before[i].0);
                    assert(after[j].0 == before[j - 1].0);
                } else if i == q && j > q {
                    assert(after[j].0 == before[j - 1].0);
                } else if i < q && j < q {
                    assert(after[i].0 == before[i].0);
                    assert(after[j].0 == before[j].0);
                } else {
                    assert(after[i].0 == before[i - 1].0);
                    assert(after[j].0 == before[j - 1].0);
                }
            }
        }
    }
}

} // verus!

verus! {

/// A span's event names, collected and sorted.
fn collect_event_names(sp: &Span) -> (r: Vec<String>)
    ensures
        string_views(r@) == sorted_event_names(sp@),
{
    let ghost evs = sp@.events;
    let mut names: Vec<String> = Vec::new();
    let mut k: usize = 0;
    proof {
        assert(string_views(names@) =~= evs.take(0).map_values(|e: EventModel| e.name));
    }
    while k < sp.events.len()
        invariant
            evs == sp@.events,
            k <= sp.events@.len(),
            evs.len() == sp.events@.len(),
            string_views(names@) =~= evs.take(k as int).map_values(|e: EventModel| e.name),
        decreases sp.events@.len() - k,
    {
        proof {
            assert(evs[k as int] == sp.events@[k as int]@);
            assert(evs.take(k as int + 1) =~= evs.take(k as int).push(evs[k as int]));
        }
        let ghost old_names = names@;
        names.push(sp.events[k].name.clone());
        proof {
            assert(string_views(names@) =~= string_views(old_names).push(evs[k as int].name));
            assert(evs.take(k as int + 1).map_values(|e: EventModel| e.name) =~= evs.take(
                k as int,
            ).map_values(|e: EventModel| e.name).push(evs[k as int].name));
            assert(string_views(names@) =~= evs.take(k as int + 1).map_values(
                |e: EventModel| e.name,
            ));
        }
        k = k + 1;
    }
    proof {
        assert(evs.take(evs.len() as int) =~= evs);
    }
    sort_strings(names)
}

/// An event's `exception.message` attribute value, or the empty string.
fn event_exception_message(e: &Event) -> (r: String)
    ensures
        r@ == exception_of(e@),
{
    let ghost attrs = e@.attributes;
    let mut k: usize = 0;
    proof {
        assert(attrs.skip(0) =~= attrs);
    }
    while k < e.attributes.len()
        invariant
            attrs == e@.attributes,
            k <= e.attributes@.len(),
            attrs.len() == e.attributes@.len(),
            find_attr(attrs, "exception.message"@) == find_attr(
                attrs.skip(k as int),
                "exception.message"@,
            ),
        decreases e.attributes@.len() - k,
    {
        proof {
            lemma_seq_skip_unstep(attrs, k as int);
            assert(attrs[k as int] == e.attributes@[k as int]@);
        }
        let a = &e.attributes[k];
        if str_eq(a.key.as_str(), "exception.message") {
            return a.value.clone();
        }
        k = k + 1;
    }
    proof {
        assert(attrs.skip(attrs.len() as int).len() == 0);
    }
    String::new()
}

/// A span's per-event exception messages, collected and sorted.
fn collect_event_exceptions(sp: &Span) -> (r: Vec<String>)
    ensures
        string_views(r@) == sorted_event_exceptions(sp@),
{
    let ghost evs = sp@.events;
    let mut msgs: Vec<String> = Vec::new();
    let mut k: usize = 0;
    proof {
        assert(string_views(msgs@) =~= evs.take(0).map_values(|e: EventModel| exception_of(e)));
    }
    while k < sp.events.len()
        invariant
            evs == sp@.events,
            k <= sp.events@.len(),
            evs.len() == sp.events@.len(),
            string_views(msgs@) =~= evs.take(k as int).map_values(|e: EventModel| exception_of(e)),
        decreases sp.events@.len() - k,
    {
        proof {
            assert(evs[k as int] == sp.events@[k as int]@);
            assert(evs.take(k as int + 1) =~= evs.take(k as int).push(evs[k as int]));
        }
        let ghost old_msgs = msgs@;
        let m = event_exception_message(&sp.events[k]);
        proof {
            assert(m@ == exception_of(evs[k as int]));
        }
        msgs.push(m);
        proof {
            assert(string_views(msgs@) =~= string_views(old_msgs).push(
                exception_of(evs[k as int]),
            ));
            assert(evs.take(k as int + 1).map_values(|e: EventModel| exception_of(e)) =~= evs.take(
                k as int,
            ).map_values(|e: EventModel| exception_of(e)).push(exception_of(evs[k as int])));
            assert(string_views(msgs@) =~= evs.take(k as int + 1).map_values(
                |e: EventModel| exception_of(e),
            ));
        }
        k = k + 1;
    }
    proof {
        assert(evs.take(evs.len() as int) =~= evs);
    }
    sort_strings(msgs)
}

/// Look a key up in a sorted association list.
pub fn lookup_entry<'a>(entries: &'a Vec<(String, Vec<String>)>, key: &str) -> (r: Option<
    &'a Vec<String>,
>)
    requires
        entries_sorted(entry_views(entries@)),
    ensures
        r matches Some(v) ==> assoc_map(entry_views(entries@)).contains_key(key@) && assoc_map(
            entry_views(entries@),
        )[key@] == string_views(v@),
        r is None ==> !assoc_map(entry_views(entries@)).contains_key(key@),
{
    proof {
        assert forall|i: int, j: int|
            0 <= i < j < entry_views(entries@).len() implies (#[trigger] entry_views(
            entries@,
        )[i].0) != (#[trigger] entry_views(entries@)[j].0) by {
            assert(entries_sorted(entry_views(entries@)));
        }
        lemma_assoc_lookup(entry_views(entries@), key@);
    }
    let mut k: usize = 0;
    while k < entries.len()
        invariant
            entries_sorted(entry_views(entries@)),
            k <= entries@.len(),
            forall|p: int| 0 <= p < k ==> (#[trigger] entry_views(entries@)[p].0) != key@,
        decreases entries@.len() - k,
    {
        proof {
            assert(entry_views(entries@)[k as int].0 == entries@[k as int].0@);
        }
        if str_eq(entries[k].0.as_str(), key) {
            proof {
                lemma_assoc_lookup(entry_views(entries@), key@);
                assert(entry_views(entries@)[k as int].1 == string_views(entries@[k as int].1@));
            }
            return Some(&entries[k].1);
        }
        k = k + 1;
    }
    proof {
        if exists|i: int| 0 <= i < entry_views(entries@).len() && (#[trigger] entry_views(
            entries@,
        )[i].0) == key@ {
            let i = choose|i: int|
                0 <= i < entry_views(entries@).len() && (#[trigger] entry_views(entries@)[i].0)
                    == key@;
            assert(false);
        }
    }
    None
}

impl TraceContent {
    /// Span name -> sorted event names, as an association list in strictly
    /// increasing key order.  A later span with the same name replaces the
    /// earlier entry.
    pub fn get_span_event_names(&self) -> (r: Vec<(String, Vec<String>)>)
        ensures
            entries_sorted(entry_views(r@)),
            assoc_map(entry_views(r@)) == event_names_map(all_spans(self@)),
            entry_views(r@) == entries_of_names(all_spans(self@)),
    {
        let ghost t = self@;
        let mut entries: Vec<(String, Vec<String>)> = Vec::new();
        let ghost done: Seq<SpanModel> = Seq::empty();
        proof {
            assert(t.skip(0) =~= t);
            assert(entry_views(entries@) =~= Seq::<(Seq<char>, Seq<Seq<char>>)>::empty());
            assert(all_spans(t) =~= done + all_spans(t.skip(0)));
            assert(done =~= Seq::<SpanModel>::empty());
        }
        let mut i: usize = 0;
        let mut done_tracker = Ghost(done);
        while i < self.trace.len()
            invariant
                t == self@,
                i <= self.trace@.len(),
                entries_sorted(entry_views(entries@)),
                assoc_map(entry_views(entries@)) == event_names_map(done_tracker@),
                entry_views(entries@) == entries_of_names(done_tracker@),
                all_spans(t) =~= done_tracker@ + all_spans(t.skip(i as int)),
            decreases self.trace@.len() - i,
        {
            proof {
                lemma_seq_skip_unstep(t, i as int);
                assert(t[i as int] == self.trace@[i as int]@);
            }
            let rs = &self.trace[i];
            let ghost scs = t[i as int].scope_spans;
            let mut j: usize = 0;
            proof {
                assert(scs.skip(0) =~= scs);
                assert(all_spans(t.skip(i as int)) == spans_of_scopes(scs) + all_spans(
                    t.skip(i as int + 1),
                ));
            }
            while j < rs.scope_spans.len()
                invariant
                    t == self@,
                    i < self.trace@.len(),
                    t[i as int] == self.trace@[i as int]@,
                    rs == &self.trace[i as int],
                    scs == t[i as int].scope_spans,
                    j <= rs.scope_spans@.len(),
                    scs.len() == rs.scope_spans@.len(),
                    entries_sorted(entry_views(entries@)),
                    assoc_map(entry_views(entries@)) == event_names_map(done_tracker@),
                entry_views(entries@) == entries_of_names(done_tracker@),
                    entry_views(entries@) == entries_of_names(done_tracker@),
                    all_spans(t) =~= done_tracker@ + spans_of_scopes(scs.skip(j as int))
                        + all_spans(t.skip(i as int + 1)),
                decreases rs.scope_spans@.len() - j,
            {
                proof {
                    lemma_seq_skip_unstep(scs, j as int);
                    assert(scs[j as int] == rs.scope_spans@[j as int]@);
                }
                let sc = &rs.scope_spans[j];
                let ghost sps = scs[j as int].spans;
                let mut k: usize = 0;
                proof {
                    assert(sps.skip(0) =~= sps);
                    assert(spans_of_scopes(scs.skip(j as int)) == sps + spans_of_scopes(
                        scs.skip(j as int + 1),
                    ));
                    assert(all_spans(t) =~= done_tracker@ + sps.skip(0) + spans_of_scopes(
                        scs.skip(j as int + 1),
                    ) + all_spans(t.skip(i as int + 1)));
                }
                while k < sc.spans.len()
                    invariant
                        t == self@,
                        i < self.trace@.len(),
                        j < scs.len(),
                        sc == &self.trace@[i as int].scope_spans[j as int],
                        scs == t[i as int].scope_spans,
                        scs[j as int] == self.trace@[i as int].scope_spans@[j as int]@,
                        sps == scs[j as int].spans,
                        k <= sc.spans@.len(),
                        sps.len() == sc.spans@.len(),
                        entries_sorted(entry_views(entries@)),
                        assoc_map(entry_views(entries@)) == event_names_map(done_tracker@),
                entry_views(entries@) == entries_of_names(done_tracker@),
                    entry_views(entries@) == entries_of_names(done_tracker@),
                        all_spans(t) =~= done_tracker@ + sps.skip(k as int) + spans_of_scopes(
                            scs.skip(j as int + 1),
                        ) + all_spans(t.skip(i as int + 1)),
                    decreases sc.spans@.len() - k,
                {
                    proof {
                        lemma_seq_skip_unstep(sps, k as int);
                        assert(sps[k as int] == sc.spans@[k as int]@);
                    }
                    let sp = &sc.spans[k];
                    let names = collect_event_names(sp);
                    let ghost old_done = done_tracker@;
                    upsert(&mut entries, sp.name.clone(), names);
                    proof {
                        done_tracker@ = old_done.push(sps[k as int]);
                        assert(done_tracker@.drop_last() =~= old_done);
                        assert(done_tracker@.last() == sps[k as int]);
                        assert(event_names_map(done_tracker@) == event_names_map(old_done).insert(
                            sps[k as int].name,
                            sorted_event_names(sps[k as int]),
                        ));
                        assert(entries_of_names(done_tracker@) == upsert_entry(
                            entries_of_names(old_done),
                            sps[k as int].name,
                            sorted_event_names(sps[k as int]),
                        ));
                        assert(sp@ == sps[k as int]);
                        assert(done_tracker@ + sps.skip(k as int + 1) =~= old_done + sps.skip(
                            k as int,
                        ));
                        assert(all_spans(t) =~= done_tracker@ + sps.skip(k as int + 1)
                            + spans_of_scopes(scs.skip(j as int + 1)) + all_spans(
                            t.skip(i as int + 1),
                        ));
                    }
                    k = k + 1;
                }
                proof {
                    assert(sps.skip(sps.len() as int) =~= Seq::<SpanModel>::empty());
                    assert(done_tracker@ + spans_of_scopes(scs.skip(j as int + 1)) + all_spans(
                        t.skip(i as int + 1),
                    ) =~= done_tracker@ + Seq::<SpanModel>::empty() + spans_of_scopes(
                        scs.skip(j as int + 1),
                    ) + all_spans(t.skip(i as int + 1)));
                }
                j = j + 1;
            }
            proof {
                assert(scs.skip(scs.len() as int) =~= Seq::<ScopeSpanModel>::empty());
                assert(spans_of_scopes(scs.skip(scs.len() as int)) =~= Seq::<SpanModel>::empty());
                assert(all_spans(t) =~= done_tracker@ + all_spans(t.skip(i as int + 1)));
            }
            i = i + 1;
        }
        proof {
            assert(t.skip(t.len() as int) =~= Seq::<ResourceSpanModel>::empty());
            assert(all_spans(t.skip(t.len() as int)) =~= Seq::<SpanModel>::empty());
            assert(done_tracker@ =~= all_spans(t));
        }
        entries
    }

    /// Span name -> sorted exception messages, as an association list in
    /// strictly increasing key order.
    pub fn get_span_event_exceptions(&self) -> (r: Vec<(String, Vec<String>)>)
        ensures
            entries_sorted(entry_views(r@)),
            assoc_map(entry_views(r@)) == event_exceptions_map(all_spans(self@)),
            entry_views(r@) == entries_of_exceptions(all_spans(self@)),
    {
        let ghost t = self@;
        let mut entries: Vec<(String, Vec<String>)> = Vec::new();
        let ghost done: Seq<SpanModel> = Seq::empty();
        proof {
            assert(t.skip(0) =~= t);
            assert(entry_views(entries@) =~= Seq::<(Seq<char>, Seq<Seq<char>>)>::empty());
            assert(all_spans(t) =~= done + all_spans(t.skip(0)));
            assert(done =~= Seq::<SpanModel>::empty());
        }
        let mut i: usize = 0;
        let mut done_tracker = Ghost(done);
        while i < self.trace.len()
            invariant
                t == self@,
                i <= self.trace@.len(),
                entries_sorted(entry_views(entries@)),
                assoc_map(entry_views(entries@)) == event_exceptions_map(done_tracker@),
                entry_views(entries@) == entries_of_exceptions(done_tracker@),
                all_spans(t) =~= done_tracker@ + all_spans(t.skip(i as int)),
            decreases self.trace@.len() - i,
        {
            proof {
                lemma_seq_skip_unstep(t, i as int);
                assert(t[i as int] == self.trace@[i as int]@);
            }
            let rs = &self.trace[i];
            let ghost scs = t[i as int].scope_spans;
            let mut j: usize = 0;
            proof {
                assert(scs.skip(0) =~= scs);
                assert(all_spans(t.skip(i as int)) == spans_of_scopes(scs) + all_spans(
                    t.skip(i as int + 1),
                ));
            }
            while j < rs.scope_spans.len()
                invariant
                    t == self@,
                    i < self.trace@.len(),
                    t[i as int] == self.trace@[i as int]@,
                    rs == &self.trace[i as int],
                    scs == t[i as int].scope_spans,
                    j <= rs.scope_spans@.len(),
                    scs.len() == rs.scope_spans@.len(),
                    entries_sorted(entry_views(entries@)),
                    assoc_map(entry_views(entries@)) == event_exceptions_map(done_tracker@),
                entry_views(entries@) == entries_of_exceptions(done_tracker@),
                    entry_views(entries@) == entries_of_exceptions(done_tracker@),
                    all_spans(t) =~= done_tracker@ + spans_of_scopes(scs.skip(j as int))
                        + all_spans(t.skip(i as int + 1)),
                decreases rs.scope_spans@.len() - j,
            {
                proof {
                    lemma_seq_skip_unstep(scs, j as int);
                    assert(scs[j as int] == rs.scope_spans@[j as int]@);
                }
                let sc = &rs.scope_spans[j];
                let ghost sps = scs[j as int].spans;
                let mut k: usize = 0;
                proof {
                    assert(sps.skip(0) =~= sps);
                    assert(spans_of_scopes(scs.skip(j as int)) == sps + spans_of_scopes(
                        scs.skip(j as int + 1),
                    ));
                    assert(all_spans(t) =~= done_tracker@ + sps.skip(0) + spans_of_scopes(
                        scs.skip(j as int + 1),
                    ) + all_spans(t.skip(i as int + 1)));
                }
                while k < sc.spans.len()
                    invariant
                        t == self@,
                        i < self.trace@.len(),
                        j < scs.len(),
                        sc == &self.trace@[i as int].scope_spans[j as int],
                        scs == t[i as int].scope_spans,
                        scs[j as int] == self.trace@[i as int].scope_spans@[j as int]@,
                        sps == scs[j as int].spans,
                        k <= sc.spans@.len(),
                        sps.len() == sc.spans@.len(),
                        entries_sorted(entry_views(entries@)),
                        assoc_map(entry_views(entries@)) == event_exceptions_map(done_tracker@),
                entry_views(entries@) == entries_of_exceptions(done_tracker@),
                    entry_views(entries@) == entries_of_exceptions(done_tracker@),
                        all_spans(t) =~= done_tracker@ + sps.skip(k as int) + spans_of_scopes(
                            scs.skip(j as int + 1),
                        ) + all_spans(t.skip(i as int + 1)),
                    decreases sc.spans@.len() - k,
                {
                    proof {
                        lemma_seq_skip_unstep(sps, k as int);
                        assert(sps[k as int] == sc.spans@[k as int]@);
                    }
                    let sp = &sc.spans[k];
                    let msgs = collect_event_exceptions(sp);
                    let ghost old_done = done_tracker@;
                    upsert(&mut entries, sp.name.clone(), msgs);
                    proof {
                        done_tracker@ = old_done.push(sps[k as int]);
                        assert(done_tracker@.drop_last() =~= old_done);
                        assert(done_tracker@.last() == sps[k as int]);
                        assert(event_exceptions_map(done_tracker@) == event_exceptions_map(
                            old_done,
                        ).insert(sps[k as int].name, sorted_event_exceptions(sps[k as int])));
                        assert(entries_of_exceptions(done_tracker@) == upsert_entry(
                            entries_of_exceptions(old_done),
                            sps[k as int].name,
                            sorted_event_exceptions(sps[k as int]),
                        ));
                        assert(sp@ == sps[k as int]);
                        assert(done_tracker@ + sps.skip(k as int + 1) =~= old_done + sps.skip(
                            k as int,
                        ));
                        assert(all_spans(t) =~= done_tracker@ + sps.skip(k as int + 1)
                            + spans_of_scopes(scs.skip(j as int + 1)) + all_spans(
                            t.skip(i as int + 1),
                        ));
                    }
                    k = k + 1;
                }
                proof {
                    assert(sps.skip(sps.len() as int) =~= Seq::<SpanModel>::empty());
                    assert(done_tracker@ + spans_of_scopes(scs.skip(j as int + 1)) + all_spans(
                        t.skip(i as int + 1),
                    ) =~= done_tracker@ + Seq::<SpanModel>::empty() + spans_of_scopes(
                        scs.skip(j as int + 1),
                    ) + all_spans(t.skip(i as int + 1)));
                }
                j = j + 1;
            }
            proof {
                assert(scs.skip(scs.len() as int) =~= Seq::<ScopeSpanModel>::empty());
                assert(spans_of_scopes(scs.skip(scs.len() as int)) =~= Seq::<SpanModel>::empty());
                assert(all_spans(t) =~= done_tracker@ + all_spans(t.skip(i as int + 1)));
            }
            i = i + 1;
        }
        proof {
            assert(t.skip(t.len() as int) =~= Seq::<ResourceSpanModel>::empty());
            assert(all_spans(t.skip(t.len() as int)) =~= Seq::<SpanModel>::empty());
            assert(done_tracker@ =~= all_spans(t));
        }
        entries
    }
}

} // verus!

verus! {

/// Insert or replace a key in a sorted association list, at the spec level.
pub open spec fn upsert_entry(
    es: Seq<(Seq<char>, Seq<Seq<char>>)>,
    key: Seq<char>,
    v: Seq<Seq<char>>,
) -> Seq<(Seq<char>, Seq<Seq<char>>)>
    decreases es.len(),
{
    if es.len() == 0 {
        seq![(key, v)]
    } else if es[0].0 == key {
        seq![(key, v)] + es.drop_first()
    } else if lex_leq(es[0].0, key) {
        seq![es[0]] + upsert_entry(es.drop_first(), key, v)
    } else {
        seq![(key, v)] + es
    }
}

/// Where the executable scan stops determines what `upsert_entry` does.
proof fn lemma_upsert_entry_at(
    es: Seq<(Seq<char>, Seq<Seq<char>>)>,
    q: int,
    key: Seq<char>,
    v: Seq<Seq<char>>,
)
    requires
        0 <= q <= es.len(),
        forall|p: int| 0 <= p < q ==> lex_leq(#[trigger] es[p].0, key) && es[p].0 != key,
        q < es.len() ==> !(lex_leq(es[q].0, key) && es[q].0 != key),
    ensures
        q < es.len() && es[q].0 == key ==> upsert_entry(es, key, v) == es.update(q, (key, v)),
        !(q < es.len() && es[q].0 == key) ==> upsert_entry(es, key, v) == es.insert(q, (key, v)),
    decreases es.len(),
{
    if es.len() == 0 {
        assert(upsert_entry(es, key, v) =~= es.insert(0, (key, v)));
    } else if q == 0 {
        if es[0].0 == key {
            assert(upsert_entry(es, key, v) =~= es.update(0, (key, v)));
        } else {
            assert(!lex_leq(es[0].0, key));
            assert(upsert_entry(es, key, v) =~= es.insert(0, (key, v)));
        }
    } else {
        let d = es.drop_first();
        assert(forall|p: int| 0 <= p < d.len() ==> d[p] == es[p + 1]);
        assert(lex_leq(es[0].0, key) && es[0].0 != key);
        lemma_upsert_entry_at(d, q - 1, key, v);
        if q < es.len() && es[q].0 == key {
            assert(d[q - 1].0 == key);
            assert(upsert_entry(es, key, v) == seq![es[0]] + d.update(q - 1, (key, v)));
            assert(seq![es[0]] + d.update(q - 1, (key, v)) =~= es.update(q, (key, v)));
        } else {
            assert(upsert_entry(es, key, v) == seq![es[0]] + d.insert(q - 1, (key, v)));
            assert(seq![es[0]] + d.insert(q - 1, (key, v)) =~= es.insert(q, (key, v)));
        }
    }
}

/// The canonical association list of span name -> sorted event names.
pub open spec fn entries_of_names(spans: Seq<SpanModel>) -> Seq<(Seq<char>, Seq<Seq<char>>)>
    decreases spans.len(),
{
    if spans.len() == 0 {
        Seq::empty()
    } else {
        upsert_entry(
            entries_of_names(spans.drop_last()),
            spans.last().name,
            sorted_event_names(spans.last()),
        )
    }
}

/// The canonical association list of span name -> sorted exception messages.
pub open spec fn entries_of_exceptions(spans: Seq<SpanModel>) -> Seq<(Seq<char>, Seq<Seq<char>>)>
    decreases spans.len(),
{
    if spans.len() == 0 {
        Seq::empty()
    } else {
        upsert_entry(
            entries_of_exceptions(spans.drop_last()),
            spans.last().name,
            sorted_event_exceptions(spans.last()),
        )
    }
}

} // verus!

verus! {

proof fn lemma_all_names_remove(t: Seq<ResourceSpanModel>, i: int)
    requires
        0 <= i < t.len(),
    ensures
        all_span_names(t).to_multiset() == names_of_scopes(t[i].scope_spans).to_multiset().add(
            all_span_names(t.remove(i)).to_multiset(),
        ),
    decreases i,
{
    broadcast use vstd::seq_lib::lemma_multiset_commutative;

    if i == 0 {
        assert(t.remove(0) =~= t.drop_first());
        assert(all_span_names(t) == names_of_scopes(t[0].scope_spans) + all_span_names(
            t.drop_first(),
        ));
    } else {
        let d = t.drop_first();
        assert(t.remove(i).drop_first() =~= d.remove(i - 1));
        assert(t.remove(i)[0] == t[0]);
        assert(d[i - 1] == t[i]);
        lemma_all_names_remove(d, i - 1);
        assert(all_span_names(t) == names_of_scopes(t[0].scope_spans) + all_span_names(d));
        assert(all_span_names(t.remove(i)) == names_of_scopes(t[0].scope_spans) + all_span_names(
            d.remove(i - 1),
        ));
        let n0 = names_of_scopes(t[0].scope_spans).to_multiset();
        let ni = names_of_scopes(t[i].scope_spans).to_multiset();
        let nd = all_span_names(d.remove(i - 1)).to_multiset();
        assert(all_span_names(t).to_multiset() =~= n0.add(ni.add(nd)));
        assert(all_span_names(t.remove(i)).to_multiset() =~= n0.add(nd));
        assert(n0.add(ni.add(nd)) =~= ni.add(n0.add(nd)));
    }
}

proof fn lemma_all_names_multiset(a: Seq<ResourceSpanModel>, b: Seq<ResourceSpanModel>)
    requires
        a.to_multiset() == b.to_multiset(),
    ensures
        all_span_names(a).to_multiset() == all_span_names(b).to_multiset(),
    decreases a.len(),
{
    broadcast use vstd::seq_lib::group_to_multiset_ensures;
    broadcast use vstd::seq_lib::lemma_multiset_commutative;

    if a.len() == 0 {
        assert(a.to_multiset().len() == 0);
        assert(b.to_multiset().len() == 0);
        assert(b.len() == 0);
    } else {
        let x = a[0];
        assert(a.to_multiset().contains(x)) by {
            assert(a.contains(x));
        }
        assert(b.to_multiset().contains(x));
        assert(b.contains(x));
        let i = choose|i: int| 0 <= i < b.len() && b[i] == x;
        let b2 = b.remove(i);
        assert(a.drop_first() =~= a.remove(0));
        assert(a.remove(0).to_multiset() =~= a.to_multiset().remove(x));
        assert(b2.to_multiset() =~= b.to_multiset().remove(x));
        lemma_all_names_multiset(a.drop_first(), b2);
        lemma_all_names_remove(b, i);
        assert(all_span_names(a) == names_of_scopes(x.scope_spans) + all_span_names(
            a.drop_first(),
        ));
        assert(all_span_names(a).to_multiset() =~= names_of_scopes(
            x.scope_spans,
        ).to_multiset().add(all_span_names(a.drop_first()).to_multiset()));
        assert(all_span_names(b).to_multiset() =~= names_of_scopes(
            x.scope_spans,
        ).to_multiset().add(all_span_names(b2).to_multiset()));
    }
}

/// The span-name projection is invariant to the physical ordering of the
/// export: traces holding the same resource spans, however ordered across
/// and within lines, have equal sorted span names.
pub proof fn lemma_span_names_order_invariant(
    a: Seq<ResourceSpanModel>,
    b: Seq<ResourceSpanModel>,
)
    requires
        a.to_multiset() == b.to_multiset(),
    ensures
        sorted_span_names(a) == sorted_span_names(b),
{
    lemma_lex_leq_total();
    lemma_all_names_multiset(a, b);
    all_span_names(a).lemma_sort_by_ensures(name_leq());
    all_span_names(b).lemma_sort_by_ensures(name_leq());
    lemma_sorted_unique(sorted_span_names(a), sorted_span_names(b), name_leq());
}

/// The span-name projection is idempotent: its result is already sorted, so
/// sorting it again changes nothing.
pub proof fn lemma_span_names_idempotent(t: Seq<ResourceSpanModel>)
    ensures
        sorted_span_names(t).sort_by(name_leq()) == sorted_span_names(t),
{
    lemma_lex_leq_total();
    all_span_names(t).lemma_sort_by_ensures(name_leq());
    sorted_span_names(t).lemma_sort_by_ensures(name_leq());
    lemma_sorted_unique(
        sorted_span_names(t).sort_by(name_leq()),
        sorted_span_names(t),
        name_leq(),
    );
}

} // verus!

verus! {

impl ResourceSpan {
    /// The value of the resource's `service.name` attribute, or the empty
    /// string.
    pub fn get_service_name(&self) -> (r: String)
        ensures
            r@ == (match find_attr(self@.attributes, "service.name"@) {
                Some(v) => v,
                None => Seq::<char>::empty(),
            }),
    {
        let ghost attrs = self@.attributes;
        let mut k: usize = 0;
        proof {
            assert(attrs.skip(0) =~= attrs);
        }
        while k < self.attributes.len()
            invariant
                attrs == self@.attributes,
                k <= self.attributes@.len(),
                attrs.len() == self.attributes@.len(),
                find_attr(attrs, "service.name"@) == find_attr(
                    attrs.skip(k as int),
                    "service.name"@,
                ),
            decreases self.attributes@.len() - k,
        {
            proof {
                lemma_seq_skip_unstep(attrs, k as int);
                assert(attrs[k as int] == self.attributes@[k as int]@);
            }
            let a = &self.attributes[k];
            if str_eq(a.key.as_str(), "service.name") {
                return a.value.clone();
            }
            k = k + 1;
        }
        proof {
            assert(attrs.skip(attrs.len() as int).len() == 0);
        }
        String::new()
    }

    /// Every span name under this resource span, in scope order (unsorted).
    pub fn get_span_names(&self) -> (r: Vec<String>)
        ensures
            string_views(r@) == names_of_scopes(self@.scope_spans),
    {
        let ghost scs = self@.scope_spans;
        let mut names: Vec<String> = Vec::new();
        let mut j: usize = 0;
        proof {
            assert(scs.skip(0) =~= scs);
            assert(string_views(names@) =~= Seq::<Seq<char>>::empty());
            assert(names_of_scopes(scs) =~= string_views(names@) + names_of_scopes(scs.skip(0)));
        }
        while j < self.scope_spans.len()
            invariant
                scs == self@.scope_spans,
                j <= self.scope_spans@.len(),
                scs.len() == self.scope_spans@.len(),
                names_of_scopes(scs) =~= string_views(names@) + names_of_scopes(scs.skip(j as int)),
            decreases self.scope_spans@.len() - j,
        {
            proof {
                lemma_seq_skip_unstep(scs, j as int);
                assert(scs[j as int] == self.scope_spans@[j as int]@);
            }
            let sc = &self.scope_spans[j];
            let ghost sps = scs[j as int].spans;
            let mut k: usize = 0;
            proof {
                assert(sps.skip(0) =~= sps);
                assert(names_of_scopes(scs.skip(j as int)) == names_of_spans(sps) + names_of_scopes(
                    scs.skip(j as int + 1),
                ));
                assert(names_of_scopes(scs) =~= string_views(names@) + names_of_spans(sps.skip(0))
                    + names_of_scopes(scs.skip(j as int + 1)));
            }
            while k < sc.spans.len()
                invariant
                    scs == self@.scope_spans,
                    j < scs.len(),
                    sc == &self.scope_spans@[j as int],
                    scs[j as int] == self.scope_spans@[j as int]@,
                    sps == scs[j as int].spans,
                    k <= sc.spans@.len(),
                    sps.len() == sc.spans@.len(),
                    names_of_scopes(scs) =~= string_views(names@) + names_of_spans(
                        sps.skip(k as int),
                    ) + names_of_scopes(scs.skip(j as int + 1)),
                decreases sc.spans@.len() - k,
            {
                proof {
                    lemma_seq_skip_unstep(sps, k as int);
                    assert(sps[k as int] == sc.spans@[k as int]@);
                }
                let ghost old_names = names@;
                names.push(sc.spans[k].name.clone());
                proof {
                    assert(string_views(names@) =~= string_views(old_names) + seq![
                        sps[k as int].name,
                    ]);
                    assert(string_views(names@) + names_of_spans(sps.skip(k as int + 1))
                        =~= string_views(old_names) + names_of_spans(sps.skip(k as int)));
                    assert(names_of_scopes(scs) =~= string_views(names@) + names_of_spans(
                        sps.skip(k as int + 1),
                    ) + names_of_scopes(scs.skip(j as int + 1)));
                }
                k = k + 1;
            }
            proof {
                assert(sps.skip(sps.len() as int) =~= Seq::<SpanModel>::empty());
                assert(names_of_spans(sps.skip(sps.len() as int)) =~= Seq::<Seq<char>>::empty());
                assert(string_views(names@) + names_of_scopes(scs.skip(j as int + 1))
                    =~= string_views(names@) + Seq::<Seq<char>>::empty() + names_of_scopes(
                    scs.skip(j as int + 1),
                ));
            }
            j = j + 1;
        }
        proof {
            assert(scs.skip(scs.len() as int) =~= Seq::<ScopeSpanModel>::empty());
            assert(names_of_scopes(scs.skip(scs.len() as int)) =~= Seq::<Seq<char>>::empty());
            assert(names_of_scopes(scs) =~= string_views(names@));
        }
        names
    }
}

} // verus!
