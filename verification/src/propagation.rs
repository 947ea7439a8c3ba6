//! `PropagationContext`: a serializable string-to-string carrier for
//! cross-process trace context.
//!
//! A pure data adapter: keys are unique, `set` inserts or replaces, `get`
//! retrieves, so a context round-trips every key/value pair it was given.
//! The embedding binary moves values of this type through the process-wide
//! propagator and across serialization boundaries.

use vstd::prelude::*;

use crate::strutil::str_eq;

verus! {

/// The mapping an entry list denotes (later entries win; with unique keys,
/// the only entry for its key).
pub open spec fn kv_map(es: Seq<(String, String)>) -> Map<Seq<char>, Seq<char>>
    decreases es.len(),
{
    if es.len() == 0 {
        Map::empty()
    } else {
        kv_map(es.drop_last()).insert(es.last().0@, es.last().1@)
    }
}

pub open spec fn kv_keys_unique(es: Seq<(String, String)>) -> bool {
    forall|i: int, j: int| 0 <= i < j < es.len() ==> (#[trigger] es[i].0@) != (#[trigger] es[j].0@)
}

/// Replacing the entry at `q` (key view unchanged) updates the mapping,
/// provided no other entry shares that key.
proof fn lemma_kv_update(es: Seq<(String, String)>, q: int, k2: String, v: String)
    requires
        0 <= q < es.len(),
        k2@ == es[q].0@,
        forall|p: int| 0 <= p < es.len() && p != q ==> (#[trigger] es[p].0@) != es[q].0@,
    ensures
        kv_map(es.update(q, (k2, v))) == kv_map(es).insert(es[q].0@, v@),
    decreases es.len(),
{
    let u = es.update(q, (k2, v));
    if q == es.len() - 1 {
        assert(u.drop_last() =~= es.drop_last());
        assert(kv_map(es.drop_last()).insert(k2@, v@) =~= kv_map(es).insert(es[q].0@, v@));
    } else {
        assert(u.drop_last() =~= es.drop_last().update(q, (k2, v)));
        assert(u.last() == es.last());
        assert(es.drop_last()[q] == es[q]);
        lemma_kv_update(es.drop_last(), q, k2, v);
        assert(es.last().0@ != es[q].0@);
        assert(kv_map(es.drop_last()).insert(es[q].0@, v@).insert(es.last().0@, es.last().1@)
            =~= kv_map(es.drop_last()).insert(es.last().0@, es.last().1@).insert(es[q].0@, v@));
    }
}

/// What a lookup over the entries means for the mapping.
proof fn lemma_kv_lookup(es: Seq<(String, String)>, key: Seq<char>)
    requires
        kv_keys_unique(es),
    ensures
        kv_map(es).contains_key(key) <==> (exists|i: int|
            0 <= i < es.len() && (#[trigger] es[i].0@) == key),
        forall|i: int|
            0 <= i < es.len() && (#[trigger] es[i].0@) == key ==> kv_map(es)[key] == es[i].1@,
    decreases es.len(),
{
    if es.len() > 0 {
        assert(forall|i: int| 0 <= i < es.len() - 1 ==> es.drop_last()[i] == es[i]);
        lemma_kv_lookup(es.drop_last(), key);
        if es.last().0@ == key {
            assert(es[es.len() - 1].0@ == key);
        } else {
            if exists|i: int| 0 <= i < es.len() && (#[trigger] es[i].0@) == key {
                let i = choose|i: int| 0 <= i < es.len() && (#[trigger] es[i].0@) == key;
                assert(i < es.len() - 1);
                assert(es.drop_last()[i].0@ == key);
            }
        }
    }
}

/// A serializable key/value carrier for cross-process trace context.
pub struct PropagationContext {
    entries: Vec<(String, String)>,
}

impl View for PropagationContext {
    type V = Map<Seq<char>, Seq<char>>;

    closed spec fn view(&self) -> Map<Seq<char>, Seq<char>> {
        kv_map(self.entries@)
    }
}

impl PropagationContext {
    /// Keys are unique: each key denotes exactly one value.
    pub closed spec fn well_formed(&self) -> bool {
        kv_keys_unique(self.entries@)
    }

    /// A context carrying nothing.
    pub fn empty() -> (r: Self)
        ensures
            r@ == Map::<Seq<char>, Seq<char>>::empty(),
            r.well_formed(),
    {
        PropagationContext { entries: Vec::new() }
    }

    /// Insert a key/value pair, replacing any pair with the same key.
    pub fn set(&mut self, key: &str, value: String)
        requires
            old(self).well_formed(),
        ensures
            final(self).well_formed(),
            final(self)@ == old(self)@.insert(key@, value@),
    {
        let ghost before = self.entries@;
        let mut q: usize = 0;
        loop
            invariant
                q <= self.entries@.len(),
                self.entries@ == before,
                kv_keys_unique(before),
                forall|p: int| 0 <= p < q ==> (#[trigger] before[p].0@) != key@,
            ensures
                q <= before.len(),
                self.entries@ == before,
                forall|p: int| 0 <= p < q ==> (#[trigger] before[p].0@) != key@,
                q < before.len() ==> before[q as int].0@ == key@,
            decreases self.entries@.len() - q,
        {
            if q >= self.entries.len() {
                break;
            }
            let found = str_eq(self.entries[q].0.as_str(), key);
            if found {
                break;
            }
            q = q + 1;
        }
        if q < self.entries.len() {
            let _ = self.entries.remove(q);
            self.entries.insert(q, (key.to_owned(), value));
            proof {
                assert(self.entries@ =~= before.update(q as int, (self.entries@[q as int].0, self.entries@[q as int].1)));
                lemma_kv_update(
                    before,
                    q as int,
                    self.entries@[q as int].0,
                    self.entries@[q as int].1,
                );
                assert(kv_map(self.entries@) =~= kv_map(before).insert(key@, value@));
                assert forall|i: int, j: int|
                    0 <= i < j < self.entries@.len() implies (#[trigger] self.entries@[i].0@) != (
                #[trigger] self.entries@[j].0@) by {
                    if i != q && j != q {
                        assert(self.entries@[i].0@ == before[i].0@);
                        assert(self.entries@[j].0@ == before[j].0@);
                    } else if i == q {
                        assert(self.entries@[j].0@ == before[j].0@);
                    } else {
                        assert(self.entries@[i].0@ == before[i].0@);
                    }
                }
            }
        } else {
            self.entries.push((key.to_owned(), value));
            proof {
                assert(self.entries@.drop_last() =~= before);
                assert(kv_map(self.entries@) =~= kv_map(before).insert(key@, value@));
                assert forall|i: int, j: int|
                    0 <= i < j < self.entries@.len() implies (#[trigger] self.entries@[i].0@) != (
                #[trigger] self.entries@[j].0@) by {
                    if j < self.entries@.len() - 1 {
                        assert(self.entries@[i].0@ == before[i].0@);
                        assert(self.entries@[j].0@ == before[j].0@);
                    } else {
                        assert(self.entries@[i].0@ == before[i].0@);
                    }
                }
            }
        }
    }

    /// The value stored under a key, if any.
    pub fn get(&self, key: &str) -> (r: Option<&str>)
        requires
            self.well_formed(),
        ensures
            r matches Some(v) ==> self@.contains_key(key@) && self@[key@] == v@,
            r is None ==> !self@.contains_key(key@),
    {
        proof {
            lemma_kv_lookup(self.entries@, key@);
        }
        let mut q: usize = 0;
        while q < self.entries.len()
            invariant
                q <= self.entries@.len(),
                kv_keys_unique(self.entries@),
                forall|p: int| 0 <= p < q ==> (#[trigger] self.entries@[p].0@) != key@,
            decreases self.entries@.len() - q,
        {
            if str_eq(self.entries[q].0.as_str(), key) {
                proof {
                    lemma_kv_lookup(self.entries@, key@);
                }
                return Some(self.entries[q].1.as_str());
            }
            q = q + 1;
        }
        proof {
            if exists|i: int|
                0 <= i < self.entries@.len() && (#[trigger] self.entries@[i].0@) == key@ {
                let i = choose|i: int|
                    0 <= i < self.entries@.len() && (#[trigger] self.entries@[i].0@) == key@;
                assert(false);
            }
        }
        None
    }

    /// Every key held, in entry order.
    pub fn keys(&self) -> (r: Vec<&str>)
        ensures
            r@.len() == self.spec_entries().len(),
            forall|i: int|
                0 <= i < r@.len() ==> (#[trigger] r@[i]@) == self.spec_entries()[i].0@,
    {
        let mut r: Vec<&str> = Vec::new();
        let mut q: usize = 0;
        while q < self.entries.len()
            invariant
                q <= self.entries@.len(),
                r@.len() == q,
                forall|i: int| 0 <= i < q ==> (#[trigger] r@[i]@) == self.entries@[i].0@,
            decreases self.entries@.len() - q,
        {
            r.push(self.entries[q].0.as_str());
            q = q + 1;
        }
        r
    }

    /// The underlying entries, for contracts about entry order.
    pub closed spec fn spec_entries(&self) -> Seq<(String, String)> {
        self.entries@
    }

    /// How many pairs the context holds.
    pub fn len(&self) -> (r: usize)
        ensures
            r == self.spec_entries().len(),
    {
        self.entries.len()
    }
}

} // verus!
