//! A small association-list map with unique `u64` keys.
//!
//! The engine keeps two indices (futex address to newest node, thread
//! id to cursor).  Both need ordinary map operations plus a sweep that
//! rewrites entries when nodes are evicted; a vector of pairs supports
//! all of that with direct reasoning, and the engine's index sizes are
//! bounded by the number of live threads and addresses.

use vstd::prelude::*;

verus! {

/// A map from `u64` keys to copyable values, stored as an entry list
/// whose keys are pairwise distinct.
pub struct VMap<V> {
    pub(crate) entries: Vec<(u64, V)>,
}

/// Key distinctness of an entry list.
pub open spec fn distinct_keys<V>(s: Seq<(u64, V)>) -> bool {
    forall|i: int, j: int|
        0 <= i < j < s.len() ==> (#[trigger] s[i]).0 != (#[trigger] s[j]).0
}

/// Does some entry of the list carry key `k`?
pub open spec fn has_key<V>(s: Seq<(u64, V)>, k: u64) -> bool {
    exists|i: int| 0 <= i < s.len() && (#[trigger] s[i]).0 == k
}

/// The map denoted by an entry list; later entries win, though with
/// distinct keys the order never matters.
pub(crate) open spec fn assoc_map<V>(s: Seq<(u64, V)>) -> Map<u64, V>
    decreases s.len(),
{
    if s.len() == 0 {
        Map::empty()
    } else {
        assoc_map(s.drop_last()).insert(s.last().0, s.last().1)
    }
}

/// Domain and lookup of `assoc_map`, by induction over the list.
pub(crate) proof fn lemma_assoc_props<V>(s: Seq<(u64, V)>)
    requires
        distinct_keys(s),
    ensures
        forall|k: u64| #[trigger] assoc_map(s).dom().contains(k) <==> has_key(s, k),
        forall|i: int| 0 <= i < s.len() ==> assoc_map(s)[(#[trigger] s[i]).0] == s[i].1,
    decreases s.len(),
{
    if s.len() > 0 {
        let d = s.drop_last();
        assert(distinct_keys(d));
        lemma_assoc_props(d);
        assert forall|k: u64| #[trigger] assoc_map(s).dom().contains(k) implies has_key(s, k) by {
            if k == s.last().0 {
                assert(s[s.len() - 1].0 == k);
            } else {
                assert(assoc_map(d).dom().contains(k));
                assert(has_key(d, k));
                let i = choose|i: int| 0 <= i < d.len() && (#[trigger] d[i]).0 == k;
                assert(d[i] == s[i]);
                assert(s[i].0 == k);
            }
        }
        assert forall|k: u64| has_key(s, k) implies #[trigger] assoc_map(s).dom().contains(k) by {
            let i = choose|i: int| 0 <= i < s.len() && (#[trigger] s[i]).0 == k;
            if i < s.len() - 1 {
                assert(d[i].0 == k);
            }
        }
        assert forall|i: int| 0 <= i < s.len() implies assoc_map(s)[(#[trigger] s[i]).0] == s[i].1 by {
            if i < s.len() - 1 {
                assert(s[i].0 != s.last().0);
                assert(d[i] == s[i]);
            }
        }
    }
}

/// Overwriting the entry that holds key `k` updates the denoted map
/// at `k` alone.
pub(crate) proof fn lemma_assoc_update<V>(s: Seq<(u64, V)>, i: int, k: u64, v: V)
    requires
        distinct_keys(s),
        0 <= i < s.len(),
        s[i].0 == k,
    ensures
        distinct_keys(s.update(i, (k, v))),
        assoc_map(s.update(i, (k, v))) == assoc_map(s).insert(k, v),
    decreases s.len(),
{
    let t = s.update(i, (k, v));
    assert(distinct_keys(t));
    if i == s.len() - 1 {
        assert(t.drop_last() =~= s.drop_last());
        assert(assoc_map(t) =~= assoc_map(s).insert(k, v));
    } else {
        let d = s.drop_last();
        assert(distinct_keys(d));
        assert(d[i].0 == k);
        lemma_assoc_update(d, i, k, v);
        assert(t.drop_last() =~= d.update(i, (k, v)));
        assert(t.last() == s.last());
        assert(s.last().0 != k);
        assert(assoc_map(t) =~= assoc_map(s).insert(k, v));
    }
}

/// Appending an entry with a fresh key inserts it into the denoted map.
pub(crate) proof fn lemma_assoc_push<V>(s: Seq<(u64, V)>, k: u64, v: V)
    requires
        distinct_keys(s),
        !has_key(s, k),
    ensures
        distinct_keys(s.push((k, v))),
        assoc_map(s.push((k, v))) == assoc_map(s).insert(k, v),
{
    let t = s.push((k, v));
    assert forall|i: int, j: int| 0 <= i < j < t.len() implies (#[trigger] t[i]).0
        != (#[trigger] t[j]).0 by {
        if j == t.len() - 1 {
            assert(t[i] == s[i]);
        }
    }
    assert(t.drop_last() =~= s);
    assert(assoc_map(t) == assoc_map(s).insert(k, v));
}

impl<V> View for VMap<V> {
    type V = Map<u64, V>;

    closed spec fn view(&self) -> Map<u64, V> {
        assoc_map(self.entries@)
    }
}

impl<V: Copy> VMap<V> {
    /// Well-formedness: the entry keys are pairwise distinct.
    pub closed spec fn wf(&self) -> bool {
        distinct_keys(self.entries@)
    }

    /// Ties the closed well-formedness predicate to the entry list, for
    /// proofs elsewhere in the crate that walk the entries directly.
    pub(crate) proof fn lemma_wf_is_distinct(&self)
        ensures
            self.wf() <==> distinct_keys(self.entries@),
    {
    }

    /// Ties the closed view to the entry list, likewise.
    pub(crate) proof fn lemma_view_is_assoc(&self)
        ensures
            self@ == assoc_map(self.entries@),
    {
    }

    /// An empty map.
    pub fn new() -> (m: Self)
        ensures
            m.wf(),
            m@ == Map::<u64, V>::empty(),
    {
        VMap { entries: Vec::new() }
    }

    /// Looks a key up.
    pub fn get(&self, k: u64) -> (r: Option<V>)
        requires
            self.wf(),
        ensures
            r == if self@.dom().contains(k) {
                Some(self@[k])
            } else {
                None::<V>
            },
    {
        let n = self.entries.len();
        let mut i: usize = 0;
        while i < n
            invariant
                n == self.entries.len(),
                self.wf(),
                forall|j: int| 0 <= j < i ==> (#[trigger] self.entries@[j]).0 != k,
            decreases n - i,
        {
            if self.entries[i].0 == k {
                proof {
                    lemma_assoc_props(self.entries@);
                    assert(self.entries@[i as int].0 == k);
                    assert(has_key(self.entries@, k));
                    assert(assoc_map(self.entries@).dom().contains(k));
                    assert(assoc_map(self.entries@)[k] == self.entries@[i as int].1);
                }
                return Some(self.entries[i].1);
            }
            i += 1;
        }
        proof {
            lemma_assoc_props(self.entries@);
            assert(!has_key(self.entries@, k));
        }
        None
    }

    /// Binds `k` to `v`, overwriting any earlier binding.
    pub fn insert(&mut self, k: u64, v: V)
        requires
            old(self).wf(),
        ensures
            final(self).wf(),
            final(self)@ == old(self)@.insert(k, v),
    {
        let n = self.entries.len();
        let mut i: usize = 0;
        while i < n
            invariant
                n == self.entries.len(),
                self == old(self),
                self.wf(),
                forall|j: int| 0 <= j < i ==> (#[trigger] self.entries@[j]).0 != k,
            decreases n - i,
        {
            if self.entries[i].0 == k {
                proof {
                    lemma_assoc_update(self.entries@, i as int, k, v);
                }
                self.entries[i] = (k, v);
                return ;
            }
            i += 1;
        }
        proof {
            assert(!has_key(self.entries@, k));
            lemma_assoc_push(self.entries@, k, v);
        }
        self.entries.push((k, v));
    }

    /// Drops every binding.
    pub fn clear(&mut self)
        ensures
            final(self).wf(),
            final(self)@ == Map::<u64, V>::empty(),
    {
        self.entries.clear();
    }
}

} // verus!
