//! A string-keyed map with insert-overwrite and exact-match lookup, backed
//! by an association list with pairwise-distinct keys. It models the two
//! lookup indexes: inserting in dataset order makes the last write win.

use vstd::prelude::*;

verus! {

/// The map an entry list denotes: entries inserted in order, so a later
/// entry overwrites an earlier one with the same key.
pub open spec fn entries_map<V: DeepView>(entries: Seq<(String, V)>) -> Map<Seq<char>, V::V>
    decreases entries.len(),
{
    if entries.len() == 0 {
        Map::empty()
    } else {
        entries_map(entries.drop_last()).insert(
            entries.last().0@,
            entries.last().1.deep_view(),
        )
    }
}

/// A key is in the map exactly when some entry carries it.
pub proof fn lemma_entries_map_contains<V: DeepView>(entries: Seq<(String, V)>, k: Seq<char>)
    ensures
        entries_map(entries).contains_key(k) <==> exists|i: int|
            0 <= i < entries.len() && (#[trigger] entries[i]).0@ == k,
    decreases entries.len(),
{
    if entries.len() == 0 {
    } else {
        lemma_entries_map_contains(entries.drop_last(), k);
        if entries.last().0@ == k {
            assert(entries[entries.len() - 1].0@ == k);
        } else if entries_map(entries).contains_key(k) {
            let i = choose|i: int|
                0 <= i < entries.drop_last().len() && (#[trigger] entries.drop_last()[i]).0@ == k;
            assert(entries[i].0@ == k);
        } else {
            assert forall|i: int| 0 <= i < entries.len() implies (#[trigger] entries[i]).0@ != k by {
                if i < entries.len() - 1 {
                    assert(entries.drop_last()[i] == entries[i]);
                }
            }
        }
    }
}

/// Pairwise-distinct keys.
pub open spec fn distinct_keys<V>(entries: Seq<(String, V)>) -> bool {
    forall|i: int, j: int|
        0 <= i < j < entries.len() ==> (#[trigger] entries[i]).0@ != (#[trigger] entries[j]).0@
}

/// With distinct keys, the entry carrying a key gives its mapped value.
pub proof fn lemma_entries_map_get<V: DeepView>(entries: Seq<(String, V)>, i: int)
    requires
        distinct_keys(entries),
        0 <= i < entries.len(),
    ensures
        entries_map(entries).contains_key(entries[i].0@),
        entries_map(entries)[entries[i].0@] == entries[i].1.deep_view(),
    decreases entries.len(),
{
    if i == entries.len() - 1 {
    } else {
        assert(entries[i].0@ != entries.last().0@);
        assert forall|a: int, b: int|
            0 <= a < b < entries.drop_last().len() implies (#[trigger] entries.drop_last()[a]).0@
            != (#[trigger] entries.drop_last()[b]).0@ by {
            assert(entries.drop_last()[a] == entries[a]);
            assert(entries.drop_last()[b] == entries[b]);
        }
        lemma_entries_map_get(entries.drop_last(), i);
        assert(entries.drop_last()[i] == entries[i]);
    }
}

/// Replacing the entry that carries a key re-maps just that key.
proof fn lemma_entries_map_update<V: DeepView>(entries: Seq<(String, V)>, i: int, e: (String, V))
    requires
        distinct_keys(entries),
        0 <= i < entries.len(),
        e.0@ == entries[i].0@,
    ensures
        entries_map(entries.update(i, e)) == entries_map(entries).insert(e.0@, e.1.deep_view()),
    decreases entries.len(),
{
    let k = e.0@;
    if i == entries.len() - 1 {
        assert(entries.update(i, e).drop_last() =~= entries.drop_last());
        assert(entries.update(i, e).last() == e);
        assert(entries_map(entries.update(i, e)) =~= entries_map(entries).insert(
            k,
            e.1.deep_view(),
        ));
    } else {
        assert(entries.update(i, e).drop_last() =~= entries.drop_last().update(i, e));
        assert(entries.update(i, e).last() == entries.last());
        assert forall|a: int, b: int|
            0 <= a < b < entries.drop_last().len() implies (#[trigger] entries.drop_last()[a]).0@
            != (#[trigger] entries.drop_last()[b]).0@ by {
            assert(entries.drop_last()[a] == entries[a]);
            assert(entries.drop_last()[b] == entries[b]);
        }
        assert(entries.drop_last()[i] == entries[i]);
        lemma_entries_map_update(entries.drop_last(), i, e);
        assert(entries.last().0@ != k);
        assert(entries_map(entries.update(i, e)) =~= entries_map(entries).insert(
            k,
            e.1.deep_view(),
        ));
    }
}

/// A string-keyed map: exact-match lookup, and insert with overwrite on an
/// existing key.
pub struct StrMap<V> {
    entries: Vec<(String, V)>,
}

impl<V: DeepView> StrMap<V> {
    /// Internal invariant: no two entries carry the same key.
    pub closed spec fn wf(&self) -> bool {
        distinct_keys(self.entries@)
    }

    /// The map held.
    pub closed spec fn as_map(&self) -> Map<Seq<char>, V::V> {
        entries_map(self.entries@)
    }

    /// The empty map.
    pub fn new() -> (r: Self)
        ensures
            r.wf(),
            r.as_map() == Map::<Seq<char>, V::V>::empty(),
    {
        StrMap { entries: Vec::new() }
    }

    /// Maps `key` to `value`, overwriting any existing mapping of the key.
    pub fn insert(&mut self, key: String, value: V)
        requires
            old(self).wf(),
        ensures
            final(self).wf(),
            final(self).as_map() == old(self).as_map().insert(key@, value.deep_view()),
    {
        let ghost entries0 = self.entries@;
        let n: usize = self.entries.len();
        let mut i: usize = 0;
        while i < n
            invariant
                n == self.entries@.len(),
                self.entries@ == entries0,
                entries0 == old(self).entries@,
                i <= n,
                distinct_keys(entries0),
                forall|j: int| 0 <= j < i ==> (#[trigger] entries0[j]).0@ != key@,
            decreases n - i,
        {
            if self.entries[i].0 == key {
                proof {
                    lemma_entries_map_update(entries0, i as int, (key, value));
                }
                self.entries.set(i, (key, value));
                assert forall|a: int, b: int|
                    0 <= a < b < self.entries@.len() implies (#[trigger] self.entries@[a]).0@
                    != (#[trigger] self.entries@[b]).0@ by {
                    assert(entries0[a].0@ != entries0[b].0@);
                }
                return ;
            }
            i = i + 1;
        }
        proof {
            assert(entries0.push((key, value)).drop_last() =~= entries0);
        }
        self.entries.push((key, value));
        assert forall|a: int, b: int|
            0 <= a < b < self.entries@.len() implies (#[trigger] self.entries@[a]).0@
            != (#[trigger] self.entries@[b]).0@ by {
            if b < self.entries@.len() - 1 {
                assert(entries0[a].0@ != entries0[b].0@);
            } else {
                assert(self.entries@[a].0@ == entries0[a].0@);
            }
        }
    }

    /// The value mapped to `key`, or `None` when the key is absent.
    pub fn get(&self, key: &str) -> (r: Option<&V>)
        requires
            self.wf(),
        ensures
            (r matches Some(v) ==> self.as_map().contains_key(key@) && v.deep_view()
                == self.as_map()[key@]),
            (r is None ==> !self.as_map().contains_key(key@)),
    {
        let k = String::from_str(key);
        let n: usize = self.entries.len();
        let mut i: usize = 0;
        while i < n
            invariant
                n == self.entries@.len(),
                distinct_keys(self.entries@),
                k@ == key@,
                i <= n,
                forall|j: int| 0 <= j < i ==> (#[trigger] self.entries@[j]).0@ != key@,
            decreases n - i,
        {
            let e = &self.entries[i];
            if e.0 == k {
                proof {
                    lemma_entries_map_get(self.entries@, i as int);
                }
                return Some(&e.1);
            }
            i = i + 1;
        }
        proof {
            lemma_entries_map_contains(self.entries@, key@);
        }
        None
    }
}

} // verus!
