//! The live key-value map.

use vstd::prelude::*;
use crate::entries::{
    canonical_entries, lemma_canonical_of_sorted, lemma_gap_is_absent, lemma_insert_in_gap,
    lemma_map_of_domain, lemma_map_of_sorted, lemma_overwrite, lemma_take_out, map_of, pairs_of,
    sorted_by_key,
};
use crate::key_order::{compare_keys, key_lt, lemma_key_lt_transitive, KeyOrder};

verus! {

/// A map from string keys to string values.
///
/// The pairs are kept strictly increasing by key, so that a map's content alone decides
/// how it is laid out, whatever the order of the operations that built it.
#[derive(Debug)]
pub struct KVStore {
    entries: Vec<(String, String)>,
}

impl View for KVStore {
    type V = Map<Seq<char>, Seq<char>>;

    closed spec fn view(&self) -> Map<Seq<char>, Seq<char>> {
        map_of(pairs_of(self.entries@))
    }
}

impl Clone for KVStore {
    fn clone(&self) -> (r: Self)
        ensures
            r@ == self@,
    {
        KVStore::from_pairs(&self.entries)
    }
}

impl Default for KVStore {
    fn default() -> (r: Self)
        ensures
            r@ == Map::<Seq<char>, Seq<char>>::empty(),
    {
        KVStore::new()
    }
}

impl KVStore {
    #[verifier::type_invariant]
    spec fn strictly_increasing(&self) -> bool {
        sorted_by_key(pairs_of(self.entries@))
    }

    /// A map holds finitely many keys.
    pub proof fn lemma_finite(self)
        ensures
            self@.dom().finite(),
    {
        lemma_map_of_domain(pairs_of(self.entries@));
    }

    /// An empty map.
    pub fn new() -> (r: Self)
        ensures
            r@ == Map::<Seq<char>, Seq<char>>::empty(),
    {
        let r = KVStore { entries: Vec::new() };
        assert(pairs_of(r.entries@) =~= Seq::empty());
        r
    }

    /// Finds `key` by binary search: its position where the map holds it, or else the
    /// position at which it would have to be put.
    fn locate(&self, key: &str) -> (r: (usize, bool))
        ensures
            r.0 <= self.entries@.len(),
            r.1 ==> r.0 < self.entries@.len() && self.entries@[r.0 as int].0@ == key@,
            !r.1 ==> forall|i: int|
                0 <= i < r.0 ==> key_lt((#[trigger] pairs_of(self.entries@)[i]).0, key@),
            !r.1 ==> forall|i: int|
                r.0 <= i < self.entries@.len() ==> key_lt(
                    key@,
                    (#[trigger] pairs_of(self.entries@)[i]).0,
                ),
    {
        proof {
            use_type_invariant(self);
        }
        let ghost e = pairs_of(self.entries@);
        let mut lo: usize = 0;
        let mut hi: usize = self.entries.len();
        while lo < hi
            invariant
                lo <= hi <= self.entries@.len(),
                e == pairs_of(self.entries@),
                sorted_by_key(e),
                forall|i: int| 0 <= i < lo ==> key_lt((#[trigger] e[i]).0, key@),
                forall|i: int| hi <= i < e.len() ==> key_lt(key@, (#[trigger] e[i]).0),
            decreases hi - lo,
        {
            let mid: usize = lo + (hi - lo) / 2;
            let found = compare_keys(self.entries[mid].0.as_str(), key);
            assert(e[mid as int].0 == self.entries@[mid as int].0@);
            match found {
                KeyOrder::Before => {
                    assert forall|i: int| 0 <= i < mid + 1 implies key_lt(
                        (#[trigger] e[i]).0,
                        key@,
                    ) by {
                        if i < mid {
                            assert(key_lt(e[i].0, e[mid as int].0));
                            lemma_key_lt_transitive(e[i].0, e[mid as int].0, key@);
                        }
                    }
                    lo = mid + 1;
                },
                KeyOrder::Same => {
                    return (mid, true);
                },
                KeyOrder::After => {
                    assert forall|i: int| mid <= i < e.len() implies key_lt(
                        key@,
                        (#[trigger] e[i]).0,
                    ) by {
                        if mid < i {
                            assert(key_lt(e[mid as int].0, e[i].0));
                            lemma_key_lt_transitive(key@, e[mid as int].0, e[i].0);
                        }
                    }
                    hi = mid;
                },
            }
        }
        (lo, false)
    }

    /// Hands out the pairs for a change and leaves the map empty until they are put back.
    fn take_entries(&mut self) -> (r: Vec<(String, String)>)
        ensures
            r == old(self).entries,
            final(self).entries@.len() == 0,
    {
        let mut entries: Vec<(String, String)> = Vec::new();
        assert(pairs_of(entries@) =~= Seq::empty());
        core::mem::swap(&mut self.entries, &mut entries);
        entries
    }

    /// Inserts the pair, or gives a key that is present its new value.
    pub fn set(&mut self, key: String, value: String)
        ensures
            final(self)@ == old(self)@.insert(key@, value@),
    {
        proof {
            use_type_invariant(&*self);
        }
        let ghost e = pairs_of(self.entries@);
        let (at, present) = self.locate(key.as_str());
        let mut entries = self.take_entries();
        if present {
            proof {
                lemma_overwrite(e, at as int, value@);
            }
            entries.set(at, (key, value));
            assert(pairs_of(entries@) =~= e.update(at as int, (e[at as int].0, value@)));
        } else {
            proof {
                lemma_insert_in_gap(e, at as int, key@, value@);
            }
            entries.insert(at, (key, value));
            assert(pairs_of(entries@) =~= e.insert(at as int, (key@, value@)));
        }
        self.entries = entries;
    }

    /// The value that the map holds for `key`, if any. The map is left as it is.
    pub fn get(&self, key: &str) -> (r: Option<String>)
        ensures
            match r {
                Some(v) => self@.contains_key(key@) && self@[key@] == v@,
                None => !self@.contains_key(key@),
            },
    {
        proof {
            use_type_invariant(self);
        }
        let ghost e = pairs_of(self.entries@);
        let (at, present) = self.locate(key);
        if present {
            proof {
                lemma_map_of_sorted(e);
                assert(e[at as int] == (self.entries@[at as int].0@, self.entries@[at as int].1@));
            }
            Some(self.entries[at].1.clone())
        } else {
            proof {
                lemma_gap_is_absent(e, key@, at as int);
            }
            None
        }
    }

    /// Removes `key`; a key that is absent leaves the map as it is.
    pub fn delete(&mut self, key: &str)
        ensures
            final(self)@ == old(self)@.remove(key@),
    {
        proof {
            use_type_invariant(&*self);
        }
        let ghost e = pairs_of(self.entries@);
        let (at, present) = self.locate(key);
        if present {
            proof {
                lemma_take_out(e, at as int);
            }
            let mut entries = self.take_entries();
            entries.remove(at);
            assert(pairs_of(entries@) =~= e.remove(at as int));
            self.entries = entries;
        } else {
            proof {
                lemma_gap_is_absent(e, key@, at as int);
                assert(map_of(e).remove(key@) =~= map_of(e));
            }
        }
    }

    /// Puts the content of `other` in place of the map's own, all at once.
    pub fn replace(&mut self, other: KVStore)
        ensures
            final(self)@ == other@,
    {
        proof {
            use_type_invariant(&other);
        }
        self.entries = other.entries;
    }

    /// The map that results from inserting the pairs in their order: of two pairs with
    /// the same key the later one counts.
    pub fn from_pairs(pairs: &Vec<(String, String)>) -> (r: Self)
        ensures
            r@ == map_of(pairs_of(pairs@)),
    {
        let mut store = KVStore::new();
        let mut i: usize = 0;
        assert(pairs_of(pairs@.take(0)) =~= Seq::empty());
        while i < pairs.len()
            invariant
                i <= pairs@.len(),
                store@ == map_of(pairs_of(pairs@.take(i as int))),
            decreases pairs@.len() - i,
        {
            let ghost before = pairs_of(pairs@.take(i as int));
            let ghost after = pairs_of(pairs@.take(i + 1));
            assert(after.drop_last() =~= before);
            assert(after.last() == (pairs@[i as int].0@, pairs@[i as int].1@));
            store.set(pairs[i].0.clone(), pairs[i].1.clone());
            i += 1;
        }
        assert(pairs@.take(i as int) =~= pairs@);
        store
    }

    /// How many keys the map holds.
    pub fn len(&self) -> (r: usize)
        ensures
            r == self@.len(),
            self@.dom().finite(),
    {
        proof {
            use_type_invariant(self);
            lemma_entry_count(pairs_of(self.entries@));
        }
        self.entries.len()
    }

    /// The pairs of the map, strictly increasing by key: its canonical form.
    pub(crate) fn entries(&self) -> (r: &Vec<(String, String)>)
        ensures
            pairs_of(r@) == canonical_entries(self@),
            sorted_by_key(pairs_of(r@)),
            map_of(pairs_of(r@)) == self@,
    {
        proof {
            use_type_invariant(self);
            lemma_canonical_of_sorted(pairs_of(self.entries@));
        }
        &self.entries
    }

}

/// A strictly increasing list has as many pairs as its map has keys.
pub proof fn lemma_entry_count(e: Seq<(Seq<char>, Seq<char>)>)
    requires
        sorted_by_key(e),
    ensures
        map_of(e).dom().finite(),
        map_of(e).len() == e.len(),
    decreases e.len(),
{
    lemma_map_of_domain(e);
    if e.len() > 0 {
        let n = e.len() - 1;
        lemma_take_out(e, n);
        assert(e.remove(n) =~= e.drop_last());
        lemma_entry_count(e.drop_last());
        lemma_map_of_sorted(e);
        assert(map_of(e).contains_key(e[n].0));
        lemma_map_of_domain(e.drop_last());
        assert(map_of(e).remove(e[n].0).dom() =~= map_of(e).dom().remove(e[n].0));
    }
}

} // verus!
