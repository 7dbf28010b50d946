//! Entry lists: the mathematical model behind the map and its payload.
//!
//! A list of key-value pairs stands for the map obtained by inserting the pairs one after
//! another. A list that is strictly increasing by key is the canonical form of its map:
//! every finite map has exactly one.

use vstd::prelude::*;
use crate::key_order::{
    key_lt, lemma_key_lt_asymmetric, lemma_key_lt_irreflexive, lemma_key_lt_total,
    lemma_key_lt_transitive,
};

verus! {

/// A key and its value, as mathematical strings.
pub type Entry = (Seq<char>, Seq<char>);

/// The mathematical content of a vector of owned pairs.
pub open spec fn pairs_of(v: Seq<(String, String)>) -> Seq<Entry> {
    Seq::new(v.len(), |i: int| (v[i].0@, v[i].1@))
}

/// The keys are strictly increasing, so no key occurs twice.
pub open spec fn sorted_by_key(e: Seq<Entry>) -> bool {
    forall|i: int, j: int| 0 <= i < j < e.len() ==> key_lt(#[trigger] e[i].0, #[trigger] e[j].0)
}

/// The map that results from inserting the pairs in order; of two pairs with the same
/// key the later one wins.
pub open spec fn map_of(e: Seq<Entry>) -> Map<Seq<char>, Seq<char>>
    decreases e.len(),
{
    if e.len() == 0 {
        Map::empty()
    } else {
        map_of(e.drop_last()).insert(e.last().0, e.last().1)
    }
}

/// Some pair of the list has the key `k`.
pub open spec fn holds_key(e: Seq<Entry>, k: Seq<char>) -> bool {
    exists|i: int| 0 <= i < e.len() && (#[trigger] e[i]).0 == k
}

/// Where the list holds the key `k`, if it does.
pub open spec fn index_of_key(e: Seq<Entry>, k: Seq<char>) -> int {
    choose|i: int| 0 <= i < e.len() && (#[trigger] e[i]).0 == k
}

/// The one strictly increasing list that stands for the map `m`.
pub open spec fn canonical_entries(m: Map<Seq<char>, Seq<char>>) -> Seq<Entry> {
    choose|e: Seq<Entry>| sorted_by_key(e) && map_of(e) == m
}

/// The map of a list is finite and has exactly the keys of the list.
pub proof fn lemma_map_of_domain(e: Seq<Entry>)
    ensures
        map_of(e).dom().finite(),
        forall|k: Seq<char>|
            #![trigger map_of(e).contains_key(k)]
            #![trigger holds_key(e, k)]
            map_of(e).contains_key(k) <==> holds_key(e, k),
    decreases e.len(),
{
    if e.len() > 0 {
        let init = e.drop_last();
        lemma_map_of_domain(init);
        assert forall|k: Seq<char>| map_of(e).contains_key(k) <==> holds_key(e, k) by {
            if holds_key(e, k) {
                let i = index_of_key(e, k);
                if i < e.len() - 1 {
                    assert(init[i].0 == k);
                    assert(holds_key(init, k));
                }
            }
            if map_of(e).contains_key(k) {
                if k == e.last().0 {
                    assert(e[e.len() - 1].0 == k);
                } else {
                    assert(holds_key(init, k));
                    let i = index_of_key(init, k);
                    assert(e[i].0 == k);
                }
            }
        }
    }
}

/// In a strictly increasing list every pair is what the map holds for its key.
pub proof fn lemma_map_of_sorted(e: Seq<Entry>)
    requires
        sorted_by_key(e),
    ensures
        forall|i: int|
            0 <= i < e.len() ==> map_of(e).contains_key((#[trigger] e[i]).0) && map_of(e)[e[i].0]
                == e[i].1,
    decreases e.len(),
{
    if e.len() > 0 {
        let init = e.drop_last();
        assert(sorted_by_key(init)) by {
            assert forall|i: int, j: int| 0 <= i < j < init.len() implies key_lt(
                #[trigger] init[i].0,
                #[trigger] init[j].0,
            ) by {
                assert(key_lt(e[i].0, e[j].0));
            }
        }
        lemma_map_of_sorted(init);
        assert forall|i: int| 0 <= i < e.len() implies map_of(e).contains_key(
            (#[trigger] e[i]).0,
        ) && map_of(e)[e[i].0] == e[i].1 by {
            if i < e.len() - 1 {
                assert(init[i] == e[i]);
                assert(key_lt(e[i].0, e[e.len() - 1].0));
                lemma_key_lt_asymmetric(e[i].0, e.last().0);
            }
        }
    }
}

/// A strictly increasing list stands for the map `m` as soon as `m` has the keys of the
/// list and holds each pair's value.
pub proof fn lemma_map_of_is(e: Seq<Entry>, m: Map<Seq<char>, Seq<char>>)
    requires
        sorted_by_key(e),
        forall|k: Seq<char>|
            #![trigger m.contains_key(k)]
            #![trigger holds_key(e, k)]
            m.contains_key(k) <==> holds_key(e, k),
        forall|i: int| 0 <= i < e.len() ==> m[(#[trigger] e[i]).0] == e[i].1,
    ensures
        map_of(e) == m,
{
    lemma_map_of_domain(e);
    lemma_map_of_sorted(e);
    assert forall|k: Seq<char>| map_of(e).contains_key(k) implies #[trigger] map_of(e)[k]
        == m[k] by {
        assert(holds_key(e, k));
        let i = index_of_key(e, k);
        assert(map_of(e)[e[i].0] == e[i].1);
    }
    assert(map_of(e) =~= m);
}

/// A key that falls strictly between two neighbours of a strictly increasing list, or
/// before its first or after its last pair, is not in the map.
pub proof fn lemma_gap_is_absent(e: Seq<Entry>, k: Seq<char>, at: int)
    requires
        sorted_by_key(e),
        0 <= at <= e.len(),
        forall|i: int| 0 <= i < at ==> key_lt((#[trigger] e[i]).0, k),
        forall|i: int| at <= i < e.len() ==> key_lt(k, (#[trigger] e[i]).0),
    ensures
        !map_of(e).contains_key(k),
{
    lemma_map_of_domain(e);
    if holds_key(e, k) {
        let i = index_of_key(e, k);
        lemma_key_lt_irreflexive(k);
    }
}

/// Putting a new key into its gap keeps the list increasing and inserts into the map.
pub proof fn lemma_insert_in_gap(e: Seq<Entry>, at: int, k: Seq<char>, v: Seq<char>)
    requires
        sorted_by_key(e),
        0 <= at <= e.len(),
        forall|i: int| 0 <= i < at ==> key_lt((#[trigger] e[i]).0, k),
        forall|i: int| at <= i < e.len() ==> key_lt(k, (#[trigger] e[i]).0),
    ensures
        sorted_by_key(e.insert(at, (k, v))),
        map_of(e.insert(at, (k, v))) == map_of(e).insert(k, v),
{
    let f = e.insert(at, (k, v));
    assert forall|i: int, j: int| 0 <= i < j < f.len() implies key_lt(
        #[trigger] f[i].0,
        #[trigger] f[j].0,
    ) by {
        let si = if i < at { i } else { i - 1 };
        let sj = if j < at { j } else { j - 1 };
        if i != at && j != at {
            assert(f[i] == e[si] && f[j] == e[sj]);
            assert(key_lt(e[si].0, e[sj].0));
        } else if i == at {
            assert(f[j] == e[sj]);
        } else {
            assert(f[i] == e[si]);
        }
    }
    lemma_map_of_domain(e);
    lemma_map_of_sorted(e);
    let m = map_of(e).insert(k, v);
    assert forall|q: Seq<char>|
        #![trigger m.contains_key(q)]
        #![trigger holds_key(f, q)]
        m.contains_key(q) <==> holds_key(f, q) by {
        if holds_key(f, q) {
            let i = index_of_key(f, q);
            if i != at {
                let si = if i < at { i } else { i - 1 };
                assert(e[si].0 == q);
            }
        }
        if m.contains_key(q) {
            if q == k {
                assert(f[at].0 == q);
            } else {
                assert(map_of(e).contains_key(q));
                assert(holds_key(e, q));
                let i = index_of_key(e, q);
                let fi = if i < at { i } else { i + 1 };
                assert(f[fi].0 == q);
            }
        }
    }
    assert forall|i: int| 0 <= i < f.len() implies m[(#[trigger] f[i]).0] == f[i].1 by {
        if i != at {
            let si = if i < at { i } else { i - 1 };
            assert(f[i] == e[si]);
            if si < at {
                lemma_key_lt_asymmetric(e[si].0, k);
            } else {
                lemma_key_lt_asymmetric(k, e[si].0);
            }
        }
    }
    lemma_map_of_is(f, m);
}

/// Giving a present key a new value keeps the list increasing and overwrites in the map.
pub proof fn lemma_overwrite(e: Seq<Entry>, at: int, v: Seq<char>)
    requires
        sorted_by_key(e),
        0 <= at < e.len(),
    ensures
        sorted_by_key(e.update(at, (e[at].0, v))),
        map_of(e.update(at, (e[at].0, v))) == map_of(e).insert(e[at].0, v),
{
    let k = e[at].0;
    let f = e.update(at, (k, v));
    assert forall|i: int, j: int| 0 <= i < j < f.len() implies key_lt(
        #[trigger] f[i].0,
        #[trigger] f[j].0,
    ) by {
        assert(f[i].0 == e[i].0 && f[j].0 == e[j].0);
        assert(key_lt(e[i].0, e[j].0));
    }
    lemma_map_of_domain(e);
    lemma_map_of_sorted(e);
    let m = map_of(e).insert(k, v);
    assert forall|q: Seq<char>|
        #![trigger m.contains_key(q)]
        #![trigger holds_key(f, q)]
        m.contains_key(q) <==> holds_key(f, q) by {
        if holds_key(f, q) {
            let i = index_of_key(f, q);
            assert(e[i].0 == q);
        }
        if m.contains_key(q) {
            if q == k {
                assert(f[at].0 == q);
            } else {
                assert(map_of(e).contains_key(q));
                assert(holds_key(e, q));
                let i = index_of_key(e, q);
                assert(f[i].0 == q);
            }
        }
    }
    assert forall|i: int| 0 <= i < f.len() implies m[(#[trigger] f[i]).0] == f[i].1 by {
        if i != at {
            assert(f[i] == e[i]);
            if i < at {
                assert(key_lt(e[i].0, e[at].0));
                lemma_key_lt_asymmetric(e[i].0, k);
            } else {
                assert(key_lt(e[at].0, e[i].0));
                lemma_key_lt_asymmetric(k, e[i].0);
            }
        }
    }
    lemma_map_of_is(f, m);
}

/// Taking a pair out keeps the list increasing and removes its key from the map.
pub proof fn lemma_take_out(e: Seq<Entry>, at: int)
    requires
        sorted_by_key(e),
        0 <= at < e.len(),
    ensures
        sorted_by_key(e.remove(at)),
        map_of(e.remove(at)) == map_of(e).remove(e[at].0),
{
    let k = e[at].0;
    let f = e.remove(at);
    assert forall|i: int, j: int| 0 <= i < j < f.len() implies key_lt(
        #[trigger] f[i].0,
        #[trigger] f[j].0,
    ) by {
        let si = if i < at { i } else { i + 1 };
        let sj = if j < at { j } else { j + 1 };
        assert(f[i] == e[si] && f[j] == e[sj]);
        assert(key_lt(e[si].0, e[sj].0));
    }
    lemma_map_of_domain(e);
    lemma_map_of_sorted(e);
    let m = map_of(e).remove(k);
    assert forall|q: Seq<char>|
        #![trigger m.contains_key(q)]
        #![trigger holds_key(f, q)]
        m.contains_key(q) <==> holds_key(f, q) by {
        if holds_key(f, q) {
            let i = index_of_key(f, q);
            let si = if i < at { i } else { i + 1 };
            assert(e[si].0 == q);
            if si < at {
                assert(key_lt(e[si].0, e[at].0));
                lemma_key_lt_asymmetric(e[si].0, k);
            } else {
                assert(key_lt(e[at].0, e[si].0));
                lemma_key_lt_asymmetric(k, e[si].0);
            }
        }
        if m.contains_key(q) {
            assert(map_of(e).contains_key(q));
            assert(holds_key(e, q));
            let i = index_of_key(e, q);
            let fi = if i < at { i } else { i - 1 };
            assert(f[fi].0 == q);
        }
    }
    assert forall|i: int| 0 <= i < f.len() implies m[(#[trigger] f[i]).0] == f[i].1 by {
        let si = if i < at { i } else { i + 1 };
        assert(f[i] == e[si]);
        if si < at {
            assert(key_lt(e[si].0, e[at].0));
            lemma_key_lt_asymmetric(e[si].0, k);
        } else {
            assert(key_lt(e[at].0, e[si].0));
            lemma_key_lt_asymmetric(k, e[si].0);
        }
    }
    lemma_map_of_is(f, m);
}

/// Two strictly increasing lists that stand for the same map are the same list.
pub proof fn lemma_sorted_unique(e1: Seq<Entry>, e2: Seq<Entry>)
    requires
        sorted_by_key(e1),
        sorted_by_key(e2),
        map_of(e1) == map_of(e2),
    ensures
        e1 == e2,
    decreases e1.len(),
{
    lemma_map_of_domain(e1);
    lemma_map_of_domain(e2);
    lemma_map_of_sorted(e1);
    lemma_map_of_sorted(e2);
    if e1.len() == 0 {
        if e2.len() > 0 {
            assert(map_of(e2).contains_key(e2[0].0));
            assert(holds_key(e1, e2[0].0));
        }
        assert(e1 =~= e2);
    } else if e2.len() == 0 {
        assert(map_of(e1).contains_key(e1[0].0));
        assert(holds_key(e2, e1[0].0));
    } else {
        let n1 = e1.len() - 1;
        let n2 = e2.len() - 1;
        lemma_last_key_is_greatest(e1, e2);
        lemma_last_key_is_greatest(e2, e1);
        lemma_key_lt_total(e1[n1].0, e2[n2].0);
        if key_lt(e1[n1].0, e2[n2].0) {
            lemma_key_lt_asymmetric(e1[n1].0, e2[n2].0);
        }
        assert(e1[n1].0 == e2[n2].0);
        assert(map_of(e1)[e1[n1].0] == e1[n1].1);
        assert(map_of(e2)[e2[n2].0] == e2[n2].1);
        assert(e1[n1] == e2[n2]);
        lemma_take_out(e1, n1);
        lemma_take_out(e2, n2);
        assert(e1.remove(n1) =~= e1.drop_last());
        assert(e2.remove(n2) =~= e2.drop_last());
        lemma_sorted_unique(e1.drop_last(), e2.drop_last());
        assert(e1 =~= e1.drop_last().push(e1[n1]));
        assert(e2 =~= e2.drop_last().push(e2[n2]));
    }
}

/// The last key of a strictly increasing list is not below the last key of another
/// such list for the same map.
proof fn lemma_last_key_is_greatest(e1: Seq<Entry>, e2: Seq<Entry>)
    requires
        sorted_by_key(e1),
        sorted_by_key(e2),
        map_of(e1) == map_of(e2),
        e1.len() > 0,
        e2.len() > 0,
    ensures
        !key_lt(e1.last().0, e2.last().0),
{
    lemma_map_of_domain(e1);
    lemma_map_of_domain(e2);
    lemma_map_of_sorted(e2);
    let k1 = e1.last().0;
    let k2 = e2.last().0;
    if key_lt(k1, k2) {
        assert(map_of(e2).contains_key(e2[e2.len() - 1].0));
        assert(holds_key(e1, k2));
        let i = index_of_key(e1, k2);
        if i < e1.len() - 1 {
            assert(key_lt(e1[i].0, e1[e1.len() - 1].0));
            lemma_key_lt_transitive(k1, k2, k1);
        }
        lemma_key_lt_irreflexive(k1);
    }
}

/// A strictly increasing list is the canonical form of its own map.
pub proof fn lemma_canonical_of_sorted(e: Seq<Entry>)
    requires
        sorted_by_key(e),
    ensures
        canonical_entries(map_of(e)) == e,
{
    let c = canonical_entries(map_of(e));
    assert(sorted_by_key(c) && map_of(c) == map_of(e));
    lemma_sorted_unique(c, e);
}

/// Every key that a strictly increasing list does not hold has its gap in the list.
pub proof fn lemma_gap_exists(e: Seq<Entry>, k: Seq<char>) -> (at: int)
    requires
        sorted_by_key(e),
        !holds_key(e, k),
    ensures
        0 <= at <= e.len(),
        forall|i: int| 0 <= i < at ==> key_lt((#[trigger] e[i]).0, k),
        forall|i: int| at <= i < e.len() ==> key_lt(k, (#[trigger] e[i]).0),
    decreases e.len(),
{
    if e.len() == 0 {
        0
    } else {
        let n = e.len() - 1;
        assert(e[n].0 != k);
        lemma_key_lt_total(e[n].0, k);
        if key_lt(e[n].0, k) {
            assert forall|i: int| 0 <= i < e.len() implies key_lt((#[trigger] e[i]).0, k) by {
                if i < n {
                    assert(key_lt(e[i].0, e[n].0));
                    lemma_key_lt_transitive(e[i].0, e[n].0, k);
                }
            }
            e.len() as int
        } else {
            let init = e.drop_last();
            assert forall|i: int, j: int| 0 <= i < j < init.len() implies key_lt(
                #[trigger] init[i].0,
                #[trigger] init[j].0,
            ) by {
                assert(key_lt(e[i].0, e[j].0));
            }
            if holds_key(init, k) {
                let i = index_of_key(init, k);
                assert(e[i].0 == k);
            }
            let at = lemma_gap_exists(init, k);
            assert forall|i: int| 0 <= i < at implies key_lt((#[trigger] e[i]).0, k) by {
                assert(init[i] == e[i]);
            }
            assert forall|i: int| at <= i < e.len() implies key_lt(k, (#[trigger] e[i]).0) by {
                if i < n {
                    assert(init[i] == e[i]);
                }
            }
            at
        }
    }
}

/// Every finite map has its canonical form.
pub proof fn lemma_canonical_exists(m: Map<Seq<char>, Seq<char>>)
    requires
        m.dom().finite(),
    ensures
        sorted_by_key(canonical_entries(m)),
        map_of(canonical_entries(m)) == m,
    decreases m.dom().len(),
{
    if m.dom().len() == 0 {
        let e = Seq::<Entry>::empty();
        assert(m.dom() =~= Set::empty());
        assert(map_of(e) =~= m);
        assert(sorted_by_key(e));
    } else {
        let k = m.dom().choose();
        let rest = m.remove(k);
        assert(rest.dom() =~= m.dom().remove(k));
        lemma_canonical_exists(rest);
        let e = canonical_entries(rest);
        lemma_map_of_domain(e);
        let at = lemma_gap_exists(e, k);
        lemma_insert_in_gap(e, at, k, m[k]);
        assert(rest.insert(k, m[k]) =~= m);
        let f = e.insert(at, (k, m[k]));
        assert(sorted_by_key(f) && map_of(f) == m);
    }
}

} // verus!
