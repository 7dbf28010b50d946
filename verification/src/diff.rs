//! The structural difference between two maps.

use vstd::prelude::*;
use crate::entries::{
    holds_key, index_of_key, lemma_map_of_domain, lemma_map_of_sorted, map_of, pairs_of,
    sorted_by_key, Entry,
};
use crate::key_order::{
    compare_keys, key_lt, lemma_key_lt_asymmetric, lemma_key_lt_irreflexive, lemma_key_lt_total,
    lemma_key_lt_transitive, KeyOrder,
};
use crate::store::KVStore;

verus! {

/// One record of a difference report, as owned strings.
#[derive(Clone, Debug, PartialEq, Eq)]
pub enum DiffEntry {
    /// The key is in the second map only.
    Added { key: String, new_value: String },
    /// The key is in the first map only.
    Removed { key: String, old_value: String },
    /// The key is in both maps, with different values.
    Changed { key: String, old_value: String, new_value: String },
}

/// One record of a difference report, as mathematical strings.
pub enum Change {
    Added { key: Seq<char>, new_value: Seq<char> },
    Removed { key: Seq<char>, old_value: Seq<char> },
    Changed { key: Seq<char>, old_value: Seq<char>, new_value: Seq<char> },
}

impl View for DiffEntry {
    type V = Change;

    open spec fn view(&self) -> Change {
        match *self {
            DiffEntry::Added { key, new_value } => Change::Added {
                key: key@,
                new_value: new_value@,
            },
            DiffEntry::Removed { key, old_value } => Change::Removed {
                key: key@,
                old_value: old_value@,
            },
            DiffEntry::Changed { key, old_value, new_value } => Change::Changed {
                key: key@,
                old_value: old_value@,
                new_value: new_value@,
            },
        }
    }
}

impl Change {
    /// The key that the record is about.
    pub open spec fn subject(self) -> Seq<char> {
        match self {
            Change::Added { key, .. } => key,
            Change::Removed { key, .. } => key,
            Change::Changed { key, .. } => key,
        }
    }

    /// The same record seen from the other side: added and removed trade places, and a
    /// changed value trades old for new.
    pub open spec fn mirrored(self) -> Change {
        match self {
            Change::Added { key, new_value } => Change::Removed { key, old_value: new_value },
            Change::Removed { key, old_value } => Change::Added { key, new_value: old_value },
            Change::Changed { key, old_value, new_value } => Change::Changed {
                key,
                old_value: new_value,
                new_value: old_value,
            },
        }
    }
}

/// The mathematical content of a report.
pub open spec fn changes_of(report: Seq<DiffEntry>) -> Seq<Change> {
    Seq::new(report.len(), |i: int| report[i]@)
}

/// A report seen from the other side.
pub open spec fn mirrored_report(report: Seq<Change>) -> Seq<Change> {
    Seq::new(report.len(), |i: int| report[i].mirrored())
}

/// What a report from `a` to `b` says about the key `k`, if anything: nothing where the
/// key is in neither map or has the same value in both.
pub open spec fn change_for(
    a: Map<Seq<char>, Seq<char>>,
    b: Map<Seq<char>, Seq<char>>,
    k: Seq<char>,
) -> Option<Change> {
    if a.contains_key(k) && b.contains_key(k) {
        if a[k] == b[k] {
            None
        } else {
            Some(Change::Changed { key: k, old_value: a[k], new_value: b[k] })
        }
    } else if a.contains_key(k) {
        Some(Change::Removed { key: k, old_value: a[k] })
    } else if b.contains_key(k) {
        Some(Change::Added { key: k, new_value: b[k] })
    } else {
        None
    }
}

/// The records of the report are about strictly increasing keys.
pub open spec fn in_key_order(report: Seq<Change>) -> bool {
    forall|i: int, j: int|
        0 <= i < j < report.len() ==> key_lt(
            (#[trigger] report[i]).subject(),
            (#[trigger] report[j]).subject(),
        )
}

/// Some record of the report is about the key `k`.
pub open spec fn reports_on(report: Seq<Change>, k: Seq<char>) -> bool {
    exists|i: int| 0 <= i < report.len() && (#[trigger] report[i]).subject() == k
}

/// `report` is the difference from `a` to `b`: in key order, every record what there is
/// to say about its key, and a record for every key about which there is something to
/// say.
pub open spec fn is_diff(
    report: Seq<Change>,
    a: Map<Seq<char>, Seq<char>>,
    b: Map<Seq<char>, Seq<char>>,
) -> bool {
    &&& in_key_order(report)
    &&& forall|i: int|
        0 <= i < report.len() ==> change_for(a, b, (#[trigger] report[i]).subject()) == Some(
            report[i],
        )
    &&& forall|k: Seq<char>| (#[trigger] change_for(a, b, k)) is Some ==> reports_on(report, k)
}

/// Two reports in key order that are about the same keys are about them in the same
/// places.
proof fn lemma_same_subjects(r1: Seq<Change>, r2: Seq<Change>)
    requires
        in_key_order(r1),
        in_key_order(r2),
        forall|k: Seq<char>| reports_on(r1, k) <==> reports_on(r2, k),
    ensures
        r1.len() == r2.len(),
        forall|i: int| 0 <= i < r1.len() ==> (#[trigger] r1[i]).subject() == r2[i].subject(),
    decreases r1.len(),
{
    if r1.len() == 0 {
        if r2.len() > 0 {
            assert(reports_on(r2, r2[0].subject()));
            assert(reports_on(r1, r2[0].subject()));
        }
    } else if r2.len() == 0 {
        assert(reports_on(r1, r1[0].subject()));
        assert(reports_on(r2, r1[0].subject()));
    } else {
        let n1 = r1.len() - 1;
        let n2 = r2.len() - 1;
        lemma_last_subject(r1, r2);
        lemma_last_subject(r2, r1);
        lemma_key_lt_total(r1[n1].subject(), r2[n2].subject());
        let top = r1[n1].subject();
        assert(top == r2[n2].subject());
        let i1 = r1.drop_last();
        let i2 = r2.drop_last();
        assert(in_key_order(i1)) by {
            assert forall|i: int, j: int| 0 <= i < j < i1.len() implies key_lt(
                (#[trigger] i1[i]).subject(),
                (#[trigger] i1[j]).subject(),
            ) by {
                assert(key_lt(r1[i].subject(), r1[j].subject()));
            }
        }
        assert(in_key_order(i2)) by {
            assert forall|i: int, j: int| 0 <= i < j < i2.len() implies key_lt(
                (#[trigger] i2[i]).subject(),
                (#[trigger] i2[j]).subject(),
            ) by {
                assert(key_lt(r2[i].subject(), r2[j].subject()));
            }
        }
        assert forall|k: Seq<char>| reports_on(i1, k) <==> reports_on(i2, k) by {
            lemma_drop_last_reports(r1, k);
            lemma_drop_last_reports(r2, k);
        }
        lemma_same_subjects(i1, i2);
        assert forall|i: int| 0 <= i < r1.len() implies (#[trigger] r1[i]).subject()
            == r2[i].subject() by {
            if i < n1 {
                assert(i1[i].subject() == i2[i].subject());
            }
        }
    }
}

/// Without its last record, a report in key order is about the same keys but the last.
proof fn lemma_drop_last_reports(r: Seq<Change>, k: Seq<char>)
    requires
        in_key_order(r),
        r.len() > 0,
    ensures
        reports_on(r.drop_last(), k) <==> reports_on(r, k) && k != r.last().subject(),
{
    let init = r.drop_last();
    let n = r.len() - 1;
    if reports_on(init, k) {
        let i = choose|i: int| 0 <= i < init.len() && (#[trigger] init[i]).subject() == k;
        assert(r[i].subject() == k);
        assert(key_lt(r[i].subject(), r[n].subject()));
        lemma_key_lt_asymmetric(k, r[n].subject());
    }
    if reports_on(r, k) && k != r.last().subject() {
        let i = choose|i: int| 0 <= i < r.len() && (#[trigger] r[i]).subject() == k;
        assert(init[i].subject() == k);
    }
}

/// The last key of a report in key order is not below the last key of another such
/// report about the same keys.
proof fn lemma_last_subject(r1: Seq<Change>, r2: Seq<Change>)
    requires
        in_key_order(r1),
        in_key_order(r2),
        forall|k: Seq<char>| reports_on(r1, k) <==> reports_on(r2, k),
        r1.len() > 0,
        r2.len() > 0,
    ensures
        !key_lt(r1.last().subject(), r2.last().subject()),
{
    let k1 = r1.last().subject();
    let k2 = r2.last().subject();
    if key_lt(k1, k2) {
        assert(r2[r2.len() - 1].subject() == k2);
        assert(reports_on(r2, k2));
        assert(reports_on(r1, k2));
        let i = choose|i: int| 0 <= i < r1.len() && (#[trigger] r1[i]).subject() == k2;
        if i < r1.len() - 1 {
            assert(key_lt(r1[i].subject(), r1[r1.len() - 1].subject()));
            lemma_key_lt_transitive(k1, k2, k1);
        }
        lemma_key_lt_irreflexive(k1);
    }
}

/// There is only one difference from `a` to `b`.
pub proof fn lemma_diff_unique(
    r1: Seq<Change>,
    r2: Seq<Change>,
    a: Map<Seq<char>, Seq<char>>,
    b: Map<Seq<char>, Seq<char>>,
)
    requires
        is_diff(r1, a, b),
        is_diff(r2, a, b),
    ensures
        r1 == r2,
{
    assert forall|k: Seq<char>| reports_on(r1, k) <==> reports_on(r2, k) by {
        if reports_on(r1, k) {
            let i = choose|i: int| 0 <= i < r1.len() && (#[trigger] r1[i]).subject() == k;
            assert(change_for(a, b, r1[i].subject()) is Some);
        }
        if reports_on(r2, k) {
            let i = choose|i: int| 0 <= i < r2.len() && (#[trigger] r2[i]).subject() == k;
            assert(change_for(a, b, r2[i].subject()) is Some);
        }
    }
    lemma_same_subjects(r1, r2);
    assert forall|i: int| 0 <= i < r1.len() implies r1[i] == r2[i] by {
        assert(r1[i].subject() == r2[i].subject());
        assert(change_for(a, b, r1[i].subject()) == Some(r1[i]));
        assert(change_for(a, b, r2[i].subject()) == Some(r2[i]));
    }
    assert(r1 =~= r2);
}

/// Seen from the other side, the difference from `a` to `b` is a difference from `b`
/// to `a`.
pub proof fn lemma_mirrored_is_diff(
    report: Seq<Change>,
    a: Map<Seq<char>, Seq<char>>,
    b: Map<Seq<char>, Seq<char>>,
)
    requires
        is_diff(report, a, b),
    ensures
        is_diff(mirrored_report(report), b, a),
{
    let back = mirrored_report(report);
    assert forall|i: int| 0 <= i < back.len() implies (#[trigger] back[i]).subject()
        == report[i].subject() && change_for(b, a, back[i].subject()) == Some(back[i]) by {
        assert(change_for(a, b, report[i].subject()) == Some(report[i]));
    }
    assert forall|i: int, j: int| 0 <= i < j < back.len() implies key_lt(
        (#[trigger] back[i]).subject(),
        (#[trigger] back[j]).subject(),
    ) by {
        assert(key_lt(report[i].subject(), report[j].subject()));
    }
    assert forall|k: Seq<char>| (#[trigger] change_for(b, a, k)) is Some implies reports_on(
        back,
        k,
    ) by {
        assert(change_for(a, b, k) is Some);
        assert(reports_on(report, k));
        let i = choose|i: int| 0 <= i < report.len() && (#[trigger] report[i]).subject() == k;
        assert(back[i].subject() == k);
    }
}

/// Diff symmetry: the difference from `b` to `a` is the difference from `a` to `b` with
/// every record mirrored. Both are about the same keys in the same order; what one calls
/// added the other calls removed, and a changed value has old and new traded.
pub proof fn lemma_diff_symmetry(
    forth: Seq<Change>,
    back: Seq<Change>,
    a: Map<Seq<char>, Seq<char>>,
    b: Map<Seq<char>, Seq<char>>,
)
    requires
        is_diff(forth, a, b),
        is_diff(back, b, a),
    ensures
        back == mirrored_report(forth),
{
    lemma_mirrored_is_diff(forth, a, b);
    lemma_diff_unique(back, mirrored_report(forth), b, a);
}

/// Where a merge of two strictly increasing lists stands after `i` pairs of the first
/// and `j` pairs of the second: the report so far is in key order, below every key
/// still to come and right about its keys; every pair looked at has its record if
/// there is something to say about it; and the pairs looked at in one list lie below
/// the pairs still to come in the other.
spec fn merged_so_far(ea: Seq<Entry>, eb: Seq<Entry>, i: int, j: int, report: Seq<Change>) -> bool {
    let a = map_of(ea);
    let b = map_of(eb);
    &&& sorted_by_key(ea)
    &&& sorted_by_key(eb)
    &&& 0 <= i <= ea.len()
    &&& 0 <= j <= eb.len()
    &&& in_key_order(report)
    &&& forall|x: int|
        0 <= x < report.len() ==> change_for(a, b, (#[trigger] report[x]).subject()) == Some(
            report[x],
        )
    &&& forall|x: int, p: int|
        0 <= x < report.len() && i <= p < ea.len() ==> key_lt(
            (#[trigger] report[x]).subject(),
            (#[trigger] ea[p]).0,
        )
    &&& forall|x: int, q: int|
        0 <= x < report.len() && j <= q < eb.len() ==> key_lt(
            (#[trigger] report[x]).subject(),
            (#[trigger] eb[q]).0,
        )
    &&& forall|p: int|
        0 <= p < i && change_for(a, b, (#[trigger] ea[p]).0) is Some ==> reports_on(
            report,
            ea[p].0,
        )
    &&& forall|q: int|
        0 <= q < j && change_for(a, b, (#[trigger] eb[q]).0) is Some ==> reports_on(
            report,
            eb[q].0,
        )
    &&& forall|p: int, q: int|
        0 <= p < i && j <= q < eb.len() ==> key_lt((#[trigger] ea[p]).0, (#[trigger] eb[q]).0)
    &&& forall|q: int, p: int|
        0 <= q < j && i <= p < ea.len() ==> key_lt((#[trigger] eb[q]).0, (#[trigger] ea[p]).0)
}

/// A longer report is about every key that the shorter one is about.
proof fn lemma_push_reports(report: Seq<Change>, c: Change, k: Seq<char>)
    ensures
        reports_on(report, k) ==> reports_on(report.push(c), k),
        reports_on(report.push(c), c.subject()),
{
    let longer = report.push(c);
    if reports_on(report, k) {
        let x = choose|x: int| 0 <= x < report.len() && (#[trigger] report[x]).subject() == k;
        assert(longer[x].subject() == k);
    }
    assert(longer[report.len() as int].subject() == c.subject());
}

/// A key below every remaining key of a strictly increasing list, and above every key
/// already passed, is not in the list's map.
proof fn lemma_passed_over(e: Seq<Entry>, at: int, k: Seq<char>)
    requires
        sorted_by_key(e),
        0 <= at <= e.len(),
        forall|q: int| 0 <= q < at ==> key_lt((#[trigger] e[q]).0, k),
        at < e.len() ==> key_lt(k, e[at].0),
    ensures
        !map_of(e).contains_key(k),
{
    lemma_map_of_domain(e);
    if holds_key(e, k) {
        let q = index_of_key(e, k);
        if q > at {
            assert(key_lt(e[at].0, e[q].0));
            lemma_key_lt_transitive(k, e[at].0, k);
        }
        lemma_key_lt_irreflexive(k);
    }
}

/// The merge takes a pair of the first list whose key the second list does not hold.
proof fn lemma_merge_removed(ea: Seq<Entry>, eb: Seq<Entry>, i: int, j: int, report: Seq<Change>)
    requires
        merged_so_far(ea, eb, i, j, report),
        i < ea.len(),
        j < eb.len() ==> key_lt(ea[i].0, eb[j].0),
    ensures
        merged_so_far(
            ea,
            eb,
            i + 1,
            j,
            report.push(Change::Removed { key: ea[i].0, old_value: ea[i].1 }),
        ),
{
    let a = map_of(ea);
    let b = map_of(eb);
    let k = ea[i].0;
    let c = Change::Removed { key: k, old_value: ea[i].1 };
    let longer = report.push(c);
    lemma_map_of_sorted(ea);
    assert(a.contains_key(ea[i].0) && a[k] == ea[i].1);
    assert forall|q: int| 0 <= q < j implies key_lt((#[trigger] eb[q]).0, k) by {
        assert(key_lt(eb[q].0, ea[i].0));
    }
    lemma_passed_over(eb, j, k);
    assert(change_for(a, b, k) == Some(c));
    assert forall|x: int, y: int| 0 <= x < y < longer.len() implies key_lt(
        (#[trigger] longer[x]).subject(),
        (#[trigger] longer[y]).subject(),
    ) by {
        if y == report.len() {
            assert(key_lt(report[x].subject(), ea[i].0));
        } else {
            assert(key_lt(report[x].subject(), report[y].subject()));
        }
    }
    assert forall|x: int, p: int| 0 <= x < longer.len() && i + 1 <= p < ea.len() implies key_lt(
        (#[trigger] longer[x]).subject(),
        (#[trigger] ea[p]).0,
    ) by {
        if x == report.len() {
            assert(key_lt(ea[i].0, ea[p].0));
        } else {
            assert(key_lt(report[x].subject(), ea[p].0));
        }
    }
    assert forall|x: int, q: int| 0 <= x < longer.len() && j <= q < eb.len() implies key_lt(
        (#[trigger] longer[x]).subject(),
        (#[trigger] eb[q]).0,
    ) by {
        if x == report.len() {
            if j < q {
                assert(key_lt(eb[j].0, eb[q].0));
                lemma_key_lt_transitive(k, eb[j].0, eb[q].0);
            }
        } else {
            assert(key_lt(report[x].subject(), eb[q].0));
        }
    }
    assert forall|p: int|
        0 <= p < i + 1 && change_for(a, b, (#[trigger] ea[p]).0) is Some implies reports_on(
        longer,
        ea[p].0,
    ) by {
        lemma_push_reports(report, c, ea[p].0);
    }
    assert forall|q: int|
        0 <= q < j && change_for(a, b, (#[trigger] eb[q]).0) is Some implies reports_on(
        longer,
        eb[q].0,
    ) by {
        lemma_push_reports(report, c, eb[q].0);
    }
    assert forall|p: int, q: int| 0 <= p < i + 1 && j <= q < eb.len() implies key_lt(
        (#[trigger] ea[p]).0,
        (#[trigger] eb[q]).0,
    ) by {
        if p == i && j < q {
            assert(key_lt(eb[j].0, eb[q].0));
            lemma_key_lt_transitive(k, eb[j].0, eb[q].0);
        }
    }
    assert forall|q: int, p: int| 0 <= q < j && i + 1 <= p < ea.len() implies key_lt(
        (#[trigger] eb[q]).0,
        (#[trigger] ea[p]).0,
    ) by {
        assert(key_lt(eb[q].0, ea[p].0));
    }
    assert forall|x: int| 0 <= x < longer.len() implies change_for(
        a,
        b,
        (#[trigger] longer[x]).subject(),
    ) == Some(longer[x]) by {
        if x < report.len() {
            assert(longer[x] == report[x]);
        }
    }
}

/// Mirroring a report twice gives the report back.
proof fn lemma_mirrored_twice(report: Seq<Change>)
    ensures
        mirrored_report(mirrored_report(report)) == report,
{
    assert(mirrored_report(mirrored_report(report)) =~= report);
}

/// A merge seen from the other side, with the lists trading places, stands where the
/// merge stands.
proof fn lemma_merged_mirror(ea: Seq<Entry>, eb: Seq<Entry>, i: int, j: int, report: Seq<Change>)
    requires
        merged_so_far(ea, eb, i, j, report),
    ensures
        merged_so_far(eb, ea, j, i, mirrored_report(report)),
{
    let a = map_of(ea);
    let b = map_of(eb);
    let back = mirrored_report(report);
    assert forall|x: int| 0 <= x < back.len() implies (#[trigger] back[x]).subject()
        == report[x].subject() && change_for(b, a, back[x].subject()) == Some(back[x]) by {
        assert(change_for(a, b, report[x].subject()) == Some(report[x]));
    }
    assert forall|x: int, y: int| 0 <= x < y < back.len() implies key_lt(
        (#[trigger] back[x]).subject(),
        (#[trigger] back[y]).subject(),
    ) by {
        assert(key_lt(report[x].subject(), report[y].subject()));
    }
    assert forall|x: int, q: int| 0 <= x < back.len() && j <= q < eb.len() implies key_lt(
        (#[trigger] back[x]).subject(),
        (#[trigger] eb[q]).0,
    ) by {
        assert(key_lt(report[x].subject(), eb[q].0));
    }
    assert forall|x: int, p: int| 0 <= x < back.len() && i <= p < ea.len() implies key_lt(
        (#[trigger] back[x]).subject(),
        (#[trigger] ea[p]).0,
    ) by {
        assert(key_lt(report[x].subject(), ea[p].0));
    }
    assert forall|k: Seq<char>| reports_on(report, k) implies reports_on(back, k) by {
        let x = choose|x: int| 0 <= x < report.len() && (#[trigger] report[x]).subject() == k;
        assert(back[x].subject() == k);
    }
    assert forall|q: int|
        0 <= q < j && change_for(b, a, (#[trigger] eb[q]).0) is Some implies reports_on(
        back,
        eb[q].0,
    ) by {
        assert(change_for(a, b, eb[q].0) is Some);
        assert(reports_on(report, eb[q].0));
    }
    assert forall|p: int|
        0 <= p < i && change_for(b, a, (#[trigger] ea[p]).0) is Some implies reports_on(
        back,
        ea[p].0,
    ) by {
        assert(change_for(a, b, ea[p].0) is Some);
        assert(reports_on(report, ea[p].0));
    }
}

/// The merge takes a pair of the second list whose key the first list does not hold:
/// the mirror image of taking a pair of the first list.
proof fn lemma_merge_added(ea: Seq<Entry>, eb: Seq<Entry>, i: int, j: int, report: Seq<Change>)
    requires
        merged_so_far(ea, eb, i, j, report),
        j < eb.len(),
        i < ea.len() ==> key_lt(eb[j].0, ea[i].0),
    ensures
        merged_so_far(
            ea,
            eb,
            i,
            j + 1,
            report.push(Change::Added { key: eb[j].0, new_value: eb[j].1 }),
        ),
{
    let back = mirrored_report(report);
    let removed = Change::Removed { key: eb[j].0, old_value: eb[j].1 };
    lemma_merged_mirror(ea, eb, i, j, report);
    lemma_merge_removed(eb, ea, j, i, back);
    lemma_merged_mirror(eb, ea, j + 1, i, back.push(removed));
    assert(mirrored_report(back.push(removed)) =~= report.push(removed.mirrored())) by {
        lemma_mirrored_twice(report);
    }
}

/// The merge takes a pair from each list, both with the same key: a record is due where
/// the values differ.
proof fn lemma_merge_both(ea: Seq<Entry>, eb: Seq<Entry>, i: int, j: int, report: Seq<Change>)
    requires
        merged_so_far(ea, eb, i, j, report),
        i < ea.len(),
        j < eb.len(),
        ea[i].0 == eb[j].0,
    ensures
        ea[i].1 == eb[j].1 ==> merged_so_far(ea, eb, i + 1, j + 1, report),
        ea[i].1 != eb[j].1 ==> merged_so_far(
            ea,
            eb,
            i + 1,
            j + 1,
            report.push(Change::Changed { key: ea[i].0, old_value: ea[i].1, new_value: eb[j].1 }),
        ),
{
    let a = map_of(ea);
    let b = map_of(eb);
    let k = ea[i].0;
    lemma_map_of_sorted(ea);
    lemma_map_of_sorted(eb);
    assert(a.contains_key(ea[i].0) && a[k] == ea[i].1);
    assert(b.contains_key(eb[j].0) && b[k] == eb[j].1);
    assert forall|p: int, q: int| 0 <= p < i + 1 && j + 1 <= q < eb.len() implies key_lt(
        (#[trigger] ea[p]).0,
        (#[trigger] eb[q]).0,
    ) by {
        if p == i {
            assert(key_lt(eb[j].0, eb[q].0));
        } else {
            assert(key_lt(ea[p].0, eb[q].0));
        }
    }
    assert forall|q: int, p: int| 0 <= q < j + 1 && i + 1 <= p < ea.len() implies key_lt(
        (#[trigger] eb[q]).0,
        (#[trigger] ea[p]).0,
    ) by {
        if q == j {
            assert(key_lt(ea[i].0, ea[p].0));
        } else {
            assert(key_lt(eb[q].0, ea[p].0));
        }
    }
    if ea[i].1 == eb[j].1 {
        assert(change_for(a, b, k) is None);
        assert forall|x: int, p: int|
            0 <= x < report.len() && i + 1 <= p < ea.len() implies key_lt(
            (#[trigger] report[x]).subject(),
            (#[trigger] ea[p]).0,
        ) by {
            assert(key_lt(report[x].subject(), ea[p].0));
        }
        assert forall|x: int, q: int|
            0 <= x < report.len() && j + 1 <= q < eb.len() implies key_lt(
            (#[trigger] report[x]).subject(),
            (#[trigger] eb[q]).0,
        ) by {
            assert(key_lt(report[x].subject(), eb[q].0));
        }
    } else {
        let c = Change::Changed { key: k, old_value: ea[i].1, new_value: eb[j].1 };
        let longer = report.push(c);
        assert(change_for(a, b, k) == Some(c));
        assert forall|x: int, y: int| 0 <= x < y < longer.len() implies key_lt(
            (#[trigger] longer[x]).subject(),
            (#[trigger] longer[y]).subject(),
        ) by {
            if y == report.len() {
                assert(key_lt(report[x].subject(), ea[i].0));
            } else {
                assert(key_lt(report[x].subject(), report[y].subject()));
            }
        }
        assert forall|x: int, p: int|
            0 <= x < longer.len() && i + 1 <= p < ea.len() implies key_lt(
            (#[trigger] longer[x]).subject(),
            (#[trigger] ea[p]).0,
        ) by {
            if x == report.len() {
                assert(key_lt(ea[i].0, ea[p].0));
            } else {
                assert(key_lt(report[x].subject(), ea[p].0));
            }
        }
        assert forall|x: int, q: int|
            0 <= x < longer.len() && j + 1 <= q < eb.len() implies key_lt(
            (#[trigger] longer[x]).subject(),
            (#[trigger] eb[q]).0,
        ) by {
            if x == report.len() {
                assert(key_lt(eb[j].0, eb[q].0));
            } else {
                assert(key_lt(report[x].subject(), eb[q].0));
            }
        }
        assert forall|p: int|
            0 <= p < i + 1 && change_for(a, b, (#[trigger] ea[p]).0) is Some implies reports_on(
            longer,
            ea[p].0,
        ) by {
            lemma_push_reports(report, c, ea[p].0);
        }
        assert forall|q: int|
            0 <= q < j + 1 && change_for(a, b, (#[trigger] eb[q]).0) is Some implies reports_on(
            longer,
            eb[q].0,
        ) by {
            lemma_push_reports(report, c, eb[q].0);
        }
        assert forall|x: int| 0 <= x < longer.len() implies change_for(
            a,
            b,
            (#[trigger] longer[x]).subject(),
        ) == Some(longer[x]) by {
            if x < report.len() {
                assert(longer[x] == report[x]);
            }
        }
    }
}

/// Once both lists are used up, the report is the difference between their maps.
proof fn lemma_merge_done(ea: Seq<Entry>, eb: Seq<Entry>, report: Seq<Change>)
    requires
        merged_so_far(ea, eb, ea.len() as int, eb.len() as int, report),
    ensures
        is_diff(report, map_of(ea), map_of(eb)),
{
    let a = map_of(ea);
    let b = map_of(eb);
    lemma_map_of_domain(ea);
    lemma_map_of_domain(eb);
    assert forall|k: Seq<char>| (#[trigger] change_for(a, b, k)) is Some implies reports_on(
        report,
        k,
    ) by {
        if a.contains_key(k) {
            assert(holds_key(ea, k));
            let p = index_of_key(ea, k);
            assert(ea[p].0 == k);
        } else {
            assert(b.contains_key(k));
            assert(holds_key(eb, k));
            let q = index_of_key(eb, k);
            assert(eb[q].0 == k);
        }
    }
}

/// The difference from `a` to `b`: for every key of either map that is not in both
/// with the same value, one record, in the order of the keys.
pub fn compare(a: &KVStore, b: &KVStore) -> (r: Vec<DiffEntry>)
    ensures
        is_diff(changes_of(r@), a@, b@),
{
    let ea = a.entries();
    let eb = b.entries();
    let ghost pa = pairs_of(ea@);
    let ghost pb = pairs_of(eb@);
    let mut out: Vec<DiffEntry> = Vec::new();
    let mut i: usize = 0;
    let mut j: usize = 0;
    assert(changes_of(out@) =~= Seq::empty());
    while i < ea.len() || j < eb.len()
        invariant
            pa == pairs_of(ea@),
            pb == pairs_of(eb@),
            i <= ea@.len(),
            j <= eb@.len(),
            merged_so_far(pa, pb, i as int, j as int, changes_of(out@)),
        decreases (ea@.len() - i) + (eb@.len() - j),
    {
        let ghost before = changes_of(out@);
        let side = if j >= eb.len() {
            KeyOrder::Before
        } else if i >= ea.len() {
            KeyOrder::After
        } else {
            compare_keys(ea[i].0.as_str(), eb[j].0.as_str())
        };
        match side {
            KeyOrder::Before => {
                proof {
                    assert(pa[i as int] == (ea@[i as int].0@, ea@[i as int].1@));
                    if j < eb@.len() {
                        assert(pb[j as int].0 == eb@[j as int].0@);
                    }
                    lemma_merge_removed(pa, pb, i as int, j as int, before);
                }
                out.push(DiffEntry::Removed { key: ea[i].0.clone(), old_value: ea[i].1.clone() });
                assert(changes_of(out@) =~= before.push(
                    Change::Removed { key: pa[i as int].0, old_value: pa[i as int].1 },
                ));
                i += 1;
            },
            KeyOrder::After => {
                proof {
                    assert(pb[j as int] == (eb@[j as int].0@, eb@[j as int].1@));
                    if i < ea@.len() {
                        assert(pa[i as int].0 == ea@[i as int].0@);
                    }
                    lemma_merge_added(pa, pb, i as int, j as int, before);
                }
                out.push(DiffEntry::Added { key: eb[j].0.clone(), new_value: eb[j].1.clone() });
                assert(changes_of(out@) =~= before.push(
                    Change::Added { key: pb[j as int].0, new_value: pb[j as int].1 },
                ));
                j += 1;
            },
            KeyOrder::Same => {
                proof {
                    assert(pa[i as int] == (ea@[i as int].0@, ea@[i as int].1@));
                    assert(pb[j as int] == (eb@[j as int].0@, eb@[j as int].1@));
                    lemma_merge_both(pa, pb, i as int, j as int, before);
                }
                if !(ea[i].1 == eb[j].1) {
                    out.push(
                        DiffEntry::Changed {
                            key: ea[i].0.clone(),
                            old_value: ea[i].1.clone(),
                            new_value: eb[j].1.clone(),
                        },
                    );
                    assert(changes_of(out@) =~= before.push(
                        Change::Changed {
                            key: pa[i as int].0,
                            old_value: pa[i as int].1,
                            new_value: pb[j as int].1,
                        },
                    ));
                }
                i += 1;
                j += 1;
            },
        }
    }
    proof {
        lemma_merge_done(pa, pb, changes_of(out@));
    }
    out
}

} // verus!
