use vstd::prelude::*;

use crate::map::BTreeMap;
use crate::seqmap::lemma_map_at;

verus! {

/// The map after inserting the pairs of `ops` into `m`, first to last.
pub open spec fn insert_all<V>(m: Map<i64, V>, ops: Seq<(i64, V)>) -> Map<i64, V>
    decreases ops.len(),
{
    if ops.len() == 0 {
        m
    } else {
        insert_all(m, ops.drop_last()).insert(ops.last().0, ops.last().1)
    }
}

/// The map after removing the keys of `ks` from `m`, first to last.
pub open spec fn remove_all<V>(m: Map<i64, V>, ks: Seq<i64>) -> Map<i64, V>
    decreases ks.len(),
{
    if ks.len() == 0 {
        m
    } else {
        remove_all(m, ks.drop_last()).remove(ks.last())
    }
}

/// After a run of inserts, a key maps to the value of the last insert that named it.
pub proof fn lemma_get_after_inserts<V>(m: Map<i64, V>, ops: Seq<(i64, V)>, i: int)
    requires
        0 <= i < ops.len(),
        forall|j: int| i < j < ops.len() ==> ops[j].0 != ops[i].0,
    ensures
        insert_all(m, ops).contains_key(ops[i].0),
        insert_all(m, ops)[ops[i].0] == ops[i].1,
    decreases ops.len(),
{
    if i < ops.len() - 1 {
        assert(ops.drop_last()[i] == ops[i]);
        lemma_get_after_inserts(m, ops.drop_last(), i);
    }
}

/// Removing a key that is absent (never inserted, or removed already) hands back
/// nothing and leaves the map as it was.
pub proof fn lemma_remove_absent<V>(m: Map<i64, V>, key: i64)
    ensures
        m.remove(key).get(key) == None::<V>,
        m.remove(key).remove(key) == m.remove(key),
        !m.contains_key(key) ==> m.get(key) == None::<V> && m.remove(key) == m,
{
    assert(m.remove(key).remove(key) =~= m.remove(key));
    if !m.contains_key(key) {
        assert(m.remove(key) =~= m);
    }
}

proof fn lemma_insert_all_dom<V>(m: Map<i64, V>, ops: Seq<(i64, V)>, k: i64)
    requires
        insert_all(m, ops).contains_key(k),
    ensures
        m.contains_key(k) || exists|i: int| 0 <= i < ops.len() && ops[i].0 == k,
    decreases ops.len(),
{
    if ops.len() > 0 && ops.last().0 != k {
        lemma_insert_all_dom(m, ops.drop_last(), k);
        if !m.contains_key(k) {
            let i = choose|i: int| 0 <= i < ops.drop_last().len() && ops.drop_last()[i].0 == k;
            assert(ops[i].0 == k);
        }
    }
}

proof fn lemma_remove_all_dom<V>(m: Map<i64, V>, ks: Seq<i64>, k: i64)
    requires
        remove_all(m, ks).contains_key(k),
    ensures
        m.contains_key(k),
        !ks.contains(k),
    decreases ks.len(),
{
    if ks.len() > 0 {
        lemma_remove_all_dom(m, ks.drop_last(), k);
        assert forall|i: int| 0 <= i < ks.len() implies ks[i] != k by {
            if i < ks.len() - 1 {
                assert(ks.drop_last()[i] == ks[i]);
            }
        }
    }
}

/// Inserting pairs into an empty map and then removing every key they name, in any
/// order, leaves the empty map.
pub proof fn lemma_drain<V>(ops: Seq<(i64, V)>, ks: Seq<i64>)
    requires
        forall|i: int| 0 <= i < ops.len() ==> ks.contains(#[trigger] ops[i].0),
    ensures
        remove_all(insert_all(Map::<i64, V>::empty(), ops), ks) == Map::<i64, V>::empty(),
{
    let full = insert_all(Map::<i64, V>::empty(), ops);
    assert forall|k: i64| !#[trigger] remove_all(full, ks).contains_key(k) by {
        if remove_all(full, ks).contains_key(k) {
            lemma_remove_all_dom(full, ks, k);
            lemma_insert_all_dom(Map::<i64, V>::empty(), ops, k);
            let i = choose|i: int| 0 <= i < ops.len() && ops[i].0 == k;
            assert(ks.contains(ops[i].0));
        }
    }
    assert(remove_all(full, ks) =~= Map::<i64, V>::empty());
}

/// In a well-formed map every node reached from the root by a path of child indices holds
/// at most `2t-1` entries, and at least `t-1` unless it is the root; it is a leaf or has one
/// more child than entries; and it is a leaf exactly when the path is as long as the tree
/// is high, so all leaves lie at one depth.
pub proof fn lemma_node_invariants<V>(m: BTreeMap<V>, path: Seq<int>)
    requires
        m.well_formed(),
        m.root().descend(path) is Some,
    ensures
        ({
            let x = m.root().descend(path)->0;
            let t = m.degree();
            &&& x.elements@.len() <= 2 * t - 1
            &&& (path.len() > 0 ==> x.elements@.len() >= t - 1)
            &&& (x.children@.len() == 0 || x.children@.len() == x.elements@.len() + 1)
            &&& (x.children@.len() == 0 <==> path.len() == m.root().height())
        }),
{
    m.root().lemma_descend_wf(m.degree(), true, path);
}

/// All leaves of a well-formed map lie at the same depth.
pub proof fn lemma_leaves_same_depth<V>(m: BTreeMap<V>, left_path: Seq<int>, right_path: Seq<int>)
    requires
        m.well_formed(),
        m.root().descend(left_path) is Some,
        m.root().descend(right_path) is Some,
        m.root().descend(left_path)->0.children@.len() == 0,
        m.root().descend(right_path)->0.children@.len() == 0,
    ensures
        left_path.len() == right_path.len(),
{
    m.root().lemma_descend_wf(m.degree(), true, left_path);
    m.root().lemma_descend_wf(m.degree(), true, right_path);
}

/// A well-formed map with no entries is a single leaf with no entries.
pub proof fn lemma_empty_is_leaf<V>(m: BTreeMap<V>)
    requires
        m.well_formed(),
        m@ == Map::<i64, V>::empty(),
    ensures
        m.root().elements@.len() == 0,
        m.root().children@.len() == 0,
{
    if m.root().elements@.len() > 0 {
        m.root().lemma_entry_index(0);
        lemma_map_at(m.entries(), m.root().entry_index(0));
    }
}

} // verus!
