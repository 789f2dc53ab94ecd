use vstd::prelude::*;

use crate::node::{lemma_concat, lemma_single, KeyValuePair, Node};
use crate::search::keys_of;
use crate::seqmap::{lemma_insert_result, lemma_map_at, lemma_remove_result, sorted_keys, to_map};

verus! {

const DEFAULT_B: usize = 6;

/// A map from `i64` keys to values of type `V`, kept in a B-tree of a fixed minimum
/// degree (the `min_childs` of a map, 6 unless another is given).
pub struct BTreeMap<V> {
    pub(crate) min_childs: usize,
    pub(crate) root_node: Node<V>,
}

impl<V> View for BTreeMap<V> {
    type V = Map<i64, V>;

    open spec fn view(&self) -> Map<i64, V> {
        to_map(self.entries())
    }
}

impl<V> Default for BTreeMap<V> {
    /// Creates an empty map of minimum degree 6.
    fn default() -> (r: Self)
        ensures
            r.well_formed(),
            r@ == Map::<i64, V>::empty(),
            r.degree() == 6,
    {
        BTreeMap::new()
    }
}

impl<V> BTreeMap<V> {
    /// The minimum degree `t` of the tree.
    pub closed spec fn degree(self) -> nat {
        self.min_childs as nat
    }

    /// The root node of the tree.
    pub closed spec fn root(self) -> Node<V> {
        self.root_node
    }

    /// The number of levels below the root (0 while the root is a leaf).
    pub open spec fn height(self) -> nat {
        self.root().height()
    }

    /// The entries in tree order.
    pub open spec fn entries(self) -> Seq<(i64, V)> {
        self.root().inorder()
    }

    /// The B-tree invariants: node sizes within `t-1 ..= 2t-1` (the root from 0), one more
    /// child than entries in every internal node, all leaves at one depth, entries in
    /// strictly ascending key order, and an empty root only as a leaf.
    pub open spec fn well_formed(self) -> bool {
        &&& self.degree() >= 2
        &&& self.root().wf_node(self.degree(), true)
        &&& sorted_keys(self.entries())
        &&& (self.root().elements@.len() == 0 ==> self.root().children@.len() == 0)
    }

    /// Creates an empty map of minimum degree 6.
    pub fn new() -> (r: Self)
        ensures
            r.well_formed(),
            r@ == Map::<i64, V>::empty(),
            r.degree() == 6,
            r.root().children@.len() == 0,
            r.height() == 0,
            r.entries().len() == 0,
    {
        Self::with_order(DEFAULT_B).unwrap()
    }

    /// Creates an empty map of minimum degree `b`, or an error where `b < 2`.
    pub fn with_order(b: usize) -> (r: Result<Self, &'static str>)
        ensures
            r.is_err() <==> b < 2,
            r matches Ok(m) ==> {
                &&& m.well_formed()
                &&& m@ == Map::<i64, V>::empty()
                &&& m.degree() == b
                &&& m.root().children@.len() == 0
                &&& m.height() == 0
                &&& m.entries().len() == 0
            },
    {
        if b < 2 {
            return Err("min_childs needs to be at least 2!");
        }
        let m = Self { min_childs: b, root_node: Node::new() };
        proof {
            assert(m.entries() =~= Seq::<(i64, V)>::empty());
            assert(m@ =~= Map::<i64, V>::empty());
        }
        Ok(m)
    }

    /// Inserts `value` under `key`: hands back the value that `key` held, or `None` where it
    /// was absent. A full root is split first, which makes the tree one level taller.
    pub fn insert(&mut self, key: i64, value: V) -> (r: Option<V>)
        requires
            old(self).well_formed(),
        ensures
            final(self).well_formed(),
            final(self)@ == old(self)@.insert(key, value),
            old(self).root().elements@.len() + 1 == 2 * old(self).degree() ==> {
                &&& final(self).height() == old(self).height() + 1
                &&& final(self).root().elements@.len() == 1
                &&& final(self).root().children@.len() == 2
            },
            !(old(self).root().elements@.len() + 1 == 2 * old(self).degree()) ==> final(self).height() == old(self).height()
                && final(self).root().elements@.len() <= old(self).root().elements@.len() + 1,
            final(self).height() == 0 ==> final(self).root().elements@.len() == final(self).entries().len(),
            final(self).entries().len() == old(self).entries().len() + (if old(self)@.contains_key(key) { 0int } else { 1int }),
            r == old(self)@.get(key),
            final(self).degree() == old(self).degree(),
    {
        if self.root_node.is_full(self.min_childs) {
            self.split_root();
            proof {
                let t = self.min_childs;
                let root = self.root_node;
                assert forall|i: int| 0 <= i < root.children@.len() implies
                    #[trigger] root.children@[i].elements@.len() + 1 < 2 * t by {
                }
            }
        }
        let ghost before = self.root_node;
        let r = self.root_node.insert(self.min_childs, key, value);
        proof {
            lemma_insert_result(before.inorder(), self.root_node.inorder(), key, value, r);
            if before.children@.len() == 0 {
                assert(before.height() == 0);
            }
        }
        r
    }

    /// Removes `key` and hands back its value, or `None` where it was absent. A root left
    /// with no entries above a single child gives way to that child, which makes the tree
    /// one level shorter.
    pub fn remove(&mut self, key: &i64) -> (r: Option<V>)
        requires
            old(self).well_formed(),
        ensures
            final(self).well_formed(),
            final(self)@ == old(self)@.remove(*key),
            final(self).height() == old(self).height() || final(self).height() + 1 == old(self).height(),
            final(self).height() == 0 ==> final(self).root().elements@.len() == final(self).entries().len(),
            final(self).entries().len() + (if old(self)@.contains_key(*key) { 1int } else { 0int }) == old(self).entries().len(),
            r == old(self)@.get(*key),
            final(self).degree() == old(self).degree(),
    {
        if self.root_node.elements.is_empty() {
            proof {
                assert(self.entries() =~= Seq::<(i64, V)>::empty());
                assert(self@ =~= self@.remove(*key));
            }
            return None;
        }
        let ghost before = self.root_node;
        let removed_value = self.root_node.remove(self.min_childs, key);
        proof {
            lemma_remove_result(before.inorder(), self.root_node.inorder(), *key, removed_value);
        }
        if self.root_node.elements.is_empty() && !self.root_node.is_leaf() {
            let ghost emptied = self.root_node;
            self.root_node = self.root_node.children.remove(0);
            proof {
                let c = self.root_node;
                let t = self.min_childs as nat;
                assert(emptied.children@ =~= seq![c]);
                assert(emptied.elements@ =~= Seq::<KeyValuePair<V>>::empty());
                emptied.lemma_inorder_of();
                lemma_single(c);
                assert(emptied.children@[0].wf_node(t, false));
                assert(c.wf_node(t, true));
            }
        }
        removed_value
    }

    /// The keys of the map in ascending order (the in-order walk of the tree).
    pub fn keys(&self) -> (r: Vec<i64>)
        requires
            self.well_formed(),
        ensures
            r@ == keys_of(self.entries()),
    {
        proof {
            self.root_node.lemma_well_shaped(self.min_childs as nat, true);
        }
        let mut out: Vec<i64> = Vec::new();
        self.root_node.collect_keys(&mut out);
        proof {
            assert(out@ =~= keys_of(self.entries()));
        }
        out
    }

    /// Whether the root is a leaf, that is, whether the tree has a single level.
    pub fn root_is_leaf(&self) -> (r: bool)
        ensures
            r == (self.root().children@.len() == 0),
    {
        self.root_node.is_leaf()
    }

    /// The value stored under `key`, if any.
    pub fn get(&self, key: &i64) -> (r: Option<&V>)
        requires
            self.well_formed(),
        ensures
            match r {
                Some(v) => self@.contains_key(*key) && *v == self@[*key],
                None => !self@.contains_key(*key),
            },
    {
        proof {
            self.root_node.lemma_well_shaped(self.min_childs as nat, true);
        }
        let r = self.root_node.search_tree(key);
        proof {
            if let Some(v) = r {
                let s = self.entries();
                let j = choose|j: int| 0 <= j < s.len() && s[j] == (*key, *v);
                lemma_map_at(s, j);
            }
        }
        r
    }
}

impl<V> BTreeMap<V> {
    /// Splits the full root: its middle entry becomes the only entry of a new root whose
    /// two children are the halves.
    pub(crate) fn split_root(&mut self)
        requires
            old(self).well_formed(),
            old(self).root_node.elements@.len() + 1 >= 2 * old(self).min_childs,
        ensures
            final(self).well_formed(),
            final(self).entries() == old(self).entries(),
            final(self).min_childs == old(self).min_childs,
            final(self).root_node.height() == old(self).root_node.height() + 1,
            final(self).root_node.elements@ == seq![old(self).root_node.elements@[old(self).min_childs - 1]],
            final(self).root_node.children@.len() == 2,
            final(self).root_node.children@[0].elements@ == old(self).root_node.elements@.subrange(
                0,
                old(self).min_childs - 1,
            ),
            final(self).root_node.children@[1].elements@ == old(self).root_node.elements@.subrange(
                old(self).min_childs as int,
                old(self).root_node.elements@.len() as int,
            ),
            old(self).root_node.children@.len() == 0 ==> final(self).root_node.children@[0].children@.len() == 0
                && final(self).root_node.children@[1].children@.len() == 0,
            old(self).root_node.children@.len() > 0 ==> final(self).root_node.children@[0].children@
                == old(self).root_node.children@.subrange(0, old(self).min_childs as int)
                && final(self).root_node.children@[1].children@ == old(self).root_node.children@.subrange(
                old(self).min_childs as int,
                old(self).root_node.children@.len() as int,
            ),
    {
        let ghost t = self.min_childs as nat;
        let mut old_root = Node::new();
        std::mem::swap(&mut self.root_node, &mut old_root);
        let ghost before = old_root;
        proof {
            assert(old_root.wf_node(t, false));
        }
        let (middle_element, right_child) = old_root.split(self.min_childs);
        let left_child = old_root;
        self.root_node.children.push(left_child);
        self.root_node.children.push(right_child);
        self.root_node.elements.push(middle_element);
        proof {
            let root = self.root_node;
            assert(root.elements@ =~= Seq::<KeyValuePair<V>>::empty() + seq![middle_element] + Seq::<KeyValuePair<V>>::empty());
            assert(root.children@ =~= seq![left_child] + seq![right_child]);
            lemma_concat(
                Seq::<KeyValuePair<V>>::empty(),
                middle_element,
                Seq::<KeyValuePair<V>>::empty(),
                seq![left_child],
                seq![right_child],
            );
            lemma_single(left_child);
            lemma_single(right_child);
            root.lemma_inorder_of();
            assert(root.children@[0] == left_child);
            assert(root.children@[1] == right_child);
            assert(root.wf_node(t, true));
            assert(root.elements@ =~= seq![middle_element]);
        }
    }
}


} // verus!
