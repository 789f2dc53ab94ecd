use vstd::prelude::*;

use crate::node::{lemma_concat, lemma_single, KeyValuePair, Node};
use crate::seqmap::{has_key, lemma_insert_result, lemma_map_at, lemma_remove_result, sorted_keys, to_map};

verus! {

/// A B-tree of a minimum degree given at creation, mapping `i64` keys to values of type `U`.
pub struct Tree<U> {
    min_childs: usize,
    root_node: Node<U>,
}

impl<U> View for Tree<U> {
    type V = Map<i64, U>;

    open spec fn view(&self) -> Map<i64, U> {
        to_map(self.entries())
    }
}

impl<U> Tree<U> {
    /// The minimum degree `t` of the tree.
    pub closed spec fn degree(self) -> nat {
        self.min_childs as nat
    }

    /// The root node of the tree.
    pub closed spec fn root(self) -> Node<U> {
        self.root_node
    }

    /// The number of levels below the root (0 while the root is a leaf).
    pub open spec fn height(self) -> nat {
        self.root().height()
    }

    /// The entries in tree order.
    pub open spec fn entries(self) -> Seq<(i64, U)> {
        self.root().inorder()
    }

    /// The B-tree invariants, as for `BTreeMap`.
    pub open spec fn well_formed(self) -> bool {
        &&& self.degree() >= 2
        &&& self.root().wf_node(self.degree(), true)
        &&& sorted_keys(self.entries())
        &&& (self.root().elements@.len() == 0 ==> self.root().children@.len() == 0)
    }

    /// Creates an empty tree of minimum degree `min_childs`, which must be at least 2.
    pub fn new(min_childs: usize) -> (r: Self)
        requires
            min_childs >= 2,
        ensures
            r.well_formed(),
            r@ == Map::<i64, U>::empty(),
            r.degree() == min_childs,
            r.height() == 0,
            r.entries().len() == 0,
    {
        let r = Self { min_childs, root_node: Node::new() };
        proof {
            assert(r.entries() =~= Seq::<(i64, U)>::empty());
            assert(r@ =~= Map::<i64, U>::empty());
        }
        r
    }

    /// Inserts `value` under `key`, replacing the value that `key` held; a full root is
    /// split first.
    pub fn insert(&mut self, key: i64, value: U)
        requires
            old(self).well_formed(),
        ensures
            final(self).well_formed(),
            final(self)@ == old(self)@.insert(key, value),
            old(self).root().elements@.len() + 1 == 2 * old(self).degree() ==> {
                &&& final(self).height() == old(self).height() + 1
                &&& final(self).root().elements@.len() == 1
                &&& final(self).root().children@.len() == 2
            },
            !(old(self).root().elements@.len() + 1 == 2 * old(self).degree()) ==> final(self).height() == old(self).height()
                && final(self).root().elements@.len() <= old(self).root().elements@.len() + 1,
            final(self).height() == 0 ==> final(self).root().elements@.len() == final(self).entries().len(),
            final(self).entries().len() == old(self).entries().len() + (if old(self)@.contains_key(key) { 0int } else { 1int }),
            final(self).degree() == old(self).degree(),
    {
        let ghost t = self.min_childs as nat;
        if self.root_node.is_full(self.min_childs) {
            let mut old_root = Node::new();
            std::mem::swap(&mut self.root_node, &mut old_root);
            proof {
                assert(old_root.wf_node(t, false));
            }
            let (middle_element, right_child) = old_root.split(self.min_childs);
            let left_child = old_root;
            self.root_node.children.push(left_child);
            self.root_node.children.push(right_child);
            self.root_node.elements.push(middle_element);
            proof {
                let root = self.root_node;
                let empty_e = Seq::<KeyValuePair<U>>::empty();
                assert(root.elements@ =~= empty_e + seq![middle_element] + empty_e);
                assert(root.children@ =~= seq![left_child] + seq![right_child]);
                lemma_concat(empty_e, middle_element, empty_e, seq![left_child], seq![right_child]);
                lemma_single(left_child);
                lemma_single(right_child);
                root.lemma_inorder_of();
                assert(root.children@[0] == left_child);
                assert(root.children@[1] == right_child);
                assert(root.wf_node(t, true));
            }
        }
        let ghost before = self.root_node;
        let r = self.root_node.insert(self.min_childs, key, value);
        proof {
            lemma_insert_result(before.inorder(), self.root_node.inorder(), key, value, r);
            if before.children@.len() == 0 {
                assert(before.height() == 0);
            }
        }
    }

    /// Removes `key` and hands back its value, or `None` where it was absent.
    pub fn remove(&mut self, key: &i64) -> (r: Option<U>)
        requires
            old(self).well_formed(),
        ensures
            final(self).well_formed(),
            final(self)@ == old(self)@.remove(*key),
            final(self).height() == old(self).height() || final(self).height() + 1 == old(self).height(),
            final(self).height() == 0 ==> final(self).root().elements@.len() == final(self).entries().len(),
            final(self).entries().len() + (if old(self)@.contains_key(*key) { 1int } else { 0int }) == old(self).entries().len(),
            r == old(self)@.get(*key),
            final(self).degree() == old(self).degree(),
    {
        if self.root_node.elements.is_empty() {
            proof {
                assert(self.entries() =~= Seq::<(i64, U)>::empty());
                assert(self@ =~= self@.remove(*key));
            }
            return None;
        }
        let ghost before = self.root_node;
        let removed_value = self.root_node.remove(self.min_childs, key);
        proof {
            lemma_remove_result(before.inorder(), self.root_node.inorder(), *key, removed_value);
        }
        if self.root_node.elements.is_empty() && !self.root_node.is_leaf() {
            let ghost emptied = self.root_node;
            self.root_node = self.root_node.children.remove(0);
            proof {
                let c = self.root_node;
                let t = self.min_childs as nat;
                assert(emptied.children@ =~= seq![c]);
                assert(emptied.elements@ =~= Seq::<KeyValuePair<U>>::empty());
                emptied.lemma_inorder_of();
                lemma_single(c);
                assert(emptied.children@[0].wf_node(t, false));
                assert(c.wf_node(t, true));
            }
        }
        removed_value
    }

    /// The value stored under `key`, if any, found by walking down from the root.
    pub fn search(&self, key: &i64) -> (r: Option<&U>)
        requires
            self.well_formed(),
        ensures
            match r {
                Some(v) => self@.contains_key(*key) && *v == self@[*key],
                None => !self@.contains_key(*key),
            },
    {
        let ghost t = self.min_childs as nat;
        let ghost whole = self.entries();
        let ghost mut off: int = 0;
        let mut node = &self.root_node;
        proof {
            assert(whole.subrange(0, whole.len() as int) =~= whole);
        }
        loop
            invariant
                t >= 2,
                whole == self.entries(),
                node.wf_node(t, true),
                sorted_keys(whole),
                sorted_keys(node.inorder()),
                0 <= off && off + node.inorder().len() <= whole.len(),
                node.inorder() == whole.subrange(off, off + node.inorder().len()),
                has_key(whole, *key) ==> has_key(node.inorder(), *key),
            decreases node.height(),
        {
            let pos = node.find_pos(key);
            if pos.1 {
                proof {
                    node.lemma_entry_index(pos.0 as int);
                    let j = node.entry_index(pos.0 as int);
                    assert(whole[off + j] == node.inorder()[j]);
                    lemma_map_at(whole, off + j);
                }
                return Some(&node.elements[pos.0].value);
            }
            if node.is_leaf() {
                proof {
                    if has_key(node.inorder(), *key) {
                        crate::node::lemma_elements_sorted(*node);
                        let j = choose|j: int| 0 <= j < node.inorder().len() && node.inorder()[j].0 == *key;
                        assert(node.inorder()[j] == node.elements@[j].pair());
                        if j > pos.0 {
                            assert(node.elements@[j].key > node.elements@[pos.0 as int].key);
                        }
                    }
                }
                return None;
            }
            proof {
                node.lemma_descend(pos.0 as int, *key);
                let a = node.pre(pos.0 as int).len() as int;
                let c = node.children@[pos.0 as int];
                assert(c.wf_node(t, false));
                assert(c.inorder() =~= node.inorder().subrange(a, a + c.inorder().len()));
                assert(c.inorder() =~= whole.subrange(off + a, off + a + c.inorder().len()));
                off = off + a;
            }
            node = &node.children[pos.0];
        }
    }
}

} // verus!
