use vstd::prelude::*;

use crate::node::{lemma_concat, lemma_elements_sorted, lemma_lift, lemma_replace_child_wf, lemma_split_child, lemma_update_entry, KeyValuePair, Node};
use crate::seqmap::{insert_result, position, sorted_keys};

verus! {

impl<V> Node<V> {
    /// Splits a full node: it keeps the first `t-1` entries (and `t` children), the entry at
    /// `t-1` is handed back as the middle, and a new right sibling takes the rest.
    pub(crate) fn split(&mut self, min_childs: usize) -> (r: (KeyValuePair<V>, Node<V>))
        requires
            min_childs >= 2,
            old(self).elements@.len() + 1 == 2 * min_childs,
            old(self).wf_node(min_childs as nat, false),
        ensures
            final(self).elements@ == old(self).elements@.subrange(0, min_childs - 1),
            r.0 == old(self).elements@[min_childs - 1],
            r.1.elements@ == old(self).elements@.subrange(min_childs as int, old(self).elements@.len() as int),
            old(self).children@.len() == 0 ==> final(self).children@.len() == 0 && r.1.children@.len() == 0,
            old(self).children@.len() > 0 ==> final(self).children@ == old(self).children@.subrange(0, min_childs as int)
                && r.1.children@ == old(self).children@.subrange(min_childs as int, old(self).children@.len() as int),
            final(self).wf_node(min_childs as nat, false),
            r.1.wf_node(min_childs as nat, false),
            final(self).height() == old(self).height(),
            r.1.height() == old(self).height(),
            old(self).inorder() == final(self).inorder() + seq![r.0.pair()] + r.1.inorder(),
    {
        let ghost old_node = *self;
        let t = min_childs;
        let mut right_sibling = Node::new();
        right_sibling.elements = self.elements.split_off(t);
        let middle = self.elements.remove(t - 1);
        if !self.is_leaf() {
            right_sibling.children = self.children.split_off(t);
        }
        proof {
            let es = old_node.elements@;
            let cs = old_node.children@;
            assert(es =~= self.elements@ + seq![middle] + right_sibling.elements@);
            assert(cs =~= self.children@ + right_sibling.children@);
            lemma_concat(self.elements@, middle, right_sibling.elements@, self.children@, right_sibling.children@);
            old_node.lemma_inorder_of();
            self.lemma_inorder_of();
            right_sibling.lemma_inorder_of();
            if cs.len() > 0 {
                assert(cs[0] == self.children@[0]);
                assert(cs[t as int] == right_sibling.children@[0]);
                assert(cs[0].wf_node(t as nat, false));
                assert(cs[t as int].wf_node(t as nat, false));
                assert forall|i: int| 0 <= i < self.children@.len() implies
                    (#[trigger] self.children@[i]).wf_node(t as nat, false) && self.children@[i].height() + 1 == self.height() by {
                    assert(self.children@[i] == cs[i]);
                    assert(cs[i].wf_node(t as nat, false));
                }
                assert forall|i: int| 0 <= i < right_sibling.children@.len() implies
                    (#[trigger] right_sibling.children@[i]).wf_node(t as nat, false) && right_sibling.children@[i].height() + 1 == right_sibling.height() by {
                    assert(right_sibling.children@[i] == cs[i + t]);
                    assert(cs[i + t].wf_node(t as nat, false));
                }
            }
        }
        (middle, right_sibling)
    }

    /// Puts `value` into entry `pos` and hands back the value it held.
    fn replace_value(&mut self, pos: usize, value: V) -> (r: V)
        requires
            old(self).shape(),
            pos < old(self).elements@.len(),
        ensures
            final(self).children@ == old(self).children@,
            final(self).elements@.len() == old(self).elements@.len(),
            final(self).elements@ == old(self).elements@.update(
                pos as int,
                KeyValuePair { key: old(self).elements@[pos as int].key, value },
            ),
            r == old(self).elements@[pos as int].value,
            final(self).inorder() == old(self).inorder().update(
                old(self).entry_index(pos as int),
                (old(self).elements@[pos as int].key, value),
            ),
            old(self).inorder()[old(self).entry_index(pos as int)] == (old(self).elements@[pos as int].key, r),
            0 <= old(self).entry_index(pos as int) < old(self).inorder().len(),
    {
        let ghost old_node = *self;
        let mut v = value;
        std::mem::swap(&mut self.elements[pos].value, &mut v);
        proof {
            assert(self.elements@ =~= old_node.elements@.update(pos as int, KeyValuePair { key: old_node.elements@[pos as int].key, value }));
            lemma_update_entry(old_node, *self, pos as int, value);
            old_node.lemma_entry_index(pos as int);
        }
        v
    }

    /// Splits the full child `i`, lifting its middle entry into this node at `i` and
    /// placing the new right half at `i + 1`.
    fn split_child(&mut self, min_childs: usize, i: usize)
        requires
            min_childs >= 2,
            old(self).wf_node(min_childs as nat, true),
            old(self).elements@.len() + 1 < 2 * min_childs,
            old(self).children@.len() > 0,
            i < old(self).children@.len(),
            old(self).children@[i as int].elements@.len() + 1 == 2 * min_childs,
        ensures
            final(self).wf_node(min_childs as nat, true),
            final(self).height() == old(self).height(),
            final(self).inorder() == old(self).inorder(),
            final(self).elements@ == old(self).elements@.insert(i as int, final(self).elements@[i as int]),
            final(self).children@.len() == old(self).children@.len() + 1,
            final(self).children@[i as int].elements@.len() + 1 == min_childs,
            final(self).children@[i as int + 1].elements@.len() + 1 == min_childs,
    {
        let ghost t = min_childs as nat;
        let ghost before_split = *self;
        proof {
            assert(self.children@[i as int].wf_node(t, false));
            assert(i < self.children.len());
        }
        let (middle, right) = self.children[i].split(min_childs);
        let ghost left = self.children@[i as int];
        self.elements.insert(i, middle);
        self.children.insert(i + 1, right);
        proof {
            let i = i as int;
            assert(self.children@ == before_split.children@.update(i, left).insert(i + 1, right));
            lemma_split_child(before_split, *self, i, left, middle, right);
            assert forall|k: int| 0 <= k < self.children@.len() implies
                (#[trigger] self.children@[k]).wf_node(t, false) && self.children@[k].height() + 1 == self.height() by {
                assert(before_split.children@[0].wf_node(t, false));
                if k < i {
                    assert(self.children@[k] == before_split.children@[k]);
                    assert(before_split.children@[k].wf_node(t, false));
                } else if k > i + 1 {
                    assert(self.children@[k] == before_split.children@[k - 1]);
                    assert(before_split.children@[k - 1].wf_node(t, false));
                }
            }
        }
    }

    /// Inserts `(key, value)` into this subtree, whose root is not full; a full child is
    /// split before the insert enters it.
    pub(crate) fn insert(&mut self, min_childs: usize, key: i64, value: V) -> (r: Option<V>)
        requires
            min_childs >= 2,
            old(self).wf_node(min_childs as nat, true),
            old(self).elements@.len() + 1 < 2 * min_childs,
            sorted_keys(old(self).inorder()),
        ensures
            final(self).wf_node(min_childs as nat, true),
            final(self).height() == old(self).height(),
            old(self).elements@.len() <= final(self).elements@.len() <= old(self).elements@.len() + 1,
            old(self).children@.len() > 0 && (forall|i: int|
                0 <= i < old(self).children@.len() ==> #[trigger] old(self).children@[i].elements@.len() + 1 < 2 * min_childs)
                ==> final(self).elements@.len() == old(self).elements@.len(),
            forall|i: int|
                0 <= i < old(self).elements@.len() && #[trigger] old(self).elements@[i].key == key ==> {
                    &&& r == Some(old(self).elements@[i].value)
                    &&& final(self).elements@ == old(self).elements@.update(i, KeyValuePair { key, value })
                    &&& final(self).children@ == old(self).children@
                },
            insert_result(old(self).inorder(), final(self).inorder(), key, value, r),
        decreases old(self).height(),
    {
        let ghost t = min_childs as nat;
        let ghost s0 = self.inorder();
        let ghost start = *self;
        proof {
            lemma_elements_sorted(start);
        }
        let key_pos = self.find_pos(&key);
        proof {
            if !key_pos.1 {
                assert forall|i: int| 0 <= i < start.elements@.len() implies start.elements@[i].key != key by {
                    if i > key_pos.0 {
                        assert(start.elements@[i].key > start.elements@[key_pos.0 as int].key);
                    }
                }
            }
        }
        if key_pos.1 {
            let ghost before = *self;
            let old_value = self.replace_value(key_pos.0, value);
            proof {
                let j = before.entry_index(key_pos.0 as int);
                assert(s0[j] == (key, old_value));
                if self.children@.len() > 0 {
                    lemma_replace_child_wf(before, *self, 0, t, true);
                }
            }
            return Some(old_value);
        }
        if self.is_leaf() {
            let ghost before = *self;
            self.elements.insert(key_pos.0, KeyValuePair::new(key, value));
            proof {
                let p = key_pos.0 as int;
                lemma_elements_sorted(before);
                assert(self.inorder() =~= s0.insert(p, (key, value)));
                assert forall|j: int| p <= j < s0.len() implies s0[j].0 > key by {
                    assert(s0[j] == before.elements@[j].pair());
                }
                assert(position(s0, p, key));
            }
            return None;
        }
        let ghost before_split = *self;
        let ghost q = key_pos.0 as int;
        let ghost mut did_split = false;
        if self.children[key_pos.0].is_full(min_childs) {
            proof {
                assert(self.children@[q].wf_node(t, false));
                assert(self.children@[q].elements@.len() + 1 >= 2 * min_childs);
            }
            self.split_child(min_childs, key_pos.0);
            proof {
                did_split = true;
            }
        }
        let ghost mid = *self;
        let key_pos = self.find_pos(&key);
        if key_pos.1 {
            let old_value = self.replace_value(key_pos.0, value);
            proof {
                let j = mid.entry_index(key_pos.0 as int);
                assert(s0[j] == (key, old_value));
                lemma_replace_child_wf(mid, *self, 0, t, true);
            }
            return Some(old_value);
        }
        let ghost i = key_pos.0 as int;
        proof {
            lemma_elements_sorted(mid);
            mid.lemma_descend(i, key);
            assert(mid.children@[i].wf_node(t, false));
            if did_split {
                if q < before_split.elements@.len() {
                    assert(mid.elements@[q + 1] == before_split.elements@[q]);
                }
                assert(forall|k: int| 0 <= k < q ==> mid.elements@[k] == before_split.elements@[k]);
                assert(i == q || i == q + 1);
            } else {
                assert(i == q);
            }
        }
        let r = self.children[key_pos.0].insert(min_childs, key, value);
        proof {
            assert(self.children@ == mid.children@.update(i, self.children@[i]));
            lemma_lift(mid, *self, i, key);
            lemma_replace_child_wf(mid, *self, i, t, true);
        }
        r
    }
}

} // verus!
