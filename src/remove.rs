use vstd::prelude::*;

use crate::node::{
    inorder_of, lemma_child_sorted, merged, rotated_from_left, rotated_from_right, lemma_concat, lemma_elements_sorted, lemma_first_child, lemma_last_child,
    lemma_lift, lemma_nonempty, lemma_replace_child_wf, lemma_replace_two_wf, lemma_rotate_left, lemma_rotate_right,
    lemma_same_outside, lemma_same_prefix, lemma_same_suffix, lemma_split_child, lemma_window, KeyValuePair, Node,
};
use crate::seqmap::{has_key, remove_result, sorted_keys};

verus! {

impl<V> Node<V> {
    /// The largest key of this subtree, found along the last children.
    fn max_key(&self, Ghost(t): Ghost<nat>) -> (r: i64)
        requires
            t >= 2,
            self.wf_node(t, false),
        ensures
            self.inorder().len() > 0,
            r == self.inorder().last().0,
        decreases self,
    {
        proof {
            lemma_nonempty(*self, t);
        }
        if self.is_leaf() {
            proof {
                assert(self.inorder().last() == self.elements@.last().pair());
            }
            self.elements[self.elements.len() - 1].key
        } else {
            let last = self.children.len() - 1;
            proof {
                lemma_last_child(*self);
                assert(self.children@[last as int].wf_node(t, false));
            }
            self.children[last].max_key(Ghost(t))
        }
    }

    /// The smallest key of this subtree, found along the first children.
    fn min_key(&self, Ghost(t): Ghost<nat>) -> (r: i64)
        requires
            t >= 2,
            self.wf_node(t, false),
        ensures
            self.inorder().len() > 0,
            r == self.inorder()[0].0,
        decreases self,
    {
        proof {
            lemma_nonempty(*self, t);
        }
        if self.is_leaf() {
            proof {
                assert(self.inorder()[0] == self.elements@[0].pair());
            }
            self.elements[0].key
        } else {
            proof {
                lemma_first_child(*self);
                assert(self.children@[0].wf_node(t, false));
                lemma_nonempty(self.children@[0], t);
            }
            self.children[0].min_key(Ghost(t))
        }
    }

    /// Rotation through the parent: the last entry of child `pos - 1` moves up into slot
    /// `pos - 1`, the entry there moves down to the front of child `pos`, and (between
    /// internal nodes) the last child of the left sibling becomes the first of child `pos`.
    fn borrow_from_left(&mut self, Ghost(t): Ghost<nat>, pos: usize)
        requires
            t >= 2,
            old(self).wf_node(t, true),
            old(self).children@.len() > 0,
            sorted_keys(old(self).inorder()),
            0 < pos <= old(self).elements@.len(),
            old(self).children@[pos - 1].elements@.len() >= t,
            old(self).children@[pos as int].elements@.len() + 1 == t,
        ensures
            final(self).wf_node(t, true),
            final(self).height() == old(self).height(),
            final(self).inorder() == old(self).inorder(),
            final(self).elements@.len() == old(self).elements@.len(),
            final(self).children@.len() == old(self).children@.len(),
            final(self).children@[pos as int].elements@.len() == t,
            final(self).elements@[pos - 1].key < old(self).elements@[pos - 1].key,
            rotated_from_left(*old(self), *final(self), pos as int),
    {
        let ghost before = *self;
        let ghost a = pos - 1;
        let ghost s = self.children@[a];
        let ghost tt = self.children@[a + 1];
        proof {
            assert(s.wf_node(t, false));
            assert(tt.wf_node(t, false));
            if s.children@.len() > 0 {
                assert(s.height() > 0);
            }
            if tt.children@.len() > 0 {
                assert(tt.height() > 0);
            }
        }
        let left_sibling = &mut self.children[pos - 1];
        let n = left_sibling.elements.len();
        let left_sibling_key = left_sibling.elements.remove(n - 1);
        let ghost mut moved: Seq<Node<V>> = Seq::empty();
        if !left_sibling.is_leaf() {
            let m = left_sibling.children.len();
            let left_sibling_child = left_sibling.children.remove(m - 1);
            proof {
                moved = seq![left_sibling_child];
            }
            self.children[pos].children.insert(0, left_sibling_child);
        }
        let mut own_element = left_sibling_key;
        std::mem::swap(&mut self.elements[pos - 1], &mut own_element);
        self.children[pos].elements.insert(0, own_element);
        proof {
            let s2 = self.children@[a];
            let t2 = self.children@[a + 1];
            assert(s.children@ =~= s2.children@ + moved);
            assert(t2.children@ =~= moved + tt.children@);
            assert(t2.elements@ =~= seq![own_element] + tt.elements@);
            assert(s.elements@ =~= s2.elements@.push(left_sibling_key));
            lemma_rotate_right(s, s2, tt, t2, moved, left_sibling_key, own_element, t);
            assert(self.blocks()[a] + self.blocks()[a + 1] =~= before.blocks()[a] + before.blocks()[a + 1]);
            lemma_window(before, *self, a);
            before.lemma_at(a);
            let x = before.pre(a).len() as int;
            assert(before.inorder()[x + s2.inorder().len()] == left_sibling_key.pair());
            assert(before.inorder()[x + s.inorder().len()] == own_element.pair());
            lemma_replace_two_wf(before, *self, a, t, true);
        }
    }

    /// The mirror rotation: the first entry of child `pos + 1` moves up into slot `pos`,
    /// the entry there moves down to the end of child `pos`, and (between internal nodes)
    /// the first child of the right sibling becomes the last of child `pos`.
    fn borrow_from_right(&mut self, Ghost(t): Ghost<nat>, pos: usize)
        requires
            t >= 2,
            old(self).wf_node(t, true),
            old(self).children@.len() > 0,
            sorted_keys(old(self).inorder()),
            pos < old(self).elements@.len(),
            old(self).children@[pos + 1].elements@.len() >= t,
            old(self).children@[pos as int].elements@.len() + 1 == t,
        ensures
            final(self).wf_node(t, true),
            final(self).height() == old(self).height(),
            final(self).inorder() == old(self).inorder(),
            final(self).elements@.len() == old(self).elements@.len(),
            final(self).children@.len() == old(self).children@.len(),
            final(self).children@[pos as int].elements@.len() == t,
            final(self).elements@[pos as int].key > old(self).elements@[pos as int].key,
            rotated_from_right(*old(self), *final(self), pos as int),
    {
        let ghost before = *self;
        let ghost a = pos as int;
        let ghost tt = self.children@[a];
        let ghost r = self.children@[a + 1];
        proof {
            assert(r.wf_node(t, false));
            assert(tt.wf_node(t, false));
            if r.children@.len() > 0 {
                assert(r.height() > 0);
            }
            if tt.children@.len() > 0 {
                assert(tt.height() > 0);
            }
        }
        proof {
            assert(pos + 1 < self.children.len());
        }
        let right_sibling = &mut self.children[pos + 1];
        let right_sibling_key = right_sibling.elements.remove(0);
        let ghost mut moved: Seq<Node<V>> = Seq::empty();
        if !right_sibling.is_leaf() {
            let right_sibling_child = right_sibling.children.remove(0);
            proof {
                moved = seq![right_sibling_child];
            }
            self.children[pos].children.push(right_sibling_child);
        }
        let mut own_element = right_sibling_key;
        std::mem::swap(&mut self.elements[pos], &mut own_element);
        self.children[pos].elements.push(own_element);
        proof {
            let t2 = self.children@[a];
            let r2 = self.children@[a + 1];
            assert(r.children@ =~= moved + r2.children@);
            assert(t2.children@ =~= tt.children@ + moved);
            assert(r.elements@ =~= seq![right_sibling_key] + r2.elements@);
            assert(t2.elements@ =~= tt.elements@.push(own_element));
            lemma_rotate_left(r, r2, tt, t2, moved, right_sibling_key, own_element, t);
            assert(self.blocks()[a] + self.blocks()[a + 1] =~= before.blocks()[a] + before.blocks()[a + 1]);
            lemma_window(before, *self, a);
            before.lemma_at(a);
            let x = before.pre(a).len() as int;
            let y = x + tt.inorder().len();
            assert(before.inorder()[y] == own_element.pair());
            assert(before.inorder()[y + 1 + inorder_of(Seq::<KeyValuePair<V>>::empty(), moved).len()] == right_sibling_key.pair());
            lemma_replace_two_wf(before, *self, a, t, true);
        }
    }

    /// Merges child `left_child_pos + 1` and the entry between the two into child
    /// `left_child_pos`; both children hold `t-1` entries.
    fn merge_children(&mut self, Ghost(t): Ghost<nat>, left_child_pos: usize)
        requires
            t >= 2,
            old(self).wf_node(t, true),
            old(self).children@.len() > 0,
            left_child_pos < old(self).elements@.len(),
            old(self).children@[left_child_pos as int].elements@.len() + 1 == t,
            old(self).children@[left_child_pos + 1].elements@.len() + 1 == t,
        ensures
            final(self).wf_node(t, true),
            final(self).height() == old(self).height(),
            final(self).inorder() == old(self).inorder(),
            final(self).elements@ == old(self).elements@.remove(left_child_pos as int),
            final(self).children@.len() == old(self).children@.len() - 1,
            final(self).children@[left_child_pos as int].elements@.len() + 1 == 2 * t,
            final(self).children@[left_child_pos as int].inorder() == old(self).children@[left_child_pos as int].inorder()
                + seq![old(self).elements@[left_child_pos as int].pair()] + old(self).children@[left_child_pos + 1].inorder(),
            merged(*old(self), *final(self), left_child_pos as int),
    {
        let ghost before = *self;
        let ghost i = left_child_pos as int;
        let ghost l = self.children@[i];
        let ghost r = self.children@[i + 1];
        proof {
            assert(l.wf_node(t, false));
            assert(r.wf_node(t, false));
            if l.children@.len() > 0 {
                assert(l.height() > 0);
            }
            if r.children@.len() > 0 {
                assert(r.height() > 0);
            }
            assert(left_child_pos + 1 < self.children.len());
        }
        let key = self.elements.remove(left_child_pos);
        let mut right_child = self.children.remove(left_child_pos + 1);
        let left_child = &mut self.children[left_child_pos];
        left_child.elements.push(key);
        left_child.elements.append(&mut right_child.elements);
        left_child.children.append(&mut right_child.children);
        proof {
            let m = self.children@[i];
            assert(m.elements@ =~= l.elements@ + seq![key] + r.elements@);
            assert(m.children@ =~= l.children@ + r.children@);
            lemma_concat(l.elements@, key, r.elements@, l.children@, r.children@);
            m.lemma_inorder_of();
            l.lemma_inorder_of();
            r.lemma_inorder_of();
            assert(before.elements@ == self.elements@.insert(i, key));
            assert(before.children@ =~= self.children@.update(i, l).insert(i + 1, r));
            lemma_split_child(*self, before, i, l, key, r);
            if m.children@.len() > 0 {
                assert(l.children@[0].wf_node(t, false));
                assert(m.children@[0] == l.children@[0]);
                assert forall|k: int| 0 <= k < m.children@.len() implies
                    (#[trigger] m.children@[k]).wf_node(t, false) && m.children@[k].height() + 1 == m.height() by {
                    if k < l.children@.len() {
                        assert(m.children@[k] == l.children@[k]);
                        assert(l.children@[k].wf_node(t, false));
                    } else {
                        assert(m.children@[k] == r.children@[k - l.children@.len()]);
                        assert(r.children@[k - l.children@.len()].wf_node(t, false));
                    }
                }
            }
            assert(m.wf_node(t, false));
            assert(m.height() == l.height());
            assert(before.children@[0].wf_node(t, false));
            if i == 0 {
                assert(self.children@[0] == m);
            } else {
                assert(self.children@[0] == before.children@[0]);
            }
            assert(self.height() == before.height());
            assert forall|k: int| 0 <= k < self.children@.len() implies
                (#[trigger] self.children@[k]).wf_node(t, false) && self.children@[k].height() + 1 == self.height() by {
                if k < i {
                    assert(self.children@[k] == before.children@[k]);
                    assert(before.children@[k].wf_node(t, false));
                } else if k > i {
                    assert(self.children@[k] == before.children@[k + 1]);
                    assert(before.children@[k + 1].wf_node(t, false));
                }
            }
        }
    }
}

impl<V> Node<V> {
    /// Gives child `pos`, which holds `t-1` entries, at least `t`: by a rotation from a
    /// sibling with entries to spare, the left one first, or else by a merge with the right
    /// sibling (the left one for the last child). Returns the index of the child that now
    /// holds the keys of the former child `pos`.
    fn fill_child(&mut self, min_childs: usize, pos: usize) -> (q: usize)
        requires
            min_childs >= 2,
            old(self).wf_node(min_childs as nat, true),
            old(self).children@.len() > 0,
            old(self).elements@.len() >= 1,
            sorted_keys(old(self).inorder()),
            pos <= old(self).elements@.len(),
            old(self).children@[pos as int].elements@.len() + 1 == min_childs,
        ensures
            final(self).wf_node(min_childs as nat, true),
            final(self).height() == old(self).height(),
            final(self).inorder() == old(self).inorder(),
            final(self).elements@.len() + 1 >= old(self).elements@.len(),
            final(self).children@.len() > 0,
            q <= final(self).elements@.len(),
            final(self).children@[q as int].elements@.len() >= min_childs,
            q > 0 ==> pos > 0 && final(self).elements@[q - 1].key <= old(self).elements@[pos - 1].key,
            q < final(self).elements@.len() ==> pos < old(self).elements@.len()
                && final(self).elements@[q as int].key >= old(self).elements@[pos as int].key,
            ({
                let left_spare = pos > 0 && old(self).children@[pos - 1].elements@.len() >= min_childs;
                let right_spare = pos < old(self).elements@.len()
                    && old(self).children@[pos + 1].elements@.len() >= min_childs;
                &&& left_spare ==> q == pos && rotated_from_left(*old(self), *final(self), pos as int)
                &&& !left_spare && right_spare ==> q == pos && rotated_from_right(*old(self), *final(self), pos as int)
                &&& !left_spare && !right_spare && pos == old(self).elements@.len() ==> q == pos - 1
                    && merged(*old(self), *final(self), pos - 1)
                &&& !left_spare && !right_spare && pos < old(self).elements@.len() ==> q == pos
                    && merged(*old(self), *final(self), pos as int)
            }),
    {
        let ghost t = min_childs as nat;
        let ghost before = *self;
        proof {
            lemma_elements_sorted(before);
        }
        let min_keys = min_childs - 1;
        let last_child = self.elements.len() == pos;
        if pos != 0 && self.children[pos - 1].elements.len() > min_keys {
            self.borrow_from_left(Ghost(t), pos);
            pos
        } else if pos != self.children.len() - 1 && self.children[pos + 1].elements.len() > min_keys {
            self.borrow_from_right(Ghost(t), pos);
            pos
        } else if last_child {
            proof {
                assert(before.children@[pos - 1].wf_node(t, false));
            }
            self.merge_children(Ghost(t), pos - 1);
            pos - 1
        } else {
            proof {
                assert(before.children@[pos + 1].wf_node(t, false));
            }
            self.merge_children(Ghost(t), pos);
            pos
        }
    }

    /// Replaces entry `key_pos`, which holds `key`, by its predecessor, taken out of child
    /// `key_pos`, which has entries to spare.
    fn replace_with_predecessor(&mut self, min_childs: usize, key: &i64, key_pos: usize) -> (r: Option<V>)
        requires
            min_childs >= 2,
            old(self).wf_node(min_childs as nat, true),
            sorted_keys(old(self).inorder()),
            old(self).children@.len() > 0,
            key_pos < old(self).elements@.len(),
            old(self).elements@[key_pos as int].key == *key,
            old(self).children@[key_pos as int].elements@.len() >= min_childs,
        ensures
            final(self).wf_node(min_childs as nat, true),
            final(self).height() == old(self).height(),
            final(self).elements@.len() == old(self).elements@.len(),
            final(self).children@.len() == old(self).children@.len(),
            remove_result(old(self).inorder(), final(self).inorder(), *key, r),
        decreases old(self).height(), 0int,
    {
        let ghost t = min_childs as nat;
        let ghost before = *self;
        let ghost kp = key_pos as int;
        proof {
            lemma_elements_sorted(before);
            assert(before.children@[kp].wf_node(t, false));
            assert(before.children@[kp + 1].wf_node(t, false));
            assert(key_pos + 1 < self.children.len());
        }
        let ghost c = before.children@[kp];
        proof {
            lemma_child_sorted(before, kp);
        }
        let pred_key = self.children[key_pos].max_key(Ghost(t));
        let removed = self.children[key_pos].remove(min_childs, &pred_key);
        proof {
            let ci = c.inorder();
            let last = ci.len() - 1;
            assert(has_key(ci, pred_key));
            let j = choose|j: int| 0 <= j < ci.len() && ci[j].0 == pred_key && ci[j] == (pred_key, removed->0) && self.children@[kp].inorder() == ci.remove(j);
            assert(j == last);
        }
        let value = removed.unwrap();
        let mut entry = KeyValuePair::new(pred_key, value);
        std::mem::swap(&mut self.elements[key_pos], &mut entry);
        proof {
            let c2 = self.children@[kp];
            assert(c.inorder() =~= c2.inorder().push((pred_key, value)));
            lemma_same_outside(before, *self, kp);
            before.lemma_at(kp);
            self.lemma_at(kp);
            let a = (before.pre(kp).len() + c.inorder().len()) as int;
            assert(before.inorder()[a] == (*key, entry.value));
            assert(self.inorder() =~= before.inorder().remove(a));
            assert(c2.wf_node(t, false));
            lemma_replace_child_wf(before, *self, kp, t, true);
        }
        Some(entry.value)
    }

    /// Replaces entry `key_pos`, which holds `key`, by its successor, taken out of child
    /// `key_pos + 1`, which has entries to spare.
    fn replace_with_successor(&mut self, min_childs: usize, key: &i64, key_pos: usize) -> (r: Option<V>)
        requires
            min_childs >= 2,
            old(self).wf_node(min_childs as nat, true),
            sorted_keys(old(self).inorder()),
            old(self).children@.len() > 0,
            key_pos < old(self).elements@.len(),
            old(self).elements@[key_pos as int].key == *key,
            old(self).children@[key_pos + 1].elements@.len() >= min_childs,
        ensures
            final(self).wf_node(min_childs as nat, true),
            final(self).height() == old(self).height(),
            final(self).elements@.len() == old(self).elements@.len(),
            final(self).children@.len() == old(self).children@.len(),
            remove_result(old(self).inorder(), final(self).inorder(), *key, r),
        decreases old(self).height(), 0int,
    {
        let ghost t = min_childs as nat;
        let ghost before = *self;
        let ghost kp = key_pos as int;
        proof {
            lemma_elements_sorted(before);
            assert(before.children@[kp].wf_node(t, false));
            assert(before.children@[kp + 1].wf_node(t, false));
            assert(key_pos + 1 < self.children.len());
        }
        let ghost c = before.children@[kp + 1];
        proof {
            lemma_child_sorted(before, kp + 1);
        }
        let succ_key = self.children[key_pos + 1].min_key(Ghost(t));
        let removed = self.children[key_pos + 1].remove(min_childs, &succ_key);
        proof {
            let ci = c.inorder();
            assert(has_key(ci, succ_key));
            let j = choose|j: int| 0 <= j < ci.len() && ci[j].0 == succ_key && ci[j] == (succ_key, removed->0) && self.children@[kp + 1].inorder() == ci.remove(j);
            assert(j == 0);
        }
        let value = removed.unwrap();
        let mut entry = KeyValuePair::new(succ_key, value);
        std::mem::swap(&mut self.elements[key_pos], &mut entry);
        proof {
            let c2 = self.children@[kp + 1];
            assert(c.inorder() =~= seq![(succ_key, value)] + c2.inorder());
            lemma_same_prefix(before, *self, kp);
            lemma_same_suffix(before, *self, kp + 1);
            before.lemma_at(kp + 1);
            self.lemma_at(kp + 1);
            before.lemma_pre_step(kp);
            self.lemma_pre_step(kp);
            let a = (before.pre(kp).len() + before.children@[kp].inorder().len()) as int;
            assert(before.inorder()[a] == (*key, entry.value));
            assert(self.inorder() =~= before.inorder().remove(a));
            assert(c2.wf_node(t, false));
            lemma_replace_child_wf(before, *self, kp + 1, t, true);
        }
        Some(entry.value)
    }

    /// Removes the entry at `key_pos`, which holds `key`, from this internal node: it is
    /// replaced by its predecessor or successor taken out of a child with entries to spare,
    /// or else the two children around it are merged and the removal goes on in the merge.
    /// Entries and children keep their number after a replacement, and lose one each after a merge.
    fn remove_from_non_leaf(&mut self, min_childs: usize, key: &i64, key_pos: usize) -> (r: Option<V>)
        requires
            min_childs >= 2,
            old(self).wf_node(min_childs as nat, true),
            sorted_keys(old(self).inorder()),
            old(self).children@.len() > 0,
            key_pos < old(self).elements@.len(),
            old(self).elements@[key_pos as int].key == *key,
        ensures
            final(self).wf_node(min_childs as nat, true),
            final(self).height() == old(self).height(),
            remove_result(old(self).inorder(), final(self).inorder(), *key, r),
            ({
                let spare = old(self).children@[key_pos as int].elements@.len() >= min_childs
                    || old(self).children@[key_pos + 1].elements@.len() >= min_childs;
                &&& spare ==> final(self).elements@.len() == old(self).elements@.len()
                    && final(self).children@.len() == old(self).children@.len()
                &&& !spare ==> final(self).elements@.len() + 1 == old(self).elements@.len()
                    && final(self).children@.len() + 1 == old(self).children@.len()
            }),
        decreases old(self).height(), 1int,
    {
        let ghost t = min_childs as nat;
        let ghost before = *self;
        let ghost kp = key_pos as int;
        proof {
            lemma_elements_sorted(before);
            assert(before.children@[kp].wf_node(t, false));
            assert(before.children@[kp + 1].wf_node(t, false));
            assert(key_pos + 1 < self.children.len());
        }
        let min_keys = min_childs - 1;
        if self.children[key_pos].elements.len() > min_keys {
            self.replace_with_predecessor(min_childs, key, key_pos)
        } else if self.children[key_pos + 1].elements.len() > min_keys {
            self.replace_with_successor(min_childs, key, key_pos)
        } else {
            self.merge_children(Ghost(t), key_pos);
            let ghost mid = *self;
            proof {
                lemma_child_sorted(mid, kp);
                assert(mid.children@[kp].wf_node(t, false));
            }
            let r = self.children[key_pos].remove(min_childs, key);
            proof {
                assert(self.children@ == mid.children@.update(kp, self.children@[kp]));
                if kp < mid.elements@.len() {
                    assert(mid.elements@[kp] == before.elements@[kp + 1]);
                }
                lemma_lift(mid, *self, kp, *key);
                lemma_replace_child_wf(mid, *self, kp, t, true);
            }
            r
        }
    }

    /// Removes `key` from this subtree and hands back its value, or `None` where it is
    /// absent. A child with only `t-1` entries is topped up before the removal enters it.
    pub(crate) fn remove(&mut self, min_childs: usize, key: &i64) -> (r: Option<V>)
        requires
            min_childs >= 2,
            old(self).wf_node(min_childs as nat, true),
            sorted_keys(old(self).inorder()),
            old(self).children@.len() > 0 ==> old(self).elements@.len() >= 1,
        ensures
            final(self).wf_node(min_childs as nat, true),
            final(self).height() == old(self).height(),
            final(self).elements@.len() + 1 >= old(self).elements@.len(),
            remove_result(old(self).inorder(), final(self).inorder(), *key, r),
        decreases old(self).height(), 2int,
    {
        let ghost t = min_childs as nat;
        let ghost before = *self;
        proof {
            lemma_elements_sorted(before);
        }
        let key_pos = self.find_pos(key);
        if key_pos.1 {
            if self.is_leaf() {
                let removed = self.elements.remove(key_pos.0);
                proof {
                    assert(before.inorder()[key_pos.0 as int] == removed.pair());
                    assert(self.inorder() =~= before.inorder().remove(key_pos.0 as int));
                }
                Some(removed.value)
            } else {
                self.remove_from_non_leaf(min_childs, key, key_pos.0)
            }
        } else {
            if self.is_leaf() {
                proof {
                    if has_key(before.inorder(), *key) {
                        let j = choose|j: int| 0 <= j < before.inorder().len() && before.inorder()[j].0 == *key;
                        assert(before.inorder()[j] == before.elements@[j].pair());
                        if j > key_pos.0 {
                            assert(before.elements@[j].key > before.elements@[key_pos.0 as int].key);
                        }
                    }
                }
                return None;
            }
            let mut pos = key_pos.0;
            if self.children[pos].elements.len() < min_childs {
                proof {
                    assert(before.children@[pos as int].wf_node(t, false));
                }
                pos = self.fill_child(min_childs, pos);
            }
            let ghost mid = *self;
            proof {
                lemma_elements_sorted(mid);
                if pos > 0 {
                    assert(mid.elements@[pos - 1].key < *key);
                }
                assert forall|j: int| 0 <= j < pos implies mid.elements@[j].key < *key by {
                    if j < pos - 1 {
                        assert(mid.elements@[j].key < mid.elements@[pos - 1].key);
                    }
                }
                mid.lemma_descend(pos as int, *key);
                assert(mid.children@[pos as int].wf_node(t, false));
            }
            let r = self.children[pos].remove(min_childs, key);
            proof {
                assert(self.children@ == mid.children@.update(pos as int, self.children@[pos as int]));
                lemma_lift(mid, *self, pos as int, *key);
                lemma_replace_child_wf(mid, *self, pos as int, t, true);
            }
            r
        }
    }
}

} // verus!
