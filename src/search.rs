use vstd::prelude::*;

use crate::node::Node;
use crate::seqmap::{has_key, sorted_keys};

verus! {

impl<V> Node<V> {
    /// The value stored under `key` in this subtree, if any.
    pub fn search_tree(&self, key: &i64) -> (r: Option<&V>)
        requires
            self.well_shaped(),
            sorted_keys(self.inorder()),
        ensures
            match r {
                Some(v) => exists|j: int| 0 <= j < self.inorder().len() && self.inorder()[j] == (*key, *v),
                None => !has_key(self.inorder(), *key),
            },
        decreases self,
    {
        let pos = self.find_pos(key);
        if pos.1 {
            proof {
                if self.children@.len() == 0 {
                    assert(self.inorder()[pos.0 as int] == self.elements@[pos.0 as int].pair());
                } else {
                    self.lemma_at(pos.0 as int);
                    let j = self.pre(pos.0 as int).len() + self.children@[pos.0 as int].inorder().len();
                    assert(self.inorder()[j as int] == self.elements@[pos.0 as int].pair());
                }
            }
            return Some(&self.elements[pos.0].value);
        }
        if self.is_leaf() {
            proof {
                if has_key(self.inorder(), *key) {
                    let j = choose|j: int| 0 <= j < self.inorder().len() && self.inorder()[j].0 == *key;
                    assert(self.elements@[j].key == *key);
                    crate::node::lemma_elements_sorted(*self);
                    if j < pos.0 {
                    } else {
                        assert(self.elements@[j].key >= self.elements@[pos.0 as int].key);
                    }
                }
            }
            return None;
        }
        proof {
            self.lemma_descend(pos.0 as int, *key);
            assert(self.children@[pos.0 as int].well_shaped());
        }
        let r = self.children[pos.0].search_tree(key);
        proof {
            let a = self.pre(pos.0 as int).len() as int;
            if let Some(v) = r {
                let c = self.children@[pos.0 as int].inorder();
                let j = choose|j: int| 0 <= j < c.len() && c[j] == (*key, *v);
                assert(self.inorder()[a + j] == c[j]);
            }
        }
        r
    }
}

/// The keys of a walk.
pub open spec fn keys_of<V>(s: Seq<(i64, V)>) -> Seq<i64> {
    s.map_values(|p: (i64, V)| p.0)
}

impl<V> Node<V> {
    /// Appends the keys of this subtree to `out`, in ascending order.
    pub fn collect_keys(&self, out: &mut Vec<i64>)
        requires
            self.well_shaped(),
        ensures
            final(out)@ == old(out)@ + keys_of(self.inorder()),
        decreases self,
    {
        if self.is_leaf() {
            let mut i: usize = 0;
            while i < self.elements.len()
                invariant
                    i <= self.elements@.len(),
                    self.children@.len() == 0,
                    out@ == old(out)@ + keys_of(self.inorder().subrange(0, i as int)),
                decreases self.elements@.len() - i,
            {
                out.push(self.elements[i].key);
                proof {
                    assert(keys_of(self.inorder().subrange(0, i + 1)) =~= keys_of(self.inorder().subrange(0, i as int)).push(self.elements@[i as int].key));
                }
                i += 1;
            }
            proof {
                assert(self.inorder().subrange(0, i as int) =~= self.inorder());
            }
        } else {
            let mut i: usize = 0;
            proof {
                assert(self.pre(0) =~= Seq::<(i64, V)>::empty()) by {
                    assert(self.blocks().subrange(0, 0) =~= Seq::<Seq<(i64, V)>>::empty());
                }
                assert(keys_of(self.pre(0)) =~= Seq::<i64>::empty());
                assert(old(out)@ + keys_of(self.pre(0)) =~= old(out)@);
            }
            while i < self.elements.len()
                invariant
                    self.well_shaped(),
                    self.children@.len() == self.elements@.len() + 1,
                    i <= self.elements@.len(),
                    out@ == old(out)@ + keys_of(self.pre(i as int)),
                decreases self.elements@.len() - i,
            {
                let ghost before = out@;
                proof {
                    assert(self.children@[i as int].well_shaped());
                }
                self.children[i].collect_keys(out);
                out.push(self.elements[i].key);
                proof {
                    self.lemma_pre_step(i as int);
                    let c = self.children@[i as int].inorder();
                    assert(keys_of(self.pre(i + 1)) =~= keys_of(self.pre(i as int)) + keys_of(c) + seq![self.elements@[i as int].key]);
                    assert(out@ =~= old(out)@ + keys_of(self.pre(i + 1)));
                }
                i += 1;
            }
            proof {
                assert(self.children@[i as int].well_shaped());
            }
            self.children[i].collect_keys(out);
            proof {
                crate::node::lemma_last_child(*self);
                assert(keys_of(self.inorder()) =~= keys_of(self.pre(i as int)) + keys_of(self.children@[i as int].inorder()));
                assert(out@ =~= old(out)@ + keys_of(self.inorder()));
            }
        }
    }
}

} // verus!
