use vstd::prelude::*;
use vstd::seq_lib::lemma_flatten_concat;

use crate::seqmap::{has_key, insert_result, lemma_lift_insert, lemma_lift_remove, remove_result, sorted_keys};

verus! {

/// One entry of the map.
pub struct KeyValuePair<V> {
    pub key: i64,
    pub value: V,
}

impl<V> KeyValuePair<V> {
    pub open spec fn pair(self) -> (i64, V) {
        (self.key, self.value)
    }

    pub fn new(key: i64, value: V) -> (r: Self)
        ensures
            r.key == key,
            r.value == value,
    {
        Self { key, value }
    }
}

/// A node of the tree: entries in ascending key order and, unless it is a leaf,
/// one more child than it has entries.
pub struct Node<V> {
    pub elements: Vec<KeyValuePair<V>>,
    pub children: Vec<Node<V>>,
}

/// The entry that follows child `j` in the in-order walk (none after the last child).
pub open spec fn sep_of<V>(es: Seq<KeyValuePair<V>>, j: int) -> Seq<(i64, V)> {
    if 0 <= j < es.len() {
        seq![es[j].pair()]
    } else {
        Seq::empty()
    }
}

/// The in-order walk cut into one block per child: the child's entries, then the entry after it.
pub open spec fn blocks_of<V>(es: Seq<KeyValuePair<V>>, cs: Seq<Node<V>>) -> Seq<Seq<(i64, V)>>
    decreases cs,
{
    Seq::new(
        cs.len(),
        |j: int|
            if 0 <= j < cs.len() {
                cs[j].inorder() + sep_of(es, j)
            } else {
                Seq::empty()
            },
    )
}

/// The in-order walk of a node with entries `es` and children `cs`.
pub open spec fn inorder_of<V>(es: Seq<KeyValuePair<V>>, cs: Seq<Node<V>>) -> Seq<(i64, V)> {
    if cs.len() == 0 {
        es.map_values(|e: KeyValuePair<V>| e.pair())
    } else {
        blocks_of(es, cs).flatten()
    }
}

impl<V> Node<V> {
    /// The in-order walk of the subtree: every key-value pair it holds, in tree order.
    pub open spec fn inorder(self) -> Seq<(i64, V)>
        decreases self,
    {
        if self.children@.len() == 0 {
            self.elements@.map_values(|e: KeyValuePair<V>| e.pair())
        } else {
            blocks_of(self.elements@, self.children@).flatten()
        }
    }

    /// Distance from this node down to its leaves, along the first children.
    pub open spec fn height(self) -> nat
        decreases self,
    {
        if self.children@.len() == 0 {
            0
        } else {
            1 + self.children@[0].height()
        }
    }

    /// A leaf, or one more child than entries.
    pub open spec fn shape(self) -> bool {
        self.children@.len() == 0 || self.children@.len() == self.elements@.len() + 1
    }

    /// The structure of a B-tree of minimum degree `t`: at most `2t-1` entries per node,
    /// at least `t-1` below the root, one more child than entries in internal nodes,
    /// and every child one level lower than its parent (so all leaves lie at one depth).
    pub open spec fn wf_node(self, t: nat, is_root: bool) -> bool
        decreases self,
    {
        &&& self.elements@.len() + 1 <= 2 * t
        &&& (!is_root ==> self.elements@.len() + 1 >= t)
        &&& self.shape()
        &&& forall|i: int|
            #![trigger self.children@[i]]
            0 <= i < self.children@.len() ==> self.children@[i].wf_node(t, false)
                && self.children@[i].height() + 1 == self.height()
    }

    /// The node reached by following the child indices of `path` from this node, if any.
    pub open spec fn descend(self, path: Seq<int>) -> Option<Node<V>>
        decreases path.len(),
    {
        if path.len() == 0 {
            Some(self)
        } else if 0 <= path[0] < self.children@.len() {
            self.children@[path[0]].descend(path.drop_first())
        } else {
            None
        }
    }

    /// Every node reached from a well-formed node is well formed (below the start, with the
    /// bounds of a non-root node), and a leaf is reached exactly by the paths of the node's height.
    pub proof fn lemma_descend_wf(self, t: nat, is_root: bool, path: Seq<int>)
        requires
            self.wf_node(t, is_root),
            self.descend(path) is Some,
        ensures
            self.descend(path)->0.wf_node(t, is_root && path.len() == 0),
            self.descend(path)->0.height() + path.len() == self.height(),
            self.descend(path)->0.children@.len() == 0 <==> path.len() == self.height(),
        decreases path.len(),
    {
        if path.len() > 0 {
            let c = self.children@[path[0]];
            assert(c.wf_node(t, false));
            c.lemma_descend_wf(t, false, path.drop_first());
        }
        let x = self.descend(path)->0;
        if x.children@.len() > 0 {
            assert(x.height() > 0);
        }
    }

    /// Every node of the subtree is a leaf or has one more child than entries.
    pub open spec fn well_shaped(self) -> bool
        decreases self,
    {
        &&& self.shape()
        &&& forall|i: int| #![trigger self.children@[i]] 0 <= i < self.children@.len() ==> self.children@[i].well_shaped()
    }

    pub proof fn lemma_well_shaped(self, t: nat, is_root: bool)
        requires
            self.wf_node(t, is_root),
        ensures
            self.well_shaped(),
        decreases self,
    {
        assert forall|i: int| 0 <= i < self.children@.len() implies (#[trigger] self.children@[i]).well_shaped() by {
            assert(self.children@[i].wf_node(t, false));
            self.children@[i].lemma_well_shaped(t, false);
        }
    }

    /// Where `key` falls between the entries around child `i`, the walk splits into a part
    /// below `key`, the child's walk, and a part above `key`.
    pub proof fn lemma_descend(self, i: int, key: i64)
        requires
            self.children@.len() > 0,
            self.shape(),
            sorted_keys(self.inorder()),
            0 <= i <= self.elements@.len(),
            forall|j: int| 0 <= j < i ==> self.elements@[j].key < key,
            i < self.elements@.len() ==> self.elements@[i].key > key,
        ensures
            self.inorder() == self.pre(i) + self.children@[i].inorder() + sep_of(self.elements@, i) + self.post(i),
            sorted_keys(self.children@[i].inorder()),
            forall|j: int| 0 <= j < self.pre(i).len() ==> self.inorder()[j].0 < key,
            forall|j: int|
                self.pre(i).len() + self.children@[i].inorder().len() <= j < self.inorder().len()
                    ==> self.inorder()[j].0 > key,
            has_key(self.inorder(), key) == has_key(self.children@[i].inorder(), key),
    {
        let s = self.inorder();
        let c = self.children@[i].inorder();
        self.lemma_at(i);
        let a = self.pre(i).len() as int;
        assert forall|x: int, y: int| 0 <= x < y < c.len() implies c[x].0 < c[y].0 by {
            assert(s[a + x] == c[x]);
            assert(s[a + y] == c[y]);
        }
        if i > 0 {
            self.lemma_pre_step(i - 1);
            assert(s[a - 1] == self.elements@[i - 1].pair());
        }
        if i < self.elements@.len() {
            assert(s[a + c.len()] == self.elements@[i].pair());
        }
        if has_key(s, key) {
            let j = choose|j: int| 0 <= j < s.len() && s[j].0 == key;
            assert(c[j - a].0 == key);
        }
        if has_key(c, key) {
            let j = choose|j: int| 0 <= j < c.len() && c[j].0 == key;
            assert(s[a + j].0 == key);
        }
    }

    /// Where entry `i` of this node stands in its in-order walk.
    pub open spec fn entry_index(self, i: int) -> int {
        if self.children@.len() == 0 {
            i
        } else {
            (self.pre(i).len() + self.children@[i].inorder().len()) as int
        }
    }

    pub proof fn lemma_entry_index(self, i: int)
        requires
            self.shape(),
            0 <= i < self.elements@.len(),
        ensures
            0 <= self.entry_index(i) < self.inorder().len(),
            self.inorder()[self.entry_index(i)] == self.elements@[i].pair(),
    {
        if self.children@.len() != 0 {
            self.lemma_at(i);
        }
    }

    pub open spec fn blocks(self) -> Seq<Seq<(i64, V)>> {
        blocks_of(self.elements@, self.children@)
    }

    /// The in-order walk before child `i`.
    pub open spec fn pre(self, i: int) -> Seq<(i64, V)> {
        self.blocks().subrange(0, i).flatten()
    }

    /// The in-order walk after child `i` and the entry that follows it.
    pub open spec fn post(self, i: int) -> Seq<(i64, V)> {
        self.blocks().subrange(i + 1, self.blocks().len() as int).flatten()
    }

    pub proof fn lemma_inorder_of(self)
        ensures
            self.inorder() == inorder_of(self.elements@, self.children@),
    {
        if self.children@.len() == 0 {
            assert(self.inorder() =~= inorder_of(self.elements@, self.children@));
        }
    }

    /// The in-order walk around child `i`.
    pub proof fn lemma_at(self, i: int)
        requires
            self.children@.len() > 0,
            0 <= i < self.children@.len(),
        ensures
            self.inorder() == self.pre(i) + self.children@[i].inorder() + sep_of(self.elements@, i) + self.post(i),
    {
        self.lemma_inorder_of();
        let b = self.blocks();
        let x = b.subrange(0, i);
        let y = b.subrange(i + 1, b.len() as int);
        assert(b =~= x + seq![b[i]] + y);
        lemma_flatten_concat(x + seq![b[i]], y);
        lemma_flatten_concat(x, seq![b[i]]);
        seq![b[i]].lemma_flatten_singleton();
        assert(b[i] == self.children@[i].inorder() + sep_of(self.elements@, i));
    }

    pub proof fn lemma_pre_step(self, i: int)
        requires
            0 <= i < self.children@.len(),
        ensures
            self.pre(i + 1) == self.pre(i) + self.children@[i].inorder() + sep_of(self.elements@, i),
    {
        let b = self.blocks();
        assert(b.subrange(0, i + 1) =~= b.subrange(0, i).push(b[i]));
        b.subrange(0, i).lemma_flatten_push(b[i]);
    }

    pub fn new() -> (r: Self)
        ensures
            r.elements@.len() == 0,
            r.children@.len() == 0,
    {
        Self { elements: Vec::new(), children: Vec::new() }
    }

    /// The first index whose key is not below `key`, and whether that key equals `key`.
    pub fn find_pos(&self, key: &i64) -> (r: (usize, bool))
        ensures
            r.0 <= self.elements@.len(),
            forall|j: int| 0 <= j < r.0 ==> self.elements@[j].key < *key,
            r.1 <==> (r.0 < self.elements@.len() && self.elements@[r.0 as int].key == *key),
            r.0 < self.elements@.len() ==> self.elements@[r.0 as int].key >= *key,
    {
        let mut index: usize = 0;
        while index < self.elements.len()
            invariant
                index <= self.elements@.len(),
                forall|j: int| 0 <= j < index ==> self.elements@[j].key < *key,
            decreases self.elements@.len() - index,
        {
            let node_key = self.elements[index].key;
            if *key < node_key {
                return (index, false);
            }
            if *key == node_key {
                return (index, true);
            }
            index += 1;
        }
        (self.elements.len(), false)
    }

    pub fn is_leaf(&self) -> (r: bool)
        ensures
            r == (self.children@.len() == 0),
    {
        self.children.is_empty()
    }

    /// Whether the node holds `2t-1` entries or more.
    pub fn is_full(&self, min_childs: usize) -> (r: bool)
        requires
            min_childs >= 1,
        ensures
            r == (self.elements@.len() + 1 >= 2 * min_childs),
    {
        self.elements.len() >= min_childs && self.elements.len() - min_childs >= min_childs - 1
    }
}

/// The in-order walk of entries `le`, `m`, `re` over children `lc`, `rc` is the walk of
/// the left part, then `m`, then the walk of the right part.
pub proof fn lemma_concat<V>(
    le: Seq<KeyValuePair<V>>,
    m: KeyValuePair<V>,
    re: Seq<KeyValuePair<V>>,
    lc: Seq<Node<V>>,
    rc: Seq<Node<V>>,
)
    requires
        (lc.len() == 0 && rc.len() == 0) || (lc.len() == le.len() + 1 && rc.len() == re.len() + 1),
    ensures
        inorder_of(le + seq![m] + re, lc + rc) == inorder_of(le, lc) + seq![m.pair()] + inorder_of(re, rc),
{
    let es = le + seq![m] + re;
    if lc.len() == 0 {
        assert(inorder_of(es, lc + rc) =~= inorder_of(le, lc) + seq![m.pair()] + inorder_of(re, rc));
    } else {
        let bl = blocks_of(le, lc);
        let br = blocks_of(re, rc);
        let k = lc.len() - 1;
        let last = lc[k].inorder();
        assert(bl =~= bl.drop_last().push(last));
        assert(blocks_of(es, lc + rc) =~= bl.drop_last().push(last + seq![m.pair()]) + br);
        lemma_flatten_concat(bl.drop_last().push(last + seq![m.pair()]), br);
        bl.drop_last().lemma_flatten_push(last + seq![m.pair()]);
        bl.drop_last().lemma_flatten_push(last);
        assert(inorder_of(es, lc + rc) =~= inorder_of(le, lc) + seq![m.pair()] + inorder_of(re, rc));
    }
}

/// A node with no entries and one child walks as that child.
pub proof fn lemma_single<V>(c: Node<V>)
    ensures
        inorder_of(Seq::<KeyValuePair<V>>::empty(), seq![c]) == c.inorder(),
{
    let b = blocks_of(Seq::<KeyValuePair<V>>::empty(), seq![c]);
    assert(b =~= seq![c.inorder()]);
    b.lemma_flatten_singleton();
    assert(c.inorder() + sep_of(Seq::<KeyValuePair<V>>::empty(), 0) =~= c.inorder());
}

/// In a node whose walk is sorted, entries hold ascending keys.
pub proof fn lemma_elements_sorted<V>(n: Node<V>)
    requires
        n.shape(),
        sorted_keys(n.inorder()),
    ensures
        forall|i: int, j: int| 0 <= i < j < n.elements@.len() ==> n.elements@[i].key < n.elements@[j].key,
{
    if n.children@.len() == 0 {
        assert forall|i: int, j: int| 0 <= i < j < n.elements@.len() implies n.elements@[i].key < n.elements@[j].key by {
            assert(n.inorder()[i] == n.elements@[i].pair());
            assert(n.inorder()[j] == n.elements@[j].pair());
        }
    } else {
        assert forall|i: int, j: int| 0 <= i < j < n.elements@.len() implies n.elements@[i].key < n.elements@[j].key by {
            n.lemma_at(i);
            n.lemma_at(j);
            n.lemma_pre_step(i);
            let b = n.blocks();
            assert(b.subrange(0, j) =~= b.subrange(0, i + 1) + b.subrange(i + 1, j));
            lemma_flatten_concat(b.subrange(0, i + 1), b.subrange(i + 1, j));
            let pi = (n.pre(i).len() + n.children@[i].inorder().len()) as int;
            let pj = (n.pre(j).len() + n.children@[j].inorder().len()) as int;
            assert(n.inorder()[pi] == n.elements@[i].pair());
            assert(n.inorder()[pj] == n.elements@[j].pair());
        }
    }
}

} // verus!

verus! {

/// Two nodes whose blocks agree everywhere but at child `i` agree before and after it.
pub proof fn lemma_same_outside<V>(n: Node<V>, n2: Node<V>, i: int)
    requires
        n.children@.len() == n2.children@.len(),
        0 <= i < n.children@.len(),
        forall|j: int| 0 <= j < n.children@.len() && j != i ==> n.blocks()[j] == n2.blocks()[j],
    ensures
        n.pre(i) == n2.pre(i),
        n.post(i) == n2.post(i),
{
    assert(n.blocks().subrange(0, i) =~= n2.blocks().subrange(0, i));
    assert(n.blocks().subrange(i + 1, n.blocks().len() as int) =~= n2.blocks().subrange(i + 1, n2.blocks().len() as int));
}

/// Setting the value of entry `i` sets the value at its place in the walk.
pub proof fn lemma_update_entry<V>(n: Node<V>, n2: Node<V>, i: int, value: V)
    requires
        n.shape(),
        0 <= i < n.elements@.len(),
        n2.children@ == n.children@,
        n2.elements@ == n.elements@.update(i, KeyValuePair { key: n.elements@[i].key, value }),
    ensures
        n2.inorder() == n.inorder().update(n.entry_index(i), (n.elements@[i].key, value)),
{
    n.lemma_entry_index(i);
    if n.children@.len() == 0 {
        assert(n2.inorder() =~= n.inorder().update(n.entry_index(i), (n.elements@[i].key, value)));
    } else {
        lemma_same_outside(n, n2, i);
        n.lemma_at(i);
        n2.lemma_at(i);
        assert(n2.inorder() =~= n.inorder().update(n.entry_index(i), (n.elements@[i].key, value)));
    }
}

/// Splitting child `i` into `l`, `m`, `r`, with `m` lifted into the parent, keeps the walk.
pub proof fn lemma_split_child<V>(n: Node<V>, n2: Node<V>, i: int, l: Node<V>, m: KeyValuePair<V>, r: Node<V>)
    requires
        n.children@.len() > 0,
        n.shape(),
        0 <= i < n.children@.len(),
        n.children@[i].inorder() == l.inorder() + seq![m.pair()] + r.inorder(),
        n2.elements@ == n.elements@.insert(i, m),
        n2.children@ == n.children@.update(i, l).insert(i + 1, r),
    ensures
        n2.inorder() == n.inorder(),
{
    n.lemma_at(i);
    n2.lemma_at(i);
    let b = n.blocks();
    let b2 = n2.blocks();
    assert(b2.subrange(0, i) =~= b.subrange(0, i));
    let rest = b.subrange(i + 1, b.len() as int);
    assert(b2[i + 1] == r.inorder() + sep_of(n.elements@, i));
    assert(b2.subrange(i + 1, b2.len() as int) =~= seq![b2[i + 1]] + rest);
    lemma_flatten_concat(seq![b2[i + 1]], rest);
    seq![b2[i + 1]].lemma_flatten_singleton();
    assert(n2.inorder() =~= n.inorder());
}

/// Two nodes with the same blocks but at `a` and `a + 1`, where those two blocks together
/// read the same, have the same walk.
pub proof fn lemma_window<V>(n: Node<V>, n2: Node<V>, a: int)
    requires
        n.children@.len() > 0,
        n.children@.len() == n2.children@.len(),
        0 <= a && a + 1 < n.children@.len(),
        forall|j: int| 0 <= j < n.children@.len() && j != a && j != a + 1 ==> n.blocks()[j] == n2.blocks()[j],
        n2.blocks()[a] + n2.blocks()[a + 1] == n.blocks()[a] + n.blocks()[a + 1],
    ensures
        n2.inorder() == n.inorder(),
{
    n.lemma_inorder_of();
    n2.lemma_inorder_of();
    let b = n.blocks();
    let b2 = n2.blocks();
    let x = b.subrange(0, a);
    let y = b.subrange(a + 2, b.len() as int);
    assert(b =~= x + seq![b[a], b[a + 1]] + y);
    assert(b2 =~= x + seq![b2[a], b2[a + 1]] + y);
    lemma_flatten_concat(x + seq![b[a], b[a + 1]], y);
    lemma_flatten_concat(x, seq![b[a], b[a + 1]]);
    lemma_flatten_concat(x + seq![b2[a], b2[a + 1]], y);
    lemma_flatten_concat(x, seq![b2[a], b2[a + 1]]);
    lemma_flatten_concat(seq![b[a]], seq![b[a + 1]]);
    lemma_flatten_concat(seq![b2[a]], seq![b2[a + 1]]);
    assert(seq![b[a], b[a + 1]] =~= seq![b[a]] + seq![b[a + 1]]);
    assert(seq![b2[a], b2[a + 1]] =~= seq![b2[a]] + seq![b2[a + 1]]);
    seq![b[a]].lemma_flatten_singleton();
    seq![b[a + 1]].lemma_flatten_singleton();
    seq![b2[a]].lemma_flatten_singleton();
    seq![b2[a + 1]].lemma_flatten_singleton();
}

} // verus!

verus! {

/// Replacing child `i` by a well-formed node of the same height keeps the node well formed.
pub proof fn lemma_replace_child_wf<V>(n: Node<V>, n2: Node<V>, i: int, t: nat, is_root: bool)
    requires
        n.wf_node(t, is_root),
        n.children@.len() > 0,
        0 <= i < n.children@.len(),
        n2.elements@.len() == n.elements@.len(),
        n2.children@.len() == n.children@.len(),
        forall|k: int| 0 <= k < n.children@.len() && k != i ==> n2.children@[k] == n.children@[k],
        n2.children@[i].wf_node(t, false),
        n2.children@[i].height() == n.children@[i].height(),
    ensures
        n2.wf_node(t, is_root),
        n2.height() == n.height(),
{
    assert(n.children@[0].wf_node(t, false));
    assert forall|k: int| 0 <= k < n2.children@.len() implies
        (#[trigger] n2.children@[k]).wf_node(t, false) && n2.children@[k].height() + 1 == n2.height() by {
        assert(n.children@[k].wf_node(t, false));
    }
}

/// A change to child `i`, where `key` falls, is the same change to the whole walk.
pub proof fn lemma_lift<V>(n: Node<V>, n2: Node<V>, i: int, key: i64)
    requires
        n.children@.len() > 0,
        n.shape(),
        sorted_keys(n.inorder()),
        0 <= i <= n.elements@.len(),
        forall|j: int| 0 <= j < i ==> n.elements@[j].key < key,
        i < n.elements@.len() ==> n.elements@[i].key > key,
        n2.elements@ == n.elements@,
        n2.children@ == n.children@.update(i, n2.children@[i]),
    ensures
        forall|value: V, r: Option<V>|
            insert_result(n.children@[i].inorder(), n2.children@[i].inorder(), key, value, r)
                ==> #[trigger] insert_result(n.inorder(), n2.inorder(), key, value, r),
        forall|r: Option<V>|
            remove_result(n.children@[i].inorder(), n2.children@[i].inorder(), key, r)
                ==> #[trigger] remove_result(n.inorder(), n2.inorder(), key, r),
{
    n.lemma_descend(i, key);
    lemma_same_outside(n, n2, i);
    n2.lemma_at(i);
    let a = n.pre(i);
    let b = sep_of(n.elements@, i) + n.post(i);
    assert(n.inorder() =~= a + n.children@[i].inorder() + b);
    assert(n2.inorder() =~= a + n2.children@[i].inorder() + b);
    let c = n.children@[i].inorder();
    assert forall|j: int| 0 <= j < a.len() implies a[j].0 < key by {
        assert(a[j] == n.inorder()[j]);
    }
    assert forall|j: int| 0 <= j < b.len() implies b[j].0 > key by {
        assert(b[j] == n.inorder()[a.len() + c.len() + j]);
    }
    lemma_lift_insert(a, n.children@[i].inorder(), n2.children@[i].inorder(), b, key);
    lemma_lift_remove(a, n.children@[i].inorder(), n2.children@[i].inorder(), b, key);
}

} // verus!

verus! {

/// Blocks that agree before child `i` give the same walk before it.
pub proof fn lemma_same_prefix<V>(n: Node<V>, n2: Node<V>, i: int)
    requires
        0 <= i <= n.children@.len(),
        i <= n2.children@.len(),
        forall|j: int| 0 <= j < i ==> n.blocks()[j] == n2.blocks()[j],
    ensures
        n.pre(i) == n2.pre(i),
{
    assert(n.blocks().subrange(0, i) =~= n2.blocks().subrange(0, i));
}

/// Blocks that agree after child `i` give the same walk after it.
pub proof fn lemma_same_suffix<V>(n: Node<V>, n2: Node<V>, i: int)
    requires
        0 <= i < n.children@.len(),
        n.children@.len() == n2.children@.len(),
        forall|j: int| i < j < n.children@.len() ==> n.blocks()[j] == n2.blocks()[j],
    ensures
        n.post(i) == n2.post(i),
{
    assert(n.blocks().subrange(i + 1, n.blocks().len() as int) =~= n2.blocks().subrange(i + 1, n2.blocks().len() as int));
}

/// The walk of each child of a sorted node is sorted.
pub proof fn lemma_child_sorted<V>(n: Node<V>, i: int)
    requires
        n.children@.len() > 0,
        0 <= i < n.children@.len(),
        sorted_keys(n.inorder()),
    ensures
        sorted_keys(n.children@[i].inorder()),
{
    n.lemma_at(i);
    let a = n.pre(i).len() as int;
    let c = n.children@[i].inorder();
    assert forall|x: int, y: int| 0 <= x < y < c.len() implies c[x].0 < c[y].0 by {
        assert(n.inorder()[a + x] == c[x]);
        assert(n.inorder()[a + y] == c[y]);
    }
}

/// A node below the root of a tree of degree two or more holds at least one entry.
pub proof fn lemma_nonempty<V>(n: Node<V>, t: nat)
    requires
        t >= 2,
        n.wf_node(t, false),
    ensures
        n.inorder().len() > 0,
{
    if n.children@.len() > 0 {
        n.lemma_at(0);
    } else {
        assert(n.inorder().len() == n.elements@.len());
    }
}

/// The walk of an internal node ends with the walk of its last child.
pub proof fn lemma_last_child<V>(n: Node<V>)
    requires
        n.children@.len() > 0,
        n.shape(),
    ensures
        n.inorder() == n.pre(n.elements@.len() as int) + n.children@[n.elements@.len() as int].inorder(),
{
    let k = n.elements@.len() as int;
    n.lemma_at(k);
    assert(n.blocks().subrange(k + 1, n.blocks().len() as int) =~= Seq::<Seq<(i64, V)>>::empty());
    assert(n.post(k) =~= Seq::<(i64, V)>::empty());
}

/// The walk of an internal node starts with the walk of its first child.
pub proof fn lemma_first_child<V>(n: Node<V>)
    requires
        n.children@.len() > 0,
    ensures
        n.inorder() == n.children@[0].inorder() + sep_of(n.elements@, 0) + n.post(0),
{
    n.lemma_at(0);
    assert(n.blocks().subrange(0, 0) =~= Seq::<Seq<(i64, V)>>::empty());
    assert(n.pre(0) =~= Seq::<(i64, V)>::empty());
}

} // verus!

verus! {

/// Replacing two adjacent children by well-formed nodes of the same heights keeps the
/// node well formed.
pub proof fn lemma_replace_two_wf<V>(n: Node<V>, n2: Node<V>, a: int, t: nat, is_root: bool)
    requires
        n.wf_node(t, is_root),
        n.children@.len() > 0,
        0 <= a && a + 1 < n.children@.len(),
        n2.elements@.len() == n.elements@.len(),
        n2.children@.len() == n.children@.len(),
        forall|k: int| 0 <= k < n.children@.len() && k != a && k != a + 1 ==> n2.children@[k] == n.children@[k],
        n2.children@[a].wf_node(t, false),
        n2.children@[a + 1].wf_node(t, false),
        n2.children@[a].height() == n.children@[a].height(),
        n2.children@[a + 1].height() == n.children@[a + 1].height(),
    ensures
        n2.wf_node(t, is_root),
        n2.height() == n.height(),
{
    assert(n.children@[0].wf_node(t, false));
    assert forall|k: int| 0 <= k < n2.children@.len() implies
        (#[trigger] n2.children@[k]).wf_node(t, false) && n2.children@[k].height() + 1 == n2.height() by {
        assert(n.children@[k].wf_node(t, false));
    }
}

/// A node that loses its last entry `up` (and last children `moved`) and a node that
/// gains `down` (and `moved`) in front.
pub proof fn lemma_rotate_right<V>(
    s: Node<V>,
    s2: Node<V>,
    tt: Node<V>,
    t2: Node<V>,
    moved: Seq<Node<V>>,
    up: KeyValuePair<V>,
    down: KeyValuePair<V>,
    t: nat,
)
    requires
        t >= 2,
        s.wf_node(t, false),
        tt.wf_node(t, false),
        s.height() == tt.height(),
        s.elements@.len() >= t,
        tt.elements@.len() + 1 == t,
        s.elements@ == s2.elements@.push(up),
        s.children@ == s2.children@ + moved,
        t2.elements@ == seq![down] + tt.elements@,
        t2.children@ == moved + tt.children@,
        moved.len() == (if s.children@.len() == 0 { 0int } else { 1int }),
    ensures
        s.inorder() == s2.inorder() + seq![up.pair()] + inorder_of(Seq::<KeyValuePair<V>>::empty(), moved),
        t2.inorder() == inorder_of(Seq::<KeyValuePair<V>>::empty(), moved) + seq![down.pair()] + tt.inorder(),
        s2.wf_node(t, false),
        t2.wf_node(t, false),
        s2.height() == s.height(),
        t2.height() == tt.height(),
{
    let empty_e = Seq::<KeyValuePair<V>>::empty();
    if s.children@.len() > 0 {
        assert(s.height() > 0);
    }
    if tt.children@.len() > 0 {
        assert(tt.height() > 0);
    }
    assert(s.elements@ =~= s2.elements@ + seq![up] + empty_e);
    assert(t2.elements@ =~= empty_e + seq![down] + tt.elements@);
    lemma_concat(s2.elements@, up, empty_e, s2.children@, moved);
    lemma_concat(empty_e, down, tt.elements@, moved, tt.children@);
    s.lemma_inorder_of();
    s2.lemma_inorder_of();
    tt.lemma_inorder_of();
    t2.lemma_inorder_of();
    if s.children@.len() > 0 {
        assert(s.children@[0].wf_node(t, false));
        assert(s2.children@[0] == s.children@[0]);
        assert(t2.children@[0] == moved[0]);
        assert(moved[0] == s.children@[s.children@.len() - 1]);
        assert(s.children@[s.children@.len() - 1].wf_node(t, false));
        assert(tt.children@[0].wf_node(t, false));
        assert forall|k: int| 0 <= k < s2.children@.len() implies
            (#[trigger] s2.children@[k]).wf_node(t, false) && s2.children@[k].height() + 1 == s2.height() by {
            assert(s2.children@[k] == s.children@[k]);
            assert(s.children@[k].wf_node(t, false));
        }
        assert forall|k: int| 0 <= k < t2.children@.len() implies
            (#[trigger] t2.children@[k]).wf_node(t, false) && t2.children@[k].height() + 1 == t2.height() by {
            if k > 0 {
                assert(t2.children@[k] == tt.children@[k - 1]);
                assert(tt.children@[k - 1].wf_node(t, false));
            }
        }
    }
}

/// The mirror of `lemma_rotate_right`: a node that loses its first entry `up` (and first
/// children `moved`) and a node that gains `down` (and `moved`) at its end.
pub proof fn lemma_rotate_left<V>(
    r: Node<V>,
    r2: Node<V>,
    tt: Node<V>,
    t2: Node<V>,
    moved: Seq<Node<V>>,
    up: KeyValuePair<V>,
    down: KeyValuePair<V>,
    t: nat,
)
    requires
        t >= 2,
        r.wf_node(t, false),
        tt.wf_node(t, false),
        r.height() == tt.height(),
        r.elements@.len() >= t,
        tt.elements@.len() + 1 == t,
        r.elements@ == seq![up] + r2.elements@,
        r.children@ == moved + r2.children@,
        t2.elements@ == tt.elements@.push(down),
        t2.children@ == tt.children@ + moved,
        moved.len() == (if r.children@.len() == 0 { 0int } else { 1int }),
    ensures
        r.inorder() == inorder_of(Seq::<KeyValuePair<V>>::empty(), moved) + seq![up.pair()] + r2.inorder(),
        t2.inorder() == tt.inorder() + seq![down.pair()] + inorder_of(Seq::<KeyValuePair<V>>::empty(), moved),
        r2.wf_node(t, false),
        t2.wf_node(t, false),
        r2.height() == r.height(),
        t2.height() == tt.height(),
{
    let empty_e = Seq::<KeyValuePair<V>>::empty();
    if r.children@.len() > 0 {
        assert(r.height() > 0);
    }
    if tt.children@.len() > 0 {
        assert(tt.height() > 0);
    }
    assert(r.elements@ =~= empty_e + seq![up] + r2.elements@);
    assert(t2.elements@ =~= tt.elements@ + seq![down] + empty_e);
    lemma_concat(empty_e, up, r2.elements@, moved, r2.children@);
    lemma_concat(tt.elements@, down, empty_e, tt.children@, moved);
    r.lemma_inorder_of();
    r2.lemma_inorder_of();
    tt.lemma_inorder_of();
    t2.lemma_inorder_of();
    if r.children@.len() > 0 {
        assert(r.children@[0].wf_node(t, false));
        assert(r.children@[1].wf_node(t, false));
        assert(r2.children@[0] == r.children@[1]);
        assert(tt.children@[0].wf_node(t, false));
        assert(t2.children@[0] == tt.children@[0]);
        assert forall|k: int| 0 <= k < r2.children@.len() implies
            (#[trigger] r2.children@[k]).wf_node(t, false) && r2.children@[k].height() + 1 == r2.height() by {
            assert(r2.children@[k] == r.children@[k + 1]);
            assert(r.children@[k + 1].wf_node(t, false));
        }
        assert forall|k: int| 0 <= k < t2.children@.len() implies
            (#[trigger] t2.children@[k]).wf_node(t, false) && t2.children@[k].height() + 1 == t2.height() by {
            if k < tt.children@.len() {
                assert(t2.children@[k] == tt.children@[k]);
                assert(tt.children@[k].wf_node(t, false));
            }
        }
    }
}

} // verus!

verus! {

/// `n2` is `n` after merging child `i + 1` and entry `i` into child `i`: the merged child
/// holds the left child's entries, the separating entry, then the right child's entries,
/// and the children of both; the other children keep their order.
pub open spec fn merged<V>(n: Node<V>, n2: Node<V>, i: int) -> bool {
    let l = n.children@[i];
    let r = n.children@[i + 1];
    let m = n2.children@[i];
    &&& n2.elements@ == n.elements@.remove(i)
    &&& n2.children@.len() + 1 == n.children@.len()
    &&& m.elements@ == l.elements@ + seq![n.elements@[i]] + r.elements@
    &&& m.children@ == l.children@ + r.children@
    &&& forall|k: int| 0 <= k < i ==> n2.children@[k] == n.children@[k]
    &&& forall|k: int| i < k < n2.children@.len() ==> n2.children@[k] == n.children@[k + 1]
}

/// `n2` is `n` after a rotation from child `pos - 1` into child `pos`: the left sibling's
/// last entry replaces entry `pos - 1`, which becomes the first entry of child `pos`, and
/// (between internal nodes) the sibling's last child becomes the first child of child `pos`.
pub open spec fn rotated_from_left<V>(n: Node<V>, n2: Node<V>, pos: int) -> bool {
    let s = n.children@[pos - 1];
    let c = n.children@[pos];
    let s2 = n2.children@[pos - 1];
    let c2 = n2.children@[pos];
    &&& n2.elements@ == n.elements@.update(pos - 1, s.elements@.last())
    &&& s2.elements@ == s.elements@.drop_last()
    &&& c2.elements@ == seq![n.elements@[pos - 1]] + c.elements@
    &&& s.children@.len() == 0 ==> s2.children@ == s.children@ && c2.children@ == c.children@
    &&& s.children@.len() > 0 ==> s2.children@ == s.children@.drop_last() && c2.children@ == seq![s.children@.last()]
        + c.children@
    &&& n2.children@.len() == n.children@.len()
    &&& forall|k: int| 0 <= k < n.children@.len() && k != pos - 1 && k != pos ==> n2.children@[k] == n.children@[k]
}

/// `n2` is `n` after a rotation from child `pos + 1` into child `pos`: the right sibling's
/// first entry replaces entry `pos`, which becomes the last entry of child `pos`, and
/// (between internal nodes) the sibling's first child becomes the last child of child `pos`.
pub open spec fn rotated_from_right<V>(n: Node<V>, n2: Node<V>, pos: int) -> bool {
    let r = n.children@[pos + 1];
    let c = n.children@[pos];
    let r2 = n2.children@[pos + 1];
    let c2 = n2.children@[pos];
    &&& n2.elements@ == n.elements@.update(pos, r.elements@[0])
    &&& r2.elements@ == r.elements@.drop_first()
    &&& c2.elements@ == c.elements@.push(n.elements@[pos])
    &&& r.children@.len() == 0 ==> r2.children@ == r.children@ && c2.children@ == c.children@
    &&& r.children@.len() > 0 ==> r2.children@ == r.children@.drop_first() && c2.children@ == c.children@.push(
        r.children@[0],
    )
    &&& n2.children@.len() == n.children@.len()
    &&& forall|k: int| 0 <= k < n.children@.len() && k != pos && k != pos + 1 ==> n2.children@[k] == n.children@[k]
}

} // verus!
