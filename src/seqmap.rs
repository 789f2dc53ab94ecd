use vstd::prelude::*;

verus! {

/// Keys of `s` are strictly ascending (so no key occurs twice).
pub open spec fn sorted_keys<V>(s: Seq<(i64, V)>) -> bool {
    forall|i: int, j: int| 0 <= i < j < s.len() ==> s[i].0 < s[j].0
}

/// `key` belongs at index `p` of `s`: every key before is smaller, every key from there on larger.
pub open spec fn position<V>(s: Seq<(i64, V)>, p: int, key: i64) -> bool {
    &&& 0 <= p <= s.len()
    &&& forall|j: int| 0 <= j < p ==> s[j].0 < key
    &&& forall|j: int| p <= j < s.len() ==> s[j].0 > key
}

/// Whether `key` occurs in `s`.
pub open spec fn has_key<V>(s: Seq<(i64, V)>, key: i64) -> bool {
    exists|j: int| 0 <= j < s.len() && s[j].0 == key
}

/// The map that a sequence of key-value pairs denotes.
pub open spec fn to_map<V>(s: Seq<(i64, V)>) -> Map<i64, V> {
    Map::new(
        |k: i64| has_key(s, k),
        |k: i64| s[choose|j: int| 0 <= j < s.len() && s[j].0 == k].1,
    )
}

/// `s2` and the result `r` are what inserting `(key, value)` into `s` gives: the
/// value of an existing entry is replaced and handed back, or else the pair is
/// placed where its key belongs.
pub open spec fn insert_result<V>(s: Seq<(i64, V)>, s2: Seq<(i64, V)>, key: i64, value: V, r: Option<V>) -> bool {
    match r {
        Some(v) => exists|j: int| 0 <= j < s.len() && s[j] == (key, v) && s2 == s.update(j, (key, value)),
        None => exists|p: int| position(s, p, key) && s2 == s.insert(p, (key, value)),
    }
}

/// `s2` and the result `r` are what removing `key` from `s` gives.
pub open spec fn remove_result<V>(s: Seq<(i64, V)>, s2: Seq<(i64, V)>, key: i64, r: Option<V>) -> bool {
    match r {
        Some(v) => exists|j: int| 0 <= j < s.len() && s[j] == (key, v) && s2 == s.remove(j),
        None => !has_key(s, key) && s2 == s,
    }
}

pub proof fn lemma_map_at<V>(s: Seq<(i64, V)>, j: int)
    requires
        sorted_keys(s),
        0 <= j < s.len(),
    ensures
        to_map(s).contains_key(s[j].0),
        to_map(s)[s[j].0] == s[j].1,
{
    let k = s[j].0;
    assert(has_key(s, k));
    let c = choose|i: int| 0 <= i < s.len() && s[i].0 == k;
    assert(c == j);
}

pub proof fn lemma_insert_result<V>(s: Seq<(i64, V)>, s2: Seq<(i64, V)>, key: i64, value: V, r: Option<V>)
    requires
        sorted_keys(s),
        insert_result(s, s2, key, value, r),
    ensures
        sorted_keys(s2),
        to_map(s2) == to_map(s).insert(key, value),
        r == to_map(s).get(key),
{
    match r {
        Some(v) => {
            let j = choose|j: int| 0 <= j < s.len() && s[j] == (key, v) && s2 == s.update(j, (key, value));
            lemma_map_at(s, j);
            assert(sorted_keys(s2));
            assert forall|k: i64| #[trigger] to_map(s2).contains_key(k) == to_map(s).insert(key, value).contains_key(k) by {
                if has_key(s, k) {
                    let i = choose|i: int| 0 <= i < s.len() && s[i].0 == k;
                    assert(s2[i].0 == k);
                }
                if has_key(s2, k) {
                    let i = choose|i: int| 0 <= i < s2.len() && s2[i].0 == k;
                    assert(s[i].0 == k);
                }
            }
            assert forall|k: i64| to_map(s2).contains_key(k) implies #[trigger] to_map(s2)[k] == to_map(s).insert(key, value)[k] by {
                let i = choose|i: int| 0 <= i < s2.len() && s2[i].0 == k;
                lemma_map_at(s2, i);
                if k != key {
                    lemma_map_at(s, i);
                } else {
                    assert(i == j);
                }
            }
            assert(to_map(s2) =~= to_map(s).insert(key, value));
        },
        None => {
            let p = choose|p: int| position(s, p, key) && s2 == s.insert(p, (key, value));
            assert(sorted_keys(s2));
            assert(!has_key(s, key));
            assert forall|k: i64| #[trigger] to_map(s2).contains_key(k) == to_map(s).insert(key, value).contains_key(k) by {
                if has_key(s, k) {
                    let i = choose|i: int| 0 <= i < s.len() && s[i].0 == k;
                    if i < p {
                        assert(s2[i].0 == k);
                    } else {
                        assert(s2[i + 1].0 == k);
                    }
                }
                if k == key {
                    assert(s2[p].0 == k);
                }
                if has_key(s2, k) {
                    let i = choose|i: int| 0 <= i < s2.len() && s2[i].0 == k;
                    if i < p {
                        assert(s[i].0 == k);
                    } else if i > p {
                        assert(s[i - 1].0 == k);
                    }
                }
            }
            assert forall|k: i64| to_map(s2).contains_key(k) implies #[trigger] to_map(s2)[k] == to_map(s).insert(key, value)[k] by {
                let i = choose|i: int| 0 <= i < s2.len() && s2[i].0 == k;
                lemma_map_at(s2, i);
                if i < p {
                    lemma_map_at(s, i);
                } else if i > p {
                    lemma_map_at(s, i - 1);
                }
            }
            assert(to_map(s2) =~= to_map(s).insert(key, value));
        },
    }
}

pub proof fn lemma_remove_result<V>(s: Seq<(i64, V)>, s2: Seq<(i64, V)>, key: i64, r: Option<V>)
    requires
        sorted_keys(s),
        remove_result(s, s2, key, r),
    ensures
        sorted_keys(s2),
        to_map(s2) == to_map(s).remove(key),
        r == to_map(s).get(key),
{
    match r {
        Some(v) => {
            let j = choose|j: int| 0 <= j < s.len() && s[j] == (key, v) && s2 == s.remove(j);
            lemma_map_at(s, j);
            assert(sorted_keys(s2));
            assert forall|k: i64| #[trigger] to_map(s2).contains_key(k) == to_map(s).remove(key).contains_key(k) by {
                if has_key(s, k) && k != key {
                    let i = choose|i: int| 0 <= i < s.len() && s[i].0 == k;
                    if i < j {
                        assert(s2[i].0 == k);
                    } else {
                        assert(s2[i - 1].0 == k);
                    }
                }
                if has_key(s2, k) {
                    let i = choose|i: int| 0 <= i < s2.len() && s2[i].0 == k;
                    if i < j {
                        assert(s[i].0 == k);
                    } else {
                        assert(s[i + 1].0 == k);
                    }
                }
            }
            assert forall|k: i64| to_map(s2).contains_key(k) implies #[trigger] to_map(s2)[k] == to_map(s).remove(key)[k] by {
                let i = choose|i: int| 0 <= i < s2.len() && s2[i].0 == k;
                lemma_map_at(s2, i);
                if i < j {
                    lemma_map_at(s, i);
                } else {
                    lemma_map_at(s, i + 1);
                }
            }
            assert(to_map(s2) =~= to_map(s).remove(key));
        },
        None => {
            assert(to_map(s2) =~= to_map(s).remove(key));
        },
    }
}

/// An insert into the middle part `c0` of `a + c0 + b`, where `key` lies between
/// the parts, is an insert into the whole.
pub proof fn lemma_lift_insert<V>(a: Seq<(i64, V)>, c0: Seq<(i64, V)>, c1: Seq<(i64, V)>, b: Seq<(i64, V)>, key: i64)
    requires
        forall|j: int| 0 <= j < a.len() ==> a[j].0 < key,
        forall|j: int| 0 <= j < b.len() ==> b[j].0 > key,
    ensures
        forall|value: V, r: Option<V>|
            insert_result(c0, c1, key, value, r) ==> #[trigger] insert_result(a + c0 + b, a + c1 + b, key, value, r),
{
    let n = a.len() as int;
    assert forall|value: V, r: Option<V>|
        insert_result(c0, c1, key, value, r) implies #[trigger] insert_result(a + c0 + b, a + c1 + b, key, value, r) by {
        let s0 = a + c0 + b;
        match r {
            Some(v) => {
                let j = choose|j: int| 0 <= j < c0.len() && c0[j] == (key, v) && c1 == c0.update(j, (key, value));
                assert(s0[n + j] == (key, v));
                assert(a + c1 + b =~= s0.update(n + j, (key, value)));
            },
            None => {
                let p = choose|p: int| position(c0, p, key) && c1 == c0.insert(p, (key, value));
                assert(a + c1 + b =~= s0.insert(n + p, (key, value)));
                assert forall|j: int| n + p <= j < s0.len() implies s0[j].0 > key by {
                    if j < n + c0.len() {
                        assert(s0[j] == c0[j - n]);
                    } else {
                        assert(s0[j] == b[j - n - c0.len()]);
                    }
                }
                assert forall|j: int| 0 <= j < n + p implies s0[j].0 < key by {
                    if j >= n {
                        assert(s0[j] == c0[j - n]);
                    } else {
                        assert(s0[j] == a[j]);
                    }
                }
                assert(position(s0, n + p, key));
            },
        }
    }
}

/// A removal from the middle part `c0` of `a + c0 + b`, where `key` lies between
/// the parts, is a removal from the whole.
pub proof fn lemma_lift_remove<V>(a: Seq<(i64, V)>, c0: Seq<(i64, V)>, c1: Seq<(i64, V)>, b: Seq<(i64, V)>, key: i64)
    requires
        forall|j: int| 0 <= j < a.len() ==> a[j].0 < key,
        forall|j: int| 0 <= j < b.len() ==> b[j].0 > key,
    ensures
        forall|r: Option<V>|
            remove_result(c0, c1, key, r) ==> #[trigger] remove_result(a + c0 + b, a + c1 + b, key, r),
{
    let n = a.len() as int;
    assert forall|r: Option<V>|
        remove_result(c0, c1, key, r) implies #[trigger] remove_result(a + c0 + b, a + c1 + b, key, r) by {
        let s0 = a + c0 + b;
        match r {
            Some(v) => {
                let j = choose|j: int| 0 <= j < c0.len() && c0[j] == (key, v) && c1 == c0.remove(j);
                assert(s0[n + j] == (key, v));
                assert(a + c1 + b =~= s0.remove(n + j));
            },
            None => {
                if has_key(s0, key) {
                    let j = choose|j: int| 0 <= j < s0.len() && s0[j].0 == key;
                    if j < n {
                        assert(s0[j] == a[j]);
                    } else if j < n + c0.len() {
                        assert(s0[j] == c0[j - n]);
                    } else {
                        assert(s0[j] == b[j - n - c0.len()]);
                    }
                }
            },
        }
    }
}

} // verus!
