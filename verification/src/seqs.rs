//! Sequences used as sets (no element twice) and as association lists (no key
//! twice): the operations on them and the facts that the rest of the crate uses.

use vstd::prelude::*;

verus! {

/// `s` with `x` added at the end, unless `s` already holds it.
pub open spec fn set_insert<A>(s: Seq<A>, x: A) -> Seq<A> {
    if s.contains(x) {
        s
    } else {
        s.push(x)
    }
}

/// `s` without `x`: the one occurrence of `x` is taken out, the rest keeps its order.
pub open spec fn set_remove<A>(s: Seq<A>, x: A) -> Seq<A> {
    if s.contains(x) {
        s.remove(s.index_of(x))
    } else {
        s
    }
}

/// Each of `xs`, in order, added to `s` with [`set_insert`].
pub open spec fn set_insert_all<A>(s: Seq<A>, xs: Seq<A>) -> Seq<A>
    decreases xs.len(),
{
    if xs.len() == 0 {
        s
    } else {
        set_insert(set_insert_all(s, xs.drop_last()), xs.last())
    }
}

/// Each of `xs`, in order, taken out of `s` with [`set_remove`].
pub open spec fn set_remove_all<A>(s: Seq<A>, xs: Seq<A>) -> Seq<A>
    decreases xs.len(),
{
    if xs.len() == 0 {
        s
    } else {
        set_remove(set_remove_all(s, xs.drop_last()), xs.last())
    }
}

pub proof fn lemma_index_of_unique<A>(s: Seq<A>, i: int)
    requires
        s.no_duplicates(),
        0 <= i < s.len(),
    ensures
        s.contains(s[i]),
        s.index_of(s[i]) == i,
{
    assert(s.contains(s[i]));
    let j = s.index_of(s[i]);
    assert(0 <= j < s.len() && s[j] == s[i]);
}

pub proof fn lemma_set_insert<A>(s: Seq<A>, x: A)
    requires
        s.no_duplicates(),
    ensures
        set_insert(s, x).no_duplicates(),
        set_insert(s, x).to_set() == s.to_set().insert(x),
        set_insert(s, x).contains(x),
{
    if s.contains(x) {
        assert(s.to_set().insert(x) =~= s.to_set());
    } else {
        assert(s.push(x).to_set() =~= s.to_set().insert(x)) by {
            assert forall|y: A| s.push(x).contains(y) <==> s.contains(y) || y == x by {
                if s.push(x).contains(y) {
                    let k = choose|k: int| 0 <= k < s.push(x).len() && s.push(x)[k] == y;
                    if k < s.len() {
                        assert(s[k] == y);
                    }
                }
                if s.contains(y) {
                    let k = choose|k: int| 0 <= k < s.len() && s[k] == y;
                    assert(s.push(x)[k] == y);
                }
                if y == x {
                    assert(s.push(x)[s.len() as int] == y);
                }
            }
        }
        assert(s.push(x)[s.len() as int] == x);
    }
}

pub proof fn lemma_set_remove<A>(s: Seq<A>, x: A)
    requires
        s.no_duplicates(),
    ensures
        set_remove(s, x).no_duplicates(),
        set_remove(s, x).to_set() == s.to_set().remove(x),
        !set_remove(s, x).contains(x),
{
    if s.contains(x) {
        let i = s.index_of(x);
        let r = s.remove(i);
        assert(r.no_duplicates()) by {
            assert forall|a: int, b: int| 0 <= a < r.len() && 0 <= b < r.len() && a != b implies r[a]
                != r[b] by {
                let a2 = if a < i { a } else { a + 1 };
                let b2 = if b < i { b } else { b + 1 };
                assert(r[a] == s[a2] && r[b] == s[b2]);
            }
        }
        assert(r.to_set() =~= s.to_set().remove(x)) by {
            assert forall|y: A| r.contains(y) <==> s.contains(y) && y != x by {
                if r.contains(y) {
                    let k = choose|k: int| 0 <= k < r.len() && r[k] == y;
                    let k2 = if k < i { k } else { k + 1 };
                    assert(s[k2] == y);
                    assert(k2 != i);
                }
                if s.contains(y) && y != x {
                    let k = choose|k: int| 0 <= k < s.len() && s[k] == y;
                    assert(k != i);
                    let k2 = if k < i { k } else { k - 1 };
                    assert(r[k2] == y);
                }
            }
        }
    } else {
        assert(s.to_set().remove(x) =~= s.to_set());
    }
}

/// No key occurs twice in `s`.
pub open spec fn keys_unique<K, V>(s: Seq<(K, V)>) -> bool {
    forall|i: int, j: int| 0 <= i < s.len() && 0 <= j < s.len() && i != j ==> s[i].0 != s[j].0
}

/// Some entry of `s` has key `k`.
pub open spec fn has_key<K, V>(s: Seq<(K, V)>, k: K) -> bool {
    exists|i: int| 0 <= i < s.len() && s[i].0 == k
}

/// The position of the entry with key `k` (meaningful where [`has_key`] holds).
pub open spec fn key_pos<K, V>(s: Seq<(K, V)>, k: K) -> int {
    choose|i: int| 0 <= i < s.len() && s[i].0 == k
}

/// The value stored under `k`, if any.
pub open spec fn lookup<K, V>(s: Seq<(K, V)>, k: K) -> Option<V> {
    if has_key(s, k) {
        Some(s[key_pos(s, k)].1)
    } else {
        None
    }
}

/// `s` with `v` stored under `k`: in place where `k` is present, else at the end.
pub open spec fn upsert<K, V>(s: Seq<(K, V)>, k: K, v: V) -> Seq<(K, V)> {
    if has_key(s, k) {
        s.update(key_pos(s, k), (k, v))
    } else {
        s.push((k, v))
    }
}

/// `s` without the entry of key `k`; the others keep their order.
pub open spec fn remove_key<K, V>(s: Seq<(K, V)>, k: K) -> Seq<(K, V)> {
    if has_key(s, k) {
        s.remove(key_pos(s, k))
    } else {
        s
    }
}

pub proof fn lemma_key_pos<K, V>(s: Seq<(K, V)>, i: int)
    requires
        keys_unique(s),
        0 <= i < s.len(),
    ensures
        has_key(s, s[i].0),
        key_pos(s, s[i].0) == i,
        lookup(s, s[i].0) == Some(s[i].1),
{
    assert(has_key(s, s[i].0));
    let j = key_pos(s, s[i].0);
    assert(0 <= j < s.len() && s[j].0 == s[i].0);
}

pub proof fn lemma_upsert<K, V>(s: Seq<(K, V)>, k: K, v: V)
    requires
        keys_unique(s),
    ensures
        keys_unique(upsert(s, k, v)),
        has_key(upsert(s, k, v), k),
        lookup(upsert(s, k, v), k) == Some(v),
        forall|k2: K| k2 != k ==> lookup(upsert(s, k, v), k2) == lookup(s, k2),
{
    let r = upsert(s, k, v);
    if has_key(s, k) {
        let p = key_pos(s, k);
        assert(0 <= p < s.len() && s[p].0 == k);
    }
    assert(keys_unique(r));
    assert(r[if has_key(s, k) { key_pos(s, k) } else { s.len() as int }].0 == k);
    lemma_key_pos(r, if has_key(s, k) { key_pos(s, k) } else { s.len() as int });
    assert forall|k2: K| k2 != k implies lookup(r, k2) == lookup(s, k2) by {
        if has_key(s, k2) {
            let q = key_pos(s, k2);
            assert(r[q] == s[q]);
            lemma_key_pos(s, q);
            lemma_key_pos(r, q);
        }
        if has_key(r, k2) {
            let q = key_pos(r, k2);
            assert(s[q] == r[q]);
        }
    }
}

pub proof fn lemma_remove_key<K, V>(s: Seq<(K, V)>, k: K)
    requires
        keys_unique(s),
    ensures
        keys_unique(remove_key(s, k)),
        !has_key(remove_key(s, k), k),
        forall|k2: K| k2 != k ==> lookup(remove_key(s, k), k2) == lookup(s, k2),
{
    let r = remove_key(s, k);
    if has_key(s, k) {
        let p = key_pos(s, k);
        assert(0 <= p < s.len() && s[p].0 == k);
        assert(keys_unique(r)) by {
            assert forall|a: int, b: int| 0 <= a < r.len() && 0 <= b < r.len() && a != b implies r[a].0
                != r[b].0 by {
                let a2 = if a < p { a } else { a + 1 };
                let b2 = if b < p { b } else { b + 1 };
                assert(r[a] == s[a2] && r[b] == s[b2]);
            }
        }
        assert(!has_key(r, k)) by {
            if has_key(r, k) {
                let q = choose|q: int| 0 <= q < r.len() && r[q].0 == k;
                let q2 = if q < p { q } else { q + 1 };
                assert(s[q2].0 == k);
            }
        }
        assert forall|k2: K| k2 != k implies lookup(r, k2) == lookup(s, k2) by {
            if has_key(s, k2) {
                let q = key_pos(s, k2);
                assert(q != p);
                let q2 = if q < p { q } else { q - 1 };
                assert(r[q2] == s[q]);
                lemma_key_pos(s, q);
                lemma_key_pos(r, q2);
            }
            if has_key(r, k2) {
                let q = key_pos(r, k2);
                let q2 = if q < p { q } else { q + 1 };
                assert(s[q2] == r[q]);
            }
        }
    }
}

} // verus!
