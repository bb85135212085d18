//! Association lists with distinct keys, viewed as maps.

use vstd::prelude::*;

verus! {

/// Keys of `s`, seen through `kv`, are pairwise distinct.
pub open spec fn keys_distinct<K, KV, V>(s: Seq<(K, V)>, kv: spec_fn(K) -> KV) -> bool {
    forall|i: int, j: int| 0 <= i < j < s.len() ==> kv((#[trigger] s[i]).0) != kv((#[trigger] s[j]).0)
}

pub open spec fn has_key<K, KV, V>(s: Seq<(K, V)>, kv: spec_fn(K) -> KV, k: KV) -> bool {
    exists|i: int| 0 <= i < s.len() && kv((#[trigger] s[i]).0) == k
}

/// The map that the list stands for.
pub open spec fn entry_map<K, KV, V>(s: Seq<(K, V)>, kv: spec_fn(K) -> KV) -> Map<KV, V> {
    Map::new(
        |k: KV| has_key(s, kv, k),
        |k: KV| s[choose|i: int| 0 <= i < s.len() && kv((#[trigger] s[i]).0) == k].1,
    )
}

/// The value stored under `k`, or 0.
pub open spec fn count_in<KV>(m: Map<KV, u64>, k: KV) -> nat {
    if m.dom().contains(k) {
        m[k] as nat
    } else {
        0
    }
}

pub proof fn lemma_entry_lookup<K, KV, V>(s: Seq<(K, V)>, kv: spec_fn(K) -> KV, i: int)
    requires
        keys_distinct(s, kv),
        0 <= i < s.len(),
    ensures
        entry_map(s, kv).dom().contains(kv(s[i].0)),
        entry_map(s, kv)[kv(s[i].0)] == s[i].1,
{
    let k = kv(s[i].0);
    assert(has_key(s, kv, k));
    let j = choose|j: int| 0 <= j < s.len() && kv((#[trigger] s[j]).0) == k;
    if j != i {
        if j < i {
            assert(kv(s[j].0) != kv(s[i].0));
        } else {
            assert(kv(s[i].0) != kv(s[j].0));
        }
    }
}

/// Replacing the entry at `i` by one with an equal key updates the map at that key.
pub proof fn lemma_entry_set<K, KV, V>(s: Seq<(K, V)>, kv: spec_fn(K) -> KV, i: int, e: (K, V))
    requires
        keys_distinct(s, kv),
        0 <= i < s.len(),
        kv(e.0) == kv(s[i].0),
    ensures
        keys_distinct(s.update(i, e), kv),
        entry_map(s.update(i, e), kv) == entry_map(s, kv).insert(kv(s[i].0), e.1),
{
    let v = e.1;
    let t = s.update(i, e);
    assert forall|a: int, b: int| 0 <= a < b < t.len() implies kv((#[trigger] t[a]).0) != kv((#[trigger] t[b]).0) by {
        assert(kv(t[a].0) == kv(s[a].0) && kv(t[b].0) == kv(s[b].0));
    }
    let m = entry_map(t, kv);
    let n = entry_map(s, kv).insert(kv(s[i].0), v);
    assert forall|k: KV| m.dom().contains(k) <==> n.dom().contains(k) by {
        if has_key(t, kv, k) {
            let j = choose|j: int| 0 <= j < t.len() && kv((#[trigger] t[j]).0) == k;
            assert(kv(s[j].0) == k);
        }
        if has_key(s, kv, k) {
            let j = choose|j: int| 0 <= j < s.len() && kv((#[trigger] s[j]).0) == k;
            assert(kv(t[j].0) == k);
        }
    }
    assert forall|k: KV| m.dom().contains(k) implies m[k] == n[k] by {
        let j = choose|j: int| 0 <= j < t.len() && kv((#[trigger] t[j]).0) == k;
        lemma_entry_lookup(t, kv, j);
        if j == i {
        } else {
            lemma_entry_lookup(s, kv, j);
            assert(s[j] == t[j]);
        }
    }
    assert(m =~= n);
}

/// Appending an entry under a new key inserts it into the map.
pub proof fn lemma_entry_push<K, KV, V>(s: Seq<(K, V)>, kv: spec_fn(K) -> KV, e: (K, V))
    requires
        keys_distinct(s, kv),
        !has_key(s, kv, kv(e.0)),
    ensures
        keys_distinct(s.push(e), kv),
        entry_map(s.push(e), kv) == entry_map(s, kv).insert(kv(e.0), e.1),
{
    let t = s.push(e);
    assert forall|a: int, b: int| 0 <= a < b < t.len() implies kv((#[trigger] t[a]).0) != kv((#[trigger] t[b]).0) by {
        if b == t.len() - 1 {
            assert(t[a] == s[a]);
        } else {
            assert(t[a] == s[a] && t[b] == s[b]);
        }
    }
    let m = entry_map(t, kv);
    let n = entry_map(s, kv).insert(kv(e.0), e.1);
    assert forall|k: KV| m.dom().contains(k) <==> n.dom().contains(k) by {
        if has_key(t, kv, k) {
            let j = choose|j: int| 0 <= j < t.len() && kv((#[trigger] t[j]).0) == k;
            if j < s.len() {
                assert(t[j] == s[j]);
            }
        }
        if has_key(s, kv, k) {
            let j = choose|j: int| 0 <= j < s.len() && kv((#[trigger] s[j]).0) == k;
            assert(t[j] == s[j]);
        }
        if k == kv(e.0) {
            assert(t[s.len() as int] == e);
        }
    }
    assert forall|k: KV| m.dom().contains(k) implies m[k] == n[k] by {
        let j = choose|j: int| 0 <= j < t.len() && kv((#[trigger] t[j]).0) == k;
        lemma_entry_lookup(t, kv, j);
        if j < s.len() {
            assert(t[j] == s[j]);
            lemma_entry_lookup(s, kv, j);
        }
    }
    assert(m =~= n);
}

pub proof fn lemma_entry_empty<K, KV, V>(kv: spec_fn(K) -> KV)
    ensures
        entry_map(Seq::<(K, V)>::empty(), kv) == Map::<KV, V>::empty(),
        keys_distinct(Seq::<(K, V)>::empty(), kv),
{
    assert(entry_map(Seq::<(K, V)>::empty(), kv) =~= Map::<KV, V>::empty());
}

/// A list with distinct keys has as many entries as its map has keys.
pub proof fn lemma_entry_len<K, KV, V>(s: Seq<(K, V)>, kv: spec_fn(K) -> KV)
    requires
        keys_distinct(s, kv),
    ensures
        entry_map(s, kv).dom().finite(),
        entry_map(s, kv).len() == s.len(),
{
    let ks = s.map_values(|e: (K, V)| kv(e.0));
    assert(ks.no_duplicates()) by {
        assert forall|i: int, j: int| 0 <= i < ks.len() && 0 <= j < ks.len() && i != j implies ks[i] != ks[j] by {
            if i < j {
                assert(kv(s[i].0) != kv(s[j].0));
            } else {
                assert(kv(s[j].0) != kv(s[i].0));
            }
        }
    }
    ks.unique_seq_to_set();
    assert forall|k: KV| entry_map(s, kv).dom().contains(k) <==> ks.to_set().contains(k) by {
        if has_key(s, kv, k) {
            let i = choose|i: int| 0 <= i < s.len() && kv((#[trigger] s[i]).0) == k;
            assert(ks[i] == k);
        }
        if ks.contains(k) {
            let i = choose|i: int| 0 <= i < ks.len() && ks[i] == k;
            assert(kv(s[i].0) == k);
        }
    }
    assert(entry_map(s, kv).dom() =~= ks.to_set());
}

/// Removing the entry at `i` removes its key from the map.
pub proof fn lemma_entry_remove<K, KV, V>(s: Seq<(K, V)>, kv: spec_fn(K) -> KV, i: int)
    requires
        keys_distinct(s, kv),
        0 <= i < s.len(),
    ensures
        keys_distinct(s.remove(i), kv),
        entry_map(s.remove(i), kv) == entry_map(s, kv).remove(kv(s[i].0)),
{
    let t = s.remove(i);
    assert forall|a: int| 0 <= a < t.len() implies #[trigger] t[a] == s[if a < i { a } else { a + 1 }] by {}
    assert forall|a: int, b: int| 0 <= a < b < t.len() implies kv((#[trigger] t[a]).0) != kv((#[trigger] t[b]).0) by {
        assert(t[a] == s[if a < i { a } else { a + 1 }]);
        assert(t[b] == s[if b < i { b } else { b + 1 }]);
    }
    let m = entry_map(t, kv);
    let n = entry_map(s, kv).remove(kv(s[i].0));
    assert forall|k: KV| m.dom().contains(k) <==> n.dom().contains(k) by {
        if has_key(t, kv, k) {
            let j = choose|j: int| 0 <= j < t.len() && kv((#[trigger] t[j]).0) == k;
            let j2 = if j < i { j } else { j + 1 };
            assert(t[j] == s[j2]);
            assert(kv(s[j2].0) != kv(s[i].0));
        }
        if has_key(s, kv, k) && k != kv(s[i].0) {
            let j = choose|j: int| 0 <= j < s.len() && kv((#[trigger] s[j]).0) == k;
            assert(j != i);
            let j2 = if j < i { j } else { j - 1 };
            assert(t[j2] == s[j]);
        }
    }
    assert forall|k: KV| m.dom().contains(k) implies m[k] == n[k] by {
        let j = choose|j: int| 0 <= j < t.len() && kv((#[trigger] t[j]).0) == k;
        let j2 = if j < i { j } else { j + 1 };
        assert(t[j] == s[j2]);
        lemma_entry_lookup(t, kv, j);
        lemma_entry_lookup(s, kv, j2);
    }
    assert(m =~= n);
}

} // verus!
