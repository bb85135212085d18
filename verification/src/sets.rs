//! Ordered sets of strings held as strictly increasing lists: insertion,
//! intersection and union, each in string order.

use vstd::prelude::*;
use crate::cap::strs;
use crate::text::{lex_lt, str_lt, str_eq, owned, lemma_lex_total, lemma_lex_transitive, lemma_lex_irreflexive, lemma_lex_asymmetric};
use crate::entries::{keys_distinct, has_key, entry_map, lemma_entry_lookup, lemma_entry_set};
use crate::knowledge::str_key;

verus! {

/// Strictly increasing in string order: a set listed in order.
pub open spec fn sorted_unique(s: Seq<Seq<char>>) -> bool {
    forall|i: int, j: int| 0 <= i < j < s.len() ==> lex_lt(#[trigger] s[i], #[trigger] s[j])
}

/// The elements of `a` that `b` holds, in the order of `a`.
pub open spec fn common(a: Seq<Seq<char>>, b: Seq<Seq<char>>) -> Seq<Seq<char>> {
    a.filter(|x: Seq<char>| b.contains(x))
}

/// Two increasing lists with the same elements are equal.
pub proof fn lemma_sorted_unique_ext(a: Seq<Seq<char>>, b: Seq<Seq<char>>)
    requires
        sorted_unique(a),
        sorted_unique(b),
        forall|x: Seq<char>| a.contains(x) <==> b.contains(x),
    ensures
        a == b,
    decreases a.len(),
{
    if a.len() == 0 {
        if b.len() > 0 {
            assert(b.contains(b[0]));
        }
        assert(a =~= b);
    } else if b.len() == 0 {
        assert(a.contains(a[0]));
    } else {
        // The first elements are the least of equal sets.
        assert(a.contains(a[0]));
        assert(b.contains(b[0]));
        let i = choose|i: int| 0 <= i < b.len() && b[i] == a[0];
        let j = choose|j: int| 0 <= j < a.len() && a[j] == b[0];
        if i > 0 && j > 0 {
            assert(lex_lt(b[0], b[i]));
            assert(lex_lt(a[0], a[j]));
            lemma_lex_asymmetric(a[0], b[0]);
        }
        if i > 0 && j == 0 {
            assert(lex_lt(b[0], b[i]));
            lemma_lex_irreflexive(a[0]);
        }
        if i == 0 && j > 0 {
            assert(lex_lt(a[0], a[j]));
            lemma_lex_irreflexive(a[0]);
        }
        assert(a[0] == b[0]);
        let a2 = a.drop_first();
        let b2 = b.drop_first();
        assert forall|x: Seq<char>| a2.contains(x) <==> b2.contains(x) by {
            if a2.contains(x) {
                let k = choose|k: int| 0 <= k < a2.len() && a2[k] == x;
                assert(a[k + 1] == x);
                assert(lex_lt(a[0], a[k + 1]));
                assert(b.contains(x));
                let m = choose|m: int| 0 <= m < b.len() && b[m] == x;
                if m == 0 {
                    lemma_lex_irreflexive(x);
                }
                assert(b2[m - 1] == x);
            }
            if b2.contains(x) {
                let k = choose|k: int| 0 <= k < b2.len() && b2[k] == x;
                assert(b[k + 1] == x);
                assert(lex_lt(b[0], b[k + 1]));
                assert(a.contains(x));
                let m = choose|m: int| 0 <= m < a.len() && a[m] == x;
                if m == 0 {
                    lemma_lex_irreflexive(x);
                }
                assert(a2[m - 1] == x);
            }
        }
        lemma_sorted_unique_ext(a2, b2);
        assert(a =~= seq![a[0]] + a2);
        assert(b =~= seq![b[0]] + b2);
    }
}

/// A list in string order has no repeats, so it has as many elements as its
/// set.
pub proof fn lemma_sorted_len(s: Seq<Seq<char>>)
    requires
        sorted_unique(s),
    ensures
        s.to_set().len() == s.len(),
{
    assert(s.no_duplicates()) by {
        assert forall|i: int, j: int| 0 <= i < s.len() && 0 <= j < s.len() && i != j implies s[i] != s[j] by {
            lemma_lex_irreflexive(s[i]);
            lemma_lex_irreflexive(s[j]);
        }
    }
    s.unique_seq_to_set();
}

/// Adds `x` to the ordered set `v` (nothing changes if it is there).
pub fn insert_sorted(v: &mut Vec<String>, x: String)
    requires
        sorted_unique(strs(old(v)@)),
    ensures
        sorted_unique(strs(final(v)@)),
        forall|t: Seq<char>| strs(final(v)@).contains(t) <==> (strs(old(v)@).contains(t) || t == x@),
{
    let ghost s = strs(v@);
    let mut i: usize = 0;
    while i < v.len() && str_lt(v[i].as_str(), x.as_str())
        invariant
            s == strs(v@),
            i <= v@.len(),
            forall|j: int| 0 <= j < i ==> lex_lt(#[trigger] s[j], x@),
        decreases v.len() - i,
    {
        i = i + 1;
    }
    if i < v.len() && str_eq(v[i].as_str(), x.as_str()) {
        assert(s[i as int] == x@);
        return;
    }
    proof {
        if i < s.len() {
            lemma_lex_total(s[i as int], x@);
            assert forall|j: int| i <= j < s.len() implies lex_lt(x@, #[trigger] s[j]) by {
                if j > i {
                    lemma_lex_transitive(x@, s[i as int], s[j]);
                }
            }
        }
    }
    v.insert(i, x);
    proof {
        let t = strs(v@);
        assert(t =~= s.insert(i as int, x@));
        assert forall|a: int, b: int| 0 <= a < b < t.len() implies lex_lt(#[trigger] t[a], #[trigger] t[b]) by {
            if b < i {
                assert(t[a] == s[a] && t[b] == s[b]);
            } else if b == i {
                assert(t[a] == s[a]);
            } else if a < i {
                assert(t[a] == s[a] && t[b] == s[b - 1]);
                lemma_lex_transitive(s[a], x@, s[b - 1]);
            } else if a == i {
                assert(t[b] == s[b - 1]);
            } else {
                assert(t[a] == s[a - 1] && t[b] == s[b - 1]);
            }
        }
        assert forall|u: Seq<char>| t.contains(u) <==> (s.contains(u) || u == x@) by {
            if t.contains(u) {
                let k = choose|k: int| 0 <= k < t.len() && t[k] == u;
                if k < i {
                    assert(s[k] == u);
                } else if k > i {
                    assert(s[k - 1] == u);
                }
            }
            if s.contains(u) {
                let k = choose|k: int| 0 <= k < s.len() && s[k] == u;
                if k < i {
                    assert(t[k] == u);
                } else {
                    assert(t[k + 1] == u);
                }
            }
            if u == x@ {
                assert(t[i as int] == u);
            }
        }
    }
}

/// The ordered set of the strings in `v`.
pub fn set_of(v: &Vec<String>) -> (r: Vec<String>)
    ensures
        sorted_unique(strs(r@)),
        forall|t: Seq<char>| strs(r@).contains(t) <==> strs(v@).contains(t),
{
    let mut r: Vec<String> = Vec::new();
    let mut i: usize = 0;
    while i < v.len()
        invariant
            i <= v@.len(),
            sorted_unique(strs(r@)),
            forall|t: Seq<char>| strs(r@).contains(t) <==> strs(v@).subrange(0, i as int).contains(t),
        decreases v.len() - i,
    {
        let ghost before = strs(r@);
        insert_sorted(&mut r, owned(v[i].as_str()));
        proof {
            let p = strs(v@).subrange(0, i + 1);
            assert(p =~= strs(v@).subrange(0, i as int).push(v@[i as int]@));
            assert forall|t: Seq<char>| strs(r@).contains(t) <==> p.contains(t) by {
                if p.contains(t) {
                    let k = choose|k: int| 0 <= k < p.len() && p[k] == t;
                    if k < i {
                        assert(strs(v@).subrange(0, i as int)[k] == t);
                    }
                }
                if strs(v@).subrange(0, i as int).contains(t) {
                    let k = choose|k: int| 0 <= k < i && strs(v@).subrange(0, i as int)[k] == t;
                    assert(p[k] == t);
                }
                if t == v@[i as int]@ {
                    assert(p[i as int] == t);
                }
            }
        }
        i = i + 1;
    }
    assert(strs(v@).subrange(0, v@.len() as int) =~= strs(v@));
    r
}

/// Whether the list holds `x`.
pub fn holds(v: &Vec<String>, x: &str) -> (r: bool)
    ensures
        r == strs(v@).contains(x@),
{
    let mut i: usize = 0;
    while i < v.len()
        invariant
            i <= v@.len(),
            forall|j: int| 0 <= j < i ==> (#[trigger] v@[j])@ != x@,
        decreases v.len() - i,
    {
        if str_eq(v[i].as_str(), x) {
            assert(strs(v@)[i as int] == x@);
            return true;
        }
        i = i + 1;
    }
    proof {
        if strs(v@).contains(x@) {
            let k = choose|k: int| 0 <= k < v@.len() && strs(v@)[k] == x@;
            assert(v@[k]@ == x@);
        }
    }
    false
}

/// The elements of `a` that `b` holds, in the order of `a`.
pub fn intersection(a: &Vec<String>, b: &Vec<String>) -> (r: Vec<String>)
    ensures
        strs(r@) == common(strs(a@), strs(b@)),
{
    let ghost p = |x: Seq<char>| strs(b@).contains(x);
    let mut r: Vec<String> = Vec::new();
    let mut i: usize = 0;
    while i < a.len()
        invariant
            i <= a@.len(),
            p == (|x: Seq<char>| strs(b@).contains(x)),
            strs(r@) == strs(a@).subrange(0, i as int).filter(p),
        decreases a.len() - i,
    {
        let ghost before = strs(r@);
        let inb = holds(b, a[i].as_str());
        proof {
            let pre = strs(a@).subrange(0, i + 1);
            assert(pre.drop_last() =~= strs(a@).subrange(0, i as int));
            assert(pre.last() == a@[i as int]@);
            reveal_with_fuel(Seq::filter, 1);
        }
        if inb {
            r.push(owned(a[i].as_str()));
            proof {
                assert(strs(r@) =~= before.push(a@[i as int]@));
            }
        }
        i = i + 1;
    }
    assert(strs(a@).subrange(0, a@.len() as int) =~= strs(a@));
    r
}

/// The ordered set of the strings in `a` or in `b`.
pub fn union(a: &Vec<String>, b: &Vec<String>) -> (r: Vec<String>)
    ensures
        sorted_unique(strs(r@)),
        forall|t: Seq<char>| strs(r@).contains(t) <==> (strs(a@).contains(t) || strs(b@).contains(t)),
{
    let mut r = set_of(a);
    let mut i: usize = 0;
    while i < b.len()
        invariant
            i <= b@.len(),
            sorted_unique(strs(r@)),
            forall|t: Seq<char>|
                strs(r@).contains(t) <==> (strs(a@).contains(t) || strs(b@).subrange(0, i as int).contains(t)),
        decreases b.len() - i,
    {
        insert_sorted(&mut r, owned(b[i].as_str()));
        proof {
            let p = strs(b@).subrange(0, i + 1);
            let q = strs(b@).subrange(0, i as int);
            assert forall|t: Seq<char>| p.contains(t) <==> (q.contains(t) || t == b@[i as int]@) by {
                if p.contains(t) {
                    let k = choose|k: int| 0 <= k < p.len() && p[k] == t;
                    if k < i {
                        assert(q[k] == t);
                    }
                }
                if q.contains(t) {
                    let k = choose|k: int| 0 <= k < q.len() && q[k] == t;
                    assert(p[k] == t);
                }
                if t == b@[i as int]@ {
                    assert(p[i as int] == t);
                }
            }
        }
        i = i + 1;
    }
    assert(strs(b@).subrange(0, b@.len() as int) =~= strs(b@));
    r
}

// ---------------------------------------------------------------------------
// Maps keyed by string, held as entry lists in key order
// ---------------------------------------------------------------------------

pub open spec fn key_strs<V>(v: Seq<(String, V)>) -> Seq<Seq<char>> {
    v.map_values(|e: (String, V)| e.0@)
}

/// Keys in string order are distinct keys.
pub proof fn lemma_sorted_keys_distinct<V>(v: Seq<(String, V)>)
    requires
        sorted_unique(key_strs(v)),
    ensures
        keys_distinct(v, str_key()),
{
    assert forall|i: int, j: int| 0 <= i < j < v.len() implies str_key()((#[trigger] v[i]).0) != str_key()((#[trigger] v[j]).0) by {
        assert(key_strs(v)[i] == v[i].0@ && key_strs(v)[j] == v[j].0@);
        lemma_lex_irreflexive(v[i].0@);
    }
}

/// Where `id` is, or would go, among the keys.
pub fn find_key<V>(v: &Vec<(String, V)>, id: &str) -> (r: (usize, bool))
    requires
        sorted_unique(key_strs(v@)),
    ensures
        r.0 <= v@.len(),
        r.1 ==> r.0 < v@.len() && v@[r.0 as int].0@ == id@,
        !r.1 ==> forall|j: int| 0 <= j < v@.len() ==> (j < r.0 <==> lex_lt(#[trigger] key_strs(v@)[j], id@)),
        !r.1 ==> forall|j: int| r.0 <= j < v@.len() ==> lex_lt(id@, #[trigger] key_strs(v@)[j]),
        r.1 <==> has_key(v@, str_key(), id@),
{
    let ghost ks = key_strs(v@);
    let mut i: usize = 0;
    while i < v.len() && str_lt(v[i].0.as_str(), id)
        invariant
            ks == key_strs(v@),
            i <= v@.len(),
            forall|j: int| 0 <= j < i ==> lex_lt(#[trigger] ks[j], id@),
        decreases v.len() - i,
    {
        assert(ks[i as int] == v@[i as int].0@);
        i = i + 1;
    }
    proof {
        lemma_sorted_keys_distinct(v@);
    }
    if i < v.len() && str_eq(v[i].0.as_str(), id) {
        assert(str_key()(v@[i as int].0) == id@);
        return (i, true);
    }
    proof {
        if i < ks.len() {
            assert(ks[i as int] == v@[i as int].0@);
            lemma_lex_total(ks[i as int], id@);
            assert forall|j: int| i <= j < ks.len() implies lex_lt(id@, #[trigger] ks[j]) by {
                if j > i {
                    lemma_lex_transitive(id@, ks[i as int], ks[j]);
                }
            }
        }
        assert forall|j: int| 0 <= j < v@.len() implies (j < i <==> lex_lt(#[trigger] ks[j], id@)) by {
            if j >= i {
                lemma_lex_asymmetric(id@, ks[j]);
            }
        }
        if has_key(v@, str_key(), id@) {
            let j = choose|j: int| 0 <= j < v@.len() && str_key()((#[trigger] v@[j]).0) == id@;
            assert(ks[j] == id@);
            lemma_lex_irreflexive(id@);
        }
    }
    (i, false)
}

/// Sets the value under `id`, adding the key in order if it is new.
pub fn upsert_sorted<V>(v: &mut Vec<(String, V)>, id: &str, val: V)
    requires
        sorted_unique(key_strs(old(v)@)),
    ensures
        sorted_unique(key_strs(final(v)@)),
        entry_map(final(v)@, str_key()) == entry_map(old(v)@, str_key()).insert(id@, val),
{
    let ghost s = v@;
    let ghost ks = key_strs(s);
    proof {
        lemma_sorted_keys_distinct(s);
    }
    let (i, found) = find_key(v, id);
    if found {
        let (k, _) = v.remove(i);
        v.insert(i, (k, val));
        proof {
            let e = (k, val);
            assert(v@ =~= s.update(i as int, e));
            lemma_entry_set(s, str_key(), i as int, e);
            assert(key_strs(v@) =~= ks);
        }
    } else {
        let key = owned(id);
        let ghost kv = key@;
        v.insert(i, (key, val));
        proof {
            let t = v@;
            let kt = key_strs(t);
            assert(kt =~= ks.insert(i as int, id@));
            assert forall|a: int, c: int| 0 <= a < c < kt.len() implies lex_lt(#[trigger] kt[a], #[trigger] kt[c]) by {
                if c < i {
                } else if c == i {
                } else if a < i {
                    lemma_lex_transitive(ks[a], id@, ks[c - 1]);
                } else if a == i {
                } else {
                }
            }
            lemma_sorted_keys_distinct(t);
            let m = entry_map(t, str_key());
            let n = entry_map(s, str_key()).insert(id@, val);
            assert forall|x: Seq<char>| #[trigger] m.dom().contains(x) <==> n.dom().contains(x) by {
                if has_key(t, str_key(), x) {
                    let j = choose|j: int| 0 <= j < t.len() && str_key()((#[trigger] t[j]).0) == x;
                    if j < i {
                        assert(t[j] == s[j]);
                    } else if j > i {
                        assert(t[j] == s[j - 1]);
                    }
                }
                if has_key(s, str_key(), x) {
                    let j = choose|j: int| 0 <= j < s.len() && str_key()((#[trigger] s[j]).0) == x;
                    if j < i {
                        assert(t[j] == s[j]);
                    } else {
                        assert(t[j + 1] == s[j]);
                    }
                }
                if x == id@ {
                    assert(str_key()(t[i as int].0) == x);
                }
            }
            assert forall|x: Seq<char>| #[trigger] m.dom().contains(x) implies m[x] == n[x] by {
                let j = choose|j: int| 0 <= j < t.len() && str_key()((#[trigger] t[j]).0) == x;
                lemma_entry_lookup(t, str_key(), j);
                if j < i {
                    assert(t[j] == s[j]);
                    lemma_entry_lookup(s, str_key(), j);
                    assert(kt[j] != id@) by { lemma_lex_irreflexive(id@); }
                } else if j > i {
                    assert(t[j] == s[j - 1]);
                    lemma_entry_lookup(s, str_key(), j - 1);
                    assert(kt[j] != id@) by { lemma_lex_irreflexive(id@); }
                }
            }
            assert(m =~= n);
        }
    }
}

} // verus!
