//! Learned project knowledge kept across sessions as integer counts: how
//! often each file was at the centre of a conflict (hotzones) and how often
//! two files were worked on together (coupling). Scores are derived from
//! the counts elsewhere.

use vstd::prelude::*;
use crate::cap::strs;
use crate::conflict::{key, pair_key, lemma_pair_key_symmetric};
use crate::entries::{keys_distinct, has_key, entry_map, count_in, lemma_entry_lookup, lemma_entry_set, lemma_entry_push, lemma_entry_empty};
use crate::text::{str_eq, owned, lex_le};

verus! {

pub open spec fn str_key() -> spec_fn(String) -> Seq<char> {
    |s: String| s@
}

pub open spec fn pair_view() -> spec_fn((String, String)) -> (Seq<char>, Seq<char>) {
    |k: (String, String)| (k.0@, k.1@)
}

/// How many times `x` occurs in `s`.
pub open spec fn occurrences(s: Seq<Seq<char>>, x: Seq<char>) -> nat
    decreases s.len(),
{
    if s.len() == 0 {
        0
    } else {
        occurrences(s.drop_last(), x) + if s.last() == x { 1nat } else { 0nat }
    }
}

/// Positions `j` with `i < j < end` whose pair with position `i` is `k`.
pub open spec fn row_count(f: Seq<Seq<char>>, i: int, end: int, k: (Seq<char>, Seq<char>)) -> nat
    decreases end - i,
{
    if end <= i + 1 {
        0
    } else {
        row_count(f, i, end - 1, k) + if pair_key(f[i], f[end - 1]) == k { 1nat } else { 0nat }
    }
}

/// Index pairs `i < j` with `i < n` whose unordered pair of names is `k`.
pub open spec fn pairs_before(f: Seq<Seq<char>>, n: int, k: (Seq<char>, Seq<char>)) -> nat
    decreases n,
{
    if n <= 0 {
        0
    } else {
        pairs_before(f, n - 1, k) + row_count(f, n - 1, f.len() as int, k)
    }
}

/// Number of index pairs `i < j` of `f` whose two names form the pair `k`.
pub open spec fn pair_occurrences(f: Seq<Seq<char>>, k: (Seq<char>, Seq<char>)) -> nat {
    pairs_before(f, f.len() as int, k)
}

/// Positions `q < end` of `before` whose pair with `x` is `k`.
pub open spec fn cross_row(before: Seq<Seq<char>>, end: int, x: Seq<char>, k: (Seq<char>, Seq<char>)) -> nat
    decreases end,
{
    if end <= 0 {
        0
    } else {
        cross_row(before, end - 1, x, k) + if pair_key(before[end - 1], x) == k { 1nat } else { 0nat }
    }
}

/// Pairs of an earlier file with one of the first `n` new files that are `k`.
pub open spec fn cross_pairs(before: Seq<Seq<char>>, new: Seq<Seq<char>>, n: int, k: (Seq<char>, Seq<char>)) -> nat
    decreases n,
{
    if n <= 0 {
        0
    } else {
        cross_pairs(before, new, n - 1, k) + cross_row(before, before.len() as int, new[n - 1], k)
    }
}

/// How often `k` is counted when `new` files are touched after `before`:
/// the pairs among the new files and the pairs of an earlier file with a
/// new one.
pub open spec fn cotouch_pairs(before: Seq<Seq<char>>, new: Seq<Seq<char>>, k: (Seq<char>, Seq<char>)) -> nat {
    pair_occurrences(new, k) + cross_pairs(before, new, new.len() as int, k)
}

proof fn lemma_cross_row_mono(before: Seq<Seq<char>>, a: int, c: int, x: Seq<char>, k: (Seq<char>, Seq<char>))
    requires
        a <= c,
    ensures
        cross_row(before, a, x, k) <= cross_row(before, c, x, k),
    decreases c - a,
{
    if a < c {
        lemma_cross_row_mono(before, a, c - 1, x, k);
    }
}

proof fn lemma_cross_pairs_mono(before: Seq<Seq<char>>, new: Seq<Seq<char>>, a: int, c: int, k: (Seq<char>, Seq<char>))
    requires
        0 <= a <= c,
    ensures
        cross_pairs(before, new, a, k) <= cross_pairs(before, new, c, k),
    decreases c - a,
{
    if a < c {
        lemma_cross_pairs_mono(before, new, a, c - 1, k);
    }
}

proof fn lemma_row_mono(f: Seq<Seq<char>>, i: int, a: int, b: int, k: (Seq<char>, Seq<char>))
    requires
        a <= b,
    ensures
        row_count(f, i, a, k) <= row_count(f, i, b, k),
    decreases b - a,
{
    if a < b {
        lemma_row_mono(f, i, a, b - 1, k);
    }
}

proof fn lemma_pairs_mono(f: Seq<Seq<char>>, a: int, b: int, k: (Seq<char>, Seq<char>))
    requires
        0 <= a <= b,
    ensures
        pairs_before(f, a, k) <= pairs_before(f, b, k),
    decreases b - a,
{
    if a < b {
        lemma_pairs_mono(f, a, b - 1, k);
    }
}

/// The map after inserting each entry in turn (later entries win).
pub open spec fn inserted<KV>(s: Seq<(KV, u64)>) -> Map<KV, u64>
    decreases s.len(),
{
    if s.len() == 0 {
        Map::empty()
    } else {
        inserted(s.drop_last()).insert(s.last().0, s.last().1)
    }
}

pub struct KnowledgeStore {
    hotzone_counts: Vec<(String, u64)>,
    coupling_counts: Vec<((String, String), u64)>,
}

impl KnowledgeStore {
    /// Conflict counts per file.
    pub closed spec fn hotzones(&self) -> Map<Seq<char>, u64> {
        entry_map(self.hotzone_counts@, str_key())
    }

    /// Co-occurrence counts per ordered pair of files.
    pub closed spec fn couplings(&self) -> Map<(Seq<char>, Seq<char>), u64> {
        entry_map(self.coupling_counts@, pair_view())
    }

    /// Keys are distinct and coupling keys are ordered pairs.
    pub closed spec fn wf(&self) -> bool {
        &&& keys_distinct(self.hotzone_counts@, str_key())
        &&& keys_distinct(self.coupling_counts@, pair_view())
        &&& forall|k: (Seq<char>, Seq<char>)| self.couplings().dom().contains(k) ==> lex_le(k.0, k.1)
    }

    /// Room for `paths` to be recorded as a conflict without a counter overflowing.
    pub open spec fn can_record_conflict(&self, paths: Seq<Seq<char>>) -> bool {
        &&& forall|p: Seq<char>| count_in(self.hotzones(), p) + #[trigger] occurrences(paths, p) <= u64::MAX
        &&& self.can_record_pairs(paths)
    }

    /// Room for the pairs of `files` to be counted without a counter overflowing.
    pub open spec fn can_record_pairs(&self, files: Seq<Seq<char>>) -> bool {
        forall|k: (Seq<char>, Seq<char>)| count_in(self.couplings(), k) + #[trigger] pair_occurrences(files, k) <= u64::MAX
    }

    pub fn new() -> (r: Self)
        ensures
            r.wf(),
            r.hotzones() == Map::<Seq<char>, u64>::empty(),
            r.couplings() == Map::<(Seq<char>, Seq<char>), u64>::empty(),
    {
        let r = KnowledgeStore { hotzone_counts: Vec::new(), coupling_counts: Vec::new() };
        proof {
            lemma_entry_empty::<String, Seq<char>, u64>(str_key());
            lemma_entry_empty::<(String, String), (Seq<char>, Seq<char>), u64>(pair_view());
        }
        r
    }

    fn hotzone_index(&self, path: &str) -> (r: Option<usize>)
        ensures
            match r {
                Some(i) => i < self.hotzone_counts@.len() && self.hotzone_counts@[i as int].0@ == path@,
                None => !has_key(self.hotzone_counts@, str_key(), path@),
            },
    {
        let mut i: usize = 0;
        while i < self.hotzone_counts.len()
            invariant
                i <= self.hotzone_counts@.len(),
                forall|j: int| 0 <= j < i ==> (#[trigger] self.hotzone_counts@[j]).0@ != path@,
            decreases self.hotzone_counts.len() - i,
        {
            if str_eq(self.hotzone_counts[i].0.as_str(), path) {
                return Some(i);
            }
            i = i + 1;
        }
        proof {
            if has_key(self.hotzone_counts@, str_key(), path@) {
                let j = choose|j: int|
                    0 <= j < self.hotzone_counts@.len() && str_key()((#[trigger] self.hotzone_counts@[j]).0) == path@;
                assert(self.hotzone_counts@[j].0@ != path@);
            }
        }
        None
    }

    fn coupling_index(&self, k: &(String, String)) -> (r: Option<usize>)
        ensures
            match r {
                Some(i) => i < self.coupling_counts@.len() && pair_view()(self.coupling_counts@[i as int].0) == (
                k.0@,
                k.1@,
                ),
                None => !has_key(self.coupling_counts@, pair_view(), (k.0@, k.1@)),
            },
    {
        let mut i: usize = 0;
        while i < self.coupling_counts.len()
            invariant
                i <= self.coupling_counts@.len(),
                forall|j: int| 0 <= j < i ==> pair_view()((#[trigger] self.coupling_counts@[j]).0) != (k.0@, k.1@),
            decreases self.coupling_counts.len() - i,
        {
            let e = &self.coupling_counts[i];
            if str_eq(e.0.0.as_str(), k.0.as_str()) && str_eq(e.0.1.as_str(), k.1.as_str()) {
                return Some(i);
            }
            i = i + 1;
        }
        None
    }

    /// Adds one to the conflict count of `path`.
    fn bump_hotzone(&mut self, path: &str)
        requires
            old(self).wf(),
            count_in(old(self).hotzones(), path@) < u64::MAX,
        ensures
            final(self).wf(),
            final(self).couplings() == old(self).couplings(),
            final(self).hotzones() == old(self).hotzones().insert(path@, (count_in(old(self).hotzones(), path@) + 1) as u64),
    {
        let ghost cp = self.coupling_counts@;
        match self.hotzone_index(path) {
            Some(i) => {
                let ghost s = self.hotzone_counts@;
                proof {
                    lemma_entry_lookup(s, str_key(), i as int);
                }
                let n = self.hotzone_counts[i].1;
                let name = self.hotzone_counts[i].0.clone();
                self.hotzone_counts.set(i, (name, n + 1));
                proof {
                    assert(self.hotzone_counts@ == s.update(i as int, (s[i as int].0, (n + 1) as u64)));
                    lemma_entry_set(s, str_key(), i as int, (s[i as int].0, (n + 1) as u64));
                }
            },
            None => {
                let ghost s = self.hotzone_counts@;
                self.hotzone_counts.push((owned(path), 1));
                proof {
                    lemma_entry_push(s, str_key(), (self.hotzone_counts@.last().0, 1u64));
                    assert(self.hotzone_counts@ == s.push(self.hotzone_counts@.last()));
                }
            },
        }
        assert(self.coupling_counts@ == cp);
        assert(keys_distinct(self.hotzone_counts@, str_key()));
        assert(keys_distinct(self.coupling_counts@, pair_view()));
        assert(self.couplings() == old(self).couplings());
        assert(forall|k: (Seq<char>, Seq<char>)| self.couplings().dom().contains(k) ==> lex_le(k.0, k.1));
    }

    /// Adds one to the co-occurrence count of the ordered pair `k`.
    fn bump_pair(&mut self, k: (String, String))
        requires
            old(self).wf(),
            lex_le(k.0@, k.1@),
            count_in(old(self).couplings(), (k.0@, k.1@)) < u64::MAX,
        ensures
            final(self).wf(),
            final(self).hotzones() == old(self).hotzones(),
            final(self).couplings() == old(self).couplings().insert(
                (k.0@, k.1@),
                (count_in(old(self).couplings(), (k.0@, k.1@)) + 1) as u64,
            ),
    {
        let ghost kk = (k.0@, k.1@);
        match self.coupling_index(&k) {
            Some(i) => {
                let ghost s = self.coupling_counts@;
                proof {
                    lemma_entry_lookup(s, pair_view(), i as int);
                }
                let n = self.coupling_counts[i].1;
                self.coupling_counts.set(i, (k, n + 1));
                proof {
                    let e = self.coupling_counts@[i as int];
                    assert(self.coupling_counts@ =~= s.update(i as int, e));
                    lemma_entry_set(s, pair_view(), i as int, e);
                }
            },
            None => {
                let ghost s = self.coupling_counts@;
                self.coupling_counts.push((k, 1));
                proof {
                    lemma_entry_push(s, pair_view(), (self.coupling_counts@.last().0, 1u64));
                    assert(self.coupling_counts@ == s.push(self.coupling_counts@.last()));
                }
            },
        }
        proof {
            assert forall|q: (Seq<char>, Seq<char>)| self.couplings().dom().contains(q) implies lex_le(q.0, q.1) by {
                if q != kk {
                    assert(old(self).couplings().dom().contains(q));
                }
            }
        }
    }

    /// A conflict over `paths`: each listed path's count goes up by its
    /// number of occurrences, and every pair of listed paths co-occurs once.
    pub fn record_conflict(&mut self, paths: &[String])
        requires
            old(self).wf(),
            old(self).can_record_conflict(strs(paths@)),
        ensures
            final(self).wf(),
            forall|p: Seq<char>| #[trigger] count_in(final(self).hotzones(), p) == count_in(old(self).hotzones(), p) + occurrences(strs(paths@), p),
            forall|p: Seq<char>| #[trigger] final(self).hotzones().dom().contains(p) <==> (old(self).hotzones().dom().contains(p) || strs(paths@).contains(p)),
            forall|k: (Seq<char>, Seq<char>)| #[trigger] count_in(final(self).couplings(), k) == count_in(old(self).couplings(), k) + pair_occurrences(strs(paths@), k),
            forall|k: (Seq<char>, Seq<char>)| #[trigger] final(self).couplings().dom().contains(k) <==> (old(self).couplings().dom().contains(k) || pair_occurrences(strs(paths@), k) > 0),
    {
        let ghost f = strs(paths@);
        let ghost hz0 = self.hotzones();
        let mut i: usize = 0;
        while i < paths.len()
            invariant
                i <= paths@.len(),
                f == strs(paths@),
                self.wf(),
                self.couplings() == old(self).couplings(),
                forall|p: Seq<char>| count_in(hz0, p) + #[trigger] occurrences(f, p) <= u64::MAX,
                forall|p: Seq<char>| #[trigger] count_in(self.hotzones(), p) == count_in(hz0, p) + occurrences(f.subrange(0, i as int), p),
                forall|p: Seq<char>| #[trigger] self.hotzones().dom().contains(p) <==> (hz0.dom().contains(p) || f.subrange(0, i as int).contains(p)),
            decreases paths.len() - i,
        {
            let ghost pre = f.subrange(0, i + 1);
            let ghost x = paths@[i as int]@;
            proof {
                assert(pre.drop_last() =~= f.subrange(0, i as int));
                assert(pre.last() == x);
                lemma_occurrences_prefix(f, i as int + 1, x);
                lemma_occurrences_mono(f, i as int + 1, x);
                assert(count_in(self.hotzones(), x) == count_in(hz0, x) + occurrences(f.subrange(0, i as int), x));
                assert(count_in(hz0, x) + occurrences(f, x) <= u64::MAX);
            }
            let ghost before = self.hotzones();
            self.bump_hotzone(paths[i].as_str());
            proof {
                assert forall|p: Seq<char>| #[trigger] count_in(self.hotzones(), p) == count_in(hz0, p) + occurrences(pre, p) by {
                    lemma_occurrences_prefix(f, i as int + 1, p);
                    if p != x {
                        assert(count_in(self.hotzones(), p) == count_in(before, p));
                    }
                }
                assert forall|p: Seq<char>| #[trigger] self.hotzones().dom().contains(p) <==> (hz0.dom().contains(p) || pre.contains(p)) by {
                    if pre.contains(p) && !f.subrange(0, i as int).contains(p) {
                        let j = choose|j: int| 0 <= j < pre.len() && pre[j] == p;
                        if j < i {
                            assert(f.subrange(0, i as int)[j] == p);
                        }
                    }
                    if f.subrange(0, i as int).contains(p) {
                        let j = choose|j: int| 0 <= j < i && f.subrange(0, i as int)[j] == p;
                        assert(pre[j] == p);
                    }
                    if p == paths@[i as int]@ {
                        assert(pre[i as int] == p);
                    }
                }
            }
            i = i + 1;
        }
        assert(f.subrange(0, paths@.len() as int) =~= f);
        self.accrue_pairs(paths);
    }

    /// Files claimed together: every pair of them co-occurs once.
    pub fn record_claim_files(&mut self, files: &[String])
        requires
            old(self).wf(),
            old(self).can_record_pairs(strs(files@)),
        ensures
            final(self).wf(),
            final(self).hotzones() == old(self).hotzones(),
            forall|k: (Seq<char>, Seq<char>)| #[trigger] count_in(final(self).couplings(), k) == count_in(old(self).couplings(), k) + pair_occurrences(strs(files@), k),
            forall|k: (Seq<char>, Seq<char>)| #[trigger] final(self).couplings().dom().contains(k) <==> (old(self).couplings().dom().contains(k) || pair_occurrences(strs(files@), k) > 0),
    {
        self.accrue_pairs(files);
    }

    /// Files newly touched together with the claim's earlier files: each pair
    /// among the new files and each pair of an earlier file with a new one
    /// counts once more (see `cotouch_pairs`).
    pub fn record_cotouch(&mut self, before: &[String], new: &[String])
        requires
            old(self).wf(),
            forall|k: (Seq<char>, Seq<char>)|
                count_in(old(self).couplings(), k) + #[trigger] cotouch_pairs(strs(before@), strs(new@), k) <= u64::MAX,
        ensures
            final(self).wf(),
            final(self).hotzones() == old(self).hotzones(),
            forall|k: (Seq<char>, Seq<char>)| #[trigger] count_in(final(self).couplings(), k) == count_in(old(self).couplings(), k) + cotouch_pairs(strs(before@), strs(new@), k),
            forall|k: (Seq<char>, Seq<char>)| #[trigger] final(self).couplings().dom().contains(k) <==> (old(self).couplings().dom().contains(k) || cotouch_pairs(strs(before@), strs(new@), k) > 0),
    {
        let ghost b = strs(before@);
        let ghost f = strs(new@);
        let ghost cp_start = self.couplings();
        proof {
            assert forall|k: (Seq<char>, Seq<char>)| count_in(cp_start, k) + #[trigger] pair_occurrences(f, k) <= u64::MAX by {
                assert(count_in(cp_start, k) + cotouch_pairs(b, f, k) <= u64::MAX);
            }
        }
        self.accrue_pairs(new);
        let ghost cp0 = self.couplings();
        let m = before.len();
        let n = new.len();
        proof {
            assert forall|k: (Seq<char>, Seq<char>)| count_in(cp0, k) + #[trigger] cross_pairs(b, f, n as int, k) <= u64::MAX by {
                assert(count_in(cp_start, k) + cotouch_pairs(b, f, k) <= u64::MAX);
            }
        }
        let mut j: usize = 0;
        while j < n
            invariant
                m == before@.len(),
                n == new@.len(),
                b == strs(before@),
                f == strs(new@),
                j <= n,
                self.wf(),
                self.hotzones() == old(self).hotzones(),
                forall|k: (Seq<char>, Seq<char>)| count_in(cp0, k) + #[trigger] cross_pairs(b, f, n as int, k) <= u64::MAX,
                forall|k: (Seq<char>, Seq<char>)| #[trigger] count_in(self.couplings(), k) == count_in(cp0, k) + cross_pairs(b, f, j as int, k),
                forall|k: (Seq<char>, Seq<char>)| #[trigger] self.couplings().dom().contains(k) <==> (cp0.dom().contains(k) || cross_pairs(b, f, j as int, k) > 0),
            decreases n - j,
        {
            let mut q: usize = 0;
            while q < m
                invariant
                    m == before@.len(),
                    n == new@.len(),
                    b == strs(before@),
                    f == strs(new@),
                    j < n,
                    q <= m,
                    self.wf(),
                    self.hotzones() == old(self).hotzones(),
                    forall|k: (Seq<char>, Seq<char>)| count_in(cp0, k) + #[trigger] cross_pairs(b, f, n as int, k) <= u64::MAX,
                    forall|k: (Seq<char>, Seq<char>)| #[trigger] count_in(self.couplings(), k) == count_in(cp0, k) + cross_pairs(b, f, j as int, k) + cross_row(b, q as int, f[j as int], k),
                    forall|k: (Seq<char>, Seq<char>)| #[trigger] self.couplings().dom().contains(k) <==> (cp0.dom().contains(k) || cross_pairs(b, f, j as int, k) + cross_row(b, q as int, f[j as int], k) > 0),
                decreases m - q,
            {
                let k = key(before[q].as_str(), new[j].as_str());
                let ghost kk = (k.0@, k.1@);
                proof {
                    assert(b[q as int] == before@[q as int]@ && f[j as int] == new@[j as int]@);
                    assert(kk == pair_key(b[q as int], f[j as int]));
                    lemma_pair_key_symmetric(b[q as int], f[j as int]);
                    lemma_cross_row_mono(b, q + 1, m as int, f[j as int], kk);
                    lemma_cross_pairs_mono(b, f, j + 1, n as int, kk);
                    assert(cross_row(b, q + 1, f[j as int], kk) == cross_row(b, q as int, f[j as int], kk) + 1);
                    assert(cross_pairs(b, f, j + 1, kk) == cross_pairs(b, f, j as int, kk) + cross_row(b, m as int, f[j as int], kk));
                    assert(count_in(self.couplings(), kk) < u64::MAX);
                }
                let ghost prev = self.couplings();
                self.bump_pair(k);
                proof {
                    assert(count_in(self.couplings(), kk) == count_in(prev, kk) + 1);
                    assert forall|x: (Seq<char>, Seq<char>)| x != kk implies #[trigger] count_in(self.couplings(), x) == count_in(prev, x) by {}
                    assert forall|x: (Seq<char>, Seq<char>)| #[trigger] count_in(self.couplings(), x) == count_in(cp0, x) + cross_pairs(b, f, j as int, x) + cross_row(b, q + 1, f[j as int], x) by {
                        assert(cross_row(b, q + 1, f[j as int], x) == cross_row(b, q as int, f[j as int], x) + if pair_key(b[q as int], f[j as int]) == x { 1nat } else { 0nat });
                    }
                    assert forall|x: (Seq<char>, Seq<char>)| #[trigger] self.couplings().dom().contains(x) <==> (cp0.dom().contains(x) || cross_pairs(b, f, j as int, x) + cross_row(b, q + 1, f[j as int], x) > 0) by {
                        assert(cross_row(b, q + 1, f[j as int], x) == cross_row(b, q as int, f[j as int], x) + if pair_key(b[q as int], f[j as int]) == x { 1nat } else { 0nat });
                    }
                }
                q = q + 1;
            }
            proof {
                assert forall|x: (Seq<char>, Seq<char>)| #[trigger] cross_pairs(b, f, j + 1, x) == cross_pairs(b, f, j as int, x) + cross_row(b, m as int, f[j as int], x) by {}
            }
            j = j + 1;
        }
        proof {
            assert forall|x: (Seq<char>, Seq<char>)| #[trigger] count_in(self.couplings(), x) == count_in(cp_start, x) + cotouch_pairs(b, f, x) by {
                assert(count_in(cp0, x) == count_in(cp_start, x) + pair_occurrences(f, x));
            }
            assert forall|x: (Seq<char>, Seq<char>)| #[trigger] self.couplings().dom().contains(x) <==> (cp_start.dom().contains(x) || cotouch_pairs(b, f, x) > 0) by {
                assert(cp0.dom().contains(x) <==> (cp_start.dom().contains(x) || pair_occurrences(f, x) > 0));
            }
        }
    }

    fn accrue_pairs(&mut self, files: &[String])
        requires
            old(self).wf(),
            old(self).can_record_pairs(strs(files@)),
        ensures
            final(self).wf(),
            final(self).hotzones() == old(self).hotzones(),
            forall|k: (Seq<char>, Seq<char>)| #[trigger] count_in(final(self).couplings(), k) == count_in(old(self).couplings(), k) + pair_occurrences(strs(files@), k),
            forall|k: (Seq<char>, Seq<char>)| #[trigger] final(self).couplings().dom().contains(k) <==> (old(self).couplings().dom().contains(k) || pair_occurrences(strs(files@), k) > 0),
    {
        let ghost f = strs(files@);
        let ghost cp0 = self.couplings();
        let n = files.len();
        proof {
            assert forall|k: (Seq<char>, Seq<char>)| count_in(cp0, k) + #[trigger] pairs_before(f, n as int, k) <= u64::MAX by {
                assert(pair_occurrences(f, k) == pairs_before(f, n as int, k));
            }
            assert forall|k: (Seq<char>, Seq<char>)| #[trigger] count_in(self.couplings(), k) == count_in(cp0, k) + pairs_before(f, 0, k) by {}
            assert forall|k: (Seq<char>, Seq<char>)| #[trigger] self.couplings().dom().contains(k) <==> (cp0.dom().contains(k) || pairs_before(f, 0, k) > 0) by {}
        }
        let mut i: usize = 0;
        while i < n
            invariant
                n == files@.len(),
                f == strs(files@),
                i <= n,
                self.wf(),
                self.hotzones() == old(self).hotzones(),
                forall|k: (Seq<char>, Seq<char>)| count_in(cp0, k) + #[trigger] pairs_before(f, n as int, k) <= u64::MAX,
                forall|k: (Seq<char>, Seq<char>)| #[trigger] count_in(self.couplings(), k) == count_in(cp0, k) + pairs_before(f, i as int, k),
                forall|k: (Seq<char>, Seq<char>)| #[trigger] self.couplings().dom().contains(k) <==> (cp0.dom().contains(k) || pairs_before(f, i as int, k) > 0),
            decreases n - i,
        {
            let mut j: usize = i + 1;
            while j < n
                invariant
                    n == files@.len(),
                    f == strs(files@),
                    i < n,
                    i + 1 <= j <= n,
                    self.wf(),
                    self.hotzones() == old(self).hotzones(),
                    forall|k: (Seq<char>, Seq<char>)| count_in(cp0, k) + #[trigger] pairs_before(f, n as int, k) <= u64::MAX,
                    forall|k: (Seq<char>, Seq<char>)| #[trigger] count_in(self.couplings(), k) == count_in(cp0, k) + pairs_before(f, i as int, k) + row_count(f, i as int, j as int, k),
                    forall|k: (Seq<char>, Seq<char>)| #[trigger] self.couplings().dom().contains(k) <==> (cp0.dom().contains(k) || pairs_before(f, i as int, k) + row_count(f, i as int, j as int, k) > 0),
                decreases n - j,
            {
                let k = key(files[i].as_str(), files[j].as_str());
                let ghost kk = (k.0@, k.1@);
                proof {
                    assert(f[i as int] == files@[i as int]@ && f[j as int] == files@[j as int]@);
                    assert(kk == pair_key(f[i as int], f[j as int]));
                    lemma_pair_key_symmetric(f[i as int], f[j as int]);
                    lemma_row_mono(f, i as int, j + 1, n as int, kk);
                    lemma_pairs_mono(f, i + 1, n as int, kk);
                    assert(pairs_before(f, i + 1, kk) == pairs_before(f, i as int, kk) + row_count(f, i as int, n as int, kk));
                    assert(row_count(f, i as int, j + 1, kk) == row_count(f, i as int, j as int, kk) + 1);
                }
                proof {
                    assert(count_in(self.couplings(), kk) == count_in(cp0, kk) + pairs_before(f, i as int, kk) + row_count(f, i as int, j as int, kk));
                    assert(count_in(self.couplings(), kk) < u64::MAX);
                }
                let ghost before = self.couplings();
                self.bump_pair(k);
                proof {
                    assert(count_in(self.couplings(), kk) == count_in(before, kk) + 1);
                    assert forall|q: (Seq<char>, Seq<char>)| q != kk implies #[trigger] count_in(self.couplings(), q) == count_in(before, q) by {}
                    assert forall|q: (Seq<char>, Seq<char>)| #[trigger] count_in(self.couplings(), q) == count_in(cp0, q) + pairs_before(f, i as int, q) + row_count(f, i as int, j + 1, q) by {
                        assert(row_count(f, i as int, j + 1, q) == row_count(f, i as int, j as int, q) + if pair_key(f[i as int], f[j as int]) == q { 1nat } else { 0nat });
                    }
                    assert forall|q: (Seq<char>, Seq<char>)| #[trigger] self.couplings().dom().contains(q) <==> (cp0.dom().contains(q) || pairs_before(f, i as int, q) + row_count(f, i as int, j + 1, q) > 0) by {
                        assert(row_count(f, i as int, j + 1, q) == row_count(f, i as int, j as int, q) + if pair_key(f[i as int], f[j as int]) == q { 1nat } else { 0nat });
                    }
                }
                j = j + 1;
            }
            proof {
                assert forall|q: (Seq<char>, Seq<char>)| #[trigger] pairs_before(f, i + 1, q) == pairs_before(f, i as int, q) + row_count(f, i as int, n as int, q) by {}
            }
            i = i + 1;
        }
    }

    pub fn hotzone_count(&self, path: &str) -> (r: u64)
        requires
            self.wf(),
        ensures
            r == count_in(self.hotzones(), path@),
    {
        match self.hotzone_index(path) {
            Some(i) => {
                proof {
                    lemma_entry_lookup(self.hotzone_counts@, str_key(), i as int);
                }
                self.hotzone_counts[i].1
            },
            None => 0,
        }
    }

    /// Co-occurrence count of two files, in either order.
    pub fn coupling_count(&self, a: &str, b: &str) -> (r: u64)
        requires
            self.wf(),
        ensures
            r == count_in(self.couplings(), pair_key(a@, b@)),
    {
        let k = key(a, b);
        match self.coupling_index(&k) {
            Some(i) => {
                proof {
                    lemma_entry_lookup(self.coupling_counts@, pair_view(), i as int);
                }
                self.coupling_counts[i].1
            },
            None => 0,
        }
    }

    /// The conflict counts, one entry per file.
    pub fn hotzone_entries(&self) -> (r: Vec<(String, u64)>)
        requires
            self.wf(),
        ensures
            keys_distinct(r@, str_key()),
            entry_map(r@, str_key()) == self.hotzones(),
    {
        let mut out: Vec<(String, u64)> = Vec::new();
        let mut i: usize = 0;
        while i < self.hotzone_counts.len()
            invariant
                i <= self.hotzone_counts@.len(),
                out@.len() == i,
                forall|j: int| 0 <= j < i ==> (#[trigger] out@[j]).0@ == self.hotzone_counts@[j].0@ && out@[j].1 == self.hotzone_counts@[j].1,
            decreases self.hotzone_counts.len() - i,
        {
            let e = &self.hotzone_counts[i];
            out.push((e.0.clone(), e.1));
            i = i + 1;
        }
        proof {
            lemma_same_entries(out@, self.hotzone_counts@, str_key());
        }
        out
    }

    /// The co-occurrence counts, one entry per ordered pair of files.
    pub fn coupling_entries(&self) -> (r: Vec<((String, String), u64)>)
        requires
            self.wf(),
        ensures
            keys_distinct(r@, pair_view()),
            entry_map(r@, pair_view()) == self.couplings(),
    {
        let mut out: Vec<((String, String), u64)> = Vec::new();
        let mut i: usize = 0;
        while i < self.coupling_counts.len()
            invariant
                i <= self.coupling_counts@.len(),
                out@.len() == i,
                forall|j: int| 0 <= j < i ==> pair_view()((#[trigger] out@[j]).0) == pair_view()(self.coupling_counts@[j].0) && out@[j].1 == self.coupling_counts@[j].1,
            decreases self.coupling_counts.len() - i,
        {
            let e = &self.coupling_counts[i];
            out.push(((e.0.0.clone(), e.0.1.clone()), e.1));
            i = i + 1;
        }
        proof {
            lemma_same_entries(out@, self.coupling_counts@, pair_view());
        }
        out
    }

    /// A store holding loaded counts: each hotzone entry and each coupling
    /// edge is inserted in turn (a later entry for the same key wins); an
    /// edge is filed under its ordered pair.
    pub fn from_counts(hotzones: Vec<(String, u64)>, edges: Vec<(String, String, u64)>) -> (r: Self)
        ensures
            r.wf(),
            r.hotzones() == inserted(hotzones@.map_values(|e: (String, u64)| (e.0@, e.1))),
            r.couplings() == inserted(edges@.map_values(|e: (String, String, u64)| (pair_key(e.0@, e.1@), e.2))),
    {
        let mut store = KnowledgeStore::new();
        let ghost hs = hotzones@.map_values(|e: (String, u64)| (e.0@, e.1));
        let mut i: usize = 0;
        while i < hotzones.len()
            invariant
                i <= hotzones@.len(),
                hs == hotzones@.map_values(|e: (String, u64)| (e.0@, e.1)),
                store.wf(),
                store.hotzones() == inserted(hs.subrange(0, i as int)),
                store.couplings() == Map::<(Seq<char>, Seq<char>), u64>::empty(),
            decreases hotzones.len() - i,
        {
            store.set_hotzone(hotzones[i].0.as_str(), hotzones[i].1);
            assert(hs.subrange(0, i + 1).drop_last() =~= hs.subrange(0, i as int));
            i = i + 1;
        }
        assert(hs.subrange(0, hotzones@.len() as int) =~= hs);
        let ghost es = edges@.map_values(|e: (String, String, u64)| (pair_key(e.0@, e.1@), e.2));
        let mut j: usize = 0;
        while j < edges.len()
            invariant
                j <= edges@.len(),
                es == edges@.map_values(|e: (String, String, u64)| (pair_key(e.0@, e.1@), e.2)),
                store.wf(),
                store.hotzones() == inserted(hs),
                store.couplings() == inserted(es.subrange(0, j as int)),
            decreases edges.len() - j,
        {
            let k = key(edges[j].0.as_str(), edges[j].1.as_str());
            proof {
                lemma_pair_key_symmetric(edges@[j as int].0@, edges@[j as int].1@);
            }
            store.set_pair(k, edges[j].2);
            assert(es.subrange(0, j + 1).drop_last() =~= es.subrange(0, j as int));
            j = j + 1;
        }
        assert(es.subrange(0, edges@.len() as int) =~= es);
        store
    }

    fn set_hotzone(&mut self, path: &str, n: u64)
        requires
            old(self).wf(),
        ensures
            final(self).wf(),
            final(self).couplings() == old(self).couplings(),
            final(self).hotzones() == old(self).hotzones().insert(path@, n),
    {
        let ghost cp = self.coupling_counts@;
        match self.hotzone_index(path) {
            Some(i) => {
                let ghost s = self.hotzone_counts@;
                let name = self.hotzone_counts[i].0.clone();
                self.hotzone_counts.set(i, (name, n));
                proof {
                    assert(self.hotzone_counts@ == s.update(i as int, (s[i as int].0, n)));
                    lemma_entry_set(s, str_key(), i as int, (s[i as int].0, n));
                }
            },
            None => {
                let ghost s = self.hotzone_counts@;
                self.hotzone_counts.push((owned(path), n));
                proof {
                    lemma_entry_push(s, str_key(), (self.hotzone_counts@.last().0, n));
                    assert(self.hotzone_counts@ == s.push(self.hotzone_counts@.last()));
                }
            },
        }
        assert(self.coupling_counts@ == cp);
        assert(keys_distinct(self.hotzone_counts@, str_key()));
        assert(keys_distinct(self.coupling_counts@, pair_view()));
        assert(self.couplings() == old(self).couplings());
        assert(forall|k: (Seq<char>, Seq<char>)| self.couplings().dom().contains(k) ==> lex_le(k.0, k.1));
    }

    fn set_pair(&mut self, k: (String, String), n: u64)
        requires
            old(self).wf(),
            lex_le(k.0@, k.1@),
        ensures
            final(self).wf(),
            final(self).hotzones() == old(self).hotzones(),
            final(self).couplings() == old(self).couplings().insert((k.0@, k.1@), n),
    {
        let ghost kk = (k.0@, k.1@);
        match self.coupling_index(&k) {
            Some(i) => {
                let ghost s = self.coupling_counts@;
                self.coupling_counts.set(i, (k, n));
                proof {
                    let e = self.coupling_counts@[i as int];
                    assert(self.coupling_counts@ =~= s.update(i as int, e));
                    lemma_entry_set(s, pair_view(), i as int, e);
                }
            },
            None => {
                let ghost s = self.coupling_counts@;
                self.coupling_counts.push((k, n));
                proof {
                    lemma_entry_push(s, pair_view(), (self.coupling_counts@.last().0, n));
                    assert(self.coupling_counts@ == s.push(self.coupling_counts@.last()));
                }
            },
        }
        proof {
            assert forall|q: (Seq<char>, Seq<char>)| self.couplings().dom().contains(q) implies lex_le(q.0, q.1) by {
                if q != kk {
                    assert(old(self).couplings().dom().contains(q));
                }
            }
        }
    }
}

proof fn lemma_occurrences_mono(f: Seq<Seq<char>>, n: int, x: Seq<char>)
    requires
        0 <= n <= f.len(),
    ensures
        occurrences(f.subrange(0, n), x) <= occurrences(f, x),
    decreases f.len() - n,
{
    if n < f.len() {
        lemma_occurrences_mono(f, n + 1, x);
        lemma_occurrences_prefix(f, n + 1, x);
    } else {
        assert(f.subrange(0, n) =~= f);
    }
}

proof fn lemma_occurrences_prefix(f: Seq<Seq<char>>, n: int, x: Seq<char>)
    requires
        0 < n <= f.len(),
    ensures
        occurrences(f.subrange(0, n), x) == occurrences(f.subrange(0, n - 1), x) + if f[n - 1] == x { 1nat } else { 0nat },
{
    assert(f.subrange(0, n).drop_last() =~= f.subrange(0, n - 1));
}

/// Lists with the same keys and values, position by position, stand for the same map.
proof fn lemma_same_entries<K, KV, V>(a: Seq<(K, V)>, b: Seq<(K, V)>, kv: spec_fn(K) -> KV)
    requires
        a.len() == b.len(),
        keys_distinct(b, kv),
        forall|j: int| 0 <= j < a.len() ==> kv((#[trigger] a[j]).0) == kv(b[j].0) && a[j].1 == b[j].1,
    ensures
        keys_distinct(a, kv),
        entry_map(a, kv) == entry_map(b, kv),
{
    assert forall|x: int, y: int| 0 <= x < y < a.len() implies kv((#[trigger] a[x]).0) != kv((#[trigger] a[y]).0) by {
        assert(kv(a[x].0) == kv(b[x].0) && kv(a[y].0) == kv(b[y].0));
    }
    let ma = entry_map(a, kv);
    let mb = entry_map(b, kv);
    assert forall|k: KV| ma.dom().contains(k) <==> mb.dom().contains(k) by {
        if has_key(a, kv, k) {
            let j = choose|j: int| 0 <= j < a.len() && kv((#[trigger] a[j]).0) == k;
            assert(kv(b[j].0) == k);
        }
        if has_key(b, kv, k) {
            let j = choose|j: int| 0 <= j < b.len() && kv((#[trigger] b[j]).0) == k;
            assert(kv(a[j].0) == k);
        }
    }
    assert forall|k: KV| ma.dom().contains(k) implies ma[k] == mb[k] by {
        let j = choose|j: int| 0 <= j < a.len() && kv((#[trigger] a[j]).0) == k;
        lemma_entry_lookup(a, kv, j);
        lemma_entry_lookup(b, kv, j);
    }
    assert(ma =~= mb);
}

/// Co-occurrence is direction-independent: the count for `a` with `b` is the
/// count for `b` with `a`.
pub proof fn law_coupling_symmetric(store: &KnowledgeStore, a: Seq<char>, b: Seq<char>)
    ensures
        count_in(store.couplings(), pair_key(a, b)) == count_in(store.couplings(), pair_key(b, a)),
{
    lemma_pair_key_symmetric(a, b);
}

/// Writing the counts out as entries and loading them back gives the same counts.
pub proof fn law_entries_round_trip(hz: Seq<(String, u64)>, cp: Seq<((String, String), u64)>)
    requires
        keys_distinct(hz, str_key()),
        keys_distinct(cp, pair_view()),
        forall|i: int| 0 <= i < cp.len() ==> lex_le((#[trigger] cp[i]).0.0@, cp[i].0.1@),
    ensures
        inserted(hz.map_values(|e: (String, u64)| (e.0@, e.1))) == entry_map(hz, str_key()),
        inserted(cp.map_values(|e: ((String, String), u64)| (pair_key(e.0.0@, e.0.1@), e.1))) == entry_map(cp, pair_view()),
    decreases hz.len() + cp.len(),
{
    lemma_inserted_distinct(hz, str_key(), |e: (String, u64)| (e.0@, e.1));
    assert forall|i: int| 0 <= i < cp.len() implies pair_key((#[trigger] cp[i]).0.0@, cp[i].0.1@) == pair_view()(cp[i].0) by {
        lemma_pair_key_symmetric(cp[i].0.0@, cp[i].0.1@);
    }
    lemma_inserted_distinct(cp, pair_view(), |e: ((String, String), u64)| (pair_key(e.0.0@, e.0.1@), e.1));
}

proof fn lemma_inserted_distinct<K, KV>(s: Seq<(K, u64)>, kv: spec_fn(K) -> KV, f: spec_fn((K, u64)) -> (KV, u64))
    requires
        keys_distinct(s, kv),
        forall|i: int| 0 <= i < s.len() ==> #[trigger] f(s[i]) == (kv(s[i].0), s[i].1),
    ensures
        inserted(s.map_values(f)) == entry_map(s, kv),
    decreases s.len(),
{
    if s.len() == 0 {
        assert(s.map_values(f) =~= Seq::<(KV, u64)>::empty());
        lemma_entry_empty::<K, KV, u64>(kv);
        assert(entry_map(s, kv) =~= Map::<KV, u64>::empty());
    } else {
        let t = s.drop_last();
        assert forall|a: int, b: int| 0 <= a < b < t.len() implies kv((#[trigger] t[a]).0) != kv((#[trigger] t[b]).0) by {
            assert(t[a] == s[a] && t[b] == s[b]);
        }
        assert forall|i: int| 0 <= i < t.len() implies #[trigger] f(t[i]) == (kv(t[i].0), t[i].1) by {
            assert(t[i] == s[i]);
        }
        lemma_inserted_distinct(t, kv, f);
        assert(s.map_values(f).drop_last() =~= t.map_values(f));
        assert(s.map_values(f).last() == f(s.last()));
        if has_key(t, kv, kv(s.last().0)) {
            let j = choose|j: int| 0 <= j < t.len() && kv((#[trigger] t[j]).0) == kv(s.last().0);
            assert(s[j] == t[j]);
            assert(kv(s[j].0) != kv(s[s.len() - 1].0));
        }
        lemma_entry_push(t, kv, s.last());
        assert(s =~= t.push(s.last()));
    }
}

} // verus!
