//! The current heat between pairs of agents, one edge per unordered pair.

use vstd::prelude::*;
use crate::conflict::{key, pair_key, lemma_pair_key_symmetric};
use crate::entries::{keys_distinct, has_key, entry_map, lemma_entry_lookup, lemma_entry_set, lemma_entry_push, lemma_entry_empty, lemma_entry_len};
use crate::heat::{HeatBand, HeatResult, HeatResultView};
use crate::knowledge::pair_view;
use crate::text::{str_eq, owned};

verus! {

/// The edge touches `agent`.
pub open spec fn touches(k: (Seq<char>, Seq<char>), agent: Seq<char>) -> bool {
    k.0 == agent || k.1 == agent
}

/// One row of a snapshot: a pair of agents and their heat.
pub struct HeatEdge {
    pub a: String,
    pub b: String,
    pub heat: u32,
    pub band: HeatBand,
}

pub struct HeatStore {
    edges: Vec<((String, String), HeatResult)>,
}

impl View for HeatStore {
    type V = Map<(Seq<char>, Seq<char>), HeatResultView>;

    closed spec fn view(&self) -> Map<(Seq<char>, Seq<char>), HeatResultView> {
        entry_map(self.edges@, pair_view()).map_values(|r: HeatResult| r@)
    }
}

impl HeatStore {
    /// Each unordered pair has at most one edge.
    pub closed spec fn wf(&self) -> bool {
        keys_distinct(self.edges@, pair_view())
    }

    proof fn lemma_view_len(&self)
        requires
            self.wf(),
        ensures
            self@.dom().finite(),
            self@.len() == self.edges@.len(),
    {
        lemma_entry_len(self.edges@, pair_view());
        assert(self@.dom() =~= entry_map(self.edges@, pair_view()).dom());
    }

    pub fn new() -> (r: Self)
        ensures
            r.wf(),
            r@ == Map::<(Seq<char>, Seq<char>), HeatResultView>::empty(),
    {
        let r = HeatStore { edges: Vec::new() };
        proof {
            lemma_entry_empty::<(String, String), (Seq<char>, Seq<char>), HeatResult>(pair_view());
            assert(r@ =~= Map::<(Seq<char>, Seq<char>), HeatResultView>::empty());
        }
        r
    }

    fn find(&self, k: &(String, String)) -> (r: Option<usize>)
        ensures
            match r {
                Some(i) => i < self.edges@.len() && pair_view()(self.edges@[i as int].0) == pair_view()(*k),
                None => !has_key(self.edges@, pair_view(), pair_view()(*k)),
            },
    {
        let mut i: usize = 0;
        while i < self.edges.len()
            invariant
                i <= self.edges@.len(),
                forall|j: int| 0 <= j < i ==> pair_view()((#[trigger] self.edges@[j]).0) != pair_view()(*k),
            decreases self.edges.len() - i,
        {
            let e = &self.edges[i].0;
            if str_eq(e.0.as_str(), k.0.as_str()) && str_eq(e.1.as_str(), k.1.as_str()) {
                return Some(i);
            }
            i = i + 1;
        }
        None
    }

    /// Sets the edge between `a` and `b` (in either order) to `result`.
    pub fn upsert(&mut self, a: &str, b: &str, result: HeatResult)
        requires
            old(self).wf(),
        ensures
            final(self).wf(),
            final(self)@ == old(self)@.insert(pair_key(a@, b@), result@),
    {
        let k = key(a, b);
        let ghost kv = pair_view();
        let ghost old_s = self.edges@;
        let ghost rv = result@;
        match self.find(&k) {
            Some(i) => {
                let ghost e = (k, result);
                let _ = self.edges.remove(i);
                self.edges.insert(i, (k, result));
                proof {
                    assert(self.edges@ =~= old_s.update(i as int, e));
                    lemma_entry_set(old_s, kv, i as int, e);
                }
            },
            None => {
                let ghost e = (k, result);
                self.edges.push((k, result));
                proof {
                    lemma_entry_push(old_s, kv, e);
                }
            },
        }
        proof {
            assert(self@ =~= old(self)@.insert(pair_key(a@, b@), rv));
        }
    }

    /// The edge between `a` and `b` (in either order), if any.
    pub fn get(&self, a: &str, b: &str) -> (r: Option<&HeatResult>)
        requires
            self.wf(),
        ensures
            match r {
                Some(x) => self@.dom().contains(pair_key(a@, b@)) && self@[pair_key(a@, b@)] == x@,
                None => !self@.dom().contains(pair_key(a@, b@)),
            },
    {
        let k = key(a, b);
        match self.find(&k) {
            Some(i) => {
                proof {
                    lemma_entry_lookup(self.edges@, pair_view(), i as int);
                }
                Some(&self.edges[i].1)
            },
            None => None,
        }
    }

    /// Drops every edge touching `agent`; returns how many were dropped.
    pub fn remove_agent(&mut self, agent: &str) -> (r: usize)
        requires
            old(self).wf(),
        ensures
            final(self).wf(),
            final(self)@ == old(self)@.restrict(old(self)@.dom().filter(|k: (Seq<char>, Seq<char>)| !touches(k, agent@))),
            r == old(self)@.len() - final(self)@.len(),
    {
        let ghost kv = pair_view();
        let ghost s = self.edges@;
        let ghost keep = |k: (Seq<char>, Seq<char>)| !touches(k, agent@);
        let mut old_edges: Vec<((String, String), HeatResult)> = Vec::new();
        std::mem::swap(&mut old_edges, &mut self.edges);
        let n = old_edges.len();
        let mut kept: Vec<((String, String), HeatResult)> = Vec::new();
        let mut rest = old_edges;
        let mut i: usize = 0;
        while i < n
            invariant
                n == s.len(),
                i <= n,
                keep == (|k: (Seq<char>, Seq<char>)| !touches(k, agent@)),
                keys_distinct(s, kv),
                kv == pair_view(),
                rest@ == s.subrange(i as int, n as int),
                keys_distinct(kept@, kv),
                kept@.len() <= i,
                entry_map(kept@, kv) == entry_map(s.subrange(0, i as int), kv).restrict(
                    entry_map(s.subrange(0, i as int), kv).dom().filter(keep),
                ),
            decreases n - i,
        {
            let e = rest.remove(0);
            let ghost pre = s.subrange(0, i as int);
            let ghost post = s.subrange(0, i + 1);
            proof {
                assert(e == s[i as int]);
                assert(rest@ =~= s.subrange(i + 1, n as int));
                assert(post =~= pre.push(e));
                assert(keys_distinct(pre, kv)) by {
                    assert forall|x: int, y: int| 0 <= x < y < pre.len() implies kv((#[trigger] pre[x]).0) != kv((#[trigger] pre[y]).0) by {
                        assert(pre[x] == s[x] && pre[y] == s[y]);
                    }
                }
                assert(!has_key(pre, kv, kv(e.0))) by {
                    if has_key(pre, kv, kv(e.0)) {
                        let j = choose|j: int| 0 <= j < pre.len() && kv((#[trigger] pre[j]).0) == kv(e.0);
                        assert(pre[j] == s[j]);
                    }
                }
                lemma_entry_push(pre, kv, e);
            }
            let touching = str_eq((e.0).0.as_str(), agent) || str_eq((e.0).1.as_str(), agent);
            let ghost before = kept@;
            if !touching {
                proof {
                    assert(!has_key(before, kv, kv(e.0))) by {
                        if has_key(before, kv, kv(e.0)) {
                            let j = choose|j: int| 0 <= j < before.len() && kv((#[trigger] before[j]).0) == kv(e.0);
                            lemma_entry_lookup(before, kv, j);
                        }
                    }
                    lemma_entry_push(before, kv, e);
                }
                kept.push(e);
            }
            proof {
                let m_pre = entry_map(pre, kv);
                let m_post = entry_map(post, kv);
                assert(entry_map(kept@, kv) =~= m_post.restrict(m_post.dom().filter(keep)));
            }
            i = i + 1;
        }
        let ghost kept_s = kept@;
        let removed = n - kept.len();
        self.edges = kept;
        proof {
            assert(s.subrange(0, n as int) =~= s);
            lemma_entry_len(s, kv);
            lemma_entry_len(kept_s, kv);
            assert(old(self)@.dom() =~= entry_map(s, kv).dom());
            assert(self@ =~= old(self)@.restrict(old(self)@.dom().filter(keep)));
            assert(self@.dom() =~= entry_map(kept_s, kv).dom());
        }
        removed
    }

    pub fn len(&self) -> (r: usize)
        requires
            self.wf(),
        ensures
            r == self@.len(),
    {
        proof {
            self.lemma_view_len();
        }
        self.edges.len()
    }

    pub fn is_empty(&self) -> (r: bool)
        requires
            self.wf(),
        ensures
            r == (self@.len() == 0),
    {
        proof {
            self.lemma_view_len();
        }
        self.edges.len() == 0
    }

    /// Every edge once, with its pair, heat and band (in no stated order).
    pub fn snapshot(&self) -> (r: Vec<HeatEdge>)
        requires
            self.wf(),
        ensures
            r@.len() == self@.len(),
            forall|i: int|
                0 <= i < r@.len() ==> {
                    let k = ((#[trigger] r@[i]).a@, r@[i].b@);
                    self@.dom().contains(k) && self@[k].heat == r@[i].heat && self@[k].band == r@[i].band
                },
            forall|i: int, j: int| 0 <= i < j < r@.len() ==> ((#[trigger] r@[i]).a@, r@[i].b@) != ((#[trigger] r@[j]).a@, r@[j].b@),
    {
        let mut r: Vec<HeatEdge> = Vec::new();
        let mut i: usize = 0;
        while i < self.edges.len()
            invariant
                self.wf(),
                i <= self.edges@.len(),
                r@.len() == i,
                forall|j: int|
                    0 <= j < i ==> ((#[trigger] r@[j]).a@, r@[j].b@) == pair_view()(self.edges@[j].0) && r@[j].heat
                        == self.edges@[j].1.heat && r@[j].band == self.edges@[j].1.band,
            decreases self.edges.len() - i,
        {
            let e = &self.edges[i];
            r.push(HeatEdge { a: owned((e.0).0.as_str()), b: owned((e.0).1.as_str()), heat: e.1.heat, band: e.1.band });
            i = i + 1;
        }
        proof {
            self.lemma_view_len();
            assert forall|j: int| 0 <= j < r@.len() implies {
                let k = ((#[trigger] r@[j]).a@, r@[j].b@);
                self@.dom().contains(k) && self@[k].heat == r@[j].heat && self@[k].band == r@[j].band
            } by {
                lemma_entry_lookup(self.edges@, pair_view(), j);
            }
            assert forall|x: int, y: int| 0 <= x < y < r@.len() implies ((#[trigger] r@[x]).a@, r@[x].b@) != ((#[trigger] r@[y]).a@, r@[y].b@) by {
                assert(pair_view()(self.edges@[x].0) != pair_view()(self.edges@[y].0));
            }
        }
        r
    }
}

/// An edge belongs to an unordered pair: asking for (a, b) or (b, a) finds
/// the same edge.
pub proof fn law_edges_are_unordered(a: Seq<char>, b: Seq<char>)
    ensures
        pair_key(a, b) == pair_key(b, a),
{
    lemma_pair_key_symmetric(a, b);
}

} // verus!
