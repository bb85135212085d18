//! Directed wait-for graph. An edge `from -> to` means agent `from` is waiting
//! on agent `to` for `resource`. A cycle is a deadlock.

use vstd::prelude::*;
use crate::text::{str_eq, owned};

verus! {

#[derive(Debug, Clone, PartialEq, Eq)]
pub struct WaitEdge {
    pub from: String,
    pub to: String,
    pub resource: String,
}

/// A field-by-field copy of an edge.
pub fn copy_edge(e: &WaitEdge) -> (r: WaitEdge)
    ensures
        r == *e,
{
    WaitEdge { from: e.from.clone(), to: e.to.clone(), resource: e.resource.clone() }
}

// ---------------------------------------------------------------------------
// Model
// ---------------------------------------------------------------------------

/// Two edges join the same ordered pair of agents.
pub open spec fn same_pair(a: WaitEdge, b: WaitEdge) -> bool {
    a.from@ == b.from@ && a.to@ == b.to@
}

/// No ordered pair of agents is joined by two edges.
pub open spec fn pairs_distinct(g: Seq<WaitEdge>) -> bool {
    forall|i: int, j: int| 0 <= i < j < g.len() ==> !same_pair(#[trigger] g[i], #[trigger] g[j])
}

/// The edge has `agent` at one of its ends.
pub open spec fn touches(e: WaitEdge, agent: Seq<char>) -> bool {
    e.from@ == agent || e.to@ == agent
}

/// Keeps the edges that do not touch `agent`.
pub open spec fn kept_by(agent: Seq<char>) -> spec_fn(WaitEdge) -> bool {
    |e: WaitEdge| !touches(e, agent)
}

/// Edge `i` of `c` ends where edge `i + 1` starts.
pub open spec fn follows(c: Seq<WaitEdge>, i: int) -> bool {
    c[i].to@ == c[i + 1].from@
}

/// `c` is a closed walk: consecutive edges meet, and the last ends where the first starts.
pub open spec fn is_cycle(c: Seq<WaitEdge>) -> bool {
    &&& c.len() > 0
    &&& forall|i: int| 0 <= i < c.len() - 1 ==> #[trigger] follows(c, i)
    &&& c[c.len() - 1].to@ == c[0].from@
}

/// No two edges of `c` leave the same agent: a closed walk that passes each
/// agent once.
pub open spec fn is_simple(c: Seq<WaitEdge>) -> bool {
    forall|i: int, j: int| 0 <= i < j < c.len() ==> (#[trigger] c[i]).from@ != (#[trigger] c[j]).from@
}

/// `c` is a closed walk made of edges of `g`.
pub open spec fn cycle_in(g: Seq<WaitEdge>, c: Seq<WaitEdge>) -> bool {
    is_cycle(c) && forall|i: int| 0 <= i < c.len() ==> g.contains(#[trigger] c[i])
}

/// Some agents wait on each other in a circle: a deadlock.
pub open spec fn has_cycle(g: Seq<WaitEdge>) -> bool {
    exists|c: Seq<WaitEdge>| cycle_in(g, c)
}

pub struct WaitGraph {
    edges: Vec<WaitEdge>,
}

impl View for WaitGraph {
    type V = Seq<WaitEdge>;

    closed spec fn view(&self) -> Seq<WaitEdge> {
        self.edges@
    }
}

// ---------------------------------------------------------------------------
// Index model used by the search: agents numbered in order of first
// appearance, each edge reduced to the numbers of its two ends.
// ---------------------------------------------------------------------------

spec fn names_distinct(nodes: Seq<String>) -> bool {
    forall|i: int, j: int| 0 <= i < j < nodes.len() ==> (#[trigger] nodes[i])@ != (#[trigger] nodes[j])@
}

spec fn ends_match(nodes: Seq<String>, g: Seq<WaitEdge>, ends: Seq<(usize, usize)>) -> bool {
    &&& ends.len() == g.len()
    &&& forall|k: int|
        0 <= k < ends.len() ==> {
            &&& (#[trigger] ends[k]).0 < nodes.len()
            &&& ends[k].1 < nodes.len()
            &&& nodes[ends[k].0 as int]@ == g[k].from@
            &&& nodes[ends[k].1 as int]@ == g[k].to@
        }
}

spec fn src(ends: Seq<(usize, usize)>, k: int) -> int {
    ends[k].0 as int
}

spec fn dst(ends: Seq<(usize, usize)>, k: int) -> int {
    ends[k].1 as int
}

spec fn ends_bounded(ends: Seq<(usize, usize)>, n: int) -> bool {
    forall|k: int| 0 <= k < ends.len() ==> (#[trigger] ends[k]).0 < n && ends[k].1 < n
}

/// Edge numbers in `p` form a walk.
spec fn chain(ends: Seq<(usize, usize)>, p: Seq<usize>) -> bool {
    &&& forall|i: int| 0 <= i < p.len() ==> (#[trigger] p[i]) < ends.len()
    &&& forall|i: int| 0 <= i < p.len() - 1 ==> dst(ends, #[trigger] p[i] as int) == src(ends, p[i + 1] as int)
}

/// The edges numbered in `p` leave pairwise different nodes.
spec fn srcs_distinct(ends: Seq<(usize, usize)>, p: Seq<usize>) -> bool {
    forall|i: int, j: int| 0 <= i < j < p.len() ==> src(ends, #[trigger] p[i] as int) != src(ends, #[trigger] p[j] as int)
}

spec fn closed_chain(ends: Seq<(usize, usize)>, p: Seq<usize>) -> bool {
    &&& p.len() > 0
    &&& chain(ends, p)
    &&& dst(ends, p[p.len() - 1] as int) == src(ends, p[0] as int)
}

/// Nodes marked 1 (on the search stack) are exactly the starts of the stack's
/// edges, plus `cur` when `with_cur`.
spec fn grey_is_stack(s: Seq<u8>, ends: Seq<(usize, usize)>, path: Seq<usize>, cur: int, with_cur: bool) -> bool {
    forall|v: int|
        0 <= v < s.len() ==> ((#[trigger] s[v] == 1) <==> ((with_cur && v == cur) || exists|i: int|
            0 <= i < path.len() && src(ends, path[i] as int) == v))
}

/// Every finished node points only at finished nodes that finished earlier.
spec fn black_closed(s: Seq<u8>, ends: Seq<(usize, usize)>, fin: Seq<int>) -> bool {
    forall|k: int|
        #![trigger ends[k]]
        0 <= k < ends.len() && s[src(ends, k)] == 2 ==> s[dst(ends, k)] == 2 && fin[dst(ends, k)] < fin[src(ends, k)]
}

spec fn named(nodes: Seq<String>, name: Seq<char>) -> bool {
    exists|a: int| 0 <= a < nodes.len() && (#[trigger] nodes[a])@ == name
}

spec fn marks_ok(s: Seq<u8>, n: int) -> bool {
    s.len() == n && forall|v: int| 0 <= v < n ==> #[trigger] s[v] <= 2
}

spec fn fin_below(s: Seq<u8>, fin: Seq<int>, clock: int) -> bool {
    fin.len() == s.len() && forall|v: int| 0 <= v < s.len() && #[trigger] s[v] == 2 ==> fin[v] < clock
}

spec fn count_white(s: Seq<u8>) -> nat
    decreases s.len(),
{
    if s.len() == 0 {
        0
    } else {
        count_white(s.drop_last()) + if s.last() == 0 { 1nat } else { 0nat }
    }
}

proof fn lemma_white_mono(a: Seq<u8>, b: Seq<u8>)
    requires
        a.len() == b.len(),
        forall|i: int| 0 <= i < b.len() && b[i] == 0 ==> a[i] == 0,
    ensures
        count_white(b) <= count_white(a),
        (exists|i: int| 0 <= i < a.len() && a[i] == 0 && b[i] != 0) ==> count_white(b) < count_white(a),
    decreases a.len(),
{
    if a.len() > 0 {
        let a2 = a.drop_last();
        let b2 = b.drop_last();
        assert forall|i: int| 0 <= i < b2.len() && b2[i] == 0 implies a2[i] == 0 by {
            assert(b[i] == 0);
        }
        lemma_white_mono(a2, b2);
        if exists|i: int| 0 <= i < a.len() && a[i] == 0 && b[i] != 0 {
            let i = choose|i: int| 0 <= i < a.len() && a[i] == 0 && b[i] != 0;
            if i < a.len() - 1 {
                assert(a2[i] == 0 && b2[i] != 0);
            }
        }
    }
}

/// The first edge of `path` whose start is `v`, if any.
fn stack_position(path: &Vec<usize>, ends: &Vec<(usize, usize)>, v: usize) -> (r: Option<usize>)
    requires
        forall|i: int| 0 <= i < path@.len() ==> (#[trigger] path@[i]) < ends@.len(),
    ensures
        match r {
            Some(i) => i < path@.len() && src(ends@, path@[i as int] as int) == v,
            None => forall|i: int| 0 <= i < path@.len() ==> src(ends@, #[trigger] path@[i] as int) != v,
        },
{
    let mut i: usize = 0;
    while i < path.len()
        invariant
            i <= path@.len(),
            forall|j: int| 0 <= j < path@.len() ==> (#[trigger] path@[j]) < ends@.len(),
            forall|j: int| 0 <= j < i ==> src(ends@, #[trigger] path@[j] as int) != v,
        decreases path.len() - i,
    {
        if ends[path[i]].0 == v {
            return Some(i);
        }
        i = i + 1;
    }
    None
}

/// A stack suffix followed by an edge leaving a node off the stack still
/// leaves pairwise different nodes.
proof fn lemma_tail_srcs_distinct(ends: Seq<(usize, usize)>, p: Seq<usize>, i: int, k: usize, u: int)
    requires
        0 <= i < p.len(),
        srcs_distinct(ends, p),
        forall|x: int| 0 <= x < p.len() ==> src(ends, #[trigger] p[x] as int) != u,
        src(ends, k as int) == u,
    ensures
        srcs_distinct(ends, p.subrange(i, p.len() as int).push(k)),
{
    let c = p.subrange(i, p.len() as int).push(k);
    assert forall|a: int, b: int| 0 <= a < b < c.len() implies src(ends, #[trigger] c[a] as int) != src(
        ends,
        #[trigger] c[b] as int,
    ) by {
        assert(c[a] == p[i + a]);
        if b < c.len() - 1 {
            assert(c[b] == p[i + b]);
        } else {
            assert(c[b] == k);
        }
    }
}

/// The cycle closed by the back edge `k` (from the current node `u` to `v`,
/// which is on the stack): the stack from where `v` entered it, then `k`.
fn back_edge_cycle(path: &Vec<usize>, ends: &Vec<(usize, usize)>, k: usize, u: usize, v: usize) -> (r: Vec<usize>)
    requires
        chain(ends@, path@),
        path@.len() > 0 ==> dst(ends@, path@[path@.len() - 1] as int) == u,
        k < ends@.len(),
        src(ends@, k as int) == u,
        dst(ends@, k as int) == v,
        v == u || exists|i: int| 0 <= i < path@.len() && src(ends@, path@[i] as int) == v,
        srcs_distinct(ends@, path@),
        forall|i: int| 0 <= i < path@.len() ==> src(ends@, #[trigger] path@[i] as int) != u,
    ensures
        closed_chain(ends@, r@),
        srcs_distinct(ends@, r@),
{
    let ghost p0 = path@;
    match stack_position(path, ends, v) {
        Some(i) => {
            let mut cyc: Vec<usize> = Vec::new();
            let mut j: usize = i;
            while j < path.len()
                invariant
                    i <= j <= path@.len(),
                    path@ == p0,
                    i < p0.len(),
                    cyc@ == p0.subrange(i as int, j as int),
                decreases path.len() - j,
            {
                cyc.push(path[j]);
                assert(cyc@ =~= p0.subrange(i as int, j + 1));
                j = j + 1;
            }
            cyc.push(k);
            proof {
                let c = cyc@;
                assert(c =~= p0.subrange(i as int, p0.len() as int).push(k));
                assert forall|a: int| 0 <= a < c.len() implies (#[trigger] c[a]) < ends@.len() by {
                    if a < c.len() - 1 {
                        assert(c[a] == p0[i + a]);
                    }
                }
                assert forall|a: int| 0 <= a < c.len() - 1 implies dst(ends@, #[trigger] c[a] as int)
                    == src(ends@, c[a + 1] as int) by {
                    if a < c.len() - 2 {
                        assert(c[a] == p0[i + a]);
                        assert(c[a + 1] == p0[i + a + 1]);
                    } else {
                        assert(c[a] == p0[p0.len() - 1]);
                    }
                }
                assert(c[0] == p0[i as int]);
                lemma_tail_srcs_distinct(ends@, p0, i as int, k, u as int);
            }
            cyc
        },
        None => {
            // Self-loop: `v` is the current node itself.
            let mut cyc: Vec<usize> = Vec::new();
            cyc.push(k);
            cyc
        },
    }
}

/// Depth-first search from the unvisited node `u`, following out-edges in
/// insertion order. Marks: 0 unvisited, 1 on the stack, 2 finished.
/// Returns the edge numbers of a cycle as soon as an edge reaches a node
/// on the stack.
#[verifier::rlimit(80)]
fn dfs(
    u: usize,
    ends: &Vec<(usize, usize)>,
    marks: &mut Vec<u8>,
    path: &mut Vec<usize>,
    fin: &mut Ghost<Seq<int>>,
    clock: &mut Ghost<int>,
    Ghost(budget): Ghost<nat>,
) -> (r: Option<Vec<usize>>)
    requires
        count_white(old(marks)@) <= budget,
        u < old(marks)@.len(),
        old(marks)@[u as int] == 0,
        marks_ok(old(marks)@, old(marks)@.len() as int),
        ends_bounded(ends@, old(marks)@.len() as int),
        chain(ends@, old(path)@),
        old(path)@.len() > 0 ==> dst(ends@, old(path)@[old(path)@.len() - 1] as int) == u,
        grey_is_stack(old(marks)@, ends@, old(path)@, u as int, false),
        black_closed(old(marks)@, ends@, old(fin)@),
        fin_below(old(marks)@, old(fin)@, old(clock)@),
        srcs_distinct(ends@, old(path)@),
    ensures
        match r {
            Some(c) => closed_chain(ends@, c@) && srcs_distinct(ends@, c@),
            None => {
                &&& final(path)@ == old(path)@
                &&& marks_ok(final(marks)@, old(marks)@.len() as int)
                &&& final(marks)@[u as int] == 2
                &&& forall|v: int| 0 <= v < old(marks)@.len() ==> {
                    &&& (#[trigger] final(marks)@[v] == 1) == (old(marks)@[v] == 1)
                    &&& (old(marks)@[v] == 2 ==> final(marks)@[v] == 2 && final(fin)@[v] == old(fin)@[v])
                    &&& (final(marks)@[v] == 0 ==> old(marks)@[v] == 0)
                }
                &&& black_closed(final(marks)@, ends@, final(fin)@)
                &&& fin_below(final(marks)@, final(fin)@, final(clock)@)
                &&& final(clock)@ >= old(clock)@
            },
        },
    decreases budget,
{
    let ghost s0 = marks@;
    let ghost f0 = fin@;
    let ghost c0 = clock@;
    let ghost p0 = path@;
    let n = marks.len();
    marks.set(u, 1);
    proof {
        lemma_white_mono(s0, marks@);
        assert(s0[u as int] == 0 && marks@[u as int] != 0);
        assert(count_white(marks@) < count_white(s0));
        let s1 = marks@;
        assert forall|j: int|
            #![trigger ends@[j]]
            0 <= j < ends@.len() && s1[src(ends@, j)] == 2 implies s1[dst(ends@, j)] == 2 && fin@[dst(ends@,
                j)] < fin@[src(ends@, j)] by {
            assert(src(ends@, j) != u);
            assert(s1[src(ends@, j)] == s0[src(ends@, j)]);
            assert(s0[dst(ends@, j)] == 2);
            assert(dst(ends@, j) != u);
            assert(s1[dst(ends@, j)] == s0[dst(ends@, j)]);
        }
        assert forall|v: int| 0 <= v < s1.len() && #[trigger] s1[v] == 2 implies fin@[v] < clock@ by {
            assert(s0[v] == 2);
        }
        assert forall|i: int| 0 <= i < p0.len() implies src(ends@, #[trigger] p0[i] as int) != u by {
            if src(ends@, p0[i] as int) == u {
                assert(s0[u as int] == 1);
            }
        }
        assert forall|v: int| 0 <= v < s1.len() implies ((#[trigger] s1[v] == 1) <==> ((v == u) || exists|i: int|
            0 <= i < p0.len() && src(ends@, p0[i] as int) == v)) by {
            if v != u {
                assert(s1[v] == s0[v]);
            }
        }
    }
    let m = ends.len();
    let mut k: usize = 0;
    while k < m
        invariant
            m == ends@.len(),
            n == s0.len(),
            u < n,
            ends_bounded(ends@, n as int),
            marks_ok(marks@, n as int),
            marks@[u as int] == 1,
            path@ == p0,
            chain(ends@, p0),
            srcs_distinct(ends@, p0),
            forall|i: int| 0 <= i < p0.len() ==> src(ends@, #[trigger] p0[i] as int) != u,
            p0.len() > 0 ==> dst(ends@, p0[p0.len() - 1] as int) == u,
            grey_is_stack(marks@, ends@, p0, u as int, true),
            black_closed(marks@, ends@, fin@),
            fin_below(marks@, fin@, clock@),
            clock@ >= c0,
            count_white(s0) <= budget,
            count_white(marks@) < count_white(s0),
            forall|v: int| 0 <= v < n ==> {
                &&& (#[trigger] marks@[v] == 1) == (s0[v] == 1 || v == u)
                &&& (s0[v] == 2 ==> marks@[v] == 2 && fin@[v] == f0[v])
                &&& (marks@[v] == 0 ==> s0[v] == 0)
            },
            forall|j: int|
                0 <= j < k && (#[trigger] ends@[j]).0 == u ==> marks@[dst(ends@, j)] == 2 && fin@[dst(ends@, j)] < clock@,
        decreases m - k,
    {
        if ends[k].0 == u {
            let v = ends[k].1;
            assert(v < n);
            let mv = marks[v];
            if mv == 1 {
                // Back edge: the cycle runs from where `v` entered the stack.
                proof {
                    assert(marks@[v as int] == 1);
                }
                return Some(back_edge_cycle(path, ends, k, u, v));
            } else if mv == 0 {
                let ghost before = marks@;
                let ghost fin_before = fin@;
                let ghost clock_before = clock@;
                path.push(k);
                proof {
                    let p1 = path@;
                    assert(p1 =~= p0.push(k));
                    assert forall|a: int| 0 <= a < p1.len() - 1 implies dst(ends@, #[trigger] p1[a] as int)
                        == src(ends@, p1[a + 1] as int) by {
                        if a < p1.len() - 2 {
                            assert(p1[a] == p0[a] && p1[a + 1] == p0[a + 1]);
                        }
                    }
                    assert forall|a: int, b: int| 0 <= a < b < p1.len() implies src(ends@, #[trigger] p1[a] as int)
                        != src(ends@, #[trigger] p1[b] as int) by {
                        assert(p1[a] == p0[a]);
                        if b < p1.len() - 1 {
                            assert(p1[b] == p0[b]);
                        }
                    }
                    assert forall|w: int| 0 <= w < marks@.len() implies ((#[trigger] marks@[w] == 1) <==> (
                        exists|i: int| 0 <= i < p1.len() && src(ends@, p1[i] as int) == w)) by {
                        if marks@[w] == 1 {
                            if w == u {
                                assert(src(ends@, p1[p1.len() - 1] as int) == w);
                            } else {
                                let i = choose|i: int| 0 <= i < p0.len() && src(ends@, p0[i] as int) == w;
                                assert(p1[i] == p0[i]);
                            }
                        }
                        if exists|i: int| 0 <= i < p1.len() && src(ends@, p1[i] as int) == w {
                            let i = choose|i: int| 0 <= i < p1.len() && src(ends@, p1[i] as int) == w;
                            if i < p0.len() {
                                assert(p1[i] == p0[i]);
                            }
                        }
                    }
                }
                assert(count_white(marks@) < count_white(s0));
                let ghost budget2 = count_white(marks@);
                let res = dfs(v, ends, marks, path, fin, clock, Ghost(budget2));
                match res {
                    Some(c) => {
                        return Some(c);
                    },
                    None => {},
                }
                path.pop();
                proof {
                    assert(path@ =~= p0);
                    lemma_white_mono(before, marks@);
                    assert forall|v2: int| 0 <= v2 < n implies {
                        &&& (#[trigger] marks@[v2] == 1) == (s0[v2] == 1 || v2 == u)
                        &&& (s0[v2] == 2 ==> marks@[v2] == 2 && fin@[v2] == f0[v2])
                        &&& (marks@[v2] == 0 ==> s0[v2] == 0)
                    } by {
                        assert(marks@[v2] == 1 <==> before[v2] == 1);
                    }
                    assert forall|w: int| 0 <= w < marks@.len() implies ((#[trigger] marks@[w] == 1) <==> ((w
                        == u) || exists|i: int| 0 <= i < p0.len() && src(ends@, p0[i] as int) == w)) by {
                        assert(marks@[w] == 1 <==> before[w] == 1);
                    }
                    assert(marks@[v as int] == 2);
                    assert(fin@[v as int] < clock@);
                    assert forall|j: int|
                        0 <= j < k + 1 && (#[trigger] ends@[j]).0 == u implies marks@[dst(ends@, j)] == 2
                        && fin@[dst(ends@, j)] < clock@ by {
                        if j < k {
                            assert(before[dst(ends@, j)] == 2);
                            assert(fin_before[dst(ends@, j)] < clock_before);
                            assert(marks@[dst(ends@, j)] == 2);
                            assert(fin@[dst(ends@, j)] == fin_before[dst(ends@, j)]);
                        } else {
                            assert(dst(ends@, j) == v as int);
                        }
                    }
                }
            } else {
                assert(mv == 2);
            }
        }
        k = k + 1;
    }
    let ghost before = marks@;
    let ghost fin_old = fin@;
    marks.set(u, 2);
    proof {
        let t = clock@;
        *fin = Ghost(fin@.update(u as int, t));
        *clock = Ghost(t + 1);
        let s = marks@;
        assert forall|j: int|
            #![trigger ends@[j]]
            0 <= j < ends@.len() && s[src(ends@, j)] == 2 implies s[dst(ends@, j)] == 2 && fin@[dst(ends@, j)]
            < fin@[src(ends@, j)] by {
            if src(ends@, j) == u {
                assert(ends@[j].0 == u);
                assert(before[dst(ends@, j)] == 2);
                assert(fin_old[dst(ends@, j)] < t);
            } else {
                assert(before[src(ends@, j)] == 2);
                assert(before[dst(ends@, j)] == 2);
                assert(dst(ends@, j) != u);
            }
        }
        assert forall|v2: int| 0 <= v2 < n implies {
            &&& (#[trigger] marks@[v2] == 1) == (s0[v2] == 1)
            &&& (s0[v2] == 2 ==> marks@[v2] == 2 && fin@[v2] == f0[v2])
            &&& (marks@[v2] == 0 ==> s0[v2] == 0)
        } by {
            if v2 != u {
                assert(marks@[v2] == before[v2]);
            }
        }
    }
    None
}

/// Decreasing finishing times along a walk whose every edge leaves a finished node.
proof fn lemma_no_closed_walk(nodes: Seq<String>, g: Seq<WaitEdge>, ends: Seq<(usize, usize)>, s: Seq<u8>, fin: Seq<int>, c: Seq<WaitEdge>)
    requires
        names_distinct(nodes),
        ends_match(nodes, g, ends),
        s.len() == nodes.len(),
        forall|v: int| 0 <= v < s.len() ==> #[trigger] s[v] == 2,
        black_closed(s, ends, fin),
    ensures
        !cycle_in(g, c),
{
    if cycle_in(g, c) {
        lemma_closed_walk_descends(nodes, g, ends, s, fin, c);
    }
}

proof fn lemma_closed_walk_descends(nodes: Seq<String>, g: Seq<WaitEdge>, ends: Seq<(usize, usize)>, s: Seq<u8>, fin: Seq<int>, c: Seq<WaitEdge>)
    requires
        names_distinct(nodes),
        ends_match(nodes, g, ends),
        s.len() == nodes.len(),
        forall|v: int| 0 <= v < s.len() ==> #[trigger] s[v] == 2,
        black_closed(s, ends, fin),
        cycle_in(g, c),
    ensures
        exists|x: int| fin[x] < fin[x],
{
    let node_of = |name: Seq<char>| choose|i: int| 0 <= i < nodes.len() && nodes[i]@ == name;
    assert forall|j: int| #![trigger c[j]] 0 <= j < c.len() implies {
        let a = node_of(c[j].from@);
        let b = node_of(c[j].to@);
        &&& 0 <= a < nodes.len() && nodes[a]@ == c[j].from@
        &&& 0 <= b < nodes.len() && nodes[b]@ == c[j].to@
        &&& fin[b] < fin[a]
    } by {
        assert(g.contains(c[j]));
        let k = choose|k: int| 0 <= k < g.len() && g[k] == c[j];
        assert(ends[k].0 < nodes.len());
        let a = node_of(c[j].from@);
        let b = node_of(c[j].to@);
        assert(nodes[ends[k].0 as int]@ == c[j].from@);
        assert(nodes[ends[k].1 as int]@ == c[j].to@);
        if a != ends[k].0 as int {
            if a < ends[k].0 as int {
                assert(nodes[a]@ != nodes[ends[k].0 as int]@);
            } else {
                assert(nodes[ends[k].0 as int]@ != nodes[a]@);
            }
        }
        if b != ends[k].1 as int {
            if b < ends[k].1 as int {
                assert(nodes[b]@ != nodes[ends[k].1 as int]@);
            } else {
                assert(nodes[ends[k].1 as int]@ != nodes[b]@);
            }
        }
        assert(s[src(ends, k)] == 2);
        assert(ends[k] == ends[k]);
    }
    let start = node_of(c[0].from@);
    assert forall|j: int| 0 <= j < c.len() implies #[trigger] fin[node_of(c[j].to@)] < fin[start] by {
        lemma_walk_descends(c, fin, node_of, start, j);
    }
    let last = c.len() - 1;
    assert(fin[node_of(c[last].to@)] < fin[start]);
    assert(c[last].to@ == c[0].from@);
    assert(fin[start] < fin[start]);
}

proof fn lemma_walk_descends(c: Seq<WaitEdge>, fin: Seq<int>, node_of: spec_fn(Seq<char>) -> int, start: int, j: int)
    requires
        is_cycle(c),
        0 <= j < c.len(),
        start == node_of(c[0].from@),
        forall|i: int| 0 <= i < c.len() ==> fin[node_of(c[i].to@)] < fin[node_of(#[trigger] c[i].from@)],
    ensures
        fin[node_of(c[j].to@)] < fin[start],
    decreases j,
{
    assert(fin[node_of(c[j].to@)] < fin[node_of(c[j].from@)]);
    if j > 0 {
        lemma_walk_descends(c, fin, node_of, start, j - 1);
        assert(follows(c, j - 1));
    }
}

/// Position of the agent named `s` in `nodes`.
fn node_index(nodes: &Vec<String>, s: &str) -> (r: Option<usize>)
    ensures
        match r {
            Some(i) => i < nodes@.len() && nodes@[i as int]@ == s@,
            None => forall|j: int| 0 <= j < nodes@.len() ==> (#[trigger] nodes@[j])@ != s@,
        },
{
    let mut i: usize = 0;
    while i < nodes.len()
        invariant
            i <= nodes@.len(),
            forall|j: int| 0 <= j < i ==> (#[trigger] nodes@[j])@ != s@,
        decreases nodes.len() - i,
    {
        if str_eq(nodes[i].as_str(), s) {
            return Some(i);
        }
        i = i + 1;
    }
    None
}

fn add_node(nodes: &mut Vec<String>, s: &str)
    requires
        names_distinct(old(nodes)@),
    ensures
        names_distinct(final(nodes)@),
        named(final(nodes)@, s@),
        forall|i: int| 0 <= i < old(nodes)@.len() ==> final(nodes)@[i] == old(nodes)@[i],
        final(nodes)@.len() >= old(nodes)@.len(),
{
    match node_index(nodes, s) {
        Some(i) => {
            assert(nodes@[i as int]@ == s@);
        },
        None => {
            nodes.push(owned(s));
            let ghost last = nodes@.len() - 1;
            assert(nodes@[last]@ == s@);
        },
    }
}

impl WaitGraph {
    pub fn new() -> (g: Self)
        ensures
            g@ == Seq::<WaitEdge>::empty(),
    {
        WaitGraph { edges: Vec::new() }
    }

    /// Adds `from -> to`; an existing edge with the same ordered pair is kept
    /// as it is (its first `resource` wins).
    pub fn add_edge(&mut self, from: &str, to: &str, resource: &str)
        ensures
            (exists|i: int| 0 <= i < old(self)@.len() && (#[trigger] old(self)@[i]).from@ == from@ && old(self)@[i].to@ == to@)
                ==> final(self)@ == old(self)@,
            !(exists|i: int| 0 <= i < old(self)@.len() && (#[trigger] old(self)@[i]).from@ == from@ && old(self)@[i].to@ == to@)
                ==> {
                &&& final(self)@.len() == old(self)@.len() + 1
                &&& final(self)@.drop_last() == old(self)@
                &&& final(self)@.last().from@ == from@
                &&& final(self)@.last().to@ == to@
                &&& final(self)@.last().resource@ == resource@
            },
            pairs_distinct(old(self)@) ==> pairs_distinct(final(self)@),
    {
        let mut i: usize = 0;
        while i < self.edges.len()
            invariant
                i <= self.edges@.len(),
                self.edges@ == old(self)@,
                forall|j: int| 0 <= j < i ==> !((#[trigger] self.edges@[j]).from@ == from@ && self.edges@[j].to@ == to@),
            decreases self.edges.len() - i,
        {
            if str_eq(self.edges[i].from.as_str(), from) && str_eq(self.edges[i].to.as_str(), to) {
                return;
            }
            i = i + 1;
        }
        let e = WaitEdge { from: owned(from), to: owned(to), resource: owned(resource) };
        self.edges.push(e);
        assert(self.edges@.drop_last() =~= old(self)@);
        proof {
            let g = self.edges@;
            if pairs_distinct(old(self)@) {
                assert forall|a: int, b: int| 0 <= a < b < g.len() implies !same_pair(#[trigger] g[a], #[trigger] g[b]) by {
                    if b == g.len() - 1 {
                        assert(g[a] == old(self)@[a]);
                    } else {
                        assert(g[a] == old(self)@[a] && g[b] == old(self)@[b]);
                    }
                }
            }
        }
    }

    /// Drops every edge that has `agent` at either end.
    pub fn remove_agent(&mut self, agent: &str)
        ensures
            final(self)@ == old(self)@.filter(kept_by(agent@)),
            pairs_distinct(old(self)@) ==> pairs_distinct(final(self)@),
    {
        let ghost keep = kept_by(agent@);
        let mut kept: Vec<WaitEdge> = Vec::new();
        let mut i: usize = 0;
        while i < self.edges.len()
            invariant
                i <= self.edges@.len(),
                self.edges@ == old(self)@,
                keep == kept_by(agent@),
                kept@ == old(self)@.subrange(0, i as int).filter(keep),
            decreases self.edges.len() - i,
        {
            let e = &self.edges[i];
            let drop = str_eq(e.from.as_str(), agent) || str_eq(e.to.as_str(), agent);
            proof {
                let s = old(self)@.subrange(0, i + 1);
                assert(s.drop_last() =~= old(self)@.subrange(0, i as int));
                assert(s.last() == *e);

                assert(drop == !keep(*e));
                reveal_with_fuel(Seq::filter, 1);
                assert(s.filter(keep) == if keep(s.last()) {
                    s.drop_last().filter(keep).push(s.last())
                } else {
                    s.drop_last().filter(keep)
                });
            }
            if !drop {
                kept.push(copy_edge(e));
            }
            i = i + 1;
        }
        assert(old(self)@.subrange(0, old(self)@.len() as int) =~= old(self)@);
        self.edges = kept;
        proof {
            let g = self.edges@;
            let o = old(self)@;
            broadcast use vstd::seq_lib::group_filter_ensures;
            if pairs_distinct(o) {
                lemma_filter_keeps_distinct(o, keep);
            }
        }
    }

    /// The edges of a directed cycle, if there is one.
    pub fn find_cycle(&self) -> (r: Option<Vec<WaitEdge>>)
        ensures
            match r {
                Some(c) => cycle_in(self@, c@) && is_simple(c@),
                None => !has_cycle(self@),
            },
    {
        let g = &self.edges;
        // Agents in order of first appearance.
        let mut nodes: Vec<String> = Vec::new();
        let mut k: usize = 0;
        while k < g.len()
            invariant
                k <= g@.len(),
                names_distinct(nodes@),
                forall|j: int| 0 <= j < k ==> named(nodes@, (#[trigger] g@[j]).from@) && named(nodes@, g@[j].to@),
            decreases g.len() - k,
        {
            let ghost before = nodes@;
            add_node(&mut nodes, g[k].from.as_str());
            let ghost mid = nodes@;
            add_node(&mut nodes, g[k].to.as_str());
            proof {
                assert forall|j: int| 0 <= j < k + 1 implies named(nodes@, (#[trigger] g@[j]).from@) && named(nodes@, g@[j].to@) by {
                    if j < k {
                        let a = choose|a: int| 0 <= a < before.len() && (#[trigger] before[a])@ == g@[j].from@;
                        assert(nodes@[a] == before[a]);
                        let b = choose|b: int| 0 <= b < before.len() && (#[trigger] before[b])@ == g@[j].to@;
                        assert(nodes@[b] == before[b]);
                    } else {
                        let a = choose|a: int| 0 <= a < mid.len() && (#[trigger] mid[a])@ == g@[j].from@;
                        assert(nodes@[a] == mid[a]);
                    }
                }
            }
            k = k + 1;
        }
        // Each edge as the numbers of its two ends.
        let mut ends: Vec<(usize, usize)> = Vec::new();
        let mut k: usize = 0;
        while k < g.len()
            invariant
                k <= g@.len(),
                names_distinct(nodes@),
                forall|j: int| 0 <= j < g@.len() ==> named(nodes@, (#[trigger] g@[j]).from@) && named(nodes@, g@[j].to@),
                ends_match(nodes@, g@.subrange(0, k as int), ends@),
            decreases g.len() - k,
        {
            let a = node_index(&nodes, g[k].from.as_str());
            let b = node_index(&nodes, g[k].to.as_str());
            match (a, b) {
                (Some(a), Some(b)) => {
                    ends.push((a, b));
                },
                _ => {
                    proof {
                        assert(named(nodes@, g@[k as int].from@) && named(nodes@, g@[k as int].to@));
                    }
                    assert(false);
                    return None;
                },
            }
            proof {
                let s = g@.subrange(0, k + 1);
                assert forall|j: int| 0 <= j < ends@.len() implies {
                    &&& (#[trigger] ends@[j]).0 < nodes@.len()
                    &&& ends@[j].1 < nodes@.len()
                    &&& nodes@[ends@[j].0 as int]@ == s[j].from@
                    &&& nodes@[ends@[j].1 as int]@ == s[j].to@
                } by {
                    if j < k {
                        assert(s[j] == g@.subrange(0, k as int)[j]);
                    }
                }
            }
            k = k + 1;
        }
        assert(g@.subrange(0, g@.len() as int) =~= g@);
        assert(self@ == g@);
        let n = nodes.len();
        let mut marks: Vec<u8> = Vec::new();
        let mut i: usize = 0;
        while i < n
            invariant
                i <= n,
                marks@.len() == i,
                forall|v: int| 0 <= v < i ==> #[trigger] marks@[v] == 0,
            decreases n - i,
        {
            marks.push(0);
            i = i + 1;
        }
        let mut fin: Ghost<Seq<int>> = Ghost(Seq::new(n as nat, |v: int| 0int));
        let mut clock: Ghost<int> = Ghost(0int);
        let mut start: usize = 0;
        while start < n
            invariant
                self@ == g@,
                n == nodes@.len(),
                names_distinct(nodes@),
                ends_match(nodes@, g@, ends@),
                marks_ok(marks@, n as int),
                forall|v: int| 0 <= v < n ==> #[trigger] marks@[v] != 1,
                forall|v: int| 0 <= v < start ==> #[trigger] marks@[v] == 2,
                black_closed(marks@, ends@, fin@),
                fin_below(marks@, fin@, clock@),
            decreases n - start,
        {
            if marks[start] == 0 {
                let mut path: Vec<usize> = Vec::new();
                let ghost before = marks@;
                proof {
                    assert(ends_bounded(ends@, n as int));
                }
                let ghost budget = count_white(marks@);
                match dfs(start, &ends, &mut marks, &mut path, &mut fin, &mut clock, Ghost(budget)) {
                    Some(c) => {
                        return Some(self.edges_of(&nodes, &ends, &c));
                    },
                    None => {
                        assert forall|v: int| 0 <= v < start + 1 implies #[trigger] marks@[v] == 2 by {
                            if v < start {
                                assert(before[v] == 2);
                            }
                        }
                        assert forall|v: int| 0 <= v < n implies #[trigger] marks@[v] != 1 by {
                            assert(marks@[v] == 1 <==> before[v] == 1);
                        }
                    },
                }
            } else {
                assert(marks@[start as int] <= 2);
            }
            start = start + 1;
        }
        proof {
            if has_cycle(g@) {
                let c = choose|c: Seq<WaitEdge>| cycle_in(g@, c);
                lemma_no_closed_walk(nodes@, g@, ends@, marks@, fin@, c);
            }
        }
        None
    }

    /// The edges named by the numbers in `c`, which form a closed walk.
    fn edges_of(&self, nodes: &Vec<String>, ends: &Vec<(usize, usize)>, c: &Vec<usize>) -> (r: Vec<WaitEdge>)
        requires
            names_distinct(nodes@),
            ends_match(nodes@, self@, ends@),
            closed_chain(ends@, c@),
            srcs_distinct(ends@, c@),
        ensures
            cycle_in(self@, r@),
            is_simple(r@),
    {
        let mut out: Vec<WaitEdge> = Vec::new();
        let mut i: usize = 0;
        while i < c.len()
            invariant
                i <= c@.len(),
                chain(ends@, c@),
                ends@.len() == self.edges@.len(),
                out@.len() == i,
                forall|j: int| 0 <= j < i ==> #[trigger] out@[j] == self.edges@[c@[j] as int],
            decreases c.len() - i,
        {
            out.push(copy_edge(&self.edges[c[i]]));
            i = i + 1;
        }
        proof {
            let g = self.edges@;
            let o = out@;
            assert forall|j: int| 0 <= j < o.len() - 1 implies #[trigger] follows(o, j) by {
                assert(dst(ends@, c@[j] as int) == src(ends@, c@[j + 1] as int));
                assert(ends@[c@[j] as int].1 < nodes@.len());
            }
            assert forall|j: int| 0 <= j < o.len() implies g.contains(#[trigger] o[j]) by {
                assert(o[j] == g[c@[j] as int]);
            }
            let last = c@.len() - 1;
            assert(ends@[c@[last] as int].1 < nodes@.len());
            assert(ends@[c@[0] as int].0 < nodes@.len());
            assert forall|a: int, b: int| 0 <= a < b < o.len() implies (#[trigger] o[a]).from@ != (#[trigger] o[b]).from@ by {
                let x = ends@[c@[a] as int].0 as int;
                let y = ends@[c@[b] as int].0 as int;
                assert(o[a] == g[c@[a] as int] && o[b] == g[c@[b] as int]);
                assert(src(ends@, c@[a] as int) != src(ends@, c@[b] as int));
                assert(nodes@[x]@ == o[a].from@ && nodes@[y]@ == o[b].from@);
                if x < y {
                    assert(nodes@[x]@ != nodes@[y]@);
                } else {
                    assert(nodes@[y]@ != nodes@[x]@);
                }
            }
        }
        out
    }
}

proof fn lemma_filter_keeps_distinct(s: Seq<WaitEdge>, keep: spec_fn(WaitEdge) -> bool)
    requires
        pairs_distinct(s),
    ensures
        pairs_distinct(s.filter(keep)),
    decreases s.len(),
{
    reveal_with_fuel(Seq::filter, 1);
    if s.len() > 0 {
        let t = s.drop_last();
        assert(pairs_distinct(t)) by {
            assert forall|a: int, b: int| 0 <= a < b < t.len() implies !same_pair(#[trigger] t[a], #[trigger] t[b]) by {
                assert(t[a] == s[a] && t[b] == s[b]);
            }
        }
        lemma_filter_keeps_distinct(t, keep);
        let ft = t.filter(keep);
        if keep(s.last()) {
            let f = ft.push(s.last());
            broadcast use vstd::seq_lib::group_filter_ensures;
            assert forall|a: int, b: int| 0 <= a < b < f.len() implies !same_pair(#[trigger] f[a], #[trigger] f[b]) by {
                if b == f.len() - 1 {
                    assert(ft.contains(ft[a]));
                    t.lemma_filter_contains_rev(keep, ft[a]);
                    assert(t.contains(f[a]));
                    let x = choose|x: int| 0 <= x < t.len() && t[x] == f[a];
                    assert(s[x] == f[a]);
                    assert(!same_pair(s[x], s[s.len() - 1]));
                } else {
                    assert(f[a] == ft[a] && f[b] == ft[b]);
                }
            }
        }
    }
}

/// Once an agent is removed from the wait graph, no cycle passes through it:
/// removing either agent of a deadlock breaks it.
pub proof fn law_removed_agent_leaves_no_cycle(g: Seq<WaitEdge>, agent: Seq<char>, c: Seq<WaitEdge>)
    requires
        cycle_in(g.filter(kept_by(agent)), c),
    ensures
        forall|i: int| 0 <= i < c.len() ==> !touches(#[trigger] c[i], agent),
{
    assert forall|i: int| 0 <= i < c.len() implies !touches(#[trigger] c[i], agent) by {
        assert(g.filter(kept_by(agent)).contains(c[i]));
        g.lemma_filter_contains_rev(kept_by(agent), c[i]);
    }
}

} // verus!
