//! Open conflicts between pairs of agents, their proposals, and the
//! deterministic comparison that settles or escalates them.

use vstd::prelude::*;
use crate::cap::{strs, copy_strings, Proposal, ProposalView, ProposalKind};
use crate::text::{
    lex_lt, lex_le, str_le, str_eq, starts_with, is_prefix, numbered, decimal, owned,
    lemma_numbered_injective, lemma_lex_total, lemma_lex_asymmetric, lemma_lex_irreflexive,
};

verus! {

#[derive(Debug, Clone, Copy, PartialEq, Eq, Structural)]
pub enum ConflictState {
    Detected,
    Negotiating,
    AwaitingAgentResponse,
    AwaitingUserDecision,
    Resolved,
    Timeout,
    Aborted,
}

impl ConflictState {
    /// The canonical wire name.
    pub open spec fn name(self) -> Seq<char> {
        match self {
            ConflictState::Detected => "DETECTED"@,
            ConflictState::Negotiating => "NEGOTIATING"@,
            ConflictState::AwaitingAgentResponse => "AWAITING_AGENT_RESPONSE"@,
            ConflictState::AwaitingUserDecision => "AWAITING_USER_DECISION"@,
            ConflictState::Resolved => "RESOLVED"@,
            ConflictState::Timeout => "TIMEOUT"@,
            ConflictState::Aborted => "ABORTED"@,
        }
    }

    pub fn as_str(&self) -> (r: &'static str)
        ensures
            r@ == self.name(),
    {
        match self {
            ConflictState::Detected => "DETECTED",
            ConflictState::Negotiating => "NEGOTIATING",
            ConflictState::AwaitingAgentResponse => "AWAITING_AGENT_RESPONSE",
            ConflictState::AwaitingUserDecision => "AWAITING_USER_DECISION",
            ConflictState::Resolved => "RESOLVED",
            ConflictState::Timeout => "TIMEOUT",
            ConflictState::Aborted => "ABORTED",
        }
    }
}

#[derive(Debug)]
pub struct Conflict {
    pub conflict_id: String,
    pub agents: (String, String),
    pub state: ConflictState,
    pub trigger_heat: u32,
    pub paths: Vec<String>,
    pub domains: Vec<String>,
    pub intents: Vec<String>,
    /// Each participant's latest proposal, keyed by agent id.
    pub proposals: Vec<(String, Proposal)>,
    pub opened_at_ms: u64,
}

pub struct ConflictView {
    pub conflict_id: Seq<char>,
    pub agents: (Seq<char>, Seq<char>),
    pub state: ConflictState,
    pub trigger_heat: u32,
    pub paths: Seq<Seq<char>>,
    pub domains: Seq<Seq<char>>,
    pub intents: Seq<Seq<char>>,
    pub proposals: Seq<(Seq<char>, ProposalView)>,
    pub opened_at_ms: u64,
}

pub open spec fn proposal_keys(v: Seq<(String, Proposal)>) -> Seq<Seq<char>> {
    v.map_values(|e: (String, Proposal)| e.0@)
}

pub open spec fn proposal_entries(v: Seq<(String, Proposal)>) -> Seq<(Seq<char>, ProposalView)> {
    v.map_values(|e: (String, Proposal)| (e.0@, e.1@))
}

impl View for Conflict {
    type V = ConflictView;

    open spec fn view(&self) -> ConflictView {
        ConflictView {
            conflict_id: self.conflict_id@,
            agents: (self.agents.0@, self.agents.1@),
            state: self.state,
            trigger_heat: self.trigger_heat,
            paths: strs(self.paths@),
            domains: strs(self.domains@),
            intents: strs(self.intents@),
            proposals: proposal_entries(self.proposals@),
            opened_at_ms: self.opened_at_ms,
        }
    }
}

/// The participant `agent` has a proposal on record.
pub open spec fn has_proposal(c: ConflictView, agent: Seq<char>) -> bool {
    exists|j: int| 0 <= j < c.proposals.len() && (#[trigger] c.proposals[j]).0 == agent
}

/// Both participants have a proposal on record.
pub open spec fn both_have_proposed(c: ConflictView) -> bool {
    has_proposal(c, c.agents.0) && has_proposal(c, c.agents.1)
}

/// Keys of a proposal table are distinct and belong to the two participants.
pub open spec fn proposals_ok(c: ConflictView) -> bool {
    &&& forall|i: int, j: int|
        0 <= i < j < c.proposals.len() ==> (#[trigger] c.proposals[i]).0 != (#[trigger] c.proposals[j]).0
    &&& forall|i: int|
        0 <= i < c.proposals.len() ==> (#[trigger] c.proposals[i]).0 == c.agents.0 || c.proposals[i].0
            == c.agents.1
}

/// The table with `agent`'s proposal set to `p`: replaced in place when
/// there is one, appended otherwise.
pub open spec fn put_proposal(
    ps: Seq<(Seq<char>, ProposalView)>,
    agent: Seq<char>,
    p: ProposalView,
) -> Seq<(Seq<char>, ProposalView)> {
    if exists|j: int| 0 <= j < ps.len() && (#[trigger] ps[j]).0 == agent {
        ps.update(choose|j: int| 0 <= j < ps.len() && (#[trigger] ps[j]).0 == agent, (agent, p))
    } else {
        ps.push((agent, p))
    }
}

impl Conflict {
    /// A field-by-field copy.
    pub fn copy(&self) -> (r: Conflict)
        ensures
            r@ == self@,
    {
        let mut ps: Vec<(String, Proposal)> = Vec::new();
        let mut i: usize = 0;
        while i < self.proposals.len()
            invariant
                i <= self.proposals@.len(),
                ps@.len() == i,
                forall|j: int|
                    0 <= j < i ==> (#[trigger] ps@[j]).0@ == self.proposals@[j].0@ && ps@[j].1@
                        == self.proposals@[j].1@,
            decreases self.proposals.len() - i,
        {
            let e = &self.proposals[i];
            ps.push((e.0.clone(), e.1.copy()));
            i = i + 1;
        }
        assert(proposal_entries(ps@) =~= proposal_entries(self.proposals@));
        Conflict {
            conflict_id: self.conflict_id.clone(),
            agents: (self.agents.0.clone(), self.agents.1.clone()),
            state: self.state,
            trigger_heat: self.trigger_heat,
            paths: copy_strings(&self.paths),
            domains: copy_strings(&self.domains),
            intents: copy_strings(&self.intents),
            proposals: ps,
            opened_at_ms: self.opened_at_ms,
        }
    }

    /// Proposals ordered by agent id (ties keep their order of arrival): the
    /// deterministic framing shown to the user.
    pub fn proposals_sorted(&self) -> (r: Vec<(&String, &Proposal)>)
        ensures
            r@.len() == self.proposals@.len(),
            exists|order: Seq<int>| {
                &&& #[trigger] sorted_order(proposal_keys(self.proposals@), order)
                &&& forall|i: int|
                    0 <= i < r@.len() ==> *(#[trigger] r@[i]).0 == self.proposals@[order[i]].0 && *r@[i].1
                        == self.proposals@[order[i]].1
            },
    {
        let ghost keys = proposal_keys(self.proposals@);
        let mut order: Vec<usize> = Vec::new();
        let mut i: usize = 0;
        while i < self.proposals.len()
            invariant
                i <= self.proposals@.len(),
                keys == proposal_keys(self.proposals@),
                sorted_prefix_order(keys, order@, i as int),
            decreases self.proposals.len() - i,
        {
            insert_in_order(&self.proposals, &mut order, i);
            i = i + 1;
        }
        let mut r: Vec<(&String, &Proposal)> = Vec::new();
        let mut j: usize = 0;
        while j < order.len()
            invariant
                j <= order@.len(),
                sorted_prefix_order(keys, order@, self.proposals@.len() as int),
                r@.len() == j,
                forall|a: int|
                    0 <= a < j ==> *(#[trigger] r@[a]).0 == self.proposals@[order@[a] as int].0 && *r@[a].1
                        == self.proposals@[order@[a] as int].1,
            decreases order.len() - j,
        {
            let k = order[j];
            r.push((&self.proposals[k].0, &self.proposals[k].1));
            j = j + 1;
        }
        let ghost ord = order@.map_values(|x: usize| x as int);
        assert(sorted_order(keys, ord));
        assert forall|a: int| 0 <= a < r@.len() implies *(#[trigger] r@[a]).0 == self.proposals@[ord[a]].0 && *r@[a].1
            == self.proposals@[ord[a]].1 by {
            assert(ord[a] == order@[a] as int);
        }
        r
    }
}

/// `order` lists each position of `keys` once, ordered by key, and by
/// position among equal keys (a stable sort).
pub open spec fn sorted_order(keys: Seq<Seq<char>>, order: Seq<int>) -> bool {
    &&& order.len() == keys.len()
    &&& forall|a: int| 0 <= a < order.len() ==> 0 <= #[trigger] order[a] < keys.len()
    &&& forall|a: int, b: int| 0 <= a < b < order.len() ==> #[trigger] order[a] != #[trigger] order[b]
    &&& forall|a: int, b: int|
        0 <= a < b < order.len() ==> lex_lt(keys[#[trigger] order[a]], keys[#[trigger] order[b]]) || (keys[order[a]]
            == keys[order[b]] && order[a] < order[b])
}

spec fn sorted_prefix_order(keys: Seq<Seq<char>>, order: Seq<usize>, n: int) -> bool {
    &&& order.len() == n
    &&& n <= keys.len()
    &&& forall|a: int| 0 <= a < order.len() ==> (#[trigger] order[a]) < n
    &&& forall|a: int, b: int| 0 <= a < b < order.len() ==> #[trigger] order[a] != #[trigger] order[b]
    &&& forall|a: int, b: int|
        0 <= a < b < order.len() ==> lex_lt(keys[#[trigger] order[a] as int], keys[#[trigger] order[b] as int])
            || (keys[order[a] as int] == keys[order[b] as int] && order[a] < order[b])
}

/// Inserts position `i` after every position whose key is not greater.
fn insert_in_order(ps: &Vec<(String, Proposal)>, order: &mut Vec<usize>, i: usize)
    requires
        i < ps@.len(),
        sorted_prefix_order(proposal_keys(ps@), old(order)@, i as int),
    ensures
        sorted_prefix_order(proposal_keys(ps@), final(order)@, i + 1),
{
    let ghost keys = proposal_keys(ps@);
    let ghost o = order@;
    let mut p: usize = 0;
    while p < order.len() && !str_lt_key(ps, i, order[p])
        invariant
            p <= order@.len(),
            order@ == o,
            keys == proposal_keys(ps@),
            sorted_prefix_order(keys, o, i as int),
            i < ps@.len(),
            forall|a: int| 0 <= a < p ==> !lex_lt(keys[i as int], keys[#[trigger] o[a] as int]),
        decreases order.len() - p,
    {
        p = p + 1;
    }
    proof {
        // Everything from `p` on sorts strictly after key `i`.
        assert forall|a: int| p <= a < o.len() implies lex_lt(keys[i as int], keys[#[trigger] o[a] as int]) by {
            if a > p {
                assert(lex_lt(keys[o[p as int] as int], keys[o[a] as int]) || keys[o[p as int] as int]
                    == keys[o[a] as int]);
                if lex_lt(keys[o[p as int] as int], keys[o[a] as int]) {
                    crate::text::lemma_lex_transitive(keys[i as int], keys[o[p as int] as int], keys[o[a] as int]);
                }
            }
        }
    }
    order.insert(p, i);
    proof {
        let n = order@;
        assert forall|a: int, b: int| 0 <= a < b < n.len() implies lex_lt(
            keys[#[trigger] n[a] as int],
            keys[#[trigger] n[b] as int],
        ) || (keys[n[a] as int] == keys[n[b] as int] && n[a] < n[b]) by {
            if a < p && b < p {
                assert(n[a] == o[a] && n[b] == o[b]);
            } else if a < p && b == p {
                assert(n[a] == o[a]);
                lemma_lex_total(keys[i as int], keys[o[a] as int]);
                assert(o[a] < i);
            } else if a < p && b > p {
                assert(n[a] == o[a] && n[b] == o[b - 1]);
            } else if a == p {
                assert(n[b] == o[b - 1]);
            } else {
                assert(n[a] == o[a - 1] && n[b] == o[b - 1]);
            }
        }
        assert forall|a: int, b: int| 0 <= a < b < n.len() implies #[trigger] n[a] != #[trigger] n[b] by {
            if a < p && b < p {
                assert(n[a] == o[a] && n[b] == o[b]);
            } else if a < p && b == p {
                assert(n[a] == o[a]);
            } else if a < p && b > p {
                assert(n[a] == o[a] && n[b] == o[b - 1]);
            } else if a == p {
                assert(n[b] == o[b - 1]);
            } else {
                assert(n[a] == o[a - 1] && n[b] == o[b - 1]);
            }
        }
        assert forall|a: int| 0 <= a < n.len() implies (#[trigger] n[a]) < i + 1 by {
            if a < p {
                assert(n[a] == o[a]);
            } else if a > p {
                assert(n[a] == o[a - 1]);
            }
        }
    }
}

/// Key of position `x` sorts strictly before key of position `y`.
fn str_lt_key(ps: &Vec<(String, Proposal)>, x: usize, y: usize) -> (r: bool)
    requires
        x < ps@.len(),
        y < ps@.len(),
    ensures
        r == lex_lt(ps@[x as int].0@, ps@[y as int].0@),
{
    crate::text::str_lt(ps[x].0.as_str(), ps[y].0.as_str())
}

// ---------------------------------------------------------------------------
// The store of open conflicts
// ---------------------------------------------------------------------------

/// The ordered form of an unordered pair of agents.
pub open spec fn pair_key(a: Seq<char>, b: Seq<char>) -> (Seq<char>, Seq<char>) {
    if lex_le(a, b) {
        (a, b)
    } else {
        (b, a)
    }
}

/// The id of the `n`-th conflict opened.
pub open spec fn conflict_name(n: nat) -> Seq<char> {
    "conflict-"@ + decimal(n)
}

/// The order in which two agents are named does not change their pair.
pub proof fn lemma_pair_key_symmetric(a: Seq<char>, b: Seq<char>)
    ensures
        pair_key(a, b) == pair_key(b, a),
        lex_le(pair_key(a, b).0, pair_key(a, b).1),
{
    lemma_lex_total(a, b);
    lemma_lex_asymmetric(a, b);
    lemma_lex_irreflexive(a);
}

/// The ordered pair for `a` and `b`.
pub fn key(a: &str, b: &str) -> (r: (String, String))
    ensures
        (r.0@, r.1@) == pair_key(a@, b@),
{
    if str_le(a, b) {
        (owned(a), owned(b))
    } else {
        (owned(b), owned(a))
    }
}

/// Holds the currently open conflicts, at most one per unordered pair of
/// agents. Settled conflicts are removed; their history lives in the event log.
pub struct ConflictStore {
    open: Vec<Conflict>,
    next_id: u64,
}

pub open spec fn views(v: Seq<Conflict>) -> Seq<ConflictView> {
    v.map_values(|c: Conflict| c@)
}

impl View for ConflictStore {
    type V = Seq<ConflictView>;

    closed spec fn view(&self) -> Seq<ConflictView> {
        views(self.open@)
    }
}

/// Index of the open conflict for the ordered pair `k`, if any.
pub open spec fn has_pair(s: Seq<ConflictView>, k: (Seq<char>, Seq<char>)) -> bool {
    exists|i: int| 0 <= i < s.len() && (#[trigger] s[i]).agents == k
}

pub open spec fn has_id(s: Seq<ConflictView>, id: Seq<char>) -> bool {
    exists|i: int| 0 <= i < s.len() && (#[trigger] s[i]).conflict_id == id
}

/// `c` with its state set to `st`.
pub open spec fn with_state(c: ConflictView, st: ConflictState) -> ConflictView {
    ConflictView { state: st, ..c }
}

/// The conflict involves `agent`.
pub open spec fn involves(c: ConflictView, agent: Seq<char>) -> bool {
    c.agents.0 == agent || c.agents.1 == agent
}

/// Still waiting for proposals and aged past the timeout.
pub open spec fn is_timed_out(c: ConflictView, now_ms: u64, timeout_ms: u64) -> bool {
    &&& (if now_ms >= c.opened_at_ms { now_ms - c.opened_at_ms } else { 0 }) > timeout_ms
    &&& !both_have_proposed(c)
    &&& (c.state == ConflictState::Detected || c.state == ConflictState::Negotiating || c.state
        == ConflictState::AwaitingAgentResponse)
}

impl ConflictStore {
    /// The number of the last conflict opened.
    pub closed spec fn last_number(&self) -> nat {
        self.next_id as nat
    }

    /// Pairs and ids are unique; pairs are ordered; ids are numbered from
    /// 1 to `last_number`; proposals come from participants only.
    pub closed spec fn wf(&self) -> bool {
        let s = self@;
        &&& forall|i: int, j: int| 0 <= i < j < s.len() ==> (#[trigger] s[i]).agents != (#[trigger] s[j]).agents
        &&& forall|i: int, j: int|
            0 <= i < j < s.len() ==> (#[trigger] s[i]).conflict_id != (#[trigger] s[j]).conflict_id
        &&& forall|i: int|
            0 <= i < s.len() ==> exists|n: nat|
                1 <= n <= self.next_id && (#[trigger] s[i]).conflict_id == #[trigger] conflict_name(n)
        &&& forall|i: int| 0 <= i < s.len() ==> lex_le((#[trigger] s[i]).agents.0, s[i].agents.1)
        &&& forall|i: int| 0 <= i < s.len() ==> proposals_ok(#[trigger] s[i])
    }

    /// How many conflicts have been opened (the number of the last one).
    pub fn opened_total(&self) -> (r: u64)
        ensures
            r == self.last_number(),
    {
        self.next_id
    }

    pub fn new() -> (r: Self)
        ensures
            r.wf(),
            r@ == Seq::<ConflictView>::empty(),
            r.last_number() == 0,
    {
        let r = ConflictStore { open: Vec::new(), next_id: 0 };
        assert(r@ =~= Seq::<ConflictView>::empty());
        r
    }

    fn find_pair(&self, k: &(String, String)) -> (r: Option<usize>)
        ensures
            match r {
                Some(i) => i < self@.len() && self@[i as int].agents == (k.0@, k.1@),
                None => !has_pair(self@, (k.0@, k.1@)),
            },
    {
        let mut i: usize = 0;
        while i < self.open.len()
            invariant
                i <= self.open@.len(),
                forall|j: int| 0 <= j < i ==> (#[trigger] self@[j]).agents != (k.0@, k.1@),
            decreases self.open.len() - i,
        {
            let c = &self.open[i];
            if str_eq(c.agents.0.as_str(), k.0.as_str()) && str_eq(c.agents.1.as_str(), k.1.as_str()) {
                return Some(i);
            }
            i = i + 1;
        }
        None
    }

    fn find_id(&self, id: &str) -> (r: Option<usize>)
        ensures
            match r {
                Some(i) => i < self@.len() && self@[i as int].conflict_id == id@,
                None => !has_id(self@, id@),
            },
    {
        let mut i: usize = 0;
        while i < self.open.len()
            invariant
                i <= self.open@.len(),
                forall|j: int| 0 <= j < i ==> (#[trigger] self@[j]).conflict_id != id@,
            decreases self.open.len() - i,
        {
            if str_eq(self.open[i].conflict_id.as_str(), id) {
                return Some(i);
            }
            i = i + 1;
        }
        None
    }

    pub fn has_open(&self, a: &str, b: &str) -> (r: bool)
        ensures
            r == has_pair(self@, pair_key(a@, b@)),
    {
        let k = key(a, b);
        self.find_pair(&k).is_some()
    }

    /// Opens a conflict for the pair, numbered after the last one. Returns
    /// None, and changes nothing, if the pair already has an open conflict.
    pub fn open(
        &mut self,
        a: &str,
        b: &str,
        trigger_heat: u32,
        opened_at_ms: u64,
        paths: Vec<String>,
        domains: Vec<String>,
        intents: Vec<String>,
    ) -> (r: Option<Conflict>)
        requires
            old(self).wf(),
            old(self).last_number() < u64::MAX,
        ensures
            final(self).wf(),
            has_pair(old(self)@, pair_key(a@, b@)) ==> {
                &&& r is None
                &&& final(self)@ == old(self)@
                &&& final(self).last_number() == old(self).last_number()
            },
            !has_pair(old(self)@, pair_key(a@, b@)) ==> {
                &&& r is Some
                &&& r->0@ == ConflictView {
                    conflict_id: conflict_name(old(self).last_number() + 1),
                    agents: pair_key(a@, b@),
                    state: ConflictState::Detected,
                    trigger_heat,
                    paths: strs(paths@),
                    domains: strs(domains@),
                    intents: strs(intents@),
                    proposals: Seq::empty(),
                    opened_at_ms,
                }
                &&& final(self)@ == old(self)@.push(r->0@)
                &&& final(self).last_number() == old(self).last_number() + 1
            },
    {
        let k = key(a, b);
        if self.find_pair(&k).is_some() {
            return None;
        }
        let ghost old_s = self@;
        self.next_id = self.next_id + 1;
        let conflict = Conflict {
            conflict_id: numbered("conflict-", self.next_id),
            agents: k,
            state: ConflictState::Detected,
            trigger_heat,
            paths,
            domains,
            intents,
            proposals: Vec::new(),
            opened_at_ms,
        };
        assert(proposal_entries(conflict.proposals@) =~= Seq::empty());
        let copy = conflict.copy();
        self.open.push(copy);
        proof {
            let s = self@;
            assert(s =~= old_s.push(conflict@));
            lemma_pair_key_symmetric(a@, b@);
            assert forall|i: int| 0 <= i < s.len() implies exists|n: nat|
                1 <= n <= self.next_id && (#[trigger] s[i]).conflict_id == #[trigger] conflict_name(n) by {
                if i == s.len() - 1 {
                    assert(s[i].conflict_id == conflict_name(self.next_id as nat));
                } else {
                    assert(s[i] == old_s[i]);
                }
            }
            assert forall|i: int, j: int| 0 <= i < j < s.len() implies (#[trigger] s[i]).conflict_id
                != (#[trigger] s[j]).conflict_id by {
                if j == s.len() - 1 {
                    assert(s[i] == old_s[i]);
                    let n = choose|n: nat| 1 <= n <= self.next_id - 1 && old_s[i].conflict_id == #[trigger] conflict_name(n);
                    if s[i].conflict_id == s[j].conflict_id {
                        lemma_numbered_injective("conflict-"@, n, self.next_id as nat);
                    }
                } else {
                    assert(s[i] == old_s[i] && s[j] == old_s[j]);
                }
            }
            assert forall|i: int, j: int| 0 <= i < j < s.len() implies (#[trigger] s[i]).agents
                != (#[trigger] s[j]).agents by {
                if j == s.len() - 1 {
                    assert(s[i] == old_s[i]);
                } else {
                    assert(s[i] == old_s[i] && s[j] == old_s[j]);
                }
            }
            assert forall|i: int| 0 <= i < s.len() implies proposals_ok(#[trigger] s[i]) by {
                if i < s.len() - 1 {
                    assert(s[i] == old_s[i]);
                }
            }
            assert forall|i: int| 0 <= i < s.len() implies lex_le((#[trigger] s[i]).agents.0, s[i].agents.1) by {
                if i < s.len() - 1 {
                    assert(s[i] == old_s[i]);
                }
            }
        }
        Some(conflict)
    }

    /// Removes the pair's open conflict and returns it marked Resolved.
    pub fn resolve(&mut self, a: &str, b: &str) -> (r: Option<Conflict>)
        requires
            old(self).wf(),
        ensures
            final(self).wf(),
            final(self).last_number() == old(self).last_number(),
            match r {
                Some(c) => exists|i: int|
                    0 <= i < old(self)@.len() && (#[trigger] old(self)@[i]).agents == pair_key(a@, b@) && c@
                        == with_state(old(self)@[i], ConflictState::Resolved) && final(self)@ == old(self)@.remove(i),
                None => !has_pair(old(self)@, pair_key(a@, b@)) && final(self)@ == old(self)@,
            },
    {
        let k = key(a, b);
        match self.find_pair(&k) {
            Some(i) => {
                let c = self.take_at(i, ConflictState::Resolved);
                Some(c)
            },
            None => None,
        }
    }

    /// Removes the conflict at `i`, returning it with state `st`.
    fn take_at(&mut self, i: usize, st: ConflictState) -> (c: Conflict)
        requires
            old(self).wf(),
            i < old(self)@.len(),
        ensures
            final(self).wf(),
            final(self).last_number() == old(self).last_number(),
            c@ == with_state(old(self)@[i as int], st),
            final(self)@ == old(self)@.remove(i as int),
    {
        let ghost old_s = self@;
        let mut c = self.open.remove(i);
        c.state = st;
        proof {
            let s = self@;
            assert(s =~= old_s.remove(i as int));
            assert forall|x: int| 0 <= x < s.len() implies #[trigger] s[x] == old_s[if x < i { x } else { x + 1 }] by {}
            assert forall|x: int, y: int| 0 <= x < y < s.len() implies (#[trigger] s[x]).agents != (#[trigger] s[y]).agents by {
                assert(s[x] == old_s[if x < i { x } else { x + 1 }]);
                assert(s[y] == old_s[if y < i { y } else { y + 1 }]);
            }
            assert forall|x: int, y: int| 0 <= x < y < s.len() implies (#[trigger] s[x]).conflict_id != (#[trigger] s[y]).conflict_id by {
                assert(s[x] == old_s[if x < i { x } else { x + 1 }]);
                assert(s[y] == old_s[if y < i { y } else { y + 1 }]);
            }
            assert forall|x: int| 0 <= x < s.len() implies exists|n: nat|
                1 <= n <= self.next_id && (#[trigger] s[x]).conflict_id == #[trigger] conflict_name(n) by {
                assert(s[x] == old_s[if x < i { x } else { x + 1 }]);
            }
            assert forall|x: int| 0 <= x < s.len() implies lex_le((#[trigger] s[x]).agents.0, s[x].agents.1) by {
                assert(s[x] == old_s[if x < i { x } else { x + 1 }]);
            }
            assert forall|x: int| 0 <= x < s.len() implies proposals_ok(#[trigger] s[x]) by {
                assert(s[x] == old_s[if x < i { x } else { x + 1 }]);
            }
        }
        c
    }

    /// Removes every open conflict involving `agent`; returns them, in store
    /// order, marked Aborted.
    pub fn abort_for_agent(&mut self, agent: &str) -> (r: Vec<Conflict>)
        requires
            old(self).wf(),
        ensures
            final(self).wf(),
            final(self).last_number() == old(self).last_number(),
            final(self)@ == old(self)@.filter(|c: ConflictView| !involves(c, agent@)),
            views(r@) == old(self)@.filter(|c: ConflictView| involves(c, agent@)).map_values(
                |c: ConflictView| with_state(c, ConflictState::Aborted),
            ),
    {
        let ghost old_s = self@;
        let ghost out_p = |c: ConflictView| involves(c, agent@);
        let ghost in_p = |c: ConflictView| !involves(c, agent@);
        let ghost abort = |c: ConflictView| with_state(c, ConflictState::Aborted);
        let mut out: Vec<Conflict> = Vec::new();
        let mut i: usize = 0;
        let mut seen: Ghost<int> = Ghost(0);
        while i < self.open.len()
            invariant
                self.wf(),
                self.last_number() == old(self).last_number(),
                out_p == (|c: ConflictView| involves(c, agent@)),
                in_p == (|c: ConflictView| !involves(c, agent@)),
                abort == (|c: ConflictView| with_state(c, ConflictState::Aborted)),
                0 <= seen@ <= old_s.len(),
                i <= self@.len(),
                self@.subrange(0, i as int) == old_s.subrange(0, seen@).filter(in_p),
                self@.subrange(i as int, self@.len() as int) == old_s.subrange(seen@, old_s.len() as int),
                views(out@) == old_s.subrange(0, seen@).filter(out_p).map_values(abort),
            decreases self@.len() - i,
        {
            let ghost s = self@;
            let ghost sn = seen@;
            let hit = str_eq(self.open[i].agents.0.as_str(), agent) || str_eq(self.open[i].agents.1.as_str(), agent);
            proof {
                assert(s.subrange(i as int, s.len() as int).len() > 0);
                assert(sn < old_s.len());
                assert(s[i as int] == old_s[sn]) by {
                    assert(s.subrange(i as int, s.len() as int)[0] == s[i as int]);
                    assert(old_s.subrange(sn, old_s.len() as int)[0] == old_s[sn]);
                }
                let pre = old_s.subrange(0, sn + 1);
                assert(pre.drop_last() =~= old_s.subrange(0, sn));
                assert(pre.last() == old_s[sn]);
                reveal_with_fuel(Seq::filter, 1);
            }
            let ghost out_before = views(out@);
            if hit {
                let c = self.take_at(i, ConflictState::Aborted);
                out.push(c);
                proof {
                    seen@ = sn + 1;
                    let s2 = self@;
                    assert(s2.subrange(0, i as int) =~= s.subrange(0, i as int));
                    assert(s2.subrange(i as int, s2.len() as int) =~= s.subrange(i + 1, s.len() as int));
                    assert(old_s.subrange(seen@, old_s.len() as int) =~= old_s.subrange(sn, old_s.len() as int).drop_first());
                    assert(s.subrange(i + 1, s.len() as int) =~= s.subrange(i as int, s.len() as int).drop_first());
                    assert(views(out@) =~= out_before.push(abort(old_s[sn])));
                }
            } else {
                i = i + 1;
                proof {
                    seen@ = sn + 1;
                    let s2 = self@;
                    assert(s2.subrange(0, i as int) =~= s.subrange(0, i - 1).push(s[i - 1]));
                    assert(old_s.subrange(seen@, old_s.len() as int) =~= old_s.subrange(sn, old_s.len() as int).drop_first());
                    assert(s.subrange(i as int, s.len() as int) =~= s.subrange(i - 1, s.len() as int).drop_first());
                }
            }
        }
        proof {
            assert(self@.subrange(0, i as int) =~= self@);
            assert(old_s.subrange(seen@, old_s.len() as int).len() == 0);
            assert(old_s.subrange(0, seen@) =~= old_s);
        }
        out
    }

    pub fn open_count(&self) -> (r: usize)
        ensures
            r == self@.len(),
    {
        self.open.len()
    }

    /// Records `from`'s proposal for the conflict and moves it to
    /// NEGOTIATING. Returns false, changing nothing, if no open conflict has
    /// that id or `from` is not one of its two participants.
    pub fn record_proposal(&mut self, conflict_id: &str, from: &str, proposal: Proposal) -> (r: bool)
        requires
            old(self).wf(),
        ensures
            final(self).wf(),
            final(self).last_number() == old(self).last_number(),
            r == (has_id(old(self)@, conflict_id@) && exists|i: int|
                0 <= i < old(self)@.len() && (#[trigger] old(self)@[i]).conflict_id == conflict_id@ && involves(
                    old(self)@[i],
                    from@,
                )),
            !r ==> final(self)@ == old(self)@,
            r ==> exists|i: int|
                0 <= i < old(self)@.len() && (#[trigger] old(self)@[i]).conflict_id == conflict_id@ && final(self)@
                    == old(self)@.update(
                    i,
                    ConflictView {
                        state: ConflictState::Negotiating,
                        proposals: put_proposal(old(self)@[i].proposals, from@, proposal@),
                        ..old(self)@[i]
                    },
                ),
    {
        match self.find_id(conflict_id) {
            None => false,
            Some(i) => {
                let ghost old_s = self@;
                proof {
                    assert forall|j: int| 0 <= j < old_s.len() && (#[trigger] old_s[j]).conflict_id == conflict_id@ implies j
                        == i by {
                        if j != i as int {
                            if j < i {
                                assert(old_s[j].conflict_id != old_s[i as int].conflict_id);
                            } else {
                                assert(old_s[i as int].conflict_id != old_s[j].conflict_id);
                            }
                        }
                    }
                }
                let participant = str_eq(self.open[i].agents.0.as_str(), from) || str_eq(
                    self.open[i].agents.1.as_str(),
                    from,
                );
                if !participant {
                    return false;
                }
                let mut c = self.open.remove(i);
                let ghost cv = c@;
                proof {
                    assert(cv == old_s[i as int]);
                    assert(proposals_ok(cv));
                }
                put_proposal_exec(&mut c.proposals, from, proposal);
                c.state = ConflictState::Negotiating;
                self.open.insert(i, c);
                proof {
                    let s = self@;
                    let nc = ConflictView {
                        state: ConflictState::Negotiating,
                        proposals: put_proposal(old_s[i as int].proposals, from@, proposal@),
                        ..old_s[i as int]
                    };
                    assert(s =~= old_s.update(i as int, nc));
                    lemma_put_proposal_ok(cv, from@, proposal@);
                    assert(proposals_ok(nc));
                    assert forall|x: int, y: int| 0 <= x < y < s.len() implies (#[trigger] s[x]).agents != (#[trigger] s[y]).agents by {
                        if x != i && y != i {
                            assert(s[x] == old_s[x] && s[y] == old_s[y]);
                        } else if x == i {
                            assert(s[y] == old_s[y]);
                        } else {
                            assert(s[x] == old_s[x]);
                        }
                    }
                    assert forall|x: int, y: int| 0 <= x < y < s.len() implies (#[trigger] s[x]).conflict_id != (#[trigger] s[y]).conflict_id by {
                        if x != i && y != i {
                            assert(s[x] == old_s[x] && s[y] == old_s[y]);
                        } else if x == i {
                            assert(s[y] == old_s[y]);
                        } else {
                            assert(s[x] == old_s[x]);
                        }
                    }
                    assert forall|x: int| 0 <= x < s.len() implies exists|n: nat|
                        1 <= n <= self.next_id && (#[trigger] s[x]).conflict_id == #[trigger] conflict_name(n) by {
                        if x != i {
                            assert(s[x] == old_s[x]);
                        }
                    }
                    assert forall|x: int| 0 <= x < s.len() implies lex_le((#[trigger] s[x]).agents.0, s[x].agents.1) by {
                        if x != i {
                            assert(s[x] == old_s[x]);
                        }
                    }
                    assert forall|x: int| 0 <= x < s.len() implies proposals_ok(#[trigger] s[x]) by {
                        if x != i {
                            assert(s[x] == old_s[x]);
                        }
                    }
                }
                true
            },
        }
    }

    /// The open conflict with this id has a proposal from both participants.
    pub fn both_proposed(&self, conflict_id: &str) -> (r: bool)
        requires
            self.wf(),
        ensures
            r == exists|i: int|
                0 <= i < self@.len() && (#[trigger] self@[i]).conflict_id == conflict_id@ && both_have_proposed(self@[i]),
    {
        match self.find_id(conflict_id) {
            None => false,
            Some(i) => {
                proof {
                    self.lemma_id_unique(i as int, conflict_id@);
                }
                let c = &self.open[i];
                let x = proposal_index(&c.proposals, c.agents.0.as_str()).is_some();
                let y = proposal_index(&c.proposals, c.agents.1.as_str()).is_some();
                proof {
                    assert(self@[i as int] == c@);
                    assert(c@.proposals == proposal_entries(c.proposals@));
                    assert(x == has_proposal(c@, c@.agents.0));
                    assert(y == has_proposal(c@, c@.agents.1));
                }
                x && y
            },
        }
    }

    /// What well-formedness gives callers: ids are unique and proposal
    /// tables are keyed by distinct participants.
    pub proof fn lemma_wf_facts(&self)
        requires
            self.wf(),
        ensures
            forall|i: int, j: int|
                0 <= i < self@.len() && 0 <= j < self@.len() && (#[trigger] self@[i]).conflict_id
                    == (#[trigger] self@[j]).conflict_id ==> i == j,
            forall|i: int| 0 <= i < self@.len() ==> proposals_ok(#[trigger] self@[i]),
    {
        let s = self@;
        assert forall|i: int, j: int|
            0 <= i < s.len() && 0 <= j < s.len() && (#[trigger] s[i]).conflict_id == (#[trigger] s[j]).conflict_id implies i
            == j by {
            if i < j {
                assert(s[i].conflict_id != s[j].conflict_id);
            } else if j < i {
                assert(s[j].conflict_id != s[i].conflict_id);
            }
        }
    }

    proof fn lemma_id_unique(&self, i: int, id: Seq<char>)
        requires
            self.wf(),
            0 <= i < self@.len(),
            self@[i].conflict_id == id,
        ensures
            forall|j: int| 0 <= j < self@.len() && (#[trigger] self@[j]).conflict_id == id ==> j == i,
    {
        let s = self@;
        assert forall|j: int| 0 <= j < s.len() && (#[trigger] s[j]).conflict_id == id implies j == i by {
            if j < i {
                assert(s[j].conflict_id != s[i].conflict_id);
            } else if j > i {
                assert(s[i].conflict_id != s[j].conflict_id);
            }
        }
    }

    /// The open conflict with this id.
    pub fn get_by_id(&self, conflict_id: &str) -> (r: Option<&Conflict>)
        requires
            self.wf(),
        ensures
            match r {
                Some(c) => exists|i: int|
                    0 <= i < self@.len() && (#[trigger] self@[i]).conflict_id == conflict_id@ && c@ == self@[i],
                None => !has_id(self@, conflict_id@),
            },
    {
        match self.find_id(conflict_id) {
            None => None,
            Some(i) => Some(&self.open[i]),
        }
    }

    /// Sets the state of the open conflict with this id; no change if there is none.
    pub fn set_state(&mut self, conflict_id: &str, state: ConflictState)
        requires
            old(self).wf(),
        ensures
            final(self).wf(),
            final(self).last_number() == old(self).last_number(),
            !has_id(old(self)@, conflict_id@) ==> final(self)@ == old(self)@,
            has_id(old(self)@, conflict_id@) ==> exists|i: int|
                0 <= i < old(self)@.len() && (#[trigger] old(self)@[i]).conflict_id == conflict_id@ && final(self)@
                    == old(self)@.update(i, with_state(old(self)@[i], state)),
    {
        match self.find_id(conflict_id) {
            None => {},
            Some(i) => {
                self.restate_at(i, state);
            },
        }
    }

    /// Sets the state of the conflict at `i`.
    fn restate_at(&mut self, i: usize, state: ConflictState)
        requires
            old(self).wf(),
            i < old(self)@.len(),
        ensures
            final(self).wf(),
            final(self).last_number() == old(self).last_number(),
            final(self)@ == old(self)@.update(i as int, with_state(old(self)@[i as int], state)),
    {
        let ghost old_s = self@;
        let mut c = self.open.remove(i);
        c.state = state;
        self.open.insert(i, c);
        proof {
            let s = self@;
            assert(s =~= old_s.update(i as int, with_state(old_s[i as int], state)));
            assert forall|x: int, y: int| 0 <= x < y < s.len() implies (#[trigger] s[x]).agents != (#[trigger] s[y]).agents by {
                assert(s[x].agents == old_s[x].agents && s[y].agents == old_s[y].agents);
            }
            assert forall|x: int, y: int| 0 <= x < y < s.len() implies (#[trigger] s[x]).conflict_id != (#[trigger] s[y]).conflict_id by {
                assert(s[x].conflict_id == old_s[x].conflict_id && s[y].conflict_id == old_s[y].conflict_id);
            }
            assert forall|x: int| 0 <= x < s.len() implies exists|n: nat|
                1 <= n <= self.next_id && (#[trigger] s[x]).conflict_id == #[trigger] conflict_name(n) by {
                assert(s[x].conflict_id == old_s[x].conflict_id);
            }
            assert forall|x: int| 0 <= x < s.len() implies lex_le((#[trigger] s[x]).agents.0, s[x].agents.1) by {
                assert(s[x].agents == old_s[x].agents);
            }
            assert forall|x: int| 0 <= x < s.len() implies proposals_ok(#[trigger] s[x]) by {
                assert(s[x].agents == old_s[x].agents && s[x].proposals == old_s[x].proposals);
                assert(proposals_ok(old_s[x]));
            }
        }
    }

    /// Moves every conflict still waiting for proposals past `timeout_ms` to
    /// AWAITING_USER_DECISION; returns them, in store order, as they now are.
    pub fn sweep_timeouts(&mut self, now_ms: u64, timeout_ms: u64) -> (r: Vec<Conflict>)
        requires
            old(self).wf(),
        ensures
            final(self).wf(),
            final(self).last_number() == old(self).last_number(),
            final(self)@ == old(self)@.map_values(
                |c: ConflictView|
                    if is_timed_out(c, now_ms, timeout_ms) {
                        with_state(c, ConflictState::AwaitingUserDecision)
                    } else {
                        c
                    },
            ),
            views(r@) == old(self)@.filter(|c: ConflictView| is_timed_out(c, now_ms, timeout_ms)).map_values(
                |c: ConflictView| with_state(c, ConflictState::AwaitingUserDecision),
            ),
    {
        let ghost old_s = self@;
        let ghost pred = |c: ConflictView| is_timed_out(c, now_ms, timeout_ms);
        let ghost f = |c: ConflictView| with_state(c, ConflictState::AwaitingUserDecision);
        let ghost step = |c: ConflictView|
            if is_timed_out(c, now_ms, timeout_ms) {
                with_state(c, ConflictState::AwaitingUserDecision)
            } else {
                c
            };
        let mut out: Vec<Conflict> = Vec::new();
        let mut i: usize = 0;
        while i < self.open.len()
            invariant
                self.wf(),
                self.last_number() == old(self).last_number(),
                pred == (|c: ConflictView| is_timed_out(c, now_ms, timeout_ms)),
                f == (|c: ConflictView| with_state(c, ConflictState::AwaitingUserDecision)),
                step == (|c: ConflictView|
                    if is_timed_out(c, now_ms, timeout_ms) {
                        with_state(c, ConflictState::AwaitingUserDecision)
                    } else {
                        c
                    }),
                self@.len() == old_s.len(),
                i <= self@.len(),
                forall|j: int| 0 <= j < i ==> #[trigger] self@[j] == step(old_s[j]),
                forall|j: int| i <= j < self@.len() ==> #[trigger] self@[j] == old_s[j],
                views(out@) == old_s.subrange(0, i as int).filter(pred).map_values(f),
            decreases self@.len() - i,
        {
            let c = &self.open[i];
            let age = now_ms.saturating_sub(c.opened_at_ms);
            let both = proposal_index(&c.proposals, c.agents.0.as_str()).is_some() && proposal_index(
                &c.proposals,
                c.agents.1.as_str(),
            ).is_some();
            let waiting = match c.state {
                ConflictState::Detected | ConflictState::Negotiating | ConflictState::AwaitingAgentResponse => true,
                _ => false,
            };
            let hit = age > timeout_ms && !both && waiting;
            proof {
                let pre = old_s.subrange(0, i + 1);
                assert(pre.drop_last() =~= old_s.subrange(0, i as int));
                assert(self@[i as int] == c@);
                assert(self@[i as int] == old_s[i as int]);
                assert(pre.last() == c@);
                assert(c@.proposals == proposal_entries(c.proposals@));
                assert(both == both_have_proposed(c@));
                assert(hit == pred(c@));
                reveal_with_fuel(Seq::filter, 1);
            }
            let ghost out_before = views(out@);
            if hit {
                self.restate_at(i, ConflictState::AwaitingUserDecision);
                let snap = self.open[i].copy();
                proof {
                    assert(self@[i as int] == self.open@[i as int]@);
                    assert(snap@ == f(old_s[i as int]));
                }
                out.push(snap);
                proof {
                    assert(views(out@) =~= out_before.push(f(old_s[i as int])));
                }
            }
            i = i + 1;
        }
        proof {
            assert(self@ =~= old_s.map_values(step));
            assert(old_s.subrange(0, old_s.len() as int) =~= old_s);
        }
        out
    }

    /// Removes the conflict with this id and returns it marked Resolved.
    pub fn resolve_by_id(&mut self, conflict_id: &str) -> (r: Option<Conflict>)
        requires
            old(self).wf(),
        ensures
            final(self).wf(),
            final(self).last_number() == old(self).last_number(),
            match r {
                Some(c) => exists|i: int|
                    0 <= i < old(self)@.len() && (#[trigger] old(self)@[i]).conflict_id == conflict_id@ && c@
                        == with_state(old(self)@[i], ConflictState::Resolved) && final(self)@ == old(self)@.remove(i),
                None => !has_id(old(self)@, conflict_id@) && final(self)@ == old(self)@,
            },
    {
        match self.find_id(conflict_id) {
            None => None,
            Some(i) => Some(self.take_at(i, ConflictState::Resolved)),
        }
    }

    /// Ids, in store order, of the conflicts still waiting for proposals
    /// that have aged past `timeout_ms`.
    pub fn timed_out(&self, now_ms: u64, timeout_ms: u64) -> (r: Vec<String>)
        ensures
            strs(r@) == self@.filter(|c: ConflictView| is_timed_out(c, now_ms, timeout_ms)).map_values(
                |c: ConflictView| c.conflict_id,
            ),
    {
        let ghost pred = |c: ConflictView| is_timed_out(c, now_ms, timeout_ms);
        let ghost id_of = |c: ConflictView| c.conflict_id;
        let mut out: Vec<String> = Vec::new();
        let mut i: usize = 0;
        while i < self.open.len()
            invariant
                i <= self@.len(),
                pred == (|c: ConflictView| is_timed_out(c, now_ms, timeout_ms)),
                id_of == (|c: ConflictView| c.conflict_id),
                strs(out@) == self@.subrange(0, i as int).filter(pred).map_values(id_of),
            decreases self@.len() - i,
        {
            let c = &self.open[i];
            let age = now_ms.saturating_sub(c.opened_at_ms);
            let both = proposal_index(&c.proposals, c.agents.0.as_str()).is_some() && proposal_index(
                &c.proposals,
                c.agents.1.as_str(),
            ).is_some();
            let waiting = match c.state {
                ConflictState::Detected | ConflictState::Negotiating | ConflictState::AwaitingAgentResponse => true,
                _ => false,
            };
            proof {
                let pre = self@.subrange(0, i + 1);
                assert(pre.drop_last() =~= self@.subrange(0, i as int));
                assert(self@[i as int] == c@);
                assert(pre.last() == c@);
                assert(c@.proposals == proposal_entries(c.proposals@));
                assert(both == both_have_proposed(c@));
                assert(waiting == (c@.state == ConflictState::Detected || c@.state == ConflictState::Negotiating
                    || c@.state == ConflictState::AwaitingAgentResponse));
                assert(pred(c@) == (age > timeout_ms && !both && waiting));
                reveal_with_fuel(Seq::filter, 1);
            }
            let ghost out_before = strs(out@);
            if age > timeout_ms && !both && waiting {
                out.push(c.conflict_id.clone());
                assert(strs(out@) =~= out_before.push(c@.conflict_id));
            }
            i = i + 1;
        }
        assert(self@.subrange(0, self@.len() as int) =~= self@);
        out
    }

    /// All open conflicts, in store order.
    pub fn all_open(&self) -> (r: Vec<&Conflict>)
        ensures
            r@.len() == self@.len(),
            forall|i: int| 0 <= i < r@.len() ==> (#[trigger] r@[i])@ == self@[i],
    {
        let mut out: Vec<&Conflict> = Vec::new();
        let mut i: usize = 0;
        while i < self.open.len()
            invariant
                i <= self@.len(),
                out@.len() == i,
                forall|j: int| 0 <= j < i ==> (#[trigger] out@[j])@ == self@[j],
            decreases self@.len() - i,
        {
            out.push(&self.open[i]);
            i = i + 1;
        }
        out
    }
}

/// Position of `agent`'s proposal in the table, if any.
pub fn proposal_index(ps: &Vec<(String, Proposal)>, agent: &str) -> (r: Option<usize>)
    ensures
        match r {
            Some(j) => j < ps@.len() && ps@[j as int].0@ == agent@,
            None => forall|j: int| 0 <= j < ps@.len() ==> (#[trigger] ps@[j]).0@ != agent@,
        },
        r is Some <==> exists|j: int| 0 <= j < ps@.len() && (#[trigger] proposal_entries(ps@)[j]).0 == agent@,
{
    let mut j: usize = 0;
    while j < ps.len()
        invariant
            j <= ps@.len(),
            forall|x: int| 0 <= x < j ==> (#[trigger] ps@[x]).0@ != agent@,
        decreases ps.len() - j,
    {
        if str_eq(ps[j].0.as_str(), agent) {
            assert(proposal_entries(ps@)[j as int].0 == agent@);
            return Some(j);
        }
        j = j + 1;
    }
    assert forall|x: int| 0 <= x < ps@.len() implies (#[trigger] proposal_entries(ps@)[x]).0 != agent@ by {
        assert(ps@[x].0@ != agent@);
    }
    None
}

fn put_proposal_exec(ps: &mut Vec<(String, Proposal)>, agent: &str, p: Proposal)
    requires
        forall|i: int, j: int|
            0 <= i < j < old(ps)@.len() ==> (#[trigger] proposal_entries(old(ps)@)[i]).0 != (
            #[trigger] proposal_entries(old(ps)@)[j]).0,
    ensures
        proposal_entries(final(ps)@) == put_proposal(proposal_entries(old(ps)@), agent@, p@),
{
    let ghost e = proposal_entries(ps@);
    match proposal_index(ps, agent) {
        Some(j) => {
            proof {
                assert(e[j as int].0 == agent@);
                let k = choose|x: int| 0 <= x < e.len() && (#[trigger] e[x]).0 == agent@;
                if k < j {
                    assert(e[k].0 != e[j as int].0);
                } else if k > j {
                    assert(e[j as int].0 != e[k].0);
                }
            }
            ps.set(j, (owned(agent), p));
            assert(proposal_entries(ps@) =~= e.update(j as int, (agent@, p@)));
        },
        None => {
            ps.push((owned(agent), p));
            assert(proposal_entries(ps@) =~= e.push((agent@, p@)));
        },
    }
}

/// Putting a participant's proposal keeps the table well formed.
proof fn lemma_put_proposal_ok(c: ConflictView, agent: Seq<char>, p: ProposalView)
    requires
        proposals_ok(c),
        involves(c, agent),
    ensures
        proposals_ok(ConflictView { proposals: put_proposal(c.proposals, agent, p), ..c }),
{
    let ps = c.proposals;
    let q = put_proposal(ps, agent, p);
    if exists|j: int| 0 <= j < ps.len() && (#[trigger] ps[j]).0 == agent {
        let k = choose|j: int| 0 <= j < ps.len() && (#[trigger] ps[j]).0 == agent;
        assert(q == ps.update(k, (agent, p)));
        assert forall|i: int, j: int| 0 <= i < j < q.len() implies (#[trigger] q[i]).0 != (#[trigger] q[j]).0 by {
            assert(q[i].0 == ps[i].0 && q[j].0 == ps[j].0);
        }
        assert forall|i: int| 0 <= i < q.len() implies (#[trigger] q[i]).0 == c.agents.0 || q[i].0 == c.agents.1 by {
            assert(q[i].0 == ps[i].0);
        }
    } else {
        assert(q == ps.push((agent, p)));
        assert forall|i: int, j: int| 0 <= i < j < q.len() implies (#[trigger] q[i]).0 != (#[trigger] q[j]).0 by {
            if j == q.len() - 1 {
                assert(q[i] == ps[i]);
            } else {
                assert(q[i] == ps[i] && q[j] == ps[j]);
            }
        }
        assert forall|i: int| 0 <= i < q.len() implies (#[trigger] q[i]).0 == c.agents.0 || q[i].0 == c.agents.1 by {
            if i < q.len() - 1 {
                assert(q[i] == ps[i]);
            }
        }
    }
}

// ---------------------------------------------------------------------------
// Comparing two proposals
// ---------------------------------------------------------------------------

pub struct ConflictConfig {
    pub protected_paths: Vec<String>,
    pub allow_co_own: bool,
    pub proposal_timeout_ms: u64,
}

impl Default for ConflictConfig {
    /// No protected paths, co-ownership allowed, one minute for proposals.
    fn default() -> (r: Self)
        ensures
            r.protected_paths@.len() == 0,
            r.allow_co_own,
            r.proposal_timeout_ms == 60_000,
    {
        ConflictConfig { protected_paths: Vec::new(), allow_co_own: true, proposal_timeout_ms: 60_000 }
    }
}

#[derive(Debug, Clone, PartialEq, Eq)]
pub enum Decision {
    AutoResolve { resolution: &'static str },
    Escalate { reason: &'static str },
}

/// What a decision says, by its outcome's name.
pub enum DecisionView {
    AutoResolve(Seq<char>),
    Escalate(Seq<char>),
}

impl View for Decision {
    type V = DecisionView;

    open spec fn view(&self) -> DecisionView {
        match self {
            Decision::AutoResolve { resolution } => DecisionView::AutoResolve(resolution@),
            Decision::Escalate { reason } => DecisionView::Escalate(reason@),
        }
    }
}

/// The claim change keeps or takes file `f`.
pub open spec fn change_mentions(c: crate::cap::ClaimChangeView, f: Seq<char>) -> bool {
    (c.keep is Some && c.keep->0.contains(f)) || (c.take is Some && c.take->0.contains(f))
}

/// The proposal keeps or takes file `f` in one of its first `n` claim changes.
pub open spec fn mentions_within(p: ProposalView, n: int, f: Seq<char>) -> bool {
    exists|i: int| 0 <= i < n && change_mentions(#[trigger] p.claim_changes[i], f)
}

/// The proposal keeps or takes file `f` in one of its claim changes.
pub open spec fn mentions(p: ProposalView, f: Seq<char>) -> bool {
    mentions_within(p, p.claim_changes.len() as int, f)
}

/// Some path lies under a non-empty protected prefix.
pub open spec fn touches_protected(paths: Seq<Seq<char>>, protected_paths: Seq<Seq<char>>) -> bool {
    exists|i: int, j: int|
        0 <= i < paths.len() && 0 <= j < protected_paths.len() && (#[trigger] protected_paths[j]).len() > 0
            && is_prefix(protected_paths[j], #[trigger] paths[i])
}

/// The participant steps out of the way.
pub open spec fn steps_aside(k: ProposalKind) -> bool {
    k == ProposalKind::YieldClaim || k == ProposalKind::AbortTask || k == ProposalKind::TransferTask
}

/// The outcome of comparing two proposals: rules tried in order, first match wins.
pub open spec fn decision(
    a: ProposalView,
    b: ProposalView,
    paths: Seq<Seq<char>>,
    protected_paths: Seq<Seq<char>>,
    allow_co_own: bool,
) -> DecisionView {
    if a.requires_user_approval || b.requires_user_approval {
        DecisionView::Escalate("USER_APPROVAL_REQUIRED"@)
    } else if a.kind == ProposalKind::AskUser || b.kind == ProposalKind::AskUser {
        DecisionView::Escalate("AGENT_REQUESTED_USER"@)
    } else if touches_protected(paths, protected_paths) {
        DecisionView::Escalate("PROTECTED_PATH"@)
    } else if steps_aside(a.kind) || steps_aside(b.kind) {
        DecisionView::AutoResolve("PARTICIPANT_STEPPED_ASIDE"@)
    } else if (a.kind == ProposalKind::QueueTask) != (b.kind == ProposalKind::QueueTask) {
        DecisionView::AutoResolve("QUEUED"@)
    } else if a.kind == ProposalKind::SplitScope && b.kind == ProposalKind::SplitScope {
        if exists|f: Seq<char>| mentions(a, f) && mentions(b, f) {
            DecisionView::Escalate("OVERLAPPING_SPLIT"@)
        } else {
            DecisionView::AutoResolve("SCOPE_SPLIT"@)
        }
    } else if a.kind == ProposalKind::CoOwn && b.kind == ProposalKind::CoOwn {
        if allow_co_own {
            DecisionView::AutoResolve("CO_OWNERSHIP"@)
        } else {
            DecisionView::Escalate("CO_OWN_DISALLOWED"@)
        }
    } else {
        DecisionView::Escalate("INCOMPATIBLE_PROPOSALS"@)
    }
}

/// Every file the proposal keeps or takes (possibly repeated).
pub fn proposal_files(p: &Proposal) -> (r: Vec<String>)
    ensures
        forall|f: Seq<char>| strs(r@).contains(f) <==> mentions(p@, f),
{
    let mut out: Vec<String> = Vec::new();
    let mut i: usize = 0;
    while i < p.claim_changes.len()
        invariant
            i <= p.claim_changes@.len(),
            forall|f: Seq<char>| strs(out@).contains(f) <==> mentions_within(p@, i as int, f),
        decreases p.claim_changes.len() - i,
    {
        let c = &p.claim_changes[i];
        let ghost before = strs(out@);
        let ghost cv = p@.claim_changes[i as int];
        assert(cv == c@);
        match &c.keep {
            Some(k) => {
                append_strings(&mut out, k);
            },
            None => {},
        }
        let ghost mid = strs(out@);
        match &c.take {
            Some(t) => {
                append_strings(&mut out, t);
            },
            None => {},
        }
        proof {
            assert forall|f: Seq<char>| strs(out@).contains(f) <==> mentions_within(p@, i + 1, f) by {
                match c.keep {
                    Some(k) => {
                        lemma_contains_concat(before, strs(k@), f);
                    },
                    None => {},
                }
                match c.take {
                    Some(t) => {
                        lemma_contains_concat(mid, strs(t@), f);
                    },
                    None => {},
                }
                if mentions_within(p@, i + 1, f) {
                    let j = choose|j: int| 0 <= j < i + 1 && change_mentions(#[trigger] p@.claim_changes[j], f);
                    if j < i {
                        assert(mentions_within(p@, i as int, f));
                    }
                }
                if change_mentions(cv, f) {
                    assert(change_mentions(p@.claim_changes[i as int], f));
                }
                if mentions_within(p@, i as int, f) {
                    let j = choose|j: int| 0 <= j < i && change_mentions(#[trigger] p@.claim_changes[j], f);
                    assert(mentions_within(p@, i + 1, f));
                }
            }
        }
        i = i + 1;
    }
    out
}

/// Appends copies of `src` to `dst`.
fn append_strings(dst: &mut Vec<String>, src: &Vec<String>)
    ensures
        strs(final(dst)@) == strs(old(dst)@) + strs(src@),
{
    let ghost start = dst@;
    let mut i: usize = 0;
    while i < src.len()
        invariant
            i <= src@.len(),
            dst@.len() == start.len() + i,
            forall|j: int| 0 <= j < start.len() ==> (#[trigger] dst@[j])@ == start[j]@,
            forall|j: int| 0 <= j < i ==> (#[trigger] dst@[start.len() + j])@ == src@[j]@,
        decreases src.len() - i,
    {
        dst.push(src[i].clone());
        i = i + 1;
    }
    assert forall|j: int| 0 <= j < dst@.len() implies #[trigger] strs(dst@)[j] == (strs(start) + strs(src@))[j] by {
        if j >= start.len() {
            assert(dst@[start.len() + (j - start.len())]@ == src@[j - start.len()]@);
        }
    }
    assert(strs(dst@) =~= strs(start) + strs(src@));
}

proof fn lemma_contains_concat(a: Seq<Seq<char>>, b: Seq<Seq<char>>, f: Seq<char>)
    ensures
        (a + b).contains(f) <==> (a.contains(f) || b.contains(f)),
{
    let c = a + b;
    if c.contains(f) {
        let i = choose|i: int| 0 <= i < c.len() && c[i] == f;
        if i < a.len() {
            assert(a[i] == f);
        } else {
            assert(b[i - a.len()] == f);
        }
    }
    if a.contains(f) {
        let i = choose|i: int| 0 <= i < a.len() && a[i] == f;
        assert(c[i] == f);
    }
    if b.contains(f) {
        let i = choose|i: int| 0 <= i < b.len() && b[i] == f;
        assert(c[a.len() + i] == f);
    }
}

/// Some path lies under one of the configured protected prefixes (empty
/// prefixes protect nothing).
pub fn protected(paths: &Vec<String>, cfg: &ConflictConfig) -> (r: bool)
    ensures
        r == touches_protected(strs(paths@), strs(cfg.protected_paths@)),
{
    let mut i: usize = 0;
    while i < paths.len()
        invariant
            i <= paths@.len(),
            forall|x: int, j: int|
                0 <= x < i && 0 <= j < cfg.protected_paths@.len() ==> !((#[trigger] cfg.protected_paths@[j])@.len() > 0
                    && is_prefix(cfg.protected_paths@[j]@, (#[trigger] paths@[x])@)),
        decreases paths.len() - i,
    {
        let mut j: usize = 0;
        while j < cfg.protected_paths.len()
            invariant
                i < paths@.len(),
                j <= cfg.protected_paths@.len(),
                forall|y: int|
                    0 <= y < j ==> !((#[trigger] cfg.protected_paths@[y])@.len() > 0 && is_prefix(
                        cfg.protected_paths@[y]@,
                        paths@[i as int]@,
                    )),
            decreases cfg.protected_paths.len() - j,
        {
            let pp = cfg.protected_paths[j].as_str();
            if !pp.is_empty() && starts_with(paths[i].as_str(), pp) {
                proof {
                    let ps = strs(paths@);
                    let qs = strs(cfg.protected_paths@);
                    assert(qs[j as int] == cfg.protected_paths@[j as int]@);
                    assert(ps[i as int] == paths@[i as int]@);
                }
                return true;
            }
            j = j + 1;
        }
        i = i + 1;
    }
    proof {
        let ps = strs(paths@);
        let qs = strs(cfg.protected_paths@);
        assert forall|x: int, j: int|
            0 <= x < ps.len() && 0 <= j < qs.len() implies !((#[trigger] qs[j]).len() > 0 && is_prefix(
                qs[j],
                #[trigger] ps[x],
            )) by {
            assert(qs[j] == cfg.protected_paths@[j]@);
            assert(ps[x] == paths@[x]@);
        }
    }
    false
}

fn steps_aside_exec(k: ProposalKind) -> (r: bool)
    ensures
        r == steps_aside(k),
{
    match k {
        ProposalKind::YieldClaim | ProposalKind::AbortTask | ProposalKind::TransferTask => true,
        _ => false,
    }
}

/// Pure, deterministic comparison of two proposals, rules tried in order.
/// A mutual QUEUE_TASK is a deadlock that the caller handles first, so the
/// queue rule here only ever sees one queue.
pub fn compare(a: &Proposal, b: &Proposal, paths: &Vec<String>, cfg: &ConflictConfig) -> (r: Decision)
    ensures
        r@ == decision(a@, b@, strs(paths@), strs(cfg.protected_paths@), cfg.allow_co_own),
{
    if a.requires_user_approval || b.requires_user_approval {
        return Decision::Escalate { reason: "USER_APPROVAL_REQUIRED" };
    }
    if a.kind == ProposalKind::AskUser || b.kind == ProposalKind::AskUser {
        return Decision::Escalate { reason: "AGENT_REQUESTED_USER" };
    }
    if protected(paths, cfg) {
        return Decision::Escalate { reason: "PROTECTED_PATH" };
    }
    if steps_aside_exec(a.kind) || steps_aside_exec(b.kind) {
        return Decision::AutoResolve { resolution: "PARTICIPANT_STEPPED_ASIDE" };
    }
    if (a.kind == ProposalKind::QueueTask) != (b.kind == ProposalKind::QueueTask) {
        return Decision::AutoResolve { resolution: "QUEUED" };
    }
    if a.kind == ProposalKind::SplitScope && b.kind == ProposalKind::SplitScope {
        let fa = proposal_files(a);
        let fb = proposal_files(b);
        let d = disjoint(&fa, &fb);
        proof {
            if exists|f: Seq<char>| mentions(a@, f) && mentions(b@, f) {
                let f = choose|f: Seq<char>| mentions(a@, f) && mentions(b@, f);
                assert(strs(fa@).contains(f) && strs(fb@).contains(f));
            }
            if exists|f: Seq<char>| strs(fa@).contains(f) && strs(fb@).contains(f) {
                let f = choose|f: Seq<char>| strs(fa@).contains(f) && strs(fb@).contains(f);
                assert(mentions(a@, f) && mentions(b@, f));
            }
        }
        return if d {
            Decision::AutoResolve { resolution: "SCOPE_SPLIT" }
        } else {
            Decision::Escalate { reason: "OVERLAPPING_SPLIT" }
        };
    }
    if a.kind == ProposalKind::CoOwn && b.kind == ProposalKind::CoOwn {
        return if cfg.allow_co_own {
            Decision::AutoResolve { resolution: "CO_OWNERSHIP" }
        } else {
            Decision::Escalate { reason: "CO_OWN_DISALLOWED" }
        };
    }
    Decision::Escalate { reason: "INCOMPATIBLE_PROPOSALS" }
}

/// No string occurs in both lists.
pub fn disjoint(a: &Vec<String>, b: &Vec<String>) -> (r: bool)
    ensures
        r == !(exists|f: Seq<char>| strs(a@).contains(f) && strs(b@).contains(f)),
{
    let mut i: usize = 0;
    while i < a.len()
        invariant
            i <= a@.len(),
            forall|x: int, y: int| 0 <= x < i && 0 <= y < b@.len() ==> (#[trigger] a@[x])@ != (#[trigger] b@[y])@,
        decreases a.len() - i,
    {
        let mut j: usize = 0;
        while j < b.len()
            invariant
                i < a@.len(),
                j <= b@.len(),
                forall|y: int| 0 <= y < j ==> a@[i as int]@ != (#[trigger] b@[y])@,
            decreases b.len() - j,
        {
            if str_eq(a[i].as_str(), b[j].as_str()) {
                proof {
                    let f = a@[i as int]@;
                    assert(strs(a@)[i as int] == f);
                    assert(strs(b@)[j as int] == f);
                    assert(strs(a@).contains(f) && strs(b@).contains(f));
                }
                return false;
            }
            j = j + 1;
        }
        i = i + 1;
    }
    proof {
        if exists|f: Seq<char>| strs(a@).contains(f) && strs(b@).contains(f) {
            let f = choose|f: Seq<char>| strs(a@).contains(f) && strs(b@).contains(f);
            let x = choose|x: int| 0 <= x < strs(a@).len() && strs(a@)[x] == f;
            let y = choose|y: int| 0 <= y < strs(b@).len() && strs(b@)[y] == f;
            assert(a@[x]@ != b@[y]@);
        }
    }
    true
}

/// A pair has one conflict whichever way round it is named: whether it has
/// an open conflict does not depend on the order of the two agents.
pub proof fn law_pair_order_irrelevant(s: Seq<ConflictView>, a: Seq<char>, b: Seq<char>)
    ensures
        has_pair(s, pair_key(a, b)) == has_pair(s, pair_key(b, a)),
{
    lemma_pair_key_symmetric(a, b);
}

/// At most one conflict is open per pair of agents.
pub proof fn law_one_conflict_per_pair(store: &ConflictStore)
    requires
        store.wf(),
    ensures
        forall|i: int, j: int|
            0 <= i < store@.len() && 0 <= j < store@.len() && (#[trigger] store@[i]).agents == (#[trigger] store@[j]).agents
                ==> i == j,
{
    let s = store@;
    assert forall|i: int, j: int|
        0 <= i < s.len() && 0 <= j < s.len() && (#[trigger] s[i]).agents == (#[trigger] s[j]).agents implies i == j by {
        if i < j {
            assert(s[i].agents != s[j].agents);
        } else if j < i {
            assert(s[j].agents != s[i].agents);
        }
    }
}

/// Comparing two proposals does not depend on which participant made which:
/// swapping them gives the same decision.
pub proof fn law_decision_symmetric(
    a: ProposalView,
    b: ProposalView,
    paths: Seq<Seq<char>>,
    protected_paths: Seq<Seq<char>>,
    allow_co_own: bool,
)
    ensures
        decision(a, b, paths, protected_paths, allow_co_own) == decision(b, a, paths, protected_paths, allow_co_own),
{
    if a.kind == ProposalKind::SplitScope && b.kind == ProposalKind::SplitScope {
        assert((exists|f: Seq<char>| mentions(a, f) && mentions(b, f)) == (exists|f: Seq<char>|
            mentions(b, f) && mentions(a, f)));
    }
}

/// No path lies under a non-empty protected prefix.
pub open spec fn no_path_protected(paths: Seq<Seq<char>>, protected_paths: Seq<Seq<char>>) -> bool {
    forall|i: int, j: int|
        0 <= i < paths.len() && 0 <= j < protected_paths.len() && (#[trigger] protected_paths[j]).len() > 0 ==> !(
        protected_paths[j].len() <= (#[trigger] paths[i]).len() && paths[i].subrange(0, protected_paths[j].len() as int)
            == protected_paths[j])
}

/// Neither participant asks for the user: no proposal needs user approval
/// and neither is ASK_USER.
pub open spec fn user_not_asked(a: ProposalView, b: ProposalView) -> bool {
    !a.requires_user_approval && !b.requires_user_approval && a.kind != ProposalKind::AskUser && b.kind
        != ProposalKind::AskUser
}

/// A proposal that needs the user's approval sends the conflict to the
/// user, whatever else is proposed.
pub proof fn law_approval_escalates(
    a: ProposalView,
    b: ProposalView,
    paths: Seq<Seq<char>>,
    protected_paths: Seq<Seq<char>>,
    allow_co_own: bool,
)
    requires
        a.requires_user_approval || b.requires_user_approval,
    ensures
        decision(a, b, paths, protected_paths, allow_co_own) == DecisionView::Escalate("USER_APPROVAL_REQUIRED"@),
{
}

/// A participant that asks the user (and no approval is pending) sends the
/// conflict to the user.
pub proof fn law_ask_user_escalates(
    a: ProposalView,
    b: ProposalView,
    paths: Seq<Seq<char>>,
    protected_paths: Seq<Seq<char>>,
    allow_co_own: bool,
)
    requires
        !a.requires_user_approval && !b.requires_user_approval,
        a.kind == ProposalKind::AskUser || b.kind == ProposalKind::AskUser,
    ensures
        decision(a, b, paths, protected_paths, allow_co_own) == DecisionView::Escalate("AGENT_REQUESTED_USER"@),
{
}

/// A conflict over a path under a non-empty protected prefix goes to the
/// user unless the participants already asked for the user.
pub proof fn law_protected_path_escalates(
    a: ProposalView,
    b: ProposalView,
    paths: Seq<Seq<char>>,
    protected_paths: Seq<Seq<char>>,
    allow_co_own: bool,
    i: int,
    j: int,
)
    requires
        user_not_asked(a, b),
        0 <= i < paths.len(),
        0 <= j < protected_paths.len(),
        protected_paths[j].len() > 0,
        protected_paths[j].len() <= paths[i].len(),
        paths[i].subrange(0, protected_paths[j].len() as int) == protected_paths[j],
    ensures
        decision(a, b, paths, protected_paths, allow_co_own) == DecisionView::Escalate("PROTECTED_PATH"@),
{
    assert(is_prefix(protected_paths[j], paths[i]));
}

/// If the user is not asked and no path is protected, a participant that
/// yields its claim, aborts its task or transfers it settles the conflict:
/// the other one proceeds.
pub proof fn law_stepping_aside_settles(
    a: ProposalView,
    b: ProposalView,
    paths: Seq<Seq<char>>,
    protected_paths: Seq<Seq<char>>,
    allow_co_own: bool,
)
    requires
        user_not_asked(a, b),
        no_path_protected(paths, protected_paths),
        a.kind == ProposalKind::YieldClaim || a.kind == ProposalKind::AbortTask || a.kind == ProposalKind::TransferTask
            || b.kind == ProposalKind::YieldClaim || b.kind == ProposalKind::AbortTask || b.kind
            == ProposalKind::TransferTask,
    ensures
        decision(a, b, paths, protected_paths, allow_co_own) == DecisionView::AutoResolve("PARTICIPANT_STEPPED_ASIDE"@),
{
    lemma_unprotected(paths, protected_paths);
}

/// Under no protected prefix, no path is protected.
proof fn lemma_unprotected(paths: Seq<Seq<char>>, protected_paths: Seq<Seq<char>>)
    requires
        no_path_protected(paths, protected_paths),
    ensures
        !touches_protected(paths, protected_paths),
{
    if touches_protected(paths, protected_paths) {
        let (i, j) = choose|i: int, j: int|
            0 <= i < paths.len() && 0 <= j < protected_paths.len() && (#[trigger] protected_paths[j]).len() > 0
                && is_prefix(protected_paths[j], #[trigger] paths[i]);
        assert(!(protected_paths[j].len() <= paths[i].len() && paths[i].subrange(0, protected_paths[j].len() as int)
            == protected_paths[j]));
    }
}

/// Proposals in which nobody steps aside: each is CO_OWN, SPLIT_SCOPE or
/// QUEUE_TASK.
pub open spec fn nobody_steps_aside(a: ProposalView, b: ProposalView) -> bool {
    &&& (a.kind == ProposalKind::CoOwn || a.kind == ProposalKind::SplitScope || a.kind == ProposalKind::QueueTask)
    &&& (b.kind == ProposalKind::CoOwn || b.kind == ProposalKind::SplitScope || b.kind == ProposalKind::QueueTask)
}

/// When nobody steps aside and exactly one participant queues its task
/// behind the other, the conflict is settled by queueing.
pub proof fn law_one_queue_settles(
    a: ProposalView,
    b: ProposalView,
    paths: Seq<Seq<char>>,
    protected_paths: Seq<Seq<char>>,
    allow_co_own: bool,
)
    requires
        !a.requires_user_approval && !b.requires_user_approval,
        no_path_protected(paths, protected_paths),
        nobody_steps_aside(a, b),
        (a.kind == ProposalKind::QueueTask) != (b.kind == ProposalKind::QueueTask),
    ensures
        decision(a, b, paths, protected_paths, allow_co_own) == DecisionView::AutoResolve("QUEUED"@),
{
    lemma_unprotected(paths, protected_paths);
}

/// Two scope splits settle the conflict when no file is kept or taken by
/// both, and go to the user when one is.
pub proof fn law_split_scopes(
    a: ProposalView,
    b: ProposalView,
    paths: Seq<Seq<char>>,
    protected_paths: Seq<Seq<char>>,
    allow_co_own: bool,
)
    requires
        !a.requires_user_approval && !b.requires_user_approval,
        no_path_protected(paths, protected_paths),
        a.kind == ProposalKind::SplitScope && b.kind == ProposalKind::SplitScope,
    ensures
        (forall|x: int, y: int, f: Seq<char>|
            #![trigger change_mentions(a.claim_changes[x], f), change_mentions(b.claim_changes[y], f)]
            0 <= x < a.claim_changes.len() && 0 <= y < b.claim_changes.len() ==> !(change_mentions(a.claim_changes[x], f)
                && change_mentions(b.claim_changes[y], f))) ==> decision(
            a,
            b,
            paths,
            protected_paths,
            allow_co_own,
        ) == DecisionView::AutoResolve("SCOPE_SPLIT"@),
        (exists|x: int, y: int, f: Seq<char>|
            #![trigger change_mentions(a.claim_changes[x], f), change_mentions(b.claim_changes[y], f)]
            0 <= x < a.claim_changes.len() && 0 <= y < b.claim_changes.len() && change_mentions(a.claim_changes[x], f)
                && change_mentions(b.claim_changes[y], f)) ==> decision(
            a,
            b,
            paths,
            protected_paths,
            allow_co_own,
        ) == DecisionView::Escalate("OVERLAPPING_SPLIT"@),
{
    lemma_unprotected(paths, protected_paths);
    if exists|f: Seq<char>| mentions(a, f) && mentions(b, f) {
        let f = choose|f: Seq<char>| mentions(a, f) && mentions(b, f);
        let x = choose|x: int| 0 <= x < a.claim_changes.len() && change_mentions(#[trigger] a.claim_changes[x], f);
        let y = choose|y: int| 0 <= y < b.claim_changes.len() && change_mentions(#[trigger] b.claim_changes[y], f);
        assert(change_mentions(a.claim_changes[x], f) && change_mentions(b.claim_changes[y], f));
    } else {
        assert forall|x: int, y: int, f: Seq<char>|
            #![trigger change_mentions(a.claim_changes[x], f), change_mentions(b.claim_changes[y], f)]
            0 <= x < a.claim_changes.len() && 0 <= y < b.claim_changes.len() implies !(change_mentions(
            a.claim_changes[x],
            f,
        ) && change_mentions(b.claim_changes[y], f)) by {
            if change_mentions(a.claim_changes[x], f) && change_mentions(b.claim_changes[y], f) {
                assert(mentions(a, f));
                assert(mentions(b, f));
            }
        }
    }
}

/// Two co-ownership offers settle the conflict as co-ownership when the
/// configuration allows it, and go to the user when it does not.
pub proof fn law_co_own(
    a: ProposalView,
    b: ProposalView,
    paths: Seq<Seq<char>>,
    protected_paths: Seq<Seq<char>>,
    allow_co_own: bool,
)
    requires
        !a.requires_user_approval && !b.requires_user_approval,
        no_path_protected(paths, protected_paths),
        a.kind == ProposalKind::CoOwn && b.kind == ProposalKind::CoOwn,
    ensures
        allow_co_own ==> decision(a, b, paths, protected_paths, allow_co_own) == DecisionView::AutoResolve(
            "CO_OWNERSHIP"@,
        ),
        !allow_co_own ==> decision(a, b, paths, protected_paths, allow_co_own) == DecisionView::Escalate(
            "CO_OWN_DISALLOWED"@,
        ),
{
    lemma_unprotected(paths, protected_paths);
}

/// Nobody stepping aside or queueing, a scope split against a co-ownership
/// offer cannot be settled: the conflict goes to the user.
pub proof fn law_mixed_offers_escalate(
    a: ProposalView,
    b: ProposalView,
    paths: Seq<Seq<char>>,
    protected_paths: Seq<Seq<char>>,
    allow_co_own: bool,
)
    requires
        !a.requires_user_approval && !b.requires_user_approval,
        no_path_protected(paths, protected_paths),
        (a.kind == ProposalKind::CoOwn && b.kind == ProposalKind::SplitScope) || (a.kind == ProposalKind::SplitScope
            && b.kind == ProposalKind::CoOwn),
    ensures
        decision(a, b, paths, protected_paths, allow_co_own) == DecisionView::Escalate("INCOMPATIBLE_PROPOSALS"@),
{
    lemma_unprotected(paths, protected_paths);
}

} // verus!
