//! The registry of connected agents: registration with sequential ids,
//! heartbeats, each agent's lifecycle state and generation, removal, and
//! reaping of agents that went silent.

use vstd::prelude::*;
use crate::cap::{strs, AgentState};
use crate::text::{numbered, str_eq, decimal, lemma_numbered_injective};

verus! {

#[derive(Debug)]
pub struct Agent {
    pub id: String,
    pub last_seen_ms: u64,
    pub meta: serde_json::Value,
    /// Where the agent is in its work.
    pub state: AgentState,
    /// Bumped each time the agent clears its context; starts at 1.
    pub generation: u64,
}

pub struct AgentView {
    pub id: Seq<char>,
    pub last_seen_ms: u64,
    pub meta: serde_json::Value,
    pub state: AgentState,
    pub generation: u64,
}

impl View for Agent {
    type V = AgentView;

    open spec fn view(&self) -> AgentView {
        AgentView {
            id: self.id@,
            last_seen_ms: self.last_seen_ms,
            meta: self.meta,
            state: self.state,
            generation: self.generation,
        }
    }
}

/// A newly registered agent: in DISCOVERY, generation 1.
pub open spec fn fresh_agent(id: Seq<char>, now_ms: u64, meta: serde_json::Value) -> AgentView {
    AgentView { id, last_seen_ms: now_ms, meta, state: AgentState::Discovery, generation: 1 }
}

/// Whether an agent may report moving from `from` to `to`: an agent waiting
/// on a subagent can only become active again or go offline; any other move
/// is accepted.
pub open spec fn may_change(from: AgentState, to: AgentState) -> bool {
    from != AgentState::SubagentWaiting || to == AgentState::Active || to == AgentState::Offline
}

/// An agent waiting on its subagent may only go back to ACTIVE or go
/// OFFLINE: every other move it reports (IDLE, TESTING, BLOCKED, ...) is
/// refused.
pub proof fn law_waiting_agent_moves(to: AgentState)
    ensures
        may_change(AgentState::SubagentWaiting, to) <==> (to == AgentState::Active || to == AgentState::Offline),
{
}

/// An agent that is not waiting on a subagent may report any move.
pub proof fn law_other_moves_accepted(from: AgentState, to: AgentState)
    requires
        from != AgentState::SubagentWaiting,
    ensures
        may_change(from, to),
{
}

/// Why an agent's state could not be changed.
#[derive(Debug, Clone, Copy, PartialEq, Eq, Structural)]
pub enum StateError {
    AgentNotFound,
    InvalidTransition,
}

/// The id of the `n`-th agent to register.
pub open spec fn agent_name(n: nat) -> Seq<char> {
    "agent-"@ + decimal(n)
}

/// Time since `last` as seen at `now`, never negative.
pub open spec fn idle(now: u64, last: u64) -> int {
    if now >= last { now - last } else { 0 }
}

/// Silent for strictly longer than the timeout.
pub open spec fn is_lost(a: AgentView, now_ms: u64, timeout_ms: u64) -> bool {
    idle(now_ms, a.last_seen_ms) > timeout_ms
}

pub open spec fn has_agent(s: Seq<AgentView>, id: Seq<char>) -> bool {
    exists|i: int| 0 <= i < s.len() && (#[trigger] s[i]).id == id
}

pub open spec fn agent_views(v: Seq<Agent>) -> Seq<AgentView> {
    v.map_values(|a: Agent| a@)
}

pub struct State {
    agents: Vec<Agent>,
    next_id: u64,
}

impl View for State {
    type V = Seq<AgentView>;

    closed spec fn view(&self) -> Seq<AgentView> {
        agent_views(self.agents@)
    }
}

impl State {
    /// The number the next agent to register will get.
    pub closed spec fn next_number(&self) -> nat {
        self.next_id as nat
    }

    /// Ids are distinct, each `agent-n` for a number already handed out.
    pub closed spec fn wf(&self) -> bool {
        let s = self@;
        &&& self.next_id >= 1
        &&& forall|i: int, j: int| 0 <= i < j < s.len() ==> (#[trigger] s[i]).id != (#[trigger] s[j]).id
        &&& forall|i: int, n: nat| 0 <= i < s.len() && n >= self.next_id ==> (#[trigger] s[i]).id != #[trigger] agent_name(n)
    }

    pub fn new() -> (r: Self)
        ensures
            r.wf(),
            r@ == Seq::<AgentView>::empty(),
            r.next_number() == 1,
    {
        let r = State { agents: Vec::new(), next_id: 1 };
        assert(r@ =~= Seq::<AgentView>::empty());
        r
    }

    /// Registers a new agent seen at `now_ms`; returns its id `agent-n`.
    pub fn register(&mut self, meta: serde_json::Value, now_ms: u64) -> (r: String)
        requires
            old(self).wf(),
            old(self).next_number() < u64::MAX,
        ensures
            final(self).wf(),
            r@ == agent_name(old(self).next_number()),
            final(self)@ == old(self)@.push(fresh_agent(r@, now_ms, meta)),
            final(self).next_number() == old(self).next_number() + 1,
    {
        let ghost old_s = self@;
        let id = numbered("agent-", self.next_id);
        let n = self.next_id;
        self.next_id = self.next_id + 1;
        self.agents.push(Agent { id: id.clone(), last_seen_ms: now_ms, meta, state: AgentState::Discovery, generation: 1 });
        proof {
            let s = self@;
            assert(s =~= old_s.push(fresh_agent(id@, now_ms, meta)));
            assert forall|i: int, j: int| 0 <= i < j < s.len() implies (#[trigger] s[i]).id != (#[trigger] s[j]).id by {
                if j == s.len() - 1 {
                    assert(s[i] == old_s[i]);
                    assert(old_s[i].id != agent_name(n as nat));
                } else {
                    assert(s[i] == old_s[i] && s[j] == old_s[j]);
                }
            }
            assert forall|i: int, m: nat| 0 <= i < s.len() && m >= self.next_id implies (#[trigger] s[i]).id != #[trigger] agent_name(m) by {
                if i == s.len() - 1 {
                    if s[i].id == agent_name(m) {
                        lemma_numbered_injective("agent-"@, m, n as nat);
                    }
                } else {
                    assert(s[i] == old_s[i]);
                }
            }
        }
        id
    }

    fn find(&self, id: &str) -> (r: Option<usize>)
        ensures
            match r {
                Some(i) => i < self@.len() && self@[i as int].id == id@,
                None => !has_agent(self@, id@),
            },
    {
        let mut i: usize = 0;
        while i < self.agents.len()
            invariant
                i <= self@.len(),
                forall|j: int| 0 <= j < i ==> (#[trigger] self@[j]).id != id@,
            decreases self.agents.len() - i,
        {
            if str_eq(self.agents[i].id.as_str(), id) {
                return Some(i);
            }
            i = i + 1;
        }
        None
    }

    /// Marks the agent seen at `now_ms`; false if no agent has this id.
    pub fn heartbeat(&mut self, id: &str, now_ms: u64) -> (r: bool)
        requires
            old(self).wf(),
        ensures
            final(self).wf(),
            final(self).next_number() == old(self).next_number(),
            r == has_agent(old(self)@, id@),
            !r ==> final(self)@ == old(self)@,
            r ==> exists|i: int|
                0 <= i < old(self)@.len() && (#[trigger] old(self)@[i]).id == id@ && final(self)@ == old(self)@.update(
                    i,
                    AgentView { last_seen_ms: now_ms, ..old(self)@[i] },
                ),
    {
        match self.find(id) {
            None => false,
            Some(i) => {
                let ghost old_s = self@;
                let mut a = self.agents.remove(i);
                a.last_seen_ms = now_ms;
                self.agents.insert(i, a);
                proof {
                    let s = self@;
                    assert(s =~= old_s.update(i as int, AgentView { last_seen_ms: now_ms, ..old_s[i as int] }));
                    assert forall|x: int, y: int| 0 <= x < y < s.len() implies (#[trigger] s[x]).id != (#[trigger] s[y]).id by {
                        assert(s[x].id == old_s[x].id && s[y].id == old_s[y].id);
                    }
                    assert forall|x: int, m: nat| 0 <= x < s.len() && m >= self.next_id implies (#[trigger] s[x]).id != #[trigger] agent_name(m) by {
                        assert(s[x].id == old_s[x].id);
                    }
                }
                true
            },
        }
    }

    /// Sets the state and generation of the agent at `i`.
    fn set_lifecycle(&mut self, i: usize, state: AgentState, generation: u64)
        requires
            old(self).wf(),
            i < old(self)@.len(),
        ensures
            final(self).wf(),
            final(self).next_number() == old(self).next_number(),
            final(self)@ == old(self)@.update(i as int, AgentView { state, generation, ..old(self)@[i as int] }),
    {
        let ghost old_s = self@;
        let mut a = self.agents.remove(i);
        a.state = state;
        a.generation = generation;
        self.agents.insert(i, a);
        proof {
            let s = self@;
            assert(s =~= old_s.update(i as int, AgentView { state, generation, ..old_s[i as int] }));
            assert forall|x: int, y: int| 0 <= x < y < s.len() implies (#[trigger] s[x]).id != (#[trigger] s[y]).id by {
                assert(s[x].id == old_s[x].id && s[y].id == old_s[y].id);
            }
            assert forall|x: int, m: nat| 0 <= x < s.len() && m >= self.next_id implies (#[trigger] s[x]).id != #[trigger] agent_name(m) by {
                assert(s[x].id == old_s[x].id);
            }
        }
    }

    /// Moves the agent to `to` if it may make that move (see `may_change`).
    pub fn set_state(&mut self, id: &str, to: AgentState) -> (r: Result<(), StateError>)
        requires
            old(self).wf(),
        ensures
            final(self).wf(),
            final(self).next_number() == old(self).next_number(),
            !has_agent(old(self)@, id@) ==> r == Err::<(), StateError>(StateError::AgentNotFound) && final(self)@ == old(self)@,
            has_agent(old(self)@, id@) ==> exists|i: int|
                0 <= i < old(self)@.len() && (#[trigger] old(self)@[i]).id == id@ && if may_change(old(self)@[i].state, to) {
                    r is Ok && final(self)@ == old(self)@.update(i, AgentView { state: to, ..old(self)@[i] })
                } else {
                    r == Err::<(), StateError>(StateError::InvalidTransition) && final(self)@ == old(self)@
                },
    {
        match self.find(id) {
            None => Err(StateError::AgentNotFound),
            Some(i) => {
                let from = self.agents[i].state;
                let ok = match from {
                    AgentState::SubagentWaiting => match to {
                        AgentState::Active | AgentState::Offline => true,
                        _ => false,
                    },
                    _ => true,
                };
                if !ok {
                    return Err(StateError::InvalidTransition);
                }
                let g = self.agents[i].generation;
                self.set_lifecycle(i, to, g);
                Ok(())
            },
        }
    }

    /// A claim of the agent became active: so does the agent. False if no
    /// agent has this id.
    pub fn promote_active(&mut self, id: &str) -> (r: bool)
        requires
            old(self).wf(),
        ensures
            final(self).wf(),
            final(self).next_number() == old(self).next_number(),
            r == has_agent(old(self)@, id@),
            !r ==> final(self)@ == old(self)@,
            r ==> exists|i: int|
                0 <= i < old(self)@.len() && (#[trigger] old(self)@[i]).id == id@ && final(self)@ == old(self)@.update(
                    i,
                    AgentView { state: AgentState::Active, ..old(self)@[i] },
                ),
    {
        match self.find(id) {
            None => false,
            Some(i) => {
                let g = self.agents[i].generation;
                self.set_lifecycle(i, AgentState::Active, g);
                true
            },
        }
    }

    /// The agent cleared its context: it starts over in DISCOVERY with the
    /// next generation, which is returned; `None` if no agent has this id.
    pub fn clear(&mut self, id: &str) -> (r: Option<u64>)
        requires
            old(self).wf(),
            forall|i: int| 0 <= i < old(self)@.len() && (#[trigger] old(self)@[i]).id == id@ ==> old(self)@[i].generation < u64::MAX,
        ensures
            final(self).wf(),
            final(self).next_number() == old(self).next_number(),
            r is None <==> !has_agent(old(self)@, id@),
            r is None ==> final(self)@ == old(self)@,
            r matches Some(g) ==> exists|i: int|
                0 <= i < old(self)@.len() && (#[trigger] old(self)@[i]).id == id@ && g == old(self)@[i].generation + 1
                    && final(self)@ == old(self)@.update(
                    i,
                    AgentView { state: AgentState::Discovery, generation: g, ..old(self)@[i] },
                ),
    {
        match self.find(id) {
            None => None,
            Some(i) => {
                let g = self.agents[i].generation + 1;
                self.set_lifecycle(i, AgentState::Discovery, g);
                Some(g)
            },
        }
    }

    /// The number the next agent to register will get.
    pub fn next_agent_number(&self) -> (r: u64)
        ensures
            r == self.next_number(),
    {
        self.next_id
    }

    /// The agent with this id, if any.
    pub fn agent(&self, id: &str) -> (r: Option<&Agent>)
        requires
            self.wf(),
        ensures
            match r {
                Some(a) => a@.id == id@ && self@.contains(a@),
                None => !has_agent(self@, id@),
            },
    {
        match self.find(id) {
            Some(i) => {
                let a = &self.agents[i];
                assert(self@[i as int] == a@);
                Some(a)
            },
            None => None,
        }
    }

    /// Removes the agent; false if no agent has this id.
    pub fn remove(&mut self, id: &str) -> (r: bool)
        requires
            old(self).wf(),
        ensures
            final(self).wf(),
            final(self).next_number() == old(self).next_number(),
            r == has_agent(old(self)@, id@),
            !r ==> final(self)@ == old(self)@,
            r ==> exists|i: int|
                0 <= i < old(self)@.len() && (#[trigger] old(self)@[i]).id == id@ && final(self)@ == old(self)@.remove(i),
    {
        match self.find(id) {
            None => false,
            Some(i) => {
                self.remove_at(i);
                true
            },
        }
    }

    fn remove_at(&mut self, i: usize) -> (a: Agent)
        requires
            old(self).wf(),
            i < old(self)@.len(),
        ensures
            final(self).wf(),
            final(self).next_number() == old(self).next_number(),
            final(self)@ == old(self)@.remove(i as int),
            a@ == old(self)@[i as int],
    {
        let ghost old_s = self@;
        let a = self.agents.remove(i);
        proof {
            let s = self@;
            assert(s =~= old_s.remove(i as int));
            assert forall|x: int| 0 <= x < s.len() implies #[trigger] s[x] == old_s[if x < i { x } else { x + 1 }] by {}
            assert forall|x: int, y: int| 0 <= x < y < s.len() implies (#[trigger] s[x]).id != (#[trigger] s[y]).id by {
                assert(s[x] == old_s[if x < i { x } else { x + 1 }]);
                assert(s[y] == old_s[if y < i { y } else { y + 1 }]);
            }
            assert forall|x: int, m: nat| 0 <= x < s.len() && m >= self.next_id implies (#[trigger] s[x]).id != #[trigger] agent_name(m) by {
                assert(s[x] == old_s[if x < i { x } else { x + 1 }]);
            }
        }
        a
    }

    /// Removes every agent silent for strictly longer than `timeout_ms`;
    /// returns their ids in registry order.
    pub fn reap(&mut self, now_ms: u64, timeout_ms: u64) -> (r: Vec<String>)
        requires
            old(self).wf(),
        ensures
            final(self).wf(),
            final(self).next_number() == old(self).next_number(),
            final(self)@ == old(self)@.filter(|a: AgentView| !is_lost(a, now_ms, timeout_ms)),
            strs(r@) == old(self)@.filter(|a: AgentView| is_lost(a, now_ms, timeout_ms)).map_values(
                |a: AgentView| a.id,
            ),
    {
        let ghost old_s = self@;
        let ghost lost_p = |a: AgentView| is_lost(a, now_ms, timeout_ms);
        let ghost keep_p = |a: AgentView| !is_lost(a, now_ms, timeout_ms);
        let ghost id_of = |a: AgentView| a.id;
        let mut out: Vec<String> = Vec::new();
        let mut i: usize = 0;
        let mut seen: Ghost<int> = Ghost(0);
        while i < self.agents.len()
            invariant
                self.wf(),
                self.next_number() == old(self).next_number(),
                lost_p == (|a: AgentView| is_lost(a, now_ms, timeout_ms)),
                keep_p == (|a: AgentView| !is_lost(a, now_ms, timeout_ms)),
                id_of == (|a: AgentView| a.id),
                0 <= seen@ <= old_s.len(),
                i <= self@.len(),
                self@.subrange(0, i as int) == old_s.subrange(0, seen@).filter(keep_p),
                self@.subrange(i as int, self@.len() as int) == old_s.subrange(seen@, old_s.len() as int),
                strs(out@) == old_s.subrange(0, seen@).filter(lost_p).map_values(id_of),
            decreases self@.len() - i,
        {
            let ghost s = self@;
            let ghost sn = seen@;
            let lost = now_ms.saturating_sub(self.agents[i].last_seen_ms) > timeout_ms;
            proof {
                assert(s.subrange(i as int, s.len() as int).len() > 0);
                assert(sn < old_s.len());
                assert(s[i as int] == old_s[sn]) by {
                    assert(s.subrange(i as int, s.len() as int)[0] == s[i as int]);
                    assert(old_s.subrange(sn, old_s.len() as int)[0] == old_s[sn]);
                }
                assert(lost == lost_p(old_s[sn]));
                let pre = old_s.subrange(0, sn + 1);
                assert(pre.drop_last() =~= old_s.subrange(0, sn));
                assert(pre.last() == old_s[sn]);
                reveal_with_fuel(Seq::filter, 1);
            }
            let ghost out_before = strs(out@);
            if lost {
                let a = self.remove_at(i);
                out.push(a.id);
                proof {
                    seen@ = sn + 1;
                    let s2 = self@;
                    assert(s2.subrange(0, i as int) =~= s.subrange(0, i as int));
                    assert(s2.subrange(i as int, s2.len() as int) =~= s.subrange(i + 1, s.len() as int));
                    assert(old_s.subrange(seen@, old_s.len() as int) =~= old_s.subrange(sn, old_s.len() as int).drop_first());
                    assert(s.subrange(i + 1, s.len() as int) =~= s.subrange(i as int, s.len() as int).drop_first());
                    assert(strs(out@) =~= out_before.push(id_of(old_s[sn])));
                }
            } else {
                i = i + 1;
                proof {
                    seen@ = sn + 1;
                    let s2 = self@;
                    assert(s2.subrange(0, i as int) =~= s.subrange(0, i - 1).push(s[i - 1]));
                    assert(old_s.subrange(seen@, old_s.len() as int) =~= old_s.subrange(sn, old_s.len() as int).drop_first());
                    assert(s.subrange(i as int, s.len() as int) =~= s.subrange(i - 1, s.len() as int).drop_first());
                }
            }
        }
        proof {
            assert(self@.subrange(0, i as int) =~= self@);
            assert(old_s.subrange(seen@, old_s.len() as int).len() == 0);
            assert(old_s.subrange(0, seen@) =~= old_s);
        }
        out
    }

    pub fn agent_count(&self) -> (r: usize)
        ensures
            r == self@.len(),
    {
        self.agents.len()
    }
}

} // verus!
