//! The coordinator's decisions, taken on its stores: settling a negotiation
//! once both participants have proposed, recording proposals and user
//! decisions, escalating conflicts that wait too long, and what heat changes
//! do to conflicts.

use vstd::prelude::*;
use crate::cap::{strs, copy_strings, AgentState, CapErrorCode, ClaimStatus, ProposalKind, Proposal, ProposalView};
use crate::conflict::{
    Conflict, ConflictView, ConflictStore, ConflictConfig, ConflictState, Decision, DecisionView, decision, compare,
    has_id, with_state, both_have_proposed, proposals_ok, proposal_index, put_proposal, involves,
};
use crate::heat::{HeatBand, HeatInputs, HeatInputsView, HeatResult, HeatResultView, joined, join};
use crate::heatstore::{HeatStore, touches};
use crate::sets::{common, sorted_unique, intersection, union};
use crate::conflict::{pair_key, has_pair, conflict_name};
use crate::text::{owned, numbered, decimal, str_eq};
use crate::ipc::{Request, Response, ResponseData, answers_ok, answers_agent, answers_err};
use crate::state::{State, StateError, AgentView, agent_name, has_agent, is_lost, fresh_agent, may_change};
use crate::claim::{
    fresh_files, touched_into, Claim, ClaimStore, ClaimView, live_of, orphaned, is_expired, reclaimable, confidence_status, claim_name, releasable_of,
    released,
};
use crate::waitgraph::{WaitGraph, WaitEdge, cycle_in, has_cycle, kept_by, follows};

verus! {

/// The participant's proposal in a table whose keys are distinct.
pub open spec fn proposal_by(c: ConflictView, agent: Seq<char>) -> ProposalView {
    c.proposals[choose|j: int| 0 <= j < c.proposals.len() && (#[trigger] c.proposals[j]).0 == agent].1
}

/// `g1` is `g` with the edge `from -> to` added, unless that ordered pair is
/// already there.
pub open spec fn edge_added(g: Seq<WaitEdge>, g1: Seq<WaitEdge>, from: Seq<char>, to: Seq<char>, res: Seq<char>) -> bool {
    if exists|i: int| 0 <= i < g.len() && (#[trigger] g[i]).from@ == from && g[i].to@ == to {
        g1 == g
    } else {
        &&& g1.len() == g.len() + 1
        &&& g1.drop_last() == g
        &&& g1.last().from@ == from
        &&& g1.last().to@ == to
        &&& g1.last().resource@ == res
    }
}

/// `g1` is `g` with the edge `from -> to` added if `queues`, else `g`.
pub open spec fn queue_step(g: Seq<WaitEdge>, g1: Seq<WaitEdge>, from: Seq<char>, to: Seq<char>, res: Seq<char>, queues: bool) -> bool {
    if queues {
        edge_added(g, g1, from, to, res)
    } else {
        g1 == g
    }
}

/// `g1` is `g` with the wait edges that queueing adds: `a` waits for `b` if
/// `a` queues, and `b` for `a` if `b` queues.
pub open spec fn queue_edges_added(
    g: Seq<WaitEdge>,
    g1: Seq<WaitEdge>,
    a: Seq<char>,
    b: Seq<char>,
    res: Seq<char>,
    qa: bool,
    qb: bool,
) -> bool {
    exists|gm: Seq<WaitEdge>| #[trigger] queue_step(g, gm, a, b, res, qa) && queue_step(gm, g1, b, a, res, qb)
}

/// How a negotiation stands after a proposal.
#[derive(Debug)]
pub enum Negotiation {
    /// A participant has not proposed yet (or there is no such open conflict).
    Pending,
    /// Both participants queue behind each other: a wait cycle.
    Deadlock { conflict: Conflict, edges: Vec<WaitEdge> },
    /// The proposals settle the conflict; it is closed.
    Resolved { conflict: Conflict, resolution: &'static str },
    /// The proposals do not settle it; the user decides.
    Escalated { conflict: Conflict, reason: &'static str },
}

/// What settling conflict `s[i]` did: `g1` is the wait graph with the queue
/// edges added; a mutual queue that closes a cycle is a deadlock; otherwise
/// the comparison of the two proposals decides. `gf` and `sf` are the wait
/// graph and the open conflicts afterwards.
pub open spec fn negotiated(
    s: Seq<ConflictView>,
    i: int,
    g0: Seq<WaitEdge>,
    g1: Seq<WaitEdge>,
    gf: Seq<WaitEdge>,
    sf: Seq<ConflictView>,
    r: Negotiation,
    protected_paths: Seq<Seq<char>>,
    allow_co_own: bool,
) -> bool {
    let c = s[i];
    let (a, b) = c.agents;
    let pa = proposal_by(c, a);
    let pb = proposal_by(c, b);
    let qa = pa.kind == ProposalKind::QueueTask;
    let qb = pb.kind == ProposalKind::QueueTask;
    let awaiting = s.update(i, with_state(c, ConflictState::AwaitingUserDecision));
    &&& queue_edges_added(g0, g1, a, b, joined(c.paths, ","@), qa, qb)
    &&& (r is Deadlock <==> qa && qb && has_cycle(g1))
    &&& match r {
        Negotiation::Pending => false,
        Negotiation::Deadlock { conflict, edges } => {
            &&& conflict@ == c
            &&& cycle_in(g1, edges@)
            &&& gf == g1
            &&& sf == awaiting
        },
        Negotiation::Resolved { conflict, resolution } => {
            &&& conflict@ == c
            &&& decision(pa, pb, c.paths, protected_paths, allow_co_own) == DecisionView::AutoResolve(resolution@)
            &&& gf == g1.filter(kept_by(a)).filter(kept_by(b))
            &&& sf == s.remove(i)
        },
        Negotiation::Escalated { conflict, reason } => {
            &&& conflict@ == c
            &&& decision(pa, pb, c.paths, protected_paths, allow_co_own) == DecisionView::Escalate(reason@)
            &&& gf == g1
            &&& sf == awaiting
        },
    }
}

/// Settles the open conflict `conflict_id` once both participants have
/// proposed: queueing adds wait edges, and a mutual queue that closes a wait
/// cycle is a deadlock for the user; otherwise the proposals are compared,
/// and the conflict is either resolved (closed, its agents leave the wait
/// graph) or escalated to the user. A deadlock or an escalation leaves the
/// conflict awaiting the user's decision.
pub fn finalize_negotiation(
    conflicts: &mut ConflictStore,
    graph: &mut WaitGraph,
    cfg: &ConflictConfig,
    conflict_id: &str,
) -> (r: Negotiation)
    requires
        old(conflicts).wf(),
    ensures
        final(conflicts).wf(),
        final(conflicts).last_number() == old(conflicts).last_number(),
        !(exists|i: int|
            0 <= i < old(conflicts)@.len() && (#[trigger] old(conflicts)@[i]).conflict_id == conflict_id@
                && both_have_proposed(old(conflicts)@[i])) ==> {
            &&& r is Pending
            &&& final(conflicts)@ == old(conflicts)@
            &&& final(graph)@ == old(graph)@
        },
        forall|i: int|
            0 <= i < old(conflicts)@.len() && (#[trigger] old(conflicts)@[i]).conflict_id == conflict_id@
                && both_have_proposed(old(conflicts)@[i]) ==> exists|g1: Seq<WaitEdge>|
                #[trigger] negotiated(
                    old(conflicts)@,
                    i,
                    old(graph)@,
                    g1,
                    final(graph)@,
                    final(conflicts)@,
                    r,
                    strs(cfg.protected_paths@),
                    cfg.allow_co_own,
                ),
{
    let ghost s = conflicts@;
    let c = match conflicts.get_by_id(conflict_id) {
        Some(c) => c.copy(),
        None => {
            return Negotiation::Pending;
        },
    };
    let ghost i = choose|i: int| 0 <= i < s.len() && (#[trigger] s[i]).conflict_id == conflict_id@ && c@ == s[i];
    proof {
        conflicts.lemma_wf_facts();
        assert(proposals_ok(s[i]));
    }
    let ia = proposal_index(&c.proposals, c.agents.0.as_str());
    let ib = proposal_index(&c.proposals, c.agents.1.as_str());
    let (ja, jb) = match (ia, ib) {
        (Some(x), Some(y)) => (x, y),
        _ => {
            proof {
                assert(!both_have_proposed(c@));
            }
            return Negotiation::Pending;
        },
    };
    proof {
        let cv = c@;
        assert(cv.proposals[ja as int].0 == cv.agents.0);
        assert(cv.proposals[jb as int].0 == cv.agents.1);
        assert(both_have_proposed(cv));
        let ka = choose|j: int| 0 <= j < cv.proposals.len() && (#[trigger] cv.proposals[j]).0 == cv.agents.0;
        let kb = choose|j: int| 0 <= j < cv.proposals.len() && (#[trigger] cv.proposals[j]).0 == cv.agents.1;
        if ka != ja as int {
            if ka < ja {
                assert(cv.proposals[ka].0 != cv.proposals[ja as int].0);
            } else {
                assert(cv.proposals[ja as int].0 != cv.proposals[ka].0);
            }
        }
        if kb != jb as int {
            if kb < jb {
                assert(cv.proposals[kb].0 != cv.proposals[jb as int].0);
            } else {
                assert(cv.proposals[jb as int].0 != cv.proposals[kb].0);
            }
        }
        assert(proposal_by(cv, cv.agents.0) == c.proposals@[ja as int].1@);
        assert(proposal_by(cv, cv.agents.1) == c.proposals@[jb as int].1@);
    }
    let pa = &c.proposals[ja].1;
    let pb = &c.proposals[jb].1;
    let a = c.agents.0.as_str();
    let b = c.agents.1.as_str();
    let resource = join(&c.paths, ",");
    let qa = pa.kind == ProposalKind::QueueTask;
    let qb = pb.kind == ProposalKind::QueueTask;
    let ghost g0 = graph@;
    if qa {
        graph.add_edge(a, b, resource.as_str());
    }
    let ghost gm = graph@;
    if qb {
        graph.add_edge(b, a, resource.as_str());
    }
    let ghost g1 = graph@;
    proof {
        assert(queue_step(g0, gm, a@, b@, resource@, qa));
        assert(queue_step(gm, g1, b@, a@, resource@, qb));
        assert(queue_edges_added(g0, g1, c@.agents.0, c@.agents.1, joined(c@.paths, ","@), qa, qb));
    }
    if qa && qb {
        match graph.find_cycle() {
            Some(edges) => {
                conflicts.set_state(conflict_id, ConflictState::AwaitingUserDecision);
                let r = Negotiation::Deadlock { conflict: c, edges };
                proof {
                    assert(conflicts@ == s.update(i, with_state(s[i], ConflictState::AwaitingUserDecision)));
                    assert(negotiated(s, i, g0, g1, graph@, conflicts@, r, strs(cfg.protected_paths@), cfg.allow_co_own));
                    assert forall|k: int|
                        0 <= k < s.len() && (#[trigger] s[k]).conflict_id == conflict_id@ && both_have_proposed(s[k]) implies exists|g: Seq<WaitEdge>|
                        #[trigger] negotiated(s, k, g0, g, graph@, conflicts@, r, strs(cfg.protected_paths@), cfg.allow_co_own) by {
                        assert(k == i);
                    }
                }
                return r;
            },
            None => {},
        }
    }
    match compare(pa, pb, &c.paths, cfg) {
        Decision::AutoResolve { resolution } => {
            let ghost before = conflicts@;
            match conflicts.resolve_by_id(conflict_id) {
                Some(_) => {},
                None => {
                    assert(false);
                },
            }
            proof {
                assert(conflicts@ == s.remove(i));
            }
            graph.remove_agent(a);
            graph.remove_agent(b);
            let r = Negotiation::Resolved { conflict: c, resolution };
            proof {
                assert(negotiated(s, i, g0, g1, graph@, conflicts@, r, strs(cfg.protected_paths@), cfg.allow_co_own));
                assert forall|k: int|
                    0 <= k < s.len() && (#[trigger] s[k]).conflict_id == conflict_id@ && both_have_proposed(s[k]) implies exists|g: Seq<WaitEdge>|
                    #[trigger] negotiated(s, k, g0, g, graph@, conflicts@, r, strs(cfg.protected_paths@), cfg.allow_co_own) by {
                    assert(k == i);
                }
            }
            r
        },
        Decision::Escalate { reason } => {
            conflicts.set_state(conflict_id, ConflictState::AwaitingUserDecision);
            let r = Negotiation::Escalated { conflict: c, reason };
            proof {
                assert(conflicts@ == s.update(i, with_state(s[i], ConflictState::AwaitingUserDecision)));
                assert(negotiated(s, i, g0, g1, graph@, conflicts@, r, strs(cfg.protected_paths@), cfg.allow_co_own));
                assert forall|k: int|
                    0 <= k < s.len() && (#[trigger] s[k]).conflict_id == conflict_id@ && both_have_proposed(s[k]) implies exists|g: Seq<WaitEdge>|
                    #[trigger] negotiated(s, k, g0, g, graph@, conflicts@, r, strs(cfg.protected_paths@), cfg.allow_co_own) by {
                    assert(k == i);
                }
            }
            r
        },
    }
}

/// Records `from`'s proposal for conflict `conflict_id`; once both
/// participants have proposed, settles the negotiation. Fails with
/// CONFLICT_NOT_FOUND, changing nothing, if there is no such open conflict or
/// `from` is not one of its participants.
pub fn submit_proposal(
    conflicts: &mut ConflictStore,
    graph: &mut WaitGraph,
    cfg: &ConflictConfig,
    conflict_id: &str,
    from: &str,
    proposal: Proposal,
) -> (r: Result<Negotiation, CapErrorCode>)
    requires
        old(conflicts).wf(),
    ensures
        final(conflicts).wf(),
        final(conflicts).last_number() == old(conflicts).last_number(),
        r is Err <==> !exists|i: int|
            0 <= i < old(conflicts)@.len() && (#[trigger] old(conflicts)@[i]).conflict_id == conflict_id@ && involves(
                old(conflicts)@[i],
                from@,
            ),
        r is Err ==> r == Err::<Negotiation, CapErrorCode>(CapErrorCode::ConflictNotFound) && final(conflicts)@
            == old(conflicts)@ && final(graph)@ == old(graph)@,
        forall|i: int|
            0 <= i < old(conflicts)@.len() && (#[trigger] old(conflicts)@[i]).conflict_id == conflict_id@ && involves(
                old(conflicts)@[i],
                from@,
            ) ==> {
                let c = old(conflicts)@[i];
                let mid = old(conflicts)@.update(
                    i,
                    ConflictView {
                        state: ConflictState::Negotiating,
                        proposals: put_proposal(c.proposals, from@, proposal@),
                        ..c
                    },
                );
                &&& r is Ok
                &&& both_have_proposed(mid[i]) ==> exists|g1: Seq<WaitEdge>|
                    #[trigger] negotiated(
                        mid,
                        i,
                        old(graph)@,
                        g1,
                        final(graph)@,
                        final(conflicts)@,
                        r->Ok_0,
                        strs(cfg.protected_paths@),
                        cfg.allow_co_own,
                    )
                &&& !both_have_proposed(mid[i]) ==> r->Ok_0 is Pending && final(conflicts)@ == mid && final(graph)@
                    == old(graph)@
            },
{
    let ghost s = conflicts@;
    proof {
        conflicts.lemma_wf_facts();
    }
    if !conflicts.record_proposal(conflict_id, from, proposal) {
        return Err(CapErrorCode::ConflictNotFound);
    }
    let ghost mid = conflicts@;
    proof {
        conflicts.lemma_wf_facts();
    }
    let n = finalize_negotiation(conflicts, graph, cfg, conflict_id);
    proof {
        assert forall|i: int|
            0 <= i < s.len() && (#[trigger] s[i]).conflict_id == conflict_id@ && involves(s[i], from@) implies mid[i].conflict_id
            == conflict_id@ by {
            let j = choose|j: int|
                0 <= j < s.len() && (#[trigger] s[j]).conflict_id == conflict_id@ && mid == s.update(
                    j,
                    ConflictView {
                        state: ConflictState::Negotiating,
                        proposals: put_proposal(s[j].proposals, from@, proposal@),
                        ..s[j]
                    },
                );
            assert(i == j);
        }
    }
    Ok(n)
}

/// The user settled conflict `conflict_id`: it is closed and its agents
/// leave the wait graph. CONFLICT_NOT_FOUND if there is no such open
/// conflict.
pub fn user_decision(conflicts: &mut ConflictStore, graph: &mut WaitGraph, conflict_id: &str)
    -> (r: Result<Conflict, CapErrorCode>)
    requires
        old(conflicts).wf(),
    ensures
        final(conflicts).wf(),
        final(conflicts).last_number() == old(conflicts).last_number(),
        match r {
            Ok(c) => exists|i: int|
                0 <= i < old(conflicts)@.len() && (#[trigger] old(conflicts)@[i]).conflict_id == conflict_id@
                    && c@ == with_state(old(conflicts)@[i], ConflictState::Resolved)
                    && final(conflicts)@ == old(conflicts)@.remove(i)
                    && final(graph)@ == old(graph)@.filter(kept_by(c@.agents.0)).filter(kept_by(c@.agents.1)),
            Err(e) => e == CapErrorCode::ConflictNotFound && !has_id(old(conflicts)@, conflict_id@)
                && final(conflicts)@ == old(conflicts)@ && final(graph)@ == old(graph)@,
        },
{
    match conflicts.resolve_by_id(conflict_id) {
        None => Err(CapErrorCode::ConflictNotFound),
        Some(c) => {
            graph.remove_agent(c.agents.0.as_str());
            graph.remove_agent(c.agents.1.as_str());
            Ok(c)
        },
    }
}

/// How a heat band escalates: OVERLAP asks the agents to coordinate before
/// writing (level 2), CONFLICT_CANDIDATE asks the user (level 3); lower bands
/// do not escalate.
pub open spec fn escalation_of(band: HeatBand) -> Option<(u32, Seq<char>)> {
    match band {
        HeatBand::Overlap => Some((2, "COORDINATE_BEFORE_WRITE"@)),
        HeatBand::ConflictCandidate => Some((3, "ASK_USER"@)),
        _ => None,
    }
}

pub fn escalation(band: HeatBand) -> (r: Option<(u32, &'static str)>)
    ensures
        match r {
            Some((level, action)) => escalation_of(band) == Some((level, action@)),
            None => escalation_of(band) is None,
        },
{
    match band {
        HeatBand::Overlap => Some((2, "COORDINATE_BEFORE_WRITE")),
        HeatBand::ConflictCandidate => Some((3, "ASK_USER")),
        _ => None,
    }
}

/// A claim proposed by `agent_id`: AGENT_NOT_FOUND, changing nothing, if
/// no such agent is registered; otherwise the claim is made, or rejected
/// (`None`, nothing changed) when the confidence is too low. An agent whose
/// claim is made ACTIVE becomes ACTIVE itself.
pub fn propose_claim(
    state: &mut State,
    claims: &mut ClaimStore,
    agent_id: &str,
    task_summary: String,
    intent: String,
    domains: Vec<String>,
    estimated_files: Vec<String>,
    confidence_bits: u64,
) -> (r: Result<Option<Claim>, CapErrorCode>)
    requires
        old(state).wf(),
        old(claims).wf(),
        old(claims)@.len() + 2 < u64::MAX,
    ensures
        final(state).wf(),
        final(claims).wf(),
        final(state).next_number() == old(state).next_number(),
        !has_agent(old(state)@, agent_id@) ==> r == Err::<Option<Claim>, CapErrorCode>(CapErrorCode::AgentNotFound)
            && final(claims)@ == old(claims)@ && final(state)@ == old(state)@,
        has_agent(old(state)@, agent_id@) ==> match confidence_status(confidence_bits) {
            None => r matches Ok(None) && final(claims)@ == old(claims)@ && final(state)@ == old(state)@,
            Some(st) => {
                &&& r matches Ok(Some(c)) && c@ == (ClaimView {
                    claim_id: claim_name(old(claims)@.len() + 1),
                    agent_id: agent_id@,
                    task_summary: task_summary@,
                    status: st,
                    intent: intent@,
                    domains: strs(domains@),
                    estimated_files: strs(estimated_files@),
                    actual_files: Seq::empty(),
                    confidence_bits,
                    orphaned_at_ms: None,
                }) && final(claims)@ == old(claims)@.push(c@)
                &&& st != ClaimStatus::Active ==> final(state)@ == old(state)@
                &&& st == ClaimStatus::Active ==> exists|i: int|
                    0 <= i < old(state)@.len() && (#[trigger] old(state)@[i]).id == agent_id@ && final(state)@ == old(
                        state,
                    )@.update(i, AgentView { state: AgentState::Active, ..old(state)@[i] })
            },
        },
{
    if state.agent(agent_id).is_none() {
        return Err(CapErrorCode::AgentNotFound);
    }
    let made = claims.propose(agent_id, task_summary, intent, domains, estimated_files, confidence_bits);
    match &made {
        Some(c) => {
            if c.status == ClaimStatus::Active {
                state.promote_active(agent_id);
            }
        },
        None => {},
    }
    Ok(made)
}

/// A CLEAR_INVOKED event: AGENT_NOT_FOUND, changing nothing, if no such
/// agent is registered; otherwise every releasable claim of the agent is
/// released (their ids returned, in store order) and the agent starts over
/// in DISCOVERY with its next generation, which is returned too.
pub fn clear_agent_claims(state: &mut State, claims: &mut ClaimStore, agent_id: &str) -> (r: Result<
    (Vec<String>, u64),
    CapErrorCode,
>)
    requires
        old(state).wf(),
        old(claims).wf(),
        forall|i: int|
            0 <= i < old(state)@.len() && (#[trigger] old(state)@[i]).id == agent_id@ ==> old(state)@[i].generation
                < u64::MAX,
    ensures
        final(state).wf(),
        final(claims).wf(),
        final(state).next_number() == old(state).next_number(),
        !has_agent(old(state)@, agent_id@) ==> (r matches Err(e) && e == CapErrorCode::AgentNotFound && final(claims)@
            == old(claims)@ && final(state)@ == old(state)@),
        has_agent(old(state)@, agent_id@) ==> (r matches Ok((ids, g)) && strs(ids@) == old(claims)@.filter(
            |c: ClaimView| releasable_of(c, agent_id@),
        ).map_values(|c: ClaimView| c.claim_id) && final(claims)@ == old(claims)@.map_values(
            |c: ClaimView| if releasable_of(c, agent_id@) { released(c) } else { c },
        ) && exists|i: int|
            0 <= i < old(state)@.len() && (#[trigger] old(state)@[i]).id == agent_id@ && g == old(state)@[i].generation
                + 1 && final(state)@ == old(state)@.update(
                i,
                AgentView { state: AgentState::Discovery, generation: g, ..old(state)@[i] },
            )),
{
    if state.agent(agent_id).is_none() {
        return Err(CapErrorCode::AgentNotFound);
    }
    let ids = claims.release_for_agent(agent_id);
    match state.clear(agent_id) {
        Some(g) => Ok((ids, g)),
        None => Err(CapErrorCode::AgentNotFound),
    }
}

/// A FILE_TOUCHED event: AGENT_NOT_FOUND if no such agent is registered,
/// CLAIM_NOT_FOUND if it holds no live claim (nothing changed either way);
/// otherwise the files join the touched files of its first live claim, and
/// the files the claim had touched before and the ones new to it are
/// returned, in that order.
pub fn touch_files(state: &State, claims: &mut ClaimStore, agent_id: &str, files: &Vec<String>) -> (r: Result<
    (Vec<String>, Vec<String>),
    CapErrorCode,
>)
    requires
        state.wf(),
        old(claims).wf(),
    ensures
        final(claims).wf(),
        !has_agent(state@, agent_id@) ==> (r matches Err(e) && e == CapErrorCode::AgentNotFound && final(claims)@
            == old(claims)@),
        has_agent(state@, agent_id@) && (forall|i: int|
            0 <= i < old(claims)@.len() ==> !live_of(#[trigger] old(claims)@[i], agent_id@)) ==> (r matches Err(e)
            && e == CapErrorCode::ClaimNotFound && final(claims)@ == old(claims)@),
        has_agent(state@, agent_id@) && (exists|i: int|
            0 <= i < old(claims)@.len() && live_of(#[trigger] old(claims)@[i], agent_id@)) ==> (r matches Ok(
            (before, new),
        ) && exists|i: int|
            0 <= i < old(claims)@.len() && live_of(old(claims)@[i], agent_id@) && (forall|j: int|
                0 <= j < i ==> !live_of(#[trigger] old(claims)@[j], agent_id@)) && strs(before@) == old(claims)@[i].actual_files
                && strs(new@) == fresh_files(strs(files@), old(claims)@[i].actual_files) && touched_into(
                old(claims)@,
                final(claims)@,
                i,
                strs(files@),
            )),
{
    if state.agent(agent_id).is_none() {
        return Err(CapErrorCode::AgentNotFound);
    }
    let before = match claims.live_claim_for(agent_id) {
        None => return Err(CapErrorCode::ClaimNotFound),
        Some(c) => copy_strings(&c.actual_files),
    };
    let ghost old_c = claims@;
    let ghost i1 = choose|i: int|
        0 <= i < old_c.len() && old_c[i].actual_files == strs(before@) && live_of(old_c[i], agent_id@) && forall|j: int|
            0 <= j < i ==> !live_of(#[trigger] old_c[j], agent_id@);
    match claims.record_touched(agent_id, files) {
        None => Err(CapErrorCode::ClaimNotFound),
        Some(new) => {
            proof {
                let i2 = choose|i: int|
                    0 <= i < old_c.len() && live_of(old_c[i], agent_id@) && (forall|j: int|
                        0 <= j < i ==> !live_of(#[trigger] old_c[j], agent_id@)) && strs(new@) == fresh_files(
                        strs(files@),
                        old_c[i].actual_files,
                    ) && touched_into(old_c, claims@, i, strs(files@));
                if i1 < i2 {
                    assert(!live_of(old_c[i1], agent_id@));
                } else if i2 < i1 {
                    assert(!live_of(old_c[i2], agent_id@));
                }
            }
            Ok((before, new))
        },
    }
}

/// The data of a CLAIM_PROPOSED answer: a made claim's id and status with
/// the advice for it, or a rejection for low confidence.
pub open spec fn claim_data(d: ResponseData, made: Option<ClaimView>, advice: Seq<char>) -> bool {
    match made {
        Some(c) => {
            &&& d.claim_id matches Some(x) && x@ == c.claim_id
            &&& d.status matches Some(x) && x@ == c.status.name()
            &&& d.recommendation matches Some(x) && x@ == advice
            &&& d.reason is None
            &&& d.generation is None
        },
        None => {
            &&& d.claim_id is None
            &&& d.status matches Some(x) && x@ == "REJECTED"@
            &&& d.recommendation is None
            &&& d.reason matches Some(x) && x@ == "LOW_CONFIDENCE"@
            &&& d.generation is None
        },
    }
}

/// The answer to a CLAIM_PROPOSED request `id` that made `made` (or rejected
/// the claim), with the advice predicted for it.
pub fn claim_answer(id: &str, made: &Option<Claim>, advice: &str) -> (r: Response)
    ensures
        r.id@ == id@ && r.ok && r.agent_id is None && r.error is None,
        r.data matches Some(d) && claim_data(d, match made { Some(c) => Some(c@), None => None }, advice@),
{
    let data = match made {
        Some(c) => ResponseData {
            claim_id: Some(owned(c.claim_id.as_str())),
            status: Some(owned(c.status.as_str())),
            recommendation: Some(owned(advice)),
            reason: None,
            generation: None,
        },
        None => ResponseData {
            claim_id: None,
            status: Some(owned("REJECTED")),
            recommendation: None,
            reason: Some(owned("LOW_CONFIDENCE")),
            generation: None,
        },
    };
    Response::ok_with_data(id, data)
}

/// The answer to a CLEAR_INVOKED request `id`: the agent's new generation.
pub fn clear_answer(id: &str, generation: u64) -> (r: Response)
    ensures
        r.id@ == id@ && r.ok && r.agent_id is None && r.error is None,
        r.data matches Some(d) && d.generation == Some(generation) && d.claim_id is None && d.status is None
            && d.recommendation is None && d.reason is None,
{
    Response::ok_with_data(
        id,
        ResponseData { claim_id: None, status: None, recommendation: None, reason: None, generation: Some(generation) },
    )
}

/// An AGENT_STATE_CHANGED event: AGENT_NOT_FOUND if no such agent is
/// registered, INVALID_STATE_TRANSITION (nothing changed) if the agent may
/// not make that move, otherwise the agent is moved to `to`.
pub fn change_agent_state(state: &mut State, agent_id: &str, to: AgentState) -> (r: Result<(), CapErrorCode>)
    requires
        old(state).wf(),
    ensures
        final(state).wf(),
        final(state).next_number() == old(state).next_number(),
        !has_agent(old(state)@, agent_id@) ==> r == Err::<(), CapErrorCode>(CapErrorCode::AgentNotFound) && final(state)@
            == old(state)@,
        has_agent(old(state)@, agent_id@) ==> exists|i: int|
            0 <= i < old(state)@.len() && (#[trigger] old(state)@[i]).id == agent_id@ && if may_change(
                old(state)@[i].state,
                to,
            ) {
                r is Ok && final(state)@ == old(state)@.update(i, AgentView { state: to, ..old(state)@[i] })
            } else {
                r == Err::<(), CapErrorCode>(CapErrorCode::InvalidStateTransition) && final(state)@ == old(state)@
            },
{
    match state.set_state(agent_id, to) {
        Ok(()) => Ok(()),
        Err(StateError::AgentNotFound) => Err(CapErrorCode::AgentNotFound),
        Err(StateError::InvalidTransition) => Err(CapErrorCode::InvalidStateTransition),
    }
}

proof fn lemma_push_contains(s: Seq<Seq<char>>, x: Seq<char>, a: Seq<char>)
    ensures
        s.push(x).contains(a) <==> (s.contains(a) || a == x),
{
    let t = s.push(x);
    if t.contains(a) {
        let m = choose|m: int| 0 <= m < t.len() && t[m] == a;
        if m < s.len() {
            assert(s[m] == a);
        }
    }
    if s.contains(a) {
        let m = choose|m: int| 0 <= m < s.len() && s[m] == a;
        assert(t[m] == a);
    }
    if a == x {
        assert(t[s.len() as int] == a);
    }
}

/// The agents other than `agent_id` that hold a live claim, each once: the
/// agents whose heat against `agent_id` is computed.
pub fn other_live_agents(claims: &ClaimStore, agent_id: &str) -> (r: Vec<String>)
    ensures
        forall|x: int, y: int| 0 <= x < y < r@.len() ==> (#[trigger] r@[x])@ != (#[trigger] r@[y])@,
        forall|a: Seq<char>|
            strs(r@).contains(a) <==> (a != agent_id@ && exists|i: int|
                0 <= i < claims@.len() && live_of(#[trigger] claims@[i], a)),
{
    let all = claims.live_claim_agent_ids();
    let mut r: Vec<String> = Vec::new();
    let mut i: usize = 0;
    while i < all.len()
        invariant
            i <= all@.len(),
            forall|x: int, y: int| 0 <= x < y < all@.len() ==> (#[trigger] all@[x])@ != (#[trigger] all@[y])@,
            forall|x: int, y: int| 0 <= x < y < r@.len() ==> (#[trigger] r@[x])@ != (#[trigger] r@[y])@,
            forall|a: Seq<char>|
                #[trigger] strs(r@).contains(a) <==> (a != agent_id@ && strs(all@).subrange(0, i as int).contains(a)),
        decreases all.len() - i,
    {
        let ghost r0 = r@;
        let ghost sub = strs(all@).subrange(0, i as int);
        let ghost sub1 = strs(all@).subrange(0, i + 1);
        let ghost e = all@[i as int]@;
        proof {
            assert(sub1 =~= sub.push(e));
        }
        let same = str_eq(all[i].as_str(), agent_id);
        if !same {
            r.push(owned(all[i].as_str()));
            proof {
                assert(strs(r@) =~= strs(r0).push(e));
                assert forall|x: int, y: int| 0 <= x < y < r@.len() implies (#[trigger] r@[x])@ != (#[trigger] r@[y])@ by {
                    if y == r@.len() - 1 {
                        assert(r@[x] == r0[x]);
                        assert(strs(r0)[x] == r0[x]@);
                        assert(strs(r0).contains(r0[x]@));
                        let m = choose|m: int| 0 <= m < sub.len() && sub[m] == r0[x]@;
                        assert(sub[m] == all@[m]@);
                    } else {
                        assert(r@[x] == r0[x] && r@[y] == r0[y]);
                    }
                }
            }
        }
        proof {
            assert forall|a: Seq<char>|
                #[trigger] strs(r@).contains(a) <==> (a != agent_id@ && sub1.contains(a)) by {
                lemma_push_contains(sub, e, a);
                lemma_push_contains(strs(r0), e, a);
                assert(strs(r0).contains(a) <==> (a != agent_id@ && sub.contains(a)));
            }
        }
        i = i + 1;
    }
    assert(strs(all@).subrange(0, all@.len() as int) =~= strs(all@));
    r
}

/// Edge `i` is the hottest of the first `n` (the last of equally hot ones).
pub open spec fn hottest_of(edges: Seq<HeatResult>, i: int, n: int) -> bool {
    &&& 0 <= i < n <= edges.len()
    &&& forall|j: int| #![trigger edges[j]] 0 <= j < n ==> edges[j].heat <= edges[i].heat
    &&& forall|j: int| #![trigger edges[j]] i < j < n ==> edges[j].heat < edges[i].heat
}

/// The advice for a proposed claim from the heat predicted against each
/// other agent: the recommendation of the hottest edge's band (the last of
/// equally hot ones), or PROCEED when there is no other agent.
pub fn predicted_recommendation(edges: &Vec<HeatResult>) -> (r: &'static str)
    ensures
        edges@.len() == 0 ==> r@ == "PROCEED"@,
        edges@.len() > 0 ==> exists|i: int|
            #[trigger] hottest_of(edges@, i, edges@.len() as int) && r@ == edges@[i].band.advice(),
{
    if edges.len() == 0 {
        return "PROCEED";
    }
    let mut best: usize = 0;
    let mut i: usize = 1;
    while i < edges.len()
        invariant
            1 <= i <= edges@.len(),
            hottest_of(edges@, best as int, i as int),
        decreases edges.len() - i,
    {
        if edges[i].heat >= edges[best].heat {
            best = i;
        }
        i = i + 1;
    }
    let r = edges[best].band.recommendation();
    assert(hottest_of(edges@, best as int, edges@.len() as int));
    r
}

/// What a heat update did to the pair's conflict.
#[derive(Debug)]
pub enum HeatConflict {
    Unchanged,
    /// The heat reached CONFLICT_CANDIDATE: a conflict was opened.
    Opened(Conflict),
    /// The heat dropped below CONFLICT_CANDIDATE: the open conflict was
    /// resolved.
    Resolved(Conflict),
}

/// What a heat change between `mine` and `other` does to the open
/// conflicts `before` (numbered up to `last`), giving `after` and `r`: at
/// CONFLICT_CANDIDATE a pair without an open conflict gets one, naming the
/// files both claim, the domains either claims (as a set in string order) and
/// both intents, stamped `now_ms`; below it, the pair's open conflict is
/// resolved; otherwise nothing changes.
pub open spec fn heat_settled(
    before: Seq<ConflictView>,
    last: nat,
    after: Seq<ConflictView>,
    mine: HeatInputsView,
    other: HeatInputsView,
    heat: u32,
    band: HeatBand,
    now_ms: u64,
    r: HeatConflict,
) -> bool {
    let k = pair_key(mine.agent_id, other.agent_id);
    let open = has_pair(before, k);
    if band == HeatBand::ConflictCandidate && !open {
        &&& r matches HeatConflict::Opened(c) && {
            &&& c@.conflict_id == conflict_name(last + 1)
            &&& c@.agents == k
            &&& c@.state == ConflictState::Detected
            &&& c@.trigger_heat == heat
            &&& c@.paths == common(mine.files, other.files)
            &&& sorted_unique(c@.domains)
            &&& forall|d: Seq<char>| c@.domains.contains(d) <==> (mine.domains.contains(d) || other.domains.contains(d))
            &&& c@.intents == seq![mine.intent, other.intent]
            &&& c@.proposals.len() == 0
            &&& c@.opened_at_ms == now_ms
            &&& after == before.push(c@)
        }
    } else if band != HeatBand::ConflictCandidate && open {
        r matches HeatConflict::Resolved(c) && exists|i: int|
            0 <= i < before.len() && (#[trigger] before[i]).agents == k && c@ == with_state(
                before[i],
                ConflictState::Resolved,
            ) && after == before.remove(i)
    } else {
        r is Unchanged && after == before
    }
}

/// Opens or resolves the conflict between `mine.agent_id` and
/// `other.agent_id` after their heat changed to `heat` in `band`, as
/// `heat_settled` says.
pub fn settle_heat_edge(
    conflicts: &mut ConflictStore,
    mine: &HeatInputs,
    other: &HeatInputs,
    heat: u32,
    band: HeatBand,
    now_ms: u64,
) -> (r: HeatConflict)
    requires
        old(conflicts).wf(),
        old(conflicts).last_number() < u64::MAX,
    ensures
        final(conflicts).wf(),
        heat_settled(old(conflicts)@, old(conflicts).last_number(), final(conflicts)@, mine@, other@, heat, band, now_ms, r),
        final(conflicts).last_number() == old(conflicts).last_number() + if r is Opened { 1int } else { 0int },
{
    let a = mine.agent_id.as_str();
    let b = other.agent_id.as_str();
    let open = conflicts.has_open(a, b);
    if band == HeatBand::ConflictCandidate {
        if open {
            return HeatConflict::Unchanged;
        }
        let paths = intersection(&mine.files, &other.files);
        let domains = union(&mine.domains, &other.domains);
        let mut intents: Vec<String> = Vec::new();
        intents.push(owned(mine.intent.as_str()));
        intents.push(owned(other.intent.as_str()));
        proof {
            assert(strs(intents@) =~= seq![mine@.intent, other@.intent]);
        }
        match conflicts.open(a, b, heat, now_ms, paths, domains, intents) {
            Some(c) => HeatConflict::Opened(c),
            None => HeatConflict::Unchanged,
        }
    } else if open {
        match conflicts.resolve(a, b) {
            Some(c) => HeatConflict::Resolved(c),
            None => HeatConflict::Unchanged,
        }
    } else {
        HeatConflict::Unchanged
    }
}

/// The heat edges `m` with, in order, each update's edge between `agent`
/// and the update's other agent set to its result.
pub open spec fn upserted(
    m: Map<(Seq<char>, Seq<char>), HeatResultView>,
    agent: Seq<char>,
    u: Seq<(HeatInputsView, HeatResultView)>,
) -> Map<(Seq<char>, Seq<char>), HeatResultView>
    decreases u.len(),
{
    if u.len() == 0 {
        m
    } else {
        upserted(m, agent, u.drop_last()).insert(pair_key(agent, u.last().0.agent_id), u.last().1)
    }
}

/// The updates' views: each other agent's inputs and the heat between them.
pub open spec fn update_views(u: Seq<(HeatInputs, HeatResult)>) -> Seq<(HeatInputsView, HeatResultView)> {
    u.map_values(|e: (HeatInputs, HeatResult)| (e.0@, e.1@))
}

/// `states[i]` (numbered up to `lasts[i]`) are the open conflicts before the
/// `i`-th update is settled, giving `r[i]`.
pub open spec fn heat_chain(
    states: Seq<Seq<ConflictView>>,
    lasts: Seq<nat>,
    mine: HeatInputsView,
    u: Seq<(HeatInputsView, HeatResultView)>,
    now_ms: u64,
    r: Seq<HeatConflict>,
) -> bool {
    &&& states.len() == u.len() + 1
    &&& lasts.len() == u.len() + 1
    &&& r.len() == u.len()
    &&& forall|i: int|
        0 <= i < u.len() ==> {
            &&& heat_settled(states[i], lasts[i], states[i + 1], mine, u[i].0, u[i].1.heat, u[i].1.band, now_ms, #[trigger] r[i])
            &&& lasts[i + 1] == lasts[i] + if r[i] is Opened { 1int } else { 0int }
        }
}

/// Records the heat between `mine` and each other agent (the updates hold
/// the other agent's inputs and the heat computed between them) and settles
/// each pair's conflict in turn, stamping new conflicts `now_ms`.
pub fn apply_heat_updates(
    heat: &mut HeatStore,
    conflicts: &mut ConflictStore,
    mine: &HeatInputs,
    updates: &Vec<(HeatInputs, HeatResult)>,
    now_ms: u64,
) -> (r: Vec<HeatConflict>)
    requires
        old(heat).wf(),
        old(conflicts).wf(),
        old(conflicts).last_number() + updates@.len() < u64::MAX,
    ensures
        final(heat).wf(),
        final(conflicts).wf(),
        final(heat)@ == upserted(old(heat)@, mine@.agent_id, update_views(updates@)),
        exists|states: Seq<Seq<ConflictView>>, lasts: Seq<nat>|
            #[trigger] heat_chain(states, lasts, mine@, update_views(updates@), now_ms, r@) && states[0] == old(conflicts)@
                && lasts[0] == old(conflicts).last_number() && states.last() == final(conflicts)@ && lasts.last()
                == final(conflicts).last_number(),
{
    let ghost uv = update_views(updates@);
    let ghost h0 = heat@;
    let ghost mut states: Seq<Seq<ConflictView>> = seq![conflicts@];
    let ghost mut lasts: Seq<nat> = seq![conflicts.last_number()];
    let mut r: Vec<HeatConflict> = Vec::new();
    let mut i: usize = 0;
    while i < updates.len()
        invariant
            i <= updates@.len(),
            uv == update_views(updates@),
            heat.wf(),
            conflicts.wf(),
            heat@ == upserted(h0, mine@.agent_id, uv.take(i as int)),
            heat_chain(states, lasts, mine@, uv.take(i as int), now_ms, r@),
            states[0] == old(conflicts)@,
            lasts[0] == old(conflicts).last_number(),
            states.last() == conflicts@,
            lasts.last() == conflicts.last_number(),
            conflicts.last_number() <= old(conflicts).last_number() + i,
            old(conflicts).last_number() + updates@.len() < u64::MAX,
        decreases updates.len() - i,
    {
        let u = &updates[i];
        let ghost r0 = r@;
        let ghost s0 = states;
        let ghost l0 = lasts;
        heat.upsert(mine.agent_id.as_str(), u.0.agent_id.as_str(), u.1.copy());
        let hc = settle_heat_edge(conflicts, mine, &u.0, u.1.heat, u.1.band, now_ms);
        r.push(hc);
        proof {
            states = states.push(conflicts@);
            lasts = lasts.push(conflicts.last_number());
            assert(uv.take(i + 1).drop_last() =~= uv.take(i as int));
            assert(uv[i as int] == (u.0@, u.1@));
            let t = uv.take(i + 1);
            assert forall|j: int| 0 <= j < t.len() implies {
                &&& heat_settled(states[j], lasts[j], states[j + 1], mine@, t[j].0, t[j].1.heat, t[j].1.band, now_ms, #[trigger] r@[j])
                &&& lasts[j + 1] == lasts[j] + if r@[j] is Opened { 1int } else { 0int }
            } by {
                if j < i {
                    assert(r@[j] == r0[j]);
                    assert(states[j] == s0[j] && states[j + 1] == s0[j + 1]);
                    assert(lasts[j] == l0[j] && lasts[j + 1] == l0[j + 1]);
                    assert(t[j] == uv.take(i as int)[j]);
                }
            }
        }
        i = i + 1;
    }
    assert(uv.take(updates@.len() as int) =~= uv);
    r
}

/// An agent without a live claim leaves the heat picture: its heat edges
/// and wait edges go, and its open conflicts are aborted (and returned).
pub fn drop_agent_heat(heat: &mut HeatStore, graph: &mut WaitGraph, conflicts: &mut ConflictStore, agent: &str) -> (r:
    Vec<Conflict>)
    requires
        old(heat).wf(),
        old(conflicts).wf(),
    ensures
        final(heat).wf(),
        final(conflicts).wf(),
        final(heat)@ == old(heat)@.restrict(old(heat)@.dom().filter(|k: (Seq<char>, Seq<char>)| !touches(k, agent@))),
        final(graph)@ == old(graph)@.filter(kept_by(agent@)),
        final(conflicts).last_number() == old(conflicts).last_number(),
        final(conflicts)@ == old(conflicts)@.filter(|c: ConflictView| !involves(c, agent@)),
        crate::conflict::views(r@) == old(conflicts)@.filter(|c: ConflictView| involves(c, agent@)).map_values(
            |c: ConflictView| with_state(c, ConflictState::Aborted),
        ),
{
    let _ = heat.remove_agent(agent);
    graph.remove_agent(agent);
    conflicts.abort_for_agent(agent)
}

/// One option of an arbitration prompt.
pub struct ArbitrationOption {
    pub id: String,
    pub from: String,
    pub summary: String,
}

/// The options put to the user for a conflict, one per proposal, in the
/// order of `Conflict::proposals_sorted`, numbered `option-1`, `option-2`, ...
pub fn arbitration_options(c: &Conflict) -> (r: Vec<ArbitrationOption>)
    ensures
        r@.len() == c.proposals@.len(),
        exists|order: Seq<int>| {
            &&& #[trigger] crate::conflict::sorted_order(crate::conflict::proposal_keys(c.proposals@), order)
            &&& forall|i: int|
                0 <= i < r@.len() ==> (#[trigger] r@[i]).id@ == "option-"@ + decimal((i + 1) as nat) && r@[i].from@
                    == c.proposals@[order[i]].0@ && r@[i].summary@ == c.proposals@[order[i]].1.summary@
        },
{
    let sorted = c.proposals_sorted();
    let ghost order = choose|order: Seq<int>| {
        &&& #[trigger] crate::conflict::sorted_order(crate::conflict::proposal_keys(c.proposals@), order)
        &&& forall|i: int|
            0 <= i < sorted@.len() ==> *(#[trigger] sorted@[i]).0 == c.proposals@[order[i]].0 && *sorted@[i].1
                == c.proposals@[order[i]].1
    };
    let mut r: Vec<ArbitrationOption> = Vec::new();
    let mut i: usize = 0;
    while i < sorted.len()
        invariant
            i <= sorted@.len(),
            sorted@.len() == c.proposals@.len(),
            forall|k: int|
                0 <= k < sorted@.len() ==> *(#[trigger] sorted@[k]).0 == c.proposals@[order[k]].0 && *sorted@[k].1
                    == c.proposals@[order[k]].1,
            r@.len() == i,
            forall|k: int|
                0 <= k < i ==> (#[trigger] r@[k]).id@ == "option-"@ + decimal((k + 1) as nat) && r@[k].from@
                    == c.proposals@[order[k]].0@ && r@[k].summary@ == c.proposals@[order[k]].1.summary@,
        decreases sorted.len() - i,
    {
        let (agent, p) = sorted[i];
        let n: u64 = (i as u64) + 1;
        r.push(ArbitrationOption { id: numbered("option-", n), from: owned(agent.as_str()), summary: owned(p.summary.as_str()) });
        i = i + 1;
    }
    r
}

/// `serde_json::Value::clone`: a deep copy, equal to the value copied.
#[verifier::external_body]
fn clone_json(v: &serde_json::Value) -> (r: serde_json::Value)
    ensures
        r == *v,
{
    v.clone()
}

/// Where a request went.
#[derive(Debug)]
pub enum Routed {
    /// Answered here.
    Answered(Response),
    /// A new agent registered under `agent_id`; the response carries the id.
    Registered { response: Response, agent_id: String },
    /// A coordination event, for the event handling to answer.
    SubmitEvent,
}

/// Routes a request: a wrong token is refused ("unauthorized"); `register`
/// adds an agent seen at `now_ms`; `heartbeat` marks a known agent seen
/// ("unknown agent" if it is not known, "missing agent_id" if the request
/// names none); `submit_event` is passed on when it speaks CAP version 0.1
/// and refused with UNSUPPORTED_CAP_VERSION otherwise; anything else is an
/// "unknown action".
pub fn handle_request(state: &mut State, token: &str, req: &Request, now_ms: u64) -> (r: Routed)
    requires
        old(state).wf(),
        old(state).next_number() < u64::MAX,
    ensures
        final(state).wf(),
        req.token@ != token@ ==> final(state)@ == old(state)@ && (r matches Routed::Answered(resp) && answers_err(resp, req.id@, "unauthorized"@)),
        req.token@ == token@ && req.action@ == "register"@ ==> {
            let id = agent_name(old(state).next_number());
            &&& r matches Routed::Registered { response, agent_id } && agent_id@ == id  && answers_agent(response, req.id@, id)
            &&& final(state)@ == old(state)@.push(fresh_agent(id, now_ms, req.meta))
        },
        req.token@ == token@ && req.action@ == "heartbeat"@ ==> match req.agent_id {
            Some(id) => {
                &&& r matches Routed::Answered(resp) && if has_agent(old(state)@, id@) {
                    answers_ok(resp, req.id@)
                } else {
                    answers_err(resp, req.id@, "unknown agent"@)
                }
                &&& !has_agent(old(state)@, id@) ==> final(state)@ == old(state)@
                &&& has_agent(old(state)@, id@) ==> exists|i: int|
                    0 <= i < old(state)@.len() && (#[trigger] old(state)@[i]).id == id@ && final(state)@ == old(
                        state,
                    )@.update(i, AgentView { last_seen_ms: now_ms, ..old(state)@[i] })
            },
            None => final(state)@ == old(state)@ && (r matches Routed::Answered(resp) && answers_err(resp, req.id@, "missing agent_id"@)),
        },
        req.token@ == token@ && req.action@ == "submit_event"@ ==> final(state)@ == old(state)@ && if (req.cap_version matches Some(v)
            && v@ == "0.1"@) {
            r is SubmitEvent
        } else {
            r matches Routed::Answered(resp) && answers_err(resp, req.id@, "UNSUPPORTED_CAP_VERSION"@)
        },
        req.token@ == token@ && req.action@ != "register"@ && req.action@ != "heartbeat"@ && req.action@
            != "submit_event"@ ==> final(state)@ == old(state)@ && (r matches Routed::Answered(resp) && answers_err(resp, req.id@, "unknown action"@)),
{
    proof {
        reveal_strlit("register");
        reveal_strlit("heartbeat");
        reveal_strlit("submit_event");
        assert("register"@[0] != "heartbeat"@[0]);
        assert("register"@[0] != "submit_event"@[0]);
        assert("heartbeat"@[0] != "submit_event"@[0]);
    }
    if !crate::bootstrap::constant_time_eq(req.token.as_str(), token) {
        return Routed::Answered(Response::err(req.id.as_str(), "unauthorized"));
    }
    if str_eq(req.action.as_str(), "register") {
        let agent_id = state.register(clone_json(&req.meta), now_ms);
        let response = Response::ok_with_agent(req.id.as_str(), agent_id.as_str());
        return Routed::Registered { response, agent_id };
    }
    if str_eq(req.action.as_str(), "heartbeat") {
        return match &req.agent_id {
            Some(id) => {
                if state.heartbeat(id.as_str(), now_ms) {
                    Routed::Answered(Response::ok_for(req.id.as_str()))
                } else {
                    Routed::Answered(Response::err(req.id.as_str(), "unknown agent"))
                }
            },
            None => Routed::Answered(Response::err(req.id.as_str(), "missing agent_id")),
        };
    }
    if str_eq(req.action.as_str(), "submit_event") {
        return match &req.cap_version {
            Some(v) if str_eq(v.as_str(), "0.1") => Routed::SubmitEvent,
            _ => Routed::Answered(Response::err(req.id.as_str(), "UNSUPPORTED_CAP_VERSION")),
        };
    }
    Routed::Answered(Response::err(req.id.as_str(), "unknown action"))
}

/// The claims after orphaning, agent by agent, the live claims of each lost
/// agent.
pub open spec fn orphan_sweep(claims: Seq<ClaimView>, lost: Seq<Seq<char>>, now_ms: u64) -> Seq<ClaimView>
    decreases lost.len(),
{
    if lost.len() == 0 {
        claims
    } else {
        let agent = lost.last();
        orphan_sweep(claims, lost.drop_last(), now_ms).map_values(
            |c: ClaimView| if live_of(c, agent) { orphaned(c, now_ms) } else { c },
        )
    }
}

/// The orphan reports of one lost agent, given the claims before its turn:
/// each of its live claims with the agent as previous owner, or, when it
/// held none, one report naming no claim.
pub open spec fn agent_orphans(before: Seq<ClaimView>, agent: Seq<char>) -> Seq<(Option<Seq<char>>, Seq<char>)> {
    let live = before.filter(|c: ClaimView| live_of(c, agent));
    if live.len() == 0 {
        seq![(None::<Seq<char>>, agent)]
    } else {
        live.map_values(|c: ClaimView| (Some(c.claim_id), agent))
    }
}

/// The orphan reports of that sweep, agent by agent, in order.
pub open spec fn orphan_pairs(claims: Seq<ClaimView>, lost: Seq<Seq<char>>, now_ms: u64) -> Seq<
    (Option<Seq<char>>, Seq<char>),
>
    decreases lost.len(),
{
    if lost.len() == 0 {
        Seq::empty()
    } else {
        let agent = lost.last();
        let before = orphan_sweep(claims, lost.drop_last(), now_ms);
        orphan_pairs(claims, lost.drop_last(), now_ms) + agent_orphans(before, agent)
    }
}

/// An orphan report as its text: the claim id (if any) and previous owner.
pub open spec fn report_view(p: (Option<String>, String)) -> (Option<Seq<char>>, Seq<char>) {
    (
        match p.0 {
            Some(id) => Some(id@),
            None => None,
        },
        p.1@,
    )
}

/// What one pass of the reaper found and did.
#[derive(Debug)]
pub struct ReaperReport {
    /// Agents silent past the timeout, removed.
    pub lost: Vec<String>,
    /// Their live claims, now orphaned: (claim id, previous owner); a lost
    /// agent that held no live claim is reported once with no claim id.
    pub orphaned: Vec<(Option<String>, String)>,
    /// Orphaned claims past the time to live, now reclaimable.
    pub reclaimable: Vec<String>,
    /// Conflicts that waited too long for proposals, now awaiting the user.
    pub timed_out: Vec<Conflict>,
    /// No agent is left.
    pub network_empty: bool,
}

/// One pass of the reaper at `now_ms`: removes agents silent for longer than
/// `timeout_ms` and orphans their live claims (reporting each, or the agent
/// alone when it held none); makes reclaimable the orphans
/// older than `orphan_ttl_ms`; escalates conflicts that waited longer than
/// `proposal_timeout_ms` for proposals; and says whether the network is empty.
pub fn reaper_tick(
    state: &mut State,
    claims: &mut ClaimStore,
    conflicts: &mut ConflictStore,
    now_ms: u64,
    timeout_ms: u64,
    orphan_ttl_ms: u64,
    proposal_timeout_ms: u64,
) -> (r: ReaperReport)
    requires
        old(state).wf(),
        old(claims).wf(),
        old(conflicts).wf(),
    ensures
        final(state).wf(),
        final(claims).wf(),
        final(conflicts).wf(),
        final(state).next_number() == old(state).next_number(),
        final(conflicts).last_number() == old(conflicts).last_number(),
        final(state)@ == old(state)@.filter(|a: AgentView| !is_lost(a, now_ms, timeout_ms)),
        strs(r.lost@) == old(state)@.filter(|a: AgentView| is_lost(a, now_ms, timeout_ms)).map_values(
            |a: AgentView| a.id,
        ),
        r.orphaned@.map_values(|p: (Option<String>, String)| report_view(p)) == orphan_pairs(
            old(claims)@,
            strs(r.lost@),
            now_ms,
        ),
        ({
            let mid = orphan_sweep(old(claims)@, strs(r.lost@), now_ms);
            &&& final(claims)@ == mid.map_values(
                |c: ClaimView| if is_expired(c, now_ms, orphan_ttl_ms) { reclaimable(c) } else { c },
            )
            &&& strs(r.reclaimable@) == mid.filter(|c: ClaimView| is_expired(c, now_ms, orphan_ttl_ms)).map_values(
                |c: ClaimView| c.claim_id,
            )
        }),
        final(conflicts)@ == old(conflicts)@.map_values(
            |c: ConflictView|
                if crate::conflict::is_timed_out(c, now_ms, proposal_timeout_ms) {
                    with_state(c, ConflictState::AwaitingUserDecision)
                } else {
                    c
                },
        ),
        crate::conflict::views(r.timed_out@) == old(conflicts)@.filter(
            |c: ConflictView| crate::conflict::is_timed_out(c, now_ms, proposal_timeout_ms),
        ).map_values(|c: ConflictView| with_state(c, ConflictState::AwaitingUserDecision)),
        r.network_empty == (final(state)@.len() == 0),
{
    let lost = state.reap(now_ms, timeout_ms);
    let ghost c0 = claims@;
    let ghost names = strs(lost@);
    let mut orphaned_pairs: Vec<(Option<String>, String)> = Vec::new();
    let mut k: usize = 0;
    proof {
        assert(names.subrange(0, 0) =~= Seq::<Seq<char>>::empty());
        assert(orphaned_pairs@.map_values(|p: (Option<String>, String)| report_view(p)) =~= Seq::<
            (Option<Seq<char>>, Seq<char>),
        >::empty());
    }
    while k < lost.len()
        invariant
            names == strs(lost@),
            k <= lost@.len(),
            claims.wf(),
            claims@ == orphan_sweep(c0, names.subrange(0, k as int), now_ms),
            orphaned_pairs@.map_values(|p: (Option<String>, String)| report_view(p)) == orphan_pairs(
                c0,
                names.subrange(0, k as int),
                now_ms,
            ),
        decreases lost.len() - k,
    {
        let ghost before = claims@;
        let ghost pairs_before = orphaned_pairs@.map_values(|p: (Option<String>, String)| report_view(p));
        let agent = lost[k].as_str();
        let ids = claims.orphan_for_agent(agent, now_ms);
        let ghost start = orphaned_pairs@.len();
        let mut j: usize = 0;
        while j < ids.len()
            invariant
                j <= ids@.len(),
                orphaned_pairs@.len() == start + j,
                orphaned_pairs@.map_values(|p: (Option<String>, String)| report_view(p)) == pairs_before + strs(
                    ids@,
                ).subrange(0, j as int).map_values(|x: Seq<char>| (Some(x), agent@)),
            decreases ids.len() - j,
        {
            let ghost pv = orphaned_pairs@.map_values(|p: (Option<String>, String)| report_view(p));
            orphaned_pairs.push((Some(owned(ids[j].as_str())), owned(agent)));
            proof {
                assert(orphaned_pairs@.map_values(|p: (Option<String>, String)| report_view(p)) =~= pv.push(
                    (Some(ids@[j as int]@), agent@),
                ));
                assert(strs(ids@).subrange(0, j + 1).map_values(|x: Seq<char>| (Some(x), agent@)) =~= strs(
                    ids@,
                ).subrange(0, j as int).map_values(|x: Seq<char>| (Some(x), agent@)).push((Some(ids@[j as int]@), agent@)));
            }
            j = j + 1;
        }
        let ghost live = before.filter(|c: ClaimView| live_of(c, agent@));
        proof {
            assert(strs(ids@).subrange(0, ids@.len() as int) =~= strs(ids@));
            assert(strs(ids@).map_values(|x: Seq<char>| (Some(x), agent@)) =~= live.map_values(
                |c: ClaimView| (Some(c.claim_id), agent@),
            ));
        }
        if ids.len() == 0 {
            let ghost pv = orphaned_pairs@.map_values(|p: (Option<String>, String)| report_view(p));
            orphaned_pairs.push((None, owned(agent)));
            proof {
                assert(live.len() == 0);
                assert(orphaned_pairs@.map_values(|p: (Option<String>, String)| report_view(p)) =~= pv.push(
                    (None::<Seq<char>>, agent@),
                ));
                assert(pv =~= pairs_before);
            }
        }
        proof {
            let sub = names.subrange(0, k + 1);
            assert(sub.drop_last() =~= names.subrange(0, k as int));
            assert(sub.last() == agent@);
            assert(claims@ =~= orphan_sweep(c0, sub, now_ms));
            assert(orphaned_pairs@.map_values(|p: (Option<String>, String)| report_view(p)) =~= orphan_pairs(
                c0,
                sub,
                now_ms,
            ));
        }
        k = k + 1;
    }
    proof {
        assert(names.subrange(0, lost@.len() as int) =~= names);
    }
    let reclaimable = claims.sweep_reclaimable(now_ms, orphan_ttl_ms);
    let timed_out = conflicts.sweep_timeouts(now_ms, proposal_timeout_ms);
    let network_empty = state.agent_count() == 0;
    ReaperReport { lost, orphaned: orphaned_pairs, reclaimable, timed_out, network_empty }
}

/// Two participants that both queue behind each other are deadlocked: on a
/// wait graph without edges, the two queue edges always form a cycle.
pub proof fn law_mutual_queue_is_deadlock(a: Seq<char>, b: Seq<char>, res: Seq<char>, g1: Seq<WaitEdge>)
    requires
        queue_edges_added(Seq::empty(), g1, a, b, res, true, true),
    ensures
        has_cycle(g1),
{
    let gm = choose|gm: Seq<WaitEdge>| #[trigger] queue_step(Seq::empty(), gm, a, b, res, true) && queue_step(gm, g1, b, a, res, true);
    assert(gm.len() == 1);
    let e1 = gm[0];
    assert(e1.from@ == a && e1.to@ == b);
    if exists|i: int| 0 <= i < gm.len() && (#[trigger] gm[i]).from@ == b && gm[i].to@ == a {
        // a == b: the one edge is a loop.
        let c = seq![e1];
        assert(g1 == gm);
        assert(g1.contains(e1));
        assert(cycle_in(g1, c));
    } else {
        let e2 = g1[1];
        assert(g1.drop_last() == gm);
        assert(g1[0] == e1);
        let c = seq![e1, e2];
        assert(follows(c, 0));
        assert(g1.contains(e1));
        assert(g1.contains(e2));
        assert(cycle_in(g1, c));
    }
}

} // verus!
