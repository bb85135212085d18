//! Claims: what an agent declares it is working on, with a status that moves
//! from PROVISIONAL/ACTIVE to RELEASED, or to ORPHANED and then RECLAIMABLE
//! when its owner vanished.
//!
//! Confidence is a double; the library holds it by its IEEE-754 bit pattern.
//! For doubles that are neither negative nor NaN the order of the patterns,
//! read as unsigned integers, is the numeric order, which is all that the
//! thresholds need.

use vstd::prelude::*;
use crate::cap::{ClaimStatus, strs, copy_strings};
use crate::text::{numbered, owned, str_eq, decimal, lemma_numbered_injective};
use crate::sets::{sorted_unique, set_of, holds};

verus! {

/// The bit pattern of 0.75: the least confidence that starts a claim ACTIVE.
pub const ACTIVE_MIN: u64 = 0x3fe8_0000_0000_0000;

/// The bit pattern of 0.45: the least confidence that starts a claim
/// PROVISIONAL.
pub const PROVISIONAL_MIN: u64 = 0x3fdc_cccc_cccc_cccd;

/// The bit pattern of positive infinity; every pattern above it is a NaN or a
/// negative double.
pub const POSITIVE_INFINITY: u64 = 0x7ff0_0000_0000_0000;

/// The initial status for a confidence given by its bit pattern: ACTIVE from
/// 0.75, PROVISIONAL from 0.45, otherwise rejected (`None`), NaN and negative
/// values included.
pub open spec fn confidence_status(bits: u64) -> Option<ClaimStatus> {
    if bits > POSITIVE_INFINITY {
        None
    } else if bits >= ACTIVE_MIN {
        Some(ClaimStatus::Active)
    } else if bits >= PROVISIONAL_MIN {
        Some(ClaimStatus::Provisional)
    } else {
        None
    }
}

/// Maps a confidence (the bit pattern of a double) to the initial claim
/// status, or `None` if the claim must be rejected.
pub fn status_for_confidence(bits: u64) -> (r: Option<ClaimStatus>)
    ensures
        r == confidence_status(bits),
{
    if bits > POSITIVE_INFINITY {
        None
    } else if bits >= ACTIVE_MIN {
        Some(ClaimStatus::Active)
    } else if bits >= PROVISIONAL_MIN {
        Some(ClaimStatus::Provisional)
    } else {
        None
    }
}

#[derive(Debug, Clone)]
pub struct Claim {
    pub claim_id: String,
    pub agent_id: String,
    pub task_summary: String,
    pub status: ClaimStatus,
    pub intent: String,
    pub domains: Vec<String>,
    pub estimated_files: Vec<String>,
    /// The files the agent reported touching, in string order, each once.
    pub actual_files: Vec<String>,
    /// The IEEE-754 bit pattern of the confidence the claim was made with.
    pub confidence_bits: u64,
    pub orphaned_at_ms: Option<u64>,
}

pub struct ClaimView {
    pub claim_id: Seq<char>,
    pub agent_id: Seq<char>,
    pub task_summary: Seq<char>,
    pub status: ClaimStatus,
    pub intent: Seq<char>,
    pub domains: Seq<Seq<char>>,
    pub estimated_files: Seq<Seq<char>>,
    pub actual_files: Seq<Seq<char>>,
    pub confidence_bits: u64,
    pub orphaned_at_ms: Option<u64>,
}

impl View for Claim {
    type V = ClaimView;

    open spec fn view(&self) -> ClaimView {
        ClaimView {
            claim_id: self.claim_id@,
            agent_id: self.agent_id@,
            task_summary: self.task_summary@,
            status: self.status,
            intent: self.intent@,
            domains: strs(self.domains@),
            estimated_files: strs(self.estimated_files@),
            actual_files: strs(self.actual_files@),
            confidence_bits: self.confidence_bits,
            orphaned_at_ms: self.orphaned_at_ms,
        }
    }
}

impl Claim {
    /// A field-by-field copy.
    pub fn copy(&self) -> (r: Claim)
        ensures
            r@ == self@,
    {
        Claim {
            claim_id: owned(self.claim_id.as_str()),
            agent_id: owned(self.agent_id.as_str()),
            task_summary: owned(self.task_summary.as_str()),
            status: self.status,
            intent: owned(self.intent.as_str()),
            domains: copy_strings(&self.domains),
            estimated_files: copy_strings(&self.estimated_files),
            actual_files: copy_strings(&self.actual_files),
            confidence_bits: self.confidence_bits,
            orphaned_at_ms: self.orphaned_at_ms,
        }
    }
}

/// The files of `files` that `known` lacks, each once, in the order first
/// reported.
pub open spec fn fresh_files(files: Seq<Seq<char>>, known: Seq<Seq<char>>) -> Seq<Seq<char>>
    decreases files.len(),
{
    if files.len() == 0 {
        Seq::empty()
    } else {
        let r = fresh_files(files.drop_last(), known);
        let x = files.last();
        if known.contains(x) || r.contains(x) {
            r
        } else {
            r.push(x)
        }
    }
}

/// `after` is `before` with claim `i`'s touched files joined by `files`: a
/// set in string order of what it held and what was reported.
pub open spec fn touched_into(before: Seq<ClaimView>, after: Seq<ClaimView>, i: int, files: Seq<Seq<char>>) -> bool {
    let a = after[i].actual_files;
    &&& 0 <= i < before.len()
    &&& after == before.update(i, ClaimView { actual_files: a, ..before[i] })
    &&& sorted_unique(a)
    &&& forall|t: Seq<char>| a.contains(t) <==> (before[i].actual_files.contains(t) || files.contains(t))
}

/// The id of the `n`-th claim made.
pub open spec fn claim_name(n: nat) -> Seq<char> {
    "claim-"@ + decimal(n)
}

/// PROVISIONAL or ACTIVE: the claim is being worked on.
pub open spec fn is_live(s: ClaimStatus) -> bool {
    s == ClaimStatus::Active || s == ClaimStatus::Provisional
}

/// PROPOSED, PROVISIONAL or ACTIVE: the claim can still be released.
pub open spec fn is_releasable(s: ClaimStatus) -> bool {
    s == ClaimStatus::Proposed || is_live(s)
}

/// A live claim of this agent.
pub open spec fn live_of(c: ClaimView, agent: Seq<char>) -> bool {
    c.agent_id == agent && is_live(c.status)
}

/// A releasable claim of this agent.
pub open spec fn releasable_of(c: ClaimView, agent: Seq<char>) -> bool {
    c.agent_id == agent && is_releasable(c.status)
}

/// Time elapsed from `since` to `now`, 0 if `now` is earlier.
pub open spec fn elapsed(now: u64, since: u64) -> int {
    if now >= since { now - since } else { 0 }
}

/// An orphaned claim whose owner has been gone for at least `ttl_ms`.
pub open spec fn is_expired(c: ClaimView, now_ms: u64, ttl_ms: u64) -> bool {
    c.status == ClaimStatus::Orphaned && match c.orphaned_at_ms {
        Some(t) => elapsed(now_ms, t) >= ttl_ms,
        None => false,
    }
}

pub open spec fn released(c: ClaimView) -> ClaimView {
    ClaimView { status: ClaimStatus::Released, ..c }
}

pub open spec fn orphaned(c: ClaimView, now_ms: u64) -> ClaimView {
    ClaimView { status: ClaimStatus::Orphaned, orphaned_at_ms: Some(now_ms), ..c }
}

pub open spec fn reclaimable(c: ClaimView) -> ClaimView {
    ClaimView { status: ClaimStatus::Reclaimable, ..c }
}

pub open spec fn claim_views(v: Seq<Claim>) -> Seq<ClaimView> {
    v.map_values(|c: Claim| c@)
}

/// A change applied to every claim it picks.
enum Transition {
    /// Release the releasable claims of an agent.
    Release { agent: String },
    /// Orphan the live claims of an agent that was lost, stamped `now_ms`.
    Orphan { agent: String, now_ms: u64 },
    /// Make reclaimable the orphaned claims past the time to live.
    Reclaim { now_ms: u64, ttl_ms: u64 },
}

spec fn picks(t: Transition, c: ClaimView) -> bool {
    match t {
        Transition::Release { agent } => releasable_of(c, agent@),
        Transition::Orphan { agent, .. } => live_of(c, agent@),
        Transition::Reclaim { now_ms, ttl_ms } => is_expired(c, now_ms, ttl_ms),
    }
}

spec fn step(t: Transition, c: ClaimView) -> ClaimView {
    if !picks(t, c) {
        c
    } else {
        match t {
            Transition::Release { .. } => released(c),
            Transition::Orphan { now_ms, .. } => orphaned(c, now_ms),
            Transition::Reclaim { .. } => reclaimable(c),
        }
    }
}

fn picks_exec(t: &Transition, c: &Claim) -> (r: bool)
    ensures
        r == picks(*t, c@),
{
    match t {
        Transition::Release { agent } => str_eq(c.agent_id.as_str(), agent.as_str()) && (c.status == ClaimStatus::Proposed
            || c.status == ClaimStatus::Provisional || c.status == ClaimStatus::Active),
        Transition::Orphan { agent, .. } => str_eq(c.agent_id.as_str(), agent.as_str()) && (c.status == ClaimStatus::Provisional
            || c.status == ClaimStatus::Active),
        Transition::Reclaim { now_ms, ttl_ms } => c.status == ClaimStatus::Orphaned && match c.orphaned_at_ms {
            Some(at) => now_ms.saturating_sub(at) >= *ttl_ms,
            None => false,
        },
    }
}

/// The claims made so far, in the order they were made; claim `n` has the id
/// `claim-n`.
pub struct ClaimStore {
    claims: Vec<Claim>,
    next_id: u64,
}

impl View for ClaimStore {
    type V = Seq<ClaimView>;

    closed spec fn view(&self) -> Seq<ClaimView> {
        claim_views(self.claims@)
    }
}

impl ClaimStore {
    /// The `i`-th claim (from 0) is `claim-(i+1)`, and the next id follows the
    /// last.
    pub closed spec fn wf(&self) -> bool {
        &&& self.next_id == self.claims@.len() + 1
        &&& forall|i: int| 0 <= i < self@.len() ==> (#[trigger] self@[i]).claim_id == claim_name((i + 1) as nat)
    }

    pub proof fn lemma_ids(&self)
        requires
            self.wf(),
        ensures
            forall|i: int| 0 <= i < self@.len() ==> (#[trigger] self@[i]).claim_id == claim_name((i + 1) as nat),
            forall|i: int, j: int|
                0 <= i < self@.len() && 0 <= j < self@.len() && (#[trigger] self@[i]).claim_id == (#[trigger] self@[j]).claim_id
                    ==> i == j,
    {
        assert forall|i: int, j: int|
            0 <= i < self@.len() && 0 <= j < self@.len() && (#[trigger] self@[i]).claim_id == (#[trigger] self@[j]).claim_id
            implies i == j by {
            lemma_numbered_injective("claim-"@, (i + 1) as nat, (j + 1) as nat);
        }
    }

    pub fn new() -> (r: Self)
        ensures
            r.wf(),
            r@ == Seq::<ClaimView>::empty(),
    {
        let r = ClaimStore { claims: Vec::new(), next_id: 1 };
        assert(r@ =~= Seq::<ClaimView>::empty());
        r
    }

    /// Makes a claim for `agent_id` if the confidence (a double's bit pattern)
    /// is high enough; its id is `claim-n` for the next number n. Returns a
    /// copy of the new claim, or `None` (and changes nothing) when the
    /// confidence is too low.
    pub fn propose(
        &mut self,
        agent_id: &str,
        task_summary: String,
        intent: String,
        domains: Vec<String>,
        estimated_files: Vec<String>,
        confidence_bits: u64,
    ) -> (r: Option<Claim>)
        requires
            old(self).wf(),
            old(self)@.len() + 2 < u64::MAX,
        ensures
            final(self).wf(),
            match confidence_status(confidence_bits) {
                None => r is None && final(self)@ == old(self)@,
                Some(st) => r matches Some(c) && c@ == (ClaimView {
                    claim_id: claim_name(old(self)@.len() + 1),
                    agent_id: agent_id@,
                    task_summary: task_summary@,
                    status: st,
                    intent: intent@,
                    domains: strs(domains@),
                    estimated_files: strs(estimated_files@),
                    actual_files: Seq::empty(),
                    confidence_bits,
                    orphaned_at_ms: None,
                }) && final(self)@ == old(self)@.push(c@),
            },
    {
        let status = match status_for_confidence(confidence_bits) {
            None => return None,
            Some(s) => s,
        };
        let ghost old_s = self@;
        let claim_id = numbered("claim-", self.next_id);
        self.next_id = self.next_id + 1;
        let claim = Claim {
            claim_id,
            agent_id: owned(agent_id),
            task_summary,
            status,
            intent,
            domains,
            estimated_files,
            actual_files: Vec::new(),
            confidence_bits,
            orphaned_at_ms: None,
        };
        let out = claim.copy();
        assert(strs(out.actual_files@) =~= Seq::<Seq<char>>::empty());
        self.claims.push(claim);
        proof {
            assert(self@ =~= old_s.push(out@));
        }
        Some(out)
    }

    fn find(&self, claim_id: &str) -> (r: Option<usize>)
        ensures
            match r {
                Some(i) => i < self@.len() && self@[i as int].claim_id == claim_id@,
                None => forall|j: int| 0 <= j < self@.len() ==> (#[trigger] self@[j]).claim_id != claim_id@,
            },
    {
        let mut i: usize = 0;
        while i < self.claims.len()
            invariant
                i <= self@.len(),
                forall|j: int| 0 <= j < i ==> (#[trigger] self@[j]).claim_id != claim_id@,
            decreases self.claims.len() - i,
        {
            if str_eq(self.claims[i].claim_id.as_str(), claim_id) {
                return Some(i);
            }
            i = i + 1;
        }
        None
    }

    /// The claim with this id, if any.
    pub fn get(&self, claim_id: &str) -> (r: Option<&Claim>)
        requires
            self.wf(),
        ensures
            match r {
                Some(c) => exists|i: int| 0 <= i < self@.len() && self@[i] == c@ && c.claim_id@ == claim_id@,
                None => forall|i: int| 0 <= i < self@.len() ==> (#[trigger] self@[i]).claim_id != claim_id@,
            },
    {
        match self.find(claim_id) {
            Some(i) => Some(&self.claims[i]),
            None => None,
        }
    }

    /// Sets the status and orphan stamp of the `i`-th claim.
    fn restatus(&mut self, i: usize, status: ClaimStatus, orphaned_at_ms: Option<u64>)
        requires
            old(self).wf(),
            i < old(self)@.len(),
        ensures
            final(self).wf(),
            final(self)@ == old(self)@.update(i as int, ClaimView { status, orphaned_at_ms, ..old(self)@[i as int] }),
    {
        let ghost old_s = self@;
        let mut c = self.claims.remove(i);
        c.status = status;
        c.orphaned_at_ms = orphaned_at_ms;
        self.claims.insert(i, c);
        proof {
            assert(self@ =~= old_s.update(i as int, ClaimView { status, orphaned_at_ms, ..old_s[i as int] }));
        }
    }

    /// Applies `t` to every claim it picks, in id order; returns the ids of
    /// the claims changed.
    fn transition_all(&mut self, t: &Transition) -> (r: Vec<String>)
        requires
            old(self).wf(),
        ensures
            final(self).wf(),
            final(self)@ == old(self)@.map_values(|c: ClaimView| step(*t, c)),
            strs(r@) == old(self)@.filter(|c: ClaimView| picks(*t, c)).map_values(|c: ClaimView| c.claim_id),
    {
        let ghost old_s = self@;
        let ghost p = |c: ClaimView| picks(*t, c);
        let ghost id_of = |c: ClaimView| c.claim_id;
        let mut out: Vec<String> = Vec::new();
        let mut i: usize = 0;
        while i < self.claims.len()
            invariant
                self.wf(),
                p == (|c: ClaimView| picks(*t, c)),
                id_of == (|c: ClaimView| c.claim_id),
                self@.len() == old_s.len(),
                i <= self@.len(),
                forall|j: int| 0 <= j < i ==> #[trigger] self@[j] == step(*t, old_s[j]),
                forall|j: int| i <= j < self@.len() ==> #[trigger] self@[j] == old_s[j],
                strs(out@) == old_s.subrange(0, i as int).filter(p).map_values(id_of),
            decreases self@.len() - i,
        {
            let ghost before = strs(out@);
            let picked = picks_exec(t, &self.claims[i]);
            proof {
                let pre = old_s.subrange(0, i + 1);
                assert(pre.drop_last() =~= old_s.subrange(0, i as int));
                assert(pre.last() == old_s[i as int]);
                reveal_with_fuel(Seq::filter, 1);
                assert(self@[i as int] == old_s[i as int]);
                assert(picked == p(old_s[i as int]));
                if picked {
                    assert(pre.filter(p) == old_s.subrange(0, i as int).filter(p).push(old_s[i as int]));
                } else {
                    assert(pre.filter(p) == old_s.subrange(0, i as int).filter(p));
                }
            }
            if picked {
                out.push(owned(self.claims[i].claim_id.as_str()));
                let (st, stamp) = match t {
                    Transition::Release { .. } => (ClaimStatus::Released, self.claims[i].orphaned_at_ms),
                    Transition::Orphan { now_ms, .. } => (ClaimStatus::Orphaned, Some(*now_ms)),
                    Transition::Reclaim { .. } => (ClaimStatus::Reclaimable, self.claims[i].orphaned_at_ms),
                };
                self.restatus(i, st, stamp);
                proof {
                    assert(strs(out@) =~= before.push(id_of(old_s[i as int])));
                }
            }
            i = i + 1;
        }
        proof {
            assert(self@ =~= old_s.map_values(|c: ClaimView| step(*t, c)));
            assert(old_s.subrange(0, i as int) =~= old_s);
        }
        out
    }

    /// Releases the claim with this id if it is PROPOSED, PROVISIONAL or
    /// ACTIVE; false (and nothing changes) if there is no such claim or it is
    /// in another state.
    pub fn release(&mut self, claim_id: &str) -> (r: bool)
        requires
            old(self).wf(),
        ensures
            final(self).wf(),
            r == exists|i: int|
                0 <= i < old(self)@.len() && (#[trigger] old(self)@[i]).claim_id == claim_id@ && is_releasable(old(self)@[i].status),
            r ==> exists|i: int|
                0 <= i < old(self)@.len() && (#[trigger] old(self)@[i]).claim_id == claim_id@ && final(self)@ == old(self)@.update(
                    i,
                    released(old(self)@[i]),
                ),
            !r ==> final(self)@ == old(self)@,
    {
        proof {
            self.lemma_ids();
        }
        match self.find(claim_id) {
            None => false,
            Some(i) => {
                let st = self.claims[i].status;
                if st == ClaimStatus::Proposed || st == ClaimStatus::Provisional || st == ClaimStatus::Active {
                    let stamp = self.claims[i].orphaned_at_ms;
                    self.restatus(i, ClaimStatus::Released, stamp);
                    true
                } else {
                    false
                }
            },
        }
    }

    /// Releases every PROPOSED, PROVISIONAL or ACTIVE claim of the agent;
    /// returns their ids in id order.
    pub fn release_for_agent(&mut self, agent_id: &str) -> (r: Vec<String>)
        requires
            old(self).wf(),
        ensures
            final(self).wf(),
            final(self)@ == old(self)@.map_values(
                |c: ClaimView| if releasable_of(c, agent_id@) { released(c) } else { c },
            ),
            strs(r@) == old(self)@.filter(|c: ClaimView| releasable_of(c, agent_id@)).map_values(
                |c: ClaimView| c.claim_id,
            ),
    {
        let t = Transition::Release { agent: owned(agent_id) };
        let ghost old_s = self@;
        let r = self.transition_all(&t);
        proof {
            assert(self@ =~= old_s.map_values(|c: ClaimView| if releasable_of(c, agent_id@) { released(c) } else { c }));
            assert(old_s.filter(|c: ClaimView| picks(t, c)) =~= old_s.filter(|c: ClaimView| releasable_of(c, agent_id@))) by {
                assert((|c: ClaimView| picks(t, c)) =~= (|c: ClaimView| releasable_of(c, agent_id@)));
            }
        }
        r
    }

    /// Orphans every PROVISIONAL or ACTIVE claim of an agent that was lost,
    /// stamping it with `now_ms`; returns their ids in id order.
    pub fn orphan_for_agent(&mut self, agent_id: &str, now_ms: u64) -> (r: Vec<String>)
        requires
            old(self).wf(),
        ensures
            final(self).wf(),
            final(self)@ == old(self)@.map_values(
                |c: ClaimView| if live_of(c, agent_id@) { orphaned(c, now_ms) } else { c },
            ),
            strs(r@) == old(self)@.filter(|c: ClaimView| live_of(c, agent_id@)).map_values(|c: ClaimView| c.claim_id),
    {
        let t = Transition::Orphan { agent: owned(agent_id), now_ms };
        let ghost old_s = self@;
        let r = self.transition_all(&t);
        proof {
            assert(self@ =~= old_s.map_values(|c: ClaimView| if live_of(c, agent_id@) { orphaned(c, now_ms) } else { c }));
            assert(old_s.filter(|c: ClaimView| picks(t, c)) =~= old_s.filter(|c: ClaimView| live_of(c, agent_id@))) by {
                assert((|c: ClaimView| picks(t, c)) =~= (|c: ClaimView| live_of(c, agent_id@)));
            }
        }
        r
    }

    /// Makes RECLAIMABLE every ORPHANED claim whose owner has been gone for at
    /// least `ttl_ms` at `now_ms`; returns their ids in id order.
    pub fn sweep_reclaimable(&mut self, now_ms: u64, ttl_ms: u64) -> (r: Vec<String>)
        requires
            old(self).wf(),
        ensures
            final(self).wf(),
            final(self)@ == old(self)@.map_values(
                |c: ClaimView| if is_expired(c, now_ms, ttl_ms) { reclaimable(c) } else { c },
            ),
            strs(r@) == old(self)@.filter(|c: ClaimView| is_expired(c, now_ms, ttl_ms)).map_values(
                |c: ClaimView| c.claim_id,
            ),
    {
        let t = Transition::Reclaim { now_ms, ttl_ms };
        let ghost old_s = self@;
        let r = self.transition_all(&t);
        proof {
            assert(self@ =~= old_s.map_values(|c: ClaimView| if is_expired(c, now_ms, ttl_ms) { reclaimable(c) } else { c }));
            assert(old_s.filter(|c: ClaimView| picks(t, c)) =~= old_s.filter(|c: ClaimView| is_expired(c, now_ms, ttl_ms))) by {
                assert((|c: ClaimView| picks(t, c)) =~= (|c: ClaimView| is_expired(c, now_ms, ttl_ms)));
            }
        }
        r
    }

    /// The position of the agent's first live claim, if it has one.
    fn live_index(&self, agent_id: &str) -> (r: Option<usize>)
        ensures
            match r {
                Some(i) => i < self@.len() && live_of(self@[i as int], agent_id@) && forall|j: int|
                    0 <= j < i ==> !live_of(#[trigger] self@[j], agent_id@),
                None => forall|i: int| 0 <= i < self@.len() ==> !live_of(#[trigger] self@[i], agent_id@),
            },
    {
        let mut i: usize = 0;
        while i < self.claims.len()
            invariant
                i <= self@.len(),
                forall|j: int| 0 <= j < i ==> !live_of(#[trigger] self@[j], agent_id@),
            decreases self.claims.len() - i,
        {
            let c = &self.claims[i];
            if str_eq(c.agent_id.as_str(), agent_id) && (c.status == ClaimStatus::Active || c.status
                == ClaimStatus::Provisional) {
                assert(self@[i as int] == c@);
                return Some(i);
            }
            assert(self@[i as int] == c@);
            i = i + 1;
        }
        None
    }

    /// Sets the touched files of the `i`-th claim.
    fn set_actual(&mut self, i: usize, files: Vec<String>)
        requires
            old(self).wf(),
            i < old(self)@.len(),
        ensures
            final(self).wf(),
            final(self)@ == old(self)@.update(i as int, ClaimView { actual_files: strs(files@), ..old(self)@[i as int] }),
    {
        let ghost old_s = self@;
        let ghost fv = strs(files@);
        let mut c = self.claims.remove(i);
        c.actual_files = files;
        self.claims.insert(i, c);
        proof {
            assert(self@ =~= old_s.update(i as int, ClaimView { actual_files: fv, ..old_s[i as int] }));
        }
    }

    /// The agent reported touching `files`: they join the touched files of
    /// its first live claim, and the ones new to that claim are returned
    /// (each once, in the order reported). `None`, changing nothing, if the
    /// agent has no live claim.
    pub fn record_touched(&mut self, agent_id: &str, files: &Vec<String>) -> (r: Option<Vec<String>>)
        requires
            old(self).wf(),
        ensures
            final(self).wf(),
            match r {
                None => final(self)@ == old(self)@ && forall|i: int|
                    0 <= i < old(self)@.len() ==> !live_of(#[trigger] old(self)@[i], agent_id@),
                Some(new) => exists|i: int|
                    0 <= i < old(self)@.len() && live_of(old(self)@[i], agent_id@) && (forall|j: int|
                        0 <= j < i ==> !live_of(#[trigger] old(self)@[j], agent_id@)) && strs(new@) == fresh_files(
                        strs(files@),
                        old(self)@[i].actual_files,
                    ) && touched_into(old(self)@, final(self)@, i, strs(files@)),
            },
    {
        let i = match self.live_index(agent_id) {
            None => return None,
            Some(i) => i,
        };
        let ghost old_s = self@;
        let known = copy_strings(&self.claims[i].actual_files);
        let ghost kv = strs(known@);
        assert(kv == old_s[i as int].actual_files);
        let mut new: Vec<String> = Vec::new();
        let mut merged = copy_strings(&known);
        let mut k: usize = 0;
        while k < files.len()
            invariant
                k <= files@.len(),
                kv == strs(known@),
                strs(new@) == fresh_files(strs(files@).subrange(0, k as int), kv),
                strs(merged@) == kv + strs(files@).subrange(0, k as int),
            decreases files.len() - k,
        {
            let f = files[k].as_str();
            let ghost pre = strs(files@).subrange(0, k + 1);
            proof {
                assert(pre.drop_last() =~= strs(files@).subrange(0, k as int));
                assert(pre.last() == f@);
            }
            if !holds(&known, f) && !holds(&new, f) {
                let ghost nv = strs(new@);
                new.push(owned(f));
                assert(strs(new@) =~= nv.push(f@));
            }
            let ghost mv = strs(merged@);
            merged.push(owned(f));
            assert(strs(merged@) =~= mv.push(f@));
            assert(kv + pre =~= (kv + strs(files@).subrange(0, k as int)).push(f@));
            k = k + 1;
        }
        assert(strs(files@).subrange(0, files@.len() as int) =~= strs(files@));
        let all = set_of(&merged);
        proof {
            let m = strs(merged@);
            assert(m =~= kv + strs(files@));
            assert forall|t: Seq<char>| m.contains(t) <==> (kv.contains(t) || strs(files@).contains(t)) by {
                if m.contains(t) {
                    let q = choose|q: int| 0 <= q < m.len() && m[q] == t;
                    if q < kv.len() {
                        assert(kv[q] == t);
                    } else {
                        assert(strs(files@)[q - kv.len()] == t);
                    }
                }
                if kv.contains(t) {
                    let q = choose|q: int| 0 <= q < kv.len() && kv[q] == t;
                    assert(m[q] == t);
                }
                if strs(files@).contains(t) {
                    let q = choose|q: int| 0 <= q < strs(files@).len() && strs(files@)[q] == t;
                    assert(m[kv.len() + q] == t);
                }
            }
        }
        let ghost av = strs(all@);
        self.set_actual(i, all);
        proof {
            assert(self@[i as int].actual_files == av);
            assert(touched_into(old_s, self@, i as int, strs(files@)));
            assert(strs(new@) == fresh_files(strs(files@), old_s[i as int].actual_files));
        }
        Some(new)
    }

    /// The agent's first live (PROVISIONAL or ACTIVE) claim, if it has one.
    pub fn live_claim_for(&self, agent_id: &str) -> (r: Option<&Claim>)
        ensures
            match r {
                Some(c) => exists|i: int|
                    0 <= i < self@.len() && self@[i] == c@ && live_of(c@, agent_id@) && forall|j: int|
                        0 <= j < i ==> !live_of(#[trigger] self@[j], agent_id@),
                None => forall|i: int| 0 <= i < self@.len() ==> !live_of(#[trigger] self@[i], agent_id@),
            },
    {
        let mut i: usize = 0;
        while i < self.claims.len()
            invariant
                i <= self@.len(),
                forall|j: int| 0 <= j < i ==> !live_of(#[trigger] self@[j], agent_id@),
            decreases self.claims.len() - i,
        {
            let c = &self.claims[i];
            if str_eq(c.agent_id.as_str(), agent_id) && (c.status == ClaimStatus::Active || c.status
                == ClaimStatus::Provisional) {
                assert(self@[i as int] == c@);
                return Some(c);
            }
            i = i + 1;
        }
        None
    }

    /// The distinct agents that own at least one live claim, each once, in the
    /// order of their first live claim.
    pub fn live_claim_agent_ids(&self) -> (r: Vec<String>)
        ensures
            forall|x: int, y: int| 0 <= x < y < r@.len() ==> (#[trigger] r@[x])@ != (#[trigger] r@[y])@,
            forall|a: Seq<char>|
                strs(r@).contains(a) <==> exists|i: int| 0 <= i < self@.len() && live_of(#[trigger] self@[i], a),
    {
        let mut out: Vec<String> = Vec::new();
        let mut i: usize = 0;
        while i < self.claims.len()
            invariant
                i <= self@.len(),
                forall|x: int, y: int| 0 <= x < y < out@.len() ==> (#[trigger] out@[x])@ != (#[trigger] out@[y])@,
                forall|a: Seq<char>|
                    strs(out@).contains(a) <==> exists|j: int| 0 <= j < i && live_of(#[trigger] self@[j], a),
            decreases self.claims.len() - i,
        {
            let c = &self.claims[i];
            if c.status == ClaimStatus::Active || c.status == ClaimStatus::Provisional {
                let mut seen = false;
                let mut k: usize = 0;
                while k < out.len()
                    invariant
                        k <= out@.len(),
                        seen == exists|x: int| 0 <= x < k && (#[trigger] out@[x])@ == c.agent_id@,
                    decreases out.len() - k,
                {
                    if str_eq(out[k].as_str(), c.agent_id.as_str()) {
                        seen = true;
                    }
                    k = k + 1;
                }
                let ghost before = out@;
                if !seen {
                    out.push(owned(c.agent_id.as_str()));
                }
                proof {
                    assert(self@[i as int] == c@);
                    assert forall|a: Seq<char>|
                        strs(out@).contains(a) <==> exists|j: int| 0 <= j < i + 1 && live_of(#[trigger] self@[j], a) by {
                        if strs(out@).contains(a) {
                            let x = choose|x: int| 0 <= x < strs(out@).len() && strs(out@)[x] == a;
                            if x < before.len() {
                                assert(strs(before)[x] == a);
                                assert(strs(before).contains(a));
                            } else {
                                assert(live_of(self@[i as int], a));
                            }
                        }
                        if exists|j: int| 0 <= j < i + 1 && live_of(#[trigger] self@[j], a) {
                            let j = choose|j: int| 0 <= j < i + 1 && live_of(#[trigger] self@[j], a);
                            if j < i {
                                assert(strs(before).contains(a));
                                let x = choose|x: int| 0 <= x < strs(before).len() && strs(before)[x] == a;
                                assert(strs(out@)[x] == a);
                            } else if seen {
                                let x = choose|x: int| 0 <= x < out@.len() && (#[trigger] out@[x])@ == c.agent_id@;
                                assert(strs(out@)[x] == a);
                            } else {
                                assert(strs(out@)[out@.len() - 1] == a);
                            }
                        }
                    }
                    if !seen {
                        assert forall|x: int, y: int| 0 <= x < y < out@.len() implies (#[trigger] out@[x])@ != (#[trigger] out@[y])@ by {
                            if y == out@.len() - 1 {
                                assert(out@[x] == before[x]);
                            } else {
                                assert(out@[x] == before[x] && out@[y] == before[y]);
                            }
                        }
                    }
                }
            } else {
                proof {
                    assert(self@[i as int] == c@);
                    assert forall|a: Seq<char>|
                        strs(out@).contains(a) <==> exists|j: int| 0 <= j < i + 1 && live_of(#[trigger] self@[j], a) by {
                        if exists|j: int| 0 <= j < i + 1 && live_of(#[trigger] self@[j], a) {
                            let j = choose|j: int| 0 <= j < i + 1 && live_of(#[trigger] self@[j], a);
                            assert(j < i);
                        }
                    }
                }
            }
            i = i + 1;
        }
        out
    }

    pub fn len(&self) -> (r: usize)
        ensures
            r == self@.len(),
    {
        self.claims.len()
    }

    pub fn is_empty(&self) -> (r: bool)
        ensures
            r == (self@.len() == 0),
    {
        self.claims.len() == 0
    }
}

/// A released claim cannot be released again (nor is it live), so releasing
/// the same claim twice succeeds once.
pub proof fn law_release_once(c: ClaimView)
    ensures
        !is_releasable(released(c).status),
        !is_live(released(c).status),
{
}

/// Orphaning and reclaiming only ever move claims forward: an orphaned claim
/// is not live, and a reclaimable one is neither live nor expired again.
pub proof fn law_orphans_are_not_live(c: ClaimView, now_ms: u64, ttl_ms: u64)
    ensures
        !is_live(orphaned(c, now_ms).status),
        !is_releasable(orphaned(c, now_ms).status),
        !is_expired(reclaimable(c), now_ms, ttl_ms),
{
}

} // verus!
