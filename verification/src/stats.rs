//! Session statistics drawn from the event log: counts per kind of event,
//! distinct agents and files, the peak heat, the span of the session, and a
//! tally per agent; and the per-agent profiles kept across sessions.

use vstd::prelude::*;
use crate::cap::strs;
use crate::sets::{sorted_unique, insert_sorted, lemma_sorted_len, key_strs, find_key, upsert_sorted, lemma_sorted_keys_distinct};
use crate::entries::{entry_map, lemma_entry_lookup};
use crate::knowledge::str_key;
use crate::text::{owned, str_eq, str_lt, lex_lt, lemma_lex_total, lemma_lex_transitive, lemma_lex_irreflexive};

verus! {

// ---------------------------------------------------------------------------
// Events as the statistics read them
// ---------------------------------------------------------------------------

/// The fields of one logged event that the statistics read. A field is
/// `None` where the event lacks it or holds another JSON type; a list holds,
/// per element, the string or `None` for an element of another type.
#[derive(Debug, Clone, Default)]
pub struct EventRecord {
    pub kind: Option<String>,
    pub ts: Option<String>,
    pub agent_id: Option<String>,
    pub reason: Option<String>,
    pub previous_owner: Option<String>,
    pub resolution: Option<String>,
    pub files: Option<Vec<Option<String>>>,
    pub heat: Option<u64>,
    pub pair: Option<Vec<Option<String>>>,
    pub agents: Option<Vec<Option<String>>>,
    pub conflict_id: Option<String>,
    pub claim_id: Option<String>,
    pub from: Option<String>,
    /// The `kind` field (a proposal's kind).
    pub proposal_kind: Option<String>,
    pub paths: Option<Vec<Option<String>>>,
}

pub struct EventView {
    pub kind: Option<Seq<char>>,
    pub ts: Option<Seq<char>>,
    pub agent_id: Option<Seq<char>>,
    pub reason: Option<Seq<char>>,
    pub previous_owner: Option<Seq<char>>,
    pub resolution: Option<Seq<char>>,
    pub files: Option<Seq<Option<Seq<char>>>>,
    pub heat: Option<u64>,
    pub pair: Option<Seq<Option<Seq<char>>>>,
    pub agents: Option<Seq<Option<Seq<char>>>>,
    pub conflict_id: Option<Seq<char>>,
    pub claim_id: Option<Seq<char>>,
    pub from: Option<Seq<char>>,
    pub proposal_kind: Option<Seq<char>>,
    pub paths: Option<Seq<Option<Seq<char>>>>,
}

pub open spec fn opt_view(o: Option<String>) -> Option<Seq<char>> {
    match o {
        Some(s) => Some(s@),
        None => None,
    }
}

pub open spec fn list_view(o: Option<Vec<Option<String>>>) -> Option<Seq<Option<Seq<char>>>> {
    match o {
        Some(v) => Some(v@.map_values(|x: Option<String>| opt_view(x))),
        None => None,
    }
}

impl View for EventRecord {
    type V = EventView;

    open spec fn view(&self) -> EventView {
        EventView {
            kind: opt_view(self.kind),
            ts: opt_view(self.ts),
            agent_id: opt_view(self.agent_id),
            reason: opt_view(self.reason),
            previous_owner: opt_view(self.previous_owner),
            resolution: opt_view(self.resolution),
            files: list_view(self.files),
            heat: self.heat,
            pair: list_view(self.pair),
            agents: list_view(self.agents),
            conflict_id: opt_view(self.conflict_id),
            claim_id: opt_view(self.claim_id),
            from: opt_view(self.from),
            proposal_kind: opt_view(self.proposal_kind),
            paths: list_view(self.paths),
        }
    }
}

pub open spec fn events_view(v: Seq<EventRecord>) -> Seq<EventView> {
    v.map_values(|e: EventRecord| e@)
}

/// A text field, or the empty string where it is missing.
pub open spec fn text(o: Option<Seq<char>>) -> Seq<char> {
    match o {
        Some(s) => s,
        None => Seq::empty(),
    }
}

pub open spec fn is_kind(e: EventView, k: Seq<char>) -> bool {
    text(e.kind) == k
}

/// A list of exactly two strings.
pub open spec fn two_of(o: Option<Seq<Option<Seq<char>>>>) -> Option<(Seq<char>, Seq<char>)> {
    match o {
        Some(v) => if v.len() == 2 && v[0] is Some && v[1] is Some {
            Some((v[0]->0, v[1]->0))
        } else {
            None
        },
        None => None,
    }
}

/// The strings of a list, in order, skipping elements of other types.
pub open spec fn strings_of(s: Seq<Option<Seq<char>>>) -> Seq<Seq<char>>
    decreases s.len(),
{
    if s.len() == 0 {
        Seq::empty()
    } else {
        let rest = strings_of(s.drop_last());
        match s.last() {
            Some(x) => rest.push(x),
            None => rest,
        }
    }
}

pub open spec fn strings_in(o: Option<Seq<Option<Seq<char>>>>) -> Seq<Seq<char>> {
    match o {
        Some(v) => strings_of(v),
        None => Seq::empty(),
    }
}

/// The number of events satisfying `p`.
pub open spec fn count_where(ev: Seq<EventView>, p: spec_fn(EventView) -> bool) -> nat
    decreases ev.len(),
{
    if ev.len() == 0 {
        0
    } else {
        count_where(ev.drop_last(), p) + if p(ev.last()) { 1nat } else { 0nat }
    }
}

pub open spec fn count_kind(ev: Seq<EventView>, k: Seq<char>) -> nat {
    count_where(ev, |e: EventView| is_kind(e, k))
}

pub open spec fn is_negotiated(r: Seq<char>) -> bool {
    r == "PARTICIPANT_STEPPED_ASIDE"@ || r == "QUEUED"@ || r == "SCOPE_SPLIT"@ || r == "CO_OWNERSHIP"@
}

/// The ids of agents that joined (non-empty ids), in log order.
pub open spec fn joined(ev: Seq<EventView>) -> Seq<Seq<char>>
    decreases ev.len(),
{
    if ev.len() == 0 {
        Seq::empty()
    } else {
        let e = ev.last();
        let rest = joined(ev.drop_last());
        if is_kind(e, "AGENT_JOINED"@) && text(e.agent_id).len() > 0 {
            rest.push(text(e.agent_id))
        } else {
            rest
        }
    }
}

/// The files named by touch events, in log order.
pub open spec fn touched(ev: Seq<EventView>) -> Seq<Seq<char>>
    decreases ev.len(),
{
    if ev.len() == 0 {
        Seq::empty()
    } else {
        let e = ev.last();
        let rest = touched(ev.drop_last());
        if is_kind(e, "FILE_TOUCHED"@) {
            rest + strings_in(e.files)
        } else {
            rest
        }
    }
}

/// Milliseconds since the epoch of an RFC 3339 timestamp, as chrono reads
/// it (`DateTime::parse_from_rfc3339` then `timestamp_millis`); `None` if it
/// does not parse.
pub uninterp spec fn rfc3339_millis(s: Seq<char>) -> Option<i64>;

/// The bound on what a parsed timestamp can be: chrono reads a four-digit
/// year and an offset under a day, so every parsed instant lies within years
/// 0 to 9999.
pub open spec fn timestamp_bound() -> int {
    300_000_000_000_000
}

/// `chrono::DateTime::parse_from_rfc3339(ts)` then `timestamp_millis()`.
/// The result is named; of it only the bound that the four-digit year gives
/// is stated.
#[verifier::external_body]
pub(crate) fn parse_ms(ts: &str) -> (r: Option<i64>)
    ensures
        r == rfc3339_millis(ts@),
        r matches Some(m) ==> -timestamp_bound() <= m <= timestamp_bound(),
{
    chrono::DateTime::parse_from_rfc3339(ts).ok().map(|dt| dt.timestamp_millis())
}

/// The earliest and latest parsed timestamps, if any parsed.
pub open spec fn ts_span(ev: Seq<EventView>) -> Option<(i64, i64)>
    decreases ev.len(),
{
    if ev.len() == 0 {
        None
    } else {
        let rest = ts_span(ev.drop_last());
        let parsed = match ev.last().ts {
            Some(t) => rfc3339_millis(t),
            None => None,
        };
        match parsed {
            None => rest,
            Some(m) => match rest {
                None => Some((m, m)),
                Some((f, l)) => Some((if m < f { m } else { f }, if m > l { m } else { l })),
            },
        }
    }
}

/// The time from the earliest to the latest parsed timestamp, 0 if none.
pub open spec fn duration_of(ev: Seq<EventView>) -> int {
    match ts_span(ev) {
        Some((f, l)) => l - f,
        None => 0,
    }
}

/// The highest heat reported between a pair of agents: its heat, pair and
/// timestamp. Of equal heats the earliest is kept; heat 0 is never a peak.
pub struct PeakView {
    pub heat: u64,
    pub pair: Seq<Seq<char>>,
    pub ts: Seq<char>,
}

pub open spec fn heat_of(e: EventView) -> u64 {
    match e.heat {
        Some(h) => h,
        None => 0,
    }
}

/// A heat report between a well-formed pair.
pub open spec fn is_pair_heat(e: EventView) -> bool {
    is_kind(e, "HEAT_UPDATED"@) && two_of(e.pair) is Some
}

pub open spec fn peak_of(ev: Seq<EventView>) -> PeakView
    decreases ev.len(),
{
    if ev.len() == 0 {
        PeakView { heat: 0, pair: Seq::empty(), ts: Seq::empty() }
    } else {
        let p = peak_of(ev.drop_last());
        let e = ev.last();
        if is_pair_heat(e) && heat_of(e) > p.heat {
            let (a, b) = two_of(e.pair)->0;
            PeakView { heat: heat_of(e), pair: seq![a, b], ts: text(e.ts) }
        } else {
            p
        }
    }
}

// ---------------------------------------------------------------------------
// Per-agent tallies
// ---------------------------------------------------------------------------

/// One count an event adds to an agent's tally.
#[derive(Debug, Clone, Copy, PartialEq, Eq)]
pub enum Bump {
    ClaimMade,
    TaskCompleted,
    GhostClaim,
    Heat(u64),
    Conflict,
    Arbitration,
    Deadlock,
}

/// What an event adds to the tallies, agent by agent: a claim made or a
/// task completed by its agent, a ghost claim to the previous owner of an
/// orphaned claim, the heat to both agents of a heat report, a conflict or
/// an arbitration to both agents named, a deadlock to every agent named.
pub open spec fn bumps_of(e: EventView) -> Seq<(Seq<char>, Bump)> {
    if is_kind(e, "CLAIM_CREATED"@) {
        seq![(text(e.agent_id), Bump::ClaimMade)]
    } else if is_kind(e, "CLAIM_RELEASED"@) && text(e.reason) == "TASK_COMPLETED"@ {
        seq![(text(e.agent_id), Bump::TaskCompleted)]
    } else if is_kind(e, "CLAIM_ORPHANED"@) && text(e.previous_owner).len() > 0 {
        seq![(text(e.previous_owner), Bump::GhostClaim)]
    } else if is_pair_heat(e) {
        let p = two_of(e.pair).unwrap();
        seq![(p.0, Bump::Heat(heat_of(e))), (p.1, Bump::Heat(heat_of(e)))]
    } else if is_kind(e, "CONFLICT_OPENED"@) && two_of(e.agents) is Some {
        let p = two_of(e.agents).unwrap();
        seq![(p.0, Bump::Conflict), (p.1, Bump::Conflict)]
    } else if is_kind(e, "USER_ARBITRATION_REQUIRED"@) && two_of(e.agents) is Some {
        let p = two_of(e.agents).unwrap();
        seq![(p.0, Bump::Arbitration), (p.1, Bump::Arbitration)]
    } else if is_kind(e, "DEADLOCK_DETECTED"@) {
        strings_in(e.agents).map_values(|x: Seq<char>| (x, Bump::Deadlock))
    } else {
        Seq::empty()
    }
}

/// Everything the events add to the tallies, in log order.
pub open spec fn all_bumps(ev: Seq<EventView>) -> Seq<(Seq<char>, Bump)>
    decreases ev.len(),
{
    if ev.len() == 0 {
        Seq::empty()
    } else {
        all_bumps(ev.drop_last()) + bumps_of(ev.last())
    }
}

/// An agent's tally as numbers.
pub struct TallyCounts {
    pub claims_made: nat,
    pub tasks_completed: nat,
    pub ghost_claims: nat,
    pub conflicts_involved: nat,
    pub heat_generated_sum: nat,
    pub heat_generated_count: nat,
    pub arbitrations_involved: nat,
    pub deadlocks_involved: nat,
}

pub open spec fn zero_tally() -> TallyCounts {
    TallyCounts {
        claims_made: 0,
        tasks_completed: 0,
        ghost_claims: 0,
        conflicts_involved: 0,
        heat_generated_sum: 0,
        heat_generated_count: 0,
        arbitrations_involved: 0,
        deadlocks_involved: 0,
    }
}

pub open spec fn bumped(t: TallyCounts, b: Bump) -> TallyCounts {
    match b {
        Bump::ClaimMade => TallyCounts { claims_made: t.claims_made + 1, ..t },
        Bump::TaskCompleted => TallyCounts { tasks_completed: t.tasks_completed + 1, ..t },
        Bump::GhostClaim => TallyCounts { ghost_claims: t.ghost_claims + 1, ..t },
        Bump::Heat(h) => TallyCounts {
            heat_generated_sum: t.heat_generated_sum + (h as nat),
            heat_generated_count: t.heat_generated_count + 1,
            ..t
        },
        Bump::Conflict => TallyCounts { conflicts_involved: t.conflicts_involved + 1, ..t },
        Bump::Arbitration => TallyCounts { arbitrations_involved: t.arbitrations_involved + 1, ..t },
        Bump::Deadlock => TallyCounts { deadlocks_involved: t.deadlocks_involved + 1, ..t },
    }
}

/// The tally of agent `id` after the bumps `bs`.
pub open spec fn tally_of(bs: Seq<(Seq<char>, Bump)>, id: Seq<char>) -> TallyCounts
    decreases bs.len(),
{
    if bs.len() == 0 {
        zero_tally()
    } else {
        let t = tally_of(bs.drop_last(), id);
        if bs.last().0 == id {
            bumped(t, bs.last().1)
        } else {
            t
        }
    }
}

pub open spec fn has_bumps(bs: Seq<(Seq<char>, Bump)>, id: Seq<char>) -> bool {
    exists|j: int| 0 <= j < bs.len() && (#[trigger] bs[j]).0 == id
}

/// The tallies of the agents that the bumps name.
pub open spec fn tallies(bs: Seq<(Seq<char>, Bump)>) -> Map<Seq<char>, TallyCounts> {
    Map::new(|id: Seq<char>| has_bumps(bs, id), |id: Seq<char>| tally_of(bs, id))
}

/// Every count fits in 64 bits.
pub open spec fn tally_fits(t: TallyCounts) -> bool {
    &&& t.claims_made <= u64::MAX
    &&& t.tasks_completed <= u64::MAX
    &&& t.ghost_claims <= u64::MAX
    &&& t.conflicts_involved <= u64::MAX
    &&& t.heat_generated_sum <= u64::MAX
    &&& t.heat_generated_count <= u64::MAX
    &&& t.arbitrations_involved <= u64::MAX
    &&& t.deadlocks_involved <= u64::MAX
}

/// Fieldwise `a <= b`.
pub open spec fn tally_le(a: TallyCounts, b: TallyCounts) -> bool {
    &&& a.claims_made <= b.claims_made
    &&& a.tasks_completed <= b.tasks_completed
    &&& a.ghost_claims <= b.ghost_claims
    &&& a.conflicts_involved <= b.conflicts_involved
    &&& a.heat_generated_sum <= b.heat_generated_sum
    &&& a.heat_generated_count <= b.heat_generated_count
    &&& a.arbitrations_involved <= b.arbitrations_involved
    &&& a.deadlocks_involved <= b.deadlocks_involved
}

proof fn lemma_tally_prefix(bs: Seq<(Seq<char>, Bump)>, n: int, id: Seq<char>)
    requires
        0 <= n <= bs.len(),
    ensures
        tally_le(tally_of(bs.subrange(0, n), id), tally_of(bs, id)),
    decreases bs.len() - n,
{
    if n < bs.len() {
        let p = bs.subrange(0, n + 1);
        assert(p.drop_last() =~= bs.subrange(0, n));
        lemma_tally_prefix(bs, n + 1, id);
    } else {
        assert(bs.subrange(0, n) =~= bs);
    }
}

proof fn lemma_tally_absent(bs: Seq<(Seq<char>, Bump)>, id: Seq<char>)
    requires
        !has_bumps(bs, id),
    ensures
        tally_of(bs, id) == zero_tally(),
    decreases bs.len(),
{
    if bs.len() > 0 {
        assert(!has_bumps(bs.drop_last(), id)) by {
            if has_bumps(bs.drop_last(), id) {
                let j = choose|j: int| 0 <= j < bs.drop_last().len() && (#[trigger] bs.drop_last()[j]).0 == id;
                assert(bs[j] == bs.drop_last()[j]);
            }
        }
        assert(bs[bs.len() - 1].0 != id);
        lemma_tally_absent(bs.drop_last(), id);
    }
}

/// The bumps of the first `n` events come first among all the bumps.
proof fn lemma_bumps_prefix(ev: Seq<EventView>, n: int)
    requires
        0 <= n <= ev.len(),
    ensures
        all_bumps(ev.subrange(0, n)).len() <= all_bumps(ev).len(),
        all_bumps(ev).subrange(0, all_bumps(ev.subrange(0, n)).len() as int) == all_bumps(ev.subrange(0, n)),
    decreases ev.len() - n,
{
    if n < ev.len() {
        let p = ev.subrange(0, n + 1);
        assert(p.drop_last() =~= ev.subrange(0, n));
        lemma_bumps_prefix(ev, n + 1);
        let a = all_bumps(ev.subrange(0, n));
        let b = all_bumps(p);
        assert(b == a + bumps_of(p.last()));
        assert(b.subrange(0, a.len() as int) =~= a);
        assert(all_bumps(ev).subrange(0, a.len() as int) =~= all_bumps(ev).subrange(0, b.len() as int).subrange(0, a.len() as int));
    } else {
        assert(ev.subrange(0, n) =~= ev);
        assert(all_bumps(ev).subrange(0, all_bumps(ev).len() as int) =~= all_bumps(ev));
    }
}

#[derive(Debug, Clone, Copy, PartialEq, Eq, Default)]
pub struct AgentTally {
    pub claims_made: u64,
    pub tasks_completed: u64,
    pub ghost_claims: u64,
    pub conflicts_involved: u64,
    pub heat_generated_sum: u64,
    pub heat_generated_count: u64,
    pub arbitrations_involved: u64,
    pub deadlocks_involved: u64,
}

impl View for AgentTally {
    type V = TallyCounts;

    open spec fn view(&self) -> TallyCounts {
        TallyCounts {
            claims_made: self.claims_made as nat,
            tasks_completed: self.tasks_completed as nat,
            ghost_claims: self.ghost_claims as nat,
            conflicts_involved: self.conflicts_involved as nat,
            heat_generated_sum: self.heat_generated_sum as nat,
            heat_generated_count: self.heat_generated_count as nat,
            arbitrations_involved: self.arbitrations_involved as nat,
            deadlocks_involved: self.deadlocks_involved as nat,
        }
    }
}

fn zero_counts() -> (r: AgentTally)
    ensures
        r@ == zero_tally(),
{
    AgentTally {
        claims_made: 0,
        tasks_completed: 0,
        ghost_claims: 0,
        conflicts_involved: 0,
        heat_generated_sum: 0,
        heat_generated_count: 0,
        arbitrations_involved: 0,
        deadlocks_involved: 0,
    }
}

fn apply_bump(t: AgentTally, b: Bump) -> (r: AgentTally)
    requires
        tally_fits(bumped(t@, b)),
    ensures
        r@ == bumped(t@, b),
{
    match b {
        Bump::ClaimMade => AgentTally { claims_made: t.claims_made + 1, ..t },
        Bump::TaskCompleted => AgentTally { tasks_completed: t.tasks_completed + 1, ..t },
        Bump::GhostClaim => AgentTally { ghost_claims: t.ghost_claims + 1, ..t },
        Bump::Heat(h) => AgentTally {
            heat_generated_sum: t.heat_generated_sum + h,
            heat_generated_count: t.heat_generated_count + 1,
            ..t
        },
        Bump::Conflict => AgentTally { conflicts_involved: t.conflicts_involved + 1, ..t },
        Bump::Arbitration => AgentTally { arbitrations_involved: t.arbitrations_involved + 1, ..t },
        Bump::Deadlock => AgentTally { deadlocks_involved: t.deadlocks_involved + 1, ..t },
    }
}

pub open spec fn tally_keys(v: Seq<(String, AgentTally)>) -> Seq<Seq<char>> {
    v.map_values(|e: (String, AgentTally)| e.0@)
}

/// The position of agent `id` among the entries.
pub open spec fn tally_index(v: Seq<(String, AgentTally)>, id: Seq<char>) -> int {
    choose|i: int| 0 <= i < v.len() && (#[trigger] v[i]).0@ == id
}

/// The tallies a list of `(agent, tally)` entries stands for.
pub open spec fn tally_map(v: Seq<(String, AgentTally)>) -> Map<Seq<char>, TallyCounts> {
    Map::new(|id: Seq<char>| tally_keys(v).contains(id), |id: Seq<char>| v[tally_index(v, id)].1@)
}

proof fn lemma_tally_map_at(v: Seq<(String, AgentTally)>, i: int)
    requires
        sorted_unique(tally_keys(v)),
        0 <= i < v.len(),
    ensures
        tally_map(v).dom().contains(v[i].0@),
        tally_map(v)[v[i].0@] == v[i].1@,
{
    let id = v[i].0@;
    assert(tally_keys(v)[i] == id);
    assert(v[i].0@ == id);
    assert(tally_keys(v).contains(id));
    assert(tally_map(v).dom().contains(id));
    let j = tally_index(v, id);
    assert(tally_map(v)[id] == v[j].1@);
    if j != i {
        assert(tally_keys(v)[j] == id);
        if j < i {
            assert(lex_lt(tally_keys(v)[j], tally_keys(v)[i]));
        } else {
            assert(lex_lt(tally_keys(v)[i], tally_keys(v)[j]));
        }
        lemma_lex_irreflexive(id);
    }
}

/// Adds bump `b` to the tally of `id`, adding the agent (in string order)
/// if it has no entry yet.
fn bump_entry(v: &mut Vec<(String, AgentTally)>, id: &str, b: Bump)
    requires
        sorted_unique(tally_keys(old(v)@)),
        tally_fits(bumped(
            if tally_map(old(v)@).dom().contains(id@) { tally_map(old(v)@)[id@] } else { zero_tally() },
            b,
        )),
    ensures
        sorted_unique(tally_keys(final(v)@)),
        tally_map(final(v)@) == tally_map(old(v)@).insert(
            id@,
            bumped(if tally_map(old(v)@).dom().contains(id@) { tally_map(old(v)@)[id@] } else { zero_tally() }, b),
        ),
{
    let ghost s = v@;
    let ghost ks = tally_keys(s);
    let mut i: usize = 0;
    while i < v.len() && str_lt(v[i].0.as_str(), id)
        invariant
            s == v@,
            ks == tally_keys(s),
            i <= s.len(),
            forall|j: int| 0 <= j < i ==> lex_lt(#[trigger] ks[j], id@),
        decreases v.len() - i,
    {
        assert(ks[i as int] == v@[i as int].0@);
        i = i + 1;
    }
    let ghost m = tally_map(s);
    if i < v.len() && str_eq(v[i].0.as_str(), id) {
        proof {
            lemma_tally_map_at(s, i as int);
        }
        let (k, t) = v.remove(i);
        let nt = apply_bump(t, b);
        v.insert(i, (k, nt));
        proof {
            let s2 = v@;
            assert(s2 =~= s.update(i as int, (k, nt)));
            assert(tally_keys(s2) =~= ks);
            assert forall|x: Seq<char>| #[trigger] tally_map(s2).dom().contains(x) <==> m.insert(id@, nt@).dom().contains(x) by {
                assert(tally_keys(s2) == ks);
                if x == id@ {
                    assert(ks[i as int] == id@);
                }
            }
            assert forall|x: Seq<char>| #[trigger] tally_map(s2).dom().contains(x) implies tally_map(s2)[x] == m.insert(id@, nt@)[x] by {
                let j = choose|j: int| 0 <= j < s2.len() && tally_keys(s2)[j] == x;
                lemma_tally_map_at(s2, j);
                if j != i {
                    assert(s2[j] == s[j]);
                    lemma_tally_map_at(s, j);
                    assert(ks[j] != id@) by {
                        assert(ks[i as int] == id@);
                        if j < i {
                            assert(lex_lt(ks[j], ks[i as int]));
                        } else {
                            assert(lex_lt(ks[i as int], ks[j]));
                        }
                        lemma_lex_irreflexive(id@);
                    }
                } else {
                    assert(s2[j].1 == nt);
                    assert(ks[i as int] == id@);
                }
            }
            assert(tally_map(s2) =~= m.insert(id@, nt@));
        }
    } else {
        proof {
            if i < s.len() {
                lemma_lex_total(ks[i as int], id@);
                assert(ks[i as int] == s[i as int].0@);
                assert forall|j: int| i <= j < ks.len() implies lex_lt(id@, #[trigger] ks[j]) by {
                    if j > i {
                        lemma_lex_transitive(id@, ks[i as int], ks[j]);
                    }
                }
            }
            assert(!m.dom().contains(id@)) by {
                if ks.contains(id@) {
                    let j = choose|j: int| 0 <= j < ks.len() && ks[j] == id@;
                    if j < i {
                        lemma_lex_irreflexive(id@);
                    } else {
                        lemma_lex_irreflexive(id@);
                    }
                }
            }
        }
        let nt = apply_bump(zero_counts(), b);
        v.insert(i, (owned(id), nt));
        proof {
            let s2 = v@;
            let k2 = tally_keys(s2);
            assert(k2 =~= ks.insert(i as int, id@));
            assert forall|a: int, c: int| 0 <= a < c < k2.len() implies lex_lt(#[trigger] k2[a], #[trigger] k2[c]) by {
                if c < i {
                } else if c == i {
                } else if a < i {
                    lemma_lex_transitive(ks[a], id@, ks[c - 1]);
                } else if a == i {
                } else {
                }
            }
            assert forall|x: Seq<char>| #[trigger] tally_map(s2).dom().contains(x) <==> m.insert(id@, nt@).dom().contains(x) by {
                if k2.contains(x) {
                    let j = choose|j: int| 0 <= j < k2.len() && k2[j] == x;
                    if j < i {
                        assert(ks[j] == x);
                    } else if j > i {
                        assert(ks[j - 1] == x);
                    }
                }
                if ks.contains(x) {
                    let j = choose|j: int| 0 <= j < ks.len() && ks[j] == x;
                    if j < i {
                        assert(k2[j] == x);
                    } else {
                        assert(k2[j + 1] == x);
                    }
                }
                if x == id@ {
                    assert(k2[i as int] == x);
                }
            }
            assert forall|x: Seq<char>| #[trigger] tally_map(s2).dom().contains(x) implies tally_map(s2)[x] == m.insert(id@, nt@)[x] by {
                let j = choose|j: int| 0 <= j < s2.len() && k2[j] == x;
                lemma_tally_map_at(s2, j);
                if j < i {
                    assert(s2[j] == s[j]);
                    lemma_tally_map_at(s, j);
                } else if j > i {
                    assert(s2[j] == s[j - 1]);
                    lemma_tally_map_at(s, j - 1);
                }
            }
            assert(tally_map(s2) =~= m.insert(id@, nt@));
        }
    }
}

proof fn lemma_tallies_push(bs: Seq<(Seq<char>, Bump)>, id: Seq<char>, b: Bump)
    ensures
        tallies(bs.push((id, b))) == tallies(bs).insert(
            id,
            bumped(if has_bumps(bs, id) { tally_of(bs, id) } else { zero_tally() }, b),
        ),
{
    let t = bs.push((id, b));
    assert(t.drop_last() =~= bs);
    if !has_bumps(bs, id) {
        lemma_tally_absent(bs, id);
    }
    let m = tallies(t);
    let n = tallies(bs).insert(id, bumped(if has_bumps(bs, id) { tally_of(bs, id) } else { zero_tally() }, b));
    assert forall|x: Seq<char>| #[trigger] m.dom().contains(x) <==> n.dom().contains(x) by {
        if has_bumps(t, x) {
            let j = choose|j: int| 0 <= j < t.len() && (#[trigger] t[j]).0 == x;
            if j < bs.len() {
                assert(bs[j] == t[j]);
            }
        }
        if has_bumps(bs, x) {
            let j = choose|j: int| 0 <= j < bs.len() && (#[trigger] bs[j]).0 == x;
            assert(t[j] == bs[j]);
        }
        if x == id {
            assert(t[bs.len() as int].0 == x);
        }
    }
    assert(m =~= n);
}

pub open spec fn bump_views(v: Seq<(String, Bump)>) -> Seq<(Seq<char>, Bump)> {
    v.map_values(|x: (String, Bump)| (x.0@, x.1))
}

/// The text of an optional field, empty where missing.
pub fn text_of(o: &Option<String>) -> (r: String)
    ensures
        r@ == text(opt_view(*o)),
{
    match o {
        Some(s) => owned(s.as_str()),
        None => String::new(),
    }
}

/// Whether an optional field's text is `k`.
pub fn text_is(o: &Option<String>, k: &str) -> (r: bool)
    ensures
        r == (text(opt_view(*o)) == k@),
{
    match o {
        Some(s) => str_eq(s.as_str(), k),
        None => {
            let e = k.is_empty();
            proof {
                if e {
                    assert(k@ =~= Seq::<char>::empty());
                }
            }
            e
        },
    }
}

/// The two strings of a list of exactly two strings.
pub fn two_strings(o: &Option<Vec<Option<String>>>) -> (r: Option<(String, String)>)
    ensures
        match r {
            Some(p) => two_of(list_view(*o)) == Some((p.0@, p.1@)),
            None => two_of(list_view(*o)) is None,
        },
{
    match o {
        Some(v) => {
            if v.len() == 2 {
                match (&v[0], &v[1]) {
                    (Some(a), Some(b)) => Some((owned(a.as_str()), owned(b.as_str()))),
                    _ => None,
                }
            } else {
                None
            }
        },
        None => None,
    }
}

/// The strings of an optional list, skipping other elements.
pub fn strings_list(o: &Option<Vec<Option<String>>>) -> (r: Vec<String>)
    ensures
        strs(r@) == strings_in(list_view(*o)),
{
    let mut r: Vec<String> = Vec::new();
    match o {
        Some(v) => {
            let ghost sv = v@.map_values(|x: Option<String>| opt_view(x));
            let mut i: usize = 0;
            while i < v.len()
                invariant
                    sv == v@.map_values(|x: Option<String>| opt_view(x)),
                    i <= v@.len(),
                    strs(r@) == strings_of(sv.subrange(0, i as int)),
                decreases v.len() - i,
            {
                let ghost before = strs(r@);
                proof {
                    let p = sv.subrange(0, i + 1);
                    assert(p.drop_last() =~= sv.subrange(0, i as int));
                    assert(p.last() == opt_view(v@[i as int]));
                }
                match &v[i] {
                    Some(x) => {
                        r.push(owned(x.as_str()));
                        assert(strs(r@) =~= before.push(x@));
                    },
                    None => {},
                }
                i = i + 1;
            }
            assert(sv.subrange(0, v@.len() as int) =~= sv);
        },
        None => {
            assert(strs(r@) =~= Seq::<Seq<char>>::empty());
        },
    }
    r
}

/// What the event adds to the tallies.
fn event_bumps(e: &EventRecord) -> (r: Vec<(String, Bump)>)
    ensures
        bump_views(r@) == bumps_of(e@),
{
    let mut r: Vec<(String, Bump)> = Vec::new();
    let ghost ev = e@;
    if text_is(&e.kind, "CLAIM_CREATED") {
        r.push((text_of(&e.agent_id), Bump::ClaimMade));
        assert(bump_views(r@) =~= bumps_of(ev));
        return r;
    }
    if text_is(&e.kind, "CLAIM_RELEASED") && text_is(&e.reason, "TASK_COMPLETED") {
        r.push((text_of(&e.agent_id), Bump::TaskCompleted));
        assert(bump_views(r@) =~= bumps_of(ev));
        return r;
    }
    if text_is(&e.kind, "CLAIM_ORPHANED") {
        let owner = text_of(&e.previous_owner);
        if !owner.as_str().is_empty() {
            r.push((owner, Bump::GhostClaim));
            assert(bump_views(r@) =~= bumps_of(ev));
            return r;
        }
    }
    if text_is(&e.kind, "HEAT_UPDATED") {
        match two_strings(&e.pair) {
            Some((a, b)) => {
                let h = match e.heat {
                    Some(h) => h,
                    None => 0,
                };
                r.push((a, Bump::Heat(h)));
                r.push((b, Bump::Heat(h)));
                assert(bump_views(r@) =~= bumps_of(ev));
                return r;
            },
            None => {},
        }
    }
    if text_is(&e.kind, "CONFLICT_OPENED") {
        match two_strings(&e.agents) {
            Some((a, b)) => {
                r.push((a, Bump::Conflict));
                r.push((b, Bump::Conflict));
                assert(bump_views(r@) =~= bumps_of(ev));
                return r;
            },
            None => {},
        }
    }
    if text_is(&e.kind, "USER_ARBITRATION_REQUIRED") {
        match two_strings(&e.agents) {
            Some((a, b)) => {
                r.push((a, Bump::Arbitration));
                r.push((b, Bump::Arbitration));
                assert(bump_views(r@) =~= bumps_of(ev));
                return r;
            },
            None => {},
        }
    }
    if text_is(&e.kind, "DEADLOCK_DETECTED") {
        let names = strings_list(&e.agents);
        let mut i: usize = 0;
        while i < names.len()
            invariant
                i <= names@.len(),
                bump_views(r@) == strs(names@).subrange(0, i as int).map_values(|x: Seq<char>| (x, Bump::Deadlock)),
            decreases names.len() - i,
        {
            let ghost before = bump_views(r@);
            r.push((owned(names[i].as_str()), Bump::Deadlock));
            assert(bump_views(r@) =~= before.push((names@[i as int]@, Bump::Deadlock)));
            assert(bump_views(r@) =~= strs(names@).subrange(0, i + 1).map_values(|x: Seq<char>| (x, Bump::Deadlock)));
            i = i + 1;
        }
        assert(strs(names@).subrange(0, names@.len() as int) =~= strs(names@));
        assert(bump_views(r@) =~= bumps_of(ev));
        return r;
    }
    assert(bump_views(r@) =~= bumps_of(ev));
    r
}

/// The tallies of every agent the events name, in string order of agent.
fn agent_tallies(events: &Vec<EventRecord>) -> (r: Vec<(String, AgentTally)>)
    requires
        forall|id: Seq<char>| tally_fits(#[trigger] tally_of(all_bumps(events_view(events@)), id)),
    ensures
        sorted_unique(tally_keys(r@)),
        tally_map(r@) == tallies(all_bumps(events_view(events@))),
{
    let ghost ev = events_view(events@);
    let mut out: Vec<(String, AgentTally)> = Vec::new();
    proof {
        assert(all_bumps(ev.subrange(0, 0)) =~= Seq::<(Seq<char>, Bump)>::empty());
        assert(tally_map(out@) =~= tallies(all_bumps(ev.subrange(0, 0))));
    }
    let mut i: usize = 0;
    while i < events.len()
        invariant
            ev == events_view(events@),
            forall|id: Seq<char>| tally_fits(#[trigger] tally_of(all_bumps(ev), id)),
            i <= ev.len(),
            sorted_unique(tally_keys(out@)),
            tally_map(out@) == tallies(all_bumps(ev.subrange(0, i as int))),
        decreases events.len() - i,
    {
        let bs = event_bumps(&events[i]);
        let ghost done = all_bumps(ev.subrange(0, i as int));
        let ghost bv = bump_views(bs@);
        proof {
            let p = ev.subrange(0, i + 1);
            assert(p.drop_last() =~= ev.subrange(0, i as int));
            assert(p.last() == events@[i as int]@);
            assert(all_bumps(p) == done + bv);
            lemma_bumps_prefix(ev, i + 1);
            assert(done + bv.subrange(0, 0) =~= done);
        }
        let mut k: usize = 0;
        while k < bs.len()
            invariant
                ev == events_view(events@),
                forall|id: Seq<char>| tally_fits(#[trigger] tally_of(all_bumps(ev), id)),
                i < ev.len(),
                bv == bump_views(bs@),
                done == all_bumps(ev.subrange(0, i as int)),
                all_bumps(ev.subrange(0, i + 1)) == done + bv,
                all_bumps(ev.subrange(0, i + 1)).len() <= all_bumps(ev).len(),
                all_bumps(ev).subrange(0, all_bumps(ev.subrange(0, i + 1)).len() as int) == all_bumps(ev.subrange(0, i + 1)),
                k <= bs@.len(),
                sorted_unique(tally_keys(out@)),
                tally_map(out@) == tallies(done + bv.subrange(0, k as int)),
            decreases bs.len() - k,
        {
            let ghost cur = done + bv.subrange(0, k as int);
            let ghost next = done + bv.subrange(0, k + 1);
            let ghost id = bs@[k as int].0@;
            let ghost b = bs@[k as int].1;
            proof {
                assert(next =~= cur.push((id, b)));
                lemma_tallies_push(cur, id, b);
                let all = all_bumps(ev);
                let whole = all_bumps(ev.subrange(0, i + 1));
                assert(whole.subrange(0, next.len() as int) =~= next);
                assert(all.subrange(0, next.len() as int) =~= next);
                lemma_tally_prefix(all, next.len() as int, id);
                assert(tally_fits(tally_of(all, id)));
                assert(next.drop_last() =~= cur);
                if !has_bumps(cur, id) {
                    lemma_tally_absent(cur, id);
                }
            }
            bump_entry(&mut out, bs[k].0.as_str(), bs[k].1);
            k = k + 1;
        }
        proof {
            assert(bv.subrange(0, bs@.len() as int) =~= bv);
        }
        i = i + 1;
    }
    proof {
        assert(ev.subrange(0, ev.len() as int) =~= ev);
    }
    out
}

// ---------------------------------------------------------------------------
// Session statistics
// ---------------------------------------------------------------------------

/// The resolutions counted together.
#[derive(Debug, Clone, Copy, PartialEq, Eq)]
pub enum ResolutionGroup {
    HeatDropped,
    UserArbitrated,
    Negotiated,
}

pub open spec fn in_group(g: ResolutionGroup, r: Seq<char>) -> bool {
    match g {
        ResolutionGroup::HeatDropped => r == "AUTO_RESOLVED_HEAT_DROPPED"@,
        ResolutionGroup::UserArbitrated => r == "USER_ARBITRATED"@,
        ResolutionGroup::Negotiated => is_negotiated(r),
    }
}

pub open spec fn count_group(ev: Seq<EventView>, g: ResolutionGroup) -> nat {
    count_where(ev, |e: EventView| is_kind(e, "CONFLICT_RESOLVED"@) && in_group(g, text(e.resolution)))
}

proof fn lemma_count_le(ev: Seq<EventView>, p: spec_fn(EventView) -> bool)
    ensures
        count_where(ev, p) <= ev.len(),
    decreases ev.len(),
{
    if ev.len() > 0 {
        lemma_count_le(ev.drop_last(), p);
    }
}

/// The number of events of kind `k`.
fn count_kind_of(events: &Vec<EventRecord>, k: &str) -> (r: u64)
    ensures
        r == count_kind(events_view(events@), k@),
{
    let ghost ev = events_view(events@);
    let ghost p = |e: EventView| is_kind(e, k@);
    let mut c: u64 = 0;
    let mut i: usize = 0;
    while i < events.len()
        invariant
            ev == events_view(events@),
            p == (|e: EventView| is_kind(e, k@)),
            i <= ev.len(),
            c == count_where(ev.subrange(0, i as int), p),
        decreases events.len() - i,
    {
        proof {
            let q = ev.subrange(0, i + 1);
            assert(q.drop_last() =~= ev.subrange(0, i as int));
            assert(q.last() == events@[i as int]@);
            lemma_count_le(ev.subrange(0, i as int), p);
        }
        if text_is(&events[i].kind, k) {
            c = c + 1;
        }
        i = i + 1;
    }
    assert(ev.subrange(0, ev.len() as int) =~= ev);
    c
}

fn group_matches(g: ResolutionGroup, r: &Option<String>) -> (b: bool)
    ensures
        b == in_group(g, text(opt_view(*r))),
{
    match g {
        ResolutionGroup::HeatDropped => text_is(r, "AUTO_RESOLVED_HEAT_DROPPED"),
        ResolutionGroup::UserArbitrated => text_is(r, "USER_ARBITRATED"),
        ResolutionGroup::Negotiated => text_is(r, "PARTICIPANT_STEPPED_ASIDE") || text_is(r, "QUEUED") || text_is(
            r,
            "SCOPE_SPLIT",
        ) || text_is(r, "CO_OWNERSHIP"),
    }
}

/// The number of conflicts resolved in one of the ways of group `g`.
fn count_group_of(events: &Vec<EventRecord>, g: ResolutionGroup) -> (r: u64)
    ensures
        r == count_group(events_view(events@), g),
{
    let ghost ev = events_view(events@);
    let ghost p = |e: EventView| is_kind(e, "CONFLICT_RESOLVED"@) && in_group(g, text(e.resolution));
    let mut c: u64 = 0;
    let mut i: usize = 0;
    while i < events.len()
        invariant
            ev == events_view(events@),
            p == (|e: EventView| is_kind(e, "CONFLICT_RESOLVED"@) && in_group(g, text(e.resolution))),
            i <= ev.len(),
            c == count_where(ev.subrange(0, i as int), p),
        decreases events.len() - i,
    {
        proof {
            let q = ev.subrange(0, i + 1);
            assert(q.drop_last() =~= ev.subrange(0, i as int));
            assert(q.last() == events@[i as int]@);
            lemma_count_le(ev.subrange(0, i as int), p);
        }
        if text_is(&events[i].kind, "CONFLICT_RESOLVED") && group_matches(g, &events[i].resolution) {
            c = c + 1;
        }
        i = i + 1;
    }
    assert(ev.subrange(0, ev.len() as int) =~= ev);
    c
}

/// How many distinct agents joined.
fn count_joined(events: &Vec<EventRecord>) -> (r: u64)
    ensures
        r == joined(events_view(events@)).to_set().len(),
{
    let ghost ev = events_view(events@);
    let mut set: Vec<String> = Vec::new();
    let mut i: usize = 0;
    while i < events.len()
        invariant
            ev == events_view(events@),
            i <= ev.len(),
            sorted_unique(strs(set@)),
            set@.len() <= i,
            forall|t: Seq<char>| strs(set@).contains(t) <==> joined(ev.subrange(0, i as int)).contains(t),
        decreases events.len() - i,
    {
        let ghost before = joined(ev.subrange(0, i as int));
        proof {
            let q = ev.subrange(0, i + 1);
            assert(q.drop_last() =~= ev.subrange(0, i as int));
            assert(q.last() == events@[i as int]@);
        }
        if text_is(&events[i].kind, "AGENT_JOINED") {
            let id = text_of(&events[i].agent_id);
            if !id.as_str().is_empty() {
                let ghost x = id@;
                let ghost old_set = strs(set@);
                insert_sorted(&mut set, id);
                proof {
                    let now = joined(ev.subrange(0, i + 1));
                    assert(now == before.push(x));
                    assert forall|t: Seq<char>| strs(set@).contains(t) <==> now.contains(t) by {
                        if now.contains(t) {
                            let k = choose|k: int| 0 <= k < now.len() && now[k] == t;
                            if k < before.len() {
                                assert(before[k] == t);
                            }
                        }
                        if before.contains(t) {
                            let k = choose|k: int| 0 <= k < before.len() && before[k] == t;
                            assert(now[k] == t);
                        }
                        if t == x {
                            assert(now[before.len() as int] == t);
                        }
                    }
                    if strs(set@).len() > old_set.len() + 1 {
                        assert(false) by {
                            lemma_sorted_len(strs(set@));
                            lemma_sorted_len(old_set);
                            assert(strs(set@).to_set() =~= old_set.to_set().insert(x));
                        }
                    }
                }
            }
        }
        i = i + 1;
    }
    proof {
        assert(ev.subrange(0, ev.len() as int) =~= ev);
        lemma_sorted_len(strs(set@));
        assert(strs(set@).to_set() =~= joined(ev).to_set());
    }
    set.len() as u64
}

/// How many distinct files were touched.
fn count_touched(events: &Vec<EventRecord>) -> (r: u64)
    ensures
        r == touched(events_view(events@)).to_set().len(),
{
    let ghost ev = events_view(events@);
    let mut set: Vec<String> = Vec::new();
    let mut i: usize = 0;
    while i < events.len()
        invariant
            ev == events_view(events@),
            i <= ev.len(),
            sorted_unique(strs(set@)),
            forall|t: Seq<char>| strs(set@).contains(t) <==> touched(ev.subrange(0, i as int)).contains(t),
        decreases events.len() - i,
    {
        let ghost before = touched(ev.subrange(0, i as int));
        proof {
            let q = ev.subrange(0, i + 1);
            assert(q.drop_last() =~= ev.subrange(0, i as int));
            assert(q.last() == events@[i as int]@);
        }
        if text_is(&events[i].kind, "FILE_TOUCHED") {
            let files = strings_list(&events[i].files);
            let mut k: usize = 0;
            while k < files.len()
                invariant
                    k <= files@.len(),
                    sorted_unique(strs(set@)),
                    forall|t: Seq<char>|
                        strs(set@).contains(t) <==> (before + strs(files@).subrange(0, k as int)).contains(t),
                decreases files.len() - k,
            {
                let ghost x = files@[k as int]@;
                insert_sorted(&mut set, owned(files[k].as_str()));
                proof {
                    let a = before + strs(files@).subrange(0, k as int);
                    let b = before + strs(files@).subrange(0, k + 1);
                    assert(b =~= a.push(x));
                    assert forall|t: Seq<char>| strs(set@).contains(t) <==> b.contains(t) by {
                        if b.contains(t) {
                            let j = choose|j: int| 0 <= j < b.len() && b[j] == t;
                            if j < a.len() {
                                assert(a[j] == t);
                            }
                        }
                        if a.contains(t) {
                            let j = choose|j: int| 0 <= j < a.len() && a[j] == t;
                            assert(b[j] == t);
                        }
                        if t == x {
                            assert(b[a.len() as int] == t);
                        }
                    }
                }
                k = k + 1;
            }
            proof {
                assert(strs(files@).subrange(0, files@.len() as int) =~= strs(files@));
            }
        }
        i = i + 1;
    }
    proof {
        assert(ev.subrange(0, ev.len() as int) =~= ev);
        lemma_sorted_len(strs(set@));
        assert(strs(set@).to_set() =~= touched(ev).to_set());
    }
    set.len() as u64
}

#[derive(Debug, Clone, Default)]
pub struct PeakHeat {
    pub heat: u64,
    pub pair: Vec<String>,
    pub ts: String,
}

impl View for PeakHeat {
    type V = PeakView;

    open spec fn view(&self) -> PeakView {
        PeakView { heat: self.heat, pair: strs(self.pair@), ts: self.ts@ }
    }
}

/// The peak heat of the session.
fn peak_heat_of(events: &Vec<EventRecord>) -> (r: PeakHeat)
    ensures
        r@ == peak_of(events_view(events@)),
{
    let ghost ev = events_view(events@);
    let mut p = PeakHeat { heat: 0, pair: Vec::new(), ts: String::new() };
    proof {
        assert(ev.subrange(0, 0).len() == 0);
        assert(strs(p.pair@) =~= Seq::<Seq<char>>::empty());
        assert(p.ts@ =~= Seq::<char>::empty());
        assert(p@ == peak_of(ev.subrange(0, 0)));
    }
    let mut i: usize = 0;
    while i < events.len()
        invariant
            ev == events_view(events@),
            i <= ev.len(),
            p@ == peak_of(ev.subrange(0, i as int)),
        decreases events.len() - i,
    {
        proof {
            let q = ev.subrange(0, i + 1);
            assert(q.drop_last() =~= ev.subrange(0, i as int));
            assert(q.last() == events@[i as int]@);
        }
        let e = &events[i];
        if text_is(&e.kind, "HEAT_UPDATED") {
            match two_strings(&e.pair) {
                Some((a, b)) => {
                    let h = match e.heat {
                        Some(h) => h,
                        None => 0,
                    };
                    if h > p.heat {
                        let ghost av = a@;
                        let ghost bv = b@;
                        let mut pair: Vec<String> = Vec::new();
                        pair.push(a);
                        pair.push(b);
                        p = PeakHeat { heat: h, pair, ts: text_of(&e.ts) };
                        proof {
                            assert(strs(p.pair@) =~= seq![av, bv]);
                        }
                    }
                },
                None => {},
            }
        }
        i = i + 1;
    }
    assert(ev.subrange(0, ev.len() as int) =~= ev);
    p
}

/// The time from the earliest to the latest parsed timestamp.
fn duration_ms_of(events: &Vec<EventRecord>) -> (r: i64)
    ensures
        r == duration_of(events_view(events@)),
{
    let ghost ev = events_view(events@);
    let mut span: Option<(i64, i64)> = None;
    let mut i: usize = 0;
    while i < events.len()
        invariant
            ev == events_view(events@),
            i <= ev.len(),
            span == ts_span(ev.subrange(0, i as int)),
            span matches Some((f, l)) ==> -timestamp_bound() <= f <= l <= timestamp_bound(),
        decreases events.len() - i,
    {
        proof {
            let q = ev.subrange(0, i + 1);
            assert(q.drop_last() =~= ev.subrange(0, i as int));
            assert(q.last() == events@[i as int]@);
        }
        let parsed = match &events[i].ts {
            Some(t) => parse_ms(t.as_str()),
            None => None,
        };
        match parsed {
            Some(m) => {
                span = match span {
                    None => Some((m, m)),
                    Some((f, l)) => Some((if m < f { m } else { f }, if m > l { m } else { l })),
                };
            },
            None => {},
        }
        i = i + 1;
    }
    assert(ev.subrange(0, ev.len() as int) =~= ev);
    match span {
        Some((f, l)) => l - f,
        None => 0,
    }
}

/// What a session's event log adds up to.
#[derive(Debug, Clone, Default)]
pub struct SessionStats {
    pub agents_seen: u64,
    pub claims_created: u64,
    pub claims_released: u64,
    pub claims_rejected: u64,
    pub files_touched: u64,
    pub heat_updates: u64,
    pub conflicts_opened: u64,
    pub auto_resolved_heat_dropped: u64,
    pub negotiated_resolved: u64,
    pub user_arbitrated: u64,
    pub escalated: u64,
    pub timed_out: u64,
    pub aborted: u64,
    pub deadlocks: u64,
    pub arbitrations_requested: u64,
    pub peak_heat: PeakHeat,
    pub duration_ms: i64,
    /// Per agent, in string order of agent.
    pub agents: Vec<(String, AgentTally)>,
}

/// No agent's tally overflows a 64-bit count.
pub open spec fn summary_fits(ev: Seq<EventView>) -> bool {
    forall|id: Seq<char>| tally_fits(#[trigger] tally_of(all_bumps(ev), id))
}

/// The heat history: the positions, in log order, of the HEAT_UPDATED
/// events, whose pair, heat, band and time make up the series.
pub fn heat_history(events: &Vec<EventRecord>) -> (r: Vec<usize>)
    ensures
        forall|j: int|
            #![trigger r@[j]]
            0 <= j < r@.len() ==> r@[j] < events@.len() && is_kind(events_view(events@)[r@[j] as int], "HEAT_UPDATED"@),
        forall|j: int, k: int| 0 <= j < k < r@.len() ==> r@[j] < r@[k],
        forall|i: int|
            0 <= i < events@.len() && #[trigger] is_kind(events_view(events@)[i], "HEAT_UPDATED"@) ==> r@.contains(
                i as usize,
            ),
{
    let ghost ev = events_view(events@);
    let mut r: Vec<usize> = Vec::new();
    let mut i: usize = 0;
    while i < events.len()
        invariant
            i <= events@.len(),
            ev == events_view(events@),
            forall|j: int|
                #![trigger r@[j]]
                0 <= j < r@.len() ==> r@[j] < i && is_kind(ev[r@[j] as int], "HEAT_UPDATED"@),
            forall|j: int, k: int| 0 <= j < k < r@.len() ==> r@[j] < r@[k],
            forall|m: int| 0 <= m < i && #[trigger] is_kind(ev[m], "HEAT_UPDATED"@) ==> r@.contains(m as usize),
        decreases events.len() - i,
    {
        proof {
            assert(ev[i as int] == events@[i as int]@);
        }
        let ghost r0 = r@;
        if text_is(&events[i].kind, "HEAT_UPDATED") {
            r.push(i);
            proof {
                assert(is_kind(ev[i as int], "HEAT_UPDATED"@));
                assert(r@[r@.len() - 1] == i);
                assert forall|j: int|
                    #![trigger r@[j]]
                    0 <= j < r@.len() implies r@[j] < i + 1 && is_kind(ev[r@[j] as int], "HEAT_UPDATED"@) by {
                    if j < r0.len() {
                        assert(r@[j] == r0[j]);
                    }
                }
                assert forall|j: int, k: int| 0 <= j < k < r@.len() implies r@[j] < r@[k] by {
                    assert(r@[j] == r0[j]);
                    if k < r0.len() {
                        assert(r@[k] == r0[k]);
                    }
                }
            }
        }
        proof {
            assert forall|m: int| 0 <= m < i + 1 && #[trigger] is_kind(ev[m], "HEAT_UPDATED"@) implies r@.contains(
                m as usize,
            ) by {
                if m == i {
                    assert(r@[r@.len() - 1] == i);
                } else {
                    assert(r0.contains(m as usize));
                    let k = choose|k: int| 0 <= k < r0.len() && r0[k] == m as usize;
                    assert(r@[k] == m as usize);
                }
            }
        }
        i = i + 1;
    }
    r
}

/// Summarizes a session's events (in log order).
pub fn summarize(events: &Vec<EventRecord>) -> (s: SessionStats)
    requires
        summary_fits(events_view(events@)),
    ensures
        s.agents_seen == joined(events_view(events@)).to_set().len(),
        s.claims_created == count_kind(events_view(events@), "CLAIM_CREATED"@),
        s.claims_released == count_kind(events_view(events@), "CLAIM_RELEASED"@),
        s.claims_rejected == count_kind(events_view(events@), "CLAIM_REJECTED"@),
        s.files_touched == touched(events_view(events@)).to_set().len(),
        s.heat_updates == count_kind(events_view(events@), "HEAT_UPDATED"@),
        s.conflicts_opened == count_kind(events_view(events@), "CONFLICT_OPENED"@),
        s.auto_resolved_heat_dropped == count_group(events_view(events@), ResolutionGroup::HeatDropped),
        s.negotiated_resolved == count_group(events_view(events@), ResolutionGroup::Negotiated),
        s.user_arbitrated == count_group(events_view(events@), ResolutionGroup::UserArbitrated),
        s.escalated == count_kind(events_view(events@), "CONFLICT_ESCALATED"@),
        s.timed_out == count_kind(events_view(events@), "CONFLICT_TIMEOUT"@),
        s.aborted == count_kind(events_view(events@), "CONFLICT_ABORTED"@),
        s.deadlocks == count_kind(events_view(events@), "DEADLOCK_DETECTED"@),
        s.arbitrations_requested == count_kind(events_view(events@), "USER_ARBITRATION_REQUIRED"@),
        s.peak_heat@ == peak_of(events_view(events@)),
        s.duration_ms == duration_of(events_view(events@)),
        sorted_unique(tally_keys(s.agents@)),
        tally_map(s.agents@) == tallies(all_bumps(events_view(events@))),
{
    SessionStats {
        agents_seen: count_joined(events),
        claims_created: count_kind_of(events, "CLAIM_CREATED"),
        claims_released: count_kind_of(events, "CLAIM_RELEASED"),
        claims_rejected: count_kind_of(events, "CLAIM_REJECTED"),
        files_touched: count_touched(events),
        heat_updates: count_kind_of(events, "HEAT_UPDATED"),
        conflicts_opened: count_kind_of(events, "CONFLICT_OPENED"),
        auto_resolved_heat_dropped: count_group_of(events, ResolutionGroup::HeatDropped),
        negotiated_resolved: count_group_of(events, ResolutionGroup::Negotiated),
        user_arbitrated: count_group_of(events, ResolutionGroup::UserArbitrated),
        escalated: count_kind_of(events, "CONFLICT_ESCALATED"),
        timed_out: count_kind_of(events, "CONFLICT_TIMEOUT"),
        aborted: count_kind_of(events, "CONFLICT_ABORTED"),
        deadlocks: count_kind_of(events, "DEADLOCK_DETECTED"),
        arbitrations_requested: count_kind_of(events, "USER_ARBITRATION_REQUIRED"),
        peak_heat: peak_heat_of(events),
        duration_ms: duration_ms_of(events),
        agents: agent_tallies(events),
    }
}

// ---------------------------------------------------------------------------
// Profiles across sessions
// ---------------------------------------------------------------------------

/// An agent's record over all sessions.
#[derive(Debug, Clone, Copy, PartialEq, Eq, Default)]
pub struct AgentProfile {
    pub sessions: u64,
    pub claims_made: u64,
    pub tasks_completed: u64,
    pub ghost_claims: u64,
    pub conflicts_involved: u64,
    pub heat_generated_sum: u64,
    pub heat_generated_count: u64,
    pub arbitrations_involved: u64,
    pub deadlocks_involved: u64,
}

/// A profile as numbers.
pub struct ProfileCounts {
    pub sessions: nat,
    pub tally: TallyCounts,
}

impl View for AgentProfile {
    type V = ProfileCounts;

    open spec fn view(&self) -> ProfileCounts {
        ProfileCounts {
            sessions: self.sessions as nat,
            tally: TallyCounts {
                claims_made: self.claims_made as nat,
                tasks_completed: self.tasks_completed as nat,
                ghost_claims: self.ghost_claims as nat,
                conflicts_involved: self.conflicts_involved as nat,
                heat_generated_sum: self.heat_generated_sum as nat,
                heat_generated_count: self.heat_generated_count as nat,
                arbitrations_involved: self.arbitrations_involved as nat,
                deadlocks_involved: self.deadlocks_involved as nat,
            },
        }
    }
}

pub open spec fn tally_plus(a: TallyCounts, b: TallyCounts) -> TallyCounts {
    TallyCounts {
        claims_made: a.claims_made + b.claims_made,
        tasks_completed: a.tasks_completed + b.tasks_completed,
        ghost_claims: a.ghost_claims + b.ghost_claims,
        conflicts_involved: a.conflicts_involved + b.conflicts_involved,
        heat_generated_sum: a.heat_generated_sum + b.heat_generated_sum,
        heat_generated_count: a.heat_generated_count + b.heat_generated_count,
        arbitrations_involved: a.arbitrations_involved + b.arbitrations_involved,
        deadlocks_involved: a.deadlocks_involved + b.deadlocks_involved,
    }
}

/// A profile after one more session with tally `t`.
pub open spec fn with_session(p: ProfileCounts, t: TallyCounts) -> ProfileCounts {
    ProfileCounts { sessions: p.sessions + 1, tally: tally_plus(p.tally, t) }
}

pub open spec fn zero_profile() -> ProfileCounts {
    ProfileCounts { sessions: 0, tally: zero_tally() }
}

/// The profiles, agent by agent.
pub open spec fn profile_map(v: Seq<(String, AgentProfile)>) -> Map<Seq<char>, ProfileCounts> {
    entry_map(v, str_key()).map_values(|p: AgentProfile| p@)
}

/// The profile of `id` before the merge, or an empty one.
pub open spec fn profile_or_zero(m: Map<Seq<char>, ProfileCounts>, id: Seq<char>) -> ProfileCounts {
    if m.dom().contains(id) { m[id] } else { zero_profile() }
}

/// Profiles after merging one session's tallies: each tallied agent gets one
/// more session and the session's counts added; the others are unchanged.
pub open spec fn merged_profiles(
    m: Map<Seq<char>, ProfileCounts>,
    t: Map<Seq<char>, TallyCounts>,
) -> Map<Seq<char>, ProfileCounts> {
    Map::new(
        |id: Seq<char>| m.dom().contains(id) || t.dom().contains(id),
        |id: Seq<char>| if t.dom().contains(id) { with_session(profile_or_zero(m, id), t[id]) } else { m[id] },
    )
}

pub open spec fn profile_fits(p: ProfileCounts) -> bool {
    p.sessions <= u64::MAX && tally_fits(p.tally)
}

/// The agents' profiles, in string order of agent.
pub struct ProfileStore {
    pub agents: Vec<(String, AgentProfile)>,
}

impl ProfileStore {
    pub fn new() -> (r: Self)
        ensures
            r.agents@.len() == 0,
    {
        ProfileStore { agents: Vec::new() }
    }

    /// Adds one session's tallies: each agent tallied gets one more session
    /// and the tally's counts added to its profile.
    pub fn merge_session(&mut self, tallies: &Vec<(String, AgentTally)>)
        requires
            sorted_unique(key_strs(old(self).agents@)),
            sorted_unique(tally_keys(tallies@)),
            forall|id: Seq<char>| #[trigger] tally_map(tallies@).dom().contains(id) ==> profile_fits(
                with_session(profile_or_zero(profile_map(old(self).agents@), id), tally_map(tallies@)[id]),
            ),
        ensures
            sorted_unique(key_strs(final(self).agents@)),
            profile_map(final(self).agents@) == merged_profiles(profile_map(old(self).agents@), tally_map(tallies@)),
    {
        let ghost m0 = profile_map(self.agents@);
        let ghost tm = tally_map(tallies@);
        let mut i: usize = 0;
        proof {
            assert(profile_map(self.agents@) =~= merged_profiles(m0, tally_map(tallies@.subrange(0, 0))));
        }
        while i < tallies.len()
            invariant
                m0 == profile_map(old(self).agents@),
                tm == tally_map(tallies@),
                sorted_unique(tally_keys(tallies@)),
                forall|id: Seq<char>| #[trigger] tm.dom().contains(id) ==> profile_fits(
                    with_session(profile_or_zero(m0, id), tm[id]),
                ),
                i <= tallies@.len(),
                sorted_unique(key_strs(self.agents@)),
                profile_map(self.agents@) == merged_profiles(m0, tally_map(tallies@.subrange(0, i as int))),
            decreases tallies.len() - i,
        {
            let id = tallies[i].0.as_str();
            let t = tallies[i].1;
            let ghost pre = tally_map(tallies@.subrange(0, i as int));
            let ghost post = tally_map(tallies@.subrange(0, i + 1));
            proof {
                lemma_tally_map_at(tallies@, i as int);
                lemma_sorted_keys_distinct(self.agents@);
                // The tallies so far do not name `id` yet; after this step they do, with `t`.
                let sub = tallies@.subrange(0, i as int);
                let sub1 = tallies@.subrange(0, i + 1);
                assert(sub1 =~= sub.push(tallies@[i as int]));
                assert(!pre.dom().contains(id@)) by {
                    if tally_keys(sub).contains(id@) {
                        let j = choose|j: int| 0 <= j < tally_keys(sub).len() && tally_keys(sub)[j] == id@;
                        assert(tally_keys(tallies@)[j] == id@);
                        assert(tally_keys(tallies@)[i as int] == id@);
                        assert(lex_lt(tally_keys(tallies@)[j], tally_keys(tallies@)[i as int]));
                        lemma_lex_irreflexive(id@);
                    }
                }
                assert(sorted_unique(tally_keys(sub1))) by {
                    assert forall|a: int, b: int| 0 <= a < b < tally_keys(sub1).len() implies lex_lt(
                        #[trigger] tally_keys(sub1)[a],
                        #[trigger] tally_keys(sub1)[b],
                    ) by {
                        assert(tally_keys(sub1)[a] == tally_keys(tallies@)[a]);
                        assert(tally_keys(sub1)[b] == tally_keys(tallies@)[b]);
                    }
                }
                assert(sorted_unique(tally_keys(sub))) by {
                    assert forall|a: int, b: int| 0 <= a < b < tally_keys(sub).len() implies lex_lt(
                        #[trigger] tally_keys(sub)[a],
                        #[trigger] tally_keys(sub)[b],
                    ) by {
                        assert(tally_keys(sub)[a] == tally_keys(tallies@)[a]);
                        assert(tally_keys(sub)[b] == tally_keys(tallies@)[b]);
                    }
                }
                assert forall|x: Seq<char>| #[trigger] post.dom().contains(x) <==> (pre.dom().contains(x) || x == id@) by {
                    if tally_keys(sub1).contains(x) {
                        let j = choose|j: int| 0 <= j < tally_keys(sub1).len() && tally_keys(sub1)[j] == x;
                        if j < i {
                            assert(tally_keys(sub)[j] == x);
                        }
                    }
                    if tally_keys(sub).contains(x) {
                        let j = choose|j: int| 0 <= j < tally_keys(sub).len() && tally_keys(sub)[j] == x;
                        assert(tally_keys(sub1)[j] == x);
                    }
                    if x == id@ {
                        assert(tally_keys(sub1)[i as int] == x);
                    }
                }
                assert forall|x: Seq<char>| #[trigger] post.dom().contains(x) implies post[x] == (if x == id@ { t@ } else {
                    pre[x]
                }) by {
                    let j = choose|j: int| 0 <= j < tally_keys(sub1).len() && tally_keys(sub1)[j] == x;
                    lemma_tally_map_at(sub1, j);
                    if j < i {
                        lemma_tally_map_at(sub, j);
                        assert(sub1[j] == sub[j]);
                    }
                }
                assert(tm.dom().contains(id@));
                assert(tm[id@] == t@);
            }
            let (pos, found) = find_key(&self.agents, id);
            let cur = if found {
                self.agents[pos].1
            } else {
                AgentProfile {
                    sessions: 0,
                    claims_made: 0,
                    tasks_completed: 0,
                    ghost_claims: 0,
                    conflicts_involved: 0,
                    heat_generated_sum: 0,
                    heat_generated_count: 0,
                    arbitrations_involved: 0,
                    deadlocks_involved: 0,
                }
            };
            proof {
                let cm = profile_map(self.agents@);
                if found {
                    lemma_entry_lookup(self.agents@, str_key(), pos as int);
                    assert(cm.dom().contains(id@));
                    assert(cm[id@] == cur@);
                } else {
                    assert(!cm.dom().contains(id@));
                }
                // What the merge so far holds for `id` is its old profile.
                assert(cm.dom().contains(id@) <==> m0.dom().contains(id@));
                if m0.dom().contains(id@) {
                    assert(cm[id@] == m0[id@]);
                }
                assert(cur@ == profile_or_zero(m0, id@));
            }
            let next = AgentProfile {
                sessions: cur.sessions + 1,
                claims_made: cur.claims_made + t.claims_made,
                tasks_completed: cur.tasks_completed + t.tasks_completed,
                ghost_claims: cur.ghost_claims + t.ghost_claims,
                conflicts_involved: cur.conflicts_involved + t.conflicts_involved,
                heat_generated_sum: cur.heat_generated_sum + t.heat_generated_sum,
                heat_generated_count: cur.heat_generated_count + t.heat_generated_count,
                arbitrations_involved: cur.arbitrations_involved + t.arbitrations_involved,
                deadlocks_involved: cur.deadlocks_involved + t.deadlocks_involved,
            };
            let ghost before = self.agents@;
            upsert_sorted(&mut self.agents, id, next);
            proof {
                assert(next@ == with_session(profile_or_zero(m0, id@), t@));
                let now = profile_map(self.agents@);
                assert(entry_map(self.agents@, str_key()) == entry_map(before, str_key()).insert(id@, next));
                assert(now =~= profile_map(before).insert(id@, next@));
                assert(now =~= merged_profiles(m0, post));
            }
            i = i + 1;
        }
        proof {
            assert(tallies@.subrange(0, tallies@.len() as int) =~= tallies@);
        }
    }
}

/// The two names of a well-formed pair, as a list.
pub open spec fn pair_names(o: Option<Seq<Option<Seq<char>>>>) -> Seq<Seq<char>> {
    match two_of(o) {
        Some(p) => seq![p.0, p.1],
        None => Seq::empty(),
    }
}

/// The peak heat is the highest heat reported between a pair, and of equal
/// highs the earliest report is kept: no report is higher, none before it is
/// as high, and the peak (when above zero) is one of the reports.
pub proof fn law_peak_is_earliest_highest(ev: Seq<EventView>)
    ensures
        forall|i: int| 0 <= i < ev.len() && is_pair_heat(#[trigger] ev[i]) ==> heat_of(ev[i]) <= peak_of(ev).heat,
        peak_of(ev).heat > 0 ==> exists|i: int|
            0 <= i < ev.len() && is_pair_heat(#[trigger] ev[i]) && heat_of(ev[i]) == peak_of(ev).heat && peak_of(ev).pair
                == pair_names(ev[i].pair) && peak_of(ev).ts == text(ev[i].ts) && forall|j: int|
                0 <= j < i && is_pair_heat(#[trigger] ev[j]) ==> heat_of(ev[j]) < peak_of(ev).heat,
    decreases ev.len(),
{
    if ev.len() > 0 {
        let pre = ev.drop_last();
        law_peak_is_earliest_highest(pre);
        assert forall|i: int| 0 <= i < pre.len() implies #[trigger] pre[i] == ev[i] by {}
        assert(peak_of(pre).heat <= peak_of(ev).heat);
        assert forall|i: int| 0 <= i < ev.len() && is_pair_heat(#[trigger] ev[i]) implies heat_of(ev[i]) <= peak_of(ev).heat by {
            if i < pre.len() {
                assert(ev[i] == pre[i]);
            } else {
                assert(ev[i] == ev.last());
            }
        }
        if peak_of(ev).heat > 0 && peak_of(ev) == peak_of(pre) {
            let i = choose|i: int|
                0 <= i < pre.len() && is_pair_heat(#[trigger] pre[i]) && heat_of(pre[i]) == peak_of(pre).heat && peak_of(pre).pair
                    == pair_names(pre[i].pair) && peak_of(pre).ts == text(pre[i].ts) && forall|j: int|
                    0 <= j < i && is_pair_heat(#[trigger] pre[j]) ==> heat_of(pre[j]) < peak_of(pre).heat;
            assert(ev[i] == pre[i]);
            assert forall|j: int| 0 <= j < i && is_pair_heat(#[trigger] ev[j]) implies heat_of(ev[j]) < peak_of(ev).heat by {
                assert(ev[j] == pre[j]);
            }
        }
        if peak_of(ev) != peak_of(pre) {
            let k = ev.len() - 1;
            assert(ev[k] == ev.last());
            assert forall|j: int| 0 <= j < k && is_pair_heat(#[trigger] ev[j]) implies heat_of(ev[j]) < peak_of(ev).heat by {
                assert(ev[j] == pre[j]);
            }
        }
    }
}

/// Profiles accumulate across sessions: merging a session's tallies adds one
/// session and the session's counts for every agent tallied, and leaves the
/// other agents as they were.
pub proof fn law_merge_accumulates(m: Map<Seq<char>, ProfileCounts>, t: Map<Seq<char>, TallyCounts>, id: Seq<char>)
    ensures
        t.dom().contains(id) ==> merged_profiles(m, t)[id].sessions == profile_or_zero(m, id).sessions + 1
            && merged_profiles(m, t)[id].tally == tally_plus(profile_or_zero(m, id).tally, t[id]),
        !t.dom().contains(id) && m.dom().contains(id) ==> merged_profiles(m, t)[id] == m[id],
        merged_profiles(m, t).dom().contains(id) <==> (m.dom().contains(id) || t.dom().contains(id)),
{
}

/// How a session counts resolved conflicts: a CONFLICT_RESOLVED event adds
/// one to the negotiated count when its resolution is one the agents
/// reached themselves (a participant stepped aside, queued, split the scope
/// or co-owns), one to the heat-dropped count when the heat fell away, and
/// one to the arbitrated count when the user decided; any other event leaves
/// each count as it was.
pub proof fn law_resolution_counts(ev: Seq<EventView>, e: EventView)
    ensures
        ({
            let r = text(e.resolution);
            let resolved = text(e.kind) == "CONFLICT_RESOLVED"@;
            &&& count_group(ev.push(e), ResolutionGroup::Negotiated) == count_group(ev, ResolutionGroup::Negotiated) + if resolved
                && (r == "PARTICIPANT_STEPPED_ASIDE"@ || r == "QUEUED"@ || r == "SCOPE_SPLIT"@ || r == "CO_OWNERSHIP"@) {
                1nat
            } else {
                0nat
            }
            &&& count_group(ev.push(e), ResolutionGroup::HeatDropped) == count_group(ev, ResolutionGroup::HeatDropped) + if resolved
                && r == "AUTO_RESOLVED_HEAT_DROPPED"@ {
                1nat
            } else {
                0nat
            }
            &&& count_group(ev.push(e), ResolutionGroup::UserArbitrated) == count_group(ev, ResolutionGroup::UserArbitrated)
                + if resolved && r == "USER_ARBITRATED"@ {
                1nat
            } else {
                0nat
            }
        }),
{
    let t = ev.push(e);
    assert(t.drop_last() =~= ev);
    assert(t.last() == e);
}

} // verus!
