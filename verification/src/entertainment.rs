//! The light-hearted session recap: streaks, the battleground file, the
//! biggest heat spike, the longest negotiation, the busiest minute, badges
//! and the narrative. Averages are weighed elsewhere, in floating point.

use vstd::prelude::*;
use crate::cap::strs;
use crate::knowledge::occurrences;
use crate::sets::{sorted_unique, key_strs, find_key, upsert_sorted, lemma_sorted_keys_distinct, lemma_sorted_len};
use crate::entries::{entry_map, has_key, lemma_entry_lookup};
use crate::knowledge::str_key;
use crate::stats::{
    EventRecord, EventView, events_view, text, is_kind, strings_in, two_of, heat_of, text_of, text_is, strings_list,
    two_strings, AgentTally, TallyCounts, tally_keys, SessionStats, rfc3339_millis, timestamp_bound,
    parse_ms,
};
use crate::text::{lex_lt, lex_le, str_lt, str_eq, owned, push_str, push_decimal, decimal, lemma_lex_irreflexive, lemma_lex_total, lemma_lex_asymmetric, lemma_lex_transitive};

verus! {

// ---------------------------------------------------------------------------
// Streaks
// ---------------------------------------------------------------------------

/// `flags[i..j]` are all true.
pub open spec fn all_true(flags: Seq<bool>, i: int, j: int) -> bool {
    0 <= i <= j <= flags.len() && forall|k: int| i <= k < j ==> #[trigger] flags[k]
}

/// The longest run of consecutive `true` values.
pub fn longest_run(flags: &Vec<bool>) -> (r: u64)
    ensures
        exists|i: int, j: int| #[trigger] all_true(flags@, i, j) && j - i == r,
        forall|i: int, j: int| #[trigger] all_true(flags@, i, j) ==> j - i <= r,
{
    let mut cur: u64 = 0;
    let mut best: u64 = 0;
    let mut k: usize = 0;
    proof {
        assert(all_true(flags@, 0, 0));
    }
    while k < flags.len()
        invariant
            k <= flags@.len(),
            cur <= k,
            best <= k,
            cur <= best,
            all_true(flags@, k - cur, k as int),
            k == cur || !flags@[k - cur - 1],
            exists|i: int, j: int| #[trigger] all_true(flags@, i, j) && j - i == best,
            forall|i: int, j: int| #[trigger] all_true(flags@, i, j) && j <= k ==> j - i <= best,
        decreases flags.len() - k,
    {
        if flags[k] {
            cur = cur + 1;
            if cur > best {
                best = cur;
            }
            proof {
                assert(all_true(flags@, k + 1 - cur, k + 1));
                assert forall|i: int, j: int| #[trigger] all_true(flags@, i, j) && j <= k + 1 implies j - i <= best by {
                    if j == k + 1 && i < k + 1 - cur {
                        // The run would contain the false value just before ours.
                        assert(flags@[k - (cur - 1) - 1] == false);
                        assert(false);
                    }
                }
            }
        } else {
            cur = 0;
            proof {
                assert forall|i: int, j: int| #[trigger] all_true(flags@, i, j) && j <= k + 1 implies j - i <= best by {
                    if j == k + 1 && i < j {
                        assert(flags@[k as int]);
                    }
                }
                assert(all_true(flags@, k + 1, k + 1));
            }
        }
        k = k + 1;
    }
    best
}

/// An event that closes a conflict one way or another.
pub open spec fn is_conflict_outcome(e: EventView) -> bool {
    is_kind(e, "CONFLICT_RESOLVED"@) || is_kind(e, "CONFLICT_ESCALATED"@) || is_kind(e, "CONFLICT_TIMEOUT"@)
        || is_kind(e, "CONFLICT_ABORTED"@)
}

/// For each conflict outcome in order: whether it was a resolution.
pub open spec fn resolve_flags(ev: Seq<EventView>) -> Seq<bool> {
    ev.filter(|e: EventView| is_conflict_outcome(e)).map_values(|e: EventView| is_kind(e, "CONFLICT_RESOLVED"@))
}

/// For each claim release in order: whether the task was completed.
pub open spec fn completion_flags(ev: Seq<EventView>) -> Seq<bool> {
    ev.filter(|e: EventView| is_kind(e, "CLAIM_RELEASED"@)).map_values(
        |e: EventView| text(e.reason) == "TASK_COMPLETED"@,
    )
}

/// The longest run of `true` in `flags`.
pub open spec fn is_longest_run(flags: Seq<bool>, n: u64) -> bool {
    &&& exists|i: int, j: int| #[trigger] all_true(flags, i, j) && j - i == n
    &&& forall|i: int, j: int| #[trigger] all_true(flags, i, j) ==> j - i <= n
}

#[derive(Debug, Clone, Copy, PartialEq, Eq, Default)]
pub struct Streaks {
    pub longest_auto_resolve_streak: u64,
    pub longest_completion_streak: u64,
}

/// Picks, in order, the events kept by `outcome` (or `released`), mapped to
/// their flag.
fn flags_of(events: &Vec<EventRecord>, outcomes: bool) -> (r: Vec<bool>)
    ensures
        outcomes ==> r@ == resolve_flags(events_view(events@)),
        !outcomes ==> r@ == completion_flags(events_view(events@)),
{
    let ghost ev = events_view(events@);
    let ghost p = if outcomes { |e: EventView| is_conflict_outcome(e) } else { |e: EventView| is_kind(e, "CLAIM_RELEASED"@) };
    let ghost f = if outcomes {
        |e: EventView| is_kind(e, "CONFLICT_RESOLVED"@)
    } else {
        |e: EventView| text(e.reason) == "TASK_COMPLETED"@
    };
    let mut r: Vec<bool> = Vec::new();
    let mut i: usize = 0;
    while i < events.len()
        invariant
            ev == events_view(events@),
            p == (if outcomes { |e: EventView| is_conflict_outcome(e) } else { |e: EventView| is_kind(e, "CLAIM_RELEASED"@) }),
            f == (if outcomes {
                |e: EventView| is_kind(e, "CONFLICT_RESOLVED"@)
            } else {
                |e: EventView| text(e.reason) == "TASK_COMPLETED"@
            }),
            i <= ev.len(),
            r@ == ev.subrange(0, i as int).filter(p).map_values(f),
        decreases events.len() - i,
    {
        let e = &events[i];
        let ghost before = r@;
        proof {
            let q = ev.subrange(0, i + 1);
            assert(q.drop_last() =~= ev.subrange(0, i as int));
            assert(q.last() == e@);
            reveal_with_fuel(Seq::filter, 1);
        }
        if outcomes {
            if text_is(&e.kind, "CONFLICT_RESOLVED") || text_is(&e.kind, "CONFLICT_ESCALATED") || text_is(
                &e.kind,
                "CONFLICT_TIMEOUT",
            ) || text_is(&e.kind, "CONFLICT_ABORTED") {
                r.push(text_is(&e.kind, "CONFLICT_RESOLVED"));
                assert(r@ =~= before.push(f(e@)));
            }
        } else {
            if text_is(&e.kind, "CLAIM_RELEASED") {
                r.push(text_is(&e.reason, "TASK_COMPLETED"));
                assert(r@ =~= before.push(f(e@)));
            }
        }
        i = i + 1;
    }
    assert(ev.subrange(0, ev.len() as int) =~= ev);
    r
}

/// The longest streak of conflict outcomes that were resolutions, and of
/// claim releases that completed their task; other events do not break a
/// streak.
pub fn streaks(events: &Vec<EventRecord>) -> (r: Streaks)
    ensures
        is_longest_run(resolve_flags(events_view(events@)), r.longest_auto_resolve_streak),
        is_longest_run(completion_flags(events_view(events@)), r.longest_completion_streak),
{
    let a = flags_of(events, true);
    let c = flags_of(events, false);
    Streaks { longest_auto_resolve_streak: longest_run(&a), longest_completion_streak: longest_run(&c) }
}

// ---------------------------------------------------------------------------
// Counting by key
// ---------------------------------------------------------------------------

proof fn lemma_occurrences_le(s: Seq<Seq<char>>, x: Seq<char>)
    ensures
        occurrences(s, x) <= s.len(),
        occurrences(s, x) > 0 <==> s.contains(x),
    decreases s.len(),
{
    if s.len() > 0 {
        lemma_occurrences_le(s.drop_last(), x);
        if s.drop_last().contains(x) {
            let k = choose|k: int| 0 <= k < s.drop_last().len() && s.drop_last()[k] == x;
            assert(s[k] == x);
        }
        if s.contains(x) && s.last() != x {
            let k = choose|k: int| 0 <= k < s.len() && s[k] == x;
            assert(k < s.len() - 1);
            assert(s.drop_last()[k] == x);
        }
    }
}

/// How often each key occurs, keyed in string order.
pub open spec fn counts_of(keys: Seq<Seq<char>>) -> Map<Seq<char>, u64> {
    Map::new(|k: Seq<char>| keys.contains(k), |k: Seq<char>| occurrences(keys, k) as u64)
}

/// Counts the occurrences of each key.
pub fn count_keys(keys: &Vec<String>) -> (r: Vec<(String, u64)>)
    ensures
        sorted_unique(key_strs(r@)),
        entry_map(r@, str_key()) == counts_of(strs(keys@)),
{
    let ghost ks = strs(keys@);
    let mut r: Vec<(String, u64)> = Vec::new();
    let mut i: usize = 0;
    proof {
        assert(entry_map(r@, str_key()) =~= counts_of(ks.subrange(0, 0)));
    }
    while i < keys.len()
        invariant
            ks == strs(keys@),
            i <= ks.len(),
            sorted_unique(key_strs(r@)),
            entry_map(r@, str_key()) == counts_of(ks.subrange(0, i as int)),
        decreases keys.len() - i,
    {
        let k = keys[i].as_str();
        let ghost pre = ks.subrange(0, i as int);
        let ghost post = ks.subrange(0, i + 1);
        proof {
            assert(post.drop_last() =~= pre);
            assert(post.last() == k@);
            lemma_occurrences_le(pre, k@);
            lemma_sorted_keys_distinct(r@);
        }
        let (pos, found) = find_key(&r, k);
        let n: u64 = if found {
            proof {
                lemma_entry_lookup(r@, str_key(), pos as int);
            }
            r[pos].1
        } else {
            0
        };
        proof {
            let m = entry_map(r@, str_key());
            if found {
                assert(str_key()(r@[pos as int].0) == k@);
                assert(m.dom().contains(k@));
                assert(m[k@] == n);
                assert(counts_of(pre).dom().contains(k@));
                assert(pre.contains(k@));
                assert(counts_of(pre)[k@] == occurrences(pre, k@) as u64);
            } else {
                assert(!m.dom().contains(k@));
                assert(!pre.contains(k@));
            }
            assert(n == occurrences(pre, k@));
        }
        upsert_sorted(&mut r, k, n + 1);
        proof {
            lemma_occurrences_le(post, k@);
            assert forall|x: Seq<char>| #[trigger] post.contains(x) <==> (pre.contains(x) || x == k@) by {
                if post.contains(x) {
                    let j = choose|j: int| 0 <= j < post.len() && post[j] == x;
                    if j < i {
                        assert(pre[j] == x);
                    }
                }
                if pre.contains(x) {
                    let j = choose|j: int| 0 <= j < pre.len() && pre[j] == x;
                    assert(post[j] == x);
                }
            }
            assert(entry_map(r@, str_key()) =~= counts_of(post));
        }
        i = i + 1;
    }
    proof {
        assert(ks.subrange(0, ks.len() as int) =~= ks);
    }
    r
}

/// `k` has the highest count, and is the least key among equal counts.
pub open spec fn is_top_key(m: Map<Seq<char>, u64>, k: Seq<char>) -> bool {
    &&& m.dom().contains(k)
    &&& forall|x: Seq<char>| #[trigger] m.dom().contains(x) ==> m[x] < m[k] || (m[x] == m[k] && lex_le(k, x))
}

/// `k` is the top key and `n` its count.
pub open spec fn is_top(m: Map<Seq<char>, u64>, k: Seq<char>, n: u64) -> bool {
    is_top_key(m, k) && m[k] == n
}

/// The key with the highest count (the least of equal ones), if any.
pub fn top_count(counts: &Vec<(String, u64)>) -> (r: Option<(String, u64)>)
    requires
        sorted_unique(key_strs(counts@)),
    ensures
        match r {
            Some((k, n)) => is_top(entry_map(counts@, str_key()), k@, n),
            None => entry_map(counts@, str_key()).dom() == Set::<Seq<char>>::empty(),
        },
{
    proof {
        lemma_sorted_keys_distinct(counts@);
    }
    let ghost m = entry_map(counts@, str_key());
    if counts.len() == 0 {
        proof {
            assert forall|x: Seq<char>| !m.dom().contains(x) by {}
            assert(m.dom() =~= Set::<Seq<char>>::empty());
        }
        return None;
    }
    let mut best: usize = 0;
    let mut i: usize = 1;
    while i < counts.len()
        invariant
            m == entry_map(counts@, str_key()),
            sorted_unique(key_strs(counts@)),
            best < i <= counts@.len(),
            forall|j: int| 0 <= j < i ==> counts@[j].1 < counts@[best as int].1 || (counts@[j].1 == counts@[best as int].1
                && best <= j),
        decreases counts.len() - i,
    {
        if counts[i].1 > counts[best].1 {
            best = i;
        }
        i = i + 1;
    }
    proof {
        lemma_entry_lookup(counts@, str_key(), best as int);
        assert forall|x: Seq<char>| #[trigger] m.dom().contains(x) implies m[x] < counts@[best as int].1 || (m[x]
            == counts@[best as int].1 && lex_le(counts@[best as int].0@, x)) by {
            let j = choose|j: int| 0 <= j < counts@.len() && str_key()((#[trigger] counts@[j]).0) == x;
            lemma_entry_lookup(counts@, str_key(), j);
            if j > best {
                assert(lex_lt(key_strs(counts@)[best as int], key_strs(counts@)[j]));
            }
        }
    }
    Some((owned(counts[best].0.as_str()), counts[best].1))
}

// ---------------------------------------------------------------------------
// The battleground, the diplomat and the hotzone hero
// ---------------------------------------------------------------------------

/// Files fought over: those touched, and the paths of opened conflicts, each
/// occurrence once, in log order.
pub open spec fn battle_files(ev: Seq<EventView>) -> Seq<Seq<char>>
    decreases ev.len(),
{
    if ev.len() == 0 {
        Seq::empty()
    } else {
        let e = ev.last();
        let rest = battle_files(ev.drop_last());
        if is_kind(e, "FILE_TOUCHED"@) {
            rest + strings_in(e.files)
        } else if is_kind(e, "CONFLICT_OPENED"@) {
            rest + strings_in(e.paths)
        } else {
            rest
        }
    }
}

/// A conciliatory proposal: yielding or co-owning.
pub open spec fn is_conciliatory(k: Seq<char>) -> bool {
    k == "YIELD_CLAIM"@ || k == "CO_OWN"@ || k == "CO_OWNERSHIP"@
}

/// The agents that made a conciliatory proposal, once per proposal, in log
/// order.
pub open spec fn diplomats(ev: Seq<EventView>) -> Seq<Seq<char>>
    decreases ev.len(),
{
    if ev.len() == 0 {
        Seq::empty()
    } else {
        let e = ev.last();
        let rest = diplomats(ev.drop_last());
        if is_kind(e, "CONFLICT_PROPOSAL_RECEIVED"@) && is_conciliatory(text(e.proposal_kind)) && text(e.from).len() > 0 {
            rest.push(text(e.from))
        } else {
            rest
        }
    }
}

/// Who counts towards the diplomat badge: a received proposal that yields
/// the claim or offers co-ownership (YIELD_CLAIM, CO_OWN or CO_OWNERSHIP)
/// adds its sender once, if the sender is named; no other event adds
/// anyone.
pub proof fn law_diplomat_counting(ev: Seq<EventView>, e: EventView)
    ensures
        ({
            let k = text(e.proposal_kind);
            if text(e.kind) == "CONFLICT_PROPOSAL_RECEIVED"@ && (k == "YIELD_CLAIM"@ || k == "CO_OWN"@ || k
                == "CO_OWNERSHIP"@) && text(e.from).len() > 0 {
                diplomats(ev.push(e)) == diplomats(ev).push(text(e.from))
            } else {
                diplomats(ev.push(e)) == diplomats(ev)
            }
        }),
{
    let t = ev.push(e);
    assert(t.drop_last() =~= ev);
    assert(t.last() == e);
}

fn append_strings(out: &mut Vec<String>, extra: &Vec<String>)
    ensures
        strs(final(out)@) == strs(old(out)@) + strs(extra@),
{
    let mut k: usize = 0;
    let ghost start = strs(out@);
    while k < extra.len()
        invariant
            k <= extra@.len(),
            strs(out@) == start + strs(extra@).subrange(0, k as int),
        decreases extra.len() - k,
    {
        let ghost before = strs(out@);
        out.push(owned(extra[k].as_str()));
        assert(strs(out@) =~= before.push(extra@[k as int]@));
        assert(strs(extra@).subrange(0, k + 1) =~= strs(extra@).subrange(0, k as int).push(extra@[k as int]@));
        assert(strs(out@) =~= start + strs(extra@).subrange(0, k + 1));
        k = k + 1;
    }
    assert(strs(extra@).subrange(0, extra@.len() as int) =~= strs(extra@));
}

/// The files fought over, in log order.
pub fn battle_keys(events: &Vec<EventRecord>) -> (r: Vec<String>)
    ensures
        strs(r@) == battle_files(events_view(events@)),
{
    let ghost ev = events_view(events@);
    let mut r: Vec<String> = Vec::new();
    let mut i: usize = 0;
    while i < events.len()
        invariant
            ev == events_view(events@),
            i <= ev.len(),
            strs(r@) == battle_files(ev.subrange(0, i as int)),
        decreases events.len() - i,
    {
        proof {
            let q = ev.subrange(0, i + 1);
            assert(q.drop_last() =~= ev.subrange(0, i as int));
            assert(q.last() == events@[i as int]@);
        }
        let e = &events[i];
        if text_is(&e.kind, "FILE_TOUCHED") {
            let fs = strings_list(&e.files);
            append_strings(&mut r, &fs);
        } else if text_is(&e.kind, "CONFLICT_OPENED") {
            let ps = strings_list(&e.paths);
            append_strings(&mut r, &ps);
        }
        i = i + 1;
    }
    assert(ev.subrange(0, ev.len() as int) =~= ev);
    r
}

/// The conciliatory proposers, in log order.
pub fn diplomat_keys(events: &Vec<EventRecord>) -> (r: Vec<String>)
    ensures
        strs(r@) == diplomats(events_view(events@)),
{
    let ghost ev = events_view(events@);
    let mut r: Vec<String> = Vec::new();
    let mut i: usize = 0;
    while i < events.len()
        invariant
            ev == events_view(events@),
            i <= ev.len(),
            strs(r@) == diplomats(ev.subrange(0, i as int)),
        decreases events.len() - i,
    {
        proof {
            let q = ev.subrange(0, i + 1);
            assert(q.drop_last() =~= ev.subrange(0, i as int));
            assert(q.last() == events@[i as int]@);
        }
        let e = &events[i];
        if text_is(&e.kind, "CONFLICT_PROPOSAL_RECEIVED") && (text_is(&e.proposal_kind, "YIELD_CLAIM") || text_is(
            &e.proposal_kind,
            "CO_OWN",
        ) || text_is(&e.proposal_kind, "CO_OWNERSHIP")) {
            let from = text_of(&e.from);
            if !from.as_str().is_empty() {
                let ghost before = strs(r@);
                r.push(from);
                assert(strs(r@) =~= before.push(text(e@.from)));
            }
        }
        i = i + 1;
    }
    assert(ev.subrange(0, ev.len() as int) =~= ev);
    r
}

/// The agents that touched `file`, once per touch event, in log order.
pub open spec fn touchers(ev: Seq<EventView>, file: Seq<char>) -> Seq<Seq<char>>
    decreases ev.len(),
{
    if ev.len() == 0 {
        Seq::empty()
    } else {
        let e = ev.last();
        let rest = touchers(ev.drop_last(), file);
        if is_kind(e, "FILE_TOUCHED"@) && strings_in(e.files).contains(file) {
            rest.push(text(e.agent_id))
        } else {
            rest
        }
    }
}

/// `x` is the least element of `s`.
pub open spec fn is_least(s: Seq<Seq<char>>, x: Seq<char>) -> bool {
    s.contains(x) && forall|y: Seq<char>| #[trigger] s.contains(y) ==> lex_le(x, y)
}

/// The least agent id that touched `file`.
pub fn hotzone_hero(events: &Vec<EventRecord>, file: &str) -> (r: Option<String>)
    ensures
        match r {
            Some(a) => is_least(touchers(events_view(events@), file@), a@),
            None => touchers(events_view(events@), file@).len() == 0,
        },
{
    let ghost ev = events_view(events@);
    let mut best: Option<String> = None;
    let mut i: usize = 0;
    while i < events.len()
        invariant
            ev == events_view(events@),
            i <= ev.len(),
            match best {
                Some(a) => is_least(touchers(ev.subrange(0, i as int), file@), a@),
                None => touchers(ev.subrange(0, i as int), file@).len() == 0,
            },
        decreases events.len() - i,
    {
        let ghost pre = touchers(ev.subrange(0, i as int), file@);
        proof {
            let q = ev.subrange(0, i + 1);
            assert(q.drop_last() =~= ev.subrange(0, i as int));
            assert(q.last() == events@[i as int]@);
        }
        let e = &events[i];
        if text_is(&e.kind, "FILE_TOUCHED") {
            let fs = strings_list(&e.files);
            if crate::sets::holds(&fs, file) {
                let agent = text_of(&e.agent_id);
                let ghost av = agent@;
                let ghost post = pre.push(av);
                let replace = match &best {
                    None => true,
                    Some(b) => str_lt(agent.as_str(), b.as_str()),
                };
                proof {
                    assert forall|y: Seq<char>| #[trigger] post.contains(y) <==> (pre.contains(y) || y == av) by {
                        if post.contains(y) {
                            let j = choose|j: int| 0 <= j < post.len() && post[j] == y;
                            if j < pre.len() {
                                assert(pre[j] == y);
                            }
                        }
                        if pre.contains(y) {
                            let j = choose|j: int| 0 <= j < pre.len() && pre[j] == y;
                            assert(post[j] == y);
                        }
                        if y == av {
                            assert(post[pre.len() as int] == y);
                        }
                    }
                }
                if replace {
                    proof {
                        match &best {
                            Some(b) => {
                                assert forall|y: Seq<char>| #[trigger] post.contains(y) implies lex_le(av, y) by {
                                    if pre.contains(y) {
                                        assert(lex_le(b@, y));
                                        if b@ != y {
                                            lemma_lex_transitive(av, b@, y);
                                        }
                                    }
                                }
                            },
                            None => {
                                assert forall|y: Seq<char>| #[trigger] post.contains(y) implies lex_le(av, y) by {
                                    if pre.contains(y) {
                                        let j = choose|j: int| 0 <= j < pre.len() && pre[j] == y;
                                    }
                                }
                            },
                        }
                    }
                    best = Some(agent);
                } else {
                    proof {
                        match &best {
                            Some(b) => {
                                lemma_lex_total(av, b@);
                                assert forall|y: Seq<char>| #[trigger] post.contains(y) implies lex_le(b@, y) by {
                                    if y == av {
                                        if b@ != av {
                                            lemma_lex_asymmetric(av, b@);
                                        }
                                    }
                                }
                            },
                            None => {},
                        }
                    }
                }
            }
        }
        i = i + 1;
    }
    assert(ev.subrange(0, ev.len() as int) =~= ev);
    best
}

// ---------------------------------------------------------------------------
// Badges
// ---------------------------------------------------------------------------

/// A tally count a badge goes by.
#[derive(Debug, Clone, Copy, PartialEq, Eq)]
pub enum Metric {
    ClaimsMade,
    HeatGenerated,
    TasksCompleted,
    GhostClaims,
    ConflictsInvolved,
}

pub open spec fn metric_of(t: TallyCounts, m: Metric) -> nat {
    match m {
        Metric::ClaimsMade => t.claims_made,
        Metric::HeatGenerated => t.heat_generated_sum,
        Metric::TasksCompleted => t.tasks_completed,
        Metric::GhostClaims => t.ghost_claims,
        Metric::ConflictsInvolved => t.conflicts_involved,
    }
}

fn metric_value(t: &AgentTally, m: Metric) -> (r: u64)
    ensures
        r == metric_of(t@, m),
{
    match m {
        Metric::ClaimsMade => t.claims_made,
        Metric::HeatGenerated => t.heat_generated_sum,
        Metric::TasksCompleted => t.tasks_completed,
        Metric::GhostClaims => t.ghost_claims,
        Metric::ConflictsInvolved => t.conflicts_involved,
    }
}

/// `v[i]` has the highest value of `m`, above zero, and is the first with it.
pub open spec fn is_max_winner(v: Seq<(String, AgentTally)>, m: Metric, i: int) -> bool {
    &&& 0 <= i < v.len()
    &&& metric_of(v[i].1@, m) > 0
    &&& forall|j: int| 0 <= j < v.len() ==> metric_of((#[trigger] v[j]).1@, m) <= metric_of(v[i].1@, m)
    &&& forall|j: int| 0 <= j < i ==> metric_of((#[trigger] v[j]).1@, m) < metric_of(v[i].1@, m)
}

/// The agent with the highest value of `m` (the first, so the least id, of
/// equal ones), if that value is above zero.
pub fn badge_max_agent(v: &Vec<(String, AgentTally)>, m: Metric) -> (r: Option<String>)
    ensures
        match r {
            Some(a) => exists|i: int| #[trigger] is_max_winner(v@, m, i) && v@[i].0@ == a@,
            None => forall|j: int| 0 <= j < v@.len() ==> metric_of((#[trigger] v@[j]).1@, m) == 0,
        },
{
    if v.len() == 0 {
        return None;
    }
    let mut best: usize = 0;
    let mut i: usize = 1;
    while i < v.len()
        invariant
            best < i <= v@.len(),
            forall|j: int| 0 <= j < i ==> metric_of((#[trigger] v@[j]).1@, m) <= metric_of(v@[best as int].1@, m),
            forall|j: int| 0 <= j < best ==> metric_of((#[trigger] v@[j]).1@, m) < metric_of(v@[best as int].1@, m),
        decreases v.len() - i,
    {
        if metric_value(&v[i].1, m) > metric_value(&v[best].1, m) {
            best = i;
        }
        i = i + 1;
    }
    if metric_value(&v[best].1, m) == 0 {
        return None;
    }
    assert(is_max_winner(v@, m, best as int));
    Some(owned(v[best].0.as_str()))
}

/// A condition on a tally that a badge goes by.
#[derive(Debug, Clone, Copy, PartialEq, Eq)]
pub enum Trait {
    /// Made claims and was in no conflict.
    LoneWolf,
    /// Was in conflicts and in no arbitration.
    Pacifist,
    /// Completed every claim made, and left no ghost claim.
    Sniper,
}

pub open spec fn has_trait(t: TallyCounts, k: Trait) -> bool {
    match k {
        Trait::LoneWolf => t.claims_made > 0 && t.conflicts_involved == 0,
        Trait::Pacifist => t.conflicts_involved > 0 && t.arbitrations_involved == 0,
        Trait::Sniper => t.claims_made > 0 && t.tasks_completed == t.claims_made && t.ghost_claims == 0,
    }
}

fn trait_holds(t: &AgentTally, k: Trait) -> (r: bool)
    ensures
        r == has_trait(t@, k),
{
    match k {
        Trait::LoneWolf => t.claims_made > 0 && t.conflicts_involved == 0,
        Trait::Pacifist => t.conflicts_involved > 0 && t.arbitrations_involved == 0,
        Trait::Sniper => t.claims_made > 0 && t.tasks_completed == t.claims_made && t.ghost_claims == 0,
    }
}

/// The first agent (the least id) with the trait.
pub fn badge_first(v: &Vec<(String, AgentTally)>, k: Trait) -> (r: Option<String>)
    ensures
        match r {
            Some(a) => exists|i: int|
                0 <= i < v@.len() && (#[trigger] v@[i]).0@ == a@ && has_trait(v@[i].1@, k) && forall|j: int|
                    0 <= j < i ==> !has_trait((#[trigger] v@[j]).1@, k),
            None => forall|j: int| 0 <= j < v@.len() ==> !has_trait((#[trigger] v@[j]).1@, k),
        },
{
    let mut i: usize = 0;
    while i < v.len()
        invariant
            i <= v@.len(),
            forall|j: int| 0 <= j < i ==> !has_trait((#[trigger] v@[j]).1@, k),
        decreases v.len() - i,
    {
        if trait_holds(&v[i].1, k) {
            return Some(owned(v[i].0.as_str()));
        }
        i = i + 1;
    }
    None
}

#[derive(Debug, Clone, PartialEq, Eq)]
pub struct Badge {
    pub id: String,
    pub label: String,
    pub color: String,
    pub agent: String,
}

/// Who won each badge (the speed demon, which goes by average durations, is
/// decided apart).
#[derive(Debug, Clone)]
pub struct BadgeWinners {
    pub firestarter: Option<String>,
    pub sprinter: Option<String>,
    pub ghost_owner: Option<String>,
    pub conflict_magnet: Option<String>,
    pub diplomat: Option<String>,
    pub hotzone_hero: Option<String>,
    pub lone_wolf: Option<String>,
    pub pacifist: Option<String>,
    pub sniper: Option<String>,
}

pub open spec fn opt_str(o: Option<String>) -> Option<Seq<char>> {
    match o {
        Some(s) => Some(s@),
        None => None,
    }
}

/// The badge (id, label, colour) for a winner, if any.
pub open spec fn badge_entry(w: Option<Seq<char>>, id: Seq<char>, label: Seq<char>, color: Seq<char>) -> Seq<
    (Seq<char>, Seq<char>, Seq<char>, Seq<char>),
> {
    match w {
        Some(a) => seq![(id, label, color, a)],
        None => Seq::empty(),
    }
}

/// The badges in their fixed order, each as (id, label, colour, agent).
pub open spec fn badge_rows(w: BadgeWinners, speed_demon: Option<Seq<char>>) -> Seq<(Seq<char>, Seq<char>, Seq<char>, Seq<char>)> {
    badge_entry(opt_str(w.firestarter), "firestarter"@, "Firestarter"@, "red"@) + badge_entry(
        opt_str(w.sprinter),
        "sprinter"@,
        "Sprinter"@,
        "green"@,
    ) + badge_entry(opt_str(w.ghost_owner), "ghost"@, "Ghost"@, "gray"@) + badge_entry(
        opt_str(w.conflict_magnet),
        "conflict_magnet"@,
        "Conflict Magnet"@,
        "yellow"@,
    ) + badge_entry(opt_str(w.diplomat), "diplomat"@, "Diplomat"@, "blue"@) + badge_entry(
        opt_str(w.hotzone_hero),
        "hotzone_hero"@,
        "Hotzone Hero"@,
        "red"@,
    ) + badge_entry(opt_str(w.lone_wolf), "lone_wolf"@, "Lone Wolf"@, "gray"@) + badge_entry(
        opt_str(w.pacifist),
        "pacifist"@,
        "Pacifist"@,
        "cyan"@,
    ) + badge_entry(opt_str(w.sniper), "sniper"@, "Sniper"@, "green"@) + badge_entry(
        speed_demon,
        "speed_demon"@,
        "Speed Demon"@,
        "green"@,
    )
}

pub open spec fn badge_views(v: Seq<Badge>) -> Seq<(Seq<char>, Seq<char>, Seq<char>, Seq<char>)> {
    v.map_values(|b: Badge| (b.id@, b.label@, b.color@, b.agent@))
}

fn push_badge(out: &mut Vec<Badge>, w: &Option<String>, id: &str, label: &str, color: &str)
    ensures
        badge_views(final(out)@) == badge_views(old(out)@) + badge_entry(opt_str(*w), id@, label@, color@),
{
    let ghost before = badge_views(out@);
    match w {
        Some(a) => {
            out.push(Badge { id: owned(id), label: owned(label), color: owned(color), agent: owned(a.as_str()) });
            assert(badge_views(out@) =~= before + badge_entry(opt_str(*w), id@, label@, color@));
        },
        None => {
            assert(badge_views(out@) =~= before + badge_entry(opt_str(*w), id@, label@, color@));
        },
    }
}

/// The badges awarded, in their fixed order.
pub fn badge_list(w: &BadgeWinners, speed_demon: &Option<String>) -> (r: Vec<Badge>)
    ensures
        badge_views(r@) == badge_rows(*w, opt_str(*speed_demon)),
{
    let mut out: Vec<Badge> = Vec::new();
    assert(badge_views(out@) =~= Seq::<(Seq<char>, Seq<char>, Seq<char>, Seq<char>)>::empty());
    push_badge(&mut out, &w.firestarter, "firestarter", "Firestarter", "red");
    push_badge(&mut out, &w.sprinter, "sprinter", "Sprinter", "green");
    push_badge(&mut out, &w.ghost_owner, "ghost", "Ghost", "gray");
    push_badge(&mut out, &w.conflict_magnet, "conflict_magnet", "Conflict Magnet", "yellow");
    push_badge(&mut out, &w.diplomat, "diplomat", "Diplomat", "blue");
    push_badge(&mut out, &w.hotzone_hero, "hotzone_hero", "Hotzone Hero", "red");
    push_badge(&mut out, &w.lone_wolf, "lone_wolf", "Lone Wolf", "gray");
    push_badge(&mut out, &w.pacifist, "pacifist", "Pacifist", "cyan");
    push_badge(&mut out, &w.sniper, "sniper", "Sniper", "green");
    push_badge(&mut out, speed_demon, "speed_demon", "Speed Demon", "green");
    proof {
        assert(badge_views(out@) =~= badge_rows(*w, opt_str(*speed_demon)));
    }
    out
}

/// The most fought-over file (the least name among equals) and its count.
pub fn battleground(events: &Vec<EventRecord>) -> (r: Option<(String, u64)>)
    ensures
        match r {
            Some((f, n)) => is_top(counts_of(battle_files(events_view(events@))), f@, n),
            None => battle_files(events_view(events@)).len() == 0,
        },
{
    let keys = battle_keys(events);
    let counts = count_keys(&keys);
    let r = top_count(&counts);
    proof {
        if r is None && strs(keys@).len() > 0 {
            assert(counts_of(strs(keys@)).dom().contains(strs(keys@)[0]));
        }
    }
    r
}

/// The most conciliatory proposer (the least id among equals).
pub fn diplomat(events: &Vec<EventRecord>) -> (r: Option<(String, u64)>)
    ensures
        match r {
            Some((a, n)) => is_top(counts_of(diplomats(events_view(events@))), a@, n),
            None => diplomats(events_view(events@)).len() == 0,
        },
{
    let keys = diplomat_keys(events);
    let counts = count_keys(&keys);
    match top_count(&counts) {
        Some((a, n)) => Some((a, n)),
        None => {
            proof {
                if strs(keys@).len() > 0 {
                    assert(counts_of(strs(keys@)).dom().contains(strs(keys@)[0]));
                }
            }
            None
        },
    }
}

pub open spec fn max_badge(v: Seq<(String, AgentTally)>, m: Metric, w: Option<Seq<char>>) -> bool {
    match w {
        Some(a) => exists|i: int| #[trigger] is_max_winner(v, m, i) && v[i].0@ == a,
        None => forall|j: int| 0 <= j < v.len() ==> metric_of((#[trigger] v[j]).1@, m) == 0,
    }
}

pub open spec fn trait_badge(v: Seq<(String, AgentTally)>, k: Trait, w: Option<Seq<char>>) -> bool {
    match w {
        Some(a) => exists|i: int|
            0 <= i < v.len() && (#[trigger] v[i]).0@ == a && has_trait(v[i].1@, k) && forall|j: int|
                0 <= j < i ==> !has_trait((#[trigger] v[j]).1@, k),
        None => forall|j: int| 0 <= j < v.len() ==> !has_trait((#[trigger] v[j]).1@, k),
    }
}

/// Who wins each badge, from the per-agent tallies (in agent order), the
/// events, and the battleground.
pub fn badge_winners(agents: &Vec<(String, AgentTally)>, events: &Vec<EventRecord>, bg: &Option<(String, u64)>) -> (r:
    BadgeWinners)
    ensures
        max_badge(agents@, Metric::HeatGenerated, opt_str(r.firestarter)),
        max_badge(agents@, Metric::TasksCompleted, opt_str(r.sprinter)),
        max_badge(agents@, Metric::GhostClaims, opt_str(r.ghost_owner)),
        max_badge(agents@, Metric::ConflictsInvolved, opt_str(r.conflict_magnet)),
        match r.diplomat {
            Some(a) => is_top_key(counts_of(diplomats(events_view(events@))), a@),
            None => diplomats(events_view(events@)).len() == 0,
        },
        match bg {
            Some((f, _)) => match r.hotzone_hero {
                Some(a) => is_least(touchers(events_view(events@), f@), a@),
                None => touchers(events_view(events@), f@).len() == 0,
            },
            None => r.hotzone_hero is None,
        },
        trait_badge(agents@, Trait::LoneWolf, opt_str(r.lone_wolf)),
        trait_badge(agents@, Trait::Pacifist, opt_str(r.pacifist)),
        trait_badge(agents@, Trait::Sniper, opt_str(r.sniper)),
{
    let hero = match bg {
        Some((f, _)) => hotzone_hero(events, f.as_str()),
        None => None,
    };
    let dip = match diplomat(events) {
        Some((a, n)) => {
            proof {
                assert(is_top(counts_of(diplomats(events_view(events@))), a@, n));
            }
            Some(a)
        },
        None => None,
    };
    BadgeWinners {
        firestarter: badge_max_agent(agents, Metric::HeatGenerated),
        sprinter: badge_max_agent(agents, Metric::TasksCompleted),
        ghost_owner: badge_max_agent(agents, Metric::GhostClaims),
        conflict_magnet: badge_max_agent(agents, Metric::ConflictsInvolved),
        diplomat: dip,
        hotzone_hero: hero,
        lone_wolf: badge_first(agents, Trait::LoneWolf),
        pacifist: badge_first(agents, Trait::Pacifist),
        sniper: badge_first(agents, Trait::Sniper),
    }
}

// ---------------------------------------------------------------------------
// Narrative
// ---------------------------------------------------------------------------

/// The recap line.
pub open spec fn recap_line(agents: nat, claims: nat, conflicts: nat, resolved: nat, escalated: nat, deadlocks: nat) -> Seq<char> {
    "Session recap: "@ + decimal(agents) + " agents, "@ + decimal(claims) + " claims, "@ + decimal(conflicts)
        + " conflicts ("@ + decimal(resolved) + " resolved, "@ + decimal(escalated) + " escalated), "@ + decimal(
        deadlocks,
    ) + " deadlocks.\n"@
}

/// One line per badge.
pub open spec fn badge_lines(rows: Seq<(Seq<char>, Seq<char>, Seq<char>, Seq<char>)>) -> Seq<char>
    decreases rows.len(),
{
    if rows.len() == 0 {
        Seq::empty()
    } else {
        badge_lines(rows.drop_last()) + rows.last().1 + ": "@ + rows.last().3 + ".\n"@
    }
}

/// The plain-text recap: a quiet-session line when nobody joined, claimed or
/// fought; the recap line; a line per badge; the battleground.
pub open spec fn narrative_text(
    agents: nat,
    claims: nat,
    conflicts: nat,
    resolved: nat,
    escalated: nat,
    deadlocks: nat,
    rows: Seq<(Seq<char>, Seq<char>, Seq<char>, Seq<char>)>,
    bg: Option<Seq<char>>,
) -> Seq<char> {
    let quiet = if agents == 0 && claims == 0 && conflicts == 0 {
        "Quiet session -- no conflicts, no drama.\n"@
    } else {
        Seq::empty()
    };
    let tail = match bg {
        Some(f) => "The battleground was "@ + f + ".\n"@,
        None => Seq::empty(),
    };
    quiet + recap_line(agents, claims, conflicts, resolved, escalated, deadlocks) + badge_lines(rows) + tail
}

/// The session's narrative.
pub fn narrative(stats: &SessionStats, badges: &Vec<Badge>, bg: &Option<(String, u64)>) -> (r: String)
    requires
        stats.auto_resolved_heat_dropped + stats.negotiated_resolved <= u64::MAX,
    ensures
        r@ == narrative_text(
            stats.agents_seen as nat,
            stats.claims_created as nat,
            stats.conflicts_opened as nat,
            (stats.auto_resolved_heat_dropped + stats.negotiated_resolved) as nat,
            stats.escalated as nat,
            stats.deadlocks as nat,
            badge_views(badges@),
            match bg {
                Some((f, _)) => Some(f@),
                None => None,
            },
        ),
{
    let resolved = stats.auto_resolved_heat_dropped + stats.negotiated_resolved;
    let mut s = String::new();
    if stats.agents_seen == 0 && stats.claims_created == 0 && stats.conflicts_opened == 0 {
        push_str(&mut s, "Quiet session -- no conflicts, no drama.\n");
    }
    let ghost quiet = s@;
    push_str(&mut s, "Session recap: ");
    push_decimal(&mut s, stats.agents_seen);
    push_str(&mut s, " agents, ");
    push_decimal(&mut s, stats.claims_created);
    push_str(&mut s, " claims, ");
    push_decimal(&mut s, stats.conflicts_opened);
    push_str(&mut s, " conflicts (");
    push_decimal(&mut s, resolved);
    push_str(&mut s, " resolved, ");
    push_decimal(&mut s, stats.escalated);
    push_str(&mut s, " escalated), ");
    push_decimal(&mut s, stats.deadlocks);
    push_str(&mut s, " deadlocks.\n");
    let ghost head = s@;
    proof {
        assert(head =~= quiet + recap_line(
            stats.agents_seen as nat,
            stats.claims_created as nat,
            stats.conflicts_opened as nat,
            resolved as nat,
            stats.escalated as nat,
            stats.deadlocks as nat,
        ));
        assert(badge_views(badges@).subrange(0, 0) =~= Seq::<(Seq<char>, Seq<char>, Seq<char>, Seq<char>)>::empty());
        assert(s@ =~= head + badge_lines(badge_views(badges@).subrange(0, 0)));
    }
    let mut i: usize = 0;
    while i < badges.len()
        invariant
            i <= badges@.len(),
            s@ == head + badge_lines(badge_views(badges@).subrange(0, i as int)),
        decreases badges.len() - i,
    {
        let b = &badges[i];
        push_str(&mut s, b.label.as_str());
        push_str(&mut s, ": ");
        push_str(&mut s, b.agent.as_str());
        push_str(&mut s, ".\n");
        proof {
            let rows = badge_views(badges@).subrange(0, i + 1);
            assert(rows.drop_last() =~= badge_views(badges@).subrange(0, i as int));
            assert(rows.last() == (b.id@, b.label@, b.color@, b.agent@));
            assert(s@ =~= head + badge_lines(rows));
        }
        i = i + 1;
    }
    let ghost body = s@;
    match bg {
        Some((f, _)) => {
            push_str(&mut s, "The battleground was ");
            push_str(&mut s, f.as_str());
            push_str(&mut s, ".\n");
        },
        None => {},
    }
    proof {
        assert(badge_views(badges@).subrange(0, badges@.len() as int) =~= badge_views(badges@));
    }
    s
}

// ---------------------------------------------------------------------------
// Leaderboards
// ---------------------------------------------------------------------------

/// `(a, x)` ranks before `(b, y)`: higher value first, then lower agent id.
pub open spec fn ranks_before(a: Seq<char>, x: u64, b: Seq<char>, y: u64) -> bool {
    x > y || (x == y && lex_lt(a, b))
}

pub open spec fn entry_views(v: Seq<(String, u64)>) -> Seq<(Seq<char>, u64)> {
    v.map_values(|e: (String, u64)| (e.0@, e.1))
}

/// A leaderboard: the agents with a positive value, best first.
#[derive(Debug, Clone)]
pub struct Leaderboard {
    pub metric: String,
    pub color: String,
    pub entries: Vec<(String, u64)>,
}

proof fn lemma_insert_contains<A>(s: Seq<A>, p: int, x: A, e: A)
    requires
        0 <= p <= s.len(),
    ensures
        s.insert(p, x).contains(e) <==> (s.contains(e) || e == x),
{
    let t = s.insert(p, x);
    if t.contains(e) {
        let k = choose|k: int| 0 <= k < t.len() && t[k] == e;
        if k < p {
            assert(s[k] == e);
        } else if k > p {
            assert(s[k - 1] == e);
        }
    }
    if s.contains(e) {
        let k = choose|k: int| 0 <= k < s.len() && s[k] == e;
        if k < p {
            assert(t[k] == e);
        } else {
            assert(t[k + 1] == e);
        }
    }
    if e == x {
        assert(t[p] == e);
    }
}

proof fn lemma_push_contains<A>(s: Seq<A>, x: A, e: A)
    ensures
        s.push(x).contains(e) <==> (s.contains(e) || e == x),
{
    lemma_insert_contains(s, s.len() as int, x, e);
    assert(s.insert(s.len() as int, x) =~= s.push(x));
}

/// The leaderboard of the pairs with a positive value, ordered by value
/// (highest first), then by agent id. The agents are distinct.
pub fn make_leaderboard(metric: &str, color: &str, pairs: &Vec<(String, u64)>) -> (r: Leaderboard)
    requires
        sorted_unique(key_strs(pairs@)),
    ensures
        r.metric@ == metric@,
        r.color@ == color@,
        forall|i: int, j: int|
            0 <= i < j < r.entries@.len() ==> ranks_before(
                (#[trigger] r.entries@[i]).0@,
                r.entries@[i].1,
                (#[trigger] r.entries@[j]).0@,
                r.entries@[j].1,
            ),
        forall|e: (Seq<char>, u64)| entry_views(r.entries@).contains(e) <==> (entry_views(pairs@).contains(e) && e.1 > 0),
{
    let ghost src = entry_views(pairs@);
    let mut out: Vec<(String, u64)> = Vec::new();
    let mut i: usize = 0;
    while i < pairs.len()
        invariant
            src == entry_views(pairs@),
            sorted_unique(key_strs(pairs@)),
            i <= pairs@.len(),
            forall|a: int, b: int|
                0 <= a < b < out@.len() ==> ranks_before(
                    (#[trigger] out@[a]).0@,
                    out@[a].1,
                    (#[trigger] out@[b]).0@,
                    out@[b].1,
                ),
            forall|e: (Seq<char>, u64)|
                entry_views(out@).contains(e) <==> (src.subrange(0, i as int).contains(e) && e.1 > 0),
        decreases pairs.len() - i,
    {
        let name = pairs[i].0.as_str();
        let v = pairs[i].1;
        let ghost x = (name@, v);
        let ghost before = entry_views(out@);
        proof {
            // The new agent differs from every agent already placed.
            assert forall|k: int| 0 <= k < out@.len() implies (#[trigger] out@[k]).0@ != name@ by {
                assert(before.contains(before[k]));
                assert(before[k] == (out@[k].0@, out@[k].1));
                let j = choose|j: int| 0 <= j < i && src.subrange(0, i as int)[j] == before[k];
                assert(src[j] == before[k]);
                assert(key_strs(pairs@)[j] == out@[k].0@);
                assert(key_strs(pairs@)[i as int] == name@);
                assert(lex_lt(key_strs(pairs@)[j], key_strs(pairs@)[i as int]));
                lemma_lex_irreflexive(name@);
            }
        }
        if v > 0 {
            let mut p: usize = 0;
            while p < out.len() && (out[p].1 > v || (out[p].1 == v && str_lt(out[p].0.as_str(), name)))
                invariant
                    p <= out@.len(),
                    forall|k: int| 0 <= k < p ==> ranks_before((#[trigger] out@[k]).0@, out@[k].1, name@, v),
                decreases out.len() - p,
            {
                p = p + 1;
            }
            proof {
                if p < out@.len() {
                    lemma_lex_total(out@[p as int].0@, name@);
                    assert(ranks_before(name@, v, out@[p as int].0@, out@[p as int].1));
                    assert forall|k: int| p <= k < out@.len() implies ranks_before(name@, v, (#[trigger] out@[k]).0@, out@[k].1) by {
                        if k > p {
                            assert(ranks_before(out@[p as int].0@, out@[p as int].1, out@[k].0@, out@[k].1));
                            if v == out@[p as int].1 && out@[p as int].1 == out@[k].1 {
                                lemma_lex_transitive(name@, out@[p as int].0@, out@[k].0@);
                            }
                        }
                    }
                }
            }
            let ghost old_out = out@;
            out.insert(p, (owned(name), v));
            proof {
                let o = out@;
                assert(o =~= old_out.insert(p as int, o[p as int]));
                assert forall|a: int, b: int| 0 <= a < b < o.len() implies ranks_before(
                    (#[trigger] o[a]).0@,
                    o[a].1,
                    (#[trigger] o[b]).0@,
                    o[b].1,
                ) by {
                    if b < p {
                        assert(o[a] == old_out[a] && o[b] == old_out[b]);
                    } else if b == p {
                        assert(o[a] == old_out[a]);
                    } else if a < p {
                        assert(o[a] == old_out[a] && o[b] == old_out[b - 1]);
                        let (na, va) = (old_out[a].0@, old_out[a].1);
                        let (nb, vb) = (old_out[b - 1].0@, old_out[b - 1].1);
                        if va == v && v == vb {
                            lemma_lex_transitive(na, name@, nb);
                        }
                    } else if a == p {
                        assert(o[b] == old_out[b - 1]);
                    } else {
                        assert(o[a] == old_out[a - 1] && o[b] == old_out[b - 1]);
                    }
                }
                assert(entry_views(o) =~= before.insert(p as int, x));
                assert(exists|p2: int| 0 <= p2 <= before.len() && entry_views(out@) == before.insert(p2, x));
            }
        }
        proof {
            let now = entry_views(out@);
            let pre = src.subrange(0, i as int);
            let post = src.subrange(0, i + 1);
            assert(post =~= pre.push(x));
            assert forall|e: (Seq<char>, u64)| now.contains(e) <==> (post.contains(e) && e.1 > 0) by {
                lemma_push_contains(pre, x, e);
                if v > 0 {
                    let p2 = choose|p2: int| 0 <= p2 <= before.len() && now == before.insert(p2, x);
                    lemma_insert_contains(before, p2, x, e);
                }
            }
        }
        i = i + 1;
    }
    proof {
        assert(src.subrange(0, pairs@.len() as int) =~= src);
    }
    Leaderboard { metric: owned(metric), color: owned(color), entries: out }
}

// ---------------------------------------------------------------------------
// Files touched per agent
// ---------------------------------------------------------------------------

/// (agent, file) for every file named by a touch event, in log order.
pub open spec fn touch_pairs(ev: Seq<EventView>) -> Seq<(Seq<char>, Seq<char>)>
    decreases ev.len(),
{
    if ev.len() == 0 {
        Seq::empty()
    } else {
        let e = ev.last();
        let rest = touch_pairs(ev.drop_last());
        if is_kind(e, "FILE_TOUCHED"@) {
            rest + strings_in(e.files).map_values(|f: Seq<char>| (text(e.agent_id), f))
        } else {
            rest
        }
    }
}

/// The files agent `a` touched, with repeats.
pub open spec fn files_by(tp: Seq<(Seq<char>, Seq<char>)>, a: Seq<char>) -> Seq<Seq<char>> {
    tp.filter(|p: (Seq<char>, Seq<char>)| p.0 == a).map_values(|p: (Seq<char>, Seq<char>)| p.1)
}

/// How many distinct files each agent touched.
pub open spec fn files_touched_map(tp: Seq<(Seq<char>, Seq<char>)>) -> Map<Seq<char>, u64> {
    Map::new(|a: Seq<char>| files_by(tp, a).len() > 0, |a: Seq<char>| files_by(tp, a).to_set().len() as u64)
}

proof fn lemma_files_by_push(tp: Seq<(Seq<char>, Seq<char>)>, x: (Seq<char>, Seq<char>), a: Seq<char>)
    ensures
        files_by(tp.push(x), a) == if x.0 == a { files_by(tp, a).push(x.1) } else { files_by(tp, a) },
{
    let p = |q: (Seq<char>, Seq<char>)| q.0 == a;
    let t = tp.push(x);
    assert(t.drop_last() =~= tp);
    reveal_with_fuel(Seq::filter, 1);
    assert(t.filter(p) == if p(x) { tp.filter(p).push(x) } else { tp.filter(p) });
    if x.0 == a {
        assert(files_by(t, a) =~= files_by(tp, a).push(x.1));
    }
}

/// How many distinct files each agent touched, by agent in string order.
pub fn files_touched_per_agent(events: &Vec<EventRecord>) -> (r: Vec<(String, u64)>)
    ensures
        sorted_unique(key_strs(r@)),
        entry_map(r@, str_key()) == files_touched_map(touch_pairs(events_view(events@))),
{
    let ghost ev = events_view(events@);
    // Per agent, the set of its files in string order.
    let mut sets: Vec<(String, Vec<String>)> = Vec::new();
    let mut i: usize = 0;
    proof {
        assert(touch_pairs(ev.subrange(0, 0)) =~= Seq::<(Seq<char>, Seq<char>)>::empty());
        assert forall|a: Seq<char>| #[trigger] files_by(touch_pairs(ev.subrange(0, 0)), a).len() == 0 by {
            assert(files_by(touch_pairs(ev.subrange(0, 0)), a) =~= Seq::<Seq<char>>::empty());
        }
    }
    while i < events.len()
        invariant
            ev == events_view(events@),
            i <= ev.len(),
            sorted_unique(key_strs(sets@)),
            forall|k: int| 0 <= k < sets@.len() ==> sorted_unique(strs((#[trigger] sets@[k]).1@)),
            forall|a: Seq<char>|
                #[trigger] has_key(sets@, str_key(), a) <==> files_by(touch_pairs(ev.subrange(0, i as int)), a).len() > 0,
            forall|k: int, f: Seq<char>|
                0 <= k < sets@.len() ==> (#[trigger] strs(sets@[k].1@).contains(f) <==> files_by(
                    touch_pairs(ev.subrange(0, i as int)),
                    sets@[k].0@,
                ).contains(f)),
        decreases events.len() - i,
    {
        let ghost tp0 = touch_pairs(ev.subrange(0, i as int));
        proof {
            let q = ev.subrange(0, i + 1);
            assert(q.drop_last() =~= ev.subrange(0, i as int));
            assert(q.last() == events@[i as int]@);
        }
        let e = &events[i];
        if text_is(&e.kind, "FILE_TOUCHED") {
            let agent = text_of(&e.agent_id);
            let fs = strings_list(&e.files);
            let ghost added = strs(fs@).map_values(|f: Seq<char>| (agent@, f));
            let mut k: usize = 0;
            while k < fs.len()
                invariant
                    k <= fs@.len(),
                    added == strs(fs@).map_values(|f: Seq<char>| (agent@, f)),
                    sorted_unique(key_strs(sets@)),
                    forall|j: int| 0 <= j < sets@.len() ==> sorted_unique(strs((#[trigger] sets@[j]).1@)),
                    forall|a: Seq<char>|
                        #[trigger] has_key(sets@, str_key(), a) <==> files_by(tp0 + added.subrange(0, k as int), a).len() > 0,
                    forall|j: int, f: Seq<char>|
                        0 <= j < sets@.len() ==> (#[trigger] strs(sets@[j].1@).contains(f) <==> files_by(
                            tp0 + added.subrange(0, k as int),
                            sets@[j].0@,
                        ).contains(f)),
                decreases fs.len() - k,
            {
                let ghost cur = tp0 + added.subrange(0, k as int);
                let ghost x = (agent@, fs@[k as int]@);
                let ghost nxt = tp0 + added.subrange(0, k + 1);
                proof {
                    assert(nxt =~= cur.push(x));
                    assert forall|a: Seq<char>| #[trigger] files_by(nxt, a) == (if x.0 == a { files_by(cur, a).push(x.1) } else {
                        files_by(cur, a)
                    }) by {
                        lemma_files_by_push(cur, x, a);
                    }
                    lemma_sorted_keys_distinct(sets@);
                }
                let (pos, found) = find_key(&sets, agent.as_str());
                let ghost old_sets = sets@;
                if found {
                    let (name, mut files) = sets.remove(pos);
                    let ghost old_files = strs(files@);
                    crate::sets::insert_sorted(&mut files, owned(fs[k].as_str()));
                    sets.insert(pos, (name, files));
                    proof {
                        assert(sets@ =~= old_sets.update(pos as int, sets@[pos as int]));
                        assert(key_strs(sets@) =~= key_strs(old_sets));
                        assert forall|a: Seq<char>| #[trigger] has_key(sets@, str_key(), a) <==> files_by(nxt, a).len() > 0 by {
                            if has_key(sets@, str_key(), a) {
                                let j = choose|j: int| 0 <= j < sets@.len() && str_key()((#[trigger] sets@[j]).0) == a;
                                assert(str_key()(old_sets[j].0) == a);
                            }
                            if has_key(old_sets, str_key(), a) {
                                let j = choose|j: int| 0 <= j < old_sets.len() && str_key()((#[trigger] old_sets[j]).0) == a;
                                assert(str_key()(sets@[j].0) == a);
                            }
                            if a == x.0 {
                                assert(str_key()(sets@[pos as int].0) == a);
                            }
                        }
                        assert forall|j: int, f: Seq<char>|
                            0 <= j < sets@.len() implies (#[trigger] strs(sets@[j].1@).contains(f) <==> files_by(
                                nxt,
                                sets@[j].0@,
                            ).contains(f)) by {
                            if j != pos {
                                assert(sets@[j] == old_sets[j]);
                                assert(key_strs(old_sets)[j] != key_strs(old_sets)[pos as int]) by {
                                    if j < pos {
                                        assert(lex_lt(key_strs(old_sets)[j], key_strs(old_sets)[pos as int]));
                                    } else {
                                        assert(lex_lt(key_strs(old_sets)[pos as int], key_strs(old_sets)[j]));
                                    }
                                    lemma_lex_irreflexive(key_strs(old_sets)[j]);
                                }
                            } else {
                                lemma_push_contains(files_by(cur, x.0), x.1, f);
                            }
                        }
                    }
                } else {
                    let mut files: Vec<String> = Vec::new();
                    crate::sets::insert_sorted(&mut files, owned(fs[k].as_str()));
                    let ghost nf = strs(files@);
                    sets.insert(pos, (owned(agent.as_str()), files));
                    proof {
                        let ks = key_strs(old_sets);
                        let kt = key_strs(sets@);
                        assert(kt =~= ks.insert(pos as int, agent@));
                        assert forall|a2: int, c: int| 0 <= a2 < c < kt.len() implies lex_lt(#[trigger] kt[a2], #[trigger] kt[c]) by {
                            if c < pos {
                            } else if c == pos {
                            } else if a2 < pos {
                                lemma_lex_transitive(ks[a2], agent@, ks[c - 1]);
                            } else if a2 == pos {
                            } else {
                            }
                        }
                        assert(!has_key(old_sets, str_key(), agent@));
                        assert(files_by(cur, agent@).len() == 0);
                        assert forall|a: Seq<char>| #[trigger] has_key(sets@, str_key(), a) <==> files_by(nxt, a).len() > 0 by {
                            if has_key(sets@, str_key(), a) {
                                let j = choose|j: int| 0 <= j < sets@.len() && str_key()((#[trigger] sets@[j]).0) == a;
                                if j < pos {
                                    assert(sets@[j] == old_sets[j]);
                                } else if j > pos {
                                    assert(sets@[j] == old_sets[j - 1]);
                                }
                            }
                            if has_key(old_sets, str_key(), a) {
                                let j = choose|j: int| 0 <= j < old_sets.len() && str_key()((#[trigger] old_sets[j]).0) == a;
                                if j < pos {
                                    assert(str_key()(sets@[j].0) == a);
                                } else {
                                    assert(str_key()(sets@[j + 1].0) == a);
                                }
                            }
                            if a == x.0 {
                                assert(str_key()(sets@[pos as int].0) == a);
                            }
                        }
                        assert forall|j: int, f: Seq<char>|
                            0 <= j < sets@.len() implies (#[trigger] strs(sets@[j].1@).contains(f) <==> files_by(
                                nxt,
                                sets@[j].0@,
                            ).contains(f)) by {
                            if j < pos {
                                assert(sets@[j] == old_sets[j]);
                                assert(ks[j] != agent@) by { lemma_lex_irreflexive(agent@); }
                            } else if j > pos {
                                assert(sets@[j] == old_sets[j - 1]);
                                assert(ks[j - 1] != agent@) by { lemma_lex_irreflexive(agent@); }
                            } else {
                                assert(files_by(cur, agent@) =~= Seq::<Seq<char>>::empty());
                                lemma_push_contains(files_by(cur, agent@), x.1, f);
                            }
                        }
                        assert forall|j: int| 0 <= j < sets@.len() implies sorted_unique(strs((#[trigger] sets@[j]).1@)) by {
                            if j < pos {
                                assert(sets@[j] == old_sets[j]);
                            } else if j > pos {
                                assert(sets@[j] == old_sets[j - 1]);
                            }
                        }
                    }
                }
                k = k + 1;
            }
            proof {
                assert(added.subrange(0, fs@.len() as int) =~= added);
                assert(touch_pairs(ev.subrange(0, i + 1)) == tp0 + added);
            }
        } else {
            proof {
                assert(touch_pairs(ev.subrange(0, i + 1)) == tp0);
            }
        }
        i = i + 1;
    }
    proof {
        assert(ev.subrange(0, ev.len() as int) =~= ev);
    }
    // The sizes of the sets.
    let ghost tp = touch_pairs(ev);
    let mut r: Vec<(String, u64)> = Vec::new();
    let mut j: usize = 0;
    while j < sets.len()
        invariant
            j <= sets@.len(),
            sorted_unique(key_strs(sets@)),
            forall|k: int| 0 <= k < sets@.len() ==> sorted_unique(strs((#[trigger] sets@[k]).1@)),
            forall|k: int, f: Seq<char>|
                0 <= k < sets@.len() ==> (#[trigger] strs(sets@[k].1@).contains(f) <==> files_by(tp, sets@[k].0@).contains(f)),
            r@.len() == j,
            forall|k: int|
                0 <= k < j ==> (#[trigger] r@[k]).0@ == sets@[k].0@ && r@[k].1 == files_by(tp, sets@[k].0@).to_set().len(),
        decreases sets.len() - j,
    {
        let n = sets[j].1.len();
        proof {
            let fv = strs(sets@[j as int].1@);
            lemma_sorted_len(fv);
            assert(fv.to_set() =~= files_by(tp, sets@[j as int].0@).to_set());
        }
        r.push((owned(sets[j].0.as_str()), n as u64));
        j = j + 1;
    }
    proof {
        assert(key_strs(r@) =~= key_strs(sets@));
        lemma_sorted_keys_distinct(r@);
        lemma_sorted_keys_distinct(sets@);
        let m = entry_map(r@, str_key());
        let want = files_touched_map(tp);
        assert forall|a: Seq<char>| #[trigger] m.dom().contains(a) <==> want.dom().contains(a) by {
            if has_key(r@, str_key(), a) {
                let k = choose|k: int| 0 <= k < r@.len() && str_key()((#[trigger] r@[k]).0) == a;
                assert(str_key()(sets@[k].0) == a);
            }
            if has_key(sets@, str_key(), a) {
                let k = choose|k: int| 0 <= k < sets@.len() && str_key()((#[trigger] sets@[k]).0) == a;
                assert(str_key()(r@[k].0) == a);
            }
        }
        assert forall|a: Seq<char>| #[trigger] m.dom().contains(a) implies m[a] == want[a] by {
            let k = choose|k: int| 0 <= k < r@.len() && str_key()((#[trigger] r@[k]).0) == a;
            lemma_entry_lookup(r@, str_key(), k);
        }
        assert(m =~= want);
    }
    r
}

// ---------------------------------------------------------------------------
// The biggest heat spike
// ---------------------------------------------------------------------------

/// The unordered pair a heat report is about.
pub open spec fn heat_pair(e: EventView) -> Option<(Seq<char>, Seq<char>)> {
    if is_kind(e, "HEAT_UPDATED"@) && two_of(e.pair) is Some {
        let p = two_of(e.pair).unwrap();
        Some(crate::conflict::pair_key(p.0, p.1))
    } else {
        None
    }
}

/// The heat last reported for pair `k`.
pub open spec fn last_heat(ev: Seq<EventView>, k: (Seq<char>, Seq<char>)) -> Option<u64>
    decreases ev.len(),
{
    if ev.len() == 0 {
        None
    } else if heat_pair(ev.last()) == Some(k) {
        Some(heat_of(ev.last()))
    } else {
        last_heat(ev.drop_last(), k)
    }
}

/// A rise of heat: the pair, the heat before and after, and the rise.
#[derive(Debug, Clone)]
pub struct Spike {
    pub a: String,
    pub b: String,
    pub from: u64,
    pub to: u64,
    pub delta: u64,
}

pub struct SpikeView {
    pub pair: (Seq<char>, Seq<char>),
    pub from: u64,
    pub to: u64,
    pub delta: u64,
}

/// The rise reported by event `j`, if it reports a higher heat for a pair
/// than the pair's previous report.
pub open spec fn spike_at(ev: Seq<EventView>, j: int) -> Option<SpikeView> {
    match heat_pair(ev[j]) {
        Some(k) => match last_heat(ev.subrange(0, j), k) {
            Some(prev) => if heat_of(ev[j]) > prev {
                Some(SpikeView { pair: k, from: prev, to: heat_of(ev[j]), delta: (heat_of(ev[j]) - prev) as u64 })
            } else {
                None
            },
            None => None,
        },
        None => None,
    }
}

/// The biggest rise, the earliest of equal ones.
pub open spec fn is_biggest_spike(ev: Seq<EventView>, s: SpikeView) -> bool {
    exists|j: int|
        0 <= j < ev.len() && #[trigger] spike_at(ev, j) == Some(s) && forall|k: int|
            0 <= k < ev.len() && (#[trigger] spike_at(ev, k)) is Some ==> spike_at(ev, k)->0.delta <= s.delta && (k
                < j ==> spike_at(ev, k)->0.delta < s.delta)
}

/// The biggest rise of heat between a pair.
pub fn biggest_spike(events: &Vec<EventRecord>) -> (r: Option<Spike>)
    ensures
        match r {
            Some(s) => is_biggest_spike(events_view(events@), SpikeView { pair: (s.a@, s.b@), from: s.from, to: s.to, delta: s.delta }),
            None => forall|j: int| 0 <= j < events@.len() ==> (#[trigger] spike_at(events_view(events@), j)) is None,
        },
{
    let ghost ev = events_view(events@);
    let ghost kv = crate::knowledge::pair_view();
    let mut last: Vec<((String, String), u64)> = Vec::new();
    let mut best: Option<Spike> = None;
    let ghost mut best_j: int = 0;
    let mut i: usize = 0;
    proof {
        crate::entries::lemma_entry_empty::<(String, String), (Seq<char>, Seq<char>), u64>(kv);
    }
    while i < events.len()
        invariant
            ev == events_view(events@),
            kv == crate::knowledge::pair_view(),
            i <= ev.len(),
            crate::entries::keys_distinct(last@, kv),
            forall|k: (Seq<char>, Seq<char>)|
                #[trigger] entry_map(last@, kv).dom().contains(k) <==> last_heat(ev.subrange(0, i as int), k) is Some,
            forall|k: (Seq<char>, Seq<char>)|
                entry_map(last@, kv).dom().contains(k) ==> Some(#[trigger] entry_map(last@, kv)[k]) == last_heat(
                    ev.subrange(0, i as int),
                    k,
                ),
            match best {
                Some(s) => {
                    &&& 0 <= best_j < i
                    &&& spike_at(ev, best_j) == Some(SpikeView { pair: (s.a@, s.b@), from: s.from, to: s.to, delta: s.delta })
                    &&& forall|k: int|
                        0 <= k < i && (#[trigger] spike_at(ev, k)) is Some ==> spike_at(ev, k)->0.delta <= s.delta && (k
                            < best_j ==> spike_at(ev, k)->0.delta < s.delta)
                },
                None => forall|k: int| 0 <= k < i ==> (#[trigger] spike_at(ev, k)) is None,
            },
        decreases events.len() - i,
    {
        let ghost pre = ev.subrange(0, i as int);
        proof {
            let q = ev.subrange(0, i + 1);
            assert(q.drop_last() =~= pre);
            assert(q.last() == events@[i as int]@);
            assert(ev[i as int] == events@[i as int]@);
        }
        let e = &events[i];
        let mut keyed: Option<(String, String)> = None;
        if text_is(&e.kind, "HEAT_UPDATED") {
            match two_strings(&e.pair) {
                Some((a, b)) => {
                    keyed = Some(crate::conflict::key(a.as_str(), b.as_str()));
                },
                None => {},
            }
        }
        proof {
            match &keyed {
                Some(k) => assert(heat_pair(ev[i as int]) == Some((k.0@, k.1@))),
                None => assert(heat_pair(ev[i as int]) is None),
            }
        }
        match keyed {
            None => {
                proof {
                    assert(spike_at(ev, i as int) is None);
                    assert forall|k: (Seq<char>, Seq<char>)| last_heat(ev.subrange(0, i + 1), k) == last_heat(pre, k) by {}
                }
            },
            Some(k) => {
                let h = match e.heat {
                    Some(h) => h,
                    None => 0,
                };
                let ghost kk = (k.0@, k.1@);
                // The pair's previous heat.
                let mut pos: usize = 0;
                let mut found = false;
                while pos < last.len() && !found
                    invariant
                        pos <= last@.len(),
                        !found ==> forall|t: int| 0 <= t < pos ==> kv((#[trigger] last@[t]).0) != kk,
                        found ==> pos < last@.len() && kv(last@[pos as int].0) == kk,
                        kv == crate::knowledge::pair_view(),
                        kk == (k.0@, k.1@),
                    decreases last.len() - pos + if found { 0usize } else { 1usize },
                {
                    if str_eq((last[pos].0).0.as_str(), k.0.as_str()) && str_eq((last[pos].0).1.as_str(), k.1.as_str()) {
                        found = true;
                    } else {
                        pos = pos + 1;
                    }
                }
                proof {
                    if found {
                        lemma_entry_lookup(last@, kv, pos as int);
                        assert(last_heat(pre, kk) == Some(last@[pos as int].1));
                    } else {
                        assert(!has_key(last@, kv, kk));
                        assert(!entry_map(last@, kv).dom().contains(kk));
                        assert(last_heat(pre, kk) is None);
                    }
                    assert(heat_of(ev[i as int]) == h);
                }
                if found {
                    let prev = last[pos].1;
                    if h > prev {
                        let delta = h - prev;
                        let take = match &best {
                            None => true,
                            Some(s) => delta > s.delta,
                        };
                        proof {
                            assert(spike_at(ev, i as int) == Some(SpikeView { pair: kk, from: prev, to: h, delta }));
                        }
                        if take {
                            best = Some(Spike { a: owned(k.0.as_str()), b: owned(k.1.as_str()), from: prev, to: h, delta });
                            proof {
                                best_j = i as int;
                            }
                        }
                    } else {
                        proof {
                            assert(spike_at(ev, i as int) is None);
                        }
                    }
                    let ghost old_last = last@;
                    let (kk2, _) = last.remove(pos);
                    last.insert(pos, (kk2, h));
                    proof {
                        let ne = last@[pos as int];
                        assert(last@ =~= old_last.update(pos as int, ne));
                        crate::entries::lemma_entry_set(old_last, kv, pos as int, ne);
                    }
                } else {
                    proof {
                        assert(spike_at(ev, i as int) is None);
                    }
                    let ghost old_last = last@;
                    last.push((k, h));
                    proof {
                        crate::entries::lemma_entry_push(old_last, kv, last@[old_last.len() as int]);
                    }
                }
                proof {
                    let post = ev.subrange(0, i + 1);
                    assert forall|x: (Seq<char>, Seq<char>)| #[trigger] entry_map(last@, kv).dom().contains(x) <==> last_heat(post, x) is Some by {}
                    assert forall|x: (Seq<char>, Seq<char>)| entry_map(last@, kv).dom().contains(x) implies Some(#[trigger] entry_map(last@, kv)[x]) == last_heat(post, x) by {}
                }
            },
        }
        i = i + 1;
    }
    best
}

// ---------------------------------------------------------------------------
// The longest negotiation and the busiest minute
// ---------------------------------------------------------------------------

/// The event's timestamp in milliseconds, if it parses.
pub open spec fn parsed_ts(e: EventView) -> Option<i64> {
    match e.ts {
        Some(t) => rfc3339_millis(t),
        None => None,
    }
}

fn event_ms(e: &EventRecord) -> (r: Option<i64>)
    ensures
        r == parsed_ts(e@),
        r matches Some(m) ==> -timestamp_bound() <= m <= timestamp_bound(),
{
    match &e.ts {
        Some(t) => parse_ms(t.as_str()),
        None => None,
    }
}

/// The event ends a negotiation (resolved or escalated).
pub open spec fn closes(e: EventView) -> bool {
    is_kind(e, "CONFLICT_RESOLVED"@) || is_kind(e, "CONFLICT_ESCALATED"@)
}

/// When conflict `cid` opened, if it is open after the events.
pub open spec fn open_since(ev: Seq<EventView>, cid: Seq<char>) -> Option<i64>
    decreases ev.len(),
{
    if ev.len() == 0 {
        None
    } else {
        let e = ev.last();
        let prev = open_since(ev.drop_last(), cid);
        if is_kind(e, "CONFLICT_OPENED"@) && text(e.conflict_id) == cid {
            match parsed_ts(e) {
                Some(ms) => Some(ms),
                None => prev,
            }
        } else if closes(e) && text(e.conflict_id) == cid {
            None
        } else {
            prev
        }
    }
}

/// The negotiation closed by event `j`: its conflict and how long it took.
pub open spec fn negotiation_at(ev: Seq<EventView>, j: int) -> Option<(Seq<char>, int)> {
    let e = ev[j];
    if closes(e) {
        match (open_since(ev.subrange(0, j), text(e.conflict_id)), parsed_ts(e)) {
            (Some(o), Some(c)) => Some((text(e.conflict_id), c - o)),
            _ => None,
        }
    } else {
        None
    }
}

/// The length of a negotiation found.
pub open spec fn span_of(o: Option<(Seq<char>, int)>) -> int {
    match o {
        Some(p) => p.1,
        None => 0,
    }
}

/// The longest negotiation (the earliest of equal ones): its conflict id and
/// length in milliseconds.
pub fn longest_negotiation(events: &Vec<EventRecord>) -> (r: Option<(String, i64)>)
    ensures
        match r {
            Some((cid, ms)) => exists|j: int|
                0 <= j < events@.len() && #[trigger] negotiation_at(events_view(events@), j) == Some((cid@, ms as int))
                    && forall|k: int|
                    0 <= k < events@.len() && (#[trigger] negotiation_at(events_view(events@), k)) is Some
                        ==> span_of(negotiation_at(events_view(events@), k)) <= ms && (k < j ==> span_of(negotiation_at(
                        events_view(events@),
                        k,
                    )) < ms),
            None => forall|j: int| 0 <= j < events@.len() ==> (#[trigger] negotiation_at(events_view(events@), j)) is None,
        },
{
    let ghost ev = events_view(events@);
    let ghost kv = str_key();
    let mut open: Vec<(String, i64)> = Vec::new();
    let mut best: Option<(String, i64)> = None;
    let ghost mut best_j: int = 0;
    let mut i: usize = 0;
    proof {
        crate::entries::lemma_entry_empty::<String, Seq<char>, i64>(kv);
    }
    while i < events.len()
        invariant
            ev == events_view(events@),
            kv == str_key(),
            i <= ev.len(),
            crate::entries::keys_distinct(open@, kv),
            forall|c: Seq<char>|
                #[trigger] entry_map(open@, kv).dom().contains(c) <==> open_since(ev.subrange(0, i as int), c) is Some,
            forall|c: Seq<char>|
                entry_map(open@, kv).dom().contains(c) ==> Some(#[trigger] entry_map(open@, kv)[c]) == open_since(
                    ev.subrange(0, i as int),
                    c,
                ),
            forall|c: Seq<char>|
                #[trigger] entry_map(open@, kv).dom().contains(c) ==> -timestamp_bound() <= entry_map(open@, kv)[c]
                    <= timestamp_bound(),
            match best {
                Some((cid, ms)) => {
                    &&& 0 <= best_j < i
                    &&& negotiation_at(ev, best_j) == Some((cid@, ms as int))
                    &&& forall|k: int|
                        0 <= k < i && (#[trigger] negotiation_at(ev, k)) is Some ==> span_of(negotiation_at(ev, k)) <= ms
                            && (k < best_j ==> span_of(negotiation_at(ev, k)) < ms)
                },
                None => forall|k: int| 0 <= k < i ==> (#[trigger] negotiation_at(ev, k)) is None,
            },
        decreases events.len() - i,
    {
        let ghost pre = ev.subrange(0, i as int);
        proof {
            let q = ev.subrange(0, i + 1);
            assert(q.drop_last() =~= pre);
            assert(q.last() == events@[i as int]@);
            assert(ev[i as int] == events@[i as int]@);
        }
        let e = &events[i];
        let ms = event_ms(e);
        let cid = text_of(&e.conflict_id);
        let ghost c = cid@;
        // Where the conflict's entry is, if it has one.
        let mut pos: usize = 0;
        let mut found = false;
        while pos < open.len() && !found
            invariant
                pos <= open@.len(),
                !found ==> forall|t: int| 0 <= t < pos ==> kv((#[trigger] open@[t]).0) != c,
                found ==> pos < open@.len() && kv(open@[pos as int].0) == c,
                kv == str_key(),
                c == cid@,
            decreases open.len() - pos + if found { 0usize } else { 1usize },
        {
            if str_eq(open[pos].0.as_str(), cid.as_str()) {
                found = true;
            } else {
                pos = pos + 1;
            }
        }
        proof {
            if found {
                lemma_entry_lookup(open@, kv, pos as int);
            } else {
                assert(!has_key(open@, kv, c));
                assert(!entry_map(open@, kv).dom().contains(c));
            }
        }
        let ghost old_open = open@;
        if text_is(&e.kind, "CONFLICT_OPENED") {
            proof {
                reveal_strlit("CONFLICT_OPENED");
                reveal_strlit("CONFLICT_RESOLVED");
                reveal_strlit("CONFLICT_ESCALATED");
                assert("CONFLICT_OPENED"@[9] != "CONFLICT_RESOLVED"@[9]);
                assert("CONFLICT_OPENED"@[9] != "CONFLICT_ESCALATED"@[9]);
                assert(negotiation_at(ev, i as int) is None);
            }
            match ms {
                Some(m) => {
                    if found {
                        let (k0, _) = open.remove(pos);
                        open.insert(pos, (k0, m));
                        proof {
                            let ne = open@[pos as int];
                            assert(open@ =~= old_open.update(pos as int, ne));
                            crate::entries::lemma_entry_set(old_open, kv, pos as int, ne);
                        }
                    } else {
                        open.push((cid, m));
                        proof {
                            crate::entries::lemma_entry_push(old_open, kv, open@[old_open.len() as int]);
                        }
                    }
                },
                None => {},
            }
        } else if text_is(&e.kind, "CONFLICT_RESOLVED") || text_is(&e.kind, "CONFLICT_ESCALATED") {
            if found {
                let (_, opened) = open.remove(pos);
                proof {
                    crate::entries::lemma_entry_remove(old_open, kv, pos as int);
                    assert(open_since(pre, c) == Some(opened));
                }
                match ms {
                    Some(closed) => {
                        let span = closed - opened;
                        proof {
                            assert(negotiation_at(ev, i as int) == Some((c, span as int)));
                        }
                        let take = match &best {
                            None => true,
                            Some((_, m)) => span > *m,
                        };
                        if take {
                            best = Some((cid, span));
                            proof {
                                best_j = i as int;
                            }
                        }
                    },
                    None => {
                        proof {
                            assert(negotiation_at(ev, i as int) is None);
                        }
                    },
                }
            } else {
                proof {
                    assert(open_since(pre, c) is None);
                    assert(negotiation_at(ev, i as int) is None);
                }
            }
        } else {
            proof {
                assert(negotiation_at(ev, i as int) is None);
            }
        }
        proof {
            let post = ev.subrange(0, i + 1);
            assert forall|x: Seq<char>| #[trigger] entry_map(open@, kv).dom().contains(x) <==> open_since(post, x) is Some by {}
            assert forall|x: Seq<char>| entry_map(open@, kv).dom().contains(x) implies Some(#[trigger] entry_map(open@, kv)[x]) == open_since(post, x) by {}
        }
        i = i + 1;
    }
    best
}

/// The minute (of the epoch, rounded toward zero) an event falls in.
pub open spec fn minute_of(e: EventView) -> Option<int> {
    match parsed_ts(e) {
        Some(ms) => Some(if ms >= 0 { ms / 60_000 } else { -((-ms) / 60_000) }),
        None => None,
    }
}

/// How many events fall in minute `b`.
pub open spec fn minute_count(ev: Seq<EventView>, b: int) -> nat
    decreases ev.len(),
{
    if ev.len() == 0 {
        0
    } else {
        minute_count(ev.drop_last(), b) + if minute_of(ev.last()) == Some(b) { 1nat } else { 0nat }
    }
}

proof fn lemma_minute_count_le(ev: Seq<EventView>, b: int)
    ensures
        minute_count(ev, b) <= ev.len(),
    decreases ev.len(),
{
    if ev.len() > 0 {
        lemma_minute_count_le(ev.drop_last(), b);
    }
}

/// How many events the busiest minute holds, if any event has a timestamp.
pub fn bloodiest_minute(events: &Vec<EventRecord>) -> (r: Option<u64>)
    ensures
        match r {
            Some(n) => (exists|j: int|
                0 <= j < events@.len() && (#[trigger] minute_of(events_view(events@)[j])) is Some && minute_count(
                    events_view(events@),
                    minute_of(events_view(events@)[j])->0,
                ) == n) && forall|j: int|
                0 <= j < events@.len() && (#[trigger] minute_of(events_view(events@)[j])) is Some ==> minute_count(
                    events_view(events@),
                    minute_of(events_view(events@)[j])->0,
                ) <= n,
            None => forall|j: int| 0 <= j < events@.len() ==> (#[trigger] minute_of(events_view(events@)[j])) is None,
        },
{
    let ghost ev = events_view(events@);
    // The minute of each event, where it has one.
    let mut mins: Vec<Option<i64>> = Vec::new();
    let mut i: usize = 0;
    while i < events.len()
        invariant
            ev == events_view(events@),
            i <= ev.len(),
            mins@.len() == i,
            forall|j: int| 0 <= j < i ==> (match #[trigger] mins@[j] {
                Some(b) => minute_of(ev[j]) == Some(b as int),
                None => minute_of(ev[j]) is None,
            }),
        decreases events.len() - i,
    {
        let m = match event_ms(&events[i]) {
            Some(ms) => Some(if ms >= 0 { ms / 60_000 } else { -((-ms) / 60_000) }),
            None => None,
        };
        proof {
            assert(ev[i as int] == events@[i as int]@);
        }
        mins.push(m);
        i = i + 1;
    }
    let mut best: Option<u64> = None;
    let ghost mut best_j: int = 0;
    let mut a: usize = 0;
    while a < mins.len()
        invariant
            ev == events_view(events@),
            mins@.len() == ev.len(),
            a <= ev.len(),
            forall|j: int| 0 <= j < ev.len() ==> (match #[trigger] mins@[j] {
                Some(b) => minute_of(ev[j]) == Some(b as int),
                None => minute_of(ev[j]) is None,
            }),
            match best {
                Some(n) => 0 <= best_j < ev.len() && minute_of(ev[best_j]) is Some && minute_count(ev, minute_of(ev[best_j])->0)
                    == n && forall|j: int|
                    0 <= j < a && (#[trigger] minute_of(ev[j])) is Some ==> minute_count(ev, minute_of(ev[j])->0) <= n,
                None => forall|j: int| 0 <= j < a ==> (#[trigger] minute_of(ev[j])) is None,
            },
        decreases mins.len() - a,
    {
        match mins[a] {
            None => {
                proof {
                    assert(minute_of(ev[a as int]) is None);
                }
            },
            Some(b) => {
                // Count the events in minute `b`.
                let mut c: u64 = 0;
                let mut k: usize = 0;
                while k < mins.len()
                    invariant
                        ev == events_view(events@),
                        mins@.len() == ev.len(),
                        k <= ev.len(),
                        forall|j: int| 0 <= j < ev.len() ==> (match #[trigger] mins@[j] {
                            Some(b2) => minute_of(ev[j]) == Some(b2 as int),
                            None => minute_of(ev[j]) is None,
                        }),
                        c == minute_count(ev.subrange(0, k as int), b as int),
                        c <= k,
                    decreases mins.len() - k,
                {
                    proof {
                        let q = ev.subrange(0, k + 1);
                        assert(q.drop_last() =~= ev.subrange(0, k as int));
                        assert(q.last() == ev[k as int]);
                        let mk = mins@[k as int];
                    }
                    match mins[k] {
                        Some(b2) => {
                            if b2 == b {
                                c = c + 1;
                            }
                        },
                        None => {},
                    }
                    k = k + 1;
                }
                proof {
                    assert(ev.subrange(0, ev.len() as int) =~= ev);
                    assert(minute_of(ev[a as int]) == Some(b as int));
                }
                let take = match best {
                    None => true,
                    Some(n) => c > n,
                };
                if take {
                    best = Some(c);
                    proof {
                        best_j = a as int;
                    }
                }
            },
        }
        a = a + 1;
    }
    best
}

// ---------------------------------------------------------------------------
// Claim durations
// ---------------------------------------------------------------------------

/// When claim `cid` was created, by its latest creation with a timestamp.
pub open spec fn created_at(ev: Seq<EventView>, cid: Seq<char>) -> Option<i64>
    decreases ev.len(),
{
    if ev.len() == 0 {
        None
    } else {
        let e = ev.last();
        if is_kind(e, "CLAIM_CREATED"@) && text(e.claim_id) == cid && parsed_ts(e) is Some {
            parsed_ts(e)
        } else {
            created_at(ev.drop_last(), cid)
        }
    }
}

/// The release at event `j`: its agent and how long the claim was held,
/// when both times are known, the time is not negative, and the agent is
/// named.
pub open spec fn release_at(ev: Seq<EventView>, j: int) -> Option<(Seq<char>, int)> {
    let e = ev[j];
    if is_kind(e, "CLAIM_RELEASED"@) {
        match (created_at(ev.subrange(0, j), text(e.claim_id)), parsed_ts(e)) {
            (Some(c), Some(r)) => if r - c >= 0 && text(e.agent_id).len() > 0 {
                Some((text(e.agent_id), r - c))
            } else {
                None
            },
            _ => None,
        }
    } else {
        None
    }
}

/// The total time agent `a` held the claims it released, and how many.
pub open spec fn held_total(ev: Seq<EventView>, a: Seq<char>) -> (int, nat)
    decreases ev.len(),
{
    if ev.len() == 0 {
        (0, 0)
    } else {
        let (s, n) = held_total(ev.drop_last(), a);
        match release_at(ev, ev.len() - 1) {
            Some((b, d)) => if b == a { (s + d, n + 1) } else { (s, n) },
            None => (s, n),
        }
    }
}

proof fn lemma_release_prefix(ev: Seq<EventView>, n: int, j: int)
    requires
        0 <= j < n <= ev.len(),
    ensures
        release_at(ev.subrange(0, n), j) == release_at(ev, j),
{
    assert(ev.subrange(0, n).subrange(0, j) =~= ev.subrange(0, j));
}

proof fn lemma_held_bounds(ev: Seq<EventView>, a: Seq<char>)
    ensures
        held_total(ev, a).0 >= 0,
        held_total(ev, a).1 <= ev.len(),
        held_total(ev, a).1 == 0 ==> held_total(ev, a).0 == 0,
    decreases ev.len(),
{
    if ev.len() > 0 {
        lemma_held_bounds(ev.drop_last(), a);
    }
}

proof fn lemma_held_mono(ev: Seq<EventView>, n: int, a: Seq<char>)
    requires
        0 <= n <= ev.len(),
    ensures
        held_total(ev.subrange(0, n), a).0 <= held_total(ev, a).0,
    decreases ev.len() - n,
{
    if n < ev.len() {
        let q = ev.subrange(0, n + 1);
        assert(q.drop_last() =~= ev.subrange(0, n));
        lemma_release_prefix(ev, n + 1, n);
        lemma_held_mono(ev, n + 1, a);
    } else {
        assert(ev.subrange(0, n) =~= ev);
    }
}

/// Per agent, the total and the number of claim holding times, keyed in
/// string order. Averages (the speed demon) are weighed elsewhere.
pub fn claim_durations(events: &Vec<EventRecord>) -> (r: Vec<(String, (i64, u64))>)
    requires
        forall|a: Seq<char>| #[trigger] held_total(events_view(events@), a).0 <= i64::MAX,
    ensures
        sorted_unique(key_strs(r@)),
        entry_map(r@, str_key()) == Map::new(
            |a: Seq<char>| held_total(events_view(events@), a).1 > 0,
            |a: Seq<char>| (held_total(events_view(events@), a).0 as i64, held_total(events_view(events@), a).1 as u64),
        ),
{
    let ghost ev = events_view(events@);
    let ghost kv = str_key();
    let mut created: Vec<(String, i64)> = Vec::new();
    let mut totals: Vec<(String, (i64, u64))> = Vec::new();
    let mut i: usize = 0;
    proof {
        crate::entries::lemma_entry_empty::<String, Seq<char>, i64>(kv);
        assert(entry_map(totals@, kv) =~= Map::new(
            |a: Seq<char>| held_total(ev.subrange(0, 0), a).1 > 0,
            |a: Seq<char>| (held_total(ev.subrange(0, 0), a).0 as i64, held_total(ev.subrange(0, 0), a).1 as u64),
        ));
    }
    while i < events.len()
        invariant
            ev == events_view(events@),
            kv == str_key(),
            forall|a: Seq<char>| #[trigger] held_total(ev, a).0 <= i64::MAX,
            i <= ev.len(),
            crate::entries::keys_distinct(created@, kv),
            forall|c: Seq<char>|
                #[trigger] entry_map(created@, kv).dom().contains(c) <==> created_at(ev.subrange(0, i as int), c) is Some,
            forall|c: Seq<char>|
                entry_map(created@, kv).dom().contains(c) ==> Some(#[trigger] entry_map(created@, kv)[c]) == created_at(
                    ev.subrange(0, i as int),
                    c,
                ),
            forall|c: Seq<char>|
                #[trigger] entry_map(created@, kv).dom().contains(c) ==> -timestamp_bound() <= entry_map(created@, kv)[c]
                    <= timestamp_bound(),
            sorted_unique(key_strs(totals@)),
            entry_map(totals@, kv) == Map::new(
                |a: Seq<char>| held_total(ev.subrange(0, i as int), a).1 > 0,
                |a: Seq<char>| (held_total(ev.subrange(0, i as int), a).0 as i64, held_total(ev.subrange(0, i as int), a).1 as u64),
            ),
        decreases events.len() - i,
    {
        let ghost pre = ev.subrange(0, i as int);
        let ghost post = ev.subrange(0, i + 1);
        proof {
            assert(post.drop_last() =~= pre);
            assert(post.last() == events@[i as int]@);
            assert(ev[i as int] == events@[i as int]@);
            lemma_release_prefix(ev, i + 1, i as int);
            assert(post.subrange(0, i as int) =~= pre);
        }
        let e = &events[i];
        let ms = event_ms(e);
        let cid = text_of(&e.claim_id);
        let ghost c = cid@;
        let mut pos: usize = 0;
        let mut found = false;
        while pos < created.len() && !found
            invariant
                pos <= created@.len(),
                !found ==> forall|t: int| 0 <= t < pos ==> kv((#[trigger] created@[t]).0) != c,
                found ==> pos < created@.len() && kv(created@[pos as int].0) == c,
                kv == str_key(),
                c == cid@,
            decreases created.len() - pos + if found { 0usize } else { 1usize },
        {
            if str_eq(created[pos].0.as_str(), cid.as_str()) {
                found = true;
            } else {
                pos = pos + 1;
            }
        }
        proof {
            if found {
                lemma_entry_lookup(created@, kv, pos as int);
            } else {
                assert(!has_key(created@, kv, c));
                assert(!entry_map(created@, kv).dom().contains(c));
            }
        }
        if text_is(&e.kind, "CLAIM_CREATED") {
            proof {
                reveal_strlit("CLAIM_CREATED");
                reveal_strlit("CLAIM_RELEASED");
                assert("CLAIM_CREATED"@[6] != "CLAIM_RELEASED"@[6]);
                assert(release_at(ev, i as int) is None);
                assert forall|a: Seq<char>| held_total(post, a) == held_total(pre, a) by {}
                assert(entry_map(totals@, kv) =~= Map::new(
                    |a: Seq<char>| held_total(post, a).1 > 0,
                    |a: Seq<char>| (held_total(post, a).0 as i64, held_total(post, a).1 as u64),
                ));
            }
            match ms {
                Some(m) => {
                    let ghost old_c = created@;
                    if found {
                        let (k0, _) = created.remove(pos);
                        created.insert(pos, (k0, m));
                        proof {
                            let ne = created@[pos as int];
                            assert(created@ =~= old_c.update(pos as int, ne));
                            crate::entries::lemma_entry_set(old_c, kv, pos as int, ne);
                        }
                    } else {
                        created.push((cid, m));
                        proof {
                            crate::entries::lemma_entry_push(old_c, kv, created@[old_c.len() as int]);
                        }
                    }
                    proof {
                        assert forall|x: Seq<char>| #[trigger] entry_map(created@, kv).dom().contains(x) <==> created_at(post, x) is Some by {}
                        assert forall|x: Seq<char>| entry_map(created@, kv).dom().contains(x) implies Some(#[trigger] entry_map(created@, kv)[x]) == created_at(post, x) by {}
                    }
                },
                None => {
                    proof {
                        assert forall|x: Seq<char>| created_at(post, x) == created_at(pre, x) by {}
                    }
                },
            }
        } else {
            proof {
                assert forall|x: Seq<char>| created_at(post, x) == created_at(pre, x) by {}
            }
            let agent = text_of(&e.agent_id);
            let mut hit: Option<i64> = None;
            if text_is(&e.kind, "CLAIM_RELEASED") && found {
                match ms {
                    Some(rel) => {
                        let dur = rel - created[pos].1;
                        if dur >= 0 && !agent.as_str().is_empty() {
                            hit = Some(dur);
                        }
                    },
                    None => {},
                }
            }
            proof {
                match hit {
                    Some(d) => assert(release_at(ev, i as int) == Some((agent@, d as int))),
                    None => assert(release_at(ev, i as int) is None),
                }
            }
            match hit {
                Some(d) => {
                    proof {
                        lemma_sorted_keys_distinct(totals@);
                    }
                    let (tp, tf) = find_key(&totals, agent.as_str());
                    let cur: (i64, u64) = if tf {
                        proof {
                            lemma_entry_lookup(totals@, kv, tp as int);
                        }
                        totals[tp].1
                    } else {
                        (0, 0)
                    };
                    proof {
                        let a = agent@;
                        lemma_held_bounds(pre, a);
                        lemma_held_mono(ev, i + 1, a);
                        lemma_held_mono(ev, i as int, a);
                        assert(held_total(ev, a).0 <= i64::MAX);
                        assert(held_total(post, a) == (held_total(pre, a).0 + d, held_total(pre, a).1 + 1));
                        if tf {
                            assert(entry_map(totals@, kv).dom().contains(a));
                            assert(cur == (held_total(pre, a).0 as i64, held_total(pre, a).1 as u64));
                        } else {
                            assert(!entry_map(totals@, kv).dom().contains(a));
                            assert(held_total(pre, a).1 == 0);
                        }
                        assert(0 <= held_total(pre, a).0 <= i64::MAX);
                        assert(held_total(pre, a).1 <= pre.len());
                        assert(cur.0 == held_total(pre, a).0);
                        assert(cur.1 == held_total(pre, a).1);
                        assert(held_total(pre, a).1 < ev.len());
                    }
                    let ghost old_t = totals@;
                    upsert_sorted(&mut totals, agent.as_str(), (cur.0 + d, cur.1 + 1));
                    proof {
                        let want = Map::new(
                            |a: Seq<char>| held_total(post, a).1 > 0,
                            |a: Seq<char>| (held_total(post, a).0 as i64, held_total(post, a).1 as u64),
                        );
                        assert forall|x: Seq<char>| x != agent@ implies held_total(post, x) == held_total(pre, x) by {}
                        assert(entry_map(totals@, kv) =~= want);
                    }
                },
                None => {
                    proof {
                        assert forall|a: Seq<char>| held_total(post, a) == held_total(pre, a) by {}
                        assert(entry_map(totals@, kv) =~= Map::new(
                            |a: Seq<char>| held_total(post, a).1 > 0,
                            |a: Seq<char>| (held_total(post, a).0 as i64, held_total(post, a).1 as u64),
                        ));
                    }
                },
            }
        }
        i = i + 1;
    }
    proof {
        assert(ev.subrange(0, ev.len() as int) =~= ev);
    }
    totals
}

// ---------------------------------------------------------------------------
// The recap as a whole
// ---------------------------------------------------------------------------

/// `lb` is the leaderboard `metric` (in `color`) of the pairs `src` holds.
pub open spec fn is_board(lb: Leaderboard, metric: Seq<char>, color: Seq<char>, src: spec_fn((Seq<char>, u64)) -> bool) -> bool {
    &&& lb.metric@ == metric
    &&& lb.color@ == color
    &&& forall|i: int, j: int|
        0 <= i < j < lb.entries@.len() ==> ranks_before(
            (#[trigger] lb.entries@[i]).0@,
            lb.entries@[i].1,
            (#[trigger] lb.entries@[j]).0@,
            lb.entries@[j].1,
        )
    &&& forall|e: (Seq<char>, u64)| entry_views(lb.entries@).contains(e) <==> (src(e) && e.1 > 0)
}

/// The map holds the pair.
pub open spec fn map_has(m: Map<Seq<char>, u64>, e: (Seq<char>, u64)) -> bool {
    m.dom().contains(e.0) && m[e.0] == e.1
}

proof fn lemma_entry_views_has(v: Seq<(String, u64)>)
    requires
        sorted_unique(key_strs(v)),
    ensures
        forall|e: (Seq<char>, u64)| entry_views(v).contains(e) <==> map_has(entry_map(v, str_key()), e),
{
    lemma_sorted_keys_distinct(v);
    assert forall|e: (Seq<char>, u64)| entry_views(v).contains(e) <==> map_has(entry_map(v, str_key()), e) by {
        if entry_views(v).contains(e) {
            let k = choose|k: int| 0 <= k < entry_views(v).len() && entry_views(v)[k] == e;
            lemma_entry_lookup(v, str_key(), k);
        }
        if map_has(entry_map(v, str_key()), e) {
            let k = choose|k: int| 0 <= k < v.len() && str_key()((#[trigger] v[k]).0) == e.0;
            lemma_entry_lookup(v, str_key(), k);
            assert(entry_views(v)[k] == e);
        }
    }
}

/// Each agent with its value of `m`.
pub open spec fn metric_pairs(v: Seq<(String, AgentTally)>, m: Metric) -> Seq<(Seq<char>, u64)> {
    v.map_values(|e: (String, AgentTally)| (e.0@, metric_of(e.1@, m) as u64))
}

fn metric_list(v: &Vec<(String, AgentTally)>, m: Metric) -> (r: Vec<(String, u64)>)
    requires
        sorted_unique(tally_keys(v@)),
    ensures
        entry_views(r@) == metric_pairs(v@, m),
        sorted_unique(key_strs(r@)),
{
    let mut r: Vec<(String, u64)> = Vec::new();
    let mut i: usize = 0;
    while i < v.len()
        invariant
            i <= v@.len(),
            entry_views(r@) == metric_pairs(v@, m).subrange(0, i as int),
            key_strs(r@) == tally_keys(v@).subrange(0, i as int),
        decreases v.len() - i,
    {
        let ghost before = entry_views(r@);
        let x = metric_value(&v[i].1, m);
        r.push((owned(v[i].0.as_str()), x));
        assert(entry_views(r@) =~= before.push((v@[i as int].0@, x)));
        assert(metric_pairs(v@, m)[i as int] == (v@[i as int].0@, x));
        assert(entry_views(r@) =~= metric_pairs(v@, m).subrange(0, i + 1));
        assert(key_strs(r@) =~= tally_keys(v@).subrange(0, i + 1));
        i = i + 1;
    }
    assert(metric_pairs(v@, m).subrange(0, v@.len() as int) =~= metric_pairs(v@, m));
    assert(tally_keys(v@).subrange(0, v@.len() as int) =~= tally_keys(v@));
    r
}

/// The badge winners as `badge_winners` finds them.
pub open spec fn winners_ok(w: BadgeWinners, agents: Seq<(String, AgentTally)>, ev: Seq<EventView>, bg: Option<Seq<char>>) -> bool {
    &&& max_badge(agents, Metric::HeatGenerated, opt_str(w.firestarter))
    &&& max_badge(agents, Metric::TasksCompleted, opt_str(w.sprinter))
    &&& max_badge(agents, Metric::GhostClaims, opt_str(w.ghost_owner))
    &&& max_badge(agents, Metric::ConflictsInvolved, opt_str(w.conflict_magnet))
    &&& match w.diplomat {
        Some(a) => is_top_key(counts_of(diplomats(ev)), a@),
        None => diplomats(ev).len() == 0,
    }
    &&& match bg {
        Some(f) => match w.hotzone_hero {
            Some(a) => is_least(touchers(ev, f), a@),
            None => touchers(ev, f).len() == 0,
        },
        None => w.hotzone_hero is None,
    }
    &&& trait_badge(agents, Trait::LoneWolf, opt_str(w.lone_wolf))
    &&& trait_badge(agents, Trait::Pacifist, opt_str(w.pacifist))
    &&& trait_badge(agents, Trait::Sniper, opt_str(w.sniper))
}

/// The recap: leaderboards of counts, badges, streaks, the narrative, and
/// what the superlatives report.
#[derive(Debug, Clone)]
pub struct Entertainment {
    /// Most claims, most tasks completed, most files touched, most heat
    /// generated, most conflicts involved.
    pub leaderboards: Vec<Leaderboard>,
    pub badges: Vec<Badge>,
    pub streaks: Streaks,
    pub narrative: String,
    pub battleground: Option<(String, u64)>,
    pub biggest_spike: Option<Spike>,
    pub longest_negotiation: Option<(String, i64)>,
    pub bloodiest_minute: Option<u64>,
}

pub open spec fn bg_name(bg: Option<(String, u64)>) -> Option<Seq<char>> {
    match bg {
        Some((f, _)) => Some(f@),
        None => None,
    }
}

/// The session's recap from its events and statistics; the speed demon
/// (who held claims the shortest on average) is decided by the caller.
pub fn build_entertainment(events: &Vec<EventRecord>, stats: &SessionStats, speed_demon: Option<String>) -> (r:
    Entertainment)
    requires
        sorted_unique(tally_keys(stats.agents@)),
        stats.auto_resolved_heat_dropped + stats.negotiated_resolved <= u64::MAX,
    ensures
        r.leaderboards@.len() == 5,
        is_board(r.leaderboards@[0], "most_claims"@, "green"@, |e: (Seq<char>, u64)| metric_pairs(stats.agents@, Metric::ClaimsMade).contains(e)),
        is_board(r.leaderboards@[1], "most_tasks_completed"@, "green"@, |e: (Seq<char>, u64)| metric_pairs(stats.agents@, Metric::TasksCompleted).contains(e)),
        is_board(r.leaderboards@[2], "most_files_touched"@, "gray"@, |e: (Seq<char>, u64)| map_has(files_touched_map(touch_pairs(events_view(events@))), e)),
        is_board(r.leaderboards@[3], "most_heat_generated"@, "red"@, |e: (Seq<char>, u64)| metric_pairs(stats.agents@, Metric::HeatGenerated).contains(e)),
        is_board(r.leaderboards@[4], "most_conflicts_involved"@, "yellow"@, |e: (Seq<char>, u64)| metric_pairs(stats.agents@, Metric::ConflictsInvolved).contains(e)),
        match r.battleground {
            Some((f, n)) => is_top(counts_of(battle_files(events_view(events@))), f@, n),
            None => battle_files(events_view(events@)).len() == 0,
        },
        exists|w: BadgeWinners|
            #[trigger] winners_ok(w, stats.agents@, events_view(events@), bg_name(r.battleground)) && badge_views(r.badges@)
                == badge_rows(w, opt_str(speed_demon)),
        is_longest_run(resolve_flags(events_view(events@)), r.streaks.longest_auto_resolve_streak),
        is_longest_run(completion_flags(events_view(events@)), r.streaks.longest_completion_streak),
        r.narrative@ == narrative_text(
            stats.agents_seen as nat,
            stats.claims_created as nat,
            stats.conflicts_opened as nat,
            (stats.auto_resolved_heat_dropped + stats.negotiated_resolved) as nat,
            stats.escalated as nat,
            stats.deadlocks as nat,
            badge_views(r.badges@),
            bg_name(r.battleground),
        ),
        match r.biggest_spike {
            Some(s) => is_biggest_spike(events_view(events@), SpikeView { pair: (s.a@, s.b@), from: s.from, to: s.to, delta: s.delta }),
            None => forall|j: int| 0 <= j < events@.len() ==> (#[trigger] spike_at(events_view(events@), j)) is None,
        },
        match r.longest_negotiation {
            Some((cid, ms)) => exists|j: int|
                0 <= j < events@.len() && #[trigger] negotiation_at(events_view(events@), j) == Some((cid@, ms as int))
                    && forall|k: int|
                    0 <= k < events@.len() && (#[trigger] negotiation_at(events_view(events@), k)) is Some
                        ==> span_of(negotiation_at(events_view(events@), k)) <= ms && (k < j ==> span_of(negotiation_at(
                        events_view(events@),
                        k,
                    )) < ms),
            None => forall|j: int| 0 <= j < events@.len() ==> (#[trigger] negotiation_at(events_view(events@), j)) is None,
        },
        match r.bloodiest_minute {
            Some(n) => (exists|j: int|
                0 <= j < events@.len() && (#[trigger] minute_of(events_view(events@)[j])) is Some && minute_count(
                    events_view(events@),
                    minute_of(events_view(events@)[j])->0,
                ) == n) && forall|j: int|
                0 <= j < events@.len() && (#[trigger] minute_of(events_view(events@)[j])) is Some ==> minute_count(
                    events_view(events@),
                    minute_of(events_view(events@)[j])->0,
                ) <= n,
            None => forall|j: int| 0 <= j < events@.len() ==> (#[trigger] minute_of(events_view(events@)[j])) is None,
        },
{
    let claims = metric_list(&stats.agents, Metric::ClaimsMade);
    let tasks = metric_list(&stats.agents, Metric::TasksCompleted);
    let files = files_touched_per_agent(events);
    let heat = metric_list(&stats.agents, Metric::HeatGenerated);
    let conflicts = metric_list(&stats.agents, Metric::ConflictsInvolved);
    let lb0 = make_leaderboard("most_claims", "green", &claims);
    assert(is_board(lb0, "most_claims"@, "green"@, |e: (Seq<char>, u64)| metric_pairs(stats.agents@, Metric::ClaimsMade).contains(e)));
    let lb1 = make_leaderboard("most_tasks_completed", "green", &tasks);
    assert(is_board(lb1, "most_tasks_completed"@, "green"@, |e: (Seq<char>, u64)| metric_pairs(stats.agents@, Metric::TasksCompleted).contains(e)));
    let lb2 = make_leaderboard("most_files_touched", "gray", &files);
    let lb3 = make_leaderboard("most_heat_generated", "red", &heat);
    assert(is_board(lb3, "most_heat_generated"@, "red"@, |e: (Seq<char>, u64)| metric_pairs(stats.agents@, Metric::HeatGenerated).contains(e)));
    let lb4 = make_leaderboard("most_conflicts_involved", "yellow", &conflicts);
    assert(is_board(lb4, "most_conflicts_involved"@, "yellow"@, |e: (Seq<char>, u64)| metric_pairs(stats.agents@, Metric::ConflictsInvolved).contains(e)));
    let mut leaderboards: Vec<Leaderboard> = Vec::new();
    leaderboards.push(lb0);
    leaderboards.push(lb1);
    leaderboards.push(lb2);
    leaderboards.push(lb3);
    leaderboards.push(lb4);
    proof {
        lemma_entry_views_has(files@);
        let fb = leaderboards@[2];
        let want = files_touched_map(touch_pairs(events_view(events@)));
        assert forall|e: (Seq<char>, u64)| entry_views(fb.entries@).contains(e) <==> (map_has(want, e) && e.1 > 0) by {
            assert(entry_views(files@).contains(e) <==> map_has(entry_map(files@, str_key()), e));
        }
    }
    let bg = battleground(events);
    let winners = badge_winners(&stats.agents, events, &bg);
    let badges = badge_list(&winners, &speed_demon);
    proof {
        assert(winners_ok(winners, stats.agents@, events_view(events@), bg_name(bg)));
    }
    let narrative = narrative(stats, &badges, &bg);
    Entertainment {
        leaderboards,
        badges,
        streaks: streaks(events),
        narrative,
        battleground: bg,
        biggest_spike: biggest_spike(events),
        longest_negotiation: longest_negotiation(events),
        bloodiest_minute: bloodiest_minute(events),
    }
}

} // verus!
