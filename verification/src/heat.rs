//! Overlap heat between two agents' work: bands and their recommendations,
//! task tokens, and the set overlaps, matches and reasons that the weighted
//! heat score is made of.

use vstd::prelude::*;
use crate::cap::strs;
use crate::text::{chars_of, push_char, push_str, concat, owned, str_eq, lex_lt};
use crate::sets::{sorted_unique, common, insert_sorted, set_of, intersection, union, lemma_sorted_len, lemma_sorted_unique_ext};

verus! {

#[derive(Debug, Clone, Copy, PartialEq, Eq, Structural)]
pub enum HeatBand {
    Safe,
    Monitor,
    Overlap,
    ConflictCandidate,
}

impl HeatBand {
    pub open spec fn name(self) -> Seq<char> {
        match self {
            HeatBand::Safe => "SAFE"@,
            HeatBand::Monitor => "MONITOR"@,
            HeatBand::Overlap => "OVERLAP"@,
            HeatBand::ConflictCandidate => "CONFLICT_CANDIDATE"@,
        }
    }

    pub open spec fn advice(self) -> Seq<char> {
        match self {
            HeatBand::Safe => "PROCEED"@,
            HeatBand::Monitor => "MONITOR"@,
            HeatBand::Overlap => "SPLIT_SCOPE_OR_SEQUENCE"@,
            HeatBand::ConflictCandidate => "NEGOTIATE_BEFORE_CLAIM"@,
        }
    }

    /// The band's wire name.
    pub fn as_str(&self) -> (r: &'static str)
        ensures
            r@ == self.name(),
    {
        match self {
            HeatBand::Safe => "SAFE",
            HeatBand::Monitor => "MONITOR",
            HeatBand::Overlap => "OVERLAP",
            HeatBand::ConflictCandidate => "CONFLICT_CANDIDATE",
        }
    }

    /// What the agents are advised to do in this band.
    pub fn recommendation(&self) -> (r: &'static str)
        ensures
            r@ == self.advice(),
    {
        match self {
            HeatBand::Safe => "PROCEED",
            HeatBand::Monitor => "MONITOR",
            HeatBand::Overlap => "SPLIT_SCOPE_OR_SEQUENCE",
            HeatBand::ConflictCandidate => "NEGOTIATE_BEFORE_CLAIM",
        }
    }
}

/// The upper bounds (inclusive) of the SAFE, MONITOR and OVERLAP bands.
#[derive(Debug, Clone, Copy, PartialEq, Eq)]
pub struct BandLimits {
    pub safe_max: u32,
    pub monitor_max: u32,
    pub overlap_max: u32,
}

impl Default for BandLimits {
    fn default() -> (r: Self)
        ensures
            r.safe_max == 25 && r.monitor_max == 50 && r.overlap_max == 75,
    {
        BandLimits { safe_max: 25, monitor_max: 50, overlap_max: 75 }
    }
}

/// The band a heat score falls in.
pub open spec fn band_of(heat: u32, limits: BandLimits) -> HeatBand {
    if heat <= limits.safe_max {
        HeatBand::Safe
    } else if heat <= limits.monitor_max {
        HeatBand::Monitor
    } else if heat <= limits.overlap_max {
        HeatBand::Overlap
    } else {
        HeatBand::ConflictCandidate
    }
}

/// The bands in order of rising heat.
pub open spec fn band_rank(b: HeatBand) -> int {
    match b {
        HeatBand::Safe => 0,
        HeatBand::Monitor => 1,
        HeatBand::Overlap => 2,
        HeatBand::ConflictCandidate => 3,
    }
}

/// Each band is the range of heats up to its limit: with the limits in
/// order, a heat at most `safe_max` is SAFE, one above it and at most
/// `monitor_max` is MONITOR, one above that and at most `overlap_max` is
/// OVERLAP, and every heat strictly above `overlap_max` is
/// CONFLICT_CANDIDATE.
pub proof fn law_band_ranges(heat: u32, limits: BandLimits)
    requires
        limits.safe_max <= limits.monitor_max <= limits.overlap_max,
    ensures
        band_of(heat, limits) == HeatBand::Safe <==> heat <= limits.safe_max,
        band_of(heat, limits) == HeatBand::Monitor <==> limits.safe_max < heat <= limits.monitor_max,
        band_of(heat, limits) == HeatBand::Overlap <==> limits.monitor_max < heat <= limits.overlap_max,
        band_of(heat, limits) == HeatBand::ConflictCandidate <==> limits.overlap_max < heat,
{
}

/// A hotter pair is never in a cooler band: the band rises with the heat,
/// whatever the limits.
pub proof fn law_band_monotone(h1: u32, h2: u32, limits: BandLimits)
    requires
        h1 <= h2,
    ensures
        band_rank(band_of(h1, limits)) <= band_rank(band_of(h2, limits)),
{
}

pub fn band_for(heat: u32, limits: &BandLimits) -> (r: HeatBand)
    ensures
        r == band_of(heat, *limits),
{
    if heat <= limits.safe_max {
        HeatBand::Safe
    } else if heat <= limits.monitor_max {
        HeatBand::Monitor
    } else if heat <= limits.overlap_max {
        HeatBand::Overlap
    } else {
        HeatBand::ConflictCandidate
    }
}

// ---------------------------------------------------------------------------
// Task tokens
// ---------------------------------------------------------------------------

/// Whether std counts `c` as alphanumeric (`char::is_alphanumeric`: Unicode
/// Alphabetic or Numeric).
pub uninterp spec fn alphanumeric(c: char) -> bool;

/// The lowercase mapping of a string by std (`str::to_lowercase`, Unicode's
/// case tables).
pub uninterp spec fn lowercase(s: Seq<char>) -> Seq<char>;

/// An ASCII letter or digit.
pub open spec fn ascii_alnum(c: char) -> bool {
    (0x30 <= (c as u32) <= 0x39) || (0x41 <= (c as u32) <= 0x5a) || (0x61 <= (c as u32) <= 0x7a)
}

/// The ASCII lowercase of `c`: `A`..`Z` become `a`..`z`, every other
/// character stays.
pub open spec fn ascii_lower(c: char) -> char {
    if 0x41 <= (c as u32) <= 0x5a {
        ((c as u32) + 32) as char
    } else {
        c
    }
}

/// `char::is_alphanumeric`. Its result is named; of ASCII characters it is
/// stated, as std documents it: letters and digits are alphanumeric, every
/// other ASCII character (space, punctuation, control) is not. Beyond ASCII
/// the Unicode tables decide, which is left unsaid.
#[verifier::external_body]
fn is_alnum(c: char) -> (r: bool)
    ensures
        r == alphanumeric(c),
        (c as u32) < 128 ==> (r <==> ascii_alnum(c)),
{
    c.is_alphanumeric()
}

/// `str::to_lowercase`. Its result is named; of an all-ASCII string it is
/// stated, as std documents it: each character is lowercased on its own
/// (`A`..`Z` to `a`..`z`, the rest unchanged). Beyond ASCII the Unicode case
/// tables decide, which is left unsaid.
#[verifier::external_body]
fn to_lower(s: &str) -> (r: String)
    ensures
        r@ == lowercase(s@),
        (forall|i: int| 0 <= i < s@.len() ==> (#[trigger] s@[i] as u32) < 128) ==> r@.len() == s@.len() && forall|i: int|
            0 <= i < s@.len() ==> #[trigger] r@[i] == ascii_lower(s@[i]),
{
    s.to_lowercase()
}

/// `s[i..j]` is a word: a nonempty, maximal run of alphanumeric characters.
pub open spec fn is_word_at(s: Seq<char>, i: int, j: int) -> bool {
    &&& 0 <= i < j <= s.len()
    &&& forall|k: int| i <= k < j ==> alphanumeric(#[trigger] s[k])
    &&& (i == 0 || !alphanumeric(s[i - 1]))
    &&& (j == s.len() || !alphanumeric(s[j]))
}

/// `t` is the lowercased form of a word of `s`.
pub open spec fn is_token(s: Seq<char>, t: Seq<char>) -> bool {
    exists|i: int, j: int| #[trigger] is_word_at(s, i, j) && t == lowercase(s.subrange(i, j))
}

/// A word ending at `j`, inside a run of alphanumerics that starts at
/// `start` (after a separator or at the beginning), starts at `start`.
proof fn lemma_word_starts_at_run(s: Seq<char>, start: int, j: int, a: int)
    requires
        0 <= start <= j <= s.len(),
        forall|k: int| start <= k < j ==> alphanumeric(#[trigger] s[k]),
        start == 0 || !alphanumeric(s[start - 1]),
        is_word_at(s, a, j),
    ensures
        a == start,
{
    if a < start {
        assert(alphanumeric(s[start - 1]));
    } else if a > start {
        assert(alphanumeric(s[a - 1]));
    }
}

fn substring(cs: &Vec<char>, a: usize, b: usize) -> (r: String)
    requires
        a <= b <= cs@.len(),
    ensures
        r@ == cs@.subrange(a as int, b as int),
{
    let mut r = String::new();
    let mut k: usize = a;
    while k < b
        invariant
            a <= k <= b <= cs@.len(),
            r@ == cs@.subrange(a as int, k as int),
        decreases b - k,
    {
        push_char(&mut r, cs[k]);
        assert(cs@.subrange(a as int, k + 1) =~= cs@.subrange(a as int, k as int).push(cs@[k as int]));
        k = k + 1;
    }
    r
}

/// The set of lowercased alphanumeric words of `text`, in string order.
pub fn tokens(text: &str) -> (r: Vec<String>)
    ensures
        sorted_unique(strs(r@)),
        forall|t: Seq<char>| strs(r@).contains(t) <==> is_token(text@, t),
{
    let cs = chars_of(text);
    let ghost s = text@;
    let mut out: Vec<String> = Vec::new();
    let mut start: usize = 0;
    let mut i: usize = 0;
    while i < cs.len()
        invariant
            cs@ == s,
            start <= i <= s.len(),
            forall|k: int| start <= k < i ==> alphanumeric(#[trigger] s[k]),
            start == 0 || !alphanumeric(s[start - 1]),
            sorted_unique(strs(out@)),
            forall|t: Seq<char>|
                strs(out@).contains(t) <==> exists|a: int, b: int|
                    #[trigger] is_word_at(s, a, b) && b < i && t == lowercase(s.subrange(a, b)),
        decreases cs.len() - i,
    {
        if is_alnum(cs[i]) {
            proof {
                assert forall|t: Seq<char>|
                    strs(out@).contains(t) <==> exists|a: int, b: int|
                        #[trigger] is_word_at(s, a, b) && b < i + 1 && t == lowercase(s.subrange(a, b)) by {
                    if exists|a: int, b: int| #[trigger] is_word_at(s, a, b) && b < i + 1 && t == lowercase(s.subrange(a, b)) {
                        let (a, b) = choose|a: int, b: int| #[trigger] is_word_at(s, a, b) && b < i + 1 && t == lowercase(s.subrange(a, b));
                        assert(b != i);
                    }
                }
            }
            i = i + 1;
        } else {
            let ghost before = strs(out@);
            if start < i {
                let w = substring(&cs, start, i);
                let lw = to_lower(w.as_str());
                insert_sorted(&mut out, lw);
                proof {
                    assert(is_word_at(s, start as int, i as int));
                    assert forall|t: Seq<char>|
                        strs(out@).contains(t) <==> exists|a: int, b: int|
                            #[trigger] is_word_at(s, a, b) && b < i + 1 && t == lowercase(s.subrange(a, b)) by {
                        if exists|a: int, b: int| #[trigger] is_word_at(s, a, b) && b < i + 1 && t == lowercase(s.subrange(a, b)) {
                            let (a, b) = choose|a: int, b: int| #[trigger] is_word_at(s, a, b) && b < i + 1 && t == lowercase(s.subrange(a, b));
                            if b == i {
                                lemma_word_starts_at_run(s, start as int, i as int, a);
                            } else {
                                assert(before.contains(t));
                            }
                        }
                    }
                }
            } else {
                proof {
                    assert forall|t: Seq<char>|
                        strs(out@).contains(t) <==> exists|a: int, b: int|
                            #[trigger] is_word_at(s, a, b) && b < i + 1 && t == lowercase(s.subrange(a, b)) by {
                        if exists|a: int, b: int| #[trigger] is_word_at(s, a, b) && b < i + 1 && t == lowercase(s.subrange(a, b)) {
                            let (a, b) = choose|a: int, b: int| #[trigger] is_word_at(s, a, b) && b < i + 1 && t == lowercase(s.subrange(a, b));
                            if b == i {
                                lemma_word_starts_at_run(s, start as int, i as int, a);
                            }
                        }
                    }
                }
            }
            i = i + 1;
            start = i;
        }
    }
    let ghost before = strs(out@);
    if start < cs.len() {
        let w = substring(&cs, start, cs.len());
        let lw = to_lower(w.as_str());
        insert_sorted(&mut out, lw);
        proof {
            assert(is_word_at(s, start as int, s.len() as int));
        }
    }
    proof {
        assert forall|t: Seq<char>| strs(out@).contains(t) <==> is_token(s, t) by {
            if is_token(s, t) {
                let (a, b) = choose|a: int, b: int| #[trigger] is_word_at(s, a, b) && t == lowercase(s.subrange(a, b));
                if b == s.len() {
                    lemma_word_starts_at_run(s, start as int, b, a);
                } else {
                    assert(before.contains(t));
                }
            }
            if strs(out@).contains(t) && before.contains(t) {
                let (a, b) = choose|a: int, b: int| #[trigger] is_word_at(s, a, b) && b < s.len() && t == lowercase(s.subrange(a, b));
                assert(is_token(s, t));
            }
            if strs(out@).contains(t) && !before.contains(t) {
                assert(is_word_at(s, start as int, s.len() as int));
                assert(is_token(s, t));
            }
        }
    }
    out
}

// ---------------------------------------------------------------------------
// Inputs and the overlap signals between two agents
// ---------------------------------------------------------------------------

/// What one agent is working on, as the heat between two agents reads it.
/// `domains`, `files` and `task_tokens` are sets listed in string order.
#[derive(Debug, Clone)]
pub struct HeatInputs {
    pub agent_id: String,
    pub intent: String,
    pub domains: Vec<String>,
    pub files: Vec<String>,
    pub task_tokens: Vec<String>,
    pub last_seen_ms: u64,
    pub branch: Option<String>,
}

pub struct HeatInputsView {
    pub agent_id: Seq<char>,
    pub intent: Seq<char>,
    pub domains: Seq<Seq<char>>,
    pub files: Seq<Seq<char>>,
    pub task_tokens: Seq<Seq<char>>,
    pub last_seen_ms: u64,
    pub branch: Option<Seq<char>>,
}

pub open spec fn opt_str(o: Option<String>) -> Option<Seq<char>> {
    match o {
        Some(s) => Some(s@),
        None => None,
    }
}

impl View for HeatInputs {
    type V = HeatInputsView;

    open spec fn view(&self) -> HeatInputsView {
        HeatInputsView {
            agent_id: self.agent_id@,
            intent: self.intent@,
            domains: strs(self.domains@),
            files: strs(self.files@),
            task_tokens: strs(self.task_tokens@),
            last_seen_ms: self.last_seen_ms,
            branch: opt_str(self.branch),
        }
    }
}

impl HeatInputs {
    /// The three sets are listed in string order without repeats.
    pub open spec fn wf(&self) -> bool {
        &&& sorted_unique(strs(self.domains@))
        &&& sorted_unique(strs(self.files@))
        &&& sorted_unique(strs(self.task_tokens@))
    }

    /// The inputs of an agent: its domains and files as sets, and the tokens of
    /// its task summary.
    pub fn new(
        agent_id: &str,
        intent: &str,
        domains: &Vec<String>,
        files: &Vec<String>,
        task_summary: &str,
        last_seen_ms: u64,
        branch: Option<String>,
    ) -> (r: HeatInputs)
        ensures
            r.wf(),
            r@.agent_id == agent_id@,
            r@.intent == intent@,
            forall|t: Seq<char>| r@.domains.contains(t) <==> strs(domains@).contains(t),
            forall|t: Seq<char>| r@.files.contains(t) <==> strs(files@).contains(t),
            forall|t: Seq<char>| r@.task_tokens.contains(t) <==> is_token(task_summary@, t),
            r@.last_seen_ms == last_seen_ms,
            r@.branch == opt_str(branch),
    {
        HeatInputs {
            agent_id: owned(agent_id),
            intent: owned(intent),
            domains: set_of(domains),
            files: set_of(files),
            task_tokens: tokens(task_summary),
            last_seen_ms,
            branch,
        }
    }
}

/// The number of elements two sets share.
pub open spec fn inter_size(a: Seq<Seq<char>>, b: Seq<Seq<char>>) -> nat {
    a.to_set().intersect(b.to_set()).len()
}

/// The number of elements in either of two sets.
pub open spec fn union_size(a: Seq<Seq<char>>, b: Seq<Seq<char>>) -> nat {
    a.to_set().union(b.to_set()).len()
}

/// The two agents are on the same, named branch.
pub open spec fn same_branch(a: HeatInputsView, b: HeatInputsView) -> bool {
    match (a.branch, b.branch) {
        (Some(x), Some(y)) => x == y,
        _ => false,
    }
}

/// The elements of `s` separated by `sep`.
pub open spec fn joined(s: Seq<Seq<char>>, sep: Seq<char>) -> Seq<char>
    decreases s.len(),
{
    if s.len() == 0 {
        Seq::empty()
    } else if s.len() == 1 {
        s[0]
    } else {
        joined(s.drop_last(), sep) + sep + s.last()
    }
}

/// Why two agents' work overlaps, in this order: same intent, shared files,
/// overlapping domains, same branch.
pub open spec fn heat_reasons(a: HeatInputsView, b: HeatInputsView) -> Seq<Seq<char>> {
    let shared = common(a.files, b.files);
    let r0: Seq<Seq<char>> = if a.intent == b.intent { seq!["same intent: "@ + a.intent] } else { Seq::empty() };
    let r1: Seq<Seq<char>> = if shared.len() > 0 { seq!["shared files: "@ + joined(shared, ", "@)] } else { Seq::empty() };
    let r2: Seq<Seq<char>> = if inter_size(a.domains, b.domains) > 0 { seq!["overlapping domains"@] } else { Seq::empty() };
    let r3: Seq<Seq<char>> = if same_branch(a, b) { seq!["same branch: "@ + a.branch.unwrap()] } else { Seq::empty() };
    r0 + r1 + r2 + r3
}

/// The overlap between two agents' inputs from which the heat score is
/// weighed: set overlaps (shared and total sizes, the Jaccard ratio's two
/// terms), matches, the time between their activity, the shared files and
/// the reasons given.
pub struct HeatSignals {
    pub task_common: usize,
    pub task_union: usize,
    pub domain_common: usize,
    pub domain_union: usize,
    pub file_common: usize,
    pub file_union: usize,
    pub same_intent: bool,
    pub same_branch: bool,
    pub time_gap_ms: u64,
    pub shared_files: Vec<String>,
    pub reasons: Vec<String>,
}

/// Filtering keeps a list in string order.
proof fn lemma_filter_sorted(s: Seq<Seq<char>>, p: spec_fn(Seq<char>) -> bool)
    requires
        sorted_unique(s),
    ensures
        sorted_unique(s.filter(p)),
    decreases s.len(),
{
    reveal_with_fuel(Seq::filter, 1);
    if s.len() > 0 {
        let t = s.drop_last();
        assert(sorted_unique(t)) by {
            assert forall|i: int, j: int| 0 <= i < j < t.len() implies lex_lt(#[trigger] t[i], #[trigger] t[j]) by {
                assert(t[i] == s[i] && t[j] == s[j]);
            }
        }
        lemma_filter_sorted(t, p);
        if p(s.last()) {
            let f = t.filter(p);
            let g = s.filter(p);
            assert(g == f.push(s.last()));
            assert forall|i: int, j: int| 0 <= i < j < g.len() implies lex_lt(#[trigger] g[i], #[trigger] g[j]) by {
                if j == g.len() - 1 {
                    assert(g[i] == f[i]);
                    assert(f.contains(f[i]));
                    t.lemma_filter_contains_rev(p, f[i]);
                    let m = choose|m: int| 0 <= m < t.len() && t[m] == f[i];
                    assert(s[m] == t[m]);
                    assert(lex_lt(s[m], s[s.len() - 1]));
                } else {
                    assert(g[i] == f[i] && g[j] == f[j]);
                }
            }
        }
    }
}

/// The shared elements of two ordered sets, in string order, and how many
/// there are.
fn shared_of(a: &Vec<String>, b: &Vec<String>) -> (r: (Vec<String>, usize))
    requires
        sorted_unique(strs(a@)),
    ensures
        strs(r.0@) == common(strs(a@), strs(b@)),
        sorted_unique(strs(r.0@)),
        r.1 == inter_size(strs(a@), strs(b@)),
{
    let v = intersection(a, b);
    proof {
        let sa = strs(a@);
        let sb = strs(b@);
        let p = |x: Seq<char>| sb.contains(x);
        lemma_filter_sorted(sa, p);
        lemma_sorted_len(strs(v@));
        assert forall|x: Seq<char>| strs(v@).to_set().contains(x) <==> sa.to_set().intersect(sb.to_set()).contains(x) by {
            if strs(v@).contains(x) {
                sa.lemma_filter_contains_rev(p, x);
            }
            if sa.contains(x) && sb.contains(x) {
                let k = choose|k: int| 0 <= k < sa.len() && sa[k] == x;
                sa.lemma_filter_contains(p, k);
            }
        }
        assert(strs(v@).to_set() =~= sa.to_set().intersect(sb.to_set()));
    }
    let n = v.len();
    (v, n)
}

/// How many elements two ordered sets have together.
fn union_count(a: &Vec<String>, b: &Vec<String>) -> (r: usize)
    ensures
        r == union_size(strs(a@), strs(b@)),
{
    let u = union(a, b);
    proof {
        lemma_sorted_len(strs(u@));
        assert(strs(u@).to_set() =~= strs(a@).to_set().union(strs(b@).to_set()));
    }
    u.len()
}

/// The elements of `v` separated by `sep`.
pub fn join(v: &Vec<String>, sep: &str) -> (r: String)
    ensures
        r@ == joined(strs(v@), sep@),
{
    let mut r = String::new();
    let mut i: usize = 0;
    while i < v.len()
        invariant
            i <= v@.len(),
            r@ == joined(strs(v@).subrange(0, i as int), sep@),
        decreases v.len() - i,
    {
        let ghost pre = strs(v@).subrange(0, i + 1);
        proof {
            assert(pre.drop_last() =~= strs(v@).subrange(0, i as int));
            assert(pre.last() == v@[i as int]@);
        }
        if i > 0 {
            push_str(&mut r, sep);
        }
        push_str(&mut r, v[i].as_str());
        proof {
            if i == 0 {
                assert(pre.len() == 1);
                assert(r@ =~= pre[0]);
            }
        }
        i = i + 1;
    }
    assert(strs(v@).subrange(0, v@.len() as int) =~= strs(v@));
    r
}

/// The overlap between two agents' inputs.
pub fn heat_signals(a: &HeatInputs, b: &HeatInputs) -> (r: HeatSignals)
    requires
        a.wf(),
        b.wf(),
    ensures
        r.task_common == inter_size(a@.task_tokens, b@.task_tokens),
        r.task_union == union_size(a@.task_tokens, b@.task_tokens),
        r.domain_common == inter_size(a@.domains, b@.domains),
        r.domain_union == union_size(a@.domains, b@.domains),
        r.file_common == inter_size(a@.files, b@.files),
        r.file_union == union_size(a@.files, b@.files),
        r.same_intent == (a@.intent == b@.intent),
        r.same_branch == same_branch(a@, b@),
        r.time_gap_ms == (if a.last_seen_ms >= b.last_seen_ms { a.last_seen_ms - b.last_seen_ms } else { b.last_seen_ms
            - a.last_seen_ms }),
        strs(r.shared_files@) == common(a@.files, b@.files),
        strs(r.reasons@) == heat_reasons(a@, b@),
{
    let (_, task_common) = shared_of(&a.task_tokens, &b.task_tokens);
    let task_union = union_count(&a.task_tokens, &b.task_tokens);
    let (_, domain_common) = shared_of(&a.domains, &b.domains);
    let domain_union = union_count(&a.domains, &b.domains);
    let (shared_files, file_common) = shared_of(&a.files, &b.files);
    let file_union = union_count(&a.files, &b.files);
    let same_intent = str_eq(a.intent.as_str(), b.intent.as_str());
    let same_br = match (&a.branch, &b.branch) {
        (Some(x), Some(y)) => str_eq(x.as_str(), y.as_str()),
        _ => false,
    };
    let time_gap_ms = if a.last_seen_ms >= b.last_seen_ms {
        a.last_seen_ms - b.last_seen_ms
    } else {
        b.last_seen_ms - a.last_seen_ms
    };
    let mut reasons: Vec<String> = Vec::new();
    if same_intent {
        reasons.push(concat("same intent: ", a.intent.as_str()));
    }
    let ghost r0 = strs(reasons@);
    if shared_files.len() > 0 {
        let names = join(&shared_files, ", ");
        reasons.push(concat("shared files: ", names.as_str()));
    }
    let ghost r1 = strs(reasons@);
    if domain_common > 0 {
        reasons.push(owned("overlapping domains"));
    }
    let ghost r2 = strs(reasons@);
    if same_br {
        match &a.branch {
            Some(br) => {
                reasons.push(concat("same branch: ", br.as_str()));
            },
            None => {},
        }
    }
    proof {
        let sa = a@;
        let sb = b@;
        let e0: Seq<Seq<char>> = if sa.intent == sb.intent { seq!["same intent: "@ + sa.intent] } else { Seq::empty() };
        let shared = common(sa.files, sb.files);
        let e1: Seq<Seq<char>> = if shared.len() > 0 { seq!["shared files: "@ + joined(shared, ", "@)] } else { Seq::empty() };
        let e2: Seq<Seq<char>> = if inter_size(sa.domains, sb.domains) > 0 { seq!["overlapping domains"@] } else { Seq::empty() };
        let e3: Seq<Seq<char>> = if same_branch(sa, sb) { seq!["same branch: "@ + sa.branch.unwrap()] } else { Seq::empty() };
        assert(r0 =~= e0);
        assert(r1 =~= e0 + e1);
        assert(r2 =~= e0 + e1 + e2);
        assert(strs(reasons@) =~= e0 + e1 + e2 + e3);
    }
    HeatSignals {
        task_common,
        task_union,
        domain_common,
        domain_union,
        file_common,
        file_union,
        same_intent,
        same_branch: same_br,
        time_gap_ms,
        shared_files,
        reasons,
    }
}

// ---------------------------------------------------------------------------
// Results
// ---------------------------------------------------------------------------

/// The weighed components of a heat score, each a double held by its IEEE-754
/// bit pattern.
#[derive(Debug, Clone, Copy, PartialEq, Eq)]
pub struct HeatComponents {
    pub task_similarity: u64,
    pub intent_similarity: u64,
    pub domain_overlap: u64,
    pub file_path_overlap: u64,
    pub temporal_activity: u64,
    pub branch_worktree_proximity: u64,
    pub historical_hotzone_risk: u64,
    pub historical_coupling: u64,
}

/// A heat score with its band, components and reasons.
#[derive(Debug, Clone)]
pub struct HeatResult {
    pub heat: u32,
    pub band: HeatBand,
    pub components: HeatComponents,
    pub reasons: Vec<String>,
}

pub struct HeatResultView {
    pub heat: u32,
    pub band: HeatBand,
    pub components: HeatComponents,
    pub reasons: Seq<Seq<char>>,
}

impl View for HeatResult {
    type V = HeatResultView;

    open spec fn view(&self) -> HeatResultView {
        HeatResultView { heat: self.heat, band: self.band, components: self.components, reasons: strs(self.reasons@) }
    }
}

impl HeatResult {
    /// A field-by-field copy.
    pub fn copy(&self) -> (r: HeatResult)
        ensures
            r@ == self@,
    {
        HeatResult {
            heat: self.heat,
            band: self.band,
            components: self.components,
            reasons: crate::cap::copy_strings(&self.reasons),
        }
    }
}

/// The overlap between two agents does not depend on which is named first:
/// the shared and total sizes, the branch match, the shared files and the
/// reasons are the same both ways round, so one edge serves the pair.
pub proof fn law_signals_symmetric(a: HeatInputsView, b: HeatInputsView)
    requires
        sorted_unique(a.files),
        sorted_unique(b.files),
    ensures
        inter_size(a.task_tokens, b.task_tokens) == inter_size(b.task_tokens, a.task_tokens),
        union_size(a.task_tokens, b.task_tokens) == union_size(b.task_tokens, a.task_tokens),
        inter_size(a.domains, b.domains) == inter_size(b.domains, a.domains),
        union_size(a.domains, b.domains) == union_size(b.domains, a.domains),
        inter_size(a.files, b.files) == inter_size(b.files, a.files),
        union_size(a.files, b.files) == union_size(b.files, a.files),
        same_branch(a, b) == same_branch(b, a),
        common(a.files, b.files) == common(b.files, a.files),
        heat_reasons(a, b) == heat_reasons(b, a),
{
    assert(a.task_tokens.to_set().intersect(b.task_tokens.to_set()) =~= b.task_tokens.to_set().intersect(
        a.task_tokens.to_set(),
    ));
    assert(a.task_tokens.to_set().union(b.task_tokens.to_set()) =~= b.task_tokens.to_set().union(a.task_tokens.to_set()));
    assert(a.domains.to_set().intersect(b.domains.to_set()) =~= b.domains.to_set().intersect(a.domains.to_set()));
    assert(a.domains.to_set().union(b.domains.to_set()) =~= b.domains.to_set().union(a.domains.to_set()));
    assert(a.files.to_set().intersect(b.files.to_set()) =~= b.files.to_set().intersect(a.files.to_set()));
    assert(a.files.to_set().union(b.files.to_set()) =~= b.files.to_set().union(a.files.to_set()));
    let pa = |x: Seq<char>| b.files.contains(x);
    let pb = |x: Seq<char>| a.files.contains(x);
    lemma_filter_sorted(a.files, pa);
    lemma_filter_sorted(b.files, pb);
    assert forall|x: Seq<char>| common(a.files, b.files).contains(x) <==> common(b.files, a.files).contains(x) by {
        if common(a.files, b.files).contains(x) {
            a.files.lemma_filter_contains_rev(pa, x);
            let k = choose|k: int| 0 <= k < b.files.len() && b.files[k] == x;
            b.files.lemma_filter_contains(pb, k);
        }
        if common(b.files, a.files).contains(x) {
            b.files.lemma_filter_contains_rev(pb, x);
            let k = choose|k: int| 0 <= k < a.files.len() && a.files[k] == x;
            a.files.lemma_filter_contains(pa, k);
        }
    }
    lemma_sorted_unique_ext(common(a.files, b.files), common(b.files, a.files));
}

} // verus!
