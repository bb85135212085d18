//! Coordination protocol vocabulary: agent states, intents, proposals,
//! claim statuses, release reasons and error codes, with their canonical
//! wire names.

use vstd::prelude::*;

verus! {

/// The view of a list of strings: the list of their characters.
pub open spec fn strs(v: Seq<String>) -> Seq<Seq<char>> {
    v.map_values(|s: String| s@)
}

/// A copy of a list of strings.
pub fn copy_strings(v: &Vec<String>) -> (r: Vec<String>)
    ensures
        strs(r@) == strs(v@),
{
    let mut r: Vec<String> = Vec::new();
    let mut i: usize = 0;
    while i < v.len()
        invariant
            i <= v@.len(),
            r@.len() == i,
            forall|j: int| 0 <= j < i ==> (#[trigger] r@[j])@ == v@[j]@,
        decreases v.len() - i,
    {
        r.push(v[i].clone());
        i = i + 1;
    }
    assert(strs(r@) =~= strs(v@));
    r
}

#[derive(Debug, Clone, Copy, PartialEq, Eq, Structural)]
pub enum AgentState {
    Discovery,
    Idle,
    Active,
    SubagentWaiting,
    Testing,
    Blocked,
    Negotiating,
    WaitingUser,
    Offline,
}

#[derive(Debug, Clone, Copy, PartialEq, Eq, Structural)]
pub enum Intent {
    Security,
    Qa,
    Testing,
    Performance,
    Refactor,
    Documentation,
    Feature,
    Bugfix,
    Architecture,
    Devops,
    Research,
    Migration,
    Configuration,
    Observability,
}

impl Intent {
    /// The canonical wire name.
    pub open spec fn name(self) -> Seq<char> {
        match self {
            Intent::Security => "SECURITY"@,
            Intent::Qa => "QA"@,
            Intent::Testing => "TESTING"@,
            Intent::Performance => "PERFORMANCE"@,
            Intent::Refactor => "REFACTOR"@,
            Intent::Documentation => "DOCUMENTATION"@,
            Intent::Feature => "FEATURE"@,
            Intent::Bugfix => "BUGFIX"@,
            Intent::Architecture => "ARCHITECTURE"@,
            Intent::Devops => "DEVOPS"@,
            Intent::Research => "RESEARCH"@,
            Intent::Migration => "MIGRATION"@,
            Intent::Configuration => "CONFIGURATION"@,
            Intent::Observability => "OBSERVABILITY"@,
        }
    }

    pub fn as_str(&self) -> (r: &'static str)
        ensures
            r@ == self.name(),
    {
        match self {
            Intent::Security => "SECURITY",
            Intent::Qa => "QA",
            Intent::Testing => "TESTING",
            Intent::Performance => "PERFORMANCE",
            Intent::Refactor => "REFACTOR",
            Intent::Documentation => "DOCUMENTATION",
            Intent::Feature => "FEATURE",
            Intent::Bugfix => "BUGFIX",
            Intent::Architecture => "ARCHITECTURE",
            Intent::Devops => "DEVOPS",
            Intent::Research => "RESEARCH",
            Intent::Migration => "MIGRATION",
            Intent::Configuration => "CONFIGURATION",
            Intent::Observability => "OBSERVABILITY",
        }
    }
}

#[derive(Debug, Clone, Copy, PartialEq, Eq, Structural)]
pub enum ProposalKind {
    CoOwn,
    SplitScope,
    YieldClaim,
    TransferTask,
    QueueTask,
    AskUser,
    AbortTask,
}

impl ProposalKind {
    /// The canonical wire name.
    pub open spec fn name(self) -> Seq<char> {
        match self {
            ProposalKind::CoOwn => "CO_OWN"@,
            ProposalKind::SplitScope => "SPLIT_SCOPE"@,
            ProposalKind::YieldClaim => "YIELD_CLAIM"@,
            ProposalKind::TransferTask => "TRANSFER_TASK"@,
            ProposalKind::QueueTask => "QUEUE_TASK"@,
            ProposalKind::AskUser => "ASK_USER"@,
            ProposalKind::AbortTask => "ABORT_TASK"@,
        }
    }

    pub fn as_str(&self) -> (r: &'static str)
        ensures
            r@ == self.name(),
    {
        match self {
            ProposalKind::CoOwn => "CO_OWN",
            ProposalKind::SplitScope => "SPLIT_SCOPE",
            ProposalKind::YieldClaim => "YIELD_CLAIM",
            ProposalKind::TransferTask => "TRANSFER_TASK",
            ProposalKind::QueueTask => "QUEUE_TASK",
            ProposalKind::AskUser => "ASK_USER",
            ProposalKind::AbortTask => "ABORT_TASK",
        }
    }
}

/// A change to one agent's claim that a proposal asks for.
#[derive(Debug, Clone, PartialEq)]
pub struct ClaimChange {
    pub agent_id: String,
    pub keep: Option<Vec<String>>,
    pub take: Option<Vec<String>>,
}

pub struct ClaimChangeView {
    pub agent_id: Seq<char>,
    pub keep: Option<Seq<Seq<char>>>,
    pub take: Option<Seq<Seq<char>>>,
}

pub open spec fn opt_strs(v: Option<Vec<String>>) -> Option<Seq<Seq<char>>> {
    match v {
        Some(x) => Some(strs(x@)),
        None => None,
    }
}

impl View for ClaimChange {
    type V = ClaimChangeView;

    open spec fn view(&self) -> ClaimChangeView {
        ClaimChangeView { agent_id: self.agent_id@, keep: opt_strs(self.keep), take: opt_strs(self.take) }
    }
}

fn copy_opt_strings(v: &Option<Vec<String>>) -> (r: Option<Vec<String>>)
    ensures
        opt_strs(r) == opt_strs(*v),
{
    match v {
        Some(x) => Some(copy_strings(x)),
        None => None,
    }
}

impl ClaimChange {
    pub fn copy(&self) -> (r: ClaimChange)
        ensures
            r@ == self@,
    {
        ClaimChange {
            agent_id: self.agent_id.clone(),
            keep: copy_opt_strings(&self.keep),
            take: copy_opt_strings(&self.take),
        }
    }
}

/// A participant's offer for settling a conflict.
#[derive(Debug, Clone, PartialEq)]
pub struct Proposal {
    pub kind: ProposalKind,
    pub summary: String,
    pub claim_changes: Vec<ClaimChange>,
    pub requires_user_approval: bool,
}

pub struct ProposalView {
    pub kind: ProposalKind,
    pub summary: Seq<char>,
    pub claim_changes: Seq<ClaimChangeView>,
    pub requires_user_approval: bool,
}

impl View for Proposal {
    type V = ProposalView;

    open spec fn view(&self) -> ProposalView {
        ProposalView {
            kind: self.kind,
            summary: self.summary@,
            claim_changes: self.claim_changes@.map_values(|c: ClaimChange| c@),
            requires_user_approval: self.requires_user_approval,
        }
    }
}

impl Proposal {
    pub fn copy(&self) -> (r: Proposal)
        ensures
            r@ == self@,
    {
        let mut changes: Vec<ClaimChange> = Vec::new();
        let mut i: usize = 0;
        while i < self.claim_changes.len()
            invariant
                i <= self.claim_changes@.len(),
                changes@.len() == i,
                forall|j: int| 0 <= j < i ==> (#[trigger] changes@[j])@ == self.claim_changes@[j]@,
            decreases self.claim_changes.len() - i,
        {
            changes.push(self.claim_changes[i].copy());
            i = i + 1;
        }
        assert(changes@.map_values(|c: ClaimChange| c@) =~= self.claim_changes@.map_values(|c: ClaimChange| c@));
        Proposal {
            kind: self.kind,
            summary: self.summary.clone(),
            claim_changes: changes,
            requires_user_approval: self.requires_user_approval,
        }
    }
}

#[derive(Debug, Clone, Copy, PartialEq, Eq, Structural)]
pub enum ClaimStatus {
    Proposed,
    Provisional,
    Active,
    Released,
    Orphaned,
    Reclaimable,
    Rejected,
}

impl ClaimStatus {
    /// The canonical wire name.
    pub open spec fn name(self) -> Seq<char> {
        match self {
            ClaimStatus::Proposed => "PROPOSED"@,
            ClaimStatus::Provisional => "PROVISIONAL"@,
            ClaimStatus::Active => "ACTIVE"@,
            ClaimStatus::Released => "RELEASED"@,
            ClaimStatus::Orphaned => "ORPHANED"@,
            ClaimStatus::Reclaimable => "RECLAIMABLE"@,
            ClaimStatus::Rejected => "REJECTED"@,
        }
    }

    pub fn as_str(&self) -> (r: &'static str)
        ensures
            r@ == self.name(),
    {
        match self {
            ClaimStatus::Proposed => "PROPOSED",
            ClaimStatus::Provisional => "PROVISIONAL",
            ClaimStatus::Active => "ACTIVE",
            ClaimStatus::Released => "RELEASED",
            ClaimStatus::Orphaned => "ORPHANED",
            ClaimStatus::Reclaimable => "RECLAIMABLE",
            ClaimStatus::Rejected => "REJECTED",
        }
    }
}

#[derive(Debug, Clone, Copy, PartialEq, Eq, Structural)]
pub enum ReleaseReason {
    TaskCompleted,
    TaskAborted,
    UserChangedTask,
    ClearInvoked,
    HandoffTransfer,
    ManualRelease,
    SessionEnd,
}

#[derive(Debug, Clone, Copy, PartialEq, Eq, Structural)]
pub enum CapErrorCode {
    SchemaValidationFailed,
    InvalidStateTransition,
    AuthFailed,
    ClaimConflict,
    AgentNotFound,
    ClaimNotFound,
    ConflictNotFound,
    CoreDegraded,
    Timeout,
    UnsupportedCapVersion,
}

impl CapErrorCode {
    /// The canonical wire name.
    pub open spec fn name(self) -> Seq<char> {
        match self {
            CapErrorCode::SchemaValidationFailed => "SCHEMA_VALIDATION_FAILED"@,
            CapErrorCode::InvalidStateTransition => "INVALID_STATE_TRANSITION"@,
            CapErrorCode::AuthFailed => "AUTH_FAILED"@,
            CapErrorCode::ClaimConflict => "CLAIM_CONFLICT"@,
            CapErrorCode::AgentNotFound => "AGENT_NOT_FOUND"@,
            CapErrorCode::ClaimNotFound => "CLAIM_NOT_FOUND"@,
            CapErrorCode::ConflictNotFound => "CONFLICT_NOT_FOUND"@,
            CapErrorCode::CoreDegraded => "CORE_DEGRADED"@,
            CapErrorCode::Timeout => "TIMEOUT"@,
            CapErrorCode::UnsupportedCapVersion => "UNSUPPORTED_CAP_VERSION"@,
        }
    }

    pub fn as_str(&self) -> (r: &'static str)
        ensures
            r@ == self.name(),
    {
        match self {
            CapErrorCode::SchemaValidationFailed => "SCHEMA_VALIDATION_FAILED",
            CapErrorCode::InvalidStateTransition => "INVALID_STATE_TRANSITION",
            CapErrorCode::AuthFailed => "AUTH_FAILED",
            CapErrorCode::ClaimConflict => "CLAIM_CONFLICT",
            CapErrorCode::AgentNotFound => "AGENT_NOT_FOUND",
            CapErrorCode::ClaimNotFound => "CLAIM_NOT_FOUND",
            CapErrorCode::ConflictNotFound => "CONFLICT_NOT_FOUND",
            CapErrorCode::CoreDegraded => "CORE_DEGRADED",
            CapErrorCode::Timeout => "TIMEOUT",
            CapErrorCode::UnsupportedCapVersion => "UNSUPPORTED_CAP_VERSION",
        }
    }
}

} // verus!
