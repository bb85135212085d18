use coordify_core::cap::{ClaimChange, Proposal, ProposalKind};
use coordify_core::conflict::{compare, ConflictConfig, ConflictState, ConflictStore, Decision};

fn prop(kind: ProposalKind, files: &[&str]) -> Proposal {
    Proposal {
        kind,
        summary: "s".into(),
        claim_changes: vec![ClaimChange {
            agent_id: "x".into(),
            keep: Some(files.iter().map(|s| s.to_string()).collect()),
            take: None,
        }],
        requires_user_approval: false,
    }
}

#[test]
fn state_as_str_values() {
    assert_eq!(ConflictState::Detected.as_str(), "DETECTED");
    assert_eq!(ConflictState::AwaitingUserDecision.as_str(), "AWAITING_USER_DECISION");
    assert_eq!(ConflictState::Aborted.as_str(), "ABORTED");
    assert_eq!(ConflictState::Resolved.as_str(), "RESOLVED");
}

#[test]
fn open_is_idempotent_per_pair_and_direction_independent() {
    let mut s = ConflictStore::new();
    let c1 = s.open("agent-2", "agent-1", 80, 0, vec!["f".into()], vec!["AUTH".into()], vec!["BUGFIX".into()]);
    assert!(c1.is_some());
    let c = c1.unwrap();
    assert_eq!(c.conflict_id, "conflict-1");
    assert_eq!(c.agents, ("agent-1".to_string(), "agent-2".to_string()));
    assert_eq!(c.state, ConflictState::Detected);
    assert!(s.open("agent-1", "agent-2", 90, 0, vec![], vec![], vec![]).is_none());
    assert_eq!(s.open_count(), 1);
    assert!(s.has_open("agent-1", "agent-2"));
}

#[test]
fn resolve_removes_and_marks_resolved() {
    let mut s = ConflictStore::new();
    s.open("agent-1", "agent-2", 80, 0, vec![], vec![], vec![]);
    let r = s.resolve("agent-2", "agent-1").unwrap();
    assert_eq!(r.state, ConflictState::Resolved);
    assert!(!s.has_open("agent-1", "agent-2"));
    assert!(s.resolve("agent-1", "agent-2").is_none());
}

#[test]
fn abort_for_agent_removes_all_its_conflicts() {
    let mut s = ConflictStore::new();
    s.open("agent-1", "agent-2", 80, 0, vec![], vec![], vec![]);
    s.open("agent-1", "agent-3", 80, 0, vec![], vec![], vec![]);
    s.open("agent-2", "agent-3", 80, 0, vec![], vec![], vec![]);
    let aborted = s.abort_for_agent("agent-1");
    assert_eq!(aborted.len(), 2);
    assert!(aborted.iter().all(|c| c.state == ConflictState::Aborted));
    assert_eq!(s.open_count(), 1);
    assert!(s.has_open("agent-2", "agent-3"));
}

#[test]
fn ids_are_sequential_across_opens() {
    let mut s = ConflictStore::new();
    let a = s.open("agent-1", "agent-2", 80, 0, vec![], vec![], vec![]).unwrap();
    let b = s.open("agent-3", "agent-4", 80, 0, vec![], vec![], vec![]).unwrap();
    assert_eq!(a.conflict_id, "conflict-1");
    assert_eq!(b.conflict_id, "conflict-2");
}

#[test]
fn open_records_opened_at_and_empty_proposals() {
    let mut s = ConflictStore::new();
    let c = s.open("a", "b", 80, 12345, vec!["f".into()], vec![], vec![]).unwrap();
    assert_eq!(c.opened_at_ms, 12345);
    assert!(c.proposals.is_empty());
    assert_eq!(c.state, ConflictState::Detected);
}

#[test]
fn record_proposal_sets_negotiating_and_validates_participant() {
    let mut s = ConflictStore::new();
    let c = s.open("a", "b", 80, 0, vec![], vec![], vec![]).unwrap();
    let id = c.conflict_id.clone();
    assert!(!s.record_proposal("conflict-404", "a", prop(ProposalKind::CoOwn, &[])));
    assert!(!s.record_proposal(&id, "stranger", prop(ProposalKind::CoOwn, &[])));
    assert!(s.record_proposal(&id, "a", prop(ProposalKind::CoOwn, &[])));
    assert_eq!(s.get_by_id(&id).unwrap().state, ConflictState::Negotiating);
    assert!(!s.both_proposed(&id));
    assert!(s.record_proposal(&id, "b", prop(ProposalKind::CoOwn, &[])));
    assert!(s.both_proposed(&id));
}

#[test]
fn set_state_resolve_by_id_and_timed_out() {
    let mut s = ConflictStore::new();
    let id = s.open("a", "b", 80, 1000, vec![], vec![], vec![]).unwrap().conflict_id;
    assert!(s.timed_out(1500, 1000).is_empty());
    assert_eq!(s.timed_out(2001, 1000), vec![id.clone()]);
    s.set_state(&id, ConflictState::AwaitingUserDecision);
    assert!(s.timed_out(9999, 1000).is_empty());
    let r = s.resolve_by_id(&id).unwrap();
    assert_eq!(r.state, ConflictState::Resolved);
    assert!(s.resolve_by_id(&id).is_none());
}

#[test]
fn compare_covers_every_branch() {
    let cfg = ConflictConfig::default();
    let no_paths: Vec<String> = vec![];
    let mut p = prop(ProposalKind::CoOwn, &[]);
    p.requires_user_approval = true;
    assert_eq!(compare(&p, &prop(ProposalKind::CoOwn, &[]), &no_paths, &cfg),
               Decision::Escalate { reason: "USER_APPROVAL_REQUIRED" });
    assert_eq!(compare(&prop(ProposalKind::AskUser, &[]), &prop(ProposalKind::CoOwn, &[]), &no_paths, &cfg),
               Decision::Escalate { reason: "AGENT_REQUESTED_USER" });
    let pcfg = ConflictConfig { protected_paths: vec!["src/auth/".into()], ..ConflictConfig::default() };
    assert_eq!(compare(&prop(ProposalKind::CoOwn, &[]), &prop(ProposalKind::CoOwn, &[]),
                       &vec!["src/auth/session.ts".to_string()], &pcfg),
               Decision::Escalate { reason: "PROTECTED_PATH" });
    assert_eq!(compare(&prop(ProposalKind::YieldClaim, &[]), &prop(ProposalKind::CoOwn, &[]), &no_paths, &cfg),
               Decision::AutoResolve { resolution: "PARTICIPANT_STEPPED_ASIDE" });
    assert_eq!(compare(&prop(ProposalKind::QueueTask, &[]), &prop(ProposalKind::CoOwn, &[]), &no_paths, &cfg),
               Decision::AutoResolve { resolution: "QUEUED" });
    assert_eq!(compare(&prop(ProposalKind::SplitScope, &["a.rs"]), &prop(ProposalKind::SplitScope, &["b.rs"]), &no_paths, &cfg),
               Decision::AutoResolve { resolution: "SCOPE_SPLIT" });
    assert_eq!(compare(&prop(ProposalKind::SplitScope, &["a.rs"]), &prop(ProposalKind::SplitScope, &["a.rs"]), &no_paths, &cfg),
               Decision::Escalate { reason: "OVERLAPPING_SPLIT" });
    assert_eq!(compare(&prop(ProposalKind::CoOwn, &[]), &prop(ProposalKind::CoOwn, &[]), &no_paths, &cfg),
               Decision::AutoResolve { resolution: "CO_OWNERSHIP" });
    let nocoown = ConflictConfig { allow_co_own: false, ..ConflictConfig::default() };
    assert_eq!(compare(&prop(ProposalKind::CoOwn, &[]), &prop(ProposalKind::CoOwn, &[]), &no_paths, &nocoown),
               Decision::Escalate { reason: "CO_OWN_DISALLOWED" });
    assert_eq!(compare(&prop(ProposalKind::CoOwn, &[]), &prop(ProposalKind::SplitScope, &["a.rs"]), &no_paths, &cfg),
               Decision::Escalate { reason: "INCOMPATIBLE_PROPOSALS" });
}

#[test]
fn sweep_timeouts_escalates_only_waiting_conflicts() {
    let mut s = ConflictStore::new();
    let a = s.open("a", "b", 80, 1000, vec![], vec![], vec![]).unwrap().conflict_id;
    let b = s.open("c", "d", 80, 5000, vec![], vec![], vec![]).unwrap().conflict_id;
    let swept = s.sweep_timeouts(3000, 1000);
    assert_eq!(swept.len(), 1);
    assert_eq!(swept[0].conflict_id, a);
    assert_eq!(swept[0].state, ConflictState::AwaitingUserDecision);
    assert_eq!(s.get_by_id(&a).unwrap().state, ConflictState::AwaitingUserDecision);
    assert_eq!(s.get_by_id(&b).unwrap().state, ConflictState::Detected);
    assert!(s.sweep_timeouts(3000, 1000).is_empty());
}

#[test]
fn proposals_sorted_orders_by_agent() {
    let mut s = ConflictStore::new();
    let id = s.open("b", "a", 80, 0, vec![], vec![], vec![]).unwrap().conflict_id;
    assert!(s.record_proposal(&id, "b", prop(ProposalKind::CoOwn, &[])));
    assert!(s.record_proposal(&id, "a", prop(ProposalKind::YieldClaim, &[])));
    let c = s.get_by_id(&id).unwrap();
    let sorted = c.proposals_sorted();
    assert_eq!(sorted[0].0, "a");
    assert_eq!(sorted[0].1.kind, ProposalKind::YieldClaim);
    assert_eq!(sorted[1].0, "b");
}

#[test]
fn compare_ignores_who_proposed_what() {
    let cfg = ConflictConfig::default();
    let paths: Vec<String> = vec!["src/a.rs".into()];
    let kinds = [
        ProposalKind::CoOwn,
        ProposalKind::SplitScope,
        ProposalKind::YieldClaim,
        ProposalKind::TransferTask,
        ProposalKind::QueueTask,
        ProposalKind::AskUser,
        ProposalKind::AbortTask,
    ];
    for ka in kinds {
        for kb in kinds {
            let a = prop(ka, &["x.rs"]);
            let b = prop(kb, &["y.rs", "x.rs"]);
            assert_eq!(compare(&a, &b, &paths, &cfg), compare(&b, &a, &paths, &cfg));
        }
    }
}

#[test]
fn all_open_lists_open_conflicts_in_order() {
    let mut s = ConflictStore::new();
    s.open("agent-1", "agent-2", 80, 0, vec![], vec![], vec![]);
    s.open("agent-3", "agent-1", 90, 0, vec![], vec![], vec![]);
    let ids: Vec<&str> = s.all_open().iter().map(|c| c.conflict_id.as_str()).collect();
    assert_eq!(ids, vec!["conflict-1", "conflict-2"]);
    assert_eq!(s.opened_total(), 2);
    s.resolve("agent-1", "agent-2");
    assert_eq!(s.all_open().len(), 1);
    assert_eq!(s.opened_total(), 2);
}
