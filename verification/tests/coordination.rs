use coordify_core::cap::{CapErrorCode, ClaimStatus, Proposal, ProposalKind};
use coordify_core::claim::ClaimStore;
use coordify_core::conflict::{ConflictConfig, ConflictState, ConflictStore};
use coordify_core::coordinator::{
    apply_heat_updates, arbitration_options, drop_agent_heat, escalation, finalize_negotiation, handle_request, reaper_tick,
    settle_heat_edge, submit_proposal, user_decision, HeatConflict, Negotiation, Routed,
};
use coordify_core::heat::{HeatBand, HeatComponents, HeatInputs, HeatResult};
use coordify_core::heatstore::HeatStore;
use coordify_core::ipc::{Request, Response};
use coordify_core::state::State;
use coordify_core::waitgraph::WaitGraph;

fn empty() -> serde_json::Value {
    serde_json::Value::Object(serde_json::Map::new())
}

fn req(token: &str, action: &str) -> Request {
    Request {
        id: "r1".to_string(),
        token: token.to_string(),
        action: action.to_string(),
        agent_id: None,
        meta: empty(),
        event: empty(),
        cap_version: None,
    }
}

fn answered(r: Routed) -> Response {
    match r {
        Routed::Answered(resp) => resp,
        Routed::Registered { response, .. } => response,
        Routed::SubmitEvent => panic!("request was passed on"),
    }
}

fn proposal(from: &str, kind: ProposalKind) -> Proposal {
    Proposal {
        kind,
        summary: format!("{} proposes {}", from, kind.as_str()),
        claim_changes: vec![],
        requires_user_approval: false,
    }
}

fn open_conflict(cs: &mut ConflictStore) -> String {
    cs.open(
        "agent-1",
        "agent-2",
        82,
        1_000,
        vec!["src/auth/session.ts".into()],
        vec!["AUTH".into()],
        vec!["BUGFIX".into(), "BUGFIX".into()],
    )
    .unwrap()
    .conflict_id
}

#[test]
fn rejects_bad_token() {
    let mut s = State::new();
    let resp = answered(handle_request(&mut s, "good", &req("bad", "register"), 1_000));
    assert!(!resp.ok);
    assert_eq!(resp.error.as_deref(), Some("unauthorized"));
    assert_eq!(s.agent_count(), 0);
}

#[test]
fn register_then_heartbeat() {
    let mut s = State::new();
    let id = match handle_request(&mut s, "good", &req("good", "register"), 1_000) {
        Routed::Registered { response, agent_id } => {
            assert!(response.ok);
            assert_eq!(response.agent_id.as_deref(), Some(agent_id.as_str()));
            agent_id
        }
        _ => panic!("register was not registered"),
    };
    let mut hb = req("good", "heartbeat");
    hb.agent_id = Some(id.clone());
    assert!(answered(handle_request(&mut s, "good", &hb, 2_000)).ok);
    let mut bad_hb = req("good", "heartbeat");
    bad_hb.agent_id = Some("agent-999".to_string());
    let resp = answered(handle_request(&mut s, "good", &bad_hb, 2_000));
    assert!(!resp.ok);
    assert_eq!(resp.error.as_deref(), Some("unknown agent"));
}

#[test]
fn unknown_action_errors() {
    let mut s = State::new();
    let resp = answered(handle_request(&mut s, "good", &req("good", "frobnicate"), 1_000));
    assert_eq!(resp.error.as_deref(), Some("unknown action"));
}

#[test]
fn heartbeat_with_missing_agent_id() {
    let mut s = State::new();
    let resp = answered(handle_request(&mut s, "good", &req("good", "heartbeat"), 1_000));
    assert!(!resp.ok);
    assert_eq!(resp.error.as_deref(), Some("missing agent_id"));
}

#[test]
fn submit_event_is_passed_on() {
    let mut s = State::new();
    let mut r = req("good", "submit_event");
    r.cap_version = Some("0.1".to_string());
    assert!(matches!(handle_request(&mut s, "good", &r, 1_000), Routed::SubmitEvent));
}

#[test]
fn reaper_emits_lost_and_orphaned_events() {
    let mut s = State::new();
    let id = s.register(empty(), 1_000);
    let mut claims = ClaimStore::new();
    let c = claims
        .propose(&id, "fix".into(), "BUGFIX".into(), vec![], vec!["a.rs".into()], 0.9f64.to_bits())
        .unwrap();
    let mut conflicts = ConflictStore::new();
    let report = reaper_tick(&mut s, &mut claims, &mut conflicts, 1_001_000, 10_000, 60_000, 60_000);
    assert_eq!(report.lost, vec![id.clone()]);
    assert_eq!(report.orphaned, vec![(Some(c.claim_id.clone()), id)]);
    assert!(report.reclaimable.is_empty());
    assert!(report.network_empty);
    assert_eq!(s.agent_count(), 0);
    assert_eq!(claims.get(&c.claim_id).unwrap().status, ClaimStatus::Orphaned);
}

#[test]
fn both_compatible_proposals_resolve_conflict() {
    let mut cs = ConflictStore::new();
    let mut g = WaitGraph::new();
    let cfg = ConflictConfig::default();
    let id = open_conflict(&mut cs);
    assert_eq!(cs.open_count(), 1);
    let r1 = submit_proposal(&mut cs, &mut g, &cfg, &id, "agent-1", proposal("agent-1", ProposalKind::YieldClaim));
    assert!(matches!(r1, Ok(Negotiation::Pending)));
    let r2 = submit_proposal(&mut cs, &mut g, &cfg, &id, "agent-2", proposal("agent-2", ProposalKind::CoOwn));
    assert!(matches!(r2, Ok(Negotiation::Resolved { .. })));
    assert_eq!(cs.open_count(), 0);
}

#[test]
fn incompatible_proposals_escalate_to_user() {
    let mut cs = ConflictStore::new();
    let mut g = WaitGraph::new();
    let cfg = ConflictConfig::default();
    let id = open_conflict(&mut cs);
    assert!(submit_proposal(&mut cs, &mut g, &cfg, &id, "agent-1", proposal("agent-1", ProposalKind::CoOwn)).is_ok());
    let r = submit_proposal(&mut cs, &mut g, &cfg, &id, "agent-2", proposal("agent-2", ProposalKind::SplitScope));
    assert!(matches!(r, Ok(Negotiation::Escalated { .. })));
    assert_eq!(cs.open_count(), 1);
    assert_eq!(cs.get_by_id(&id).unwrap().state, ConflictState::AwaitingUserDecision);
}

#[test]
fn mutual_queue_is_deadlock_and_escalates() {
    let mut cs = ConflictStore::new();
    let mut g = WaitGraph::new();
    let cfg = ConflictConfig::default();
    let id = open_conflict(&mut cs);
    assert!(submit_proposal(&mut cs, &mut g, &cfg, &id, "agent-1", proposal("agent-1", ProposalKind::QueueTask)).is_ok());
    let r = submit_proposal(&mut cs, &mut g, &cfg, &id, "agent-2", proposal("agent-2", ProposalKind::QueueTask));
    match r {
        Ok(Negotiation::Deadlock { edges, .. }) => assert_eq!(edges.len(), 2),
        _ => panic!("expected a deadlock"),
    }
    assert_eq!(cs.get_by_id(&id).unwrap().state, ConflictState::AwaitingUserDecision);
}

#[test]
fn proposal_for_unknown_conflict_errors() {
    let mut cs = ConflictStore::new();
    let mut g = WaitGraph::new();
    let cfg = ConflictConfig::default();
    let _ = open_conflict(&mut cs);
    let r = submit_proposal(&mut cs, &mut g, &cfg, "conflict-999", "agent-1", proposal("agent-1", ProposalKind::CoOwn));
    assert!(matches!(r, Err(CapErrorCode::ConflictNotFound)));
    assert_eq!(CapErrorCode::ConflictNotFound.as_str(), "CONFLICT_NOT_FOUND");
}

#[test]
fn proposal_from_outsider_errors() {
    let mut cs = ConflictStore::new();
    let mut g = WaitGraph::new();
    let cfg = ConflictConfig::default();
    let id = open_conflict(&mut cs);
    let r = submit_proposal(&mut cs, &mut g, &cfg, &id, "agent-9", proposal("agent-9", ProposalKind::CoOwn));
    assert!(matches!(r, Err(CapErrorCode::ConflictNotFound)));
}

#[test]
fn user_decision_resolves_escalated_conflict() {
    let mut cs = ConflictStore::new();
    let mut g = WaitGraph::new();
    let cfg = ConflictConfig::default();
    let id = open_conflict(&mut cs);
    assert!(submit_proposal(&mut cs, &mut g, &cfg, &id, "agent-1", proposal("agent-1", ProposalKind::CoOwn)).is_ok());
    assert!(submit_proposal(&mut cs, &mut g, &cfg, &id, "agent-2", proposal("agent-2", ProposalKind::SplitScope)).is_ok());
    assert_eq!(cs.open_count(), 1);
    let c = user_decision(&mut cs, &mut g, &id).unwrap();
    assert_eq!(c.state, ConflictState::Resolved);
    assert_eq!(cs.open_count(), 0);
}

#[test]
fn user_decision_unknown_conflict_errors() {
    let mut cs = ConflictStore::new();
    let mut g = WaitGraph::new();
    let _ = open_conflict(&mut cs);
    assert!(matches!(user_decision(&mut cs, &mut g, "conflict-999"), Err(CapErrorCode::ConflictNotFound)));
}

#[test]
fn timed_out_conflict_is_escalated() {
    let mut s = State::new();
    let mut claims = ClaimStore::new();
    let mut cs = ConflictStore::new();
    let id = open_conflict(&mut cs);
    let report = reaper_tick(&mut s, &mut claims, &mut cs, 10_000_000, 10_000, 60_000, 60_000);
    assert_eq!(report.timed_out.len(), 1);
    assert_eq!(cs.open_count(), 1);
    assert_eq!(cs.get_by_id(&id).unwrap().state, ConflictState::AwaitingUserDecision);
}

#[test]
fn sweep_is_noop_before_timeout() {
    let mut s = State::new();
    let mut claims = ClaimStore::new();
    let mut cs = ConflictStore::new();
    let id = open_conflict(&mut cs);
    let report = reaper_tick(&mut s, &mut claims, &mut cs, 1_001, 10_000, 60_000, 60_000);
    assert!(report.timed_out.is_empty());
    assert_eq!(cs.get_by_id(&id).unwrap().state, ConflictState::Detected);
}

#[test]
fn deadlock_then_finalize_again_is_pending() {
    let mut cs = ConflictStore::new();
    let mut g = WaitGraph::new();
    let cfg = ConflictConfig::default();
    assert!(matches!(finalize_negotiation(&mut cs, &mut g, &cfg, "conflict-1"), Negotiation::Pending));
}

#[test]
fn escalation_levels_by_band() {
    assert_eq!(escalation(HeatBand::Safe), None);
    assert_eq!(escalation(HeatBand::Monitor), None);
    assert_eq!(escalation(HeatBand::Overlap), Some((2, "COORDINATE_BEFORE_WRITE")));
    assert_eq!(escalation(HeatBand::ConflictCandidate), Some((3, "ASK_USER")));
}

fn inputs(agent: &str, files: &[&str]) -> HeatInputs {
    let fs: Vec<String> = files.iter().map(|f| f.to_string()).collect();
    HeatInputs::new(agent, "BUGFIX", &vec!["AUTH".to_string()], &fs, "fix session expiry", 1_000, Some("main".to_string()))
}

#[test]
fn heat_edge_opens_then_resolves_conflict() {
    let mut cs = ConflictStore::new();
    let a = inputs("agent-1", &["src/a.rs", "src/b.rs"]);
    let b = inputs("agent-2", &["src/b.rs"]);
    match settle_heat_edge(&mut cs, &a, &b, 85, HeatBand::ConflictCandidate, 5_000) {
        HeatConflict::Opened(c) => {
            assert_eq!(c.paths, vec!["src/b.rs".to_string()]);
            assert_eq!(c.opened_at_ms, 5_000);
        }
        _ => panic!("expected a conflict to open"),
    }
    assert!(matches!(settle_heat_edge(&mut cs, &a, &b, 90, HeatBand::ConflictCandidate, 6_000), HeatConflict::Unchanged));
    assert!(matches!(settle_heat_edge(&mut cs, &a, &b, 40, HeatBand::Monitor, 7_000), HeatConflict::Resolved(_)));
    assert_eq!(cs.open_count(), 0);
}

#[test]
fn arbitration_options_are_numbered_in_agent_order() {
    let mut cs = ConflictStore::new();
    let mut g = WaitGraph::new();
    let cfg = ConflictConfig::default();
    let id = open_conflict(&mut cs);
    assert!(submit_proposal(&mut cs, &mut g, &cfg, &id, "agent-2", proposal("agent-2", ProposalKind::SplitScope)).is_ok());
    assert!(submit_proposal(&mut cs, &mut g, &cfg, &id, "agent-1", proposal("agent-1", ProposalKind::CoOwn)).is_ok());
    let c = cs.get_by_id(&id).unwrap();
    let opts = arbitration_options(c);
    assert_eq!(opts.len(), 2);
    assert_eq!((opts[0].id.as_str(), opts[0].from.as_str()), ("option-1", "agent-1"));
    assert_eq!((opts[1].id.as_str(), opts[1].from.as_str()), ("option-2", "agent-2"));
    assert_eq!(opts[1].summary, "agent-2 proposes SPLIT_SCOPE");
}

fn result(heat: u32, band: HeatBand) -> HeatResult {
    HeatResult {
        heat,
        band,
        components: HeatComponents {
            task_similarity: 0,
            intent_similarity: 0,
            domain_overlap: 0,
            file_path_overlap: 0,
            temporal_activity: 0,
            branch_worktree_proximity: 0,
            historical_hotzone_risk: 0,
            historical_coupling: 0,
        },
        reasons: vec!["same files".to_string()],
    }
}

#[test]
fn heat_updates_record_edges_and_open_conflicts() {
    let mut hs = HeatStore::new();
    let mut cs = ConflictStore::new();
    let mine = inputs("agent-2", &["src/a.rs"]);
    let updates = vec![
        (inputs("agent-1", &["src/a.rs"]), result(85, HeatBand::ConflictCandidate)),
        (inputs("agent-3", &["src/z.rs"]), result(10, HeatBand::Safe)),
    ];
    let r = apply_heat_updates(&mut hs, &mut cs, &mine, &updates, 9_000);
    assert_eq!(r.len(), 2);
    assert!(matches!(&r[0], HeatConflict::Opened(c) if c.conflict_id == "conflict-1" && c.opened_at_ms == 9_000));
    assert!(matches!(r[1], HeatConflict::Unchanged));
    assert_eq!(hs.len(), 2);
    assert_eq!(hs.get("agent-1", "agent-2").unwrap().heat, 85);
    assert_eq!(hs.get("agent-3", "agent-2").unwrap().band, HeatBand::Safe);
    assert!(cs.has_open("agent-1", "agent-2"));

    let cooled = vec![(inputs("agent-1", &["src/b.rs"]), result(30, HeatBand::Monitor))];
    let r2 = apply_heat_updates(&mut hs, &mut cs, &mine, &cooled, 10_000);
    assert!(matches!(r2[0], HeatConflict::Resolved(_)));
    assert_eq!(hs.get("agent-2", "agent-1").unwrap().heat, 30);
    assert_eq!(cs.open_count(), 0);
}

#[test]
fn dropping_an_agent_clears_its_heat_waits_and_conflicts() {
    let mut hs = HeatStore::new();
    let mut cs = ConflictStore::new();
    let mut g = WaitGraph::new();
    hs.upsert("agent-1", "agent-2", result(85, HeatBand::ConflictCandidate));
    hs.upsert("agent-2", "agent-3", result(20, HeatBand::Safe));
    g.add_edge("agent-1", "agent-2", "src/a.rs");
    let _ = open_conflict(&mut cs);
    let aborted = drop_agent_heat(&mut hs, &mut g, &mut cs, "agent-1");
    assert_eq!(aborted.len(), 1);
    assert_eq!(aborted[0].state, ConflictState::Aborted);
    assert_eq!(cs.open_count(), 0);
    assert_eq!(hs.len(), 1);
    assert!(hs.get("agent-1", "agent-2").is_none());
    assert!(g.find_cycle().is_none());
}

#[test]
fn agent_lookup_by_id() {
    let mut s = State::new();
    let id = s.register(empty(), 4_000);
    let a = s.agent(&id).unwrap();
    assert_eq!(a.last_seen_ms, 4_000);
    assert!(s.agent("agent-42").is_none());
}

#[test]
fn register_keeps_the_request_meta() {
    let mut s = State::new();
    let mut r = req("good", "register");
    let mut meta = serde_json::Map::new();
    meta.insert("branch".to_string(), serde_json::Value::String("main".to_string()));
    r.meta = serde_json::Value::Object(meta);
    let id = match handle_request(&mut s, "good", &r, 7_000) {
        Routed::Registered { agent_id, .. } => agent_id,
        _ => panic!("register was not registered"),
    };
    let a = s.agent(&id).unwrap();
    assert_eq!(a.meta, r.meta);
    assert_eq!(a.last_seen_ms, 7_000);
}

#[test]
fn recommendation_follows_the_hottest_edge() {
    assert_eq!(coordify_core::coordinator::predicted_recommendation(&vec![]), "PROCEED");
    let edges = vec![
        result(30, HeatBand::Monitor),
        result(80, HeatBand::ConflictCandidate),
        result(55, HeatBand::Overlap),
    ];
    assert_eq!(coordify_core::coordinator::predicted_recommendation(&edges), "NEGOTIATE_BEFORE_CLAIM");
    let tied = vec![result(60, HeatBand::Overlap), result(60, HeatBand::Monitor)];
    assert_eq!(coordify_core::coordinator::predicted_recommendation(&tied), "MONITOR");
}

#[test]
fn claim_proposed_needs_a_registered_agent() {
    let mut s = State::new();
    let mut claims = ClaimStore::new();
    let r = coordify_core::coordinator::propose_claim(
        &mut s,
        &mut claims,
        "agent-7",
        "fix".into(),
        "BUGFIX".into(),
        vec![],
        vec!["a.rs".into()],
        0.9f64.to_bits(),
    );
    assert!(matches!(r, Err(CapErrorCode::AgentNotFound)));
    assert!(claims.is_empty());
    let id = s.register(empty(), 1_000);
    let low = coordify_core::coordinator::propose_claim(&mut s, &mut claims, &id, "fix".into(), "BUGFIX".into(), vec![], vec![], 0.2f64.to_bits());
    assert!(matches!(low, Ok(None)));
    let ok = coordify_core::coordinator::propose_claim(&mut s, &mut claims, &id, "fix".into(), "BUGFIX".into(), vec![], vec![], 0.5f64.to_bits())
        .unwrap()
        .unwrap();
    assert_eq!(ok.claim_id, "claim-1");
    assert_eq!(ok.status, ClaimStatus::Provisional);
}

#[test]
fn clear_releases_the_agents_live_claims() {
    let mut s = State::new();
    let mut claims = ClaimStore::new();
    assert!(matches!(
        coordify_core::coordinator::clear_agent_claims(&mut s, &mut claims, "agent-1"),
        Err(CapErrorCode::AgentNotFound)
    ));
    let a = s.register(empty(), 1_000);
    let b = s.register(empty(), 1_000);
    claims.propose(&a, "x".into(), "BUGFIX".into(), vec![], vec![], 0.9f64.to_bits()).unwrap();
    claims.propose(&b, "y".into(), "BUGFIX".into(), vec![], vec![], 0.9f64.to_bits()).unwrap();
    claims.propose(&a, "z".into(), "BUGFIX".into(), vec![], vec![], 0.5f64.to_bits()).unwrap();
    let (ids, generation) = coordify_core::coordinator::clear_agent_claims(&mut s, &mut claims, &a).unwrap();
    assert_eq!(generation, 2);
    assert_eq!(ids, vec!["claim-1".to_string(), "claim-3".to_string()]);
    assert!(claims.live_claim_for(&a).is_none());
    assert!(claims.live_claim_for(&b).is_some());
}

#[test]
fn reaper_reports_a_silent_agent_without_claims_as_orphaned() {
    let mut s = State::new();
    let id = s.register(empty(), 0);
    let mut claims = ClaimStore::new();
    let mut conflicts = ConflictStore::new();
    let report = reaper_tick(&mut s, &mut claims, &mut conflicts, 1_000, 300, 60_000, 60_000);
    assert_eq!(report.lost, vec![id.clone()]);
    assert_eq!(report.orphaned, vec![(None, id)]);
    assert!(report.network_empty);
}

#[test]
fn other_live_agents_leaves_out_the_agent_and_the_claimless() {
    let mut claims = ClaimStore::new();
    claims.propose("agent-1", "x".into(), "BUGFIX".into(), vec![], vec![], 0.9f64.to_bits()).unwrap();
    claims.propose("agent-2", "y".into(), "BUGFIX".into(), vec![], vec![], 0.9f64.to_bits()).unwrap();
    claims.propose("agent-2", "z".into(), "BUGFIX".into(), vec![], vec![], 0.5f64.to_bits()).unwrap();
    let c3 = claims.propose("agent-3", "w".into(), "BUGFIX".into(), vec![], vec![], 0.9f64.to_bits()).unwrap();
    assert!(claims.release(&c3.claim_id));
    let others = coordify_core::coordinator::other_live_agents(&claims, "agent-1");
    assert_eq!(others, vec!["agent-2".to_string()]);
}
