use coordify_core::cap::{AgentState, CapErrorCode, ClaimStatus};
use coordify_core::claim::ClaimStore;
use coordify_core::conflict::ConflictStore;
use coordify_core::coordinator::{
    apply_heat_updates, change_agent_state, claim_answer, clear_agent_claims, clear_answer, drop_agent_heat, handle_request,
    propose_claim, touch_files, Routed,
};
use coordify_core::heat::{HeatBand, HeatComponents, HeatInputs, HeatResult};
use coordify_core::heatstore::HeatStore;
use coordify_core::ipc::Request;
use coordify_core::knowledge::KnowledgeStore;
use coordify_core::state::{State, StateError};
use coordify_core::waitgraph::WaitGraph;

fn empty() -> serde_json::Value {
    serde_json::Value::Object(serde_json::Map::new())
}

fn cap_req(event: serde_json::Value, version: Option<&str>) -> Request {
    Request {
        id: "r1".to_string(),
        token: "good".to_string(),
        action: "submit_event".to_string(),
        agent_id: None,
        meta: empty(),
        event,
        cap_version: version.map(|v| v.to_string()),
    }
}

fn refused(r: Routed) -> Option<String> {
    match r {
        Routed::Answered(resp) => {
            assert!(!resp.ok);
            resp.error
        }
        _ => panic!("expected an answer"),
    }
}

fn files(names: &[&str]) -> Vec<String> {
    names.iter().map(|f| f.to_string()).collect()
}

fn propose(s: &mut State, claims: &mut ClaimStore, agent: &str, estimated: &[&str], confidence: f64) -> Option<coordify_core::claim::Claim> {
    propose_claim(s, claims, agent, "fix".into(), "BUGFIX".into(), vec!["AUTH".into()], files(estimated), confidence.to_bits())
        .unwrap()
}

#[test]
fn submit_event_without_cap_version_returns_error() {
    let mut s = State::new();
    let mut event = serde_json::Map::new();
    event.insert("type".to_string(), serde_json::Value::String("CUSTOM".to_string()));
    event.insert("x".to_string(), serde_json::Value::from(1));
    let r = handle_request(&mut s, "good", &cap_req(serde_json::Value::Object(event), None), 1_000);
    assert_eq!(refused(r).as_deref(), Some("UNSUPPORTED_CAP_VERSION"));
}

#[test]
fn bad_cap_version_and_unknown_event_and_release_missing() {
    let mut s = State::new();
    let r = handle_request(&mut s, "good", &cap_req(empty(), Some("9.9")), 1_000);
    assert_eq!(refused(r).as_deref(), Some("UNSUPPORTED_CAP_VERSION"));
    let mut claims = ClaimStore::new();
    assert!(!claims.release("claim-404"));
    assert_eq!(CapErrorCode::ClaimNotFound.as_str(), "CLAIM_NOT_FOUND");
}

#[test]
fn claim_proposed_active_creates_claim_and_activates_agent() {
    let mut s = State::new();
    let mut claims = ClaimStore::new();
    let agent = s.register(empty(), 1_000);
    let made = propose(&mut s, &mut claims, &agent, &[], 0.9);
    let resp = claim_answer("r1", &made, "PROCEED");
    assert!(resp.ok);
    let data = resp.data.unwrap();
    assert_eq!(data.status.as_deref(), Some("ACTIVE"));
    assert!(data.claim_id.unwrap().starts_with("claim-"));
    assert_eq!(data.recommendation.as_deref(), Some("PROCEED"));
    assert_eq!(s.agent(&agent).unwrap().state, AgentState::Active);
}

#[test]
fn claim_proposed_low_confidence_is_rejected() {
    let mut s = State::new();
    let mut claims = ClaimStore::new();
    let agent = s.register(empty(), 1_000);
    let made = propose(&mut s, &mut claims, &agent, &[], 0.1);
    assert!(made.is_none());
    let resp = claim_answer("r1", &made, "PROCEED");
    assert!(resp.ok);
    let data = resp.data.unwrap();
    assert_eq!(data.status.as_deref(), Some("REJECTED"));
    assert_eq!(data.reason.as_deref(), Some("LOW_CONFIDENCE"));
    assert!(data.claim_id.is_none());
    assert_eq!(s.agent(&agent).unwrap().state, AgentState::Discovery);
    assert!(claims.is_empty());
}

#[test]
fn provisional_claim_leaves_the_agent_in_discovery() {
    let mut s = State::new();
    let mut claims = ClaimStore::new();
    let agent = s.register(empty(), 1_000);
    let made = propose(&mut s, &mut claims, &agent, &[], 0.5).unwrap();
    assert_eq!(made.status, ClaimStatus::Provisional);
    assert_eq!(s.agent(&agent).unwrap().state, AgentState::Discovery);
}

#[test]
fn claim_proposed_unknown_agent_errors() {
    let mut s = State::new();
    let mut claims = ClaimStore::new();
    let r = propose_claim(&mut s, &mut claims, "agent-404", "fix".into(), "BUGFIX".into(), vec![], vec![], 0.9f64.to_bits());
    assert_eq!(r.unwrap_err().as_str(), "AGENT_NOT_FOUND");
    assert!(claims.is_empty());
}

#[test]
fn agent_state_changed_valid_and_invalid() {
    let mut s = State::new();
    let agent = s.register(empty(), 1_000);
    assert!(change_agent_state(&mut s, &agent, AgentState::Active).is_ok());
    assert!(change_agent_state(&mut s, &agent, AgentState::SubagentWaiting).is_ok());
    let bad = change_agent_state(&mut s, &agent, AgentState::Testing);
    assert_eq!(bad.unwrap_err().as_str(), "INVALID_STATE_TRANSITION");
    assert_eq!(s.agent(&agent).unwrap().state, AgentState::SubagentWaiting);
    let nf = change_agent_state(&mut s, "agent-404", AgentState::Idle);
    assert_eq!(nf.unwrap_err().as_str(), "AGENT_NOT_FOUND");
}

#[test]
fn a_waiting_agent_may_only_return_to_work_or_go_offline() {
    let mut s = State::new();
    let agent = s.register(empty(), 1_000);
    assert_eq!(s.set_state(&agent, AgentState::SubagentWaiting), Ok(()));
    assert_eq!(s.set_state(&agent, AgentState::Blocked), Err(StateError::InvalidTransition));
    assert_eq!(s.set_state(&agent, AgentState::Offline), Ok(()));
    assert_eq!(s.set_state(&agent, AgentState::Testing), Ok(()));
    assert_eq!(s.set_state("agent-9", AgentState::Idle), Err(StateError::AgentNotFound));
}

#[test]
fn clear_invoked_releases_claims_and_bumps_generation() {
    let mut s = State::new();
    let mut claims = ClaimStore::new();
    let agent = s.register(empty(), 1_000);
    let claim = propose(&mut s, &mut claims, &agent, &[], 0.9).unwrap();
    let (ids, generation) = clear_agent_claims(&mut s, &mut claims, &agent).unwrap();
    assert_eq!(ids, vec![claim.claim_id.clone()]);
    let resp = clear_answer("r1", generation);
    assert!(resp.ok);
    assert_eq!(resp.data.unwrap().generation, Some(2));
    assert_eq!(s.agent(&agent).unwrap().state, AgentState::Discovery);
    assert_eq!(claims.get(&claim.claim_id).unwrap().status, ClaimStatus::Released);
}

#[test]
fn clearing_twice_counts_generations_up() {
    let mut s = State::new();
    let agent = s.register(empty(), 1_000);
    assert_eq!(s.agent(&agent).unwrap().generation, 1);
    assert_eq!(s.clear(&agent), Some(2));
    assert_eq!(s.clear(&agent), Some(3));
    assert_eq!(s.clear("agent-9"), None);
}

#[test]
fn clear_invoked_unknown_agent_errors() {
    let mut s = State::new();
    let mut claims = ClaimStore::new();
    let r = clear_agent_claims(&mut s, &mut claims, "agent-404");
    assert_eq!(r.unwrap_err().as_str(), "AGENT_NOT_FOUND");
}

#[test]
fn file_touched_unknown_agent_errors() {
    let s = State::new();
    let mut claims = ClaimStore::new();
    let r = touch_files(&s, &mut claims, "agent-404", &files(&["x"]));
    assert_eq!(r.unwrap_err().as_str(), "AGENT_NOT_FOUND");
}

#[test]
fn file_touched_claimless_agent_errors() {
    let mut s = State::new();
    let mut claims = ClaimStore::new();
    let a = s.register(empty(), 1_000);
    let r = touch_files(&s, &mut claims, &a, &files(&["x"]));
    assert_eq!(r.unwrap_err().as_str(), "CLAIM_NOT_FOUND");
}

#[test]
fn touched_files_join_the_claim_and_couple() {
    let mut s = State::new();
    let mut claims = ClaimStore::new();
    let a = s.register(empty(), 1_000);
    let claim = propose(&mut s, &mut claims, &a, &["src/a.rs"], 0.9).unwrap();
    assert!(claim.actual_files.is_empty());
    let (before, new) = touch_files(&s, &mut claims, &a, &files(&["src/shared.rs", "src/a.rs"])).unwrap();
    assert!(before.is_empty());
    assert_eq!(new, files(&["src/shared.rs", "src/a.rs"]));
    let mut k = KnowledgeStore::new();
    k.record_cotouch(&before, &new);
    assert_eq!(k.coupling_count("src/shared.rs", "src/a.rs"), 1);
    assert_eq!(k.coupling_count("src/a.rs", "src/shared.rs"), 1);

    let (before, new) = touch_files(&s, &mut claims, &a, &files(&["src/a.rs", "src/c.rs", "src/c.rs"])).unwrap();
    assert_eq!(before, files(&["src/a.rs", "src/shared.rs"]));
    assert_eq!(new, files(&["src/c.rs"]));
    assert_eq!(claims.get(&claim.claim_id).unwrap().actual_files, files(&["src/a.rs", "src/c.rs", "src/shared.rs"]));
    k.record_cotouch(&before, &new);
    assert_eq!(k.coupling_count("src/a.rs", "src/c.rs"), 1);
    assert_eq!(k.coupling_count("src/shared.rs", "src/c.rs"), 1);
    assert_eq!(k.coupling_count("src/a.rs", "src/shared.rs"), 1);
}

fn inputs(agent: &str) -> HeatInputs {
    HeatInputs::new(
        agent,
        "BUGFIX",
        &vec!["AUTH".to_string()],
        &files(&["src/auth/session.ts"]),
        "fix session expiry",
        1_000,
        Some("main".to_string()),
    )
}

fn hot() -> HeatResult {
    HeatResult {
        heat: 90,
        band: HeatBand::ConflictCandidate,
        components: HeatComponents {
            task_similarity: 0,
            intent_similarity: 0,
            domain_overlap: 0,
            file_path_overlap: 0,
            temporal_activity: 0,
            branch_worktree_proximity: 0,
            historical_hotzone_risk: 0,
            historical_coupling: 0,
        },
        reasons: vec!["same files".to_string()],
    }
}

#[test]
fn releasing_a_participant_aborts_the_conflict() {
    let mut s = State::new();
    let mut claims = ClaimStore::new();
    let a = s.register(empty(), 1_000);
    let b = s.register(empty(), 1_000);
    propose(&mut s, &mut claims, &a, &["src/auth/session.ts"], 0.9).unwrap();
    let b_claim = propose(&mut s, &mut claims, &b, &["src/auth/session.ts"], 0.9).unwrap();
    let mut hs = HeatStore::new();
    let mut cs = ConflictStore::new();
    let mut g = WaitGraph::new();
    apply_heat_updates(&mut hs, &mut cs, &inputs(&b), &vec![(inputs(&a), hot())], 2_000);
    assert_eq!(cs.open_count(), 1);
    assert!(claims.release(&b_claim.claim_id));
    assert!(claims.live_claim_for(&b).is_none());
    let aborted = drop_agent_heat(&mut hs, &mut g, &mut cs, &b);
    assert_eq!(aborted.len(), 1);
    assert_eq!(cs.open_count(), 0);
    assert_eq!(hs.len(), 0);
}
