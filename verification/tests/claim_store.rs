use coordify_core::cap::ClaimStatus;
use coordify_core::claim::{status_for_confidence, ClaimStore};

fn bits(x: f64) -> u64 {
    x.to_bits()
}

#[test]
fn confidence_maps_to_status() {
    assert_eq!(status_for_confidence(bits(0.9)), Some(ClaimStatus::Active));
    assert_eq!(status_for_confidence(bits(0.75)), Some(ClaimStatus::Active));
    assert_eq!(status_for_confidence(bits(0.749)), Some(ClaimStatus::Provisional));
    assert_eq!(status_for_confidence(bits(0.45)), Some(ClaimStatus::Provisional));
    assert_eq!(status_for_confidence(bits(0.44)), None);
}

#[test]
fn confidence_outside_the_range_is_rejected_or_active() {
    assert_eq!(status_for_confidence(bits(-0.9)), None);
    assert_eq!(status_for_confidence(bits(-0.0)), None);
    assert_eq!(status_for_confidence(bits(f64::NAN)), None);
    assert_eq!(status_for_confidence(bits(f64::INFINITY)), Some(ClaimStatus::Active));
    assert_eq!(status_for_confidence(bits(1.5)), Some(ClaimStatus::Active));
}

#[test]
fn propose_assigns_sequential_ids_and_rejects_low_confidence() {
    let mut s = ClaimStore::new();
    let c1 = s.propose("agent-1", "t".into(), "BUGFIX".into(), vec![], vec![], bits(0.9)).unwrap();
    assert_eq!(c1.claim_id, "claim-1");
    assert_eq!(c1.status, ClaimStatus::Active);
    let c2 = s.propose("agent-1", "t".into(), "QA".into(), vec![], vec![], bits(0.5)).unwrap();
    assert_eq!(c2.claim_id, "claim-2");
    assert_eq!(c2.status, ClaimStatus::Provisional);
    assert!(s.propose("agent-1", "t".into(), "QA".into(), vec![], vec![], bits(0.1)).is_none());
    assert_eq!(s.len(), 2);
}

#[test]
fn release_and_release_for_agent() {
    let mut s = ClaimStore::new();
    let c = s.propose("agent-1", "t".into(), "BUGFIX".into(), vec![], vec![], bits(0.9)).unwrap();
    assert!(s.release(&c.claim_id));
    assert_eq!(s.get(&c.claim_id).unwrap().status, ClaimStatus::Released);
    assert!(!s.release("claim-999"));
    let a = s.propose("agent-2", "t".into(), "QA".into(), vec![], vec![], bits(0.9)).unwrap();
    let _b = s.propose("agent-2", "t".into(), "FEATURE".into(), vec![], vec![], bits(0.5)).unwrap();
    let released = s.release_for_agent("agent-2");
    assert_eq!(released.len(), 2);
    assert_eq!(s.get(&a.claim_id).unwrap().status, ClaimStatus::Released);
}

#[test]
fn release_only_succeeds_on_live_claim() {
    let mut s = ClaimStore::new();
    let c = s.propose("agent-1", "t".into(), "BUGFIX".into(), vec![], vec![], bits(0.9)).unwrap();
    assert!(s.release(&c.claim_id));
    assert!(!s.release(&c.claim_id));
    let d = s.propose("agent-2", "t".into(), "QA".into(), vec![], vec![], bits(0.9)).unwrap();
    s.orphan_for_agent("agent-2", 1_000);
    assert!(!s.release(&d.claim_id));
}

#[test]
fn orphan_then_sweep_reclaimable_respects_ttl() {
    let mut s = ClaimStore::new();
    let c = s.propose("agent-1", "t".into(), "BUGFIX".into(), vec![], vec![], bits(0.9)).unwrap();
    let orphaned = s.orphan_for_agent("agent-1", 1_000);
    assert_eq!(orphaned, vec![c.claim_id.clone()]);
    assert_eq!(s.get(&c.claim_id).unwrap().status, ClaimStatus::Orphaned);
    assert!(s.sweep_reclaimable(1_500, 1_000).is_empty());
    assert_eq!(s.get(&c.claim_id).unwrap().status, ClaimStatus::Orphaned);
    let swept = s.sweep_reclaimable(2_000, 1_000);
    assert_eq!(swept, vec![c.claim_id.clone()]);
    assert_eq!(s.get(&c.claim_id).unwrap().status, ClaimStatus::Reclaimable);
}

#[test]
fn live_claims_by_agent() {
    let mut s = ClaimStore::new();
    assert!(s.is_empty());
    s.propose("agent-1", "t".into(), "BUGFIX".into(), vec![], vec!["a.rs".into()], bits(0.9)).unwrap();
    s.propose("agent-2", "t".into(), "QA".into(), vec![], vec![], bits(0.6)).unwrap();
    s.propose("agent-1", "u".into(), "QA".into(), vec![], vec![], bits(0.6)).unwrap();
    let live = s.live_claim_for("agent-1").unwrap();
    assert_eq!(live.claim_id, "claim-1");
    assert_eq!(live.estimated_files, vec!["a.rs".to_string()]);
    let mut ids = s.live_claim_agent_ids();
    ids.sort();
    assert_eq!(ids, vec!["agent-1".to_string(), "agent-2".to_string()]);
    s.release_for_agent("agent-2");
    assert!(s.live_claim_for("agent-2").is_none());
    assert_eq!(s.live_claim_agent_ids(), vec!["agent-1".to_string()]);
}
