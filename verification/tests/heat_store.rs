use coordify_core::heat::{HeatBand, HeatComponents, HeatResult};
use coordify_core::heatstore::HeatStore;

fn dummy(heat: u32) -> HeatResult {
    let z = 0.0f64.to_bits();
    HeatResult {
        heat,
        band: HeatBand::Safe,
        components: HeatComponents {
            task_similarity: z,
            intent_similarity: z,
            domain_overlap: z,
            file_path_overlap: z,
            temporal_activity: z,
            branch_worktree_proximity: z,
            historical_hotzone_risk: z,
            historical_coupling: z,
        },
        reasons: vec![],
    }
}

#[test]
fn ordered_key_dedups_pair_directions() {
    let mut s = HeatStore::new();
    s.upsert("agent-2", "agent-1", dummy(10));
    assert_eq!(s.get("agent-1", "agent-2").unwrap().heat, 10);
    s.upsert("agent-1", "agent-2", dummy(20));
    assert_eq!(s.len(), 1);
    assert_eq!(s.get("agent-2", "agent-1").unwrap().heat, 20);
}

#[test]
fn remove_agent_drops_all_its_edges() {
    let mut s = HeatStore::new();
    s.upsert("agent-1", "agent-2", dummy(10));
    s.upsert("agent-1", "agent-3", dummy(20));
    s.upsert("agent-2", "agent-3", dummy(30));
    let removed = s.remove_agent("agent-1");
    assert_eq!(removed, 2);
    assert_eq!(s.len(), 1);
    assert!(s.get("agent-2", "agent-3").is_some());
}

#[test]
fn is_empty_reflects_contents() {
    let mut s = HeatStore::new();
    assert!(s.is_empty());
    s.upsert("agent-1", "agent-2", dummy(10));
    assert!(!s.is_empty());
}

#[test]
fn snapshot_lists_each_edge_once() {
    let mut s = HeatStore::new();
    s.upsert("b", "a", dummy(10));
    s.upsert("c", "a", dummy(70));
    s.upsert("a", "b", dummy(15));
    let mut rows: Vec<(String, String, u32)> = s.snapshot().into_iter().map(|e| (e.a, e.b, e.heat)).collect();
    rows.sort();
    assert_eq!(rows, vec![("a".to_string(), "b".to_string(), 15), ("a".to_string(), "c".to_string(), 70)]);
}
