use coordify_core::knowledge::KnowledgeStore;

#[test]
fn record_conflict_accrues_hotzone_and_coupling() {
    let mut s = KnowledgeStore::new();
    s.record_conflict(&["a.rs".to_string(), "b.rs".to_string()]);
    assert_eq!(s.hotzone_count("a.rs"), 1);
    assert_eq!(s.hotzone_count("b.rs"), 1);
    assert_eq!(s.coupling_count("a.rs", "b.rs"), 1);
    assert_eq!(s.coupling_count("b.rs", "a.rs"), 1);
    s.record_conflict(&["a.rs".to_string(), "b.rs".to_string()]);
    assert_eq!(s.hotzone_count("a.rs"), 2);
    assert_eq!(s.coupling_count("a.rs", "b.rs"), 2);
}

#[test]
fn record_claim_files_accrues_coupling_only_pairs() {
    let mut s = KnowledgeStore::new();
    s.record_claim_files(&["x".to_string(), "y".to_string(), "z".to_string()]);
    assert_eq!(s.coupling_count("x", "y"), 1);
    assert_eq!(s.coupling_count("x", "z"), 1);
    assert_eq!(s.coupling_count("y", "z"), 1);
    assert_eq!(s.hotzone_count("x"), 0);
    let mut s2 = KnowledgeStore::new();
    s2.record_claim_files(&["solo".to_string()]);
    assert_eq!(s2.coupling_count("solo", "solo"), 0);
}

#[test]
fn entries_round_trip_through_from_counts() {
    let mut s = KnowledgeStore::new();
    s.record_conflict(&["a".to_string(), "b".to_string()]);
    s.record_claim_files(&["a".to_string(), "c".to_string()]);
    let hz = s.hotzone_entries();
    let edges: Vec<(String, String, u64)> =
        s.coupling_entries().into_iter().map(|((a, b), n)| (a, b, n)).collect();
    let loaded = KnowledgeStore::from_counts(hz, edges);
    assert_eq!(loaded.hotzone_count("a"), 1);
    assert_eq!(loaded.coupling_count("a", "b"), 1);
    assert_eq!(loaded.coupling_count("c", "a"), 1);
    assert_eq!(loaded.hotzone_count("c"), 0);
}

#[test]
fn from_counts_later_entry_wins_and_files_pairs_in_order() {
    let loaded = KnowledgeStore::from_counts(
        vec![("f".to_string(), 1), ("f".to_string(), 4)],
        vec![("z".to_string(), "a".to_string(), 3)],
    );
    assert_eq!(loaded.hotzone_count("f"), 4);
    assert_eq!(loaded.coupling_count("a", "z"), 3);
}
