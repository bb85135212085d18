use coordify_core::heat::{band_for, heat_signals, tokens, BandLimits, HeatBand, HeatInputs};
use std::collections::BTreeSet;

fn inputs(agent: &str, intent: &str, files: &[&str], domains: &[&str], task: &str, last_seen: u64, branch: Option<&str>) -> HeatInputs {
    HeatInputs::new(
        agent,
        intent,
        &domains.iter().map(|s| s.to_string()).collect(),
        &files.iter().map(|s| s.to_string()).collect(),
        task,
        last_seen,
        branch.map(|s| s.to_string()),
    )
}

#[test]
fn tokens_are_lowercased_words() {
    let t: BTreeSet<String> = tokens("Fix Auth-token Expiry!").into_iter().collect();
    let expected: BTreeSet<String> = ["fix", "auth", "token", "expiry"].iter().map(|s| s.to_string()).collect();
    assert_eq!(t, expected);
}

#[test]
fn tokens_are_a_sorted_set() {
    assert_eq!(tokens("b a b  A"), vec!["a".to_string(), "b".to_string()]);
    assert!(tokens("").is_empty());
    assert!(tokens("--- !!").is_empty());
    assert_eq!(tokens("x1y2"), vec!["x1y2".to_string()]);
}

#[test]
fn band_boundaries() {
    let cfg = BandLimits::default();
    assert_eq!(band_for(25, &cfg), HeatBand::Safe);
    assert_eq!(band_for(26, &cfg), HeatBand::Monitor);
    assert_eq!(band_for(50, &cfg), HeatBand::Monitor);
    assert_eq!(band_for(51, &cfg), HeatBand::Overlap);
    assert_eq!(band_for(75, &cfg), HeatBand::Overlap);
    assert_eq!(band_for(76, &cfg), HeatBand::ConflictCandidate);
}

#[test]
fn band_names_and_recommendations() {
    assert_eq!(HeatBand::Safe.as_str(), "SAFE");
    assert_eq!(HeatBand::ConflictCandidate.as_str(), "CONFLICT_CANDIDATE");
    assert_eq!(HeatBand::Safe.recommendation(), "PROCEED");
    assert_eq!(HeatBand::Monitor.recommendation(), "MONITOR");
    assert_eq!(HeatBand::Overlap.recommendation(), "SPLIT_SCOPE_OR_SEQUENCE");
    assert_eq!(HeatBand::ConflictCandidate.recommendation(), "NEGOTIATE_BEFORE_CLAIM");
}

#[test]
fn identical_work_overlaps_everywhere() {
    let a = inputs("agent-1", "BUGFIX", &["src/auth/session.ts"], &["AUTH"], "fix session expiry", 1000, Some("main"));
    let b = inputs("agent-2", "BUGFIX", &["src/auth/session.ts"], &["AUTH"], "fix session expiry", 1000, Some("main"));
    let s = heat_signals(&a, &b);
    assert_eq!((s.task_common, s.task_union), (3, 3));
    assert_eq!((s.domain_common, s.domain_union), (1, 1));
    assert_eq!((s.file_common, s.file_union), (1, 1));
    assert!(s.same_intent && s.same_branch);
    assert_eq!(s.time_gap_ms, 0);
    assert_eq!(s.shared_files, vec!["src/auth/session.ts".to_string()]);
    assert_eq!(s.reasons, vec![
        "same intent: BUGFIX".to_string(),
        "shared files: src/auth/session.ts".to_string(),
        "overlapping domains".to_string(),
        "same branch: main".to_string(),
    ]);
}

#[test]
fn disjoint_work_has_no_overlap() {
    let a = inputs("agent-1", "BUGFIX", &["src/a.rs"], &["AUTH"], "alpha", 0, Some("feature-a"));
    let b = inputs("agent-2", "DOCUMENTATION", &["docs/b.md"], &["DOCS"], "beta", 10_000_000, Some("feature-b"));
    let s = heat_signals(&a, &b);
    assert_eq!((s.task_common, s.task_union), (0, 2));
    assert_eq!((s.file_common, s.file_union), (0, 2));
    assert!(!s.same_intent && !s.same_branch);
    assert_eq!(s.time_gap_ms, 10_000_000);
    assert!(s.reasons.is_empty());
}

#[test]
fn shared_files_are_joined_in_order() {
    let a = inputs("agent-1", "QA", &["z.rs", "b.rs", "a.rs"], &[], "", 5, None);
    let b = inputs("agent-2", "BUGFIX", &["a.rs", "z.rs"], &[], "", 2, None);
    let s = heat_signals(&a, &b);
    assert_eq!(s.shared_files, vec!["a.rs".to_string(), "z.rs".to_string()]);
    assert_eq!(s.file_union, 3);
    assert_eq!(s.time_gap_ms, 3);
    assert_eq!(s.reasons, vec!["shared files: a.rs, z.rs".to_string()]);
}

#[test]
fn signals_are_the_same_both_ways_round() {
    let a = inputs("agent-1", "BUGFIX", &["src/b.rs", "src/a.rs", "src/c.rs"], &["AUTH", "DB"], "fix the session", 1_000, Some("main"));
    let b = inputs("agent-2", "BUGFIX", &["src/c.rs", "src/a.rs"], &["AUTH"], "session fix", 4_000, Some("main"));
    let ab = heat_signals(&a, &b);
    let ba = heat_signals(&b, &a);
    assert_eq!((ab.task_common, ab.task_union), (ba.task_common, ba.task_union));
    assert_eq!((ab.domain_common, ab.domain_union), (ba.domain_common, ba.domain_union));
    assert_eq!((ab.file_common, ab.file_union), (ba.file_common, ba.file_union));
    assert_eq!(ab.time_gap_ms, ba.time_gap_ms);
    assert_eq!(ab.shared_files, ba.shared_files);
    assert_eq!(ab.shared_files, vec!["src/a.rs".to_string(), "src/c.rs".to_string()]);
    assert_eq!(ab.reasons, ba.reasons);
}
