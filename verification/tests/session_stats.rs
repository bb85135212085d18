use coordify_core::stats::{heat_history, summarize, AgentTally, EventRecord, ProfileStore, SessionStats};

fn s(x: &str) -> Option<String> {
    Some(x.to_string())
}

fn list(xs: &[&str]) -> Option<Vec<Option<String>>> {
    Some(xs.iter().map(|x| Some(x.to_string())).collect())
}

fn ev(kind: &str, ts: &str) -> EventRecord {
    EventRecord { kind: s(kind), ts: s(ts), ..Default::default() }
}

fn tally<'a>(st: &'a SessionStats, id: &str) -> &'a AgentTally {
    &st.agents.iter().find(|(k, _)| k == id).unwrap().1
}

fn sample() -> Vec<EventRecord> {
    vec![
        EventRecord { agent_id: s("agent-1"), ..ev("AGENT_JOINED", "2026-06-23T00:00:00Z") },
        EventRecord { agent_id: s("agent-2"), ..ev("AGENT_JOINED", "2026-06-23T00:00:01Z") },
        EventRecord { claim_id: s("claim-1"), agent_id: s("agent-1"), ..ev("CLAIM_CREATED", "2026-06-23T00:00:02Z") },
        EventRecord { claim_id: s("claim-2"), agent_id: s("agent-2"), ..ev("CLAIM_CREATED", "2026-06-23T00:00:03Z") },
        EventRecord { agent_id: s("agent-1"), files: list(&["src/x.rs"]), ..ev("FILE_TOUCHED", "2026-06-23T00:00:04Z") },
        EventRecord { pair: list(&["agent-1", "agent-2"]), heat: Some(40), ..ev("HEAT_UPDATED", "2026-06-23T00:00:05Z") },
        EventRecord { pair: list(&["agent-1", "agent-2"]), heat: Some(82), ..ev("HEAT_UPDATED", "2026-06-23T00:00:06Z") },
        EventRecord {
            conflict_id: s("conflict-1"),
            agents: list(&["agent-1", "agent-2"]),
            paths: list(&["src/x.rs"]),
            ..ev("CONFLICT_OPENED", "2026-06-23T00:00:06Z")
        },
        EventRecord {
            conflict_id: s("conflict-1"),
            resolution: s("PARTICIPANT_STEPPED_ASIDE"),
            ..ev("CONFLICT_RESOLVED", "2026-06-23T00:00:07Z")
        },
        EventRecord {
            claim_id: s("claim-1"),
            agent_id: s("agent-1"),
            reason: s("TASK_COMPLETED"),
            ..ev("CLAIM_RELEASED", "2026-06-23T00:00:08Z")
        },
        EventRecord { claim_id: s("claim-2"), previous_owner: s("agent-2"), ..ev("CLAIM_ORPHANED", "2026-06-23T00:00:09Z") },
    ]
}

#[test]
fn summarize_counts_and_peak_and_agents() {
    let st = summarize(&sample());
    assert_eq!(st.agents_seen, 2);
    assert_eq!(st.claims_created, 2);
    assert_eq!(st.claims_released, 1);
    assert_eq!(st.files_touched, 1);
    assert_eq!(st.heat_updates, 2);
    assert_eq!(st.conflicts_opened, 1);
    assert_eq!(st.negotiated_resolved, 1);
    assert_eq!(st.peak_heat.heat, 82);
    assert_eq!(st.peak_heat.pair, vec!["agent-1", "agent-2"]);
    assert_eq!(st.duration_ms, 9000);
    let a1 = tally(&st, "agent-1");
    assert_eq!(a1.claims_made, 1);
    assert_eq!(a1.tasks_completed, 1);
    assert_eq!(a1.conflicts_involved, 1);
    assert_eq!(a1.heat_generated_count, 2);
    assert_eq!(a1.heat_generated_sum, 122);
    let a2 = tally(&st, "agent-2");
    assert_eq!(a2.ghost_claims, 1);
    assert_eq!(a2.tasks_completed, 0);
}

#[test]
fn peak_heat_tie_keeps_earliest() {
    let evs = vec![
        EventRecord { pair: list(&["a", "b"]), heat: Some(50), ..ev("HEAT_UPDATED", "2026-06-23T00:00:01Z") },
        EventRecord { pair: list(&["c", "d"]), heat: Some(50), ..ev("HEAT_UPDATED", "2026-06-23T00:00:02Z") },
    ];
    let st = summarize(&evs);
    assert_eq!(st.peak_heat.pair, vec!["a", "b"]);
}

#[test]
fn empty_events_zeroed() {
    let st = summarize(&Vec::new());
    assert_eq!(st.agents_seen, 0);
    assert_eq!(st.duration_ms, 0);
    assert_eq!(st.peak_heat.heat, 0);
    assert!(st.agents.is_empty());
}

#[test]
fn summarize_rare_event_types() {
    let evs = vec![
        EventRecord { agent_id: s("agent-1"), ..ev("CLAIM_REJECTED", "2026-06-23T00:00:00Z") },
        EventRecord { conflict_id: s("c-1"), ..ev("CONFLICT_TIMEOUT", "2026-06-23T00:00:01Z") },
        EventRecord { conflict_id: s("c-2"), reason: s("TIMEOUT"), ..ev("CONFLICT_ABORTED", "2026-06-23T00:00:02Z") },
        EventRecord { agents: list(&["agent-1", "agent-2"]), ..ev("USER_ARBITRATION_REQUIRED", "2026-06-23T00:00:03Z") },
        EventRecord { agents: list(&["agent-1", "agent-2", "agent-3"]), ..ev("DEADLOCK_DETECTED", "2026-06-23T00:00:04Z") },
    ];
    let st = summarize(&evs);
    assert_eq!(st.claims_rejected, 1);
    assert_eq!(st.timed_out, 1);
    assert_eq!(st.aborted, 1);
    assert_eq!(st.arbitrations_requested, 1);
    assert_eq!(st.deadlocks, 1);
    let a1 = tally(&st, "agent-1");
    assert_eq!(a1.arbitrations_involved, 1);
    assert_eq!(a1.deadlocks_involved, 1);
    let a2 = tally(&st, "agent-2");
    assert_eq!(a2.arbitrations_involved, 1);
    assert_eq!(a2.deadlocks_involved, 1);
    let a3 = tally(&st, "agent-3");
    assert_eq!(a3.deadlocks_involved, 1);
    assert_eq!(a3.arbitrations_involved, 0);
}

#[test]
fn summarize_edge_cases() {
    let evs = vec![
        EventRecord { kind: s("AGENT_JOINED"), agent_id: s("agent-x"), ..Default::default() },
        EventRecord { agent_id: s(""), ..ev("AGENT_JOINED", "2026-06-23T00:00:00Z") },
        EventRecord { claim_id: s("c-1"), previous_owner: s(""), ..ev("CLAIM_ORPHANED", "2026-06-23T00:00:01Z") },
        EventRecord { agent_id: s("agent-x"), files: Some(vec![None]), ..ev("FILE_TOUCHED", "2026-06-23T00:00:02Z") },
        EventRecord { pair: list(&["a", "b", "c"]), heat: Some(50), ..ev("HEAT_UPDATED", "2026-06-23T00:00:03Z") },
        EventRecord { heat: Some(30), ..ev("HEAT_UPDATED", "2026-06-23T00:00:03Z") },
        EventRecord { pair: None, heat: Some(30), ..ev("HEAT_UPDATED", "2026-06-23T00:00:03Z") },
        EventRecord { pair: Some(vec![None, s("b")]), heat: Some(30), ..ev("HEAT_UPDATED", "2026-06-23T00:00:03Z") },
        EventRecord { pair: Some(vec![s("a"), None]), heat: Some(30), ..ev("HEAT_UPDATED", "2026-06-23T00:00:03Z") },
        EventRecord {
            conflict_id: s("c-x"),
            agents: list(&["a", "b", "c"]),
            paths: list(&["x.rs"]),
            ..ev("CONFLICT_OPENED", "2026-06-23T00:00:04Z")
        },
        EventRecord {
            conflict_id: s("c-1"),
            resolution: s("AUTO_RESOLVED_HEAT_DROPPED"),
            ..ev("CONFLICT_RESOLVED", "2026-06-23T00:00:05Z")
        },
        EventRecord { conflict_id: s("c-2"), resolution: s("USER_ARBITRATED"), ..ev("CONFLICT_RESOLVED", "2026-06-23T00:00:06Z") },
        EventRecord { conflict_id: s("c-3"), resolution: s("CO_OWNERSHIP"), ..ev("CONFLICT_RESOLVED", "2026-06-23T00:00:07Z") },
        EventRecord { conflict_id: s("c-4"), resolution: s("UNKNOWN_RES"), ..ev("CONFLICT_RESOLVED", "2026-06-23T00:00:08Z") },
        EventRecord { conflict_id: s("c-5"), reason: s("TIMEOUT"), ..ev("CONFLICT_ESCALATED", "2026-06-23T00:00:09Z") },
        EventRecord { agents: list(&["agent-1"]), ..ev("USER_ARBITRATION_REQUIRED", "2026-06-23T00:00:10Z") },
        ev("DEADLOCK_DETECTED", "2026-06-23T00:00:11Z"),
        EventRecord { agents: Some(vec![None]), ..ev("DEADLOCK_DETECTED", "2026-06-23T00:00:12Z") },
    ];
    let st = summarize(&evs);
    assert_eq!(st.auto_resolved_heat_dropped, 1);
    assert_eq!(st.user_arbitrated, 1);
    assert_eq!(st.negotiated_resolved, 1);
    assert_eq!(st.escalated, 1);
    assert_eq!(st.heat_updates, 5);
    assert_eq!(st.deadlocks, 2);
    assert_eq!(st.arbitrations_requested, 1);
    assert_eq!(st.files_touched, 0);
}

#[test]
fn profile_merge_accumulates_across_sessions() {
    let tallies = vec![(
        "agent-1".to_string(),
        AgentTally {
            claims_made: 2,
            tasks_completed: 2,
            heat_generated_sum: 100,
            heat_generated_count: 4,
            conflicts_involved: 1,
            ..Default::default()
        },
    )];
    let mut store = ProfileStore::new();
    store.merge_session(&tallies);
    store.merge_session(&tallies);
    assert_eq!(store.agents.len(), 1);
    let p = &store.agents[0].1;
    assert_eq!(store.agents[0].0, "agent-1");
    assert_eq!(p.sessions, 2);
    assert_eq!(p.claims_made, 4);
    assert_eq!(p.tasks_completed, 4);
    assert_eq!(p.conflicts_involved + p.arbitrations_involved + p.deadlocks_involved, 2);
}

#[test]
fn merge_keeps_agents_in_order_and_untouched_ones_alone() {
    let mut store = ProfileStore::new();
    let first = vec![("b".to_string(), AgentTally { claims_made: 1, ..Default::default() })];
    store.merge_session(&first);
    let second = vec![
        ("a".to_string(), AgentTally { ghost_claims: 3, ..Default::default() }),
        ("c".to_string(), AgentTally { deadlocks_involved: 1, ..Default::default() }),
    ];
    store.merge_session(&second);
    let ids: Vec<&str> = store.agents.iter().map(|(k, _)| k.as_str()).collect();
    assert_eq!(ids, vec!["a", "b", "c"]);
    assert_eq!(store.agents[1].1.sessions, 1);
    assert_eq!(store.agents[1].1.claims_made, 1);
    assert_eq!(store.agents[0].1.ghost_claims, 3);
    assert_eq!(store.agents[2].1.deadlocks_involved, 1);
}

#[test]
fn duration_ignores_unparseable_timestamps() {
    let evs = vec![
        ev("AGENT_JOINED", "not a time"),
        ev("AGENT_JOINED", "2026-06-23T00:00:01.500Z"),
        ev("AGENT_JOINED", "2026-06-23T00:00:04Z"),
        ev("AGENT_JOINED", "garbage"),
    ];
    let st = summarize(&evs);
    assert_eq!(st.duration_ms, 2500);
}

#[test]
fn heat_history_extracts_series() {
    let evs = sample();
    let h = heat_history(&evs);
    assert_eq!(h.len(), 2);
    assert_eq!(evs[h[0]].heat, Some(40));
    assert_eq!(evs[h[1]].heat, Some(82));
    assert_eq!(evs[h[1]].pair.as_ref().unwrap()[0].as_deref(), Some("agent-1"));
}
