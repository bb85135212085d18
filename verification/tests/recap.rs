use coordify_core::entertainment::{
    battleground, biggest_spike, bloodiest_minute, build_entertainment, claim_durations, longest_run, longest_negotiation,
    Entertainment,
};
use coordify_core::stats::{summarize, EventRecord};

fn s(x: &str) -> Option<String> {
    Some(x.to_string())
}

fn list(xs: &[&str]) -> Option<Vec<Option<String>>> {
    Some(xs.iter().map(|x| Some(x.to_string())).collect())
}

fn ev(kind: &str, ts: &str) -> EventRecord {
    EventRecord { kind: s(kind), ts: s(ts), ..Default::default() }
}

fn drama() -> Vec<EventRecord> {
    vec![
        EventRecord { agent_id: s("agent-1"), ..ev("AGENT_JOINED", "2026-06-23T00:00:00Z") },
        EventRecord { agent_id: s("agent-2"), ..ev("AGENT_JOINED", "2026-06-23T00:00:00Z") },
        EventRecord { claim_id: s("claim-1"), agent_id: s("agent-1"), ..ev("CLAIM_CREATED", "2026-06-23T00:00:01Z") },
        EventRecord { claim_id: s("claim-2"), agent_id: s("agent-2"), ..ev("CLAIM_CREATED", "2026-06-23T00:00:01Z") },
        EventRecord { agent_id: s("agent-1"), files: list(&["src/hot.rs"]), ..ev("FILE_TOUCHED", "2026-06-23T00:00:02Z") },
        EventRecord { agent_id: s("agent-2"), files: list(&["src/hot.rs"]), ..ev("FILE_TOUCHED", "2026-06-23T00:00:02Z") },
        EventRecord { pair: list(&["agent-1", "agent-2"]), heat: Some(20), ..ev("HEAT_UPDATED", "2026-06-23T00:00:03Z") },
        EventRecord { pair: list(&["agent-1", "agent-2"]), heat: Some(82), ..ev("HEAT_UPDATED", "2026-06-23T00:00:04Z") },
        EventRecord {
            conflict_id: s("conflict-1"),
            agents: list(&["agent-1", "agent-2"]),
            paths: list(&["src/hot.rs"]),
            ..ev("CONFLICT_OPENED", "2026-06-23T00:00:04Z")
        },
        EventRecord {
            conflict_id: s("conflict-1"),
            from: s("agent-1"),
            proposal_kind: s("YIELD_CLAIM"),
            ..ev("CONFLICT_PROPOSAL_RECEIVED", "2026-06-23T00:00:05Z")
        },
        EventRecord {
            conflict_id: s("conflict-1"),
            resolution: s("PARTICIPANT_STEPPED_ASIDE"),
            ..ev("CONFLICT_RESOLVED", "2026-06-23T00:00:06Z")
        },
        EventRecord {
            claim_id: s("claim-1"),
            agent_id: s("agent-1"),
            reason: s("TASK_COMPLETED"),
            ..ev("CLAIM_RELEASED", "2026-06-23T00:00:07Z")
        },
    ]
}

/// The agent whose claims were held the shortest on average (ties to the
/// smaller id), as the caller of `build_entertainment` decides it.
fn speed_demon(events: &Vec<EventRecord>) -> Option<String> {
    let mut best: Option<(String, f64)> = None;
    for (agent, (total, count)) in claim_durations(events) {
        if count == 0 {
            continue;
        }
        let avg = total as f64 / count as f64;
        match &best {
            Some((_, b)) if *b <= avg => {}
            _ => best = Some((agent, avg)),
        }
    }
    best.map(|(a, _)| a)
}

fn recap(events: &Vec<EventRecord>) -> Entertainment {
    let stats = summarize(events);
    build_entertainment(events, &stats, speed_demon(events))
}

const PALETTE: &[&str] = &["red", "cyan", "blue", "yellow", "green", "gray", "magenta"];

#[test]
fn badges_awarded_to_right_agents_no_emoji() {
    let e = recap(&drama());
    let fire = e.badges.iter().find(|b| b.id == "firestarter").unwrap();
    assert_eq!(fire.agent, "agent-1");
    assert_eq!(fire.color, "red");
    assert_eq!(e.badges.iter().find(|b| b.id == "diplomat").unwrap().agent, "agent-1");
    assert_eq!(e.badges.iter().find(|b| b.id == "sprinter").unwrap().agent, "agent-1");
    for b in &e.badges {
        assert!(PALETTE.contains(&b.color.as_str()), "bad color {}", b.color);
        assert!(b.label.chars().all(|c| (c as u32) < 0x7F), "non-ASCII label {}", b.label);
    }
}

#[test]
fn battleground_and_peak_superlatives() {
    let evs = drama();
    let stats = summarize(&evs);
    let e = build_entertainment(&evs, &stats, speed_demon(&evs));
    let (file, _) = e.battleground.clone().unwrap();
    assert_eq!(file, "src/hot.rs");
    assert_eq!(stats.peak_heat.heat, 82);
    let spike = e.biggest_spike.clone().unwrap();
    assert_eq!(spike.delta, 62);
}

#[test]
fn leaderboards_sorted_and_tie_broken() {
    let e = recap(&drama());
    let lb = e.leaderboards.iter().find(|l| l.metric == "most_tasks_completed").unwrap();
    assert_eq!(lb.entries[0].0, "agent-1");
}

#[test]
fn streaks_counted() {
    let e = recap(&drama());
    assert_eq!(e.streaks.longest_auto_resolve_streak, 1);
    assert_eq!(e.streaks.longest_completion_streak, 1);
}

#[test]
fn streaks_ignore_intervening_events_of_other_classes() {
    let evs = vec![
        EventRecord { reason: s("TASK_COMPLETED"), ..ev("CLAIM_RELEASED", "2026-06-23T00:00:00Z") },
        EventRecord { pair: list(&["a", "b"]), heat: Some(10), ..ev("HEAT_UPDATED", "2026-06-23T00:00:01Z") },
        EventRecord { reason: s("TASK_COMPLETED"), ..ev("CLAIM_RELEASED", "2026-06-23T00:00:02Z") },
        EventRecord { reason: s("SESSION_END"), ..ev("CLAIM_RELEASED", "2026-06-23T00:00:03Z") },
        EventRecord { reason: s("TASK_COMPLETED"), ..ev("CLAIM_RELEASED", "2026-06-23T00:00:04Z") },
    ];
    let e = recap(&evs);
    assert_eq!(e.streaks.longest_completion_streak, 2);
}

#[test]
fn narrative_plain_text_no_emoji() {
    let e = recap(&drama());
    assert!(!e.narrative.is_empty());
    assert!(e.narrative.chars().all(|c| (c as u32) < 0x7F), "narrative has non-ASCII/emoji");
    assert!(e.narrative.contains("recap") || e.narrative.contains("Session"));
}

#[test]
fn quiet_session_graceful() {
    let e = recap(&Vec::new());
    assert!(!e.narrative.is_empty());
    assert!(e.badges.is_empty());
    assert_eq!(e.streaks.longest_auto_resolve_streak, 0);
}

#[test]
fn multi_spike_and_multi_conflict_hits_some_arms() {
    let evs = vec![
        EventRecord { pair: list(&["a", "b"]), heat: Some(10), ..ev("HEAT_UPDATED", "2026-06-23T00:00:00Z") },
        EventRecord { pair: list(&["a", "b"]), heat: Some(30), ..ev("HEAT_UPDATED", "2026-06-23T00:00:01Z") },
        EventRecord { pair: list(&["a", "b"]), heat: Some(80), ..ev("HEAT_UPDATED", "2026-06-23T00:00:02Z") },
        EventRecord {
            conflict_id: s("c-1"),
            agents: list(&["a", "b"]),
            paths: Some(vec![]),
            ..ev("CONFLICT_OPENED", "2026-06-23T00:00:03Z")
        },
        EventRecord {
            conflict_id: s("c-1"),
            resolution: s("PARTICIPANT_STEPPED_ASIDE"),
            ..ev("CONFLICT_RESOLVED", "2026-06-23T00:00:04Z")
        },
        EventRecord {
            conflict_id: s("c-2"),
            agents: list(&["a", "b"]),
            paths: Some(vec![]),
            ..ev("CONFLICT_OPENED", "2026-06-23T00:00:05Z")
        },
        EventRecord {
            conflict_id: s("c-2"),
            resolution: s("PARTICIPANT_STEPPED_ASIDE"),
            ..ev("CONFLICT_RESOLVED", "2026-06-23T00:00:08Z")
        },
    ];
    let e = recap(&evs);
    assert_eq!(e.biggest_spike.clone().unwrap().delta, 50);
    assert_eq!(e.longest_negotiation.clone().unwrap(), ("c-2".to_string(), 3000));
}

#[test]
fn quiet_narrative_names_the_quiet() {
    let e = recap(&Vec::new());
    assert_eq!(
        e.narrative,
        "Quiet session -- no conflicts, no drama.\nSession recap: 0 agents, 0 claims, 0 conflicts (0 resolved, 0 escalated), 0 deadlocks.\n"
    );
}

#[test]
fn drama_narrative_lists_badges_and_battleground() {
    let e = recap(&drama());
    assert!(e.narrative.starts_with("Session recap: 2 agents, 2 claims, 1 conflicts (1 resolved, 0 escalated), 0 deadlocks.\n"));
    assert!(e.narrative.contains("Firestarter: agent-1.\n"));
    assert!(e.narrative.ends_with("The battleground was src/hot.rs.\n"));
}

#[test]
fn longest_run_counts_consecutive_trues() {
    assert_eq!(longest_run(&vec![]), 0);
    assert_eq!(longest_run(&vec![false, false]), 0);
    assert_eq!(longest_run(&vec![true, true, false, true, true, true, false]), 3);
}

#[test]
fn battleground_counts_paths_and_touches() {
    let evs = drama();
    assert_eq!(battleground(&evs), Some(("src/hot.rs".to_string(), 3)));
    assert_eq!(battleground(&Vec::new()), None);
}

#[test]
fn spike_and_minute_on_drama() {
    let evs = drama();
    let sp = biggest_spike(&evs).unwrap();
    assert_eq!((sp.a.as_str(), sp.b.as_str(), sp.from, sp.to, sp.delta), ("agent-1", "agent-2", 20, 82, 62));
    assert_eq!(longest_negotiation(&evs), Some(("conflict-1".to_string(), 2000)));
    assert!(bloodiest_minute(&evs).is_some());
}

#[test]
fn claim_durations_pairs_create_and_release() {
    let evs = drama();
    let d = claim_durations(&evs);
    assert_eq!(d, vec![("agent-1".to_string(), (6000, 1))]);
}
