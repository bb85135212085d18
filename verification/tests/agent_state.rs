use coordify_core::state::State;

fn empty() -> serde_json::Value {
    serde_json::Value::Object(serde_json::Map::new())
}

#[test]
fn register_assigns_sequential_ids() {
    let mut s = State::new();
    assert_eq!(s.register(empty(), 1000), "agent-1");
    assert_eq!(s.register(empty(), 1000), "agent-2");
    assert_eq!(s.agent_count(), 2);
}

#[test]
fn heartbeat_updates_known_agent_and_rejects_unknown() {
    let mut s = State::new();
    let id = s.register(empty(), 1000);
    assert!(s.heartbeat(&id, 2000));
    assert!(!s.heartbeat("agent-999", 2000));
}

#[test]
fn reap_removes_only_timed_out_agents() {
    let mut s = State::new();
    let a = s.register(empty(), 1000);
    let b = s.register(empty(), 9000);
    let lost = s.reap(10_000, 5_000);
    assert!(lost.contains(&a), "agent idle > timeout_ms must be reaped");
    assert_eq!(lost.len(), 1);
    assert_eq!(s.agent_count(), 1);
    assert!(s.heartbeat(&b, 11_000));
}

#[test]
fn reap_boundary_is_strictly_greater() {
    let mut s = State::new();
    let c = s.register(empty(), 5_000);
    let lost = s.reap(10_000, 5_000);
    assert!(!lost.contains(&c), "agent idle exactly timeout_ms must survive (strict >)");
    assert!(s.heartbeat(&c, 11_000), "surviving agent must still be present");
}

#[test]
fn remove_reports_presence() {
    let mut s = State::new();
    let id = s.register(empty(), 1000);
    assert!(s.remove(&id));
    assert!(!s.remove(&id));
}

#[test]
fn ids_are_not_reused_after_removal() {
    let mut s = State::new();
    let a = s.register(empty(), 0);
    assert!(s.remove(&a));
    assert_eq!(s.register(empty(), 0), "agent-2");
}
