use coordify_core::paths::{join, Paths};

#[test]
fn derives_runtime_and_session_paths() {
    let p = Paths::new("/tmp/proj");
    assert_eq!(p.socket(), "/tmp/proj/.coordify/runtime/core.sock");
    assert_eq!(p.lock(), "/tmp/proj/.coordify/runtime/core.lock");
    assert_eq!(p.token(), "/tmp/proj/.coordify/runtime/session.token");
    assert_eq!(p.session_dir("2026-06-22_18-42-11"), "/tmp/proj/.coordify/sessions/2026-06-22_18-42-11");
}

#[test]
fn other_runtime_files_and_dirs() {
    let p = Paths::new("/r/");
    assert_eq!(p.coordify(), "/r/.coordify");
    assert_eq!(p.pid(), "/r/.coordify/runtime/core.pid");
    assert_eq!(p.live_state(), "/r/.coordify/runtime/live-state.json");
    assert_eq!(p.knowledge_dir(), "/r/.coordify/knowledge");
    assert_eq!(p.sessions(), "/r/.coordify/sessions");
}

#[test]
fn join_follows_path_rules() {
    assert_eq!(join("a", "b"), "a/b");
    assert_eq!(join("a/", "b"), "a/b");
    assert_eq!(join("", "b"), "b");
    assert_eq!(join("a", "/abs"), "/abs");
    assert_eq!(join("a", ""), "a/");
}
