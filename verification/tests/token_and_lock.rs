use coordify_core::bootstrap::{acquire_lock, constant_time_eq, hex_encode, LockAction, LockEvent, LockInfo};

#[test]
fn constant_time_eq_matches_and_mismatches() {
    assert!(constant_time_eq("abcdef", "abcdef"));
    assert!(!constant_time_eq("abcdef", "abcdez"));
    assert!(!constant_time_eq("abcdef", "abcdefg"));
    assert!(!constant_time_eq("", "a"));
    assert!(constant_time_eq("", ""));
}

#[test]
fn token_is_64_hex_chars() {
    let bytes: Vec<u8> = (0u8..32).map(|i| i.wrapping_mul(37).wrapping_add(200)).collect();
    let token = hex_encode(&bytes);
    assert_eq!(token.len(), 64);
    assert!(token.chars().all(|c| c.is_ascii_hexdigit() && !c.is_ascii_uppercase()));
    assert_eq!(hex_encode(&vec![0x00, 0x0f, 0xa5, 0xff]), "000fa5ff");
}

fn info(pid: u32) -> LockInfo {
    LockInfo { pid, started_at: "t".into(), project_root: "/p".into(), core_version: "0.1.0".into() }
}

#[test]
fn lock_decisions() {
    assert!(matches!(acquire_lock(true, LockEvent::Created), LockAction::Acquire));
    match acquire_lock(true, LockEvent::Exists { holder: Some(info(7)), holder_alive: true }) {
        LockAction::Held(i) => assert_eq!(i.pid, 7),
        other => panic!("expected Held, got {:?}", other),
    }
    assert!(matches!(acquire_lock(true, LockEvent::Exists { holder: Some(info(7)), holder_alive: false }), LockAction::BreakStale));
    assert!(matches!(acquire_lock(true, LockEvent::Exists { holder: None, holder_alive: false }), LockAction::BreakStale));
}

#[test]
fn stale_lock_retry_is_bounded() {
    assert!(matches!(acquire_lock(false, LockEvent::Exists { holder: None, holder_alive: false }), LockAction::GiveUp));
    assert!(matches!(acquire_lock(false, LockEvent::Created), LockAction::Acquire));
}
