use coordify_core::eventlog::{LogMeter, MAX_LOG_BYTES};

#[test]
fn rotation_is_due_at_the_cap() {
    let mut m = LogMeter::new(MAX_LOG_BYTES - 10);
    assert!(!m.rotation_due());
    m.appended(9);
    assert_eq!(m.written, MAX_LOG_BYTES);
    assert!(m.rotation_due());
    m.rotated();
    assert_eq!(m.written, 0);
    assert!(!m.rotation_due());
}

#[test]
fn cap_is_sixty_four_mebibytes() {
    assert_eq!(MAX_LOG_BYTES, 67_108_864);
}
