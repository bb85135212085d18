use coordify_core::ipc::Response;

#[test]
fn responses_carry_what_they_say() {
    let r = Response::ok_with_agent("r1", "agent-1");
    assert_eq!(r, Response { id: "r1".into(), ok: true, agent_id: Some("agent-1".into()), error: None, data: None });
    let e = Response::err("r2", "bad token");
    assert!(!e.ok);
    assert_eq!(e.error.as_deref(), Some("bad token"));
    let o = Response::ok_for("r3");
    assert!(o.ok && o.agent_id.is_none() && o.error.is_none());
}
