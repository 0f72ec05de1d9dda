use git_cuda_agent::{AgentState, ONE_F64_BITS};

#[test]
fn default_agent_state() {
    let s = AgentState::default();
    assert_eq!(s.name, "agent");
    assert_eq!(s.vessel_class, "scout");
    assert_eq!(s.confidence_bits, ONE_F64_BITS);
    assert_eq!(f64::from_bits(s.confidence_bits), 1.0);
    assert_eq!((s.context_tokens, s.active_tasks, s.uptime_s), (0, 0, 0));
}
