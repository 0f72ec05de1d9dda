use git_cuda_agent::agent::{AgentPool, CellAgent, CONFIDENCE_ONE_BITS, STATE_ACTIVE, STATE_DONE};

#[test]
fn test_cell_agent_lifecycle() {
    let mut agent = CellAgent::new(0);
    assert!(!agent.is_active());
    agent.assign_task(1, 100, 200);
    assert!(agent.is_active());
    agent.complete(0);
    assert_eq!(agent.result_code, 0);
}

#[test]
fn test_agent_pool() {
    let mut pool = AgentPool::new(64);
    let a = pool.acquire();
    assert!(a.is_some());
    assert_eq!(pool.active_count(), 0); // not assigned yet
}

#[test]
fn new_agent_fields() {
    let agent = CellAgent::new(7);
    assert_eq!(agent.id, 7);
    assert_eq!(agent.state, 0);
    assert_eq!(agent.confidence_bits, CONFIDENCE_ONE_BITS);
    assert_eq!(f32::from_bits(agent.confidence_bits), 1.0f32);
    assert_eq!(agent.input_ptr, 0);
    assert_eq!(agent.output_ptr, 0);
    assert_eq!(agent.task_type, 0);
    assert_eq!(agent.result_code, 0);
}

#[test]
fn default_agent_is_all_zero() {
    let agent = CellAgent::default();
    assert_eq!(agent.confidence_bits, 0);
    assert_eq!(agent.id, 0);
    assert_eq!(agent.state, 0);
}

#[test]
fn assign_and_complete_keep_other_fields() {
    let mut agent = CellAgent::new(3);
    agent.assign_task(2, 10, 20);
    assert_eq!(agent.state, STATE_ACTIVE);
    assert_eq!((agent.task_type, agent.input_ptr, agent.output_ptr), (2, 10, 20));
    assert_eq!(agent.id, 3);
    agent.complete(-4);
    assert_eq!(agent.state, STATE_DONE);
    assert_eq!(agent.result_code, -4);
    assert_eq!(agent.task_type, 2);
    assert!(!agent.is_active());
}

#[test]
fn pool_ids_and_next_id() {
    let pool = AgentPool::new(5);
    assert_eq!(pool.agents.len(), 5);
    for (i, a) in pool.agents.iter().enumerate() {
        assert_eq!(a.id as usize, i);
        assert_eq!(a.state, 0);
    }
    assert_eq!(pool.next_id, 5);
}

#[test]
fn acquire_returns_first_idle_and_assigning_raises_count() {
    let mut pool = AgentPool::new(3);
    pool.acquire().unwrap().assign_task(1, 0, 0);
    assert_eq!(pool.active_count(), 1);
    let second = pool.acquire().unwrap();
    assert_eq!(second.id, 1);
    second.assign_task(1, 0, 0);
    assert_eq!(pool.active_count(), 2);
    pool.agents[0].complete(0);
    assert_eq!(pool.active_count(), 1);
    // agent 0 is done, not idle: the next idle one is agent 2
    assert_eq!(pool.acquire().unwrap().id, 2);
}

#[test]
fn acquire_on_busy_pool_is_none() {
    let mut pool = AgentPool::new(2);
    for a in pool.agents.iter_mut() {
        a.assign_task(1, 0, 0);
    }
    assert!(pool.acquire().is_none());
    let mut empty = AgentPool::new(0);
    assert!(empty.acquire().is_none());
    assert_eq!(empty.active_count(), 0);
}
