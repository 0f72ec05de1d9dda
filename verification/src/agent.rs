//! Cell agents and the pool that hands them out.
use vstd::prelude::*;

verus! {

/// State code of an idle agent.
pub const STATE_IDLE: u32 = 0;

/// State code of an agent working on a task.
pub const STATE_ACTIVE: u32 = 1;

/// State code of an agent waiting on something.
pub const STATE_WAITING: u32 = 2;

/// State code of an agent whose task is done.
pub const STATE_DONE: u32 = 3;

/// IEEE-754 binary32 encoding of 1.0.
pub const CONFIDENCE_ONE_BITS: u32 = 0x3F80_0000;

/// Cell agent state, laid out for exchange with a device.
///
/// `state` is one of the `STATE_*` codes; `task_type` is 0 (none),
/// 1 (inference), 2 (reasoning) or 3 (coordination). The confidence is a
/// binary32 number, held by its IEEE-754 bit pattern.
#[derive(Debug, Clone, Copy)]
pub struct CellAgent {
    pub id: u32,
    pub state: u32,
    pub confidence_bits: u32,
    pub input_ptr: u64,
    pub output_ptr: u64,
    pub task_type: u32,
    pub result_code: i32,
}

impl Default for CellAgent {
    /// An agent with every field zero (a confidence of 0.0).
    fn default() -> (r: Self)
        ensures
            r == (CellAgent {
                id: 0,
                state: 0,
                confidence_bits: 0,
                input_ptr: 0,
                output_ptr: 0,
                task_type: 0,
                result_code: 0,
            }),
    {
        CellAgent {
            id: 0,
            state: 0,
            confidence_bits: 0,
            input_ptr: 0,
            output_ptr: 0,
            task_type: 0,
            result_code: 0,
        }
    }
}

/// A fresh, idle agent with the given id and full confidence.
pub open spec fn fresh_agent(id: u32) -> CellAgent {
    CellAgent {
        id,
        state: STATE_IDLE,
        confidence_bits: CONFIDENCE_ONE_BITS,
        input_ptr: 0,
        output_ptr: 0,
        task_type: 0,
        result_code: 0,
    }
}

/// `a` after being given a task.
pub open spec fn assigned(a: CellAgent, task_type: u32, input_ptr: u64, output_ptr: u64) -> CellAgent {
    CellAgent { state: STATE_ACTIVE, task_type, input_ptr, output_ptr, ..a }
}

/// The number of active agents in `s`.
pub open spec fn count_active(s: Seq<CellAgent>) -> nat
    decreases s.len(),
{
    if s.len() == 0 {
        0
    } else {
        count_active(s.drop_last()) + if s.last().state == STATE_ACTIVE {
            1nat
        } else {
            0nat
        }
    }
}

/// `i` is the first position of `s` that holds an idle agent.
pub open spec fn first_idle(s: Seq<CellAgent>, i: int) -> bool {
    &&& 0 <= i < s.len()
    &&& s[i].state == STATE_IDLE
    &&& forall|j: int| 0 <= j < i ==> #[trigger] s[j].state != STATE_IDLE
}

impl CellAgent {
    /// A fresh, idle agent with the given id and a confidence of 1.0.
    pub fn new(id: u32) -> (r: Self)
        ensures
            r == fresh_agent(id),
    {
        CellAgent { id, state: STATE_IDLE, confidence_bits: CONFIDENCE_ONE_BITS, ..Default::default() }
    }

    /// Whether the agent is working on a task.
    pub fn is_active(&self) -> (r: bool)
        ensures
            r == (self.state == STATE_ACTIVE),
    {
        self.state == STATE_ACTIVE
    }

    /// Gives the agent a task: it becomes active with the task's type and
    /// buffers; its other fields are kept.
    pub fn assign_task(&mut self, task_type: u32, input_ptr: u64, output_ptr: u64)
        ensures
            *final(self) == assigned(*old(self), task_type, input_ptr, output_ptr),
    {
        self.state = STATE_ACTIVE;
        self.task_type = task_type;
        self.input_ptr = input_ptr;
        self.output_ptr = output_ptr;
    }

    /// Finishes the agent's task: it is done, with the given result code;
    /// its other fields are kept.
    pub fn complete(&mut self, result_code: i32)
        ensures
            *final(self) == (CellAgent { state: STATE_DONE, result_code, ..*old(self) }),
    {
        self.state = STATE_DONE;
        self.result_code = result_code;
    }
}

/// A pool of cell agents.
pub struct AgentPool {
    pub agents: Vec<CellAgent>,
    pub next_id: u32,
}

proof fn lemma_count_active_bound(s: Seq<CellAgent>)
    ensures
        count_active(s) <= s.len(),
    decreases s.len(),
{
    if s.len() > 0 {
        lemma_count_active_bound(s.drop_last());
    }
}

proof fn lemma_count_active_update(s: Seq<CellAgent>, i: int, a: CellAgent)
    requires
        0 <= i < s.len(),
    ensures
        count_active(s.update(i, a)) + (if s[i].state == STATE_ACTIVE { 1int } else { 0int })
            == count_active(s) + (if a.state == STATE_ACTIVE { 1int } else { 0int }),
    decreases s.len(),
{
    let t = s.update(i, a);
    if i < s.len() - 1 {
        assert(t.drop_last() =~= s.drop_last().update(i, a));
        lemma_count_active_update(s.drop_last(), i, a);
    } else {
        assert(t.drop_last() =~= s.drop_last());
    }
}

/// Giving a task to an idle agent of a pool raises the pool's count of
/// active agents by one.
pub proof fn lemma_assign_idle_raises_active_count(
    agents: Seq<CellAgent>,
    i: int,
    task_type: u32,
    input_ptr: u64,
    output_ptr: u64,
)
    requires
        0 <= i < agents.len(),
        agents[i].state == STATE_IDLE,
    ensures
        count_active(agents.update(i, assigned(agents[i], task_type, input_ptr, output_ptr)))
            == count_active(agents) + 1,
{
    lemma_count_active_update(agents, i, assigned(agents[i], task_type, input_ptr, output_ptr));
}

/// Finishing the task of an active agent of a pool lowers the pool's count
/// of active agents by one.
pub proof fn lemma_complete_lowers_active_count(agents: Seq<CellAgent>, i: int, result_code: i32)
    requires
        0 <= i < agents.len(),
        agents[i].state == STATE_ACTIVE,
    ensures
        count_active(agents.update(i, CellAgent { state: STATE_DONE, result_code, ..agents[i] })) + 1
            == count_active(agents),
{
    lemma_count_active_update(agents, i, CellAgent { state: STATE_DONE, result_code, ..agents[i] });
}

/// The active count of a pool never exceeds its size, and is zero for a pool
/// of fresh agents.
pub proof fn lemma_active_count_bounds(agents: Seq<CellAgent>)
    ensures
        count_active(agents) <= agents.len(),
        (forall|i: int| 0 <= i < agents.len() ==> #[trigger] agents[i].state != STATE_ACTIVE) ==> count_active(
            agents,
        ) == 0,
    decreases agents.len(),
{
    lemma_count_active_bound(agents);
    if agents.len() > 0 {
        lemma_active_count_bounds(agents.drop_last());
        if forall|i: int| 0 <= i < agents.len() ==> #[trigger] agents[i].state != STATE_ACTIVE {
            assert forall|i: int| 0 <= i < agents.drop_last().len() implies #[trigger] agents.drop_last()[i].state
                != STATE_ACTIVE by {
                assert(agents[i].state != STATE_ACTIVE);
            }
            assert(agents[agents.len() - 1].state != STATE_ACTIVE);
        }
    }
}

impl AgentPool {
    /// A pool of `capacity` fresh agents with ids `0, 1, ...` (each taken
    /// modulo 2^32); the next id is `capacity` modulo 2^32.
    pub fn new(capacity: usize) -> (r: Self)
        ensures
            r.agents@.len() == capacity,
            forall|i: int| 0 <= i < capacity ==> #[trigger] r.agents@[i] == fresh_agent(i as u32),
            r.next_id == capacity as u32,
    {
        let mut agents: Vec<CellAgent> = Vec::new();
        let mut i: usize = 0;
        while i < capacity
            invariant
                i <= capacity,
                agents@.len() == i,
                forall|j: int| 0 <= j < i ==> #[trigger] agents@[j] == fresh_agent(j as u32),
            decreases capacity - i,
        {
            agents.push(CellAgent::new(i as u32));
            i += 1;
        }
        AgentPool { agents, next_id: capacity as u32 }
    }

    /// The first idle agent of the pool, borrowed for changes; `None` when
    /// no agent is idle. Changes made through the result are changes to
    /// that agent and to no other.
    pub fn acquire(&mut self) -> (r: Option<&mut CellAgent>)
        ensures
            final(self).next_id == old(self).next_id,
            match r {
                Some(a) => exists|i: int|
                    #![trigger old(self).agents@[i]]
                    first_idle(old(self).agents@, i) && *a == old(self).agents@[i]
                        && final(self).agents@ == old(self).agents@.update(i, *final(a))
                        && 0 <= i < old(self).agents@.len() && a.state == STATE_IDLE && (forall|j: int|
                        0 <= j < i ==> #[trigger] old(self).agents@[j].state != STATE_IDLE),
                None => {
                    &&& forall|i: int| 0 <= i < old(self).agents@.len() ==> #[trigger] old(self).agents@[i].state
                        != STATE_IDLE
                    &&& final(self).agents@ == old(self).agents@
                },
            },
    {
        let mut i: usize = 0;
        while i < self.agents.len()
            invariant
                i <= self.agents@.len(),
                self.agents@ == old(self).agents@,
                self.next_id == old(self).next_id,
                forall|j: int| 0 <= j < i ==> #[trigger] self.agents@[j].state != STATE_IDLE,
            decreases self.agents@.len() - i,
        {
            if self.agents[i].state == STATE_IDLE {
                assert(first_idle(old(self).agents@, i as int));
                return Some(&mut self.agents[i]);
            }
            i += 1;
        }
        None
    }

    /// The number of active agents in the pool.
    pub fn active_count(&self) -> (r: usize)
        ensures
            r == count_active(self.agents@),
    {
        let mut n: usize = 0;
        let mut i: usize = 0;
        while i < self.agents.len()
            invariant
                i <= self.agents@.len(),
                n == count_active(self.agents@.take(i as int)),
            decreases self.agents@.len() - i,
        {
            proof {
                assert(self.agents@.take(i + 1).drop_last() =~= self.agents@.take(i as int));
                lemma_count_active_bound(self.agents@.take(i as int));
            }
            if self.agents[i].is_active() {
                n = n + 1;
            }
            i += 1;
        }
        proof {
            assert(self.agents@.take(self.agents@.len() as int) =~= self.agents@);
        }
        n
    }
}

} // verus!
