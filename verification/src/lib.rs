//! GPU-oriented agent template: cell agents, muscle fibers, a branch
//! divergence engine, a last-writer-wins register, agent DNA configuration
//! and a feedback window.
use vstd::prelude::*;

pub mod agent;
pub mod crdt;
pub mod dna;
pub mod feedback;
pub mod muscle;
pub mod ramify;

verus! {

/// IEEE-754 binary64 encoding of 1.0.
pub const ONE_F64_BITS: u64 = 0x3FF0_0000_0000_0000;

/// Agent state shared between host and device. The confidence is a
/// binary64 number, held by its IEEE-754 bit pattern.
#[derive(Debug, Clone)]
pub struct AgentState {
    pub name: String,
    pub vessel_class: String,
    pub confidence_bits: u64,
    pub context_tokens: usize,
    pub active_tasks: usize,
    pub uptime_s: u64,
}

impl Default for AgentState {
    /// A scout named "agent" with full confidence and every counter zero.
    fn default() -> (r: Self)
        ensures
            r.name@ == "agent"@,
            r.vessel_class@ == "scout"@,
            r.confidence_bits == ONE_F64_BITS,
            r.context_tokens == 0,
            r.active_tasks == 0,
            r.uptime_s == 0,
    {
        AgentState {
            name: "agent".to_owned(),
            vessel_class: "scout".to_owned(),
            confidence_bits: ONE_F64_BITS,
            context_tokens: 0,
            active_tasks: 0,
            uptime_s: 0,
        }
    }
}

} // verus!
