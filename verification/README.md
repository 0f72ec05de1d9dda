# git_cuda_agent

A GPU-oriented agent template, verified with Verus.

- `src/agent.rs`: cell agents and the pool that hands them out.
- `src/crdt.rs`: a last-writer-wins register of string keys with merge, and
  the laws of its merge (idempotent, commutative, associative, monotone).
- `src/dna.rs`: agent configuration and the `.claw-dna` line parser.
- `src/feedback.rs`: the sliding window of scored experiences.
- `src/muscle.rs`: compute fibers and their manager.
- `src/ramify.rs`: branch divergence bookkeeping.
- `app/`: the serializable agent state and the floating-point views and
  statistics (averages, rates) over the library's types.

Floating-point quantities are held in `src/` by exact integer stand-ins: IEEE
bit patterns for values that are only stored, half operations per cycle for
fiber throughput, and fractions for divergence rates and thresholds.
