//! Order-preserving parallel map: the planning, the per-item work and the
//! order reassembly of a chunked strategy and of a worker-pool strategy.
//! Thread spawning and joining are left to the caller; everything that
//! decides which item goes where, and how results come back in input order,
//! is verified here.

pub mod plan;
pub mod mapping;
pub mod reassembly;
pub mod pool;
