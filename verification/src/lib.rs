//! Verified combinatorial core of the LiNGAM causal-discovery algorithms:
//! the bootstrap resampler, stable rankings, prior-knowledge handling, the
//! causal-order and parent-search bookkeeping, and path enumeration.
//! All numerical (floating-point) work stays with the caller.

pub mod util;
pub mod direct_lingam;
pub mod bootstrap;
pub mod camuv;
pub mod adjacency;
pub mod hsic;
pub mod pool;
