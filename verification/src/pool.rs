//! What a request for a worker count asks of the thread-pool set-up.

use vstd::prelude::*;

verus! {

/// Where the parallel sections run after a worker-count request.
#[derive(Clone, Copy, Debug, PartialEq, Eq, Structural)]
pub enum PoolChoice {
    /// The default global pool, sized to the machine.
    Global,
    /// A dedicated pool of this many workers (at least one).
    Dedicated(usize),
}

/// The pool that a request for `n` workers selects: `n == 0` falls back to
/// the global pool, `n >= 1` asks for a dedicated pool of `n` workers, and a
/// negative `n` is refused (`None`).
pub fn pool_choice(n: isize) -> (r: Option<PoolChoice>)
    ensures
        n < 0 <==> r is None,
        n == 0 ==> r == Some(PoolChoice::Global),
        n > 0 ==> r == Some(PoolChoice::Dedicated(n as usize)),
{
    if n < 0 {
        None
    } else if n == 0 {
        Some(PoolChoice::Global)
    } else {
        Some(PoolChoice::Dedicated(n as usize))
    }
}

} // verus!
