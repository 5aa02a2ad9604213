//! How many worker threads the physics gets.

use vstd::prelude::*;

verus! {

/// Worker threads for `available` hardware threads: two are left for the
/// window and the simulation loop, and at least one worker remains.
pub fn worker_threads(available: usize) -> (n: usize)
    ensures
        n == if available < 3 {
            1
        } else {
            available - 2
        },
        n >= 1,
{
    available.max(3) - 2
}

} // verus!
