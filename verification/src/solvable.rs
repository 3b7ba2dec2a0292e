//! How many answers a caller wants at a time.

use vstd::prelude::*;

verus! {

#[derive(Clone, Copy, Debug, PartialEq, Eq, Structural)]
pub struct SolveSettings {
    pub max_solutions: usize,
}

impl Default for SolveSettings {
    fn default() -> (r: Self)
        ensures
            r.max_solutions == 10,
    {
        SolveSettings { max_solutions: 10 }
    }
}

} // verus!
