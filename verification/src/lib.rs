//! Multi-winner ranked-choice (single transferable vote) tally engine,
//! together with the small pieces of pure poll logic around it: ballot
//! preparation, vote validation, command dispatch and result ranking.

pub mod ballots;
pub mod commands;
pub mod engine;
pub mod numbers;
pub mod rng;
pub mod stv;

use vstd::prelude::*;

verus! {

/// The Droop quota: the least ballot count that guarantees a seat.
pub open spec fn spec_droop_quota(total: int, seats: int) -> int {
    total / (seats + 1) + 1
}

/// Computes the Droop quota from the valid-ballot total and the seat count.
///
/// The quota is fixed for the whole election: ballots moving between piles
/// never change it.
pub fn droop_quota(total: usize, seats: usize) -> (q: usize)
    requires
        seats >= 1,
    ensures
        q == spec_droop_quota(total as int, seats as int),
        1 <= q <= total + 1,
{
    if seats >= total {
        assert(total as int / (seats + 1) as int == 0) by {
            vstd::arithmetic::div_mod::lemma_basic_div(total as int, (seats + 1) as int);
        };
        1
    } else {
        assert((total as int / (seats + 1) as int) < total) by {
            vstd::arithmetic::div_mod::lemma_div_decreases(total as int, (seats + 1) as int);
        };
        total / (seats + 1) + 1
    }
}

} // verus!
