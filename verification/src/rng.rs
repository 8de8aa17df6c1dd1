use vstd::prelude::*;

verus! {

/// One step of the generator: a linear-congruential update modulo 2^64.
pub open spec fn spec_lcg_next(state: u64) -> u64 {
    (((state as int) * 6364136223846793005 + 1442695040888963407) % 0x1_0000_0000_0000_0000) as u64
}

/// A small deterministic linear-congruential generator.
///
/// The engine draws surplus ballots through it, so a run can be replayed
/// from its seed; an unseeded run starts from [`fresh_seed`].
pub struct Lcg {
    pub state: u64,
}

impl Lcg {
    pub fn new(seed: u64) -> (r: Lcg)
        ensures
            r.state == seed,
    {
        Lcg { state: seed }
    }

    /// The next pseudo-random value below `bound`: the state advances one
    /// linear-congruential step and the new state is reduced modulo `bound`.
    pub fn next_below(&mut self, bound: usize) -> (r: usize)
        requires
            bound >= 1,
        ensures
            final(self).state == spec_lcg_next(old(self).state),
            r == final(self).state as int % bound as int,
            r < bound,
    {
        let wide: u128 = (self.state as u128) * 6364136223846793005u128 + 1442695040888963407u128;
        self.state = (wide % 0x1_0000_0000_0000_0000u128) as u64;
        (self.state % (bound as u64)) as usize
    }
}

/// Relies on `rand::random`: an arbitrary `u64` seed; nothing is promised
/// of its value. The thread-local generator behind it aborts if the
/// operating system's entropy source fails at its first per-thread seeding;
/// no input of this library can cause that.
#[verifier::external_body]
pub(crate) fn fresh_seed() -> u64 {
    rand::random::<u64>()
}

} // verus!
