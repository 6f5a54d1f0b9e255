//! The randomness capability handed to the walk generator: either a seeded,
//! fully specified xorshift generator, or the `rand` crate's thread-local
//! generator behind trusted wrappers.

use rand::Rng;
use vstd::prelude::*;

verus! {

/// One xorshift round: the successor state of a seeded generator.
pub open spec fn xorshift_step(s: u64) -> u64 {
    let a = s ^ (s << 13);
    let b = a ^ (a >> 7);
    b ^ (b << 17)
}

/// The index a seeded generator in state `s` picks among `n` candidates.
pub open spec fn xorshift_pick(s: u64, n: usize) -> usize {
    ((xorshift_step(s) % (n as u64)) as usize)
}

/// A deterministic xorshift generator; its whole behaviour is pinned by the
/// contracts, so runs from equal seeds are reproducible.
pub struct Xorshift {
    pub state: u64,
}

impl Xorshift {
    pub fn new(seed: u64) -> (r: Xorshift)
        ensures
            r.state == seed,
    {
        Xorshift { state: seed }
    }

    /// Advances the state and picks an index below `n`.
    pub fn pick(&mut self, n: usize) -> (r: usize)
        requires
            n > 0,
        ensures
            final(self).state == xorshift_step(old(self).state),
            r == xorshift_pick(old(self).state, n),
            r < n,
    {
        let s = self.state;
        let a = s ^ (s << 13u64);
        let b = a ^ (a >> 7u64);
        let next = b ^ (b << 17u64);
        self.state = next;
        let m = next % (n as u64);
        proof {
            assert(m < n as u64) by {
                assert(n as u64 > 0);
            }
        }
        m as usize
    }
}

#[verifier::external_type_specification]
#[verifier::external_body]
pub struct ExThreadRng(rand::rngs::ThreadRng);

/// Relies on rand::thread_rng: a handle to the thread-local generator.
/// Nothing is promised of it.
#[verifier::external_body]
fn new_thread_rng() -> rand::rngs::ThreadRng {
    rand::thread_rng()
}

/// Relies on rand::Rng::gen_range over the range `0..n`: the sample lies in
/// that range, and the call panics only when the range is empty, which the
/// precondition rules out.
#[verifier::external_body]
fn gen_index(rng: &mut rand::rngs::ThreadRng, n: usize) -> (r: usize)
    requires
        n > 0,
    ensures
        r < n,
{
    rng.gen_range(0..n)
}

/// The random source threaded through walk generation. A `Seeded` source is
/// deterministic and fully specified; an `External` source draws from the
/// thread-local generator of the `rand` crate, of which only the range of
/// each sample is known.
pub enum RandomSource {
    Seeded(Xorshift),
    External(rand::rngs::ThreadRng),
}

impl RandomSource {
    /// A deterministic source: equal seeds give equal pick sequences.
    pub fn seeded(seed: u64) -> (r: RandomSource)
        ensures
            r matches RandomSource::Seeded(l) && l.state == seed,
    {
        RandomSource::Seeded(Xorshift::new(seed))
    }

    /// A source backed by the thread-local generator.
    pub fn from_entropy() -> (r: RandomSource)
        ensures
            r is External,
    {
        RandomSource::External(new_thread_rng())
    }

    /// Picks an index below `n`: uniformly at random for an `External`
    /// source, and as the fully pinned xorshift sequence for a `Seeded` one.
    pub fn pick(&mut self, n: usize) -> (r: usize)
        requires
            n > 0,
        ensures
            r < n,
            *old(self) matches RandomSource::Seeded(l) ==> (*final(self)
                matches RandomSource::Seeded(l2) && l2.state == xorshift_step(l.state) && r
                == xorshift_pick(l.state, n)),
            *old(self) is External ==> *final(self) is External,
    {
        match self {
            RandomSource::Seeded(l) => l.pick(n),
            RandomSource::External(t) => gen_index(t, n),
        }
    }
}

} // verus!
