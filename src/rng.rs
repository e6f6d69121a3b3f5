use libafl_bolts::rands::{Rand, StdRand};
use vstd::prelude::*;

verus! {

#[verifier::external_type_specification]
#[verifier::external_body]
pub struct ExRomuDuoJrRand(libafl_bolts::rands::RomuDuoJrRand);

/// Relies on libafl_bolts' RomuDuoJrRand::with_seed: a generator seeded with `seed`.
#[verifier::external_body]
fn seeded(seed: u64) -> StdRand {
    StdRand::with_seed(seed)
}

/// Relies on libafl_bolts' Rand::below: `fast_bound` maps the next 64-bit draw
/// into `[0, n)`; it asserts `n != 0`.
#[verifier::external_body]
fn rand_below(rand: &mut StdRand, n: usize) -> (r: usize)
    requires
        n > 0,
    ensures
        r < n,
{
    rand.below(n)
}

/// Relies on libafl_bolts' Rand::between: `lo + below(hi - lo + 1)`, within `[lo, hi]`.
#[verifier::external_body]
fn rand_between(rand: &mut StdRand, lo: usize, hi: usize) -> (r: usize)
    requires
        lo <= hi,
        hi - lo < usize::MAX,
    ensures
        lo <= r <= hi,
{
    rand.between(lo, hi)
}

/// A random source that remembers, as ghost state, every number it has handed out.
pub struct Rng {
    rand: StdRand,
    history: Ghost<Seq<int>>,
}

impl Rng {
    /// The numbers drawn so far, in order.
    pub closed spec fn draws(&self) -> Seq<int> {
        self.history@
    }

    /// A source that draws from `rand`.
    pub fn new(rand: StdRand) -> (r: Self)
        ensures
            r.draws() == Seq::<int>::empty(),
    {
        Rng { rand, history: Ghost(Seq::empty()) }
    }

    /// A source seeded with `seed`.
    pub fn with_seed(seed: u64) -> (r: Self)
        ensures
            r.draws() == Seq::<int>::empty(),
    {
        Rng::new(seeded(seed))
    }

    /// The generator inside, in the state it has reached.
    pub fn into_inner(self) -> StdRand {
        self.rand
    }

    /// A number in `[0, n)`.
    pub fn below(&mut self, n: usize) -> (r: usize)
        requires
            n > 0,
        ensures
            r < n,
            final(self).draws() == old(self).draws().push(r as int),
    {
        let r = rand_below(&mut self.rand, n);
        self.history = Ghost(self.history@.push(r as int));
        r
    }

    /// A number in `[lo, hi]`.
    pub fn between(&mut self, lo: usize, hi: usize) -> (r: usize)
        requires
            lo <= hi,
            hi - lo < usize::MAX,
        ensures
            lo <= r <= hi,
            final(self).draws() == old(self).draws().push(r as int),
    {
        let r = rand_between(&mut self.rand, lo, hi);
        self.history = Ghost(self.history@.push(r as int));
        r
    }
}

} // verus!
