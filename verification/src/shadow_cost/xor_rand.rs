//! A seeded xorshift generator of 32-bit values.
use vstd::prelude::*;

verus! {

/// The seed a fresh generator starts from.
pub const DEFAULT_SEED: u32 = 9;

/// One round of the 32-bit xorshift generator with the shift triple 13, 17, 5.
pub open spec fn xorshift(s: u32) -> u32 {
    let a: u32 = s ^ (s << 13u32);
    let b: u32 = a ^ (a >> 17u32);
    b ^ (b << 5u32)
}

/// Why a request for a random value was refused.
#[derive(Debug, Clone, Copy, PartialEq, Eq)]
pub enum RandError {
    /// The upper bound was zero, so the range `[0, n)` is empty.
    InvalidArgument,
}

/// A deterministic stream of pseudo-random values; its view is the current state.
#[derive(Debug)]
pub struct XorRand {
    state: u32,
}

impl View for XorRand {
    type V = u32;

    closed spec fn view(&self) -> u32 {
        self.state
    }
}

impl XorRand {
    /// A generator in the default start state.
    pub fn new() -> (rng: XorRand)
        ensures
            rng@ == DEFAULT_SEED,
    {
        XorRand { state: DEFAULT_SEED }
    }

    /// A generator that starts from `seed`.
    pub fn from_seed(seed: u32) -> (rng: XorRand)
        ensures
            rng@ == seed,
    {
        XorRand { state: seed }
    }

    /// The current state.
    pub fn state(&self) -> (s: u32)
        ensures
            s == self@,
    {
        self.state
    }

    /// Advances the state by one round and reduces it modulo `n`; refuses `n == 0`
    /// and then leaves the state as it was.
    pub fn next(&mut self, n: u32) -> (res: Result<u32, RandError>)
        ensures
            n == 0 ==> res == Err::<u32, RandError>(RandError::InvalidArgument) && final(self)@
                == old(self)@,
            n > 0 ==> res == Ok::<u32, RandError>(xorshift(old(self)@) % n) && final(self)@
                == xorshift(old(self)@),
    {
        if n == 0 {
            Err(RandError::InvalidArgument)
        } else {
            Ok(rnd(self, n))
        }
    }
}

/// Advances `rng` by one round and returns the new state modulo `n`, a value in `[0, n)`.
pub fn rnd(rng: &mut XorRand, n: u32) -> (r: u32)
    requires
        n > 0,
    ensures
        final(rng)@ == xorshift(old(rng)@),
        r == final(rng)@ % n,
        r < n,
{
    let s0: u32 = rng.state;
    let s1: u32 = s0 ^ (s0 << 13u32);
    let s2: u32 = s1 ^ (s1 >> 17u32);
    let s3: u32 = s2 ^ (s2 << 5u32);
    rng.state = s3;
    s3 % n
}

} // verus!
