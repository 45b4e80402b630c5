//! A seeded linear congruential generator: the same seed always yields the same draws.

use vstd::arithmetic::div_mod::lemma_add_mod_noop;
use vstd::prelude::*;

verus! {

/// The LCG multiplier.
pub const MULTIPLIER: u64 = 1664525;

/// The LCG increment.
pub const INCREMENT: u64 = 1013904223;

/// One step of the recurrence `state * 1664525 + 1013904223 (mod 2^64)`.
pub open spec fn lcg(state: u64) -> u64 {
    ((state as int * MULTIPLIER as int + INCREMENT as int) % 0x1_0000_0000_0000_0000) as u64
}

/// What `gen_range(min, max)` returns from the raw value `raw`.
pub open spec fn range_of(raw: u64, min: usize, max: usize) -> usize {
    (min + (raw as usize) % ((max - min) as usize)) as usize
}

/// Whether the raw value `raw`, read as `raw / 2^64`, lies below `num / den`.
pub open spec fn below_ratio(raw: u64, num: u64, den: u64) -> bool {
    (raw as int) * (den as int) < (num as int) * 0x1_0000_0000_0000_0000
}

/// A deterministic pseudo-random generator. Its view is its state.
pub struct Rng {
    state: u64,
}

impl View for Rng {
    type V = u64;

    closed spec fn view(&self) -> u64 {
        self.state
    }
}

impl Rng {
    /// A generator whose first state is `seed`.
    pub fn new(seed: u64) -> (r: Rng)
        ensures
            r@ == seed,
    {
        Rng { state: seed }
    }

    /// Advances the state by one step and returns it.
    pub fn next(&mut self) -> (r: u64)
        ensures
            r == lcg(old(self)@),
            final(self)@ == r,
    {
        let s0 = self.state;
        let p = s0.wrapping_mul(MULTIPLIER);
        self.state = p.wrapping_add(INCREMENT);
        proof {
            lemma_add_mod_noop(s0 as int * MULTIPLIER as int, INCREMENT as int, 0x1_0000_0000_0000_0000);
        }
        self.state
    }

    /// An integer in `[min, max)`: `min` plus the next raw value modulo the width.
    pub fn gen_range(&mut self, min: usize, max: usize) -> (r: usize)
        requires
            min < max,
        ensures
            final(self)@ == lcg(old(self)@),
            r == range_of(lcg(old(self)@), min, max),
            min <= r < max,
    {
        let raw = self.next();
        let width = max - min;
        min + (raw as usize) % width
    }

    /// A draw that is true when the next raw value, read as a fraction of `2^64`,
    /// lies below `num / den`; `den` is not zero.
    pub fn gen_bool(&mut self, num: u64, den: u64) -> (r: bool)
        requires
            den > 0,
        ensures
            final(self)@ == lcg(old(self)@),
            r == below_ratio(lcg(old(self)@), num, den),
    {
        let raw = self.next();
        proof {
            let (a, b) = (raw as int, den as int);
            assert(a * b <= 0xffff_ffff_ffff_ffff * 0xffff_ffff_ffff_ffff) by (nonlinear_arith)
                requires
                    0 <= a <= 0xffff_ffff_ffff_ffff,
                    0 <= b <= 0xffff_ffff_ffff_ffff,
            ;
        }
        (raw as u128) * (den as u128) < (num as u128) * 0x1_0000_0000_0000_0000u128
    }
}

} // verus!
