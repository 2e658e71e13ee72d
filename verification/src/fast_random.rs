//! The Park-Miller "minimal standard" generator.

use vstd::prelude::*;

verus! {

/// One step of the generator: `16807 * seed` reduced by folding the bits above
/// bit 30 back onto the low 31 bits, computed on a 16/16-bit split of `seed`.
pub open spec fn lcg_step(seed: u32) -> u32 {
    let lo0 = 16807 * (seed as int % 0x10000);
    let hi = 16807 * (seed as int / 0x10000);
    let lo1 = lo0 + (hi % 0x8000) * 0x10000;
    let lo2 = lo1 + hi / 0x8000;
    ((lo2 % 0x8000_0000) + lo2 / 0x8000_0000) as u32
}

/// The state after `n` steps from `seed`.
pub open spec fn lcg_iter(seed: u32, n: nat) -> u32
    decreases n,
{
    if n == 0 {
        seed
    } else {
        lcg_step(lcg_iter(seed, (n - 1) as nat))
    }
}

/// The split computation never leaves 32 bits, and its result is congruent to
/// `16807 * seed` modulo `2^31 - 1` and at most `2^31`.
pub proof fn lemma_lcg_step_congruent(seed: u32)
    ensures
        lcg_step(seed) as int % 0x7fff_ffff == (16807 * seed as int) % 0x7fff_ffff,
        lcg_step(seed) <= 0x8000_0000,
{
    let s = seed as int;
    let a = s % 0x10000;
    let b = s / 0x10000;
    let lo0 = 16807 * a;
    let hi = 16807 * b;
    let h0 = hi % 0x8000;
    let h1 = hi / 0x8000;
    let lo2 = lo0 + h0 * 0x10000 + h1;
    let q = lo2 / 0x8000_0000;
    let r = lo2 % 0x8000_0000;
    assert(0 <= lo2 < 0x1_0000_0000);
    assert(16807 * s == lo2 + h1 * 0x7fff_ffff) by {
        assert(s == a + b * 0x10000);
        assert(hi == h0 + h1 * 0x8000);
        assert(16807 * s == lo0 + hi * 0x10000) by (nonlinear_arith)
            requires
                s == a + b * 0x10000,
                lo0 == 16807 * a,
                hi == 16807 * b,
        ;
    }
    assert(lo2 == (q + r) + q * 0x7fff_ffff);
    assert(16807 * s == (q + r) + (q + h1) * 0x7fff_ffff);
    vstd::arithmetic::div_mod::lemma_mod_multiples_vanish(q + h1, q + r, 0x7fff_ffff);
}

pub struct FastRandom {
    seed: u32,
}

impl View for FastRandom {
    type V = u32;

    /// The current state of the generator.
    closed spec fn view(&self) -> u32 {
        self.seed
    }
}

impl FastRandom {
    pub fn new(seed: u32) -> (r: Self)
        ensures
            r@ == seed,
    {
        FastRandom { seed }
    }

    /// Advances the generator and returns its new state.
    pub fn get_next_uint(&mut self) -> (r: u32)
        ensures
            r == lcg_step(old(self)@),
            final(self)@ == r,
    {
        let seed: u32 = self.seed;
        let a: u32 = seed & 0xffff;
        let b: u32 = seed >> 16;
        assert(a == seed % 0x10000 && b == seed / 0x10000) by (bit_vector)
            requires
                a == seed & 0xffff,
                b == seed >> 16,
        ;
        let lo: u32 = 16807u32.wrapping_mul(a);
        let hi: u32 = 16807u32.wrapping_mul(b);
        assert(16807 * a < 0x1_0000_0000 && 16807 * b < 0x1_0000_0000) by (nonlinear_arith)
            requires
                a < 0x10000,
                b < 0x10000,
        ;
        let h0: u32 = (hi & 0x7fff) << 16;
        let h1: u32 = hi >> 15;
        assert(h0 == (hi % 0x8000) * 0x10000 && h1 == hi / 0x8000) by (bit_vector)
            requires
                h0 == (hi & 0x7fff) << 16,
                h1 == hi >> 15,
        ;
        let lo: u32 = lo.wrapping_add(h0);
        let lo: u32 = lo.wrapping_add(h1);
        let r0: u32 = lo & 0x7FFFFFFF;
        let q0: u32 = lo >> 31;
        assert(r0 == lo % 0x8000_0000 && q0 == lo / 0x8000_0000) by (bit_vector)
            requires
                r0 == lo & 0x7FFFFFFF,
                q0 == lo >> 31,
        ;
        self.seed = r0.wrapping_add(q0);
        self.seed
    }
}

} // verus!
