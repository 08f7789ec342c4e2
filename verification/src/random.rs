use vstd::prelude::*;

verus! {

/// Number of distinct draws: each draw is uniform over `0 .. RAND_DENOM` and
/// stands for the fraction `draw / RAND_DENOM` in `[0, 1)`.
pub const RAND_DENOM: u64 = 0x1_0000_0000;

pub const RAND_MUL: u64 = 0x5851_f42d_4c95_7f2d;

pub const RAND_INC: u64 = 0x1405_7b7e_f767_814f;

pub const RAND_SEED: u64 = 0x9e37_79b9_7f4a_7c15;

/// The generator's seed after one advance.
pub open spec fn next_seed(s: u64) -> u64 {
    ((s * RAND_MUL + RAND_INC) % 0x1_0000_0000_0000_0000) as u64
}

/// The seed after `n` advances.
pub open spec fn seed_after(s: u64, n: nat) -> u64
    decreases n,
{
    if n == 0 {
        s
    } else {
        next_seed(seed_after(s, (n - 1) as nat))
    }
}

/// The draw produced by one advance from seed `s`: the upper half of the new
/// seed, a value below `RAND_DENOM`.
pub open spec fn draw_of(s: u64) -> u64 {
    next_seed(s) / RAND_DENOM
}

/// Deterministic pseudo-random generator: a linear-congruential advance of a
/// 64-bit seed.  Every probabilistic structure owns its instance, so draws
/// are a pure function of the owning sketch's state.
#[derive(Clone, Debug)]
pub struct RandomSource {
    pub seed: u64,
}

impl RandomSource {
    pub fn new() -> (r: Self)
        ensures
            r.seed == RAND_SEED,
    {
        RandomSource { seed: RAND_SEED }
    }

    pub fn from_seed(seed: u64) -> (r: Self)
        ensures
            r.seed == seed,
    {
        RandomSource { seed }
    }

    /// Advances the seed and returns a draw in `0 .. RAND_DENOM`.
    pub fn next(&mut self) -> (r: u64)
        ensures
            final(self).seed == next_seed(old(self).seed),
            r == draw_of(old(self).seed),
            r < RAND_DENOM,
    {
        let s0 = self.seed;
        let s1 = s0.wrapping_mul(RAND_MUL).wrapping_add(RAND_INC);
        proof {
            let m = s0 * RAND_MUL;
            let range = 0x1_0000_0000_0000_0000;
            vstd::arithmetic::div_mod::lemma_add_mod_noop(m, RAND_INC as int, range);
            assert(RAND_INC as int % range == RAND_INC);
            assert((m % range + RAND_INC) % range == (m + RAND_INC) % range);
            assert(s1 == next_seed(s0));
        }
        self.seed = s1;
        let r = s1 >> 32u64;
        proof {
            assert(s1 >> 32u64 == s1 / 0x1_0000_0000u64) by (bit_vector);
            assert(s1 / 0x1_0000_0000u64 < 0x1_0000_0000) by (bit_vector);
        }
        r
    }

    /// A draw reduced to `0 .. n`.
    pub fn next_below(&mut self, n: u64) -> (r: u64)
        requires
            n >= 1,
        ensures
            final(self).seed == next_seed(old(self).seed),
            r == draw_of(old(self).seed) % n,
            r < n,
    {
        let d = self.next();
        d % n
    }

    /// A fair parity bit: the draw's low bit.
    pub fn next_parity(&mut self) -> (r: usize)
        ensures
            final(self).seed == next_seed(old(self).seed),
            r == draw_of(old(self).seed) % 2,
            r < 2,
    {
        let d = self.next();
        (d % 2) as usize
    }
}

} // verus!
