use vstd::prelude::*;

verus! {

/// Multiplier of the linear congruential generator.
pub const LCG_MUL: u32 = 1664525;

/// Increment of the linear congruential generator.
pub const LCG_INC: u32 = 1013904223;

/// One step of the generator: `s * LCG_MUL + LCG_INC` modulo 2^32.
pub open spec fn lcg_step(s: u32) -> u32 {
    ((s as int * LCG_MUL as int + LCG_INC as int) % 0x1_0000_0000) as u32
}

/// A linear congruential pseudo-random generator over `u32`.
pub struct LCG {
    state: u32,
}

impl LCG {
    /// The current state of the generator.
    pub closed spec fn state(&self) -> u32 {
        self.state
    }

    pub fn new(seed: u32) -> (r: Self)
        ensures
            r.state() == seed,
    {
        LCG { state: seed }
    }

    /// Advances the generator and returns its new state.
    pub fn next(&mut self) -> (r: u32)
        ensures
            r == lcg_step(old(self).state()),
            final(self).state() == r,
    {
        let s = self.state;
        let m = s.wrapping_mul(LCG_MUL);
        let n = m.wrapping_add(LCG_INC);
        proof {
            assert(lcg_step(s) == n) by (nonlinear_arith)
                requires
                    m == (s as int * LCG_MUL as int) % 0x1_0000_0000,
                    n == (m as int + LCG_INC as int) % 0x1_0000_0000,
            ;
        }
        self.state = n;
        n
    }
}

} // verus!
