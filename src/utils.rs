//! Small arithmetic helpers.
use vstd::prelude::*;
use vstd::arithmetic::div_mod::{lemma_fundamental_div_mod, lemma_fundamental_div_mod_converse};

verus! {

/// `a / b` rounded up.
pub fn udiv_ceil(a: usize, b: usize) -> (r: usize)
    requires
        b > 0,
    ensures
        r == (a + b - 1) / b as int,
{
    let q = a / b;
    let m = a % b;
    proof {
        lemma_fundamental_div_mod(a as int, b as int);
        assert(a as int == q * b + m) by (nonlinear_arith)
            requires
                a as int == b * q + m,
        ;
        assert((q + 1) * b == q * b + b) by (nonlinear_arith);
        if m != 0 {
            assert(q < a) by (nonlinear_arith)
                requires
                    a as int == q * b + m,
                    m > 0,
                    b > 0,
                    q >= 0,
            ;
        }
        if m == 0 {
            lemma_fundamental_div_mod_converse(a + b - 1, b as int, q as int, b - 1);
        } else {
            lemma_fundamental_div_mod_converse(a + b - 1, b as int, q + 1, m - 1);
        }
    }
    if m != 0 {
        q + 1
    } else {
        q
    }
}

} // verus!
