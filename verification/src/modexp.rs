//! Modular exponentiation by repeated squaring, proved against the
//! mathematical power function.

#![verifier::loop_isolation(false)]

use vstd::prelude::*;
use vstd::arithmetic::power::{pow, lemma_pow_mod_noop, lemma_pow_multiplies, lemma_square_is_pow2};
use vstd::arithmetic::div_mod::{
    lemma_mul_mod_noop_left, lemma_mul_mod_noop_right, lemma_small_mod,
};

verus! {

/// Computes `x` to the power `y`, modulo `m`, without ever overflowing:
/// intermediate values are reduced modulo `m` inside 128-bit arithmetic.
pub fn modexp(x: u64, y: u64, m: u64) -> (r: u64)
    requires
        m >= 1,
    ensures
        r as int == pow(x as int, y as nat) % (m as int),
{
    let mut base: u128 = x as u128;
    let mut exp: u128 = y as u128;
    let md: u128 = m as u128;

    if md == 1 {
        proof {
            lemma_small_mod(0, 1);
            assert(pow(x as int, y as nat) % 1int == 0int) by {
                vstd::arithmetic::div_mod::lemma_mod_self_0(1int);
                lemma_mul_mod_noop_right(pow(x as int, y as nat), 1int, 1int);
            }
        }
        return 0;
    }

    let mut z: u128 = 1;
    proof {
        assert(pow(base as int, exp as nat) == pow(x as int, y as nat));
    }
    while exp > 0
        invariant
            z < md,
            base <= u64::MAX as u128,
            (z as int * pow(base as int, exp as nat)) % (md as int) == pow(x as int, y as nat) % (
            md as int),
        decreases exp,
    {
        let ghost zi = z as int;
        let ghost bi = base as int;
        let ghost ei = exp as int;
        let ghost mi = md as int;
        let ghost half = (ei / 2) as nat;
        proof {
            // The squaring step preserves the running product modulo `md`,
            // whether or not the low bit peels off a factor of `base`.
            lemma_square_is_pow2(bi);
            lemma_pow_multiplies(bi, 2, half);
            lemma_pow_mod_noop(bi * bi, half, mi);
            assert(pow((bi * bi) % mi, half) % mi == pow(bi, (2 * half) as nat) % mi);
            assert(z * base <= u64::MAX as int * u64::MAX as int) by (nonlinear_arith)
                requires
                    0 <= z < md,
                    md <= u64::MAX as int + 1,
                    0 <= base <= u64::MAX as int,
            ;
            assert(base * base <= u64::MAX as int * u64::MAX as int) by (nonlinear_arith)
                requires
                    0 <= base <= u64::MAX as int,
            ;
        }
        if exp % 2 == 1 {
            proof {
                // exp == 2 * half + 1, so pow(base, exp) == base * pow(base^2, half).
                assert(pow(bi, exp as nat) == bi * pow(bi, (exp - 1) as nat)) by {
                    reveal(pow);
                }
                let zb = (zi * bi) % mi;
                assert((zb * pow((bi * bi) % mi, half)) % mi == (zi * pow(bi, exp as nat)) % mi)
                    by {
                    lemma_mul_mod_noop_left(zi * bi, pow((bi * bi) % mi, half), mi);
                    lemma_mul_mod_noop_right(zi * bi, pow((bi * bi) % mi, half), mi);
                    lemma_mul_mod_noop_right(zi * bi, pow(bi, (2 * half) as nat), mi);
                    assert((zi * bi) * pow(bi, (2 * half) as nat) == zi * (bi * pow(
                        bi,
                        (exp - 1) as nat,
                    ))) by (nonlinear_arith)
                        requires
                            pow(bi, (2 * half) as nat) == pow(bi, (exp - 1) as nat),
                    ;
                }
            }
            z = (z * base) % md;
        } else {
            proof {
                // exp == 2 * half, so pow(base, exp) == pow(base^2, half).
                lemma_mul_mod_noop_right(zi, pow((bi * bi) % mi, half), mi);
                lemma_mul_mod_noop_right(zi, pow(bi, (2 * half) as nat), mi);
                assert((zi * pow((bi * bi) % mi, half)) % mi == (zi * pow(bi, exp as nat)) % mi);
            }
        }
        exp = exp / 2;
        base = (base * base) % md;
    }
    proof {
        assert(pow(base as int, 0) == 1) by {
            reveal(pow);
        }
        lemma_small_mod(z as nat, md as nat);
    }
    z as u64
}

} // verus!
