//! Toy RSA: key-pair acceptance, encryption and decryption over 32-bit
//! primes, built on the verified modular arithmetic of this crate.

#![verifier::loop_isolation(false)]

use vstd::prelude::*;
use vstd::arithmetic::power::pow;
use vstd::arithmetic::div_mod::{
    lemma_fundamental_div_mod, lemma_mod_multiples_vanish, lemma_mod_self_0, lemma_mul_mod_noop_left,
    lemma_mul_mod_noop_right, lemma_small_mod, lemma_sub_mod_noop,
};
use crate::modexp::modexp;

verus! {

/// Fixed RSA encryption exponent.
pub const EXP: u64 = 65537;

/// Euclid's greatest common divisor.
pub open spec fn spec_gcd(a: int, b: int) -> int
    decreases b
        when a >= 0 && b >= 0
{
    if b <= 0 {
        a
    } else {
        spec_gcd(b, a % b)
    }
}

/// The least common multiple, as the product divided by the gcd.
pub open spec fn spec_lcm(a: int, b: int) -> int {
    a * b / spec_gcd(a, b)
}

/// `d` is the modular inverse of `a` modulo `m`, normalized into `[0, m)`.
pub open spec fn is_mod_inverse(d: int, a: int, m: int) -> bool {
    0 <= d < m && (d * a) % m == 1
}

/// The modular inverse of `a` modulo `m` (meaningful when one exists).
pub open spec fn inv_of(a: int, m: int) -> int {
    choose|d: int| is_mod_inverse(d, a, m)
}

/// The gcd of a positive number with anything nonnegative is positive.
proof fn lemma_gcd_pos(a: int, b: int)
    requires
        a >= 1,
        b >= 0,
    ensures
        spec_gcd(a, b) >= 1,
    decreases b,
{
    if b > 0 {
        lemma_gcd_pos(b, a % b);
    }
}

/// A modular inverse is unique in `[0, m)`: if both `d1` and `d2` invert `a`,
/// then `d1 == d1 * (a * d2) == (d1 * a) * d2 == d2` modulo `m`.
pub proof fn lemma_mod_inverse_unique(d1: int, d2: int, a: int, m: int)
    requires
        m >= 1,
        is_mod_inverse(d1, a, m),
        is_mod_inverse(d2, a, m),
    ensures
        d1 == d2,
{
    assert(d1 % m == d2 % m) by {
        lemma_mul_mod_noop_right(d1, a * d2, m);
        assert(d1 * ((a * d2) % m) % m == (d1 * (a * d2)) % m);
        lemma_mul_mod_noop_right(d1, d2 * a, m);
        assert((a * d2) % m == 1 ==> d1 * 1 % m == (d1 * (a * d2)) % m);
        assert((d2 * a) % m == 1);
        assert(a * d2 == d2 * a);
        lemma_mul_mod_noop_left(d1 * a, d2, m);
        assert(((d1 * a) % m) * d2 % m == ((d1 * a) * d2) % m);
        assert(d1 * (a * d2) == (d1 * a) * d2) by (nonlinear_arith);
        lemma_small_mod(d1 as nat, m as nat);
        lemma_small_mod(d2 as nat, m as nat);
        assert((1int * d2) % m == d2 % m);
        assert(d1 * 1 == d1);
    }
    lemma_small_mod(d1 as nat, m as nat);
    lemma_small_mod(d2 as nat, m as nat);
}

/// Euclid's algorithm.
pub fn gcd(a: u64, b: u64) -> (g: u64)
    ensures
        g as int == spec_gcd(a as int, b as int),
{
    let mut x: u64 = a;
    let mut y: u64 = b;
    while y != 0
        invariant
            spec_gcd(x as int, y as int) == spec_gcd(a as int, b as int),
        decreases y,
    {
        let t: u64 = x % y;
        proof {
            assert(spec_gcd(x as int, y as int) == spec_gcd(y as int, t as int));
        }
        x = y;
        y = t;
    }
    x
}

/// The least common multiple of two positive numbers whose product fits.
pub fn lcm(a: u64, b: u64) -> (l: u64)
    requires
        a >= 1,
        b >= 1,
        a as int * b as int <= u64::MAX as int,
    ensures
        l as int == spec_lcm(a as int, b as int),
{
    let g = gcd(a, b);
    proof {
        lemma_gcd_pos(a as int, b as int);
    }
    (a * b) / g
}

/// The modular inverse of `a` modulo `m`, by the extended Euclidean
/// algorithm; the Bezout coefficient is kept reduced modulo `m`, so all
/// arithmetic stays in unsigned 128-bit range.
pub fn modinverse(a: u64, m: u64) -> (d: u64)
    requires
        m >= 2,
        spec_gcd(a as int, m as int) == 1,
    ensures
        is_mod_inverse(d as int, a as int, m as int),
{
    let mu: u128 = m as u128;
    let mut r: u64 = m;
    let mut newr: u64 = a % m;
    let mut t: u128 = 0;
    let mut newt: u128 = 1;
    proof {
        lemma_mod_self_0(m as int);
        lemma_small_mod(0, m as nat);
        lemma_small_mod((a % m) as nat, m as nat);
        assert(a as int * 0 == 0);
        assert(a as int * 1 == a as int);
        assert(spec_gcd(m as int, (a % m) as int) == spec_gcd(a as int, m as int));
    }
    while newr != 0
        invariant
            1 <= r <= m,
            newr < m,
            t < mu,
            newt < mu,
            (a as int * t as int) % (m as int) == (r as int) % (m as int),
            (a as int * newt as int) % (m as int) == (newr as int) % (m as int),
            spec_gcd(r as int, newr as int) == 1,
        decreases newr,
    {
        let q: u64 = r / newr;
        let rr: u64 = r % newr;
        proof {
            assert(q as int * newt as int <= u64::MAX as int * u64::MAX as int)
                by (nonlinear_arith)
                requires
                    0 <= (q as int) && (q as int) <= u64::MAX as int,
                    0 <= (newt as int) && (newt as int) <= u64::MAX as int,
            ;
        }
        let qn: u128 = ((q as u128) * newt) % mu;
        let t2: u128 = (t + (mu - qn)) % mu;
        proof {
            let ai = a as int;
            let mi = m as int;
            let ti = t as int;
            let ni = newt as int;
            let qi = q as int;
            let ri = r as int;
            let wi = newr as int;
            // The new coefficient is congruent to t - q * newt, so multiplying
            // by `a` turns the two invariants into the new remainder.
            assert((ai * t2 as int) % mi == (rr as int) % mi) by {
                lemma_mul_mod_noop_right(ai, ti + (mi - (qi * ni) % mi), mi);
                assert((ai * t2 as int) % mi == (ai * (ti + (mi - (qi * ni) % mi))) % mi);
                assert(ai * (ti + (mi - (qi * ni) % mi)) == mi * ai + (ai * ti - ai * ((qi * ni)
                    % mi))) by (nonlinear_arith);
                lemma_mod_multiples_vanish(ai, ai * ti - ai * ((qi * ni) % mi), mi);
                assert((ai * (ti + (mi - (qi * ni) % mi))) % mi == (ai * ti - ai * ((qi * ni)
                    % mi)) % mi);
                // ai * ((qi * ni) % mi) is congruent to qi * wi modulo mi.
                assert((ai * ((qi * ni) % mi)) % mi == (qi * wi) % mi) by {
                    lemma_mul_mod_noop_right(ai, qi * ni, mi);
                    assert((ai * ((qi * ni) % mi)) % mi == (ai * (qi * ni)) % mi);
                    assert(ai * (qi * ni) == qi * (ai * ni)) by (nonlinear_arith);
                    lemma_mul_mod_noop_right(qi, ai * ni, mi);
                    assert((qi * ((ai * ni) % mi)) % mi == (qi * (ai * ni)) % mi);
                    assert((ai * ni) % mi == wi % mi);
                    lemma_small_mod(wi as nat, mi as nat);
                    lemma_mul_mod_noop_right(qi, wi, mi);
                }
                lemma_sub_mod_noop(ai * ti, ai * ((qi * ni) % mi), mi);
                lemma_sub_mod_noop(ri, qi * wi, mi);
                lemma_small_mod(ri as nat % (wi as nat), mi as nat);
                lemma_fundamental_div_mod(ri, wi);
                assert(ri - qi * wi == rr as int);
                lemma_small_mod(rr as nat, mi as nat);
            }
            assert(spec_gcd(wi, rr as int) == spec_gcd(ri, wi));
        }
        r = newr;
        newr = rr;
        t = newt;
        newt = t2;
    }
    proof {
        assert(spec_gcd(r as int, 0) == r as int);
        assert(r == 1);
        lemma_small_mod(1, m as nat);
        assert((a as int * t as int) % (m as int) == 1);
        assert(t as int * a as int == a as int * t as int);
    }
    t as u64
}

/// Decides whether a pair of candidate primes can serve as an RSA key: the
/// fixed exponent must be smaller than, and coprime to, their least common
/// multiple.
pub fn good_key_pair(p: u32, q: u32) -> (ok: bool)
    requires
        p >= 1,
        q >= 1,
    ensures
        ok == (EXP < spec_lcm(p as int, q as int) && spec_gcd(
            EXP as int,
            spec_lcm(p as int, q as int),
        ) == 1),
{
    proof {
        assert(p as int * q as int <= u64::MAX as int) by (nonlinear_arith)
            requires
                0 <= (p as int) && (p as int) < 0x1_0000_0000,
                0 <= (q as int) && (q as int) < 0x1_0000_0000,
        ;
    }
    let l = lcm(p as u64, q as u64);
    EXP < l && gcd(EXP, l) == 1
}

/// Encrypt the plaintext `msg` under the public key `key` (the product of
/// the two secret primes): the ciphertext is `msg ^ EXP mod key`.
pub fn encrypt(key: u64, msg: u32) -> (cipher: u64)
    requires
        key >= 1,
    ensures
        cipher as int == pow(msg as int, EXP as nat) % (key as int),
{
    modexp(msg as u64, EXP, key)
}

/// Decrypt the ciphertext `msg` under the private key `key = (p, q)`: the
/// plaintext is `msg ^ d mod (p * q)` for the decryption exponent `d`, the
/// inverse of `EXP` modulo `lcm(p - 1, q - 1)`.
pub fn decrypt(key: (u32, u32), msg: u64) -> (plain: u32)
    requires
        key.0 >= 2,
        key.1 >= 2,
        spec_lcm(key.0 as int - 1, key.1 as int - 1) >= 2,
        spec_gcd(EXP as int, spec_lcm(key.0 as int - 1, key.1 as int - 1)) == 1,
        pow(
            msg as int,
            inv_of(EXP as int, spec_lcm(key.0 as int - 1, key.1 as int - 1)) as nat,
        ) % (key.0 as int * key.1 as int) < 0x1_0000_0000,
    ensures
        plain as int == pow(
            msg as int,
            inv_of(EXP as int, spec_lcm(key.0 as int - 1, key.1 as int - 1)) as nat,
        ) % (key.0 as int * key.1 as int),
{
    let p64 = key.0 as u64;
    let q64 = key.1 as u64;
    proof {
        assert((p64 - 1) as int * (q64 - 1) as int <= u64::MAX as int) by (nonlinear_arith)
            requires
                1 <= ((p64 - 1) as int) && ((p64 - 1) as int) < 0x1_0000_0000,
                1 <= ((q64 - 1) as int) && ((q64 - 1) as int) < 0x1_0000_0000,
        ;
        assert(p64 as int * q64 as int <= u64::MAX as int) by (nonlinear_arith)
            requires
                0 <= (p64 as int) && (p64 as int) < 0x1_0000_0000,
                0 <= (q64 as int) && (q64 as int) < 0x1_0000_0000,
        ;
    }
    let lam = lcm(p64 - 1, q64 - 1);
    let d = modinverse(EXP, lam);
    proof {
        assert(p64 as int * q64 as int >= 1) by (nonlinear_arith)
            requires
                p64 as int >= 2 && q64 as int >= 2,
        ;
    }
    let pq = p64 * q64;
    let c = modexp(msg, d, pq);
    proof {
        let lami = lam as int;
        assert(is_mod_inverse(d as int, EXP as int, lami));
        let dd = inv_of(EXP as int, lami);
        assert(is_mod_inverse(dd, EXP as int, lami));
        lemma_mod_inverse_unique(d as int, dd, EXP as int, lami);
    }
    c as u32
}

} // verus!
