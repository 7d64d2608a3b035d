//! Fixed-parameter modular exponentiation: the arithmetic primitive behind
//! the Diffie-Hellman handshake.

use vstd::prelude::*;

verus! {

use vstd::arithmetic::power::{
    pow, lemma_pow0, lemma_pow1, lemma_pow_adds, lemma_pow_multiplies, lemma_pow_mod_noop,
};
use vstd::arithmetic::power2::{pow2, lemma_pow2_pos, lemma_pow2_unfold};
use vstd::arithmetic::div_mod::{lemma_mod_division_less_than_divisor, lemma_mul_mod_noop_general};
use vstd::arithmetic::mul::{lemma_mul_is_associative, lemma_mul_is_commutative};

/// The value of `base ^ exp mod modulus` computed with exact big-integer
/// arithmetic, as the 64-bit word it always fits in when `modulus > 0`.
pub open spec fn mod_exp_spec(base: u64, exp: u64, modulus: u64) -> u64
    recommends
        modulus > 0,
{
    (pow(base as int, exp as nat) % (modulus as int)) as u64
}

/// `(x * y) mod m` through a double-width intermediate product, so the
/// multiplication cannot overflow before the reduction.
fn mul_mod(x: u64, y: u64, m: u64) -> (r: u64)
    requires
        m > 0,
    ensures
        r == (x as int * y as int) % (m as int),
        r < m,
{
    proof {
        assert(x as int * y as int <= 0xFFFF_FFFF_FFFF_FFFFi128 * 0xFFFF_FFFF_FFFF_FFFFi128)
            by (nonlinear_arith)
            requires
                x as int <= 0xFFFF_FFFF_FFFF_FFFFi128,
                y as int <= 0xFFFF_FFFF_FFFF_FFFFi128,
                0 <= x as int,
                0 <= y as int,
        ;
        lemma_mod_division_less_than_divisor(x as int * y as int, m as int);
    }
    (((x as u128) * (y as u128)) % (m as u128)) as u64
}

/// Square-and-multiply exponentiation.
///
/// For every modulus above one the result is exactly the big-integer power
/// reduced modulo the modulus.  A modulus of one is degenerate: the running
/// product starts at one and is only ever reduced once a multiplication
/// happens, so a zero exponent yields one rather than zero.
pub fn mod_exp(base: u64, exp: u64, modulus: u64) -> (r: u64)
    requires
        modulus >= 1,
    ensures
        modulus > 1 ==> r == mod_exp_spec(base, exp, modulus),
        modulus == 1 ==> r == (if exp == 0 { 1u64 } else { 0u64 }),
{
    let mut result: u64 = 1;
    let mut b: u64 = base % modulus;
    let mut e: u64 = exp;
    let ghost mut k: nat = 0;
    proof {
        lemma_pow_mod_noop(base as int, exp as nat, modulus as int);
        assert(pow2(0) == 1) by {
            vstd::arithmetic::power2::lemma_pow2(0);
            lemma_pow0(2);
        }
    }
    while e > 0
        invariant
            modulus >= 1,
            b < modulus,
            (result as int * pow(b as int, e as nat)) % (modulus as int) == pow(
                base as int,
                exp as nat,
            ) % (modulus as int),
            modulus > 1 ==> result < modulus,
            modulus == 1 ==> ((result == 1 && exp == e * pow2(k)) || (result == 0 && exp > 0)),
        decreases e,
    {
        let ghost old_result = result;
        let ghost old_b = b;
        let ghost old_e = e;
        if e % 2 == 1 {
            result = mul_mod(result, b, modulus);
        }
        e = e / 2;
        b = mul_mod(b, b, modulus);
        proof {
            lemma_step_preserves(
                old_result as int,
                old_b as int,
                old_e as nat,
                modulus as int,
                result as int,
                b as int,
                e as nat,
            );
            if modulus == 1 {
                lemma_pow2_pos(k);
                if old_result == 1 && exp == old_e * pow2(k) {
                    if old_e % 2 == 0 {
                        lemma_pow2_unfold(k + 1);
                        assert(old_e * pow2(k) == e * (2 * pow2(k))) by (nonlinear_arith)
                            requires
                                old_e == 2 * e,
                        ;
                        assert(exp == e * pow2(k + 1));
                    } else {
                        assert(old_e * pow2(k) >= 1) by (nonlinear_arith)
                            requires
                                old_e >= 1,
                                pow2(k) >= 1,
                        ;
                        assert(result == 0);
                    }
                }
            }
            k = k + 1;
        }
    }
    proof {
        lemma_pow0(b as int);
        if modulus > 1 {
            vstd::arithmetic::div_mod::lemma_small_mod(result as nat, modulus as nat);
        } else {
            lemma_pow2_pos(k);
            if result == 1 && exp == 0 * pow2(k) {
                assert(exp == 0) by (nonlinear_arith)
                    requires
                        exp == 0 * pow2(k),
                ;
            }
        }
    }
    result
}

/// One square-and-multiply step keeps `result * b^e` fixed modulo `m`.
proof fn lemma_step_preserves(r0: int, b0: int, e0: nat, m: int, r1: int, b1: int, e1: nat)
    requires
        m >= 1,
        e0 > 0,
        e1 == e0 / 2,
        b1 == (b0 * b0) % m,
        r1 == if e0 % 2 == 1 {
            (r0 * b0) % m
        } else {
            r0
        },
    ensures
        (r1 * pow(b1, e1)) % m == (r0 * pow(b0, e0)) % m,
{
    let sq = b0 * b0;
    // pow(b0, 2 * e1) == pow(b0 * b0, e1)
    lemma_pow_multiplies(b0, 2, e1);
    assert(pow(b0, 2) == sq) by {
        lemma_pow1(b0);
        lemma_pow_adds(b0, 1, 1);
    }
    // Replace the reduced square by the full square under the modulus.
    lemma_pow_mod_noop(sq, e1, m);
    lemma_mul_mod_noop_general(r1, pow(b1, e1), m);
    lemma_mul_mod_noop_general(r1, pow(sq, e1), m);
    assert((r1 * pow(b1, e1)) % m == (r1 * pow(sq, e1)) % m) by {
        assert(pow(b1, e1) % m == pow(sq, e1) % m);
    }
    if e0 % 2 == 1 {
        assert(e0 == 2 * e1 + 1);
        assert(pow(b0, e0) == b0 * pow(sq, e1)) by {
            lemma_pow1(b0);
            lemma_pow_adds(b0, 1, 2 * e1);
        }
        lemma_mul_mod_noop_general(r0 * b0, pow(sq, e1), m);
        assert((r0 * b0) * pow(sq, e1) == r0 * (b0 * pow(sq, e1))) by {
            lemma_mul_is_associative(r0, b0, pow(sq, e1));
        }
        assert(((r0 * b0) % m * pow(sq, e1)) % m == ((r0 * b0) * pow(sq, e1)) % m);
    } else {
        assert(e0 == 2 * e1);
    }
}

/// Chaining two exponentiations commutes in the exponents: raising
/// `g^x mod p` to `y` equals `g^(x*y) mod p`.
proof fn lemma_mod_exp_chain(g: u64, x: u64, y: u64, p: u64)
    requires
        p > 1,
    ensures
        mod_exp_spec(mod_exp_spec(g, x, p), y, p) as int == pow(
            g as int,
            (x as nat * y as nat),
        ) % (p as int),
{
    let gx = pow(g as int, x as nat) % (p as int);
    lemma_mod_division_less_than_divisor(pow(g as int, x as nat), p as int);
    assert(mod_exp_spec(g, x, p) as int == gx);
    lemma_pow_mod_noop(pow(g as int, x as nat), y as nat, p as int);
    lemma_pow_multiplies(g as int, x as nat, y as nat);
}

/// The handshake symmetry: both peers derive the same shared value, since
/// `(g^a)^b` and `(g^b)^a` agree modulo `p`.
pub proof fn lemma_mod_exp_symmetry(g: u64, a: u64, b: u64, p: u64)
    requires
        p > 1,
    ensures
        mod_exp_spec(mod_exp_spec(g, a, p), b, p) == mod_exp_spec(mod_exp_spec(g, b, p), a, p),
{
    lemma_mod_exp_chain(g, a, b, p);
    lemma_mod_exp_chain(g, b, a, p);
    lemma_mul_is_commutative(a as int, b as int);
}

} // verus!
