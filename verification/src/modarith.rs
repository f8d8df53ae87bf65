//! Modular arithmetic: exponentiation by squaring under a caller-chosen
//! modulus.  The inverse of a nonzero residue modulo the prime `MODULUS`
//! is obtained by raising it to `MODULUS - 2` (Fermat).

use vstd::prelude::*;
use vstd::arithmetic::power::*;
use vstd::arithmetic::div_mod::*;
use vstd::calc;

verus! {

/// Computes `base^exp` fully reduced modulo `modulus`, by binary
/// exponentiation.  The bound on `modulus` keeps every intermediate
/// product of two reduced values inside `u64`.
pub fn power_mod(base: u64, exp: u64, modulus: u64) -> (r: u64)
    requires
        1 <= modulus,
        modulus <= 0x1_0000_0000,
    ensures
        r == pow(base as int, exp as nat) % (modulus as int),
{
    let ghost m: int = modulus as int;
    let mut result: u64 = 1 % modulus;
    let mut b: u64 = base % modulus;
    let mut e: u64 = exp;
    proof {
        lemma_pow_mod_noop(base as int, exp as nat, m);
        lemma_mul_mod_noop_left(1, pow(b as int, e as nat), m);
        assert(1 * pow(b as int, e as nat) == pow(b as int, e as nat));
    }
    while e > 0
        invariant
            1 <= modulus <= 0x1_0000_0000,
            m == modulus as int,
            b < modulus,
            result < modulus,
            ((result as int) * pow(b as int, e as nat)) % m == pow(base as int, exp as nat) % m,
        decreases e,
    {
        let ghost b0: int = b as int;
        let ghost e0: nat = e as nat;
        let ghost r0: int = result as int;
        if e % 2 == 1 {
            proof {
                lemma_mul_mod_bound(r0, b0, m);
            }
            result = result * b % modulus;
        }
        proof {
            lemma_mul_mod_bound(b0, b0, m);
        }
        e = e / 2;
        b = b * b % modulus;
        proof {
            lemma_power_mod_step(r0, b0, e0, m);
            if e0 % 2 == 1 {
                assert(result as int == (r0 * b0) % m);
            } else {
                lemma_small_mod(r0 as nat, modulus as nat);
            }
            assert(b as int == (b0 * b0) % m);
            assert(e as nat == (e0 / 2) as nat);
        }
    }
    proof {
        lemma_pow0(b as int);
        assert((result as int) * 1 == result as int);
        lemma_small_mod(result as nat, modulus as nat);
    }
    result
}

/// The product of two values below `m` stays below `m * m`, which the
/// caller uses to rule out overflow, and its remainder is below `m`.
pub(crate) proof fn lemma_mul_mod_bound(x: int, y: int, m: int)
    requires
        1 <= m,
        m <= 0x1_0000_0000,
        0 <= x < m,
        0 <= y < m,
    ensures
        0 <= x * y < 0x1_0000_0000_0000_0000,
        0 <= (x * y) % m < m,
{
    assert(0 <= x * y && x * y <= 0xffff_ffff * 0xffff_ffff) by (nonlinear_arith)
        requires 0 <= x <= 0xffff_ffff && 0 <= y <= 0xffff_ffff;
}

/// One step of binary exponentiation preserves the running product:
/// folding the low bit of the exponent into the accumulator and
/// squaring the base leaves `acc * base^exp (mod m)` unchanged.
proof fn lemma_power_mod_step(r0: int, b0: int, e0: nat, m: int)
    requires
        1 <= m,
        e0 > 0,
    ensures
        e0 % 2 == 1 ==> (((r0 * b0) % m) * pow(((b0 * b0) % m) as int, (e0 / 2) as nat)) % m
            == (r0 * pow(b0, e0)) % m,
        e0 % 2 == 0 ==> ((r0 % m) * pow(((b0 * b0) % m) as int, (e0 / 2) as nat)) % m
            == (r0 * pow(b0, e0)) % m,
{
    let e1: nat = (e0 / 2) as nat;
    // base squared, reduced or not, gives the same power modulo m
    lemma_pow_mod_noop(b0 * b0, e1, m);
    lemma_square_is_pow2(b0);
    lemma_pow_multiplies(b0, 2, e1);
    assert(pow(b0 * b0, e1) == pow(b0, (2 * e1) as nat));
    if e0 % 2 == 1 {
        assert(e0 == 2 * e1 + 1);
        lemma_pow_adds(b0, (2 * e1) as nat, 1);
        lemma_pow1(b0);
        assert(pow(b0, e0) == pow(b0, (2 * e1) as nat) * b0);
        calc! {
            (==)
            (((r0 * b0) % m) * pow(((b0 * b0) % m) as int, e1)) % m; {
                lemma_mul_mod_noop_general((r0 * b0), pow(((b0 * b0) % m) as int, e1), m);
            }
            ((r0 * b0) * pow(((b0 * b0) % m) as int, e1)) % m; {
                lemma_mul_mod_noop_right(r0 * b0, pow(((b0 * b0) % m) as int, e1), m);
                lemma_mul_mod_noop_right(r0 * b0, pow(b0 * b0, e1), m);
            }
            ((r0 * b0) * pow(b0 * b0, e1)) % m; {
                assert((r0 * b0) * pow(b0, (2 * e1) as nat)
                    == r0 * (pow(b0, (2 * e1) as nat) * b0)) by (nonlinear_arith);
            }
            (r0 * pow(b0, e0)) % m;
        }
    } else {
        assert(e0 == 2 * e1);
        calc! {
            (==)
            ((r0 % m) * pow(((b0 * b0) % m) as int, e1)) % m; {
                lemma_mul_mod_noop_general(r0, pow(((b0 * b0) % m) as int, e1), m);
            }
            (r0 * pow(((b0 * b0) % m) as int, e1)) % m; {
                lemma_mul_mod_noop_right(r0, pow(((b0 * b0) % m) as int, e1), m);
                lemma_mul_mod_noop_right(r0, pow(b0 * b0, e1), m);
            }
            (r0 * pow(b0 * b0, e1)) % m; {}
            (r0 * pow(b0, e0)) % m;
        }
    }
}

/// Exponentiation by squaring at the spec level, reduced at every
/// step, so that a concrete power modulo a concrete modulus can be
/// settled by computation.
pub open spec fn pow_mod_sq(b: int, e: nat, m: int) -> int
    decreases e,
{
    if m < 1 {
        0
    } else if e == 0 {
        1int % m
    } else if e % 2 == 0 {
        pow_mod_sq((b * b) % m, e / 2, m)
    } else {
        (b * pow_mod_sq(b, (e - 1) as nat, m)) % m
    }
}

/// The squaring form agrees with the plain power reduced once.
pub proof fn lemma_pow_mod_sq(b: int, e: nat, m: int)
    requires
        1 <= m,
    ensures
        pow_mod_sq(b, e, m) == pow(b, e) % m,
    decreases e,
{
    if e == 0 {
        lemma_pow0(b);
    } else if e % 2 == 0 {
        lemma_pow_mod_sq((b * b) % m, e / 2, m);
        lemma_pow_mod_noop(b * b, e / 2, m);
        lemma_square_is_pow2(b);
        lemma_pow_multiplies(b, 2, e / 2);
        assert(2 * (e / 2) == e);
    } else {
        lemma_pow_mod_sq(b, (e - 1) as nat, m);
        lemma_mul_mod_noop_right(b, pow(b, (e - 1) as nat), m);
        lemma_pow_adds(b, (e - 1) as nat, 1);
        lemma_pow1(b);
        vstd::arithmetic::mul::lemma_mul_is_commutative(b, pow(b, (e - 1) as nat));
        assert(pow(b, e) == b * pow(b, (e - 1) as nat));
    }
}

/// Exponent zero yields one and exponent one yields the reduced base.
/// (A modulus of one is left out: there the only residue is zero, so
/// the result of a zero exponent is zero, not one.)
pub proof fn lemma_power_mod_basics(x: int, m: int)
    requires
        2 <= m,
    ensures
        pow(x, 0) % m == 1,
        pow(x, 1) % m == x % m,
{
    lemma_pow0(x);
    lemma_pow1(x);
    lemma_small_mod(1, m as nat);
    lemma_mod_twice(x, m);
}

} // verus!
