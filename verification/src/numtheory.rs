//! Greatest common divisors: the mathematical definition, the facts the
//! rational types rely on, and the calls into the `gcd` crate.

use vstd::prelude::*;
use gcd::Gcd;

verus! {

use vstd::arithmetic::div_mod::{
    lemma_fundamental_div_mod, lemma_mod_multiples_basic, lemma_truncate_middle,
};
use vstd::arithmetic::mul::{lemma_mul_is_associative, lemma_mul_is_commutative};

/// Greatest common divisor by Euclid's recursion; `gcd_of(a, 0) == a`,
/// so `gcd_of(0, 0) == 0`.
pub open spec fn gcd_of(a: nat, b: nat) -> nat
    decreases b,
{
    if b == 0 {
        a
    } else {
        gcd_of(b, a % b)
    }
}

/// `c` divides `a`.
pub open spec fn divides(c: int, a: int) -> bool {
    c != 0 && a % c == 0
}

/// The greatest common divisor of `u32` values, as computed by the `gcd` crate.
#[verifier::external_body]
pub(crate) fn gcd_u32(a: u32, b: u32) -> (r: u32)
    ensures
        r == gcd_of(a as nat, b as nat),
{
    a.gcd(b)
}

/// The greatest common divisor of `u8` values, as computed by the `gcd` crate.
#[verifier::external_body]
pub(crate) fn gcd_u8(a: u8, b: u8) -> (r: u8)
    ensures
        r == gcd_of(a as nat, b as nat),
{
    a.gcd(b)
}

/// The greatest common divisor of `u64` values, as computed by the `gcd` crate.
#[verifier::external_body]
pub(crate) fn gcd_u64(a: u64, b: u64) -> (r: u64)
    ensures
        r == gcd_of(a as nat, b as nat),
{
    a.gcd(b)
}

proof fn lemma_mod_of_common_multiple(a: nat, b: nat, c: nat)
    requires
        c > 0,
        b > 0,
        a % c == 0,
        b % c == 0,
    ensures
        (a % b) % c == 0,
{
    lemma_fundamental_div_mod(a as int, b as int);
    lemma_fundamental_div_mod(a as int, c as int);
    lemma_fundamental_div_mod(b as int, c as int);
    let q = a / b;
    let ac = a / c;
    let bc = b / c;
    // a % b == a - b * q == c * ac - c * bc * q == c * (ac - bc * q)
    assert(b * q == c * (bc * q)) by {
        lemma_mul_is_associative(c as int, bc as int, q as int);
    }
    let r = a % b;
    assert(r as int == c * (ac - bc * q)) by (nonlinear_arith)
        requires
            a == c * ac,
            b * q == c * (bc * q),
            a == b * q + r,
    ;
    lemma_mod_multiples_basic(ac - bc * q, c as int);
    lemma_mul_is_commutative(ac - bc * q, c as int);
}

/// The gcd divides both arguments, and is positive unless both are zero.
pub proof fn lemma_gcd_divides(a: nat, b: nat)
    ensures
        (a > 0 || b > 0) ==> gcd_of(a, b) > 0 && a % gcd_of(a, b) == 0 && b % gcd_of(a, b) == 0,
        (a == 0 && b == 0) ==> gcd_of(a, b) == 0,
        a > 0 ==> gcd_of(a, b) <= a,
        b > 0 ==> gcd_of(a, b) <= b,
    decreases b,
{
    lemma_gcd_divides_inner(a, b);
    if a > 0 {
        lemma_divisor_le(a, gcd_of(a, b));
    }
    if b > 0 {
        lemma_divisor_le(b, gcd_of(a, b));
    }
}

proof fn lemma_divisor_le(x: nat, c: nat)
    requires
        x > 0,
        c > 0,
        x % c == 0,
    ensures
        c <= x,
{
    lemma_fundamental_div_mod(x as int, c as int);
    let q = x / c;
    assert(c <= x) by (nonlinear_arith)
        requires
            x == c * q,
            x > 0,
            c > 0,
            q >= 0,
    ;
}

proof fn lemma_gcd_divides_inner(a: nat, b: nat)
    ensures
        (a > 0 || b > 0) ==> gcd_of(a, b) > 0 && a % gcd_of(a, b) == 0 && b % gcd_of(a, b) == 0,
        (a == 0 && b == 0) ==> gcd_of(a, b) == 0,
    decreases b,
{
    if b == 0 {
        if a > 0 {
            vstd::arithmetic::div_mod::lemma_mod_self_0(a as int);
            assert(0nat % a == 0) by {
                vstd::arithmetic::div_mod::lemma_small_mod(0, a);
            }
        }
    } else {
        let r = a % b;
        lemma_gcd_divides_inner(b, r);
        let g = gcd_of(b, r);
        assert(gcd_of(a, b) == g);
        // a == b * (a / b) + r, and g divides both b and r
        lemma_fundamental_div_mod(a as int, b as int);
        lemma_fundamental_div_mod(b as int, g as int);
        lemma_fundamental_div_mod(r as int, g as int);
        let q = a / b;
        let bg = b / g;
        let rg = r / g;
        assert(a as int == g * (bg * q + rg)) by (nonlinear_arith)
            requires
                a == b * q + r,
                b == g * bg,
                r == g * rg,
        ;
        lemma_mod_multiples_basic((bg * q + rg) as int, g as int);
        lemma_mul_is_commutative((bg * q + rg) as int, g as int);
    }
}

/// Every common divisor of `a` and `b` divides their gcd.
pub proof fn lemma_common_divisor_divides_gcd(a: nat, b: nat, c: nat)
    requires
        c > 0,
        a % c == 0,
        b % c == 0,
    ensures
        gcd_of(a, b) % c == 0,
    decreases b,
{
    if b > 0 {
        lemma_mod_of_common_multiple(a, b, c);
        lemma_common_divisor_divides_gcd(b, a % b, c);
    }
}

/// Scaling both arguments scales the gcd.
pub proof fn lemma_gcd_scale(a: nat, b: nat, k: nat)
    requires
        k > 0,
    ensures
        gcd_of(k * a, k * b) == k * gcd_of(a, b),
    decreases b,
{
    if b == 0 {
        assert(k * b == 0) by (nonlinear_arith)
            requires
                b == 0,
        ;
    } else {
        assert(k * b > 0) by (nonlinear_arith)
            requires
                k > 0,
                b > 0,
        ;
        lemma_truncate_middle(a as int, k as int, b as int);
        lemma_gcd_scale(b, a % b, k);
        assert((k * a) % (k * b) == k * (a % b));
    }
}

/// Dividing both arguments by their gcd leaves coprime values.
pub proof fn lemma_coprime_after_division(a: nat, b: nat)
    requires
        a > 0 || b > 0,
    ensures
        gcd_of(a / gcd_of(a, b), b / gcd_of(a, b)) == 1,
{
    let g = gcd_of(a, b);
    lemma_gcd_divides(a, b);
    lemma_fundamental_div_mod(a as int, g as int);
    lemma_fundamental_div_mod(b as int, g as int);
    let a1 = a / g;
    let b1 = b / g;
    assert(a == g * a1);
    assert(b == g * b1);
    lemma_gcd_scale(a1, b1, g);
    assert(g * gcd_of(a1, b1) == g * 1);
    vstd::arithmetic::mul::lemma_mul_equality_converse(g as int, gcd_of(a1, b1) as int, 1);
}

/// Euclid's lemma: if `y` is coprime to `x` and divides `x * z`, it divides `z`.
pub proof fn lemma_coprime_divides_product(x: nat, y: nat, z: nat)
    requires
        y > 0,
        z > 0,
        gcd_of(x, y) == 1,
        (x * z) % y == 0,
    ensures
        z % y == 0,
{
    lemma_gcd_scale(x, y, z);
    lemma_mul_is_commutative(x as int, z as int);
    lemma_mul_is_commutative(y as int, z as int);
    lemma_mod_multiples_basic(z as int, y as int);
    lemma_common_divisor_divides_gcd(z * x, z * y, y);
}

} // verus!
