//! Laws of timespan arithmetic: when it is exact, how close it stays when
//! it is not, and the identities it keeps.

use vstd::prelude::*;

verus! {

use crate::numtheory::{gcd_of, lemma_gcd_divides, lemma_common_divisor_divides_gcd, lemma_coprime_after_division, lemma_coprime_divides_product};
use crate::timespan::{
    abs, trunc_div, reduce, is_reduced, same_value, round_half_away, in_i32, den_gcd, lcm_den, add_terms,
    add_ok, add_view, neg_view, mul_gcd, mul_view, lemma_reduce, lemma_den_facts,
    lemma_reduced_unique,
};
use vstd::arithmetic::div_mod::lemma_fundamental_div_mod;

/// The gcd does not depend on the order of its arguments.
pub proof fn lemma_gcd_commutative(a: nat, b: nat)
    ensures
        gcd_of(a, b) == gcd_of(b, a),
{
    lemma_gcd_divides(a, b);
    lemma_gcd_divides(b, a);
    if a > 0 || b > 0 {
        let g1 = gcd_of(a, b);
        let g2 = gcd_of(b, a);
        lemma_common_divisor_divides_gcd(b, a, g1);
        lemma_common_divisor_divides_gcd(a, b, g2);
        lemma_fundamental_div_mod(g1 as int, g2 as int);
        lemma_fundamental_div_mod(g2 as int, g1 as int);
        let k = g1 / g2;
        let m = g2 / g1;
        assert(g1 == g2) by (nonlinear_arith)
            requires
                g1 == g2 * k,
                g2 == g1 * m,
                g1 > 0,
                g2 > 0,
                k >= 0,
                m >= 0,
        ;
    }
}

/// Equal values are transitive through a fraction with a positive
/// denominator.
pub proof fn lemma_same_value_trans(x: (int, int), y: (int, int), z: (int, int))
    requires
        y.1 > 0,
        same_value(x, y),
        same_value(y, z),
    ensures
        same_value(x, z),
{
    assert(x.0 * z.1 * y.1 == z.0 * x.1 * y.1) by (nonlinear_arith)
        requires
            x.0 * y.1 == y.0 * x.1,
            y.0 * z.1 == z.0 * y.1,
    ;
    assert(x.0 * z.1 == z.0 * x.1) by (nonlinear_arith)
        requires
            x.0 * z.1 * y.1 == z.0 * x.1 * y.1,
            y.1 > 0,
    ;
}

/// Rounding `x/q` to the nearest integer misses by at most one half.
pub proof fn lemma_round_half_away(x: int, q: int)
    requires
        q > 0,
    ensures
        abs(2 * q * round_half_away(x, q) - 2 * x) <= q,
{
    let m = round_half_away(x, q);
    if x >= 0 {
        lemma_fundamental_div_mod(2 * x + q, 2 * q);
        assert(abs(2 * q * m - 2 * x) <= q) by (nonlinear_arith)
            requires
                2 * x + q == (2 * q) * m + (2 * x + q) % (2 * q),
                0 <= (2 * x + q) % (2 * q) < 2 * q,
        ;
    } else {
        let k = (-2 * x + q) / (2 * q);
        lemma_fundamental_div_mod(-2 * x + q, 2 * q);
        assert(m == -k);
        assert(abs(2 * q * m - 2 * x) <= q) by (nonlinear_arith)
            requires
                -2 * x + q == (2 * q) * k + (-2 * x + q) % (2 * q),
                0 <= (-2 * x + q) % (2 * q) < 2 * q,
                m == -k,
        ;
    }
}

/// Where the least common denominator fits in a `u8`, the sum of two
/// timespans is exact.
pub proof fn lemma_add_exact(a: (int, int), b: (int, int))
    requires
        is_reduced(a),
        is_reduced(b),
        lcm_den(a, b) <= 255,
        add_ok(a, b),
    ensures
        same_value(add_view(a, b), (a.0 * b.1 + b.0 * a.1, a.1 * b.1)),
{
    lemma_den_facts(a, b);
    let g = den_gcd(a, b);
    let aq = a.1 / g;
    let bq = b.1 / g;
    let n = add_terms(a, b).0 + add_terms(a, b).1;
    let l = lcm_den(a, b);
    lemma_reduce(n, l);
    assert(l == a.1 * bq) by (nonlinear_arith)
        requires
            l * g == a.1 * b.1,
            bq * g == b.1,
            g >= 1,
    ;
    let p = a.0 * b.1 + b.0 * a.1;
    let q = a.1 * b.1;
    assert(p == g * n) by (nonlinear_arith)
        requires
            n == a.0 * bq + b.0 * aq,
            aq * g == a.1,
            bq * g == b.1,
            p == a.0 * b.1 + b.0 * a.1,
    ;
    assert(q == g * l) by (nonlinear_arith)
        requires
            l == a.1 * bq,
            bq * g == b.1,
            q == a.1 * b.1,
    ;
    assert(n * q == p * l) by (nonlinear_arith)
        requires
            p == g * n,
            q == g * l,
    ;
    lemma_same_value_trans(add_view(a, b), (n, l), (a.0 * b.1 + b.0 * a.1, a.1 * b.1));
}

/// Addition is commutative.
pub proof fn lemma_add_commutative(a: (int, int), b: (int, int))
    ensures
        add_view(a, b) == add_view(b, a),
{
    lemma_gcd_commutative(a.1 as nat, b.1 as nat);
    assert(den_gcd(a, b) == den_gcd(b, a));
    assert(a.1 * b.1 == b.1 * a.1) by (nonlinear_arith);
    assert(lcm_den(a, b) == lcm_den(b, a));
    assert(a.0 * b.1 + b.0 * a.1 == b.0 * a.1 + a.0 * b.1);
}

/// Zero is the identity of addition.
pub proof fn lemma_add_zero(a: (int, int))
    requires
        is_reduced(a),
    ensures
        add_view(a, (0, 1)) == a,
        add_view((0, 1), a) == a,
        add_ok(a, (0, 1)),
{
    assert(gcd_of(a.1 as nat, 1) == 1) by {
        assert(gcd_of(1, (a.1 as nat) % 1) == gcd_of(1, 0));
    }
    assert(den_gcd(a, (0, 1)) == 1);
    assert(lcm_den(a, (0, 1)) == a.1);
    assert(a.0 * (1int / 1) == a.0);
    assert(0 * (a.1 / 1) == 0) by (nonlinear_arith);
    assert(add_terms(a, (0, 1)) == (a.0, 0int));
    assert(reduce(a.0, a.1) == a);
    lemma_add_commutative(a, (0, 1));
}

/// A timespan minus itself is zero.
pub proof fn lemma_sub_self(a: (int, int))
    requires
        is_reduced(a),
    ensures
        add_view(a, neg_view(a)) == (0int, 1int),
{
    let d = a.1;
    assert(gcd_of(d as nat, d as nat) == d) by {
        assert((d as nat) % (d as nat) == 0) by {
            vstd::arithmetic::div_mod::lemma_mod_self_0(d);
        }
        assert(gcd_of(d as nat, 0) == d);
    }
    assert(den_gcd(a, neg_view(a)) == d);
    vstd::arithmetic::div_mod::lemma_div_by_self(d);
    assert(d * d / d == d) by {
        vstd::arithmetic::div_mod::lemma_div_multiples_vanish(d, d);
    }
    assert(lcm_den(a, neg_view(a)) == d);
    assert(add_terms(a, neg_view(a)).0 + add_terms(a, neg_view(a)).1 == 0);
    assert(gcd_of(0, d as nat) == d) by {
        assert(0nat % (d as nat) == 0);
        assert(gcd_of(d as nat, 0) == d);
    }
    assert(reduce(0, d) == (0int, 1int));
}

/// Where the product's numerator fits in an `i32` and its reduced
/// denominator in a `u8`, the product of two timespans is exact.
pub proof fn lemma_mul_exact(a: (int, int), b: (int, int))
    requires
        is_reduced(a),
        is_reduced(b),
        in_i32(a.0 * b.0),
        (a.1 * b.1) / mul_gcd(a, b) <= 255,
    ensures
        same_value(mul_view(a, b), (a.0 * b.0, a.1 * b.1)),
{
    lemma_den_facts(a, b);
    let n = a.0 * b.0;
    let d = a.1 * b.1;
    let g = mul_gcd(a, b);
    lemma_gcd_divides(abs(n) as nat, d as nat);
    assert((n as i64 as i32) as int == n);
    lemma_fundamental_div_mod(d, g);
    lemma_fundamental_div_mod(abs(n), g);
    let dq = d / g;
    let nq = trunc_div(n, g);
    assert(dq * g == d) by (nonlinear_arith)
        requires
            d == g * dq + d % g,
            d % g == 0,
    ;
    assert(nq * g == n) by {
        if n >= 0 {
            assert(nq * g == n) by (nonlinear_arith)
                requires
                    n == g * (n / g) + n % g,
                    n % g == 0,
                    nq == n / g,
            ;
        } else {
            assert(nq * g == n) by (nonlinear_arith)
                requires
                    -n == g * ((-n) / g) + (-n) % g,
                    (-n) % g == 0,
                    nq == -((-n) / g),
            ;
        }
    }
    assert(1 <= dq) by (nonlinear_arith)
        requires
            dq * g == d,
            d >= 1,
            g >= 1,
    ;
    assert(abs(nq) <= abs(n)) by (nonlinear_arith)
        requires
            nq * g == n,
            g >= 1,
    ;
    lemma_reduce(nq, dq);
    assert(same_value((nq, dq), (n, d))) by (nonlinear_arith)
        requires
            nq * g == n,
            dq * g == d,
    ;
    lemma_same_value_trans(mul_view(a, b), (nq, dq), (n, d));
}

/// The least common multiple divides every common multiple.
pub proof fn lemma_lcm_divides(a: int, b: int, l: int)
    requires
        a >= 1,
        b >= 1,
        l >= 1,
        l % a == 0,
        l % b == 0,
    ensures
        l % lcm_den((0, a), (0, b)) == 0,
        1 <= lcm_den((0, a), (0, b)) <= l,
{
    let g = gcd_of(a as nat, b as nat) as int;
    lemma_gcd_divides(a as nat, b as nat);
    lemma_coprime_after_division(a as nat, b as nat);
    lemma_fundamental_div_mod(a, g);
    lemma_fundamental_div_mod(b, g);
    lemma_fundamental_div_mod(l, a);
    lemma_fundamental_div_mod(l, b);
    let a1 = a / g;
    let b1 = b / g;
    let x = l / a;
    let y = l / b;
    assert(a == g * a1 && b == g * b1);
    assert(l == a * x && l == b * y);
    assert(a1 >= 1 && b1 >= 1 && x >= 1) by (nonlinear_arith)
        requires
            a == g * a1,
            b == g * b1,
            l == a * x,
            a >= 1,
            b >= 1,
            l >= 1,
            g >= 1,
    ;
    assert(a1 * x == b1 * y) by (nonlinear_arith)
        requires
            g * a1 * x == g * b1 * y,
            g >= 1,
    ;
    vstd::arithmetic::div_mod::lemma_mod_multiples_basic(y, b1);
    vstd::arithmetic::mul::lemma_mul_is_commutative(y, b1);
    lemma_coprime_divides_product(a1 as nat, b1 as nat, x as nat);
    lemma_fundamental_div_mod(x, b1);
    let w = x / b1;
    assert(x == b1 * w);
    let m = lcm_den((0, a), (0, b));
    assert(a * b == (a * b1) * g) by (nonlinear_arith)
        requires
            b == g * b1,
    ;
    vstd::arithmetic::div_mod::lemma_div_multiples_vanish(a * b1, g);
    vstd::arithmetic::mul::lemma_mul_is_commutative(a * b1, g);
    assert(m == a * b1);
    assert(l == m * w) by (nonlinear_arith)
        requires
            l == a * x,
            x == b1 * w,
            m == a * b1,
    ;
    assert(1 <= m <= l) by (nonlinear_arith)
        requires
            l == m * w,
            m == a * b1,
            a >= 1,
            b1 >= 1,
            l >= 1,
    ;
    vstd::arithmetic::div_mod::lemma_mod_multiples_basic(w, m);
    vstd::arithmetic::mul::lemma_mul_is_commutative(w, m);
}

/// An exact sum is in lowest terms.
pub(crate) proof fn lemma_add_reduced(a: (int, int), b: (int, int))
    requires
        is_reduced(a),
        is_reduced(b),
        lcm_den(a, b) <= 255,
        add_ok(a, b),
    ensures
        is_reduced(add_view(a, b)),
        lcm_den(a, b) % add_view(a, b).1 == 0,
        lcm_den(a, b) % a.1 == 0,
        lcm_den(a, b) % b.1 == 0,
{
    lemma_den_facts(a, b);
    let n = add_terms(a, b).0 + add_terms(a, b).1;
    let l = lcm_den(a, b);
    lemma_reduce(n, l);
    let g = gcd_of(abs(n) as nat, l as nat) as int;
    let r = add_view(a, b);
    assert(r.1 * g == l);
    lemma_gcd_divides(abs(n) as nat, l as nat);
    vstd::arithmetic::div_mod::lemma_mod_multiples_basic(g, r.1);
    vstd::arithmetic::mul::lemma_mul_is_commutative(g, r.1);
    let h = den_gcd(a, b);
    let aq = a.1 / h;
    let bq = b.1 / h;
    assert(l == b.1 * aq) by (nonlinear_arith)
        requires
            l * h == a.1 * b.1,
            aq * h == a.1,
            h >= 1,
    ;
    assert(l == a.1 * bq) by (nonlinear_arith)
        requires
            l * h == a.1 * b.1,
            bq * h == b.1,
            h >= 1,
    ;
    vstd::arithmetic::div_mod::lemma_mod_multiples_basic(aq, b.1);
    vstd::arithmetic::mul::lemma_mul_is_commutative(aq, b.1);
    vstd::arithmetic::div_mod::lemma_mod_multiples_basic(bq, a.1);
    vstd::arithmetic::mul::lemma_mul_is_commutative(bq, a.1);
}

/// Adding `d` and then `-d` gives back `t`, where the least common
/// denominator of `t` and `d` fits in a `u8` and neither addition
/// overflows.
pub proof fn lemma_add_round_trip(t: (int, int), d: (int, int))
    requires
        is_reduced(t),
        is_reduced(d),
        d.0 != i32::MIN,
        lcm_den(t, d) <= 255,
        add_ok(t, d),
        add_ok(add_view(t, d), neg_view(d)),
    ensures
        add_view(add_view(t, d), neg_view(d)) == t,
{
    let y = add_view(t, d);
    let nd = neg_view(d);
    lemma_add_exact(t, d);
    lemma_add_reduced(t, d);
    let l = lcm_den(t, d);
    lemma_den_facts(t, d);
    lemma_lcm_divides(y.1, d.1, l);
    assert(lcm_den(y, nd) == lcm_den((0, y.1), (0, d.1)));
    assert(is_reduced(nd)) by {
        assert(abs(nd.0) == abs(d.0));
    }
    lemma_add_exact(y, nd);
    lemma_add_reduced(y, nd);
    let z = add_view(y, nd);
    let q = (y.0 * nd.1 + nd.0 * y.1, y.1 * nd.1);
    let (y0, y1, t0, t1, d0, d1) = (y.0, y.1, t.0, t.1, d.0, d.1);
    assert(y0 * (t1 * d1) == y0 * d1 * t1) by (nonlinear_arith);
    assert((t0 * d1 + d0 * t1) * y1 == t0 * y1 * d1 + d0 * y1 * t1) by (nonlinear_arith);
    assert((y0 * d1 + (-d0) * y1) * t1 == y0 * d1 * t1 - d0 * y1 * t1) by (nonlinear_arith);
    assert(t0 * (y1 * d1) == t0 * y1 * d1) by (nonlinear_arith);
    assert(same_value(q, t));
    assert(q.1 > 0) by (nonlinear_arith)
        requires
            q.1 == y.1 * d.1,
            y.1 >= 1,
            d.1 >= 1,
    ;
    lemma_same_value_trans(z, q, t);
    lemma_reduced_unique(z, t);
}

} // verus!
