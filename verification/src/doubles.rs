//! Double-precision arithmetic carried out in integers: rounding to the
//! nearest value with a 53-bit significand (halves to even), and the sums,
//! products and quotients that beat fractions are approximated by where an
//! exact result would not fit a byte-sized denominator.

use vstd::prelude::*;

verus! {

use vstd::arithmetic::power2::{pow2, lemma_pow2_pos, lemma_pow2_unfold, lemma_pow2_strictly_increases, lemma_pow2_adds, lemma2_to64, lemma2_to64_rest};
use crate::timespan::{abs, reduce, round_half_away, saturate_i32};

/// 2^52, the least significand of a normal double.
pub open spec fn sig_low() -> int {
    4503599627370496
}

/// 2^53, the bound of double significands.
pub open spec fn sig_high() -> int {
    9007199254740992
}

/// The nearest integer to `a / b` (`a >= 0`, `b > 0`), halves to even.
pub open spec fn round_half_even(a: int, b: int) -> int {
    let f = a / b;
    let r = a % b;
    if 2 * r < b {
        f
    } else if 2 * r > b {
        f + 1
    } else if f % 2 == 0 {
        f
    } else {
        f + 1
    }
}

/// Doubles the denominator `d` of `a / d * 2^e` (raising `e` to keep the
/// value) until the quotient is below 2^53: the new denominator and
/// exponent.
pub open spec fn widen(a: int, d: int, e: int) -> (int, int)
    decreases (if d >= 1 && a >= sig_high() * d { a - sig_high() * d + 1 } else { 0 }),
{
    if d >= 1 && a >= sig_high() * d {
        widen(a, 2 * d, e + 1)
    } else {
        (d, e)
    }
}

/// Doubles the numerator `n` of `n / d * 2^e` (lowering `e` to keep the
/// value) until the quotient is at least 2^52: the new numerator and
/// exponent.
pub open spec fn narrow(n: int, d: int, e: int) -> (int, int)
    decreases (if n >= 1 && n < sig_low() * d { sig_low() * d - n } else { 0 }),
{
    if n >= 1 && n < sig_low() * d {
        narrow(2 * n, d, e - 1)
    } else {
        (n, e)
    }
}

/// The double nearest to `p / q * 2^e` (`q > 0`), halves to even, as a
/// significand `m` and an exponent `x` that stand for `m * 2^x`; zero is
/// `(0, 0)`.
pub open spec fn round_double(p: int, q: int, e: int) -> (int, int) {
    if p == 0 {
        (0, 0)
    } else {
        let a = abs(p);
        let (d, e1) = widen(a, q, e);
        let (n, e2) = narrow(a, d, e1);
        let m = round_half_even(n, d);
        (if p < 0 { -m } else { m }, e2)
    }
}

/// The double nearest to the fraction `t`.
pub open spec fn to_double(t: (int, int)) -> (int, int) {
    round_double(t.0, t.1, 0)
}

/// `m * 2^s` for a natural `s`.
pub open spec fn shifted(m: int, s: int) -> int {
    m * pow2(s as nat)
}

/// The double nearest to the sum of the doubles `x` and `y`.
pub open spec fn double_add(x: (int, int), y: (int, int)) -> (int, int) {
    let e = if x.1 < y.1 { x.1 } else { y.1 };
    round_double(shifted(x.0, x.1 - e) + shifted(y.0, y.1 - e), 1, e)
}

/// The double nearest to the product of the doubles `x` and `y`.
pub open spec fn double_mul(x: (int, int), y: (int, int)) -> (int, int) {
    round_double(x.0 * y.0, 1, x.1 + y.1)
}

/// The double nearest to the quotient of the doubles `x` and `y` (`y` not
/// zero).
pub open spec fn double_div(x: (int, int), y: (int, int)) -> (int, int) {
    round_double(if y.0 < 0 { -x.0 } else { x.0 }, abs(y.0), x.1 - y.1)
}

/// The integer nearest to the double `x`, halves away from zero.
pub open spec fn double_round(x: (int, int)) -> int {
    if x.1 >= 0 {
        shifted(x.0, x.1)
    } else {
        round_half_away(x.0, pow2((-x.1) as nat) as int)
    }
}

/// The numerator over 255 that the double `x` gives: `x * 255` as a double,
/// rounded to an integer halves away from zero and kept within `i32`.
pub open spec fn numerator_255(x: (int, int)) -> int {
    saturate_i32(double_round(round_double(255 * x.0, 1, x.1)))
}

/// The fraction over 255, reduced, that approximates the double `x`.
pub open spec fn approx_double(x: (int, int)) -> (int, int) {
    reduce(numerator_255(x), 255)
}

/// A double as this module computes it: a significand of at most 53 bits.
pub open spec fn sig_ok(x: (int, int)) -> bool {
    &&& -sig_high() <= x.0 <= sig_high()
    &&& x.0 != 0 ==> (sig_low() <= abs(x.0))
}

proof fn lemma_pow2_values()
    ensures
        pow2(20) == 0x100000,
        pow2(40) == 0x10000000000,
        pow2(52) == 0x10000000000000,
        pow2(53) == 0x20000000000000,
        pow2(54) == 0x40000000000000,
        pow2(61) == 0x2000000000000000,
        pow2(64) == 0x10000000000000000,
        pow2(69) == 0x200000000000000000,
        pow2(121) == 0x2000000000000000000000000000000,
{
    lemma2_to64();
    lemma2_to64_rest();
    lemma_pow2_adds(64, 5);
    lemma_pow2_adds(64, 57);
}

/// Powers of two grow with the exponent.
proof fn lemma_pow2_le(i: nat, j: nat)
    requires
        i <= j,
    ensures
        pow2(i) <= pow2(j),
{
    if i < j {
        lemma_pow2_strictly_increases(i, j);
    }
}

/// `2^k` for `k <= 121`.
fn pow2_exec(k: u32) -> (r: i128)
    requires
        k <= 121,
    ensures
        r == pow2(k as nat),
{
    let mut r: i128 = 1;
    let mut i: u32 = 0;
    proof {
        lemma2_to64();
    }
    while i < k
        invariant
            i <= k <= 121,
            r == pow2(i as nat),
        decreases k - i,
    {
        proof {
            lemma_pow2_unfold((i + 1) as nat);
            lemma_pow2_le((i + 1) as nat, 121);
            lemma_pow2_values();
        }
        r = 2 * r;
        i = i + 1;
    }
    r
}

/// Rounds `p / q * 2^e` to a double.
#[verifier::rlimit(40)]
pub fn round_double_exec(p: i128, q: i128, e: i64) -> (r: (i128, i64))
    requires
        1 <= q <= 0x10000000000000000,
        -0x1000000000000000000000000000000 <= p <= 0x1000000000000000000000000000000,
        -0x10000000000 <= e <= 0x10000000000,
    ensures
        (r.0 as int, r.1 as int) == round_double(p as int, q as int, e as int),
        sig_ok((r.0 as int, r.1 as int)),
        p != 0 ==> r.0 != 0,
        p != 0 ==> e - 121 <= r.1 <= e + 69,
        (p != 0 && abs(p as int) < sig_high() * q) ==> {
            let k = e - r.1;
            &&& k >= 0
            &&& sig_low() * q <= abs(p as int) * pow2(k as nat) < sig_high() * q
        },
{
    if p == 0 {
        return (0, 0);
    }
    let a: i128 = if p < 0 { -p } else { p };
    let mut d: i128 = q;
    let mut e1: i64 = e;
    let ghost mut j: nat = 0;
    proof {
        lemma_pow2_values();
        lemma2_to64();
        assert(d == q * pow2(0));
    }
    while a >= 9007199254740992 * d
        invariant
            1 <= a <= 0x1000000000000000000000000000000,
            1 <= q <= 0x10000000000000000,
            1 <= d,
            d == q * pow2(j),
            e1 == e + j,
            j <= 68,
            j == 0 ==> d == q,
            j > 0 ==> sig_low() * d <= a && a >= sig_high() * q,
            widen(a as int, q as int, e as int) == widen(a as int, d as int, e1 as int),
            -0x10000000000 <= e <= 0x10000000000,
        decreases (if a as int >= sig_high() * (d as int) { a as int - sig_high() * (d as int) + 1 } else { 0 }),
    {
        proof {
            lemma_pow2_unfold((j + 1) as nat);
            lemma_pow2_values();
            assert(q * pow2((j + 1) as nat) == 2 * d) by (nonlinear_arith)
                requires
                    d == q * pow2(j),
                    pow2((j + 1) as nat) == 2 * pow2(j),
            ;
            assert(pow2((j + 1) as nat) <= 2 * d) by (nonlinear_arith)
                requires
                    q >= 1,
                    2 * d == q * pow2((j + 1) as nat),
                    pow2((j + 1) as nat) > 0,
            ;
            if j + 1 >= 69 {
                lemma_pow2_le(69, (j + 1) as nat);
            }
        }
        d = 2 * d;
        e1 = e1 + 1;
        proof {
            j = j + 1;
        }
    }
    let mut n: i128 = a;
    let mut e2: i64 = e1;
    let ghost mut k: nat = 0;
    proof {
        lemma_pow2_values();
        lemma2_to64();
        assert(d <= 0x100000000000000000);
        assert(n == a * pow2(0));
    }
    while n < 4503599627370496 * d
        invariant
            1 <= a <= 0x1000000000000000000000000000000,
            1 <= d <= 0x100000000000000000,
            1 <= n < sig_high() * d,
            n == a * pow2(k),
            e2 == e1 - k,
            k <= 120,
            k > 0 ==> j == 0,
            e1 == e + j,
            j <= 68,
            j == 0 ==> d == q,
            j > 0 ==> sig_low() * d <= a && a >= sig_high() * q,
            narrow(a as int, d as int, e1 as int) == narrow(n as int, d as int, e2 as int),
            -0x10000000000 <= e <= 0x10000000000,
        decreases (if (n as int) < sig_low() * (d as int) { sig_low() * (d as int) - n as int } else { 0 }),
    {
        proof {
            lemma_pow2_unfold((k + 1) as nat);
            lemma_pow2_values();
            assert(a * pow2((k + 1) as nat) == 2 * n) by (nonlinear_arith)
                requires
                    n == a * pow2(k),
                    pow2((k + 1) as nat) == 2 * pow2(k),
            ;
            assert(pow2((k + 1) as nat) <= 2 * n) by (nonlinear_arith)
                requires
                    a >= 1,
                    2 * n == a * pow2((k + 1) as nat),
                    pow2((k + 1) as nat) > 0,
            ;
            if k + 1 >= 121 {
                lemma_pow2_le(121, (k + 1) as nat);
            }
            assert(j == 0) by {
                if j > 0 {
                    assert(n >= a) by (nonlinear_arith)
                        requires
                            n == a * pow2(k),
                            pow2(k) > 0,
                            a >= 1,
                    ;
                }
            }
        }
        n = 2 * n;
        e2 = e2 - 1;
        proof {
            k = k + 1;
        }
    }
    let f: i128 = n / d;
    let rem: i128 = n % d;
    proof {
        assert(sig_low() <= f < sig_high()) by {
            vstd::arithmetic::div_mod::lemma_fundamental_div_mod(n as int, d as int);
            assert(sig_low() <= f < sig_high()) by (nonlinear_arith)
                requires
                    n == d * f + rem,
                    0 <= rem < d,
                    sig_low() * d <= n < sig_high() * d,
                    d >= 1,
            ;
        }
    }
    let m: i128 = if 2 * rem < d {
        f
    } else if 2 * rem > d {
        f + 1
    } else if f % 2 == 0 {
        f
    } else {
        f + 1
    };
    assert(m == round_half_even(n as int, d as int));
    let r = if p < 0 { (-m, e2) } else { (m, e2) };
    proof {
        assert(widen(a as int, d as int, e1 as int) == (d as int, e1 as int));
        assert(narrow(n as int, d as int, e2 as int) == (n as int, e2 as int));
        if abs(p as int) < sig_high() * q {
            assert(j == 0);
        }
    }
    r
}

/// A double that rounding a beat fraction gives: zero, or a significand of
/// 53 bits with an exponent between -60 and -21.
pub open spec fn fraction_double(x: (int, int)) -> bool {
    &&& sig_ok(x)
    &&& x.0 == 0 ==> x.1 == 0
    &&& x.0 != 0 ==> -60 <= x.1 <= -21
}

/// Rounds the fraction `n / d` to a double.
pub fn to_double_exec(n: i32, d: u8) -> (r: (i128, i64))
    requires
        d >= 1,
    ensures
        (r.0 as int, r.1 as int) == to_double((n as int, d as int)),
        fraction_double((r.0 as int, r.1 as int)),
        n != 0 ==> r.0 != 0,
{
    let r = round_double_exec(n as i128, d as i128, 0);
    proof {
        lemma_pow2_values();
        if n != 0 {
            let a = abs(n as int);
            let k = 0 - r.1;
            assert(a <= 0x80000000);
            assert(a < sig_high() * d);
            assert(sig_low() * d <= a * pow2(k as nat) < sig_high() * d);
            lemma_pow2_pos(k as nat);
            if k <= 20 {
                lemma_pow2_le(k as nat, 20);
                assert(a * pow2(k as nat) <= 0x80000000 * 0x100000) by (nonlinear_arith)
                    requires
                        1 <= a <= 0x80000000,
                        0 < pow2(k as nat) <= 0x100000,
                ;
            }
            if k >= 61 {
                lemma_pow2_le(61, k as nat);
                assert(a * pow2(k as nat) >= 0x2000000000000000) by (nonlinear_arith)
                    requires
                        a >= 1,
                        pow2(k as nat) >= 0x2000000000000000,
                ;
            }
        } else {
            assert(r.0 == 0 && r.1 == 0);
        }
    }
    r
}

/// The double nearest to the sum of two doubles of fractions.
pub fn double_add_exec(x: (i128, i64), y: (i128, i64)) -> (r: (i128, i64))
    requires
        fraction_double((x.0 as int, x.1 as int)),
        fraction_double((y.0 as int, y.1 as int)),
    ensures
        (r.0 as int, r.1 as int) == double_add((x.0 as int, x.1 as int), (y.0 as int, y.1 as int)),
        sig_ok((r.0 as int, r.1 as int)),
        -0x100000 <= r.1 <= 0x100000,
{
    let e: i64 = if x.1 < y.1 { x.1 } else { y.1 };
    let px = pow2_exec((x.1 - e) as u32);
    let py = pow2_exec((y.1 - e) as u32);
    proof {
        lemma_pow2_values();
        lemma_pow2_le((x.1 - e) as nat, 60);
        lemma_pow2_le((y.1 - e) as nat, 60);
        lemma2_to64();
        lemma2_to64_rest();
        lemma_pow2_pos((x.1 - e) as nat);
        lemma_pow2_pos((y.1 - e) as nat);
        assert(-0x20000000000000 * 0x1000000000000000 <= x.0 * px <= 0x20000000000000 * 0x1000000000000000) by (nonlinear_arith)
            requires
                -0x20000000000000 <= x.0 <= 0x20000000000000,
                0 < px <= 0x1000000000000000,
        ;
        assert(-0x20000000000000 * 0x1000000000000000 <= y.0 * py <= 0x20000000000000 * 0x1000000000000000) by (nonlinear_arith)
            requires
                -0x20000000000000 <= y.0 <= 0x20000000000000,
                0 < py <= 0x1000000000000000,
        ;
    }
    let sum: i128 = x.0 * px + y.0 * py;
    round_double_exec(sum, 1, e)
}

/// The double nearest to the product of two doubles of fractions.
pub fn double_mul_exec(x: (i128, i64), y: (i128, i64)) -> (r: (i128, i64))
    requires
        fraction_double((x.0 as int, x.1 as int)),
        fraction_double((y.0 as int, y.1 as int)),
    ensures
        (r.0 as int, r.1 as int) == double_mul((x.0 as int, x.1 as int), (y.0 as int, y.1 as int)),
        sig_ok((r.0 as int, r.1 as int)),
        -0x100000 <= r.1 <= 0x100000,
{
    assert(-0x20000000000000 * 0x20000000000000 <= x.0 * y.0 <= 0x20000000000000 * 0x20000000000000) by (nonlinear_arith)
        requires
            -0x20000000000000 <= x.0 <= 0x20000000000000,
            -0x20000000000000 <= y.0 <= 0x20000000000000,
    ;
    round_double_exec(x.0 * y.0, 1, x.1 + y.1)
}

/// The double nearest to the quotient of two doubles, the second not zero.
pub fn double_div_exec(x: (i128, i64), y: (i128, i64)) -> (r: (i128, i64))
    requires
        sig_ok((x.0 as int, x.1 as int)),
        sig_ok((y.0 as int, y.1 as int)),
        y.0 != 0,
        -0x100000 <= x.1 <= 0x100000,
        -0x100000 <= y.1 <= 0x100000,
    ensures
        (r.0 as int, r.1 as int) == double_div((x.0 as int, x.1 as int), (y.0 as int, y.1 as int)),
        sig_ok((r.0 as int, r.1 as int)),
        -0x1000000 <= r.1 <= 0x1000000,
{
    let p: i128 = if y.0 < 0 { -x.0 } else { x.0 };
    let q: i128 = if y.0 < 0 { -y.0 } else { y.0 };
    round_double_exec(p, q, x.1 - y.1)
}

/// The integer nearest to the double `m * 2^e`, halves away from zero, kept
/// within `i32`.
fn round_saturate(m: i128, e: i64) -> (r: i32)
    requires
        -sig_high() <= m <= sig_high(),
        -0x10000000000 <= e <= 0x10000000000,
    ensures
        r == saturate_i32(double_round((m as int, e as int))),
{
    proof {
        lemma_pow2_values();
    }
    let ghost dr = double_round((m as int, e as int));
    let v: i128 = if e >= 0 {
        if e >= 40 {
            let w: i128 = if m > 0 {
                0x80000000
            } else if m < 0 {
                -0x80000001
            } else {
                0
            };
            proof {
                lemma_pow2_le(40, e as nat);
                lemma_pow2_pos(e as nat);
                let p = pow2(e as nat) as int;
                assert(p >= 0x10000000000);
                assert(dr == m * p);
                if m > 0 {
                    assert(m * p >= p) by (nonlinear_arith)
                        requires
                            m >= 1,
                            p > 0,
                    ;
                    assert(dr > i32::MAX);
                    assert(saturate_i32(dr) == i32::MAX as int);
                    assert(saturate_i32(w as int) == i32::MAX as int);
                } else if m < 0 {
                    assert(m * p <= -p) by (nonlinear_arith)
                        requires
                            m <= -1,
                            p > 0,
                    ;
                    assert(dr < i32::MIN);
                    assert(saturate_i32(dr) == i32::MIN as int);
                    assert(saturate_i32(w as int) == i32::MIN as int);
                } else {
                    assert(m * p == 0) by (nonlinear_arith)
                        requires
                            m == 0,
                    ;
                }
                assert(saturate_i32(w as int) == saturate_i32(dr));
            }
            w
        } else {
            let p = pow2_exec(e as u32);
            proof {
                lemma_pow2_le(e as nat, 40);
                lemma_pow2_pos(e as nat);
                assert(-0x20000000000000 * 0x10000000000 <= m * p <= 0x20000000000000 * 0x10000000000) by (nonlinear_arith)
                    requires
                        -0x20000000000000 <= m <= 0x20000000000000,
                        0 < p <= 0x10000000000,
                ;
                assert(dr == m * p);
            }
            m * p
        }
    } else if e < -120 {
        proof {
            let q = pow2((-e) as nat) as int;
            lemma_pow2_le(121, (-e) as nat);
            if m >= 0 {
                vstd::arithmetic::div_mod::lemma_basic_div(2 * m + q, 2 * q);
            } else {
                vstd::arithmetic::div_mod::lemma_basic_div(-2 * m + q, 2 * q);
            }
            assert(dr == 0);
        }
        0
    } else {
        let q = pow2_exec((-e) as u32);
        proof {
            lemma_pow2_le((-e) as nat, 120);
            lemma_pow2_adds(64, 56);
            lemma2_to64();
            lemma2_to64_rest();
            lemma_pow2_pos((-e) as nat);
            assert(q <= 0x1000000000000000000000000000000);
        }
        let w: i128 = if m >= 0 {
            (2 * m + q) / (2 * q)
        } else {
            -((q - 2 * m) / (2 * q))
        };
        proof {
            assert(dr == round_half_away(m as int, q as int));
        }
        w
    };
    if v > 0x7fffffff {
        i32::MAX
    } else if v < -0x80000000 {
        i32::MIN
    } else {
        v as i32
    }
}

/// The numerator over 255 that the double `x` gives (see `numerator_255`).
pub fn numerator_255_exec(x: (i128, i64)) -> (r: i32)
    requires
        sig_ok((x.0 as int, x.1 as int)),
        -0x1000000 <= x.1 <= 0x1000000,
    ensures
        r == numerator_255((x.0 as int, x.1 as int)),
{
    let y = round_double_exec(255 * x.0, 1, x.1);
    round_saturate(y.0, y.1)
}

/// Widening keeps a positive denominator.
proof fn lemma_widen_pos(a: int, d: int, e: int)
    requires
        d >= 1,
    ensures
        widen(a, d, e).0 >= 1,
    decreases (if d >= 1 && a >= sig_high() * d { a - sig_high() * d + 1 } else { 0 }),
{
    if d >= 1 && a >= sig_high() * d {
        lemma_widen_pos(a, 2 * d, e + 1);
    }
}

/// Narrowing a positive numerator over a positive denominator brings the
/// quotient to at least 2^52.
proof fn lemma_narrow_low(n: int, d: int, e: int)
    requires
        n >= 1,
        d >= 1,
    ensures
        narrow(n, d, e).0 >= sig_low() * d,
    decreases (if n >= 1 && n < sig_low() * d { sig_low() * d - n } else { 0 }),
{
    if n >= 1 && n < sig_low() * d {
        lemma_narrow_low(2 * n, d, e - 1);
    }
}

/// Rounding to a double keeps the sign.
pub proof fn lemma_round_double_sign(p: int, q: int, e: int)
    requires
        q >= 1,
    ensures
        p > 0 ==> round_double(p, q, e).0 > 0,
        p < 0 ==> round_double(p, q, e).0 < 0,
        p == 0 ==> round_double(p, q, e).0 == 0,
{
    if p != 0 {
        let a = abs(p);
        lemma_widen_pos(a, q, e);
        let (d, e1) = widen(a, q, e);
        lemma_narrow_low(a, d, e1);
        let (n, e2) = narrow(a, d, e1);
        vstd::arithmetic::div_mod::lemma_fundamental_div_mod(n, d);
        let f = n / d;
        assert(f >= 1) by (nonlinear_arith)
            requires
                n == d * f + n % d,
                0 <= n % d < d,
                n >= sig_low() * d,
                d >= 1,
        ;
        assert(round_half_even(n, d) >= 1);
    }
}

/// The integer nearest to a double keeps its sign, or is zero.
pub proof fn lemma_double_round_sign(x: (int, int))
    ensures
        x.0 >= 0 ==> double_round(x) >= 0,
        x.0 <= 0 ==> double_round(x) <= 0,
{
    if x.1 >= 0 {
        lemma_pow2_pos(x.1 as nat);
        let p = pow2(x.1 as nat) as int;
        assert(x.0 >= 0 ==> x.0 * p >= 0) by (nonlinear_arith)
            requires
                p > 0,
        ;
        assert(x.0 <= 0 ==> x.0 * p <= 0) by (nonlinear_arith)
            requires
                p > 0,
        ;
    } else {
        lemma_pow2_pos((-x.1) as nat);
        let q = pow2((-x.1) as nat) as int;
        if x.0 >= 0 {
            vstd::arithmetic::div_mod::lemma_div_pos_is_pos(2 * x.0 + q, 2 * q);
            if x.0 == 0 {
                vstd::arithmetic::div_mod::lemma_basic_div(q, 2 * q);
            }
        } else {
            vstd::arithmetic::div_mod::lemma_div_pos_is_pos(-2 * x.0 + q, 2 * q);
        }
    }
}

/// The numerator over 255 that a double gives has the double's sign, or is
/// zero.
pub proof fn lemma_numerator_255_sign(x: (int, int))
    ensures
        x.0 >= 0 ==> numerator_255(x) >= 0,
        x.0 <= 0 ==> numerator_255(x) <= 0,
{
    lemma_round_double_sign(255 * x.0, 1, x.1);
    lemma_double_round_sign(round_double(255 * x.0, 1, x.1));
}

} // verus!
