//! Representation and math of musical time intervals.

use vstd::prelude::*;
use core::cmp::Ordering;
use core::ops::{Add, AddAssign, Div, Mul, Neg, Sub};

verus! {

use crate::doubles::{
    approx_double, double_add, double_mul, double_div, to_double, round_double, sig_ok, to_double_exec,
    double_add_exec, double_mul_exec, double_div_exec, round_double_exec, numerator_255_exec,
};
use crate::numtheory::{gcd_of, gcd_u32, gcd_u8, gcd_u64, lemma_gcd_divides, lemma_coprime_after_division, lemma_coprime_divides_product};
use vstd::arithmetic::div_mod::lemma_fundamental_div_mod;

/// Absolute value.
pub open spec fn abs(x: int) -> int {
    if x < 0 {
        -x
    } else {
        x
    }
}

/// Division rounding toward zero, as integer division does in Rust.
pub open spec fn trunc_div(a: int, b: int) -> int {
    if a >= 0 {
        a / b
    } else {
        -((-a) / b)
    }
}

/// The fraction `n/d` divided through by the gcd of its terms.
pub open spec fn reduce(n: int, d: int) -> (int, int) {
    let g = gcd_of(abs(n) as nat, d as nat) as int;
    (trunc_div(n, g), d / g)
}

/// A fraction with a positive `u8` denominator and an `i32` numerator, in
/// lowest terms.
pub open spec fn is_reduced(v: (int, int)) -> bool {
    &&& 1 <= v.1 <= 255
    &&& i32::MIN <= v.0 <= i32::MAX
    &&& gcd_of(abs(v.0) as nat, v.1 as nat) == 1
}

/// Two fractions denote the same rational number.
pub open spec fn same_value(a: (int, int), b: (int, int)) -> bool {
    a.0 * b.1 == b.0 * a.1
}

/// `a` denotes a smaller rational number than `b` (denominators positive).
pub open spec fn less_value(a: (int, int), b: (int, int)) -> bool {
    a.0 * b.1 < b.0 * a.1
}

/// The nearest integer to `p/q` (`q > 0`), rounding halves away from zero.
pub open spec fn round_half_away(p: int, q: int) -> int {
    if p >= 0 {
        (2 * p + q) / (2 * q)
    } else {
        -((-2 * p + q) / (2 * q))
    }
}

/// Clamps to the range of `i32`.
pub open spec fn saturate_i32(x: int) -> int {
    if x > i32::MAX {
        i32::MAX as int
    } else if x < i32::MIN {
        i32::MIN as int
    } else {
        x
    }
}

/// Represents a time interval as a beat fraction. Often, the interval is
/// measured from the start of the song. Operations that would overflow the
/// denominator instead saturate it and adjust the numerator to approximate
/// the result: the operands are rounded to doubles, the operation is done
/// in double precision, and the nearest numerator over 255 is taken (see
/// `doubles`).
#[derive(Clone, Copy, Debug, PartialEq, Eq, Structural)]
pub struct Timespan {
    n: i32,
    d: u8,
}

impl View for Timespan {
    type V = (int, int);

    /// Numerator and denominator.
    closed spec fn view(&self) -> (int, int) {
        (self.n as int, self.d as int)
    }
}

proof fn lemma_abs_trunc_div(n: int, g: int)
    requires
        g > 0,
    ensures
        abs(trunc_div(n, g)) == abs(n) / g,
        abs(n) % g == 0 ==> trunc_div(n, g) * g == n,
        abs(trunc_div(n, g)) <= abs(n),
{
    let a = abs(n);
    lemma_fundamental_div_mod(a, g);
    let q = a / g;
    assert(q >= 0) by {
        vstd::arithmetic::div_mod::lemma_div_pos_is_pos(a, g);
    }
    vstd::arithmetic::div_mod::lemma_div_is_ordered_by_denominator(a, 1, g);
    if a % g == 0 {
        assert(q * g == a) by (nonlinear_arith)
            requires
                a == g * q + 0,
        ;
        if n < 0 {
            assert(trunc_div(n, g) == -q);
            assert(-q * g == n) by (nonlinear_arith)
                requires
                    q * g == a,
                    a == -n,
            ;
        }
    }
}

/// Reducing a fraction yields lowest terms and keeps its value.
pub proof fn lemma_reduce(n: int, d: int)
    requires
        1 <= d <= 255,
        i32::MIN <= n <= i32::MAX,
    ensures
        is_reduced(reduce(n, d)),
        same_value(reduce(n, d), (n, d)),
        reduce(n, d).0 * (gcd_of(abs(n) as nat, d as nat) as int) == n,
        reduce(n, d).1 * (gcd_of(abs(n) as nat, d as nat) as int) == d,
{
    let a = abs(n) as nat;
    let g = gcd_of(a, d as nat);
    lemma_gcd_divides(a, d as nat);
    lemma_coprime_after_division(a, d as nat);
    lemma_abs_trunc_div(n, g as int);
    lemma_fundamental_div_mod(d, g as int);
    let r = reduce(n, d);
    assert(r.1 * g == d) by (nonlinear_arith)
        requires
            d == g * (d / (g as int)) + d % (g as int),
            d % (g as int) == 0,
            r.1 == d / (g as int),
    ;
    assert(r.1 >= 1) by (nonlinear_arith)
        requires
            r.1 * g == d,
            d >= 1,
            g >= 1,
    ;
    assert(r.1 <= d) by (nonlinear_arith)
        requires
            r.1 * g == d,
            r.1 >= 1,
            g >= 1,
    ;
    assert(same_value(r, (n, d))) by (nonlinear_arith)
        requires
            r.0 * g == n,
            r.1 * g == d,
    ;
}

/// Reduced fractions with the same value are identical: the structural
/// equality of `Timespan` agrees with equality of the rational numbers.
pub proof fn lemma_reduced_unique(a: (int, int), b: (int, int))
    requires
        is_reduced(a),
        is_reduced(b),
        same_value(a, b),
    ensures
        a == b,
{
    // a.0 * b.1 == b.0 * a.1, so a.1 divides a.0 * b.1 and b.1 divides b.0 * a.1.
    let x = abs(a.0) as nat;
    let y = abs(b.0) as nat;
    let p = a.1 as nat;
    let q = b.1 as nat;
    assert(x * q == y * p) by (nonlinear_arith)
        requires
            a.0 * b.1 == b.0 * a.1,
            x == abs(a.0),
            y == abs(b.0),
            p == a.1,
            q == b.1,
            p > 0,
            q > 0,
    ;
    vstd::arithmetic::div_mod::lemma_mod_multiples_basic(y as int, p as int);
    vstd::arithmetic::div_mod::lemma_mod_multiples_basic(x as int, q as int);
    vstd::arithmetic::mul::lemma_mul_is_commutative(x as int, q as int);
    vstd::arithmetic::mul::lemma_mul_is_commutative(y as int, p as int);
    lemma_coprime_divides_product(x, p, q);
    lemma_coprime_divides_product(y, q, p);
    lemma_divisor_mutual(p, q);
    assert(a.0 == b.0) by (nonlinear_arith)
        requires
            a.0 * b.1 == b.0 * a.1,
            a.1 == b.1,
            a.1 > 0,
    ;
}

proof fn lemma_divisor_mutual(p: nat, q: nat)
    requires
        p > 0,
        q > 0,
        p % q == 0,
        q % p == 0,
    ensures
        p == q,
{
    lemma_fundamental_div_mod(p as int, q as int);
    lemma_fundamental_div_mod(q as int, p as int);
    let k = p / q;
    let m = q / p;
    assert(p == q) by (nonlinear_arith)
        requires
            p == q * k,
            q == p * m,
            p > 0,
            q > 0,
            k >= 0,
            m >= 0,
    ;
}

impl Timespan {
    /// Every timespan is a fraction in lowest terms with a positive
    /// denominator.
    #[verifier::type_invariant]
    pub open spec fn inv(self) -> bool {
        is_reduced(self@)
    }

    /// The timespan denoting the fraction `v`.
    pub closed spec fn from_view(v: (int, int)) -> Timespan {
        Timespan { n: v.0 as i32, d: v.1 as u8 }
    }

    /// `from_view` inverts the view.
    pub proof fn lemma_from_view(v: (int, int))
        requires
            1 <= v.1 <= 255,
            i32::MIN <= v.0 <= i32::MAX,
        ensures
            Self::from_view(v)@ == v,
    {
    }

    /// Every view has an `i32` numerator and a `u8` denominator.
    pub proof fn lemma_view_bounds()
        ensures
            forall|x: Timespan| 0 <= (#[trigger] x@).1 <= 255 && in_i32(x@.0),
    {
    }

    /// A timespan is rebuilt from its view.
    pub proof fn lemma_from_view_of(t: Timespan)
        ensures
            Timespan::from_view(t@) == t,
    {
    }

    /// Timespans are equal exactly when their fractions are.
    pub proof fn lemma_view_eq(a: Timespan, b: Timespan)
        ensures
            (a == b) <==> (a@ == b@),
    {
    }

    /// The timespan of zero beats.
    pub fn zero() -> (r: Self)
        ensures
            r@ == (0int, 1int),
    {
        proof {
            assert(gcd_of(0, 1) == 1) by {
                assert(gcd_of(1, 0) == 1);
            }
        }
        Timespan { n: 0, d: 1 }
    }

    /// Creates `n/d` in lowest terms.
    pub fn new(n: i32, d: u8) -> (r: Self)
        requires
            d > 0,
        ensures
            r@ == reduce(n as int, d as int),
            is_reduced(r@),
            same_value(r@, (n as int, d as int)),
    {
        let a: u32 = if n < 0 {
            (-(n as i64)) as u32
        } else {
            n as u32
        };
        let g = gcd_u32(a, d as u32);
        proof {
            lemma_reduce(n as int, d as int);
            lemma_gcd_divides(a as nat, d as nat);
            lemma_abs_trunc_div(n as int, g as int);
        }
        let r = Timespan { n: n / (g as i32), d: d / (g as u8) };
        r
    }

    /// Returns the absolute value.
    pub fn abs(&self) -> (r: Self)
        requires
            self@.0 != i32::MIN,
        ensures
            r@ == (abs(self@.0), self@.1),
    {
        proof {
            use_type_invariant(self);
        }
        let n = if self.n < 0 {
            -self.n
        } else {
            self.n
        };
        Self { n, d: self.d }
    }

    /// Returns the numerator.
    pub fn num(&self) -> (r: i32)
        ensures
            r == self@.0,
    {
        self.n
    }

    /// Returns the denominator.
    pub fn den(&self) -> (r: u8)
        ensures
            r == self@.1,
            r >= 1,
    {
        proof {
            use_type_invariant(self);
        }
        self.d
    }
}

/// Whether `x` is representable as an `i32`.
pub open spec fn in_i32(x: int) -> bool {
    i32::MIN <= x <= i32::MAX
}

/// The gcd of the two denominators.
pub open spec fn den_gcd(a: (int, int), b: (int, int)) -> int {
    gcd_of(a.1 as nat, b.1 as nat) as int
}

/// The least common denominator of `a` and `b`.
pub open spec fn lcm_den(a: (int, int), b: (int, int)) -> int {
    a.1 * b.1 / den_gcd(a, b)
}

/// The numerators of `a` and `b` over their least common denominator.
pub open spec fn add_terms(a: (int, int), b: (int, int)) -> (int, int) {
    (a.0 * (b.1 / den_gcd(a, b)), b.0 * (a.1 / den_gcd(a, b)))
}

/// Addition does not overflow `i32` while forming the exact numerator.
pub open spec fn add_ok(a: (int, int), b: (int, int)) -> bool {
    lcm_den(a, b) <= 255 ==> {
        &&& in_i32(add_terms(a, b).0)
        &&& in_i32(add_terms(a, b).1)
        &&& in_i32(add_terms(a, b).0 + add_terms(a, b).1)
    }
}

/// The sum of `a` and `b`: exact over the least common denominator when it
/// fits in a `u8`, otherwise the double-precision sum of the two fractions
/// approximated with denominator 255.
pub open spec fn add_view(a: (int, int), b: (int, int)) -> (int, int) {
    if lcm_den(a, b) <= 255 {
        reduce(add_terms(a, b).0 + add_terms(a, b).1, lcm_den(a, b))
    } else {
        approx_double(double_add(to_double(a), to_double(b)))
    }
}

/// The negation of `a`.
pub open spec fn neg_view(a: (int, int)) -> (int, int) {
    (-a.0, a.1)
}

/// The gcd of the product's numerator and denominator.
pub open spec fn mul_gcd(a: (int, int), b: (int, int)) -> int {
    gcd_of(abs(a.0 * b.0) as nat, (a.1 * b.1) as nat) as int
}

/// Where the reduced denominator of the product fits in a `u8`, the reduced
/// numerator fits in an `i32`.
pub open spec fn mul_ok(a: (int, int), b: (int, int)) -> bool {
    (a.1 * b.1) / mul_gcd(a, b) <= 255 ==> in_i32(trunc_div(a.0 * b.0, mul_gcd(a, b)))
}

/// The product of `a` and `b`: exact, in lowest terms, when the reduced
/// denominator fits in a `u8`; otherwise the double-precision product of
/// the two fractions approximated with denominator 255.
pub open spec fn mul_view(a: (int, int), b: (int, int)) -> (int, int) {
    let n = a.0 * b.0;
    let g = mul_gcd(a, b);
    if (a.1 * b.1) / g <= 255 {
        reduce(trunc_div(n, g), (a.1 * b.1) / g)
    } else {
        approx_double(double_mul(to_double(a), to_double(b)))
    }
}

/// The numerator of the quotient `a / b`, with the sign of `b` moved onto it.
pub open spec fn div_num(a: (int, int), b: (int, int)) -> int {
    if b.0 < 0 {
        -(a.0 * b.1)
    } else {
        a.0 * b.1
    }
}

/// The denominator of the quotient `a / b`, made positive.
pub open spec fn div_den(a: (int, int), b: (int, int)) -> int {
    if b.0 < 0 {
        -(a.1 * b.0)
    } else {
        a.1 * b.0
    }
}

/// The gcd of the quotient's numerator and denominator.
pub open spec fn div_gcd(a: (int, int), b: (int, int)) -> int {
    gcd_of(abs(div_num(a, b)) as nat, div_den(a, b) as nat) as int
}

/// The quotient of `a` by a nonzero `b`: exact when the reduced
/// denominator fits in a `u8`; otherwise the double-precision quotient of
/// the two fractions is approximated with denominator 255.
pub open spec fn div_view(a: (int, int), b: (int, int)) -> (int, int) {
    let n = div_num(a, b);
    let d = div_den(a, b);
    let g = div_gcd(a, b);
    if d / g <= 255 {
        reduce(trunc_div(n, g), d / g)
    } else {
        approx_double(double_div(to_double(a), to_double(b)))
    }
}

/// The fraction over 255 that approximates the double `x` (see
/// `approx_double`).
fn approximate_double(x: (i128, i64)) -> (r: Timespan)
    requires
        sig_ok((x.0 as int, x.1 as int)),
        -0x1000000 <= x.1 <= 0x1000000,
    ensures
        r@ == approx_double((x.0 as int, x.1 as int)),
        is_reduced(r@),
{
    Timespan::new(numerator_255_exec(x), 255)
}

/// Ticks per beat in the fixed-resolution timing of older saves.
pub const LEGACY_DENOM: u64 = 5040;

/// The timespan of `v` ticks of the fixed resolution: the exact fraction
/// where its reduced denominator fits in a `u8` (the numerator converted as
/// an `as` cast does), otherwise the double-precision quotient of `v` by
/// the resolution approximated with denominator 255.
pub open spec fn legacy_view(v: int) -> (int, int) {
    let g = gcd_of(v as nat, LEGACY_DENOM as nat) as int;
    let d = (LEGACY_DENOM as int) / g;
    if d <= 255 {
        reduce(((v / g) as i32) as int, d)
    } else {
        approx_double(double_div(round_double(v, 1, 0), round_double(LEGACY_DENOM as int, 1, 0)))
    }
}

impl Timespan {
    /// Converts a tick count of the fixed resolution of older saves.
    pub fn from_legacy_ticks(v: u64) -> (r: Timespan)
        ensures
            r@ == legacy_view(v as int),
            is_reduced(r@),
    {
        let g = gcd_u64(v, LEGACY_DENOM);
        proof {
            lemma_gcd_divides(v as nat, LEGACY_DENOM as nat);
            vstd::arithmetic::div_mod::lemma_div_is_ordered_by_denominator(LEGACY_DENOM as int, 1, g as int);
            vstd::arithmetic::div_mod::lemma_div_non_zero(LEGACY_DENOM as int, g as int);
        }
        let d = LEGACY_DENOM / g;
        if d <= 255 {
            Timespan::new((v / g) as i32, d as u8)
        } else {
            let x = round_double_exec(v as i128, 1, 0);
            let y = round_double_exec(LEGACY_DENOM as i128, 1, 0);
            let z = double_div_exec(x, y);
            approximate_double(z)
        }
    }
}

impl Neg for Timespan {
    type Output = Timespan;

    fn neg(self) -> (r: Timespan)
        ensures
            r@ == neg_view(self@),
    {
        proof {
            use_type_invariant(&self);
        }
        Timespan { n: -self.n, d: self.d }
    }
}

impl vstd::std_specs::ops::NegSpecImpl for Timespan {
    open spec fn obeys_neg_spec() -> bool {
        true
    }

    open spec fn neg_req(self) -> bool {
        self@.0 != i32::MIN
    }

    open spec fn neg_spec(self) -> Timespan {
        Timespan::from_view(neg_view(self@))
    }
}

impl Add for Timespan {
    type Output = Timespan;

    fn add(self, rhs: Timespan) -> (r: Timespan)
        ensures
            r@ == add_view(self@, rhs@),
            is_reduced(r@),
    {
        proof {
            use_type_invariant(&self);
            use_type_invariant(&rhs);
        }
        let g = gcd_u8(self.d, rhs.d);
        proof {
            lemma_gcd_divides(self.d as nat, rhs.d as nat);
            lemma_den_facts(self@, rhs@);
        }
        let d: u16 = (self.d as u16 * rhs.d as u16) / g as u16;
        if d <= 255 {
            let n = self.n * (rhs.d / g) as i32 + rhs.n * (self.d / g) as i32;
            Timespan::new(n, d as u8)
        } else {
            let x = to_double_exec(self.n, self.d);
            let y = to_double_exec(rhs.n, rhs.d);
            approximate_double(double_add_exec(x, y))
        }
    }
}

impl Timespan {
    /// Whether adding `rhs` keeps the exact numerator within `i32` (see
    /// `add_ok`).
    pub fn add_fits(&self, rhs: &Timespan) -> (r: bool)
        ensures
            r == add_ok(self@, rhs@),
    {
        proof {
            use_type_invariant(self);
            use_type_invariant(rhs);
        }
        let g = gcd_u8(self.d, rhs.d);
        proof {
            lemma_gcd_divides(self.d as nat, rhs.d as nat);
            lemma_den_facts(self@, rhs@);
        }
        let d: u16 = (self.d as u16 * rhs.d as u16) / g as u16;
        if d > 255 {
            true
        } else {
            proof {
                lemma_i32_times_u8(self.n as int, (rhs.d / g) as int);
                lemma_i32_times_u8(rhs.n as int, (self.d / g) as int);
            }
            let x: i64 = self.n as i64 * (rhs.d / g) as i64;
            let y: i64 = rhs.n as i64 * (self.d / g) as i64;
            let lo: i64 = -0x80000000;
            let hi: i64 = 0x7fffffff;
            lo <= x && x <= hi && lo <= y && y <= hi && lo <= x + y && x + y <= hi
        }
    }
}

pub(crate) proof fn lemma_i32_times_u8(x: int, y: int)
    requires
        in_i32(x),
        0 <= y <= 255,
    ensures
        -549755813888 <= x * y <= 549755813888,
{
    assert(-549755813888 <= x * y <= 549755813888) by (nonlinear_arith)
        requires
            -2147483648 <= x <= 2147483647,
            0 <= y <= 255,
    ;
}

pub(crate) proof fn lemma_den_facts(a: (int, int), b: (int, int))
    requires
        1 <= a.1 <= 255,
        1 <= b.1 <= 255,
    ensures
        1 <= den_gcd(a, b) <= a.1,
        den_gcd(a, b) <= b.1,
        1 <= lcm_den(a, b) <= 65025,
        a.1 * b.1 <= 65025,
        lcm_den(a, b) * den_gcd(a, b) == a.1 * b.1,
        (b.1 / den_gcd(a, b)) * den_gcd(a, b) == b.1,
        (a.1 / den_gcd(a, b)) * den_gcd(a, b) == a.1,
{
    let g = den_gcd(a, b);
    lemma_gcd_divides(a.1 as nat, b.1 as nat);
    lemma_fundamental_div_mod(a.1, g);
    lemma_fundamental_div_mod(b.1, g);
    assert(a.1 * b.1 <= 65025) by (nonlinear_arith)
        requires
            1 <= a.1 <= 255,
            1 <= b.1 <= 255,
    ;
    let bq = b.1 / g;
    assert(bq * g == b.1) by (nonlinear_arith)
        requires
            b.1 == g * bq + 0,
    ;
    let aq = a.1 / g;
    assert(aq * g == a.1) by (nonlinear_arith)
        requires
            a.1 == g * aq + 0,
    ;
    assert(a.1 * b.1 == (a.1 * bq) * g) by (nonlinear_arith)
        requires
            bq * g == b.1,
    ;
    vstd::arithmetic::div_mod::lemma_div_multiples_vanish(a.1 * bq, g);
    vstd::arithmetic::mul::lemma_mul_is_commutative(a.1 * bq, g);
    assert(lcm_den(a, b) == a.1 * bq);
    assert(1 <= bq <= b.1) by (nonlinear_arith)
        requires
            bq * g == b.1,
            g >= 1,
            b.1 >= 1,
    ;
    assert(1 <= a.1 * bq <= 65025) by (nonlinear_arith)
        requires
            1 <= a.1 <= 255,
            1 <= bq <= b.1,
            b.1 <= 255,
    ;
}

impl vstd::std_specs::ops::AddSpecImpl for Timespan {
    open spec fn obeys_add_spec() -> bool {
        true
    }

    open spec fn add_req(self, rhs: Timespan) -> bool {
        add_ok(self@, rhs@)
    }

    open spec fn add_spec(self, rhs: Timespan) -> Timespan {
        Timespan::from_view(add_view(self@, rhs@))
    }
}

impl AddAssign for Timespan {
    fn add_assign(&mut self, rhs: Timespan)
        requires
            add_ok(old(self)@, rhs@),
        ensures
            final(self)@ == add_view(old(self)@, rhs@),
    {
        *self = *self + rhs;
    }
}

impl Sub for Timespan {
    type Output = Timespan;

    fn sub(self, rhs: Timespan) -> (r: Timespan)
        ensures
            r@ == add_view(self@, neg_view(rhs@)),
            is_reduced(r@),
    {
        self + rhs.neg()
    }
}

impl vstd::std_specs::ops::SubSpecImpl for Timespan {
    open spec fn obeys_sub_spec() -> bool {
        true
    }

    open spec fn sub_req(self, rhs: Timespan) -> bool {
        &&& rhs@.0 != i32::MIN
        &&& add_ok(self@, neg_view(rhs@))
    }

    open spec fn sub_spec(self, rhs: Timespan) -> Timespan {
        Timespan::from_view(add_view(self@, neg_view(rhs@)))
    }
}

impl Mul for Timespan {
    type Output = Timespan;

    fn mul(self, rhs: Timespan) -> (r: Timespan)
        ensures
            r@ == mul_view(self@, rhs@),
            is_reduced(r@),
    {
        proof {
            use_type_invariant(&self);
            use_type_invariant(&rhs);
            lemma_den_facts(self@, rhs@);
            assert(-4611686018427387904 <= self@.0 * rhs@.0 <= 4611686018427387904)
                by (nonlinear_arith)
                requires
                    in_i32(self@.0),
                    in_i32(rhs@.0),
            ;
        }
        let n: i64 = self.n as i64 * rhs.n as i64;
        let d: u16 = self.d as u16 * rhs.d as u16;
        let a: u64 = if n < 0 {
            (-n) as u64
        } else {
            n as u64
        };
        let g = gcd_u64(a, d as u64);
        proof {
            lemma_gcd_divides(a as nat, d as nat);
            vstd::arithmetic::div_mod::lemma_div_is_ordered_by_denominator(d as int, 1, g as int);
            vstd::arithmetic::div_mod::lemma_div_non_zero(d as int, g as int);
        }
        let d2: u16 = d / g as u16;
        if d2 <= 255 {
            let n2: i64 = n / (g as i64);
            Timespan::new(n2 as i32, d2 as u8)
        } else {
            let x = to_double_exec(self.n, self.d);
            let y = to_double_exec(rhs.n, rhs.d);
            approximate_double(double_mul_exec(x, y))
        }
    }
}

impl vstd::std_specs::ops::MulSpecImpl for Timespan {
    open spec fn obeys_mul_spec() -> bool {
        true
    }

    open spec fn mul_req(self, rhs: Timespan) -> bool {
        mul_ok(self@, rhs@)
    }

    open spec fn mul_spec(self, rhs: Timespan) -> Timespan {
        Timespan::from_view(mul_view(self@, rhs@))
    }
}

impl Div for Timespan {
    type Output = Timespan;

    fn div(self, rhs: Timespan) -> (r: Timespan)
        ensures
            r@ == div_view(self@, rhs@),
            is_reduced(r@),
    {
        proof {
            use_type_invariant(&self);
            use_type_invariant(&rhs);
            lemma_i32_times_u8(self@.0, rhs@.1);
            assert(1 <= abs(self@.1 * rhs@.0) <= 547608330240) by (nonlinear_arith)
                requires
                    1 <= self@.1 <= 255,
                    1 <= abs(rhs@.0) <= 2147483648,
            ;
            assert(rhs@.0 < 0 ==> self@.1 * rhs@.0 < 0) by (nonlinear_arith)
                requires
                    1 <= self@.1,
            ;
            assert(rhs@.0 > 0 ==> self@.1 * rhs@.0 > 0) by (nonlinear_arith)
                requires
                    1 <= self@.1,
            ;
        }
        let n0: i64 = self.n as i64 * rhs.d as i64;
        let d0: i64 = self.d as i64 * rhs.n as i64;
        let (n, d): (i64, i64) = if rhs.n < 0 {
            (-n0, -d0)
        } else {
            (n0, d0)
        };
        assert(n == div_num(self@, rhs@) && d == div_den(self@, rhs@));
        assert(1 <= d <= 547608330240);
        let a: u64 = if n < 0 {
            (-n) as u64
        } else {
            n as u64
        };
        let g = gcd_u64(a, d as u64);
        proof {
            lemma_gcd_divides(a as nat, d as nat);
            vstd::arithmetic::div_mod::lemma_div_non_zero(d as int, g as int);
        }
        let d2: i64 = d / g as i64;
        if d2 <= 255 {
            proof {
                lemma_abs_trunc_div(n as int, g as int);
                assert(abs(n as int) == abs(self@.0 * rhs@.1));
                assert(abs(n as int) <= i32::MAX);
                if n == 0 {
                    assert(self.n == 0) by (nonlinear_arith)
                        requires
                            n0 == self.n * rhs.d,
                            n0 == 0,
                            rhs.d > 0,
                    ;
                    assert(gcd_of(0, self.d as nat) == self.d) by {
                        assert(0nat % (self.d as nat) == 0);
                        assert(gcd_of(self.d as nat, 0) == self.d);
                    }
                    assert(self.d == 1);
                    assert(d == abs(rhs.n as int)) by (nonlinear_arith)
                        requires
                            d0 == self.d * rhs.n,
                            self.d == 1,
                            d == (if rhs.n < 0 { -d0 } else { d0 as int }),
                    ;
                } else {
                    assert(g <= a);
                }
            }
            let n2: i64 = n / (g as i64);
            Timespan::new(n2 as i32, d2 as u8)
        } else {
            let x = to_double_exec(self.n, self.d);
            let y = to_double_exec(rhs.n, rhs.d);
            approximate_double(double_div_exec(x, y))
        }
    }
}

impl vstd::std_specs::ops::DivSpecImpl for Timespan {
    open spec fn obeys_div_spec() -> bool {
        true
    }

    open spec fn div_req(self, rhs: Timespan) -> bool {
        &&& rhs@.0 != 0
        &&& abs(self@.0 * rhs@.1) <= i32::MAX
    }

    open spec fn div_spec(self, rhs: Timespan) -> Timespan {
        Timespan::from_view(div_view(self@, rhs@))
    }
}

impl Timespan {
    /// The two cross products `self.n * other.d` and `other.n * self.d`,
    /// whose order is the order of the two rationals.
    fn cross_products(&self, other: &Timespan) -> (r: (i64, i64))
        ensures
            r.0 == self@.0 * other@.1,
            r.1 == other@.0 * self@.1,
    {
        proof {
            lemma_i32_times_u8(self@.0, other@.1);
            lemma_i32_times_u8(other@.0, self@.1);
        }
        (self.n as i64 * other.d as i64, other.n as i64 * self.d as i64)
    }
}

/// `<=` on fractions is transitive where denominators are positive (the
/// smallest may also be a zero denominator).
pub proof fn lemma_le_trans(x: (int, int), m: (int, int), t: (int, int))
    requires
        x.1 >= 0,
        m.1 > 0,
        t.1 > 0,
        !less_value(m, x),
        !less_value(t, m),
    ensures
        !less_value(t, x),
{
    assert(x.0 * t.1 <= t.0 * x.1) by (nonlinear_arith)
        requires
            x.1 >= 0,
            m.1 > 0,
            t.1 > 0,
            x.0 * m.1 <= m.0 * x.1,
            m.0 * t.1 <= t.0 * m.1,
    ;
}

/// The order of two fractions with positive denominators.
pub open spec fn compare_values(a: (int, int), b: (int, int)) -> Ordering {
    if less_value(a, b) {
        Ordering::Less
    } else if same_value(a, b) {
        Ordering::Equal
    } else {
        Ordering::Greater
    }
}

impl PartialOrd for Timespan {
    fn partial_cmp(&self, other: &Timespan) -> (r: Option<Ordering>)
        ensures
            r == Some(compare_values(self@, other@)),
    {
        let (x, y) = self.cross_products(other);
        if x < y {
            Some(Ordering::Less)
        } else if x == y {
            Some(Ordering::Equal)
        } else {
            Some(Ordering::Greater)
        }
    }
}

impl vstd::std_specs::cmp::PartialOrdSpecImpl for Timespan {
    open spec fn obeys_partial_cmp_spec() -> bool {
        true
    }

    open spec fn partial_cmp_spec(&self, other: &Timespan) -> Option<Ordering> {
        Some(compare_values(self@, other@))
    }
}

/// Division is exact where the quotient's reduced denominator fits in a
/// `u8`: `a / b` then denotes the rational `(a.0 * b.1) / (a.1 * b.0)`,
/// sign included, with a positive denominator.
pub proof fn lemma_div_exact(a: (int, int), b: (int, int))
    requires
        is_reduced(a),
        is_reduced(b),
        b.0 != 0,
        abs(a.0 * b.1) <= i32::MAX,
        abs(a.1 * b.0) / (gcd_of(abs(a.0 * b.1) as nat, abs(a.1 * b.0) as nat) as int) <= 255,
    ensures
        div_view(a, b).1 > 0,
        same_value(div_view(a, b), (a.0 * b.1, a.1 * b.0)),
{
    let p = a.0 * b.1;
    let q = a.1 * b.0;
    let n = div_num(a, b);
    let d = div_den(a, b);
    assert(q < 0 <==> b.0 < 0) by (nonlinear_arith)
        requires
            a.1 >= 1,
            q == a.1 * b.0,
            b.0 != 0,
    ;
    assert(q != 0) by (nonlinear_arith)
        requires
            a.1 >= 1,
            q == a.1 * b.0,
            b.0 != 0,
    ;
    assert(abs(n) == abs(p) && d == abs(q) && d >= 1);
    let g = div_gcd(a, b);
    assert(g == gcd_of(abs(p) as nat, abs(q) as nat) as int);
    crate::numtheory::lemma_gcd_divides(abs(p) as nat, abs(q) as nat);
    assert(g >= 1);
    lemma_abs_trunc_div(n, g);
    lemma_fundamental_div_mod(d, g);
    let n1 = trunc_div(n, g);
    let d1 = d / g;
    assert(d1 * g == d) by (nonlinear_arith)
        requires
            d == g * (d / g) + d % g,
            d % g == 0,
            d1 == d / g,
    ;
    assert(d1 >= 1) by (nonlinear_arith)
        requires
            d1 * g == d,
            d >= 1,
            g >= 1,
    ;
    assert(n1 * g == n);
    assert(abs(n1) <= abs(n));
    assert(div_view(a, b) == reduce(n1, d1));
    lemma_reduce(n1, d1);
    let r = reduce(n1, d1);
    assert(same_value((n1, d1), (n, d))) by (nonlinear_arith)
        requires
            n1 * g == n,
            d1 * g == d,
    ;
    assert(same_value((n, d), (p, q))) by (nonlinear_arith)
        requires
            (b.0 < 0 && n == -p && d == -q) || (b.0 >= 0 && n == p && d == q),
    ;
    crate::arithmetic::lemma_same_value_trans(r, (n1, d1), (n, d));
    crate::arithmetic::lemma_same_value_trans(r, (n, d), (p, q));
}

/// Multiplication is exact where the product's reduced denominator fits in
/// a `u8` and its reduced numerator in an `i32`: `a * b` then denotes the
/// rational `(a.0 * b.0) / (a.1 * b.1)`.
pub proof fn lemma_mul_exact(a: (int, int), b: (int, int))
    requires
        is_reduced(a),
        is_reduced(b),
        (a.1 * b.1) / (gcd_of(abs(a.0 * b.0) as nat, (a.1 * b.1) as nat) as int) <= 255,
        in_i32(trunc_div(a.0 * b.0, gcd_of(abs(a.0 * b.0) as nat, (a.1 * b.1) as nat) as int)),
    ensures
        mul_view(a, b).1 > 0,
        same_value(mul_view(a, b), (a.0 * b.0, a.1 * b.1)),
{
    let n = a.0 * b.0;
    let d = a.1 * b.1;
    assert(d >= 1) by (nonlinear_arith)
        requires
            a.1 >= 1,
            b.1 >= 1,
            d == a.1 * b.1,
    ;
    let g = mul_gcd(a, b);
    crate::numtheory::lemma_gcd_divides(abs(n) as nat, d as nat);
    assert(g >= 1);
    lemma_abs_trunc_div(n, g);
    lemma_fundamental_div_mod(d, g);
    let n1 = trunc_div(n, g);
    let d1 = d / g;
    assert(d1 * g == d) by (nonlinear_arith)
        requires
            d == g * (d / g) + d % g,
            d % g == 0,
            d1 == d / g,
    ;
    assert(d1 >= 1) by (nonlinear_arith)
        requires
            d1 * g == d,
            d >= 1,
            g >= 1,
    ;
    assert(n1 * g == n);
    assert(mul_view(a, b) == reduce(n1, d1));
    lemma_reduce(n1, d1);
    assert(same_value((n1, d1), (n, d))) by (nonlinear_arith)
        requires
            n1 * g == n,
            d1 * g == d,
    ;
    crate::arithmetic::lemma_same_value_trans(reduce(n1, d1), (n1, d1), (n, d));
}

/// Reducing keeps the sign of the numerator.
proof fn lemma_reduce_sign(n: int, d: int)
    requires
        d >= 1,
    ensures
        n >= 0 ==> reduce(n, d).0 >= 0,
        n <= 0 ==> reduce(n, d).0 <= 0,
{
    let g = gcd_of(abs(n) as nat, d as nat) as int;
    crate::numtheory::lemma_gcd_divides(abs(n) as nat, d as nat);
    if n >= 0 {
        vstd::arithmetic::div_mod::lemma_div_pos_is_pos(n, g);
    } else {
        vstd::arithmetic::div_mod::lemma_div_pos_is_pos(-n, g);
    }
}

/// An exact result's numerator has the sign of the rational it denotes.
proof fn lemma_same_value_sign(r: (int, int), p: int, q: int, s: int)
    requires
        r.1 > 0,
        q != 0,
        same_value(r, (p, q)),
        s > 0 ==> p * q > 0,
        s < 0 ==> p * q < 0,
        s == 0 ==> p == 0,
    ensures
        s > 0 ==> r.0 >= 0,
        s < 0 ==> r.0 <= 0,
        s == 0 ==> r.0 == 0,
{
    assert(r.0 * q == p * r.1);
    assert(r.0 * (q * q) == (p * q) * r.1) by (nonlinear_arith)
        requires
            r.0 * q == p * r.1,
    ;
    assert(q * q > 0) by (nonlinear_arith)
        requires
            q != 0,
    ;
    if s > 0 {
        assert(r.0 >= 0) by (nonlinear_arith)
            requires
                r.0 * (q * q) == (p * q) * r.1,
                q * q > 0,
                r.1 > 0,
                p * q > 0,
        ;
    } else if s < 0 {
        assert(r.0 <= 0) by (nonlinear_arith)
            requires
                r.0 * (q * q) == (p * q) * r.1,
                q * q > 0,
                r.1 > 0,
                p * q < 0,
        ;
    } else {
        assert(r.0 == 0) by (nonlinear_arith)
            requires
                r.0 * q == p * r.1,
                p == 0,
                q != 0,
        ;
    }
}

/// The sign of a double's rounding is that of its source.
proof fn lemma_to_double_sign(t: (int, int))
    requires
        t.1 >= 1,
    ensures
        t.0 > 0 ==> to_double(t).0 > 0,
        t.0 < 0 ==> to_double(t).0 < 0,
        t.0 == 0 ==> to_double(t).0 == 0,
{
    crate::doubles::lemma_round_double_sign(t.0, t.1, 0);
}

/// A quotient has the sign of `a.0 * b.0`, exact or approximated: positive
/// or zero where the signs agree, negative or zero where they differ, and
/// zero for a zero dividend.
pub proof fn lemma_div_sign(a: (int, int), b: (int, int))
    requires
        is_reduced(a),
        is_reduced(b),
        b.0 != 0,
        abs(a.0 * b.1) <= i32::MAX,
    ensures
        a.0 * b.0 > 0 ==> div_view(a, b).0 >= 0,
        a.0 * b.0 < 0 ==> div_view(a, b).0 <= 0,
        a.0 == 0 ==> div_view(a, b).0 == 0,
{
    let p = a.0 * b.1;
    let q = a.1 * b.0;
    let n = div_num(a, b);
    let d = div_den(a, b);
    let g = div_gcd(a, b);
    assert(q != 0 && (q < 0 <==> b.0 < 0)) by (nonlinear_arith)
        requires
            a.1 >= 1,
            q == a.1 * b.0,
            b.0 != 0,
    ;
    assert(abs(n) == abs(p) && d == abs(q));
    let sgn = a.0 * b.0;
    if d / g <= 255 {
        lemma_div_exact(a, b);
        let s: int = if sgn > 0 { 1 } else if sgn < 0 { -1 } else { 0 };
        assert(p * q == sgn * (a.1 * b.1)) by (nonlinear_arith)
            requires
                p == a.0 * b.1,
                q == a.1 * b.0,
                sgn == a.0 * b.0,
        ;
        assert(a.1 * b.1 > 0) by (nonlinear_arith)
            requires
                a.1 >= 1,
                b.1 >= 1,
        ;
        assert(sgn > 0 ==> p * q > 0) by (nonlinear_arith)
            requires
                p * q == sgn * (a.1 * b.1),
                a.1 * b.1 > 0,
        ;
        assert(sgn < 0 ==> p * q < 0) by (nonlinear_arith)
            requires
                p * q == sgn * (a.1 * b.1),
                a.1 * b.1 > 0,
        ;
        assert(sgn == 0 ==> p == 0) by (nonlinear_arith)
            requires
                sgn == a.0 * b.0,
                p == a.0 * b.1,
                b.0 != 0,
        ;
        lemma_same_value_sign(div_view(a, b), p, q, s);
    } else {
        let x = to_double(a);
        let y = to_double(b);
        lemma_to_double_sign(a);
        lemma_to_double_sign(b);
        let pz = if y.0 < 0 { -x.0 } else { x.0 };
        crate::doubles::lemma_round_double_sign(pz, abs(y.0), x.1 - y.1);
        let z = crate::doubles::double_div(x, y);
        crate::doubles::lemma_numerator_255_sign(z);
        lemma_reduce_sign(crate::doubles::numerator_255(z), 255);
        assert(sgn > 0 ==> (a.0 > 0 && b.0 > 0) || (a.0 < 0 && b.0 < 0)) by (nonlinear_arith)
            requires
                sgn == a.0 * b.0,
        ;
        assert(sgn < 0 ==> (a.0 > 0 && b.0 < 0) || (a.0 < 0 && b.0 > 0)) by (nonlinear_arith)
            requires
                sgn == a.0 * b.0,
        ;
        if a.0 == 0 {
            crate::numtheory::lemma_gcd_divides(0, d as nat);
        }
    }
}

/// A product has the sign of `a.0 * b.0`, exact or approximated.
pub proof fn lemma_mul_sign(a: (int, int), b: (int, int))
    requires
        is_reduced(a),
        is_reduced(b),
        mul_ok(a, b),
    ensures
        a.0 * b.0 > 0 ==> mul_view(a, b).0 >= 0,
        a.0 * b.0 < 0 ==> mul_view(a, b).0 <= 0,
        a.0 * b.0 == 0 ==> mul_view(a, b).0 == 0,
{
    let n = a.0 * b.0;
    let d = a.1 * b.1;
    let g = mul_gcd(a, b);
    assert(d >= 1) by (nonlinear_arith)
        requires
            a.1 >= 1,
            b.1 >= 1,
            d == a.1 * b.1,
    ;
    if d / g <= 255 {
        lemma_mul_exact(a, b);
        let s: int = if n > 0 { 1 } else if n < 0 { -1 } else { 0 };
        assert(n > 0 ==> n * d > 0) by (nonlinear_arith)
            requires
                d >= 1,
        ;
        assert(n < 0 ==> n * d < 0) by (nonlinear_arith)
            requires
                d >= 1,
        ;
        lemma_same_value_sign(mul_view(a, b), n, d, s);
    } else {
        let x = to_double(a);
        let y = to_double(b);
        lemma_to_double_sign(a);
        lemma_to_double_sign(b);
        assert(n > 0 ==> x.0 * y.0 > 0) by (nonlinear_arith)
            requires
                n == a.0 * b.0,
                a.0 > 0 ==> x.0 > 0,
                a.0 < 0 ==> x.0 < 0,
                a.0 == 0 ==> x.0 == 0,
                b.0 > 0 ==> y.0 > 0,
                b.0 < 0 ==> y.0 < 0,
                b.0 == 0 ==> y.0 == 0,
        ;
        assert(n < 0 ==> x.0 * y.0 < 0) by (nonlinear_arith)
            requires
                n == a.0 * b.0,
                a.0 > 0 ==> x.0 > 0,
                a.0 < 0 ==> x.0 < 0,
                a.0 == 0 ==> x.0 == 0,
                b.0 > 0 ==> y.0 > 0,
                b.0 < 0 ==> y.0 < 0,
                b.0 == 0 ==> y.0 == 0,
        ;
        assert(n == 0 ==> x.0 * y.0 == 0) by (nonlinear_arith)
            requires
                n == a.0 * b.0,
                a.0 == 0 ==> x.0 == 0,
                b.0 == 0 ==> y.0 == 0,
        ;
        crate::doubles::lemma_round_double_sign(x.0 * y.0, 1, x.1 + y.1);
        let z = crate::doubles::double_mul(x, y);
        crate::doubles::lemma_numerator_255_sign(z);
        lemma_reduce_sign(crate::doubles::numerator_255(z), 255);
        if n == 0 {
            crate::numtheory::lemma_gcd_divides(0, d as nat);
        }
    }
}

} // verus!
