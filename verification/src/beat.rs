//! Beat fractions with a small denominator.

use vstd::prelude::*;
use core::ops::{Add, Neg};

verus! {

use crate::doubles::{numerator_255, double_add, to_double, to_double_exec, double_add_exec, numerator_255_exec};
use crate::numtheory::{gcd_u32, gcd_u8, lemma_gcd_divides};
use crate::timespan::{
    in_i32, reduce, lemma_reduce,
    den_gcd, lcm_den,
};

/// A beat position as a fraction `n/d`.
#[derive(Clone, Copy, Debug, PartialEq, Structural)]
pub struct Beat {
    n: i32,
    d: u8,
}

impl View for Beat {
    type V = (int, int);

    /// Numerator and denominator.
    closed spec fn view(&self) -> (int, int) {
        (self.n as int, self.d as int)
    }
}

/// The numerators summed by beat addition when the least common denominator
/// fits: each numerator is scaled by its own denominator's cofactor.
pub open spec fn beat_add_terms(a: (int, int), b: (int, int)) -> (int, int) {
    (a.0 * (a.1 / den_gcd(a, b)), b.0 * (b.1 / den_gcd(a, b)))
}

/// The numerator over 255 that the double-precision sum of `a` and `b`
/// gives.
pub open spec fn beat_approx_numerator(a: (int, int), b: (int, int)) -> int {
    numerator_255(double_add(to_double(a), to_double(b)))
}

/// Beat addition stays within `i32` and never forms `i32::MIN` where the
/// result is normalized.
pub open spec fn beat_add_ok(a: (int, int), b: (int, int)) -> bool {
    if lcm_den(a, b) <= 255 {
        &&& in_i32(beat_add_terms(a, b).0)
        &&& in_i32(beat_add_terms(a, b).1)
        &&& in_i32(beat_add_terms(a, b).0 + beat_add_terms(a, b).1)
    } else {
        beat_approx_numerator(a, b) != i32::MIN
    }
}

/// The result of beat addition. When the least common denominator fits in a
/// `u8`, the unreduced fraction over it; otherwise the nearest fraction over
/// 255, reduced.
pub open spec fn beat_add_view(a: (int, int), b: (int, int)) -> (int, int) {
    if lcm_den(a, b) <= 255 {
        (beat_add_terms(a, b).0 + beat_add_terms(a, b).1, lcm_den(a, b))
    } else {
        reduce(beat_approx_numerator(a, b), 255)
    }
}

impl Beat {
    /// Every beat has a positive denominator.
    #[verifier::type_invariant]
    spec fn inv(self) -> bool {
        self.d > 0
    }

    /// The beat denoting the fraction `v`.
    pub closed spec fn from_view(v: (int, int)) -> Beat {
        Beat { n: v.0 as i32, d: v.1 as u8 }
    }

    /// Creates `n/d` in lowest terms.
    pub fn new(n: i32, d: u8) -> (r: Self)
        requires
            d > 0,
            n != i32::MIN,
        ensures
            r@ == reduce(n as int, d as int),
    {
        let a: u32 = (if n < 0 {
            -n
        } else {
            n
        }) as u32;
        let g = gcd_u32(a, d as u32);
        proof {
            lemma_reduce(n as int, d as int);
            lemma_gcd_divides(a as nat, d as nat);
        }
        Self { n: n / g as i32, d: d / g as u8 }
    }

    /// Returns the numerator.
    pub fn num(&self) -> (r: i32)
        ensures
            r == self@.0,
    {
        self.n
    }

    /// Returns the denominator.
    pub fn den(&self) -> (r: u8)
        ensures
            r == self@.1,
            r >= 1,
    {
        proof {
            use_type_invariant(self);
        }
        self.d
    }
}

impl Neg for Beat {
    type Output = Beat;

    fn neg(self) -> (r: Beat)
        ensures
            r@ == (-self@.0, self@.1),
    {
        proof {
            use_type_invariant(&self);
        }
        Self { n: -self.n, d: self.d }
    }
}

impl vstd::std_specs::ops::NegSpecImpl for Beat {
    open spec fn obeys_neg_spec() -> bool {
        true
    }

    open spec fn neg_req(self) -> bool {
        self@.0 != i32::MIN
    }

    open spec fn neg_spec(self) -> Beat {
        Beat::from_view((-self@.0, self@.1))
    }
}

impl Add for Beat {
    type Output = Beat;

    fn add(self, rhs: Beat) -> (r: Beat)
        ensures
            r@ == beat_add_view(self@, rhs@),
    {
        proof {
            use_type_invariant(&self);
            use_type_invariant(&rhs);
            crate::timespan::lemma_den_facts(self@, rhs@);
            lemma_gcd_divides(self.d as nat, rhs.d as nat);
        }
        let g = gcd_u8(self.d, rhs.d);
        let d: u16 = (self.d as u16 * rhs.d as u16) / g as u16;
        if d <= 255 {
            let n = self.n * (self.d / g) as i32 + rhs.n * (rhs.d / g) as i32;
            Self { n, d: d as u8 }
        } else {
            let x = to_double_exec(self.n, self.d);
            let y = to_double_exec(rhs.n, rhs.d);
            let n = numerator_255_exec(double_add_exec(x, y));
            Self::new(n, 255)
        }
    }
}

impl vstd::std_specs::ops::AddSpecImpl for Beat {
    open spec fn obeys_add_spec() -> bool {
        true
    }

    open spec fn add_req(self, rhs: Beat) -> bool {
        beat_add_ok(self@, rhs@)
    }

    open spec fn add_spec(self, rhs: Beat) -> Beat {
        Beat::from_view(beat_add_view(self@, rhs@))
    }
}

} // verus!
