use osctet::timespan::Timespan;

fn parts(t: Timespan) -> (i32, u8) {
    (t.num(), t.den())
}

#[test]
fn timespan_test_new() {
    assert_eq!(parts(Timespan::new(1, 1)), (1, 1));
    assert_eq!(parts(Timespan::new(2, 2)), (1, 1));
    assert_eq!(parts(Timespan::new(10, 6)), (5, 3));
}

#[test]
fn timespan_test_add() {
    let t = Timespan::new(1, 1);
    assert_eq!(t + t, Timespan::new(2, 1));
    assert_eq!(t + -t, Timespan::new(0, 1));
    assert_eq!(t + Timespan::new(1, 2), Timespan::new(3, 2));
    assert_eq!(Timespan::new(14, 13) + Timespan::new(18, 17),
        Timespan::new(472, 221));

    let t = Timespan::new(1, 4);
    assert_eq!(Timespan::zero() + t, t);
    assert_eq!(t + Timespan::new(3, 4), Timespan::new(1, 1));
}

#[test]
fn timespan_test_add_overflow() {
    assert_eq!(Timespan::new(20, 19) + Timespan::new(24, 23), Timespan::new(535, 255))
}

#[test]
fn test_sub() {
    let t = Timespan::new(1, 1);
    assert_eq!(t - t, Timespan::zero());
    assert_eq!(t - Timespan::new(2, 1), Timespan::new(-1, 1));
}

#[test]
fn test_mul() {
    let t = Timespan::new(1, 1);
    assert_eq!(t * t, t);
    assert_eq!(t * Timespan::zero(), Timespan::zero());
    assert_eq!(Timespan::new(7, 6) * Timespan::new(4, 3), Timespan::new(14, 9));
    assert_eq!(Timespan::new(14, 13) * Timespan::new(18, 17),
        Timespan::new(252, 221));
}

#[test]
fn test_mul_overflow() {
    assert_eq!(Timespan::new(20, 19) * Timespan::new(24, 23), Timespan::new(280, 255))
}

#[test]
fn test_div() {
    let t = Timespan::new(1, 1);
    assert_eq!(t / t, t);
    assert_eq!(Timespan::new(3, 4) / Timespan::new(1, 2), Timespan::new(3, 2));
    assert_eq!(t / Timespan::new(-1, 1), Timespan::new(-1, 1));
    assert_eq!(t / Timespan::new(-1, 2), Timespan::new(-2, 1));
    assert_eq!(Timespan::new(-3, 4) / Timespan::new(-1, 2), Timespan::new(3, 2));
}

#[test]
fn test_div_overflow() {
    // 1/272 is approximated over 255
    assert_eq!(Timespan::new(1, 16) / Timespan::new(17, 1), Timespan::new(1, 255));
    assert_eq!(Timespan::new(1, 16) / Timespan::new(-17, 1), Timespan::new(-1, 255));
    // 20/19 / (23/24) == 480/437, about 280.1/255
    assert_eq!(Timespan::new(20, 19) / Timespan::new(23, 24), Timespan::new(280, 255));
}

#[test]
fn overflowing_sum_follows_double_precision() {
    // 255 * (1/3 + 1/170) is 86.5 exactly, but 86.49999999999999 in doubles
    assert_eq!(Timespan::new(1, 3) + Timespan::new(1, 170), Timespan::new(86, 255));
    assert_eq!(Timespan::new(-1, 3) + Timespan::new(-1, 170), Timespan::new(-86, 255));
    assert_eq!(Timespan::new(1, 170) + Timespan::new(1, 3), Timespan::new(86, 255));
}

fn gcd_u64(mut a: u64, mut b: u64) -> u64 {
    while b != 0 {
        let t = a % b;
        a = b;
        b = t;
    }
    a
}

fn approx_f64(f: f64) -> Timespan {
    Timespan::new((f * 255.0).round() as i32, 255)
}

fn as_f64(t: Timespan) -> f64 {
    t.num() as f64 / t.den() as f64
}

fn samples() -> Vec<Timespan> {
    let mut v = Vec::new();
    let nums = [1i32, -1, 2, 7, -13, 100, 255, -1000, 65537, 1 << 20, -(1 << 24), i32::MAX / 3];
    for d in [3u8, 7, 17, 19, 23, 64, 127, 128, 170, 251, 255] {
        for n in nums {
            v.push(Timespan::new(n, d));
        }
    }
    v
}

#[test]
fn overflow_approximations_match_double_arithmetic() {
    let s = samples();
    for &a in &s {
        for &b in &s {
            let (ad, bd) = (a.den() as u64, b.den() as u64);
            if ad * bd / gcd_u64(ad, bd) > 255 {
                let sum = a.num() as i64 * bd as i64 + b.num() as i64 * ad as i64;
                if sum.abs() < 1 << 30 {
                    assert_eq!(a + b, approx_f64(as_f64(a) + as_f64(b)));
                }
            }
            let n = a.num() as i64 * b.num() as i64;
            let d = ad * bd;
            if d / gcd_u64(n.unsigned_abs(), d) > 255 {
                assert_eq!(a * b, approx_f64(as_f64(a) * as_f64(b)));
            }
            let qn = a.num() as i64 * bd as i64;
            let qd = (ad as i64 * b.num() as i64).unsigned_abs();
            if qn.abs() <= i32::MAX as i64 && qd / gcd_u64(qn.unsigned_abs(), qd) > 255 {
                assert_eq!(a / b, approx_f64(as_f64(a) / as_f64(b)));
            }
        }
    }
}

#[test]
fn legacy_ticks_match_double_arithmetic() {
    for v in [1u64, 2, 11, 13, 997, 5041, 123457, 1 << 40, (1 << 53) + 1, u64::MAX / 7, u64::MAX] {
        if 5040 / gcd_u64(v, 5040) > 255 {
            assert_eq!(Timespan::from_legacy_ticks(v), approx_f64(v as f64 / 5040.0));
        }
    }
}

#[test]
fn test_mul_reduces_before_narrowing() {
    // the product numerator 6_000_000_000 leaves i32, the reduced one does not
    assert_eq!(Timespan::new(100000, 3) * Timespan::new(60000, 1), Timespan::new(2000000000, 1));
}
