use osctet::timespan::Timespan;
use osctet::beat::Beat;

#[test]
fn addition_commutes() {
    let pairs = [((1, 3), (1, 4)), ((20, 19), (24, 23)), ((-7, 5), (2, 9)), ((0, 1), (5, 7))];
    for ((a, b), (c, d)) in pairs {
        let x = Timespan::new(a, b);
        let y = Timespan::new(c, d);
        assert_eq!(x + y, y + x);
    }
}

#[test]
fn zero_is_identity_and_self_difference() {
    for (n, d) in [(1, 4), (-3, 7), (255, 255), (1000, 17)] {
        let t = Timespan::new(n, d);
        assert_eq!(t + Timespan::zero(), t);
        assert_eq!(Timespan::zero() + t, t);
        assert_eq!(t - t, Timespan::zero());
    }
}

#[test]
fn sum_is_exact_when_denominator_fits() {
    let s = Timespan::new(1, 6) + Timespan::new(1, 10);
    assert_eq!((s.num(), s.den()), (4, 15));
}

#[test]
fn sum_approximates_within_half_of_255th() {
    let s = Timespan::new(20, 19) + Timespan::new(24, 23);
    let exact = 20.0 / 19.0 + 24.0 / 23.0;
    let got = s.num() as f64 / s.den() as f64;
    assert!((got - exact).abs() <= 1.0 / 510.0);
    assert_eq!(255 % s.den(), 0);
}

#[test]
fn product_is_exact_when_denominator_fits() {
    assert_eq!(Timespan::new(3, 4) * Timespan::new(2, 9), Timespan::new(1, 6));
    assert_eq!(Timespan::new(-3, 4) * Timespan::new(2, 9), Timespan::new(-1, 6));
}

#[test]
fn division_and_order() {
    assert_eq!(Timespan::new(3, 4) / Timespan::new(3, 2), Timespan::new(1, 2));
    assert!(Timespan::new(1, 3) < Timespan::new(1, 2));
    assert!(Timespan::new(-1, 2) < Timespan::zero());
    assert!(Timespan::new(2, 4) <= Timespan::new(1, 2));
    assert_eq!(Timespan::new(-5, 3).abs(), Timespan::new(5, 3));
    let mut t = Timespan::new(1, 2);
    t += Timespan::new(1, 3);
    assert_eq!(t, Timespan::new(5, 6));
}

#[test]
fn beat_sum_of_small_fractions() {
    // the sum keeps its common denominator and scales each numerator by
    // its own denominator's cofactor
    let s = Beat::new(1, 4) + Beat::new(1, 4);
    assert_eq!((s.num(), s.den()), (2, 4));
    let s = Beat::new(1, 2) + Beat::new(1, 3);
    assert_eq!((s.num(), s.den()), (5, 6));
    assert_eq!((Beat::new(-6, 4).num(), Beat::new(-6, 4).den()), (-3, 2));
}

#[test]
fn legacy_tick_counts() {
    assert_eq!(Timespan::from_legacy_ticks(5040), Timespan::new(1, 1));
    assert_eq!(Timespan::from_legacy_ticks(17640), Timespan::new(7, 2));
    assert_eq!(Timespan::from_legacy_ticks(16), Timespan::new(1, 255));
    assert_eq!(Timespan::from_legacy_ticks(1), Timespan::zero());
}
