use osctet::beat::Beat;

fn parts(b: Beat) -> (i32, u8) {
    (b.num(), b.den())
}

#[test]
fn beat_test_new() {
    assert_eq!(parts(Beat::new(1, 1)), (1, 1));
    assert_eq!(parts(Beat::new(2, 2)), (1, 1));
    assert_eq!(parts(Beat::new(10, 6)), (5, 3));
}

#[test]
fn beat_test_add() {
    let a = Beat::new(1, 1);
    assert_eq!(a + a, Beat::new(2, 1));
    assert_eq!(a + -a, Beat::new(0, 1));
    assert_eq!(a + Beat::new(1, 2), Beat::new(3, 2));
}

#[test]
fn beat_test_add_overflow() {
    assert_eq!(Beat::new(20, 19) + Beat::new(24, 23), Beat::new(535, 255))
}

#[test]
fn beat_overflow_follows_double_precision() {
    // 255 * (1/3 + 1/170) is 86.5 exactly, but 86.49999999999999 in doubles
    assert_eq!(Beat::new(1, 3) + Beat::new(1, 170), Beat::new(86, 255));
    for (a, b) in [((7, 17), (-5, 19)), ((1000, 251), (3, 127)), ((-123456, 13), (99, 29))] {
        let x = Beat::new(a.0, a.1);
        let y = Beat::new(b.0, b.1);
        let f = (a.0 as f64 / a.1 as f64 + b.0 as f64 / b.1 as f64) * 255.0;
        assert_eq!(x + y, Beat::new(f.round() as i32, 255));
    }
}
