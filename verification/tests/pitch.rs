use osctet::pitch::{Nominal, Note, Tuning};

const A4: Note = Note {
    arrows: 0,
    nominal: Nominal::A,
    equave: 4,
    sharps: 0,
};

const DEFAULT_ROOT: Note = Note {
    arrows: 0,
    nominal: Nominal::C,
    sharps: 0,
    equave: 4,
};

/// The equal division of the octave into `steps` steps.
fn divide(steps: u16, arrow_steps: u8) -> Tuning {
    Tuning {
        root: DEFAULT_ROOT,
        steps,
        generator_steps: (steps as f32 * 0.585).round() as u16,
        arrow_steps,
    }
}

#[test]
fn test_tuning_scale_index() {
    let t = divide(12, 1);
    assert_eq!(t.scale_index(&A4), (9, 4));
    assert_eq!(t.scale_index(&Note::new(0, Nominal::C, -1, 4)), (11, 3));
    assert_eq!(t.scale_index(&Note::new(1, Nominal::B, 0, 4)), (0, 5));
}

#[test]
fn test_notation() {
    let t = divide(12, 1);
    assert_eq!(t.notation(0, 4), vec![Note::new(0, Nominal::C, 0, 4)]);
    assert_eq!(t.notation(1, 3), vec![
        Note::new(0, Nominal::C, 1, 3),
        Note::new(0, Nominal::D, -1, 3),
        Note::new(1, Nominal::C, 0, 3),
        Note::new(-1, Nominal::D, 0, 3),
    ]);

    let t = divide(17, 1);
    assert_eq!(t.notation(15, 4), vec![
        Note::new(0, Nominal::A, 1, 4),
        Note::new(0, Nominal::C, -1, 5),
        Note::new(-1, Nominal::B, 0, 4),
    ]);

    let t = divide(15, 0);
    assert_eq!(t.notation(1, 4), Vec::new()); // no notation for desired note
}

#[test]
fn test_step_shift() {
    let t = divide(12, 1);
    assert_eq!(A4.step_shift(1, &t), Note {
        sharps: 1,
        ..A4
    });
    assert_eq!(Note::new(0, Nominal::B, 0, 4).step_shift(-1, &t), Note {
        nominal: Nominal::B,
        sharps: -1,
        ..A4
    });
    assert_eq!(Note::new(0, Nominal::B, 0, 4).step_shift(1, &t), Note {
        nominal: Nominal::C,
        equave: 5,
        ..A4
    });

    let t = divide(41, 1);
    assert_eq!(Note::new(0, Nominal::E, 0, 4).step_shift(-1, &t), Note {
        nominal: Nominal::E,
        arrows: -1,
        ..A4
    });

    let t = divide(15, 0);
    assert_eq!(A4.step_shift(1, &t), A4); // no notation for desired note
}

#[test]
fn test_octave_offset() {
    let t = divide(12, 1);
    assert_eq!(t.octave_offet(&A4), 0);
    assert_eq!(t.octave_offet(&Note::new(0, Nominal::B, 1, 4)), 1);
    assert_eq!(t.octave_offet(&Note::new(0, Nominal::C, -1, 4)), -1);
    assert_eq!(t.octave_offet(&Note::new(0, Nominal::A, 5, 4)), 1);
    assert_eq!(t.octave_offet(&Note::new(-1, Nominal::B, 0, 4)), 0);
}

#[test]
fn notation_names_its_scale_index() {
    for steps in [5u16, 12, 17, 19, 22, 31, 41] {
        let t = divide(steps, 1);
        for index in 0..steps as usize {
            for note in t.notation(index, 4) {
                assert_eq!(t.scale_index(&note), (index, 4));
            }
        }
    }
}

#[test]
fn cycle_notation_visits_equivalents() {
    let t = divide(12, 1);
    let c_sharp = Note::new(0, Nominal::C, 1, 3);
    assert_eq!(c_sharp.cycle_notation(&t), Note::new(0, Nominal::D, -1, 3));
    assert_eq!(Note::new(-1, Nominal::D, 0, 3).cycle_notation(&t), c_sharp);
    // a note outside its shortest notations moves to the first of them
    assert_eq!(Note::new(0, Nominal::B, 2, 2).cycle_notation(&t), c_sharp);
}

#[test]
fn size_is_step_count() {
    assert_eq!(divide(31, 1).size(), 31);
}

#[test]
fn nominal_steps_cycle() {
    for n in Nominal::variants() {
        let (next, up) = n.next();
        let (back, down) = next.prev();
        assert_eq!(back, n);
        assert_eq!(up + down, 0);
    }
    assert_eq!(Nominal::B.next(), (Nominal::C, 1));
    assert_eq!(Nominal::C.prev(), (Nominal::B, -1));
    assert_eq!(Nominal::F.vector(), (2, -4));
    assert_eq!(Nominal::G.char(), 'G');
}

#[test]
fn note_text() {
    assert_eq!(Note::new(0, Nominal::C, 1, 4).to_string(), "C\u{81}4");
    assert_eq!(Note::new(-2, Nominal::E, 0, -1).to_string(), "\u{8c}E-1");
    assert_eq!(Note::default().to_string(), "C4");
    assert_eq!(Note::new(3, Nominal::A, -3, 10).arrow_char(), '\u{8a}');
    assert_eq!(Note::new(3, Nominal::A, -3, 10).accidental_char(), '\u{86}');
    assert_eq!(A4.arrow_char(), ' ');
    assert_eq!(A4.accidental_char(), '-');
}
