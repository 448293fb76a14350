//! Tuning and notation utilities.

use vstd::prelude::*;

verus! {

use crate::strings::{decimal_text, push_char, push_decimal};
use crate::ui::text;

/// The seven note names.
#[derive(Clone, Copy, PartialEq, Eq, Debug, Structural)]
pub enum Nominal {
    A,
    B,
    C,
    D,
    E,
    F,
    G,
}

/// The (period, generator) mapping of a nominal, relative to A.
pub open spec fn nominal_vector(n: Nominal) -> (int, int) {
    match n {
        Nominal::A => (0, 0),
        Nominal::B => (-1, 2),
        Nominal::C => (1, -3),
        Nominal::D => (0, -1),
        Nominal::E => (-1, 1),
        Nominal::F => (2, -4),
        Nominal::G => (1, -2),
    }
}

/// The letter of a nominal.
pub open spec fn nominal_letter(n: Nominal) -> char {
    match n {
        Nominal::A => 'A',
        Nominal::B => 'B',
        Nominal::C => 'C',
        Nominal::D => 'D',
        Nominal::E => 'E',
        Nominal::F => 'F',
        Nominal::G => 'G',
    }
}

/// The nominal after `n` in the cycle A..G, and 1 where the step crosses
/// the octave line B->C.
pub open spec fn nominal_next(n: Nominal) -> (Nominal, i8) {
    match n {
        Nominal::A => (Nominal::B, 0),
        Nominal::B => (Nominal::C, 1),
        Nominal::C => (Nominal::D, 0),
        Nominal::D => (Nominal::E, 0),
        Nominal::E => (Nominal::F, 0),
        Nominal::F => (Nominal::G, 0),
        Nominal::G => (Nominal::A, 0),
    }
}

/// The nominal before `n` in the cycle A..G, and -1 where the step crosses
/// the octave line C->B.
pub open spec fn nominal_prev(n: Nominal) -> (Nominal, i8) {
    match n {
        Nominal::A => (Nominal::G, 0),
        Nominal::B => (Nominal::A, 0),
        Nominal::C => (Nominal::B, -1i8),
        Nominal::D => (Nominal::C, 0),
        Nominal::E => (Nominal::D, 0),
        Nominal::F => (Nominal::E, 0),
        Nominal::G => (Nominal::F, 0),
    }
}

/// The nominals in the order A..G.
pub open spec fn nominal_seq() -> Seq<Nominal> {
    seq![Nominal::A, Nominal::B, Nominal::C, Nominal::D, Nominal::E, Nominal::F, Nominal::G]
}

impl Nominal {
    /// All nominals, in the order A..G.
    pub fn variants() -> (r: [Nominal; 7])
        ensures
            r@ == nominal_seq(),
    {
        let r = [Nominal::A, Nominal::B, Nominal::C, Nominal::D, Nominal::E, Nominal::F, Nominal::G];
        assert(r@ =~= nominal_seq());
        r
    }

    /// Returns the (period, generator) mapping of this nominal, relative to
    /// the reference MIDI pitch.
    pub fn vector(&self) -> (r: (i32, i32))
        ensures
            (r.0 as int, r.1 as int) == nominal_vector(*self),
    {
        match self {
            Nominal::A => (0, 0),
            Nominal::B => (-1, 2),
            Nominal::C => (1, -3),
            Nominal::D => (0, -1),
            Nominal::E => (-1, 1),
            Nominal::F => (2, -4),
            Nominal::G => (1, -2),
        }
    }

    /// Returns the character used for the nominal.
    pub fn char(&self) -> (r: char)
        ensures
            r == nominal_letter(*self),
    {
        match self {
            Nominal::A => 'A',
            Nominal::B => 'B',
            Nominal::C => 'C',
            Nominal::D => 'D',
            Nominal::E => 'E',
            Nominal::F => 'F',
            Nominal::G => 'G',
        }
    }

    /// Returns the next nominal in the scale, along with octave offset.
    pub fn next(&self) -> (r: (Nominal, i8))
        ensures
            r == nominal_next(*self),
    {
        match self {
            Nominal::A => (Nominal::B, 0),
            Nominal::B => (Nominal::C, 1),
            Nominal::C => (Nominal::D, 0),
            Nominal::D => (Nominal::E, 0),
            Nominal::E => (Nominal::F, 0),
            Nominal::F => (Nominal::G, 0),
            Nominal::G => (Nominal::A, 0),
        }
    }

    /// Returns the previous nominal in the scale, along with octave offset.
    pub fn prev(&self) -> (r: (Nominal, i8))
        ensures
            r == nominal_prev(*self),
    {
        match self {
            Nominal::A => (Nominal::G, 0),
            Nominal::B => (Nominal::A, 0),
            Nominal::C => (Nominal::B, -1),
            Nominal::D => (Nominal::C, 0),
            Nominal::E => (Nominal::D, 0),
            Nominal::F => (Nominal::E, 0),
            Nominal::G => (Nominal::F, 0),
        }
    }
}

/// Stepping forward and then back returns to the same nominal, and the two
/// octave offsets cancel.
pub proof fn lemma_next_prev_inverse(n: Nominal)
    ensures
        nominal_prev(nominal_next(n).0).0 == n,
        nominal_next(n).1 + nominal_prev(nominal_next(n).0).1 == 0,
        nominal_next(nominal_prev(n).0).0 == n,
        nominal_prev(n).1 + nominal_next(nominal_prev(n).0).1 == 0,
{
}

/// Abstract notational representation of pitch.
#[derive(PartialEq, Eq, Clone, Copy, Debug, Structural)]
pub struct Note {
    pub arrows: i8,
    pub nominal: Nominal,
    pub sharps: i8,
    pub equave: i8,
}

/// The code point shown for a count of arrows (' ' for none).
pub open spec fn arrow_code(arrows: i8) -> u32 {
    if arrows <= -3 {
        text::SUB_DOWN
    } else if arrows == -2 {
        text::DOUBLE_DOWN
    } else if arrows == -1 {
        text::DOWN
    } else if arrows == 0 {
        0x20
    } else if arrows == 1 {
        text::UP
    } else if arrows == 2 {
        text::DOUBLE_UP
    } else {
        text::SUB_UP
    }
}

/// The code point shown for a count of sharps ('-' for none).
pub open spec fn accidental_code(sharps: i8) -> u32 {
    if sharps <= -3 {
        text::SUB_FLAT
    } else if sharps == -2 {
        text::DOUBLE_FLAT
    } else if sharps == -1 {
        text::FLAT
    } else if sharps == 0 {
        0x2d
    } else if sharps == 1 {
        text::SHARP
    } else if sharps == 2 {
        text::DOUBLE_SHARP
    } else {
        text::SUB_SHARP
    }
}

/// The display text of a note: arrow glyph (if any), nominal letter,
/// accidental glyph (if any), and the equave number.
pub open spec fn note_text(n: Note) -> Seq<char> {
    let arrow = if n.arrows == 0 { Seq::<char>::empty() } else { seq![arrow_code(n.arrows) as char] };
    let acc = if n.sharps == 0 { Seq::<char>::empty() } else { seq![accidental_code(n.sharps) as char] };
    arrow + seq![nominal_letter(n.nominal)] + acc + decimal_text(n.equave as int)
}

impl Note {
    pub fn new(arrows: i8, nominal: Nominal, sharps: i8, equave: i8) -> (r: Note)
        ensures
            r == (Note { arrows, nominal, sharps, equave }),
    {
        Note { arrows, nominal, sharps, equave }
    }

    /// Returns the character code used for this note's arrows.
    pub fn arrow_char(&self) -> (r: char)
        ensures
            r as u32 == arrow_code(self.arrows),
    {
        if self.arrows <= -3 {
            '\u{8e}'
        } else if self.arrows == -2 {
            '\u{8c}'
        } else if self.arrows == -1 {
            '\u{8b}'
        } else if self.arrows == 0 {
            ' '
        } else if self.arrows == 1 {
            '\u{87}'
        } else if self.arrows == 2 {
            '\u{88}'
        } else {
            '\u{8a}'
        }
    }

    /// Returns the character code used for this note's sharps/flats.
    pub fn accidental_char(&self) -> (r: char)
        ensures
            r as u32 == accidental_code(self.sharps),
    {
        if self.sharps <= -3 {
            '\u{86}'
        } else if self.sharps == -2 {
            '\u{85}'
        } else if self.sharps == -1 {
            '\u{84}'
        } else if self.sharps == 0 {
            '-'
        } else if self.sharps == 1 {
            '\u{81}'
        } else if self.sharps == 2 {
            '\u{82}'
        } else {
            '\u{83}'
        }
    }

    /// The note's display text, such as "C#4".
    pub fn to_string(&self) -> (r: String)
        ensures
            r@ == note_text(*self),
    {
        let mut s = String::new();
        let arrow = self.arrow_char();
        if arrow != ' ' {
            push_char(&mut s, arrow);
        }
        push_char(&mut s, self.nominal.char());
        let acc = self.accidental_char();
        if acc != '-' {
            push_char(&mut s, acc);
        }
        push_decimal(&mut s, self.equave as i32);
        assert(s@ =~= note_text(*self));
        s
    }
}

impl Default for Note {
    fn default() -> (r: Note)
        ensures
            r == (Note { arrows: 0, nominal: Nominal::C, sharps: 0, equave: 4 }),
    {
        Note { arrows: 0, nominal: Nominal::C, sharps: 0, equave: 4 }
    }
}

/// Whether `x` is representable as an `i8`.
pub open spec fn in_i8(x: int) -> bool {
    -128 <= x <= 127
}

/// A tuning as its notation logic sees it: the root note, the number of
/// scale steps in the period, the steps of the generator (the period times
/// 0.585, rounded), and the steps of an arrow.
#[derive(Clone, Copy, PartialEq, Eq, Debug, Structural)]
pub struct Tuning {
    pub root: Note,
    pub steps: u16,
    pub generator_steps: u16,
    pub arrow_steps: u8,
}

impl Tuning {
    /// The scale is not empty and the generator is at most one period.
    pub open spec fn valid(self) -> bool {
        &&& self.steps >= 1
        &&& self.generator_steps <= self.steps
    }
}

/// The raw step count of a note: its nominal's period and generator
/// mapping, plus sharps and arrows.
pub open spec fn raw_steps_spec(t: Tuning, n: Note) -> int {
    let len = t.steps as int;
    let g = t.generator_steps as int;
    let sharp_steps = g * 7 - len * 4;
    let v = nominal_vector(n.nominal);
    v.0 * len + v.1 * g + sharp_steps * n.sharps + t.arrow_steps * n.arrows
}

/// The steps of a note above the root.
pub open spec fn steps_from_root(t: Tuning, n: Note) -> int {
    raw_steps_spec(t, n) - raw_steps_spec(t, t.root)
}

/// The scale index of a note and the equave it falls in.
pub open spec fn scale_pos(t: Tuning, n: Note) -> (int, int) {
    let s = steps_from_root(t, n);
    (s % (t.steps as int), n.equave + s / (t.steps as int))
}

/// How many equaves the note's scale position lies above its written
/// equave (1 where it crosses the octave line B->C upward).
pub open spec fn octave_offset_spec(t: Tuning, n: Note) -> int {
    steps_from_root(t, n) / (t.steps as int)
}

/// `scale_index` does not overflow on `n`.
pub open spec fn index_fits(t: Tuning, n: Note) -> bool {
    &&& in_i8(octave_offset_spec(t, n))
    &&& in_i8(n.equave + octave_offset_spec(t, n))
}

/// The notes A..G with no accidentals in equave `e`.
pub open spec fn start_notes(e: i8) -> Seq<Note> {
    nominal_seq().map_values(|nm: Nominal| Note { arrows: 0, nominal: nm, sharps: 0, equave: e })
}

/// Adding `arrows` and `sharps` to `n` neither backtracks nor mixes
/// sharps into a note that has arrows.
pub open spec fn extension_allowed(n: Note, arrows: int, sharps: int) -> bool {
    !((n.sharps > 0 && sharps < 0) || (n.sharps < 0 && sharps > 0) || (n.arrows > 0 && arrows < 0)
        || (n.arrows < 0 && arrows > 0) || (n.arrows != 0 && sharps != 0))
}

/// `n` with `arrows` and `sharps` more.
pub open spec fn extended(n: Note, arrows: int, sharps: int) -> Note {
    Note { arrows: (n.arrows + arrows) as i8, sharps: (n.sharps + sharps) as i8, ..n }
}

/// The allowed extensions of `notes` by `arrows` and `sharps`, in order.
pub open spec fn extend_by(notes: Seq<Note>, arrows: int, sharps: int) -> Seq<Note>
    decreases notes.len(),
{
    if notes.len() == 0 {
        Seq::empty()
    } else {
        let rest = extend_by(notes.drop_last(), arrows, sharps);
        if extension_allowed(notes.last(), arrows, sharps) {
            rest.push(extended(notes.last(), arrows, sharps))
        } else {
            rest
        }
    }
}

/// The next round of candidate notations: one more sharp, flat, up arrow
/// or down arrow, in that order.
pub open spec fn next_round(notes: Seq<Note>) -> Seq<Note> {
    extend_by(notes, 0, 1) + extend_by(notes, 0, -1) + extend_by(notes, 1, 0) + extend_by(notes, -1, 0)
}

/// The candidate notations with `k` accidentals in equave `e`.
pub open spec fn round_notes(e: i8, k: nat) -> Seq<Note>
    decreases k,
{
    if k == 0 {
        start_notes(e)
    } else {
        next_round(round_notes(e, (k - 1) as nat))
    }
}

/// The notes of `notes` at scale index `index`, in order.
pub open spec fn matching(t: Tuning, notes: Seq<Note>, index: int) -> Seq<Note>
    decreases notes.len(),
{
    if notes.len() == 0 {
        Seq::empty()
    } else {
        let rest = matching(t, notes.drop_last(), index);
        if scale_pos(t, notes.last()).0 == index {
            rest.push(notes.last())
        } else {
            rest
        }
    }
}

/// `n` with its equave moved so that it names the pitch it would name
/// without crossing an octave line.
pub open spec fn equave_adjusted(t: Tuning, n: Note) -> Note {
    Note { equave: (n.equave - octave_offset_spec(t, n)) as i8, ..n }
}

/// The shortest notations of scale index `index` in equave `e`, searching
/// from round `k` on; empty past the ninth round.
pub open spec fn notation_from(t: Tuning, index: int, e: i8, k: nat) -> Seq<Note>
    decreases 9 - k,
{
    if k >= 9 {
        Seq::empty()
    } else {
        let m = matching(t, round_notes(e, k), index);
        if m.len() > 0 {
            m.map_values(|n: Note| equave_adjusted(t, n))
        } else {
            notation_from(t, index, e, k + 1)
        }
    }
}

/// The search for notations from round `k` on does not overflow: every
/// candidate it examines has a scale index, and the equaves of the notes
/// it returns fit.
pub open spec fn notation_fits(t: Tuning, index: int, e: i8, k: nat) -> bool
    decreases 9 - k,
{
    if k >= 9 {
        true
    } else {
        let m = matching(t, round_notes(e, k), index);
        &&& forall|i: int| 0 <= i < round_notes(e, k).len() ==> index_fits(t, #[trigger] round_notes(e, k)[i])
        &&& if m.len() > 0 {
            forall|i: int| 0 <= i < m.len() ==> index_fits(t, #[trigger] m[i])
                && in_i8(m[i].equave - octave_offset_spec(t, m[i]))
        } else {
            notation_fits(t, index, e, k + 1)
        }
    }
}

/// Every candidate of round `k` keeps equave `e` and has at most `k`
/// arrows and at most `k` sharps or flats.
pub proof fn lemma_round_bounds(e: i8, k: nat)
    requires
        k <= 100,
    ensures
        forall|i: int| 0 <= i < round_notes(e, k).len() ==> {
            let n = #[trigger] round_notes(e, k)[i];
            &&& n.equave == e
            &&& -k <= n.arrows <= k
            &&& -k <= n.sharps <= k
        },
    decreases k,
{
    if k == 0 {
        assert forall|i: int| 0 <= i < round_notes(e, k).len() implies {
            let n = #[trigger] round_notes(e, k)[i];
            &&& n.equave == e
            &&& -k <= n.arrows <= k
            &&& -k <= n.sharps <= k
        } by {
            assert(start_notes(e)[i] == Note { arrows: 0, nominal: nominal_seq()[i], sharps: 0, equave: e });
        }
    } else {
        let prev = round_notes(e, (k - 1) as nat);
        lemma_round_bounds(e, (k - 1) as nat);
        lemma_extend_bounds(prev, 0, 1, e, (k - 1) as nat);
        lemma_extend_bounds(prev, 0, -1, e, (k - 1) as nat);
        lemma_extend_bounds(prev, 1, 0, e, (k - 1) as nat);
        lemma_extend_bounds(prev, -1, 0, e, (k - 1) as nat);
        let a = extend_by(prev, 0, 1);
        let b = extend_by(prev, 0, -1);
        let c = extend_by(prev, 1, 0);
        let d = extend_by(prev, -1, 0);
        assert forall|i: int| 0 <= i < round_notes(e, k).len() implies {
            let n = #[trigger] round_notes(e, k)[i];
            &&& n.equave == e
            &&& -k <= n.arrows <= k
            &&& -k <= n.sharps <= k
        } by {
            let r = round_notes(e, k);
            assert(r == a + b + c + d);
            if i < a.len() {
                assert(r[i] == a[i]);
            } else if i < a.len() + b.len() {
                assert(r[i] == b[i - a.len()]);
            } else if i < a.len() + b.len() + c.len() {
                assert(r[i] == c[i - a.len() - b.len()]);
            } else {
                assert(r[i] == d[i - a.len() - b.len() - c.len()]);
            }
        }
    }
}

proof fn lemma_extend_bounds(notes: Seq<Note>, arrows: int, sharps: int, e: i8, k: nat)
    requires
        -1 <= arrows <= 1,
        -1 <= sharps <= 1,
        k < 127,
        forall|i: int| 0 <= i < notes.len() ==> {
            let n = #[trigger] notes[i];
            &&& n.equave == e
            &&& -k <= n.arrows <= k
            &&& -k <= n.sharps <= k
        },
    ensures
        forall|i: int| 0 <= i < extend_by(notes, arrows, sharps).len() ==> {
            let n = #[trigger] extend_by(notes, arrows, sharps)[i];
            &&& n.equave == e
            &&& -(k + 1) <= n.arrows <= k + 1
            &&& -(k + 1) <= n.sharps <= k + 1
        },
    decreases notes.len(),
{
    if notes.len() > 0 {
        let q = notes.drop_last();
        assert forall|i: int| 0 <= i < q.len() implies {
            let n = #[trigger] q[i];
            &&& n.equave == e
            &&& -k <= n.arrows <= k
            &&& -k <= n.sharps <= k
        } by {
            assert(q[i] == notes[i]);
        }
        lemma_extend_bounds(q, arrows, sharps, e, k);
        assert(notes[notes.len() - 1] == notes.last());
    }
}

/// Euclidean division of `a` by a positive `n`: remainder and quotient.
fn div_rem_euclid(a: i32, n: i32) -> (r: (i32, i32))
    requires
        n > 0,
        a > i32::MIN,
    ensures
        r.0 == a % n,
        r.1 == a / n,
{
    if a >= 0 {
        let q = ((a as u32) / (n as u32)) as i32;
        let m = ((a as u32) % (n as u32)) as i32;
        (m, q)
    } else {
        let b = (-a) as u32;
        let q0 = (b / (n as u32)) as i32;
        let m0 = (b % (n as u32)) as i32;
        proof {
            vstd::arithmetic::div_mod::lemma_fundamental_div_mod(b as int, n as int);
            assert(q0 == (b as int) / (n as int) && m0 == (b as int) % (n as int));
            assert(b == n * q0 + m0);
        }
        if m0 == 0 {
            proof {
                assert(a == n * (-q0) + 0) by (nonlinear_arith)
                    requires
                        b == n * q0 + m0,
                        m0 == 0,
                        a == -b,
                ;
                vstd::arithmetic::div_mod::lemma_fundamental_div_mod_converse(a as int, n as int, -q0 as int, 0);
            }
            (0, -q0)
        } else {
            proof {
                assert(a == n * (-q0 - 1) + (n - m0)) by (nonlinear_arith)
                    requires
                        b == n * q0 + m0,
                        a == -b,
                ;
                vstd::arithmetic::div_mod::lemma_fundamental_div_mod_converse(a as int, n as int, -q0 - 1, n - m0);
            }
            (n - m0, -q0 - 1)
        }
    }
}

impl Tuning {
    /// Returns a raw step count for a note.
    pub fn raw_steps(&self, note: &Note) -> (r: i32)
        requires
            self.valid(),
        ensures
            r == raw_steps_spec(*self, *note),
            -70000000 <= r <= 70000000,
    {
        let len = self.steps as i32;
        let g = self.generator_steps as i32;
        let sharp_steps = g * 7 - len * 4;
        let (octaves, fifths) = note.nominal.vector();
        proof {
            assert(-4 <= fifths <= 2 && -1 <= octaves <= 2);
            assert(-131070 <= octaves * len <= 131070) by (nonlinear_arith)
                requires
                    -1 <= octaves <= 2,
                    0 <= len <= 65535,
            ;
            assert(-262140 <= fifths * g <= 131070) by (nonlinear_arith)
                requires
                    -4 <= fifths <= 2,
                    0 <= g <= 65535,
            ;
            assert(-33554048 <= sharp_steps * (note.sharps as i32) <= 33554048) by (nonlinear_arith)
                requires
                    -262140 <= sharp_steps <= 262140,
                    -128 <= note.sharps <= 127,
            ;
            assert(-32640 <= (self.arrow_steps as i32) * (note.arrows as i32) <= 32640) by (nonlinear_arith)
                requires
                    0 <= self.arrow_steps <= 255,
                    -128 <= note.arrows <= 127,
            ;
        }
        let nominal_steps = octaves * len + fifths * g;
        nominal_steps + sharp_steps * note.sharps as i32 + self.arrow_steps as i32 * note.arrows as i32
    }

    /// Returns the number of steps in the period.
    pub fn size(&self) -> (r: u16)
        ensures
            r == self.steps,
    {
        self.steps
    }

    /// Returns the scale index and equave of a note in this tuning.
    pub fn scale_index(&self, note: &Note) -> (r: (usize, i8))
        requires
            self.valid(),
            index_fits(*self, *note),
        ensures
            r.0 == scale_pos(*self, *note).0,
            r.1 == scale_pos(*self, *note).1,
            r.0 < self.steps,
    {
        let steps = self.raw_steps(note) - self.raw_steps(&self.root);
        let n = self.size() as i32;
        let (m, q) = div_rem_euclid(steps, n);
        (m as usize, note.equave + q as i8)
    }

    /// Returns 1 if the note crosses the octave line B->C, -1 if it crosses
    /// the octave line B<-C, and 0 otherwise.
    pub fn octave_offet(&self, note: &Note) -> (r: i8)
        requires
            self.valid(),
            index_fits(*self, *note),
        ensures
            r == octave_offset_spec(*self, *note),
    {
        let (_, equave) = self.scale_index(note);
        equave - note.equave
    }
}

/// The notes A..G with no accidentals in equave `e`.
fn start_notes_exec(e: i8) -> (r: Vec<Note>)
    ensures
        r@ == start_notes(e),
{
    let nominals = Nominal::variants();
    let mut r: Vec<Note> = Vec::new();
    let mut i: usize = 0;
    while i < 7
        invariant
            i <= 7,
            nominals@ == nominal_seq(),
            r@ == start_notes(e).take(i as int),
        decreases 7 - i,
    {
        r.push(Note::new(0, nominals[i], 0, e));
        assert(r@ =~= start_notes(e).take(i as int + 1));
        i = i + 1;
    }
    assert(r@ =~= start_notes(e));
    r
}

/// Appends the allowed extensions of `notes` by `arrows` and `sharps`.
fn extend_into(notes: &Vec<Note>, arrows: i8, sharps: i8, out: &mut Vec<Note>)
    requires
        -1 <= arrows <= 1,
        -1 <= sharps <= 1,
        forall|i: int| 0 <= i < notes@.len() ==> -100 <= (#[trigger] notes@[i]).arrows <= 100
            && -100 <= notes@[i].sharps <= 100,
    ensures
        final(out)@ == old(out)@ + extend_by(notes@, arrows as int, sharps as int),
{
    let ghost start = out@;
    let mut i: usize = 0;
    while i < notes.len()
        invariant
            i <= notes.len(),
            -1 <= arrows <= 1,
            -1 <= sharps <= 1,
            forall|j: int| 0 <= j < notes@.len() ==> -100 <= (#[trigger] notes@[j]).arrows <= 100
                && -100 <= notes@[j].sharps <= 100,
            out@ == start + extend_by(notes@.take(i as int), arrows as int, sharps as int),
        decreases notes.len() - i,
    {
        let note = notes[i];
        proof {
            assert(notes@.take(i as int + 1).drop_last() =~= notes@.take(i as int));
            assert(notes@.take(i as int + 1).last() == note);
        }
        let skip = (note.sharps > 0 && sharps < 0) || (note.sharps < 0 && sharps > 0)
            || (note.arrows > 0 && arrows < 0) || (note.arrows < 0 && arrows > 0)
            || (note.arrows != 0 && sharps != 0);
        if !skip {
            out.push(Note { arrows: note.arrows + arrows, sharps: note.sharps + sharps, ..note });
        }
        proof {
            assert(out@ =~= start + extend_by(notes@.take(i as int + 1), arrows as int, sharps as int));
        }
        i = i + 1;
    }
    assert(notes@.take(i as int) =~= notes@);
}

/// The next round of candidate notations.
fn next_round_exec(notes: &Vec<Note>) -> (r: Vec<Note>)
    requires
        forall|i: int| 0 <= i < notes@.len() ==> -100 <= (#[trigger] notes@[i]).arrows <= 100
            && -100 <= notes@[i].sharps <= 100,
    ensures
        r@ == next_round(notes@),
{
    let mut r: Vec<Note> = Vec::new();
    extend_into(notes, 0, 1, &mut r);
    extend_into(notes, 0, -1, &mut r);
    extend_into(notes, 1, 0, &mut r);
    extend_into(notes, -1, 0, &mut r);
    assert(r@ =~= next_round(notes@));
    r
}

impl Tuning {
    /// Returns the shortest notation for a given scale index. May return
    /// an empty vector.
    pub fn notation(&self, index: usize, equave: i8) -> (r: Vec<Note>)
        requires
            self.valid(),
            notation_fits(*self, index as int, equave, 0),
        ensures
            r@ == notation_from(*self, index as int, equave, 0),
    {
        let mut new_notes = start_notes_exec(equave);
        let mut k: usize = 0;
        while k < 9
            invariant
                k <= 9,
                self.valid(),
                new_notes@ == round_notes(equave, k as nat),
                notation_from(*self, index as int, equave, 0) == notation_from(*self, index as int, equave, k as nat),
                notation_fits(*self, index as int, equave, k as nat),
            decreases 9 - k,
        {
            proof {
                lemma_round_bounds(equave, k as nat);
            }
            let ghost round = new_notes@;
            let mut matches: Vec<Note> = Vec::new();
            let mut i: usize = 0;
            while i < new_notes.len()
                invariant
                    i <= new_notes.len(),
                    self.valid(),
                    new_notes@ == round,
                    forall|j: int| 0 <= j < round.len() ==> index_fits(*self, #[trigger] round[j]),
                    matches@ == matching(*self, round.take(i as int), index as int),
                decreases new_notes.len() - i,
            {
                let n = new_notes[i];
                proof {
                    assert(round.take(i as int + 1).drop_last() =~= round.take(i as int));
                    assert(round.take(i as int + 1).last() == n);
                    assert(index_fits(*self, round[i as int]));
                }
                if self.scale_index(&n).0 == index {
                    matches.push(n);
                }
                i = i + 1;
            }
            assert(round.take(i as int) =~= round);
            if matches.len() > 0 {
                let ghost m = matches@;
                let mut out: Vec<Note> = Vec::new();
                let mut j: usize = 0;
                while j < matches.len()
                    invariant
                        j <= matches.len(),
                        self.valid(),
                        matches@ == m,
                        forall|x: int| 0 <= x < m.len() ==> index_fits(*self, #[trigger] m[x])
                            && in_i8(m[x].equave - octave_offset_spec(*self, m[x])),
                        out@ == m.take(j as int).map_values(|n: Note| equave_adjusted(*self, n)),
                    decreases matches.len() - j,
                {
                    let n = matches[j];
                    proof {
                        assert(index_fits(*self, m[j as int]));
                    }
                    let off = self.octave_offet(&n);
                    out.push(Note { equave: n.equave - off, ..n });
                    assert(out@ =~= m.take(j as int + 1).map_values(|n: Note| equave_adjusted(*self, n)));
                    j = j + 1;
                }
                assert(m.take(j as int) =~= m);
                return out;
            }
            new_notes = next_round_exec(&new_notes);
            k = k + 1;
        }
        Vec::new()
    }
}

/// Whether `x` is representable as an `isize`.
pub open spec fn in_isize(x: int) -> bool {
    isize::MIN <= x <= isize::MAX
}

/// The scale index `steps` steps from note `n`, before wrapping into the
/// period.
pub open spec fn shifted_index(t: Tuning, n: Note, steps: int) -> int {
    scale_pos(t, n).0 + steps
}

/// The scale index and the equave in which to notate the note `steps`
/// steps from `n`.
pub open spec fn shift_target(t: Tuning, n: Note, steps: int) -> (int, int) {
    let i = shifted_index(t, n, steps);
    let len = t.steps as int;
    (i % len, n.equave + i / len + octave_offset_spec(t, n))
}

/// Shifting `n` by `steps` does not overflow.
pub open spec fn shift_fits(t: Tuning, n: Note, steps: int) -> bool {
    let i = shifted_index(t, n, steps);
    let len = t.steps as int;
    &&& index_fits(t, n)
    &&& in_isize(i)
    &&& in_i8(n.equave + i / len)
    &&& in_i8(shift_target(t, n, steps).1)
    &&& notation_fits(t, shift_target(t, n, steps).0, shift_target(t, n, steps).1 as i8, 0)
}

/// All notations of the note `steps` steps from `n`.
pub open spec fn shift_all_spec(t: Tuning, n: Note, steps: int) -> Seq<Note> {
    notation_from(t, shift_target(t, n, steps).0, shift_target(t, n, steps).1 as i8, 0)
}

/// `r` is the first of `ns` with the nominal of `n`; failing that the first
/// of `ns`; failing that `n` itself.
pub open spec fn prefers_nominal(ns: Seq<Note>, n: Note, r: Note) -> bool {
    if exists|i: int| 0 <= i < ns.len() && (#[trigger] ns[i]).nominal == n.nominal {
        exists|i: int| 0 <= i < ns.len() && (#[trigger] ns[i]).nominal == n.nominal && r == ns[i]
            && forall|j: int| 0 <= j < i ==> (#[trigger] ns[j]).nominal != n.nominal
    } else if ns.len() > 0 {
        r == ns[0]
    } else {
        r == n
    }
}

/// `r` follows the first occurrence of `n` in `ns`, wrapping around;
/// failing that it is the first of `ns`; failing that `n` itself.
pub open spec fn cycles_from(ns: Seq<Note>, n: Note, r: Note) -> bool {
    if exists|i: int| 0 <= i < ns.len() && #[trigger] ns[i] == n {
        exists|i: int| 0 <= i < ns.len() && #[trigger] ns[i] == n && r == ns[(i + 1) % ns.len() as int]
            && forall|j: int| 0 <= j < i ==> #[trigger] ns[j] != n
    } else if ns.len() > 0 {
        r == ns[0]
    } else {
        r == n
    }
}

impl Note {
    /// Returns the simplest notation for the next/previous note of the tuning.
    /// Prefers notes with the same nominal.
    pub fn step_shift(&self, steps: isize, tuning: &Tuning) -> (r: Note)
        requires
            tuning.valid(),
            shift_fits(*tuning, *self, steps as int),
        ensures
            prefers_nominal(shift_all_spec(*tuning, *self, steps as int), *self, r),
    {
        let notes = self.step_shift_all(steps, tuning);
        let mut i: usize = 0;
        while i < notes.len()
            invariant
                i <= notes.len(),
                notes@ == shift_all_spec(*tuning, *self, steps as int),
                forall|j: int| 0 <= j < i ==> (#[trigger] notes@[j]).nominal != self.nominal,
            decreases notes.len() - i,
        {
            if notes[i].nominal == self.nominal {
                assert(notes@[i as int].nominal == self.nominal);
                return notes[i];
            }
            i = i + 1;
        }
        if notes.len() > 0 {
            notes[0]
        } else {
            *self
        }
    }

    /// Returns all notation for the next/previous note of the tuning.
    /// May return an empty vector.
    fn step_shift_all(&self, steps: isize, tuning: &Tuning) -> (r: Vec<Note>)
        requires
            tuning.valid(),
            shift_fits(*tuning, *self, steps as int),
        ensures
            r@ == shift_all_spec(*tuning, *self, steps as int),
    {
        let ghost i0 = shifted_index(*tuning, *self, steps as int);
        let ghost e0 = self.equave as int;
        let n = tuning.size() as isize;
        let ghost len = n as int;
        let ghost q = i0 / len;
        proof {
            vstd::arithmetic::div_mod::lemma_fundamental_div_mod(i0, len);
        }
        let mut index = tuning.scale_index(self).0 as isize + steps;
        let mut equave = self.equave;
        let ghost mut c: int = 0;
        assert(index == i0);
        assert(index + c * len == i0) by (nonlinear_arith)
            requires
                index == i0,
                c == 0,
        ;
        while index >= n
            invariant
                n == len,
                len >= 1,
                i0 == len * q + i0 % len,
                0 <= i0 % len < len,
                index + c * len == i0,
                equave == e0 + c,
                0 <= c,
                c > 0 ==> index >= 0,
                c <= q || c == 0,
                in_i8(e0 + q),
                in_i8(e0),
            decreases index,
        {
            proof {
                assert(c + 1 <= q) by (nonlinear_arith)
                    requires
                        index >= len,
                        index + c * len == i0,
                        i0 == len * q + i0 % len,
                        0 <= i0 % len < len,
                        len >= 1,
                ;
                assert((index - len) + (c + 1) * len == i0) by (nonlinear_arith)
                    requires
                        index + c * len == i0,
                ;
            }
            index = index - n;
            equave = equave + 1;
            proof {
                c = c + 1;
            }
        }
        proof {
            assert(c >= q) by (nonlinear_arith)
                requires
                    index < len,
                    index + c * len == i0,
                    i0 == len * q + i0 % len,
                    0 <= i0 % len < len,
                    len >= 1,
            ;
        }
        while index < 0
            invariant
                n == len,
                len >= 1,
                i0 == len * q + i0 % len,
                0 <= i0 % len < len,
                index + c * len == i0,
                index < len,
                equave == e0 + c,
                c >= q,
                in_i8(e0 + q),
                in_i8(e0 + c),
            decreases c - q,
        {
            proof {
                assert(c - 1 >= q) by (nonlinear_arith)
                    requires
                        index < 0,
                        index + c * len == i0,
                        i0 == len * q + i0 % len,
                        0 <= i0 % len < len,
                        len >= 1,
                ;
                assert((index + len) + (c - 1) * len == i0) by (nonlinear_arith)
                    requires
                        index + c * len == i0,
                ;
            }
            index = index + n;
            equave = equave - 1;
            proof {
                c = c - 1;
            }
        }
        proof {
            assert(c == q && index == i0 % len) by (nonlinear_arith)
                requires
                    0 <= index < len,
                    index + c * len == i0,
                    i0 == len * q + i0 % len,
                    0 <= i0 % len < len,
            ;
        }
        let off = tuning.octave_offet(self);
        tuning.notation(index as usize, equave + off)
    }

    /// Returns the next note in the set of simplest equivalent notations.
    pub fn cycle_notation(&self, tuning: &Tuning) -> (r: Note)
        requires
            tuning.valid(),
            index_fits(*tuning, *self),
            notation_fits(*tuning, scale_pos(*tuning, *self).0, scale_pos(*tuning, *self).1 as i8, 0),
        ensures
            cycles_from(notation_from(*tuning, scale_pos(*tuning, *self).0, scale_pos(*tuning, *self).1 as i8, 0), *self, r),
    {
        let (index, equave) = tuning.scale_index(self);
        let options = tuning.notation(index, equave);
        let mut i: usize = 0;
        while i < options.len()
            invariant
                i <= options.len(),
                options@ == notation_from(*tuning, scale_pos(*tuning, *self).0, scale_pos(*tuning, *self).1 as i8, 0),
                forall|j: int| 0 <= j < i ==> options@[j] != *self,
            decreases options.len() - i,
        {
            if options[i] == *self {
                assert(options@[i as int] == *self);
                return options[(i + 1) % options.len()];
            }
            i = i + 1;
        }
        if options.len() > 0 {
            options[0]
        } else {
            *self
        }
    }
}

/// The notes that `matching` keeps sit at scale index `index` and come
/// from `notes`.
proof fn lemma_matching(t: Tuning, notes: Seq<Note>, index: int)
    ensures
        forall|i: int| 0 <= i < matching(t, notes, index).len() ==> {
            &&& scale_pos(t, #[trigger] matching(t, notes, index)[i]).0 == index
            &&& exists|j: int| 0 <= j < notes.len() && notes[j] == matching(t, notes, index)[i]
        },
    decreases notes.len(),
{
    if notes.len() > 0 {
        let q = notes.drop_last();
        lemma_matching(t, q, index);
        let m = matching(t, notes, index);
        let mq = matching(t, q, index);
        assert forall|i: int| 0 <= i < m.len() implies {
            &&& scale_pos(t, #[trigger] m[i]).0 == index
            &&& exists|j: int| 0 <= j < notes.len() && notes[j] == m[i]
        } by {
            if i < mq.len() {
                assert(m[i] == mq[i]);
                let j = choose|j: int| 0 <= j < q.len() && q[j] == mq[i];
                assert(notes[j] == q[j]);
            } else {
                assert(m[i] == notes.last());
                assert(notes[notes.len() - 1] == notes.last());
            }
        }
    }
}

/// Raw steps, and so scale indices, do not depend on the written equave.
proof fn lemma_equave_free(t: Tuning, n: Note, e: i8)
    ensures
        steps_from_root(t, Note { equave: e, ..n }) == steps_from_root(t, n),
{
}

/// Every notation found for scale index `index` in equave `e` names that
/// scale index in that equave.
pub proof fn lemma_notation_sound(t: Tuning, index: int, e: i8, k: nat)
    requires
        t.valid(),
        notation_fits(t, index, e, k),
    ensures
        forall|i: int| 0 <= i < notation_from(t, index, e, k).len() ==>
            scale_pos(t, #[trigger] notation_from(t, index, e, k)[i]) == (index, e as int),
    decreases 9 - k,
{
    if k < 9 {
        let round = round_notes(e, k);
        let m = matching(t, round, index);
        if m.len() > 0 {
            lemma_matching(t, round, index);
            lemma_round_bounds(e, k);
            assert forall|i: int| 0 <= i < notation_from(t, index, e, k).len() implies
                scale_pos(t, #[trigger] notation_from(t, index, e, k)[i]) == (index, e as int) by {
                let n = m[i];
                let j = choose|j: int| 0 <= j < round.len() && round[j] == m[i];
                assert(n.equave == e);
                assert(in_i8(n.equave - octave_offset_spec(t, n)));
                let a = equave_adjusted(t, n);
                lemma_equave_free(t, n, a.equave);
                assert(a == Note { equave: a.equave, ..n });
                assert(notation_from(t, index, e, k)[i] == a);
            }
        } else {
            lemma_notation_sound(t, index, e, k + 1);
            assert(notation_from(t, index, e, k) == notation_from(t, index, e, k + 1));
        }
    } else {
        assert(notation_from(t, index, e, k).len() == 0);
    }
}

/// Every notation of the note `steps` steps from `n` names that step: its
/// scale index and equave are those of the shift's target.
pub proof fn lemma_step_shift_sound(t: Tuning, n: Note, steps: int)
    requires
        t.valid(),
        shift_fits(t, n, steps),
    ensures
        forall|i: int| 0 <= i < shift_all_spec(t, n, steps).len() ==>
            scale_pos(t, #[trigger] shift_all_spec(t, n, steps)[i]) == shift_target(t, n, steps),
{
    let target = shift_target(t, n, steps);
    lemma_notation_sound(t, target.0, target.1 as i8, 0);
}

/// The note that cycling picks is one of the options or the note itself.
proof fn lemma_cycles_from_member(ns: Seq<Note>, n: Note, r: Note)
    requires
        cycles_from(ns, n, r),
    ensures
        r == n || exists|k: int| 0 <= k < ns.len() && #[trigger] ns[k] == r,
{
    if ns.len() > 0 && r != n {
        if exists|i: int| 0 <= i < ns.len() && #[trigger] ns[i] == n {
            let i = choose|i: int| 0 <= i < ns.len() && #[trigger] ns[i] == n && r == ns[(i + 1) % ns.len() as int];
            let k = (i + 1) % ns.len() as int;
            vstd::arithmetic::div_mod::lemma_mod_pos_bound(i + 1, ns.len() as int);
            assert(ns[k] == r);
        } else {
            assert(ns[0] == r);
        }
    }
}

/// Cycling through notations stays on the same scale index and equave.
pub proof fn lemma_cycle_notation_sound(t: Tuning, n: Note, r: Note)
    requires
        t.valid(),
        index_fits(t, n),
        notation_fits(t, scale_pos(t, n).0, scale_pos(t, n).1 as i8, 0),
        cycles_from(notation_from(t, scale_pos(t, n).0, scale_pos(t, n).1 as i8, 0), n, r),
    ensures
        scale_pos(t, r) == scale_pos(t, n),
{
    let pos = scale_pos(t, n);
    let e = pos.1 as i8;
    assert(e as int == pos.1);
    let ns = notation_from(t, pos.0, e, 0);
    lemma_notation_sound(t, pos.0, e, 0);
    lemma_cycles_from_member(ns, n, r);
    if r != n {
        let k = choose|k: int| 0 <= k < ns.len() && ns[k] == r;
        assert(scale_pos(t, ns[k]) == (pos.0, e as int));
    }
}

/// The number of accidentals of a note: its arrows and its sharps or
/// flats.
pub open spec fn accidentals(n: Note) -> int {
    crate::timespan::abs(n.arrows as int) + crate::timespan::abs(n.sharps as int)
}

/// Every note that an extension gives comes from an allowed extension of
/// a note, and every allowed extension of a note is given.
proof fn lemma_extend_members(notes: Seq<Note>, arrows: int, sharps: int)
    ensures
        forall|i: int| 0 <= i < extend_by(notes, arrows, sharps).len() ==> exists|j: int| 0 <= j < notes.len()
            && extension_allowed(notes[j], arrows, sharps)
            && #[trigger] extend_by(notes, arrows, sharps)[i] == extended(notes[j], arrows, sharps),
        forall|j: int| 0 <= j < notes.len() && extension_allowed(#[trigger] notes[j], arrows, sharps) ==>
            extend_by(notes, arrows, sharps).contains(extended(notes[j], arrows, sharps)),
    decreases notes.len(),
{
    if notes.len() > 0 {
        let q = notes.drop_last();
        lemma_extend_members(q, arrows, sharps);
        let r = extend_by(notes, arrows, sharps);
        let rq = extend_by(q, arrows, sharps);
        assert(notes[notes.len() - 1] == notes.last());
        assert forall|i: int| 0 <= i < r.len() implies exists|j: int| 0 <= j < notes.len()
            && extension_allowed(notes[j], arrows, sharps)
            && #[trigger] r[i] == extended(notes[j], arrows, sharps) by {
            if i < rq.len() {
                assert(r[i] == rq[i]);
                let j = choose|j: int| 0 <= j < q.len() && extension_allowed(q[j], arrows, sharps)
                    && rq[i] == extended(q[j], arrows, sharps);
                assert(notes[j] == q[j]);
            } else {
                assert(r[i] == extended(notes[notes.len() - 1], arrows, sharps));
            }
        }
        assert forall|j: int| 0 <= j < notes.len() && extension_allowed(#[trigger] notes[j], arrows, sharps) implies
            r.contains(extended(notes[j], arrows, sharps)) by {
            if j < q.len() {
                assert(q[j] == notes[j]);
                let x = extended(notes[j], arrows, sharps);
                assert(rq.contains(x));
                let m = choose|m: int| 0 <= m < rq.len() && rq[m] == x;
                assert(r[m] == rq[m]);
            } else {
                assert(r[r.len() - 1] == extended(notes[j], arrows, sharps));
            }
        }
    }
}

/// The candidates of round `k` are exactly the notes of equave `e` with
/// `k` accidentals.
#[verifier::rlimit(40)]
proof fn lemma_round_members(e: i8, k: nat)
    requires
        k <= 100,
    ensures
        forall|i: int| 0 <= i < round_notes(e, k).len() ==> accidentals(#[trigger] round_notes(e, k)[i]) == k,
        forall|n: Note| n.equave == e && accidentals(n) == k ==> #[trigger] round_notes(e, k).contains(n),
    decreases k,
{
    lemma_round_bounds(e, k);
    if k == 0 {
        let r = start_notes(e);
        assert forall|i: int| 0 <= i < r.len() implies accidentals(#[trigger] r[i]) == k by {
            assert(r[i] == Note { arrows: 0, nominal: nominal_seq()[i], sharps: 0, equave: e });
        }
        assert forall|n: Note| n.equave == e && accidentals(n) == k implies #[trigger] r.contains(n) by {
            let i: int = match n.nominal {
                Nominal::A => 0,
                Nominal::B => 1,
                Nominal::C => 2,
                Nominal::D => 3,
                Nominal::E => 4,
                Nominal::F => 5,
                Nominal::G => 6,
            };
            assert(r[i] == Note { arrows: 0, nominal: nominal_seq()[i], sharps: 0, equave: e });
            assert(r[i] == n);
        }
    } else {
        let prev = round_notes(e, (k - 1) as nat);
        lemma_round_members(e, (k - 1) as nat);
        lemma_round_bounds(e, (k - 1) as nat);
        let a = extend_by(prev, 0, 1);
        let b = extend_by(prev, 0, -1);
        let c = extend_by(prev, 1, 0);
        let d = extend_by(prev, -1, 0);
        lemma_extend_members(prev, 0, 1);
        lemma_extend_members(prev, 0, -1);
        lemma_extend_members(prev, 1, 0);
        lemma_extend_members(prev, -1, 0);
        let r = round_notes(e, k);
        assert(r == a + b + c + d);
        assert forall|i: int| 0 <= i < r.len() implies accidentals(#[trigger] r[i]) == k by {
            if i < a.len() {
                assert(r[i] == a[i]);
                let j = choose|j: int| 0 <= j < prev.len() && extension_allowed(prev[j], 0, 1) && a[i] == extended(prev[j], 0, 1);
                assert(accidentals(prev[j]) == k - 1);
            } else if i < a.len() + b.len() {
                assert(r[i] == b[i - a.len()]);
                let j = choose|j: int| 0 <= j < prev.len() && extension_allowed(prev[j], 0, -1) && b[i - a.len()] == extended(prev[j], 0, -1);
                assert(accidentals(prev[j]) == k - 1);
            } else if i < a.len() + b.len() + c.len() {
                assert(r[i] == c[i - a.len() - b.len()]);
                let j = choose|j: int| 0 <= j < prev.len() && extension_allowed(prev[j], 1, 0)
                    && c[i - a.len() - b.len()] == extended(prev[j], 1, 0);
                assert(accidentals(prev[j]) == k - 1);
            } else {
                assert(r[i] == d[i - a.len() - b.len() - c.len()]);
                let j = choose|j: int| 0 <= j < prev.len() && extension_allowed(prev[j], -1, 0)
                    && d[i - a.len() - b.len() - c.len()] == extended(prev[j], -1, 0);
                assert(accidentals(prev[j]) == k - 1);
            }
        }
        lemma_round_complete_step(e, k);
    }
}

/// Every note of equave `e` with `k` accidentals extends one with `k - 1`.
#[verifier::rlimit(40)]
proof fn lemma_round_complete_step(e: i8, k: nat)
    requires
        1 <= k <= 100,
        forall|n: Note| n.equave == e && accidentals(n) == k - 1 ==> #[trigger] round_notes(e, (k - 1) as nat).contains(n),
    ensures
        forall|n: Note| n.equave == e && accidentals(n) == k ==> #[trigger] round_notes(e, k).contains(n),
{
    let prev = round_notes(e, (k - 1) as nat);
    let a = extend_by(prev, 0, 1);
    let b = extend_by(prev, 0, -1);
    let c = extend_by(prev, 1, 0);
    let d = extend_by(prev, -1, 0);
    lemma_extend_members(prev, 0, 1);
    lemma_extend_members(prev, 0, -1);
    lemma_extend_members(prev, 1, 0);
    lemma_extend_members(prev, -1, 0);
    let r = round_notes(e, k);
    assert(r == a + b + c + d);
    assert forall|n: Note| n.equave == e && accidentals(n) == k implies #[trigger] r.contains(n) by {
        // step back one accidental: an arrow if there is one, else a sharp or flat
        let (da, ds): (int, int) = if n.arrows > 0 {
            (1, 0)
        } else if n.arrows < 0 {
            (-1, 0)
        } else if n.sharps > 0 {
            (0, 1)
        } else {
            (0, -1)
        };
        let m = Note { arrows: (n.arrows - da) as i8, sharps: (n.sharps - ds) as i8, ..n };
        assert(accidentals(m) == k - 1);
        assert(prev.contains(m));
        let j = choose|j: int| 0 <= j < prev.len() && prev[j] == m;
        assert(extension_allowed(prev[j], da, ds));
        assert(extended(m, da, ds) == n);
        if da == 0 && ds == 1 {
            assert(a.contains(n));
            let x = choose|x: int| 0 <= x < a.len() && a[x] == n;
            assert(r[x] == n);
        } else if da == 0 && ds == -1 {
            assert(b.contains(n));
            let x = choose|x: int| 0 <= x < b.len() && b[x] == n;
            assert(r[a.len() + x] == n);
        } else if da == 1 {
            assert(c.contains(n));
            let x = choose|x: int| 0 <= x < c.len() && c[x] == n;
            assert(r[a.len() + b.len() + x] == n);
        } else {
            assert(d.contains(n));
            let x = choose|x: int| 0 <= x < d.len() && d[x] == n;
            assert(r[a.len() + b.len() + c.len() + x] == n);
        }
    }
}

/// A note at scale index `index` among `notes` is among the matches.
proof fn lemma_matching_complete(t: Tuning, notes: Seq<Note>, index: int, n: Note)
    requires
        notes.contains(n),
        scale_pos(t, n).0 == index,
    ensures
        matching(t, notes, index).contains(n),
    decreases notes.len(),
{
    let q = notes.drop_last();
    let m = matching(t, notes, index);
    if notes.last() == n {
        assert(m[m.len() - 1] == n);
    } else {
        let j = choose|j: int| 0 <= j < notes.len() && notes[j] == n;
        assert(j < q.len());
        assert(q[j] == n);
        lemma_matching_complete(t, q, index, n);
        let mq = matching(t, q, index);
        let x = choose|x: int| 0 <= x < mq.len() && mq[x] == n;
        assert(m[x] == mq[x]);
    }
}

/// `r` holds notations with `j` accidentals: no note of equave `e` with
/// fewer names scale index `index`, and every one with `j` that does is in
/// `r`, moved to the equave it sounds in.
pub open spec fn shortest_at(t: Tuning, index: int, e: i8, r: Seq<Note>, j: int) -> bool {
    &&& forall|i: int| 0 <= i < r.len() ==> accidentals(#[trigger] r[i]) == j
    &&& forall|n: Note| n.equave == e && #[trigger] accidentals(n) < j ==> scale_pos(t, n).0 != index
    &&& forall|n: Note| n.equave == e && #[trigger] accidentals(n) == j && scale_pos(t, n).0 == index
        ==> r.contains(equave_adjusted(t, n))
}

/// `r` is the set of shortest notations of scale index `index` in equave
/// `e`: those of the fewest accidentals, when fewer than nine suffice;
/// otherwise `r` is empty and no notation with fewer than nine exists.
pub open spec fn shortest_notations(t: Tuning, index: int, e: i8, r: Seq<Note>) -> bool {
    if r.len() > 0 {
        exists|j: int| 0 <= j < 9 && #[trigger] shortest_at(t, index, e, r, j)
    } else {
        forall|n: Note| n.equave == e && #[trigger] accidentals(n) < 9 ==> scale_pos(t, n).0 != index
    }
}

#[verifier::rlimit(40)]
proof fn lemma_shortest_from(t: Tuning, index: int, e: i8, k: nat)
    requires
        k <= 9,
        forall|n: Note| n.equave == e && #[trigger] accidentals(n) < k ==> scale_pos(t, n).0 != index,
    ensures
        shortest_notations(t, index, e, notation_from(t, index, e, k)),
    decreases 9 - k,
{
    if k < 9 {
        let round = round_notes(e, k);
        let m = matching(t, round, index);
        lemma_round_members(e, k);
        lemma_matching(t, round, index);
        if m.len() > 0 {
            let r = notation_from(t, index, e, k);
            assert(r == m.map_values(|n: Note| equave_adjusted(t, n)));
            assert forall|i: int| 0 <= i < r.len() implies accidentals(#[trigger] r[i]) == k by {
                let j = choose|j: int| 0 <= j < round.len() && round[j] == m[i];
                assert(accidentals(round[j]) == k);
                assert(r[i] == equave_adjusted(t, m[i]));
            }
            assert forall|n: Note| n.equave == e && #[trigger] accidentals(n) == k && scale_pos(t, n).0 == index
                implies r.contains(equave_adjusted(t, n)) by {
                assert(round.contains(n));
                lemma_matching_complete(t, round, index, n);
                let x = choose|x: int| 0 <= x < m.len() && m[x] == n;
                assert(r[x] == equave_adjusted(t, n));
            }
            assert(shortest_at(t, index, e, r, k as int));
        } else {
            assert forall|n: Note| n.equave == e && #[trigger] accidentals(n) < k + 1 implies scale_pos(t, n).0 != index by {
                if accidentals(n) == k && scale_pos(t, n).0 == index {
                    assert(round.contains(n));
                    lemma_matching_complete(t, round, index, n);
                }
            }
            lemma_shortest_from(t, index, e, k + 1);
        }
    }
}

/// `notation` gives the shortest notations of a scale index: those with
/// the fewest accidentals, all of them.
pub proof fn lemma_notation_shortest(t: Tuning, index: int, e: i8)
    ensures
        shortest_notations(t, index, e, notation_from(t, index, e, 0)),
{
    assert forall|n: Note| n.equave == e && #[trigger] accidentals(n) < 0 implies scale_pos(t, n).0 != index by {}
    lemma_shortest_from(t, index, e, 0);
}

} // verus!
