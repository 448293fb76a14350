//! Keyboard and MIDI input.

use vstd::prelude::*;

verus! {

use crate::pitch::{Nominal, Note, nominal_next, nominal_prev};

pub const CC_MODULATION: u8 = 1;
pub const CC_MACRO_MIN: u8 = 41;
pub const CC_MACRO_MAX: u8 = 48;
pub const CC_RPN_MSB: u8 = 101;
pub const CC_RPN_LSB: u8 = 100;
pub const CC_DATA_ENTRY_MSB: u8 = 6;
pub const CC_DATA_ENTRY_LSB: u8 = 38;

/// The bias toward the neighbouring nominal a half step away: E and B lie a
/// half step below F and C, C and F a half step above B and E.
pub open spec fn enharmonic_bias(n: Nominal) -> int {
    match n {
        Nominal::E | Nominal::B => 1,
        Nominal::C | Nominal::F => -1,
        _ => 0,
    }
}

/// Respelling moves to the next nominal.
pub open spec fn enharmonic_goes_up(note: Note) -> bool {
    2 * note.sharps + enharmonic_bias(note.nominal) >= 0
}

/// The change in sharps when respelling `note`.
pub open spec fn enharmonic_sharp_offset(note: Note) -> int {
    if enharmonic_goes_up(note) {
        if enharmonic_bias(note.nominal) > 0 { -1 } else { -2 }
    } else {
        if enharmonic_bias(note.nominal) < 0 { 1 } else { 2 }
    }
}

/// The change in equave when respelling `note`.
pub open spec fn enharmonic_equave_offset(note: Note) -> int {
    if enharmonic_goes_up(note) {
        nominal_next(note.nominal).1 as int
    } else {
        nominal_prev(note.nominal).1 as int
    }
}

/// The respelled note stays within the ranges of its fields.
pub open spec fn enharmonic_ok(note: Note) -> bool {
    &&& -128 <= note.sharps + enharmonic_sharp_offset(note) <= 127
    &&& -128 <= note.equave + enharmonic_equave_offset(note) <= 127
}

/// The semitones of a nominal above C.
pub open spec fn nominal_semitones(n: Nominal) -> int {
    match n {
        Nominal::C => 0,
        Nominal::D => 2,
        Nominal::E => 4,
        Nominal::F => 5,
        Nominal::G => 7,
        Nominal::A => 9,
        Nominal::B => 11,
    }
}

/// The pitch a note names in 12-tone equal temperament, in semitones
/// (arrows aside).
pub open spec fn edo12_pitch(n: Note) -> int {
    12 * n.equave + nominal_semitones(n.nominal) + n.sharps
}

/// The respelling of `note` that `enharmonic_alternative` gives.
pub open spec fn enharmonic_spelling(note: Note) -> Note {
    Note {
        arrows: note.arrows,
        nominal: if enharmonic_goes_up(note) { nominal_next(note.nominal).0 } else { nominal_prev(note.nominal).0 },
        sharps: (note.sharps + enharmonic_sharp_offset(note)) as i8,
        equave: (note.equave + enharmonic_equave_offset(note)) as i8,
    }
}

/// Respelling names the same pitch on a different nominal: the nominal
/// moves one step (up for a note with sharps, down for one with flats) and
/// the accidentals and equave make up the difference in 12-tone equal
/// temperament, arrows unchanged.
pub proof fn lemma_enharmonic_same_pitch(note: Note)
    requires
        enharmonic_ok(note),
    ensures
        edo12_pitch(enharmonic_spelling(note)) == edo12_pitch(note),
        enharmonic_spelling(note).nominal != note.nominal,
        enharmonic_spelling(note).arrows == note.arrows,
        note.sharps > 0 ==> enharmonic_spelling(note).nominal == nominal_next(note.nominal).0,
        note.sharps < 0 ==> enharmonic_spelling(note).nominal == nominal_prev(note.nominal).0,
{
}

/// Returns an enharmonically equivalent spelling of `note` on a neighbouring
/// nominal: notes with sharps (or naturals that border a half step above)
/// move up to the next nominal, notes with flats move down to the previous
/// one; the accidentals change by the whole or half step between the two
/// nominals.
pub fn enharmonic_alternative(note: Note) -> (r: Note)
    requires
        enharmonic_ok(note),
    ensures
        r.arrows == note.arrows,
        r.nominal == (if enharmonic_goes_up(note) {
            nominal_next(note.nominal).0
        } else {
            nominal_prev(note.nominal).0
        }),
        r.sharps == note.sharps + enharmonic_sharp_offset(note),
        r.equave == note.equave + enharmonic_equave_offset(note),
        r == enharmonic_spelling(note),
        edo12_pitch(r) == edo12_pitch(note),
{
    let bias: i8 = match note.nominal {
        Nominal::E | Nominal::B => 1,
        Nominal::C | Nominal::F => -1,
        _ => 0,
    };
    let up = 2 * (note.sharps as i16) + bias as i16 >= 0;
    let ((nominal, equave_offset), sharp_offset) = if up {
        (note.nominal.next(), if bias > 0 { -1i8 } else { -2i8 })
    } else {
        (note.nominal.prev(), if bias < 0 { 1i8 } else { 2i8 })
    };
    Note {
        nominal,
        sharps: note.sharps + sharp_offset,
        equave: note.equave + equave_offset,
        ..note
    }
}

/// Combination of modifier keys. This is kind of a silly way to store this
/// information, but it serializes to TOML a lot nicer than a struct of three
/// booleans.
#[derive(PartialEq, Eq, Hash, Clone, Copy, Debug, Structural)]
pub enum Modifiers {
    /// No modifier key held.
    Plain,
    Ctrl,
    Alt,
    Shift,
    CtrlAlt,
    CtrlShift,
    AltShift,
    CtrlAltShift,
}

impl Modifiers {
    /// The combination of the given held modifier keys.
    pub fn from_held(ctrl: bool, alt: bool, shift: bool) -> (r: Self)
        ensures
            r == (match (ctrl, alt, shift) {
                (false, false, false) => Modifiers::Plain,
                (true, false, false) => Modifiers::Ctrl,
                (false, true, false) => Modifiers::Alt,
                (false, false, true) => Modifiers::Shift,
                (true, true, false) => Modifiers::CtrlAlt,
                (true, false, true) => Modifiers::CtrlShift,
                (false, true, true) => Modifiers::AltShift,
                (true, true, true) => Modifiers::CtrlAltShift,
            }),
    {
        match (ctrl, alt, shift) {
            (false, false, false) => Self::Plain,
            (true, false, false) => Self::Ctrl,
            (false, true, false) => Self::Alt,
            (false, false, true) => Self::Shift,
            (true, true, false) => Self::CtrlAlt,
            (true, false, true) => Self::CtrlShift,
            (false, true, true) => Self::AltShift,
            (true, true, true) => Self::CtrlAltShift,
        }
    }
}

#[derive(Clone, Copy, PartialEq, Eq, Debug, Structural)]
pub enum Action {
    IncrementDivision,
    DecrementDivision,
    DoubleDivision,
    HalveDivision,
}

/// The display name of an action.
pub open spec fn action_name(a: Action) -> Seq<char> {
    match a {
        Action::IncrementDivision => "Increment division"@,
        Action::DecrementDivision => "Decrement division"@,
        Action::DoubleDivision => "Double division"@,
        Action::HalveDivision => "Halve division"@,
    }
}

impl Action {
    pub fn name(&self) -> (r: &'static str)
        ensures
            r@ == action_name(*self),
    {
        match self {
            Self::IncrementDivision => "Increment division",
            Self::DecrementDivision => "Decrement division",
            Self::DoubleDivision => "Double division",
            Self::HalveDivision => "Halve division",
        }
    }
}

/// Center value of a pitch bend message.
pub const PITCH_CENTER: i16 = 0x2000;

/// A MIDI channel message. Program change is omitted; we have no use for it.
#[derive(Clone, Copy, PartialEq, Eq, Debug, Structural)]
pub enum MidiEvent {
    NoteOff { channel: u8, key: u8 },
    NoteOn { channel: u8, key: u8, velocity: u8 },
    PolyPressure { channel: u8, key: u8, pressure: u8 },
    Controller { channel: u8, controller: u8, value: u8 },
    ChannelPressure { channel: u8, pressure: u8 },
    /// Pitch bend, as the offset of the 14-bit value from the center.
    Pitch { channel: u8, bend: i16 },
}

/// The message kind in a status byte (its high nibble).
pub open spec fn status_kind(b: u8) -> u8 {
    b & 0xf0
}

/// The channel in a status byte (its low nibble).
pub open spec fn status_channel(b: u8) -> u8 {
    b & 0xf
}

/// Pitch bend values are at most 15 bits when the data bytes are.
pub open spec fn midi_parse_ok(data: Seq<u8>) -> bool {
    (data.len() >= 3 && status_kind(data[0]) == 0xe0) ==> data[2] * 128 + data[1] <= 32767
}

/// The message encoded by the bytes `data`, if it is one of the kinds above.
pub open spec fn midi_parse(data: Seq<u8>) -> Option<MidiEvent> {
    if data.len() < 2 {
        None
    } else {
        let channel = status_channel(data[0]);
        let kind = status_kind(data[0]);
        if kind == 0x80 {
            Some(MidiEvent::NoteOff { channel, key: data[1] })
        } else if kind == 0x90 {
            if data.len() < 3 { None } else { Some(MidiEvent::NoteOn { channel, key: data[1], velocity: data[2] }) }
        } else if kind == 0xa0 {
            if data.len() < 3 { None } else { Some(MidiEvent::PolyPressure { channel, key: data[1], pressure: data[2] }) }
        } else if kind == 0xb0 {
            if data.len() < 3 { None } else { Some(MidiEvent::Controller { channel, controller: data[1], value: data[2] }) }
        } else if kind == 0xd0 {
            Some(MidiEvent::ChannelPressure { channel, pressure: data[1] })
        } else if kind == 0xe0 {
            if data.len() < 3 {
                None
            } else {
                Some(MidiEvent::Pitch { channel, bend: (data[2] * 128 + data[1] - 0x2000) as i16 })
            }
        } else {
            None
        }
    }
}

impl MidiEvent {
    /// Decodes a channel message.
    pub fn parse(data: &[u8]) -> (r: Option<Self>)
        requires
            midi_parse_ok(data@),
        ensures
            r == midi_parse(data@),
    {
        // all the messages we're interested in are at least 2 bytes
        if data.len() < 2 {
            return None;
        }
        let channel = data[0] & 0xf;
        let kind = data[0] & 0xf0;
        if kind == 0x80 {
            Some(Self::NoteOff { channel, key: data[1] })
        } else if kind == 0x90 {
            if data.len() < 3 { None } else { Some(Self::NoteOn { channel, key: data[1], velocity: data[2] }) }
        } else if kind == 0xa0 {
            if data.len() < 3 { None } else { Some(Self::PolyPressure { channel, key: data[1], pressure: data[2] }) }
        } else if kind == 0xb0 {
            if data.len() < 3 { None } else { Some(Self::Controller { channel, controller: data[1], value: data[2] }) }
        } else if kind == 0xd0 {
            Some(Self::ChannelPressure { channel, pressure: data[1] })
        } else if kind == 0xe0 {
            if data.len() < 3 {
                None
            } else {
                let hi = data[2] as i16;
                let lo = data[1] as i16;
                assert(hi << 7 == hi * 128) by (bit_vector)
                    requires
                        0 <= hi <= 255,
                ;
                let raw_pitch = (hi << 7) + lo;
                Some(Self::Pitch { channel, bend: raw_pitch - PITCH_CENTER })
            }
        } else {
            None
        }
    }
}

} // verus!
