use osctet::input::{enharmonic_alternative, Action, MidiEvent, Modifiers};
use osctet::pitch::{Nominal, Note};

#[test]
fn enharmonic_sharp_moves_up() {
    // C# -> Db
    let r = enharmonic_alternative(Note::new(0, Nominal::C, 1, 4));
    assert_eq!(r, Note::new(0, Nominal::D, -1, 4));
    // E -> Fb (half step between E and F)
    let r = enharmonic_alternative(Note::new(0, Nominal::E, 0, 4));
    assert_eq!(r, Note::new(0, Nominal::F, -1, 4));
    // B# -> C of the next octave
    let r = enharmonic_alternative(Note::new(1, Nominal::B, 1, 3));
    assert_eq!(r, Note::new(1, Nominal::C, 0, 4));
}

#[test]
fn enharmonic_flat_moves_down() {
    // Db -> C#
    let r = enharmonic_alternative(Note::new(0, Nominal::D, -1, 4));
    assert_eq!(r, Note::new(0, Nominal::C, 1, 4));
    // C -> B# of the octave below
    let r = enharmonic_alternative(Note::new(0, Nominal::C, 0, 4));
    assert_eq!(r, Note::new(0, Nominal::B, 1, 3));
    // F -> E#
    let r = enharmonic_alternative(Note::new(0, Nominal::F, 0, 2));
    assert_eq!(r, Note::new(0, Nominal::E, 1, 2));
}

#[test]
fn modifiers_from_held_keys() {
    assert_eq!(Modifiers::from_held(false, false, false), Modifiers::Plain);
    assert_eq!(Modifiers::from_held(true, false, true), Modifiers::CtrlShift);
    assert_eq!(Modifiers::from_held(true, true, true), Modifiers::CtrlAltShift);
    assert_eq!(Modifiers::from_held(false, true, false), Modifiers::Alt);
}

#[test]
fn action_names() {
    assert_eq!(Action::IncrementDivision.name(), "Increment division");
    assert_eq!(Action::HalveDivision.name(), "Halve division");
}

#[test]
fn midi_messages() {
    assert_eq!(MidiEvent::parse(&[0x93, 60, 100]), Some(MidiEvent::NoteOn { channel: 3, key: 60, velocity: 100 }));
    assert_eq!(MidiEvent::parse(&[0x80, 61]), Some(MidiEvent::NoteOff { channel: 0, key: 61 }));
    assert_eq!(MidiEvent::parse(&[0x90, 60]), None);
    assert_eq!(MidiEvent::parse(&[0xa1, 2, 3]), Some(MidiEvent::PolyPressure { channel: 1, key: 2, pressure: 3 }));
    assert_eq!(MidiEvent::parse(&[0xbf, 1, 64]), Some(MidiEvent::Controller { channel: 15, controller: 1, value: 64 }));
    assert_eq!(MidiEvent::parse(&[0xd2, 9]), Some(MidiEvent::ChannelPressure { channel: 2, pressure: 9 }));
    assert_eq!(MidiEvent::parse(&[0xe0, 0, 0x40]), Some(MidiEvent::Pitch { channel: 0, bend: 0 }));
    assert_eq!(MidiEvent::parse(&[0xe5, 0x7f, 0x7f]), Some(MidiEvent::Pitch { channel: 5, bend: 0x1fff }));
    assert_eq!(MidiEvent::parse(&[0xe0, 0, 0]), Some(MidiEvent::Pitch { channel: 0, bend: -0x2000 }));
    assert_eq!(MidiEvent::parse(&[0xc0, 1, 2]), None);
    assert_eq!(MidiEvent::parse(&[0x90]), None);
}
