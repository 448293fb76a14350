use osctet::module::{
    default_division, Channel, ChannelCoords, Edit, Event, EventData, KitEntry, LocatedEvent,
    Module, Position, Track, TrackEdit, TrackTarget,
};
use osctet::pitch::{Nominal, Note};
use osctet::timespan::Timespan;

fn pitch_event(n: i32, d: u8) -> Event {
    Event { tick: Timespan::new(n, d), data: EventData::Pitch(Note::default()) }
}

fn events(m: &Module<u32>, track: usize, channel: usize) -> Vec<Event> {
    m.tracks[track].channels[channel].events.clone()
}

#[test]
fn test_digit_from_midi() {
    assert_eq!(EventData::digit_from_midi(0x00), 0x0);
    assert_eq!(EventData::digit_from_midi(0x7f), 0xF);
    assert_eq!(EventData::digit_from_midi(0x3f), 0x7);
    assert_eq!(EventData::digit_from_midi(0x40), 0x8);
}

#[test]
fn new_module_layout() {
    let m = Module::new(5u32);
    assert_eq!(m.patches, vec![5]);
    assert_eq!(m.tracks.len(), 3);
    assert_eq!(m.tracks[0].target, TrackTarget::Global);
    assert_eq!(m.tracks[1].target, TrackTarget::Kit);
    assert_eq!(m.tracks[2].target, TrackTarget::Patch(0));
    assert_eq!(m.division, default_division());
    assert_eq!(default_division(), 4);
    assert!(!m.has_unsaved_changes);
}

#[test]
fn insert_undo_redo() {
    let mut m = Module::new(0u32);
    let e = pitch_event(1, 2);
    m.insert_event(2, 0, e);
    assert_eq!(events(&m, 2, 0), vec![e]);
    assert!(m.has_unsaved_changes);
    assert!(m.undo());
    assert!(events(&m, 2, 0).is_empty());
    assert!(m.redo());
    assert_eq!(events(&m, 2, 0), vec![e]);
    assert!(!m.redo());
}

#[test]
fn insert_replaces_event_at_same_position() {
    let mut m = Module::new(0u32);
    m.insert_event(2, 0, pitch_event(1, 1));
    let e = Event { tick: Timespan::new(1, 1), data: EventData::NoteOff };
    m.insert_event(2, 0, e);
    assert_eq!(events(&m, 2, 0), vec![e]);
    assert!(m.undo());
    assert_eq!(events(&m, 2, 0), vec![pitch_event(1, 1)]);
}

#[test]
fn inserted_events_are_sorted() {
    let mut m = Module::new(0u32);
    m.insert_event(2, 0, pitch_event(3, 1));
    m.insert_event(2, 0, pitch_event(1, 1));
    m.insert_event(2, 0, pitch_event(2, 1));
    assert_eq!(events(&m, 2, 0), vec![pitch_event(1, 1), pitch_event(2, 1), pitch_event(3, 1)]);
}

#[test]
fn undo_track_edits_restores_tracks() {
    let mut m = Module::new(0u32);
    m.add_track();
    assert_eq!(m.tracks.len(), 4);
    assert_eq!(m.drain_track_history(), vec![TrackEdit::Insert(3)]);
    assert!(m.undo());
    assert_eq!(m.tracks.len(), 3);
    assert_eq!(m.drain_track_history(), vec![TrackEdit::Remove(3)]);

    m.push_edit(Edit::RemapTrack(2, TrackTarget::Kit));
    assert_eq!(m.tracks[2].target, TrackTarget::Kit);
    assert!(m.undo());
    assert_eq!(m.tracks[2].target, TrackTarget::Patch(0));

    m.push_edit(Edit::AddChannel(1, Channel::default()));
    assert_eq!(m.tracks[1].channels.len(), 2);
    assert!(m.undo());
    assert_eq!(m.tracks[1].channels.len(), 1);

    m.push_edit(Edit::ShiftTrack(1, 1));
    assert_eq!(m.tracks[2].target, TrackTarget::Kit);
    assert_eq!(m.tracks[1].target, TrackTarget::Patch(0));
    assert!(m.undo());
    assert_eq!(m.tracks[1].target, TrackTarget::Kit);
    assert_eq!(m.tracks[2].target, TrackTarget::Patch(0));
}

#[test]
fn remove_patch_retargets_tracks_and_kit() {
    let mut m = Module::new(10u32);
    m.push_edit(Edit::InsertPatch(1, 11));
    m.push_edit(Edit::RemapTrack(1, TrackTarget::Patch(1)));
    m.kit.push(KitEntry { patch_index: 1, ..KitEntry::default() });
    m.kit.push(KitEntry { patch_index: 0, ..KitEntry::default() });
    m.push_edit(Edit::RemovePatch(0));
    assert_eq!(m.patches, vec![11]);
    assert_eq!(m.tracks[2].target, TrackTarget::Unassigned);
    assert_eq!(m.tracks[1].target, TrackTarget::Patch(0));
    assert_eq!(m.kit.len(), 1);
    assert_eq!(m.kit[0].patch_index, 0);
    // undoing reinserts the patch and restores the mappings
    assert!(m.undo());
    assert_eq!(m.patches, vec![10, 11]);
    assert_eq!(m.tracks[2].target, TrackTarget::Patch(0));
    assert_eq!(m.tracks[1].target, TrackTarget::Patch(1));
    assert_eq!(m.kit.len(), 2);
    assert_eq!(m.kit[0].patch_index, 1);
    assert_eq!(m.kit[1].patch_index, 0);
    // redoing removes it again
    assert!(m.redo());
    assert_eq!(m.patches, vec![11]);
    assert_eq!(m.tracks[2].target, TrackTarget::Unassigned);
    assert_eq!(m.kit.len(), 1);
}

#[test]
fn kit_mapping() {
    let mut m = Module::new(0u32);
    let input = Note::new(0, Nominal::D, 0, 4);
    let out = Note::new(0, Nominal::A, 1, 3);
    m.kit.push(KitEntry { input_note: input, patch_index: 0, patch_note: out });
    assert_eq!(m.map_input(None, input), Some((0, out)));
    assert_eq!(m.map_input(None, Note::default()), None);
    assert_eq!(m.map_input(Some(3), input), Some((3, input)));
    assert_eq!(m.map_note(input, 1), Some((0, out)));
    assert_eq!(m.map_note(input, 2), Some((0, input)));
    assert_eq!(m.map_note(input, 0), None);
    assert_eq!(m.map_note(input, 9), None);
}

#[test]
fn delete_events_in_range() {
    let mut m = Module::new(0u32);
    m.insert_event(2, 0, pitch_event(0, 1));
    m.insert_event(2, 0, pitch_event(1, 1));
    m.insert_event(2, 0, pitch_event(2, 1));
    let start = Position::new(Timespan::new(1, 1), 2, 0, 0);
    let end = Position::new(Timespan::new(2, 1), 2, 0, 0);
    let found = m.scan_events(start, end);
    assert_eq!(found, vec![LocatedEvent { track: 2, channel: 0, event: pitch_event(1, 1) }]);
    m.delete_events(start, end);
    assert_eq!(events(&m, 2, 0), vec![pitch_event(0, 1), pitch_event(2, 1)]);
    assert!(m.undo());
    assert_eq!(events(&m, 2, 0), vec![pitch_event(0, 1), pitch_event(1, 1), pitch_event(2, 1)]);
}

#[test]
fn shift_events_moves_and_undoes() {
    let mut m = Module::new(0u32);
    m.insert_event(2, 0, pitch_event(1, 1));
    m.insert_event(2, 0, pitch_event(2, 1));
    let start = Position::new(Timespan::new(1, 1), 2, 0, 0);
    let end = Position::new(Timespan::new(1, 1), 2, 0, 0);
    m.shift_channel_events(start, end, Timespan::new(1, 2));
    assert_eq!(events(&m, 2, 0), vec![pitch_event(3, 2), pitch_event(5, 2)]);
    assert!(m.undo());
    assert_eq!(events(&m, 2, 0), vec![pitch_event(1, 1), pitch_event(2, 1)]);
}

#[test]
fn end_and_loop_events() {
    let mut m = Module::new(0u32);
    assert!(!m.ends());
    assert!(!m.loops());
    m.insert_event(0, 0, Event { tick: Timespan::new(4, 1), data: EventData::End });
    assert!(m.ends());
    assert!(!m.loops());
    m.insert_event(0, 0, Event { tick: Timespan::new(2, 1), data: EventData::Loop });
    assert!(m.loops());
    assert_eq!(m.ctrl_events().len(), 2);
    assert_eq!(m.ctrl_events()[0].data, EventData::Loop);
    assert_eq!(m.last_event_tick(), Some(Timespan::new(4, 1)));
}

#[test]
fn last_event_tick_of_empty_module() {
    let m = Module::new(0u32);
    assert_eq!(m.last_event_tick(), None);
}

#[test]
fn channels_between_positions() {
    let mut m = Module::new(0u32);
    m.push_edit(Edit::AddChannel(1, Channel::default()));
    let t = Timespan::zero();
    assert_eq!(m.channels_between(Position::new(t, 0, 0, 0), Position::new(t, 2, 0, 0)), 3);
    assert_eq!(m.channels_between(Position::new(t, 1, 1, 0), Position::new(t, 2, 0, 0)), 1);
    assert_eq!(m.channels_between(Position::new(t, 2, 0, 0), Position::new(t, 1, 0, 0)), 0);
}

#[test]
fn add_channels_moves_across_tracks() {
    let m = Module::new(0u32);
    let p = Position::new(Timespan::zero(), 0, 0, 1);
    assert_eq!(p.add_channels(2, &m.tracks), Some(Position { track: 2, channel: 0, ..p }));
    assert_eq!(p.add_channels(3, &m.tracks), None);
    assert_eq!(p.add_channels(0, &m.tracks), Some(p));
}

#[test]
fn event_columns() {
    assert_eq!(EventData::Pressure(3).logical_column(), 1);
    assert_eq!(EventData::Modulation(3).spatial_column(), 2);
    assert_eq!(EventData::StartGlide(2).logical_column(), 0x82);
    assert_eq!(EventData::StartGlide(2).spatial_column(), 2);
    assert!(EventData::Tempo(0).goes_in_track(0));
    assert!(!EventData::NoteOff.goes_in_track(0));
    assert!(EventData::EndGlide(0).goes_in_track(0));
    assert!(!EventData::EndGlide(1).goes_in_track(0));
    assert!(!EventData::InterpolatedPitch(0).goes_in_track(3));
}

#[test]
fn channel_shift_and_interpolation() {
    let mut c = Channel::default();
    c.events.push(pitch_event(2, 1));
    c.events.push(pitch_event(0, 1));
    c.events.push(Event { tick: Timespan::new(1, 1), data: EventData::StartGlide(0) });
    c.sort_events();
    assert_eq!(c.events[0], pitch_event(0, 1));
    assert!(c.is_interpolated(0, Timespan::new(3, 2)));
    assert!(!c.is_interpolated(0, Timespan::new(1, 2)));
    assert_eq!(c.interp_by_col(0).len(), 1);
    assert_eq!(c.prev_event(0, Timespan::new(3, 2)), Some(&pitch_event(0, 1)));
    let deleted = c.shift_events(Timespan::new(1, 1), Timespan::new(-1, 1));
    assert_eq!(deleted, vec![Event { tick: Timespan::new(1, 1), data: EventData::StartGlide(0) }]);
    assert_eq!(c.events, vec![pitch_event(0, 1), pitch_event(1, 1)]);
}

#[test]
fn coords_and_positions() {
    let c = ChannelCoords::new(3, 4);
    assert_eq!((c.track(), c.channel()), (3, 4));
    let p = Position::new(Timespan::new(1, 3), 1, 2, 1);
    assert_eq!(p.x_tuple(), (1, 2, 1));
    let e = LocatedEvent::from_position(p, EventData::Pressure(9));
    assert_eq!(e.position(), p);
    let t = Track::new(TrackTarget::Kit);
    assert_eq!(t.channels.len(), 1);
}

#[test]
fn replace_events_and_undo() {
    let mut m = Module::new(0u32);
    m.insert_event(2, 0, pitch_event(1, 1));
    m.insert_event(2, 0, pitch_event(2, 1));
    let new = Event { tick: Timespan::new(2, 1), data: EventData::Pitch(Note::new(0, Nominal::G, 0, 3)) };
    m.push_edit(Edit::ReplaceEvents(vec![LocatedEvent { track: 2, channel: 0, event: new }]));
    assert_eq!(events(&m, 2, 0), vec![pitch_event(1, 1), new]);
    assert!(m.undo());
    assert_eq!(events(&m, 2, 0), vec![pitch_event(1, 1), pitch_event(2, 1)]);
    let old = m.replace_event(LocatedEvent { track: 2, channel: 0, event: new });
    assert_eq!(old.event, pitch_event(2, 1));
    assert_eq!(events(&m, 2, 0)[1], new);
}

#[test]
fn sync_edits_returns_recorded_edits() {
    let mut m = Module::new(7u32);
    m.push_edit(Edit::RemapTrack(1, TrackTarget::Global));
    assert!(m.sync_edits().is_empty());
    m.sync = true;
    m.push_edit(Edit::InsertPatch(1, 9));
    m.push_edit(Edit::RemoveTrack(0));
    assert!(m.undo());
    let edits = m.sync_edits();
    assert_eq!(edits.len(), 3);
    assert!(matches!(edits[0], Edit::InsertPatch(1, 9)));
    assert!(matches!(edits[1], Edit::RemoveTrack(0)));
    match &edits[2] {
        Edit::InsertTrack(0, t) => assert_eq!(t.target, TrackTarget::Global),
        _ => panic!("expected the undo's track insertion"),
    }
    assert!(m.sync_edits().is_empty());
}

#[test]
fn delete_empty_selection_changes_nothing() {
    let mut m = Module::new(0u32);
    let p = Position { tick: Timespan::new(0, 1), track: 0, channel: 0, column: 0 };
    m.delete_events(p, p);
    assert!(!m.has_unsaved_changes);
    assert!(!m.undo());
}

#[test]
fn adding_channels_between_reaches_end() {
    let mut m = Module::new(0u32);
    m.push_edit(Edit::AddChannel(1, Channel::default()));
    m.push_edit(Edit::AddChannel(2, Channel::default()));
    let t = Timespan::new(3, 2);
    let start = Position::new(t, 0, 0, 1);
    for (track, channel) in [(0, 0), (1, 0), (1, 1), (2, 0), (2, 1)] {
        let end = Position::new(t, track, channel, 0);
        let n = m.channels_between(start, end);
        assert_eq!(start.add_channels(n, &m.tracks), Some(Position { track, channel, ..start }));
    }
}

#[test]
fn moving_events_is_undone_and_redone() {
    let mut m = Module::new(0u32);
    m.insert_event(2, 0, pitch_event(0, 1));
    m.insert_event(2, 0, pitch_event(1, 1));
    m.insert_event(2, 0, pitch_event(2, 1));
    let before = events(&m, 2, 0);
    // move the event at beat 0 to beat 3, and the one at beat 1 onto beat 2
    let a = LocatedEvent { track: 2, channel: 0, event: pitch_event(0, 1) };
    let b = LocatedEvent { track: 2, channel: 0, event: pitch_event(1, 1) };
    let c = LocatedEvent { track: 2, channel: 0, event: pitch_event(2, 1) };
    m.push_edit(Edit::PatternData {
        remove: vec![a.position(), b.position(), c.position()],
        add: vec![
            LocatedEvent { event: pitch_event(3, 1), ..a },
            LocatedEvent { event: pitch_event(2, 1), ..b },
        ],
    });
    let after = events(&m, 2, 0);
    assert_eq!(after, vec![pitch_event(2, 1), pitch_event(3, 1)]);
    assert!(m.undo());
    assert_eq!(events(&m, 2, 0), before);
    assert!(m.redo());
    assert_eq!(events(&m, 2, 0), after);
}

#[test]
fn backward_shift_deletes_and_undo_restores() {
    let mut m = Module::new(0u32);
    m.insert_event(2, 0, pitch_event(0, 1));
    m.insert_event(2, 0, pitch_event(1, 1));
    m.insert_event(2, 0, pitch_event(3, 2));
    m.insert_event(2, 0, pitch_event(3, 1));
    let before = events(&m, 2, 0);
    let start = Position::new(Timespan::new(1, 1), 2, 0, 0);
    // pulling by one beat deletes the events in [1, 2)
    m.shift_channel_events(start, start, Timespan::new(-1, 1));
    let after = events(&m, 2, 0);
    assert_eq!(after, vec![pitch_event(0, 1), pitch_event(2, 1)]);
    assert!(m.undo());
    assert_eq!(events(&m, 2, 0), before);
    assert!(m.redo());
    assert_eq!(events(&m, 2, 0), after);
}

#[test]
fn replace_events_redo() {
    let mut m = Module::new(0u32);
    m.insert_event(2, 0, pitch_event(1, 1));
    let new = Event { tick: Timespan::new(1, 1), data: EventData::Pitch(Note::new(0, Nominal::E, 0, 4)) };
    let missing = Event { tick: Timespan::new(5, 1), data: EventData::NoteOff };
    m.push_edit(Edit::ReplaceEvents(vec![
        LocatedEvent { track: 2, channel: 0, event: new },
        LocatedEvent { track: 2, channel: 0, event: missing },
    ]));
    assert_eq!(events(&m, 2, 0), vec![new]);
    assert!(m.undo());
    assert_eq!(events(&m, 2, 0), vec![pitch_event(1, 1)]);
    assert!(m.redo());
    assert_eq!(events(&m, 2, 0), vec![new]);
}

#[test]
fn adding_two_events_at_one_position_is_undone() {
    let mut m = Module::new(0u32);
    m.insert_event(2, 0, pitch_event(0, 1));
    let before = events(&m, 2, 0);
    let a = LocatedEvent { track: 2, channel: 0, event: pitch_event(1, 1) };
    let b = LocatedEvent {
        track: 2,
        channel: 0,
        event: Event { tick: Timespan::new(1, 1), data: EventData::Pitch(Note::new(0, Nominal::F, 0, 3)) },
    };
    m.push_edit(Edit::PatternData { remove: Vec::new(), add: vec![a, b] });
    assert_eq!(events(&m, 2, 0).len(), 3);
    assert!(m.undo());
    assert_eq!(events(&m, 2, 0), before);
    assert!(m.redo());
    assert_eq!(events(&m, 2, 0), vec![pitch_event(0, 1), a.event, b.event]);
}

#[test]
fn replacing_back_restores_the_event() {
    let mut m = Module::new(0u32);
    m.insert_event(2, 0, pitch_event(1, 1));
    let new = LocatedEvent {
        track: 2,
        channel: 0,
        event: Event { tick: Timespan::new(1, 1), data: EventData::Pitch(Note::new(0, Nominal::B, 0, 2)) },
    };
    let old = m.replace_event(new);
    assert_eq!(old.event, pitch_event(1, 1));
    assert_eq!(m.replace_event(old), new);
    assert_eq!(events(&m, 2, 0), vec![pitch_event(1, 1)]);
    let missing = LocatedEvent { track: 2, channel: 0, event: pitch_event(7, 1) };
    assert_eq!(m.replace_event(missing), missing);
    assert_eq!(events(&m, 2, 0), vec![pitch_event(1, 1)]);
}

#[test]
fn accessors_show_the_edited_state() {
    let mut m = Module::new(3u32);
    m.push_edit(Edit::AddChannel(1, Channel::default()));
    assert_eq!(m.tracks().len(), 3);
    assert_eq!(m.tracks()[1].channels.len(), 2);
    assert_eq!(m.patches(), &vec![3]);
    assert!(m.kit().is_empty());
}

#[test]
fn can_undo_and_redo_check_the_stacks() {
    let mut m = Module::new(0u32);
    assert!(!m.can_undo());
    assert!(!m.can_redo());
    m.push_edit(Edit::AddChannel(2, Channel::default()));
    assert!(m.can_undo());
    assert!(m.edit_applies(&Edit::RemoveChannel(2)));
    assert!(!m.edit_applies(&Edit::RemoveTrack(3)));
    assert!(!m.edit_applies(&Edit::PatternData {
        remove: vec![Position::new(Timespan::zero(), 2, 5, 0)],
        add: Vec::new(),
    }));
    assert!(m.undo());
    assert!(!m.can_undo());
    assert!(m.can_redo());
    // pushing an edit clears the redo history
    m.push_edit(Edit::RemoveTrack(2));
    assert!(!m.can_redo());
}

#[test]
fn undo_gives_back_events_sharing_a_key() {
    let mut m = Module::new(0u32);
    let glide = Event { tick: Timespan::new(1, 1), data: EventData::StartGlide(0) };
    m.insert_event(2, 0, pitch_event(1, 1));
    m.insert_event(2, 0, glide);
    m.insert_event(1, 0, pitch_event(3, 1));
    let other = events(&m, 1, 0);
    assert_eq!(events(&m, 2, 0), vec![pitch_event(1, 1), glide]);
    let p = LocatedEvent { track: 2, channel: 0, event: pitch_event(1, 1) }.position();
    m.push_edit(Edit::PatternData { remove: vec![p], add: Vec::new() });
    assert_eq!(events(&m, 2, 0), vec![glide]);
    assert!(m.undo());
    // the same events come back, in order of position
    assert_eq!(events(&m, 2, 0), vec![glide, pitch_event(1, 1)]);
    assert_eq!(events(&m, 1, 0), other);
}

#[test]
fn shift_that_puts_events_back_is_undone() {
    let mut m = Module::new(0u32);
    m.insert_event(2, 0, pitch_event(0, 1));
    m.insert_event(2, 0, pitch_event(2, 1));
    let before = events(&m, 2, 0);
    let back = LocatedEvent { track: 2, channel: 0, event: pitch_event(3, 2) };
    m.push_edit(Edit::ShiftEvents {
        channels: vec![ChannelCoords::new(2, 0)],
        start: Timespan::new(1, 1),
        distance: Timespan::new(1, 1),
        insert: vec![back],
    });
    let after = events(&m, 2, 0);
    assert_eq!(after, vec![pitch_event(0, 1), pitch_event(3, 2), pitch_event(3, 1)]);
    assert!(m.undo());
    assert_eq!(events(&m, 2, 0), before);
    assert!(m.redo());
    assert_eq!(events(&m, 2, 0), after);
}

#[test]
fn shift_by_zero_changes_nothing() {
    let mut m = Module::new(0u32);
    m.insert_event(2, 0, pitch_event(1, 1));
    let before = events(&m, 2, 0);
    let start = Position::new(Timespan::new(0, 1), 2, 0, 0);
    m.shift_channel_events(start, start, Timespan::zero());
    assert_eq!(events(&m, 2, 0), before);
    assert!(m.undo());
    assert_eq!(events(&m, 2, 0), before);
    assert!(m.redo());
    assert_eq!(events(&m, 2, 0), before);
}
