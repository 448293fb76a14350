//! A song of four channels and the cursor that edits it.

use vstd::prelude::*;

verus! {

use crate::pitch::Note;

pub const TICKS_PER_BEAT: u32 = 120;

/// The song being edited and the edit cursor.
pub struct Editor {
    pub song: Song,
    pub cursor: Position,
}

impl Editor {
    /// An editor with the cursor at the start of the song.
    pub fn new(song: Song) -> (r: Self)
        ensures
            r.song == song,
            r.cursor == (Position { tick: 0, channel: 0, column: 0, char: 0 }),
    {
        Self { song, cursor: Position { tick: 0, channel: 0, column: 0, char: 0 } }
    }
}

/// A cursor position.
pub struct Position {
    pub tick: u32,
    pub channel: u8,
    pub column: u8,
    pub char: u8,
}

/// The channels of a song.
pub struct Song {
    pub channels: Vec<Channel>,
}

impl Song {
    /// A song with four empty channels.
    pub fn new() -> (r: Self)
        ensures
            r.channels.len() == 4,
            forall|i: int| 0 <= i < 4 ==> (#[trigger] r.channels[i]).events.len() == 0,
    {
        let mut channels = Vec::new();
        channels.push(Channel::new());
        channels.push(Channel::new());
        channels.push(Channel::new());
        channels.push(Channel::new());
        Self { channels }
    }
}

/// A sequence of events.
pub struct Channel {
    pub events: Vec<Event>,
}

impl Channel {
    fn new() -> (r: Self)
        ensures
            r.events.len() == 0,
    {
        Self { events: Vec::new() }
    }
}

/// An event at a tick.
pub struct Event {
    pub tick: u32,
    pub data: EventData,
}

/// Kinds of event data.
pub enum EventData {
    Pitch(Note),
    Instrument(u8),
    Pressure(u8),
    Modulation(u8),
}

} // verus!
