//! Pattern data laid out on a grid of ticks.

use vstd::prelude::*;

verus! {

use crate::pitch::Note;

pub const TICKS_PER_BEAT: u32 = 120;

pub const GLOBAL_COLUMN: u8 = 0;
pub const NOTE_COLUMN: u8 = 0;
pub const VEL_COLUMN: u8 = 1;
pub const MOD_COLUMN: u8 = 2;

/// A cell of the pattern.
#[derive(Clone, Copy)]
pub struct Position {
    pub tick: u32,
    pub track: usize,
    pub channel: usize,
    pub column: u8,
}

/// Where a track's notes go.
#[derive(Clone, Copy)]
pub enum TrackTarget {
    /// Not mapped to anything.
    Unassigned,
    Global,
    Kit,
    Patch(usize),
}

/// A track and its channels of events.
pub struct Track {
    pub target: TrackTarget,
    pub channels: Vec<Vec<Event>>,
}

impl Track {
    /// A track with one empty channel.
    pub fn new(target: TrackTarget) -> (r: Self)
        ensures
            r.target == target,
            r.channels.len() == 1,
            r.channels[0].len() == 0,
    {
        let mut channels = Vec::new();
        channels.push(Vec::new());
        Self { target, channels }
    }
}

/// An event at a tick.
pub struct Event {
    pub tick: u32,
    pub data: EventData,
}

/// Kinds of pattern event data.
pub enum EventData {
    Pitch(Note),
    Instrument(u8),
    Pressure(u8),
    Modulation(u8),
    /// A tempo change, held as the bit pattern of its `f32` value.
    Tempo(u32),
    LoopStart,
    LoopEnd,
}

} // verus!
