//! Musical time, pitch notation and pattern editing for a tracker.

pub mod numtheory;
pub mod timespan;
pub mod doubles;
pub mod arithmetic;
pub mod beat;
pub mod ui;
pub mod strings;
pub mod pitch;
pub mod input;
pub mod pattern;
pub mod song;
pub mod bytes;
pub mod pcm;
pub mod smpl;
pub mod module;
pub mod reverting;
pub mod ordering;
pub mod stability;
pub mod entry;
pub mod shifting;
pub mod replacing;
pub mod deleting;
pub mod synth;
