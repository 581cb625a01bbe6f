//! Permanent video buffer with one audio track per application.
//!
//! The screen and the sound of each application are recorded all the time into a
//! ring of short segments; on demand the last seconds are joined into a clip
//! without encoding them again. The tracks of a clip stay separate, so that their
//! balance can be changed afterwards.
//!
//! This library holds what such a program decides and computes: which
//! applications get a track, what a segment and the ring keep, where samples go
//! on the timeline, how a save, a mix and a thumbnail are made up. It reads no
//! clock, talks to no device and touches no file; its callers hand it what they
//! read and carry out what it answers. Times are counted in units of 100 ns.
use vstd::prelude::*;

pub mod audio;
pub mod bench;
pub mod cli;
pub mod clock;
pub mod concat;
pub mod desktop;
pub mod endurance;
pub mod export;
pub mod layout;
pub mod library;
pub mod meter;
pub mod path;
pub mod recorder;
pub mod segment;
pub mod slots;
pub mod text;
pub mod thumbnail;
pub mod video;
pub mod voice;
pub mod wav;

pub use export::{ClipInfo, mix_and_export};
pub use library::{Clip, ClipMeta};
pub use recorder::{Recorder, SaveOutcome};

verus! {

use crate::clock::{HNS_PER_SEC, hns_of_ticks};

/// Working sample rate, common to all tracks.
pub const SAMPLE_RATE: u32 = 48_000;

/// All tracks are stereo.
pub const CHANNELS: u16 = 2;

/// The length of `frames` audio frames in units of 100 ns, rounded down.
pub open spec fn frames_hns(frames: nat) -> nat {
    frames * 10_000_000 / 48_000
}

/// Converts a number of audio frames to units of 100 ns.
pub fn frames_to_hns(frames: u64) -> (r: i64)
    requires
        frames * HNS_PER_SEC <= i64::MAX,
    ensures
        r == frames_hns(frames as nat),
{
    frames as i64 * HNS_PER_SEC / SAMPLE_RATE as i64
}

/// Converts counter ticks to units of 100 ns since the machine started.
///
/// Picture times come in that unit already; this brings sound packets to it, so
/// that both can be compared directly.
pub fn hns_since_boot(ticks: i64, frequency: i64) -> (r: i64)
    requires
        frequency != 0,
    ensures
        r == hns_of_ticks(ticks as int, frequency as int) as i64,
        i64::MIN <= hns_of_ticks(ticks as int, frequency as int) <= i64::MAX ==> r == hns_of_ticks(
            ticks as int,
            frequency as int,
        ),
{
    clock::ticks_to_hns(ticks, frequency)
}

/// Settings of the permanent buffer. Lengths of time are in units of 100 ns.
#[derive(Debug, Clone)]
pub struct Config {
    /// How far back the buffer reaches.
    pub buffer_hns: i64,
    /// Bound on the bytes on disk. It is no mere precaution: encoders ignore the
    /// bit rate they are given, so the length alone bounds nothing.
    pub max_bytes: u64,
    /// Length of a segment. A save finalizes the current one, so it does not
    /// change what is lost, only the grain of the purge and the cost of a save.
    pub segment_hns: i64,
    pub fps: u32,
    pub bitrate: u32,
    /// Applications to capture separately, at most, the microphone not counted.
    pub max_sources: usize,
    /// Track slots in each segment, fixed once the buffer runs.
    pub track_slots: usize,
    /// Records the microphone on its own track. The slot stays reserved, and
    /// silent, without it.
    pub capture_microphone: bool,
    /// Input device, `None` for the default one.
    pub microphone: Option<String>,
    /// Directory of the segments, purged at the start.
    pub workdir: String,
}

impl Config {
    /// The default settings, with a working directory below the directory for
    /// temporary files.
    pub fn default_in(temp_dir: &str) -> (r: Self)
        ensures
            r.buffer_hns == 60 * HNS_PER_SEC,
            r.max_bytes == 2 * 1024 * 1024 * 1024,
            r.segment_hns == 8 * HNS_PER_SEC,
            r.fps == 60,
            r.bitrate == 20_000_000,
            r.max_sources == 4,
            r.track_slots == 6,
            r.capture_microphone,
            r.microphone is None,
            r.workdir@ == path::joined(temp_dir@, "smartclip"@),
    {
        Config {
            buffer_hns: 60 * HNS_PER_SEC,
            max_bytes: 2 * 1024 * 1024 * 1024,
            segment_hns: 8 * HNS_PER_SEC,
            fps: 60,
            bitrate: 20_000_000,
            max_sources: 4,
            // Four applications and the microphone, and one slot ahead for an
            // application launched after the start.
            track_slots: 6,
            capture_microphone: true,
            microphone: None,
            workdir: path::join(temp_dir, "smartclip"),
        }
    }
}

/// Sound lasts as long as it plays: 48 000 frames make a second, any number of
/// seconds come out exactly, and any other number of frames falls short of its
/// length by less than a unit of 100 ns.
pub proof fn frames_last_as_they_play(frames: nat, seconds: nat)
    ensures
        frames_hns(frames) * 48_000 <= frames * 10_000_000,
        frames * 10_000_000 < frames_hns(frames) * 48_000 + 48_000,
        frames_hns(48_000 * seconds) == seconds * 10_000_000,
{
}

} // verus!
