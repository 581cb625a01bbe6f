//! Orchestration of the permanent buffer and of saving on demand.
//!
//! The engine runs on a thread of its own, which reads the clocks, talks to the
//! devices and writes the files. What it decides from what it reads stands here.
use crate::Config;
use crate::audio::{Source, SourceView, source_views};
use crate::clock::HNS_PER_SEC;
use crate::segment::{self, SegmentInfo, SegmentRing};
use crate::slots::{self, Attachment, SlotMap, SlotView};
use crate::text;
use crate::video::Capture;
use vstd::prelude::*;

verus! {

/// Without a processed picture for longer than this, the engine counts as
/// stuck. A save legitimately holds the loop for more than a second.
pub const STALL_THRESHOLD_MS: u64 = 15_000;

/// Failures in a row at which the engine gives up: two seconds at 60 pictures
/// per second, enough for an incident, too short for a real breakdown.
pub const MAX_CONSECUTIVE_ERRORS: u32 = 120;

/// Rotations to wait before trying the microphone again.
pub const MIC_RETRY_ROTATIONS: u32 = 8;

/// Length of a block of silence, in milliseconds.
pub const SILENCE_MS: u32 = 100;

/// State of the buffer, for the interface to show.
///
/// The worst that can happen is a buffer that has stopped recording without
/// anybody knowing.
#[derive(Debug)]
pub struct Health {
    pub running: bool,
    /// Writes that failed since the start.
    pub write_errors: u64,
    /// Set where the capture stopped by itself.
    pub failure: Option<String>,
    /// Automatic restarts. Each of them empties the buffer.
    pub restarts: u32,
    /// Pictures left out on purpose to relieve the encoder.
    pub skipped_frames: u64,
    /// Milliseconds since the last processed picture. Nothing else reveals a
    /// write that does not return.
    pub stalled_ms: u64,
}

impl Default for Health {
    fn default() -> (r: Self)
        ensures
            r == (Health {
                running: true,
                write_errors: 0,
                failure: None,
                restarts: 0,
                skipped_frames: 0,
                stalled_ms: 0,
            }),
    {
        Health {
            running: true,
            write_errors: 0,
            failure: None,
            restarts: 0,
            skipped_frames: 0,
            stalled_ms: 0,
        }
    }
}

impl Health {
    /// Whether the loop runs and has not processed a picture for too long.
    pub fn stalled(&self) -> (r: bool)
        ensures
            r == (self.running && self.stalled_ms > 15_000),
    {
        self.running && self.stalled_ms > STALL_THRESHOLD_MS
    }

    /// Notes a stop on request.
    pub fn stop(&mut self)
        ensures
            *final(self) == (Health { running: false, ..*old(self) }),
    {
        self.running = false;
    }

    /// Notes that the engine stopped by itself.
    pub fn fail(&mut self, reason: String)
        ensures
            *final(self) == (Health { running: false, failure: Some(reason), ..*old(self) }),
    {
        self.running = false;
        self.failure = Some(reason);
    }

    /// Notes an automatic restart.
    pub fn note_restart(&mut self)
        requires
            old(self).restarts < u32::MAX,
        ensures
            *final(self) == (Health {
                restarts: (old(self).restarts + 1) as u32,
                ..*old(self)
            }),
    {
        self.restarts = self.restarts + 1;
    }
}

impl Clone for Health {
    fn clone(&self) -> (r: Self)
        ensures
            r.running == self.running,
            r.write_errors == self.write_errors,
            opt_text(r.failure) == opt_text(self.failure),
            r.restarts == self.restarts,
            r.skipped_frames == self.skipped_frames,
            r.stalled_ms == self.stalled_ms,
    {
        Health {
            running: self.running,
            write_errors: self.write_errors,
            failure: match &self.failure {
                Some(reason) => Some(reason.clone()),
                None => None,
            },
            restarts: self.restarts,
            skipped_frames: self.skipped_frames,
            stalled_ms: self.stalled_ms,
        }
    }
}

pub open spec fn opt_text(s: Option<String>) -> Option<Seq<char>> {
    match s {
        Some(s) => Some(s@),
        None => None,
    }
}

/// Time of the last processed picture, in milliseconds since the engine started.
#[derive(Debug, Clone, Copy)]
pub struct Heartbeat {
    pub last_ms: u64,
}

impl Heartbeat {
    pub fn new() -> (r: Self)
        ensures
            r.last_ms == 0,
    {
        Heartbeat { last_ms: 0 }
    }

    pub fn beat(&mut self, elapsed_ms: u64)
        ensures
            final(self).last_ms == elapsed_ms,
    {
        self.last_ms = elapsed_ms;
    }

    /// Milliseconds from the last beat to a later reading.
    pub fn silence_ms(&self, elapsed_ms: u64) -> (r: u64)
        ensures
            r == (if elapsed_ms >= self.last_ms {
                elapsed_ms - self.last_ms
            } else {
                0
            }),
    {
        elapsed_ms.saturating_sub(self.last_ms)
    }
}

/// What a save produced.
#[derive(Debug, Clone)]
pub struct SaveOutcome {
    pub path: String,
    pub duration_hns: i64,
    pub bytes: u64,
    /// Time it took to finalize the current segment, in microseconds.
    pub flush_us: u64,
    /// Time it took to join the segments, in microseconds.
    pub concat_us: u64,
    pub tracks: Vec<String>,
}

impl SaveOutcome {
    /// Time the whole save took, in microseconds.
    pub fn total_us(&self) -> (r: u64)
        requires
            self.flush_us + self.concat_us <= u64::MAX,
        ensures
            r == self.flush_us + self.concat_us,
    {
        self.flush_us + self.concat_us
    }
}

/// How to end the engine when its owner goes away.
#[derive(Debug, Clone, Copy, PartialEq, Eq, Structural)]
pub enum Shutdown {
    /// Wait for the thread.
    Join,
    /// Leave it alone: a stuck thread never comes back, and waiting for it would
    /// freeze the whole program.
    Abandon,
}

/// What the owner of an engine knows of it.
#[derive(Debug)]
pub struct Recorder {
    sources: Vec<String>,
}

impl Recorder {
    pub closed spec fn announced(self) -> Seq<Seq<char>> {
        text::texts(self.sources@)
    }

    /// Takes charge of an engine that is ready, with the tracks it announced.
    pub fn start(sources: Vec<String>) -> (r: Self)
        ensures
            r.announced() == text::texts(sources@),
    {
        Recorder { sources }
    }

    /// The state of the buffer, given the state the engine shares, its last beat
    /// and the time.
    pub fn health(&self, shared: &Health, heartbeat: &Heartbeat, elapsed_ms: u64) -> (r: Health)
        ensures
            r.running == shared.running,
            r.write_errors == shared.write_errors,
            opt_text(r.failure) == opt_text(shared.failure),
            r.restarts == shared.restarts,
            r.skipped_frames == shared.skipped_frames,
            r.stalled_ms == (if !shared.running {
                shared.stalled_ms as int
            } else if elapsed_ms >= heartbeat.last_ms {
                elapsed_ms - heartbeat.last_ms
            } else {
                0
            }),
    {
        let mut health = shared.clone();
        if health.running {
            health.stalled_ms = heartbeat.silence_ms(elapsed_ms);
        }
        health
    }

    /// Labels of the tracks at the start, in the order of the file.
    pub fn initial_tracks(&self) -> (r: &Vec<String>)
        ensures
            text::texts(r@) == self.announced(),
    {
        &self.sources
    }

    /// Labels of the tracks now: what the engine answered, or those of the start
    /// where it did not answer.
    pub fn tracks(&self, answer: Option<Vec<String>>) -> (r: Vec<String>)
        ensures
            text::texts(r@) == (match answer {
                Some(labels) => text::texts(labels@),
                None => self.announced(),
            }),
    {
        match answer {
            Some(labels) => labels,
            None => text::copy_all(&self.sources),
        }
    }

    /// How to end the engine, given its state.
    pub fn shutdown(&self, health: &Health) -> (r: Shutdown)
        ensures
            r == (if health.running && health.stalled_ms > 15_000 {
                Shutdown::Abandon
            } else {
                Shutdown::Join
            }),
    {
        if health.stalled() {
            Shutdown::Abandon
        } else {
            Shutdown::Join
        }
    }
}

/// Why a configuration is refused.
#[derive(Debug, Clone, Copy, PartialEq, Eq, Structural)]
pub enum ConfigError {
    BufferTooShort,
    BadSegmentLength,
    NoFrameRate,
}

impl ConfigError {
    pub open spec fn text(self) -> Seq<char> {
        match self {
            ConfigError::BufferTooShort => "le buffer doit couvrir au moins 5 secondes"@,
            ConfigError::BadSegmentLength => "la durée de segment doit être positive et tenir dans le buffer"@,
            ConfigError::NoFrameRate => "la cadence doit être positive"@,
        }
    }

    pub fn message(&self) -> (r: &'static str)
        ensures
            r@ == self.text(),
    {
        match self {
            ConfigError::BufferTooShort => "le buffer doit couvrir au moins 5 secondes",
            ConfigError::BadSegmentLength => "la durée de segment doit être positive et tenir dans le buffer",
            ConfigError::NoFrameRate => "la cadence doit être positive",
        }
    }
}

/// Checks that a configuration can be used, before the engine is started.
pub fn validate(config: &Config) -> (r: Result<(), ConfigError>)
    ensures
        r == (if config.buffer_hns < 5 * HNS_PER_SEC {
            Err(ConfigError::BufferTooShort)
        } else if config.segment_hns <= 0 || config.segment_hns > config.buffer_hns {
            Err(ConfigError::BadSegmentLength)
        } else if config.fps == 0 {
            Err(ConfigError::NoFrameRate)
        } else {
            Ok(())
        }),
{
    if config.buffer_hns < 5 * HNS_PER_SEC {
        return Err(ConfigError::BufferTooShort);
    }
    if config.segment_hns <= 0 || config.segment_hns > config.buffer_hns {
        return Err(ConfigError::BadSegmentLength);
    }
    if config.fps == 0 {
        return Err(ConfigError::NoFrameRate);
    }
    Ok(())
}

/// Restarts in less than a minute beyond which the engine gives up.
pub const MAX_RAPID_RESTARTS: usize = 5;

/// A minute, in nanoseconds.
pub const RAPID_RESTART_NS: u64 = 60_000_000_000;

/// Whether the last restart is one too many: more than five came in less than a
/// minute.
pub open spec fn too_many(times: Seq<u64>) -> bool {
    times.len() > MAX_RAPID_RESTARTS && times.last() - times[times.len() - 1 - MAX_RAPID_RESTARTS]
        < RAPID_RESTART_NS
}

/// The times of restarts that still matter: those of the last five.
pub open spec fn remembered(times: Seq<u64>) -> Seq<u64> {
    if times.len() > MAX_RAPID_RESTARTS {
        times.skip(times.len() - MAX_RAPID_RESTARTS)
    } else {
        times
    }
}

/// The message with which the engine gives up restarting.
pub open spec fn restart_failure(reason: Seq<char>) -> Seq<char> {
    text::decimal((MAX_RAPID_RESTARTS + 1) as nat)
        + " redémarrages en moins d'une minute, dernier motif : "@ + reason
}

/// Bookkeeping of automatic restarts.
///
/// A single restart is normal; a burst has a cause that will not go away.
#[derive(Debug)]
pub struct RestartPolicy {
    /// Times of the last restarts, in nanoseconds, oldest first.
    recent: Vec<u64>,
}

impl View for RestartPolicy {
    type V = Seq<u64>;

    closed spec fn view(&self) -> Seq<u64> {
        self.recent@
    }
}

impl RestartPolicy {
    #[verifier::type_invariant]
    spec fn well_formed(self) -> bool {
        self.recent@.len() <= MAX_RAPID_RESTARTS
    }

    pub fn new() -> (r: Self)
        ensures
            r@ == Seq::<u64>::empty(),
    {
        RestartPolicy { recent: Vec::new() }
    }

    /// Notes a restart and decides whether to go on. Gives up with a message
    /// where more than five came in less than a minute.
    pub fn restart(&mut self, now_ns: u64, reason: &str) -> (r: Result<(), String>)
        ensures
            final(self)@ == remembered(old(self)@.push(now_ns)),
            match r {
                Ok(_) => !too_many(old(self)@.push(now_ns)),
                Err(message) => too_many(old(self)@.push(now_ns)) && message@ == restart_failure(
                    reason@,
                ),
            },
            r is Err <==> old(self)@.len() == 5 && now_ns - old(self)@[0] < 60_000_000_000,
            final(self)@ == (if old(self)@.len() == 5 {
                old(self)@.skip(1)
            } else {
                old(self)@
            }).push(now_ns),
            final(self)@.len() <= 5,
    {
        proof {
            use_type_invariant(&*self);
        }
        let ghost seen = self@.push(now_ns);
        let full = self.recent.len() == MAX_RAPID_RESTARTS;
        let crowded = full && now_ns.saturating_sub(self.recent[0]) < RAPID_RESTART_NS;
        let mut recent: Vec<u64> = Vec::new();
        std::mem::swap(&mut recent, &mut self.recent);
        if full {
            recent.remove(0);
        }
        recent.push(now_ns);
        proof {
            assert(recent@ =~= remembered(seen));
            assert(recent@ =~= (if seen.len() == 6 {
                seen.drop_last().skip(1)
            } else {
                seen.drop_last()
            }).push(now_ns));
            assert(seen.drop_last() =~= old(self)@);
        }
        self.recent = recent;
        if crowded {
            let mut message = text::decimal_text(MAX_RAPID_RESTARTS as u64 + 1);
            message.append(" redémarrages en moins d'une minute, dernier motif : ");
            message.append(reason);
            return Err(message);
        }
        Ok(())
    }
}

/// Length of a picture.
pub open spec fn frame_hns(fps: u32) -> int {
    HNS_PER_SEC / (fps as i64)
}

/// Place of the picture of a tick in a segment that began at the tick `first`.
pub open spec fn frame_start(first: int, tick: int, fps: u32) -> int {
    (tick - first) * frame_hns(fps)
}

/// Ticks between two blocks of silence: 100 ms, and at least one tick.
pub open spec fn silence_ticks(fps: u32) -> int {
    if fps >= 10 {
        fps as int * 100 / 1000
    } else {
        1
    }
}

/// Pictures in a segment: its length at the picture rate, rounded to the nearest
/// number that the counter holds.
pub open spec fn segment_frames(segment_hns: i64, fps: u32) -> int {
    if segment_hns <= 0 {
        0
    } else if (segment_hns * fps + 5_000_000) / 10_000_000 > u64::MAX {
        u64::MAX as int
    } else {
        (segment_hns * fps + 5_000_000) / 10_000_000
    }
}

/// The microphone as a source.
pub open spec fn microphone_source(device: Option<Seq<char>>) -> SourceView {
    SourceView { label: "Micro"@, process: Seq::empty(), pid: None, device }
}

/// The table of slots and the delay of the microphone after a rotation, and the
/// capture of the microphone to start, if any.
///
/// The microphone does not show up in the sweep of applications. Without another
/// try, unplugging a headset would lose it for the rest of the session; without
/// a delay, a missing one would be tried at every rotation.
pub open spec fn microphone_tried(
    table: Seq<Option<SlotView>>,
    retry: nat,
    mic_index: int,
    wanted: bool,
    device: Option<Seq<char>>,
) -> (Seq<Option<SlotView>>, nat, bool) {
    let waited = if retry > 0 {
        (retry - 1) as nat
    } else {
        0
    };
    if wanted && !slots::is_live(table, mic_index) && waited == 0 {
        (
            table.update(mic_index, Some(slots::seat(microphone_source(device)))),
            MIC_RETRY_ROTATIONS as nat,
            true,
        )
    } else {
        (table, waited, false)
    }
}

/// What changes in the tracks at a segment boundary.
#[derive(Debug)]
pub struct SourceChanges {
    /// Labels of the tracks whose capture failed.
    pub lost: Vec<String>,
    /// Capture of the microphone to start.
    pub microphone: Option<Attachment>,
    /// Slots whose capture is to be stopped.
    pub stop: Vec<usize>,
    /// Captures to start.
    pub start: Vec<Attachment>,
}

/// What to do about a failed write.
#[derive(Debug)]
pub struct WriteVerdict {
    /// To be logged.
    pub warning: Option<String>,
    /// Set where the engine has to give up.
    pub fatal: Option<String>,
}

/// What the engine found when it looked for a command.
#[derive(Debug, Clone, Copy, PartialEq, Eq, Structural)]
pub enum Received {
    Save,
    Tracks,
    Stop,
    Nothing,
    /// The owner is gone.
    Disconnected,
}

/// What the engine has just done.
#[derive(Debug, Clone, Copy, PartialEq, Eq, Structural)]
pub enum Stage {
    Commanded(Received),
    /// A save or a request for the tracks was answered.
    Answered,
    /// Whether there is a picture to write.
    PictureTaken(bool),
    /// Whether the engine has to give up writing.
    Written(bool),
    /// Whether the screen requires a restart.
    ScreenChecked(bool),
    Rotated,
    Ended,
}

/// What the engine does next.
#[derive(Debug, Clone, Copy, PartialEq, Eq, Structural)]
pub enum Step {
    /// Look for a command. It comes first in a tick: a stop or a save never waits
    /// behind a rotation.
    ReadCommand,
    Save,
    AnswerTracks,
    /// End, as requested.
    Stop,
    TakePicture,
    /// Write the picture, the sound that came and silence.
    Write,
    /// End with an error.
    GiveUp,
    CheckScreen,
    /// End, and start again for the new screen.
    Restart,
    /// Change the sources and begin the next segment.
    Rotate,
    /// Advance the counter and wait for the next tick.
    EndTick,
}

/// The step that follows, given whether the segment is complete with the picture
/// of this tick. The screen and the sources are looked at on segment boundaries
/// only.
pub open spec fn step_after(stage: Stage, boundary: bool) -> Step {
    match stage {
        Stage::Commanded(Received::Save) => Step::Save,
        Stage::Commanded(Received::Tracks) => Step::AnswerTracks,
        Stage::Commanded(Received::Nothing) => Step::TakePicture,
        Stage::Commanded(_) => Step::Stop,
        Stage::Answered => Step::TakePicture,
        Stage::PictureTaken(there) => if there {
            Step::Write
        } else {
            Step::EndTick
        },
        Stage::Written(fatal) => if fatal {
            Step::GiveUp
        } else if boundary {
            Step::CheckScreen
        } else {
            Step::EndTick
        },
        Stage::ScreenChecked(restart) => if restart {
            Step::Restart
        } else {
            Step::Rotate
        },
        Stage::Rotated => Step::EndTick,
        Stage::Ended => Step::ReadCommand,
    }
}

/// A size as text.
pub open spec fn size_text(width: nat, height: nat) -> Seq<char> {
    text::decimal(width) + "×"@ + text::decimal(height)
}

fn write_size(width: u32, height: u32) -> (r: String)
    ensures
        r@ == size_text(width as nat, height as nat),
{
    let mut r = text::decimal_text(width as u64);
    r.append("×");
    r.append(text::decimal_text(height as u64).as_str());
    r
}

/// Why the engine has to start again, if it has to: the graphics device was lost,
/// or the screen has another size. `size` is the present size of the screen,
/// where it can be read.
///
/// Nothing of either can be mended in place: the size is fixed in the picture
/// stream of the segment, and a lost device takes the textures and the encoder
/// with it. Both are rebuilt.
pub fn restart_reason(capture: &Capture, lost: Option<String>, size: Option<(i32, i32)>) -> (r:
    Option<String>)
    ensures
        opt_text(r) == (match lost {
            Some(reason) => Some("périphérique graphique perdu : "@ + reason@),
            None => match capture.changed(size) {
                Some((width, height)) => Some(
                    "définition passée de "@ + size_text(
                        capture.width as nat,
                        capture.height as nat,
                    ) + " à "@ + size_text(width, height),
                ),
                None => None,
            },
        }),
{
    match lost {
        Some(reason) => {
            let mut message = "périphérique graphique perdu : ".to_owned();
            message.append(reason.as_str());
            Some(message)
        },
        None => match capture.resolution_change(size) {
            Some((width, height)) => {
                let mut message = "définition passée de ".to_owned();
                message.append(write_size(capture.width, capture.height).as_str());
                message.append(" à ");
                message.append(write_size(width, height).as_str());
                Some(message)
            },
            None => None,
        },
    }
}

/// The pace of the loop, in nanoseconds.
#[derive(Debug)]
pub struct Pacer {
    pub next_ns: u64,
    pub tick_ns: u64,
}

impl Pacer {
    pub fn new(now_ns: u64, fps: u32) -> (r: Self)
        requires
            fps > 0,
        ensures
            r.next_ns == now_ns,
            r.tick_ns == 1_000_000_000int / (fps as int),
    {
        Pacer { next_ns: now_ns, tick_ns: 1_000_000_000 / fps as u64 }
    }

    /// Begins a tick.
    pub fn begin(&mut self)
        requires
            old(self).next_ns + old(self).tick_ns <= u64::MAX,
        ensures
            final(self).next_ns == old(self).next_ns + old(self).tick_ns,
            final(self).tick_ns == old(self).tick_ns,
    {
        self.next_ns = self.next_ns + self.tick_ns;
    }

    /// Ends a tick: returns how long to sleep. A loop that is late starts over
    /// from a whole tick after now, so that it never runs without sleeping.
    pub fn end(&mut self, now_ns: u64) -> (sleep_ns: u64)
        requires
            now_ns + old(self).tick_ns <= u64::MAX,
        ensures
            final(self).tick_ns == old(self).tick_ns,
            old(self).next_ns > now_ns ==> sleep_ns == old(self).next_ns - now_ns
                && final(self).next_ns == old(self).next_ns,
            old(self).next_ns <= now_ns ==> sleep_ns == 0 && final(self).next_ns == now_ns
                + old(self).tick_ns,
    {
        if self.next_ns > now_ns {
            self.next_ns - now_ns
        } else {
            self.next_ns = now_ns + self.tick_ns;
            0
        }
    }
}

/// The capture loop: what it counts from tick to tick.
pub struct Engine {
    fps: u32,
    frames_per_segment: u64,
    capture_microphone: bool,
    microphone: Option<String>,
    slots: SlotMap,
    ring: SegmentRing,
    index: u64,
    segment_first_frame: u64,
    consecutive_errors: u32,
    mic_retry: u32,
}

impl Engine {
    /// What holds of the loop at all times.
    pub open spec fn wf(self) -> bool {
        &&& self.rate() > 0
        &&& self.table().len() > 0
        &&& 0 <= self.first() <= self.tick() + 1
        &&& 0 <= self.errors() <= MAX_CONSECUTIVE_ERRORS
    }

    /// Pictures per second.
    pub closed spec fn rate(self) -> u32 {
        self.fps
    }

    pub closed spec fn segment_length(self) -> int {
        self.frames_per_segment as int
    }

    pub closed spec fn wants_microphone(self) -> bool {
        self.capture_microphone
    }

    pub closed spec fn input_device(self) -> Option<Seq<char>> {
        opt_text(self.microphone)
    }

    /// The table of track slots.
    pub closed spec fn table(self) -> Seq<Option<SlotView>> {
        self.slots@
    }

    /// The closed segments that are kept.
    pub closed spec fn kept(self) -> SegmentRing {
        self.ring
    }

    /// The number of the current tick.
    pub closed spec fn tick(self) -> int {
        self.index as int
    }

    /// The tick at which the current segment began.
    pub closed spec fn first(self) -> int {
        self.segment_first_frame as int
    }

    /// Failed writes in a row.
    pub closed spec fn errors(self) -> int {
        self.consecutive_errors as int
    }

    /// Rotations to wait before the microphone is tried again.
    pub closed spec fn retry(self) -> nat {
        self.mic_retry as nat
    }

    /// The last slot is the microphone's.
    pub open spec fn mic(self) -> int {
        self.table().len() - 1
    }

    /// What no decision changes.
    pub open spec fn same_settings(self, other: Self) -> bool {
        &&& self.rate() == other.rate()
        &&& self.segment_length() == other.segment_length()
        &&& self.wants_microphone() == other.wants_microphone()
        &&& self.input_device() == other.input_device()
    }

    /// Prepares the loop: a vacant table and an empty ring.
    pub fn new(config: &Config) -> (r: Self)
        requires
            config.fps > 0,
            config.track_slots > 0,
        ensures
            r.wf(),
            r.rate() == config.fps,
            r.segment_length() == segment_frames(config.segment_hns, config.fps),
            r.wants_microphone() == config.capture_microphone,
            r.input_device() == opt_text(config.microphone),
            r.table() == Seq::new(config.track_slots as nat, |i: int| None::<SlotView>),
            r.kept()@ == Seq::<SegmentInfo>::empty(),
            r.kept().duration_bound() == config.buffer_hns,
            r.kept().bytes_bound() == config.max_bytes,
            r.tick() == 0,
            r.first() == 0,
            r.errors() == 0,
            r.retry() == 0,
    {
        let frames: u64 = if config.segment_hns <= 0 {
            0
        } else {
            proof {
                let (h, f) = (config.segment_hns as int, config.fps as int);
                assert(0 <= h * f <= 0x7fff_ffff_ffff_ffff * 0xffff_ffff) by (nonlinear_arith)
                    requires
                        0 <= h <= 0x7fff_ffff_ffff_ffff,
                        0 <= f <= 0xffff_ffff,
                ;
            }
            let exact: u128 = (config.segment_hns as u128 * config.fps as u128 + 5_000_000)
                / 10_000_000;
            if exact > u64::MAX as u128 {
                u64::MAX
            } else {
                exact as u64
            }
        };
        Engine {
            fps: config.fps,
            frames_per_segment: frames,
            capture_microphone: config.capture_microphone,
            microphone: match &config.microphone {
                Some(device) => Some(device.clone()),
                None => None,
            },
            slots: SlotMap::new(config.track_slots),
            ring: SegmentRing::new(config.buffer_hns, config.max_bytes),
            index: 0,
            segment_first_frame: 0,
            consecutive_errors: 0,
            mic_retry: 0,
        }
    }

    fn microphone_as_source(&self) -> (r: Source)
        ensures
            r@ == microphone_source(self.input_device()),
    {
        let label = "Micro".to_owned();
        let process = String::new();
        let device = match &self.microphone {
            Some(device) => Some(device.clone()),
            None => None,
        };
        let r = Source { label, process, pid: None, device };
        proof {
            assert(r.process@ =~= Seq::<char>::empty());
        }
        r
    }

    /// Attaches the microphone, where it is wanted, then seats the sources that
    /// were found. The last slot is kept for the microphone: it is always there,
    /// and giving it to an application would change the streams from one session
    /// to the next. Returns the captures to start.
    pub fn populate(&mut self, found: Vec<Source>) -> (start: Vec<Attachment>)
        requires
            old(self).wf(),
        ensures
            final(self).wf(),
            final(self).same_settings(*old(self)),
            final(self).same_counts(*old(self)),
            final(self).kept() == old(self).kept(),
            final(self).table().len() == old(self).table().len(),
            ({
                let mic = microphone_source(old(self).input_device());
                let (table, first) = if old(self).wants_microphone() {
                    (
                        old(self).table().update(old(self).mic(), Some(slots::seat(mic))),
                        seq![slots::attachment(old(self).mic(), mic)],
                    )
                } else {
                    (old(self).table(), Seq::empty())
                };
                let seating = slots::seated(table, source_views(found@), old(self).mic(), false);
                &&& final(self).table() == seating.0
                &&& slots::attachment_views(start@) == first + seating.1
            }),
    {
        let mic_index: usize = self.slots.slots.len() - 1;
        let mut start: Vec<Attachment> = Vec::new();
        proof {
            assert(slots::attachment_views(start@) =~= Seq::empty());
        }
        if self.capture_microphone {
            let source = self.microphone_as_source();
            if let Some(attached) = self.slots.attach(mic_index, source) {
                start.push(attached);
            }
            proof {
                assert(slots::attachment_views(start@) =~= seq![
                    slots::attachment(
                        old(self).mic(),
                        microphone_source(old(self).input_device()),
                    ),
                ]);
            }
        }
        let ghost first = slots::attachment_views(start@);
        let ghost table = self.slots@;
        let ghost views = source_views(found@);
        let mut seated = self.slots.seat_all(found, mic_index, false);
        proof {
            slots::seating_fills_vacant_slots(table, views, mic_index as int, false);
        }
        let ghost seats = slots::attachment_views(seated@);
        start.append(&mut seated);
        proof {
            assert(slots::attachment_views(start@) =~= first + seats);
        }
        start
    }

    /// What the counters say.
    pub open spec fn same_counts(self, other: Self) -> bool {
        &&& self.tick() == other.tick()
        &&& self.first() == other.first()
        &&& self.errors() == other.errors()
        &&& self.retry() == other.retry()
    }

    /// Labels of the tracks now.
    pub fn labels(&self) -> (r: Vec<String>)
        ensures
            text::texts(r@) == slots::track_labels(self.table()),
    {
        self.slots.labels()
    }

    /// Whether the capture of a slot runs.
    pub fn is_active(&self, slot: usize) -> (r: bool)
        ensures
            r == slots::is_live(self.table(), slot as int),
    {
        self.slots.is_active(slot)
    }

    /// The number of the current tick.
    pub fn index(&self) -> (r: u64)
        ensures
            r == self.tick(),
    {
        self.index
    }

    /// Place of the picture of this tick in the current segment, and its length.
    ///
    /// Pictures are placed at a constant rate. Placing them by the clock would
    /// write every hiccup of the loop into the file: a delay of two seconds
    /// would become a hole of two seconds.
    pub fn frame_time(&self) -> (r: (i64, i64))
        requires
            self.wf(),
            self.first() <= self.tick(),
            frame_start(self.first(), self.tick(), self.rate()) <= i64::MAX,
            self.tick() - self.first() <= i64::MAX,
        ensures
            r.0 == frame_start(self.first(), self.tick(), self.rate()),
            r.1 == frame_hns(self.rate()),
    {
        let duration: i64 = HNS_PER_SEC / self.fps as i64;
        let since: u64 = self.index - self.segment_first_frame;
        proof {
            let (n, d) = (since as int, duration as int);
            assert(0 <= n * d) by (nonlinear_arith)
                requires
                    n >= 0,
                    d >= 0,
            ;
        }
        (since as i64 * duration, duration)
    }

    /// The tracks to feed a block of silence at this tick: the slots without a
    /// running capture, every 100 ms.
    ///
    /// A declared stream that receives nothing keeps the segment from being
    /// finalized. One block per picture would fragment the file.
    pub fn silent_tracks(&self) -> (r: Vec<usize>)
        requires
            self.wf(),
            self.first() <= self.tick(),
        ensures
            r@.map_values(|i: usize| i as int) == (if (self.tick() - self.first()) % silence_ticks(
                self.rate(),
            ) == 0 {
                silent_slots(self.table(), self.table().len() as int)
            } else {
                Seq::empty()
            }),
    {
        let mut r: Vec<usize> = Vec::new();
        proof {
            assert(r@.map_values(|i: usize| i as int) =~= Seq::<int>::empty());
        }
        let exact: u64 = self.fps as u64 * SILENCE_MS as u64 / 1000;
        let period: u64 = if exact > 1 {
            exact
        } else {
            1
        };
        proof {
            assert(SILENCE_MS == 100);
            assert(period == silence_ticks(self.rate()));
        }
        if (self.index - self.segment_first_frame) % period != 0 {
            return r;
        }
        for i in 0..self.slots.slots.len()
            invariant
                r@.map_values(|i: usize| i as int) == silent_slots(self.table(), i as int),
        {
            if !self.slots.is_active(i) {
                let ghost before = r@;
                r.push(i);
                proof {
                    assert(r@.map_values(|i: usize| i as int) =~= before.map_values(
                        |i: usize| i as int,
                    ).push(i as int));
                }
            }
        }
        r
    }

    /// The writes of a tick with a picture, in order: the picture, then all the
    /// sound that waits in the queues of the tracks, then silence where it is due.
    /// `waiting` tells how many chunks wait for each track.
    ///
    /// All of them are made, whatever comes of the picture: sound that is left in
    /// its queue while pictures fail would pile up there.
    pub fn tick_writes(&self, waiting: &Vec<usize>) -> (r: Vec<TickWrite>)
        requires
            self.wf(),
            self.first() <= self.tick(),
        ensures
            r@ == writes_of(
                waiting@,
                if (self.tick() - self.first()) % silence_ticks(self.rate()) == 0 {
                    silent_slots(self.table(), self.table().len() as int)
                } else {
                    Seq::empty()
                },
            ),
    {
        let mut r: Vec<TickWrite> = Vec::new();
        r.push(TickWrite::Picture);
        let ghost first = seq![TickWrite::Picture];
        proof {
            assert(r@ =~= first + queued(waiting@, 0));
        }
        for track in 0..waiting.len()
            invariant
                r@ == first + queued(waiting@, track as int),
        {
            let ghost before = r@;
            let count: usize = waiting[track];
            proof {
                assert(r@ =~= before + chunks_of(track, 0));
            }
            for number in 0..count
                invariant
                    r@ == before + chunks_of(track, number as nat),
            {
                r.push(TickWrite::Chunk { track, number });
                proof {
                    assert(r@ =~= before + chunks_of(track, number as nat + 1));
                }
            }
            proof {
                assert(r@ =~= first + queued(waiting@, track + 1));
            }
        }
        let silent = self.silent_tracks();
        let ghost sound = r@;
        let ghost tracks = silent@.map_values(|i: usize| i as int);
        proof {
            assert(r@ =~= sound + silences(tracks.take(0)));
        }
        for i in 0..silent.len()
            invariant
                tracks == silent@.map_values(|i: usize| i as int),
                r@ == sound + silences(tracks.take(i as int)),
        {
            r.push(TickWrite::Silence { track: silent[i] });
            proof {
                assert(r@ =~= sound + silences(tracks.take(i + 1)));
            }
        }
        proof {
            assert(tracks.take(tracks.len() as int) =~= tracks);
        }
        r
    }

    /// Notes the outcome of the writes of a tick: nothing, or the first error.
    ///
    /// A write that fails does not end the buffer: a disk that is busy for a
    /// moment costs a few pictures. One warning per second at most is given, and
    /// the engine gives up after too many failures in a row.
    pub fn written(&mut self, health: &mut Health, error: Option<String>) -> (r: WriteVerdict)
        requires
            old(self).wf(),
            old(self).errors() < MAX_CONSECUTIVE_ERRORS,
            old(health).write_errors < u64::MAX,
        ensures
            final(self).wf(),
            final(self).same_settings(*old(self)),
            final(self).table() == old(self).table(),
            final(self).kept() == old(self).kept(),
            final(self).tick() == old(self).tick(),
            final(self).first() == old(self).first(),
            final(self).retry() == old(self).retry(),
            match error {
                None => {
                    &&& final(self).errors() == 0
                    &&& *final(health) == *old(health)
                    &&& r.warning is None
                    &&& r.fatal is None
                },
                Some(e) => {
                    let n = old(self).errors() + 1;
                    &&& final(self).errors() == n
                    &&& *final(health) == (Health {
                        write_errors: (old(health).write_errors + 1) as u64,
                        ..*old(health)
                    })
                    &&& opt_text(r.warning) == (if n % (old(self).rate() as int) == 1 {
                        Some(write_warning(n as nat, e@))
                    } else {
                        None
                    })
                    &&& r.warning is Some <==> n % (old(self).rate() as int) == 1
                    &&& r.fatal is Some <==> n >= 120
                    &&& opt_text(r.fatal) == (if n >= MAX_CONSECUTIVE_ERRORS {
                        Some(write_failure(n as nat, e@))
                    } else {
                        None
                    })
                },
            },
    {
        let e = match error {
            None => {
                self.consecutive_errors = 0;
                return WriteVerdict { warning: None, fatal: None };
            },
            Some(e) => e,
        };
        self.consecutive_errors = self.consecutive_errors + 1;
        health.write_errors = health.write_errors + 1;
        let n: u32 = self.consecutive_errors;
        let warning = if n % self.fps == 1 {
            let mut message = "écriture en échec (".to_owned();
            message.append(text::decimal_text(n as u64).as_str());
            message.append(" d'affilée) : ");
            message.append(e.as_str());
            Some(message)
        } else {
            None
        };
        let fatal = if n >= MAX_CONSECUTIVE_ERRORS {
            let mut message = "écriture impossible depuis ".to_owned();
            message.append(text::decimal_text(n as u64).as_str());
            message.append(" images : ");
            message.append(e.as_str());
            Some(message)
        } else {
            None
        };
        WriteVerdict { warning, fatal }
    }

    /// Whether the current segment is complete with the picture of this tick.
    pub fn at_boundary(&self) -> (r: bool)
        requires
            self.wf(),
            self.tick() < u64::MAX,
        ensures
            r == (self.tick() + 1 - self.first() >= self.segment_length()),
    {
        self.index + 1 - self.segment_first_frame >= self.frames_per_segment
    }

    /// Decides the next step of a tick.
    pub fn next_step(&self, stage: Stage) -> (r: Step)
        requires
            self.wf(),
            self.tick() < u64::MAX,
        ensures
            r == step_after(
                stage,
                self.tick() + 1 - self.first() >= self.segment_length(),
            ),
    {
        match stage {
            Stage::Commanded(received) => match received {
                Received::Save => Step::Save,
                Received::Tracks => Step::AnswerTracks,
                Received::Stop => Step::Stop,
                Received::Disconnected => Step::Stop,
                Received::Nothing => Step::TakePicture,
            },
            Stage::Answered => Step::TakePicture,
            Stage::PictureTaken(there) => {
                if there {
                    Step::Write
                } else {
                    Step::EndTick
                }
            },
            Stage::Written(fatal) => {
                if fatal {
                    Step::GiveUp
                } else if self.at_boundary() {
                    Step::CheckScreen
                } else {
                    Step::EndTick
                }
            },
            Stage::ScreenChecked(restart) => {
                if restart {
                    Step::Restart
                } else {
                    Step::Rotate
                }
            },
            Stage::Rotated => Step::EndTick,
            Stage::Ended => Step::ReadCommand,
        }
    }

    /// Notes that the capture of a slot has ended.
    pub fn capture_ended(&mut self, slot: usize)
        requires
            old(self).wf(),
        ensures
            final(self).wf(),
            final(self).same_settings(*old(self)),
            final(self).same_counts(*old(self)),
            final(self).kept() == old(self).kept(),
            final(self).table() == (if slot < old(self).table().len() && old(
                self,
            ).table()[slot as int] is Some {
                old(self).table().update(
                    slot as int,
                    Some(SlotView { alive: false, ..old(self).table()[slot as int]->0 }),
                )
            } else {
                old(self).table()
            }),
    {
        self.slots.mark_ended(slot);
    }

    /// Changes the sources at a segment boundary: drops the captures that ended,
    /// tries the microphone again, and follows the applications that were seen
    /// last, if any were.
    ///
    /// During a segment the table stands still, so that a transition always
    /// falls on a boundary, where it cannot make samples overlap.
    pub fn change_sources(&mut self, seen: Option<Vec<Source>>) -> (r: SourceChanges)
        requires
            old(self).wf(),
        ensures
            final(self).wf(),
            final(self).same_settings(*old(self)),
            final(self).tick() == old(self).tick(),
            final(self).first() == old(self).first(),
            final(self).errors() == old(self).errors(),
            final(self).kept() == old(self).kept(),
            final(self).table().len() == old(self).table().len(),
            text::texts(r.lost@) == slots::dead_labels(old(self).table()),
            ({
                let mic = old(self).mic();
                let device = old(self).input_device();
                let (table, retry, tried) = microphone_tried(
                    slots::reaped(old(self).table()),
                    old(self).retry(),
                    mic,
                    old(self).wants_microphone(),
                    device,
                );
                &&& final(self).retry() == retry
                &&& match r.microphone {
                    Some(start) => tried && start@ == slots::attachment(
                        mic,
                        microphone_source(device),
                    ),
                    None => !tried,
                }
                &&& match seen {
                    Some(seen) => {
                        &&& final(self).table() == slots::reconciled(
                            table,
                            source_views(seen@),
                            mic,
                        )
                        &&& r.stop@.map_values(|i: usize| i as int) == slots::gone_indices(
                            table,
                            source_views(seen@),
                        )
                        &&& slots::attachment_views(r.start@) == slots::seated(
                            slots::released(table, source_views(seen@)),
                            source_views(seen@),
                            mic,
                            true,
                        ).1
                    },
                    None => final(self).table() == table && r.stop@.len() == 0 && r.start@.len()
                        == 0,
                }
            }),
    {
        let mic_index: usize = self.slots.slots.len() - 1;
        let lost = self.slots.reap();
        self.mic_retry = self.mic_retry.saturating_sub(1);
        let mut microphone: Option<Attachment> = None;
        if self.capture_microphone && !self.slots.is_active(mic_index) && self.mic_retry == 0 {
            self.mic_retry = MIC_RETRY_ROTATIONS;
            let source = self.microphone_as_source();
            microphone = self.slots.attach(mic_index, source);
        }
        match seen {
            Some(seen) => {
                proof {
                    slots::reconciliation_is_faithful(
                        self.slots@,
                        source_views(seen@),
                        mic_index as int,
                    );
                }
                let changes = self.slots.reconcile(seen, mic_index);
                SourceChanges { lost, microphone, stop: changes.stop, start: changes.start }
            },
            None => SourceChanges { lost, microphone, stop: Vec::new(), start: Vec::new() },
        }
    }

    /// Begins the next segment, behind the picture of this tick, and takes in the
    /// segments that were closed meanwhile. Returns those whose files are to be
    /// erased.
    pub fn change_segment(&mut self, closed: Vec<SegmentInfo>) -> (purged: Vec<SegmentInfo>)
        requires
            old(self).wf(),
            old(self).tick() < u64::MAX,
            can_absorb(old(self).kept()@, closed@),
        ensures
            final(self).wf(),
            final(self).same_settings(*old(self)),
            final(self).table() == old(self).table(),
            final(self).tick() == old(self).tick(),
            final(self).first() == old(self).tick() + 1,
            final(self).errors() == old(self).errors(),
            final(self).retry() == old(self).retry(),
            absorbs(old(self).kept(), final(self).kept(), closed@, purged@),
    {
        let purged = self.ring.push_all(closed);
        self.segment_first_frame = self.index + 1;
        purged
    }

    /// Takes in the segments that were closed meanwhile and then the current one,
    /// which was closed for the save. Returns those whose files are to be erased.
    pub fn save(&mut self, pending: Vec<SegmentInfo>, current: SegmentInfo) -> (purged: Vec<
        SegmentInfo,
    >)
        requires
            old(self).wf(),
            can_absorb(old(self).kept()@, pending@.push(current)),
        ensures
            final(self).wf(),
            final(self).same_settings(*old(self)),
            final(self).same_counts(*old(self)),
            final(self).table() == old(self).table(),
            absorbs(old(self).kept(), final(self).kept(), pending@.push(current), purged@),
            current.bytes > 0 ==> final(self).kept()@.len() > 0 && final(self).kept()@.last()
                == current,
    {
        let mut all = pending;
        all.push(current);
        let ghost added = all@;
        proof {
            if added.last().bytes > 0 {
                segment::last_is_kept(
                    self.ring@,
                    added,
                    self.ring.duration_bound(),
                    self.ring.bytes_bound(),
                );
            }
        }
        self.ring.push_all(all)
    }

    /// Begins the next segment at this tick, once a save was attempted.
    pub fn saved(&mut self)
        requires
            old(self).wf(),
        ensures
            final(self).wf(),
            final(self).same_settings(*old(self)),
            final(self).table() == old(self).table(),
            final(self).kept() == old(self).kept(),
            final(self).tick() == old(self).tick(),
            final(self).first() == old(self).tick(),
            final(self).errors() == old(self).errors(),
            final(self).retry() == old(self).retry(),
    {
        self.segment_first_frame = self.index;
    }

    /// Describes a save of what the ring holds.
    pub fn outcome(&self, path: String, bytes: u64, flush_us: u64, concat_us: u64) -> (r: SaveOutcome)
        ensures
            r.path == path,
            r.bytes == bytes,
            r.flush_us == flush_us,
            r.concat_us == concat_us,
            r.duration_hns == segment::total_duration(self.kept()@),
            text::texts(r.tracks@) == slots::track_labels(self.table()),
    {
        SaveOutcome {
            path,
            duration_hns: self.ring.duration_hns(),
            bytes,
            flush_us,
            concat_us,
            tracks: self.slots.labels(),
        }
    }

    /// The closed segments that are kept.
    pub fn ring(&self) -> (r: &SegmentRing)
        ensures
            *r == self.kept(),
    {
        &self.ring
    }

    /// Ends the tick, whether or not a picture came: tying the counter to the
    /// pictures would detach the times in the file from the time that passes.
    pub fn end_tick(&mut self)
        requires
            old(self).wf(),
            old(self).tick() < u64::MAX,
        ensures
            final(self).wf(),
            final(self).same_settings(*old(self)),
            final(self).table() == old(self).table(),
            final(self).kept() == old(self).kept(),
            is_next_tick(*old(self), *final(self)),
            final(self).tick() == old(self).tick() + 1,
            final(self).first() == old(self).first(),
            final(self).first() <= final(self).tick(),
            final(self).errors() == old(self).errors(),
            final(self).retry() == old(self).retry(),
    {
        self.index = self.index + 1;
    }

    /// Empties the ring when the engine stops. Returns the segments whose files
    /// are to be erased.
    pub fn stop(self) -> (dropped: Vec<SegmentInfo>)
        ensures
            dropped@ == self.kept()@,
    {
        let mut ring = self.ring;
        ring.clear()
    }
}

/// A write of a tick.
#[derive(Debug, Clone, Copy, PartialEq, Eq, Structural)]
pub enum TickWrite {
    Picture,
    /// The chunk with this number among those that wait for a track.
    Chunk { track: usize, number: usize },
    /// A block of silence for a track.
    Silence { track: usize },
}

/// The first `n` chunks that wait for a track.
pub open spec fn chunks_of(track: usize, n: nat) -> Seq<TickWrite> {
    Seq::new(n, |i: int| TickWrite::Chunk { track, number: i as usize })
}

/// All chunks that wait for the first `n` tracks, track by track.
pub open spec fn queued(waiting: Seq<usize>, n: int) -> Seq<TickWrite>
    decreases n,
{
    if n <= 0 {
        Seq::empty()
    } else {
        queued(waiting, n - 1) + chunks_of((n - 1) as usize, waiting[n - 1] as nat)
    }
}

/// A block of silence for each of some tracks.
pub open spec fn silences(tracks: Seq<int>) -> Seq<TickWrite> {
    Seq::new(tracks.len(), |i: int| TickWrite::Silence { track: tracks[i] as usize })
}

/// The writes of a tick: the picture, what waits for the tracks, and silence.
pub open spec fn writes_of(waiting: Seq<usize>, silent: Seq<int>) -> Seq<TickWrite> {
    seq![TickWrite::Picture] + queued(waiting, waiting.len() as int) + silences(silent)
}

/// The error of the first write that failed, if any did.
pub open spec fn first_failed(outcomes: Seq<Option<String>>) -> Option<Seq<char>>
    decreases outcomes.len(),
{
    if outcomes.len() == 0 {
        None
    } else {
        match first_failed(outcomes.drop_last()) {
            Some(error) => Some(error),
            None => opt_text(outcomes.last()),
        }
    }
}

/// Sums up the writes of a tick, given the error of each that failed: gives that of
/// the first one, and nothing where none failed.
pub fn first_failure(outcomes: &Vec<Option<String>>) -> (r: Option<String>)
    ensures
        opt_text(r) == first_failed(outcomes@),
        r is None <==> forall|i: int| 0 <= i < outcomes@.len() ==> #[trigger] outcomes@[i] is None,
        r matches Some(error) ==> exists|i: int|
            {
                &&& 0 <= i < outcomes@.len()
                &&& #[trigger] outcomes@[i] matches Some(failed) && failed@ == error@
                &&& forall|j: int| 0 <= j < i ==> #[trigger] outcomes@[j] is None
            },
{
    proof {
        assert(outcomes@.take(0) =~= Seq::empty());
    }
    for i in 0..outcomes.len()
        invariant
            first_failed(outcomes@.take(i as int)) is None,
            forall|j: int| 0 <= j < i ==> #[trigger] outcomes@[j] is None,
    {
        proof {
            assert(outcomes@.take(i + 1).drop_last() =~= outcomes@.take(i as int));
            assert(outcomes@.take(i + 1).last() == outcomes@[i as int]);
        }
        if let Some(error) = &outcomes[i] {
            proof {
                the_first_failure_counts(outcomes@, i as int);
            }
            return Some(error.clone());
        }
    }
    proof {
        assert(outcomes@.take(outcomes@.len() as int) =~= outcomes@);
    }
    None
}

/// The slots, among the first `n`, without a running capture.
pub open spec fn silent_slots(table: Seq<Option<SlotView>>, n: int) -> Seq<int>
    decreases n,
{
    if n <= 0 {
        Seq::empty()
    } else if slots::is_live(table, n - 1) {
        silent_slots(table, n - 1)
    } else {
        silent_slots(table, n - 1).push(n - 1)
    }
}

/// The warning about a failed write.
pub open spec fn write_warning(n: nat, error: Seq<char>) -> Seq<char> {
    "écriture en échec ("@ + text::decimal(n) + " d'affilée) : "@ + error
}

/// The message with which the engine gives up writing.
pub open spec fn write_failure(n: nat, error: Seq<char>) -> Seq<char> {
    "écriture impossible depuis "@ + text::decimal(n) + " images : "@ + error
}

/// Whether segments can be added to a ring without exceeding what a machine
/// number holds.
pub open spec fn can_absorb(kept: Seq<SegmentInfo>, added: Seq<SegmentInfo>) -> bool {
    &&& forall|i: int| 0 <= i < added.len() ==> (#[trigger] added[i]).duration_hns >= 0
    &&& segment::total_duration(kept) + segment::total_duration(added) <= i64::MAX
    &&& segment::total_bytes(kept) + segment::total_bytes(added) <= u64::MAX
}

/// Whether a ring took in segments, and which left it.
pub open spec fn absorbs(
    before: SegmentRing,
    after: SegmentRing,
    added: Seq<SegmentInfo>,
    purged: Seq<SegmentInfo>,
) -> bool {
    &&& after.duration_bound() == before.duration_bound()
    &&& after.bytes_bound() == before.bytes_bound()
    &&& after@ == segment::absorbed(
        before@,
        added,
        before.duration_bound(),
        before.bytes_bound(),
    )
    &&& purged + after@ == before@ + segment::with_content(added)
    &&& before.bounded() ==> after.bounded()
}

/// Of several failed writes of a tick the first one counts, whatever comes of the
/// later ones.
pub proof fn the_first_failure_counts(outcomes: Seq<Option<String>>, i: int)
    requires
        0 <= i < outcomes.len(),
        outcomes[i] is Some,
        forall|j: int| 0 <= j < i ==> #[trigger] outcomes[j] is None,
    ensures
        first_failed(outcomes) == opt_text(outcomes[i]),
    decreases outcomes.len(),
{
    let before = outcomes.drop_last();
    if i < before.len() {
        the_first_failure_counts(before, i);
    } else {
        none_failed(before);
    }
}

proof fn none_failed(outcomes: Seq<Option<String>>)
    requires
        forall|j: int| 0 <= j < outcomes.len() ==> #[trigger] outcomes[j] is None,
    ensures
        first_failed(outcomes) is None,
    decreases outcomes.len(),
{
    if outcomes.len() > 0 {
        none_failed(outcomes.drop_last());
        assert(outcomes[outcomes.len() - 1] == outcomes.last());
    }
}

/// The queues of the tracks are drained at every tick with a picture: each chunk
/// that waits is written once, and nothing that does not wait. What comes of the
/// write of the picture has no part in it.
pub proof fn queues_are_drained(waiting: Seq<usize>, silent: Seq<int>, track: usize, number: usize)
    requires
        waiting.len() <= usize::MAX,
    ensures
        writes_of(waiting, silent).contains(TickWrite::Chunk { track, number }) <==> track
            < waiting.len() && number < waiting[track as int],
        forall|i: int, j: int|
            0 <= i < j < writes_of(waiting, silent).len() && #[trigger] writes_of(
                waiting,
                silent,
            )[i] is Chunk ==> writes_of(waiting, silent)[i] != #[trigger] writes_of(
                waiting,
                silent,
            )[j],
{
    let chunks = queued(waiting, waiting.len() as int);
    let writes = writes_of(waiting, silent);
    let chunk = TickWrite::Chunk { track, number };
    queued_once(waiting, waiting.len() as int);
    assert(chunks.contains(chunk) <==> track < waiting.len() && number < waiting[track as int]);
    if chunks.contains(chunk) {
        let k = choose|k: int| 0 <= k < chunks.len() && chunks[k] == chunk;
        assert(writes[k + 1] == chunk);
    }
    if writes.contains(chunk) {
        let k = choose|k: int| 0 <= k < writes.len() && writes[k] == chunk;
        assert(chunks[k - 1] == chunk);
    }
    assert forall|i: int, j: int|
        0 <= i < j < writes.len() && #[trigger] writes[i] is Chunk implies writes[i]
        != #[trigger] writes[j] by {
        assert(1 <= i <= chunks.len());
        assert(writes[i] == chunks[i - 1]);
        if j <= chunks.len() {
            assert(writes[j] == chunks[j - 1]);
        } else {
            assert(writes[j] is Silence);
        }
    }
}

proof fn queued_once(waiting: Seq<usize>, n: int)
    requires
        0 <= n <= waiting.len() <= usize::MAX,
    ensures
        forall|i: int| 0 <= i < queued(waiting, n).len() ==> #[trigger] queued(waiting, n)[i] is Chunk,
        forall|track: usize, number: usize|
            #[trigger] queued(waiting, n).contains(TickWrite::Chunk { track, number }) <==> track < n
                && number < waiting[track as int],
        forall|i: int, j: int|
            0 <= i < j < queued(waiting, n).len() ==> #[trigger] queued(waiting, n)[i]
                != #[trigger] queued(waiting, n)[j],
    decreases n,
{
    if n > 0 {
        queued_once(waiting, n - 1);
        let before = queued(waiting, n - 1);
        let last = chunks_of((n - 1) as usize, waiting[n - 1] as nat);
        let now = queued(waiting, n);
        assert forall|i: int| 0 <= i < now.len() implies #[trigger] now[i] is Chunk by {
            if i < before.len() {
                assert(now[i] == before[i]);
            }
        }
        assert forall|track: usize, number: usize|
            #[trigger] now.contains(TickWrite::Chunk { track, number }) <==> track < n && number
                < waiting[track as int] by {
            let chunk = TickWrite::Chunk { track, number };
            assert(before.contains(chunk) <==> track < n - 1 && number < waiting[track as int]);
            if before.contains(chunk) {
                let k = choose|k: int| 0 <= k < before.len() && before[k] == chunk;
                assert(now[k] == chunk);
            }
            if track == n - 1 && number < waiting[track as int] {
                assert(now[before.len() + number] == chunk);
            }
            if now.contains(chunk) {
                let k = choose|k: int| 0 <= k < now.len() && now[k] == chunk;
                if k < before.len() {
                    assert(before[k] == chunk);
                } else {
                    assert(now[k] == last[k - before.len()]);
                }
            }
        }
        assert forall|i: int, j: int| 0 <= i < j < now.len() implies #[trigger] now[i]
            != #[trigger] now[j] by {
            if j < before.len() {
                assert(now[i] == before[i] && now[j] == before[j]);
            } else {
                assert(now[j] == last[j - before.len()]);
                if i < before.len() {
                    assert(now[i] == before[i]);
                    assert(before.contains(before[i]));
                } else {
                    assert(now[i] == last[i - before.len()]);
                }
            }
        }
    }
}

/// Pictures of consecutive ticks follow each other without overlap or hole,
/// whatever the loop was late by, and the first one of a segment stands at zero.
pub proof fn pictures_are_contiguous(first: int, tick: int, fps: u32)
    requires
        fps > 0,
    ensures
        frame_start(first, first, fps) == 0,
        frame_start(first, tick + 1, fps) == frame_start(first, tick, fps) + frame_hns(fps),
{
    let (n, d) = (tick - first, frame_hns(fps));
    assert((n + 1) * d == n * d + d) by (nonlinear_arith);
}

/// Whether one state of the loop is that of another one tick later, in the same
/// segment: what ending a tick makes of it, whether or not a picture came.
pub open spec fn is_next_tick(before: Engine, after: Engine) -> bool {
    &&& after.rate() == before.rate()
    &&& after.tick() == before.tick() + 1
    &&& after.first() == before.first()
}

/// Every picture has the place of its tick, at a constant rate, whatever the clock
/// reads: ticks of a segment without a picture leave their place empty, and the
/// picture that comes after them stands where it would have stood without them.
pub proof fn pictures_have_the_place_of_their_tick(states: Seq<Engine>, i: int)
    requires
        0 <= i < states.len(),
        states[0].rate() > 0,
        forall|k: int|
            0 <= k < states.len() - 1 ==> #[trigger] is_next_tick(states[k], states[k + 1]),
    ensures
        states[i].rate() == states[0].rate(),
        states[i].tick() == states[0].tick() + i,
        states[i].first() == states[0].first(),
        frame_start(states[i].first(), states[i].tick(), states[i].rate()) == frame_start(
            states[0].first(),
            states[0].tick(),
            states[0].rate(),
        ) + i * frame_hns(states[0].rate()),
        states[0].tick() == states[0].first() ==> frame_start(
            states[i].first(),
            states[i].tick(),
            states[i].rate(),
        ) == i * (10_000_000int / (states[0].rate() as int)),
    decreases i,
{
    let (n, d) = (states[0].tick() - states[0].first(), frame_hns(states[0].rate()));
    if i > 0 {
        pictures_have_the_place_of_their_tick(states, i - 1);
        assert(is_next_tick(states[i - 1], states[(i - 1) + 1]));
    }
    assert((n + i) * d == n * d + i * d) by (nonlinear_arith);
    assert(n == 0 ==> n * d == 0) by (nonlinear_arith);
}

/// Blocks of silence due up to a tick of a segment.
pub open spec fn silence_blocks(since: int, fps: u32) -> int {
    since / silence_ticks(fps) + 1
}

/// A vacant track never falls behind the picture: at every tick, the silence fed
/// to it so far reaches the place of the picture. At fewer than ten pictures per
/// second one tick outlasts a block, so it cannot hold there.
pub proof fn silence_keeps_up(since: int, fps: u32)
    requires
        since >= 0,
        fps >= 10,
    ensures
        frame_start(0, since, fps) <= silence_blocks(since, fps) * (SILENCE_MS * 10_000),
{
    let p = silence_ticks(fps);
    let d = frame_hns(fps);
    let q = since / p;
    let f = fps as int;
    assert(p == f / 10) by {
        assert(f * 100 / 1000 == f / 10);
    }
    assert(p >= 1);
    assert(since < (q + 1) * p) by (nonlinear_arith)
        requires
            q == since / p,
            p >= 1,
    ;
    assert(d == 10_000_000int / f);
    assert(d * f <= 10_000_000) by (nonlinear_arith)
        requires
            d == 10_000_000int / f,
            f > 0,
    ;
    assert(0 <= d) by (nonlinear_arith)
        requires
            d == 10_000_000int / f,
            f > 0,
    ;
    assert(p * 10 <= f);
    assert(p * d <= 1_000_000) by (nonlinear_arith)
        requires
            p * 10 <= f,
            d * f <= 10_000_000,
            d >= 0,
            p >= 1,
    ;
    assert(since * d <= (q + 1) * p * d) by (nonlinear_arith)
        requires
            since < (q + 1) * p,
            d >= 0,
    ;
    assert(q >= 0) by (nonlinear_arith)
        requires
            q == since / p,
            since >= 0,
            p >= 1,
    ;
    assert((q + 1) * p * d <= (q + 1) * 1_000_000) by (nonlinear_arith)
        requires
            p * d <= 1_000_000,
            q >= 0,
    ;
}

/// What the bookkeeping holds after restarts at given times.
pub open spec fn bookkeeping(times: Seq<u64>) -> Seq<u64>
    decreases times.len(),
{
    if times.len() == 0 {
        Seq::empty()
    } else {
        remembered(bookkeeping(times.drop_last()).push(times.last()))
    }
}

/// How many restarts, among the first `n`, came less than a minute before the
/// last one, itself included.
pub open spec fn in_the_last_minute(times: Seq<u64>, n: int) -> nat
    decreases n,
{
    if n <= 0 {
        0
    } else {
        in_the_last_minute(times, n - 1) + if times.last() - times[n - 1] < RAPID_RESTART_NS {
            1nat
        } else {
            0
        }
    }
}

proof fn the_last_ones_are_held(times: Seq<u64>)
    ensures
        bookkeeping(times) == remembered(times),
    decreases times.len(),
{
    if times.len() > 0 {
        the_last_ones_are_held(times.drop_last());
        assert(bookkeeping(times) =~= remembered(times));
    }
}

proof fn the_latest_count(times: Seq<u64>, n: int, from: int)
    requires
        0 <= from <= n <= times.len(),
        forall|i: int|
            0 <= i < times.len() ==> (times.last() - #[trigger] times[i] < RAPID_RESTART_NS <==> i
                >= from),
    ensures
        in_the_last_minute(times, n) == n - from,
        in_the_last_minute(times, from) == 0,
    decreases n,
{
    if n > from {
        the_latest_count(times, n - 1, from);
    } else if n > 0 {
        none_before(times, n, from);
    }
}

proof fn none_before(times: Seq<u64>, n: int, from: int)
    requires
        0 <= n <= from <= times.len(),
        forall|i: int|
            0 <= i < from ==> !(times.last() - #[trigger] times[i] < RAPID_RESTART_NS),
    ensures
        in_the_last_minute(times, n) == 0,
    decreases n,
{
    if n > 0 {
        none_before(times, n - 1, from);
    }
}

proof fn first_of_the_minute(times: Seq<u64>, n: int) -> (from: int)
    requires
        0 <= n <= times.len(),
    ensures
        0 <= from <= n,
        forall|i: int| 0 <= i < from ==> !(times.last() - #[trigger] times[i] < RAPID_RESTART_NS),
        from < n ==> times.last() - times[from] < RAPID_RESTART_NS,
    decreases n,
{
    if n == 0 {
        0
    } else {
        let before = first_of_the_minute(times, n - 1);
        if before == n - 1 && !(times.last() - times[n - 1] < RAPID_RESTART_NS) {
            n
        } else {
            before
        }
    }
}

/// The engine gives up exactly when more than five restarts came in less than a
/// minute, however many came before and however regularly: of all its restarts,
/// what the bookkeeping holds is enough to decide.
pub proof fn only_crowded_restarts_are_fatal(times: Seq<u64>)
    requires
        times.len() > 0,
        forall|i: int, j: int| 0 <= i <= j < times.len() ==> times[i] <= times[j],
    ensures
        too_many(bookkeeping(times.drop_last()).push(times.last())) == too_many(times),
        too_many(times) <==> in_the_last_minute(times, times.len() as int) > MAX_RAPID_RESTARTS,
{
    let before = times.drop_last();
    the_last_ones_are_held(before);
    let n = times.len() as int;
    if n > MAX_RAPID_RESTARTS {
        let seen = remembered(before).push(times.last());
        assert(seen[seen.len() - 1 - MAX_RAPID_RESTARTS] == times[n - 1 - MAX_RAPID_RESTARTS]);
    }
    let from = first_of_the_minute(times, n);
    assert forall|i: int| 0 <= i < n implies (times.last() - #[trigger] times[i] < RAPID_RESTART_NS
        <==> i >= from) by {
        if i >= from {
            assert(times[from] <= times[i]);
        }
    }
    the_latest_count(times, n, from);
}

/// Every declared track is fed: when a block of silence is due, it goes to each
/// track whose capture does not run, and to no other.
pub proof fn silence_goes_to_idle_tracks(table: Seq<Option<SlotView>>, n: int)
    requires
        0 <= n <= table.len(),
    ensures
        forall|i: int|
            #[trigger] silent_slots(table, n).contains(i) <==> 0 <= i < n && !slots::is_live(
                table,
                i,
            ),
    decreases n,
{
    if n > 0 {
        silence_goes_to_idle_tracks(table, n - 1);
        let (before, now) = (silent_slots(table, n - 1), silent_slots(table, n));
        assert forall|i: int|
            #[trigger] now.contains(i) <==> 0 <= i < n && !slots::is_live(table, i) by {
            if before.contains(i) {
                let k = choose|k: int| 0 <= k < before.len() && before[k] == i;
                assert(now[k] == i);
            }
            if i == n - 1 && !slots::is_live(table, i) {
                assert(now[now.len() - 1] == i);
            }
            if now.contains(i) {
                let k = choose|k: int| 0 <= k < now.len() && now[k] == i;
                if k < before.len() {
                    assert(before[k] == i);
                }
            }
        }
    }
}

/// A picture lasts as long as the rate gives it, to the unit: a second of pictures
/// fits into a second, and with pictures one unit longer it would not.
pub proof fn pictures_fill_the_second(fps: u32)
    requires
        fps > 0,
    ensures
        frame_hns(fps) * fps <= 10_000_000,
        10_000_000 < (frame_hns(fps) + 1) * fps,
{
    let (d, f) = (frame_hns(fps), fps as int);
    assert(d == 10_000_000int / f);
    vstd::arithmetic::div_mod::lemma_fundamental_div_mod(10_000_000, f);
    assert(d * f <= 10_000_000 && 10_000_000 < (d + 1) * f) by (nonlinear_arith)
        requires
            10_000_000 == f * d + 10_000_000int % f,
            0 <= 10_000_000int % f < f,
    ;
}

/// Silence comes every 100 ms: in as many ticks as the tenth part of a second holds
/// whole, and at every tick where it holds none.
pub proof fn silence_comes_ten_times_a_second(fps: u32)
    ensures
        fps >= 10 ==> 10 * silence_ticks(fps) <= fps < 10 * silence_ticks(fps) + 10,
        fps < 10 ==> silence_ticks(fps) == 1,
{
}

/// A segment holds as many pictures as its length at the rate, to the nearest: half a
/// picture more or less at most, and exactly the rate times its seconds where those
/// are whole. Only what the counter cannot hold is cut.
pub proof fn segments_last_as_asked(segment_hns: i64, fps: u32, seconds: int)
    ensures
        segment_hns <= 0 ==> segment_frames(segment_hns, fps) == 0,
        segment_hns > 0 && segment_frames(segment_hns, fps) < u64::MAX ==> {
            let distance = segment_frames(segment_hns, fps) * 10_000_000 - segment_hns * fps;
            -5_000_000 < distance <= 5_000_000
        },
        segment_hns > 0 && segment_frames(segment_hns, fps) >= u64::MAX ==> segment_hns * fps
            + 5_000_000 >= u64::MAX * 10_000_000,
        0 <= segment_frames(segment_hns, fps) <= u64::MAX,
        seconds >= 0 && segment_hns == seconds * 10_000_000 && seconds * fps <= u64::MAX
            ==> segment_frames(segment_hns, fps) == seconds * fps,
{
    let product = segment_hns * fps;
    if segment_hns > 0 {
        assert(product >= 0) by (nonlinear_arith)
            requires
                product == segment_hns * fps,
                segment_hns > 0,
                fps >= 0,
        ;
    }
    if seconds >= 0 && segment_hns == seconds * 10_000_000 {
        assert(seconds * 10_000_000 * fps == (seconds * fps) * 10_000_000) by (nonlinear_arith);
        assert(seconds == 0 ==> seconds * fps == 0) by (nonlinear_arith);
    }
}

/// The microphone is tried where it is wanted, its capture does not run and the delay
/// has passed; then the next try is eight rotations away and its slot, and no other,
/// is taken by a source without a process. Otherwise the table stays as it is, and
/// the delay gets shorter by one.
pub proof fn the_microphone_is_tried_in_its_slot(
    table: Seq<Option<SlotView>>,
    retry: nat,
    mic_index: int,
    wanted: bool,
    device: Option<Seq<char>>,
)
    requires
        0 <= mic_index < table.len(),
    ensures
        ({
            let (after, waits, tried) = microphone_tried(table, retry, mic_index, wanted, device);
            let runs = table[mic_index] is Some && table[mic_index]->0.alive;
            &&& tried <==> wanted && !runs && retry <= 1
            &&& tried ==> {
                &&& waits == 8
                &&& after.len() == table.len()
                &&& forall|i: int|
                    0 <= i < table.len() && i != mic_index ==> #[trigger] after[i] == table[i]
                &&& after[mic_index] == Some(
                    SlotView { label: "Micro"@, process: Seq::empty(), pid: None, alive: true },
                )
            }
            &&& !tried ==> after == table && (retry == 0 ==> waits == 0) && (retry > 0 ==> waits
                == retry - 1)
            &&& microphone_source(device).device == device
            &&& microphone_source(device).pid is None
        }),
{
}

/// A tick runs through its steps in one way: a command comes first, the picture once
/// the command is answered, and what was written is followed by a look at the screen
/// on a boundary only. The engine ends where it was told to, where its owner is
/// gone or where it has to give up, and starts again where the screen requires it.
pub proof fn ticks_run_in_order(stage: Stage, boundary: bool)
    ensures
        ({
            let step = step_after(stage, boundary);
            &&& step == Step::Stop <==> stage == Stage::Commanded(Received::Stop) || stage
                == Stage::Commanded(Received::Disconnected)
            &&& step == Step::Save <==> stage == Stage::Commanded(Received::Save)
            &&& step == Step::AnswerTracks <==> stage == Stage::Commanded(Received::Tracks)
            &&& step == Step::TakePicture <==> stage == Stage::Commanded(Received::Nothing) || stage
                == Stage::Answered
            &&& step == Step::Write <==> stage == Stage::PictureTaken(true)
            &&& step == Step::GiveUp <==> stage == Stage::Written(true)
            &&& step == Step::CheckScreen <==> stage == Stage::Written(false) && boundary
            &&& step == Step::Restart <==> stage == Stage::ScreenChecked(true)
            &&& step == Step::Rotate <==> stage == Stage::ScreenChecked(false)
            &&& step == Step::ReadCommand <==> stage == Stage::Ended
            &&& step == Step::EndTick <==> stage == Stage::Rotated || stage == Stage::PictureTaken(
                false,
            ) || (stage == Stage::Written(false) && !boundary)
        }),
{
}

/// Silence is fed to each idle track once, in the order of the tracks: to those that
/// are vacant and to those whose capture has ended.
pub proof fn idle_tracks_are_fed_once(table: Seq<Option<SlotView>>, n: int)
    requires
        0 <= n <= table.len(),
    ensures
        forall|i: int|
            #[trigger] silent_slots(table, n).contains(i) <==> 0 <= i < n && (table[i] is None
                || !table[i]->0.alive),
        forall|a: int, b: int|
            0 <= a < b < silent_slots(table, n).len() ==> #[trigger] silent_slots(table, n)[a]
                < #[trigger] silent_slots(table, n)[b],
    decreases n,
{
    silence_goes_to_idle_tracks(table, n);
    if n > 0 {
        idle_tracks_are_fed_once(table, n - 1);
        let before = silent_slots(table, n - 1);
        assert forall|a: int| 0 <= a < before.len() implies 0 <= #[trigger] before[a] < n - 1 by {
            assert(before.contains(before[a]));
        }
    }
}

/// The picture is written first, once; the chunks of a track follow in the order in
/// which they wait, those of a lower track before those of a higher one; silence comes
/// last, for each of the given tracks in their order.
pub proof fn writes_come_in_order(waiting: Seq<usize>, silent: Seq<int>)
    requires
        waiting.len() <= usize::MAX,
        forall|i: int| 0 <= i < silent.len() ==> 0 <= #[trigger] silent[i] <= usize::MAX,
    ensures
        ({
            let writes = writes_of(waiting, silent);
            let sound = writes.len() - silent.len();
            &&& sound >= 1
            &&& writes[0] == TickWrite::Picture
            &&& forall|i: int| 1 <= i < sound ==> #[trigger] writes[i] is Chunk
            &&& forall|i: int, j: int|
                1 <= i < j < sound ==> {
                    let (a, b) = (#[trigger] writes[i], #[trigger] writes[j]);
                    a->Chunk_track < b->Chunk_track || (a->Chunk_track == b->Chunk_track && a->Chunk_number < b->Chunk_number)
                }
            &&& forall|i: int|
                0 <= i < silent.len() ==> writes[sound + i] == (TickWrite::Silence {
                    track: #[trigger] silent[i] as usize,
                })
        }),
{
    let chunks = queued(waiting, waiting.len() as int);
    let writes = writes_of(waiting, silent);
    queued_in_order(waiting, waiting.len() as int);
    let sound = chunks.len() as int + 1;
    assert forall|i: int| 1 <= i < sound implies #[trigger] writes[i] is Chunk by {
        assert(writes[i] == chunks[i - 1]);
    }
    assert forall|i: int, j: int| 1 <= i < j < sound implies {
        let (a, b) = (#[trigger] writes[i], #[trigger] writes[j]);
        a->Chunk_track < b->Chunk_track || (a->Chunk_track == b->Chunk_track && a->Chunk_number < b->Chunk_number)
    } by {
        assert(writes[i] == chunks[i - 1] && writes[j] == chunks[j - 1]);
    }
}

proof fn queued_in_order(waiting: Seq<usize>, n: int)
    requires
        0 <= n <= waiting.len() <= usize::MAX,
    ensures
        forall|i: int|
            0 <= i < queued(waiting, n).len() ==> #[trigger] queued(waiting, n)[i] is Chunk
                && queued(waiting, n)[i]->Chunk_track < n,
        forall|i: int, j: int|
            0 <= i < j < queued(waiting, n).len() ==> {
                let (a, b) = (#[trigger] queued(waiting, n)[i], #[trigger] queued(waiting, n)[j]);
                a->Chunk_track < b->Chunk_track || (a->Chunk_track == b->Chunk_track && a->Chunk_number < b->Chunk_number)
            },
    decreases n,
{
    if n > 0 {
        queued_in_order(waiting, n - 1);
        let before = queued(waiting, n - 1);
        let now = queued(waiting, n);
        let last = chunks_of((n - 1) as usize, waiting[n - 1] as nat);
        assert forall|i: int| 0 <= i < now.len() implies #[trigger] now[i] is Chunk
            && now[i]->Chunk_track < n by {
            if i < before.len() {
                assert(now[i] == before[i]);
            } else {
                assert(now[i] == last[i - before.len()]);
            }
        }
        assert forall|i: int, j: int| 0 <= i < j < now.len() implies {
            let (a, b) = (#[trigger] now[i], #[trigger] now[j]);
            a->Chunk_track < b->Chunk_track || (a->Chunk_track == b->Chunk_track && a->Chunk_number < b->Chunk_number)
        } by {
            if j < before.len() {
                assert(now[i] == before[i] && now[j] == before[j]);
            } else {
                assert(now[j] == last[j - before.len()]);
                if i < before.len() {
                    assert(now[i] == before[i]);
                } else {
                    assert(now[i] == last[i - before.len()]);
                }
            }
        }
    }
}

/// The ring of the engine gives up nothing while what it held and what came meet its
/// bounds, and always holds the end of what came, without a gap.
pub proof fn the_engine_keeps_what_fits(
    before: SegmentRing,
    after: SegmentRing,
    added: Seq<SegmentInfo>,
    purged: Seq<SegmentInfo>,
)
    requires
        can_absorb(before@, added),
        absorbs(before, after, added, purged),
    ensures
        after.duration_bound() == before.duration_bound(),
        after.bytes_bound() == before.bytes_bound(),
        purged + after@ == before@ + segment::with_content(added),
        segment::total_duration(before@) + segment::total_duration(added) <= before.duration_bound()
            && segment::total_bytes(before@) + segment::total_bytes(added) <= before.bytes_bound()
            ==> purged.len() == 0,
        purged.len() > 0 ==> {
            let longer = seq![purged.last()] + after@;
            ||| segment::total_duration(longer) > before.duration_bound()
            ||| segment::total_bytes(longer) > before.bytes_bound()
        },
{
    let (longest, largest) = (before.duration_bound(), before.bytes_bound());
    let all = before@ + segment::with_content(added);
    if segment::total_duration(before@) + segment::total_duration(added) <= longest
        && segment::total_bytes(before@) + segment::total_bytes(added) <= largest {
        segment::what_fits_stays(before@, added, longest, largest);
        assert(purged.len() + after@.len() == all.len());
    }
    segment::buffer_reaches_back(before@, added, longest, largest);
    if purged.len() > 0 {
        let gone = purged.len() as int;
        assert(all.len() - after@.len() == gone);
        assert(all.skip(gone - 1) =~= seq![purged.last()] + after@);
    }
}

/// The sixth restart within a minute is one too many, and so is every later one that
/// has five before it in the minute before; fewer never are.
pub proof fn six_restarts_in_a_minute_are_too_many(times: Seq<u64>)
    ensures
        times.len() <= 5 ==> !too_many(times),
        times.len() > 5 ==> (too_many(times) <==> times.last() - times[times.len() - 6]
            < 60_000_000_000),
{
}

/// What no decision changes are the rate, the length of a segment and the choice of
/// the microphone; the counters are the tick, the start of the segment, the failures in
/// a row and the delay of the microphone.
pub proof fn decisions_keep_the_settings(before: Engine, after: Engine)
    ensures
        after.same_settings(before) ==> after.rate() == before.rate() && after.segment_length()
            == before.segment_length() && after.wants_microphone() == before.wants_microphone()
            && after.input_device() == before.input_device(),
        after.same_counts(before) ==> after.tick() == before.tick() && after.first()
            == before.first() && after.errors() == before.errors() && after.retry()
            == before.retry(),
{
}

/// What the engine reports of failed writes and of restarts ends in their cause, and
/// tells how many there were.
pub proof fn reports_name_the_cause(n: nat, cause: Seq<char>)
    ensures
        (text::decimal(n) + " d'affilée) : "@ + cause).is_suffix_of(write_warning(n, cause)),
        (text::decimal(n) + " images : "@ + cause).is_suffix_of(write_failure(n, cause)),
        cause.is_suffix_of(restart_failure(cause)),
        text::decimal(6).is_prefix_of(restart_failure(cause)),
{
    let warning = text::decimal(n) + " d'affilée) : "@ + cause;
    assert(write_warning(n, cause) =~= "écriture en échec ("@ + warning);
    text::ends_stay_at_the_end("écriture en échec ("@, warning);
    let failure = text::decimal(n) + " images : "@ + cause;
    assert(write_failure(n, cause) =~= "écriture impossible depuis "@ + failure);
    text::ends_stay_at_the_end("écriture impossible depuis "@, failure);
    let middle = " redémarrages en moins d'une minute, dernier motif : "@;
    assert(restart_failure(cause) =~= text::decimal(6) + (middle + cause));
    assert(restart_failure(cause) =~= (text::decimal(6) + middle) + cause);
    text::ends_stay_at_the_end(text::decimal(6), middle + cause);
    text::ends_stay_at_the_end(text::decimal(6) + middle, cause);
}

/// A size is written with its width first.
pub proof fn sizes_begin_with_the_width(width: nat, height: nat)
    ensures
        text::decimal(width).is_prefix_of(size_text(width, height)),
        text::decimal(height).is_suffix_of(size_text(width, height)),
{
    let (w, h) = (text::decimal(width), text::decimal(height));
    assert(size_text(width, height) =~= w + ("×"@ + h));
    text::ends_stay_at_the_end(w, "×"@ + h);
    text::ends_stay_at_the_end(w + "×"@, h);
}

} // verus!
