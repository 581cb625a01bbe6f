//! Measures taken on captures.
//!
//! Drift is the difference between the time that a device counts in samples and
//! the time that the counter of the machine shows. It is kept exact, in units of
//! which 480 000 000 make a millisecond: a multiple of both the sample rate and
//! the units of 100 ns.
use crate::audio::{category, classify};
use crate::clock::QpcInstant;
use crate::segment::{SegmentInfo, total_duration};
use crate::text;
use vstd::prelude::*;

verus! {

/// Units of drift in a millisecond.
pub const DRIFT_PER_MS: i128 = 480_000_000;

/// Drift, in milliseconds, from which a listener notices it.
pub const MAX_DRIFT_MS: i128 = 40;

/// Growth, in bytes, from which a capture leaks.
pub const LEAK_BYTES: u64 = 67_108_864;

/// Milliseconds within which a save counts as instant.
pub const INSTANT_SAVE_MS: u64 = 1_000;

/// Whether the flags of a packet tell of a break in the stream.
pub open spec fn is_break(flags: u32) -> bool {
    flags % 2 == 1
}

/// Whether a packet stands for silence.
pub open spec fn is_silent(flags: u32, has_data: bool) -> bool {
    (flags / 2) % 2 == 1 || !has_data
}

fn read_flags(flags: u32) -> (r: (bool, bool))
    ensures
        r.0 == is_break(flags),
        r.1 == ((flags / 2) % 2 == 1),
{
    proof {
        assert((flags & 0x1 != 0) == (flags % 2 == 1)) by (bit_vector);
        assert((flags & 0x2 != 0) == ((flags / 2) % 2 == 1)) by (bit_vector);
    }
    (flags & 0x1 != 0, flags & 0x2 != 0)
}

/// What a track recorded to a file of its own was made of.
#[derive(Debug)]
pub struct TrackStats {
    pub frames: u64,
    /// Packets marked as silent.
    pub silent_packets: u64,
    /// Breaks in the stream that the driver reported.
    pub discontinuities: u64,
    pub first: Option<QpcInstant>,
    pub last: Option<QpcInstant>,
}

impl TrackStats {
    pub fn new() -> (r: Self)
        ensures
            r.frames == 0,
            r.silent_packets == 0,
            r.discontinuities == 0,
            r.first is None,
            r.last is None,
    {
        TrackStats { frames: 0, silent_packets: 0, discontinuities: 0, first: None, last: None }
    }

    /// Counts a packet. Returns whether it stands for silence.
    pub fn record(&mut self, frames: u32, flags: u32, has_data: bool, at: QpcInstant) -> (silent:
        bool)
        requires
            old(self).frames + frames <= u64::MAX,
            old(self).silent_packets < u64::MAX,
            old(self).discontinuities < u64::MAX,
        ensures
            silent == is_silent(flags, has_data),
            final(self).frames == old(self).frames + frames,
            final(self).silent_packets == old(self).silent_packets + (if silent {
                1int
            } else {
                0
            }),
            final(self).discontinuities == old(self).discontinuities + (if is_break(flags) {
                1int
            } else {
                0
            }),
            final(self).first == (if old(self).first is Some {
                old(self).first
            } else {
                Some(at)
            }),
            final(self).last == Some(at),
    {
        let (broken, marked) = read_flags(flags);
        if broken {
            self.discontinuities = self.discontinuities + 1;
        }
        let silent = marked || !has_data;
        if silent {
            self.silent_packets = self.silent_packets + 1;
        }
        if self.first.is_none() {
            self.first = Some(at);
        }
        self.last = Some(at);
        self.frames = self.frames + frames as u64;
        silent
    }
}

/// What a track reports at the end of a capture.
#[derive(Debug, Clone)]
pub struct AudioReport {
    pub label: String,
    pub frames: u64,
    pub first_boot_hns: i64,
    pub last_boot_hns: i64,
    /// Frames of the last packet: its time is that of its beginning.
    pub last_packet_frames: u32,
    pub discontinuities: u64,
}

impl AudioReport {
    pub fn new(label: String) -> (r: Self)
        ensures
            r == (AudioReport {
                label,
                frames: 0,
                first_boot_hns: 0,
                last_boot_hns: 0,
                last_packet_frames: 0,
                discontinuities: 0,
            }),
    {
        AudioReport {
            label,
            frames: 0,
            first_boot_hns: 0,
            last_boot_hns: 0,
            last_packet_frames: 0,
            discontinuities: 0,
        }
    }

    /// Counts a packet.
    pub fn record(&mut self, frames: u32, flags: u32, boot_hns: i64)
        requires
            old(self).frames + frames <= u64::MAX,
            old(self).discontinuities < u64::MAX,
        ensures
            *final(self) == (AudioReport {
                label: old(self).label,
                frames: (old(self).frames + frames) as u64,
                first_boot_hns: if old(self).frames == 0 {
                    boot_hns
                } else {
                    old(self).first_boot_hns
                },
                last_boot_hns: boot_hns,
                last_packet_frames: frames,
                discontinuities: (old(self).discontinuities + (if is_break(flags) {
                    1int
                } else {
                    0
                })) as u64,
            }),
    {
        let (broken, _) = read_flags(flags);
        if broken {
            self.discontinuities = self.discontinuities + 1;
        }
        if self.frames == 0 {
            self.first_boot_hns = boot_hns;
        }
        self.last_boot_hns = boot_hns;
        self.last_packet_frames = frames;
        self.frames = self.frames + frames as u64;
    }

    /// Time that the device counted less the time that passed, the last packet
    /// included in both.
    pub open spec fn drift(self) -> int {
        (self.frames - self.last_packet_frames) * 10_000_000 - (self.last_boot_hns
            - self.first_boot_hns) * 48_000
    }

    /// Computes the drift.
    pub fn drift_units(&self) -> (r: i128)
        ensures
            r == self.drift(),
    {
        (self.frames as i128 - self.last_packet_frames as i128) * 10_000_000 - (
        self.last_boot_hns as i128 - self.first_boot_hns as i128) * 48_000
    }
}

pub open spec fn magnitude(n: int) -> int {
    if n < 0 {
        -n
    } else {
        n
    }
}

/// The largest drift among reports, whatever its sign.
pub open spec fn worst_drift(reports: Seq<AudioReport>) -> int
    decreases reports.len(),
{
    if reports.len() == 0 {
        0
    } else {
        let before = worst_drift(reports.drop_last());
        let this = magnitude(reports.last().drift());
        if this > before {
            this
        } else {
            before
        }
    }
}

/// Whether neither the tracks nor the pictures drift so far that a listener
/// notices. The drift of the pictures is in units of 100 ns.
pub fn in_sync(reports: &Vec<AudioReport>, video_drift_hns: i64) -> (r: bool)
    ensures
        r == (worst_drift(reports@) < MAX_DRIFT_MS * DRIFT_PER_MS && magnitude(
            video_drift_hns as int,
        ) < MAX_DRIFT_MS * 10_000),
        r <==> {
            &&& -400_000 < video_drift_hns < 400_000
            &&& forall|i: int|
                0 <= i < reports@.len() ==> -40 * 480_000_000 < (#[trigger] reports@[i]).drift() < 40
                    * 480_000_000
        },
{
    let mut worst: i128 = 0;
    proof {
        assert(reports@.take(0) =~= Seq::<AudioReport>::empty());
    }
    for i in 0..reports.len()
        invariant
            worst == worst_drift(reports@.take(i as int)),
            worst >= 0,
    {
        proof {
            assert(reports@.take(i + 1).drop_last() =~= reports@.take(i as int));
        }
        let drift: i128 = reports[i].drift_units();
        let size: i128 = if drift < 0 {
            -drift
        } else {
            drift
        };
        if size > worst {
            worst = size;
        }
    }
    proof {
        assert(reports@.take(reports@.len() as int) =~= reports@);
        worst_drift_is_the_largest(reports@);
    }
    let video: i128 = if video_drift_hns < 0 {
        -(video_drift_hns as i128)
    } else {
        video_drift_hns as i128
    };
    worst < MAX_DRIFT_MS * DRIFT_PER_MS && video < MAX_DRIFT_MS * 10_000
}

/// The distance between the largest and the smallest of some numbers.
pub open spec fn spread_of(s: Seq<int>) -> int {
    largest(s) - smallest(s)
}

pub open spec fn largest(s: Seq<int>) -> int
    decreases s.len(),
{
    if s.len() <= 1 {
        s[0]
    } else if s.last() > largest(s.drop_last()) {
        s.last()
    } else {
        largest(s.drop_last())
    }
}

pub open spec fn smallest(s: Seq<int>) -> int
    decreases s.len(),
{
    if s.len() <= 1 {
        s[0]
    } else if s.last() < smallest(s.drop_last()) {
        s.last()
    } else {
        smallest(s.drop_last())
    }
}

/// Numbers as integers.
pub open spec fn integers(s: Seq<i128>) -> Seq<int> {
    Seq::new(s.len(), |i: int| s[i] as int)
}

/// How far apart numbers are; nothing for fewer than two.
fn spread(numbers: &Vec<i128>) -> (r: Option<i128>)
    requires
        forall|i: int|
            0 <= i < numbers@.len() ==> -0x1_0000_0000_0000_0000_0000_0000 <= #[trigger] numbers@[i]
                <= 0x1_0000_0000_0000_0000_0000_0000,
    ensures
        match r {
            Some(spread) => numbers@.len() > 1 && spread == spread_of(integers(numbers@)),
            None => numbers@.len() <= 1,
        },
{
    if numbers.len() <= 1 {
        return None;
    }
    let ghost s = integers(numbers@);
    let mut low: i128 = numbers[0];
    let mut high: i128 = numbers[0];
    let mut i: usize = 1;
    while i < numbers.len()
        invariant
            1 <= i <= numbers@.len(),
            s == integers(numbers@),
            forall|i: int|
                0 <= i < numbers@.len() ==> -0x1_0000_0000_0000_0000_0000_0000
                    <= #[trigger] numbers@[i] <= 0x1_0000_0000_0000_0000_0000_0000,
            -0x1_0000_0000_0000_0000_0000_0000 <= low <= high
                <= 0x1_0000_0000_0000_0000_0000_0000,
            low == smallest(s.take(i as int)),
            high == largest(s.take(i as int)),
        decreases numbers@.len() - i,
    {
        proof {
            assert(s.take(i + 1).drop_last() =~= s.take(i as int));
            assert(s.take(i + 1).last() == numbers@[i as int]);
        }
        if numbers[i] < low {
            low = numbers[i];
        }
        if numbers[i] > high {
            high = numbers[i];
        }
        i = i + 1;
    }
    proof {
        assert(s.take(s.len() as int) =~= s);
    }
    Some(high - low)
}

/// How far apart the first packets of tracks are; nothing for fewer than two.
pub fn first_packet_spread(firsts: &Vec<i64>) -> (r: Option<i128>)
    ensures
        match r {
            Some(spread) => firsts@.len() > 1 && spread == spread_of(
                firsts@.map_values(|first: i64| first as int),
            ),
            None => firsts@.len() <= 1,
        },
{
    let mut numbers: Vec<i128> = Vec::new();
    for i in 0..firsts.len()
        invariant
            numbers@.len() == i,
            forall|j: int| 0 <= j < i ==> #[trigger] numbers@[j] == firsts@[j],
    {
        numbers.push(firsts[i] as i128);
    }
    proof {
        assert(integers(numbers@) =~= firsts@.map_values(|first: i64| first as int));
    }
    spread(&numbers)
}

/// The drifts of tracks.
pub open spec fn drifts(reports: Seq<AudioReport>) -> Seq<int> {
    reports.map_values(|report: AudioReport| report.drift())
}

/// How far tracks have drifted from each other, which is what a listener hears;
/// nothing for fewer than two. In the units of drift.
pub fn drift_spread(reports: &Vec<AudioReport>) -> (r: Option<i128>)
    ensures
        match r {
            Some(spread) => reports@.len() > 1 && spread == spread_of(drifts(reports@)),
            None => reports@.len() <= 1,
        },
{
    let mut numbers: Vec<i128> = Vec::new();
    for i in 0..reports.len()
        invariant
            numbers@.len() == i,
            forall|j: int|
                0 <= j < i ==> #[trigger] numbers@[j] == reports@[j].drift()
                    && -0x1_0000_0000_0000_0000_0000_0000 <= numbers@[j]
                    <= 0x1_0000_0000_0000_0000_0000_0000,
    {
        numbers.push(reports[i].drift_units());
    }
    proof {
        assert(integers(numbers@) =~= drifts(reports@));
    }
    spread(&numbers)
}

/// Where the times of pictures come from.
#[derive(Debug, Clone, Copy, PartialEq, Eq, Structural)]
pub enum VideoPts {
    /// The counter of the machine, as for sound.
    Qpc,
    /// The number of the picture at the nominal rate.
    Cfr,
}

/// Place of a packet of sound on the timeline of a file, never below zero.
pub fn sound_position(boot_hns: i64, origin_hns: i64) -> (r: i64)
    requires
        i64::MIN <= boot_hns - origin_hns <= i64::MAX,
    ensures
        r == (if boot_hns > origin_hns {
            boot_hns - origin_hns
        } else {
            0
        }),
{
    let position: i64 = boot_hns - origin_hns;
    if position > 0 {
        position
    } else {
        0
    }
}

/// Place of a picture on the timeline of a file, never below zero.
pub fn picture_position(
    mode: VideoPts,
    now_hns: i64,
    origin_hns: i64,
    index: u32,
    frame_duration_hns: u32,
) -> (r: i64)
    requires
        i64::MIN <= now_hns - origin_hns <= i64::MAX,
        index * frame_duration_hns <= i64::MAX,
    ensures
        r == (match mode {
            VideoPts::Qpc => if now_hns > origin_hns {
                now_hns - origin_hns
            } else {
                0
            },
            VideoPts::Cfr => index * frame_duration_hns,
        }),
{
    match mode {
        VideoPts::Qpc => sound_position(now_hns, origin_hns),
        VideoPts::Cfr => {
            proof {
                let (a, b) = (index as int, frame_duration_hns as int);
                assert(a * b >= 0) by (nonlinear_arith)
                    requires
                        a >= 0,
                        b >= 0,
                ;
            }
            index as i64 * frame_duration_hns as i64
        },
    }
}

/// How far the nominal place of a picture is ahead of its time on the counter.
pub fn picture_drift(nominal_hns: i64, at_hns: i64, origin_hns: i64) -> (r: i128)
    ensures
        r == nominal_hns - (at_hns - origin_hns),
{
    nominal_hns as i128 - (at_hns as i128 - origin_hns as i128)
}

/// Whether the memory of a capture grew so much that it leaks.
pub fn leaks(start_bytes: u64, end_bytes: u64) -> (r: bool)
    ensures
        r == (end_bytes - start_bytes > 67_108_864),
{
    end_bytes.saturating_sub(start_bytes) > LEAK_BYTES
}

/// How many of the segments that a purge took went for the length of the ring,
/// and how many for its bytes alone. `segments` is the ring before the purge, and
/// `purged` the number of those that it took.
pub fn count_evictions(
    segments: &Vec<SegmentInfo>,
    purged: usize,
    max_duration_hns: i64,
) -> (r: (usize, usize))
    requires
        purged <= segments@.len(),
    ensures
        r.0 == evicted_for_length(segments@, purged as int, max_duration_hns as int),
        r.0 + r.1 == purged,
{
    let mut by_length: usize = 0;
    for j in 0..purged
        invariant
            purged <= segments@.len(),
            by_length == evicted_for_length(segments@, j as int, max_duration_hns as int),
            by_length <= j,
    {
        if longer_than(segments, j, max_duration_hns) {
            by_length = by_length + 1;
        }
    }
    (by_length, purged - by_length)
}

/// How many of the first `n` purges were made while the ring was too long.
pub open spec fn evicted_for_length(segments: Seq<SegmentInfo>, n: int, max_duration: int) -> int
    decreases n,
{
    if n <= 0 {
        0
    } else {
        evicted_for_length(segments, n - 1, max_duration) + if total_duration(segments.skip(n - 1))
            > max_duration {
            1int
        } else {
            0
        }
    }
}

fn longer_than(segments: &Vec<SegmentInfo>, from: usize, max_duration_hns: i64) -> (r: bool)
    requires
        from <= segments@.len(),
    ensures
        r == (total_duration(segments@.skip(from as int)) > max_duration_hns),
{
    let ghost rest = segments@.skip(from as int);
    let mut total: i128 = 0;
    let mut i: usize = from;
    proof {
        assert(rest.take(0) =~= Seq::<SegmentInfo>::empty());
    }
    while i < segments.len()
        invariant
            from <= i <= segments@.len(),
            rest == segments@.skip(from as int),
            total == total_duration(rest.take(i - from)),
            -0x8000_0000_0000_0000 * (i - from) <= total <= 0x7fff_ffff_ffff_ffff * (i - from),
        decreases segments@.len() - i,
    {
        proof {
            assert(rest.take(i + 1 - from).drop_last() =~= rest.take(i - from));
            assert(rest.take(i + 1 - from).last() == segments@[i as int]);
            assert(i - from <= 0xffff_ffff_ffff_fffe);
        }
        total = total + segments[i].duration_hns as i128;
        i = i + 1;
    }
    proof {
        assert(rest.take(i - from) =~= rest);
    }
    total > max_duration_hns as i128
}

/// Whether a save was instant.
pub fn saved_instantly(total_us: u64) -> (r: bool)
    ensures
        r == (total_us < 1_000_000),
{
    total_us < INSTANT_SAVE_MS * 1_000
}

/// What to ask of an encoder. The nominal rate is a mere hint to it.
#[derive(Debug, Clone, Copy, PartialEq, Eq, Structural)]
pub struct EncoderSettings {
    pub rate_control: u32,
    pub mean_bitrate: u32,
    pub max_bitrate: u32,
    /// Pictures between two that stand on their own: two seconds of them.
    pub gop_size: u32,
}

pub fn encoder_settings(rate_control: u32, bitrate: u32, fps: u32) -> (r: EncoderSettings)
    requires
        fps * 2 <= u32::MAX,
    ensures
        r == (EncoderSettings {
            rate_control,
            mean_bitrate: bitrate,
            max_bitrate: bitrate,
            gop_size: (fps * 2) as u32,
        }),
{
    EncoderSettings {
        rate_control,
        mean_bitrate: bitrate,
        max_bitrate: bitrate,
        gop_size: fps * 2,
    }
}

/// The bucket that a recording of an executable goes to: its category, or that of
/// the others where it has none of its own.
pub open spec fn bucket_of(process: Seq<char>) -> Seq<char> {
    if category(process) == "Jeu"@ {
        "Autres"@
    } else {
        category(process)
    }
}

/// Names the file that a source is recorded to.
pub fn recording_name(process: &str) -> (r: String)
    ensures
        r@ == bucket_of(process@) + "-"@ + text::without_suffix(process@, ".exe"@) + ".wav"@,
{
    let label = classify(process);
    let mut r: String = if text::same(label, "Jeu") {
        "Autres".to_owned()
    } else {
        label.to_owned()
    };
    r.append("-");
    r.append(text::trim_end_matches(process, ".exe").as_str());
    r.append(".wav");
    r
}

/// A device that keeps the time of the machine does not drift, however long the
/// capture: where the last packet begins, to the unit of 100 ns, when the frames
/// before it end, the drift stays below that unit.
pub proof fn steady_tracks_do_not_drift(report: AudioReport)
    requires
        report.frames >= report.last_packet_frames,
        report.last_boot_hns - report.first_boot_hns == crate::frames_hns(
            (report.frames - report.last_packet_frames) as nat,
        ),
    ensures
        0 <= report.drift() < 48_000,
{
}

/// No two tracks are further apart than the spread, and two of them are exactly
/// that far apart.
pub proof fn spread_is_the_largest_distance(s: Seq<int>)
    requires
        s.len() > 0,
    ensures
        forall|i: int, j: int|
            0 <= i < s.len() && 0 <= j < s.len() ==> #[trigger] s[i] - #[trigger] s[j] <= spread_of(
                s,
            ),
        exists|i: int, j: int|
            0 <= i < s.len() && 0 <= j < s.len() && #[trigger] s[i] - #[trigger] s[j] == spread_of(
                s,
            ),
{
    extremes(s);
    let i = choose|i: int| 0 <= i < s.len() && #[trigger] s[i] == largest(s);
    let j = choose|j: int| 0 <= j < s.len() && #[trigger] s[j] == smallest(s);
    assert(s[i] - s[j] == spread_of(s));
}

proof fn extremes(s: Seq<int>)
    requires
        s.len() > 0,
    ensures
        forall|i: int| 0 <= i < s.len() ==> smallest(s) <= #[trigger] s[i] <= largest(s),
        exists|i: int| 0 <= i < s.len() && #[trigger] s[i] == largest(s),
        exists|i: int| 0 <= i < s.len() && #[trigger] s[i] == smallest(s),
    decreases s.len(),
{
    if s.len() > 1 {
        let before = s.drop_last();
        extremes(before);
        assert forall|i: int| 0 <= i < s.len() implies smallest(s) <= #[trigger] s[i]
            <= largest(s) by {
            if i < before.len() {
                assert(before[i] == s[i]);
            }
        }
        let i = choose|i: int| 0 <= i < before.len() && #[trigger] before[i] == largest(before);
        let j = choose|j: int| 0 <= j < before.len() && #[trigger] before[j] == smallest(before);
        assert(s[i] == before[i] && s[j] == before[j]);
        assert(s[s.len() - 1] == s.last());
    } else {
        assert(s[0] == largest(s));
    }
}

/// No track has drifted further than the worst drift, to either side, and one of
/// them has drifted that far, unless there is none.
pub proof fn worst_drift_is_the_largest(reports: Seq<AudioReport>)
    ensures
        forall|i: int|
            0 <= i < reports.len() ==> -worst_drift(reports) <= (#[trigger] reports[i]).drift()
                <= worst_drift(reports),
        reports.len() == 0 ==> worst_drift(reports) == 0,
        reports.len() > 0 ==> exists|i: int|
            0 <= i < reports.len() && ((#[trigger] reports[i]).drift() == worst_drift(reports)
                || reports[i].drift() == -worst_drift(reports)),
    decreases reports.len(),
{
    if reports.len() > 0 {
        let before = reports.drop_last();
        let worst = worst_drift(reports);
        worst_drift_is_the_largest(before);
        assert(reports[reports.len() - 1] == reports.last());
        assert forall|i: int| 0 <= i < reports.len() implies -worst <= (
        #[trigger] reports[i]).drift() <= worst by {
            if i < before.len() {
                assert(before[i] == reports[i]);
            }
        }
        if before.len() > 0 {
            let i = choose|i: int|
                0 <= i < before.len() && ((#[trigger] before[i]).drift() == worst_drift(before)
                    || before[i].drift() == -worst_drift(before));
            assert(reports[i] == before[i]);
        }
    }
}

/// Drift is measured in time: 48 frames more on the device are a millisecond ahead,
/// and a millisecond more on the counter is one behind.
pub proof fn drift_is_measured_in_time(a: AudioReport, b: AudioReport, k: int)
    requires
        a.last_packet_frames == b.last_packet_frames,
        a.first_boot_hns == b.first_boot_hns,
    ensures
        a.frames == b.frames + 48 * k && a.last_boot_hns == b.last_boot_hns ==> a.drift()
            == b.drift() + 480_000_000 * k,
        a.frames == b.frames && a.last_boot_hns == b.last_boot_hns + 10_000 * k ==> a.drift()
            == b.drift() - 480_000_000 * k,
        a.frames == b.frames && a.last_boot_hns == b.last_boot_hns ==> a.drift() == b.drift(),
{
}

/// The lowest flag of a packet tells of a break and the one above it of silence; no
/// other flag matters. A packet without a buffer is silent whatever its flags.
pub proof fn flags_are_single_bits(flags: u32, has_data: bool)
    ensures
        is_break(flags) <==> flags & 1 == 1,
        is_silent(flags, has_data) <==> flags & 2 == 2 || !has_data,
{
    assert(flags % 2 == 1 <==> flags & 1 == 1) by (bit_vector);
    assert((flags / 2) % 2 == 1 <==> flags & 2 == 2) by (bit_vector);
}

/// A purge counts for the length of the ring exactly where what it was taken from
/// was longer than allowed.
pub proof fn purges_are_told_apart(segments: Seq<SegmentInfo>, n: int, max_duration: int)
    requires
        0 <= n < segments.len(),
    ensures
        evicted_for_length(segments, 0, max_duration) == 0,
        total_duration(segments.skip(n)) > max_duration ==> evicted_for_length(
            segments,
            n + 1,
            max_duration,
        ) == evicted_for_length(segments, n, max_duration) + 1,
        total_duration(segments.skip(n)) <= max_duration ==> evicted_for_length(
            segments,
            n + 1,
            max_duration,
        ) == evicted_for_length(segments, n, max_duration),
{
}

/// Games are recorded among the others; the other categories keep their name.
pub proof fn games_are_recorded_among_the_others(process: Seq<char>)
    ensures
        category(process) == "Jeu"@ ==> bucket_of(process) == "Autres"@,
        category(process) != "Jeu"@ ==> bucket_of(process) == category(process),
{
}

/// The drifts of tracks are theirs one by one, in order.
pub proof fn drifts_follow_their_tracks(reports: Seq<AudioReport>, i: int)
    requires
        0 <= i < reports.len(),
    ensures
        drifts(reports).len() == reports.len(),
        drifts(reports)[i] == reports[i].drift(),
{
}

} // verus!
