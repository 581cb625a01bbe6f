//! Mixing the tracks of a clip and exporting it.
//!
//! Pictures are never encoded again: their samples are copied. Only the sound is
//! decoded, mixed by its gains, and encoded into one stereo track.
use crate::clock::{HNS_PER_SEC, trunc_div};
use crate::path;
use crate::text;
use crate::{CHANNELS, SAMPLE_RATE, frames_hns, frames_to_hns};
use vstd::prelude::*;

verus! {

/// Empty reads in a row beyond which a reader counts as stuck. A file can hold
/// some time marks in a row; hundreds mean that the reader does not advance.
pub const MAX_EMPTY_READS: u32 = 256;

/// Frames in a block of mixed sound: 100 ms.
pub const BLOCK_FRAMES: usize = 4_800;

/// What a stream carries.
#[derive(Debug, Clone, Copy, PartialEq, Eq, Structural)]
pub enum StreamKind {
    Video,
    Audio,
    Other,
}

/// The tracks of a clip, as the editor shows them.
#[derive(Debug, Clone)]
pub struct ClipInfo {
    pub video_stream: u32,
    pub audio_streams: Vec<u32>,
    pub duration_hns: i64,
}

/// Why a clip cannot be read or exported.
#[derive(Debug, Clone, Copy, PartialEq, Eq, Structural)]
pub enum ExportError {
    NoVideo,
    NoAudio,
    /// Numbers of gains and of tracks that do not match.
    GainCount { given: usize, tracks: usize },
    UnknownLength,
    /// A reader of a track that does not advance.
    StuckTrack { stream: u32, empty_reads: u32 },
    /// A reader of the pictures that does not advance.
    StuckVideo { empty_reads: u32 },
    UnknownSize,
    NoPicture,
    NoUsablePicture,
}

impl ExportError {
    pub open spec fn text(self) -> Seq<char> {
        match self {
            ExportError::NoVideo => "le clip ne contient aucune piste vidéo"@,
            ExportError::NoAudio => "le clip ne contient aucune piste audio à mixer"@,
            ExportError::GainCount { given, tracks } => text::decimal(given as nat)
                + " gain(s) fourni(s) pour "@ + text::decimal(tracks as nat) + " piste(s) audio"@,
            ExportError::UnknownLength => "durée du clip inconnue ou nulle"@,
            ExportError::StuckTrack { stream, empty_reads } => "lecture bloquée sur la piste "@
                + text::decimal(stream as nat) + " : "@ + text::decimal(empty_reads as nat)
                + " paquets vides"@,
            ExportError::StuckVideo { empty_reads } => "lecture vidéo bloquée : "@ + text::decimal(
                empty_reads as nat,
            ) + " paquets vides d'affilée"@,
            ExportError::UnknownSize => "dimensions vidéo inconnues"@,
            ExportError::NoPicture => "aucune image dans le clip"@,
            ExportError::NoUsablePicture => "aucune image exploitable"@,
        }
    }

    pub fn message(&self) -> (r: String)
        ensures
            r@ == self.text(),
    {
        match self {
            ExportError::NoVideo => "le clip ne contient aucune piste vidéo".to_owned(),
            ExportError::NoAudio => "le clip ne contient aucune piste audio à mixer".to_owned(),
            ExportError::GainCount { given, tracks } => {
                let mut r = text::decimal_text(*given as u64);
                r.append(" gain(s) fourni(s) pour ");
                r.append(text::decimal_text(*tracks as u64).as_str());
                r.append(" piste(s) audio");
                r
            },
            ExportError::UnknownLength => "durée du clip inconnue ou nulle".to_owned(),
            ExportError::StuckTrack { stream, empty_reads } => {
                let mut r = "lecture bloquée sur la piste ".to_owned();
                r.append(text::decimal_text(*stream as u64).as_str());
                r.append(" : ");
                r.append(text::decimal_text(*empty_reads as u64).as_str());
                r.append(" paquets vides");
                r
            },
            ExportError::StuckVideo { empty_reads } => {
                let mut r = "lecture vidéo bloquée : ".to_owned();
                r.append(text::decimal_text(*empty_reads as u64).as_str());
                r.append(" paquets vides d'affilée");
                r
            },
            ExportError::UnknownSize => "dimensions vidéo inconnues".to_owned(),
            ExportError::NoPicture => "aucune image dans le clip".to_owned(),
            ExportError::NoUsablePicture => "aucune image exploitable".to_owned(),
        }
    }
}

/// The streams of a kind among the first `n`, in order.
pub open spec fn streams_of(kinds: Seq<StreamKind>, kind: StreamKind, n: int) -> Seq<int>
    decreases n,
{
    if n <= 0 {
        Seq::empty()
    } else if kinds[n - 1] == kind {
        streams_of(kinds, kind, n - 1).push(n - 1)
    } else {
        streams_of(kinds, kind, n - 1)
    }
}

/// Takes stock of the streams of a clip: the first picture stream, all sound
/// streams, and the length, zero where it is not known.
pub fn inspect(kinds: &Vec<StreamKind>, duration_hns: Option<i64>) -> (r: Result<
    ClipInfo,
    ExportError,
>)
    requires
        kinds@.len() <= u32::MAX,
    ensures
        ({
            let pictures = streams_of(kinds@, StreamKind::Video, kinds@.len() as int);
            let sounds = streams_of(kinds@, StreamKind::Audio, kinds@.len() as int);
            match r {
                Ok(info) => {
                    &&& pictures.len() > 0
                    &&& info.video_stream == pictures[0]
                    &&& info.audio_streams@.map_values(|s: u32| s as int) == sounds
                    &&& info.duration_hns == (match duration_hns {
                        Some(duration) => duration,
                        None => 0,
                    })
                },
                Err(e) => pictures.len() == 0 && e == ExportError::NoVideo,
            }
        }),
{
    let mut video_stream: Option<u32> = None;
    let mut audio_streams: Vec<u32> = Vec::new();
    proof {
        assert(audio_streams@.map_values(|s: u32| s as int) =~= Seq::<int>::empty());
    }
    for i in 0..kinds.len()
        invariant
            kinds@.len() <= u32::MAX,
            audio_streams@.map_values(|s: u32| s as int) == streams_of(
                kinds@,
                StreamKind::Audio,
                i as int,
            ),
            match video_stream {
                Some(stream) => {
                    &&& streams_of(kinds@, StreamKind::Video, i as int).len() > 0
                    &&& streams_of(kinds@, StreamKind::Video, i as int)[0] == stream
                },
                None => streams_of(kinds@, StreamKind::Video, i as int).len() == 0,
            },
    {
        match kinds[i] {
            StreamKind::Video => {
                if video_stream.is_none() {
                    video_stream = Some(i as u32);
                }
            },
            StreamKind::Audio => {
                let ghost before = audio_streams@;
                audio_streams.push(i as u32);
                proof {
                    assert(audio_streams@.map_values(|s: u32| s as int) =~= before.map_values(
                        |s: u32| s as int,
                    ).push(i as int));
                }
            },
            StreamKind::Other => {},
        }
    }
    match video_stream {
        Some(video_stream) => Ok(
            ClipInfo {
                video_stream,
                audio_streams,
                duration_hns: match duration_hns {
                    Some(duration) => duration,
                    None => 0,
                },
            },
        ),
        None => Err(ExportError::NoVideo),
    }
}

/// Frames of sound in a clip of a given length, rounded toward zero.
pub open spec fn clip_frames(duration_hns: int) -> int {
    trunc_div(duration_hns * 48_000, 10_000_000)
}

/// Counts the frames of sound in a clip of a given length.
pub fn frames_in(duration_hns: i64) -> (r: usize)
    requires
        0 <= clip_frames(duration_hns as int) <= usize::MAX,
    ensures
        r == clip_frames(duration_hns as int),
{
    if duration_hns <= 0 {
        return 0;
    }
    (duration_hns as i128 * SAMPLE_RATE as i128 / HNS_PER_SEC as i128) as usize
}

/// What an export has to do.
#[derive(Debug)]
pub struct MixPlan {
    /// Interleaved samples in the mix.
    pub samples: usize,
    /// Tracks to mix, by position among the tracks of the file.
    pub tracks: Vec<usize>,
}

/// The positions, among the first `n`, that are audible.
pub open spec fn audible_tracks(audible: Seq<bool>, n: int) -> Seq<int>
    decreases n,
{
    if n <= 0 {
        Seq::empty()
    } else if audible[n - 1] {
        audible_tracks(audible, n - 1).push(n - 1)
    } else {
        audible_tracks(audible, n - 1)
    }
}

/// Plans an export. `audible` tells for each track, in the order of the file,
/// whether its gain is positive: a track that is off is not even read.
pub fn mix_and_export(info: &ClipInfo, audible: &Vec<bool>) -> (r: Result<MixPlan, ExportError>)
    requires
        info.audio_streams@.len() > 0 && audible@.len() == info.audio_streams@.len() ==> 0
            <= clip_frames(info.duration_hns as int) * 2 <= usize::MAX,
    ensures
        match r {
            Ok(plan) => {
                &&& info.audio_streams@.len() > 0
                &&& audible@.len() == info.audio_streams@.len()
                &&& clip_frames(info.duration_hns as int) > 0
                &&& plan.samples == clip_frames(info.duration_hns as int) * 2
                &&& plan.tracks@.map_values(|t: usize| t as int) == audible_tracks(
                    audible@,
                    audible@.len() as int,
                )
            },
            Err(e) => e == (if info.audio_streams@.len() == 0 {
                ExportError::NoAudio
            } else if audible@.len() != info.audio_streams@.len() {
                ExportError::GainCount {
                    given: audible@.len() as usize,
                    tracks: info.audio_streams@.len() as usize,
                }
            } else {
                ExportError::UnknownLength
            }) && (info.audio_streams@.len() == 0 || audible@.len() != info.audio_streams@.len()
                || clip_frames(info.duration_hns as int) == 0),
        },
{
    if info.audio_streams.len() == 0 {
        return Err(ExportError::NoAudio);
    }
    if audible.len() != info.audio_streams.len() {
        return Err(
            ExportError::GainCount { given: audible.len(), tracks: info.audio_streams.len() },
        );
    }
    let frames: usize = frames_in(info.duration_hns);
    if frames == 0 {
        return Err(ExportError::UnknownLength);
    }
    let mut tracks: Vec<usize> = Vec::new();
    proof {
        assert(tracks@.map_values(|t: usize| t as int) =~= Seq::<int>::empty());
    }
    for i in 0..audible.len()
        invariant
            tracks@.map_values(|t: usize| t as int) == audible_tracks(audible@, i as int),
    {
        if audible[i] {
            let ghost before = tracks@;
            tracks.push(i);
            proof {
                assert(tracks@.map_values(|t: usize| t as int) =~= before.map_values(
                    |t: usize| t as int,
                ).push(i as int));
            }
        }
    }
    Ok(MixPlan { samples: frames * CHANNELS as usize, tracks })
}

/// A track to extract: its stream and the file for it.
#[derive(Debug)]
pub struct TrackFile {
    pub stream: u32,
    pub path: String,
}

/// The path of the file that a track is extracted to.
pub open spec fn track_path(directory: Seq<char>, position: nat) -> Seq<char> {
    path::joined(directory, "track"@ + text::decimal(position) + ".wav"@)
}

/// Plans the extraction of each sound track to a file of its own, for listening
/// to a mix before it is exported.
pub fn extract_tracks(info: &ClipInfo, directory: &str) -> (r: Result<Vec<TrackFile>, ExportError>)
    ensures
        match r {
            Ok(files) => {
                &&& clip_frames(info.duration_hns as int) != 0
                &&& files@.len() == info.audio_streams@.len()
                &&& forall|i: int|
                    0 <= i < files@.len() ==> (#[trigger] files@[i]).stream == info.audio_streams@[i]
                        && files@[i].path@ == track_path(directory@, i as nat)
            },
            Err(e) => clip_frames(info.duration_hns as int) == 0 && e
                == ExportError::UnknownLength,
        },
{
    // A frame lasts a little more than 208 units.
    if -208 <= info.duration_hns && info.duration_hns <= 208 {
        return Err(ExportError::UnknownLength);
    }
    let mut files: Vec<TrackFile> = Vec::new();
    for i in 0..info.audio_streams.len()
        invariant
            files@.len() == i,
            forall|j: int|
                0 <= j < i ==> (#[trigger] files@[j]).stream == info.audio_streams@[j]
                    && files@[j].path@ == track_path(directory@, j as nat),
    {
        let mut name = "track".to_owned();
        name.append(text::decimal_text(i as u64).as_str());
        name.append(".wav");
        files.push(
            TrackFile {
                stream: info.audio_streams[i],
                path: path::join(directory, name.as_str()),
            },
        );
    }
    Ok(files)
}

/// Where the picture of a thumbnail is taken: at a quarter of the clip, at most
/// two seconds in. Late enough to avoid the black of the beginning.
pub fn thumbnail_position(duration_hns: i64) -> (r: i64)
    ensures
        r == (if trunc_div(duration_hns as int, 4) < 2 * HNS_PER_SEC {
            trunc_div(duration_hns as int, 4)
        } else {
            2 * HNS_PER_SEC
        }),
        r <= 20_000_000,
        duration_hns >= 0 ==> 0 <= 4 * r <= duration_hns,
        0 <= duration_hns < 80_000_000 ==> duration_hns < 4 * r + 4,
        duration_hns >= 80_000_000 ==> r == 20_000_000,
{
    let quarter: i64 = duration_hns / 4;
    let most: i64 = 2 * HNS_PER_SEC;
    if quarter < most {
        quarter
    } else {
        most
    }
}

/// What to do after a read from a track.
#[derive(Debug, Clone, Copy, PartialEq, Eq, Structural)]
pub enum TrackAction {
    ReadOn,
    /// Add the first `count` samples of the packet to the mix, from `start` on,
    /// and read on.
    Deposit { start: usize, count: usize },
    /// The track is complete.
    Done,
}

/// A track being added to the mix.
///
/// The packets of a track follow each other; they are not placed by their times.
/// Those are rounded, so that two packets overlap by some samples, and adding
/// them up would double the signal there.
#[derive(Debug)]
pub struct TrackReader {
    pub stream: u32,
    /// Samples in the mix.
    pub mix_samples: usize,
    /// Samples of the track so far.
    pub written: usize,
    pub empty_reads: u32,
}

impl TrackReader {
    pub fn new(stream: u32, mix_samples: usize) -> (r: Self)
        ensures
            r == (TrackReader { stream, mix_samples, written: 0, empty_reads: 0 }),
    {
        TrackReader { stream, mix_samples, written: 0, empty_reads: 0 }
    }

    /// Decides what to do with a read: whether it came with the end of the
    /// stream, and the number of samples in its packet, where there is one.
    ///
    /// An empty read without the end of the stream is legitimate, but too many in
    /// a row would go on for ever. What goes beyond the announced length is left
    /// out.
    pub fn read(&mut self, end_of_stream: bool, packet: Option<usize>) -> (r: Result<
        TrackAction,
        ExportError,
    >)
        requires
            old(self).empty_reads <= MAX_EMPTY_READS,
            packet matches Some(samples) ==> old(self).written + samples <= usize::MAX,
        ensures
            final(self).stream == old(self).stream,
            final(self).mix_samples == old(self).mix_samples,
            r is Ok ==> final(self).empty_reads <= MAX_EMPTY_READS,
            end_of_stream ==> r == Ok::<TrackAction, ExportError>(TrackAction::Done)
                && *final(self) == *old(self),
            !end_of_stream ==> match packet {
                Some(samples) => {
                    &&& final(self).empty_reads == 0
                    &&& final(self).written == old(self).written + samples
                    &&& r == Ok::<TrackAction, ExportError>(
                        TrackAction::Deposit {
                            start: old(self).written,
                            count: deposit_count(
                                old(self).written as int,
                                samples as int,
                                old(self).mix_samples as int,
                            ) as usize,
                        },
                    )
                },
                None => {
                    &&& r is Ok <==> old(self).empty_reads < 256
                    &&& final(self).written == old(self).written
                    &&& final(self).empty_reads == old(self).empty_reads + 1
                    &&& r == (if final(self).empty_reads > MAX_EMPTY_READS {
                        Err::<TrackAction, ExportError>(
                            ExportError::StuckTrack {
                                stream: old(self).stream,
                                empty_reads: final(self).empty_reads,
                            },
                        )
                    } else {
                        Ok(TrackAction::ReadOn)
                    })
                },
            },
    {
        if end_of_stream {
            return Ok(TrackAction::Done);
        }
        match packet {
            None => {
                self.empty_reads = self.empty_reads + 1;
                if self.empty_reads > MAX_EMPTY_READS {
                    return Err(
                        ExportError::StuckTrack {
                            stream: self.stream,
                            empty_reads: self.empty_reads,
                        },
                    );
                }
                Ok(TrackAction::ReadOn)
            },
            Some(samples) => {
                self.empty_reads = 0;
                let start: usize = self.written;
                let left: usize = self.mix_samples.saturating_sub(start);
                let count: usize = if samples < left {
                    samples
                } else {
                    left
                };
                self.written = start + samples;
                Ok(TrackAction::Deposit { start, count })
            },
        }
    }
}

/// How many samples of a packet go into the mix.
pub open spec fn deposit_count(written: int, samples: int, mix_samples: int) -> int {
    if written >= mix_samples {
        0
    } else if samples < mix_samples - written {
        samples
    } else {
        mix_samples - written
    }
}

/// Samples in the first packets of a track.
pub open spec fn packets_total(packets: Seq<nat>) -> nat
    decreases packets.len(),
{
    if packets.len() == 0 {
        0
    } else {
        packets_total(packets.drop_last()) + packets.last()
    }
}

/// The packets of a track form one exact signal in the mix: each sample of the
/// mix that the track reaches receives one sample of it, none two. The deposits of
/// packets end where the next one begins, and together they cover the mix up to
/// the end of the track or of the mix.
pub proof fn packets_are_contiguous(packets: Seq<nat>, next: nat, mix_samples: int)
    requires
        mix_samples >= 0,
    ensures
        ({
            let written = packets_total(packets) as int;
            let count = deposit_count(written, next as int, mix_samples);
            let after = packets_total(packets.push(next)) as int;
            &&& after == written + next
            &&& 0 <= count <= next
            &&& count > 0 ==> written + count <= mix_samples
            &&& after <= mix_samples ==> written + count == after
            &&& written <= mix_samples < after ==> written + count == mix_samples
        }),
{
    assert(packets.push(next).drop_last() =~= packets);
}

/// A block of mixed sound: the samples from `start` to `end`, and its place.
#[derive(Debug, Clone, Copy, PartialEq, Eq, Structural)]
pub struct AudioBlock {
    pub start: usize,
    pub end: usize,
    pub time_hns: i64,
    pub duration_hns: i64,
}

/// Samples in a full block.
pub open spec fn block_samples() -> int {
    9_600
}

/// Blocks in a mix.
pub open spec fn block_count(samples: int) -> int {
    (samples + block_samples() - 1) / block_samples()
}

/// Where a block ends: after a full block, or with the mix.
pub open spec fn block_end(samples: int, k: int) -> int {
    if (k + 1) * block_samples() < samples {
        (k + 1) * block_samples()
    } else {
        samples
    }
}

/// A block of a mix.
pub open spec fn block_at(samples: int, k: int) -> AudioBlock {
    AudioBlock {
        start: (k * block_samples()) as usize,
        end: block_end(samples, k) as usize,
        time_hns: (k * 1_000_000) as i64,
        duration_hns: frames_hns(
            ((block_end(samples, k) - k * block_samples()) / 2) as nat,
        ) as i64,
    }
}

/// The blocks of a mix from one up to another.
pub open spec fn blocks_between(samples: int, from: int, to: int) -> Seq<AudioBlock> {
    Seq::new((to - from) as nat, |i: int| block_at(samples, from + i))
}

/// How many blocks of a mix begin at a time or before it.
pub open spec fn blocks_due(samples: int, until_hns: int) -> int {
    let n = if until_hns < 0 {
        0
    } else {
        until_hns / 1_000_000 + 1
    };
    if n < block_count(samples) {
        n
    } else {
        block_count(samples)
    }
}

/// What to do after a read of the pictures.
#[derive(Debug)]
pub enum ExportAction {
    ReadOn,
    /// Write these blocks, then the picture that was read.
    Write(Vec<AudioBlock>),
    /// Write these blocks, then finalize the output.
    Finish(Vec<AudioBlock>),
}

/// Sound and pictures being written in turns.
///
/// Writing all the sound first would make the muxer hold it back until the
/// pictures catch up, and at some point block for ever. The pictures are followed
/// instead, and a block of sound is written as soon as they reach its time.
pub struct Interleaver {
    samples: usize,
    blocks: usize,
    next_block: usize,
    empty_reads: u32,
}

impl Interleaver {
    #[verifier::type_invariant]
    spec fn well_formed(self) -> bool {
        &&& self.blocks == block_count(self.samples as int)
        &&& self.next_block <= self.blocks
        &&& self.empty_reads <= MAX_EMPTY_READS
        &&& self.blocks * 1_000_000 <= i64::MAX
    }

    /// Samples in the mix.
    pub closed spec fn mix(self) -> int {
        self.samples as int
    }

    /// Blocks written so far.
    pub closed spec fn written(self) -> int {
        self.next_block as int
    }

    /// Empty reads in a row.
    pub closed spec fn empty(self) -> int {
        self.empty_reads as int
    }

    /// Begins to write a mix of the given number of samples.
    pub fn new(samples: usize) -> (r: Self)
        requires
            block_count(samples as int) * 1_000_000 <= i64::MAX,
        ensures
            r.mix() == samples,
            r.written() == 0,
            r.empty() == 0,
    {
        let full: usize = BLOCK_FRAMES * CHANNELS as usize;
        let blocks: usize = samples / full + if samples % full > 0 {
            1usize
        } else {
            0
        };
        Interleaver { samples, blocks, next_block: 0, empty_reads: 0 }
    }

    fn block(&self, k: usize) -> (r: AudioBlock)
        requires
            k < block_count(self.mix()),
        ensures
            r == block_at(self.mix(), k as int),
            r.start == k * 9_600,
            r.start < r.end <= self.mix(),
            r.time_hns * 48_000 * 2 == r.start * 10_000_000,
            r.time_hns == k * 1_000_000,
    {
        proof {
            use_type_invariant(self);
        }
        let full: usize = BLOCK_FRAMES * CHANNELS as usize;
        let start: usize = k * full;
        let end: usize = if self.samples - start > full {
            start + full
        } else {
            self.samples
        };
        let frames: usize = (end - start) / CHANNELS as usize;
        AudioBlock {
            start,
            end,
            time_hns: k as i64 * 1_000_000,
            duration_hns: frames_to_hns(frames as u64),
        }
    }

    /// Takes out the blocks that begin at a time or before it and were not
    /// written yet.
    pub fn flush(&mut self, until_hns: i64) -> (r: Vec<AudioBlock>)
        ensures
            final(self).mix() == old(self).mix(),
            final(self).empty() == old(self).empty(),
            final(self).written() == (if blocks_due(old(self).mix(), until_hns as int)
                > old(self).written() {
                blocks_due(old(self).mix(), until_hns as int)
            } else {
                old(self).written()
            }),
            r@ == blocks_between(old(self).mix(), old(self).written(), final(self).written()),
            old(self).written() <= final(self).written(),
            forall|i: int|
                0 <= i < r@.len() ==> {
                    &&& (#[trigger] r@[i]).start == (old(self).written() + i) * 9_600
                    &&& r@[i].start < r@[i].end <= old(self).mix()
                    &&& r@[i].time_hns * 48_000 * 2 == r@[i].start * 10_000_000
                    &&& r@[i].time_hns <= until_hns
                },
            final(self).written() * 9_600 < old(self).mix() ==> final(self).written() * 1_000_000
                > until_hns,
    {
        let ghost first = self.written();
        let ghost mix = self.mix();
        let ghost due = blocks_due(mix, until_hns as int);
        let mut r: Vec<AudioBlock> = Vec::new();
        proof {
            use_type_invariant(&*self);
        }
        while self.next_block < self.blocks && self.next_block as i64 * 1_000_000 <= until_hns
            invariant
                self.mix() == mix,
                self.empty() == old(self).empty(),
                due == blocks_due(mix, until_hns as int),
                self.blocks == block_count(mix),
                self.blocks * 1_000_000 <= i64::MAX,
                first <= self.written() <= self.blocks,
                self.written() == first || self.written() <= due,
                r@.len() == self.written() - first,
                forall|i: int|
                    0 <= i < r@.len() ==> #[trigger] r@[i] == block_at(mix, first + i),
                forall|i: int|
                    0 <= i < r@.len() ==> {
                        &&& (#[trigger] r@[i]).start == (first + i) * 9_600
                        &&& r@[i].start < r@[i].end <= mix
                        &&& r@[i].time_hns * 48_000 * 2 == r@[i].start * 10_000_000
                        &&& r@[i].time_hns <= until_hns
                    },
            decreases self.blocks - self.next_block,
        {
            proof {
                use_type_invariant(&*self);
            }
            r.push(self.block(self.next_block));
            self.next_block = self.next_block + 1;
        }
        proof {
            assert(r@ =~= blocks_between(mix, first, self.written()));
        }
        r
    }

    /// Decides what to do with a read of the pictures: whether it came with the
    /// end of the stream, and the time of its picture, where there is one.
    pub fn read(&mut self, end_of_stream: bool, picture: Option<i64>) -> (r: Result<
        ExportAction,
        ExportError,
    >)
        ensures
            final(self).mix() == old(self).mix(),
            match r {
                Ok(ExportAction::Finish(blocks)) => {
                    &&& end_of_stream
                    &&& final(self).written() == block_count(old(self).mix())
                    &&& blocks@ == blocks_between(
                        old(self).mix(),
                        old(self).written(),
                        final(self).written(),
                    )
                },
                Ok(ExportAction::Write(blocks)) => {
                    let due = blocks_due(old(self).mix(), picture->0 as int);
                    &&& !end_of_stream
                    &&& picture is Some
                    &&& final(self).empty() == 0
                    &&& final(self).written() == (if due > old(self).written() {
                        due
                    } else {
                        old(self).written()
                    })
                    &&& blocks@ == blocks_between(
                        old(self).mix(),
                        old(self).written(),
                        final(self).written(),
                    )
                },
                Ok(ExportAction::ReadOn) => {
                    &&& !end_of_stream
                    &&& picture is None
                    &&& old(self).empty() < 256
                    &&& final(self).empty() == old(self).empty() + 1
                    &&& final(self).written() == old(self).written()
                },
                Err(e) => {
                    &&& !end_of_stream
                    &&& picture is None
                    &&& old(self).empty() == 256
                    &&& e == (ExportError::StuckVideo {
                        empty_reads: (old(self).empty() + 1) as u32,
                    })
                    &&& *final(self) == *old(self)
                },
            },
    {
        proof {
            use_type_invariant(&*self);
        }
        if end_of_stream {
            proof {
                assert(blocks_due(self.mix(), i64::MAX as int) == block_count(self.mix()));
            }
            return Ok(ExportAction::Finish(self.flush(i64::MAX)));
        }
        match picture {
            None => {
                if self.empty_reads >= MAX_EMPTY_READS {
                    return Err(ExportError::StuckVideo { empty_reads: self.empty_reads + 1 });
                }
                self.empty_reads = self.empty_reads + 1;
                Ok(ExportAction::ReadOn)
            },
            Some(time_hns) => {
                self.empty_reads = 0;
                Ok(ExportAction::Write(self.flush(time_hns)))
            },
        }
    }
}

/// The blocks of a mix cover it once, in order: the first begins at its start,
/// each begins where the one before it ends, and the last ends with it.
pub proof fn blocks_cover_the_mix(samples: int, k: int)
    requires
        0 < samples <= usize::MAX,
        0 <= k < block_count(samples),
    ensures
        block_at(samples, 0).start == 0,
        block_at(samples, k).start < block_at(samples, k).end <= samples,
        k + 1 < block_count(samples) ==> block_at(samples, k + 1).start == block_at(samples, k).end,
        block_at(samples, block_count(samples) - 1).end == samples,
{
}

/// The time of a block is that of its first sample: 48 000 frames of two samples
/// last a second, so that the sound keeps in step with the pictures to the end of
/// the mix. The first block begins at zero, and each begins where the one before
/// it, a full one of 100 ms, has run out.
pub proof fn blocks_stand_at_their_samples(samples: int, k: int)
    requires
        0 < samples <= usize::MAX,
        0 <= k < block_count(samples),
        block_count(samples) * 1_000_000 <= i64::MAX,
    ensures
        ({
            let block = block_at(samples, k);
            let next = block_at(samples, k + 1);
            let frames = (block.end - block.start) / 2;
            &&& block.time_hns * 48_000 * 2 == block.start * 10_000_000
            &&& block_at(samples, 0).time_hns == 0
            &&& frames * 10_000_000 - 48_000 < block.duration_hns * 48_000 <= frames * 10_000_000
            &&& k + 1 < block_count(samples) ==> {
                &&& next.time_hns == block.time_hns + block.duration_hns
                &&& block.end - block.start == 9_600
                &&& block.duration_hns == 1_000_000
            }
            &&& block.end - block.start <= 9_600
        }),
{
    let block = block_at(samples, k);
    assert(block.start == k * 9_600);
    assert(0 < block.end - block.start <= 9_600);
    assert(k * 1_000_000 <= i64::MAX);
    if k + 1 < block_count(samples) {
        assert((k + 1) * 1_000_000 <= i64::MAX);
    }
}

/// The blocks of a run follow each other as they do in the mix: none is left out,
/// none comes twice, and the run goes from the one block up to the other.
pub proof fn runs_leave_out_no_block(samples: int, from: int, to: int, i: int)
    requires
        0 < samples <= usize::MAX,
        0 <= from <= to <= block_count(samples),
        0 <= i < to - from,
    ensures
        ({
            let run = blocks_between(samples, from, to);
            &&& run.len() == to - from
            &&& run[0].start == from * 9_600
            &&& i + 1 < run.len() ==> run[i + 1].start == run[i].end
            &&& to < block_count(samples) ==> run.last().end == to * 9_600
            &&& to == block_count(samples) ==> run.last().end == samples
        }),
{
    blocks_cover_the_mix(samples, from + i);
}

/// A block is due exactly once the pictures have reached its own time.
pub proof fn blocks_are_due_at_their_time(samples: int, until_hns: int, k: int)
    requires
        0 < samples <= usize::MAX,
        0 <= k < block_count(samples),
        block_count(samples) * 1_000_000 <= i64::MAX,
    ensures
        k < blocks_due(samples, until_hns) <==> block_at(samples, k).time_hns <= until_hns,
        k < blocks_due(samples, until_hns) <==> block_at(samples, k).start * 10_000_000
            <= until_hns * 96_000,
{
    blocks_stand_at_their_samples(samples, k);
}

/// Sound never runs more than a block ahead of the pictures, nor behind them:
/// what has been written once a picture is due are exactly the blocks that begin
/// at its time or before it.
pub proof fn sound_follows_the_pictures(samples: int, until_hns: int, k: int)
    requires
        samples >= 0,
        0 <= k < block_count(samples),
    ensures
        k < blocks_due(samples, until_hns) <==> k * 1_000_000 <= until_hns,
        0 <= blocks_due(samples, until_hns) <= block_count(samples),
{
}

/// What to do after a read when looking for a picture.
#[derive(Debug, Clone, Copy, PartialEq, Eq, Structural)]
pub enum PictureAction {
    ReadOn,
    /// Take the picture that was read.
    Take,
}

/// A search for the first picture of a clip.
#[derive(Debug)]
pub struct PictureSearch {
    pub empty_reads: u32,
}

impl PictureSearch {
    pub fn new() -> (r: Self)
        ensures
            r.empty_reads == 0,
    {
        PictureSearch { empty_reads: 0 }
    }

    /// Decides what to do with a read: whether it came with the end of the
    /// stream, and whether it holds a picture.
    pub fn read(&mut self, end_of_stream: bool, picture: bool) -> (r: Result<
        PictureAction,
        ExportError,
    >)
        requires
            old(self).empty_reads <= MAX_EMPTY_READS,
        ensures
            final(self).empty_reads == old(self).empty_reads + (if end_of_stream || picture {
                0int
            } else {
                1
            }),
            r == (if end_of_stream {
                Err::<PictureAction, ExportError>(ExportError::NoPicture)
            } else if picture {
                Ok(PictureAction::Take)
            } else if final(self).empty_reads > MAX_EMPTY_READS {
                Err(ExportError::NoUsablePicture)
            } else {
                Ok(PictureAction::ReadOn)
            }),
            r is Ok ==> final(self).empty_reads <= MAX_EMPTY_READS,
            !end_of_stream && !picture ==> (r is Ok <==> old(self).empty_reads < 256),
    {
        if end_of_stream {
            return Err(ExportError::NoPicture);
        }
        if picture {
            return Ok(PictureAction::Take);
        }
        self.empty_reads = self.empty_reads + 1;
        if self.empty_reads > MAX_EMPTY_READS {
            return Err(ExportError::NoUsablePicture);
        }
        Ok(PictureAction::ReadOn)
    }
}

/// A measure of the time between pictures.
///
/// A regular clip has gaps that all equal its nominal period; one that lacks
/// pictures has holes, which players render badly.
#[derive(Debug)]
pub struct FrameProbe {
    pub gaps: Vec<i64>,
    pub previous: Option<i64>,
    pub empty_reads: u32,
}

impl FrameProbe {
    pub fn new() -> (r: Self)
        ensures
            r.gaps@ == Seq::<i64>::empty(),
            r.previous is None,
            r.empty_reads == 0,
    {
        FrameProbe { gaps: Vec::new(), previous: None, empty_reads: 0 }
    }

    /// Takes in a read: whether it came with the end of the stream, and the time
    /// of its picture, where there is one. Returns whether to read on; a reader
    /// that does not advance ends the measure.
    pub fn read(&mut self, end_of_stream: bool, picture: Option<i64>) -> (more: bool)
        requires
            old(self).empty_reads <= MAX_EMPTY_READS,
            picture matches Some(time) ==> old(self).previous matches Some(before) ==> i64::MIN
                <= time - before <= i64::MAX,
        ensures
            more ==> final(self).empty_reads <= MAX_EMPTY_READS,
            end_of_stream ==> !more && *final(self) == *old(self),
            !end_of_stream ==> match picture {
                Some(time) => {
                    &&& more
                    &&& final(self).empty_reads == 0
                    &&& final(self).previous == Some(time)
                    &&& final(self).gaps@ == (match old(self).previous {
                        Some(before) => old(self).gaps@.push((time - before) as i64),
                        None => old(self).gaps@,
                    })
                },
                None => {
                    &&& more == (old(self).empty_reads < 256)
                    &&& final(self).empty_reads == old(self).empty_reads + 1
                    &&& final(self).previous == old(self).previous
                    &&& final(self).gaps@ == old(self).gaps@
                },
            },
    {
        if end_of_stream {
            return false;
        }
        match picture {
            None => {
                self.empty_reads = self.empty_reads + 1;
                self.empty_reads <= MAX_EMPTY_READS
            },
            Some(time) => {
                self.empty_reads = 0;
                if let Some(before) = self.previous {
                    self.gaps.push(time - before);
                }
                self.previous = Some(time);
                true
            },
        }
    }
}

/// The gaps between the times of pictures.
pub open spec fn gaps_of(times: Seq<i64>) -> Seq<int> {
    Seq::new(
        if times.len() == 0 {
            0
        } else {
            (times.len() - 1) as nat
        },
        |i: int| times[i + 1] - times[i],
    )
}

/// Measures the gaps between pictures whose times are known.
pub fn probe_video(times: &Vec<i64>) -> (r: Vec<i64>)
    requires
        forall|i: int|
            0 <= i < times@.len() - 1 ==> i64::MIN <= (#[trigger] times@[i + 1]) - times@[i]
                <= i64::MAX,
    ensures
        r@.map_values(|g: i64| g as int) == gaps_of(times@),
        times@.len() > 0 ==> r@.len() == times@.len() - 1,
        forall|i: int| 0 <= i < r@.len() ==> times@[i] + #[trigger] r@[i] == times@[i + 1],
{
    let mut probe = FrameProbe::new();
    for i in 0..times.len()
        invariant
            forall|i: int|
                0 <= i < times@.len() - 1 ==> i64::MIN <= (#[trigger] times@[i + 1]) - times@[i]
                    <= i64::MAX,
            probe.empty_reads == 0,
            probe.previous == (if i == 0 {
                None::<i64>
            } else {
                Some(times@[i - 1])
            }),
            probe.gaps@.len() == (if i == 0 {
                0int
            } else {
                i - 1
            }),
            forall|j: int|
                0 <= j < probe.gaps@.len() ==> #[trigger] probe.gaps@[j] == times@[j + 1] - times@[j],
    {
        proof {
            if i > 0 {
                assert(i64::MIN <= times@[(i - 1) + 1] - times@[i - 1] <= i64::MAX);
            }
        }
        let _ = probe.read(false, Some(times[i]));
    }
    proof {
        assert(probe.gaps@.map_values(|g: i64| g as int) =~= gaps_of(times@));
        assert(forall|i: int|
            0 <= i < probe.gaps@.len() ==> times@[i] + #[trigger] probe.gaps@[i] == times@[i + 1]);
    }
    probe.gaps
}

/// Every stream of a clip is taken for what it carries: the streams of a kind are
/// listed, all of them, in the order of the file.
pub proof fn streams_are_told_apart(kinds: Seq<StreamKind>, kind: StreamKind, n: int)
    requires
        0 <= n <= kinds.len(),
    ensures
        forall|s: int|
            #[trigger] streams_of(kinds, kind, n).contains(s) <==> 0 <= s < n && kinds[s] == kind,
        forall|i: int, j: int|
            0 <= i < j < streams_of(kinds, kind, n).len() ==> #[trigger] streams_of(
                kinds,
                kind,
                n,
            )[i] < #[trigger] streams_of(kinds, kind, n)[j],
    decreases n,
{
    if n > 0 {
        streams_are_told_apart(kinds, kind, n - 1);
        let (before, now) = (streams_of(kinds, kind, n - 1), streams_of(kinds, kind, n));
        assert forall|i: int| 0 <= i < before.len() implies 0 <= #[trigger] before[i] < n - 1 by {
            assert(before.contains(before[i]));
        }
        assert forall|s: int| #[trigger] now.contains(s) <==> 0 <= s < n && kinds[s] == kind by {
            if before.contains(s) {
                let i = choose|i: int| 0 <= i < before.len() && before[i] == s;
                assert(now[i] == s);
            }
            if s == n - 1 && kinds[s] == kind {
                assert(now[now.len() - 1] == s);
            }
            if now.contains(s) {
                let i = choose|i: int| 0 <= i < now.len() && now[i] == s;
                if i < before.len() {
                    assert(before[i] == s);
                }
            }
        }
    }
}

/// A track is read for a mix exactly where it is audible, and once.
pub proof fn only_audible_tracks_are_mixed(audible: Seq<bool>, n: int)
    requires
        0 <= n <= audible.len(),
    ensures
        forall|t: int|
            #[trigger] audible_tracks(audible, n).contains(t) <==> 0 <= t < n && audible[t],
        forall|i: int, j: int|
            0 <= i < j < audible_tracks(audible, n).len() ==> #[trigger] audible_tracks(
                audible,
                n,
            )[i] < #[trigger] audible_tracks(audible, n)[j],
    decreases n,
{
    if n > 0 {
        only_audible_tracks_are_mixed(audible, n - 1);
        let (before, now) = (audible_tracks(audible, n - 1), audible_tracks(audible, n));
        assert forall|i: int| 0 <= i < before.len() implies 0 <= #[trigger] before[i] < n - 1 by {
            assert(before.contains(before[i]));
        }
        assert forall|t: int| #[trigger] now.contains(t) <==> 0 <= t < n && audible[t] by {
            if before.contains(t) {
                let i = choose|i: int| 0 <= i < before.len() && before[i] == t;
                assert(now[i] == t);
            }
            if t == n - 1 && audible[t] {
                assert(now[now.len() - 1] == t);
            }
            if now.contains(t) {
                let i = choose|i: int| 0 <= i < now.len() && now[i] == t;
                if i < before.len() {
                    assert(before[i] == t);
                }
            }
        }
    }
}

/// The frames of a clip are those that begin and end within its length: one more
/// would outlast it. A negative length counts down as a positive one counts up.
pub proof fn frames_fill_the_clip(duration_hns: int)
    ensures
        duration_hns >= 0 ==> {
            &&& clip_frames(duration_hns) * 10_000_000 <= duration_hns * 48_000
            &&& duration_hns * 48_000 < (clip_frames(duration_hns) + 1) * 10_000_000
        },
        clip_frames(-duration_hns) == -clip_frames(duration_hns),
{
}

/// A picture is as far from the one before it as the gap between them says, so
/// that the gaps add up to the way from the first picture to any other one.
pub proof fn gaps_lead_from_picture_to_picture(times: Seq<i64>, n: int)
    requires
        0 <= n < times.len(),
    ensures
        gaps_of(times).len() == times.len() - 1,
        n + 1 < times.len() ==> times[n] + gaps_of(times)[n] == times[n + 1],
        gaps_of(times).take(n).fold_left(times[0] as int, |at: int, gap: int| at + gap) == times[n],
    decreases n,
{
    let step = |at: int, gap: int| at + gap;
    let gaps = gaps_of(times);
    if n > 0 {
        gaps_lead_from_picture_to_picture(times, n - 1);
        assert(gaps.take(n).drop_last() =~= gaps.take(n - 1));
        assert(gaps.take(n).last() == gaps[n - 1]);
    }
}

/// Nothing is counted before the first packet of a track, and its packets add up.
pub proof fn packets_add_up(packets: Seq<nat>, more: Seq<nat>)
    ensures
        packets_total(Seq::empty()) == 0,
        packets_total(packets + more) == packets_total(packets) + packets_total(more),
    decreases more.len(),
{
    if more.len() == 0 {
        assert(packets + more =~= packets);
    } else {
        assert((packets + more).drop_last() =~= packets + more.drop_last());
        packets_add_up(packets, more.drop_last());
    }
}

/// Each track is extracted to a file of its own in the directory: `track`, its
/// position and `.wav`.
pub proof fn tracks_are_extracted_apart(directory: Seq<char>, position: nat, other: nat)
    requires
        directory.len() > 0,
        directory[0] != '/' && directory[0] != '\\',
    ensures
        path::file_name_of(track_path(directory, position)) == Some(
            "track"@ + text::decimal(position) + ".wav"@,
        ),
        position != other ==> track_path(directory, position) != track_path(directory, other),
{
    track_file_name(directory, position);
    track_file_name(directory, other);
    let (a, b) = (text::decimal(position), text::decimal(other));
    let (x, y) = ("track"@ + a + ".wav"@, "track"@ + b + ".wav"@);
    reveal_strlit("track");
    reveal_strlit(".wav");
    if x == y {
        text::decimal_denotes(position);
        text::decimal_denotes(other);
        assert(x.subrange(5, x.len() - 4) =~= a);
        assert(y.subrange(5, y.len() - 4) =~= b);
    }
}

proof fn track_file_name(directory: Seq<char>, position: nat)
    requires
        directory.len() > 0,
        directory[0] != '/' && directory[0] != '\\',
    ensures
        path::file_name_of(track_path(directory, position)) == Some(
            "track"@ + text::decimal(position) + ".wav"@,
        ),
{
    let digits = text::decimal(position);
    let name = "track"@ + digits + ".wav"@;
    reveal_strlit("track");
    reveal_strlit(".wav");
    text::decimal_denotes(position);
    assert forall|i: int| 0 <= i < name.len() implies !path::is_separator(#[trigger] name[i])
        && name[i] != ':' by {
        if 5 <= i < 5 + digits.len() {
            assert(name[i] == digits[i - 5]);
            assert(text::is_digit(digits[i - 5]));
        }
    }
    assert(name.last() == 'v');
    path::joining_appends_a_name(directory, name);
    let t = path::joined(directory, name);
    assert(t[0] == directory[0]);
    path::joined_name(directory, name);
}

/// A message names its numbers in order: the gains that were given before the tracks
/// that there are, and the track before the empty reads on it.
pub proof fn messages_name_their_numbers(given: usize, tracks: usize, stream: u32, empty_reads: u32)
    ensures
        text::decimal(given as nat).is_prefix_of(
            (ExportError::GainCount { given, tracks }).text(),
        ),
        (text::decimal(tracks as nat) + " piste(s) audio"@).is_suffix_of(
            (ExportError::GainCount { given, tracks }).text(),
        ),
        (text::decimal(stream as nat) + " : "@ + text::decimal(empty_reads as nat)
            + " paquets vides"@).is_suffix_of(
            (ExportError::StuckTrack { stream, empty_reads }).text(),
        ),
        (text::decimal(empty_reads as nat) + " paquets vides d'affilée"@).is_suffix_of(
            (ExportError::StuckVideo { empty_reads }).text(),
        ),
{
    let count = (ExportError::GainCount { given, tracks }).text();
    let middle = " gain(s) fourni(s) pour "@;
    let end = text::decimal(tracks as nat) + " piste(s) audio"@;
    assert(count =~= text::decimal(given as nat) + (middle + end));
    assert(count =~= (text::decimal(given as nat) + middle) + end);
    text::ends_stay_at_the_end(text::decimal(given as nat), middle + end);
    text::ends_stay_at_the_end(text::decimal(given as nat) + middle, end);
    let stuck = text::decimal(stream as nat) + " : "@ + text::decimal(empty_reads as nat)
        + " paquets vides"@;
    assert((ExportError::StuckTrack { stream, empty_reads }).text()
        =~= "lecture bloquée sur la piste "@ + stuck);
    text::ends_stay_at_the_end("lecture bloquée sur la piste "@, stuck);
    let still = text::decimal(empty_reads as nat) + " paquets vides d'affilée"@;
    assert((ExportError::StuckVideo { empty_reads }).text() =~= "lecture vidéo bloquée : "@
        + still);
    text::ends_stay_at_the_end("lecture vidéo bloquée : "@, still);
}

} // verus!
