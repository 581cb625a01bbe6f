//! Stream layout of the files that are written.
//!
//! Every segment of a session declares the same streams in the same order: one
//! picture stream, then one sound stream per track slot. Joining segments
//! without encoding again depends on it.
use crate::{CHANNELS, SAMPLE_RATE};
use vstd::prelude::*;

verus! {

/// How pictures are coded.
#[derive(Debug, Clone, Copy, PartialEq, Eq, Structural)]
pub enum VideoCoding {
    /// H.264, high profile.
    H264,
    /// Uncompressed 32-bit pictures.
    Argb32,
}

/// How sound is coded.
#[derive(Debug, Clone, Copy, PartialEq, Eq, Structural)]
pub enum AudioCoding {
    Aac,
    Pcm,
}

/// Attributes of a picture stream. Pairs are packed in one number.
#[derive(Debug, Clone, Copy, PartialEq, Eq, Structural)]
pub struct VideoType {
    pub coding: VideoCoding,
    /// Bit rate to ask of the encoder, on the coded side only.
    pub bitrate: Option<u32>,
    pub frame_size: u64,
    pub frame_rate: u64,
    pub pixel_aspect_ratio: u64,
}

/// Attributes of a sound stream.
#[derive(Debug, Clone, Copy, PartialEq, Eq, Structural)]
pub struct AudioType {
    pub coding: AudioCoding,
    pub bits_per_sample: u32,
    pub samples_per_second: u32,
    pub channels: u32,
    /// Bytes per second of the coded stream, on the coded side only.
    pub bytes_per_second: Option<u32>,
    /// Bytes per frame, on the uncompressed side only.
    pub block_alignment: Option<u32>,
}

/// A picture stream: what the file holds, and what the writer is fed.
#[derive(Debug, Clone, Copy, PartialEq, Eq, Structural)]
pub struct VideoDecl {
    pub stored: VideoType,
    pub fed: VideoType,
}

/// A sound stream: what the file holds, and what the writer is fed.
#[derive(Debug, Clone, Copy, PartialEq, Eq, Structural)]
pub struct AudioDecl {
    pub stored: AudioType,
    pub fed: AudioType,
}

/// A stream to declare.
#[derive(Debug, Clone, Copy, PartialEq, Eq, Structural)]
pub enum StreamDecl {
    Video(VideoDecl),
    Audio(AudioDecl),
}

/// How a file writer is set up.
#[derive(Debug, Clone, Copy, PartialEq, Eq, Structural)]
pub struct WriterOptions {
    pub hardware_transforms: bool,
    /// Whether the writer holds its caller back when it falls behind.
    pub throttling: bool,
}

/// Two 32-bit numbers in one of 64 bits, the first in the upper half.
pub open spec fn packed(high: u32, low: u32) -> int {
    high * 0x1_0000_0000 + low
}

/// Packs a pair of numbers in one.
pub fn pack(high: u32, low: u32) -> (r: u64)
    ensures
        r == packed(high, low),
{
    proof {
        let h = high as u64;
        let l = low as u64;
        assert((h << 32) | l == h * 0x1_0000_0000 + l) by (bit_vector)
            requires
                h <= 0xffff_ffff,
                l <= 0xffff_ffff,
        ;
    }
    ((high as u64) << 32) | low as u64
}

/// Takes a packed pair of numbers apart.
pub fn unpack(pair: u64) -> (r: (u32, u32))
    ensures
        r.0 == pair / 0x1_0000_0000,
        r.1 == pair % 0x1_0000_0000,
{
    proof {
        assert((pair >> 32) == pair / 0x1_0000_0000) by (bit_vector);
        assert((pair & 0xFFFF_FFFF) == pair % 0x1_0000_0000) by (bit_vector);
    }
    ((pair >> 32) as u32, (pair & 0xFFFF_FFFF) as u32)
}

/// Packing loses nothing: the two halves come back.
pub proof fn unpacking_undoes_packing(high: u32, low: u32)
    ensures
        packed(high, low) / 0x1_0000_0000 == high,
        packed(high, low) % 0x1_0000_0000 == low,
        packed(high, low) <= u64::MAX,
{
}

/// The picture stream of a capture.
pub open spec fn video_decl(width: u32, height: u32, fps: u32, bitrate: u32) -> VideoDecl {
    let stored = VideoType {
        coding: VideoCoding::H264,
        bitrate: Some(bitrate),
        frame_size: packed(width, height) as u64,
        frame_rate: packed(fps, 1) as u64,
        pixel_aspect_ratio: packed(1, 1) as u64,
    };
    VideoDecl { stored, fed: VideoType { coding: VideoCoding::Argb32, bitrate: None, ..stored } }
}

/// A sound stream: stereo at 48 kHz, 192 kbit/s once coded.
pub open spec fn audio_decl() -> AudioDecl {
    let stored = AudioType {
        coding: AudioCoding::Aac,
        bits_per_sample: 16,
        samples_per_second: 48_000,
        channels: 2,
        bytes_per_second: Some(24_000),
        block_alignment: None,
    };
    AudioDecl {
        stored,
        fed: AudioType {
            coding: AudioCoding::Pcm,
            bytes_per_second: None,
            block_alignment: Some(4),
            ..stored
        },
    }
}

/// The streams of a segment, in order.
pub open spec fn segment_streams(
    width: u32,
    height: u32,
    fps: u32,
    bitrate: u32,
    tracks: nat,
) -> Seq<StreamDecl> {
    seq![StreamDecl::Video(video_decl(width, height, fps, bitrate))] + Seq::new(
        tracks,
        |i: int| StreamDecl::Audio(audio_decl()),
    )
}

/// Declares the picture stream of a capture.
pub fn video_stream(width: u32, height: u32, fps: u32, bitrate: u32) -> (r: VideoDecl)
    ensures
        r == video_decl(width, height, fps, bitrate),
{
    let frame_size: u64 = pack(width, height);
    let frame_rate: u64 = pack(fps, 1);
    let pixel_aspect_ratio: u64 = pack(1, 1);
    VideoDecl {
        stored: VideoType {
            coding: VideoCoding::H264,
            bitrate: Some(bitrate),
            frame_size,
            frame_rate,
            pixel_aspect_ratio,
        },
        fed: VideoType {
            coding: VideoCoding::Argb32,
            bitrate: None,
            frame_size,
            frame_rate,
            pixel_aspect_ratio,
        },
    }
}

/// Declares a sound stream.
pub fn audio_stream() -> (r: AudioDecl)
    ensures
        r == audio_decl(),
{
    AudioDecl {
        stored: AudioType {
            coding: AudioCoding::Aac,
            bits_per_sample: 16,
            samples_per_second: SAMPLE_RATE,
            channels: CHANNELS as u32,
            bytes_per_second: Some(24_000),
            block_alignment: None,
        },
        fed: AudioType {
            coding: AudioCoding::Pcm,
            bits_per_sample: 16,
            samples_per_second: SAMPLE_RATE,
            channels: CHANNELS as u32,
            bytes_per_second: None,
            block_alignment: Some((CHANNELS * 2) as u32),
        },
    }
}

/// Writer setup for a capture.
///
/// Throttling stays on: without it a writer whose encoder falls behind keeps
/// accepting pictures, and each of them holds on to a texture.
pub fn capture_options() -> (r: WriterOptions)
    ensures
        r.hardware_transforms,
        r.throttling,
{
    WriterOptions { hardware_transforms: true, throttling: true }
}

/// Writer setup for an export.
///
/// Its content is bounded and interleaved, so throttling would only slow it
/// down.
pub fn export_options() -> (r: WriterOptions)
    ensures
        r.hardware_transforms,
        !r.throttling,
{
    WriterOptions { hardware_transforms: true, throttling: false }
}

/// Every segment declares one picture stream and then one sound stream per track,
/// all alike, whatever the tracks carry. The pictures have the size and the pace of
/// the capture and square pixels, on both sides; they are stored as H.264 at the bit
/// rate asked for, and fed uncompressed.
pub proof fn segments_declare_the_same_streams(
    width: u32,
    height: u32,
    fps: u32,
    bitrate: u32,
    tracks: nat,
    i: int,
    j: int,
)
    ensures
        ({
            let streams = segment_streams(width, height, fps, bitrate, tracks);
            &&& streams.len() == tracks + 1
            &&& 1 <= i <= tracks ==> streams[i] is Audio
            &&& 1 <= i <= tracks && 1 <= j <= tracks ==> streams[i] == streams[j]
            &&& streams[0] matches StreamDecl::Video(video) && {
                &&& video.stored.coding == VideoCoding::H264
                &&& video.fed.coding == VideoCoding::Argb32
                &&& video.stored.bitrate == Some(bitrate)
                &&& video.fed.bitrate is None
                &&& video.stored.frame_size / 0x1_0000_0000 == width
                &&& video.stored.frame_size % 0x1_0000_0000 == height
                &&& video.stored.frame_rate / 0x1_0000_0000 == fps
                &&& video.stored.frame_rate % 0x1_0000_0000 == 1
                &&& video.stored.pixel_aspect_ratio / 0x1_0000_0000 == 1
                &&& video.stored.pixel_aspect_ratio % 0x1_0000_0000 == 1
                &&& video.fed.frame_size == video.stored.frame_size
                &&& video.fed.frame_rate == video.stored.frame_rate
                &&& video.fed.pixel_aspect_ratio == video.stored.pixel_aspect_ratio
            }
        }),
{
    let streams = segment_streams(width, height, fps, bitrate, tracks);
    assert(1 <= i <= tracks ==> streams[i] == StreamDecl::Audio(audio_decl()));
    assert(1 <= j <= tracks ==> streams[j] == StreamDecl::Audio(audio_decl()));
    unpacking_undoes_packing(width, height);
    unpacking_undoes_packing(fps, 1);
    unpacking_undoes_packing(1, 1);
}

/// The sound of a track is 16-bit stereo at 48 000 frames per second on both sides:
/// stored as AAC at 192 000 bits per second, fed uncompressed, with as many bytes to
/// a frame as its channels and bits make.
pub proof fn sound_streams_are_stereo()
    ensures
        ({
            let AudioDecl { stored, fed } = audio_decl();
            &&& stored.coding == AudioCoding::Aac && fed.coding == AudioCoding::Pcm
            &&& stored.channels == 2 && fed.channels == 2
            &&& stored.samples_per_second == 48_000 && fed.samples_per_second == 48_000
            &&& stored.bits_per_sample == 16 && fed.bits_per_sample == 16
            &&& stored.bytes_per_second matches Some(n) && n * 8 == 192_000
            &&& fed.bytes_per_second is None
            &&& stored.block_alignment is None
            &&& fed.block_alignment matches Some(n) && n * 8 == fed.channels * fed.bits_per_sample
        }),
{
}

} // verus!
