//! Sound files.
//!
//! Extracted tracks are 16-bit files, half the size of floating-point ones for a
//! difference that nobody hears in a preview. Recordings of a single source are
//! floating-point files, whose header is written again once their size is known.
use crate::{CHANNELS, SAMPLE_RATE};
use vstd::prelude::*;

verus! {

/// The two bytes of a number, the lowest first.
pub open spec fn le16(n: u16) -> Seq<u8> {
    seq![(n % 0x100) as u8, (n / 0x100) as u8]
}

/// The four bytes of a number, the lowest first.
pub open spec fn le32(n: u32) -> Seq<u8> {
    seq![
        (n % 0x100) as u8,
        ((n / 0x100) % 0x100) as u8,
        ((n / 0x1_0000) % 0x100) as u8,
        (n / 0x100_0000) as u8,
    ]
}

/// The number whose four bytes, the lowest first, stand at a place.
pub open spec fn number_at(bytes: Seq<u8>, at: int) -> int {
    bytes[at] + bytes[at + 1] * 0x100 + bytes[at + 2] * 0x1_0000 + bytes[at + 3] * 0x100_0000
}

/// A sample as an unsigned number of the same bits.
pub open spec fn sample_bits(s: i16) -> u16 {
    if s >= 0 {
        s as u16
    } else {
        (s + 0x1_0000) as u16
    }
}

/// Samples as bytes, the lowest byte of each first.
pub open spec fn sample_bytes(samples: Seq<i16>) -> Seq<u8>
    decreases samples.len(),
{
    if samples.len() == 0 {
        Seq::empty()
    } else {
        sample_bytes(samples.drop_last()) + le16(sample_bits(samples.last()))
    }
}

pub open spec fn tag_riff() -> Seq<u8> {
    seq![0x52u8, 0x49u8, 0x46u8, 0x46u8]
}

pub open spec fn tag_wave() -> Seq<u8> {
    seq![0x57u8, 0x41u8, 0x56u8, 0x45u8]
}

pub open spec fn tag_fmt() -> Seq<u8> {
    seq![0x66u8, 0x6du8, 0x74u8, 0x20u8]
}

pub open spec fn tag_fact() -> Seq<u8> {
    seq![0x66u8, 0x61u8, 0x63u8, 0x74u8]
}

pub open spec fn tag_data() -> Seq<u8> {
    seq![0x64u8, 0x61u8, 0x74u8, 0x61u8]
}

/// Header of a 16-bit stereo file at 48 kHz with so many bytes of samples. The
/// size in it leaves out its own eight bytes.
pub open spec fn pcm16_header(data_bytes: u32) -> Seq<u8> {
    tag_riff() + le32((36 + data_bytes) as u32) + tag_wave() + tag_fmt() + le32(16) + le16(1)
        + le16(2) + le32(48_000) + le32(192_000) + le16(4) + le16(16) + tag_data() + le32(
        data_bytes,
    )
}

/// Header of a floating-point stereo file at 48 kHz with so many bytes of
/// samples: it has a longer format chunk, and one that counts the frames.
pub open spec fn float_header(data_bytes: u32) -> Seq<u8> {
    tag_riff() + le32((50 + data_bytes) as u32) + tag_wave() + tag_fmt() + le32(18) + le16(3)
        + le16(2) + le32(48_000) + le32(384_000) + le16(8) + le16(32) + le16(0) + tag_fact() + le32(
        4,
    ) + le32(data_bytes / 8) + tag_data() + le32(data_bytes)
}

fn put16(bytes: &mut Vec<u8>, n: u16)
    ensures
        final(bytes)@ == old(bytes)@ + le16(n),
{
    bytes.push((n % 0x100) as u8);
    bytes.push((n / 0x100) as u8);
    proof {
        assert(bytes@ =~= old(bytes)@ + le16(n));
    }
}

fn put32(bytes: &mut Vec<u8>, n: u32)
    ensures
        final(bytes)@ == old(bytes)@ + le32(n),
{
    bytes.push((n % 0x100) as u8);
    bytes.push(((n / 0x100) % 0x100) as u8);
    bytes.push(((n / 0x1_0000) % 0x100) as u8);
    bytes.push((n / 0x100_0000) as u8);
    proof {
        assert(bytes@ =~= old(bytes)@ + le32(n));
    }
}

fn put_tag(bytes: &mut Vec<u8>, a: u8, b: u8, c: u8, d: u8)
    ensures
        final(bytes)@ == old(bytes)@ + seq![a, b, c, d],
{
    bytes.push(a);
    bytes.push(b);
    bytes.push(c);
    bytes.push(d);
    proof {
        assert(bytes@ =~= old(bytes)@ + seq![a, b, c, d]);
    }
}

/// Writes a 16-bit stereo file.
pub fn write_wav(samples: &Vec<i16>) -> (r: Vec<u8>)
    requires
        36 + 2 * samples@.len() <= u32::MAX,
    ensures
        r@ == pcm16_header((2 * samples@.len()) as u32) + sample_bytes(samples@),
        r@.len() == 44 + 2 * samples@.len(),
        forall|i: int|
            0 <= i < samples@.len() ==> #[trigger] samples@[i] == ({
                let b = r@[44 + 2 * i] + 256 * r@[45 + 2 * i];
                if b < 32_768 {
                    b
                } else {
                    b - 65_536
                }
            }),
{
    let data_bytes: u32 = samples.len() as u32 * 2;
    let block_align: u16 = CHANNELS * 2;
    let mut r: Vec<u8> = Vec::new();
    put_tag(&mut r, 0x52, 0x49, 0x46, 0x46);
    put32(&mut r, 36 + data_bytes);
    put_tag(&mut r, 0x57, 0x41, 0x56, 0x45);
    put_tag(&mut r, 0x66, 0x6d, 0x74, 0x20);
    put32(&mut r, 16);
    put16(&mut r, 1);
    put16(&mut r, CHANNELS);
    put32(&mut r, SAMPLE_RATE);
    put32(&mut r, SAMPLE_RATE * block_align as u32);
    put16(&mut r, block_align);
    put16(&mut r, 16);
    put_tag(&mut r, 0x64, 0x61, 0x74, 0x61);
    put32(&mut r, data_bytes);
    proof {
        assert(r@ =~= pcm16_header(data_bytes));
        assert(samples@.take(0) =~= Seq::<i16>::empty());
        assert(r@ =~= pcm16_header(data_bytes) + sample_bytes(samples@.take(0)));
    }
    for i in 0..samples.len()
        invariant
            r@ == pcm16_header(data_bytes) + sample_bytes(samples@.take(i as int)),
            r@.len() == 44 + 2 * i,
    {
        let s: i16 = samples[i];
        let bits: u16 = if s >= 0 {
            s as u16
        } else {
            (s as i32 + 0x1_0000) as u16
        };
        let ghost before = r@;
        put16(&mut r, bits);
        proof {
            assert(samples@.take(i + 1).drop_last() =~= samples@.take(i as int));
            assert(r@ =~= pcm16_header(data_bytes) + sample_bytes(samples@.take(i + 1)));
        }
    }
    proof {
        assert(samples@.take(samples@.len() as int) =~= samples@);
        samples_are_read_back(samples@);
    }
    r
}

/// A floating-point file being written: the bytes of samples so far.
#[derive(Debug)]
pub struct WavWriter {
    pub data_bytes: u32,
}

impl WavWriter {
    /// Begins a file. Returns its first header, which claims no samples.
    pub fn create() -> (r: (Self, Vec<u8>))
        ensures
            r.0.data_bytes == 0,
            r.1@ == float_header(0),
    {
        (WavWriter { data_bytes: 0 }, write_header(0))
    }

    /// Counts samples that were written, of four bytes each.
    pub fn write_samples(&mut self, samples: usize)
        requires
            old(self).data_bytes + 4 * samples <= u32::MAX,
        ensures
            final(self).data_bytes == old(self).data_bytes + 4 * samples,
    {
        self.data_bytes = self.data_bytes + samples as u32 * 4;
    }

    /// Gives the bytes that stand for a silent packet, and counts them. Without
    /// them the track would get shorter and lose its place.
    pub fn write_silence(&mut self, bytes: usize) -> (r: Vec<u8>)
        requires
            old(self).data_bytes + bytes <= u32::MAX,
        ensures
            final(self).data_bytes == old(self).data_bytes + bytes,
            r@ == Seq::new(bytes as nat, |i: int| 0u8),
    {
        let mut r: Vec<u8> = Vec::new();
        for i in 0..bytes
            invariant
                r@ == Seq::new(i as nat, |j: int| 0u8),
        {
            r.push(0);
            proof {
                assert(r@ =~= Seq::new(i as nat + 1, |j: int| 0u8));
            }
        }
        self.data_bytes = self.data_bytes + bytes as u32;
        r
    }

    /// Ends a file. Returns the header to write in place of the first one.
    pub fn finish(self) -> (r: Vec<u8>)
        requires
            50 + self.data_bytes <= u32::MAX,
        ensures
            r@ == float_header(self.data_bytes),
    {
        write_header(self.data_bytes)
    }
}

/// Writes the header of a floating-point file.
pub fn write_header(data_bytes: u32) -> (r: Vec<u8>)
    requires
        50 + data_bytes <= u32::MAX,
    ensures
        r@ == float_header(data_bytes),
        r@.len() == 58,
{
    let block_align: u16 = CHANNELS * 4;
    let mut r: Vec<u8> = Vec::new();
    put_tag(&mut r, 0x52, 0x49, 0x46, 0x46);
    put32(&mut r, 50 + data_bytes);
    put_tag(&mut r, 0x57, 0x41, 0x56, 0x45);
    put_tag(&mut r, 0x66, 0x6d, 0x74, 0x20);
    put32(&mut r, 18);
    put16(&mut r, 3);
    put16(&mut r, CHANNELS);
    put32(&mut r, SAMPLE_RATE);
    put32(&mut r, SAMPLE_RATE * block_align as u32);
    put16(&mut r, block_align);
    put16(&mut r, 32);
    put16(&mut r, 0);
    put_tag(&mut r, 0x66, 0x61, 0x63, 0x74);
    put32(&mut r, 4);
    put32(&mut r, data_bytes / block_align as u32);
    put_tag(&mut r, 0x64, 0x61, 0x74, 0x61);
    put32(&mut r, data_bytes);
    proof {
        assert(r@ =~= float_header(data_bytes));
    }
    r
}

proof fn four_bytes_hold_a_number(n: u32)
    ensures
        number_at(le32(n), 0) == n,
{
}

/// The sizes in a 16-bit file are those of the file: the first one counts all
/// that follows it, the second one the samples behind the header.
pub proof fn pcm16_sizes_are_true(samples: Seq<i16>)
    requires
        36 + 2 * samples.len() <= u32::MAX,
    ensures
        ({
            let file = pcm16_header((2 * samples.len()) as u32) + sample_bytes(samples);
            &&& file.len() == 44 + 2 * samples.len()
            &&& number_at(file, 4) + 8 == file.len()
            &&& number_at(file, 40) + 44 == file.len()
        }),
{
    let n = (2 * samples.len()) as u32;
    let file = pcm16_header(n) + sample_bytes(samples);
    bytes_per_sample(samples);
    four_bytes_hold_a_number((36 + n) as u32);
    four_bytes_hold_a_number(n);
    assert(file.subrange(4, 8) =~= le32((36 + n) as u32));
    assert(file.subrange(40, 44) =~= le32(n));
    assert(file[4] == file.subrange(4, 8)[0] && file[5] == file.subrange(4, 8)[1] && file[6]
        == file.subrange(4, 8)[2] && file[7] == file.subrange(4, 8)[3]);
    assert(file[40] == file.subrange(40, 44)[0] && file[41] == file.subrange(40, 44)[1] && file[42]
        == file.subrange(40, 44)[2] && file[43] == file.subrange(40, 44)[3]);
}

proof fn bytes_per_sample(samples: Seq<i16>)
    ensures
        sample_bytes(samples).len() == 2 * samples.len(),
    decreases samples.len(),
{
    if samples.len() > 0 {
        bytes_per_sample(samples.drop_last());
    }
}

/// The sizes in the final header of a floating-point file are those of the file,
/// given the bytes of samples behind the header.
pub proof fn float_sizes_are_true(data_bytes: u32)
    requires
        50 + data_bytes <= u32::MAX,
    ensures
        float_header(data_bytes).len() == 58,
        number_at(float_header(data_bytes), 4) + 8 == 58 + data_bytes,
        number_at(float_header(data_bytes), 54) == data_bytes,
{
    let h = float_header(data_bytes);
    four_bytes_hold_a_number((50 + data_bytes) as u32);
    four_bytes_hold_a_number(data_bytes);
    assert(h.subrange(4, 8) =~= le32((50 + data_bytes) as u32));
    assert(h.subrange(54, 58) =~= le32(data_bytes));
    assert(h[4] == h.subrange(4, 8)[0] && h[5] == h.subrange(4, 8)[1] && h[6] == h.subrange(
        4,
        8,
    )[2] && h[7] == h.subrange(4, 8)[3]);
    assert(h[54] == h.subrange(54, 58)[0] && h[55] == h.subrange(54, 58)[1] && h[56] == h.subrange(
        54,
        58,
    )[2] && h[57] == h.subrange(54, 58)[3]);
}

/// A reader of a 16-bit file gets back the samples that were written: the two
/// bytes of each, behind the header, are its value in two's complement, the lowest
/// byte first.
pub proof fn samples_are_read_back(samples: Seq<i16>)
    requires
        36 + 2 * samples.len() <= u32::MAX,
    ensures
        ({
            let file = pcm16_header((2 * samples.len()) as u32) + sample_bytes(samples);
            forall|i: int|
                0 <= i < samples.len() ==> #[trigger] samples[i] == ({
                    let b = file[44 + 2 * i] + 256 * file[45 + 2 * i];
                    if b < 32_768 {
                        b
                    } else {
                        b - 65_536
                    }
                })
        }),
{
    let header = pcm16_header((2 * samples.len()) as u32);
    let data = sample_bytes(samples);
    let file = header + data;
    bytes_per_sample(samples);
    bytes_hold_samples(samples);
    assert(header.len() == 44);
    assert forall|i: int| 0 <= i < samples.len() implies #[trigger] samples[i] == ({
        let b = file[44 + 2 * i] + 256 * file[45 + 2 * i];
        if b < 32_768 {
            b
        } else {
            b - 65_536
        }
    }) by {
        assert(file[44 + 2 * i] == data[2 * i]);
        assert(file[45 + 2 * i] == data[2 * i + 1]);
    }
}

proof fn bytes_hold_samples(samples: Seq<i16>)
    ensures
        forall|i: int|
            0 <= i < samples.len() ==> #[trigger] samples[i] == ({
                let b = sample_bytes(samples)[2 * i] + 256 * sample_bytes(samples)[2 * i + 1];
                if b < 32_768 {
                    b
                } else {
                    b - 65_536
                }
            }),
    decreases samples.len(),
{
    if samples.len() > 0 {
        let before = samples.drop_last();
        let data = sample_bytes(samples);
        bytes_per_sample(before);
        bytes_hold_samples(before);
        assert forall|i: int| 0 <= i < samples.len() implies #[trigger] samples[i] == ({
            let b = data[2 * i] + 256 * data[2 * i + 1];
            if b < 32_768 {
                b
            } else {
                b - 65_536
            }
        }) by {
            if i < before.len() {
                assert(before[i] == samples[i]);
                assert(data[2 * i] == sample_bytes(before)[2 * i]);
                assert(data[2 * i + 1] == sample_bytes(before)[2 * i + 1]);
            } else {
                let bits = sample_bits(samples[i]);
                assert(data[2 * i] == le16(bits)[0]);
                assert(data[2 * i + 1] == le16(bits)[1]);
            }
        }
    }
}

/// The header of a 16-bit file as a reader takes it apart: a RIFF file of kind WAVE
/// whose format chunk, of 16 bytes, announces whole numbers on two channels at
/// 48 000 frames per second, four bytes to a frame and 16 bits to a sample, with
/// the data chunk right behind it. Both sizes follow the bytes of samples.
#[verifier::spinoff_prover]
pub proof fn pcm16_header_is_understood(data_bytes: u32)
    requires
        36 + data_bytes <= u32::MAX,
    ensures
        ({
            let h = pcm16_header(data_bytes);
            &&& h.len() == 44
            &&& h.subrange(0, 4) == seq![0x52u8, 0x49u8, 0x46u8, 0x46u8]
            &&& h[4] + 256 * h[5] + 65_536 * h[6] + 16_777_216 * h[7] == data_bytes + 36
            &&& h.subrange(8, 16) == seq![
                0x57u8,
                0x41u8,
                0x56u8,
                0x45u8,
                0x66u8,
                0x6du8,
                0x74u8,
                0x20u8,
            ]
            &&& h[16] + 256 * h[17] + 65_536 * h[18] + 16_777_216 * h[19] == 16
            &&& h[20] + 256 * h[21] == 1
            &&& h[22] + 256 * h[23] == 2
            &&& h[24] + 256 * h[25] + 65_536 * h[26] + 16_777_216 * h[27] == 48_000
            &&& h[28] + 256 * h[29] + 65_536 * h[30] + 16_777_216 * h[31] == 48_000 * 4
            &&& h[32] + 256 * h[33] == 4
            &&& h[34] + 256 * h[35] == 16
            &&& h.subrange(36, 40) == seq![0x64u8, 0x61u8, 0x74u8, 0x61u8]
            &&& h[40] + 256 * h[41] + 65_536 * h[42] + 16_777_216 * h[43] == data_bytes
        }),
{
    let h = pcm16_header(data_bytes);
    four_bytes_hold_a_number((36 + data_bytes) as u32);
    four_bytes_hold_a_number(data_bytes);
    assert(h.subrange(0, 4) =~= seq![0x52u8, 0x49u8, 0x46u8, 0x46u8]);
    assert(h.subrange(8, 16) =~= tag_wave() + tag_fmt());
    assert(h.subrange(8, 16) =~= seq![
        0x57u8,
        0x41u8,
        0x56u8,
        0x45u8,
        0x66u8,
        0x6du8,
        0x74u8,
        0x20u8,
    ]);
    assert(h.subrange(36, 40) =~= seq![0x64u8, 0x61u8, 0x74u8, 0x61u8]);
    assert(h.subrange(4, 8) =~= le32((36 + data_bytes) as u32));
    assert(h[4] == h.subrange(4, 8)[0] && h[5] == h.subrange(4, 8)[1] && h[6] == h.subrange(
        4,
        8,
    )[2] && h[7] == h.subrange(4, 8)[3]);
    assert(h.subrange(40, 44) =~= le32(data_bytes));
    assert(h[40] == h.subrange(40, 44)[0] && h[41] == h.subrange(40, 44)[1] && h[42] == h.subrange(
        40,
        44,
    )[2] && h[43] == h.subrange(40, 44)[3]);
}

/// The header of a floating-point file as a reader takes it apart: a format chunk
/// of 18 bytes announces floating-point numbers on two channels at 48 000 frames
/// per second, eight bytes to a frame and 32 bits to a sample, with nothing added;
/// the chunk behind it counts the frames; then comes the data chunk.
#[verifier::spinoff_prover]
pub proof fn float_header_is_understood(data_bytes: u32)
    requires
        50 + data_bytes <= u32::MAX,
    ensures
        ({
            let h = float_header(data_bytes);
            let frames = h[46] + 256 * h[47] + 65_536 * h[48] + 16_777_216 * h[49];
            &&& h.len() == 58
            &&& h.subrange(0, 4) == seq![0x52u8, 0x49u8, 0x46u8, 0x46u8]
            &&& h[4] + 256 * h[5] + 65_536 * h[6] + 16_777_216 * h[7] == data_bytes + 50
            &&& h.subrange(8, 16) == seq![
                0x57u8,
                0x41u8,
                0x56u8,
                0x45u8,
                0x66u8,
                0x6du8,
                0x74u8,
                0x20u8,
            ]
            &&& h[16] + 256 * h[17] + 65_536 * h[18] + 16_777_216 * h[19] == 18
            &&& h[20] + 256 * h[21] == 3
            &&& h[22] + 256 * h[23] == 2
            &&& h[24] + 256 * h[25] + 65_536 * h[26] + 16_777_216 * h[27] == 48_000
            &&& h[28] + 256 * h[29] + 65_536 * h[30] + 16_777_216 * h[31] == 48_000 * 8
            &&& h[32] + 256 * h[33] == 8
            &&& h[34] + 256 * h[35] == 32
            &&& h[36] == 0 && h[37] == 0
            &&& h.subrange(38, 42) == seq![0x66u8, 0x61u8, 0x63u8, 0x74u8]
            &&& h[42] + 256 * h[43] + 65_536 * h[44] + 16_777_216 * h[45] == 4
            &&& frames * 8 <= data_bytes < frames * 8 + 8
            &&& h.subrange(50, 54) == seq![0x64u8, 0x61u8, 0x74u8, 0x61u8]
            &&& h[54] + 256 * h[55] + 65_536 * h[56] + 16_777_216 * h[57] == data_bytes
        }),
{
    let h = float_header(data_bytes);
    let format = tag_riff() + le32((50 + data_bytes) as u32) + tag_wave() + tag_fmt() + le32(18)
        + le16(3) + le16(2) + le32(48_000) + le32(384_000) + le16(8) + le16(32) + le16(0);
    let data = tag_fact() + le32(4) + le32(data_bytes / 8) + tag_data() + le32(data_bytes);
    float_format_is_understood(data_bytes, format);
    float_data_is_understood(data_bytes, data);
    assert(h =~= format + data);
    assert(forall|i: int| 0 <= i < 38 ==> #[trigger] h[i] == format[i]);
    assert(forall|i: int| 38 <= i < 58 ==> #[trigger] h[i] == data[i - 38]);
    assert(h.subrange(0, 4) =~= format.subrange(0, 4));
    assert(h.subrange(8, 16) =~= format.subrange(8, 16));
    assert(h.subrange(38, 42) =~= data.subrange(0, 4));
    assert(h.subrange(50, 54) =~= data.subrange(12, 16));
}

#[verifier::spinoff_prover]
proof fn float_format_is_understood(data_bytes: u32, h: Seq<u8>)
    requires
        50 + data_bytes <= u32::MAX,
        h == tag_riff() + le32((50 + data_bytes) as u32) + tag_wave() + tag_fmt() + le32(18)
            + le16(3) + le16(2) + le32(48_000) + le32(384_000) + le16(8) + le16(32) + le16(0),
    ensures
        h.len() == 38,
        h.subrange(0, 4) == seq![0x52u8, 0x49u8, 0x46u8, 0x46u8],
        h[4] + 256 * h[5] + 65_536 * h[6] + 16_777_216 * h[7] == data_bytes + 50,
        h.subrange(8, 16) == seq![
            0x57u8,
            0x41u8,
            0x56u8,
            0x45u8,
            0x66u8,
            0x6du8,
            0x74u8,
            0x20u8,
        ],
        h[16] + 256 * h[17] + 65_536 * h[18] + 16_777_216 * h[19] == 18,
        h[20] + 256 * h[21] == 3,
        h[22] + 256 * h[23] == 2,
        h[24] + 256 * h[25] + 65_536 * h[26] + 16_777_216 * h[27] == 48_000,
        h[28] + 256 * h[29] + 65_536 * h[30] + 16_777_216 * h[31] == 48_000 * 8,
        h[32] + 256 * h[33] == 8,
        h[34] + 256 * h[35] == 32,
        h[36] == 0 && h[37] == 0,
{
    four_bytes_hold_a_number((50 + data_bytes) as u32);
    assert(h.subrange(0, 4) =~= seq![0x52u8, 0x49u8, 0x46u8, 0x46u8]);
    assert(h.subrange(8, 16) =~= seq![
        0x57u8,
        0x41u8,
        0x56u8,
        0x45u8,
        0x66u8,
        0x6du8,
        0x74u8,
        0x20u8,
    ]);
    let size = h.subrange(4, 8);
    assert(size =~= le32((50 + data_bytes) as u32));
    assert(h[4] == size[0] && h[5] == size[1] && h[6] == size[2] && h[7] == size[3]);
}

#[verifier::spinoff_prover]
proof fn float_data_is_understood(data_bytes: u32, h: Seq<u8>)
    requires
        h == tag_fact() + le32(4) + le32(data_bytes / 8) + tag_data() + le32(data_bytes),
    ensures
        h.len() == 20,
        h.subrange(0, 4) == seq![0x66u8, 0x61u8, 0x63u8, 0x74u8],
        h[4] + 256 * h[5] + 65_536 * h[6] + 16_777_216 * h[7] == 4,
        h[8] + 256 * h[9] + 65_536 * h[10] + 16_777_216 * h[11] == data_bytes / 8,
        h.subrange(12, 16) == seq![0x64u8, 0x61u8, 0x74u8, 0x61u8],
        h[16] + 256 * h[17] + 65_536 * h[18] + 16_777_216 * h[19] == data_bytes,
{
    four_bytes_hold_a_number(data_bytes / 8);
    four_bytes_hold_a_number(data_bytes);
    assert(h.subrange(0, 4) =~= seq![0x66u8, 0x61u8, 0x63u8, 0x74u8]);
    assert(h.subrange(12, 16) =~= seq![0x64u8, 0x61u8, 0x74u8, 0x61u8]);
    let frames = h.subrange(8, 12);
    assert(frames =~= le32(data_bytes / 8));
    assert(h[8] == frames[0] && h[9] == frames[1] && h[10] == frames[2] && h[11] == frames[3]);
    let size = h.subrange(16, 20);
    assert(size =~= le32(data_bytes));
    assert(h[16] == size[0] && h[17] == size[1] && h[18] == size[2] && h[19] == size[3]);
}

} // verus!
