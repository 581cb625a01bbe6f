//! Decisions of the screen capture.
//!
//! Pictures stay on the graphics device. They go through a small ring of
//! textures, which decouples the pace at which they arrive from that of the
//! encoder.
use vstd::prelude::*;

verus! {

/// Number of textures between the capture and the encoder, which can have
/// several pictures in flight.
pub const TEXTURE_RING: usize = 8;

/// Where the content of a texture comes from.
#[derive(Debug, Clone, Copy, PartialEq, Eq, Structural)]
pub enum TextureSource {
    /// The picture that has just arrived.
    Frame,
    /// Another texture of the ring.
    Texture(usize),
}

/// A texture to fill and to hand to the encoder.
#[derive(Debug, Clone, Copy, PartialEq, Eq, Structural)]
pub struct TexturePlan {
    pub slot: usize,
    pub source: TextureSource,
    /// Whether the picture is new.
    pub fresh: bool,
}

/// The capture of a monitor.
#[derive(Debug)]
pub struct Capture {
    pub width: u32,
    pub height: u32,
    /// As long as no picture has arrived, there is nothing to repeat.
    pub has_content: bool,
}

/// The unsigned number with the bits of a signed one.
pub open spec fn unsigned_bits(v: i32) -> int {
    if v >= 0 {
        v as int
    } else {
        v + 0x1_0000_0000
    }
}

fn to_unsigned(v: i32) -> (r: u32)
    ensures
        r == unsigned_bits(v),
{
    proof {
        assert(v < 0 ==> v as u32 == v + 0x1_0000_0000) by (bit_vector);
    }
    v as u32
}

/// The texture of a tick.
pub open spec fn slot_of(index: int) -> int {
    index % 8
}

impl Capture {
    /// The size of the monitor, where it is another one than that of the capture.
    pub open spec fn changed(self, size: Option<(i32, i32)>) -> Option<(nat, nat)> {
        match size {
            Some((w, h)) => {
                let (width, height) = (unsigned_bits(w), unsigned_bits(h));
                if width == 0 || height == 0 || (width == self.width && height == self.height) {
                    None
                } else {
                    Some((width as nat, height as nat))
                }
            },
            None => None,
        }
    }

    /// Opens the capture of a monitor of the given size.
    pub fn primary_monitor(width: i32, height: i32) -> (r: Self)
        ensures
            r.width == unsigned_bits(width),
            r.height == unsigned_bits(height),
            !r.has_content,
    {
        Capture { width: to_unsigned(width), height: to_unsigned(height), has_content: false }
    }

    /// The new size, where the monitor has changed its resolution. `size` is its
    /// present size, where that can be read.
    ///
    /// A game that goes full screen often changes it. The size is fixed in the
    /// picture stream of a segment, so the capture cannot go on as it is. An
    /// empty size means a monitor that is absent for a moment, which is no
    /// change of resolution.
    pub fn resolution_change(&self, size: Option<(i32, i32)>) -> (r: Option<(u32, u32)>)
        ensures
            match r {
                Some((width, height)) => self.changed(size) == Some((width as nat, height as nat)),
                None => self.changed(size) is None,
            },
    {
        match size {
            None => None,
            Some((w, h)) => {
                let width: u32 = to_unsigned(w);
                let height: u32 = to_unsigned(h);
                if width == 0 || height == 0 || (width == self.width && height == self.height) {
                    None
                } else {
                    Some((width, height))
                }
            },
        }
    }

    /// Picks the texture of a tick. `arrived` tells whether a picture came.
    ///
    /// None comes while nothing moves on the screen. To keep a constant pace the
    /// previous one is then copied. Gives nothing as long as none ever came.
    pub fn next_texture(&mut self, index: u64, arrived: bool) -> (r: Option<TexturePlan>)
        ensures
            final(self).width == old(self).width,
            final(self).height == old(self).height,
            final(self).has_content == (old(self).has_content || arrived),
            match r {
                Some(plan) => {
                    &&& arrived || old(self).has_content
                    &&& plan.slot == slot_of(index as int)
                    &&& plan.slot < 8
                    &&& plan.source matches TextureSource::Texture(from) ==> {
                        ||| plan.slot > 0 && from == plan.slot - 1
                        ||| plan.slot == 0 && from == 7
                    }
                    &&& plan.fresh == arrived
                    &&& plan.source == (if arrived {
                        TextureSource::Frame
                    } else {
                        TextureSource::Texture(slot_of(index + 7) as usize)
                    })
                },
                None => !arrived && !old(self).has_content,
            },
    {
        let slot: usize = (index % TEXTURE_RING as u64) as usize;
        if arrived {
            self.has_content = true;
            Some(TexturePlan { slot, source: TextureSource::Frame, fresh: true })
        } else if self.has_content {
            let previous: usize = (slot + TEXTURE_RING - 1) % TEXTURE_RING;
            proof {
                assert(TEXTURE_RING == 8);
                assert(slot == index % 8);
                assert((index % 8 + 7) % 8 == (index + 7) % 8);
                assert(previous == slot_of(index + 7));
            }
            Some(TexturePlan { slot, source: TextureSource::Texture(previous), fresh: false })
        } else {
            None
        }
    }
}

/// The textures after a tick, given the picture that arrived with it, if any,
/// and whether one had arrived before.
pub open spec fn textures_after<P>(
    textures: Seq<P>,
    index: int,
    has_content: bool,
    arrived: Option<P>,
) -> Seq<P> {
    match arrived {
        Some(picture) => textures.update(slot_of(index), picture),
        None => if has_content {
            textures.update(slot_of(index), textures[slot_of(index + 7)])
        } else {
            textures
        },
    }
}

/// The textures after ticks `0`, `1`, ... with the given arrivals.
pub open spec fn textures_over<P>(textures: Seq<P>, arrivals: Seq<Option<P>>) -> Seq<P>
    decreases arrivals.len(),
{
    if arrivals.len() == 0 {
        textures
    } else {
        let before = arrivals.drop_last();
        textures_after(
            textures_over(textures, before),
            before.len() as int,
            latest(before) is Some,
            arrivals.last(),
        )
    }
}

/// The last picture that arrived.
pub open spec fn latest<P>(arrivals: Seq<Option<P>>) -> Option<P>
    decreases arrivals.len(),
{
    if arrivals.len() == 0 {
        None
    } else if arrivals.last() is Some {
        arrivals.last()
    } else {
        latest(arrivals.drop_last())
    }
}

/// What the encoder is given at a tick is the last picture that arrived, however
/// long the screen has been still.
pub proof fn repeated_picture_is_the_latest<P>(textures: Seq<P>, arrivals: Seq<Option<P>>)
    requires
        textures.len() == TEXTURE_RING,
        latest(arrivals) is Some,
    ensures
        textures_over(textures, arrivals).len() == TEXTURE_RING,
        textures_over(textures, arrivals)[slot_of(arrivals.len() - 1)] == latest(arrivals)->0,
    decreases arrivals.len(),
{
    let before = arrivals.drop_last();
    keeps_size(textures, before);
    if arrivals.last() is None {
        repeated_picture_is_the_latest(textures, before);
        assert(slot_of(arrivals.len() - 1 + 7) == slot_of(before.len() - 1)) by {
            assert(arrivals.len() - 1 + 7 == before.len() - 1 + 8);
        }
    }
}

proof fn keeps_size<P>(textures: Seq<P>, arrivals: Seq<Option<P>>)
    requires
        textures.len() == TEXTURE_RING,
    ensures
        textures_over(textures, arrivals).len() == textures.len(),
    decreases arrivals.len(),
{
    if arrivals.len() > 0 {
        keeps_size(textures, arrivals.drop_last());
    }
}

/// The textures are taken in turn, all eight of them, before one is taken again: a
/// picture in flight stays untouched for as many ticks.
pub proof fn textures_are_taken_in_turn(index: int, other: int)
    requires
        0 <= index,
        index <= other,
    ensures
        slot_of(0) == 0,
        0 <= slot_of(index) < 8,
        slot_of(index) < 7 ==> slot_of(index + 1) == slot_of(index) + 1,
        slot_of(index) == 7 ==> slot_of(index + 1) == 0,
        slot_of(index + 8) == slot_of(index),
        index < other < index + 8 ==> slot_of(index) != slot_of(other),
{
}

/// A change is a size that can be read, is not empty, and differs from that of the
/// capture, whichever side differs. The numbers are read as unsigned ones: `width`
/// and `height` are those with the bits of `w` and `h`.
pub proof fn only_another_size_is_a_change(capture: Capture, w: i32, h: i32, width: u32, height: u32)
    requires
        width == w || width == w + 0x1_0000_0000,
        height == h || height == h + 0x1_0000_0000,
    ensures
        capture.changed(None) is None,
        width == 0 || height == 0 ==> capture.changed(Some((w, h))) is None,
        width > 0 && height > 0 && (width != capture.width || height != capture.height)
            ==> capture.changed(Some((w, h))) == Some((width as nat, height as nat)),
        width == capture.width && height == capture.height ==> capture.changed(
            Some((w, h)),
        ) is None,
{
}

/// The latest picture changes with each arrival, and only then.
pub proof fn arrivals_replace_the_latest<P>(arrivals: Seq<Option<P>>, next: Option<P>)
    ensures
        latest(Seq::<Option<P>>::empty()) is None,
        next is Some ==> latest(arrivals.push(next)) == next,
        next is None ==> latest(arrivals.push(next)) == latest(arrivals),
{
    assert(arrivals.push(next).drop_last() =~= arrivals);
}

} // verus!
