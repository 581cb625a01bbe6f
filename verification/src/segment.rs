//! Segments of the permanent buffer and the bounded ring that holds them.
//!
//! The buffer is a sequence of small self-contained files rather than one big
//! file: purging means erasing the oldest, saving means joining the recent ones
//! without encoding anything again.
use crate::clock::HNS_PER_SEC;
use crate::layout::{self, StreamDecl};
use crate::path;
use crate::text;
use crate::{CHANNELS, frames_to_hns};
use vstd::prelude::*;

verus! {

/// The number in the name of a segment file, `segNNNNNN.mp4`.
pub open spec fn sequence_of(path: Seq<char>) -> Option<nat> {
    match path::stem_of(path) {
        Some(stem) => if seq!['s', 'e', 'g'].is_prefix_of(stem) {
            text::unsigned(stem.skip(3), u64::MAX as nat)
        } else {
            None
        },
        None => None,
    }
}

/// The path of the segment file with a given number.
pub open spec fn numbered(workdir: Seq<char>, number: nat) -> Seq<char> {
    path::joined(
        workdir,
        seq!['s', 'e', 'g'] + text::padded(number, 6) + seq!['.', 'm', 'p', '4'],
    )
}

/// Reads the number of a segment file out of its path.
pub fn sequence(path: &str) -> (r: Option<u64>)
    ensures
        match r {
            Some(n) => sequence_of(path@) == Some(n as nat),
            None => sequence_of(path@) is None,
        },
{
    proof {
        reveal_strlit("seg");
        assert("seg"@ =~= seq!['s', 'e', 'g']);
    }
    match path::file_stem(path) {
        Some(stem) => {
            if text::starts_with(stem.as_str(), "seg") {
                let n: usize = stem.as_str().unicode_len();
                let digits = stem.as_str().substring_char(3, n);
                proof {
                    assert(digits@ =~= stem@.skip(3));
                }
                text::parse_unsigned(digits, u64::MAX)
            } else {
                None
            }
        },
        None => None,
    }
}

/// Writes the path of the segment file with a given number.
pub fn segment_path(workdir: &str, number: u64) -> (r: String)
    ensures
        r@ == numbered(workdir@, number as nat),
{
    let mut name = "seg".to_owned();
    name.append(text::padded_text(number, 6).as_str());
    name.append(".mp4");
    proof {
        reveal_strlit("seg");
        reveal_strlit(".mp4");
        assert("seg"@ =~= seq!['s', 'e', 'g']);
        assert(".mp4"@ =~= seq!['.', 'm', 'p', '4']);
    }
    path::join(workdir, name.as_str())
}

/// A closed segment on disk.
#[derive(Debug)]
pub struct SegmentInfo {
    pub path: String,
    pub bytes: u64,
    pub duration_hns: i64,
}

impl Clone for SegmentInfo {
    fn clone(&self) -> (r: Self)
        ensures
            r.path@ == self.path@,
            r.bytes == self.bytes,
            r.duration_hns == self.duration_hns,
    {
        SegmentInfo {
            path: self.path.clone(),
            bytes: self.bytes,
            duration_hns: self.duration_hns,
        }
    }
}

/// The length of a sequence of segments, end to end.
pub open spec fn total_duration(s: Seq<SegmentInfo>) -> int
    decreases s.len(),
{
    if s.len() == 0 {
        0
    } else {
        total_duration(s.drop_last()) + s.last().duration_hns
    }
}

/// The size of a sequence of segments.
pub open spec fn total_bytes(s: Seq<SegmentInfo>) -> int
    decreases s.len(),
{
    if s.len() == 0 {
        0
    } else {
        total_bytes(s.drop_last()) + s.last().bytes
    }
}

/// Whether a sequence of segments exceeds one of two bounds.
pub open spec fn over_budget(s: Seq<SegmentInfo>, max_duration: int, max_bytes: int) -> bool {
    total_duration(s) > max_duration || total_bytes(s) > max_bytes
}

/// What is left when the oldest segments go as long as a bound is exceeded,
/// except that one segment always stays.
pub open spec fn retained(s: Seq<SegmentInfo>, max_duration: int, max_bytes: int) -> Seq<SegmentInfo>
    decreases s.len(),
{
    if s.len() > 1 && over_budget(s, max_duration, max_bytes) {
        retained(s.skip(1), max_duration, max_bytes)
    } else {
        s
    }
}

/// Whether the lengths and sizes of segments can be added up.
pub open spec fn summable(s: Seq<SegmentInfo>) -> bool {
    &&& forall|i: int| 0 <= i < s.len() ==> (#[trigger] s[i]).duration_hns >= 0
    &&& total_duration(s) <= i64::MAX
    &&& total_bytes(s) <= u64::MAX
}

proof fn totals_from_front(s: Seq<SegmentInfo>)
    requires
        s.len() > 0,
    ensures
        total_duration(s) == s[0].duration_hns + total_duration(s.skip(1)),
        total_bytes(s) == s[0].bytes + total_bytes(s.skip(1)),
    decreases s.len(),
{
    if s.len() == 1 {
        assert(s.drop_last() =~= Seq::<SegmentInfo>::empty());
        assert(s.skip(1) =~= Seq::<SegmentInfo>::empty());
    } else {
        totals_from_front(s.drop_last());
        assert(s.drop_last().skip(1) =~= s.skip(1).drop_last());
        assert(s.skip(1).last() == s.last());
    }
}

proof fn totals_are_monotone(s: Seq<SegmentInfo>, n: int)
    requires
        0 <= n <= s.len(),
        forall|i: int| 0 <= i < s.len() ==> (#[trigger] s[i]).duration_hns >= 0,
    ensures
        0 <= total_duration(s.take(n)) <= total_duration(s),
        0 <= total_bytes(s.take(n)) <= total_bytes(s),
    decreases s.len(),
{
    if n < s.len() {
        totals_are_monotone(s.drop_last(), n);
        assert(s.drop_last().take(n) =~= s.take(n));
    } else if n > 0 {
        totals_are_monotone(s.drop_last(), n - 1);
        assert(s.take(n) =~= s);
        assert(s.drop_last().take(n - 1) =~= s.drop_last());
    } else {
        assert(s.take(n) =~= s);
    }
}

fn sum_durations(segments: &Vec<SegmentInfo>) -> (r: i64)
    requires
        summable(segments@),
    ensures
        r == total_duration(segments@),
        r >= 0,
{
    proof {
        totals_are_monotone(segments@, 0);
        assert(segments@.take(0) =~= Seq::<SegmentInfo>::empty());
    }
    let mut total: i64 = 0;
    for i in 0..segments.len()
        invariant
            summable(segments@),
            total == total_duration(segments@.take(i as int)),
    {
        proof {
            totals_are_monotone(segments@, i + 1);
            assert(segments@.take(i + 1).drop_last() =~= segments@.take(i as int));
        }
        total = total + segments[i].duration_hns;
    }
    proof {
        assert(segments@.take(segments@.len() as int) =~= segments@);
    }
    total
}

fn sum_bytes(segments: &Vec<SegmentInfo>) -> (r: u64)
    requires
        summable(segments@),
    ensures
        r == total_bytes(segments@),
{
    proof {
        assert(segments@.take(0) =~= Seq::<SegmentInfo>::empty());
    }
    let mut total: u64 = 0;
    for i in 0..segments.len()
        invariant
            summable(segments@),
            total == total_bytes(segments@.take(i as int)),
    {
        proof {
            totals_are_monotone(segments@, i + 1);
            assert(segments@.take(i + 1).drop_last() =~= segments@.take(i as int));
        }
        total = total + segments[i].bytes;
    }
    proof {
        assert(segments@.take(segments@.len() as int) =~= segments@);
    }
    total
}

/// The segments that hold something.
pub open spec fn with_content(s: Seq<SegmentInfo>) -> Seq<SegmentInfo>
    decreases s.len(),
{
    if s.len() == 0 {
        Seq::empty()
    } else if s.last().bytes > 0 {
        with_content(s.drop_last()).push(s.last())
    } else {
        with_content(s.drop_last())
    }
}

/// What a ring holds after segments were added one after the other.
pub open spec fn absorbed(
    s: Seq<SegmentInfo>,
    segments: Seq<SegmentInfo>,
    max_duration: int,
    max_bytes: int,
) -> Seq<SegmentInfo>
    decreases segments.len(),
{
    if segments.len() == 0 {
        s
    } else {
        let before = absorbed(s, segments.drop_last(), max_duration, max_bytes);
        if segments.last().bytes == 0 {
            before
        } else {
            retained(before.push(segments.last()), max_duration, max_bytes)
        }
    }
}

proof fn retained_is_smaller(s: Seq<SegmentInfo>, max_duration: int, max_bytes: int)
    requires
        forall|i: int| 0 <= i < s.len() ==> (#[trigger] s[i]).duration_hns >= 0,
    ensures
        total_duration(retained(s, max_duration, max_bytes)) <= total_duration(s),
        total_bytes(retained(s, max_duration, max_bytes)) <= total_bytes(s),
    decreases s.len(),
{
    if s.len() > 1 && over_budget(s, max_duration, max_bytes) {
        totals_from_front(s);
        retained_is_smaller(s.skip(1), max_duration, max_bytes);
    }
}

/// The segment added last, where it holds something, is kept: a purge never
/// takes the most recent content.
pub proof fn last_is_kept(
    s: Seq<SegmentInfo>,
    added: Seq<SegmentInfo>,
    max_duration: int,
    max_bytes: int,
)
    requires
        added.len() > 0,
        added.last().bytes > 0,
    ensures
        absorbed(s, added, max_duration, max_bytes).len() > 0,
        absorbed(s, added, max_duration, max_bytes).last() == added.last(),
{
    let before = absorbed(s, added.drop_last(), max_duration, max_bytes);
    purge_keeps_all_it_can(before.push(added.last()), max_duration, max_bytes);
}

/// The paths, in order, whose segment number is below `oldest`; none where
/// there is no such bound.
pub open spec fn stale(paths: Seq<Seq<char>>, oldest: Option<nat>) -> Seq<Seq<char>>
    decreases paths.len(),
{
    if paths.len() == 0 {
        Seq::empty()
    } else {
        let rest = stale(paths.drop_last(), oldest);
        match (sequence_of(paths.last()), oldest) {
            (Some(number), Some(bound)) => if number < bound {
                rest.push(paths.last())
            } else {
                rest
            },
            _ => rest,
        }
    }
}

proof fn nothing_is_stale(paths: Seq<Seq<char>>)
    ensures
        stale(paths, None) == Seq::<Seq<char>>::empty(),
    decreases paths.len(),
{
    if paths.len() > 0 {
        nothing_is_stale(paths.drop_last());
    }
}

/// A ring bounded both in duration and in bytes.
///
/// The second bound is no matter of principle: hardware encoders ignore the
/// bit rate they are given, so a duration alone bounds nothing on disk.
pub struct SegmentRing {
    segments: Vec<SegmentInfo>,
    max_duration_hns: i64,
    max_bytes: u64,
}

impl View for SegmentRing {
    type V = Seq<SegmentInfo>;

    closed spec fn view(&self) -> Seq<SegmentInfo> {
        self.segments@
    }
}

impl SegmentRing {
    #[verifier::type_invariant]
    spec fn well_formed(self) -> bool {
        summable(self.segments@)
    }

    pub closed spec fn duration_bound(self) -> int {
        self.max_duration_hns as int
    }

    pub closed spec fn bytes_bound(self) -> int {
        self.max_bytes as int
    }

    /// Both bounds hold, unless a single segment exceeds them by itself.
    pub open spec fn bounded(self) -> bool {
        self@.len() <= 1 || {
            &&& total_duration(self@) <= self.duration_bound()
            &&& total_bytes(self@) <= self.bytes_bound()
        }
    }

    pub fn new(max_duration_hns: i64, max_bytes: u64) -> (r: Self)
        ensures
            r@ == Seq::<SegmentInfo>::empty(),
            r.duration_bound() == max_duration_hns,
            r.bytes_bound() == max_bytes,
            r.bounded(),
    {
        SegmentRing { segments: Vec::new(), max_duration_hns, max_bytes }
    }

    /// Total length of the segments.
    pub fn duration_hns(&self) -> (r: i64)
        ensures
            r == total_duration(self@),
            r >= 0,
    {
        proof {
            use_type_invariant(self);
        }
        sum_durations(&self.segments)
    }

    /// Total size of the segments.
    pub fn bytes(&self) -> (r: u64)
        ensures
            r == total_bytes(self@),
    {
        proof {
            use_type_invariant(self);
        }
        sum_bytes(&self.segments)
    }

    /// The segments, oldest first.
    pub fn segments(&self) -> (r: &[SegmentInfo])
        ensures
            r@ == self@,
    {
        self.segments.as_slice()
    }

    /// Adds a segment and takes out the oldest ones as long as a bound is
    /// exceeded. One segment always stays: a bound that is too tight must not
    /// leave the buffer empty. A segment without content brings nothing and is
    /// dropped.
    ///
    /// Returns the segments that left, oldest first; their files are to be
    /// erased.
    pub fn push(&mut self, segment: SegmentInfo) -> (purged: Vec<SegmentInfo>)
        requires
            segment.duration_hns >= 0,
            total_duration(old(self)@) + segment.duration_hns <= i64::MAX,
            total_bytes(old(self)@) + segment.bytes <= u64::MAX,
        ensures
            final(self).duration_bound() == old(self).duration_bound(),
            final(self).bytes_bound() == old(self).bytes_bound(),
            segment.bytes == 0 ==> final(self)@ == old(self)@ && purged@.len() == 0,
            segment.bytes > 0 ==> {
                &&& final(self)@ == retained(
                    old(self)@.push(segment),
                    old(self).duration_bound(),
                    old(self).bytes_bound(),
                )
                &&& purged@ + final(self)@ == old(self)@.push(segment)
                &&& final(self).bounded()
                &&& final(self)@.len() > 0
                &&& final(self)@.last() == segment
                &&& purged@.len() > 0 ==> {
                    let longer = seq![purged@.last()] + final(self)@;
                    ||| total_duration(longer) > final(self).duration_bound()
                    ||| total_bytes(longer) > final(self).bytes_bound()
                }
                &&& {
                    &&& total_duration(old(self)@.push(segment)) <= old(self).duration_bound()
                    &&& total_bytes(old(self)@.push(segment)) <= old(self).bytes_bound()
                } ==> purged@.len() == 0 && final(self)@ == old(self)@.push(segment)
            },
    {
        let mut purged: Vec<SegmentInfo> = Vec::new();
        if segment.bytes == 0 {
            return purged;
        }
        proof {
            use_type_invariant(&*self);
        }
        let ghost all = self.segments@.push(segment);
        let ghost (longest, largest) = (self.duration_bound(), self.bytes_bound());
        proof {
            assert(all.drop_last() =~= self.segments@);
        }
        let mut kept: Vec<SegmentInfo> = Vec::new();
        std::mem::swap(&mut kept, &mut self.segments);
        kept.push(segment);
        proof {
            assert(purged@ + kept@ =~= all);
        }
        while kept.len() > 1 && (sum_durations(&kept) > self.max_duration_hns || sum_bytes(&kept)
            > self.max_bytes)
            invariant
                self.duration_bound() == longest,
                self.bytes_bound() == largest,
                summable(kept@),
                purged@ + kept@ == all,
                kept@.len() > 0,
                kept@.last() == segment,
                retained(all, longest, largest) == retained(kept@, longest, largest),
                purged@.len() > 0 ==> {
                    let longer = seq![purged@.last()] + kept@;
                    total_duration(longer) > longest || total_bytes(longer) > largest
                },
                total_duration(all) <= longest && total_bytes(all) <= largest ==> purged@.len()
                    == 0,
            decreases kept.len(),
        {
            let ghost before = kept@;
            let ghost gone = purged@;
            proof {
                totals_from_front(before);
            }
            let oldest = kept.remove(0);
            purged.push(oldest);
            proof {
                assert(kept@ =~= before.skip(1));
                assert(purged@ + kept@ =~= all);
                assert(seq![purged@.last()] + kept@ =~= before);
                assert(gone.len() == 0 ==> before =~= all);
            }
        }
        self.segments = kept;
        proof {
            assert(purged@.len() == 0 ==> kept@ =~= all);
        }
        purged
    }

    /// Adds segments one after the other. Returns those that left; their files
    /// are to be erased.
    pub fn push_all(&mut self, segments: Vec<SegmentInfo>) -> (purged: Vec<SegmentInfo>)
        requires
            forall|i: int| 0 <= i < segments@.len() ==> (#[trigger] segments@[i]).duration_hns >= 0,
            total_duration(old(self)@) + total_duration(segments@) <= i64::MAX,
            total_bytes(old(self)@) + total_bytes(segments@) <= u64::MAX,
        ensures
            final(self).duration_bound() == old(self).duration_bound(),
            final(self).bytes_bound() == old(self).bytes_bound(),
            final(self)@ == absorbed(
                old(self)@,
                segments@,
                old(self).duration_bound(),
                old(self).bytes_bound(),
            ),
            old(self).bounded() ==> final(self).bounded(),
            purged@ + final(self)@ == old(self)@ + with_content(segments@),
            total_duration(final(self)@) <= total_duration(old(self)@) + total_duration(segments@),
            total_bytes(final(self)@) <= total_bytes(old(self)@) + total_bytes(segments@),
    {
        let ghost all = segments@;
        let ghost before = self@;
        let ghost start = *self;
        let mut left = segments;
        let mut purged: Vec<SegmentInfo> = Vec::new();
        let ghost mut done: int = 0;
        proof {
            assert(all.take(0) =~= Seq::empty());
            assert(all.skip(0) =~= all);
            assert(purged@ + self@ =~= before + with_content(all.take(0)));
            use_type_invariant(&*self);
        }
        while left.len() > 0
            invariant
                0 <= done <= all.len(),
                left@ == all.skip(done),
                forall|i: int| 0 <= i < all.len() ==> (#[trigger] all[i]).duration_hns >= 0,
                total_duration(before) + total_duration(all) <= i64::MAX,
                total_bytes(before) + total_bytes(all) <= u64::MAX,
                self.duration_bound() == start.duration_bound(),
                self.bytes_bound() == start.bytes_bound(),
                before == start@,
                start.bounded() ==> self.bounded(),
                self@ == absorbed(
                    before,
                    all.take(done),
                    start.duration_bound(),
                    start.bytes_bound(),
                ),
                purged@ + self@ == before + with_content(all.take(done)),
                total_duration(self@) <= total_duration(before) + total_duration(all.take(done)),
                total_bytes(self@) <= total_bytes(before) + total_bytes(all.take(done)),
            decreases left.len(),
        {
            let segment = left.remove(0);
            let ghost held = self@;
            let ghost gone = purged@;
            proof {
                use_type_invariant(&*self);
                assert(segment == all[done]);
                assert(left@ =~= all.skip(done + 1));
                assert(all.take(done + 1).drop_last() =~= all.take(done));
                totals_are_monotone(all, done + 1);
            }
            let ghost added = segment;
            let mut left_now = self.push(segment);
            proof {
                if added.bytes > 0 {
                    assert(held.push(added).drop_last() =~= held);
                    retained_is_smaller(
                        held.push(added),
                        start.duration_bound(),
                        start.bytes_bound(),
                    );
                    assert((gone + left_now@) + self@ =~= gone + (left_now@ + self@));
                    assert(gone + held.push(added) =~= (gone + held).push(added));
                } else {
                    assert(gone + left_now@ =~= gone);
                }
                done = done + 1;
            }
            purged.append(&mut left_now);
        }
        proof {
            assert(all.take(done) =~= all);
        }
        purged
    }

    /// The number of the oldest segment that is kept, where there is one and
    /// its name carries one.
    pub open spec fn oldest(self) -> Option<nat> {
        if self@.len() > 0 {
            sequence_of(self@[0].path@)
        } else {
            None
        }
    }

    /// Picks the files of the working directory that no longer belong to the
    /// ring; they are to be erased.
    ///
    /// A segment enters the ring only if it was closed and its description came
    /// back. Whatever misses that path would stay on disk for ever. Only files
    /// older than the oldest kept segment are picked: the one being written and
    /// the one opened ahead have higher numbers.
    pub fn sweep(&self, entries: &Vec<String>) -> (r: Vec<String>)
        ensures
            text::texts(r@) == stale(text::texts(entries@), self.oldest()),
            text::texts(r@) == stale(
                text::texts(entries@),
                if self@.len() > 0 {
                    sequence_of(self@[0].path@)
                } else {
                    None
                },
            ),
    {
        let mut r: Vec<String> = Vec::new();
        proof {
            assert(text::texts(r@) =~= Seq::<Seq<char>>::empty());
            assert(text::texts(entries@).take(0) =~= Seq::<Seq<char>>::empty());
        }
        if self.segments.len() == 0 {
            proof {
                nothing_is_stale(text::texts(entries@));
            }
            return r;
        }
        let oldest: u64 = match sequence(self.segments[0].path.as_str()) {
            Some(n) => n,
            None => {
                proof {
                    nothing_is_stale(text::texts(entries@));
                }
                return r;
            },
        };
        for i in 0..entries.len()
            invariant
                self.oldest() == Some(oldest as nat),
                text::texts(r@) == stale(text::texts(entries@).take(i as int), self.oldest()),
        {
            let ghost names = text::texts(entries@);
            proof {
                assert(names.take(i + 1).drop_last() =~= names.take(i as int));
            }
            if let Some(number) = sequence(entries[i].as_str()) {
                if number < oldest {
                    let ghost before = r@;
                    r.push(entries[i].clone());
                    proof {
                        assert(text::texts(r@) =~= text::texts(before).push(entries@[i as int]@));
                    }
                }
            }
        }
        proof {
            assert(text::texts(entries@).take(entries@.len() as int) =~= text::texts(entries@));
        }
        r
    }

    /// Empties the ring. Returns the segments it held; their files are to be
    /// erased.
    pub fn clear(&mut self) -> (dropped: Vec<SegmentInfo>)
        ensures
            final(self)@ == Seq::<SegmentInfo>::empty(),
            dropped@ == old(self)@,
            final(self).duration_bound() == old(self).duration_bound(),
            final(self).bytes_bound() == old(self).bytes_bound(),
            final(self).bounded(),
    {
        let mut dropped: Vec<SegmentInfo> = Vec::new();
        std::mem::swap(&mut dropped, &mut self.segments);
        dropped
    }
}

/// Makes segments: keeps what stays the same from one to the next.
#[derive(Debug, Clone, Copy)]
pub struct SegmentFactory {
    pub width: u32,
    pub height: u32,
    pub fps: u32,
    pub bitrate: u32,
    pub audio_tracks: usize,
}

impl SegmentFactory {
    pub fn new(width: u32, height: u32, fps: u32, bitrate: u32, audio_tracks: usize) -> (r: Self)
        ensures
            r == (SegmentFactory { width, height, fps, bitrate, audio_tracks }),
    {
        SegmentFactory { width, height, fps, bitrate, audio_tracks }
    }

    /// The streams of every segment that this factory makes.
    pub open spec fn layout(self) -> Seq<StreamDecl> {
        layout::segment_streams(
            self.width,
            self.height,
            self.fps,
            self.bitrate,
            self.audio_tracks as nat,
        )
    }

    /// Lists the streams to declare, in order, before anything is written.
    pub fn streams(&self) -> (r: Vec<StreamDecl>)
        ensures
            r@ == self.layout(),
            r@ == layout::segment_streams(
                self.width,
                self.height,
                self.fps,
                self.bitrate,
                self.audio_tracks as nat,
            ),
    {
        let mut r: Vec<StreamDecl> = Vec::new();
        r.push(
            StreamDecl::Video(
                layout::video_stream(self.width, self.height, self.fps, self.bitrate),
            ),
        );
        let ghost first = r@;
        for i in 0..self.audio_tracks
            invariant
                first.len() == 1,
                r@ == first + Seq::new(i as nat, |j: int| StreamDecl::Audio(layout::audio_decl())),
        {
            r.push(StreamDecl::Audio(layout::audio_stream()));
            proof {
                assert(r@ =~= first + Seq::new(i as nat + 1, |j: int| StreamDecl::Audio(layout::audio_decl())));
            }
        }
        r
    }

    /// Opens a segment, given the indices that the writer gave to the declared
    /// streams.
    pub fn open(&self, path: String, indices: &Vec<u32>) -> (r: Segment)
        requires
            indices@.len() == self.layout().len(),
        ensures
            r.file() == path@,
            r.video_index() == indices@[0],
            r.audio_indices() == indices@.skip(1),
            r.end() == 0,
            !r.has_content(),
            r.frames().len() == r.audio_indices().len(),
            forall|t: int| 0 <= t < r.frames().len() ==> #[trigger] r.frames()[t] == 0,
            r.is_fresh(),
    {
        let mut audio_streams: Vec<u32> = Vec::new();
        let mut audio_frames: Vec<u64> = Vec::new();
        for i in 1..indices.len()
            invariant
                indices@.len() >= 1,
                audio_streams@ == indices@.subrange(1, i as int),
                audio_frames@.len() == i - 1,
                forall|t: int| 0 <= t < i - 1 ==> audio_frames@[t] == 0,
        {
            audio_streams.push(indices[i]);
            audio_frames.push(0);
        }
        proof {
            assert(audio_streams@ =~= indices@.skip(1));
        }
        Segment {
            video_stream: indices[0],
            audio_streams,
            audio_frames,
            path,
            end_hns: 0,
            has_samples: false,
        }
    }
}

/// Where a block of sound goes: the stream, and its place on the timeline.
#[derive(Debug, Clone, Copy, PartialEq, Eq, Structural)]
pub struct AudioSpan {
    pub stream: u32,
    pub pts_hns: i64,
    pub duration_hns: i64,
}

/// A self-contained file whose times start over at zero.
pub struct Segment {
    video_stream: u32,
    audio_streams: Vec<u32>,
    /// Frames written so far, by track.
    audio_frames: Vec<u64>,
    path: String,
    /// End of the picture timeline, which alone gives the segment its length.
    end_hns: i64,
    /// Whether anything, picture or sound, was written. A segment can hold
    /// sound and no picture: a perfectly still screen delivers none.
    has_samples: bool,
}

impl Segment {
    #[verifier::type_invariant]
    spec fn well_formed(self) -> bool {
        &&& self.audio_streams@.len() == self.audio_frames@.len()
        &&& self.end_hns >= 0
    }

    pub closed spec fn file(self) -> Seq<char> {
        self.path@
    }

    pub closed spec fn video_index(self) -> u32 {
        self.video_stream
    }

    pub closed spec fn audio_indices(self) -> Seq<u32> {
        self.audio_streams@
    }

    /// Frames written so far, by track.
    pub closed spec fn frames(self) -> Seq<u64> {
        self.audio_frames@
    }

    /// End of the picture timeline.
    pub closed spec fn end(self) -> int {
        self.end_hns as int
    }

    pub closed spec fn has_content(self) -> bool {
        self.has_samples
    }

    /// A segment that nothing was written to yet.
    pub open spec fn is_fresh(self) -> bool {
        &&& self.end() == 0
        &&& !self.has_content()
        &&& self.frames().len() == self.audio_indices().len()
        &&& forall|t: int| 0 <= t < self.frames().len() ==> #[trigger] self.frames()[t] == 0
    }

    /// Index of the picture stream.
    pub fn video_stream(&self) -> (r: u32)
        ensures
            r == self.video_index(),
    {
        self.video_stream
    }

    /// Frames written to a track so far, none for a track that the file does not
    /// have.
    pub fn frames_written(&self, track: usize) -> (r: u64)
        ensures
            self.frames().len() == self.audio_indices().len(),
            r == (if track < self.audio_indices().len() {
                self.frames()[track as int]
            } else {
                0
            }),
    {
        proof {
            use_type_invariant(self);
        }
        if track < self.audio_frames.len() {
            self.audio_frames[track]
        } else {
            0
        }
    }

    /// Records a picture that the writer accepted.
    ///
    /// Only pictures define the length of the segment. A late packet of sound
    /// carries a distant position; counting it would open a hole in the picture
    /// of the next segment when they are joined.
    pub fn write_video(&mut self, pts_hns: i64, duration_hns: i64)
        requires
            i64::MIN <= pts_hns + duration_hns <= i64::MAX,
        ensures
            final(self).end() == (if pts_hns + duration_hns > old(self).end() {
                pts_hns + duration_hns
            } else {
                old(self).end()
            }),
            final(self).has_content(),
            final(self).file() == old(self).file(),
            final(self).video_index() == old(self).video_index(),
            final(self).audio_indices() == old(self).audio_indices(),
            final(self).frames() == old(self).frames(),
            took(*old(self), Write::Picture { pts_hns, duration_hns }, *final(self)),
    {
        proof {
            use_type_invariant(&*self);
        }
        let end: i64 = pts_hns + duration_hns;
        if end > self.end_hns {
            self.end_hns = end;
        }
        self.has_samples = true;
    }

    /// Places a block of interleaved samples at a given position of a track.
    /// A track that the file does not have takes nothing.
    pub fn audio_span(&self, track: usize, samples: usize, pts_hns: i64) -> (r: Option<AudioSpan>)
        requires
            (samples / 2) * HNS_PER_SEC <= i64::MAX,
        ensures
            r == (if track < self.audio_indices().len() {
                Some(
                    AudioSpan {
                        stream: self.audio_indices()[track as int],
                        pts_hns,
                        duration_hns: crate::frames_hns((samples / 2) as nat) as i64,
                    },
                )
            } else {
                None
            }),
    {
        if track >= self.audio_streams.len() {
            return None;
        }
        let frames: usize = samples / CHANNELS as usize;
        proof {
            assert(frames * HNS_PER_SEC / 48_000 <= frames * HNS_PER_SEC);
        }
        Some(
            AudioSpan {
                stream: self.audio_streams[track],
                pts_hns,
                duration_hns: frames_to_hns(frames as u64),
            },
        )
    }

    /// Places the next block of a track right behind what the track holds: its
    /// position follows from the number of frames written, not from a clock.
    pub fn next_audio_span(&self, track: usize, samples: usize) -> (r: Option<AudioSpan>)
        requires
            (samples / 2) * HNS_PER_SEC <= i64::MAX,
            track < self.audio_indices().len() ==> self.frames()[track as int] * HNS_PER_SEC
                <= i64::MAX,
        ensures
            r == (if track < self.audio_indices().len() {
                Some(
                    AudioSpan {
                        stream: self.audio_indices()[track as int],
                        pts_hns: crate::frames_hns(self.frames()[track as int] as nat) as i64,
                        duration_hns: crate::frames_hns((samples / 2) as nat) as i64,
                    },
                )
            } else {
                None
            }),
    {
        proof {
            use_type_invariant(self);
        }
        if track >= self.audio_streams.len() {
            return None;
        }
        let pts: i64 = frames_to_hns(self.audio_frames[track]);
        self.audio_span(track, samples, pts)
    }

    /// Records a block of interleaved samples that the writer accepted. It does
    /// not move the end of the segment, but makes the segment one to finalize.
    pub fn write_audio(&mut self, track: usize, samples: usize)
        requires
            track < old(self).audio_indices().len() ==> old(self).frames()[track as int] + samples
                / 2 <= u64::MAX,
        ensures
            final(self).end() == old(self).end(),
            final(self).file() == old(self).file(),
            final(self).video_index() == old(self).video_index(),
            final(self).audio_indices() == old(self).audio_indices(),
            track < old(self).audio_indices().len() ==> final(self).has_content()
                && final(self).frames() == old(self).frames().update(
                track as int,
                (old(self).frames()[track as int] + samples / 2) as u64,
            ),
            track >= old(self).audio_indices().len() ==> *final(self) == *old(self),
            old(self).frames().len() == old(self).audio_indices().len(),
            took(*old(self), Write::Sound { track, samples }, *final(self)),
    {
        proof {
            use_type_invariant(&*self);
        }
        if track < self.audio_streams.len() {
            let frames: u64 = self.audio_frames[track] + (samples / CHANNELS as usize) as u64;
            self.audio_frames[track] = frames;
            self.has_samples = true;
        }
    }

    /// Whether the file is to be finalized. One that received nothing is not:
    /// finalizing it would fail, and the file is simply removed.
    pub fn to_finalize(&self) -> (r: bool)
        ensures
            r == self.has_content(),
    {
        self.has_samples
    }

    /// Describes the closed segment, whose file has the given size. A segment
    /// that received nothing has neither size nor length.
    pub fn close(self, bytes: u64) -> (r: SegmentInfo)
        ensures
            r.path@ == self.file(),
            r.bytes == (if self.has_content() {
                bytes
            } else {
                0
            }),
            r.duration_hns == (if self.has_content() {
                self.end()
            } else {
                0
            }),
            r.duration_hns >= 0,
            closes(self, bytes, r),
    {
        proof {
            use_type_invariant(&self);
        }
        if !self.has_samples {
            return SegmentInfo { path: self.path, bytes: 0, duration_hns: 0 };
        }
        SegmentInfo { path: self.path, bytes, duration_hns: self.end_hns }
    }
}

/// Something that a writer accepted.
pub enum Write {
    Picture { pts_hns: i64, duration_hns: i64 },
    /// A block of interleaved samples.
    Sound { track: usize, samples: usize },
}

/// Whether a segment is what another one became by a write. Pictures alone move
/// its end; sound on a track that it has gives it content too.
pub open spec fn took(before: Segment, write: Write, after: Segment) -> bool {
    &&& after.file() == before.file()
    &&& after.audio_indices() == before.audio_indices()
    &&& match write {
        Write::Picture { pts_hns, duration_hns } => {
            &&& after.has_content()
            &&& after.end() == (if pts_hns + duration_hns > before.end() {
                pts_hns + duration_hns
            } else {
                before.end()
            })
        },
        Write::Sound { track, .. } => {
            &&& after.has_content() == (before.has_content() || track
                < before.audio_indices().len())
            &&& after.end() == before.end()
        },
    }
}

/// Whether a closed segment is described as it is: by nothing where nothing was
/// written to it, else by the size of its file and the end of its pictures.
pub open spec fn closes(segment: Segment, bytes: u64, info: SegmentInfo) -> bool {
    &&& info.path@ == segment.file()
    &&& info.bytes == (if segment.has_content() {
        bytes
    } else {
        0
    })
    &&& info.duration_hns == (if segment.has_content() {
        segment.end()
    } else {
        0
    })
}

/// The largest end of the pictures among writes, zero where there is none above.
pub open spec fn picture_end(writes: Seq<Write>) -> int
    decreases writes.len(),
{
    if writes.len() == 0 {
        0
    } else {
        let before = picture_end(writes.drop_last());
        match writes.last() {
            Write::Picture { pts_hns, duration_hns } => if pts_hns + duration_hns > before {
                pts_hns + duration_hns
            } else {
                before
            },
            Write::Sound { .. } => before,
        }
    }
}

/// Whether a write goes to a stream of a segment with so many tracks.
pub open spec fn reaches(write: Write, tracks: nat) -> bool {
    match write {
        Write::Picture { .. } => true,
        Write::Sound { track, .. } => track < tracks,
    }
}

/// Whether any of the writes does.
pub open spec fn any_reaches(writes: Seq<Write>, tracks: nat) -> bool {
    exists|i: int| 0 <= i < writes.len() && reaches(#[trigger] writes[i], tracks)
}

proof fn writes_add_up(states: Seq<Segment>, writes: Seq<Write>)
    requires
        states.len() == writes.len() + 1,
        states[0].is_fresh(),
        forall|i: int|
            0 <= i < writes.len() ==> took(states[i], #[trigger] writes[i], states[i + 1]),
    ensures
        states.last().file() == states[0].file(),
        states.last().audio_indices() == states[0].audio_indices(),
        states.last().end() == picture_end(writes),
        states.last().has_content() == any_reaches(writes, states[0].audio_indices().len()),
    decreases writes.len(),
{
    if writes.len() > 0 {
        let before = writes.drop_last();
        let earlier = states.drop_last();
        assert forall|i: int| 0 <= i < before.len() implies took(
            earlier[i],
            #[trigger] before[i],
            earlier[i + 1],
        ) by {
            assert(took(states[i], writes[i], states[i + 1]));
        }
        writes_add_up(earlier, before);
        let last = writes.len() - 1;
        assert(took(states[last], writes[last], states[last + 1]));
        let tracks = states[0].audio_indices().len();
        if any_reaches(before, tracks) {
            let i = choose|i: int| 0 <= i < before.len() && reaches(#[trigger] before[i], tracks);
            assert(reaches(writes[i], tracks));
        }
        if any_reaches(writes, tracks) && !reaches(writes[last], tracks) {
            let i = choose|i: int| 0 <= i < writes.len() && reaches(#[trigger] writes[i], tracks);
            assert(reaches(before[i], tracks));
        }
    }
}

proof fn no_picture_ends_later(writes: Seq<Write>)
    ensures
        picture_end(writes) >= 0,
        forall|i: int|
            0 <= i < writes.len() ==> (#[trigger] writes[i] matches Write::Picture {
                pts_hns,
                duration_hns,
            } ==> pts_hns + duration_hns <= picture_end(writes)),
        picture_end(writes) == 0 || exists|i: int|
            0 <= i < writes.len() && (#[trigger] writes[i] matches Write::Picture {
                pts_hns,
                duration_hns,
            } && pts_hns + duration_hns == picture_end(writes)),
    decreases writes.len(),
{
    if writes.len() > 0 {
        let before = writes.drop_last();
        no_picture_ends_later(before);
        assert forall|i: int| 0 <= i < writes.len() implies (#[trigger] writes[i] matches Write::Picture {
            pts_hns,
            duration_hns,
        } ==> pts_hns + duration_hns <= picture_end(writes)) by {
            if i < before.len() {
                assert(before[i] == writes[i]);
            }
        }
        if picture_end(writes) == picture_end(before) {
            if picture_end(before) != 0 {
                let i = choose|i: int|
                    0 <= i < before.len() && (#[trigger] before[i] matches Write::Picture {
                        pts_hns,
                        duration_hns,
                    } && pts_hns + duration_hns == picture_end(before));
                assert(writes[i] == before[i]);
            }
        } else {
            assert(writes[writes.len() - 1] == writes.last());
        }
    }
}

/// What a closed segment reports follows from what was written to it since it was
/// opened, in whatever order. Where no write reached it, it has neither size nor
/// length and its file is not one to finalize. Else it has the size of its file,
/// and its length is the largest end of its pictures, zero where there is none:
/// sound never changes the length, but is enough for the file to be kept.
pub proof fn closed_segments_report_their_pictures(
    states: Seq<Segment>,
    writes: Seq<Write>,
    bytes: u64,
    info: SegmentInfo,
)
    requires
        states.len() == writes.len() + 1,
        states[0].is_fresh(),
        forall|i: int|
            0 <= i < writes.len() ==> took(states[i], #[trigger] writes[i], states[i + 1]),
        closes(states.last(), bytes, info),
    ensures
        states.last().has_content() == any_reaches(writes, states[0].audio_indices().len()),
        info.path@ == states[0].file(),
        !states.last().has_content() ==> info.bytes == 0 && info.duration_hns == 0,
        states.last().has_content() ==> {
            &&& info.bytes == bytes
            &&& info.duration_hns == picture_end(writes)
        },
        picture_end(writes) >= 0,
        forall|i: int|
            0 <= i < writes.len() ==> (#[trigger] writes[i] matches Write::Picture {
                pts_hns,
                duration_hns,
            } ==> pts_hns + duration_hns <= picture_end(writes)),
        picture_end(writes) == 0 || exists|i: int|
            0 <= i < writes.len() && (#[trigger] writes[i] matches Write::Picture {
                pts_hns,
                duration_hns,
            } && pts_hns + duration_hns == picture_end(writes)),
{
    writes_add_up(states, writes);
    no_picture_ends_later(writes);
}

/// The blocks of a track follow each other without overlap, and without a gap
/// beyond the rounding of one unit of 100 ns.
pub proof fn blocks_are_contiguous(written: nat, block: nat)
    ensures
        crate::frames_hns(written) + crate::frames_hns(block) <= crate::frames_hns(written + block),
        crate::frames_hns(written + block) <= crate::frames_hns(written) + crate::frames_hns(block)
            + 1,
{
}

/// What a purge leaves is the longest run of recent segments that meets both
/// bounds, or the last segment where even that exceeds them: everything longer
/// is over budget.
pub proof fn purge_keeps_all_it_can(s: Seq<SegmentInfo>, max_duration: int, max_bytes: int)
    requires
        s.len() > 0,
    ensures
        ({
            let r = retained(s, max_duration, max_bytes);
            let gone = s.len() - r.len();
            &&& 0 < r.len() <= s.len()
            &&& r == s.skip(gone)
            &&& r.len() == 1 || (total_duration(r) <= max_duration && total_bytes(r) <= max_bytes)
            &&& forall|j: int|
                0 <= j < gone ==> total_duration(#[trigger] s.skip(j)) > max_duration
                    || total_bytes(s.skip(j)) > max_bytes
        }),
    decreases s.len(),
{
    assert(s.skip(0) =~= s);
    if s.len() > 1 && over_budget(s, max_duration, max_bytes) {
        purge_keeps_all_it_can(s.skip(1), max_duration, max_bytes);
        let r = retained(s, max_duration, max_bytes);
        let gone = s.len() - r.len();
        assert(s.skip(1).skip(gone - 1) =~= s.skip(gone));
        assert forall|j: int| 0 <= j < gone implies total_duration(
            #[trigger] s.skip(j),
        ) > max_duration || total_bytes(s.skip(j)) > max_bytes by {
            if j > 0 {
                assert(s.skip(1).skip(j - 1) =~= s.skip(j));
            }
        }
    }
}

proof fn padded_is_digits(n: nat, width: nat)
    ensures
        text::all_digits(text::padded(n, width)),
        text::padded(n, width).len() > 0,
{
    text::decimal_denotes(n);
    let d = text::decimal(n);
    if d.len() < width {
        text::zeros_denote_nothing((width - d.len()) as nat, d);
    }
}

/// The number of a segment file is read back from its path, in every working
/// directory. The one exception is a server without a share, where the name of the
/// file would be taken for that of the share.
pub proof fn segment_numbers_survive(workdir: Seq<char>, number: nat)
    requires
        number <= u64::MAX,
        path::prefix_len(numbered(workdir, number)) < numbered(workdir, number).len(),
    ensures
        sequence_of(numbered(workdir, number)) == Some(number),
{
    let digits = text::padded(number, 6);
    let stem = seq!['s', 'e', 'g'] + digits;
    let e = seq!['m', 'p', '4'];
    let name = stem + seq!['.', 'm', 'p', '4'];
    padded_is_digits(number, 6);
    text::reading_undoes_writing(number, 6, u64::MAX as nat);
    assert forall|i: int| 0 <= i < name.len() implies !path::is_separator(#[trigger] name[i])
        && name[i] != ':' by {
        if 3 <= i < stem.len() {
            assert(text::is_digit(digits[i - 3]));
        }
    }
    assert forall|i: int| 0 <= i < stem.len() implies #[trigger] name[i] != '.' by {
        if 3 <= i {
            assert(text::is_digit(digits[i - 3]));
        }
    }
    assert(name.last() == '4');
    assert(path::is_plain(name));
    path::joined_name(workdir, name);
    path::stem_before_dot(name, stem.len() as int);
    assert(name.take(stem.len() as int) =~= stem);
    assert(stem.skip(3) =~= digits);
    assert(stem.take(3) =~= seq!['s', 'e', 'g']);
    assert(seq!['s', 'e', 'g'].is_prefix_of(stem));
}

/// A sweep erases files that precede every kept segment, all of them, and
/// nothing else: whatever has the number of the oldest kept segment or a higher
/// one is spared.
pub proof fn sweep_spares_what_is_kept(paths: Seq<Seq<char>>, oldest: Option<nat>)
    ensures
        forall|p: Seq<char>|
            stale(paths, oldest).contains(p) <==> paths.contains(p) && oldest is Some
                && sequence_of(p) is Some && sequence_of(p)->0 < oldest->0,
    decreases paths.len(),
{
    let r = stale(paths, oldest);
    if paths.len() > 0 {
        let rest = stale(paths.drop_last(), oldest);
        sweep_spares_what_is_kept(paths.drop_last(), oldest);
        assert forall|p: Seq<char>|
            r.contains(p) <==> paths.contains(p) && oldest is Some && sequence_of(p) is Some
                && sequence_of(p)->0 < oldest->0 by {
            assert(paths =~= paths.drop_last().push(paths.last()));
            if paths.contains(p) {
                let i = choose|i: int| 0 <= i < paths.len() && paths[i] == p;
                if i < paths.len() - 1 {
                    assert(paths.drop_last()[i] == p);
                }
            }
            if paths.drop_last().contains(p) {
                let i = choose|i: int|
                    0 <= i < paths.drop_last().len() && paths.drop_last()[i] == p;
                assert(paths[i] == p);
            }
            assert(paths[paths.len() - 1] == paths.last());
            if rest.contains(p) {
                let i = choose|i: int| 0 <= i < rest.len() && rest[i] == p;
                assert(r[i] == p);
            }
            if r.contains(p) && r.len() > rest.len() {
                let i = choose|i: int| 0 <= i < r.len() && r[i] == p;
                if i < rest.len() {
                    assert(rest[i] == p);
                } else {
                    assert(p == paths.last());
                }
            }
            if r.len() > rest.len() {
                assert(r[r.len() - 1] == paths.last());
            }
        }
    }
}

proof fn longer_is_larger(s: Seq<SegmentInfo>, segment: SegmentInfo, max_duration: int, max_bytes: int)
    requires
        segment.duration_hns >= 0,
        over_budget(s, max_duration, max_bytes),
    ensures
        over_budget(s.push(segment), max_duration, max_bytes),
{
    assert(s.push(segment).drop_last() =~= s);
}

/// A save reaches back as far as the bounds allow, however the ring was filled:
/// the ring holds the last segments that came, without a gap, and with one more,
/// the one that left last, it would exceed a bound.
pub proof fn buffer_reaches_back(
    s: Seq<SegmentInfo>,
    added: Seq<SegmentInfo>,
    max_duration: int,
    max_bytes: int,
)
    requires
        forall|i: int| 0 <= i < added.len() ==> (#[trigger] added[i]).duration_hns >= 0,
    ensures
        ({
            let all = s + with_content(added);
            let kept = absorbed(s, added, max_duration, max_bytes);
            let gone = all.len() - kept.len();
            &&& gone >= 0
            &&& kept == all.skip(gone)
            &&& gone > 0 ==> total_duration(all.skip(gone - 1)) > max_duration || total_bytes(
                all.skip(gone - 1),
            ) > max_bytes
        }),
    decreases added.len(),
{
    let all = s + with_content(added);
    let kept = absorbed(s, added, max_duration, max_bytes);
    if added.len() == 0 {
        assert(all.skip(0) =~= s);
    } else {
        let earlier = added.drop_last();
        let segment = added.last();
        let past = s + with_content(earlier);
        let held = absorbed(s, earlier, max_duration, max_bytes);
        buffer_reaches_back(s, earlier, max_duration, max_bytes);
        assert(added[added.len() - 1] == segment);
        if segment.bytes > 0 {
            assert(all =~= past.push(segment));
            let pushed = held.push(segment);
            let lost = past.len() - held.len();
            assert(pushed =~= all.skip(lost));
            purge_keeps_all_it_can(pushed, max_duration, max_bytes);
            let gone_now = pushed.len() - kept.len();
            let gone = all.len() - kept.len();
            assert(gone == lost + gone_now);
            assert(pushed.skip(gone_now) =~= all.skip(gone));
            if gone_now > 0 {
                assert(pushed.skip(gone_now - 1) =~= all.skip(gone - 1));
            } else if lost > 0 {
                longer_is_larger(past.skip(lost - 1), segment, max_duration, max_bytes);
                assert(past.skip(lost - 1).push(segment) =~= all.skip(gone - 1));
            }
        } else {
            assert(all =~= past);
        }
    }
}

/// The length and the size of segments add up: two runs of segments together
/// have the sums of both, one segment has its own, and none have nothing.
pub proof fn totals_add_up(s: Seq<SegmentInfo>, t: Seq<SegmentInfo>, segment: SegmentInfo)
    ensures
        total_duration(s + t) == total_duration(s) + total_duration(t),
        total_bytes(s + t) == total_bytes(s) + total_bytes(t),
        total_duration(seq![segment]) == segment.duration_hns,
        total_bytes(seq![segment]) == segment.bytes,
        total_duration(Seq::empty()) == 0,
        total_bytes(Seq::empty()) == 0,
    decreases t.len(),
{
    assert(seq![segment].drop_last() =~= Seq::<SegmentInfo>::empty());
    assert(total_duration(seq![segment].drop_last()) == 0);
    assert(total_bytes(seq![segment].drop_last()) == 0);
    if t.len() == 0 {
        assert(s + t =~= s);
    } else {
        assert((s + t).drop_last() =~= s + t.drop_last());
        totals_add_up(s, t.drop_last(), segment);
    }
}

/// A purge happens only where a bound of the ring itself asks for it: segments
/// that meet both bounds together all stay, and where some left, the last of
/// them would have brought what is kept above a bound.
pub proof fn nothing_leaves_without_need(
    s: Seq<SegmentInfo>,
    max_duration: int,
    max_bytes: int,
)
    requires
        s.len() > 0,
    ensures
        ({
            let kept = retained(s, max_duration, max_bytes);
            let gone = s.len() - kept.len();
            &&& total_duration(s) <= max_duration && total_bytes(s) <= max_bytes ==> kept == s
            &&& gone > 0 ==> total_duration(seq![s[gone - 1]] + kept) > max_duration
                || total_bytes(seq![s[gone - 1]] + kept) > max_bytes
            &&& s.len() > 1 && (total_duration(s) > max_duration || total_bytes(s) > max_bytes)
                ==> gone > 0
        }),
{
    let kept = retained(s, max_duration, max_bytes);
    let gone = s.len() - kept.len();
    purge_keeps_all_it_can(s, max_duration, max_bytes);
    assert(s.skip(0) =~= s);
    if gone > 0 {
        assert(s.skip(gone - 1) =~= seq![s[gone - 1]] + s.skip(gone));
    }
}

/// A ring that takes in segments whose sums meet its bounds, together with what
/// it held, loses nothing: it then holds everything that came, in order, but for
/// the segments without content.
pub proof fn what_fits_stays(
    s: Seq<SegmentInfo>,
    added: Seq<SegmentInfo>,
    max_duration: int,
    max_bytes: int,
)
    requires
        forall|i: int| 0 <= i < added.len() ==> (#[trigger] added[i]).duration_hns >= 0,
        total_duration(s) + total_duration(added) <= max_duration,
        total_bytes(s) + total_bytes(added) <= max_bytes,
    ensures
        absorbed(s, added, max_duration, max_bytes) == s + with_content(added),
    decreases added.len(),
{
    if added.len() == 0 {
        assert(s + with_content(added) =~= s);
    } else {
        let earlier = added.drop_last();
        let segment = added.last();
        assert(added[added.len() - 1] == segment);
        what_fits_stays(s, earlier, max_duration, max_bytes);
        content_is_smaller(added);
        if segment.bytes > 0 {
            let all = (s + with_content(earlier)).push(segment);
            assert(all =~= s + with_content(added));
            totals_add_up(s, with_content(added), segment);
            nothing_leaves_without_need(all, max_duration, max_bytes);
        }
    }
}

proof fn content_is_smaller(s: Seq<SegmentInfo>)
    requires
        forall|i: int| 0 <= i < s.len() ==> (#[trigger] s[i]).duration_hns >= 0,
    ensures
        total_duration(with_content(s)) <= total_duration(s),
        total_bytes(with_content(s)) <= total_bytes(s),
    decreases s.len(),
{
    if s.len() > 0 {
        assert(s[s.len() - 1] == s.last());
        content_is_smaller(s.drop_last());
        let kept = with_content(s.drop_last());
        assert(kept.push(s.last()).drop_last() =~= kept);
    }
}

/// A segment is left out where it is empty, and only there; the others keep their
/// order.
pub proof fn only_empty_segments_are_left_out(
    s: Seq<SegmentInfo>,
    t: Seq<SegmentInfo>,
    segment: SegmentInfo,
)
    ensures
        with_content(s + t) == with_content(s) + with_content(t),
        segment.bytes > 0 ==> with_content(seq![segment]) == seq![segment],
        segment.bytes == 0 ==> with_content(seq![segment]) == Seq::<SegmentInfo>::empty(),
    decreases t.len(),
{
    assert(seq![segment].drop_last() =~= Seq::<SegmentInfo>::empty());
    assert(with_content(seq![segment].drop_last()) == Seq::<SegmentInfo>::empty());
    assert(Seq::<SegmentInfo>::empty().push(segment) =~= seq![segment]);
    if t.len() == 0 {
        assert(s + t =~= s);
        assert(with_content(s) + with_content(t) =~= with_content(s));
    } else {
        assert((s + t).drop_last() =~= s + t.drop_last());
        only_empty_segments_are_left_out(s, t.drop_last(), segment);
        assert(with_content(s + t) =~= with_content(s) + with_content(t));
    }
}

/// A sweep goes through its entries one by one, each judged by itself and in
/// their order, an entry that comes twice included.
pub proof fn sweep_judges_each_entry(s: Seq<Seq<char>>, t: Seq<Seq<char>>, oldest: Option<nat>)
    ensures
        stale(s + t, oldest) == stale(s, oldest) + stale(t, oldest),
        s.len() == 1 ==> stale(s, oldest) == if oldest is Some && sequence_of(s[0]) is Some
            && sequence_of(s[0])->0 < oldest->0 {
            s
        } else {
            Seq::empty()
        },
    decreases t.len(),
{
    if s.len() == 1 {
        assert(s.drop_last() =~= Seq::<Seq<char>>::empty());
        assert(stale(s.drop_last(), oldest) == Seq::<Seq<char>>::empty());
        assert(Seq::<Seq<char>>::empty().push(s[0]) =~= s);
    }
    if t.len() == 0 {
        assert(s + t =~= s);
        assert(stale(s, oldest) + stale(t, oldest) =~= stale(s, oldest));
    } else {
        assert((s + t).drop_last() =~= s + t.drop_last());
        sweep_judges_each_entry(s, t.drop_last(), oldest);
        assert(stale(s + t, oldest) =~= stale(s, oldest) + stale(t, oldest));
    }
}

/// A segment file is told by its name alone, without directory and extension: `seg`
/// and a number. Whatever begins otherwise or goes on with something else has no
/// number.
pub proof fn segment_files_are_told_by_name(path: Seq<char>)
    ensures
        sequence_of(path) is Some <==> (path::stem_of(path) matches Some(stem) && stem.len() > 3
            && stem[0] == 's' && stem[1] == 'e' && stem[2] == 'g' && text::unsigned(
            stem.skip(3),
            u64::MAX as nat,
        ) is Some),
        sequence_of(path) matches Some(number) ==> text::unsigned(
            path::stem_of(path)->0.skip(3),
            u64::MAX as nat,
        ) == Some(number),
{
    let mark = seq!['s', 'e', 'g'];
    if let Some(stem) = path::stem_of(path) {
        if mark.is_prefix_of(stem) {
            assert(stem.subrange(0, 3)[0] == 's');
            assert(stem.subrange(0, 3)[1] == 'e');
            assert(stem.subrange(0, 3)[2] == 'g');
        } else if stem.len() > 3 && stem[0] == 's' && stem[1] == 'e' && stem[2] == 'g' {
            assert(stem.subrange(0, 3) =~= mark);
        }
    }
}

/// The file of a segment is `seg`, the number and `.mp4`, in the working directory;
/// the number has six digits, and more only where it takes more.
pub proof fn segment_files_are_named_by_number(workdir: Seq<char>, number: nat)
    ensures
        ({
            let digits = text::padded(number, 6);
            let name = "seg"@ + digits + ".mp4"@;
            &&& numbered(workdir, number) == path::joined(workdir, name)
            &&& digits.len() >= 6
            &&& number < 1_000_000 ==> name.len() == 13
        }),
{
    reveal_strlit("seg");
    reveal_strlit(".mp4");
    let digits = text::padded(number, 6);
    assert("seg"@ =~= seq!['s', 'e', 'g']);
    assert(".mp4"@ =~= seq!['.', 'm', 'p', '4']);
    text::padding_adds_zeros_in_front(number, 6);
    if number < 1_000_000 {
        reveal_with_fuel(text::decimal, 7);
    }
}

} // verus!
