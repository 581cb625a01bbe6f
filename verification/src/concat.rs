//! Joining segments without encoding anything again.
//!
//! Samples are copied as they are on disk. Every segment starts over at zero, so
//! its samples are moved by the length of the segments before it. The streams of a
//! segment end one by one, and the segment with the last of them.
use crate::segment::{SegmentInfo, total_duration};
use vstd::prelude::*;

verus! {

/// Result of joining segments.
#[derive(Debug, Clone, Copy, PartialEq, Eq, Structural)]
pub struct ConcatOutcome {
    pub bytes: u64,
    pub samples: usize,
}

/// Why segments cannot be joined.
#[derive(Debug)]
pub enum ConcatError {
    NoSegment,
    /// The first segment, whose path is given, has no stream.
    NoStream(String),
}

impl ConcatError {
    pub open spec fn text(self) -> Seq<char> {
        match self {
            ConcatError::NoSegment => "aucun segment à sauvegarder"@,
            ConcatError::NoStream(path) => "le segment "@ + path@ + " ne contient aucun flux"@,
        }
    }

    pub fn message(&self) -> (r: String)
        ensures
            r@ == self.text(),
    {
        match self {
            ConcatError::NoSegment => "aucun segment à sauvegarder".to_owned(),
            ConcatError::NoStream(path) => {
                let mut r = "le segment ".to_owned();
                r.append(path.as_str());
                r.append(" ne contient aucun flux");
                r
            },
        }
    }
}

/// What a read from the current segment gave.
#[derive(Debug, Clone, Copy)]
pub struct Read {
    /// The stream that the read is about.
    pub stream: u32,
    /// Whether that stream has ended.
    pub end_of_stream: bool,
    /// Time of the sample, where there is one.
    pub time_hns: Option<i64>,
}

/// A sample in the output: its stream and its time.
#[derive(Debug, Clone, Copy, PartialEq, Eq, Structural)]
pub struct Placed {
    pub stream: u32,
    pub time_hns: i64,
}

/// Where to read next.
#[derive(Debug, Clone, Copy, PartialEq, Eq, Structural)]
pub enum Next {
    /// In the same segment.
    ReadOn,
    /// In the segment with this index, which is to be opened.
    Open(usize),
    /// Nowhere: the output is to be finalized.
    Finish,
}

/// What to do after a read.
#[derive(Debug, Clone, Copy, PartialEq, Eq, Structural)]
pub struct Splice {
    /// Where the sample that was read goes, if it is to be copied.
    pub copy: Option<Placed>,
    pub next: Next,
}

/// Where the sample of a read goes, if there is one: to the stream of the output
/// that stands for its own. A stream without a counterpart is passed over.
pub open spec fn copy_of(read: Read, outputs: Seq<u32>, offset: int) -> Option<Placed> {
    match read.time_hns {
        Some(time) => if read.stream < outputs.len() {
            Some(
                Placed {
                    stream: outputs[read.stream as int],
                    time_hns: (time + offset) as i64,
                },
            )
        } else {
            None
        },
        None => None,
    }
}

/// The streams that have ended after one more read.
pub open spec fn noted(ended: Seq<bool>, read: Read) -> Seq<bool> {
    if read.end_of_stream && read.stream < ended.len() {
        ended.update(read.stream as int, true)
    } else {
        ended
    }
}

pub open spec fn all_ended(ended: Seq<bool>) -> bool {
    forall|s: int| 0 <= s < ended.len() ==> #[trigger] ended[s]
}

/// Streams of which none has ended.
pub open spec fn none_ended(n: nat) -> Seq<bool> {
    Seq::new(n, |s: int| false)
}

/// A stream of the segments: the stream of the output that stands for it, and
/// whether it has ended in the segment being read.
#[derive(Debug, Clone, Copy)]
struct Stream {
    target: u32,
    ended: bool,
}

/// A segment, and where it begins in the output.
struct Place {
    segment: usize,
    offset_hns: i64,
}

/// A joining under way.
pub struct Splicer {
    segments: Vec<SegmentInfo>,
    streams: Vec<Stream>,
    /// Segment being read.
    place: Place,
    samples: usize,
}

impl Splicer {
    #[verifier::type_invariant]
    spec fn well_formed(self) -> bool {
        &&& self.place.segment < self.segments@.len()
        &&& self.place.offset_hns == total_duration(self.segments@.take(self.place.segment as int))
        &&& forall|i: int|
            0 <= i < self.segments@.len() ==> (#[trigger] self.segments@[i]).duration_hns >= 0
        &&& total_duration(self.segments@) <= i64::MAX
    }

    pub closed spec fn parts(self) -> Seq<SegmentInfo> {
        self.segments@
    }

    /// Streams of the output, by stream of the segments.
    pub closed spec fn outputs(self) -> Seq<u32> {
        Seq::new(self.streams@.len(), |s: int| self.streams@[s].target)
    }

    /// Which streams have ended in the segment being read.
    pub closed spec fn ended(self) -> Seq<bool> {
        Seq::new(self.streams@.len(), |s: int| self.streams@[s].ended)
    }

    /// Index of the segment being read.
    pub closed spec fn reading(self) -> int {
        self.place.segment as int
    }

    /// Samples copied so far.
    pub closed spec fn copied(self) -> int {
        self.samples as int
    }

    /// Where the segment being read begins in the output: behind the whole
    /// length of the segments before it.
    pub open spec fn offset(self) -> int {
        total_duration(self.parts().take(self.reading()))
    }

    /// Begins to join segments, in order.
    pub fn new(segments: Vec<SegmentInfo>) -> (r: Result<Self, ConcatError>)
        requires
            forall|i: int| 0 <= i < segments@.len() ==> (#[trigger] segments@[i]).duration_hns >= 0,
            total_duration(segments@) <= i64::MAX,
        ensures
            match r {
                Ok(splicer) => {
                    &&& segments@.len() > 0
                    &&& splicer.parts() == segments@
                    &&& splicer.outputs() == Seq::<u32>::empty()
                    &&& splicer.ended() == Seq::<bool>::empty()
                    &&& splicer.reading() == 0
                    &&& splicer.copied() == 0
                },
                Err(e) => segments@.len() == 0 && e is NoSegment,
            },
    {
        if segments.len() == 0 {
            return Err(ConcatError::NoSegment);
        }
        proof {
            assert(segments@.take(0) =~= Seq::<SegmentInfo>::empty());
        }
        let place = Place { segment: 0, offset_hns: 0 };
        let r = Splicer { segments, streams: Vec::new(), place, samples: 0 };
        proof {
            assert(r.outputs() =~= Seq::<u32>::empty());
            assert(r.ended() =~= Seq::<bool>::empty());
        }
        Ok(r)
    }

    /// Notes the stream of the output that stands for the next stream of the
    /// first segment, which sets the structure of the output.
    pub fn add_stream(&mut self, target: u32)
        ensures
            final(self).parts() == old(self).parts(),
            final(self).outputs() == old(self).outputs().push(target),
            final(self).ended() == old(self).ended().push(false),
            final(self).reading() == old(self).reading(),
            final(self).copied() == old(self).copied(),
    {
        proof {
            use_type_invariant(&*self);
        }
        let ghost before = *self;
        let mut streams: Vec<Stream> = Vec::new();
        std::mem::swap(&mut streams, &mut self.streams);
        streams.push(Stream { target, ended: false });
        self.streams = streams;
        proof {
            assert(self.outputs() =~= before.outputs().push(target));
            assert(self.ended() =~= before.ended().push(false));
        }
    }

    /// Checks that there is something to copy.
    pub fn check(&self) -> (r: Result<(), ConcatError>)
        ensures
            match r {
                Ok(_) => self.outputs().len() > 0,
                Err(e) => self.outputs().len() == 0 && match e {
                    ConcatError::NoStream(path) => path@ == self.parts()[0].path@,
                    _ => false,
                },
            },
    {
        proof {
            use_type_invariant(self);
        }
        if self.streams.len() == 0 {
            return Err(ConcatError::NoStream(self.segments[0].path.clone()));
        }
        Ok(())
    }

    /// Where the segment being read begins in the output.
    pub fn offset_hns(&self) -> (r: i64)
        ensures
            r == self.offset(),
    {
        proof {
            use_type_invariant(self);
        }
        self.place.offset_hns
    }

    fn have_all_ended(&self) -> (r: bool)
        ensures
            r == all_ended(self.ended()),
    {
        for s in 0..self.streams.len()
            invariant
                forall|t: int| 0 <= t < s ==> #[trigger] self.ended()[t],
        {
            if !self.streams[s].ended {
                proof {
                    assert(!self.ended()[s as int]);
                }
                return false;
            }
        }
        true
    }

    /// The streams at the beginning of a segment.
    fn reopened(&self) -> (r: Vec<Stream>)
        ensures
            r@.len() == self.streams@.len(),
            forall|s: int|
                0 <= s < r@.len() ==> (#[trigger] r@[s]).target == self.streams@[s].target
                    && !r@[s].ended,
    {
        let mut r: Vec<Stream> = Vec::new();
        for s in 0..self.streams.len()
            invariant
                r@.len() == s,
                forall|t: int|
                    0 <= t < s ==> (#[trigger] r@[t]).target == self.streams@[t].target
                        && !r@[t].ended,
        {
            r.push(Stream { target: self.streams[s].target, ended: false });
        }
        r
    }

    /// Decides what to do with a read.
    ///
    /// A segment is done once every stream of the output has ended in it: the
    /// streams of a file end at different times, and what is left in the others
    /// is still to be copied.
    pub fn read(&mut self, read: Read) -> (r: Splice)
        requires
            read.time_hns matches Some(time) ==> i64::MIN <= time + old(self).offset() <= i64::MAX,
        ensures
            final(self).parts() == old(self).parts(),
            final(self).outputs() == old(self).outputs(),
            r.copy == copy_of(read, old(self).outputs(), old(self).offset()),
            r.copy is Some <==> read.time_hns is Some && read.stream < old(self).outputs().len(),
            r.copy matches Some(copy) ==> {
                &&& copy.stream == old(self).outputs()[read.stream as int]
                &&& copy.time_hns == read.time_hns->0 + old(self).offset()
            },
            final(self).offset() == old(self).offset() + (if final(self).reading()
                == old(self).reading() {
                0
            } else {
                old(self).parts()[old(self).reading()].duration_hns as int
            }),
            final(self).copied() == (if r.copy is Some && old(self).copied() < usize::MAX {
                old(self).copied() + 1
            } else {
                old(self).copied()
            }),
            ({
                let ended = noted(old(self).ended(), read);
                if !all_ended(ended) {
                    &&& r.next == Next::ReadOn
                    &&& final(self).reading() == old(self).reading()
                    &&& final(self).ended() == ended
                } else if old(self).reading() + 1 < old(self).parts().len() {
                    &&& final(self).reading() == old(self).reading() + 1
                    &&& r.next == Next::Open(final(self).reading() as usize)
                    &&& final(self).ended() == none_ended(old(self).outputs().len())
                } else {
                    &&& r.next == Next::Finish
                    &&& final(self).reading() == old(self).reading()
                    &&& final(self).ended() == ended
                }
            }),
    {
        proof {
            use_type_invariant(&*self);
        }
        let ghost before = *self;
        let known = (read.stream as usize) < self.streams.len();
        let copy: Option<Placed> = match read.time_hns {
            Some(time) => {
                if known {
                    self.samples = self.samples.saturating_add(1);
                    Some(
                        Placed {
                            stream: self.streams[read.stream as usize].target,
                            time_hns: time + self.place.offset_hns,
                        },
                    )
                } else {
                    None
                }
            },
            None => None,
        };
        if read.end_of_stream && known {
            let target: u32 = self.streams[read.stream as usize].target;
            self.streams[read.stream as usize] = Stream { target, ended: true };
        }
        proof {
            assert(self.outputs() =~= before.outputs());
            assert(self.ended() =~= noted(before.ended(), read));
        }
        if !self.have_all_ended() {
            return Splice { copy, next: Next::ReadOn };
        }
        let current: usize = self.place.segment;
        let count: usize = self.segments.len();
        if current + 1 >= count {
            return Splice { copy, next: Next::Finish };
        }
        let next: usize = current + 1;
        proof {
            let parts = self.segments@;
            assert(parts.take(next as int).drop_last() =~= parts.take(current as int));
            offsets_grow(parts, next as int, parts.len() as int);
            assert(parts.take(parts.len() as int) =~= parts);
        }
        let offset: i64 = self.place.offset_hns + self.segments[current].duration_hns;
        self.streams = self.reopened();
        self.place = Place { segment: next, offset_hns: offset };
        proof {
            assert(self.outputs() =~= before.outputs());
            assert(self.ended() =~= none_ended(before.outputs().len()));
        }
        Splice { copy, next: Next::Open(next) }
    }

    /// The result, for an output of the given size.
    pub fn outcome(&self, bytes: u64) -> (r: ConcatOutcome)
        ensures
            r.bytes == bytes,
            r.samples == self.copied(),
    {
        ConcatOutcome { bytes, samples: self.samples }
    }
}

proof fn offsets_grow(parts: Seq<SegmentInfo>, i: int, j: int)
    requires
        0 <= i <= j <= parts.len(),
        forall|k: int| 0 <= k < parts.len() ==> (#[trigger] parts[k]).duration_hns >= 0,
    ensures
        total_duration(parts.take(i)) <= total_duration(parts.take(j)),
    decreases j - i,
{
    if i < j {
        offsets_grow(parts, i, j - 1);
        assert(parts.take(j).drop_last() =~= parts.take(j - 1));
    }
}

/// The samples of reads as they go to the output, moved by an offset.
pub open spec fn placed(reads: Seq<Read>, outputs: Seq<u32>, offset: int) -> Seq<Placed>
    decreases reads.len(),
{
    if reads.len() == 0 {
        Seq::empty()
    } else {
        let before = placed(reads.drop_last(), outputs, offset);
        match copy_of(reads.last(), outputs, offset) {
            Some(sample) => before.push(sample),
            None => before,
        }
    }
}

/// Which of `n` streams have ended after reads of a segment.
pub open spec fn ended_after(reads: Seq<Read>, n: nat) -> Seq<bool>
    decreases reads.len(),
{
    if reads.len() == 0 {
        none_ended(n)
    } else {
        noted(ended_after(reads.drop_last(), n), reads.last())
    }
}

/// How many reads it takes, the first `i` included, until all of `n` streams have
/// ended.
pub open spec fn reads_needed(reads: Seq<Read>, n: nat, i: int) -> int
    decreases reads.len() - i,
{
    if i >= reads.len() || all_ended(ended_after(reads.take(i), n)) {
        i
    } else {
        reads_needed(reads, n, i + 1)
    }
}

/// The reads of a segment up to the end of its last stream.
pub open spec fn needed(reads: Seq<Read>, n: nat) -> Seq<Read> {
    reads.take(reads_needed(reads, n, 0))
}

/// The samples of the first `n` segments in the output, each segment behind the
/// whole length of those before it.
pub open spec fn joined(
    parts: Seq<SegmentInfo>,
    reads: Seq<Vec<Read>>,
    outputs: Seq<u32>,
    n: int,
) -> Seq<Placed>
    decreases n,
{
    if n <= 0 {
        Seq::empty()
    } else {
        joined(parts, reads, outputs, n - 1) + placed(
            needed(reads[n - 1]@, outputs.len()),
            outputs,
            total_duration(parts.take(n - 1)),
        )
    }
}

/// Whether the times of samples stay in range once they are moved by an offset.
pub open spec fn times_fit(reads: Seq<Read>, offset: int) -> bool {
    forall|i: int|
        0 <= i < reads.len() ==> ((#[trigger] reads[i]).time_hns matches Some(time) ==> i64::MIN
            <= time + offset <= i64::MAX)
}

/// Joins segments whose reads are known, in the order in which they come.
/// `outputs` gives the stream of the output for each stream of the segments, and
/// `bytes` the size of the output.
pub fn concat(
    segments: Vec<SegmentInfo>,
    reads: &Vec<Vec<Read>>,
    outputs: &Vec<u32>,
    bytes: u64,
) -> (r: Result<(Vec<Placed>, ConcatOutcome), ConcatError>)
    requires
        reads@.len() == segments@.len(),
        forall|i: int| 0 <= i < segments@.len() ==> (#[trigger] segments@[i]).duration_hns >= 0,
        total_duration(segments@) <= i64::MAX,
        forall|k: int|
            0 <= k < reads@.len() ==> times_fit(
                (#[trigger] reads@[k])@,
                total_duration(segments@.take(k)),
            ),
        forall|k: int|
            0 <= k < reads@.len() ==> all_ended(
                ended_after((#[trigger] reads@[k])@, outputs@.len()),
            ),
    ensures
        match r {
            Ok((clip, outcome)) => {
                &&& segments@.len() > 0
                &&& outputs@.len() > 0
                &&& clip@ == joined(segments@, reads@, outputs@, segments@.len() as int)
                &&& outcome.samples == clip@.len()
                &&& outcome.bytes == bytes
            },
            Err(ConcatError::NoSegment) => segments@.len() == 0,
            Err(ConcatError::NoStream(path)) => segments@.len() > 0 && outputs@.len() == 0
                && path@ == segments@[0].path@,
        },
{
    let ghost parts = segments@;
    let ghost n = outputs@.len();
    let count: usize = segments.len();
    let mut splicer = match Splicer::new(segments) {
        Ok(splicer) => splicer,
        Err(e) => return Err(e),
    };
    for i in 0..outputs.len()
        invariant
            splicer.parts() == parts,
            splicer.outputs() == outputs@.take(i as int),
            splicer.ended() == none_ended(i as nat),
            splicer.reading() == 0,
            splicer.copied() == 0,
    {
        splicer.add_stream(outputs[i]);
        proof {
            assert(outputs@.take(i + 1) =~= outputs@.take(i as int).push(outputs@[i as int]));
            assert(none_ended(i as nat + 1) =~= none_ended(i as nat).push(false));
        }
    }
    proof {
        assert(outputs@.take(outputs@.len() as int) =~= outputs@);
    }
    match splicer.check() {
        Ok(_) => {},
        Err(e) => return Err(e),
    }
    let mut clip: Vec<Placed> = Vec::new();
    for k in 0..count
        invariant
            n == outputs@.len(),
            n > 0,
            count == parts.len(),
            reads@.len() == parts.len(),
            forall|k: int|
                0 <= k < reads@.len() ==> times_fit(
                    (#[trigger] reads@[k])@,
                    total_duration(parts.take(k)),
                ),
            forall|k: int|
                0 <= k < reads@.len() ==> all_ended(ended_after((#[trigger] reads@[k])@, n)),
            splicer.parts() == parts,
            splicer.outputs() == outputs@,
            k < count ==> splicer.reading() == k && splicer.ended() == none_ended(n),
            splicer.copied() == clip@.len(),
            clip@ == joined(parts, reads@, outputs@, k as int),
    {
        let ghost now = reads@[k as int]@;
        let ghost before = clip@;
        let ghost offset = total_duration(parts.take(k as int));
        let len: usize = reads[k].len();
        let mut i: usize = 0;
        let mut done = false;
        proof {
            assert(now.take(0) =~= Seq::empty());
            assert(!none_ended(n)[0]);
            assert(before + placed(Seq::empty(), outputs@, offset) =~= before);
        }
        while !done
            invariant
                n == outputs@.len(),
                n > 0,
                k < count,
                count == parts.len(),
                reads@.len() == parts.len(),
                now == reads@[k as int]@,
                times_fit(now, offset),
                all_ended(ended_after(now, n)),
                offset == total_duration(parts.take(k as int)),
                i <= len == now.len(),
                splicer.parts() == parts,
                splicer.outputs() == outputs@,
                !done ==> splicer.reading() == k && splicer.ended() == ended_after(
                    now.take(i as int),
                    n,
                ) && !all_ended(ended_after(now.take(i as int), n)) && reads_needed(now, n, 0)
                    == reads_needed(now, n, i as int),
                done ==> reads_needed(now, n, 0) == i,
                done && k + 1 < count ==> splicer.reading() == k + 1 && splicer.ended()
                    == none_ended(n),
                splicer.copied() == clip@.len(),
                clip@ == before + placed(now.take(i as int), outputs@, offset),
            decreases len - i,
        {
            proof {
                assert(now.take(now.len() as int) =~= now);
                assert(i < now.len());
                assert(now.take(i + 1).drop_last() =~= now.take(i as int));
                assert(now[i as int] == now.take(i + 1).last());
                assert(reads_needed(now, n, i as int) == reads_needed(now, n, i + 1));
            }
            let read: Read = reads[k][i];
            let splice = splicer.read(read);
            if let Some(sample) = splice.copy {
                clip.push(sample);
                proof {
                    assert(clip@.len() == clip.len());
                }
            }
            i = i + 1;
            done = match splice.next {
                Next::ReadOn => false,
                _ => true,
            };
            proof {
                assert(clip@ =~= before + placed(now.take(i as int), outputs@, offset));
            }
        }
    }
    let outcome = splicer.outcome(bytes);
    Ok((clip, outcome))
}

/// Whether a reader behaves as readers do: of each of `n` streams it reports the
/// end, and gives no sample of a stream behind its end.
pub open spec fn is_faithful(reads: Seq<Read>, n: nat) -> bool {
    &&& forall|s: int| 0 <= s < n ==> #[trigger] ends(reads, s)
    &&& forall|i: int, j: int|
        0 <= i < j < reads.len() && (#[trigger] reads[i]).end_of_stream && reads[i].stream
            == (#[trigger] reads[j]).stream ==> reads[j].time_hns is None
}

/// Whether reads report the end of a stream.
pub open spec fn ends(reads: Seq<Read>, s: int) -> bool {
    exists|i: int|
        0 <= i < reads.len() && (#[trigger] reads[i]).end_of_stream && reads[i].stream == s
}

/// The times of the samples of a stream, in order.
pub open spec fn samples_of(reads: Seq<Read>, s: int) -> Seq<int>
    decreases reads.len(),
{
    if reads.len() == 0 {
        Seq::empty()
    } else {
        let before = samples_of(reads.drop_last(), s);
        match reads.last().time_hns {
            Some(time) => if reads.last().stream == s {
                before.push(time as int)
            } else {
                before
            },
            None => before,
        }
    }
}

/// How many samples of the first `n` streams there are.
pub open spec fn sample_count(reads: Seq<Read>, n: nat) -> nat
    decreases reads.len(),
{
    if reads.len() == 0 {
        0
    } else {
        sample_count(reads.drop_last(), n) + if reads.last().time_hns is Some && reads.last().stream
            < n {
            1nat
        } else {
            0
        }
    }
}

/// How many samples of the first `n` streams the first `k` segments hold.
pub open spec fn total_samples(reads: Seq<Vec<Read>>, n: nat, k: int) -> nat
    decreases k,
{
    if k <= 0 {
        0
    } else {
        total_samples(reads, n, k - 1) + sample_count(reads[k - 1]@, n)
    }
}

/// The times of the samples in a stream of the output, in order.
pub open spec fn written_to(clip: Seq<Placed>, target: u32) -> Seq<int>
    decreases clip.len(),
{
    if clip.len() == 0 {
        Seq::empty()
    } else {
        let before = written_to(clip.drop_last(), target);
        if clip.last().stream == target {
            before.push(clip.last().time_hns as int)
        } else {
            before
        }
    }
}

/// Times moved by an offset.
pub open spec fn moved(times: Seq<int>, offset: int) -> Seq<int> {
    times.map_values(|time: int| time + offset)
}

/// The samples of a stream in the first `k` segments, one segment behind the
/// other.
pub open spec fn stream_in(
    parts: Seq<SegmentInfo>,
    reads: Seq<Vec<Read>>,
    s: int,
    k: int,
) -> Seq<int>
    decreases k,
{
    if k <= 0 {
        Seq::empty()
    } else {
        stream_in(parts, reads, s, k - 1) + moved(
            samples_of(reads[k - 1]@, s),
            total_duration(parts.take(k - 1)),
        )
    }
}

proof fn ended_means_reported(reads: Seq<Read>, n: nat)
    ensures
        ended_after(reads, n).len() == n,
        forall|s: int| 0 <= s < n ==> #[trigger] ended_after(reads, n)[s] == ends(reads, s),
    decreases reads.len(),
{
    if reads.len() > 0 {
        let before = reads.drop_last();
        ended_means_reported(before, n);
        assert forall|s: int| 0 <= s < n implies #[trigger] ended_after(reads, n)[s] == ends(
            reads,
            s,
        ) by {
            if ends(before, s) {
                let i = choose|i: int|
                    0 <= i < before.len() && (#[trigger] before[i]).end_of_stream
                        && before[i].stream == s;
                assert(reads[i] == before[i]);
            }
            if ends(reads, s) {
                let i = choose|i: int|
                    0 <= i < reads.len() && (#[trigger] reads[i]).end_of_stream
                        && reads[i].stream == s;
                if i < before.len() {
                    assert(before[i] == reads[i]);
                }
            }
            if reads.last().end_of_stream && reads.last().stream == s {
                assert(reads[reads.len() - 1] == reads.last());
            }
            assert(ended_after(before, n)[s] == ends(before, s));
        }
    }
}

proof fn needed_reads_end_all(reads: Seq<Read>, n: nat, i: int)
    requires
        0 <= i <= reads.len(),
        all_ended(ended_after(reads, n)),
    ensures
        i <= reads_needed(reads, n, i) <= reads.len(),
        all_ended(ended_after(reads.take(reads_needed(reads, n, i)), n)),
    decreases reads.len() - i,
{
    assert(reads.take(reads.len() as int) =~= reads);
    if !(i >= reads.len() || all_ended(ended_after(reads.take(i), n))) {
        needed_reads_end_all(reads, n, i + 1);
    }
}

proof fn nothing_follows(reads: Seq<Read>, m: int, n: nat)
    requires
        0 <= m <= reads.len(),
        forall|j: int|
            m <= j < reads.len() && (#[trigger] reads[j]).stream < n ==> reads[j].time_hns is None,
    ensures
        forall|s: int|
            0 <= s < n ==> #[trigger] samples_of(reads, s) == samples_of(reads.take(m), s),
        sample_count(reads, n) == sample_count(reads.take(m), n),
    decreases reads.len(),
{
    if m == reads.len() {
        assert(reads.take(m) =~= reads);
    } else {
        let before = reads.drop_last();
        assert forall|j: int|
            m <= j < before.len() && (#[trigger] before[j]).stream < n implies before[j].time_hns
            is None by {
            assert(reads[j] == before[j]);
        }
        nothing_follows(before, m, n);
        assert(before.take(m) =~= reads.take(m));
        assert(reads[reads.len() - 1] == reads.last());
        assert forall|s: int| 0 <= s < n implies #[trigger] samples_of(reads, s) == samples_of(
            reads.take(m),
            s,
        ) by {
            assert(samples_of(before, s) == samples_of(before.take(m), s));
        }
    }
}

/// What is read of a segment until it is left holds every sample of its streams.
proof fn nothing_is_left_behind(reads: Seq<Read>, n: nat)
    requires
        is_faithful(reads, n),
    ensures
        all_ended(ended_after(reads, n)),
        forall|s: int|
            0 <= s < n ==> #[trigger] samples_of(reads, s) == samples_of(needed(reads, n), s),
        sample_count(reads, n) == sample_count(needed(reads, n), n),
{
    ended_means_reported(reads, n);
    assert forall|s: int| 0 <= s < ended_after(reads, n).len() implies #[trigger] ended_after(
        reads,
        n,
    )[s] by {
        assert(ends(reads, s));
    }
    needed_reads_end_all(reads, n, 0);
    let m = reads_needed(reads, n, 0);
    let first = reads.take(m);
    ended_means_reported(first, n);
    assert forall|j: int| m <= j < reads.len() && (#[trigger] reads[j]).stream < n implies reads[j].time_hns
        is None by {
        let s = reads[j].stream as int;
        assert(ended_after(first, n)[s]);
        let i = choose|i: int|
            0 <= i < first.len() && (#[trigger] first[i]).end_of_stream && first[i].stream == s;
        assert(reads[i] == first[i]);
    }
    nothing_follows(reads, m, n);
}

proof fn written_in_turn(a: Seq<Placed>, b: Seq<Placed>, target: u32)
    ensures
        written_to(a + b, target) == written_to(a, target) + written_to(b, target),
    decreases b.len(),
{
    if b.len() == 0 {
        assert(a + b =~= a);
        assert(written_to(a, target) + written_to(b, target) =~= written_to(a, target));
    } else {
        written_in_turn(a, b.drop_last(), target);
        assert((a + b).drop_last() =~= a + b.drop_last());
        assert((a + b).last() == b.last());
        assert(written_to(a + b, target) =~= written_to(a, target) + written_to(b, target));
    }
}

proof fn reads_are_placed(reads: Seq<Read>, outputs: Seq<u32>, offset: int, s: int)
    requires
        outputs.no_duplicates(),
        0 <= s < outputs.len(),
        times_fit(reads, offset),
    ensures
        written_to(placed(reads, outputs, offset), outputs[s]) == moved(
            samples_of(reads, s),
            offset,
        ),
        placed(reads, outputs, offset).len() == sample_count(reads, outputs.len()),
    decreases reads.len(),
{
    if reads.len() > 0 {
        let before = reads.drop_last();
        let read = reads.last();
        assert(reads[reads.len() - 1] == read);
        assert forall|i: int| 0 <= i < before.len() implies (
        (#[trigger] before[i]).time_hns matches Some(time) ==> i64::MIN <= time + offset
            <= i64::MAX) by {
            assert(before[i] == reads[i]);
        }
        reads_are_placed(before, outputs, offset, s);
        let clip = placed(reads, outputs, offset);
        if read.time_hns is Some && read.stream < outputs.len() {
            assert(clip.drop_last() =~= placed(before, outputs, offset));
            if read.stream != s {
                assert(outputs[read.stream as int] != outputs[s]);
            }
        }
    }
    assert(written_to(placed(reads, outputs, offset), outputs[s]) =~= moved(
        samples_of(reads, s),
        offset,
    ));
}

/// Nothing is lost and nothing is doubled: every sample of every stream of every
/// segment goes once, in order, to the stream of the output that stands for its
/// own, at its time plus the length of the segments before it, in whatever order
/// the streams of a segment end.
pub proof fn every_sample_is_copied_once(
    parts: Seq<SegmentInfo>,
    reads: Seq<Vec<Read>>,
    outputs: Seq<u32>,
    k: int,
    s: int,
)
    requires
        0 <= k <= reads.len(),
        0 <= s < outputs.len(),
        outputs.no_duplicates(),
        forall|i: int| 0 <= i < k ==> is_faithful((#[trigger] reads[i])@, outputs.len()),
        forall|i: int|
            0 <= i < k ==> times_fit((#[trigger] reads[i])@, total_duration(parts.take(i))),
    ensures
        forall|i: int|
            0 <= i < k ==> all_ended(ended_after((#[trigger] reads[i])@, outputs.len())),
        written_to(joined(parts, reads, outputs, k), outputs[s]) == stream_in(parts, reads, s, k),
        joined(parts, reads, outputs, k).len() == total_samples(reads, outputs.len(), k),
    decreases k,
{
    if k > 0 {
        every_sample_is_copied_once(parts, reads, outputs, k - 1, s);
        let n = outputs.len();
        let now = reads[k - 1]@;
        let offset = total_duration(parts.take(k - 1));
        nothing_is_left_behind(now, n);
        needed_reads_end_all(now, n, 0);
        let some = needed(now, n);
        assert forall|i: int| 0 <= i < some.len() implies ((#[trigger] some[i]).time_hns matches Some(
            time,
        ) ==> i64::MIN <= time + offset <= i64::MAX) by {
            assert(some[i] == now[i]);
        }
        reads_are_placed(some, outputs, offset, s);
        assert(samples_of(now, s) == samples_of(some, s));
        written_in_turn(
            joined(parts, reads, outputs, k - 1),
            placed(some, outputs, offset),
            outputs[s],
        );
    }
}

/// Segments do not overlap in the output, and leave no hole between them: where
/// the samples of a segment stay within its length, whatever is copied from it
/// ends before anything of a later segment begins, and a segment begins exactly
/// where the one before it ends.
pub proof fn segments_do_not_overlap(
    parts: Seq<SegmentInfo>,
    i: int,
    j: int,
    early: int,
    early_length: int,
    late: int,
)
    requires
        0 <= i < j < parts.len(),
        forall|k: int| 0 <= k < parts.len() ==> (#[trigger] parts[k]).duration_hns >= 0,
        early + early_length <= parts[i].duration_hns,
        late >= 0,
    ensures
        early + total_duration(parts.take(i)) + early_length <= late + total_duration(parts.take(j)),
        total_duration(parts.take(i + 1)) == total_duration(parts.take(i)) + parts[i].duration_hns,
{
    assert(parts.take(i + 1).drop_last() =~= parts.take(i));
    offsets_grow(parts, i + 1, j);
}

/// A sample goes to the stream that stands for its own, moved by the offset of its
/// segment; what is no sample, or of a stream without counterpart, goes nowhere.
pub proof fn samples_move_with_their_segment(read: Read, outputs: Seq<u32>, offset: int)
    requires
        read.time_hns matches Some(time) ==> i64::MIN <= time + offset <= i64::MAX,
    ensures
        copy_of(read, outputs, offset) is Some <==> read.time_hns is Some && read.stream
            < outputs.len(),
        copy_of(read, outputs, offset) matches Some(copy) ==> {
            &&& copy.stream == outputs[read.stream as int]
            &&& copy.time_hns - offset == read.time_hns->0
        },
{
}

/// A read ends its own stream where it says so, and changes nothing for the others;
/// a stream that has ended stays so.
pub proof fn streams_end_by_themselves(ended: Seq<bool>, read: Read, s: int)
    requires
        0 <= s < ended.len(),
    ensures
        noted(ended, read).len() == ended.len(),
        noted(ended, read)[s] <==> ended[s] || (read.end_of_stream && read.stream == s),
        all_ended(ended) ==> ended[s],
        !all_ended(ended) ==> exists|t: int| 0 <= t < ended.len() && !#[trigger] ended[t],
{
}

/// Every sample that is read of a segment is in the output, at its time plus the
/// length of the segments before its own: where each stream of a segment reports its
/// end, by one of `last_reads`, and no sample of a stream comes behind that, none is
/// left out, whichever stream ends first.
pub proof fn each_sample_reaches_the_output(
    parts: Seq<SegmentInfo>,
    reads: Seq<Vec<Read>>,
    outputs: Seq<u32>,
    k: int,
    segment: int,
    m: int,
    last_reads: Seq<int>,
)
    requires
        0 <= segment < k <= reads.len(),
        0 <= m < reads[segment]@.len(),
        reads[segment]@[m].time_hns is Some,
        reads[segment]@[m].stream < outputs.len(),
        last_reads.len() == outputs.len(),
        forall|s: int|
            0 <= s < last_reads.len() ==> {
                &&& 0 <= #[trigger] last_reads[s] < reads[segment]@.len()
                &&& reads[segment]@[last_reads[s]].end_of_stream
                &&& reads[segment]@[last_reads[s]].stream == s
            },
        forall|i: int, j: int|
            0 <= i < j < reads[segment]@.len() && (#[trigger] reads[segment]@[i]).end_of_stream
                && reads[segment]@[i].stream == (#[trigger] reads[segment]@[j]).stream
                ==> reads[segment]@[j].time_hns is None,
    ensures
        joined(parts, reads, outputs, k).contains(
            (Placed {
                stream: outputs[reads[segment]@[m].stream as int],
                time_hns: (reads[segment]@[m].time_hns->0 + total_duration(
                    parts.take(segment),
                )) as i64,
            }),
        ),
    decreases k,
{
    let n = outputs.len();
    let now = reads[segment]@;
    let offset = total_duration(parts.take(segment));
    let sample = Placed {
        stream: outputs[now[m].stream as int],
        time_hns: (now[m].time_hns->0 + offset) as i64,
    };
    let before = joined(parts, reads, outputs, k - 1);
    let added = placed(
        needed(reads[k - 1]@, n),
        outputs,
        total_duration(parts.take(k - 1)),
    );
    let all = joined(parts, reads, outputs, k);
    assert(all == before + added);
    if segment < k - 1 {
        each_sample_reaches_the_output(parts, reads, outputs, k - 1, segment, m, last_reads);
        let i = choose|i: int| 0 <= i < before.len() && before[i] == sample;
        assert(all[i] == sample);
    } else {
        assert forall|s: int| 0 <= s < n implies #[trigger] ends(now, s) by {
            assert(now[last_reads[s]].end_of_stream);
        }
        assert(is_faithful(now, n));
        nothing_is_left_behind(now, n);
        needed_reads_end_all(now, n, 0);
        let count = reads_needed(now, n, 0);
        let first = now.take(count);
        ended_means_reported(first, n);
        assert(m < count) by {
            if m >= count {
                let s = now[m].stream as int;
                assert(ended_after(first, n)[s]);
                let i = choose|i: int|
                    0 <= i < first.len() && (#[trigger] first[i]).end_of_stream && first[i].stream
                        == s;
                assert(now[i] == first[i]);
            }
        }
        assert(first[m] == now[m]);
        placed_holds(first, outputs, offset, m);
        let i = choose|i: int| 0 <= i < added.len() && added[i] == sample;
        assert(all[before.len() + i] == sample);
    }
}

proof fn placed_holds(reads: Seq<Read>, outputs: Seq<u32>, offset: int, m: int)
    requires
        0 <= m < reads.len(),
        copy_of(reads[m], outputs, offset) is Some,
    ensures
        placed(reads, outputs, offset).contains(copy_of(reads[m], outputs, offset)->0),
    decreases reads.len(),
{
    let sample = copy_of(reads[m], outputs, offset)->0;
    let all = placed(reads, outputs, offset);
    let before = placed(reads.drop_last(), outputs, offset);
    if m < reads.len() - 1 {
        assert(reads.drop_last()[m] == reads[m]);
        placed_holds(reads.drop_last(), outputs, offset, m);
        let i = choose|i: int| 0 <= i < before.len() && before[i] == sample;
        assert(all[i] == sample);
    } else {
        assert(all[all.len() - 1] == sample);
    }
}

/// The samples of a stream are those of its reads, one by one and in order; so are
/// those of a stream of the output, and moving them adds the offset to each.
pub proof fn samples_are_told_by_stream(
    a: Seq<Read>,
    b: Seq<Read>,
    s: int,
    x: Seq<Placed>,
    y: Seq<Placed>,
    target: u32,
    offset: int,
    i: int,
)
    ensures
        samples_of(a + b, s) == samples_of(a, s) + samples_of(b, s),
        a.len() == 1 ==> samples_of(a, s) == (if a[0].stream == s && a[0].time_hns is Some {
            seq![a[0].time_hns->0 as int]
        } else {
            Seq::empty()
        }),
        written_to(x + y, target) == written_to(x, target) + written_to(y, target),
        x.len() == 1 ==> written_to(x, target) == (if x[0].stream == target {
            seq![x[0].time_hns as int]
        } else {
            Seq::empty()
        }),
        moved(samples_of(a, s), offset).len() == samples_of(a, s).len(),
        0 <= i < samples_of(a, s).len() ==> moved(samples_of(a, s), offset)[i] == samples_of(
            a,
            s,
        )[i] + offset,
    decreases b.len(),
{
    written_in_turn(x, y, target);
    if x.len() == 1 {
        assert(x.drop_last() =~= Seq::<Placed>::empty());
        assert(written_to(x.drop_last(), target) =~= Seq::<int>::empty());
        assert(written_to(x, target) =~= (if x[0].stream == target {
            seq![x[0].time_hns as int]
        } else {
            Seq::empty()
        }));
    }
    if a.len() == 1 {
        assert(a.drop_last() =~= Seq::<Read>::empty());
        assert(samples_of(a.drop_last(), s) =~= Seq::<int>::empty());
        assert(samples_of(a, s) =~= (if a[0].stream == s && a[0].time_hns is Some {
            seq![a[0].time_hns->0 as int]
        } else {
            Seq::empty()
        }));
    }
    if b.len() == 0 {
        assert(a + b =~= a);
        assert(samples_of(a, s) + samples_of(b, s) =~= samples_of(a, s));
    } else {
        assert((a + b).drop_last() =~= a + b.drop_last());
        samples_are_told_by_stream(a, b.drop_last(), s, x, y, target, offset, i);
        assert(samples_of(a + b, s) =~= samples_of(a, s) + samples_of(b, s));
    }
}

/// A segment is left with the read that ends the last of its streams: by then each
/// stream has reported its end, and after any fewer reads one of them has not.
pub proof fn segments_are_left_at_their_end(reads: Seq<Read>, n: nat, s: int, fewer: int)
    requires
        all_ended(ended_after(reads, n)),
        0 <= s < n,
    ensures
        ({
            let read = needed(reads, n);
            &&& read == reads.take(read.len() as int)
            &&& exists|i: int|
                0 <= i < read.len() && (#[trigger] read[i]).end_of_stream && read[i].stream == s
            &&& 0 <= fewer < read.len() ==> exists|t: int|
                0 <= t < n && !#[trigger] ended_after(reads.take(fewer), n)[t]
            &&& ended_after(reads, n)[s] <==> exists|i: int|
                0 <= i < reads.len() && (#[trigger] reads[i]).end_of_stream && reads[i].stream == s
        }),
{
    let count = reads_needed(reads, n, 0);
    let read = needed(reads, n);
    needed_reads_end_all(reads, n, 0);
    ended_means_reported(reads, n);
    ended_means_reported(read, n);
    assert(ended_after(read, n)[s]);
    assert(ends(read, s));
    if 0 <= fewer < read.len() {
        fewer_reads_end_not_all(reads, n, 0, fewer);
        ended_means_reported(reads.take(fewer), n);
    }
    assert(ended_after(reads, n)[s] == ends(reads, s));
}

proof fn fewer_reads_end_not_all(reads: Seq<Read>, n: nat, i: int, fewer: int)
    requires
        0 <= i <= fewer < reads_needed(reads, n, i),
    ensures
        !all_ended(ended_after(reads.take(fewer), n)),
    decreases reads.len() - i,
{
    if i >= reads.len() || all_ended(ended_after(reads.take(i), n)) {
    } else if i < fewer {
        fewer_reads_end_not_all(reads, n, i + 1, fewer);
    }
}

} // verus!
