//! The library of clips and their metadata.
//!
//! A clip comes with a file of the same name that holds the labels of its tracks,
//! which the clip itself cannot hold. Without it the clip is still listed. The
//! type of the length of a clip is left open: it is carried, never computed with.
use crate::path;
use crate::text;
use vstd::prelude::*;

verus! {

/// Metadata written next to a clip.
#[derive(Debug, Clone)]
pub struct ClipMeta<S> {
    /// Labels of the tracks, in the order of the file.
    pub tracks: Vec<String>,
    pub seconds: S,
    /// Creation time, in seconds since the Unix epoch.
    pub created: u64,
}

impl<S> ClipMeta<S> {
    /// Path of the metadata of a clip.
    pub fn sidecar_path(clip: &str) -> (r: String)
        ensures
            r@ == path::extended(clip@, "json"@),
    {
        path::with_extension(clip, "json")
    }

    /// Path of the thumbnail of a clip.
    pub fn thumbnail_path(clip: &str) -> (r: String)
        ensures
            r@ == path::extended(clip@, "png"@),
    {
        path::with_extension(clip, "png")
    }
}

/// A clip as the library shows it.
#[derive(Debug, Clone)]
pub struct Clip<S> {
    pub path: String,
    /// File name without extension.
    pub name: String,
    pub bytes: u64,
    pub seconds: S,
    pub tracks: Vec<String>,
    pub created: u64,
    /// Thumbnail of the clip, where there is one.
    pub thumbnail: Option<String>,
    /// Whether the metadata was missing.
    pub metadata_missing: bool,
}

/// A clip as text.
#[verifier::ext_equal]
pub struct ClipView<S> {
    pub path: Seq<char>,
    pub name: Seq<char>,
    pub bytes: u64,
    pub seconds: S,
    pub tracks: Seq<Seq<char>>,
    pub created: u64,
    pub thumbnail: Option<Seq<char>>,
    pub metadata_missing: bool,
}

impl<S> View for Clip<S> {
    type V = ClipView<S>;

    open spec fn view(&self) -> ClipView<S> {
        ClipView {
            path: self.path@,
            name: self.name@,
            bytes: self.bytes,
            seconds: self.seconds,
            tracks: text::texts(self.tracks@),
            created: self.created,
            thumbnail: match self.thumbnail {
                Some(thumbnail) => Some(thumbnail@),
                None => None,
            },
            metadata_missing: self.metadata_missing,
        }
    }
}

pub open spec fn clip_views<S>(s: Seq<Clip<S>>) -> Seq<ClipView<S>> {
    Seq::new(s.len(), |i: int| s[i]@)
}

/// What is read of a file on disk.
#[derive(Debug, Clone, Copy)]
pub struct FileFacts {
    pub bytes: u64,
    /// Time of the file, in seconds since the Unix epoch, where it can be read.
    pub created: Option<u64>,
    /// Whether the thumbnail is there.
    pub has_thumbnail: bool,
}

/// The description of a clip, from its path, its file and its metadata. Without
/// metadata it has no tracks, a length of `zero`, and the time of its file.
pub open spec fn described<S>(
    path: Seq<char>,
    facts: FileFacts,
    meta: Option<ClipMeta<S>>,
    zero: S,
) -> ClipView<S> {
    ClipView {
        path,
        name: match path::stem_of(path) {
            Some(stem) => stem,
            None => "clip"@,
        },
        bytes: facts.bytes,
        seconds: match meta {
            Some(meta) => meta.seconds,
            None => zero,
        },
        tracks: match meta {
            Some(meta) => text::texts(meta.tracks@),
            None => Seq::empty(),
        },
        created: match meta {
            Some(meta) => meta.created,
            None => match facts.created {
                Some(created) => created,
                None => 0,
            },
        },
        thumbnail: if facts.has_thumbnail {
            Some(path::extended(path, "png"@))
        } else {
            None
        },
        metadata_missing: meta is None,
    }
}

/// Describes a clip.
pub fn describe<S>(path: String, facts: FileFacts, meta: Option<ClipMeta<S>>, zero: S) -> (r: Clip<
    S,
>)
    ensures
        r@ == described(path@, facts, meta, zero),
{
    let name: String = match path::file_stem(path.as_str()) {
        Some(stem) => stem,
        None => "clip".to_owned(),
    };
    let thumbnail: Option<String> = if facts.has_thumbnail {
        Some(ClipMeta::<S>::thumbnail_path(path.as_str()))
    } else {
        None
    };
    let r = match meta {
        Some(meta) => {
            let ClipMeta { tracks, seconds, created } = meta;
            Clip {
                path,
                name,
                bytes: facts.bytes,
                seconds,
                tracks,
                created,
                thumbnail,
                metadata_missing: false,
            }
        },
        None => {
            let tracks: Vec<String> = Vec::new();
            Clip {
                path,
                name,
                bytes: facts.bytes,
                seconds: zero,
                tracks,
                created: match facts.created {
                    Some(created) => created,
                    None => 0,
                },
                thumbnail,
                metadata_missing: true,
            }
        },
    };
    proof {
        if r.metadata_missing {
            assert(text::texts(r.tracks@) =~= Seq::<Seq<char>>::empty());
        }
    }
    r
}

/// Whether a file is a clip, by its extension.
pub open spec fn is_clip_path(path: Seq<char>) -> bool {
    match path::extension_of(path) {
        Some(extension) => text::lower(extension) == text::lower("mp4"@),
        None => false,
    }
}

/// Tells whether a file is a clip.
pub fn is_clip(path: &str) -> (r: bool)
    ensures
        r == is_clip_path(path@),
{
    match path::extension(path) {
        Some(extension) => text::eq_ignore_ascii_case(extension.as_str(), "mp4"),
        None => false,
    }
}

/// A directory entry, with what was read of it. An entry whose file cannot be
/// read has no facts.
#[derive(Debug)]
pub struct Entry<S> {
    pub path: String,
    pub facts: Option<FileFacts>,
    pub meta: Option<ClipMeta<S>>,
}

/// How many clips come before the first one that is older than a time.
pub open spec fn as_recent<S>(clips: Seq<ClipView<S>>, created: u64) -> int
    decreases clips.len(),
{
    if clips.len() == 0 || clips[0].created < created {
        0
    } else {
        1 + as_recent(clips.skip(1), created)
    }
}

/// Clips with one more, placed behind those that are at least as recent.
pub open spec fn placed<S>(clips: Seq<ClipView<S>>, clip: ClipView<S>) -> Seq<ClipView<S>> {
    clips.insert(as_recent(clips, clip.created), clip)
}

/// The clips of a directory, from the most recent to the oldest: its files with
/// the right extension that could be read.
pub open spec fn listed<S>(entries: Seq<Entry<S>>, zero: S) -> Seq<ClipView<S>>
    decreases entries.len(),
{
    if entries.len() == 0 {
        Seq::empty()
    } else {
        let before = listed(entries.drop_last(), zero);
        let entry = entries.last();
        if is_clip_path(entry.path@) && entry.facts is Some {
            placed(before, described(entry.path@, entry.facts->0, entry.meta, zero))
        } else {
            before
        }
    }
}

proof fn recent_bounds<S>(clips: Seq<ClipView<S>>, created: u64)
    ensures
        0 <= as_recent(clips, created) <= clips.len(),
        as_recent(clips, created) < clips.len() ==> clips[as_recent(clips, created)].created
            < created,
        forall|j: int|
            0 <= j < as_recent(clips, created) ==> (#[trigger] clips[j]).created >= created,
    decreases clips.len(),
{
    if clips.len() > 0 && clips[0].created >= created {
        recent_bounds(clips.skip(1), created);
        assert forall|j: int| 0 <= j < as_recent(clips, created) implies (
        #[trigger] clips[j]).created >= created by {
            if j > 0 {
                assert(clips.skip(1)[j - 1] == clips[j]);
            }
        }
    }
}

proof fn recent_found<S>(clips: Seq<ClipView<S>>, created: u64, i: int)
    requires
        0 <= i <= clips.len(),
        i < clips.len() ==> clips[i].created < created,
        forall|j: int| 0 <= j < i ==> (#[trigger] clips[j]).created >= created,
    ensures
        as_recent(clips, created) == i,
{
    recent_bounds(clips, created);
    let r = as_recent(clips, created);
    if i < r {
        assert(clips[i].created >= created);
    }
    if r < i {
        assert(clips[r].created >= created);
    }
}

/// Puts a clip behind those that are at least as recent.
fn place<S>(clips: &mut Vec<Clip<S>>, clip: Clip<S>)
    ensures
        clip_views(final(clips)@) == placed(clip_views(old(clips)@), clip@),
{
    let ghost before = clip_views(clips@);
    let ghost view = clip@;
    let mut i: usize = 0;
    while i < clips.len() && clips[i].created >= clip.created
        invariant
            i <= clips@.len(),
            before == clip_views(clips@),
            view == clip@,
            forall|j: int| 0 <= j < i ==> (#[trigger] before[j]).created >= view.created,
        decreases clips@.len() - i,
    {
        proof {
            assert(before[i as int] == clips@[i as int]@);
        }
        i = i + 1;
    }
    proof {
        if i < clips@.len() {
            assert(before[i as int] == clips@[i as int]@);
        }
        recent_found(before, view.created, i as int);
    }
    clips.insert(i, clip);
    proof {
        assert(clip_views(clips@) =~= before.insert(i as int, view));
    }
}

/// Lists the clips of a directory, from the most recent to the oldest.
///
/// A missing directory is no error: that is the state before the first save, and
/// its library is empty.
pub fn scan<S: Copy>(directory: Option<Vec<Entry<S>>>, zero: S) -> (r: Vec<Clip<S>>)
    ensures
        clip_views(r@) == (match directory {
            Some(entries) => listed(entries@, zero),
            None => Seq::empty(),
        }),
{
    let mut clips: Vec<Clip<S>> = Vec::new();
    proof {
        assert(clip_views(clips@) =~= Seq::<ClipView<S>>::empty());
    }
    let entries = match directory {
        Some(entries) => entries,
        None => return clips,
    };
    let ghost all = entries@;
    let mut left = entries;
    let ghost mut done: int = 0;
    proof {
        assert(all.take(0) =~= Seq::empty());
        assert(all.skip(0) =~= all);
    }
    while left.len() > 0
        invariant
            0 <= done <= all.len(),
            left@ == all.skip(done),
            clip_views(clips@) == listed(all.take(done), zero),
        decreases left.len(),
    {
        let entry = left.remove(0);
        proof {
            assert(entry == all[done]);
            assert(all.take(done + 1).drop_last() =~= all.take(done));
            assert(left@ =~= all.skip(done + 1));
            done = done + 1;
        }
        let Entry { path, facts, meta } = entry;
        if is_clip(path.as_str()) {
            if let Some(facts) = facts {
                place(&mut clips, describe(path, facts, meta, zero));
            }
        }
    }
    proof {
        assert(all.take(done) =~= all);
    }
    clips
}

/// The files to erase with a clip. Those next to it may never have existed.
#[derive(Debug)]
pub struct Deletion {
    pub clip: String,
    pub sidecar: String,
    pub thumbnail: String,
}

/// Names the files that go with a clip.
pub fn delete(clip: &str) -> (r: Deletion)
    ensures
        r.clip@ == clip@,
        r.sidecar@ == path::extended(clip@, "json"@),
        r.thumbnail@ == path::extended(clip@, "png"@),
{
    Deletion {
        clip: clip.to_owned(),
        sidecar: path::with_extension(clip, "json"),
        thumbnail: path::with_extension(clip, "png"),
    }
}

/// The time in seconds since the Unix epoch, zero where the clock stands before
/// it.
pub fn now_seconds(since_epoch: Option<u64>) -> (r: u64)
    ensures
        r == (match since_epoch {
            Some(seconds) => seconds,
            None => 0,
        }),
{
    match since_epoch {
        Some(seconds) => seconds,
        None => 0,
    }
}

/// The name of a clip saved at a given time.
pub fn clip_name(stamp: u64) -> (r: String)
    ensures
        r@ == "clip_"@ + text::decimal(stamp as nat) + ".mp4"@,
{
    let mut r = "clip_".to_owned();
    r.append(text::decimal_text(stamp).as_str());
    r.append(".mp4");
    r
}

/// The path of the mix of a clip: next to it, under its name with `_mix` added.
pub open spec fn mix_path_of(clip: Seq<char>) -> Seq<char> {
    path::renamed(
        clip,
        match path::stem_of(clip) {
            Some(stem) => stem,
            None => "clip"@,
        } + "_mix.mp4"@,
    )
}

/// Names the file that the mix of a clip goes to by default.
pub fn mix_path(clip: &str) -> (r: String)
    ensures
        r@ == mix_path_of(clip@),
{
    let mut name: String = match path::file_stem(clip) {
        Some(stem) => stem,
        None => "clip".to_owned(),
    };
    name.append("_mix.mp4");
    path::with_file_name(clip, name.as_str())
}

/// Whether clips run from the most recent to the oldest.
pub open spec fn by_age<S>(clips: Seq<ClipView<S>>) -> bool {
    forall|i: int, j: int|
        0 <= i < j < clips.len() ==> (#[trigger] clips[i]).created >= (#[trigger] clips[j]).created
}

/// The clips of one creation time, in order.
pub open spec fn of_time<S>(clips: Seq<ClipView<S>>, created: u64) -> Seq<ClipView<S>>
    decreases clips.len(),
{
    if clips.len() == 0 {
        Seq::empty()
    } else if clips.last().created == created {
        of_time(clips.drop_last(), created).push(clips.last())
    } else {
        of_time(clips.drop_last(), created)
    }
}

/// The described clips of a directory, in the order of its entries.
pub open spec fn found<S>(entries: Seq<Entry<S>>, zero: S) -> Seq<ClipView<S>>
    decreases entries.len(),
{
    if entries.len() == 0 {
        Seq::empty()
    } else {
        let before = found(entries.drop_last(), zero);
        let entry = entries.last();
        if is_clip_path(entry.path@) && entry.facts is Some {
            before.push(described(entry.path@, entry.facts->0, entry.meta, zero))
        } else {
            before
        }
    }
}

proof fn of_time_splits<S>(a: Seq<ClipView<S>>, b: Seq<ClipView<S>>, created: u64)
    ensures
        of_time(a + b, created) == of_time(a, created) + of_time(b, created),
    decreases b.len(),
{
    if b.len() == 0 {
        assert(a + b =~= a);
        assert(of_time(a, created) + of_time(b, created) =~= of_time(a, created));
    } else {
        of_time_splits(a, b.drop_last(), created);
        assert((a + b).drop_last() =~= a + b.drop_last());
        assert((a + b).last() == b.last());
        assert(of_time(a + b, created) =~= of_time(a, created) + of_time(b, created));
    }
}

proof fn none_of_time<S>(clips: Seq<ClipView<S>>, created: u64)
    requires
        forall|i: int| 0 <= i < clips.len() ==> (#[trigger] clips[i]).created != created,
    ensures
        of_time(clips, created).len() == 0,
    decreases clips.len(),
{
    if clips.len() > 0 {
        assert(clips[clips.len() - 1].created != created);
        none_of_time(clips.drop_last(), created);
    }
}

proof fn placing_is_stable<S>(clips: Seq<ClipView<S>>, clip: ClipView<S>, created: u64)
    requires
        by_age(clips),
    ensures
        by_age(placed(clips, clip)),
        placed(clips, clip).len() == clips.len() + 1,
        of_time(placed(clips, clip), created) == of_time(clips.push(clip), created),
{
    recent_bounds(clips, clip.created);
    let i = as_recent(clips, clip.created);
    let r = placed(clips, clip);
    let (a, b) = (clips.take(i), clips.skip(i));
    assert forall|x: int, y: int| 0 <= x < y < r.len() implies (#[trigger] r[x]).created >= (
    #[trigger] r[y]).created by {
        if x < i && y > i {
            assert(clips[x].created >= clips[y - 1].created);
        } else if x > i {
            assert(clips[x - 1].created >= clips[y - 1].created);
        } else if y < i {
            assert(clips[x].created >= clips[y].created);
        } else if x == i {
            assert(clips[i].created < clip.created);
            if y - 1 > i {
                assert(clips[i].created >= clips[y - 1].created);
            }
        }
    }
    assert(clips =~= a + b);
    assert(r =~= (a + seq![clip]) + b);
    assert(clips.push(clip) =~= (a + b) + seq![clip]);
    of_time_splits(a, b, created);
    of_time_splits(a + b, seq![clip], created);
    of_time_splits(a, seq![clip], created);
    of_time_splits(a + seq![clip], b, created);
    if clip.created == created {
        assert forall|k: int| 0 <= k < b.len() implies (#[trigger] b[k]).created != created by {
            assert(b[k] == clips[i + k]);
            if k > 0 {
                assert(clips[i].created >= clips[i + k].created);
            }
        }
        none_of_time(b, created);
        assert(of_time(b, created) =~= Seq::<ClipView<S>>::empty());
        assert(of_time(r, created) =~= of_time(clips.push(clip), created));
    } else {
        none_of_time(seq![clip], created);
        assert(of_time(seq![clip], created) =~= Seq::<ClipView<S>>::empty());
        assert(of_time(r, created) =~= of_time(clips.push(clip), created));
    }
}

/// A library lists every clip of its directory once, from the most recent to the
/// oldest; clips of the same time keep the order in which they were found.
pub proof fn listing_is_sorted<S>(entries: Seq<Entry<S>>, zero: S, created: u64)
    ensures
        by_age(listed(entries, zero)),
        listed(entries, zero).len() == found(entries, zero).len(),
        of_time(listed(entries, zero), created) == of_time(found(entries, zero), created),
    decreases entries.len(),
{
    if entries.len() > 0 {
        let before = listed(entries.drop_last(), zero);
        listing_is_sorted(entries.drop_last(), zero, created);
        let entry = entries.last();
        if is_clip_path(entry.path@) && entry.facts is Some {
            let clip = described(entry.path@, entry.facts->0, entry.meta, zero);
            placing_is_stable(before, clip, created);
            let plain = found(entries.drop_last(), zero);
            assert(before.push(clip).drop_last() =~= before);
            assert(plain.push(clip).drop_last() =~= plain);
        }
    }
}

/// The files that go with a clip bear its name, stand next to it, and are neither
/// the clip nor each other: writing or erasing one touches no other.
pub proof fn companions_are_distinct(clip: Seq<char>)
    requires
        is_clip_path(clip),
    ensures
        path::extended(clip, "json"@) != clip,
        path::extended(clip, "png"@) != clip,
        path::extended(clip, "json"@) != path::extended(clip, "png"@),
        path::stem_of(path::extended(clip, "json"@)) == path::stem_of(clip),
        path::stem_of(path::extended(clip, "png"@)) == path::stem_of(clip),
{
    reveal_strlit("json");
    reveal_strlit("png");
    reveal_strlit("mp4");
    path::extension_is_replaced(clip, "json"@);
    path::extension_is_replaced(clip, "png"@);
    let e = path::extension_of(clip)->0;
    assert(text::lower(e).len() == text::lower("mp4"@).len());
    assert("json"@.len() == 4);
    if e == "png"@ {
        assert(text::lower(e)[0] == text::lower("mp4"@)[0]);
        assert(text::lower(e)[0] == 'p');
    }
}

/// A file is a clip where its extension is `mp4`, in whatever case, and only there.
pub proof fn clips_have_their_extension(path: Seq<char>)
    ensures
        is_clip_path(path) <==> (path::extension_of(path) matches Some(e) && e.len() == 3 && (e[0]
            == 'm' || e[0] == 'M') && (e[1] == 'p' || e[1] == 'P') && e[2] == '4'),
{
    reveal_strlit("mp4");
    if let Some(e) = path::extension_of(path) {
        text::case_alone_is_ignored(e, "mp4"@);
        assert("mp4"@.len() == 3);
        assert("mp4"@[0] == 'm' && "mp4"@[1] == 'p' && "mp4"@[2] == '4');
        if text::lower(e) == text::lower("mp4"@) {
            assert(e[0] == 'm' || e[0] as int + 32 == 'm' as int);
            assert(e[1] == 'p' || e[1] as int + 32 == 'p' as int);
            assert(e[2] == '4');
        }
    }
}

/// What is shown of a clip comes from its metadata where there is one, and from its
/// file otherwise; its size and its thumbnail always come from what is on disk.
pub proof fn clips_are_shown_as_they_are<S>(
    path: Seq<char>,
    facts: FileFacts,
    meta: Option<ClipMeta<S>>,
    zero: S,
)
    ensures
        ({
            let clip = described(path, facts, meta, zero);
            &&& clip.path == path
            &&& clip.bytes == facts.bytes
            &&& path::stem_of(path) matches Some(stem) ==> clip.name == stem
            &&& clip.metadata_missing <==> meta is None
            &&& clip.thumbnail is Some <==> facts.has_thumbnail
            &&& clip.thumbnail matches Some(thumbnail) ==> thumbnail == path::extended(
                path,
                "png"@,
            )
            &&& meta matches Some(meta) ==> {
                &&& clip.seconds == meta.seconds
                &&& clip.created == meta.created
                &&& clip.tracks.len() == meta.tracks@.len()
                &&& forall|i: int|
                    0 <= i < clip.tracks.len() ==> #[trigger] clip.tracks[i] == meta.tracks@[i]@
            }
            &&& meta is None ==> {
                &&& clip.seconds == zero
                &&& clip.tracks.len() == 0
                &&& facts.created matches Some(created) ==> clip.created == created
                &&& facts.created is None ==> clip.created == 0
            }
        }),
{
}

/// A library leaves out no clip that can be read and shows nothing else: the listing
/// holds the clip of an entry exactly where the entry has the extension of a clip
/// and could be read, and holds it from the most recent one down.
pub proof fn listing_is_complete<S>(entries: Seq<Entry<S>>, zero: S)
    ensures
        ({
            let clips = listed(entries, zero);
            &&& forall|k: int|
                0 <= k < entries.len() && is_clip_path((#[trigger] entries[k]).path@)
                    && entries[k].facts is Some ==> clips.contains(
                    described(entries[k].path@, entries[k].facts->0, entries[k].meta, zero),
                )
            &&& forall|i: int|
                0 <= i < clips.len() ==> exists|k: int|
                    0 <= k < entries.len() && is_clip_path((#[trigger] entries[k]).path@)
                        && entries[k].facts is Some && #[trigger] clips[i] == described(
                        entries[k].path@,
                        entries[k].facts->0,
                        entries[k].meta,
                        zero,
                    )
            &&& forall|i: int, j: int|
                0 <= i < j < clips.len() ==> (#[trigger] clips[i]).created >= (
                #[trigger] clips[j]).created
        }),
    decreases entries.len(),
{
    let clips = listed(entries, zero);
    listing_is_sorted(entries, zero, 0);
    if entries.len() > 0 {
        let earlier = entries.drop_last();
        let before = listed(earlier, zero);
        let entry = entries.last();
        listing_is_complete(earlier, zero);
        let clip = described(entry.path@, entry.facts->0, entry.meta, zero);
        let at = as_recent(before, clip.created);
        recent_bounds(before, clip.created);
        let taken = is_clip_path(entry.path@) && entry.facts is Some;
        if taken {
            assert(clips == before.insert(at, clip));
            assert(clips[at] == clip);
        }
        assert forall|k: int|
            0 <= k < entries.len() && is_clip_path((#[trigger] entries[k]).path@)
                && entries[k].facts is Some implies clips.contains(
            described(entries[k].path@, entries[k].facts->0, entries[k].meta, zero),
        ) by {
            if k < earlier.len() {
                assert(earlier[k] == entries[k]);
                let wanted = described(
                    entries[k].path@,
                    entries[k].facts->0,
                    entries[k].meta,
                    zero,
                );
                let i = choose|i: int| 0 <= i < before.len() && before[i] == wanted;
                if taken {
                    if i < at {
                        assert(clips[i] == wanted);
                    } else {
                        assert(clips[i + 1] == wanted);
                    }
                }
            }
        }
        assert forall|i: int| 0 <= i < clips.len() implies exists|k: int|
            0 <= k < entries.len() && is_clip_path((#[trigger] entries[k]).path@)
                && entries[k].facts is Some && #[trigger] clips[i] == described(
                entries[k].path@,
                entries[k].facts->0,
                entries[k].meta,
                zero,
            ) by {
            if taken && i == at {
                assert(entries[entries.len() - 1] == entry);
            } else {
                let j = if taken && i > at {
                    i - 1
                } else {
                    i
                };
                assert(clips[i] == before[j]);
                let k = choose|k: int|
                    0 <= k < earlier.len() && is_clip_path((#[trigger] earlier[k]).path@)
                        && earlier[k].facts is Some && before[j] == described(
                        earlier[k].path@,
                        earlier[k].facts->0,
                        earlier[k].meta,
                        zero,
                    );
                assert(entries[k] == earlier[k]);
            }
        }
    }
}

/// The clips of a directory are found entry by entry, one for each entry with the
/// extension of a clip that could be read.
pub proof fn clips_are_found_one_by_one<S>(a: Seq<Entry<S>>, b: Seq<Entry<S>>, zero: S)
    ensures
        found(a + b, zero) == found(a, zero) + found(b, zero),
        a.len() == 1 ==> found(a, zero).len() == (if is_clip_path(a[0].path@) && a[0].facts is Some {
            1nat
        } else {
            0
        }),
    decreases b.len(),
{
    if a.len() == 1 {
        assert(a.drop_last() =~= Seq::<Entry<S>>::empty());
        assert(found(a.drop_last(), zero).len() == 0);
    }
    if b.len() == 0 {
        assert(a + b =~= a);
        assert(found(a, zero) + found(b, zero) =~= found(a, zero));
    } else {
        assert((a + b).drop_last() =~= a + b.drop_last());
        clips_are_found_one_by_one(a, b.drop_last(), zero);
        assert(found(a + b, zero) =~= found(a, zero) + found(b, zero));
    }
}

/// The mix of a clip stands next to it, under the name of the clip with `_mix`
/// behind it: it never replaces the clip.
pub proof fn mixes_stand_next_to_their_clip(
    dir: Seq<char>,
    separator: char,
    stem: Seq<char>,
    extension: Seq<char>,
)
    requires
        separator == '/' || separator == '\\',
        dir.len() > 0,
        dir[0] != '/' && dir[0] != '\\',
        dir.last() != '/' && dir.last() != '\\' && dir.last() != '.' && dir.last() != ':',
        stem.len() > 0,
        path::is_plain(stem + seq!['.'] + extension),
        path::is_extension(extension),
    ensures
        mix_path_of(dir + seq![separator] + (stem + seq!['.'] + extension)) == dir + seq!['\\']
            + (stem + "_mix.mp4"@),
        mix_path_of(stem + seq!['.'] + extension) == stem + "_mix.mp4"@,
{
    let name = stem + seq!['.'] + extension;
    let other = stem + "_mix.mp4"@;
    reveal_strlit("_mix.mp4");
    assert forall|i: int| 0 <= i < other.len() implies !path::is_separator(#[trigger] other[i])
        && other[i] != ':' by {
        if i < stem.len() {
            assert(other[i] == name[i]);
        }
    }
    assert(other.last() == '4');
    path::files_are_named_last(dir, separator, name);
    path::renaming_keeps_the_directory(dir, separator, name, other);
    assert forall|i: int| stem.len() < i < name.len() implies name[i] != '.' by {
        assert(name[i] == extension[i - stem.len() - 1]);
    }
    path::stem_before_dot(name, stem.len() as int);
    assert(name.take(stem.len() as int) =~= stem);
}

/// The views of clips leave nothing out: there is one for each clip, in order, and two
/// clips with the same view are shown alike.
pub proof fn views_tell_clips_apart<S>(s: Seq<Clip<S>>, i: int, other: Clip<S>)
    requires
        0 <= i < s.len(),
        clip_views(s)[i] == other@,
    ensures
        clip_views(s).len() == s.len(),
        s[i].path@ == other.path@,
        s[i].name@ == other.name@,
        s[i].bytes == other.bytes,
        s[i].seconds == other.seconds,
        s[i].tracks@.len() == other.tracks@.len(),
        forall|k: int| 0 <= k < s[i].tracks@.len() ==> #[trigger] s[i].tracks@[k]@
            == other.tracks@[k]@,
        s[i].created == other.created,
        s[i].thumbnail is Some <==> other.thumbnail is Some,
        s[i].thumbnail is Some ==> s[i].thumbnail->0@ == other.thumbnail->0@,
        s[i].metadata_missing == other.metadata_missing,
{
    assert(clip_views(s)[i] == s[i]@);
    let (a, b) = (text::texts(s[i].tracks@), text::texts(other.tracks@));
    assert(a.len() == s[i].tracks@.len() && b.len() == other.tracks@.len());
    assert forall|k: int| 0 <= k < s[i].tracks@.len() implies #[trigger] s[i].tracks@[k]@
        == other.tracks@[k]@ by {
        assert(a[k] == s[i].tracks@[k]@ && b[k] == other.tracks@[k]@);
    }
}

} // verus!
