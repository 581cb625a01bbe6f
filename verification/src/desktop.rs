//! Rules of the desktop interface.
//!
//! What the view shows of tracks, gains and shortcuts is decided here, so that no
//! interface has to decide it again.
use crate::path;
use crate::slots;
use crate::text;
use vstd::prelude::*;

verus! {

/// Milliseconds for which the overlay is shown.
pub const OVERLAY_MS: u64 = 2_600;

/// The shortcut that saves a clip by default.
pub fn default_hotkey() -> (r: String)
    ensures
        r@ == "Ctrl+Shift+X"@,
{
    "Ctrl+Shift+X".to_owned()
}

/// The directory of the clips by default: below that of the user, where it is
/// known, else below that for temporary files.
pub fn default_output(home: Option<String>, temp_dir: &str) -> (r: String)
    ensures
        r@ == (match home {
            Some(home) => path::joined(path::joined(home@, "Videos"@), "SmartClip"@),
            None => path::joined(temp_dir@, "SmartClip"@),
        }),
{
    match home {
        Some(home) => path::join(path::join(home.as_str(), "Videos").as_str(), "SmartClip"),
        None => path::join(temp_dir, "SmartClip"),
    }
}

/// The file of the settings, where the directory for it is known.
pub fn settings_file(app_data: Option<String>) -> (r: Option<String>)
    ensures
        match r {
            Some(file) => app_data is Some && file@ == path::joined(
                path::joined((app_data->0)@, "SmartClip"@),
                "settings.json"@,
            ),
            None => app_data is None,
        },
{
    match app_data {
        Some(base) => Some(
            path::join(path::join(base.as_str(), "SmartClip").as_str(), "settings.json"),
        ),
        None => None,
    }
}

/// Whether a label marks a vacant slot.
pub open spec fn marks_free_slot(label: Seq<char>) -> bool {
    "(libre "@.is_prefix_of(label)
}

/// Tells whether a label marks a vacant slot, such as `(libre 3)`.
pub fn is_free_slot(label: &str) -> (r: bool)
    ensures
        r == marks_free_slot(label@),
{
    text::starts_with(label, "(libre ")
}

/// A track as the view shows it.
#[derive(Debug)]
pub struct TrackView {
    /// Index in the file, which gains refer to. It is not the position on screen
    /// once a vacant slot was left out.
    pub index: usize,
    pub label: String,
}

impl View for TrackView {
    type V = (int, Seq<char>);

    open spec fn view(&self) -> (int, Seq<char>) {
        (self.index as int, self.label@)
    }
}

pub open spec fn track_views(s: Seq<TrackView>) -> Seq<(int, Seq<char>)> {
    Seq::new(s.len(), |i: int| s[i]@)
}

/// The tracks in use among the first `n`, each with its index in the file.
pub open spec fn occupied(labels: Seq<Seq<char>>, n: int) -> Seq<(int, Seq<char>)>
    decreases n,
{
    if n <= 0 {
        Seq::empty()
    } else if marks_free_slot(labels[n - 1]) {
        occupied(labels, n - 1)
    } else {
        occupied(labels, n - 1).push((n - 1, labels[n - 1]))
    }
}

/// Lists the tracks in use, without the vacant slots.
pub fn occupied_tracks(labels: &Vec<String>) -> (r: Vec<TrackView>)
    ensures
        track_views(r@) == occupied(text::texts(labels@), labels@.len() as int),
{
    let mut r: Vec<TrackView> = Vec::new();
    proof {
        assert(track_views(r@) =~= Seq::<(int, Seq<char>)>::empty());
    }
    for i in 0..labels.len()
        invariant
            track_views(r@) == occupied(text::texts(labels@), i as int),
    {
        if !is_free_slot(labels[i].as_str()) {
            let ghost before = r@;
            r.push(TrackView { index: i, label: labels[i].clone() });
            proof {
                assert(track_views(r@) =~= track_views(before).push((i as int, labels@[i as int]@)));
            }
        }
    }
    r
}

/// The label of an extracted track: that of the metadata, or its number, counted
/// from one.
pub open spec fn preview_label(labels: Seq<Seq<char>>, i: int) -> Seq<char> {
    if i < labels.len() {
        labels[i]
    } else {
        "Piste "@ + text::decimal((i + 1) as nat)
    }
}

/// The extracted tracks to show among the first `n`, each with its index. A track
/// without a label is shown.
pub open spec fn previewed(labels: Seq<Seq<char>>, n: int) -> Seq<(int, Seq<char>)>
    decreases n,
{
    if n <= 0 {
        Seq::empty()
    } else if n - 1 < labels.len() && marks_free_slot(labels[n - 1]) {
        previewed(labels, n - 1)
    } else {
        previewed(labels, n - 1).push((n - 1, preview_label(labels, n - 1)))
    }
}

/// Lists the extracted tracks to show, given their number and the labels of the
/// metadata.
pub fn preview_tracks(files: usize, labels: &Vec<String>) -> (r: Vec<TrackView>)
    requires
        files < u64::MAX,
    ensures
        track_views(r@) == previewed(text::texts(labels@), files as int),
{
    let mut r: Vec<TrackView> = Vec::new();
    proof {
        assert(track_views(r@) =~= Seq::<(int, Seq<char>)>::empty());
    }
    for i in 0..files
        invariant
            files < u64::MAX,
            track_views(r@) == previewed(text::texts(labels@), i as int),
    {
        let ghost before = r@;
        if i < labels.len() {
            if !is_free_slot(labels[i].as_str()) {
                r.push(TrackView { index: i, label: labels[i].clone() });
                proof {
                    assert(track_views(r@) =~= track_views(before).push(
                        (i as int, labels@[i as int]@),
                    ));
                }
            }
        } else {
            let mut label = "Piste ".to_owned();
            label.append(text::decimal_text(i as u64 + 1).as_str());
            r.push(TrackView { index: i, label });
            proof {
                assert(track_views(r@) =~= track_views(before).push(
                    (i as int, preview_label(text::texts(labels@), i as int)),
                ));
            }
        }
    }
    r
}

/// The gains of the tracks of a file, from a table of indices and gains: `off`
/// for a track that the table leaves out. An index beyond the tracks is ignored,
/// and of two gains for one track the last holds.
pub open spec fn gains_of<G>(gains: Seq<(usize, G)>, tracks: nat, off: G) -> Seq<G>
    decreases gains.len(),
{
    if gains.len() == 0 {
        Seq::new(tracks, |i: int| off)
    } else {
        let before = gains_of(gains.drop_last(), tracks, off);
        if gains.last().0 < tracks {
            before.update(gains.last().0 as int, gains.last().1)
        } else {
            before
        }
    }
}

/// Sets out the gains of the tracks of a file.
pub fn gain_table<G: Copy>(gains: &Vec<(usize, G)>, tracks: usize, off: G) -> (r: Vec<G>)
    ensures
        r@ == gains_of(gains@, tracks as nat, off),
        r@.len() == tracks,
{
    let mut r: Vec<G> = Vec::new();
    for i in 0..tracks
        invariant
            r@ == Seq::new(i as nat, |j: int| off),
    {
        r.push(off);
        proof {
            assert(r@ =~= Seq::new(i as nat + 1, |j: int| off));
        }
    }
    proof {
        assert(gains@.take(0) =~= Seq::empty());
    }
    for i in 0..gains.len()
        invariant
            r@ == gains_of(gains@.take(i as int), tracks as nat, off),
            r@.len() == tracks,
    {
        proof {
            assert(gains@.take(i + 1).drop_last() =~= gains@.take(i as int));
        }
        let (index, gain) = gains[i];
        if index < tracks {
            r[index] = gain;
        }
    }
    proof {
        assert(gains@.take(gains@.len() as int) =~= gains@);
    }
    r
}

/// Whether a shortcut or a phrase is active, as the view shows it.
#[derive(Debug, Clone)]
pub struct HotkeyStatus {
    pub combination: String,
    pub registered: bool,
    /// Set where it was refused.
    pub error: Option<String>,
}

/// What came of registering a shortcut.
#[derive(Debug)]
pub enum Registration {
    /// The combination could not be read.
    Unreadable,
    /// The system refused it, with a reason.
    Refused(String),
    Done,
}

/// Describes what came of registering a shortcut. A refusal has to be shown:
/// without it the main function could fail silently.
pub fn hotkey_status(combination: &str, registration: Registration) -> (r: HotkeyStatus)
    ensures
        r.combination@ == combination@,
        r.registered == (registration is Done),
        match r.error {
            Some(error) => error@ == (match registration {
                Registration::Refused(reason) => "« "@ + combination@
                    + " » est refusé par Windows, probablement déjà utilisé par une autre application ("@
                    + reason@ + ")"@,
                _ => "combinaison « "@ + combination@ + " » non reconnue"@,
            }) && !(registration is Done),
            None => registration is Done,
        },
{
    let error: Option<String> = match registration {
        Registration::Done => None,
        Registration::Unreadable => {
            let mut error = "combinaison « ".to_owned();
            error.append(combination);
            error.append(" » non reconnue");
            Some(error)
        },
        Registration::Refused(reason) => {
            let mut error = "« ".to_owned();
            error.append(combination);
            error.append(
                " » est refusé par Windows, probablement déjà utilisé par une autre application (",
            );
            error.append(reason.as_str());
            error.append(")");
            Some(error)
        },
    };
    let registered = error.is_none();
    HotkeyStatus { combination: combination.to_owned(), registered, error }
}

/// Whether a phrase asks for listening. A blank one turns it off, which is the
/// default: listening all the time has to be a choice.
pub fn wants_voice(phrase: &str) -> (r: bool)
    ensures
        r == (text::trimmed(phrase@).len() > 0),
{
    text::trim(phrase).as_str().unicode_len() > 0
}

/// Describes what came of listening for a phrase: an error, if it did not start.
pub fn voice_status(phrase: &str, error: Option<String>) -> (r: HotkeyStatus)
    ensures
        r.combination@ == phrase@,
        r.registered == (text::trimmed(phrase@).len() > 0 && error is None),
        r.error == (if text::trimmed(phrase@).len() > 0 {
            error
        } else {
            None
        }),
{
    if !wants_voice(phrase) {
        return HotkeyStatus { combination: phrase.to_owned(), registered: false, error: None };
    }
    let registered = error.is_none();
    HotkeyStatus { combination: phrase.to_owned(), registered, error }
}

/// The text of the notification of a save: its length in seconds, rounded to the
/// nearest.
pub fn saved_text(duration_hns: i64) -> (r: String)
    requires
        0 <= duration_hns,
    ensures
        r@ == text::decimal(((duration_hns + 5_000_000) / 10_000_000) as nat)
            + " secondes sauvegardées"@,
{
    let seconds: u64 = (duration_hns as u64 + 5_000_000) / 10_000_000;
    let mut r = text::decimal_text(seconds);
    r.append(" secondes sauvegardées");
    r
}

/// Where the overlay goes: the upper right corner of the screen, at a margin.
pub fn overlay_position(screen_width: i32, window_width: i32, margin: i32) -> (r: (i32, i32))
    requires
        i32::MIN <= screen_width - window_width <= i32::MAX,
        i32::MIN <= screen_width - window_width - margin <= i32::MAX,
    ensures
        r.0 == screen_width - window_width - margin,
        r.1 == margin,
{
    (screen_width - window_width - margin, margin)
}

/// The directory that the tracks of a clip are extracted to for listening.
pub fn preview_directory(temp_dir: &str, clip: &str) -> (r: String)
    ensures
        r@ == path::joined(
            path::joined(temp_dir@, "smartclip_preview"@),
            match path::stem_of(clip@) {
                Some(stem) => stem,
                None => "clip"@,
            },
        ),
{
    let stem: String = match path::file_stem(clip) {
        Some(stem) => stem,
        None => "clip".to_owned(),
    };
    path::join(path::join(temp_dir, "smartclip_preview").as_str(), stem.as_str())
}

/// The directory to erase once a clip is no longer listened to; none where the
/// path names no file.
pub fn clear_preview(temp_dir: &str, clip: &str) -> (r: Option<String>)
    ensures
        match r {
            Some(directory) => path::stem_of(clip@) is Some && directory@ == path::joined(
                path::joined(temp_dir@, "smartclip_preview"@),
                path::stem_of(clip@)->0,
            ),
            None => path::stem_of(clip@) is None,
        },
{
    match path::file_stem(clip) {
        Some(stem) => Some(
            path::join(path::join(temp_dir, "smartclip_preview").as_str(), stem.as_str()),
        ),
        None => None,
    }
}

/// The label of a vacant slot is recognized as such, so that a vacant slot is
/// never shown as a track.
pub proof fn vacant_slots_are_recognized(table: Seq<Option<slots::SlotView>>, i: int)
    requires
        0 <= i < table.len(),
        table[i] is None,
    ensures
        marks_free_slot(slots::track_label(table, i)),
{
    let label = slots::track_label(table, i);
    let mark = "(libre "@;
    assert(label.subrange(0, mark.len() as int) =~= mark);
}

/// Whoever shows a track by its index reaches the track of that label: what is
/// listed keeps the index that it has in the file, in order, and every track in
/// use is listed.
pub proof fn listed_tracks_keep_their_index(labels: Seq<Seq<char>>, n: int, i: int)
    requires
        0 <= i < n <= labels.len(),
        !marks_free_slot(labels[i]),
    ensures
        occupied(labels, n).contains((i, labels[i])),
        forall|k: int|
            0 <= k < occupied(labels, n).len() ==> 0 <= (#[trigger] occupied(labels, n)[k]).0 < n
                && occupied(labels, n)[k].1 == labels[occupied(labels, n)[k].0],
    decreases n,
{
    listed_come_from_labels(labels, n);
    let now = occupied(labels, n);
    let before = occupied(labels, n - 1);
    if i < n - 1 {
        listed_tracks_keep_their_index(labels, n - 1, i);
        let k = choose|k: int| 0 <= k < before.len() && before[k] == (i, labels[i]);
        assert(now[k] == (i, labels[i]));
    } else {
        assert(now[now.len() - 1] == (i, labels[i]));
    }
}

proof fn listed_come_from_labels(labels: Seq<Seq<char>>, n: int)
    requires
        0 <= n <= labels.len(),
    ensures
        forall|k: int|
            0 <= k < occupied(labels, n).len() ==> 0 <= (#[trigger] occupied(labels, n)[k]).0 < n
                && occupied(labels, n)[k].1 == labels[occupied(labels, n)[k].0],
    decreases n,
{
    if n > 0 {
        listed_come_from_labels(labels, n - 1);
        let before = occupied(labels, n - 1);
        assert forall|k: int| 0 <= k < occupied(labels, n).len() implies 0 <= (
        #[trigger] occupied(labels, n)[k]).0 < n && occupied(labels, n)[k].1 == labels[occupied(
            labels,
            n,
        )[k].0] by {
            if k < before.len() {
                assert(occupied(labels, n)[k] == before[k]);
            }
        }
    }
}

/// A track that no entry of a table of gains names is off, and one that an entry
/// names has the gain of the last such entry.
pub proof fn unnamed_tracks_are_off<G>(gains: Seq<(usize, G)>, tracks: nat, off: G, track: int)
    requires
        0 <= track < tracks,
    ensures
        gains_of(gains, tracks, off).len() == tracks,
        (forall|i: int| 0 <= i < gains.len() ==> (#[trigger] gains[i]).0 != track) ==> gains_of(
            gains,
            tracks,
            off,
        )[track] == off,
        forall|k: int|
            0 <= k < gains.len() && (#[trigger] gains[k]).0 == track && (forall|i: int|
                k < i < gains.len() ==> (#[trigger] gains[i]).0 != track) ==> gains_of(
                gains,
                tracks,
                off,
            )[track] == gains[k].1,
    decreases gains.len(),
{
    if gains.len() > 0 {
        let before = gains.drop_last();
        unnamed_tracks_are_off(before, tracks, off, track);
        assert(gains[gains.len() - 1] == gains.last());
        assert forall|i: int| 0 <= i < before.len() implies #[trigger] before[i] == gains[i] by {}
        assert forall|k: int|
            0 <= k < gains.len() && (#[trigger] gains[k]).0 == track && (forall|i: int|
                k < i < gains.len() ==> (#[trigger] gains[i]).0 != track) implies gains_of(
            gains,
            tracks,
            off,
        )[track] == gains[k].1 by {
            if k < gains.len() - 1 {
                assert(gains[gains.len() - 1].0 != track);
                assert(before[k].0 == track);
                assert forall|i: int| k < i < before.len() implies (#[trigger] before[i]).0
                    != track by {
                    assert(gains[i].0 != track);
                }
            }
        }
        if forall|i: int| 0 <= i < gains.len() ==> (#[trigger] gains[i]).0 != track {
            assert forall|i: int| 0 <= i < before.len() implies (#[trigger] before[i]).0
                != track by {
                assert(gains[i].0 != track);
            }
        }
    }
}

/// A label marks a vacant slot where it begins with the mark, and only there.
pub proof fn marks_come_first(label: Seq<char>, rest: Seq<char>)
    ensures
        marks_free_slot("(libre "@ + rest),
        marks_free_slot(label) ==> label == "(libre "@ + label.skip(7),
{
    reveal_strlit("(libre ");
    let marked = "(libre "@ + rest;
    assert(marked.subrange(0, 7) =~= "(libre "@);
    if marks_free_slot(label) {
        assert(label =~= label.subrange(0, 7) + label.skip(7));
    }
}

/// The tracks in use are listed, all of them, once and in the order of the file,
/// each under its label and with its index; a vacant slot is not.
pub proof fn only_tracks_in_use_are_listed(labels: Seq<Seq<char>>, n: int)
    requires
        0 <= n <= labels.len(),
    ensures
        ({
            let listed = occupied(labels, n);
            &&& forall|i: int, label: Seq<char>|
                #[trigger] listed.contains((i, label)) <==> 0 <= i < n && labels[i] == label
                    && !("(libre "@.is_prefix_of(label))
            &&& forall|a: int, b: int|
                0 <= a < b < listed.len() ==> (#[trigger] listed[a]).0 < (#[trigger] listed[b]).0
        }),
    decreases n,
{
    let listed = occupied(labels, n);
    if n > 0 {
        let before = occupied(labels, n - 1);
        only_tracks_in_use_are_listed(labels, n - 1);
        listed_come_from_labels(labels, n - 1);
        assert forall|i: int, label: Seq<char>|
            #[trigger] listed.contains((i, label)) <==> 0 <= i < n && labels[i] == label && !(
            "(libre "@.is_prefix_of(label)) by {
            let entry = (i, label);
            if before.contains(entry) {
                let k = choose|k: int| 0 <= k < before.len() && before[k] == entry;
                assert(listed[k] == entry);
            }
            if listed.contains(entry) {
                let k = choose|k: int| 0 <= k < listed.len() && listed[k] == entry;
                if k < before.len() {
                    assert(before[k] == entry);
                }
            }
            if i == n - 1 && labels[i] == label && !marks_free_slot(label) {
                assert(listed[listed.len() - 1] == entry);
            }
        }
    }
}

/// The extracted tracks are listed in order, each with its index: a track that the
/// metadata name is shown under its label, unless that marks a vacant slot, and a
/// track beyond them under its number, counted from one.
pub proof fn extracted_tracks_are_listed(labels: Seq<Seq<char>>, n: int)
    requires
        0 <= n,
    ensures
        ({
            let listed = previewed(labels, n);
            &&& forall|i: int, label: Seq<char>|
                #[trigger] listed.contains((i, label)) <==> 0 <= i < n && (if i < labels.len() {
                    labels[i] == label && !("(libre "@.is_prefix_of(label))
                } else {
                    label == "Piste "@ + text::decimal((i + 1) as nat)
                })
            &&& forall|a: int, b: int|
                0 <= a < b < listed.len() ==> (#[trigger] listed[a]).0 < (#[trigger] listed[b]).0
        }),
    decreases n,
{
    let listed = previewed(labels, n);
    if n > 0 {
        let before = previewed(labels, n - 1);
        extracted_tracks_are_listed(labels, n - 1);
        assert forall|k: int| 0 <= k < before.len() implies (#[trigger] before[k]).0 < n - 1 by {
            assert(before.contains((before[k].0, before[k].1)));
        }
        assert forall|i: int, label: Seq<char>|
            #[trigger] listed.contains((i, label)) <==> 0 <= i < n && (if i < labels.len() {
                labels[i] == label && !("(libre "@.is_prefix_of(label))
            } else {
                label == "Piste "@ + text::decimal((i + 1) as nat)
            }) by {
            let entry = (i, label);
            if before.contains(entry) {
                let k = choose|k: int| 0 <= k < before.len() && before[k] == entry;
                assert(listed[k] == entry);
            }
            if listed.contains(entry) {
                let k = choose|k: int| 0 <= k < listed.len() && listed[k] == entry;
                if k < before.len() {
                    assert(before[k] == entry);
                }
            }
            if i == n - 1 && listed.len() > before.len() {
                assert(listed[listed.len() - 1] == (i, preview_label(labels, i)));
            }
        }
    }
}

/// The views of tracks leave nothing out: there is one for each track, in order, with
/// its index and its label.
pub proof fn views_tell_tracks_apart(s: Seq<TrackView>, i: int)
    requires
        0 <= i < s.len(),
    ensures
        track_views(s).len() == s.len(),
        track_views(s)[i].0 == s[i].index,
        track_views(s)[i].1 == s[i].label@,
{
}

} // verus!
