//! Discovery and capture of sound sources, one track per application.
//!
//! The sessions of the output device are enumerated and one capture is opened
//! per executable, without any configuration.
use crate::clock::{QpcInstant, hns_of_ticks};
use crate::path;
use crate::text;
use crate::{CHANNELS, SAMPLE_RATE, hns_since_boot};
use vstd::prelude::*;

verus! {

/// Format tag of uncompressed floating-point sound, fixed by the RIFF format.
pub const WAVE_FORMAT_IEEE_FLOAT: u16 = 3;

/// A packet of sound on the common timeline.
#[derive(Debug)]
pub struct AudioChunk {
    pub track: usize,
    /// Interleaved 16-bit samples, the only format that the encoder takes.
    pub pcm: Vec<i16>,
    /// Position in units of 100 ns since the machine started.
    pub boot_hns: i64,
}

/// An identified sound source, as the editor shows it.
#[derive(Debug, Clone)]
pub struct Source {
    /// Label to display, unique in a session.
    pub label: String,
    /// Executable that it comes from.
    pub process: String,
    /// `None` for the microphone, which is captured by another path.
    pub pid: Option<u32>,
    /// Input device of a microphone, `None` for the default one.
    pub device: Option<String>,
}

/// Equality of executable names: the system does not normalise their case.
pub open spec fn same_process(a: Seq<char>, b: Seq<char>) -> bool {
    text::lower(a) == text::lower(b)
}

/// Executables that open a sound session without producing anything of use:
/// device drivers, vendor suites, capture overlays.
pub open spec fn is_utility_name(process: Seq<char>) -> bool {
    ||| same_process(process, "amdnoisesuppression.exe"@)
    ||| same_process(process, "amdrsserv.exe"@)
    ||| same_process(process, "amdow.exe"@)
    ||| same_process(process, "nvcontainer.exe"@)
    ||| same_process(process, "nvidia share.exe"@)
    ||| same_process(process, "nvidia web helper.exe"@)
    ||| same_process(process, "roccat_swarm_monitor.exe"@)
    ||| same_process(process, "icue.exe"@)
    ||| same_process(process, "logioptionsplus_agent.exe"@)
    ||| same_process(process, "steelseriesengine.exe"@)
    ||| same_process(process, "razer synapse service.exe"@)
    ||| same_process(process, "audiodg.exe"@)
    ||| same_process(process, "voicemeeter.exe"@)
    ||| same_process(process, "steamwebhelper.exe"@)
}

/// The category of an executable.
pub open spec fn category(process: Seq<char>) -> Seq<char> {
    if same_process(process, "discord.exe"@) || same_process(process, "vencord.exe"@)
        || same_process(process, "ts3client_win64.exe"@) || same_process(
        process,
        "teamspeak.exe"@,
    ) {
        "Discord"@
    } else if same_process(process, "spotify.exe"@) || same_process(process, "applemusic.exe"@)
        || same_process(process, "itunes.exe"@) || same_process(process, "foobar2000.exe"@) {
        "Musique"@
    } else if same_process(process, "chrome.exe"@) || same_process(process, "firefox.exe"@)
        || same_process(process, "msedge.exe"@) || same_process(process, "brave.exe"@) {
        "Navigateur"@
    } else {
        "Jeu"@
    }
}

/// Whether an executable is one of the utilities that never get a track.
///
/// The list need not be complete: an unknown one simply shows up in the mixer.
pub fn is_utility(process: &str) -> (r: bool)
    ensures
        r == is_utility_name(process@),
{
    text::eq_ignore_ascii_case(process, "amdnoisesuppression.exe")
        || text::eq_ignore_ascii_case(process, "amdrsserv.exe")
        || text::eq_ignore_ascii_case(process, "amdow.exe")
        || text::eq_ignore_ascii_case(process, "nvcontainer.exe")
        || text::eq_ignore_ascii_case(process, "nvidia share.exe")
        || text::eq_ignore_ascii_case(process, "nvidia web helper.exe")
        || text::eq_ignore_ascii_case(process, "roccat_swarm_monitor.exe")
        || text::eq_ignore_ascii_case(process, "icue.exe")
        || text::eq_ignore_ascii_case(process, "logioptionsplus_agent.exe")
        || text::eq_ignore_ascii_case(process, "steelseriesengine.exe")
        || text::eq_ignore_ascii_case(process, "razer synapse service.exe")
        || text::eq_ignore_ascii_case(process, "audiodg.exe")
        || text::eq_ignore_ascii_case(process, "voicemeeter.exe")
        || text::eq_ignore_ascii_case(process, "steamwebhelper.exe")
}

/// Classifies an executable.
///
/// Unknown ones fall into "Jeu": here, the noisy application that nobody knows
/// is the game. Nothing is ever lost.
pub fn classify(process: &str) -> (r: &'static str)
    ensures
        r@ == category(process@),
{
    if text::eq_ignore_ascii_case(process, "discord.exe")
        || text::eq_ignore_ascii_case(process, "vencord.exe")
        || text::eq_ignore_ascii_case(process, "ts3client_win64.exe")
        || text::eq_ignore_ascii_case(process, "teamspeak.exe") {
        "Discord"
    } else if text::eq_ignore_ascii_case(process, "spotify.exe")
        || text::eq_ignore_ascii_case(process, "applemusic.exe")
        || text::eq_ignore_ascii_case(process, "itunes.exe")
        || text::eq_ignore_ascii_case(process, "foobar2000.exe") {
        "Musique"
    } else if text::eq_ignore_ascii_case(process, "chrome.exe")
        || text::eq_ignore_ascii_case(process, "firefox.exe")
        || text::eq_ignore_ascii_case(process, "msedge.exe")
        || text::eq_ignore_ascii_case(process, "brave.exe") {
        "Navigateur"
    } else {
        "Jeu"
    }
}

/// The name of an executable, taken from the full path of its image.
pub fn process_name(image: &str) -> (r: Option<String>)
    ensures
        match r {
            Some(name) => path::file_name_of(image@) == Some(name@),
            None => path::file_name_of(image@) is None,
        },
{
    path::file_name(image)
}

/// What discovery reads of a sound session: the process that plays, and the
/// name of its executable where it could be read.
#[derive(Debug)]
pub struct Session {
    pub pid: u32,
    pub process: Option<String>,
}

/// The name under which the process of a session is known.
pub open spec fn session_process(pid: u32, process: Option<String>) -> Seq<char> {
    match process {
        Some(name) => name@,
        None => "pid "@ + text::decimal(pid as nat),
    }
}

/// A source as text.
#[verifier::ext_equal]
pub struct SourceView {
    pub label: Seq<char>,
    pub process: Seq<char>,
    pub pid: Option<u32>,
    pub device: Option<Seq<char>>,
}

impl View for Source {
    type V = SourceView;

    open spec fn view(&self) -> SourceView {
        SourceView {
            label: self.label@,
            process: self.process@,
            pid: self.pid,
            device: match self.device {
                Some(device) => Some(device@),
                None => None,
            },
        }
    }
}

pub open spec fn source_views(s: Seq<Source>) -> Seq<SourceView> {
    Seq::new(s.len(), |i: int| s[i]@)
}

/// Whether an executable has a place among sources already.
pub open spec fn has_place(found: Seq<(Seq<char>, u32)>, process: Seq<char>) -> bool {
    exists|i: int| 0 <= i < found.len() && same_process(#[trigger] found[i].0, process)
}

/// The executables found after one more session, in order.
///
/// Neither the idle process, nor this program, nor utilities get a place, and
/// an executable gets one only: the capture covers a whole process tree, so a
/// second place would bring nothing but a second fader of the same name.
pub open spec fn considered(
    found: Seq<(Seq<char>, u32)>,
    pid: u32,
    process: Seq<char>,
    self_pid: u32,
    max: nat,
) -> Seq<(Seq<char>, u32)> {
    if found.len() >= max || pid == 0 || pid == self_pid || is_utility_name(process) || has_place(
        found,
        process,
    ) {
        found
    } else {
        found.push((process, pid))
    }
}

/// The executables found in a list of sessions, in order.
pub open spec fn found_in(sessions: Seq<Session>, self_pid: u32, max: nat) -> Seq<(Seq<char>, u32)>
    decreases sessions.len(),
{
    if sessions.len() == 0 {
        Seq::empty()
    } else {
        considered(
            found_in(sessions.drop_last(), self_pid, max),
            sessions.last().pid,
            session_process(sessions.last().pid, sessions.last().process),
            self_pid,
            max,
        )
    }
}

/// Sources for a list of executables, each under the label of its category.
pub open spec fn labelled(found: Seq<(Seq<char>, u32)>) -> Seq<SourceView> {
    Seq::new(
        found.len(),
        |i: int|
            SourceView {
                label: category(found[i].0),
                process: found[i].0,
                pid: Some(found[i].1),
                device: None,
            },
    )
}

/// How many sources bear a label.
pub open spec fn label_count(s: Seq<SourceView>, label: Seq<char>) -> nat
    decreases s.len(),
{
    if s.len() == 0 {
        0
    } else {
        label_count(s.drop_last(), label) + if s.last().label == label {
            1nat
        } else {
            0nat
        }
    }
}

/// An executable name without the `.exe` at its end.
pub open spec fn short_name(process: Seq<char>) -> Seq<char> {
    text::without_suffix(process, ".exe"@)
}

/// Whether another executable bears the same label and has the same short name.
pub open spec fn shares_short_name(s: Seq<SourceView>, i: int) -> bool {
    exists|j: int|
        0 <= j < s.len() && (#[trigger] s[j]).label == s[i].label && s[j].process != s[i].process
            && short_name(s[j].process) == short_name(s[i].process)
}

/// The name that tells a source from the others of its label: the short one,
/// unless another has the same.
pub open spec fn telling_name(s: Seq<SourceView>, i: int) -> Seq<char> {
    if shares_short_name(s, i) {
        s[i].process
    } else {
        short_name(s[i].process)
    }
}

/// The label that a source gets among others: its own where nobody shares it,
/// else followed by the name of the executable.
pub open spec fn distinct_label(s: Seq<SourceView>, i: int) -> Seq<char> {
    if label_count(s, s[i].label) > 1 {
        s[i].label + " ("@ + telling_name(s, i) + ")"@
    } else {
        s[i].label
    }
}

/// Sources after their labels were made distinct.
pub open spec fn disambiguated(s: Seq<SourceView>) -> Seq<SourceView> {
    Seq::new(s.len(), |i: int| SourceView { label: distinct_label(s, i), ..s[i] })
}

fn count_label(sources: &Vec<Source>, label: &str) -> (r: usize)
    ensures
        r == label_count(source_views(sources@), label@),
        r <= sources@.len(),
{
    let ghost s = source_views(sources@);
    let mut r: usize = 0;
    for i in 0..sources.len()
        invariant
            s == source_views(sources@),
            r == label_count(s.take(i as int), label@),
            r <= i,
    {
        proof {
            assert(s.take(i + 1).drop_last() =~= s.take(i as int));
        }
        if text::same(sources[i].label.as_str(), label) {
            r = r + 1;
        }
    }
    proof {
        assert(s.take(s.len() as int) =~= s);
    }
    r
}

fn has_namesake(sources: &Vec<Source>, i: usize) -> (r: bool)
    requires
        i < sources@.len(),
    ensures
        r == shares_short_name(source_views(sources@), i as int),
{
    let ghost s = source_views(sources@);
    let short = text::trim_end_matches(sources[i].process.as_str(), ".exe");
    for j in 0..sources.len()
        invariant
            i < sources@.len(),
            s == source_views(sources@),
            short@ == short_name(s[i as int].process),
            forall|k: int|
                0 <= k < j && (#[trigger] s[k]).label == s[i as int].label && s[k].process
                    != s[i as int].process ==> short_name(s[k].process) != short@,
    {
        if text::same(sources[j].label.as_str(), sources[i].label.as_str()) && !text::same(
            sources[j].process.as_str(),
            sources[i].process.as_str(),
        ) && text::same(
            text::trim_end_matches(sources[j].process.as_str(), ".exe").as_str(),
            short.as_str(),
        ) {
            proof {
                assert(s[j as int].label == s[i as int].label);
            }
            return true;
        }
    }
    false
}

fn distinct_label_of(sources: &Vec<Source>, i: usize) -> (r: String)
    requires
        i < sources@.len(),
    ensures
        r@ == distinct_label(source_views(sources@), i as int),
{
    let mut label = sources[i].label.clone();
    if count_label(sources, sources[i].label.as_str()) > 1 {
        label.append(" (");
        if has_namesake(sources, i) {
            label.append(sources[i].process.as_str());
        } else {
            label.append(text::trim_end_matches(sources[i].process.as_str(), ".exe").as_str());
        }
        label.append(")");
    }
    label
}

/// Makes labels distinct.
///
/// Several applications often share a category. Where one repeats, the name of
/// the executable is added; where it stands alone the short label is kept. The
/// name goes without its `.exe`, unless that would make two of them the same.
pub fn disambiguate(sources: &mut Vec<Source>)
    ensures
        source_views(final(sources)@) == disambiguated(source_views(old(sources)@)),
{
    let ghost before = source_views(sources@);
    let mut labels: Vec<String> = Vec::new();
    for i in 0..sources.len()
        invariant
            before == source_views(sources@),
            labels@.len() == i,
            forall|j: int| 0 <= j < i ==> (#[trigger] labels@[j])@ == distinct_label(before, j),
    {
        let label = distinct_label_of(sources, i);
        labels.push(label);
    }
    let n: usize = sources.len();
    for i in 0..n
        invariant
            n == before.len(),
            sources@.len() == before.len(),
            labels@.len() == before.len(),
            forall|j: int|
                0 <= j < before.len() ==> (#[trigger] labels@[j])@ == distinct_label(before, j),
            forall|j: int|
                0 <= j < i ==> (#[trigger] sources@[j])@ == disambiguated(before)[j],
            forall|j: int| i <= j < sources@.len() ==> (#[trigger] sources@[j])@ == before[j],
    {
        sources[i].label = labels[i].clone();
    }
    proof {
        assert(source_views(sources@) =~= disambiguated(before));
    }
}

/// A discovery under way: sessions are offered one by one.
pub struct Discovery {
    found: Vec<Source>,
    self_pid: u32,
    max: usize,
}

impl Discovery {
    /// The executables found so far, with the process of each.
    pub closed spec fn places(self) -> Seq<(Seq<char>, u32)> {
        Seq::new(self.found@.len(), |i: int| (self.found@[i].process@, self.found@[i].pid->0))
    }

    pub closed spec fn own_pid(self) -> u32 {
        self.self_pid
    }

    pub closed spec fn capacity(self) -> nat {
        self.max as nat
    }

    #[verifier::type_invariant]
    spec fn well_formed(self) -> bool {
        source_views(self.found@) == labelled(self.places())
    }

    pub fn new(self_pid: u32, max: usize) -> (r: Self)
        ensures
            r.places() == Seq::<(Seq<char>, u32)>::empty(),
            r.own_pid() == self_pid,
            r.capacity() == max,
    {
        let found: Vec<Source> = Vec::new();
        proof {
            assert(source_views(found@) =~= labelled(Seq::empty()));
            assert(Seq::new(0, |i: int| (found@[i].process@, found@[i].pid->0)) =~= Seq::empty());
        }
        Discovery { found, self_pid, max }
    }

    /// Whether there is no place left.
    pub fn is_full(&self) -> (r: bool)
        ensures
            r == (self.places().len() >= self.capacity()),
    {
        self.found.len() >= self.max
    }

    /// Whether a process can be a source at all. This program cannot: opening a
    /// capture opens a session, which would then be taken for an application.
    pub fn wants(&self, pid: u32) -> (r: bool)
        ensures
            r == (pid != 0 && pid != self.own_pid()),
    {
        pid != 0 && pid != self.self_pid
    }

    fn holds(&self, process: &str) -> (r: bool)
        ensures
            r == has_place(self.places(), process@),
    {
        for i in 0..self.found.len()
            invariant
                forall|j: int|
                    0 <= j < i ==> !same_process(#[trigger] self.places()[j].0, process@),
        {
            if text::eq_ignore_ascii_case(self.found[i].process.as_str(), process) {
                proof {
                    assert(same_process(self.places()[i as int].0, process@));
                }
                return true;
            }
        }
        false
    }

    /// Considers the process of one more session. `process` is the name of its
    /// executable, where it could be read.
    pub fn offer(&mut self, pid: u32, process: Option<String>)
        ensures
            final(self).places() == considered(
                old(self).places(),
                pid,
                session_process(pid, process),
                old(self).own_pid(),
                old(self).capacity(),
            ),
            final(self).own_pid() == old(self).own_pid(),
            final(self).capacity() == old(self).capacity(),
            ({
                let name = match process {
                    Some(name) => name@,
                    None => "pid "@ + text::decimal(pid as nat),
                };
                let taken = {
                    &&& old(self).places().len() < old(self).capacity()
                    &&& pid != 0 && pid != old(self).own_pid()
                    &&& !is_utility_name(name)
                    &&& forall|j: int|
                        0 <= j < old(self).places().len() ==> text::lower(
                            #[trigger] old(self).places()[j].0,
                        ) != text::lower(name)
                };
                &&& taken ==> final(self).places() == old(self).places().push((name, pid))
                &&& !taken ==> final(self).places() == old(self).places()
            }),
    {
        if self.is_full() || !self.wants(pid) {
            return;
        }
        let name: String = match process {
            Some(name) => name,
            None => {
                let mut name = "pid ".to_owned();
                name.append(text::decimal_text(pid as u64).as_str());
                name
            },
        };
        if is_utility(name.as_str()) || self.holds(name.as_str()) {
            return;
        }
        let ghost before = self.places();
        let ghost sources = self.found@;
        proof {
            use_type_invariant(&*self);
        }
        let label = classify(name.as_str()).to_owned();
        let source = Source { label, process: name, pid: Some(pid), device: None };
        let mut found: Vec<Source> = Vec::new();
        proof {
            assert(source_views(found@) =~= labelled(Seq::empty()));
            assert(Seq::new(0, |i: int| (found@[i].process@, found@[i].pid->0)) =~= Seq::empty());
        }
        std::mem::swap(&mut found, &mut self.found);
        found.push(source);
        proof {
            let places = before.push((source.process@, pid));
            assert(found@ =~= sources.push(source));
            assert(Seq::new(found@.len(), |i: int| (found@[i].process@, found@[i].pid->0))
                =~= places);
            assert forall|i: int| 0 <= i < found@.len() implies source_views(found@)[i]
                == #[trigger] labelled(places)[i] by {
                if i < sources.len() {
                    assert(source_views(sources)[i] == labelled(before)[i]);
                }
            }
            assert(source_views(found@) =~= labelled(places));
        }
        self.found = found;
    }

    /// The sources found, under distinct labels.
    pub fn finish(self) -> (r: Vec<Source>)
        ensures
            source_views(r@) == disambiguated(labelled(self.places())),
    {
        proof {
            use_type_invariant(&self);
        }
        let mut found = self.found;
        disambiguate(&mut found);
        found
    }
}

/// Picks the sources among the sessions of the output device: at most `max`
/// executables that play sound, in order.
pub fn discover(sessions: Vec<Session>, self_pid: u32, max: usize) -> (r: Vec<Source>)
    ensures
        source_views(r@) == disambiguated(labelled(found_in(sessions@, self_pid, max as nat))),
        r@.len() <= max,
        r@.len() < max ==> forall|k: int|
            0 <= k < sessions@.len() && (#[trigger] sessions@[k]).pid != 0 && sessions@[k].pid
                != self_pid && !is_utility_name(
                session_process(sessions@[k].pid, sessions@[k].process),
            ) ==> exists|j: int|
                0 <= j < r@.len() && text::lower(#[trigger] source_views(r@)[j].process)
                    == text::lower(session_process(sessions@[k].pid, sessions@[k].process)),
{
    let ghost all = sessions@;
    let mut discovery = Discovery::new(self_pid, max);
    let mut left = sessions;
    let ghost mut done: int = 0;
    proof {
        assert(all.take(0) =~= Seq::empty());
        assert(all.skip(0) =~= all);
    }
    while left.len() > 0
        invariant
            0 <= done <= all.len(),
            left@ == all.skip(done),
            discovery.places() == found_in(all.take(done), self_pid, max as nat),
            discovery.own_pid() == self_pid,
            discovery.capacity() == max,
        decreases left.len(),
    {
        let session = left.remove(0);
        let Session { pid, process } = session;
        proof {
            assert(all.take(done + 1).drop_last() =~= all.take(done));
            assert(left@ =~= all.skip(done + 1));
            done = done + 1;
        }
        discovery.offer(pid, process);
    }
    proof {
        assert(all.take(done) =~= all);
        places_stay_distinct(all, self_pid, max as nat);
        discovery_is_complete(all, self_pid, max as nat);
        assert(forall|k: int|
            0 <= k < all.len() ==> session_process((#[trigger] all[k]).pid, all[k].process) == (
            match all[k].process {
                Some(name) => name@,
                None => "pid "@ + text::decimal(all[k].pid as nat),
            }));
    }
    discovery.finish()
}

/// A sample format, in the terms of the RIFF format.
#[derive(Debug, Clone, Copy, PartialEq, Eq, Structural)]
pub struct WaveFormat {
    pub format_tag: u16,
    pub channels: u16,
    pub samples_per_second: u32,
    pub bytes_per_second: u32,
    pub block_align: u16,
    pub bits_per_sample: u16,
    pub extra_bytes: u16,
}

/// The format that every capture is opened with: 32-bit floating-point stereo.
pub fn work_format() -> (r: WaveFormat)
    ensures
        r == (WaveFormat {
            format_tag: 3,
            channels: 2,
            samples_per_second: 48_000,
            bytes_per_second: 384_000,
            block_align: 8,
            bits_per_sample: 32,
            extra_bytes: 0,
        }),
{
    WaveFormat {
        format_tag: WAVE_FORMAT_IEEE_FLOAT,
        channels: CHANNELS,
        samples_per_second: SAMPLE_RATE,
        bytes_per_second: SAMPLE_RATE * CHANNELS as u32 * 4,
        block_align: CHANNELS * 4,
        bits_per_sample: 32,
        extra_bytes: 0,
    }
}

/// What to make of a packet of sound.
#[derive(Debug, Clone, Copy, PartialEq, Eq, Structural)]
pub struct PacketPlan {
    /// Whether the packet stands for silence, whatever its buffer holds.
    pub silent: bool,
    /// Interleaved samples in the packet.
    pub samples: usize,
    /// Position in units of 100 ns since the machine started.
    pub boot_hns: i64,
}

/// Reads the header of a packet: its number of frames, its flags, whether it
/// comes with a buffer, and its counter position.
pub fn packet(frames: u32, flags: u32, has_data: bool, position: u64, frequency: i64) -> (r:
    PacketPlan)
    requires
        frequency != 0,
        frames * 2 <= usize::MAX,
    ensures
        r.silent == ((flags / 2) % 2 == 1 || !has_data),
        r.samples == frames * 2,
        r.boot_hns == hns_of_ticks(
            if position <= i64::MAX {
                position as int
            } else {
                position - 0x1_0000_0000_0000_0000
            },
            frequency as int,
        ) as i64,
{
    proof {
        assert((flags & 0x2 != 0) == ((flags / 2) % 2 == 1)) by (bit_vector);
    }
    PacketPlan {
        silent: flags & 0x2 != 0 || !has_data,
        samples: frames as usize * CHANNELS as usize,
        boot_hns: hns_since_boot(QpcInstant::from_u64(position).0, frequency),
    }
}

/// A run of silent samples.
pub fn silence(samples: usize) -> (r: Vec<i16>)
    ensures
        r@ == Seq::new(samples as nat, |i: int| 0i16),
{
    let mut r: Vec<i16> = Vec::new();
    for i in 0..samples
        invariant
            r@ == Seq::new(i as nat, |j: int| 0i16),
    {
        r.push(0);
        proof {
            assert(r@ =~= Seq::new(i as nat + 1, |j: int| 0i16));
        }
    }
    r
}

/// What became of a chunk handed to the muxer.
#[derive(Debug, Clone, Copy, PartialEq, Eq, Structural)]
pub enum Delivery {
    Sent,
    /// The queue of the track is full.
    Full,
    /// Nobody listens any more.
    Disconnected,
}

/// What happened to a capture.
#[derive(Debug, Clone, Copy, PartialEq, Eq, Structural)]
pub enum SourceEvent {
    /// The stop flag was read.
    StopFlag(bool),
    /// The wait for the device ended, with or without its signal.
    Waited(bool),
    /// Size of the next packet, zero where there is none.
    NextPacket(u32),
    /// A packet was fetched and handed to the muxer.
    Delivered(Delivery),
}

/// What a capture does next.
#[derive(Debug, Clone, Copy, PartialEq, Eq, Structural)]
pub enum SourceAction {
    ReadStopFlag,
    /// Wait for the signal of the device, at most 200 ms, so that a device that
    /// falls silent does not keep the stop flag from being read.
    Wait,
    PeekPacket,
    FetchPacket,
    /// Stop the device and end.
    StopDevice,
    /// End at once.
    Leave,
}

/// What follows an event.
pub open spec fn source_action(event: SourceEvent) -> SourceAction {
    match event {
        SourceEvent::StopFlag(stop) => if stop {
            SourceAction::StopDevice
        } else {
            SourceAction::Wait
        },
        SourceEvent::Waited(signalled) => if signalled {
            SourceAction::PeekPacket
        } else {
            SourceAction::ReadStopFlag
        },
        SourceEvent::NextPacket(size) => if size > 0 {
            SourceAction::FetchPacket
        } else {
            SourceAction::ReadStopFlag
        },
        SourceEvent::Delivered(delivery) => if delivery == Delivery::Disconnected {
            SourceAction::Leave
        } else {
            SourceAction::PeekPacket
        },
    }
}

/// The warning about packets that were dropped.
pub open spec fn dropped_warning(track: nat, dropped: nat) -> Seq<char> {
    "piste "@ + text::decimal(track) + " : "@ + text::decimal(dropped)
        + " paquet(s) écarté(s), le muxeur ne suit pas"@
}

/// The capture of one source.
#[derive(Debug)]
pub struct SourceLoop {
    pub track: usize,
    /// Packets dropped so far.
    pub dropped: u64,
}

impl SourceLoop {
    pub fn new(track: usize) -> (r: Self)
        ensures
            r == (SourceLoop { track, dropped: 0 }),
    {
        SourceLoop { track, dropped: 0 }
    }

    /// Decides what follows an event, and what to warn about.
    ///
    /// Chunks go to a bounded queue without waiting. A muxer that stops taking
    /// them costs packets, which is counted, rather than memory without end.
    /// The first of every 500 losses is reported.
    pub fn next(&mut self, event: SourceEvent) -> (r: (SourceAction, Option<String>))
        requires
            old(self).dropped < u64::MAX,
        ensures
            r.0 == source_action(event),
            final(self).track == old(self).track,
            final(self).dropped == old(self).dropped + (if event == SourceEvent::Delivered(
                Delivery::Full,
            ) {
                1int
            } else {
                0
            }),
            match r.1 {
                Some(warning) => {
                    &&& event == SourceEvent::Delivered(Delivery::Full)
                    &&& final(self).dropped % 500 == 1
                    &&& warning@ == dropped_warning(
                        old(self).track as nat,
                        final(self).dropped as nat,
                    )
                },
                None => !(event == SourceEvent::Delivered(Delivery::Full) && final(self).dropped
                    % 500 == 1),
            },
    {
        match event {
            SourceEvent::StopFlag(stop) => {
                if stop {
                    (SourceAction::StopDevice, None)
                } else {
                    (SourceAction::Wait, None)
                }
            },
            SourceEvent::Waited(signalled) => {
                if signalled {
                    (SourceAction::PeekPacket, None)
                } else {
                    (SourceAction::ReadStopFlag, None)
                }
            },
            SourceEvent::NextPacket(size) => {
                if size > 0 {
                    (SourceAction::FetchPacket, None)
                } else {
                    (SourceAction::ReadStopFlag, None)
                }
            },
            SourceEvent::Delivered(delivery) => match delivery {
                Delivery::Sent => (SourceAction::PeekPacket, None),
                Delivery::Disconnected => (SourceAction::Leave, None),
                Delivery::Full => {
                    self.dropped = self.dropped + 1;
                    if self.dropped % 500 == 1 {
                        let mut warning = "piste ".to_owned();
                        warning.append(text::decimal_text(self.track as u64).as_str());
                        warning.append(" : ");
                        warning.append(text::decimal_text(self.dropped).as_str());
                        warning.append(" paquet(s) écarté(s), le muxeur ne suit pas");
                        (SourceAction::PeekPacket, Some(warning))
                    } else {
                        (SourceAction::PeekPacket, None)
                    }
                },
            },
        }
    }
}

/// Whether sources bear distinct labels.
pub open spec fn labels_are_distinct(s: Seq<SourceView>) -> bool {
    forall|i: int, j: int| 0 <= i < j < s.len() ==> #[trigger] s[i].label != #[trigger] s[j].label
}

proof fn categories_have_no_space(process: Seq<char>)
    ensures
        forall|i: int| 0 <= i < category(process).len() ==> #[trigger] category(process)[i] != ' ',
{
    reveal_strlit("Discord");
    reveal_strlit("Musique");
    reveal_strlit("Navigateur");
    reveal_strlit("Jeu");
}

proof fn shared_label_counts(s: Seq<SourceView>, i: int, j: int)
    requires
        0 <= i < j < s.len(),
        s[i].label == s[j].label,
    ensures
        label_count(s, s[i].label) > 1,
    decreases s.len(),
{
    if j < s.len() - 1 {
        shared_label_counts(s.drop_last(), i, j);
    } else {
        label_occurs(s.drop_last(), i);
    }
}

proof fn label_occurs(s: Seq<SourceView>, i: int)
    requires
        0 <= i < s.len(),
    ensures
        label_count(s, s[i].label) > 0,
    decreases s.len(),
{
    if i < s.len() - 1 {
        label_occurs(s.drop_last(), i);
    }
}

/// Two executables that share a label are told apart by their names.
proof fn telling_names_differ(s: Seq<SourceView>, i: int, j: int)
    requires
        0 <= i < s.len(),
        0 <= j < s.len(),
        i != j,
        s[i].label == s[j].label,
        s[i].process != s[j].process,
    ensures
        telling_name(s, i) != telling_name(s, j),
{
    let (a, b) = (s[i].process, s[j].process);
    if short_name(a) == short_name(b) {
        assert(shares_short_name(s, i));
        assert(shares_short_name(s, j));
    } else {
        // A short name is its own short name, so a full name that equals one
        // would share it.
        text::suffix_is_gone(a, ".exe"@);
        text::suffix_is_gone(b, ".exe"@);
    }
}

/// Labels are unique in a session: no two sources that were found end up under
/// the same label.
pub proof fn labels_become_distinct(found: Seq<(Seq<char>, u32)>)
    requires
        forall|i: int, j: int|
            0 <= i < j < found.len() ==> #[trigger] found[i].0 != #[trigger] found[j].0,
    ensures
        labels_are_distinct(disambiguated(labelled(found))),
{
    let s = labelled(found);
    let r = disambiguated(s);
    reveal_strlit(" (");
    reveal_strlit(")");
    assert forall|i: int, j: int| 0 <= i < j < r.len() implies #[trigger] r[i].label
        != #[trigger] r[j].label by {
        let (a, b) = (s[i].label, s[j].label);
        let (x, y) = (telling_name(s, i), telling_name(s, j));
        categories_have_no_space(found[i].0);
        categories_have_no_space(found[j].0);
        if a == b {
            shared_label_counts(s, i, j);
            assert(found[i].0 == s[i].process && found[j].0 == s[j].process);
            telling_names_differ(s, i, j);
            if r[i].label == r[j].label {
                assert forall|k: int| 0 <= k < x.len() && x.len() == y.len() implies x[k]
                    == y[k] by {
                    assert(r[i].label[a.len() + 2 + k] == x[k]);
                    assert(r[j].label[a.len() + 2 + k] == y[k]);
                }
                assert(r[i].label.len() == a.len() + x.len() + 3);
                assert(r[j].label.len() == a.len() + y.len() + 3);
                assert(x =~= y);
            }
        } else {
            if r[i].label == r[j].label {
                let t = r[i].label;
                assert(t.len() >= a.len() && t.len() >= b.len());
                assert forall|k: int| 0 <= k < a.len() implies t[k] == a[k] by {}
                assert forall|k: int| 0 <= k < b.len() implies t[k] == b[k] by {}
                if a.len() < b.len() {
                    if t.len() > a.len() {
                        assert(t[a.len() as int] == ' ');
                        assert(b[a.len() as int] == ' ');
                    }
                } else if b.len() < a.len() {
                    if t.len() > b.len() {
                        assert(t[b.len() as int] == ' ');
                        assert(a[b.len() as int] == ' ');
                    }
                } else {
                    assert(a =~= b);
                }
            }
        }
    }
}

proof fn places_stay_distinct(sessions: Seq<Session>, self_pid: u32, max: nat)
    ensures
        ({
            let found = found_in(sessions, self_pid, max);
            &&& forall|i: int, j: int|
                0 <= i < j < found.len() ==> !same_process(
                    #[trigger] found[i].0,
                    #[trigger] found[j].0,
                )
            &&& forall|i: int|
                0 <= i < found.len() ==> !is_utility_name((#[trigger] found[i]).0) && found[i].1
                    != 0 && found[i].1 != self_pid
            &&& found.len() <= max
        }),
    decreases sessions.len(),
{
    if sessions.len() > 0 {
        places_stay_distinct(sessions.drop_last(), self_pid, max);
    }
}

/// Discovery gives no executable two tracks and no two tracks one label, gives
/// none to a utility, to the idle process or to this program, and stays within the
/// number of tracks.
pub proof fn discovery_is_selective(sessions: Seq<Session>, self_pid: u32, max: nat)
    ensures
        ({
            let found = disambiguated(labelled(found_in(sessions, self_pid, max)));
            &&& found.len() <= max
            &&& labels_are_distinct(found)
            &&& forall|i: int, j: int|
                0 <= i < j < found.len() ==> !same_process(
                    #[trigger] found[i].process,
                    #[trigger] found[j].process,
                )
            &&& forall|i: int|
                0 <= i < found.len() ==> !is_utility_name((#[trigger] found[i]).process)
                    && found[i].pid != Some(0u32) && found[i].pid != Some(self_pid)
        }),
{
    places_stay_distinct(sessions, self_pid, max);
    let places = found_in(sessions, self_pid, max);
    let found = disambiguated(labelled(places));
    assert forall|i: int, j: int| 0 <= i < j < places.len() implies #[trigger] places[i].0
        != #[trigger] places[j].0 by {
        assert(!same_process(places[i].0, places[j].0));
    }
    labels_become_distinct(places);
    assert forall|i: int, j: int| 0 <= i < j < found.len() implies !same_process(
        #[trigger] found[i].process,
        #[trigger] found[j].process,
    ) by {
        assert(found[i].process == places[i].0 && found[j].process == places[j].0);
    }
    assert forall|i: int| 0 <= i < found.len() implies !is_utility_name(
        (#[trigger] found[i]).process,
    ) && found[i].pid != Some(0u32) && found[i].pid != Some(self_pid) by {
        assert(found[i].process == places[i].0);
    }
}

/// Discovery is complete: of the sessions whose process is neither the idle one nor
/// this program, and whose executable is no utility, each has a track among the
/// sources, up to the case of its name, unless all the tracks are taken.
pub proof fn discovery_is_complete(sessions: Seq<Session>, self_pid: u32, max: nat)
    ensures
        ({
            let found = disambiguated(labelled(found_in(sessions, self_pid, max)));
            found.len() < max ==> forall|k: int|
                0 <= k < sessions.len() && (#[trigger] sessions[k]).pid != 0 && sessions[k].pid
                    != self_pid ==> {
                    let name = match sessions[k].process {
                        Some(name) => name@,
                        None => "pid "@ + text::decimal(sessions[k].pid as nat),
                    };
                    !is_utility_name(name) ==> exists|j: int|
                        0 <= j < found.len() && text::lower(#[trigger] found[j].process)
                            == text::lower(name)
                }
        }),
    decreases sessions.len(),
{
    let places = found_in(sessions, self_pid, max);
    let found = disambiguated(labelled(places));
    if found.len() < max && sessions.len() > 0 {
        let earlier = sessions.drop_last();
        let before = found_in(earlier, self_pid, max);
        let found_before = disambiguated(labelled(before));
        places_stay_distinct(earlier, self_pid, max);
        discovery_is_complete(earlier, self_pid, max);
        assert(before.is_prefix_of(places));
        assert forall|k: int|
            0 <= k < sessions.len() && (#[trigger] sessions[k]).pid != 0 && sessions[k].pid
                != self_pid implies ({
            let name = match sessions[k].process {
                Some(name) => name@,
                None => "pid "@ + text::decimal(sessions[k].pid as nat),
            };
            !is_utility_name(name) ==> exists|j: int|
                0 <= j < found.len() && text::lower(#[trigger] found[j].process) == text::lower(
                    name,
                )
        }) by {
            let name = session_process(sessions[k].pid, sessions[k].process);
            if !is_utility_name(name) {
                if k < earlier.len() {
                    assert(earlier[k] == sessions[k]);
                    let j = choose|j: int|
                        0 <= j < found_before.len() && text::lower(
                            #[trigger] found_before[j].process,
                        ) == text::lower(name);
                    assert(before[j] == places[j]);
                    assert(found[j].process == found_before[j].process);
                } else if has_place(before, name) {
                    let j = choose|j: int|
                        0 <= j < before.len() && same_process(#[trigger] before[j].0, name);
                    assert(before[j] == places[j]);
                    assert(found[j].process == places[j].0);
                } else {
                    let j = places.len() - 1;
                    assert(places[j].0 == name);
                    assert(found[j].process == places[j].0);
                }
            }
        }
    }
}

/// Discovery makes nothing up: each source is the process of a session, under the
/// name that the session has, and was found where the sources before it had been
/// found already. What was found in the first sessions stays, in its place, when
/// more of them come.
pub proof fn discovery_goes_by_sessions(
    sessions: Seq<Session>,
    self_pid: u32,
    max: nat,
    n: int,
    j: int,
)
    requires
        0 <= n <= sessions.len(),
    ensures
        ({
            let found = found_in(sessions, self_pid, max);
            &&& found_in(sessions.take(n), self_pid, max).is_prefix_of(found)
            &&& 0 <= j < found.len() ==> exists|k: int|
                {
                    &&& 0 <= k < sessions.len()
                    &&& found[j].1 == (#[trigger] sessions[k]).pid
                    &&& sessions[k].process matches Some(name) ==> found[j].0 == name@
                    &&& sessions[k].process is None ==> found[j].0 == "pid "@ + text::decimal(
                        sessions[k].pid as nat,
                    )
                    &&& found_in(sessions.take(k), self_pid, max) == found.take(j)
                }
        }),
    decreases sessions.len(),
{
    let found = found_in(sessions, self_pid, max);
    if sessions.len() > 0 {
        let earlier = sessions.drop_last();
        let before = found_in(earlier, self_pid, max);
        let m = if n < sessions.len() {
            n
        } else {
            n - 1
        };
        discovery_goes_by_sessions(earlier, self_pid, max, m, j);
        assert(earlier.take(m) =~= sessions.take(m));
        assert(sessions.take(sessions.len() as int) =~= sessions);
        assert(before.is_prefix_of(found));
        let part = found_in(sessions.take(m), self_pid, max);
        assert(part.is_prefix_of(found)) by {
            assert(part =~= found.take(part.len() as int));
        }
        if 0 <= j < before.len() {
            let k = choose|k: int|
                {
                    &&& 0 <= k < earlier.len()
                    &&& before[j].1 == (#[trigger] earlier[k]).pid
                    &&& earlier[k].process matches Some(name) ==> before[j].0 == name@
                    &&& earlier[k].process is None ==> before[j].0 == "pid "@ + text::decimal(
                        earlier[k].pid as nat,
                    )
                    &&& found_in(earlier.take(k), self_pid, max) == before.take(j)
                };
            assert(earlier.take(k) =~= sessions.take(k));
            assert(before.take(j) =~= found.take(j));
            assert(sessions[k] == earlier[k]);
        } else if 0 <= j < found.len() {
            let k = sessions.len() - 1;
            assert(sessions.take(k) =~= earlier);
            assert(found.take(j) =~= before);
            assert(sessions[k] == sessions.last());
        }
    } else {
        assert(sessions.take(n) =~= sessions);
    }
}

/// The utilities are the listed executables, whatever the case of their names, and
/// no others.
pub proof fn utilities_are_listed(process: Seq<char>)
    ensures
        ({
            let listed = seq![
                "amdnoisesuppression.exe"@,
                "amdrsserv.exe"@,
                "amdow.exe"@,
                "nvcontainer.exe"@,
                "nvidia share.exe"@,
                "nvidia web helper.exe"@,
                "roccat_swarm_monitor.exe"@,
                "icue.exe"@,
                "logioptionsplus_agent.exe"@,
                "steelseriesengine.exe"@,
                "razer synapse service.exe"@,
                "audiodg.exe"@,
                "voicemeeter.exe"@,
                "steamwebhelper.exe"@,
            ];
            is_utility_name(process) <==> exists|i: int|
                0 <= i < listed.len() && text::lower(#[trigger] listed[i]) == text::lower(process)
        }),
{
    let listed = seq![
        "amdnoisesuppression.exe"@,
        "amdrsserv.exe"@,
        "amdow.exe"@,
        "nvcontainer.exe"@,
        "nvidia share.exe"@,
        "nvidia web helper.exe"@,
        "roccat_swarm_monitor.exe"@,
        "icue.exe"@,
        "logioptionsplus_agent.exe"@,
        "steelseriesengine.exe"@,
        "razer synapse service.exe"@,
        "audiodg.exe"@,
        "voicemeeter.exe"@,
        "steamwebhelper.exe"@,
    ];
    assert(listed.len() == 14);
    assert(listed[0] == "amdnoisesuppression.exe"@);
    assert(listed[1] == "amdrsserv.exe"@);
    assert(listed[2] == "amdow.exe"@);
    assert(listed[3] == "nvcontainer.exe"@);
    assert(listed[4] == "nvidia share.exe"@);
    assert(listed[5] == "nvidia web helper.exe"@);
    assert(listed[6] == "roccat_swarm_monitor.exe"@);
    assert(listed[7] == "icue.exe"@);
    assert(listed[8] == "logioptionsplus_agent.exe"@);
    assert(listed[9] == "steelseriesengine.exe"@);
    assert(listed[10] == "razer synapse service.exe"@);
    assert(listed[11] == "audiodg.exe"@);
    assert(listed[12] == "voicemeeter.exe"@);
    assert(listed[13] == "steamwebhelper.exe"@);
}

/// Every executable has one category of four, and the case of its name does not
/// matter: voice, music and browsers have theirs by name, all others are games.
pub proof fn categories_go_by_name(process: Seq<char>, other: Seq<char>)
    ensures
        text::lower(process) == text::lower(other) ==> category(process) == category(other),
        ({
            let voice = seq![
                "discord.exe"@,
                "vencord.exe"@,
                "ts3client_win64.exe"@,
                "teamspeak.exe"@,
            ];
            let music = seq![
                "spotify.exe"@,
                "applemusic.exe"@,
                "itunes.exe"@,
                "foobar2000.exe"@,
            ];
            let browsers = seq!["chrome.exe"@, "firefox.exe"@, "msedge.exe"@, "brave.exe"@];
            &&& (exists|i: int|
                0 <= i < 4 && text::lower(#[trigger] voice[i]) == text::lower(process))
                ==> category(process) == "Discord"@
            &&& (exists|i: int|
                0 <= i < 4 && text::lower(#[trigger] music[i]) == text::lower(process))
                ==> category(process) == "Musique"@
            &&& (exists|i: int|
                0 <= i < 4 && text::lower(#[trigger] browsers[i]) == text::lower(process))
                ==> category(process) == "Navigateur"@
            &&& (forall|i: int|
                0 <= i < 4 ==> text::lower(#[trigger] voice[i]) != text::lower(process)
                    && text::lower(music[i]) != text::lower(process) && text::lower(browsers[i])
                    != text::lower(process)) ==> category(process) == "Jeu"@
        }),
{
    let voice = seq!["discord.exe"@, "vencord.exe"@, "ts3client_win64.exe"@, "teamspeak.exe"@];
    let music = seq!["spotify.exe"@, "applemusic.exe"@, "itunes.exe"@, "foobar2000.exe"@];
    let browsers = seq!["chrome.exe"@, "firefox.exe"@, "msedge.exe"@, "brave.exe"@];
    reveal_strlit("discord.exe");
    reveal_strlit("vencord.exe");
    reveal_strlit("ts3client_win64.exe");
    reveal_strlit("teamspeak.exe");
    reveal_strlit("spotify.exe");
    reveal_strlit("applemusic.exe");
    reveal_strlit("itunes.exe");
    reveal_strlit("foobar2000.exe");
    reveal_strlit("chrome.exe");
    reveal_strlit("firefox.exe");
    reveal_strlit("msedge.exe");
    reveal_strlit("brave.exe");
    assert(text::lower("discord.exe"@)[0] == 'd');
    assert(text::lower("vencord.exe"@)[0] == 'v');
    assert(text::lower("ts3client_win64.exe"@)[0] == 't');
    assert(text::lower("teamspeak.exe"@)[0] == 't');
    assert(text::lower("spotify.exe"@)[0] == 's');
    assert(text::lower("applemusic.exe"@)[0] == 'a');
    assert(text::lower("itunes.exe"@)[0] == 'i');
    assert(text::lower("foobar2000.exe"@)[0] == 'f');
    assert(text::lower("chrome.exe"@)[0] == 'c');
    assert(text::lower("firefox.exe"@)[0] == 'f');
    assert(text::lower("msedge.exe"@)[0] == 'm');
    assert(text::lower("brave.exe"@)[0] == 'b');
    assert(text::lower("foobar2000.exe"@).len() != text::lower("firefox.exe"@).len());
    assert(voice[0] == "discord.exe"@ && voice[1] == "vencord.exe"@);
    assert(voice[2] == "ts3client_win64.exe"@ && voice[3] == "teamspeak.exe"@);
    assert(music[0] == "spotify.exe"@ && music[1] == "applemusic.exe"@);
    assert(music[2] == "itunes.exe"@ && music[3] == "foobar2000.exe"@);
    assert(browsers[0] == "chrome.exe"@ && browsers[1] == "firefox.exe"@);
    assert(browsers[2] == "msedge.exe"@ && browsers[3] == "brave.exe"@);
}

proof fn lone_label_counts_once(s: Seq<SourceView>, i: int)
    requires
        0 <= i < s.len(),
        forall|j: int| 0 <= j < s.len() && j != i ==> (#[trigger] s[j]).label != s[i].label,
    ensures
        label_count(s, s[i].label) == 1,
    decreases s.len(),
{
    if i < s.len() - 1 {
        assert(s[s.len() - 1] == s.last());
        lone_label_counts_once(s.drop_last(), i);
    } else {
        unused_label_counts_not(s.drop_last(), s[i].label);
    }
}

proof fn unused_label_counts_not(s: Seq<SourceView>, label: Seq<char>)
    requires
        forall|j: int| 0 <= j < s.len() ==> (#[trigger] s[j]).label != label,
    ensures
        label_count(s, label) == 0,
    decreases s.len(),
{
    if s.len() > 0 {
        assert(s[s.len() - 1] == s.last());
        unused_label_counts_not(s.drop_last(), label);
    }
}

/// A source keeps its label where no other bears it. Where another does, the name
/// of its executable follows the label in brackets: without `.exe`, or in full where
/// an executable of the same label has the same name but for that. Nothing else
/// of a source changes.
pub proof fn shared_labels_are_told_apart(s: Seq<SourceView>, i: int)
    requires
        0 <= i < s.len(),
    ensures
        ({
            let r = disambiguated(s)[i];
            let short = text::without_suffix(s[i].process, ".exe"@);
            let alone = forall|j: int|
                0 <= j < s.len() && j != i ==> (#[trigger] s[j]).label != s[i].label;
            let telling = forall|j: int|
                0 <= j < s.len() && (#[trigger] s[j]).label == s[i].label && text::without_suffix(
                    s[j].process,
                    ".exe"@,
                ) == short ==> s[j].process == s[i].process;
            &&& disambiguated(s).len() == s.len()
            &&& r.process == s[i].process && r.pid == s[i].pid && r.device == s[i].device
            &&& alone ==> r.label == s[i].label
            &&& !alone && telling ==> r.label == s[i].label + " ("@ + short + ")"@
            &&& !alone && !telling ==> r.label == s[i].label + " ("@ + s[i].process + ")"@
        }),
{
    if forall|j: int| 0 <= j < s.len() && j != i ==> (#[trigger] s[j]).label != s[i].label {
        lone_label_counts_once(s, i);
    } else {
        let j = choose|j: int| 0 <= j < s.len() && j != i && (#[trigger] s[j]).label == s[i].label;
        if i < j {
            shared_label_counts(s, i, j);
        } else {
            shared_label_counts(s, j, i);
        }
    }
}

/// The sources of a discovery are captured by process, not by device, each under
/// the category of its executable.
pub proof fn sources_bear_their_category(found: Seq<(Seq<char>, u32)>, i: int)
    requires
        0 <= i < found.len(),
    ensures
        labelled(found).len() == found.len(),
        labelled(found)[i].label == category(found[i].0),
        labelled(found)[i].process == found[i].0,
        labelled(found)[i].pid == Some(found[i].1),
        labelled(found)[i].device is None,
{
}

/// A capture ends in two ways only: in good order when its stop flag is set, and at
/// once when nobody listens any more; a full queue does not end it. It fetches a
/// packet exactly where there is one, looks for the next one after each, and reads
/// its stop flag whenever there is nothing to fetch.
pub proof fn captures_end_when_told(event: SourceEvent)
    ensures
        source_action(event) == SourceAction::StopDevice <==> event == SourceEvent::StopFlag(true),
        source_action(event) == SourceAction::Leave <==> event == SourceEvent::Delivered(
            Delivery::Disconnected,
        ),
        source_action(event) == SourceAction::Wait <==> event == SourceEvent::StopFlag(false),
        source_action(event) == SourceAction::FetchPacket <==> (event matches
            SourceEvent::NextPacket(size) && size > 0),
        source_action(event) == SourceAction::ReadStopFlag <==> event == SourceEvent::Waited(false)
            || event == SourceEvent::NextPacket(0),
        source_action(event) == SourceAction::PeekPacket <==> event == SourceEvent::Waited(true)
            || event == SourceEvent::Delivered(Delivery::Sent) || event == SourceEvent::Delivered(
            Delivery::Full,
        ),
{
}

/// The views of sources leave nothing out: there is one for each source, in order,
/// and two sources with the same view have the same label, executable, process and
/// device.
pub proof fn views_tell_sources_apart(s: Seq<Source>, i: int, other: Source)
    requires
        0 <= i < s.len(),
        source_views(s)[i] == other@,
    ensures
        source_views(s).len() == s.len(),
        s[i].label@ == other.label@,
        s[i].process@ == other.process@,
        s[i].pid == other.pid,
        s[i].device is Some <==> other.device is Some,
        s[i].device is Some ==> s[i].device->0@ == other.device->0@,
{
    assert(source_views(s)[i] == s[i]@);
}

/// The warning about packets that were lost names the track before their number.
pub proof fn warnings_name_the_track_first(track: nat, dropped: nat)
    ensures
        ("piste "@ + text::decimal(track) + " : "@ + text::decimal(dropped)).is_prefix_of(
            dropped_warning(track, dropped),
        ),
{
    let front = "piste "@ + text::decimal(track) + " : "@ + text::decimal(dropped);
    text::ends_stay_at_the_end(front, " paquet(s) écarté(s), le muxeur ne suit pas"@);
}

} // verus!
