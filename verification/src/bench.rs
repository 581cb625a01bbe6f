//! Options of the measures.
//!
//! Four measures can be taken on a machine: of the picture encoder, of the sound
//! sources, of their synchronisation, and of the ring. Each has options of its own.
use crate::cli::{CliError, MEGABYTE};
use crate::meter::VideoPts;
use crate::text;
use vstd::prelude::*;

verus! {

/// What is measured.
#[derive(Debug, Clone, Copy, PartialEq, Eq, Structural)]
pub enum Measure {
    Video,
    Sound,
    Sync,
    Ring,
}

pub open spec fn measure_of(s: Seq<char>) -> Option<Measure> {
    if s == "video"@ {
        Some(Measure::Video)
    } else if s == "sound"@ {
        Some(Measure::Sound)
    } else if s == "sync"@ {
        Some(Measure::Sync)
    } else if s == "ring"@ {
        Some(Measure::Ring)
    } else {
        None
    }
}

/// Reads the name of a measure.
pub fn measure(s: &str) -> (r: Option<Measure>)
    ensures
        r == measure_of(s@),
{
    if text::same(s, "video") {
        Some(Measure::Video)
    } else if text::same(s, "sound") {
        Some(Measure::Sound)
    } else if text::same(s, "sync") {
        Some(Measure::Sync)
    } else if text::same(s, "ring") {
        Some(Measure::Ring)
    } else {
        None
    }
}

/// Options of the measures.
#[derive(Debug, Clone, Copy, PartialEq, Eq, Structural)]
pub enum BenchFlag {
    Minutes,
    Seconds,
    Fps,
    Bitrate,
    RateControl,
    Out,
    Outdir,
    Workdir,
    NoLoopback,
    NoMicrophone,
    DiscoverOnly,
    ActivateOnly,
    MaxSources,
    Pts,
    Buffer,
    MaxMb,
    Segment,
}

/// The option of a given name, whichever measure has it.
pub open spec fn named(s: Seq<char>) -> Option<BenchFlag> {
    if s == "--minutes"@ {
        Some(BenchFlag::Minutes)
    } else if s == "--seconds"@ {
        Some(BenchFlag::Seconds)
    } else if s == "--fps"@ {
        Some(BenchFlag::Fps)
    } else if s == "--bitrate"@ {
        Some(BenchFlag::Bitrate)
    } else if s == "--rc"@ {
        Some(BenchFlag::RateControl)
    } else if s == "--out"@ {
        Some(BenchFlag::Out)
    } else if s == "--outdir"@ {
        Some(BenchFlag::Outdir)
    } else if s == "--workdir"@ {
        Some(BenchFlag::Workdir)
    } else if s == "--no-loopback"@ {
        Some(BenchFlag::NoLoopback)
    } else if s == "--no-mic"@ {
        Some(BenchFlag::NoMicrophone)
    } else if s == "--discover-only"@ {
        Some(BenchFlag::DiscoverOnly)
    } else if s == "--activate-only"@ {
        Some(BenchFlag::ActivateOnly)
    } else if s == "--max-sources"@ {
        Some(BenchFlag::MaxSources)
    } else if s == "--video-pts"@ {
        Some(BenchFlag::Pts)
    } else if s == "--buffer"@ {
        Some(BenchFlag::Buffer)
    } else if s == "--max-mb"@ {
        Some(BenchFlag::MaxMb)
    } else if s == "--segment"@ {
        Some(BenchFlag::Segment)
    } else {
        None
    }
}

fn name(s: &str) -> (r: Option<BenchFlag>)
    ensures
        r == named(s@),
{
    if text::same(s, "--minutes") {
        Some(BenchFlag::Minutes)
    } else if text::same(s, "--seconds") {
        Some(BenchFlag::Seconds)
    } else if text::same(s, "--fps") {
        Some(BenchFlag::Fps)
    } else if text::same(s, "--bitrate") {
        Some(BenchFlag::Bitrate)
    } else if text::same(s, "--rc") {
        Some(BenchFlag::RateControl)
    } else if text::same(s, "--out") {
        Some(BenchFlag::Out)
    } else if text::same(s, "--outdir") {
        Some(BenchFlag::Outdir)
    } else if text::same(s, "--workdir") {
        Some(BenchFlag::Workdir)
    } else if text::same(s, "--no-loopback") {
        Some(BenchFlag::NoLoopback)
    } else if text::same(s, "--no-mic") {
        Some(BenchFlag::NoMicrophone)
    } else if text::same(s, "--discover-only") {
        Some(BenchFlag::DiscoverOnly)
    } else if text::same(s, "--activate-only") {
        Some(BenchFlag::ActivateOnly)
    } else if text::same(s, "--max-sources") {
        Some(BenchFlag::MaxSources)
    } else if text::same(s, "--video-pts") {
        Some(BenchFlag::Pts)
    } else if text::same(s, "--buffer") {
        Some(BenchFlag::Buffer)
    } else if text::same(s, "--max-mb") {
        Some(BenchFlag::MaxMb)
    } else if text::same(s, "--segment") {
        Some(BenchFlag::Segment)
    } else {
        None
    }
}

/// Whether a measure has an option.
pub open spec fn has(measure: Measure, flag: BenchFlag) -> bool {
    match flag {
        BenchFlag::Minutes | BenchFlag::Fps | BenchFlag::Bitrate => measure != Measure::Sound,
        BenchFlag::RateControl => measure == Measure::Video,
        BenchFlag::Out => measure == Measure::Video || measure == Measure::Sync,
        BenchFlag::MaxSources => measure == Measure::Sync || measure == Measure::Ring,
        BenchFlag::Pts => measure == Measure::Sync,
        BenchFlag::Buffer | BenchFlag::MaxMb | BenchFlag::Segment | BenchFlag::Workdir => measure
            == Measure::Ring,
        _ => measure == Measure::Sound,
    }
}

fn allows(measure: Measure, flag: BenchFlag) -> (r: bool)
    ensures
        r == has(measure, flag),
{
    match flag {
        BenchFlag::Minutes => measure != Measure::Sound,
        BenchFlag::Fps => measure != Measure::Sound,
        BenchFlag::Bitrate => measure != Measure::Sound,
        BenchFlag::RateControl => measure == Measure::Video,
        BenchFlag::Out => measure == Measure::Video || measure == Measure::Sync,
        BenchFlag::MaxSources => measure == Measure::Sync || measure == Measure::Ring,
        BenchFlag::Pts => measure == Measure::Sync,
        BenchFlag::Buffer => measure == Measure::Ring,
        BenchFlag::MaxMb => measure == Measure::Ring,
        BenchFlag::Segment => measure == Measure::Ring,
        BenchFlag::Workdir => measure == Measure::Ring,
        BenchFlag::Seconds => measure == Measure::Sound,
        BenchFlag::Outdir => measure == Measure::Sound,
        BenchFlag::NoLoopback => measure == Measure::Sound,
        BenchFlag::NoMicrophone => measure == Measure::Sound,
        BenchFlag::DiscoverOnly => measure == Measure::Sound,
        BenchFlag::ActivateOnly => measure == Measure::Sound,
    }
}

/// The option of a measure that a text names, if any.
pub open spec fn bench_flag(measure: Measure, s: Seq<char>) -> Option<BenchFlag> {
    match named(s) {
        Some(flag) => if has(measure, flag) {
            Some(flag)
        } else {
            None
        },
        None => None,
    }
}

/// Whether an option stands alone.
pub open spec fn is_switch(flag: BenchFlag) -> bool {
    flag == BenchFlag::NoLoopback || flag == BenchFlag::NoMicrophone || flag
        == BenchFlag::DiscoverOnly || flag == BenchFlag::ActivateOnly
}

/// The largest number that an option takes; options without a number take none.
pub open spec fn bench_bound(flag: BenchFlag) -> Option<nat> {
    match flag {
        BenchFlag::Fps | BenchFlag::Bitrate | BenchFlag::RateControl => Some(u32::MAX as nat),
        BenchFlag::Seconds => Some(u64::MAX as nat),
        BenchFlag::MaxSources => Some(usize::MAX as nat),
        BenchFlag::MaxMb => Some((u64::MAX / MEGABYTE) as nat),
        _ => None,
    }
}

/// The source of picture times that a text names, if any.
pub open spec fn pts_of(s: Seq<char>) -> Option<VideoPts> {
    if s == "qpc"@ {
        Some(VideoPts::Qpc)
    } else if s == "cfr"@ {
        Some(VideoPts::Cfr)
    } else {
        None
    }
}

/// The value of an option.
#[derive(Debug)]
pub enum BenchValue {
    /// Handed on as it stands: a path, or a length of time.
    Text(String),
    Number(u64),
    Pts(VideoPts),
    /// The option has none.
    Nothing,
}

/// An option with its value.
#[derive(Debug)]
pub struct BenchOption {
    pub flag: BenchFlag,
    pub value: BenchValue,
}

/// The option at an index of the arguments, with its value as text; an option
/// that stands alone has an empty one.
pub open spec fn option_text(args: Seq<String>, i: int, flag: BenchFlag) -> Seq<char> {
    if is_switch(flag) {
        Seq::empty()
    } else {
        args[i + 1]@
    }
}

/// Whether a value is what the text of an option denotes.
pub open spec fn denotes(flag: BenchFlag, s: Seq<char>, value: BenchValue) -> bool {
    match value {
        BenchValue::Nothing => is_switch(flag),
        BenchValue::Text(text) => !is_switch(flag) && bench_bound(flag) is None && flag
            != BenchFlag::Pts && text@ == s,
        BenchValue::Number(n) => match bench_bound(flag) {
            Some(bound) => match text::unsigned(s, bound) {
                Some(read) => n == (if flag == BenchFlag::MaxMb {
                    read * MEGABYTE as nat
                } else {
                    read
                }),
                None => false,
            },
            None => false,
        },
        BenchValue::Pts(pts) => flag == BenchFlag::Pts && pts_of(s) == Some(pts),
    }
}

/// Reads the option of a measure at an index of the arguments. It takes two of
/// them, or one where it stands alone.
pub fn bench_option_at(measure: Measure, args: &Vec<String>, i: usize) -> (r: Result<
    BenchOption,
    CliError,
>)
    requires
        i < args@.len(),
    ensures
        ({
            let found = bench_flag(measure, args@[i as int]@);
            let flag = found->0;
            let missing = !is_switch(flag) && i + 1 == args@.len();
            match r {
                Ok(option) => {
                    &&& found == Some(option.flag)
                    &&& !missing
                    &&& denotes(flag, option_text(args@, i as int, flag), option.value)
                },
                Err(CliError::NotAnOption(text)) => found is None && text@ == args@[i as int]@,
                Err(CliError::MissingValue(text)) => found is Some && missing && text@
                    == args@[i as int]@,
                Err(CliError::BadNumber(text)) => {
                    &&& found is Some
                    &&& !missing
                    &&& bench_bound(flag) is Some
                    &&& text::unsigned(args@[i + 1]@, bench_bound(flag)->0) is None
                    &&& text@ == args@[i + 1]@
                },
                Err(CliError::BadPts(text)) => {
                    &&& found is Some
                    &&& !missing
                    &&& flag == BenchFlag::Pts
                    &&& pts_of(args@[i + 1]@) is None
                    &&& text@ == args@[i + 1]@
                },
                Err(_) => false,
            }
        }),
{
    let flag = match name(args[i].as_str()) {
        Some(flag) => {
            if !allows(measure, flag) {
                return Err(CliError::NotAnOption(args[i].clone()));
            }
            flag
        },
        None => return Err(CliError::NotAnOption(args[i].clone())),
    };
    if flag == BenchFlag::NoLoopback || flag == BenchFlag::NoMicrophone || flag
        == BenchFlag::DiscoverOnly || flag == BenchFlag::ActivateOnly {
        return Ok(BenchOption { flag, value: BenchValue::Nothing });
    }
    if args.len() - i <= 1 {
        return Err(CliError::MissingValue(args[i].clone()));
    }
    let value = args[i + 1].as_str();
    if flag == BenchFlag::Pts {
        if text::same(value, "qpc") {
            return Ok(BenchOption { flag, value: BenchValue::Pts(VideoPts::Qpc) });
        }
        if text::same(value, "cfr") {
            return Ok(BenchOption { flag, value: BenchValue::Pts(VideoPts::Cfr) });
        }
        return Err(CliError::BadPts(args[i + 1].clone()));
    }
    let bound: u64 = match flag {
        BenchFlag::Fps => u32::MAX as u64,
        BenchFlag::Bitrate => u32::MAX as u64,
        BenchFlag::RateControl => u32::MAX as u64,
        BenchFlag::Seconds => u64::MAX,
        BenchFlag::MaxSources => usize::MAX as u64,
        BenchFlag::MaxMb => u64::MAX / MEGABYTE,
        _ => {
            return Ok(BenchOption { flag, value: BenchValue::Text(args[i + 1].clone()) });
        },
    };
    match text::parse_unsigned(value, bound) {
        Some(n) => {
            proof {
                assert(flag == BenchFlag::MaxMb ==> n * MEGABYTE <= u64::MAX) by {
                    assert(MEGABYTE == 1_048_576);
                }
            }
            let n: u64 = if flag == BenchFlag::MaxMb {
                n * MEGABYTE
            } else {
                n
            };
            Ok(BenchOption { flag, value: BenchValue::Number(n) })
        },
        None => Err(CliError::BadNumber(args[i + 1].clone())),
    }
}

/// Each of the four measures has a name of its own.
pub proof fn measures_go_by_name(s: Seq<char>)
    ensures
        measure_of(s) == Some(Measure::Video) <==> s == "video"@,
        measure_of(s) == Some(Measure::Sound) <==> s == "sound"@,
        measure_of(s) == Some(Measure::Sync) <==> s == "sync"@,
        measure_of(s) == Some(Measure::Ring) <==> s == "ring"@,
        pts_of(s) == Some(VideoPts::Qpc) <==> s == "qpc"@,
        pts_of(s) == Some(VideoPts::Cfr) <==> s == "cfr"@,
{
    reveal_strlit("video");
    reveal_strlit("sound");
    reveal_strlit("sync");
    reveal_strlit("ring");
    reveal_strlit("qpc");
    reveal_strlit("cfr");
    assert("video"@[0] == 'v' && "sound"@[0] == 's' && "sync"@[0] == 's' && "ring"@[0] == 'r');
    assert("sound"@.len() == 5 && "sync"@.len() == 4);
    assert("qpc"@[0] == 'q' && "cfr"@[0] == 'c');
}

/// Every option of the measures has one name.
pub proof fn bench_options_go_by_name(s: Seq<char>)
    ensures
        named(s) == Some(BenchFlag::Minutes) <==> s == "--minutes"@,
        named(s) == Some(BenchFlag::Seconds) <==> s == "--seconds"@,
        named(s) == Some(BenchFlag::Fps) <==> s == "--fps"@,
        named(s) == Some(BenchFlag::Bitrate) <==> s == "--bitrate"@,
        named(s) == Some(BenchFlag::RateControl) <==> s == "--rc"@,
        named(s) == Some(BenchFlag::Out) <==> s == "--out"@,
        named(s) == Some(BenchFlag::Outdir) <==> s == "--outdir"@,
        named(s) == Some(BenchFlag::Workdir) <==> s == "--workdir"@,
        named(s) == Some(BenchFlag::NoLoopback) <==> s == "--no-loopback"@,
        named(s) == Some(BenchFlag::NoMicrophone) <==> s == "--no-mic"@,
        named(s) == Some(BenchFlag::DiscoverOnly) <==> s == "--discover-only"@,
        named(s) == Some(BenchFlag::ActivateOnly) <==> s == "--activate-only"@,
        named(s) == Some(BenchFlag::MaxSources) <==> s == "--max-sources"@,
        named(s) == Some(BenchFlag::Pts) <==> s == "--video-pts"@,
        named(s) == Some(BenchFlag::Buffer) <==> s == "--buffer"@,
        named(s) == Some(BenchFlag::MaxMb) <==> s == "--max-mb"@,
        named(s) == Some(BenchFlag::Segment) <==> s == "--segment"@,
{
    reveal_strlit("--minutes");
    reveal_strlit("--seconds");
    reveal_strlit("--fps");
    reveal_strlit("--bitrate");
    reveal_strlit("--rc");
    reveal_strlit("--out");
    reveal_strlit("--outdir");
    reveal_strlit("--workdir");
    reveal_strlit("--no-loopback");
    reveal_strlit("--no-mic");
    reveal_strlit("--discover-only");
    reveal_strlit("--activate-only");
    reveal_strlit("--max-sources");
    reveal_strlit("--video-pts");
    reveal_strlit("--buffer");
    reveal_strlit("--max-mb");
    reveal_strlit("--segment");
    assert("--minutes"@.len() == 9 && "--minutes"@[2] == 'm' && "--minutes"@[3] == 'i');
    assert("--seconds"@.len() == 9 && "--seconds"@[2] == 's' && "--seconds"@[3] == 'e');
    assert("--fps"@.len() == 5 && "--fps"@[2] == 'f' && "--fps"@[3] == 'p');
    assert("--bitrate"@.len() == 9 && "--bitrate"@[2] == 'b' && "--bitrate"@[3] == 'i');
    assert("--rc"@.len() == 4 && "--rc"@[2] == 'r' && "--rc"@[3] == 'c');
    assert("--out"@.len() == 5 && "--out"@[2] == 'o' && "--out"@[3] == 'u');
    assert("--outdir"@.len() == 8 && "--outdir"@[2] == 'o' && "--outdir"@[3] == 'u');
    assert("--workdir"@.len() == 9 && "--workdir"@[2] == 'w' && "--workdir"@[3] == 'o');
    assert("--no-loopback"@.len() == 13 && "--no-loopback"@[2] == 'n' && "--no-loopback"@[3] == 'o');
    assert("--no-mic"@.len() == 8 && "--no-mic"@[2] == 'n' && "--no-mic"@[3] == 'o');
    assert("--discover-only"@.len() == 15 && "--discover-only"@[2] == 'd' && "--discover-only"@[3] == 'i');
    assert("--activate-only"@.len() == 15 && "--activate-only"@[2] == 'a' && "--activate-only"@[3] == 'c');
    assert("--max-sources"@.len() == 13 && "--max-sources"@[2] == 'm' && "--max-sources"@[3] == 'a');
    assert("--video-pts"@.len() == 11 && "--video-pts"@[2] == 'v' && "--video-pts"@[3] == 'i');
    assert("--buffer"@.len() == 8 && "--buffer"@[2] == 'b' && "--buffer"@[3] == 'u');
    assert("--max-mb"@.len() == 8 && "--max-mb"@[2] == 'm' && "--max-mb"@[3] == 'a');
    assert("--segment"@.len() == 9 && "--segment"@[2] == 's' && "--segment"@[3] == 'e');
    assert("--seconds"@[4] == 'c' && "--segment"@[4] == 'g');
}

/// A measure takes its own options and no others. All but that of the sound run for
/// minutes with a pace and a bit rate; that of the sound has a set of its own.
pub proof fn measures_take_their_own_options(flag: BenchFlag)
    ensures
        has(Measure::Video, flag) <==> flag == BenchFlag::Minutes || flag == BenchFlag::Fps || flag
            == BenchFlag::Bitrate || flag == BenchFlag::RateControl || flag == BenchFlag::Out,
        has(Measure::Sync, flag) <==> flag == BenchFlag::Minutes || flag == BenchFlag::Fps || flag
            == BenchFlag::Bitrate || flag == BenchFlag::Out || flag == BenchFlag::MaxSources || flag
            == BenchFlag::Pts,
        has(Measure::Ring, flag) <==> flag == BenchFlag::Minutes || flag == BenchFlag::Fps || flag
            == BenchFlag::Bitrate || flag == BenchFlag::MaxSources || flag == BenchFlag::Buffer
            || flag == BenchFlag::MaxMb || flag == BenchFlag::Segment || flag == BenchFlag::Workdir,
        has(Measure::Sound, flag) <==> !(has(Measure::Video, flag)) && !(has(Measure::Sync, flag))
            && !(has(Measure::Ring, flag)),
        is_switch(flag) ==> has(Measure::Sound, flag) && bench_bound(flag) is None,
{
}

/// The numbers that the options of the measures take: a bound in megabytes is taken
/// as far as its bytes fit in a machine number and denotes 1 048 576 bytes for each;
/// the others denote themselves, up to the largest of their kind. Four options stand
/// alone, and the rest denote their text.
pub proof fn bench_values_are_denoted(flag: BenchFlag, s: Seq<char>, value: BenchValue, n: nat)
    ensures
        flag == BenchFlag::MaxMb ==> (bench_bound(flag) matches Some(bound) && (n <= bound
            <==> 1_048_576 * n <= u64::MAX)),
        flag == BenchFlag::Fps || flag == BenchFlag::Bitrate || flag == BenchFlag::RateControl
            ==> bench_bound(flag) == Some(u32::MAX as nat),
        flag == BenchFlag::Seconds ==> bench_bound(flag) == Some(u64::MAX as nat),
        flag == BenchFlag::MaxSources ==> bench_bound(flag) == Some(usize::MAX as nat),
        denotes(flag, s, value) ==> match value {
            BenchValue::Nothing => flag == BenchFlag::NoLoopback || flag == BenchFlag::NoMicrophone
                || flag == BenchFlag::DiscoverOnly || flag == BenchFlag::ActivateOnly,
            BenchValue::Text(text) => {
                &&& text@ == s
                &&& flag == BenchFlag::Minutes || flag == BenchFlag::Out || flag
                    == BenchFlag::Outdir || flag == BenchFlag::Workdir || flag == BenchFlag::Buffer
                    || flag == BenchFlag::Segment
            },
            BenchValue::Number(number) => {
                &&& bench_bound(flag) is Some
                &&& text::unsigned(s, bench_bound(flag)->0) matches Some(read) && number == (
                if flag == BenchFlag::MaxMb {
                    1_048_576 * read
                } else {
                    read
                })
            },
            BenchValue::Pts(pts) => flag == BenchFlag::Pts && pts_of(s) == Some(pts),
        },
{
}

/// An option is found where its name is known and the measure has it; its value is the
/// argument behind it, unless it stands alone.
pub proof fn options_are_found_by_measure(
    measure: Measure,
    s: Seq<char>,
    flag: BenchFlag,
    args: Seq<String>,
    i: int,
)
    ensures
        bench_flag(measure, s) == Some(flag) <==> named(s) == Some(flag) && has(measure, flag),
        !(flag == BenchFlag::NoLoopback || flag == BenchFlag::NoMicrophone || flag
            == BenchFlag::DiscoverOnly || flag == BenchFlag::ActivateOnly) ==> option_text(
            args,
            i,
            flag,
        ) == args[i + 1]@,
{
}

} // verus!
