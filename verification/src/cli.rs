//! Command line.
//!
//! Options come one by one: a value that is wrong is reported before a later
//! option is looked at. Lengths of time are handed on as text.
use crate::text;
use vstd::prelude::*;

verus! {

/// Bytes in a megabyte.
pub const MEGABYTE: u64 = 1_048_576;

/// What the program is asked to do.
#[derive(Debug, Clone, Copy, PartialEq, Eq, Structural)]
pub enum Command {
    /// Mix the tracks of a clip and export it.
    Mix,
    /// Extract the tracks of a clip.
    Tracks,
    /// Measure the regularity of the pictures of a clip.
    Probe,
    /// List the clips.
    List,
    /// Run the buffer; the arguments are options.
    Record,
}

pub open spec fn command_of(args: Seq<Seq<char>>) -> Command {
    if args.len() == 0 {
        Command::Record
    } else if args[0] == "mix"@ {
        Command::Mix
    } else if args[0] == "tracks"@ {
        Command::Tracks
    } else if args[0] == "probe"@ {
        Command::Probe
    } else if args[0] == "list"@ {
        Command::List
    } else {
        Command::Record
    }
}

/// Reads the command off the arguments.
pub fn command(args: &Vec<String>) -> (r: Command)
    ensures
        r == command_of(text::texts(args@)),
{
    if args.len() == 0 {
        return Command::Record;
    }
    let first = args[0].as_str();
    if text::same(first, "mix") {
        Command::Mix
    } else if text::same(first, "tracks") {
        Command::Tracks
    } else if text::same(first, "probe") {
        Command::Probe
    } else if text::same(first, "list") {
        Command::List
    } else {
        Command::Record
    }
}

/// Options of the buffer.
#[derive(Debug, Clone, Copy, PartialEq, Eq, Structural)]
pub enum Flag {
    Buffer,
    MaxMb,
    Segment,
    Fps,
    Bitrate,
    Sources,
    Workdir,
    Output,
    AutoSave,
    Campaign,
    Help,
}

pub open spec fn flag_of(s: Seq<char>) -> Option<Flag> {
    if s == "--buffer"@ {
        Some(Flag::Buffer)
    } else if s == "--max-mb"@ {
        Some(Flag::MaxMb)
    } else if s == "--segment"@ {
        Some(Flag::Segment)
    } else if s == "--fps"@ {
        Some(Flag::Fps)
    } else if s == "--bitrate"@ {
        Some(Flag::Bitrate)
    } else if s == "--sources"@ {
        Some(Flag::Sources)
    } else if s == "--workdir"@ {
        Some(Flag::Workdir)
    } else if s == "--output"@ {
        Some(Flag::Output)
    } else if s == "--auto-save"@ {
        Some(Flag::AutoSave)
    } else if s == "--duration"@ {
        Some(Flag::Campaign)
    } else if s == "--help"@ || s == "-h"@ {
        Some(Flag::Help)
    } else {
        None
    }
}

fn flag(s: &str) -> (r: Option<Flag>)
    ensures
        r == flag_of(s@),
{
    if text::same(s, "--buffer") {
        Some(Flag::Buffer)
    } else if text::same(s, "--max-mb") {
        Some(Flag::MaxMb)
    } else if text::same(s, "--segment") {
        Some(Flag::Segment)
    } else if text::same(s, "--fps") {
        Some(Flag::Fps)
    } else if text::same(s, "--bitrate") {
        Some(Flag::Bitrate)
    } else if text::same(s, "--sources") {
        Some(Flag::Sources)
    } else if text::same(s, "--workdir") {
        Some(Flag::Workdir)
    } else if text::same(s, "--output") {
        Some(Flag::Output)
    } else if text::same(s, "--auto-save") {
        Some(Flag::AutoSave)
    } else if text::same(s, "--duration") {
        Some(Flag::Campaign)
    } else if text::same(s, "--help") || text::same(s, "-h") {
        Some(Flag::Help)
    } else {
        None
    }
}

/// The value of an option.
#[derive(Debug)]
pub enum Value {
    /// Handed on as it stands: a path, or a length of time in seconds.
    Text(String),
    Number(u64),
    /// The option has none.
    Nothing,
}

/// What is wrong with an option.
#[derive(Debug)]
pub enum CliError {
    MissingValue(String),
    /// A value that is no number, or is out of range.
    BadNumber(String),
    Unknown(String),
    /// An option that a command does not have.
    NotAnOption(String),
    /// A source of picture times that there is not.
    BadPts(String),
}

impl CliError {
    pub open spec fn text(self) -> Seq<char> {
        match self {
            CliError::MissingValue(flag) => "valeur manquante après "@ + flag@,
            CliError::BadNumber(value) => "nombre invalide : "@ + value@,
            CliError::Unknown(flag) => "option inconnue : "@ + flag@ + " (voir --help)"@,
            CliError::NotAnOption(flag) => "option inconnue : "@ + flag@,
            CliError::BadPts(value) => "--video-pts attend qpc ou cfr, reçu "@ + value@,
        }
    }

    pub fn message(&self) -> (r: String)
        ensures
            r@ == self.text(),
    {
        match self {
            CliError::MissingValue(flag) => {
                let mut r = "valeur manquante après ".to_owned();
                r.append(flag.as_str());
                r
            },
            CliError::BadNumber(value) => {
                let mut r = "nombre invalide : ".to_owned();
                r.append(value.as_str());
                r
            },
            CliError::Unknown(flag) => {
                let mut r = "option inconnue : ".to_owned();
                r.append(flag.as_str());
                r.append(" (voir --help)");
                r
            },
            CliError::NotAnOption(flag) => {
                let mut r = "option inconnue : ".to_owned();
                r.append(flag.as_str());
                r
            },
            CliError::BadPts(value) => {
                let mut r = "--video-pts attend qpc ou cfr, reçu ".to_owned();
                r.append(value.as_str());
                r
            },
        }
    }
}

/// An option with its value, and how many arguments it took.
#[derive(Debug)]
pub struct Parsed {
    pub flag: Flag,
    pub value: Value,
    pub taken: usize,
}

/// The largest number that an option takes; options without a number take none.
pub open spec fn number_bound(flag: Flag) -> Option<nat> {
    match flag {
        Flag::MaxMb => Some((u64::MAX / MEGABYTE) as nat),
        Flag::Fps => Some(u32::MAX as nat),
        Flag::Bitrate => Some(u32::MAX as nat),
        Flag::Sources => Some(usize::MAX as nat),
        _ => None,
    }
}

/// The number that an option sets: a bound in megabytes is turned into bytes.
pub open spec fn number_set(flag: Flag, n: nat) -> nat {
    if flag == Flag::MaxMb {
        n * MEGABYTE as nat
    } else {
        n
    }
}

/// Reads the option at an index of the arguments.
pub fn option_at(args: &Vec<String>, i: usize) -> (r: Result<Parsed, CliError>)
    requires
        i < args@.len(),
    ensures
        match r {
            Ok(parsed) => {
                &&& flag_of(args@[i as int]@) == Some(parsed.flag)
                &&& parsed.taken == (if parsed.flag == Flag::Help {
                    1int
                } else {
                    2
                })
                &&& i + parsed.taken <= args@.len()
                &&& match parsed.value {
                    Value::Nothing => parsed.flag == Flag::Help,
                    Value::Text(value) => parsed.flag != Flag::Help && number_bound(
                        parsed.flag,
                    ) is None && value@ == args@[i + 1]@,
                    Value::Number(n) => {
                        let bound = number_bound(parsed.flag);
                        let read = text::unsigned(args@[i + 1]@, bound->0);
                        &&& bound is Some
                        &&& read is Some
                        &&& n == number_set(parsed.flag, read->0)
                    },
                }
            },
            Err(CliError::Unknown(flag)) => flag_of(args@[i as int]@) is None && flag@
                == args@[i as int]@,
            Err(CliError::MissingValue(flag)) => {
                &&& flag_of(args@[i as int]@) is Some
                &&& flag_of(args@[i as int]@) != Some(Flag::Help)
                &&& i + 1 == args@.len()
                &&& flag@ == args@[i as int]@
            },
            Err(CliError::BadNumber(value)) => {
                let bound = number_bound(flag_of(args@[i as int]@)->0);
                &&& flag_of(args@[i as int]@) is Some
                &&& i + 1 < args@.len()
                &&& bound is Some
                &&& text::unsigned(args@[i + 1]@, bound->0) is None
                &&& value@ == args@[i + 1]@
            },
            Err(_) => false,
        },
{
    let flag = match flag(args[i].as_str()) {
        Some(flag) => flag,
        None => return Err(CliError::Unknown(args[i].clone())),
    };
    if flag == Flag::Help {
        return Ok(Parsed { flag, value: Value::Nothing, taken: 1 });
    }
    if args.len() - i <= 1 {
        return Err(CliError::MissingValue(args[i].clone()));
    }
    let bound: u64 = match flag {
        Flag::MaxMb => u64::MAX / MEGABYTE,
        Flag::Fps => u32::MAX as u64,
        Flag::Bitrate => u32::MAX as u64,
        Flag::Sources => usize::MAX as u64,
        _ => {
            return Ok(Parsed { flag, value: Value::Text(args[i + 1].clone()), taken: 2 });
        },
    };
    match text::parse_unsigned(args[i + 1].as_str(), bound) {
        Some(n) => {
            proof {
                assert(flag == Flag::MaxMb ==> n * MEGABYTE <= u64::MAX) by {
                    assert(MEGABYTE == 1_048_576);
                }
            }
            let n: u64 = if flag == Flag::MaxMb {
                n * MEGABYTE
            } else {
                n
            };
            Ok(Parsed { flag, value: Value::Number(n), taken: 2 })
        },
        None => Err(CliError::BadNumber(args[i + 1].clone())),
    }
}

/// The entries of a list of gains, without the white space around each.
pub open spec fn gains_of_list(list: Seq<char>) -> Seq<Seq<char>> {
    text::split(list, ',').map_values(|s: Seq<char>| text::trimmed(s))
}

/// Splits a list of gains, one per track in the order of the file, and strips the
/// white space around each.
pub fn gain_texts(list: &str) -> (r: Vec<String>)
    ensures
        text::texts(r@) == gains_of_list(list@),
{
    let parts = text::split_on(list, ',');
    let mut r: Vec<String> = Vec::new();
    for i in 0..parts.len()
        invariant
            r@.len() == i,
            forall|j: int| 0 <= j < i ==> (#[trigger] r@[j])@ == text::trimmed(parts@[j]@),
    {
        r.push(text::trim(parts[i].as_str()));
    }
    proof {
        assert forall|j: int| 0 <= j < r@.len() implies #[trigger] text::texts(r@)[j]
            == gains_of_list(list@)[j] by {
            assert(text::texts(parts@)[j] == parts@[j]@);
        }
        assert(text::texts(r@) =~= gains_of_list(list@));
    }
    r
}

/// An option of the mix.
#[derive(Debug)]
pub enum MixOption {
    /// The file to write.
    Output(String),
    /// One gain per track in the order of the file, as text.
    Gains(Vec<String>),
}

/// The name under which an option of the mix is reported where its value is
/// missing; nothing where there is no such option.
pub open spec fn mix_flag(s: Seq<char>) -> Option<Seq<char>> {
    if s == "--output"@ || s == "-o"@ {
        Some("--output"@)
    } else if s == "--gains"@ {
        Some("--gains"@)
    } else {
        None
    }
}

/// Reads the option of the mix at an index of the arguments. It takes two of
/// them.
pub fn mix_option_at(args: &Vec<String>, i: usize) -> (r: Result<MixOption, CliError>)
    requires
        i < args@.len(),
    ensures
        ({
            let name = mix_flag(args@[i as int]@);
            match r {
                Ok(MixOption::Output(path)) => {
                    &&& name == Some("--output"@)
                    &&& i + 1 < args@.len()
                    &&& path@ == args@[i + 1]@
                },
                Ok(MixOption::Gains(gains)) => {
                    &&& name is Some
                    &&& name != Some("--output"@)
                    &&& i + 1 < args@.len()
                    &&& text::texts(gains@) == gains_of_list(args@[i + 1]@)
                },
                Err(CliError::MissingValue(flag)) => {
                    &&& name == Some(flag@)
                    &&& i + 1 == args@.len()
                },
                Err(CliError::NotAnOption(flag)) => name is None && flag@ == args@[i as int]@,
                Err(_) => false,
            }
        }),
{
    proof {
        reveal_strlit("--output");
        reveal_strlit("--gains");
        assert("--output"@.len() != "--gains"@.len());
    }
    let flag = args[i].as_str();
    let output = text::same(flag, "--output") || text::same(flag, "-o");
    if !output && !text::same(flag, "--gains") {
        return Err(CliError::NotAnOption(args[i].clone()));
    }
    if args.len() - i <= 1 {
        return Err(
            CliError::MissingValue(
                if output {
                    "--output".to_owned()
                } else {
                    "--gains".to_owned()
                },
            ),
        );
    }
    if output {
        Ok(MixOption::Output(args[i + 1].clone()))
    } else {
        Ok(MixOption::Gains(gain_texts(args[i + 1].as_str())))
    }
}

/// Summary of the gaps between pictures, in units of 100 ns.
#[derive(Debug)]
pub struct GapSummary {
    pub count: usize,
    pub total: i128,
    pub longest: i64,
    /// Gaps beyond one and a half times the mean.
    pub irregular: usize,
    /// The five longest gaps, the longest first.
    pub worst: Vec<i64>,
}

pub open spec fn gap_total(gaps: Seq<i64>) -> int
    decreases gaps.len(),
{
    if gaps.len() == 0 {
        0
    } else {
        gap_total(gaps.drop_last()) + gaps.last()
    }
}

/// How many of the first `n` gaps exceed one and a half times the mean of all.
pub open spec fn irregular_gaps(gaps: Seq<i64>, n: int) -> int
    decreases n,
{
    if n <= 0 {
        0
    } else {
        irregular_gaps(gaps, n - 1) + if gaps[n - 1] * 2 * gaps.len() > gap_total(gaps) * 3 {
            1int
        } else {
            0
        }
    }
}

/// Where a gap goes among gaps from the longest to the shortest: behind those
/// that are at least as long.
pub open spec fn gap_place(gaps: Seq<i64>, gap: i64) -> int
    decreases gaps.len(),
{
    if gaps.len() == 0 || gaps[0] < gap {
        0
    } else {
        1 + gap_place(gaps.skip(1), gap)
    }
}

/// Gaps from the longest to the shortest.
pub open spec fn by_length(gaps: Seq<i64>) -> Seq<i64>
    decreases gaps.len(),
{
    if gaps.len() == 0 {
        Seq::empty()
    } else {
        let before = by_length(gaps.drop_last());
        before.insert(gap_place(before, gaps.last()), gaps.last())
    }
}

proof fn gap_place_bounds(gaps: Seq<i64>, gap: i64)
    ensures
        0 <= gap_place(gaps, gap) <= gaps.len(),
        gap_place(gaps, gap) < gaps.len() ==> gaps[gap_place(gaps, gap)] < gap,
        forall|j: int| 0 <= j < gap_place(gaps, gap) ==> #[trigger] gaps[j] >= gap,
    decreases gaps.len(),
{
    if gaps.len() > 0 && gaps[0] >= gap {
        gap_place_bounds(gaps.skip(1), gap);
        assert forall|j: int| 0 <= j < gap_place(gaps, gap) implies #[trigger] gaps[j] >= gap by {
            if j > 0 {
                assert(gaps.skip(1)[j - 1] == gaps[j]);
            }
        }
    }
}

fn sort_by_length(gaps: &Vec<i64>) -> (r: Vec<i64>)
    ensures
        r@ == by_length(gaps@),
        r@.len() == gaps@.len(),
{
    let mut r: Vec<i64> = Vec::new();
    proof {
        assert(gaps@.take(0) =~= Seq::<i64>::empty());
    }
    for i in 0..gaps.len()
        invariant
            r@ == by_length(gaps@.take(i as int)),
            r@.len() == i,
    {
        let gap: i64 = gaps[i];
        let mut k: usize = 0;
        while k < r.len() && r[k] >= gap
            invariant
                k <= r@.len(),
                forall|j: int| 0 <= j < k ==> #[trigger] r@[j] >= gap,
            decreases r@.len() - k,
        {
            k = k + 1;
        }
        proof {
            gap_place_bounds(r@, gap);
            let p = gap_place(r@, gap);
            if k < p {
                assert(r@[k as int] >= gap);
            }
            if p < k {
                assert(r@[p] >= gap);
            }
            assert(gaps@.take(i + 1).drop_last() =~= gaps@.take(i as int));
        }
        r.insert(k, gap);
    }
    proof {
        assert(gaps@.take(gaps@.len() as int) =~= gaps@);
    }
    r
}

/// The mean of numbers from their sum, rounded down, and what is left of the sum.
fn mean_of(total: i128, count: usize) -> (r: (i128, i128))
    requires
        count > 0,
        -0x8000_0000_0000_0000 * count <= total <= 0x7fff_ffff_ffff_ffff * count,
    ensures
        total == r.0 * count + r.1,
        0 <= r.1 < count,
        -0x8000_0000_0000_0000 <= r.0 <= 0x7fff_ffff_ffff_ffff,
{
    let n: i128 = count as i128;
    let (mean, rest): (i128, i128) = if total >= 0 {
        (total / n, total % n)
    } else {
        let (quotient, left): (i128, i128) = ((-total) / n, (-total) % n);
        proof {
            vstd::arithmetic::div_mod::lemma_fundamental_div_mod(-total as int, n as int);
            let (q, k) = (quotient as int, n as int);
            assert(0 <= q <= 0x8000_0000_0000_0000) by (nonlinear_arith)
                requires
                    -total == k * q + left,
                    0 <= left < k,
                    0 < -total <= 0x8000_0000_0000_0000 * k,
            ;
            assert(k * q == -((-q) * k)) by (nonlinear_arith);
            assert(k * q == -((-q - 1) * k) - k) by (nonlinear_arith);
        }
        if left == 0 {
            (-quotient, 0)
        } else {
            (-quotient - 1, n - left)
        }
    };
    proof {
        if total >= 0 {
            vstd::arithmetic::div_mod::lemma_fundamental_div_mod(total as int, n as int);
        }
        let (m, k) = (mean as int, n as int);
        assert(total == m * k + rest) by (nonlinear_arith)
            requires
                total == k * m + rest || total == m * k + rest,
        ;
        assert(-0x8000_0000_0000_0000 <= m <= 0x7fff_ffff_ffff_ffff) by (nonlinear_arith)
            requires
                total == m * k + rest,
                0 <= rest < k,
                -0x8000_0000_0000_0000 * k <= total <= 0x7fff_ffff_ffff_ffff * k,
        ;
    }
    (mean, rest)
}

/// Whether a gap exceeds one and a half times a mean, which is given as its whole
/// part and what is left of the sum. The sum itself, times three, may be too large
/// for a machine number.
fn stands_out(gap: i64, mean: i128, rest: i128, count: usize) -> (r: bool)
    requires
        0 <= rest < count,
        -0x8000_0000_0000_0000 <= mean <= 0x7fff_ffff_ffff_ffff,
    ensures
        r == (gap * 2 * count > (mean * count + rest) * 3),
{
    let ahead: i128 = gap as i128 * 2 - mean * 3;
    proof {
        let (g, m, t, n, a) = (gap as int, mean as int, rest as int, count as int, ahead as int);
        assert(g * 2 * n - (m * n + t) * 3 == a * n - t * 3) by (nonlinear_arith)
            requires
                a == g * 2 - m * 3,
        ;
        assert(a >= 3 ==> a * n > t * 3) by (nonlinear_arith)
            requires
                0 <= t < n,
        ;
        assert(a <= 0 ==> a * n <= t * 3) by (nonlinear_arith)
            requires
                0 <= t < n,
        ;
        assert(0 < a < 3 ==> 0 <= a * n <= 2 * n) by (nonlinear_arith)
            requires
                0 <= n,
        ;
    }
    if ahead >= 3 {
        true
    } else if ahead <= 0 {
        false
    } else {
        ahead * count as i128 > rest * 3
    }
}

proof fn longest_comes_first(gaps: Seq<i64>)
    requires
        gaps.len() > 0,
    ensures
        gaps.contains(by_length(gaps)[0]),
        forall|i: int| 0 <= i < gaps.len() ==> by_length(gaps)[0] >= #[trigger] gaps[i],
{
    broadcast use vstd::seq_lib::group_to_multiset_ensures;

    let r = by_length(gaps);
    gaps_are_sorted(gaps);
    assert(r.contains(r[0]));
    assert(r.to_multiset().count(r[0]) > 0);
    assert forall|i: int| 0 <= i < gaps.len() implies r[0] >= #[trigger] gaps[i] by {
        assert(gaps.contains(gaps[i]));
        assert(gaps.to_multiset().count(gaps[i]) > 0);
        assert(r.contains(gaps[i]));
        let k = choose|k: int| 0 <= k < r.len() && r[k] == gaps[i];
        if k > 0 {
            assert(r[0] >= r[k]);
        }
    }
}

/// Sums up the gaps between pictures; nothing where there are none.
pub fn summarize_gaps(gaps: &Vec<i64>) -> (r: Option<GapSummary>)
    ensures
        match r {
            Some(summary) => {
                &&& gaps@.len() > 0
                &&& summary.count == gaps@.len()
                &&& summary.total == gap_total(gaps@)
                &&& summary.longest == by_length(gaps@)[0]
                &&& gaps@.contains(summary.longest)
                &&& forall|i: int| 0 <= i < gaps@.len() ==> summary.longest >= #[trigger] gaps@[i]
                &&& summary.irregular == irregular_gaps(gaps@, gaps@.len() as int)
                &&& summary.worst@ == by_length(gaps@).take(if gaps@.len() < 5 {
                    gaps@.len() as int
                } else {
                    5
                })
            },
            None => gaps@.len() == 0,
        },
{
    let count: usize = gaps.len();
    if count == 0 {
        return None;
    }
    let mut total: i128 = 0;
    proof {
        assert(gaps@.take(0) =~= Seq::<i64>::empty());
    }
    for i in 0..count
        invariant
            count == gaps@.len(),
            total == gap_total(gaps@.take(i as int)),
            -0x8000_0000_0000_0000 * i <= total <= 0x7fff_ffff_ffff_ffff * i,
    {
        proof {
            assert(gaps@.take(i + 1).drop_last() =~= gaps@.take(i as int));
        }
        total = total + gaps[i] as i128;
    }
    proof {
        assert(gaps@.take(count as int) =~= gaps@);
    }
    let (mean, rest) = mean_of(total, count);
    let mut irregular: usize = 0;
    for i in 0..count
        invariant
            count == gaps@.len(),
            total == gap_total(gaps@),
            total == mean * count + rest,
            0 <= rest < count,
            -0x8000_0000_0000_0000 <= mean <= 0x7fff_ffff_ffff_ffff,
            irregular == irregular_gaps(gaps@, i as int),
            irregular <= i,
    {
        if stands_out(gaps[i], mean, rest, count) {
            irregular = irregular + 1;
        }
    }
    let mut worst = sort_by_length(gaps);
    let longest: i64 = worst[0];
    if count > 5 {
        worst.truncate(5);
    }
    proof {
        let most: int = if gaps@.len() < 5 {
            gaps@.len() as int
        } else {
            5
        };
        assert(worst@ =~= by_length(gaps@).take(most));
        longest_comes_first(gaps@);
    }
    Some(GapSummary { count, total, longest, irregular, worst })
}

/// Sorting gaps keeps each of them and puts the longest first.
pub proof fn gaps_are_sorted(gaps: Seq<i64>)
    ensures
        by_length(gaps).len() == gaps.len(),
        by_length(gaps).to_multiset() == gaps.to_multiset(),
        forall|i: int, j: int|
            0 <= i < j < gaps.len() ==> #[trigger] by_length(gaps)[i] >= #[trigger] by_length(
                gaps,
            )[j],
    decreases gaps.len(),
{
    broadcast use vstd::seq_lib::group_to_multiset_ensures;

    if gaps.len() > 0 {
        let rest = gaps.drop_last();
        let before = by_length(rest);
        let gap = gaps.last();
        gaps_are_sorted(rest);
        gap_place_bounds(before, gap);
        let k = gap_place(before, gap);
        let r = by_length(gaps);
        assert(gaps =~= rest.push(gap));
        assert(r =~= before.insert(k, gap));
        assert forall|i: int, j: int| 0 <= i < j < gaps.len() implies #[trigger] r[i]
            >= #[trigger] r[j] by {
            if i < k && j > k {
                assert(before[i] >= before[j - 1]);
            } else if i > k {
                assert(before[i - 1] >= before[j - 1]);
            } else if j < k {
                assert(before[i] >= before[j]);
            } else if i == k {
                assert(before[k] < gap);
                if j - 1 > k {
                    assert(before[k] >= before[j - 1]);
                }
            }
        }
    } else {
        assert(by_length(gaps) =~= gaps);
    }
}

/// The first argument alone tells the command, and whatever is no command is an
/// option of the recording.
pub proof fn commands_go_by_the_first_argument(args: Seq<Seq<char>>, other: Seq<Seq<char>>)
    ensures
        args.len() > 0 && other.len() > 0 && args[0] == other[0] ==> command_of(args)
            == command_of(other),
        command_of(args) == Command::Mix <==> args.len() > 0 && args[0] == "mix"@,
        command_of(args) == Command::Tracks <==> args.len() > 0 && args[0] == "tracks"@,
        command_of(args) == Command::Probe <==> args.len() > 0 && args[0] == "probe"@,
        command_of(args) == Command::List <==> args.len() > 0 && args[0] == "list"@,
{
    reveal_strlit("mix");
    reveal_strlit("tracks");
    reveal_strlit("probe");
    reveal_strlit("list");
    assert("mix"@.len() == 3 && "tracks"@.len() == 6 && "probe"@.len() == 5 && "list"@.len() == 4);
}

/// Every option has a name of its own; asking for help has two.
pub proof fn options_go_by_name(s: Seq<char>)
    ensures
        flag_of(s) == Some(Flag::Buffer) <==> s == "--buffer"@,
        flag_of(s) == Some(Flag::MaxMb) <==> s == "--max-mb"@,
        flag_of(s) == Some(Flag::Segment) <==> s == "--segment"@,
        flag_of(s) == Some(Flag::Fps) <==> s == "--fps"@,
        flag_of(s) == Some(Flag::Bitrate) <==> s == "--bitrate"@,
        flag_of(s) == Some(Flag::Sources) <==> s == "--sources"@,
        flag_of(s) == Some(Flag::Workdir) <==> s == "--workdir"@,
        flag_of(s) == Some(Flag::Output) <==> s == "--output"@,
        flag_of(s) == Some(Flag::AutoSave) <==> s == "--auto-save"@,
        flag_of(s) == Some(Flag::Campaign) <==> s == "--duration"@,
        flag_of(s) == Some(Flag::Help) <==> s == "--help"@ || s == "-h"@,
{
    reveal_strlit("--buffer");
    reveal_strlit("--max-mb");
    reveal_strlit("--segment");
    reveal_strlit("--fps");
    reveal_strlit("--bitrate");
    reveal_strlit("--sources");
    reveal_strlit("--workdir");
    reveal_strlit("--output");
    reveal_strlit("--auto-save");
    reveal_strlit("--duration");
    reveal_strlit("--help");
    reveal_strlit("-h");
    assert("--buffer"@.len() == 8);
    assert("--max-mb"@.len() == 8);
    assert("--segment"@.len() == 9);
    assert("--fps"@.len() == 5);
    assert("--bitrate"@.len() == 9);
    assert("--sources"@.len() == 9);
    assert("--workdir"@.len() == 9);
    assert("--output"@.len() == 8);
    assert("--auto-save"@.len() == 11);
    assert("--duration"@.len() == 10);
    assert("--help"@.len() == 6);
    assert("-h"@.len() == 2);
    assert("--buffer"@[2] == 'b' && "--buffer"@[3] == 'u');
    assert("--max-mb"@[2] == 'm' && "--max-mb"@[3] == 'a');
    assert("--segment"@[2] == 's' && "--segment"@[3] == 'e');
    assert("--fps"@[2] == 'f' && "--fps"@[3] == 'p');
    assert("--bitrate"@[2] == 'b' && "--bitrate"@[3] == 'i');
    assert("--sources"@[2] == 's' && "--sources"@[3] == 'o');
    assert("--workdir"@[2] == 'w' && "--workdir"@[3] == 'o');
    assert("--output"@[2] == 'o' && "--output"@[3] == 'u');
    assert("--auto-save"@[2] == 'a' && "--auto-save"@[3] == 'u');
    assert("--duration"@[2] == 'd' && "--duration"@[3] == 'u');
    assert("--help"@[2] == 'h' && "--help"@[3] == 'e');
}

/// A bound in megabytes is taken as far as its bytes fit in a machine number, and
/// sets 1 048 576 bytes for each; the other numbers are set as they are, up to the
/// largest of their kind.
pub proof fn megabytes_become_bytes(flag: Flag, n: nat)
    ensures
        flag == Flag::MaxMb ==> {
            &&& number_set(flag, n) == 1_048_576 * n
            &&& number_bound(flag) matches Some(bound) && (n <= bound <==> 1_048_576 * n
                <= u64::MAX)
        },
        flag != Flag::MaxMb ==> number_set(flag, n) == n,
        flag == Flag::Fps || flag == Flag::Bitrate ==> number_bound(flag) == Some(u32::MAX as nat),
        flag == Flag::Sources ==> number_bound(flag) == Some(usize::MAX as nat),
        number_bound(flag) is Some <==> flag == Flag::MaxMb || flag == Flag::Fps || flag
            == Flag::Bitrate || flag == Flag::Sources,
{
}

/// A list of gains holds one entry more than commas: the entries of two lists with a
/// comma between them are those of the one and then those of the other, and a list
/// without a comma is one entry, without the white space around it.
pub proof fn gains_are_parted_by_commas(a: Seq<char>, b: Seq<char>)
    ensures
        gains_of_list(a + seq![','] + b) == gains_of_list(a) + gains_of_list(b),
        !a.contains(',') ==> gains_of_list(a) == seq![text::trimmed(a)],
{
    text::texts_are_split_at_the_character(a, b, ',');
    assert(gains_of_list(a + seq![','] + b) =~= gains_of_list(a) + gains_of_list(b));
    if !a.contains(',') {
        assert(gains_of_list(a) =~= seq![text::trimmed(a)]);
    }
}

/// The mix has two options, one of them with a short name.
pub proof fn mix_options_go_by_name(s: Seq<char>)
    ensures
        mix_flag(s) == Some("--output"@) <==> s == "--output"@ || s == "-o"@,
        mix_flag(s) == Some("--gains"@) <==> s == "--gains"@,
        mix_flag(s) is None <==> s != "--output"@ && s != "-o"@ && s != "--gains"@,
{
    reveal_strlit("--output");
    reveal_strlit("-o");
    reveal_strlit("--gains");
    assert("--output"@.len() == 8 && "-o"@.len() == 2 && "--gains"@.len() == 7);
}

/// Gaps add up one by one.
pub proof fn gaps_add_up(a: Seq<i64>, b: Seq<i64>, gap: i64)
    ensures
        gap_total(a + b) == gap_total(a) + gap_total(b),
        gap_total(seq![gap]) == gap,
        gap_total(Seq::empty()) == 0,
    decreases b.len(),
{
    assert(seq![gap].drop_last() =~= Seq::<i64>::empty());
    assert(gap_total(seq![gap].drop_last()) == 0);
    if b.len() == 0 {
        assert(a + b =~= a);
    } else {
        assert((a + b).drop_last() =~= a + b.drop_last());
        gaps_add_up(a, b.drop_last(), gap);
    }
}

/// A gap is irregular where twice its length is more than three times the mean, so
/// that gaps of one length, or within one and a half times the mean, are all
/// regular; each irregular one counts once.
pub proof fn irregular_gaps_stand_out(gaps: Seq<i64>, n: int)
    requires
        0 <= n < gaps.len(),
    ensures
        irregular_gaps(gaps, 0) == 0,
        2 * gaps[n] * gaps.len() > 3 * gap_total(gaps) ==> irregular_gaps(gaps, n + 1)
            == irregular_gaps(gaps, n) + 1,
        2 * gaps[n] * gaps.len() <= 3 * gap_total(gaps) ==> irregular_gaps(gaps, n + 1)
            == irregular_gaps(gaps, n),
{
    assert(gaps[n] * 2 * gaps.len() == 2 * gaps[n] * gaps.len());
}

/// A message ends in what it is about, the argument as it was given; an unknown
/// option of the recording is followed by where to look it up.
pub proof fn messages_name_the_argument(argument: String)
    ensures
        argument@.is_suffix_of(CliError::MissingValue(argument).text()),
        argument@.is_suffix_of(CliError::BadNumber(argument).text()),
        argument@.is_suffix_of(CliError::NotAnOption(argument).text()),
        argument@.is_suffix_of(CliError::BadPts(argument).text()),
        (argument@ + " (voir --help)"@).is_suffix_of(CliError::Unknown(argument).text()),
{
    text::ends_stay_at_the_end("valeur manquante après "@, argument@);
    text::ends_stay_at_the_end("nombre invalide : "@, argument@);
    text::ends_stay_at_the_end("option inconnue : "@, argument@);
    text::ends_stay_at_the_end("--video-pts attend qpc ou cfr, reçu "@, argument@);
    let end = argument@ + " (voir --help)"@;
    text::ends_stay_at_the_end("option inconnue : "@, end);
    assert(CliError::Unknown(argument).text() =~= "option inconnue : "@ + end);
}

} // verus!
