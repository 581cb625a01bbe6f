//! Endurance campaign.
//!
//! The buffer is meant to run for hours. A campaign samples the memory of the
//! process, saves at regular intervals, and judges at the end whether something
//! piles up.
use crate::recorder::Health;
use vstd::prelude::*;

verus! {

/// Seconds before the reference is taken: earlier, buffers and tracks are not
/// allocated yet.
pub const BASELINE_SECONDS: u64 = 30;

/// Nanoseconds between two reports.
pub const REPORT_NS: u64 = 30_000_000_000;

/// Nanoseconds between two saves.
pub const SAVE_NS: u64 = 120_000_000_000;

/// Growth, in megabytes, beyond which something piles up.
pub const MAX_GROWTH: i64 = 50;

/// What is wrong with a buffer in a campaign.
#[derive(Debug)]
pub enum Fault {
    /// Stuck for so many milliseconds.
    Stalled(u64),
    /// Stopped, for a reason.
    Stopped(String),
}

/// Outcome of a campaign, in megabytes.
#[derive(Debug, Clone, Copy, PartialEq, Eq, Structural)]
pub struct Verdict {
    pub early: u64,
    pub late: u64,
    pub growth: i64,
    pub suspicious: bool,
}

/// A campaign under way. Memory is in megabytes, zero until the reference is
/// taken.
#[derive(Debug)]
pub struct Campaign {
    pub baseline: u64,
    pub peak: u64,
    pub samples: Vec<u64>,
    pub saves: u32,
    pub save_us_total: u64,
    pub next_report_ns: u64,
    pub next_save_ns: u64,
}

/// The least of some numbers, zero where there are none.
pub open spec fn least(s: Seq<u64>) -> u64
    decreases s.len(),
{
    if s.len() == 0 {
        0
    } else if s.len() == 1 {
        s[0]
    } else if s.last() < least(s.drop_last()) {
        s.last()
    } else {
        least(s.drop_last())
    }
}

fn low(samples: &Vec<u64>, from: usize, to: usize) -> (r: u64)
    requires
        from <= to <= samples@.len(),
    ensures
        r == least(samples@.subrange(from as int, to as int)),
{
    if from == to {
        return 0;
    }
    let mut r: u64 = samples[from];
    let mut i: usize = from + 1;
    while i < to
        invariant
            from < i <= to <= samples@.len(),
            r == least(samples@.subrange(from as int, i as int)),
        decreases to - i,
    {
        proof {
            let s = samples@.subrange(from as int, i + 1);
            assert(s.drop_last() =~= samples@.subrange(from as int, i as int));
            assert(s.last() == samples@[i as int]);
        }
        if samples[i] < r {
            r = samples[i];
        }
        i = i + 1;
    }
    r
}

impl Campaign {
    pub fn new(now_ns: u64) -> (r: Self)
        requires
            now_ns + SAVE_NS <= u64::MAX,
        ensures
            r.baseline == 0,
            r.peak == 0,
            r.samples@ == Seq::<u64>::empty(),
            r.saves == 0,
            r.save_us_total == 0,
            r.next_report_ns == now_ns + 30_000_000_000,
            r.next_save_ns == now_ns + 120_000_000_000,
    {
        Campaign {
            baseline: 0,
            peak: 0,
            samples: Vec::new(),
            saves: 0,
            save_us_total: 0,
            next_report_ns: now_ns + REPORT_NS,
            next_save_ns: now_ns + SAVE_NS,
        }
    }

    /// Takes in a sample of the memory. Returns whether it became the reference.
    pub fn sample(&mut self, elapsed_seconds: u64, memory: u64) -> (reference: bool)
        ensures
            reference == (old(self).baseline == 0 && elapsed_seconds >= 30),
            final(self).baseline == (if reference {
                memory
            } else {
                old(self).baseline
            }),
            final(self).peak == (if reference || memory > old(self).peak {
                memory
            } else {
                old(self).peak
            }),
            final(self).samples@ == (if final(self).baseline > 0 {
                old(self).samples@.push(memory)
            } else {
                old(self).samples@
            }),
            final(self).saves == old(self).saves,
            final(self).save_us_total == old(self).save_us_total,
            final(self).next_report_ns == old(self).next_report_ns,
            final(self).next_save_ns == old(self).next_save_ns,
    {
        let reference = self.baseline == 0 && elapsed_seconds >= BASELINE_SECONDS;
        if reference {
            self.baseline = memory;
            self.peak = memory;
        }
        if memory > self.peak {
            self.peak = memory;
        }
        if self.baseline > 0 {
            self.samples.push(memory);
        }
        reference
    }

    /// Whether a save is due; the next one is then due two minutes later.
    pub fn save_due(&mut self, now_ns: u64) -> (due: bool)
        requires
            now_ns + SAVE_NS <= u64::MAX,
        ensures
            due == (now_ns >= old(self).next_save_ns),
            *final(self) == (Campaign {
                next_save_ns: if due {
                    (now_ns + 120_000_000_000) as u64
                } else {
                    old(self).next_save_ns
                },
                ..*old(self)
            }),
    {
        if now_ns >= self.next_save_ns {
            self.next_save_ns = now_ns + SAVE_NS;
            return true;
        }
        false
    }

    /// Notes a save and the time it took.
    pub fn saved(&mut self, total_us: u64)
        requires
            old(self).saves < u32::MAX,
            old(self).save_us_total + total_us <= u64::MAX,
        ensures
            *final(self) == (Campaign {
                saves: (old(self).saves + 1) as u32,
                save_us_total: (old(self).save_us_total + total_us) as u64,
                ..*old(self)
            }),
    {
        self.saves = self.saves + 1;
        self.save_us_total = self.save_us_total + total_us;
    }

    /// Whether a report is due; the next one is then due half a minute later.
    pub fn report_due(&mut self, now_ns: u64) -> (due: bool)
        requires
            now_ns + REPORT_NS <= u64::MAX,
        ensures
            due == (now_ns >= old(self).next_report_ns),
            *final(self) == (Campaign {
                next_report_ns: if due {
                    (now_ns + 30_000_000_000) as u64
                } else {
                    old(self).next_report_ns
                },
                ..*old(self)
            }),
    {
        if now_ns >= self.next_report_ns {
            self.next_report_ns = now_ns + REPORT_NS;
            return true;
        }
        false
    }

    /// Judges the campaign, given the memory at its end.
    ///
    /// What counts is the lowest point of each half of the samples, not the last
    /// one: saves cause peaks that go away again. Without two halves, the
    /// reference and the end are compared.
    pub fn verdict(&self, memory: u64) -> (r: Verdict)
        requires
            memory <= i64::MAX,
            self.baseline <= i64::MAX,
            forall|i: int| 0 <= i < self.samples@.len() ==> #[trigger] self.samples@[i] <= i64::MAX,
        ensures
            ({
                let n = self.samples@.len() as int;
                let (early, late) = if n >= 2 {
                    (least(self.samples@.take(n / 2)), least(self.samples@.skip(n / 2)))
                } else {
                    (self.baseline, memory)
                };
                &&& r.early == early
                &&& r.late == late
                &&& r.growth == late - early
                &&& r.suspicious == (late - early > 50)
                &&& n >= 2 ==> {
                    &&& forall|i: int| 0 <= i < n / 2 ==> r.early <= #[trigger] self.samples@[i]
                    &&& forall|i: int| n / 2 <= i < n ==> r.late <= #[trigger] self.samples@[i]
                    &&& exists|i: int| 0 <= i < n / 2 && r.early == #[trigger] self.samples@[i]
                    &&& exists|i: int| n / 2 <= i < n && r.late == #[trigger] self.samples@[i]
                }
            }),
    {
        let n: usize = self.samples.len();
        let middle: usize = n / 2;
        let (early, late): (u64, u64) = if middle > 0 {
            proof {
                assert(self.samples@.subrange(0, middle as int) =~= self.samples@.take(
                    middle as int,
                ));
                assert(self.samples@.subrange(middle as int, n as int) =~= self.samples@.skip(
                    middle as int,
                ));
                least_is_bounded(self.samples@.take(middle as int));
                least_is_bounded(self.samples@.skip(middle as int));
                least_of_halves(self.samples@, middle as int);
            }
            (low(&self.samples, 0, middle), low(&self.samples, middle, n))
        } else {
            (self.baseline, memory)
        };
        let growth: i64 = late as i64 - early as i64;
        Verdict { early, late, growth, suspicious: growth > MAX_GROWTH }
    }
}

proof fn least_is_bounded(s: Seq<u64>)
    requires
        forall|i: int| 0 <= i < s.len() ==> #[trigger] s[i] <= i64::MAX,
    ensures
        least(s) <= i64::MAX,
    decreases s.len(),
{
    if s.len() > 1 {
        least_is_bounded(s.drop_last());
        assert(s[s.len() - 1] <= i64::MAX);
    } else if s.len() == 1 {
        assert(s[0] <= i64::MAX);
    }
}

proof fn least_of_halves(s: Seq<u64>, middle: int)
    requires
        0 < middle < s.len(),
    ensures
        forall|i: int| 0 <= i < middle ==> least(s.take(middle)) <= #[trigger] s[i],
        forall|i: int| middle <= i < s.len() ==> least(s.skip(middle)) <= #[trigger] s[i],
        exists|i: int| 0 <= i < middle && least(s.take(middle)) == #[trigger] s[i],
        exists|i: int| middle <= i < s.len() && least(s.skip(middle)) == #[trigger] s[i],
{
    let (a, b) = (s.take(middle), s.skip(middle));
    least_is_a_minimum(a);
    least_is_a_minimum(b);
    assert forall|i: int| 0 <= i < middle implies least(a) <= #[trigger] s[i] by {
        assert(a[i] == s[i]);
    }
    assert forall|i: int| middle <= i < s.len() implies least(b) <= #[trigger] s[i] by {
        assert(b[i - middle] == s[i]);
    }
    let i = choose|i: int| 0 <= i < a.len() && a[i] == least(a);
    assert(s[i] == least(a));
    let j = choose|j: int| 0 <= j < b.len() && b[j] == least(b);
    assert(s[middle + j] == least(b));
}

/// The fault that a report finds, if any: a stuck buffer first, then a stopped
/// one.
pub fn fault(health: Health) -> (r: Option<Fault>)
    ensures
        match r {
            Some(Fault::Stalled(ms)) => health.running && health.stalled_ms
                > 15_000 && ms == health.stalled_ms,
            Some(Fault::Stopped(reason)) => !health.running && reason@ == (match health.failure {
                Some(failure) => failure@,
                None => "raison inconnue"@,
            }),
            None => health.running && health.stalled_ms <= 15_000,
        },
{
    if health.stalled() {
        return Some(Fault::Stalled(health.stalled_ms));
    }
    if !health.running {
        return Some(
            Fault::Stopped(
                match health.failure {
                    Some(failure) => failure,
                    None => "raison inconnue".to_owned(),
                },
            ),
        );
    }
    None
}

/// The lowest point is one of the samples, and none is below it.
pub proof fn least_is_a_minimum(s: Seq<u64>)
    requires
        s.len() > 0,
    ensures
        s.contains(least(s)),
        forall|i: int| 0 <= i < s.len() ==> least(s) <= #[trigger] s[i],
    decreases s.len(),
{
    if s.len() == 1 {
        assert(s[0] == least(s));
    } else {
        let rest = s.drop_last();
        least_is_a_minimum(rest);
        let k = choose|k: int| 0 <= k < rest.len() && rest[k] == least(rest);
        assert(s[k] == least(rest));
        assert(s[s.len() - 1] == s.last());
        assert forall|i: int| 0 <= i < s.len() implies least(s) <= #[trigger] s[i] by {
            if i < s.len() - 1 {
                assert(rest[i] == s[i]);
            }
        }
    }
}

} // verus!
