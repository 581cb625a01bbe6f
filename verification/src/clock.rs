//! The single reference clock of the engine.
//!
//! Every source stamps its samples on one counter: video through the system
//! relative time of its frames, each audio track through the counter position
//! of its packets. That is what lets several tracks be muxed without drift. The
//! counter itself is read by the caller; this module places readings on the
//! timeline.
use std::time::Duration;
use vstd::prelude::*;

verus! {

/// Media time is counted in units of 100 nanoseconds.
pub const HNS_PER_SEC: i64 = 10_000_000;

/// An instant in raw counter ticks, as the system hands it out.
///
/// It converts to a position only through a [`MasterClock`], which knows the
/// frequency and the origin.
#[derive(Debug, Clone, Copy, PartialEq, Eq, PartialOrd, Ord, Structural)]
pub struct QpcInstant(pub i64);

impl QpcInstant {
    /// Takes the unsigned position that audio packets carry. Positions above
    /// the signed range wrap to negative ones.
    pub fn from_u64(ticks: u64) -> (r: Self)
        ensures
            r.0 == (if ticks <= i64::MAX {
                ticks as int
            } else {
                ticks - 0x1_0000_0000_0000_0000
            }),
    {
        proof {
            assert(ticks > 0x7fff_ffff_ffff_ffff ==> ticks as i64 == ticks
                - 0x1_0000_0000_0000_0000) by (bit_vector);
        }
        QpcInstant(ticks as i64)
    }
}

/// The quotient of a division that rounds toward zero.
pub open spec fn trunc_div(a: int, b: int) -> int {
    if a >= 0 {
        a / b
    } else {
        -((-a) / b)
    }
}

/// The length of `ticks` counter ticks in units of 100 ns, rounded toward zero.
pub open spec fn hns_of_ticks(ticks: int, freq: int) -> int {
    trunc_div(ticks * HNS_PER_SEC, freq)
}

/// What [`Duration::from_nanos`] makes of a number of nanoseconds.
pub uninterp spec fn duration_of_nanos(nanos: u64) -> Duration;

/// [`Duration::from_nanos`] depends on its argument alone.
pub assume_specification[ Duration::from_nanos ](nanos: u64) -> (r: Duration)
    ensures
        r == duration_of_nanos(nanos),
;

/// Converts counter ticks to units of 100 ns.
///
/// The product is taken in 128 bits: at 10 MHz it would overflow 64 bits after
/// half an hour, which is the very regime of a permanent buffer. A quotient
/// beyond 64 bits keeps its low bits.
pub fn ticks_to_hns(ticks: i64, freq: i64) -> (r: i64)
    requires
        freq != 0,
    ensures
        r == hns_of_ticks(ticks as int, freq as int) as i64,
        i64::MIN <= hns_of_ticks(ticks as int, freq as int) <= i64::MAX ==> r == hns_of_ticks(
            ticks as int,
            freq as int,
        ),
{
    let product: i128 = ticks as i128 * HNS_PER_SEC as i128;
    let divisor: i128 = freq as i128;
    proof {
        let a: int = if product >= 0 {
            product as int
        } else {
            -product
        };
        let b: int = freq as int;
        assert(-a <= a / b <= a) by (nonlinear_arith)
            requires
                a >= 0,
                b != 0,
        ;
        assert(product == ticks * 10_000_000);
        assert(product > -0x8000_0000_0000_0000_0000_0000_0000_0000int);
    }
    (product / divisor) as i64
}

/// The master clock of a capture session.
///
/// Made once when a session starts; its origin is the zero of the timeline of
/// every segment.
#[derive(Debug)]
pub struct MasterClock {
    freq: i64,
    origin: i64,
}

impl Clone for MasterClock {
    fn clone(&self) -> (r: Self)
        ensures
            r == *self,
    {
        proof {
            use_type_invariant(self);
        }
        MasterClock { freq: self.freq, origin: self.origin }
    }
}

impl MasterClock {
    #[verifier::type_invariant]
    spec fn well_formed(self) -> bool {
        self.freq > 0
    }

    /// Ticks per second.
    pub closed spec fn ticks_per_second(self) -> int {
        self.freq as int
    }

    /// The counter reading at the zero of the timeline.
    pub closed spec fn zero(self) -> int {
        self.origin as int
    }

    /// The position of an instant on the timeline, in units of 100 ns.
    pub open spec fn position(self, at: QpcInstant) -> int {
        hns_of_ticks(at.0 - self.zero(), self.ticks_per_second())
    }

    /// Starts a clock whose origin is the given reading of the counter.
    pub fn new(freq: i64, origin: QpcInstant) -> (r: Self)
        requires
            freq > 0,
        ensures
            r.ticks_per_second() == freq,
            r.zero() == origin.0,
    {
        MasterClock { freq, origin: origin.0 }
    }

    /// Frequency of the counter, in ticks per second.
    pub fn frequency(&self) -> (r: i64)
        ensures
            r == self.ticks_per_second(),
            r > 0,
    {
        proof {
            use_type_invariant(self);
        }
        self.freq
    }

    /// Origin of the timeline, in absolute ticks.
    pub fn origin(&self) -> (r: QpcInstant)
        ensures
            r.0 == self.zero(),
    {
        QpcInstant(self.origin)
    }

    /// Position of an instant on the timeline, in units of 100 ns.
    ///
    /// It can be negative: a packet may carry a time before the origin, because
    /// the device had it in its buffer before the capture began. Trimming it is
    /// up to the muxer.
    pub fn hns_since_origin(&self, at: QpcInstant) -> (r: i64)
        requires
            i64::MIN <= at.0 - self.zero() <= i64::MAX,
        ensures
            r == self.position(at) as i64,
            i64::MIN <= self.position(at) <= i64::MAX ==> r == self.position(at),
    {
        proof {
            use_type_invariant(self);
        }
        ticks_to_hns(at.0 - self.origin, self.freq)
    }

    /// Time from the origin to the reading `now`, never below zero.
    pub fn elapsed(&self, now: QpcInstant) -> (r: Duration)
        requires
            i64::MIN <= now.0 - self.zero() <= i64::MAX,
            (self.position(now) as i64) * 100 <= u64::MAX,
        ensures
            r == duration_of_nanos(
                if (self.position(now) as i64) > 0 {
                    ((self.position(now) as i64) * 100) as u64
                } else {
                    0
                },
            ),
    {
        let hns: i64 = self.hns_since_origin(now);
        let nanos: u64 = if hns > 0 {
            hns as u64 * 100
        } else {
            0
        };
        Duration::from_nanos(nanos)
    }
}

/// Later instants never come first: the conversion keeps the order of readings,
/// whatever the frequency.
pub proof fn conversion_keeps_order(earlier: int, later: int, freq: int)
    requires
        earlier <= later,
        freq > 0,
    ensures
        hns_of_ticks(earlier, freq) <= hns_of_ticks(later, freq),
{
    let a = earlier * HNS_PER_SEC;
    let b = later * HNS_PER_SEC;
    if a >= 0 {
        vstd::arithmetic::div_mod::lemma_div_is_ordered(a, b, freq);
    } else if b >= 0 {
        vstd::arithmetic::div_mod::lemma_div_pos_is_pos(-a, freq);
        vstd::arithmetic::div_mod::lemma_div_pos_is_pos(b, freq);
    } else {
        vstd::arithmetic::div_mod::lemma_div_is_ordered(-b, -a, freq);
    }
}

/// The origin stands at zero, and an instant before it is never placed after it.
pub proof fn instants_before_the_origin_are_not_positive(clock: MasterClock, at: QpcInstant)
    requires
        clock.ticks_per_second() > 0,
        at.0 <= clock.zero(),
    ensures
        clock.position(at) <= 0,
        clock.position(QpcInstant(clock.zero() as i64)) == 0,
{
    conversion_keeps_order(at.0 - clock.zero(), 0, clock.ticks_per_second());
    vstd::arithmetic::div_mod::lemma_div_of0(clock.ticks_per_second());
}

/// `n` seconds of ticks are `n` seconds on the timeline, at every frequency and
/// however long the session: nothing overflows on the way.
pub proof fn whole_seconds_are_exact(n: int, freq: int)
    requires
        freq > 0,
    ensures
        hns_of_ticks(n * freq, freq) == n * HNS_PER_SEC,
{
    if n >= 0 {
        assert(n * freq * HNS_PER_SEC == (n * HNS_PER_SEC) * freq) by (nonlinear_arith);
        assert(n * freq * HNS_PER_SEC >= 0) by (nonlinear_arith)
            requires
                n >= 0,
                freq > 0,
        ;
        vstd::arithmetic::div_mod::lemma_div_by_multiple(n * HNS_PER_SEC, freq);
    } else {
        assert(-(n * freq * HNS_PER_SEC) == (-n * HNS_PER_SEC) * freq) by (nonlinear_arith);
        assert(n * freq * HNS_PER_SEC < 0) by (nonlinear_arith)
            requires
                n < 0,
                freq > 0,
        ;
        vstd::arithmetic::div_mod::lemma_div_by_multiple(-n * HNS_PER_SEC, freq);
    }
}

/// A quotient times its divisor falls short of the dividend by less than the
/// divisor, and never goes beyond it, on either side of zero.
pub proof fn quotients_fall_short(a: int, b: int)
    requires
        b != 0,
    ensures
        ({
            let left = a - trunc_div(a, b) * b;
            let most = if b > 0 {
                b
            } else {
                -b
            };
            &&& a >= 0 ==> 0 <= left < most
            &&& a <= 0 ==> -most < left <= 0
        }),
{
    let m = if a >= 0 {
        a
    } else {
        -a
    };
    assert(({
        let left = m - (m / b) * b;
        0 <= left < (if b > 0 {
            b
        } else {
            -b
        })
    })) by (nonlinear_arith)
        requires
            b != 0,
    ;
    assert((-(m / b)) * b == -((m / b) * b)) by (nonlinear_arith);
    if a == 0 {
        vstd::arithmetic::div_mod::lemma_div_of0(b);
    }
}

/// A position is true to the counter within one unit of 100 ns: it is the last
/// whole unit that the ticks have filled. Ticks before the origin count the same
/// way, downward.
pub proof fn positions_are_true_to_the_counter(ticks: int, freq: int)
    requires
        freq > 0,
    ensures
        ticks >= 0 ==> {
            &&& hns_of_ticks(ticks, freq) * freq <= ticks * 10_000_000
            &&& ticks * 10_000_000 < hns_of_ticks(ticks, freq) * freq + freq
        },
        hns_of_ticks(-ticks, freq) == -hns_of_ticks(ticks, freq),
{
    quotients_fall_short(ticks * 10_000_000, freq);
    assert((-ticks) * 10_000_000 == -(ticks * 10_000_000));
    if ticks == 0 {
        vstd::arithmetic::div_mod::lemma_div_of0(freq);
    }
}

/// A clock places its readings by the way from its origin: as many seconds on the
/// timeline as the counter has made times its frequency, to the unit.
pub proof fn clocks_count_from_their_origin(clock: MasterClock, at: QpcInstant)
    requires
        clock.ticks_per_second() > 0,
        at.0 >= clock.zero(),
    ensures
        clock.position(at) * clock.ticks_per_second() <= (at.0 - clock.zero()) * 10_000_000,
        (at.0 - clock.zero()) * 10_000_000 < (clock.position(at) + 1) * clock.ticks_per_second(),
{
    positions_are_true_to_the_counter(at.0 - clock.zero(), clock.ticks_per_second());
    assert((clock.position(at) + 1) * clock.ticks_per_second() == clock.position(at)
        * clock.ticks_per_second() + clock.ticks_per_second()) by (nonlinear_arith);
}

} // verus!
