use smartclip::clock::{MasterClock, QpcInstant, HNS_PER_SEC, ticks_to_hns};
use smartclip::{frames_to_hns, hns_since_boot};
use std::time::{Duration, Instant};

#[test]
fn conversion_sans_debordement_sur_longue_duree() {
    let freq = 10_000_000;
    let ticks = 8 * 3600 * freq;
    assert_eq!(ticks_to_hns(ticks, freq), 8 * 3600 * HNS_PER_SEC);
}

#[test]
fn instants_anterieurs_a_lorigine_restent_negatifs() {
    let clock = MasterClock::new(10_000_000, QpcInstant(123_456_789));
    let avant = QpcInstant(clock.origin().0 - clock.frequency());
    assert_eq!(clock.hns_since_origin(avant), -HNS_PER_SEC);
}

#[test]
fn lhorloge_avance() {
    // A counter of nanoseconds, read twice 20 ms apart.
    let start = Instant::now();
    let read = || QpcInstant(start.elapsed().as_nanos() as i64);
    let clock = MasterClock::new(1_000_000_000, read());
    let t0 = clock.hns_since_origin(read());
    let begin = Instant::now();
    while begin.elapsed() < Duration::from_millis(20) {}
    let t1 = clock.hns_since_origin(read());
    assert!(t1 > t0, "t1={t1} devrait dépasser t0={t0}");
    assert!(t1 - t0 >= 150_000, "écart trop faible : {}", t1 - t0);
}

#[test]
fn positions_wrap_above_the_signed_range() {
    assert_eq!(QpcInstant::from_u64(0), QpcInstant(0));
    assert_eq!(QpcInstant::from_u64(i64::MAX as u64), QpcInstant(i64::MAX));
    assert_eq!(QpcInstant::from_u64(1 << 63), QpcInstant(i64::MIN));
    assert_eq!(QpcInstant::from_u64(u64::MAX), QpcInstant(-1));
}

#[test]
fn conversions_round_toward_zero() {
    assert_eq!(ticks_to_hns(1, 3), 3_333_333);
    assert_eq!(ticks_to_hns(-1, 3), -3_333_333);
    assert_eq!(ticks_to_hns(2, 24_000_000), 0);
    assert_eq!(ticks_to_hns(3, 24_000_000), 1);
    assert_eq!(ticks_to_hns(1, -3), -3_333_333);
    assert_eq!(hns_since_boot(24_000_000, 24_000_000), HNS_PER_SEC);
    // A quotient beyond 64 bits keeps its low bits.
    assert_eq!(ticks_to_hns(i64::MAX, 1), (i64::MAX as i128 * 10_000_000) as i64);
}

#[test]
fn later_readings_never_come_first() {
    let clock = MasterClock::new(2_441_407, QpcInstant(1_000));
    let mut before = i64::MIN;
    for reading in -3_000..3_000 {
        let at = clock.hns_since_origin(QpcInstant(reading));
        assert!(at >= before);
        before = at;
    }
    assert_eq!(clock.hns_since_origin(clock.origin()), 0);
}

#[test]
fn whole_seconds_stay_exact_at_odd_frequencies() {
    for freq in [1, 3, 2_441_407, 10_000_000, 3_579_545] {
        for n in [-7, 0, 1, 86_400] {
            assert_eq!(ticks_to_hns(n * freq, freq), n * HNS_PER_SEC);
        }
    }
}

#[test]
fn elapsed_time_is_never_negative() {
    let clock = MasterClock::new(10_000_000, QpcInstant(5_000));
    assert_eq!(clock.elapsed(QpcInstant(5_000 + 25)), Duration::from_nanos(2_500));
    assert_eq!(clock.elapsed(QpcInstant(5_000)), Duration::ZERO);
    assert_eq!(clock.elapsed(QpcInstant(0)), Duration::ZERO);
    let copy = clock.clone();
    assert_eq!(copy.frequency(), 10_000_000);
    assert_eq!(copy.elapsed(QpcInstant(10_005_000)), Duration::from_secs(1));
}

#[test]
fn frames_have_an_exact_length() {
    assert_eq!(frames_to_hns(0), 0);
    assert_eq!(frames_to_hns(1), 208);
    assert_eq!(frames_to_hns(480), 100_000);
    assert_eq!(frames_to_hns(48_000), HNS_PER_SEC);
}
