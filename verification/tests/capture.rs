use smartclip::clock::QpcInstant;
use smartclip::endurance::{fault, Campaign, Fault, Verdict, REPORT_NS, SAVE_NS};
use smartclip::meter::{
    count_evictions, drift_spread, encoder_settings, first_packet_spread, in_sync, leaks, picture_drift,
    picture_position, recording_name, saved_instantly, sound_position, AudioReport, TrackStats,
    VideoPts, DRIFT_PER_MS,
};
use smartclip::recorder::Health;
use smartclip::segment::SegmentInfo;
use smartclip::video::{Capture, TexturePlan, TextureSource, TEXTURE_RING};
use smartclip::voice::{
    is_confident, poll, Confidence, OperationState, Poll, Reaction, VoiceError, VoiceTrigger,
};

#[test]
fn nothing_is_encoded_before_a_first_picture() {
    let mut capture = Capture::primary_monitor(1920, 1080);
    assert_eq!(capture.next_texture(0, false), None);
    assert_eq!(
        capture.next_texture(1, true),
        Some(TexturePlan { slot: 1, source: TextureSource::Frame, fresh: true })
    );
    assert_eq!(
        capture.next_texture(2, false),
        Some(TexturePlan { slot: 2, source: TextureSource::Texture(1), fresh: false })
    );
    assert_eq!(
        capture.next_texture(8, false),
        Some(TexturePlan { slot: 0, source: TextureSource::Texture(7), fresh: false })
    );
}

#[test]
fn a_still_screen_repeats_the_last_picture() {
    let mut capture = Capture::primary_monitor(1920, 1080);
    let mut textures = vec![0u64; TEXTURE_RING];
    let mut last = None;
    for index in 0..100u64 {
        let arrived = index > 2 && index % 23 == 3;
        let plan = capture.next_texture(index, arrived);
        if arrived {
            last = Some(index);
        }
        match plan {
            Some(plan) => {
                textures[plan.slot] = match plan.source {
                    TextureSource::Frame => index,
                    TextureSource::Texture(other) => textures[other],
                };
                assert_eq!(Some(textures[plan.slot]), last);
                assert_eq!(plan.fresh, arrived);
            }
            None => assert_eq!(last, None),
        }
    }
}

#[test]
fn a_change_of_resolution_is_noticed() {
    let capture = Capture::primary_monitor(1920, 1080);
    assert_eq!(capture.resolution_change(Some((1920, 1080))), None);
    assert_eq!(capture.resolution_change(Some((1280, 1080))), Some((1280, 1080)));
    assert_eq!(capture.resolution_change(Some((1920, 720))), Some((1920, 720)));
    assert_eq!(capture.resolution_change(Some((0, 720))), None);
    assert_eq!(capture.resolution_change(Some((1280, 0))), None);
    assert_eq!(capture.resolution_change(None), None);
    assert_eq!(capture.resolution_change(Some((-1, 1))), Some((u32::MAX, 1)));
}

#[test]
fn a_phrase_has_to_be_long_enough() {
    let trigger = VoiceTrigger::start("  sauvegarde \t").unwrap();
    assert_eq!(trigger.phrase, "sauvegarde");
    assert!(VoiceTrigger::start("clippé").is_ok());
    let error = VoiceTrigger::start("  clip    ").unwrap_err();
    assert_eq!(error, VoiceError::PhraseTooShort);
    assert_eq!(error.message(), "la phrase d'activation doit faire au moins 6 caractères");
    assert_eq!(trigger.compiled(0), Ok(()));
    let error = trigger.compiled(-5).unwrap_err();
    assert_eq!(error, VoiceError::Refused(-5));
    assert_eq!(error.message(), "Windows a refusé la phrase d'activation (statut -5)");
}

#[test]
fn only_sure_recognitions_trigger() {
    let mut trigger = VoiceTrigger::start("sauvegarde").unwrap();
    assert_eq!(trigger.hear(true, Some(Confidence::High)), Reaction::Trigger);
    assert_eq!(trigger.hear(true, Some(Confidence::Medium)), Reaction::Trigger);
    assert_eq!(trigger.hear(true, Some(Confidence::Low)), Reaction::Unsure);
    assert_eq!(trigger.hear(true, Some(Confidence::Rejected)), Reaction::Unsure);
    assert_eq!(trigger.hear(true, None), Reaction::Unsure);
    assert_eq!(trigger.hear(false, Some(Confidence::High)), Reaction::Ignore);
    trigger.stop();
    assert_eq!(trigger.hear(true, Some(Confidence::High)), Reaction::Ignore);
    assert!(is_confident(Confidence::Medium));
    assert!(!is_confident(Confidence::Low));
}

#[test]
fn an_operation_has_until_its_deadline() {
    assert_eq!(poll(OperationState::Started, 10, 10), Poll::Wait);
    assert_eq!(poll(OperationState::Started, 11, 10), Poll::TimedOut);
    assert_eq!(poll(OperationState::Completed, 11, 10), Poll::Ready);
    assert_eq!(poll(OperationState::Error, 0, 10), Poll::Failed);
    assert_eq!(poll(OperationState::Canceled, 0, 10), Poll::Failed);
}

#[test]
fn the_reference_is_taken_once_things_have_settled() {
    let mut campaign = Campaign::new(0);
    assert!(!campaign.sample(10, 80));
    assert_eq!((campaign.baseline, campaign.peak), (0, 80));
    assert!(campaign.samples.is_empty());
    assert!(campaign.sample(30, 70));
    assert_eq!((campaign.baseline, campaign.peak), (70, 70));
    assert!(!campaign.sample(31, 90));
    assert_eq!((campaign.baseline, campaign.peak), (70, 90));
    assert_eq!(campaign.samples, [70, 90]);
}

#[test]
fn saves_and_reports_come_at_their_intervals() {
    let mut campaign = Campaign::new(1_000);
    assert!(!campaign.report_due(1_000 + REPORT_NS - 1));
    assert!(campaign.report_due(1_000 + REPORT_NS));
    assert_eq!(campaign.next_report_ns, 1_000 + 2 * REPORT_NS);
    assert!(!campaign.save_due(SAVE_NS));
    assert!(campaign.save_due(1_000 + SAVE_NS));
    assert!(!campaign.save_due(1_000 + SAVE_NS));
    campaign.saved(1_500);
    campaign.saved(500);
    assert_eq!((campaign.saves, campaign.save_us_total), (2, 2_000));
}

#[test]
fn a_verdict_compares_the_low_points() {
    let mut campaign = Campaign::new(0);
    for memory in [100, 300, 110, 140, 400, 150] {
        campaign.sample(60, memory);
    }
    assert_eq!(
        campaign.verdict(999),
        Verdict { early: 100, late: 140, growth: 40, suspicious: false }
    );
    campaign.samples = vec![100, 151];
    assert_eq!(
        campaign.verdict(0),
        Verdict { early: 100, late: 151, growth: 51, suspicious: true }
    );
    campaign.samples = vec![];
    campaign.baseline = 200;
    assert_eq!(
        campaign.verdict(150),
        Verdict { early: 200, late: 150, growth: -50, suspicious: false }
    );
}

#[test]
fn a_report_finds_what_is_wrong() {
    assert!(fault(Health::default()).is_none());
    let stuck = Health { stalled_ms: 16_000, ..Health::default() };
    assert!(matches!(fault(stuck), Some(Fault::Stalled(16_000))));
    let failed = Health { running: false, failure: Some("x".to_string()), ..Health::default() };
    assert!(matches!(fault(failed), Some(Fault::Stopped(reason)) if reason == "x"));
    let stopped = Health { running: false, ..Health::default() };
    assert!(matches!(fault(stopped), Some(Fault::Stopped(reason)) if reason == "raison inconnue"));
}

#[test]
fn a_recorded_track_counts_its_packets() {
    let mut stats = TrackStats::new();
    assert!(!stats.record(480, 0, true, QpcInstant(100)));
    assert!(stats.record(480, 2, true, QpcInstant(200)));
    assert!(stats.record(240, 1, false, QpcInstant(300)));
    assert_eq!((stats.frames, stats.silent_packets, stats.discontinuities), (1_200, 2, 1));
    assert_eq!(stats.first, Some(QpcInstant(100)));
    assert_eq!(stats.last, Some(QpcInstant(300)));
}

#[test]
fn drift_is_the_time_counted_less_the_time_passed() {
    let mut report = AudioReport::new("Jeu".to_string());
    report.record(480, 0, 1_000);
    report.record(480, 1, 101_000);
    report.record(480, 0, 201_000);
    assert_eq!((report.frames, report.discontinuities), (1_440, 1));
    assert_eq!(report.drift_units(), 0);
    // A device that is one frame ahead.
    report.frames += 1;
    assert_eq!(report.drift_units(), 10_000_000);
    assert!(in_sync(&vec![report], 399_999));
    let mut slow = AudioReport::new("Micro".to_string());
    slow.record(480, 0, 0);
    slow.record(480, 0, 100_000 + 400_000);
    assert_eq!(slow.drift_units(), -40 * DRIFT_PER_MS);
    assert!(!in_sync(&vec![slow], 0));
    assert!(!in_sync(&vec![], -400_000));
}

#[test]
fn first_packets_are_compared() {
    assert_eq!(first_packet_spread(&vec![5, -3, 9]), Some(12));
    assert_eq!(first_packet_spread(&vec![5]), None);
    assert_eq!(first_packet_spread(&vec![]), None);
    assert_eq!(first_packet_spread(&vec![i64::MIN, i64::MAX]), Some(u64::MAX as i128));
}

#[test]
fn positions_never_fall_below_zero() {
    assert_eq!(sound_position(150, 100), 50);
    assert_eq!(sound_position(50, 100), 0);
    assert_eq!(picture_position(VideoPts::Qpc, 150, 100, 9, 9), 50);
    assert_eq!(picture_position(VideoPts::Qpc, 50, 100, 9, 9), 0);
    assert_eq!(picture_position(VideoPts::Cfr, 50, 100, 3, 166_666), 499_998);
    assert_eq!(picture_drift(500, 1_400, 1_000), 100);
}

#[test]
fn small_growth_is_no_leak() {
    assert!(!leaks(100, 50));
    assert!(!leaks(100, 100 + 67_108_864));
    assert!(leaks(100, 101 + 67_108_864));
    assert!(saved_instantly(999_999));
    assert!(!saved_instantly(1_000_000));
}

#[test]
fn purges_are_told_apart_by_their_cause() {
    let segment = |seconds: i64| SegmentInfo {
        path: String::new(),
        bytes: 1,
        duration_hns: seconds * 10_000_000,
    };
    let segments: Vec<SegmentInfo> = [4, 3, 2, 2].map(segment).into();
    // 11 s, then 7 s, then 4 s are left before each of three purges.
    assert_eq!(count_evictions(&segments, 3, 60_000_000), (2, 1));
    assert_eq!(count_evictions(&segments, 0, 60_000_000), (0, 0));
}

#[test]
fn encoders_are_asked_for_short_groups() {
    let settings = encoder_settings(3, 20_000_000, 60);
    assert_eq!((settings.rate_control, settings.gop_size), (3, 120));
    assert_eq!((settings.mean_bitrate, settings.max_bitrate), (20_000_000, 20_000_000));
}

#[test]
fn recordings_are_named_after_their_source() {
    assert_eq!(recording_name("Discord.exe"), "Discord-Discord.wav");
    assert_eq!(recording_name("jeu.exe"), "Autres-jeu.wav");
}

#[test]
fn tracks_are_as_far_apart_as_their_drifts() {
    let track = |frames: u32, end: i64| {
        let mut report = AudioReport::new("Jeu".to_string());
        report.record(frames, 0, 0);
        report.record(480, 0, end);
        report
    };
    // In time, 10 ms ahead, and 5 ms behind.
    let reports =
        vec![track(48_000, 10_000_000), track(48_480, 10_000_000), track(48_000, 10_050_000)];
    assert_eq!(drift_spread(&reports), Some(15 * DRIFT_PER_MS));
    assert_eq!(drift_spread(&reports[..1].to_vec()), None);
    assert_eq!(drift_spread(&vec![]), None);
}
