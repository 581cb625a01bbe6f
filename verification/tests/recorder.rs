use smartclip::audio::Source;
use smartclip::recorder::{
    first_failure, restart_reason, validate, ConfigError, Engine, Health, Heartbeat, Pacer, Received, Recorder,
    RestartPolicy, Shutdown, Stage, Step, TickWrite, MAX_CONSECUTIVE_ERRORS, MIC_RETRY_ROTATIONS,
    STALL_THRESHOLD_MS,
};
use smartclip::segment::SegmentInfo;
use smartclip::video::Capture;
use smartclip::Config;

const SECOND: i64 = 10_000_000;
const MINUTE_NS: u64 = 60_000_000_000;

fn config() -> Config {
    Config::default_in("C:\\Temp")
}

fn source(process: &str, pid: u32) -> Source {
    Source {
        label: process.trim_end_matches(".exe").to_string(),
        process: process.to_string(),
        pid: Some(pid),
        device: None,
    }
}

fn segment(name: &str, seconds: i64, bytes: u64) -> SegmentInfo {
    SegmentInfo { path: name.to_string(), bytes, duration_hns: seconds * SECOND }
}

fn paths(segments: &[SegmentInfo]) -> Vec<&str> {
    segments.iter().map(|s| s.path.as_str()).collect()
}

#[test]
fn un_moteur_sain_n_est_pas_declare_fige() {
    let health = Health {
        stalled_ms: STALL_THRESHOLD_MS - 1,
        ..Health::default()
    };
    assert!(!health.stalled());
}

#[test]
fn un_moteur_arrete_n_est_pas_fige() {
    let health = Health {
        running: false,
        stalled_ms: STALL_THRESHOLD_MS * 10,
        ..Health::default()
    };
    assert!(!health.stalled());
}

#[test]
fn un_silence_prolonge_est_declare_fige() {
    let health = Health {
        stalled_ms: STALL_THRESHOLD_MS + 1,
        ..Health::default()
    };
    assert!(health.stalled());
}

#[test]
fn the_threshold_itself_is_not_a_stall() {
    let health = Health { stalled_ms: STALL_THRESHOLD_MS, ..Health::default() };
    assert!(!health.stalled());
    assert_eq!(STALL_THRESHOLD_MS, 15_000);
}

#[test]
fn health_follows_what_happens() {
    let mut health = Health::default();
    assert!(health.running);
    health.note_restart();
    health.note_restart();
    assert_eq!(health.restarts, 2);
    health.fail("disque plein".to_string());
    assert!(!health.running);
    assert_eq!(health.failure.as_deref(), Some("disque plein"));
    let mut stopped = Health::default();
    stopped.stop();
    assert!(!stopped.running);
    assert!(stopped.failure.is_none());
}

#[test]
fn the_owner_sees_the_silence_of_a_running_engine() {
    let recorder = Recorder::start(vec!["Micro".to_string()]);
    let mut heartbeat = Heartbeat::new();
    heartbeat.beat(2_000);
    let shared = Health { write_errors: 3, ..Health::default() };
    let seen = recorder.health(&shared, &heartbeat, 20_000);
    assert_eq!(seen.stalled_ms, 18_000);
    assert_eq!(seen.write_errors, 3);
    assert!(seen.stalled());
    assert_eq!(recorder.shutdown(&seen), Shutdown::Abandon);
    assert_eq!(recorder.health(&shared, &heartbeat, 1_000).stalled_ms, 0);
    let stopped = Health { running: false, failure: Some("x".to_string()), ..Health::default() };
    let seen = recorder.health(&stopped, &heartbeat, 99_000);
    assert_eq!(seen.stalled_ms, 0);
    assert_eq!(seen.failure.as_deref(), Some("x"));
    assert_eq!(recorder.shutdown(&seen), Shutdown::Join);
}

#[test]
fn tracks_fall_back_to_those_of_the_start() {
    let recorder = Recorder::start(vec!["Jeu".to_string(), "Micro".to_string()]);
    assert_eq!(recorder.initial_tracks(), &["Jeu", "Micro"]);
    assert_eq!(recorder.tracks(None), ["Jeu", "Micro"]);
    assert_eq!(recorder.tracks(Some(vec!["Discord".to_string()])), ["Discord"]);
}

#[test]
fn each_bad_configuration_has_its_message() {
    assert_eq!(validate(&config()), Ok(()));
    let mut short = config();
    short.buffer_hns = 5 * SECOND - 1;
    assert_eq!(validate(&short), Err(ConfigError::BufferTooShort));
    assert_eq!(ConfigError::BufferTooShort.message(), "le buffer doit couvrir au moins 5 secondes");
    let mut zero = config();
    zero.segment_hns = 0;
    assert_eq!(validate(&zero), Err(ConfigError::BadSegmentLength));
    let mut long = config();
    long.segment_hns = long.buffer_hns + 1;
    assert_eq!(validate(&long), Err(ConfigError::BadSegmentLength));
    assert_eq!(
        ConfigError::BadSegmentLength.message(),
        "la durée de segment doit être positive et tenir dans le buffer"
    );
    let mut still = config();
    still.fps = 0;
    assert_eq!(validate(&still), Err(ConfigError::NoFrameRate));
    assert_eq!(ConfigError::NoFrameRate.message(), "la cadence doit être positive");
    let mut bounds = config();
    bounds.buffer_hns = 5 * SECOND;
    bounds.segment_hns = 5 * SECOND;
    assert_eq!(validate(&bounds), Ok(()));
}

#[test]
fn the_default_configuration() {
    let config = config();
    assert_eq!(config.buffer_hns, 60 * SECOND);
    assert_eq!(config.max_bytes, 2_147_483_648);
    assert_eq!(config.segment_hns, 8 * SECOND);
    assert_eq!((config.fps, config.bitrate), (60, 20_000_000));
    assert_eq!((config.max_sources, config.track_slots), (4, 6));
    assert!(config.capture_microphone);
    assert!(config.microphone.is_none());
    assert_eq!(config.workdir, "C:\\Temp\\smartclip");
}

#[test]
fn a_burst_of_restarts_is_fatal() {
    let mut policy = RestartPolicy::new();
    for i in 0..5u64 {
        assert_eq!(policy.restart(i * 10_000_000_000, "écran"), Ok(()));
    }
    assert_eq!(
        policy.restart(50_000_000_000, "écran"),
        Err("6 redémarrages en moins d'une minute, dernier motif : écran".to_string())
    );
}

#[test]
fn isolated_restarts_are_never_fatal() {
    let mut policy = RestartPolicy::new();
    for i in 0..100u64 {
        assert_eq!(policy.restart(i * MINUTE_NS, "écran"), Ok(()));
    }
}

#[test]
fn a_slow_streak_of_restarts_is_not_fatal() {
    let mut policy = RestartPolicy::new();
    for i in 0..60u64 {
        assert_eq!(policy.restart(i * 50_000_000_000, "écran"), Ok(()));
    }
}

#[test]
fn a_minute_is_counted_from_the_first_of_six_restarts() {
    let mut policy = RestartPolicy::new();
    for at in [0, 1, 2, 3, 4] {
        assert_eq!(policy.restart(at, "écran"), Ok(()));
    }
    assert_eq!(policy.restart(MINUTE_NS, "écran"), Ok(()));
    // Those at 1, 2, 3, 4 and a minute, and this one.
    assert!(policy.restart(MINUTE_NS, "écran").is_err());
}

#[test]
fn a_restart_names_its_reason() {
    let capture = Capture::primary_monitor(1920, 1080);
    assert_eq!(restart_reason(&capture, None, Some((1920, 1080))), None);
    assert_eq!(restart_reason(&capture, None, None), None);
    assert_eq!(
        restart_reason(&capture, None, Some((1280, 720))).as_deref(),
        Some("définition passée de 1920×1080 à 1280×720")
    );
    assert_eq!(
        restart_reason(&capture, Some("0x887A0005".to_string()), Some((1280, 720))).as_deref(),
        Some("périphérique graphique perdu : 0x887A0005")
    );
}

#[test]
fn the_loop_sleeps_until_its_next_tick() {
    let mut pacer = Pacer::new(1_000, 60);
    assert_eq!(pacer.tick_ns, 16_666_666);
    pacer.begin();
    assert_eq!(pacer.next_ns, 16_667_666);
    assert_eq!(pacer.end(1_001_000), 15_666_666);
    pacer.begin();
    // Late: the next tick starts over from now.
    assert_eq!(pacer.end(500_000_000), 0);
    assert_eq!(pacer.next_ns, 516_666_666);
}

#[test]
fn commands_come_before_everything_else() {
    let mut config = config();
    config.segment_hns = SECOND / 30;
    let mut engine = Engine::new(&config);
    assert_eq!(engine.next_step(Stage::Commanded(Received::Save)), Step::Save);
    assert_eq!(engine.next_step(Stage::Commanded(Received::Tracks)), Step::AnswerTracks);
    assert_eq!(engine.next_step(Stage::Commanded(Received::Stop)), Step::Stop);
    assert_eq!(engine.next_step(Stage::Commanded(Received::Disconnected)), Step::Stop);
    assert_eq!(engine.next_step(Stage::Commanded(Received::Nothing)), Step::TakePicture);
    assert_eq!(engine.next_step(Stage::Answered), Step::TakePicture);
    assert_eq!(engine.next_step(Stage::PictureTaken(true)), Step::Write);
    assert_eq!(engine.next_step(Stage::PictureTaken(false)), Step::EndTick);
    assert_eq!(engine.next_step(Stage::Written(true)), Step::GiveUp);
    // Two pictures per segment: the second one completes it.
    assert_eq!(engine.next_step(Stage::Written(false)), Step::EndTick);
    engine.end_tick();
    assert_eq!(engine.next_step(Stage::Written(false)), Step::CheckScreen);
    assert_eq!(engine.next_step(Stage::ScreenChecked(true)), Step::Restart);
    assert_eq!(engine.next_step(Stage::ScreenChecked(false)), Step::Rotate);
    assert_eq!(engine.next_step(Stage::Rotated), Step::EndTick);
    assert_eq!(engine.next_step(Stage::Ended), Step::ReadCommand);
}

#[test]
fn pictures_follow_each_other_at_a_constant_rate() {
    let mut engine = Engine::new(&config());
    assert_eq!(engine.frame_time(), (0, 166_666));
    for _ in 0..10 {
        engine.end_tick();
    }
    assert_eq!(engine.index(), 10);
    assert_eq!(engine.frame_time(), (1_666_660, 166_666));
    // A save begins the next segment at this very tick, a rotation behind it.
    engine.saved();
    assert_eq!(engine.frame_time(), (0, 166_666));
    engine.change_segment(vec![]);
    engine.end_tick();
    assert_eq!(engine.frame_time(), (0, 166_666));
}

#[test]
fn a_segment_of_eight_seconds_has_480_pictures() {
    let mut engine = Engine::new(&config());
    for _ in 0..479 {
        assert!(!engine.at_boundary());
        engine.end_tick();
    }
    assert!(engine.at_boundary());
}

#[test]
fn vacant_tracks_are_fed_silence_every_100_ms() {
    let mut config = config();
    config.track_slots = 3;
    config.capture_microphone = false;
    let mut engine = Engine::new(&config);
    engine.populate(vec![source("jeu.exe", 7)]);
    assert_eq!(engine.silent_tracks(), [1, 2]);
    for tick in 1..13u64 {
        engine.end_tick();
        let expected: &[usize] = if tick % 6 == 0 { &[1, 2] } else { &[] };
        assert_eq!(engine.silent_tracks(), expected);
    }
    engine.capture_ended(0);
    assert_eq!(engine.silent_tracks(), [0, 1, 2]);
}

#[test]
fn at_slow_rates_every_tick_brings_silence() {
    let mut config = config();
    config.fps = 5;
    config.track_slots = 1;
    config.capture_microphone = false;
    let mut engine = Engine::new(&config);
    for _ in 0..4 {
        assert_eq!(engine.silent_tracks(), [0]);
        engine.end_tick();
    }
}

#[test]
fn the_microphone_takes_the_last_slot() {
    let mut config = config();
    config.track_slots = 4;
    config.microphone = Some("{device}".to_string());
    let mut engine = Engine::new(&config);
    let start = engine.populate(vec![
        source("a.exe", 1),
        source("b.exe", 2),
        source("c.exe", 3),
        source("d.exe", 4),
    ]);
    assert_eq!(engine.labels(), ["a", "b", "c", "Micro"]);
    let started: Vec<(usize, Option<u32>, Option<&str>)> =
        start.iter().map(|a| (a.index, a.pid, a.device.as_deref())).collect();
    assert_eq!(
        started,
        [
            (3, None, Some("{device}")),
            (0, Some(1), None),
            (1, Some(2), None),
            (2, Some(3), None)
        ]
    );
    assert!(engine.is_active(3));
    assert!(!engine.is_active(4));
}

#[test]
fn without_a_microphone_its_slot_stays_vacant() {
    let mut config = config();
    config.track_slots = 2;
    config.capture_microphone = false;
    let mut engine = Engine::new(&config);
    engine.populate(vec![source("a.exe", 1), source("b.exe", 2)]);
    assert_eq!(engine.labels(), ["a", "(libre 1)"]);
}

#[test]
fn a_lost_microphone_is_tried_again_after_some_rotations() {
    let mut config = config();
    config.track_slots = 2;
    let mut engine = Engine::new(&config);
    engine.populate(vec![]);
    engine.capture_ended(1);
    // At once, then no more before the delay is over.
    let changes = engine.change_sources(None);
    assert_eq!(changes.lost, ["Micro"]);
    assert_eq!(changes.microphone.map(|a| a.index), Some(1));
    engine.capture_ended(1);
    for rotation in 1..=MIC_RETRY_ROTATIONS {
        let changes = engine.change_sources(None);
        assert_eq!(changes.microphone.is_some(), rotation == MIC_RETRY_ROTATIONS);
    }
}

#[test]
fn rotations_follow_the_applications() {
    let mut config = config();
    config.track_slots = 4;
    config.capture_microphone = false;
    let mut engine = Engine::new(&config);
    engine.populate(vec![source("a.exe", 1), source("b.exe", 2)]);
    // `a` restarted under another number, `b` left, `c` came.
    let changes = engine.change_sources(Some(vec![source("A.EXE", 9), source("c.exe", 3)]));
    assert!(changes.lost.is_empty());
    assert!(changes.microphone.is_none());
    assert_eq!(changes.stop, [1]);
    assert_eq!(changes.start.len(), 1);
    assert_eq!((changes.start[0].index, changes.start[0].pid), (1, Some(3)));
    assert_eq!(engine.labels(), ["a", "c", "(libre 2)", "(libre 3)"]);
    let unchanged = engine.change_sources(None);
    assert!(unchanged.stop.is_empty() && unchanged.start.is_empty());
}

#[test]
fn an_incident_does_not_end_the_buffer() {
    let mut engine = Engine::new(&config());
    let mut health = Health::default();
    let verdict = engine.written(&mut health, Some("disque occupé".to_string()));
    assert_eq!(
        verdict.warning.as_deref(),
        Some("écriture en échec (1 d'affilée) : disque occupé")
    );
    assert!(verdict.fatal.is_none());
    assert!(engine.written(&mut health, Some("x".to_string())).warning.is_none());
    // One that succeeds starts the count over.
    let verdict = engine.written(&mut health, None);
    assert!(verdict.warning.is_none() && verdict.fatal.is_none());
    assert_eq!(health.write_errors, 2);
    for n in 1..MAX_CONSECUTIVE_ERRORS {
        let verdict = engine.written(&mut health, Some("x".to_string()));
        assert!(verdict.fatal.is_none());
        assert_eq!(verdict.warning.is_some(), n % 60 == 1);
    }
    let verdict = engine.written(&mut health, Some("panne".to_string()));
    assert_eq!(
        verdict.fatal.as_deref(),
        Some("écriture impossible depuis 120 images : panne")
    );
    assert_eq!(health.write_errors, 122);
}

#[test]
fn a_save_keeps_the_segment_that_was_just_closed() {
    let mut config = config();
    config.buffer_hns = 6 * SECOND;
    let mut engine = Engine::new(&config);
    let purged = engine.change_segment(vec![segment("0", 2, 1), segment("1", 2, 1)]);
    assert!(purged.is_empty());
    let purged = engine.save(vec![segment("2", 2, 1)], segment("3", 2, 1));
    assert_eq!(paths(&purged), ["0"]);
    assert_eq!(paths(engine.ring().segments()), ["1", "2", "3"]);
    let outcome = engine.outcome("clip.mp4".to_string(), 42, 1_500, 2_500);
    assert_eq!(outcome.path, "clip.mp4");
    assert_eq!(outcome.duration_hns, 6 * SECOND);
    assert_eq!(outcome.bytes, 42);
    assert_eq!(outcome.total_us(), 4_000);
    assert_eq!(outcome.tracks.len(), 6);
    assert_eq!(paths(&engine.stop()), ["1", "2", "3"]);
}

#[test]
fn a_tick_without_a_picture_leaves_its_place_empty() {
    let mut engine = Engine::new(&config());
    let mut places = Vec::new();
    for tick in 0..4 {
        if tick == 1 || tick == 3 {
            places.push(engine.frame_time());
        }
        engine.end_tick();
    }
    assert_eq!(places, [(166_666, 166_666), (499_998, 166_666)]);
}

#[test]
fn the_longest_segments_are_counted_as_far_as_the_counter_goes() {
    let mut config = config();
    config.segment_hns = i64::MAX;
    config.fps = u32::MAX;
    let engine = Engine::new(&config);
    assert!(!engine.at_boundary());
}

#[test]
fn the_queues_are_drained_whatever_comes_of_the_picture() {
    let mut config = config();
    config.track_slots = 3;
    config.capture_microphone = false;
    let mut engine = Engine::new(&config);
    assert_eq!(
        engine.tick_writes(&vec![2, 0, 1]),
        [
            TickWrite::Picture,
            TickWrite::Chunk { track: 0, number: 0 },
            TickWrite::Chunk { track: 0, number: 1 },
            TickWrite::Chunk { track: 2, number: 0 },
            TickWrite::Silence { track: 0 },
            TickWrite::Silence { track: 1 },
            TickWrite::Silence { track: 2 },
        ]
    );
    engine.end_tick();
    assert_eq!(
        engine.tick_writes(&vec![0, 1, 0]),
        [TickWrite::Picture, TickWrite::Chunk { track: 1, number: 0 }]
    );
}

#[test]
fn the_first_failed_write_of_a_tick_counts() {
    let failed = |text: &str| Some(text.to_string());
    assert_eq!(first_failure(&vec![]), None);
    assert_eq!(first_failure(&vec![None, None]), None);
    assert_eq!(first_failure(&vec![failed("image"), failed("son"), None]), failed("image"));
    assert_eq!(first_failure(&vec![None, failed("son"), failed("silence")]), failed("son"));
}

#[test]
fn configurations_and_states_can_be_copied() {
    let config = config();
    assert_eq!(config.clone().workdir, config.workdir);
    let mut health = Health::default();
    health.fail("panne".to_string());
    let copy = health.clone();
    assert_eq!((copy.running, copy.failure.as_deref()), (false, Some("panne")));
}
