use smartclip::bench::{bench_option_at, measure, BenchFlag, BenchValue, Measure};
use smartclip::cli::{
    command, gain_texts, mix_option_at, option_at, summarize_gaps, CliError, Command, Flag,
    MixOption, Value,
};
use smartclip::desktop::{
    clear_preview, default_hotkey, default_output, gain_table, hotkey_status, is_free_slot,
    occupied_tracks, overlay_position, preview_directory, preview_tracks, saved_text,
    settings_file, voice_status, wants_voice, Registration, TrackView,
};
use smartclip::meter::VideoPts;
use smartclip::slots::SlotMap;

fn strings(texts: &[&str]) -> Vec<String> {
    texts.iter().map(|s| s.to_string()).collect()
}

fn shown(tracks: &[TrackView]) -> Vec<(usize, &str)> {
    tracks.iter().map(|t| (t.index, t.label.as_str())).collect()
}

#[test]
fn the_first_argument_names_the_command() {
    assert_eq!(command(&strings(&["mix", "a.mp4"])), Command::Mix);
    assert_eq!(command(&strings(&["tracks"])), Command::Tracks);
    assert_eq!(command(&strings(&["probe"])), Command::Probe);
    assert_eq!(command(&strings(&["list"])), Command::List);
    assert_eq!(command(&strings(&["--fps", "30"])), Command::Record);
    assert_eq!(command(&strings(&["Mix"])), Command::Record);
    assert_eq!(command(&vec![]), Command::Record);
}

#[test]
fn options_come_with_their_values() {
    let args = strings(&["--fps", "30", "--max-mb", "2", "--output", "C:\\x", "-h"]);
    let fps = option_at(&args, 0).unwrap();
    assert_eq!((fps.flag, fps.taken), (Flag::Fps, 2));
    assert!(matches!(fps.value, Value::Number(30)));
    let bytes = option_at(&args, 2).unwrap();
    assert!(matches!(bytes.value, Value::Number(2_097_152)));
    let output = option_at(&args, 4).unwrap();
    assert!(matches!(output.value, Value::Text(path) if path == "C:\\x"));
    let help = option_at(&args, 6).unwrap();
    assert_eq!((help.flag, help.taken), (Flag::Help, 1));
    assert!(matches!(help.value, Value::Nothing));
}

#[test]
fn every_option_is_known() {
    for (name, flag) in [
        ("--buffer", Flag::Buffer),
        ("--max-mb", Flag::MaxMb),
        ("--segment", Flag::Segment),
        ("--fps", Flag::Fps),
        ("--bitrate", Flag::Bitrate),
        ("--sources", Flag::Sources),
        ("--workdir", Flag::Workdir),
        ("--output", Flag::Output),
        ("--auto-save", Flag::AutoSave),
        ("--duration", Flag::Campaign),
        ("--help", Flag::Help),
    ] {
        assert_eq!(option_at(&strings(&[name, "1"]), 0).unwrap().flag, flag);
    }
}

#[test]
fn each_bad_option_has_its_message() {
    let missing = option_at(&strings(&["--fps"]), 0).unwrap_err();
    assert!(matches!(missing, CliError::MissingValue(_)));
    assert_eq!(missing.message(), "valeur manquante après --fps");
    let unknown = option_at(&strings(&["--truc", "1"]), 0).unwrap_err();
    assert!(matches!(unknown, CliError::Unknown(_)));
    assert_eq!(unknown.message(), "option inconnue : --truc (voir --help)");
    let bad = option_at(&strings(&["--fps", "-1"]), 0).unwrap_err();
    assert!(matches!(bad, CliError::BadNumber(_)));
    assert_eq!(bad.message(), "nombre invalide : -1");
    assert!(option_at(&strings(&["--fps", "4294967296"]), 0).is_err());
    assert!(option_at(&strings(&["--max-mb", "17592186044415"]), 0).is_ok());
    assert!(option_at(&strings(&["--max-mb", "17592186044416"]), 0).is_err());
}

#[test]
fn gains_are_split_at_commas() {
    assert_eq!(gain_texts("1, 0.5 ,0"), ["1", "0.5", "0"]);
    assert_eq!(gain_texts(""), [""]);
}

#[test]
fn the_mix_has_options_of_its_own() {
    let args = strings(&["-o", "x.mp4", "--output", "y.mp4", "--gains", "1,0", "--gains"]);
    assert!(matches!(mix_option_at(&args, 0), Ok(MixOption::Output(p)) if p == "x.mp4"));
    assert!(matches!(mix_option_at(&args, 2), Ok(MixOption::Output(p)) if p == "y.mp4"));
    assert!(matches!(mix_option_at(&args, 4), Ok(MixOption::Gains(g)) if g == ["1", "0"]));
    let missing = mix_option_at(&args, 6).unwrap_err();
    assert_eq!(missing.message(), "valeur manquante après --gains");
    let missing = mix_option_at(&strings(&["-o"]), 0).unwrap_err();
    assert_eq!(missing.message(), "valeur manquante après --output");
    let unknown = mix_option_at(&args, 1).unwrap_err();
    assert!(matches!(unknown, CliError::NotAnOption(_)));
    assert_eq!(unknown.message(), "option inconnue : x.mp4");
}

#[test]
fn each_measure_has_its_options() {
    assert_eq!(measure("video"), Some(Measure::Video));
    assert_eq!(measure("sound"), Some(Measure::Sound));
    assert_eq!(measure("sync"), Some(Measure::Sync));
    assert_eq!(measure("ring"), Some(Measure::Ring));
    assert_eq!(measure("autre"), None);
    let accepted = |name: &str| -> Vec<Measure> {
        let args = strings(&[name, if name == "--video-pts" { "qpc" } else { "1" }]);
        [Measure::Video, Measure::Sound, Measure::Sync, Measure::Ring]
            .into_iter()
            .filter(|m| bench_option_at(*m, &args, 0).is_ok())
            .collect()
    };
    let (video, sound, sync, ring) =
        (Measure::Video, Measure::Sound, Measure::Sync, Measure::Ring);
    for name in ["--minutes", "--fps", "--bitrate"] {
        assert_eq!(accepted(name), [video, sync, ring]);
    }
    for name in [
        "--seconds", "--outdir", "--no-loopback", "--no-mic", "--discover-only",
        "--activate-only",
    ] {
        assert_eq!(accepted(name), [sound]);
    }
    for name in ["--buffer", "--max-mb", "--segment", "--workdir"] {
        assert_eq!(accepted(name), [ring]);
    }
    assert_eq!(accepted("--rc"), [video]);
    assert_eq!(accepted("--out"), [video, sync]);
    assert_eq!(accepted("--max-sources"), [sync, ring]);
    assert_eq!(accepted("--video-pts"), [sync]);
    assert!(accepted("--truc").is_empty());
}

#[test]
fn options_of_measures_come_with_their_values() {
    let args = strings(&["--video-pts", "cfr", "--max-sources", "3", "--out", "x.mp4"]);
    let pts = bench_option_at(Measure::Sync, &args, 0).unwrap();
    assert_eq!(pts.flag, BenchFlag::Pts);
    assert!(matches!(pts.value, BenchValue::Pts(VideoPts::Cfr)));
    let sources = bench_option_at(Measure::Sync, &args, 2).unwrap();
    assert!(matches!(sources.value, BenchValue::Number(3)));
    let out = bench_option_at(Measure::Sync, &args, 4).unwrap();
    assert!(matches!(out.value, BenchValue::Text(path) if path == "x.mp4"));
    let bytes = bench_option_at(Measure::Ring, &strings(&["--max-mb", "2"]), 0).unwrap();
    assert!(matches!(bytes.value, BenchValue::Number(2_097_152)));
    let alone = bench_option_at(Measure::Sound, &strings(&["--no-mic"]), 0).unwrap();
    assert!(matches!(alone.value, BenchValue::Nothing));
}

#[test]
fn each_bad_option_of_a_measure_has_its_message() {
    let bad = bench_option_at(Measure::Sync, &strings(&["--video-pts", "x"]), 0).unwrap_err();
    assert!(matches!(bad, CliError::BadPts(_)));
    assert_eq!(bad.message(), "--video-pts attend qpc ou cfr, reçu x");
    let missing = bench_option_at(Measure::Sync, &strings(&["--out"]), 0).unwrap_err();
    assert_eq!(missing.message(), "valeur manquante après --out");
    let unknown = bench_option_at(Measure::Sync, &strings(&["--rc", "1"]), 0).unwrap_err();
    assert_eq!(unknown.message(), "option inconnue : --rc");
    let number = bench_option_at(Measure::Sync, &strings(&["--fps", "x"]), 0).unwrap_err();
    assert_eq!(number.message(), "nombre invalide : x");
}

#[test]
fn irregular_gaps_stand_out() {
    let gaps = vec![10, 10, 40, 10, 10, 16, 9];
    let summary = summarize_gaps(&gaps).unwrap();
    assert_eq!((summary.count, summary.total, summary.longest), (7, 105, 40));
    // The mean is 15: only what exceeds 22.5 counts.
    assert_eq!(summary.irregular, 1);
    assert_eq!(summary.worst, [40, 16, 10, 10, 10]);
    let few = summarize_gaps(&vec![3, -1, 7]).unwrap();
    assert_eq!(few.worst, [7, 3, -1]);
    assert_eq!(few.irregular, 1);
    assert!(summarize_gaps(&vec![]).is_none());
    let regular = summarize_gaps(&vec![10, 15, 5]).unwrap();
    assert_eq!(regular.irregular, 0);
    let wide = summarize_gaps(&vec![i64::MAX, i64::MIN, i64::MAX, i64::MIN]).unwrap();
    assert_eq!((wide.total, wide.irregular), (-2, 2));
    let below = summarize_gaps(&vec![-10, -15, -16, -30]).unwrap();
    // The mean is -17.75: what exceeds -26.625 counts.
    assert_eq!(below.irregular, 3);
}

#[test]
fn vacant_slots_are_not_shown() {
    assert!(is_free_slot("(libre 3)"));
    assert!(!is_free_slot("Jeu"));
    assert!(!is_free_slot("libre"));
    for label in SlotMap::new(12).labels() {
        assert!(is_free_slot(&label));
    }
    let labels = strings(&["Jeu", "(libre 1)", "Discord", "(libre 3)", "Micro"]);
    assert_eq!(shown(&occupied_tracks(&labels)), [(0, "Jeu"), (2, "Discord"), (4, "Micro")]);
}

#[test]
fn extracted_tracks_without_a_label_are_numbered() {
    let labels = strings(&["Jeu", "(libre 1)"]);
    let tracks = preview_tracks(4, &labels);
    assert_eq!(shown(&tracks), [(0, "Jeu"), (2, "Piste 3"), (3, "Piste 4")]);
    assert_eq!(shown(&preview_tracks(1, &labels)), [(0, "Jeu")]);
}

#[test]
fn tracks_without_a_gain_are_off() {
    let gains = vec![(2usize, 0.5f32), (9, 1.0), (0, 1.0), (2, 0.25)];
    assert_eq!(gain_table(&gains, 4, 0.0), [1.0, 0.0, 0.25, 0.0]);
    assert!(gain_table(&gains, 0, 0.0).is_empty());
}

#[test]
fn a_refused_shortcut_is_explained() {
    let done = hotkey_status("Ctrl+Shift+X", Registration::Done);
    assert!(done.registered && done.error.is_none());
    assert_eq!(done.combination, "Ctrl+Shift+X");
    let unreadable = hotkey_status("Ctrl+", Registration::Unreadable);
    assert!(!unreadable.registered);
    assert_eq!(unreadable.error.as_deref(), Some("combinaison « Ctrl+ » non reconnue"));
    let refused = hotkey_status("F9", Registration::Refused("pris".to_string()));
    assert!(!refused.registered);
    assert_eq!(
        refused.error.as_deref(),
        Some("« F9 » est refusé par Windows, probablement déjà utilisé par une autre application (pris)")
    );
    assert_eq!(default_hotkey(), "Ctrl+Shift+X");
}

#[test]
fn a_blank_phrase_turns_listening_off() {
    assert!(!wants_voice(" \t"));
    assert!(wants_voice(" a "));
    let off = voice_status("  ", Some("x".to_string()));
    assert!(!off.registered && off.error.is_none());
    let on = voice_status("sauvegarde", None);
    assert!(on.registered && on.error.is_none());
    let failed = voice_status("sauvegarde", Some("micro absent".to_string()));
    assert!(!failed.registered);
    assert_eq!(failed.error.as_deref(), Some("micro absent"));
}

#[test]
fn the_notification_rounds_to_the_second() {
    assert_eq!(saved_text(595_000_000), "60 secondes sauvegardées");
    assert_eq!(saved_text(594_999_999), "59 secondes sauvegardées");
    assert_eq!(saved_text(0), "0 secondes sauvegardées");
}

#[test]
fn the_overlay_goes_to_the_upper_right() {
    assert_eq!(overlay_position(1920, 320, 24), (1576, 24));
}

#[test]
fn directories_follow_from_those_of_the_user() {
    assert_eq!(
        default_output(Some("C:\\Users\\a".to_string()), "C:\\Temp"),
        "C:\\Users\\a\\Videos\\SmartClip"
    );
    assert_eq!(default_output(None, "C:\\Temp"), "C:\\Temp\\SmartClip");
    assert_eq!(
        settings_file(Some("C:\\Data".to_string())).as_deref(),
        Some("C:\\Data\\SmartClip\\settings.json")
    );
    assert_eq!(settings_file(None), None);
    assert_eq!(
        preview_directory("C:\\Temp", "D:\\clips\\a.mp4"),
        "C:\\Temp\\smartclip_preview\\a"
    );
    assert_eq!(preview_directory("C:\\Temp", ".."), "C:\\Temp\\smartclip_preview\\clip");
    assert_eq!(
        clear_preview("C:\\Temp", "D:\\clips\\a.mp4").as_deref(),
        Some("C:\\Temp\\smartclip_preview\\a")
    );
    assert_eq!(clear_preview("C:\\Temp", ".."), None);
}
