use smartclip::audio::{
    classify, disambiguate, discover, is_utility, packet, process_name, silence, work_format,
    Delivery, Discovery, PacketPlan, Session, Source, SourceAction, SourceEvent, SourceLoop,
};
use smartclip::slots::SlotMap;

fn source(process: &str) -> Source {
    Source {
        label: classify(process).to_string(),
        process: process.to_string(),
        pid: Some(1),
        device: None,
    }
}

fn session(pid: u32, process: &str) -> Session {
    Session { pid, process: Some(process.to_string()) }
}

fn labels(sources: &[Source]) -> Vec<&str> {
    sources.iter().map(|s| s.label.as_str()).collect()
}

#[test]
fn les_applications_connues_sont_reconnues() {
    assert_eq!(classify("Discord.exe"), "Discord");
    assert_eq!(classify("spotify.exe"), "Musique");
    assert_eq!(classify("chrome.exe"), "Navigateur");
}

#[test]
fn une_application_inconnue_devient_le_jeu() {
    assert_eq!(classify("RocketLeague.exe"), "Jeu");
    assert_eq!(classify("un_truc_jamais_vu.exe"), "Jeu");
}

#[test]
fn les_utilitaires_constructeur_sont_ecartes() {
    assert!(is_utility("AMDNoiseSuppression.exe"));
    assert!(is_utility("ROCCAT_Swarm_Monitor.exe"));
    assert!(is_utility("AmdRSServ.EXE"));
    assert!(!is_utility("RocketLeague.exe"));
}

#[test]
fn les_libelles_en_double_recoivent_le_nom_de_l_executable() {
    let mut sources = vec![source("RocketLeague.exe"), source("Valorant.exe")];
    disambiguate(&mut sources);
    assert_eq!(sources[0].label, "Jeu (RocketLeague)");
    assert_eq!(sources[1].label, "Jeu (Valorant)");
}

#[test]
fn un_libelle_unique_reste_court() {
    let mut sources = vec![source("RocketLeague.exe"), source("Discord.exe")];
    disambiguate(&mut sources);
    assert_eq!(sources[0].label, "Jeu");
    assert_eq!(sources[1].label, "Discord");
}

#[test]
fn les_libelles_restent_uniques_apres_desambiguisation() {
    let mut sources = vec![
        source("chrome.exe"),
        source("firefox.exe"),
        source("Discord.exe"),
    ];
    disambiguate(&mut sources);
    let mut labels: Vec<&str> = sources.iter().map(|s| s.label.as_str()).collect();
    labels.sort_unstable();
    labels.dedup();
    assert_eq!(labels.len(), 3);
}

#[test]
fn every_listed_utility_is_left_out() {
    for name in [
        "amdnoisesuppression.exe",
        "amdrsserv.exe",
        "amdow.exe",
        "nvcontainer.exe",
        "nvidia share.exe",
        "nvidia web helper.exe",
        "roccat_swarm_monitor.exe",
        "icue.exe",
        "logioptionsplus_agent.exe",
        "steelseriesengine.exe",
        "razer synapse service.exe",
        "audiodg.exe",
        "voicemeeter.exe",
        "steamwebhelper.exe",
    ] {
        assert!(is_utility(name), "{name}");
        assert!(is_utility(&name.to_uppercase()), "{name}");
    }
    assert!(!is_utility(""));
}

#[test]
fn every_listed_application_has_its_category() {
    for (name, label) in [
        ("VENCORD.exe", "Discord"),
        ("ts3client_win64.exe", "Discord"),
        ("teamspeak.exe", "Discord"),
        ("AppleMusic.exe", "Musique"),
        ("itunes.exe", "Musique"),
        ("foobar2000.exe", "Musique"),
        ("firefox.exe", "Navigateur"),
        ("msedge.exe", "Navigateur"),
        ("brave.exe", "Navigateur"),
    ] {
        assert_eq!(classify(name), label);
    }
}

#[test]
fn discovery_passes_over_what_is_no_source() {
    let found = discover(
        vec![
            session(0, "System"),
            session(42, "smartclip.exe"),
            session(7, "audiodg.exe"),
            session(8, "Discord.exe"),
            session(9, "DISCORD.EXE"),
            Session { pid: 10, process: None },
            session(11, "jeu.exe"),
            session(12, "chrome.exe"),
        ],
        42,
        3,
    );
    let names: Vec<&str> = found.iter().map(|s| s.process.as_str()).collect();
    assert_eq!(names, ["Discord.exe", "pid 10", "jeu.exe"]);
    assert_eq!(labels(&found), ["Discord", "Jeu (pid 10)", "Jeu (jeu)"]);
    assert_eq!(found[0].pid, Some(8));
    assert!(found.iter().all(|s| s.device.is_none()));
}

#[test]
fn a_discovery_can_be_fed_one_session_at_a_time() {
    let mut discovery = Discovery::new(42, 1);
    assert!(!discovery.wants(0));
    assert!(!discovery.wants(42));
    assert!(discovery.wants(5));
    assert!(!discovery.is_full());
    discovery.offer(5, Some("a.exe".to_string()));
    assert!(discovery.is_full());
    discovery.offer(6, Some("b.exe".to_string()));
    assert_eq!(discovery.finish().len(), 1);
    assert!(Discovery::new(42, 0).is_full());
}

#[test]
fn names_that_differ_by_the_suffix_alone_are_told_apart() {
    let mut sources = vec![source("X.exe"), source("X"), source("Y.exe")];
    disambiguate(&mut sources);
    assert_eq!(labels(&sources), ["Jeu (X.exe)", "Jeu (X)", "Jeu (Y)"]);
    let mut repeated = vec![source("Y.exe.exe"), source("Z.exe")];
    disambiguate(&mut repeated);
    assert_eq!(labels(&repeated), ["Jeu (Y)", "Jeu (Z)"]);
    let mut three = vec![source("a"), source("a.exe"), source("a.exe.exe")];
    disambiguate(&mut three);
    assert_eq!(labels(&three), ["Jeu (a)", "Jeu (a.exe)", "Jeu (a.exe.exe)"]);
    // One executable twice cannot be told apart, and keeps its short name.
    let mut twice = vec![source("a.exe"), source("a.exe")];
    disambiguate(&mut twice);
    assert_eq!(labels(&twice), ["Jeu (a)", "Jeu (a)"]);
    // Another category is no namesake.
    let mut apart = vec![source("discord.exe"), source("discord"), source("b.exe")];
    disambiguate(&mut apart);
    assert_eq!(labels(&apart), ["Discord", "Jeu (discord)", "Jeu (b)"]);
}

#[test]
fn the_name_of_an_executable_is_the_end_of_its_path() {
    assert_eq!(process_name("C:\\Jeux\\a b\\RocketLeague.exe").as_deref(), Some("RocketLeague.exe"));
    assert_eq!(process_name("C:/Jeux/x.exe").as_deref(), Some("x.exe"));
    assert_eq!(process_name("C:\\"), None);
    assert_eq!(process_name(""), None);
}

#[test]
fn captures_are_opened_in_floating_point_stereo() {
    let format = work_format();
    assert_eq!((format.format_tag, format.channels), (3, 2));
    assert_eq!((format.samples_per_second, format.bytes_per_second), (48_000, 384_000));
    assert_eq!((format.block_align, format.bits_per_sample, format.extra_bytes), (8, 32, 0));
}

#[test]
fn packets_are_read_off_their_header() {
    let plan = packet(480, 0, true, 24_000_000, 24_000_000);
    assert_eq!(plan, PacketPlan { silent: false, samples: 960, boot_hns: 10_000_000 });
    assert!(packet(480, 2, true, 0, 1).silent);
    assert!(packet(480, 3, true, 0, 1).silent);
    assert!(packet(480, 0, false, 0, 1).silent);
    assert!(!packet(480, 5, true, 0, 1).silent);
    assert_eq!(packet(0, 0, true, u64::MAX, 10_000_000).boot_hns, -1);
    assert_eq!(silence(3), [0i16, 0, 0]);
}

#[test]
fn a_capture_reads_packets_until_there_are_none() {
    let mut source = SourceLoop::new(2);
    for (event, action) in [
        (SourceEvent::StopFlag(false), SourceAction::Wait),
        (SourceEvent::Waited(true), SourceAction::PeekPacket),
        (SourceEvent::NextPacket(480), SourceAction::FetchPacket),
        (SourceEvent::Delivered(Delivery::Sent), SourceAction::PeekPacket),
        (SourceEvent::NextPacket(0), SourceAction::ReadStopFlag),
        (SourceEvent::StopFlag(false), SourceAction::Wait),
        (SourceEvent::Waited(false), SourceAction::ReadStopFlag),
        (SourceEvent::StopFlag(true), SourceAction::StopDevice),
        (SourceEvent::Delivered(Delivery::Disconnected), SourceAction::Leave),
    ] {
        let (next, warning) = source.next(event);
        assert_eq!(next, action);
        assert!(warning.is_none());
    }
    assert_eq!(source.dropped, 0);
}

#[test]
fn losses_are_counted_and_reported_now_and_then() {
    let mut source = SourceLoop::new(2);
    let full = SourceEvent::Delivered(Delivery::Full);
    let (action, warning) = source.next(full);
    assert_eq!(action, SourceAction::PeekPacket);
    assert_eq!(
        warning.as_deref(),
        Some("piste 2 : 1 paquet(s) écarté(s), le muxeur ne suit pas")
    );
    for lost in 2..=501u64 {
        let (_, warning) = source.next(full);
        assert_eq!(warning.is_some(), lost == 501);
        assert_eq!(source.dropped, lost);
    }
}

fn app(process: &str, pid: u32) -> Source {
    Source {
        label: process.to_string(),
        process: process.to_string(),
        pid: Some(pid),
        device: None,
    }
}

#[test]
fn sources_are_seated_in_the_first_vacant_slots() {
    let mut slots = SlotMap::new(3);
    assert_eq!(slots.labels(), ["(libre 0)", "(libre 1)", "(libre 2)"]);
    assert_eq!(slots.free_index(), Some(0));
    let start = slots.seat_all(vec![app("a", 1), app("b", 2), app("c", 3)], 2, false);
    assert_eq!(start.len(), 2);
    assert_eq!(slots.labels(), ["a", "b", "(libre 2)"]);
    assert!(slots.holds("A"));
    assert!(!slots.holds("c"));
    assert_eq!(slots.free_index(), Some(2));
    assert!(slots.attach(2, app("c", 3)).is_some());
    assert_eq!(slots.free_index(), None);
    assert!(slots.attach(3, app("d", 4)).is_none());
}

#[test]
fn a_dead_slot_is_vacated_and_named() {
    let mut slots = SlotMap::new(2);
    slots.seat_all(vec![app("a", 1), app("b", 2)], 9, false);
    assert!(slots.is_active(0));
    slots.mark_ended(0);
    slots.mark_ended(7);
    assert!(!slots.is_active(0));
    assert_eq!(slots.labels(), ["a", "b"]);
    assert_eq!(slots.reap(), ["a"]);
    assert_eq!(slots.labels(), ["(libre 0)", "b"]);
    assert!(slots.reap().is_empty());
}

#[test]
fn reconciling_keeps_who_is_still_there() {
    let mut slots = SlotMap::new(4);
    slots.seat_all(vec![app("a", 1), app("b", 2)], 3, false);
    slots.attach(3, Source {
        label: "Micro".to_string(),
        process: String::new(),
        pid: None,
        device: None,
    });
    let changes = slots.reconcile(
        vec![app("c", 3), app("B", 22), app("d", 4), app("e", 5)],
        3,
    );
    assert_eq!(changes.stop, [0]);
    assert_eq!(slots.labels(), ["c", "b", "d", "Micro"]);
    let started: Vec<(usize, Option<u32>)> =
        changes.start.iter().map(|a| (a.index, a.pid)).collect();
    assert_eq!(started, [(0, Some(3)), (2, Some(4))]);
    // Seen again, nobody moves and nobody takes a second slot.
    let again = slots.reconcile(vec![app("d", 4), app("c", 3), app("b", 2)], 3);
    assert!(again.stop.is_empty() && again.start.is_empty());
    assert_eq!(slots.labels(), ["c", "b", "d", "Micro"]);
    assert_eq!(slots.release(&vec![]), [0, 1, 2]);
    assert_eq!(slots.labels(), ["(libre 0)", "(libre 1)", "(libre 2)", "Micro"]);
}
