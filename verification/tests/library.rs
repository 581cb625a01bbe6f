use smartclip::library::{
    clip_name, delete, describe, is_clip, mix_path, now_seconds, scan, Entry, FileFacts,
};
use smartclip::path::{extension, file_name, file_stem, join, with_extension, with_file_name};
use smartclip::ClipMeta;
use std::path::Path;

fn facts() -> FileFacts {
    FileFacts { bytes: 15, created: Some(1_600_000_000), has_thumbnail: false }
}

fn entry(name: &str, meta: Option<ClipMeta<f64>>) -> Entry<f64> {
    Entry { path: format!("C:\\clips\\{name}.mp4"), facts: Some(facts()), meta }
}

#[test]
fn un_dossier_absent_donne_une_bibliotheque_vide() {
    assert!(scan::<f64>(None, 0.0).is_empty());
}

#[test]
fn les_pistes_survivent_a_l_aller_retour() {
    let meta = ClipMeta {
        tracks: vec!["Jeu".into(), "Discord".into(), "Micro".into()],
        seconds: 42.5,
        created: 1_700_000_000,
    };
    let clip = entry("avec_meta", Some(meta));

    let described = describe(clip.path, clip.facts.unwrap(), clip.meta, 0.0);
    assert_eq!(described.tracks, ["Jeu", "Discord", "Micro"]);
    assert_eq!(described.seconds, 42.5);
    assert!(!described.metadata_missing);
    assert_eq!(described.created, 1_700_000_000);
}

#[test]
fn un_clip_sans_sidecar_reste_listable() {
    let clip = entry("sans_meta", None);

    let described = describe(clip.path, clip.facts.unwrap(), clip.meta, 0.0);
    assert!(described.metadata_missing);
    assert!(described.tracks.is_empty());
    assert!(described.created > 0);
    assert_eq!(described.seconds, 0.0);
}

#[test]
fn les_clips_sortent_du_plus_recent_au_plus_ancien() {
    let mut directory = Vec::new();
    for (name, created) in [("vieux", 1_000), ("recent", 3_000), ("moyen", 2_000)] {
        directory.push(entry(
            name,
            Some(ClipMeta {
                tracks: vec![],
                seconds: 1.0,
                created,
            }),
        ));
    }
    let names: Vec<String> = scan(Some(directory), 0.0).into_iter().map(|c| c.name).collect();
    assert_eq!(names, ["recent", "moyen", "vieux"]);
}

#[test]
fn supprimer_emporte_le_sidecar() {
    let clip = "C:\\clips\\a_supprimer.mp4".to_string();
    let sidecar = ClipMeta::<f64>::sidecar_path(&clip);
    let mut disk = vec![clip.clone(), sidecar.clone(), "C:\\clips\\autre.mp4".to_string()];
    assert!(disk.contains(&sidecar));

    let gone = delete(&clip);
    disk.retain(|file| *file != gone.clip && *file != gone.sidecar && *file != gone.thumbnail);
    assert!(!disk.contains(&clip));
    assert!(!disk.contains(&sidecar));
    assert_eq!(disk, ["C:\\clips\\autre.mp4"]);
}

#[test]
fn seuls_les_mp4_sont_listes() {
    let mut directory = vec![entry("vrai", None)];
    for name in ["notes.txt", "autre.mkv"] {
        directory.push(Entry {
            path: format!("C:\\clips\\{name}"),
            facts: Some(facts()),
            meta: None,
        });
    }

    let clips = scan(Some(directory), 0.0);
    assert_eq!(clips.len(), 1);
    assert_eq!(clips[0].name, "vrai");
}

#[test]
fn clips_of_one_second_keep_their_order() {
    let dated = |name: &str, created| {
        entry(name, Some(ClipMeta { tracks: vec![], seconds: 1.0, created }))
    };
    let directory = vec![dated("a", 5), dated("b", 7), dated("c", 5), dated("d", 7), dated("e", 9)];
    let names: Vec<String> = scan(Some(directory), 0.0).into_iter().map(|c| c.name).collect();
    assert_eq!(names, ["e", "b", "d", "a", "c"]);
}

#[test]
fn an_unreadable_file_is_left_out() {
    let directory = vec![
        Entry { path: "a.mp4".to_string(), facts: None, meta: None },
        entry("b", None),
    ];
    let clips = scan(Some(directory), 0.0);
    assert_eq!(clips.len(), 1);
    assert_eq!(clips[0].path, "C:\\clips\\b.mp4");
    assert_eq!(clips[0].bytes, 15);
}

#[test]
fn companions_stand_next_to_the_clip() {
    let clip = "C:\\clips\\partie.1.mp4";
    assert_eq!(ClipMeta::<f64>::sidecar_path(clip), "C:\\clips\\partie.1.json");
    assert_eq!(ClipMeta::<f64>::thumbnail_path(clip), "C:\\clips\\partie.1.png");
    let mut with = facts();
    with.has_thumbnail = true;
    let described = describe(clip.to_string(), with, None, 0.0);
    assert_eq!(described.thumbnail.as_deref(), Some("C:\\clips\\partie.1.png"));
    assert_eq!(described.name, "partie.1");
    assert!(describe(clip.to_string(), facts(), None, 0.0).thumbnail.is_none());
    let mut undated = facts();
    undated.created = None;
    let described = describe("..".to_string(), undated, None, 0.0);
    assert_eq!((described.created, described.name.as_str()), (0, "clip"));
}

#[test]
fn clips_are_told_by_their_extension() {
    assert!(is_clip("a.mp4"));
    assert!(is_clip("C:\\b\\a.MP4"));
    assert!(!is_clip("a.mp4.txt"));
    assert!(!is_clip(".mp4"));
    assert!(!is_clip("mp4"));
}

#[test]
fn clips_are_named_after_the_time() {
    assert_eq!(now_seconds(Some(1_700_000_000)), 1_700_000_000);
    assert_eq!(now_seconds(None), 0);
    assert_eq!(clip_name(1_700_000_000), "clip_1700000000.mp4");
    assert_eq!(clip_name(0), "clip_0.mp4");
}

#[test]
fn the_mix_of_a_clip_stands_next_to_it() {
    assert_eq!(mix_path("C:\\clips\\a.mp4"), "C:\\clips\\a_mix.mp4");
    assert_eq!(mix_path("a"), "a_mix.mp4");
    assert_eq!(mix_path("C:\\"), "C:\\clip_mix.mp4");
}

const PATHS: [&str; 24] = [
    "", "a", "a.b", "a.b.c", ".a", ".a.b", "a.", "..", ".", "/", "//", "a/", "a/b", "/a/b.c",
    "a/b.c/", "a/./", "a/.", "a/..", "a//b", "../x.y", "a.b/c", "a.b/.c", "/..", "a/b..c",
];

#[test]
fn paths_with_slashes_read_as_in_the_standard_library() {
    for path in PATHS {
        let std = Path::new(path);
        let name = std.file_name().map(|s| s.to_str().unwrap());
        assert_eq!(file_name(path).as_deref(), name, "{path}");
        let stem = std.file_stem().map(|s| s.to_str().unwrap());
        assert_eq!(file_stem(path).as_deref(), stem, "{path}");
        let end = std.extension().map(|s| s.to_str().unwrap());
        assert_eq!(extension(path).as_deref(), end, "{path}");
        assert_eq!(
            Path::new(&with_extension(path, "json")),
            std.with_extension("json"),
            "{path}"
        );
        assert_eq!(Path::new(&with_extension(path, "")), std.with_extension(""), "{path}");
    }
}

#[test]
fn drives_and_backslashes_are_understood() {
    assert_eq!(file_name("C:a.mp4").as_deref(), Some("a.mp4"));
    assert_eq!(file_name("C:").as_deref(), None);
    assert_eq!(file_name("C:\\a\\b.mp4\\").as_deref(), Some("b.mp4"));
    assert_eq!(file_stem("C:\\a\\b.mp4").as_deref(), Some("b"));
    assert_eq!(with_extension("C:\\a.b\\c", "png"), "C:\\a.b\\c.png");
    assert_eq!(join("C:\\a", "b"), "C:\\a\\b");
    assert_eq!(join("C:\\a\\", "b"), "C:\\a\\b");
    assert_eq!(join("C:", "b"), "C:b");
    assert_eq!(join("", "b"), "b");
    assert_eq!(with_file_name("C:\\a\\b.mp4", "c.png"), "C:\\a\\c.png");
    assert_eq!(with_file_name("C:a", "b"), "C:b");
    assert_eq!(with_file_name("..", "b"), "..\\b");
}

#[test]
fn prefixes_name_no_file() {
    for prefix in [
        "\\\\server\\share", "//server/share", "\\\\server\\share\\", "\\\\.\\COM42", "\\\\?\\C:", "\\\\?\\C:\\",
        "\\\\?\\UNC\\server\\share", "\\\\?\\cat_pics", "//?/share",
    ] {
        assert_eq!(file_name(prefix), None, "{prefix}");
        assert_eq!(with_extension(prefix, "png"), prefix);
    }
    for path in [
        "\\\\server\\share\\a.mp4", "//server/share/a.mp4", "\\\\.\\COM42\\a.mp4", "\\\\?\\C:\\a.mp4",
        "\\\\?\\UNC\\server\\share\\a.mp4", "\\\\?\\cat_pics\\a.mp4", "\\\\server\\share\\.\\a.mp4",
    ] {
        assert_eq!(file_name(path).as_deref(), Some("a.mp4"), "{path}");
    }
    // A server without a share is no prefix.
    assert_eq!(file_name("\\\\server").as_deref(), Some("server"));
    assert_eq!(file_name("\\\\server\\\\x").as_deref(), Some("x"));
}

#[test]
fn slashes_and_dots_stand_for_themselves_in_verbatim_paths() {
    assert_eq!(file_name("\\\\?\\C:\\a/b.mp4").as_deref(), Some("a/b.mp4"));
    assert_eq!(file_name("\\\\?\\C:\\a\\."), None);
    // Right behind the prefix either of them is the root.
    assert_eq!(file_name("\\\\?\\C:/a").as_deref(), Some("a"));
    assert_eq!(file_name("\\\\?\\C:/"), None);
    assert_eq!(file_name("\\\\?\\C:/a/b").as_deref(), Some("a/b"));
    assert_eq!(join("\\\\?\\C:/a", "b"), "\\\\?\\C:\\a\\b");
    assert_eq!(with_extension("\\\\?\\C:/a.mp4", "png"), "\\\\?\\C:/a.png");
    assert_eq!(file_name("C:\\a\\.").as_deref(), Some("a"));
    assert_eq!(with_extension("\\\\?\\C:\\a/b.mp4", "png"), "\\\\?\\C:\\a/b.png");
    assert_eq!(join("\\\\?\\C:\\a", "b"), "\\\\?\\C:\\a\\b");
    assert_eq!(join("\\\\?\\C:", "b"), "\\\\?\\C:\\b");
    assert_eq!(join("\\\\?\\C:\\a\\\\b\\", "c"), "\\\\?\\C:\\a\\b\\c");
    assert_eq!(join("\\\\?\\C:\\a\\b", "../c/./d"), "\\\\?\\C:\\a\\c\\d");
    assert_eq!(join("\\\\?\\C:\\a", ".."), "\\\\?\\C:\\");
    assert_eq!(join("\\\\?\\C:\\a", "\\b"), "\\\\?\\C:\\b");
}

#[test]
fn paths_with_a_root_or_a_prefix_replace_others() {
    assert_eq!(join("C:\\a", "\\b"), "C:\\b");
    assert_eq!(join("C:\\a", "D:b"), "D:b");
    assert_eq!(join("\\\\server\\share\\a", "/b"), "\\\\server\\share/b");
    assert_eq!(join("\\\\server\\share", "b"), "\\\\server\\share\\b");
}

#[test]
fn a_renamed_file_stands_where_the_old_one_stood() {
    assert_eq!(with_file_name("C:/a//b.mp4", "c"), "C:/a\\c");
    assert_eq!(with_file_name("./a", "b"), ".\\b");
    assert_eq!(with_file_name("a", "b"), "b");
    assert_eq!(with_file_name("C:\\a", "b"), "C:\\b");
    assert_eq!(with_file_name("\\\\server\\share\\a", "b"), "\\\\server\\share\\b");
    assert_eq!(with_file_name("\\\\server\\share", "b"), "\\\\server\\share\\b");
}
