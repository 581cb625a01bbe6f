use smartclip::clock::HNS_PER_SEC;
use smartclip::concat::{ConcatError, Next, Placed, Read, Splice, Splicer};
use smartclip::layout::{
    audio_stream, capture_options, export_options, pack, unpack, AudioCoding, StreamDecl,
    VideoCoding,
};
use smartclip::segment::{
    segment_path, sequence, AudioSpan, SegmentFactory, SegmentInfo, SegmentRing,
};

fn hns(seconds: f64) -> i64 {
    (seconds * HNS_PER_SEC as f64) as i64
}

fn segment(name: &str, seconds: f64, megabytes: u64) -> SegmentInfo {
    SegmentInfo {
        path: format!("segment_de_test_{name}.mp4"),
        bytes: megabytes * 1_048_576,
        duration_hns: hns(seconds),
    }
}

fn names(ring: &SegmentRing) -> Vec<String> {
    ring.segments().iter().map(|s| s.path.clone()).collect()
}

#[test]
fn la_borne_de_duree_purge_les_plus_anciens() {
    let mut ring = SegmentRing::new(hns(6.0), u64::MAX);
    for name in ["a", "b", "c", "d", "e"] {
        ring.push(segment(name, 2.0, 1));
    }
    assert_eq!(ring.segments().len(), 3);
    assert!(names(&ring)[0].contains("_c"));
}

#[test]
fn la_borne_d_octets_purge_meme_si_la_duree_tient() {
    let mut ring = SegmentRing::new(hns(3600.0), 30 * 1_048_576);
    for name in ["a", "b", "c", "d"] {
        ring.push(segment(name, 2.0, 20));
    }
    assert_eq!(ring.segments().len(), 1);
    assert!(ring.bytes() <= 30 * 1_048_576);
}

#[test]
fn un_segment_survit_toujours() {
    let mut ring = SegmentRing::new(hns(0.5), 1);
    ring.push(segment("unique", 2.0, 50));
    ring.push(segment("suivant", 2.0, 50));
    assert_eq!(ring.segments().len(), 1);
    assert!(names(&ring)[0].contains("suivant"));
}

#[test]
fn les_totaux_suivent_le_contenu() {
    let mut ring = SegmentRing::new(hns(3600.0), u64::MAX);
    ring.push(segment("a", 2.0, 3));
    ring.push(segment("b", 1.5, 4));
    assert_eq!(ring.bytes(), 7 * 1_048_576);
    assert_eq!(ring.duration_hns(), (3.5 * HNS_PER_SEC as f64) as i64);
}

#[test]
fn le_balayage_efface_les_orphelins_anterieurs() {
    let dir = "C:\\Temp\\smartclip_sweep";
    let mut disk: Vec<String> = (0..6u32).map(|n| format!("{dir}\\seg{n:06}.mp4")).collect();
    let mut ring = SegmentRing::new(hns(3600.0), u64::MAX);
    for n in [3u32, 4] {
        ring.push(SegmentInfo {
            path: format!("{dir}\\seg{n:06}.mp4"),
            bytes: 1,
            duration_hns: HNS_PER_SEC,
        });
    }

    let stale = ring.sweep(&disk);
    assert_eq!(stale.len(), 3);
    disk.retain(|entry| !stale.contains(entry));
    let restants = disk;
    assert_eq!(restants.len(), 3);
    assert!(restants.iter().any(|n| n.contains("000005")));
}

#[test]
fn vider_l_anneau_le_laisse_vide() {
    let mut ring = SegmentRing::new(hns(3600.0), u64::MAX);
    ring.push(segment("a", 2.0, 1));
    ring.push(segment("b", 2.0, 1));
    ring.clear();
    assert!(ring.segments().is_empty());
    assert_eq!(ring.bytes(), 0);
    assert_eq!(ring.duration_hns(), 0);
}

#[test]
fn purged_segments_are_handed_back_oldest_first() {
    let mut ring = SegmentRing::new(hns(4.0), u64::MAX);
    assert!(ring.push(segment("a", 2.0, 1)).is_empty());
    assert!(ring.push(segment("b", 2.0, 1)).is_empty());
    let purged = ring.push(segment("c", 3.0, 1));
    let purged: Vec<String> = purged.into_iter().map(|s| s.path).collect();
    assert_eq!(purged, ["segment_de_test_a.mp4", "segment_de_test_b.mp4"]);
    assert_eq!(names(&ring), ["segment_de_test_c.mp4"]);
    assert_eq!(ring.clear().len(), 1);
}

#[test]
fn an_empty_segment_is_not_kept() {
    let mut ring = SegmentRing::new(hns(4.0), u64::MAX);
    ring.push(segment("a", 2.0, 1));
    assert!(ring.push(segment("vide", 60.0, 0)).is_empty());
    assert_eq!(names(&ring), ["segment_de_test_a.mp4"]);
}

#[test]
fn segments_added_together_go_through_the_same_bounds() {
    let mut ring = SegmentRing::new(hns(4.0), u64::MAX);
    let purged = ring.push_all(vec![
        segment("a", 2.0, 1),
        segment("vide", 2.0, 0),
        segment("b", 2.0, 1),
        segment("c", 2.0, 1),
    ]);
    assert_eq!(purged.len(), 1);
    assert_eq!(purged[0].path, "segment_de_test_a.mp4");
    assert_eq!(names(&ring), ["segment_de_test_b.mp4", "segment_de_test_c.mp4"]);
}

#[test]
fn a_ring_reaches_back_as_far_as_it_can() {
    let lengths = [2.0, 1.0, 3.0, 0.5, 2.0, 4.0, 1.0, 1.0, 6.5, 2.0, 2.0, 2.0];
    let mut ring = SegmentRing::new(hns(6.0), u64::MAX);
    for count in 1..=lengths.len() {
        ring.push(segment("x", lengths[count - 1], 1));
        let kept = ring.segments().len();
        let tail = |n: usize| lengths[count - n..count].iter().sum::<f64>();
        assert_eq!(ring.duration_hns(), hns(tail(kept)));
        assert!(kept == 1 || tail(kept) <= 6.0);
        assert!(kept == count || tail(kept + 1) > 6.0);
    }
}

#[test]
fn segment_numbers_are_read_back() {
    for n in [0u64, 7, 123_456, 999_999, 1_000_000, u64::MAX] {
        let path = segment_path("D:\\tampon", n);
        assert_eq!(sequence(&path), Some(n));
    }
    assert_eq!(segment_path("D:\\tampon", 7), "D:\\tampon\\seg000007.mp4");
    assert_eq!(segment_path("/tampon/", 7), "/tampon/seg000007.mp4");
    assert_eq!(segment_path("C:", 7), "C:seg000007.mp4");
    assert_eq!(sequence("D:\\tampon\\clip_12.mp4"), None);
    assert_eq!(sequence("seg.mp4"), None);
    assert_eq!(sequence("seg12a.mp4"), None);
    assert_eq!(sequence("seg+12.mp4"), Some(12));
    assert_eq!(sequence("Seg12.mp4"), None);
    assert_eq!(sequence("seg18446744073709551616.mp4"), None);
    assert_eq!(sequence("seg12"), Some(12));
    assert_eq!(sequence(""), None);
}

#[test]
fn nothing_is_swept_without_a_numbered_segment() {
    let disk = vec!["seg000000.mp4".to_string(), "notes.txt".to_string()];
    let mut ring = SegmentRing::new(hns(60.0), u64::MAX);
    assert!(ring.sweep(&disk).is_empty());
    ring.push(segment("a", 2.0, 1));
    assert!(ring.sweep(&disk).is_empty());
    ring.clear();
    ring.push(SegmentInfo { path: "seg000001.mp4".to_string(), bytes: 1, duration_hns: 1 });
    assert_eq!(ring.sweep(&disk), ["seg000000.mp4"]);
}

#[test]
fn every_segment_declares_the_same_streams() {
    let factory = SegmentFactory::new(1920, 1080, 60, 20_000_000, 6);
    let streams = factory.streams();
    assert_eq!(streams.len(), 7);
    match streams[0] {
        StreamDecl::Video(video) => {
            assert_eq!(video.stored.coding, VideoCoding::H264);
            assert_eq!(video.fed.coding, VideoCoding::Argb32);
            assert_eq!(video.stored.bitrate, Some(20_000_000));
            assert_eq!(video.fed.bitrate, None);
            assert_eq!(unpack(video.stored.frame_size), (1920, 1080));
            assert_eq!(unpack(video.fed.frame_rate), (60, 1));
            assert_eq!(video.stored.pixel_aspect_ratio, 0x1_0000_0001);
        }
        StreamDecl::Audio(_) => panic!("the picture stream comes first"),
    }
    for stream in &streams[1..] {
        assert_eq!(*stream, StreamDecl::Audio(audio_stream()));
    }
    let sound = audio_stream();
    assert_eq!((sound.stored.coding, sound.fed.coding), (AudioCoding::Aac, AudioCoding::Pcm));
    assert_eq!((sound.stored.samples_per_second, sound.stored.channels), (48_000, 2));
    assert_eq!((sound.stored.bytes_per_second, sound.fed.bytes_per_second), (Some(24_000), None));
    assert_eq!((sound.stored.block_alignment, sound.fed.block_alignment), (None, Some(4)));
    assert_eq!(sound.fed.bits_per_sample, 16);
    assert!(capture_options().throttling && capture_options().hardware_transforms);
    assert!(!export_options().throttling && export_options().hardware_transforms);
}

#[test]
fn packed_pairs_come_apart_again() {
    assert_eq!(pack(1920, 1080), 0x0000_0780_0000_0438);
    for pair in [(0, 0), (1, u32::MAX), (u32::MAX, 0), (u32::MAX, u32::MAX)] {
        assert_eq!(unpack(pack(pair.0, pair.1)), pair);
    }
}

#[test]
fn only_pictures_make_a_segment_longer() {
    let factory = SegmentFactory::new(1920, 1080, 60, 20_000_000, 2);
    let mut segment = factory.open("seg000000.mp4".to_string(), &vec![4, 5, 6]);
    assert_eq!(segment.video_stream(), 4);
    assert!(!segment.to_finalize());
    segment.write_audio(1, 9_600);
    assert!(segment.to_finalize());
    segment.write_video(0, 166_666);
    segment.write_video(166_666, 166_666);
    segment.write_video(0, 1);
    let info = segment.close(1_234);
    assert_eq!((info.path.as_str(), info.bytes, info.duration_hns), ("seg000000.mp4", 1_234, 333_332));
}

#[test]
fn a_segment_that_received_nothing_has_no_size() {
    let factory = SegmentFactory::new(1920, 1080, 60, 20_000_000, 1);
    let mut segment = factory.open("seg000001.mp4".to_string(), &vec![0, 1]);
    segment.write_audio(3, 9_600);
    assert!(!segment.to_finalize());
    let info = segment.close(77);
    assert_eq!((info.bytes, info.duration_hns), (0, 0));
}

#[test]
fn sound_alone_keeps_a_file_without_giving_it_a_length() {
    let factory = SegmentFactory::new(1920, 1080, 60, 20_000_000, 1);
    let mut segment = factory.open("seg000001.mp4".to_string(), &vec![0, 1]);
    segment.write_audio(0, 9_600);
    assert_eq!(segment.frames_written(0), 4_800);
    assert!(segment.to_finalize());
    let info = segment.close(77);
    assert_eq!((info.bytes, info.duration_hns), (77, 0));
}

#[test]
fn the_blocks_of_a_track_follow_each_other() {
    let factory = SegmentFactory::new(1920, 1080, 60, 20_000_000, 2);
    let mut segment = factory.open("seg000002.mp4".to_string(), &vec![0, 10, 20]);
    let mut end = 0;
    for samples in [960usize, 958, 2, 9_600, 961] {
        let span = segment.next_audio_span(1, samples).unwrap();
        assert_eq!(span.stream, 20);
        assert!(span.pts_hns == end || span.pts_hns == end + 1);
        end = span.pts_hns + span.duration_hns;
        segment.write_audio(1, samples);
    }
    assert_eq!(
        segment.next_audio_span(1, 96),
        Some(AudioSpan { stream: 20, pts_hns: 1_300_000, duration_hns: 10_000 })
    );
    // The other track has not moved.
    assert_eq!(
        segment.next_audio_span(0, 96),
        Some(AudioSpan { stream: 10, pts_hns: 0, duration_hns: 10_000 })
    );
    assert_eq!(
        segment.audio_span(0, 96, 5_000),
        Some(AudioSpan { stream: 10, pts_hns: 5_000, duration_hns: 10_000 })
    );
    assert_eq!((segment.frames_written(0), segment.frames_written(1)), (0, 5_760 + 480));
    assert_eq!(segment.frames_written(2), 0);
    assert_eq!(segment.next_audio_span(2, 96), None);
    assert_eq!(segment.audio_span(2, 96, 0), None);
}

fn part(name: &str, duration_hns: i64) -> SegmentInfo {
    SegmentInfo { path: name.to_string(), bytes: 1, duration_hns }
}

fn sample(stream: u32, time: i64) -> Read {
    Read { stream, end_of_stream: false, time_hns: Some(time) }
}

fn end(stream: u32) -> Read {
    Read { stream, end_of_stream: true, time_hns: None }
}

#[test]
fn joined_segments_stand_end_to_end() {
    let parts = vec![part("a", 100), part("b", 0), part("c", 50)];
    let reads = vec![
        vec![sample(0, 0), sample(1, 10), sample(0, 90), end(0), end(1)],
        vec![end(1), end(0)],
        vec![sample(1, 5), sample(2, 6), sample(0, 7), end(0), end(2), end(1)],
    ];
    let (clip, outcome) =
        smartclip::concat::concat(parts, &reads, &vec![7, 9], 4_096).unwrap();
    assert_eq!(
        clip,
        [
            Placed { stream: 7, time_hns: 0 },
            Placed { stream: 9, time_hns: 10 },
            Placed { stream: 7, time_hns: 90 },
            Placed { stream: 9, time_hns: 105 },
            Placed { stream: 7, time_hns: 107 },
        ]
    );
    assert_eq!((outcome.bytes, outcome.samples), (4_096, 5));
}

#[test]
fn a_stream_that_ends_first_costs_the_others_nothing() {
    let parts = vec![part("a", 100), part("b", 100)];
    let reads = vec![
        vec![sample(0, 0), end(0), sample(1, 0), sample(1, 50), end(1)],
        vec![end(1), sample(0, 20), sample(0, 60), end(0)],
    ];
    let (clip, outcome) = smartclip::concat::concat(parts, &reads, &vec![4, 5], 1).unwrap();
    let of = |stream| -> Vec<i64> {
        clip.iter().filter(|p| p.stream == stream).map(|p| p.time_hns).collect()
    };
    assert_eq!(of(4), [0, 120, 160]);
    assert_eq!(of(5), [0, 50]);
    assert_eq!(outcome.samples, 5);
}

#[test]
fn joining_reads_until_every_stream_of_a_segment_has_ended() {
    let mut splicer = Splicer::new(vec![part("a", 100), part("b", 30)]).unwrap();
    splicer.add_stream(3);
    splicer.add_stream(8);
    assert!(splicer.check().is_ok());
    let on = Splice { copy: None, next: Next::ReadOn };
    let copied = |stream, time_hns, next| Splice { copy: Some(Placed { stream, time_hns }), next };
    assert_eq!(splicer.read(sample(0, 5)), copied(3, 5, Next::ReadOn));
    let mark = Read { stream: 0, end_of_stream: false, time_hns: None };
    assert_eq!(splicer.read(mark), on);
    // A stream that the output does not have.
    assert_eq!(splicer.read(sample(2, 5)), on);
    assert_eq!(splicer.read(end(2)), on);
    assert_eq!(splicer.read(end(0)), on);
    assert_eq!(splicer.read(end(0)), on);
    assert_eq!(splicer.read(sample(1, 70)), copied(8, 70, Next::ReadOn));
    assert_eq!(splicer.offset_hns(), 0);
    // A sample that comes with the end is still copied.
    let last = Read { stream: 1, end_of_stream: true, time_hns: Some(90) };
    assert_eq!(splicer.read(last), copied(8, 90, Next::Open(1)));
    assert_eq!(splicer.offset_hns(), 100);
    assert_eq!(splicer.read(sample(0, 0)), copied(3, 100, Next::ReadOn));
    assert_eq!(splicer.read(end(1)), on);
    assert_eq!(splicer.read(end(0)), Splice { copy: None, next: Next::Finish });
    let outcome = splicer.outcome(4_096);
    assert_eq!((outcome.bytes, outcome.samples), (4_096, 4));
}

#[test]
fn there_must_be_something_to_join() {
    let none = smartclip::concat::concat(vec![], &vec![], &vec![1], 0).unwrap_err();
    assert!(matches!(none, ConcatError::NoSegment));
    assert_eq!(none.message(), "aucun segment à sauvegarder");
    let bare = smartclip::concat::concat(vec![part("seg000003.mp4", 10)], &vec![vec![]], &vec![], 0)
        .unwrap_err();
    assert!(matches!(bare, ConcatError::NoStream(_)));
    assert_eq!(bare.message(), "le segment seg000003.mp4 ne contient aucun flux");
}
