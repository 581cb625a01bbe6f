use smartclip::export::{
    extract_tracks, frames_in, inspect, probe_video, thumbnail_position, AudioBlock, ExportAction,
    ExportError, FrameProbe, Interleaver, PictureAction, PictureSearch, StreamKind, TrackAction,
    TrackReader, MAX_EMPTY_READS,
};
use smartclip::thumbnail::{encoded, extract_thumbnail, scale, thumbnail_size, ThumbnailError};
use smartclip::wav::{write_header, write_wav, WavWriter};
use smartclip::{mix_and_export, ClipInfo};
use std::io::Cursor;

const SECOND: i64 = 10_000_000;

fn clip(tracks: u32, duration_hns: i64) -> ClipInfo {
    ClipInfo { video_stream: 0, audio_streams: (1..=tracks).collect(), duration_hns }
}

#[test]
fn the_streams_of_a_clip_are_taken_stock_of() {
    let (video, audio, other) = (StreamKind::Video, StreamKind::Audio, StreamKind::Other);
    let info = inspect(&vec![other, audio, video, audio, video, audio], Some(7)).unwrap();
    assert_eq!(info.video_stream, 2);
    assert_eq!(info.audio_streams, [1, 3, 5]);
    assert_eq!(info.duration_hns, 7);
    let unknown = inspect(&vec![video], None).unwrap();
    assert!(unknown.audio_streams.is_empty());
    assert_eq!(unknown.duration_hns, 0);
    let error = inspect(&vec![audio, other], Some(7)).unwrap_err();
    assert_eq!(error, ExportError::NoVideo);
    assert_eq!(error.message(), "le clip ne contient aucune piste vidéo");
}

#[test]
fn an_export_mixes_the_audible_tracks() {
    let plan = mix_and_export(&clip(3, SECOND), &vec![true, false, true]).unwrap();
    assert_eq!(plan.samples, 96_000);
    assert_eq!(plan.tracks, [0, 2]);
    assert!(mix_and_export(&clip(1, SECOND), &vec![false]).unwrap().tracks.is_empty());
}

#[test]
fn each_bad_export_has_its_message() {
    let error = mix_and_export(&clip(0, SECOND), &vec![]).unwrap_err();
    assert_eq!(error, ExportError::NoAudio);
    assert_eq!(error.message(), "le clip ne contient aucune piste audio à mixer");
    let error = mix_and_export(&clip(3, SECOND), &vec![true]).unwrap_err();
    assert_eq!(error, ExportError::GainCount { given: 1, tracks: 3 });
    assert_eq!(error.message(), "1 gain(s) fourni(s) pour 3 piste(s) audio");
    let error = mix_and_export(&clip(1, 0), &vec![true]).unwrap_err();
    assert_eq!(error, ExportError::UnknownLength);
    assert_eq!(error.message(), "durée du clip inconnue ou nulle");
    assert_eq!(ExportError::UnknownSize.message(), "dimensions vidéo inconnues");
}

#[test]
fn the_frames_of_a_clip_are_counted() {
    assert_eq!(frames_in(0), 0);
    assert_eq!(frames_in(-208), 0);
    assert_eq!(frames_in(208), 0);
    assert_eq!(frames_in(209), 1);
    assert_eq!(frames_in(SECOND), 48_000);
    assert_eq!(frames_in(3_600 * SECOND), 172_800_000);
}

#[test]
fn tracks_are_extracted_to_numbered_files() {
    let files = extract_tracks(&clip(2, SECOND), "C:\\apercu").unwrap();
    assert_eq!(files.len(), 2);
    assert_eq!((files[0].stream, files[0].path.as_str()), (1, "C:\\apercu\\track0.wav"));
    assert_eq!((files[1].stream, files[1].path.as_str()), (2, "C:\\apercu\\track1.wav"));
    assert_eq!(extract_tracks(&clip(2, 100), "x").unwrap_err(), ExportError::UnknownLength);
}

#[test]
fn the_packets_of_a_track_follow_each_other() {
    let mut reader = TrackReader::new(4, 1_000);
    let mut covered = vec![0u32; 1_000];
    for (packet, expected) in [(300usize, (0usize, 300usize)), (0, (300, 0)), (400, (300, 400)),
        (500, (700, 300)), (100, (1_200, 0))]
    {
        match reader.read(false, Some(packet)) {
            Ok(TrackAction::Deposit { start, count }) => {
                assert_eq!((start, count), expected);
                for sample in &mut covered[start.min(1_000)..(start + count).min(1_000)] {
                    *sample += 1;
                }
            }
            _ => panic!("a packet is deposited"),
        }
        assert_eq!(reader.read(false, None), Ok(TrackAction::ReadOn));
    }
    assert!(covered.iter().all(|&times| times == 1));
    assert_eq!(reader.read(true, Some(5)), Ok(TrackAction::Done));
    assert_eq!(reader.written, 1_300);
}

#[test]
fn a_reader_that_does_not_advance_is_given_up() {
    let mut reader = TrackReader::new(4, 1_000);
    let mut search = PictureSearch::new();
    let mut mix = Interleaver::new(100);
    let mut probe = FrameProbe::new();
    for _ in 0..MAX_EMPTY_READS {
        assert_eq!(reader.read(false, None), Ok(TrackAction::ReadOn));
        assert_eq!(search.read(false, false), Ok(PictureAction::ReadOn));
        assert!(matches!(mix.read(false, None), Ok(ExportAction::ReadOn)));
        assert!(probe.read(false, None));
    }
    let error = reader.read(false, None).unwrap_err();
    assert_eq!(error.message(), "lecture bloquée sur la piste 4 : 257 paquets vides");
    let error = search.read(false, false).unwrap_err();
    assert_eq!(error.message(), "aucune image exploitable");
    let error = mix.read(false, None).unwrap_err();
    assert_eq!(error.message(), "lecture vidéo bloquée : 257 paquets vides d'affilée");
    assert!(!probe.read(false, None));
}

#[test]
fn a_picture_starts_the_count_of_empty_reads_over() {
    let mut reader = TrackReader::new(4, 10);
    let mut mix = Interleaver::new(100);
    for _ in 0..3 {
        for _ in 0..MAX_EMPTY_READS {
            assert!(reader.read(false, None).is_ok());
            assert!(mix.read(false, None).is_ok());
        }
        assert!(reader.read(false, Some(1)).is_ok());
        assert!(matches!(mix.read(false, Some(0)), Ok(ExportAction::Write(_))));
    }
}

#[test]
fn the_first_picture_is_taken() {
    let mut search = PictureSearch::new();
    assert_eq!(search.read(false, false), Ok(PictureAction::ReadOn));
    assert_eq!(search.read(false, true), Ok(PictureAction::Take));
    let error = search.read(true, true).unwrap_err();
    assert_eq!(error, ExportError::NoPicture);
    assert_eq!(error.message(), "aucune image dans le clip");
}

#[test]
fn sound_is_written_as_the_pictures_reach_it() {
    // Two and a half blocks.
    let mut mix = Interleaver::new(24_000);
    let blocks = match mix.read(false, Some(0)) {
        Ok(ExportAction::Write(blocks)) => blocks,
        _ => panic!("a picture is written"),
    };
    assert_eq!(
        blocks,
        [AudioBlock { start: 0, end: 9_600, time_hns: 0, duration_hns: 1_000_000 }]
    );
    assert!(mix.flush(999_999).is_empty());
    assert_eq!(
        mix.flush(1_000_000),
        [AudioBlock { start: 9_600, end: 19_200, time_hns: 1_000_000, duration_hns: 1_000_000 }]
    );
    let blocks = match mix.read(true, None) {
        Ok(ExportAction::Finish(blocks)) => blocks,
        _ => panic!("the end finishes the output"),
    };
    assert_eq!(
        blocks,
        [AudioBlock { start: 19_200, end: 24_000, time_hns: 2_000_000, duration_hns: 500_000 }]
    );
    assert!(mix.flush(i64::MAX).is_empty());
    assert!(Interleaver::new(5).flush(-1).is_empty());
    assert!(Interleaver::new(0).flush(i64::MAX).is_empty());
}

#[test]
fn blocks_cover_a_mix_of_any_size() {
    for samples in [1usize, 2, 9_599, 9_600, 9_601, 96_000] {
        let blocks = Interleaver::new(samples).flush(i64::MAX);
        let mut end = 0;
        for block in &blocks {
            assert_eq!(block.start, end);
            assert!(block.end > block.start);
            end = block.end;
        }
        assert_eq!(end, samples);
    }
}

#[test]
fn gaps_between_pictures_are_measured() {
    assert_eq!(probe_video(&vec![0, 10, 25, 25, 20]), [10, 15, 0, -5]);
    assert!(probe_video(&vec![7]).is_empty());
    assert!(probe_video(&vec![]).is_empty());
    let mut probe = FrameProbe::new();
    assert!(probe.read(false, Some(4)));
    assert!(!probe.read(true, Some(9)));
    assert!(probe.gaps.is_empty());
}

#[test]
fn thumbnails_are_taken_early_in_the_clip() {
    assert_eq!(thumbnail_position(4 * SECOND), SECOND);
    assert_eq!(thumbnail_position(8 * SECOND), 2 * SECOND);
    assert_eq!(thumbnail_position(3_600 * SECOND), 2 * SECOND);
    assert_eq!(thumbnail_position(0), 0);
    assert_eq!(thumbnail_position(-7), -1);
}

#[test]
fn thumbnails_keep_the_shape_of_the_picture() {
    assert_eq!(thumbnail_size(1920, 1080), (480, 270));
    assert_eq!(thumbnail_size(2560, 1440), (480, 270));
    assert_eq!(thumbnail_size(320, 200), (320, 200));
    assert_eq!(thumbnail_size(4_800, 1), (480, 1));
}

/// A picture whose pixels tell their column, row and number.
fn picture(width: u32, height: u32) -> Vec<u8> {
    let mut pixels = Vec::new();
    for y in 0..height {
        for x in 0..width {
            pixels.extend([x as u8, y as u8, 7, 0]);
        }
    }
    pixels
}

#[test]
fn pictures_are_turned_the_right_way_up() {
    let rgba = scale(&picture(2, 2), 2, 2);
    assert_eq!(
        rgba,
        [
            7, 1, 0, 255, 7, 1, 1, 255, //
            7, 0, 0, 255, 7, 0, 1, 255,
        ]
    );
}

#[test]
fn large_pictures_are_sampled() {
    let rgba = scale(&picture(960, 4), 960, 4);
    assert_eq!(rgba.len(), 4 * 480 * 2);
    // Second pixel of the first row: third column of the last row.
    assert_eq!(rgba[4..8], [7, 3, 2, 255]);
    // First pixel of the second row: the row that is third from the end.
    assert_eq!(rgba[4 * 480..4 * 480 + 4], [7, 1, 0, 255]);
}

#[test]
fn a_picture_that_is_too_short_is_black_there() {
    let mut pixels = picture(2, 2);
    pixels.truncate(8);
    let rgba = scale(&pixels, 2, 2);
    assert_eq!(rgba[..8], [0, 0, 0, 255, 0, 0, 0, 255]);
    assert_eq!(rgba[8..], [7, 0, 0, 255, 7, 0, 1, 255]);
}

#[test]
fn a_thumbnail_decodes_to_the_scaled_picture() {
    let pixels = picture(960, 540);
    let bytes = extract_thumbnail(&pixels, 960, 540).unwrap();
    assert_eq!(bytes[..8], [137, 80, 78, 71, 13, 10, 26, 10]);
    assert_eq!(bytes[16..24], [0, 0, 1, 224, 0, 0, 1, 14]);
    let mut reader = png::Decoder::new(Cursor::new(bytes)).read_info().unwrap();
    let mut decoded = vec![0; reader.output_buffer_size().unwrap()];
    let frame = reader.next_frame(&mut decoded).unwrap();
    assert_eq!((frame.width, frame.height), (480, 270));
    assert_eq!(frame.color_type, png::ColorType::Rgba);
    assert_eq!(decoded, scale(&pixels, 960, 540));
}

#[test]
fn a_thumbnail_needs_a_size() {
    assert_eq!(extract_thumbnail(&vec![], 0, 5), Err(ThumbnailError::UnknownSize));
    assert_eq!(extract_thumbnail(&vec![], 5, 0), Err(ThumbnailError::UnknownSize));
    assert!(extract_thumbnail(&vec![], 5, 5).is_ok());
}

#[test]
fn a_refusal_of_the_encoder_is_reported() {
    let mut bytes = Vec::new();
    let refused = match png::Encoder::new(&mut bytes, 0, 0).write_header() {
        Ok(_) => panic!("an empty size is refused"),
        Err(error) => error,
    };
    assert_eq!(encoded(Err(refused)), Err(ThumbnailError::Encoding));
    assert_eq!(encoded(Ok(vec![1])), Ok(vec![1]));
}

#[test]
fn sound_files_begin_with_a_true_header() {
    let file = write_wav(&vec![0, 1, -1, i16::MIN]);
    assert_eq!(file.len(), 52);
    assert_eq!(&file[..4], b"RIFF");
    assert_eq!(file[4..8], [44, 0, 0, 0]);
    assert_eq!(&file[8..16], b"WAVEfmt ");
    assert_eq!(file[16..36], [16, 0, 0, 0, 1, 0, 2, 0, 128, 187, 0, 0, 0, 238, 2, 0, 4, 0, 16, 0]);
    assert_eq!(&file[36..40], b"data");
    assert_eq!(file[40..], [8, 0, 0, 0, 0, 0, 1, 0, 255, 255, 0, 128]);
}

#[test]
fn floating_point_files_get_their_sizes_at_the_end() {
    let (mut writer, header) = WavWriter::create();
    assert_eq!(header, write_header(0));
    writer.write_samples(4);
    assert_eq!(writer.write_silence(16), [0u8; 16]);
    assert_eq!(writer.data_bytes, 32);
    let header = writer.finish();
    assert_eq!(header.len(), 58);
    assert_eq!(&header[..4], b"RIFF");
    assert_eq!(header[4..8], [82, 0, 0, 0]);
    assert_eq!(&header[8..16], b"WAVEfmt ");
    assert_eq!(
        header[16..38],
        [18, 0, 0, 0, 3, 0, 2, 0, 128, 187, 0, 0, 0, 220, 5, 0, 8, 0, 32, 0, 0, 0]
    );
    assert_eq!(&header[38..42], b"fact");
    assert_eq!(header[42..50], [4, 0, 0, 0, 4, 0, 0, 0]);
    assert_eq!(&header[50..54], b"data");
    assert_eq!(header[54..], [32, 0, 0, 0]);
}
