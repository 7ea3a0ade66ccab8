use avet::config::{SceneDetectionConfig, SceneDetectionSpeedConfig};
use avet::resume::SceneEntry;
use avet::scene::{
    apply_extra_split, build_detection_vf, build_scene_entries, chunk_list, detected,
    detection_args, detection_settings, DetectionFailure,
};

#[test]
fn build_entries_single_chunk() {
    let entries = build_scene_entries(&[0], 100);
    assert_eq!(entries.len(), 1);
    assert_eq!(entries[0].start_frame, 0);
    assert_eq!(entries[0].end_frame, 99);
}

#[test]
fn a_single_frame_is_one_chunk() {
    let entries = build_scene_entries(&[], 1);
    assert_eq!((entries.len(), entries[0].start_frame, entries[0].end_frame), (1, 0, 0));
}

#[test]
fn build_entries_two_chunks() {
    let entries = build_scene_entries(&[0, 50], 100);
    assert_eq!(entries.len(), 2);
    assert_eq!(entries[0].start_frame, 0);
    assert_eq!(entries[0].end_frame, 49);
    assert_eq!(entries[1].start_frame, 50);
    assert_eq!(entries[1].end_frame, 99);
}

#[test]
fn build_entries_indices_sequential() {
    let entries = build_scene_entries(&[0, 24, 48, 72], 100);
    for (i, e) in entries.iter().enumerate() {
        assert_eq!(e.index, i);
    }
}

#[test]
fn detection_vf_none_no_downscale() {
    assert_eq!(build_detection_vf(None, None), None);
}

#[test]
fn detection_vf_base_only() {
    assert_eq!(
        build_detection_vf(Some("crop=1920:800:0:140"), None),
        Some("crop=1920:800:0:140".into())
    );
}

#[test]
fn detection_vf_downscale_only() {
    assert_eq!(
        build_detection_vf(None, Some(720)),
        Some("scale=-2:min(ih\\,720)".into())
    );
}

#[test]
fn detection_vf_combined() {
    assert_eq!(
        build_detection_vf(Some("crop=1920:800:0:140"), Some(720)),
        Some("crop=1920:800:0:140,scale=-2:min(ih\\,720)".into())
    );
}

#[test]
fn extra_split_no_split_needed() {
    let scenes = build_scene_entries(&[0, 100], 200);
    let result = apply_extra_split(scenes, 240);
    assert_eq!(result.len(), 2);
    assert_eq!(result[0].end_frame, 99);
    assert_eq!(result[1].start_frame, 100);
}

#[test]
fn extra_split_exact_boundary() {
    let scenes = build_scene_entries(&[0], 240);
    let result = apply_extra_split(scenes, 240);
    assert_eq!(result.len(), 1);
    assert_eq!(result[0].end_frame, 239);
}

#[test]
fn extra_split_one_over() {
    let scenes = build_scene_entries(&[0], 241);
    let result = apply_extra_split(scenes, 240);
    assert_eq!(result.len(), 2);
    assert_eq!(result[0].frame_count(), 121);
    assert_eq!(result[1].frame_count(), 120);
    assert_eq!(result[1].end_frame, 240);
}

#[test]
fn extra_split_triple() {
    let scenes = build_scene_entries(&[0], 720);
    let result = apply_extra_split(scenes, 240);
    assert_eq!(result.len(), 3);
    assert_eq!(result[2].end_frame, 719);
    for e in &result {
        assert!(e.frame_count() <= 240);
    }
}

#[test]
fn no_part_exceeds_the_maximum_when_the_scene_does_not_divide_evenly() {
    for (len, max) in [(239usize, 24usize), (1439, 240), (14399, 240), (172799, 240)] {
        let result = apply_extra_split(build_scene_entries(&[0], len), max);
        for e in &result {
            assert!(e.frame_count() <= max as u64, "len {len} max {max}: {}", e.frame_count());
        }
        assert_eq!(result[0].start_frame, 0);
        assert_eq!(result.last().unwrap().end_frame, len as u64 - 1);
        for pair in result.windows(2) {
            assert_eq!(pair[1].start_frame, pair[0].end_frame + 1);
        }
    }
}

#[test]
fn extra_split_reindexes() {
    let scenes = build_scene_entries(&[0, 50], 200);
    let mut long = scenes;
    long[1].end_frame = 800;
    let result = apply_extra_split(long, 100);
    for (i, e) in result.iter().enumerate() {
        assert_eq!(e.index, i);
    }
}

#[test]
fn what_the_detector_finds_becomes_a_whole_chunk_list() {
    let entry = |index, start_frame, end_frame| SceneEntry { index, start_frame, end_frame };
    assert_eq!(chunk_list(&[0, 30], 100, None), [entry(0, 0, 29), entry(1, 30, 99)]);
    assert_eq!(
        chunk_list(&[0, 30], 100, Some(40)),
        [entry(0, 0, 29), entry(1, 30, 64), entry(2, 65, 99)]
    );
    // A detector that counted nothing still leaves one frame to encode.
    assert_eq!(chunk_list(&[], 0, None), [entry(0, 0, 0)]);
}

#[test]
fn the_limit_in_frames_takes_the_place_of_the_one_in_seconds() {
    let cfg = SceneDetectionConfig::default();
    assert_eq!(cfg.min_scene_len, 24);
    assert_eq!(cfg.speed, SceneDetectionSpeedConfig::Standard);
    assert_eq!(cfg.effective_extra_split_frames(240), Some(240));
    assert_eq!(cfg.effective_extra_split_frames(10), Some(24));
    let frames = SceneDetectionConfig { extra_split: 100, ..cfg };
    assert_eq!(frames.effective_extra_split_frames(240), Some(100));
    let off = SceneDetectionConfig { extra_split_sec: 0, ..cfg };
    assert_eq!(off.effective_extra_split_frames(240), None);
}

#[test]
fn the_detector_is_fed_every_frame_once() {
    let args = detection_args("film.mkv", Some("crop=1920:800:0:140"), Some(720));
    assert_eq!(args[4..10], ["-i", "film.mkv", "-map", "0:v:0", "-vf", "crop=1920:800:0:140,scale=-2:min(ih\\,720)"]);
    assert!(args.windows(2).any(|w| w == ["-fps_mode", "passthrough"]));
    assert_eq!(args.last().unwrap(), "pipe:1");
    assert!(!detection_args("film.mkv", None, None).iter().any(|a| a == "-vf"));

    let settings = detection_settings(&SceneDetectionConfig::default());
    assert_eq!((settings.fast, settings.min_distance), (false, Some(24)));
    assert_eq!((settings.detect_flashes, settings.lookahead), (true, 5));
}

#[test]
fn a_decoder_that_failed_spoils_what_was_detected() {
    assert_eq!(detected(Some((vec![0, 30], 100)), true, None).unwrap().len(), 2);
    assert_eq!(detected(Some((vec![0, 30], 100)), false, None), Err(DetectionFailure::Decoder));
    assert_eq!(detected(None, false, None), Err(DetectionFailure::Detector));
}
