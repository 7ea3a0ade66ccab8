use avet::config::{AvetConfig, Config, Encoder, ParamValue, SceneDetectionConfig, VideoMode};
use avet::crop::Crop;
use avet::encode::EncodeOptions;
use avet::hdr::{DynamicHdr, HdrInfo};
use avet::hevc::Hdr10PlusFrames;
use avet::job::{
    auto_keyint, build_scene_vf, check_joined, check_output, compute_output_params, copy_shift, crop_source, emptied_dirs,
    failure_action, fingerprint_args, fingerprint_text, first_video_time, fit_scenes, free_path, ignored_video_opts,
    invalidate_stale_cache, is_probe_leftover, is_transient, mux_video_args, needs_realign,
    needs_remux, output_is_free, plan_hdr, profile_fingerprint, realign_args, remaining_chunks,
    threads_per_worker, timestamps_text, total_frames, validate_scene_list, vfr_timestamps,
    without_arg, CacheAction, Cause, FailureAction, FileState, Finalize, JobContext, JobError,
    Next, PacketTimes, StableWait, Step, Transient, WaitStep,
};
use avet::resume::{source_id, DoneFile, SceneEntry, TempDir};
use avet::source::SourceVideo;

fn opts() -> EncodeOptions {
    EncodeOptions { fps_num: 24, fps_den: 1, ..Default::default() }
}

fn strings(list: &[&str]) -> Vec<String> {
    list.iter().map(|s| s.to_string()).collect()
}

fn scene(index: usize, start: u64, end: u64) -> SceneEntry {
    SceneEntry { index, start_frame: start, end_frame: end }
}

/// The causes of an error, as far as a retry depends on them.
fn causes(err: &anyhow::Error) -> Vec<Cause> {
    err.chain()
        .map(|c| match c.downcast_ref::<std::io::Error>().map(|e| e.kind()) {
            Some(std::io::ErrorKind::StorageFull) => Cause::StorageFull,
            Some(std::io::ErrorKind::QuotaExceeded) => Cause::QuotaExceeded,
            Some(std::io::ErrorKind::BrokenPipe) => Cause::BrokenPipe,
            _ => Cause::Other,
        })
        .collect()
}

/// The parameters with the scaled size worked out from the cropped one.
fn output_params(
    src_w: u32,
    src_h: u32,
    crop_str: Option<&str>,
    target_height: Option<u32>,
) -> (Option<(u32, u32)>, Option<Crop>, Option<String>) {
    let (_, (w, h)) = crop_source(src_w, src_h, crop_str);
    let factor = match target_height {
        Some(th) if h > th => th as f64 / h as f64,
        _ => 1.0,
    };
    let scaled = ((w as f64 * factor) as u32, (h as f64 * factor) as u32);
    compute_output_params(src_w, src_h, crop_str, target_height, scaled)
}

#[test]
fn fingerprint_changes_with_profile() {
    let args = vec!["--crf".to_string(), "28".to_string()];
    let sc = SceneDetectionConfig::default();
    let enc = Some(Encoder::SvtAv1);
    let base = profile_fingerprint(enc, &args, &opts(), &sc, None);

    assert_eq!(base, profile_fingerprint(enc, &args, &opts(), &sc, None));

    // Resuming across a switch would merge one binary's chunks into the other's.
    assert_ne!(base, profile_fingerprint(Some(Encoder::SvtAv1Hdr), &args, &opts(), &sc, None));

    let args2 = vec!["--crf".to_string(), "30".to_string()];
    assert_ne!(base, profile_fingerprint(enc, &args2, &opts(), &sc, None));

    let mut o = opts();
    o.scale = Some((1920, 1080));
    assert_ne!(base, profile_fingerprint(enc, &args, &o, &sc, None));

    let tq = "jod=9.6";
    assert_ne!(base, profile_fingerprint(enc, &args, &opts(), &sc, Some(tq)));

    let mut o = opts();
    o.dynamic_hdr = DynamicHdr { hdr10plus: true, dolby_vision: false };
    let hdr10plus = profile_fingerprint(enc, &args, &o, &sc, None);
    assert_ne!(base, hdr10plus);
    o.dynamic_hdr.dolby_vision = true;
    assert_ne!(hdr10plus, profile_fingerprint(enc, &args, &o, &sc, None));

    // Falling back to the decoder's values must not resume onto bitstream chunks.
    let mut o = opts();
    o.dynamic_hdr = DynamicHdr { hdr10plus: true, dolby_vision: false };
    o.hdr10plus_frames = Some(Hdr10PlusFrames { messages: vec![], frames: vec![] });
    assert_ne!(hdr10plus, profile_fingerprint(enc, &args, &o, &sc, None));
}

#[test]
fn the_fingerprinted_text_tells_each_setting() {
    let args = vec!["--crf".to_string(), "28".to_string()];
    let sc = SceneDetectionConfig::default();
    let base = fingerprint_text(None, &args, &opts(), &sc, None);

    let mut texts = vec![
        base,
        fingerprint_text(Some(Encoder::SvtAv1), &args, &opts(), &sc, None),
        fingerprint_text(None, &args, &opts(), &sc, Some("None")),
        fingerprint_text(
            None,
            &args,
            &opts(),
            &SceneDetectionConfig { extra_split: 241, ..sc },
            None,
        ),
    ];
    let mut changed = vec![opts(), opts(), opts(), opts(), opts()];
    changed[0].scale = Some((19, 201080));
    changed[1].scale = Some((1920, 1080));
    changed[2].crop = Some(Crop { w: 1920, h: 800, x: 0, y: 140 });
    changed[3].target_bit_depth = Some(10);
    changed[4].dynamic_hdr = DynamicHdr { hdr10plus: false, dolby_vision: true };
    texts.extend(changed.iter().map(|o| fingerprint_text(None, &args, o, &sc, None)));
    for (i, a) in texts.iter().enumerate() {
        assert!(texts[i + 1..].iter().all(|b| a != b), "{a}");
    }
}

#[test]
fn transient_survives_both_construction_orders() {
    // As a context on a real error, which is how a bad profile is reported.
    let as_context = anyhow::Error::msg("parse encode.toml").context(Transient.describe());
    assert!(is_transient(true, &causes(&as_context)));

    // As the base error, which is how an unfinished copy is reported.
    let as_base = anyhow::Error::msg(Transient.describe()).context("file is empty or missing");
    assert!(is_transient(true, &causes(&as_base)));

    let wrapped = as_base.context("run job");
    assert!(is_transient(true, &causes(&wrapped)));
}

#[test]
fn an_ordinary_failure_is_not_transient() {
    let err = anyhow::Error::msg("encoder failed").context("chunk 00007");
    assert!(!is_transient(false, &causes(&err)));
}

#[test]
fn a_timeout_is_transient_but_a_bad_profile_stays_permanent() {
    let timeout = anyhow::Error::msg("ffprobe did not finish within 120s").context("HDR detection");
    assert!(is_transient(true, &causes(&timeout)));

    let disk_full = anyhow::Error::new(std::io::Error::from(std::io::ErrorKind::StorageFull))
        .context("write chunk");
    assert!(is_transient(false, &causes(&disk_full)));

    let real = anyhow::Error::msg("encoder exited with status 1").context("encode chunk 3");
    assert!(!is_transient(false, &causes(&real)));
    assert!(is_transient(false, &[Cause::Other, Cause::QuotaExceeded]));
    assert!(!is_transient(false, &[Cause::BrokenPipe]));
}

#[test]
fn crop_is_normalized_before_anything_downstream_sees_it() {
    // Unrounded, the metric tool and the encoder compared frames a line apart.
    let (scale, crop, vf) = output_params(1920, 1080, Some("crop=1920:801:0:141"), None);
    let crop = crop.expect("crop should survive normalization");
    assert_eq!((crop.w, crop.h, crop.x, crop.y), (1920, 800, 0, 140));
    assert_eq!(vf.as_deref(), Some("crop=1920:800:0:140"));
    assert_eq!(scale, None);
}

#[test]
fn an_odd_frame_size_loses_its_last_column_and_row_up_front() {
    let (scale, crop, vf) = output_params(321, 181, None, None);
    assert_eq!(crop, Some(Crop { w: 320, h: 180, x: 0, y: 0 }));
    assert_eq!(vf.as_deref(), Some("crop=320:180:0:0"));
    assert_eq!(scale, None);

    assert_eq!(output_params(320, 180, None, None).1, None);
}

#[test]
fn crop_larger_than_the_source_is_dropped() {
    let (_, crop, vf) = output_params(1280, 720, Some("crop=1920:800:0:140"), None);
    assert_eq!(crop, None);
    assert_eq!(vf, None);
}

#[test]
fn scale_applies_to_the_cropped_size_and_keeps_even_edges() {
    let (scale, crop, vf) = output_params(1920, 1080, Some("crop=1920:800:0:140"), Some(400));
    assert_eq!(crop.map(|c| (c.w, c.h)), Some((1920, 800)));
    assert_eq!(scale, Some((960, 400)));
    assert_eq!(vf.as_deref(), Some("crop=1920:800:0:140,scale=960:400"));
}

#[test]
fn scale_above_the_source_height_is_not_an_upscale() {
    let (scale, _, vf) = output_params(1280, 720, None, Some(1080));
    assert_eq!(scale, None);
    assert_eq!(vf, None);
}

#[test]
fn a_chunk_list_with_a_gap_is_refused_instead_of_encoded_short() {
    assert!(validate_scene_list(&[scene(0, 0, 99), scene(1, 100, 239)], 240).is_ok());

    let gap = validate_scene_list(&[scene(0, 0, 99), scene(1, 120, 239)], 240).unwrap_err();
    assert!(gap.describe().contains("gap or an overlap"), "got: {}", gap.describe());

    let overlap = validate_scene_list(&[scene(0, 0, 99), scene(1, 90, 239)], 240).unwrap_err();
    assert!(overlap.describe().contains("gap or an overlap"), "got: {}", overlap.describe());

    assert!(validate_scene_list(&[scene(0, 1, 239)], 240).is_err());
    assert!(validate_scene_list(&[scene(0, 0, 238)], 240).is_err());
    assert!(validate_scene_list(&[scene(0, 0, 240)], 240).is_err());
    assert!(validate_scene_list(&[], 240).is_err());
}

#[test]
fn archiving_never_overwrites_an_earlier_source() {
    let mut taken = Vec::new();
    assert_eq!(free_path(&taken, "Episode 01", ".mkv").unwrap(), "Episode 01.mkv");

    taken.push("Episode 01.mkv".to_string());
    assert_eq!(free_path(&taken, "Episode 01", ".mkv").unwrap(), "Episode 01.2.mkv");

    taken.push("Episode 01.2.mkv".to_string());
    assert_eq!(free_path(&taken, "Episode 01", ".mkv").unwrap(), "Episode 01.3.mkv");
}

#[test]
fn archiving_the_last_episode_removes_its_empty_folders_but_not_the_profile() {
    let dirs = emptied_dirs("/in/p", &strings(&["Show", "Season 1"]));
    assert_eq!(dirs, ["/in/p/Show/Season 1", "/in/p/Show"]);
    assert!(emptied_dirs("/in/p", &[]).is_empty());
    assert_eq!(emptied_dirs("", &strings(&["Show"])), ["Show"]);
}

#[test]
fn a_source_that_disappears_mid_wait_is_transient() {
    let file = |size, modified| FileState { size, modified };
    assert!(StableWait::start(file(0, None)).is_none());

    let mut wait = StableWait::start(file(4, Some(7))).unwrap();
    assert_eq!(wait.look(file(0, None), false), WaitStep::Missing);
}

#[test]
fn a_file_is_stable_after_equal_looks_in_a_row() {
    let file = |size| FileState { size, modified: Some(7) };
    let mut wait = StableWait::start(file(4)).unwrap();
    assert_eq!(wait.look(file(5), false), WaitStep::Wait);
    let mut looks = 0;
    loop {
        looks += 1;
        match wait.look(file(5), false) {
            WaitStep::Wait => (),
            WaitStep::Stable => break,
            other => panic!("{other:?}"),
        }
    }
    assert_eq!(looks, 2);

    let mut growing = StableWait::start(file(4)).unwrap();
    assert_eq!(growing.look(file(5), true), WaitStep::StillGrowing);
}

#[test]
fn a_marker_is_written_only_for_a_job_that_really_failed() {
    // A stop mid-job is no verdict on the file.
    assert_eq!(failure_action(true, true, true, false), FailureAction::Retry);
    assert_eq!(failure_action(false, true, true, true), FailureAction::Retry);
    assert_eq!(
        failure_action(false, true, true, false),
        FailureAction::Mark { record_source: false }
    );
    assert_eq!(
        failure_action(false, false, true, false),
        FailureAction::Mark { record_source: true }
    );
}

#[test]
fn a_source_replaced_mid_job_is_retried_and_not_locked_out() {
    let temp = TempDir::for_video("/out", "film");
    let claimed = source_id("/in/p/film.mkv", b"first".len() as u64, Some(1));
    assert!(!temp.claim_source(None, &claimed));
    let recorded = temp.recorded_source(Some(&claimed));

    let replaced = source_id("/in/p/film.mkv", b"a longer replacement".len() as u64, Some(2));
    let unchanged = temp.source_unchanged(Some(&claimed), &replaced);
    assert_eq!(
        failure_action(false, recorded.is_some(), unchanged, false),
        FailureAction::Retry,
        "the replacement was locked out"
    );
}

#[test]
fn each_fault_of_a_chunk_list_is_named() {
    assert_eq!(fit_scenes(&[], 240).err(), Some(JobError::NoChunks));
    assert_eq!(validate_scene_list(&[], 240), Err(JobError::Uncovered(0, 240)));
    assert!(matches!(
        validate_scene_list(&[scene(0, 0, 9), scene(1, 10, 8)], 240),
        Err(JobError::TurnedRound(1, 8, 10))
    ));
    assert!(matches!(
        validate_scene_list(&[scene(0, 0, 9), scene(1, 11, 20)], 21),
        Err(JobError::GapOrOverlap(1, ..))
    ));
    assert!(matches!(
        validate_scene_list(&[scene(0, 0, 238)], 240),
        Err(JobError::Uncovered(239, 240))
    ));
    assert_eq!(check_joined(239, 240), Err(JobError::ShortJoin(239, 240)));
    assert_eq!(check_joined(240, 240), Ok(()));
    assert_eq!(check_output(239, 240), Err(JobError::ShortOutput(239, 240)));
    assert_eq!(check_output(240, 240), Ok(()));
    for e in [JobError::NoChunks, JobError::ShortJoin(1, 2), JobError::NoBaseLayer(Some(5))] {
        assert!(!e.describe().is_empty());
    }
}

#[test]
fn a_list_that_runs_past_the_source_is_cut_to_it() {
    let list = [scene(0, 0, 99), scene(1, 100, 239)];
    assert_eq!(total_frames(&list), 240);
    assert_eq!(fit_scenes(&list, 240).unwrap(), list);
}

#[test]
fn the_filter_crops_before_it_scales() {
    let crop = Some(Crop { w: 100, h: 50, x: 2, y: 4 });
    assert_eq!(build_scene_vf(crop, Some((50, 24))).as_deref(), Some("crop=100:50:2:4,scale=50:24"));
    assert_eq!(build_scene_vf(None, None), None);
}

#[test]
fn a_rate_found_by_search_is_no_part_of_the_fingerprint() {
    let args = strings(&["--crf", "28", "--preset", "6"]);
    assert_eq!(without_arg(&args, "--crf"), ["--preset", "6"]);
    assert_eq!(fingerprint_args(&args, true), ["--preset", "6"]);
    assert_eq!(fingerprint_args(&args, false), args);
}

#[test]
fn chunks_of_another_profile_are_discarded() {
    assert_eq!(invalidate_stale_cache(None, "a"), CacheAction::Record);
    assert_eq!(invalidate_stale_cache(Some("a"), "a"), CacheAction::Keep);
    assert_eq!(invalidate_stale_cache(Some("b"), "a"), CacheAction::Discard);
}

#[test]
fn workers_take_the_threads_of_their_encoder() {
    let with = |v: ParamValue| Config {
        encoder: Some(Encoder::SvtAv1),
        encoder_params: vec![("lp".to_string(), v)],
    };
    assert_eq!(threads_per_worker(&with(ParamValue::Integer(4))), 4);
    let default = threads_per_worker(&Config { encoder: None, encoder_params: vec![] });
    assert_eq!(threads_per_worker(&with(ParamValue::Integer(0))), default);
    assert!(default > 0);
}

#[test]
fn options_of_the_encode_mean_nothing_to_a_copy() {
    let none = AvetConfig { video: VideoMode::Copy, ..AvetConfig::default() };
    let quiet = ignored_video_opts(&none).len();
    let scaled = AvetConfig { scale: Some(720), ..none };
    assert_eq!(ignored_video_opts(&scaled).len(), quiet + 1);
    assert!(ignored_video_opts(&scaled).contains(&"scale"));
}

#[test]
fn a_profile_without_a_base_layer_needs_its_metadata() {
    let five = HdrInfo {
        codec_name: "hevc".into(),
        hdr_type: "Dolby Vision".into(),
        dv_profile: Some(5),
        ..Default::default()
    };
    assert_eq!(plan_hdr(&five, false).err(), Some(JobError::NoBaseLayer(Some(5))));
    let plan = plan_hdr(&five, true).unwrap();
    assert!(plan.dynamic_hdr.dolby_vision);

    let plus = HdrInfo { hdr10plus: true, codec_name: "hevc".into(), ..Default::default() };
    let plan = plan_hdr(&plus, false).unwrap();
    assert!(plan.dynamic_hdr.hdr10plus && plan.from_bitstream && !plan.dv);
    let other = HdrInfo { hdr10plus: true, codec_name: "vp9".into(), ..Default::default() };
    assert!(!plan_hdr(&other, true).unwrap().from_bitstream);
}

#[test]
fn finished_chunks_are_counted_and_not_done_again() {
    let mut done = DoneFile::load_or_create("done.json", None);
    done.mark_done("00001", 100, 7);
    let list = [scene(0, 0, 99), scene(1, 100, 239)];
    let r = remaining_chunks(&done, &list, &[Some(7), None]);
    assert_eq!((r.completed_chunks, r.completed_frames), (1, 100));
    assert_eq!(r.pending, [list[1]]);

    // The file of the chunk was cut short: it is encoded again.
    let r = remaining_chunks(&done, &list, &[Some(6), None]);
    assert_eq!((r.completed_chunks, r.pending.len()), (0, 2));
}

#[test]
fn an_encoded_video_says_how_it_is_shown() {
    let source = SourceVideo {
        fps_num: 24,
        fps_den: 1,
        offset_ms: 321,
        matroska_start_ms: 0,
        sar: None,
        rotation: 90,
    };
    let args = mux_video_args(&[], None, false, false, &source, 640, 360);
    assert!(args.windows(2).any(|w| w == ["--projection-pose-roll", "0:90"]));
    assert!(args.windows(2).any(|w| w == ["--sync", "0:321"]));
    let timed = mux_video_args(&[], None, true, true, &source, 640, 360);
    assert_eq!(timed, ["--chroma-siting", "0:2,2", "--projection-pose-roll", "0:90"]);
}

#[test]
fn tracks_that_drift_from_the_video_are_moved() {
    assert!(!needs_realign(0, 0));
    assert!(needs_realign(0, 500));
    let args = realign_args(&strings(&["video", "audio", "subtitles"]), 1, -20, 500, true);
    assert_eq!(
        args,
        ["--sync", "0:-20", "--sync", "1:500", "--sync", "2:-20", "--chapter-sync", "500"]
    );
}

#[test]
fn a_stream_with_packed_pictures_is_remuxed_first() {
    assert!(needs_remux("avi", Some(1)));
    assert!(!needs_remux("avi", Some(0)));
    assert!(!needs_remux("matroska,webm", Some(1)));
}

#[test]
fn nothing_is_given_up_before_the_output_is_in_place() {
    let f = Finalize { copied: false, remove_video: true, keep_temp: false };
    let mut step = f.first();
    let mut seen = vec![step];
    while let Next::Do(next) = f.after(step, true) {
        step = next;
        seen.push(step);
    }
    let at = |s: Step| seen.iter().position(|x| *x == s);
    assert!(at(Step::MoveOutput) < at(Step::ArchiveSource));
    assert!(at(Step::Validate) < at(Step::MoveOutput));
    assert_eq!(f.after(Step::Mux, false), Next::Fail);
    assert_eq!(f.after(step, true), Next::Finished);
    assert!(output_is_free(None) && output_is_free(Some(0)) && !output_is_free(Some(1)));
}

#[test]
fn leftovers_of_a_search_are_told_from_chunks() {
    assert!(!is_probe_leftover("00001.ivf"));
    for name in ["probe_00001.ivf", "cvvdp_00001.json", "cambi_00001.json"] {
        assert!(is_probe_leftover(name), "{name}");
    }
    let ctx = JobContext { input_dir: "/in".into(), output_dir: "/out".into() };
    assert_ne!(ctx.input_dir, ctx.output_dir);
}

#[test]
fn only_timestamps_that_drift_from_the_frame_rate_are_kept() {
    let micros = |ms: &[f64]| -> Vec<i64> { ms.iter().map(|t| (t * 1000.0).round() as i64).collect() };

    // 23.976 fps in a millisecond timebase: rounding, not a variable rate.
    let cfr: Vec<f64> = (0..10_000).map(|i| (i as f64 * 1001.0 / 24.0).round() + 80.0).collect();
    assert_eq!(vfr_timestamps(&micros(&cfr), 24000, 1001), None);

    let vfr: Vec<f64> = (0..30)
        .map(|i| i as f64 * 1000.0 / 30.0)
        .chain((0..60).map(|i| 1000.0 + i as f64 * 1000.0 / 60.0))
        .map(|t| t + 500.0)
        .collect();
    let kept = vfr_timestamps(&micros(&vfr), 45, 1).expect("variable rate not detected");
    assert_eq!(kept[0], 0);
    assert_eq!(kept[30], 1_000_000);

    let mut backwards = vfr.clone();
    backwards.swap(40, 41);
    assert_eq!(vfr_timestamps(&micros(&backwards), 45, 1), None);
    assert_eq!(vfr_timestamps(&[], 24, 1), None);
}

#[test]
fn frame_times_are_written_in_milliseconds() {
    assert_eq!(
        timestamps_text(&[0, 33_333, 1_000_005], 321),
        "# timestamp format v2\n321.000\n354.333\n1321.005\n"
    );
    assert_eq!(timestamps_text(&[0, 1_050], -1), "# timestamp format v2\n-1.000\n0.050\n");
}

#[test]
fn keyframes_come_about_every_five_seconds() {
    assert_eq!(auto_keyint(24000, 1001), 120);
    assert_eq!(auto_keyint(25, 1), 125);
    assert_eq!(auto_keyint(60, 1), 300);
    assert_eq!(auto_keyint(1, 100), 1);
    assert_eq!(auto_keyint(0, 1), 1);
    assert_eq!(auto_keyint(u32::MAX, 1), u32::MAX);
}

#[test]
fn a_copied_video_is_moved_to_where_it_was() {
    // An FLV that mkvmerge starts at zero, and that ffmpeg starts 80 ms in.
    assert_eq!(copy_shift(80_000, 0, 0), (80, 0));
    assert_eq!(copy_shift(1_480_000, 1_400_000, 80_000), (0, 0));
    // Two frames in front of an MP4 edit list: the rest waits for them.
    assert_eq!(copy_shift(-83_417, 0, 0), (0, 83));
    assert_eq!(copy_shift(0, 500, 0), (0, 1));
    assert_eq!(copy_shift(0, 0, 500), (-1, 0));
    assert_eq!(copy_shift(0, 0, 499), (0, 0));
}

#[test]
fn a_video_starts_with_the_earliest_of_its_first_packets() {
    let at = |pts, dts| PacketTimes { pts, dts };
    assert_eq!(first_video_time(&[]), None);
    assert_eq!(first_video_time(&[at(Some(80), Some(0)), at(Some(40), Some(40))]), Some(40));
    // AVI gives presentation times to B-frames alone.
    assert_eq!(first_video_time(&[at(None, Some(0)), at(Some(40), Some(40))]), Some(0));
    assert_eq!(first_video_time(&[at(None, None)]), None);
}
