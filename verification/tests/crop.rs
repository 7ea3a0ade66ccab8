use avet::crop::{classify, cropdetect_args, detect, is_bars, parse_cropdetect, round_down_even, sample_percents, Crop, Sample};

#[test]
fn a_letterbox_is_a_crop_and_a_lit_corner_of_a_dark_scene_is_not() {
    let crop = |w, h, x, y| Some(Crop { w, h, x, y });

    assert_eq!(classify(crop(1920, 800, 0, 140), 1920, 1080), (crop(1920, 800, 0, 140), true));
    assert_eq!(classify(crop(1440, 1080, 240, 0), 1920, 1080), (crop(1440, 1080, 240, 0), true));

    assert_eq!(classify(crop(640, 360, 100, 100), 1920, 1080), (None, false));
    assert_eq!(classify(crop(1920, 1072, 0, 4), 1920, 1080), (None, true));
    assert_eq!(classify(None, 1920, 1080), (None, true));
}

#[test]
fn a_box_that_is_not_centered_is_a_lit_scene_and_not_a_bar() {
    let crop = |w, h, x, y| Some(Crop { w, h, x, y });

    // Both are large enough to clear the area check on their own.
    assert_eq!(classify(crop(1400, 700, 100, 50), 1920, 1080), (None, false));
    assert_eq!(classify(crop(1500, 1080, 420, 0), 1920, 1080), (None, false));

    // Bars a few lines apart are still bars, which pattern_bars.mkv relies on.
    assert_eq!(classify(crop(640, 276, 0, 44), 640, 360), (crop(640, 276, 0, 44), true));
    assert_eq!(classify(crop(1920, 800, 0, 140), 1920, 1080), (crop(1920, 800, 0, 140), true));
    // Windowboxed: both axes cut, both roughly centered.
    assert_eq!(classify(crop(1440, 800, 240, 140), 1920, 1080), (crop(1440, 800, 240, 140), true));
}

#[test]
fn a_crop_reads_back_from_its_filter() {
    let c = Crop { w: 1920, h: 800, x: 0, y: 140 };
    assert_eq!(c.to_filter(), "crop=1920:800:0:140");
    assert_eq!(Crop::from_str("crop=1920:800:0:140"), Some(c));
    assert_eq!(Crop::from_str("1920:800:0:140"), None);
    assert_eq!(Crop::from_str("crop=1920:800:0"), None);
    assert_eq!(Crop::from_str("crop=1920:800:0:x"), None);
}

#[test]
fn a_crop_is_put_on_even_edges_once() {
    let c = Crop { w: 1920, h: 801, x: 0, y: 141 };
    let even = Crop { w: 1920, h: 800, x: 0, y: 140 };
    assert_eq!(c.normalized(1920, 1080), Some(even));
    assert_eq!(even.normalized(1920, 1080), Some(even));
    assert_eq!(c.normalized(1280, 720), None);
    assert_eq!(round_down_even(7), 6);
}

#[test]
fn a_union_holds_both_boxes() {
    let a = Crop { w: 10, h: 10, x: 0, y: 20 };
    let b = Crop { w: 30, h: 5, x: 5, y: 0 };
    assert_eq!(a.union(b), Crop { w: 35, h: 30, x: 0, y: 0 });
}

#[test]
fn the_last_crop_of_a_run_counts() {
    let stderr = "[Parsed_cropdetect_0 @ 0x1] x1:0 t:1 crop=1920:816:0:132\n\
                  [Parsed_cropdetect_0 @ 0x1] x1:0 t:2 crop=1920:800:0:140\n";
    assert_eq!(parse_cropdetect(stderr), Some(Crop { w: 1920, h: 800, x: 0, y: 140 }));
    assert_eq!(parse_cropdetect("frame=1\n"), None);
}

#[test]
fn bars_are_about_as_wide_on_both_sides() {
    assert!(is_bars(&Crop { w: 1920, h: 800, x: 0, y: 140 }, 1920, 1080));
    assert!(!is_bars(&Crop { w: 1400, h: 700, x: 100, y: 50 }, 1920, 1080));
}

#[test]
fn every_failed_sample_is_an_error_and_a_cached_result_needs_none() {
    let err = detect(None, &[Sample::Failed, Sample::Failed], 1920, 1080).unwrap_err();
    assert_eq!(err.failed, 2);

    let cached = detect(Some("crop=1920:800:0:140"), &[], 1920, 1080).unwrap();
    assert_eq!(cached.crop.as_deref(), Some("crop=1920:800:0:140"));
    assert_eq!(cached.keep, None);

    let c = Crop { w: 1920, h: 800, x: 0, y: 140 };
    let found = detect(None, &[Sample::Failed, Sample::Boxed { crop: c }], 1920, 1080).unwrap();
    assert_eq!(found.crop.as_deref(), Some("crop=1920:800:0:140"));
}

#[test]
fn samples_are_spread_over_the_video() {
    assert_eq!(sample_percents(), [5, 20, 40, 60, 80, 95]);
    let args = cropdetect_args("film.mkv", 90);
    assert_eq!(args[..5], ["-noautorotate", "-ss", "90", "-i", "film.mkv"]);
    assert!(args.iter().any(|a| a == "cropdetect=0.094:2:0"));
}
