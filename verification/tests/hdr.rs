use avet::crop::Crop;
use avet::hdr::{
    detect, dovi_t35, map_chroma, map_color_primaries, map_color_range, map_matrix, map_transfer,
    mastering_texts, mkvmerge_colour_args, parse_mastering_display, plan_rpu, remap_active_area,
    t35_messages, val_to_i64, DynamicHdr, FrameHdrMetadata, Geometry, HdrError, HdrInfo,
    MasteringDisplay, ProbeOutput, ProbeStream, ProbeValue, SideData,
};
use dolby_vision::rpu::dovi_rpu::DoviRpu;
use dolby_vision::rpu::extension_metadata::blocks::ExtMetadataBlock;
use dolby_vision::rpu::generate::GenerateConfig;

fn geometry(crop: Option<Crop>, scale: Option<(u32, u32)>) -> Geometry {
    Geometry { width: 1920, height: 1080, crop, scale }
}

fn strings(list: &[&str]) -> Vec<String> {
    list.iter().map(|s| s.to_string()).collect()
}

fn side_data(kind: &str) -> SideData {
    SideData {
        side_data_type: kind.into(),
        max_content: None,
        max_average: None,
        mastering: None,
        dv_profile: None,
    }
}

fn stream(transfer: &str, side_data_list: Vec<SideData>) -> ProbeStream {
    ProbeStream {
        codec_name: "hevc".into(),
        color_primaries: "bt2020".into(),
        color_transfer: transfer.into(),
        color_space: "bt2020nc".into(),
        chroma_location: "topleft".into(),
        color_range: "tv".into(),
        side_data_list,
    }
}

/// Each value as a number writes itself.
fn shortest(m: MasteringDisplay) -> MasteringDisplay {
    let one = |s: String| s.parse::<f64>().unwrap().to_string();
    let pair = |(a, b): (String, String)| (one(a), one(b));
    MasteringDisplay {
        green: pair(m.green),
        blue: pair(m.blue),
        red: pair(m.red),
        white: pair(m.white),
        luminance: pair(m.luminance),
    }
}

/// The options for `args` in front of `track`, with the numbers of the mastering display as
/// they write themselves.
fn colour_args(args: &[String], track: u32) -> Vec<String> {
    let mastering = mastering_texts(args).map(shortest);
    mkvmerge_colour_args(args, track, mastering.as_ref())
}

/// The next number of a fixed sequence that looks like chance.
fn next(state: &mut u64) -> u64 {
    *state = state.wrapping_mul(6364136223846793005).wrapping_add(1442695040888963407);
    *state >> 33
}

#[test]
fn h273_color_primaries() {
    assert_eq!(map_color_primaries("bt709"), Some(1));
    assert_eq!(map_color_primaries("bt2020"), Some(9));
    assert_eq!(map_color_primaries("smpte432"), Some(12));
    assert_eq!(map_color_primaries("ebu3213"), Some(22));
    assert_eq!(map_color_primaries("unknown"), None);
    assert_eq!(map_color_primaries(""), None);
}

#[test]
fn h273_transfer() {
    assert_eq!(map_transfer("smpte2084"), Some(16));
    assert_eq!(map_transfer("arib-std-b67"), Some(18));
    assert_eq!(map_transfer("bt2020-10"), Some(14));
    assert_eq!(map_transfer("nope"), None);
}

#[test]
fn h273_matrix_uses_ffprobe_shortnames() {
    assert_eq!(map_matrix("bt2020nc"), Some(9));
    assert_eq!(map_matrix("bt2020c"), Some(10));
    assert_eq!(map_matrix("ictcp"), Some(14));
}

#[test]
fn hdr_type_detection() {
    let mut i = HdrInfo::default();
    assert!(!i.is_hdr());
    i.hdr_type = "SDR".into();
    assert!(!i.is_hdr());
    i.hdr_type = "HDR10".into();
    assert!(i.is_hdr());
}

#[test]
fn encoder_args_only_for_set_fields() {
    let i = HdrInfo {
        color_primaries: Some(9),
        transfer_characteristics: Some(16),
        ..Default::default()
    };
    let args = i.encoder_args();
    assert_eq!(args, vec!["--color-primaries", "9", "--transfer-characteristics", "16"]);
}

#[test]
fn transfer_uses_the_names_ffprobe_actually_prints() {
    // Verified against ffprobe 8.1; these five differ from the AV1 spec spelling.
    assert_eq!(map_transfer("bt470m"), Some(4));
    assert_eq!(map_transfer("bt470bg"), Some(5));
    assert_eq!(map_transfer("log100"), Some(9));
    assert_eq!(map_transfer("log316"), Some(10));
    assert_eq!(map_transfer("bt1361e"), Some(12));

    assert_eq!(map_transfer("gamma22"), None);
    assert_eq!(map_transfer("log"), None);
    assert_eq!(map_transfer("unknown"), None);
}

#[test]
fn dv_profile_is_read_from_stream_side_data() {
    // The frame side data carries the RPU but no profile number.
    let record = SideData {
        dv_profile: Some(ProbeValue::Integer(5)),
        ..side_data("DOVI configuration record")
    };
    let probe = ProbeOutput {
        stream: Some(stream("smpte2084", vec![record])),
        frame: vec![side_data("Dolby Vision RPU Data")],
    };
    let info = detect(&probe);
    assert_eq!(info.dv_profile, Some(5));
}

#[test]
fn active_area_never_leaves_the_picture() {
    let mut state = 29;
    for _ in 0..2000 {
        let mut up_to = |n: u64| next(&mut state) % n;
        let w = 2 + up_to(4094) as u32;
        let h = 2 + up_to(4094) as u32;
        let x = up_to(u64::from(w)) as u32;
        let y = up_to(u64::from(h)) as u32;
        let cw = 1 + up_to(u64::from(w - x)) as u32;
        let ch = 1 + up_to(u64::from(h - y)) as u32;
        let crop = Crop { w: cw, h: ch, x, y };
        let out = if up_to(2) == 0 {
            None
        } else {
            let f = 0.05 + up_to(950) as f64 / 1000.0;
            Some((((cw as f64 * f) as u32).max(1), ((ch as f64 * f) as u32).max(1)))
        };
        let offsets =
            (up_to(8192) as u16, up_to(8192) as u16, up_to(8192) as u16, up_to(8192) as u16);
        let g = Geometry { width: w, height: h, crop: Some(crop), scale: out };
        let (l, r, t, b) = remap_active_area(offsets, g);
        let (ow, oh) = out.unwrap_or((cw, ch));
        assert!(
            u32::from(l) <= ow && u32::from(r) <= ow && u32::from(t) <= oh && u32::from(b) <= oh
        );

        let untouched = Geometry { width: w, height: h, crop: None, scale: None };
        let clamp = |v: u16, max: u32| v.min(max as u16);
        assert_eq!(
            remap_active_area(offsets, untouched),
            (clamp(offsets.0, w), clamp(offsets.1, w), clamp(offsets.2, h), clamp(offsets.3, h))
        );
    }
}

#[test]
fn mastering_display_values_survive_the_round_trip() {
    let mut state = 31;
    for _ in 0..200 {
        let v: Vec<f64> = (0..8).map(|_| next(&mut state) as f64 / 2147483648.0).collect();
        let max = 1.0 + next(&mut state) as f64 / 214768.0;
        let min = next(&mut state) as f64 / 2147483648.0;
        let s = format!(
            "G({},{})B({},{})R({},{})WP({},{})L({max},{min})",
            v[0], v[1], v[2], v[3], v[4], v[5], v[6], v[7]
        );
        let parsed = parse_mastering_display(&s).unwrap();
        let read = |(a, b): (String, String)| {
            (a.parse::<f64>().unwrap(), b.parse::<f64>().unwrap())
        };
        assert_eq!(
            [parsed.green, parsed.blue, parsed.red, parsed.white, parsed.luminance].map(read),
            [(v[0], v[1]), (v[2], v[3]), (v[4], v[5]), (v[6], v[7]), (max, min)]
        );
    }
}

#[test]
fn active_area_follows_crop_and_scale() {
    let bars = (0, 0, 140, 140);
    assert_eq!(remap_active_area(bars, geometry(None, None)), bars);

    let exact = Crop { w: 1920, h: 800, x: 0, y: 140 };
    assert_eq!(remap_active_area(bars, geometry(Some(exact), None)), (0, 0, 0, 0));

    let partial = Crop { w: 1920, h: 1000, x: 0, y: 40 };
    assert_eq!(remap_active_area(bars, geometry(Some(partial), None)), (0, 0, 100, 100));

    assert_eq!(remap_active_area(bars, geometry(None, Some((1280, 720)))), (0, 0, 93, 93));
    assert_eq!(
        remap_active_area(bars, geometry(Some(partial), Some((960, 500)))),
        (0, 0, 50, 50)
    );
}

fn ffms2_rpu(offsets: (u16, u16, u16, u16)) -> Vec<u8> {
    let mut rpu =
        DoviRpu::profile81_config(&GenerateConfig { length: 1, ..Default::default() }).unwrap();
    rpu.set_active_area_offsets(offsets.0, offsets.1, offsets.2, offsets.3).unwrap();
    // FFMS2 drops the two NAL header bytes and keeps emulation prevention.
    rpu.write_hevc_unspec62_nalu().unwrap()[2..].to_vec()
}

fn l5(t35: &[u8]) -> (u16, u16, u16, u16) {
    let rpu = DoviRpu::parse_itu_t35_dovi_metadata_obu(t35).unwrap();
    match rpu.vdr_dm_data.unwrap().get_block(5) {
        Some(ExtMetadataBlock::Level5(b)) => (
            b.active_area_left_offset,
            b.active_area_right_offset,
            b.active_area_top_offset,
            b.active_area_bottom_offset,
        ),
        _ => panic!("no L5 block"),
    }
}

#[test]
fn t35_messages_wrap_both_kinds_and_skip_what_is_not_carried() {
    let frame = FrameHdrMetadata {
        dovi_rpu: Some(ffms2_rpu((0, 0, 140, 140))),
        hdr10plus: Some(vec![0x01, 0x40, 0x00]),
    };
    let both = DynamicHdr { hdr10plus: true, dolby_vision: true };
    let crop = Crop { w: 1920, h: 800, x: 0, y: 140 };

    let messages = t35_messages(&frame, both, geometry(Some(crop), None)).unwrap();
    assert_eq!(messages.len(), 2);
    assert_eq!(messages[0][..3], [0xB5, 0x00, 0x3B]);
    assert_eq!(l5(&messages[0]), (0, 0, 0, 0));
    assert_eq!(messages[1], [0xB5, 0x00, 0x3C, 0x00, 0x01, 0x04, 0x01, 0x40, 0x00]);

    let uncropped = t35_messages(&frame, both, geometry(None, None)).unwrap();
    assert_eq!(l5(&uncropped[0]), (0, 0, 140, 140));

    let hdr10plus_only = DynamicHdr { hdr10plus: true, dolby_vision: false };
    let messages = t35_messages(&frame, hdr10plus_only, geometry(None, None)).unwrap();
    assert_eq!(messages.len(), 1);
    assert_eq!(messages[0][2], 0x3C);
}

#[test]
fn colour_flags_become_mkvmerge_options() {
    let args = strings(&[
        "--crf",
        "30",
        "--color-primaries",
        "9",
        "--transfer-characteristics",
        "16",
        "--matrix-coefficients",
        "9",
        "--chroma-sample-position",
        "2",
        "--content-light",
        "1000,400",
        "--mastering-display",
        "G(0.2650,0.6900)B(0.1500,0.0600)R(0.6800,0.3200)WP(0.3127,0.3290)L(1000.0000,0.0050)",
    ]);

    assert_eq!(
        colour_args(&args, 0),
        [
            "--color-matrix-coefficients",
            "0:9",
            "--color-transfer-characteristics",
            "0:16",
            "--color-primaries",
            "0:9",
            "--color-range",
            "0:1",
            "--chroma-siting",
            "0:1,1",
            "--max-content-light",
            "0:1000",
            "--max-frame-light",
            "0:400",
            "--chromaticity-coordinates",
            "0:0.68,0.32,0.265,0.69,0.15,0.06",
            "--white-color-coordinates",
            "0:0.3127,0.329",
            "--max-luminance",
            "0:1000",
            "--min-luminance",
            "0:0.005",
        ]
    );

    let full = ["--color-primaries", "1", "--color-range", "1"].map(String::from);
    assert!(colour_args(&full, 0).windows(2).any(|w| w == ["--color-range", "0:2"]));
    assert!(colour_args(&["--crf".to_string(), "30".to_string()], 0).is_empty());
}

#[test]
fn a_text_that_is_no_rpu_is_refused() {
    assert_eq!(dovi_t35(&[], geometry(None, None)).err(), Some(HdrError::ParseRpu));
    assert_eq!(dovi_t35(&[0x19, 0x08, 0x09], geometry(None, None)).err(), Some(HdrError::ParseRpu));
}

#[test]
fn only_profiles_with_an_av1_form_are_carried() {
    let g = geometry(None, None);
    assert!(!plan_rpu(5, None, g).unwrap().convert);
    assert!(!plan_rpu(8, None, g).unwrap().convert);
    assert!(plan_rpu(7, None, g).unwrap().convert);
    assert_eq!(plan_rpu(4, None, g).err(), Some(HdrError::NoAv1Form { profile: 4 }));

    let cropped = geometry(Some(Crop { w: 1920, h: 800, x: 0, y: 140 }), None);
    assert_eq!(plan_rpu(8, Some((0, 0, 140, 140)), cropped).unwrap().area, Some((0, 0, 0, 0)));
    assert_eq!(plan_rpu(8, Some((0, 0, 140, 140)), g).unwrap().area, None);
    assert_eq!(plan_rpu(8, None, cropped).unwrap().area, None);
}

#[test]
fn an_untouched_picture_keeps_the_active_area_of_its_rpu() {
    let message = dovi_t35(&ffms2_rpu((2, 4, 6, 8)), geometry(None, None)).unwrap();
    assert_eq!(l5(&message), (2, 4, 6, 8));
    let half = dovi_t35(&ffms2_rpu((2, 4, 6, 8)), geometry(None, Some((960, 540)))).unwrap();
    assert_eq!(l5(&half), (1, 2, 3, 4));
}

#[test]
fn what_is_found_says_which_hdr_it_is() {
    let sdr = detect(&ProbeOutput { stream: Some(stream("bt709", vec![])), frame: vec![] });
    assert!(!sdr.is_hdr());
    assert_eq!(sdr.transfer_characteristics, Some(1));

    let hlg = detect(&ProbeOutput { stream: Some(stream("arib-std-b67", vec![])), frame: vec![] });
    assert!(hlg.is_hdr());
    assert_eq!(hlg.hdr_type, "HLG");

    let hdr10 = detect(&ProbeOutput { stream: Some(stream("smpte2084", vec![])), frame: vec![] });
    assert_eq!(hdr10.hdr_type, "HDR10");
    assert_eq!(hdr10.missing_static_metadata().len(), 2);
}

#[test]
fn the_other_names_map_too() {
    assert_eq!(map_chroma("left"), Some(1));
    assert_eq!(map_chroma("topleft"), Some(2));
    assert_eq!(map_color_range("tv"), None);
    assert_eq!(map_color_range("pc"), Some(1));
    assert_eq!(val_to_i64(&ProbeValue::Integer(-3)), -3);
    assert_eq!(val_to_i64(&ProbeValue::Text("1000".into())), 1000);
    assert_eq!(val_to_i64(&ProbeValue::Other), 0);
}

#[test]
fn a_mastering_display_is_read_only_where_all_its_numbers_are() {
    let whole = "G(0.265, 0.69)B(.15,6e-2)R(0.68,0.32)WP(0.3127,0.329)L(1000.,0.005)";
    let m = parse_mastering_display(whole).unwrap();
    assert_eq!(m.green, ("0.265".to_string(), "0.69".to_string()));
    assert_eq!(m.blue, (".15".to_string(), "6e-2".to_string()));
    assert_eq!(m.luminance, ("1000.".to_string(), "0.005".to_string()));

    assert!(parse_mastering_display(&whole.replace("0.68", "x")).is_none());
    assert!(parse_mastering_display(&whole.replace("0.005", "")).is_none());
    assert!(parse_mastering_display(&whole.replace("WP(", "W(")).is_none());
}

#[test]
fn mastering_options_follow_the_arguments_of_the_encoder() {
    let strings = |list: &[&str]| -> Vec<String> { list.iter().map(|s| s.to_string()).collect() };
    let whole = "G(0.265,0.69)B(0.15,0.06)R(0.68,0.32)WP(0.3127,0.329)L(1000.0,0.005)";
    let args = strings(&["--mastering-display", whole]);
    assert_eq!(mastering_texts(&args).unwrap().luminance.0, "1000.0");
    assert!(mastering_texts(&strings(&["--crf", "30"])).is_none());
    assert!(mastering_texts(&strings(&["--mastering-display", "G(1,2)"])).is_none());

    // Without the flag, no numbers make up for it; with it, the encoder's own stand in.
    let printed = mastering_texts(&args);
    assert!(mkvmerge_colour_args(&strings(&["--crf", "30"]), 0, printed.as_ref()).is_empty());
    assert_eq!(mkvmerge_colour_args(&args, 3, None)[5], "3:1000.0");
    assert_eq!(mkvmerge_colour_args(&args, 3, Some(&shortest(printed.unwrap())))[5], "3:1000");
}
