use avet::config::{Config, Encoder, ParamValue};
use avet::encode::{
    build_encoder_args, chunk_messages, chunk_size, encode_end, encoder_binary, failed_tool,
    feed_failure, insert_hdr_metadata, merged_encoder_args, override_args, replace_hdr10plus,
    scaler_args, scaler_filter, set_arg, video_packet_count, ChunkError, EncodeEnd, EncodeOptions,
    InsertError, Tool,
};
use avet::hdr::{DynamicHdr, FrameHdrMetadata, Geometry, HdrError};
use avet::hevc::Hdr10PlusFrames;
use avet::job::Cause;
use avet::resume::SceneEntry;

fn params(pairs: &[(&str, i64)]) -> Vec<(String, ParamValue)> {
    pairs.iter().map(|(k, v)| (k.to_string(), ParamValue::Integer(*v))).collect()
}

fn cfg(encoder_params: Vec<(String, ParamValue)>) -> Config {
    Config { encoder: Some(Encoder::SvtAv1), encoder_params }
}

fn strings(list: &[&str]) -> Vec<String> {
    list.iter().map(|s| s.to_string()).collect()
}

fn geometry() -> Geometry {
    Geometry { width: 1920, height: 1080, crop: None, scale: None }
}

/// An IVF file of one temporal unit.
fn ivf(tu: &[u8]) -> Vec<u8> {
    let mut out = b"DKIF".to_vec();
    out.extend_from_slice(&[0, 0, 32, 0]);
    out.extend_from_slice(&[0; 24]);
    out.extend_from_slice(&(tu.len() as u32).to_le_bytes());
    out.extend_from_slice(&[0; 8]);
    out.extend_from_slice(tu);
    out
}

#[test]
fn build_encoder_args_includes_params() {
    let config = cfg(params(&[("crf", 28), ("preset", 6)]));
    let opts = EncodeOptions { fps_num: 24, fps_den: 1, ..Default::default() };

    let args = build_encoder_args(&config, "/tmp/chunk.ivf", &opts);

    assert!(args.contains(&"-b".to_string()));
    assert!(args.contains(&"--crf".to_string()));
    assert!(args.contains(&"28".to_string()));
    assert!(args.contains(&"--preset".to_string()));
    assert!(args.contains(&"6".to_string()));
}

#[test]
fn auto_keyint_skipped_when_manual() {
    let config = cfg(params(&[("keyint", 240)]));
    let opts = EncodeOptions { keyint: Some(120), fps_num: 24, fps_den: 1, ..Default::default() };

    let args = build_encoder_args(&config, "/tmp/chunk.ivf", &opts);

    let keyint_pos = args.iter().position(|a| a == "--keyint").unwrap();
    assert_eq!(args[keyint_pos + 1], "240");
    assert_eq!(args.iter().filter(|a| *a == "--keyint").count(), 1);
}

#[test]
fn auto_keyint_injected_when_not_manual() {
    let config = cfg(vec![]);
    let opts = EncodeOptions { keyint: Some(120), fps_num: 24, fps_den: 1, ..Default::default() };

    let args = build_encoder_args(&config, "/tmp/chunk.ivf", &opts);

    let keyint_pos = args.iter().position(|a| a == "--keyint").unwrap();
    assert_eq!(args[keyint_pos + 1], "120");
}

#[test]
fn a_decode_error_reaches_the_log_and_a_broken_pipe_does_not() {
    let decode = anyhow::Error::msg("FFMS_GetFrame(5000) failed").context("write Y4M frames");
    let said = feed_failure(Some(format!("{decode:#}")), &[Cause::Other, Cause::Other]);
    assert!(said.unwrap().contains("FFMS_GetFrame(5000)"));

    let pipe = anyhow::Error::new(std::io::Error::from(std::io::ErrorKind::BrokenPipe))
        .context("write Y4M frames");
    assert_eq!(feed_failure(Some(format!("{pipe:#}")), &[Cause::Other, Cause::BrokenPipe]), None);

    assert_eq!(feed_failure(None, &[]), None);
}

#[test]
fn auto_hdr_skipped_when_manual_override() {
    let config = cfg(params(&[("color-primaries", 1)]));
    let opts = EncodeOptions {
        hdr_args: strings(&["--color-primaries", "9", "--transfer-characteristics", "16"]),
        fps_num: 24,
        fps_den: 1,
        ..Default::default()
    };

    let args = merged_encoder_args(&config, &opts);
    let pos = args.iter().position(|a| a == "--color-primaries").unwrap();
    assert_eq!(args[pos + 1], "1");
    assert_eq!(args.iter().filter(|a| *a == "--color-primaries").count(), 1);
    assert!(args.windows(2).any(|w| w[0] == "--transfer-characteristics" && w[1] == "16"));
}

#[test]
fn a_probe_overrides_rate_and_preset() {
    let args = strings(&["-b", "x.ivf", "--crf", "28", "--preset", "6"]);
    let out = override_args(args, Some("30.25".into()), Some(8));
    assert_eq!(out, ["-b", "x.ivf", "--crf", "30.25", "--preset", "8"]);
    assert_eq!(
        override_args(strings(&["-b", "x.ivf"]), Some("30".into()), None),
        ["-b", "x.ivf", "--crf", "30"]
    );

    let mut args = strings(&["--crf", "28"]);
    set_arg(&mut args, "--crf", "29".into());
    set_arg(&mut args, "--lp", "6".into());
    assert_eq!(args, ["--crf", "29", "--lp", "6"]);
}

#[test]
fn each_encoder_has_its_binary() {
    assert_ne!(encoder_binary(Encoder::SvtAv1), encoder_binary(Encoder::SvtAv1Hdr));
    assert_eq!(scaler_filter(960, 400), "scale=960:400:flags=lanczos");
}

#[test]
fn the_scaler_takes_the_blame_only_when_the_encoder_is_well() {
    assert_eq!(failed_tool(true, true), None);
    assert_eq!(failed_tool(false, true), Some(Tool::Encoder));
    assert_eq!(failed_tool(true, false), Some(Tool::Scaler));
}

#[test]
fn a_chunk_that_is_missing_or_empty_is_an_error() {
    assert_eq!(chunk_size(None), Err(ChunkError::NotFound));
    assert_eq!(chunk_size(Some(0)), Err(ChunkError::Empty));
    assert_eq!(chunk_size(Some(12)), Ok(12));
}

#[test]
fn packets_are_counted_from_the_first_stream() {
    assert_eq!(video_packet_count(&[Some("240".into())]), Some(240));
    assert_eq!(video_packet_count(&[Some("N/A".into())]), None);
    assert_eq!(video_packet_count(&[None]), None);
    assert_eq!(video_packet_count(&[]), None);
}

#[test]
fn bitstream_messages_take_the_place_of_the_decoded_ones() {
    let mut frames = vec![
        FrameHdrMetadata { dovi_rpu: None, hdr10plus: Some(vec![9]) },
        FrameHdrMetadata { dovi_rpu: Some(vec![1]), hdr10plus: Some(vec![9]) },
    ];
    let table = Hdr10PlusFrames { messages: vec![vec![7]], frames: vec![None, None, Some(0)] };
    replace_hdr10plus(&mut frames, &table, 1);
    assert_eq!(frames[0].hdr10plus, None);
    assert_eq!(frames[1].hdr10plus, Some(vec![7]));
    assert_eq!(frames[1].dovi_rpu, Some(vec![1]));
}

#[test]
fn nothing_carried_leaves_the_chunk_alone() {
    let chunk = ivf(&[0x32, 0x01, 0x10]);
    let frame = FrameHdrMetadata { dovi_rpu: None, hdr10plus: Some(vec![1, 2]) };
    let none = DynamicHdr { hdr10plus: false, dolby_vision: false };
    assert!(matches!(insert_hdr_metadata(&chunk, &[frame], none, geometry()), Ok(None)));
}

#[test]
fn carried_messages_go_into_the_chunk() {
    let chunk = ivf(&[0x32, 0x01, 0x10]);
    let frame = FrameHdrMetadata { dovi_rpu: None, hdr10plus: Some(vec![1, 2]) };
    let carry = DynamicHdr { hdr10plus: true, dolby_vision: false };
    let out = insert_hdr_metadata(&chunk, &[frame], carry, geometry()).unwrap().unwrap();
    let message = [0xB5, 0x00, 0x3C, 0x00, 0x01, 0x04, 1, 2];
    let unit = [&[0x2A, 10, 4][..], &message, &[0x80], &[0x32, 0x01, 0x10]].concat();
    assert_eq!(out, ivf(&unit));

    let bad = FrameHdrMetadata { dovi_rpu: Some(vec![0]), hdr10plus: None };
    let carry = DynamicHdr { hdr10plus: false, dolby_vision: true };
    assert!(matches!(
        insert_hdr_metadata(&chunk, &[bad], carry, geometry()),
        Err(InsertError::Metadata(HdrError::ParseRpu))
    ));
    let plain = FrameHdrMetadata { dovi_rpu: None, hdr10plus: None };
    assert!(matches!(
        insert_hdr_metadata(b"DKIF", &[plain], carry, geometry()),
        Err(InsertError::Chunk(_)) | Ok(None)
    ));
}

#[test]
fn a_frame_without_metadata_has_no_messages() {
    let plain = FrameHdrMetadata { dovi_rpu: None, hdr10plus: None };
    let carry = DynamicHdr { hdr10plus: true, dolby_vision: true };
    let messages = chunk_messages(&[plain], carry, geometry()).unwrap();
    assert_eq!(messages, [Vec::<Vec<u8>>::new()]);
}

#[test]
fn the_end_of_an_encode_names_the_tool_and_the_chunk() {
    let scene = SceneEntry { index: 6, start_frame: 0, end_frame: 9 };
    assert!(matches!(encode_end(&scene, true, true, None, &[]), EncodeEnd::Done));
    let unfed = encode_end(&scene, true, true, Some("decode".into()), &[Cause::Other]);
    assert!(matches!(unfed, EncodeEnd::NotFed(e) if e == "decode"));

    match encode_end(&scene, true, false, Some("decode".into()), &[Cause::Other]) {
        EncodeEnd::ToolFailed { tool, what, reading } => {
            assert_eq!(tool, Tool::Scaler);
            assert_eq!(what, "ffmpeg scaler (chunk 00007)");
            assert_eq!(reading.as_deref(), Some("decode"));
        }
        other => panic!("{other:?}"),
    }
    match encode_end(&scene, false, false, Some("pipe".into()), &[Cause::BrokenPipe]) {
        EncodeEnd::ToolFailed { tool, what, reading } => {
            assert_eq!((tool, reading), (Tool::Encoder, None));
            assert_eq!(what, "encoder (chunk 00007)");
        }
        other => panic!("{other:?}"),
    }
    assert!(scaler_args(960, 400).iter().any(|a| a == "scale=960:400:flags=lanczos"));
}
