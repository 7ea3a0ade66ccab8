use avet::source::{
    cumulative_packet_bytes, parse_fps, FpsError, Packet, ProbeError, SourceVideo, VideoProbe,
    VideoProbeStream,
};

fn packet(size: &str, pts: Option<i64>) -> Packet {
    Packet { size: Some(size.into()), pts }
}

fn stream(rate: &str) -> VideoProbeStream {
    VideoProbeStream {
        avg_frame_rate: rate.into(),
        r_frame_rate: String::new(),
        start_ms: None,
        sample_aspect_ratio: None,
        rotations: vec![],
    }
}

fn probe(stream: VideoProbeStream) -> VideoProbe {
    VideoProbe { streams: vec![stream], format_name: String::new(), format_start_ms: None }
}

fn source_video(p: VideoProbe) -> SourceVideo {
    SourceVideo::from_probe(&p).unwrap()
}

#[test]
fn the_size_cap_gives_up_on_a_partly_timestamped_source() {
    let ordered = [packet("100", Some(3)), packet("10", Some(1)), packet("1", Some(2))];
    assert_eq!(cumulative_packet_bytes(&ordered).unwrap(), [0, 10, 11, 111]);

    // No timestamps anywhere: decode order is all there is, and it is kept.
    let none = [packet("100", None), packet("10", None)];
    assert_eq!(cumulative_packet_bytes(&none).unwrap(), [0, 100, 110]);

    // Mixed: sorting would move the untimestamped packets to the front.
    let mixed = [packet("100", None), packet("10", Some(90000))];
    assert_eq!(cumulative_packet_bytes(&mixed), None);
}

#[test]
fn stream_offsets_are_measured_from_the_container_start() {
    let ts = source_video(VideoProbe {
        streams: vec![VideoProbeStream { start_ms: Some(1721), ..stream("25/1") }],
        format_name: "mpegts".into(),
        format_start_ms: Some(1400),
    });
    assert_eq!((ts.offset_ms, ts.matroska_start_ms), (321, 0));

    // mkvmerge keeps a Matroska source's own timeline, so its start has to be undone.
    let mkv = source_video(VideoProbe {
        streams: vec![VideoProbeStream { start_ms: Some(5300), ..stream("24/1") }],
        format_name: "matroska,webm".into(),
        format_start_ms: Some(5000),
    });
    assert_eq!((mkv.offset_ms, mkv.matroska_start_ms), (300, 5000));

    let bare = source_video(probe(stream("24000/1001")));
    assert_eq!(
        (bare.fps_num, bare.fps_den, bare.offset_ms, bare.matroska_start_ms),
        (24000, 1001, 0, 0)
    );
}

#[test]
fn aspect_and_rotation_become_mkvmerge_options() {
    let aspect = |rate: &str, sar: &str| {
        source_video(probe(VideoProbeStream {
            sample_aspect_ratio: Some(sar.into()),
            ..stream(rate)
        }))
    };
    let anamorphic = aspect("25/1", "64:45");
    assert_eq!(anamorphic.display_args(720, 576), ["--display-dimensions", "0:1024x576"]);
    assert_eq!(anamorphic.display_args(360, 288), ["--display-dimensions", "0:512x288"]);

    let square = aspect("25/1", "1:1");
    assert!(square.display_args(1920, 1080).is_empty());
    let unknown = aspect("25/1", "0:1");
    assert!(unknown.display_args(1920, 1080).is_empty());

    let rotated = |r: i64| {
        source_video(probe(VideoProbeStream { rotations: vec![Some(r)], ..stream("30/1") }))
    };
    assert_eq!(
        [90, -90, 270, 180, -180, 0].map(|r| rotated(r).rotation),
        [90, -90, -90, 180, 180, 0]
    );
    assert_eq!(rotated(90).display_args(640, 360), ["--projection-pose-roll", "0:90"]);
}

#[test]
fn a_rate_that_is_none_is_named() {
    assert_eq!(parse_fps("24000/1001"), Ok((24000, 1001)));
    assert_eq!(parse_fps("x/1"), Err(FpsError::Numerator));
    assert_eq!(parse_fps("25/x"), Err(FpsError::Denominator));
    assert_eq!(parse_fps("25/0"), Err(FpsError::Zero(25, 0)));
    assert_eq!(parse_fps("0/1"), Err(FpsError::Zero(0, 1)));

    let none = VideoProbe { streams: vec![], format_name: String::new(), format_start_ms: None };
    assert_eq!(SourceVideo::from_probe(&none).err(), Some(ProbeError::NoVideoStream));
    assert_eq!(
        SourceVideo::from_probe(&probe(stream("x/1"))).err(),
        Some(ProbeError::FrameRate(FpsError::Numerator))
    );
}

#[test]
fn bytes_by_frame_increase() {
    let packets: Vec<Packet> = (0..20).map(|i| packet("7", Some((i * 13) % 20))).collect();
    let sums = cumulative_packet_bytes(&packets).unwrap();
    assert!(sums.windows(2).all(|w| w[1] - w[0] == 7));
}
