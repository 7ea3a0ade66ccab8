use avet::config::{SubtitleConfig, SubtitleMode};
use avet::subtitle::{
    identify_subtitles, match_track, needs_tracks, parse_track_number, plan, route, IdentifiedTrack,
    Route, Stream,
};

fn stream(codec: &str, language: &str, id: Option<&str>) -> Stream {
    Stream {
        id: id.map(String::from),
        codec_name: Some(codec.into()),
        language: Some(language.into()),
    }
}

fn copy(whitelist: &[&str]) -> SubtitleConfig {
    SubtitleConfig {
        mode: SubtitleMode::Copy,
        language_whitelist: whitelist.iter().map(|s| s.to_string()).collect(),
    }
}

#[test]
fn a_matroska_track_is_matched_by_position_because_ffprobe_reports_no_id() {
    let tracks = vec![
        (2u64, Some(3u64), Some("eng".to_string())),
        (3u64, Some(4u64), Some("jpn".to_string())),
    ];

    // MP4 and MPEG-TS: ffprobe prints the id, and the number decides.
    assert_eq!(match_track(&tracks, 0, Some("0x4"))[0].0, 3);
    assert_eq!(match_track(&tracks, 1, Some("0x3"))[0].0, 2);

    // Matroska: no id at all, so the second subtitle stream is the second track.
    assert_eq!(match_track(&tracks, 1, None)[0].0, 3);
    assert_eq!(match_track(&tracks, 0, None)[0].0, 2);
    assert!(match_track(&tracks, 2, None).is_empty());

    // An id mkvmerge does not list stays unmatched rather than falling back.
    assert!(match_track(&tracks, 0, Some("0x99")).is_empty());
}

#[test]
fn only_what_ffmpeg_can_write_into_matroska_is_extracted() {
    for codec in ["subrip", "ass", "webvtt", "dvd_subtitle", "hdmv_pgs_subtitle", "dvb_subtitle"] {
        assert_eq!(
            route(codec),
            Route::ExtractWithFfmpeg(None),
            "{codec} should be extracted as it is"
        );
    }
    assert_eq!(route("mov_text"), Route::ExtractWithFfmpeg(Some("srt")));

    for codec in ["ttml", "dvb_teletext", "eia_608", "unknown"] {
        assert_eq!(
            route(codec),
            Route::FromSourceWithMkvmerge,
            "{codec} should go through mkvmerge"
        );
    }
}

#[test]
fn a_track_number_is_hexadecimal() {
    assert_eq!(parse_track_number("0x1f"), Some(31));
    assert_eq!(parse_track_number("1f"), Some(31));
    assert_eq!(parse_track_number("0xzz"), None);
}

#[test]
fn streams_go_their_route_and_stripped_ones_go_nowhere() {
    let streams = [
        stream("subrip", "eng", None),
        stream("mov_text", "jpn", None),
        stream("dvb_teletext", "eng", None),
    ];
    let tracks = vec![
        (2u64, None, Some("eng".to_string())),
        (3u64, None, Some("jpn".to_string())),
        (4u64, None, Some("eng".to_string())),
    ];
    assert!(needs_tracks(&streams, &copy(&[])));
    let p = plan(&streams, &tracks, &copy(&[]));
    assert_eq!(p.extract, [(0, None), (1, Some("srt"))]);
    assert_eq!(p.from_source, [4]);

    let english = plan(&streams, &tracks, &copy(&["eng"]));
    assert_eq!(english.extract, [(0, None)]);

    let strip = SubtitleConfig { mode: SubtitleMode::Strip, language_whitelist: vec![] };
    assert!(!needs_tracks(&streams, &strip));
    let none = plan(&streams, &tracks, &strip);
    assert!(none.extract.is_empty() && none.from_source.is_empty());
}

#[test]
fn only_subtitles_are_picked_from_the_tracks() {
    let track = |id, track_type: &str, language: Option<&str>| IdentifiedTrack {
        id,
        track_type: track_type.into(),
        number: Some(id + 1),
        language: language.map(String::from),
    };
    let tracks = [
        track(0, "video", None),
        track(1, "subtitles", Some("eng")),
        track(2, "audio", Some("eng")),
        track(3, "subtitles", None),
    ];
    assert_eq!(
        identify_subtitles(&tracks),
        [(1, Some(2), Some("eng".to_string())), (3, Some(4), None)]
    );
}
