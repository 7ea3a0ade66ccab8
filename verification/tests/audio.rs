use avet::audio::{
    absolute_time_shift_ms, audio_tracks, channel_names, check_args, codec_display, extract_args,
    fallback_lossless_codecs, fold_unplaced, is_lossless, is_taken, matched_tags,
    may_keep_absolute_time, mkvmerge_failed, nothing_to_extract, opus_layout, parse_audio_codecs,
    parse_audio_encoders, pcm_codec, plan, plan_track, preroll_packets, rejects_profile,
    strip_codec_marker, subtitle_probe_args, wants_copy_check, whole_packets_within, Action,
    AudioCodecs, AudioError, AudioStream, AudioTrack, Disposition, Languages, MkvTrack, Mux,
    NameSet, TaggedStream,
};
use avet::config::{AudioConfig, AudioMode, AudioRule, Bitrate, ParamValue};

fn set_of(names: &[&str]) -> NameSet {
    let mut set = NameSet::new();
    for name in names {
        set.insert(name.to_string());
    }
    set
}

fn sample_set() -> NameSet {
    set_of(&["truehd", "flac", "alac", "dts", "wavpack"])
}

fn track(index: usize, codec: &str, language: Option<&str>) -> AudioTrack {
    AudioTrack {
        audio_index: index,
        codec_name: codec.into(),
        profile: None,
        channels: Some(2),
        channel_layout: Some("stereo".into()),
        sample_rate: 48000,
        bits_per_raw_sample: 0,
        sample_fmt: "fltp".into(),
        initial_padding: 0,
        language: language.map(String::from),
        title: None,
    }
}

fn config(mode: AudioMode) -> AudioConfig {
    AudioConfig {
        mode,
        codec: Some("libopus".into()),
        bitrate: Some(Bitrate::Single("160k".into())),
        options: vec![],
        language_whitelist: vec![],
        lossless: None,
        codec_rules: vec![],
    }
}

fn codecs() -> AudioCodecs {
    AudioCodecs { lossless: sample_set(), decodable: None }
}

#[test]
fn a_bcp_47_tag_is_kept_only_where_both_tools_agree_on_the_track() {
    let theirs =
        [(Some("por"), Some("pt-BR")), (Some("por"), Some("pt-PT")), (Some("eng"), Some("en"))];
    assert_eq!(
        matched_tags(&[Some("por"), Some("por"), Some("eng")], &theirs),
        [Some("pt-BR".to_string()), Some("pt-PT".to_string()), None]
    );
    assert_eq!(
        matched_tags(&[Some("ger"), Some("por"), Some("eng")], &theirs),
        [None, Some("pt-PT".to_string()), None]
    );
    assert_eq!(matched_tags(&[None, Some("por"), Some("eng")], &theirs)[0], None);
    assert_eq!(matched_tags(&[Some("por"), Some("por")], &theirs), [None, None]);

    let ts = [(Some("ger"), Some("de")), (Some("ger"), Some("de")), (Some("eng"), Some("en"))];
    assert_eq!(
        matched_tags(&[Some("ger,eng"), Some("ger"), Some("fre,eng")], &ts),
        [Some("ger".to_string()), None, None]
    );
}

#[test]
fn lossless_by_codec_name() {
    let set = sample_set();
    assert!(is_lossless("truehd", None, &set));
    assert!(is_lossless("flac", None, &set));
    assert!(is_lossless("pcm_s24le", None, &set)); // pcm always lossless
    assert!(!is_lossless("eac3", None, &set));
    assert!(!is_lossless("aac", None, &set));
}

#[test]
fn dts_lossless_only_for_master_audio() {
    let set = sample_set();
    assert!(is_lossless("dts", Some("DTS-HD MA"), &set));
    assert!(!is_lossless("dts", Some("DTS-HD HRA"), &set));
    assert!(!is_lossless("dts", Some("DTS"), &set));
    assert!(!is_lossless("dts", None, &set));
}

#[test]
fn parse_codecs_picks_audio_lossless_and_decodable() {
    let sample = "\
 D..... = Decoding supported
 ..A... = Audio codec
 DEA..S flac    FLAC (Free Lossless Audio Codec)
 DEA.L. aac     AAC (Advanced Audio Coding)
 DEAI.S truehd  TrueHD
 DEV..S ffv1    FFV1 (video, lossless)
 D.A.LS dts     DCA (DTS Coherent Acoustics)
 ..A.L. ac4     AC-4
";
    let codecs = parse_audio_codecs(sample);
    let set = &codecs.lossless;
    assert!(set.contains("flac"));
    assert!(set.contains("truehd"));
    assert!(set.contains("dts"));
    assert!(!set.contains("aac"));
    assert!(!set.contains("ffv1"));

    let decodable = codecs.decodable.unwrap();
    assert!(decodable.contains("aac") && decodable.contains("dts"));
    assert!(!decodable.contains("ac4") && !decodable.contains("ffv1") && !decodable.contains("="));
}

#[test]
fn the_encoder_list_holds_audio_encoders_and_no_legend_rows() {
    let stdout = "Encoders:\n \
         V..... = Video\n \
         A..... = Audio\n \
         ------\n \
         V....D libx264              libx264 H.264\n \
         A....D libopus              libopus Opus (codec opus)\n \
         A....D flac                 FLAC (Free Lossless Audio Codec)\n";
    let set = parse_audio_encoders(stdout);
    assert!(set.contains("libopus") && set.contains("flac"));
    assert!(!set.contains("libx264"));
    assert!(!set.contains("=") && !set.contains("libopu"));
}

#[test]
fn every_source_channel_gets_a_place_in_the_opus_layout() {
    let target = |layout: &str, channels: u32| opus_layout(Some(layout), Some(channels));
    assert_eq!(target("stereo", 2), ("stereo", "aformat=channel_layouts=stereo".to_string()));
    assert_eq!(
        target("5.1(side)", 6).1,
        "channelmap=map=FL-FL|FR-FR|FC-FC|LFE-LFE|SL-BL|SR-BR,aformat=channel_layouts=5.1"
    );
    assert_eq!(target("5.0", 5).0, "5.0");
    assert_eq!(target("6.1", 7).0, "6.1");
    assert_eq!(target("7.1", 8).0, "7.1");
    assert_eq!(target("2.1", 3), ("5.1", "aformat=channel_layouts=5.1".to_string()));
    assert_eq!(target("4.0", 4).0, "6.1");
    assert_eq!(
        target("quad(side)", 4).1,
        "channelmap=map=FL-FL|FR-FR|SL-BL|SR-BR,aformat=channel_layouts=quad"
    );
    assert_eq!(
        target("hexagonal", 6).1,
        "channelmap=map=FL-FL|FR-FR|FC-FC|BL-SL|BR-SR|BC-BC,aformat=channel_layouts=6.1"
    );
    assert_eq!(target("6.1(back)", 7).0, "6.1");
    assert_eq!(
        target("4 channels (FL+FR+LFE+BC)", 4),
        ("6.1", "aformat=channel_layouts=6.1".to_string())
    );
    assert_eq!(target("2 channels (FC+LFE)", 2).0, "5.1");
    assert_eq!(
        target("5 channels (FL+FR+LFE+SL+SR)", 5).1,
        "channelmap=map=FL-FL|FR-FR|LFE-LFE|SL-BL|SR-BR,aformat=channel_layouts=5.1"
    );
    assert_eq!(
        target("downmix", 2).1,
        "channelmap=map=DL-FL|DR-FR,aformat=channel_layouts=stereo"
    );
}

#[test]
fn a_layout_without_a_place_for_every_channel_keeps_the_channel_count() {
    assert_eq!(
        opus_layout(Some("7.1(wide)"), Some(8)),
        ("7.1", "aformat=channel_layouts=7.1".to_string())
    );
    assert_eq!(opus_layout(Some("octagonal"), Some(8)).0, "7.1");
    assert_eq!(opus_layout(Some("6.0(front)"), Some(6)).0, "5.1");
    assert_eq!(opus_layout(Some("6 channels"), Some(6)).0, "5.1");
    assert_eq!(opus_layout(None, Some(1)).0, "mono");
    assert_eq!(opus_layout(Some("7.1.4"), Some(12)).0, "7.1");
}

#[test]
fn channels_swresample_would_drop_are_mixed_into_their_place_first() {
    assert_eq!(
        opus_layout(Some("7.1.4"), Some(12)).1,
        "aformat=sample_fmts=fltp,pan=FL+FR+FC+LFE+BL+BR+SL+SR+TFL+TFR|FL=FL|FR=FR|FC=FC|LFE=LFE\
         |BL=BL+0.7071*TBL|BR=BR+0.7071*TBR|SL=SL|SR=SR|TFL=TFL|TFR=TFR,aformat=channel_layouts=7.1"
    );
    let seven_two_three = opus_layout(Some("7.2.3"), Some(12)).1;
    assert!(seven_two_three.contains("|LFE=LFE+0.7071*LFE2|"), "{seven_two_three}");
    assert!(
        seven_two_three.contains("|BL=BL+0.7071*TBC|BR=BR+0.7071*TBC|"),
        "{seven_two_three}"
    );
    assert!(opus_layout(Some("5.1.4"), Some(10))
        .1
        .contains("|SL=SL+0.7071*TBL|SR=SR+0.7071*TBR|"));

    assert_eq!(opus_layout(Some("7.1(wide)"), Some(8)).1, "aformat=channel_layouts=7.1");
    assert_eq!(
        opus_layout(Some("binaural"), Some(2)).1,
        "channelmap=map=BIL-FL|BIR-FR,aformat=channel_layouts=stereo"
    );
}

#[test]
fn samples_without_a_matroska_codec_id_keep_their_depth() {
    let track = |fmt: &str, bits: u32| AudioTrack {
        audio_index: 0,
        codec_name: "pcm_bluray".into(),
        profile: None,
        channels: Some(2),
        channel_layout: None,
        sample_rate: 48000,
        bits_per_raw_sample: bits,
        sample_fmt: fmt.into(),
        initial_padding: 0,
        language: None,
        title: None,
    };
    assert_eq!(pcm_codec(&track("s16", 16)), "pcm_s16le");
    assert_eq!(pcm_codec(&track("s16", 0)), "pcm_s16le");
    assert_eq!(pcm_codec(&track("s32", 20)), "pcm_s24le");
    assert_eq!(pcm_codec(&track("s32", 24)), "pcm_s24le");
    assert_eq!(pcm_codec(&track("s32", 0)), "pcm_s32le");
    assert_eq!(pcm_codec(&track("fltp", 0)), "pcm_f32le");
}

#[test]
fn a_rejected_option_is_retried_and_a_broken_track_is_not() {
    assert!(rejects_profile(
        "Unrecognized option 'compresion_level:a:0'.\nError splitting the argument list: Option not found"
    ));
    assert!(rejects_profile(
        "[flac] Error setting option compression_level to value abc.\n[aost#0:0/flac] Error applying encoder options: Invalid argument"
    ));
    assert!(!rejects_profile("[truehd] Invalid data found when processing input"));
}

#[test]
fn codec_marker_is_not_stacked_on_reencode() {
    assert_eq!(strip_codec_marker("Deutsch DD 5.1 (Opus)", "Opus"), "Deutsch DD 5.1");
    assert_eq!(strip_codec_marker("Deutsch DD 5.1", "Opus"), "Deutsch DD 5.1");
    assert_eq!(strip_codec_marker("Kommentar (Regie)", "Opus"), "Kommentar (Regie)");
    assert_eq!(strip_codec_marker("(Opus)", "Opus"), "");
}

#[test]
fn a_probe_becomes_tracks_and_what_carries_nothing_is_left() {
    let stream = AudioStream {
        codec_name: Some("eac3".into()),
        profile: None,
        channels: Some(6),
        channel_layout: Some("5.1(side)".into()),
        sample_rate: Some("48000".into()),
        bits_per_raw_sample: None,
        sample_fmt: Some("fltp".into()),
        initial_padding: Some(256),
        language: Some("ger".into()),
        title: Some("Deutsch".into()),
    };
    let tracks = audio_tracks(&[stream]);
    assert_eq!((tracks[0].audio_index, tracks[0].sample_rate), (0, 48000));
    assert_eq!(tracks[0].codec_name, "eac3");
    assert!(is_taken(&tracks[0], &config(AudioMode::Copy)));

    let silent = AudioTrack { sample_rate: 0, ..track(0, "aac", None) };
    assert!(!is_taken(&silent, &config(AudioMode::Copy)));
    let mut german = config(AudioMode::Copy);
    german.language_whitelist = vec!["ger".into()];
    assert!(!is_taken(&track(0, "aac", Some("eng")), &german));
    assert!(is_taken(&track(0, "aac", Some("ger")), &german));
}

#[test]
fn a_codec_rule_wins_over_the_rule_for_lossless_tracks() {
    let mut c = config(AudioMode::Copy);
    c.lossless = Some(AudioRule {
        mode: Some(AudioMode::Encode),
        codec: Some("flac".into()),
        bitrate: None,
        options: vec![("compression_level".into(), ParamValue::Integer(8))],
    });
    let p = plan(
        &[track(0, "truehd", None), track(1, "aac", None)],
        &c,
        &codecs(),
        None,
        &[Some(0), Some(2)],
    )
    .unwrap();
    assert!(matches!(&p.tracks[0].action, Action::Encode(e) if e.codec == "flac"));
    assert!(matches!(p.tracks[1].action, Action::Copy { preroll: 2 }));
    assert!(p.tracks[0].lossless && !p.tracks[1].lossless);
    assert_eq!(p.summary_lines().len(), 2);

    c.codec_rules.push((
        "truehd".into(),
        AudioRule { mode: Some(AudioMode::Copy), codec: None, bitrate: None, options: vec![] },
    ));
    let p = plan(&[track(0, "truehd", None)], &c, &codecs(), None, &[Some(0)]).unwrap();
    assert!(matches!(p.tracks[0].action, Action::Copy { preroll: 0 }));
}

#[test]
fn a_track_that_cannot_be_copied_keeps_its_samples() {
    let c = config(AudioMode::Copy);
    assert!(wants_copy_check(&track(0, "pcm_bluray", None), &c, &codecs()));
    let t = AudioTrack { sample_fmt: "s32".into(), ..track(0, "pcm_bluray", None) };
    let planned = plan_track(&t, &c, &codecs(), None, None).unwrap().unwrap();
    assert!(matches!(planned.action, Action::Pcm("pcm_s32le")));
}

#[test]
fn an_encode_needs_a_codec_that_ffmpeg_has() {
    let mut none = config(AudioMode::Encode);
    none.codec = None;
    let e = plan(&[track(0, "aac", None)], &none, &codecs(), None, &[None]).err().unwrap();
    assert!(matches!(e, AudioError::CodecMissing(0)));

    let c = config(AudioMode::Encode);
    let have = set_of(&["flac"]);
    let e = plan(&[track(0, "aac", None)], &c, &codecs(), Some(&have), &[None]).err().unwrap();
    assert!(matches!(e, AudioError::NoEncoder(0, name) if name == "libopus"));
}

#[test]
fn the_options_of_an_encode_are_sorted() {
    let mut c = config(AudioMode::Encode);
    c.options = vec![
        ("vbr".into(), ParamValue::Text("on".into())),
        ("application".into(), ParamValue::Text("audio".into())),
    ];
    let p = plan(&[track(0, "aac", None)], &c, &codecs(), None, &[None]).unwrap();
    let Action::Encode(e) = &p.tracks[0].action else { panic!("not encoded") };
    let names: Vec<&str> = e.options.iter().map(|o| o.0.as_str()).collect();
    assert_eq!(names, ["application", "vbr"]);
    assert_eq!(e.bitrate.as_deref(), Some("160k"));

    let args = extract_args(&p, &[(1, Some("srt"))]);
    assert!(args.windows(2).any(|w| w == ["-map", "0:a:0"]), "{args:?}");
    assert!(args.iter().any(|a| a == "libopus"), "{args:?}");
    assert!(args.iter().any(|a| a == "srt"), "{args:?}");
    assert!(!nothing_to_extract(&p, &[]));
    assert!(check_args(&p).is_some());
}

#[test]
fn a_plan_of_nothing_extracts_nothing() {
    let p = plan(&[], &config(AudioMode::Copy), &codecs(), None, &[]).unwrap();
    assert!(nothing_to_extract(&p, &[]));
    assert!(!nothing_to_extract(&p, &[(0, None)]));
    assert_eq!(check_args(&p), None);
}

#[test]
fn channels_have_names_and_a_place() {
    let names = |layout: &str| -> Option<Vec<String>> {
        channel_names(layout).map(|v| v.iter().map(|n| n.iter().collect()).collect())
    };
    assert_eq!(names("stereo").unwrap(), ["FL", "FR"]);
    assert_eq!(names("3 channels (FL+FR+LFE)").unwrap(), ["FL", "FR", "LFE"]);
    assert_eq!(names("6 channels"), None);
    let stereo: Vec<Vec<char>> = channel_names("stereo").unwrap();
    assert_eq!(fold_unplaced(&stereo), None);
    assert_eq!(codec_display("eac3"), "E-AC-3");
    assert!(fallback_lossless_codecs().contains("flac"));
}

#[test]
fn flags_and_languages_reach_the_muxer() {
    let d = Disposition {
        default: 1,
        forced: 0,
        hearing_impaired: 0,
        visual_impaired: 0,
        original: 1,
        comment: 0,
    };
    let flags = d.to_mkvmerge_flags(0);
    assert!(flags.iter().any(|f| f.starts_with("0:")), "{flags:?}");

    let mkv = |kind: &str, l: &str, ietf: &str| MkvTrack {
        kind: kind.into(),
        language: Some(l.into()),
        language_ietf: Some(ietf.into()),
    };
    let tagged = |kind: &str, l: &str| TaggedStream {
        codec_type: kind.into(),
        language: Some(l.into()),
    };
    let languages = Languages::probe(
        &[mkv("video", "por", "pt-BR"), mkv("audio", "por", "pt-PT")],
        &[tagged("video", "por"), tagged("audio", "por")],
    );
    assert_eq!(languages.video(), Some("pt-BR"));
    let p = plan(
        &[track(0, "aac", Some("por"))],
        &config(AudioMode::Copy),
        &codecs(),
        None,
        &[Some(0)],
    )
    .unwrap();
    assert_eq!(languages.of_tracks(&p, &[]), [Some("pt-PT".to_string())]);
    assert_eq!(Languages::default().video(), None);

    let mux = Mux {
        output: "out.mkv".into(),
        video: "video.ivf".into(),
        encoded: true,
        disposition: Some(Disposition {
            default: 1,
            forced: 0,
            hearing_impaired: 0,
            visual_impaired: 0,
            original: 0,
            comment: 0,
        }),
        video_language: Some("pt-BR".into()),
        timestamps: None,
        video_args: vec![],
        tracks: Some("tracks.mkv".into()),
        track_languages: vec![Some("pt-PT".into())],
        source: "film.mkv".into(),
        source_subtitles: vec![4],
        subtitle_shift_ms: 0,
        chapter_shift_ms: 0,
        has_chapters: true,
    };
    let args = mux.args();
    assert!(args.windows(2).any(|w| w == ["--language", "0:pt-BR"]), "{args:?}");
    assert!(args.windows(2).any(|w| w == ["--language", "0:pt-PT"]), "{args:?}");
    let at = |name: &str| args.iter().position(|a| a == name);
    assert!(at("video.ivf") < at("tracks.mkv") && at("tracks.mkv") < at("film.mkv"), "{args:?}");

    // A warning of mkvmerge is no failure.
    assert!(!mkvmerge_failed(Some(0)) && !mkvmerge_failed(Some(1)));
    assert!(mkvmerge_failed(Some(2)) && mkvmerge_failed(None));
}

#[test]
fn a_subtitle_past_the_end_of_the_file_is_moved_back_by_the_start() {
    let micros = |secs: f64| (secs * 1e6).round() as i64;
    let millis = |secs: f64| (secs * 1000.0).round() as i64;
    let shift = |first: Option<f64>, start: f64, duration: f64| {
        absolute_time_shift_ms(first.map(micros), millis(start), micros(duration))
    };
    assert_eq!(shift(Some(95389.385), 95379.39, 70.0), -95379390);
    assert_eq!(shift(Some(10.01), 95379.39, 70.0), 0);
    assert_eq!(shift(None, 95379.39, 70.0), 0);
}

#[test]
fn only_packets_mostly_inside_the_skipped_samples_are_dropped() {
    let millionths = |n: f64| (n * 1e6).round() as u64;
    let within = |skip: u64, samples: &[Option<f64>]| {
        let packets: Vec<Option<u64>> = samples.iter().map(|s| s.map(millionths)).collect();
        whole_packets_within(skip, &packets)
    };
    let aac = |n: usize| vec![Some(1024.0); n];
    assert_eq!(within(1024, &aac(10)), 1);
    assert_eq!(within(19136, &aac(40)), 19);
    assert_eq!(within(18900, &aac(40)), 18);
    assert_eq!(within(300, &aac(40)), 0);
    assert_eq!(within(5000, &[Some(1024.0), None, Some(1024.0)]), 1);
}

#[test]
fn a_codec_delay_is_no_preroll() {
    let packets = [Some(1_024_000_000), Some(1_024_000_000)];
    assert_eq!(preroll_packets(Some(1024), 0, &packets), 1);
    assert_eq!(preroll_packets(Some(1024), 312, &packets), 0);
    assert_eq!(preroll_packets(None, 0, &packets), 0);
}

#[test]
fn only_a_transport_stream_keeps_absolute_times() {
    assert!(may_keep_absolute_time("mpegts", true, true));
    assert!(!may_keep_absolute_time("mpegts", true, false));
    assert!(!may_keep_absolute_time("matroska,webm", true, true));
    let args = subtitle_probe_args("s.mkv", &[2, 5], "film.ts");
    assert_eq!(args[..2], ["-o", "s.mkv"]);
    assert_eq!(args[8..], ["--subtitle-tracks", "2,5", "film.ts"]);
}
