use avet::config::{
    check_profile, language_selected, layout_name, output_is_lossless, push_signed,
    toml_value_to_arg, AudioConfig, AudioFault, AudioMode, AudioRule, AvetConfig, Bitrate, Config,
    Encoder, ParamValue, ProfileFault, QualityRange, SceneDetectionConfig, VideoMode,
};

#[test]
fn parameters_become_arguments() {
    let config = Config {
        encoder: Some(Encoder::SvtAv1),
        encoder_params: vec![
            ("preset".into(), ParamValue::Integer(6)),
            ("crf".into(), ParamValue::Text("28.5".into())),
            ("enable-tf".into(), ParamValue::Bool(false)),
        ],
    };
    let args = config.encoder_args();
    assert!(args.windows(2).any(|w| w == ["--crf", "28.5"]), "{args:?}");
    assert!(args.windows(2).any(|w| w == ["--preset", "6"]), "{args:?}");
    assert!(args.windows(2).any(|w| w == ["--enable-tf", "0"]), "{args:?}");
    assert!(config.has_param("crf") && !config.has_param("keyint"));
    assert_eq!(toml_value_to_arg(&ParamValue::Bool(true)), "1");

    let mut s = String::from("n=");
    push_signed(&mut s, i64::MIN);
    assert_eq!(s, "n=-9223372036854775808");
}

#[test]
fn both_spellings_of_a_language_select_it_and_an_unknown_one_is_kept() {
    let german = vec!["ger".to_string()];
    assert!(language_selected(&german, Some("ger")));
    assert!(language_selected(&german, Some("deu")));
    assert!(!language_selected(&german, Some("eng")));
    assert!(language_selected(&german, None));
    assert!(language_selected(&german, Some("und")));
    assert!(language_selected(&[], Some("eng")));
}

#[test]
fn a_bitrate_follows_the_layout() {
    let table = Bitrate::Table(vec![
        ("2.0".into(), "160k".into()),
        ("5.1".into(), "384k".into()),
    ]);
    assert_eq!(table.resolve(Some(6)), Some("384k"));
    assert_eq!(table.resolve_layout(layout_name(2)), table.resolve(Some(2)));
    assert_eq!(Bitrate::Single("96k".into()).resolve(Some(1)), Some("96k"));
    assert!(output_is_lossless("flac"));
    assert!(!output_is_lossless("libopus"));
}

fn profile() -> (Config, AvetConfig, SceneDetectionConfig, QualityRange) {
    let config = Config {
        encoder: Some(Encoder::SvtAv1),
        encoder_params: vec![("rc".into(), ParamValue::Integer(0))],
    };
    (config, AvetConfig::default(), SceneDetectionConfig::default(), QualityRange::default())
}

#[test]
fn a_profile_says_only_what_can_be_carried_out() {
    let (config, avet, scenes, quality) = profile();
    assert_eq!(check_profile(&config, &avet, &scenes, Some(quality)), Ok(()));
    assert_eq!(check_profile(&config, &avet, &scenes, None), Ok(()));

    let no_encoder = Config { encoder: None, encoder_params: vec![] };
    assert_eq!(check_profile(&no_encoder, &avet, &scenes, None), Err(ProfileFault::NoEncoder));
    let copied = AvetConfig { video: VideoMode::Copy, ..avet };
    assert_eq!(check_profile(&no_encoder, &copied, &scenes, None), Ok(()));

    let fault = |a: AvetConfig| check_profile(&config, &a, &scenes, None);
    assert_eq!(fault(AvetConfig { scale: Some(63), ..avet }), Err(ProfileFault::Scale));
    assert_eq!(fault(AvetConfig { scale: Some(64), ..avet }), Ok(()));
    assert_eq!(fault(AvetConfig { bit_depth: Some(9), ..avet }), Err(ProfileFault::BitDepth));
    assert_eq!(
        fault(AvetConfig { bit_depth: Some(8), dv: true, ..avet }),
        Err(ProfileFault::DolbyVisionDepth)
    );
    assert_eq!(fault(AvetConfig { bit_depth: Some(10), dv: true, ..avet }), Ok(()));

    let fault = |s: SceneDetectionConfig| check_profile(&config, &avet, &s, None);
    assert_eq!(
        fault(SceneDetectionConfig { min_scene_len: 0, ..scenes }),
        Err(ProfileFault::SceneLength)
    );
    assert_eq!(
        fault(SceneDetectionConfig { extra_split: 23, ..scenes }),
        Err(ProfileFault::ExtraSplit)
    );
    assert_eq!(fault(SceneDetectionConfig { extra_split: 24, ..scenes }), Ok(()));
    assert_eq!(
        fault(SceneDetectionConfig { downscale_height: Some(63), ..scenes }),
        Err(ProfileFault::DownscaleHeight)
    );
}

#[test]
fn a_search_has_a_range_to_search() {
    let (mut config, avet, scenes, quality) = profile();
    let fault = |q: QualityRange| check_profile(&config, &avet, &scenes, Some(q));
    assert_eq!(fault(QualityRange { min_crf: 0, ..quality }), Err(ProfileFault::CrfRange));
    assert_eq!(fault(QualityRange { max_crf: 71, ..quality }), Err(ProfileFault::CrfRange));
    assert_eq!(
        fault(QualityRange { min_crf: 30, max_crf: 30, ..quality }),
        Err(ProfileFault::CrfRange)
    );
    assert_eq!(fault(QualityRange { min_probes: 1, ..quality }), Err(ProfileFault::ProbeRange));
    assert_eq!(
        fault(QualityRange { min_probes: 3, max_probes: 2, ..quality }),
        Err(ProfileFault::ProbeRange)
    );
    assert_eq!(fault(QualityRange { probe_preset: 14, ..quality }), Err(ProfileFault::ProbePreset));
    let copied = AvetConfig { video: VideoMode::Copy, ..avet };
    assert_eq!(
        check_profile(&config, &copied, &scenes, Some(quality)),
        Err(ProfileFault::QualityOfCopy)
    );
    let scaled = AvetConfig { scale: Some(720), ..avet };
    assert_eq!(
        check_profile(&config, &scaled, &scenes, Some(quality)),
        Err(ProfileFault::QualityScaled)
    );
    config.encoder_params = vec![("rc".into(), ParamValue::Integer(1))];
    assert_eq!(
        check_profile(&config, &avet, &scenes, Some(quality)),
        Err(ProfileFault::QualityRateControl)
    );
    config.encoder_params = vec![("tbr".into(), ParamValue::Integer(2000))];
    assert_eq!(
        check_profile(&config, &avet, &scenes, Some(quality)),
        Err(ProfileFault::QualityBitrate)
    );
}

fn audio(mode: AudioMode, codec: Option<&str>, bitrate: Option<&str>) -> AudioConfig {
    AudioConfig {
        mode,
        codec: codec.map(String::from),
        bitrate: bitrate.map(|b| Bitrate::Single(b.into())),
        options: vec![],
        language_whitelist: vec![],
        lossless: None,
        codec_rules: vec![],
    }
}

#[test]
fn accepted_audio_can_be_encoded_under_every_rule() {
    assert_eq!(audio(AudioMode::Copy, None, None).check(), Ok(()));
    assert_eq!(audio(AudioMode::Encode, None, None).check(), Err(AudioFault::NoCodec));
    assert_eq!(audio(AudioMode::Encode, Some("libopus"), None).check(), Err(AudioFault::NoBitrate));
    assert_eq!(audio(AudioMode::Encode, Some("libopus"), Some("128k")).check(), Ok(()));
    assert_eq!(audio(AudioMode::Encode, Some("flac"), None).check(), Ok(()));

    let rule = |codec: Option<&str>| AudioRule {
        mode: Some(AudioMode::Encode),
        codec: codec.map(String::from),
        bitrate: None,
        options: vec![],
    };
    let mut copied = audio(AudioMode::Copy, None, None);
    copied.lossless = Some(rule(Some("flac")));
    assert_eq!(copied.check(), Ok(()));
    copied.codec_rules = vec![("aac".into(), rule(Some("libopus")))];
    assert_eq!(copied.check(), Err(AudioFault::NoBitrate));
    copied.lossless = Some(rule(None));
    assert_eq!(copied.check(), Err(AudioFault::NoCodec));
}
