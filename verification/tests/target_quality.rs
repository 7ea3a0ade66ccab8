use avet::config::{Config, Encoder, ParamValue};
use avet::target_quality::{
    bracket_pts, cambi_failure, cambi_feature, decide, display_model_for, is_cambi_score,
    next_crf, probe_decoder_args, seed_crf, select_gpu, signalled_transfer, source_bytes, usable_gpu, vmaf_args,
    worst_frames, Cambi, CambiFailure, Floor, GpuError, Limits, PipeStep, PipeWait, Probe,
    ProbeContext, Search, SolveOutcome, SolveResult,
};

/// An integer for a score that orders as the score does.
fn key(v: f64) -> i64 {
    let bits = (v + 0.0).to_bits() as i64;
    bits ^ (((bits >> 63) as u64) >> 1) as i64
}

/// A CRF in quarter steps.
fn quarters(crf: f64) -> i64 {
    (crf * 4.0) as i64
}

fn p(crf: f64, jod: f64, size_pct: f64) -> Probe {
    Probe { crf: quarters(crf), jod: key(jod), cambi: None, size_pct: key(size_pct) }
}

fn pc(crf: f64, jod: f64, score: f64, diff: f64) -> Probe {
    Probe {
        crf: quarters(crf),
        jod: key(jod),
        cambi: Some(Cambi { score: key(score), diff: key(diff) }),
        size_pct: key(50.0),
    }
}

fn jod(jod: f64) -> Floor {
    Floor { jod: key(jod), max_cambi: None, max_cambi_diff: None }
}

fn cambi(max_cambi: Option<f64>, max_cambi_diff: Option<f64>) -> Floor {
    Floor {
        jod: key(9.5),
        max_cambi: max_cambi.map(key),
        max_cambi_diff: max_cambi_diff.map(key),
    }
}

fn crf(r: &SolveResult) -> f64 {
    r.crf as f64 / 4.0
}

/// Where the secant through these CRFs and scores meets the target.
fn interpolate_crf(pts: &[(f64, f64)], target: f64) -> f64 {
    let jods: Vec<i64> = pts.iter().map(|p| key(p.1)).collect();
    let distances: Vec<i64> = pts.iter().map(|p| key((p.1 - target).abs())).collect();
    let (a, b) = bracket_pts(&jods, key(target), &distances);
    let (a, b) = (pts[a], pts[b]);
    a.0 + (b.0 - a.0) / (b.1 - a.1) * (target - a.1)
}

fn transfer(t: &str) -> Vec<String> {
    vec!["--transfer-characteristics".to_string(), t.to_string()]
}

#[test]
fn display_model_follows_the_signalled_transfer() {
    let args = transfer;

    assert_eq!(display_model_for(2160, &args("16")), "standard_hdr_pq");
    assert_eq!(display_model_for(2160, &args("18")), "standard_hdr_hlg");
    assert_eq!(display_model_for(720, &args("18")), "standard_hdr_hlg");

    // An SDR source signals bt709; an HDR display costs it ~2.5 JOD.
    assert_eq!(display_model_for(1080, &args("1")), "standard_fhd");
    assert_eq!(display_model_for(2160, &args("1")), "standard_4k");

    assert_eq!(display_model_for(1439, &[]), "standard_fhd");
    assert_eq!(display_model_for(1440, &[]), "standard_4k");
}

#[test]
fn select_gpu_prefers_hardware() {
    let list = "GPU 0: NVIDIA GeForce RTX 5060 Ti\nGPU 1: llvmpipe (LLVM 22.1.7, 256 bits)\n";
    let g = select_gpu(list).unwrap();
    assert_eq!(g.id, 0);
    assert!(g.hardware);
}

#[test]
fn select_gpu_picks_hardware_even_after_software() {
    let list = "GPU 0: llvmpipe (LLVM 22.1.7)\nGPU 1: Intel Graphics\n";
    let g = select_gpu(list).unwrap();
    assert_eq!(g.id, 1);
    assert!(g.hardware);
}

#[test]
fn select_gpu_reports_software_only() {
    // software-only is detected (hardware=false); usable_gpu then rejects it
    let g = select_gpu("GPU 0: llvmpipe (LLVM 22.1.7)\n").unwrap();
    assert_eq!(g.id, 0);
    assert!(!g.hardware);
}

#[test]
fn a_gpu_is_needed_and_software_is_none() {
    assert!(matches!(usable_gpu("no devices\n"), Err(GpuError::Missing)));
    assert!(matches!(usable_gpu("GPU 0: llvmpipe\n"), Err(GpuError::SoftwareOnly(_))));
    let g = usable_gpu("GPU 3: Radeon\n").unwrap();
    assert_eq!((g.id, g.label.as_str()), (3, "Radeon"));
    assert!(g.describe().contains("Radeon"));
}

#[test]
fn chunk_size_pct_uses_actual_source_bytes() {
    let chunk_size_pct = |encoded: u64, cum: &[u64], start, end| match source_bytes(cum, start, end)
    {
        Some(bytes) => encoded as f64 / bytes as f64 * 100.0,
        None => 0.0,
    };
    let cum = [0u64, 100, 300, 600, 1000];
    assert_eq!(chunk_size_pct(300, &cum, 0, 2), 50.0);
    assert_eq!(chunk_size_pct(200, &cum, 3, 3), 50.0);
    assert_eq!(chunk_size_pct(300, &cum, 0, 99), 0.0);
    assert_eq!(chunk_size_pct(300, &[], 0, 2), 0.0);
}

#[test]
fn interpolate_hits_crossing() {
    // jod 9.7 @ crf30, 9.3 @ crf40, target 9.5 -> 35
    assert!((interpolate_crf(&[(30.0, 9.7), (40.0, 9.3)], 9.5) - 35.0).abs() < 1e-6);
}

#[test]
fn decide_picks_highest_crf_above_floor() {
    // target 9.5, all under cap: highest CRF with jod >= 9.5 is 36
    let pts =
        vec![p(30.0, 9.6, 50.0), p(32.0, 9.52, 45.0), p(36.0, 9.5, 40.0), p(40.0, 9.2, 35.0)];
    let r = decide(&pts, &jod(9.5), key(90.0), quarters(14.0));
    assert_eq!(crf(&r), 36.0);
    assert!(matches!(r.outcome, SolveOutcome::Met));
}

#[test]
fn decide_cap_binds_over_floor() {
    // floor CRF (20) is over the size cap; a higher CRF (25) is under it -> cap wins
    let pts = vec![p(20.0, 9.6, 120.0), p(25.0, 9.3, 80.0)];
    let r = decide(&pts, &jod(9.5), key(90.0), quarters(14.0));
    assert_eq!(crf(&r), 25.0);
    assert!(matches!(r.outcome, SolveOutcome::CapBinding));
}

#[test]
fn decide_floor_unreachable_uses_best_quality() {
    // all below floor -> highest jod (crf 30)
    let pts = vec![p(30.0, 9.0, 50.0), p(35.0, 8.8, 40.0), p(40.0, 8.5, 30.0)];
    let r = decide(&pts, &jod(9.5), key(90.0), quarters(14.0));
    assert_eq!(crf(&r), 30.0);
    assert!(matches!(r.outcome, SolveOutcome::FloorUnreachable));
}

#[test]
fn seed_uses_encoder_crf_when_present() {
    let seed = |config: &Config, lo: f64, hi: f64| {
        seed_crf(config, None, quarters(lo), quarters(hi)) as f64 / 4.0
    };
    let mut config = Config { encoder: Some(Encoder::SvtAv1), encoder_params: vec![] };
    config.encoder_params.push(("crf".into(), ParamValue::Integer(28)));
    assert_eq!(seed(&config, 14.0, 45.0), 28.0);
    config.encoder_params[0] = ("crf".into(), ParamValue::Integer(60));
    assert_eq!(seed(&config, 14.0, 45.0), 45.0);
    config.encoder_params.clear();
    assert_eq!(seed(&config, 18.0, 44.0), 31.0);
}

#[test]
fn decide_floor_unreachable_still_respects_the_cap() {
    // The best-quality probe is four times the size of the source.
    let pts = vec![p(1.0, 9.0, 398.0), p(20.0, 8.8, 120.0), p(35.0, 8.5, 60.0)];
    let r = decide(&pts, &jod(9.5), key(90.0), quarters(14.0));
    assert_eq!(crf(&r), 35.0);
    assert!(matches!(r.outcome, SolveOutcome::FloorUnreachable));
}

#[test]
fn decide_reports_cap_binding_when_no_probe_fits() {
    // Pre-compressed source: every probe over the cap, and none of it was "Met".
    let pts = vec![p(35.0, 9.6, 300.0), p(41.0, 9.5, 259.0)];
    let r = decide(&pts, &jod(9.5), key(90.0), quarters(14.0));
    assert_eq!(crf(&r), 41.0);
    assert_eq!(pts[r.probe.unwrap()].size_pct, key(259.0));
    assert!(matches!(r.outcome, SolveOutcome::CapBinding));
}

#[test]
fn a_crf_that_holds_jod_but_bands_is_not_chosen() {
    let pts = vec![pc(30.0, 9.90, 0.4, 0.4), pc(36.0, 9.85, 2.5, 2.5)];
    let r = decide(&pts, &cambi(None, Some(1.0)), key(90.0), quarters(14.0));
    assert_eq!(crf(&r), 30.0);
    assert_eq!(pts[r.probe.unwrap()].cambi, Some(Cambi { score: key(0.4), diff: key(0.4) }));
    assert!(matches!(r.outcome, SolveOutcome::Met));

    // Without the limit the same probes settle on the higher CRF.
    assert_eq!(crf(&decide(&pts, &jod(9.5), key(90.0), quarters(14.0))), 36.0);
}

#[test]
fn the_total_and_the_diff_limit_are_checked_separately() {
    // A source that bands on its own: high total, nothing added by the encode.
    let banded_source = pc(30.0, 9.9, 6.0, 0.0);
    assert!(cambi(None, Some(1.0)).holds(&banded_source));
    assert!(!cambi(Some(5.0), None).holds(&banded_source));
    assert!(!cambi(Some(5.0), Some(1.0)).holds(&banded_source));

    // A clean source the encode bands: low total, all of it added.
    let added = pc(30.0, 9.9, 3.0, 3.0);
    assert!(cambi(Some(5.0), None).holds(&added));
    assert!(!cambi(None, Some(1.0)).holds(&added));
    assert!(cambi(Some(5.0), Some(3.0)).holds(&added));
}

#[test]
fn cambi_is_measured_only_for_a_probe_that_holds_jod() {
    assert!(cambi(Some(5.0), None).needs_cambi(key(9.5)));
    assert!(cambi(None, Some(1.0)).needs_cambi(key(9.8)));
    assert!(!cambi(Some(5.0), Some(1.0)).needs_cambi(key(9.49)));
    assert!(!jod(9.5).needs_cambi(key(9.8)));
}

#[test]
fn a_missing_cambi_reading_never_holds_a_cambi_floor() {
    assert!(!cambi(Some(5.0), None).holds(&p(30.0, 9.9, 50.0)));
    assert!(!cambi(None, Some(1.0)).holds(&p(30.0, 9.9, 50.0)));
    assert!(jod(9.5).holds(&p(30.0, 9.9, 50.0)));
}

#[test]
fn banding_alone_bisects_instead_of_following_the_jod_secant() {
    let floor = cambi(Some(5.0), None);
    let (lo, hi) = (quarters(1.0), quarters(70.0));

    // JOD is far above the floor, so its secant would step one grid point at a time.
    let far = quarters(69.0);
    assert_eq!(
        next_crf(&[pc(35.0, 9.88, 8.0, 8.0)], &floor, lo, hi, far),
        Some(quarters(18.0))
    );

    let pts = [pc(20.0, 9.90, 4.5, 0.5), pc(40.0, 9.85, 7.0, 3.0)];
    assert_eq!(next_crf(&pts, &floor, lo, hi, far), Some(quarters(30.0)));
}

#[test]
fn a_jod_failure_still_interpolates_with_a_cambi_floor_set() {
    // Both bracket ends are clean on CAMBI, so the JOD secant places 35.
    let pts = vec![pc(30.0, 9.7, 0.2, 0.2), pc(40.0, 9.3, 0.6, 0.6)];
    let guess = (interpolate_crf(&[(30.0, 9.7), (40.0, 9.3)], 9.5) * 4.0).round() as i64;
    assert_eq!(
        next_crf(&pts, &cambi(Some(5.0), Some(1.0)), quarters(1.0), quarters(70.0), guess),
        Some(quarters(35.0))
    );
}

#[test]
fn cambi_thresholds_follow_pq_only_for_a_pq_transfer() {
    let args = transfer;
    assert_eq!(cambi_feature(&args("16")), "cambi=full_ref=true:eotf=pq");
    assert_eq!(cambi_feature(&args("18")), "cambi=full_ref=true");
    assert_eq!(cambi_feature(&args("1")), "cambi=full_ref=true");
    assert_eq!(cambi_feature(&[]), "cambi=full_ref=true");
}

#[test]
fn worst_frames_is_a_nearest_rank_percentile() {
    let worst = |values: Vec<i64>| values[worst_frames(&values)];
    assert_eq!(worst(vec![3]), 3);
    assert_eq!(worst((1..=100).collect()), 95);
    assert_eq!(worst((1..=24).rev().collect()), 23);
}

#[test]
fn decide_prefers_the_highest_crf_holding_both_constraints() {
    let pts =
        vec![p(20.0, 9.9, 95.0), p(30.0, 9.7, 80.0), p(36.0, 9.5, 70.0), p(44.0, 9.1, 50.0)];
    let r = decide(&pts, &jod(9.5), key(90.0), quarters(14.0));
    assert_eq!(crf(&r), 36.0);
    assert!(matches!(r.outcome, SolveOutcome::Met));
}

#[test]
fn a_search_ends_at_the_crossing() {
    let limits = Limits {
        floor: jod(9.5),
        stop_at: key(9.51),
        cap: key(90.0),
        lo: quarters(14.0),
        hi: quarters(45.0),
        min_probes: 2,
        max_probes: 12,
    };
    // The score falls by a tenth per CRF and meets the floor at 33.
    let score = |c: i64| 9.5 + (33.0 - c as f64 / 4.0) / 10.0;
    let mut search = Search::new(limits);
    let mut next = Some(quarters(20.0));
    let mut seen: Vec<(f64, f64)> = Vec::new();
    while let Some(c) = next {
        let at = c as f64 / 4.0;
        seen.push((at, score(c)));
        let guess = if seen.len() == 1 {
            at + (score(c) - 9.5) / 0.05
        } else {
            interpolate_crf(&seen, 9.5)
        };
        next = search.advance(p(at, score(c), 50.0), (guess * 4.0).round() as i64);
        assert!(seen.len() <= 12);
    }
    let r = search.result();
    assert_eq!(crf(&r), 33.0);
    assert!(matches!(r.outcome, SolveOutcome::Met));
}

#[test]
fn without_a_probe_the_lowest_rate_is_taken() {
    let r = decide(&[], &jod(9.5), key(90.0), quarters(14.0));
    assert_eq!((crf(&r), r.probe), (14.0, None));
}

#[test]
fn a_transfer_is_read_from_the_arguments() {
    assert_eq!(signalled_transfer(&transfer("16")), Some("16"));
    assert_eq!(signalled_transfer(&[]), None);
    assert!(is_cambi_score("cambi") && is_cambi_score("cambi_eotf_pq"));
    assert!(!is_cambi_score("cambi_source") && !is_cambi_score("cambi_full_reference"));
}

#[test]
fn the_metric_tools_get_the_files_and_the_range() {
    let ctx = ProbeContext {
        source: "film.mkv".into(),
        index: "film.idx".into(),
        temp_dir: "/t".into(),
        display_model: "standard_fhd".into(),
        gpu_id: 2,
        crop: None,
        source_width: 1920,
        source_height: 1080,
        n_threads: 4,
    };
    let args = ctx.measure_args("probe.ivf", "out.json", 240);
    assert!(args.iter().any(|a| a == "film.mkv") && args.iter().any(|a| a == "probe.ivf"));
    assert!(args.iter().any(|a| a == "240") && args.iter().any(|a| a == "standard_fhd"));

    let vmaf = vmaf_args("/t/pipe", "out.json", 4, &transfer("16"));
    assert!(vmaf.iter().any(|a| a == "cambi=full_ref=true:eotf=pq"));
}

#[test]
fn a_pipe_is_given_up_once_its_time_is_over() {
    let mut wait = PipeWait::new();
    assert_eq!(wait.look(false, false, false), PipeStep::Wait);
    assert_eq!(wait.look(true, true, false), PipeStep::Finished);
    let mut late = PipeWait::new();
    assert_eq!(late.look(false, false, true), PipeStep::Kill);

    assert_eq!(cambi_failure(true, true, true, true), None);
    assert!(matches!(
        cambi_failure(false, true, true, true),
        Some(CambiFailure::Pipe { decoder: false, vmaf: true })
            | Some(CambiFailure::Pipe { decoder: true, vmaf: false })
    ));
    assert_eq!(cambi_failure(true, true, false, true), Some(CambiFailure::Scaler));
    assert_eq!(cambi_failure(true, true, true, false), Some(CambiFailure::Reference));
}

#[test]
fn a_probe_is_decoded_without_its_grain() {
    let args = probe_decoder_args("p.ivf", "/tmp/pipe");
    assert_eq!(
        args,
        "-hide_banner -loglevel error -nostdin -y -export_side_data film_grain -i p.ivf -map \
         0:v:0 -strict -1 -f yuv4mpegpipe /tmp/pipe"
            .split(' ')
            .collect::<Vec<_>>()
    );
}
