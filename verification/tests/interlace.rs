use avet::interlace::{
    detect, flagged_interlaced, idet_args, parse_idet, sample_percents, Counts, FieldOrder,
};

#[test]
fn the_last_idet_summary_is_read() {
    let stderr = "[Parsed_idet_0 @ 0x1] Multi frame detection: TFF:     0 BFF:     0 Progressive:     0 Undetermined:     0\n\
                  [Parsed_idet_0 @ 0x2] Single frame detection: TFF:    90 BFF:     3 Progressive:     8 Undetermined:     0\n\
                  [Parsed_idet_0 @ 0x2] Multi frame detection: TFF:   101 BFF:     0 Progressive:     2 Undetermined:     0\n";
    assert_eq!(parse_idet(stderr), Counts { tff: 101, bff: 0, progressive: 2 });
    assert_eq!(parse_idet("no summary"), Counts::default());
}

#[test]
fn fields_in_one_order_are_interlaced_and_a_random_mix_is_not() {
    let counts = |tff, bff, progressive| Counts { tff, bff, progressive };
    assert_eq!(counts(101, 0, 0).verdict(), Some(FieldOrder::Tff));
    assert_eq!(counts(3, 280, 17).verdict(), Some(FieldOrder::Bff));
    assert_eq!(counts(60, 2, 400).verdict(), Some(FieldOrder::Tff));

    assert_eq!(counts(38, 40, 23).verdict(), None);
    assert_eq!(counts(0, 0, 600).verdict(), None);
    assert_eq!(counts(12, 0, 580).verdict(), None);
}

#[test]
fn the_kept_order_reads_back() {
    for order in [FieldOrder::Tff, FieldOrder::Bff] {
        assert_eq!(detect(Some(order.name()), false, &[]), (Some(order), None));
    }
    assert_eq!(detect(Some("progressive\n"), true, &[]).0, None);
    assert_eq!(FieldOrder::Tff.filter(), "bwdif=mode=send_frame:parity=tff:deint=all");
}

#[test]
fn samples_are_counted_together_and_only_for_a_flagged_stream() {
    let samples = [
        Counts { tff: 10, bff: 0, progressive: 90 },
        Counts { tff: 12, bff: 1, progressive: 80 },
    ];
    assert_eq!(detect(None, true, &samples), (Some(FieldOrder::Tff), Some("tff")));
    assert_eq!(detect(None, false, &samples), (None, None));
    assert!(flagged_interlaced(Some("tt")));
    assert!(!flagged_interlaced(Some("progressive")));
    assert!(!flagged_interlaced(None));
}

#[test]
fn fields_are_sampled_in_three_places() {
    assert_eq!(sample_percents(), [20, 50, 80]);
    let args = idet_args("film.mkv", 90);
    assert_eq!(args[2..6], ["-ss", "90", "-i", "film.mkv"]);
    assert!(args.windows(2).any(|w| w == ["-vf", "idet"]));
}
