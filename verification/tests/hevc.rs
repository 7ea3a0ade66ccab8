use avet::hevc::{
    from_hex, hdr10plus_by_access_unit, hdr10plus_frames, hdr10plus_in_sei, in_display_order,
    load, next_start_code, remove_emulation_prevention, save, sorted_by_time, to_hex, Cache,
    Hdr10PlusFrames, Hdr10PlusScan, HevcError, NAL_SEI_PREFIX, NAL_SEI_SUFFIX,
};

const HDR10PLUS_T35_HEADER: [u8; 6] = [0xB5, 0x00, 0x3C, 0x00, 0x01, 0x04];

fn nal(nal_type: u8, payload: &[u8]) -> Vec<u8> {
    [vec![0, 0, 0, 1, nal_type << 1, 0x01], payload.to_vec()].concat()
}

fn sei(messages: &[(u8, Vec<u8>)]) -> Vec<u8> {
    let mut rbsp = Vec::new();
    for (kind, payload) in messages {
        rbsp.push(*kind);
        let mut size = payload.len();
        while size >= 255 {
            rbsp.push(0xFF);
            size -= 255;
        }
        rbsp.push(size as u8);
        rbsp.extend_from_slice(payload);
    }
    rbsp.push(0x80);
    rbsp
}

fn hdr10plus(value: u8) -> (u8, Vec<u8>) {
    (4, [&HDR10PLUS_T35_HEADER[..], &[0x01, 0x40, value]].concat())
}

fn escape(rbsp: &[u8]) -> Vec<u8> {
    let mut out = Vec::new();
    let mut zeros = 0;
    for &b in rbsp {
        if zeros >= 2 && b <= 3 {
            out.push(3);
            zeros = 0;
        }
        out.push(b);
        zeros = if b == 0 { zeros + 1 } else { 0 };
    }
    out
}

/// The next number of a fixed sequence that looks like chance.
fn next(state: &mut u64) -> u64 {
    *state = state.wrapping_mul(6364136223846793005).wrapping_add(1442695040888963407);
    *state >> 33
}

fn some_bytes(state: &mut u64) -> Vec<u8> {
    (0..1 + next(state) % 399)
        .map(|_| match next(state) % 3 {
            0 => 0,
            1 => 3,
            _ => next(state) as u8,
        })
        .collect()
}

/// A stream in reads of these many bytes, over and over.
fn in_reads(stream: &[u8], sizes: &[usize]) -> Vec<Vec<u8>> {
    let mut reads = Vec::new();
    let mut rest = stream;
    while !rest.is_empty() {
        let n = rest.len().min(sizes[reads.len() % sizes.len()]);
        reads.push(rest[..n].to_vec());
        rest = &rest[n..];
    }
    reads
}

#[test]
fn an_endless_run_of_ff_bytes_is_no_message() {
    let ff_bytes = (u32::MAX / 255) as usize + 16;
    assert_eq!(hdr10plus_in_sei(&vec![0xFF; ff_bytes]), None);
}

#[test]
fn every_picture_gets_its_message_whatever_the_byte_layout() {
    let mut state = 17;
    for round in 0..40 {
        let mut stream = Vec::new();
        let mut expected: Vec<Option<Vec<u8>>> = Vec::new();
        let mut pending = None;
        for _ in 0..1 + next(&mut state) % 59 {
            let long_start = next(&mut state) % 2 == 0;
            stream.extend_from_slice(if long_start { &[0, 0, 0, 1][..] } else { &[0, 0, 1][..] });
            let (header, rbsp): ([u8; 2], Vec<u8>) = match next(&mut state) % 6 {
                kind @ (0 | 1) => {
                    let b = some_bytes(&mut state);
                    if kind == 0 {
                        expected.push(pending.take());
                    }
                    let first = vec![if kind == 0 { 0x80 } else { 0x00 }];
                    ([0x02, 0x01], [first, b, vec![0x80]].concat())
                }
                kind @ (2 | 3) => {
                    let prefix = kind == 2;
                    let messages = if next(&mut state) % 2 == 0 {
                        let v = some_bytes(&mut state);
                        if prefix {
                            pending = Some(v.clone());
                        } else if let Some(last) = expected.last_mut() {
                            *last = Some(v.clone());
                        }
                        vec![(5, vec![0x11; 20]), (4, [&HDR10PLUS_T35_HEADER[..], &v[..]].concat())]
                    } else {
                        vec![(4, vec![0xB5, 0x00, 0x31, 0x47])]
                    };
                    let kind = if prefix { NAL_SEI_PREFIX } else { NAL_SEI_SUFFIX };
                    ([kind << 1, 0x01], sei(&messages))
                }
                4 => ([33 << 1, 0x01], vec![0x42, 0x80]),
                _ => ([0x02, 0x09], vec![0x80, 0x80]),
            };
            stream.extend_from_slice(&header);
            stream.extend(escape(&rbsp));
            for _ in 0..next(&mut state) % 3 {
                stream.push(0);
            }
        }

        let sizes = [1 + round % 4, 1 + (next(&mut state) % 4999) as usize, 1 + round % 7];
        let reads = in_reads(&stream, &sizes);
        assert_eq!(hdr10plus_by_access_unit(&reads), expected);

        let mut scan = Hdr10PlusScan::new();
        scan.feed(&stream);
        assert_eq!(scan.finish(), expected);
    }
}

#[test]
fn display_order_carries_the_last_message_on() {
    let mut state = 23;
    for _ in 0..40 {
        let mut order: Vec<i64> = (0..40).collect();
        for i in (1..order.len()).rev() {
            order.swap(i, (next(&mut state) % (i as u64 + 1)) as usize);
        }
        let messages: Vec<Option<u8>> = (0..40)
            .map(|_| if next(&mut state) % 2 == 0 { Some(next(&mut state) as u8) } else { None })
            .collect();
        let pts: Vec<Option<i64>> = order.iter().map(|&p| Some(p)).collect();
        let units: Vec<Option<Vec<u8>>> = messages.iter().map(|m| m.map(|b| vec![b])).collect();
        let frames = in_display_order(&pts, units).unwrap();

        let mut by_pts: Vec<(i64, Option<u8>)> =
            order.iter().copied().zip(messages.iter().copied()).collect();
        by_pts.sort();
        let mut current = None;
        for (i, (_, m)) in by_pts.iter().enumerate() {
            if m.is_some() {
                current = *m;
            }
            assert_eq!(frames.message(i).map(|f| f[0]), current);
        }
    }
}

#[test]
fn sei_messages_are_read_past_other_payloads_and_emulation_prevention() {
    let other_t35 = (4, vec![0xB5, 0x00, 0x31, 0x47, 0x41]);
    let long = (5, vec![0x11; 300]);
    let needs_escape = (4, [&HDR10PLUS_T35_HEADER[..], &[0x01, 0x00, 0x00, 0x03, 9]].concat());
    let raw = sei(&[other_t35, long, needs_escape]);
    let with_epb: Vec<u8> =
        raw.iter().flat_map(|&b| if b == 3 { vec![3, 3] } else { vec![b] }).collect();

    assert_eq!(hdr10plus_in_sei(&with_epb), Some(vec![0x01, 0x00, 0x00, 0x03, 9]));
    assert_eq!(hdr10plus_in_sei(&sei(&[(5, vec![1, 2])])), None);
}

#[test]
fn messages_go_to_the_picture_they_precede_or_follow() {
    let slice = |first: bool| nal(1, &[if first { 0x80 } else { 0x00 }, 0xAA, 0x00, 0x00, 0x00]);
    let stream = [
        nal(32, &[0x0C]),
        nal(33, &[0x01]),
        nal(34, &[0x02]),
        nal(NAL_SEI_PREFIX, &sei(&[hdr10plus(1)])),
        slice(true),
        slice(false),
        slice(true),
        slice(true),
        nal(NAL_SEI_SUFFIX, &sei(&[hdr10plus(3)])),
        // An enhancement layer picture is not a picture of its own.
        [vec![0, 0, 1, 0x02, 0x09], vec![0x80]].concat(),
    ]
    .concat();

    // A few bytes at a time, so NALs and start codes straddle every read.
    let units = hdr10plus_by_access_unit(&in_reads(&stream, &[5]));
    let values: Vec<Option<u8>> = units.iter().map(|u| u.as_ref().map(|m| m[2])).collect();
    assert_eq!(values, [Some(1), None, Some(3)]);
}

#[test]
fn values_carry_on_in_display_order_not_decode_order() {
    // Decode order I0 P4 B2 B1 B3 I5, with a new message on P4 only.
    let pts = [0, 4, 2, 1, 3, 5].map(Some);
    let units = vec![Some(vec![10]), Some(vec![40]), None, None, None, None];
    let frames = in_display_order(&pts, units).unwrap();
    let values: Vec<Option<u8>> = (0..6).map(|i| frames.message(i).map(|m| m[0])).collect();
    assert_eq!(values, [Some(10), Some(10), Some(10), Some(10), Some(40), Some(40)]);

    assert_eq!(
        in_display_order(&[Some(0)], vec![None, None]).err(),
        Some(HevcError::CountMismatch { packets: 1, pictures: 2 })
    );
    assert_eq!(in_display_order(&[None], vec![None]).err(), Some(HevcError::NoTimestamp));
}

#[test]
fn the_cache_round_trips_and_shares_repeated_messages() {
    let frames = Hdr10PlusFrames {
        messages: vec![vec![1, 2, 3], vec![0xFF]],
        frames: vec![None, Some(0), Some(0), Some(1), Some(1)],
    };

    let raw = save(&frames);
    assert_eq!(raw.messages, ["010203", "ff"]);
    let back = load(&raw).unwrap();
    assert_eq!((back.messages, back.frames), (frames.messages, frames.frames));
}

#[test]
fn a_spoiled_cache_is_named() {
    let cache = |messages: Vec<&str>, frames| Cache {
        messages: messages.iter().map(|m| m.to_string()).collect(),
        frames,
    };
    assert_eq!(load(&cache(vec!["01f"], vec![Some(0)])).err(), Some(HevcError::InvalidHex));
    assert_eq!(load(&cache(vec!["zz"], vec![Some(0)])).err(), Some(HevcError::InvalidHex));
    assert_eq!(
        load(&cache(vec!["01"], vec![Some(1)])).err(),
        Some(HevcError::MessageOutOfRange)
    );
}

#[test]
fn a_kept_cache_is_used_and_a_new_scan_is_kept() {
    let (frames, keep) =
        hdr10plus_frames(None, &[Some(1), Some(0)], vec![None, Some(vec![7])]).unwrap();
    assert_eq!(frames.message(0), Some(&vec![7]));
    assert_eq!(frames.message(1), Some(&vec![7]));
    let kept = keep.unwrap();
    let (again, keep) = hdr10plus_frames(Some(&kept), &[], vec![]).unwrap();
    assert_eq!(again.frames, frames.frames);
    assert!(keep.is_none());
}

#[test]
fn emulation_prevention_is_taken_out() {
    assert_eq!(remove_emulation_prevention(&[0, 0, 3, 1, 0, 0, 3]), [0, 0, 1, 0, 0]);
    let rbsp = [0, 0, 0, 1, 0, 0, 3, 3, 0, 0, 2];
    assert_eq!(remove_emulation_prevention(&escape(&rbsp)), rbsp);
}

#[test]
fn hex_round_trips() {
    let bytes: Vec<u8> = (0..=255).collect();
    assert_eq!(from_hex(&to_hex(&bytes)), Some(bytes));
    assert_eq!(to_hex(&[0x0f, 0xa0]), "0fa0");
}

#[test]
fn frames_of_one_time_keep_their_order() {
    assert_eq!(sorted_by_time(&vec![5, -1, 5, 0]), [1, 3, 0, 2]);
    assert_eq!(next_start_code(&[9, 0, 0, 1, 7], 0), Some(4));
    assert_eq!(next_start_code(&[9, 0, 0, 1, 7], 2), None);
}
