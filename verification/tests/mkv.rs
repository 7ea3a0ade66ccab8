use avet::mkv::{
    children, read_element, shrink_element, trim_av1_codec_private, trim_tracks, vint_len,
    write_vint, MkvError, TracksSearch, CODEC_PRIVATE, VOID,
};

fn element(id: &[u8], data: &[u8]) -> Vec<u8> {
    sized_element(id, data, 2)
}

fn sized_element(id: &[u8], data: &[u8], width: usize) -> Vec<u8> {
    let mut out = id.to_vec();
    write_vint(data.len() as u64, width, &mut out);
    out.extend_from_slice(data);
    out
}

fn obu(kind: u8, payload: &[u8]) -> Vec<u8> {
    let size = match payload.len() {
        n @ 0..=127 => vec![n as u8],
        n => vec![(n & 0x7f) as u8 | 0x80, (n >> 7) as u8],
    };
    [vec![(kind << 3) | 0x02], size, payload.to_vec()].concat()
}

fn muxed(codec_id: &[u8], av1c: &[u8]) -> Vec<u8> {
    let entry = element(&[0xAE], &[element(&[0x86], codec_id), element(&[0x63, 0xA2], av1c)].concat());
    let segment = element(&[0x18, 0x53, 0x80, 0x67], &element(&[0x16, 0x54, 0xAE, 0x6B], &entry));
    [element(&[0x1A, 0x45, 0xDF, 0xA3], &[0x42, 0x82, 0x88]), segment].concat()
}

/// The next number of a fixed sequence that looks like chance.
fn next(state: &mut u64) -> u64 {
    *state = state.wrapping_mul(6364136223846793005).wrapping_add(1442695040888963407);
    *state >> 33
}

fn some_bytes(state: &mut u64, from: u64, to: u64) -> Vec<u8> {
    let n = from + next(state) % (to - from);
    (0..n).map(|_| next(state) as u8).collect()
}

#[test]
fn a_tracks_size_past_the_end_of_the_file_is_an_error_not_an_allocation() {
    let mut file = [
        vec![0x1A, 0x45, 0xDF, 0xA3, 0x83, 0x42, 0x82, 0x88],
        vec![0x18, 0x53, 0x80, 0x67, 0x01, 0xFF, 0xFF, 0xFF, 0xFF, 0xFF, 0xFF, 0xFF],
        vec![0x16, 0x54, 0xAE, 0x6B, 0x01, 0x00, 0x00, 0x10, 0x00, 0x00, 0x00, 0x00],
    ]
    .concat();

    assert!(trim_av1_codec_private(&mut file).is_err());
}

#[test]
fn av1c_shrinks_in_place_and_nothing_after_it_moves() {
    let seq = obu(1, &[0x00, 0x00, 0x00]);
    let cll = obu(5, &[1, 0x03, 0xe8, 0x01, 0x90, 0x80]);
    let rpu = obu(5, &[4, 0xB5, 0x00, 0x3B, 0x00, 0x00, 0x08, 0x00, 0x37, 0xCD, 0x08, 0x80]);
    let av1c = [vec![0x81, 0x05, 0x4c, 0x00], seq.clone(), cll.clone(), rpu].concat();

    let entry = element(
        &[0xAE],
        &[
            element(&[0x86], b"V_AV1"),
            element(&[0x63, 0xA2], &av1c),
            element(&[0xB0], &[0x05, 0x00]),
        ]
        .concat(),
    );
    let tracks = element(&[0x16, 0x54, 0xAE, 0x6B], &entry);
    let cluster = element(&[0x1F, 0x43, 0xB6, 0x75], &[0xE7, 0x81, 0x00]);
    let segment = element(
        &[0x18, 0x53, 0x80, 0x67],
        &[element(&[0x15, 0x49, 0xA9, 0x66], &[]), tracks, cluster.clone()].concat(),
    );
    let file = [element(&[0x1A, 0x45, 0xDF, 0xA3], &[0x42, 0x82, 0x88]), segment].concat();

    let mut out = file.clone();
    assert!(trim_av1_codec_private(&mut out).unwrap());
    assert_eq!(out.len(), file.len());
    assert!(out.ends_with(&cluster));

    let private_at = out.windows(2).position(|w| w == [0x63, 0xA2]).unwrap();
    let private = read_element(&out, private_at).unwrap();
    let data = &out[private.data..private.data + private.size.unwrap() as usize];
    assert_eq!(data, [vec![0x81, 0x05, 0x4c, 0x00], seq, cll].concat());

    let void = read_element(&out, private.data + data.len()).unwrap();
    assert_eq!(void.id, u64::from(VOID));
    let pixel_width = read_element(&out, void.data + void.size.unwrap() as usize).unwrap();
    assert_eq!(pixel_width.id, 0xB0);

    assert!(!trim_av1_codec_private(&mut out).unwrap());
}

#[test]
fn a_dolby_vision_sized_removal_gets_a_two_byte_void_and_other_codecs_are_left_alone() {
    let seq = obu(1, &[0x00, 0x00, 0x00]);
    let rpu = obu(5, &[vec![4, 0xB5, 0x00, 0x3B], vec![0x5A; 160], vec![0x80]].concat());
    let av1c = [vec![0x81, 0x05, 0x4c, 0x00], seq.clone(), rpu].concat();

    let file = muxed(b"V_AV1", &av1c);
    let mut out = file.clone();
    assert!(trim_av1_codec_private(&mut out).unwrap());
    assert_eq!(out.len(), file.len());
    let private_at = out.windows(2).position(|w| w == [0x63, 0xA2]).unwrap();
    let private = read_element(&out, private_at).unwrap();
    let void = read_element(&out, private.data + private.size.unwrap() as usize).unwrap();
    assert_eq!((void.id, void.data - void.start), (u64::from(VOID), 3));
    assert_eq!(void.data + void.size.unwrap() as usize, out.len());

    let file = muxed(b"V_MPEGH/ISO/HEVC", &av1c);
    let mut out = file.clone();
    assert!(!trim_av1_codec_private(&mut out).unwrap());
    assert_eq!(out, file);
}

#[test]
fn trimming_touches_only_the_codec_private() {
    let mut state = 7;
    for round in 0..60 {
        // Metadata types 1 and 2 stay; 3, 4 and 5 go; kind 0 is a sequence header.
        let mut av1c = vec![0x81, 0x05, 0x4c, 0x00];
        let mut kept = av1c.clone();
        for _ in 0..next(&mut state) % 6 {
            let kind = (next(&mut state) % 6) as u8;
            let body = some_bytes(&mut state, 1, 300);
            let o = if kind == 0 { obu(1, &body) } else { obu(5, &[vec![kind], body].concat()) };
            if kind <= 2 {
                kept.extend_from_slice(&o);
            }
            av1c.extend(o);
        }
        let before = some_bytes(&mut state, 0, 50);
        let after = some_bytes(&mut state, 0, 50);
        let width = 2 + round % 7;

        let private = sized_element(&[0x63, 0xA2], &av1c, width);
        let entry = element(
            &[0xAE],
            &[
                element(&[0x86], b"V_AV1"),
                element(&[0xEA], &before),
                private.clone(),
                element(&[0xEB], &after),
            ]
            .concat(),
        );
        let segment = element(
            &[0x18, 0x53, 0x80, 0x67],
            &[
                element(&[0x16, 0x54, 0xAE, 0x6B], &entry),
                element(&[0x1F, 0x43, 0xB6, 0x75], &[0xA3, 0x80]),
            ]
            .concat(),
        );
        let file = [element(&[0x1A, 0x45, 0xDF, 0xA3], &[0x42, 0x82, 0x88]), segment].concat();

        let mut out = file.clone();
        let changed = trim_av1_codec_private(&mut out).unwrap();

        assert_eq!(out.len(), file.len());
        let at = file.windows(private.len()).position(|w| w == private.as_slice()).unwrap();
        assert_eq!(&out[..at], &file[..at]);
        assert_eq!(&out[at + private.len()..], &file[at + private.len()..]);
        assert_eq!(changed, kept.len() != av1c.len());

        let el = read_element(&out, at).unwrap();
        assert_eq!(el.id, CODEC_PRIVATE);
        let data_end = el.data + el.size.unwrap() as usize;
        assert_eq!(&out[el.data..data_end], kept.as_slice());
        if changed {
            let void = read_element(&out, data_end).unwrap();
            assert_eq!(void.id, u64::from(VOID));
            assert_eq!(void.data + void.size.unwrap() as usize, at + private.len());
        }
    }
}

#[test]
fn vints_are_written_at_the_requested_width() {
    let mut out = Vec::new();
    write_vint(5, 2, &mut out);
    assert_eq!(out, [0x40, 0x05]);
    let el = read_element(&[0xEC, 0x40, 0x05], 0).unwrap();
    assert_eq!((el.id, el.data, el.size), (0xEC, 3, Some(5)));
    let unknown = read_element(
        &[0x18, 0x53, 0x80, 0x67, 0x01, 0xFF, 0xFF, 0xFF, 0xFF, 0xFF, 0xFF, 0xFF],
        0,
    )
    .unwrap();
    assert_eq!(unknown.size, None);
}

#[test]
fn a_zero_byte_starts_no_number() {
    assert_eq!(vint_len(0x00), None);
    assert_eq!(vint_len(0x80), Some(1));
    assert_eq!(vint_len(0x1A), Some(4));
    assert_eq!(vint_len(0x01), Some(8));
}

#[test]
fn children_end_at_the_first_one_that_does_not_fit() {
    let buf = [element(&[0x86], b"V_AV1"), element(&[0xB0], &[1, 2])].concat();
    let ids: Vec<u64> = children(&buf).iter().map(|c| c.id).collect();
    assert_eq!(ids, [0x86, 0xB0]);
    assert_eq!(children(&buf[..buf.len() - 1]).len(), 1);
}

#[test]
fn an_element_that_cannot_shrink_by_one_byte_is_left() {
    let old = sized_element(&[0x63, 0xA2], &[1, 2, 3, 4], 1);
    let el = read_element(&old, 0).unwrap();
    assert_eq!(shrink_element(&old, &el, &[1, 2, 3]), None);
    let new = shrink_element(&old, &el, &[1, 2]).unwrap();
    assert_eq!(new, [0x63, 0xA2, 0x82, 1, 2, 0xEC, 0x80]);
}

#[test]
fn what_is_no_matroska_file_is_named() {
    let mut short = vec![0u8; 3];
    assert_eq!(trim_av1_codec_private(&mut short), Err(MkvError::NoElement { pos: 0 }));

    let mut other = element(&[0xEC], &[0; 10]);
    assert_eq!(trim_av1_codec_private(&mut other), Err(MkvError::NotMatroska));

    let mut endless = vec![0x1A, 0x45, 0xDF, 0xA3, 0xFF, 0, 0, 0, 0, 0, 0, 0];
    assert_eq!(trim_av1_codec_private(&mut endless), Err(MkvError::UnknownEbmlSize));

    let mut no_segment =
        [element(&[0x1A, 0x45, 0xDF, 0xA3], &[0x42, 0x82, 0x88]), element(&[0xEC], &[0; 10])].concat();
    assert_eq!(trim_av1_codec_private(&mut no_segment), Err(MkvError::NoSegment));

    let mut live = [
        element(&[0x1A, 0x45, 0xDF, 0xA3], &[0x42, 0x82, 0x88]),
        element(&[0x18, 0x53, 0x80, 0x67], &[0x15, 0x49, 0xA9, 0x66, 0xFF, 0, 0, 0, 0, 0, 0, 0]),
    ]
    .concat();
    assert_eq!(trim_av1_codec_private(&mut live), Err(MkvError::UnknownTopLevelSize));

    let past = [
        element(&[0x1A, 0x45, 0xDF, 0xA3], &[0x42, 0x82, 0x88]),
        sized_element(&[0x18, 0x53, 0x80, 0x67], &[vec![0x16, 0x54, 0xAE, 0x6B, 0x47, 0xFF], vec![0; 20]].concat(), 2),
    ]
    .concat();
    assert!(matches!(
        trim_av1_codec_private(&mut past.clone()),
        Err(MkvError::PastEnd { .. })
    ));
}

#[test]
fn a_search_asks_for_the_heads_it_needs() {
    let av1c = [vec![0x81, 0x05, 0x4c, 0x00], obu(5, &[4, 0xB5, 0x80])].concat();
    let file = muxed(b"V_AV1", &av1c);
    let mut search = TracksSearch::Ebml;
    let mut steps = 0;
    while let Some(pos) = search.wanted() {
        let from = (pos as usize).min(file.len());
        let to = (from + 12).min(file.len());
        search = search.step(file.len() as u64, &file[from..to]).unwrap();
        steps += 1;
    }
    assert_eq!(steps, 3);
    let TracksSearch::Found { pos, size } = search else { panic!("no tracks") };
    let mut tracks = file[pos as usize..(pos + size) as usize].to_vec();
    assert!(trim_tracks(&mut tracks));
    assert!(!trim_tracks(&mut tracks));
}
