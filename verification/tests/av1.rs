use avet::av1::{
    av1c_without_frame_metadata, concat_ivf, frame_count_field, insert_t35_metadata,
    is_shown_frame, join_chunk, parse_obus, read_ivf_frame, read_ivf_header, read_leb128,
    write_ivf_frame, write_leb128, write_t35_metadata_obu, Av1Error, METADATA_TYPE_HDR_MDCV,
    METADATA_TYPE_ITUT_T35, OBU_FRAME, OBU_FRAME_HEADER, OBU_METADATA, OBU_SEQUENCE_HEADER,
};

const TD: u8 = 2;

fn obu(kind: u8, payload: &[u8]) -> Vec<u8> {
    let mut out = vec![(kind << 3) | 0x02];
    write_leb128(payload.len(), &mut out);
    out.extend_from_slice(payload);
    out
}

fn ivf(tus: &[Vec<u8>]) -> Vec<u8> {
    let mut out = b"DKIF".to_vec();
    out.extend_from_slice(&0u16.to_le_bytes());
    out.extend_from_slice(&32u16.to_le_bytes());
    out.extend_from_slice(b"AV01");
    out.extend_from_slice(&[0x80, 0x07, 0x38, 0x04]);
    out.extend_from_slice(&24u32.to_le_bytes());
    out.extend_from_slice(&1u32.to_le_bytes());
    out.extend_from_slice(&(tus.len() as u32).to_le_bytes());
    out.extend_from_slice(&[0; 4]);
    for (pts, tu) in tus.iter().enumerate() {
        write_ivf_frame(&mut out, pts as u64, tu).unwrap();
    }
    out
}

fn frames(data: &[u8]) -> Vec<Vec<u8>> {
    let mut pos = read_ivf_header(data).unwrap();
    let mut out = Vec::new();
    while let Some((frame, end)) = read_ivf_frame(data, pos).unwrap() {
        out.push(frame.data.to_vec());
        pos = end;
    }
    out
}

fn kinds(tu: &[u8]) -> Vec<u8> {
    parse_obus(tu).unwrap().iter().map(|o| o.kind).collect()
}

/// The next number of a fixed sequence that looks like chance.
fn next(state: &mut u64) -> u64 {
    *state = state.wrapping_mul(6364136223846793005).wrapping_add(1442695040888963407);
    *state >> 33
}

fn some_bytes(state: &mut u64, from: u64, to: u64) -> Vec<u8> {
    let n = from + next(state) % (to - from);
    (0..n).map(|_| next(state) as u8).collect()
}

/// Temporal units of hidden frames followed by one shown frame, with padding around.
fn temporal_units(state: &mut u64) -> Vec<Vec<u8>> {
    let mut tus = Vec::new();
    for i in 0..1 + next(state) % 11 {
        let mut out = if i == 0 { obu(OBU_SEQUENCE_HEADER, &[0x00, 0x00]) } else { Vec::new() };
        out.extend(obu(TD, &[]));
        for _ in 0..next(state) % 4 {
            let b = next(state) as u8;
            out.extend(obu(OBU_FRAME, &[vec![b & 0x6F], some_bytes(state, 0, 40)].concat()));
        }
        let b = next(state) as u8;
        if next(state) % 2 == 0 {
            out.extend(obu(OBU_FRAME, &[vec![(b & 0x7F) | 0x10], some_bytes(state, 0, 40)].concat()));
        } else {
            out.extend(obu(OBU_FRAME_HEADER, &[vec![b | 0x80], some_bytes(state, 0, 40)].concat()));
        }
        if next(state) % 2 == 0 {
            out.extend(obu(15, &some_bytes(state, 0, 300)));
        }
        tus.push(out);
    }
    tus
}

#[test]
fn a_frame_size_past_the_end_of_the_file_is_an_error_not_an_allocation() {
    let mut data = ivf(&[]);
    data.extend_from_slice(&u32::MAX.to_le_bytes());
    data.extend_from_slice(&0u64.to_le_bytes());
    data.extend_from_slice(b"four");

    let pos = read_ivf_header(&data).unwrap();
    assert!(read_ivf_frame(&data, pos).is_err());
}

#[test]
fn leb128_round_trips_multi_byte_sizes() {
    for value in [0usize, 127, 128, 300, 1 << 20] {
        let mut buf = Vec::new();
        write_leb128(value, &mut buf);
        assert_eq!(read_leb128(&buf, 0), Some((value as u64, buf.len())));
    }
}

#[test]
fn metadata_lands_before_each_shown_frame_and_never_on_a_hidden_one() {
    // Key frame; hidden ARF plus shown frame; show_existing_frame of the ARF.
    let tus = [
        [obu(TD, &[]), obu(OBU_SEQUENCE_HEADER, &[0x00, 0x00]), obu(OBU_FRAME, &[0x10, 0xAA])].concat(),
        [obu(TD, &[]), obu(OBU_FRAME, &[0x20, 0xBB]), obu(OBU_FRAME, &[0x30, 0xCC])].concat(),
        [obu(TD, &[]), obu(OBU_FRAME_HEADER, &[0x80])].concat(),
    ];

    let big = vec![0xB5; 200];
    let messages = vec![vec![vec![0xB5, 1]], vec![big.clone(), vec![0xB5, 2]], vec![vec![0xB5, 3]]];
    let tagged = insert_t35_metadata(&ivf(&tus), &messages).unwrap();

    let out = frames(&tagged);
    assert_eq!(kinds(&out[0]), [TD, OBU_SEQUENCE_HEADER, OBU_METADATA, OBU_FRAME]);
    assert_eq!(kinds(&out[1]), [TD, OBU_FRAME, OBU_METADATA, OBU_METADATA, OBU_FRAME]);
    assert_eq!(kinds(&out[2]), [TD, OBU_METADATA, OBU_FRAME_HEADER]);

    let second = parse_obus(&out[1]).unwrap();
    assert_eq!(second[1].payload, [0x20, 0xBB]);
    let mut expected = vec![METADATA_TYPE_ITUT_T35];
    expected.extend_from_slice(&big);
    expected.push(0x80);
    assert_eq!(second[2].payload, expected);
}

#[test]
fn extension_headers_and_still_pictures_are_read_right() {
    let with_extension = [vec![(OBU_FRAME << 3) | 0x06, 0x08, 0x02], vec![0x10, 0xAA]].concat();
    // reduced_still_picture_header: no show bits, every frame is shown.
    let tus = [
        [obu(OBU_SEQUENCE_HEADER, &[0x08]), obu(OBU_FRAME, &[0x00, 0xBB])].concat(),
        with_extension.clone(),
    ];

    let tagged =
        insert_t35_metadata(&ivf(&tus), &[vec![vec![0xB5, 1]], vec![vec![0xB5, 2]]]).unwrap();

    let out = frames(&tagged);
    assert_eq!(kinds(&out[0]), [OBU_SEQUENCE_HEADER, OBU_METADATA, OBU_FRAME]);
    assert_eq!(kinds(&out[1]), [OBU_METADATA, OBU_FRAME]);
    assert!(out[1].ends_with(&with_extension));
}

#[test]
fn a_frame_count_that_does_not_match_the_decode_is_an_error() {
    let tu = [obu(TD, &[]), obu(OBU_FRAME, &[0x10])].concat();
    let chunk = ivf(&[tu.clone(), tu]);

    assert_eq!(
        insert_t35_metadata(&chunk, &[vec![]]),
        Err(Av1Error::MoreFramesShown { decoded: 1 })
    );
    assert_eq!(
        insert_t35_metadata(&chunk, &[vec![], vec![], vec![]]),
        Err(Av1Error::FrameCountMismatch { shown: 2, decoded: 3 })
    );
}

#[test]
fn joined_chunks_count_on_across_the_seam() {
    let tu = |b: u8| [obu(TD, &[]), obu(OBU_FRAME, &[0x10, b])].concat();
    let a = ivf(&[tu(1), tu(2)]);
    let b = ivf(&[tu(3)]);

    let (data, count) = concat_ivf(&[a.clone(), b]).unwrap();
    assert_eq!(count, 3);

    assert_eq!(u32::from_le_bytes(data[24..28].try_into().unwrap()), 3);
    let pts: Vec<u64> = (0..3)
        .scan(32usize, |pos, _| {
            let size = u32::from_le_bytes(data[*pos..*pos + 4].try_into().unwrap()) as usize;
            let pts = u64::from_le_bytes(data[*pos + 4..*pos + 12].try_into().unwrap());
            *pos += 12 + size;
            Some(pts)
        })
        .collect();
    assert_eq!(pts, [0, 1, 2]);
    assert_eq!(frames(&data), [tu(1), tu(2), tu(3)]);

    let mut other_rate = ivf(&[tu(4)]);
    other_rate[16..20].copy_from_slice(&30u32.to_le_bytes());
    assert!(concat_ivf(&[a, other_rate]).is_err());
}

#[test]
fn inserting_metadata_changes_nothing_but_the_metadata() {
    let mut state = 3;
    for _ in 0..40 {
        let tus = temporal_units(&mut state);
        let messages: Vec<Vec<Vec<u8>>> = tus
            .iter()
            .map(|_| (0..next(&mut state) % 3).map(|_| some_bytes(&mut state, 1, 200)).collect())
            .collect();

        let out = frames(&insert_t35_metadata(&ivf(&tus), &messages).unwrap());
        assert_eq!(out.len(), tus.len());

        for ((got, original), wanted) in out.iter().zip(&tus).zip(&messages) {
            let obus = parse_obus(got).unwrap();
            let stripped: Vec<u8> = obus
                .iter()
                .filter(|o| o.kind != OBU_METADATA)
                .flat_map(|o| o.raw.to_vec())
                .collect();
            assert_eq!(&stripped, original);

            let shown = obus.iter().position(|o| is_shown_frame(o, false)).unwrap();
            let mut before: Vec<&[u8]> = obus[..shown]
                .iter()
                .rev()
                .take_while(|o| o.kind == OBU_METADATA)
                .map(|o| o.payload)
                .collect();
            before.reverse();
            assert_eq!(before.len(), wanted.len());
            for (payload, message) in before.iter().zip(wanted) {
                let expected = [&[METADATA_TYPE_ITUT_T35][..], message, &[0x80]].concat();
                assert_eq!(*payload, expected.as_slice());
            }
            assert_eq!(obus.iter().filter(|o| o.kind == OBU_METADATA).count(), wanted.len());
        }
    }
}

#[test]
fn joining_keeps_every_frame_in_order() {
    let mut state = 11;
    for _ in 0..30 {
        let mut inputs = Vec::new();
        let mut expected = Vec::new();
        for c in 0..1 + next(&mut state) % 7 {
            let n = 1 + next(&mut state) % 19;
            let tus: Vec<Vec<u8>> = (0..n)
                .map(|i| [obu(TD, &[]), obu(OBU_FRAME, &[0x10, c as u8, i as u8])].concat())
                .collect();
            inputs.push(ivf(&tus));
            expected.extend(tus);
        }
        let (data, count) = concat_ivf(&inputs).unwrap();
        assert_eq!(count, expected.len() as u64);
        assert_eq!(frames(&data), expected);
    }
}

#[test]
fn leb128_round_trips() {
    let mut state = 5;
    for i in 0..500 {
        let value = ((next(&mut state) << 31 | next(&mut state)) % (1 << 56) >> (i % 56)) as usize;
        let mut buf = Vec::new();
        write_leb128(value, &mut buf);
        assert_eq!(read_leb128(&buf, 0), Some((value as u64, buf.len())));
    }
}

#[test]
fn av1c_keeps_the_sequence_header_and_static_hdr_only() {
    let seq = obu(OBU_SEQUENCE_HEADER, &[0x00, 0x00, 0x00]);
    let mdcv = obu(OBU_METADATA, &[METADATA_TYPE_HDR_MDCV, 1, 2, 0x80]);
    let t35 = obu(OBU_METADATA, &[METADATA_TYPE_ITUT_T35, 0xB5, 0x00, 0x3C, 0x80]);
    let av1c = [vec![0x81, 0x05, 0x4c, 0x00], seq.clone(), mdcv.clone(), t35].concat();

    let trimmed = av1c_without_frame_metadata(&av1c).unwrap();
    assert_eq!(trimmed, [vec![0x81, 0x05, 0x4c, 0x00], seq, mdcv].concat());
    assert_eq!(av1c_without_frame_metadata(&trimmed), None);
}

#[test]
fn a_unit_without_a_size_or_past_the_end_is_named() {
    assert_eq!(parse_obus(&[OBU_FRAME << 3, 0x10]).err(), Some(Av1Error::NoSizeField));
    assert_eq!(parse_obus(&[(OBU_FRAME << 3) | 0x02]).err(), Some(Av1Error::TruncatedObuHeader));
    assert_eq!(
        parse_obus(&[(OBU_FRAME << 3) | 0x02, 0x05, 0x10]).err(),
        Some(Av1Error::ObuPastEnd)
    );
}

#[test]
fn a_file_that_is_no_ivf_is_named() {
    assert_eq!(read_ivf_header(b"DKIF"), Err(Av1Error::TruncatedIvfHeader));
    let mut other = ivf(&[]);
    other[0] = b'X';
    assert_eq!(read_ivf_header(&other), Err(Av1Error::NotIvf));
    let mut short = ivf(&[]);
    short[6] = 31;
    assert_eq!(read_ivf_header(&short), Err(Av1Error::ShortIvfHeader { len: 31 }));
    let mut long = ivf(&[]);
    long[6] = 40;
    long.extend_from_slice(&[0; 8]);
    assert_eq!(read_ivf_header(&long), Ok(40));
}

#[test]
fn a_frame_cut_short_is_named() {
    let file = ivf(&[vec![1, 2, 3]]);
    assert_eq!(read_ivf_frame(&file, file.len()).unwrap().map(|_| ()), None);
    assert_eq!(
        read_ivf_frame(&file[..40], 32).err(),
        Some(Av1Error::TruncatedFrameHeader)
    );
    assert_eq!(
        read_ivf_frame(&file[..file.len() - 1], 32).err(),
        Some(Av1Error::TruncatedFrame { got: 2, size: 3 })
    );
    let (frame, end) = read_ivf_frame(&file, 32).unwrap().unwrap();
    assert_eq!((frame.pts, frame.data, end), (0, &[1u8, 2, 3][..], file.len()));
}

#[test]
fn nothing_to_join_is_an_error_and_another_size_is_too() {
    assert_eq!(concat_ivf(&[]).err(), Some(Av1Error::NoChunks));
    let a = ivf(&[vec![1]]);
    let mut wide = ivf(&[vec![2]]);
    wide[12] = 0;
    assert_eq!(
        concat_ivf(&[a.clone(), wide]).err(),
        Some(Av1Error::OtherStreamParameters { chunk: 1 })
    );

    let mut out = Vec::new();
    assert_eq!(join_chunk(&a, &a, 0, 0, &mut out), Ok(1));
    let seam = out.len();
    assert_eq!(join_chunk(&a, &a, 1, 1, &mut out), Ok(1));
    assert_eq!(out[seam + 4..seam + 12], 1u64.to_le_bytes());
    assert_eq!(frame_count_field(2), 2u32.to_le_bytes());
}

#[test]
fn a_metadata_unit_reads_back() {
    let mut out = Vec::new();
    write_t35_metadata_obu(&[0xB5, 0x00], &mut out);
    assert_eq!(out, [0x2A, 4, 4, 0xB5, 0x00, 0x80]);
    let obus = parse_obus(&out).unwrap();
    assert_eq!((obus.len(), obus[0].kind), (1, OBU_METADATA));
}

#[test]
fn metadata_that_was_there_before_stays() {
    let own = obu(OBU_METADATA, &[METADATA_TYPE_HDR_MDCV, 7, 0x80]);
    let unit = [obu(TD, &[]), own.clone(), obu(OBU_FRAME, &[0x10, 1, 2])].concat();
    let message = vec![0xB5, 0x00, 0x3C];
    let out =
        frames(&insert_t35_metadata(&ivf(&[unit.clone()]), &[vec![message.clone()]]).unwrap());
    let mut new = Vec::new();
    write_t35_metadata_obu(&message, &mut new);
    let obus = parse_obus(&out[0]).unwrap();
    let old: Vec<u8> =
        obus.iter().filter(|o| o.raw != &new[..]).flat_map(|o| o.raw.to_vec()).collect();
    assert_eq!(old, unit);
    assert_eq!(obus.len(), 4);
    assert_eq!(obus[1].raw, &own[..]);
}
