use avet::hdr::{dovi_t35, Geometry, HdrError};
use avet::rpu::{read_shape, RpuShape, READ_END, WRITE_END};
use dolby_vision::rpu::dovi_rpu::DoviRpu;
use dolby_vision::rpu::generate::GenerateConfig;

const PICTURE: Geometry = Geometry { width: 3840, height: 2160, crop: None, scale: None };

/// The bits of an RPU, written by hand.
struct Bits(Vec<bool>);

impl Bits {
    fn field(&mut self, value: u64, width: u32) -> &mut Bits {
        for i in (0..width).rev() {
            self.0.push(value >> i & 1 == 1);
        }
        self
    }

    fn code(&mut self, value: u64) -> &mut Bits {
        let zeros = (value + 1).ilog2();
        self.field(0, zeros).field(value + 1, zeros + 1)
    }

    fn align(&mut self) -> &mut Bits {
        while self.0.len() % 8 != 0 {
            self.0.push(false);
        }
        self
    }

    /// The NAL payload, with the checksum and the final byte.
    fn payload(&mut self) -> Vec<u8> {
        self.align();
        let mut bytes: Vec<u8> = self
            .0
            .chunks(8)
            .map(|byte| byte.iter().fold(0, |v, b| v << 1 | *b as u8))
            .collect();
        let mut crc = u32::MAX;
        for byte in &bytes[1..] {
            crc ^= (*byte as u32) << 24;
            for _ in 0..8 {
                crc = if crc >> 31 == 1 { crc << 1 ^ 0x04C1_1DB7 } else { crc << 1 };
            }
        }
        bytes.extend(crc.to_be_bytes());
        bytes.push(0x80);
        let mut escaped: Vec<u8> = Vec::new();
        for b in bytes {
            if escaped.ends_with(&[0, 0]) && b <= 3 {
                escaped.push(3);
            }
            escaped.push(b);
        }
        escaped
    }
}

/// A profile 8 header: ten bits, coefficients of 23 bits beside an integer part.
fn header(managed: bool, earlier: bool) -> Bits {
    let mut b = Bits(Vec::new());
    b.field(25, 8).field(2, 6).field(18, 11).field(1, 4).field(0, 4).field(1, 1);
    b.field(0, 1).field(0, 2).code(23).field(1, 2).field(0, 1);
    b.code(2).code(2).code(4).field(0, 1);
    b.field(managed as u64, 3).field(0, 1).field(1, 1);
    b.field(managed as u64, 1).field(earlier as u64, 1);
    if earlier {
        b.code(0);
    }
    b
}

/// Up to the pieces: three curves of two pivots, or of three for the first one.
fn pivots(b: &mut Bits, first_has_three: bool) {
    b.code(0).code(0).code(0);
    for i in 0..3 {
        let three = first_has_three && i == 0;
        b.code(three as u64).field(0, 10);
        if three {
            b.field(512, 10);
        }
        b.field(1023, 10);
    }
    b.code(0).code(0);
}

fn line(b: &mut Bits) {
    b.code(0).code(0).field(0, 1);
    b.code(0).field(0, 23).code(1).field(0, 23);
}

fn regression(b: &mut Bits) {
    b.code(1).field(0, 2);
    for _ in 0..8 {
        b.code(0).field(0, 23);
    }
}

fn generated(rpu: DoviRpu) -> Vec<u8> {
    rpu.write_hevc_unspec62_nalu().unwrap()
}

fn config() -> GenerateConfig {
    GenerateConfig { length: 1, ..Default::default() }
}

#[test]
fn generated_metadata_can_be_read_to_its_end() {
    let plain = Some(RpuShape { writable: true, dual_layer: false, full_layer: false });
    assert_eq!(read_shape(&generated(DoviRpu::profile81_config(&config()).unwrap())), plain);
    assert_eq!(read_shape(&generated(DoviRpu::profile5_config(&config()).unwrap())), plain);
    assert_eq!(read_shape(&generated(DoviRpu::profile84_config(&config()).unwrap())), plain);
}

#[test]
fn an_enhancement_layer_that_adds_something_is_told_apart() {
    let mut rpu = DoviRpu::profile81_config(&config()).unwrap();
    rpu.convert_with_mode(1).unwrap();
    assert_eq!(
        read_shape(&generated(rpu.clone())),
        Some(RpuShape { writable: true, dual_layer: true, full_layer: false })
    );
    let mapping = rpu.rpu_data_mapping.as_mut().unwrap();
    mapping.nlq.as_mut().unwrap().linear_deadzone_threshold_int = [0, 0, 3];
    let full = generated(rpu);
    assert_eq!(
        read_shape(&full),
        Some(RpuShape { writable: true, dual_layer: true, full_layer: true })
    );
    assert!(dovi_t35(&full, PICTURE).is_ok());
}

#[test]
fn every_start_of_a_payload_is_known() {
    let nalu = generated(DoviRpu::profile81_config(&config()).unwrap());
    assert_eq!(nalu[..5], [124, 1, 25, 8, 9]);
    assert!(read_shape(&nalu[1..]).is_some());
    assert!(read_shape(&nalu[2..]).is_some());
    assert!(read_shape(&nalu[3..]).is_none());
    assert!(read_shape(&[&[0, 0, 0, 1], &nalu[2..]].concat()).is_some());
    assert!(read_shape(&[&[0, 0, 1], &nalu[2..]].concat()).is_some());
    assert!(read_shape(&[&[0, 1], &nalu[2..]].concat()).is_some());
    assert!(read_shape(&[&nalu[..], &[0, 0]].concat()).is_some());
}

#[test]
fn metadata_that_ends_too_early_has_no_shape() {
    let nalu = generated(DoviRpu::profile81_config(&config()).unwrap());
    assert!(read_shape(&[]).is_none());
    assert!(read_shape(&nalu[..24]).is_none());
    assert!(read_shape(&nalu[..nalu.len() - 1]).is_none());
    let mut cut = nalu[..40].to_vec();
    cut.push(0x80);
    assert!(read_shape(&cut).is_none());
    assert_eq!(dovi_t35(&cut, PICTURE), Err(HdrError::ParseRpu));
}

#[test]
fn metadata_written_by_hand_is_carried() {
    let mut b = header(false, false);
    pivots(&mut b, false);
    for _ in 0..3 {
        line(&mut b);
    }
    let payload = b.payload();
    let plain = Some(RpuShape { writable: true, dual_layer: false, full_layer: false });
    assert_eq!(read_shape(&payload), plain);
    assert!(dovi_t35(&payload, PICTURE).is_ok());
    assert_eq!(read_shape(&header(false, true).field(0, 100).payload()), plain);
}

#[test]
fn an_interpolated_polynomial_is_refused() {
    let mut b = header(false, false);
    pivots(&mut b, false);
    b.code(0).code(0).field(1, 1).field(0, 200);
    let payload = b.payload();
    assert_eq!(read_shape(&payload), None);
    assert_eq!(dovi_t35(&payload, PICTURE), Err(HdrError::ParseRpu));
}

#[test]
fn a_curve_of_two_methods_cannot_be_written_again() {
    let mut b = header(false, false);
    pivots(&mut b, true);
    line(&mut b);
    regression(&mut b);
    line(&mut b);
    line(&mut b);
    let payload = b.payload();
    let mixed = RpuShape { writable: false, dual_layer: false, full_layer: false };
    assert_eq!(read_shape(&payload), Some(mixed));
    assert!(DoviRpu::parse_unspec62_nalu(&payload).is_ok());
    assert_eq!(dovi_t35(&payload, PICTURE), Err(HdrError::WriteRpu));
    assert!(!mixed.rewritable());
    assert!(RpuShape { dual_layer: true, full_layer: true, ..mixed }.rewritable());
}

#[test]
fn a_count_beyond_the_payload_is_refused() {
    let mut b = header(false, false);
    b.code(0).code(0).code(0).code(1 << 40).field(0, 200);
    assert_eq!(dovi_t35(&b.payload(), PICTURE), Err(HdrError::ParseRpu));
    let mut c = header(false, false);
    c.field(0, 64).field(1, 1).field(0, 200);
    assert_eq!(dovi_t35(&c.payload(), PICTURE), Err(HdrError::ParseRpu));
}

#[test]
fn a_metadata_block_has_a_length_of_its_level() {
    let block = |length: u64, level: u64| {
        let mut b = header(true, true);
        b.code(0).code(0).code(0).code(0).align();
        b.code(1).align();
        b.code(length).field(level, 8);
        for _ in 0..length {
            b.field(0, 8);
        }
        b.payload()
    };
    assert!(read_shape(&block(10, 8)).is_some());
    assert!(read_shape(&block(25, 8)).is_some());
    assert!(read_shape(&block(11, 8)).is_none());
    assert!(read_shape(&block(21, 10)).is_some());
    assert!(read_shape(&block(22, 10)).is_none());
    assert!(read_shape(&block(17, 9)).is_some());
    assert!(read_shape(&block(16, 9)).is_none());
    assert!(read_shape(&block(7, 5)).is_none());
    assert_eq!(dovi_t35(&block(11, 8), PICTURE), Err(HdrError::ParseRpu));
}

/// A polynomial of order one whose first coefficient has this integer part, as a code.
fn line_from(b: &mut Bits, code: u64) {
    b.code(0).code(0).field(0, 1);
    b.code(code).field(0, 23).code(1).field(0, 23);
}

#[test]
fn a_signed_code_that_would_overflow_is_not_written() {
    let with_first = |code: u64| {
        let mut b = header(false, false);
        pivots(&mut b, false);
        line_from(&mut b, code);
        line(&mut b);
        line(&mut b);
        b.payload()
    };
    let below = with_first(WRITE_END - 1);
    assert!(read_shape(&below).unwrap().writable);
    assert!(DoviRpu::parse_unspec62_nalu(&below).is_ok());
    // The number is rounded on the way, so the checksum no longer fits.
    assert_eq!(dovi_t35(&below, PICTURE), Err(HdrError::WriteRpu));

    let above = with_first(WRITE_END);
    assert!(!read_shape(&above).unwrap().writable);
    assert!(DoviRpu::parse_unspec62_nalu(&above).is_ok());
    assert_eq!(dovi_t35(&above, PICTURE), Err(HdrError::WriteRpu));

    // A code for a number above zero can be read however large it is.
    assert!(DoviRpu::parse_unspec62_nalu(&with_first(READ_END - 1)).is_ok());
    assert!(DoviRpu::parse_unspec62_nalu(&with_first(READ_END + 2)).is_ok());
    assert!(read_shape(&with_first(READ_END + 2)).is_some());
    assert!(read_shape(&with_first(READ_END + 1)).is_none());
    assert_eq!(dovi_t35(&with_first(READ_END + 1), PICTURE), Err(HdrError::ParseRpu));
}

#[test]
fn a_mapping_that_is_dropped_may_hold_any_code() {
    let dual = |code: u64, threshold: u64| {
        let mut b = Bits(Vec::new());
        b.field(25, 8).field(2, 6).field(18, 11).field(1, 4).field(0, 4).field(1, 1);
        b.field(0, 1).field(0, 2).code(23).field(1, 2).field(0, 1);
        b.code(2).code(2).code(4).field(0, 1);
        b.field(0, 3).field(1, 1).field(0, 1).field(0, 1).field(0, 1);
        b.code(0).code(0).code(0);
        for _ in 0..3 {
            b.code(0).field(0, 10).field(1023, 10);
        }
        b.field(0, 3).field(0, 10).field(1023, 10).code(0).code(0);
        line_from(&mut b, code);
        line(&mut b);
        line(&mut b);
        for _ in 0..3 {
            b.field(0, 10).code(1).field(0, 23).code(0).field(0, 23).code(threshold).field(0, 23);
        }
        b.payload()
    };
    let full = dual(WRITE_END, 3);
    assert_eq!(
        read_shape(&full),
        Some(RpuShape { writable: false, dual_layer: true, full_layer: true })
    );
    assert!(dovi_t35(&full, PICTURE).is_ok());
    assert!(dovi_t35(&dual(READ_END - 1, 3), PICTURE).is_ok());

    // A minimal enhancement layer leaves the mapping in place.
    assert_eq!(dovi_t35(&dual(WRITE_END, 0), PICTURE), Err(HdrError::WriteRpu));
    assert!(dovi_t35(&dual(5, 0), PICTURE).is_ok());
}
