//! Color description and HDR metadata: what a probe reports, what the encoder and the muxer
//! are told, and the dynamic metadata of each frame.
use crate::config::{push_signed, signed_decimal};
use crate::crop::Crop;
use crate::hevc::hdr10plus_header;
use crate::rpu::{read_shape, rpu_shape};
use crate::text::{
    contains, decimal, decimal_string, find_from, first_at, from_chars, gives, is_digit,
    is_number, law_decimal_round_trip, lemma_first_is, lemma_gives_at, lemma_gives_joined,
    lemma_trimmed_whole, occurs, occurs_at, outline, parse_signed, parse_unsigned, part,
    push_decimal, reads_as_number, same, signed, strings, text_of, to_chars, trim, trimmed,
    unsigned,
};
use dolby_vision::rpu::dovi_rpu::DoviRpu;
use vstd::prelude::*;
use vstd::string::*;

verus! {

/// The dynamic metadata that is carried over.
#[derive(Clone, Copy, Debug, PartialEq, Eq, Structural)]
pub struct DynamicHdr {
    pub hdr10plus: bool,
    pub dolby_vision: bool,
}

impl DynamicHdr {
    pub fn any(self) -> (r: bool)
        ensures
            r == (self.hdr10plus || self.dolby_vision),
    {
        self.hdr10plus || self.dolby_vision
    }
}

/// The picture that an encode starts from, and what becomes of it.
#[derive(Clone, Copy, Debug)]
pub struct Geometry {
    pub width: u32,
    pub height: u32,
    pub crop: Option<Crop>,
    pub scale: Option<(u32, u32)>,
}

/// The dynamic metadata of one frame, as its decoder gives it.
#[derive(Debug)]
pub struct FrameHdrMetadata {
    pub dovi_rpu: Option<Vec<u8>>,
    pub hdr10plus: Option<Vec<u8>>,
}

/// Why the metadata of a frame cannot be carried over.
#[derive(Clone, Copy, Debug, PartialEq, Eq, Structural)]
pub enum HdrError {
    /// The Dolby Vision metadata cannot be read.
    ParseRpu,
    /// Profile 7 cannot be converted to 8.1.
    ConvertRpu,
    /// A Dolby Vision profile without an AV1 form.
    NoAv1Form { profile: u8 },
    /// The active area cannot be set.
    SetActiveArea,
    /// The metadata cannot be written for AV1.
    WriteRpu,
}

// ---------------------------------------------------------------------------
// The active area
// ---------------------------------------------------------------------------
/// Left, right, top and bottom.
pub type Offsets = (u16, u16, u16, u16);

/// An offset from an edge of the source in pixels of the output: less what the crop cut off
/// that edge, at most what it kept, and scaled with it, to the nearest pixel.
pub open spec fn fit(offset: int, cut: int, kept: int, out: int) -> int {
    let rest = if offset > cut {
        offset - cut
    } else {
        0
    };
    let px = if rest < kept {
        rest
    } else {
        kept
    };
    let over = if kept > 1 {
        kept
    } else {
        1
    };
    (px * out + over / 2) / over
}

/// The crop of a picture; without one, all of it.
pub open spec fn effective_crop(g: Geometry) -> Crop {
    match g.crop {
        Some(c) => c,
        None => Crop { w: g.width, h: g.height, x: 0, y: 0 },
    }
}

/// The size that a picture comes out at.
pub open spec fn output_size(g: Geometry) -> (u32, u32) {
    match g.scale {
        Some(s) => s,
        None => (effective_crop(g).w, effective_crop(g).h),
    }
}

/// The active area of the output.
pub open spec fn remapped(offsets: Offsets, g: Geometry) -> (int, int, int, int) {
    let c = effective_crop(g);
    let (out_w, out_h) = output_size(g);
    (
        fit(offsets.0 as int, c.x as int, c.w as int, out_w as int),
        fit(
            offsets.1 as int,
            crate::crop::beyond(g.width, c.x + c.w),
            c.w as int,
            out_w as int,
        ),
        fit(offsets.2 as int, c.y as int, c.h as int, out_h as int),
        fit(
            offsets.3 as int,
            crate::crop::beyond(g.height, c.y + c.h),
            c.h as int,
            out_h as int,
        ),
    )
}

/// The low 16 bits of each.
pub open spec fn low_bits(v: (int, int, int, int)) -> Offsets {
    (
        (v.0 % 0x1_0000) as u16,
        (v.1 % 0x1_0000) as u16,
        (v.2 % 0x1_0000) as u16,
        (v.3 % 0x1_0000) as u16,
    )
}

pub open spec fn geometry_ok(g: Geometry) -> bool {
    crate::crop::bounded(effective_crop(g))
}

proof fn lemma_fit(offset: int, cut: int, kept: int, out: int)
    requires
        0 <= offset <= u16::MAX,
        0 <= cut,
        0 <= kept,
        0 <= out,
    ensures
        0 <= fit(offset, cut, kept, out) <= out,
        cut == 0 && kept == out ==> fit(offset, cut, kept, out) == if offset < kept {
            offset
        } else {
            kept
        },
{
    let rest = if offset > cut {
        offset - cut
    } else {
        0
    };
    let px = if rest < kept {
        rest
    } else {
        kept
    };
    let over = if kept > 1 {
        kept
    } else {
        1
    };
    let v = px * out + over / 2;
    assert(0 <= v <= over * out + over / 2 && (px == 0 ==> v == over / 2)) by (nonlinear_arith)
        requires
            v == px * out + over / 2,
            0 <= px <= over,
            0 <= out,
            1 <= over,
    ;
    assert(0 <= v / over <= out) by (nonlinear_arith)
        requires
            0 <= v <= over * out + over / 2,
            1 <= over,
            0 <= out,
    ;
    if cut == 0 && kept == out {
        if kept >= 1 {
            assert(v / over == px) by (nonlinear_arith)
                requires
                    v == px * over + over / 2,
                    1 <= over,
                    0 <= px,
            ;
        } else {
            assert(px * out == 0) by (nonlinear_arith)
                requires
                    px == 0,
            ;
        }
    }
}

fn fit_offset(offset: u16, cut: u32, kept: u32, out: u32) -> (r: u16)
    ensures
        r == fit(offset as int, cut as int, kept as int, out as int) % 0x1_0000,
{
    let rest: u32 = (offset as u32).saturating_sub(cut);
    let px: u64 = if rest < kept {
        rest as u64
    } else {
        kept as u64
    };
    let over: u64 = if kept > 1 {
        kept as u64
    } else {
        1
    };
    proof {
        lemma_fit(offset as int, cut as int, kept as int, out as int);
        assert(px * (out as u64) <= 0xffff * 0xffff_ffff) by (nonlinear_arith)
            requires
                px <= 0xffff,
                out <= 0xffff_ffff,
        ;
    }
    let v: u64 = (px * out as u64 + over / 2) / over;
    (v % 0x1_0000) as u16
}

/// The active area of the output, from that of the source.
pub fn remap_active_area(offsets: Offsets, g: Geometry) -> (r: Offsets)
    requires
        geometry_ok(g),
    ensures
        r == low_bits(remapped(offsets, g)),
{
    let c = match g.crop {
        Some(c) => c,
        None => Crop { w: g.width, h: g.height, x: 0, y: 0 },
    };
    let (out_w, out_h) = match g.scale {
        Some(s) => s,
        None => (c.w, c.h),
    };
    (
        fit_offset(offsets.0, c.x, c.w, out_w),
        fit_offset(offsets.1, g.width.saturating_sub(c.x + c.w), c.w, out_w),
        fit_offset(offsets.2, c.y, c.h, out_h),
        fit_offset(offsets.3, g.height.saturating_sub(c.y + c.h), c.h, out_h),
    )
}

/// The active area never leaves the picture, and without crop and scale it stays as it is,
/// as far as it lies within the picture.
pub proof fn law_active_area_stays_inside(offsets: Offsets, g: Geometry)
    requires
        geometry_ok(g),
    ensures
        ({
            let r = low_bits(remapped(offsets, g));
            let (out_w, out_h) = output_size(g);
            &&& r.0 <= out_w && r.1 <= out_w && r.2 <= out_h && r.3 <= out_h
            &&& g.crop is None && g.scale is None ==> {
                &&& r.0 == clamped(offsets.0, g.width)
                &&& r.1 == clamped(offsets.1, g.width)
                &&& r.2 == clamped(offsets.2, g.height)
                &&& r.3 == clamped(offsets.3, g.height)
            }
        }),
{
    let c = effective_crop(g);
    let (out_w, out_h) = output_size(g);
    lemma_fit(offsets.0 as int, c.x as int, c.w as int, out_w as int);
    lemma_fit(
        offsets.1 as int,
        crate::crop::beyond(g.width, c.x + c.w),
        c.w as int,
        out_w as int,
    );
    lemma_fit(offsets.2 as int, c.y as int, c.h as int, out_h as int);
    lemma_fit(
        offsets.3 as int,
        crate::crop::beyond(g.height, c.y + c.h),
        c.h as int,
        out_h as int,
    );
}

pub open spec fn clamped(v: u16, max: u32) -> int {
    if v <= max {
        v as int
    } else {
        max as int
    }
}

// ---------------------------------------------------------------------------
// Dolby Vision
// ---------------------------------------------------------------------------
#[verifier::external_type_specification]
#[verifier::external_body]
pub struct ExDoviRpu(DoviRpu);

#[verifier::external_type_specification]
#[verifier::external_body]
pub struct ExAnyhowError(anyhow::Error);

/// The metadata that a Dolby Vision NAL payload holds; None when it cannot be read.
pub uninterp spec fn rpu_parsed(data: Seq<u8>) -> Option<DoviRpu>;

/// The profile of Dolby Vision metadata.
pub uninterp spec fn rpu_profile(rpu: DoviRpu) -> u8;

/// Dolby Vision metadata after a conversion; None when it is refused.
pub uninterp spec fn rpu_converted(rpu: DoviRpu, mode: u8) -> Option<DoviRpu>;

/// The active area of Dolby Vision metadata, if it has one.
pub uninterp spec fn rpu_area(rpu: DoviRpu) -> Option<Offsets>;

/// Dolby Vision metadata with another active area; None when that is refused.
pub uninterp spec fn rpu_with_area(rpu: DoviRpu, area: Offsets) -> Option<DoviRpu>;

/// Dolby Vision metadata as an ITU-T T.35 message of AV1; None when it cannot be written.
pub uninterp spec fn rpu_message(rpu: DoviRpu) -> Option<Seq<u8>>;

/// `DoviRpu::parse_unspec62_nalu`: reads the metadata, a function of the bytes alone. It
/// panics on an interpolated polynomial, on a metadata block of level 8, 9 or 10 with a
/// length that it does not know, on a count that no memory can hold and on a code that
/// overflows 64 bits; an RPU with a shape has none of these.
#[verifier::external_body]
fn parse_rpu(data: &[u8]) -> (r: Result<DoviRpu, anyhow::Error>)
    requires
        rpu_shape(data@) is Some,
    ensures
        match r {
            Ok(rpu) => rpu_parsed(data@) == Some(rpu),
            Err(_) => rpu_parsed(data@) is None,
        },
{
    DoviRpu::parse_unspec62_nalu(data)
}

/// The field `dovi_profile` of `DoviRpu`.
#[verifier::external_body]
fn read_profile(rpu: &DoviRpu) -> (profile: u8)
    ensures
        profile == rpu_profile(*rpu),
{
    rpu.dovi_profile
}

/// `DoviRpu::convert_with_mode`, whose mode 2 makes profile 8.1 of profiles 5, 7 and 8. From
/// profile 7 that always succeeds, and the metadata blocks, the active area among them,
/// stay as they are.
#[verifier::external_body]
fn convert_rpu(rpu: &mut DoviRpu, mode: u8) -> (r: Result<(), anyhow::Error>)
    ensures
        match r {
            Ok(()) => rpu_converted(*old(rpu), mode) == Some(*final(rpu)),
            Err(_) => rpu_converted(*old(rpu), mode) is None,
        },
        mode == 2 && rpu_profile(*old(rpu)) == 7 ==> r is Ok && rpu_area(*final(rpu)) == rpu_area(
            *old(rpu),
        ),
{
    rpu.convert_with_mode(mode)
}

/// `VdrDmData::get_block` for level 5: the offsets of the first such block, where the
/// metadata has display management data at all.
#[verifier::external_body]
fn read_area(rpu: &DoviRpu) -> (area: Option<Offsets>)
    ensures
        area == rpu_area(*rpu),
{
    match rpu.vdr_dm_data.as_ref()?.get_block(5) {
        Some(dolby_vision::rpu::extension_metadata::blocks::ExtMetadataBlock::Level5(b)) => {
            Some((
                b.active_area_left_offset,
                b.active_area_right_offset,
                b.active_area_top_offset,
                b.active_area_bottom_offset,
            ))
        },
        _ => None,
    }
}

/// `DoviRpu::set_active_area_offsets`: replaces the blocks of level 5 by one with these
/// offsets. Where there was one, that is what is read afterwards.
#[verifier::external_body]
fn set_area(rpu: &mut DoviRpu, area: Offsets) -> (r: Result<(), anyhow::Error>)
    ensures
        match r {
            Ok(()) => rpu_with_area(*old(rpu), area) == Some(*final(rpu)),
            Err(_) => rpu_with_area(*old(rpu), area) is None,
        },
        rpu_area(*old(rpu)) is Some && r is Ok ==> rpu_area(*final(rpu)) == Some(area),
{
    rpu.set_active_area_offsets(area.0, area.1, area.2, area.3)
}

/// `DoviRpu::write_av1_rpu_metadata_obu_t35_complete`: the metadata as an ITU-T T.35
/// message, from the country code and the provider code of Dolby on. It panics where the
/// pieces of a mapping curve have more than one method and where a signed coefficient
/// overflows 64 bits, which is left out.
#[verifier::external_body]
fn write_rpu(rpu: &DoviRpu) -> (r: Result<Vec<u8>, anyhow::Error>)
    requires
        exists|data: Seq<u8>, area: Option<Offsets>| made_from(*rpu, data, area),
    ensures
        match r {
            Ok(message) => rpu_message(*rpu) == Some(message@),
            Err(_) => rpu_message(*rpu) is None,
        },
        r matches Ok(message) ==> message@.len() >= 3 && message@[0] == 0xB5 && message@[1] == 0x00
            && message@[2] == 0x3B,
{
    rpu.write_av1_rpu_metadata_obu_t35_complete()
}

/// The metadata that AV1 can carry: profiles 5 and 8 as they are, 7 converted to 8.1.
pub open spec fn carried_rpu(rpu: DoviRpu) -> Result<DoviRpu, HdrError> {
    let profile = rpu_profile(rpu);
    if profile == 5 || profile == 8 {
        Ok(rpu)
    } else if profile == 7 {
        match rpu_converted(rpu, 2) {
            Some(r) => Ok(r),
            None => Err(HdrError::ConvertRpu),
        }
    } else {
        Err(HdrError::NoAv1Form { profile })
    }
}

/// The metadata for the output picture: its active area follows crop and scale.
pub open spec fn placed_rpu(rpu: DoviRpu, g: Geometry) -> Result<DoviRpu, HdrError> {
    match rpu_area(rpu) {
        None => Ok(rpu),
        Some(area) => {
            let moved = low_bits(remapped(area, g));
            if moved == area {
                Ok(rpu)
            } else {
                match rpu_with_area(rpu, moved) {
                    Some(r) => Ok(r),
                    None => Err(HdrError::SetActiveArea),
                }
            }
        },
    }
}

/// Whether the active area, where there is one, is that of the output picture.
pub open spec fn area_follows(rpu: DoviRpu, g: Geometry) -> bool {
    rpu_area(rpu) matches Some(area) ==> placed_rpu(rpu, g) matches Ok(placed) && rpu_area(placed)
        == Some(low_bits(remapped(area, g)))
}

/// Whether `rpu` is what AV1 carries of the RPU in `data`, with this active area where one is
/// given, and can be written again.
pub open spec fn made_from(rpu: DoviRpu, data: Seq<u8>, area: Option<Offsets>) -> bool {
    &&& rpu_shape(data) matches Some(shape) && shape.can_be_rewritten()
    &&& rpu_parsed(data) matches Some(parsed) && carried_rpu(parsed) matches Ok(carried)
        && match area {
        Some(a) => rpu_with_area(carried, a) == Some(rpu),
        None => carried == rpu,
    }
}

/// The metadata of a Dolby Vision NAL payload, for the output picture.
pub open spec fn output_rpu(nal_payload: Seq<u8>, g: Geometry) -> Result<DoviRpu, HdrError> {
    match rpu_parsed(nal_payload) {
        None => Err(HdrError::ParseRpu),
        Some(rpu) => match carried_rpu(rpu) {
            Err(e) => Err(e),
            Ok(carried) => placed_rpu(carried, g),
        },
    }
}

/// The ITU-T T.35 message for a Dolby Vision NAL payload. One that cannot be read to its end
/// is refused, and so is a mapping that cannot be written again.
pub open spec fn dovi_message(nal_payload: Seq<u8>, g: Geometry) -> Result<Seq<u8>, HdrError> {
    match rpu_shape(nal_payload) {
        None => Err(HdrError::ParseRpu),
        Some(shape) => match output_rpu(nal_payload, g) {
            Err(e) => Err(e),
            Ok(rpu) => match rpu_message(rpu) {
                Some(m) if shape.can_be_rewritten() => Ok(m),
                _ => Err(HdrError::WriteRpu),
            },
        },
    }
}

/// What is to be done with metadata of this profile and active area.
#[derive(Clone, Copy, Debug)]
pub struct RpuPlan {
    /// Whether it has to be converted to profile 8.1.
    pub convert: bool,
    /// The active area that it has to be given, where that changes.
    pub area: Option<Offsets>,
}

/// What becomes of Dolby Vision metadata of this profile and active area on a picture.
pub fn plan_rpu(profile: u8, area: Option<Offsets>, geometry: Geometry) -> (r: Result<
    RpuPlan,
    HdrError,
>)
    requires
        geometry_ok(geometry),
    ensures
        match r {
            Ok(plan) => {
                &&& profile == 5 || profile == 7 || profile == 8
                &&& plan.convert == (profile == 7)
                &&& plan.area == match area {
                    Some(a) => if low_bits(remapped(a, geometry)) == a {
                        None
                    } else {
                        Some(low_bits(remapped(a, geometry)))
                    },
                    None => None,
                }
            },
            Err(e) => profile != 5 && profile != 7 && profile != 8 && e == (HdrError::NoAv1Form {
                profile,
            }),
        },
{
    if profile != 5 && profile != 7 && profile != 8 {
        return Err(HdrError::NoAv1Form { profile });
    }
    let moved = match area {
        Some(a) => {
            let m = remap_active_area(a, geometry);
            if m.0 == a.0 && m.1 == a.1 && m.2 == a.2 && m.3 == a.3 {
                None
            } else {
                Some(m)
            }
        },
        None => None,
    };
    Ok(RpuPlan { convert: profile == 7, area: moved })
}

/// The ITU-T T.35 message for a Dolby Vision NAL payload.
pub fn dovi_t35(nal_payload: &[u8], geometry: Geometry) -> (r: Result<Vec<u8>, HdrError>)
    requires
        geometry_ok(geometry),
    ensures
        match r {
            Ok(m) => dovi_message(nal_payload@, geometry) == Ok::<_, HdrError>(m@) && m@.len() >= 3
                && m@[0] == 0xB5 && m@[1] == 0x00 && m@[2] == 0x3B,
            Err(e) => dovi_message(nal_payload@, geometry) == Err::<Seq<u8>, _>(e),
        },
        r is Ok ==> area_follows(carried_rpu(rpu_parsed(nal_payload@)->0)->Ok_0, geometry),
{
    let shape = match read_shape(nal_payload) {
        Some(shape) => shape,
        None => {
            return Err(HdrError::ParseRpu);
        },
    };
    let mut rpu = match parse_rpu(nal_payload) {
        Ok(rpu) => rpu,
        Err(_) => {
            return Err(HdrError::ParseRpu);
        },
    };
    let profile: u8 = read_profile(&rpu);
    let plan = match plan_rpu(profile, None, geometry) {
        Ok(plan) => plan,
        Err(e) => {
            return Err(e);
        },
    };
    if plan.convert {
        match convert_rpu(&mut rpu, 2) {
            Ok(()) => {},
            Err(_) => {
                return Err(HdrError::ConvertRpu);
            },
        }
    }
    let area = read_area(&rpu);
    let placed = match plan_rpu(profile, area, geometry) {
        Ok(plan) => plan,
        Err(e) => {
            return Err(e);
        },
    };
    if let Some(moved) = placed.area {
        match set_area(&mut rpu, moved) {
            Ok(()) => {},
            Err(_) => {
                return Err(HdrError::SetActiveArea);
            },
        }
    }
    if !shape.rewritable() {
        return Err(HdrError::WriteRpu);
    }
    assert(made_from(rpu, nal_payload@, placed.area));
    match write_rpu(&rpu) {
        Ok(m) => Ok(m),
        Err(_) => Err(HdrError::WriteRpu),
    }
}

/// An HDR10+ message from the country code on.
pub open spec fn hdr10plus_message(st2094_40: Seq<u8>) -> Seq<u8> {
    hdr10plus_header() + st2094_40
}

/// The ITU-T T.35 messages of one frame: Dolby Vision, then HDR10+, each where it is carried
/// and the frame has it.
pub open spec fn frame_messages(
    dovi_rpu: Option<Seq<u8>>,
    hdr10plus: Option<Seq<u8>>,
    carry: DynamicHdr,
    g: Geometry,
) -> Result<Seq<Seq<u8>>, HdrError> {
    let plus = match hdr10plus {
        Some(m) => if carry.hdr10plus {
            seq![hdr10plus_message(m)]
        } else {
            Seq::empty()
        },
        None => Seq::empty(),
    };
    match dovi_rpu {
        Some(rpu) => if carry.dolby_vision {
            match dovi_message(rpu, g) {
                Err(e) => Err(e),
                Ok(m) => Ok(seq![m] + plus),
            }
        } else {
            Ok(plus)
        },
        None => Ok(plus),
    }
}

/// The HDR10+ message of a frame, from the country code on.
fn hdr10plus_t35(st2094_40: &[u8]) -> (m: Vec<u8>)
    ensures
        m@ == hdr10plus_message(st2094_40@),
{
    let mut m: Vec<u8> = Vec::new();
    m.push(0xB5);
    m.push(0x00);
    m.push(0x3C);
    m.push(0x00);
    m.push(0x01);
    m.push(0x04);
    assert(m@ =~= hdr10plus_header());
    crate::bytes::push_all(&mut m, st2094_40);
    m
}

fn push_message(messages: &mut Vec<Vec<u8>>, m: Vec<u8>)
    ensures
        crate::av1::byte_strings(final(messages)@) == crate::av1::byte_strings(old(messages)@).push(
            m@,
        ),
{
    messages.push(m);
    assert(crate::av1::byte_strings(messages@) =~= crate::av1::byte_strings(
        old(messages)@,
    ).push(m@));
}

/// The ITU-T T.35 messages of one frame, country code first, in the order that SVT-AV1
/// writes them.
pub fn t35_messages(frame: &FrameHdrMetadata, carry: DynamicHdr, geometry: Geometry) -> (r: Result<
    Vec<Vec<u8>>,
    HdrError,
>)
    requires
        geometry_ok(geometry),
    ensures
        ({
            let want = frame_messages(
                crate::hevc::message_view(frame.dovi_rpu),
                crate::hevc::message_view(frame.hdr10plus),
                carry,
                geometry,
            );
            match r {
                Ok(messages) => want == Ok::<_, HdrError>(crate::av1::byte_strings(messages@)),
                Err(e) => want == Err::<Seq<Seq<u8>>, _>(e),
            }
        }),
{
    let mut messages: Vec<Vec<u8>> = Vec::new();
    assert(crate::av1::byte_strings(messages@) =~= Seq::empty());
    if carry.dolby_vision {
        if let Some(rpu) = &frame.dovi_rpu {
            match dovi_t35(rpu.as_slice(), geometry) {
                Ok(m) => {
                    push_message(&mut messages, m);
                },
                Err(e) => {
                    return Err(e);
                },
            }
        }
    }
    if carry.hdr10plus {
        if let Some(st2094_40) = &frame.hdr10plus {
            push_message(&mut messages, hdr10plus_t35(st2094_40.as_slice()));
        }
    }
    proof {
        let want = frame_messages(
            crate::hevc::message_view(frame.dovi_rpu),
            crate::hevc::message_view(frame.hdr10plus),
            carry,
            geometry,
        );
        assert(want is Ok);
        assert(crate::av1::byte_strings(messages@) =~= want->Ok_0);
    }
    Ok(messages)
}

/// An HDR10+ message that was found in a stream is written as it is found again.
pub proof fn law_hdr10plus_message_starts_with_its_header(st2094_40: Seq<u8>)
    ensures
        hdr10plus_message(st2094_40).subrange(0, 6) == hdr10plus_header(),
        hdr10plus_message(st2094_40).subrange(
            6,
            hdr10plus_message(st2094_40).len() as int,
        ) == st2094_40,
{
    let m = hdr10plus_message(st2094_40);
    assert(m.subrange(0, 6) =~= hdr10plus_header());
    assert(m.subrange(6, m.len() as int) =~= st2094_40);
}

// ---------------------------------------------------------------------------
// ffprobe's names and the codes of ITU-T H.273
// ---------------------------------------------------------------------------
/// The code of color primaries.
pub open spec fn primaries_code(s: Seq<char>) -> Option<u32> {
    if s == "bt709"@ {
        Some(1)
    } else if s == "bt470m"@ {
        Some(4)
    } else if s == "bt470bg"@ {
        Some(5)
    } else if s == "smpte170m"@ {
        Some(6)
    } else if s == "smpte240m"@ {
        Some(7)
    } else if s == "film"@ {
        Some(8)
    } else if s == "bt2020"@ {
        Some(9)
    } else if s == "smpte428"@ {
        Some(10)
    } else if s == "smpte431"@ {
        Some(11)
    } else if s == "smpte432"@ {
        Some(12)
    } else if s == "ebu3213"@ {
        Some(22)
    } else {
        None
    }
}

pub fn map_color_primaries(s: &str) -> (r: Option<u32>)
    ensures
        r == primaries_code(s@),
{
    if same(s, "bt709") {
        Some(1)
    } else if same(s, "bt470m") {
        Some(4)
    } else if same(s, "bt470bg") {
        Some(5)
    } else if same(s, "smpte170m") {
        Some(6)
    } else if same(s, "smpte240m") {
        Some(7)
    } else if same(s, "film") {
        Some(8)
    } else if same(s, "bt2020") {
        Some(9)
    } else if same(s, "smpte428") {
        Some(10)
    } else if same(s, "smpte431") {
        Some(11)
    } else if same(s, "smpte432") {
        Some(12)
    } else if same(s, "ebu3213") {
        Some(22)
    } else {
        None
    }
}

/// The code of a transfer function, by the names that libavutil prints.
pub open spec fn transfer_code(s: Seq<char>) -> Option<u32> {
    if s == "bt709"@ {
        Some(1)
    } else if s == "bt470m"@ {
        Some(4)
    } else if s == "bt470bg"@ {
        Some(5)
    } else if s == "smpte170m"@ {
        Some(6)
    } else if s == "smpte240m"@ {
        Some(7)
    } else if s == "linear"@ {
        Some(8)
    } else if s == "log100"@ {
        Some(9)
    } else if s == "log316"@ {
        Some(10)
    } else if s == "iec61966-2-4"@ {
        Some(11)
    } else if s == "bt1361e"@ {
        Some(12)
    } else if s == "iec61966-2-1"@ {
        Some(13)
    } else if s == "bt2020-10"@ {
        Some(14)
    } else if s == "bt2020-12"@ {
        Some(15)
    } else if s == "smpte2084"@ {
        Some(16)
    } else if s == "smpte428"@ {
        Some(17)
    } else if s == "arib-std-b67"@ {
        Some(18)
    } else {
        None
    }
}

pub fn map_transfer(s: &str) -> (r: Option<u32>)
    ensures
        r == transfer_code(s@),
{
    if same(s, "bt709") {
        Some(1)
    } else if same(s, "bt470m") {
        Some(4)
    } else if same(s, "bt470bg") {
        Some(5)
    } else if same(s, "smpte170m") {
        Some(6)
    } else if same(s, "smpte240m") {
        Some(7)
    } else if same(s, "linear") {
        Some(8)
    } else if same(s, "log100") {
        Some(9)
    } else if same(s, "log316") {
        Some(10)
    } else if same(s, "iec61966-2-4") {
        Some(11)
    } else if same(s, "bt1361e") {
        Some(12)
    } else if same(s, "iec61966-2-1") {
        Some(13)
    } else if same(s, "bt2020-10") {
        Some(14)
    } else if same(s, "bt2020-12") {
        Some(15)
    } else if same(s, "smpte2084") {
        Some(16)
    } else if same(s, "smpte428") {
        Some(17)
    } else if same(s, "arib-std-b67") {
        Some(18)
    } else {
        None
    }
}

/// The code of matrix coefficients.
pub open spec fn matrix_code(s: Seq<char>) -> Option<u32> {
    if s == "gbr"@ {
        Some(0)
    } else if s == "bt709"@ {
        Some(1)
    } else if s == "fcc"@ {
        Some(4)
    } else if s == "bt470bg"@ {
        Some(5)
    } else if s == "smpte170m"@ {
        Some(6)
    } else if s == "smpte240m"@ {
        Some(7)
    } else if s == "ycgco"@ {
        Some(8)
    } else if s == "bt2020nc"@ {
        Some(9)
    } else if s == "bt2020c"@ {
        Some(10)
    } else if s == "smpte2085"@ {
        Some(11)
    } else if s == "chroma-derived-nc"@ {
        Some(12)
    } else if s == "chroma-derived-c"@ {
        Some(13)
    } else if s == "ictcp"@ {
        Some(14)
    } else {
        None
    }
}

pub fn map_matrix(s: &str) -> (r: Option<u32>)
    ensures
        r == matrix_code(s@),
{
    if same(s, "gbr") {
        Some(0)
    } else if same(s, "bt709") {
        Some(1)
    } else if same(s, "fcc") {
        Some(4)
    } else if same(s, "bt470bg") {
        Some(5)
    } else if same(s, "smpte170m") {
        Some(6)
    } else if same(s, "smpte240m") {
        Some(7)
    } else if same(s, "ycgco") {
        Some(8)
    } else if same(s, "bt2020nc") {
        Some(9)
    } else if same(s, "bt2020c") {
        Some(10)
    } else if same(s, "smpte2085") {
        Some(11)
    } else if same(s, "chroma-derived-nc") {
        Some(12)
    } else if same(s, "chroma-derived-c") {
        Some(13)
    } else if same(s, "ictcp") {
        Some(14)
    } else {
        None
    }
}

/// The chroma sample position of SVT-AV1: 1 is vertical, 2 is colocated. Others have no AV1
/// form.
pub open spec fn chroma_code(s: Seq<char>) -> Option<u32> {
    if s == "left"@ {
        Some(1)
    } else if s == "topleft"@ {
        Some(2)
    } else {
        None
    }
}

pub fn map_chroma(s: &str) -> (r: Option<u32>)
    ensures
        r == chroma_code(s@),
{
    if same(s, "left") {
        Some(1)
    } else if same(s, "topleft") {
        Some(2)
    } else {
        None
    }
}

/// The color range of SVT-AV1: 1 is full. Studio is the default and goes unsaid.
pub open spec fn range_code(s: Seq<char>) -> Option<u32> {
    if s == "pc"@ {
        Some(1)
    } else if s == "full"@ {
        Some(1)
    } else {
        None
    }
}

pub fn map_color_range(s: &str) -> (r: Option<u32>)
    ensures
        r == range_code(s@),
{
    if same(s, "pc") {
        Some(1)
    } else if same(s, "full") {
        Some(1)
    } else {
        None
    }
}


// ---------------------------------------------------------------------------
// What a probe reports
// ---------------------------------------------------------------------------
/// A value of a probe, which writes some numbers as strings.
#[derive(Debug)]
pub enum ProbeValue {
    Integer(i64),
    Text(String),
    Other,
}

/// A value as a number; 0 when it is none.
pub open spec fn value_number(v: ProbeValue) -> int {
    match v {
        ProbeValue::Integer(n) => n as int,
        ProbeValue::Text(s) => match signed(s@) {
            Some(n) => n,
            None => 0,
        },
        ProbeValue::Other => 0,
    }
}

pub fn val_to_i64(v: &ProbeValue) -> (n: i64)
    ensures
        n == value_number(*v),
{
    match v {
        ProbeValue::Integer(n) => *n,
        ProbeValue::Text(s) => {
            let chars = to_chars(s.as_str());
            match parse_signed(chars.as_slice()) {
                Some(n) => n,
                None => 0,
            }
        },
        ProbeValue::Other => 0,
    }
}

/// The coordinates and luminances of a mastering display, as decimal numbers.
#[derive(Debug)]
pub struct MasteringDisplay {
    pub green: (String, String),
    pub blue: (String, String),
    pub red: (String, String),
    pub white: (String, String),
    /// Maximum, then minimum.
    pub luminance: (String, String),
}

/// What a `MasteringDisplay` holds.
#[verifier::ext_equal]
pub struct MasteringView {
    pub green: (Seq<char>, Seq<char>),
    pub blue: (Seq<char>, Seq<char>),
    pub red: (Seq<char>, Seq<char>),
    pub white: (Seq<char>, Seq<char>),
    pub luminance: (Seq<char>, Seq<char>),
}

impl View for MasteringDisplay {
    type V = MasteringView;

    open spec fn view(&self) -> MasteringView {
        MasteringView {
            green: pair_view(self.green),
            blue: pair_view(self.blue),
            red: pair_view(self.red),
            white: pair_view(self.white),
            luminance: pair_view(self.luminance),
        }
    }
}

/// A piece of side data of a stream or a frame.
#[derive(Debug)]
pub struct SideData {
    pub side_data_type: String,
    pub max_content: Option<ProbeValue>,
    pub max_average: Option<ProbeValue>,
    /// Where all its values are there.
    pub mastering: Option<MasteringDisplay>,
    pub dv_profile: Option<ProbeValue>,
}

#[derive(Debug)]
pub struct ProbeStream {
    pub codec_name: String,
    pub color_primaries: String,
    pub color_transfer: String,
    pub color_space: String,
    pub chroma_location: String,
    pub color_range: String,
    pub side_data_list: Vec<SideData>,
}

/// The first video stream and the side data of its first frame.
#[derive(Debug)]
pub struct ProbeOutput {
    pub stream: Option<ProbeStream>,
    pub frame: Vec<SideData>,
}

#[derive(Debug)]
pub struct HdrInfo {
    pub codec_name: String,
    pub hdr_type: String,
    pub color_primaries: Option<u32>,
    pub transfer_characteristics: Option<u32>,
    pub matrix_coefficients: Option<u32>,
    pub chroma_sample_position: Option<u32>,
    /// JPEG's siting, which AV1 cannot signal but Matroska can.
    pub chroma_center: bool,
    /// Only set for full range.
    pub color_range: Option<u32>,
    pub content_light_level: Option<String>,
    pub mastering_display: Option<String>,
    /// The profile by the Dolby Vision configuration record, when there is one.
    pub dv_profile: Option<u32>,
    /// HDR10+ on the first frame; also set under Dolby Vision, which wins `hdr_type`.
    pub hdr10plus: bool,
}

impl Default for HdrInfo {
    fn default() -> (i: HdrInfo)
        ensures
            i.codec_name@ == Seq::<char>::empty(),
            i.hdr_type@ == Seq::<char>::empty(),
            i.color_primaries is None,
            i.transfer_characteristics is None,
            i.matrix_coefficients is None,
            i.chroma_sample_position is None,
            !i.chroma_center,
            i.color_range is None,
            i.content_light_level is None,
            i.mastering_display is None,
            i.dv_profile is None,
            !i.hdr10plus,
    {
        HdrInfo {
            codec_name: String::new(),
            hdr_type: String::new(),
            color_primaries: None,
            transfer_characteristics: None,
            matrix_coefficients: None,
            chroma_sample_position: None,
            chroma_center: false,
            color_range: None,
            content_light_level: None,
            mastering_display: None,
            dv_profile: None,
            hdr10plus: false,
        }
    }
}

/// A flag with a number, where there is one.
pub open spec fn number_arg(flag: Seq<char>, v: Option<u32>) -> Seq<Seq<char>> {
    match v {
        Some(n) => seq![flag, decimal(n as nat)],
        None => Seq::empty(),
    }
}

/// A flag with a text, where there is one.
pub open spec fn text_arg(flag: Seq<char>, v: Option<String>) -> Seq<Seq<char>> {
    match v {
        Some(s) => seq![flag, s@],
        None => Seq::empty(),
    }
}

/// The flags of the encoder for what is known of a video.
pub open spec fn color_flags(i: HdrInfo) -> Seq<Seq<char>> {
    number_arg("--color-primaries"@, i.color_primaries) + number_arg(
        "--transfer-characteristics"@,
        i.transfer_characteristics,
    ) + number_arg("--matrix-coefficients"@, i.matrix_coefficients) + number_arg(
        "--chroma-sample-position"@,
        i.chroma_sample_position,
    ) + number_arg("--color-range"@, i.color_range)
}

/// What the encoder is told of a video: the flags above, and the static metadata.
pub open spec fn encoder_flags(i: HdrInfo) -> Seq<Seq<char>> {
    color_flags(i) + text_arg("--content-light"@, i.content_light_level) + text_arg(
        "--mastering-display"@,
        i.mastering_display,
    )
}

pub open spec fn hdr_type_is_hdr(hdr_type: Seq<char>) -> bool {
    hdr_type.len() > 0 && hdr_type != "SDR"@
}

fn push_number_arg(args: &mut Vec<String>, flag: &str, v: Option<u32>)
    ensures
        strings(final(args)@) == strings(old(args)@) + number_arg(flag@, v),
{
    let ghost before = strings(args@);
    match v {
        Some(n) => {
            args.push(flag.to_owned());
            let value = decimal_string(n as u64);
            let ghost view = value@;
            args.push(value);
            assert(strings(args@) =~= before + seq![flag@, view]);
        },
        None => {
            assert(strings(args@) =~= before + Seq::<Seq<char>>::empty());
        },
    }
}

fn push_text_arg(args: &mut Vec<String>, flag: &str, v: &Option<String>)
    ensures
        strings(final(args)@) == strings(old(args)@) + text_arg(flag@, *v),
{
    let ghost before = strings(args@);
    match v {
        Some(s) => {
            args.push(flag.to_owned());
            args.push(s.clone());
            assert(strings(args@) =~= before + seq![flag@, s@]);
        },
        None => {
            assert(strings(args@) =~= before + Seq::<Seq<char>>::empty());
        },
    }
}

impl HdrInfo {
    pub fn is_hdr(&self) -> (r: bool)
        ensures
            r == hdr_type_is_hdr(self.hdr_type@),
    {
        !self.hdr_type.as_str().is_empty() && !same(self.hdr_type.as_str(), "SDR")
    }

    fn colour_args(&self) -> (args: Vec<String>)
        ensures
            strings(args@) == color_flags(*self),
    {
        let mut args: Vec<String> = Vec::new();
        assert(strings(args@) =~= Seq::empty());
        push_number_arg(&mut args, "--color-primaries", self.color_primaries);
        push_number_arg(&mut args, "--transfer-characteristics", self.transfer_characteristics);
        push_number_arg(&mut args, "--matrix-coefficients", self.matrix_coefficients);
        push_number_arg(&mut args, "--chroma-sample-position", self.chroma_sample_position);
        push_number_arg(&mut args, "--color-range", self.color_range);
        assert(strings(args@) =~= color_flags(*self));
        args
    }

    /// What the encoder is told; a flag for each thing that is known.
    pub fn encoder_args(&self) -> (args: Vec<String>)
        ensures
            strings(args@) == encoder_flags(*self),
    {
        let mut args = self.colour_args();
        push_text_arg(&mut args, "--content-light", &self.content_light_level);
        push_text_arg(&mut args, "--mastering-display", &self.mastering_display);
        args
    }

    /// The static metadata that an HDR video lacks. HLG has none by design.
    pub fn missing_static_metadata(&self) -> (missing: Vec<&'static str>)
        ensures
            ({
                let wants = hdr_type_is_hdr(self.hdr_type@) && self.hdr_type@ != "HLG"@;
                let light = wants && self.content_light_level is None;
                let display = wants && self.mastering_display is None;
                &&& missing@.len() == (if light {
                    1int
                } else {
                    0int
                }) + (if display {
                    1int
                } else {
                    0int
                })
                &&& light ==> missing@[0]@ == "MaxCLL/MaxFALL"@
                &&& display ==> missing@.last()@ == "Mastering Display"@
            }),
    {
        let mut missing: Vec<&'static str> = Vec::new();
        if self.is_hdr() && !same(self.hdr_type.as_str(), "HLG") {
            if self.content_light_level.is_none() {
                missing.push("MaxCLL/MaxFALL");
            }
            if self.mastering_display.is_none() {
                missing.push("Mastering Display");
            }
        }
        missing
    }
}

/// A character in lower case, if it is an ASCII letter.
pub open spec fn lower(c: char) -> char {
    if 'A' <= c <= 'Z' {
        ((c as u8) + 32) as char
    } else {
        c
    }
}

pub open spec fn lowered(s: Seq<char>) -> Seq<char> {
    Seq::new(s.len(), |i: int| lower(s[i]))
}

fn to_lower(s: &str) -> (v: Vec<char>)
    ensures
        v@ == lowered(s@),
{
    let chars = to_chars(s);
    let mut v: Vec<char> = Vec::new();
    let mut i: usize = 0;
    while i < chars.len()
        invariant
            chars@ == s@,
            i <= chars@.len(),
            v@.len() == i,
            forall|k: int| 0 <= k < i ==> #[trigger] v@[k] == lower(s@[k]),
        decreases chars@.len() - i,
    {
        let c = chars[i];
        let l: char = if 'A' <= c && c <= 'Z' {
            (c as u8 + 32) as char
        } else {
            c
        };
        v.push(l);
        i = i + 1;
    }
    assert(v@ =~= lowered(s@));
    v
}

/// Whether a frame has side data whose type names `needle`, in any case.
pub open spec fn has_side_type(side_data: Seq<SideData>, needle: Seq<char>) -> bool {
    exists|i: int|
        0 <= i < side_data.len() && occurs(
            lowered((#[trigger] side_data[i]).side_data_type@),
            needle,
        )
}

fn any_side_type(side_data: &Vec<SideData>, needle: &str) -> (r: bool)
    ensures
        r == has_side_type(side_data@, needle@),
{
    let mut i: usize = 0;
    while i < side_data.len()
        invariant
            i <= side_data@.len(),
            forall|k: int|
                0 <= k < i ==> !occurs(
                    lowered((#[trigger] side_data@[k]).side_data_type@),
                    needle@,
                ),
        decreases side_data@.len() - i,
    {
        let name = to_lower(side_data[i].side_data_type.as_str());
        if contains(name.as_slice(), needle) {
            return true;
        }
        i = i + 1;
    }
    false
}

/// The first Dolby Vision profile among side data, as its low 32 bits.
pub open spec fn first_profile(side_data: Seq<SideData>) -> Option<u32>
    decreases side_data.len(),
{
    if side_data.len() == 0 {
        None
    } else {
        match side_data[0].dv_profile {
            Some(v) => Some((value_number(v) % 0x1_0000_0000) as u32),
            None => first_profile(side_data.drop_first()),
        }
    }
}

/// A number modulo 2^32, as a cast has it.
fn low_u32(n: i64) -> (r: u32)
    ensures
        r == n as int % 0x1_0000_0000,
{
    assert((n as u32) as int == n as int % 0x1_0000_0000) by (bit_vector);
    #[verifier::truncate]
    let r: u32 = n as u32;
    r
}

fn find_profile(side_data: &Vec<SideData>) -> (r: Option<u32>)
    ensures
        r == first_profile(side_data@),
{
    let mut i: usize = 0;
    assert(side_data@.subrange(0, side_data@.len() as int) =~= side_data@);
    while i < side_data.len()
        invariant
            i <= side_data@.len(),
            first_profile(side_data@.subrange(i as int, side_data@.len() as int)) == first_profile(
                side_data@,
            ),
        decreases side_data@.len() - i,
    {
        let ghost rest = side_data@.subrange(i as int, side_data@.len() as int);
        assert(rest[0] == side_data@[i as int]);
        assert(rest.drop_first() =~= side_data@.subrange(i + 1, side_data@.len() as int));
        if let Some(v) = &side_data[i].dv_profile {
            return Some(low_u32(val_to_i64(v)));
        }
        i = i + 1;
    }
    None
}

/// The kind of HDR. Dolby Vision comes first, then HDR10+, then what the transfer says.
pub open spec fn kind_of_hdr(dolby: bool, hdr10plus: bool, color_transfer: Seq<char>) -> Seq<char> {
    if dolby {
        "Dolby Vision"@
    } else if hdr10plus {
        "HDR10+"@
    } else if color_transfer == "smpte2084"@ {
        "HDR10"@
    } else if color_transfer == "arib-std-b67"@ {
        "HLG"@
    } else {
        "SDR"@
    }
}

fn name_hdr(dolby: bool, hdr10plus: bool, color_transfer: &str) -> (s: String)
    ensures
        s@ == kind_of_hdr(dolby, hdr10plus, color_transfer@),
{
    let s: &str = if dolby {
        "Dolby Vision"
    } else if hdr10plus {
        "HDR10+"
    } else if same(color_transfer, "smpte2084") {
        "HDR10"
    } else if same(color_transfer, "arib-std-b67") {
        "HLG"
    } else {
        "SDR"
    };
    s.to_owned()
}

/// The content light level: maximum and average, of the first side data that has both.
pub open spec fn light_level(side_data: Seq<SideData>) -> Option<Seq<char>>
    decreases side_data.len(),
{
    if side_data.len() == 0 {
        None
    } else {
        match (side_data[0].max_content, side_data[0].max_average) {
            (Some(mc), Some(ma)) => Some(
                signed_decimal(value_number(mc)) + ","@ + signed_decimal(value_number(ma)),
            ),
            _ => light_level(side_data.drop_first()),
        }
    }
}

fn find_light_level(side_data: &Vec<SideData>) -> (r: Option<String>)
    ensures
        match r {
            Some(s) => light_level(side_data@) == Some(s@),
            None => light_level(side_data@) is None,
        },
{
    let mut i: usize = 0;
    assert(side_data@.subrange(0, side_data@.len() as int) =~= side_data@);
    while i < side_data.len()
        invariant
            i <= side_data@.len(),
            light_level(side_data@.subrange(i as int, side_data@.len() as int)) == light_level(
                side_data@,
            ),
        decreases side_data@.len() - i,
    {
        let ghost rest = side_data@.subrange(i as int, side_data@.len() as int);
        assert(rest[0] == side_data@[i as int]);
        assert(rest.drop_first() =~= side_data@.subrange(i + 1, side_data@.len() as int));
        if let (Some(mc), Some(ma)) = (&side_data[i].max_content, &side_data[i].max_average) {
            let mut s = String::new();
            push_signed(&mut s, val_to_i64(mc));
            s.append(",");
            push_signed(&mut s, val_to_i64(ma));
            assert(s@ =~= signed_decimal(value_number(*mc)) + ","@ + signed_decimal(
                value_number(*ma),
            ));
            return Some(s);
        }
        i = i + 1;
    }
    None
}

/// A pair of numbers behind a label, in brackets.
pub open spec fn labelled_pair(label: Seq<char>, a: Seq<char>, b: Seq<char>) -> Seq<char> {
    label + a + ","@ + b + ")"@
}

/// A mastering display as SVT-AV1 takes it.
pub open spec fn mastering_text(m: MasteringDisplay) -> Seq<char> {
    labelled_pair("G("@, m.green.0@, m.green.1@) + labelled_pair("B("@, m.blue.0@, m.blue.1@)
        + labelled_pair("R("@, m.red.0@, m.red.1@) + labelled_pair("WP("@, m.white.0@, m.white.1@)
        + labelled_pair("L("@, m.luminance.0@, m.luminance.1@)
}

fn push_pair(s: &mut String, label: &str, pair: &(String, String))
    ensures
        final(s)@ == old(s)@ + labelled_pair(label@, pair.0@, pair.1@),
{
    s.append(label);
    s.append(pair.0.as_str());
    s.append(",");
    s.append(pair.1.as_str());
    s.append(")");
    assert(s@ =~= old(s)@ + labelled_pair(label@, pair.0@, pair.1@));
}

/// The first mastering display among side data.
pub open spec fn first_mastering(side_data: Seq<SideData>) -> Option<Seq<char>>
    decreases side_data.len(),
{
    if side_data.len() == 0 {
        None
    } else {
        match side_data[0].mastering {
            Some(m) => Some(mastering_text(m)),
            None => first_mastering(side_data.drop_first()),
        }
    }
}

fn find_mastering(side_data: &Vec<SideData>) -> (r: Option<String>)
    ensures
        match r {
            Some(s) => first_mastering(side_data@) == Some(s@),
            None => first_mastering(side_data@) is None,
        },
{
    let mut i: usize = 0;
    assert(side_data@.subrange(0, side_data@.len() as int) =~= side_data@);
    while i < side_data.len()
        invariant
            i <= side_data@.len(),
            first_mastering(side_data@.subrange(i as int, side_data@.len() as int))
                == first_mastering(side_data@),
        decreases side_data@.len() - i,
    {
        let ghost rest = side_data@.subrange(i as int, side_data@.len() as int);
        assert(rest[0] == side_data@[i as int]);
        assert(rest.drop_first() =~= side_data@.subrange(i + 1, side_data@.len() as int));
        if let Some(m) = &side_data[i].mastering {
            let mut s = String::new();
            push_pair(&mut s, "G(", &m.green);
            push_pair(&mut s, "B(", &m.blue);
            push_pair(&mut s, "R(", &m.red);
            push_pair(&mut s, "WP(", &m.white);
            push_pair(&mut s, "L(", &m.luminance);
            assert(s@ =~= mastering_text(*m));
            return Some(s);
        }
        i = i + 1;
    }
    None
}

/// What `detect` makes of a stream and the side data of its first frame.
pub open spec fn hdr_matches(i: HdrInfo, s: ProbeStream, frame: Seq<SideData>) -> bool {
    &&& i.codec_name@ == s.codec_name@
    &&& i.color_primaries == primaries_code(s.color_primaries@)
    &&& i.transfer_characteristics == transfer_code(s.color_transfer@)
    &&& i.matrix_coefficients == matrix_code(s.color_space@)
    &&& i.chroma_sample_position == chroma_code(s.chroma_location@)
    &&& i.chroma_center == (s.chroma_location@ == "center"@)
    &&& i.color_range == range_code(s.color_range@)
    &&& i.dv_profile == first_profile(s.side_data_list@)
    &&& i.hdr10plus == has_side_type(frame, "hdr10+"@)
    &&& i.hdr_type@ == kind_of_hdr(
        i.dv_profile is Some || has_side_type(frame, "dolby"@),
        i.hdr10plus,
        s.color_transfer@,
    )
    &&& text_of(i.content_light_level) == light_level(frame)
    &&& text_of(i.mastering_display) == first_mastering(frame)
}

/// A stream that nothing is known of.
pub open spec fn unknown_stream(s: ProbeStream) -> bool {
    &&& s.codec_name@.len() == 0
    &&& s.color_primaries@.len() == 0
    &&& s.color_transfer@.len() == 0
    &&& s.color_space@.len() == 0
    &&& s.chroma_location@.len() == 0
    &&& s.color_range@.len() == 0
    &&& s.side_data_list@.len() == 0
}

/// The color description and HDR metadata that a probe reports.
pub fn detect(probe: &ProbeOutput) -> (info: HdrInfo)
    ensures
        match probe.stream {
            Some(s) => hdr_matches(info, s, probe.frame@),
            None => exists|s: ProbeStream| #[trigger]
                unknown_stream(s) && hdr_matches(info, s, probe.frame@),
        },
{
    match &probe.stream {
        Some(s) => describe(s, &probe.frame),
        None => {
            let s = ProbeStream {
                codec_name: String::new(),
                color_primaries: String::new(),
                color_transfer: String::new(),
                color_space: String::new(),
                chroma_location: String::new(),
                color_range: String::new(),
                side_data_list: Vec::new(),
            };
            let info = describe(&s, &probe.frame);
            assert(unknown_stream(s));
            info
        },
    }
}

fn describe(s: &ProbeStream, frame: &Vec<SideData>) -> (info: HdrInfo)
    ensures
        hdr_matches(info, *s, frame@),
{
    let dv_profile = find_profile(&s.side_data_list);
    let hdr10plus = any_side_type(frame, "hdr10+");
    let dolby = dv_profile.is_some() || any_side_type(frame, "dolby");
    HdrInfo {
        codec_name: s.codec_name.clone(),
        hdr_type: name_hdr(dolby, hdr10plus, s.color_transfer.as_str()),
        color_primaries: map_color_primaries(s.color_primaries.as_str()),
        transfer_characteristics: map_transfer(s.color_transfer.as_str()),
        matrix_coefficients: map_matrix(s.color_space.as_str()),
        chroma_sample_position: map_chroma(s.chroma_location.as_str()),
        chroma_center: same(s.chroma_location.as_str(), "center"),
        color_range: map_color_range(s.color_range.as_str()),
        content_light_level: find_light_level(frame),
        mastering_display: find_mastering(frame),
        dv_profile,
        hdr10plus,
    }
}

// ---------------------------------------------------------------------------
// What the muxer is told
// ---------------------------------------------------------------------------
/// The value of a flag among `--flag value` pairs, from pair `i` on.
pub open spec fn pair_value(args: Seq<Seq<char>>, flag: Seq<char>, i: int) -> Option<Seq<char>>
    decreases args.len() - 2 * i,
{
    if i < 0 || 2 * i + 1 >= args.len() {
        None
    } else if args[2 * i] == flag {
        Some(args[2 * i + 1])
    } else {
        pair_value(args, flag, i + 1)
    }
}

/// The value of a flag, as a number.
pub open spec fn pair_number(args: Seq<Seq<char>>, flag: Seq<char>) -> Option<nat> {
    match pair_value(args, flag, 0) {
        Some(v) => unsigned(v, u32::MAX as nat),
        None => None,
    }
}

fn find_value<'a>(args: &'a [String], flag: &str) -> (r: Option<&'a String>)
    ensures
        match r {
            Some(v) => pair_value(strings(args@), flag@, 0) == Some(v@),
            None => pair_value(strings(args@), flag@, 0) is None,
        },
{
    let ghost views = strings(args@);
    let len: usize = args.len();
    let mut i: usize = 0;
    while len >= 2 && i <= (len - 2) / 2
        invariant
            len == args@.len(),
            views == strings(args@),
            i <= len / 2,
            pair_value(views, flag@, i as int) == pair_value(views, flag@, 0),
        decreases len - i,
    {
        assert(views[2 * i] == args@[2 * i]@ && views[2 * i + 1] == args@[2 * i + 1]@);
        if same(args[2 * i].as_str(), flag) {
            return Some(&args[2 * i + 1]);
        }
        i = i + 1;
    }
    None
}

fn find_number(args: &[String], flag: &str) -> (r: Option<u32>)
    ensures
        match r {
            Some(n) => pair_number(strings(args@), flag@) == Some(n as nat),
            None => pair_number(strings(args@), flag@) is None,
        },
{
    match find_value(args, flag) {
        Some(v) => {
            let chars = to_chars(v.as_str());
            match parse_unsigned(chars.as_slice(), 0xffff_ffff) {
                Some(n) => Some(n as u32),
                None => None,
            }
        },
        None => None,
    }
}

/// An option of mkvmerge for a track.
pub open spec fn track_option(flag: Seq<char>, track: u32, value: Seq<char>) -> Seq<Seq<char>> {
    seq![flag, decimal(track as nat) + ":"@ + value]
}

pub open spec fn optional_number(flag: Seq<char>, track: u32, v: Option<nat>) -> Seq<Seq<char>> {
    match v {
        Some(n) => track_option(flag, track, decimal(n)),
        None => Seq::empty(),
    }
}

/// Studio range of SVT-AV1 is 0 and full 1; Matroska has 1 and 2. It is only told where the
/// colors are described at all.
pub open spec fn range_option(args: Seq<Seq<char>>, track: u32) -> Seq<Seq<char>> {
    if pair_number(args, "--color-primaries"@) is Some || pair_number(
        args,
        "--transfer-characteristics"@,
    ) is Some || pair_number(args, "--matrix-coefficients"@) is Some {
        track_option(
            "--color-range"@,
            track,
            if pair_number(args, "--color-range"@) == Some(1nat) {
                "2"@
            } else {
                "1"@
            },
        )
    } else {
        Seq::empty()
    }
}

/// Horizontal, then vertical: 1 is co-sited, 2 is half a sample off.
pub open spec fn siting_option(args: Seq<Seq<char>>, track: u32) -> Seq<Seq<char>> {
    if pair_number(args, "--chroma-sample-position"@) == Some(1nat) {
        track_option("--chroma-siting"@, track, "1,2"@)
    } else if pair_number(args, "--chroma-sample-position"@) == Some(2nat) {
        track_option("--chroma-siting"@, track, "1,1"@)
    } else {
        Seq::empty()
    }
}

/// The two sides of a comma, without the white space around them.
pub open spec fn comma_pair(s: Seq<char>) -> Option<(Seq<char>, Seq<char>)> {
    match first_at(s, ","@, 0) {
        Some(at) => Some(
            (trimmed(s.subrange(0, at)), trimmed(s.subrange(at + 1, s.len() as int))),
        ),
        None => None,
    }
}

pub open spec fn light_options(args: Seq<Seq<char>>, track: u32) -> Seq<Seq<char>> {
    match pair_value(args, "--content-light"@, 0) {
        Some(v) => match comma_pair(v) {
            Some((max_cll, max_fall)) => track_option("--max-content-light"@, track, max_cll)
                + track_option("--max-frame-light"@, track, max_fall),
            None => Seq::empty(),
        },
        None => Seq::empty(),
    }
}

/// The pair of texts behind the first `label` of `s`: up to the closing bracket, on both
/// sides of a comma.
pub open spec fn pair_behind(s: Seq<char>, label: Seq<char>) -> Option<(Seq<char>, Seq<char>)> {
    match first_at(s, label, 0) {
        None => None,
        Some(at) => {
            let rest = s.subrange(at + label.len(), s.len() as int);
            match first_at(rest, ")"@, 0) {
                None => None,
                Some(end) => comma_pair(rest.subrange(0, end)),
            }
        },
    }
}

/// The pair of numbers behind a label, as they are written.
pub open spec fn numbers_behind(s: Seq<char>, label: Seq<char>) -> Option<(Seq<char>, Seq<char>)> {
    match pair_behind(s, label) {
        Some((a, b)) => if reads_as_number(a) && reads_as_number(b) {
            Some((a, b))
        } else {
            None
        },
        None => None,
    }
}

/// A mastering display, as SVT-AV1 takes it; None where a number is missing.
pub open spec fn mastering_in(s: Seq<char>) -> Option<MasteringView> {
    match (
        numbers_behind(s, "G("@),
        numbers_behind(s, "B("@),
        numbers_behind(s, "R("@),
        numbers_behind(s, "WP("@),
        numbers_behind(s, "L("@),
    ) {
        (Some(green), Some(blue), Some(red), Some(white), Some(luminance)) => Some(
            MasteringView { green, blue, red, white, luminance },
        ),
        _ => None,
    }
}

/// The mastering display among the arguments of an encoder.
pub open spec fn mastering_of(args: Seq<Seq<char>>) -> Option<MasteringView> {
    match pair_value(args, "--mastering-display"@, 0) {
        Some(v) => mastering_in(v),
        None => None,
    }
}

pub open spec fn with_comma(pair: (Seq<char>, Seq<char>)) -> Seq<char> {
    pair.0 + ","@ + pair.1
}

pub open spec fn mastering_options(m: MasteringView, track: u32) -> Seq<Seq<char>> {
    track_option(
        "--chromaticity-coordinates"@,
        track,
        with_comma(m.red) + ","@ + with_comma(m.green) + ","@ + with_comma(m.blue),
    ) + track_option("--white-color-coordinates"@, track, with_comma(m.white)) + track_option(
        "--max-luminance"@,
        track,
        m.luminance.0,
    ) + track_option("--min-luminance"@, track, m.luminance.1)
}

/// The color flags of an encode as options of mkvmerge. The numbers of its mastering display
/// stand as they are `printed`, and as the encoder has them where they are not.
pub open spec fn color_options(
    args: Seq<Seq<char>>,
    track: u32,
    printed: Option<MasteringView>,
) -> Seq<Seq<char>> {
    optional_number(
        "--color-matrix-coefficients"@,
        track,
        pair_number(args, "--matrix-coefficients"@),
    ) + optional_number(
        "--color-transfer-characteristics"@,
        track,
        pair_number(args, "--transfer-characteristics"@),
    ) + optional_number("--color-primaries"@, track, pair_number(args, "--color-primaries"@))
        + range_option(args, track) + siting_option(args, track) + light_options(args, track)
        + match mastering_of(args) {
        Some(m) => mastering_options(
            match printed {
                Some(p) => p,
                None => m,
            },
            track,
        ),
        None => Seq::empty(),
    }
}

/// The view of an optional mastering display.
pub open spec fn mastering_view(m: Option<&MasteringDisplay>) -> Option<MasteringView> {
    match m {
        Some(m) => Some(m@),
        None => None,
    }
}

fn push_option(args: &mut Vec<String>, flag: &str, track: u32, value: &str)
    ensures
        strings(final(args)@) == strings(old(args)@) + track_option(flag@, track, value@),
{
    let ghost before = strings(args@);
    let mut v = String::new();
    push_decimal(&mut v, track as u64);
    v.append(":");
    v.append(value);
    assert(v@ =~= decimal(track as nat) + ":"@ + value@);
    let ghost view = v@;
    args.push(flag.to_owned());
    args.push(v);
    assert(strings(args@) =~= before + seq![flag@, view]);
}

fn push_optional_number(args: &mut Vec<String>, flag: &str, track: u32, v: Option<u32>)
    ensures
        strings(final(args)@) == strings(old(args)@) + optional_number(
            flag@,
            track,
            match v {
                Some(n) => Some(n as nat),
                None => None,
            },
        ),
{
    match v {
        Some(n) => {
            push_option(args, flag, track, decimal_string(n as u64).as_str());
        },
        None => {
            assert(strings(args@) =~= strings(args@) + Seq::<Seq<char>>::empty());
        },
    }
}

fn split_comma(s: &str) -> (r: Option<(String, String)>)
    ensures
        match r {
            Some((a, b)) => comma_pair(s@) == Some((a@, b@)),
            None => comma_pair(s@) is None,
        },
{
    let chars = to_chars(s);
    let comma = to_chars(",");
    proof {
        reveal_strlit(",");
    }
    let len: usize = chars.len();
    match find_from(chars.as_slice(), comma.as_slice(), 0) {
        Some(at) => {
            let a = trim(part(chars.as_slice(), 0, at).as_slice());
            let b = trim(part(chars.as_slice(), at + 1, len).as_slice());
            Some((from_chars(a.as_slice()), from_chars(b.as_slice())))
        },
        None => None,
    }
}

fn comma_text(pair: &(String, String)) -> (s: String)
    ensures
        s@ == with_comma(pair_view(*pair)),
{
    let mut s = String::new();
    s.append(pair.0.as_str());
    s.append(",");
    s.append(pair.1.as_str());
    assert(s@ =~= with_comma(pair_view(*pair)));
    s
}

fn push_mastering(args: &mut Vec<String>, m: &MasteringDisplay, track: u32)
    ensures
        strings(final(args)@) == strings(old(args)@) + mastering_options(m@, track),
{
    let ghost before = strings(args@);
    let mut rgb = comma_text(&m.red);
    rgb.append(",");
    rgb.append(comma_text(&m.green).as_str());
    rgb.append(",");
    rgb.append(comma_text(&m.blue).as_str());
    assert(rgb@ =~= with_comma(m@.red) + ","@ + with_comma(m@.green) + ","@ + with_comma(m@.blue));
    push_option(args, "--chromaticity-coordinates", track, rgb.as_str());
    push_option(args, "--white-color-coordinates", track, comma_text(&m.white).as_str());
    push_option(args, "--max-luminance", track, m.luminance.0.as_str());
    push_option(args, "--min-luminance", track, m.luminance.1.as_str());
    assert(strings(args@) =~= before + mastering_options(m@, track));
}

fn push_siting(args: &mut Vec<String>, encoder_args: &[String], track: u32)
    ensures
        strings(final(args)@) == strings(old(args)@) + siting_option(
            strings(encoder_args@),
            track,
        ),
{
    let ghost before = strings(args@);
    let siting = find_number(encoder_args, "--chroma-sample-position");
    if siting == Some(1u32) {
        push_option(args, "--chroma-siting", track, "1,2");
    } else if siting == Some(2u32) {
        push_option(args, "--chroma-siting", track, "1,1");
    } else {
        assert(strings(args@) =~= before + Seq::<Seq<char>>::empty());
    }
}

fn push_light(args: &mut Vec<String>, encoder_args: &[String], track: u32)
    ensures
        strings(final(args)@) == strings(old(args)@) + light_options(
            strings(encoder_args@),
            track,
        ),
{
    let ghost before = strings(args@);
    let found = match find_value(encoder_args, "--content-light") {
        Some(v) => split_comma(v.as_str()),
        None => None,
    };
    match found {
        Some((max_cll, max_fall)) => {
            push_option(args, "--max-content-light", track, max_cll.as_str());
            push_option(args, "--max-frame-light", track, max_fall.as_str());
            assert(strings(args@) =~= before + light_options(strings(encoder_args@), track));
        },
        None => {
            assert(strings(args@) =~= before + Seq::<Seq<char>>::empty());
        },
    }
}

/// The mastering display among the arguments of an encoder, its numbers as they are written
/// there; None unless the flag is among them with all five pairs of numbers.
pub fn mastering_texts(encoder_args: &[String]) -> (r: Option<MasteringDisplay>)
    ensures
        match r {
            Some(m) => mastering_of(strings(encoder_args@)) == Some(m@),
            None => mastering_of(strings(encoder_args@)) is None,
        },
{
    match find_value(encoder_args, "--mastering-display") {
        Some(v) => parse_mastering_display(v.as_str()),
        None => None,
    }
}

/// The color flags among `encoder_args` as options of mkvmerge for `track`. mkvmerge takes
/// none of them from an IVF input. The numbers of a mastering display among them stand as
/// they are `printed`, and as the encoder has them where they are not.
pub fn mkvmerge_colour_args(
    encoder_args: &[String],
    track: u32,
    printed: Option<&MasteringDisplay>,
) -> (args: Vec<String>)
    ensures
        strings(args@) == color_options(strings(encoder_args@), track, mastering_view(printed)),
{
    let matrix = find_number(encoder_args, "--matrix-coefficients");
    let transfer = find_number(encoder_args, "--transfer-characteristics");
    let primaries = find_number(encoder_args, "--color-primaries");
    let mut args: Vec<String> = Vec::new();
    assert(strings(args@) =~= Seq::empty());
    push_optional_number(&mut args, "--color-matrix-coefficients", track, matrix);
    push_optional_number(&mut args, "--color-transfer-characteristics", track, transfer);
    push_optional_number(&mut args, "--color-primaries", track, primaries);
    let ghost before = strings(args@);
    if primaries.is_some() || transfer.is_some() || matrix.is_some() {
        let full = find_number(encoder_args, "--color-range") == Some(1u32);
        push_option(
            &mut args,
            "--color-range",
            track,
            if full {
                "2"
            } else {
                "1"
            },
        );
    } else {
        assert(strings(args@) =~= before + Seq::<Seq<char>>::empty());
    }
    push_siting(&mut args, encoder_args, track);
    push_light(&mut args, encoder_args, track);
    match mastering_texts(encoder_args) {
        Some(m) => {
            let shown = match printed {
                Some(p) => p,
                None => &m,
            };
            push_mastering(&mut args, shown, track);
        },
        None => {
            assert(strings(args@) =~= strings(args@) + Seq::<Seq<char>>::empty());
        },
    }
    assert(strings(args@) =~= color_options(
        strings(encoder_args@),
        track,
        mastering_view(printed),
    ));
    args
}

fn read_pair(s: &[char], label: &str) -> (r: Option<(String, String)>)
    ensures
        match r {
            Some((a, b)) => pair_behind(s@, label@) == Some((a@, b@)),
            None => pair_behind(s@, label@) is None,
        },
{
    let l = to_chars(label);
    let close = to_chars(")");
    let len: usize = s.len();
    match find_from(s, l.as_slice(), 0) {
        None => None,
        Some(at) => {
            let rest = part(s, at + l.len(), len);
            match find_from(rest.as_slice(), close.as_slice(), 0) {
                None => None,
                Some(end) => {
                    let inner = from_chars(part(rest.as_slice(), 0, end).as_slice());
                    split_comma(inner.as_str())
                },
            }
        },
    }
}

fn read_numbers(s: &[char], label: &str) -> (r: Option<(String, String)>)
    ensures
        match r {
            Some(p) => numbers_behind(s@, label@) == Some(pair_view(p)),
            None => numbers_behind(s@, label@) is None,
        },
{
    match read_pair(s, label) {
        Some((a, b)) => {
            let x = to_chars(a.as_str());
            let y = to_chars(b.as_str());
            if is_number(x.as_slice()) && is_number(y.as_slice()) {
                Some((a, b))
            } else {
                None
            }
        },
        None => None,
    }
}

pub open spec fn pair_view(p: (String, String)) -> (Seq<char>, Seq<char>) {
    (p.0@, p.1@)
}

/// The numbers of a mastering display, as SVT-AV1 takes it; None when one is missing.
pub fn parse_mastering_display(s: &str) -> (r: Option<MasteringDisplay>)
    ensures
        match r {
            Some(m) => mastering_in(s@) == Some(m@),
            None => mastering_in(s@) is None,
        },
{
    let chars = to_chars(s);
    let green = read_numbers(chars.as_slice(), "G(");
    let blue = read_numbers(chars.as_slice(), "B(");
    let red = read_numbers(chars.as_slice(), "R(");
    let white = read_numbers(chars.as_slice(), "WP(");
    let luminance = read_numbers(chars.as_slice(), "L(");
    match (green, blue, red, white, luminance) {
        (Some(green), Some(blue), Some(red), Some(white), Some(luminance)) => Some(
            MasteringDisplay { green, blue, red, white, luminance },
        ),
        _ => None,
    }
}

// ---------------------------------------------------------------------------
// From the source to the muxer
// ---------------------------------------------------------------------------
/// The `k`th piece of side data is the first that reports both light levels.
pub open spec fn first_with_light(frame: Seq<SideData>, k: int) -> bool {
    &&& 0 <= k < frame.len()
    &&& frame[k].max_content is Some && frame[k].max_average is Some
    &&& forall|j: int|
        0 <= j < k ==> (#[trigger] frame[j]).max_content is None || frame[j].max_average is None
}

/// The `k`th piece of side data is the first that reports a mastering display.
pub open spec fn first_with_display(frame: Seq<SideData>, k: int) -> bool {
    &&& 0 <= k < frame.len()
    &&& frame[k].mastering is Some
    &&& forall|j: int| 0 <= j < k ==> (#[trigger] frame[j]).mastering is None
}

proof fn lemma_signed_decimal(n: int)
    ensures
        signed_decimal(n).len() > 0,
        forall|i: int|
            0 <= i < signed_decimal(n).len() ==> is_digit(#[trigger] signed_decimal(n)[i])
                || signed_decimal(n)[i] == '-',
{
    reveal_strlit("-");
    if n < 0 {
        law_decimal_round_trip((-n) as nat, (-n) as nat);
        let d = decimal((-n) as nat);
        assert forall|i: int| 0 <= i < signed_decimal(n).len() implies is_digit(
            #[trigger] signed_decimal(n)[i],
        ) || signed_decimal(n)[i] == '-' by {
            if i > 0 {
                assert(signed_decimal(n)[i] == d[i - 1]);
            }
        }
    } else {
        law_decimal_round_trip(n as nat, n as nat);
    }
}

/// The characters that a number is written with.
pub open spec fn number_char(c: char) -> bool {
    is_digit(c) || c == '-' || c == '.'
}

/// Text that is made of those.
pub open spec fn plain_text(a: Seq<char>) -> bool {
    a.len() > 0 && forall|i: int| 0 <= i < a.len() ==> number_char(#[trigger] a[i])
}

proof fn lemma_comma_pair(a: Seq<char>, b: Seq<char>)
    requires
        plain_text(a),
        plain_text(b),
    ensures
        comma_pair(a + ","@ + b) == Some((a, b)),
{
    reveal_strlit(",");
    let s = a + ","@ + b;
    let at = a.len() as int;
    assert(s.subrange(at, at + 1) =~= ","@);
    assert forall|k: int| 0 <= k < at implies !#[trigger] occurs_at(s, ","@, k) by {
        assert(number_char(a[k]));
        assert(s.subrange(k, k + 1)[0] == a[k]);
    }
    lemma_first_is(s, ","@, at);
    assert(s.subrange(0, at) =~= a);
    assert(s.subrange(at + 1, s.len() as int) =~= b);
    assert(number_char(a[0]) && number_char(a.last()) && number_char(b[0]) && number_char(b.last()));
    lemma_trimmed_whole(a);
    lemma_trimmed_whole(b);
}

/// Text that is `a`, a comma and `b`.
pub open spec fn written_pair(s: Seq<char>, a: Seq<char>, b: Seq<char>) -> bool {
    &&& s.len() == a.len() + 1 + b.len()
    &&& s.subrange(0, a.len() as int) == a
    &&& s[a.len() as int] == ','
    &&& s.subrange(a.len() as int + 1, s.len() as int) == b
}

proof fn lemma_written_pair(a: Seq<char>, b: Seq<char>)
    ensures
        written_pair(a + ","@ + b, a, b),
{
    reveal_strlit(",");
    let s = a + ","@ + b;
    assert(s.subrange(0, a.len() as int) =~= a);
    assert(s.subrange(a.len() as int + 1, s.len() as int) =~= b);
}

/// The content light level reads back as it was reported: in front of the comma stands the
/// maximum of the content, behind it the maximum of the frame averages, both of the first
/// side data that has them.
pub proof fn law_light_level_reads_back(frame: Seq<SideData>)
    ensures
        light_level(frame) is None <==> forall|k: int|
            0 <= k < frame.len() ==> (#[trigger] frame[k]).max_content is None
                || frame[k].max_average is None,
        forall|k: int| #[trigger]
            first_with_light(frame, k) ==> light_level(frame) is Some && comma_pair(
                light_level(frame)->0,
            ) == Some(
                (
                    signed_decimal(value_number(frame[k].max_content->0)),
                    signed_decimal(value_number(frame[k].max_average->0)),
                ),
            ) && written_pair(
                light_level(frame)->0,
                signed_decimal(value_number(frame[k].max_content->0)),
                signed_decimal(value_number(frame[k].max_average->0)),
            ),
    decreases frame.len(),
{
    if frame.len() > 0 {
        let rest = frame.drop_first();
        law_light_level_reads_back(rest);
        let first = frame[0];
        assert(forall|k: int| 0 <= k < rest.len() ==> #[trigger] rest[k] == frame[k + 1]);
        assert(forall|k: int| 1 <= k < frame.len() ==> #[trigger] frame[k] == rest[k - 1]);
        assert forall|k: int| #[trigger] first_with_light(frame, k) implies light_level(frame) is Some
            && comma_pair(light_level(frame)->0) == Some(
            (
                signed_decimal(value_number(frame[k].max_content->0)),
                signed_decimal(value_number(frame[k].max_average->0)),
            ),
        ) && written_pair(
            light_level(frame)->0,
            signed_decimal(value_number(frame[k].max_content->0)),
            signed_decimal(value_number(frame[k].max_average->0)),
        ) by {
            if k == 0 {
                let (a, b) = (value_number(first.max_content->0), value_number(first.max_average->0));
                lemma_signed_decimal(a);
                lemma_signed_decimal(b);
                lemma_comma_pair(signed_decimal(a), signed_decimal(b));
                lemma_written_pair(signed_decimal(a), signed_decimal(b));
            } else {
                assert(frame[0].max_content is None || frame[0].max_average is None);
                assert forall|j: int| 0 <= j < k - 1 implies (#[trigger] rest[j]).max_content is None
                    || rest[j].max_average is None by {
                    assert(rest[j] == frame[j + 1]);
                }
                assert(first_with_light(rest, k - 1));
            }
        }
        if first.max_content is None || first.max_average is None {
            assert(light_level(frame) == light_level(rest));
        } else {
            assert(light_level(frame) is Some);
        }
    }
}

proof fn lemma_pair_value_front(a: Seq<Seq<char>>, b: Seq<Seq<char>>, flag: Seq<char>, i: int)
    requires
        a.len() % 2 == 0,
        0 <= i,
        2 * i <= a.len(),
    ensures
        pair_value(a, flag, i) is Some ==> pair_value(a + b, flag, i) == pair_value(a, flag, i),
        pair_value(a, flag, i) is None ==> pair_value(a + b, flag, i) == pair_value(b, flag, 0),
    decreases a.len() - 2 * i,
{
    let all = a + b;
    if 2 * i < a.len() {
        assert(all[2 * i] == a[2 * i] && all[2 * i + 1] == a[2 * i + 1]);
        lemma_pair_value_front(a, b, flag, i + 1);
    } else {
        lemma_pair_value_back(a, b, flag, 0);
    }
}

proof fn lemma_pair_value_back(a: Seq<Seq<char>>, b: Seq<Seq<char>>, flag: Seq<char>, i: int)
    requires
        a.len() % 2 == 0,
        0 <= i,
    ensures
        pair_value(a + b, flag, a.len() / 2 + i) == pair_value(b, flag, i),
    decreases b.len() - 2 * i,
{
    let all = a + b;
    let k = a.len() / 2 + i;
    if 2 * i + 1 < b.len() {
        assert(all[2 * k] == b[2 * i] && all[2 * k + 1] == b[2 * i + 1]);
        if all[2 * k] != flag {
            lemma_pair_value_back(a, b, flag, i + 1);
        }
    }
}

/// One flag with its value, where there is one.
spec fn one_arg(flag: Seq<char>, v: Option<Seq<char>>) -> Seq<Seq<char>> {
    match v {
        Some(s) => seq![flag, s],
        None => Seq::empty(),
    }
}

proof fn lemma_one_arg(flag: Seq<char>, v: Option<Seq<char>>, name: Seq<char>)
    ensures
        one_arg(flag, v).len() % 2 == 0,
        pair_value(one_arg(flag, v), name, 0) == if flag == name {
            v
        } else {
            None
        },
        v matches Some(s) ==> gives(one_arg(flag, v), flag, s),
{
    let args = one_arg(flag, v);
    if let Some(s) = v {
        assert(args[0] == flag && args[1] == s);
        assert(pair_value(args, name, 1) is None);
        lemma_gives_at(args, 0);
    }
}

spec fn number_text(v: Option<u32>) -> Option<Seq<char>> {
    match v {
        Some(n) => Some(decimal(n as nat)),
        None => None,
    }
}

/// The flags of an encoder, in their order.
spec fn flag_name(k: int) -> Seq<char> {
    if k == 0 {
        "--color-primaries"@
    } else if k == 1 {
        "--transfer-characteristics"@
    } else if k == 2 {
        "--matrix-coefficients"@
    } else if k == 3 {
        "--chroma-sample-position"@
    } else if k == 4 {
        "--color-range"@
    } else if k == 5 {
        "--content-light"@
    } else {
        "--mastering-display"@
    }
}

spec fn flag_value(i: HdrInfo, k: int) -> Option<Seq<char>> {
    if k == 0 {
        number_text(i.color_primaries)
    } else if k == 1 {
        number_text(i.transfer_characteristics)
    } else if k == 2 {
        number_text(i.matrix_coefficients)
    } else if k == 3 {
        number_text(i.chroma_sample_position)
    } else if k == 4 {
        number_text(i.color_range)
    } else if k == 5 {
        text_of(i.content_light_level)
    } else {
        text_of(i.mastering_display)
    }
}

spec fn first_flags(i: HdrInfo, n: int) -> Seq<Seq<char>>
    decreases n,
{
    if n <= 0 {
        Seq::empty()
    } else {
        first_flags(i, n - 1) + one_arg(flag_name(n - 1), flag_value(i, n - 1))
    }
}

proof fn lemma_flag_names(j: int, k: int)
    requires
        0 <= j < 7,
        0 <= k < 7,
        j != k,
    ensures
        flag_name(j) != flag_name(k),
{
    reveal_strlit("--color-primaries");
    reveal_strlit("--transfer-characteristics");
    reveal_strlit("--matrix-coefficients");
    reveal_strlit("--chroma-sample-position");
    reveal_strlit("--color-range");
    reveal_strlit("--content-light");
    reveal_strlit("--mastering-display");
    let (a, b) = (flag_name(j), flag_name(k));
    // The lengths tell them apart, but for the last flag and the middle ones.
    assert(a.len() != b.len() || a[2] != b[2]);
}

proof fn lemma_first_flags(i: HdrInfo, n: int, k: int)
    requires
        0 <= n <= 7,
        0 <= k < 7,
    ensures
        first_flags(i, n).len() % 2 == 0,
        pair_value(first_flags(i, n), flag_name(k), 0) == if k < n {
            flag_value(i, k)
        } else {
            None
        },
        k < n && flag_value(i, k) is Some ==> gives(
            first_flags(i, n),
            flag_name(k),
            flag_value(i, k)->0,
        ),
    decreases n,
{
    if n > 0 {
        let front = first_flags(i, n - 1);
        let last = one_arg(flag_name(n - 1), flag_value(i, n - 1));
        lemma_first_flags(i, n - 1, k);
        lemma_one_arg(flag_name(n - 1), flag_value(i, n - 1), flag_name(k));
        lemma_pair_value_front(front, last, flag_name(k), 0);
        if k != n - 1 {
            lemma_flag_names(k, n - 1);
        }
        lemma_gives_joined(front, last);
    }
}

proof fn lemma_flags_are_listed(i: HdrInfo)
    ensures
        encoder_flags(i) == first_flags(i, 7),
{
    reveal_with_fuel(first_flags, 8);
    assert(encoder_flags(i) =~= first_flags(i, 7));
}

/// Each thing that is known of a video reaches the encoder with its own flag, and is found
/// there again; a thing that is not known is not told.
pub proof fn law_encoder_is_told_what_is_known(i: HdrInfo)
    ensures
        ({
            let args = encoder_flags(i);
            &&& told(args, "--color-primaries"@, i.color_primaries)
            &&& told(args, "--transfer-characteristics"@, i.transfer_characteristics)
            &&& told(args, "--matrix-coefficients"@, i.matrix_coefficients)
            &&& told(args, "--chroma-sample-position"@, i.chroma_sample_position)
            &&& told(args, "--color-range"@, i.color_range)
            &&& pair_value(args, "--content-light"@, 0) == text_of(i.content_light_level)
            &&& pair_value(args, "--mastering-display"@, 0) == text_of(i.mastering_display)
            &&& i.content_light_level matches Some(v) ==> gives(args, "--content-light"@, v@)
            &&& i.mastering_display matches Some(v) ==> gives(args, "--mastering-display"@, v@)
        }),
{
    lemma_flags_are_listed(i);
    lemma_first_flags(i, 7, 0);
    lemma_first_flags(i, 7, 1);
    lemma_first_flags(i, 7, 2);
    lemma_first_flags(i, 7, 3);
    lemma_first_flags(i, 7, 4);
    lemma_first_flags(i, 7, 5);
    lemma_first_flags(i, 7, 6);
    lemma_number_told(i.color_primaries);
    lemma_number_told(i.transfer_characteristics);
    lemma_number_told(i.matrix_coefficients);
    lemma_number_told(i.chroma_sample_position);
    lemma_number_told(i.color_range);
}

/// The encoder is given a number with this flag, which is found again; nothing without one.
pub open spec fn told(args: Seq<Seq<char>>, flag: Seq<char>, v: Option<u32>) -> bool {
    match v {
        Some(n) => gives(args, flag, decimal(n as nat)) && pair_number(args, flag) == Some(n as nat),
        None => pair_value(args, flag, 0) is None && pair_number(args, flag) is None,
    }
}

proof fn lemma_number_told(v: Option<u32>)
    ensures
        v matches Some(n) ==> unsigned(decimal(n as nat), u32::MAX as nat) == Some(n as nat),
{
    if let Some(n) = v {
        law_decimal_round_trip(n as nat, u32::MAX as nat);
    }
}

/// The light levels of a source reach the encoder and the muxer: the maximum of the content as
/// MaxCLL, that of the frame averages as MaxFALL.
pub proof fn law_light_level_reaches_the_muxer(
    i: HdrInfo,
    s: ProbeStream,
    frame: Seq<SideData>,
    k: int,
    track: u32,
    printed: Option<MasteringView>,
)
    requires
        hdr_matches(i, s, frame),
        first_with_light(frame, k),
    ensures
        ({
            let max_cll = signed_decimal(value_number(frame[k].max_content->0));
            let max_fall = signed_decimal(value_number(frame[k].max_average->0));
            let out = color_options(encoder_flags(i), track, printed);
            let id = decimal(track as nat) + ":"@;
            &&& i.content_light_level matches Some(v) && written_pair(v@, max_cll, max_fall)
                && gives(encoder_flags(i), "--content-light"@, v@)
            &&& gives(out, "--max-content-light"@, id + max_cll)
            &&& gives(out, "--max-frame-light"@, id + max_fall)
        }),
{
    let args = encoder_flags(i);
    law_light_level_reads_back(frame);
    law_encoder_is_told_what_is_known(i);
    let light = light_options(args, track);
    lemma_gives_at(light, 0);
    lemma_gives_at(light, 2);
    lemma_color_options(args, track, printed);
}

/// What a part of the options gives, all of them give.
#[verifier::rlimit(50)]
proof fn lemma_color_options(args: Seq<Seq<char>>, track: u32, printed: Option<MasteringView>)
    ensures
        forall|option: Seq<char>, value: Seq<char>| #[trigger]
            gives(light_options(args, track), option, value) ==> gives(
                color_options(args, track, printed),
                option,
                value,
            ),
        forall|option: Seq<char>, value: Seq<char>| #[trigger]
            gives(color_numbers(args, track), option, value) ==> gives(
                color_options(args, track, printed),
                option,
                value,
            ),
        forall|option: Seq<char>, value: Seq<char>| #[trigger]
            gives(range_option(args, track), option, value) ==> gives(
                color_options(args, track, printed),
                option,
                value,
            ),
        forall|option: Seq<char>, value: Seq<char>| #[trigger]
            gives(siting_option(args, track), option, value) ==> gives(
                color_options(args, track, printed),
                option,
                value,
            ),
        forall|m: MasteringView, option: Seq<char>, value: Seq<char>|
            mastering_of(args) is Some && m == (match printed {
                Some(p) => p,
                None => mastering_of(args)->0,
            }) && #[trigger] gives(mastering_options(m, track), option, value) ==> gives(
                color_options(args, track, printed),
                option,
                value,
            ),
{
    let numbers = color_numbers(args, track);
    let range = range_option(args, track);
    let siting = siting_option(args, track);
    let light = light_options(args, track);
    let last = match mastering_of(args) {
        Some(m) => mastering_options(
            match printed {
                Some(p) => p,
                None => m,
            },
            track,
        ),
        None => Seq::empty(),
    };
    lemma_gives_joined(numbers, range);
    lemma_gives_joined(numbers + range, siting);
    lemma_gives_joined(numbers + range + siting, light);
    lemma_gives_joined(numbers + range + siting + light, last);
    assert(color_options(args, track, printed) == numbers + range + siting + light + last);
}

/// The three codes of the color description.
spec fn color_numbers(args: Seq<Seq<char>>, track: u32) -> Seq<Seq<char>> {
    optional_number(
        "--color-matrix-coefficients"@,
        track,
        pair_number(args, "--matrix-coefficients"@),
    ) + optional_number(
        "--color-transfer-characteristics"@,
        track,
        pair_number(args, "--transfer-characteristics"@),
    ) + optional_number("--color-primaries"@, track, pair_number(args, "--color-primaries"@))
}

/// The color description that the encoder is told is what the muxer is told.
#[verifier::rlimit(50)]
pub proof fn law_color_description_reaches_the_muxer(
    i: HdrInfo,
    track: u32,
    printed: Option<MasteringView>,
)
    ensures
        ({
            let out = color_options(encoder_flags(i), track, printed);
            let id = decimal(track as nat) + ":"@;
            &&& i.matrix_coefficients matches Some(n) ==> gives(
                out,
                "--color-matrix-coefficients"@,
                id + decimal(n as nat),
            )
            &&& i.transfer_characteristics matches Some(n) ==> gives(
                out,
                "--color-transfer-characteristics"@,
                id + decimal(n as nat),
            )
            &&& i.color_primaries matches Some(n) ==> gives(
                out,
                "--color-primaries"@,
                id + decimal(n as nat),
            )
            &&& i.matrix_coefficients is Some || i.transfer_characteristics is Some
                || i.color_primaries is Some ==> gives(
                out,
                "--color-range"@,
                id + if i.color_range == Some(1u32) {
                    "2"@
                } else {
                    "1"@
                },
            )
            &&& i.chroma_sample_position == Some(1u32) ==> gives(
                out,
                "--chroma-siting"@,
                id + "1,2"@,
            )
            &&& i.chroma_sample_position == Some(2u32) ==> gives(
                out,
                "--chroma-siting"@,
                id + "1,1"@,
            )
        }),
{
    let args = encoder_flags(i);
    law_encoder_is_told_what_is_known(i);
    let matrix = optional_number(
        "--color-matrix-coefficients"@,
        track,
        pair_number(args, "--matrix-coefficients"@),
    );
    let transfer = optional_number(
        "--color-transfer-characteristics"@,
        track,
        pair_number(args, "--transfer-characteristics"@),
    );
    let primaries = optional_number(
        "--color-primaries"@,
        track,
        pair_number(args, "--color-primaries"@),
    );
    lemma_color_options(args, track, printed);
    lemma_gives_joined(matrix, transfer);
    lemma_gives_joined(matrix + transfer, primaries);
    lemma_gives_at(matrix, 0);
    lemma_gives_at(transfer, 0);
    lemma_gives_at(primaries, 0);
    lemma_gives_at(range_option(args, track), 0);
    lemma_gives_at(siting_option(args, track), 0);
    let id = decimal(track as nat) + ":"@;
    assert(color_numbers(args, track) == matrix + transfer + primaries);
    if let Some(n) = i.matrix_coefficients {
        assert(gives(matrix, "--color-matrix-coefficients"@, id + decimal(n as nat)));
    }
    if let Some(n) = i.transfer_characteristics {
        assert(gives(transfer, "--color-transfer-characteristics"@, id + decimal(n as nat)));
    }
    if let Some(n) = i.color_primaries {
        assert(gives(primaries, "--color-primaries"@, id + decimal(n as nat)));
    }
    assert((pair_number(args, "--color-range"@) == Some(1nat)) == (i.color_range == Some(1u32)));
    if i.matrix_coefficients is Some || i.transfer_characteristics is Some
        || i.color_primaries is Some {
        let range = range_option(args, track);
        assert(range[0] == "--color-range"@);
        assert(range[1] == id + if i.color_range == Some(1u32) {
            "2"@
        } else {
            "1"@
        });
        assert(gives(range, range[0], range[1]));
    }
    if i.chroma_sample_position == Some(1u32) {
        assert(gives(siting_option(args, track), "--chroma-siting"@, id + "1,2"@));
    }
    if i.chroma_sample_position == Some(2u32) {
        assert(gives(siting_option(args, track), "--chroma-siting"@, id + "1,1"@));
    }
}

spec fn lacks(s: Seq<char>, c: char) -> bool {
    forall|k: int| 0 <= k < s.len() ==> #[trigger] s[k] != c
}

proof fn lemma_pair_lacks(label: Seq<char>, a: Seq<char>, b: Seq<char>, c: char)
    requires
        plain_text(a),
        plain_text(b),
        lacks(label, c),
        'A' <= c <= 'Z',
    ensures
        lacks(labelled_pair(label, a, b), c),
{
    reveal_strlit(",");
    reveal_strlit(")");
    let s = labelled_pair(label, a, b);
    let (x, y) = (label.len() as int, label.len() + a.len() as int);
    assert forall|k: int| 0 <= k < s.len() implies #[trigger] s[k] != c by {
        if k < x {
            assert(s[k] == label[k]);
        } else if k < y {
            assert(s[k] == a[k - x]);
            assert(number_char(a[k - x]));
        } else if k == y {
            assert(s[k] == ',');
        } else if k < y + 1 + b.len() {
            assert(s[k] == b[k - y - 1]);
            assert(number_char(b[k - y - 1]));
        } else {
            assert(s[k] == ')');
        }
    }
}

proof fn lemma_lacks_joined(a: Seq<char>, b: Seq<char>, c: char)
    requires
        lacks(a, c),
        lacks(b, c),
    ensures
        lacks(a + b, c),
{
    assert forall|k: int| 0 <= k < (a + b).len() implies #[trigger] (a + b)[k] != c by {
        if k < a.len() {
            assert((a + b)[k] == a[k]);
        } else {
            assert((a + b)[k] == b[k - a.len()]);
        }
    }
}

proof fn lemma_pair_behind(
    front: Seq<char>,
    label: Seq<char>,
    a: Seq<char>,
    b: Seq<char>,
    back: Seq<char>,
)
    requires
        label.len() > 0,
        lacks(front, label[0]),
        plain_text(a),
        plain_text(b),
    ensures
        pair_behind(front + labelled_pair(label, a, b) + back, label) == Some((a, b)),
{
    reveal_strlit(",");
    reveal_strlit(")");
    let s = front + labelled_pair(label, a, b) + back;
    let at = front.len() as int;
    assert(s.subrange(at, at + label.len()) =~= label);
    assert forall|k: int| 0 <= k < at implies !#[trigger] occurs_at(s, label, k) by {
        assert(s[k] == front[k]);
        if occurs_at(s, label, k) {
            assert(s.subrange(k, k + label.len())[0] == front[k]);
        }
    }
    lemma_first_is(s, label, at);
    let inner = a + ","@ + b;
    let rest = s.subrange(at + label.len(), s.len() as int);
    assert(rest =~= inner + ")"@ + back);
    let end = inner.len() as int;
    assert(rest.subrange(end, end + 1) =~= ")"@);
    assert forall|k: int| 0 <= k < end implies !#[trigger] occurs_at(rest, ")"@, k) by {
        assert(rest.subrange(k, k + 1)[0] == inner[k]);
        if k < a.len() {
            assert(inner[k] == a[k] && number_char(a[k]));
        } else if k > a.len() {
            assert(inner[k] == b[k - a.len() - 1] && number_char(b[k - a.len() - 1]));
        }
    }
    lemma_first_is(rest, ")"@, end);
    assert(rest.subrange(0, end) =~= inner);
    lemma_comma_pair(a, b);
}

/// A text that is a number, written without an exponent.
pub open spec fn plain_number(a: Seq<char>) -> bool {
    plain_text(a) && reads_as_number(a)
}

pub open spec fn plain_pair(p: (Seq<char>, Seq<char>)) -> bool {
    plain_number(p.0) && plain_number(p.1)
}

/// All numbers of a mastering display are written that way.
pub open spec fn plain_display(m: MasteringView) -> bool {
    plain_pair(m.green) && plain_pair(m.blue) && plain_pair(m.red) && plain_pair(m.white)
        && plain_pair(m.luminance)
}

/// A mastering display that is written for the encoder reads back: each of its points and
/// luminances is what it was.
#[verifier::rlimit(50)]
pub proof fn law_mastering_display_round_trip(m: MasteringDisplay)
    requires
        plain_display(m@),
    ensures
        mastering_in(mastering_text(m)) == Some(m@),
{
    reveal_strlit("G(");
    reveal_strlit("B(");
    reveal_strlit("R(");
    reveal_strlit("WP(");
    reveal_strlit("L(");
    let g = labelled_pair("G("@, m.green.0@, m.green.1@);
    let b = labelled_pair("B("@, m.blue.0@, m.blue.1@);
    let r = labelled_pair("R("@, m.red.0@, m.red.1@);
    let w = labelled_pair("WP("@, m.white.0@, m.white.1@);
    let l = labelled_pair("L("@, m.luminance.0@, m.luminance.1@);
    let s = mastering_text(m);
    assert(s == g + b + r + w + l);
    let none = Seq::<char>::empty();
    assert(s =~= none + g + (b + r + w + l));
    assert(s =~= g + b + (r + w + l));
    assert(s =~= (g + b) + r + (w + l));
    assert(s =~= (g + b + r) + w + l);
    assert(s =~= (g + b + r + w) + l + none);
    lemma_pair_behind(none, "G("@, m.green.0@, m.green.1@, b + r + w + l);
    lemma_pair_lacks("G("@, m.green.0@, m.green.1@, 'B');
    lemma_pair_behind(g, "B("@, m.blue.0@, m.blue.1@, r + w + l);
    lemma_pair_lacks("G("@, m.green.0@, m.green.1@, 'R');
    lemma_pair_lacks("B("@, m.blue.0@, m.blue.1@, 'R');
    lemma_lacks_joined(g, b, 'R');
    lemma_pair_behind(g + b, "R("@, m.red.0@, m.red.1@, w + l);
    lemma_pair_lacks("G("@, m.green.0@, m.green.1@, 'W');
    lemma_pair_lacks("B("@, m.blue.0@, m.blue.1@, 'W');
    lemma_pair_lacks("R("@, m.red.0@, m.red.1@, 'W');
    lemma_lacks_joined(g, b, 'W');
    lemma_lacks_joined(g + b, r, 'W');
    lemma_pair_behind(g + b + r, "WP("@, m.white.0@, m.white.1@, l);
    lemma_pair_lacks("G("@, m.green.0@, m.green.1@, 'L');
    lemma_pair_lacks("B("@, m.blue.0@, m.blue.1@, 'L');
    lemma_pair_lacks("R("@, m.red.0@, m.red.1@, 'L');
    lemma_pair_lacks("WP("@, m.white.0@, m.white.1@, 'L');
    lemma_lacks_joined(g, b, 'L');
    lemma_lacks_joined(g + b, r, 'L');
    lemma_lacks_joined(g + b + r, w, 'L');
    lemma_pair_behind(g + b + r + w, "L("@, m.luminance.0@, m.luminance.1@, none);
}

proof fn lemma_first_mastering(frame: Seq<SideData>, k: int)
    requires
        first_with_display(frame, k),
    ensures
        first_mastering(frame) == Some(mastering_text(frame[k].mastering->0)),
    decreases k,
{
    if k > 0 {
        let rest = frame.drop_first();
        assert(frame[0].mastering is None);
        assert forall|j: int| 0 <= j < k - 1 implies (#[trigger] rest[j]).mastering is None by {
            assert(rest[j] == frame[j + 1]);
        }
        assert(rest[k - 1] == frame[k]);
        lemma_first_mastering(rest, k - 1);
    }
}

/// The mastering display of a source reaches the encoder and the muxer: the first that is
/// reported, red in front of green and blue, and each luminance as itself.
pub proof fn law_mastering_display_reaches_the_muxer(
    i: HdrInfo,
    s: ProbeStream,
    frame: Seq<SideData>,
    k: int,
    track: u32,
)
    requires
        hdr_matches(i, s, frame),
        first_with_display(frame, k),
        plain_display(frame[k].mastering->0@),
    ensures
        ({
            let m = frame[k].mastering->0@;
            let out = color_options(encoder_flags(i), track, None);
            let id = decimal(track as nat) + ":"@;
            &&& i.mastering_display matches Some(v) && mastering_in(v@) == Some(m) && gives(
                encoder_flags(i),
                "--mastering-display"@,
                v@,
            )
            &&& mastering_of(encoder_flags(i)) == Some(m)
            &&& gives(
                out,
                "--chromaticity-coordinates"@,
                id + (m.red.0 + ","@ + m.red.1 + ","@ + (m.green.0 + ","@ + m.green.1) + ","@ + (
                m.blue.0 + ","@ + m.blue.1)),
            )
            &&& gives(out, "--white-color-coordinates"@, id + (m.white.0 + ","@ + m.white.1))
            &&& gives(out, "--max-luminance"@, id + m.luminance.0)
            &&& gives(out, "--min-luminance"@, id + m.luminance.1)
        }),
{
    let args = encoder_flags(i);
    let m = frame[k].mastering->0@;
    law_encoder_is_told_what_is_known(i);
    lemma_first_mastering(frame, k);
    law_mastering_display_round_trip(frame[k].mastering->0);
    lemma_color_options(args, track, None);
    let words = mastering_options(m, track);
    lemma_gives_at(words, 0);
    lemma_gives_at(words, 2);
    lemma_gives_at(words, 4);
    lemma_gives_at(words, 6);
    assert(gives(words, words[0], words[1]));
    assert(gives(words, words[2], words[3]));
    assert(gives(words, words[4], words[5]));
    assert(gives(words, words[6], words[7]));
}

/// What is not reported is not told: without a mastering display or light levels in the side
/// data of the first frame, the encoder gets neither.
pub proof fn law_nothing_is_made_up(i: HdrInfo, s: ProbeStream, frame: Seq<SideData>)
    requires
        hdr_matches(i, s, frame),
    ensures
        i.content_light_level is None <==> forall|k: int|
            0 <= k < frame.len() ==> (#[trigger] frame[k]).max_content is None
                || frame[k].max_average is None,
        i.mastering_display is None <==> forall|k: int|
            0 <= k < frame.len() ==> (#[trigger] frame[k]).mastering is None,
        i.dv_profile is None <==> forall|k: int|
            0 <= k < s.side_data_list@.len() ==> (
            #[trigger] s.side_data_list@[k]).dv_profile is None,
{
    law_light_level_reads_back(frame);
    lemma_no_mastering(frame);
    lemma_first_profile(s.side_data_list@);
}

proof fn lemma_no_mastering(frame: Seq<SideData>)
    ensures
        first_mastering(frame) is None <==> forall|k: int|
            0 <= k < frame.len() ==> (#[trigger] frame[k]).mastering is None,
    decreases frame.len(),
{
    if frame.len() > 0 {
        let rest = frame.drop_first();
        lemma_no_mastering(rest);
        assert(forall|k: int| 0 <= k < rest.len() ==> #[trigger] rest[k] == frame[k + 1]);
        assert(forall|k: int| 1 <= k < frame.len() ==> #[trigger] frame[k] == rest[k - 1]);
        if first_mastering(frame) is Some && frame[0].mastering is None {
            let k = choose|k: int| 0 <= k < rest.len() && !((#[trigger] rest[k]).mastering is None);
            assert(!(frame[k + 1].mastering is None));
        }
    }
}

proof fn lemma_first_profile(list: Seq<SideData>)
    ensures
        first_profile(list) is None <==> forall|k: int|
            0 <= k < list.len() ==> (#[trigger] list[k]).dv_profile is None,
    decreases list.len(),
{
    if list.len() > 0 {
        let rest = list.drop_first();
        lemma_first_profile(rest);
        assert(forall|k: int| 0 <= k < rest.len() ==> #[trigger] rest[k] == list[k + 1]);
        assert(forall|k: int| 1 <= k < list.len() ==> #[trigger] list[k] == rest[k - 1]);
        if first_profile(list) is Some && list[0].dv_profile is None {
            let k = choose|k: int| 0 <= k < rest.len() && !((#[trigger] rest[k]).dv_profile is None);
            assert(!(list[k + 1].dv_profile is None));
        }
    }
}

/// No two names of a thing share a code, and a code is one of ITU-T H.273: neither
/// unspecified nor reserved.
pub proof fn law_color_codes_tell_names_apart(a: Seq<char>, b: Seq<char>)
    ensures
        primaries_code(a) is Some && primaries_code(a) == primaries_code(b) ==> a == b,
        transfer_code(a) is Some && transfer_code(a) == transfer_code(b) ==> a == b,
        matrix_code(a) is Some && matrix_code(a) == matrix_code(b) ==> a == b,
        primaries_code(a) matches Some(n) ==> n != 0 && n != 2 && n != 3,
        transfer_code(a) matches Some(n) ==> n != 0 && n != 2 && n != 3,
        matrix_code(a) matches Some(n) ==> n != 2 && n != 3,
{
}

/// The active area of the output is that of the source: what the crop cuts off an edge comes
/// off the offset from it, and the rest is scaled with the picture, to the nearest pixel.
pub proof fn law_active_area_follows_the_picture(offsets: Offsets, g: Geometry)
    requires
        geometry_ok(g),
        ({
            let c = effective_crop(g);
            &&& c.w > 0 && c.h > 0
            &&& c.x + c.w <= g.width && c.y + c.h <= g.height
            &&& c.x <= offsets.0 <= c.x + c.w
            &&& g.width - c.x - c.w <= offsets.1 <= g.width - c.x
            &&& c.y <= offsets.2 <= c.y + c.h
            &&& g.height - c.y - c.h <= offsets.3 <= g.height - c.y
            &&& output_size(g).0 <= u16::MAX && output_size(g).1 <= u16::MAX
        }),
    ensures
        ({
            let c = effective_crop(g);
            let r = low_bits(remapped(offsets, g));
            let (w, h) = output_size(g);
            &&& nearest(r.0 as int, (offsets.0 - c.x) * w, c.w as int)
            &&& nearest(r.1 as int, (offsets.1 - (g.width - c.x - c.w)) * w, c.w as int)
            &&& nearest(r.2 as int, (offsets.2 - c.y) * h, c.h as int)
            &&& nearest(r.3 as int, (offsets.3 - (g.height - c.y - c.h)) * h, c.h as int)
        }),
{
    let c = effective_crop(g);
    let (w, h) = output_size(g);
    let right = crate::crop::beyond(g.width, c.x + c.w);
    let bottom = crate::crop::beyond(g.height, c.y + c.h);
    lemma_fit_nearest(offsets.0 as int, c.x as int, c.w as int, w as int);
    lemma_fit_nearest(offsets.1 as int, right, c.w as int, w as int);
    lemma_fit_nearest(offsets.2 as int, c.y as int, c.h as int, h as int);
    lemma_fit_nearest(offsets.3 as int, bottom, c.h as int, h as int);
}

proof fn lemma_fit_nearest(offset: int, cut: int, kept: int, out: int)
    requires
        0 <= offset <= u16::MAX,
        0 <= cut <= offset <= cut + kept,
        0 < kept,
        0 <= out,
    ensures
        0 <= fit(offset, cut, kept, out) <= out,
        nearest(fit(offset, cut, kept, out), (offset - cut) * out, kept),
{
    lemma_fit(offset, cut, kept, out);
    lemma_nearest((offset - cut) * out, kept);
}

/// `r` is `a / b`, to the nearest whole number.
pub open spec fn nearest(r: int, a: int, b: int) -> bool {
    2 * a - b <= 2 * (r * b) <= 2 * a + b
}

proof fn lemma_nearest(a: int, b: int)
    requires
        b > 0,
    ensures
        nearest(
            (a + (if b > 1 {
                b
            } else {
                1
            }) / 2) / (if b > 1 {
                b
            } else {
                1
            }),
            a,
            b,
        ),
{
    let r = (a + b / 2) / b;
    vstd::arithmetic::div_mod::lemma_fundamental_div_mod(a + b / 2, b);
    vstd::arithmetic::div_mod::lemma_mod_bound(a + b / 2, b);
    assert(b * r == r * b) by (nonlinear_arith);
}

/// A frame is given no message that its source does not have, and each that is carried:
/// Dolby Vision in front of HDR10+, which is carried byte for byte.
pub proof fn law_messages_are_those_of_the_frame(
    dovi_rpu: Option<Seq<u8>>,
    hdr10plus: Option<Seq<u8>>,
    carry: DynamicHdr,
    g: Geometry,
)
    ensures
        ({
            let dolby = carry.dolby_vision && dovi_rpu is Some;
            let plus = carry.hdr10plus && hdr10plus is Some;
            match frame_messages(dovi_rpu, hdr10plus, carry, g) {
                Ok(m) => {
                    &&& m.len() == (if dolby {
                        1int
                    } else {
                        0
                    }) + (if plus {
                        1int
                    } else {
                        0
                    })
                    &&& dolby ==> dovi_message(dovi_rpu->0, g) == Ok::<_, HdrError>(m[0])
                    &&& plus ==> m.last() == seq![0xB5u8, 0x00, 0x3C, 0x00, 0x01, 0x04]
                        + hdr10plus->0
                },
                Err(e) => dolby && dovi_message(dovi_rpu->0, g) == Err::<Seq<u8>, _>(e),
            }
        }),
{
    if hdr10plus is Some {
        assert(hdr10plus_message(hdr10plus->0) =~= seq![0xB5u8, 0x00, 0x3C, 0x00, 0x01, 0x04]
            + hdr10plus->0);
    }
}

/// Dolby Vision is told from HDR10+ and that from HDR10 by what the source carries; what is
/// neither and has another transfer than PQ or HLG is not HDR.
pub proof fn law_kind_of_hdr_is_the_richest(dolby: bool, hdr10plus: bool, color_transfer: Seq<char>)
    ensures
        ({
            let kind = kind_of_hdr(dolby, hdr10plus, color_transfer);
            &&& kind == "Dolby Vision"@ <==> dolby
            &&& kind == "HDR10+"@ <==> hdr10plus && !dolby
            &&& hdr_type_is_hdr(kind) <==> dolby || hdr10plus || transfer_code(color_transfer)
                == Some(16u32) || transfer_code(color_transfer) == Some(18u32)
            &&& !dolby && !hdr10plus ==> {
                &&& kind == "HDR10"@ <==> transfer_code(color_transfer) == Some(16u32)
                &&& kind == "HLG"@ <==> transfer_code(color_transfer) == Some(18u32)
            }
        }),
{
    reveal_strlit("Dolby Vision");
    reveal_strlit("HDR10+");
    reveal_strlit("HDR10");
    reveal_strlit("HLG");
    reveal_strlit("SDR");
    assert("HLG"@[0] != "SDR"@[0]);
    reveal_strlit("bt709");
    reveal_strlit("bt470m");
    reveal_strlit("bt470bg");
    reveal_strlit("smpte170m");
    reveal_strlit("smpte240m");
    reveal_strlit("linear");
    reveal_strlit("log100");
    reveal_strlit("log316");
    reveal_strlit("iec61966-2-4");
    reveal_strlit("bt1361e");
    reveal_strlit("iec61966-2-1");
    reveal_strlit("bt2020-10");
    reveal_strlit("bt2020-12");
    reveal_strlit("smpte2084");
    reveal_strlit("smpte428");
    reveal_strlit("arib-std-b67");
    assert("smpte2084"@[5] != "smpte170m"@[5]);
    assert("smpte2084"@[6] != "smpte240m"@[6]);
    assert("smpte2084"@[0] != "bt2020-10"@[0] && "smpte2084"@[0] != "bt2020-12"@[0]);
    assert("arib-std-b67"@[0] != "iec61966-2-4"@[0] && "arib-std-b67"@[0] != "iec61966-2-1"@[0]);
    assert(transfer_code("smpte2084"@) == Some(16u32));
    assert(transfer_code("arib-std-b67"@) == Some(18u32));
    let kind = kind_of_hdr(dolby, hdr10plus, color_transfer);
    assert("Dolby Vision"@.len() == 12 && "HDR10+"@.len() == 6 && "HDR10"@.len() == 5);
    assert("HLG"@.len() == 3 && "SDR"@.len() == 3);
    assert(dolby ==> kind.len() == 12);
    assert(!dolby ==> kind.len() != 12);
    assert(transfer_code(color_transfer) == Some(16u32) <==> color_transfer == "smpte2084"@);
    assert(transfer_code(color_transfer) == Some(18u32) <==> color_transfer == "arib-std-b67"@);
}

/// AV1 carries Dolby Vision of the profiles 5 and 8 as it is, and 7 as 8.1. No other profile
/// has a form there.
pub proof fn law_profiles_that_av1_carries(rpu: DoviRpu)
    ensures
        ({
            let profile = rpu_profile(rpu);
            match carried_rpu(rpu) {
                Ok(carried) => {
                    &&& profile == 5 || profile == 7 || profile == 8
                    &&& profile != 7 ==> carried == rpu
                    &&& profile == 7 ==> rpu_converted(rpu, 2) == Some(carried)
                },
                Err(e) => {
                    &&& profile != 5 && profile != 8
                    &&& profile == 7 ==> e == HdrError::ConvertRpu && rpu_converted(rpu, 2) is None
                    &&& profile != 7 ==> e == (HdrError::NoAv1Form { profile })
                },
            }
        }),
{
}

/// Metadata for the output has the active area of the output, where it had one at all.
pub proof fn law_active_area_is_moved_once(rpu: DoviRpu, g: Geometry)
    ensures
        rpu_area(rpu) is None ==> placed_rpu(rpu, g) == Ok::<_, HdrError>(rpu),
        rpu_area(rpu) matches Some(area) ==> ({
            let moved = low_bits(remapped(area, g));
            &&& moved == area ==> placed_rpu(rpu, g) == Ok::<_, HdrError>(rpu)
            &&& moved != area ==> match placed_rpu(rpu, g) {
                Ok(placed) => rpu_with_area(rpu, moved) == Some(placed),
                Err(e) => rpu_with_area(rpu, moved) is None && e == HdrError::SetActiveArea,
            }
        }),
{
}

/// The older systems have one code for all three: primaries, transfer and, where they have
/// one, matrix.
pub proof fn law_color_codes_agree(s: Seq<char>)
    ensures
        primaries_code(s) matches Some(n) ==> (n <= 7 ==> transfer_code(s) == Some(n)),
        transfer_code(s) matches Some(n) ==> (n <= 7 ==> primaries_code(s) == Some(n)),
        primaries_code(s) matches Some(n) ==> (n == 1 || 5 <= n <= 7 ==> matrix_code(s) == Some(n)),
        s == "center"@ ==> chroma_code(s) is None,
{
    reveal_strlit("gbr");
    reveal_strlit("fcc");
    reveal_strlit("bt709");
    reveal_strlit("bt470m");
    reveal_strlit("bt470bg");
    reveal_strlit("smpte170m");
    reveal_strlit("smpte240m");
    reveal_strlit("center");
    reveal_strlit("left");
    reveal_strlit("topleft");
    assert("gbr"@.len() == 3 && "fcc"@.len() == 3 && "bt709"@.len() == 5 && "bt470bg"@.len() == 7);
    assert("smpte170m"@.len() == 9 && "smpte240m"@.len() == 9);
    assert("center"@.len() == 6 && "left"@.len() == 4 && "topleft"@.len() == 7);
    assert("smpte170m"@[5] != "smpte240m"@[5]);
}

/// The color description of a source is what the encoder is told, each part of it under its own
/// flag: primaries, transfer, matrix, siting and range, as far as they are named.
pub proof fn law_source_colors_reach_the_encoder(i: HdrInfo, s: ProbeStream, frame: Seq<SideData>)
    requires
        hdr_matches(i, s, frame),
    ensures
        ({
            let args = encoder_flags(i);
            &&& primaries_code(s.color_primaries@) matches Some(n) ==> gives(
                args,
                "--color-primaries"@,
                decimal(n as nat),
            )
            &&& transfer_code(s.color_transfer@) matches Some(n) ==> gives(
                args,
                "--transfer-characteristics"@,
                decimal(n as nat),
            )
            &&& matrix_code(s.color_space@) matches Some(n) ==> gives(
                args,
                "--matrix-coefficients"@,
                decimal(n as nat),
            )
            &&& s.chroma_location@ == "left"@ ==> gives(
                args,
                "--chroma-sample-position"@,
                decimal(1),
            )
            &&& s.chroma_location@ == "topleft"@ ==> gives(
                args,
                "--chroma-sample-position"@,
                decimal(2),
            )
            &&& s.color_range@ == "pc"@ || s.color_range@ == "full"@ ==> gives(
                args,
                "--color-range"@,
                decimal(1),
            )
            &&& i.chroma_center <==> s.chroma_location@ == "center"@
            &&& i.hdr10plus <==> has_side_type(frame, "hdr10+"@)
        }),
{
    law_encoder_is_told_what_is_known(i);
    reveal_strlit("left");
    reveal_strlit("topleft");
    assert("left"@.len() == 4 && "topleft"@.len() == 7);
}

/// A number of a probe reads as it was written, be it one or text.
pub proof fn law_probe_numbers_read(v: ProbeValue, n: i64)
    requires
        n >= 0,
        v == ProbeValue::Integer(n) || (v is Text && v->Text_0@ == decimal(n as nat)),
    ensures
        value_number(v) == n,
{
    law_decimal_round_trip(n as nat, i64::MAX as nat);
    assert(is_digit(decimal(n as nat)[0]));
}

/// The name that ffprobe has for primaries with a code of ITU-T H.273.
pub open spec fn primaries_name(code: u32) -> Option<Seq<char>> {
    if code == 1 {
        Some("bt709"@)
    } else if code == 4 {
        Some("bt470m"@)
    } else if code == 5 {
        Some("bt470bg"@)
    } else if code == 6 {
        Some("smpte170m"@)
    } else if code == 7 {
        Some("smpte240m"@)
    } else if code == 8 {
        Some("film"@)
    } else if code == 9 {
        Some("bt2020"@)
    } else if code == 10 {
        Some("smpte428"@)
    } else if code == 11 {
        Some("smpte431"@)
    } else if code == 12 {
        Some("smpte432"@)
    } else if code == 22 {
        Some("ebu3213"@)
    } else {
        None
    }
}

/// The name that it has for a transfer function.
pub open spec fn transfer_name(code: u32) -> Option<Seq<char>> {
    if code == 1 {
        Some("bt709"@)
    } else if code == 4 {
        Some("bt470m"@)
    } else if code == 5 {
        Some("bt470bg"@)
    } else if code == 6 {
        Some("smpte170m"@)
    } else if code == 7 {
        Some("smpte240m"@)
    } else if code == 8 {
        Some("linear"@)
    } else if code == 9 {
        Some("log100"@)
    } else if code == 10 {
        Some("log316"@)
    } else if code == 11 {
        Some("iec61966-2-4"@)
    } else if code == 12 {
        Some("bt1361e"@)
    } else if code == 13 {
        Some("iec61966-2-1"@)
    } else if code == 14 {
        Some("bt2020-10"@)
    } else if code == 15 {
        Some("bt2020-12"@)
    } else if code == 16 {
        Some("smpte2084"@)
    } else if code == 17 {
        Some("smpte428"@)
    } else if code == 18 {
        Some("arib-std-b67"@)
    } else {
        None
    }
}

/// The name that it has for matrix coefficients.
pub open spec fn matrix_name(code: u32) -> Option<Seq<char>> {
    if code == 0 {
        Some("gbr"@)
    } else if code == 1 {
        Some("bt709"@)
    } else if code == 4 {
        Some("fcc"@)
    } else if code == 5 {
        Some("bt470bg"@)
    } else if code == 6 {
        Some("smpte170m"@)
    } else if code == 7 {
        Some("smpte240m"@)
    } else if code == 8 {
        Some("ycgco"@)
    } else if code == 9 {
        Some("bt2020nc"@)
    } else if code == 10 {
        Some("bt2020c"@)
    } else if code == 11 {
        Some("smpte2085"@)
    } else if code == 12 {
        Some("chroma-derived-nc"@)
    } else if code == 13 {
        Some("chroma-derived-c"@)
    } else if code == 14 {
        Some("ictcp"@)
    } else {
        None
    }
}

/// A code of primaries is that of its name, and every name has its code.
pub proof fn law_primaries_codes_are_those_of_their_names(code: u32, s: Seq<char>)
    ensures
        primaries_name(code) matches Some(name) ==> primaries_code(name) == Some(code),
        primaries_code(s) matches Some(n) ==> primaries_name(n) == Some(s),
{
    reveal_strlit("bt709");
    reveal_strlit("bt470m");
    reveal_strlit("bt470bg");
    reveal_strlit("smpte170m");
    reveal_strlit("smpte240m");
    reveal_strlit("film");
    reveal_strlit("bt2020");
    reveal_strlit("smpte428");
    reveal_strlit("smpte431");
    reveal_strlit("smpte432");
    reveal_strlit("ebu3213");
    assert(outline("bt709"@) == (5nat, 'b', '7', '0', '9'));
    assert(outline("bt470m"@) == (6nat, 'b', '7', '0', 'm'));
    assert(outline("bt470bg"@) == (7nat, 'b', '0', 'b', 'g'));
    assert(outline("smpte170m"@) == (9nat, 's', '7', '0', 'm'));
    assert(outline("smpte240m"@) == (9nat, 's', '4', '0', 'm'));
    assert(outline("film"@) == (4nat, 'f', 'i', 'l', 'm'));
    assert(outline("bt2020"@) == (6nat, 'b', '0', '2', '0'));
    assert(outline("smpte428"@) == (8nat, 's', '4', '2', '8'));
    assert(outline("smpte431"@) == (8nat, 's', '4', '3', '1'));
    assert(outline("smpte432"@) == (8nat, 's', '4', '3', '2'));
    assert(outline("ebu3213"@) == (7nat, 'e', '2', '1', '3'));
}

/// A code of a transfer function is that of its name, and every name has its code.
pub proof fn law_transfer_codes_are_those_of_their_names(code: u32, s: Seq<char>)
    ensures
        transfer_name(code) matches Some(name) ==> transfer_code(name) == Some(code),
        transfer_code(s) matches Some(n) ==> transfer_name(n) == Some(s),
{
    reveal_strlit("bt709");
    reveal_strlit("bt470m");
    reveal_strlit("bt470bg");
    reveal_strlit("smpte170m");
    reveal_strlit("smpte240m");
    reveal_strlit("linear");
    reveal_strlit("log100");
    reveal_strlit("log316");
    reveal_strlit("iec61966-2-4");
    reveal_strlit("bt1361e");
    reveal_strlit("iec61966-2-1");
    reveal_strlit("bt2020-10");
    reveal_strlit("bt2020-12");
    reveal_strlit("smpte2084");
    reveal_strlit("smpte428");
    reveal_strlit("arib-std-b67");
    assert(outline("bt709"@) == (5nat, 'b', '7', '0', '9'));
    assert(outline("bt470m"@) == (6nat, 'b', '7', '0', 'm'));
    assert(outline("bt470bg"@) == (7nat, 'b', '0', 'b', 'g'));
    assert(outline("smpte170m"@) == (9nat, 's', '7', '0', 'm'));
    assert(outline("smpte240m"@) == (9nat, 's', '4', '0', 'm'));
    assert(outline("linear"@) == (6nat, 'l', 'e', 'a', 'r'));
    assert(outline("log100"@) == (6nat, 'l', '1', '0', '0'));
    assert(outline("log316"@) == (6nat, 'l', '3', '1', '6'));
    assert(outline("iec61966-2-4"@) == (12nat, 'i', '2', '-', '4'));
    assert(outline("bt1361e"@) == (7nat, 'b', '6', '1', 'e'));
    assert(outline("iec61966-2-1"@) == (12nat, 'i', '2', '-', '1'));
    assert(outline("bt2020-10"@) == (9nat, 'b', '-', '1', '0'));
    assert(outline("bt2020-12"@) == (9nat, 'b', '-', '1', '2'));
    assert(outline("smpte2084"@) == (9nat, 's', '0', '8', '4'));
    assert(outline("smpte428"@) == (8nat, 's', '4', '2', '8'));
    assert(outline("arib-std-b67"@) == (12nat, 'a', 'b', '6', '7'));
}

/// A code of matrix coefficients is that of its name, and every name has its code.
pub proof fn law_matrix_codes_are_those_of_their_names(code: u32, s: Seq<char>)
    ensures
        matrix_name(code) matches Some(name) ==> matrix_code(name) == Some(code),
        matrix_code(s) matches Some(n) ==> matrix_name(n) == Some(s),
{
    reveal_strlit("gbr");
    reveal_strlit("bt709");
    reveal_strlit("fcc");
    reveal_strlit("bt470bg");
    reveal_strlit("smpte170m");
    reveal_strlit("smpte240m");
    reveal_strlit("ycgco");
    reveal_strlit("bt2020nc");
    reveal_strlit("bt2020c");
    reveal_strlit("smpte2085");
    reveal_strlit("chroma-derived-nc");
    reveal_strlit("chroma-derived-c");
    reveal_strlit("ictcp");
    assert(outline("gbr"@) == (3nat, 'g', 'g', 'b', 'r'));
    assert(outline("bt709"@) == (5nat, 'b', '7', '0', '9'));
    assert(outline("fcc"@) == (3nat, 'f', 'f', 'c', 'c'));
    assert(outline("bt470bg"@) == (7nat, 'b', '0', 'b', 'g'));
    assert(outline("smpte170m"@) == (9nat, 's', '7', '0', 'm'));
    assert(outline("smpte240m"@) == (9nat, 's', '4', '0', 'm'));
    assert(outline("ycgco"@) == (5nat, 'y', 'g', 'c', 'o'));
    assert(outline("bt2020nc"@) == (8nat, 'b', '0', 'n', 'c'));
    assert(outline("bt2020c"@) == (7nat, 'b', '2', '0', 'c'));
    assert(outline("smpte2085"@) == (9nat, 's', '0', '8', '5'));
    assert(outline("chroma-derived-nc"@) == (17nat, 'c', '-', 'n', 'c'));
    assert(outline("chroma-derived-c"@) == (16nat, 'c', 'd', '-', 'c'));
    assert(outline("ictcp"@) == (5nat, 'i', 't', 'c', 'p'));
}

/// The Dolby Vision profile is that of the first record that has one.
pub proof fn law_first_profile_counts(list: Seq<SideData>, k: int)
    requires
        0 <= k < list.len(),
        list[k].dv_profile is Some,
        forall|j: int| 0 <= j < k ==> (#[trigger] list[j]).dv_profile is None,
    ensures
        first_profile(list) is Some,
        0 <= value_number(list[k].dv_profile->0) <= u32::MAX ==> first_profile(list)->0
            == value_number(list[k].dv_profile->0),
    decreases k,
{
    if k > 0 {
        let rest = list.drop_first();
        assert(list[0].dv_profile is None);
        assert(rest[k - 1] == list[k]);
        assert forall|j: int| 0 <= j < k - 1 implies (#[trigger] rest[j]).dv_profile is None by {
            assert(rest[j] == list[j + 1]);
        }
        law_first_profile_counts(rest, k - 1);
    }
}

/// A source is Dolby Vision where its stream has a profile or its first frame such metadata,
/// HDR10+ where it is not that and its first frame has such metadata, and HDR10 or HLG by its
/// transfer alone.
pub proof fn law_kind_is_told_by_the_metadata(i: HdrInfo, s: ProbeStream, frame: Seq<SideData>)
    requires
        hdr_matches(i, s, frame),
    ensures
        ({
            let dolby = (exists|k: int|
                0 <= k < s.side_data_list@.len() && (
                #[trigger] s.side_data_list@[k]).dv_profile is Some) || has_side_type(
                frame,
                "dolby"@,
            );
            let plus = has_side_type(frame, "hdr10+"@);
            &&& i.hdr_type@ == "Dolby Vision"@ <==> dolby
            &&& i.hdr_type@ == "HDR10+"@ <==> plus && !dolby
            &&& !dolby && !plus && s.color_transfer@ == "smpte2084"@ ==> i.hdr_type@ == "HDR10"@
            &&& !dolby && !plus && s.color_transfer@ == "arib-std-b67"@ ==> i.hdr_type@ == "HLG"@
        }),
{
    let dolby = i.dv_profile is Some || has_side_type(frame, "dolby"@);
    law_nothing_is_made_up(i, s, frame);
    law_kind_of_hdr_is_the_richest(dolby, i.hdr10plus, s.color_transfer@);
    reveal_strlit("smpte2084");
    reveal_strlit("arib-std-b67");
    assert("smpte2084"@.len() == 9 && "arib-std-b67"@.len() == 12);
}

} // verus!
