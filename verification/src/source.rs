//! What a source's video stream needs beyond its frames, and where its bytes lie.
use crate::config::{push_signed, signed_decimal};
use crate::hevc::{display_order, indices, law_display_order_sorts, sorted_by_time};
use crate::text::{
    as_text, contains, decimal, find_from, first_at, gives, law_decimal_round_trip,
    lemma_decimal_is_plain, lemma_first_separator, lemma_gives_at, lemma_no_separator, occurs,
    parse_unsigned, part, push_decimal, str_of, strings, text_of, to_chars, trim, trimmed,
    unsigned,
};
use vstd::prelude::*;
use vstd::string::*;

verus! {

// ---------------------------------------------------------------------------
// Frame rate
// ---------------------------------------------------------------------------
/// Why a frame rate cannot be used.
#[derive(Clone, Copy, Debug, PartialEq, Eq, Structural)]
pub enum FpsError {
    /// What should be a number is none.
    Numerator,
    Denominator,
    /// One of the two is zero.
    Zero(u32, u32),
}

/// A frame rate such as `24000/1001` or `25`.
pub open spec fn rate_of(rate: Seq<char>) -> Result<(u32, u32), FpsError> {
    let slash = first_at(rate, "/"@, 0);
    let top = match slash {
        Some(at) => rate.subrange(0, at),
        None => rate,
    };
    match unsigned(trimmed(top), u32::MAX as nat) {
        None => Err(FpsError::Numerator),
        Some(n) => match slash {
            None => if n > 0 {
                Ok((n as u32, 1))
            } else {
                Err(FpsError::Zero(0, 1))
            },
            Some(at) => match unsigned(
                trimmed(rate.subrange(at + 1, rate.len() as int)),
                u32::MAX as nat,
            ) {
                None => Err(FpsError::Denominator),
                Some(d) => if n > 0 && d > 0 {
                    Ok((n as u32, d as u32))
                } else {
                    Err(FpsError::Zero(n as u32, d as u32))
                },
            },
        },
    }
}

fn parse_u32(s: &[char]) -> (r: Option<u32>)
    ensures
        match r {
            Some(n) => unsigned(trimmed(s@), u32::MAX as nat) == Some(n as nat),
            None => unsigned(trimmed(s@), u32::MAX as nat) is None,
        },
{
    let inner = trim(s);
    match parse_unsigned(inner.as_slice(), 0xffff_ffff) {
        Some(n) => Some(n as u32),
        None => None,
    }
}

/// Reads a frame rate; neither part may be zero.
pub fn parse_fps(rate: &str) -> (r: Result<(u32, u32), FpsError>)
    ensures
        r == rate_of(rate@),
{
    let s = to_chars(rate);
    let slash = to_chars("/");
    proof {
        reveal_strlit("/");
    }
    let len: usize = s.len();
    match find_from(s.as_slice(), slash.as_slice(), 0) {
        Some(at) => {
            let top = part(s.as_slice(), 0, at);
            let bottom = part(s.as_slice(), at + 1, len);
            match (parse_u32(top.as_slice()), parse_u32(bottom.as_slice())) {
                (None, _) => Err(FpsError::Numerator),
                (_, None) => Err(FpsError::Denominator),
                (Some(n), Some(d)) => {
                    if n > 0 && d > 0 {
                        Ok((n, d))
                    } else {
                        Err(FpsError::Zero(n, d))
                    }
                },
            }
        },
        None => match parse_u32(s.as_slice()) {
            None => Err(FpsError::Numerator),
            Some(n) => {
                if n > 0 {
                    Ok((n, 1))
                } else {
                    Err(FpsError::Zero(0, 1))
                }
            },
        },
    }
}

// ---------------------------------------------------------------------------
// The video stream
// ---------------------------------------------------------------------------
/// A video stream as ffprobe reports it, with its times in milliseconds and its rotation in
/// whole degrees.
#[derive(Debug)]
pub struct VideoProbeStream {
    pub avg_frame_rate: String,
    pub r_frame_rate: String,
    pub start_ms: Option<i64>,
    pub sample_aspect_ratio: Option<String>,
    /// One for each entry of the side data.
    pub rotations: Vec<Option<i64>>,
}

#[derive(Debug)]
pub struct VideoProbe {
    pub streams: Vec<VideoProbeStream>,
    pub format_name: String,
    pub format_start_ms: Option<i64>,
}

/// Why a source cannot be encoded.
#[derive(Clone, Copy, Debug, PartialEq, Eq, Structural)]
pub enum ProbeError {
    NoVideoStream,
    /// Neither the average nor the nominal frame rate can be used; why the average cannot.
    FrameRate(FpsError),
}

/// What the video stream needs beyond its frames to play back where and how it did.
#[derive(Debug, PartialEq)]
pub struct SourceVideo {
    pub fps_num: u32,
    pub fps_den: u32,
    /// The first frame after the container start, which ffmpeg rebases the audio to.
    pub offset_ms: i64,
    /// mkvmerge reads a Matroska source's own tracks and chapters without that rebase.
    pub matroska_start_ms: i64,
    pub sar: Option<(u32, u32)>,
    /// Degrees counter-clockwise, as ffprobe reports the display matrix.
    pub rotation: i64,
}

/// The average frame rate, or the nominal one where there is no average.
pub open spec fn usable_rate(s: VideoProbeStream) -> Result<(u32, u32), FpsError> {
    match rate_of(s.avg_frame_rate@) {
        Ok(r) => Ok(r),
        Err(e) => match rate_of(s.r_frame_rate@) {
            Ok(r) => Ok(r),
            Err(_) => Err(e),
        },
    }
}

pub open spec fn container_start(p: VideoProbe) -> int {
    match p.format_start_ms {
        Some(t) => t as int,
        None => 0,
    }
}

pub open spec fn video_start(p: VideoProbe) -> int {
    match p.streams@[0].start_ms {
        Some(t) => t as int,
        None => container_start(p),
    }
}

/// A ratio such as `64:45`.
pub open spec fn ratio_of(s: Option<Seq<char>>) -> Option<(u32, u32)> {
    match s {
        None => None,
        Some(s) => match first_at(s, ":"@, 0) {
            None => None,
            Some(at) => match (
                unsigned(s.subrange(0, at), u32::MAX as nat),
                unsigned(s.subrange(at + 1, s.len() as int), u32::MAX as nat),
            ) {
                (Some(n), Some(d)) => Some((n as u32, d as u32)),
                _ => None,
            },
        },
    }
}

/// The same turn between -179 and 180 degrees.
pub open spec fn half_turn(degrees: int) -> int {
    let r = degrees % 360;
    if r > 180 {
        r - 360
    } else {
        r
    }
}

/// The first rotation among the side data, from entry `i` on.
pub open spec fn first_rotation(rotations: Seq<Option<i64>>, i: int) -> int
    decreases rotations.len() - i,
{
    if i < 0 || i >= rotations.len() {
        0
    } else {
        match rotations[i] {
            Some(r) => half_turn(r as int),
            None => first_rotation(rotations, i + 1),
        }
    }
}

fn parse_ratio(s: Option<&str>) -> (r: Option<(u32, u32)>)
    ensures
        r == ratio_of(str_of(s)),
{
    let s = match s {
        Some(s) => to_chars(s),
        None => {
            return None;
        },
    };
    let colon = to_chars(":");
    proof {
        reveal_strlit(":");
    }
    let len: usize = s.len();
    match find_from(s.as_slice(), colon.as_slice(), 0) {
        None => None,
        Some(at) => {
            let n = parse_unsigned(part(s.as_slice(), 0, at).as_slice(), 0xffff_ffff);
            let d = parse_unsigned(part(s.as_slice(), at + 1, len).as_slice(), 0xffff_ffff);
            match (n, d) {
                (Some(n), Some(d)) => Some((n as u32, d as u32)),
                _ => None,
            }
        },
    }
}

fn normalize_turn(degrees: i64) -> (r: i64)
    ensures
        r == half_turn(degrees as int),
{
    let turn: i64 = if degrees >= 0 {
        ((degrees as u64) % 360) as i64
    } else {
        let below: u64 = (-(degrees + 1)) as u64;
        let back: i64 = (below % 360) as i64;
        assert(degrees as int == -(below as int) - 1);
        assert((-(below as int) - 1) % 360 == 359 - (below as int) % 360);
        359 - back
    };
    if turn > 180 {
        turn - 360
    } else {
        turn
    }
}

fn find_rotation(rotations: &[Option<i64>]) -> (r: i64)
    ensures
        r == first_rotation(rotations@, 0),
{
    let mut i: usize = 0;
    while i < rotations.len()
        invariant
            i <= rotations@.len(),
            first_rotation(rotations@, i as int) == first_rotation(rotations@, 0),
        decreases rotations@.len() - i,
    {
        if let Some(r) = rotations[i] {
            return normalize_turn(r);
        }
        i = i + 1;
    }
    0
}

impl SourceVideo {
    /// What is made of ffprobe's report.
    pub fn from_probe(probe: &VideoProbe) -> (r: Result<SourceVideo, ProbeError>)
        requires
            probe.streams@.len() > 0 ==> i64::MIN <= video_start(*probe) - container_start(*probe)
                <= i64::MAX,
        ensures
            match r {
                Ok(v) => {
                    &&& probe.streams@.len() > 0
                    &&& usable_rate(probe.streams@[0]) == Ok::<_, FpsError>((v.fps_num, v.fps_den))
                    &&& v.offset_ms == if video_start(*probe) > container_start(*probe) {
                        video_start(*probe) - container_start(*probe)
                    } else {
                        0
                    }
                    &&& v.matroska_start_ms == if occurs(probe.format_name@, "matroska"@) {
                        container_start(*probe)
                    } else {
                        0
                    }
                    &&& v.offset_ms >= 0
                    &&& v.offset_ms > 0 ==> container_start(*probe) + v.offset_ms == video_start(
                        *probe,
                    )
                    &&& v.offset_ms == 0 ==> video_start(*probe) <= container_start(*probe)
                    &&& v.sar == ratio_of(text_of(probe.streams@[0].sample_aspect_ratio))
                    &&& v.rotation == first_rotation(probe.streams@[0].rotations@, 0)
                },
                Err(ProbeError::NoVideoStream) => probe.streams@.len() == 0,
                Err(ProbeError::FrameRate(e)) => probe.streams@.len() > 0 && usable_rate(
                    probe.streams@[0],
                ) == Err::<(u32, u32), _>(e),
            },
    {
        if probe.streams.len() == 0 {
            return Err(ProbeError::NoVideoStream);
        }
        let stream = &probe.streams[0];
        let (fps_num, fps_den) = match parse_fps(stream.avg_frame_rate.as_str()) {
            Ok(r) => r,
            Err(e) => match parse_fps(stream.r_frame_rate.as_str()) {
                Ok(r) => r,
                Err(_) => {
                    return Err(ProbeError::FrameRate(e));
                },
            },
        };
        let start: i64 = match probe.format_start_ms {
            Some(t) => t,
            None => 0,
        };
        let video: i64 = match stream.start_ms {
            Some(t) => t,
            None => start,
        };
        let offset_ms: i64 = if video > start {
            video - start
        } else {
            0
        };
        let format = to_chars(probe.format_name.as_str());
        let matroska_start_ms: i64 = if contains(format.as_slice(), "matroska") {
            start
        } else {
            0
        };
        Ok(
            SourceVideo {
                fps_num,
                fps_den,
                offset_ms,
                matroska_start_ms,
                sar: parse_ratio(as_text(&stream.sample_aspect_ratio)),
                rotation: find_rotation(stream.rotations.as_slice()),
            },
        )
    }

    /// The options of mkvmerge that keep the aspect ratio and the rotation.
    pub fn display_args(&self, width: u32, height: u32) -> (args: Vec<String>)
        ensures
            strings(args@) == aspect_option(self.sar, width, height) + roll_option(self.rotation),
    {
        let mut args: Vec<String> = Vec::new();
        assert(strings(args@) =~= Seq::empty());
        if let Some((n, d)) = self.sar {
            if n > 0 && d > 0 && n != d {
                assert(width * n <= 0xffff_ffff * 0xffff_ffff) by (nonlinear_arith)
                    requires
                        0 <= width <= 0xffff_ffff,
                        0 <= n <= 0xffff_ffff,
                ;
                let display_width: u64 = (width as u64 * n as u64 + d as u64 / 2) / d as u64;
                let mut v = "0:".to_owned();
                push_decimal(&mut v, display_width);
                v.append("x");
                push_decimal(&mut v, height as u64);
                let ghost view = v@;
                args.push("--display-dimensions".to_owned());
                args.push(v);
                assert(strings(args@) =~= seq!["--display-dimensions"@, view]);
            }
        }
        assert(strings(args@) =~= aspect_option(self.sar, width, height));
        if self.rotation != 0 {
            let ghost before = strings(args@);
            let mut v = "0:".to_owned();
            push_signed(&mut v, self.rotation);
            let ghost view = v@;
            args.push("--projection-pose-roll".to_owned());
            args.push(v);
            assert(strings(args@) =~= before + seq!["--projection-pose-roll"@, view]);
        } else {
            assert(strings(args@) =~= strings(args@) + roll_option(self.rotation));
        }
        args
    }
}

/// The width that a picture is shown at, rounded to the nearest pixel.
pub open spec fn shown_width(width: u32, n: u32, d: u32) -> nat {
    ((width as nat * n as nat + d as nat / 2) / d as nat) as nat
}

pub open spec fn aspect_option(sar: Option<(u32, u32)>, width: u32, height: u32) -> Seq<
    Seq<char>,
> {
    match sar {
        Some((n, d)) => if n > 0 && d > 0 && n != d {
            seq![
                "--display-dimensions"@,
                "0:"@ + decimal(shown_width(width, n, d)) + "x"@ + decimal(height as nat),
            ]
        } else {
            Seq::empty()
        },
        None => Seq::empty(),
    }
}

pub open spec fn roll_option(rotation: i64) -> Seq<Seq<char>> {
    if rotation != 0 {
        seq!["--projection-pose-roll"@, "0:"@ + signed_decimal(rotation as int)]
    } else {
        Seq::empty()
    }
}

/// A usable frame rate never has a zero in it, so the length of a frame is always defined.
pub proof fn law_rates_are_positive(s: VideoProbeStream)
    ensures
        match usable_rate(s) {
            Ok((n, d)) => n > 0 && d > 0,
            Err(_) => true,
        },
{
}

/// A turn is kept between -179 and 180 degrees, and it is the same turn.
pub proof fn law_turn_is_kept(degrees: int)
    ensures
        -179 <= half_turn(degrees) <= 180,
        (half_turn(degrees) - degrees) % 360 == 0,
{
    let r = degrees % 360;
    assert((r - degrees) % 360 == 0);
    assert((r - 360 - degrees) % 360 == 0);
}

// ---------------------------------------------------------------------------
// Bytes by frame
// ---------------------------------------------------------------------------
/// A video packet as ffprobe reports it.
#[derive(Debug)]
pub struct Packet {
    pub size: Option<String>,
    pub pts: Option<i64>,
}

/// The size of a packet; 0 where it is not known.
pub open spec fn packet_size(p: Packet) -> nat {
    match p.size {
        Some(s) => match unsigned(s@, u64::MAX as nat) {
            Some(n) => n,
            None => 0,
        },
        None => 0,
    }
}

pub open spec fn all_timed(packets: Seq<Packet>) -> bool {
    forall|i: int| 0 <= i < packets.len() ==> (#[trigger] packets[i]).pts is Some
}

pub open spec fn none_timed(packets: Seq<Packet>) -> bool {
    forall|i: int| 0 <= i < packets.len() ==> (#[trigger] packets[i]).pts is None
}

pub open spec fn packet_times(packets: Seq<Packet>) -> Seq<i64> {
    Seq::new(packets.len(), |i: int| packets[i].pts->0)
}

/// The sizes of the packets in presentation order; in decode order where that is all there
/// is.
pub open spec fn shown_sizes(packets: Seq<Packet>) -> Seq<nat> {
    if none_timed(packets) {
        Seq::new(packets.len(), |i: int| packet_size(packets[i]))
    } else {
        Seq::new(
            packets.len(),
            |i: int|
                packet_size(packets[display_order(packet_times(packets), packets.len())[i]]),
        )
    }
}

/// The first `n` sizes together.
pub open spec fn bytes_before(sizes: Seq<nat>, n: nat) -> nat
    decreases n,
{
    if n == 0 {
        0
    } else {
        bytes_before(sizes, (n - 1) as nat) + sizes[n - 1]
    }
}

proof fn lemma_bytes_grow(sizes: Seq<nat>, a: nat, b: nat)
    requires
        a <= b,
    ensures
        bytes_before(sizes, a) <= bytes_before(sizes, b),
    decreases b,
{
    if a < b {
        lemma_bytes_grow(sizes, a, (b - 1) as nat);
    }
}

fn read_size(p: &Packet) -> (n: u64)
    ensures
        n == packet_size(*p),
{
    match &p.size {
        Some(s) => {
            let chars = to_chars(s.as_str());
            match parse_unsigned(chars.as_slice(), 0xffff_ffff_ffff_ffff) {
                Some(n) => n,
                None => 0,
            }
        },
        None => 0,
    }
}

/// The bytes of the source before each frame. ffprobe gives packets in decode order, and the
/// chunks count frames in presentation order. None where only part of the stream is timed:
/// sorting would put those few packets in front of everything.
pub fn cumulative_packet_bytes(packets: &[Packet]) -> (r: Option<Vec<u64>>)
    requires
        bytes_before(shown_sizes(packets@), packets@.len()) <= u64::MAX,
    ensures
        r is Some <==> all_timed(packets@) || none_timed(packets@),
        match r {
            Some(cum) => cum@.len() == packets@.len() + 1 && forall|i: int|
                0 <= i < cum@.len() ==> #[trigger] cum@[i] == bytes_before(
                    shown_sizes(packets@),
                    i as nat,
                ),
            None => true,
        },
{
    let n: usize = packets.len();
    let mut timed: usize = 0;
    let mut times: Vec<i64> = Vec::new();
    let mut sizes: Vec<u64> = Vec::new();
    let mut i: usize = 0;
    while i < n
        invariant
            i <= n == packets@.len(),
            timed <= i,
            sizes@.len() == i,
            times@.len() == timed,
            forall|k: int| 0 <= k < i ==> #[trigger] sizes@[k] == packet_size(packets@[k]),
            timed == 0 <==> none_timed(packets@.subrange(0, i as int)),
            timed == i <==> all_timed(packets@.subrange(0, i as int)),
            timed == i ==> times@ == packet_times(packets@.subrange(0, i as int)),
        decreases n - i,
    {
        let ghost before = packets@.subrange(0, i as int);
        let ghost now = packets@.subrange(0, i + 1);
        let p = &packets[i];
        sizes.push(read_size(p));
        proof {
            assert(now[i as int] == packets@[i as int]);
            assert forall|k: int| 0 <= k < i implies #[trigger] before[k] == now[k] by {}
            if all_timed(now) {
                assert forall|k: int| 0 <= k < i implies (#[trigger] before[k]).pts is Some by {
                    assert(now[k].pts is Some);
                }
            }
            if none_timed(now) {
                assert forall|k: int| 0 <= k < i implies (#[trigger] before[k]).pts is None by {
                    assert(now[k].pts is None);
                }
            }
        }
        if let Some(t) = p.pts {
            times.push(t);
            timed = timed + 1;
            proof {
                if timed == i + 1 {
                    assert(times@ =~= packet_times(now));
                }
            }
        }
        i = i + 1;
    }
    assert(packets@.subrange(0, i as int) =~= packets@);
    if timed != 0 && timed != n {
        return None;
    }
    let ghost shown = shown_sizes(packets@);
    let mut cum: Vec<u64> = Vec::new();
    let mut acc: u64 = 0;
    cum.push(0);
    let order = if timed == 0 {
        let mut plain: Vec<usize> = Vec::new();
        let mut k: usize = 0;
        while k < n
            invariant
                k <= n,
                plain@.len() == k,
                forall|j: int| 0 <= j < k ==> #[trigger] plain@[j] == j,
            decreases n - k,
        {
            plain.push(k);
            k = k + 1;
        }
        plain
    } else {
        proof {
            law_display_order_sorts(times@, n as nat);
        }
        sorted_by_time(&times)
    };
    proof {
        if timed != 0 {
            law_display_order_sorts(times@, n as nat);
            assert(indices(order@).len() == n);
            assert(!none_timed(packets@));
        }
        assert forall|j: int| 0 <= j < n implies #[trigger] order@[j] < n && shown[j]
            == packet_size(packets@[order@[j] as int]) by {
            if timed != 0 {
                assert(indices(order@)[j] == order@[j]);
            }
        }
    }
    let mut j: usize = 0;
    while j < n
        invariant
            j <= n == packets@.len(),
            order@.len() == n,
            sizes@.len() == n,
            shown == shown_sizes(packets@),
            bytes_before(shown, n as nat) <= u64::MAX,
            forall|k: int| 0 <= k < n ==> #[trigger] sizes@[k] == packet_size(packets@[k]),
            forall|k: int|
                0 <= k < n ==> #[trigger] order@[k] < n && shown[k] == packet_size(
                    packets@[order@[k] as int],
                ),
            acc == bytes_before(shown, j as nat),
            cum@.len() == j + 1,
            forall|k: int| 0 <= k <= j ==> #[trigger] cum@[k] == bytes_before(shown, k as nat),
        decreases n - j,
    {
        proof {
            lemma_bytes_grow(shown, (j + 1) as nat, n as nat);
            assert(order@[j as int] < n);
        }
        acc = acc + sizes[order[j]];
        cum.push(acc);
        j = j + 1;
    }
    Some(cum)
}

/// The bytes of a frame range never exceed those of a range around it, so a chunk's share of
/// the source is never negative.
pub proof fn law_bytes_by_frame_increase(packets: Seq<Packet>, a: nat, b: nat)
    requires
        a <= b,
    ensures
        bytes_before(shown_sizes(packets), a) <= bytes_before(shown_sizes(packets), b),
{
    lemma_bytes_grow(shown_sizes(packets), a, b);
}

// ---------------------------------------------------------------------------
// What is read is what was written
// ---------------------------------------------------------------------------
/// A frame rate reads as it is written: the numerator in front of the slash, the denominator
/// behind it, and a whole number as itself over one.
pub proof fn law_rate_reads_as_written(n: u32, d: u32)
    requires
        n > 0,
        d > 0,
    ensures
        rate_of(decimal(n as nat) + "/"@ + decimal(d as nat)) == Ok::<_, FpsError>((n, d)),
        rate_of(decimal(n as nat)) == Ok::<_, FpsError>((n, 1u32)),
{
    reveal_strlit("/");
    let (a, b) = (decimal(n as nat), decimal(d as nat));
    law_decimal_round_trip(n as nat, u32::MAX as nat);
    law_decimal_round_trip(d as nat, u32::MAX as nat);
    lemma_decimal_is_plain(n as nat, '/');
    lemma_decimal_is_plain(d as nat, '/');
    lemma_first_separator(a, "/"@, b);
    lemma_no_separator(a, "/"@);
}

/// A rate with a zero in it is refused, whichever of the two it is.
pub proof fn law_zero_rates_are_refused(n: u32, d: u32)
    requires
        n == 0 || d == 0,
    ensures
        rate_of(decimal(n as nat) + "/"@ + decimal(d as nat)) == Err::<(u32, u32), _>(
            FpsError::Zero(n, d),
        ),
{
    reveal_strlit("/");
    let (a, b) = (decimal(n as nat), decimal(d as nat));
    law_decimal_round_trip(n as nat, u32::MAX as nat);
    law_decimal_round_trip(d as nat, u32::MAX as nat);
    lemma_decimal_is_plain(n as nat, '/');
    lemma_decimal_is_plain(d as nat, '/');
    lemma_first_separator(a, "/"@, b);
}

/// The average rate counts wherever it can be used, and the nominal one only in its place.
pub proof fn law_average_rate_comes_first(s: VideoProbeStream)
    ensures
        rate_of(s.avg_frame_rate@) is Ok ==> usable_rate(s) == rate_of(s.avg_frame_rate@),
        rate_of(s.avg_frame_rate@) is Err && rate_of(s.r_frame_rate@) is Ok ==> usable_rate(s)
            == rate_of(s.r_frame_rate@),
        usable_rate(s) is Err <==> rate_of(s.avg_frame_rate@) is Err && rate_of(s.r_frame_rate@) is Err,
{
}

/// An aspect ratio reads as it is written.
pub proof fn law_ratio_reads_as_written(n: u32, d: u32)
    ensures
        ratio_of(Some(decimal(n as nat) + ":"@ + decimal(d as nat))) == Some((n, d)),
        ratio_of(None) is None,
{
    reveal_strlit(":");
    let (a, b) = (decimal(n as nat), decimal(d as nat));
    law_decimal_round_trip(n as nat, u32::MAX as nat);
    law_decimal_round_trip(d as nat, u32::MAX as nat);
    lemma_decimal_is_plain(n as nat, ':');
    lemma_first_separator(a, ":"@, b);
}

/// The first rotation that is reported counts, and without one the picture is not turned.
pub proof fn law_first_rotation_counts(rotations: Seq<Option<i64>>, from: int)
    requires
        0 <= from,
    ensures
        (forall|i: int| from <= i < rotations.len() ==> (#[trigger] rotations[i]) is None)
            ==> first_rotation(rotations, from) == 0,
        forall|i: int|
            from <= i < rotations.len() && (#[trigger] rotations[i]) is Some && (forall|j: int|
                from <= j < i ==> (#[trigger] rotations[j]) is None) ==> (first_rotation(
                rotations,
                from,
            ) - rotations[i]->0) % 360 == 0 && -179 <= first_rotation(rotations, from) <= 180,
    decreases rotations.len() - from,
{
    if from < rotations.len() {
        match rotations[from] {
            Some(r) => {
                law_turn_is_kept(r as int);
            },
            None => {
                law_first_rotation_counts(rotations, from + 1);
            },
        }
    }
}

/// A picture with pixels that are not square is shown as wide as they make it, to the nearest
/// pixel, and as high as it is; one with square pixels needs no word. A turn is passed on.
pub proof fn law_picture_is_shown_in_shape(n: u32, d: u32, width: u32, height: u32, rotation: i64)
    ensures
        n > 0 && d > 0 && n != d ==> exists|w: nat|
            aspect_option(Some((n, d)), width, height) == seq![
                "--display-dimensions"@,
                "0:"@ + #[trigger] decimal(w) + "x"@ + decimal(height as nat),
            ] && -d <= 2 * (w * d) - 2 * (width * n) <= d,
        n == 0 || d == 0 || n == d ==> aspect_option(Some((n, d)), width, height).len() == 0,
        aspect_option(None, width, height).len() == 0,
        rotation == 0 ==> roll_option(rotation).len() == 0,
        rotation > 0 ==> gives(
            roll_option(rotation),
            "--projection-pose-roll"@,
            "0:"@ + decimal(rotation as nat),
        ),
        rotation < 0 ==> gives(
            roll_option(rotation),
            "--projection-pose-roll"@,
            "0:"@ + ("-"@ + decimal((-rotation) as nat)),
        ),
{
    lemma_gives_at(roll_option(rotation), 0);
    if n > 0 && d > 0 && n != d {
        let w = shown_width(width, n, d);
        let v = width as int * n as int + d as int / 2;
        assert(v >= 0) by (nonlinear_arith)
            requires
                v == width as int * n as int + d as int / 2,
                width >= 0,
                n > 0,
                d > 0,
        ;
        vstd::arithmetic::div_mod::lemma_fundamental_div_mod(v, d as int);
        vstd::arithmetic::div_mod::lemma_mod_bound(v, d as int);
        assert(w == v / d as int);
        assert(d * w == w * d) by (nonlinear_arith);
        assert(aspect_option(Some((n, d)), width, height) == seq![
            "--display-dimensions"@,
            "0:"@ + decimal(w) + "x"@ + decimal(height as nat),
        ]);
    }
}

/// The sizes of timed packets stand in the order of their times, every packet once; without
/// times they stand as they come.
pub proof fn law_sizes_are_in_presentation_order(packets: Seq<Packet>)
    ensures
        shown_sizes(packets).len() == packets.len(),
        none_timed(packets) ==> forall|i: int|
            0 <= i < packets.len() ==> shown_sizes(packets)[i] == packet_size(#[trigger] packets[i]),
        all_timed(packets) && packets.len() > 0 ==> exists|order: Seq<int>|
            {
                &&& order.len() == packets.len()
                &&& order.no_duplicates()
                &&& forall|i: int|
                    0 <= i < order.len() ==> 0 <= #[trigger] order[i] < packets.len()
                        && shown_sizes(packets)[i] == packet_size(packets[order[i]])
                &&& forall|i: int, j: int|
                    #![trigger order[i], order[j]]
                    0 <= i < j < order.len() ==> packets[order[i]].pts->0 <= packets[order[j]].pts->0
            },
{
    if all_timed(packets) && packets.len() > 0 {
        let pts = packet_times(packets);
        let order = display_order(pts, packets.len());
        law_display_order_sorts(pts, packets.len());
        assert(packets[0].pts is Some);
        assert forall|i: int| 0 <= i < order.len() implies 0 <= #[trigger] order[i] < packets.len()
            && shown_sizes(packets)[i] == packet_size(packets[order[i]]) by {}
        assert forall|i: int, j: int|
            #![trigger order[i], order[j]]
            0 <= i < j < order.len() implies packets[order[i]].pts->0 <= packets[order[j]].pts->0 by {
            assert(crate::hevc::earlier(pts, order[i], order[j]));
        }
    }
}

/// A frame takes the bytes of its own packet: that is what its place has more than the one in
/// front of it, from nothing on.
pub proof fn law_each_frame_takes_its_own_bytes(sizes: Seq<nat>, n: nat)
    requires
        n < sizes.len(),
    ensures
        bytes_before(sizes, 0) == 0,
        bytes_before(sizes, n + 1) - bytes_before(sizes, n) == sizes[n as int],
{
}

} // verus!
