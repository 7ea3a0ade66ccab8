//! Black bars: the boxes that ffmpeg's cropdetect reports, and what to make of them.
use crate::text::{
    all_digits, char_lists, decimal, decimal_string, find_from, first_at, has_prefix,
    law_decimal_round_trip, lemma_first_is, lemma_one_piece, lines, occurs_at, parse_unsigned,
    part, pieces, push_decimal, push_two, push_words, split, split_lines, split_words,
    starts_with, strings, text_of, to_chars, trim, trimmed, unsigned, words, Separator,
};
use vstd::prelude::*;
use vstd::string::*;

verus! {

/// A rectangle of the picture.
#[derive(Clone, Copy, Debug, PartialEq, Eq, Structural)]
pub struct Crop {
    pub w: u32,
    pub h: u32,
    pub x: u32,
    pub y: u32,
}

/// The ffmpeg filter for a crop: `crop=W:H:X:Y`.
pub open spec fn crop_filter(c: Crop) -> Seq<char> {
    "crop="@ + decimal(c.w as nat) + ":"@ + decimal(c.h as nat) + ":"@ + decimal(c.x as nat)
        + ":"@ + decimal(c.y as nat)
}

/// The crop that a filter stands for.
pub open spec fn crop_of(s: Seq<char>) -> Option<Crop> {
    if !has_prefix(s, "crop="@) {
        None
    } else {
        let p = pieces(s.subrange("crop="@.len() as int, s.len() as int), Separator::Char { c: ':' });
        if p.len() != 4 {
            None
        } else {
            match (
                unsigned(p[0], u32::MAX as nat),
                unsigned(p[1], u32::MAX as nat),
                unsigned(p[2], u32::MAX as nat),
                unsigned(p[3], u32::MAX as nat),
            ) {
                (Some(w), Some(h), Some(x), Some(y)) => Some(
                    Crop { w: w as u32, h: h as u32, x: x as u32, y: y as u32 },
                ),
                _ => None,
            }
        }
    }
}

/// A number rounded down to an even one.
pub open spec fn even(v: u32) -> u32 {
    (v - v % 2) as u32
}

pub fn round_down_even(v: u32) -> (r: u32)
    ensures
        r == even(v),
        r % 2 == 0,
        r <= v,
{
    v - v % 2
}

/// A crop on even edges, or None when nothing is left or it does not fit the picture.
pub open spec fn fitted(c: Crop, src_w: u32, src_h: u32) -> Option<Crop> {
    let e = Crop { w: even(c.w), h: even(c.h), x: even(c.x), y: even(c.y) };
    if e.w == 0 || e.h == 0 || e.x + e.w > src_w || e.y + e.h > src_h {
        None
    } else {
        Some(e)
    }
}

/// The smallest rectangle around two.
pub open spec fn around(a: Crop, b: Crop) -> Crop {
    let left = if a.x <= b.x {
        a.x
    } else {
        b.x
    };
    let top = if a.y <= b.y {
        a.y
    } else {
        b.y
    };
    let right = if a.x + a.w >= b.x + b.w {
        a.x + a.w
    } else {
        b.x + b.w
    };
    let bottom = if a.y + a.h >= b.y + b.h {
        a.y + a.h
    } else {
        b.y + b.h
    };
    Crop { w: (right - left) as u32, h: (bottom - top) as u32, x: left, y: top }
}

/// A rectangle whose far edges can be counted.
pub open spec fn bounded(c: Crop) -> bool {
    c.x + c.w <= u32::MAX && c.y + c.h <= u32::MAX
}

impl Crop {
    pub fn to_filter(&self) -> (s: String)
        ensures
            s@ == crop_filter(*self),
    {
        let mut s = String::new();
        s.append("crop=");
        push_decimal(&mut s, self.w as u64);
        s.append(":");
        push_decimal(&mut s, self.h as u64);
        s.append(":");
        push_decimal(&mut s, self.x as u64);
        s.append(":");
        push_decimal(&mut s, self.y as u64);
        assert(s@ =~= crop_filter(*self));
        s
    }

    /// The crop that a filter stands for.
    pub fn from_str(s: &str) -> (r: Option<Crop>)
        ensures
            r == crop_of(s@),
    {
        let chars = to_chars(s);
        Crop::from_chars(chars.as_slice())
    }

    fn from_chars(s: &[char]) -> (r: Option<Crop>)
        ensures
            r == crop_of(s@),
    {
        if !starts_with(s, "crop=") {
            return None;
        }
        proof {
            reveal_strlit("crop=");
        }
        let rest = part(s, 5, s.len());
        let p = split(rest.as_slice(), Separator::Char { c: ':' });
        let ghost views = char_lists(p@);
        if p.len() != 4 {
            return None;
        }
        assert(views[0] == p@[0]@ && views[1] == p@[1]@ && views[2] == p@[2]@ && views[3] == p@[3]@);
        let w = parse_unsigned(p[0].as_slice(), 0xffff_ffff);
        let h = parse_unsigned(p[1].as_slice(), 0xffff_ffff);
        let x = parse_unsigned(p[2].as_slice(), 0xffff_ffff);
        let y = parse_unsigned(p[3].as_slice(), 0xffff_ffff);
        match (w, h, x, y) {
            (Some(w), Some(h), Some(x), Some(y)) => Some(
                Crop { w: w as u32, h: h as u32, x: x as u32, y: y as u32 },
            ),
            _ => None,
        }
    }

    /// The crop on even edges, or None when it does not fit a picture of this size.
    pub fn normalized(&self, src_w: u32, src_h: u32) -> (r: Option<Crop>)
        ensures
            r == fitted(*self, src_w, src_h),
    {
        let e = Crop {
            w: round_down_even(self.w),
            h: round_down_even(self.h),
            x: round_down_even(self.x),
            y: round_down_even(self.y),
        };
        if e.w == 0 || e.h == 0 || e.x as u64 + e.w as u64 > src_w as u64 || e.y as u64 + e.h as u64
            > src_h as u64 {
            None
        } else {
            Some(e)
        }
    }

    /// The smallest rectangle around this one and another.
    pub fn union(self, other: Crop) -> (r: Crop)
        requires
            bounded(self),
            bounded(other),
        ensures
            r == around(self, other),
            bounded(r),
    {
        let left: u32 = if self.x <= other.x {
            self.x
        } else {
            other.x
        };
        let top: u32 = if self.y <= other.y {
            self.y
        } else {
            other.y
        };
        let right: u32 = if self.x + self.w >= other.x + other.w {
            self.x + self.w
        } else {
            other.x + other.w
        };
        let bottom: u32 = if self.y + self.h >= other.y + other.h {
            self.y + self.h
        } else {
            other.y + other.h
        };
        Crop { w: right - left, h: bottom - top, x: left, y: top }
    }
}

/// Whether `inner` lies within `outer`.
pub open spec fn within(inner: Crop, outer: Crop) -> bool {
    &&& outer.x <= inner.x
    &&& outer.y <= inner.y
    &&& inner.x + inner.w <= outer.x + outer.w
    &&& inner.y + inner.h <= outer.y + outer.h
}

/// The rectangle around two cuts nothing that either of them shows.
pub proof fn law_union_cuts_nothing(a: Crop, b: Crop)
    requires
        bounded(a),
        bounded(b),
    ensures
        within(a, around(a, b)),
        within(b, around(a, b)),
{
}

/// A normalized crop has even edges, lies within the picture and stays as it is when it is
/// normalized again.
pub proof fn law_normalized_is_final(c: Crop, src_w: u32, src_h: u32)
    ensures
        fitted(c, src_w, src_h) matches Some(e) ==> {
            &&& e.w % 2 == 0 && e.h % 2 == 0 && e.x % 2 == 0 && e.y % 2 == 0
            &&& 0 < e.w && 0 < e.h
            &&& e.x + e.w <= src_w && e.y + e.h <= src_h
            &&& fitted(e, src_w, src_h) == Some(e)
        },
{
}

// ---------------------------------------------------------------------------
// cropdetect
// ---------------------------------------------------------------------------
/// The crop that a line of cropdetect's output reports: the word that starts with its first
/// `crop=`.
#[verifier::opaque]
pub open spec fn crop_in_line(line: Seq<char>) -> Option<Crop> {
    match first_at(line, "crop="@, 0) {
        None => None,
        Some(at) => {
            let rest = words(line.subrange(at, line.len() as int));
            if rest.len() > 0 {
                crop_of(rest[0])
            } else {
                None
            }
        },
    }
}

/// The last crop among lines.
pub open spec fn last_crop(all: Seq<Seq<char>>) -> Option<Crop>
    decreases all.len(),
{
    if all.len() == 0 {
        None
    } else if crop_in_line(all.last()) is Some {
        crop_in_line(all.last())
    } else {
        last_crop(all.drop_last())
    }
}

fn read_line(line: &[char]) -> (r: Option<Crop>)
    ensures
        r == crop_in_line(line@),
{
    proof {
        reveal(crop_in_line);
    }
    let label = to_chars("crop=");
    match find_from(line, label.as_slice(), 0) {
        None => None,
        Some(at) => {
            let rest = part(line, at, line.len());
            let found = split_words(rest.as_slice());
            if found.len() > 0 {
                assert(char_lists(found@)[0] == found@[0]@);
                Crop::from_chars(found[0].as_slice())
            } else {
                None
            }
        },
    }
}

/// The last box that cropdetect reports in its output, which is the box around everything
/// that it saw.
pub fn parse_cropdetect(stderr: &str) -> (r: Option<Crop>)
    ensures
        r == last_crop(lines(stderr@)),
{
    let chars = to_chars(stderr);
    let all = split_lines(chars.as_slice());
    let ghost views = char_lists(all@);
    let mut i: usize = all.len();
    assert(views.subrange(0, i as int) =~= views);
    while i > 0
        invariant
            i <= all@.len(),
            views == char_lists(all@),
            views == lines(stderr@),
            last_crop(views.subrange(0, i as int)) == last_crop(views),
        decreases i,
    {
        i = i - 1;
        proof {
            assert(views.subrange(0, i + 1).drop_last() =~= views.subrange(0, i as int));
            assert(views.subrange(0, i + 1).last() == all@[i as int]@);
        }
        if let Some(c) = read_line(all[i].as_slice()) {
            return Some(c);
        }
    }
    None
}

// ---------------------------------------------------------------------------
// Whether a box is a crop
// ---------------------------------------------------------------------------
/// Whether the margins on two opposite sides are about the same: a transfer's bars are often
/// a few lines apart.
pub open spec fn centered(near: int, far: int, total: int) -> bool {
    let slack = if total / 20 >= 8 {
        total / 20
    } else {
        8
    };
    near - far <= slack && far - near <= slack
}

/// What lies between a box and the far edge of the picture.
pub open spec fn beyond(total: u32, edge: int) -> int {
    if edge <= total {
        total - edge
    } else {
        0
    }
}

/// Whether a box leaves bars: they sit roughly opposite each other. One that is offset to a
/// side is the lit part of a dark scene.
pub open spec fn leaves_bars(c: Crop, src_w: u32, src_h: u32) -> bool {
    &&& centered(c.x as int, beyond(src_w, c.x + c.w), src_w as int)
    &&& centered(c.y as int, beyond(src_h, c.y + c.h), src_h as int)
}

fn is_centered(near: u32, far: u32, total: u32) -> (r: bool)
    ensures
        r == centered(near as int, far as int, total as int),
{
    let slack: u32 = if total / 20 >= 8 {
        total / 20
    } else {
        8
    };
    if near >= far {
        near - far <= slack
    } else {
        far - near <= slack
    }
}

pub fn is_bars(c: &Crop, src_w: u32, src_h: u32) -> (r: bool)
    requires
        bounded(*c),
    ensures
        r == leaves_bars(*c, src_w, src_h),
{
    let right: u32 = src_w.saturating_sub(c.x + c.w);
    let bottom: u32 = src_h.saturating_sub(c.y + c.h);
    is_centered(c.x, right, src_w) && is_centered(c.y, bottom, src_h)
}

/// The crop that a box stands for, and whether that may be kept. A box of less than 40
/// percent of the picture, or without bars opposite each other, says nothing; one of 99
/// percent or more leaves nothing to cut.
pub open spec fn classified(union: Option<Crop>, src_w: u32, src_h: u32) -> (Option<Crop>, bool) {
    match union {
        None => (None, true),
        Some(c) => if c.w * c.h * 100 < src_w * src_h * 40 || !leaves_bars(c, src_w, src_h) {
            (None, false)
        } else if c.w * c.h * 100 >= src_w * src_h * 99 {
            (None, true)
        } else {
            (Some(c), true)
        },
    }
}

/// `(crop, cacheable)`. cropdetect boxes what is not black, so an all-dark scene boxes the
/// only lit part; keeping that would hold for the whole film.
pub fn classify(union: Option<Crop>, src_w: u32, src_h: u32) -> (r: (Option<Crop>, bool))
    requires
        union matches Some(c) ==> bounded(c),
    ensures
        r == classified(union, src_w, src_h),
{
    let c = match union {
        Some(c) => c,
        None => {
            return (None, true);
        },
    };
    proof {
        lemma_area(c.w, c.h);
        lemma_area(src_w, src_h);
    }
    let area: u128 = c.w as u128 * c.h as u128;
    let src_area: u128 = src_w as u128 * src_h as u128;
    if area * 100 < src_area * 40 || !is_bars(&c, src_w, src_h) {
        (None, false)
    } else if area * 100 >= src_area * 99 {
        (None, true)
    } else {
        (Some(c), true)
    }
}

proof fn lemma_area(w: u32, h: u32)
    ensures
        0 <= w * h <= 0xffff_ffff * 0xffff_ffff,
{
    assert(0 <= w * h <= 0xffff_ffff * 0xffff_ffff) by (nonlinear_arith);
}

/// What one run of cropdetect came to.
#[derive(Clone, Copy, Debug, PartialEq, Eq, Structural)]
pub enum Sample {
    /// The box that it reports.
    Boxed { crop: Crop },
    /// No box.
    Nothing,
    /// The run failed.
    Failed,
}

/// Every sample failed; that is no evidence of missing bars.
#[derive(Clone, Copy, Debug, PartialEq, Eq, Structural)]
pub struct AllSamplesFailed {
    pub failed: usize,
}

/// The crop of a video, and what to keep of it for the next run.
#[derive(Debug)]
pub struct Detected {
    pub crop: Option<String>,
    pub keep: Option<String>,
}

/// The number of samples that failed.
pub open spec fn failed_samples(samples: Seq<Sample>) -> nat
    decreases samples.len(),
{
    if samples.len() == 0 {
        0
    } else {
        failed_samples(samples.drop_last()) + if samples.last() is Failed {
            1nat
        } else {
            0nat
        }
    }
}

/// The rectangle around all boxes. Not what most of them agree on: that would cut what only
/// one of them saw.
pub open spec fn union_of(samples: Seq<Sample>) -> Option<Crop>
    decreases samples.len(),
{
    if samples.len() == 0 {
        None
    } else {
        match (union_of(samples.drop_last()), samples.last()) {
            (Some(u), Sample::Boxed { crop }) => Some(around(u, crop)),
            (None, Sample::Boxed { crop }) => Some(crop),
            (u, _) => u,
        }
    }
}

/// A rectangle ends at this column on its left or, with `far`, on its right.
pub open spec fn column(c: Crop, far: bool) -> int {
    if far {
        c.x + c.w
    } else {
        c.x as int
    }
}

/// The same for the line at the top or the bottom.
pub open spec fn line(c: Crop, far: bool) -> int {
    if far {
        c.y + c.h
    } else {
        c.y as int
    }
}

/// Nothing that a sample shows is cut: every box lies within the rectangle around all, which
/// is no larger than that takes, as each of its edges is that of some box. Samples without a
/// box change nothing.
pub proof fn law_union_of_samples_cuts_nothing(samples: Seq<Sample>)
    requires
        samples_ok(samples),
    ensures
        union_of(samples) is None <==> forall|i: int|
            0 <= i < samples.len() ==> !((#[trigger] samples[i]) is Boxed),
        union_of(samples) matches Some(u) ==> {
            &&& bounded(u)
            &&& forall|i: int|
                0 <= i < samples.len() && (#[trigger] samples[i]) is Boxed ==> within(
                    samples[i]->crop,
                    u,
                )
            &&& forall|far: bool|
                exists|i: int|
                    0 <= i < samples.len() && (#[trigger] samples[i]) is Boxed && column(
                        samples[i]->crop,
                        far,
                    ) == #[trigger] column(u, far)
            &&& forall|far: bool|
                exists|i: int|
                    0 <= i < samples.len() && (#[trigger] samples[i]) is Boxed && line(
                        samples[i]->crop,
                        far,
                    ) == #[trigger] line(u, far)
        },
    decreases samples.len(),
{
    if samples.len() > 0 {
        let front = samples.drop_last();
        let n = samples.len() - 1;
        assert forall|i: int| 0 <= i < front.len() implies (
        #[trigger] front[i] matches Sample::Boxed { crop } ==> bounded(crop)) by {
            assert(front[i] == samples[i]);
        }
        law_union_of_samples_cuts_nothing(front);
        assert forall|i: int| 0 <= i < n implies #[trigger] samples[i] == front[i] by {}
        let last = samples[n];
        if last is Boxed {
            assert(bounded(last->crop));
        }
        if let Some(u) = union_of(samples) {
            assert forall|i: int| 0 <= i < samples.len() && (#[trigger] samples[i]) is Boxed implies
                within(samples[i]->crop, u) by {
                if i < n {
                    assert(samples[i] == front[i]);
                }
            }
            assert forall|far: bool| exists|i: int|
                0 <= i < samples.len() && (#[trigger] samples[i]) is Boxed && column(
                    samples[i]->crop,
                    far,
                ) == #[trigger] column(u, far) by {
                lemma_edge_of_union(samples, far);
            }
            assert forall|far: bool| exists|i: int|
                0 <= i < samples.len() && (#[trigger] samples[i]) is Boxed && line(
                    samples[i]->crop,
                    far,
                ) == #[trigger] line(u, far) by {
                lemma_edge_of_union(samples, far);
            }
        }
    }
}

proof fn lemma_edge_of_union(samples: Seq<Sample>, far: bool)
    requires
        samples_ok(samples),
        union_of(samples) is Some,
    ensures
        bounded(union_of(samples)->0),
        exists|i: int|
            0 <= i < samples.len() && (#[trigger] samples[i]) is Boxed && column(
                samples[i]->crop,
                far,
            ) == column(union_of(samples)->0, far),
        exists|i: int|
            0 <= i < samples.len() && (#[trigger] samples[i]) is Boxed && line(
                samples[i]->crop,
                far,
            ) == line(union_of(samples)->0, far),
    decreases samples.len(),
{
    let front = samples.drop_last();
    let n = samples.len() - 1;
    let u = union_of(samples)->0;
    assert forall|i: int| 0 <= i < front.len() implies (
    #[trigger] front[i] matches Sample::Boxed { crop } ==> bounded(crop)) by {
        assert(front[i] == samples[i]);
    }
    if samples[n] is Boxed {
        assert(bounded(samples[n]->crop));
    }
    if let Some(v) = union_of(front) {
        lemma_edge_of_union(front, far);
        let a = choose|i: int|
            0 <= i < front.len() && (#[trigger] front[i]) is Boxed && column(front[i]->crop, far)
                == column(v, far);
        let b = choose|i: int|
            0 <= i < front.len() && (#[trigger] front[i]) is Boxed && line(front[i]->crop, far)
                == line(v, far);
        assert(front[a] == samples[a] && front[b] == samples[b]);
        if samples[n] is Boxed {
            let c = samples[n]->crop;
            assert(column(u, far) == column(v, far) || column(u, far) == column(c, far));
            assert(line(u, far) == line(v, far) || line(u, far) == line(c, far));
        }
    } else {
        assert(samples[n] is Boxed);
    }
}

/// The number of failed samples is the number of those, so it is none exactly where none is.
pub proof fn law_failed_samples_are_counted(samples: Seq<Sample>)
    ensures
        failed_samples(samples) == samples.filter(|s: Sample| s is Failed).len(),
        failed_samples(samples) == 0 <==> forall|i: int|
            0 <= i < samples.len() ==> !((#[trigger] samples[i]) is Failed),
    decreases samples.len(),
{
    reveal(Seq::filter);
    if samples.len() > 0 {
        let front = samples.drop_last();
        law_failed_samples_are_counted(front);
        assert forall|i: int| 0 <= i < front.len() implies #[trigger] samples[i] == front[i] by {}
        assert forall|i: int| 0 <= i < front.len() implies #[trigger] front[i] == samples[i] by {}
        if failed_samples(samples) == 0 {
            assert forall|i: int| 0 <= i < samples.len() implies !((
            #[trigger] samples[i]) is Failed) by {
                if i < front.len() {
                    assert(samples[i] == front[i]);
                }
            }
        } else if forall|i: int| 0 <= i < samples.len() ==> !((#[trigger] samples[i]) is Failed) {
            assert(!(samples[samples.len() - 1] is Failed));
            assert forall|i: int| 0 <= i < front.len() implies !((
            #[trigger] front[i]) is Failed) by {
                assert(front[i] == samples[i]);
            }
        }
    }
}

/// The crop that was kept: None when the file holds nothing.
pub open spec fn kept_crop(cached: Seq<char>) -> Option<Seq<char>> {
    if trimmed(cached).len() == 0 {
        None
    } else {
        Some(trimmed(cached))
    }
}

/// What samples of a picture of this size come to: the crop, and whether it may be kept,
/// which it may not while a sample failed.
pub open spec fn verdict(samples: Seq<Sample>, w: u32, h: u32) -> (Option<Crop>, bool) {
    let (crop, keep) = classified(
        match union_of(samples) {
            Some(u) => fitted(u, w, h),
            None => None,
        },
        w,
        h,
    );
    (crop, keep && failed_samples(samples) == 0)
}

pub open spec fn samples_ok(samples: Seq<Sample>) -> bool {
    forall|i: int|
        0 <= i < samples.len() ==> (#[trigger] samples[i] matches Sample::Boxed { crop } ==> bounded(
            crop,
        ))
}

/// A crop that samples come to shows every box that one of them showed, but for the column and
/// line that an even edge costs, has even edges and lies within the picture. It leaves at least
/// 40 percent of the picture and takes more than one away, and the bars are opposite each other.
/// It may be kept only where no sample failed.
pub proof fn law_crop_shows_what_samples_showed(samples: Seq<Sample>, w: u32, h: u32)
    requires
        samples_ok(samples),
    ensures
        ({
            let (crop, keep) = verdict(samples, w, h);
            &&& crop matches Some(c) ==> {
                &&& forall|i: int|
                    0 <= i < samples.len() && (#[trigger] samples[i]) is Boxed ==> {
                        let b = samples[i]->crop;
                        &&& c.x <= b.x && c.y <= b.y
                        &&& b.x + b.w <= c.x + c.w + 2 && b.y + b.h <= c.y + c.h + 2
                    }
                &&& c.x % 2 == 0 && c.y % 2 == 0 && c.w % 2 == 0 && c.h % 2 == 0
                &&& c.x + c.w <= w && c.y + c.h <= h
                &&& w * h * 40 <= c.w * c.h * 100 < w * h * 99
                &&& c.x - (w - c.x - c.w) <= margin_slack(w) && (w - c.x - c.w) - c.x
                    <= margin_slack(w)
                &&& c.y - (h - c.y - c.h) <= margin_slack(h) && (h - c.y - c.h) - c.y
                    <= margin_slack(h)
            }
            &&& keep ==> forall|i: int| 0 <= i < samples.len() ==> !((#[trigger] samples[i]) is Failed)
        }),
{
    law_union_of_samples_cuts_nothing(samples);
    law_failed_samples_are_counted(samples);
    if let Some(u) = union_of(samples) {
        law_normalized_is_final(u, w, h);
        assert(bounded(u));
        if let Some(c) = verdict(samples, w, h).0 {
            assert forall|i: int| 0 <= i < samples.len() && (#[trigger] samples[i]) is Boxed implies {
                let b = samples[i]->crop;
                &&& c.x <= b.x && c.y <= b.y
                &&& b.x + b.w <= c.x + c.w + 2 && b.y + b.h <= c.y + c.h + 2
            } by {
                assert(within(samples[i]->crop, u));
            }
        }
    }
}

/// How far two margins may differ: a twentieth of the picture, and at least eight.
pub open spec fn margin_slack(total: u32) -> int {
    if total < 160 {
        8
    } else {
        total as int / 20
    }
}

/// A sample that fills the picture leaves nothing to cut, whatever the others show.
pub proof fn law_full_picture_is_never_cut(samples: Seq<Sample>, w: u32, h: u32, i: int)
    requires
        samples_ok(samples),
        0 <= i < samples.len(),
        samples[i] == (Sample::Boxed { crop: Crop { w, h, x: 0, y: 0 } }),
        w % 2 == 0 && h % 2 == 0 && w > 0 && h > 0,
    ensures
        verdict(samples, w, h).0 is None,
{
    law_crop_shows_what_samples_showed(samples, w, h);
    if let Some(c) = verdict(samples, w, h).0 {
        law_union_of_samples_cuts_nothing(samples);
        let u = union_of(samples)->0;
        assert(within(samples[i]->crop, u));
        assert(c == fitted(u, w, h)->0);
        assert(c.x == 0 && c.y == 0 && c.w == w && c.h == h);
        assert(w * h * 100 >= w * h * 99) by (nonlinear_arith)
            requires
                w > 0,
                h > 0,
        ;
    }
}

pub open spec fn filter_view(c: Option<Crop>) -> Option<Seq<char>> {
    match c {
        Some(c) => Some(crop_filter(c)),
        None => None,
    }
}

/// `crop=W:H:X:Y`, or None if there is nothing to cut: from what an earlier run kept, else
/// from samples of a picture of this size.
pub fn detect(cached: Option<&str>, samples: &[Sample], orig_w: u32, orig_h: u32) -> (r: Result<
    Detected,
    AllSamplesFailed,
>)
    requires
        samples_ok(samples@),
    ensures
        match (cached, r) {
            (Some(c), Ok(d)) => text_of(d.crop) == kept_crop(c@) && d.keep is None,
            (Some(_), Err(_)) => false,
            (None, Err(e)) => {
                &&& union_of(samples@) is None
                &&& failed_samples(samples@) > 0
                &&& e.failed == failed_samples(samples@)
            },
            (None, Ok(d)) => if union_of(samples@) is None {
                failed_samples(samples@) == 0 && d.crop is None && d.keep is None
            } else {
                let (crop, keep) = verdict(samples@, orig_w, orig_h);
                &&& text_of(d.crop) == filter_view(crop)
                &&& text_of(d.keep) == if !keep {
                    None
                } else if crop is Some {
                    filter_view(crop)
                } else {
                    Some(Seq::<char>::empty())
                }
            },
        },
{
    if let Some(c) = cached {
        let chars = to_chars(c);
        let inner = trim(chars.as_slice());
        if inner.len() == 0 {
            return Ok(Detected { crop: None, keep: None });
        }
        return Ok(
            Detected { crop: Some(crate::text::from_chars(inner.as_slice())), keep: None },
        );
    }
    let mut union: Option<Crop> = None;
    let mut failed: usize = 0;
    let mut i: usize = 0;
    assert(samples@.subrange(0, 0) =~= Seq::empty());
    while i < samples.len()
        invariant
            i <= samples@.len(),
            samples_ok(samples@),
            union == union_of(samples@.subrange(0, i as int)),
            union matches Some(u) ==> bounded(u),
            failed == failed_samples(samples@.subrange(0, i as int)),
            failed <= i,
        decreases samples@.len() - i,
    {
        proof {
            assert(samples@.subrange(0, i + 1).drop_last() =~= samples@.subrange(0, i as int));
        }
        match samples[i] {
            Sample::Boxed { crop } => {
                assert(samples@[i as int] == Sample::Boxed { crop });
                union = match union {
                    Some(u) => Some(u.union(crop)),
                    None => Some(crop),
                };
            },
            Sample::Nothing => {},
            Sample::Failed => {
                failed = failed + 1;
            },
        }
        i = i + 1;
    }
    assert(samples@.subrange(0, i as int) =~= samples@);
    let boxed = match union {
        Some(u) => u,
        None => {
            if failed > 0 {
                return Err(AllSamplesFailed { failed });
            }
            return Ok(Detected { crop: None, keep: None });
        },
    };
    let (crop, plausible) = classify(boxed.normalized(orig_w, orig_h), orig_w, orig_h);
    let keep = plausible && failed == 0;
    match crop {
        Some(c) => {
            if keep {
                Ok(Detected { crop: Some(c.to_filter()), keep: Some(c.to_filter()) })
            } else {
                Ok(Detected { crop: Some(c.to_filter()), keep: None })
            }
        },
        None => {
            if keep {
                Ok(Detected { crop: None, keep: Some(String::new()) })
            } else {
                Ok(Detected { crop: None, keep: None })
            }
        },
    }
}

/// A filter that was written for a crop reads back as that crop.
pub proof fn law_crop_filter_round_trip(c: Crop)
    ensures
        crop_of(crop_filter(c)) == Some(c),
{
    reveal_strlit("crop=");
    reveal_strlit(":");
    let sep = Separator::Char { c: ':' };
    let max = u32::MAX as nat;
    let (w, h, x, y) = (
        decimal(c.w as nat),
        decimal(c.h as nat),
        decimal(c.x as nat),
        decimal(c.y as nat),
    );
    crate::text::law_decimal_round_trip(c.w as nat, max);
    crate::text::law_decimal_round_trip(c.h as nat, max);
    crate::text::law_decimal_round_trip(c.x as nat, max);
    crate::text::law_decimal_round_trip(c.y as nat, max);
    crate::text::lemma_one_piece(w, sep);
    crate::text::lemma_one_piece(h, sep);
    crate::text::lemma_one_piece(x, sep);
    crate::text::lemma_one_piece(y, sep);
    let xy = x.push(':') + y;
    let hxy = h.push(':') + xy;
    let all = w.push(':') + hxy;
    crate::text::lemma_pieces_join(x, ':', y, sep);
    crate::text::lemma_pieces_join(h, ':', xy, sep);
    crate::text::lemma_pieces_join(w, ':', hxy, sep);
    let s = crop_filter(c);
    assert(s.subrange(0, 5) =~= "crop="@);
    assert(s.subrange(5, s.len() as int) =~= all);
    assert(pieces(all, sep) =~= seq![w, h, x, y]);
}

/// Where in a video the samples are taken, in percent of its length.
pub fn sample_percents() -> (p: [u64; 6])
    ensures
        p@ == seq![5u64, 20, 40, 60, 80, 95],
{
    [5, 20, 40, 60, 80, 95]
}

/// The arguments of one run of cropdetect: ten seconds of the first video track, in storage
/// orientation. Below 1.0 the limit follows the bit depth, and an even rounding finds the
/// edges of a picture whose size is no multiple of sixteen.
pub fn cropdetect_args(source: &str, seek_secs: u64) -> (args: Vec<String>)
    ensures
        strings(args@) == seq![
            "-noautorotate"@,
            "-ss"@,
            decimal(seek_secs as nat),
            "-i"@,
            source@,
            "-map"@,
            "0:v:0"@,
            "-t"@,
            "10"@,
            "-vf"@,
            "cropdetect=0.094:2:0"@,
            "-f"@,
            "null"@,
            "-"@,
        ],
{
    let mut args: Vec<String> = Vec::new();
    push_words(&mut args, &["-noautorotate"]);
    push_two(&mut args, "-ss", decimal_string(seek_secs));
    push_two(&mut args, "-i", source.to_owned());
    push_words(
        &mut args,
        &["-map", "0:v:0", "-t", "10", "-vf", "cropdetect=0.094:2:0", "-f", "null", "-"],
    );
    args
}

/// Bars are cut where they are: where the boxes of the samples together, on even edges, leave
/// at least 40 percent of the picture, less than 99, and bars opposite each other, that is the
/// crop. Where they fill the picture there is none, and that may be kept; where they say
/// nothing there is none, and that may not.
pub proof fn law_bars_are_cut(samples: Seq<Sample>, w: u32, h: u32, c: Crop)
    requires
        samples_ok(samples),
        union_of(samples) is Some,
        fitted(union_of(samples)->0, w, h) == Some(c),
    ensures
        ({
            let (crop, keep) = verdict(samples, w, h);
            let whole = forall|i: int|
                0 <= i < samples.len() ==> !((#[trigger] samples[i]) is Failed);
            let opposite = c.x - (w - c.x - c.w) <= margin_slack(w) && (w - c.x - c.w) - c.x
                <= margin_slack(w) && c.y - (h - c.y - c.h) <= margin_slack(h) && (h - c.y - c.h)
                - c.y <= margin_slack(h);
            let large = w * h * 40 <= c.w * c.h * 100;
            let full = c.w * c.h * 100 >= w * h * 99;
            &&& large && opposite && !full ==> crop == Some(c) && keep == whole
            &&& large && opposite && full ==> crop is None && keep == whole
            &&& !large || !opposite ==> crop is None && !keep
        }),
{
    law_failed_samples_are_counted(samples);
    law_normalized_is_final(union_of(samples)->0, w, h);
}

/// The last line that reports a crop counts, whatever stands behind it.
pub proof fn law_last_reported_crop_counts(all: Seq<Seq<char>>)
    ensures
        match last_crop(all) {
            Some(c) => exists|i: int|
                0 <= i < all.len() && crop_in_line(#[trigger] all[i]) == Some(c) && forall|j: int|
                    i < j < all.len() ==> crop_in_line(#[trigger] all[j]) is None,
            None => forall|i: int|
                0 <= i < all.len() ==> crop_in_line(#[trigger] all[i]) is None,
        },
    decreases all.len(),
{
    if all.len() > 0 {
        let front = all.drop_last();
        law_last_reported_crop_counts(front);
        assert(forall|i: int| 0 <= i < front.len() ==> #[trigger] all[i] == front[i]);
        if let Some(c) = last_crop(all) {
            if crop_in_line(all.last()) is Some {
                assert(crop_in_line(all[all.len() - 1]) == Some(c));
            } else {
                let i = choose|i: int|
                    0 <= i < front.len() && crop_in_line(#[trigger] front[i]) == Some(c) && forall|
                        j: int,
                    |
                        i < j < front.len() ==> crop_in_line(#[trigger] front[j]) is None;
                assert(crop_in_line(all[i]) == Some(c));
            }
        }
    }
}

/// A crop at the end of a line is read as it was written there.
pub proof fn law_reported_crop_is_read(front: Seq<char>, c: Crop)
    requires
        forall|k: int| 0 <= k < front.len() ==> #[trigger] front[k] != 'c',
    ensures
        crop_in_line(front + crop_filter(c)) == Some(c),
{
    reveal(crop_in_line);
    reveal_strlit("crop=");
    let f = crop_filter(c);
    let line = front + f;
    let at = front.len() as int;
    lemma_filter_chars(c);
    assert(f.subrange(0, 5) =~= "crop="@);
    assert(line.subrange(at, at + 5) =~= "crop="@);
    assert forall|k: int| 0 <= k < at implies !#[trigger] occurs_at(line, "crop="@, k) by {
        assert(line[k] == front[k]);
        if occurs_at(line, "crop="@, k) {
            assert(line.subrange(k, k + 5)[0] == front[k]);
        }
    }
    lemma_first_is(line, "crop="@, at);
    assert(line.subrange(at, line.len() as int) =~= f);
    lemma_one_piece(f, Separator::Space);
    let p = seq![f];
    let has = |w: Seq<char>| w.len() > 0;
    reveal(Seq::filter);
    assert(p.drop_last() =~= Seq::empty());
    assert(Seq::<Seq<char>>::empty().filter(has) =~= Seq::empty());
    assert(p.last() == f);
    assert(p.filter(has) =~= seq![f]);
    law_crop_filter_round_trip(c);
}

proof fn lemma_filter_chars(c: Crop)
    ensures
        crop_filter(c).len() > 5,
        forall|i: int|
            0 <= i < crop_filter(c).len() ==> !crate::text::separates(
                Separator::Space,
                #[trigger] crop_filter(c)[i],
            ),
{
    reveal_strlit("crop=");
    reveal_strlit(":");
    let (w, h, x, y) = (
        decimal(c.w as nat),
        decimal(c.h as nat),
        decimal(c.x as nat),
        decimal(c.y as nat),
    );
    law_decimal_round_trip(c.w as nat, c.w as nat);
    law_decimal_round_trip(c.h as nat, c.h as nat);
    law_decimal_round_trip(c.x as nat, c.x as nat);
    law_decimal_round_trip(c.y as nat, c.y as nat);
    let head = "crop="@;
    let colon = ":"@;
    lemma_unspaced_joined(head, w);
    lemma_unspaced_joined(head + w, colon);
    lemma_unspaced_joined(head + w + colon, h);
    lemma_unspaced_joined(head + w + colon + h, colon);
    lemma_unspaced_joined(head + w + colon + h + colon, x);
    lemma_unspaced_joined(head + w + colon + h + colon + x, colon);
    lemma_unspaced_joined(head + w + colon + h + colon + x + colon, y);
}

spec fn unspaced(s: Seq<char>) -> bool {
    forall|i: int| 0 <= i < s.len() ==> !crate::text::separates(Separator::Space, #[trigger] s[i])
}

proof fn lemma_unspaced_joined(a: Seq<char>, b: Seq<char>)
    requires
        unspaced(a),
        unspaced(b) || all_digits(b),
    ensures
        unspaced(a + b),
{
    assert forall|i: int| 0 <= i < (a + b).len() implies !crate::text::separates(
        Separator::Space,
        #[trigger] (a + b)[i],
    ) by {
        if i < a.len() {
            assert((a + b)[i] == a[i]);
        } else {
            assert((a + b)[i] == b[i - a.len()]);
        }
    }
}

/// A crop that was kept is the crop that is read, and one that was kept as none is none.
pub proof fn law_kept_crop_reads_back(c: Crop)
    ensures
        kept_crop(crop_filter(c)) == Some(crop_filter(c)),
        kept_crop(Seq::empty()) is None,
{
    lemma_filter_chars(c);
    let f = crop_filter(c);
    assert(!crate::text::separates(Separator::Space, f[0]));
    assert(!crate::text::separates(Separator::Space, f[f.len() - 1]));
    crate::text::lemma_trimmed_whole(f);
}

} // verus!
