//! The search for a chunk's CRF: the highest one that still holds a quality floor and a size
//! cap.
//!
//! A CRF is counted in quarter steps, the granularity of the encoders. Scores, sizes and
//! limits are fractions that are only ever compared here, so each is an integer that has the
//! order of the fractions it stands for.
use crate::config::{Config, ParamValue};
use crate::crop::{bounded, Crop};
use crate::hdr::{encoder_flags, HdrInfo};
use crate::hevc::{display_order, earlier, indices, law_display_order_sorts, sorted_by_time};
use crate::text::{
    char_lists, contains, decimal, decimal_string, find_from, first_at, from_chars, gives,
    has_prefix, is_digit, is_space, law_decimal_round_trip, lemma_decimal_is_plain,
    lemma_first_separator, lemma_gives_at, lemma_gives_joined, lemma_trimmed_whole, lines,
    occurs, parse_unsigned, part, push_decimal, push_two, push_words, same, split_lines,
    starts_with, str_of, strings, to_chars, trim, trim_start, trimmed, unsigned,
};
use vstd::prelude::*;
use vstd::string::*;

verus! {

/// A probe's own banding score, and how far it lies above that of the encoder's input.
#[derive(Clone, Copy, Debug, PartialEq, Eq, Structural)]
pub struct Cambi {
    pub score: i64,
    pub diff: i64,
}

/// What a probe at a CRF measured.
#[derive(Clone, Copy, Debug, PartialEq, Eq, Structural)]
pub struct Probe {
    pub crf: i64,
    pub jod: i64,
    pub cambi: Option<Cambi>,
    /// The size in percent of the source's bytes.
    pub size_pct: i64,
}

/// What a probe has to hold, the size cap aside.
#[derive(Clone, Copy, Debug, PartialEq, Eq, Structural)]
pub struct Floor {
    pub jod: i64,
    pub max_cambi: Option<i64>,
    pub max_cambi_diff: Option<i64>,
}

/// A limit on banding holds where there is none, or where the banding was measured and is
/// not above it.
pub open spec fn under(limit: Option<i64>, value: Option<i64>) -> bool {
    match (limit, value) {
        (None, _) => true,
        (Some(m), Some(v)) => v <= m,
        (Some(_), None) => false,
    }
}

pub open spec fn score_of(c: Option<Cambi>) -> Option<i64> {
    match c {
        Some(c) => Some(c.score),
        None => None,
    }
}

pub open spec fn diff_of(c: Option<Cambi>) -> Option<i64> {
    match c {
        Some(c) => Some(c.diff),
        None => None,
    }
}

/// Whether a probe holds the floor.
pub open spec fn held(f: Floor, p: Probe) -> bool {
    p.jod >= f.jod && under(f.max_cambi, score_of(p.cambi)) && under(
        f.max_cambi_diff,
        diff_of(p.cambi),
    )
}

fn is_under(limit: Option<i64>, value: Option<i64>) -> (r: bool)
    ensures
        r == under(limit, value),
{
    match limit {
        None => true,
        Some(m) => match value {
            Some(v) => v <= m,
            None => false,
        },
    }
}

impl Floor {
    /// Banding is measured only for a probe that holds the score, and only where it counts.
    pub fn needs_cambi(&self, jod: i64) -> (r: bool)
        ensures
            r == ((self.max_cambi is Some || self.max_cambi_diff is Some) && jod >= self.jod),
    {
        (self.max_cambi.is_some() || self.max_cambi_diff.is_some()) && jod >= self.jod
    }

    /// Whether a probe holds the floor.
    pub fn holds(&self, p: &Probe) -> (r: bool)
        ensures
            r == held(*self, *p),
    {
        let score = match p.cambi {
            Some(c) => Some(c.score),
            None => None,
        };
        let diff = match p.cambi {
            Some(c) => Some(c.diff),
            None => None,
        };
        p.jod >= self.jod && is_under(self.max_cambi, score) && is_under(self.max_cambi_diff, diff)
    }
}

/// A banding limit is never held by a probe whose banding was not measured.
pub proof fn law_unmeasured_banding_holds_no_limit(f: Floor, p: Probe)
    requires
        p.cambi is None,
        f.max_cambi is Some || f.max_cambi_diff is Some,
    ensures
        !held(f, p),
{
}

/// Without limits on banding the score alone counts, and one at the floor holds it. A limit is
/// held by what is measured at it or below, and a probe that scores no worse holds whatever
/// another one holds.
pub proof fn law_better_scores_hold_too(f: Floor, p: Probe, q: Probe)
    ensures
        f.max_cambi is None && f.max_cambi_diff is None ==> (held(f, p) <==> f.jod <= p.jod),
        held(f, p) ==> f.jod <= p.jod,
        held(f, p) && f.max_cambi is Some ==> p.cambi is Some && p.cambi->0.score
            <= f.max_cambi->0,
        held(f, p) && f.max_cambi_diff is Some ==> p.cambi is Some && p.cambi->0.diff
            <= f.max_cambi_diff->0,
        p.cambi is Some && p.jod >= f.jod && (f.max_cambi is None || p.cambi->0.score
            <= f.max_cambi->0) && (f.max_cambi_diff is None || p.cambi->0.diff
            <= f.max_cambi_diff->0) ==> held(f, p),
        held(f, p) && p.jod <= q.jod && (p.cambi is Some ==> q.cambi is Some && q.cambi->0.score
            <= p.cambi->0.score && q.cambi->0.diff <= p.cambi->0.diff) ==> held(f, q),
{
}

// ---------------------------------------------------------------------------
// Which probes count
// ---------------------------------------------------------------------------
/// A choice among probes.
#[derive(Clone, Copy, Debug, PartialEq, Eq, Structural)]
pub enum Pick {
    All,
    /// Those that hold the floor.
    Passing(Floor),
    Failing(Floor),
    /// Those under the size cap.
    Fitting(i64),
    /// Those over the size cap below a CRF.
    OverBelow(i64, i64),
    /// Those that hold the floor under the size cap.
    Both(Floor, i64),
}

pub open spec fn picked(pick: Pick, p: Probe) -> bool {
    match pick {
        Pick::All => true,
        Pick::Passing(f) => held(f, p),
        Pick::Failing(f) => !held(f, p),
        Pick::Fitting(cap) => p.size_pct <= cap,
        Pick::OverBelow(cap, crf) => p.size_pct > cap && p.crf < crf,
        Pick::Both(f, cap) => held(f, p) && p.size_pct <= cap,
    }
}

fn is_picked(pick: &Pick, p: &Probe) -> (r: bool)
    ensures
        r == picked(*pick, *p),
{
    match pick {
        Pick::All => true,
        Pick::Passing(f) => f.holds(p),
        Pick::Failing(f) => !f.holds(p),
        Pick::Fitting(cap) => p.size_pct <= *cap,
        Pick::OverBelow(cap, crf) => p.size_pct > *cap && p.crf < *crf,
        Pick::Both(f, cap) => f.holds(p) && p.size_pct <= *cap,
    }
}

/// The place of the probe with the highest CRF among those that are picked, the last of
/// equals.
pub open spec fn highest(pts: Seq<Probe>, pick: Pick) -> Option<int>
    decreases pts.len(),
{
    if pts.len() == 0 {
        None
    } else {
        let before = highest(pts.drop_last(), pick);
        let p = pts.last();
        if !picked(pick, p) {
            before
        } else {
            match before {
                Some(i) => if pts[i].crf > p.crf {
                    before
                } else {
                    Some(pts.len() - 1)
                },
                None => Some(pts.len() - 1),
            }
        }
    }
}

/// The place of the probe with the lowest CRF among those that are picked, the first of
/// equals.
pub open spec fn lowest(pts: Seq<Probe>, pick: Pick) -> Option<int>
    decreases pts.len(),
{
    if pts.len() == 0 {
        None
    } else {
        let before = lowest(pts.drop_last(), pick);
        let p = pts.last();
        if !picked(pick, p) {
            before
        } else {
            match before {
                Some(i) => if pts[i].crf <= p.crf {
                    before
                } else {
                    Some(pts.len() - 1)
                },
                None => Some(pts.len() - 1),
            }
        }
    }
}

/// The place of the smallest probe, the first of equals.
pub open spec fn smallest(pts: Seq<Probe>) -> Option<int>
    decreases pts.len(),
{
    if pts.len() == 0 {
        None
    } else {
        match smallest(pts.drop_last()) {
            Some(i) => if pts[i].size_pct <= pts.last().size_pct {
                Some(i)
            } else {
                Some(pts.len() - 1)
            },
            None => Some(0),
        }
    }
}

pub proof fn lemma_highest(pts: Seq<Probe>, pick: Pick)
    ensures
        match highest(pts, pick) {
            Some(i) => 0 <= i < pts.len() && picked(pick, pts[i]) && forall|k: int|
                0 <= k < pts.len() && picked(pick, #[trigger] pts[k]) ==> pts[k].crf <= pts[i].crf,
            None => forall|k: int| 0 <= k < pts.len() ==> !picked(pick, #[trigger] pts[k]),
        },
    decreases pts.len(),
{
    if pts.len() > 0 {
        let front = pts.drop_last();
        lemma_highest(front, pick);
        assert forall|k: int| 0 <= k < front.len() implies #[trigger] pts[k] == front[k] by {}
    }
}

pub proof fn lemma_lowest(pts: Seq<Probe>, pick: Pick)
    ensures
        match lowest(pts, pick) {
            Some(i) => 0 <= i < pts.len() && picked(pick, pts[i]) && forall|k: int|
                0 <= k < pts.len() && picked(pick, #[trigger] pts[k]) ==> pts[i].crf <= pts[k].crf,
            None => forall|k: int| 0 <= k < pts.len() ==> !picked(pick, #[trigger] pts[k]),
        },
    decreases pts.len(),
{
    if pts.len() > 0 {
        let front = pts.drop_last();
        lemma_lowest(front, pick);
        assert forall|k: int| 0 <= k < front.len() implies #[trigger] pts[k] == front[k] by {}
    }
}

pub proof fn lemma_smallest(pts: Seq<Probe>)
    ensures
        match smallest(pts) {
            Some(i) => 0 <= i < pts.len() && forall|k: int|
                0 <= k < pts.len() ==> pts[i].size_pct <= (#[trigger] pts[k]).size_pct,
            None => pts.len() == 0,
        },
    decreases pts.len(),
{
    if pts.len() > 0 {
        let front = pts.drop_last();
        lemma_smallest(front);
        assert forall|k: int| 0 <= k < front.len() implies #[trigger] pts[k] == front[k] by {}
    }
}

fn find_highest(pts: &[Probe], pick: &Pick) -> (r: Option<usize>)
    ensures
        match r {
            Some(i) => highest(pts@, *pick) == Some(i as int) && i < pts@.len(),
            None => highest(pts@, *pick) is None,
        },
{
    let mut best: Option<usize> = None;
    let mut i: usize = 0;
    assert(pts@.subrange(0, 0) =~= Seq::empty());
    while i < pts.len()
        invariant
            i <= pts@.len(),
            match best {
                Some(b) => highest(pts@.subrange(0, i as int), *pick) == Some(b as int) && b < i,
                None => highest(pts@.subrange(0, i as int), *pick) is None,
            },
        decreases pts@.len() - i,
    {
        assert(pts@.subrange(0, i + 1).drop_last() =~= pts@.subrange(0, i as int));
        let p = pts[i];
        if is_picked(pick, &p) {
            match best {
                Some(b) => {
                    if pts[b].crf <= p.crf {
                        best = Some(i);
                    }
                },
                None => {
                    best = Some(i);
                },
            }
        }
        i = i + 1;
    }
    assert(pts@.subrange(0, i as int) =~= pts@);
    best
}

fn find_lowest(pts: &[Probe], pick: &Pick) -> (r: Option<usize>)
    ensures
        match r {
            Some(i) => lowest(pts@, *pick) == Some(i as int) && i < pts@.len(),
            None => lowest(pts@, *pick) is None,
        },
{
    let mut best: Option<usize> = None;
    let mut i: usize = 0;
    assert(pts@.subrange(0, 0) =~= Seq::empty());
    while i < pts.len()
        invariant
            i <= pts@.len(),
            match best {
                Some(b) => lowest(pts@.subrange(0, i as int), *pick) == Some(b as int) && b < i,
                None => lowest(pts@.subrange(0, i as int), *pick) is None,
            },
        decreases pts@.len() - i,
    {
        assert(pts@.subrange(0, i + 1).drop_last() =~= pts@.subrange(0, i as int));
        let p = pts[i];
        if is_picked(pick, &p) {
            match best {
                Some(b) => {
                    if pts[b].crf > p.crf {
                        best = Some(i);
                    }
                },
                None => {
                    best = Some(i);
                },
            }
        }
        i = i + 1;
    }
    assert(pts@.subrange(0, i as int) =~= pts@);
    best
}

fn find_smallest(pts: &[Probe]) -> (r: Option<usize>)
    ensures
        match r {
            Some(i) => smallest(pts@) == Some(i as int) && i < pts@.len(),
            None => smallest(pts@) is None,
        },
{
    let mut best: Option<usize> = None;
    let mut i: usize = 0;
    assert(pts@.subrange(0, 0) =~= Seq::empty());
    while i < pts.len()
        invariant
            i <= pts@.len(),
            match best {
                Some(b) => smallest(pts@.subrange(0, i as int)) == Some(b as int) && b < i,
                None => smallest(pts@.subrange(0, i as int)) is None && i == 0,
            },
        decreases pts@.len() - i,
    {
        assert(pts@.subrange(0, i + 1).drop_last() =~= pts@.subrange(0, i as int));
        match best {
            Some(b) => {
                if pts[b].size_pct > pts[i].size_pct {
                    best = Some(i);
                }
            },
            None => {
                best = Some(i);
            },
        }
        i = i + 1;
    }
    assert(pts@.subrange(0, i as int) =~= pts@);
    best
}

// ---------------------------------------------------------------------------
// The next CRF
// ---------------------------------------------------------------------------
/// `v`, but not below `lo` or above `hi`.
pub open spec fn clamped(v: int, lo: int, hi: int) -> int {
    if v < lo {
        lo
    } else if v > hi {
        hi
    } else {
        v
    }
}

/// The step in the middle, up from a half.
pub open spec fn middle(a: int, b: int) -> int {
    (a + b + 1) / 2
}

/// Whether a CRF was probed.
pub open spec fn probed(pts: Seq<Probe>, crf: int) -> bool {
    exists|i: int| 0 <= i < pts.len() && (#[trigger] pts[i]).crf == crf
}

/// Whether every probe that fails does so on its score. One that failed on banding alone
/// gives the score's secant nothing to aim at.
pub open spec fn by_jod(pts: Seq<Probe>, f: Floor) -> bool {
    forall|i: int| 0 <= i < pts.len() && !held(f, #[trigger] pts[i]) ==> pts[i].jod < f.jod
}

/// A step strictly between two that was not probed yet.
pub open spec fn fresh_between(pts: Seq<Probe>, crf: int, p: int, f: int) -> bool {
    p < crf < f && !probed(pts, crf)
}

/// The next CRF to probe: between the highest that passes and the lowest that fails, above
/// all where everything passes, below all where everything fails. None once the crossing is
/// bracketed to one step, a bound is hit, or the steps are used up. `guess` is where the
/// secant of the scores meets the floor.
pub open spec fn next_of(pts: Seq<Probe>, floor: Floor, lo: int, hi: int, guess: int) -> Option<
    int,
> {
    match (highest(pts, Pick::Passing(floor)), lowest(pts, Pick::Failing(floor))) {
        (Some(hp), Some(lf)) => {
            let p = pts[hp].crf as int;
            let f = pts[lf].crf as int;
            if f - p <= 1 {
                None
            } else {
                let first = clamped(
                    if by_jod(pts, floor) {
                        guess
                    } else {
                        middle(p, f)
                    },
                    p,
                    f,
                );
                if fresh_between(pts, first, p, f) {
                    Some(first)
                } else if fresh_between(pts, middle(p, f), p, f) {
                    Some(middle(p, f))
                } else {
                    None
                }
            }
        },
        (Some(hp), None) => {
            let p = pts[hp].crf as int;
            let next = clamped(guess, p + 1, hi);
            if p >= hi || probed(pts, next) {
                None
            } else {
                Some(next)
            }
        },
        (None, Some(lf)) => {
            let f = pts[lf].crf as int;
            let next = clamped(
                if by_jod(pts, floor) {
                    guess
                } else {
                    middle(lo, f)
                },
                lo,
                f - 1,
            );
            if f <= lo || probed(pts, next) {
                None
            } else {
                Some(next)
            }
        },
        (None, None) => None,
    }
}

fn clamp(v: i64, lo: i64, hi: i64) -> (r: i64)
    ensures
        r == clamped(v as int, lo as int, hi as int),
{
    if v < lo {
        lo
    } else if v > hi {
        hi
    } else {
        v
    }
}

fn mid(a: i64, b: i64) -> (r: i64)
    requires
        0 <= a <= MAX_CRF,
        0 <= b <= MAX_CRF,
    ensures
        r == middle(a as int, b as int),
{
    ((a + b + 1) as u64 / 2) as i64
}

/// A CRF that no encoder has: a bound that keeps the arithmetic on steps small.
pub const MAX_CRF: i64 = 1_000_000;

fn already(pts: &[Probe], crf: i64) -> (r: bool)
    ensures
        r == probed(pts@, crf as int),
{
    let mut i: usize = 0;
    while i < pts.len()
        invariant
            i <= pts@.len(),
            forall|k: int| 0 <= k < i ==> (#[trigger] pts@[k]).crf != crf,
        decreases pts@.len() - i,
    {
        if pts[i].crf == crf {
            return true;
        }
        i = i + 1;
    }
    false
}

fn fails_by_jod(pts: &[Probe], floor: &Floor) -> (r: bool)
    ensures
        r == by_jod(pts@, *floor),
{
    let mut i: usize = 0;
    while i < pts.len()
        invariant
            i <= pts@.len(),
            forall|k: int|
                0 <= k < i && !held(*floor, #[trigger] pts@[k]) ==> pts@[k].jod < floor.jod,
        decreases pts@.len() - i,
    {
        if !floor.holds(&pts[i]) && pts[i].jod >= floor.jod {
            assert(!held(*floor, pts@[i as int]));
            return false;
        }
        i = i + 1;
    }
    true
}

/// Every CRF of these probes is one.
pub open spec fn crfs_ok(pts: Seq<Probe>) -> bool {
    forall|i: int| 0 <= i < pts.len() ==> 0 <= (#[trigger] pts[i]).crf <= MAX_CRF
}

pub fn next_crf(pts: &[Probe], floor: &Floor, lo: i64, hi: i64, guess: i64) -> (r: Option<i64>)
    requires
        crfs_ok(pts@),
        0 <= lo <= hi <= MAX_CRF,
    ensures
        match r {
            Some(c) => next_of(pts@, *floor, lo as int, hi as int, guess as int) == Some(c as int),
            None => next_of(pts@, *floor, lo as int, hi as int, guess as int) is None,
        },
{
    let pass = find_highest(pts, &Pick::Passing(*floor));
    let fail = find_lowest(pts, &Pick::Failing(*floor));
    let secant = fails_by_jod(pts, floor);
    match (pass, fail) {
        (Some(hp), Some(lf)) => {
            let p: i64 = pts[hp].crf;
            let f: i64 = pts[lf].crf;
            assert(0 <= pts@[hp as int].crf <= MAX_CRF && 0 <= pts@[lf as int].crf <= MAX_CRF);
            if f - p <= 1 {
                return None;
            }
            let half: i64 = mid(p, f);
            let first: i64 = clamp(
                if secant {
                    guess
                } else {
                    half
                },
                p,
                f,
            );
            if p < first && first < f && !already(pts, first) {
                Some(first)
            } else if p < half && half < f && !already(pts, half) {
                Some(half)
            } else {
                None
            }
        },
        (Some(hp), None) => {
            let p: i64 = pts[hp].crf;
            assert(0 <= pts@[hp as int].crf <= MAX_CRF);
            if p >= hi {
                return None;
            }
            let next: i64 = clamp(guess, p + 1, hi);
            if already(pts, next) {
                None
            } else {
                Some(next)
            }
        },
        (None, Some(lf)) => {
            let f: i64 = pts[lf].crf;
            assert(0 <= pts@[lf as int].crf <= MAX_CRF);
            if f <= lo {
                return None;
            }
            let next: i64 = clamp(
                if secant {
                    guess
                } else {
                    mid(lo, f)
                },
                lo,
                f - 1,
            );
            if already(pts, next) {
                None
            } else {
                Some(next)
            }
        },
        (None, None) => None,
    }
}

/// Every one of these probes holds the floor.
pub open spec fn all_hold(pts: Seq<Probe>, floor: Floor) -> bool {
    forall|i: int| 0 <= i < pts.len() ==> held(floor, #[trigger] pts[i])
}

/// None of these probes holds the floor.
pub open spec fn none_holds(pts: Seq<Probe>, floor: Floor) -> bool {
    forall|i: int| 0 <= i < pts.len() ==> !held(floor, #[trigger] pts[i])
}

/// `p` is the highest CRF that held the floor.
pub open spec fn top_pass(pts: Seq<Probe>, floor: Floor, p: int) -> bool {
    &&& exists|i: int| 0 <= i < pts.len() && held(floor, #[trigger] pts[i]) && pts[i].crf == p
    &&& forall|i: int| 0 <= i < pts.len() && held(floor, #[trigger] pts[i]) ==> pts[i].crf <= p
}

/// `f` is the lowest CRF that did not hold the floor.
pub open spec fn bottom_fail(pts: Seq<Probe>, floor: Floor, f: int) -> bool {
    &&& exists|i: int| 0 <= i < pts.len() && !held(floor, #[trigger] pts[i]) && pts[i].crf == f
    &&& forall|i: int| 0 <= i < pts.len() && !held(floor, #[trigger] pts[i]) ==> f <= pts[i].crf
}

/// The crossing is looked for as long as there is somewhere left to look. Where nothing holds
/// the floor and the lowest CRF was not tried, a lower one than all is next; where everything
/// holds it and the highest was not tried, a higher one; and where some do and some do not, one
/// strictly between, until they are one step apart.
pub proof fn law_crossing_is_looked_for_to_the_end(
    pts: Seq<Probe>,
    floor: Floor,
    lo: int,
    hi: int,
    guess: int,
)
    requires
        lo <= hi,
        pts.len() > 0,
        forall|i: int| 0 <= i < pts.len() ==> lo <= (#[trigger] pts[i]).crf <= hi,
    ensures
        ({
            let next = next_of(pts, floor, lo, hi, guess);
            &&& none_holds(pts, floor) && (forall|i: int|
                0 <= i < pts.len() ==> lo < (#[trigger] pts[i]).crf) ==> next is Some && lo
                <= next->0 && forall|i: int|
                0 <= i < pts.len() ==> next->0 < (#[trigger] pts[i]).crf
            &&& none_holds(pts, floor) && next is None ==> exists|i: int|
                0 <= i < pts.len() && (#[trigger] pts[i]).crf == lo
            &&& all_hold(pts, floor) && (forall|i: int|
                0 <= i < pts.len() ==> (#[trigger] pts[i]).crf < hi) ==> next is Some && next->0
                <= hi && forall|i: int| 0 <= i < pts.len() ==> (#[trigger] pts[i]).crf < next->0
            &&& all_hold(pts, floor) && next is None ==> exists|i: int|
                0 <= i < pts.len() && (#[trigger] pts[i]).crf == hi
            &&& forall|p: int, f: int|
                #[trigger] top_pass(pts, floor, p) && #[trigger] bottom_fail(pts, floor, f) ==> {
                    &&& next is None <==> f <= p + 1
                    &&& next is Some ==> p < next->0 < f
                }
        }),
{
    let (pass, fail) = (Pick::Passing(floor), Pick::Failing(floor));
    lemma_highest(pts, pass);
    lemma_lowest(pts, fail);
    assert forall|k: int| 0 <= k < pts.len() implies picked(pass, #[trigger] pts[k]) == held(
        floor,
        pts[k],
    ) && picked(fail, pts[k]) == !held(floor, pts[k]) by {}
    assert(held(floor, pts[0]) || !held(floor, pts[0]));
    let next = next_of(pts, floor, lo, hi, guess);
    match (highest(pts, pass), lowest(pts, fail)) {
        (Some(i), Some(k)) => {
            let (p, f) = (pts[i].crf as int, pts[k].crf as int);
            assert(held(floor, pts[i]) && !held(floor, pts[k]));
            assert(top_pass(pts, floor, p) && bottom_fail(pts, floor, f));
            if f - p > 1 {
                assert(!probed(pts, middle(p, f))) by {
                    if probed(pts, middle(p, f)) {
                        let j = choose|j: int|
                            0 <= j < pts.len() && (#[trigger] pts[j]).crf == middle(p, f);
                        assert(held(floor, pts[j]) || !held(floor, pts[j]));
                    }
                }
            }
        },
        (Some(i), None) => {
            assert(held(floor, pts[i]));
            let p = pts[i].crf as int;
            let c = clamped(guess, p + 1, hi);
            if p < hi {
                assert(!probed(pts, c)) by {
                    if probed(pts, c) {
                        let j = choose|j: int| 0 <= j < pts.len() && (#[trigger] pts[j]).crf == c;
                        assert(held(floor, pts[j]));
                    }
                }
                assert forall|j: int| 0 <= j < pts.len() implies (#[trigger] pts[j]).crf < c by {
                    assert(held(floor, pts[j]));
                }
            }
        },
        (None, Some(k)) => {
            assert(!held(floor, pts[k]));
            let f = pts[k].crf as int;
            if f > lo {
                let c = next_of(pts, floor, lo, hi, guess);
                assert forall|v: int| lo <= v < f implies !#[trigger] probed(pts, v) by {
                    if probed(pts, v) {
                        let j = choose|j: int| 0 <= j < pts.len() && (#[trigger] pts[j]).crf == v;
                        assert(!held(floor, pts[j]));
                    }
                }
                assert(c is Some && lo <= c->0 < f);
                assert forall|j: int| 0 <= j < pts.len() implies c->0 < (#[trigger] pts[j]).crf by {
                    assert(!held(floor, pts[j]));
                }
            }
        },
        (None, None) => {},
    }
}

/// Where every probe that fails does so by its score, the search goes where the secant of the
/// scores meets the floor, as far as that lies where it looks; where one failed on banding, it
/// halves instead.
pub proof fn law_search_follows_the_scores(
    pts: Seq<Probe>,
    floor: Floor,
    lo: int,
    hi: int,
    guess: int,
)
    requires
        lo <= hi,
        pts.len() > 0,
        forall|i: int| 0 <= i < pts.len() ==> lo <= (#[trigger] pts[i]).crf <= hi,
    ensures
        ({
            let next = next_of(pts, floor, lo, hi, guess);
            let by_score = forall|i: int|
                0 <= i < pts.len() ==> held(floor, #[trigger] pts[i]) || pts[i].jod < floor.jod;
            &&& all_hold(pts, floor) ==> forall|p: int|
                #[trigger] top_pass(pts, floor, p) && p < hi ==> {
                    &&& p < guess <= hi ==> next == Some(guess)
                    &&& guess <= p ==> next == Some(p + 1)
                    &&& guess > hi ==> next == Some(hi)
                }
            &&& none_holds(pts, floor) ==> forall|f: int|
                #[trigger] bottom_fail(pts, floor, f) && lo < f ==> {
                    &&& by_score && lo <= guess < f ==> next == Some(guess)
                    &&& by_score && guess < lo ==> next == Some(lo)
                    &&& by_score && guess >= f ==> next == Some(f - 1)
                    &&& !by_score ==> next is Some && (2 * next->0 == lo + f || 2 * next->0 == lo
                        + f + 1 || next->0 == f - 1 && f == lo + 1)
                }
            &&& forall|p: int, f: int|
                #[trigger] top_pass(pts, floor, p) && #[trigger] bottom_fail(pts, floor, f) && p + 1
                    < f ==> {
                    &&& by_score && p < guess < f ==> next == Some(guess)
                    &&& !by_score || guess <= p || f <= guess ==> next is Some && (2 * next->0 == p
                        + f || 2 * next->0 == p + f + 1)
                }
        }),
{
    let (pass, fail) = (Pick::Passing(floor), Pick::Failing(floor));
    lemma_highest(pts, pass);
    lemma_lowest(pts, fail);
    assert forall|k: int| 0 <= k < pts.len() implies picked(pass, #[trigger] pts[k]) == held(
        floor,
        pts[k],
    ) && picked(fail, pts[k]) == !held(floor, pts[k]) by {}
    let by_score = forall|i: int|
        0 <= i < pts.len() ==> held(floor, #[trigger] pts[i]) || pts[i].jod < floor.jod;
    assert(by_score == by_jod(pts, floor));
    assert(held(floor, pts[0]) || !held(floor, pts[0]));
    match (highest(pts, pass), lowest(pts, fail)) {
        (Some(i), Some(k)) => {
            let (p, f) = (pts[i].crf as int, pts[k].crf as int);
            assert(held(floor, pts[i]) && !held(floor, pts[k]));
            assert forall|v: int| p < v < f implies !#[trigger] probed(pts, v) by {
                if probed(pts, v) {
                    let j = choose|j: int| 0 <= j < pts.len() && (#[trigger] pts[j]).crf == v;
                    assert(held(floor, pts[j]) || !held(floor, pts[j]));
                }
            }
            assert(!probed(pts, middle(p, f)) || f - p <= 1);
            assert(!probed(pts, guess) || !(p < guess < f));
        },
        (Some(i), None) => {
            assert(held(floor, pts[i]));
            assert forall|v: int| pts[i].crf < v implies !#[trigger] probed(pts, v) by {
                if probed(pts, v) {
                    let j = choose|j: int| 0 <= j < pts.len() && (#[trigger] pts[j]).crf == v;
                    assert(held(floor, pts[j]));
                }
            }
            assert(!probed(pts, clamped(guess, pts[i].crf + 1, hi)) || pts[i].crf >= hi);
        },
        (None, Some(k)) => {
            assert(!held(floor, pts[k]));
            assert forall|v: int| v < pts[k].crf implies !#[trigger] probed(pts, v) by {
                if probed(pts, v) {
                    let j = choose|j: int| 0 <= j < pts.len() && (#[trigger] pts[j]).crf == v;
                    assert(!held(floor, pts[j]));
                }
            }
            let f = pts[k].crf as int;
            if lo < f {
                assert(!probed(pts, clamped(guess, lo, f - 1)));
                assert(!probed(pts, clamped(middle(lo, f), lo, f - 1)));
            }
        },
        (None, None) => {},
    }
}

// ---------------------------------------------------------------------------
// The decision
// ---------------------------------------------------------------------------
/// Why the search settled on its CRF.
#[derive(Clone, Copy, Debug, PartialEq, Eq, Structural)]
pub enum SolveOutcome {
    /// The highest CRF that holds the floor within the size cap.
    Met,
    /// The size cap forced a higher CRF than the floor allowed; the floor is not held.
    CapBinding,
    /// The floor is out of reach; the best quality within the cap is used.
    FloorUnreachable,
}

/// The CRF that the search settled on, and the probe that it was found by.
#[derive(Clone, Copy, Debug, PartialEq, Eq, Structural)]
pub struct SolveResult {
    pub crf: i64,
    pub probe: Option<usize>,
    pub outcome: SolveOutcome,
}

/// The probe that is chosen, and why: the highest CRF that holds both, else the lowest under
/// the cap, else the smallest.
pub open spec fn decided(pts: Seq<Probe>, floor: Floor, cap: i64) -> (Option<int>, SolveOutcome) {
    match highest(pts, Pick::Both(floor, cap)) {
        Some(i) => (Some(i), SolveOutcome::Met),
        None => match lowest(pts, Pick::Fitting(cap)) {
            Some(i) => (
                Some(i),
                if highest(pts, Pick::Passing(floor)) is Some {
                    SolveOutcome::CapBinding
                } else {
                    SolveOutcome::FloorUnreachable
                },
            ),
            None => match smallest(pts) {
                Some(i) => (Some(i), SolveOutcome::CapBinding),
                None => (None, SolveOutcome::FloorUnreachable),
            },
        },
    }
}

/// The highest CRF that holds both, else the floor gives way to the cap, else the smallest
/// chunk; the lowest CRF where nothing was probed.
pub fn decide(pts: &[Probe], floor: &Floor, cap: i64, lo: i64) -> (r: SolveResult)
    ensures
        ({
            let (at, outcome) = decided(pts@, *floor, cap);
            &&& r.outcome == outcome
            &&& match r.probe {
                Some(i) => at == Some(i as int) && i < pts@.len() && r.crf == pts@[i as int].crf,
                None => at is None && r.crf == lo,
            }
        }),
{
    if let Some(i) = find_highest(pts, &Pick::Both(*floor, cap)) {
        return SolveResult { crf: pts[i].crf, probe: Some(i), outcome: SolveOutcome::Met };
    }
    if let Some(i) = find_lowest(pts, &Pick::Fitting(cap)) {
        let outcome = if find_highest(pts, &Pick::Passing(*floor)).is_some() {
            SolveOutcome::CapBinding
        } else {
            SolveOutcome::FloorUnreachable
        };
        return SolveResult { crf: pts[i].crf, probe: Some(i), outcome };
    }
    match find_smallest(pts) {
        Some(i) => SolveResult {
            crf: pts[i].crf,
            probe: Some(i),
            outcome: SolveOutcome::CapBinding,
        },
        None => SolveResult { crf: lo, probe: None, outcome: SolveOutcome::FloorUnreachable },
    }
}

/// Where a probe holds every limit, the highest such CRF is used. Where none does, the lowest
/// CRF under the size cap, and where none is under it, the smallest probe. The floor counts as
/// out of reach exactly where no probe holds it, but some are under the cap.
pub proof fn law_best_probe_is_chosen(pts: Seq<Probe>, floor: Floor, cap: i64)
    ensures
        pts.len() > 0 ==> decided(pts, floor, cap).0 is Some,
        match decided(pts, floor, cap) {
            (Some(i), outcome) => {
                &&& 0 <= i < pts.len()
                &&& outcome == SolveOutcome::Met <==> exists|k: int|
                    0 <= k < pts.len() && held(floor, #[trigger] pts[k]) && pts[k].size_pct <= cap
                &&& outcome == SolveOutcome::FloorUnreachable <==> (forall|k: int|
                    0 <= k < pts.len() ==> !held(floor, #[trigger] pts[k])) && (exists|k: int|
                    0 <= k < pts.len() && (#[trigger] pts[k]).size_pct <= cap)
                &&& outcome == SolveOutcome::Met ==> held(floor, pts[i]) && pts[i].size_pct <= cap
                    && forall|k: int|
                    0 <= k < pts.len() && held(floor, #[trigger] pts[k]) && pts[k].size_pct <= cap
                        ==> pts[k].crf <= pts[i].crf
                &&& outcome != SolveOutcome::Met && (exists|k: int|
                    0 <= k < pts.len() && (#[trigger] pts[k]).size_pct <= cap) ==> pts[i].size_pct
                    <= cap && forall|k: int|
                    0 <= k < pts.len() && (#[trigger] pts[k]).size_pct <= cap ==> pts[i].crf
                        <= pts[k].crf
                &&& (forall|k: int| 0 <= k < pts.len() ==> (#[trigger] pts[k]).size_pct > cap)
                    ==> forall|k: int|
                    0 <= k < pts.len() ==> pts[i].size_pct <= (#[trigger] pts[k]).size_pct
            },
            (None, _) => pts.len() == 0,
        },
{
    lemma_highest(pts, Pick::Both(floor, cap));
    lemma_highest(pts, Pick::Passing(floor));
    lemma_lowest(pts, Pick::Fitting(cap));
    lemma_smallest(pts);
    assert forall|k: int| 0 <= k < pts.len() implies picked(
        Pick::Passing(floor),
        #[trigger] pts[k],
    ) == held(floor, pts[k]) by {}
    assert forall|k: int| 0 <= k < pts.len() implies (picked(
        Pick::Both(floor, cap),
        #[trigger] pts[k],
    ) == (held(floor, pts[k]) && pts[k].size_pct <= cap)) && (picked(Pick::Fitting(cap), pts[k])
        == (pts[k].size_pct <= cap)) by {}
}

// ---------------------------------------------------------------------------
// The search
// ---------------------------------------------------------------------------
/// What the search looks for, and how far it goes.
#[derive(Clone, Copy, Debug, PartialEq, Eq, Structural)]
pub struct Limits {
    pub floor: Floor,
    /// A probe that holds the floor with a score not above this one ends the search.
    pub stop_at: i64,
    /// The greatest size.
    pub cap: i64,
    pub lo: i64,
    pub hi: i64,
    /// Probes before a score may end the search.
    pub min_probes: u32,
    pub max_probes: u32,
}

pub open spec fn limits_ok(l: Limits) -> bool {
    0 <= l.lo <= l.hi <= MAX_CRF
}

/// What a probe is made for.
#[derive(Clone, Copy, Debug, PartialEq, Eq, Structural)]
pub enum Phase {
    /// To find where the floor is crossed.
    Crossing,
    /// To get under the size cap, which the search for the floor does not look at.
    ChasingCap,
    /// To get back down towards the cap, as the chase can overshoot and a lower CRF under
    /// the cap is free quality.
    NarrowingCap,
}

/// Whether the last probe ends the search for the crossing: just above the floor, within the
/// size cap, after enough probes.
pub open spec fn good_enough(l: Limits, pts: Seq<Probe>) -> bool {
    pts.len() >= l.min_probes && held(l.floor, pts.last()) && pts.last().jod <= l.stop_at
        && pts.last().size_pct <= l.cap
}

/// The next probe that gets back down towards the cap.
pub open spec fn narrowing(l: Limits, pts: Seq<Probe>) -> Option<(int, Phase)> {
    if pts.len() >= l.max_probes || highest(pts, Pick::Both(l.floor, l.cap)) is Some {
        None
    } else {
        match lowest(pts, Pick::Fitting(l.cap)) {
            None => None,
            Some(i) => {
                let fit = pts[i].crf as int;
                match highest(pts, Pick::OverBelow(l.cap, pts[i].crf)) {
                    None => None,
                    Some(k) => {
                        let over = pts[k].crf as int;
                        let next = clamped(middle(over, fit), over + 1, fit - 1);
                        if fit - over <= 1 || probed(pts, next) {
                            None
                        } else {
                            Some((next, Phase::NarrowingCap))
                        }
                    },
                }
            },
        }
    }
}

/// The next probe that gets under the cap, or back down to it.
pub open spec fn chasing(l: Limits, pts: Seq<Probe>) -> Option<(int, Phase)> {
    if pts.len() >= l.max_probes || lowest(pts, Pick::Fitting(l.cap)) is Some {
        narrowing(l, pts)
    } else {
        match highest(pts, Pick::All) {
            None => narrowing(l, pts),
            Some(i) => {
                let top = pts[i].crf as int;
                let next = clamped(middle(top, l.hi as int), top + 1, l.hi as int);
                if top >= l.hi || probed(pts, next) {
                    narrowing(l, pts)
                } else {
                    Some((next, Phase::ChasingCap))
                }
            },
        }
    }
}

/// What is probed next, and what for; None once the search is over.
pub open spec fn next_probe(l: Limits, pts: Seq<Probe>, phase: Phase, guess: int) -> Option<
    (int, Phase),
> {
    match phase {
        Phase::Crossing => if pts.len() >= l.max_probes || good_enough(l, pts) {
            chasing(l, pts)
        } else {
            match next_of(pts, l.floor, l.lo as int, l.hi as int, guess) {
                Some(next) => if next != pts.last().crf {
                    Some((next, Phase::Crossing))
                } else {
                    chasing(l, pts)
                },
                None => chasing(l, pts),
            }
        },
        Phase::ChasingCap => chasing(l, pts),
        Phase::NarrowingCap => narrowing(l, pts),
    }
}

/// Whether what is asked for next is what it should be.
pub open spec fn asks(r: Option<(i64, Phase)>, want: Option<(int, Phase)>) -> bool {
    match r {
        Some((c, phase)) => want == Some((c as int, phase)),
        None => want is None,
    }
}

fn ask_narrowing(l: &Limits, pts: &[Probe]) -> (r: Option<(i64, Phase)>)
    requires
        limits_ok(*l),
        crfs_ok(pts@),
    ensures
        asks(r, narrowing(*l, pts@)),
{
    if pts.len() as u64 >= l.max_probes as u64 || find_highest(
        pts,
        &Pick::Both(l.floor, l.cap),
    ).is_some() {
        return None;
    }
    let fit_at = find_lowest(pts, &Pick::Fitting(l.cap));
    let fit: i64 = match fit_at {
        Some(i) => pts[i].crf,
        None => {
            return None;
        },
    };
    let over_at = find_highest(pts, &Pick::OverBelow(l.cap, fit));
    let over: i64 = match over_at {
        Some(k) => pts[k].crf,
        None => {
            return None;
        },
    };
    assert(0 <= pts@[fit_at->0 as int].crf <= MAX_CRF);
    assert(0 <= pts@[over_at->0 as int].crf <= MAX_CRF);
    if fit - over <= 1 {
        return None;
    }
    let next: i64 = clamp(mid(over, fit), over + 1, fit - 1);
    if already(pts, next) {
        None
    } else {
        Some((next, Phase::NarrowingCap))
    }
}

fn ask_chasing(l: &Limits, pts: &[Probe]) -> (r: Option<(i64, Phase)>)
    requires
        limits_ok(*l),
        crfs_ok(pts@),
    ensures
        asks(r, chasing(*l, pts@)),
{
    if pts.len() as u64 >= l.max_probes as u64 || find_lowest(
        pts,
        &Pick::Fitting(l.cap),
    ).is_some() {
        return ask_narrowing(l, pts);
    }
    let top_at = find_highest(pts, &Pick::All);
    let top: i64 = match top_at {
        Some(i) => pts[i].crf,
        None => {
            return ask_narrowing(l, pts);
        },
    };
    assert(0 <= pts@[top_at->0 as int].crf <= MAX_CRF);
    if top >= l.hi {
        return ask_narrowing(l, pts);
    }
    let next: i64 = clamp(mid(top, l.hi), top + 1, l.hi);
    if already(pts, next) {
        ask_narrowing(l, pts)
    } else {
        Some((next, Phase::ChasingCap))
    }
}

/// A search under way: the probes that were made.
#[derive(Debug)]
pub struct Search {
    pub limits: Limits,
    pub pts: Vec<Probe>,
    pub phase: Phase,
}

impl Search {
    /// A search without a probe. The first one is made at the seed.
    pub fn new(limits: Limits) -> (s: Search)
        ensures
            s.limits == limits,
            s.pts@.len() == 0,
            s.phase == Phase::Crossing,
    {
        Search { limits, pts: Vec::new(), phase: Phase::Crossing }
    }

    /// Takes a probe and tells at which CRF the next one is made; None once the search is
    /// over. `guess` is where the secant of the scores, this one among them, meets the floor,
    /// in whole steps.
    pub fn advance(&mut self, probe: Probe, guess: i64) -> (r: Option<i64>)
        requires
            limits_ok(old(self).limits),
            crfs_ok(old(self).pts@),
            0 <= probe.crf <= MAX_CRF,
        ensures
            final(self).limits == old(self).limits,
            final(self).pts@ == old(self).pts@.push(probe),
            crfs_ok(final(self).pts@),
            ({
                let want = next_probe(
                    old(self).limits,
                    old(self).pts@.push(probe),
                    old(self).phase,
                    guess as int,
                );
                match r {
                    Some(c) => want == Some((c as int, final(self).phase)),
                    None => want is None && final(self).phase == old(self).phase,
                }
            }),
    {
        let ghost before = self.pts@;
        self.pts.push(probe);
        assert forall|i: int| 0 <= i < self.pts@.len() implies 0 <= (#[trigger] self.pts@[i]).crf
            <= MAX_CRF by {
            if i < before.len() {
                assert(self.pts@[i] == before[i]);
            }
        }
        let l = self.limits;
        let pts = self.pts.as_slice();
        let n: u64 = pts.len() as u64;
        let ask: Option<(i64, Phase)> = match self.phase {
            Phase::Crossing => {
                let enough = n >= l.min_probes as u64 && l.floor.holds(&probe) && probe.jod
                    <= l.stop_at && probe.size_pct <= l.cap;
                if n >= l.max_probes as u64 || enough {
                    ask_chasing(&l, pts)
                } else {
                    match next_crf(pts, &l.floor, l.lo, l.hi, guess) {
                        Some(next) => {
                            if next != probe.crf {
                                Some((next, Phase::Crossing))
                            } else {
                                ask_chasing(&l, pts)
                            }
                        },
                        None => ask_chasing(&l, pts),
                    }
                }
            },
            Phase::ChasingCap => ask_chasing(&l, pts),
            Phase::NarrowingCap => ask_narrowing(&l, pts),
        };
        match ask {
            Some((next, phase)) => {
                self.phase = phase;
                Some(next)
            },
            None => None,
        }
    }

    /// What the search settled on.
    pub fn result(&self) -> (r: SolveResult)
        ensures
            ({
                let (at, outcome) = decided(self.pts@, self.limits.floor, self.limits.cap);
                &&& r.outcome == outcome
                &&& match r.probe {
                    Some(i) => at == Some(i as int) && i < self.pts@.len() && r.crf
                        == self.pts@[i as int].crf,
                    None => at is None && r.crf == self.limits.lo,
                }
            }),
    {
        decide(self.pts.as_slice(), &self.limits.floor, self.limits.cap, self.limits.lo)
    }
}

proof fn lemma_narrowing(l: Limits, pts: Seq<Probe>)
    requires
        in_range(l, pts),
    ensures
        match narrowing(l, pts) {
            Some((c, _)) => l.lo <= c <= l.hi && !probed(pts, c) && pts.len() < l.max_probes,
            None => true,
        },
{
    lemma_lowest(pts, Pick::Fitting(l.cap));
    if let Some(i) = lowest(pts, Pick::Fitting(l.cap)) {
        lemma_highest(pts, Pick::OverBelow(l.cap, pts[i].crf));
        assert(l.lo <= pts[i].crf <= l.hi);
        if let Some(k) = highest(pts, Pick::OverBelow(l.cap, pts[i].crf)) {
            assert(l.lo <= pts[k].crf <= l.hi);
        }
    }
}

proof fn lemma_chasing(l: Limits, pts: Seq<Probe>)
    requires
        in_range(l, pts),
    ensures
        match chasing(l, pts) {
            Some((c, _)) => l.lo <= c <= l.hi && !probed(pts, c) && pts.len() < l.max_probes,
            None => true,
        },
{
    lemma_narrowing(l, pts);
    lemma_highest(pts, Pick::All);
    if let Some(i) = highest(pts, Pick::All) {
        assert(l.lo <= pts[i].crf <= l.hi);
    }
}

/// Every probe was made at a CRF of the range.
pub open spec fn in_range(l: Limits, pts: Seq<Probe>) -> bool {
    forall|i: int| 0 <= i < pts.len() ==> l.lo <= (#[trigger] pts[i]).crf <= l.hi
}

/// The search stays within its range, probes no CRF twice and makes no more probes than it
/// may, so it always comes to an end.
pub proof fn law_search_ends(l: Limits, pts: Seq<Probe>, phase: Phase, guess: int)
    requires
        limits_ok(l),
        pts.len() > 0,
        in_range(l, pts),
    ensures
        match next_probe(l, pts, phase, guess) {
            Some((c, _)) => l.lo <= c <= l.hi && !probed(pts, c) && pts.len() < l.max_probes,
            None => true,
        },
{
    lemma_narrowing(l, pts);
    lemma_chasing(l, pts);
    lemma_highest(pts, Pick::Passing(l.floor));
    lemma_lowest(pts, Pick::Failing(l.floor));
    if let Some(i) = highest(pts, Pick::Passing(l.floor)) {
        assert(l.lo <= pts[i].crf <= l.hi);
    }
    if let Some(i) = lowest(pts, Pick::Failing(l.floor)) {
        assert(l.lo <= pts[i].crf <= l.hi);
    }
}

/// While the crossing is being looked for, each probe lies strictly between the highest CRF
/// that passes and the lowest that fails, or beyond all where there is only one kind.
pub proof fn law_crossing_is_narrowed(l: Limits, pts: Seq<Probe>, guess: int)
    requires
        limits_ok(l),
        in_range(l, pts),
    ensures
        match next_of(pts, l.floor, l.lo as int, l.hi as int, guess) {
            Some(c) => {
                ||| exists|i: int, k: int|
                    #![trigger pts[i], pts[k]]
                    0 <= i < pts.len() && 0 <= k < pts.len() && held(l.floor, pts[i]) && !held(
                        l.floor,
                        pts[k],
                    ) && pts[i].crf < c < pts[k].crf
                ||| forall|i: int|
                    0 <= i < pts.len() ==> held(l.floor, #[trigger] pts[i]) && pts[i].crf < c
                ||| forall|i: int|
                    0 <= i < pts.len() ==> !held(l.floor, #[trigger] pts[i]) && c < pts[i].crf
            },
            None => true,
        },
{
    lemma_highest(pts, Pick::Passing(l.floor));
    lemma_lowest(pts, Pick::Failing(l.floor));
    assert forall|k: int| 0 <= k < pts.len() implies picked(
        Pick::Passing(l.floor),
        #[trigger] pts[k],
    ) == held(l.floor, pts[k]) && picked(Pick::Failing(l.floor), pts[k]) == !held(
        l.floor,
        pts[k],
    ) by {}
    match (highest(pts, Pick::Passing(l.floor)), lowest(pts, Pick::Failing(l.floor))) {
        (Some(i), Some(k)) => {
            if let Some(c) = next_of(pts, l.floor, l.lo as int, l.hi as int, guess) {
                assert(held(l.floor, pts[i]) && !held(l.floor, pts[k]));
                assert(pts[i].crf < c < pts[k].crf);
            }
        },
        _ => {},
    }
}

/// The search for the crossing ends when the probes are used up, when the last of enough probes
/// holds the floor by little within the size cap, or when nothing is left to look for: it goes
/// on otherwise, and only ever to get under the cap once it has ended.
pub proof fn law_crossing_ends_for_a_reason(l: Limits, pts: Seq<Probe>, guess: int)
    requires
        limits_ok(l),
        pts.len() > 0,
        in_range(l, pts),
    ensures
        ({
            let next = next_probe(l, pts, Phase::Crossing, guess);
            let last = pts.last();
            let goes_on = pts.len() < l.max_probes && !(pts.len() >= l.min_probes && held(
                l.floor,
                last,
            ) && last.jod <= l.stop_at && last.size_pct <= l.cap);
            let found = next_of(pts, l.floor, l.lo as int, l.hi as int, guess);
            if goes_on && found is Some {
                next == Some((found->0, Phase::Crossing))
            } else {
                next == next_probe(l, pts, Phase::ChasingCap, guess)
            }
        }),
{
    law_search_ends(l, pts, Phase::Crossing, guess);
    if let Some(c) = next_of(pts, l.floor, l.lo as int, l.hi as int, guess) {
        lemma_next_is_new(pts, l.floor, l.lo as int, l.hi as int, guess);
        if c == pts.last().crf {
            assert(probed(pts, c)) by {
                assert(pts[pts.len() - 1].crf == c);
            }
        }
    }
}

proof fn lemma_next_is_new(pts: Seq<Probe>, floor: Floor, lo: int, hi: int, guess: int)
    ensures
        next_of(pts, floor, lo, hi, guess) matches Some(c) ==> !probed(pts, c),
{
}

/// While no probe is under the size cap, the search goes up, halfway to the highest CRF, until
/// that one was tried.
pub proof fn law_cap_is_chased_upwards(l: Limits, pts: Seq<Probe>, guess: int)
    requires
        limits_ok(l),
        0 < pts.len() < l.max_probes,
        in_range(l, pts),
        forall|i: int| 0 <= i < pts.len() ==> (#[trigger] pts[i]).size_pct > l.cap,
    ensures
        ({
            let next = next_probe(l, pts, Phase::ChasingCap, guess);
            &&& next is None <==> exists|i: int|
                0 <= i < pts.len() && (#[trigger] pts[i]).crf == l.hi
            &&& next matches Some((c, phase)) ==> phase == Phase::ChasingCap && c <= l.hi && (
            forall|i: int| 0 <= i < pts.len() ==> (#[trigger] pts[i]).crf < c) && forall|i: int|
                0 <= i < pts.len() ==> (#[trigger] pts[i]).crf + l.hi <= 2 * c
            &&& next matches Some((c, _)) ==> exists|i: int|
                0 <= i < pts.len() && 2 * c <= (#[trigger] pts[i]).crf + l.hi + 1
        }),
{
    lemma_highest(pts, Pick::All);
    lemma_lowest(pts, Pick::Fitting(l.cap));
    assert forall|k: int| 0 <= k < pts.len() implies picked(Pick::All, #[trigger] pts[k])
        && !picked(Pick::Fitting(l.cap), pts[k]) by {}
    assert(picked(Pick::All, pts[0]));
    let i = highest(pts, Pick::All)->0;
    let top = pts[i].crf as int;
    assert(lowest(pts, Pick::Fitting(l.cap)) is None);
    assert(narrowing(l, pts) is None);
    if top < l.hi {
        let c = clamped(middle(top, l.hi as int), top + 1, l.hi as int);
        assert(!probed(pts, c)) by {
            if probed(pts, c) {
                let j = choose|j: int| 0 <= j < pts.len() && (#[trigger] pts[j]).crf == c;
                assert(picked(Pick::All, pts[j]));
            }
        }
        assert(2 * c <= pts[i].crf + l.hi + 1);
        assert forall|j: int| 0 <= j < pts.len() implies (#[trigger] pts[j]).crf < c by {
            assert(picked(Pick::All, pts[j]));
        }
    }
}

/// Once a probe is under the size cap and none holds everything, the search goes back down
/// between the lowest CRF under the cap and the highest below it that is not, until they are
/// one step apart.
pub proof fn law_cap_is_narrowed_down(l: Limits, pts: Seq<Probe>, guess: int, fit: int, over: int)
    requires
        limits_ok(l),
        pts.len() < l.max_probes,
        in_range(l, pts),
        forall|i: int|
            0 <= i < pts.len() ==> !held(l.floor, #[trigger] pts[i]) || pts[i].size_pct > l.cap,
        0 <= fit < pts.len() && pts[fit].size_pct <= l.cap,
        forall|i: int|
            0 <= i < pts.len() && (#[trigger] pts[i]).size_pct <= l.cap ==> pts[fit].crf
                <= pts[i].crf,
        0 <= over < pts.len() && pts[over].size_pct > l.cap && pts[over].crf < pts[fit].crf,
        forall|i: int|
            0 <= i < pts.len() && (#[trigger] pts[i]).size_pct > l.cap && pts[i].crf < pts[fit].crf
                ==> pts[i].crf <= pts[over].crf,
    ensures
        ({
            let next = next_probe(l, pts, Phase::NarrowingCap, guess);
            &&& next == next_probe(l, pts, Phase::ChasingCap, guess)
            &&& next is None <==> pts[fit].crf == pts[over].crf + 1
            &&& next matches Some((c, phase)) ==> phase == Phase::NarrowingCap && pts[over].crf < c
                < pts[fit].crf && (2 * c == pts[over].crf + pts[fit].crf || 2 * c == pts[over].crf
                + pts[fit].crf + 1)
        }),
{
    let fitting = Pick::Fitting(l.cap);
    lemma_highest(pts, Pick::Both(l.floor, l.cap));
    lemma_lowest(pts, fitting);
    assert(picked(fitting, pts[fit]));
    let i = lowest(pts, fitting)->0;
    assert(pts[i].size_pct <= l.cap);
    assert(pts[i].crf == pts[fit].crf);
    let below = Pick::OverBelow(l.cap, pts[i].crf);
    lemma_highest(pts, below);
    assert(picked(below, pts[over]));
    let k = highest(pts, below)->0;
    assert(picked(below, pts[k]));
    assert(pts[k].size_pct > l.cap && pts[k].crf < pts[fit].crf);
    assert(pts[k].crf == pts[over].crf);
    if let Some(b) = highest(pts, Pick::Both(l.floor, l.cap)) {
        assert(held(l.floor, pts[b]) && pts[b].size_pct <= l.cap);
    }
    let (f, o) = (pts[fit].crf as int, pts[over].crf as int);
    if f - o > 1 {
        let c = middle(o, f);
        assert(!probed(pts, c)) by {
            if probed(pts, c) {
                let j = choose|j: int| 0 <= j < pts.len() && (#[trigger] pts[j]).crf == c;
                assert(pts[j].size_pct <= l.cap || pts[j].size_pct > l.cap);
            }
        }
    }
}

/// A search that has ended: `guesses[n]` and `phases[n]` are what probe `n` was taken with, and
/// each probe was made where the one before it led.
pub open spec fn finished_search(
    l: Limits,
    pts: Seq<Probe>,
    guesses: Seq<int>,
    phases: Seq<Phase>,
) -> bool {
    &&& pts.len() > 0
    &&& guesses.len() == pts.len()
    &&& phases.len() == pts.len()
    &&& phases[0] == Phase::Crossing
    &&& forall|n: int|
        #![trigger phases[n]]
        1 <= n < pts.len() ==> next_probe(l, pts.take(n), phases[n - 1], guesses[n - 1]) == Some(
            (pts[n].crf as int, phases[n]),
        )
    &&& next_probe(l, pts, phases.last(), guesses.last()) is None
}

/// A search that ends with the floor out of reach has tried the lowest CRF, or used up its
/// probes.
pub proof fn law_floor_is_given_up_only_at_the_lowest_crf(
    l: Limits,
    pts: Seq<Probe>,
    guesses: Seq<int>,
    phases: Seq<Phase>,
)
    requires
        limits_ok(l),
        in_range(l, pts),
        finished_search(l, pts, guesses, phases),
        decided(pts, l.floor, l.cap).1 == SolveOutcome::FloorUnreachable,
        pts.len() < l.max_probes,
    ensures
        exists|i: int| 0 <= i < pts.len() && (#[trigger] pts[i]).crf == l.lo && !held(l.floor, pts[i]),
{
    law_best_probe_is_chosen(pts, l.floor, l.cap);
    assert(none_holds(pts, l.floor));
    lemma_crossing_left(l, pts, guesses, phases, pts.len() as int);
}

/// Where the search has left the crossing among its first `n` probes, none of which holds the
/// floor, the lowest CRF is one of them.
proof fn lemma_crossing_left(
    l: Limits,
    pts: Seq<Probe>,
    guesses: Seq<int>,
    phases: Seq<Phase>,
    n: int,
)
    requires
        limits_ok(l),
        in_range(l, pts),
        finished_search(l, pts, guesses, phases),
        none_holds(pts, l.floor),
        pts.len() < l.max_probes,
        1 <= n <= pts.len(),
        n < pts.len() ==> phases[n] != Phase::Crossing,
    ensures
        exists|i: int| 0 <= i < pts.len() && (#[trigger] pts[i]).crf == l.lo && !held(l.floor, pts[i]),
    decreases n,
{
    if phases[n - 1] != Phase::Crossing {
        assert(n > 1);
        lemma_crossing_left(l, pts, guesses, phases, n - 1);
    } else {
        let some = pts.take(n);
        if n == pts.len() {
            assert(some =~= pts);
        } else {
            assert(phases[n] != Phase::Crossing);
        }
        assert forall|i: int| 0 <= i < some.len() implies l.lo <= (#[trigger] some[i]).crf <= l.hi
            && !held(l.floor, some[i]) by {
            assert(some[i] == pts[i]);
        }
        let guess = guesses[n - 1];
        law_crossing_ends_for_a_reason(l, some, guess);
        assert(!held(l.floor, some.last())) by {
            assert(some.last() == some[n - 1]);
        }
        law_crossing_is_looked_for_to_the_end(
            some,
            l.floor,
            l.lo as int,
            l.hi as int,
            guess,
        );
        assert(none_holds(some, l.floor));
        let next = next_of(some, l.floor, l.lo as int, l.hi as int, guess);
        if n < pts.len() {
            assert(next_probe(l, some, phases[n - 1], guess) == Some(
                (pts[n].crf as int, phases[n]),
            ));
        }
        assert(next is None);
        let i = choose|i: int| 0 <= i < some.len() && (#[trigger] some[i]).crf == l.lo;
        assert(pts[i] == some[i]);
    }
}

// ---------------------------------------------------------------------------
// The seed and the secant
// ---------------------------------------------------------------------------
/// The step that the search starts at: the profile's CRF within the range, else the middle.
/// `other` is the profile's CRF in steps where it is not a whole number.
pub open spec fn seeded(
    params: Seq<(String, ParamValue)>,
    other: Option<i64>,
    lo: int,
    hi: int,
    i: int,
) -> int
    decreases params.len() - i,
{
    if i < 0 || i >= params.len() {
        clamped(middle(lo, hi), lo, hi)
    } else if params[i].0@ == "crf"@ {
        match params[i].1 {
            ParamValue::Integer(n) => clamped(4 * n, lo, hi),
            ParamValue::Bool(_) => clamped(middle(lo, hi), lo, hi),
            _ => match other {
                Some(v) => clamped(v as int, lo, hi),
                None => clamped(middle(lo, hi), lo, hi),
            },
        }
    } else {
        seeded(params, other, lo, hi, i + 1)
    }
}

pub fn seed_crf(config: &Config, other: Option<i64>, lo: i64, hi: i64) -> (r: i64)
    requires
        0 <= lo <= hi <= MAX_CRF,
    ensures
        r == seeded(config.encoder_params@, other, lo as int, hi as int, 0),
        lo <= r <= hi,
{
    let params = &config.encoder_params;
    let half: i64 = clamp(mid(lo, hi), lo, hi);
    let mut i: usize = 0;
    while i < params.len()
        invariant
            i <= params@.len(),
            params@ == config.encoder_params@,
            0 <= lo <= hi <= MAX_CRF,
            half == clamped(middle(lo as int, hi as int), lo as int, hi as int),
            seeded(params@, other, lo as int, hi as int, i as int) == seeded(
                params@,
                other,
                lo as int,
                hi as int,
                0,
            ),
        decreases params@.len() - i,
    {
        if same(params[i].0.as_str(), "crf") {
            return match &params[i].1 {
                ParamValue::Integer(n) => {
                    if *n > MAX_CRF {
                        hi
                    } else if *n < 0 {
                        lo
                    } else {
                        clamp(4 * *n, lo, hi)
                    }
                },
                ParamValue::Bool(_) => half,
                _ => match other {
                    Some(v) => clamp(v, lo, hi),
                    None => half,
                },
            };
        }
        i = i + 1;
    }
    half
}

/// The lowest score that is not below the target, the first of equals.
pub open spec fn nearest_above(jods: Seq<i64>, target: i64) -> Option<int>
    decreases jods.len(),
{
    if jods.len() == 0 {
        None
    } else {
        let before = nearest_above(jods.drop_last(), target);
        if jods.last() < target {
            before
        } else {
            match before {
                Some(i) => if jods[i] <= jods.last() {
                    before
                } else {
                    Some(jods.len() - 1)
                },
                None => Some(jods.len() - 1),
            }
        }
    }
}

/// The highest score below the target, the last of equals.
pub open spec fn nearest_below(jods: Seq<i64>, target: i64) -> Option<int>
    decreases jods.len(),
{
    if jods.len() == 0 {
        None
    } else {
        let before = nearest_below(jods.drop_last(), target);
        if jods.last() >= target {
            before
        } else {
            match before {
                Some(i) => if jods[i] > jods.last() {
                    before
                } else {
                    Some(jods.len() - 1)
                },
                None => Some(jods.len() - 1),
            }
        }
    }
}

/// The two scores that the secant is drawn through: one at or above the target and one below
/// it, else the two closest. `distances` are those of the scores from the target.
pub fn bracket_pts(jods: &[i64], target: i64, distances: &Vec<i64>) -> (r: (usize, usize))
    requires
        jods@.len() >= 2,
        distances@.len() == jods@.len(),
    ensures
        r.0 < jods@.len() && r.1 < jods@.len(),
        match (nearest_above(jods@, target), nearest_below(jods@, target)) {
            (Some(a), Some(b)) => r.0 == a && r.1 == b,
            _ => {
                let order = display_order(distances@, distances@.len());
                r.0 == order[0] && r.1 == order[1]
            },
        },
{
    let mut above: Option<usize> = None;
    let mut below: Option<usize> = None;
    let mut i: usize = 0;
    assert(jods@.subrange(0, 0) =~= Seq::empty());
    while i < jods.len()
        invariant
            i <= jods@.len(),
            match above {
                Some(a) => nearest_above(jods@.subrange(0, i as int), target) == Some(a as int) && a
                    < i,
                None => nearest_above(jods@.subrange(0, i as int), target) is None,
            },
            match below {
                Some(b) => nearest_below(jods@.subrange(0, i as int), target) == Some(b as int) && b
                    < i,
                None => nearest_below(jods@.subrange(0, i as int), target) is None,
            },
        decreases jods@.len() - i,
    {
        assert(jods@.subrange(0, i + 1).drop_last() =~= jods@.subrange(0, i as int));
        let j: i64 = jods[i];
        if j >= target {
            match above {
                Some(a) => {
                    if jods[a] > j {
                        above = Some(i);
                    }
                },
                None => {
                    above = Some(i);
                },
            }
        } else {
            match below {
                Some(b) => {
                    if jods[b] <= j {
                        below = Some(i);
                    }
                },
                None => {
                    below = Some(i);
                },
            }
        }
        i = i + 1;
    }
    assert(jods@.subrange(0, i as int) =~= jods@);
    match (above, below) {
        (Some(a), Some(b)) => (a, b),
        _ => {
            let order = sorted_by_time(distances);
            proof {
                law_display_order_sorts(distances@, distances@.len());
                assert(indices(order@).len() == distances@.len());
                assert(indices(order@)[0] == order@[0] && indices(order@)[1] == order@[1]);
            }
            (order[0], order[1])
        },
    }
}

/// The rank that 95 percent of `n` values do not exceed, from 1 on.
pub open spec fn worst_rank(n: int) -> int {
    clamped((95 * n + 99) / 100, 1, n)
}

/// The place of the value at the nearest rank of the 95th percentile.
pub fn worst_frames(values: &Vec<i64>) -> (at: usize)
    requires
        0 < values@.len() <= usize::MAX / 128,
    ensures
        at < values@.len(),
        at == display_order(values@, values@.len())[worst_rank(values@.len() as int) - 1],
{
    let n: usize = values.len();
    let order = sorted_by_time(values);
    proof {
        law_display_order_sorts(values@, values@.len());
        assert(indices(order@).len() == n);
    }
    let mut rank: usize = (95 * n + 99) / 100;
    if rank < 1 {
        rank = 1;
    }
    if rank > n {
        rank = n;
    }
    assert(indices(order@)[rank - 1] == order@[rank - 1]);
    order[rank - 1]
}

/// The source's bytes for the frames from `start` to `end`, by what lies before each frame;
/// None where that is not known, which disables the size cap.
pub fn source_bytes(before: &[u64], start: u64, end: u64) -> (r: Option<u64>)
    ensures
        r == if start < before@.len() && end + 1 < before@.len() && before@[end + 1]
            > before@[start as int] {
            Some((before@[end + 1] - before@[start as int]) as u64)
        } else {
            None
        },
{
    let n: u64 = before.len() as u64;
    if n == 0 || start >= n || end >= n - 1 {
        return None;
    }
    let hi: u64 = before[end as usize + 1];
    let lo: u64 = before[start as usize];
    if hi > lo {
        Some(hi - lo)
    } else {
        None
    }
}

// ---------------------------------------------------------------------------
// What the scores are measured with
// ---------------------------------------------------------------------------
/// The word behind the first transfer flag among arguments, from argument `i` on.
pub open spec fn transfer_of(args: Seq<Seq<char>>, i: int) -> Option<Seq<char>>
    decreases args.len() - i,
{
    if i < 0 || i + 1 >= args.len() {
        None
    } else if args[i] == "--transfer-characteristics"@ {
        Some(args[i + 1])
    } else {
        transfer_of(args, i + 1)
    }
}

/// The transfer that the encode signals.
pub fn signalled_transfer<'a>(hdr_args: &'a [String]) -> (r: Option<&'a str>)
    ensures
        str_of(r) == transfer_of(strings(hdr_args@), 0),
{
    let ghost views = strings(hdr_args@);
    let len: usize = hdr_args.len();
    let mut i: usize = 0;
    while len > 0 && i < len - 1
        invariant
            i <= len,
            len == hdr_args@.len(),
            views == strings(hdr_args@),
            transfer_of(views, i as int) == transfer_of(views, 0),
        decreases len - i,
    {
        assert(views[i as int] == hdr_args@[i as int]@ && views[i + 1] == hdr_args@[i + 1]@);
        if same(hdr_args[i].as_str(), "--transfer-characteristics") {
            return Some(hdr_args[i + 1].as_str());
        }
        i = i + 1;
    }
    None
}

/// The display that a video is judged on: by the signalled transfer, as an SDR source loses
/// against an HDR display, else by its height.
pub open spec fn display_name(output_height: u32, hdr_args: Seq<Seq<char>>) -> Seq<char> {
    let transfer = transfer_of(hdr_args, 0);
    if transfer == Some("18"@) {
        "standard_hdr_hlg"@
    } else if transfer == Some("16"@) {
        "standard_hdr_pq"@
    } else if output_height >= 1440 {
        "standard_4k"@
    } else {
        "standard_fhd"@
    }
}

fn transfer_is(hdr_args: &[String], word: &str) -> (r: bool)
    ensures
        r == (transfer_of(strings(hdr_args@), 0) == Some(word@)),
{
    match signalled_transfer(hdr_args) {
        Some(t) => same(t, word),
        None => false,
    }
}

pub fn display_model_for(output_height: u32, hdr_args: &[String]) -> (s: &'static str)
    ensures
        s@ == display_name(output_height, strings(hdr_args@)),
{
    if transfer_is(hdr_args, "18") {
        "standard_hdr_hlg"
    } else if transfer_is(hdr_args, "16") {
        "standard_hdr_pq"
    } else if output_height >= 1440 {
        "standard_4k"
    } else {
        "standard_fhd"
    }
}

/// The banding feature: its thresholds come in BT.1886 and PQ, and HLG is measured as
/// BT.1886.
pub fn cambi_feature(hdr_args: &[String]) -> (s: &'static str)
    ensures
        s@ == if transfer_of(strings(hdr_args@), 0) == Some("16"@) {
            "cambi=full_ref=true:eotf=pq"@
        } else {
            "cambi=full_ref=true"@
        },
{
    if transfer_is(hdr_args, "16") {
        "cambi=full_ref=true:eotf=pq"
    } else {
        "cambi=full_ref=true"
    }
}

/// Whether a metric is the banding score of the encode, under whichever name: options that
/// differ from the default are appended to it.
pub fn is_cambi_score(name: &str) -> (r: bool)
    ensures
        r == (has_prefix(name@, "cambi"@) && name@ != "cambi_source"@ && name@
            != "cambi_full_reference"@),
{
    let chars = to_chars(name);
    starts_with(chars.as_slice(), "cambi") && !same(name, "cambi_source") && !same(
        name,
        "cambi_full_reference",
    )
}

// ---------------------------------------------------------------------------
// The GPU
// ---------------------------------------------------------------------------
/// A Vulkan device that the scoring tool lists.
#[derive(Debug)]
pub struct GpuSelection {
    pub id: u32,
    pub label: String,
    /// Not a software rasterizer.
    pub hardware: bool,
}

/// A device of a list.
pub struct Gpu {
    pub id: u32,
    pub label: Seq<char>,
    pub hardware: bool,
}

impl View for GpuSelection {
    type V = Gpu;

    open spec fn view(&self) -> Gpu {
        Gpu { id: self.id, label: self.label@, hardware: self.hardware }
    }
}

/// A letter of the Latin alphabet in lower case; any other character as it is.
pub open spec fn lower(c: char) -> char {
    if 'A' <= c <= 'Z' {
        (c as u32 + 32) as char
    } else {
        c
    }
}

pub open spec fn lowered(s: Seq<char>) -> Seq<char> {
    Seq::new(s.len(), |i: int| lower(s[i]))
}

/// Whether a device is one by its name: a software rasterizer is not.
pub open spec fn is_hardware(label: Seq<char>) -> bool {
    let low = lowered(label);
    !occurs(low, "llvmpipe"@) && !occurs(low, "software"@) && !occurs(low, "swrast"@)
}

/// The device that a line names: `GPU 0: name`.
pub open spec fn device_of(line: Seq<char>) -> Option<Gpu> {
    let text = trimmed(line);
    if !has_prefix(text, "GPU "@) {
        None
    } else {
        let rest = text.subrange("GPU "@.len() as int, text.len() as int);
        match first_at(rest, ":"@, 0) {
            None => None,
            Some(at) => match unsigned(trimmed(rest.subrange(0, at)), u32::MAX as nat) {
                None => None,
                Some(id) => {
                    let label = trimmed(rest.subrange(at + 1, rest.len() as int));
                    Some(Gpu { id: id as u32, label, hardware: is_hardware(label) })
                },
            },
        }
    }
}

/// The first hardware device among lines, else the first device.
pub open spec fn best_device(lines: Seq<Seq<char>>) -> Option<Gpu>
    decreases lines.len(),
{
    if lines.len() == 0 {
        None
    } else {
        let before = best_device(lines.drop_last());
        match (before, device_of(lines.last())) {
            (None, d) => d,
            (Some(b), Some(d)) => if !b.hardware && d.hardware {
                Some(d)
            } else {
                Some(b)
            },
            (Some(b), None) => Some(b),
        }
    }
}

pub open spec fn gpu_view(g: Option<GpuSelection>) -> Option<Gpu> {
    match g {
        Some(g) => Some(g@),
        None => None,
    }
}

fn to_lower(s: &[char]) -> (v: Vec<char>)
    ensures
        v@ == lowered(s@),
{
    let mut v: Vec<char> = Vec::new();
    let mut i: usize = 0;
    while i < s.len()
        invariant
            i <= s@.len(),
            v@.len() == i,
            forall|k: int| 0 <= k < i ==> #[trigger] v@[k] == lower(s@[k]),
        decreases s@.len() - i,
    {
        let c = s[i];
        let l: char = if 'A' <= c && c <= 'Z' {
            (c as u8 + 32) as char
        } else {
            c
        };
        v.push(l);
        i = i + 1;
    }
    assert(v@ =~= lowered(s@));
    v
}

fn read_device(line: &[char]) -> (r: Option<GpuSelection>)
    ensures
        gpu_view(r) == device_of(line@),
{
    let text = trim(line);
    let len: usize = text.len();
    if !starts_with(text.as_slice(), "GPU ") {
        return None;
    }
    proof {
        reveal_strlit("GPU ");
        reveal_strlit(":");
    }
    let rest = part(text.as_slice(), 4, len);
    let colon = to_chars(":");
    let at: usize = match find_from(rest.as_slice(), colon.as_slice(), 0) {
        Some(at) => at,
        None => {
            return None;
        },
    };
    let number = trim(part(rest.as_slice(), 0, at).as_slice());
    let id: u64 = match parse_unsigned(number.as_slice(), 0xffff_ffff) {
        Some(id) => id,
        None => {
            return None;
        },
    };
    let label = trim(part(rest.as_slice(), at + 1, rest.len()).as_slice());
    let low = to_lower(label.as_slice());
    let hardware = !contains(low.as_slice(), "llvmpipe") && !contains(low.as_slice(), "software")
        && !contains(low.as_slice(), "swrast");
    Some(GpuSelection { id: id as u32, label: from_chars(label.as_slice()), hardware })
}

/// The first hardware device of the list, else the first software one.
pub fn select_gpu(list: &str) -> (r: Option<GpuSelection>)
    ensures
        gpu_view(r) == best_device(lines(list@)),
{
    let chars = to_chars(list);
    let all = split_lines(chars.as_slice());
    let ghost views = char_lists(all@);
    let mut best: Option<GpuSelection> = None;
    let mut i: usize = 0;
    assert(views.subrange(0, 0) =~= Seq::empty());
    while i < all.len()
        invariant
            i <= all@.len(),
            views == char_lists(all@),
            gpu_view(best) == best_device(views.subrange(0, i as int)),
        decreases all@.len() - i,
    {
        proof {
            let now = views.subrange(0, i + 1);
            assert(now.drop_last() =~= views.subrange(0, i as int));
            assert(now.last() == all@[i as int]@);
        }
        if let Some(d) = read_device(all[i].as_slice()) {
            let better = match &best {
                Some(b) => !b.hardware && d.hardware,
                None => true,
            };
            if better {
                best = Some(d);
            }
        }
        i = i + 1;
    }
    assert(views.subrange(0, i as int) =~= views);
    best
}

impl GpuSelection {
    pub fn describe(&self) -> (s: String)
        ensures
            s@ == "gpu "@ + decimal(self.id as nat) + " "@ + self.label@,
    {
        let mut s = "gpu ".to_owned();
        push_decimal(&mut s, self.id as u64);
        s.append(" ");
        s.append(self.label.as_str());
        s
    }
}

/// Why there is no GPU to measure on: none at all, or software alone, which is too slow.
#[derive(Debug)]
pub enum GpuError {
    Missing,
    SoftwareOnly(String),
}

/// The GPU to measure on.
pub fn usable_gpu(list: &str) -> (r: Result<GpuSelection, GpuError>)
    ensures
        match r {
            Ok(g) => best_device(lines(list@)) == Some(g@) && g.hardware,
            Err(GpuError::Missing) => best_device(lines(list@)) is None,
            Err(GpuError::SoftwareOnly(label)) => match best_device(lines(list@)) {
                Some(g) => !g.hardware && g.label == label@,
                None => false,
            },
        },
{
    match select_gpu(list) {
        Some(g) => {
            if g.hardware {
                Ok(g)
            } else {
                Err(GpuError::SoftwareOnly(g.label))
            }
        },
        None => Err(GpuError::Missing),
    }
}

/// Hardware is preferred wherever it stands in the list.
pub proof fn law_hardware_is_preferred(lines: Seq<Seq<char>>, i: int)
    requires
        0 <= i < lines.len(),
        device_of(lines[i]) is Some,
    ensures
        best_device(lines) is Some,
        (device_of(lines[i])->0).hardware ==> (best_device(lines)->0).hardware,
    decreases lines.len(),
{
    if i < lines.len() - 1 {
        law_hardware_is_preferred(lines.drop_last(), i);
    }
}

// ---------------------------------------------------------------------------
// Measuring
// ---------------------------------------------------------------------------
/// What every probe of a job is measured against.
#[derive(Debug)]
pub struct ProbeContext {
    pub source: String,
    pub index: String,
    pub temp_dir: String,
    pub display_model: String,
    pub gpu_id: u32,
    pub crop: Option<Crop>,
    /// The size of the source, which turns the crop into what each edge loses.
    pub source_width: u32,
    pub source_height: u32,
    pub n_threads: usize,
}

pub open spec fn edge_rest(size: u32, taken: int) -> nat {
    if taken >= size {
        0
    } else {
        (size - taken) as nat
    }
}

/// The crop by edges.
pub open spec fn edge_options(c: Option<Crop>, width: u32, height: u32) -> Seq<Seq<char>> {
    match c {
        None => Seq::empty(),
        Some(c) => seq![
            "--cropLeftSource"@,
            decimal(c.x as nat),
            "--cropTopSource"@,
            decimal(c.y as nat),
            "--cropRightSource"@,
            decimal(edge_rest(width, c.x + c.w)),
            "--cropBottomSource"@,
            decimal(edge_rest(height, c.y + c.h)),
        ],
    }
}

/// The arguments that score `distorted` against the source from frame `start` on.
pub open spec fn score_args(
    ctx: ProbeContext,
    distorted: Seq<char>,
    json: Seq<char>,
    start: u64,
) -> Seq<Seq<char>> {
    seq![
        "-s"@,
        ctx.source@,
        "-e"@,
        distorted,
        "-m"@,
        "CVVDP"@,
        "--source-index"@,
        ctx.index@,
        "--start"@,
        decimal(start as nat),
        "--encoded-offset"@,
        "-"@ + decimal(start as nat),
        "--displayModel"@,
        ctx.display_model@,
        "--gpu-id"@,
        decimal(ctx.gpu_id as nat),
        "-t"@,
        decimal(ctx.n_threads as nat),
        "-g"@,
        "3"@,
        "--json"@,
        json,
    ] + edge_options(ctx.crop, ctx.source_width, ctx.source_height)
}

impl ProbeContext {
    /// The arguments that score `distorted`, which holds the source's frames from `start` on.
    pub fn measure_args(&self, distorted: &str, json: &str, start: u64) -> (args: Vec<String>)
        requires
            self.crop is Some ==> bounded(self.crop->0),
        ensures
            strings(args@) == score_args(*self, distorted@, json@, start),
    {
        let mut args: Vec<String> = Vec::new();
        assert(strings(args@) =~= Seq::empty());
        push_two(&mut args, "-s", self.source.clone());
        push_two(&mut args, "-e", distorted.to_owned());
        push_two(&mut args, "-m", "CVVDP".to_owned());
        push_two(&mut args, "--source-index", self.index.clone());
        push_two(&mut args, "--start", decimal_string(start));
        let mut offset = "-".to_owned();
        push_decimal(&mut offset, start);
        push_two(&mut args, "--encoded-offset", offset);
        push_two(&mut args, "--displayModel", self.display_model.clone());
        push_two(&mut args, "--gpu-id", decimal_string(self.gpu_id as u64));
        push_two(&mut args, "-t", decimal_string(self.n_threads as u64));
        push_two(&mut args, "-g", "3".to_owned());
        push_two(&mut args, "--json", json.to_owned());
        if let Some(c) = self.crop {
            let right_edge: u32 = c.x + c.w;
            let bottom_edge: u32 = c.y + c.h;
            let right: u32 = if right_edge >= self.source_width {
                0
            } else {
                self.source_width - right_edge
            };
            let bottom: u32 = if bottom_edge >= self.source_height {
                0
            } else {
                self.source_height - bottom_edge
            };
            push_two(&mut args, "--cropLeftSource", decimal_string(c.x as u64));
            push_two(&mut args, "--cropTopSource", decimal_string(c.y as u64));
            push_two(&mut args, "--cropRightSource", decimal_string(right as u64));
            push_two(&mut args, "--cropBottomSource", decimal_string(bottom as u64));
        }
        assert(strings(args@) =~= score_args(*self, distorted@, json@, start));
        args
    }
}

/// The arguments that measure banding: the reference on standard input, the probe through a
/// pipe.
pub fn vmaf_args(pipe: &str, json: &str, n_threads: usize, hdr_args: &[String]) -> (args: Vec<
    String,
>)
    ensures
        strings(args@) == seq![
            "--reference"@,
            "/dev/stdin"@,
            "--distorted"@,
            pipe@,
            "--no_prediction"@,
            "--threads"@,
            decimal(n_threads as nat),
            "--feature"@,
            if transfer_of(strings(hdr_args@), 0) == Some("16"@) {
                "cambi=full_ref=true:eotf=pq"@
            } else {
                "cambi=full_ref=true"@
            },
            "--json"@,
            "--output"@,
            json@,
        ],
        gives(strings(args@), "--reference"@, "/dev/stdin"@),
        gives(strings(args@), "--distorted"@, pipe@),
        gives(strings(args@), "--threads"@, decimal(n_threads as nat)),
        gives(strings(args@), "--output"@, json@),
{
    let mut args: Vec<String> = Vec::new();
    assert(strings(args@) =~= Seq::empty());
    push_two(&mut args, "--reference", "/dev/stdin".to_owned());
    push_two(&mut args, "--distorted", pipe.to_owned());
    push_two(&mut args, "--no_prediction", "--threads".to_owned());
    push_two(&mut args, decimal_string(n_threads as u64).as_str(), "--feature".to_owned());
    push_two(&mut args, cambi_feature(hdr_args), "--json".to_owned());
    push_two(&mut args, "--output", json.to_owned());
    proof {
        lemma_gives_at(strings(args@), 0);
        lemma_gives_at(strings(args@), 2);
        lemma_gives_at(strings(args@), 5);
        lemma_gives_at(strings(args@), 10);
    }
    args
}

/// The arguments of the ffmpeg that decodes a probe into the pipe. Film grain stays out: banding
/// is measured in flat areas, and grain leaves none.
pub fn probe_decoder_args(probe: &str, pipe: &str) -> (args: Vec<String>)
    ensures
        strings(args@) == seq![
            "-hide_banner"@,
            "-loglevel"@,
            "error"@,
            "-nostdin"@,
            "-y"@,
            "-export_side_data"@,
            "film_grain"@,
            "-i"@,
            probe@,
            "-map"@,
            "0:v:0"@,
            "-strict"@,
            "-1"@,
            "-f"@,
            "yuv4mpegpipe"@,
            pipe@,
        ],
{
    let mut args: Vec<String> = Vec::new();
    push_words(
        &mut args,
        &[
            "-hide_banner",
            "-loglevel",
            "error",
            "-nostdin",
            "-y",
            "-export_side_data",
            "film_grain",
            "-i",
            probe,
            "-map",
            "0:v:0",
            "-strict",
            "-1",
            "-f",
            "yuv4mpegpipe",
            pipe,
        ],
    );
    args
}

/// What a look at the two ends of the pipe comes to.
#[derive(Clone, Copy, Debug, PartialEq, Eq, Structural)]
pub enum PipeStep {
    Wait,
    /// The time is over: all of them are killed, and another scan tries again.
    Kill,
    Finished,
}

/// The decoder that writes to a pipe and the tool that reads from it. Someone has to hold the
/// pipe open so that neither hangs opening its end, and to let go of it once one of them is
/// gone, so that the other sees the end.
#[derive(Clone, Copy, Debug, PartialEq, Eq, Structural)]
pub struct PipeWait {
    pub reader_done: bool,
    pub writer_done: bool,
    pub held: bool,
}

impl PipeWait {
    pub fn new() -> (w: PipeWait)
        ensures
            w == (PipeWait { reader_done: false, writer_done: false, held: true }),
    {
        PipeWait { reader_done: false, writer_done: false, held: true }
    }

    /// A look at both; one that is done stays done.
    pub fn look(&mut self, reader_done: bool, writer_done: bool, past_deadline: bool) -> (s:
        PipeStep)
        ensures
            final(self).reader_done == (old(self).reader_done || reader_done),
            final(self).writer_done == (old(self).writer_done || writer_done),
            final(self).held == (old(self).held && !final(self).reader_done && !final(
                self).writer_done),
            s == if final(self).reader_done && final(self).writer_done {
                PipeStep::Finished
            } else if past_deadline {
                PipeStep::Kill
            } else {
                PipeStep::Wait
            },
    {
        self.reader_done = self.reader_done || reader_done;
        self.writer_done = self.writer_done || writer_done;
        if self.reader_done || self.writer_done {
            self.held = false;
        }
        if self.reader_done && self.writer_done {
            PipeStep::Finished
        } else if past_deadline {
            PipeStep::Kill
        } else {
            PipeStep::Wait
        }
    }
}

/// What a banding measurement failed in. Any of the tools dying turns the others' writes into
/// a broken pipe, and the reader scores a writer that stopped early on the frames it got, so
/// its success is not enough.
#[derive(Clone, Copy, Debug, PartialEq, Eq, Structural)]
pub enum CambiFailure {
    /// The tools at the two ends of the pipe that failed.
    Pipe { decoder: bool, vmaf: bool },
    Scaler,
    /// Writing the reference failed.
    Reference,
}

pub fn cambi_failure(decoder_ok: bool, vmaf_ok: bool, scaler_ok: bool, written: bool) -> (r: Option<
    CambiFailure,
>)
    ensures
        r == if !decoder_ok || !vmaf_ok {
            Some(CambiFailure::Pipe { decoder: !decoder_ok, vmaf: !vmaf_ok })
        } else if !scaler_ok {
            Some(CambiFailure::Scaler)
        } else if !written {
            Some(CambiFailure::Reference)
        } else {
            None
        },
{
    if !decoder_ok || !vmaf_ok {
        Some(CambiFailure::Pipe { decoder: !decoder_ok, vmaf: !vmaf_ok })
    } else if !scaler_ok {
        Some(CambiFailure::Scaler)
    } else if !written {
        Some(CambiFailure::Reference)
    } else {
        None
    }
}

// ---------------------------------------------------------------------------
// What holds of seeds, scores and measurements
// ---------------------------------------------------------------------------
/// The search starts at the CRF of the profile, in quarter steps and moved into the range, and
/// in the middle of the range where the profile has none.
pub proof fn law_search_starts_at_the_profile(
    params: Seq<(String, ParamValue)>,
    other: Option<i64>,
    lo: int,
    hi: int,
    from: int,
)
    requires
        0 <= from,
        lo <= hi,
    ensures
        lo <= seeded(params, other, lo, hi, from) <= hi,
        (forall|i: int| from <= i < params.len() ==> (#[trigger] params[i]).0@ != "crf"@) ==> ({
            let s = seeded(params, other, lo, hi, from);
            2 * s == lo + hi || 2 * s == lo + hi + 1
        }),
        forall|i: int|
            from <= i < params.len() && (#[trigger] params[i]).0@ == "crf"@ && (forall|j: int|
                from <= j < i ==> (#[trigger] params[j]).0@ != "crf"@) ==> {
                let s = seeded(params, other, lo, hi, from);
                &&& params[i].1 matches ParamValue::Integer(n) ==> {
                    &&& lo <= 4 * n <= hi ==> s == 4 * n
                    &&& 4 * n < lo ==> s == lo
                    &&& 4 * n > hi ==> s == hi
                }
                &&& params[i].1 is Text || params[i].1 is Other ==> (other matches Some(v) ==> (lo
                    <= v <= hi ==> s == v))
            },
    decreases params.len() - from,
{
    if from < params.len() && params[from].0@ != "crf"@ {
        law_search_starts_at_the_profile(params, other, lo, hi, from + 1);
    }
}

/// Where scores lie on both sides of a target, the two nearest to it are found: the one at or
/// above it has none between itself and the target, and neither has the one below.
pub proof fn law_secant_encloses_the_target(jods: Seq<i64>, target: i64)
    ensures
        match nearest_above(jods, target) {
            Some(a) => 0 <= a < jods.len() && target <= jods[a] && forall|i: int|
                0 <= i < jods.len() && target <= #[trigger] jods[i] ==> jods[a] <= jods[i],
            None => forall|i: int| 0 <= i < jods.len() ==> #[trigger] jods[i] < target,
        },
        match nearest_below(jods, target) {
            Some(b) => 0 <= b < jods.len() && jods[b] < target && forall|i: int|
                0 <= i < jods.len() && #[trigger] jods[i] < target ==> jods[i] <= jods[b],
            None => forall|i: int| 0 <= i < jods.len() ==> target <= #[trigger] jods[i],
        },
    decreases jods.len(),
{
    if jods.len() > 0 {
        law_secant_encloses_the_target(jods.drop_last(), target);
        assert(forall|i: int|
            0 <= i < jods.len() - 1 ==> #[trigger] jods[i] == jods.drop_last()[i]);
    }
}

/// Where they do not, the two scores at the least distances from it are taken, the nearer one
/// first.
pub proof fn law_closest_scores_come_first(distances: Seq<i64>, i: int)
    requires
        distances.len() >= 2,
        0 <= i < distances.len(),
    ensures
        ({
            let order = display_order(distances, distances.len());
            let (a, b) = (order[0], order[1]);
            &&& 0 <= a < distances.len() && 0 <= b < distances.len() && a != b
            &&& distances[a] <= distances[b]
            &&& i != a ==> distances[b] <= distances[i]
        }),
{
    let order = display_order(distances, distances.len());
    law_display_order_sorts(distances, distances.len());
    assert(earlier(distances, order[0], order[1]));
    assert(order.contains(i));
    let k = choose|k: int| 0 <= k < order.len() && order[k] == i;
    if k > 1 {
        assert(earlier(distances, order[1], order[k]));
    }
}

/// The value that stands for the worst frames is the one that 95 percent of them do not exceed,
/// and no smaller share: as many as that come before it or with it in order.
pub proof fn law_worst_frames_are_the_last_twentieth(values: Seq<i64>)
    requires
        values.len() > 0,
    ensures
        ({
            let n = values.len() as int;
            let rank = worst_rank(n);
            let order = display_order(values, values.len());
            let at = order[rank - 1];
            &&& 1 <= rank <= n
            &&& 95 * n <= 100 * rank < 95 * n + 100
            &&& 0 <= at < n
            &&& forall|i: int| 0 <= i < rank ==> values[#[trigger] order[i]] <= values[at]
            &&& forall|i: int| rank <= i < n ==> values[at] <= values[#[trigger] order[i]]
        }),
{
    let n = values.len() as int;
    let rank = worst_rank(n);
    let order = display_order(values, values.len());
    law_display_order_sorts(values, values.len());
    let at = order[rank - 1];
    assert forall|i: int| 0 <= i < rank implies values[#[trigger] order[i]] <= values[at] by {
        if i < rank - 1 {
            assert(earlier(values, order[i], order[rank - 1]));
        }
    }
    assert forall|i: int| rank <= i < n implies values[at] <= values[#[trigger] order[i]] by {
        assert(earlier(values, order[rank - 1], order[i]));
    }
}

/// The device that is taken is the first that is no software; where all are, it is the first.
pub proof fn law_first_hardware_is_taken(list: Seq<Seq<char>>)
    ensures
        match best_device(list) {
            Some(g) => exists|i: int|
                {
                    &&& 0 <= i < list.len()
                    &&& #[trigger] device_of(list[i]) == Some(g)
                    &&& forall|j: int|
                        0 <= j < i && (#[trigger] device_of(list[j])) is Some ==> g.hardware && !(
                        device_of(list[j])->0).hardware
                },
            None => forall|i: int| 0 <= i < list.len() ==> (#[trigger] device_of(list[i])) is None,
        },
        best_device(list) is Some && !(best_device(list)->0).hardware ==> forall|i: int|
            0 <= i < list.len() && (#[trigger] device_of(list[i])) is Some ==> !(device_of(
                list[i],
            )->0).hardware,
    decreases list.len(),
{
    if list.len() > 0 {
        let front = list.drop_last();
        let n = list.len() - 1;
        law_first_hardware_is_taken(front);
        assert(forall|i: int| 0 <= i < n ==> #[trigger] device_of(list[i]) == device_of(front[i]));
        assert(forall|i: int| 0 <= i < n ==> #[trigger] device_of(front[i]) == device_of(list[i]));
        if let Some(g) = best_device(list) {
            if best_device(front) == Some(g) {
                let i = choose|i: int|
                    {
                        &&& 0 <= i < front.len()
                        &&& #[trigger] device_of(front[i]) == Some(g)
                        &&& forall|j: int|
                            0 <= j < i && (#[trigger] device_of(front[j])) is Some ==> g.hardware
                                && !(device_of(front[j])->0).hardware
                    };
                assert(device_of(list[i]) == Some(g));
            } else {
                assert(device_of(list[n]) == Some(g));
            }
        }
    }
}

/// A device reads as it is listed: its number in front of the colon, its name behind it.
#[verifier::rlimit(50)]
pub proof fn law_device_reads_as_listed(id: u32, label: Seq<char>)
    requires
        label.len() > 0,
        !is_space(label[0]),
        !is_space(label.last()),
    ensures
        device_of("GPU "@ + (decimal(id as nat) + ":"@ + (" "@ + label))) == Some(
            Gpu { id, label, hardware: is_hardware(label) },
        ),
{
    reveal_strlit("GPU ");
    reveal_strlit(":");
    reveal_strlit(" ");
    let d = decimal(id as nat);
    let tail = " "@ + label;
    let rest = d + ":"@ + tail;
    let line = "GPU "@ + rest;
    law_decimal_round_trip(id as nat, u32::MAX as nat);
    lemma_decimal_is_plain(id as nat, ':');
    lemma_first_separator(d, ":"@, tail);
    lemma_trimmed_behind_space(label);
    assert(trimmed(line) == line) by {
        assert(line[0] == 'G' && line.last() == label.last());
        lemma_trimmed_whole(line);
    }
    assert(has_prefix(line, "GPU "@)) by {
        assert(line.subrange(0, 4) =~= "GPU "@);
    }
    assert(line.subrange(4, line.len() as int) =~= rest);
    assert(first_at(rest, ":"@, 0) == Some(d.len() as int));
}

proof fn lemma_trimmed_behind_space(label: Seq<char>)
    requires
        label.len() > 0,
        !is_space(label[0]),
        !is_space(label.last()),
    ensures
        trimmed(" "@ + label) == label,
{
    reveal_strlit(" ");
    let tail = " "@ + label;
    assert(tail[0] == ' ');
    assert(tail.drop_first() =~= label);
    lemma_trimmed_whole(label);
    assert(trim_start(tail) == trim_start(label));
}

/// What each edge loses leaves the crop: on both axes the offset, the size and what is cut
/// off the far edge add up to the source.
pub proof fn law_measured_area_is_the_crop(c: Crop, width: u32, height: u32)
    requires
        c.x + c.w <= width,
        c.y + c.h <= height,
    ensures
        ({
            let args = edge_options(Some(c), width, height);
            &&& gives(args, "--cropLeftSource"@, decimal(c.x as nat))
            &&& gives(args, "--cropTopSource"@, decimal(c.y as nat))
            &&& exists|right: nat|
                #![trigger decimal(right)]
                gives(args, "--cropRightSource"@, decimal(right)) && c.x + c.w + right == width
            &&& exists|bottom: nat|
                #![trigger decimal(bottom)]
                gives(args, "--cropBottomSource"@, decimal(bottom)) && c.y + c.h + bottom == height
            &&& args.len() == 8
        }),
        edge_options(None, width, height).len() == 0,
{
    let args = edge_options(Some(c), width, height);
    lemma_gives_at(args, 0);
    lemma_gives_at(args, 2);
    lemma_gives_at(args, 4);
    lemma_gives_at(args, 6);
    let right = (width - c.x - c.w) as nat;
    let bottom = (height - c.y - c.h) as nat;
    assert(gives(args, "--cropRightSource"@, decimal(right)));
    assert(gives(args, "--cropBottomSource"@, decimal(bottom)));
}

/// A chunk is scored against the frames of the source that it was made from: the source from
/// its first frame on, the encode from its own, on the display and the device of the job.
pub proof fn law_chunk_is_scored_against_its_source(
    ctx: ProbeContext,
    distorted: Seq<char>,
    json: Seq<char>,
    start: u64,
)
    ensures
        ({
            let args = score_args(ctx, distorted, json, start);
            &&& gives(args, "-s"@, ctx.source@)
            &&& gives(args, "-e"@, distorted)
            &&& gives(args, "--source-index"@, ctx.index@)
            &&& gives(args, "--start"@, decimal(start as nat))
            &&& gives(args, "--encoded-offset"@, "-"@ + decimal(start as nat))
            &&& gives(args, "--displayModel"@, ctx.display_model@)
            &&& gives(args, "--gpu-id"@, decimal(ctx.gpu_id as nat))
            &&& gives(args, "-t"@, decimal(ctx.n_threads as nat))
            &&& gives(args, "--json"@, json)
            &&& forall|option: Seq<char>, value: Seq<char>| #[trigger]
                gives(
                    edge_options(ctx.crop, ctx.source_width, ctx.source_height),
                    option,
                    value,
                ) ==> gives(args, option, value)
        }),
{
    let args = score_args(ctx, distorted, json, start);
    let edges = edge_options(ctx.crop, ctx.source_width, ctx.source_height);
    let head = args.take(22);
    assert(args =~= head + edges);
    lemma_gives_joined(head, edges);
    lemma_gives_at(args, 0);
    lemma_gives_at(args, 2);
    lemma_gives_at(args, 6);
    lemma_gives_at(args, 8);
    lemma_gives_at(args, 10);
    lemma_gives_at(args, 12);
    lemma_gives_at(args, 14);
    lemma_gives_at(args, 16);
    lemma_gives_at(args, 20);
}

/// A video is judged on the display that its transfer asks for: PQ and HLG on their own, and
/// anything else by its height.
pub proof fn law_display_follows_the_transfer(height: u32, i: HdrInfo, n: u32)
    requires
        i.transfer_characteristics == Some(n),
    ensures
        ({
            let display = display_name(height, encoder_flags(i));
            &&& n == 18 ==> display == "standard_hdr_hlg"@
            &&& n == 16 ==> display == "standard_hdr_pq"@
            &&& n != 16 && n != 18 && height >= 1440 ==> display == "standard_4k"@
            &&& n != 16 && n != 18 && height < 1440 ==> display == "standard_fhd"@
        }),
{
    reveal_strlit("16");
    reveal_strlit("18");
    reveal_strlit("--color-primaries");
    reveal_strlit("--transfer-characteristics");
    let args = encoder_flags(i);
    let at: int = match i.color_primaries {
        Some(p) => {
            law_decimal_round_trip(p as nat, p as nat);
            assert(is_digit(decimal(p as nat)[0]));
            assert(args[0] == "--color-primaries"@ && args[1] == decimal(p as nat));
            assert("--transfer-characteristics"@[0] == '-');
            assert(args[0].len() != "--transfer-characteristics"@.len());
            2
        },
        None => 0,
    };
    assert(args[at] == "--transfer-characteristics"@ && args[at + 1] == decimal(n as nat));
    reveal_with_fuel(transfer_of, 4);
    assert(transfer_of(args, at) == Some(decimal(n as nat)));
    assert(transfer_of(args, 0) == Some(decimal(n as nat)));
    law_decimal_round_trip(n as nat, n as nat);
    law_decimal_round_trip(16, 16);
    law_decimal_round_trip(18, 18);
    reveal_with_fuel(decimal, 3);
    assert(decimal(16) =~= "16"@);
    assert(decimal(18) =~= "18"@);
}

/// Where no transfer is signalled a video is judged by its height.
pub proof fn law_display_follows_the_height(height: u32, args: Seq<Seq<char>>)
    requires
        forall|i: int|
            0 <= i < args.len() ==> #[trigger] args[i] != "--transfer-characteristics"@,
    ensures
        display_name(height, args) == if height >= 1440 {
            "standard_4k"@
        } else {
            "standard_fhd"@
        },
{
    lemma_no_transfer(args, 0);
}

proof fn lemma_no_transfer(args: Seq<Seq<char>>, i: int)
    requires
        0 <= i,
        forall|i: int|
            0 <= i < args.len() ==> #[trigger] args[i] != "--transfer-characteristics"@,
    ensures
        transfer_of(args, i) is None,
    decreases args.len() - i,
{
    if i + 1 < args.len() {
        lemma_no_transfer(args, i + 1);
    }
}

} // verus!
