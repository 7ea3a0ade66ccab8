//! The decisions of a job: from the chunk list to what the muxer is told, and what becomes
//! of a failure.
use crate::bytes::{be_bytes, push_be};
use crate::config::{push_signed, signed_decimal, AvetConfig, Config, Encoder, ParamValue, SceneDetectionConfig, SceneDetectionSpeedConfig};
use crate::crop::{crop_filter, crop_of, even, fitted as fitted_crop, round_down_even, Crop};
use crate::encode::EncodeOptions;
use crate::hdr::{
    color_options, mastering_view, mkvmerge_colour_args, DynamicHdr, HdrInfo, MasteringDisplay,
    MasteringView,
};
use crate::hevc::{hex_of, to_hex};
use crate::path::{
    is_absolute, join_path, joined_path, law_path_below_a_folder, names_something, parts,
};
use crate::resume::{five_digits, stable_hash, stem_hash, ChunkInfo, DoneFile, SceneEntry};
use crate::scene::covers;
use crate::source::{aspect_option, roll_option, SourceVideo};
use crate::text::{
    all_digits, copied, decimal, digit, digits_value, gives, has_prefix, is_digit, join,
    joined, law_decimal_round_trip, lemma_gives_at, lemma_gives_joined,
    lemma_joined_tells_part, lemma_last_number, lemma_pieces, lemma_pieces_join, lemma_regroup,
    lemma_same_back, lemma_same_front, listed, parse_unsigned, pieces, push_decimal, push_two,
    same, separates, starts_with, str_of, strings, text_of, to_chars, unsigned, Separator,
};
use vstd::prelude::*;
use vstd::string::*;

verus! {

/// Where a job reads from and writes to.
#[derive(Debug)]
pub struct JobContext {
    pub input_dir: String,
    pub output_dir: String,
}

/// Why a job stops.
#[derive(Clone, Copy, Debug, PartialEq, Eq, Structural)]
pub enum JobError {
    /// No chunk starts within the source.
    NoChunks,
    /// A chunk ends before it starts: its index, its end and its start.
    TurnedRound(usize, u64, u64),
    /// A chunk does not start where the one before it ended: its index, its start and where
    /// it should start.
    GapOrOverlap(usize, u64, u64),
    /// The chunks end elsewhere than the source: the frames they cover and those it has.
    Uncovered(u64, u64),
    /// The joined chunks hold another number of frames than the chunk list.
    ShortJoin(u64, u64),
    /// The output holds another number of frames than the chunk list.
    ShortOutput(u64, u64),
    /// The base layer is no picture without its RPU, which is not carried.
    NoBaseLayer(Option<u32>),
}

pub open spec fn optional_profile(profile: Option<u32>) -> Seq<char> {
    match profile {
        Some(p) => decimal(p as nat),
        None => "unknown"@,
    }
}

/// What the log says of an error.
pub open spec fn error_text(e: JobError) -> Seq<char> {
    match e {
        JobError::NoChunks =>
            "scene detection produced no chunks within the source frame count"@,
        JobError::TurnedRound(index, end, start) => "chunk "@ + decimal(index as nat)
            + " ends at frame "@ + decimal(end as nat) + " before its start "@ + decimal(
            start as nat,
        ),
        JobError::GapOrOverlap(index, start, next) => "chunk "@ + decimal(index as nat)
            + " starts at frame "@ + decimal(start as nat)
            + ", but the one before it ended at "@ + decimal(next as nat)
            + ". The chunk list has a gap or an overlap - delete the job's temp dir to detect the scenes again."@,
        JobError::Uncovered(covered, frames) => "the chunk list covers "@ + decimal(
            covered as nat,
        ) + " frames, the source has "@ + decimal(frames as nat)
            + ". Delete the job's temp dir to detect the scenes again."@,
        JobError::ShortJoin(joined, total) => "the joined chunks hold "@ + decimal(joined as nat)
            + " frames, the chunk list accounts for "@ + decimal(total as nat)
            + ". Delete the job's temp dir to encode it again from scratch."@,
        JobError::ShortOutput(actual, expected) => "output holds "@ + decimal(actual as nat)
            + " video frames, but the chunk list accounts for "@ + decimal(expected as nat)
            + ". The merged video is short - delete the job's temp dir to encode it again from scratch."@,
        JobError::NoBaseLayer(profile) => "this Dolby Vision stream (profile "@
            + optional_profile(profile)
            + ") has no HDR10 base layer, so avet cannot encode it without its RPU. Set avet.dv = true for an HEVC source, or convert the source to profile 8 or to plain HDR10 first."@,
    }
}

fn sentence(a: &str, x: u64, b: &str, y: u64, c: &str) -> (s: String)
    ensures
        s@ == a@ + decimal(x as nat) + b@ + decimal(y as nat) + c@,
{
    let mut s = String::new();
    s.append(a);
    push_decimal(&mut s, x);
    s.append(b);
    push_decimal(&mut s, y);
    s.append(c);
    assert(s@ =~= a@ + decimal(x as nat) + b@ + decimal(y as nat) + c@);
    s
}

impl JobError {
    pub fn describe(&self) -> (s: String)
        ensures
            s@ == error_text(*self),
    {
        match *self {
            JobError::NoChunks => {
                "scene detection produced no chunks within the source frame count".to_owned()
            },
            JobError::TurnedRound(index, end, start) => {
                let mut s = sentence(
                    "chunk ",
                    index as u64,
                    " ends at frame ",
                    end,
                    " before its start ",
                );
                push_decimal(&mut s, start);
                s
            },
            JobError::GapOrOverlap(index, start, next) => {
                let mut s = sentence(
                    "chunk ",
                    index as u64,
                    " starts at frame ",
                    start,
                    ", but the one before it ended at ",
                );
                push_decimal(&mut s, next);
                s.append(
                    ". The chunk list has a gap or an overlap - delete the job's temp dir to detect the scenes again.",
                );
                s
            },
            JobError::Uncovered(covered, frames) => sentence(
                "the chunk list covers ",
                covered,
                " frames, the source has ",
                frames,
                ". Delete the job's temp dir to detect the scenes again.",
            ),
            JobError::ShortJoin(joined, total) => sentence(
                "the joined chunks hold ",
                joined,
                " frames, the chunk list accounts for ",
                total,
                ". Delete the job's temp dir to encode it again from scratch.",
            ),
            JobError::ShortOutput(actual, expected) => sentence(
                "output holds ",
                actual,
                " video frames, but the chunk list accounts for ",
                expected,
                ". The merged video is short - delete the job's temp dir to encode it again from scratch.",
            ),
            JobError::NoBaseLayer(profile) => {
                let mut s = "this Dolby Vision stream (profile ".to_owned();
                match profile {
                    Some(p) => {
                        push_decimal(&mut s, p as u64);
                    },
                    None => {
                        s.append("unknown");
                    },
                }
                s.append(
                    ") has no HDR10 base layer, so avet cannot encode it without its RPU. Set avet.dv = true for an HEVC source, or convert the source to profile 8 or to plain HDR10 first.",
                );
                s
            },
        }
    }
}

// ---------------------------------------------------------------------------
// The chunk list
// ---------------------------------------------------------------------------
/// The first fault of a chunk list from chunk `i` on, which should start at frame `next`.
pub open spec fn list_fault(scenes: Seq<SceneEntry>, frames: int, i: int, next: int) -> Option<
    JobError,
>
    decreases scenes.len() - i,
{
    if i < 0 || i >= scenes.len() {
        if next != frames {
            Some(JobError::Uncovered(next as u64, frames as u64))
        } else {
            None
        }
    } else {
        let s = scenes[i];
        if s.end_frame < s.start_frame {
            Some(JobError::TurnedRound(s.index, s.end_frame, s.start_frame))
        } else if s.start_frame != next {
            Some(JobError::GapOrOverlap(s.index, s.start_frame, next as u64))
        } else {
            list_fault(scenes, frames, i + 1, s.end_frame + 1)
        }
    }
}

/// The number of frames in a chunk list.
pub open spec fn sum_frames(scenes: Seq<SceneEntry>) -> int
    decreases scenes.len(),
{
    if scenes.len() == 0 {
        0
    } else {
        sum_frames(scenes.drop_last()) + (scenes.last().end_frame - scenes.last().start_frame + 1)
    }
}

proof fn lemma_cover_front(scenes: Seq<SceneEntry>, from: int, to: int)
    requires
        covers(scenes, from, to),
        scenes.len() > 0,
    ensures
        covers(scenes.drop_last(), from, scenes.last().start_frame as int),
        scenes.last().start_frame <= scenes.last().end_frame,
        scenes.last().end_frame + 1 == to,
{
    let front = scenes.drop_last();
    let n = scenes.len() as int;
    assert(scenes[n - 1].start_frame <= scenes[n - 1].end_frame);
    if n > 1 {
        assert(scenes[n - 1].start_frame == scenes[n - 2].end_frame + 1);
        assert forall|j: int, k: int|
            #![trigger front[j], front[k]]
            0 <= j && k == j + 1 && k < front.len() implies front[k].start_frame
            == front[j].end_frame + 1 by {
            assert(scenes[k].start_frame == scenes[j].end_frame + 1);
        }
        assert forall|j: int| 0 <= j < front.len() implies (#[trigger] front[j]).start_frame
            <= front[j].end_frame by {
            assert(scenes[j].start_frame <= scenes[j].end_frame);
        }
    }
}

/// The frames of a chunk list without a gap or an overlap add up to what it covers, so a
/// finished file that holds their number has lost none.
pub proof fn law_whole_list_counts_every_frame(scenes: Seq<SceneEntry>, from: int, to: int)
    requires
        covers(scenes, from, to),
    ensures
        sum_frames(scenes) == to - from,
    decreases scenes.len(),
{
    if scenes.len() > 0 {
        lemma_cover_front(scenes, from, to);
        law_whole_list_counts_every_frame(
            scenes.drop_last(),
            from,
            scenes.last().start_frame as int,
        );
    }
}

proof fn lemma_fault_from(scenes: Seq<SceneEntry>, frames: int, i: int, next: int)
    requires
        0 <= i <= scenes.len(),
        covers(scenes.subrange(0, i), 0, next),
    ensures
        list_fault(scenes, frames, i, next) is None <==> covers(scenes, 0, frames),
    decreases scenes.len() - i,
{
    let front = scenes.subrange(0, i);
    if i == scenes.len() {
        assert(front =~= scenes);
    } else {
        let s = scenes[i];
        let more = scenes.subrange(0, i + 1);
        assert(more.drop_last() =~= front);
        assert(more.last() == s);
        if s.start_frame <= s.end_frame && s.start_frame == next {
            assert(covers(more, 0, s.end_frame + 1)) by {
                assert(more[0] == if i == 0 {
                    s
                } else {
                    front[0]
                });
                assert forall|j: int| 0 <= j < more.len() implies (#[trigger] more[j]).start_frame
                    <= more[j].end_frame by {
                    if j < i {
                        assert(front[j].start_frame <= front[j].end_frame);
                    }
                }
                assert forall|j: int, k: int|
                    #![trigger more[j], more[k]]
                    0 <= j && k == j + 1 && k < more.len() implies more[k].start_frame
                    == more[j].end_frame + 1 by {
                    if k < i {
                        assert(front[k].start_frame == front[j].end_frame + 1);
                    } else {
                        assert(front.last() == more[j]);
                    }
                }
            }
            lemma_fault_from(scenes, frames, i + 1, s.end_frame + 1);
        } else if covers(scenes, 0, frames) {
            assert(scenes[i].start_frame <= scenes[i].end_frame);
            if i > 0 {
                assert(scenes[i].start_frame == scenes[i - 1].end_frame + 1);
                assert(front.last() == scenes[i - 1]);
            }
            assert(false);
        }
    }
}

/// A chunk list passes exactly when it covers every frame of the source once.
pub proof fn law_list_passes_when_it_covers_the_source(scenes: Seq<SceneEntry>, frames: int)
    ensures
        list_fault(scenes, frames, 0, 0) is None <==> covers(scenes, 0, frames),
{
    assert(scenes.subrange(0, 0) =~= Seq::empty());
    lemma_fault_from(scenes, frames, 0, 0);
}

/// The number of frames is summed from this list and the finished file is held against that
/// sum, so a gap between two chunks would pass as a complete encode.
pub fn validate_scene_list(scenes: &[SceneEntry], frames: u64) -> (r: Result<(), JobError>)
    requires
        forall|i: int| 0 <= i < scenes@.len() ==> (#[trigger] scenes@[i]).end_frame < u64::MAX,
    ensures
        r == match list_fault(scenes@, frames as int, 0, 0) {
            Some(e) => Err::<(), JobError>(e),
            None => Ok(()),
        },
        r is Ok <==> covers(scenes@, 0, frames as int),
{
    proof {
        law_list_passes_when_it_covers_the_source(scenes@, frames as int);
    }
    let mut next: u64 = 0;
    let mut i: usize = 0;
    while i < scenes.len()
        invariant
            i <= scenes@.len(),
            forall|i: int| 0 <= i < scenes@.len() ==> (#[trigger] scenes@[i]).end_frame < u64::MAX,
            list_fault(scenes@, frames as int, i as int, next as int) == list_fault(
                scenes@,
                frames as int,
                0,
                0,
            ),
            list_fault(scenes@, frames as int, 0, 0) is None <==> covers(scenes@, 0, frames as int),
        decreases scenes@.len() - i,
    {
        let s = &scenes[i];
        if s.end_frame < s.start_frame {
            return Err(JobError::TurnedRound(s.index, s.end_frame, s.start_frame));
        }
        if s.start_frame != next {
            return Err(JobError::GapOrOverlap(s.index, s.start_frame, next));
        }
        assert(scenes@[i as int].end_frame < u64::MAX);
        next = s.end_frame + 1;
        i = i + 1;
    }
    if next != frames {
        return Err(JobError::Uncovered(next, frames));
    }
    Ok(())
}

/// The chunks that start within the source, none of them past its end.
pub open spec fn clamped(scenes: Seq<SceneEntry>, frames: int) -> Seq<SceneEntry>
    decreases scenes.len(),
{
    if scenes.len() == 0 {
        Seq::empty()
    } else {
        let before = clamped(scenes.drop_last(), frames);
        let s = scenes.last();
        if s.start_frame >= frames {
            before
        } else if s.end_frame >= frames {
            before.push(SceneEntry { end_frame: (frames - 1) as u64, ..s })
        } else {
            before.push(s)
        }
    }
}

/// The last chunk drawn out to the end of the source.
pub open spec fn extended(scenes: Seq<SceneEntry>, frames: int) -> Seq<SceneEntry> {
    let s = scenes.last();
    if scenes.len() > 0 && s.end_frame + 1 < frames {
        scenes.update(scenes.len() - 1, SceneEntry { end_frame: (frames - 1) as u64, ..s })
    } else {
        scenes
    }
}

/// The chunk list that is encoded, from the one that was detected.
pub open spec fn fitted(scenes: Seq<SceneEntry>, frames: int) -> Result<
    Seq<SceneEntry>,
    JobError,
> {
    let within = clamped(scenes, frames);
    if within.len() == 0 {
        Err(JobError::NoChunks)
    } else {
        let list = extended(within, frames);
        match list_fault(list, frames, 0, 0) {
            Some(e) => Err(e),
            None => Ok(list),
        }
    }
}

fn clamp_scenes(scenes: &[SceneEntry], frames: u64) -> (out: Vec<SceneEntry>)
    ensures
        out@ == clamped(scenes@, frames as int),
        forall|i: int| 0 <= i < out@.len() ==> (#[trigger] out@[i]).end_frame < frames,
{
    let mut out: Vec<SceneEntry> = Vec::new();
    let mut i: usize = 0;
    assert(scenes@.subrange(0, 0) =~= Seq::empty());
    while i < scenes.len()
        invariant
            i <= scenes@.len(),
            out@ == clamped(scenes@.subrange(0, i as int), frames as int),
            forall|i: int| 0 <= i < out@.len() ==> (#[trigger] out@[i]).end_frame < frames,
        decreases scenes@.len() - i,
    {
        assert(scenes@.subrange(0, i + 1).drop_last() =~= scenes@.subrange(0, i as int));
        let s = scenes[i];
        if s.start_frame < frames {
            if s.end_frame >= frames {
                out.push(
                    SceneEntry {
                        index: s.index,
                        start_frame: s.start_frame,
                        end_frame: frames - 1,
                    },
                );
            } else {
                out.push(s);
            }
        }
        i = i + 1;
    }
    assert(scenes@.subrange(0, i as int) =~= scenes@);
    out
}

/// Fits a chunk list to the frames that the source really has: the detector counts decoded
/// frames, and may count more or fewer than the container holds.
pub fn fit_scenes(scenes: &[SceneEntry], frames: u64) -> (r: Result<Vec<SceneEntry>, JobError>)
    ensures
        match r {
            Ok(list) => fitted(scenes@, frames as int) == Ok::<_, JobError>(list@) && covers(
                list@,
                0,
                frames as int,
            ),
            Err(e) => fitted(scenes@, frames as int) == Err::<Seq<SceneEntry>, _>(e),
        },
{
    let mut list = clamp_scenes(scenes, frames);
    let n: usize = list.len();
    if n == 0 {
        return Err(JobError::NoChunks);
    }
    let last = list[n - 1];
    assert(list@[n - 1].end_frame < frames);
    if last.end_frame + 1 < frames {
        list.set(
            n - 1,
            SceneEntry {
                index: last.index,
                start_frame: last.start_frame,
                end_frame: frames - 1,
            },
        );
    }
    assert(list@ =~= extended(clamped(scenes@, frames as int), frames as int));
    match validate_scene_list(list.as_slice(), frames) {
        Ok(()) => Ok(list),
        Err(e) => Err(e),
    }
}

proof fn lemma_clamped_whole(scenes: Seq<SceneEntry>, frames: int, to: int)
    requires
        covers(scenes, 0, to),
        0 < frames <= to,
        scenes.len() > 0,
    ensures
        clamped(scenes, frames).len() > 0,
        covers(clamped(scenes, frames), 0, frames),
    decreases scenes.len(),
{
    let s = scenes.last();
    let front = scenes.drop_last();
    lemma_cover_front(scenes, 0, to);
    let out = clamped(scenes, frames);
    if s.start_frame >= frames {
        if front.len() == 0 {
            assert(s.start_frame == 0);
        }
        lemma_clamped_whole(front, frames, s.start_frame as int);
    } else {
        lemma_clamped_same(front, frames, s.start_frame as int);
        assert(clamped(front, frames) == front);
        let new = out.last();
        assert(out.drop_last() =~= front);
        assert(new.start_frame == s.start_frame && new.end_frame + 1 == frames || new == s && to
            == frames);
        assert forall|j: int| 0 <= j < out.len() implies (#[trigger] out[j]).start_frame
            <= out[j].end_frame by {
            if j < front.len() {
                assert(front[j].start_frame <= front[j].end_frame);
            }
        }
        assert forall|j: int, k: int|
            #![trigger out[j], out[k]]
            0 <= j && k == j + 1 && k < out.len() implies out[k].start_frame == out[j].end_frame
            + 1 by {
            if k < front.len() {
                assert(front[k].start_frame == front[j].end_frame + 1);
            } else {
                assert(front.last() == out[j]);
            }
        }
        if front.len() > 0 {
            assert(out[0] == front[0]);
        }
    }
}

proof fn lemma_clamped_same(scenes: Seq<SceneEntry>, frames: int, to: int)
    requires
        covers(scenes, 0, to),
        to <= frames,
    ensures
        clamped(scenes, frames) == scenes,
    decreases scenes.len(),
{
    if scenes.len() > 0 {
        lemma_cover_front(scenes, 0, to);
        lemma_clamped_same(scenes.drop_last(), frames, scenes.last().start_frame as int);
        assert(clamped(scenes, frames) =~= scenes);
    } else {
        assert(clamped(scenes, frames) =~= scenes);
    }
}

/// A detected list that covers what the detector counted is never refused: it is cut or
/// drawn out to the frames of the source.
pub proof fn law_counted_list_is_fitted(scenes: Seq<SceneEntry>, counted: int, frames: int)
    requires
        covers(scenes, 0, counted),
        0 < counted,
        0 < frames <= u64::MAX,
    ensures
        fitted(scenes, frames) is Ok,
        covers(fitted(scenes, frames)->Ok_0, 0, frames),
        counted == frames ==> fitted(scenes, frames)->Ok_0 == scenes,
{
    let within = clamped(scenes, frames);
    let list = extended(within, frames);
    if frames <= counted {
        lemma_clamped_whole(scenes, frames, counted);
        if counted == frames {
            lemma_clamped_same(scenes, frames, counted);
        }
    } else {
        lemma_clamped_same(scenes, frames, counted);
        lemma_cover_front(scenes, 0, counted);
        assert(list.drop_last() =~= scenes.drop_last());
        assert forall|j: int| 0 <= j < list.len() implies (#[trigger] list[j]).start_frame
            <= list[j].end_frame by {
            assert(scenes[j].start_frame <= scenes[j].end_frame);
        }
        assert forall|j: int, k: int|
            #![trigger list[j], list[k]]
            0 <= j && k == j + 1 && k < list.len() implies list[k].start_frame == list[j].end_frame
            + 1 by {
            assert(scenes[k].start_frame == scenes[j].end_frame + 1);
        }
    }
    law_list_passes_when_it_covers_the_source(list, frames);
}

/// The number of frames in a chunk list.
pub fn total_frames(scenes: &[SceneEntry]) -> (n: u64)
    requires
        forall|i: int|
            0 <= i < scenes@.len() ==> (#[trigger] scenes@[i]).start_frame <= scenes@[i].end_frame,
        sum_frames(scenes@) <= u64::MAX,
    ensures
        n == sum_frames(scenes@),
{
    let mut n: u64 = 0;
    let mut i: usize = 0;
    assert(scenes@.subrange(0, 0) =~= Seq::empty());
    while i < scenes.len()
        invariant
            i <= scenes@.len(),
            forall|i: int|
                0 <= i < scenes@.len() ==> (#[trigger] scenes@[i]).start_frame
                    <= scenes@[i].end_frame,
            sum_frames(scenes@) <= u64::MAX,
            n == sum_frames(scenes@.subrange(0, i as int)),
        decreases scenes@.len() - i,
    {
        proof {
            let now = scenes@.subrange(0, i + 1);
            assert(now.drop_last() =~= scenes@.subrange(0, i as int));
            lemma_sum_grows(scenes@, i + 1);
            lemma_sum_grows(scenes@, i as int);
        }
        n = n + scenes[i].frame_count();
        i = i + 1;
    }
    assert(scenes@.subrange(0, i as int) =~= scenes@);
    n
}

proof fn lemma_sum_grows(scenes: Seq<SceneEntry>, i: int)
    requires
        0 <= i <= scenes.len(),
        forall|k: int|
            0 <= k < scenes.len() ==> (#[trigger] scenes[k]).start_frame <= scenes[k].end_frame,
    ensures
        0 <= sum_frames(scenes.subrange(0, i)) <= sum_frames(scenes),
    decreases scenes.len(),
{
    if scenes.len() > 0 {
        let front = scenes.drop_last();
        assert forall|k: int| 0 <= k < front.len() implies (#[trigger] front[k]).start_frame
            <= front[k].end_frame by {
            assert(scenes[k].start_frame <= scenes[k].end_frame);
        }
        assert(scenes[scenes.len() - 1].start_frame <= scenes[scenes.len() - 1].end_frame);
        if i == scenes.len() {
            assert(scenes.subrange(0, i) =~= scenes);
            lemma_sum_grows(front, front.len() as int);
            assert(front.subrange(0, front.len() as int) =~= front);
        } else {
            lemma_sum_grows(front, i);
            assert(front.subrange(0, i) =~= scenes.subrange(0, i));
        }
    } else {
        assert(scenes.subrange(0, i) =~= scenes);
    }
}

/// Holds the joined chunks against the chunk list.
pub fn check_joined(joined: u64, total: u64) -> (r: Result<(), JobError>)
    ensures
        r == if joined == total {
            Ok::<(), JobError>(())
        } else {
            Err(JobError::ShortJoin(joined, total))
        },
        r is Ok <==> joined == total,
{
    if joined != total {
        return Err(JobError::ShortJoin(joined, total));
    }
    Ok(())
}

/// Holds the finished file against the chunk list: a merge that lost a chunk is valid
/// Matroska that ends early.
pub fn check_output(actual: u64, expected: u64) -> (r: Result<(), JobError>)
    ensures
        r == if actual == expected {
            Ok::<(), JobError>(())
        } else {
            Err(JobError::ShortOutput(actual, expected))
        },
        r is Ok <==> actual == expected,
{
    if actual != expected {
        return Err(JobError::ShortOutput(actual, expected));
    }
    Ok(())
}

// ---------------------------------------------------------------------------
// Size and crop of the output
// ---------------------------------------------------------------------------
/// The crop of a source: the one that was detected where it fits, else what an odd frame
/// size loses.
pub open spec fn source_crop(src_w: u32, src_h: u32, crop_str: Option<Seq<char>>) -> Option<Crop> {
    let detected = match crop_str {
        Some(s) => match crop_of(s) {
            Some(c) => fitted_crop(c, src_w, src_h),
            None => None,
        },
        None => None,
    };
    match detected {
        Some(c) => Some(c),
        None => if src_w % 2 == 0 && src_h % 2 == 0 {
            None
        } else {
            Some(Crop { w: even(src_w), h: even(src_h), x: 0, y: 0 })
        },
    }
}

/// The size that is left of a source.
pub open spec fn cropped_size(src_w: u32, src_h: u32, crop: Option<Crop>) -> (u32, u32) {
    match crop {
        Some(c) => (c.w, c.h),
        None => (src_w, src_h),
    }
}

/// The ffmpeg filter that gives scene detection the picture of the encode.
pub open spec fn scene_filter(crop: Option<Crop>, scale: Option<(u32, u32)>) -> Option<Seq<char>> {
    match (crop, scale) {
        (None, None) => None,
        (Some(c), None) => Some(crop_filter(c)),
        (None, Some((w, h))) => Some("scale="@ + decimal(w as nat) + ":"@ + decimal(h as nat)),
        (Some(c), Some((w, h))) => Some(
            crop_filter(c) + ",scale="@ + decimal(w as nat) + ":"@ + decimal(h as nat),
        ),
    }
}

/// The crop of a source and the size that it leaves.
pub fn crop_source(src_w: u32, src_h: u32, crop_str: Option<&str>) -> (r: (
    Option<Crop>,
    (u32, u32),
))
    ensures
        r.0 == source_crop(src_w, src_h, str_of(crop_str)),
        r.1 == cropped_size(src_w, src_h, r.0),
{
    let detected = match crop_str {
        Some(s) => match Crop::from_str(s) {
            Some(c) => c.normalized(src_w, src_h),
            None => None,
        },
        None => None,
    };
    let crop = match detected {
        Some(c) => Some(c),
        None => {
            if src_w % 2 == 0 && src_h % 2 == 0 {
                None
            } else {
                Some(Crop { w: round_down_even(src_w), h: round_down_even(src_h), x: 0, y: 0 })
            }
        },
    };
    match crop {
        Some(c) => (crop, (c.w, c.h)),
        None => (crop, (src_w, src_h)),
    }
}

/// The ffmpeg filter for scene detection: the crop in source space, then the scale.
pub fn build_scene_vf(crop: Option<Crop>, scale_target: Option<(u32, u32)>) -> (r: Option<String>)
    ensures
        text_of(r) == scene_filter(crop, scale_target),
{
    match (crop, scale_target) {
        (None, None) => None,
        (Some(c), None) => Some(c.to_filter()),
        (None, Some((w, h))) => {
            let s = sentence("scale=", w as u64, ":", h as u64, "");
            proof {
                reveal_strlit("");
                assert(s@ =~= "scale="@ + decimal(w as nat) + ":"@ + decimal(h as nat));
            }
            Some(s)
        },
        (Some(c), Some((w, h))) => {
            let mut s = c.to_filter();
            s.append(",scale=");
            push_decimal(&mut s, w as u64);
            s.append(":");
            push_decimal(&mut s, h as u64);
            assert(s@ =~= crop_filter(c) + ",scale="@ + decimal(w as nat) + ":"@ + decimal(
                h as nat,
            ));
            Some(s)
        },
    }
}

/// The scale, the crop and the filter for scene detection. The crop is in source space and
/// comes before the scale. `scaled` is the cropped size times the factor that brings its
/// height to `target_height`; it only counts where the picture is higher than that.
pub fn compute_output_params(
    src_w: u32,
    src_h: u32,
    crop_str: Option<&str>,
    target_height: Option<u32>,
    scaled: (u32, u32),
) -> (r: (Option<(u32, u32)>, Option<Crop>, Option<String>))
    ensures
        r.1 == source_crop(src_w, src_h, str_of(crop_str)),
        r.0 == (if target_height is Some && cropped_size(src_w, src_h, r.1).1 > target_height->0 {
            Some((even(scaled.0), even(scaled.1)))
        } else {
            None
        }),
        text_of(r.2) == scene_filter(r.1, r.0),
        r.0 is Some ==> target_height is Some && cropped_size(src_w, src_h, r.1).1
            > target_height->0,
        target_height is Some && r.0 is None ==> cropped_size(src_w, src_h, r.1).1
            <= target_height->0,
        r.0 matches Some((w, h)) ==> w % 2 == 0 && h % 2 == 0 && w <= scaled.0 <= w + 1 && h
            <= scaled.1 <= h + 1,
{
    let (crop, size) = crop_source(src_w, src_h, crop_str);
    let scale_target = match target_height {
        Some(th) => {
            if size.1 > th {
                Some((round_down_even(scaled.0), round_down_even(scaled.1)))
            } else {
                None
            }
        },
        None => None,
    };
    let scene_vf = build_scene_vf(crop, scale_target);
    (scale_target, crop, scene_vf)
}

/// Whatever the source, the picture that is encoded has even edges and lies within it.
pub proof fn law_encoded_picture_is_even_and_inside(
    src_w: u32,
    src_h: u32,
    crop_str: Option<Seq<char>>,
)
    ensures
        match source_crop(src_w, src_h, crop_str) {
            Some(c) => c.w % 2 == 0 && c.h % 2 == 0 && c.x % 2 == 0 && c.y % 2 == 0 && c.x + c.w
                <= src_w && c.y + c.h <= src_h,
            None => src_w % 2 == 0 && src_h % 2 == 0,
        },
{
}

// ---------------------------------------------------------------------------
// The fingerprint of a profile
// ---------------------------------------------------------------------------
/// The arguments without one `--flag value` pair, wherever it is, from argument `i` on.
pub open spec fn args_without(args: Seq<Seq<char>>, flag: Seq<char>, i: int) -> Seq<Seq<char>>
    decreases args.len() - i,
{
    if i < 0 || i >= args.len() {
        Seq::empty()
    } else if args[i] == flag && i + 1 < args.len() {
        args_without(args, flag, i + 2)
    } else {
        seq![args[i]] + args_without(args, flag, i + 1)
    }
}

/// The arguments without a `--flag value` pair.
pub fn without_arg(args: &[String], flag: &str) -> (out: Vec<String>)
    ensures
        strings(out@) == args_without(strings(args@), flag@, 0),
{
    let ghost views = strings(args@);
    let len: usize = args.len();
    let mut out: Vec<String> = Vec::new();
    let mut i: usize = 0;
    assert(strings(out@) + args_without(views, flag@, 0) =~= args_without(views, flag@, 0));
    while i < len
        invariant
            i <= len,
            len == args@.len(),
            views == strings(args@),
            strings(out@) + args_without(views, flag@, i as int) == args_without(views, flag@, 0),
        decreases len - i,
    {
        assert(views[i as int] == args@[i as int]@);
        if same(args[i].as_str(), flag) && len - i > 1 {
            i = i + 2;
        } else {
            let ghost before = strings(out@);
            out.push(args[i].clone());
            assert(strings(out@) =~= before.push(views[i as int]));
            assert(strings(out@) + args_without(views, flag@, i + 1) =~= before + args_without(
                views,
                flag@,
                i as int,
            ));
            i = i + 1;
        }
    }
    assert(strings(out@) + Seq::<Seq<char>>::empty() =~= strings(out@));
    out
}

pub open spec fn encoder_word(e: Option<Encoder>) -> Seq<char> {
    match e {
        Some(Encoder::SvtAv1) => "Some(SvtAv1)"@,
        Some(Encoder::SvtAv1Hdr) => "Some(SvtAv1Hdr)"@,
        None => "None"@,
    }
}

pub open spec fn scale_word(scale: Option<(u32, u32)>) -> Seq<char> {
    match scale {
        Some((w, h)) => "Some(("@ + decimal(w as nat) + ", "@ + decimal(h as nat) + "))"@,
        None => "None"@,
    }
}

pub open spec fn crop_word(crop: Option<Crop>) -> Seq<char> {
    match crop {
        Some(c) => "Some(Crop { w: "@ + decimal(c.w as nat) + ", h: "@ + decimal(c.h as nat)
            + ", x: "@ + decimal(c.x as nat) + ", y: "@ + decimal(c.y as nat) + " })"@,
        None => "None"@,
    }
}

pub open spec fn number_word(n: Option<nat>) -> Seq<char> {
    match n {
        Some(n) => "Some("@ + decimal(n) + ")"@,
        None => "None"@,
    }
}

pub open spec fn bool_word(b: bool) -> Seq<char> {
    if b {
        "true"@
    } else {
        "false"@
    }
}

pub open spec fn speed_word(s: SceneDetectionSpeedConfig) -> Seq<char> {
    match s {
        SceneDetectionSpeedConfig::Standard => "Standard"@,
        SceneDetectionSpeedConfig::Fast => "Fast"@,
    }
}

pub open spec fn optional_nat(n: Option<u32>) -> Option<nat> {
    match n {
        Some(n) => Some(n as nat),
        None => None,
    }
}

pub open spec fn scene_word(c: SceneDetectionConfig) -> Seq<char> {
    "SceneDetectionConfig { min_scene_len: "@ + decimal(c.min_scene_len as nat)
        + ", extra_split_sec: "@ + decimal(c.extra_split_sec as nat) + ", extra_split: "@ + decimal(
        c.extra_split as nat,
    ) + ", speed: "@ + speed_word(c.speed) + ", downscale_height: "@ + number_word(
        optional_nat(c.downscale_height),
    ) + " }"@
}

pub open spec fn quality_word(tq: Option<Seq<char>>) -> Seq<char> {
    match tq {
        Some(t) => "Some("@ + t + ")"@,
        None => "None"@,
    }
}

pub open spec fn dynamic_word(d: DynamicHdr) -> Seq<char> {
    "DynamicHdr { hdr10plus: "@ + bool_word(d.hdr10plus) + ", dolby_vision: "@ + bool_word(
        d.dolby_vision,
    ) + " }"@
}

pub open spec fn depth_nat(depth: Option<u8>) -> Option<nat> {
    match depth {
        Some(d) => Some(d as nat),
        None => None,
    }
}

pub open spec fn bitstream_word(b: bool) -> Seq<char> {
    "hdr10plus_bitstream="@ + bool_word(b)
}

/// What the fingerprint holds of dynamic HDR metadata: nothing where none is carried.
pub open spec fn dynamic_part(opts: EncodeOptions) -> Option<(DynamicHdr, bool)> {
    if opts.dynamic_hdr.hdr10plus || opts.dynamic_hdr.dolby_vision {
        Some((opts.dynamic_hdr, opts.hdr10plus_frames is Some))
    } else {
        None
    }
}

pub open spec fn dynamic_words(opts: EncodeOptions) -> Seq<Seq<char>> {
    match dynamic_part(opts) {
        Some((d, b)) => seq![dynamic_word(d), bitstream_word(b)],
        None => Seq::empty(),
    }
}

/// Everything that the chunks and their boundaries depend on, one word each.
pub open spec fn fingerprint_words(
    encoder: Option<Encoder>,
    merged_args: Seq<Seq<char>>,
    opts: EncodeOptions,
    scene_cfg: SceneDetectionConfig,
    tq: Option<Seq<char>>,
) -> Seq<Seq<char>> {
    let words = seq![
        encoder_word(encoder),
        joined(merged_args, " "@),
        scale_word(opts.scale),
        crop_word(opts.crop),
        number_word(depth_nat(opts.target_bit_depth)),
        scene_word(scene_cfg),
        quality_word(tq),
    ];
    words + dynamic_words(opts)
}

fn push_bool(s: &mut String, b: bool)
    ensures
        final(s)@ == old(s)@ + bool_word(b),
{
    if b {
        s.append("true");
    } else {
        s.append("false");
    }
}

fn scale_text(scale: Option<(u32, u32)>) -> (s: String)
    ensures
        s@ == scale_word(scale),
{
    match scale {
        Some((w, h)) => sentence("Some((", w as u64, ", ", h as u64, "))"),
        None => "None".to_owned(),
    }
}

fn crop_text(crop: Option<Crop>) -> (s: String)
    ensures
        s@ == crop_word(crop),
{
    match crop {
        Some(c) => {
            let mut s = sentence("Some(Crop { w: ", c.w as u64, ", h: ", c.h as u64, ", x: ");
            push_decimal(&mut s, c.x as u64);
            s.append(", y: ");
            push_decimal(&mut s, c.y as u64);
            s.append(" })");
            s
        },
        None => "None".to_owned(),
    }
}

fn number_text(n: Option<u32>) -> (s: String)
    ensures
        s@ == number_word(optional_nat(n)),
{
    match n {
        Some(n) => {
            let mut s = "Some(".to_owned();
            push_decimal(&mut s, n as u64);
            s.append(")");
            s
        },
        None => "None".to_owned(),
    }
}

fn scene_text(c: &SceneDetectionConfig) -> (s: String)
    ensures
        s@ == scene_word(*c),
{
    let mut s = sentence(
        "SceneDetectionConfig { min_scene_len: ",
        c.min_scene_len as u64,
        ", extra_split_sec: ",
        c.extra_split_sec,
        ", extra_split: ",
    );
    push_decimal(&mut s, c.extra_split as u64);
    s.append(", speed: ");
    match c.speed {
        SceneDetectionSpeedConfig::Standard => {
            s.append("Standard");
        },
        SceneDetectionSpeedConfig::Fast => {
            s.append("Fast");
        },
    }
    s.append(", downscale_height: ");
    s.append(number_text(c.downscale_height).as_str());
    s.append(" }");
    s
}

/// The text that the fingerprint is taken of.
pub fn fingerprint_text(
    encoder: Option<Encoder>,
    merged_args: &[String],
    opts: &EncodeOptions,
    scene_cfg: &SceneDetectionConfig,
    tq: Option<&str>,
) -> (s: String)
    ensures
        s@ == joined(
            fingerprint_words(encoder, strings(merged_args@), *opts, *scene_cfg, str_of(tq)),
            "|"@,
        ),
{
    let mut words: Vec<String> = Vec::new();
    let encoder_text: &str = match encoder {
        Some(Encoder::SvtAv1) => "Some(SvtAv1)",
        Some(Encoder::SvtAv1Hdr) => "Some(SvtAv1Hdr)",
        None => "None",
    };
    words.push(encoder_text.to_owned());
    words.push(join(merged_args, " "));
    words.push(scale_text(opts.scale));
    words.push(crop_text(opts.crop));
    words.push(
        number_text(
            match opts.target_bit_depth {
                Some(d) => Some(d as u32),
                None => None,
            },
        ),
    );
    words.push(scene_text(scene_cfg));
    let quality = match tq {
        Some(t) => {
            let mut s = "Some(".to_owned();
            s.append(t);
            s.append(")");
            s
        },
        None => "None".to_owned(),
    };
    words.push(quality);
    if opts.dynamic_hdr.any() {
        let mut s = "DynamicHdr { hdr10plus: ".to_owned();
        push_bool(&mut s, opts.dynamic_hdr.hdr10plus);
        s.append(", dolby_vision: ");
        push_bool(&mut s, opts.dynamic_hdr.dolby_vision);
        s.append(" }");
        words.push(s);
        let mut b = "hdr10plus_bitstream=".to_owned();
        push_bool(&mut b, opts.hdr10plus_frames.is_some());
        words.push(b);
    }
    assert(strings(words@) =~= fingerprint_words(
        encoder,
        strings(merged_args@),
        *opts,
        *scene_cfg,
        str_of(tq),
    ));
    join(words.as_slice(), "|")
}

/// Sixteen hexadecimal digits.
pub open spec fn hex16(n: u64) -> Seq<char> {
    hex_of(be_bytes(n as nat, 8))
}

/// A hash of everything that the chunks and their boundaries depend on, so that a resumed
/// encode never mixes chunks of different settings. `tq` holds the settings of the quality
/// target in words.
pub fn profile_fingerprint(
    encoder: Option<Encoder>,
    merged_args: &[String],
    opts: &EncodeOptions,
    scene_cfg: &SceneDetectionConfig,
    tq: Option<&str>,
) -> (s: String)
    ensures
        s@ == hex16(
            stem_hash(
                joined(
                    fingerprint_words(
                        encoder,
                        strings(merged_args@),
                        *opts,
                        *scene_cfg,
                        str_of(tq),
                    ),
                    "|"@,
                ),
            ),
        ),
{
    let text = fingerprint_text(encoder, merged_args, opts, scene_cfg, tq);
    let hash: u64 = stable_hash(text.as_str());
    let mut digits: Vec<u8> = Vec::new();
    push_be(&mut digits, hash, 8);
    assert(digits@ =~= be_bytes(hash as nat, 8));
    to_hex(digits.as_slice())
}

proof fn lemma_encoder_word(a: Option<Encoder>, b: Option<Encoder>)
    requires
        encoder_word(a) == encoder_word(b),
    ensures
        a == b,
{
    reveal_strlit("Some(SvtAv1)");
    reveal_strlit("Some(SvtAv1Hdr)");
    reveal_strlit("None");
    assert("Some(SvtAv1)"@.len() == 12);
    assert("Some(SvtAv1Hdr)"@.len() == 15);
    assert("None"@.len() == 4);
}

proof fn lemma_scale_word(a: Option<(u32, u32)>, b: Option<(u32, u32)>)
    requires
        scale_word(a) == scale_word(b),
    ensures
        a == b,
{
    let (start, mid, end) = ("Some(("@, ", "@, "))"@);
    reveal_strlit("Some((");
    reveal_strlit(", ");
    reveal_strlit("))");
    reveal_strlit("None");
    assert(start.last() == '(' && mid.last() == ' ' && end.last() == ')' && "None"@.last() == 'e');
    assert(scale_word(a).last() == scale_word(b).last());
    if let (Some((w, h)), Some((v, g))) = (a, b) {
        let (x, y) = (start + decimal(w as nat), start + decimal(v as nat));
        lemma_same_back(x + mid + decimal(h as nat), y + mid + decimal(g as nat), end);
        lemma_last_number(x + mid, h as nat, y + mid, g as nat);
        lemma_same_back(x, y, mid);
        lemma_last_number(start, w as nat, start, v as nat);
    }
}

proof fn lemma_crop_word(a: Option<Crop>, b: Option<Crop>)
    requires
        crop_word(a) == crop_word(b),
    ensures
        a == b,
{
    let (start, h, x, y, end) = ("Some(Crop { w: "@, ", h: "@, ", x: "@, ", y: "@, " })"@);
    reveal_strlit("Some(Crop { w: ");
    reveal_strlit(", h: ");
    reveal_strlit(", x: ");
    reveal_strlit(", y: ");
    reveal_strlit(" })");
    reveal_strlit("None");
    assert(start.last() == ' ' && h.last() == ' ' && x.last() == ' ' && y.last() == ' ');
    assert(end.last() == ')' && "None"@.last() == 'e');
    assert(crop_word(a).last() == crop_word(b).last());
    if let (Some(c), Some(e)) = (a, b) {
        let (c1, e1) = (start + decimal(c.w as nat), start + decimal(e.w as nat));
        let (c2, e2) = (c1 + h + decimal(c.h as nat), e1 + h + decimal(e.h as nat));
        let (c3, e3) = (c2 + x + decimal(c.x as nat), e2 + x + decimal(e.x as nat));
        let (c4, e4) = (c3 + y + decimal(c.y as nat), e3 + y + decimal(e.y as nat));
        lemma_same_back(c4, e4, end);
        lemma_last_number(c3 + y, c.y as nat, e3 + y, e.y as nat);
        lemma_same_back(c3, e3, y);
        lemma_last_number(c2 + x, c.x as nat, e2 + x, e.x as nat);
        lemma_same_back(c2, e2, x);
        lemma_last_number(c1 + h, c.h as nat, e1 + h, e.h as nat);
        lemma_same_back(c1, e1, h);
        lemma_last_number(start, c.w as nat, start, e.w as nat);
    }
}

/// Text that ends with an optional number tells it.
proof fn lemma_number_word(x: Seq<char>, a: Option<nat>, y: Seq<char>, b: Option<nat>)
    requires
        x + number_word(a) == y + number_word(b),
    ensures
        x == y,
        a == b,
{
    let (start, end) = ("Some("@, ")"@);
    reveal_strlit("Some(");
    reveal_strlit(")");
    reveal_strlit("None");
    assert(start.last() == '(' && end.last() == ')' && "None"@.last() == 'e');
    assert((x + number_word(a)).last() == number_word(a).last());
    assert((y + number_word(b)).last() == number_word(b).last());
    match (a, b) {
        (Some(m), Some(n)) => {
            lemma_regroup(x, start + decimal(m), end);
            lemma_regroup(x, start, decimal(m));
            lemma_regroup(y, start + decimal(n), end);
            lemma_regroup(y, start, decimal(n));
            lemma_same_back(x + start + decimal(m), y + start + decimal(n), end);
            lemma_last_number(x + start, m, y + start, n);
            lemma_same_back(x, y, start);
        },
        (None, None) => {
            lemma_same_back(x, y, "None"@);
        },
        _ => {},
    }
}

proof fn lemma_speed_word(
    x: Seq<char>,
    a: SceneDetectionSpeedConfig,
    y: Seq<char>,
    b: SceneDetectionSpeedConfig,
)
    requires
        x + speed_word(a) == y + speed_word(b),
    ensures
        x == y,
        a == b,
{
    reveal_strlit("Standard");
    reveal_strlit("Fast");
    assert("Standard"@.last() == 'd' && "Fast"@.last() == 't');
    assert((x + speed_word(a)).last() == speed_word(a).last());
    assert((y + speed_word(b)).last() == speed_word(b).last());
    lemma_same_back(x, y, speed_word(a));
}

proof fn lemma_scene_word(a: SceneDetectionConfig, b: SceneDetectionConfig)
    requires
        scene_word(a) == scene_word(b),
    ensures
        a == b,
{
    let start = "SceneDetectionConfig { min_scene_len: "@;
    let (sec, split) = (", extra_split_sec: "@, ", extra_split: "@);
    let (speed, height) = (", speed: "@, ", downscale_height: "@);
    assert(start.len() > 0 && start.last() == ' ') by {
        reveal_strlit("SceneDetectionConfig { min_scene_len: ");
    }
    assert(sec.len() > 0 && sec.last() == ' ') by {
        reveal_strlit(", extra_split_sec: ");
    }
    assert(split.len() > 0 && split.last() == ' ') by {
        reveal_strlit(", extra_split: ");
    }
    let (a1, b1) = (start + decimal(a.min_scene_len as nat), start + decimal(
        b.min_scene_len as nat,
    ));
    let (a2, b2) = (a1 + sec + decimal(a.extra_split_sec as nat), b1 + sec + decimal(
        b.extra_split_sec as nat,
    ));
    let (a3, b3) = (a2 + split + decimal(a.extra_split as nat), b2 + split + decimal(
        b.extra_split as nat,
    ));
    let (a4, b4) = (a3 + speed + speed_word(a.speed), b3 + speed + speed_word(b.speed));
    let (p, q) = (optional_nat(a.downscale_height), optional_nat(b.downscale_height));
    lemma_same_back(a4 + height + number_word(p), b4 + height + number_word(q), " }"@);
    lemma_number_word(a4 + height, p, b4 + height, q);
    lemma_same_back(a4, b4, height);
    lemma_speed_word(a3 + speed, a.speed, b3 + speed, b.speed);
    lemma_same_back(a3, b3, speed);
    lemma_last_number(a2 + split, a.extra_split as nat, b2 + split, b.extra_split as nat);
    lemma_same_back(a2, b2, split);
    lemma_last_number(a1 + sec, a.extra_split_sec as nat, b1 + sec, b.extra_split_sec as nat);
    lemma_same_back(a1, b1, sec);
    lemma_last_number(start, a.min_scene_len as nat, start, b.min_scene_len as nat);
}

proof fn lemma_quality_word(a: Option<Seq<char>>, b: Option<Seq<char>>)
    requires
        quality_word(a) == quality_word(b),
    ensures
        a == b,
{
    reveal_strlit("Some(");
    reveal_strlit(")");
    reveal_strlit("None");
    assert(")"@.last() == ')' && "None"@.last() == 'e');
    assert(quality_word(a).last() == quality_word(b).last());
    if let (Some(s), Some(t)) = (a, b) {
        lemma_same_back("Some("@ + s, "Some("@ + t, ")"@);
        lemma_same_front("Some("@, s, t);
    }
}

proof fn lemma_bool_word(x: Seq<char>, a: bool, y: Seq<char>, b: bool)
    requires
        x + bool_word(a) == y + bool_word(b),
    ensures
        x == y,
        a == b,
{
    let (s, t) = (x + bool_word(a), y + bool_word(b));
    reveal_strlit("true");
    reveal_strlit("false");
    assert("true"@.len() == 4 && "true"@[2] == 'u');
    assert("false"@.len() == 5 && "false"@[3] == 's');
    assert(s[s.len() - 2] == bool_word(a)[bool_word(a).len() - 2]);
    assert(t[t.len() - 2] == bool_word(b)[bool_word(b).len() - 2]);
    lemma_same_back(x, y, bool_word(a));
}

proof fn lemma_dynamic_word(a: DynamicHdr, b: DynamicHdr)
    requires
        dynamic_word(a) == dynamic_word(b),
    ensures
        a == b,
{
    let (start, mid) = ("DynamicHdr { hdr10plus: "@, ", dolby_vision: "@);
    let (x, y) = (start + bool_word(a.hdr10plus), start + bool_word(b.hdr10plus));
    lemma_same_back(
        x + mid + bool_word(a.dolby_vision),
        y + mid + bool_word(b.dolby_vision),
        " }"@,
    );
    lemma_bool_word(x + mid, a.dolby_vision, y + mid, b.dolby_vision);
    lemma_same_back(x, y, mid);
    lemma_bool_word(start, a.hdr10plus, start, b.hdr10plus);
}

/// The words on dynamic HDR metadata stand behind the others.
proof fn lemma_joined_dynamic(front: Seq<Seq<char>>, opts: EncodeOptions)
    requires
        front.len() == 7,
    ensures
        joined(front + dynamic_words(opts), "|"@) == match dynamic_part(opts) {
            Some((d, b)) => joined(front, "|"@) + "|"@ + dynamic_word(d) + "|"@ + bitstream_word(b),
            None => joined(front, "|"@),
        },
{
    let all = front + dynamic_words(opts);
    if let Some((d, b)) = dynamic_part(opts) {
        assert(all.len() == 9 && all.last() == bitstream_word(b));
        let most = all.drop_last();
        assert(most.len() == 8 && most.last() == dynamic_word(d));
        assert(most.drop_last() =~= front);
        assert(joined(most, "|"@) == joined(front, "|"@) + "|"@ + dynamic_word(d));
    } else {
        assert(all =~= front);
    }
}

/// Words that are alike but for those on dynamic HDR metadata tell it when they are joined.
proof fn lemma_dynamic_words(front: Seq<Seq<char>>, o: EncodeOptions, p: EncodeOptions)
    requires
        front.len() == 7,
        joined(front + dynamic_words(o), "|"@) == joined(front + dynamic_words(p), "|"@),
    ensures
        dynamic_part(o) == dynamic_part(p),
{
    let (bar, label) = ("|"@, "hdr10plus_bitstream="@);
    assert(bar.len() == 1) by {
        reveal_strlit("|");
    }
    lemma_joined_dynamic(front, o);
    lemma_joined_dynamic(front, p);
    if let (Some((d, s)), Some((e, t))) = (dynamic_part(o), dynamic_part(p)) {
        let start = joined(front, bar) + bar;
        let (x, y) = (start + dynamic_word(d), start + dynamic_word(e));
        lemma_regroup(x + bar, label, bool_word(s));
        lemma_regroup(y + bar, label, bool_word(t));
        lemma_bool_word(x + bar + label, s, y + bar + label, t);
        lemma_same_back(x + bar, y + bar, label);
        lemma_same_back(x, y, bar);
        lemma_same_front(start, dynamic_word(d), dynamic_word(e));
        lemma_dynamic_word(d, e);
    } else if let Some((d, s)) = dynamic_part(o) {
        assert(joined(front + dynamic_words(o), bar).len() > joined(front, bar).len());
    } else if let Some((e, t)) = dynamic_part(p) {
        assert(joined(front + dynamic_words(p), bar).len() > joined(front, bar).len());
    }
}

/// Which settings differ between two encodes: the encoder, its arguments, the size, the crop,
/// the bit depth, the chunks, the quality target and the dynamic HDR metadata.
pub open spec fn changes(
    encoder: (Option<Encoder>, Option<Encoder>),
    args: (Seq<Seq<char>>, Seq<Seq<char>>),
    opts: (EncodeOptions, EncodeOptions),
    scene_cfg: (SceneDetectionConfig, SceneDetectionConfig),
    tq: (Option<Seq<char>>, Option<Seq<char>>),
) -> Seq<bool> {
    seq![
        encoder.0 != encoder.1,
        args.0 != args.1,
        opts.0.scale != opts.1.scale,
        opts.0.crop != opts.1.crop,
        opts.0.target_bit_depth != opts.1.target_bit_depth,
        scene_cfg.0 != scene_cfg.1,
        tq.0 != tq.1,
        dynamic_part(opts.0) != dynamic_part(opts.1),
    ]
}

/// The text that the fingerprint is taken of changes with every setting: two encodes that
/// differ in one of them, where that is the arguments in one of these, have different texts.
pub proof fn law_fingerprint_text_tells_each_setting(
    encoder: (Option<Encoder>, Option<Encoder>),
    args: (Seq<Seq<char>>, Seq<Seq<char>>),
    opts: (EncodeOptions, EncodeOptions),
    scene_cfg: (SceneDetectionConfig, SceneDetectionConfig),
    tq: (Option<Seq<char>>, Option<Seq<char>>),
    k: int,
)
    requires
        0 <= k < 8,
        changes(encoder, args, opts, scene_cfg, tq)[k],
        forall|j: int|
            0 <= j < 8 && j != k ==> !#[trigger] changes(encoder, args, opts, scene_cfg, tq)[j],
        args.0 != args.1 ==> exists|i: int|
            0 <= i < args.0.len() && args.1 == #[trigger] args.0.update(i, args.1[i]),
    ensures
        joined(fingerprint_words(encoder.0, args.0, opts.0, scene_cfg.0, tq.0), "|"@) != joined(
            fingerprint_words(encoder.1, args.1, opts.1, scene_cfg.1, tq.1),
            "|"@,
        ),
{
    let a = fingerprint_words(encoder.0, args.0, opts.0, scene_cfg.0, tq.0);
    let b = fingerprint_words(encoder.1, args.1, opts.1, scene_cfg.1, tq.1);
    let all = changes(encoder, args, opts, scene_cfg, tq);
    assert(k != 0 ==> !all[0]);
    assert(k != 1 ==> !all[1]);
    assert(k != 2 ==> !all[2]);
    assert(k != 3 ==> !all[3]);
    assert(k != 4 ==> !all[4]);
    assert(k != 5 ==> !all[5]);
    assert(k != 6 ==> !all[6]);
    assert(k != 7 ==> !all[7]);
    if joined(a, "|"@) == joined(b, "|"@) {
        if k < 7 {
            assert(dynamic_part(opts.0) == dynamic_part(opts.1));
            assert(b =~= a.update(k, b[k]));
            lemma_joined_tells_part(a, b, k, "|"@);
            if k == 0 {
                lemma_encoder_word(encoder.0, encoder.1);
            } else if k == 1 {
                let i = choose|i: int|
                    0 <= i < args.0.len() && args.1 == #[trigger] args.0.update(i, args.1[i]);
                lemma_joined_tells_part(args.0, args.1, i, " "@);
                assert(args.0 =~= args.1);
            } else if k == 2 {
                lemma_scale_word(opts.0.scale, opts.1.scale);
            } else if k == 3 {
                lemma_crop_word(opts.0.crop, opts.1.crop);
            } else if k == 4 {
                let (p, q) = (
                    depth_nat(opts.0.target_bit_depth),
                    depth_nat(opts.1.target_bit_depth),
                );
                let none = Seq::<char>::empty();
                assert(none + number_word(p) =~= number_word(p));
                assert(none + number_word(q) =~= number_word(q));
                lemma_number_word(none, p, none, q);
            } else if k == 5 {
                lemma_scene_word(scene_cfg.0, scene_cfg.1);
            } else {
                lemma_quality_word(tq.0, tq.1);
            }
        } else {
            let front = a.subrange(0, 7);
            assert(a =~= front + dynamic_words(opts.0));
            assert(b =~= front + dynamic_words(opts.1));
            lemma_dynamic_words(front, opts.0, opts.1);
        }
    }
}

/// Under a quality target the CRF of the profile only seeds the search and reaches no chunk,
/// so profiles that differ in it alone share their chunks.
pub fn fingerprint_args(merged_args: &[String], target_quality: bool) -> (args: Vec<String>)
    ensures
        strings(args@) == if target_quality {
            args_without(strings(merged_args@), "--crf"@, 0)
        } else {
            strings(merged_args@)
        },
{
    if target_quality {
        return without_arg(merged_args, "--crf");
    }
    copied(merged_args)
}

/// What becomes of the chunks of an earlier run.
#[derive(Clone, Copy, Debug, PartialEq, Eq, Structural)]
pub enum CacheAction {
    /// The profile is the same: everything stays.
    Keep,
    /// There was no fingerprint: it is written, and nothing is discarded.
    Record,
    /// The profile changed: scenes, chunks and their records are discarded before the new
    /// fingerprint is written. The index and the crop depend on the source alone and stay.
    Discard,
}

pub fn invalidate_stale_cache(prev: Option<&str>, fingerprint: &str) -> (a: CacheAction)
    ensures
        a == match str_of(prev) {
            Some(p) => if p == fingerprint@ {
                CacheAction::Keep
            } else {
                CacheAction::Discard
            },
            None => CacheAction::Record,
        },
        a == CacheAction::Discard <==> prev is Some && prev->0@ != fingerprint@,
        a == CacheAction::Keep <==> prev is Some && prev->0@ == fingerprint@,
{
    match prev {
        Some(p) => {
            if same(p, fingerprint) {
                CacheAction::Keep
            } else {
                CacheAction::Discard
            }
        },
        None => CacheAction::Record,
    }
}

/// The threads that one encode takes: the profile's `lp`, or 6.
pub open spec fn threads_of(params: Seq<(String, ParamValue)>, i: int) -> nat
    decreases params.len() - i,
{
    if i < 0 || i >= params.len() {
        6
    } else if params[i].0@ == "lp"@ {
        match params[i].1 {
            ParamValue::Integer(n) => if 0 < n <= usize::MAX {
                n as nat
            } else {
                6
            },
            ParamValue::Text(s) => match unsigned(s@, usize::MAX as nat) {
                Some(n) => if n > 0 {
                    n
                } else {
                    6
                },
                None => 6,
            },
            _ => 6,
        }
    } else {
        threads_of(params, i + 1)
    }
}

pub fn threads_per_worker(config: &Config) -> (n: usize)
    ensures
        n == threads_of(config.encoder_params@, 0),
        n > 0,
{
    let params = &config.encoder_params;
    let mut i: usize = 0;
    while i < params.len()
        invariant
            i <= params@.len(),
            params@ == config.encoder_params@,
            threads_of(params@, i as int) == threads_of(params@, 0),
        decreases params@.len() - i,
    {
        if same(params[i].0.as_str(), "lp") {
            let n: usize = match &params[i].1 {
                ParamValue::Integer(n) => {
                    if *n > 0 && *n as u64 <= usize::MAX as u64 {
                        *n as usize
                    } else {
                        6
                    }
                },
                ParamValue::Text(s) => {
                    let chars = to_chars(s.as_str());
                    match parse_unsigned(chars.as_slice(), usize::MAX as u64) {
                        Some(n) => {
                            if n > 0 {
                                n as usize
                            } else {
                                6
                            }
                        },
                        None => 6,
                    }
                },
                _ => 6,
            };
            return n;
        }
        i = i + 1;
    }
    6
}

pub open spec fn ignored_words(a: AvetConfig) -> Seq<Seq<char>> {
    (if a.dv {
        seq!["dv"@]
    } else {
        Seq::empty()
    }) + (if a.crop {
        seq!["crop"@]
    } else {
        Seq::empty()
    }) + (if a.keyint {
        seq!["keyint"@]
    } else {
        Seq::empty()
    }) + (if a.scale is Some {
        seq!["scale"@]
    } else {
        Seq::empty()
    }) + (if a.bit_depth is Some {
        seq!["bit_depth"@]
    } else {
        Seq::empty()
    })
}

/// The settings that a copied video makes nothing of.
pub fn ignored_video_opts(a: &AvetConfig) -> (v: Vec<&'static str>)
    ensures
        v@.len() == ignored_words(*a).len(),
        forall|i: int| 0 <= i < v@.len() ==> (#[trigger] v@[i])@ == ignored_words(*a)[i],
{
    let mut v: Vec<&'static str> = Vec::new();
    if a.dv {
        v.push("dv");
    }
    if a.crop {
        v.push("crop");
    }
    if a.keyint {
        v.push("keyint");
    }
    if a.scale.is_some() {
        v.push("scale");
    }
    if a.bit_depth.is_some() {
        v.push("bit_depth");
    }
    v
}

// ---------------------------------------------------------------------------
// Dynamic HDR
// ---------------------------------------------------------------------------
/// Which dynamic metadata an encode carries.
#[derive(Clone, Copy, Debug, PartialEq, Eq, Structural)]
pub struct HdrPlan {
    /// The RPU of Dolby Vision is read from the source.
    pub dv: bool,
    pub dynamic_hdr: DynamicHdr,
    /// HDR10+ is read from the bitstream in place of what the decoder gives.
    pub from_bitstream: bool,
}

/// Profile 5 has IPT-PQ-C2 for a base layer, an image only once the RPU is applied.
pub open spec fn ipt_base_layer(hdr: HdrInfo) -> bool {
    hdr.dv_profile == Some(5u32)
}

/// What is carried: the RPU from HEVC alone, as that is all the decoder hands out, and only
/// what the source has.
pub open spec fn hdr_planned(hdr: HdrInfo, dv_wanted: bool) -> Result<HdrPlan, JobError> {
    let hevc = hdr.codec_name@ == "hevc"@;
    let dv = dv_wanted && hevc;
    if ipt_base_layer(hdr) && !dv {
        Err(JobError::NoBaseLayer(hdr.dv_profile))
    } else {
        Ok(
            HdrPlan {
                dv,
                dynamic_hdr: DynamicHdr {
                    hdr10plus: hdr.hdr10plus,
                    dolby_vision: dv && hdr.hdr_type@ == "Dolby Vision"@,
                },
                from_bitstream: hdr.hdr10plus && hevc,
            },
        )
    }
}

pub fn plan_hdr(hdr: &HdrInfo, dv_wanted: bool) -> (r: Result<HdrPlan, JobError>)
    ensures
        r == hdr_planned(*hdr, dv_wanted),
{
    let hevc = same(hdr.codec_name.as_str(), "hevc");
    let dv = dv_wanted && hevc;
    if hdr.dv_profile == Some(5u32) && !dv {
        return Err(JobError::NoBaseLayer(hdr.dv_profile));
    }
    let dolby_vision = dv && same(hdr.hdr_type.as_str(), "Dolby Vision");
    Ok(
        HdrPlan {
            dv,
            dynamic_hdr: DynamicHdr { hdr10plus: hdr.hdr10plus, dolby_vision },
            from_bitstream: hdr.hdr10plus && hevc,
        },
    )
}

// ---------------------------------------------------------------------------
// Resuming
// ---------------------------------------------------------------------------
/// Whether a chunk is done: recorded, and its file has the recorded size.
pub open spec fn chunk_done(state: Map<Seq<char>, ChunkInfo>, s: SceneEntry, size: Option<u64>) -> bool {
    let key = five_digits((s.index + 1) as nat);
    state.dom().contains(key) && state[key].size_bytes > 0 && size == Some(state[key].size_bytes)
}

/// The chunks among the first `n` that are still to be encoded.
pub open spec fn chunks_left(
    state: Map<Seq<char>, ChunkInfo>,
    scenes: Seq<SceneEntry>,
    sizes: Seq<Option<u64>>,
    n: nat,
) -> Seq<SceneEntry>
    decreases n,
{
    if n == 0 {
        Seq::empty()
    } else {
        let before = chunks_left(state, scenes, sizes, (n - 1) as nat);
        if chunk_done(state, scenes[n - 1], sizes[n - 1]) {
            before
        } else {
            before.push(scenes[n - 1])
        }
    }
}

/// What an earlier run left to do.
#[derive(Debug)]
pub struct Remaining {
    pub pending: Vec<SceneEntry>,
    pub completed_chunks: usize,
    pub completed_frames: u64,
}

/// Tells the chunks that are done from those that are not. `sizes` holds the size of each
/// chunk's file, where there is one.
pub fn remaining_chunks(done: &DoneFile, scenes: &[SceneEntry], sizes: &[Option<u64>]) -> (r:
    Remaining)
    requires
        sizes@.len() == scenes@.len(),
        forall|i: int|
            0 <= i < scenes@.len() ==> (#[trigger] scenes@[i]).start_frame <= scenes@[i].end_frame
                && scenes@[i].index < usize::MAX,
        sum_frames(scenes@) <= u64::MAX,
    ensures
        r.pending@ == chunks_left(done.state@, scenes@, sizes@, scenes@.len()),
        r.completed_chunks + r.pending@.len() == scenes@.len(),
        r.completed_frames + sum_frames(r.pending@) == sum_frames(scenes@),
{
    let mut pending: Vec<SceneEntry> = Vec::new();
    let mut completed_chunks: usize = 0;
    let mut completed_frames: u64 = 0;
    let mut i: usize = 0;
    assert(scenes@.subrange(0, 0) =~= Seq::empty());
    while i < scenes.len()
        invariant
            i <= scenes@.len(),
            sizes@.len() == scenes@.len(),
            forall|i: int|
                0 <= i < scenes@.len() ==> (#[trigger] scenes@[i]).start_frame
                    <= scenes@[i].end_frame && scenes@[i].index < usize::MAX,
            sum_frames(scenes@) <= u64::MAX,
            pending@ == chunks_left(done.state@, scenes@, sizes@, i as nat),
            completed_chunks + pending@.len() == i,
            completed_frames + sum_frames(pending@) == sum_frames(scenes@.subrange(0, i as int)),
            0 <= sum_frames(pending@),
        decreases scenes@.len() - i,
    {
        let ghost before = pending@;
        proof {
            let now = scenes@.subrange(0, i + 1);
            assert(now.drop_last() =~= scenes@.subrange(0, i as int));
            lemma_sum_grows(scenes@, i + 1);
            assert(scenes@[i as int].start_frame <= scenes@[i as int].end_frame);
        }
        let scene = scenes[i];
        let key = scene.padded_index();
        if done.is_done(key.as_str(), sizes[i]) {
            completed_chunks = completed_chunks + 1;
            completed_frames = completed_frames + scene.frame_count();
        } else {
            pending.push(scene);
            assert(pending@.drop_last() =~= before);
        }
        i = i + 1;
    }
    assert(scenes@.subrange(0, i as int) =~= scenes@);
    Remaining { pending, completed_chunks, completed_frames }
}

/// Once its record and its file are in place, a chunk is not encoded again, and no other chunk
/// is touched by that.
pub proof fn law_finished_chunks_are_not_left(
    state: Map<Seq<char>, ChunkInfo>,
    s: SceneEntry,
    info: ChunkInfo,
    other: SceneEntry,
    other_size: Option<u64>,
)
    requires
        info.size_bytes > 0,
        other.index != s.index,
    ensures
        chunk_done(
            state.insert(five_digits((s.index + 1) as nat), info),
            s,
            Some(info.size_bytes),
        ),
        chunk_done(
            state.insert(five_digits((s.index + 1) as nat), info),
            other,
            other_size,
        ) == chunk_done(state, other, other_size),
{
    if five_digits((s.index + 1) as nat) == five_digits((other.index + 1) as nat) {
        crate::resume::law_chunk_keys_differ((s.index + 1) as nat, (other.index + 1) as nat);
    }
}

// ---------------------------------------------------------------------------
// What the muxer is told
// ---------------------------------------------------------------------------
/// The options of mkvmerge for an encoded video: its colors, its offset unless a file of
/// timestamps carries it, its aspect ratio and its rotation.
pub open spec fn mux_options(
    merged_args: Seq<Seq<char>>,
    printed: Option<MasteringView>,
    chroma_center: bool,
    timestamps: bool,
    source: SourceVideo,
    width: u32,
    height: u32,
) -> Seq<Seq<char>> {
    color_options(merged_args, 0, printed) + (if chroma_center {
        seq!["--chroma-siting"@, "0:2,2"@]
    } else {
        Seq::empty()
    }) + (if !timestamps && source.offset_ms != 0 {
        seq!["--sync"@, "0:"@ + signed_decimal(source.offset_ms as int)]
    } else {
        Seq::empty()
    }) + aspect_option(source.sar, width, height) + roll_option(source.rotation)
}

fn id_and_time(id: u64, ms: i64) -> (s: String)
    ensures
        s@ == decimal(id as nat) + ":"@ + signed_decimal(ms as int),
{
    let mut s = String::new();
    push_decimal(&mut s, id);
    s.append(":");
    push_signed(&mut s, ms);
    assert(s@ =~= decimal(id as nat) + ":"@ + signed_decimal(ms as int));
    s
}

pub fn mux_video_args(
    merged_args: &[String],
    printed: Option<&MasteringDisplay>,
    chroma_center: bool,
    timestamps: bool,
    source: &SourceVideo,
    width: u32,
    height: u32,
) -> (args: Vec<String>)
    ensures
        strings(args@) == mux_options(
            strings(merged_args@),
            mastering_view(printed),
            chroma_center,
            timestamps,
            *source,
            width,
            height,
        ),
{
    let mut args = mkvmerge_colour_args(merged_args, 0, printed);
    let ghost colors = strings(args@);
    if chroma_center {
        push_two(&mut args, "--chroma-siting", "0:2,2".to_owned());
    }
    let ghost siting = strings(args@);
    if !timestamps && source.offset_ms != 0 {
        let mut v = "0:".to_owned();
        push_signed(&mut v, source.offset_ms);
        push_two(&mut args, "--sync", v);
    }
    let ghost synced = strings(args@);
    let mut shown = source.display_args(width, height);
    let ghost tail = strings(shown@);
    args.append(&mut shown);
    assert(strings(args@) =~= synced + tail);
    assert(strings(args@) =~= mux_options(
        strings(merged_args@),
        mastering_view(printed),
        chroma_center,
        timestamps,
        *source,
        width,
        height,
    ));
    args
}

/// The nearest whole number of milliseconds, the one farther from zero where two are as near.
pub open spec fn nearest_ms(us: int) -> int {
    if us >= 0 {
        (us + 500) / 1000
    } else {
        -((500 - us) / 1000)
    }
}

/// The times of a packet in microseconds, as far as it has them.
#[derive(Clone, Copy, Debug, PartialEq, Eq, Structural)]
pub struct PacketTimes {
    pub pts: Option<i64>,
    pub dts: Option<i64>,
}

/// The earliest of some times.
pub open spec fn earliest(times: Seq<Option<i64>>) -> Option<i64>
    decreases times.len(),
{
    if times.len() == 0 {
        None
    } else {
        match (earliest(times.drop_last()), times.last()) {
            (Some(a), Some(b)) => Some(
                if a <= b {
                    a
                } else {
                    b
                },
            ),
            (Some(a), None) => Some(a),
            (None, b) => b,
        }
    }
}

pub open spec fn pts_of(packets: Seq<PacketTimes>) -> Seq<Option<i64>> {
    Seq::new(packets.len(), |i: int| packets[i].pts)
}

pub open spec fn dts_of(packets: Seq<PacketTimes>) -> Seq<Option<i64>> {
    Seq::new(packets.len(), |i: int| packets[i].dts)
}

/// When the video starts, going by its first packets: by presentation time where each of
/// them has one, else by decode time.
pub open spec fn first_time(packets: Seq<PacketTimes>) -> Option<i64> {
    if forall|i: int| 0 <= i < packets.len() ==> (#[trigger] packets[i]).pts is Some {
        earliest(pts_of(packets))
    } else {
        earliest(dts_of(packets))
    }
}

fn earlier_of(a: Option<i64>, b: Option<i64>) -> (r: Option<i64>)
    ensures
        r == match (a, b) {
            (Some(a), Some(b)) => Some(
                if a <= b {
                    a
                } else {
                    b
                },
            ),
            (Some(a), None) => Some(a),
            (None, b) => b,
        },
{
    match (a, b) {
        (Some(x), Some(y)) => Some(
            if x <= y {
                x
            } else {
                y
            },
        ),
        (Some(x), None) => Some(x),
        (None, y) => y,
    }
}

/// When the video starts, in microseconds, going by its first packets.
pub fn first_video_time(packets: &[PacketTimes]) -> (r: Option<i64>)
    ensures
        r == first_time(packets@),
{
    let mut shown: Option<i64> = None;
    let mut decoded: Option<i64> = None;
    let mut all: bool = true;
    let mut i: usize = 0;
    assert(pts_of(packets@).subrange(0, 0) =~= Seq::empty());
    assert(dts_of(packets@).subrange(0, 0) =~= Seq::empty());
    while i < packets.len()
        invariant
            i <= packets@.len(),
            shown == earliest(pts_of(packets@).subrange(0, i as int)),
            decoded == earliest(dts_of(packets@).subrange(0, i as int)),
            all == forall|k: int| 0 <= k < i ==> (#[trigger] packets@[k]).pts is Some,
        decreases packets@.len() - i,
    {
        proof {
            let (p, d) = (pts_of(packets@), dts_of(packets@));
            assert(p.subrange(0, i + 1).drop_last() =~= p.subrange(0, i as int));
            assert(d.subrange(0, i + 1).drop_last() =~= d.subrange(0, i as int));
        }
        let packet = packets[i];
        if packet.pts.is_none() {
            all = false;
            assert(packets@[i as int].pts is None);
        }
        shown = earlier_of(shown, packet.pts);
        decoded = earlier_of(decoded, packet.dts);
        i = i + 1;
    }
    assert(pts_of(packets@).subrange(0, i as int) =~= pts_of(packets@));
    assert(dts_of(packets@).subrange(0, i as int) =~= dts_of(packets@));
    if all {
        shown
    } else {
        decoded
    }
}

/// How far the rest has to move back for a video to start in front of it.
pub open spec fn lead_of(first: i64, start: i64) -> int {
    if first - start < 0 {
        start - first
    } else {
        0
    }
}

fn to_nearest_ms(us: i128) -> (ms: i64)
    requires
        -0x10_0000_0000_0000_0000 < us < 0x10_0000_0000_0000_0000,
    ensures
        ms == nearest_ms(us as int),
{
    if us >= 0 {
        ((us + 500) / 1000) as i64
    } else {
        -(((500 - us) / 1000) as i64)
    }
}

/// How far a copied video and the rest have to move, in milliseconds, for the video to start
/// where it did: `first` in a source that starts at `start`, now at `actual`. All three are
/// in microseconds. Frames that the source skips still play from a copy, so that it can
/// start in front of the rest.
pub fn copy_shift(first: i64, start: i64, actual: i64) -> (r: (i64, i64))
    ensures
        r.0 == nearest_ms(first - start + lead_of(first, start) - actual),
        r.1 == nearest_ms(lead_of(first, start)),
{
    let expected: i128 = first as i128 - start as i128;
    let lead: i128 = if expected < 0 {
        -expected
    } else {
        0
    };
    (to_nearest_ms(expected + lead - actual as i128), to_nearest_ms(lead))
}

/// After it was moved, a copied video is within a millisecond of where it was against the
/// rest.
pub proof fn law_moved_copy_is_in_time(first: i64, start: i64, actual: i64)
    ensures
        ({
            let video = nearest_ms(first - start + lead_of(first, start) - actual);
            let others = nearest_ms(lead_of(first, start));
            -1000 <= (actual + 1000 * video) - 1000 * others - (first - start) <= 1000
        }),
{
}

/// Whether a copied video has to be moved: by more than a millisecond, or others with it.
pub fn needs_realign(video_ms: i64, others_ms: i64) -> (r: bool)
    ensures
        r == (video_ms < -1 || video_ms > 1 || others_ms != 0),
{
    video_ms < -1 || video_ms > 1 || others_ms != 0
}

/// The number of tracks in front that are video.
pub open spec fn leading_videos(types: Seq<Seq<char>>) -> nat
    decreases types.len(),
{
    if types.len() > 0 && types[0] == "video"@ {
        1 + leading_videos(types.drop_first())
    } else {
        0
    }
}

/// The time that track `id` is moved by: the extracted tracks behind the video by one
/// amount, all others by another.
pub open spec fn track_shift(id: int, videos: int, extracted: int, video_ms: i64, others_ms: i64) -> i64 {
    if videos <= id < videos + extracted {
        others_ms
    } else {
        video_ms
    }
}

/// The options that move the first `n` tracks.
pub open spec fn shift_options(
    n: nat,
    videos: int,
    extracted: int,
    video_ms: i64,
    others_ms: i64,
) -> Seq<Seq<char>>
    decreases n,
{
    if n == 0 {
        Seq::empty()
    } else {
        shift_options((n - 1) as nat, videos, extracted, video_ms, others_ms) + seq![
            "--sync"@,
            decimal((n - 1) as nat) + ":"@ + signed_decimal(
                track_shift(n - 1, videos, extracted, video_ms, others_ms) as int,
            ),
        ]
    }
}

/// The options of mkvmerge that bring a copied video back onto the time of the extracted
/// tracks, and the chapters with them.
pub fn realign_args(
    types: &[String],
    extracted: usize,
    video_ms: i64,
    others_ms: i64,
    chapters: bool,
) -> (args: Vec<String>)
    ensures
        strings(args@) == shift_options(
            types@.len(),
            leading_videos(strings(types@)) as int,
            extracted as int,
            video_ms,
            others_ms,
        ) + (if others_ms != 0 && chapters {
            seq!["--chapter-sync"@, signed_decimal(others_ms as int)]
        } else {
            Seq::empty()
        }),
{
    let ghost views = strings(types@);
    let len: usize = types.len();
    let mut videos: usize = 0;
    assert(views.subrange(0, len as int) =~= views);
    while videos < len && same(types[videos].as_str(), "video")
        invariant
            videos <= len,
            len == types@.len(),
            views == strings(types@),
            leading_videos(views) == videos + leading_videos(
                views.subrange(videos as int, len as int),
            ),
        decreases len - videos,
    {
        proof {
            let rest = views.subrange(videos as int, len as int);
            assert(rest[0] == types@[videos as int]@);
            assert(rest.drop_first() =~= views.subrange(videos + 1, len as int));
        }
        videos = videos + 1;
    }
    proof {
        let rest = views.subrange(videos as int, len as int);
        if videos < len {
            assert(rest[0] == types@[videos as int]@);
        }
        assert(leading_videos(views) == videos);
    }
    let mut args: Vec<String> = Vec::new();
    let mut id: usize = 0;
    assert(strings(args@) =~= Seq::empty());
    while id < len
        invariant
            id <= len,
            len == types@.len(),
            videos <= len,
            strings(args@) == shift_options(
                id as nat,
                videos as int,
                extracted as int,
                video_ms,
                others_ms,
            ),
        decreases len - id,
    {
        let ms: i64 = if id >= videos && id - videos < extracted {
            others_ms
        } else {
            video_ms
        };
        push_two(&mut args, "--sync", id_and_time(id as u64, ms));
        id = id + 1;
    }
    if others_ms != 0 && chapters {
        let mut v = String::new();
        push_signed(&mut v, others_ms);
        assert(v@ =~= signed_decimal(others_ms as int));
        push_two(&mut args, "--chapter-sync", v);
    } else {
        assert(strings(args@) =~= strings(args@) + Seq::<Seq<char>>::empty());
    }
    args
}

/// Whether the video has to be copied to Matroska before anything counts its frames: AVI with
/// B-frames has decode times alone. `b_frames` is what ffprobe says of the video stream, if
/// there is one.
pub fn needs_remux(format_name: &str, b_frames: Option<u32>) -> (r: bool)
    ensures
        r == (format_name@ == "avi"@ && b_frames is Some && b_frames->0 > 0),
{
    match b_frames {
        Some(n) => n > 0 && same(format_name, "avi"),
        None => false,
    }
}

// ---------------------------------------------------------------------------
// Failures
// ---------------------------------------------------------------------------
/// Clears on its own or on the user's next edit: retried, never marked as failed.
#[derive(Clone, Copy, Debug, PartialEq, Eq, Structural)]
pub struct Transient;

impl Transient {
    /// What the log says of it.
    pub fn describe(&self) -> (s: &'static str)
        ensures
            s@ == "retrying on the next scan"@,
    {
        "retrying on the next scan"
    }
}

/// What is behind an error, as far as it decides whether the error passes.
#[derive(Clone, Copy, Debug, PartialEq, Eq, Structural)]
pub enum Cause {
    /// No space is left on the device.
    StorageFull,
    QuotaExceeded,
    /// The other end of a pipe is gone.
    BrokenPipe,
    Other,
}

/// Whether a failure passes: it was marked so, or there was no space to write to.
pub open spec fn passes(marked: bool, causes: Seq<Cause>) -> bool {
    marked || exists|i: int|
        0 <= i < causes.len() && (#[trigger] causes[i] == Cause::StorageFull || causes[i]
            == Cause::QuotaExceeded)
}

/// `marked` tells whether the error or one of its contexts is a `Transient`, `causes` what
/// the errors behind it are.
pub fn is_transient(marked: bool, causes: &[Cause]) -> (r: bool)
    ensures
        r == passes(marked, causes@),
{
    if marked {
        return true;
    }
    let mut i: usize = 0;
    while i < causes.len()
        invariant
            i <= causes@.len(),
            !marked,
            forall|k: int|
                0 <= k < i ==> #[trigger] causes@[k] != Cause::StorageFull && causes@[k]
                    != Cause::QuotaExceeded,
        decreases causes@.len() - i,
    {
        if causes[i] == Cause::StorageFull || causes[i] == Cause::QuotaExceeded {
            return true;
        }
        i = i + 1;
    }
    false
}

/// What becomes of a failed job.
#[derive(Clone, Copy, Debug, PartialEq, Eq, Structural)]
pub enum FailureAction {
    /// The next scan takes it up again.
    Retry,
    /// A marker keeps the video out of the next scans. Without a record of the source, one
    /// is written first, so that the marker locks out this file and not the next one of the
    /// same name.
    Mark { record_source: bool },
}

/// A stop is no verdict on the file, and neither is a source that was replaced or is gone, or
/// a failure that passes.
pub fn failure_action(
    shutting_down: bool,
    source_recorded: bool,
    source_unchanged: bool,
    transient: bool,
) -> (a: FailureAction)
    ensures
        a == if shutting_down || (source_recorded && !source_unchanged) || transient {
            FailureAction::Retry
        } else {
            FailureAction::Mark { record_source: !source_recorded }
        },
        a is Mark <==> !shutting_down && !transient && (source_recorded ==> source_unchanged),
        a is Mark ==> a->record_source == !source_recorded,
{
    if shutting_down || (source_recorded && !source_unchanged) || transient {
        FailureAction::Retry
    } else {
        FailureAction::Mark { record_source: !source_recorded }
    }
}

// ---------------------------------------------------------------------------
// The end of a job
// ---------------------------------------------------------------------------
/// One step between the encoded video and the finished file.
#[derive(Clone, Copy, Debug, PartialEq, Eq, Structural)]
pub enum Step {
    PlanSubtitles,
    ExtractTracks,
    CheckOutputIsFree,
    Mux,
    RealignCopy,
    TrimCodecPrivate,
    RemoveVideo,
    Validate,
    CheckSource,
    MoveOutput,
    ArchiveSource,
    RemoveTemp,
}

/// What follows a step.
#[derive(Clone, Copy, Debug, PartialEq, Eq, Structural)]
pub enum Next {
    Do(Step),
    /// The job fails with the error of the step.
    Fail,
    Finished,
}

/// How a job ends.
#[derive(Clone, Copy, Debug, PartialEq, Eq, Structural)]
pub struct Finalize {
    /// The video is the source's own.
    pub copied: bool,
    /// The muxed video is a temporary file.
    pub remove_video: bool,
    pub keep_temp: bool,
}

/// What follows `step`, by how it went.
pub open spec fn following(f: Finalize, step: Step, ok: bool) -> Next {
    match step {
        Step::TrimCodecPrivate => if f.remove_video {
            Next::Do(Step::RemoveVideo)
        } else {
            Next::Do(Step::Validate)
        },
        Step::RemoveVideo => Next::Do(Step::Validate),
        Step::ArchiveSource => if f.keep_temp {
            Next::Finished
        } else {
            Next::Do(Step::RemoveTemp)
        },
        Step::RemoveTemp => Next::Finished,
        _ => if !ok {
            Next::Fail
        } else {
            match step {
                Step::PlanSubtitles => Next::Do(Step::ExtractTracks),
                Step::ExtractTracks => Next::Do(Step::CheckOutputIsFree),
                Step::CheckOutputIsFree => Next::Do(Step::Mux),
                Step::Mux => if f.copied {
                    Next::Do(Step::RealignCopy)
                } else {
                    Next::Do(Step::TrimCodecPrivate)
                },
                Step::RealignCopy => Next::Do(Step::TrimCodecPrivate),
                Step::Validate => Next::Do(Step::CheckSource),
                Step::CheckSource => Next::Do(Step::MoveOutput),
                _ => Next::Do(Step::ArchiveSource),
            }
        },
    }
}

impl Finalize {
    pub fn first(&self) -> (s: Step)
        ensures
            s == Step::PlanSubtitles,
    {
        Step::PlanSubtitles
    }

    /// What follows `step`. The file is muxed in the temporary directory and moved once it
    /// is whole: the next scan reads a half-written output as done. Behind the move nothing
    /// fails the job any more, as nothing would take it up again.
    pub fn after(&self, step: Step, ok: bool) -> (n: Next)
        ensures
            n == following(*self, step, ok),
    {
        match step {
            Step::TrimCodecPrivate => {
                if self.remove_video {
                    Next::Do(Step::RemoveVideo)
                } else {
                    Next::Do(Step::Validate)
                }
            },
            Step::RemoveVideo => Next::Do(Step::Validate),
            Step::ArchiveSource => {
                if self.keep_temp {
                    Next::Finished
                } else {
                    Next::Do(Step::RemoveTemp)
                }
            },
            Step::RemoveTemp => Next::Finished,
            _ => {
                if !ok {
                    return Next::Fail;
                }
                match step {
                    Step::PlanSubtitles => Next::Do(Step::ExtractTracks),
                    Step::ExtractTracks => Next::Do(Step::CheckOutputIsFree),
                    Step::CheckOutputIsFree => Next::Do(Step::Mux),
                    Step::Mux => {
                        if self.copied {
                            Next::Do(Step::RealignCopy)
                        } else {
                            Next::Do(Step::TrimCodecPrivate)
                        }
                    },
                    Step::RealignCopy => Next::Do(Step::TrimCodecPrivate),
                    Step::Validate => Next::Do(Step::CheckSource),
                    Step::CheckSource => Next::Do(Step::MoveOutput),
                    _ => Next::Do(Step::ArchiveSource),
                }
            },
        }
    }
}

/// The place of a step in the order of steps.
pub open spec fn rank(s: Step) -> int {
    match s {
        Step::PlanSubtitles => 0,
        Step::ExtractTracks => 1,
        Step::CheckOutputIsFree => 2,
        Step::Mux => 3,
        Step::RealignCopy => 4,
        Step::TrimCodecPrivate => 5,
        Step::RemoveVideo => 6,
        Step::Validate => 7,
        Step::CheckSource => 8,
        Step::MoveOutput => 9,
        Step::ArchiveSource => 10,
        Step::RemoveTemp => 11,
    }
}

/// The steps up to here were done one behind the other, each as the one before it asked for.
pub open spec fn history(f: Finalize, steps: Seq<(Step, bool)>) -> bool {
    &&& steps.len() > 0 ==> steps[0].0 == Step::PlanSubtitles
    &&& forall|i: int, j: int|
        #![trigger steps[i], steps[j]]
        0 <= i && j == i + 1 && j < steps.len() ==> following(f, steps[i].0, steps[i].1)
            == Next::Do(steps[j].0)
}

/// However the steps go: each one is done at most once and the job comes to an end; the
/// output is moved into place only once it was validated and the source found unchanged; the
/// source is archived, and the temporary directory removed, only behind that move; and from
/// the move on the job cannot fail.
pub proof fn law_nothing_is_given_up_before_the_output_is_in_place(
    f: Finalize,
    steps: Seq<(Step, bool)>,
    k: int,
)
    requires
        history(f, steps),
        0 <= k < steps.len(),
    ensures
        forall|i: int| 0 <= i < k ==> rank((#[trigger] steps[i]).0) < rank(steps[k].0),
        steps[k].0 == Step::MoveOutput ==> exists|i: int|
            0 <= i < k && #[trigger] steps[i] == (Step::Validate, true),
        steps[k].0 == Step::MoveOutput ==> exists|i: int|
            0 <= i < k && #[trigger] steps[i] == (Step::CheckSource, true),
        steps[k].0 == Step::ArchiveSource || steps[k].0 == Step::RemoveTemp ==> exists|i: int|
            0 <= i < k && #[trigger] steps[i] == (Step::MoveOutput, true),
        rank(steps[k].0) > rank(Step::MoveOutput) ==> following(f, steps[k].0, steps[k].1)
            != Next::Fail,
    decreases k,
{
    if k > 0 {
        law_nothing_is_given_up_before_the_output_is_in_place(f, steps, k - 1);
        let before = steps[k - 1];
        assert(following(f, before.0, before.1) == Next::Do(steps[k].0));
        assert(rank(before.0) < rank(steps[k].0));
        assert forall|i: int| 0 <= i < k implies rank((#[trigger] steps[i]).0) < rank(
            steps[k].0,
        ) by {
            if i < k - 1 {
                assert(rank(steps[i].0) < rank(before.0));
            }
        }
        if steps[k].0 == Step::MoveOutput {
            assert(steps[k - 1] == (Step::CheckSource, true));
            assert(k >= 2);
            assert(following(f, steps[k - 2].0, steps[k - 2].1) == Next::Do(steps[k - 1].0));
            assert(steps[k - 2] == (Step::Validate, true));
        }
        if steps[k].0 == Step::ArchiveSource {
            assert(steps[k - 1] == (Step::MoveOutput, true));
        }
    }
}

/// Whether the place of the output is free. An empty file is a leftover, not a result.
pub fn output_is_free(existing: Option<u64>) -> (r: bool)
    ensures
        r == (existing is None || existing == Some(0u64)),
{
    match existing {
        Some(size) => size == 0,
        None => true,
    }
}

// ---------------------------------------------------------------------------
// A file that is still being written
// ---------------------------------------------------------------------------
/// What has to hold still for a copy to be done: the size, and the time of the last change
/// in nanoseconds. A missing file has no size.
#[derive(Clone, Copy, Debug, PartialEq, Eq, Structural)]
pub struct FileState {
    pub size: u64,
    pub modified: Option<i128>,
}

/// What a look at the file came to.
#[derive(Clone, Copy, Debug, PartialEq, Eq, Structural)]
pub enum WaitStep {
    /// Empty or gone: another scan may find it again.
    Missing,
    Stable,
    Wait,
    /// The time for waiting is over.
    StillGrowing,
}

/// The last look at a file, and how many looks in a row before it saw the same.
#[derive(Clone, Copy, Debug, PartialEq, Eq, Structural)]
pub struct StableWait {
    pub state: FileState,
    pub unchanged: u32,
}

pub open spec fn looked(w: StableWait, next: FileState) -> StableWait {
    StableWait {
        state: next,
        unchanged: if next == w.state {
            (w.unchanged + 1) as u32
        } else {
            0
        },
    }
}

pub open spec fn verdict_of(w: StableWait, next: FileState, past_deadline: bool) -> WaitStep {
    if next.size == 0 {
        WaitStep::Missing
    } else if looked(w, next).unchanged >= 2 {
        WaitStep::Stable
    } else if past_deadline {
        WaitStep::StillGrowing
    } else {
        WaitStep::Wait
    }
}

impl StableWait {
    /// The first look; None for an empty or missing file.
    pub fn start(first: FileState) -> (w: Option<StableWait>)
        ensures
            w == if first.size == 0 {
                None
            } else {
                Some(StableWait { state: first, unchanged: 0 })
            },
    {
        if first.size == 0 {
            None
        } else {
            Some(StableWait { state: first, unchanged: 0 })
        }
    }

    /// Another look. Two in a row have to see the same: a delta pass and a stalled download
    /// both hold the size still for longer than a single interval.
    pub fn look(&mut self, next: FileState, past_deadline: bool) -> (s: WaitStep)
        requires
            old(self).unchanged < 2,
        ensures
            s == verdict_of(*old(self), next, past_deadline),
            s == WaitStep::Wait ==> *final(self) == looked(*old(self), next),
            s == WaitStep::Wait ==> final(self).unchanged < 2,
            s != WaitStep::Wait ==> *final(self) == *old(self),
    {
        if next.size == 0 {
            return WaitStep::Missing;
        }
        let unchanged: u32 = if next == self.state {
            self.unchanged + 1
        } else {
            0
        };
        if unchanged >= 2 {
            return WaitStep::Stable;
        }
        if past_deadline {
            return WaitStep::StillGrowing;
        }
        self.state = next;
        self.unchanged = unchanged;
        WaitStep::Wait
    }
}

/// What is known after these looks, all of them answered with waiting.
pub open spec fn waiting(w: StableWait, looks: Seq<FileState>) -> bool {
    &&& looks.len() > w.unchanged
    &&& forall|i: int| 0 <= i < looks.len() ==> (#[trigger] looks[i]).size > 0
    &&& forall|i: int|
        looks.len() - 1 - w.unchanged <= i < looks.len() ==> #[trigger] looks[i] == w.state
}

/// A file is taken for finished only after three looks in a row that saw the same state of a
/// file with something in it.
pub proof fn law_stable_means_three_equal_looks(
    w: StableWait,
    looks: Seq<FileState>,
    next: FileState,
    past_deadline: bool,
)
    requires
        waiting(w, looks),
        w.unchanged < 2,
    ensures
        verdict_of(w, next, past_deadline) == WaitStep::Stable ==> looks.len() >= 2 && next.size
            > 0 && looks[looks.len() - 1] == next && looks[looks.len() - 2] == next,
        verdict_of(w, next, past_deadline) == WaitStep::Wait ==> waiting(
            looked(w, next),
            looks.push(next),
        ),
{
    let n = looks.len() as int;
    assert(looks[n - 1] == w.state);
    if w.unchanged >= 1 {
        assert(looks[n - 2] == w.state);
    }
    if verdict_of(w, next, past_deadline) == WaitStep::Wait {
        let now = looked(w, next);
        let all = looks.push(next);
        assert forall|i: int|
            all.len() - 1 - now.unchanged <= i < all.len() implies #[trigger] all[i]
            == now.state by {
            if i < n {
                assert(looks[i] == w.state);
            }
        }
    }
}

// ---------------------------------------------------------------------------
// Names and folders
// ---------------------------------------------------------------------------
/// The name itself for 1, else with the number in front of the extension.
pub open spec fn numbered_name(stem: Seq<char>, ext: Seq<char>, n: nat) -> Seq<char> {
    if n <= 1 {
        stem + ext
    } else {
        stem + "."@ + decimal(n) + ext
    }
}

/// The first number from `n` to 1000 whose name is free.
pub open spec fn first_free(
    taken: Seq<Seq<char>>,
    stem: Seq<char>,
    ext: Seq<char>,
    n: nat,
) -> Option<nat>
    decreases 1001 - n,
{
    if n > 1000 {
        None
    } else if !taken.contains(numbered_name(stem, ext, n)) {
        Some(n)
    } else {
        first_free(taken, stem, ext, n + 1)
    }
}

/// The name if it is free, else the same name with a `.2`, `.3`, ... before the extension:
/// never over an existing file. `ext` has its dot.
pub fn free_path(taken: &[String], stem: &str, ext: &str) -> (r: Option<String>)
    ensures
        match r {
            Some(name) => {
                &&& first_free(strings(taken@), stem@, ext@, 1) is Some
                &&& name@ == numbered_name(
                    stem@,
                    ext@,
                    first_free(strings(taken@), stem@, ext@, 1)->0,
                )
                &&& !strings(taken@).contains(name@)
            },
            None => first_free(strings(taken@), stem@, ext@, 1) is None,
        },
{
    let mut n: u64 = 1;
    while n <= 1000
        invariant
            1 <= n <= 1001,
            first_free(strings(taken@), stem@, ext@, n as nat) == first_free(
                strings(taken@),
                stem@,
                ext@,
                1,
            ),
        decreases 1001 - n,
    {
        let mut name = stem.to_owned();
        if n > 1 {
            name.append(".");
            push_decimal(&mut name, n);
        }
        name.append(ext);
        assert(name@ =~= numbered_name(stem@, ext@, n as nat));
        if !listed(taken, name.as_str()) {
            return Some(name);
        }
        n = n + 1;
    }
    None
}

/// Folder `n` levels below a profile.
pub open spec fn folder_below(profile: Seq<char>, rel: Seq<Seq<char>>, n: nat) -> Seq<char>
    decreases n,
{
    if n == 0 {
        profile
    } else {
        joined_path(folder_below(profile, rel, (n - 1) as nat), rel[n - 1])
    }
}

/// Names that lead further down: none is empty or absolute.
pub open spec fn plain_names(rel: Seq<Seq<char>>) -> bool {
    forall|i: int| 0 <= i < rel.len() ==> (#[trigger] rel[i]).len() > 0 && !is_absolute(rel[i])
}

proof fn lemma_folder_below(profile: Seq<char>, rel: Seq<Seq<char>>, n: nat)
    requires
        plain_names(rel),
        n <= rel.len(),
    ensures
        folder_below(profile, rel, n).len() >= profile.len() + n,
    decreases n,
{
    if n > 0 {
        lemma_folder_below(profile, rel, (n - 1) as nat);
        assert(rel[n - 1].len() > 0);
    }
}

/// The folders that may be empty once a source is gone, the innermost first. `rel` is the
/// way from the profile to the source's folder; the profile itself is not among them.
pub fn emptied_dirs(profile: &str, rel: &[String]) -> (dirs: Vec<String>)
    ensures
        dirs@.len() == rel@.len(),
        forall|i: int|
            0 <= i < dirs@.len() ==> (#[trigger] dirs@[i])@ == folder_below(
                profile@,
                strings(rel@),
                (rel@.len() - i) as nat,
            ),
        plain_names(strings(rel@)) ==> forall|i: int|
            0 <= i < dirs@.len() ==> (#[trigger] dirs@[i])@ != profile@,
{
    let ghost ways = strings(rel@);
    let mut down: Vec<String> = Vec::new();
    let mut path = profile.to_owned();
    let mut i: usize = 0;
    while i < rel.len()
        invariant
            i <= rel@.len(),
            ways == strings(rel@),
            down@.len() == i,
            path@ == folder_below(profile@, ways, i as nat),
            forall|k: int|
                0 <= k < i ==> (#[trigger] down@[k])@ == folder_below(
                    profile@,
                    ways,
                    (k + 1) as nat,
                ),
        decreases rel@.len() - i,
    {
        path = join_path(path.as_str(), rel[i].as_str());
        down.push(path.clone());
        i = i + 1;
    }
    let mut dirs: Vec<String> = Vec::new();
    let mut k: usize = down.len();
    while k > 0
        invariant
            k <= down@.len() == rel@.len(),
            ways == strings(rel@),
            dirs@.len() == down@.len() - k,
            forall|j: int|
                0 <= j < down@.len() ==> (#[trigger] down@[j])@ == folder_below(
                    profile@,
                    ways,
                    (j + 1) as nat,
                ),
            forall|j: int|
                0 <= j < dirs@.len() ==> (#[trigger] dirs@[j])@ == folder_below(
                    profile@,
                    ways,
                    (rel@.len() - j) as nat,
                ),
        decreases k,
    {
        k = k - 1;
        dirs.push(down[k].clone());
    }
    proof {
        if plain_names(ways) {
            assert forall|j: int| 0 <= j < dirs@.len() implies (#[trigger] dirs@[j])@
                != profile@ by {
                lemma_folder_below(profile@, ways, (rel@.len() - j) as nat);
            }
        }
    }
    dirs
}

/// Whether a file is what a probe left behind: an encode, a score or a banding measurement.
pub fn is_probe_leftover(name: &str) -> (r: bool)
    ensures
        r == (has_prefix(name@, "probe_"@) || has_prefix(name@, "cvvdp_"@) || has_prefix(
            name@,
            "cambi_"@,
        )),
{
    let chars = to_chars(name);
    starts_with(chars.as_slice(), "probe_") || starts_with(chars.as_slice(), "cvvdp_")
        || starts_with(chars.as_slice(), "cambi_")
}

// ---------------------------------------------------------------------------
// Frame times
// ---------------------------------------------------------------------------
/// The distance between two keyframes: about five seconds, to the nearest frame and at least
/// one.
pub open spec fn five_seconds(fps_num: u32, fps_den: u32) -> int {
    let frames = (10 * fps_num + fps_den) / (2 * fps_den as int);
    if frames < 1 {
        1
    } else if frames > u32::MAX {
        u32::MAX as int
    } else {
        frames
    }
}

pub fn auto_keyint(fps_num: u32, fps_den: u32) -> (n: u32)
    requires
        fps_den > 0,
    ensures
        n == five_seconds(fps_num, fps_den),
{
    let frames: u64 = (10 * fps_num as u64 + fps_den as u64) / (2 * fps_den as u64);
    if frames < 1 {
        1
    } else if frames > 0xffff_ffff {
        0xffff_ffff
    } else {
        frames as u32
    }
}

/// Times in microseconds that are close enough to zero to be subtracted and written.
pub open spec fn times_ok(ts: Seq<i64>) -> bool {
    forall|i: int|
        0 <= i < ts.len() ==> -0x1000_0000_0000_0000 <= (#[trigger] ts[i])
            <= 0x1000_0000_0000_0000
}

/// Times from the first one on.
pub open spec fn rebased(ts: Seq<i64>) -> Seq<i64> {
    Seq::new(ts.len(), |i: int| (ts[i] - ts[0]) as i64)
}

/// Whether a frame comes within half a frame of where a constant rate has it.
pub open spec fn near_rate(t: int, i: int, fps_num: u32, fps_den: u32) -> bool {
    let off = t * fps_num - i * (1000000 * fps_den);
    -(1000000 * fps_den) <= 2 * off <= 1000000 * fps_den
}

/// Whether every frame does.
pub open spec fn constant_rate(ts: Seq<i64>, fps_num: u32, fps_den: u32) -> bool {
    forall|i: int|
        0 <= i < ts.len() ==> near_rate(#[trigger] ts[i] - ts[0], i, fps_num, fps_den)
}

pub open spec fn increasing(ts: Seq<i64>) -> bool {
    forall|i: int, j: int|
        #![trigger ts[i], ts[j]]
        0 <= i && j == i + 1 && j < ts.len() ==> ts[i] < ts[j]
}

fn is_near_rate(t: i64, i: usize, fps_num: u32, fps_den: u32) -> (r: bool)
    ensures
        r == near_rate(t as int, i as int, fps_num, fps_den),
{
    proof {
        assert(-0x8000_0000_0000_0000 * 0xffff_ffff <= t * fps_num <= 0x8000_0000_0000_0000
            * 0xffff_ffff) by (nonlinear_arith)
            requires
                -0x8000_0000_0000_0000 <= t <= 0x7fff_ffff_ffff_ffff,
                0 <= fps_num <= 0xffff_ffff,
        ;
        assert(0 <= i * (1000000 * fps_den) <= 0xffff_ffff_ffff_ffff * (1000000 * 0xffff_ffff))
            by (nonlinear_arith)
            requires
                0 <= i <= 0xffff_ffff_ffff_ffff,
                0 <= fps_den <= 0xffff_ffff,
        ;
    }
    let frame: i128 = 1000000 * (fps_den as i128);
    let shown: i128 = (t as i128) * (fps_num as i128);
    let due: i128 = (i as i128) * frame;
    let off: i128 = shown - due;
    -frame <= 2 * off && 2 * off <= frame
}

/// The times of a video with a variable frame rate, from its first frame on. None while every
/// frame is within half a frame of the constant rate, which the encoder keeps by itself, and
/// for times that do not increase, which cannot be kept. Times are in microseconds.
pub fn vfr_timestamps(ts: &[i64], fps_num: u32, fps_den: u32) -> (r: Option<Vec<i64>>)
    requires
        times_ok(ts@),
        fps_num > 0,
    ensures
        match r {
            Some(kept) => {
                &&& kept@ == rebased(ts@)
                &&& !constant_rate(ts@, fps_num, fps_den)
                &&& increasing(ts@)
            },
            None => constant_rate(ts@, fps_num, fps_den) || !increasing(ts@),
        },
{
    let mut kept: Vec<i64> = Vec::new();
    let mut constant = true;
    let mut upward = true;
    let mut i: usize = 0;
    while i < ts.len()
        invariant
            i <= ts@.len(),
            times_ok(ts@),
            kept@.len() == i,
            forall|k: int| 0 <= k < i ==> #[trigger] kept@[k] == ts@[k] - ts@[0],
            constant ==> forall|k: int|
                0 <= k < i ==> near_rate(#[trigger] ts@[k] - ts@[0], k, fps_num, fps_den),
            !constant ==> !constant_rate(ts@, fps_num, fps_den),
            upward ==> forall|k: int, l: int|
                #![trigger ts@[k], ts@[l]]
                0 <= k && l == k + 1 && l < i ==> ts@[k] < ts@[l],
            !upward ==> !increasing(ts@),
        decreases ts@.len() - i,
    {
        assert(ts@[0] <= 0x1000_0000_0000_0000 && ts@[i as int] <= 0x1000_0000_0000_0000);
        let t: i64 = ts[i] - ts[0];
        if !is_near_rate(t, i, fps_num, fps_den) {
            constant = false;
        }
        if i > 0 && ts[i - 1] >= ts[i] {
            assert(ts@[i - 1] >= ts@[i as int]);
            upward = false;
        }
        kept.push(t);
        i = i + 1;
    }
    if constant || !upward {
        return None;
    }
    assert(kept@ =~= rebased(ts@));
    Some(kept)
}

/// A time in milliseconds, with three decimals, from microseconds.
pub open spec fn millis(us: int) -> Seq<char> {
    let n = if us < 0 {
        -us
    } else {
        us
    };
    (if us < 0 {
        "-"@
    } else {
        ""@
    }) + decimal((n / 1000) as nat) + "."@ + (if n % 1000 < 10 {
        "00"@
    } else if n % 1000 < 100 {
        "0"@
    } else {
        ""@
    }) + decimal((n % 1000) as nat)
}

/// The lines of the first `n` times, each moved by an offset.
pub open spec fn time_lines(ts: Seq<i64>, offset_ms: i64, n: nat) -> Seq<char>
    decreases n,
{
    if n == 0 {
        Seq::empty()
    } else {
        time_lines(ts, offset_ms, (n - 1) as nat) + millis(ts[n - 1] + offset_ms * 1000) + "\n"@
    }
}

fn push_millis(s: &mut String, us: i128)
    requires
        -10_000_000_000_000_000_000_000 <= us <= 10_000_000_000_000_000_000_000,
    ensures
        final(s)@ == old(s)@ + millis(us as int),
{
    let ghost start = s@;
    let n: i128 = if us < 0 {
        -us
    } else {
        us
    };
    let whole: i128 = n / 1000;
    let rest: i128 = n % 1000;
    if us < 0 {
        s.append("-");
    } else {
        s.append("");
    }
    push_decimal(s, whole as u64);
    s.append(".");
    if rest < 10 {
        s.append("00");
    } else if rest < 100 {
        s.append("0");
    } else {
        s.append("");
    }
    push_decimal(s, rest as u64);
    assert(s@ =~= start + millis(us as int));
}

/// The file that gives mkvmerge the time of every frame. Times are in microseconds.
pub fn timestamps_text(ts: &[i64], offset_ms: i64) -> (s: String)
    ensures
        s@ == "# timestamp format v2\n"@ + time_lines(ts@, offset_ms, ts@.len()),
{
    let mut s = "# timestamp format v2\n".to_owned();
    let ghost head = s@;
    let mut i: usize = 0;
    assert(s@ =~= head + time_lines(ts@, offset_ms, 0));
    while i < ts.len()
        invariant
            i <= ts@.len(),
            s@ == head + time_lines(ts@, offset_ms, i as nat),
        decreases ts@.len() - i,
    {
        let ghost before = s@;
        push_millis(&mut s, ts[i] as i128 + (offset_ms as i128) * 1000);
        s.append("\n");
        assert(s@ =~= head + time_lines(ts@, offset_ms, (i + 1) as nat));
        i = i + 1;
    }
    s
}

/// Kept times start at zero and increase, so mkvmerge accepts them.
pub proof fn law_kept_times_increase(ts: Seq<i64>)
    requires
        times_ok(ts),
        ts.len() > 0,
        increasing(ts),
    ensures
        rebased(ts)[0] == 0,
        increasing(rebased(ts)),
{
    let kept = rebased(ts);
    assert forall|i: int, j: int|
        #![trigger kept[i], kept[j]]
        0 <= i && j == i + 1 && j < kept.len() implies kept[i] < kept[j] by {
        assert(ts[i] < ts[j]);
        assert(ts[0] <= 0x1000_0000_0000_0000);
    }
}

// ---------------------------------------------------------------------------
// What holds of a job as a whole
// ---------------------------------------------------------------------------
/// A chunk list that covers what was counted keeps its cuts: fitted to a source with as many
/// frames or more, every chunk starts where it did and only the last one ends later.
pub proof fn law_fitting_keeps_every_cut(scenes: Seq<SceneEntry>, counted: int, frames: int)
    requires
        covers(scenes, 0, counted),
        0 < counted <= frames <= u64::MAX,
    ensures
        fitted(scenes, frames) is Ok,
        ({
            let list = fitted(scenes, frames)->Ok_0;
            &&& list.len() == scenes.len()
            &&& forall|i: int|
                0 <= i < scenes.len() ==> (#[trigger] list[i]).start_frame == scenes[i].start_frame
                    && list[i].index == scenes[i].index && (i < scenes.len() - 1
                    ==> list[i].end_frame == scenes[i].end_frame)
            &&& list.last().end_frame + 1 == frames
        }),
{
    law_counted_list_is_fitted(scenes, counted, frames);
    lemma_clamped_same(scenes, frames, counted);
}

/// A chunk is cut off only where the source has no frames: one that starts within the source
/// stays, at its start, and ends where it did or with the source.
pub proof fn law_clamping_cuts_only_past_the_end(scenes: Seq<SceneEntry>, frames: int, i: int)
    requires
        0 <= i < scenes.len(),
        0 <= frames <= u64::MAX,
    ensures
        scenes[i].start_frame < frames ==> exists|k: int|
            0 <= k < clamped(scenes, frames).len() && (
            #[trigger] clamped(scenes, frames)[k]).start_frame == scenes[i].start_frame && clamped(
                scenes,
                frames,
            )[k].index == scenes[i].index && clamped(scenes, frames)[k].end_frame == (
            if scenes[i].end_frame < frames {
                scenes[i].end_frame as int
            } else {
                frames - 1
            }),
        clamped(scenes, frames).len() <= scenes.len(),
    decreases scenes.len(),
{
    let front = scenes.drop_last();
    let before = clamped(front, frames);
    let all = clamped(scenes, frames);
    if front.len() > 0 {
        law_clamping_cuts_only_past_the_end(
            front,
            frames,
            if i < front.len() {
                i
            } else {
                0
            },
        );
    }
    if scenes[i].start_frame < frames {
        if i < front.len() {
            assert(front[i] == scenes[i]);
            let k = choose|k: int|
                0 <= k < before.len() && (#[trigger] before[k]).start_frame == scenes[i].start_frame
                    && before[k].index == scenes[i].index && before[k].end_frame == (
                if scenes[i].end_frame < frames {
                    scenes[i].end_frame as int
                } else {
                    frames - 1
                });
            assert(all[k] == before[k]);
        } else {
            assert(all[before.len() as int].start_frame == scenes[i].start_frame);
        }
    }
}

/// A job takes up where it stopped: what is left are the chunks, in their order, that have no
/// record, an empty one, or a file of another size than the one recorded.
pub proof fn law_only_unfinished_chunks_are_left(
    state: Map<Seq<char>, ChunkInfo>,
    scenes: Seq<SceneEntry>,
    sizes: Seq<Option<u64>>,
    n: nat,
)
    requires
        n <= scenes.len(),
        sizes.len() == scenes.len(),
    ensures
        ({
            let left = chunks_left(state, scenes, sizes, n);
            &&& left.len() <= n
            &&& forall|k: int|
                0 <= k < left.len() ==> exists|i: int|
                    0 <= i < n && #[trigger] scenes[i] == #[trigger] left[k] && !recorded(
                        state,
                        scenes[i].index,
                        sizes[i],
                    )
            &&& forall|i: int|
                0 <= i < n && !recorded(state, (#[trigger] scenes[i]).index, sizes[i])
                    ==> left.contains(scenes[i])
            &&& (forall|i: int|
                0 <= i < n ==> !recorded(state, (#[trigger] scenes[i]).index, sizes[i])) ==> left
                == scenes.take(n as int)
            &&& (forall|i: int|
                0 <= i < n ==> recorded(state, (#[trigger] scenes[i]).index, sizes[i])) ==> left
                == Seq::<SceneEntry>::empty()
        }),
    decreases n,
{
    if n > 0 {
        let m = (n - 1) as nat;
        law_only_unfinished_chunks_are_left(state, scenes, sizes, m);
        let before = chunks_left(state, scenes, sizes, m);
        let left = chunks_left(state, scenes, sizes, n);
        let last = scenes[n - 1];
        assert(chunk_done(state, last, sizes[n - 1]) == recorded(state, last.index, sizes[n - 1]));
        assert forall|k: int| 0 <= k < left.len() implies exists|i: int|
            0 <= i < n && #[trigger] scenes[i] == #[trigger] left[k] && !recorded(
                state,
                scenes[i].index,
                sizes[i],
            ) by {
            if k < before.len() {
                assert(left[k] == before[k]);
            } else {
                assert(scenes[n - 1] == left[k]);
            }
        }
        assert forall|i: int|
            0 <= i < n && !recorded(state, (#[trigger] scenes[i]).index, sizes[i]) implies left.contains(
            scenes[i],
        ) by {
            if i < m {
                let k = choose|k: int| 0 <= k < before.len() && before[k] == scenes[i];
                assert(left[k] == scenes[i]);
            } else {
                assert(left[before.len() as int] == scenes[i]);
            }
        }
        if forall|i: int| 0 <= i < n ==> !recorded(state, (#[trigger] scenes[i]).index, sizes[i]) {
            assert(left =~= scenes.take(n as int));
        }
    } else {
        assert(scenes.take(0) =~= Seq::empty());
    }
}

/// A chunk has a record, and its file is of the size that was recorded, which is not nothing.
pub open spec fn recorded(state: Map<Seq<char>, ChunkInfo>, index: usize, size: Option<u64>) -> bool {
    let key = five_digits((index + 1) as nat);
    state.dom().contains(key) && size is Some && size->0 > 0 && state[key].size_bytes == size->0
}

/// Arguments without the flag stay as they are, and those with it once come out the same
/// whatever its value: profiles that differ in it alone are told apart by nothing.
pub proof fn law_left_out_flag_tells_nothing(
    front: Seq<Seq<char>>,
    flag: Seq<char>,
    value: Seq<char>,
    back: Seq<Seq<char>>,
)
    requires
        forall|i: int| 0 <= i < front.len() ==> #[trigger] front[i] != flag,
        forall|i: int| 0 <= i < back.len() ==> #[trigger] back[i] != flag,
    ensures
        args_without(front + back, flag, 0) == front + back,
        args_without(front + seq![flag, value] + back, flag, 0) == front + back,
{
    let none = front + back;
    let all = front + seq![flag, value] + back;
    assert forall|i: int| 0 <= i < none.len() implies #[trigger] none[i] != flag by {
        if i < front.len() {
            assert(none[i] == front[i]);
        } else {
            assert(none[i] == back[i - front.len()]);
        }
    }
    lemma_args_kept(none, flag, 0, none.len() as int);
    assert(none.subrange(0, none.len() as int) =~= none);
    assert(args_without(none, flag, none.len() as int) =~= Seq::empty());
    assert(args_without(none, flag, 0) =~= none);
    let at = front.len() as int;
    assert forall|i: int| 0 <= i < at implies #[trigger] all[i] != flag by {
        assert(all[i] == front[i]);
    }
    lemma_args_kept(all, flag, 0, at);
    assert(all.subrange(0, at) =~= front);
    assert(all[at] == flag);
    let end = all.len() as int;
    assert forall|i: int| at + 2 <= i < end implies #[trigger] all[i] != flag by {
        assert(all[i] == back[i - at - 2]);
    }
    lemma_args_kept(all, flag, at + 2, end);
    assert(all.subrange(at + 2, end) =~= back);
    assert(args_without(all, flag, end) =~= Seq::empty());
    assert(args_without(all, flag, at) =~= back);
    assert(args_without(all, flag, 0) =~= front + back);
}

proof fn lemma_args_kept(args: Seq<Seq<char>>, flag: Seq<char>, from: int, to: int)
    requires
        0 <= from <= to <= args.len(),
        forall|i: int| from <= i < to ==> #[trigger] args[i] != flag,
    ensures
        args_without(args, flag, from) == args.subrange(from, to) + args_without(args, flag, to),
    decreases to - from,
{
    if from < to {
        lemma_args_kept(args, flag, from + 1, to);
        assert(args[from] != flag);
        assert(args.subrange(from, to) =~= seq![args[from]] + args.subrange(from + 1, to));
        assert(args_without(args, flag, from) =~= args.subrange(from, to) + args_without(
            args,
            flag,
            to,
        ));
    } else {
        assert(args.subrange(from, to) =~= Seq::empty());
        assert(args_without(args, flag, from) =~= args.subrange(from, to) + args_without(
            args,
            flag,
            to,
        ));
    }
}

/// An encode takes the threads that the profile gives it, by the first `lp` where that is a
/// number above zero, and six otherwise.
pub proof fn law_threads_are_those_of_the_profile(params: Seq<(String, ParamValue)>, from: int)
    requires
        0 <= from,
    ensures
        (forall|i: int| from <= i < params.len() ==> (#[trigger] params[i]).0@ != "lp"@)
            ==> threads_of(params, from) == 6,
        forall|i: int|
            from <= i < params.len() && (#[trigger] params[i]).0@ == "lp"@ && (forall|j: int|
                from <= j < i ==> (#[trigger] params[j]).0@ != "lp"@) ==> {
                &&& params[i].1 matches ParamValue::Integer(n) ==> threads_of(params, from) == if 0
                    < n <= usize::MAX {
                    n as int
                } else {
                    6
                }
                &&& params[i].1 matches ParamValue::Bool(_) ==> threads_of(params, from) == 6
            },
    decreases params.len() - from,
{
    if from < params.len() && params[from].0@ != "lp"@ {
        law_threads_are_those_of_the_profile(params, from + 1);
    }
}

/// Nothing is carried that the source does not have or that was not asked for: Dolby Vision
/// from HEVC alone and on demand, HDR10+ wherever it is. A source is refused only where the
/// metadata that its picture needs is not carried.
pub proof fn law_carried_metadata_is_there_and_wanted(hdr: HdrInfo, dv_wanted: bool)
    ensures
        match hdr_planned(hdr, dv_wanted) {
            Ok(plan) => {
                &&& plan.dynamic_hdr.dolby_vision ==> dv_wanted && hdr.codec_name@ == "hevc"@
                    && hdr.hdr_type@ == "Dolby Vision"@
                &&& dv_wanted && hdr.codec_name@ == "hevc"@ && hdr.hdr_type@ == "Dolby Vision"@
                    ==> plan.dynamic_hdr.dolby_vision && plan.dv
                &&& plan.dynamic_hdr.hdr10plus == hdr.hdr10plus
                &&& plan.from_bitstream == (hdr.hdr10plus && hdr.codec_name@ == "hevc"@)
                &&& hdr.dv_profile == Some(5u32) ==> plan.dv
                &&& plan.dv ==> dv_wanted && hdr.codec_name@ == "hevc"@
            },
            Err(e) => e == JobError::NoBaseLayer(Some(5u32)) && hdr.dv_profile == Some(5u32) && (
            !dv_wanted || hdr.codec_name@ != "hevc"@),
        },
{
}

/// The muxer is told all that the encode was: its colors, the siting of the middle where that
/// is the source's, the aspect ratio and the rotation, and the offset unless a file of times
/// has it already.
pub proof fn law_muxer_is_told_how_the_video_is_shown(
    merged_args: Seq<Seq<char>>,
    printed: Option<MasteringView>,
    chroma_center: bool,
    timestamps: bool,
    source: SourceVideo,
    width: u32,
    height: u32,
)
    ensures
        ({
            let out = mux_options(
                merged_args,
                printed,
                chroma_center,
                timestamps,
                source,
                width,
                height,
            );
            &&& forall|option: Seq<char>, value: Seq<char>| #[trigger]
                gives(color_options(merged_args, 0, printed), option, value) ==> gives(
                    out,
                    option,
                    value,
                )
            &&& forall|option: Seq<char>, value: Seq<char>| #[trigger]
                gives(aspect_option(source.sar, width, height), option, value) ==> gives(
                    out,
                    option,
                    value,
                )
            &&& forall|option: Seq<char>, value: Seq<char>| #[trigger]
                gives(roll_option(source.rotation), option, value) ==> gives(out, option, value)
            &&& chroma_center ==> gives(out, "--chroma-siting"@, "0:2,2"@)
            &&& !timestamps && source.offset_ms != 0 ==> gives(
                out,
                "--sync"@,
                "0:"@ + signed_decimal(source.offset_ms as int),
            )
            &&& timestamps || source.offset_ms == 0 ==> out.len() == color_options(
                merged_args,
                0,
                printed,
            ).len() + (if chroma_center {
                2int
            } else {
                0
            }) + aspect_option(source.sar, width, height).len() + roll_option(source.rotation).len()
        }),
{
    let a = color_options(merged_args, 0, printed);
    let b = if chroma_center {
        seq!["--chroma-siting"@, "0:2,2"@]
    } else {
        Seq::empty()
    };
    let c = if !timestamps && source.offset_ms != 0 {
        seq!["--sync"@, "0:"@ + signed_decimal(source.offset_ms as int)]
    } else {
        Seq::empty()
    };
    let d = aspect_option(source.sar, width, height);
    let e = roll_option(source.rotation);
    lemma_gives_joined(a, b);
    lemma_gives_joined(a + b, c);
    lemma_gives_joined(a + b + c, d);
    lemma_gives_joined(a + b + c + d, e);
    lemma_gives_at(b, 0);
    lemma_gives_at(c, 0);
    assert(b.len() > 0 ==> gives(b, b[0], b[1]));
    assert(c.len() > 0 ==> gives(c, c[0], c[1]));
}

/// The earliest of some times is one of them, and none of the others is earlier.
pub proof fn law_earliest_is_before_all(times: Seq<Option<i64>>)
    ensures
        match earliest(times) {
            Some(t) => times.contains(Some(t)) && forall|i: int|
                0 <= i < times.len() && (#[trigger] times[i]) is Some ==> t <= times[i]->0,
            None => forall|i: int| 0 <= i < times.len() ==> (#[trigger] times[i]) is None,
        },
    decreases times.len(),
{
    if times.len() > 0 {
        let front = times.drop_last();
        law_earliest_is_before_all(front);
        assert(forall|i: int| 0 <= i < front.len() ==> #[trigger] times[i] == front[i]);
        if let Some(t) = earliest(times) {
            if times.last() == Some(t) {
                assert(times[times.len() - 1] == Some(t));
            } else {
                let k = choose|k: int| 0 <= k < front.len() && front[k] == Some(t);
                assert(times[k] == Some(t));
            }
        }
    }
}

/// A video starts with the earliest of its packets, by presentation time where all have one
/// and by decode time otherwise.
pub proof fn law_video_starts_with_its_earliest_packet(packets: Seq<PacketTimes>, i: int)
    requires
        0 <= i < packets.len(),
    ensures
        (forall|k: int| 0 <= k < packets.len() ==> (#[trigger] packets[k]).pts is Some)
            ==> first_time(packets) is Some && first_time(packets)->0 <= packets[i].pts->0,
        (exists|k: int| 0 <= k < packets.len() && (#[trigger] packets[k]).pts is None)
            && packets[i].dts is Some ==> first_time(packets) is Some && first_time(packets)->0
            <= packets[i].dts->0,
        first_time(packets) matches Some(t) ==> exists|k: int|
            0 <= k < packets.len() && ((#[trigger] packets[k]).pts == Some(t) || packets[k].dts
                == Some(t)),
{
    let (p, d) = (pts_of(packets), dts_of(packets));
    law_earliest_is_before_all(p);
    law_earliest_is_before_all(d);
    assert(p[i] == packets[i].pts && d[i] == packets[i].dts);
    if let Some(t) = first_time(packets) {
        if p.contains(Some(t)) {
            let k = choose|k: int| 0 <= k < p.len() && p[k] == Some(t);
            assert(packets[k].pts == Some(t));
        }
        if d.contains(Some(t)) {
            let k = choose|k: int| 0 <= k < d.len() && d[k] == Some(t);
            assert(packets[k].dts == Some(t));
        }
    }
}

/// Every track is moved, under its own number: those behind the leading videos, as many as
/// were extracted, with the rest, and all others with the video.
pub proof fn law_each_track_is_moved_by_its_own(
    n: nat,
    videos: int,
    extracted: int,
    video_ms: i64,
    others_ms: i64,
    i: int,
)
    requires
        0 <= i < n,
        0 <= videos,
        0 <= extracted,
    ensures
        ({
            let args = shift_options(n, videos, extracted, video_ms, others_ms);
            &&& args.len() == 2 * n
            &&& args[2 * i] == "--sync"@
            &&& videos <= i < videos + extracted ==> args[2 * i + 1] == decimal(i as nat) + ":"@
                + signed_decimal(others_ms as int)
            &&& i < videos || i >= videos + extracted ==> args[2 * i + 1] == decimal(i as nat)
                + ":"@ + signed_decimal(video_ms as int)
        }),
    decreases n,
{
    lemma_shift_count(n, videos, extracted, video_ms, others_ms);
    let m = (n - 1) as nat;
    lemma_shift_count(m, videos, extracted, video_ms, others_ms);
    if i < m {
        law_each_track_is_moved_by_its_own(m, videos, extracted, video_ms, others_ms, i);
        let front = shift_options(m, videos, extracted, video_ms, others_ms);
        let args = shift_options(n, videos, extracted, video_ms, others_ms);
        assert(args[2 * i] == front[2 * i] && args[2 * i + 1] == front[2 * i + 1]);
    }
}

proof fn lemma_shift_count(n: nat, videos: int, extracted: int, video_ms: i64, others_ms: i64)
    ensures
        shift_options(n, videos, extracted, video_ms, others_ms).len() == 2 * n,
    decreases n,
{
    if n > 0 {
        lemma_shift_count((n - 1) as nat, videos, extracted, video_ms, others_ms);
    }
}

/// The leading videos are the tracks in front of the first one that is none.
pub proof fn law_leading_videos_end_at_the_first_other(types: Seq<Seq<char>>)
    ensures
        leading_videos(types) <= types.len(),
        forall|i: int| 0 <= i < leading_videos(types) ==> #[trigger] types[i] == "video"@,
        leading_videos(types) < types.len() ==> types[leading_videos(types) as int] != "video"@,
    decreases types.len(),
{
    if types.len() > 0 && types[0] == "video"@ {
        let rest = types.drop_first();
        law_leading_videos_end_at_the_first_other(rest);
        assert forall|i: int| 0 <= i < leading_videos(types) implies #[trigger] types[i]
            == "video"@ by {
            if i > 0 {
                assert(types[i] == rest[i - 1]);
            }
        }
        let k = leading_videos(rest) as int;
        assert(k < rest.len() ==> rest[k] == types[k + 1]);
    }
}

/// A name that is found is free, and every one with a smaller number is taken; none is found
/// only where all thousand are.
pub proof fn law_first_free_name_is_found(
    taken: Seq<Seq<char>>,
    stem: Seq<char>,
    ext: Seq<char>,
    n: nat,
)
    ensures
        match first_free(taken, stem, ext, n) {
            Some(k) => n <= k <= 1000 && !taken.contains(numbered_name(stem, ext, k)) && forall|
                j: nat,
            |
                n <= j < k ==> taken.contains(#[trigger] numbered_name(stem, ext, j)),
            None => forall|j: nat|
                n <= j <= 1000 ==> taken.contains(#[trigger] numbered_name(stem, ext, j)),
        },
        numbered_name(stem, ext, 1) == stem + ext,
    decreases 1001 - n,
{
    if n <= 1000 && taken.contains(numbered_name(stem, ext, n)) {
        law_first_free_name_is_found(taken, stem, ext, n + 1);
    }
}

/// Keyframes come five seconds apart, to the nearest frame, where that is one at least.
pub proof fn law_keyframes_are_five_seconds_apart(fps_num: u32, fps_den: u32)
    requires
        fps_den > 0,
    ensures
        five_seconds(fps_num, fps_den) >= 1,
        five_seconds(fps_num, fps_den) == 1 || five_seconds(fps_num, fps_den) == u32::MAX || ({
            let off = 2 * (five_seconds(fps_num, fps_den) * fps_den) - 10 * fps_num;
            -fps_den <= off <= fps_den
        }),
        2 * fps_den <= 10 * fps_num && five_seconds(fps_num, fps_den) == 1 ==> 10 * fps_num <= 3
            * fps_den,
{
    let d = 2 * fps_den as int;
    let v = 10 * fps_num + fps_den;
    vstd::arithmetic::div_mod::lemma_fundamental_div_mod(v as int, d);
    vstd::arithmetic::div_mod::lemma_mod_bound(v as int, d);
    let q = v as int / d;
    assert(d * q == 2 * (q * fps_den)) by (nonlinear_arith)
        requires
            d == 2 * fps_den as int,
    ;
    if q <= 1 {
        assert(d * q <= d) by (nonlinear_arith)
            requires
                q <= 1,
                d > 0,
        ;
    }
}

/// An odd frame size loses its last column or row and no more; a crop that fits the source is
/// what is cut, and the rest of what is encoded starts where it says.
pub proof fn law_source_is_cut_as_detected(src_w: u32, src_h: u32, crop_str: Option<Seq<char>>)
    ensures
        ({
            let c = source_crop(src_w, src_h, crop_str);
            let found = crop_str is Some && crop_of(crop_str->0) is Some;
            let want = crop_of(crop_str->0)->0;
            &&& found && want.w % 2 == 0 && want.h % 2 == 0 && want.x % 2 == 0 && want.y % 2 == 0
                && want.w > 0 && want.h > 0 && want.x + want.w <= src_w && want.y + want.h <= src_h
                ==> c == Some(want)
            &&& !found ==> ({
                let (w, h) = cropped_size(src_w, src_h, c);
                src_w - w == src_w % 2 && src_h - h == src_h % 2 && (c matches Some(c) ==> c.x == 0
                    && c.y == 0)
            })
            &&& cropped_size(src_w, src_h, c).0 <= src_w && cropped_size(src_w, src_h, c).1 <= src_h
        }),
{
}

/// The time of a frame is written exactly: its digits, the point left out, are its
/// microseconds.
pub proof fn law_times_are_written_exactly(us: int)
    requires
        us >= 0,
    ensures
        ({
            let t = millis(us);
            let p = t.len() - 4;
            &&& p >= 1
            &&& t[p] == '.'
            &&& all_digits(t.subrange(0, p)) && all_digits(t.subrange(p + 1, t.len() as int))
            &&& 1000 * digits_value(t.subrange(0, p)) + digits_value(
                t.subrange(p + 1, t.len() as int),
            ) == us
        }),
        millis(-us) == if us > 0 {
            "-"@ + millis(us)
        } else {
            millis(us)
        },
{
    reveal_strlit("");
    reveal_strlit(".");
    reveal_strlit("0");
    reveal_strlit("00");
    let t = millis(us);
    let (q, r) = ((us / 1000) as nat, (us % 1000) as nat);
    law_decimal_round_trip(q, q);
    law_decimal_round_trip(r, r);
    let zeros = if r < 10 {
        "00"@
    } else if r < 100 {
        "0"@
    } else {
        ""@
    };
    let f = zeros + decimal(r);
    lemma_three_digits(r);
    assert(t =~= decimal(q) + "."@ + f);
    let p = decimal(q).len() as int;
    assert(t.subrange(0, p) =~= decimal(q));
    assert(t.subrange(p + 1, t.len() as int) =~= f);
    assert(t[p] == '.');
    if us > 0 {
        assert(millis(-us) =~= "-"@ + millis(us));
    }
}

proof fn lemma_three_digits(r: nat)
    requires
        r < 1000,
    ensures
        ({
            let zeros = if r < 10 {
                "00"@
            } else if r < 100 {
                "0"@
            } else {
                ""@
            };
            let f = zeros + decimal(r);
            f.len() == 3 && all_digits(f) && digits_value(f) == r
        }),
{
    reveal_strlit("");
    reveal_strlit("0");
    reveal_strlit("00");
    reveal_with_fuel(decimal, 4);
    reveal_with_fuel(digits_value, 5);
    law_decimal_round_trip(r, r);
    let d = decimal(r);
    if r < 10 {
        let f = "00"@ + d;
        assert(f =~= seq!['0', '0', digit(r)]);
        assert(f.drop_last() =~= seq!['0', '0']);
        assert(f.drop_last().drop_last() =~= seq!['0']);
        assert(f.drop_last().drop_last().drop_last() =~= Seq::empty());
    } else if r < 100 {
        let f = "0"@ + d;
        assert(f =~= seq!['0', digit(r / 10), digit(r % 10)]);
        assert(f.drop_last() =~= seq!['0', digit(r / 10)]);
        assert(f.drop_last().drop_last() =~= seq!['0']);
        assert(f.drop_last().drop_last().drop_last() =~= Seq::empty());
    } else {
        let f = ""@ + d;
        assert(f =~= d);
        assert(d =~= seq![digit(r / 10 / 10), digit((r / 10) % 10), digit(r % 10)]);
    }
}

/// A time that is moved by an offset is written as the time that it is then: the lines of
/// some times under an offset are those of the moved times under none, one behind the other.
pub proof fn law_offset_moves_every_time(ts: Seq<i64>, moved: Seq<i64>, offset_ms: i64, n: nat)
    requires
        n <= ts.len(),
        moved.len() == ts.len(),
        forall|i: int| 0 <= i < ts.len() ==> #[trigger] moved[i] == ts[i] + 1000 * offset_ms,
    ensures
        time_lines(ts, offset_ms, n) == time_lines(moved, 0, n),
    decreases n,
{
    if n > 0 {
        law_offset_moves_every_time(ts, moved, offset_ms, (n - 1) as nat);
        assert(moved[n - 1] == ts[n - 1] + 1000 * offset_ms);
    }
}

/// The file of times has a line for every frame, in their order.
pub proof fn law_every_frame_has_its_line(ts: Seq<i64>, offset_ms: i64, n: nat)
    requires
        n <= ts.len(),
    ensures
        ({
            let rows = pieces(time_lines(ts, offset_ms, n), Separator::Char { c: '\n' });
            &&& rows.len() == n + 1
            &&& rows.last().len() == 0
            &&& forall|i: int|
                0 <= i < n ==> #[trigger] rows[i] == millis(ts[i] + 1000 * offset_ms)
        }),
    decreases n,
{
    reveal_strlit("\n");
    let sep = Separator::Char { c: '\n' };
    if n > 0 {
        let m = (n - 1) as nat;
        law_every_frame_has_its_line(ts, offset_ms, m);
        let front = time_lines(ts, offset_ms, m);
        let us = ts[n - 1] + offset_ms * 1000;
        let line = millis(us);
        let all = time_lines(ts, offset_ms, n);
        let rows = pieces(all, sep);
        lemma_no_line_end(us);
        lemma_behind_line_ends(front, line, sep);
        assert(all =~= (front + line).push('\n') + Seq::empty());
        lemma_pieces_join(front + line, '\n', Seq::empty(), sep);
        assert(pieces(Seq::<char>::empty(), sep) =~= seq![Seq::empty()]);
        let before = pieces(front, sep);
        assert(pieces(front + line, sep) == before.drop_last().push(line));
        assert forall|i: int| 0 <= i < n implies #[trigger] rows[i] == millis(
            ts[i] + 1000 * offset_ms,
        ) by {
            if i < m {
                assert(rows[i] == before[i]);
            }
        }
    } else {
        let none = time_lines(ts, offset_ms, 0);
        assert(none =~= Seq::empty());
        assert(pieces(none, sep) =~= seq![Seq::empty()]);
    }
}

proof fn lemma_behind_line_ends(front: Seq<char>, line: Seq<char>, sep: Separator)
    requires
        pieces(front, sep).last().len() == 0,
        forall|i: int| 0 <= i < line.len() ==> !separates(sep, #[trigger] line[i]),
    ensures
        pieces(front + line, sep) == pieces(front, sep).drop_last().push(line),
    decreases line.len(),
{
    lemma_pieces(front, sep);
    let p = pieces(front, sep);
    if line.len() == 0 {
        assert(front + line =~= front);
        assert(p.last() =~= line);
        assert(p =~= p.drop_last().push(line));
    } else {
        let short = line.drop_last();
        lemma_behind_line_ends(front, short, sep);
        assert((front + line).drop_last() =~= front + short);
        assert((front + line).last() == line.last());
        assert(!separates(sep, line[line.len() - 1]));
        let q = pieces(front + short, sep);
        assert(q.drop_last() =~= p.drop_last());
        assert(short.push(line.last()) =~= line);
        assert(pieces(front + line, sep) =~= p.drop_last().push(line));
    }
}

proof fn lemma_no_line_end(us: int)
    ensures
        forall|i: int| 0 <= i < millis(us).len() ==> #[trigger] millis(us)[i] != '\n',
{
    reveal_strlit("");
    reveal_strlit("-");
    reveal_strlit(".");
    reveal_strlit("0");
    reveal_strlit("00");
    let n = if us < 0 {
        -us
    } else {
        us
    };
    let (q, r) = (decimal((n / 1000) as nat), decimal((n % 1000) as nat));
    law_decimal_round_trip((n / 1000) as nat, (n / 1000) as nat);
    law_decimal_round_trip((n % 1000) as nat, (n % 1000) as nat);
    let sign = if us < 0 {
        "-"@
    } else {
        ""@
    };
    let zeros = if n % 1000 < 10 {
        "00"@
    } else if n % 1000 < 100 {
        "0"@
    } else {
        ""@
    };
    let t = millis(us);
    assert(t == sign + q + "."@ + zeros + r);
    let (a, b) = (sign.len() as int, sign.len() + q.len() as int);
    let c = b + 1 + zeros.len();
    assert forall|i: int| 0 <= i < t.len() implies #[trigger] t[i] != '\n' by {
        if i < a {
            assert(t[i] == sign[i]);
        } else if i < b {
            assert(t[i] == q[i - a]);
            assert(is_digit(q[i - a]));
        } else if i == b {
            assert(t[i] == '.');
        } else if i < c {
            assert(t[i] == zeros[i - b - 1]);
        } else {
            assert(t[i] == r[i - c]);
            assert(is_digit(r[i - c]));
        }
    }
}

/// The filter crops first, in the picture of the source, and scales what is left.
pub proof fn law_filter_crops_before_it_scales(crop: Crop, w: u32, h: u32)
    ensures
        scene_filter(Some(crop), Some((w, h))) == Some(
            crop_filter(crop) + ","@ + scene_filter(None, Some((w, h)))->0,
        ),
        scene_filter(Some(crop), None) == Some(crop_filter(crop)),
        scene_filter(None, Some((w, h))) == Some(
            "scale="@ + decimal(w as nat) + ":"@ + decimal(h as nat),
        ),
        scene_filter(None, None) is None,
{
    reveal_strlit(",");
    reveal_strlit("scale=");
    reveal_strlit(",scale=");
    assert(",scale="@ =~= ","@ + "scale="@);
    assert(scene_filter(Some(crop), Some((w, h)))->0 =~= crop_filter(crop) + ","@ + scene_filter(
        None,
        Some((w, h)),
    )->0);
}

/// A frame that comes when a constant rate has it is near it, and so is one that is less than
/// half a frame early or late; one that is more than that is not.
pub proof fn law_frames_near_the_rate(t: int, i: int, fps_num: u32, fps_den: u32, off: int)
    requires
        t * fps_num == i * (1000000 * fps_den) + off,
    ensures
        near_rate(t, i, fps_num, fps_den) <==> -(1000000 * fps_den) <= 2 * off <= 1000000 * fps_den,
{
}

/// A failure passes where it was marked so or there was no space, and no other does.
pub proof fn law_full_disks_pass(marked: bool, causes: Seq<Cause>)
    ensures
        marked ==> passes(marked, causes),
        causes.contains(Cause::StorageFull) || causes.contains(Cause::QuotaExceeded) ==> passes(
            marked,
            causes,
        ),
        !marked && !causes.contains(Cause::StorageFull) && !causes.contains(Cause::QuotaExceeded)
            ==> !passes(marked, causes),
{
    if causes.contains(Cause::StorageFull) {
        let i = choose|i: int| 0 <= i < causes.len() && causes[i] == Cause::StorageFull;
        assert(causes[i] == Cause::StorageFull);
    }
    if causes.contains(Cause::QuotaExceeded) {
        let i = choose|i: int| 0 <= i < causes.len() && causes[i] == Cause::QuotaExceeded;
        assert(causes[i] == Cause::QuotaExceeded);
    }
}

/// What a job is told decides what it does at its end: only a copied video is brought back in
/// time, only a temporary video is removed, and the temporary directory stays on request.
pub proof fn law_steps_follow_the_settings(f: Finalize, ok: bool)
    ensures
        following(f, Step::Mux, true) == Next::Do(
            if f.copied {
                Step::RealignCopy
            } else {
                Step::TrimCodecPrivate
            },
        ),
        following(f, Step::TrimCodecPrivate, ok) == Next::Do(
            if f.remove_video {
                Step::RemoveVideo
            } else {
                Step::Validate
            },
        ),
        following(f, Step::ArchiveSource, ok) == if f.keep_temp {
            Next::Finished
        } else {
            Next::Do(Step::RemoveTemp)
        },
        following(f, Step::RemoveTemp, ok) == Next::Finished,
{
}

/// The steps up to here end with this one, which went well.
pub open spec fn went_well(steps: Seq<(Step, bool)>, k: int, step: Step) -> bool {
    exists|i: int| 0 <= i < k && #[trigger] steps[i] == (step, true)
}

/// Nothing is moved into place that was not made: the subtitles were planned, the tracks
/// extracted and the file muxed, and a copied video brought back in time, all without an error
/// and at a free place.
pub proof fn law_output_is_made_before_it_is_moved(f: Finalize, steps: Seq<(Step, bool)>, k: int)
    requires
        history(f, steps),
        0 <= k < steps.len(),
        steps[k].0 == Step::MoveOutput,
    ensures
        went_well(steps, k, Step::PlanSubtitles),
        went_well(steps, k, Step::ExtractTracks),
        went_well(steps, k, Step::CheckOutputIsFree),
        went_well(steps, k, Step::Mux),
        f.copied ==> went_well(steps, k, Step::RealignCopy),
        exists|i: int| 0 <= i < k && (#[trigger] steps[i]).0 == Step::TrimCodecPrivate,
{
    lemma_step_before(f, steps, k);
    lemma_step_before(f, steps, k - 1);
    lemma_step_before(f, steps, k - 2);
    let trim = if steps[k - 3].0 == Step::RemoveVideo {
        lemma_step_before(f, steps, k - 3);
        k - 4
    } else {
        k - 3
    };
    assert(steps[trim].0 == Step::TrimCodecPrivate);
    lemma_step_before(f, steps, trim);
    let mux = if steps[trim - 1].0 == Step::RealignCopy {
        lemma_step_before(f, steps, trim - 1);
        trim - 2
    } else {
        trim - 1
    };
    assert(steps[mux] == (Step::Mux, true));
    if f.copied {
        assert(steps[trim - 1] == (Step::RealignCopy, true));
    }
    lemma_step_before(f, steps, mux);
    assert(steps[mux - 1] == (Step::CheckOutputIsFree, true));
    lemma_step_before(f, steps, mux - 1);
    assert(steps[mux - 2] == (Step::ExtractTracks, true));
    lemma_step_before(f, steps, mux - 2);
    assert(steps[mux - 3] == (Step::PlanSubtitles, true));
}

/// A step that is not the first follows the one in front of it.
proof fn lemma_step_before(f: Finalize, steps: Seq<(Step, bool)>, k: int)
    requires
        history(f, steps),
        0 <= k < steps.len(),
        steps[k].0 != Step::PlanSubtitles,
    ensures
        k > 0,
        following(f, steps[k - 1].0, steps[k - 1].1) == Next::Do(steps[k].0),
{
    if k > 0 {
        let (i, j) = (k - 1, k);
        assert(following(f, steps[i].0, steps[i].1) == Next::Do(steps[j].0));
    }
}

/// A setting is said to be ignored exactly where it is set.
pub proof fn law_set_options_are_named(a: AvetConfig)
    ensures
        ({
            let words = ignored_words(a);
            &&& words.len() == (if a.dv {
                1int
            } else {
                0
            }) + (if a.crop {
                1int
            } else {
                0
            }) + (if a.keyint {
                1int
            } else {
                0
            }) + (if a.scale is Some {
                1int
            } else {
                0
            }) + (if a.bit_depth is Some {
                1int
            } else {
                0
            })
            &&& a.dv ==> words[0] == "dv"@
            &&& a.bit_depth is Some ==> words.last() == "bit_depth"@
            &&& a.crop ==> words.contains("crop"@)
            &&& a.keyint ==> words.contains("keyint"@)
            &&& a.scale is Some ==> words.contains("scale"@)
        }),
{
    let words = ignored_words(a);
    let i: int = if a.dv {
        1
    } else {
        0
    };
    let j: int = i + if a.crop {
        1int
    } else {
        0
    };
    let k: int = j + if a.keyint {
        1int
    } else {
        0
    };
    if a.crop {
        assert(words[i] == "crop"@);
    }
    if a.keyint {
        assert(words[j] == "keyint"@);
    }
    if a.scale is Some {
        assert(words[k] == "scale"@);
    }
}

/// The folders that may be empty lie below the profile, each by one more name on the way to the
/// source.
pub proof fn law_emptied_folders_lie_below_the_profile(
    profile: Seq<char>,
    rel: Seq<Seq<char>>,
    n: nat,
)
    requires
        profile.len() > 0,
        n <= rel.len(),
        forall|i: int|
            0 <= i < rel.len() ==> names_something(#[trigger] rel[i]) && !rel[i].contains('/')
                && rel[i] != ".."@,
    ensures
        parts(folder_below(profile, rel, n)) == parts(profile) + rel.take(n as int),
        folder_below(profile, rel, n).len() > 0,
    decreases n,
{
    if n > 0 {
        law_emptied_folders_lie_below_the_profile(profile, rel, (n - 1) as nat);
        let above = folder_below(profile, rel, (n - 1) as nat);
        assert(names_something(rel[n - 1]));
        law_path_below_a_folder(above, rel[n - 1]);
        assert(parts(profile) + rel.take(n as int) =~= (parts(profile) + rel.take(n - 1)).push(
            rel[n - 1],
        ));
    } else {
        assert(parts(profile) + rel.take(0) =~= parts(profile));
    }
}

} // verus!
