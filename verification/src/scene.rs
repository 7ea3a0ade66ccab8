//! Chunks of a video: from the scene cuts that were detected, cut further where a scene is
//! too long.
use crate::config::{SceneDetectionConfig, SceneDetectionSpeedConfig};
use crate::resume::SceneEntry;
use crate::text::{
    decimal, gives, lemma_gives_at, push_decimal, push_two, push_words, str_of, strings, text_of,
};
use vstd::prelude::*;
use vstd::string::*;

verus! {

// ---------------------------------------------------------------------------
// The filter that detection runs behind
// ---------------------------------------------------------------------------
/// The ffmpeg filter that scales down to a height, and never up.
pub open spec fn downscale_filter(height: u32) -> Seq<char> {
    "scale=-2:min(ih\\,"@ + decimal(height as nat) + ")"@
}

/// The filter for scene detection: the base filter, then the downscale.
pub open spec fn detection_vf(base_vf: Option<Seq<char>>, downscale_height: Option<u32>) -> Option<
    Seq<char>,
> {
    match (base_vf, downscale_height) {
        (None, None) => None,
        (Some(v), None) => Some(v),
        (None, Some(h)) => Some(downscale_filter(h)),
        (Some(v), Some(h)) => Some(v + ","@ + downscale_filter(h)),
    }
}

pub fn build_detection_vf(base_vf: Option<&str>, downscale_height: Option<u32>) -> (r: Option<
    String,
>)
    ensures
        text_of(r) == detection_vf(str_of(base_vf), downscale_height),
{
    let mut out = String::new();
    match base_vf {
        Some(v) => {
            out.append(v);
            if downscale_height.is_some() {
                out.append(",");
            }
        },
        None => {
            if downscale_height.is_none() {
                return None;
            }
        },
    }
    if let Some(h) = downscale_height {
        out.append("scale=-2:min(ih\\,");
        push_decimal(&mut out, h as u64);
        out.append(")");
    }
    proof {
        let want = detection_vf(
            match base_vf {
                Some(v) => Some(v@),
                None => None,
            },
            downscale_height,
        )->0;
        assert(out@ =~= want);
    }
    Some(out)
}

/// The arguments of the ffmpeg that feeds the detector: the first video track, every frame of
/// it once, in storage orientation, as 8 bit 4:2:0.
pub open spec fn decoder_args(source: Seq<char>, vf: Option<Seq<char>>) -> Seq<Seq<char>> {
    seq![
        "-hide_banner"@,
        "-loglevel"@,
        "error"@,
        "-noautorotate"@,
        "-i"@,
        source,
        "-map"@,
        "0:v:0"@,
    ] + (match vf {
        Some(v) => seq!["-vf"@, v],
        None => Seq::empty(),
    }) + seq![
        "-pix_fmt"@,
        "yuv420p"@,
        "-fps_mode"@,
        "passthrough"@,
        "-f"@,
        "yuv4mpegpipe"@,
        "pipe:1"@,
    ]
}

pub fn detection_args(source: &str, vf_filter: Option<&str>, downscale_height: Option<u32>) -> (args:
    Vec<String>)
    ensures
        strings(args@) == decoder_args(
            source@,
            detection_vf(str_of(vf_filter), downscale_height),
        ),
{
    let mut args: Vec<String> = Vec::new();
    push_words(&mut args, &["-hide_banner", "-loglevel", "error", "-noautorotate"]);
    push_two(&mut args, "-i", source.to_owned());
    push_words(&mut args, &["-map", "0:v:0"]);
    let vf = build_detection_vf(vf_filter, downscale_height);
    if let Some(v) = vf {
        push_two(&mut args, "-vf", v);
    }
    push_words(
        &mut args,
        &["-pix_fmt", "yuv420p", "-fps_mode", "passthrough", "-f", "yuv4mpegpipe", "pipe:1"],
    );
    assert(strings(args@) =~= decoder_args(
        source@,
        detection_vf(str_of(vf_filter), downscale_height),
    ));
    args
}

/// The detector sees the first video of the source, every frame of it, through the filters of
/// the encode and then the downscale, which comes last and only where it is asked for.
pub proof fn law_detector_sees_the_filtered_video(
    source: Seq<char>,
    base_vf: Option<Seq<char>>,
    downscale_height: Option<u32>,
)
    ensures
        ({
            let args = decoder_args(source, detection_vf(base_vf, downscale_height));
            &&& gives(args, "-i"@, source)
            &&& gives(args, "-map"@, "0:v:0"@)
            &&& gives(args, "-fps_mode"@, "passthrough"@)
            &&& base_vf is Some && downscale_height is None ==> gives(args, "-vf"@, base_vf->0)
            &&& base_vf is None && downscale_height is Some ==> gives(
                args,
                "-vf"@,
                "scale=-2:min(ih\\,"@ + decimal(downscale_height->0 as nat) + ")"@,
            )
            &&& base_vf is Some && downscale_height is Some ==> gives(
                args,
                "-vf"@,
                base_vf->0 + ","@ + ("scale=-2:min(ih\\,"@ + decimal(downscale_height->0 as nat)
                    + ")"@),
            )
            &&& base_vf is None && downscale_height is None ==> args.len() == 15
            &&& args.last() == "pipe:1"@
        }),
{
    let args = decoder_args(source, detection_vf(base_vf, downscale_height));
    lemma_gives_at(args, 4);
    lemma_gives_at(args, 6);
    lemma_gives_at(args, 8);
    lemma_gives_at(args, args.len() - 5);
    assert(args[args.len() - 5] == "-fps_mode"@ && args[args.len() - 4] == "passthrough"@);
}

/// What the detector is told.
#[derive(Clone, Copy, Debug, PartialEq, Eq, Structural)]
pub struct DetectionSettings {
    pub fast: bool,
    pub detect_flashes: bool,
    pub min_distance: Option<usize>,
    pub max_distance: Option<usize>,
    pub lookahead: usize,
}

/// The settings of a detection. Cuts are kept apart by the shortest scene that is allowed;
/// long scenes are cut afterwards, where the cuts can be spread evenly.
pub fn detection_settings(cfg: &SceneDetectionConfig) -> (s: DetectionSettings)
    ensures
        s == (DetectionSettings {
            fast: cfg.speed is Fast,
            detect_flashes: true,
            min_distance: Some(cfg.min_scene_len),
            max_distance: None,
            lookahead: 5,
        }),
{
    DetectionSettings {
        fast: matches!(cfg.speed, SceneDetectionSpeedConfig::Fast),
        detect_flashes: true,
        min_distance: Some(cfg.min_scene_len),
        max_distance: None,
        lookahead: 5,
    }
}

// ---------------------------------------------------------------------------
// Scenes from cuts
// ---------------------------------------------------------------------------
/// Where scenes start: at the first frame, and at every cut behind it.
pub open spec fn scene_starts(scene_changes: Seq<usize>) -> Seq<usize> {
    seq![0usize] + scene_changes.filter(|f: usize| f > 0)
}

/// Scene number `i`: up to the next start, the last one up to the end.
pub open spec fn scene_entry(starts: Seq<usize>, total_frames: nat, i: int) -> SceneEntry {
    SceneEntry {
        index: i as usize,
        start_frame: starts[i] as u64,
        end_frame: if i + 1 < starts.len() {
            (starts[i + 1] - 1) as u64
        } else {
            (total_frames - 1) as u64
        },
    }
}

/// The scenes that cuts divide a video into.
pub open spec fn scene_entries(scene_changes: Seq<usize>, total_frames: nat) -> Seq<SceneEntry> {
    let starts = scene_starts(scene_changes);
    Seq::new(starts.len(), |i: int| scene_entry(starts, total_frames, i))
}

pub fn build_scene_entries(scene_changes: &[usize], total_frames: usize) -> (out: Vec<SceneEntry>)
    requires
        total_frames > 0,
    ensures
        out@ == scene_entries(scene_changes@, total_frames as nat),
{
    let ghost positive = |f: usize| f > 0;
    let mut starts: Vec<usize> = Vec::new();
    starts.push(0);
    let mut i: usize = 0;
    proof {
        assert(scene_changes@.subrange(0, 0).filter(positive) =~= Seq::empty()) by {
            reveal(Seq::filter);
        }
        assert(starts@ =~= seq![0usize] + scene_changes@.subrange(0, 0).filter(positive));
    }
    while i < scene_changes.len()
        invariant
            i <= scene_changes@.len(),
            positive == (|f: usize| f > 0),
            starts@ == seq![0usize] + scene_changes@.subrange(0, i as int).filter(positive),
            forall|k: int| 0 < k < starts@.len() ==> #[trigger] starts@[k] > 0,
        decreases scene_changes@.len() - i,
    {
        proof {
            let next = scene_changes@.subrange(0, i + 1);
            assert(next.drop_last() =~= scene_changes@.subrange(0, i as int));
            assert(next.filter(positive) == (if positive(next.last()) {
                next.drop_last().filter(positive).push(next.last())
            } else {
                next.drop_last().filter(positive)
            })) by {
                reveal(Seq::filter);
            }
        }
        let f: usize = scene_changes[i];
        if f > 0 {
            let ghost before = starts@;
            starts.push(f);
            assert(starts@ =~= seq![0usize] + scene_changes@.subrange(0, i + 1).filter(positive));
        }
        i = i + 1;
    }
    assert(scene_changes@.subrange(0, i as int) =~= scene_changes@);
    let mut out: Vec<SceneEntry> = Vec::new();
    let mut k: usize = 0;
    while k < starts.len()
        invariant
            k <= starts@.len(),
            total_frames > 0,
            out@.len() == k,
            forall|j: int| 0 < j < starts@.len() ==> #[trigger] starts@[j] > 0,
            forall|j: int|
                0 <= j < k ==> #[trigger] out@[j] == scene_entry(
                    starts@,
                    total_frames as nat,
                    j,
                ),
        decreases starts@.len() - k,
    {
        let end: usize = if k + 1 < starts.len() {
            assert(starts@[k + 1] > 0);
            starts[k + 1] - 1
        } else {
            total_frames - 1
        };
        out.push(
            SceneEntry { index: k, start_frame: starts[k] as u64, end_frame: end as u64 },
        );
        k = k + 1;
    }
    assert(out@ =~= scene_entries(scene_changes@, total_frames as nat));
    out
}

/// A chunk list without a gap or an overlap: the first chunk at frame `from`, each one
/// behind the one before it, the last one just before frame `to`.
pub open spec fn covers(scenes: Seq<SceneEntry>, from: int, to: int) -> bool {
    &&& scenes.len() == 0 ==> from == to
    &&& scenes.len() > 0 ==> scenes[0].start_frame == from && scenes.last().end_frame + 1 == to
    &&& forall|i: int|
        0 <= i < scenes.len() ==> (#[trigger] scenes[i]).start_frame <= scenes[i].end_frame
    &&& forall|i: int, j: int|
        #![trigger scenes[i], scenes[j]]
        0 <= i && j == i + 1 && j < scenes.len() ==> scenes[j].start_frame == scenes[i].end_frame + 1
}

/// Chunks carry their place in the list.
pub open spec fn numbered(scenes: Seq<SceneEntry>) -> bool {
    forall|i: int| 0 <= i < scenes.len() ==> (#[trigger] scenes[i]).index == i
}

/// Cuts in order divide a video without a gap or an overlap.
pub proof fn law_scenes_cover_the_video(scene_changes: Seq<usize>, total_frames: nat)
    requires
        0 < total_frames <= usize::MAX,
        forall|i: int, j: int|
            #![trigger scene_changes[i], scene_changes[j]]
            0 <= i < j < scene_changes.len() ==> scene_changes[i] < scene_changes[j],
        forall|i: int| 0 <= i < scene_changes.len() ==> #[trigger] scene_changes[i] < total_frames,
    ensures
        covers(scene_entries(scene_changes, total_frames), 0, total_frames as int),
        scene_entries(scene_changes, total_frames).len() <= usize::MAX ==> numbered(
            scene_entries(scene_changes, total_frames),
        ),
{
    let cuts = scene_changes.filter(|f: usize| f > 0);
    let starts = scene_starts(scene_changes);
    lemma_cuts_increase(scene_changes, total_frames);
    let scenes = scene_entries(scene_changes, total_frames);
    assert forall|i: int, j: int|
        #![trigger starts[i], starts[j]]
        0 <= i < j < starts.len() implies starts[i] < starts[j] by {
        if i > 0 {
            assert(starts[i] == cuts[i - 1]);
        }
        assert(starts[j] == cuts[j - 1]);
    }
    assert forall|i: int| 0 <= i < scenes.len() implies (#[trigger] scenes[i]).start_frame
        <= scenes[i].end_frame by {
        assert(scenes[i] == scene_entry(starts, total_frames, i));
        if i + 1 < starts.len() {
            assert(starts[i] < starts[i + 1]);
        } else if i > 0 {
            assert(starts[i] == cuts[i - 1]);
        }
    }
    assert forall|i: int, j: int|
        #![trigger scenes[i], scenes[j]]
        0 <= i && j == i + 1 && j < scenes.len() implies scenes[j].start_frame
        == scenes[i].end_frame + 1 by {
        assert(starts[i] < starts[j]);
    }
}

/// A chunk of the list starts at this frame.
pub open spec fn starts_a_chunk(scenes: Seq<SceneEntry>, frame: int) -> bool {
    exists|k: int| 0 <= k < scenes.len() && (#[trigger] scenes[k]).start_frame == frame
}

/// Every cut starts a scene, and nothing but the first frame and the cuts does.
pub proof fn law_every_cut_starts_a_scene(scene_changes: Seq<usize>, total_frames: nat)
    ensures
        ({
            let scenes = scene_entries(scene_changes, total_frames);
            &&& starts_a_chunk(scenes, 0)
            &&& forall|i: int|
                0 <= i < scene_changes.len() ==> starts_a_chunk(
                    scenes,
                    #[trigger] scene_changes[i] as int,
                )
            &&& forall|k: int|
                0 <= k < scenes.len() ==> (#[trigger] scenes[k]).start_frame == 0 || exists|i: int|
                    0 <= i < scene_changes.len() && #[trigger] scene_changes[i]
                        == scenes[k].start_frame
        }),
{
    let positive = |f: usize| f > 0;
    let cuts = scene_changes.filter(positive);
    let starts = scene_starts(scene_changes);
    let scenes = scene_entries(scene_changes, total_frames);
    assert(scenes[0].start_frame == 0);
    assert forall|i: int| 0 <= i < scene_changes.len() implies starts_a_chunk(
        scenes,
        #[trigger] scene_changes[i] as int,
    ) by {
        if scene_changes[i] > 0 {
            scene_changes.lemma_filter_contains(positive, i);
            let k = choose|k: int| 0 <= k < cuts.len() && cuts[k] == scene_changes[i];
            assert(starts[k + 1] == cuts[k]);
            assert(scenes[k + 1].start_frame == scene_changes[i]);
        }
    }
    assert forall|k: int| 0 <= k < scenes.len() implies (#[trigger] scenes[k]).start_frame == 0
        || exists|i: int|
        0 <= i < scene_changes.len() && #[trigger] scene_changes[i] == scenes[k].start_frame by {
        if k > 0 {
            assert(starts[k] == cuts[k - 1]);
            assert(cuts.contains(cuts[k - 1]));
            scene_changes.lemma_filter_contains_rev(positive, cuts[k - 1]);
        }
    }
}

proof fn lemma_cuts_increase(scene_changes: Seq<usize>, total_frames: nat)
    requires
        forall|i: int, j: int|
            #![trigger scene_changes[i], scene_changes[j]]
            0 <= i < j < scene_changes.len() ==> scene_changes[i] < scene_changes[j],
        forall|i: int| 0 <= i < scene_changes.len() ==> #[trigger] scene_changes[i] < total_frames,
    ensures
        ({
            let cuts = scene_changes.filter(|f: usize| f > 0);
            &&& forall|i: int, j: int|
                #![trigger cuts[i], cuts[j]]
                0 <= i < j < cuts.len() ==> cuts[i] < cuts[j]
            &&& forall|i: int| 0 <= i < cuts.len() ==> 0 < #[trigger] cuts[i] < total_frames
        }),
    decreases scene_changes.len(),
{
    reveal(Seq::filter);
    let positive = |f: usize| f > 0;
    if scene_changes.len() > 0 {
        let front = scene_changes.drop_last();
        lemma_cuts_increase(front, total_frames);
        let kept = front.filter(positive);
        let cuts = scene_changes.filter(positive);
        let last = scene_changes.last();
        assert forall|i: int| 0 <= i < kept.len() implies #[trigger] kept[i] < last by {
            assert(kept.contains(kept[i]));
            front.lemma_filter_contains_rev(positive, kept[i]);
            let k = choose|k: int| 0 <= k < front.len() && front[k] == kept[i];
            assert(scene_changes[k] < scene_changes[scene_changes.len() - 1]);
        }
        if last > 0 {
            assert(cuts =~= kept.push(last));
            assert forall|i: int, j: int|
                #![trigger cuts[i], cuts[j]]
                0 <= i < j < cuts.len() implies cuts[i] < cuts[j] by {
                if j < kept.len() {
                    assert(kept[i] < kept[j]);
                } else {
                    assert(kept[i] < last);
                }
            }
        }
    }
}

// ---------------------------------------------------------------------------
// Cutting long scenes
// ---------------------------------------------------------------------------
/// The number of frames of a chunk.
pub open spec fn scene_len(s: SceneEntry) -> int {
    s.end_frame - s.start_frame + 1
}

/// Into how many parts a scene is cut: as few as keep each within `max`.
pub open spec fn part_count(len: int, max: int) -> int {
    if len <= max {
        1
    } else {
        (len + max - 1) / max
    }
}

/// Where part `i` of `n` starts, in a scene of `len` frames from `start` on: the parts are
/// even, and what is left over goes one frame each to the first ones.
pub open spec fn part_start(start: int, len: int, n: int, i: int) -> int {
    start + i * (len / n) + if i < len % n {
        i
    } else {
        len % n
    }
}

/// The first and last frame of each part of a scene.
pub open spec fn scene_parts(s: SceneEntry, max: int) -> Seq<(int, int)> {
    let n = part_count(scene_len(s), max);
    Seq::new(
        n as nat,
        |i: int|
            (
                part_start(s.start_frame as int, scene_len(s), n, i),
                part_start(s.start_frame as int, scene_len(s), n, i + 1) - 1,
            ),
    )
}

/// The parts of all scenes in a row.
pub open spec fn all_parts(scenes: Seq<SceneEntry>, max: int) -> Seq<(int, int)>
    decreases scenes.len(),
{
    if scenes.len() == 0 {
        Seq::empty()
    } else {
        all_parts(scenes.drop_last(), max) + scene_parts(scenes.last(), max)
    }
}

/// A chunk list from the first and last frames of its chunks.
pub open spec fn entries_of(parts: Seq<(int, int)>) -> Seq<SceneEntry> {
    Seq::new(
        parts.len(),
        |k: int|
            SceneEntry {
                index: k as usize,
                start_frame: parts[k].0 as u64,
                end_frame: parts[k].1 as u64,
            },
    )
}

/// A chunk that is not turned round and whose length can be counted.
pub open spec fn countable(s: SceneEntry) -> bool {
    s.start_frame <= s.end_frame < u64::MAX && scene_len(s) <= usize::MAX
}

/// The steps of `part_start`.
proof fn lemma_part_start(start: int, len: int, n: int, i: int)
    requires
        1 <= n <= len,
        0 <= i < n,
    ensures
        part_start(start, len, n, i + 1) == part_start(start, len, n, i) + len / n + if i < len
            % n {
            1int
        } else {
            0int
        },
        part_start(start, len, n, 0) == start,
        part_start(start, len, n, n) == start + len,
        1 <= len / n,
{
    let q = len / n;
    let r = len % n;
    assert((i + 1) * q == i * q + q) by (nonlinear_arith);
    assert(0 * q == 0) by (nonlinear_arith);
    vstd::arithmetic::div_mod::lemma_fundamental_div_mod(len, n);
    vstd::arithmetic::div_mod::lemma_mod_bound(len, n);
    assert(1 <= q) by (nonlinear_arith)
        requires
            len == n * q + r,
            0 <= r < n,
            n <= len,
            1 <= n,
    ;
}

/// Between 1 and `len` parts, and enough of them.
proof fn lemma_part_count(len: int, max: int)
    requires
        1 <= len,
        1 <= max,
    ensures
        1 <= part_count(len, max) <= len,
        len <= part_count(len, max) * max,
        len > max ==> part_count(len, max) >= 2,
{
    if len > max {
        let n = (len + max - 1) / max;
        vstd::arithmetic::div_mod::lemma_fundamental_div_mod(len + max - 1, max);
        vstd::arithmetic::div_mod::lemma_mod_bound(len + max - 1, max);
        let r = (len + max - 1) % max;
        assert(len <= n * max && n <= len && n >= 2) by (nonlinear_arith)
            requires
                len + max - 1 == max * n + r,
                0 <= r < max,
                1 <= max < len,
        ;
    } else {
        assert(1 * max == max) by (nonlinear_arith);
    }
}

/// A part is within its scene.
proof fn lemma_part_in_scene(start: int, len: int, n: int, i: int)
    requires
        1 <= n <= len,
        0 <= i <= n,
    ensures
        start <= part_start(start, len, n, i) <= start + len,
        i <= part_start(start, len, n, i) - start,
        n - i <= start + len - part_start(start, len, n, i),
    decreases n - i,
{
    let q = len / n;
    let r = len % n;
    lemma_part_start(start, len, n, 0);
    vstd::arithmetic::div_mod::lemma_fundamental_div_mod(len, n);
    vstd::arithmetic::div_mod::lemma_mod_bound(len, n);
    assert(i <= i * q) by (nonlinear_arith)
        requires
            0 <= i,
            1 <= q,
    ;
    assert(i * q + (n - i) <= n * q) by (nonlinear_arith)
        requires
            0 <= i <= n,
            1 <= q,
    ;
}

pub fn apply_extra_split(scenes: Vec<SceneEntry>, max_frames: usize) -> (out: Vec<SceneEntry>)
    requires
        max_frames > 0,
        forall|i: int| 0 <= i < scenes@.len() ==> countable(#[trigger] scenes@[i]),
    ensures
        out@ == entries_of(all_parts(scenes@, max_frames as int)),
{
    let mut out: Vec<SceneEntry> = Vec::new();
    let mut k: usize = 0;
    proof {
        assert(scenes@.subrange(0, 0) =~= Seq::empty());
        assert(out@ =~= entries_of(all_parts(scenes@.subrange(0, 0), max_frames as int)));
    }
    while k < scenes.len()
        invariant
            k <= scenes@.len(),
            max_frames > 0,
            forall|i: int| 0 <= i < scenes@.len() ==> countable(#[trigger] scenes@[i]),
            out@ == entries_of(all_parts(scenes@.subrange(0, k as int), max_frames as int)),
        decreases scenes@.len() - k,
    {
        let scene = scenes[k];
        let ghost before = all_parts(scenes@.subrange(0, k as int), max_frames as int);
        let ghost parts = scene_parts(scene, max_frames as int);
        assert(countable(scenes@[k as int]));
        let len: usize = (scene.end_frame - scene.start_frame + 1) as usize;
        let n: usize = if len <= max_frames {
            1
        } else {
            let whole: usize = len / max_frames;
            let rest: usize = len % max_frames;
            proof {
                lemma_part_count(len as int, max_frames as int);
                lemma_ceil(len as int, max_frames as int);
            }
            if rest > 0 {
                whole + 1
            } else {
                whole
            }
        };
        proof {
            lemma_part_count(len as int, max_frames as int);
            assert(n == part_count(len as int, max_frames as int));
            assert(before + parts.subrange(0, 0) =~= before);
            lemma_part_start(scene.start_frame as int, len as int, n as int, 0);
        }
        let part_size: usize = len / n;
        let long_parts: usize = len % n;
        let mut start: u64 = scene.start_frame;
        let mut i: usize = 0;
        while i < n
            invariant
                i <= n,
                1 <= n <= len,
                len == scene_len(scene),
                scene.end_frame < u64::MAX,
                n == part_count(len as int, max_frames as int),
                parts == scene_parts(scene, max_frames as int),
                part_size == len as int / n as int,
                long_parts == len as int % n as int,
                start == part_start(scene.start_frame as int, len as int, n as int, i as int),
                out@ == entries_of(before + parts.subrange(0, i as int)),
            decreases n - i,
        {
            proof {
                lemma_part_start(scene.start_frame as int, len as int, n as int, i as int);
                lemma_part_in_scene(
                    scene.start_frame as int,
                    len as int,
                    n as int,
                    i as int,
                );
                lemma_part_in_scene(scene.start_frame as int, len as int, n as int, i + 1);
            }
            let size: usize = if i < long_parts {
                part_size + 1
            } else {
                part_size
            };
            let end: u64 = start + (size as u64 - 1);
            let index: usize = out.len();
            let ghost so_far = before + parts.subrange(0, i as int);
            out.push(SceneEntry { index, start_frame: start, end_frame: end });
            proof {
                assert(before + parts.subrange(0, i + 1) =~= so_far.push(parts[i as int]));
                assert(out@ =~= entries_of(before + parts.subrange(0, i + 1)));
            }
            start = end + 1;
            i = i + 1;
        }
        proof {
            assert(parts.subrange(0, n as int) =~= parts);
            let next = scenes@.subrange(0, k + 1);
            assert(next.drop_last() =~= scenes@.subrange(0, k as int));
            assert(next.last() == scene);
        }
        k = k + 1;
    }
    assert(scenes@.subrange(0, k as int) =~= scenes@);
    out
}

/// Rounding a quotient up.
proof fn lemma_ceil(len: int, max: int)
    requires
        1 <= max < len,
    ensures
        (len + max - 1) / max == len / max + if len % max > 0 {
            1int
        } else {
            0int
        },
{
    let q = len / max;
    let r = len % max;
    vstd::arithmetic::div_mod::lemma_fundamental_div_mod(len, max);
    vstd::arithmetic::div_mod::lemma_mod_bound(len, max);
    if r > 0 {
        assert(len + max - 1 == max * (q + 1) + (r - 1)) by (nonlinear_arith)
            requires
                len == max * q + r,
        ;
        vstd::arithmetic::div_mod::lemma_fundamental_div_mod_converse(
            len + max - 1,
            max,
            q + 1,
            r - 1,
        );
    } else {
        vstd::arithmetic::div_mod::lemma_fundamental_div_mod_converse(
            len + max - 1,
            max,
            q,
            max - 1,
        );
    }
}

/// A part of a scene has at least one frame and at most `max`.
proof fn lemma_part_len(s: SceneEntry, max: int, i: int)
    requires
        countable(s),
        1 <= max,
        0 <= i < scene_parts(s, max).len(),
    ensures
        scene_parts(s, max)[i].0 <= scene_parts(s, max)[i].1,
        scene_parts(s, max)[i].1 - scene_parts(s, max)[i].0 + 1 <= max,
        s.start_frame <= scene_parts(s, max)[i].0,
        scene_parts(s, max)[i].1 <= s.end_frame,
{
    let len = scene_len(s);
    let n = part_count(len, max);
    lemma_part_count(len, max);
    lemma_part_start(s.start_frame as int, len, n, i);
    lemma_part_in_scene(s.start_frame as int, len, n, i);
    lemma_part_in_scene(s.start_frame as int, len, n, i + 1);
    vstd::arithmetic::div_mod::lemma_fundamental_div_mod(len, n);
    vstd::arithmetic::div_mod::lemma_mod_bound(len, n);
    let q = len / n;
    let r = len % n;
    assert(q + if r > 0 {
        1int
    } else {
        0int
    } <= max) by (nonlinear_arith)
        requires
            len == n * q + r,
            0 <= r < n,
            len <= n * max,
            1 <= n,
            1 <= max,
    ;
}

/// Cutting long scenes keeps a chunk list whole, numbers it anew, and leaves no chunk
/// longer than the maximum.
pub proof fn law_split_covers_the_same(scenes: Seq<SceneEntry>, max: int, from: int, to: int)
    requires
        1 <= max,
        forall|i: int| 0 <= i < scenes.len() ==> countable(#[trigger] scenes[i]),
        covers(scenes, from, to),
    ensures
        covers(entries_of(all_parts(scenes, max)), from, to),
        all_parts(scenes, max).len() <= usize::MAX ==> numbered(
            entries_of(all_parts(scenes, max)),
        ),
        forall|k: int|
            0 <= k < all_parts(scenes, max).len() ==> scene_len(
                #[trigger] entries_of(all_parts(scenes, max))[k],
            ) <= max,
        scenes.len() > 0 ==> all_parts(scenes, max).len() > 0,
    decreases scenes.len(),
{
    let out = entries_of(all_parts(scenes, max));
    if scenes.len() > 0 {
        let front = scenes.drop_last();
        let s = scenes.last();
        let mid = if front.len() == 0 {
            from
        } else {
            front.last().end_frame + 1
        };
        assert(countable(scenes[scenes.len() - 1]));
        assert forall|i: int| 0 <= i < front.len() implies countable(#[trigger] front[i]) by {
            assert(front[i] == scenes[i]);
        }
        assert(covers(front, from, mid)) by {
            assert forall|i: int| 0 <= i < front.len() implies (#[trigger] front[i]).start_frame
                <= front[i].end_frame by {
                assert(front[i] == scenes[i]);
            }
            assert forall|i: int, j: int|
                #![trigger front[i], front[j]]
                0 <= i && j == i + 1 && j < front.len() implies front[j].start_frame
                == front[i].end_frame + 1 by {
                assert(front[i] == scenes[i] && front[j] == scenes[j]);
            }
            if front.len() > 0 {
                assert(front[0] == scenes[0]);
            }
        }
        law_split_covers_the_same(front, max, from, mid);
        let a = all_parts(front, max);
        let b = scene_parts(s, max);
        let all = a + b;
        assert(all_parts(scenes, max) == all);
        let len = scene_len(s);
        let n = part_count(len, max);
        lemma_part_count(len, max);
        assert(b.len() == n);
        assert(s.start_frame == mid) by {
            if front.len() > 0 {
                assert(scenes[front.len() as int - 1] == front.last());
                assert(scenes[front.len() as int] == s);
            }
        }
        lemma_part_start(s.start_frame as int, len, n, 0);
        lemma_part_start(s.start_frame as int, len, n, n - 1);
        let prev = entries_of(a);
        assert forall|k: int| 0 <= k < a.len() implies #[trigger] out[k] == prev[k] by {
            assert(all[k] == a[k]);
        }
        assert forall|k: int| a.len() <= k < all.len() implies {
            &&& (#[trigger] out[k]).start_frame == b[k - a.len()].0
            &&& out[k].end_frame == b[k - a.len()].1
        } by {
            assert(all[k] == b[k - a.len()]);
            lemma_part_len(s, max, k - a.len());
        }
        assert forall|k: int| 0 <= k < out.len() implies scene_len(#[trigger] out[k]) <= max
            && out[k].start_frame <= out[k].end_frame by {
            if k < a.len() {
                assert(out[k] == prev[k]);
            } else {
                lemma_part_len(s, max, k - a.len());
            }
        }
        assert forall|i: int, j: int|
            #![trigger out[i], out[j]]
            0 <= i && j == i + 1 && j < out.len() implies out[j].start_frame == out[i].end_frame
            + 1 by {
            if j < a.len() {
                assert(out[i] == prev[i] && out[j] == prev[j]);
            } else if i >= a.len() {
                assert(b[j - a.len()].0 == b[i - a.len()].1 + 1);
            } else {
                assert(out[i] == prev[i]);
                assert(prev[i] == prev.last());
                assert(b[0].0 == mid);
            }
        }
        if a.len() > 0 {
            assert(out[0] == prev[0]);
        }
        assert(out.last() == out[out.len() - 1]);
        assert(b[n - 1].1 == s.end_frame);
    }
}

proof fn lemma_parts_of_scene(scenes: Seq<SceneEntry>, max: int, i: int, j: int)
    requires
        0 <= i < scenes.len(),
        0 <= j < scene_parts(scenes[i], max).len(),
    ensures
        exists|k: int|
            0 <= k < all_parts(scenes, max).len() && #[trigger] all_parts(scenes, max)[k]
                == scene_parts(scenes[i], max)[j],
    decreases scenes.len(),
{
    let front = all_parts(scenes.drop_last(), max);
    let all = all_parts(scenes, max);
    if i == scenes.len() - 1 {
        assert(all[front.len() + j] == scene_parts(scenes[i], max)[j]);
    } else {
        assert(scenes.drop_last()[i] == scenes[i]);
        lemma_parts_of_scene(scenes.drop_last(), max, i, j);
        let k = choose|k: int|
            0 <= k < front.len() && #[trigger] front[k] == scene_parts(scenes[i], max)[j];
        assert(all[k] == front[k]);
    }
}

proof fn lemma_scene_of_part(scenes: Seq<SceneEntry>, max: int, k: int)
    requires
        0 <= k < all_parts(scenes, max).len(),
    ensures
        exists|i: int, j: int|
            #![trigger scene_parts(scenes[i], max)[j]]
            0 <= i < scenes.len() && 0 <= j < scene_parts(scenes[i], max).len() && scene_parts(
                scenes[i],
                max,
            )[j] == all_parts(scenes, max)[k],
    decreases scenes.len(),
{
    let front = all_parts(scenes.drop_last(), max);
    let n = scenes.len() - 1;
    if k < front.len() {
        lemma_scene_of_part(scenes.drop_last(), max, k);
        let (i, j) = choose|i: int, j: int|
            #![trigger scene_parts(scenes.drop_last()[i], max)[j]]
            0 <= i < scenes.drop_last().len() && 0 <= j < scene_parts(
                scenes.drop_last()[i],
                max,
            ).len() && scene_parts(scenes.drop_last()[i], max)[j] == front[k];
        assert(scenes.drop_last()[i] == scenes[i]);
        assert(scene_parts(scenes[i], max)[j] == all_parts(scenes, max)[k]);
    } else {
        assert(scene_parts(scenes[n], max)[k - front.len()] == all_parts(scenes, max)[k]);
    }
}

/// A scene that is cut keeps its first frame as one of a chunk, and no chunk reaches from one
/// scene into another. A scene that is not too long stays whole.
pub proof fn law_splits_respect_scenes(scenes: Seq<SceneEntry>, max: int)
    requires
        1 <= max,
        forall|i: int| 0 <= i < scenes.len() ==> countable(#[trigger] scenes[i]),
    ensures
        ({
            let out = entries_of(all_parts(scenes, max));
            &&& forall|i: int|
                0 <= i < scenes.len() ==> starts_a_chunk(
                    out,
                    (#[trigger] scenes[i]).start_frame as int,
                )
            &&& forall|k: int|
                0 <= k < out.len() ==> exists|i: int|
                    0 <= i < scenes.len() && (#[trigger] scenes[i]).start_frame <= (
                    #[trigger] out[k]).start_frame && out[k].end_frame <= scenes[i].end_frame
            &&& forall|i: int|
                0 <= i < scenes.len() && scene_len(#[trigger] scenes[i]) <= max ==> exists|k: int|
                    0 <= k < out.len() && (#[trigger] out[k]).start_frame == scenes[i].start_frame
                        && out[k].end_frame == scenes[i].end_frame
        }),
{
    let parts = all_parts(scenes, max);
    let out = entries_of(parts);
    assert forall|i: int| 0 <= i < scenes.len() implies starts_a_chunk(
        out,
        (#[trigger] scenes[i]).start_frame as int,
    ) by {
        let s = scenes[i];
        lemma_part_count(scene_len(s), max);
        lemma_part_start(s.start_frame as int, scene_len(s), part_count(scene_len(s), max), 0);
        lemma_parts_of_scene(scenes, max, i, 0);
        let k = choose|k: int| 0 <= k < parts.len() && #[trigger] parts[k] == scene_parts(s, max)[0];
        assert(out[k].start_frame == s.start_frame);
    }
    assert forall|k: int| 0 <= k < out.len() implies exists|i: int|
        0 <= i < scenes.len() && (#[trigger] scenes[i]).start_frame <= (
        #[trigger] out[k]).start_frame && out[k].end_frame <= scenes[i].end_frame by {
        lemma_scene_of_part(scenes, max, k);
        let (i, j) = choose|i: int, j: int|
            #![trigger scene_parts(scenes[i], max)[j]]
            0 <= i < scenes.len() && 0 <= j < scene_parts(scenes[i], max).len() && scene_parts(
                scenes[i],
                max,
            )[j] == parts[k];
        assert(countable(scenes[i]));
        lemma_part_len(scenes[i], max, j);
        assert(scenes[i].start_frame <= out[k].start_frame);
    }
    assert forall|i: int|
        0 <= i < scenes.len() && scene_len(#[trigger] scenes[i]) <= max implies exists|k: int|
        0 <= k < out.len() && (#[trigger] out[k]).start_frame == scenes[i].start_frame
            && out[k].end_frame == scenes[i].end_frame by {
        let s = scenes[i];
        assert(countable(s));
        lemma_part_start(s.start_frame as int, scene_len(s), 1, 0);
        lemma_parts_of_scene(scenes, max, i, 0);
        let k = choose|k: int| 0 <= k < parts.len() && #[trigger] parts[k] == scene_parts(s, max)[0];
        assert(out[k].start_frame == s.start_frame && out[k].end_frame == s.end_frame);
    }
}

/// A scene is cut into as few parts as keep each within the maximum, and into even ones: their
/// lengths differ by one frame at most, and a longer one never follows a shorter one.
pub proof fn law_long_scenes_are_cut_evenly(s: SceneEntry, max: int, i: int, j: int)
    requires
        1 <= max,
        countable(s),
        0 <= i <= j < entries_of(all_parts(seq![s], max)).len(),
    ensures
        ({
            let parts = entries_of(all_parts(seq![s], max));
            &&& scene_len(parts[j]) <= scene_len(parts[i]) <= scene_len(parts[j]) + 1
            &&& (parts.len() - 1) * max < scene_len(s)
            &&& covers(parts, s.start_frame as int, s.end_frame + 1)
        }),
{
    let one = seq![s];
    assert(one.drop_last() =~= Seq::empty());
    let parts = scene_parts(s, max);
    assert(all_parts(one.drop_last(), max) =~= Seq::empty());
    assert(all_parts(one, max) =~= parts);
    let (len, n) = (scene_len(s), part_count(scene_len(s), max));
    lemma_part_count(len, max);
    lemma_part_start(s.start_frame as int, len, n, i);
    lemma_part_start(s.start_frame as int, len, n, j);
    lemma_part_len(s, max, i);
    lemma_part_len(s, max, j);
    law_split_covers_the_same(one, max, s.start_frame as int, s.end_frame + 1);
    if len > max {
        vstd::arithmetic::div_mod::lemma_fundamental_div_mod(len + max - 1, max);
        vstd::arithmetic::div_mod::lemma_mod_bound(len + max - 1, max);
        assert((n - 1) * max == max * n - max) by (nonlinear_arith);
    } else {
        assert((n - 1) * max == 0) by (nonlinear_arith)
            requires
                n == 1,
        ;
    }
}

/// The chunk list of a video, from what the detector found: at least one frame, and no chunk
/// longer than the maximum where there is one.
pub open spec fn chunks_of(scene_changes: Seq<usize>, frame_count: nat, max: Option<usize>) -> Seq<
    SceneEntry,
> {
    let scenes = scene_entries(
        scene_changes,
        if frame_count == 0 {
            1
        } else {
            frame_count
        },
    );
    match max {
        Some(max) => entries_of(all_parts(scenes, max as int)),
        None => scenes,
    }
}

/// What becomes of the detector's result.
pub fn chunk_list(scene_changes: &[usize], frame_count: usize, max: Option<usize>) -> (out: Vec<
    SceneEntry,
>)
    requires
        max is Some ==> max->0 > 0 && forall|i: int|
            0 <= i < chunks_of(scene_changes@, frame_count as nat, None).len() ==> countable(
                #[trigger] chunks_of(scene_changes@, frame_count as nat, None)[i],
            ),
    ensures
        out@ == chunks_of(scene_changes@, frame_count as nat, max),
{
    let total: usize = if frame_count == 0 {
        1
    } else {
        frame_count
    };
    let scenes = build_scene_entries(scene_changes, total);
    let ghost all = chunks_of(scene_changes@, frame_count as nat, None);
    assert(scenes@ == all);
    assert(max is Some ==> forall|i: int|
        0 <= i < scenes@.len() ==> countable(#[trigger] scenes@[i])) by {
        if max is Some {
            assert forall|i: int| 0 <= i < scenes@.len() implies countable(#[trigger] scenes@[i]) by {
                assert(countable(all[i]));
            }
        }
    }
    match max {
        Some(max) => apply_extra_split(scenes, max),
        None => scenes,
    }
}

/// Cuts in order make a chunk list that covers every frame once, with or without a maximum
/// length, and no chunk is longer than that.
pub proof fn law_chunks_cover_the_video(
    scene_changes: Seq<usize>,
    frame_count: nat,
    max: Option<usize>,
)
    requires
        0 < frame_count <= usize::MAX,
        max is Some ==> max->0 > 0,
        forall|i: int, j: int|
            #![trigger scene_changes[i], scene_changes[j]]
            0 <= i < j < scene_changes.len() ==> scene_changes[i] < scene_changes[j],
        forall|i: int| 0 <= i < scene_changes.len() ==> #[trigger] scene_changes[i] < frame_count,
    ensures
        covers(chunks_of(scene_changes, frame_count, max), 0, frame_count as int),
        max is Some ==> forall|k: int|
            0 <= k < chunks_of(scene_changes, frame_count, max).len() ==> scene_len(
                #[trigger] chunks_of(scene_changes, frame_count, max)[k],
            ) <= max->0,
{
    law_scenes_cover_the_video(scene_changes, frame_count);
    if let Some(m) = max {
        let scenes = scene_entries(scene_changes, frame_count);
        assert forall|i: int| 0 <= i < scenes.len() implies countable(#[trigger] scenes[i]) by {
            lemma_inside(scenes, 0, frame_count as int, i);
        }
        law_split_covers_the_same(scenes, m as int, 0, frame_count as int);
    }
}

/// Every cut starts a chunk, with or without a maximum length. Without one nothing but the
/// first frame and the cuts does.
pub proof fn law_every_cut_starts_a_chunk(
    scene_changes: Seq<usize>,
    frame_count: nat,
    max: Option<usize>,
)
    requires
        0 < frame_count <= usize::MAX,
        max is Some ==> max->0 > 0,
        forall|i: int, j: int|
            #![trigger scene_changes[i], scene_changes[j]]
            0 <= i < j < scene_changes.len() ==> scene_changes[i] < scene_changes[j],
        forall|i: int| 0 <= i < scene_changes.len() ==> #[trigger] scene_changes[i] < frame_count,
    ensures
        ({
            let chunks = chunks_of(scene_changes, frame_count, max);
            &&& starts_a_chunk(chunks, 0)
            &&& forall|i: int|
                0 <= i < scene_changes.len() ==> starts_a_chunk(
                    chunks,
                    #[trigger] scene_changes[i] as int,
                )
            &&& max is None ==> forall|k: int|
                0 <= k < chunks.len() ==> (#[trigger] chunks[k]).start_frame == 0 || exists|i: int|
                    0 <= i < scene_changes.len() && #[trigger] scene_changes[i]
                        == chunks[k].start_frame
        }),
{
    law_every_cut_starts_a_scene(scene_changes, frame_count);
    if let Some(m) = max {
        let scenes = scene_entries(scene_changes, frame_count);
        let chunks = chunks_of(scene_changes, frame_count, max);
        law_scenes_cover_the_video(scene_changes, frame_count);
        assert forall|i: int| 0 <= i < scenes.len() implies countable(#[trigger] scenes[i]) by {
            lemma_inside(scenes, 0, frame_count as int, i);
        }
        law_splits_respect_scenes(scenes, m as int);
        assert forall|f: int| #[trigger] starts_a_chunk(scenes, f) implies starts_a_chunk(
            chunks,
            f,
        ) by {
            let k = choose|k: int| 0 <= k < scenes.len() && (#[trigger] scenes[k]).start_frame == f;
            assert(starts_a_chunk(chunks, scenes[k].start_frame as int));
        }
    }
}

/// A chunk of a list that covers a range lies inside that range.
pub proof fn lemma_inside(scenes: Seq<SceneEntry>, from: int, to: int, i: int)
    requires
        covers(scenes, from, to),
        0 <= i < scenes.len(),
    ensures
        from <= scenes[i].start_frame <= scenes[i].end_frame < to,
    decreases scenes.len(),
{
    if scenes.len() > 1 {
        let front = scenes.drop_last();
        let mid = front.last().end_frame + 1;
        let n = scenes.len() as int;
        assert(scenes[n - 1].start_frame == scenes[n - 2].end_frame + 1);
        assert forall|j: int, k: int|
            #![trigger front[j], front[k]]
            0 <= j && k == j + 1 && k < front.len() implies front[k].start_frame
            == front[j].end_frame + 1 by {
            assert(scenes[k].start_frame == scenes[j].end_frame + 1);
        }
        assert forall|j: int| 0 <= j < front.len() implies (#[trigger] front[j]).start_frame
            <= front[j].end_frame by {
            assert(scenes[j].start_frame <= scenes[j].end_frame);
        }
        assert(scenes[n - 1].start_frame <= scenes[n - 1].end_frame);
        lemma_inside(front, from, mid as int, if i < n - 1 {
            i
        } else {
            n - 2
        });
    } else {
        assert(scenes[0].start_frame <= scenes[0].end_frame);
    }
}

/// Why there is no chunk list.
#[derive(Clone, Copy, Debug, PartialEq, Eq, Structural)]
pub enum DetectionFailure {
    /// The detector gave up.
    Detector,
    /// The decoder failed, which reaches the detector as a clean end of input.
    Decoder,
}

/// The chunk list, once the detector and its decoder have ended: `found` is what the detector
/// returned, the cuts and the number of frames.
pub fn detected(found: Option<(Vec<usize>, usize)>, decoder_ok: bool, max: Option<usize>) -> (r:
    Result<Vec<SceneEntry>, DetectionFailure>)
    requires
        max is Some ==> max->0 > 0,
        found is Some && max is Some ==> forall|i: int|
            0 <= i < chunks_of((found->0).0@, (found->0).1 as nat, None).len() ==> countable(
                #[trigger] chunks_of((found->0).0@, (found->0).1 as nat, None)[i],
            ),
    ensures
        match (found, r) {
            (None, r) => r == Err::<Vec<SceneEntry>, _>(DetectionFailure::Detector),
            (Some(_), Err(e)) => !decoder_ok && e == DetectionFailure::Decoder,
            (Some((cuts, frames)), Ok(list)) => decoder_ok && list@ == chunks_of(
                cuts@,
                frames as nat,
                max,
            ),
        },
{
    match found {
        None => Err(DetectionFailure::Detector),
        Some((cuts, frames)) => {
            if !decoder_ok {
                return Err(DetectionFailure::Decoder);
            }
            Ok(chunk_list(cuts.as_slice(), frames, max))
        },
    }
}

} // verus!
