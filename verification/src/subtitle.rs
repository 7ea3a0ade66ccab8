//! Which subtitle tracks the output gets, and from where.
use crate::config::{language_kept, language_selected, SubtitleConfig, SubtitleMode};
use crate::text::{as_text, has_prefix, outline, same, str_of, strings, text_of, to_chars};
use vstd::prelude::*;
use vstd::string::*;

verus! {

/// Where a subtitle stream is taken from.
#[derive(Debug, PartialEq)]
pub enum Route {
    /// ffmpeg extracts it, converting it to this codec.
    ExtractWithFfmpeg(Option<&'static str>),
    /// mkvmerge takes it from the source itself.
    FromSourceWithMkvmerge,
}

/// The codecs that ffmpeg writes into Matroska as they are.
pub open spec fn matroska_subtitle(codec: Seq<char>) -> bool {
    ||| codec == "subrip"@
    ||| codec == "text"@
    ||| codec == "ass"@
    ||| codec == "webvtt"@
    ||| codec == "dvd_subtitle"@
    ||| codec == "dvb_subtitle"@
    ||| codec == "hdmv_pgs_subtitle"@
    ||| codec == "hdmv_text_subtitle"@
    ||| codec == "arib_caption"@
}

/// Whether a stream of this codec goes through ffmpeg.
pub open spec fn extracted(codec: Seq<char>) -> bool {
    matroska_subtitle(codec) || codec == "mov_text"@
}

/// The codec that an extracted stream is converted to.
pub open spec fn converted(codec: Seq<char>) -> Option<Seq<char>> {
    if matroska_subtitle(codec) {
        None
    } else {
        Some("srt"@)
    }
}

/// Text of MP4 becomes SRT, what Matroska has a codec ID for stays as it is, and the rest is
/// left to mkvmerge.
pub fn route(codec: &str) -> (r: Route)
    ensures
        match r {
            Route::ExtractWithFfmpeg(convert) => extracted(codec@) && str_of(convert) == converted(
                codec@,
            ),
            Route::FromSourceWithMkvmerge => !extracted(codec@),
        },
{
    if same(codec, "subrip") || same(codec, "text") || same(codec, "ass") || same(codec, "webvtt")
        || same(codec, "dvd_subtitle") || same(codec, "dvb_subtitle") || same(
        codec,
        "hdmv_pgs_subtitle",
    ) || same(codec, "hdmv_text_subtitle") || same(codec, "arib_caption") {
        Route::ExtractWithFfmpeg(None)
    } else if same(codec, "mov_text") {
        Route::ExtractWithFfmpeg(Some("srt"))
    } else {
        Route::FromSourceWithMkvmerge
    }
}

// ---------------------------------------------------------------------------
// Track numbers
// ---------------------------------------------------------------------------
/// The value of a hexadecimal digit.
pub open spec fn hex_digit(c: char) -> Option<nat> {
    if '0' <= c <= '9' {
        Some((c as nat - 48) as nat)
    } else if 'a' <= c <= 'f' {
        Some((c as nat - 87) as nat)
    } else if 'A' <= c <= 'F' {
        Some((c as nat - 55) as nat)
    } else {
        None
    }
}

fn read_hex_digit(c: char) -> (r: Option<u64>)
    ensures
        match r {
            Some(d) => hex_digit(c) == Some(d as nat) && d < 16,
            None => hex_digit(c) is None,
        },
{
    if '0' <= c && c <= '9' {
        Some((c as u32 - 48) as u64)
    } else if 'a' <= c && c <= 'f' {
        Some((c as u32 - 87) as u64)
    } else if 'A' <= c && c <= 'F' {
        Some((c as u32 - 55) as u64)
    } else {
        None
    }
}

/// The value of hexadecimal digits.
pub open spec fn hex_value(s: Seq<char>) -> Option<nat>
    decreases s.len(),
{
    if s.len() == 0 {
        Some(0)
    } else {
        match (hex_value(s.drop_last()), hex_digit(s.last())) {
            (Some(v), Some(d)) => Some(16 * v + d),
            _ => None,
        }
    }
}

/// Text without the `0x` in front of it, however often it is there.
pub open spec fn without_0x(s: Seq<char>) -> Seq<char>
    decreases s.len(),
{
    if has_prefix(s, seq!['0', 'x']) {
        without_0x(s.subrange(2, s.len() as int))
    } else {
        s
    }
}

/// Text without one sign in front of it.
pub open spec fn without_plus(s: Seq<char>) -> Seq<char> {
    if s.len() > 0 && s[0] == '+' {
        s.drop_first()
    } else {
        s
    }
}

/// The track number that a stream id gives, where it fits into 64 bits.
pub open spec fn track_number(id: Seq<char>) -> Option<nat> {
    let digits = without_plus(without_0x(id));
    if digits.len() == 0 {
        None
    } else {
        match hex_value(digits) {
            Some(v) => if v <= u64::MAX {
                Some(v)
            } else {
                None
            },
            None => None,
        }
    }
}

proof fn lemma_hex_prefix(s: Seq<char>, n: int)
    requires
        0 <= n <= s.len(),
        hex_value(s) is Some,
    ensures
        match hex_value(s.subrange(0, n)) {
            Some(v) => v <= hex_value(s)->0,
            None => false,
        },
    decreases s.len(),
{
    if n == s.len() {
        assert(s.subrange(0, n) =~= s);
    } else {
        lemma_hex_prefix(s.drop_last(), n);
        assert(s.drop_last().subrange(0, n) =~= s.subrange(0, n));
    }
}

fn parse_hex(s: &[char], from: usize) -> (r: Option<u64>)
    requires
        from <= s@.len(),
    ensures
        ({
            let digits = s@.subrange(from as int, s@.len() as int);
            match r {
                Some(v) => digits.len() > 0 && hex_value(digits) == Some(v as nat),
                None => digits.len() == 0 || hex_value(digits) is None || hex_value(digits)->0
                    > u64::MAX,
            }
        }),
{
    let ghost digits = s@.subrange(from as int, s@.len() as int);
    let len: usize = s.len();
    if from == len {
        return None;
    }
    let mut v: u64 = 0;
    let mut i: usize = from;
    assert(digits.subrange(0, 0) =~= Seq::empty());
    while i < len
        invariant
            from <= i <= len,
            len == s@.len(),
            digits == s@.subrange(from as int, s@.len() as int),
            hex_value(digits.subrange(0, i - from)) == Some(v as nat),
        decreases len - i,
    {
        proof {
            let now = digits.subrange(0, i + 1 - from);
            assert(now.drop_last() =~= digits.subrange(0, i - from));
            assert(now.last() == s@[i as int]);
            if hex_value(digits) is Some {
                lemma_hex_prefix(digits, i + 1 - from);
            }
        }
        let d: u64 = match read_hex_digit(s[i]) {
            Some(d) => d,
            None => {
                return None;
            },
        };
        if v > 0x0fff_ffff_ffff_ffff {
            return None;
        }
        v = 16 * v + d;
        i = i + 1;
    }
    assert(digits.subrange(0, i - from) =~= digits);
    Some(v)
}

/// Reads the track number out of a stream id such as `0x4`.
pub fn parse_track_number(id: &str) -> (r: Option<u64>)
    ensures
        match r {
            Some(n) => track_number(id@) == Some(n as nat),
            None => track_number(id@) is None,
        },
{
    let s = to_chars(id);
    let len: usize = s.len();
    let mut from: usize = 0;
    assert(s@.subrange(0, s@.len() as int) =~= s@);
    while len - from >= 2 && s[from] == '0' && s[from + 1] == 'x'
        invariant
            from <= len,
            len == s@.len(),
            without_0x(s@) == without_0x(s@.subrange(from as int, len as int)),
        decreases len - from,
    {
        proof {
            let rest = s@.subrange(from as int, len as int);
            assert(rest.subrange(0, 2) =~= seq!['0', 'x']);
            assert(rest.subrange(2, rest.len() as int) =~= s@.subrange(from + 2, len as int));
        }
        from = from + 2;
    }
    proof {
        let rest = s@.subrange(from as int, len as int);
        if has_prefix(rest, seq!['0', 'x']) {
            assert(rest.subrange(0, 2)[0] == '0' && rest.subrange(0, 2)[1] == 'x');
            assert(s@[from as int] == '0' && s@[from + 1] == 'x');
        }
    }
    if from < len && s[from] == '+' {
        assert(s@.subrange(from as int, len as int).drop_first() =~= s@.subrange(
            from + 1,
            len as int,
        ));
        parse_hex(s.as_slice(), from + 1)
    } else {
        parse_hex(s.as_slice(), from)
    }
}

/// A subtitle track as mkvmerge lists it: its id, its track number and its language.
pub type Track = (u64, Option<u64>, Option<String>);

/// A track of whichever type as mkvmerge lists it.
#[derive(Debug)]
pub struct IdentifiedTrack {
    pub id: u64,
    pub track_type: String,
    pub number: Option<u64>,
    pub language: Option<String>,
}

/// What a list of subtitle tracks says.
pub open spec fn track_views(tracks: Seq<Track>) -> Seq<(u64, Option<u64>, Option<Seq<char>>)> {
    Seq::new(tracks.len(), |i: int| (tracks[i].0, tracks[i].1, text_of(tracks[i].2)))
}

/// The subtitles among tracks, in the order that they are listed in.
pub open spec fn subtitle_tracks(tracks: Seq<IdentifiedTrack>) -> Seq<
    (u64, Option<u64>, Option<Seq<char>>),
>
    decreases tracks.len(),
{
    if tracks.len() == 0 {
        Seq::empty()
    } else {
        let before = subtitle_tracks(tracks.drop_last());
        let last = tracks.last();
        if last.track_type@ == "subtitles"@ {
            before.push((last.id, last.number, text_of(last.language)))
        } else {
            before
        }
    }
}

/// The subtitles among the tracks of a source.
pub fn identify_subtitles(tracks: &[IdentifiedTrack]) -> (out: Vec<Track>)
    ensures
        track_views(out@) == subtitle_tracks(tracks@),
{
    let mut out: Vec<Track> = Vec::new();
    let mut i: usize = 0;
    assert(tracks@.subrange(0, 0) =~= Seq::empty());
    assert(track_views(out@) =~= Seq::empty());
    while i < tracks.len()
        invariant
            i <= tracks@.len(),
            track_views(out@) == subtitle_tracks(tracks@.subrange(0, i as int)),
        decreases tracks@.len() - i,
    {
        assert(tracks@.subrange(0, i + 1).drop_last() =~= tracks@.subrange(0, i as int));
        let t = &tracks[i];
        if same(t.track_type.as_str(), "subtitles") {
            let ghost before = track_views(out@);
            let language = match &t.language {
                Some(l) => Some(l.clone()),
                None => None,
            };
            out.push((t.id, t.number, language));
            assert(track_views(out@) =~= before.push((t.id, t.number, text_of(t.language))));
        }
        i = i + 1;
    }
    assert(tracks@.subrange(0, i as int) =~= tracks@);
    out
}

/// The places of the tracks among the first `n` that carry a track number.
pub open spec fn numbered_tracks(tracks: Seq<Track>, number: nat, n: nat) -> Seq<int>
    decreases n,
{
    if n == 0 {
        Seq::empty()
    } else {
        let before = numbered_tracks(tracks, number, (n - 1) as nat);
        match tracks[n - 1].1 {
            Some(found) => if found == number {
                before.push(n - 1)
            } else {
                before
            },
            None => before,
        }
    }
}

/// The places of the tracks of a stream: those with its track number where it has one, else
/// the one at its place.
pub open spec fn matched_tracks(tracks: Seq<Track>, index: nat, id: Option<Seq<char>>) -> Seq<int> {
    let number = match id {
        Some(id) => track_number(id),
        None => None,
    };
    match number {
        Some(number) => numbered_tracks(tracks, number, tracks.len()),
        None => if index < tracks.len() {
            seq![index as int]
        } else {
            Seq::empty()
        },
    }
}

/// By mkvmerge's track number where ffprobe reports one. The matroska demuxer does not, so
/// there the n-th subtitle stream is the n-th subtitle track.
pub fn match_track<'a>(tracks: &'a [Track], index: usize, id: Option<&str>) -> (out: Vec<&'a Track>)
    ensures
        ({
            let places = matched_tracks(tracks@, index as nat, str_of(id));
            &&& out@.len() == places.len()
            &&& forall|k: int|
                0 <= k < places.len() ==> 0 <= #[trigger] places[k] < tracks@.len() && *out@[k]
                    == tracks@[places[k]]
        }),
{
    let number = match id {
        Some(id) => parse_track_number(id),
        None => None,
    };
    let mut out: Vec<&'a Track> = Vec::new();
    let number = match number {
        Some(number) => number,
        None => {
            if index < tracks.len() {
                out.push(&tracks[index]);
            }
            return out;
        },
    };
    let mut i: usize = 0;
    while i < tracks.len()
        invariant
            i <= tracks@.len(),
            out@.len() == numbered_tracks(tracks@, number as nat, i as nat).len(),
            forall|k: int|
                0 <= k < out@.len() ==> 0 <= #[trigger] numbered_tracks(
                    tracks@,
                    number as nat,
                    i as nat,
                )[k] < tracks@.len() && *out@[k] == tracks@[numbered_tracks(
                    tracks@,
                    number as nat,
                    i as nat,
                )[k]],
        decreases tracks@.len() - i,
    {
        let ghost before = numbered_tracks(tracks@, number as nat, i as nat);
        let hit = match tracks[i].1 {
            Some(found) => found == number,
            None => false,
        };
        if hit {
            out.push(&tracks[i]);
        }
        i = i + 1;
        proof {
            let now = numbered_tracks(tracks@, number as nat, i as nat);
            assert(now == if hit {
                before.push(i - 1)
            } else {
                before
            });
            assert forall|k: int| 0 <= k < out@.len() implies 0 <= #[trigger] now[k]
                < tracks@.len() && *out@[k] == tracks@[now[k]] by {
                if k < before.len() {
                    assert(now[k] == before[k]);
                }
            }
        }
    }
    out
}

// ---------------------------------------------------------------------------
// The plan
// ---------------------------------------------------------------------------
/// A subtitle stream as ffprobe reports it.
#[derive(Debug)]
pub struct Stream {
    pub id: Option<String>,
    pub codec_name: Option<String>,
    pub language: Option<String>,
}

/// Which streams ffmpeg extracts, with the codec that each is converted to, and which
/// tracks of the source mkvmerge takes.
#[derive(Debug)]
pub struct SubtitlePlan {
    pub extract: Vec<(usize, Option<&'static str>)>,
    pub from_source: Vec<u64>,
}

pub open spec fn codec_of(s: Stream) -> Seq<char> {
    match s.codec_name {
        Some(c) => c@,
        None => "unknown"@,
    }
}

/// The streams among the first `n` that ffmpeg extracts.
pub open spec fn planned_extract(streams: Seq<Stream>, whitelist: Seq<Seq<char>>, n: nat) -> Seq<
    (int, Option<Seq<char>>),
>
    decreases n,
{
    if n == 0 {
        Seq::empty()
    } else {
        let before = planned_extract(streams, whitelist, (n - 1) as nat);
        let s = streams[n - 1];
        if extracted(codec_of(s)) && language_kept(whitelist, text_of(s.language)) {
            before.push((n - 1, converted(codec_of(s))))
        } else {
            before
        }
    }
}

/// The ids of the tracks at the first `n` of these places whose language is kept.
pub open spec fn kept_ids(
    tracks: Seq<Track>,
    places: Seq<int>,
    whitelist: Seq<Seq<char>>,
    n: nat,
) -> Seq<u64>
    decreases n,
{
    if n == 0 {
        Seq::empty()
    } else {
        let before = kept_ids(tracks, places, whitelist, (n - 1) as nat);
        let track = tracks[places[n - 1]];
        if language_kept(whitelist, text_of(track.2)) {
            before.push(track.0)
        } else {
            before
        }
    }
}

/// The tracks that mkvmerge takes for the first `n` streams.
pub open spec fn planned_from_source(
    streams: Seq<Stream>,
    tracks: Seq<Track>,
    whitelist: Seq<Seq<char>>,
    n: nat,
) -> Seq<u64>
    decreases n,
{
    if n == 0 {
        Seq::empty()
    } else {
        let before = planned_from_source(streams, tracks, whitelist, (n - 1) as nat);
        let s = streams[n - 1];
        if extracted(codec_of(s)) {
            before
        } else {
            let places = matched_tracks(tracks, (n - 1) as nat, text_of(s.id));
            before + kept_ids(tracks, places, whitelist, places.len())
        }
    }
}

pub open spec fn extract_view(v: Seq<(usize, Option<&'static str>)>) -> Seq<
    (int, Option<Seq<char>>),
> {
    Seq::new(v.len(), |i: int| (v[i].0 as int, str_of(v[i].1)))
}

fn stream_route(s: &Stream) -> (r: Route)
    ensures
        match r {
            Route::ExtractWithFfmpeg(convert) => extracted(codec_of(*s)) && str_of(convert)
                == converted(codec_of(*s)),
            Route::FromSourceWithMkvmerge => !extracted(codec_of(*s)),
        },
{
    match &s.codec_name {
        Some(c) => route(c.as_str()),
        None => route("unknown"),
    }
}

/// Whether the plan depends on what mkvmerge lists: a stream goes past ffmpeg.
pub fn needs_tracks(streams: &[Stream], config: &SubtitleConfig) -> (r: bool)
    ensures
        r == (config.mode == SubtitleMode::Copy && exists|i: int|
            0 <= i < streams@.len() && !extracted(codec_of(#[trigger] streams@[i]))),
{
    if config.mode == SubtitleMode::Strip {
        return false;
    }
    let mut i: usize = 0;
    while i < streams.len()
        invariant
            i <= streams@.len(),
            config.mode == SubtitleMode::Copy,
            forall|k: int| 0 <= k < i ==> extracted(codec_of(#[trigger] streams@[k])),
        decreases streams@.len() - i,
    {
        match stream_route(&streams[i]) {
            Route::FromSourceWithMkvmerge => {
                assert(!extracted(codec_of(streams@[i as int])));
                return true;
            },
            Route::ExtractWithFfmpeg(_) => {},
        }
        i = i + 1;
    }
    false
}

fn push_kept(out: &mut Vec<u64>, tracks: &[Track], index: usize, s: &Stream, whitelist: &[String])
    ensures
        ({
            let places = matched_tracks(tracks@, index as nat, text_of(s.id));
            final(out)@ == old(out)@ + kept_ids(
                tracks@,
                places,
                strings(whitelist@),
                places.len(),
            )
        }),
{
    let ghost before = out@;
    let ghost list = strings(whitelist@);
    let ghost places = matched_tracks(tracks@, index as nat, text_of(s.id));
    let matched = match_track(tracks, index, as_text(&s.id));
    let mut i: usize = 0;
    assert(out@ =~= before + kept_ids(tracks@, places, list, 0));
    while i < matched.len()
        invariant
            i <= matched@.len(),
            matched@.len() == places.len(),
            list == strings(whitelist@),
            forall|k: int|
                0 <= k < places.len() ==> 0 <= #[trigger] places[k] < tracks@.len() && *matched@[k]
                    == tracks@[places[k]],
            out@ == before + kept_ids(tracks@, places, list, i as nat),
        decreases matched@.len() - i,
    {
        let track = matched[i];
        assert(*track == tracks@[places[i as int]]);
        if language_selected(whitelist, as_text(&track.2)) {
            out.push(track.0);
        }
        i = i + 1;
        assert(out@ =~= before + kept_ids(tracks@, places, list, i as nat));
    }
}

/// The subtitles of the output. `tracks` is what mkvmerge lists of the source.
pub fn plan(streams: &[Stream], tracks: &[Track], config: &SubtitleConfig) -> (p: SubtitlePlan)
    ensures
        config.mode == SubtitleMode::Strip ==> p.extract@.len() == 0 && p.from_source@.len() == 0,
        config.mode == SubtitleMode::Copy ==> {
            let list = strings(config.language_whitelist@);
            &&& extract_view(p.extract@) == planned_extract(streams@, list, streams@.len())
            &&& p.from_source@ == planned_from_source(streams@, tracks@, list, streams@.len())
        },
{
    let mut extract: Vec<(usize, Option<&'static str>)> = Vec::new();
    let mut from_source: Vec<u64> = Vec::new();
    if config.mode == SubtitleMode::Strip {
        return SubtitlePlan { extract, from_source };
    }
    let whitelist = config.language_whitelist.as_slice();
    let ghost list = strings(whitelist@);
    let mut i: usize = 0;
    assert(extract_view(extract@) =~= planned_extract(streams@, list, 0));
    while i < streams.len()
        invariant
            i <= streams@.len(),
            list == strings(whitelist@),
            extract_view(extract@) == planned_extract(streams@, list, i as nat),
            from_source@ == planned_from_source(streams@, tracks@, list, i as nat),
        decreases streams@.len() - i,
    {
        let s = &streams[i];
        let ghost before = extract_view(extract@);
        match stream_route(s) {
            Route::ExtractWithFfmpeg(convert) => {
                if language_selected(whitelist, as_text(&s.language)) {
                    extract.push((i, convert));
                    assert(extract_view(extract@) =~= before.push((i as int, str_of(convert))));
                }
            },
            Route::FromSourceWithMkvmerge => {
                push_kept(&mut from_source, tracks, i, s, whitelist);
            },
        }
        i = i + 1;
    }
    SubtitlePlan { extract, from_source }
}

// ---------------------------------------------------------------------------
// What holds of every plan
// ---------------------------------------------------------------------------
/// ffmpeg extracts, in the order of the source, exactly the streams that Matroska takes from
/// it and whose language is kept, each by its own place; text of MP4 is the only one that is
/// converted, to SRT.
pub proof fn law_kept_streams_are_extracted(streams: Seq<Stream>, whitelist: Seq<Seq<char>>, n: nat)
    requires
        n <= streams.len(),
    ensures
        ({
            let plan = planned_extract(streams, whitelist, n);
            &&& forall|k: int|
                0 <= k < plan.len() ==> {
                    let (i, convert) = #[trigger] plan[k];
                    &&& 0 <= i < n
                    &&& language_kept(whitelist, text_of(streams[i].language))
                    &&& matroska_subtitle(codec_of(streams[i])) || codec_of(streams[i])
                        == "mov_text"@
                    &&& convert == if matroska_subtitle(codec_of(streams[i])) {
                        None
                    } else {
                        Some("srt"@)
                    }
                }
            &&& forall|j: int, k: int|
                #![trigger plan[j], plan[k]]
                0 <= j < k < plan.len() ==> plan[j].0 < plan[k].0
            &&& forall|i: int|
                0 <= i < n && language_kept(whitelist, text_of((#[trigger] streams[i]).language))
                    && (matroska_subtitle(codec_of(streams[i])) || codec_of(streams[i])
                    == "mov_text"@) ==> exists|k: int|
                    0 <= k < plan.len() && (#[trigger] plan[k]).0 == i
        }),
    decreases n,
{
    if n > 0 {
        let m = (n - 1) as nat;
        law_kept_streams_are_extracted(streams, whitelist, m);
        let before = planned_extract(streams, whitelist, m);
        let plan = planned_extract(streams, whitelist, n);
        assert(forall|k: int| 0 <= k < before.len() ==> #[trigger] plan[k] == before[k]);
        assert forall|i: int|
            0 <= i < n && language_kept(whitelist, text_of((#[trigger] streams[i]).language)) && (
            matroska_subtitle(codec_of(streams[i])) || codec_of(streams[i])
                == "mov_text"@) implies exists|k: int|
            0 <= k < plan.len() && (#[trigger] plan[k]).0 == i by {
            if i < m {
                let k = choose|k: int| 0 <= k < before.len() && (#[trigger] before[k]).0 == i;
                assert(plan[k].0 == i);
            } else {
                assert(plan[before.len() as int].0 == i);
            }
        }
    }
}

/// A track is at one of these places among the first `n`, and its language is kept.
pub open spec fn kept_at(
    tracks: Seq<Track>,
    places: Seq<int>,
    whitelist: Seq<Seq<char>>,
    n: nat,
    id: u64,
) -> bool {
    exists|k: int|
        0 <= k < n && tracks[#[trigger] places[k]].0 == id && language_kept(
            whitelist,
            text_of(tracks[places[k]].2),
        )
}

proof fn lemma_kept_ids(tracks: Seq<Track>, places: Seq<int>, whitelist: Seq<Seq<char>>, n: nat)
    requires
        n <= places.len(),
    ensures
        forall|id: u64| #[trigger]
            kept_ids(tracks, places, whitelist, n).contains(id) <==> kept_at(
                tracks,
                places,
                whitelist,
                n,
                id,
            ),
    decreases n,
{
    if n > 0 {
        let m = (n - 1) as nat;
        lemma_kept_ids(tracks, places, whitelist, m);
        let before = kept_ids(tracks, places, whitelist, m);
        let all = kept_ids(tracks, places, whitelist, n);
        let track = tracks[places[n - 1]];
        assert forall|id: u64| #[trigger] all.contains(id) <==> kept_at(
            tracks,
            places,
            whitelist,
            n,
            id,
        ) by {
            if all.contains(id) {
                let k = choose|k: int| 0 <= k < all.len() && all[k] == id;
                if k < before.len() {
                    assert(before[k] == id);
                    assert(before.contains(id));
                    let j = choose|j: int|
                        0 <= j < m && tracks[#[trigger] places[j]].0 == id && language_kept(
                            whitelist,
                            text_of(tracks[places[j]].2),
                        );
                    assert(tracks[places[j]].0 == id);
                } else {
                    assert(tracks[places[n - 1]].0 == id);
                }
            }
            if kept_at(tracks, places, whitelist, n, id) {
                let j = choose|j: int|
                    0 <= j < n && tracks[#[trigger] places[j]].0 == id && language_kept(
                        whitelist,
                        text_of(tracks[places[j]].2),
                    );
                if j < m {
                    assert(kept_at(tracks, places, whitelist, m, id));
                    assert(before.contains(id));
                    let k = choose|k: int| 0 <= k < before.len() && before[k] == id;
                    assert(all[k] == id);
                } else {
                    assert(all[before.len() as int] == id);
                }
            }
        }
    } else {
        assert forall|id: u64| #[trigger]
            kept_ids(tracks, places, whitelist, n).contains(id) implies kept_at(
            tracks,
            places,
            whitelist,
            n,
            id,
        ) by {}
    }
}

/// A track of the source stands for a stream that goes past ffmpeg, and its language is kept.
pub open spec fn stands_for(
    streams: Seq<Stream>,
    tracks: Seq<Track>,
    whitelist: Seq<Seq<char>>,
    i: int,
    id: u64,
) -> bool {
    let places = matched_tracks(tracks, i as nat, text_of(streams[i].id));
    !extracted(codec_of(streams[i])) && kept_at(tracks, places, whitelist, places.len(), id)
}

/// mkvmerge takes from the source exactly the tracks that stand for a stream which ffmpeg
/// does not extract and whose language is kept.
pub proof fn law_other_streams_come_from_the_source(
    streams: Seq<Stream>,
    tracks: Seq<Track>,
    whitelist: Seq<Seq<char>>,
    n: nat,
    id: u64,
)
    requires
        n <= streams.len(),
    ensures
        planned_from_source(streams, tracks, whitelist, n).contains(id) <==> exists|i: int|
            0 <= i < n && #[trigger] stands_for(streams, tracks, whitelist, i, id),
    decreases n,
{
    let all = planned_from_source(streams, tracks, whitelist, n);
    if n > 0 {
        let m = (n - 1) as nat;
        law_other_streams_come_from_the_source(streams, tracks, whitelist, m, id);
        let before = planned_from_source(streams, tracks, whitelist, m);
        let s = streams[n - 1];
        let places = matched_tracks(tracks, m, text_of(s.id));
        let more = if extracted(codec_of(s)) {
            Seq::<u64>::empty()
        } else {
            kept_ids(tracks, places, whitelist, places.len())
        };
        lemma_kept_ids(tracks, places, whitelist, places.len());
        assert(all =~= before + more);
        if all.contains(id) {
            let k = choose|k: int| 0 <= k < all.len() && all[k] == id;
            if k < before.len() {
                assert(before[k] == id);
                assert(before.contains(id));
            } else {
                assert(more[k - before.len()] == id);
                assert(more.contains(id));
                assert(stands_for(streams, tracks, whitelist, n - 1, id));
            }
        }
        if exists|i: int| 0 <= i < n && #[trigger] stands_for(streams, tracks, whitelist, i, id) {
            let i = choose|i: int|
                0 <= i < n && #[trigger] stands_for(streams, tracks, whitelist, i, id);
            if i < m {
                let k = choose|k: int| 0 <= k < before.len() && before[k] == id;
                assert(all[k] == id);
            } else {
                assert(more.contains(id));
                let k = choose|k: int| 0 <= k < more.len() && more[k] == id;
                assert(all[before.len() + k] == id);
            }
        }
    }
}

/// A stream with a track number is matched by that alone, to every track that carries it. One
/// without is matched by its place.
pub proof fn law_streams_are_matched_by_number_or_place(
    tracks: Seq<Track>,
    index: nat,
    id: Option<Seq<char>>,
)
    ensures
        ({
            let places = matched_tracks(tracks, index, id);
            let number = if id is Some {
                track_number(id->0)
            } else {
                None
            };
            &&& forall|k: int|
                0 <= k < places.len() ==> 0 <= #[trigger] places[k] < tracks.len()
            &&& number matches Some(n) ==> (forall|i: int|
                0 <= i < tracks.len() ==> (places.contains(i) <==> (#[trigger] tracks[i]).1 is Some
                    && tracks[i].1->0 == n))
            &&& number is None ==> (forall|i: int|
                0 <= i < tracks.len() ==> (places.contains(i) <==> i == index))
        }),
{
    let places = matched_tracks(tracks, index, id);
    let number = if id is Some {
        track_number(id->0)
    } else {
        None
    };
    if let Some(n) = number {
        lemma_numbered_tracks(tracks, n, tracks.len());
    } else if index < tracks.len() {
        assert(places[0] == index);
    }
}

proof fn lemma_numbered_tracks(tracks: Seq<Track>, number: nat, n: nat)
    requires
        n <= tracks.len(),
    ensures
        ({
            let places = numbered_tracks(tracks, number, n);
            &&& forall|k: int| 0 <= k < places.len() ==> 0 <= #[trigger] places[k] < n
            &&& forall|i: int|
                0 <= i < n ==> (places.contains(i) <==> (#[trigger] tracks[i]).1 is Some
                    && tracks[i].1->0 == number)
        }),
    decreases n,
{
    if n > 0 {
        let m = (n - 1) as nat;
        lemma_numbered_tracks(tracks, number, m);
        let before = numbered_tracks(tracks, number, m);
        let places = numbered_tracks(tracks, number, n);
        assert forall|i: int| 0 <= i < n implies (places.contains(i) <==> (
        #[trigger] tracks[i]).1 is Some && tracks[i].1->0 == number) by {
            if places.contains(i) {
                let k = choose|k: int| 0 <= k < places.len() && places[k] == i;
                if k < before.len() {
                    assert(before[k] == i);
                    assert(before.contains(i));
                }
            }
            if tracks[i].1 is Some && tracks[i].1->0 == number {
                if i < m {
                    let k = choose|k: int| 0 <= k < before.len() && before[k] == i;
                    assert(places[k] == i);
                } else {
                    assert(places[before.len() as int] == i);
                }
            }
        }
    }
}

/// The subtitles among tracks are those of that type, in their order.
pub proof fn law_subtitles_are_the_tracks_of_their_type(tracks: Seq<IdentifiedTrack>)
    ensures
        ({
            let own = tracks.filter(|t: IdentifiedTrack| t.track_type@ == "subtitles"@);
            &&& subtitle_tracks(tracks).len() == own.len()
            &&& forall|k: int|
                0 <= k < own.len() ==> subtitle_tracks(tracks)[k] == (
                    (#[trigger] own[k]).id,
                    own[k].number,
                    text_of(own[k].language),
                )
        }),
    decreases tracks.len(),
{
    reveal(Seq::filter);
    if tracks.len() > 0 {
        law_subtitles_are_the_tracks_of_their_type(tracks.drop_last());
    }
}

/// The subtitle codecs that Matroska takes from ffmpeg as they are.
pub open spec fn stored_subtitles() -> Seq<Seq<char>> {
    seq![
        "subrip"@,
        "text"@,
        "ass"@,
        "webvtt"@,
        "dvd_subtitle"@,
        "dvb_subtitle"@,
        "hdmv_pgs_subtitle"@,
        "hdmv_text_subtitle"@,
        "arib_caption"@,
    ]
}

/// A subtitle stays as it is where its codec is one of these; text of MP4 becomes SRT, and any
/// other codec is left to mkvmerge.
pub proof fn law_subtitles_go_by_their_codec(codec: Seq<char>)
    ensures
        ({
            let stored = exists|i: int|
                0 <= i < stored_subtitles().len() && #[trigger] stored_subtitles()[i] == codec;
            &&& stored ==> extracted(codec) && converted(codec) is None
            &&& codec == "mov_text"@ ==> extracted(codec) && converted(codec) == Some("srt"@)
            &&& !stored && codec != "mov_text"@ ==> !extracted(codec)
        }),
{
    let all = stored_subtitles();
    assert(all[0] == "subrip"@);
    assert(all[1] == "text"@);
    assert(all[2] == "ass"@);
    assert(all[3] == "webvtt"@);
    assert(all[4] == "dvd_subtitle"@);
    assert(all[5] == "dvb_subtitle"@);
    assert(all[6] == "hdmv_pgs_subtitle"@);
    assert(all[7] == "hdmv_text_subtitle"@);
    assert(all[8] == "arib_caption"@);
    reveal_strlit("subrip");
    reveal_strlit("text");
    reveal_strlit("ass");
    reveal_strlit("webvtt");
    reveal_strlit("dvd_subtitle");
    reveal_strlit("dvb_subtitle");
    reveal_strlit("hdmv_pgs_subtitle");
    reveal_strlit("hdmv_text_subtitle");
    reveal_strlit("arib_caption");
    reveal_strlit("mov_text");
    assert(outline("subrip"@) == (6nat, 's', 'r', 'i', 'p'));
    assert(outline("text"@) == (4nat, 't', 'e', 'x', 't'));
    assert(outline("ass"@) == (3nat, 'a', 'a', 's', 's'));
    assert(outline("webvtt"@) == (6nat, 'w', 'v', 't', 't'));
    assert(outline("dvd_subtitle"@) == (12nat, 'd', 't', 'l', 'e'));
    assert(outline("dvb_subtitle"@) == (12nat, 'd', 't', 'l', 'e'));
    assert(outline("hdmv_pgs_subtitle"@) == (17nat, 'h', 't', 'l', 'e'));
    assert(outline("hdmv_text_subtitle"@) == (18nat, 'h', 't', 'l', 'e'));
    assert(outline("arib_caption"@) == (12nat, 'a', 'i', 'o', 'n'));
    assert(outline("mov_text"@) == (8nat, 'm', 'e', 'x', 't'));
}

} // verus!
