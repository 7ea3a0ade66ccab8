//! Which audio tracks the output gets and in which form, and how the pieces are put together.
use crate::config::{
    bitrate_for, language_kept, language_selected, layout_name, layout_of, layout_word,
    lossless_encoder, output_is_lossless, param_text, push_signed, resolved_bitrate,
    resolved_codec, resolved_mode, resolved_options, rule_for, signed_decimal, toml_value_to_arg,
    AudioConfig, AudioMode, ParamValue,
};
use crate::subtitle::extract_view;
use crate::text::{
    as_text, char_lists, contains, decimal, ends_with, find_from, first_at, from_chars, gives,
    has_prefix, has_suffix, is_digit, is_less, is_space, join, joined, law_decimal_round_trip,
    law_joined_parts_split_again, lemma_decimal_is_plain, lemma_gives_at, lemma_gives_joined,
    lemma_last_number, lemma_less_irreflexive, lemma_less_total, lemma_less_transitive,
    lemma_trim_end, lemma_trimmed, lemma_trimmed_whole, less, lines, occurs, outline,
    parse_unsigned, part, pieces, push_decimal, push_two, push_words, same, same_chars, split,
    split_lines, split_words, starts_with, str_of, strings, text_of, to_chars, trim, trim_back,
    trim_end, trimmed, unsigned, words, Separator,
};
use vstd::prelude::*;
use vstd::string::*;
use vstd::utf8::*;

verus! {

// ---------------------------------------------------------------------------
// Sets of names
// ---------------------------------------------------------------------------
/// A set of names; none occurs twice.
#[derive(Debug)]
pub struct NameSet {
    names: Vec<String>,
}

impl View for NameSet {
    type V = Set<Seq<char>>;

    closed spec fn view(&self) -> Set<Seq<char>> {
        strings(self.names@).to_set()
    }
}

impl NameSet {
    #[verifier::type_invariant]
    spec fn no_name_twice(self) -> bool {
        strings(self.names@).no_duplicates()
    }

    pub fn new() -> (s: NameSet)
        ensures
            s@ == Set::<Seq<char>>::empty(),
    {
        let names: Vec<String> = Vec::new();
        let s = NameSet { names };
        assert(strings(s.names@) =~= Seq::empty());
        assert(s@ =~= Set::<Seq<char>>::empty());
        s
    }

    pub fn contains(&self, name: &str) -> (r: bool)
        ensures
            r == self@.contains(name@),
    {
        crate::text::listed(self.names.as_slice(), name)
    }

    /// Adds a name that may be there already.
    pub fn insert(&mut self, name: String)
        ensures
            final(self)@ == old(self)@.insert(name@),
    {
        proof {
            use_type_invariant(&*self);
        }
        let ghost before = strings(self.names@);
        let ghost n = name@;
        if self.contains(name.as_str()) {
            assert(self@ =~= old(self)@.insert(n));
            return;
        }
        let mut names: Vec<String> = Vec::new();
        std::mem::swap(&mut names, &mut self.names);
        names.push(name);
        assert(strings(names@) =~= before.push(n));
        self.names = names;
        proof {
            let after = before.push(n);
            assert forall|x: Seq<char>| after.contains(x) <==> before.contains(x) || x == n by {
                if before.contains(x) {
                    let i = choose|i: int| 0 <= i < before.len() && before[i] == x;
                    assert(after[i] == x);
                }
                if x == n {
                    assert(after[before.len() as int] == x);
                }
            }
            assert(self@ =~= old(self)@.insert(n));
        }
    }
}

// ---------------------------------------------------------------------------
// What ffmpeg offers
// ---------------------------------------------------------------------------
/// The audio codecs that ffmpeg knows. Without a list of those it decodes, all count as
/// decodable.
#[derive(Debug)]
pub struct AudioCodecs {
    pub lossless: NameSet,
    pub decodable: Option<NameSet>,
}

/// A row of `ffmpeg -codecs` is about audio: the third of at least six flags is an A.
pub open spec fn audio_row(flags: Seq<u8>) -> bool {
    flags.len() >= 6 && flags[2] == 65
}

/// The names among rows whose flag at `at` is `letter`.
pub open spec fn flagged(rows: Seq<Seq<char>>, at: int, letter: u8) -> Set<Seq<char>>
    decreases rows.len(),
{
    if rows.len() == 0 {
        Set::empty()
    } else {
        let before = flagged(rows.drop_last(), at, letter);
        let w = words(rows.last());
        if w.len() >= 2 && audio_row(encode_utf8(w[0])) && encode_utf8(w[0])[at] == letter {
            before.insert(w[1])
        } else {
            before
        }
    }
}

/// Reads `ffmpeg -codecs`: the first flag is a D where it decodes, the third an A for audio,
/// the sixth an S where it is lossless.
pub fn parse_audio_codecs(stdout: &str) -> (c: AudioCodecs)
    ensures
        c.lossless@ == flagged(lines(stdout@), 5, 83),
        c.decodable is Some && c.decodable->0@ == flagged(lines(stdout@), 0, 68),
{
    let chars = to_chars(stdout);
    let rows = split_lines(chars.as_slice());
    let ghost views = char_lists(rows@);
    let mut lossless = NameSet::new();
    let mut decodable = NameSet::new();
    let mut i: usize = 0;
    assert(views.subrange(0, 0) =~= Seq::empty());
    while i < rows.len()
        invariant
            i <= rows@.len(),
            views == char_lists(rows@),
            lossless@ == flagged(views.subrange(0, i as int), 5, 83),
            decodable@ == flagged(views.subrange(0, i as int), 0, 68),
        decreases rows@.len() - i,
    {
        proof {
            let now = views.subrange(0, i + 1);
            assert(now.drop_last() =~= views.subrange(0, i as int));
            assert(now.last() == rows@[i as int]@);
        }
        let w = split_words(rows[i].as_slice());
        let ghost wv = char_lists(w@);
        if w.len() >= 2 {
            assert(wv[0] == w@[0]@ && wv[1] == w@[1]@);
            let flags = from_chars(w[0].as_slice());
            let f = flags.as_str().as_bytes();
            if f.len() >= 6 && f[2] == 65 {
                if f[5] == 83 {
                    lossless.insert(from_chars(w[1].as_slice()));
                }
                if f[0] == 68 {
                    decodable.insert(from_chars(w[1].as_slice()));
                }
            }
        }
        i = i + 1;
    }
    assert(views.subrange(0, i as int) =~= views);
    AudioCodecs { lossless, decodable: Some(decodable) }
}

/// A letter, a digit, an underscore or a hyphen, all of ASCII.
pub open spec fn name_char(c: char) -> bool {
    'a' <= c <= 'z' || 'A' <= c <= 'Z' || '0' <= c <= '9' || c == '_' || c == '-'
}

pub open spec fn is_name(s: Seq<char>) -> bool {
    forall|i: int| 0 <= i < s.len() ==> name_char(#[trigger] s[i])
}

/// The audio encoders among rows of `ffmpeg -encoders`. The legend has the same flags and no
/// name behind them.
pub open spec fn encoders_of(rows: Seq<Seq<char>>) -> Set<Seq<char>>
    decreases rows.len(),
{
    if rows.len() == 0 {
        Set::empty()
    } else {
        let before = encoders_of(rows.drop_last());
        let w = words(rows.last());
        if w.len() >= 2 && encode_utf8(w[0]).len() == 6 && w[0].len() > 0 && w[0][0] == 'A'
            && is_name(w[1]) {
            before.insert(w[1])
        } else {
            before
        }
    }
}

fn looks_like_name(s: &[char]) -> (r: bool)
    ensures
        r == is_name(s@),
{
    let mut i: usize = 0;
    while i < s.len()
        invariant
            i <= s@.len(),
            forall|k: int| 0 <= k < i ==> name_char(#[trigger] s@[k]),
        decreases s@.len() - i,
    {
        let c = s[i];
        let fine = ('a' <= c && c <= 'z') || ('A' <= c && c <= 'Z') || ('0' <= c && c <= '9') || c
            == '_' || c == '-';
        if !fine {
            assert(!name_char(s@[i as int]));
            return false;
        }
        i = i + 1;
    }
    true
}

pub fn parse_audio_encoders(stdout: &str) -> (set: NameSet)
    ensures
        set@ == encoders_of(lines(stdout@)),
{
    let chars = to_chars(stdout);
    let rows = split_lines(chars.as_slice());
    let ghost views = char_lists(rows@);
    let mut set = NameSet::new();
    let mut i: usize = 0;
    assert(views.subrange(0, 0) =~= Seq::empty());
    while i < rows.len()
        invariant
            i <= rows@.len(),
            views == char_lists(rows@),
            set@ == encoders_of(views.subrange(0, i as int)),
        decreases rows@.len() - i,
    {
        proof {
            let now = views.subrange(0, i + 1);
            assert(now.drop_last() =~= views.subrange(0, i as int));
            assert(now.last() == rows@[i as int]@);
        }
        let w = split_words(rows[i].as_slice());
        let ghost wv = char_lists(w@);
        if w.len() >= 2 {
            assert(wv[0] == w@[0]@ && wv[1] == w@[1]@);
            let flags = from_chars(w[0].as_slice());
            let six = flags.as_str().as_bytes().len() == 6;
            if six && w[0].len() > 0 && w[0][0] == 'A' && looks_like_name(w[1].as_slice()) {
                set.insert(from_chars(w[1].as_slice()));
            }
        }
        i = i + 1;
    }
    assert(views.subrange(0, i as int) =~= views);
    set
}

/// The lossless codecs where ffmpeg cannot be asked.
pub fn fallback_lossless_codecs() -> (set: NameSet)
    ensures
        set@ == set![
            "truehd"@,
            "mlp"@,
            "flac"@,
            "alac"@,
            "ape"@,
            "tta"@,
            "wavpack"@,
            "tak"@,
            "shorten"@,
            "ralf"@,
            "wmalossless"@,
            "mp4als"@,
            "als"@,
            "dts"@,
        ],
{
    let mut set = NameSet::new();
    set.insert("truehd".to_owned());
    set.insert("mlp".to_owned());
    set.insert("flac".to_owned());
    set.insert("alac".to_owned());
    set.insert("ape".to_owned());
    set.insert("tta".to_owned());
    set.insert("wavpack".to_owned());
    set.insert("tak".to_owned());
    set.insert("shorten".to_owned());
    set.insert("ralf".to_owned());
    set.insert("wmalossless".to_owned());
    set.insert("mp4als".to_owned());
    set.insert("als".to_owned());
    set.insert("dts".to_owned());
    set
}

/// Whether a track's samples are exact: PCM always, DTS only as Master Audio.
pub open spec fn lossless_source(
    codec: Seq<char>,
    profile: Option<Seq<char>>,
    lossless: Set<Seq<char>>,
) -> bool {
    if codec == "dts"@ {
        profile is Some && occurs(profile->0, "MA"@)
    } else {
        has_prefix(codec, "pcm_"@) || lossless.contains(codec)
    }
}

pub fn is_lossless(codec_name: &str, profile: Option<&str>, lossless: &NameSet) -> (r: bool)
    ensures
        r == lossless_source(codec_name@, str_of(profile), lossless@),
{
    if same(codec_name, "dts") {
        return match profile {
            Some(p) => {
                let chars = to_chars(p);
                contains(chars.as_slice(), "MA")
            },
            None => false,
        };
    }
    let chars = to_chars(codec_name);
    starts_with(chars.as_slice(), "pcm_") || lossless.contains(codec_name)
}

/// The name of a codec for people.
pub open spec fn display_of(codec: Seq<char>) -> Seq<char> {
    if codec == "libopus"@ || codec == "opus"@ {
        "Opus"@
    } else if codec == "flac"@ {
        "FLAC"@
    } else if codec == "aac"@ || codec == "libfdk_aac"@ {
        "AAC"@
    } else if codec == "ac3"@ {
        "AC3"@
    } else if codec == "eac3"@ {
        "E-AC-3"@
    } else if codec == "libmp3lame"@ || codec == "mp3"@ {
        "MP3"@
    } else if codec == "alac"@ {
        "ALAC"@
    } else if codec == "libvorbis"@ || codec == "vorbis"@ {
        "Vorbis"@
    } else {
        codec
    }
}

pub fn codec_display<'a>(codec: &'a str) -> (s: &'a str)
    ensures
        s@ == display_of(codec@),
{
    if same(codec, "libopus") || same(codec, "opus") {
        "Opus"
    } else if same(codec, "flac") {
        "FLAC"
    } else if same(codec, "aac") || same(codec, "libfdk_aac") {
        "AAC"
    } else if same(codec, "ac3") {
        "AC3"
    } else if same(codec, "eac3") {
        "E-AC-3"
    } else if same(codec, "libmp3lame") || same(codec, "mp3") {
        "MP3"
    } else if same(codec, "alac") {
        "ALAC"
    } else if same(codec, "libvorbis") || same(codec, "vorbis") {
        "Vorbis"
    } else {
        codec
    }
}

// ---------------------------------------------------------------------------
// Tracks
// ---------------------------------------------------------------------------
/// An audio stream as ffprobe reports it. The codec is left out where it is not known.
#[derive(Debug)]
pub struct AudioStream {
    pub codec_name: Option<String>,
    pub profile: Option<String>,
    pub channels: Option<u32>,
    pub channel_layout: Option<String>,
    pub sample_rate: Option<String>,
    pub bits_per_raw_sample: Option<String>,
    pub sample_fmt: Option<String>,
    pub initial_padding: Option<u32>,
    pub language: Option<String>,
    pub title: Option<String>,
}

/// An audio track of the source.
#[derive(Debug)]
pub struct AudioTrack {
    pub audio_index: usize,
    pub codec_name: String,
    pub profile: Option<String>,
    pub channels: Option<u32>,
    pub channel_layout: Option<String>,
    pub sample_rate: u32,
    pub bits_per_raw_sample: u32,
    pub sample_fmt: String,
    pub initial_padding: u32,
    pub language: Option<String>,
    pub title: Option<String>,
}

/// A number in words; 0 where there is none.
pub open spec fn number_or_zero(s: Option<Seq<char>>) -> nat {
    match s {
        Some(s) => match unsigned(s, u32::MAX as nat) {
            Some(n) => n,
            None => 0,
        },
        None => 0,
    }
}

pub open spec fn text_or(s: Option<Seq<char>>, other: Seq<char>) -> Seq<char> {
    match s {
        Some(s) => s,
        None => other,
    }
}

/// Whether `t` is the track of stream number `i`.
pub open spec fn is_track_of(t: AudioTrack, s: AudioStream, i: int) -> bool {
    &&& t.audio_index == i
    &&& t.codec_name@ == text_or(text_of(s.codec_name), "unknown"@)
    &&& text_of(t.profile) == text_of(s.profile)
    &&& t.channels == s.channels
    &&& text_of(t.channel_layout) == text_of(s.channel_layout)
    &&& t.sample_rate == number_or_zero(text_of(s.sample_rate))
    &&& t.bits_per_raw_sample == number_or_zero(text_of(s.bits_per_raw_sample))
    &&& t.sample_fmt@ == text_or(text_of(s.sample_fmt), Seq::empty())
    &&& t.initial_padding == match s.initial_padding {
        Some(n) => n,
        None => 0,
    }
    &&& text_of(t.language) == text_of(s.language)
    &&& text_of(t.title) == text_of(s.title)
}

fn read_number(s: &Option<String>) -> (n: u32)
    ensures
        n == number_or_zero(text_of(*s)),
{
    match s {
        Some(s) => {
            let chars = to_chars(s.as_str());
            match parse_unsigned(chars.as_slice(), 0xffff_ffff) {
                Some(n) => n as u32,
                None => 0,
            }
        },
        None => 0,
    }
}

fn copy_text(s: &Option<String>) -> (r: Option<String>)
    ensures
        text_of(r) == text_of(*s),
{
    match s {
        Some(s) => Some(s.clone()),
        None => None,
    }
}

/// The tracks of a source, numbered as ffprobe lists them.
pub fn audio_tracks(streams: &[AudioStream]) -> (tracks: Vec<AudioTrack>)
    ensures
        tracks@.len() == streams@.len(),
        forall|i: int| 0 <= i < streams@.len() ==> is_track_of(#[trigger] tracks@[i], streams@[i], i),
{
    let mut tracks: Vec<AudioTrack> = Vec::new();
    let mut i: usize = 0;
    while i < streams.len()
        invariant
            i <= streams@.len(),
            tracks@.len() == i,
            forall|k: int| 0 <= k < i ==> is_track_of(#[trigger] tracks@[k], streams@[k], k),
        decreases streams@.len() - i,
    {
        let s = &streams[i];
        let track = AudioTrack {
            audio_index: i,
            codec_name: match &s.codec_name {
                Some(c) => c.clone(),
                None => "unknown".to_owned(),
            },
            profile: copy_text(&s.profile),
            channels: s.channels,
            channel_layout: copy_text(&s.channel_layout),
            sample_rate: read_number(&s.sample_rate),
            bits_per_raw_sample: read_number(&s.bits_per_raw_sample),
            sample_fmt: match &s.sample_fmt {
                Some(f) => f.clone(),
                None => String::new(),
            },
            initial_padding: match s.initial_padding {
                Some(n) => n,
                None => 0,
            },
            language: copy_text(&s.language),
            title: copy_text(&s.title),
        };
        assert(track.sample_fmt@ =~= text_or(text_of(s.sample_fmt), Seq::empty()));
        assert(is_track_of(track, *s, i as int));
        tracks.push(track);
        i = i + 1;
    }
    tracks
}

/// The PCM that holds a track's samples whole.
pub open spec fn pcm_of(fmt: Seq<char>, bits: u32) -> Seq<char> {
    if fmt == "flt"@ || fmt == "fltp"@ {
        "pcm_f32le"@
    } else if fmt == "dbl"@ || fmt == "dblp"@ {
        "pcm_f64le"@
    } else if 1 <= bits <= 16 || (bits == 0 && (fmt == "u8"@ || fmt == "u8p"@ || fmt == "s16"@
        || fmt == "s16p"@)) {
        "pcm_s16le"@
    } else if 17 <= bits <= 24 {
        "pcm_s24le"@
    } else {
        "pcm_s32le"@
    }
}

pub fn pcm_codec(track: &AudioTrack) -> (s: &'static str)
    ensures
        s@ == pcm_of(track.sample_fmt@, track.bits_per_raw_sample),
{
    let fmt = track.sample_fmt.as_str();
    let bits: u32 = track.bits_per_raw_sample;
    if same(fmt, "flt") || same(fmt, "fltp") {
        "pcm_f32le"
    } else if same(fmt, "dbl") || same(fmt, "dblp") {
        "pcm_f64le"
    } else if (1 <= bits && bits <= 16) || (bits == 0 && (same(fmt, "u8") || same(fmt, "u8p")
        || same(fmt, "s16") || same(fmt, "s16p"))) {
        "pcm_s16le"
    } else if 17 <= bits && bits <= 24 {
        "pcm_s24le"
    } else {
        "pcm_s32le"
    }
}

// ---------------------------------------------------------------------------
// Dispositions
// ---------------------------------------------------------------------------
/// A stream's disposition as ffprobe reports it.
#[derive(Clone, Copy, Debug, PartialEq, Eq, Structural)]
pub struct Disposition {
    pub default: i32,
    pub forced: i32,
    pub hearing_impaired: i32,
    pub visual_impaired: i32,
    pub original: i32,
    pub comment: i32,
}

pub open spec fn yes_option(flag: Seq<char>, tid: usize, v: i32) -> Seq<Seq<char>> {
    if v != 0 {
        seq![flag, decimal(tid as nat) + ":yes"@]
    } else {
        Seq::empty()
    }
}

/// The options of mkvmerge for a disposition. The default flag is always told, as mkvmerge
/// would set it by itself.
pub open spec fn disposition_options(d: Disposition, tid: usize) -> Seq<Seq<char>> {
    seq![
        "--default-track-flag"@,
        decimal(tid as nat) + if d.default != 0 {
            ":yes"@
        } else {
            ":no"@
        },
    ] + yes_option("--forced-display-flag"@, tid, d.forced) + yes_option(
        "--hearing-impaired-flag"@,
        tid,
        d.hearing_impaired,
    ) + yes_option("--visual-impaired-flag"@, tid, d.visual_impaired) + yes_option(
        "--original-flag"@,
        tid,
        d.original,
    ) + yes_option("--commentary-flag"@, tid, d.comment)
}

fn numbered(n: usize, tail: &str) -> (s: String)
    ensures
        s@ == decimal(n as nat) + tail@,
{
    let mut s = String::new();
    push_decimal(&mut s, n as u64);
    s.append(tail);
    assert(s@ =~= decimal(n as nat) + tail@);
    s
}

fn push_yes(args: &mut Vec<String>, flag: &str, tid: usize, v: i32)
    ensures
        strings(final(args)@) == strings(old(args)@) + yes_option(flag@, tid, v),
{
    if v != 0 {
        push_two(args, flag, numbered(tid, ":yes"));
    } else {
        assert(strings(args@) =~= strings(args@) + Seq::<Seq<char>>::empty());
    }
}

impl Disposition {
    pub fn to_mkvmerge_flags(&self, tid: usize) -> (args: Vec<String>)
        ensures
            strings(args@) == disposition_options(*self, tid),
    {
        let mut args: Vec<String> = Vec::new();
        assert(strings(args@) =~= Seq::empty());
        let tail: &str = if self.default != 0 {
            ":yes"
        } else {
            ":no"
        };
        push_two(&mut args, "--default-track-flag", numbered(tid, tail));
        push_yes(&mut args, "--forced-display-flag", tid, self.forced);
        push_yes(&mut args, "--hearing-impaired-flag", tid, self.hearing_impaired);
        push_yes(&mut args, "--visual-impaired-flag", tid, self.visual_impaired);
        push_yes(&mut args, "--original-flag", tid, self.original);
        push_yes(&mut args, "--commentary-flag", tid, self.comment);
        assert(strings(args@) =~= disposition_options(*self, tid));
        args
    }
}

// ---------------------------------------------------------------------------
// Channel layouts
// ---------------------------------------------------------------------------
/// The channels of a layout that ffmpeg has a name for; any other text as it is.
pub open spec fn decomposition(layout: Seq<char>) -> Seq<char> {
    if layout == "mono"@ {
        "FC"@
    } else if layout == "stereo"@ {
        "FL+FR"@
    } else if layout == "2.1"@ {
        "FL+FR+LFE"@
    } else if layout == "3.0"@ {
        "FL+FR+FC"@
    } else if layout == "3.0(back)"@ {
        "FL+FR+BC"@
    } else if layout == "4.0"@ {
        "FL+FR+FC+BC"@
    } else if layout == "quad"@ {
        "FL+FR+BL+BR"@
    } else if layout == "quad(side)"@ {
        "FL+FR+SL+SR"@
    } else if layout == "3.1"@ {
        "FL+FR+FC+LFE"@
    } else if layout == "5.0"@ {
        "FL+FR+FC+BL+BR"@
    } else if layout == "5.0(side)"@ {
        "FL+FR+FC+SL+SR"@
    } else if layout == "4.1"@ {
        "FL+FR+FC+LFE+BC"@
    } else if layout == "5.1"@ {
        "FL+FR+FC+LFE+BL+BR"@
    } else if layout == "5.1(side)"@ {
        "FL+FR+FC+LFE+SL+SR"@
    } else if layout == "6.0"@ {
        "FL+FR+FC+BC+SL+SR"@
    } else if layout == "6.0(front)"@ {
        "FL+FR+FLC+FRC+SL+SR"@
    } else if layout == "3.1.2"@ {
        "FL+FR+FC+LFE+TFL+TFR"@
    } else if layout == "hexagonal"@ {
        "FL+FR+FC+BL+BR+BC"@
    } else if layout == "6.1"@ {
        "FL+FR+FC+LFE+BC+SL+SR"@
    } else if layout == "6.1(back)"@ {
        "FL+FR+FC+LFE+BL+BR+BC"@
    } else if layout == "6.1(front)"@ {
        "FL+FR+LFE+FLC+FRC+SL+SR"@
    } else if layout == "7.0"@ {
        "FL+FR+FC+BL+BR+SL+SR"@
    } else if layout == "7.0(front)"@ {
        "FL+FR+FC+FLC+FRC+SL+SR"@
    } else if layout == "7.1"@ {
        "FL+FR+FC+LFE+BL+BR+SL+SR"@
    } else if layout == "7.1(wide)"@ {
        "FL+FR+FC+LFE+BL+BR+FLC+FRC"@
    } else if layout == "7.1(wide-side)"@ {
        "FL+FR+FC+LFE+FLC+FRC+SL+SR"@
    } else if layout == "5.1.2"@ {
        "FL+FR+FC+LFE+SL+SR+TFL+TFR"@
    } else if layout == "5.1.2(back)"@ {
        "FL+FR+FC+LFE+BL+BR+TFL+TFR"@
    } else if layout == "octagonal"@ {
        "FL+FR+FC+BL+BR+BC+SL+SR"@
    } else if layout == "cube"@ {
        "FL+FR+BL+BR+TFL+TFR+TBL+TBR"@
    } else if layout == "5.1.4"@ {
        "FL+FR+FC+LFE+SL+SR+TFL+TFR+TBL+TBR"@
    } else if layout == "7.1.2"@ {
        "FL+FR+FC+LFE+BL+BR+SL+SR+TFL+TFR"@
    } else if layout == "7.1.4"@ {
        "FL+FR+FC+LFE+BL+BR+SL+SR+TFL+TFR+TBL+TBR"@
    } else if layout == "7.2.3"@ {
        "FL+FR+FC+LFE+BL+BR+SL+SR+TFL+TFR+TBC+LFE2"@
    } else if layout == "9.1.4"@ {
        "FL+FR+FC+LFE+BL+BR+FLC+FRC+SL+SR+TFL+TFR+TBL+TBR"@
    } else if layout == "9.1.6"@ {
        "FL+FR+FC+LFE+BL+BR+FLC+FRC+SL+SR+TFL+TFR+TBL+TBR+TSL+TSR"@
    } else if layout == "hexadecagonal"@ {
        "FL+FR+FC+BL+BR+BC+SL+SR+TFL+TFC+TFR+TBL+TBC+TBR+WL+WR"@
    } else if layout == "binaural"@ {
        "BIL+BIR"@
    } else if layout == "downmix"@ {
        "DL+DR"@
    } else if layout == "22.2"@ {
        "FL+FR+FC+LFE+BL+BR+FLC+FRC+BC+SL+SR+TC+TFL+TFC+TFR+TBL+TBC+TBR+LFE2+TSL+TSR+BFC+BFL+BFR"@
    } else {
        layout
    }
}

fn decompose<'a>(layout: &'a str) -> (s: &'a str)
    ensures
        s@ == decomposition(layout@),
{
    if same(layout, "mono") {
        "FC"
    } else if same(layout, "stereo") {
        "FL+FR"
    } else if same(layout, "2.1") {
        "FL+FR+LFE"
    } else if same(layout, "3.0") {
        "FL+FR+FC"
    } else if same(layout, "3.0(back)") {
        "FL+FR+BC"
    } else if same(layout, "4.0") {
        "FL+FR+FC+BC"
    } else if same(layout, "quad") {
        "FL+FR+BL+BR"
    } else if same(layout, "quad(side)") {
        "FL+FR+SL+SR"
    } else if same(layout, "3.1") {
        "FL+FR+FC+LFE"
    } else if same(layout, "5.0") {
        "FL+FR+FC+BL+BR"
    } else if same(layout, "5.0(side)") {
        "FL+FR+FC+SL+SR"
    } else if same(layout, "4.1") {
        "FL+FR+FC+LFE+BC"
    } else if same(layout, "5.1") {
        "FL+FR+FC+LFE+BL+BR"
    } else if same(layout, "5.1(side)") {
        "FL+FR+FC+LFE+SL+SR"
    } else if same(layout, "6.0") {
        "FL+FR+FC+BC+SL+SR"
    } else if same(layout, "6.0(front)") {
        "FL+FR+FLC+FRC+SL+SR"
    } else if same(layout, "3.1.2") {
        "FL+FR+FC+LFE+TFL+TFR"
    } else if same(layout, "hexagonal") {
        "FL+FR+FC+BL+BR+BC"
    } else if same(layout, "6.1") {
        "FL+FR+FC+LFE+BC+SL+SR"
    } else if same(layout, "6.1(back)") {
        "FL+FR+FC+LFE+BL+BR+BC"
    } else if same(layout, "6.1(front)") {
        "FL+FR+LFE+FLC+FRC+SL+SR"
    } else if same(layout, "7.0") {
        "FL+FR+FC+BL+BR+SL+SR"
    } else if same(layout, "7.0(front)") {
        "FL+FR+FC+FLC+FRC+SL+SR"
    } else if same(layout, "7.1") {
        "FL+FR+FC+LFE+BL+BR+SL+SR"
    } else if same(layout, "7.1(wide)") {
        "FL+FR+FC+LFE+BL+BR+FLC+FRC"
    } else if same(layout, "7.1(wide-side)") {
        "FL+FR+FC+LFE+FLC+FRC+SL+SR"
    } else if same(layout, "5.1.2") {
        "FL+FR+FC+LFE+SL+SR+TFL+TFR"
    } else if same(layout, "5.1.2(back)") {
        "FL+FR+FC+LFE+BL+BR+TFL+TFR"
    } else if same(layout, "octagonal") {
        "FL+FR+FC+BL+BR+BC+SL+SR"
    } else if same(layout, "cube") {
        "FL+FR+BL+BR+TFL+TFR+TBL+TBR"
    } else if same(layout, "5.1.4") {
        "FL+FR+FC+LFE+SL+SR+TFL+TFR+TBL+TBR"
    } else if same(layout, "7.1.2") {
        "FL+FR+FC+LFE+BL+BR+SL+SR+TFL+TFR"
    } else if same(layout, "7.1.4") {
        "FL+FR+FC+LFE+BL+BR+SL+SR+TFL+TFR+TBL+TBR"
    } else if same(layout, "7.2.3") {
        "FL+FR+FC+LFE+BL+BR+SL+SR+TFL+TFR+TBC+LFE2"
    } else if same(layout, "9.1.4") {
        "FL+FR+FC+LFE+BL+BR+FLC+FRC+SL+SR+TFL+TFR+TBL+TBR"
    } else if same(layout, "9.1.6") {
        "FL+FR+FC+LFE+BL+BR+FLC+FRC+SL+SR+TFL+TFR+TBL+TBR+TSL+TSR"
    } else if same(layout, "hexadecagonal") {
        "FL+FR+FC+BL+BR+BC+SL+SR+TFL+TFC+TFR+TBL+TBC+TBR+WL+WR"
    } else if same(layout, "binaural") {
        "BIL+BIR"
    } else if same(layout, "downmix") {
        "DL+DR"
    } else if same(layout, "22.2") {
        "FL+FR+FC+LFE+BL+BR+FLC+FRC+BC+SL+SR+TC+TFL+TFC+TFR+TBL+TBC+TBR+LFE2+TSL+TSR+BFC+BFL+BFR"
    } else {
        layout
    }
}

/// The name of a layout that Opus has, from the smallest on.
pub open spec fn opus_name(k: int) -> Seq<char> {
    if k == 0 {
        "mono"@
    } else if k == 1 {
        "stereo"@
    } else if k == 2 {
        "3.0"@
    } else if k == 3 {
        "quad"@
    } else if k == 4 {
        "5.0"@
    } else if k == 5 {
        "5.1"@
    } else if k == 6 {
        "6.1"@
    } else {
        "7.1"@
    }
}

/// Its channels.
pub open spec fn opus_text(k: int) -> Seq<char> {
    if k == 0 {
        "FC"@
    } else if k == 1 {
        "FL+FR"@
    } else if k == 2 {
        "FL+FR+FC"@
    } else if k == 3 {
        "FL+FR+BL+BR"@
    } else if k == 4 {
        "FL+FR+FC+BL+BR"@
    } else if k == 5 {
        "FL+FR+FC+LFE+BL+BR"@
    } else if k == 6 {
        "FL+FR+FC+LFE+BC+SL+SR"@
    } else {
        "FL+FR+FC+LFE+BL+BR+SL+SR"@
    }
}

pub open spec fn opus_channels(k: int) -> Seq<Seq<char>> {
    pieces(opus_text(k), Separator::Char { c: '+' })
}

fn opus_layout_name(k: usize) -> (s: &'static str)
    ensures
        s@ == opus_name(k as int),
{
    if k == 0 {
        "mono"
    } else if k == 1 {
        "stereo"
    } else if k == 2 {
        "3.0"
    } else if k == 3 {
        "quad"
    } else if k == 4 {
        "5.0"
    } else if k == 5 {
        "5.1"
    } else if k == 6 {
        "6.1"
    } else {
        "7.1"
    }
}

fn opus_layout_channels(k: usize) -> (v: Vec<Vec<char>>)
    ensures
        char_lists(v@) == opus_channels(k as int),
{
    let text: &str = if k == 0 {
        "FC"
    } else if k == 1 {
        "FL+FR"
    } else if k == 2 {
        "FL+FR+FC"
    } else if k == 3 {
        "FL+FR+BL+BR"
    } else if k == 4 {
        "FL+FR+FC+BL+BR"
    } else if k == 5 {
        "FL+FR+FC+LFE+BL+BR"
    } else if k == 6 {
        "FL+FR+FC+LFE+BC+SL+SR"
    } else {
        "FL+FR+FC+LFE+BL+BR+SL+SR"
    };
    let chars = to_chars(text);
    split(chars.as_slice(), Separator::Char { c: '+' })
}

/// Where a channel goes that would be dropped from a downmix: the places by preference, each
/// of one or more channels.
pub open spec fn fold_text(c: Seq<char>) -> Option<Seq<char>> {
    if c == "TBL"@ {
        Some("BL|SL|FL"@)
    } else if c == "TBR"@ {
        Some("BR|SR|FR"@)
    } else if c == "TBC"@ {
        Some("BC|BL+BR|SL+SR|FL+FR"@)
    } else if c == "TSL"@ {
        Some("SL|BL|FL"@)
    } else if c == "TSR"@ {
        Some("SR|BR|FR"@)
    } else if c == "TC"@ {
        Some("FC|FL+FR"@)
    } else if c == "TFC"@ {
        Some("FC|FL+FR"@)
    } else if c == "LFE2"@ {
        Some("LFE"@)
    } else if c == "WL"@ {
        Some("FL"@)
    } else if c == "WR"@ {
        Some("FR"@)
    } else if c == "SDL"@ {
        Some("SL|BL|FL"@)
    } else if c == "SDR"@ {
        Some("SR|BR|FR"@)
    } else if c == "BFC"@ {
        Some("FC|FL+FR"@)
    } else if c == "BFL"@ {
        Some("FL"@)
    } else if c == "BFR"@ {
        Some("FR"@)
    } else {
        None
    }
}

fn fold_places(c: &str) -> (s: Option<&'static str>)
    ensures
        str_of(s) == fold_text(c@),
{
    if same(c, "TBL") {
        Some("BL|SL|FL")
    } else if same(c, "TBR") {
        Some("BR|SR|FR")
    } else if same(c, "TBC") {
        Some("BC|BL+BR|SL+SR|FL+FR")
    } else if same(c, "TSL") {
        Some("SL|BL|FL")
    } else if same(c, "TSR") {
        Some("SR|BR|FR")
    } else if same(c, "TC") {
        Some("FC|FL+FR")
    } else if same(c, "TFC") {
        Some("FC|FL+FR")
    } else if same(c, "LFE2") {
        Some("LFE")
    } else if same(c, "WL") {
        Some("FL")
    } else if same(c, "WR") {
        Some("FR")
    } else if same(c, "SDL") {
        Some("SL|BL|FL")
    } else if same(c, "SDR") {
        Some("SR|BR|FR")
    } else if same(c, "BFC") {
        Some("FC|FL+FR")
    } else if same(c, "BFL") {
        Some("FL")
    } else if same(c, "BFR") {
        Some("FR")
    } else {
        None
    }
}

/// Another channel that can take one in.
pub open spec fn substitute(c: Seq<char>) -> Option<Seq<char>> {
    if c == "SL"@ {
        Some("BL"@)
    } else if c == "SR"@ {
        Some("BR"@)
    } else if c == "BL"@ {
        Some("SL"@)
    } else if c == "BR"@ {
        Some("SR"@)
    } else if c == "DL"@ {
        Some("FL"@)
    } else if c == "BIL"@ {
        Some("FL"@)
    } else if c == "DR"@ {
        Some("FR"@)
    } else if c == "BIR"@ {
        Some("FR"@)
    } else {
        None
    }
}

fn find_substitute(c: &str) -> (s: Option<&'static str>)
    ensures
        str_of(s) == substitute(c@),
{
    if same(c, "SL") {
        Some("BL")
    } else if same(c, "SR") {
        Some("BR")
    } else if same(c, "BL") {
        Some("SL")
    } else if same(c, "BR") {
        Some("SR")
    } else if same(c, "DL") {
        Some("FL")
    } else if same(c, "BIL") {
        Some("FL")
    } else if same(c, "DR") {
        Some("FR")
    } else if same(c, "BIR") {
        Some("FR")
    } else {
        None
    }
}

/// The text inside the brackets of `n channels (...)`; any other layout as it is.
pub open spec fn layout_text(layout: Seq<char>) -> Seq<char> {
    match first_at(layout, " channels ("@, 0) {
        Some(at) => {
            let names = layout.subrange(at + " channels ("@.len(), layout.len() as int);
            if has_suffix(names, ")"@) {
                names.subrange(0, names.len() - 1)
            } else {
                layout
            }
        },
        None => layout,
    }
}

/// Whether text can name a channel: capital letters and digits.
pub open spec fn is_channel(s: Seq<char>) -> bool {
    s.len() > 0 && forall|i: int|
        0 <= i < s.len() ==> ('A' <= #[trigger] s[i] <= 'Z' || '0' <= s[i] <= '9')
}

/// The channels of a layout, where it names them.
pub open spec fn channels_of(layout: Seq<char>) -> Option<Seq<Seq<char>>> {
    let names = pieces(decomposition(layout_text(layout)), Separator::Char { c: '+' });
    if forall|i: int| 0 <= i < names.len() ==> is_channel(#[trigger] names[i]) {
        Some(names)
    } else {
        None
    }
}

fn looks_like_channel(s: &[char]) -> (r: bool)
    ensures
        r == is_channel(s@),
{
    if s.len() == 0 {
        return false;
    }
    let mut i: usize = 0;
    while i < s.len()
        invariant
            i <= s@.len(),
            forall|k: int|
                0 <= k < i ==> ('A' <= #[trigger] s@[k] <= 'Z' || '0' <= s@[k] <= '9'),
        decreases s@.len() - i,
    {
        let c = s[i];
        if !(('A' <= c && c <= 'Z') || ('0' <= c && c <= '9')) {
            return false;
        }
        i = i + 1;
    }
    true
}

pub open spec fn channel_view(v: Option<Vec<Vec<char>>>) -> Option<Seq<Seq<char>>> {
    match v {
        Some(v) => Some(char_lists(v@)),
        None => None,
    }
}

fn layout_inner(layout: &str) -> (s: String)
    ensures
        s@ == layout_text(layout@),
{
    let chars = to_chars(layout);
    let label = to_chars(" channels (");
    let len: usize = chars.len();
    proof {
        reveal_strlit(")");
    }
    match find_from(chars.as_slice(), label.as_slice(), 0) {
        Some(at) => {
            let names = part(chars.as_slice(), at + label.len(), len);
            if ends_with(names.as_slice(), ")") {
                let inner = part(names.as_slice(), 0, names.len() - 1);
                from_chars(inner.as_slice())
            } else {
                layout.to_owned()
            }
        },
        None => layout.to_owned(),
    }
}

/// The channels of a layout as ffprobe writes it: a name, or `n channels (A+B+C)`.
pub fn channel_names(layout: &str) -> (r: Option<Vec<Vec<char>>>)
    ensures
        channel_view(r) == channels_of(layout@),
{
    let inner = layout_inner(layout);
    let text = decompose(inner.as_str());
    let chars = to_chars(text);
    let names = split(chars.as_slice(), Separator::Char { c: '+' });
    let ghost views = char_lists(names@);
    let mut i: usize = 0;
    while i < names.len()
        invariant
            i <= names@.len(),
            views == char_lists(names@),
            views == pieces(decomposition(layout_text(layout@)), Separator::Char { c: '+' }),
            forall|k: int| 0 <= k < i ==> is_channel(#[trigger] views[k]),
        decreases names@.len() - i,
    {
        assert(views[i as int] == names@[i as int]@);
        if !looks_like_channel(names[i].as_slice()) {
            assert(!is_channel(views[i as int]));
            return None;
        }
        i = i + 1;
    }
    Some(names)
}

/// Whether a list of channels has one.
fn has_channel(list: &[Vec<char>], c: &[char]) -> (r: bool)
    ensures
        r == char_lists(list@).contains(c@),
{
    let ghost views = char_lists(list@);
    let mut i: usize = 0;
    while i < list.len()
        invariant
            i <= list@.len(),
            views == char_lists(list@),
            forall|k: int| 0 <= k < i ==> #[trigger] views[k] != c@,
        decreases list@.len() - i,
    {
        assert(views[i as int] == list@[i as int]@);
        if same_chars(list[i].as_slice(), c) {
            return true;
        }
        i = i + 1;
    }
    false
}

/// The channel of `target` that takes in channel `c`: itself, or its substitute where the
/// source does not have that one.
pub open spec fn place_of(c: Seq<char>, target: Seq<Seq<char>>, source: Seq<Seq<char>>) -> Option<
    Seq<char>,
> {
    if target.contains(c) {
        Some(c)
    } else {
        match substitute(c) {
            Some(s) => if target.contains(s) && !source.contains(s) {
                Some(s)
            } else {
                None
            },
            None => None,
        }
    }
}

/// Whether every channel of the source has a place in the target.
pub open spec fn all_placed(source: Seq<Seq<char>>, target: Seq<Seq<char>>) -> bool {
    forall|i: int|
        0 <= i < source.len() ==> place_of(#[trigger] source[i], target, source) is Some
}

/// The smallest layout from number `k` on that has a place for every channel.
pub open spec fn first_layout(source: Seq<Seq<char>>, k: int) -> Option<int>
    decreases 8 - k,
{
    if k < 0 || k >= 8 {
        None
    } else if all_placed(source, opus_channels(k)) {
        Some(k)
    } else {
        first_layout(source, k + 1)
    }
}

/// The places of the channels, one each.
pub open spec fn places(source: Seq<Seq<char>>, target: Seq<Seq<char>>) -> Seq<Seq<char>> {
    Seq::new(source.len(), |i: int| place_of(source[i], target, source)->0)
}

/// The pairs of a channel map: `from-to`.
pub open spec fn map_pairs(source: Seq<Seq<char>>, target: Seq<Seq<char>>) -> Seq<Seq<char>> {
    Seq::new(source.len(), |i: int| source[i] + "-"@ + places(source, target)[i])
}

/// The filter that brings a source to a layout with a place for each of its channels.
pub open spec fn placed_filter(source: Seq<Seq<char>>, k: int) -> Seq<char> {
    let target = opus_channels(k);
    let upmix = "aformat=channel_layouts="@ + opus_name(k);
    if places(source, target) == source {
        upmix
    } else {
        "channelmap=map="@ + joined(map_pairs(source, target), "|"@) + ","@ + upmix
    }
}

fn place_channel(c: &[char], target: &[Vec<char>], source: &[Vec<char>]) -> (r: Option<Vec<char>>)
    ensures
        match r {
            Some(p) => place_of(c@, char_lists(target@), char_lists(source@)) == Some(p@),
            None => place_of(c@, char_lists(target@), char_lists(source@)) is None,
        },
{
    if has_channel(target, c) {
        return Some(part(c, 0, c.len()));
    }
    let name = from_chars(c);
    match find_substitute(name.as_str()) {
        Some(s) => {
            let other = to_chars(s);
            if has_channel(target, other.as_slice()) && !has_channel(source, other.as_slice()) {
                Some(other)
            } else {
                None
            }
        },
        None => None,
    }
}

/// The places of all channels in a layout, where each has one.
fn place_all(source: &[Vec<char>], target: &[Vec<char>]) -> (r: Option<Vec<Vec<char>>>)
    ensures
        match r {
            Some(p) => all_placed(char_lists(source@), char_lists(target@)) && char_lists(p@)
                == places(char_lists(source@), char_lists(target@)),
            None => !all_placed(char_lists(source@), char_lists(target@)),
        },
{
    let ghost src = char_lists(source@);
    let ghost tgt = char_lists(target@);
    let mut out: Vec<Vec<char>> = Vec::new();
    let mut i: usize = 0;
    while i < source.len()
        invariant
            i <= source@.len(),
            src == char_lists(source@),
            tgt == char_lists(target@),
            out@.len() == i,
            forall|k: int|
                0 <= k < i ==> place_of(#[trigger] src[k], tgt, src) == Some(out@[k]@),
        decreases source@.len() - i,
    {
        assert(src[i as int] == source@[i as int]@);
        match place_channel(source[i].as_slice(), target, source) {
            Some(p) => {
                out.push(p);
            },
            None => {
                assert(place_of(src[i as int], tgt, src) is None);
                return None;
            },
        }
        i = i + 1;
    }
    proof {
        assert forall|k: int| 0 <= k < src.len() implies place_of(#[trigger] src[k], tgt, src) is Some by {
            assert(place_of(src[k], tgt, src) == Some(out@[k]@));
        }
        assert(char_lists(out@) =~= places(src, tgt)) by {
            assert forall|k: int| 0 <= k < src.len() implies char_lists(out@)[k] == places(
                src,
                tgt,
            )[k] by {
                assert(place_of(src[k], tgt, src) == Some(out@[k]@));
            }
        }
    }
    Some(out)
}

/// Whether two lists of channels are equal.
fn same_channels(a: &[Vec<char>], b: &[Vec<char>]) -> (r: bool)
    ensures
        r == (char_lists(a@) == char_lists(b@)),
{
    let ghost x = char_lists(a@);
    let ghost y = char_lists(b@);
    if a.len() != b.len() {
        assert(x.len() != y.len());
        return false;
    }
    let mut i: usize = 0;
    while i < a.len()
        invariant
            i <= a@.len(),
            a@.len() == b@.len(),
            x == char_lists(a@),
            y == char_lists(b@),
            forall|k: int| 0 <= k < i ==> #[trigger] x[k] == y[k],
        decreases a@.len() - i,
    {
        assert(x[i as int] == a@[i as int]@ && y[i as int] == b@[i as int]@);
        if !same_chars(a[i].as_slice(), b[i].as_slice()) {
            return false;
        }
        i = i + 1;
    }
    assert(x =~= y);
    true
}

fn upmix_filter(k: usize) -> (s: String)
    ensures
        s@ == "aformat=channel_layouts="@ + opus_name(k as int),
{
    let mut s = "aformat=channel_layouts=".to_owned();
    s.append(opus_layout_name(k));
    s
}

fn place_filter(source: &[Vec<char>], placed: &[Vec<char>], k: usize) -> (s: String)
    requires
        char_lists(placed@) == places(char_lists(source@), opus_channels(k as int)),
    ensures
        s@ == placed_filter(char_lists(source@), k as int),
{
    let ghost src = char_lists(source@);
    let ghost tgt = opus_channels(k as int);
    let ghost to = char_lists(placed@);
    let upmix = upmix_filter(k);
    if same_channels(placed, source) {
        return upmix;
    }
    let mut pairs: Vec<String> = Vec::new();
    let mut i: usize = 0;
    while i < source.len()
        invariant
            i <= source@.len(),
            src == char_lists(source@),
            to == char_lists(placed@),
            to == places(src, tgt),
            tgt == opus_channels(k as int),
            pairs@.len() == i,
            forall|j: int| 0 <= j < i ==> (#[trigger] pairs@[j])@ == map_pairs(src, tgt)[j],
        decreases source@.len() - i,
    {
        assert(src[i as int] == source@[i as int]@);
        assert(to.len() == source@.len());
        assert(to[i as int] == placed@[i as int]@);
        let mut pair = from_chars(source[i].as_slice());
        pair.append("-");
        pair.append(from_chars(placed[i].as_slice()).as_str());
        assert(pair@ =~= map_pairs(src, tgt)[i as int]);
        pairs.push(pair);
        i = i + 1;
    }
    assert(strings(pairs@) =~= map_pairs(src, tgt));
    let mut s = "channelmap=map=".to_owned();
    s.append(join(pairs.as_slice(), "|").as_str());
    s.append(",");
    s.append(upmix.as_str());
    assert(s@ =~= placed_filter(src, k as int));
    s
}

// ---------------------------------------------------------------------------
// Folding channels that a downmix would drop
// ---------------------------------------------------------------------------
/// One output of a mix: a channel, and those that are mixed into it.
#[derive(Debug)]
pub struct Row {
    pub name: Vec<char>,
    pub extra: Vec<Vec<char>>,
}

#[verifier::ext_equal]
pub struct RowView {
    pub name: Seq<char>,
    pub extra: Seq<Seq<char>>,
}

impl View for Row {
    type V = RowView;

    open spec fn view(&self) -> RowView {
        RowView { name: self.name@, extra: char_lists(self.extra@) }
    }
}

pub open spec fn row_views(rows: Seq<Row>) -> Seq<RowView> {
    Seq::new(rows.len(), |i: int| rows[i]@)
}

/// The channels among the first `n` that stay where they are.
pub open spec fn kept_rows(source: Seq<Seq<char>>, n: nat) -> Seq<RowView>
    decreases n,
{
    if n == 0 {
        Seq::empty()
    } else {
        let before = kept_rows(source, (n - 1) as nat);
        if fold_text(source[n - 1]) is None {
            before.push(RowView { name: source[n - 1], extra: Seq::empty() })
        } else {
            before
        }
    }
}

pub open spec fn has_row(rows: Seq<RowView>, name: Seq<char>) -> bool {
    exists|i: int| 0 <= i < rows.len() && (#[trigger] rows[i]).name == name
}

pub open spec fn has_all_rows(rows: Seq<RowView>, place: Seq<Seq<char>>) -> bool {
    forall|i: int| 0 <= i < place.len() ==> has_row(rows, #[trigger] place[i])
}

/// The places that a fold offers.
pub open spec fn offered(text: Seq<char>) -> Seq<Seq<char>> {
    pieces(text, Separator::Char { c: '|' })
}

pub open spec fn place_channels(place: Seq<char>) -> Seq<Seq<char>> {
    pieces(place, Separator::Char { c: '+' })
}

/// The first place, from number `k` on, all of whose channels are in the mix.
pub open spec fn first_place(rows: Seq<RowView>, offers: Seq<Seq<char>>, k: int) -> Option<int>
    decreases offers.len() - k,
{
    if k < 0 || k >= offers.len() {
        None
    } else if has_all_rows(rows, place_channels(offers[k])) {
        Some(k)
    } else {
        first_place(rows, offers, k + 1)
    }
}

/// The place of the first row of a channel, or their number.
pub open spec fn row_at(rows: Seq<RowView>, name: Seq<char>, i: int) -> int
    decreases rows.len() - i,
{
    if i < 0 || i >= rows.len() || rows[i].name == name {
        i
    } else {
        row_at(rows, name, i + 1)
    }
}

/// A channel mixed into another.
pub open spec fn mixed_into(rows: Seq<RowView>, name: Seq<char>, c: Seq<char>) -> Seq<RowView> {
    let i = row_at(rows, name, 0);
    if 0 <= i < rows.len() {
        rows.update(i, RowView { name: rows[i].name, extra: rows[i].extra.push(c) })
    } else {
        rows
    }
}

/// A channel mixed into the first `n` channels of a place.
pub open spec fn mixed(rows: Seq<RowView>, place: Seq<Seq<char>>, c: Seq<char>, n: nat) -> Seq<
    RowView,
>
    decreases n,
{
    if n == 0 {
        rows
    } else {
        mixed_into(mixed(rows, place, c, (n - 1) as nat), place[n - 1], c)
    }
}

/// The mix once channel `c` has been dealt with.
pub open spec fn folded_one(rows: Seq<RowView>, c: Seq<char>) -> Seq<RowView> {
    match fold_text(c) {
        None => rows,
        Some(text) => match first_place(rows, offered(text), 0) {
            Some(k) => {
                let place = place_channels(offered(text)[k]);
                mixed(rows, place, c, place.len())
            },
            None => rows.push(RowView { name: c, extra: Seq::empty() }),
        },
    }
}

/// The mix once the first `n` channels have been dealt with.
pub open spec fn folded_rows(source: Seq<Seq<char>>, n: nat) -> Seq<RowView>
    decreases n,
{
    if n == 0 {
        kept_rows(source, source.len())
    } else {
        folded_one(folded_rows(source, (n - 1) as nat), source[n - 1])
    }
}

/// Whether one of the first `n` channels found a place.
pub open spec fn any_folded(source: Seq<Seq<char>>, n: nat) -> bool
    decreases n,
{
    if n == 0 {
        false
    } else {
        any_folded(source, (n - 1) as nat) || match fold_text(source[n - 1]) {
            None => false,
            Some(text) => first_place(
                folded_rows(source, (n - 1) as nat),
                offered(text),
                0,
            ) is Some,
        }
    }
}

pub open spec fn row_names(rows: Seq<RowView>) -> Seq<Seq<char>> {
    Seq::new(rows.len(), |i: int| rows[i].name)
}

/// `+0.7071*` and a channel for each that is mixed in.
pub open spec fn gain_terms(extra: Seq<Seq<char>>) -> Seq<char>
    decreases extra.len(),
{
    if extra.len() == 0 {
        Seq::empty()
    } else {
        gain_terms(extra.drop_last()) + "+0.7071*"@ + extra.last()
    }
}

pub open spec fn gain_of(r: RowView) -> Seq<char> {
    r.name + "="@ + r.name + gain_terms(r.extra)
}

pub open spec fn row_gains(rows: Seq<RowView>) -> Seq<Seq<char>> {
    Seq::new(rows.len(), |i: int| gain_of(rows[i]))
}

/// The filter that mixes channels into their places before a downmix drops them; in float, so
/// that the sums cannot clip. None where there is nothing to mix.
pub open spec fn fold_filter(source: Seq<Seq<char>>) -> Option<Seq<char>> {
    let rows = folded_rows(source, source.len());
    if any_folded(source, source.len()) {
        Some(
            "aformat=sample_fmts=fltp,pan="@ + joined(row_names(rows), "+"@) + "|"@ + joined(
                row_gains(rows),
                "|"@,
            ),
        )
    } else {
        None
    }
}

fn find_row(rows: &Vec<Row>, name: &[char]) -> (r: Option<usize>)
    ensures
        match r {
            Some(i) => i < rows@.len() && row_at(row_views(rows@), name@, 0) == i && has_row(
                row_views(rows@),
                name@,
            ),
            None => !has_row(row_views(rows@), name@) && row_at(row_views(rows@), name@, 0)
                == rows@.len(),
        },
{
    let ghost views = row_views(rows@);
    let mut i: usize = 0;
    while i < rows.len()
        invariant
            i <= rows@.len(),
            views == row_views(rows@),
            row_at(views, name@, 0) == row_at(views, name@, i as int),
            forall|k: int| 0 <= k < i ==> (#[trigger] views[k]).name != name@,
        decreases rows@.len() - i,
    {
        assert(views[i as int].name == rows@[i as int].name@);
        if same_chars(rows[i].name.as_slice(), name) {
            return Some(i);
        }
        i = i + 1;
    }
    None
}

fn has_rows(rows: &Vec<Row>, place: &[Vec<char>]) -> (r: bool)
    ensures
        r == has_all_rows(row_views(rows@), char_lists(place@)),
{
    let ghost list = char_lists(place@);
    let mut i: usize = 0;
    while i < place.len()
        invariant
            i <= place@.len(),
            list == char_lists(place@),
            forall|k: int| 0 <= k < i ==> has_row(row_views(rows@), #[trigger] list[k]),
        decreases place@.len() - i,
    {
        assert(list[i as int] == place@[i as int]@);
        if find_row(rows, place[i].as_slice()).is_none() {
            assert(!has_row(row_views(rows@), list[i as int]));
            return false;
        }
        i = i + 1;
    }
    true
}

fn mix_into(rows: &mut Vec<Row>, place: &[Vec<char>], c: &[char])
    ensures
        row_views(final(rows)@) == mixed(
            row_views(old(rows)@),
            char_lists(place@),
            c@,
            place@.len(),
        ),
{
    let ghost start = row_views(rows@);
    let ghost list = char_lists(place@);
    let mut i: usize = 0;
    while i < place.len()
        invariant
            i <= place@.len(),
            list == char_lists(place@),
            row_views(rows@) == mixed(start, list, c@, i as nat),
        decreases place@.len() - i,
    {
        assert(list[i as int] == place@[i as int]@);
        let ghost before = row_views(rows@);
        match find_row(rows, place[i].as_slice()) {
            Some(at) => {
                let ghost old_row = rows@[at as int];
                let copy = part(c, 0, c.len());
                assert(copy@ =~= c@);
                let row = &mut rows[at];
                row.extra.push(copy);
                proof {
                    let new_row = rows@[at as int];
                    assert(new_row.name == old_row.name);
                    assert(char_lists(new_row.extra@) =~= char_lists(old_row.extra@).push(c@));
                    assert(row_views(rows@) =~= mixed_into(before, list[i as int], c@));
                }
            },
            None => {
                assert(row_views(rows@) =~= mixed_into(before, list[i as int], c@));
            },
        }
        i = i + 1;
    }
}

fn new_row(name: &[char]) -> (r: Row)
    ensures
        r@ == (RowView { name: name@, extra: Seq::empty() }),
{
    let r = Row { name: part(name, 0, name.len()), extra: Vec::new() };
    assert(r.name@ =~= name@);
    assert(char_lists(r.extra@) =~= Seq::empty());
    r
}

fn keep_rows(source: &[Vec<char>]) -> (rows: Vec<Row>)
    ensures
        row_views(rows@) == kept_rows(char_lists(source@), source@.len()),
{
    let ghost src = char_lists(source@);
    let mut rows: Vec<Row> = Vec::new();
    let mut i: usize = 0;
    assert(row_views(rows@) =~= Seq::empty());
    while i < source.len()
        invariant
            i <= source@.len(),
            src == char_lists(source@),
            row_views(rows@) == kept_rows(src, i as nat),
        decreases source@.len() - i,
    {
        assert(src[i as int] == source@[i as int]@);
        let ghost before = row_views(rows@);
        let name = from_chars(source[i].as_slice());
        if fold_places(name.as_str()).is_none() {
            let row = new_row(source[i].as_slice());
            let ghost view = row@;
            rows.push(row);
            assert(row_views(rows@) =~= before.push(view));
        }
        i = i + 1;
    }
    rows
}

/// Deals with one channel; tells whether it found a place.
fn fold_one(rows: &mut Vec<Row>, c: &[char]) -> (folded: bool)
    ensures
        row_views(final(rows)@) == folded_one(row_views(old(rows)@), c@),
        folded == match fold_text(c@) {
            None => false,
            Some(text) => first_place(row_views(old(rows)@), offered(text), 0) is Some,
        },
{
    let ghost start = row_views(rows@);
    let name = from_chars(c);
    let text = match fold_places(name.as_str()) {
        Some(t) => t,
        None => {
            return false;
        },
    };
    let chars = to_chars(text);
    let offers = split(chars.as_slice(), Separator::Char { c: '|' });
    let ghost list = char_lists(offers@);
    let mut k: usize = 0;
    while k < offers.len()
        invariant
            k <= offers@.len(),
            list == char_lists(offers@),
            list == offered(text@),
            fold_text(c@) == Some(text@),
            start == row_views(rows@),
            start == row_views(old(rows)@),
            first_place(start, list, 0) == first_place(start, list, k as int),
        decreases offers@.len() - k,
    {
        assert(list[k as int] == offers@[k as int]@);
        let place = split(offers[k].as_slice(), Separator::Char { c: '+' });
        if has_rows(rows, place.as_slice()) {
            mix_into(rows, place.as_slice(), c);
            return true;
        }
        k = k + 1;
    }
    let row = new_row(c);
    let ghost view = row@;
    rows.push(row);
    assert(row_views(rows@) =~= start.push(view));
    false
}

fn gain_text(row: &Row) -> (s: String)
    ensures
        s@ == gain_of(row@),
{
    let name = from_chars(row.name.as_slice());
    let mut s = name.clone();
    s.append("=");
    s.append(name.as_str());
    let ghost head = row.name@ + "="@ + row.name@;
    let ghost extra = char_lists(row.extra@);
    let mut i: usize = 0;
    assert(extra.subrange(0, 0) =~= Seq::empty());
    assert(s@ =~= head + gain_terms(extra.subrange(0, 0)));
    while i < row.extra.len()
        invariant
            i <= row.extra@.len(),
            extra == char_lists(row.extra@),
            s@ == head + gain_terms(extra.subrange(0, i as int)),
        decreases row.extra@.len() - i,
    {
        let ghost before = s@;
        proof {
            let now = extra.subrange(0, i + 1);
            assert(now.drop_last() =~= extra.subrange(0, i as int));
            assert(now.last() == row.extra@[i as int]@);
        }
        s.append("+0.7071*");
        s.append(from_chars(row.extra[i].as_slice()).as_str());
        i = i + 1;
        assert(s@ =~= head + gain_terms(extra.subrange(0, i as int)));
    }
    assert(extra.subrange(0, i as int) =~= extra);
    s
}

pub fn fold_unplaced(source: &[Vec<char>]) -> (r: Option<String>)
    ensures
        text_of(r) == fold_filter(char_lists(source@)),
{
    let ghost src = char_lists(source@);
    let mut rows = keep_rows(source);
    let mut folded = false;
    let mut i: usize = 0;
    while i < source.len()
        invariant
            i <= source@.len(),
            src == char_lists(source@),
            row_views(rows@) == folded_rows(src, i as nat),
            folded == any_folded(src, i as nat),
        decreases source@.len() - i,
    {
        assert(src[i as int] == source@[i as int]@);
        let one = fold_one(&mut rows, source[i].as_slice());
        folded = folded || one;
        i = i + 1;
    }
    if !folded {
        return None;
    }
    let ghost views = row_views(rows@);
    let mut names: Vec<String> = Vec::new();
    let mut gains: Vec<String> = Vec::new();
    let mut k: usize = 0;
    while k < rows.len()
        invariant
            k <= rows@.len(),
            views == row_views(rows@),
            names@.len() == k,
            gains@.len() == k,
            forall|j: int| 0 <= j < k ==> (#[trigger] names@[j])@ == views[j].name,
            forall|j: int| 0 <= j < k ==> (#[trigger] gains@[j])@ == gain_of(views[j]),
        decreases rows@.len() - k,
    {
        assert(views[k as int] == rows@[k as int]@);
        names.push(from_chars(rows[k].name.as_slice()));
        gains.push(gain_text(&rows[k]));
        k = k + 1;
    }
    assert(strings(names@) =~= row_names(views));
    assert(strings(gains@) =~= row_gains(views));
    let mut s = "aformat=sample_fmts=fltp,pan=".to_owned();
    s.append(join(names.as_slice(), "+").as_str());
    s.append("|");
    s.append(join(gains.as_slice(), "|").as_str());
    assert(s@ =~= fold_filter(src)->0);
    Some(s)
}

/// The number of channels, where they are not known by name.
pub open spec fn channel_count(source: Option<Seq<Seq<char>>>, channels: Option<u32>) -> int {
    match source {
        Some(s) => s.len() as int,
        None => match channels {
            Some(n) => n as int,
            None => 2,
        },
    }
}

/// The layout by channel count, at most the largest.
pub open spec fn layout_by_count(n: int) -> int {
    if n < 1 {
        0
    } else if n > 8 {
        7
    } else {
        n - 1
    }
}

pub open spec fn source_channels(layout: Option<Seq<char>>) -> Option<Seq<Seq<char>>> {
    match layout {
        Some(l) => channels_of(l),
        None => None,
    }
}

/// The layout that Opus gets: the smallest with a place for every channel of the source, else
/// the one by channel count.
pub open spec fn opus_target(layout: Option<Seq<char>>, channels: Option<u32>) -> int {
    let source = source_channels(layout);
    match source {
        Some(s) => match first_layout(s, 0) {
            Some(k) => k,
            None => layout_by_count(channel_count(source, channels)),
        },
        None => layout_by_count(channel_count(source, channels)),
    }
}

/// The filter that brings a track to that layout.
pub open spec fn opus_filter(layout: Option<Seq<char>>, channels: Option<u32>) -> Seq<char> {
    let k = opus_target(layout, channels);
    let plain = "aformat=channel_layouts="@ + opus_name(k);
    match source_channels(layout) {
        Some(s) => if first_layout(s, 0) is Some {
            placed_filter(s, k)
        } else {
            match fold_filter(s) {
                Some(f) => f + ","@ + plain,
                None => plain,
            }
        },
        None => plain,
    }
}

/// The smallest Opus layout with a place for every source channel, else one by channel count,
/// and the filter that gets there.
pub fn opus_layout(layout: Option<&str>, channels: Option<u32>) -> (r: (&'static str, String))
    ensures
        r.0@ == opus_name(opus_target(str_of(layout), channels)),
        r.1@ == opus_filter(str_of(layout), channels),
{
    let source = match layout {
        Some(l) => channel_names(l),
        None => None,
    };
    let ghost src = channel_view(source);
    assert(src == source_channels(str_of(layout)));
    let source = match source {
        Some(s) => s,
        None => {
            let count: u32 = match channels {
                Some(n) => n,
                None => 2,
            };
            let k: usize = if count < 1 {
                0
            } else if count > 8 {
                7
            } else {
                count as usize - 1
            };
            return (opus_layout_name(k), upmix_filter(k));
        },
    };
    let ghost s = char_lists(source@);
    let mut k: usize = 0;
    while k < 8
        invariant
            k <= 8,
            s == char_lists(source@),
            source_channels(str_of(layout)) == Some(s),
            first_layout(s, 0) == first_layout(s, k as int),
        decreases 8 - k,
    {
        let target = opus_layout_channels(k);
        if let Some(placed) = place_all(source.as_slice(), target.as_slice()) {
            let filter = place_filter(source.as_slice(), placed.as_slice(), k);
            return (opus_layout_name(k), filter);
        }
        k = k + 1;
    }
    let n: usize = source.len();
    let k: usize = if n < 1 {
        0
    } else if n > 8 {
        7
    } else {
        n - 1
    };
    let plain = upmix_filter(k);
    match fold_unplaced(source.as_slice()) {
        Some(f) => {
            let mut filter = f;
            filter.append(",");
            filter.append(plain.as_str());
            assert(filter@ =~= opus_filter(str_of(layout), channels));
            (opus_layout_name(k), filter)
        },
        None => (opus_layout_name(k), plain),
    }
}

/// Where Opus has a layout with a place for every channel of a source, each channel goes to a
/// place of its own or to its substitute, which the source does not have itself.
pub proof fn law_placed_channels_are_kept(source: Seq<Seq<char>>, i: int)
    requires
        first_layout(source, 0) is Some,
        0 <= i < source.len(),
    ensures
        ({
            let target = opus_channels(first_layout(source, 0)->0);
            let to = places(source, target)[i];
            target.contains(to) && (to == source[i] || (substitute(source[i]) == Some(to)
                && !source.contains(to)))
        }),
{
    lemma_first_layout(source, 0);
    let target = opus_channels(first_layout(source, 0)->0);
    assert(place_of(source[i], target, source) is Some);
}

proof fn lemma_first_layout(source: Seq<Seq<char>>, k: int)
    requires
        0 <= k <= 8,
    ensures
        match first_layout(source, k) {
            Some(n) => k <= n < 8 && all_placed(source, opus_channels(n)) && forall|m: int|
                k <= m < n ==> !all_placed(source, #[trigger] opus_channels(m)),
            None => forall|m: int| k <= m < 8 ==> !all_placed(source, #[trigger] opus_channels(m)),
        },
    decreases 8 - k,
{
    if k < 8 && !all_placed(source, opus_channels(k)) {
        lemma_first_layout(source, k + 1);
    }
}

proof fn lemma_mixed_into(rows: Seq<RowView>, name: Seq<char>, c: Seq<char>, d: Seq<char>)
    ensures
        mixed_into(rows, name, c).len() == rows.len(),
        carried(rows, d) ==> carried(mixed_into(rows, name, c), d),
        has_row(rows, d) ==> has_row(mixed_into(rows, name, c), d),
        has_row(rows, name) ==> carried(mixed_into(rows, name, c), c),
{
    lemma_row_at(rows, name, 0);
    let at = row_at(rows, name, 0);
    let out = mixed_into(rows, name, c);
    if carried(rows, d) {
        let i = choose|i: int| 0 <= i < rows.len() && #[trigger] holds_channel(rows[i], d);
        if i == at {
            if rows[i].name != d {
                let j = choose|j: int| 0 <= j < rows[i].extra.len() && rows[i].extra[j] == d;
                assert(out[i].extra[j] == d);
            }
        }
        assert(holds_channel(out[i], d));
    }
    if has_row(rows, d) {
        let i = choose|i: int| 0 <= i < rows.len() && (#[trigger] rows[i]).name == d;
        assert(out[i].name == d);
    }
    if has_row(rows, name) {
        assert(0 <= at < rows.len());
        assert(out[at].extra[rows[at].extra.len() as int] == c);
        assert(holds_channel(out[at], c));
    }
}

proof fn lemma_row_at(rows: Seq<RowView>, name: Seq<char>, i: int)
    requires
        0 <= i <= rows.len(),
    ensures
        i <= row_at(rows, name, i) <= rows.len(),
        row_at(rows, name, i) < rows.len() ==> rows[row_at(rows, name, i)].name == name,
        (exists|k: int| i <= k < rows.len() && (#[trigger] rows[k]).name == name) ==> row_at(
            rows,
            name,
            i,
        ) < rows.len(),
    decreases rows.len() - i,
{
    if i < rows.len() && rows[i].name != name {
        lemma_row_at(rows, name, i + 1);
    }
}

/// A channel is heard in an output of the mix: it is the output, or mixed into it.
pub open spec fn holds_channel(r: RowView, c: Seq<char>) -> bool {
    r.name == c || r.extra.contains(c)
}

/// A channel is heard somewhere in the mix.
pub open spec fn carried(rows: Seq<RowView>, c: Seq<char>) -> bool {
    exists|i: int| 0 <= i < rows.len() && #[trigger] holds_channel(rows[i], c)
}

proof fn lemma_mixed(rows: Seq<RowView>, place: Seq<Seq<char>>, c: Seq<char>, n: nat, d: Seq<char>)
    requires
        n <= place.len(),
        has_all_rows(rows, place),
    ensures
        has_all_rows(mixed(rows, place, c, n), place),
        carried(rows, d) ==> carried(mixed(rows, place, c, n), d),
        n > 0 ==> carried(mixed(rows, place, c, n), c),
    decreases n,
{
    if n > 0 {
        lemma_mixed(rows, place, c, (n - 1) as nat, d);
        let before = mixed(rows, place, c, (n - 1) as nat);
        assert(has_row(before, place[n - 1]));
        lemma_mixed_into(before, place[n - 1], c, d);
        assert forall|i: int| 0 <= i < place.len() implies has_row(
            mixed(rows, place, c, n),
            #[trigger] place[i],
        ) by {
            lemma_mixed_into(before, place[n - 1], c, place[i]);
        }
    }
}

proof fn lemma_first_place(rows: Seq<RowView>, offers: Seq<Seq<char>>, k: int)
    requires
        0 <= k <= offers.len(),
    ensures
        match first_place(rows, offers, k) {
            Some(n) => k <= n < offers.len() && has_all_rows(rows, place_channels(offers[n])),
            None => true,
        },
    decreases offers.len() - k,
{
    if k < offers.len() && !has_all_rows(rows, place_channels(offers[k])) {
        lemma_first_place(rows, offers, k + 1);
    }
}

proof fn lemma_folded_one(rows: Seq<RowView>, c: Seq<char>, d: Seq<char>)
    ensures
        carried(rows, d) ==> carried(folded_one(rows, c), d),
        fold_text(c) is Some ==> carried(folded_one(rows, c), c),
{
    if let Some(text) = fold_text(c) {
        lemma_first_place(rows, offered(text), 0);
        match first_place(rows, offered(text), 0) {
            Some(k) => {
                let place = place_channels(offered(text)[k]);
                crate::text::lemma_pieces(offered(text)[k], Separator::Char { c: '+' });
                lemma_mixed(rows, place, c, place.len(), d);
            },
            None => {
                let out = rows.push(RowView { name: c, extra: Seq::empty() });
                assert(holds_channel(out[rows.len() as int], c));
                if carried(rows, d) {
                    let i = choose|i: int|
                        0 <= i < rows.len() && #[trigger] holds_channel(rows[i], d);
                    assert(holds_channel(out[i], d));
                }
            },
        }
    }
}

proof fn lemma_kept(source: Seq<Seq<char>>, n: nat, i: int)
    requires
        0 <= i < n <= source.len(),
        fold_text(source[i]) is None,
    ensures
        carried(kept_rows(source, n), source[i]),
    decreases n,
{
    let out = kept_rows(source, n);
    let before = kept_rows(source, (n - 1) as nat);
    if i == n - 1 {
        assert(holds_channel(out[before.len() as int], source[i]));
    } else {
        lemma_kept(source, (n - 1) as nat, i);
        let k = choose|k: int|
            0 <= k < before.len() && #[trigger] holds_channel(before[k], source[i]);
        assert(holds_channel(out[k], source[i]));
    }
}

proof fn lemma_carried(source: Seq<Seq<char>>, n: nat, i: int)
    requires
        n <= source.len(),
        0 <= i < source.len(),
        fold_text(source[i]) is None || i < n,
    ensures
        carried(folded_rows(source, n), source[i]),
    decreases n,
{
    if n == 0 {
        lemma_kept(source, source.len(), i);
    } else {
        lemma_folded_one(folded_rows(source, (n - 1) as nat), source[n - 1], source[i]);
        if fold_text(source[i]) is None || i < n - 1 {
            lemma_carried(source, (n - 1) as nat, i);
        }
    }
}

/// No channel of the source is lost in the mix: each one is an output of it, or mixed into
/// one.
pub proof fn law_no_channel_is_dropped(source: Seq<Seq<char>>, i: int)
    requires
        0 <= i < source.len(),
    ensures
        carried(folded_rows(source, source.len()), source[i]),
{
    lemma_carried(source, source.len(), i);
}

// ---------------------------------------------------------------------------
// Encoder options in order
// ---------------------------------------------------------------------------
/// An option and its value.
pub type Words = (Seq<char>, Seq<char>);

pub open spec fn pair_less(a: Words, b: Words) -> bool {
    less(a.0, b.0) || (a.0 == b.0 && less(a.1, b.1))
}

/// A pair put in front of the pairs at the end that come behind it.
pub open spec fn inserted(list: Seq<Words>, x: Words) -> Seq<Words>
    decreases list.len(),
{
    if list.len() > 0 && pair_less(x, list.last()) {
        inserted(list.drop_last(), x).push(list.last())
    } else {
        list.push(x)
    }
}

pub open spec fn option_words(options: Seq<(String, ParamValue)>) -> Seq<Words> {
    Seq::new(options.len(), |i: int| (options[i].0@, param_text(options[i].1)))
}

/// The first `n` options in order.
pub open spec fn sorted_words(list: Seq<Words>, n: nat) -> Seq<Words>
    decreases n,
{
    if n == 0 {
        Seq::empty()
    } else {
        inserted(sorted_words(list, (n - 1) as nat), list[n - 1])
    }
}

pub open spec fn word_views(v: Seq<(String, String)>) -> Seq<Words> {
    Seq::new(v.len(), |i: int| (v[i].0@, v[i].1@))
}

fn comes_first(a: &(String, String), b: &(String, String)) -> (r: bool)
    ensures
        r == pair_less((a.0@, a.1@), (b.0@, b.1@)),
{
    is_less(a.0.as_str(), b.0.as_str()) || (same(a.0.as_str(), b.0.as_str()) && is_less(
        a.1.as_str(),
        b.1.as_str(),
    ))
}

fn insert_in_order(list: &mut Vec<(String, String)>, x: (String, String))
    ensures
        word_views(final(list)@) == inserted(word_views(old(list)@), (x.0@, x.1@)),
{
    let ghost start = word_views(list@);
    let ghost w = (x.0@, x.1@);
    let mut at: usize = list.len();
    proof {
        assert(start.subrange(0, at as int) =~= start);
        assert(inserted(start, w) =~= inserted(start.subrange(0, at as int), w) + start.subrange(
            at as int,
            start.len() as int,
        ));
    }
    while at > 0 && comes_first(&x, &list[at - 1])
        invariant
            at <= list@.len(),
            start == word_views(list@),
            w == (x.0@, x.1@),
            inserted(start, w) == inserted(start.subrange(0, at as int), w) + start.subrange(
                at as int,
                start.len() as int,
            ),
        decreases at,
    {
        proof {
            let front = start.subrange(0, at as int);
            assert(front.last() == start[at - 1]);
            assert(front.drop_last() =~= start.subrange(0, at - 1));
            assert(inserted(front, w) + start.subrange(at as int, start.len() as int)
                =~= inserted(start.subrange(0, at - 1), w) + start.subrange(
                at - 1,
                start.len() as int,
            ));
        }
        at = at - 1;
    }
    proof {
        let front = start.subrange(0, at as int);
        if at > 0 {
            assert(front.last() == start[at - 1]);
        }
        assert(inserted(front, w) == front.push(w));
    }
    list.insert(at, x);
    assert(word_views(list@) =~= start.subrange(0, at as int).push(w) + start.subrange(
        at as int,
        start.len() as int,
    ));
}

fn sort_options(options: &Vec<(String, ParamValue)>) -> (out: Vec<(String, String)>)
    ensures
        word_views(out@) == sorted_words(option_words(options@), options@.len()),
{
    let ghost list = option_words(options@);
    let mut out: Vec<(String, String)> = Vec::new();
    let mut i: usize = 0;
    assert(word_views(out@) =~= Seq::empty());
    while i < options.len()
        invariant
            i <= options@.len(),
            list == option_words(options@),
            word_views(out@) == sorted_words(list, i as nat),
        decreases options@.len() - i,
    {
        assert(list[i as int] == (options@[i as int].0@, param_text(options@[i as int].1)));
        let pair = (options[i].0.clone(), toml_value_to_arg(&options[i].1));
        insert_in_order(&mut out, pair);
        i = i + 1;
    }
    out
}

pub proof fn lemma_pair_order(a: Words, b: Words, c: Words)
    ensures
        !pair_less(a, a),
        pair_less(a, b) && pair_less(b, c) ==> pair_less(a, c),
        pair_less(a, b) ==> !pair_less(b, a),
        !pair_less(a, b) && !pair_less(b, c) ==> !pair_less(a, c),
{
    lemma_less_irreflexive(a.0);
    lemma_less_irreflexive(a.1);
    lemma_less_irreflexive(b.0);
    lemma_less_irreflexive(b.1);
    lemma_less_irreflexive(c.0);
    lemma_less_total(a.0, b.0);
    lemma_less_total(b.0, c.0);
    lemma_less_total(a.1, b.1);
    lemma_less_total(b.1, c.1);
    if less(a.0, b.0) && less(b.0, c.0) {
        lemma_less_transitive(a.0, b.0, c.0);
    }
    if less(a.1, b.1) && less(b.1, c.1) {
        lemma_less_transitive(a.1, b.1, c.1);
    }
    if less(a.0, b.0) && less(b.0, a.0) {
        lemma_less_transitive(a.0, b.0, a.0);
    }
    if less(a.1, b.1) && less(b.1, a.1) {
        lemma_less_transitive(a.1, b.1, a.1);
    }
    if less(b.0, a.0) && less(a.0, c.0) {
        lemma_less_transitive(b.0, a.0, c.0);
    }
    if less(c.0, b.0) && less(a.0, c.0) {
        lemma_less_transitive(a.0, c.0, b.0);
    }
    if less(c.0, b.0) && less(b.0, a.0) {
        lemma_less_transitive(c.0, b.0, a.0);
        if less(a.0, c.0) {
            lemma_less_transitive(a.0, c.0, a.0);
        }
    }
    if less(b.0, c.0) && less(c.0, b.0) {
        lemma_less_transitive(b.0, c.0, b.0);
    }
    if less(a.1, c.1) && less(c.1, b.1) {
        lemma_less_transitive(a.1, c.1, b.1);
    }
    if less(b.1, a.1) && less(a.1, c.1) {
        lemma_less_transitive(b.1, a.1, c.1);
    }
}

/// None of these pairs comes before one in front of it.
pub open spec fn in_order(list: Seq<Words>) -> bool {
    forall|i: int, j: int|
        #![trigger list[i], list[j]]
        0 <= i < j < list.len() ==> !pair_less(list[j], list[i])
}

proof fn lemma_inserted(list: Seq<Words>, x: Words)
    requires
        in_order(list),
    ensures
        in_order(inserted(list, x)),
        inserted(list, x).to_multiset() == list.to_multiset().insert(x),
        inserted(list, x).len() == list.len() + 1,
        forall|y: Words| #[trigger] inserted(list, x).contains(y) ==> y == x || list.contains(y),
    decreases list.len(),
{
    broadcast use vstd::seq_lib::group_to_multiset_ensures;

    let out = inserted(list, x);
    if list.len() > 0 && pair_less(x, list.last()) {
        let front = list.drop_last();
        let last = list.last();
        assert forall|i: int, j: int|
            #![trigger front[i], front[j]]
            0 <= i < j < front.len() implies !pair_less(front[j], front[i]) by {
            assert(!pair_less(list[j], list[i]));
        }
        lemma_inserted(front, x);
        let before = inserted(front, x);
        assert(list =~= front.push(last));
        assert(out.to_multiset() =~= before.to_multiset().insert(last));
        assert(list.to_multiset() =~= front.to_multiset().insert(last));
        assert forall|i: int, j: int|
            #![trigger out[i], out[j]]
            0 <= i < j < out.len() implies !pair_less(out[j], out[i]) by {
            if j == out.len() - 1 {
                assert(before.contains(before[i]));
                if before[i] == x {
                    lemma_pair_order(x, last, x);
                } else {
                    let k = choose|k: int| 0 <= k < front.len() && front[k] == before[i];
                    assert(!pair_less(list[list.len() - 1], list[k]));
                }
            } else {
                assert(!pair_less(before[j], before[i]));
            }
        }
        assert forall|y: Words| #[trigger] out.contains(y) implies y == x || list.contains(y) by {
            let k = choose|k: int| 0 <= k < out.len() && out[k] == y;
            if k < before.len() {
                assert(before.contains(y));
                if y != x {
                    let m = choose|m: int| 0 <= m < front.len() && front[m] == y;
                    assert(list[m] == y);
                }
            } else {
                assert(list[list.len() - 1] == y);
            }
        }
    } else {
        assert forall|i: int, j: int|
            #![trigger out[i], out[j]]
            0 <= i < j < out.len() implies !pair_less(out[j], out[i]) by {
            if j == out.len() - 1 {
                if i < list.len() - 1 {
                    assert(!pair_less(list[list.len() - 1], list[i]));
                    lemma_pair_order(x, list.last(), list[i]);
                }
            } else {
                assert(!pair_less(list[j], list[i]));
            }
        }
        assert forall|y: Words| #[trigger] out.contains(y) implies y == x || list.contains(y) by {
            let k = choose|k: int| 0 <= k < out.len() && out[k] == y;
            if k < list.len() {
                assert(list[k] == y);
            }
        }
    }
}

proof fn lemma_sorted(list: Seq<Words>, n: nat)
    requires
        n <= list.len(),
    ensures
        in_order(sorted_words(list, n)),
        sorted_words(list, n).to_multiset() == list.subrange(0, n as int).to_multiset(),
    decreases n,
{
    broadcast use vstd::seq_lib::group_to_multiset_ensures;

    if n == 0 {
        assert(list.subrange(0, 0) =~= Seq::empty());
    } else {
        lemma_sorted(list, (n - 1) as nat);
        lemma_inserted(sorted_words(list, (n - 1) as nat), list[n - 1]);
        assert(list.subrange(0, n as int) =~= list.subrange(0, n - 1).push(list[n - 1]));
    }
}

/// The options of an encoder reach it in the order of their names, and none is lost or added.
pub proof fn law_options_are_sorted(list: Seq<Words>)
    ensures
        in_order(sorted_words(list, list.len())),
        sorted_words(list, list.len()).to_multiset() == list.to_multiset(),
{
    lemma_sorted(list, list.len());
    assert(list.subrange(0, list.len() as int) =~= list);
}

// ---------------------------------------------------------------------------
// The plan
// ---------------------------------------------------------------------------
/// What becomes of a track.
#[derive(Debug)]
pub enum Action {
    /// Copied without this many packets at its start, which only prime the decoder.
    Copy { preroll: usize },
    /// Matroska has no codec ID for it: stored as PCM.
    Pcm(&'static str),
    Encode(EncodeAction),
}

#[derive(Debug)]
pub struct EncodeAction {
    pub codec: String,
    pub bitrate: Option<String>,
    pub options: Vec<(String, String)>,
    /// The layout that Opus gets, and the filter that gets there.
    pub layout: Option<(&'static str, String)>,
}

#[verifier::ext_equal]
pub enum ActionView {
    Copy { preroll: usize },
    Pcm(Seq<char>),
    Encode(EncodeView),
}

#[verifier::ext_equal]
pub struct EncodeView {
    pub codec: Seq<char>,
    pub bitrate: Option<Seq<char>>,
    pub options: Seq<Words>,
    pub layout: Option<(Seq<char>, Seq<char>)>,
}

impl View for Action {
    type V = ActionView;

    open spec fn view(&self) -> ActionView {
        match self {
            Action::Copy { preroll } => ActionView::Copy { preroll: *preroll },
            Action::Pcm(codec) => ActionView::Pcm(codec@),
            Action::Encode(e) => ActionView::Encode(e@),
        }
    }
}

impl View for EncodeAction {
    type V = EncodeView;

    open spec fn view(&self) -> EncodeView {
        EncodeView {
            codec: self.codec@,
            bitrate: text_of(self.bitrate),
            options: word_views(self.options@),
            layout: match self.layout {
                Some((name, filter)) => Some((name@, filter@)),
                None => None,
            },
        }
    }
}

/// A track of the output.
#[derive(Debug)]
pub struct PlannedTrack {
    pub audio_index: usize,
    pub codec_name: String,
    pub channels: Option<u32>,
    pub bits_per_raw_sample: u32,
    pub language: Option<String>,
    pub title: Option<String>,
    pub lossless: bool,
    pub action: Action,
}

#[verifier::ext_equal]
pub struct PlannedView {
    pub audio_index: usize,
    pub codec_name: Seq<char>,
    pub channels: Option<u32>,
    pub bits_per_raw_sample: u32,
    pub language: Option<Seq<char>>,
    pub title: Option<Seq<char>>,
    pub lossless: bool,
    pub action: ActionView,
}

impl View for PlannedTrack {
    type V = PlannedView;

    open spec fn view(&self) -> PlannedView {
        PlannedView {
            audio_index: self.audio_index,
            codec_name: self.codec_name@,
            channels: self.channels,
            bits_per_raw_sample: self.bits_per_raw_sample,
            language: text_of(self.language),
            title: text_of(self.title),
            lossless: self.lossless,
            action: self.action@,
        }
    }
}

/// Why the audio cannot be planned.
#[derive(Debug)]
pub enum AudioError {
    /// A track is to be encoded, and no codec is set.
    CodecMissing(usize),
    /// ffmpeg has no such encoder; the profile can be mended, so the job is tried again.
    NoEncoder(usize, String),
}

#[verifier::ext_equal]
pub enum AudioErrorView {
    CodecMissing(usize),
    NoEncoder(usize, Seq<char>),
}

impl View for AudioError {
    type V = AudioErrorView;

    open spec fn view(&self) -> AudioErrorView {
        match self {
            AudioError::CodecMissing(i) => AudioErrorView::CodecMissing(*i),
            AudioError::NoEncoder(i, codec) => AudioErrorView::NoEncoder(*i, codec@),
        }
    }
}

/// The tracks of the output, in order.
#[derive(Debug)]
pub struct AudioPlan {
    pub tracks: Vec<PlannedTrack>,
}

pub open spec fn planned_views(v: Seq<PlannedTrack>) -> Seq<PlannedView> {
    Seq::new(v.len(), |i: int| v[i]@)
}

/// Whether a track is taken: it carries something, which not every announced stream does, and
/// its language is kept.
pub open spec fn track_taken(t: AudioTrack, whitelist: Seq<Seq<char>>) -> bool {
    t.sample_rate > 0 && t.channels is Some && t.channels->0 > 0 && language_kept(
        whitelist,
        text_of(t.language),
    )
}

pub fn is_taken(t: &AudioTrack, config: &AudioConfig) -> (r: bool)
    ensures
        r == track_taken(*t, strings(config.language_whitelist@)),
{
    let carries = match t.channels {
        Some(n) => n > 0 && t.sample_rate > 0,
        None => false,
    };
    carries && language_selected(config.language_whitelist.as_slice(), as_text(&t.language))
}

pub open spec fn name_set(s: Option<NameSet>) -> Option<Set<Seq<char>>> {
    match s {
        Some(s) => Some(s@),
        None => None,
    }
}

pub open spec fn name_set_ref(s: Option<&NameSet>) -> Option<Set<Seq<char>>> {
    match s {
        Some(s) => Some(s@),
        None => None,
    }
}

/// Whether a codec is in a list, or there is no list.
pub open spec fn offered_by(list: Option<Set<Seq<char>>>, codec: Seq<char>) -> bool {
    match list {
        Some(s) => s.contains(codec),
        None => true,
    }
}

pub open spec fn track_lossless(t: AudioTrack, codecs: AudioCodecs) -> bool {
    lossless_source(t.codec_name@, text_of(t.profile), codecs.lossless@)
}

/// Whether a track is copied if it can be: its rule says so, or ffmpeg cannot decode it.
pub open spec fn copy_first(t: AudioTrack, config: AudioConfig, codecs: AudioCodecs) -> bool {
    resolved_mode(config, rule_for(config, t.codec_name@, track_lossless(t, codecs)))
        == AudioMode::Copy || !offered_by(name_set(codecs.decodable), t.codec_name@)
}

fn is_decodable(t: &AudioTrack, codecs: &AudioCodecs) -> (r: bool)
    ensures
        r == offered_by(name_set(codecs.decodable), t.codec_name@),
{
    match &codecs.decodable {
        Some(set) => set.contains(t.codec_name.as_str()),
        None => true,
    }
}

/// Whether it matters if a track can be copied into Matroska.
pub fn wants_copy_check(t: &AudioTrack, config: &AudioConfig, codecs: &AudioCodecs) -> (r: bool)
    ensures
        r == copy_first(*t, *config, *codecs),
{
    let lossless = is_lossless(t.codec_name.as_str(), as_text(&t.profile), &codecs.lossless);
    let resolved = config.resolve(t.codec_name.as_str(), lossless);
    resolved.mode == AudioMode::Copy || !is_decodable(t, codecs)
}

/// What an encoded track gets: for Opus a layout of its own, no bitrate for a lossless
/// encoder, and the bitrate of the layout otherwise.
pub open spec fn encode_of(t: AudioTrack, config: AudioConfig, lossless: bool, codec: Seq<char>) -> EncodeView {
    let rule = rule_for(config, t.codec_name@, lossless);
    let opus = occurs(codec, "opus"@);
    let name = opus_name(opus_target(text_of(t.channel_layout), t.channels));
    let words = option_words(resolved_options(config, rule));
    EncodeView {
        codec,
        bitrate: if lossless_encoder(codec) {
            None
        } else {
            match resolved_bitrate(config, rule) {
                Some(b) => bitrate_for(
                    b,
                    if opus {
                        Some(name)
                    } else {
                        match t.channels {
                            Some(n) => layout_of(n),
                            None => None,
                        }
                    },
                ),
                None => None,
            }
        },
        options: sorted_words(words, words.len()),
        layout: if opus {
            Some((name, opus_filter(text_of(t.channel_layout), t.channels)))
        } else {
            None
        },
    }
}

/// What becomes of a track: None leaves it out. `copied` tells whether it can be copied, and
/// how many packets at its start are left out then.
pub open spec fn action_of(
    t: AudioTrack,
    config: AudioConfig,
    codecs: AudioCodecs,
    encoders: Option<Set<Seq<char>>>,
    copied: Option<usize>,
) -> Result<Option<ActionView>, AudioErrorView> {
    let lossless = track_lossless(t, codecs);
    let rule = rule_for(config, t.codec_name@, lossless);
    if copy_first(t, config, codecs) {
        match copied {
            Some(preroll) => Ok(Some(ActionView::Copy { preroll })),
            None => if offered_by(name_set(codecs.decodable), t.codec_name@) {
                Ok(Some(ActionView::Pcm(pcm_of(t.sample_fmt@, t.bits_per_raw_sample))))
            } else {
                Ok(None)
            },
        }
    } else {
        match resolved_codec(config, rule) {
            None => Err(AudioErrorView::CodecMissing(t.audio_index)),
            Some(c) => if !offered_by(encoders, c@) {
                Err(AudioErrorView::NoEncoder(t.audio_index, c@))
            } else {
                Ok(Some(ActionView::Encode(encode_of(t, config, lossless, c@))))
            },
        }
    }
}

/// A track with its action.
pub open spec fn planned_of(t: AudioTrack, lossless: bool, action: ActionView) -> PlannedView {
    PlannedView {
        audio_index: t.audio_index,
        codec_name: t.codec_name@,
        channels: t.channels,
        bits_per_raw_sample: t.bits_per_raw_sample,
        language: text_of(t.language),
        title: text_of(t.title),
        lossless,
        action,
    }
}

fn encode_action(t: &AudioTrack, config: &AudioConfig, lossless: bool, codec: &str) -> (e:
    EncodeAction)
    ensures
        e@ == encode_of(*t, *config, lossless, codec@),
{
    let resolved = config.resolve(t.codec_name.as_str(), lossless);
    let chars = to_chars(codec);
    let layout = if contains(chars.as_slice(), "opus") {
        Some(opus_layout(as_text(&t.channel_layout), t.channels))
    } else {
        None
    };
    let bitrate = if output_is_lossless(codec) {
        None
    } else {
        match resolved.bitrate {
            Some(b) => {
                let found = match &layout {
                    Some((name, _)) => b.resolve_layout(name),
                    None => b.resolve(t.channels),
                };
                match found {
                    Some(v) => Some(v.to_owned()),
                    None => None,
                }
            },
            None => None,
        }
    };
    let options = sort_options(resolved.options);
    let e = EncodeAction { codec: codec.to_owned(), bitrate, options, layout };
    assert(e@ =~= encode_of(*t, *config, lossless, codec@));
    e
}

pub open spec fn track_view(t: Option<PlannedTrack>) -> Option<PlannedView> {
    match t {
        Some(t) => Some(t@),
        None => None,
    }
}

/// What one track becomes; None leaves it out.
pub open spec fn track_plan(
    t: AudioTrack,
    config: AudioConfig,
    codecs: AudioCodecs,
    encoders: Option<Set<Seq<char>>>,
    copied: Option<usize>,
) -> Result<Option<PlannedView>, AudioErrorView> {
    match action_of(t, config, codecs, encoders, copied) {
        Err(e) => Err(e),
        Ok(None) => Ok(None),
        Ok(Some(a)) => Ok(Some(planned_of(t, track_lossless(t, codecs), a))),
    }
}

/// Decides on one track. A track that ffmpeg can neither decode nor copy is left out.
pub fn plan_track(
    t: &AudioTrack,
    config: &AudioConfig,
    codecs: &AudioCodecs,
    encoders: Option<&NameSet>,
    copied: Option<usize>,
) -> (r: Result<Option<PlannedTrack>, AudioError>)
    ensures
        match r {
            Ok(p) => track_plan(*t, *config, *codecs, name_set_ref(encoders), copied) == Ok::<
                _,
                AudioErrorView,
            >(track_view(p)),
            Err(e) => track_plan(*t, *config, *codecs, name_set_ref(encoders), copied) == Err::<
                Option<PlannedView>,
                _,
            >(e@),
        },
{
    let lossless = is_lossless(t.codec_name.as_str(), as_text(&t.profile), &codecs.lossless);
    let decodable = is_decodable(t, codecs);
    let resolved = config.resolve(t.codec_name.as_str(), lossless);
    let action: Action = if resolved.mode == AudioMode::Copy || !decodable {
        match copied {
            Some(preroll) => Action::Copy { preroll },
            None => {
                if decodable {
                    Action::Pcm(pcm_codec(t))
                } else {
                    return Ok(None);
                }
            },
        }
    } else {
        match resolved.codec {
            None => {
                return Err(AudioError::CodecMissing(t.audio_index));
            },
            Some(codec) => {
                let known = match encoders {
                    Some(set) => set.contains(codec.as_str()),
                    None => true,
                };
                if !known {
                    return Err(AudioError::NoEncoder(t.audio_index, codec.clone()));
                }
                Action::Encode(encode_action(t, config, lossless, codec.as_str()))
            },
        }
    };
    let p = PlannedTrack {
        audio_index: t.audio_index,
        codec_name: t.codec_name.clone(),
        channels: t.channels,
        bits_per_raw_sample: t.bits_per_raw_sample,
        language: copy_text(&t.language),
        title: copy_text(&t.title),
        lossless,
        action,
    };
    assert(p@ =~= planned_of(*t, track_lossless(*t, *codecs), p.action@));
    Ok(Some(p))
}

/// The plan for the first `n` tracks, or the first error among them.
pub open spec fn plan_of(
    tracks: Seq<AudioTrack>,
    config: AudioConfig,
    codecs: AudioCodecs,
    encoders: Option<Set<Seq<char>>>,
    copied: Seq<Option<usize>>,
    n: nat,
) -> Result<Seq<PlannedView>, AudioErrorView>
    decreases n,
{
    if n == 0 {
        Ok(Seq::empty())
    } else {
        match plan_of(tracks, config, codecs, encoders, copied, (n - 1) as nat) {
            Err(e) => Err(e),
            Ok(before) => if !track_taken(tracks[n - 1], strings(config.language_whitelist@)) {
                Ok(before)
            } else {
                match track_plan(tracks[n - 1], config, codecs, encoders, copied[n - 1]) {
                    Err(e) => Err(e),
                    Ok(None) => Ok(before),
                    Ok(Some(p)) => Ok(before.push(p)),
                }
            },
        }
    }
}

proof fn lemma_plan_error_stays(
    tracks: Seq<AudioTrack>,
    config: AudioConfig,
    codecs: AudioCodecs,
    encoders: Option<Set<Seq<char>>>,
    copied: Seq<Option<usize>>,
    a: nat,
    b: nat,
)
    requires
        a <= b,
        plan_of(tracks, config, codecs, encoders, copied, a) is Err,
    ensures
        plan_of(tracks, config, codecs, encoders, copied, b) == plan_of(
            tracks,
            config,
            codecs,
            encoders,
            copied,
            a,
        ),
    decreases b,
{
    if a < b {
        lemma_plan_error_stays(tracks, config, codecs, encoders, copied, a, (b - 1) as nat);
    }
}

/// Decides on every track of a source. `copied` tells of each whether it can be copied into
/// Matroska, and how many packets at its start are left out then.
pub fn plan(
    tracks: &[AudioTrack],
    config: &AudioConfig,
    codecs: &AudioCodecs,
    encoders: Option<&NameSet>,
    copied: &[Option<usize>],
) -> (r: Result<AudioPlan, AudioError>)
    requires
        copied@.len() == tracks@.len(),
    ensures
        ({
            let want = plan_of(
                tracks@,
                *config,
                *codecs,
                name_set_ref(encoders),
                copied@,
                tracks@.len(),
            );
            match r {
                Ok(p) => want == Ok::<_, AudioErrorView>(planned_views(p.tracks@)),
                Err(e) => want == Err::<Seq<PlannedView>, _>(e@),
            }
        }),
{
    let ghost known = name_set_ref(encoders);
    let mut planned: Vec<PlannedTrack> = Vec::new();
    let mut i: usize = 0;
    assert(planned_views(planned@) =~= Seq::empty());
    while i < tracks.len()
        invariant
            i <= tracks@.len(),
            copied@.len() == tracks@.len(),
            known == name_set_ref(encoders),
            plan_of(tracks@, *config, *codecs, known, copied@, i as nat) == Ok::<_, AudioErrorView>(
                planned_views(planned@),
            ),
        decreases tracks@.len() - i,
    {
        if is_taken(&tracks[i], config) {
            match plan_track(&tracks[i], config, codecs, encoders, copied[i]) {
                Ok(Some(p)) => {
                    let ghost before = planned_views(planned@);
                    let ghost view = p@;
                    planned.push(p);
                    assert(planned_views(planned@) =~= before.push(view));
                },
                Ok(None) => {},
                Err(e) => {
                    proof {
                        lemma_plan_error_stays(
                            tracks@,
                            *config,
                            *codecs,
                            known,
                            copied@,
                            (i + 1) as nat,
                            tracks@.len(),
                        );
                    }
                    return Err(e);
                },
            }
        }
        i = i + 1;
    }
    Ok(AudioPlan { tracks: planned })
}

/// The plan has the tracks that are kept, in the order of the source, each with what is known
/// of it: one that ffmpeg can decode or that can be copied is there, one that is not taken is
/// not. A track is encoded where its rule says so and ffmpeg can decode it, with the codec of
/// that rule; it is copied where the rule says so or it cannot be decoded, and stored as PCM
/// where it cannot be copied.
#[verifier::rlimit(50)]
pub proof fn law_plan_keeps_the_right_tracks(
    tracks: Seq<AudioTrack>,
    config: AudioConfig,
    codecs: AudioCodecs,
    encoders: Option<Set<Seq<char>>>,
    copied: Seq<Option<usize>>,
    n: nat,
)
    requires
        n <= tracks.len(),
        copied.len() == tracks.len(),
        forall|i: int| 0 <= i < tracks.len() ==> (#[trigger] tracks[i]).audio_index == i,
        plan_of(tracks, config, codecs, encoders, copied, n) is Ok,
    ensures
        ({
            let planned = plan_of(tracks, config, codecs, encoders, copied, n)->Ok_0;
            let whitelist = strings(config.language_whitelist@);
            &&& forall|k: int|
                0 <= k < planned.len() ==> {
                    let p = #[trigger] planned[k];
                    let t = tracks[p.audio_index as int];
                    let c = copied[p.audio_index as int];
                    let rule = rule_for(config, t.codec_name@, p.lossless);
                    let decodable = offered_by(name_set(codecs.decodable), t.codec_name@);
                    &&& p.audio_index < n && track_taken(t, whitelist)
                    &&& p.codec_name == t.codec_name@ && p.channels == t.channels
                    &&& p.bits_per_raw_sample == t.bits_per_raw_sample
                    &&& p.language == text_of(t.language) && p.title == text_of(t.title)
                    &&& p.lossless == track_lossless(t, codecs)
                    &&& match p.action {
                        ActionView::Copy { preroll } => (resolved_mode(config, rule)
                            == AudioMode::Copy || !decodable) && c == Some(preroll),
                        ActionView::Pcm(_) => resolved_mode(config, rule) == AudioMode::Copy
                            && decodable && c is None,
                        ActionView::Encode(e) => {
                            &&& resolved_mode(config, rule) != AudioMode::Copy && decodable
                            &&& resolved_codec(config, rule) matches Some(own) && own@ == e.codec
                            &&& offered_by(encoders, e.codec)
                        },
                    }
                }
            &&& forall|j: int, k: int|
                #![trigger planned[j], planned[k]]
                0 <= j < k < planned.len() ==> planned[j].audio_index < planned[k].audio_index
            &&& forall|i: int|
                0 <= i < n && track_taken(#[trigger] tracks[i], whitelist) && (copied[i] is Some
                    || offered_by(name_set(codecs.decodable), tracks[i].codec_name@))
                    ==> exists|k: int|
                    0 <= k < planned.len() && (#[trigger] planned[k]).audio_index == i
        }),
    decreases n,
{
    if n > 0 {
        let m = (n - 1) as nat;
        law_plan_keeps_the_right_tracks(tracks, config, codecs, encoders, copied, m);
        let before = plan_of(tracks, config, codecs, encoders, copied, m)->Ok_0;
        let planned = plan_of(tracks, config, codecs, encoders, copied, n)->Ok_0;
        let whitelist = strings(config.language_whitelist@);
        assert(forall|k: int|
            0 <= k < before.len() ==> #[trigger] planned[k] == before[k]);
        assert(forall|k: int|
            0 <= k < before.len() ==> #[trigger] before[k] == planned[k]);
        assert(tracks[m as int].audio_index == m);
        assert forall|i: int|
            0 <= i < n && track_taken(#[trigger] tracks[i], whitelist) && (copied[i] is Some
                || offered_by(
                name_set(codecs.decodable),
                tracks[i].codec_name@,
            )) implies exists|k: int|
            0 <= k < planned.len() && (#[trigger] planned[k]).audio_index == i by {
            if i < m {
                let k = choose|k: int|
                    0 <= k < before.len() && (#[trigger] before[k]).audio_index == i;
                assert(planned[k].audio_index == i);
            } else {
                assert(planned.last().audio_index == i);
            }
        }
    }
}

/// A copied track needs no encoder: with every track copied, or stored as PCM, the plan never
/// fails.
pub proof fn law_copying_never_fails(
    tracks: Seq<AudioTrack>,
    config: AudioConfig,
    codecs: AudioCodecs,
    encoders: Option<Set<Seq<char>>>,
    copied: Seq<Option<usize>>,
    n: nat,
)
    requires
        n <= tracks.len(),
        forall|i: int| 0 <= i < n ==> copy_first(#[trigger] tracks[i], config, codecs),
    ensures
        plan_of(tracks, config, codecs, encoders, copied, n) is Ok,
    decreases n,
{
    if n > 0 {
        law_copying_never_fails(tracks, config, codecs, encoders, copied, (n - 1) as nat);
        assert(copy_first(tracks[n - 1], config, codecs));
    }
}

// ---------------------------------------------------------------------------
// The plan in words
// ---------------------------------------------------------------------------
/// What the log says of an action.
pub open spec fn action_words(t: PlannedView) -> Seq<char> {
    match t.action {
        ActionView::Copy { preroll } => if preroll == 0 {
            "copy"@
        } else {
            "copy without "@ + decimal(preroll as nat) + " priming packet(s)"@
        },
        ActionView::Pcm(codec) => codec + ", no Matroska codec ID for "@ + t.codec_name,
        ActionView::Encode(e) => display_of(e.codec) + (match e.bitrate {
            Some(b) => " "@ + b,
            None => Seq::empty(),
        }) + (match e.layout {
            Some((name, _)) => if t.channels is Some && layout_word(t.channels->0) == name {
                Seq::empty()
            } else {
                " as "@ + name
            },
            None => Seq::empty(),
        }),
    }
}

/// What the log says of track number `i`.
pub open spec fn summary_of(t: PlannedView, i: int) -> Seq<char> {
    "track "@ + decimal(i as nat) + ": "@ + text_or(t.language, "und"@) + " "@ + t.codec_name
        + " "@ + (match t.channels {
        Some(n) => layout_word(n),
        None => "?"@,
    }) + (if t.lossless {
        " (lossless) -> "@
    } else {
        " (lossy) -> "@
    }) + action_words(t)
}

fn action_text(t: &PlannedTrack) -> (s: String)
    ensures
        s@ == action_words(t@),
{
    match &t.action {
        Action::Copy { preroll } => {
            if *preroll == 0 {
                "copy".to_owned()
            } else {
                let mut s = "copy without ".to_owned();
                push_decimal(&mut s, *preroll as u64);
                s.append(" priming packet(s)");
                s
            }
        },
        Action::Pcm(codec) => {
            let mut s = (*codec).to_owned();
            s.append(", no Matroska codec ID for ");
            s.append(t.codec_name.as_str());
            s
        },
        Action::Encode(e) => {
            let mut s = codec_display(e.codec.as_str()).to_owned();
            let ghost head = s@;
            if let Some(b) = &e.bitrate {
                s.append(" ");
                s.append(b.as_str());
            }
            let ghost rated = s@;
            assert(rated =~= head + match text_of(e.bitrate) {
                Some(b) => " "@ + b,
                None => Seq::empty(),
            });
            if let Some((name, _)) = &e.layout {
                let own = match t.channels {
                    Some(n) => same(layout_name(n), name),
                    None => false,
                };
                if !own {
                    s.append(" as ");
                    s.append(name);
                }
            }
            assert(s@ =~= action_words(t@));
            s
        },
    }
}

impl AudioPlan {
    /// A line for each track.
    pub fn summary_lines(&self) -> (out: Vec<String>)
        ensures
            self.tracks@.len() == 0 ==> strings(out@) == seq!["no audio tracks"@],
            self.tracks@.len() > 0 ==> out@.len() == self.tracks@.len() && forall|i: int|
                0 <= i < out@.len() ==> (#[trigger] out@[i])@ == summary_of(self.tracks@[i]@, i),
    {
        let mut out: Vec<String> = Vec::new();
        if self.tracks.len() == 0 {
            out.push("no audio tracks".to_owned());
            assert(strings(out@) =~= seq!["no audio tracks"@]);
            return out;
        }
        let mut i: usize = 0;
        while i < self.tracks.len()
            invariant
                i <= self.tracks@.len(),
                out@.len() == i,
                forall|k: int|
                    0 <= k < i ==> (#[trigger] out@[k])@ == summary_of(self.tracks@[k]@, k),
            decreases self.tracks@.len() - i,
        {
            let t = &self.tracks[i];
            let mut s = "track ".to_owned();
            push_decimal(&mut s, i as u64);
            s.append(": ");
            match &t.language {
                Some(l) => {
                    s.append(l.as_str());
                },
                None => {
                    s.append("und");
                },
            }
            s.append(" ");
            s.append(t.codec_name.as_str());
            s.append(" ");
            match t.channels {
                Some(n) => {
                    s.append(layout_name(n));
                },
                None => {
                    s.append("?");
                },
            }
            if t.lossless {
                s.append(" (lossless) -> ");
            } else {
                s.append(" (lossy) -> ");
            }
            s.append(action_text(t).as_str());
            assert(s@ =~= summary_of(t@, i as int));
            out.push(s);
            i = i + 1;
        }
        out
    }
}

// ---------------------------------------------------------------------------
// Extraction
// ---------------------------------------------------------------------------
/// A title without the marker of a codec that an earlier run put behind it.
pub open spec fn without_marker(title: Seq<char>, marker: Seq<char>) -> Seq<char> {
    let tail = "("@ + marker + ")"@;
    if has_suffix(title, tail) {
        trim_end(title.subrange(0, title.len() - tail.len()))
    } else {
        title
    }
}

/// Drops a trailing "(Marker)" that an earlier run added.
pub fn strip_codec_marker(title: &str, marker: &str) -> (s: String)
    ensures
        s@ == without_marker(title@, marker@),
{
    let mut tail = "(".to_owned();
    tail.append(marker);
    tail.append(")");
    assert(tail@ =~= "("@ + marker@ + ")"@);
    let chars = to_chars(title);
    let end = to_chars(tail.as_str());
    if ends_with(chars.as_slice(), tail.as_str()) {
        let base = part(chars.as_slice(), 0, chars.len() - end.len());
        let kept = trim_back(base.as_slice());
        from_chars(kept.as_slice())
    } else {
        title.to_owned()
    }
}

/// The title of an encoded track: its own with the codec behind it, once.
pub open spec fn marked_title(title: Option<Seq<char>>, marker: Seq<char>) -> Seq<char> {
    match title {
        Some(t) => {
            let own = trimmed(t);
            let base = without_marker(own, marker);
            if own.len() == 0 || base.len() == 0 {
                marker
            } else {
                base + " ("@ + marker + ")"@
            }
        },
        None => marker,
    }
}

fn mark_title(title: Option<&str>, marker: &str) -> (s: String)
    ensures
        s@ == marked_title(str_of(title), marker@),
{
    match title {
        Some(t) => {
            let chars = to_chars(t);
            let own = trim(chars.as_slice());
            if own.len() == 0 {
                return marker.to_owned();
            }
            let base = strip_codec_marker(from_chars(own.as_slice()).as_str(), marker);
            let base_chars = to_chars(base.as_str());
            if base_chars.len() == 0 {
                return marker.to_owned();
            }
            let mut s = base;
            s.append(" (");
            s.append(marker);
            s.append(")");
            s
        },
        None => marker.to_owned(),
    }
}

/// Encoding a track again does not stack markers: a title that was marked once stays as it
/// is. (A track without a title of its own has the bare marker for one, which is a title like
/// any other the next time.)
pub proof fn law_markers_are_not_stacked(title: Seq<char>, marker: Seq<char>)
    requires
        without_marker(trimmed(title), marker).len() > 0,
    ensures
        marked_title(Some(marked_title(Some(title), marker)), marker) == marked_title(
            Some(title),
            marker,
        ),
{
    let own = trimmed(title);
    let base = without_marker(own, marker);
    let tail = "("@ + marker + ")"@;
    lemma_trimmed(title);
    lemma_trim_end(own.subrange(0, own.len() - tail.len()));
    lemma_trim_end(base);
    reveal_strlit(" (");
    reveal_strlit("(");
    reveal_strlit(" ");
    reveal_strlit(")");
    assert(own.len() > 0);
    assert(base[0] == own[0] && !is_space(base.last()));
    let once = marked_title(Some(title), marker);
    assert(once == base + " ("@ + marker + ")"@);
    assert(once =~= (base + " "@) + tail);
    assert(once[0] == base[0]);
    assert(once.last() == ')');
    lemma_trimmed_whole(once);
    assert(once.subrange(once.len() - tail.len(), once.len() as int) =~= tail);
    assert(once.subrange(0, once.len() - tail.len()) =~= base + " "@);
    assert((base + " "@).drop_last() =~= base);
    assert((base + " "@).last() == ' ');
    assert(trim_end(base + " "@) == base);
}

/// An option for output stream `n` of kind `kind`: `-c:a:0`.
pub open spec fn stream_flag(head: Seq<char>, n: int) -> Seq<char> {
    head + decimal(n as nat)
}

pub open spec fn option_args(options: Seq<Words>, n: int, k: nat) -> Seq<Seq<char>>
    decreases k,
{
    if k == 0 {
        Seq::empty()
    } else {
        option_args(options, n, (k - 1) as nat) + seq![
            stream_flag("-"@ + options[k - 1].0 + ":a:"@, n),
            options[k - 1].1,
        ]
    }
}

/// Whether an Opus layout has more than two channels, so that its channel order has to be
/// asked for: the default one swaps channels of 5.0 and 6.1.
pub open spec fn needs_mapping(name: Seq<char>) -> bool {
    name == "3.0"@ || name == "quad"@ || name == "5.0"@ || name == "5.1"@ || name == "6.1"@ || name
        == "7.1"@
}

pub open spec fn layout_words(e: EncodeView, n: int) -> Seq<Seq<char>> {
    match e.layout {
        Some((name, filter)) => seq![stream_flag("-filter:a:"@, n), filter] + (if needs_mapping(
            name,
        ) {
            seq![stream_flag("-mapping_family:a:"@, n), "1"@]
        } else {
            Seq::empty()
        }),
        None => Seq::empty(),
    }
}

/// Opus takes 8 to 48 kHz, and ffmpeg would pick the nearest: 32 kHz would become 24.
pub open spec fn rate_words(e: EncodeView, n: int) -> Seq<Seq<char>> {
    if occurs(e.codec, "opus"@) {
        seq![stream_flag("-ar:a:"@, n), "48000"@]
    } else {
        Seq::empty()
    }
}

/// The FLAC encoder cuts deeper samples to 24 bits unless it is allowed experimental ones.
pub open spec fn depth_words(t: PlannedView, e: EncodeView, n: int) -> Seq<Seq<char>> {
    if e.codec == "flac"@ && t.bits_per_raw_sample > 24 {
        seq![stream_flag("-strict:a:"@, n), "experimental"@]
    } else {
        Seq::empty()
    }
}

pub open spec fn bitrate_words(e: EncodeView, n: int) -> Seq<Seq<char>> {
    match e.bitrate {
        Some(b) => seq![stream_flag("-b:a:"@, n), b],
        None => Seq::empty(),
    }
}

/// The arguments of ffmpeg that encode a track to output stream `n`.
pub open spec fn encode_words(t: PlannedView, e: EncodeView, n: int) -> Seq<Seq<char>> {
    layout_words(e, n) + seq![stream_flag("-c:a:"@, n), e.codec] + rate_words(e, n) + depth_words(
        t,
        e,
        n,
    ) + bitrate_words(e, n) + option_args(e.options, n, e.options.len()) + seq![
        stream_flag("-metadata:s:a:"@, n),
        "title="@ + marked_title(t.title, display_of(e.codec)),
    ]
}

fn flag_for(head: &str, n: usize) -> (s: String)
    ensures
        s@ == stream_flag(head@, n as int),
{
    let mut s = head.to_owned();
    push_decimal(&mut s, n as u64);
    s
}

fn push_flag(args: &mut Vec<String>, head: &str, n: usize, value: String)
    ensures
        strings(final(args)@) == strings(old(args)@) + seq![stream_flag(head@, n as int), value@],
{
    let flag = flag_for(head, n);
    push_two(args, flag.as_str(), value);
}

fn push_options(args: &mut Vec<String>, options: &Vec<(String, String)>, n: usize)
    ensures
        strings(final(args)@) == strings(old(args)@) + option_args(
            word_views(options@),
            n as int,
            options@.len(),
        ),
{
    let ghost start = strings(args@);
    let ghost list = word_views(options@);
    let mut k: usize = 0;
    assert(strings(args@) =~= start + option_args(list, n as int, 0));
    while k < options.len()
        invariant
            k <= options@.len(),
            list == word_views(options@),
            strings(args@) == start + option_args(list, n as int, k as nat),
        decreases options@.len() - k,
    {
        let mut head = "-".to_owned();
        head.append(options[k].0.as_str());
        head.append(":a:");
        assert(head@ =~= "-"@ + list[k as int].0 + ":a:"@);
        push_flag(args, head.as_str(), n, options[k].1.clone());
        k = k + 1;
        assert(strings(args@) =~= start + option_args(list, n as int, k as nat));
    }
}

fn mapping_needed(name: &str) -> (r: bool)
    ensures
        r == needs_mapping(name@),
{
    same(name, "3.0") || same(name, "quad") || same(name, "5.0") || same(name, "5.1") || same(
        name,
        "6.1",
    ) || same(name, "7.1")
}

fn push_layout(args: &mut Vec<String>, n: usize, e: &EncodeAction)
    ensures
        strings(final(args)@) == strings(old(args)@) + layout_words(e@, n as int),
{
    let ghost start = strings(args@);
    if let Some((name, filter)) = &e.layout {
        push_flag(args, "-filter:a:", n, filter.clone());
        if mapping_needed(name) {
            push_flag(args, "-mapping_family:a:", n, "1".to_owned());
        }
    }
    assert(strings(args@) =~= start + layout_words(e@, n as int));
}

fn push_rate(args: &mut Vec<String>, n: usize, e: &EncodeAction)
    ensures
        strings(final(args)@) == strings(old(args)@) + rate_words(e@, n as int),
{
    let ghost start = strings(args@);
    let chars = to_chars(e.codec.as_str());
    if contains(chars.as_slice(), "opus") {
        push_flag(args, "-ar:a:", n, "48000".to_owned());
    }
    assert(strings(args@) =~= start + rate_words(e@, n as int));
}

fn push_depth(args: &mut Vec<String>, n: usize, t: &PlannedTrack, e: &EncodeAction)
    ensures
        strings(final(args)@) == strings(old(args)@) + depth_words(t@, e@, n as int),
{
    let ghost start = strings(args@);
    if same(e.codec.as_str(), "flac") && t.bits_per_raw_sample > 24 {
        push_flag(args, "-strict:a:", n, "experimental".to_owned());
    }
    assert(strings(args@) =~= start + depth_words(t@, e@, n as int));
}

fn push_bitrate(args: &mut Vec<String>, n: usize, e: &EncodeAction)
    ensures
        strings(final(args)@) == strings(old(args)@) + bitrate_words(e@, n as int),
{
    let ghost start = strings(args@);
    if let Some(b) = &e.bitrate {
        push_flag(args, "-b:a:", n, b.clone());
    }
    assert(strings(args@) =~= start + bitrate_words(e@, n as int));
}

proof fn lemma_seven_parts(
    start: Seq<Seq<char>>,
    a: Seq<Seq<char>>,
    b: Seq<Seq<char>>,
    c: Seq<Seq<char>>,
    d: Seq<Seq<char>>,
    e: Seq<Seq<char>>,
    f: Seq<Seq<char>>,
    g: Seq<Seq<char>>,
)
    ensures
        start + a + b + c + d + e + f + g == start + (a + b + c + d + e + f + g),
{
    assert(start + a + b + c + d + e + f + g =~= start + (a + b + c + d + e + f + g));
}

fn push_encode(args: &mut Vec<String>, n: usize, t: &PlannedTrack, e: &EncodeAction)
    ensures
        strings(final(args)@) == strings(old(args)@) + encode_words(t@, e@, n as int),
{
    let ghost start = strings(args@);
    push_layout(args, n, e);
    push_flag(args, "-c:a:", n, e.codec.clone());
    push_rate(args, n, e);
    push_depth(args, n, t, e);
    push_bitrate(args, n, e);
    push_options(args, &e.options, n);
    let marker = codec_display(e.codec.as_str());
    let mut title = "title=".to_owned();
    title.append(mark_title(as_text(&t.title), marker).as_str());
    let ghost v = title@;
    push_flag(args, "-metadata:s:a:", n, title);
    proof {
        lemma_seven_parts(
            start,
            layout_words(e@, n as int),
            seq![stream_flag("-c:a:"@, n as int), e.codec@],
            rate_words(e@, n as int),
            depth_words(t@, e@, n as int),
            bitrate_words(e@, n as int),
            option_args(word_views(e.options@), n as int, e.options@.len()),
            seq![stream_flag("-metadata:s:a:"@, n as int), v],
        );
    }
}

/// The arguments for output stream `n`.
pub open spec fn track_words(t: PlannedView, n: int) -> Seq<Seq<char>> {
    match t.action {
        ActionView::Copy { preroll } => seq![stream_flag("-c:a:"@, n), "copy"@] + (if preroll > 0 {
            seq![
                stream_flag("-bsf:a:"@, n),
                "noise=drop=lt(n\\,"@ + decimal(preroll as nat) + ")"@,
            ]
        } else {
            Seq::empty()
        }),
        ActionView::Pcm(codec) => seq![stream_flag("-c:a:"@, n), codec],
        ActionView::Encode(e) => encode_words(t, e, n),
    }
}

pub open spec fn map_words(tracks: Seq<PlannedView>, n: nat) -> Seq<Seq<char>>
    decreases n,
{
    if n == 0 {
        Seq::empty()
    } else {
        map_words(tracks, (n - 1) as nat) + seq![
            "-map"@,
            stream_flag("0:a:"@, tracks[n - 1].audio_index as int),
        ]
    }
}

pub open spec fn subtitle_maps(subtitles: Seq<(int, Option<Seq<char>>)>, n: nat) -> Seq<Seq<char>>
    decreases n,
{
    if n == 0 {
        Seq::empty()
    } else {
        subtitle_maps(subtitles, (n - 1) as nat) + seq![
            "-map"@,
            stream_flag("0:s:"@, subtitles[n - 1].0),
        ]
    }
}

pub open spec fn subtitle_codecs(subtitles: Seq<(int, Option<Seq<char>>)>, n: nat) -> Seq<Seq<char>>
    decreases n,
{
    if n == 0 {
        Seq::empty()
    } else {
        subtitle_codecs(subtitles, (n - 1) as nat) + seq![
            stream_flag("-c:s:"@, n - 1),
            text_or(subtitles[n - 1].1, "copy"@),
        ]
    }
}

pub open spec fn all_track_words(tracks: Seq<PlannedView>, n: nat) -> Seq<Seq<char>>
    decreases n,
{
    if n == 0 {
        Seq::empty()
    } else {
        all_track_words(tracks, (n - 1) as nat) + track_words(tracks[n - 1], n - 1)
    }
}

fn push_maps(args: &mut Vec<String>, tracks: &Vec<PlannedTrack>)
    ensures
        strings(final(args)@) == strings(old(args)@) + map_words(
            planned_views(tracks@),
            tracks@.len(),
        ),
{
    let ghost start = strings(args@);
    let ghost list = planned_views(tracks@);
    let mut k: usize = 0;
    assert(strings(args@) =~= start + map_words(list, 0));
    while k < tracks.len()
        invariant
            k <= tracks@.len(),
            list == planned_views(tracks@),
            strings(args@) == start + map_words(list, k as nat),
        decreases tracks@.len() - k,
    {
        assert(list[k as int] == tracks@[k as int]@);
        push_two(args, "-map", flag_for("0:a:", tracks[k].audio_index));
        k = k + 1;
        assert(strings(args@) =~= start + map_words(list, k as nat));
    }
}

fn push_subtitles(args: &mut Vec<String>, subtitles: &[(usize, Option<&'static str>)])
    ensures
        strings(final(args)@) == strings(old(args)@) + subtitle_maps(
            extract_view(subtitles@),
            subtitles@.len(),
        ) + subtitle_codecs(extract_view(subtitles@), subtitles@.len()),
{
    let ghost start = strings(args@);
    let ghost list = extract_view(subtitles@);
    let mut k: usize = 0;
    assert(strings(args@) =~= start + subtitle_maps(list, 0));
    while k < subtitles.len()
        invariant
            k <= subtitles@.len(),
            list == extract_view(subtitles@),
            strings(args@) == start + subtitle_maps(list, k as nat),
        decreases subtitles@.len() - k,
    {
        assert(list[k as int].0 == subtitles@[k as int].0);
        push_two(args, "-map", flag_for("0:s:", subtitles[k].0));
        k = k + 1;
        assert(strings(args@) =~= start + subtitle_maps(list, k as nat));
    }
    let ghost mid = strings(args@);
    let mut j: usize = 0;
    assert(strings(args@) =~= mid + subtitle_codecs(list, 0));
    while j < subtitles.len()
        invariant
            j <= subtitles@.len(),
            list == extract_view(subtitles@),
            strings(args@) == mid + subtitle_codecs(list, j as nat),
        decreases subtitles@.len() - j,
    {
        assert(list[j as int].1 == str_of(subtitles@[j as int].1));
        let codec: &str = match subtitles[j].1 {
            Some(c) => c,
            None => "copy",
        };
        push_flag(args, "-c:s:", j, codec.to_owned());
        j = j + 1;
        assert(strings(args@) =~= mid + subtitle_codecs(list, j as nat));
    }
}

fn push_track(args: &mut Vec<String>, n: usize, t: &PlannedTrack)
    ensures
        strings(final(args)@) == strings(old(args)@) + track_words(t@, n as int),
{
    let ghost start = strings(args@);
    match &t.action {
        Action::Copy { preroll } => {
            push_flag(args, "-c:a:", n, "copy".to_owned());
            if *preroll > 0 {
                let mut v = "noise=drop=lt(n\\,".to_owned();
                push_decimal(&mut v, *preroll as u64);
                v.append(")");
                push_flag(args, "-bsf:a:", n, v);
            }
            assert(strings(args@) =~= start + track_words(t@, n as int));
        },
        Action::Pcm(codec) => {
            push_flag(args, "-c:a:", n, (*codec).to_owned());
        },
        Action::Encode(e) => {
            push_encode(args, n, t, e);
        },
    }
}

/// Whether there is anything to extract.
pub fn nothing_to_extract(plan: &AudioPlan, subtitles: &[(usize, Option<&'static str>)]) -> (r: bool)
    ensures
        r == (plan.tracks@.len() == 0 && subtitles@.len() == 0),
{
    plan.tracks.len() == 0 && subtitles.len() == 0
}

/// What ffmpeg is told to extract: the audio tracks, then the subtitles, then how each audio
/// track is made.
pub open spec fn extract_words(
    tracks: Seq<PlannedView>,
    subs: Seq<(int, Option<Seq<char>>)>,
) -> Seq<Seq<char>> {
    map_words(tracks, tracks.len()) + subtitle_maps(subs, subs.len()) + subtitle_codecs(
        subs,
        subs.len(),
    ) + all_track_words(tracks, tracks.len()) + seq![
        "-disposition:0"@,
        "-attached_pic"@,
        "-default_mode"@,
        "passthrough"@,
    ]
}

/// The arguments of ffmpeg, behind the input and in front of the output, that extract the
/// planned tracks. Any disposition set by hand keeps ffmpeg, and the mode its muxer, from
/// making a first track the default one.
pub fn extract_args(plan: &AudioPlan, subtitles: &[(usize, Option<&'static str>)]) -> (args: Vec<
    String,
>)
    ensures
        strings(args@) == extract_words(planned_views(plan.tracks@), extract_view(subtitles@)),
{
    let ghost tracks = planned_views(plan.tracks@);
    let ghost subs = extract_view(subtitles@);
    let mut args: Vec<String> = Vec::new();
    assert(strings(args@) =~= Seq::empty());
    push_maps(&mut args, &plan.tracks);
    push_subtitles(&mut args, subtitles);
    let ghost mid = strings(args@);
    let mut i: usize = 0;
    assert(strings(args@) =~= mid + all_track_words(tracks, 0));
    while i < plan.tracks.len()
        invariant
            i <= plan.tracks@.len(),
            tracks == planned_views(plan.tracks@),
            strings(args@) == mid + all_track_words(tracks, i as nat),
        decreases plan.tracks@.len() - i,
    {
        assert(tracks[i as int] == plan.tracks@[i as int]@);
        push_track(&mut args, i, &plan.tracks[i]);
        i = i + 1;
        assert(strings(args@) =~= mid + all_track_words(tracks, i as nat));
    }
    push_two(&mut args, "-disposition:0", "-attached_pic".to_owned());
    push_two(&mut args, "-default_mode", "passthrough".to_owned());
    assert(strings(args@) =~= extract_words(tracks, subs));
    args
}

/// The encoded ones among the first `n` tracks.
pub open spec fn encoded_tracks(tracks: Seq<PlannedView>, n: nat) -> Seq<PlannedView>
    decreases n,
{
    if n == 0 {
        Seq::empty()
    } else {
        let before = encoded_tracks(tracks, (n - 1) as nat);
        if tracks[n - 1].action is Encode {
            before.push(tracks[n - 1])
        } else {
            before
        }
    }
}

/// What ffmpeg is told for a trial run of the encoded tracks.
pub open spec fn check_words(tracks: Seq<PlannedView>) -> Seq<Seq<char>> {
    let encoded = encoded_tracks(tracks, tracks.len());
    map_words(encoded, encoded.len()) + all_track_words(encoded, encoded.len())
}

/// The arguments that try every encoder, so that a refused codec or option fails before the
/// video is encoded; None where no track is encoded.
pub fn check_args(plan: &AudioPlan) -> (r: Option<Vec<String>>)
    ensures
        ({
            let tracks = planned_views(plan.tracks@);
            let encoded = encoded_tracks(tracks, tracks.len());
            match r {
                None => encoded.len() == 0,
                Some(args) => encoded.len() > 0 && strings(args@) == check_words(tracks),
            }
        }),
{
    let ghost tracks = planned_views(plan.tracks@);
    let mut maps: Vec<String> = Vec::new();
    let mut rest: Vec<String> = Vec::new();
    let mut count: usize = 0;
    let mut i: usize = 0;
    assert(strings(maps@) =~= Seq::empty() && strings(rest@) =~= Seq::empty());
    while i < plan.tracks.len()
        invariant
            i <= plan.tracks@.len(),
            count <= i,
            tracks == planned_views(plan.tracks@),
            count == encoded_tracks(tracks, i as nat).len(),
            strings(maps@) == map_words(encoded_tracks(tracks, i as nat), count as nat),
            strings(rest@) == all_track_words(encoded_tracks(tracks, i as nat), count as nat),
        decreases plan.tracks@.len() - i,
    {
        let ghost before = encoded_tracks(tracks, i as nat);
        let t = &plan.tracks[i];
        assert(tracks[i as int] == t@);
        if let Action::Encode(e) = &t.action {
            push_two(&mut maps, "-map", flag_for("0:a:", t.audio_index));
            push_encode(&mut rest, count, t, e);
            proof {
                let now = before.push(t@);
                lemma_words_prefix(before, now, count as nat);
            }
            count = count + 1;
        }
        i = i + 1;
    }
    if count == 0 {
        return None;
    }
    let ghost a = strings(maps@);
    let ghost b = strings(rest@);
    maps.append(&mut rest);
    assert(strings(maps@) =~= a + b);
    Some(maps)
}

proof fn lemma_words_prefix(a: Seq<PlannedView>, b: Seq<PlannedView>, n: nat)
    requires
        n <= a.len() <= b.len(),
        forall|i: int| 0 <= i < a.len() ==> a[i] == b[i],
    ensures
        map_words(a, n) == map_words(b, n),
        all_track_words(a, n) == all_track_words(b, n),
    decreases n,
{
    if n > 0 {
        lemma_words_prefix(a, b, (n - 1) as nat);
    }
}

proof fn lemma_map_words(tracks: Seq<PlannedView>, n: nat)
    requires
        n <= tracks.len(),
    ensures
        map_words(tracks, n).len() == 2 * n,
        forall|k: int|
            #![trigger tracks[k]]
            0 <= k < n ==> map_words(tracks, n)[2 * k] == "-map"@ && map_words(tracks, n)[2 * k + 1]
                == "0:a:"@ + decimal(tracks[k].audio_index as nat),
    decreases n,
{
    if n > 0 {
        let m = (n - 1) as nat;
        lemma_map_words(tracks, m);
        let front = map_words(tracks, m);
        let all = map_words(tracks, n);
        assert forall|k: int| #![trigger tracks[k]] 0 <= k < n implies all[2 * k] == "-map"@ && all[2
            * k + 1] == "0:a:"@ + decimal(tracks[k].audio_index as nat) by {
            if k < m {
                assert(all[2 * k] == front[2 * k] && all[2 * k + 1] == front[2 * k + 1]);
            }
        }
    }
}

proof fn lemma_subtitle_maps(subs: Seq<(int, Option<Seq<char>>)>, n: nat, k: int)
    requires
        n <= subs.len(),
    ensures
        subtitle_maps(subs, n).len() == 2 * n,
        subtitle_codecs(subs, n).len() == 2 * n,
        0 <= k < n ==> {
            &&& subtitle_maps(subs, n)[2 * k] == "-map"@
            &&& subtitle_maps(subs, n)[2 * k + 1] == "0:s:"@ + decimal(subs[k].0 as nat)
            &&& subtitle_codecs(subs, n)[2 * k] == "-c:s:"@ + decimal(k as nat)
            &&& subtitle_codecs(subs, n)[2 * k + 1] == match subs[k].1 {
                Some(codec) => codec,
                None => "copy"@,
            }
        },
    decreases n,
{
    if n > 0 {
        let m = (n - 1) as nat;
        lemma_subtitle_maps(subs, m, k);
        let (front, all) = (subtitle_maps(subs, m), subtitle_maps(subs, n));
        let (c_front, c_all) = (subtitle_codecs(subs, m), subtitle_codecs(subs, n));
        if 0 <= k < m {
            assert(all[2 * k] == front[2 * k] && all[2 * k + 1] == front[2 * k + 1]);
            assert(c_all[2 * k] == c_front[2 * k] && c_all[2 * k + 1] == c_front[2 * k + 1]);
        }
    }
}

/// Each planned track is taken from its own stream of the source: the maps of the extraction
/// come first, one for each track in their order, and name the stream that the track was
/// planned from.
pub proof fn law_tracks_are_taken_from_their_streams(
    tracks: Seq<PlannedView>,
    subs: Seq<(int, Option<Seq<char>>)>,
    k: int,
)
    requires
        0 <= k < tracks.len(),
    ensures
        ({
            let args = extract_words(tracks, subs);
            &&& args.len() > 2 * k + 1
            &&& args[2 * k] == "-map"@
            &&& args[2 * k + 1] == "0:a:"@ + decimal(tracks[k].audio_index as nat)
        }),
{
    let args = extract_words(tracks, subs);
    lemma_map_words(tracks, tracks.len());
    let a = map_words(tracks, tracks.len());
    assert(a[2 * k] == "-map"@ && a[2 * k + 1] == "0:a:"@ + decimal(tracks[k].audio_index as nat));
    assert(args[2 * k] == a[2 * k] && args[2 * k + 1] == a[2 * k + 1]);
}

/// The maps of the subtitles follow those of the tracks, each with the number of its own
/// stream; the options behind them give each its codec.
pub proof fn law_subtitles_are_taken_from_their_streams(
    tracks: Seq<PlannedView>,
    subs: Seq<(int, Option<Seq<char>>)>,
    k: int,
)
    requires
        0 <= k < subs.len(),
    ensures
        ({
            let args = extract_words(tracks, subs);
            let map = 2 * (tracks.len() + k);
            let codec = 2 * (tracks.len() + subs.len() + k);
            &&& args.len() > codec + 1
            &&& args[map] == "-map"@
            &&& args[map + 1] == "0:s:"@ + decimal(subs[k].0 as nat)
            &&& args[codec] == "-c:s:"@ + decimal(k as nat)
            &&& args[codec + 1] == match subs[k].1 {
                Some(codec) => codec,
                None => "copy"@,
            }
        }),
{
    let args = extract_words(tracks, subs);
    let (n, m) = (tracks.len(), subs.len());
    lemma_map_words(tracks, n);
    lemma_subtitle_maps(subs, m, k);
    let b = subtitle_maps(subs, m);
    let c = subtitle_codecs(subs, m);
    assert(args[2 * (n + k)] == b[2 * k]);
    assert(args[2 * (n + k) + 1] == b[2 * k + 1]);
    assert(args[2 * (n + m + k)] == c[2 * k]);
    assert(args[2 * (n + m + k) + 1] == c[2 * k + 1]);
}

proof fn lemma_encoded_tracks(tracks: Seq<PlannedView>, n: nat)
    requires
        n <= tracks.len(),
    ensures
        encoded_tracks(tracks, n) == tracks.take(n as int).filter(
            |t: PlannedView| t.action is Encode,
        ),
    decreases n,
{
    reveal(Seq::filter);
    if n > 0 {
        lemma_encoded_tracks(tracks, (n - 1) as nat);
        assert(tracks.take(n as int).drop_last() =~= tracks.take(n - 1));
    }
}

/// The trial run has every encoded track, and no other, from its own stream.
pub proof fn law_trial_run_has_every_encoded_track(tracks: Seq<PlannedView>)
    ensures
        ({
            let args = check_words(tracks);
            let encoded = tracks.filter(|t: PlannedView| t.action is Encode);
            &&& args.len() >= 2 * encoded.len()
            &&& forall|k: int|
                #![trigger encoded[k]]
                0 <= k < encoded.len() ==> args[2 * k] == "-map"@ && args[2 * k + 1] == "0:a:"@
                    + decimal(encoded[k].audio_index as nat)
            &&& forall|i: int, option: Seq<char>, value: Seq<char>|
                0 <= i < encoded.len() && #[trigger] gives(
                    track_words(encoded[i], i),
                    option,
                    value,
                ) ==> gives(args, option, value)
        }),
{
    let n = tracks.len();
    let encoded = tracks.filter(|t: PlannedView| t.action is Encode);
    lemma_encoded_tracks(tracks, n);
    assert(tracks.take(n as int) =~= tracks);
    lemma_map_words(encoded, encoded.len());
    let a = map_words(encoded, encoded.len());
    let b = all_track_words(encoded, encoded.len());
    let args = check_words(tracks);
    assert(args == a + b);
    assert forall|k: int| #![trigger encoded[k]] 0 <= k < encoded.len() implies args[2 * k]
        == "-map"@ && args[2 * k + 1] == "0:a:"@ + decimal(encoded[k].audio_index as nat) by {
        assert(args[2 * k] == a[2 * k] && args[2 * k + 1] == a[2 * k + 1]);
    }
    lemma_gives_joined(a, b);
    lemma_all_track_words(encoded, encoded.len());
}

proof fn lemma_all_track_words(tracks: Seq<PlannedView>, n: nat)
    requires
        n <= tracks.len(),
    ensures
        forall|i: int, option: Seq<char>, value: Seq<char>|
            0 <= i < n && #[trigger] gives(track_words(tracks[i], i), option, value) ==> gives(
                all_track_words(tracks, n),
                option,
                value,
            ),
    decreases n,
{
    if n > 0 {
        let m = (n - 1) as nat;
        lemma_all_track_words(tracks, m);
        lemma_gives_joined(all_track_words(tracks, m), track_words(tracks[n - 1], n - 1));
    }
}

proof fn lemma_option_args(options: Seq<Words>, n: int, k: nat)
    requires
        k <= options.len(),
    ensures
        forall|i: int|
            0 <= i < k ==> gives(
                option_args(options, n, k),
                "-"@ + (#[trigger] options[i]).0 + ":a:"@ + decimal(n as nat),
                options[i].1,
            ),
    decreases k,
{
    if k > 0 {
        let front = option_args(options, n, (k - 1) as nat);
        let last = seq![
            stream_flag("-"@ + options[k - 1].0 + ":a:"@, n),
            options[k - 1].1,
        ];
        lemma_option_args(options, n, (k - 1) as nat);
        lemma_gives_joined(front, last);
        lemma_gives_at(last, 0);
        assert(last[0] == "-"@ + options[k - 1].0 + ":a:"@ + decimal(n as nat));
        assert(last[1] == options[k - 1].1);
    }
}

/// What the plan says of a track is what ffmpeg is told for the stream it becomes, which is
/// the one at its place in the plan: its codec, the packets that are left out, the layout, the
/// bitrate, every option and the title.
pub proof fn law_each_stream_is_made_as_planned(
    tracks: Seq<PlannedView>,
    subs: Seq<(int, Option<Seq<char>>)>,
    k: int,
)
    requires
        0 <= k < tracks.len(),
    ensures
        ({
            let args = extract_words(tracks, subs);
            let id = decimal(k as nat);
            match tracks[k].action {
                ActionView::Copy { preroll } => {
                    &&& gives(args, "-c:a:"@ + id, "copy"@)
                    &&& preroll > 0 ==> gives(
                        args,
                        "-bsf:a:"@ + id,
                        "noise=drop=lt(n\\,"@ + decimal(preroll as nat) + ")"@,
                    )
                },
                ActionView::Pcm(codec) => gives(args, "-c:a:"@ + id, codec),
                ActionView::Encode(e) => {
                    &&& gives(args, "-c:a:"@ + id, e.codec)
                    &&& e.bitrate matches Some(b) ==> gives(args, "-b:a:"@ + id, b)
                    &&& e.layout matches Some((name, filter)) ==> gives(
                        args,
                        "-filter:a:"@ + id,
                        filter,
                    )
                    &&& occurs(e.codec, "opus"@) ==> gives(args, "-ar:a:"@ + id, "48000"@)
                    &&& e.layout matches Some((name, _)) ==> (needs_mapping(name) ==> gives(
                        args,
                        "-mapping_family:a:"@ + id,
                        "1"@,
                    ))
                    &&& e.codec == "flac"@ && tracks[k].bits_per_raw_sample > 24 ==> gives(
                        args,
                        "-strict:a:"@ + id,
                        "experimental"@,
                    )
                    &&& forall|i: int|
                        0 <= i < e.options.len() ==> gives(
                            args,
                            "-"@ + (#[trigger] e.options[i]).0 + ":a:"@ + id,
                            e.options[i].1,
                        )
                    &&& gives(
                        args,
                        "-metadata:s:a:"@ + id,
                        "title="@ + marked_title(tracks[k].title, display_of(e.codec)),
                    )
                },
            }
        }),
{
    let (n, m) = (tracks.len(), subs.len());
    let front = map_words(tracks, n) + subtitle_maps(subs, m) + subtitle_codecs(subs, m);
    let mid = all_track_words(tracks, n);
    let back = seq!["-disposition:0"@, "-attached_pic"@, "-default_mode"@, "passthrough"@];
    lemma_all_track_words(tracks, n);
    lemma_gives_joined(front, mid);
    lemma_gives_joined(front + mid, back);
    let words = track_words(tracks[k], k);
    lemma_track_words(tracks[k], k);
    assert(forall|option: Seq<char>, value: Seq<char>| #[trigger]
        gives(words, option, value) ==> gives(extract_words(tracks, subs), option, value));
}

#[verifier::rlimit(50)]
proof fn lemma_track_words(t: PlannedView, k: int)
    ensures
        ({
            let words = track_words(t, k);
            let id = decimal(k as nat);
            match t.action {
                ActionView::Copy { preroll } => {
                    &&& gives(words, "-c:a:"@ + id, "copy"@)
                    &&& preroll > 0 ==> gives(
                        words,
                        "-bsf:a:"@ + id,
                        "noise=drop=lt(n\\,"@ + decimal(preroll as nat) + ")"@,
                    )
                },
                ActionView::Pcm(codec) => gives(words, "-c:a:"@ + id, codec),
                ActionView::Encode(e) => {
                    &&& gives(words, "-c:a:"@ + id, e.codec)
                    &&& e.bitrate matches Some(b) ==> gives(words, "-b:a:"@ + id, b)
                    &&& e.layout matches Some((name, filter)) ==> gives(
                        words,
                        "-filter:a:"@ + id,
                        filter,
                    )
                    &&& occurs(e.codec, "opus"@) ==> gives(words, "-ar:a:"@ + id, "48000"@)
                    &&& e.layout matches Some((name, _)) ==> (needs_mapping(name) ==> gives(
                        words,
                        "-mapping_family:a:"@ + id,
                        "1"@,
                    ))
                    &&& e.codec == "flac"@ && t.bits_per_raw_sample > 24 ==> gives(
                        words,
                        "-strict:a:"@ + id,
                        "experimental"@,
                    )
                    &&& forall|i: int|
                        0 <= i < e.options.len() ==> gives(
                            words,
                            "-"@ + (#[trigger] e.options[i]).0 + ":a:"@ + id,
                            e.options[i].1,
                        )
                    &&& gives(
                        words,
                        "-metadata:s:a:"@ + id,
                        "title="@ + marked_title(t.title, display_of(e.codec)),
                    )
                },
            }
        }),
{
    let words = track_words(t, k);
    match t.action {
        ActionView::Copy { preroll } => {
            lemma_gives_at(words, 0);
            lemma_gives_at(words, 2);
        },
        ActionView::Pcm(codec) => {
            lemma_gives_at(words, 0);
        },
        ActionView::Encode(e) => {
            let a = layout_words(e, k);
            let b = seq![stream_flag("-c:a:"@, k), e.codec];
            let c = rate_words(e, k);
            let d = depth_words(t, e, k);
            let f = bitrate_words(e, k);
            let g = option_args(e.options, k, e.options.len());
            let h = seq![
                stream_flag("-metadata:s:a:"@, k),
                "title="@ + marked_title(t.title, display_of(e.codec)),
            ];
            assert(words == a + b + c + d + f + g + h);
            lemma_gives_joined(a, b);
            lemma_gives_joined(a + b, c);
            lemma_gives_joined(a + b + c, d);
            lemma_gives_joined(a + b + c + d, f);
            lemma_gives_joined(a + b + c + d + f, g);
            lemma_gives_joined(a + b + c + d + f + g, h);
            lemma_gives_at(a, 0);
            lemma_gives_at(a, 2);
            lemma_gives_at(b, 0);
            lemma_gives_at(c, 0);
            lemma_gives_at(d, 0);
            lemma_gives_at(f, 0);
            lemma_gives_at(h, 0);
            lemma_option_args(e.options, k, e.options.len());
            assert(gives(b, b[0], b[1]));
            assert(gives(h, h[0], h[1]));
        },
    }
}

/// A stream that the whitelist drops is never extracted, and what is extracted was kept: of
/// the streams of a source, the one that the `k`th map names is in a language that is kept.
pub proof fn law_whitelist_decides_what_is_extracted(
    streams: Seq<AudioStream>,
    tracks: Seq<AudioTrack>,
    config: AudioConfig,
    codecs: AudioCodecs,
    encoders: Option<Set<Seq<char>>>,
    copied: Seq<Option<usize>>,
    subs: Seq<(int, Option<Seq<char>>)>,
    k: int,
)
    requires
        tracks.len() == streams.len(),
        copied.len() == tracks.len(),
        forall|i: int|
            0 <= i < tracks.len() ==> is_track_of(#[trigger] tracks[i], streams[i], i),
        plan_of(tracks, config, codecs, encoders, copied, tracks.len()) is Ok,
        0 <= k < plan_of(tracks, config, codecs, encoders, copied, tracks.len())->Ok_0.len(),
    ensures
        ({
            let planned = plan_of(tracks, config, codecs, encoders, copied, tracks.len())->Ok_0;
            let stream = extract_words(planned, subs)[2 * k + 1];
            let whitelist = strings(config.language_whitelist@);
            &&& exists|i: int|
                0 <= i < streams.len() && language_kept(
                    whitelist,
                    text_of((#[trigger] streams[i]).language),
                ) && stream == "0:a:"@ + decimal(i as nat)
            &&& forall|i: int|
                0 <= i < streams.len() && !language_kept(
                    whitelist,
                    text_of((#[trigger] streams[i]).language),
                ) ==> stream != "0:a:"@ + decimal(i as nat)
        }),
{
    let planned = plan_of(tracks, config, codecs, encoders, copied, tracks.len())->Ok_0;
    let stream = extract_words(planned, subs)[2 * k + 1];
    let whitelist = strings(config.language_whitelist@);
    lemma_planned_stream(streams, tracks, config, codecs, encoders, copied, k);
    law_tracks_are_taken_from_their_streams(planned, subs, k);
    let j = planned[k].audio_index as int;
    assert(language_kept(whitelist, text_of(streams[j].language)));
    assert forall|i: int|
        0 <= i < streams.len() && !language_kept(
            whitelist,
            text_of((#[trigger] streams[i]).language),
        ) implies stream != "0:a:"@ + decimal(i as nat) by {
        if stream == "0:a:"@ + decimal(i as nat) {
            reveal_strlit("0:a:");
            lemma_last_number("0:a:"@, i as nat, "0:a:"@, j as nat);
        }
    }
}

proof fn lemma_planned_stream(
    streams: Seq<AudioStream>,
    tracks: Seq<AudioTrack>,
    config: AudioConfig,
    codecs: AudioCodecs,
    encoders: Option<Set<Seq<char>>>,
    copied: Seq<Option<usize>>,
    k: int,
)
    requires
        tracks.len() == streams.len(),
        copied.len() == tracks.len(),
        forall|i: int|
            0 <= i < tracks.len() ==> is_track_of(#[trigger] tracks[i], streams[i], i),
        plan_of(tracks, config, codecs, encoders, copied, tracks.len()) is Ok,
        0 <= k < plan_of(tracks, config, codecs, encoders, copied, tracks.len())->Ok_0.len(),
    ensures
        ({
            let i = plan_of(
                tracks,
                config,
                codecs,
                encoders,
                copied,
                tracks.len(),
            )->Ok_0[k].audio_index as int;
            &&& 0 <= i < streams.len()
            &&& language_kept(strings(config.language_whitelist@), text_of(streams[i].language))
        }),
{
    let planned = plan_of(tracks, config, codecs, encoders, copied, tracks.len())->Ok_0;
    law_plan_keeps_the_right_tracks(tracks, config, codecs, encoders, copied, tracks.len());
    let p = planned[k];
    let i = p.audio_index as int;
    assert(is_track_of(tracks[i], streams[i], i));
}

/// Whether ffmpeg refused what the profile asks for, which the user can mend.
pub fn rejects_profile(stderr: &str) -> (r: bool)
    ensures
        r == (occurs(stderr@, "Option not found"@) || occurs(
            stderr@,
            "Error applying encoder options"@,
        ) || occurs(stderr@, "experimental codecs are not enabled"@)),
{
    let chars = to_chars(stderr);
    contains(chars.as_slice(), "Option not found") || contains(
        chars.as_slice(),
        "Error applying encoder options",
    ) || contains(chars.as_slice(), "experimental codecs are not enabled")
}

// ---------------------------------------------------------------------------
// Languages
// ---------------------------------------------------------------------------
/// A track as mkvmerge identifies it.
#[derive(Debug)]
pub struct MkvTrack {
    pub kind: String,
    pub language: Option<String>,
    pub language_ietf: Option<String>,
}

/// A stream as ffprobe reports it.
#[derive(Debug)]
pub struct TaggedStream {
    pub codec_type: String,
    pub language: Option<String>,
}

/// The tag of one track: a BCP 47 tag where it says more than ISO 639-2 and both tools read
/// the same code; of a list such as `ger,eng` the first code.
pub open spec fn matched_tag(
    ours: Option<Seq<char>>,
    theirs: Option<Seq<char>>,
    tag: Option<Seq<char>>,
) -> Option<Seq<char>> {
    match ours {
        None => None,
        Some(o) => {
            let first = trimmed(pieces(o, Separator::Char { c: ',' })[0]);
            if theirs != Some(first) {
                None
            } else if tag is Some && occurs(tag->0, "-"@) {
                tag
            } else if first != o {
                Some(first)
            } else {
                None
            }
        },
    }
}

/// The tags of tracks by position; none where the two tools do not see the same number.
pub open spec fn matched(
    ours: Seq<Option<Seq<char>>>,
    theirs: Seq<(Option<Seq<char>>, Option<Seq<char>>)>,
) -> Seq<Option<Seq<char>>> {
    Seq::new(
        ours.len(),
        |i: int|
            if ours.len() != theirs.len() {
                None
            } else {
                matched_tag(ours[i], theirs[i].0, theirs[i].1)
            },
    )
}

pub open spec fn str_views(v: Seq<Option<&str>>) -> Seq<Option<Seq<char>>> {
    Seq::new(v.len(), |i: int| str_of(v[i]))
}

pub open spec fn pair_views(v: Seq<(Option<&str>, Option<&str>)>) -> Seq<
    (Option<Seq<char>>, Option<Seq<char>>),
> {
    Seq::new(v.len(), |i: int| (str_of(v[i].0), str_of(v[i].1)))
}

pub open spec fn text_views(v: Seq<Option<String>>) -> Seq<Option<Seq<char>>> {
    Seq::new(v.len(), |i: int| text_of(v[i]))
}

fn match_tag(ours: Option<&str>, theirs: Option<&str>, tag: Option<&str>) -> (r: Option<String>)
    ensures
        text_of(r) == matched_tag(str_of(ours), str_of(theirs), str_of(tag)),
{
    let ours = match ours {
        Some(o) => o,
        None => {
            return None;
        },
    };
    let chars = to_chars(ours);
    let list = split(chars.as_slice(), Separator::Char { c: ',' });
    proof {
        crate::text::lemma_pieces(ours@, Separator::Char { c: ',' });
        assert(char_lists(list@)[0] == list@[0]@);
    }
    let first = from_chars(trim(list[0].as_slice()).as_slice());
    let agree = match theirs {
        Some(t) => same(t, first.as_str()),
        None => false,
    };
    if !agree {
        return None;
    }
    if let Some(t) = tag {
        let t_chars = to_chars(t);
        if contains(t_chars.as_slice(), "-") {
            return Some(t.to_owned());
        }
    }
    if !same(first.as_str(), ours) {
        Some(first)
    } else {
        None
    }
}

pub fn matched_tags(ffprobe: &[Option<&str>], mkvmerge: &[(Option<&str>, Option<&str>)]) -> (out:
    Vec<Option<String>>)
    ensures
        text_views(out@) == matched(str_views(ffprobe@), pair_views(mkvmerge@)),
{
    let ghost ours = str_views(ffprobe@);
    let ghost theirs = pair_views(mkvmerge@);
    let mut out: Vec<Option<String>> = Vec::new();
    let agree = ffprobe.len() == mkvmerge.len();
    let mut i: usize = 0;
    while i < ffprobe.len()
        invariant
            i <= ffprobe@.len(),
            agree == (ffprobe@.len() == mkvmerge@.len()),
            ours == str_views(ffprobe@),
            theirs == pair_views(mkvmerge@),
            out@.len() == i,
            forall|k: int| 0 <= k < i ==> text_of(#[trigger] out@[k]) == matched(ours, theirs)[k],
        decreases ffprobe@.len() - i,
    {
        let tag = if agree {
            let (t, ietf) = mkvmerge[i];
            assert(theirs[i as int] == (str_of(t), str_of(ietf)));
            match_tag(ffprobe[i], t, ietf)
        } else {
            None
        };
        assert(text_of(tag) == matched(ours, theirs)[i as int]);
        out.push(tag);
        i = i + 1;
    }
    assert(text_views(out@) =~= matched(ours, theirs));
    out
}

/// BCP 47 tags by kind of track. ffmpeg keeps ISO 639-2 only, where pt-BR becomes por.
#[derive(Debug)]
pub struct Languages {
    video: Option<String>,
    audio: Vec<Option<String>>,
    subtitles: Vec<Option<String>>,
}

#[verifier::ext_equal]
pub struct LanguagesView {
    pub video: Option<Seq<char>>,
    pub audio: Seq<Option<Seq<char>>>,
    pub subtitles: Seq<Option<Seq<char>>>,
}

impl View for Languages {
    type V = LanguagesView;

    closed spec fn view(&self) -> LanguagesView {
        LanguagesView {
            video: text_of(self.video),
            audio: text_views(self.audio@),
            subtitles: text_views(self.subtitles@),
        }
    }
}

/// The languages of the first `n` streams, as far as they are of a kind.
pub open spec fn streams_of(streams: Seq<TaggedStream>, kind: Seq<char>, n: nat) -> Seq<
    Option<Seq<char>>,
>
    decreases n,
{
    if n == 0 {
        Seq::empty()
    } else {
        let before = streams_of(streams, kind, (n - 1) as nat);
        if streams[n - 1].codec_type@ == kind {
            before.push(text_of(streams[n - 1].language))
        } else {
            before
        }
    }
}

/// The languages of the first `n` tracks, as far as they are of a kind.
pub open spec fn tracks_of(tracks: Seq<MkvTrack>, kind: Seq<char>, n: nat) -> Seq<
    (Option<Seq<char>>, Option<Seq<char>>),
>
    decreases n,
{
    if n == 0 {
        Seq::empty()
    } else {
        let before = tracks_of(tracks, kind, (n - 1) as nat);
        let t = tracks[n - 1];
        if t.kind@ == kind {
            before.push((text_of(t.language), text_of(t.language_ietf)))
        } else {
            before
        }
    }
}

/// The language of the first video track from track `i` on, where it is determined.
pub open spec fn video_language(tracks: Seq<MkvTrack>, i: int) -> Option<Seq<char>>
    decreases tracks.len() - i,
{
    if i < 0 || i >= tracks.len() {
        None
    } else if tracks[i].kind@ == "video"@ {
        let l = if tracks[i].language_ietf is Some {
            text_of(tracks[i].language_ietf)
        } else {
            text_of(tracks[i].language)
        };
        match l {
            Some(l) => if l.len() == 0 || l == "und"@ {
                None
            } else {
                Some(l)
            },
            None => None,
        }
    } else {
        video_language(tracks, i + 1)
    }
}

fn find_video_language(tracks: &[MkvTrack]) -> (r: Option<String>)
    ensures
        text_of(r) == video_language(tracks@, 0),
{
    let mut i: usize = 0;
    while i < tracks.len()
        invariant
            i <= tracks@.len(),
            video_language(tracks@, i as int) == video_language(tracks@, 0),
        decreases tracks@.len() - i,
    {
        let t = &tracks[i];
        if same(t.kind.as_str(), "video") {
            let l = match &t.language_ietf {
                Some(l) => Some(l),
                None => match &t.language {
                    Some(l) => Some(l),
                    None => None,
                },
            };
            return match l {
                Some(l) => {
                    let chars = to_chars(l.as_str());
                    if chars.len() == 0 || same(l.as_str(), "und") {
                        None
                    } else {
                        Some(l.clone())
                    }
                },
                None => None,
            };
        }
        i = i + 1;
    }
    None
}

fn tags_of(
    streams: &[TaggedStream],
    stream_kind: &str,
    tracks: &[MkvTrack],
    track_kind: &str,
) -> (out: Vec<Option<String>>)
    ensures
        text_views(out@) == matched(
            streams_of(streams@, stream_kind@, streams@.len()),
            tracks_of(tracks@, track_kind@, tracks@.len()),
        ),
{
    let mut ours: Vec<Option<&str>> = Vec::new();
    let mut i: usize = 0;
    assert(str_views(ours@) =~= Seq::empty());
    while i < streams.len()
        invariant
            i <= streams@.len(),
            str_views(ours@) == streams_of(streams@, stream_kind@, i as nat),
        decreases streams@.len() - i,
    {
        let ghost before = str_views(ours@);
        if same(streams[i].codec_type.as_str(), stream_kind) {
            let l = as_text(&streams[i].language);
            ours.push(l);
            assert(str_views(ours@) =~= before.push(str_of(l)));
        }
        i = i + 1;
    }
    let mut theirs: Vec<(Option<&str>, Option<&str>)> = Vec::new();
    let mut k: usize = 0;
    assert(pair_views(theirs@) =~= Seq::empty());
    while k < tracks.len()
        invariant
            k <= tracks@.len(),
            pair_views(theirs@) == tracks_of(tracks@, track_kind@, k as nat),
        decreases tracks@.len() - k,
    {
        let ghost before = pair_views(theirs@);
        if same(tracks[k].kind.as_str(), track_kind) {
            let l = as_text(&tracks[k].language);
            let ietf = as_text(&tracks[k].language_ietf);
            theirs.push((l, ietf));
            assert(pair_views(theirs@) =~= before.push((str_of(l), str_of(ietf))));
        }
        k = k + 1;
    }
    matched_tags(ours.as_slice(), theirs.as_slice())
}

impl Default for Languages {
    /// No tag at all.
    fn default() -> (l: Languages)
        ensures
            l@ == (LanguagesView { video: None, audio: Seq::empty(), subtitles: Seq::empty() }),
    {
        let l = Languages { video: None, audio: Vec::new(), subtitles: Vec::new() };
        assert(l@ =~= (LanguagesView {
            video: None,
            audio: Seq::empty(),
            subtitles: Seq::empty(),
        }));
        l
    }
}

fn tag_at(tags: &Vec<Option<String>>, i: usize) -> (r: Option<String>)
    ensures
        text_of(r) == tag_view(text_views(tags@), i as int),
{
    if i < tags.len() {
        assert(text_views(tags@)[i as int] == text_of(tags@[i as int]));
        copy_text(&tags[i])
    } else {
        None
    }
}

/// The tag at a place; none behind the end.
pub open spec fn tag_view(tags: Seq<Option<Seq<char>>>, i: int) -> Option<Seq<char>> {
    if i < tags.len() {
        tags[i]
    } else {
        None
    }
}

/// The tags of the extracted tracks: the audio first, then the subtitles.
pub open spec fn extracted_tags(
    l: LanguagesView,
    tracks: Seq<PlannedView>,
    subtitles: Seq<(int, Option<Seq<char>>)>,
) -> Seq<Option<Seq<char>>> {
    Seq::new(
        tracks.len() + subtitles.len(),
        |i: int|
            if i < tracks.len() {
                tag_view(l.audio, tracks[i].audio_index as int)
            } else {
                tag_view(l.subtitles, subtitles[i - tracks.len()].0)
            },
    )
}

impl Languages {
    /// What the two tools agree on.
    pub fn probe(tracks: &[MkvTrack], streams: &[TaggedStream]) -> (l: Languages)
        ensures
            l@.video == video_language(tracks@, 0),
            l@.audio == matched(
                streams_of(streams@, "audio"@, streams@.len()),
                tracks_of(tracks@, "audio"@, tracks@.len()),
            ),
            l@.subtitles == matched(
                streams_of(streams@, "subtitle"@, streams@.len()),
                tracks_of(tracks@, "subtitles"@, tracks@.len()),
            ),
    {
        Languages {
            video: find_video_language(tracks),
            audio: tags_of(streams, "audio", tracks, "audio"),
            subtitles: tags_of(streams, "subtitle", tracks, "subtitles"),
        }
    }

    pub fn video(&self) -> (r: Option<&str>)
        ensures
            str_of(r) == self@.video,
    {
        as_text(&self.video)
    }

    /// One for each extracted track, in the order in which they are extracted.
    pub fn of_tracks(&self, plan: &AudioPlan, subtitles: &[(usize, Option<&'static str>)]) -> (out:
        Vec<Option<String>>)
        ensures
            text_views(out@) == extracted_tags(
                self@,
                planned_views(plan.tracks@),
                extract_view(subtitles@),
            ),
    {
        let ghost tracks = planned_views(plan.tracks@);
        let ghost subs = extract_view(subtitles@);
        let ghost want = extracted_tags(self@, tracks, subs);
        let mut out: Vec<Option<String>> = Vec::new();
        let mut i: usize = 0;
        while i < plan.tracks.len()
            invariant
                i <= plan.tracks@.len(),
                tracks == planned_views(plan.tracks@),
                want == extracted_tags(self@, tracks, subs),
                out@.len() == i,
                forall|k: int| 0 <= k < i ==> text_of(#[trigger] out@[k]) == want[k],
            decreases plan.tracks@.len() - i,
        {
            assert(tracks[i as int] == plan.tracks@[i as int]@);
            let tag = tag_at(&self.audio, plan.tracks[i].audio_index);
            assert(text_of(tag) == want[i as int]);
            out.push(tag);
            i = i + 1;
        }
        let mut j: usize = 0;
        while j < subtitles.len()
            invariant
                j <= subtitles@.len(),
                subs == extract_view(subtitles@),
                tracks == planned_views(plan.tracks@),
                want == extracted_tags(self@, tracks, subs),
                out@.len() == plan.tracks@.len() + j,
                forall|k: int| 0 <= k < out@.len() ==> text_of(#[trigger] out@[k]) == want[k],
            decreases subtitles@.len() - j,
        {
            assert(subs[j as int].0 == subtitles@[j as int].0);
            let tag = tag_at(&self.subtitles, subtitles[j].0);
            assert(text_of(tag) == want[plan.tracks@.len() + j]);
            out.push(tag);
            j = j + 1;
        }
        assert(text_views(out@) =~= want);
        out
    }
}

/// A tag is only ever one that both tools can stand for: mkvmerge's own where it read the
/// same code as ffprobe, or that code.
pub proof fn law_tags_need_agreement(
    ours: Option<Seq<char>>,
    theirs: Option<Seq<char>>,
    tag: Option<Seq<char>>,
)
    ensures
        matched_tag(ours, theirs, tag) is Some ==> ours is Some && theirs == Some(
            trimmed(pieces(ours->0, Separator::Char { c: ',' })[0]),
        ) && (matched_tag(ours, theirs, tag) == tag || matched_tag(ours, theirs, tag) == theirs),
{
}

// ---------------------------------------------------------------------------
// Muxing
// ---------------------------------------------------------------------------
/// What the final mux is made of.
#[derive(Debug)]
pub struct Mux {
    pub output: String,
    pub video: String,
    /// The video is avet's own encode, which carries no disposition or language.
    pub encoded: bool,
    /// The disposition of the source's video, where it could be read.
    pub disposition: Option<Disposition>,
    pub video_language: Option<String>,
    /// A file of timestamps for the video.
    pub timestamps: Option<String>,
    /// The options for the video.
    pub video_args: Vec<String>,
    /// The extracted tracks, where there are any.
    pub tracks: Option<String>,
    pub track_languages: Vec<Option<String>>,
    pub source: String,
    /// Subtitle tracks of the source that mkvmerge takes itself.
    pub source_subtitles: Vec<u64>,
    /// How far those subtitles are moved, and the chapters, where the source has some.
    pub subtitle_shift_ms: i64,
    pub chapter_shift_ms: i64,
    pub has_chapters: bool,
}

pub open spec fn language_words(languages: Seq<Option<Seq<char>>>, n: nat) -> Seq<Seq<char>>
    decreases n,
{
    if n == 0 {
        Seq::empty()
    } else {
        let before = language_words(languages, (n - 1) as nat);
        match languages[n - 1] {
            Some(l) => before + seq!["--language"@, decimal((n - 1) as nat) + ":"@ + l],
            None => before,
        }
    }
}

pub open spec fn id_words(ids: Seq<u64>) -> Seq<Seq<char>> {
    Seq::new(ids.len(), |i: int| decimal(ids[i] as nat))
}

/// The options for the video, up to its file.
pub open spec fn video_words(m: Mux) -> Seq<Seq<char>> {
    seq!["-o"@, m.output@] + (match m.disposition {
        Some(d) => if m.encoded {
            disposition_options(d, 0) + (match text_of(m.video_language) {
                Some(l) => seq!["--language"@, "0:"@ + l],
                None => Seq::empty(),
            })
        } else {
            Seq::empty()
        },
        None => Seq::empty(),
    }) + seq![
        "--no-audio"@,
        "--no-subtitles"@,
        "--no-chapters"@,
        "--no-attachments"@,
        "--no-global-tags"@,
        "--no-track-tags"@,
    ] + (match text_of(m.timestamps) {
        Some(t) => seq!["--timestamps"@, "0:"@ + t],
        None => Seq::empty(),
    }) + strings(m.video_args@) + seq![m.video@]
}

/// The options for the extracted tracks, up to their file.
pub open spec fn tracks_words(m: Mux) -> Seq<Seq<char>> {
    match text_of(m.tracks) {
        Some(path) => seq![
            "--no-video"@,
            "--no-chapters"@,
            "--no-global-tags"@,
            "--no-track-tags"@,
        ] + language_words(text_views(m.track_languages@), m.track_languages@.len()) + seq![path],
        None => Seq::empty(),
    }
}

/// The options for what mkvmerge takes from the source, up to its file.
pub open spec fn source_words(m: Mux) -> Seq<Seq<char>> {
    seq!["--no-video"@, "--no-audio"@, "--no-track-tags"@] + (if m.source_subtitles@.len() == 0 {
        seq!["--no-subtitles"@]
    } else {
        seq!["--subtitle-tracks"@, joined(id_words(m.source_subtitles@), ","@)]
    }) + (if m.source_subtitles@.len() > 0 && m.encoded && m.subtitle_shift_ms != 0 {
        seq!["--sync"@, "-1:"@ + signed_decimal(m.subtitle_shift_ms as int)]
    } else {
        Seq::empty()
    }) + (if m.chapter_shift_ms != 0 && m.has_chapters {
        seq!["--chapter-sync"@, signed_decimal(m.chapter_shift_ms as int)]
    } else {
        Seq::empty()
    }) + seq![m.source@]
}

/// All of it, one file behind the other.
pub open spec fn mux_words(m: Mux) -> Seq<Seq<char>> {
    video_words(m) + tracks_words(m) + source_words(m)
}

fn push_one(args: &mut Vec<String>, a: &str)
    ensures
        strings(final(args)@) == strings(old(args)@) + seq![a@],
{
    let ghost before = strings(args@);
    args.push(a.to_owned());
    assert(strings(args@) =~= before + seq![a@]);
}

fn push_list(args: &mut Vec<String>, list: &[String])
    ensures
        strings(final(args)@) == strings(old(args)@) + strings(list@),
{
    let ghost before = strings(args@);
    let mut copy = crate::text::copied(list);
    let ghost tail = strings(copy@);
    args.append(&mut copy);
    assert(strings(args@) =~= before + tail);
}

fn push_languages(args: &mut Vec<String>, languages: &Vec<Option<String>>)
    ensures
        strings(final(args)@) == strings(old(args)@) + language_words(
            text_views(languages@),
            languages@.len(),
        ),
{
    let ghost start = strings(args@);
    let ghost list = text_views(languages@);
    let mut i: usize = 0;
    assert(strings(args@) =~= start + language_words(list, 0));
    while i < languages.len()
        invariant
            i <= languages@.len(),
            list == text_views(languages@),
            strings(args@) == start + language_words(list, i as nat),
        decreases languages@.len() - i,
    {
        assert(list[i as int] == text_of(languages@[i as int]));
        if let Some(l) = &languages[i] {
            let mut v = numbered(i, ":");
            v.append(l.as_str());
            push_two(args, "--language", v);
        }
        i = i + 1;
        assert(strings(args@) =~= start + language_words(list, i as nat));
    }
}

fn id_list(ids: &[u64]) -> (s: String)
    ensures
        s@ == joined(id_words(ids@), ","@),
{
    let mut list: Vec<String> = Vec::new();
    let mut i: usize = 0;
    while i < ids.len()
        invariant
            i <= ids@.len(),
            list@.len() == i,
            forall|k: int| 0 <= k < i ==> (#[trigger] list@[k])@ == decimal(ids@[k] as nat),
        decreases ids@.len() - i,
    {
        let mut d = String::new();
        push_decimal(&mut d, ids[i]);
        assert(d@ =~= decimal(ids@[i as int] as nat));
        list.push(d);
        i = i + 1;
    }
    assert(strings(list@) =~= id_words(ids@));
    join(list.as_slice(), ",")
}

impl Mux {
    fn push_video(&self, args: &mut Vec<String>)
        requires
            strings(old(args)@) == Seq::<Seq<char>>::empty(),
        ensures
            strings(final(args)@) == video_words(*self),
    {
        push_two(args, "-o", self.output.clone());
        if self.encoded {
            if let Some(d) = &self.disposition {
                let flags = d.to_mkvmerge_flags(0);
                push_list(args, flags.as_slice());
                if let Some(l) = &self.video_language {
                    let mut v = "0:".to_owned();
                    v.append(l.as_str());
                    push_two(args, "--language", v);
                }
            }
        }
        push_one(args, "--no-audio");
        push_one(args, "--no-subtitles");
        push_one(args, "--no-chapters");
        push_one(args, "--no-attachments");
        push_one(args, "--no-global-tags");
        push_one(args, "--no-track-tags");
        if let Some(t) = &self.timestamps {
            let mut v = "0:".to_owned();
            v.append(t.as_str());
            push_two(args, "--timestamps", v);
        }
        push_list(args, self.video_args.as_slice());
        push_one(args, self.video.as_str());
        assert(strings(args@) =~= video_words(*self));
    }

    fn push_tracks(&self, args: &mut Vec<String>)
        ensures
            strings(final(args)@) == strings(old(args)@) + tracks_words(*self),
    {
        let ghost start = strings(args@);
        if let Some(path) = &self.tracks {
            push_one(args, "--no-video");
            push_one(args, "--no-chapters");
            push_one(args, "--no-global-tags");
            push_one(args, "--no-track-tags");
            push_languages(args, &self.track_languages);
            push_one(args, path.as_str());
        }
        assert(strings(args@) =~= start + tracks_words(*self));
    }

    fn push_source(&self, args: &mut Vec<String>)
        ensures
            strings(final(args)@) == strings(old(args)@) + source_words(*self),
    {
        let ghost start = strings(args@);
        push_one(args, "--no-video");
        push_one(args, "--no-audio");
        push_one(args, "--no-track-tags");
        if self.source_subtitles.len() == 0 {
            push_one(args, "--no-subtitles");
        } else {
            push_two(args, "--subtitle-tracks", id_list(self.source_subtitles.as_slice()));
        }
        if self.source_subtitles.len() > 0 && self.encoded && self.subtitle_shift_ms != 0 {
            let mut v = "-1:".to_owned();
            push_signed(&mut v, self.subtitle_shift_ms);
            push_two(args, "--sync", v);
        }
        if self.chapter_shift_ms != 0 && self.has_chapters {
            let mut v = String::new();
            push_signed(&mut v, self.chapter_shift_ms);
            assert(v@ =~= signed_decimal(self.chapter_shift_ms as int));
            push_two(args, "--chapter-sync", v);
        }
        push_one(args, self.source.as_str());
        assert(strings(args@) =~= start + source_words(*self));
    }

    /// The arguments of mkvmerge for the finished file: the video, the extracted tracks, and
    /// from the source the rest: subtitles that ffmpeg cannot take, chapters, attachments and
    /// tags.
    pub fn args(&self) -> (args: Vec<String>)
        ensures
            strings(args@) == mux_words(*self),
    {
        let mut args: Vec<String> = Vec::new();
        assert(strings(args@) =~= Seq::empty());
        self.push_video(&mut args);
        self.push_tracks(&mut args);
        self.push_source(&mut args);
        args
    }
}

/// mkvmerge exits with 1 for warnings and with 2 or more for errors; a missing code counts as
/// an error.
pub fn mkvmerge_failed(code: Option<i32>) -> (r: bool)
    ensures
        r == (code is None || code->0 >= 2),
{
    match code {
        Some(c) => c >= 2,
        None => true,
    }
}

// ---------------------------------------------------------------------------
// Packets before the start
// ---------------------------------------------------------------------------
/// The samples of the first `n` packets, in millionths of a sample.
pub open spec fn samples_before(packets: Seq<Option<u64>>, n: nat) -> nat
    decreases n,
{
    if n == 0 {
        0
    } else {
        samples_before(packets, (n - 1) as nat) + match packets[n - 1] {
            Some(s) => s as nat,
            None => 0,
        }
    }
}

/// Whether a packet lies mostly inside the first `skip` samples: its middle does.
pub open spec fn mostly_skipped(skip: u64, packets: Seq<Option<u64>>, i: int) -> bool {
    packets[i] matches Some(n) && n > 0 && 2 * samples_before(packets, i as nat) + n < 2000000
        * skip
}

/// The leading packets that lie mostly inside the first `skip` samples. Each packet is given
/// by its length in millionths of a sample, where that is known.
pub fn whole_packets_within(skip: u64, packets: &[Option<u64>]) -> (count: usize)
    ensures
        count <= packets@.len(),
        forall|i: int| 0 <= i < count ==> #[trigger] mostly_skipped(skip, packets@, i),
        count < packets@.len() ==> !mostly_skipped(skip, packets@, count as int),
{
    let limit: u128 = 2000000 * (skip as u128);
    let mut covered: u128 = 0;
    let mut count: usize = 0;
    while count < packets.len()
        invariant
            count <= packets@.len(),
            limit == 2000000 * skip,
            covered == samples_before(packets@, count as nat),
            covered <= limit,
            forall|i: int| 0 <= i < count ==> #[trigger] mostly_skipped(skip, packets@, i),
        decreases packets@.len() - count,
    {
        match packets[count] {
            Some(n) => {
                if n == 0 || 2 * covered + n as u128 >= limit {
                    return count;
                }
                assert(mostly_skipped(skip, packets@, count as int));
                covered = covered + n as u128;
            },
            None => {
                return count;
            },
        }
        count = count + 1;
    }
    count
}

/// The packets to leave out when a track is copied: encoder priming, or audio before an MP4
/// edit. A codec delay, which `initial_padding` is, reaches Matroska by itself.
pub fn preroll_packets(skip: Option<u64>, initial_padding: u32, packets: &[Option<u64>]) -> (count:
    usize)
    ensures
        skip is None || initial_padding > 0 ==> count == 0,
        skip is Some && initial_padding == 0 ==> {
            &&& count <= packets@.len()
            &&& forall|i: int| 0 <= i < count ==> #[trigger] mostly_skipped(skip->0, packets@, i)
            &&& count < packets@.len() ==> !mostly_skipped(skip->0, packets@, count as int)
        },
{
    match skip {
        Some(skip) => {
            if initial_padding > 0 {
                0
            } else {
                whole_packets_within(skip, packets)
            }
        },
        None => 0,
    }
}

// ---------------------------------------------------------------------------
// Subtitles of a transport stream whose clock wraps
// ---------------------------------------------------------------------------
/// Whether the subtitles of a source have to be looked at: mkvmerge keeps the absolute time
/// of a transport stream whose clock wraps, and its subtitles land past the end.
pub fn may_keep_absolute_time(format_name: &str, start_known: bool, duration_known: bool) -> (r:
    bool)
    ensures
        r == (format_name@ == "mpegts"@ && start_known && duration_known),
{
    start_known && duration_known && same(format_name, "mpegts")
}

/// The arguments of mkvmerge that write those subtitles to a file of their own.
pub fn subtitle_probe_args(output: &str, subtitle_ids: &[u64], source: &str) -> (args: Vec<String>)
    ensures
        strings(args@) == seq![
            "-o"@,
            output@,
            "--no-video"@,
            "--no-audio"@,
            "--no-attachments"@,
            "--no-chapters"@,
            "--no-global-tags"@,
            "--no-track-tags"@,
            "--subtitle-tracks"@,
            joined(id_words(subtitle_ids@), ","@),
            source@,
        ],
{
    let mut args: Vec<String> = Vec::new();
    push_two(&mut args, "-o", output.to_owned());
    push_words(
        &mut args,
        &[
            "--no-video",
            "--no-audio",
            "--no-attachments",
            "--no-chapters",
            "--no-global-tags",
            "--no-track-tags",
        ],
    );
    push_two(&mut args, "--subtitle-tracks", id_list(subtitle_ids));
    push_words(&mut args, &[source]);
    args
}

/// How far such subtitles are to be moved: back by the start of the source where the first
/// one comes more than a second after its end, and not at all otherwise. Times are in
/// microseconds but for the start, which is in milliseconds as the result is.
pub fn absolute_time_shift_ms(first_subtitle: Option<i64>, start_ms: i64, duration: i64) -> (ms:
    i64)
    requires
        start_ms > i64::MIN,
        duration <= i64::MAX - 1000000,
    ensures
        ms == if first_subtitle is Some && first_subtitle->0 > duration + 1000000 {
            -start_ms
        } else {
            0
        },
{
    match first_subtitle {
        Some(t) => {
            if t > duration + 1000000 {
                -start_ms
            } else {
                0
            }
        },
        None => 0,
    }
}

// ---------------------------------------------------------------------------
// What holds of every mux
// ---------------------------------------------------------------------------
/// Each thing of the finished file comes from where it is: the output is named first. The
/// video's file follows its own options and gives nothing else; the file of the extracted
/// tracks gives no video and no chapters; the source comes last and gives neither video nor
/// audio, but its chapters, its attachments and its tags.
#[verifier::rlimit(50)]
pub proof fn law_each_file_gives_its_own(m: Mux)
    ensures
        ({
            let args = mux_words(m);
            let (v, t) = (video_words(m).len() as int, tracks_words(m).len() as int);
            &&& args[0] == "-o"@ && args[1] == m.output@
            &&& v >= 2 && args[v - 1] == m.video@
            &&& video_words(m).contains("--no-audio"@) && video_words(m).contains("--no-subtitles"@)
            &&& video_words(m).contains("--no-chapters"@) && video_words(m).contains(
                "--no-attachments"@,
            )
            &&& m.tracks is None ==> t == 0
            &&& m.tracks is Some ==> t > 0 && args[v + t - 1] == m.tracks->0@ && args[v]
                == "--no-video"@ && args[v + 1] == "--no-chapters"@
            &&& args.last() == m.source@
            &&& args[v + t] == "--no-video"@ && args[v + t + 1] == "--no-audio"@
            &&& forall|i: int|
                v + t <= i < args.len() - 1 ==> #[trigger] args[i] != "--no-chapters"@ && args[i]
                    != "--no-attachments"@ && args[i] != "--no-global-tags"@
        }),
{
    let args = mux_words(m);
    let (a, b, c) = (video_words(m), tracks_words(m), source_words(m));
    let (v, t) = (a.len() as int, b.len() as int);
    let own = match m.disposition {
        Some(d) => if m.encoded {
            disposition_options(d, 0) + (match text_of(m.video_language) {
                Some(l) => seq!["--language"@, "0:"@ + l],
                None => Seq::empty(),
            })
        } else {
            Seq::empty()
        },
        None => Seq::empty(),
    };
    let k = 2 + own.len() as int;
    assert(a[k] == "--no-audio"@ && a[k + 1] == "--no-subtitles"@ && a[k + 2] == "--no-chapters"@
        && a[k + 3] == "--no-attachments"@);
    assert(args[0] == a[0] && args[1] == a[1] && args[v - 1] == a[v - 1]);
    assert(c[0] == "--no-video"@ && c[1] == "--no-audio"@ && c.last() == m.source@);
    assert(args[v + t] == c[0] && args[v + t + 1] == c[1]);
    assert(args.last() == c.last());
    if m.tracks is Some {
        assert(args[v] == b[0] && args[v + 1] == b[1] && args[v + t - 1] == b[t - 1]);
    }
    lemma_source_words(m);
    assert forall|i: int| v + t <= i < args.len() - 1 implies #[trigger] args[i] != "--no-chapters"@
        && args[i] != "--no-attachments"@ && args[i] != "--no-global-tags"@ by {
        assert(args[i] == c[i - v - t]);
    }
}

#[verifier::rlimit(50)]
proof fn lemma_source_words(m: Mux)
    ensures
        ({
            let c = source_words(m);
            forall|i: int|
                0 <= i < c.len() - 1 ==> #[trigger] c[i] != "--no-chapters"@ && c[i]
                    != "--no-attachments"@ && c[i] != "--no-global-tags"@
        }),
{
    reveal_strlit("--no-chapters");
    reveal_strlit("--no-attachments");
    reveal_strlit("--no-global-tags");
    reveal_strlit("--no-video");
    reveal_strlit("--no-audio");
    reveal_strlit("--no-track-tags");
    reveal_strlit("--no-subtitles");
    reveal_strlit("--subtitle-tracks");
    reveal_strlit("--sync");
    reveal_strlit("--chapter-sync");
    reveal_strlit("-1:");
    reveal_strlit("-");
    let c = source_words(m);
    let ids = id_words(m.source_subtitles@);
    let list = joined(ids, ","@);
    if ids.len() > 0 {
        law_decimal_round_trip(m.source_subtitles@[0] as nat, u64::MAX as nat);
        assert(ids[0] == decimal(m.source_subtitles@[0] as nat));
        lemma_joined_start(ids, ","@);
        assert(is_digit(list[0]));
    }
    let shift = "-1:"@ + signed_decimal(m.subtitle_shift_ms as int);
    assert(shift[0] == '-' && shift[1] == '1');
    let chapter = signed_decimal(m.chapter_shift_ms as int);
    lemma_signed_start(m.chapter_shift_ms as int);
    assert forall|i: int| 0 <= i < c.len() - 1 implies #[trigger] c[i] != "--no-chapters"@ && c[i]
        != "--no-attachments"@ && c[i] != "--no-global-tags"@ by {
        let w = c[i];
        assert(w == "--no-video"@ || w == "--no-audio"@ || w == "--no-track-tags"@ || w
            == "--no-subtitles"@ || w == "--subtitle-tracks"@ || (w == list && ids.len() > 0) || w
            == "--sync"@ || w == shift || w == "--chapter-sync"@ || w == chapter);
        assert("--no-video"@.len() == 10 && "--no-audio"@.len() == 10 && "--no-chapters"@.len()
            == 13 && "--no-attachments"@.len() == 16 && "--no-global-tags"@.len() == 16);
        assert("--no-track-tags"@.len() == 15 && "--no-subtitles"@.len() == 14
            && "--subtitle-tracks"@.len() == 17);
        assert("--sync"@.len() == 6 && "--chapter-sync"@.len() == 14);
        assert("--no-chapters"@[1] == '-' && "--no-attachments"@[1] == '-' && "--no-global-tags"@[1]
            == '-');
        assert("--no-chapters"@[0] == '-' && "--no-attachments"@[0] == '-' && "--no-global-tags"@[0]
            == '-');
    }
}

proof fn lemma_joined_start(parts: Seq<Seq<char>>, sep: Seq<char>)
    requires
        parts.len() > 0,
        parts[0].len() > 0,
    ensures
        joined(parts, sep).len() > 0,
        joined(parts, sep)[0] == parts[0][0],
    decreases parts.len(),
{
    if parts.len() > 1 {
        lemma_joined_start(parts.drop_last(), sep);
    }
}

proof fn lemma_signed_start(n: int)
    ensures
        signed_decimal(n).len() > 0,
        is_digit(signed_decimal(n)[0]) || (signed_decimal(n).len() > 1 && is_digit(
            signed_decimal(n)[1],
        )),
{
    reveal_strlit("-");
    if n < 0 {
        law_decimal_round_trip((-n) as nat, (-n) as nat);
        assert(signed_decimal(n)[1] == decimal((-n) as nat)[0]);
        assert(is_digit(decimal((-n) as nat)[0]));
    } else {
        law_decimal_round_trip(n as nat, n as nat);
        assert(is_digit(decimal(n as nat)[0]));
    }
}

/// The subtitles that ffmpeg cannot take come from the source, by number and no others, and
/// move by their own shift; its chapters, where it has some, by theirs.
pub proof fn law_source_gives_subtitles_and_chapters(m: Mux)
    ensures
        ({
            let words = source_words(m);
            let ids = m.source_subtitles@;
            &&& ids.len() == 0 ==> words.contains("--no-subtitles"@)
            &&& ids.len() > 0 ==> exists|list: Seq<char>|
                #![trigger gives(words, "--subtitle-tracks"@, list)]
                gives(words, "--subtitle-tracks"@, list) && pieces(
                    list,
                    Separator::Char { c: ',' },
                ) == Seq::new(ids.len(), |i: int| decimal(ids[i] as nat))
            &&& ids.len() > 0 && m.encoded && m.subtitle_shift_ms != 0 ==> gives(
                words,
                "--sync"@,
                "-1:"@ + signed_decimal(m.subtitle_shift_ms as int),
            )
            &&& m.has_chapters && m.chapter_shift_ms != 0 ==> gives(
                words,
                "--chapter-sync"@,
                signed_decimal(m.chapter_shift_ms as int),
            )
        }),
{
    reveal_strlit(",");
    let words = source_words(m);
    let ids = m.source_subtitles@;
    let head = seq!["--no-video"@, "--no-audio"@, "--no-track-tags"@];
    let list = joined(id_words(ids), ","@);
    let a = if ids.len() == 0 {
        seq!["--no-subtitles"@]
    } else {
        seq!["--subtitle-tracks"@, list]
    };
    let b = if ids.len() > 0 && m.encoded && m.subtitle_shift_ms != 0 {
        seq!["--sync"@, "-1:"@ + signed_decimal(m.subtitle_shift_ms as int)]
    } else {
        Seq::empty()
    };
    let c = if m.chapter_shift_ms != 0 && m.has_chapters {
        seq!["--chapter-sync"@, signed_decimal(m.chapter_shift_ms as int)]
    } else {
        Seq::empty()
    };
    let last = seq![m.source@];
    assert(words == head + a + b + c + last);
    lemma_gives_joined(head, a);
    lemma_gives_joined(head + a, b);
    lemma_gives_joined(head + a + b, c);
    lemma_gives_joined(head + a + b + c, last);
    lemma_gives_at(a, 0);
    lemma_gives_at(b, 0);
    lemma_gives_at(c, 0);
    assert(b.len() > 0 ==> gives(b, b[0], b[1]));
    assert(c.len() > 0 ==> gives(c, c[0], c[1]));
    if ids.len() == 0 {
        assert(words[3] == "--no-subtitles"@);
    } else {
        assert(gives(a, a[0], a[1]));
        assert(gives(words, "--subtitle-tracks"@, list));
        let parts = id_words(ids);
        assert(","@ =~= seq![',']);
        assert forall|i: int| 0 <= i < parts.len() implies !(#[trigger] parts[i]).contains(',') by {
            lemma_decimal_is_plain(ids[i] as nat, ',');
        }
        law_joined_parts_split_again(parts, ',');
        assert(parts =~= Seq::new(ids.len(), |i: int| decimal(ids[i] as nat)));
    }
}

/// Every extracted track gets the language that is known of it, under its own number, and one
/// without a language gets none.
pub proof fn law_tracks_get_their_own_language(languages: Seq<Option<Seq<char>>>, n: nat)
    requires
        n <= languages.len(),
    ensures
        forall|i: int|
            0 <= i < n && (#[trigger] languages[i]) is Some ==> gives(
                language_words(languages, n),
                "--language"@,
                decimal(i as nat) + ":"@ + languages[i]->0,
            ),
        language_words(languages, n).len() == 2 * languages.take(n as int).filter(
            |l: Option<Seq<char>>| l is Some,
        ).len(),
    decreases n,
{
    reveal(Seq::filter);
    if n > 0 {
        let m = (n - 1) as nat;
        law_tracks_get_their_own_language(languages, m);
        assert(languages.take(n as int).drop_last() =~= languages.take(m as int));
        assert(languages.take(n as int).last() == languages[n - 1]);
        let before = language_words(languages, m);
        if let Some(l) = languages[n - 1] {
            let last = seq!["--language"@, decimal(m) + ":"@ + l];
            lemma_gives_joined(before, last);
            lemma_gives_at(last, 0);
            assert(gives(last, last[0], last[1]));
        }
    }
}

/// An extracted track keeps the tag of the stream that it was made from: audio by its place
/// in the source, subtitles behind all audio by theirs.
pub proof fn law_extracted_tracks_keep_their_tags(
    l: LanguagesView,
    tracks: Seq<PlannedView>,
    subtitles: Seq<(int, Option<Seq<char>>)>,
    k: int,
)
    ensures
        ({
            let tags = extracted_tags(l, tracks, subtitles);
            &&& tags.len() == tracks.len() + subtitles.len()
            &&& 0 <= k < tracks.len() && tracks[k].audio_index < l.audio.len() ==> tags[k]
                == l.audio[tracks[k].audio_index as int]
            &&& 0 <= k < tracks.len() && tracks[k].audio_index >= l.audio.len() ==> tags[k] is None
            &&& 0 <= k < subtitles.len() && 0 <= subtitles[k].0 < l.subtitles.len()
                ==> tags[tracks.len() + k] == l.subtitles[subtitles[k].0]
        }),
{
}

/// Streams and tracks of a kind are taken in their order, and nothing of another kind.
pub proof fn law_languages_are_those_of_the_kind(
    streams: Seq<TaggedStream>,
    tracks: Seq<MkvTrack>,
    kind: Seq<char>,
)
    ensures
        ({
            let own = streams.filter(|s: TaggedStream| s.codec_type@ == kind);
            let found = streams_of(streams, kind, streams.len());
            found.len() == own.len() && forall|k: int|
                0 <= k < own.len() ==> #[trigger] found[k] == text_of(own[k].language)
        }),
        ({
            let own = tracks.filter(|t: MkvTrack| t.kind@ == kind);
            let found = tracks_of(tracks, kind, tracks.len());
            found.len() == own.len() && forall|k: int|
                0 <= k < own.len() ==> #[trigger] found[k] == (
                    text_of(own[k].language),
                    text_of(own[k].language_ietf),
                )
        }),
{
    lemma_streams_of(streams, kind, streams.len());
    lemma_tracks_of(tracks, kind, tracks.len());
    assert(streams.take(streams.len() as int) =~= streams);
    assert(tracks.take(tracks.len() as int) =~= tracks);
}

proof fn lemma_streams_of(streams: Seq<TaggedStream>, kind: Seq<char>, n: nat)
    requires
        n <= streams.len(),
    ensures
        ({
            let own = streams.take(n as int).filter(|s: TaggedStream| s.codec_type@ == kind);
            let found = streams_of(streams, kind, n);
            found.len() == own.len() && forall|k: int|
                0 <= k < own.len() ==> #[trigger] found[k] == text_of(own[k].language)
        }),
    decreases n,
{
    reveal(Seq::filter);
    if n > 0 {
        lemma_streams_of(streams, kind, (n - 1) as nat);
        assert(streams.take(n as int).drop_last() =~= streams.take(n - 1));
        assert(streams.take(n as int).last() == streams[n - 1]);
    }
}

proof fn lemma_tracks_of(tracks: Seq<MkvTrack>, kind: Seq<char>, n: nat)
    requires
        n <= tracks.len(),
    ensures
        ({
            let own = tracks.take(n as int).filter(|t: MkvTrack| t.kind@ == kind);
            let found = tracks_of(tracks, kind, n);
            found.len() == own.len() && forall|k: int|
                0 <= k < own.len() ==> #[trigger] found[k] == (
                    text_of(own[k].language),
                    text_of(own[k].language_ietf),
                )
        }),
    decreases n,
{
    reveal(Seq::filter);
    if n > 0 {
        lemma_tracks_of(tracks, kind, (n - 1) as nat);
        assert(tracks.take(n as int).drop_last() =~= tracks.take(n - 1));
        assert(tracks.take(n as int).last() == tracks[n - 1]);
    }
}

/// Tags are matched by place, and only where both tools see as many tracks. Where they agree
/// on a language, a tag that says more than it is kept.
pub proof fn law_tags_are_matched_by_place(
    ours: Seq<Option<Seq<char>>>,
    theirs: Seq<(Option<Seq<char>>, Option<Seq<char>>)>,
    i: int,
)
    requires
        0 <= i < ours.len(),
    ensures
        matched(ours, theirs).len() == ours.len(),
        ours.len() != theirs.len() ==> matched(ours, theirs)[i] is None,
        ours.len() == theirs.len() ==> matched(ours, theirs)[i] == matched_tag(
            ours[i],
            theirs[i].0,
            theirs[i].1,
        ),
        ours.len() == theirs.len() && ours[i] is Some && !ours[i]->0.contains(',') && trimmed(
            ours[i]->0,
        ) == ours[i]->0 && theirs[i].0 == ours[i] && theirs[i].1 is Some && occurs(
            theirs[i].1->0,
            "-"@,
        ) ==> matched(ours, theirs)[i] == theirs[i].1,
{
    if let Some(o) = ours[i] {
        if !o.contains(',') {
            let sep = Separator::Char { c: ',' };
            assert forall|k: int| 0 <= k < o.len() implies !crate::text::separates(
                sep,
                #[trigger] o[k],
            ) by {
                assert(o.contains(o[k]));
            }
            crate::text::lemma_one_piece(o, sep);
        }
    }
}

/// The language of the video is that of the first video track, unless it is not determined.
pub proof fn law_first_video_gives_the_language(tracks: Seq<MkvTrack>, from: int)
    requires
        0 <= from,
    ensures
        forall|i: int|
            from <= i < tracks.len() && (#[trigger] tracks[i]).kind@ == "video"@ && (forall|j: int|
                from <= j < i ==> (#[trigger] tracks[j]).kind@ != "video"@) ==> {
                let known = if tracks[i].language_ietf is Some {
                    text_of(tracks[i].language_ietf)
                } else {
                    text_of(tracks[i].language)
                };
                &&& known is Some && known->0.len() > 0 && known->0 != "und"@ ==> video_language(
                    tracks,
                    from,
                ) == known
                &&& known is None || known->0.len() == 0 || known->0 == "und"@ ==> video_language(
                    tracks,
                    from,
                ) is None
            },
        (forall|i: int| from <= i < tracks.len() ==> (#[trigger] tracks[i]).kind@ != "video"@)
            ==> video_language(tracks, from) is None,
    decreases tracks.len() - from,
{
    if from < tracks.len() && tracks[from].kind@ != "video"@ {
        law_first_video_gives_the_language(tracks, from + 1);
    }
}

/// A disposition is passed on flag by flag: whether a track is the default is always said,
/// and each other flag where it is set.
#[verifier::rlimit(50)]
pub proof fn law_dispositions_are_passed_on(d: Disposition, tid: usize)
    ensures
        ({
            let words = disposition_options(d, tid);
            let yes = decimal(tid as nat) + ":yes"@;
            &&& d.default != 0 ==> gives(words, "--default-track-flag"@, yes)
            &&& d.default == 0 ==> gives(
                words,
                "--default-track-flag"@,
                decimal(tid as nat) + ":no"@,
            )
            &&& d.forced != 0 ==> gives(words, "--forced-display-flag"@, yes)
            &&& d.hearing_impaired != 0 ==> gives(words, "--hearing-impaired-flag"@, yes)
            &&& d.visual_impaired != 0 ==> gives(words, "--visual-impaired-flag"@, yes)
            &&& d.original != 0 ==> gives(words, "--original-flag"@, yes)
            &&& d.comment != 0 ==> gives(words, "--commentary-flag"@, yes)
            &&& d.forced == 0 && d.hearing_impaired == 0 && d.visual_impaired == 0 && d.original
                == 0 && d.comment == 0 ==> words.len() == 2
        }),
{
    let a = seq![
        "--default-track-flag"@,
        decimal(tid as nat) + if d.default != 0 {
            ":yes"@
        } else {
            ":no"@
        },
    ];
    let b = yes_option("--forced-display-flag"@, tid, d.forced);
    let c = yes_option("--hearing-impaired-flag"@, tid, d.hearing_impaired);
    let e = yes_option("--visual-impaired-flag"@, tid, d.visual_impaired);
    let f = yes_option("--original-flag"@, tid, d.original);
    let g = yes_option("--commentary-flag"@, tid, d.comment);
    assert(disposition_options(d, tid) == a + b + c + e + f + g);
    lemma_gives_joined(a, b);
    lemma_gives_joined(a + b, c);
    lemma_gives_joined(a + b + c, e);
    lemma_gives_joined(a + b + c + e, f);
    lemma_gives_joined(a + b + c + e + f, g);
    lemma_gives_at(a, 0);
    lemma_gives_at(b, 0);
    lemma_gives_at(c, 0);
    lemma_gives_at(e, 0);
    lemma_gives_at(f, 0);
    lemma_gives_at(g, 0);
    assert(gives(a, a[0], a[1]));
    assert(b.len() > 0 ==> gives(b, b[0], b[1]));
    assert(c.len() > 0 ==> gives(c, c[0], c[1]));
    assert(e.len() > 0 ==> gives(e, e[0], e[1]));
    assert(f.len() > 0 ==> gives(f, f[0], f[1]));
    assert(g.len() > 0 ==> gives(g, g[0], g[1]));
}

/// An encoded video says what the source said of it: its disposition and its language.
pub proof fn law_encoded_video_keeps_its_language(m: Mux)
    ensures
        m.encoded && m.disposition is Some && m.video_language is Some ==> gives(
            video_words(m),
            "--language"@,
            "0:"@ + m.video_language->0@,
        ),
        m.encoded && m.disposition is Some ==> forall|option: Seq<char>, value: Seq<char>| #[trigger]
            gives(disposition_options(m.disposition->0, 0), option, value) ==> gives(
                video_words(m),
                option,
                value,
            ),
        m.timestamps is Some ==> gives(
            video_words(m),
            "--timestamps"@,
            "0:"@ + m.timestamps->0@,
        ),
        forall|option: Seq<char>, value: Seq<char>| #[trigger]
            gives(strings(m.video_args@), option, value) ==> gives(video_words(m), option, value),
{
    let head = seq!["-o"@, m.output@];
    let flags = match m.disposition {
        Some(d) => disposition_options(d, 0),
        None => Seq::empty(),
    };
    let language = match text_of(m.video_language) {
        Some(l) => seq!["--language"@, "0:"@ + l],
        None => Seq::empty(),
    };
    let own = match m.disposition {
        Some(d) => if m.encoded {
            flags + language
        } else {
            Seq::empty()
        },
        None => Seq::empty(),
    };
    let not = seq![
        "--no-audio"@,
        "--no-subtitles"@,
        "--no-chapters"@,
        "--no-attachments"@,
        "--no-global-tags"@,
        "--no-track-tags"@,
    ];
    let times = match text_of(m.timestamps) {
        Some(t) => seq!["--timestamps"@, "0:"@ + t],
        None => Seq::empty(),
    };
    let args = strings(m.video_args@);
    let last = seq![m.video@];
    assert(video_words(m) == head + own + not + times + args + last);
    lemma_gives_joined(flags, language);
    lemma_gives_joined(head, own);
    lemma_gives_joined(head + own, not);
    lemma_gives_joined(head + own + not, times);
    lemma_gives_joined(head + own + not + times, args);
    lemma_gives_joined(head + own + not + times + args, last);
    lemma_gives_at(language, 0);
    lemma_gives_at(times, 0);
    assert(language.len() > 0 ==> gives(language, language[0], language[1]));
    assert(times.len() > 0 ==> gives(times, times[0], times[1]));
}

// ---------------------------------------------------------------------------
// What holds of every track
// ---------------------------------------------------------------------------
/// Opus gets the smallest layout that does: each channel of the source has its own place
/// there, or that of its substitute where the source has no such channel; and in every
/// smaller layout some channel has neither.
pub proof fn law_smallest_layout_is_taken(source: Seq<Seq<char>>)
    ensures
        first_layout(source, 0) matches Some(k) ==> {
            &&& 0 <= k < 8
            &&& forall|i: int|
                0 <= i < source.len() ==> has_place(#[trigger] source[i], opus_channels(k), source)
            &&& forall|j: int|
                0 <= j < k ==> exists|i: int|
                    0 <= i < source.len() && !has_place(
                        #[trigger] source[i],
                        #[trigger] opus_channels(j),
                        source,
                    )
        },
        first_layout(source, 0) is None ==> forall|j: int|
            0 <= j < 8 ==> exists|i: int|
                0 <= i < source.len() && !has_place(
                    #[trigger] source[i],
                    #[trigger] opus_channels(j),
                    source,
                ),
{
    lemma_first_layout(source, 0);
    assert forall|i: int, target: Seq<Seq<char>>|
        0 <= i < source.len() implies #[trigger] has_place(source[i], target, source) == (place_of(
        source[i],
        target,
        source,
    ) is Some) by {}
    if let Some(k) = first_layout(source, 0) {
        assert forall|i: int| 0 <= i < source.len() implies has_place(
            #[trigger] source[i],
            opus_channels(k),
            source,
        ) by {
            assert(place_of(source[i], opus_channels(k), source) is Some);
        }
    }
    let end = match first_layout(source, 0) {
        Some(k) => k,
        None => 8,
    };
    assert forall|j: int| 0 <= j < end implies exists|i: int|
        0 <= i < source.len() && !has_place(
            #[trigger] source[i],
            #[trigger] opus_channels(j),
            source,
        ) by {
        assert(!all_placed(source, opus_channels(j)));
        let i = choose|i: int|
            0 <= i < source.len() && !(place_of(
                #[trigger] source[i],
                opus_channels(j),
                source,
            ) is Some);
        assert(!has_place(source[i], opus_channels(j), source));
    }
}

/// A channel of the source is in a layout, or its substitute is, for which the source has no
/// use itself.
pub open spec fn has_place(c: Seq<char>, target: Seq<Seq<char>>, source: Seq<Seq<char>>) -> bool {
    target.contains(c) || (substitute(c) is Some && target.contains(substitute(c)->0)
        && !source.contains(substitute(c)->0))
}

/// A channel map names each channel of the source with the channel that takes it in.
pub proof fn law_channel_map_names_source_and_place(source: Seq<Seq<char>>, i: int)
    requires
        first_layout(source, 0) is Some,
        0 <= i < source.len(),
    ensures
        ({
            let target = opus_channels(first_layout(source, 0)->0);
            exists|to: Seq<char>|
                #![trigger target.contains(to)]
                target.contains(to) && map_pairs(source, target)[i] == source[i] + "-"@ + to && (to
                    == source[i] || substitute(source[i]) == Some(to))
        }),
{
    law_placed_channels_are_kept(source, i);
    let target = opus_channels(first_layout(source, 0)->0);
    let to = places(source, target)[i];
    assert(target.contains(to));
}

/// A track is lossless where ffmpeg says so of its codec or it is PCM; DTS only with Master
/// Audio, whatever ffmpeg says.
pub proof fn law_lossless_sources(codec: Seq<char>, profile: Option<Seq<char>>, lossless: Set<Seq<char>>)
    ensures
        codec != "dts"@ && lossless.contains(codec) ==> lossless_source(codec, profile, lossless),
        codec != "dts"@ && has_prefix(codec, "pcm_"@) ==> lossless_source(codec, profile, lossless),
        codec != "dts"@ && !lossless.contains(codec) && !has_prefix(codec, "pcm_"@)
            ==> !lossless_source(codec, profile, lossless),
        codec == "dts"@ && profile is None ==> !lossless_source(codec, profile, lossless),
        codec == "dts"@ && profile is Some ==> lossless_source(codec, profile, lossless) == occurs(
            profile->0,
            "MA"@,
        ),
{
}

/// Stored as PCM, a track keeps its samples whole: floating point stays that, and whole
/// numbers get as many bits as they have. No narrower PCM would do.
pub proof fn law_pcm_keeps_samples_whole(fmt: Seq<char>, bits: u32)
    ensures
        ({
            let pcm = pcm_of(fmt, bits);
            &&& fmt == "flt"@ || fmt == "fltp"@ ==> pcm == "pcm_f32le"@
            &&& fmt == "dbl"@ || fmt == "dblp"@ ==> pcm == "pcm_f64le"@
            &&& fmt != "flt"@ && fmt != "fltp"@ && fmt != "dbl"@ && fmt != "dblp"@ && 0 < bits <= 32
                ==> pcm_bits(pcm) is Some && bits <= pcm_bits(pcm)->0 && (pcm_bits(pcm)->0 == 16
                || bits > pcm_bits(pcm)->0 - 8)
        }),
{
    reveal_strlit("pcm_s16le");
    reveal_strlit("pcm_s24le");
    reveal_strlit("pcm_s32le");
    reveal_strlit("flt");
    reveal_strlit("fltp");
    reveal_strlit("dbl");
    reveal_strlit("dblp");
    assert("flt"@[0] != "dbl"@[0] && "fltp"@[0] != "dblp"@[0]);
    assert("pcm_s16le"@[5] != "pcm_s24le"@[5] && "pcm_s16le"@[5] != "pcm_s32le"@[5]
        && "pcm_s24le"@[5] != "pcm_s32le"@[5]);
    let pcm = pcm_of(fmt, bits);
    if fmt != "flt"@ && fmt != "fltp"@ && fmt != "dbl"@ && fmt != "dblp"@ && 0 < bits <= 32 {
        let width: u32 = if bits <= 16 {
            16
        } else if bits <= 24 {
            24
        } else {
            32
        };
        assert(pcm_bits(pcm) == Some(width));
    }
}

/// How many bits whole samples have in PCM.
pub open spec fn pcm_bits(pcm: Seq<char>) -> Option<u32> {
    if pcm == "pcm_s16le"@ {
        Some(16)
    } else if pcm == "pcm_s24le"@ {
        Some(24)
    } else if pcm == "pcm_s32le"@ {
        Some(32)
    } else {
        None
    }
}

/// A stream that carries nothing is not taken, whatever its language; of the others, those in
/// a language that is kept.
pub proof fn law_streams_without_sound_are_not_taken(t: AudioTrack, whitelist: Seq<Seq<char>>)
    ensures
        track_taken(t, whitelist) ==> t.sample_rate > 0 && t.channels is Some && t.channels->0 > 0
            && language_kept(whitelist, text_of(t.language)),
        t.sample_rate > 0 && t.channels is Some && t.channels->0 > 0 && language_kept(
            whitelist,
            text_of(t.language),
        ) ==> track_taken(t, whitelist),
{
}

/// An encoded track gets what its rule asks for: no bitrate for a lossless encoder, else that
/// of its layout, which for Opus is the one that it is brought to; a layout of its own for
/// Opus alone; and every option, once, as it is set.
pub proof fn law_encoded_track_gets_its_settings(
    t: AudioTrack,
    config: AudioConfig,
    lossless: bool,
    codec: Seq<char>,
)
    ensures
        ({
            let rule = rule_for(config, t.codec_name@, lossless);
            let e = encode_of(t, config, lossless, codec);
            let opus = occurs(codec, "opus"@);
            let bitrate = resolved_bitrate(config, rule);
            let target = opus_name(opus_target(text_of(t.channel_layout), t.channels));
            &&& e.codec == codec
            &&& lossless_encoder(codec) || bitrate is None ==> e.bitrate is None
            &&& !lossless_encoder(codec) && bitrate is Some && opus ==> e.bitrate == bitrate_for(
                bitrate->0,
                Some(target),
            )
            &&& !lossless_encoder(codec) && bitrate is Some && !opus && t.channels is Some
                ==> e.bitrate == bitrate_for(bitrate->0, layout_of(t.channels->0))
            &&& e.layout is Some <==> opus
            &&& e.layout matches Some((name, _)) ==> name == target
            &&& e.options.to_multiset() == option_words(
                resolved_options(config, rule),
            ).to_multiset()
            &&& in_order(e.options)
        }),
{
    let rule = rule_for(config, t.codec_name@, lossless);
    law_options_are_sorted(option_words(resolved_options(config, rule)));
}

/// A marked title ends with the marker, and keeps what it said in front of it.
pub proof fn law_marked_title_keeps_its_text(title: Seq<char>, marker: Seq<char>)
    requires
        trimmed(title).len() > 0,
        !has_suffix(trimmed(title), "("@ + marker + ")"@),
    ensures
        marked_title(Some(title), marker) == trimmed(title) + (" ("@ + marker + ")"@),
        marked_title(None, marker) == marker,
{
    let own = trimmed(title);
    assert(own + " ("@ + marker + ")"@ =~= own + (" ("@ + marker + ")"@));
}

/// The names in a list of codecs are those of the rows that say so of an audio codec.
pub proof fn law_listed_codecs_are_those_of_the_rows(
    rows: Seq<Seq<char>>,
    at: int,
    letter: u8,
    name: Seq<char>,
)
    ensures
        flagged(rows, at, letter).contains(name) <==> exists|i: int|
            0 <= i < rows.len() && #[trigger] row_says(rows[i], at, letter, name),
    decreases rows.len(),
{
    if rows.len() > 0 {
        let front = rows.drop_last();
        law_listed_codecs_are_those_of_the_rows(front, at, letter, name);
        let n = rows.len() - 1;
        if flagged(front, at, letter).contains(name) {
            let i = choose|i: int|
                0 <= i < front.len() && #[trigger] row_says(front[i], at, letter, name);
            assert(row_says(rows[i], at, letter, name));
        }
        if row_says(rows[n], at, letter, name) {
            assert(flagged(rows, at, letter).contains(name));
        }
        if exists|i: int| 0 <= i < rows.len() && #[trigger] row_says(rows[i], at, letter, name) {
            let i = choose|i: int|
                0 <= i < rows.len() && #[trigger] row_says(rows[i], at, letter, name);
            if i < n {
                assert(row_says(front[i], at, letter, name));
            }
        }
        if flagged(rows, at, letter).contains(name) && !flagged(front, at, letter).contains(name) {
            assert(row_says(rows[n], at, letter, name));
        }
    }
}

/// A row is about this audio codec and has this flag.
pub open spec fn row_says(row: Seq<char>, at: int, letter: u8, name: Seq<char>) -> bool {
    let w = words(row);
    &&& w.len() >= 2
    &&& w[1] == name
    &&& encode_utf8(w[0]).len() >= 6
    &&& encode_utf8(w[0])[2] == 65
    &&& encode_utf8(w[0])[at] == letter
}

/// A packet is left out only where more than half of it lies in what the source skips, so
/// nothing is left out where it skips nothing.
pub proof fn law_heard_packets_are_kept(skip: u64, packets: Seq<Option<u64>>, i: int)
    requires
        0 <= i < packets.len(),
    ensures
        mostly_skipped(skip, packets, i) ==> {
            let length = packets[i]->0;
            &&& packets[i] is Some && length > 0
            &&& samples_before(packets, (i + 1) as nat) - 1000000 * skip < 1000000 * skip
                - samples_before(packets, i as nat)
        },
        skip == 0 ==> !mostly_skipped(skip, packets, i),
{
}

/// The Opus layouts are those of one to eight channels, in that order, by the names that
/// bitrates are given by.
pub proof fn law_opus_layouts_are_by_channel_count(k: int)
    requires
        0 <= k < 8,
    ensures
        layout_of((k + 1) as u32) == Some(opus_name(k)),
{
}

/// A track without a known layout, or with one that no Opus layout has a place for, gets the
/// layout with as many channels, and the largest where it has more.
pub proof fn law_unplaced_tracks_go_by_count(layout: Option<Seq<char>>, channels: Option<u32>)
    ensures
        ({
            let source = source_channels(layout);
            let placed = source is Some && first_layout(source->0, 0) is Some;
            let count = if source is Some {
                source->0.len() as int
            } else if channels is Some {
                channels->0 as int
            } else {
                2
            };
            &&& !placed && 1 <= count <= 8 ==> opus_target(layout, channels) == count - 1
            &&& !placed && count > 8 ==> opus_target(layout, channels) == 7
            &&& !placed && count < 1 ==> opus_target(layout, channels) == 0
            &&& placed ==> opus_target(layout, channels) == first_layout(source->0, 0)->0
        }),
{
}

/// A channel that is mixed into another is heard there: the sum of a row starts with its own
/// channel and has a term for every other.
pub proof fn law_mixed_channels_are_heard(r: RowView, j: int)
    requires
        0 <= j < r.extra.len(),
    ensures
        occurs(gain_of(r), "+0.7071*"@ + r.extra[j]),
        has_prefix(gain_of(r), r.name + "="@ + r.name),
{
    lemma_gain_terms(r.extra, j);
    let head = r.name + "="@ + r.name;
    let terms = gain_terms(r.extra);
    let part = "+0.7071*"@ + r.extra[j];
    let at = choose|at: int| crate::text::occurs_at(terms, part, at);
    assert(gain_of(r) == head + terms);
    assert(gain_of(r).subrange(head.len() + at, head.len() + at + part.len()) =~= terms.subrange(
        at,
        at + part.len(),
    ));
    assert(crate::text::occurs_at(gain_of(r), part, head.len() + at));
    assert(gain_of(r).subrange(0, head.len() as int) =~= head);
}

proof fn lemma_gain_terms(extra: Seq<Seq<char>>, j: int)
    requires
        0 <= j < extra.len(),
    ensures
        occurs(gain_terms(extra), "+0.7071*"@ + extra[j]),
    decreases extra.len(),
{
    let front = extra.drop_last();
    let before = gain_terms(front);
    let all = gain_terms(extra);
    let part = "+0.7071*"@ + extra[j];
    if j < front.len() {
        lemma_gain_terms(front, j);
        assert(front[j] == extra[j]);
        let at = choose|at: int| crate::text::occurs_at(before, part, at);
        assert(all.subrange(at, at + part.len()) =~= before.subrange(at, at + part.len()));
        assert(crate::text::occurs_at(all, part, at));
    } else {
        let at = before.len() as int;
        assert(all.subrange(at, at + part.len()) =~= part);
        assert(crate::text::occurs_at(all, part, at));
    }
}

/// A mix names every channel that it keeps, in one row each, and what it makes of each.
pub proof fn law_mix_says_what_each_channel_is(source: Seq<Seq<char>>)
    ensures
        ({
            let rows = folded_rows(source, source.len());
            &&& fold_filter(source) is Some <==> any_folded(source, source.len())
            &&& fold_filter(source) matches Some(f) ==> f == "aformat=sample_fmts=fltp,pan="@ + (
            joined(row_names(rows), "+"@) + "|"@ + joined(row_gains(rows), "|"@))
            &&& any_folded(source, source.len()) ==> exists|i: int|
                0 <= i < source.len() && fold_text(#[trigger] source[i]) is Some
        }),
{
    let rows = folded_rows(source, source.len());
    let head = "aformat=sample_fmts=fltp,pan="@;
    let names = joined(row_names(rows), "+"@);
    let gains = joined(row_gains(rows), "|"@);
    assert(head + names + "|"@ + gains =~= head + (names + "|"@ + gains));
    lemma_any_folded(source, source.len());
}

proof fn lemma_any_folded(source: Seq<Seq<char>>, n: nat)
    requires
        n <= source.len(),
    ensures
        any_folded(source, n) ==> exists|i: int|
            0 <= i < n && fold_text(#[trigger] source[i]) is Some,
    decreases n,
{
    if n > 0 && any_folded(source, n) {
        lemma_any_folded(source, (n - 1) as nat);
        if !any_folded(source, (n - 1) as nat) {
            assert(fold_text(source[n - 1]) is Some);
        }
    }
}

/// A track says what its stream says, each thing in its place.
pub proof fn law_track_says_what_its_stream_says(t: AudioTrack, s: AudioStream, i: int)
    requires
        is_track_of(t, s, i),
    ensures
        t.audio_index == i && t.channels == s.channels,
        s.codec_name is Some ==> t.codec_name@ == s.codec_name->0@,
        text_of(t.language) == text_of(s.language) && text_of(t.title) == text_of(s.title),
        text_of(t.profile) == text_of(s.profile),
        text_of(t.channel_layout) == text_of(s.channel_layout),
        s.sample_fmt is Some ==> t.sample_fmt@ == s.sample_fmt->0@,
        s.initial_padding is Some ==> s.initial_padding == Some(t.initial_padding),
        forall|n: u32|
            s.sample_rate is Some && s.sample_rate->0@ == #[trigger] decimal(n as nat)
                ==> t.sample_rate == n,
        forall|n: u32|
            s.bits_per_raw_sample is Some && s.bits_per_raw_sample->0@ == #[trigger] decimal(
                n as nat,
            ) ==> t.bits_per_raw_sample == n,
{
    assert forall|n: u32|
        s.sample_rate is Some && s.sample_rate->0@ == #[trigger] decimal(
            n as nat,
        ) implies t.sample_rate == n by {
        law_decimal_round_trip(n as nat, u32::MAX as nat);
    }
    assert forall|n: u32|
        s.bits_per_raw_sample is Some && s.bits_per_raw_sample->0@ == #[trigger] decimal(
            n as nat,
        ) implies t.bits_per_raw_sample == n by {
        law_decimal_round_trip(n as nat, u32::MAX as nat);
    }
}

/// The encoders that ffmpeg lists are those of its rows that have the flags of audio and a
/// name behind them.
pub proof fn law_listed_encoders_are_those_of_the_rows(rows: Seq<Seq<char>>, name: Seq<char>)
    ensures
        encoders_of(rows).contains(name) <==> exists|i: int|
            0 <= i < rows.len() && #[trigger] names_encoder(rows[i], name),
    decreases rows.len(),
{
    if rows.len() > 0 {
        let front = rows.drop_last();
        law_listed_encoders_are_those_of_the_rows(front, name);
        let n = rows.len() - 1;
        if encoders_of(front).contains(name) {
            let i = choose|i: int| 0 <= i < front.len() && #[trigger] names_encoder(front[i], name);
            assert(names_encoder(rows[i], name));
        }
        if names_encoder(rows[n], name) {
            assert(encoders_of(rows).contains(name));
        }
        if exists|i: int| 0 <= i < rows.len() && #[trigger] names_encoder(rows[i], name) {
            let i = choose|i: int| 0 <= i < rows.len() && #[trigger] names_encoder(rows[i], name);
            if i < n {
                assert(names_encoder(front[i], name));
            }
        }
        if encoders_of(rows).contains(name) && !encoders_of(front).contains(name) {
            assert(names_encoder(rows[n], name));
        }
    }
}

/// A row has six flags, the first an A, and this name behind them.
pub open spec fn names_encoder(row: Seq<char>, name: Seq<char>) -> bool {
    let w = words(row);
    &&& w.len() >= 2
    &&& w[1] == name && is_name(name)
    &&& encode_utf8(w[0]).len() == 6
    &&& w[0].len() > 0 && w[0][0] == 'A'
}

/// More than two channels have their order asked for, and one or two do not need it.
pub proof fn law_surround_is_mapped(k: int)
    requires
        0 <= k < 8,
    ensures
        needs_mapping(opus_name(k)) <==> k >= 2,
{
    reveal_strlit("mono");
    reveal_strlit("stereo");
    reveal_strlit("3.0");
    reveal_strlit("quad");
    reveal_strlit("5.0");
    reveal_strlit("5.1");
    reveal_strlit("6.1");
    reveal_strlit("7.1");
    assert("mono"@.len() == 4 && "stereo"@.len() == 6 && "quad"@.len() == 4 && "3.0"@.len() == 3);
    assert("5.0"@.len() == 3 && "5.1"@.len() == 3 && "6.1"@.len() == 3 && "7.1"@.len() == 3);
    assert("mono"@[0] != "quad"@[0]);
}

/// Without a list of codecs or encoders all are taken to be there; with one, those in it.
pub proof fn law_without_a_list_all_are_offered(list: Option<Set<Seq<char>>>, codec: Seq<char>)
    ensures
        list is None ==> offered_by(list, codec),
        list is Some ==> offered_by(list, codec) == list->0.contains(codec),
{
}

/// However a track gets there, its filter ends by giving it the layout that Opus gets.
pub proof fn law_filter_ends_at_the_layout(layout: Option<Seq<char>>, channels: Option<u32>)
    ensures
        has_suffix(
            opus_filter(layout, channels),
            "aformat=channel_layouts="@ + opus_name(opus_target(layout, channels)),
        ),
{
    let end = "aformat=channel_layouts="@ + opus_name(opus_target(layout, channels));
    let f = opus_filter(layout, channels);
    assert(f.subrange(f.len() - end.len(), f.len() as int) =~= end);
}

/// What ffmpeg calls a layout, and the layout that it has these channels more than.
pub open spec fn layout_steps() -> Seq<(Seq<char>, Seq<char>, Seq<char>)> {
    seq![
        ("2.1"@, "stereo"@, "LFE"@),
        ("3.0"@, "stereo"@, "FC"@),
        ("3.0(back)"@, "stereo"@, "BC"@),
        ("4.0"@, "3.0"@, "BC"@),
        ("quad"@, "stereo"@, "BL+BR"@),
        ("quad(side)"@, "stereo"@, "SL+SR"@),
        ("3.1"@, "3.0"@, "LFE"@),
        ("5.0"@, "3.0"@, "BL+BR"@),
        ("5.0(side)"@, "3.0"@, "SL+SR"@),
        ("4.1"@, "3.1"@, "BC"@),
        ("5.1"@, "3.1"@, "BL+BR"@),
        ("5.1(side)"@, "3.1"@, "SL+SR"@),
        ("6.0"@, "4.0"@, "SL+SR"@),
        ("6.0(front)"@, "stereo"@, "FLC+FRC+SL+SR"@),
        ("3.1.2"@, "3.1"@, "TFL+TFR"@),
        ("hexagonal"@, "5.0"@, "BC"@),
        ("6.1"@, "4.1"@, "SL+SR"@),
        ("6.1(back)"@, "5.1"@, "BC"@),
        ("6.1(front)"@, "2.1"@, "FLC+FRC+SL+SR"@),
        ("7.0"@, "5.0"@, "SL+SR"@),
        ("7.0(front)"@, "3.0"@, "FLC+FRC+SL+SR"@),
        ("7.1"@, "5.1"@, "SL+SR"@),
        ("7.1(wide)"@, "5.1"@, "FLC+FRC"@),
        ("7.1(wide-side)"@, "3.1"@, "FLC+FRC+SL+SR"@),
        ("5.1.2"@, "5.1(side)"@, "TFL+TFR"@),
        ("5.1.2(back)"@, "5.1"@, "TFL+TFR"@),
        ("octagonal"@, "hexagonal"@, "SL+SR"@),
        ("cube"@, "quad"@, "TFL+TFR+TBL+TBR"@),
        ("5.1.4"@, "5.1.2"@, "TBL+TBR"@),
        ("7.1.2"@, "7.1"@, "TFL+TFR"@),
        ("7.1.4"@, "7.1.2"@, "TBL+TBR"@),
        ("7.2.3"@, "7.1.2"@, "TBC+LFE2"@),
        ("9.1.4"@, "7.1(wide)"@, "SL+SR+TFL+TFR+TBL+TBR"@),
        ("9.1.6"@, "9.1.4"@, "TSL+TSR"@),
        ("hexadecagonal"@, "octagonal"@, "TFL+TFC+TFR+TBL+TBC+TBR+WL+WR"@),
        ("22.2"@, "7.1(wide)"@, "BC+SL+SR+TC+TFL+TFC+TFR+TBL+TBC+TBR+LFE2+TSL+TSR+BFC+BFL+BFR"@),
    ]
}

/// A larger layout is a smaller one with more channels behind it, and the layouts of Opus have
/// the channels that ffmpeg gives those of their names.
pub proof fn law_layouts_build_on_one_another(i: int, k: int)
    requires
        0 <= i < layout_steps().len(),
        0 <= k < 8,
    ensures
        ({
            let (layout, smaller, more) = layout_steps()[i];
            decomposition(layout) == decomposition(smaller) + "+"@ + more
        }),
        opus_text(k) == decomposition(opus_name(k)),
        decomposition("mono"@) == "FC"@ && decomposition("stereo"@) == "FL+FR"@,
        decomposition("binaural"@) == "BIL+BIR"@ && decomposition("downmix"@) == "DL+DR"@,
{
    lemma_layout_names();
    reveal_strlit("+");
    lemma_layout_steps_a();
    lemma_layout_steps_b();
    lemma_layout_steps_c();
    lemma_layout_steps_d();
}

proof fn lemma_layout_names()
    ensures
        decomposition("mono"@) == "FC"@,
        decomposition("stereo"@) == "FL+FR"@,
        decomposition("2.1"@) == "FL+FR+LFE"@,
        decomposition("3.0"@) == "FL+FR+FC"@,
        decomposition("3.0(back)"@) == "FL+FR+BC"@,
        decomposition("4.0"@) == "FL+FR+FC+BC"@,
        decomposition("quad"@) == "FL+FR+BL+BR"@,
        decomposition("quad(side)"@) == "FL+FR+SL+SR"@,
        decomposition("3.1"@) == "FL+FR+FC+LFE"@,
        decomposition("5.0"@) == "FL+FR+FC+BL+BR"@,
        decomposition("5.0(side)"@) == "FL+FR+FC+SL+SR"@,
        decomposition("4.1"@) == "FL+FR+FC+LFE+BC"@,
        decomposition("5.1"@) == "FL+FR+FC+LFE+BL+BR"@,
        decomposition("5.1(side)"@) == "FL+FR+FC+LFE+SL+SR"@,
        decomposition("6.0"@) == "FL+FR+FC+BC+SL+SR"@,
        decomposition("6.0(front)"@) == "FL+FR+FLC+FRC+SL+SR"@,
        decomposition("3.1.2"@) == "FL+FR+FC+LFE+TFL+TFR"@,
        decomposition("hexagonal"@) == "FL+FR+FC+BL+BR+BC"@,
        decomposition("6.1"@) == "FL+FR+FC+LFE+BC+SL+SR"@,
        decomposition("6.1(back)"@) == "FL+FR+FC+LFE+BL+BR+BC"@,
        decomposition("6.1(front)"@) == "FL+FR+LFE+FLC+FRC+SL+SR"@,
        decomposition("7.0"@) == "FL+FR+FC+BL+BR+SL+SR"@,
        decomposition("7.0(front)"@) == "FL+FR+FC+FLC+FRC+SL+SR"@,
        decomposition("7.1"@) == "FL+FR+FC+LFE+BL+BR+SL+SR"@,
        decomposition("7.1(wide)"@) == "FL+FR+FC+LFE+BL+BR+FLC+FRC"@,
        decomposition("7.1(wide-side)"@) == "FL+FR+FC+LFE+FLC+FRC+SL+SR"@,
        decomposition("5.1.2"@) == "FL+FR+FC+LFE+SL+SR+TFL+TFR"@,
        decomposition("5.1.2(back)"@) == "FL+FR+FC+LFE+BL+BR+TFL+TFR"@,
        decomposition("octagonal"@) == "FL+FR+FC+BL+BR+BC+SL+SR"@,
        decomposition("cube"@) == "FL+FR+BL+BR+TFL+TFR+TBL+TBR"@,
        decomposition("5.1.4"@) == "FL+FR+FC+LFE+SL+SR+TFL+TFR+TBL+TBR"@,
        decomposition("7.1.2"@) == "FL+FR+FC+LFE+BL+BR+SL+SR+TFL+TFR"@,
        decomposition("7.1.4"@) == "FL+FR+FC+LFE+BL+BR+SL+SR+TFL+TFR+TBL+TBR"@,
        decomposition("7.2.3"@) == "FL+FR+FC+LFE+BL+BR+SL+SR+TFL+TFR+TBC+LFE2"@,
        decomposition("9.1.4"@) == "FL+FR+FC+LFE+BL+BR+FLC+FRC+SL+SR+TFL+TFR+TBL+TBR"@,
        decomposition("9.1.6"@) == "FL+FR+FC+LFE+BL+BR+FLC+FRC+SL+SR+TFL+TFR+TBL+TBR+TSL+TSR"@,
        decomposition("hexadecagonal"@) == "FL+FR+FC+BL+BR+BC+SL+SR+TFL+TFC+TFR+TBL+TBC+TBR+WL+WR"@,
        decomposition("binaural"@) == "BIL+BIR"@,
        decomposition("downmix"@) == "DL+DR"@,
        decomposition("22.2"@) == "FL+FR+FC+LFE+BL+BR+FLC+FRC+BC+SL+SR+TC+TFL+TFC+TFR+TBL+TBC+TBR+LFE2+TSL+TSR+BFC+BFL+BFR"@,
{
    reveal_strlit("mono");
    reveal_strlit("stereo");
    reveal_strlit("2.1");
    reveal_strlit("3.0");
    reveal_strlit("3.0(back)");
    reveal_strlit("4.0");
    reveal_strlit("quad");
    reveal_strlit("quad(side)");
    reveal_strlit("3.1");
    reveal_strlit("5.0");
    reveal_strlit("5.0(side)");
    reveal_strlit("4.1");
    reveal_strlit("5.1");
    reveal_strlit("5.1(side)");
    reveal_strlit("6.0");
    reveal_strlit("6.0(front)");
    reveal_strlit("3.1.2");
    reveal_strlit("hexagonal");
    reveal_strlit("6.1");
    reveal_strlit("6.1(back)");
    reveal_strlit("6.1(front)");
    reveal_strlit("7.0");
    reveal_strlit("7.0(front)");
    reveal_strlit("7.1");
    reveal_strlit("7.1(wide)");
    reveal_strlit("7.1(wide-side)");
    reveal_strlit("5.1.2");
    reveal_strlit("5.1.2(back)");
    reveal_strlit("octagonal");
    reveal_strlit("cube");
    reveal_strlit("5.1.4");
    reveal_strlit("7.1.2");
    reveal_strlit("7.1.4");
    reveal_strlit("7.2.3");
    reveal_strlit("9.1.4");
    reveal_strlit("9.1.6");
    reveal_strlit("hexadecagonal");
    reveal_strlit("binaural");
    reveal_strlit("downmix");
    reveal_strlit("22.2");
    assert(outline("mono"@) == (4nat, 'm', 'o', 'n', 'o'));
    assert(outline("stereo"@) == (6nat, 's', 'r', 'e', 'o'));
    assert(outline("2.1"@) == (3nat, '2', '2', '.', '1'));
    assert(outline("3.0"@) == (3nat, '3', '3', '.', '0'));
    assert(outline("3.0(back)"@) == (9nat, '3', 'c', 'k', ')'));
    assert(outline("4.0"@) == (3nat, '4', '4', '.', '0'));
    assert(outline("quad"@) == (4nat, 'q', 'u', 'a', 'd'));
    assert(outline("quad(side)"@) == (10nat, 'q', 'd', 'e', ')'));
    assert(outline("3.1"@) == (3nat, '3', '3', '.', '1'));
    assert(outline("5.0"@) == (3nat, '5', '5', '.', '0'));
    assert(outline("5.0(side)"@) == (9nat, '5', 'd', 'e', ')'));
    assert(outline("4.1"@) == (3nat, '4', '4', '.', '1'));
    assert(outline("5.1"@) == (3nat, '5', '5', '.', '1'));
    assert(outline("5.1(side)"@) == (9nat, '5', 'd', 'e', ')'));
    assert(outline("6.0"@) == (3nat, '6', '6', '.', '0'));
    assert(outline("6.0(front)"@) == (10nat, '6', 'n', 't', ')'));
    assert(outline("3.1.2"@) == (5nat, '3', '1', '.', '2'));
    assert(outline("hexagonal"@) == (9nat, 'h', 'n', 'a', 'l'));
    assert(outline("6.1"@) == (3nat, '6', '6', '.', '1'));
    assert(outline("6.1(back)"@) == (9nat, '6', 'c', 'k', ')'));
    assert(outline("6.1(front)"@) == (10nat, '6', 'n', 't', ')'));
    assert(outline("7.0"@) == (3nat, '7', '7', '.', '0'));
    assert(outline("7.0(front)"@) == (10nat, '7', 'n', 't', ')'));
    assert(outline("7.1"@) == (3nat, '7', '7', '.', '1'));
    assert(outline("7.1(wide)"@) == (9nat, '7', 'd', 'e', ')'));
    assert(outline("7.1(wide-side)"@) == (14nat, '7', 'd', 'e', ')'));
    assert(outline("5.1.2"@) == (5nat, '5', '1', '.', '2'));
    assert(outline("5.1.2(back)"@) == (11nat, '5', 'c', 'k', ')'));
    assert(outline("octagonal"@) == (9nat, 'o', 'n', 'a', 'l'));
    assert(outline("cube"@) == (4nat, 'c', 'u', 'b', 'e'));
    assert(outline("5.1.4"@) == (5nat, '5', '1', '.', '4'));
    assert(outline("7.1.2"@) == (5nat, '7', '1', '.', '2'));
    assert(outline("7.1.4"@) == (5nat, '7', '1', '.', '4'));
    assert(outline("7.2.3"@) == (5nat, '7', '2', '.', '3'));
    assert(outline("9.1.4"@) == (5nat, '9', '1', '.', '4'));
    assert(outline("9.1.6"@) == (5nat, '9', '1', '.', '6'));
    assert(outline("hexadecagonal"@) == (13nat, 'h', 'n', 'a', 'l'));
    assert(outline("binaural"@) == (8nat, 'b', 'r', 'a', 'l'));
    assert(outline("downmix"@) == (7nat, 'd', 'm', 'i', 'x'));
    assert(outline("22.2"@) == (4nat, '2', '2', '.', '2'));
    assert("5.0(side)"@[2] != "5.1(side)"@[2]);
    assert("6.0(front)"@[2] != "6.1(front)"@[2]);
}

proof fn lemma_layout_steps_a()
    ensures
        "FL+FR+LFE"@ == "FL+FR"@ + "+"@ + "LFE"@,
        "FL+FR+FC"@ == "FL+FR"@ + "+"@ + "FC"@,
        "FL+FR+BC"@ == "FL+FR"@ + "+"@ + "BC"@,
        "FL+FR+FC+BC"@ == "FL+FR+FC"@ + "+"@ + "BC"@,
        "FL+FR+BL+BR"@ == "FL+FR"@ + "+"@ + "BL+BR"@,
        "FL+FR+SL+SR"@ == "FL+FR"@ + "+"@ + "SL+SR"@,
        "FL+FR+FC+LFE"@ == "FL+FR+FC"@ + "+"@ + "LFE"@,
        "FL+FR+FC+BL+BR"@ == "FL+FR+FC"@ + "+"@ + "BL+BR"@,
        "FL+FR+FC+SL+SR"@ == "FL+FR+FC"@ + "+"@ + "SL+SR"@,
{
    reveal_strlit("+");
    reveal_strlit("FL+FR+LFE");
    reveal_strlit("FL+FR");
    reveal_strlit("LFE");
    reveal_strlit("FL+FR+FC");
    reveal_strlit("FC");
    reveal_strlit("FL+FR+BC");
    reveal_strlit("BC");
    reveal_strlit("FL+FR+FC+BC");
    reveal_strlit("FL+FR+BL+BR");
    reveal_strlit("BL+BR");
    reveal_strlit("FL+FR+SL+SR");
    reveal_strlit("SL+SR");
    reveal_strlit("FL+FR+FC+LFE");
    reveal_strlit("FL+FR+FC+BL+BR");
    reveal_strlit("FL+FR+FC+SL+SR");
    assert("FL+FR+LFE"@ =~= "FL+FR"@ + "+"@ + "LFE"@);
    assert("FL+FR+FC"@ =~= "FL+FR"@ + "+"@ + "FC"@);
    assert("FL+FR+BC"@ =~= "FL+FR"@ + "+"@ + "BC"@);
    assert("FL+FR+FC+BC"@ =~= "FL+FR+FC"@ + "+"@ + "BC"@);
    assert("FL+FR+BL+BR"@ =~= "FL+FR"@ + "+"@ + "BL+BR"@);
    assert("FL+FR+SL+SR"@ =~= "FL+FR"@ + "+"@ + "SL+SR"@);
    assert("FL+FR+FC+LFE"@ =~= "FL+FR+FC"@ + "+"@ + "LFE"@);
    assert("FL+FR+FC+BL+BR"@ =~= "FL+FR+FC"@ + "+"@ + "BL+BR"@);
    assert("FL+FR+FC+SL+SR"@ =~= "FL+FR+FC"@ + "+"@ + "SL+SR"@);
}

proof fn lemma_layout_steps_b()
    ensures
        "FL+FR+FC+LFE+BC"@ == "FL+FR+FC+LFE"@ + "+"@ + "BC"@,
        "FL+FR+FC+LFE+BL+BR"@ == "FL+FR+FC+LFE"@ + "+"@ + "BL+BR"@,
        "FL+FR+FC+LFE+SL+SR"@ == "FL+FR+FC+LFE"@ + "+"@ + "SL+SR"@,
        "FL+FR+FC+BC+SL+SR"@ == "FL+FR+FC+BC"@ + "+"@ + "SL+SR"@,
        "FL+FR+FLC+FRC+SL+SR"@ == "FL+FR"@ + "+"@ + "FLC+FRC+SL+SR"@,
        "FL+FR+FC+LFE+TFL+TFR"@ == "FL+FR+FC+LFE"@ + "+"@ + "TFL+TFR"@,
        "FL+FR+FC+BL+BR+BC"@ == "FL+FR+FC+BL+BR"@ + "+"@ + "BC"@,
        "FL+FR+FC+LFE+BC+SL+SR"@ == "FL+FR+FC+LFE+BC"@ + "+"@ + "SL+SR"@,
        "FL+FR+FC+LFE+BL+BR+BC"@ == "FL+FR+FC+LFE+BL+BR"@ + "+"@ + "BC"@,
{
    reveal_strlit("+");
    reveal_strlit("FL+FR+FC+LFE+BC");
    reveal_strlit("FL+FR+FC+LFE");
    reveal_strlit("BC");
    reveal_strlit("FL+FR+FC+LFE+BL+BR");
    reveal_strlit("BL+BR");
    reveal_strlit("FL+FR+FC+LFE+SL+SR");
    reveal_strlit("SL+SR");
    reveal_strlit("FL+FR+FC+BC+SL+SR");
    reveal_strlit("FL+FR+FC+BC");
    reveal_strlit("FL+FR+FLC+FRC+SL+SR");
    reveal_strlit("FL+FR");
    reveal_strlit("FLC+FRC+SL+SR");
    reveal_strlit("FL+FR+FC+LFE+TFL+TFR");
    reveal_strlit("TFL+TFR");
    reveal_strlit("FL+FR+FC+BL+BR+BC");
    reveal_strlit("FL+FR+FC+BL+BR");
    reveal_strlit("FL+FR+FC+LFE+BC+SL+SR");
    reveal_strlit("FL+FR+FC+LFE+BL+BR+BC");
    assert("FL+FR+FC+LFE+BC"@ =~= "FL+FR+FC+LFE"@ + "+"@ + "BC"@);
    assert("FL+FR+FC+LFE+BL+BR"@ =~= "FL+FR+FC+LFE"@ + "+"@ + "BL+BR"@);
    assert("FL+FR+FC+LFE+SL+SR"@ =~= "FL+FR+FC+LFE"@ + "+"@ + "SL+SR"@);
    assert("FL+FR+FC+BC+SL+SR"@ =~= "FL+FR+FC+BC"@ + "+"@ + "SL+SR"@);
    assert("FL+FR+FLC+FRC+SL+SR"@ =~= "FL+FR"@ + "+"@ + "FLC+FRC+SL+SR"@);
    assert("FL+FR+FC+LFE+TFL+TFR"@ =~= "FL+FR+FC+LFE"@ + "+"@ + "TFL+TFR"@);
    assert("FL+FR+FC+BL+BR+BC"@ =~= "FL+FR+FC+BL+BR"@ + "+"@ + "BC"@);
    assert("FL+FR+FC+LFE+BC+SL+SR"@ =~= "FL+FR+FC+LFE+BC"@ + "+"@ + "SL+SR"@);
    assert("FL+FR+FC+LFE+BL+BR+BC"@ =~= "FL+FR+FC+LFE+BL+BR"@ + "+"@ + "BC"@);
}

proof fn lemma_layout_steps_c()
    ensures
        "FL+FR+LFE+FLC+FRC+SL+SR"@ == "FL+FR+LFE"@ + "+"@ + "FLC+FRC+SL+SR"@,
        "FL+FR+FC+BL+BR+SL+SR"@ == "FL+FR+FC+BL+BR"@ + "+"@ + "SL+SR"@,
        "FL+FR+FC+FLC+FRC+SL+SR"@ == "FL+FR+FC"@ + "+"@ + "FLC+FRC+SL+SR"@,
        "FL+FR+FC+LFE+BL+BR+SL+SR"@ == "FL+FR+FC+LFE+BL+BR"@ + "+"@ + "SL+SR"@,
        "FL+FR+FC+LFE+BL+BR+FLC+FRC"@ == "FL+FR+FC+LFE+BL+BR"@ + "+"@ + "FLC+FRC"@,
        "FL+FR+FC+LFE+FLC+FRC+SL+SR"@ == "FL+FR+FC+LFE"@ + "+"@ + "FLC+FRC+SL+SR"@,
        "FL+FR+FC+LFE+SL+SR+TFL+TFR"@ == "FL+FR+FC+LFE+SL+SR"@ + "+"@ + "TFL+TFR"@,
        "FL+FR+FC+LFE+BL+BR+TFL+TFR"@ == "FL+FR+FC+LFE+BL+BR"@ + "+"@ + "TFL+TFR"@,
        "FL+FR+FC+BL+BR+BC+SL+SR"@ == "FL+FR+FC+BL+BR+BC"@ + "+"@ + "SL+SR"@,
{
    reveal_strlit("+");
    reveal_strlit("FL+FR+LFE+FLC+FRC+SL+SR");
    reveal_strlit("FL+FR+LFE");
    reveal_strlit("FLC+FRC+SL+SR");
    reveal_strlit("FL+FR+FC+BL+BR+SL+SR");
    reveal_strlit("FL+FR+FC+BL+BR");
    reveal_strlit("SL+SR");
    reveal_strlit("FL+FR+FC+FLC+FRC+SL+SR");
    reveal_strlit("FL+FR+FC");
    reveal_strlit("FL+FR+FC+LFE+BL+BR+SL+SR");
    reveal_strlit("FL+FR+FC+LFE+BL+BR");
    reveal_strlit("FL+FR+FC+LFE+BL+BR+FLC+FRC");
    reveal_strlit("FLC+FRC");
    reveal_strlit("FL+FR+FC+LFE+FLC+FRC+SL+SR");
    reveal_strlit("FL+FR+FC+LFE");
    reveal_strlit("FL+FR+FC+LFE+SL+SR+TFL+TFR");
    reveal_strlit("FL+FR+FC+LFE+SL+SR");
    reveal_strlit("TFL+TFR");
    reveal_strlit("FL+FR+FC+LFE+BL+BR+TFL+TFR");
    reveal_strlit("FL+FR+FC+BL+BR+BC+SL+SR");
    reveal_strlit("FL+FR+FC+BL+BR+BC");
    assert("FL+FR+LFE+FLC+FRC+SL+SR"@ =~= "FL+FR+LFE"@ + "+"@ + "FLC+FRC+SL+SR"@);
    assert("FL+FR+FC+BL+BR+SL+SR"@ =~= "FL+FR+FC+BL+BR"@ + "+"@ + "SL+SR"@);
    assert("FL+FR+FC+FLC+FRC+SL+SR"@ =~= "FL+FR+FC"@ + "+"@ + "FLC+FRC+SL+SR"@);
    assert("FL+FR+FC+LFE+BL+BR+SL+SR"@ =~= "FL+FR+FC+LFE+BL+BR"@ + "+"@ + "SL+SR"@);
    assert("FL+FR+FC+LFE+BL+BR+FLC+FRC"@ =~= "FL+FR+FC+LFE+BL+BR"@ + "+"@ + "FLC+FRC"@);
    assert("FL+FR+FC+LFE+FLC+FRC+SL+SR"@ =~= "FL+FR+FC+LFE"@ + "+"@ + "FLC+FRC+SL+SR"@);
    assert("FL+FR+FC+LFE+SL+SR+TFL+TFR"@ =~= "FL+FR+FC+LFE+SL+SR"@ + "+"@ + "TFL+TFR"@);
    assert("FL+FR+FC+LFE+BL+BR+TFL+TFR"@ =~= "FL+FR+FC+LFE+BL+BR"@ + "+"@ + "TFL+TFR"@);
    assert("FL+FR+FC+BL+BR+BC+SL+SR"@ =~= "FL+FR+FC+BL+BR+BC"@ + "+"@ + "SL+SR"@);
}

proof fn lemma_layout_steps_d()
    ensures
        "FL+FR+BL+BR+TFL+TFR+TBL+TBR"@ == "FL+FR+BL+BR"@ + "+"@ + "TFL+TFR+TBL+TBR"@,
        "FL+FR+FC+LFE+SL+SR+TFL+TFR+TBL+TBR"@ == "FL+FR+FC+LFE+SL+SR+TFL+TFR"@ + "+"@ + "TBL+TBR"@,
        "FL+FR+FC+LFE+BL+BR+SL+SR+TFL+TFR"@ == "FL+FR+FC+LFE+BL+BR+SL+SR"@ + "+"@ + "TFL+TFR"@,
        "FL+FR+FC+LFE+BL+BR+SL+SR+TFL+TFR+TBL+TBR"@ == "FL+FR+FC+LFE+BL+BR+SL+SR+TFL+TFR"@ + "+"@ + "TBL+TBR"@,
        "FL+FR+FC+LFE+BL+BR+SL+SR+TFL+TFR+TBC+LFE2"@ == "FL+FR+FC+LFE+BL+BR+SL+SR+TFL+TFR"@ + "+"@ + "TBC+LFE2"@,
        "FL+FR+FC+LFE+BL+BR+FLC+FRC+SL+SR+TFL+TFR+TBL+TBR"@ == "FL+FR+FC+LFE+BL+BR+FLC+FRC"@ + "+"@ + "SL+SR+TFL+TFR+TBL+TBR"@,
        "FL+FR+FC+LFE+BL+BR+FLC+FRC+SL+SR+TFL+TFR+TBL+TBR+TSL+TSR"@ == "FL+FR+FC+LFE+BL+BR+FLC+FRC+SL+SR+TFL+TFR+TBL+TBR"@ + "+"@ + "TSL+TSR"@,
        "FL+FR+FC+BL+BR+BC+SL+SR+TFL+TFC+TFR+TBL+TBC+TBR+WL+WR"@ == "FL+FR+FC+BL+BR+BC+SL+SR"@ + "+"@ + "TFL+TFC+TFR+TBL+TBC+TBR+WL+WR"@,
        "FL+FR+FC+LFE+BL+BR+FLC+FRC+BC+SL+SR+TC+TFL+TFC+TFR+TBL+TBC+TBR+LFE2+TSL+TSR+BFC+BFL+BFR"@ == "FL+FR+FC+LFE+BL+BR+FLC+FRC"@ + "+"@ + "BC+SL+SR+TC+TFL+TFC+TFR+TBL+TBC+TBR+LFE2+TSL+TSR+BFC+BFL+BFR"@,
{
    reveal_strlit("+");
    reveal_strlit("FL+FR+BL+BR+TFL+TFR+TBL+TBR");
    reveal_strlit("FL+FR+BL+BR");
    reveal_strlit("TFL+TFR+TBL+TBR");
    reveal_strlit("FL+FR+FC+LFE+SL+SR+TFL+TFR+TBL+TBR");
    reveal_strlit("FL+FR+FC+LFE+SL+SR+TFL+TFR");
    reveal_strlit("TBL+TBR");
    reveal_strlit("FL+FR+FC+LFE+BL+BR+SL+SR+TFL+TFR");
    reveal_strlit("FL+FR+FC+LFE+BL+BR+SL+SR");
    reveal_strlit("TFL+TFR");
    reveal_strlit("FL+FR+FC+LFE+BL+BR+SL+SR+TFL+TFR+TBL+TBR");
    reveal_strlit("FL+FR+FC+LFE+BL+BR+SL+SR+TFL+TFR+TBC+LFE2");
    reveal_strlit("TBC+LFE2");
    reveal_strlit("FL+FR+FC+LFE+BL+BR+FLC+FRC+SL+SR+TFL+TFR+TBL+TBR");
    reveal_strlit("FL+FR+FC+LFE+BL+BR+FLC+FRC");
    reveal_strlit("SL+SR+TFL+TFR+TBL+TBR");
    reveal_strlit("FL+FR+FC+LFE+BL+BR+FLC+FRC+SL+SR+TFL+TFR+TBL+TBR+TSL+TSR");
    reveal_strlit("TSL+TSR");
    reveal_strlit("FL+FR+FC+BL+BR+BC+SL+SR+TFL+TFC+TFR+TBL+TBC+TBR+WL+WR");
    reveal_strlit("FL+FR+FC+BL+BR+BC+SL+SR");
    reveal_strlit("TFL+TFC+TFR+TBL+TBC+TBR+WL+WR");
    reveal_strlit("FL+FR+FC+LFE+BL+BR+FLC+FRC+BC+SL+SR+TC+TFL+TFC+TFR+TBL+TBC+TBR+LFE2+TSL+TSR+BFC+BFL+BFR");
    reveal_strlit("BC+SL+SR+TC+TFL+TFC+TFR+TBL+TBC+TBR+LFE2+TSL+TSR+BFC+BFL+BFR");
    assert("FL+FR+BL+BR+TFL+TFR+TBL+TBR"@ =~= "FL+FR+BL+BR"@ + "+"@ + "TFL+TFR+TBL+TBR"@);
    assert("FL+FR+FC+LFE+SL+SR+TFL+TFR+TBL+TBR"@ =~= "FL+FR+FC+LFE+SL+SR+TFL+TFR"@ + "+"@ + "TBL+TBR"@);
    assert("FL+FR+FC+LFE+BL+BR+SL+SR+TFL+TFR"@ =~= "FL+FR+FC+LFE+BL+BR+SL+SR"@ + "+"@ + "TFL+TFR"@);
    assert("FL+FR+FC+LFE+BL+BR+SL+SR+TFL+TFR+TBL+TBR"@ =~= "FL+FR+FC+LFE+BL+BR+SL+SR+TFL+TFR"@ + "+"@ + "TBL+TBR"@);
    assert("FL+FR+FC+LFE+BL+BR+SL+SR+TFL+TFR+TBC+LFE2"@ =~= "FL+FR+FC+LFE+BL+BR+SL+SR+TFL+TFR"@ + "+"@ + "TBC+LFE2"@);
    assert("FL+FR+FC+LFE+BL+BR+FLC+FRC+SL+SR+TFL+TFR+TBL+TBR"@ =~= "FL+FR+FC+LFE+BL+BR+FLC+FRC"@ + "+"@ + "SL+SR+TFL+TFR+TBL+TBR"@);
    assert("FL+FR+FC+LFE+BL+BR+FLC+FRC+SL+SR+TFL+TFR+TBL+TBR+TSL+TSR"@ =~= "FL+FR+FC+LFE+BL+BR+FLC+FRC+SL+SR+TFL+TFR+TBL+TBR"@ + "+"@ + "TSL+TSR"@);
    assert("FL+FR+FC+BL+BR+BC+SL+SR+TFL+TFC+TFR+TBL+TBC+TBR+WL+WR"@ =~= "FL+FR+FC+BL+BR+BC+SL+SR"@ + "+"@ + "TFL+TFC+TFR+TBL+TBC+TBR+WL+WR"@);
    assert("FL+FR+FC+LFE+BL+BR+FLC+FRC+BC+SL+SR+TC+TFL+TFC+TFR+TBL+TBC+TBR+LFE2+TSL+TSR+BFC+BFL+BFR"@ =~= "FL+FR+FC+LFE+BL+BR+FLC+FRC"@ + "+"@ + "BC+SL+SR+TC+TFL+TFC+TFR+TBL+TBC+TBR+LFE2+TSL+TSR+BFC+BFL+BFR"@);
}

/// The same channels on the other side.
pub open spec fn other_side(s: Seq<char>) -> Seq<char> {
    Seq::new(
        s.len(),
        |i: int|
            if s[i] == 'L' {
                'R'
            } else {
                s[i]
            },
    )
}

/// Both sides are treated alike: what stands in for a left channel, and where it is mixed to,
/// stands on the other side for the right one.
pub proof fn law_sides_are_treated_alike(c: Seq<char>)
    requires
        c.len() > 0,
        c.last() == 'L',
    ensures
        fold_text(c) matches Some(t) ==> fold_text(other_side(c)) == Some(other_side(t)),
        substitute(c) matches Some(s) ==> substitute(other_side(c)) == Some(other_side(s)),
{
    lemma_channel_letters();
    let r = other_side(c);
    reveal_strlit("BC|BL+BR|SL+SR|FL+FR");
    reveal_strlit("BFC");
    reveal_strlit("BFL");
    reveal_strlit("BFR");
    reveal_strlit("BIL");
    reveal_strlit("BIR");
    reveal_strlit("BL");
    reveal_strlit("BL|SL|FL");
    reveal_strlit("BR");
    reveal_strlit("BR|SR|FR");
    reveal_strlit("DL");
    reveal_strlit("DR");
    reveal_strlit("FC|FL+FR");
    reveal_strlit("FL");
    reveal_strlit("FR");
    reveal_strlit("LFE");
    reveal_strlit("LFE2");
    reveal_strlit("SDL");
    reveal_strlit("SDR");
    reveal_strlit("SL");
    reveal_strlit("SL|BL|FL");
    reveal_strlit("SR");
    reveal_strlit("SR|BR|FR");
    reveal_strlit("TBC");
    reveal_strlit("TBL");
    reveal_strlit("TBR");
    reveal_strlit("TC");
    reveal_strlit("TFC");
    reveal_strlit("TSL");
    reveal_strlit("TSR");
    reveal_strlit("WL");
    reveal_strlit("WR");
    if c == "TBL"@ {
        assert(r =~= "TBR"@);
        assert(other_side("BL|SL|FL"@) =~= "BR|SR|FR"@);
    }
    if c == "TSL"@ {
        assert(r =~= "TSR"@);
        assert(other_side("SL|BL|FL"@) =~= "SR|BR|FR"@);
    }
    if c == "WL"@ {
        assert(r =~= "WR"@);
        assert(other_side("FL"@) =~= "FR"@);
    }
    if c == "SDL"@ {
        assert(r =~= "SDR"@);
        assert(other_side("SL|BL|FL"@) =~= "SR|BR|FR"@);
    }
    if c == "BFL"@ {
        assert(r =~= "BFR"@);
        assert(other_side("FL"@) =~= "FR"@);
    }
    if c == "SL"@ {
        assert(r =~= "SR"@);
        assert(other_side("BL"@) =~= "BR"@);
    }
    if c == "BL"@ {
        assert(r =~= "BR"@);
        assert(other_side("SL"@) =~= "SR"@);
    }
    if c == "DL"@ {
        assert(r =~= "DR"@);
        assert(other_side("FL"@) =~= "FR"@);
    }
    if c == "BIL"@ {
        assert(r =~= "BIR"@);
        assert(other_side("FL"@) =~= "FR"@);
    }
}

/// A channel above or below the others is mixed to the one at its place, where that is there.
pub proof fn law_heights_are_mixed_to_their_place(c: Seq<char>)
    requires
        c.len() == 3,
        c[0] == 'T' || (c[0] == 'B' && c[1] == 'F'),
    ensures
        fold_text(c) matches Some(t) ==> has_prefix(t, c.drop_first()),
{
    lemma_channel_letters();
    reveal_strlit("BC|BL+BR|SL+SR|FL+FR");
    reveal_strlit("BL|SL|FL");
    reveal_strlit("BR|SR|FR");
    reveal_strlit("FC|FL+FR");
    reveal_strlit("FL");
    reveal_strlit("FR");
    reveal_strlit("LFE");
    reveal_strlit("SL|BL|FL");
    reveal_strlit("SR|BR|FR");
    assert("BL|SL|FL"@.subrange(0, 2) =~= "TBL"@.drop_first());
    assert("BR|SR|FR"@.subrange(0, 2) =~= "TBR"@.drop_first());
    assert("BC|BL+BR|SL+SR|FL+FR"@.subrange(0, 2) =~= "TBC"@.drop_first());
    assert("SL|BL|FL"@.subrange(0, 2) =~= "TSL"@.drop_first());
    assert("SR|BR|FR"@.subrange(0, 2) =~= "TSR"@.drop_first());
    assert("FC|FL+FR"@.subrange(0, 2) =~= "TFC"@.drop_first());
    assert("FC|FL+FR"@.subrange(0, 2) =~= "BFC"@.drop_first());
    assert("FL"@.subrange(0, 2) =~= "BFL"@.drop_first());
    assert("FR"@.subrange(0, 2) =~= "BFR"@.drop_first());
}

proof fn lemma_channel_letters()
    ensures
        "BFC"@.len() == 3 && "BFC"@[0] == 'B' && "BFC"@[1] == 'F' && "BFC"@[2] == 'C',
        "BFL"@.len() == 3 && "BFL"@[0] == 'B' && "BFL"@[1] == 'F' && "BFL"@[2] == 'L',
        "BFR"@.len() == 3 && "BFR"@[0] == 'B' && "BFR"@[1] == 'F' && "BFR"@[2] == 'R',
        "BIL"@.len() == 3 && "BIL"@[0] == 'B' && "BIL"@[1] == 'I' && "BIL"@[2] == 'L',
        "BIR"@.len() == 3 && "BIR"@[0] == 'B' && "BIR"@[1] == 'I' && "BIR"@[2] == 'R',
        "BL"@.len() == 2 && "BL"@[0] == 'B' && "BL"@[1] == 'L',
        "BR"@.len() == 2 && "BR"@[0] == 'B' && "BR"@[1] == 'R',
        "DL"@.len() == 2 && "DL"@[0] == 'D' && "DL"@[1] == 'L',
        "DR"@.len() == 2 && "DR"@[0] == 'D' && "DR"@[1] == 'R',
        "LFE2"@.len() == 4 && "LFE2"@[0] == 'L' && "LFE2"@[1] == 'F' && "LFE2"@[2] == 'E' && "LFE2"@[3] == '2',
        "SDL"@.len() == 3 && "SDL"@[0] == 'S' && "SDL"@[1] == 'D' && "SDL"@[2] == 'L',
        "SDR"@.len() == 3 && "SDR"@[0] == 'S' && "SDR"@[1] == 'D' && "SDR"@[2] == 'R',
        "SL"@.len() == 2 && "SL"@[0] == 'S' && "SL"@[1] == 'L',
        "SR"@.len() == 2 && "SR"@[0] == 'S' && "SR"@[1] == 'R',
        "TBC"@.len() == 3 && "TBC"@[0] == 'T' && "TBC"@[1] == 'B' && "TBC"@[2] == 'C',
        "TBL"@.len() == 3 && "TBL"@[0] == 'T' && "TBL"@[1] == 'B' && "TBL"@[2] == 'L',
        "TBR"@.len() == 3 && "TBR"@[0] == 'T' && "TBR"@[1] == 'B' && "TBR"@[2] == 'R',
        "TC"@.len() == 2 && "TC"@[0] == 'T' && "TC"@[1] == 'C',
        "TFC"@.len() == 3 && "TFC"@[0] == 'T' && "TFC"@[1] == 'F' && "TFC"@[2] == 'C',
        "TSL"@.len() == 3 && "TSL"@[0] == 'T' && "TSL"@[1] == 'S' && "TSL"@[2] == 'L',
        "TSR"@.len() == 3 && "TSR"@[0] == 'T' && "TSR"@[1] == 'S' && "TSR"@[2] == 'R',
        "WL"@.len() == 2 && "WL"@[0] == 'W' && "WL"@[1] == 'L',
        "WR"@.len() == 2 && "WR"@[0] == 'W' && "WR"@[1] == 'R',
{
    reveal_strlit("BFC");
    reveal_strlit("BFL");
    reveal_strlit("BFR");
    reveal_strlit("BIL");
    reveal_strlit("BIR");
    reveal_strlit("BL");
    reveal_strlit("BR");
    reveal_strlit("DL");
    reveal_strlit("DR");
    reveal_strlit("LFE2");
    reveal_strlit("SDL");
    reveal_strlit("SDR");
    reveal_strlit("SL");
    reveal_strlit("SR");
    reveal_strlit("TBC");
    reveal_strlit("TBL");
    reveal_strlit("TBR");
    reveal_strlit("TC");
    reveal_strlit("TFC");
    reveal_strlit("TSL");
    reveal_strlit("TSR");
    reveal_strlit("WL");
    reveal_strlit("WR");
}

/// The codecs that have a name for people.
pub open spec fn named_codecs() -> Seq<(Seq<char>, Seq<char>)> {
    seq![
        ("libopus"@, "Opus"@),
        ("opus"@, "Opus"@),
        ("flac"@, "FLAC"@),
        ("aac"@, "AAC"@),
        ("libfdk_aac"@, "AAC"@),
        ("ac3"@, "AC3"@),
        ("eac3"@, "E-AC-3"@),
        ("libmp3lame"@, "MP3"@),
        ("mp3"@, "MP3"@),
        ("alac"@, "ALAC"@),
        ("libvorbis"@, "Vorbis"@),
        ("vorbis"@, "Vorbis"@),
    ]
}

/// A title names a codec as people do where there is such a name, and as it is otherwise.
pub proof fn law_codecs_are_named_for_people(codec: Seq<char>, k: int)
    requires
        0 <= k < named_codecs().len(),
    ensures
        display_of(named_codecs()[k].0) == named_codecs()[k].1,
        (forall|i: int| 0 <= i < named_codecs().len() ==> (#[trigger] named_codecs()[i]).0 != codec)
            ==> display_of(codec) == codec,
{
    reveal_strlit("libopus");
    reveal_strlit("opus");
    reveal_strlit("flac");
    reveal_strlit("aac");
    reveal_strlit("libfdk_aac");
    reveal_strlit("ac3");
    reveal_strlit("eac3");
    reveal_strlit("libmp3lame");
    reveal_strlit("mp3");
    reveal_strlit("alac");
    reveal_strlit("libvorbis");
    reveal_strlit("vorbis");
    assert(outline("libopus"@) == (7nat, 'l', 'p', 'u', 's'));
    assert(outline("opus"@) == (4nat, 'o', 'p', 'u', 's'));
    assert(outline("flac"@) == (4nat, 'f', 'l', 'a', 'c'));
    assert(outline("aac"@) == (3nat, 'a', 'a', 'a', 'c'));
    assert(outline("libfdk_aac"@) == (10nat, 'l', 'a', 'a', 'c'));
    assert(outline("ac3"@) == (3nat, 'a', 'a', 'c', '3'));
    assert(outline("eac3"@) == (4nat, 'e', 'a', 'c', '3'));
    assert(outline("libmp3lame"@) == (10nat, 'l', 'a', 'm', 'e'));
    assert(outline("mp3"@) == (3nat, 'm', 'm', 'p', '3'));
    assert(outline("alac"@) == (4nat, 'a', 'l', 'a', 'c'));
    assert(outline("libvorbis"@) == (9nat, 'l', 'b', 'i', 's'));
    assert(outline("vorbis"@) == (6nat, 'v', 'b', 'i', 's'));
    let all = named_codecs();
    assert(all[0].0 == "libopus"@);
    assert(all[1].0 == "opus"@);
    assert(all[2].0 == "flac"@);
    assert(all[3].0 == "aac"@);
    assert(all[4].0 == "libfdk_aac"@);
    assert(all[5].0 == "ac3"@);
    assert(all[6].0 == "eac3"@);
    assert(all[7].0 == "libmp3lame"@);
    assert(all[8].0 == "mp3"@);
    assert(all[9].0 == "alac"@);
    assert(all[10].0 == "libvorbis"@);
    assert(all[11].0 == "vorbis"@);
}

/// Capital letters, digits and what stands between channels.
pub open spec fn channel_text(s: Seq<char>) -> bool {
    forall|i: int|
        0 <= i < s.len() ==> ('A' <= #[trigger] s[i] <= 'Z' || '0' <= s[i] <= '9' || s[i] == '+')
}

/// Channels that are listed in brackets behind their number are read as they are listed.
pub proof fn law_listed_channels_are_read(count: Seq<char>, parts: Seq<Seq<char>>)
    requires
        !count.contains(' '),
        parts.len() > 0,
        forall|i: int| 0 <= i < parts.len() ==> is_channel(#[trigger] parts[i]),
    ensures
        channels_of(count + " channels ("@ + (joined(parts, "+"@) + ")"@)) == Some(parts),
{
    reveal_strlit(" channels (");
    reveal_strlit(")");
    reveal_strlit("+");
    let label = " channels ("@;
    let inner = joined(parts, "+"@);
    let tail = inner + ")"@;
    let layout = count + label + tail;
    let at = count.len() as int;
    assert(layout.subrange(at, at + label.len()) =~= label);
    assert forall|k: int| 0 <= k < at implies !#[trigger] crate::text::occurs_at(layout, label, k) by {
        assert(layout[k] == count[k]);
        if crate::text::occurs_at(layout, label, k) {
            assert(layout.subrange(k, k + label.len())[0] == label[0]);
            assert(count.contains(count[k]));
        }
    }
    crate::text::lemma_first_is(layout, label, at);
    assert(layout.subrange(at + label.len(), layout.len() as int) =~= tail);
    assert(tail.subrange(tail.len() - 1, tail.len() as int) =~= ")"@);
    assert(tail.subrange(0, tail.len() - 1) =~= inner);
    assert(layout_text(layout) == inner);
    lemma_joined_channels(parts);
    lemma_no_layout_name(inner);
    assert("+"@ =~= seq!['+']);
    assert forall|i: int| 0 <= i < parts.len() implies !(#[trigger] parts[i]).contains('+') by {
        assert(is_channel(parts[i]));
    }
    law_joined_parts_split_again(parts, '+');
}

proof fn lemma_joined_channels(parts: Seq<Seq<char>>)
    requires
        parts.len() > 0,
        forall|i: int| 0 <= i < parts.len() ==> is_channel(#[trigger] parts[i]),
    ensures
        channel_text(joined(parts, "+"@)),
    decreases parts.len(),
{
    reveal_strlit("+");
    let last = parts.last();
    assert(is_channel(parts[parts.len() - 1]));
    if parts.len() > 1 {
        let front = parts.drop_last();
        assert forall|i: int| 0 <= i < front.len() implies is_channel(#[trigger] front[i]) by {
            assert(front[i] == parts[i]);
        }
        lemma_joined_channels(front);
        let a = joined(front, "+"@);
        let s = joined(parts, "+"@);
        assert forall|i: int| 0 <= i < s.len() implies ('A' <= #[trigger] s[i] <= 'Z' || '0' <= s[i]
            <= '9' || s[i] == '+') by {
            if i < a.len() {
                assert(s[i] == a[i]);
            } else if i > a.len() {
                assert(s[i] == last[i - a.len() - 1]);
            }
        }
    }
}

/// Text of channels is none of the names that ffmpeg has for layouts.
proof fn lemma_no_layout_name(s: Seq<char>)
    requires
        channel_text(s),
    ensures
        decomposition(s) == s,
{
    reveal_strlit("mono");
    reveal_strlit("stereo");
    reveal_strlit("2.1");
    reveal_strlit("3.0");
    reveal_strlit("3.0(back)");
    reveal_strlit("4.0");
    reveal_strlit("quad");
    reveal_strlit("quad(side)");
    reveal_strlit("3.1");
    reveal_strlit("5.0");
    reveal_strlit("5.0(side)");
    reveal_strlit("4.1");
    reveal_strlit("5.1");
    reveal_strlit("5.1(side)");
    reveal_strlit("6.0");
    reveal_strlit("6.0(front)");
    reveal_strlit("3.1.2");
    reveal_strlit("hexagonal");
    reveal_strlit("6.1");
    reveal_strlit("6.1(back)");
    reveal_strlit("6.1(front)");
    reveal_strlit("7.0");
    reveal_strlit("7.0(front)");
    reveal_strlit("7.1");
    reveal_strlit("7.1(wide)");
    reveal_strlit("7.1(wide-side)");
    reveal_strlit("5.1.2");
    reveal_strlit("5.1.2(back)");
    reveal_strlit("octagonal");
    reveal_strlit("cube");
    reveal_strlit("5.1.4");
    reveal_strlit("7.1.2");
    reveal_strlit("7.1.4");
    reveal_strlit("7.2.3");
    reveal_strlit("9.1.4");
    reveal_strlit("9.1.6");
    reveal_strlit("hexadecagonal");
    reveal_strlit("binaural");
    reveal_strlit("downmix");
    reveal_strlit("22.2");
    assert(outline("mono"@) == (4nat, 'm', 'o', 'n', 'o'));
    assert(outline("stereo"@) == (6nat, 's', 'r', 'e', 'o'));
    assert(outline("2.1"@) == (3nat, '2', '2', '.', '1'));
    assert(outline("3.0"@) == (3nat, '3', '3', '.', '0'));
    assert(outline("3.0(back)"@) == (9nat, '3', 'c', 'k', ')'));
    assert(outline("4.0"@) == (3nat, '4', '4', '.', '0'));
    assert(outline("quad"@) == (4nat, 'q', 'u', 'a', 'd'));
    assert(outline("quad(side)"@) == (10nat, 'q', 'd', 'e', ')'));
    assert(outline("3.1"@) == (3nat, '3', '3', '.', '1'));
    assert(outline("5.0"@) == (3nat, '5', '5', '.', '0'));
    assert(outline("5.0(side)"@) == (9nat, '5', 'd', 'e', ')'));
    assert(outline("4.1"@) == (3nat, '4', '4', '.', '1'));
    assert(outline("5.1"@) == (3nat, '5', '5', '.', '1'));
    assert(outline("5.1(side)"@) == (9nat, '5', 'd', 'e', ')'));
    assert(outline("6.0"@) == (3nat, '6', '6', '.', '0'));
    assert(outline("6.0(front)"@) == (10nat, '6', 'n', 't', ')'));
    assert(outline("3.1.2"@) == (5nat, '3', '1', '.', '2'));
    assert(outline("hexagonal"@) == (9nat, 'h', 'n', 'a', 'l'));
    assert(outline("6.1"@) == (3nat, '6', '6', '.', '1'));
    assert(outline("6.1(back)"@) == (9nat, '6', 'c', 'k', ')'));
    assert(outline("6.1(front)"@) == (10nat, '6', 'n', 't', ')'));
    assert(outline("7.0"@) == (3nat, '7', '7', '.', '0'));
    assert(outline("7.0(front)"@) == (10nat, '7', 'n', 't', ')'));
    assert(outline("7.1"@) == (3nat, '7', '7', '.', '1'));
    assert(outline("7.1(wide)"@) == (9nat, '7', 'd', 'e', ')'));
    assert(outline("7.1(wide-side)"@) == (14nat, '7', 'd', 'e', ')'));
    assert(outline("5.1.2"@) == (5nat, '5', '1', '.', '2'));
    assert(outline("5.1.2(back)"@) == (11nat, '5', 'c', 'k', ')'));
    assert(outline("octagonal"@) == (9nat, 'o', 'n', 'a', 'l'));
    assert(outline("cube"@) == (4nat, 'c', 'u', 'b', 'e'));
    assert(outline("5.1.4"@) == (5nat, '5', '1', '.', '4'));
    assert(outline("7.1.2"@) == (5nat, '7', '1', '.', '2'));
    assert(outline("7.1.4"@) == (5nat, '7', '1', '.', '4'));
    assert(outline("7.2.3"@) == (5nat, '7', '2', '.', '3'));
    assert(outline("9.1.4"@) == (5nat, '9', '1', '.', '4'));
    assert(outline("9.1.6"@) == (5nat, '9', '1', '.', '6'));
    assert(outline("hexadecagonal"@) == (13nat, 'h', 'n', 'a', 'l'));
    assert(outline("binaural"@) == (8nat, 'b', 'r', 'a', 'l'));
    assert(outline("downmix"@) == (7nat, 'd', 'm', 'i', 'x'));
    assert(outline("22.2"@) == (4nat, '2', '2', '.', '2'));
    if s.len() >= 3 {
        let o = outline(s);
        assert('A' <= s[0] <= 'Z' || '0' <= s[0] <= '9' || s[0] == '+');
        assert('A' <= s[s.len() - 2] <= 'Z' || '0' <= s[s.len() - 2] <= '9' || s[s.len() - 2] == '+');
        assert('A' <= s[s.len() - 1] <= 'Z' || '0' <= s[s.len() - 1] <= '9' || s[s.len() - 1] == '+');
    }
}

} // verus!
