//! The parts of a profile that decisions are made by.
use crate::text::{
    decimal, gives, has_prefix, lemma_gives_at, lemma_gives_joined, outline, push_decimal, same,
    starts_with, str_of, strings, to_chars,
};
use vstd::prelude::*;
use vstd::string::*;

verus! {

#[derive(Clone, Copy, Debug, PartialEq, Eq, Structural)]
pub enum Encoder {
    SvtAv1,
    SvtAv1Hdr,
}

/// The value of an encoder parameter.
#[derive(Debug)]
pub enum ParamValue {
    Integer(i64),
    Bool(bool),
    Text(String),
    /// Any other value, in the form in which it is passed on.
    Other(String),
}

/// A signed number in decimal.
pub open spec fn signed_decimal(n: int) -> Seq<char> {
    if n < 0 {
        "-"@ + decimal((-n) as nat)
    } else {
        decimal(n as nat)
    }
}

/// Appends a signed number in decimal.
pub fn push_signed(out: &mut String, n: i64)
    ensures
        final(out)@ == old(out)@ + signed_decimal(n as int),
{
    if n >= 0 {
        push_decimal(out, n as u64);
    } else {
        out.append("-");
        if n == i64::MIN {
            push_decimal(out, 0x8000_0000_0000_0000);
        } else {
            push_decimal(out, (-n) as u64);
        }
        assert(out@ =~= old(out)@ + signed_decimal(n as int));
    }
}

/// How a value is passed to the encoder: a boolean as 1 or 0.
pub open spec fn param_text(v: ParamValue) -> Seq<char> {
    match v {
        ParamValue::Integer(value) => signed_decimal(value as int),
        ParamValue::Bool(value) => if value {
            "1"@
        } else {
            "0"@
        },
        ParamValue::Text(value) => value@,
        ParamValue::Other(value) => value@,
    }
}

pub fn toml_value_to_arg(v: &ParamValue) -> (s: String)
    ensures
        s@ == param_text(*v),
{
    match v {
        ParamValue::Integer(value) => {
            let mut s = String::new();
            push_signed(&mut s, *value);
            assert(s@ =~= signed_decimal(*value as int));
            s
        },
        ParamValue::Bool(value) => {
            if *value {
                "1".to_owned()
            } else {
                "0".to_owned()
            }
        },
        ParamValue::Text(value) => value.clone(),
        ParamValue::Other(value) => value.clone(),
    }
}

/// What a profile says of the encoder.
#[derive(Debug)]
pub struct Config {
    pub encoder: Option<Encoder>,
    pub encoder_params: Vec<(String, ParamValue)>,
}

/// Parameters as arguments: `--key value` each.
pub open spec fn param_args(params: Seq<(String, ParamValue)>) -> Seq<Seq<char>>
    decreases params.len(),
{
    if params.len() == 0 {
        Seq::empty()
    } else {
        param_args(params.drop_last()) + seq![
            "--"@ + params.last().0@,
            param_text(params.last().1),
        ]
    }
}

pub open spec fn has_param(params: Seq<(String, ParamValue)>, key: Seq<char>) -> bool {
    exists|i: int| 0 <= i < params.len() && (#[trigger] params[i]).0@ == key
}

impl Config {
    /// The parameters as arguments of the encoder.
    pub fn encoder_args(&self) -> (args: Vec<String>)
        ensures
            strings(args@) == param_args(self.encoder_params@),
    {
        let params = &self.encoder_params;
        let mut args: Vec<String> = Vec::new();
        let mut i: usize = 0;
        proof {
            assert(params@.subrange(0, 0) =~= Seq::empty());
            assert(strings(args@) =~= Seq::empty());
        }
        while i < params.len()
            invariant
                i <= params@.len(),
                strings(args@) == param_args(params@.subrange(0, i as int)),
            decreases params@.len() - i,
        {
            let ghost before = strings(args@);
            proof {
                assert(params@.subrange(0, i + 1).drop_last() =~= params@.subrange(0, i as int));
            }
            let mut flag = String::new();
            flag.append("--");
            flag.append(params[i].0.as_str());
            assert(flag@ =~= "--"@ + params@[i as int].0@);
            let value = toml_value_to_arg(&params[i].1);
            let ghost pair = seq![flag@, value@];
            args.push(flag);
            args.push(value);
            assert(strings(args@) =~= before + pair);
            i = i + 1;
        }
        assert(params@.subrange(0, i as int) =~= params@);
        args
    }

    /// Whether the profile sets a parameter of the encoder.
    pub fn has_param(&self, key: &str) -> (r: bool)
        ensures
            r == has_param(self.encoder_params@, key@),
    {
        let mut i: usize = 0;
        while i < self.encoder_params.len()
            invariant
                i <= self.encoder_params@.len(),
                forall|k: int| 0 <= k < i ==> (#[trigger] self.encoder_params@[k]).0@ != key@,
            decreases self.encoder_params@.len() - i,
        {
            if same(self.encoder_params[i].0.as_str(), key) {
                return true;
            }
            i = i + 1;
        }
        false
    }
}

/// Every parameter of a profile is passed on under its own name, in the order of the profile:
/// a number in decimal, a boolean as 1 or 0 and text as it is.
pub proof fn law_parameters_are_passed_on(params: Seq<(String, ParamValue)>, i: int)
    requires
        0 <= i < params.len(),
    ensures
        ({
            let args = param_args(params);
            &&& args.len() == 2 * params.len()
            &&& args[2 * i] == "--"@ + params[i].0@
            &&& match params[i].1 {
                ParamValue::Integer(n) => n >= 0 ==> args[2 * i + 1] == decimal(n as nat),
                ParamValue::Bool(b) => args[2 * i + 1] == if b {
                    "1"@
                } else {
                    "0"@
                },
                ParamValue::Text(t) => args[2 * i + 1] == t@,
                ParamValue::Other(t) => args[2 * i + 1] == t@,
            }
            &&& gives(args, "--"@ + params[i].0@, param_text(params[i].1))
        }),
    decreases params.len(),
{
    lemma_param_count(params);
    let front = params.drop_last();
    lemma_param_count(front);
    let args = param_args(params);
    if i < front.len() {
        law_parameters_are_passed_on(front, i);
        assert(front[i] == params[i]);
        assert(args[2 * i] == param_args(front)[2 * i]);
        assert(args[2 * i + 1] == param_args(front)[2 * i + 1]);
        lemma_gives_joined(
            param_args(front),
            seq!["--"@ + params.last().0@, param_text(params.last().1)],
        );
    } else {
        lemma_gives_at(args, 2 * i);
    }
}

proof fn lemma_param_count(params: Seq<(String, ParamValue)>)
    ensures
        param_args(params).len() == 2 * params.len(),
    decreases params.len(),
{
    if params.len() > 0 {
        lemma_param_count(params.drop_last());
    }
}

// ---------------------------------------------------------------------------
// Languages
// ---------------------------------------------------------------------------
/// The terminology code of a language that ISO 639-2 gives two codes; any other code as it
/// is.
pub open spec fn terminology_code(code: Seq<char>) -> Seq<char> {
    if code == "alb"@ {
        "sqi"@
    } else if code == "arm"@ {
        "hye"@
    } else if code == "baq"@ {
        "eus"@
    } else if code == "bur"@ {
        "mya"@
    } else if code == "chi"@ {
        "zho"@
    } else if code == "cze"@ {
        "ces"@
    } else if code == "dut"@ {
        "nld"@
    } else if code == "fre"@ {
        "fra"@
    } else if code == "geo"@ {
        "kat"@
    } else if code == "ger"@ {
        "deu"@
    } else if code == "gre"@ {
        "ell"@
    } else if code == "ice"@ {
        "isl"@
    } else if code == "mac"@ {
        "mkd"@
    } else if code == "mao"@ {
        "mri"@
    } else if code == "may"@ {
        "msa"@
    } else if code == "per"@ {
        "fas"@
    } else if code == "rum"@ {
        "ron"@
    } else if code == "slo"@ {
        "slk"@
    } else if code == "tib"@ {
        "bod"@
    } else if code == "wel"@ {
        "cym"@
    } else {
        code
    }
}

/// Whether two codes are spellings of one language.
pub open spec fn same_language(a: Seq<char>, b: Seq<char>) -> bool {
    terminology_code(a) == terminology_code(b)
}

/// Whether a track is kept: the whitelist is empty or names its language, or it has none.
pub open spec fn language_kept(whitelist: Seq<Seq<char>>, language: Option<Seq<char>>) -> bool {
    match language {
        None => true,
        Some(l) => whitelist.len() == 0 || l == "und"@ || exists|i: int|
            0 <= i < whitelist.len() && #[trigger] same_language(whitelist[i], l),
    }
}

fn terminology(code: &str) -> (t: String)
    ensures
        t@ == terminology_code(code@),
{
    let t: &str = if same(code, "alb") {
        "sqi"
    } else if same(code, "arm") {
        "hye"
    } else if same(code, "baq") {
        "eus"
    } else if same(code, "bur") {
        "mya"
    } else if same(code, "chi") {
        "zho"
    } else if same(code, "cze") {
        "ces"
    } else if same(code, "dut") {
        "nld"
    } else if same(code, "fre") {
        "fra"
    } else if same(code, "geo") {
        "kat"
    } else if same(code, "ger") {
        "deu"
    } else if same(code, "gre") {
        "ell"
    } else if same(code, "ice") {
        "isl"
    } else if same(code, "mac") {
        "mkd"
    } else if same(code, "mao") {
        "mri"
    } else if same(code, "may") {
        "msa"
    } else if same(code, "per") {
        "fas"
    } else if same(code, "rum") {
        "ron"
    } else if same(code, "slo") {
        "slk"
    } else if same(code, "tib") {
        "bod"
    } else if same(code, "wel") {
        "cym"
    } else {
        code
    };
    t.to_owned()
}

/// Whether a track in this language is kept under a whitelist, in either spelling.
pub fn language_selected(whitelist: &[String], language: Option<&str>) -> (r: bool)
    ensures
        r == language_kept(
            strings(whitelist@),
            match language {
                Some(l) => Some(l@),
                None => None,
            },
        ),
{
    let l = match language {
        Some(l) => l,
        None => {
            return true;
        },
    };
    if whitelist.len() == 0 || same(l, "und") {
        return true;
    }
    let own = terminology(l);
    let ghost list = strings(whitelist@);
    let mut i: usize = 0;
    while i < whitelist.len()
        invariant
            i <= whitelist@.len(),
            list == strings(whitelist@),
            own@ == terminology_code(l@),
            language == Some(l),
            forall|k: int| 0 <= k < i ==> !#[trigger] same_language(list[k], l@),
        decreases whitelist@.len() - i,
    {
        assert(list[i as int] == whitelist@[i as int]@);
        let other = terminology(whitelist[i].as_str());
        if same(other.as_str(), own.as_str()) {
            assert(same_language(list[i as int], l@));
            return true;
        }
        i = i + 1;
    }
    false
}

/// A track without a language, or tagged as undetermined, is kept under every whitelist.
pub proof fn law_undetermined_tracks_are_kept(whitelist: Seq<Seq<char>>)
    ensures
        language_kept(whitelist, None),
        language_kept(whitelist, Some("und"@)),
{
}

/// A whitelist keeps what it names and drops what it does not; an empty one keeps all.
pub proof fn law_whitelist_keeps_what_it_names(whitelist: Seq<Seq<char>>, language: Seq<char>)
    ensures
        whitelist.len() == 0 ==> language_kept(whitelist, Some(language)),
        whitelist.contains(language) ==> language_kept(whitelist, Some(language)),
        whitelist.len() > 0 && language != "und"@ && (forall|i: int|
            0 <= i < whitelist.len() ==> !same_language(#[trigger] whitelist[i], language))
            ==> !language_kept(whitelist, Some(language)),
        whitelist.len() > 0 && language != "und"@ && terminology_code(language) == language && (
        forall|i: int|
            0 <= i < whitelist.len() ==> terminology_code(#[trigger] whitelist[i]) == whitelist[i])
            && !whitelist.contains(language) ==> !language_kept(whitelist, Some(language)),
{
    if whitelist.contains(language) {
        let i = choose|i: int| 0 <= i < whitelist.len() && whitelist[i] == language;
        assert(same_language(whitelist[i], language));
    }
}

/// Both codes of a language select the same tracks, in the whitelist and on the track.
pub proof fn law_both_spellings_select_the_same(
    whitelist: Seq<Seq<char>>,
    i: int,
    a: Seq<char>,
    b: Seq<char>,
)
    requires
        same_language(a, b),
        a != "und"@,
        b != "und"@,
        0 <= i < whitelist.len(),
        same_language(whitelist[i], a),
    ensures
        language_kept(whitelist, Some(a)) && language_kept(whitelist, Some(b)),
        forall|l: Seq<char>|
            language_kept(whitelist.update(i, b), Some(l)) == #[trigger] language_kept(
                whitelist,
                Some(l),
            ),
{
    assert(same_language(whitelist[i], b));
    let other = whitelist.update(i, b);
    assert forall|l: Seq<char>|
        language_kept(other, Some(l)) == #[trigger] language_kept(whitelist, Some(l)) by {
        assert forall|k: int| 0 <= k < whitelist.len() implies same_language(other[k], l)
            == #[trigger] same_language(whitelist[k], l) by {}
        if language_kept(whitelist, Some(l)) && l != "und"@ {
            let k = choose|k: int|
                0 <= k < whitelist.len() && #[trigger] same_language(whitelist[k], l);
            assert(same_language(other[k], l));
        }
        if language_kept(other, Some(l)) && l != "und"@ {
            let k = choose|k: int| 0 <= k < other.len() && #[trigger] same_language(other[k], l);
            assert(same_language(whitelist[k], l));
        }
    }
}

// ---------------------------------------------------------------------------
// Subtitles
// ---------------------------------------------------------------------------
#[derive(Clone, Copy, Debug, PartialEq, Eq, Structural)]
pub enum SubtitleMode {
    Copy,
    Strip,
}

/// What a profile says of the subtitles.
#[derive(Debug)]
pub struct SubtitleConfig {
    pub mode: SubtitleMode,
    pub language_whitelist: Vec<String>,
}

// ---------------------------------------------------------------------------
// Scene detection
// ---------------------------------------------------------------------------
#[derive(Clone, Copy, Debug, PartialEq, Eq, Structural)]
pub enum SceneDetectionSpeedConfig {
    Standard,
    Fast,
}

/// What a profile says of the chunks.
#[derive(Clone, Copy, Debug, PartialEq, Eq, Structural)]
pub struct SceneDetectionConfig {
    /// The least distance between two cuts, in frames.
    pub min_scene_len: usize,
    /// The greatest length of a chunk in seconds; 0 disables it.
    pub extra_split_sec: u64,
    /// The same in frames; takes the place of the one in seconds.
    pub extra_split: usize,
    pub speed: SceneDetectionSpeedConfig,
    pub downscale_height: Option<u32>,
}

impl Default for SceneDetectionConfig {
    fn default() -> (c: SceneDetectionConfig)
        ensures
            c == (SceneDetectionConfig {
                min_scene_len: 24,
                extra_split_sec: 10,
                extra_split: 0,
                speed: SceneDetectionSpeedConfig::Standard,
                downscale_height: None,
            }),
    {
        SceneDetectionConfig {
            min_scene_len: 24,
            extra_split_sec: 10,
            extra_split: 0,
            speed: SceneDetectionSpeedConfig::Standard,
            downscale_height: None,
        }
    }
}

impl SceneDetectionConfig {
    /// The greatest length of a chunk in frames. `sec_frames` is how many frames the limit
    /// in seconds takes at the frame rate; below 24 frames it does not go.
    pub fn effective_extra_split_frames(&self, sec_frames: usize) -> (r: Option<usize>)
        ensures
            r == if self.extra_split > 0 {
                Some(self.extra_split)
            } else if self.extra_split_sec == 0 {
                None
            } else if sec_frames < 24 {
                Some(24usize)
            } else {
                Some(sec_frames)
            },
            r is None <==> self.extra_split == 0 && self.extra_split_sec == 0,
            self.extra_split > 0 ==> r == Some(self.extra_split),
            self.extra_split == 0 && r is Some ==> r->0 >= 24 && r->0 >= sec_frames && (r->0 == 24
                || r->0 == sec_frames),
    {
        if self.extra_split > 0 {
            Some(self.extra_split)
        } else if self.extra_split_sec == 0 {
            None
        } else if sec_frames < 24 {
            Some(24)
        } else {
            Some(sec_frames)
        }
    }
}

// ---------------------------------------------------------------------------
// The rest of a profile
// ---------------------------------------------------------------------------
#[derive(Clone, Copy, Debug, PartialEq, Eq, Structural)]
pub enum VideoMode {
    Encode,
    Copy,
}

/// What a profile says of the video.
#[derive(Clone, Copy, Debug, PartialEq, Eq, Structural)]
pub struct AvetConfig {
    pub video: VideoMode,
    pub dv: bool,
    pub crop: bool,
    pub keyint: bool,
    pub scale: Option<u32>,
    pub bit_depth: Option<u8>,
    pub keep_temp: bool,
}

impl Default for AvetConfig {
    fn default() -> (c: AvetConfig)
        ensures
            c == (AvetConfig {
                video: VideoMode::Encode,
                dv: false,
                crop: false,
                keyint: false,
                scale: None,
                bit_depth: None,
                keep_temp: false,
            }),
    {
        AvetConfig {
            video: VideoMode::Encode,
            dv: false,
            crop: false,
            keyint: false,
            scale: None,
            bit_depth: None,
            keep_temp: false,
        }
    }
}

// ---------------------------------------------------------------------------
// Audio
// ---------------------------------------------------------------------------
#[derive(Clone, Copy, Debug, PartialEq, Eq, Structural)]
pub enum AudioMode {
    Copy,
    Encode,
}

/// A bitrate: one for all, or one by layout.
#[derive(Debug)]
pub enum Bitrate {
    Single(String),
    /// By the name of a layout, or `default`.
    Table(Vec<(String, String)>),
}

/// The value of the first entry with a key, from entry `i` on.
pub open spec fn entry_of(table: Seq<(String, String)>, key: Seq<char>, i: int) -> Option<Seq<char>>
    decreases table.len() - i,
{
    if i < 0 || i >= table.len() {
        None
    } else if table[i].0@ == key {
        Some(table[i].1@)
    } else {
        entry_of(table, key, i + 1)
    }
}

/// The bitrate for a layout; a layout that is missing gets the default, where there is one.
pub open spec fn bitrate_for(b: Bitrate, layout: Option<Seq<char>>) -> Option<Seq<char>> {
    match b {
        Bitrate::Single(s) => Some(s@),
        Bitrate::Table(t) => {
            let own = match layout {
                Some(l) => entry_of(t@, l, 0),
                None => None,
            };
            match own {
                Some(v) => Some(v),
                None => entry_of(t@, "default"@, 0),
            }
        },
    }
}

fn find_entry<'a>(table: &'a [(String, String)], key: &str) -> (r: Option<&'a str>)
    ensures
        str_of(r) == entry_of(table@, key@, 0),
{
    let mut i: usize = 0;
    while i < table.len()
        invariant
            i <= table@.len(),
            entry_of(table@, key@, i as int) == entry_of(table@, key@, 0),
        decreases table@.len() - i,
    {
        if same(table[i].0.as_str(), key) {
            return Some(table[i].1.as_str());
        }
        i = i + 1;
    }
    None
}

/// The name of the layout with this many channels.
pub open spec fn layout_of(channels: u32) -> Option<Seq<char>> {
    if channels == 1 {
        Some("mono"@)
    } else if channels == 2 {
        Some("stereo"@)
    } else if channels == 3 {
        Some("3.0"@)
    } else if channels == 4 {
        Some("quad"@)
    } else if channels == 5 {
        Some("5.0"@)
    } else if channels == 6 {
        Some("5.1"@)
    } else if channels == 7 {
        Some("6.1"@)
    } else if channels == 8 {
        Some("7.1"@)
    } else {
        None
    }
}

fn known_layout(channels: u32) -> (r: Option<&'static str>)
    ensures
        str_of(r) == layout_of(channels),
{
    if channels == 1 {
        Some("mono")
    } else if channels == 2 {
        Some("stereo")
    } else if channels == 3 {
        Some("3.0")
    } else if channels == 4 {
        Some("quad")
    } else if channels == 5 {
        Some("5.0")
    } else if channels == 6 {
        Some("5.1")
    } else if channels == 7 {
        Some("6.1")
    } else if channels == 8 {
        Some("7.1")
    } else {
        None
    }
}

/// The name of a layout by its number of channels, or a question mark.
pub open spec fn layout_word(channels: u32) -> Seq<char> {
    match layout_of(channels) {
        Some(l) => l,
        None => "?"@,
    }
}

pub fn layout_name(channels: u32) -> (s: &'static str)
    ensures
        s@ == layout_word(channels),
{
    match known_layout(channels) {
        Some(l) => l,
        None => "?",
    }
}

impl Bitrate {
    /// The bitrate for a layout by name.
    pub fn resolve_layout<'a>(&'a self, layout: &str) -> (r: Option<&'a str>)
        ensures
            str_of(r) == bitrate_for(*self, Some(layout@)),
    {
        match self {
            Bitrate::Single(s) => Some(s.as_str()),
            Bitrate::Table(t) => match find_entry(t.as_slice(), layout) {
                Some(v) => Some(v),
                None => find_entry(t.as_slice(), "default"),
            },
        }
    }

    /// The bitrate for a number of channels.
    pub fn resolve<'a>(&'a self, channels: Option<u32>) -> (r: Option<&'a str>)
        ensures
            str_of(r) == bitrate_for(
                *self,
                match channels {
                    Some(n) => layout_of(n),
                    None => None,
                },
            ),
    {
        let layout = match channels {
            Some(n) => known_layout(n),
            None => None,
        };
        match self {
            Bitrate::Single(s) => Some(s.as_str()),
            Bitrate::Table(t) => {
                let own = match layout {
                    Some(l) => find_entry(t.as_slice(), l),
                    None => None,
                };
                match own {
                    Some(v) => Some(v),
                    None => find_entry(t.as_slice(), "default"),
                }
            },
        }
    }
}

proof fn lemma_entry_of(table: Seq<(String, String)>, key: Seq<char>, i: int)
    requires
        0 <= i,
    ensures
        match entry_of(table, key, i) {
            Some(v) => exists|k: int|
                i <= k < table.len() && (#[trigger] table[k]).0@ == key && table[k].1@ == v
                    && forall|j: int| i <= j < k ==> (#[trigger] table[j]).0@ != key,
            None => forall|k: int| i <= k < table.len() ==> (#[trigger] table[k]).0@ != key,
        },
    decreases table.len() - i,
{
    if i < table.len() {
        if table[i].0@ != key {
            lemma_entry_of(table, key, i + 1);
            if let Some(v) = entry_of(table, key, i) {
                let k = choose|k: int|
                    i + 1 <= k < table.len() && (#[trigger] table[k]).0@ == key && table[k].1@ == v
                        && forall|j: int| i + 1 <= j < k ==> (#[trigger] table[j]).0@ != key;
                assert(table[k].0@ == key);
            }
        } else {
            assert(table[i].1@ == entry_of(table, key, i)->0);
        }
    }
}

/// A single bitrate holds for every layout. A table gives a layout its own entry, and the
/// default only to one that it does not name.
pub proof fn law_bitrate_is_that_of_the_layout(b: Bitrate, layout: Option<Seq<char>>)
    ensures
        match b {
            Bitrate::Single(s) => bitrate_for(b, layout) == Some(s@),
            Bitrate::Table(t) => {
                let named = layout is Some && exists|k: int|
                    0 <= k < t@.len() && (#[trigger] t@[k]).0@ == layout->0;
                let key = if named {
                    layout->0
                } else {
                    "default"@
                };
                match bitrate_for(b, layout) {
                    Some(v) => exists|k: int|
                        0 <= k < t@.len() && (#[trigger] t@[k]).0@ == key && t@[k].1@ == v
                            && forall|j: int| 0 <= j < k ==> (#[trigger] t@[j]).0@ != key,
                    None => !named && forall|k: int|
                        0 <= k < t@.len() ==> (#[trigger] t@[k]).0@ != "default"@,
                }
            },
        },
{
    if let Bitrate::Table(t) = b {
        lemma_entry_of(t@, "default"@, 0);
        if let Some(l) = layout {
            lemma_entry_of(t@, l, 0);
        }
    }
}

/// No two numbers of channels share a layout.
pub proof fn law_layouts_tell_channels_apart(a: u32, b: u32)
    ensures
        layout_of(a) is Some <==> 1 <= a <= 8,
        layout_of(a) is Some && layout_of(a) == layout_of(b) ==> a == b,
{
    reveal_strlit("mono");
    reveal_strlit("stereo");
    reveal_strlit("3.0");
    reveal_strlit("quad");
    reveal_strlit("5.0");
    reveal_strlit("5.1");
    reveal_strlit("6.1");
    reveal_strlit("7.1");
    if layout_of(a) is Some && layout_of(b) is Some && a != b {
        let (x, y) = (layout_of(a)->0, layout_of(b)->0);
        assert(x.len() != y.len() || x[0] != y[0] || x[2] != y[2]);
    }
}

/// Whether an encoder keeps the samples exact, so that it takes no bitrate.
pub open spec fn lossless_encoder(codec: Seq<char>) -> bool {
    codec == "flac"@ || codec == "alac"@ || codec == "wavpack"@ || codec == "tta"@ || codec
        == "truehd"@ || codec == "mlp"@ || has_prefix(codec, "pcm_"@)
}

pub fn output_is_lossless(codec: &str) -> (r: bool)
    ensures
        r == lossless_encoder(codec@),
{
    let chars = to_chars(codec);
    same(codec, "flac") || same(codec, "alac") || same(codec, "wavpack") || same(codec, "tta")
        || same(codec, "truehd") || same(codec, "mlp") || starts_with(chars.as_slice(), "pcm_")
}

/// What a profile says of some tracks; what is left out comes from the profile itself.
#[derive(Debug)]
pub struct AudioRule {
    pub mode: Option<AudioMode>,
    pub codec: Option<String>,
    pub bitrate: Option<Bitrate>,
    pub options: Vec<(String, ParamValue)>,
}

/// What a profile says of the audio.
#[derive(Debug)]
pub struct AudioConfig {
    pub mode: AudioMode,
    pub codec: Option<String>,
    pub bitrate: Option<Bitrate>,
    pub options: Vec<(String, ParamValue)>,
    pub language_whitelist: Vec<String>,
    pub lossless: Option<AudioRule>,
    pub codec_rules: Vec<(String, AudioRule)>,
}

/// What holds for one track.
#[derive(Debug)]
pub struct ResolvedAudio<'a> {
    pub mode: AudioMode,
    pub codec: Option<&'a String>,
    pub bitrate: Option<&'a Bitrate>,
    pub options: &'a Vec<(String, ParamValue)>,
}

/// The rule for a codec, from rule `i` on.
pub open spec fn codec_rule(rules: Seq<(String, AudioRule)>, codec: Seq<char>, i: int) -> Option<
    AudioRule,
>
    decreases rules.len() - i,
{
    if i < 0 || i >= rules.len() {
        None
    } else if rules[i].0@ == codec {
        Some(rules[i].1)
    } else {
        codec_rule(rules, codec, i + 1)
    }
}

/// The rule that a track falls under: that of its codec, else the one for lossless tracks.
pub open spec fn rule_for(c: AudioConfig, codec: Seq<char>, lossless: bool) -> Option<AudioRule> {
    match codec_rule(c.codec_rules@, codec, 0) {
        Some(r) => Some(r),
        None => if lossless {
            c.lossless
        } else {
            None
        },
    }
}

pub open spec fn resolved_mode(c: AudioConfig, rule: Option<AudioRule>) -> AudioMode {
    match rule {
        Some(r) => match r.mode {
            Some(m) => m,
            None => c.mode,
        },
        None => c.mode,
    }
}

pub open spec fn resolved_codec(c: AudioConfig, rule: Option<AudioRule>) -> Option<String> {
    match rule {
        Some(r) => if r.codec is Some {
            r.codec
        } else {
            c.codec
        },
        None => c.codec,
    }
}

pub open spec fn resolved_bitrate(c: AudioConfig, rule: Option<AudioRule>) -> Option<Bitrate> {
    match rule {
        Some(r) => if r.bitrate is Some {
            r.bitrate
        } else {
            c.bitrate
        },
        None => c.bitrate,
    }
}

/// Options are not merged: a rule's own replace those of the profile.
pub open spec fn resolved_options(c: AudioConfig, rule: Option<AudioRule>) -> Seq<
    (String, ParamValue),
> {
    match rule {
        Some(r) => if r.options@.len() > 0 {
            r.options@
        } else {
            c.options@
        },
        None => c.options@,
    }
}

fn find_rule<'a>(rules: &'a [(String, AudioRule)], codec: &str) -> (r: Option<&'a AudioRule>)
    ensures
        match r {
            Some(rule) => codec_rule(rules@, codec@, 0) == Some(*rule),
            None => codec_rule(rules@, codec@, 0) is None,
        },
{
    let mut i: usize = 0;
    while i < rules.len()
        invariant
            i <= rules@.len(),
            codec_rule(rules@, codec@, 0) == codec_rule(rules@, codec@, i as int),
        decreases rules@.len() - i,
    {
        if same(rules[i].0.as_str(), codec) {
            return Some(&rules[i].1);
        }
        i = i + 1;
    }
    None
}

/// Whether `r` is what a rule comes to.
pub open spec fn resolves_to(c: AudioConfig, rule: Option<AudioRule>, r: ResolvedAudio) -> bool {
    &&& r.mode == resolved_mode(c, rule)
    &&& match r.codec {
        Some(own) => resolved_codec(c, rule) == Some(*own),
        None => resolved_codec(c, rule) is None,
    }
    &&& match r.bitrate {
        Some(own) => resolved_bitrate(c, rule) == Some(*own),
        None => resolved_bitrate(c, rule) is None,
    }
    &&& r.options@ == resolved_options(c, rule)
}

pub open spec fn rule_of(rule: Option<&AudioRule>) -> Option<AudioRule> {
    match rule {
        Some(r) => Some(*r),
        None => None,
    }
}

impl AudioConfig {
    fn under_rule<'a>(&'a self, rule: Option<&'a AudioRule>) -> (r: ResolvedAudio<'a>)
        ensures
            resolves_to(*self, rule_of(rule), r),
    {
        let own_codec = match &self.codec {
            Some(c) => Some(c),
            None => None,
        };
        let own_bitrate = match &self.bitrate {
            Some(b) => Some(b),
            None => None,
        };
        match rule {
            None => ResolvedAudio {
                mode: self.mode,
                codec: own_codec,
                bitrate: own_bitrate,
                options: &self.options,
            },
            Some(r) => ResolvedAudio {
                mode: match r.mode {
                    Some(m) => m,
                    None => self.mode,
                },
                codec: match &r.codec {
                    Some(c) => Some(c),
                    None => own_codec,
                },
                bitrate: match &r.bitrate {
                    Some(b) => Some(b),
                    None => own_bitrate,
                },
                options: if r.options.len() > 0 {
                    &r.options
                } else {
                    &self.options
                },
            },
        }
    }

    /// What holds for a track of this codec.
    pub fn resolve<'a>(&'a self, codec: &str, lossless: bool) -> (r: ResolvedAudio<'a>)
        ensures
            resolves_to(*self, rule_for(*self, codec@, lossless), r),
    {
        let mut rule = find_rule(self.codec_rules.as_slice(), codec);
        if rule.is_none() && lossless {
            rule = match &self.lossless {
                Some(r) => Some(r),
                None => None,
            };
        }
        self.under_rule(rule)
    }
}

/// A rule for a codec wins over the one for lossless tracks, and a track without either gets
/// what the profile says for all.
pub proof fn law_codec_rule_wins(c: AudioConfig, codec: Seq<char>, lossless: bool)
    ensures
        codec_rule(c.codec_rules@, codec, 0) is Some ==> rule_for(c, codec, lossless)
            == codec_rule(c.codec_rules@, codec, 0),
        codec_rule(c.codec_rules@, codec, 0) is None && !lossless ==> rule_for(c, codec, lossless)
            is None && resolved_mode(c, rule_for(c, codec, lossless)) == c.mode,
{
}

/// The first rule that names the codec of a track holds for it. Without one, a lossless track
/// falls under the rule for those and any other under none.
pub proof fn law_first_rule_of_a_codec_holds(c: AudioConfig, codec: Seq<char>, lossless: bool)
    ensures
        (forall|i: int| 0 <= i < c.codec_rules@.len() ==> (#[trigger] c.codec_rules@[i]).0@ != codec)
            ==> rule_for(c, codec, lossless) == if lossless {
            c.lossless
        } else {
            None
        },
        forall|i: int|
            0 <= i < c.codec_rules@.len() && (#[trigger] c.codec_rules@[i]).0@ == codec && (forall|
                j: int,
            |
                0 <= j < i ==> (#[trigger] c.codec_rules@[j]).0@ != codec) ==> rule_for(
                c,
                codec,
                lossless,
            ) == Some(c.codec_rules@[i].1),
{
    lemma_codec_rule(c.codec_rules@, codec, 0);
}

proof fn lemma_codec_rule(rules: Seq<(String, AudioRule)>, codec: Seq<char>, from: int)
    requires
        0 <= from,
    ensures
        (forall|i: int| from <= i < rules.len() ==> (#[trigger] rules[i]).0@ != codec) ==> codec_rule(
            rules,
            codec,
            from,
        ) is None,
        forall|i: int|
            from <= i < rules.len() && (#[trigger] rules[i]).0@ == codec && (forall|j: int|
                from <= j < i ==> (#[trigger] rules[j]).0@ != codec) ==> codec_rule(
                rules,
                codec,
                from,
            ) == Some(rules[i].1),
    decreases rules.len() - from,
{
    if from < rules.len() && rules[from].0@ != codec {
        lemma_codec_rule(rules, codec, from + 1);
    }
}

/// A rule holds as far as it goes: each thing that it sets is its own, each that it leaves
/// open is that of the profile.
pub proof fn law_profile_completes_a_rule(c: AudioConfig, rule: AudioRule)
    ensures
        resolved_mode(c, None) == c.mode && resolved_codec(c, None) == c.codec,
        resolved_bitrate(c, None) == c.bitrate && resolved_options(c, None) == c.options@,
        rule.mode is Some ==> rule.mode == Some(resolved_mode(c, Some(rule))),
        rule.mode is None ==> resolved_mode(c, Some(rule)) == c.mode,
        rule.codec is Some ==> resolved_codec(c, Some(rule)) == rule.codec,
        rule.codec is None ==> resolved_codec(c, Some(rule)) == c.codec,
        rule.bitrate is Some ==> resolved_bitrate(c, Some(rule)) == rule.bitrate,
        rule.bitrate is None ==> resolved_bitrate(c, Some(rule)) == c.bitrate,
        rule.options@.len() > 0 ==> resolved_options(c, Some(rule)) == rule.options@,
        rule.options@.len() == 0 ==> resolved_options(c, Some(rule)) == c.options@,
{
}

// ---------------------------------------------------------------------------
// What a profile may not say
// ---------------------------------------------------------------------------
/// The ranges of a search for a rate, as a profile gives them.
#[derive(Clone, Copy, Debug, PartialEq, Eq, Structural)]
pub struct QualityRange {
    pub min_crf: u32,
    pub max_crf: u32,
    pub min_probes: u32,
    pub max_probes: u32,
    pub probe_preset: u32,
}

impl Default for QualityRange {
    fn default() -> (q: QualityRange)
        ensures
            q == (QualityRange {
                min_crf: 1,
                max_crf: 70,
                min_probes: 2,
                max_probes: 7,
                probe_preset: 13,
            }),
    {
        QualityRange { min_crf: 1, max_crf: 70, min_probes: 2, max_probes: 7, probe_preset: 13 }
    }
}

/// Why a profile is refused.
#[derive(Clone, Copy, Debug, PartialEq, Eq, Structural)]
pub enum ProfileFault {
    /// Video is to be encoded, and no encoder is set.
    NoEncoder,
    /// A height below 64.
    Scale,
    /// A bit depth other than 8 and 10.
    BitDepth,
    /// Dolby Vision needs ten bits.
    DolbyVisionDepth,
    /// Scenes of no frames.
    SceneLength,
    /// Chunks of fewer than 24 frames.
    ExtraSplit,
    /// A height below 64.
    DownscaleHeight,
    /// A range of rates that is empty or leaves 1 to 70.
    CrfRange,
    /// Fewer than two probes, or a maximum below the minimum.
    ProbeRange,
    /// A preset above 13.
    ProbePreset,
    /// A quality to reach, and no encode.
    QualityOfCopy,
    /// Source and encode are compared at one size.
    QualityScaled,
    /// The encoder is to reach a bitrate already.
    QualityBitrate,
    /// The encoder is not to keep a constant rate.
    QualityRateControl,
}

/// Whether the encoder is told to control its rate.
pub open spec fn controls_rate(params: Seq<(String, ParamValue)>) -> bool {
    exists|i: int|
        0 <= i < params.len() && (#[trigger] params[i]).0@ == "rc"@ && param_text(params[i].1)
            != "0"@
}

/// What is wrong with a search for a rate.
pub open spec fn quality_fault(
    params: Seq<(String, ParamValue)>,
    avet: AvetConfig,
    q: QualityRange,
) -> Option<ProfileFault> {
    if avet.video is Copy {
        Some(ProfileFault::QualityOfCopy)
    } else if avet.scale is Some {
        Some(ProfileFault::QualityScaled)
    } else if q.min_crf < 1 || q.min_crf >= q.max_crf || q.max_crf > 70 {
        Some(ProfileFault::CrfRange)
    } else if q.min_probes < 2 || q.max_probes < q.min_probes {
        Some(ProfileFault::ProbeRange)
    } else if q.probe_preset > 13 {
        Some(ProfileFault::ProbePreset)
    } else if has_param(params, "tbr"@) {
        Some(ProfileFault::QualityBitrate)
    } else if controls_rate(params) {
        Some(ProfileFault::QualityRateControl)
    } else {
        None
    }
}

/// What is wrong with a profile, the audio aside.
pub open spec fn profile_fault(
    config: Config,
    avet: AvetConfig,
    scenes: SceneDetectionConfig,
    quality: Option<QualityRange>,
) -> Option<ProfileFault> {
    if avet.video is Encode && config.encoder is None {
        Some(ProfileFault::NoEncoder)
    } else if avet.scale is Some && avet.scale->0 < 64 {
        Some(ProfileFault::Scale)
    } else if avet.bit_depth is Some && avet.bit_depth->0 != 8 && avet.bit_depth->0 != 10 {
        Some(ProfileFault::BitDepth)
    } else if avet.dv && avet.bit_depth == Some(8u8) {
        Some(ProfileFault::DolbyVisionDepth)
    } else if scenes.min_scene_len < 1 {
        Some(ProfileFault::SceneLength)
    } else if 0 < scenes.extra_split < 24 {
        Some(ProfileFault::ExtraSplit)
    } else if scenes.downscale_height is Some && scenes.downscale_height->0 < 64 {
        Some(ProfileFault::DownscaleHeight)
    } else {
        match quality {
            Some(q) => quality_fault(config.encoder_params@, avet, q),
            None => None,
        }
    }
}

fn is_rate_controlled(params: &[(String, ParamValue)]) -> (r: bool)
    ensures
        r == controls_rate(params@),
{
    let mut i: usize = 0;
    while i < params.len()
        invariant
            i <= params@.len(),
            forall|k: int|
                0 <= k < i ==> !((#[trigger] params@[k]).0@ == "rc"@ && param_text(params@[k].1)
                    != "0"@),
        decreases params@.len() - i,
    {
        if same(params[i].0.as_str(), "rc") {
            let value = toml_value_to_arg(&params[i].1);
            if !same(value.as_str(), "0") {
                assert(params@[i as int].0@ == "rc"@);
                return true;
            }
        }
        i = i + 1;
    }
    false
}

fn check_quality(config: &Config, avet: &AvetConfig, q: &QualityRange) -> (r: Option<ProfileFault>)
    ensures
        r == quality_fault(config.encoder_params@, *avet, *q),
{
    if matches!(avet.video, VideoMode::Copy) {
        Some(ProfileFault::QualityOfCopy)
    } else if avet.scale.is_some() {
        Some(ProfileFault::QualityScaled)
    } else if q.min_crf < 1 || q.min_crf >= q.max_crf || q.max_crf > 70 {
        Some(ProfileFault::CrfRange)
    } else if q.min_probes < 2 || q.max_probes < q.min_probes {
        Some(ProfileFault::ProbeRange)
    } else if q.probe_preset > 13 {
        Some(ProfileFault::ProbePreset)
    } else if config.has_param("tbr") {
        Some(ProfileFault::QualityBitrate)
    } else if is_rate_controlled(config.encoder_params.as_slice()) {
        Some(ProfileFault::QualityRateControl)
    } else {
        None
    }
}

fn below(value: Option<u32>, least: u32) -> (r: bool)
    ensures
        r == (value is Some && value->0 < least),
{
    match value {
        Some(v) => v < least,
        None => false,
    }
}

/// Refuses a profile that cannot be carried out, the audio aside.
pub fn check_profile(
    config: &Config,
    avet: &AvetConfig,
    scenes: &SceneDetectionConfig,
    quality: Option<QualityRange>,
) -> (r: Result<(), ProfileFault>)
    ensures
        match r {
            Ok(()) => profile_fault(*config, *avet, *scenes, quality) is None,
            Err(e) => profile_fault(*config, *avet, *scenes, quality) == Some(e),
        },
{
    if matches!(avet.video, VideoMode::Encode) && config.encoder.is_none() {
        return Err(ProfileFault::NoEncoder);
    }
    if below(avet.scale, 64) {
        return Err(ProfileFault::Scale);
    }
    if let Some(depth) = avet.bit_depth {
        if depth != 8 && depth != 10 {
            return Err(ProfileFault::BitDepth);
        }
        if avet.dv && depth == 8 {
            return Err(ProfileFault::DolbyVisionDepth);
        }
    }
    if scenes.min_scene_len < 1 {
        return Err(ProfileFault::SceneLength);
    }
    if 0 < scenes.extra_split && scenes.extra_split < 24 {
        return Err(ProfileFault::ExtraSplit);
    }
    if below(scenes.downscale_height, 64) {
        return Err(ProfileFault::DownscaleHeight);
    }
    if let Some(q) = quality {
        if let Some(fault) = check_quality(config, avet, &q) {
            return Err(fault);
        }
    }
    Ok(())
}

/// Why the audio of a profile is refused.
#[derive(Clone, Copy, Debug, PartialEq, Eq, Structural)]
pub enum AudioFault {
    /// Tracks are to be encoded, and no codec is set.
    NoCodec,
    /// A lossy codec needs a bitrate.
    NoBitrate,
}

/// What is wrong with what holds under a rule.
pub open spec fn rule_fault(c: AudioConfig, rule: Option<AudioRule>) -> Option<AudioFault> {
    if resolved_mode(c, rule) is Copy {
        None
    } else {
        match resolved_codec(c, rule) {
            None => Some(AudioFault::NoCodec),
            Some(codec) => if lossless_encoder(codec@) || resolved_bitrate(c, rule) is Some {
                None
            } else {
                Some(AudioFault::NoBitrate)
            },
        }
    }
}

/// The first fault under the rules for codecs, from rule `i` on.
pub open spec fn codec_rule_fault(c: AudioConfig, i: int) -> Option<AudioFault>
    decreases c.codec_rules@.len() - i,
{
    if i < 0 || i >= c.codec_rules@.len() {
        None
    } else if rule_fault(c, Some(c.codec_rules@[i].1)) is Some {
        rule_fault(c, Some(c.codec_rules@[i].1))
    } else {
        codec_rule_fault(c, i + 1)
    }
}

/// What is wrong with the audio of a profile: of the profile itself, of the rule for lossless
/// tracks, or of the rules for codecs.
pub open spec fn audio_fault(c: AudioConfig) -> Option<AudioFault> {
    if rule_fault(c, None) is Some {
        rule_fault(c, None)
    } else if c.lossless is Some && rule_fault(c, c.lossless) is Some {
        rule_fault(c, c.lossless)
    } else {
        codec_rule_fault(c, 0)
    }
}

impl AudioConfig {
    fn check_rule(&self, rule: Option<&AudioRule>) -> (r: Option<AudioFault>)
        ensures
            r == rule_fault(*self, rule_of(rule)),
    {
        let resolved = self.under_rule(rule);
        if matches!(resolved.mode, AudioMode::Copy) {
            return None;
        }
        match resolved.codec {
            None => Some(AudioFault::NoCodec),
            Some(codec) => {
                if output_is_lossless(codec.as_str()) || resolved.bitrate.is_some() {
                    None
                } else {
                    Some(AudioFault::NoBitrate)
                }
            },
        }
    }

    /// Refuses audio that cannot be encoded as the profile says.
    pub fn check(&self) -> (r: Result<(), AudioFault>)
        ensures
            match r {
                Ok(()) => audio_fault(*self) is None,
                Err(e) => audio_fault(*self) == Some(e),
            },
    {
        if let Some(fault) = self.check_rule(None) {
            return Err(fault);
        }
        if let Some(rule) = &self.lossless {
            if let Some(fault) = self.check_rule(Some(rule)) {
                return Err(fault);
            }
        }
        let mut i: usize = 0;
        while i < self.codec_rules.len()
            invariant
                i <= self.codec_rules@.len(),
                audio_fault(*self) == codec_rule_fault(*self, i as int),
            decreases self.codec_rules@.len() - i,
        {
            if let Some(fault) = self.check_rule(Some(&self.codec_rules[i].1)) {
                return Err(fault);
            }
            i = i + 1;
        }
        Ok(())
    }
}

/// A profile is accepted exactly when it can be carried out: video that is encoded has an
/// encoder, sizes and lengths are not below their least, a depth is 8 or 10 and 10 under Dolby
/// Vision, and a quality is looked for in a range of rates, with probes that it takes, where
/// nothing else decides on the rate and source and encode have one size.
pub proof fn law_accepted_profiles_can_be_carried_out(
    config: Config,
    avet: AvetConfig,
    scenes: SceneDetectionConfig,
    quality: Option<QualityRange>,
)
    ensures
        profile_fault(config, avet, scenes, quality) is None <==> {
            &&& avet.video == VideoMode::Encode ==> config.encoder is Some
            &&& avet.scale matches Some(h) ==> h >= 64
            &&& avet.bit_depth matches Some(d) ==> d == 10 || (d == 8 && !avet.dv)
            &&& scenes.min_scene_len >= 1
            &&& scenes.extra_split == 0 || scenes.extra_split >= 24
            &&& scenes.downscale_height matches Some(h) ==> h >= 64
            &&& quality matches Some(q) ==> {
                &&& avet.video == VideoMode::Encode && avet.scale is None
                &&& 1 <= q.min_crf < q.max_crf <= 70
                &&& 2 <= q.min_probes <= q.max_probes
                &&& q.probe_preset <= 13
                &&& forall|i: int|
                    0 <= i < config.encoder_params@.len() ==> {
                        let p = #[trigger] config.encoder_params@[i];
                        p.0@ != "tbr"@ && (p.0@ == "rc"@ ==> param_text(p.1) == "0"@)
                    }
            }
        },
{
    let params = config.encoder_params@;
    if has_param(params, "tbr"@) {
        let i = choose|i: int| 0 <= i < params.len() && (#[trigger] params[i]).0@ == "tbr"@;
        assert(params[i].0@ == "tbr"@);
    }
    if controls_rate(params) {
        let i = choose|i: int|
            0 <= i < params.len() && (#[trigger] params[i]).0@ == "rc"@ && param_text(params[i].1)
                != "0"@;
        assert(params[i].0@ == "rc"@);
    }
    if quality is Some && !has_param(params, "tbr"@) && !controls_rate(params) {
        assert forall|i: int| 0 <= i < params.len() implies {
            let p = #[trigger] params[i];
            p.0@ != "tbr"@ && (p.0@ == "rc"@ ==> param_text(p.1) == "0"@)
        } by {}
    }
}

/// The audio of a profile is accepted exactly when whatever is encoded under it has a codec,
/// and a bitrate where that codec loses anything.
pub proof fn law_audio_faults_are_found(c: AudioConfig)
    ensures
        audio_fault(c) is None <==> {
            &&& encodable(c, None)
            &&& c.lossless is Some ==> encodable(c, c.lossless)
            &&& forall|i: int|
                0 <= i < c.codec_rules@.len() ==> encodable(
                    c,
                    Some((#[trigger] c.codec_rules@[i]).1),
                )
        },
{
    lemma_codec_rule_fault(c, 0);
}

/// Nothing is encoded, or it has a codec, and a bitrate where that takes one.
pub open spec fn encodable(c: AudioConfig, rule: Option<AudioRule>) -> bool {
    resolved_mode(c, rule) == AudioMode::Encode ==> resolved_codec(c, rule) is Some && (
    lossless_encoder(resolved_codec(c, rule)->0@) || resolved_bitrate(c, rule) is Some)
}

proof fn lemma_codec_rule_fault(c: AudioConfig, i: int)
    requires
        0 <= i,
    ensures
        codec_rule_fault(c, i) is None <==> forall|k: int|
            i <= k < c.codec_rules@.len() ==> encodable(c, Some((#[trigger] c.codec_rules@[k]).1)),
    decreases c.codec_rules@.len() - i,
{
    if i < c.codec_rules@.len() {
        lemma_codec_rule_fault(c, i + 1);
        let first = c.codec_rules@[i];
        assert(rule_fault(c, Some(first.1)) is None <==> encodable(c, Some(first.1)));
    }
}

/// Under a profile that is accepted, every track that is encoded has a codec, and a bitrate
/// where the codec loses anything.
pub proof fn law_accepted_audio_can_be_encoded(c: AudioConfig, codec: Seq<char>, lossless: bool)
    requires
        audio_fault(c) is None,
    ensures
        rule_fault(c, rule_for(c, codec, lossless)) is None,
{
    lemma_codec_rule_sound(c, codec, 0);
}

proof fn lemma_codec_rule_sound(c: AudioConfig, codec: Seq<char>, i: int)
    requires
        0 <= i,
        codec_rule_fault(c, i) is None,
    ensures
        codec_rule(c.codec_rules@, codec, i) is Some ==> rule_fault(
            c,
            codec_rule(c.codec_rules@, codec, i),
        ) is None,
    decreases c.codec_rules@.len() - i,
{
    if i < c.codec_rules@.len() {
        lemma_codec_rule_sound(c, codec, i + 1);
    }
}

/// The languages that ISO 639-2 gives two codes: the bibliographic one, then that of
/// terminology.
pub open spec fn two_codes() -> Seq<(Seq<char>, Seq<char>)> {
    seq![
        ("alb"@, "sqi"@),
        ("arm"@, "hye"@),
        ("baq"@, "eus"@),
        ("bur"@, "mya"@),
        ("chi"@, "zho"@),
        ("cze"@, "ces"@),
        ("dut"@, "nld"@),
        ("fre"@, "fra"@),
        ("geo"@, "kat"@),
        ("ger"@, "deu"@),
        ("gre"@, "ell"@),
        ("ice"@, "isl"@),
        ("mac"@, "mkd"@),
        ("mao"@, "mri"@),
        ("may"@, "msa"@),
        ("per"@, "fas"@),
        ("rum"@, "ron"@),
        ("slo"@, "slk"@),
        ("tib"@, "bod"@),
        ("wel"@, "cym"@),
    ]
}

/// Each of these languages is the same under both of its codes, in the whitelist and on a
/// track, and its code of terminology is its own.
pub proof fn law_languages_with_two_codes_are_one(k: int, whitelist: Seq<Seq<char>>)
    requires
        0 <= k < two_codes().len(),
    ensures
        ({
            let (a, b) = two_codes()[k];
            &&& terminology_code(a) == b && terminology_code(b) == b
            &&& whitelist.contains(a) ==> language_kept(whitelist, Some(b))
            &&& whitelist.contains(b) ==> language_kept(whitelist, Some(a))
        }),
{
    lemma_codes(k);
    let (a, b) = two_codes()[k];
    assert(same_language(a, b) && same_language(b, a));
    if whitelist.contains(a) {
        let i = choose|i: int| 0 <= i < whitelist.len() && whitelist[i] == a;
        assert(same_language(whitelist[i], b));
    }
    if whitelist.contains(b) {
        let i = choose|i: int| 0 <= i < whitelist.len() && whitelist[i] == b;
        assert(same_language(whitelist[i], a));
    }
}

proof fn lemma_codes(k: int)
    requires
        0 <= k < two_codes().len(),
    ensures
        terminology_code(two_codes()[k].0) == two_codes()[k].1,
        terminology_code(two_codes()[k].1) == two_codes()[k].1,
{
    reveal_strlit("alb");
    reveal_strlit("arm");
    reveal_strlit("baq");
    reveal_strlit("bur");
    reveal_strlit("chi");
    reveal_strlit("cze");
    reveal_strlit("dut");
    reveal_strlit("fre");
    reveal_strlit("geo");
    reveal_strlit("ger");
    reveal_strlit("gre");
    reveal_strlit("ice");
    reveal_strlit("mac");
    reveal_strlit("mao");
    reveal_strlit("may");
    reveal_strlit("per");
    reveal_strlit("rum");
    reveal_strlit("slo");
    reveal_strlit("tib");
    reveal_strlit("wel");
    reveal_strlit("sqi");
    reveal_strlit("hye");
    reveal_strlit("eus");
    reveal_strlit("mya");
    reveal_strlit("zho");
    reveal_strlit("ces");
    reveal_strlit("nld");
    reveal_strlit("fra");
    reveal_strlit("kat");
    reveal_strlit("deu");
    reveal_strlit("ell");
    reveal_strlit("isl");
    reveal_strlit("mkd");
    reveal_strlit("mri");
    reveal_strlit("msa");
    reveal_strlit("fas");
    reveal_strlit("ron");
    reveal_strlit("slk");
    reveal_strlit("bod");
    reveal_strlit("cym");
    assert(outline("alb"@) == (3nat, 'a', 'a', 'l', 'b'));
    assert(outline("arm"@) == (3nat, 'a', 'a', 'r', 'm'));
    assert(outline("baq"@) == (3nat, 'b', 'b', 'a', 'q'));
    assert(outline("bur"@) == (3nat, 'b', 'b', 'u', 'r'));
    assert(outline("chi"@) == (3nat, 'c', 'c', 'h', 'i'));
    assert(outline("cze"@) == (3nat, 'c', 'c', 'z', 'e'));
    assert(outline("dut"@) == (3nat, 'd', 'd', 'u', 't'));
    assert(outline("fre"@) == (3nat, 'f', 'f', 'r', 'e'));
    assert(outline("geo"@) == (3nat, 'g', 'g', 'e', 'o'));
    assert(outline("ger"@) == (3nat, 'g', 'g', 'e', 'r'));
    assert(outline("gre"@) == (3nat, 'g', 'g', 'r', 'e'));
    assert(outline("ice"@) == (3nat, 'i', 'i', 'c', 'e'));
    assert(outline("mac"@) == (3nat, 'm', 'm', 'a', 'c'));
    assert(outline("mao"@) == (3nat, 'm', 'm', 'a', 'o'));
    assert(outline("may"@) == (3nat, 'm', 'm', 'a', 'y'));
    assert(outline("per"@) == (3nat, 'p', 'p', 'e', 'r'));
    assert(outline("rum"@) == (3nat, 'r', 'r', 'u', 'm'));
    assert(outline("slo"@) == (3nat, 's', 's', 'l', 'o'));
    assert(outline("tib"@) == (3nat, 't', 't', 'i', 'b'));
    assert(outline("wel"@) == (3nat, 'w', 'w', 'e', 'l'));
    assert(outline("sqi"@) == (3nat, 's', 's', 'q', 'i'));
    assert(outline("hye"@) == (3nat, 'h', 'h', 'y', 'e'));
    assert(outline("eus"@) == (3nat, 'e', 'e', 'u', 's'));
    assert(outline("mya"@) == (3nat, 'm', 'm', 'y', 'a'));
    assert(outline("zho"@) == (3nat, 'z', 'z', 'h', 'o'));
    assert(outline("ces"@) == (3nat, 'c', 'c', 'e', 's'));
    assert(outline("nld"@) == (3nat, 'n', 'n', 'l', 'd'));
    assert(outline("fra"@) == (3nat, 'f', 'f', 'r', 'a'));
    assert(outline("kat"@) == (3nat, 'k', 'k', 'a', 't'));
    assert(outline("deu"@) == (3nat, 'd', 'd', 'e', 'u'));
    assert(outline("ell"@) == (3nat, 'e', 'e', 'l', 'l'));
    assert(outline("isl"@) == (3nat, 'i', 'i', 's', 'l'));
    assert(outline("mkd"@) == (3nat, 'm', 'm', 'k', 'd'));
    assert(outline("mri"@) == (3nat, 'm', 'm', 'r', 'i'));
    assert(outline("msa"@) == (3nat, 'm', 'm', 's', 'a'));
    assert(outline("fas"@) == (3nat, 'f', 'f', 'a', 's'));
    assert(outline("ron"@) == (3nat, 'r', 'r', 'o', 'n'));
    assert(outline("slk"@) == (3nat, 's', 's', 'l', 'k'));
    assert(outline("bod"@) == (3nat, 'b', 'b', 'o', 'd'));
    assert(outline("cym"@) == (3nat, 'c', 'c', 'y', 'm'));
}

/// The encoders that keep samples exact, the ones for PCM aside.
pub open spec fn exact_encoders() -> Seq<Seq<char>> {
    seq!["flac"@, "alac"@, "wavpack"@, "tta"@, "truehd"@, "mlp"@]
}

/// An encoder takes no bitrate where it is one of these or one for PCM.
pub proof fn law_exact_encoders_take_no_bitrate(codec: Seq<char>)
    ensures
        lossless_encoder(codec) <==> has_prefix(codec, "pcm_"@) || exists|i: int|
            0 <= i < exact_encoders().len() && #[trigger] exact_encoders()[i] == codec,
{
    let all = exact_encoders();
    assert(all[0] == "flac"@);
    assert(all[1] == "alac"@);
    assert(all[2] == "wavpack"@);
    assert(all[3] == "tta"@);
    assert(all[4] == "truehd"@);
    assert(all[5] == "mlp"@);
}

/// What holds for a track is what its rule says, and the profile where that is silent.
pub proof fn law_track_gets_what_its_rule_says(
    c: AudioConfig,
    rule: Option<AudioRule>,
    r: ResolvedAudio,
)
    requires
        resolves_to(c, rule, r),
    ensures
        r.mode == resolved_mode(c, rule),
        r.codec is Some ==> resolved_codec(c, rule) == Some(*r.codec->0),
        r.codec is None ==> resolved_codec(c, rule) is None,
        r.bitrate is Some ==> resolved_bitrate(c, rule) == Some(*r.bitrate->0),
        r.bitrate is None ==> resolved_bitrate(c, rule) is None,
        r.options@ == resolved_options(c, rule),
{
}

} // verus!
