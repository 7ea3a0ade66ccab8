//! The arguments of an encode, and what is made of how it went.
use crate::av1::{
    byte_strings, insert_t35_metadata, message_lists, messages_fit, with_t35_metadata, Av1Error,
};
use crate::bytes::push_all;
use crate::config::{
    has_param, law_parameters_are_passed_on, param_args, param_text, Config, Encoder,
};
use crate::crop::Crop;
use crate::hdr::{
    frame_messages, geometry_ok, t35_messages, DynamicHdr, FrameHdrMetadata, Geometry, HdrError,
};
use crate::hevc::{frame_message, frames_ok, message_view, FramesView, Hdr10PlusFrames};
use crate::job::Cause;
use crate::resume::{five_digits, SceneEntry};
use crate::text::{
    decimal, decimal_string, from_chars, gives, lemma_gives_at, lemma_gives_joined,
    parse_unsigned, part, push_decimal, push_two, push_words, same, strings, text_of, to_chars,
    unsigned,
};
use vstd::prelude::*;
use vstd::string::*;

verus! {

/// How a video is encoded, apart from its profile.
#[derive(Debug)]
pub struct EncodeOptions {
    /// The color description and HDR metadata as flags of the encoder, each with its value.
    pub hdr_args: Vec<String>,
    /// The keyframe interval; the profile's own comes first.
    pub keyint: Option<u32>,
    /// The output size; applied behind the crop.
    pub scale: Option<(u32, u32)>,
    /// The crop in source space, applied before scaling.
    pub crop: Option<Crop>,
    pub fps_num: u32,
    pub fps_den: u32,
    /// The bit depth of the encoder's input, 8 or 10; None passes the source through.
    pub target_bit_depth: Option<u8>,
    pub dynamic_hdr: DynamicHdr,
    /// Replaces the messages that the decoder gives, which get lost at every seek.
    pub hdr10plus_frames: Option<Hdr10PlusFrames>,
}

impl Default for EncodeOptions {
    fn default() -> (o: EncodeOptions)
        ensures
            o.hdr_args@.len() == 0,
            o.keyint is None,
            o.scale is None,
            o.crop is None,
            o.fps_num == 0,
            o.fps_den == 0,
            o.target_bit_depth is None,
            o.dynamic_hdr == (DynamicHdr { hdr10plus: false, dolby_vision: false }),
            o.hdr10plus_frames is None,
    {
        EncodeOptions {
            hdr_args: Vec::new(),
            keyint: None,
            scale: None,
            crop: None,
            fps_num: 0,
            fps_den: 0,
            target_bit_depth: None,
            dynamic_hdr: DynamicHdr { hdr10plus: false, dolby_vision: false },
            hdr10plus_frames: None,
        }
    }
}

pub open spec fn binary_name(enc: Encoder) -> Seq<char> {
    match enc {
        Encoder::SvtAv1 => "SvtAv1EncApp"@,
        Encoder::SvtAv1Hdr => "SvtAv1EncApp-hdr"@,
    }
}

pub fn encoder_binary(enc: Encoder) -> (s: &'static str)
    ensures
        s@ == binary_name(enc),
{
    match enc {
        Encoder::SvtAv1 => "SvtAv1EncApp",
        Encoder::SvtAv1Hdr => "SvtAv1EncApp-hdr",
    }
}

/// The first place of `flag` among arguments, or their number.
pub open spec fn flag_at(args: Seq<Seq<char>>, flag: Seq<char>) -> int
    decreases args.len(),
{
    if args.len() == 0 || args[0] == flag {
        0
    } else {
        1 + flag_at(args.drop_first(), flag)
    }
}

/// Arguments with the value of a flag replaced, or with the flag added at the end when it is
/// not there.
pub open spec fn with_arg(args: Seq<Seq<char>>, flag: Seq<char>, value: Seq<char>) -> Seq<
    Seq<char>,
> {
    let at = flag_at(args, flag);
    if at + 1 < args.len() {
        args.update(at + 1, value)
    } else {
        args + seq![flag, value]
    }
}

/// Replaces a `--flag value` pair in place, or appends it if absent.
pub fn set_arg(args: &mut Vec<String>, flag: &str, value: String)
    ensures
        strings(final(args)@) == with_arg(strings(old(args)@), flag@, value@),
{
    let ghost before = strings(args@);
    let mut i: usize = 0;
    assert(before.subrange(0, before.len() as int) =~= before);
    while i < args.len() && !same(args[i].as_str(), flag)
        invariant
            i <= args@.len(),
            before == strings(args@),
            flag_at(before, flag@) == i + flag_at(
                before.subrange(i as int, before.len() as int),
                flag@,
            ),
        decreases args@.len() - i,
    {
        proof {
            let rest = before.subrange(i as int, before.len() as int);
            assert(rest[0] == args@[i as int]@);
            assert(rest.drop_first() =~= before.subrange(i + 1, before.len() as int));
        }
        i = i + 1;
    }
    proof {
        let rest = before.subrange(i as int, before.len() as int);
        if i < args@.len() {
            assert(rest[0] == args@[i as int]@);
        }
        assert(flag_at(before, flag@) == i);
    }
    let ghost v = value@;
    if i < args.len() && args.len() - i > 1 {
        args.set(i + 1, value);
        assert(strings(args@) =~= before.update(i + 1, v));
    } else {
        args.push(flag.to_owned());
        args.push(value);
        assert(strings(args@) =~= before + seq![flag@, v]);
    }
}

/// A flag without its dashes.
pub open spec fn without_dashes(flag: Seq<char>) -> Seq<char>
    decreases flag.len(),
{
    if flag.len() > 0 && flag[0] == '-' {
        without_dashes(flag.drop_first())
    } else {
        flag
    }
}

fn trim_dashes(flag: &str) -> (key: String)
    ensures
        key@ == without_dashes(flag@),
{
    let chars = to_chars(flag);
    let mut from: usize = 0;
    assert(chars@.subrange(0, chars@.len() as int) =~= chars@);
    while from < chars.len() && chars[from] == '-'
        invariant
            from <= chars@.len(),
            without_dashes(chars@.subrange(from as int, chars@.len() as int)) == without_dashes(
                chars@,
            ),
        decreases chars@.len() - from,
    {
        assert(chars@.subrange(from as int, chars@.len() as int).drop_first() =~= chars@.subrange(
            from + 1,
            chars@.len() as int,
        ));
        from = from + 1;
    }
    let rest = part(chars.as_slice(), from, chars.len());
    from_chars(rest.as_slice())
}

/// The first `n` pairs of flags and values that the profile does not set itself.
pub open spec fn auto_args(
    hdr_args: Seq<Seq<char>>,
    n: nat,
    params: Seq<(String, crate::config::ParamValue)>,
) -> Seq<Seq<char>>
    decreases n,
{
    if n == 0 {
        Seq::empty()
    } else {
        let before = auto_args(hdr_args, (n - 1) as nat, params);
        let flag = hdr_args[2 * n - 2];
        if has_param(params, without_dashes(flag)) {
            before
        } else {
            before + seq![flag, hdr_args[2 * n - 1]]
        }
    }
}

/// The arguments of the profile, the HDR flags and the keyframe interval that it does not
/// set itself.
pub open spec fn merged_args(
    params: Seq<(String, crate::config::ParamValue)>,
    hdr_args: Seq<Seq<char>>,
    keyint: Option<u32>,
) -> Seq<Seq<char>> {
    let args = param_args(params) + auto_args(hdr_args, (hdr_args.len() / 2) as nat, params);
    match keyint {
        Some(k) => if has_param(params, "keyint"@) {
            args
        } else {
            args + seq!["--keyint"@, decimal(k as nat)]
        },
        None => args,
    }
}

/// What a profile sets reaches the encoder as it stands. What is known of the source is added
/// only where the profile says nothing of it, under its own flag; so is the keyframe interval.
pub proof fn law_profile_comes_before_what_is_known(
    params: Seq<(String, crate::config::ParamValue)>,
    hdr_args: Seq<Seq<char>>,
    keyint: Option<u32>,
)
    ensures
        ({
            let args = merged_args(params, hdr_args, keyint);
            &&& forall|i: int|
                0 <= i < params.len() ==> args[2 * i] == "--"@ + (#[trigger] params[i]).0@ && args[2
                    * i + 1] == param_text(params[i].1)
            &&& forall|i: int|
                #![trigger hdr_args[2 * i]]
                0 <= i < hdr_args.len() / 2 && !has_param(params, without_dashes(hdr_args[2 * i]))
                    ==> gives(args, hdr_args[2 * i], hdr_args[2 * i + 1])
            &&& forall|k: int|
                2 * params.len() <= k < args.len() && k % 2 == 0 ==> !has_param(
                    params,
                    without_dashes(#[trigger] args[k]),
                )
            &&& keyint is Some && !has_param(params, "keyint"@) ==> gives(
                args,
                "--keyint"@,
                decimal(keyint->0 as nat),
            )
        }),
{
    let own = param_args(params);
    let n = (hdr_args.len() / 2) as nat;
    let auto = auto_args(hdr_args, n, params);
    let args = merged_args(params, hdr_args, keyint);
    lemma_auto_args(hdr_args, n, params);
    lemma_gives_joined(own, auto);
    if params.len() > 0 {
        law_parameters_are_passed_on(params, 0);
    }
    assert(own.len() == 2 * params.len());
    assert forall|i: int| 0 <= i < params.len() implies args[2 * i] == "--"@ + (
    #[trigger] params[i]).0@ && args[2 * i + 1] == param_text(params[i].1) by {
        law_parameters_are_passed_on(params, i);
        lemma_param_pair(params, i);
        assert(args[2 * i] == own[2 * i] && args[2 * i + 1] == own[2 * i + 1]);
    }
    let tail = match keyint {
        Some(k) => if has_param(params, "keyint"@) {
            Seq::<Seq<char>>::empty()
        } else {
            seq!["--keyint"@, decimal(k as nat)]
        },
        None => Seq::<Seq<char>>::empty(),
    };
    assert(args =~= own + auto + tail);
    lemma_gives_joined(own + auto, tail);
    lemma_gives_at(tail, 0);
    assert(tail.len() > 0 ==> gives(tail, tail[0], tail[1]));
    assert forall|i: int|
        #![trigger hdr_args[2 * i]]
        0 <= i < hdr_args.len() / 2 && !has_param(
            params,
            without_dashes(hdr_args[2 * i]),
        ) implies gives(args, hdr_args[2 * i], hdr_args[2 * i + 1]) by {
        assert(gives(auto, hdr_args[2 * i], hdr_args[2 * i + 1]));
    }
    assert forall|k: int|
        2 * params.len() <= k < args.len() && k % 2 == 0 implies !has_param(
        params,
        without_dashes(#[trigger] args[k]),
    ) by {
        let j = k - own.len();
        if j < auto.len() {
            assert(args[k] == auto[j]);
        } else {
            assert(args[k] == tail[j - auto.len()]);
            lemma_keyint_flag();
        }
    }
}

proof fn lemma_keyint_flag()
    ensures
        without_dashes("--keyint"@) == "keyint"@,
{
    reveal_strlit("--keyint");
    reveal_strlit("keyint");
    let flag = "--keyint"@;
    reveal_with_fuel(without_dashes, 4);
    assert(flag.drop_first().drop_first() =~= "keyint"@);
}

proof fn lemma_param_pair(params: Seq<(String, crate::config::ParamValue)>, i: int)
    requires
        0 <= i < params.len(),
    ensures
        param_args(params)[2 * i + 1] == param_text(params[i].1),
    decreases params.len(),
{
    law_parameters_are_passed_on(params, i);
    let front = params.drop_last();
    if i < front.len() {
        lemma_param_pair(front, i);
        law_parameters_are_passed_on(front, i);
        assert(front[i] == params[i]);
        assert(param_args(params)[2 * i + 1] == param_args(front)[2 * i + 1]);
    } else {
        assert(param_args(params).last() == param_text(params[i].1));
    }
}

proof fn lemma_auto_args(
    hdr_args: Seq<Seq<char>>,
    n: nat,
    params: Seq<(String, crate::config::ParamValue)>,
)
    requires
        2 * n <= hdr_args.len(),
    ensures
        ({
            let auto = auto_args(hdr_args, n, params);
            &&& auto.len() % 2 == 0
            &&& forall|i: int|
                #![trigger hdr_args[2 * i]]
                0 <= i < n && !has_param(params, without_dashes(hdr_args[2 * i])) ==> gives(
                    auto,
                    hdr_args[2 * i],
                    hdr_args[2 * i + 1],
                )
            &&& forall|k: int|
                0 <= k < auto.len() && k % 2 == 0 ==> !has_param(
                    params,
                    without_dashes(#[trigger] auto[k]),
                )
        }),
    decreases n,
{
    if n > 0 {
        let before = auto_args(hdr_args, (n - 1) as nat, params);
        lemma_auto_args(hdr_args, (n - 1) as nat, params);
        let auto = auto_args(hdr_args, n, params);
        let flag = hdr_args[2 * n - 2];
        if !has_param(params, without_dashes(flag)) {
            let last = seq![flag, hdr_args[2 * n - 1]];
            lemma_gives_joined(before, last);
            lemma_gives_at(last, 0);
            assert(gives(last, last[0], last[1]));
            assert forall|i: int|
                #![trigger hdr_args[2 * i]]
                0 <= i < n && !has_param(params, without_dashes(hdr_args[2 * i])) implies gives(
                auto,
                hdr_args[2 * i],
                hdr_args[2 * i + 1],
            ) by {
                if i < n - 1 {
                    assert(gives(before, hdr_args[2 * i], hdr_args[2 * i + 1]));
                } else {
                    assert(hdr_args[2 * i] == flag && hdr_args[2 * i + 1] == hdr_args[2 * n - 1]);
                }
            }
            assert forall|k: int| 0 <= k < auto.len() && k % 2 == 0 implies !has_param(
                params,
                without_dashes(#[trigger] auto[k]),
            ) by {
                if k < before.len() {
                    assert(auto[k] == before[k]);
                }
            }
        } else {
            assert forall|i: int|
                #![trigger hdr_args[2 * i]]
                0 <= i < n && !has_param(params, without_dashes(hdr_args[2 * i])) implies gives(
                auto,
                hdr_args[2 * i],
                hdr_args[2 * i + 1],
            ) by {
                assert(i < n - 1) by {
                    if i == n - 1 {
                        assert(hdr_args[2 * i] == flag);
                    }
                }
            }
        }
    }
}

proof fn lemma_flag_at(args: Seq<Seq<char>>, flag: Seq<char>)
    ensures
        0 <= flag_at(args, flag) <= args.len(),
        flag_at(args, flag) < args.len() ==> args[flag_at(args, flag)] == flag,
        forall|k: int| 0 <= k < flag_at(args, flag) ==> #[trigger] args[k] != flag,
    decreases args.len(),
{
    if args.len() > 0 && args[0] != flag {
        let rest = args.drop_first();
        lemma_flag_at(rest, flag);
        assert forall|k: int| 0 <= k < flag_at(args, flag) implies #[trigger] args[k] != flag by {
            if k > 0 {
                assert(args[k] == rest[k - 1]);
            }
        }
        assert(flag_at(rest, flag) < rest.len() ==> rest[flag_at(rest, flag)] == args[flag_at(
            args,
            flag,
        )]);
    }
}

/// A probe's setting is in force: the flag is given with its value. Nothing else changes but
/// what stood behind the first such flag; where there is none, it comes last.
pub proof fn law_setting_replaces_only_its_own(
    args: Seq<Seq<char>>,
    flag: Seq<char>,
    value: Seq<char>,
)
    ensures
        ({
            let out = with_arg(args, flag, value);
            &&& gives(out, flag, value)
            &&& args.len() <= out.len()
            &&& forall|i: int|
                0 <= i < args.len() && #[trigger] out[i] != args[i] ==> i > 0 && args[i - 1] == flag
                    && forall|k: int| 0 <= k < i - 1 ==> #[trigger] args[k] != flag
            &&& out.len() > args.len() ==> out.len() == args.len() + 2 && forall|k: int|
                0 <= k && k + 1 < args.len() ==> #[trigger] args[k] != flag
        }),
{
    let out = with_arg(args, flag, value);
    let at = flag_at(args, flag);
    lemma_flag_at(args, flag);
    if at + 1 < args.len() {
        lemma_gives_at(out, at);
        assert(out[at] == flag && out[at + 1] == value);
    } else {
        lemma_gives_at(out, args.len() as int);
        assert(out[args.len() as int] == flag && out[args.len() as int + 1] == value);
    }
}

/// Profile arguments plus HDR flags and keyframe interval, unless the profile already sets
/// them.
pub fn merged_encoder_args(config: &Config, opts: &EncodeOptions) -> (args: Vec<String>)
    ensures
        strings(args@) == merged_args(
            config.encoder_params@,
            strings(opts.hdr_args@),
            opts.keyint,
        ),
{
    let mut args = config.encoder_args();
    let ghost params = config.encoder_params@;
    let ghost own = strings(args@);
    let ghost hdr = strings(opts.hdr_args@);
    let len: usize = opts.hdr_args.len();
    let pairs: usize = len / 2;
    let mut n: usize = 0;
    assert(strings(args@) =~= own + auto_args(hdr, 0, params));
    while n < pairs
        invariant
            n <= pairs,
            pairs == len / 2,
            len == opts.hdr_args@.len(),
            hdr == strings(opts.hdr_args@),
            params == config.encoder_params@,
            strings(args@) == own + auto_args(hdr, n as nat, params),
        decreases pairs - n,
    {
        let ghost before = strings(args@);
        let flag = &opts.hdr_args[2 * n];
        let value = &opts.hdr_args[2 * n + 1];
        assert(hdr[2 * n] == flag@ && hdr[2 * n + 1] == value@);
        let key = trim_dashes(flag.as_str());
        if !config.has_param(key.as_str()) {
            args.push(flag.clone());
            args.push(value.clone());
            assert(strings(args@) =~= before + seq![flag@, value@]);
        }
        n = n + 1;
        assert(strings(args@) =~= own + auto_args(hdr, n as nat, params));
    }
    if let Some(keyint) = opts.keyint {
        if !config.has_param("keyint") {
            let ghost before = strings(args@);
            let value = decimal_string(keyint as u64);
            let ghost v = value@;
            args.push("--keyint".to_owned());
            args.push(value);
            assert(strings(args@) =~= before + seq!["--keyint"@, v]);
        }
    }
    args
}

/// The arguments that encode a chunk to `output_path`.
pub fn build_encoder_args(config: &Config, output_path: &str, opts: &EncodeOptions) -> (args: Vec<
    String,
>)
    ensures
        strings(args@) == seq!["-b"@, output_path@] + merged_args(
            config.encoder_params@,
            strings(opts.hdr_args@),
            opts.keyint,
        ),
{
    let mut args: Vec<String> = Vec::new();
    args.push("-b".to_owned());
    args.push(output_path.to_owned());
    let ghost head = strings(args@);
    let mut rest = merged_encoder_args(config, opts);
    let ghost tail = strings(rest@);
    args.append(&mut rest);
    assert(strings(args@) =~= head + tail);
    assert(head =~= seq!["-b"@, output_path@]);
    args
}

/// The arguments of one encode: those of the chunk with the CRF and preset of a probe in
/// place of the profile's.
pub fn override_args(args: Vec<String>, crf: Option<String>, preset: Option<u32>) -> (out: Vec<
    String,
>)
    ensures
        ({
            let with_crf = match crf {
                Some(c) => with_arg(strings(args@), "--crf"@, c@),
                None => strings(args@),
            };
            strings(out@) == match preset {
                Some(p) => with_arg(with_crf, "--preset"@, decimal(p as nat)),
                None => with_crf,
            }
        }),
        preset matches Some(p) ==> gives(strings(out@), "--preset"@, decimal(p as nat)),
        crf is Some && preset is None ==> gives(strings(out@), "--crf"@, crf->0@),
        crf is None && preset is None ==> strings(out@) == strings(args@),
{
    let ghost before = strings(args@);
    let ghost wanted = crf;
    let mut out = args;
    if let Some(c) = crf {
        set_arg(&mut out, "--crf", c);
        proof {
            law_setting_replaces_only_its_own(before, "--crf"@, wanted->0@);
        }
    }
    let ghost mid = strings(out@);
    if let Some(p) = preset {
        set_arg(&mut out, "--preset", decimal_string(p as u64));
        proof {
            law_setting_replaces_only_its_own(mid, "--preset"@, decimal(p as nat));
        }
    }
    out
}

// ---------------------------------------------------------------------------
// Dynamic metadata of a chunk
// ---------------------------------------------------------------------------
/// The message of a table for frame `i`; none behind its end.
pub open spec fn table_message(table: FramesView, i: int) -> Option<Seq<u8>> {
    if i < table.frames.len() {
        frame_message(table, i)
    } else {
        None
    }
}

fn copy_bytes(bytes: &[u8]) -> (v: Vec<u8>)
    ensures
        v@ == bytes@,
{
    let mut v: Vec<u8> = Vec::new();
    push_all(&mut v, bytes);
    assert(v@ =~= bytes@);
    v
}

/// Puts the messages of a table in place of those that the decoder gave, from frame `from`
/// of the table on.
pub fn replace_hdr10plus(frames: &mut Vec<FrameHdrMetadata>, table: &Hdr10PlusFrames, from: usize)
    requires
        frames_ok(table@),
        from + old(frames)@.len() <= usize::MAX,
    ensures
        final(frames)@.len() == old(frames)@.len(),
        forall|i: int|
            0 <= i < old(frames)@.len() ==> (#[trigger] final(frames)@[i]).dovi_rpu == old(
                frames,
            )@[i].dovi_rpu && message_view(final(frames)@[i].hdr10plus) == table_message(
                table@,
                from + i,
            ),
{
    let ghost start = frames@;
    let n: usize = frames.len();
    let known: usize = table.frames.len();
    let mut i: usize = 0;
    while i < n
        invariant
            i <= n == frames@.len(),
            n == start.len(),
            known == table@.frames.len(),
            frames_ok(table@),
            from + n <= usize::MAX,
            forall|k: int|
                0 <= k < n ==> (#[trigger] frames@[k]).dovi_rpu == start[k].dovi_rpu,
            forall|k: int|
                0 <= k < i ==> message_view((#[trigger] frames@[k]).hdr10plus) == table_message(
                    table@,
                    from + k,
                ),
        decreases n - i,
    {
        let message: Option<Vec<u8>> = if from + i < known {
            match table.message(from + i) {
                Some(m) => Some(copy_bytes(m.as_slice())),
                None => None,
            }
        } else {
            None
        };
        let f = &mut frames[i];
        f.hdr10plus = message;
        i = i + 1;
    }
}

/// The messages of the first `n` frames, or the first error among them.
pub open spec fn messages_of(
    frames: Seq<FrameHdrMetadata>,
    carry: DynamicHdr,
    g: Geometry,
    n: nat,
) -> Result<Seq<Seq<Seq<u8>>>, HdrError>
    decreases n,
{
    if n == 0 {
        Ok(Seq::empty())
    } else {
        match messages_of(frames, carry, g, (n - 1) as nat) {
            Err(e) => Err(e),
            Ok(before) => match frame_messages(
                message_view(frames[n - 1].dovi_rpu),
                message_view(frames[n - 1].hdr10plus),
                carry,
                g,
            ) {
                Err(e) => Err(e),
                Ok(m) => Ok(before.push(m)),
            },
        }
    }
}

proof fn lemma_error_stays(frames: Seq<FrameHdrMetadata>, carry: DynamicHdr, g: Geometry, a: nat, b: nat)
    requires
        a <= b,
        messages_of(frames, carry, g, a) is Err,
    ensures
        messages_of(frames, carry, g, b) == messages_of(frames, carry, g, a),
    decreases b,
{
    if a < b {
        lemma_error_stays(frames, carry, g, a, (b - 1) as nat);
    }
}

/// Every frame of a chunk gets its own messages, in their order; the first frame whose
/// metadata cannot be carried over fails the chunk.
pub proof fn law_each_frame_has_its_own_messages(
    frames: Seq<FrameHdrMetadata>,
    carry: DynamicHdr,
    g: Geometry,
    n: nat,
)
    requires
        n <= frames.len(),
    ensures
        match messages_of(frames, carry, g, n) {
            Ok(m) => m.len() == n && forall|i: int|
                0 <= i < n ==> own_messages(#[trigger] frames[i], carry, g) == Ok::<_, HdrError>(
                    m[i],
                ),
            Err(e) => exists|i: int|
                0 <= i < n && own_messages(#[trigger] frames[i], carry, g) == Err::<
                    Seq<Seq<u8>>,
                    _,
                >(e) && forall|j: int|
                    0 <= j < i ==> own_messages(#[trigger] frames[j], carry, g) is Ok,
        },
    decreases n,
{
    if n > 0 {
        let m = (n - 1) as nat;
        law_each_frame_has_its_own_messages(frames, carry, g, m);
        if let Ok(before) = messages_of(frames, carry, g, m) {
            let last = own_messages(frames[n - 1], carry, g);
            if let Ok(all) = messages_of(frames, carry, g, n) {
                assert forall|i: int| 0 <= i < n implies own_messages(
                    #[trigger] frames[i],
                    carry,
                    g,
                ) == Ok::<_, HdrError>(all[i]) by {
                    if i < m {
                        assert(all[i] == before[i]);
                    }
                }
            } else {
                assert(own_messages(frames[n - 1], carry, g) is Err);
            }
        }
    }
}

/// The messages of one frame.
pub open spec fn own_messages(frame: FrameHdrMetadata, carry: DynamicHdr, g: Geometry) -> Result<
    Seq<Seq<u8>>,
    HdrError,
> {
    frame_messages(message_view(frame.dovi_rpu), message_view(frame.hdr10plus), carry, g)
}

/// The messages of each frame of a chunk.
pub fn chunk_messages(frames: &[FrameHdrMetadata], carry: DynamicHdr, geometry: Geometry) -> (r:
    Result<Vec<Vec<Vec<u8>>>, HdrError>)
    requires
        geometry_ok(geometry),
    ensures
        match r {
            Ok(m) => messages_of(frames@, carry, geometry, frames@.len()) == Ok::<_, HdrError>(
                message_lists(m@),
            ),
            Err(e) => messages_of(frames@, carry, geometry, frames@.len()) == Err::<
                Seq<Seq<Seq<u8>>>,
                _,
            >(e),
        },
{
    let mut all: Vec<Vec<Vec<u8>>> = Vec::new();
    let mut i: usize = 0;
    assert(message_lists(all@) =~= Seq::empty());
    while i < frames.len()
        invariant
            i <= frames@.len(),
            geometry_ok(geometry),
            messages_of(frames@, carry, geometry, i as nat) == Ok::<_, HdrError>(
                message_lists(all@),
            ),
        decreases frames@.len() - i,
    {
        match t35_messages(&frames[i], carry, geometry) {
            Ok(m) => {
                let ghost before = message_lists(all@);
                let ghost one = byte_strings(m@);
                all.push(m);
                assert(message_lists(all@) =~= before.push(one));
            },
            Err(e) => {
                proof {
                    lemma_error_stays(frames@, carry, geometry, (i + 1) as nat, frames@.len());
                }
                return Err(e);
            },
        }
        i = i + 1;
    }
    Ok(all)
}

/// Why the metadata of a chunk could not be put into it.
#[derive(Clone, Copy, Debug, PartialEq, Eq, Structural)]
pub enum InsertError {
    /// A frame's metadata cannot be carried over.
    Metadata(HdrError),
    /// A message is too long for its length to be counted.
    TooLong,
    /// The chunk cannot take them.
    Chunk(Av1Error),
}

/// Whether no frame has a message.
pub open spec fn all_empty(messages: Seq<Seq<Seq<u8>>>) -> bool {
    forall|i: int| 0 <= i < messages.len() ==> (#[trigger] messages[i]).len() == 0
}

/// Whether every message can be counted, with two bytes more.
pub open spec fn countable_messages(messages: Seq<Seq<Seq<u8>>>) -> bool {
    forall|i: int, j: int|
        0 <= i < messages.len() && 0 <= j < messages[i].len() ==> #[trigger] messages[i][j].len()
            + 2 <= usize::MAX
}

/// The chunk with these messages: unchanged where no frame has one.
pub open spec fn tagged_chunk(chunk: Seq<u8>, messages: Result<Seq<Seq<Seq<u8>>>, HdrError>) -> Result<
    Option<Seq<u8>>,
    InsertError,
> {
    match messages {
        Err(e) => Err(InsertError::Metadata(e)),
        Ok(m) => if all_empty(m) {
            Ok(None)
        } else if !countable_messages(m) {
            Err(InsertError::TooLong)
        } else {
            match with_t35_metadata(chunk, m) {
                Ok(out) => Ok(Some(out)),
                Err(e) => Err(InsertError::Chunk(e)),
            }
        },
    }
}

fn nothing_to_insert(messages: &[Vec<Vec<u8>>]) -> (r: bool)
    ensures
        r == all_empty(message_lists(messages@)),
{
    let ghost lists = message_lists(messages@);
    let mut i: usize = 0;
    while i < messages.len()
        invariant
            i <= messages@.len(),
            lists == message_lists(messages@),
            forall|k: int| 0 <= k < i ==> (#[trigger] lists[k]).len() == 0,
        decreases messages@.len() - i,
    {
        assert(lists[i as int].len() == messages@[i as int]@.len());
        if messages[i].len() > 0 {
            return false;
        }
        i = i + 1;
    }
    true
}

fn can_be_counted(messages: &[Vec<Vec<u8>>]) -> (r: bool)
    ensures
        r == countable_messages(message_lists(messages@)),
        r ==> messages_fit(messages@),
{
    let ghost lists = message_lists(messages@);
    let mut i: usize = 0;
    while i < messages.len()
        invariant
            i <= messages@.len(),
            lists == message_lists(messages@),
            forall|a: int, b: int|
                0 <= a < i && 0 <= b < lists[a].len() ==> #[trigger] lists[a][b].len() + 2
                    <= usize::MAX,
        decreases messages@.len() - i,
    {
        let frame = &messages[i];
        let mut j: usize = 0;
        while j < frame.len()
            invariant
                i < messages@.len(),
                j <= frame@.len(),
                *frame == messages@[i as int],
                lists == message_lists(messages@),
                forall|b: int|
                    0 <= b < j ==> #[trigger] lists[i as int][b].len() + 2 <= usize::MAX,
            decreases frame@.len() - j,
        {
            assert(lists[i as int][j as int] == frame@[j as int]@);
            if frame[j].len() > usize::MAX - 2 {
                assert(lists[i as int][j as int].len() + 2 > usize::MAX);
                return false;
            }
            j = j + 1;
        }
        i = i + 1;
    }
    proof {
        assert forall|a: int, b: int|
            0 <= a < messages@.len() && 0 <= b < messages@[a]@.len() implies #[trigger] messages@[a]@[b]@.len()
            + 2 <= usize::MAX by {
            assert(lists[a][b] == messages@[a]@[b]@);
        }
    }
    true
}

/// Puts the metadata of its frames into a chunk; None where there is nothing to insert.
pub fn insert_hdr_metadata(
    chunk: &[u8],
    frames: &[FrameHdrMetadata],
    carry: DynamicHdr,
    geometry: Geometry,
) -> (r: Result<Option<Vec<u8>>, InsertError>)
    requires
        geometry_ok(geometry),
    ensures
        ({
            let want = tagged_chunk(chunk@, messages_of(frames@, carry, geometry, frames@.len()));
            match r {
                Ok(out) => want == Ok::<_, InsertError>(message_view(out)),
                Err(e) => want == Err::<Option<Seq<u8>>, _>(e),
            }
        }),
{
    let messages = match chunk_messages(frames, carry, geometry) {
        Ok(m) => m,
        Err(e) => {
            return Err(InsertError::Metadata(e));
        },
    };
    if nothing_to_insert(messages.as_slice()) {
        return Ok(None);
    }
    if !can_be_counted(messages.as_slice()) {
        return Err(InsertError::TooLong);
    }
    match insert_t35_metadata(chunk, messages.as_slice()) {
        Ok(out) => Ok(Some(out)),
        Err(e) => Err(InsertError::Chunk(e)),
    }
}

/// A chunk whose frames carry nothing, or nothing that is carried over, stays as it is.
pub proof fn law_nothing_carried_changes_nothing(
    chunk: Seq<u8>,
    frames: Seq<FrameHdrMetadata>,
    g: Geometry,
    n: nat,
)
    requires
        n <= frames.len(),
    ensures
        ({
            let carry = DynamicHdr { hdr10plus: false, dolby_vision: false };
            &&& messages_of(frames, carry, g, n) is Ok
            &&& messages_of(frames, carry, g, n)->Ok_0.len() == n
            &&& tagged_chunk(chunk, messages_of(frames, carry, g, n)) == Ok::<
                Option<Seq<u8>>,
                InsertError,
            >(None)
        }),
    decreases n,
{
    if n > 0 {
        law_nothing_carried_changes_nothing(chunk, frames, g, (n - 1) as nat);
        let carry = DynamicHdr { hdr10plus: false, dolby_vision: false };
        let before = messages_of(frames, carry, g, (n - 1) as nat)->Ok_0;
        let now = messages_of(frames, carry, g, n)->Ok_0;
        assert(all_empty(before)) by {
            if !all_empty(before) {
                assert(tagged_chunk(chunk, messages_of(frames, carry, g, (n - 1) as nat))
                    != Ok::<Option<Seq<u8>>, InsertError>(None));
            }
        }
        assert forall|i: int| 0 <= i < now.len() implies (#[trigger] now[i]).len() == 0 by {
            if i < before.len() {
                assert(now[i] == before[i]);
            }
        }
    }
}

// ---------------------------------------------------------------------------
// How an encode went
// ---------------------------------------------------------------------------
/// The tool that an encode failed in.
#[derive(Clone, Copy, Debug, PartialEq, Eq, Structural)]
pub enum Tool {
    Encoder,
    Scaler,
}

/// The tool that is to blame: the encoder first, as it is its death that breaks the scaler's
/// pipe and never the other way round.
pub open spec fn tool_to_blame(encoder_ok: bool, scaler_ok: bool) -> Option<Tool> {
    if !encoder_ok {
        Some(Tool::Encoder)
    } else if !scaler_ok {
        Some(Tool::Scaler)
    } else {
        None
    }
}

pub fn failed_tool(encoder_ok: bool, scaler_ok: bool) -> (t: Option<Tool>)
    ensures
        t == tool_to_blame(encoder_ok, scaler_ok),
{
    if !encoder_ok {
        Some(Tool::Encoder)
    } else if !scaler_ok {
        Some(Tool::Scaler)
    } else {
        None
    }
}

/// A decode error behind the encoder's complaint. Not a broken pipe: that one is the
/// encoder's own death coming back, and naming it would blame the source for it. `error` is
/// what writing the frames failed with, and `causes` what is behind it.
pub fn feed_failure(error: Option<String>, causes: &[Cause]) -> (r: Option<String>)
    ensures
        text_of(r) == if causes@.contains(Cause::BrokenPipe) {
            None
        } else {
            text_of(error)
        },
{
    let mut i: usize = 0;
    while i < causes.len()
        invariant
            i <= causes@.len(),
            forall|k: int| 0 <= k < i ==> #[trigger] causes@[k] != Cause::BrokenPipe,
        decreases causes@.len() - i,
    {
        if causes[i] == Cause::BrokenPipe {
            assert(causes@[i as int] == Cause::BrokenPipe);
            return None;
        }
        i = i + 1;
    }
    error
}

/// Why an encoded chunk cannot be used.
#[derive(Clone, Copy, Debug, PartialEq, Eq, Structural)]
pub enum ChunkError {
    NotFound,
    Empty,
}

/// The size of an encoded chunk, by the size of its file.
pub fn chunk_size(len: Option<u64>) -> (r: Result<u64, ChunkError>)
    ensures
        r == match len {
            None => Err::<u64, ChunkError>(ChunkError::NotFound),
            Some(n) => if n == 0 {
                Err(ChunkError::Empty)
            } else {
                Ok(n)
            },
        },
{
    match len {
        None => Err(ChunkError::NotFound),
        Some(n) => {
            if n == 0 {
                Err(ChunkError::Empty)
            } else {
                Ok(n)
            }
        },
    }
}

/// How an encode came out.
#[derive(Debug)]
pub enum EncodeEnd {
    Done,
    /// Both tools are content, and yet not every frame reached them.
    NotFed(String),
    /// `what` names the tool and the chunk; `reading` is what failed before it, if the source
    /// is to blame.
    ToolFailed { tool: Tool, what: String, reading: Option<String> },
}

pub open spec fn tool_name(tool: Tool) -> Seq<char> {
    match tool {
        Tool::Encoder => "encoder"@,
        Tool::Scaler => "ffmpeg scaler"@,
    }
}

/// What is made of how the encode of a chunk ended. The tools come first: one that died early
/// turns the writing into a broken pipe. `error` is what writing the frames failed with, and
/// `causes` what is behind it.
pub fn encode_end(
    scene: &SceneEntry,
    encoder_ok: bool,
    scaler_ok: bool,
    error: Option<String>,
    causes: &[Cause],
) -> (end: EncodeEnd)
    requires
        scene.index < usize::MAX,
    ensures
        match (tool_to_blame(encoder_ok, scaler_ok), end) {
            (Some(t), EncodeEnd::ToolFailed { tool, what, reading }) => {
                &&& tool == t
                &&& what@ == tool_name(t) + " (chunk "@ + five_digits((scene.index + 1) as nat)
                    + ")"@
                &&& text_of(reading) == if causes@.contains(Cause::BrokenPipe) {
                    None
                } else {
                    text_of(error)
                }
            },
            (None, EncodeEnd::NotFed(e)) => text_of(error) == Some(e@),
            (None, EncodeEnd::Done) => error is None,
            _ => false,
        },
{
    match failed_tool(encoder_ok, scaler_ok) {
        Some(tool) => {
            let mut what = match tool {
                Tool::Encoder => "encoder",
                Tool::Scaler => "ffmpeg scaler",
            }.to_owned();
            what.append(" (chunk ");
            what.append(scene.padded_index().as_str());
            what.append(")");
            EncodeEnd::ToolFailed { tool, what, reading: feed_failure(error, causes) }
        },
        None => match error {
            Some(e) => EncodeEnd::NotFed(e),
            None => EncodeEnd::Done,
        },
    }
}

/// The filter of the scaler.
pub fn scaler_filter(w: u32, h: u32) -> (s: String)
    ensures
        s@ == "scale="@ + decimal(w as nat) + ":"@ + decimal(h as nat) + ":flags=lanczos"@,
{
    let mut s = "scale=".to_owned();
    push_decimal(&mut s, w as u64);
    s.append(":");
    push_decimal(&mut s, h as u64);
    s.append(":flags=lanczos");
    s
}

/// The arguments of the scaler, which passes Y4M on. Y4M of more than eight bits counts as
/// non-standard to ffmpeg.
pub fn scaler_args(w: u32, h: u32) -> (args: Vec<String>)
    ensures
        strings(args@) == seq![
            "-hide_banner"@,
            "-loglevel"@,
            "error"@,
            "-f"@,
            "yuv4mpegpipe"@,
            "-i"@,
            "pipe:0"@,
            "-vf"@,
            "scale="@ + decimal(w as nat) + ":"@ + decimal(h as nat) + ":flags=lanczos"@,
            "-strict"@,
            "-1"@,
            "-f"@,
            "yuv4mpegpipe"@,
            "pipe:1"@,
        ],
{
    let mut args: Vec<String> = Vec::new();
    push_words(
        &mut args,
        &["-hide_banner", "-loglevel", "error", "-f", "yuv4mpegpipe", "-i", "pipe:0"],
    );
    push_two(&mut args, "-vf", scaler_filter(w, h));
    push_words(&mut args, &["-strict", "-1", "-f", "yuv4mpegpipe", "pipe:1"]);
    args
}

/// The video frames of a file, by the packet count that ffprobe gives each video stream.
pub fn video_packet_count(streams: &[Option<String>]) -> (r: Option<u64>)
    ensures
        ({
            let count = if streams@.len() > 0 {
                match streams@[0] {
                    Some(s) => unsigned(s@, u64::MAX as nat),
                    None => None,
                }
            } else {
                None
            };
            match r {
                Some(n) => count == Some(n as nat),
                None => count is None,
            }
        }),
{
    if streams.len() == 0 {
        return None;
    }
    match &streams[0] {
        Some(s) => {
            let chars = to_chars(s.as_str());
            parse_unsigned(chars.as_slice(), 0xffff_ffff_ffff_ffff)
        },
        None => None,
    }
}

/// The encoder is blamed wherever it failed, and the scaler only where the encoder did not.
pub proof fn law_encoder_is_blamed_first(encoder_ok: bool, scaler_ok: bool)
    ensures
        tool_to_blame(encoder_ok, scaler_ok) is None <==> encoder_ok && scaler_ok,
        tool_to_blame(encoder_ok, scaler_ok) == Some(Tool::Encoder) <==> !encoder_ok,
{
}

/// A frame of a chunk has the message of its own frame in the table of the whole video.
pub proof fn law_table_is_read_at_the_frame(table: FramesView, from: int, i: int)
    requires
        0 <= from,
        0 <= i,
    ensures
        from + i < table.frames.len() ==> table_message(table, from + i) == (
        match table.frames[from + i] {
            Some(k) => Some(table.messages[k as int]),
            None => None,
        }),
        from + i >= table.frames.len() ==> table_message(table, from + i) is None,
{
}

} // verus!
