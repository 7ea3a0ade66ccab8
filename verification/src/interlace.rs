//! Interlaced video: what ffmpeg's idet counts, and what to make of it.
use crate::text::{
    char_lists, contains, decimal, decimal_string, find_from, first_at, is_digit, is_space,
    law_decimal_round_trip, lemma_first_at, lemma_first_is, lemma_first_word, lines, occurs,
    occurs_at, parse_unsigned, part, push_two, push_words, same, same_chars, split_lines,
    split_words, strings, to_chars, trim, trimmed, unsigned, words,
};
use vstd::prelude::*;
use vstd::string::*;

verus! {

/// Which field of a frame comes first.
#[derive(Clone, Copy, Debug, PartialEq, Eq, Structural)]
pub enum FieldOrder {
    Tff,
    Bff,
}

pub open spec fn order_name(order: FieldOrder) -> Seq<char> {
    match order {
        FieldOrder::Tff => "tff"@,
        FieldOrder::Bff => "bff"@,
    }
}

impl FieldOrder {
    /// The filter that deinterlaces. One frame out per frame in, so frame numbers, chunks
    /// and timestamps stay as they are.
    pub fn filter(self) -> (s: &'static str)
        ensures
            s@ == match self {
                FieldOrder::Tff => "bwdif=mode=send_frame:parity=tff:deint=all"@,
                FieldOrder::Bff => "bwdif=mode=send_frame:parity=bff:deint=all"@,
            },
    {
        match self {
            FieldOrder::Tff => "bwdif=mode=send_frame:parity=tff:deint=all",
            FieldOrder::Bff => "bwdif=mode=send_frame:parity=bff:deint=all",
        }
    }

    pub fn name(self) -> (s: &'static str)
        ensures
            s@ == order_name(self),
    {
        match self {
            FieldOrder::Tff => "tff",
            FieldOrder::Bff => "bff",
        }
    }
}

/// How many frames idet found of each kind.
#[derive(Clone, Copy, Debug, PartialEq, Eq, Structural)]
pub struct Counts {
    pub tff: u64,
    pub bff: u64,
    pub progressive: u64,
}

/// Fields of one order, at least 20 and four times those of the other.
pub open spec fn order_of(c: Counts) -> Option<FieldOrder> {
    let (major, minor, order) = if c.tff >= c.bff {
        (c.tff, c.bff, FieldOrder::Tff)
    } else {
        (c.bff, c.tff, FieldOrder::Bff)
    };
    if major >= 20 && major >= 4 * minor {
        Some(order)
    } else {
        None
    }
}

impl Default for Counts {
    fn default() -> (c: Counts)
        ensures
            c == (Counts { tff: 0, bff: 0, progressive: 0 }),
    {
        Counts { tff: 0, bff: 0, progressive: 0 }
    }
}

impl Counts {
    /// The field order of the video, or None when it is progressive. idet reads sharp
    /// progressive motion as either order at random; real fields come in one order.
    pub fn verdict(&self) -> (r: Option<FieldOrder>)
        ensures
            r == order_of(*self),
    {
        let (major, minor, order) = if self.tff >= self.bff {
            (self.tff, self.bff, FieldOrder::Tff)
        } else {
            (self.bff, self.tff, FieldOrder::Bff)
        };
        if major >= 20 && major / 4 >= minor {
            Some(order)
        } else {
            None
        }
    }
}

/// Whether ffprobe flags a stream as interlaced.
pub open spec fn interlaced_flag(field_order: Option<Seq<char>>) -> bool {
    match field_order {
        Some(f) => f == "tt"@ || f == "bb"@ || f == "tb"@ || f == "bt"@,
        None => false,
    }
}

pub fn flagged_interlaced(field_order: Option<&str>) -> (r: bool)
    ensures
        r == interlaced_flag(
            match field_order {
                Some(f) => Some(f@),
                None => None,
            },
        ),
{
    match field_order {
        Some(f) => same(f, "tt") || same(f, "bb") || same(f, "tb") || same(f, "bt"),
        None => false,
    }
}

/// The number behind the first `label` of a line, and in front of a second one; 0 when there
/// is none.
pub open spec fn labelled_count(line: Seq<char>, label: Seq<char>) -> nat {
    match first_at(line, label, 0) {
        None => 0,
        Some(at) => {
            let rest = line.subrange(at + label.len(), line.len() as int);
            let field = match first_at(rest, label, 0) {
                Some(end) => rest.subrange(0, end),
                None => rest,
            };
            if words(field).len() == 0 {
                0
            } else {
                match unsigned(words(field)[0], u64::MAX as nat) {
                    Some(n) => n,
                    None => 0,
                }
            }
        },
    }
}

/// The last line with idet's summary.
pub open spec fn last_summary(all: Seq<Seq<char>>) -> Option<Seq<char>>
    decreases all.len(),
{
    if all.len() == 0 {
        None
    } else if occurs(all.last(), "Multi frame detection:"@) {
        Some(all.last())
    } else {
        last_summary(all.drop_last())
    }
}

/// What idet reports.
pub open spec fn idet_counts(stderr: Seq<char>) -> Counts {
    match last_summary(lines(stderr)) {
        None => Counts { tff: 0, bff: 0, progressive: 0 },
        Some(line) => Counts {
            tff: labelled_count(line, "TFF:"@) as u64,
            bff: labelled_count(line, "BFF:"@) as u64,
            progressive: labelled_count(line, "Progressive:"@) as u64,
        },
    }
}

fn count(line: &[char], label: &str) -> (n: u64)
    ensures
        n == labelled_count(line@, label@),
{
    let l = to_chars(label);
    let at: usize = match find_from(line, l.as_slice(), 0) {
        Some(at) => at,
        None => {
            return 0;
        },
    };
    let len: usize = line.len();
    let rest = part(line, at + l.len(), len);
    let end: usize = match find_from(rest.as_slice(), l.as_slice(), 0) {
        Some(end) => end,
        None => rest.len(),
    };
    assert(rest@.subrange(0, rest@.len() as int) =~= rest@);
    let field = part(rest.as_slice(), 0, end);
    let found = split_words(field.as_slice());
    if found.len() == 0 {
        return 0;
    }
    assert(char_lists(found@)[0] == found@[0]@);
    match parse_unsigned(found[0].as_slice(), 0xffff_ffff_ffff_ffff) {
        Some(n) => n,
        None => 0,
    }
}

/// The counts of the last summary: ffmpeg can build the filter graph twice and report an
/// empty one first.
pub fn parse_idet(stderr: &str) -> (c: Counts)
    ensures
        c == idet_counts(stderr@),
{
    let chars = to_chars(stderr);
    let all = split_lines(chars.as_slice());
    let ghost views = char_lists(all@);
    let mut i: usize = all.len();
    assert(views.subrange(0, i as int) =~= views);
    while i > 0
        invariant
            i <= all@.len(),
            views == char_lists(all@),
            views == lines(stderr@),
            last_summary(views.subrange(0, i as int)) == last_summary(views),
        decreases i,
    {
        i = i - 1;
        proof {
            assert(views.subrange(0, i + 1).drop_last() =~= views.subrange(0, i as int));
            assert(views.subrange(0, i + 1).last() == all@[i as int]@);
        }
        let line = all[i].as_slice();
        if contains(line, "Multi frame detection:") {
            return Counts {
                tff: count(line, "TFF:"),
                bff: count(line, "BFF:"),
                progressive: count(line, "Progressive:"),
            };
        }
    }
    Counts { tff: 0, bff: 0, progressive: 0 }
}

/// The counts of several samples together.
pub open spec fn total_counts(samples: Seq<Counts>) -> (nat, nat, nat)
    decreases samples.len(),
{
    if samples.len() == 0 {
        (0, 0, 0)
    } else {
        let t = total_counts(samples.drop_last());
        let c = samples.last();
        (t.0 + c.tff as nat, t.1 + c.bff as nat, t.2 + c.progressive as nat)
    }
}

proof fn lemma_total_counts(samples: Seq<Counts>, n: int)
    requires
        0 <= n <= samples.len(),
    ensures
        total_counts(samples.subrange(0, n)).0 <= total_counts(samples).0,
        total_counts(samples.subrange(0, n)).1 <= total_counts(samples).1,
        total_counts(samples.subrange(0, n)).2 <= total_counts(samples).2,
    decreases samples.len(),
{
    if n < samples.len() {
        assert(samples.drop_last().subrange(0, n) =~= samples.subrange(0, n));
        lemma_total_counts(samples.drop_last(), n);
    } else {
        assert(samples.subrange(0, n) =~= samples);
    }
}

/// The field order that was kept: None for anything but the name of one.
pub open spec fn kept_order(cached: Seq<char>) -> Option<FieldOrder> {
    if trimmed(cached) == "tff"@ {
        Some(FieldOrder::Tff)
    } else if trimmed(cached) == "bff"@ {
        Some(FieldOrder::Bff)
    } else {
        None
    }
}

/// The field order of a video, and what to keep of it: from what an earlier run kept, else
/// from samples of a stream that is flagged interlaced.
pub fn detect(cached: Option<&str>, flagged: bool, samples: &[Counts]) -> (r: (
    Option<FieldOrder>,
    Option<&'static str>,
))
    requires
        total_counts(samples@).0 <= u64::MAX,
        total_counts(samples@).1 <= u64::MAX,
        total_counts(samples@).2 <= u64::MAX,
    ensures
        match cached {
            Some(c) => r.0 == kept_order(c@) && r.1 is None,
            None => if !flagged {
                r.0 is None && r.1 is None
            } else {
                let t = total_counts(samples@);
                &&& r.0 == order_of(
                    Counts { tff: t.0 as u64, bff: t.1 as u64, progressive: t.2 as u64 },
                )
                &&& r.1 matches Some(name) && name@ == match r.0 {
                    Some(o) => order_name(o),
                    None => "progressive"@,
                }
            },
        },
{
    if let Some(c) = cached {
        let chars = to_chars(c);
        let inner = trim(chars.as_slice());
        let tff = to_chars("tff");
        let bff = to_chars("bff");
        if same_chars(inner.as_slice(), tff.as_slice()) {
            return (Some(FieldOrder::Tff), None);
        }
        if same_chars(inner.as_slice(), bff.as_slice()) {
            return (Some(FieldOrder::Bff), None);
        }
        return (None, None);
    }
    if !flagged {
        return (None, None);
    }
    let mut total = Counts { tff: 0, bff: 0, progressive: 0 };
    let mut i: usize = 0;
    assert(samples@.subrange(0, 0) =~= Seq::empty());
    while i < samples.len()
        invariant
            i <= samples@.len(),
            total_counts(samples@).0 <= u64::MAX,
            total_counts(samples@).1 <= u64::MAX,
            total_counts(samples@).2 <= u64::MAX,
            total_counts(samples@.subrange(0, i as int)) == (
                total.tff as nat,
                total.bff as nat,
                total.progressive as nat,
            ),
        decreases samples@.len() - i,
    {
        let c = samples[i];
        proof {
            assert(samples@.subrange(0, i + 1).drop_last() =~= samples@.subrange(0, i as int));
            lemma_total_counts(samples@, i + 1);
        }
        total = Counts {
            tff: total.tff + c.tff,
            bff: total.bff + c.bff,
            progressive: total.progressive + c.progressive,
        };
        i = i + 1;
    }
    assert(samples@.subrange(0, i as int) =~= samples@);
    let order = total.verdict();
    let name = match order {
        Some(o) => o.name(),
        None => "progressive",
    };
    (order, Some(name))
}

/// What is kept reads back as what was found.
pub proof fn law_kept_order_reads_back(order: Option<FieldOrder>)
    ensures
        kept_order(
            match order {
                Some(o) => order_name(o),
                None => "progressive"@,
            },
        ) == order,
{
    reveal_strlit("tff");
    reveal_strlit("bff");
    reveal_strlit("progressive");
    assert("tff"@ != "bff"@) by {
        assert("tff"@[0] != "bff"@[0]);
    }
    assert("progressive"@.len() == 11);
}

/// Where in a video the samples are taken, in percent of its length.
pub fn sample_percents() -> (p: [u64; 3])
    ensures
        p@ == seq![20u64, 50, 80],
{
    [20, 50, 80]
}

/// The arguments of one run of idet, over 200 frames of the first video track.
pub fn idet_args(source: &str, seek_secs: u64) -> (args: Vec<String>)
    ensures
        strings(args@) == seq![
            "-hide_banner"@,
            "-nostdin"@,
            "-ss"@,
            decimal(seek_secs as nat),
            "-i"@,
            source@,
            "-map"@,
            "0:v:0"@,
            "-frames:v"@,
            "200"@,
            "-vf"@,
            "idet"@,
            "-f"@,
            "null"@,
            "-"@,
        ],
{
    let mut args: Vec<String> = Vec::new();
    push_words(&mut args, &["-hide_banner", "-nostdin"]);
    push_two(&mut args, "-ss", decimal_string(seek_secs));
    push_two(&mut args, "-i", source.to_owned());
    push_words(
        &mut args,
        &["-map", "0:v:0", "-frames:v", "200", "-vf", "idet", "-f", "null", "-"],
    );
    args
}

/// A video is taken for interlaced exactly when at least 20 frames are of one order, and four
/// times as many as of the other; which order that is, is told by those frames alone.
pub proof fn law_order_is_that_of_most_fields(c: Counts)
    ensures
        order_of(c) == Some(FieldOrder::Tff) <==> c.tff >= 20 && c.tff >= 4 * c.bff,
        order_of(c) == Some(FieldOrder::Bff) <==> c.bff >= 20 && c.bff >= 4 * c.tff,
        forall|progressive: u64|
            #[trigger] order_of(Counts { progressive, ..c }) == order_of(c),
{
}

/// Exchanging the orders exchanges the verdict.
pub proof fn law_orders_are_treated_alike(c: Counts)
    requires
        c.tff != c.bff,
    ensures
        order_of(Counts { tff: c.bff, bff: c.tff, progressive: c.progressive }) == match order_of(
            c,
        ) {
            Some(FieldOrder::Tff) => Some(FieldOrder::Bff),
            Some(FieldOrder::Bff) => Some(FieldOrder::Tff),
            None => None,
        },
{
}

/// The summary that counts is the last one, whatever stands behind it.
pub proof fn law_last_summary_counts(all: Seq<Seq<char>>)
    ensures
        match last_summary(all) {
            Some(line) => exists|i: int|
                0 <= i < all.len() && #[trigger] all[i] == line && occurs(
                    line,
                    "Multi frame detection:"@,
                ) && forall|j: int|
                    i < j < all.len() ==> !occurs(#[trigger] all[j], "Multi frame detection:"@),
            None => forall|i: int|
                0 <= i < all.len() ==> !occurs(#[trigger] all[i], "Multi frame detection:"@),
        },
    decreases all.len(),
{
    if all.len() > 0 {
        let front = all.drop_last();
        law_last_summary_counts(front);
        assert(forall|i: int| 0 <= i < front.len() ==> #[trigger] all[i] == front[i]);
        if let Some(line) = last_summary(all) {
            if occurs(all.last(), "Multi frame detection:"@) {
                assert(all[all.len() - 1] == line);
            } else {
                let i = choose|i: int|
                    0 <= i < front.len() && #[trigger] front[i] == line && occurs(
                        line,
                        "Multi frame detection:"@,
                    ) && forall|j: int|
                        i < j < front.len() ==> !occurs(
                            #[trigger] front[j],
                            "Multi frame detection:"@,
                        );
                assert(all[i] == line);
            }
        }
    }
}

/// Samples are counted together: each kind of frame on its own, all samples of it.
pub proof fn law_samples_add_up(a: Seq<Counts>, b: Seq<Counts>)
    ensures
        total_counts(a + b).0 == total_counts(a).0 + total_counts(b).0,
        total_counts(a + b).1 == total_counts(a).1 + total_counts(b).1,
        total_counts(a + b).2 == total_counts(a).2 + total_counts(b).2,
        forall|c: Counts| #[trigger]
            total_counts(seq![c]) == (c.tff as nat, c.bff as nat, c.progressive as nat),
    decreases b.len(),
{
    assert forall|c: Counts| #[trigger] total_counts(seq![c]) == (
        c.tff as nat,
        c.bff as nat,
        c.progressive as nat,
    ) by {
        reveal_with_fuel(total_counts, 2);
        assert(seq![c].drop_last() =~= Seq::empty());
    }
    if b.len() == 0 {
        assert(a + b =~= a);
    } else {
        law_samples_add_up(a, b.drop_last());
        assert((a + b).drop_last() =~= a + b.drop_last());
    }
}

/// A count is read as it was written: behind its label, whatever else the line holds.
pub proof fn law_count_is_read_behind_its_label(
    front: Seq<char>,
    label: Seq<char>,
    n: u64,
    back: Seq<char>,
)
    requires
        label.len() > 0,
        forall|k: int| 0 <= k < front.len() ==> #[trigger] front[k] != label[0],
        !occurs(" "@ + decimal(n as nat) + " "@ + back, label),
    ensures
        labelled_count(front + label + (" "@ + decimal(n as nat) + " "@ + back), label) == n,
{
    let d = decimal(n as nat);
    let rest = " "@ + d + " "@ + back;
    let line = front + label + rest;
    let at = front.len() as int;
    assert(line.subrange(at, at + label.len()) =~= label);
    assert forall|k: int| 0 <= k < at implies !#[trigger] occurs_at(line, label, k) by {
        assert(line[k] == front[k]);
        if occurs_at(line, label, k) {
            assert(line.subrange(k, k + label.len())[0] == front[k]);
        }
    }
    lemma_first_is(line, label, at);
    assert(line.subrange(at + label.len(), line.len() as int) =~= rest);
    lemma_first_at(rest, label, 0);
    law_decimal_round_trip(n as nat, u64::MAX as nat);
    assert forall|i: int| 0 <= i < d.len() implies !is_space(#[trigger] d[i]) by {
        assert(is_digit(d[i]));
    }
    lemma_first_word(d, back);
}

/// A stream counts as interlaced by either order of its fields, and by nothing else.
pub proof fn law_flagged_streams_are_sampled(field_order: Seq<char>)
    ensures
        interlaced_flag(None) == false,
        interlaced_flag(Some(field_order)) ==> field_order.len() == 2 && (field_order[0] == 't'
            || field_order[0] == 'b') && (field_order[1] == 't' || field_order[1] == 'b'),
        field_order.len() == 2 && (field_order[0] == 't' || field_order[0] == 'b') && (
        field_order[1] == 't' || field_order[1] == 'b') ==> interlaced_flag(Some(field_order)),
{
    reveal_strlit("tt");
    reveal_strlit("bb");
    reveal_strlit("tb");
    reveal_strlit("bt");
    assert("tt"@.len() == 2 && "bb"@.len() == 2 && "tb"@.len() == 2 && "bt"@.len() == 2);
    if field_order.len() == 2 {
        if field_order[0] == 't' && field_order[1] == 't' {
            assert(field_order =~= "tt"@);
        }
        if field_order[0] == 't' && field_order[1] == 'b' {
            assert(field_order =~= "tb"@);
        }
        if field_order[0] == 'b' && field_order[1] == 't' {
            assert(field_order =~= "bt"@);
        }
        if field_order[0] == 'b' && field_order[1] == 'b' {
            assert(field_order =~= "bb"@);
        }
    }
}

} // verus!
