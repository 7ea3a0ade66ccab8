//! AV1 open bitstream units (OBUs) and the IVF files that carry them.
use crate::bytes::{le_bytes, le_value, push_all, push_le, read_le, same_bytes};
use vstd::prelude::*;
use vstd::slice::slice_subrange;

verus! {

pub const OBU_SEQUENCE_HEADER: u8 = 1;

pub const OBU_FRAME_HEADER: u8 = 3;

pub const OBU_METADATA: u8 = 5;

pub const OBU_FRAME: u8 = 6;

pub const METADATA_TYPE_HDR_CLL: u8 = 1;

pub const METADATA_TYPE_HDR_MDCV: u8 = 2;

pub const METADATA_TYPE_ITUT_T35: u8 = 4;

/// The header byte of a metadata OBU that carries its size and no extension.
const METADATA_HEADER: u8 = 0x2A;

/// Why a bitstream or an IVF file was refused.
#[derive(Clone, Copy, Debug, PartialEq, Eq, Structural)]
pub enum Av1Error {
    /// An OBU without a size field.
    NoSizeField,
    /// The size field of an OBU is cut off or longer than eight bytes.
    TruncatedObuHeader,
    /// An OBU runs past the end of its temporal unit.
    ObuPastEnd,
    /// The file ends inside its IVF header.
    TruncatedIvfHeader,
    /// The file does not start with the IVF signature.
    NotIvf,
    /// The IVF header claims to be shorter than its fixed part.
    ShortIvfHeader { len: usize },
    /// The file ends inside a frame header.
    TruncatedFrameHeader,
    /// The file ends inside a frame.
    TruncatedFrame { got: usize, size: usize },
    /// A frame of 4 GiB or more.
    FrameTooLarge,
    /// The file shows more frames than were decoded for it.
    MoreFramesShown { decoded: usize },
    /// The file shows fewer frames than were decoded for it.
    FrameCountMismatch { shown: usize, decoded: usize },
    /// Nothing to join.
    NoChunks,
    /// A chunk has another codec, frame size or time base than the first one.
    OtherStreamParameters { chunk: usize },
}

/// One OBU: its type, what follows its size field, and all of its bytes.
#[derive(Debug)]
pub struct Obu<'a> {
    pub kind: u8,
    pub payload: &'a [u8],
    pub raw: &'a [u8],
}

/// What an `Obu` holds.
pub struct ObuView {
    pub kind: u8,
    pub payload: Seq<u8>,
    pub raw: Seq<u8>,
}

impl<'a> View for Obu<'a> {
    type V = ObuView;

    open spec fn view(&self) -> ObuView {
        ObuView { kind: self.kind, payload: self.payload@, raw: self.raw@ }
    }
}

pub open spec fn obu_views(obus: Seq<Obu<'_>>) -> Seq<ObuView> {
    Seq::new(obus.len(), |i: int| obus[i]@)
}

// ---------------------------------------------------------------------------
// LEB128
// ---------------------------------------------------------------------------
/// 128 to the power of `n`.
pub open spec fn pow128(n: nat) -> nat
    decreases n,
{
    if n == 0 {
        1
    } else {
        128 * pow128((n - 1) as nat)
    }
}

/// The LEB128 number at `pos` and the position after it: seven bits a byte, the lowest
/// first, the top bit set on every byte but the last, at most `n` bytes.
pub open spec fn leb128_at(buf: Seq<u8>, pos: int, n: nat) -> Option<(nat, int)>
    decreases n,
{
    if n == 0 || pos < 0 || pos >= buf.len() {
        None
    } else if buf[pos] < 128 {
        Some((buf[pos] as nat, pos + 1))
    } else {
        match leb128_at(buf, pos + 1, (n - 1) as nat) {
            Some((high, end)) => Some(((buf[pos] - 128 + 128 * high) as nat, end)),
            None => None,
        }
    }
}

/// `v` as a LEB128 number of the fewest bytes.
pub open spec fn leb128_bytes(v: nat) -> Seq<u8>
    decreases v,
{
    if v < 128 {
        seq![v as u8]
    } else {
        seq![(v % 128 + 128) as u8] + leb128_bytes(v / 128)
    }
}

proof fn lemma_pow128()
    ensures
        pow128(7) == 0x2_0000_0000_0000,
        pow128(8) == 0x100_0000_0000_0000,
{
    reveal_with_fuel(pow128, 9);
}

proof fn lemma_pow128_monotone(a: nat, b: nat)
    requires
        a <= b,
    ensures
        1 <= pow128(a) <= pow128(b),
    decreases b,
{
    if a < b {
        lemma_pow128_monotone(a, (b - 1) as nat);
    } else if a > 0 {
        lemma_pow128_monotone((a - 1) as nat, (a - 1) as nat);
    }
}

/// A number that was read ends inside the buffer, after its start, and is bounded by its
/// byte count.
pub proof fn lemma_leb128_at(buf: Seq<u8>, pos: int, n: nat)
    ensures
        leb128_at(buf, pos, n) matches Some((v, end)) ==> {
            &&& 0 <= pos < end <= buf.len()
            &&& end <= pos + n
            &&& v < pow128(n)
        },
    decreases n,
{
    if n > 0 && 0 <= pos < buf.len() {
        lemma_pow128_monotone(1, n);
        assert(pow128(1) == 128) by {
            reveal_with_fuel(pow128, 2);
        }
        lemma_leb128_at(buf, pos + 1, (n - 1) as nat);
    }
}

/// What is read depends only on the bytes that are read.
proof fn lemma_leb128_local(a: Seq<u8>, i: int, b: Seq<u8>, j: int, n: nat)
    requires
        leb128_at(a, i, n) is Some,
        0 <= j,
        j + ((leb128_at(a, i, n)->0).1 - i) <= b.len(),
        forall|k: int|
            #![trigger a[i + k]]
            0 <= k < (leb128_at(a, i, n)->0).1 - i ==> b[j + k] == a[i + k],
    ensures
        leb128_at(b, j, n) == Some(
            ((leb128_at(a, i, n)->0).0, j + ((leb128_at(a, i, n)->0).1 - i)),
        ),
    decreases n,
{
    lemma_leb128_at(a, i, n);
    assert(a[i + 0] == b[j + 0]);
    if a[i] >= 128 {
        lemma_leb128_at(a, i + 1, (n - 1) as nat);
        assert forall|k: int|
            #![trigger a[i + 1 + k]]
            0 <= k < (leb128_at(a, i + 1, (n - 1) as nat)->0).1 - (i + 1) implies b[j + 1 + k] == a[i
            + 1 + k] by {
            assert(a[i + (1 + k)] == b[j + (1 + k)]);
        }
        lemma_leb128_local(a, i + 1, b, j + 1, (n - 1) as nat);
    }
}

/// Writing a size below 2^56 and reading it back gives the size and its length, wherever
/// in a buffer it stands.
pub proof fn law_leb128_round_trip(before: Seq<u8>, v: nat, after: Seq<u8>)
    requires
        v < 0x100_0000_0000_0000,
    ensures
        leb128_at(before + leb128_bytes(v) + after, before.len() as int, 8) == Some(
            (v, (before.len() + leb128_bytes(v).len()) as int),
        ),
{
    lemma_pow128();
    lemma_leb128_written(before, v, after, 8);
}

proof fn lemma_leb128_written(before: Seq<u8>, v: nat, after: Seq<u8>, n: nat)
    requires
        n > 0,
        v < pow128(n),
    ensures
        leb128_at(before + leb128_bytes(v) + after, before.len() as int, n) == Some(
            (v, (before.len() + leb128_bytes(v).len()) as int),
        ),
    decreases n,
{
    let whole = before + leb128_bytes(v) + after;
    assert(whole[before.len() as int] == leb128_bytes(v)[0]);
    if v >= 128 {
        assert(pow128(1) == 128) by {
            reveal_with_fuel(pow128, 2);
        }
        assert(n > 1);
        let low = (v % 128 + 128) as u8;
        lemma_leb128_written(before.push(low), v / 128, after, (n - 1) as nat);
        assert(whole =~= before.push(low) + leb128_bytes(v / 128) + after);
    }
}

fn read_leb128_within(buf: &[u8], pos: usize, n: u8) -> (r: Option<(u64, usize)>)
    requires
        n <= 8,
    ensures
        match r {
            Some((v, end)) => leb128_at(buf@, pos as int, n as nat) == Some(
                (v as nat, end as int),
            ),
            None => leb128_at(buf@, pos as int, n as nat) is None,
        },
    decreases n,
{
    if n == 0 || pos >= buf.len() {
        return None;
    }
    let byte = buf[pos];
    if byte < 128 {
        return Some((byte as u64, pos + 1));
    }
    match read_leb128_within(buf, pos + 1, n - 1) {
        Some((high, end)) => {
            proof {
                lemma_leb128_at(buf@, pos + 1, (n - 1) as nat);
                lemma_pow128();
                lemma_pow128_monotone((n - 1) as nat, 7);
            }
            Some(((byte - 128) as u64 + 128 * high, end))
        },
        None => None,
    }
}

/// The LEB128 number at `pos` and the position after it.
pub fn read_leb128(buf: &[u8], pos: usize) -> (r: Option<(u64, usize)>)
    ensures
        match r {
            Some((v, end)) => leb128_at(buf@, pos as int, 8) == Some((v as nat, end as int)),
            None => leb128_at(buf@, pos as int, 8) is None,
        },
{
    read_leb128_within(buf, pos, 8)
}

/// Appends `value` as a LEB128 number.
pub fn write_leb128(value: usize, out: &mut Vec<u8>)
    ensures
        final(out)@ == old(out)@ + leb128_bytes(value as nat),
{
    let ghost start = out@;
    let mut rest: usize = value;
    while rest >= 128
        invariant
            out@ + leb128_bytes(rest as nat) == start + leb128_bytes(value as nat),
        decreases rest,
    {
        let ghost before = out@;
        let ghost whole = rest;
        out.push((rest % 128 + 128) as u8);
        rest = rest / 128;
        proof {
            assert(out@ + leb128_bytes(rest as nat) =~= before + leb128_bytes(whole as nat));
        }
    }
    out.push(rest as u8);
    assert(out@ =~= start + leb128_bytes(value as nat));
}

// ---------------------------------------------------------------------------
// OBUs
// ---------------------------------------------------------------------------
/// Where the payload of the OBU at `pos` starts and ends.
pub open spec fn obu_extent(tu: Seq<u8>, pos: int) -> Result<(int, int), Av1Error> {
    let header = tu[pos];
    if header & 0x02 == 0 {
        Err(Av1Error::NoSizeField)
    } else {
        let extension: int = if header & 0x04 != 0 {
            1
        } else {
            0
        };
        match leb128_at(tu, pos + 1 + extension, 8) {
            None => Err(Av1Error::TruncatedObuHeader),
            Some((size, start)) => if start + size <= tu.len() {
                Ok((start, start + size))
            } else {
                Err(Av1Error::ObuPastEnd)
            },
        }
    }
}

/// The OBU of `tu` at `pos` with its payload in `start..end`.
pub open spec fn obu_in(tu: Seq<u8>, pos: int, start: int, end: int) -> ObuView {
    ObuView {
        kind: (tu[pos] >> 3) & 0x0f,
        payload: tu.subrange(start, end),
        raw: tu.subrange(pos, end),
    }
}

/// The OBUs of `tu` from `pos` on.
pub open spec fn obus_from(tu: Seq<u8>, pos: int) -> Result<Seq<ObuView>, Av1Error>
    decreases tu.len() - pos,
{
    if pos >= tu.len() {
        Ok(Seq::empty())
    } else {
        match obu_extent(tu, pos) {
            Err(e) => Err(e),
            Ok((start, end)) => {
                proof {
                    lemma_obu_extent(tu, pos);
                }
                match obus_from(tu, end) {
                    Err(e) => Err(e),
                    Ok(rest) => Ok(seq![obu_in(tu, pos, start, end)] + rest),
                }
            },
        }
    }
}

/// The OBUs of one temporal unit.
pub open spec fn obus_of(tu: Seq<u8>) -> Result<Seq<ObuView>, Av1Error> {
    obus_from(tu, 0)
}

/// An OBU lies inside its buffer and moves on by at least two bytes.
pub proof fn lemma_obu_extent(tu: Seq<u8>, pos: int)
    ensures
        obu_extent(tu, pos) matches Ok((start, end)) ==> pos + 2 <= start <= end <= tu.len(),
{
    lemma_leb128_at(tu, pos + 1, 8);
    lemma_leb128_at(tu, pos + 2, 8);
}

/// `first` in front of a result that may be an error.
pub open spec fn in_front<T>(
    first: Seq<T>,
    rest: Result<Seq<T>, Av1Error>,
) -> Result<Seq<T>, Av1Error> {
    match rest {
        Ok(r) => Ok(first + r),
        Err(e) => Err(e),
    }
}

/// The OBUs of one temporal unit; every OBU has to carry its size, as in IVF and Matroska.
pub fn parse_obus(tu: &[u8]) -> (r: Result<Vec<Obu<'_>>, Av1Error>)
    ensures
        match r {
            Ok(obus) => obus_of(tu@) == Ok::<_, Av1Error>(obu_views(obus@)),
            Err(e) => obus_of(tu@) == Err::<Seq<ObuView>, _>(e),
        },
{
    let mut obus: Vec<Obu<'_>> = Vec::new();
    let mut pos: usize = 0;
    proof {
        assert(in_front(obu_views(obus@), obus_from(tu@, 0)) == obus_of(tu@)) by {
            if let Ok(all) = obus_of(tu@) {
                assert(obu_views(obus@) + all =~= all);
            }
        }
    }
    while pos < tu.len()
        invariant
            pos <= tu@.len(),
            in_front(obu_views(obus@), obus_from(tu@, pos as int)) == obus_of(tu@),
        decreases tu@.len() - pos,
    {
        let header = tu[pos];
        if header & 0x02 == 0 {
            return Err(Av1Error::NoSizeField);
        }
        let sized: usize = if header & 0x04 != 0 {
            if pos + 1 >= tu.len() {
                proof {
                    lemma_leb128_at(tu@, pos + 2, 8);
                }
                return Err(Av1Error::TruncatedObuHeader);
            }
            pos + 2
        } else {
            pos + 1
        };
        let (size, start) = match read_leb128(tu, sized) {
            Some(found) => found,
            None => {
                return Err(Av1Error::TruncatedObuHeader);
            },
        };
        proof {
            lemma_leb128_at(tu@, sized as int, 8);
        }
        if size > (tu.len() - start) as u64 {
            return Err(Av1Error::ObuPastEnd);
        }
        let end: usize = start + size as usize;
        let obu = Obu {
            kind: (header >> 3) & 0x0f,
            payload: slice_subrange(tu, start, end),
            raw: slice_subrange(tu, pos, end),
        };
        let ghost before = obu_views(obus@);
        obus.push(obu);
        proof {
            assert(obu_views(obus@) =~= before + seq![obu_in(
                tu@,
                pos as int,
                start as int,
                end as int,
            )]);
            if let Ok(rest) = obus_from(tu@, end as int) {
                assert(obu_views(obus@) + rest =~= before + (seq![obu_in(
                    tu@,
                    pos as int,
                    start as int,
                    end as int,
                )] + rest));
            }
        }
        pos = end;
    }
    assert(obu_views(obus@) + Seq::<ObuView>::empty() =~= obu_views(obus@));
    Ok(obus)
}

/// Whether a frame or frame header is shown. Its payload starts with show_existing_frame,
/// two bits of frame_type and show_frame; a stream of reduced still pictures has none of
/// them and shows every frame.
pub open spec fn shown_frame(obu: ObuView, reduced_still_picture_header: bool) -> bool {
    &&& obu.kind == OBU_FRAME || obu.kind == OBU_FRAME_HEADER
    &&& reduced_still_picture_header || (obu.payload.len() > 0 && obu.payload[0] & 0x90 != 0)
}

pub fn is_shown_frame(obu: &Obu<'_>, reduced_still_picture_header: bool) -> (r: bool)
    ensures
        r == shown_frame(obu@, reduced_still_picture_header),
{
    if obu.kind != OBU_FRAME && obu.kind != OBU_FRAME_HEADER {
        return false;
    }
    reduced_still_picture_header || (obu.payload.len() > 0 && obu.payload[0] & 0x90 != 0)
}

/// A metadata OBU with an ITU-T T.35 message, closed by its trailing bit.
pub open spec fn metadata_obu(message: Seq<u8>) -> ObuView {
    let payload = seq![METADATA_TYPE_ITUT_T35] + message + seq![0x80u8];
    ObuView {
        kind: OBU_METADATA,
        payload,
        raw: seq![0x2Au8] + leb128_bytes(payload.len()) + payload,
    }
}

pub fn write_t35_metadata_obu(message: &[u8], out: &mut Vec<u8>)
    requires
        message@.len() + 2 <= usize::MAX,
    ensures
        final(out)@ == old(out)@ + metadata_obu(message@).raw,
{
    let payload_len: usize = 1 + message.len() + 1;
    out.push(METADATA_HEADER);
    write_leb128(payload_len, out);
    out.push(METADATA_TYPE_ITUT_T35);
    push_all(out, message);
    out.push(0x80);
    assert(out@ =~= old(out)@ + metadata_obu(message@).raw);
}

// ---------------------------------------------------------------------------
// Metadata in front of shown frames
// ---------------------------------------------------------------------------
/// The bytes of several OBUs in a row.
pub open spec fn obus_bytes(obus: Seq<ObuView>) -> Seq<u8>
    decreases obus.len(),
{
    if obus.len() == 0 {
        Seq::empty()
    } else {
        obus_bytes(obus.drop_last()) + obus.last().raw
    }
}

pub open spec fn metadata_obus(messages: Seq<Seq<u8>>) -> Seq<ObuView> {
    Seq::new(messages.len(), |i: int| metadata_obu(messages[i]))
}

pub open spec fn byte_strings(v: Seq<Vec<u8>>) -> Seq<Seq<u8>> {
    Seq::new(v.len(), |i: int| v[i]@)
}

pub open spec fn message_lists(v: Seq<Vec<Vec<u8>>>) -> Seq<Seq<Seq<u8>>> {
    Seq::new(v.len(), |i: int| byte_strings(v[i]@))
}

/// Whether the stream is one of reduced still pictures, once `obu` has been seen.
pub open spec fn still_after(obu: ObuView, still: bool) -> bool {
    if obu.kind == OBU_SEQUENCE_HEADER {
        obu.payload.len() > 0 && obu.payload[0] & 0x08 != 0
    } else {
        still
    }
}

/// OBUs with their metadata in place, and what carries over to the next temporal unit.
pub struct Tagging {
    pub obus: Seq<ObuView>,
    pub still: bool,
    pub shown: nat,
}

/// `obus` with `messages[n]` in front of the n-th shown frame, the first one here being
/// number `shown`; None when there is no entry for a shown frame.
pub open spec fn tagged(
    obus: Seq<ObuView>,
    messages: Seq<Seq<Seq<u8>>>,
    still: bool,
    shown: nat,
) -> Option<Tagging>
    decreases obus.len(),
{
    if obus.len() == 0 {
        Some(Tagging { obus: Seq::empty(), still, shown })
    } else {
        match tagged(obus.drop_last(), messages, still, shown) {
            None => None,
            Some(t) => {
                let obu = obus.last();
                let now_still = still_after(obu, t.still);
                if !shown_frame(obu, now_still) {
                    Some(Tagging { obus: t.obus.push(obu), still: now_still, shown: t.shown })
                } else if t.shown < messages.len() {
                    Some(
                        Tagging {
                            obus: (t.obus + metadata_obus(messages[t.shown as int])).push(obu),
                            still: now_still,
                            shown: t.shown + 1,
                        },
                    )
                } else {
                    None
                }
            },
        }
    }
}

/// Every message is short enough for its length, and two bytes more, to be counted.
pub open spec fn messages_fit(messages: Seq<Vec<Vec<u8>>>) -> bool {
    forall|i: int, j: int|
        0 <= i < messages.len() && 0 <= j < messages[i]@.len() ==> #[trigger] messages[i]@[j]@.len()
            + 2 <= usize::MAX
}

proof fn lemma_obus_bytes_add(a: Seq<ObuView>, b: Seq<ObuView>)
    ensures
        obus_bytes(a + b) == obus_bytes(a) + obus_bytes(b),
    decreases b.len(),
{
    if b.len() == 0 {
        assert(a + b =~= a);
    } else {
        lemma_obus_bytes_add(a, b.drop_last());
        assert((a + b).drop_last() =~= a + b.drop_last());
        assert(obus_bytes(a + b) =~= obus_bytes(a) + obus_bytes(b));
    }
}

/// A unit that runs out of messages early has none for a longer unit either.
proof fn lemma_tagged_none(
    obus: Seq<ObuView>,
    n: int,
    messages: Seq<Seq<Seq<u8>>>,
    still: bool,
    shown: nat,
)
    requires
        0 <= n <= obus.len(),
        tagged(obus.subrange(0, n), messages, still, shown) is None,
    ensures
        tagged(obus, messages, still, shown) is None,
    decreases obus.len(),
{
    if n < obus.len() {
        assert(obus.drop_last().subrange(0, n) =~= obus.subrange(0, n));
        lemma_tagged_none(obus.drop_last(), n, messages, still, shown);
    } else {
        assert(obus.subrange(0, n) =~= obus);
    }
}

/// No tagging uses more messages than there are.
proof fn lemma_tagged_shown(
    obus: Seq<ObuView>,
    messages: Seq<Seq<Seq<u8>>>,
    still: bool,
    shown: nat,
)
    requires
        shown <= messages.len(),
    ensures
        tagged(obus, messages, still, shown) matches Some(t) ==> shown <= t.shown <= messages.len(),
    decreases obus.len(),
{
    if obus.len() > 0 {
        lemma_tagged_shown(obus.drop_last(), messages, still, shown);
    }
}

fn push_metadata(messages: &Vec<Vec<u8>>, out: &mut Vec<u8>)
    requires
        forall|j: int|
            0 <= j < messages@.len() ==> #[trigger] messages@[j]@.len() + 2 <= usize::MAX,
    ensures
        final(out)@ == old(out)@ + obus_bytes(metadata_obus(byte_strings(messages@))),
{
    let ghost start = out@;
    let ghost all = metadata_obus(byte_strings(messages@));
    let mut i: usize = 0;
    while i < messages.len()
        invariant
            i <= messages@.len(),
            all == metadata_obus(byte_strings(messages@)),
            forall|j: int|
                0 <= j < messages@.len() ==> #[trigger] messages@[j]@.len() + 2 <= usize::MAX,
            out@ == start + obus_bytes(all.subrange(0, i as int)),
        decreases messages@.len() - i,
    {
        write_t35_metadata_obu(messages[i].as_slice(), out);
        proof {
            assert(all.subrange(0, i + 1).drop_last() =~= all.subrange(0, i as int));
            assert(out@ =~= start + obus_bytes(all.subrange(0, i + 1)));
        }
        i = i + 1;
    }
    assert(all.subrange(0, i as int) =~= all);
}

/// Appends the OBUs of one temporal unit with the metadata of its shown frames; returns
/// what the next unit starts with.
fn push_tagged(
    obus: &Vec<Obu<'_>>,
    messages: &[Vec<Vec<u8>>],
    still: bool,
    shown: usize,
    out: &mut Vec<u8>,
) -> (r: Option<(bool, usize)>)
    requires
        messages_fit(messages@),
        shown <= messages@.len(),
    ensures
        match (r, tagged(obu_views(obus@), message_lists(messages@), still, shown as nat)) {
            (Some((now_still, now_shown)), Some(t)) => {
                &&& now_still == t.still
                &&& now_shown == t.shown
                &&& final(out)@ == old(out)@ + obus_bytes(t.obus)
            },
            (None, None) => true,
            _ => false,
        },
{
    let ghost start = out@;
    let ghost views = obu_views(obus@);
    let ghost lists = message_lists(messages@);
    let mut now_still = still;
    let mut now_shown: usize = shown;
    let mut i: usize = 0;
    while i < obus.len()
        invariant
            i <= obus@.len(),
            views == obu_views(obus@),
            lists == message_lists(messages@),
            messages_fit(messages@),
            now_shown <= messages@.len(),
            tagged(views.subrange(0, i as int), lists, still, shown as nat) matches Some(t) && {
                &&& now_still == t.still
                &&& now_shown == t.shown
                &&& out@ == start + obus_bytes(t.obus)
            },
        decreases obus@.len() - i,
    {
        let obu = &obus[i];
        let ghost t = tagged(views.subrange(0, i as int), lists, still, shown as nat)->0;
        proof {
            assert(views.subrange(0, i + 1).drop_last() =~= views.subrange(0, i as int));
        }
        if obu.kind == OBU_SEQUENCE_HEADER {
            now_still = obu.payload.len() > 0 && obu.payload[0] & 0x08 != 0;
        }
        if is_shown_frame(obu, now_still) {
            if now_shown >= messages.len() {
                proof {
                    lemma_tagged_none(views, i + 1, lists, still, shown as nat);
                }
                return None;
            }
            push_metadata(&messages[now_shown], out);
            proof {
                lemma_obus_bytes_add(t.obus, metadata_obus(lists[now_shown as int]));
            }
            now_shown = now_shown + 1;
        }
        let ghost tags = out@;
        push_all(out, obu.raw);
        proof {
            let next = tagged(views.subrange(0, i + 1), lists, still, shown as nat)->0;
            assert(next.obus.drop_last() =~= t.obus || next.obus.drop_last() =~= t.obus
                + metadata_obus(lists[t.shown as int]));
            assert(out@ =~= start + obus_bytes(next.obus));
        }
        i = i + 1;
    }
    assert(views.subrange(0, i as int) =~= views);
    Some((now_still, now_shown))
}

// ---------------------------------------------------------------------------
// IVF
// ---------------------------------------------------------------------------
/// The signature that an IVF file starts with: `DKIF`.
pub open spec fn ivf_signature() -> Seq<u8> {
    seq![0x44u8, 0x4Bu8, 0x49u8, 0x46u8]
}

/// The length of the header of an IVF file.
pub open spec fn ivf_header_len(file: Seq<u8>) -> Result<nat, Av1Error> {
    if file.len() < 32 {
        Err(Av1Error::TruncatedIvfHeader)
    } else if file.subrange(0, 4) != ivf_signature() {
        Err(Av1Error::NotIvf)
    } else {
        let len = le_value(file.subrange(6, 8));
        if len < 32 {
            Err(Av1Error::ShortIvfHeader { len: len as usize })
        } else if file.len() < len {
            Err(Av1Error::TruncatedIvfHeader)
        } else {
            Ok(len)
        }
    }
}

/// The length of the header at the start of `file`.
pub fn read_ivf_header(file: &[u8]) -> (r: Result<usize, Av1Error>)
    ensures
        match r {
            Ok(len) => ivf_header_len(file@) == Ok::<nat, Av1Error>(len as nat),
            Err(e) => ivf_header_len(file@) == Err::<nat, Av1Error>(e),
        },
{
    if file.len() < 32 {
        return Err(Av1Error::TruncatedIvfHeader);
    }
    if !(file[0] == 0x44 && file[1] == 0x4B && file[2] == 0x49 && file[3] == 0x46) {
        proof {
            assert(file@[0] == file@.subrange(0, 4)[0]);
            assert(file@[1] == file@.subrange(0, 4)[1]);
            assert(file@[2] == file@.subrange(0, 4)[2]);
            assert(file@[3] == file@.subrange(0, 4)[3]);
        }
        return Err(Av1Error::NotIvf);
    }
    assert(file@.subrange(0, 4) =~= ivf_signature());
    proof {
        crate::bytes::lemma_pow256();
    }
    let len: usize = read_le(file, 6, 2) as usize;
    if len < 32 {
        return Err(Av1Error::ShortIvfHeader { len });
    }
    if file.len() < len {
        return Err(Av1Error::TruncatedIvfHeader);
    }
    Ok(len)
}

/// One frame of an IVF file: a temporal unit and its timestamp.
#[derive(Debug)]
pub struct IvfFrame<'a> {
    pub pts: u64,
    pub data: &'a [u8],
}

/// What an `IvfFrame` holds.
pub struct IvfFrameView {
    pub pts: u64,
    pub data: Seq<u8>,
}

impl<'a> View for IvfFrame<'a> {
    type V = IvfFrameView;

    open spec fn view(&self) -> IvfFrameView {
        IvfFrameView { pts: self.pts, data: self.data@ }
    }
}

/// The frame at `pos` and the position after it, or None at the end of the file.
pub open spec fn ivf_frame_at(file: Seq<u8>, pos: int) -> Result<
    Option<(IvfFrameView, int)>,
    Av1Error,
> {
    if pos >= file.len() {
        Ok(None)
    } else if pos + 12 > file.len() {
        Err(Av1Error::TruncatedFrameHeader)
    } else {
        let size = le_value(file.subrange(pos, pos + 4));
        if pos + 12 + size > file.len() {
            Err(
                Av1Error::TruncatedFrame {
                    got: (file.len() - pos - 12) as usize,
                    size: size as usize,
                },
            )
        } else {
            Ok(
                Some(
                    (
                        IvfFrameView {
                            pts: le_value(file.subrange(pos + 4, pos + 12)) as u64,
                            data: file.subrange(pos + 12, pos + 12 + size),
                        },
                        pos + 12 + size,
                    ),
                ),
            )
        }
    }
}

/// The frame of `file` at `pos` and the position after it, or None at the end of the file.
pub fn read_ivf_frame(file: &[u8], pos: usize) -> (r: Result<
    Option<(IvfFrame<'_>, usize)>,
    Av1Error,
>)
    ensures
        match r {
            Ok(Some((frame, end))) => ivf_frame_at(file@, pos as int) == Ok::<
                Option<(IvfFrameView, int)>,
                Av1Error,
            >(Some((frame@, end as int))),
            Ok(None) => ivf_frame_at(file@, pos as int) == Ok::<
                Option<(IvfFrameView, int)>,
                Av1Error,
            >(None),
            Err(e) => ivf_frame_at(file@, pos as int) == Err::<
                Option<(IvfFrameView, int)>,
                Av1Error,
            >(e),
        },
{
    if pos >= file.len() {
        return Ok(None);
    }
    if file.len() - pos < 12 {
        return Err(Av1Error::TruncatedFrameHeader);
    }
    proof {
        crate::bytes::lemma_pow256();
    }
    let size: usize = read_le(file, pos, 4) as usize;
    let got: usize = file.len() - pos - 12;
    if size > got {
        return Err(Av1Error::TruncatedFrame { got, size });
    }
    let pts: u64 = read_le(file, pos + 4, 8);
    let end: usize = pos + 12 + size;
    Ok(Some((IvfFrame { pts, data: slice_subrange(file, pos + 12, end) }, end)))
}

/// A frame as it stands in an IVF file: its size, its timestamp, its bytes.
pub open spec fn ivf_frame_bytes(pts: u64, data: Seq<u8>) -> Seq<u8> {
    le_bytes(data.len(), 4) + le_bytes(pts as nat, 8) + data
}

pub fn write_ivf_frame(out: &mut Vec<u8>, pts: u64, data: &[u8]) -> (r: Result<(), Av1Error>)
    ensures
        match r {
            Ok(()) => data@.len() <= u32::MAX && final(out)@ == old(out)@ + ivf_frame_bytes(
                pts,
                data@,
            ),
            Err(e) => data@.len() > u32::MAX && e == Av1Error::FrameTooLarge && final(out)@ == old(
                out,
            )@,
        },
{
    if data.len() > 0xffff_ffff {
        return Err(Av1Error::FrameTooLarge);
    }
    push_le(out, data.len() as u64, 4);
    push_le(out, pts, 8);
    push_all(out, data);
    assert(out@ =~= old(out)@ + ivf_frame_bytes(pts, data@));
    Ok(())
}

/// The frames of `file` from `pos` on with their metadata, or the first thing that stops
/// them.
pub open spec fn tagged_frames_from(
    file: Seq<u8>,
    pos: int,
    messages: Seq<Seq<Seq<u8>>>,
    still: bool,
    shown: nat,
) -> Result<Seq<u8>, Av1Error>
    decreases file.len() - pos,
{
    match ivf_frame_at(file, pos) {
        Err(e) => Err(e),
        Ok(None) => if shown == messages.len() {
            Ok(Seq::empty())
        } else {
            Err(
                Av1Error::FrameCountMismatch {
                    shown: shown as usize,
                    decoded: messages.len() as usize,
                },
            )
        },
        Ok(Some((frame, end))) => match obus_of(frame.data) {
            Err(e) => Err(e),
            Ok(obus) => match tagged(obus, messages, still, shown) {
                None => Err(Av1Error::MoreFramesShown { decoded: messages.len() as usize }),
                Some(t) => if obus_bytes(t.obus).len() > u32::MAX {
                    Err(Av1Error::FrameTooLarge)
                } else {
                    in_front(
                        ivf_frame_bytes(frame.pts, obus_bytes(t.obus)),
                        tagged_frames_from(file, end, messages, t.still, t.shown),
                    )
                },
            },
        },
    }
}

/// An IVF file with `messages[n]` in front of its n-th shown frame.
pub open spec fn with_t35_metadata(file: Seq<u8>, messages: Seq<Seq<Seq<u8>>>) -> Result<
    Seq<u8>,
    Av1Error,
> {
    match ivf_header_len(file) {
        Err(e) => Err(e),
        Ok(len) => in_front(
            file.subrange(0, len as int),
            tagged_frames_from(file, len as int, messages, false, 0),
        ),
    }
}

/// Puts `messages[n]`, ITU-T T.35 payloads from the country code on, in front of the n-th
/// shown frame of an IVF file. Hidden frames get none, and the count has to match.
pub fn insert_t35_metadata(file: &[u8], messages: &[Vec<Vec<u8>>]) -> (r: Result<
    Vec<u8>,
    Av1Error,
>)
    requires
        messages_fit(messages@),
    ensures
        match r {
            Ok(out) => with_t35_metadata(file@, message_lists(messages@)) == Ok::<_, Av1Error>(
                out@,
            ),
            Err(e) => with_t35_metadata(file@, message_lists(messages@)) == Err::<Seq<u8>, _>(e),
        },
{
    let len: usize = match read_ivf_header(file) {
        Ok(len) => len,
        Err(e) => {
            return Err(e);
        },
    };
    let ghost lists = message_lists(messages@);
    let mut out: Vec<u8> = Vec::new();
    push_all(&mut out, slice_subrange(file, 0, len));
    assert(out@ =~= file@.subrange(0, len as int));
    let mut still = false;
    let mut shown: usize = 0;
    let mut pos: usize = len;
    loop
        invariant
            messages_fit(messages@),
            lists == message_lists(messages@),
            shown <= messages@.len(),
            pos <= file@.len(),
            in_front(
                out@,
                tagged_frames_from(file@, pos as int, lists, still, shown as nat),
            ) == with_t35_metadata(file@, lists),
        decreases file@.len() - pos,
    {
        let (frame, end) = match read_ivf_frame(file, pos) {
            Err(e) => {
                return Err(e);
            },
            Ok(None) => {
                if shown != messages.len() {
                    return Err(Av1Error::FrameCountMismatch { shown, decoded: messages.len() });
                }
                assert(out@ + Seq::<u8>::empty() =~= out@);
                return Ok(out);
            },
            Ok(Some(found)) => found,
        };
        let obus = match parse_obus(frame.data) {
            Err(e) => {
                return Err(e);
            },
            Ok(obus) => obus,
        };
        let mut unit: Vec<u8> = Vec::new();
        let ghost t = tagged(obu_views(obus@), lists, still, shown as nat);
        let (now_still, now_shown) = match push_tagged(&obus, messages, still, shown, &mut unit) {
            None => {
                return Err(Av1Error::MoreFramesShown { decoded: messages.len() });
            },
            Some(next) => next,
        };
        assert(unit@ =~= obus_bytes(t->0.obus));
        let ghost before = out@;
        match write_ivf_frame(&mut out, frame.pts, unit.as_slice()) {
            Err(e) => {
                return Err(e);
            },
            Ok(()) => {},
        }
        proof {
            lemma_tagged_shown(obu_views(obus@), lists, still, shown as nat);
            if let Ok(rest) = tagged_frames_from(
                file@,
                end as int,
                lists,
                now_still,
                now_shown as nat,
            ) {
                assert(out@ + rest =~= before + (ivf_frame_bytes(frame.pts, unit@) + rest));
            }
        }
        still = now_still;
        shown = now_shown;
        pos = end;
    }
}

// ---------------------------------------------------------------------------
// Joining chunks
// ---------------------------------------------------------------------------
/// All frames of `file` from `pos` on.
pub open spec fn ivf_frames_from(file: Seq<u8>, pos: int) -> Result<Seq<IvfFrameView>, Av1Error>
    decreases file.len() - pos,
{
    match ivf_frame_at(file, pos) {
        Err(e) => Err(e),
        Ok(None) => Ok(Seq::empty()),
        Ok(Some((frame, end))) => in_front(seq![frame], ivf_frames_from(file, end)),
    }
}

/// All frames of an IVF file.
pub open spec fn ivf_frames(file: Seq<u8>) -> Result<Seq<IvfFrameView>, Av1Error> {
    match ivf_header_len(file) {
        Err(e) => Err(e),
        Ok(len) => ivf_frames_from(file, len as int),
    }
}

/// `frames` with timestamps that count on from `start`.
pub open spec fn stamped(frames: Seq<IvfFrameView>, start: nat) -> Seq<IvfFrameView> {
    Seq::new(
        frames.len(),
        |i: int| IvfFrameView { pts: (start + i) as u64, data: frames[i].data },
    )
}

/// Frames as they stand in an IVF file.
pub open spec fn frames_bytes(frames: Seq<IvfFrameView>) -> Seq<u8>
    decreases frames.len(),
{
    if frames.len() == 0 {
        Seq::empty()
    } else {
        frames_bytes(frames.drop_last()) + ivf_frame_bytes(frames.last().pts, frames.last().data)
    }
}

/// The frames of chunk number `index`, which has to share codec, frame size and time base
/// with the first chunk.
pub open spec fn chunk_frames(first: Seq<u8>, chunk: Seq<u8>, index: nat) -> Result<
    Seq<IvfFrameView>,
    Av1Error,
> {
    match ivf_header_len(chunk) {
        Err(e) => Err(e),
        Ok(len) => if index > 0 && chunk.subrange(8, 24) != first.subrange(8, 24) {
            Err(Av1Error::OtherStreamParameters { chunk: index as usize })
        } else {
            ivf_frames_from(chunk, len as int)
        },
    }
}

/// The frames of all chunks, one chunk after the other.
pub open spec fn all_frames(chunks: Seq<Seq<u8>>) -> Result<Seq<IvfFrameView>, Av1Error>
    decreases chunks.len(),
{
    if chunks.len() == 0 {
        Ok(Seq::empty())
    } else {
        match all_frames(chunks.drop_last()) {
            Err(e) => Err(e),
            Ok(frames) => in_front(
                frames,
                chunk_frames(chunks[0], chunks.last(), (chunks.len() - 1) as nat),
            ),
        }
    }
}

/// An IVF header with its frame count set, or to the largest count it can hold.
pub open spec fn with_frame_count(header: Seq<u8>, frames: nat) -> Seq<u8> {
    let count = if frames <= u32::MAX {
        frames
    } else {
        u32::MAX as nat
    };
    header.subrange(0, 24) + le_bytes(count, 4) + header.subrange(28, header.len() as int)
}

/// Several IVF files as one with continuous timestamps: the first header with the new
/// frame count, then every frame.
pub open spec fn joined(chunks: Seq<Seq<u8>>) -> Result<Seq<u8>, Av1Error> {
    if chunks.len() == 0 {
        Err(Av1Error::NoChunks)
    } else {
        match all_frames(chunks) {
            Err(e) => Err(e),
            Ok(frames) => Ok(
                with_frame_count(
                    chunks[0].subrange(0, ivf_header_len(chunks[0])->Ok_0 as int),
                    frames.len(),
                ) + frames_bytes(stamped(frames, 0)),
            ),
        }
    }
}

/// The number of bytes in all chunks.
pub open spec fn total_len(chunks: Seq<Seq<u8>>) -> nat
    decreases chunks.len(),
{
    if chunks.len() == 0 {
        0
    } else {
        total_len(chunks.drop_last()) + chunks.last().len()
    }
}

proof fn lemma_total_len_prefix(chunks: Seq<Seq<u8>>, n: int)
    requires
        0 <= n <= chunks.len(),
    ensures
        total_len(chunks.subrange(0, n)) <= total_len(chunks),
    decreases chunks.len(),
{
    if n < chunks.len() {
        assert(chunks.drop_last().subrange(0, n) =~= chunks.subrange(0, n));
        lemma_total_len_prefix(chunks.drop_last(), n);
    } else {
        assert(chunks.subrange(0, n) =~= chunks);
    }
}

proof fn lemma_all_frames_err(chunks: Seq<Seq<u8>>, n: int)
    requires
        0 < n <= chunks.len(),
        all_frames(chunks.subrange(0, n)) is Err,
    ensures
        all_frames(chunks) == all_frames(chunks.subrange(0, n)),
    decreases chunks.len(),
{
    if n < chunks.len() {
        assert(chunks.drop_last().subrange(0, n) =~= chunks.subrange(0, n));
        lemma_all_frames_err(chunks.drop_last(), n);
    } else {
        assert(chunks.subrange(0, n) =~= chunks);
    }
}

/// A file holds fewer frames than bytes.
proof fn lemma_frames_count(file: Seq<u8>, pos: int)
    requires
        0 <= pos,
    ensures
        ivf_frames_from(file, pos) matches Ok(frames) ==> frames.len() <= file.len() - pos
            || frames.len() == 0,
    decreases file.len() - pos,
{
    if let Ok(Some((frame, end))) = ivf_frame_at(file, pos) {
        lemma_frames_count(file, end);
    }
}

/// Appends the frames of `chunk`, the one after `index` others, with timestamps from
/// `start` on; returns how many there were.
pub fn join_chunk(
    first: &[u8],
    chunk: &[u8],
    index: usize,
    start: u64,
    out: &mut Vec<u8>,
) -> (r: Result<u64, Av1Error>)
    requires
        index > 0 ==> first@.len() >= 24,
        start + chunk@.len() <= u64::MAX,
    ensures
        match r {
            Ok(n) => chunk_frames(first@, chunk@, index as nat) matches Ok(frames) && {
                &&& n == frames.len()
                &&& n <= chunk@.len()
                &&& final(out)@ == old(out)@ + frames_bytes(stamped(frames, start as nat))
            },
            Err(e) => chunk_frames(first@, chunk@, index as nat) == Err::<Seq<IvfFrameView>, _>(e),
        },
{
    let len: usize = match read_ivf_header(chunk) {
        Ok(len) => len,
        Err(e) => {
            return Err(e);
        },
    };
    if index > 0 && !same_bytes(slice_subrange(chunk, 8, 24), slice_subrange(first, 8, 24)) {
        return Err(Av1Error::OtherStreamParameters { chunk: index });
    }
    let ghost before = out@;
    let ghost mut done: Seq<IvfFrameView> = Seq::empty();
    let mut n: u64 = 0;
    let mut pos: usize = len;
    proof {
        assert(stamped(done, start as nat) =~= Seq::empty());
        assert(out@ =~= before + frames_bytes(stamped(done, start as nat)));
        if let Ok(frames) = ivf_frames_from(chunk@, pos as int) {
            assert(done + frames =~= frames);
        }
        lemma_frames_count(chunk@, len as int);
    }
    loop
        invariant
            len <= pos <= chunk@.len(),
            start + chunk@.len() <= u64::MAX,
            n == done.len(),
            n <= pos - len,
            in_front(done, ivf_frames_from(chunk@, pos as int)) == ivf_frames_from(
                chunk@,
                len as int,
            ),
            chunk_frames(first@, chunk@, index as nat) == ivf_frames_from(chunk@, len as int),
            out@ == before + frames_bytes(stamped(done, start as nat)),
            before == old(out)@,
        decreases chunk@.len() - pos,
    {
        let (frame, end) = match read_ivf_frame(chunk, pos) {
            Err(e) => {
                return Err(e);
            },
            Ok(None) => {
                assert(done + Seq::<IvfFrameView>::empty() =~= done);
                return Ok(n);
            },
            Ok(Some(found)) => found,
        };
        proof {
            crate::bytes::lemma_pow256();
            crate::bytes::lemma_le_value_bound(chunk@.subrange(pos as int, pos + 4));
        }
        match write_ivf_frame(out, start + n, frame.data) {
            Err(e) => {
                return Err(e);
            },
            Ok(()) => {},
        }
        proof {
            let next = done.push(frame@);
            assert(stamped(next, start as nat).drop_last() =~= stamped(done, start as nat));
            assert(out@ =~= before + frames_bytes(stamped(next, start as nat)));
            if let Ok(rest) = ivf_frames_from(chunk@, end as int) {
                assert(next + rest =~= done + (seq![frame@] + rest));
            }
            done = next;
        }
        n = n + 1;
        pos = end;
    }
}

proof fn lemma_frames_bytes_add(a: Seq<IvfFrameView>, b: Seq<IvfFrameView>)
    ensures
        frames_bytes(a + b) == frames_bytes(a) + frames_bytes(b),
    decreases b.len(),
{
    if b.len() == 0 {
        assert(a + b =~= a);
    } else {
        lemma_frames_bytes_add(a, b.drop_last());
        assert((a + b).drop_last() =~= a + b.drop_last());
        assert(frames_bytes(a + b) =~= frames_bytes(a) + frames_bytes(b));
    }
}

/// The frame count field of an IVF header.
pub fn frame_count_field(frames: u64) -> (field: Vec<u8>)
    ensures
        field@ == le_bytes(
            if frames <= u32::MAX {
                frames as nat
            } else {
                u32::MAX as nat
            },
            4,
        ),
{
    let mut field: Vec<u8> = Vec::new();
    push_le(
        &mut field,
        if frames <= 0xffff_ffff {
            frames
        } else {
            0xffff_ffff
        },
        4,
    );
    assert(field@ =~= Seq::<u8>::empty() + field@);
    field
}

/// Joins IVF files into one with continuous timestamps; returns it with its frame count.
pub fn concat_ivf(inputs: &[Vec<u8>]) -> (r: Result<(Vec<u8>, u64), Av1Error>)
    requires
        total_len(byte_strings(inputs@)) <= u64::MAX,
    ensures
        match r {
            Ok((out, frames)) => {
                &&& joined(byte_strings(inputs@)) == Ok::<_, Av1Error>(out@)
                &&& all_frames(byte_strings(inputs@)) matches Ok(all) && all.len() == frames
            },
            Err(e) => joined(byte_strings(inputs@)) == Err::<Seq<u8>, _>(e),
        },
{
    let ghost chunks = byte_strings(inputs@);
    if inputs.len() == 0 {
        return Err(Av1Error::NoChunks);
    }
    proof {
        assert(chunks.subrange(0, 1).drop_last() =~= Seq::empty());
        assert(chunks.subrange(0, 1)[0] == chunks[0]);
    }
    let len: usize = match read_ivf_header(inputs[0].as_slice()) {
        Ok(len) => len,
        Err(e) => {
            proof {
                reveal_with_fuel(all_frames, 2);
                assert(chunks.subrange(0, 1).last() == inputs@[0]@);
                lemma_all_frames_err(chunks, 1);
            }
            return Err(e);
        },
    };
    let mut out: Vec<u8> = Vec::new();
    push_all(&mut out, slice_subrange(inputs[0].as_slice(), 0, len));
    let ghost header = out@;
    let ghost mut done: Seq<IvfFrameView> = Seq::empty();
    let mut frames: u64 = 0;
    let mut i: usize = 0;
    proof {
        assert(header =~= chunks[0].subrange(0, len as int));
        assert(stamped(done, 0) =~= Seq::empty());
        assert(out@ =~= header + frames_bytes(stamped(done, 0)));
        assert(chunks.subrange(0, 0) =~= Seq::empty());
    }
    while i < inputs.len()
        invariant
            i <= inputs@.len(),
            inputs@.len() > 0,
            chunks == byte_strings(inputs@),
            total_len(chunks) <= u64::MAX,
            ivf_header_len(chunks[0]) is Ok,
            all_frames(chunks.subrange(0, i as int)) == Ok::<_, Av1Error>(done),
            frames == done.len(),
            frames <= total_len(chunks.subrange(0, i as int)),
            out@ == header + frames_bytes(stamped(done, 0)),
        decreases inputs@.len() - i,
    {
        let ghost next = chunks.subrange(0, i + 1);
        proof {
            assert(next.drop_last() =~= chunks.subrange(0, i as int));
            assert(next[0] == chunks[0]);
            lemma_total_len_prefix(chunks, i + 1);
        }
        match join_chunk(
            inputs[0].as_slice(),
            inputs[i].as_slice(),
            i,
            frames,
            &mut out,
        ) {
            Err(e) => {
                proof {
                    lemma_all_frames_err(chunks, i + 1);
                }
                return Err(e);
            },
            Ok(n) => {
                proof {
                    let more = chunk_frames(chunks[0], chunks[i as int], i as nat)->Ok_0;
                    lemma_frames_bytes_add(stamped(done, 0), stamped(more, frames as nat));
                    assert(stamped(done + more, 0) =~= stamped(done, 0) + stamped(
                        more,
                        frames as nat,
                    ));
                    assert(out@ =~= header + frames_bytes(stamped(done + more, 0)));
                    done = done + more;
                }
                frames = frames + n;
            },
        }
        i = i + 1;
    }
    assert(chunks.subrange(0, i as int) =~= chunks);
    let ghost body = frames_bytes(stamped(done, 0));
    let field = frame_count_field(frames);
    proof {
        crate::bytes::lemma_bytes_len(
            if frames <= u32::MAX {
                frames as nat
            } else {
                u32::MAX as nat
            },
            4,
        );
    }
    out.set(24, field[0]);
    out.set(25, field[1]);
    out.set(26, field[2]);
    out.set(27, field[3]);
    assert(out@ =~= with_frame_count(header, frames as nat) + body);
    Ok((out, frames))
}

// ---------------------------------------------------------------------------
// The av1C box
// ---------------------------------------------------------------------------
/// What may stay in av1C: the sequence header and static HDR metadata.
pub open spec fn belongs_in_av1c(obu: ObuView) -> bool {
    ||| obu.kind == OBU_SEQUENCE_HEADER
    ||| obu.kind == OBU_METADATA && obu.payload.len() > 0 && (obu.payload[0]
        == METADATA_TYPE_HDR_CLL || obu.payload[0] == METADATA_TYPE_HDR_MDCV)
}

/// av1C without what does not belong there; None when it cannot be read or holds nothing
/// else.
pub open spec fn trimmed_av1c(av1c: Seq<u8>) -> Option<Seq<u8>> {
    if av1c.len() < 4 {
        None
    } else {
        match obus_of(av1c.subrange(4, av1c.len() as int)) {
            Err(_) => None,
            Ok(obus) => if obus.all(|o: ObuView| belongs_in_av1c(o)) {
                None
            } else {
                Some(
                    av1c.subrange(0, 4) + obus_bytes(
                        obus.filter(|o: ObuView| belongs_in_av1c(o)),
                    ),
                )
            },
        }
    }
}

fn keeps_in_av1c(obu: &Obu<'_>) -> (r: bool)
    ensures
        r == belongs_in_av1c(obu@),
{
    obu.kind == OBU_SEQUENCE_HEADER || (obu.kind == OBU_METADATA && obu.payload.len() > 0 && (
    obu.payload[0] == METADATA_TYPE_HDR_CLL || obu.payload[0] == METADATA_TYPE_HDR_MDCV))
}

/// av1C with only the sequence header and static HDR metadata left, or None when it has
/// nothing else. Per-frame metadata does not belong there, HDR10+ forbids it outright.
pub fn av1c_without_frame_metadata(av1c: &[u8]) -> (r: Option<Vec<u8>>)
    ensures
        match r {
            Some(out) => trimmed_av1c(av1c@) == Some(out@),
            None => trimmed_av1c(av1c@) is None,
        },
{
    if av1c.len() < 4 {
        return None;
    }
    let obus = match parse_obus(slice_subrange(av1c, 4, av1c.len())) {
        Ok(obus) => obus,
        Err(_) => {
            return None;
        },
    };
    let ghost views = obu_views(obus@);
    let ghost keep = |o: ObuView| belongs_in_av1c(o);
    let mut out: Vec<u8> = Vec::new();
    push_all(&mut out, slice_subrange(av1c, 0, 4));
    let ghost head = out@;
    let mut all = true;
    let mut i: usize = 0;
    proof {
        assert(head =~= av1c@.subrange(0, 4));
        assert(views.subrange(0, 0).filter(keep) =~= Seq::empty()) by {
            reveal(Seq::filter);
        }
        assert(out@ =~= head + obus_bytes(views.subrange(0, 0).filter(keep)));
    }
    while i < obus.len()
        invariant
            i <= obus@.len(),
            views == obu_views(obus@),
            keep == (|o: ObuView| belongs_in_av1c(o)),
            all == views.subrange(0, i as int).all(keep),
            out@ == head + obus_bytes(views.subrange(0, i as int).filter(keep)),
        decreases obus@.len() - i,
    {
        let ghost next = views.subrange(0, i + 1);
        proof {
            assert(next.drop_last() =~= views.subrange(0, i as int));
            assert(next.filter(keep) == (if keep(next.last()) {
                next.drop_last().filter(keep).push(next.last())
            } else {
                next.drop_last().filter(keep)
            })) by {
                reveal(Seq::filter);
            }
            assert(next.last() == obus@[i as int]@);
            assert(next.all(keep) == (next.drop_last().all(keep) && keep(next.last()))) by {
                if next.drop_last().all(keep) && keep(next.last()) {
                    assert forall|k: int| 0 <= k < next.len() implies keep(#[trigger] next[k]) by {
                        if k < next.len() - 1 {
                            assert(next.drop_last()[k] == next[k]);
                        }
                    }
                }
                if next.all(keep) {
                    assert forall|k: int| 0 <= k < next.drop_last().len() implies keep(
                        #[trigger] next.drop_last()[k],
                    ) by {
                        assert(next.drop_last()[k] == next[k]);
                    }
                }
            }
        }
        if keeps_in_av1c(&obus[i]) {
            push_all(&mut out, obus[i].raw);
            proof {
                assert(next.filter(keep).drop_last() =~= next.drop_last().filter(keep));
                assert(out@ =~= head + obus_bytes(next.filter(keep)));
            }
        } else {
            all = false;
        }
        i = i + 1;
    }
    assert(views.subrange(0, i as int) =~= views);
    if all {
        None
    } else {
        Some(out)
    }
}

// ---------------------------------------------------------------------------
// Laws
// ---------------------------------------------------------------------------
/// An OBU whose bytes parse as that OBU and nothing more.
pub open spec fn well_formed_obu(obu: ObuView) -> bool {
    &&& obu.raw.len() > 0
    &&& obu_extent(obu.raw, 0) matches Ok((start, end)) && end == obu.raw.len() && obu == obu_in(
        obu.raw,
        0,
        start,
        end,
    )
}

pub open spec fn all_well_formed(obus: Seq<ObuView>) -> bool {
    forall|k: int| 0 <= k < obus.len() ==> well_formed_obu(#[trigger] obus[k])
}

/// `obus` without its metadata.
pub open spec fn without_metadata(obus: Seq<ObuView>) -> Seq<ObuView> {
    obus.filter(|o: ObuView| o.kind != OBU_METADATA)
}

/// An OBU is read from its own bytes alone.
proof fn lemma_obu_local(a: Seq<u8>, i: int, b: Seq<u8>, j: int)
    requires
        0 <= i,
        0 <= j,
        obu_extent(a, i) is Ok,
        j + ((obu_extent(a, i)->Ok_0).1 - i) <= b.len(),
        forall|k: int|
            #![trigger a[i + k]]
            0 <= k < (obu_extent(a, i)->Ok_0).1 - i ==> b[j + k] == a[i + k],
    ensures
        ({
            let (start, end) = obu_extent(a, i)->Ok_0;
            &&& obu_extent(b, j) == Ok::<(int, int), Av1Error>((j + (start - i), j + (end - i)))
            &&& obu_in(b, j, j + (start - i), j + (end - i)) == obu_in(a, i, start, end)
        }),
{
    lemma_obu_extent(a, i);
    let (start, end) = obu_extent(a, i)->Ok_0;
    assert(a[i + 0] == b[j + 0]);
    let skip: int = if a[i] & 0x04 != 0 {
        2
    } else {
        1
    };
    lemma_leb128_at(a, i + skip, 8);
    assert forall|k: int|
        #![trigger a[i + skip + k]]
        0 <= k < (leb128_at(a, i + skip, 8)->0).1 - (i + skip) implies b[j + skip + k] == a[i + skip
        + k] by {
        assert(a[i + (skip + k)] == b[j + (skip + k)]);
    }
    lemma_leb128_local(a, i + skip, b, j + skip, 8);
    assert(a.subrange(start, end) =~= b.subrange(j + (start - i), j + (end - i))) by {
        assert forall|k: int| 0 <= k < end - start implies a.subrange(start, end)[k] == b.subrange(
            j + (start - i),
            j + (end - i),
        )[k] by {
            assert(a[i + (start - i + k)] == b[j + (start - i + k)]);
        }
    }
    assert(a.subrange(i, end) =~= b.subrange(j, j + (end - i))) by {
        assert forall|k: int| 0 <= k < end - i implies a.subrange(i, end)[k] == b.subrange(
            j,
            j + (end - i),
        )[k] by {
            assert(a[i + k] == b[j + k]);
        }
    }
}

/// Parsing splits a temporal unit: the OBUs are well-formed and their bytes, put back
/// together, are the unit.
pub proof fn law_parse_splits(tu: Seq<u8>, pos: int)
    requires
        0 <= pos <= tu.len(),
    ensures
        obus_from(tu, pos) matches Ok(obus) ==> all_well_formed(obus) && obus_bytes(obus)
            == tu.subrange(pos, tu.len() as int),
    decreases tu.len() - pos,
{
    if pos < tu.len() {
        if let Ok((start, end)) = obu_extent(tu, pos) {
            lemma_obu_extent(tu, pos);
            law_parse_splits(tu, end);
            if let Ok(rest) = obus_from(tu, end) {
                let obu = obu_in(tu, pos, start, end);
                assert forall|k: int|
                    #![trigger tu[pos + k]]
                    0 <= k < end - pos implies obu.raw[0 + k] == tu[pos + k] by {}
                lemma_obu_local(tu, pos, obu.raw, 0);
                lemma_obus_bytes_add(seq![obu], rest);
                assert(obus_bytes(seq![obu]) =~= obu.raw) by {
                    reveal_with_fuel(obus_bytes, 2);
                    assert(seq![obu].drop_last() =~= Seq::empty());
                }
                assert(tu.subrange(pos, tu.len() as int) =~= obu.raw + tu.subrange(
                    end,
                    tu.len() as int,
                ));
            }
        }
    } else {
        assert(tu.subrange(pos, tu.len() as int) =~= Seq::empty());
    }
}

/// Well-formed OBUs written one after the other parse back as they were.
pub proof fn law_write_parses(before: Seq<u8>, obus: Seq<ObuView>)
    requires
        all_well_formed(obus),
    ensures
        obus_from(before + obus_bytes(obus), before.len() as int) == Ok::<_, Av1Error>(obus),
    decreases obus.len(),
{
    if obus.len() == 0 {
        assert(obus =~= Seq::empty());
    } else {
        let obu = obus[0];
        let rest = obus.drop_first();
        let whole = before + obus_bytes(obus);
        assert(obus =~= seq![obu] + rest);
        lemma_obus_bytes_add(seq![obu], rest);
        assert(obus_bytes(seq![obu]) =~= obu.raw) by {
            reveal_with_fuel(obus_bytes, 2);
            assert(seq![obu].drop_last() =~= Seq::empty());
        }
        assert(whole =~= (before + obu.raw) + obus_bytes(rest));
        assert forall|k: int|
            #![trigger obu.raw[0 + k]]
            0 <= k < obu.raw.len() implies whole[before.len() + k] == obu.raw[0 + k] by {}
        lemma_obu_local(obu.raw, 0, whole, before.len() as int);
        law_write_parses(before + obu.raw, rest);
    }
}

proof fn lemma_metadata_well_formed(message: Seq<u8>)
    requires
        message.len() + 2 < 0x100_0000_0000_0000,
    ensures
        well_formed_obu(metadata_obu(message)),
{
    let obu = metadata_obu(message);
    law_leb128_round_trip(seq![0x2Au8], obu.payload.len(), obu.payload);
    assert(0x2Au8 & 0x02 != 0) by (bit_vector);
    assert(0x2Au8 & 0x04 == 0) by (bit_vector);
    assert((0x2Au8 >> 3) & 0x0f == 5) by (bit_vector);
    let start = 1 + leb128_bytes(obu.payload.len()).len();
    assert(obu.raw.subrange(start as int, obu.raw.len() as int) =~= obu.payload);
    assert(obu.raw.subrange(0, obu.raw.len() as int) =~= obu.raw);
}

proof fn lemma_without_metadata_push(obus: Seq<ObuView>, obu: ObuView)
    ensures
        without_metadata(obus.push(obu)) == if obu.kind != OBU_METADATA {
            without_metadata(obus).push(obu)
        } else {
            without_metadata(obus)
        },
{
    reveal(Seq::filter);
    assert(obus.push(obu).drop_last() =~= obus);
}

proof fn lemma_without_metadata_add(obus: Seq<ObuView>, messages: Seq<Seq<u8>>)
    ensures
        without_metadata(obus + metadata_obus(messages)) == without_metadata(obus),
    decreases messages.len(),
{
    let tags = metadata_obus(messages);
    if messages.len() == 0 {
        assert(obus + tags =~= obus);
    } else {
        let fewer = metadata_obus(messages.drop_last());
        lemma_without_metadata_add(obus, messages.drop_last());
        lemma_without_metadata_push(obus + fewer, metadata_obu(messages.last()));
        assert(obus + tags =~= (obus + fewer).push(metadata_obu(messages.last())));
    }
}

proof fn lemma_metadata_all_well_formed(messages: Seq<Seq<u8>>)
    requires
        obus_bytes(metadata_obus(messages)).len() <= u32::MAX,
    ensures
        all_well_formed(metadata_obus(messages)),
    decreases messages.len(),
{
    if messages.len() > 0 {
        let fewer = metadata_obus(messages.drop_last());
        assert(metadata_obus(messages).drop_last() =~= fewer);
        lemma_metadata_all_well_formed(messages.drop_last());
        lemma_metadata_well_formed(messages.last());
        assert forall|k: int| 0 <= k < messages.len() implies well_formed_obu(
            #[trigger] metadata_obus(messages)[k],
        ) by {
            if k < messages.len() - 1 {
                assert(metadata_obus(messages)[k] == fewer[k]);
            }
        }
    }
}

/// `obus` without those that are marked as new.
pub open spec fn without_new(obus: Seq<ObuView>, new: Seq<bool>) -> Seq<ObuView>
    decreases obus.len(),
{
    if obus.len() == 0 {
        Seq::empty()
    } else {
        let front = without_new(obus.drop_last(), new.drop_last());
        if new.last() {
            front
        } else {
            front.push(obus.last())
        }
    }
}

/// An OBU that carries one of these messages.
pub open spec fn carries_message(obu: ObuView, messages: Seq<Seq<Seq<u8>>>) -> bool {
    exists|n: int, j: int|
        0 <= n < messages.len() && 0 <= j < messages[n].len() && obu == metadata_obu(
            #[trigger] messages[n][j],
        )
}

/// `new` marks OBUs of `after` that each carry one of these messages, and without them it is
/// `before`.
pub open spec fn marks_added(
    before: Seq<ObuView>,
    after: Seq<ObuView>,
    messages: Seq<Seq<Seq<u8>>>,
    new: Seq<bool>,
) -> bool {
    &&& new.len() == after.len()
    &&& without_new(after, new) == before
    &&& forall|i: int| 0 <= i < after.len() && #[trigger] new[i] ==> carries_message(after[i], messages)
}

/// `after` is `before` with nothing but these messages put in.
pub open spec fn adds_messages(
    before: Seq<ObuView>,
    after: Seq<ObuView>,
    messages: Seq<Seq<Seq<u8>>>,
) -> bool {
    exists|new: Seq<bool>| #[trigger] marks_added(before, after, messages, new)
}

/// Which OBUs of a temporal unit with metadata put in are new.
pub open spec fn new_obus(
    obus: Seq<ObuView>,
    messages: Seq<Seq<Seq<u8>>>,
    still: bool,
    shown: nat,
) -> Seq<bool>
    decreases obus.len(),
{
    if obus.len() == 0 {
        Seq::empty()
    } else {
        let t = tagged(obus.drop_last(), messages, still, shown)->0;
        let count = if shown_frame(obus.last(), still_after(obus.last(), t.still)) {
            messages[t.shown as int].len()
        } else {
            0
        };
        (new_obus(obus.drop_last(), messages, still, shown) + Seq::new(count, |i: int| true)).push(
            false,
        )
    }
}

proof fn lemma_without_new_add(obus: Seq<ObuView>, new: Seq<bool>, more: Seq<ObuView>)
    requires
        obus.len() == new.len(),
    ensures
        without_new(obus + more, new + Seq::new(more.len(), |i: int| true)) == without_new(
            obus,
            new,
        ),
    decreases more.len(),
{
    let marks = Seq::new(more.len(), |i: int| true);
    if more.len() == 0 {
        assert(obus + more =~= obus);
        assert(new + marks =~= new);
    } else {
        lemma_without_new_add(obus, new, more.drop_last());
        assert((obus + more).drop_last() =~= obus + more.drop_last());
        assert((new + marks).drop_last() =~= new + Seq::new(
            more.drop_last().len(),
            |i: int| true,
        ));
    }
}

/// Without the OBUs that are new, a temporal unit with metadata put in is the unit that it
/// was made from, and each new one carries one of the messages.
#[verifier::rlimit(50)]
pub proof fn law_tagging_adds_nothing_but_messages(
    obus: Seq<ObuView>,
    messages: Seq<Seq<Seq<u8>>>,
    still: bool,
    shown: nat,
)
    requires
        tagged(obus, messages, still, shown) is Some,
    ensures
        marks_added(
            obus,
            tagged(obus, messages, still, shown)->0.obus,
            messages,
            new_obus(obus, messages, still, shown),
        ),
    decreases obus.len(),
{
    let out = tagged(obus, messages, still, shown)->0.obus;
    let new = new_obus(obus, messages, still, shown);
    if obus.len() == 0 {
        assert(without_new(out, new) =~= obus);
    } else {
        let obu = obus.last();
        let t = tagged(obus.drop_last(), messages, still, shown)->0;
        let before = new_obus(obus.drop_last(), messages, still, shown);
        let tags = if shown_frame(obu, still_after(obu, t.still)) {
            metadata_obus(messages[t.shown as int])
        } else {
            Seq::empty()
        };
        let marks = Seq::new(tags.len(), |i: int| true);
        law_tagging_adds_nothing_but_messages(obus.drop_last(), messages, still, shown);
        lemma_without_new_add(t.obus, before, tags);
        assert(out =~= (t.obus + tags).push(obu));
        assert(new =~= (before + marks).push(false));
        assert(out.drop_last() =~= t.obus + tags);
        assert(new.drop_last() =~= before + marks);
        assert(without_new(out, new) =~= obus);
        assert forall|i: int| 0 <= i < out.len() && #[trigger] new[i] implies carries_message(
            out[i],
            messages,
        ) by {
            if i < before.len() {
                assert(before[i]);
                assert(out[i] == t.obus[i]);
            } else {
                let j = i - before.len();
                assert(out[i] == tags[j]);
                assert(tags[j] == metadata_obu(messages[t.shown as int][j]));
            }
        }
    }
}

/// A temporal unit with metadata put in is well-formed, and without its metadata it is the
/// unit that it was made from, without its metadata.
pub proof fn law_tagging_only_adds_metadata(
    obus: Seq<ObuView>,
    messages: Seq<Seq<Seq<u8>>>,
    still: bool,
    shown: nat,
)
    requires
        all_well_formed(obus),
        tagged(obus, messages, still, shown) is Some,
        obus_bytes(tagged(obus, messages, still, shown)->0.obus).len() <= u32::MAX,
    ensures
        all_well_formed(tagged(obus, messages, still, shown)->0.obus),
        without_metadata(tagged(obus, messages, still, shown)->0.obus) == without_metadata(obus),
        obus_of(obus_bytes(tagged(obus, messages, still, shown)->0.obus)) == Ok::<_, Av1Error>(
            tagged(obus, messages, still, shown)->0.obus,
        ),
    decreases obus.len(),
{
    let out = tagged(obus, messages, still, shown)->0.obus;
    if obus.len() > 0 {
        let obu = obus.last();
        let t = tagged(obus.drop_last(), messages, still, shown)->0;
        let now_still = still_after(obu, t.still);
        let tags = if shown_frame(obu, now_still) {
            metadata_obus(messages[t.shown as int])
        } else {
            Seq::empty()
        };
        assert(out =~= (t.obus + tags).push(obu));
        assert(out.drop_last() =~= t.obus + tags);
        lemma_obus_bytes_add(t.obus, tags);
        assert(all_well_formed(obus.drop_last())) by {
            assert forall|k: int| 0 <= k < obus.len() - 1 implies well_formed_obu(
                #[trigger] obus.drop_last()[k],
            ) by {
                assert(obus.drop_last()[k] == obus[k]);
            }
        }
        law_tagging_only_adds_metadata(obus.drop_last(), messages, still, shown);
        if shown_frame(obu, now_still) {
            lemma_metadata_all_well_formed(messages[t.shown as int]);
            lemma_without_metadata_add(t.obus, messages[t.shown as int]);
        } else {
            assert(t.obus + tags =~= t.obus);
        }
        lemma_without_metadata_push(t.obus + tags, obu);
        lemma_without_metadata_push(obus.drop_last(), obu);
        assert(obus =~= obus.drop_last().push(obu));
        assert forall|k: int| 0 <= k < out.len() implies well_formed_obu(#[trigger] out[k]) by {
            if k < t.obus.len() {
                assert(out[k] == t.obus[k]);
            } else if k < out.len() - 1 {
                assert(out[k] == tags[k - t.obus.len()]);
            } else {
                assert(out[k] == obus[obus.len() - 1]);
            }
        }
    }
    law_write_parses(Seq::empty(), out);
    assert(Seq::<u8>::empty() + obus_bytes(out) =~= obus_bytes(out));
}

/// A frame that was written reads back, wherever in a file it stands.
pub proof fn law_ivf_frame_round_trip(before: Seq<u8>, pts: u64, data: Seq<u8>, after: Seq<u8>)
    requires
        data.len() <= u32::MAX,
    ensures
        ivf_frame_at(before + ivf_frame_bytes(pts, data) + after, before.len() as int) == Ok::<
            _,
            Av1Error,
        >(
            Some(
                (
                    IvfFrameView { pts, data },
                    (before.len() + ivf_frame_bytes(pts, data).len()) as int,
                ),
            ),
        ),
{
    let whole = before + ivf_frame_bytes(pts, data) + after;
    let at = before.len() as int;
    crate::bytes::lemma_pow256();
    crate::bytes::law_le_round_trip(data.len(), 4);
    crate::bytes::law_le_round_trip(pts as nat, 8);
    assert(whole.subrange(at, at + 4) =~= le_bytes(data.len(), 4));
    assert(whole.subrange(at + 4, at + 12) =~= le_bytes(pts as nat, 8));
    assert(whole.subrange(at + 12, at + 12 + data.len()) =~= data);
}

/// Every frame of `after` is the frame of `before` at its place, with nothing but these
/// messages put in as metadata.
pub open spec fn differ_in_metadata(
    before: Seq<IvfFrameView>,
    after: Seq<IvfFrameView>,
    messages: Seq<Seq<Seq<u8>>>,
) -> bool {
    &&& before.len() == after.len()
    &&& forall|i: int|
        #![trigger before[i]]
        #![trigger after[i]]
        0 <= i < before.len() ==> {
            &&& before[i].pts == after[i].pts
            &&& obus_of(before[i].data) is Ok
            &&& obus_of(after[i].data) is Ok
            &&& adds_messages(
                obus_of(before[i].data)->Ok_0,
                obus_of(after[i].data)->Ok_0,
                messages,
            )
        }
}

proof fn lemma_tagged_frames(
    file: Seq<u8>,
    pos: int,
    messages: Seq<Seq<Seq<u8>>>,
    still: bool,
    shown: nat,
    before: Seq<u8>,
)
    requires
        0 <= pos,
        tagged_frames_from(file, pos, messages, still, shown) is Ok,
    ensures
        ({
            let body = tagged_frames_from(file, pos, messages, still, shown)->Ok_0;
            &&& ivf_frames_from(file, pos) is Ok
            &&& ivf_frames_from(before + body, before.len() as int) is Ok
            &&& differ_in_metadata(
                ivf_frames_from(file, pos)->Ok_0,
                ivf_frames_from(before + body, before.len() as int)->Ok_0,
                messages,
            )
        }),
    decreases file.len() - pos,
{
    let body = tagged_frames_from(file, pos, messages, still, shown)->Ok_0;
    match ivf_frame_at(file, pos) {
        Ok(Some((frame, end))) => {
            let obus = obus_of(frame.data)->Ok_0;
            let t = tagged(obus, messages, still, shown)->0;
            let unit = obus_bytes(t.obus);
            let rest = tagged_frames_from(file, end, messages, t.still, t.shown)->Ok_0;
            let next = before + ivf_frame_bytes(frame.pts, unit);
            lemma_tagged_frames(file, end, messages, t.still, t.shown, next);
            law_ivf_frame_round_trip(before, frame.pts, unit, rest);
            assert(before + body =~= next + rest);
            law_parse_splits(frame.data, 0);
            law_tagging_only_adds_metadata(obus, messages, still, shown);
            law_tagging_adds_nothing_but_messages(obus, messages, still, shown);
            assert(adds_messages(obus, t.obus, messages));
            let fs = ivf_frames_from(file, pos)->Ok_0;
            let gs = ivf_frames_from(before + body, before.len() as int)->Ok_0;
            let fs2 = ivf_frames_from(file, end)->Ok_0;
            let gs2 = ivf_frames_from(next + rest, next.len() as int)->Ok_0;
            assert(fs =~= seq![frame] + fs2);
            assert(gs =~= seq![IvfFrameView { pts: frame.pts, data: unit }] + gs2);
            assert forall|i: int|
                #![trigger fs[i]]
                #![trigger gs[i]]
                0 <= i < fs.len() implies {
                &&& fs[i].pts == gs[i].pts
                &&& obus_of(fs[i].data) is Ok
                &&& obus_of(gs[i].data) is Ok
                &&& adds_messages(
                    obus_of(fs[i].data)->Ok_0,
                    obus_of(gs[i].data)->Ok_0,
                    messages,
                )
            } by {
                if i > 0 {
                    assert(fs[i] == fs2[i - 1]);
                    assert(gs[i] == gs2[i - 1]);
                }
            }
        },
        _ => {},
    }
}

/// Inserting metadata changes nothing but that: the header, the number of frames and their
/// timestamps stay, and every frame holds the OBUs that it held, metadata among them, with
/// nothing between these but the messages.
pub proof fn law_insert_changes_only_metadata(file: Seq<u8>, messages: Seq<Seq<Seq<u8>>>)
    requires
        with_t35_metadata(file, messages) is Ok,
    ensures
        ({
            let out = with_t35_metadata(file, messages)->Ok_0;
            &&& ivf_header_len(out) == ivf_header_len(file)
            &&& out.subrange(0, ivf_header_len(file)->Ok_0 as int) == file.subrange(
                0,
                ivf_header_len(file)->Ok_0 as int,
            )
            &&& ivf_frames(file) is Ok
            &&& ivf_frames(out) is Ok
            &&& differ_in_metadata(ivf_frames(file)->Ok_0, ivf_frames(out)->Ok_0, messages)
        }),
{
    let len = ivf_header_len(file)->Ok_0;
    let head = file.subrange(0, len as int);
    let out = with_t35_metadata(file, messages)->Ok_0;
    lemma_tagged_frames(file, len as int, messages, false, 0, head);
    assert(out.subrange(0, 4) =~= file.subrange(0, 4));
    assert(out.subrange(6, 8) =~= file.subrange(6, 8));
    assert(out.subrange(0, len as int) =~= head);
}

proof fn lemma_frames_read_back(before: Seq<u8>, frames: Seq<IvfFrameView>)
    requires
        forall|i: int| 0 <= i < frames.len() ==> (#[trigger] frames[i]).data.len() <= u32::MAX,
    ensures
        ivf_frames_from(before + frames_bytes(frames), before.len() as int) == Ok::<_, Av1Error>(
            frames,
        ),
    decreases frames.len(),
{
    if frames.len() == 0 {
        assert(frames =~= Seq::empty());
    } else {
        let frame = frames[0];
        let rest = frames.drop_first();
        let unit = ivf_frame_bytes(frame.pts, frame.data);
        assert(frames =~= seq![frame] + rest);
        lemma_frames_bytes_add(seq![frame], rest);
        assert(frames_bytes(seq![frame]) =~= unit) by {
            reveal_with_fuel(frames_bytes, 2);
            assert(seq![frame].drop_last() =~= Seq::empty());
        }
        law_ivf_frame_round_trip(before, frame.pts, frame.data, frames_bytes(rest));
        assert(before + frames_bytes(frames) =~= before + unit + frames_bytes(rest));
        assert forall|i: int| 0 <= i < rest.len() implies (#[trigger] rest[i]).data.len()
            <= u32::MAX by {
            assert(rest[i] == frames[i + 1]);
        }
        lemma_frames_read_back(before + unit, rest);
    }
}

proof fn lemma_frame_sizes(file: Seq<u8>, pos: int)
    requires
        0 <= pos,
    ensures
        ivf_frames_from(file, pos) matches Ok(frames) ==> forall|i: int|
            0 <= i < frames.len() ==> (#[trigger] frames[i]).data.len() <= u32::MAX,
    decreases file.len() - pos,
{
    if let Ok(Some((frame, end))) = ivf_frame_at(file, pos) {
        crate::bytes::lemma_pow256();
        crate::bytes::lemma_le_value_bound(file.subrange(pos, pos + 4));
        lemma_frame_sizes(file, end);
        if let Ok(rest) = ivf_frames_from(file, end) {
            let frames = seq![frame] + rest;
            assert forall|i: int| 0 <= i < frames.len() implies (#[trigger] frames[i]).data.len()
                <= u32::MAX by {
                if i > 0 {
                    assert(frames[i] == rest[i - 1]);
                }
            }
        }
    }
}

proof fn lemma_all_frame_sizes(chunks: Seq<Seq<u8>>)
    ensures
        all_frames(chunks) matches Ok(frames) ==> forall|i: int|
            0 <= i < frames.len() ==> (#[trigger] frames[i]).data.len() <= u32::MAX,
    decreases chunks.len(),
{
    if chunks.len() > 0 {
        lemma_all_frame_sizes(chunks.drop_last());
        if let Ok(len) = ivf_header_len(chunks.last()) {
            lemma_frame_sizes(chunks.last(), len as int);
        }
    }
}

proof fn lemma_first_header(chunks: Seq<Seq<u8>>)
    requires
        chunks.len() > 0,
        all_frames(chunks) is Ok,
    ensures
        ivf_header_len(chunks[0]) is Ok,
    decreases chunks.len(),
{
    if chunks.len() > 1 {
        lemma_first_header(chunks.drop_last());
    }
}

/// Joining keeps every frame in order: the joined file reads back as the frames of all
/// chunks, one chunk after the other, with timestamps 0, 1, 2 and so on.
pub proof fn law_join_keeps_every_frame(chunks: Seq<Seq<u8>>)
    requires
        joined(chunks) is Ok,
    ensures
        ivf_frames(joined(chunks)->Ok_0) == Ok::<_, Av1Error>(
            stamped(all_frames(chunks)->Ok_0, 0),
        ),
{
    let frames = all_frames(chunks)->Ok_0;
    lemma_first_header(chunks);
    lemma_all_frame_sizes(chunks);
    let len = ivf_header_len(chunks[0])->Ok_0;
    let old_head = chunks[0].subrange(0, len as int);
    let head = with_frame_count(old_head, frames.len());
    let out = joined(chunks)->Ok_0;
    crate::bytes::lemma_bytes_len(
        if frames.len() <= u32::MAX {
            frames.len()
        } else {
            u32::MAX as nat
        },
        4,
    );
    assert(out.subrange(0, 4) =~= chunks[0].subrange(0, 4));
    assert(out.subrange(6, 8) =~= chunks[0].subrange(6, 8));
    assert forall|i: int| 0 <= i < stamped(frames, 0).len() implies (#[trigger] stamped(
        frames,
        0,
    )[i]).data.len() <= u32::MAX by {
        assert(stamped(frames, 0)[i].data == frames[i].data);
    }
    lemma_frames_read_back(head, stamped(frames, 0));
}

/// Trimming av1C keeps exactly the OBUs that belong there, and what is left needs no
/// second trimming.
pub proof fn law_trimmed_av1c_is_final(av1c: Seq<u8>)
    requires
        trimmed_av1c(av1c) is Some,
    ensures
        ({
            let out = trimmed_av1c(av1c)->0;
            let obus = obus_of(av1c.subrange(4, av1c.len() as int))->Ok_0;
            &&& obus_of(out.subrange(4, out.len() as int)) == Ok::<_, Av1Error>(
                obus.filter(|o: ObuView| belongs_in_av1c(o)),
            )
            &&& trimmed_av1c(out) is None
        }),
{
    let out = trimmed_av1c(av1c)->0;
    let rest = av1c.subrange(4, av1c.len() as int);
    let obus = obus_of(rest)->Ok_0;
    let keep = |o: ObuView| belongs_in_av1c(o);
    let kept = obus.filter(keep);
    law_parse_splits(rest, 0);
    assert forall|k: int| 0 <= k < kept.len() implies well_formed_obu(#[trigger] kept[k])
        && keep(kept[k]) by {
        assert(kept.contains(kept[k]));
        obus.lemma_filter_contains_rev(keep, kept[k]);
        let j = choose|j: int| 0 <= j < obus.len() && obus[j] == kept[k];
        assert(well_formed_obu(obus[j]));
    }
    law_write_parses(Seq::empty(), kept);
    assert(Seq::<u8>::empty() + obus_bytes(kept) =~= out.subrange(4, out.len() as int));
    assert(kept.all(keep));
}

/// Whether the stream is one of reduced still pictures behind the first `n` OBUs.
pub open spec fn still_behind(obus: Seq<ObuView>, still: bool, n: nat) -> bool
    decreases n,
{
    if n == 0 {
        still
    } else {
        still_after(obus[n - 1], still_behind(obus, still, (n - 1) as nat))
    }
}

/// How many of the first `n` OBUs are frames that are shown.
pub open spec fn shown_among(obus: Seq<ObuView>, still: bool, n: nat) -> nat
    decreases n,
{
    if n == 0 {
        0
    } else {
        shown_among(obus, still, (n - 1) as nat) + if shown_frame(
            obus[n - 1],
            still_behind(obus, still, n),
        ) {
            1nat
        } else {
            0nat
        }
    }
}

proof fn lemma_shown_among_front(a: Seq<ObuView>, b: Seq<ObuView>, still: bool, n: nat)
    requires
        n <= a.len() <= b.len(),
        forall|i: int| 0 <= i < n ==> #[trigger] a[i] == b[i],
    ensures
        still_behind(a, still, n) == still_behind(b, still, n),
        shown_among(a, still, n) == shown_among(b, still, n),
    decreases n,
{
    if n > 0 {
        lemma_shown_among_front(a, b, still, (n - 1) as nat);
        assert(a[n - 1] == b[n - 1]);
    }
}

/// Every frame that is shown uses up one entry of the messages, and nothing else does; there
/// has to be one for each.
pub proof fn law_each_shown_frame_takes_one_entry(
    obus: Seq<ObuView>,
    messages: Seq<Seq<Seq<u8>>>,
    still: bool,
    shown: nat,
)
    requires
        shown <= messages.len(),
    ensures
        tagged(obus, messages, still, shown) is Some <==> shown + shown_among(
            obus,
            still,
            obus.len(),
        ) <= messages.len(),
        tagged(obus, messages, still, shown) matches Some(t) ==> t.shown == shown + shown_among(
            obus,
            still,
            obus.len(),
        ) && t.still == still_behind(obus, still, obus.len()),
    decreases obus.len(),
{
    if obus.len() > 0 {
        let front = obus.drop_last();
        law_each_shown_frame_takes_one_entry(front, messages, still, shown);
        lemma_shown_among_front(front, obus, still, front.len());
    }
}

/// The messages of a frame stand right in front of it: those of the entry whose number is that
/// of the frame among the shown ones, all of them in their order, and then the frame.
#[verifier::rlimit(50)]
pub proof fn law_messages_stand_in_front_of_their_frame(
    obus: Seq<ObuView>,
    messages: Seq<Seq<Seq<u8>>>,
    still: bool,
    shown: nat,
    p: nat,
)
    requires
        shown <= messages.len(),
        tagged(obus, messages, still, shown) is Some,
        p < obus.len(),
        shown_frame(obus[p as int], still_behind(obus, still, p + 1)),
    ensures
        ({
            let out = tagged(obus, messages, still, shown)->0.obus;
            let own = messages[(shown + shown_among(obus, still, p)) as int];
            exists|at: int|
                #![trigger out[at]]
                {
                    &&& own.len() <= at < out.len()
                    &&& out[at] == obus[p as int]
                    &&& out.subrange(at - own.len(), at) == metadata_obus(own)
                }
        }),
    decreases obus.len(),
{
    let front = obus.drop_last();
    let t = tagged(front, messages, still, shown)->0;
    let out = tagged(obus, messages, still, shown)->0.obus;
    let own = messages[(shown + shown_among(obus, still, p)) as int];
    lemma_shown_among_front(front, obus, still, front.len());
    law_each_shown_frame_takes_one_entry(front, messages, still, shown);
    if p < front.len() {
        lemma_shown_among_front(front, obus, still, p);
        lemma_shown_among_front(front, obus, still, p + 1);
        assert(front[p as int] == obus[p as int]);
        law_messages_stand_in_front_of_their_frame(front, messages, still, shown, p);
        let at = choose|at: int|
            #![trigger t.obus[at]]
            {
                &&& own.len() <= at < t.obus.len()
                &&& t.obus[at] == front[p as int]
                &&& t.obus.subrange(at - own.len(), at) == metadata_obus(own)
            };
        assert(out[at] == t.obus[at]);
        assert(out.subrange(at - own.len(), at) =~= t.obus.subrange(at - own.len(), at));
    } else {
        assert(p == front.len());
        let at = out.len() - 1;
        assert(out[at] == obus[p as int]);
        assert(out.subrange(at - own.len(), at) =~= metadata_obus(own));
    }
}

/// The OBUs of all frames, one behind the other.
pub open spec fn all_obus(frames: Seq<IvfFrameView>) -> Seq<ObuView>
    decreases frames.len(),
{
    if frames.len() == 0 {
        Seq::empty()
    } else {
        obus_of(frames[0].data)->Ok_0 + all_obus(frames.drop_first())
    }
}

proof fn lemma_tagged_joined(
    a: Seq<ObuView>,
    b: Seq<ObuView>,
    messages: Seq<Seq<Seq<u8>>>,
    still: bool,
    shown: nat,
)
    requires
        tagged(a, messages, still, shown) is Some,
        ({
            let t = tagged(a, messages, still, shown)->0;
            tagged(b, messages, t.still, t.shown) is Some
        }),
    ensures
        ({
            let t = tagged(a, messages, still, shown)->0;
            let u = tagged(b, messages, t.still, t.shown)->0;
            &&& tagged(a + b, messages, still, shown) is Some
            &&& tagged(a + b, messages, still, shown)->0.obus == t.obus + u.obus
            &&& tagged(a + b, messages, still, shown)->0.still == u.still
            &&& tagged(a + b, messages, still, shown)->0.shown == u.shown
        }),
    decreases b.len(),
{
    let t = tagged(a, messages, still, shown)->0;
    let u = tagged(b, messages, t.still, t.shown)->0;
    if b.len() == 0 {
        assert(a + b =~= a);
        assert(t.obus + u.obus =~= t.obus);
    } else {
        let front = b.drop_last();
        lemma_tagged_joined(a, front, messages, still, shown);
        assert((a + b).drop_last() =~= a + front);
        assert((a + b).last() == b.last());
        assert(tagged(a + b, messages, still, shown)->0.obus =~= t.obus + u.obus);
    }
}

#[verifier::rlimit(50)]
#[verifier::spinoff_prover]
proof fn lemma_tagged_file(
    file: Seq<u8>,
    pos: int,
    messages: Seq<Seq<Seq<u8>>>,
    still: bool,
    shown: nat,
    before: Seq<u8>,
)
    requires
        0 <= pos,
        tagged_frames_from(file, pos, messages, still, shown) is Ok,
    ensures
        ({
            let body = tagged_frames_from(file, pos, messages, still, shown)->Ok_0;
            let ins = ivf_frames_from(file, pos)->Ok_0;
            let outs = ivf_frames_from(before + body, before.len() as int)->Ok_0;
            &&& tagged(all_obus(ins), messages, still, shown) is Some
            &&& tagged(all_obus(ins), messages, still, shown)->0.obus == all_obus(outs)
            &&& tagged(all_obus(ins), messages, still, shown)->0.shown == messages.len()
        }),
    decreases file.len() - pos,
{
    let body = tagged_frames_from(file, pos, messages, still, shown)->Ok_0;
    lemma_tagged_frames(file, pos, messages, still, shown, before);
    let fs = ivf_frames_from(file, pos)->Ok_0;
    let gs = ivf_frames_from(before + body, before.len() as int)->Ok_0;
    match ivf_frame_at(file, pos) {
        Ok(Some((frame, end))) => {
            let obus = obus_of(frame.data)->Ok_0;
            let t = tagged(obus, messages, still, shown)->0;
            let unit = obus_bytes(t.obus);
            let rest = tagged_frames_from(file, end, messages, t.still, t.shown)->Ok_0;
            let next = before + ivf_frame_bytes(frame.pts, unit);
            lemma_tagged_frames(file, end, messages, t.still, t.shown, next);
            lemma_tagged_file(file, end, messages, t.still, t.shown, next);
            law_ivf_frame_round_trip(before, frame.pts, unit, rest);
            assert(before + body =~= next + rest);
            law_parse_splits(frame.data, 0);
            law_tagging_only_adds_metadata(obus, messages, still, shown);
            let fs2 = ivf_frames_from(file, end)->Ok_0;
            let gs2 = ivf_frames_from(next + rest, next.len() as int)->Ok_0;
            assert(fs =~= seq![frame] + fs2);
            assert(gs =~= seq![IvfFrameView { pts: frame.pts, data: unit }] + gs2);
            assert(fs.drop_first() =~= fs2);
            assert(gs.drop_first() =~= gs2);
            assert(fs[0] == frame);
            assert(gs[0].data == unit);
            lemma_tagged_joined(obus, all_obus(fs2), messages, still, shown);
        },
        _ => {
            assert(fs =~= Seq::empty());
            assert(gs =~= Seq::empty());
        },
    }
}

/// Over a whole file the shown frames are counted through, from one temporal unit to the next:
/// its OBUs with metadata put in are those of all its units as one, every entry of the messages
/// used. So the n-th frame that the file shows has the n-th entry in front of it.
pub proof fn law_shown_frames_are_counted_through(file: Seq<u8>, messages: Seq<Seq<Seq<u8>>>)
    requires
        with_t35_metadata(file, messages) is Ok,
    ensures
        ({
            let out = with_t35_metadata(file, messages)->Ok_0;
            let obus = all_obus(ivf_frames(file)->Ok_0);
            &&& tagged(obus, messages, false, 0) is Some
            &&& all_obus(ivf_frames(out)->Ok_0) == tagged(obus, messages, false, 0)->0.obus
            &&& shown_among(obus, false, obus.len()) == messages.len()
        }),
{
    let len = ivf_header_len(file)->Ok_0;
    let head = file.subrange(0, len as int);
    law_insert_changes_only_metadata(file, messages);
    lemma_tagged_file(file, len as int, messages, false, 0, head);
    let obus = all_obus(ivf_frames(file)->Ok_0);
    law_each_shown_frame_takes_one_entry(obus, messages, false, 0);
}

/// A frame is shown by the first bit of its header, or by the fourth where that is not set;
/// a frame of reduced still pictures always is, and nothing but frames ever is.
pub proof fn law_frames_are_shown_by_their_header(obu: ObuView, still: bool)
    ensures
        shown_frame(obu, still) ==> obu.kind == 3 || obu.kind == 6,
        (obu.kind == 3 || obu.kind == 6) && still ==> shown_frame(obu, still),
        (obu.kind == 3 || obu.kind == 6) && !still && obu.payload.len() > 0 ==> (shown_frame(
            obu,
            still,
        ) <==> obu.payload[0] >= 128 || (obu.payload[0] / 16) % 2 == 1),
        (obu.kind == 3 || obu.kind == 6) && !still && obu.payload.len() == 0 ==> !shown_frame(
            obu,
            still,
        ),
{
    if obu.payload.len() > 0 {
        let b = obu.payload[0];
        assert((b & 0x90 != 0) <==> (b >= 128 || (b / 16) % 2 == 1)) by (bit_vector);
    }
}

/// Metadata of a frame does not stay in av1C, and neither do frames; the sequence header and
/// the static HDR metadata do.
pub proof fn law_only_static_metadata_stays(obu: ObuView, message: Seq<u8>)
    ensures
        !belongs_in_av1c(metadata_obu(message)),
        obu.kind == 3 || obu.kind == 6 ==> !belongs_in_av1c(obu),
        obu.kind == 1 ==> belongs_in_av1c(obu),
        obu.kind == 5 && obu.payload.len() > 0 && (obu.payload[0] == 1 || obu.payload[0] == 2)
            ==> belongs_in_av1c(obu),
        obu.kind == 5 && obu.payload.len() > 0 && obu.payload[0] > 2 ==> !belongs_in_av1c(obu),
{
}

/// Each chunk is in the join whole, behind those in front of it, and none is of another codec,
/// size or time base.
pub proof fn law_every_chunk_is_in_the_join(chunks: Seq<Seq<u8>>, i: int)
    requires
        all_frames(chunks) is Ok,
        0 <= i < chunks.len(),
    ensures
        all_frames(chunks.take(i)) is Ok,
        ivf_frames(chunks[i]) is Ok,
        ({
            let from = all_frames(chunks.take(i))->Ok_0.len() as int;
            let own = ivf_frames(chunks[i])->Ok_0;
            &&& from + own.len() <= all_frames(chunks)->Ok_0.len()
            &&& all_frames(chunks)->Ok_0.subrange(from, from + own.len()) == own
            &&& i == chunks.len() - 1 ==> from + own.len() == all_frames(chunks)->Ok_0.len()
        }),
        chunks[i].subrange(8, 24) == chunks[0].subrange(8, 24),
    decreases chunks.len(),
{
    let front = chunks.drop_last();
    let before = all_frames(front)->Ok_0;
    let all = all_frames(chunks)->Ok_0;
    if i < front.len() {
        law_every_chunk_is_in_the_join(front, i);
        assert(front.take(i) =~= chunks.take(i));
        assert(front[i] == chunks[i] && front[0] == chunks[0]);
        let from = all_frames(chunks.take(i))->Ok_0.len() as int;
        let own = ivf_frames(chunks[i])->Ok_0;
        assert(all.subrange(from, from + own.len()) =~= before.subrange(from, from + own.len()));
    } else {
        assert(chunks.take(i) =~= front);
        let own = ivf_frames(chunks[i])->Ok_0;
        assert(all.subrange(before.len() as int, before.len() + own.len() as int) =~= own);
    }
}

/// A joined file says how many frames it holds.
pub proof fn law_join_counts_its_frames(chunks: Seq<Seq<u8>>)
    requires
        joined(chunks) is Ok,
        all_frames(chunks)->Ok_0.len() <= u32::MAX,
    ensures
        le_value(joined(chunks)->Ok_0.subrange(24, 28)) == all_frames(chunks)->Ok_0.len(),
        joined(chunks)->Ok_0.subrange(0, 24) == chunks[0].subrange(0, 24),
{
    let n = all_frames(chunks)->Ok_0.len();
    let out = joined(chunks)->Ok_0;
    lemma_first_header(chunks);
    crate::bytes::lemma_pow256();
    crate::bytes::law_le_round_trip(n, 4);
    assert(out.subrange(24, 28) =~= le_bytes(n, 4));
    assert(out.subrange(0, 24) =~= chunks[0].subrange(0, 24));
}

} // verus!
