//! Matroska elements, and the one rewrite that a finished file gets: per-frame metadata is
//! taken out of the av1C of its AV1 tracks, in place.
use crate::av1::{
    all_well_formed, av1c_without_frame_metadata, belongs_in_av1c, law_parse_splits,
    lemma_obu_extent, obus_bytes, obus_of, pow128, trimmed_av1c, well_formed_obu, ObuView,
};
use crate::bytes::{be_bytes, be_value, pow256, push_all, push_be, read_be};
use vstd::prelude::*;
use vstd::slice::slice_subrange;

verus! {

pub const EBML_HEADER: u64 = 0x1A45_DFA3;

pub const SEGMENT: u64 = 0x1853_8067;

pub const TRACKS: u64 = 0x1654_AE6B;

pub const CLUSTER: u64 = 0x1F43_B675;

pub const TRACK_ENTRY: u64 = 0xAE;

pub const CODEC_ID: u64 = 0x86;

pub const CODEC_PRIVATE: u64 = 0x63A2;

pub const VOID: u8 = 0xEC;

/// Why a file was refused.
#[derive(Clone, Copy, Debug, PartialEq, Eq, Structural)]
pub enum MkvError {
    /// No element can be read at this byte.
    NoElement { pos: u64 },
    /// The file does not start with an EBML header.
    NotMatroska,
    /// The EBML header does not say where it ends.
    UnknownEbmlSize,
    /// No Segment follows the EBML header.
    NoSegment,
    /// A top-level element in front of the first cluster does not say where it ends.
    UnknownTopLevelSize,
    /// The element at this byte runs past the end of the file.
    PastEnd { pos: u64 },
}

/// An element within a buffer; `size` is None for the unknown-size marker.
#[derive(Clone, Copy, Debug)]
pub struct Element {
    pub id: u64,
    pub start: usize,
    pub data: usize,
    pub size: Option<u64>,
}

/// What an `Element` says.
pub struct ElementView {
    pub id: nat,
    pub start: int,
    pub data: int,
    pub size: Option<nat>,
}

impl View for Element {
    type V = ElementView;

    open spec fn view(&self) -> ElementView {
        ElementView {
            id: self.id as nat,
            start: self.start as int,
            data: self.data as int,
            size: match self.size {
                Some(s) => Some(s as nat),
                None => None,
            },
        }
    }
}

pub open spec fn element_views(elements: Seq<Element>) -> Seq<ElementView> {
    Seq::new(elements.len(), |i: int| elements[i]@)
}

/// The length of a vint by the leading zero bits of its first byte.
pub open spec fn vint_width(first: u8) -> Option<nat> {
    if first >= 128 {
        Some(1)
    } else if first >= 64 {
        Some(2)
    } else if first >= 32 {
        Some(3)
    } else if first >= 16 {
        Some(4)
    } else if first >= 8 {
        Some(5)
    } else if first >= 4 {
        Some(6)
    } else if first >= 2 {
        Some(7)
    } else if first >= 1 {
        Some(8)
    } else {
        None
    }
}

pub fn vint_len(first: u8) -> (r: Option<usize>)
    ensures
        match r {
            Some(n) => vint_width(first) == Some(n as nat),
            None => vint_width(first) is None,
        },
{
    if first >= 128 {
        Some(1)
    } else if first >= 64 {
        Some(2)
    } else if first >= 32 {
        Some(3)
    } else if first >= 16 {
        Some(4)
    } else if first >= 8 {
        Some(5)
    } else if first >= 4 {
        Some(6)
    } else if first >= 2 {
        Some(7)
    } else if first >= 1 {
        Some(8)
    } else {
        None
    }
}

/// The element of `buf` at `start`: an ID with its length marker, then a size without it,
/// which is unknown when all its bits are set.
pub open spec fn element_at(buf: Seq<u8>, start: int) -> Option<ElementView> {
    if start < 0 || start >= buf.len() {
        None
    } else {
        match vint_width(buf[start]) {
            None => None,
            Some(id_len) => if start + id_len >= buf.len() {
                None
            } else {
                match vint_width(buf[start + id_len]) {
                    None => None,
                    Some(size_len) => if start + id_len + size_len > buf.len() {
                        None
                    } else {
                        let value = (be_value(
                            buf.subrange(start + id_len, start + id_len + size_len),
                        ) - pow128(size_len)) as nat;
                        Some(
                            ElementView {
                                id: be_value(buf.subrange(start, start + id_len)),
                                start,
                                data: start + id_len + size_len,
                                size: if value == pow128(size_len) - 1 {
                                    None
                                } else {
                                    Some(value)
                                },
                            },
                        )
                    },
                }
            },
        }
    }
}

pub proof fn lemma_pow128_values()
    ensures
        pow128(0) == 1,
        pow128(1) == 0x80,
        pow128(2) == 0x4000,
        pow128(3) == 0x20_0000,
        pow128(4) == 0x1000_0000,
        pow128(5) == 0x8_0000_0000,
        pow128(6) == 0x400_0000_0000,
        pow128(7) == 0x2_0000_0000_0000,
        pow128(8) == 0x100_0000_0000_0000,
{
    reveal_with_fuel(pow128, 9);
}

/// A number starts with its first byte times a power of 256.
proof fn lemma_be_split(s: Seq<u8>)
    requires
        s.len() > 0,
    ensures
        be_value(s) == s[0] * pow256((s.len() - 1) as nat) + be_value(s.drop_first()),
    decreases s.len(),
{
    if s.len() == 1 {
        assert(s.drop_last() =~= Seq::empty());
        assert(s.drop_first() =~= Seq::empty());
        reveal_with_fuel(be_value, 2);
        let p = pow256(0);
        assert(s[0] * p == s[0]) by (nonlinear_arith)
            requires
                p == 1,
        ;
    } else {
        let t = s.drop_last();
        lemma_be_split(t);
        assert(t.drop_first() =~= s.drop_first().drop_last());
        assert(s.drop_first().last() == s.last());
        let p = pow256((s.len() - 2) as nat);
        assert(pow256((s.len() - 1) as nat) == 256 * p);
        assert(t[0] == s[0]);
        assert(256 * (s[0] * p + be_value(t.drop_first())) == s[0] * (256 * p) + 256 * be_value(
            t.drop_first(),
        )) by (nonlinear_arith);
    }
}

/// The length marker of a size is its highest bit: between it and twice it lies the rest.
proof fn lemma_marked(s: Seq<u8>)
    requires
        s.len() > 0,
        vint_width(s[0]) == Some(s.len()),
    ensures
        pow128(s.len()) <= be_value(s) < 2 * pow128(s.len()),
        s.len() <= 8,
{
    lemma_be_split(s);
    crate::bytes::lemma_be_value_bound(s.drop_first());
    crate::bytes::lemma_pow256();
    lemma_pow128_values();
    let n = s.len();
    let f = s[0] as int;
    let r = be_value(s.drop_first()) as int;
    assert(n <= 8);
    if n == 1 {
        assert(be_value(s) == f * 1 + r);
    } else if n == 2 {
        assert(be_value(s) == f * 0x100 + r);
    } else if n == 3 {
        assert(be_value(s) == f * 0x1_0000 + r);
    } else if n == 4 {
        assert(be_value(s) == f * 0x100_0000 + r);
    } else if n == 5 {
        assert(be_value(s) == f * 0x1_0000_0000 + r);
    } else if n == 6 {
        assert(be_value(s) == f * 0x100_0000_0000 + r);
    } else if n == 7 {
        assert(be_value(s) == f * 0x1_0000_0000_0000 + r);
    } else {
        assert(be_value(s) == f * 0x100_0000_0000_0000 + r);
    }
}

/// An element's header lies in its buffer and takes 2 to 16 bytes; its size has at most 56
/// bits.
pub proof fn lemma_element_at(buf: Seq<u8>, start: int)
    ensures
        element_at(buf, start) matches Some(el) ==> {
            &&& 0 <= start == el.start
            &&& start + 2 <= el.data <= buf.len()
            &&& el.data <= start + 16
            &&& el.size matches Some(s) ==> s < 0x100_0000_0000_0000 - 1
        },
{
    if let Some(el) = element_at(buf, start) {
        let id_len = vint_width(buf[start])->0;
        let size_len = vint_width(buf[start + id_len])->0;
        let s = buf.subrange(start + id_len, start + id_len + size_len);
        lemma_marked(s);
        lemma_pow128_values();
    }
}

pub fn read_element(buf: &[u8], start: usize) -> (r: Option<Element>)
    ensures
        match r {
            Some(el) => element_at(buf@, start as int) == Some(el@),
            None => element_at(buf@, start as int) is None,
        },
{
    if start >= buf.len() {
        return None;
    }
    let id_len: usize = match vint_len(buf[start]) {
        Some(n) => n,
        None => {
            return None;
        },
    };
    if buf.len() - start <= id_len {
        return None;
    }
    let size_pos: usize = start + id_len;
    let size_len: usize = match vint_len(buf[size_pos]) {
        Some(n) => n,
        None => {
            return None;
        },
    };
    if buf.len() - size_pos < size_len {
        return None;
    }
    let id: u64 = read_be(buf, start, id_len);
    let marked: u64 = read_be(buf, size_pos, size_len);
    let ghost s = buf@.subrange(size_pos as int, size_pos + size_len);
    proof {
        lemma_marked(s);
        lemma_pow128_values();
    }
    let marker: u64 = match size_len {
        1 => 0x80,
        2 => 0x4000,
        3 => 0x20_0000,
        4 => 0x1000_0000,
        5 => 0x8_0000_0000,
        6 => 0x400_0000_0000,
        7 => 0x2_0000_0000_0000,
        _ => 0x100_0000_0000_0000,
    };
    let value: u64 = marked - marker;
    let size = if value == marker - 1 {
        None
    } else {
        Some(value)
    };
    Some(Element { id, start, data: size_pos + size_len, size })
}

/// Where an element of known size ends, if that is within the buffer.
pub open spec fn element_end(buf: Seq<u8>, el: ElementView) -> Option<int> {
    match el.size {
        Some(s) => if el.data + s <= buf.len() {
            Some(el.data + s)
        } else {
            None
        },
        None => None,
    }
}

/// The elements of `buf` from `pos` on, up to the first that cannot be read or that does
/// not end inside.
pub open spec fn children_from(buf: Seq<u8>, pos: int) -> Seq<ElementView>
    decreases buf.len() - pos,
{
    match element_at(buf, pos) {
        None => Seq::empty(),
        Some(el) => match element_end(buf, el) {
            None => Seq::empty(),
            Some(end) => {
                proof {
                    lemma_element_at(buf, pos);
                }
                seq![el] + children_from(buf, end)
            },
        },
    }
}

pub open spec fn children_of(buf: Seq<u8>) -> Seq<ElementView> {
    children_from(buf, 0)
}

/// An element that was read lies inside its buffer.
pub open spec fn inside(buf: Seq<u8>, el: ElementView) -> bool {
    &&& element_at(buf, el.start) == Some(el)
    &&& element_end(buf, el) is Some
}

pub proof fn lemma_children_inside(buf: Seq<u8>, pos: int)
    ensures
        forall|k: int|
            0 <= k < children_from(buf, pos).len() ==> inside(
                buf,
                #[trigger] children_from(buf, pos)[k],
            ),
    decreases buf.len() - pos,
{
    if let Some(el) = element_at(buf, pos) {
        if let Some(end) = element_end(buf, el) {
            lemma_element_at(buf, pos);
            lemma_children_inside(buf, end);
            let rest = children_from(buf, end);
            assert forall|k: int| 0 <= k < children_from(buf, pos).len() implies inside(
                buf,
                #[trigger] children_from(buf, pos)[k],
            ) by {
                if k > 0 {
                    assert(children_from(buf, pos)[k] == rest[k - 1]);
                }
            }
        }
    }
}

pub fn children(buf: &[u8]) -> (out: Vec<Element>)
    ensures
        element_views(out@) == children_of(buf@),
{
    let mut out: Vec<Element> = Vec::new();
    let mut pos: usize = 0;
    assert(element_views(out@) + children_from(buf@, 0) =~= children_of(buf@));
    loop
        invariant
            pos <= buf@.len(),
            element_views(out@) + children_from(buf@, pos as int) == children_of(buf@),
        decreases buf@.len() - pos,
    {
        let el = match read_element(buf, pos) {
            Some(el) => el,
            None => {
                assert(element_views(out@) + Seq::<ElementView>::empty() =~= element_views(out@));
                return out;
            },
        };
        proof {
            lemma_element_at(buf@, pos as int);
        }
        let size: u64 = match el.size {
            Some(s) => s,
            None => {
                assert(element_views(out@) + Seq::<ElementView>::empty() =~= element_views(out@));
                return out;
            },
        };
        if size > (buf.len() - el.data) as u64 {
            assert(element_views(out@) + Seq::<ElementView>::empty() =~= element_views(out@));
            return out;
        }
        let end: usize = el.data + size as usize;
        let ghost before = element_views(out@);
        out.push(el);
        proof {
            assert(element_views(out@) =~= before.push(el@));
            assert(element_views(out@) + children_from(buf@, end as int) =~= before + (seq![el@]
                + children_from(buf@, end as int)));
        }
        pos = end;
    }
}

/// `value` as a vint of `len` bytes: big-endian, with its length marker.
pub open spec fn vint_bytes(value: nat, len: nat) -> Seq<u8> {
    be_bytes(value + pow128(len), len)
}

pub fn write_vint(value: u64, len: usize, out: &mut Vec<u8>)
    requires
        1 <= len <= 8,
        value < pow128(len as nat),
    ensures
        final(out)@ == old(out)@ + vint_bytes(value as nat, len as nat),
{
    proof {
        lemma_pow128_values();
    }
    let marker: u64 = match len {
        1 => 0x80,
        2 => 0x4000,
        3 => 0x20_0000,
        4 => 0x1000_0000,
        5 => 0x8_0000_0000,
        6 => 0x400_0000_0000,
        7 => 0x2_0000_0000_0000,
        _ => 0x100_0000_0000_0000,
    };
    push_be(out, value + marker, len);
}

// ---------------------------------------------------------------------------
// Shrinking an element in place
// ---------------------------------------------------------------------------
/// The number of bytes that the size field of an element takes.
pub open spec fn size_width(buf: Seq<u8>, el: ElementView) -> nat {
    (el.data - el.start - vint_width(buf[el.start])->0) as nat
}

/// The size field of an element has 1 to 8 bytes, and the size fits it.
proof fn lemma_size_width(buf: Seq<u8>, el: ElementView)
    requires
        element_at(buf, el.start) == Some(el),
    ensures
        1 <= size_width(buf, el) <= 8,
        vint_width(buf[el.start]) is Some,
        vint_width(buf[el.data - size_width(buf, el)]) == Some(size_width(buf, el)),
        el.size matches Some(s) ==> s + 1 < pow128(size_width(buf, el)),
{
    let id_len = vint_width(buf[el.start])->0;
    let size_len = vint_width(buf[el.start + id_len])->0;
    lemma_marked(buf.subrange(el.start + id_len, el.start + id_len + size_len));
}

/// Whether a Void of `total` bytes can have a size field of `n` bytes.
pub open spec fn void_fits(total: nat, n: nat) -> bool {
    total > n && total - 1 - n < pow128(n) - 1
}

/// The shortest size field, of at least `n` bytes, for a Void of `total` bytes.
pub open spec fn void_width_from(total: nat, n: nat) -> Option<nat>
    decreases 9 - n,
{
    if n > 8 {
        None
    } else if void_fits(total, n) {
        Some(n)
    } else {
        void_width_from(total, n + 1)
    }
}

pub open spec fn zeros(n: nat) -> Seq<u8> {
    Seq::new(n, |i: int| 0u8)
}

/// A Void element of `total` bytes.
pub open spec fn void_element(total: nat) -> Option<Seq<u8>> {
    match void_width_from(total, 1) {
        Some(n) => Some(
            seq![VOID] + vint_bytes((total - 1 - n) as nat, n) + zeros((total - 1 - n) as nat),
        ),
        None => None,
    }
}

/// `el` rewritten to hold `data`, padded with a Void to its old length; None when there is
/// no room for that.
pub open spec fn shrunk(old_bytes: Seq<u8>, el: ElementView, data: Seq<u8>) -> Option<Seq<u8>> {
    let width = size_width(old_bytes, el);
    if data.len() > el.size->0 {
        None
    } else {
        match void_element((el.size->0 - data.len()) as nat) {
            None => None,
            Some(void) => Some(
                old_bytes.subrange(el.start, el.data - width) + vint_bytes(data.len(), width) + data
                    + void,
            ),
        }
    }
}

fn find_void_width(total: usize) -> (r: Option<usize>)
    ensures
        match r {
            Some(n) => void_width_from(total as nat, 1) == Some(n as nat) && 1 <= n <= 8
                && void_fits(total as nat, n as nat),
            None => void_width_from(total as nat, 1) is None,
        },
{
    let mut n: usize = 1;
    let mut room: u64 = 0x80;
    proof {
        lemma_pow128_values();
    }
    while n <= 8
        invariant
            1 <= n <= 9,
            room == pow128(n as nat),
            room <= 0x8000_0000_0000_0000,
            void_width_from(total as nat, 1) == void_width_from(total as nat, n as nat),
        decreases 9 - n,
    {
        proof {
            lemma_pow128_values();
        }
        if total > n && ((total - 1 - n) as u64) < room - 1 {
            return Some(n);
        }
        room = room * 128;
        n = n + 1;
    }
    None
}

/// The element rewritten to hold `data`, padded with a Void to its old length, so no offset
/// after it moves. None when the Void does not fit.
pub fn shrink_element(old_bytes: &[u8], el: &Element, data: &[u8]) -> (r: Option<Vec<u8>>)
    requires
        inside(old_bytes@, el@),
    ensures
        match r {
            Some(out) => shrunk(old_bytes@, el@, data@) == Some(out@),
            None => shrunk(old_bytes@, el@, data@) is None,
        },
{
    proof {
        lemma_element_at(old_bytes@, el@.start);
        lemma_size_width(old_bytes@, el@);
    }
    let id_len: usize = match vint_len(old_bytes[el.start]) {
        Some(n) => n,
        None => {
            return None;
        },
    };
    let width: usize = el.data - el.start - id_len;
    let size: usize = data_end(old_bytes, el) - el.data;
    if data.len() > size {
        return None;
    }
    let mut out: Vec<u8> = Vec::new();
    push_all(&mut out, slice_subrange(old_bytes, el.start, el.data - width));
    write_vint(data.len() as u64, width, &mut out);
    push_all(&mut out, data);
    let total: usize = size - data.len();
    let n: usize = match find_void_width(total) {
        Some(n) => n,
        None => {
            return None;
        },
    };
    let ghost head = out@;
    let pad: usize = total - 1 - n;
    out.push(VOID);
    write_vint(pad as u64, n, &mut out);
    let ghost marked = out@;
    let mut i: usize = 0;
    assert(out@ =~= marked + zeros(0));
    while i < pad
        invariant
            i <= pad,
            out@ == marked + zeros(i as nat),
        decreases pad - i,
    {
        out.push(0);
        i = i + 1;
        assert(out@ =~= marked + zeros(i as nat));
    }
    assert(out@ =~= old_bytes@.subrange(el@.start, el.data - width) + vint_bytes(
        data@.len(),
        width as nat,
    ) + data@ + (seq![VOID] + vint_bytes(pad as nat, n as nat) + zeros(pad as nat)));
    Some(out)
}

// ---------------------------------------------------------------------------
// Tracks
// ---------------------------------------------------------------------------
/// `whole` with `part` written over it from `at` on.
pub open spec fn overwritten(whole: Seq<u8>, at: int, part: Seq<u8>) -> Seq<u8> {
    whole.subrange(0, at) + part + whole.subrange(at + part.len(), whole.len() as int)
}

/// The data of an element of known size.
pub open spec fn element_data(buf: Seq<u8>, el: ElementView) -> Seq<u8> {
    buf.subrange(el.data, el.data + el.size->0)
}

/// The codec ID of AV1: `V_AV1`.
pub open spec fn av1_codec_id() -> Seq<u8> {
    seq![0x56u8, 0x5Fu8, 0x41u8, 0x56u8, 0x31u8]
}

pub open spec fn is_av1_track(body: Seq<u8>, fields: Seq<ElementView>) -> bool {
    exists|k: int|
        0 <= k < fields.len() && (#[trigger] fields[k]).id == CODEC_ID && element_data(
            body,
            fields[k],
        ) == av1_codec_id()
}

/// The place of the first element with this ID, or the number of elements.
pub open spec fn first_with_id(fields: Seq<ElementView>, id: nat) -> int
    decreases fields.len(),
{
    if fields.len() == 0 || fields[0].id == id {
        0
    } else {
        1 + first_with_id(fields.drop_first(), id)
    }
}

/// What a track entry becomes when its av1C holds per-frame metadata; None when there is
/// nothing to take out.
pub open spec fn trimmed_entry(body: Seq<u8>) -> Option<Seq<u8>> {
    let fields = children_of(body);
    let at = first_with_id(fields, CODEC_PRIVATE as nat);
    if at >= fields.len() || !is_av1_track(body, fields) {
        None
    } else {
        let private = fields[at];
        match trimmed_av1c(element_data(body, private)) {
            None => None,
            Some(av1c) => match shrunk(body, private, av1c) {
                None => None,
                Some(bytes) => Some(overwritten(body, private.start, bytes)),
            },
        }
    }
}

/// `tracks` with every one of `entries` trimmed that has something to trim.
pub open spec fn trimmed_entries(tracks: Seq<u8>, entries: Seq<ElementView>) -> Seq<u8>
    decreases entries.len(),
{
    if entries.len() == 0 {
        tracks
    } else {
        let so_far = trimmed_entries(tracks, entries.drop_last());
        let entry = entries.last();
        if entry.id != TRACK_ENTRY {
            so_far
        } else {
            match trimmed_entry(element_data(tracks, entry)) {
                Some(body) => overwritten(so_far, entry.data, body),
                None => so_far,
            }
        }
    }
}

/// Whether any of `entries` has something to trim.
pub open spec fn any_trimmed(tracks: Seq<u8>, entries: Seq<ElementView>) -> bool {
    exists|k: int|
        0 <= k < entries.len() && (#[trigger] entries[k]).id == TRACK_ENTRY && trimmed_entry(
            element_data(tracks, entries[k]),
        ) is Some
}

/// A Void takes the room that it is to fill.
proof fn lemma_void_element(total: nat)
    ensures
        void_element(total) matches Some(v) ==> v.len() == total && 2 <= total,
    decreases total,
{
    lemma_void_width(total, 1);
    if let Some(n) = void_width_from(total, 1) {
        crate::bytes::lemma_bytes_len((total - 1 - n) as nat + pow128(n), n);
    }
}

proof fn lemma_void_width(total: nat, n: nat)
    requires
        1 <= n,
    ensures
        void_width_from(total, n) matches Some(w) ==> n <= w <= 8 && void_fits(total, w),
        2 <= total < 0x100_0000_0000_0000 && n == 1 ==> void_width_from(total, n) is Some,
    decreases 9 - n,
{
    if n <= 8 {
        lemma_void_width(total, n + 1);
    }
    if n == 1 && 2 <= total < 0x100_0000_0000_0000 {
        lemma_pow128_values();
        reveal_with_fuel(void_width_from, 10);
    }
}

/// Shrinking keeps the length of the element.
proof fn lemma_shrunk_len(body: Seq<u8>, el: ElementView, data: Seq<u8>)
    requires
        inside(body, el),
    ensures
        shrunk(body, el, data) matches Some(bytes) ==> bytes.len() == el.data + el.size->0
            - el.start,
{
    lemma_element_at(body, el.start);
    lemma_size_width(body, el);
    if let Some(bytes) = shrunk(body, el, data) {
        lemma_void_element((el.size->0 - data.len()) as nat);
        crate::bytes::lemma_bytes_len(
            data.len() + pow128(size_width(body, el)),
            size_width(body, el),
        );
    }
}

proof fn lemma_first_with_id(fields: Seq<ElementView>, id: nat)
    ensures
        0 <= first_with_id(fields, id) <= fields.len(),
        first_with_id(fields, id) < fields.len() ==> fields[first_with_id(fields, id)].id == id,
        forall|k: int|
            0 <= k < first_with_id(fields, id) ==> (#[trigger] fields[k]).id != id,
    decreases fields.len(),
{
    if fields.len() > 0 && fields[0].id != id {
        lemma_first_with_id(fields.drop_first(), id);
        assert forall|k: int| 0 <= k < first_with_id(fields, id) implies (
        #[trigger] fields[k]).id != id by {
            if k > 0 {
                assert(fields[k] == fields.drop_first()[k - 1]);
            }
        }
    }
}

/// A trimmed entry is as long as before and differs only within its CodecPrivate element.
pub proof fn law_trimmed_entry_in_place(body: Seq<u8>)
    ensures
        trimmed_entry(body) matches Some(out) ==> {
            let private = children_of(body)[first_with_id(
                children_of(body),
                CODEC_PRIVATE as nat,
            )];
            &&& out.len() == body.len()
            &&& inside(body, private)
            &&& forall|i: int|
                0 <= i < body.len() && !(private.start <= i < private.data + private.size->0)
                    ==> #[trigger] out[i] == body[i]
        },
{
    let fields = children_of(body);
    let at = first_with_id(fields, CODEC_PRIVATE as nat);
    lemma_first_with_id(fields, CODEC_PRIVATE as nat);
    lemma_children_inside(body, 0);
    if let Some(out) = trimmed_entry(body) {
        let private = fields[at];
        assert(inside(body, private));
        lemma_element_at(body, private.start);
        lemma_shrunk_len(body, private, trimmed_av1c(element_data(body, private))->0);
    }
}

/// Where an element of `buf` ends.
fn data_end(buf: &[u8], el: &Element) -> (end: usize)
    requires
        inside(buf@, el@),
    ensures
        end == el@.data + el@.size->0,
        el@.data <= end <= buf@.len(),
{
    let len: usize = buf.len();
    match el.size {
        Some(s) => {
            assert(el@.data + s <= len);
            el.data + s as usize
        },
        None => el.data,
    }
}

/// What `trim_tracks` does to one track entry.
fn trim_entry(body: &[u8]) -> (r: Option<(usize, Vec<u8>)>)
    ensures
        match r {
            Some((at, bytes)) => {
                &&& at + bytes@.len() <= body@.len()
                &&& trimmed_entry(body@) == Some(overwritten(body@, at as int, bytes@))
            },
            None => trimmed_entry(body@) is None,
        },
{
    let fields = children(body);
    let ghost views = children_of(body@);
    proof {
        lemma_children_inside(body@, 0);
        lemma_first_with_id(views, CODEC_PRIVATE as nat);
    }
    let mut is_av1 = false;
    let mut at: usize = fields.len();
    let mut i: usize = fields.len();
    while i > 0
        invariant
            i <= fields@.len(),
            views == element_views(fields@),
            views == children_of(body@),
            forall|k: int| 0 <= k < views.len() ==> inside(body@, #[trigger] views[k]),
            is_av1 == exists|k: int|
                i <= k < views.len() && (#[trigger] views[k]).id == CODEC_ID && element_data(
                    body@,
                    views[k],
                ) == av1_codec_id(),
            i <= at <= fields@.len(),
            at - i == first_with_id(views.subrange(i as int, views.len() as int), CODEC_PRIVATE as nat),
        decreases i,
    {
        let ghost after = views.subrange(i as int, views.len() as int);
        i = i - 1;
        let field = fields[i];
        proof {
            assert(views[i as int] == field@);
            assert(inside(body@, views[i as int]));
            lemma_element_at(body@, field@.start);
            let here = views.subrange(i as int, views.len() as int);
            assert(here.drop_first() =~= after);
            assert(here[0] == field@);
        }
        if field.id == CODEC_PRIVATE {
            at = i;
        }
        if field.id == CODEC_ID {
            let data = slice_subrange(body, field.data, data_end(body, &field));
            if data.len() == 5 && data[0] == 0x56 && data[1] == 0x5F && data[2] == 0x41 && data[3]
                == 0x56 && data[4] == 0x31 {
                assert(data@ =~= av1_codec_id());
                is_av1 = true;
            } else {
                assert(data@ != av1_codec_id());
            }
        }
    }
    assert(views.subrange(0, views.len() as int) =~= views);
    if at >= fields.len() || !is_av1 {
        return None;
    }
    let private = fields[at];
    assert(views[at as int] == private@);
    assert(inside(body@, views[at as int]));
    proof {
        lemma_element_at(body@, private@.start);
    }
    let av1c = slice_subrange(body, private.data, data_end(body, &private));
    let trimmed = match av1c_without_frame_metadata(av1c) {
        Some(t) => t,
        None => {
            return None;
        },
    };
    match shrink_element(body, &private, trimmed.as_slice()) {
        Some(bytes) => {
            proof {
                lemma_shrunk_len(body@, private@, trimmed@);
            }
            Some((private.start, bytes))
        },
        None => None,
    }
}

/// Children follow one another: each ends where the next one starts or before it.
proof fn lemma_children_ordered(buf: Seq<u8>, pos: int)
    requires
        0 <= pos,
    ensures
        forall|j: int, k: int|
            #![trigger children_from(buf, pos)[j], children_from(buf, pos)[k]]
            0 <= j < k < children_from(buf, pos).len() ==> children_from(buf, pos)[j].data
                + children_from(buf, pos)[j].size->0 <= children_from(buf, pos)[k].start,
        forall|k: int|
            0 <= k < children_from(buf, pos).len() ==> pos <= (#[trigger] children_from(
                buf,
                pos,
            )[k]).start,
    decreases buf.len() - pos,
{
    if let Some(el) = element_at(buf, pos) {
        if let Some(end) = element_end(buf, el) {
            lemma_element_at(buf, pos);
            lemma_children_ordered(buf, end);
            let rest = children_from(buf, end);
            let all = children_from(buf, pos);
            assert forall|k: int| 0 < k < all.len() implies #[trigger] all[k] == rest[k - 1] by {}
        }
    }
}

/// Trimming some entries leaves the length, and the data of an entry behind them, alone.
proof fn lemma_trimmed_entries(tracks: Seq<u8>, entries: Seq<ElementView>, n: int)
    requires
        entries == children_of(tracks),
        0 <= n <= entries.len(),
    ensures
        trimmed_entries(tracks, entries.subrange(0, n)).len() == tracks.len(),
        forall|i: int|
            0 <= i < tracks.len() && (forall|j: int|
                0 <= j < n ==> !((#[trigger] entries[j]).data <= i < entries[j].data
                    + entries[j].size->0)) ==> #[trigger] trimmed_entries(
                tracks,
                entries.subrange(0, n),
            )[i] == tracks[i],
    decreases n,
{
    if n > 0 {
        lemma_trimmed_entries(tracks, entries, n - 1);
        lemma_children_inside(tracks, 0);
        let some = entries.subrange(0, n);
        assert(some.drop_last() =~= entries.subrange(0, n - 1));
        let entry = entries[n - 1];
        assert(some.last() == entry);
        assert(inside(tracks, entry));
        lemma_element_at(tracks, entry.start);
        law_trimmed_entry_in_place(element_data(tracks, entry));
        let before = trimmed_entries(tracks, entries.subrange(0, n - 1));
        let after = trimmed_entries(tracks, some);
        assert forall|i: int|
            0 <= i < tracks.len() && (forall|j: int|
                0 <= j < n ==> !((#[trigger] entries[j]).data <= i < entries[j].data
                    + entries[j].size->0)) implies #[trigger] after[i] == tracks[i] by {
            assert(!(entries[n - 1].data <= i < entries[n - 1].data + entries[n - 1].size->0));
            assert(before[i] == tracks[i]);
        }
    }
}

/// The data of the next entry is still as it was.
proof fn lemma_next_entry(tracks: Seq<u8>, entries: Seq<ElementView>, n: int)
    requires
        entries == children_of(tracks),
        0 <= n < entries.len(),
    ensures
        inside(tracks, entries[n]),
        element_data(trimmed_entries(tracks, entries.subrange(0, n)), entries[n]) == element_data(
            tracks,
            entries[n],
        ),
{
    lemma_children_inside(tracks, 0);
    lemma_children_ordered(tracks, 0);
    lemma_trimmed_entries(tracks, entries, n);
    let entry = entries[n];
    assert(inside(tracks, entries[n]));
    lemma_element_at(tracks, entry.start);
    let now = trimmed_entries(tracks, entries.subrange(0, n));
    assert forall|i: int| entry.data <= i < entry.data + entry.size->0 implies #[trigger] now[i]
        == tracks[i] by {
        assert forall|j: int| 0 <= j < n implies !((#[trigger] entries[j]).data <= i
            < entries[j].data + entries[j].size->0) by {
            assert(entries[j].data + entries[j].size->0 <= entries[n].start);
        }
    }
    assert(element_data(now, entry) =~= element_data(tracks, entry));
}

/// Writing over a part of a part is writing over the whole.
proof fn lemma_overwritten_within(
    whole: Seq<u8>,
    from: int,
    part: Seq<u8>,
    at: int,
    bytes: Seq<u8>,
)
    requires
        0 <= from,
        0 <= at,
        at + bytes.len() <= part.len(),
        from + part.len() <= whole.len(),
        part == whole.subrange(from, from + part.len()),
    ensures
        overwritten(whole, from + at, bytes) == overwritten(
            whole,
            from,
            overwritten(part, at, bytes),
        ),
{
    let out = overwritten(part, at, bytes);
    assert(out.len() == part.len());
    assert(overwritten(whole, from + at, bytes) =~= overwritten(whole, from, out));
}

/// Writes `part` over `whole` from `at` on.
fn overwrite(whole: &mut Vec<u8>, at: usize, part: &[u8])
    requires
        at + part@.len() <= old(whole)@.len(),
    ensures
        final(whole)@ == overwritten(old(whole)@, at as int, part@),
        final(whole)@.len() == old(whole)@.len(),
{
    let ghost before = whole@;
    let total: usize = whole.len();
    let mut k: usize = 0;
    assert(whole@ =~= overwritten(before, at as int, part@.subrange(0, 0)));
    while k < part.len()
        invariant
            k <= part@.len(),
            at + part@.len() <= before.len() == total,
            whole@ == overwritten(before, at as int, part@.subrange(0, k as int)),
            whole@.len() == total,
        decreases part@.len() - k,
    {
        whole.set(at + k, part[k]);
        k = k + 1;
        assert(whole@ =~= overwritten(before, at as int, part@.subrange(0, k as int)));
    }
    assert(part@.subrange(0, k as int) =~= part@);
}

/// Drops per-frame metadata OBUs from the av1C of one element of `tracks`, if it is an AV1
/// track entry.
fn trim_track(tracks: &mut Vec<u8>, entry: &Element) -> (changed: bool)
    requires
        entry@.data + entry@.size->0 <= old(tracks)@.len(),
        entry@.size is Some,
    ensures
        final(tracks)@.len() == old(tracks)@.len(),
        changed == (entry@.id == TRACK_ENTRY && trimmed_entry(
            element_data(old(tracks)@, entry@),
        ) is Some),
        final(tracks)@ == if changed {
            overwritten(
                old(tracks)@,
                entry@.data,
                trimmed_entry(element_data(old(tracks)@, entry@))->0,
            )
        } else {
            old(tracks)@
        },
{
    if entry.id != TRACK_ENTRY {
        return false;
    }
    let total: usize = tracks.len();
    let len: usize = match entry.size {
        Some(s) => s as usize,
        None => 0,
    };
    let body = slice_subrange(tracks.as_slice(), entry.data, entry.data + len);
    let ghost inner = body@;
    match trim_entry(body) {
        Some((at, bytes)) => {
            overwrite(tracks, entry.data + at, bytes.as_slice());
            proof {
                lemma_overwritten_within(old(tracks)@, entry@.data, inner, at as int, bytes@);
            }
            true
        },
        None => false,
    }
}

/// Drops per-frame metadata OBUs from the av1C of every AV1 track in `tracks`, in place;
/// returns whether anything was removed.
pub fn trim_tracks(tracks: &mut Vec<u8>) -> (changed: bool)
    ensures
        final(tracks)@ == trimmed_entries(old(tracks)@, children_of(old(tracks)@)),
        final(tracks)@.len() == old(tracks)@.len(),
        changed == any_trimmed(old(tracks)@, children_of(old(tracks)@)),
{
    let ghost start = tracks@;
    let total: usize = tracks.len();
    let entries = children(tracks.as_slice());
    let ghost views = children_of(start);
    let mut changed = false;
    let mut i: usize = 0;
    assert(views.subrange(0, 0) =~= Seq::empty());
    while i < entries.len()
        invariant
            i <= entries@.len(),
            start == old(tracks)@,
            views == element_views(entries@),
            views == children_of(start),
            tracks@ == trimmed_entries(start, views.subrange(0, i as int)),
            tracks@.len() == start.len() == total,
            changed == exists|k: int|
                0 <= k < i && (#[trigger] views[k]).id == TRACK_ENTRY && trimmed_entry(
                    element_data(start, views[k]),
                ) is Some,
        decreases entries@.len() - i,
    {
        let entry = entries[i];
        proof {
            assert(views[i as int] == entry@);
            lemma_next_entry(start, views, i as int);
            lemma_element_at(start, entry@.start);
            assert(views.subrange(0, i + 1).drop_last() =~= views.subrange(0, i as int));
            lemma_trimmed_entries(start, views, i + 1);
        }
        if trim_track(tracks, &entry) {
            changed = true;
        }
        i = i + 1;
    }
    assert(views.subrange(0, i as int) =~= views);
    changed
}

// ---------------------------------------------------------------------------
// Finding the tracks of a file
// ---------------------------------------------------------------------------
/// The bytes at `pos` that an element header is read from: enough for a 4-byte ID and an
/// 8-byte size.
pub open spec fn window(file: Seq<u8>, pos: int) -> Seq<u8> {
    if pos >= file.len() {
        Seq::empty()
    } else if pos + 12 > file.len() {
        file.subrange(pos, file.len() as int)
    } else {
        file.subrange(pos, pos + 12)
    }
}

/// How far the search for the tracks of a file has come.
#[derive(Clone, Copy, Debug, PartialEq, Eq, Structural)]
pub enum TracksSearch {
    /// The EBML header has to be read at the start of the file.
    Ebml,
    /// The Segment has to be read at `pos`.
    Segment { pos: u64 },
    /// A top-level element has to be read at `pos`; the Segment ends at `end`.
    TopLevel { pos: u64, end: u64 },
    /// The data of the Tracks element.
    Found { pos: u64, size: u64 },
    /// There are no tracks in front of the first cluster.
    Absent,
}

/// Where the next header has to be read, while the search goes on.
pub open spec fn header_wanted(search: TracksSearch) -> Option<u64> {
    match search {
        TracksSearch::Ebml => Some(0),
        TracksSearch::Segment { pos } => Some(pos),
        TracksSearch::TopLevel { pos, end } => Some(pos),
        TracksSearch::Found { .. } => None,
        TracksSearch::Absent => None,
    }
}

/// The search at `pos` of a Segment that ends at `end`.
pub open spec fn top_level(pos: int, end: int) -> TracksSearch {
    if pos < end {
        TracksSearch::TopLevel { pos: pos as u64, end: end as u64 }
    } else {
        TracksSearch::Absent
    }
}

/// The search once the header at the wanted place, `head`, has been read.
pub open spec fn search_after(search: TracksSearch, file_len: nat, head: Seq<u8>) -> Result<
    TracksSearch,
    MkvError,
> {
    match (header_wanted(search), element_at(head, 0)) {
        (None, _) => Ok(search),
        (Some(pos), None) => Err(MkvError::NoElement { pos }),
        (Some(_), Some(el)) => match search {
            TracksSearch::Ebml => if el.id != EBML_HEADER {
                Err(MkvError::NotMatroska)
            } else {
                match el.size {
                    None => Err(MkvError::UnknownEbmlSize),
                    Some(size) => Ok(TracksSearch::Segment { pos: (el.data + size) as u64 }),
                }
            },
            TracksSearch::Segment { pos } => if el.id != SEGMENT {
                Err(MkvError::NoSegment)
            } else {
                Ok(
                    top_level(
                        pos + el.data,
                        match el.size {
                            None => file_len as int,
                            Some(size) => pos + el.data + size,
                        },
                    ),
                )
            },
            TracksSearch::TopLevel { pos, end } => if el.id == CLUSTER {
                Ok(TracksSearch::Absent)
            } else {
                match el.size {
                    None => Err(MkvError::UnknownTopLevelSize),
                    Some(size) => if pos + el.data + size > file_len {
                        Err(MkvError::PastEnd { pos })
                    } else if el.id == TRACKS {
                        Ok(TracksSearch::Found { pos: (pos + el.data) as u64, size: size as u64 })
                    } else {
                        Ok(top_level(pos + el.data + size, end as int))
                    },
                }
            },
            _ => Ok(search),
        },
    }
}

/// A state that a search of a file can be in.
pub open spec fn search_ok(search: TracksSearch, file_len: nat) -> bool {
    &&& file_len <= u64::MAX
    &&& match search {
        TracksSearch::Ebml => true,
        TracksSearch::Segment { pos } => pos <= 0x200_0000_0000_0000,
        TracksSearch::TopLevel { pos, end } => pos < end,
        TracksSearch::Found { pos, size } => pos + size <= file_len,
        TracksSearch::Absent => true,
    }
}

/// What the search finds in a file: the place and size of the data of Tracks.
pub open spec fn tracks_from(file: Seq<u8>, search: TracksSearch) -> Result<
    Option<(int, int)>,
    MkvError,
>
    decreases
            match search {
                TracksSearch::Ebml => 3int,
                TracksSearch::Segment { .. } => 2int,
                TracksSearch::TopLevel { .. } => 1int,
                _ => 0int,
            },
            match search {
                TracksSearch::TopLevel { pos, end } => end - pos,
                _ => 0int,
            },
{
    match header_wanted(search) {
        None => match search {
            TracksSearch::Found { pos, size } => Ok(Some((pos as int, size as int))),
            _ => Ok(None),
        },
        Some(pos) => match search_after(search, file.len(), window(file, pos as int)) {
            Err(e) => Err(e),
            Ok(next) => {
                proof {
                    lemma_element_at(window(file, pos as int), 0);
                }
                if search_ok(search, file.len()) {
                    tracks_from(file, next)
                } else {
                    Ok(None)
                }
            },
        },
    }
}

/// The place and size of the data of the Tracks element of a file.
pub open spec fn find_tracks(file: Seq<u8>) -> Result<Option<(int, int)>, MkvError> {
    tracks_from(file, TracksSearch::Ebml)
}

proof fn lemma_search_ok(search: TracksSearch, file_len: nat, head: Seq<u8>)
    requires
        search_ok(search, file_len),
    ensures
        search_after(search, file_len, head) matches Ok(next) ==> search_ok(next, file_len),
{
    lemma_element_at(head, 0);
}

impl TracksSearch {
    /// Where the next header has to be read; None once the search is over.
    pub fn wanted(&self) -> (pos: Option<u64>)
        ensures
            pos == header_wanted(*self),
    {
        match self {
            TracksSearch::Ebml => Some(0),
            TracksSearch::Segment { pos } => Some(*pos),
            TracksSearch::TopLevel { pos, end: _ } => Some(*pos),
            TracksSearch::Found { .. } => None,
            TracksSearch::Absent => None,
        }
    }

    /// The search once `head` has been read where it was wanted in a file of `file_len`
    /// bytes.
    pub fn step(self, file_len: u64, head: &[u8]) -> (next: Result<TracksSearch, MkvError>)
        requires
            search_ok(self, file_len as nat),
        ensures
            next == search_after(self, file_len as nat, head@),
            next matches Ok(n) ==> search_ok(n, file_len as nat),
    {
        proof {
            lemma_search_ok(self, file_len as nat, head@);
            lemma_element_at(head@, 0);
        }
        let pos: u64 = match self.wanted() {
            Some(pos) => pos,
            None => {
                return Ok(self);
            },
        };
        let el = match read_element(head, 0) {
            Some(el) => el,
            None => {
                return Err(MkvError::NoElement { pos });
            },
        };
        match self {
            TracksSearch::Ebml => {
                if el.id != EBML_HEADER {
                    return Err(MkvError::NotMatroska);
                }
                match el.size {
                    None => Err(MkvError::UnknownEbmlSize),
                    Some(size) => Ok(TracksSearch::Segment { pos: el.data as u64 + size }),
                }
            },
            TracksSearch::Segment { pos: _ } => {
                if el.id != SEGMENT {
                    return Err(MkvError::NoSegment);
                }
                let data: u64 = pos + el.data as u64;
                let end: u64 = match el.size {
                    None => file_len,
                    Some(size) => data + size,
                };
                if data < end {
                    Ok(TracksSearch::TopLevel { pos: data, end })
                } else {
                    Ok(TracksSearch::Absent)
                }
            },
            TracksSearch::TopLevel { pos: _, end } => {
                if el.id == CLUSTER {
                    return Ok(TracksSearch::Absent);
                }
                let size: u64 = match el.size {
                    None => {
                        return Err(MkvError::UnknownTopLevelSize);
                    },
                    Some(size) => size,
                };
                if pos > file_len || el.data as u64 > file_len - pos || size > file_len - pos
                    - el.data as u64 {
                    return Err(MkvError::PastEnd { pos });
                }
                let data: u64 = pos + el.data as u64;
                if el.id == TRACKS {
                    return Ok(TracksSearch::Found { pos: data, size });
                }
                if data + size < end {
                    Ok(TracksSearch::TopLevel { pos: data + size, end })
                } else {
                    Ok(TracksSearch::Absent)
                }
            },
            _ => Ok(self),
        }
    }
}

/// A file with its tracks trimmed, and whether anything was removed.
pub open spec fn trimmed_file(file: Seq<u8>) -> Result<(Seq<u8>, bool), MkvError> {
    match find_tracks(file) {
        Err(e) => Err(e),
        Ok(None) => Ok((file, false)),
        Ok(Some((pos, size))) => {
            let tracks = file.subrange(pos, pos + size);
            let entries = children_of(tracks);
            if any_trimmed(tracks, entries) {
                Ok((overwritten(file, pos, trimmed_entries(tracks, entries)), true))
            } else {
                Ok((file, false))
            }
        },
    }
}

/// Takes per-frame metadata, which a muxer copies there from in front of the first frame,
/// out of the av1C of every AV1 track of a Matroska file. Returns whether anything was
/// removed.
pub fn trim_av1_codec_private(file: &mut Vec<u8>) -> (r: Result<bool, MkvError>)
    ensures
        match r {
            Ok(changed) => trimmed_file(old(file)@) == Ok::<_, MkvError>((final(file)@, changed)),
            Err(e) => trimmed_file(old(file)@) == Err::<(Seq<u8>, bool), _>(e) && final(file)@
                == old(file)@,
        },
        final(file)@.len() == old(file)@.len(),
{
    let len: usize = file.len();
    let mut search = TracksSearch::Ebml;
    let mut at: Option<u64> = Some(0);
    while at.is_some()
        invariant
            file@ == old(file)@,
            len == file@.len(),
            at == header_wanted(search),
            search_ok(search, file@.len()),
            tracks_from(file@, search) == find_tracks(file@),
        decreases
                match search {
                    TracksSearch::Ebml => 3int,
                    TracksSearch::Segment { .. } => 2int,
                    TracksSearch::TopLevel { .. } => 1int,
                    _ => 0int,
                },
                match search {
                    TracksSearch::TopLevel { pos, end } => end - pos,
                    _ => 0int,
                },
    {
        let pos: u64 = match at {
            Some(pos) => pos,
            None => 0,
        };
        let head = if pos >= len as u64 {
            slice_subrange(file.as_slice(), 0, 0)
        } else if len - pos as usize <= 12 {
            slice_subrange(file.as_slice(), pos as usize, len)
        } else {
            slice_subrange(file.as_slice(), pos as usize, pos as usize + 12)
        };
        assert(head@ =~= window(file@, pos as int));
        proof {
            lemma_element_at(head@, 0);
        }
        match search.step(len as u64, head) {
            Ok(next) => {
                search = next;
            },
            Err(e) => {
                return Err(e);
            },
        }
        at = search.wanted();
    }
    match search {
        TracksSearch::Found { pos, size } => {
            let from: usize = pos as usize;
            let mut tracks: Vec<u8> = Vec::new();
            push_all(&mut tracks, slice_subrange(file.as_slice(), from, from + size as usize));
            assert(tracks@ =~= file@.subrange(pos as int, pos + size));
            if trim_tracks(&mut tracks) {
                overwrite(file, from, tracks.as_slice());
                Ok(true)
            } else {
                Ok(false)
            }
        },
        _ => Ok(false),
    }
}

// ---------------------------------------------------------------------------
// Laws
// ---------------------------------------------------------------------------
/// An element is read from its header alone.
proof fn lemma_element_local(a: Seq<u8>, i: int, b: Seq<u8>, j: int)
    requires
        0 <= j,
        element_at(a, i) is Some,
        j + (element_at(a, i)->0.data - i) <= b.len(),
        forall|k: int|
            #![trigger a[i + k]]
            0 <= k < element_at(a, i)->0.data - i ==> b[j + k] == a[i + k],
    ensures
        ({
            let el = element_at(a, i)->0;
            element_at(b, j) == Some(
                ElementView { id: el.id, start: j, data: j + (el.data - i), size: el.size },
            )
        }),
{
    lemma_element_at(a, i);
    let id_len = vint_width(a[i])->0;
    let size_len = vint_width(a[i + id_len])->0;
    assert(a[i + 0] == b[j + 0]);
    assert(a[i + id_len] == b[j + id_len]);
    assert(a.subrange(i, i + id_len) =~= b.subrange(j, j + id_len)) by {
        assert forall|k: int| 0 <= k < id_len implies #[trigger] a.subrange(i, i + id_len)[k] == b.subrange(
            j,
            j + id_len,
        )[k] by {
            assert(a[i + k] == b[j + k]);
        }
    }
    assert(a.subrange(i + id_len, i + id_len + size_len) =~= b.subrange(
        j + id_len,
        j + id_len + size_len,
    )) by {
        assert forall|k: int| 0 <= k < size_len implies #[trigger] a.subrange(
            i + id_len,
            i + id_len + size_len,
        )[k] == b.subrange(j + id_len, j + id_len + size_len)[k] by {
            assert(a[i + (id_len + k)] == b[j + (id_len + k)]);
        }
    }
}

/// A size that was written starts with its length marker and keeps its value.
proof fn lemma_vint_bytes(value: nat, len: nat)
    requires
        1 <= len <= 8,
        value < pow128(len),
    ensures
        vint_bytes(value, len).len() == len,
        vint_width(vint_bytes(value, len)[0]) == Some(len),
        be_value(vint_bytes(value, len)) == value + pow128(len),
{
    let s = vint_bytes(value, len);
    lemma_pow128_values();
    crate::bytes::lemma_pow256();
    crate::bytes::law_be_round_trip(value + pow128(len), len);
    lemma_be_split(s);
    crate::bytes::lemma_be_value_bound(s.drop_first());
    let f = s[0] as int;
    let r = be_value(s.drop_first()) as int;
    if len == 1 {
        assert(be_value(s) == f * 1 + r);
    } else if len == 2 {
        assert(be_value(s) == f * 0x100 + r);
    } else if len == 3 {
        assert(be_value(s) == f * 0x1_0000 + r);
    } else if len == 4 {
        assert(be_value(s) == f * 0x100_0000 + r);
    } else if len == 5 {
        assert(be_value(s) == f * 0x1_0000_0000 + r);
    } else if len == 6 {
        assert(be_value(s) == f * 0x100_0000_0000 + r);
    } else if len == 7 {
        assert(be_value(s) == f * 0x1_0000_0000_0000 + r);
    } else {
        assert(be_value(s) == f * 0x100_0000_0000_0000 + r);
    }
}

/// An ID and a size that were written read back as an element, wherever they stand: the
/// size at whatever width it was written, and unknown when all its bits are set.
pub proof fn law_element_round_trip(
    before: Seq<u8>,
    id: Seq<u8>,
    value: nat,
    len: nat,
    after: Seq<u8>,
)
    requires
        id.len() > 0,
        vint_width(id[0]) == Some(id.len()),
        1 <= len <= 8,
        value < pow128(len),
    ensures
        element_at(before + id + vint_bytes(value, len) + after, before.len() as int) == Some(
            ElementView {
                id: be_value(id),
                start: before.len() as int,
                data: (before.len() + id.len() + len) as int,
                size: if value == pow128(len) - 1 {
                    None
                } else {
                    Some(value)
                },
            },
        ),
{
    let s = vint_bytes(value, len);
    let whole = before + id + s + after;
    let at = before.len() as int;
    lemma_vint_bytes(value, len);
    assert(whole[at] == id[0]);
    assert(whole[at + id.len()] == s[0]);
    assert(whole.subrange(at, at + id.len()) =~= id);
    assert(whole.subrange(at + id.len(), at + id.len() + len) =~= s);
}

/// Buffers of one length that agree up to an element have the same children up to it.
proof fn lemma_children_prefix(a: Seq<u8>, b: Seq<u8>, pos: int, at: int)
    requires
        0 <= pos,
        a.len() == b.len(),
        0 <= at < children_from(a, pos).len(),
        forall|i: int|
            pos <= i < children_from(a, pos)[at].start ==> #[trigger] a[i] == b[i],
    ensures
        children_from(b, pos) == children_from(a, pos).subrange(0, at) + children_from(
            b,
            children_from(a, pos)[at].start,
        ),
        pos <= children_from(a, pos)[at].start,
    decreases at,
{
    let all = children_from(a, pos);
    let el = element_at(a, pos)->0;
    let end = element_end(a, el)->0;
    lemma_element_at(a, pos);
    if at == 0 {
        assert(all.subrange(0, 0) + children_from(b, pos) =~= children_from(b, pos));
    } else {
        let rest = children_from(a, end);
        assert(all =~= seq![el] + rest);
        assert(all[at] == rest[at - 1]);
        lemma_children_prefix_start(a, end, at - 1);
        assert forall|k: int|
            #![trigger a[pos + k]]
            0 <= k < el.data - pos implies b[pos + k] == a[pos + k] by {}
        lemma_element_local(a, pos, b, pos);
        lemma_children_prefix(a, b, end, at - 1);
        assert(children_from(b, pos) =~= seq![el] + children_from(b, end));
        assert(all.subrange(0, at) =~= seq![el] + rest.subrange(0, at - 1));
        assert(children_from(b, pos) =~= all.subrange(0, at) + children_from(b, all[at].start));
    }
}

proof fn lemma_children_prefix_start(a: Seq<u8>, pos: int, at: int)
    requires
        0 <= pos,
        0 <= at < children_from(a, pos).len(),
    ensures
        pos <= children_from(a, pos)[at].start,
{
    lemma_children_ordered(a, pos);
}

/// Buffers of one length that agree from `pos` on have the same element there.
proof fn lemma_element_same(a: Seq<u8>, b: Seq<u8>, pos: int)
    requires
        a.len() == b.len(),
        forall|i: int| pos <= i < a.len() ==> #[trigger] a[i] == b[i],
    ensures
        element_at(a, pos) == element_at(b, pos),
{
    if 0 <= pos < a.len() {
        if let Some(id_len) = vint_width(a[pos]) {
            if pos + id_len < a.len() {
                if let Some(size_len) = vint_width(a[pos + id_len]) {
                    if pos + id_len + size_len <= a.len() {
                        assert(a.subrange(pos, pos + id_len) =~= b.subrange(pos, pos + id_len));
                        assert(a.subrange(pos + id_len, pos + id_len + size_len) =~= b.subrange(
                            pos + id_len,
                            pos + id_len + size_len,
                        ));
                    }
                }
            }
        }
    }
}

proof fn lemma_children_suffix(a: Seq<u8>, b: Seq<u8>, pos: int)
    requires
        a.len() == b.len(),
        forall|i: int| pos <= i < a.len() ==> #[trigger] a[i] == b[i],
    ensures
        children_from(a, pos) == children_from(b, pos),
    decreases a.len() - pos,
{
    lemma_element_same(a, b, pos);
    lemma_element_at(a, pos);
    if let Some(el) = element_at(a, pos) {
        if let Some(end) = element_end(a, el) {
            lemma_children_suffix(a, b, end);
        }
    }
}

/// The CodecPrivate of a trimmed entry reads back as the trimmed av1C, a Void takes up the
/// rest of its old room, and nothing is left to trim.
#[verifier::spinoff_prover]
#[verifier::rlimit(60)]
pub proof fn law_trimmed_entry_reads_back(body: Seq<u8>)
    requires
        trimmed_entry(body) is Some,
    ensures
        ({
            let fields = children_of(body);
            let at = first_with_id(fields, CODEC_PRIVATE as nat);
            let private = fields[at];
            let av1c = trimmed_av1c(element_data(body, private))->0;
            let out = trimmed_entry(body)->0;
            let now = children_of(out);
            &&& now.len() == fields.len() + 1
            &&& now.subrange(0, at) == fields.subrange(0, at)
            &&& now[at].id == CODEC_PRIVATE
            &&& now[at].start == private.start
            &&& now[at].size == Some(av1c.len())
            &&& element_data(out, now[at]) == av1c
            &&& now[at + 1].id == VOID
            &&& now[at + 1].start == private.data + av1c.len()
            &&& now[at + 1].data + now[at + 1].size->0 == private.data + private.size->0
            &&& now.subrange(at + 2, now.len() as int) == fields.subrange(
                at + 1,
                fields.len() as int,
            )
            &&& trimmed_entry(out) is None
        }),
{
    let fields = children_of(body);
    let at = first_with_id(fields, CODEC_PRIVATE as nat);
    lemma_first_with_id(fields, CODEC_PRIVATE as nat);
    lemma_children_inside(body, 0);
    let p = fields[at];
    assert(inside(body, fields[at]));
    lemma_element_at(body, p.start);
    lemma_size_width(body, p);
    let width = size_width(body, p);
    let t = trimmed_av1c(element_data(body, p))->0;
    let bytes = shrunk(body, p, t)->0;
    let out = trimmed_entry(body)->0;
    law_trimmed_entry_in_place(body);
    lemma_shrunk_len(body, p, t);
    let total = (p.size->0 - t.len()) as nat;
    lemma_void_element(total);
    lemma_void_width(total, 1);
    let n = void_width_from(total, 1)->0;
    let pad = (total - 1 - n) as nat;
    let void = void_element(total)->0;
    lemma_vint_bytes(t.len(), width);
    lemma_vint_bytes(pad, n);
    let id = body.subrange(p.start, p.data - width);
    let before = body.subrange(0, p.start);
    let end = p.data + p.size->0;
    let after = body.subrange(end, body.len() as int);
    // The shrunk element.
    assert(vint_width(id[0]) == Some(id.len()));
    assert(out =~= before + id + vint_bytes(t.len(), width) + (t + void + after));
    law_element_round_trip(before, id, t.len(), width, t + void + after);
    let p2 = element_at(out, p.start)->0;
    assert(p2.id == p.id);
    assert(element_end(out, p2) == Some(p.data + t.len()));
    assert(element_data(out, p2) =~= t);
    // The Void behind it.
    let v_id = seq![VOID];
    let v_before = before + id + vint_bytes(t.len(), width) + t;
    assert(out =~= v_before + v_id + vint_bytes(pad, n) + (zeros(pad) + after));
    law_element_round_trip(v_before, v_id, pad, n, zeros(pad) + after);
    let v = element_at(out, p.data + t.len())->0;
    assert(be_value(v_id) == VOID) by {
        reveal_with_fuel(be_value, 2);
        assert(v_id.drop_last() =~= Seq::empty());
    }
    assert(element_end(out, v) == Some(end));
    // Everything else.
    lemma_children_prefix(body, body, 0, at);
    lemma_children_prefix(body, out, 0, at);
    lemma_children_suffix(body, out, end);
    let now = children_of(out);
    assert(children_from(body, p.start) =~= seq![p] + children_from(body, end));
    assert(fields =~= fields.subrange(0, at) + (seq![p] + children_from(body, end)));
    assert(children_from(out, p.start) =~= seq![p2] + children_from(out, p.data + t.len()));
    assert(children_from(out, p.data + t.len()) =~= seq![v] + children_from(out, end));
    assert(now =~= fields.subrange(0, at) + (seq![p2] + (seq![v] + children_from(out, end))));
    assert(now.subrange(0, at) =~= fields.subrange(0, at));
    assert(now[at] == p2);
    assert(now[at + 1] == v);
    assert(now.subrange(at + 2, now.len() as int) =~= fields.subrange(at + 1, fields.len() as int));
    // Nothing left to trim.
    lemma_first_is(now, CODEC_PRIVATE as nat, at);
    crate::av1::law_trimmed_av1c_is_final(element_data(body, p));
}

proof fn lemma_first_is(fields: Seq<ElementView>, id: nat, at: int)
    requires
        0 <= at < fields.len(),
        fields[at].id == id,
        forall|k: int| 0 <= k < at ==> (#[trigger] fields.subrange(0, at)[k]).id != id,
    ensures
        first_with_id(fields, id) == at,
{
    lemma_first_with_id(fields, id);
    let f = first_with_id(fields, id);
    if f < at {
        assert(fields.subrange(0, at)[f] == fields[f]);
    }
}

/// Buffers of one length that agree outside the data of the children of the first have the
/// same children.
proof fn lemma_same_children(a: Seq<u8>, b: Seq<u8>, pos: int)
    requires
        0 <= pos,
        a.len() == b.len(),
        forall|i: int|
            pos <= i < a.len() && (forall|k: int|
                0 <= k < children_from(a, pos).len() ==> !((#[trigger] children_from(
                    a,
                    pos,
                )[k]).data <= i < children_from(a, pos)[k].data + children_from(
                    a,
                    pos,
                )[k].size->0)) ==> #[trigger] b[i] == a[i],
    ensures
        children_from(a, pos) == children_from(b, pos),
    decreases a.len() - pos,
{
    let all = children_from(a, pos);
    lemma_element_at(a, pos);
    if all.len() == 0 {
        assert forall|i: int| pos <= i < a.len() implies #[trigger] a[i] == b[i] by {}
        lemma_element_same(a, b, pos);
    } else {
        let el = element_at(a, pos)->0;
        let end = element_end(a, el)->0;
        let rest = children_from(a, end);
        assert(all =~= seq![el] + rest);
        lemma_children_ordered(a, pos);
        lemma_children_ordered(a, end);
        assert forall|k: int|
            #![trigger a[pos + k]]
            0 <= k < el.data - pos implies b[pos + k] == a[pos + k] by {
            let i = pos + k;
            assert forall|j: int| 0 <= j < all.len() implies !((#[trigger] all[j]).data <= i
                < all[j].data + all[j].size->0) by {
                if j > 0 {
                    assert(all[j] == rest[j - 1]);
                    lemma_children_inside(a, end);
                    assert(inside(a, rest[j - 1]));
                    lemma_element_at(a, rest[j - 1].start);
                }
            }
            assert(b[i] == a[i]);
        }
        lemma_element_local(a, pos, b, pos);
        assert forall|i: int|
            end <= i < a.len() && (forall|k: int|
                0 <= k < rest.len() ==> !((#[trigger] rest[k]).data <= i < rest[k].data
                    + rest[k].size->0)) implies #[trigger] b[i] == a[i] by {
            assert forall|j: int| 0 <= j < all.len() implies !((#[trigger] all[j]).data <= i
                < all[j].data + all[j].size->0) by {
                if j > 0 {
                    assert(all[j] == rest[j - 1]);
                }
            }
        }
        lemma_same_children(a, b, end);
    }
}

/// The data of children stands inside the buffer, and none of it overlaps.
proof fn lemma_data_apart(buf: Seq<u8>, j: int, k: int)
    requires
        0 <= j < children_of(buf).len(),
        0 <= k < children_of(buf).len(),
    ensures
        ({
            let (a, b) = (children_of(buf)[j], children_of(buf)[k]);
            &&& 0 <= a.data <= a.data + a.size->0 <= buf.len()
            &&& j < k ==> a.data + a.size->0 <= b.data
            &&& k < j ==> b.data + b.size->0 <= a.data
        }),
{
    lemma_children_inside(buf, 0);
    lemma_children_ordered(buf, 0);
    let (a, b) = (children_of(buf)[j], children_of(buf)[k]);
    assert(inside(buf, a) && inside(buf, b));
    lemma_element_at(buf, a.start);
    lemma_element_at(buf, b.start);
}

/// A part written over a whole reads back, and leaves the parts beside it as they were.
proof fn lemma_overwritten_part(whole: Seq<u8>, at: int, part: Seq<u8>, from: int, to: int)
    requires
        0 <= at <= at + part.len() <= whole.len(),
        0 <= from <= to <= whole.len(),
    ensures
        overwritten(whole, at, part).subrange(at, at + part.len()) == part,
        to <= at || at + part.len() <= from ==> overwritten(whole, at, part).subrange(from, to)
            == whole.subrange(from, to),
{
    assert(overwritten(whole, at, part).subrange(at, at + part.len()) =~= part);
    if to <= at || at + part.len() <= from {
        assert(overwritten(whole, at, part).subrange(from, to) =~= whole.subrange(from, to));
    }
}

/// What becomes of one entry once the first `n` have been trimmed.
proof fn lemma_entry_after(tracks: Seq<u8>, entries: Seq<ElementView>, n: int, k: int)
    requires
        entries == children_of(tracks),
        0 <= k < entries.len(),
        0 <= n <= entries.len(),
    ensures
        ({
            let before = element_data(tracks, entries[k]);
            let after = element_data(trimmed_entries(tracks, entries.subrange(0, n)), entries[k]);
            if k < n && entries[k].id == TRACK_ENTRY && trimmed_entry(before) is Some {
                after == trimmed_entry(before)->0
            } else {
                after == before
            }
        }),
    decreases n,
{
    if n == 0 {
        assert(entries.subrange(0, 0) =~= Seq::empty());
    } else {
        lemma_entry_after(tracks, entries, n - 1, k);
        let some = entries.subrange(0, n);
        assert(some.drop_last() =~= entries.subrange(0, n - 1));
        let (e, o) = (entries[n - 1], entries[k]);
        assert(some.last() == e);
        let prev = trimmed_entries(tracks, entries.subrange(0, n - 1));
        assert(prev.len() == tracks.len()) by {
            lemma_trimmed_entries(tracks, entries, n - 1);
        }
        if e.id == TRACK_ENTRY {
            if let Some(body) = trimmed_entry(element_data(tracks, e)) {
                assert(body.len() == element_data(tracks, e).len()) by {
                    law_trimmed_entry_in_place(element_data(tracks, e));
                }
                lemma_data_apart(tracks, n - 1, k);
                lemma_data_apart(tracks, k, n - 1);
                lemma_overwritten_part(prev, e.data, body, o.data, o.data + o.size->0);
            }
        }
    }
}

/// Byte `i` of `tracks` belongs to the CodecPrivate element of this entry, an AV1 track.
pub open spec fn in_codec_private(tracks: Seq<u8>, entry: ElementView, i: int) -> bool {
    let body = element_data(tracks, entry);
    let fields = children_of(body);
    let at = first_with_id(fields, CODEC_PRIVATE as nat);
    &&& entry.id == TRACK_ENTRY
    &&& is_av1_track(body, fields)
    &&& at < fields.len()
    &&& entry.data + fields[at].start <= i < entry.data + fields[at].data + fields[at].size->0
}

/// A byte that trimming changes belongs to the CodecPrivate of an AV1 track.
proof fn lemma_trimmed_byte(tracks: Seq<u8>, i: int)
    requires
        0 <= i < tracks.len(),
        trimmed_entries(tracks, children_of(tracks))[i] != tracks[i],
    ensures
        exists|k: int|
            0 <= k < children_of(tracks).len() && in_codec_private(
                tracks,
                #[trigger] children_of(tracks)[k],
                i,
            ),
{
    let entries = children_of(tracks);
    let n = entries.len() as int;
    assert(entries.subrange(0, n) =~= entries);
    let out = trimmed_entries(tracks, entries);
    lemma_trimmed_entries(tracks, entries, n);
    let k = choose|k: int|
        0 <= k < n && (#[trigger] entries[k]).data <= i < entries[k].data + entries[k].size->0;
    let e = entries[k];
    lemma_data_apart(tracks, k, k);
    lemma_entry_after(tracks, entries, n, k);
    let body = element_data(tracks, e);
    assert(body[i - e.data] == tracks[i]);
    assert(element_data(out, e)[i - e.data] == out[i]);
    law_trimmed_entry_in_place(body);
    assert(in_codec_private(tracks, entries[k], i));
}

/// Trimming tracks a second time finds nothing to do. Only the CodecPrivate elements of AV1
/// tracks change, and something does where there is something to trim.
pub proof fn law_trim_tracks_is_final(tracks: Seq<u8>)
    ensures
        ({
            let out = trimmed_entries(tracks, children_of(tracks));
            &&& out.len() == tracks.len()
            &&& children_of(out) == children_of(tracks)
            &&& !any_trimmed(out, children_of(out))
            &&& any_trimmed(tracks, children_of(tracks)) <==> out != tracks
            &&& forall|i: int|
                0 <= i < tracks.len() && #[trigger] out[i] != tracks[i] ==> exists|k: int|
                    0 <= k < children_of(tracks).len() && in_codec_private(
                        tracks,
                        #[trigger] children_of(tracks)[k],
                        i,
                    )
        }),
{
    let entries = children_of(tracks);
    let out = trimmed_entries(tracks, entries);
    assert(entries.subrange(0, entries.len() as int) =~= entries);
    lemma_trimmed_entries(tracks, entries, entries.len() as int);
    assert forall|i: int|
        0 <= i < tracks.len() && (forall|k: int|
            0 <= k < entries.len() ==> !((#[trigger] entries[k]).data <= i < entries[k].data
                + entries[k].size->0)) implies #[trigger] out[i] == tracks[i] by {}
    lemma_same_children(tracks, out, 0);
    assert forall|k: int| 0 <= k < entries.len() && (#[trigger] entries[k]).id == TRACK_ENTRY implies
        trimmed_entry(element_data(out, entries[k])) is None by {
        lemma_entry_after(tracks, entries, entries.len() as int, k);
        let before = element_data(tracks, entries[k]);
        if trimmed_entry(before) is Some {
            law_trimmed_entry_reads_back(before);
        }
    }
    if !any_trimmed(tracks, entries) {
        lemma_nothing_trimmed(tracks, entries, entries.len() as int);
    }
    assert forall|i: int| 0 <= i < tracks.len() && #[trigger] out[i] != tracks[i] implies exists|
        k: int,
    |
        0 <= k < children_of(tracks).len() && in_codec_private(
            tracks,
            #[trigger] children_of(tracks)[k],
            i,
        ) by {
        lemma_trimmed_byte(tracks, i);
    }
}

proof fn lemma_nothing_trimmed(tracks: Seq<u8>, entries: Seq<ElementView>, n: int)
    requires
        0 <= n <= entries.len(),
        !any_trimmed(tracks, entries),
    ensures
        trimmed_entries(tracks, entries.subrange(0, n)) == tracks,
    decreases n,
{
    let some = entries.subrange(0, n);
    if n > 0 {
        assert(some.drop_last() =~= entries.subrange(0, n - 1));
        assert(some.last() == entries[n - 1]);
        lemma_nothing_trimmed(tracks, entries, n - 1);
    }
}

/// The tracks are found behind every header that was read on the way.
proof fn lemma_search_bound(file: Seq<u8>, search: TracksSearch)
    requires
        search_ok(search, file.len()),
        tracks_from(file, search) matches Ok(Some(_)),
    ensures
        ({
            let (at, size) = (tracks_from(file, search)->Ok_0)->0;
            &&& at + size <= file.len()
            &&& 0 <= size
            &&& header_wanted(search) matches Some(pos) ==> {
                &&& element_at(window(file, pos as int), 0) is Some
                &&& pos + element_at(window(file, pos as int), 0)->0.data <= at
            }
        }),
    decreases
            match search {
                TracksSearch::Ebml => 3int,
                TracksSearch::Segment { .. } => 2int,
                TracksSearch::TopLevel { .. } => 1int,
                _ => 0int,
            },
            match search {
                TracksSearch::TopLevel { pos, end } => end - pos,
                _ => 0int,
            },
{
    if let Some(pos) = header_wanted(search) {
        let head = window(file, pos as int);
        lemma_element_at(head, 0);
        lemma_search_ok(search, file.len(), head);
        let next = search_after(search, file.len(), head)->Ok_0;
        lemma_search_bound(file, next);
        if let Some(p) = header_wanted(next) {
            lemma_element_at(window(file, p as int), 0);
        }
    }
}

/// A change behind every header that is read does not change what is found.
proof fn lemma_search_same(file: Seq<u8>, other: Seq<u8>, search: TracksSearch)
    requires
        search_ok(search, file.len()),
        tracks_from(file, search) matches Ok(Some(_)),
        other.len() == file.len(),
        forall|i: int|
            0 <= i < ((tracks_from(file, search)->Ok_0)->0).0 ==> #[trigger] other[i] == file[i],
    ensures
        tracks_from(other, search) == tracks_from(file, search),
    decreases
            match search {
                TracksSearch::Ebml => 3int,
                TracksSearch::Segment { .. } => 2int,
                TracksSearch::TopLevel { .. } => 1int,
                _ => 0int,
            },
            match search {
                TracksSearch::TopLevel { pos, end } => end - pos,
                _ => 0int,
            },
{
    if let Some(pos) = header_wanted(search) {
        lemma_search_bound(file, search);
        let head = window(file, pos as int);
        let head2 = window(other, pos as int);
        lemma_element_at(head, 0);
        let el = element_at(head, 0)->0;
        assert forall|k: int|
            #![trigger head[0 + k]]
            0 <= k < el.data - 0 implies head2[0 + k] == head[0 + k] by {
            assert(other[pos + k] == file[pos + k]);
        }
        lemma_element_local(head, 0, head2, 0);
        lemma_search_ok(search, file.len(), head);
        let next = search_after(search, file.len(), head)->Ok_0;
        assert(search_after(search, file.len(), head2) == Ok::<TracksSearch, MkvError>(next));
        lemma_search_same(file, other, next);
    }
}

/// Tracks that were found stand inside the file.
proof fn lemma_found_inside(file: Seq<u8>)
    requires
        file.len() <= u64::MAX,
        find_tracks(file) matches Ok(Some(_)),
    ensures
        ({
            let (pos, size) = (find_tracks(file)->Ok_0)->0;
            0 <= pos <= pos + size <= file.len() && 0 <= size
        }),
{
    lemma_search_bound(file, TracksSearch::Ebml);
    lemma_element_at(window(file, 0), 0);
}

/// Byte `i` of a file whose Tracks stand here belongs to the CodecPrivate of an AV1 track.
pub open spec fn private_byte(file: Seq<u8>, pos: int, size: int, i: int) -> bool {
    let tracks = file.subrange(pos, pos + size);
    pos <= i < pos + size && exists|k: int|
        0 <= k < children_of(tracks).len() && in_codec_private(
            tracks,
            #[trigger] children_of(tracks)[k],
            i - pos,
        )
}

/// Trimmed tracks, written back in their place, leave nothing to trim there.
#[verifier::rlimit(50)]
proof fn lemma_tracks_written(file: Seq<u8>, pos: int, size: int)
    requires
        0 <= pos <= pos + size <= file.len(),
        0 <= size,
    ensures
        ({
            let tracks = file.subrange(pos, pos + size);
            let now = trimmed_entries(tracks, children_of(tracks));
            let out = overwritten(file, pos, now);
            &&& out.len() == file.len()
            &&& out.subrange(pos, pos + size) == now
            &&& !any_trimmed(now, children_of(now))
            &&& any_trimmed(tracks, children_of(tracks)) ==> out != file
            &&& forall|i: int|
                0 <= i < file.len() && #[trigger] out[i] != file[i] ==> private_byte(
                    file,
                    pos,
                    size,
                    i,
                )
        }),
{
    let tracks = file.subrange(pos, pos + size);
    law_trim_tracks_is_final(tracks);
    let now = trimmed_entries(tracks, children_of(tracks));
    let out = overwritten(file, pos, now);
    lemma_overwritten_part(file, pos, now, pos, pos + size);
    assert forall|i: int| 0 <= i < file.len() && #[trigger] out[i] != file[i] implies private_byte(
        file,
        pos,
        size,
        i,
    ) by {
        lemma_written_byte(file, pos, size, i);
    }
}

/// A byte that differs in the file belongs to the CodecPrivate of an AV1 track.
proof fn lemma_written_byte(file: Seq<u8>, pos: int, size: int, i: int)
    requires
        0 <= pos <= pos + size <= file.len(),
        0 <= size,
        0 <= i < file.len(),
        ({
            let tracks = file.subrange(pos, pos + size);
            let now = trimmed_entries(tracks, children_of(tracks));
            now.len() == size && overwritten(file, pos, now)[i] != file[i]
        }),
    ensures
        private_byte(file, pos, size, i),
{
    let tracks = file.subrange(pos, pos + size);
    let now = trimmed_entries(tracks, children_of(tracks));
    let out = overwritten(file, pos, now);
    assert(pos <= i < pos + size);
    assert(now[i - pos] == out[i] && tracks[i - pos] == file[i]);
    lemma_trimmed_byte(tracks, i - pos);
}

/// A file keeps its length, only bytes of the CodecPrivate elements of AV1 tracks can change,
/// whether one did is what is returned, and trimming the result changes nothing more.
pub proof fn law_trim_file_in_place_and_final(file: Seq<u8>)
    requires
        file.len() <= u64::MAX,
        trimmed_file(file) is Ok,
    ensures
        ({
            let (out, changed) = trimmed_file(file)->Ok_0;
            &&& out.len() == file.len()
            &&& changed == (out != file)
            &&& trimmed_file(out) == Ok::<(Seq<u8>, bool), MkvError>((out, false))
            &&& changed ==> find_tracks(file) is Ok && (find_tracks(file)->Ok_0) is Some
            &&& forall|i: int|
                0 <= i < file.len() && #[trigger] out[i] != file[i] ==> {
                    let (pos, size) = (find_tracks(file)->Ok_0)->0;
                    private_byte(file, pos, size, i)
                }
        }),
{
    let (out, changed) = trimmed_file(file)->Ok_0;
    if changed {
        let (pos, size) = (find_tracks(file)->Ok_0)->0;
        lemma_found_inside(file);
        lemma_tracks_written(file, pos, size);
        lemma_search_same(file, out, TracksSearch::Ebml);
        assert(find_tracks(out) == find_tracks(file));
    }
}

proof fn lemma_kept_bytes(obus: Seq<ObuView>)
    requires
        all_well_formed(obus),
    ensures
        ({
            let kept = obus.filter(|o: ObuView| belongs_in_av1c(o));
            &&& obus_bytes(kept).len() <= obus_bytes(obus).len()
            &&& (exists|k: int| 0 <= k < obus.len() && !belongs_in_av1c(#[trigger] obus[k]))
                ==> obus_bytes(kept).len() + 2 <= obus_bytes(obus).len()
        }),
    decreases obus.len(),
{
    reveal(Seq::filter);
    if obus.len() > 0 {
        let front = obus.drop_last();
        let last = obus.last();
        let keep = |o: ObuView| belongs_in_av1c(o);
        assert forall|k: int| 0 <= k < front.len() implies well_formed_obu(#[trigger] front[k]) by {
            assert(front[k] == obus[k]);
        }
        lemma_kept_bytes(front);
        assert(well_formed_obu(obus[obus.len() - 1]));
        lemma_obu_extent(last.raw, 0);
        assert(last.raw.len() >= 2);
        let before = front.filter(keep);
        if belongs_in_av1c(last) {
            assert(obus.filter(keep) == before.push(last));
            assert(before.push(last).drop_last() =~= before);
            if exists|k: int| 0 <= k < obus.len() && !belongs_in_av1c(#[trigger] obus[k]) {
                let k = choose|k: int| 0 <= k < obus.len() && !belongs_in_av1c(#[trigger] obus[k]);
                assert(front[k] == obus[k]);
            }
        }
    }
}

/// Per-frame metadata in the av1C of an AV1 track is always taken out: there is room for what
/// takes its place.
pub proof fn law_frame_metadata_is_taken_out(body: Seq<u8>, at: int, k: int)
    requires
        body.len() < 0x100_0000_0000_0000,
        is_av1_track(body, children_of(body)),
        at == first_with_id(children_of(body), CODEC_PRIVATE as nat),
        at < children_of(body).len(),
        ({
            let av1c = element_data(body, children_of(body)[at]);
            &&& av1c.len() >= 4
            &&& obus_of(av1c.subrange(4, av1c.len() as int)) is Ok
            &&& 0 <= k < obus_of(av1c.subrange(4, av1c.len() as int))->Ok_0.len()
            &&& !belongs_in_av1c(obus_of(av1c.subrange(4, av1c.len() as int))->Ok_0[k])
        }),
    ensures
        trimmed_entry(body) is Some,
{
    let fields = children_of(body);
    lemma_first_with_id(fields, CODEC_PRIVATE as nat);
    let private = fields[at];
    lemma_children_inside(body, 0);
    assert(inside(body, private));
    let av1c = element_data(body, private);
    let data = av1c.subrange(4, av1c.len() as int);
    let obus = obus_of(data)->Ok_0;
    law_parse_splits(data, 0);
    assert(data.subrange(0, data.len() as int) =~= data);
    lemma_kept_bytes(obus);
    let p = |o: ObuView| belongs_in_av1c(o);
    assert(!obus.all(p)) by {
        assert(!p(obus[k]));
    }
    let out = trimmed_av1c(av1c)->0;
    assert(out.len() + 2 <= av1c.len());
    lemma_void_width((av1c.len() - out.len()) as nat, 1);
}

} // verus!
