//! HDR10+ messages of an HEVC stream: found in its SEI NAL units, given to the pictures
//! they belong to, and carried on in display order.
use crate::text::{push_char, to_chars};
use vstd::prelude::*;
use vstd::slice::slice_subrange;

verus! {

pub const NAL_SEI_PREFIX: u8 = 39;

pub const NAL_SEI_SUFFIX: u8 = 40;

pub const SEI_USER_DATA_REGISTERED_ITU_T_T35: u32 = 4;

/// Why the messages of a stream cannot be put in order, or a cache cannot be read.
#[derive(Clone, Copy, Debug, PartialEq, Eq, Structural)]
pub enum HevcError {
    /// The container and the bitstream disagree on the number of pictures.
    CountMismatch { packets: usize, pictures: usize },
    /// A video packet has no timestamp.
    NoTimestamp,
    /// A cached message is not hexadecimal.
    InvalidHex,
    /// A cached frame refers to a message that is not there.
    MessageOutOfRange,
}

// ---------------------------------------------------------------------------
// Emulation prevention
// ---------------------------------------------------------------------------
/// What is left of `data` without emulation prevention, and how many zeros it ends with: a
/// byte 3 behind two zeros is dropped.
pub open spec fn unescaped(data: Seq<u8>) -> (Seq<u8>, nat)
    decreases data.len(),
{
    if data.len() == 0 {
        (Seq::empty(), 0)
    } else {
        let (out, zeros) = unescaped(data.drop_last());
        let b = data.last();
        if zeros >= 2 && b == 3 {
            (out, 0)
        } else {
            (
                out.push(b),
                if b == 0 {
                    zeros + 1
                } else {
                    0
                },
            )
        }
    }
}

/// `data` with emulation prevention, and how many zeros it ends with: a byte of at most 3
/// behind two zeros gets a 3 in front of it.
pub open spec fn escaped(data: Seq<u8>) -> (Seq<u8>, nat)
    decreases data.len(),
{
    if data.len() == 0 {
        (Seq::empty(), 0)
    } else {
        let (out, zeros) = escaped(data.drop_last());
        let b = data.last();
        let (out2, zeros2) = if zeros >= 2 && b <= 3 {
            (out.push(3), 0nat)
        } else {
            (out, zeros)
        };
        (
            out2.push(b),
            if b == 0 {
                zeros2 + 1
            } else {
                0
            },
        )
    }
}

/// Removing emulation prevention undoes adding it.
pub proof fn law_emulation_prevention_undone(data: Seq<u8>)
    ensures
        unescaped(escaped(data).0) == (data, escaped(data).1),
        escaped(data).1 <= 2,
    decreases data.len(),
{
    if data.len() > 0 {
        law_emulation_prevention_undone(data.drop_last());
        let (out, zeros) = escaped(data.drop_last());
        let b = data.last();
        if zeros >= 2 && b <= 3 {
            assert(out.push(3).drop_last() =~= out);
            assert(unescaped(out.push(3)) == (data.drop_last(), 0nat));
            assert(out.push(3).push(b).drop_last() =~= out.push(3));
        } else {
            assert(out.push(b).drop_last() =~= out);
        }
        assert(data.drop_last().push(b) =~= data);
    } else {
        assert(data =~= Seq::empty());
    }
}

pub fn remove_emulation_prevention(data: &[u8]) -> (out: Vec<u8>)
    ensures
        out@ == unescaped(data@).0,
{
    let mut out: Vec<u8> = Vec::new();
    let mut zeros: usize = 0;
    let mut i: usize = 0;
    assert(data@.subrange(0, 0) =~= Seq::empty());
    while i < data.len()
        invariant
            i <= data@.len(),
            zeros <= i,
            (out@, zeros as nat) == unescaped(data@.subrange(0, i as int)),
        decreases data@.len() - i,
    {
        let b = data[i];
        proof {
            assert(data@.subrange(0, i + 1).drop_last() =~= data@.subrange(0, i as int));
        }
        if zeros >= 2 && b == 3 {
            zeros = 0;
        } else {
            zeros = if b == 0 {
                zeros + 1
            } else {
                0
            };
            out.push(b);
        }
        i = i + 1;
    }
    assert(data@.subrange(0, i as int) =~= data@);
    out
}

// ---------------------------------------------------------------------------
// SEI messages
// ---------------------------------------------------------------------------
/// A number of an SEI message: bytes of 255 and a last smaller byte, added up.
pub open spec fn sei_value_at(rbsp: Seq<u8>, pos: int) -> Option<(nat, int)>
    decreases rbsp.len() - pos,
{
    if pos < 0 || pos >= rbsp.len() {
        None
    } else if rbsp[pos] != 0xFF {
        Some((rbsp[pos] as nat, pos + 1))
    } else {
        match sei_value_at(rbsp, pos + 1) {
            Some((v, end)) => Some((255 + v, end)),
            None => None,
        }
    }
}

/// The same, for a number that fits 32 bits.
pub open spec fn sei_u32_at(rbsp: Seq<u8>, pos: int) -> Option<(nat, int)> {
    match sei_value_at(rbsp, pos) {
        Some((v, end)) => if v <= u32::MAX {
            Some((v, end))
        } else {
            None
        },
        None => None,
    }
}

pub proof fn lemma_sei_value_at(rbsp: Seq<u8>, pos: int)
    ensures
        sei_value_at(rbsp, pos) matches Some((v, end)) ==> 0 <= pos < end <= rbsp.len(),
    decreases rbsp.len() - pos,
{
    if 0 <= pos < rbsp.len() && rbsp[pos] == 0xFF {
        lemma_sei_value_at(rbsp, pos + 1);
    }
}

/// The country, provider and application codes that an HDR10+ message starts with.
pub open spec fn hdr10plus_header() -> Seq<u8> {
    seq![0xB5u8, 0x00u8, 0x3Cu8, 0x00u8, 0x01u8, 0x04u8]
}

/// The first HDR10+ message among the SEI messages from `pos` on.
pub open spec fn hdr10plus_from(rbsp: Seq<u8>, pos: int) -> Option<Seq<u8>>
    decreases rbsp.len() - pos,
{
    if pos >= rbsp.len() || (pos + 1 == rbsp.len() && rbsp[pos] == 0x80) {
        None
    } else {
        match sei_u32_at(rbsp, pos) {
            None => None,
            Some((kind, size_pos)) => match sei_u32_at(rbsp, size_pos) {
                None => None,
                Some((size, start)) => if start + size > rbsp.len() {
                    None
                } else {
                    let payload = rbsp.subrange(start, start + size);
                    if kind == SEI_USER_DATA_REGISTERED_ITU_T_T35 && payload.len() >= 6
                        && payload.subrange(0, 6) == hdr10plus_header() {
                        Some(payload.subrange(6, payload.len() as int))
                    } else {
                        proof {
                            lemma_sei_value_at(rbsp, pos);
                            lemma_sei_value_at(rbsp, size_pos);
                        }
                        hdr10plus_from(rbsp, start + size)
                    }
                },
            },
        }
    }
}

/// The HDR10+ message of an SEI NAL payload (behind the NAL header), if it has one.
pub open spec fn hdr10plus_of_sei(nal_payload: Seq<u8>) -> Option<Seq<u8>> {
    hdr10plus_from(unescaped(nal_payload).0, 0)
}

/// A number at `pos`, with the position behind it.
fn read_sei_value(rbsp: &[u8], from: usize) -> (r: Option<(u32, usize)>)
    ensures
        match r {
            Some((v, end)) => sei_u32_at(rbsp@, from as int) == Some((v as nat, end as int)),
            None => sei_u32_at(rbsp@, from as int) is None,
        },
{
    let mut value: u32 = 0;
    let mut pos: usize = from;
    loop
        invariant
            from <= pos,
            match sei_value_at(rbsp@, pos as int) {
                Some((v, end)) => sei_value_at(rbsp@, from as int) == Some(((value + v) as nat, end)),
                None => sei_value_at(rbsp@, from as int) is None,
            },
        decreases rbsp@.len() - pos,
    {
        if pos >= rbsp.len() {
            return None;
        }
        let b = rbsp[pos];
        let next: u32 = match value.checked_add(b as u32) {
            Some(next) => next,
            None => {
                return None;
            },
        };
        if b != 0xFF {
            return Some((next, pos + 1));
        }
        value = next;
        pos = pos + 1;
    }
}

/// The HDR10+ message of an SEI NAL payload (behind the NAL header), if it has one.
pub fn hdr10plus_in_sei(nal_payload: &[u8]) -> (r: Option<Vec<u8>>)
    ensures
        match r {
            Some(m) => hdr10plus_of_sei(nal_payload@) == Some(m@),
            None => hdr10plus_of_sei(nal_payload@) is None,
        },
{
    let rbsp = remove_emulation_prevention(nal_payload);
    let mut pos: usize = 0;
    while pos < rbsp.len() && !(pos + 1 == rbsp.len() && rbsp[pos] == 0x80)
        invariant
            pos <= rbsp@.len(),
            hdr10plus_from(rbsp@, pos as int) == hdr10plus_of_sei(nal_payload@),
        decreases rbsp@.len() - pos,
    {
        let (kind, size_pos) = match read_sei_value(rbsp.as_slice(), pos) {
            Some(found) => found,
            None => {
                return None;
            },
        };
        let (size, start) = match read_sei_value(rbsp.as_slice(), size_pos) {
            Some(found) => found,
            None => {
                return None;
            },
        };
        proof {
            lemma_sei_value_at(rbsp@, pos as int);
            lemma_sei_value_at(rbsp@, size_pos as int);
        }
        if size as u64 > (rbsp.len() - start) as u64 {
            return None;
        }
        let end: usize = start + size as usize;
        if kind == SEI_USER_DATA_REGISTERED_ITU_T_T35 && size >= 6 {
            let ghost payload = rbsp@.subrange(start as int, end as int);
            if rbsp[start] == 0xB5 && rbsp[start + 1] == 0x00 && rbsp[start + 2] == 0x3C
                && rbsp[start + 3] == 0x00 && rbsp[start + 4] == 0x01 && rbsp[start + 5] == 0x04 {
                let mut m: Vec<u8> = Vec::new();
                crate::bytes::push_all(
                    &mut m,
                    slice_subrange(rbsp.as_slice(), start + 6, end),
                );
                proof {
                    assert(payload.subrange(0, 6) =~= hdr10plus_header());
                    assert(m@ =~= payload.subrange(6, payload.len() as int));
                }
                return Some(m);
            }
            proof {
                assert(payload.subrange(0, 6)[0] == rbsp@[start as int]);
                assert(payload.subrange(0, 6)[1] == rbsp@[start + 1]);
                assert(payload.subrange(0, 6)[2] == rbsp@[start + 2]);
                assert(payload.subrange(0, 6)[3] == rbsp@[start + 3]);
                assert(payload.subrange(0, 6)[4] == rbsp@[start + 4]);
                assert(payload.subrange(0, 6)[5] == rbsp@[start + 5]);
            }
        }
        pos = end;
    }
    None
}

// ---------------------------------------------------------------------------
// Pictures
// ---------------------------------------------------------------------------
/// The message of each picture so far, in decode order, and one that waits for the next.
#[derive(Debug)]
pub struct AccessUnits {
    pub hdr10plus: Vec<Option<Vec<u8>>>,
    pub pending: Option<Vec<u8>>,
}

/// What `AccessUnits` holds.
pub struct UnitsView {
    pub units: Seq<Option<Seq<u8>>>,
    pub pending: Option<Seq<u8>>,
}

pub open spec fn message_view(m: Option<Vec<u8>>) -> Option<Seq<u8>> {
    match m {
        Some(v) => Some(v@),
        None => None,
    }
}

pub open spec fn unit_views(units: Seq<Option<Vec<u8>>>) -> Seq<Option<Seq<u8>>> {
    Seq::new(units.len(), |i: int| message_view(units[i]))
}

impl View for AccessUnits {
    type V = UnitsView;

    open spec fn view(&self) -> UnitsView {
        UnitsView { units: unit_views(self.hdr10plus@), pending: message_view(self.pending) }
    }
}

/// What a NAL unit adds. A slice that starts a picture takes the waiting message; a prefix
/// SEI message waits for the next picture, a suffix one belongs to the last. Units of an
/// enhancement layer are passed over.
pub open spec fn after_nal(u: UnitsView, nal: Seq<u8>) -> UnitsView {
    if nal.len() < 2 || (nal[0] & 0x01) != 0 || (nal[1] >> 3) != 0 {
        u
    } else {
        let kind = (nal[0] >> 1) & 0x3F;
        let message = hdr10plus_of_sei(nal.subrange(2, nal.len() as int));
        if kind <= 31 {
            if nal.len() > 2 && nal[2] & 0x80 != 0 {
                UnitsView { units: u.units.push(u.pending), pending: None }
            } else {
                u
            }
        } else if kind == NAL_SEI_PREFIX && message is Some {
            UnitsView { units: u.units, pending: message }
        } else if kind == NAL_SEI_SUFFIX && message is Some && u.units.len() > 0 {
            UnitsView {
                units: u.units.update(u.units.len() - 1, message),
                pending: u.pending,
            }
        } else {
            u
        }
    }
}

impl AccessUnits {
    pub fn new() -> (u: AccessUnits)
        ensures
            u@ == no_units(),
    {
        let u = AccessUnits { hdr10plus: Vec::new(), pending: None };
        assert(u@.units =~= Seq::empty());
        u
    }

    pub fn nal(&mut self, nal: &[u8])
        ensures
            final(self)@ == after_nal(old(self)@, nal@),
    {
        if nal.len() < 2 {
            return;
        }
        let h0 = nal[0];
        let h1 = nal[1];
        if (h0 & 0x01) != 0 || (h1 >> 3) != 0 {
            return;
        }
        let kind = (h0 >> 1) & 0x3F;
        if kind <= 31 {
            if nal.len() > 2 && nal[2] & 0x80 != 0 {
                let message = self.pending.take();
                self.hdr10plus.push(message);
                assert(self@.units =~= old(self)@.units.push(old(self)@.pending));
            }
        } else if kind == NAL_SEI_PREFIX {
            if let Some(m) = hdr10plus_in_sei(slice_subrange(nal, 2, nal.len())) {
                self.pending = Some(m);
            }
        } else if kind == NAL_SEI_SUFFIX {
            if let Some(m) = hdr10plus_in_sei(slice_subrange(nal, 2, nal.len())) {
                let n: usize = self.hdr10plus.len();
                if n > 0 {
                    let ghost message = Some(m@);
                    self.hdr10plus.set(n - 1, Some(m));
                    assert(self@.units =~= old(self)@.units.update(n - 1, message));
                }
            }
        }
    }
}

pub open spec fn no_units() -> UnitsView {
    UnitsView { units: Seq::empty(), pending: None }
}

// ---------------------------------------------------------------------------
// Annex B streams
// ---------------------------------------------------------------------------
pub open spec fn start_code_at(buf: Seq<u8>, i: int) -> bool {
    0 <= i && i + 3 <= buf.len() && buf[i] == 0 && buf[i + 1] == 0 && buf[i + 2] == 1
}

/// The index just past the next `00 00 01` at or after `from`.
pub open spec fn start_code_from(buf: Seq<u8>, from: int) -> Option<int>
    decreases buf.len() - from,
{
    if from + 3 > buf.len() {
        None
    } else if start_code_at(buf, from) {
        Some(from + 3)
    } else {
        start_code_from(buf, from + 1)
    }
}

pub proof fn lemma_start_code_from(buf: Seq<u8>, from: int)
    requires
        0 <= from,
    ensures
        match start_code_from(buf, from) {
            Some(next) => {
                &&& from + 3 <= next <= buf.len()
                &&& start_code_at(buf, next - 3)
                &&& forall|i: int| from <= i < next - 3 ==> !#[trigger] start_code_at(buf, i)
            },
            None => forall|i: int| from <= i ==> !#[trigger] start_code_at(buf, i),
        },
    decreases buf.len() - from,
{
    if from + 3 <= buf.len() && !start_code_at(buf, from) {
        lemma_start_code_from(buf, from + 1);
    }
}

pub fn next_start_code(buf: &[u8], from: usize) -> (r: Option<usize>)
    ensures
        match r {
            Some(next) => start_code_from(buf@, from as int) == Some(next as int),
            None => start_code_from(buf@, from as int) is None,
        },
{
    let mut i: usize = from;
    while i < buf.len() && buf.len() - i >= 3
        invariant
            from <= i,
            start_code_from(buf@, i as int) == start_code_from(buf@, from as int),
        decreases buf@.len() - i,
    {
        if buf[i] == 0 && buf[i + 1] == 0 && buf[i + 2] == 1 {
            return Some(i + 3);
        }
        i = i + 1;
    }
    None
}

/// `s` without the zeros at its end.
pub open spec fn without_trailing_zeros(s: Seq<u8>) -> Seq<u8>
    decreases s.len(),
{
    if s.len() > 0 && s.last() == 0 {
        without_trailing_zeros(s.drop_last())
    } else {
        s
    }
}

/// The pictures of `stream`, once those in front of the NAL unit at `start` are in `u`. A
/// unit ends at the next start code, less the zeros in front of it, or with the stream.
pub open spec fn units_from(stream: Seq<u8>, start: int, u: UnitsView) -> Seq<Option<Seq<u8>>>
    decreases stream.len() - start,
{
    if start < 0 || start > stream.len() {
        u.units
    } else {
        match start_code_from(stream, start) {
            None => after_nal(u, stream.subrange(start, stream.len() as int)).units,
            Some(next) => {
                proof {
                    lemma_start_code_from(stream, start);
                }
                units_from(
                    stream,
                    next,
                    after_nal(u, without_trailing_zeros(stream.subrange(start, next - 3))),
                )
            },
        }
    }
}

/// The HDR10+ message of each picture of an Annex B stream, in decode order.
pub open spec fn units_of(stream: Seq<u8>) -> Seq<Option<Seq<u8>>> {
    match start_code_from(stream, 0) {
        None => Seq::empty(),
        Some(next) => units_from(stream, next, no_units()),
    }
}

/// The scan of a stream that arrives in pieces.
pub struct Hdr10PlusScan {
    units: AccessUnits,
    buf: Vec<u8>,
    nal_start: Option<usize>,
    scan_from: usize,
    fed: Ghost<Seq<u8>>,
}

impl Hdr10PlusScan {
    /// The bytes that have arrived.
    pub closed spec fn fed(&self) -> Seq<u8> {
        self.fed@
    }

    /// How many bytes of the stream are no longer held.
    closed spec fn dropped(&self) -> int {
        self.fed@.len() - self.buf@.len()
    }

    /// What a stream that goes on from here comes to.
    closed spec fn outcome(&self, stream: Seq<u8>) -> Seq<Option<Seq<u8>>> {
        match self.nal_start {
            Some(start) => units_from(stream, self.dropped() + start, self.units@),
            None => match start_code_from(stream, 0) {
                None => Seq::empty(),
                Some(next) => units_from(stream, next, no_units()),
            },
        }
    }

    /// The held bytes are the end of what has arrived, every complete unit has been taken
    /// in, and no start code begins between the open unit and where the search goes on.
    closed spec fn searched(&self) -> bool {
        &&& self.buf@.len() <= self.fed@.len()
        &&& self.buf@ == self.fed@.subrange(self.dropped(), self.fed@.len() as int)
        &&& self.scan_from <= self.buf@.len()
        &&& match self.nal_start {
            Some(start) => {
                &&& start <= self.scan_from
                &&& forall|i: int|
                    self.dropped() + start <= i < self.dropped() + self.scan_from
                        ==> !#[trigger] start_code_at(self.fed@, i)
                &&& self.open_end(self.dropped() + start)
            },
            None => {
                &&& self.units@ == no_units()
                &&& forall|i: int|
                    0 <= i < self.dropped() + self.scan_from ==> !#[trigger] start_code_at(
                        self.fed@,
                        i,
                    )
                &&& self.open_end(0)
            },
        }
        &&& forall|more: Seq<u8>|
            #[trigger] units_of(self.fed@ + more) == self.outcome(self.fed@ + more)
    }

    /// A scan that is ready for more: everything that has arrived was searched.
    pub closed spec fn wf(&self) -> bool {
        &&& self.searched()
        &&& self.fed@.len() < self.dropped() + self.scan_from + 3
    }

    /// Between `base` and where the search goes on there is room for no unfinished start
    /// code.
    closed spec fn open_end(&self, base: int) -> bool {
        let scan = self.dropped() + self.scan_from;
        scan <= base || scan + 2 <= self.fed@.len()
    }
}

proof fn lemma_start_code_is(buf: Seq<u8>, from: int, next: int)
    requires
        0 <= from <= next - 3,
        start_code_at(buf, next - 3),
        forall|i: int| from <= i < next - 3 ==> !#[trigger] start_code_at(buf, i),
    ensures
        start_code_from(buf, from) == Some(next),
{
    lemma_start_code_from(buf, from);
    if let Some(found) = start_code_from(buf, from) {
        if found < next {
            assert(start_code_at(buf, found - 3));
        }
    }
}

/// A start code that has arrived whole is one whatever follows.
proof fn lemma_start_code_prefix(buf: Seq<u8>, more: Seq<u8>, i: int)
    requires
        i + 3 <= buf.len(),
    ensures
        start_code_at(buf + more, i) == start_code_at(buf, i),
{
}

impl Hdr10PlusScan {
    pub fn new() -> (scan: Hdr10PlusScan)
        ensures
            scan.wf(),
            scan.fed() == Seq::<u8>::empty(),
    {
        let scan = Hdr10PlusScan {
            units: AccessUnits::new(),
            buf: Vec::new(),
            nal_start: None,
            scan_from: 0,
            fed: Ghost(Seq::empty()),
        };
        assert(scan.buf@ =~= scan.fed@.subrange(0, 0));
        scan
    }

    /// The base that the search for the next start code counts from.
    closed spec fn base(&self) -> int {
        match self.nal_start {
            Some(start) => self.dropped() + start,
            None => 0,
        }
    }

    /// More bytes do not undo what was searched.
    fn append(&mut self, bytes: &[u8])
        requires
            old(self).searched(),
        ensures
            final(self).searched(),
            final(self).fed() == old(self).fed() + bytes@,
    {
        let ghost before = *self;
        let ghost all = self.fed@ + bytes@;
        crate::bytes::push_all(&mut self.buf, bytes);
        self.fed = Ghost(all);
        proof {
            assert(self.dropped() == before.dropped());
            assert(self.buf@ =~= all.subrange(self.dropped(), all.len() as int));
            assert forall|i: int|
                before.base() <= i < before.dropped()
                    + before.scan_from implies !#[trigger] start_code_at(all, i) by {
                lemma_start_code_prefix(before.fed@, bytes@, i);
                assert(!start_code_at(before.fed@, i));
            }
            assert forall|more: Seq<u8>| #[trigger]
                units_of(all + more) == self.outcome(all + more) by {
                assert(all + more =~= before.fed@ + (bytes@ + more));
                assert(units_of(before.fed@ + (bytes@ + more)) == before.outcome(
                    before.fed@ + (bytes@ + more),
                ));
            }
        }
    }

    /// Takes in the open unit, which ends at the start code just in front of `next`.
    fn close_unit(&mut self, next: usize)
        requires
            old(self).searched(),
            start_code_from(old(self).buf@, old(self).scan_from as int) == Some(next as int),
        ensures
            final(self).searched(),
            final(self).fed() == old(self).fed(),
            final(self).buf@ == old(self).buf@,
            final(self).scan_from == next,
            old(self).scan_from + 3 <= next <= old(self).buf@.len(),
    {
        let ghost before = *self;
        let ghost d = self.dropped();
        let ghost all = self.fed@;
        proof {
            lemma_start_code_from(self.buf@, self.scan_from as int);
            assert forall|i: int| before.base() <= i < d + next - 3 implies !#[trigger] start_code_at(
                all,
                i,
            ) by {
                if i >= d + before.scan_from {
                    assert(!start_code_at(self.buf@, i - d));
                }
            }
            assert(start_code_at(self.buf@, next - 3));
            assert(start_code_at(all, d + next - 3));
            assert forall|more: Seq<u8>| #[trigger]
                start_code_from(all + more, before.base()) == Some(d + next) by {
                assert forall|i: int|
                    before.base() <= i < d + next - 3 implies !#[trigger] start_code_at(
                    all + more,
                    i,
                ) by {
                    lemma_start_code_prefix(all, more, i);
                    assert(!start_code_at(all, i));
                }
                lemma_start_code_prefix(all, more, d + next - 3);
                lemma_start_code_is(all + more, before.base(), d + next);
            }
        }
        if let Some(start) = self.nal_start {
            let mut end: usize = next - 3;
            let ghost whole = self.buf@.subrange(start as int, next - 3);
            while end > start && self.buf[end - 1] == 0
                invariant
                    start <= end <= next - 3,
                    next <= self.buf@.len(),
                    whole == self.buf@.subrange(start as int, next - 3),
                    without_trailing_zeros(self.buf@.subrange(start as int, end as int))
                        == without_trailing_zeros(whole),
                decreases end,
            {
                assert(self.buf@.subrange(start as int, end as int).drop_last()
                    =~= self.buf@.subrange(start as int, end - 1));
                end = end - 1;
            }
            self.units.nal(slice_subrange(self.buf.as_slice(), start, end));
            proof {
                assert forall|more: Seq<u8>|
                    #![trigger units_of(all + more)]
                    units_of(all + more) == units_from(all + more, d + next, self.units@) by {
                    assert(units_of(all + more) == before.outcome(all + more));
                    assert(start_code_from(all + more, before.base()) == Some(d + next));
                    assert((all + more).subrange(before.base(), d + next - 3) =~= whole);
                }
            }
        } else {
            proof {
                assert forall|more: Seq<u8>|
                    #![trigger units_of(all + more)]
                    units_of(all + more) == units_from(all + more, d + next, self.units@) by {
                    assert(units_of(all + more) == before.outcome(all + more));
                    assert(start_code_from(all + more, before.base()) == Some(d + next));
                }
            }
        }
        self.nal_start = Some(next);
        self.scan_from = next;
    }

    /// Lets go of what is behind: the open unit stays, and two bytes that a start code may
    /// continue from.
    fn compact(&mut self)
        requires
            old(self).searched(),
            start_code_from(old(self).buf@, old(self).scan_from as int) is None,
        ensures
            final(self).wf(),
            final(self).fed() == old(self).fed(),
    {
        let ghost before = *self;
        let ghost d = self.dropped();
        let ghost all = self.fed@;
        let len: usize = self.buf.len();
        let tail: usize = if len >= 2 {
            len - 2
        } else {
            0
        };
        let open: usize = match self.nal_start {
            Some(start) => start,
            None => len,
        };
        let keep_from: usize = if open < tail {
            open
        } else {
            tail
        };
        proof {
            lemma_start_code_from(self.buf@, self.scan_from as int);
        }
        let rest = self.buf.split_off(keep_from);
        self.buf = rest;
        self.nal_start = match self.nal_start {
            Some(start) => Some(start - keep_from),
            None => None,
        };
        let start: usize = match self.nal_start {
            Some(start) => start,
            None => 0,
        };
        let now: usize = self.buf.len();
        let now_tail: usize = if now >= 2 {
            now - 2
        } else {
            0
        };
        self.scan_from = if start > now_tail {
            start
        } else {
            now_tail
        };
        proof {
            assert(self.dropped() == d + keep_from);
            assert(self.buf@ =~= all.subrange(self.dropped(), all.len() as int));
            assert(self.base() == before.base());
            assert forall|i: int|
                self.base() <= i < self.dropped() + self.scan_from implies !#[trigger] start_code_at(
                all,
                i,
            ) by {
                if i >= d + before.scan_from {
                    if start_code_at(all, i) {
                        assert(start_code_at(before.buf@, i - d));
                    }
                } else {
                    assert(!start_code_at(before.fed@, i));
                }
            }
            assert forall|more: Seq<u8>| #[trigger]
                units_of(all + more) == self.outcome(all + more) by {
                assert(units_of(all + more) == before.outcome(all + more));
            }
        }
    }

    /// Takes in the next bytes of the stream.
    pub fn feed(&mut self, bytes: &[u8])
        requires
            old(self).wf(),
        ensures
            final(self).wf(),
            final(self).fed() == old(self).fed() + bytes@,
    {
        self.append(bytes);
        let mut found = next_start_code(self.buf.as_slice(), self.scan_from);
        while found.is_some()
            invariant
                self.searched(),
                self.fed() == old(self).fed() + bytes@,
                match found {
                    Some(next) => start_code_from(self.buf@, self.scan_from as int) == Some(
                        next as int,
                    ),
                    None => start_code_from(self.buf@, self.scan_from as int) is None,
                },
            decreases self.buf@.len() - self.scan_from,
        {
            if let Some(next) = found {
                self.close_unit(next);
            }
            found = next_start_code(self.buf.as_slice(), self.scan_from);
        }
        self.compact();
    }

    /// The message of each picture, once the stream has ended.
    pub fn finish(self) -> (units: Vec<Option<Vec<u8>>>)
        requires
            self.wf(),
        ensures
            unit_views(units@) == units_of(self.fed()),
    {
        proof {
            let all = self.fed@;
            assert(all + Seq::<u8>::empty() =~= all);
            assert(units_of(all + Seq::<u8>::empty()) == self.outcome(all));
            lemma_start_code_from(all, self.base());
            assert forall|i: int| self.base() <= i implies !#[trigger] start_code_at(all, i) by {
                if i >= self.dropped() + self.scan_from {
                    assert(i + 3 > all.len());
                }
            }
            if let Some(next) = start_code_from(all, self.base()) {
                assert(start_code_at(all, next - 3));
            }
        }
        let mut this = self;
        if let Some(start) = this.nal_start {
            let len: usize = this.buf.len();
            this.units.nal(slice_subrange(this.buf.as_slice(), start, len));
            proof {
                assert(self.buf@.subrange(start as int, len as int) =~= self.fed@.subrange(
                    self.dropped() + start,
                    self.fed@.len() as int,
                ));
            }
        }
        this.units.hdr10plus
    }
}

/// Byte strings, one behind the other.
pub open spec fn concatenated(parts: Seq<Vec<u8>>) -> Seq<u8>
    decreases parts.len(),
{
    if parts.len() == 0 {
        Seq::empty()
    } else {
        concatenated(parts.drop_last()) + parts.last()@
    }
}

/// The HDR10+ message of each access unit in decode order, from an Annex B stream. How the
/// stream is cut into reads makes no difference.
pub fn hdr10plus_by_access_unit(reads: &[Vec<u8>]) -> (units: Vec<Option<Vec<u8>>>)
    ensures
        unit_views(units@) == units_of(concatenated(reads@)),
{
    let mut scan = Hdr10PlusScan::new();
    let mut i: usize = 0;
    assert(reads@.subrange(0, 0) =~= Seq::empty());
    while i < reads.len()
        invariant
            i <= reads@.len(),
            scan.wf(),
            scan.fed() == concatenated(reads@.subrange(0, i as int)),
        decreases reads@.len() - i,
    {
        scan.feed(reads[i].as_slice());
        proof {
            assert(reads@.subrange(0, i + 1).drop_last() =~= reads@.subrange(0, i as int));
        }
        i = i + 1;
    }
    assert(reads@.subrange(0, i as int) =~= reads@);
    scan.finish()
}

// ---------------------------------------------------------------------------
// Display order
// ---------------------------------------------------------------------------
/// `x` put into `order`, behind everything that is not later than it.
pub open spec fn placed(order: Seq<int>, pts: Seq<i64>, x: int) -> Seq<int>
    decreases order.len(),
{
    if order.len() == 0 || pts[order.last()] <= pts[x] {
        order.push(x)
    } else {
        placed(order.drop_last(), pts, x).push(order.last())
    }
}

/// The first `n` pictures by timestamp; those with the same one stay in decode order.
pub open spec fn display_order(pts: Seq<i64>, n: nat) -> Seq<int>
    decreases n,
{
    if n == 0 {
        Seq::empty()
    } else {
        placed(display_order(pts, (n - 1) as nat), pts, n - 1)
    }
}

/// Comes before in display order.
pub open spec fn earlier(pts: Seq<i64>, a: int, b: int) -> bool {
    pts[a] < pts[b] || (pts[a] == pts[b] && a < b)
}

pub open spec fn strictly_ordered(order: Seq<int>, pts: Seq<i64>) -> bool {
    forall|i: int, j: int|
        #![trigger order[i], order[j]]
        0 <= i < j < order.len() ==> earlier(pts, order[i], order[j])
}

proof fn lemma_placed(order: Seq<int>, pts: Seq<i64>, x: int)
    requires
        0 <= x,
        strictly_ordered(order, pts),
        forall|i: int| 0 <= i < order.len() ==> 0 <= #[trigger] order[i] < x,
    ensures
        placed(order, pts, x).len() == order.len() + 1,
        strictly_ordered(placed(order, pts, x), pts),
        forall|i: int| 0 <= i <= order.len() ==> 0 <= #[trigger] placed(order, pts, x)[i] <= x,
        placed(order, pts, x).contains(x),
        forall|y: int| #[trigger] order.contains(y) ==> placed(order, pts, x).contains(y),
        forall|i: int|
            0 <= i <= order.len() ==> #[trigger] placed(order, pts, x)[i] == x || order.contains(
                placed(order, pts, x)[i],
            ),
    decreases order.len(),
{
    let out = placed(order, pts, x);
    if order.len() == 0 || pts[order.last()] <= pts[x] {
        assert(out[order.len() as int] == x);
        assert forall|y: int| #[trigger] order.contains(y) implies out.contains(y) by {
            let i = choose|i: int| 0 <= i < order.len() && order[i] == y;
            assert(out[i] == y);
        }
        assert forall|i: int, j: int|
            #![trigger out[i], out[j]]
            0 <= i < j < out.len() implies earlier(pts, out[i], out[j]) by {
            if j == order.len() && i < order.len() - 1 {
                assert(earlier(pts, order[i], order[order.len() - 1]));
            }
        }
        assert forall|i: int| 0 <= i <= order.len() implies #[trigger] out[i] == x || order.contains(
            out[i],
        ) by {
            if i < order.len() {
                assert(out[i] == order[i]);
            }
        }
    } else {
        let front = order.drop_last();
        assert forall|i: int| 0 <= i < front.len() implies 0 <= #[trigger] front[i] < x by {
            assert(front[i] == order[i]);
        }
        assert forall|i: int, j: int|
            #![trigger front[i], front[j]]
            0 <= i < j < front.len() implies earlier(pts, front[i], front[j]) by {
            assert(front[i] == order[i] && front[j] == order[j]);
        }
        lemma_placed(front, pts, x);
        let rest = placed(front, pts, x);
        assert(out =~= rest.push(order.last()));
        assert forall|y: int| #[trigger] order.contains(y) implies out.contains(y) by {
            let i = choose|i: int| 0 <= i < order.len() && order[i] == y;
            if i < front.len() {
                assert(front[i] == y);
                assert(front.contains(y));
                let k = choose|k: int| 0 <= k < rest.len() && rest[k] == y;
                assert(out[k] == y);
            } else {
                assert(out[order.len() as int] == y);
            }
        }
        assert(out.contains(x)) by {
            let k = choose|k: int| 0 <= k < rest.len() && rest[k] == x;
            assert(out[k] == x);
        }
        assert forall|i: int| 0 <= i <= order.len() implies (#[trigger] out[i] == x || order.contains(
            out[i],
        )) && 0 <= out[i] <= x by {
            if i < order.len() {
                assert(out[i] == rest[i]);
                if rest[i] != x {
                    assert(front.contains(rest[i]));
                    let k = choose|k: int| 0 <= k < front.len() && front[k] == rest[i];
                    assert(order[k] == rest[i]);
                }
            } else {
                assert(out[i] == order[order.len() - 1]);
            }
        }
        assert forall|i: int, j: int|
            #![trigger out[i], out[j]]
            0 <= i < j < out.len() implies earlier(pts, out[i], out[j]) by {
            if j == order.len() {
                assert(out[i] == rest[i]);
                if rest[i] != x {
                    assert(front.contains(rest[i]));
                    let k = choose|k: int| 0 <= k < front.len() && front[k] == rest[i];
                    assert(order[k] == rest[i]);
                    assert(earlier(pts, order[k], order[order.len() - 1]));
                }
            } else {
                assert(out[i] == rest[i] && out[j] == rest[j]);
            }
        }
    }
}

/// Display order holds every picture exactly once, by timestamp, and keeps pictures of the
/// same timestamp in decode order.
pub proof fn law_display_order_sorts(pts: Seq<i64>, n: nat)
    ensures
        display_order(pts, n).len() == n,
        strictly_ordered(display_order(pts, n), pts),
        display_order(pts, n).no_duplicates(),
        forall|i: int| 0 <= i < n ==> 0 <= #[trigger] display_order(pts, n)[i] < n,
        forall|y: int| 0 <= y < n ==> #[trigger] display_order(pts, n).contains(y),
    decreases n,
{
    if n > 0 {
        let order = display_order(pts, (n - 1) as nat);
        law_display_order_sorts(pts, (n - 1) as nat);
        lemma_placed(order, pts, n - 1);
        assert forall|y: int| 0 <= y < n implies #[trigger] display_order(pts, n).contains(y) by {
            if y < n - 1 {
                assert(order.contains(y));
            }
        }
    }
}

/// Frames that share their messages: each names the one that it shows.
#[derive(Debug)]
pub struct Hdr10PlusFrames {
    pub messages: Vec<Vec<u8>>,
    pub frames: Vec<Option<usize>>,
}

/// What `Hdr10PlusFrames` holds.
pub struct FramesView {
    pub messages: Seq<Seq<u8>>,
    pub frames: Seq<Option<usize>>,
}

impl View for Hdr10PlusFrames {
    type V = FramesView;

    open spec fn view(&self) -> FramesView {
        FramesView {
            messages: crate::av1::byte_strings(self.messages@),
            frames: self.frames@,
        }
    }
}

/// Every message that a frame names is there.
pub open spec fn frames_ok(f: FramesView) -> bool {
    forall|i: int|
        0 <= i < f.frames.len() ==> (#[trigger] f.frames[i] matches Some(k) ==> k
            < f.messages.len())
}

/// The message that a frame shows.
pub open spec fn frame_message(f: FramesView, i: int) -> Option<Seq<u8>> {
    match f.frames[i] {
        Some(k) => Some(f.messages[k as int]),
        None => None,
    }
}

/// Messages in display order, each carried on until the next one comes.
pub open spec fn shared(units: Seq<Option<Seq<u8>>>) -> FramesView
    decreases units.len(),
{
    if units.len() == 0 {
        FramesView { messages: Seq::empty(), frames: Seq::empty() }
    } else {
        let f = shared(units.drop_last());
        let messages = match units.last() {
            Some(m) => f.messages.push(m),
            None => f.messages,
        };
        FramesView {
            messages,
            frames: f.frames.push(
                if messages.len() > 0 {
                    Some((messages.len() - 1) as usize)
                } else {
                    None
                },
            ),
        }
    }
}

/// The message that holds at place `k` of a list: its own, or the last one before it.
pub open spec fn carried(units: Seq<Option<Seq<u8>>>, k: int) -> Option<Seq<u8>>
    decreases k + 1,
{
    if k < 0 {
        None
    } else if units[k] is Some {
        units[k]
    } else {
        carried(units, k - 1)
    }
}

proof fn lemma_carried_prefix(a: Seq<Option<Seq<u8>>>, b: Seq<Option<Seq<u8>>>, k: int)
    requires
        forall|i: int| 0 <= i <= k ==> #[trigger] a[i] == b[i],
    ensures
        carried(a, k) == carried(b, k),
    decreases k + 1,
{
    if k >= 0 {
        lemma_carried_prefix(a, b, k - 1);
    }
}

/// A frame shows its own message, or else the one of the last frame before it in display
/// order that has one; without any, none.
pub proof fn law_messages_carry_on(units: Seq<Option<Seq<u8>>>)
    requires
        units.len() <= usize::MAX,
    ensures
        shared(units).frames.len() == units.len(),
        shared(units).messages.len() <= units.len(),
        frames_ok(shared(units)),
        forall|k: int|
            0 <= k < units.len() ==> #[trigger] frame_message(shared(units), k) == carried(
                units,
                k,
            ),
        shared(units).messages.len() > 0 ==> carried(units, units.len() - 1) == Some(
            shared(units).messages.last(),
        ),
        shared(units).messages.len() == 0 ==> carried(units, units.len() - 1) is None,
    decreases units.len(),
{
    if units.len() > 0 {
        let front = units.drop_last();
        law_messages_carry_on(front);
        let f = shared(front);
        let g = shared(units);
        let last = units.len() - 1;
        lemma_carried_prefix(front, units, last - 1);
        assert forall|k: int| 0 <= k < units.len() implies #[trigger] frame_message(g, k)
            == carried(units, k) by {
            if k < last {
                lemma_carried_prefix(front, units, k);
                assert(g.frames[k] == f.frames[k]);
                assert(frame_message(f, k) == carried(front, k));
            }
        }
        assert forall|i: int| 0 <= i < g.frames.len() implies (#[trigger] g.frames[i] matches Some(
            k,
        ) ==> k < g.messages.len()) by {
            if i < last {
                assert(g.frames[i] == f.frames[i]);
            }
        }
    }
}

/// Timestamps without the chance that one is missing.
pub open spec fn known_pts(pts: Seq<Option<i64>>) -> Seq<i64> {
    Seq::new(pts.len(), |i: int| pts[i]->0)
}

/// `units` in display order.
pub open spec fn displayed(units: Seq<Option<Seq<u8>>>, pts: Seq<i64>) -> Seq<Option<Seq<u8>>> {
    Seq::new(
        units.len(),
        |i: int| units[display_order(pts, units.len())[i]],
    )
}

/// The messages of all frames in display order, from those of the pictures in decode order.
pub open spec fn display_frames(
    pts: Seq<Option<i64>>,
    units: Seq<Option<Seq<u8>>>,
) -> Result<FramesView, HevcError> {
    if pts.len() != units.len() {
        Err(
            HevcError::CountMismatch {
                packets: pts.len() as usize,
                pictures: units.len() as usize,
            },
        )
    } else if exists|i: int| 0 <= i < pts.len() && #[trigger] pts[i] is None {
        Err(HevcError::NoTimestamp)
    } else {
        Ok(shared(displayed(units, known_pts(pts))))
    }
}

/// Puts picture `x` at its place among the ones before it.
fn place(order: &mut Vec<usize>, pts: &Vec<i64>, x: usize)
    requires
        x < pts@.len(),
        forall|i: int| 0 <= i < old(order)@.len() ==> #[trigger] old(order)@[i] < pts@.len(),
    ensures
        indices(final(order)@) == placed(indices(old(order)@), pts@, x as int),
        forall|i: int| 0 <= i < final(order)@.len() ==> #[trigger] final(order)@[i] < pts@.len(),
{
    let ghost start = indices(order@);
    let ghost from = order@;
    order.push(x);
    let mut at: usize = order.len() - 1;
    proof {
        assert(indices(order@.subrange(0, at as int)) =~= start);
        assert(placed(start, pts@, x as int) + indices(order@.subrange(at + 1, order@.len() as int))
            =~= placed(start, pts@, x as int));
    }
    while at > 0 && pts[order[at - 1]] > pts[x]
        invariant
            at < order@.len(),
            x < pts@.len(),
            order@[at as int] == x,
            forall|i: int| 0 <= i < order@.len() ==> #[trigger] order@[i] < pts@.len(),
            placed(indices(order@.subrange(0, at as int)), pts@, x as int) + indices(
                order@.subrange(at + 1, order@.len() as int),
            ) == placed(start, pts@, x as int),
        decreases at,
    {
        let ghost before = order@;
        let moved: usize = order[at - 1];
        order.set(at, moved);
        order.set(at - 1, x);
        proof {
            let front = indices(before.subrange(0, at as int));
            assert(front.last() == moved as int);
            assert(indices(order@.subrange(0, at - 1)) =~= front.drop_last());
            assert(indices(order@.subrange(at as int, order@.len() as int)) =~= seq![moved as int]
                + indices(before.subrange(at + 1, before.len() as int)));
            assert(placed(front.drop_last(), pts@, x as int) + indices(
                order@.subrange(at as int, order@.len() as int),
            ) =~= placed(front, pts@, x as int) + indices(
                before.subrange(at + 1, before.len() as int),
            ));
        }
        at = at - 1;
    }
    proof {
        let front = indices(order@.subrange(0, at as int));
        assert(at > 0 ==> front.last() == order@[at - 1]);
        assert(indices(order@) =~= front.push(x as int) + indices(
            order@.subrange(at + 1, order@.len() as int),
        ));
    }
}

pub open spec fn indices(v: Seq<usize>) -> Seq<int> {
    Seq::new(v.len(), |i: int| v[i] as int)
}

/// The places of these times in display order: earlier ones first, equal ones as they are.
pub fn sorted_by_time(pts: &Vec<i64>) -> (order: Vec<usize>)
    ensures
        indices(order@) == display_order(pts@, pts@.len()),
        forall|k: int| 0 <= k < order@.len() ==> #[trigger] order@[k] < pts@.len(),
{
    let mut order: Vec<usize> = Vec::new();
    let mut j: usize = 0;
    assert(indices(order@) =~= Seq::empty());
    while j < pts.len()
        invariant
            j <= pts@.len(),
            indices(order@) == display_order(pts@, j as nat),
            forall|k: int| 0 <= k < order@.len() ==> #[trigger] order@[k] < pts@.len(),
        decreases pts@.len() - j,
    {
        place(&mut order, pts, j);
        j = j + 1;
    }
    order
}

/// The frames in display order. Each message is carried on to the frames after it, as a
/// decoder that plays from the start would.
pub fn in_display_order(pts: &[Option<i64>], units: Vec<Option<Vec<u8>>>) -> (r: Result<
    Hdr10PlusFrames,
    HevcError,
>)
    ensures
        match r {
            Ok(frames) => {
                &&& display_frames(pts@, unit_views(units@)) == Ok::<_, HevcError>(frames@)
                &&& frames_ok(frames@)
            },
            Err(e) => display_frames(pts@, unit_views(units@)) == Err::<FramesView, _>(e),
        },
{
    if pts.len() != units.len() {
        return Err(HevcError::CountMismatch { packets: pts.len(), pictures: units.len() });
    }
    let n: usize = units.len();
    let mut known: Vec<i64> = Vec::new();
    let mut i: usize = 0;
    while i < n
        invariant
            i <= n == pts@.len(),
            n == units@.len(),
            known@.len() == i,
            forall|k: int| 0 <= k < i ==> #[trigger] pts@[k] == Some(known@[k]),
        decreases n - i,
    {
        match pts[i] {
            Some(p) => {
                known.push(p);
            },
            None => {
                return Err(HevcError::NoTimestamp);
            },
        }
        i = i + 1;
    }
    assert(known@ =~= known_pts(pts@));
    let order = sorted_by_time(&known);
    let ghost views = unit_views(units@);
    let ghost shown = displayed(views, known@);
    proof {
        law_display_order_sorts(known@, n as nat);
        assert(indices(order@).len() == n);
    }
    let mut messages: Vec<Vec<u8>> = Vec::new();
    let mut frames: Vec<Option<usize>> = Vec::new();
    let mut k: usize = 0;
    proof {
        assert(shown.subrange(0, 0) =~= Seq::empty());
        assert(crate::av1::byte_strings(messages@) =~= Seq::empty());
        assert(frames@ =~= Seq::empty());
    }
    while k < n
        invariant
            k <= n == units@.len(),
            order@.len() == n,
            views == unit_views(units@),
            shown.len() == n,
            forall|x: int| 0 <= x < n ==> #[trigger] order@[x] < n,
            forall|x: int| 0 <= x < n ==> #[trigger] shown[x] == views[order@[x] as int],
            (FramesView { messages: crate::av1::byte_strings(messages@), frames: frames@ })
                == shared(shown.subrange(0, k as int)),
            messages@.len() <= k,
        decreases n - k,
    {
        let ghost next = shown.subrange(0, k + 1);
        let ghost before = crate::av1::byte_strings(messages@);
        proof {
            assert(next.drop_last() =~= shown.subrange(0, k as int));
            assert(next.last() == views[order@[k as int] as int]);
        }
        if let Some(m) = &units[order[k]] {
            let mut copy: Vec<u8> = Vec::new();
            crate::bytes::push_all(&mut copy, m.as_slice());
            assert(copy@ =~= m@);
            messages.push(copy);
            assert(crate::av1::byte_strings(messages@) =~= before.push(m@));
        }
        frames.push(
            if messages.len() > 0 {
                Some(messages.len() - 1)
            } else {
                None
            },
        );
        k = k + 1;
    }
    assert(shown.subrange(0, n as int) =~= shown);
    proof {
        law_messages_carry_on(shown);
    }
    Ok(Hdr10PlusFrames { messages, frames })
}

// ---------------------------------------------------------------------------
// The cache
// ---------------------------------------------------------------------------
/// A lower-case hexadecimal digit.
pub open spec fn hex_digit(n: nat) -> char {
    if n < 10 {
        (48 + n) as char
    } else {
        (87 + n) as char
    }
}

/// The value of a hexadecimal digit of either case.
pub open spec fn hex_value(c: char) -> Option<nat> {
    if '0' <= c <= '9' {
        Some((c as nat - 48) as nat)
    } else if 'a' <= c <= 'f' {
        Some((c as nat - 87) as nat)
    } else if 'A' <= c <= 'F' {
        Some((c as nat - 55) as nat)
    } else {
        None
    }
}

/// Bytes as two hexadecimal digits each.
pub open spec fn hex_of(bytes: Seq<u8>) -> Seq<char>
    decreases bytes.len(),
{
    if bytes.len() == 0 {
        Seq::empty()
    } else {
        hex_of(bytes.drop_last()).push(hex_digit((bytes.last() / 16) as nat)).push(
            hex_digit((bytes.last() % 16) as nat),
        )
    }
}

/// A byte from two characters: two digits, or a plus sign and one digit.
pub open spec fn hex_pair(a: char, b: char) -> Option<u8> {
    match (hex_value(a), hex_value(b)) {
        (Some(x), Some(y)) => Some((16 * x + y) as u8),
        (None, Some(y)) => if a == '+' {
            Some(y as u8)
        } else {
            None
        },
        _ => None,
    }
}

/// The bytes that a string of hexadecimal digits stands for.
pub open spec fn bytes_of_hex(s: Seq<char>) -> Option<Seq<u8>>
    decreases s.len(),
{
    if s.len() == 0 {
        Some(Seq::empty())
    } else if s.len() == 1 {
        None
    } else {
        let n = s.len() as int;
        match (bytes_of_hex(s.subrange(0, n - 2)), hex_pair(s[n - 2], s[n - 1])) {
            (Some(front), Some(b)) => Some(front.push(b)),
            _ => None,
        }
    }
}

fn push_hex_digit(out: &mut String, n: u8)
    requires
        n < 16,
    ensures
        final(out)@ == old(out)@.push(hex_digit(n as nat)),
{
    let c: char = match n {
        0 => '0',
        1 => '1',
        2 => '2',
        3 => '3',
        4 => '4',
        5 => '5',
        6 => '6',
        7 => '7',
        8 => '8',
        9 => '9',
        10 => 'a',
        11 => 'b',
        12 => 'c',
        13 => 'd',
        14 => 'e',
        _ => 'f',
    };
    push_char(out, c);
}

pub fn to_hex(bytes: &[u8]) -> (s: String)
    ensures
        s@ == hex_of(bytes@),
{
    let mut s = String::new();
    let mut i: usize = 0;
    assert(bytes@.subrange(0, 0) =~= Seq::empty());
    while i < bytes.len()
        invariant
            i <= bytes@.len(),
            s@ == hex_of(bytes@.subrange(0, i as int)),
        decreases bytes@.len() - i,
    {
        proof {
            assert(bytes@.subrange(0, i + 1).drop_last() =~= bytes@.subrange(0, i as int));
        }
        push_hex_digit(&mut s, bytes[i] / 16);
        push_hex_digit(&mut s, bytes[i] % 16);
        i = i + 1;
    }
    assert(bytes@.subrange(0, i as int) =~= bytes@);
    s
}

fn read_hex_digit(c: char) -> (r: Option<u8>)
    ensures
        match r {
            Some(v) => hex_value(c) == Some(v as nat) && v < 16,
            None => hex_value(c) is None,
        },
{
    if '0' <= c && c <= '9' {
        Some((c as u32 - 48) as u8)
    } else if 'a' <= c && c <= 'f' {
        Some((c as u32 - 87) as u8)
    } else if 'A' <= c && c <= 'F' {
        Some((c as u32 - 55) as u8)
    } else {
        None
    }
}

/// A string that cannot be read does not become readable by going on.
proof fn lemma_hex_none(s: Seq<char>, n: int)
    requires
        0 <= n <= s.len(),
        n % 2 == 0,
        bytes_of_hex(s.subrange(0, n)) is None,
    ensures
        bytes_of_hex(s) is None,
    decreases s.len(),
{
    if n == s.len() {
        assert(s.subrange(0, n) =~= s);
    } else if s.len() >= 2 {
        if n <= s.len() - 2 {
            let front = s.subrange(0, s.len() - 2);
            assert(front.subrange(0, n) =~= s.subrange(0, n));
            lemma_hex_none(front, n);
        } else {
            lemma_hex_odd(s);
        }
    }
}

proof fn lemma_hex_odd(s: Seq<char>)
    requires
        s.len() % 2 == 1,
    ensures
        bytes_of_hex(s) is None,
    decreases s.len(),
{
    if s.len() > 1 {
        lemma_hex_odd(s.subrange(0, s.len() - 2));
    }
}

pub fn from_hex(s: &str) -> (r: Option<Vec<u8>>)
    ensures
        match r {
            Some(bytes) => bytes_of_hex(s@) == Some(bytes@),
            None => bytes_of_hex(s@) is None,
        },
{
    let chars = to_chars(s);
    let mut out: Vec<u8> = Vec::new();
    let mut i: usize = 0;
    assert(s@.subrange(0, 0) =~= Seq::empty());
    while i < chars.len()
        invariant
            chars@ == s@,
            i <= chars@.len(),
            i % 2 == 0,
            bytes_of_hex(s@.subrange(0, i as int)) == Some(out@),
        decreases chars@.len() - i,
    {
        if chars.len() - i < 2 {
            proof {
                lemma_hex_odd(s@);
            }
            return None;
        }
        let ghost next = s@.subrange(0, i + 2);
        proof {
            assert(next.subrange(0, next.len() - 2) =~= s@.subrange(0, i as int));
            assert(next[i as int] == s@[i as int]);
            assert(next[i + 1] == s@[i + 1]);
        }
        let high = read_hex_digit(chars[i]);
        let low = read_hex_digit(chars[i + 1]);
        let b: u8 = match (high, low) {
            (Some(x), Some(y)) => 16 * x + y,
            (None, Some(y)) => {
                if chars[i] != '+' {
                    proof {
                        lemma_hex_none(s@, i + 2);
                    }
                    return None;
                }
                y
            },
            (_, None) => {
                proof {
                    lemma_hex_none(s@, i + 2);
                }
                return None;
            },
        };
        out.push(b);
        i = i + 2;
    }
    assert(s@.subrange(0, i as int) =~= s@);
    Some(out)
}

/// Bytes written in hexadecimal read back.
pub proof fn law_hex_round_trip(bytes: Seq<u8>)
    ensures
        bytes_of_hex(hex_of(bytes)) == Some(bytes),
    decreases bytes.len(),
{
    if bytes.len() > 0 {
        let front = bytes.drop_last();
        law_hex_round_trip(front);
        let s = hex_of(bytes);
        assert(s.subrange(0, s.len() - 2) =~= hex_of(front));
        assert(front.push(bytes.last()) =~= bytes);
    } else {
        assert(bytes =~= Seq::empty());
    }
}

/// Frames as they are kept between runs: the messages in hexadecimal.
#[derive(Debug)]
pub struct Cache {
    pub messages: Vec<String>,
    pub frames: Vec<Option<usize>>,
}

pub open spec fn hex_messages(messages: Seq<Seq<u8>>) -> Seq<Seq<char>> {
    Seq::new(messages.len(), |i: int| hex_of(messages[i]))
}

/// What a cache holds: its messages as they were, or None when one is not hexadecimal.
pub open spec fn cached_messages(messages: Seq<Seq<char>>) -> Option<Seq<Seq<u8>>>
    decreases messages.len(),
{
    if messages.len() == 0 {
        Some(Seq::empty())
    } else {
        match (cached_messages(messages.drop_last()), bytes_of_hex(messages.last())) {
            (Some(front), Some(m)) => Some(front.push(m)),
            _ => None,
        }
    }
}

/// What is read back from a cache.
pub open spec fn cached_frames(messages: Seq<Seq<char>>, frames: Seq<Option<usize>>) -> Result<
    FramesView,
    HevcError,
> {
    match cached_messages(messages) {
        None => Err(HevcError::InvalidHex),
        Some(m) => {
            let f = FramesView { messages: m, frames };
            if frames_ok(f) {
                Ok(f)
            } else {
                Err(HevcError::MessageOutOfRange)
            }
        },
    }
}

/// The cache for `frames`.
pub fn save(frames: &Hdr10PlusFrames) -> (cache: Cache)
    ensures
        crate::text::strings(cache.messages@) == hex_messages(frames@.messages),
        cache.frames@ == frames@.frames,
{
    let mut messages: Vec<String> = Vec::new();
    let mut i: usize = 0;
    while i < frames.messages.len()
        invariant
            i <= frames.messages@.len(),
            messages@.len() == i,
            forall|k: int| 0 <= k < i ==> (#[trigger] messages@[k])@ == hex_of(frames.messages@[k]@),
        decreases frames.messages@.len() - i,
    {
        messages.push(to_hex(frames.messages[i].as_slice()));
        i = i + 1;
    }
    assert(crate::text::strings(messages@) =~= hex_messages(frames@.messages));
    let mut shown: Vec<Option<usize>> = Vec::new();
    let mut j: usize = 0;
    while j < frames.frames.len()
        invariant
            j <= frames.frames@.len(),
            shown@ == frames.frames@.subrange(0, j as int),
        decreases frames.frames@.len() - j,
    {
        shown.push(frames.frames[j]);
        j = j + 1;
        assert(shown@ =~= frames.frames@.subrange(0, j as int));
    }
    assert(shown@ =~= frames.frames@);
    Cache { messages, frames: shown }
}

proof fn lemma_cached_none(messages: Seq<Seq<char>>, n: int)
    requires
        0 <= n <= messages.len(),
        cached_messages(messages.subrange(0, n)) is None,
    ensures
        cached_messages(messages) is None,
    decreases messages.len(),
{
    if n < messages.len() {
        assert(messages.drop_last().subrange(0, n) =~= messages.subrange(0, n));
        lemma_cached_none(messages.drop_last(), n);
    } else {
        assert(messages.subrange(0, n) =~= messages);
    }
}

/// The frames that a cache holds.
pub fn load(cache: &Cache) -> (r: Result<Hdr10PlusFrames, HevcError>)
    ensures
        match r {
            Ok(frames) => cached_frames(crate::text::strings(cache.messages@), cache.frames@)
                == Ok::<_, HevcError>(frames@) && frames_ok(frames@),
            Err(e) => cached_frames(crate::text::strings(cache.messages@), cache.frames@) == Err::<
                FramesView,
                _,
            >(e),
        },
{
    let ghost all = crate::text::strings(cache.messages@);
    let mut messages: Vec<Vec<u8>> = Vec::new();
    let mut i: usize = 0;
    proof {
        assert(all.subrange(0, 0) =~= Seq::empty());
        assert(crate::av1::byte_strings(messages@) =~= Seq::empty());
    }
    while i < cache.messages.len()
        invariant
            i <= cache.messages@.len(),
            all == crate::text::strings(cache.messages@),
            cached_messages(all.subrange(0, i as int)) == Some(
                crate::av1::byte_strings(messages@),
            ),
        decreases cache.messages@.len() - i,
    {
        let ghost before = crate::av1::byte_strings(messages@);
        let ghost next = all.subrange(0, i + 1);
        proof {
            assert(next.drop_last() =~= all.subrange(0, i as int));
            assert(next.last() == cache.messages@[i as int]@);
        }
        match from_hex(cache.messages[i].as_str()) {
            Some(m) => {
                let ghost view = m@;
                messages.push(m);
                assert(crate::av1::byte_strings(messages@) =~= before.push(view));
            },
            None => {
                proof {
                    lemma_cached_none(all, i + 1);
                }
                return Err(HevcError::InvalidHex);
            },
        }
        i = i + 1;
    }
    assert(all.subrange(0, i as int) =~= all);
    let ghost f = FramesView {
        messages: crate::av1::byte_strings(messages@),
        frames: cache.frames@,
    };
    let mut frames: Vec<Option<usize>> = Vec::new();
    let mut j: usize = 0;
    while j < cache.frames.len()
        invariant
            j <= cache.frames@.len(),
            f == (FramesView {
                messages: crate::av1::byte_strings(messages@),
                frames: cache.frames@,
            }),
            frames@ == cache.frames@.subrange(0, j as int),
            cached_messages(all) == Some(f.messages),
            all == crate::text::strings(cache.messages@),
            forall|k: int|
                0 <= k < j ==> (#[trigger] f.frames[k] matches Some(x) ==> x < f.messages.len()),
        decreases cache.frames@.len() - j,
    {
        if let Some(x) = cache.frames[j] {
            if x >= messages.len() {
                assert(f.frames[j as int] == Some(x));
                return Err(HevcError::MessageOutOfRange);
            }
        }
        frames.push(cache.frames[j]);
        j = j + 1;
        assert(frames@ =~= cache.frames@.subrange(0, j as int));
    }
    assert(frames@ =~= cache.frames@);
    Ok(Hdr10PlusFrames { messages, frames })
}

proof fn lemma_cached_back(messages: Seq<Seq<u8>>)
    ensures
        cached_messages(hex_messages(messages)) == Some(messages),
    decreases messages.len(),
{
    if messages.len() > 0 {
        lemma_cached_back(messages.drop_last());
        assert(hex_messages(messages).drop_last() =~= hex_messages(messages.drop_last()));
        law_hex_round_trip(messages.last());
        assert(messages.drop_last().push(messages.last()) =~= messages);
    } else {
        assert(messages =~= Seq::empty());
    }
}

/// What a cache was made from is what is read back from it.
pub proof fn law_cache_round_trip(f: FramesView)
    requires
        frames_ok(f),
    ensures
        cached_frames(hex_messages(f.messages), f.frames) == Ok::<_, HevcError>(f),
{
    lemma_cached_back(f.messages);
}

/// The HDR10+ message of every frame in display order: from the cache of an earlier scan
/// where there is one, else from a new scan, with the cache to keep.
pub fn hdr10plus_frames(
    cache: Option<&Cache>,
    pts: &[Option<i64>],
    units: Vec<Option<Vec<u8>>>,
) -> (r: Result<(Hdr10PlusFrames, Option<Cache>), HevcError>)
    ensures
        r matches Ok((frames, _)) ==> frames_ok(frames@),
        match cache {
            Some(c) => match r {
                Ok((frames, kept)) => cached_frames(crate::text::strings(c.messages@), c.frames@)
                    == Ok::<_, HevcError>(frames@) && kept is None,
                Err(e) => cached_frames(crate::text::strings(c.messages@), c.frames@) == Err::<
                    FramesView,
                    _,
                >(e),
            },
            None => match r {
                Ok((frames, kept)) => {
                    &&& display_frames(pts@, unit_views(units@)) == Ok::<_, HevcError>(frames@)
                    &&& kept matches Some(k) && crate::text::strings(k.messages@) == hex_messages(
                        frames@.messages,
                    ) && k.frames@ == frames@.frames
                },
                Err(e) => display_frames(pts@, unit_views(units@)) == Err::<FramesView, _>(e),
            },
        },
{
    match cache {
        Some(c) => match load(c) {
            Ok(frames) => Ok((frames, None)),
            Err(e) => Err(e),
        },
        None => match in_display_order(pts, units) {
            Ok(frames) => {
                let kept = save(&frames);
                Ok((frames, Some(kept)))
            },
            Err(e) => Err(e),
        },
    }
}

impl Hdr10PlusFrames {
    /// The message that frame `i` shows.
    pub fn message(&self, i: usize) -> (r: Option<&Vec<u8>>)
        requires
            frames_ok(self@),
            i < self@.frames.len(),
        ensures
            match r {
                Some(m) => frame_message(self@, i as int) == Some(m@),
                None => frame_message(self@, i as int) is None,
            },
    {
        match self.frames[i] {
            Some(k) => {
                assert(self@.frames[i as int] == Some(k));
                Some(&self.messages[k])
            },
            None => None,
        }
    }
}

// ---------------------------------------------------------------------------
// Whose message a frame shows
// ---------------------------------------------------------------------------
/// In display order a frame shows the message of its own picture, where that has one, and what
/// the frame in front of it shows otherwise. The picture at a place is told by the timestamps:
/// each comes once, none before an earlier one.
pub proof fn law_each_frame_shows_its_own_message(
    pts: Seq<Option<i64>>,
    units: Seq<Option<Seq<u8>>>,
)
    requires
        units.len() <= usize::MAX,
        display_frames(pts, units) is Ok,
    ensures
        ({
            let f = display_frames(pts, units)->Ok_0;
            &&& pts.len() == units.len() && f.frames.len() == units.len()
            &&& exists|order: Seq<int>|
                {
                    &&& #[trigger] order.len() == units.len()
                    &&& order.no_duplicates()
                    &&& forall|i: int| 0 <= i < order.len() ==> 0 <= #[trigger] order[i] < units.len()
                    &&& forall|i: int, j: int|
                        #![trigger order[i], order[j]]
                        0 <= i < j < order.len() ==> pts[order[i]]->0 <= pts[order[j]]->0
                    &&& forall|i: int|
                        0 <= i < order.len() && units[#[trigger] order[i]] is Some ==> frame_message(
                            f,
                            i,
                        ) == units[order[i]]
                    &&& forall|i: int|
                        0 < i < order.len() && units[#[trigger] order[i]] is None ==> frame_message(
                            f,
                            i,
                        ) == frame_message(f, i - 1)
                    &&& units.len() > 0 && units[order[0]] is None ==> frame_message(f, 0) is None
                }
        }),
{
    let f = display_frames(pts, units)->Ok_0;
    let known = known_pts(pts);
    let order = display_order(known, units.len());
    let shown = displayed(units, known);
    law_display_order_sorts(known, units.len());
    law_messages_carry_on(shown);
    assert forall|i: int, j: int|
        #![trigger order[i], order[j]]
        0 <= i < j < order.len() implies pts[order[i]]->0 <= pts[order[j]]->0 by {
        assert(earlier(known, order[i], order[j]));
    }
    assert forall|i: int|
        0 <= i < order.len() && units[#[trigger] order[i]] is Some implies frame_message(f, i)
        == units[order[i]] by {
        assert(shown[i] == units[order[i]]);
        assert(frame_message(shared(shown), i) == carried(shown, i));
    }
    assert forall|i: int|
        0 < i < order.len() && units[#[trigger] order[i]] is None implies frame_message(f, i)
        == frame_message(f, i - 1) by {
        assert(shown[i] == units[order[i]]);
        assert(frame_message(shared(shown), i) == carried(shown, i));
        assert(frame_message(shared(shown), i - 1) == carried(shown, i - 1));
    }
    if units.len() > 0 && units[order[0]] is None {
        assert(shown[0] == units[order[0]]);
        assert(frame_message(shared(shown), 0) == carried(shown, 0));
        assert(carried(shown, -1) is None);
    }
    assert(order.len() == units.len());
}

/// The bytes of an SEI unit with one HDR10+ message.
pub open spec fn hdr10plus_sei(message: Seq<u8>) -> Seq<u8> {
    seq![4u8, (6 + message.len()) as u8] + seq![0xB5u8, 0x00u8, 0x3Cu8, 0x00u8, 0x01u8, 0x04u8]
        + message + seq![0x80u8]
}

/// An HDR10+ message that was put into an SEI unit, with emulation prevention, is found there
/// again as it was.
pub proof fn law_message_is_found_in_its_sei(message: Seq<u8>)
    requires
        message.len() < 249,
    ensures
        hdr10plus_of_sei(escaped(hdr10plus_sei(message)).0) == Some(message),
{
    let rbsp = hdr10plus_sei(message);
    law_emulation_prevention_undone(rbsp);
    let size = 6 + message.len();
    assert(rbsp[0] == 4 && rbsp[1] == size);
    assert(sei_value_at(rbsp, 0) == Some((4nat, 1int)));
    assert(sei_value_at(rbsp, 1) == Some((size, 2int)));
    let payload = rbsp.subrange(2, 2 + size as int);
    assert(payload.subrange(0, 6) =~= hdr10plus_header());
    assert(payload.subrange(6, payload.len() as int) =~= message);
}

/// Other SEI messages in front of it are passed over, by their size.
pub proof fn law_other_messages_are_passed_over(rbsp: Seq<u8>, pos: int)
    requires
        0 <= pos,
        pos + 2 < rbsp.len(),
        rbsp[pos] != 4 && rbsp[pos] != 0xFF,
        rbsp[pos + 1] != 0xFF,
        pos + 2 + rbsp[pos + 1] <= rbsp.len(),
    ensures
        hdr10plus_from(rbsp, pos) == hdr10plus_from(rbsp, pos + 2 + rbsp[pos + 1]),
{
    assert(sei_value_at(rbsp, pos) == Some((rbsp[pos] as nat, pos + 1)));
    assert(sei_value_at(rbsp, pos + 1) == Some((rbsp[pos + 1] as nat, pos + 2)));
}

/// The unit of a slice that starts a picture of the base layer.
pub open spec fn first_slice(nal: Seq<u8>) -> bool {
    nal.len() > 2 && nal[0] < 64 && nal[0] % 2 == 0 && nal[1] < 8 && nal[2] >= 128
}

/// A message in front of a picture is that picture's, and one behind it too, where it takes the
/// place of the other. A picture counts once, with its first slice, and other units count for
/// none.
pub proof fn law_messages_belong_to_their_picture(
    u: UnitsView,
    slice: Seq<u8>,
    more: Seq<u8>,
    sei: Seq<u8>,
)
    requires
        first_slice(slice),
        more.len() > 2 && more[0] < 64 && more[0] % 2 == 0 && more[1] < 8 && more[2] < 128,
        hdr10plus_of_sei(sei) is Some,
    ensures
        ({
            let prefix = seq![0x4Eu8, 0x01u8] + sei;
            let suffix = seq![0x50u8, 0x01u8] + sei;
            let before = after_nal(after_nal(u, prefix), slice);
            let behind = after_nal(after_nal(u, slice), suffix);
            &&& before.units == u.units.push(hdr10plus_of_sei(sei)) && before.pending is None
            &&& behind.units == u.units.push(hdr10plus_of_sei(sei)) && behind.pending is None
            &&& after_nal(u, slice).units == u.units.push(u.pending)
            &&& after_nal(u, more) == u
            &&& after_nal(u, prefix).units == u.units
        }),
{
    let prefix = seq![0x4Eu8, 0x01u8] + sei;
    let suffix = seq![0x50u8, 0x01u8] + sei;
    assert(prefix.subrange(2, prefix.len() as int) =~= sei);
    assert(suffix.subrange(2, suffix.len() as int) =~= sei);
    lemma_nal_header(0x4E, 0x01);
    lemma_nal_header(0x50, 0x01);
    lemma_nal_header(slice[0], slice[1]);
    lemma_nal_header(more[0], more[1]);
    let (a, b) = (slice[2], more[2]);
    assert((a & 0x80 != 0) <==> a >= 128) by (bit_vector);
    assert((b & 0x80 != 0) <==> b >= 128) by (bit_vector);
    assert(after_nal(after_nal(u, slice), suffix).units =~= u.units.push(hdr10plus_of_sei(sei)));
}

proof fn lemma_nal_header(a: u8, b: u8)
    ensures
        a % 2 == 0 ==> (a & 0x01) == 0,
        a % 2 == 1 ==> (a & 0x01) != 0,
        b < 8 ==> (b >> 3) == 0,
        b >= 8 ==> (b >> 3) != 0,
        a < 128 ==> ((a >> 1) & 0x3F) == a / 2,
{
    assert(a % 2 == 0 ==> (a & 0x01) == 0) by (bit_vector);
    assert(a % 2 == 1 ==> (a & 0x01) != 0) by (bit_vector);
    assert(b < 8 ==> (b >> 3) == 0) by (bit_vector);
    assert(b >= 8 ==> (b >> 3) != 0) by (bit_vector);
    assert(a < 128 ==> ((a >> 1) & 0x3F) == a / 2) by (bit_vector);
}

/// Units of an enhancement layer are passed over.
pub proof fn law_enhancement_layers_are_passed_over(u: UnitsView, nal: Seq<u8>)
    requires
        nal.len() < 2 || nal[0] % 2 == 1 || nal[1] >= 8,
    ensures
        after_nal(u, nal) == u,
{
    if nal.len() >= 2 {
        lemma_nal_header(nal[0], nal[1]);
    }
}

// ---------------------------------------------------------------------------
// A stream as a list of units
// ---------------------------------------------------------------------------
/// Units behind their start codes.
pub open spec fn annex_b(nals: Seq<Seq<u8>>) -> Seq<u8>
    decreases nals.len(),
{
    if nals.len() == 0 {
        Seq::empty()
    } else {
        seq![0u8, 0u8, 1u8] + nals[0] + annex_b(nals.drop_first())
    }
}

/// What the units of a list add, one behind the other.
pub open spec fn after_nals(u: UnitsView, nals: Seq<Seq<u8>>) -> UnitsView
    decreases nals.len(),
{
    if nals.len() == 0 {
        u
    } else {
        after_nals(after_nal(u, nals[0]), nals.drop_first())
    }
}

/// A unit that can stand in a stream: it has no start code in it and does not end with a zero.
pub open spec fn whole_unit(nal: Seq<u8>) -> bool {
    nal.len() > 0 && nal.last() != 0 && forall|i: int| !#[trigger] start_code_at(nal, i)
}

proof fn lemma_units_from(before: Seq<u8>, nal: Seq<u8>, rest: Seq<Seq<u8>>, u: UnitsView)
    requires
        whole_unit(nal),
        forall|i: int| 0 <= i < rest.len() ==> whole_unit(#[trigger] rest[i]),
    ensures
        units_from(before + nal + annex_b(rest), before.len() as int, u) == after_nals(
            after_nal(u, nal),
            rest,
        ).units,
    decreases rest.len(),
{
    let stream = before + nal + annex_b(rest);
    let start = before.len() as int;
    let end = start + nal.len();
    assert forall|i: int| start <= i < end implies !#[trigger] start_code_at(stream, i) by {
        if start_code_at(stream, i) {
            if i + 3 <= end {
                assert(stream[i] == nal[i - start] && stream[i + 1] == nal[i + 1 - start] && stream[i
                    + 2] == nal[i + 2 - start]);
                assert(start_code_at(nal, i - start));
            } else {
                assert(stream[end - 1] == nal.last());
            }
        }
    }
    if rest.len() == 0 {
        assert(stream =~= before + nal);
        lemma_start_code_from(stream, start);
        assert(stream.subrange(start, stream.len() as int) =~= nal);
    } else {
        let tail = annex_b(rest.drop_first());
        assert(annex_b(rest) == seq![0u8, 0u8, 1u8] + rest[0] + tail);
        assert(stream[end] == 0 && stream[end + 1] == 0 && stream[end + 2] == 1);
        assert(start_code_at(stream, end));
        lemma_start_code_is(stream, start, end + 3);
        assert(stream.subrange(start, end) =~= nal);
        assert(without_trailing_zeros(nal) == nal);
        let next = before + nal + seq![0u8, 0u8, 1u8];
        assert(stream =~= next + rest[0] + tail);
        assert(whole_unit(rest[0]));
        assert forall|i: int| 0 <= i < rest.drop_first().len() implies whole_unit(
            #[trigger] rest.drop_first()[i],
        ) by {
            assert(rest.drop_first()[i] == rest[i + 1]);
        }
        lemma_units_from(next, rest[0], rest.drop_first(), after_nal(u, nal));
    }
}

/// The pictures of a stream are those of its units, taken in one behind the other.
pub proof fn law_stream_is_read_unit_by_unit(nals: Seq<Seq<u8>>)
    requires
        nals.len() > 0,
        forall|i: int| 0 <= i < nals.len() ==> whole_unit(#[trigger] nals[i]),
    ensures
        units_of(annex_b(nals)) == after_nals(
            UnitsView { units: Seq::empty(), pending: None },
            nals,
        ).units,
{
    let stream = annex_b(nals);
    let head = seq![0u8, 0u8, 1u8];
    let rest = nals.drop_first();
    assert(stream == head + nals[0] + annex_b(rest));
    assert(stream[0] == 0 && stream[1] == 0 && stream[2] == 1);
    assert(start_code_at(stream, 0));
    lemma_start_code_is(stream, 0, 3);
    assert(whole_unit(nals[0]));
    assert forall|i: int| 0 <= i < rest.len() implies whole_unit(#[trigger] rest[i]) by {
        assert(rest[i] == nals[i + 1]);
    }
    lemma_units_from(head, nals[0], rest, no_units());
    assert(no_units().units =~= Seq::empty());
}

} // verus!
