//! The layout of a Dolby Vision RPU, as far as it takes to tell whether one can be read to
//! its end: field widths, counts that size what follows, and the metadata blocks.
use crate::hevc::{remove_emulation_prevention, unescaped, without_trailing_zeros};
use vstd::arithmetic::power2::{
    lemma2_to64, lemma2_to64_rest, lemma_pow2_strictly_increases, lemma_pow2_unfold, pow2,
};
use vstd::prelude::*;

verus! {

// ---------------------------------------------------------------------------
// Bits
// ---------------------------------------------------------------------------
/// The bit of `byte` at `at`, the highest one first.
pub open spec fn bit_of(byte: u8, at: u8) -> bool {
    (byte >> ((7 - at) as u8)) & 1 == 1
}

/// Bit `i` of `d`.
pub open spec fn bit(d: Seq<u8>, i: int) -> nat {
    if bit_of(d[i / 8], (i % 8) as u8) {
        1
    } else {
        0
    }
}

/// The number in the `n` bits from `p` on.
pub open spec fn number(d: Seq<u8>, p: int, n: nat) -> nat
    decreases n,
{
    if n == 0 {
        0
    } else {
        2 * number(d, p, (n - 1) as nat) + bit(d, p + n - 1)
    }
}

/// The position behind `n` bits at `p`; None where they are not all there. What is behind
/// nothing is nothing.
pub open spec fn after(d: Seq<u8>, p: Option<int>, n: nat) -> Option<int> {
    match p {
        Some(at) if at + n <= 8 * d.len() => Some(at + n),
        _ => None,
    }
}

/// The number in `n` bits at `p`, or zero where they are not all there.
pub open spec fn field(d: Seq<u8>, p: Option<int>, n: nat) -> nat {
    if after(d, p, n) is Some {
        number(d, p->0, n)
    } else {
        0
    }
}

/// How many zeros stand at `p` in front of the next one; None where there is none.
pub open spec fn zeros(d: Seq<u8>, p: int) -> Option<nat>
    decreases 8 * d.len() - p,
{
    if p < 0 || p >= 8 * d.len() {
        None
    } else if bit(d, p) == 1 {
        Some(0)
    } else {
        match zeros(d, p + 1) {
            Some(n) => Some(n + 1),
            None => None,
        }
    }
}

/// The position behind an exponential-Golomb code at `p`: some zeros, a one, and as many
/// bits as there were zeros, at most 63.
pub open spec fn after_code(d: Seq<u8>, p: Option<int>) -> Option<int> {
    match p {
        Some(at) => match zeros(d, at) {
            Some(n) if n <= 63 => after(d, p, 2 * n + 1),
            _ => None,
        },
        None => None,
    }
}

/// The number in the exponential-Golomb code at `p`, or zero where there is none.
pub open spec fn code(d: Seq<u8>, p: Option<int>) -> nat {
    if after_code(d, p) is Some {
        let n = zeros(d, p->0)->0;
        (number(d, p->0 + n, n + 1) - 1) as nat
    } else {
        0
    }
}

/// The position behind `k` codes.
pub open spec fn after_codes(d: Seq<u8>, p: Option<int>, k: nat) -> Option<int>
    decreases k,
{
    if k == 0 {
        p
    } else {
        after_codes(d, after_code(d, p), (k - 1) as nat)
    }
}

/// Signed codes are halved in 64 bits, by way of a floating-point number. From here on a code
/// for a number below zero overflows.
pub const READ_END: u64 = 18_446_744_073_709_550_591;

/// A signed code that is written is doubled again in 64 bits; from here on that overflows.
pub const WRITE_END: u64 = 9_223_372_036_854_775_295;

/// The position behind a signed code.
pub open spec fn after_signed(d: Seq<u8>, p: Option<int>) -> Option<int> {
    if code(d, p) < READ_END || code(d, p) % 2 == 1 {
        after_code(d, p)
    } else {
        None
    }
}

pub open spec fn place(p: Option<u128>) -> Option<int> {
    match p {
        Some(at) => Some(at as int),
        None => None,
    }
}

/// A position within `d`.
pub open spec fn within(d: Seq<u8>, p: Option<u128>) -> bool {
    p matches Some(at) ==> at <= 8 * d.len()
}

proof fn lemma_number_bound(d: Seq<u8>, p: int, n: nat)
    ensures
        number(d, p, n) < pow2(n),
    decreases n,
{
    if n == 0 {
        lemma2_to64();
    } else {
        lemma_number_bound(d, p, (n - 1) as nat);
        lemma_pow2_unfold(n);
    }
}

/// The number in an exponential-Golomb code has a one in front.
proof fn lemma_code_is_positive(d: Seq<u8>, p: int, n: nat)
    requires
        zeros(d, p) == Some(n),
        n <= 63,
    ensures
        number(d, p + n, n + 1) >= 1,
    decreases n,
{
    lemma_first_one(d, p);
    lemma_number_leads(d, p + n, n + 1);
}

proof fn lemma_first_one(d: Seq<u8>, p: int)
    requires
        zeros(d, p) is Some,
    ensures
        bit(d, p + zeros(d, p)->0) == 1,
    decreases 8 * d.len() - p,
{
    if bit(d, p) != 1 {
        lemma_first_one(d, p + 1);
    }
}

proof fn lemma_number_leads(d: Seq<u8>, p: int, n: nat)
    requires
        n >= 1,
        bit(d, p) == 1,
    ensures
        number(d, p, n) >= 1,
    decreases n,
{
    if n > 1 {
        lemma_number_leads(d, p, (n - 1) as nat);
    }
}

fn bit_at(d: &[u8], i: u128) -> (r: bool)
    requires
        i < 8 * d@.len(),
    ensures
        (if r {
            1nat
        } else {
            0nat
        }) == bit(d@, i as int),
{
    let byte: u8 = d[(i / 8) as usize];
    let at: u8 = (i % 8) as u8;
    (byte >> (7 - at)) & 1 == 1
}

fn end_of(d: &[u8]) -> (end: u128)
    ensures
        end == 8 * d@.len(),
{
    8 * (d.len() as u128)
}

fn skip(d: &[u8], p: Option<u128>, n: u128) -> (r: Option<u128>)
    requires
        within(d@, p),
    ensures
        place(r) == after(d@, place(p), n as nat),
        within(d@, r),
{
    let end: u128 = end_of(d);
    match p {
        Some(at) => {
            if n <= end - at {
                Some(at + n)
            } else {
                None
            }
        },
        None => None,
    }
}

fn read(d: &[u8], p: Option<u128>, n: u32) -> (r: u64)
    requires
        within(d@, p),
        n <= 64,
    ensures
        r == field(d@, place(p), n as nat),
{
    let end: u128 = end_of(d);
    let at: u128 = match p {
        Some(at) => at,
        None => {
            return 0;
        },
    };
    if n as u128 > end - at {
        return 0;
    }
    let mut v: u64 = 0;
    let mut i: u32 = 0;
    while i < n
        invariant
            i <= n <= 64,
            at + n <= end,
            end == 8 * d@.len(),
            v == number(d@, at as int, i as nat),
        decreases n - i,
    {
        proof {
            lemma_number_bound(d@, at as int, i as nat);
            lemma2_to64_rest();
            if i < 63 {
                lemma_pow2_strictly_increases(i as nat, 63);
            }
        }
        let b = bit_at(d, at + i as u128);
        v = 2 * v + if b {
            1
        } else {
            0
        };
        i = i + 1;
    }
    v
}

fn count_zeros(d: &[u8], at: u128) -> (r: Option<u128>)
    requires
        at <= 8 * d@.len(),
    ensures
        match r {
            Some(n) => zeros(d@, at as int) == Some(n as nat) && at + n < 8 * d@.len(),
            None => zeros(d@, at as int) is None,
        },
{
    let end: u128 = end_of(d);
    let mut i: u128 = at;
    while i < end
        invariant
            at <= i <= end,
            end == 8 * d@.len(),
            match zeros(d@, i as int) {
                Some(n) => zeros(d@, at as int) == Some((n + (i - at)) as nat),
                None => zeros(d@, at as int) is None,
            },
        decreases end - i,
    {
        if bit_at(d, i) {
            return Some(i - at);
        }
        i = i + 1;
    }
    None
}

fn skip_code(d: &[u8], p: Option<u128>) -> (r: Option<u128>)
    requires
        within(d@, p),
    ensures
        place(r) == after_code(d@, place(p)),
        within(d@, r),
{
    match p {
        Some(at) => match count_zeros(d, at) {
            Some(n) => {
                if n <= 63 {
                    skip(d, p, 2 * n + 1)
                } else {
                    None
                }
            },
            None => None,
        },
        None => None,
    }
}

fn read_code(d: &[u8], p: Option<u128>) -> (r: u64)
    requires
        within(d@, p),
    ensures
        r == code(d@, place(p)),
{
    if skip_code(d, p).is_none() {
        return 0;
    }
    match p {
        Some(at) => match count_zeros(d, at) {
            Some(n) => {
                proof {
                    lemma_code_is_positive(d@, at as int, n as nat);
                }
                read(d, Some(at + n), n as u32 + 1) - 1
            },
            None => 0,
        },
        None => 0,
    }
}

fn skip_codes(d: &[u8], p: Option<u128>, k: u32) -> (r: Option<u128>)
    requires
        within(d@, p),
    ensures
        place(r) == after_codes(d@, place(p), k as nat),
        within(d@, r),
{
    let mut at: Option<u128> = p;
    let mut left: u32 = k;
    while left > 0
        invariant
            within(d@, at),
            after_codes(d@, place(at), left as nat) == after_codes(d@, place(p), k as nat),
        decreases left,
    {
        at = skip_code(d, at);
        left = left - 1;
    }
    at
}

fn skip_signed(d: &[u8], p: Option<u128>) -> (r: Option<u128>)
    requires
        within(d@, p),
    ensures
        place(r) == after_signed(d@, place(p)),
        within(d@, r),
{
    let value: u64 = read_code(d, p);
    if value < READ_END || value % 2 == 1 {
        skip_code(d, p)
    } else {
        None
    }
}


// ---------------------------------------------------------------------------
// The header
// ---------------------------------------------------------------------------
/// What the header says of what follows it.
#[derive(Clone, Copy, Debug, PartialEq, Eq, Structural)]
pub struct RpuForm {
    /// Whether the integer part of a coefficient is written by itself.
    pub split: bool,
    /// How many bits the rest of a coefficient has.
    pub fraction: u32,
    /// Whether the display management data has its identifiers only.
    pub compressed: bool,
    /// Whether an enhancement layer is described.
    pub residual: bool,
    /// Whether there is display management data.
    pub managed: bool,
    /// Whether there is a mapping, rather than that of an earlier RPU.
    pub mapped: bool,
    /// Whether this is profile 7.
    pub dual_layer: bool,
}

/// The form that the header of `d` announces, and the position behind the header: that of
/// a ten-bit video, with coefficients of one of the two known types.
pub open spec fn header_at(d: Seq<u8>) -> Option<(RpuForm, int)> {
    let format = field(d, Some(14), 11);
    let profile = field(d, Some(25), 4);
    let coefficients = field(d, Some(35), 2);
    let denominator_at = after(d, Some(0), 37);
    let denominator = if coefficients == 0 {
        code(d, denominator_at)
    } else {
        0
    };
    let base_at = after(
        d,
        if coefficients == 0 {
            after_code(d, denominator_at)
        } else {
            denominator_at
        },
        3,
    );
    let enhancement_at = after_code(d, base_at);
    let depth_at = after_code(d, enhancement_at);
    let reserved_at = after(d, after_code(d, depth_at), 1);
    let flags_at = after(d, reserved_at, 3);
    let managed_at = after(d, flags_at, 2);
    let earlier_at = after(d, managed_at, 1);
    let id_at = after(d, earlier_at, 1);
    let earlier = field(d, earlier_at, 1) == 1;
    let end = if earlier {
        after_code(d, id_at)
    } else {
        id_at
    };
    let residual = field(d, after(d, flags_at, 1), 1) == 0;
    if end is Some && field(d, Some(0), 8) == 25 && field(d, Some(8), 6) == 2 && format / 256 % 8
        == 0 && field(d, Some(33), 1) == 1 && coefficients <= 1 && denominator <= 23 && code(
        d,
        base_at,
    ) == 2 && code(d, enhancement_at) % 256 == 2 {
        Some(
            (
                RpuForm {
                    split: coefficients == 0,
                    fraction: if coefficients == 0 {
                        denominator as u32
                    } else {
                        32
                    },
                    compressed: field(d, reserved_at, 3) == 1,
                    residual,
                    managed: field(d, managed_at, 1) == 1,
                    mapped: !earlier,
                    dual_layer: profile == 1 && field(d, flags_at, 1) == 1 && residual && code(
                        d,
                        depth_at,
                    ) == 4,
                },
                end->0,
            ),
        )
    } else {
        None
    }
}

fn read_header(d: &[u8]) -> (r: Option<(RpuForm, u128)>)
    ensures
        match r {
            Some((form, end)) => header_at(d@) == Some((form, end as int)) && end <= 8 * d@.len()
                && form.fraction <= 32,
            None => header_at(d@) is None,
        },
{
    let start: Option<u128> = Some(0);
    let format: u64 = read(d, skip(d, start, 14), 11);
    let profile: u64 = read(d, skip(d, start, 25), 4);
    let sequence: u64 = read(d, skip(d, start, 33), 1);
    let coefficients: u64 = read(d, skip(d, start, 35), 2);
    let kind: u64 = read(d, skip(d, start, 8), 6);
    let denominator_at = skip(d, start, 37);
    let denominator: u64 = if coefficients == 0 {
        read_code(d, denominator_at)
    } else {
        0
    };
    let base_at = skip(
        d,
        if coefficients == 0 {
            skip_code(d, denominator_at)
        } else {
            denominator_at
        },
        3,
    );
    let enhancement_at = skip_code(d, base_at);
    let depth_at = skip_code(d, enhancement_at);
    let reserved_at = skip(d, skip_code(d, depth_at), 1);
    let flags_at = skip(d, reserved_at, 3);
    let managed_at = skip(d, flags_at, 2);
    let earlier_at = skip(d, managed_at, 1);
    let id_at = skip(d, earlier_at, 1);
    let earlier = read(d, earlier_at, 1) == 1;
    let end = if earlier {
        skip_code(d, id_at)
    } else {
        id_at
    };
    let residual = read(d, skip(d, flags_at, 1), 1) == 0;
    let after_header: u128 = match end {
        Some(p) => p,
        None => {
            return None;
        },
    };
    if read(d, start, 8) == 25 && kind == 2 && format / 256 % 8 == 0 && sequence == 1
        && coefficients <= 1 && denominator <= 23 && read_code(d, base_at) == 2 && read_code(
        d,
        enhancement_at,
    ) % 256 == 2 {
        let form = RpuForm {
            split: coefficients == 0,
            fraction: if coefficients == 0 {
                denominator as u32
            } else {
                32
            },
            compressed: read(d, reserved_at, 3) == 1,
            residual,
            managed: read(d, managed_at, 1) == 1,
            mapped: !earlier,
            dual_layer: profile == 1 && read(d, flags_at, 1) == 1 && residual && read_code(
                d,
                depth_at,
            ) == 4,
        };
        Some((form, after_header))
    } else {
        None
    }
}


// ---------------------------------------------------------------------------
// The mapping
// ---------------------------------------------------------------------------
/// The position behind a coefficient of a mapping curve, whose integer part is signed.
pub open spec fn after_coefficient(d: Seq<u8>, form: RpuForm, p: Option<int>) -> Option<int> {
    after(
        d,
        if form.split {
            after_signed(d, p)
        } else {
            p
        },
        form.fraction as nat,
    )
}

pub open spec fn after_coefficients(d: Seq<u8>, form: RpuForm, p: Option<int>, k: nat) -> Option<
    int,
>
    decreases k,
{
    if k == 0 {
        p
    } else {
        after_coefficients(d, form, after_coefficient(d, form, p), (k - 1) as nat)
    }
}

/// Whether `k` coefficients can be written again.
pub open spec fn small_coefficients(d: Seq<u8>, form: RpuForm, p: Option<int>, k: nat) -> bool
    decreases k,
{
    k == 0 || (!form.split || code(d, p) < WRITE_END) && small_coefficients(
        d,
        form,
        after_coefficient(d, form, p),
        (k - 1) as nat,
    )
}

/// Where the coefficients of one piece of a curve start, and how many there are: a polynomial
/// of order one or two, not an interpolation, or a multivariate regression of order one to
/// three.
pub open spec fn piece_at(d: Seq<u8>, p: Option<int>) -> Option<(Option<int>, nat)> {
    let order_at = after_code(d, p);
    if code(d, p) == 0 {
        let order = code(d, order_at);
        let flag_at = after_code(d, order_at);
        if order == 0 && field(d, flag_at, 1) == 0 {
            Some((after(d, flag_at, 1), 2))
        } else if order == 1 {
            Some((flag_at, 3))
        } else {
            None
        }
    } else if code(d, p) == 1 && field(d, order_at, 2) <= 2 {
        Some((after(d, order_at, 2), 7 * (field(d, order_at, 2) + 1) + 1))
    } else {
        None
    }
}

/// The position behind one piece of a curve.
pub open spec fn after_piece(d: Seq<u8>, form: RpuForm, p: Option<int>) -> Option<int> {
    match piece_at(d, p) {
        Some((at, k)) => after_coefficients(d, form, at, k),
        None => None,
    }
}

/// Whether the coefficients of one piece can be written again.
pub open spec fn small_piece(d: Seq<u8>, form: RpuForm, p: Option<int>) -> bool {
    match piece_at(d, p) {
        Some((at, k)) => small_coefficients(d, form, at, k),
        None => true,
    }
}

/// The position behind `k` pieces.
pub open spec fn after_pieces(d: Seq<u8>, form: RpuForm, p: Option<int>, k: nat) -> Option<int>
    decreases k,
{
    if k == 0 || p is None {
        p
    } else {
        after_pieces(d, form, after_piece(d, form, p), (k - 1) as nat)
    }
}

/// Whether the `k` pieces at `p` can be written again: they all have this method, polynomial
/// or regression, and no coefficient of theirs overflows.
pub open spec fn can_be_written(
    d: Seq<u8>,
    form: RpuForm,
    p: Option<int>,
    k: nat,
    method: nat,
) -> bool
    decreases k,
{
    k == 0 || p is None || code(d, p) == method && small_piece(d, form, p) && can_be_written(
        d,
        form,
        after_piece(d, form, p),
        (k - 1) as nat,
        method,
    )
}

/// The position behind the pivots of a curve: their number less two, and ten bits for each.
pub open spec fn after_pivots(d: Seq<u8>, p: Option<int>) -> Option<int> {
    after(d, after_code(d, p), 10 * (code(d, p) + 2))
}

/// The position behind a coefficient of the enhancement layer, whose integer part is not
/// signed.
pub open spec fn after_share(d: Seq<u8>, form: RpuForm, p: Option<int>) -> Option<int> {
    after(
        d,
        if form.split {
            after_code(d, p)
        } else {
            p
        },
        form.fraction as nat,
    )
}

/// Whether a coefficient of the enhancement layer is this whole number.
pub open spec fn share_is(d: Seq<u8>, form: RpuForm, p: Option<int>, whole: nat) -> bool {
    if form.split {
        code(d, p) == whole && field(d, after_code(d, p), form.fraction as nat) == 0
    } else {
        whole == 0 && field(d, p, form.fraction as nat) == 0
    }
}

/// The position behind one color component of the enhancement layer.
pub open spec fn after_component(d: Seq<u8>, form: RpuForm, p: Option<int>) -> Option<int> {
    after_share(d, form, after_share(d, form, after_share(d, form, after(d, p, 10))))
}

/// Whether a color component of the enhancement layer adds nothing to the base layer.
pub open spec fn adds_nothing(d: Seq<u8>, form: RpuForm, p: Option<int>) -> bool {
    let maximum = after(d, p, 10);
    let slope = after_share(d, form, maximum);
    let threshold = after_share(d, form, slope);
    field(d, p, 10) == 0 && share_is(d, form, maximum, 1) && share_is(d, form, slope, 0)
        && share_is(d, form, threshold, 0)
}

/// Where a mapping ends, whether each of its curves can be written again, and whether the
/// enhancement layer that it describes adds anything.
pub open spec fn mapping_at(d: Seq<u8>, form: RpuForm, p: Option<int>) -> (Option<int>, bool, bool) {
    let first = after_codes(d, p, 3);
    let second = after_pivots(d, first);
    let third = after_pivots(d, second);
    let layer = after_pivots(d, third);
    let partitions = if !form.residual {
        layer
    } else if field(d, layer, 3) == 0 {
        after(d, layer, 23)
    } else {
        None
    };
    let one = after_codes(d, partitions, 2);
    let two = after_pieces(d, form, one, code(d, first) + 1);
    let three = after_pieces(d, form, two, code(d, second) + 1);
    let offsets = after_pieces(d, form, three, code(d, third) + 1);
    let second_offset = after_component(d, form, offsets);
    let third_offset = after_component(d, form, second_offset);
    (
        if form.residual {
            after_component(d, form, third_offset)
        } else {
            offsets
        },
        can_be_written(d, form, one, code(d, first) + 1, code(d, one)) && can_be_written(
            d,
            form,
            two,
            code(d, second) + 1,
            code(d, two),
        ) && can_be_written(d, form, three, code(d, third) + 1, code(d, three)),
        form.residual && !(adds_nothing(d, form, offsets) && adds_nothing(d, form, second_offset)
            && adds_nothing(d, form, third_offset)),
    )
}

/// The position behind `k` coefficients, and whether they can be written again.
fn skip_coefficients(d: &[u8], form: RpuForm, p: Option<u128>, k: u64) -> (r: (Option<u128>, bool))
    requires
        within(d@, p),
    ensures
        place(r.0) == after_coefficients(d@, form, place(p), k as nat),
        r.1 == small_coefficients(d@, form, place(p), k as nat),
        within(d@, r.0),
{
    let mut at: Option<u128> = p;
    let mut left: u64 = k;
    let mut small: bool = true;
    while left > 0
        invariant
            within(d@, at),
            after_coefficients(d@, form, place(at), left as nat) == after_coefficients(
                d@,
                form,
                place(p),
                k as nat,
            ),
            small_coefficients(d@, form, place(p), k as nat) == (small && small_coefficients(
                d@,
                form,
                place(at),
                left as nat,
            )),
        decreases left,
    {
        if form.split && read_code(d, at) >= WRITE_END {
            small = false;
        }
        at = skip(
            d,
            if form.split {
                skip_signed(d, at)
            } else {
                at
            },
            form.fraction as u128,
        );
        left = left - 1;
    }
    (at, small)
}

/// The position behind one piece, and whether its coefficients can be written again.
fn skip_piece(d: &[u8], form: RpuForm, p: Option<u128>) -> (r: (Option<u128>, bool))
    requires
        within(d@, p),
    ensures
        place(r.0) == after_piece(d@, form, place(p)),
        r.1 == small_piece(d@, form, place(p)),
        within(d@, r.0),
{
    let order_at = skip_code(d, p);
    let method: u64 = read_code(d, p);
    if method == 0 {
        let order: u64 = read_code(d, order_at);
        let flag_at = skip_code(d, order_at);
        if order == 0 && read(d, flag_at, 1) == 0 {
            skip_coefficients(d, form, skip(d, flag_at, 1), 2)
        } else if order == 1 {
            skip_coefficients(d, form, flag_at, 3)
        } else {
            (None, true)
        }
    } else {
        let order: u64 = read(d, order_at, 2);
        if method == 1 && order <= 2 {
            skip_coefficients(d, form, skip(d, order_at, 2), 7 * (order + 1) + 1)
        } else {
            (None, true)
        }
    }
}

/// The position behind `more + 1` pieces, and whether they can be written again.
fn skip_pieces(d: &[u8], form: RpuForm, p: Option<u128>, more: u64) -> (r: (Option<u128>, bool))
    requires
        within(d@, p),
    ensures
        place(r.0) == after_pieces(d@, form, place(p), (more + 1) as nat),
        r.1 == can_be_written(d@, form, place(p), (more + 1) as nat, code(d@, place(p))),
        within(d@, r.0),
{
    let method: u64 = read_code(d, p);
    let mut at: Option<u128> = p;
    let mut left: u128 = more as u128 + 1;
    let mut writable: bool = true;
    while left > 0 && at.is_some()
        invariant
            within(d@, at),
            method == code(d@, place(p)),
            after_pieces(d@, form, place(at), left as nat) == after_pieces(
                d@,
                form,
                place(p),
                (more + 1) as nat,
            ),
            can_be_written(d@, form, place(p), (more + 1) as nat, method as nat) == (writable
                && can_be_written(d@, form, place(at), left as nat, method as nat)),
        decreases left,
    {
        let same_method = read_code(d, at) == method;
        let (next, small) = skip_piece(d, form, at);
        if !same_method || !small {
            writable = false;
        }
        at = next;
        left = left - 1;
    }
    (at, writable)
}

fn skip_pivots(d: &[u8], p: Option<u128>) -> (r: Option<u128>)
    requires
        within(d@, p),
    ensures
        place(r) == after_pivots(d@, place(p)),
        within(d@, r),
{
    skip(d, skip_code(d, p), 10 * (read_code(d, p) as u128 + 2))
}

fn skip_share(d: &[u8], form: RpuForm, p: Option<u128>) -> (r: Option<u128>)
    requires
        within(d@, p),
    ensures
        place(r) == after_share(d@, form, place(p)),
        within(d@, r),
{
    skip(
        d,
        if form.split {
            skip_code(d, p)
        } else {
            p
        },
        form.fraction as u128,
    )
}

fn check_share(d: &[u8], form: RpuForm, p: Option<u128>, whole: u64) -> (r: bool)
    requires
        within(d@, p),
        form.fraction <= 32,
    ensures
        r == share_is(d@, form, place(p), whole as nat),
{
    if form.split {
        read_code(d, p) == whole && read(d, skip_code(d, p), form.fraction) == 0
    } else {
        whole == 0 && read(d, p, form.fraction) == 0
    }
}

/// The position behind one color component of the enhancement layer, and whether it adds
/// nothing.
fn skip_component(d: &[u8], form: RpuForm, p: Option<u128>) -> (r: (Option<u128>, bool))
    requires
        within(d@, p),
        form.fraction <= 32,
    ensures
        place(r.0) == after_component(d@, form, place(p)),
        r.1 == adds_nothing(d@, form, place(p)),
        within(d@, r.0),
{
    let maximum = skip(d, p, 10);
    let slope = skip_share(d, form, maximum);
    let threshold = skip_share(d, form, slope);
    let nothing = read(d, p, 10) == 0 && check_share(d, form, maximum, 1) && check_share(
        d,
        form,
        slope,
        0,
    ) && check_share(d, form, threshold, 0);
    (skip_share(d, form, threshold), nothing)
}

fn skip_mapping(d: &[u8], form: RpuForm, p: Option<u128>) -> (r: (Option<u128>, bool, bool))
    requires
        within(d@, p),
        form.fraction <= 32,
    ensures
        (place(r.0), r.1, r.2) == mapping_at(d@, form, place(p)),
        within(d@, r.0),
{
    let first = skip_codes(d, p, 3);
    let second = skip_pivots(d, first);
    let third = skip_pivots(d, second);
    let layer = skip_pivots(d, third);
    let partitions = if !form.residual {
        layer
    } else if read(d, layer, 3) == 0 {
        skip(d, layer, 23)
    } else {
        None
    };
    let one = skip_codes(d, partitions, 2);
    let (two, first_writable) = skip_pieces(d, form, one, read_code(d, first));
    let (three, second_writable) = skip_pieces(d, form, two, read_code(d, second));
    let (offsets, third_writable) = skip_pieces(d, form, three, read_code(d, third));
    let (second_offset, nothing) = skip_component(d, form, offsets);
    let (third_offset, nothing_either) = skip_component(d, form, second_offset);
    let (end, nothing_at_all) = skip_component(d, form, third_offset);
    (
        if form.residual {
            end
        } else {
            offsets
        },
        first_writable && second_writable && third_writable,
        form.residual && !(nothing && nothing_either && nothing_at_all),
    )
}


// ---------------------------------------------------------------------------
// Display management data
// ---------------------------------------------------------------------------
/// Whether a metadata block of this level has this length in bytes, in version 2.9 of the
/// content mapping or in version 4.0.
pub open spec fn block_fits(level: nat, length: nat, newer: bool) -> bool {
    if newer {
        level == 3 && length == 5 || level == 8 && (length == 10 || length == 12 || length == 13
            || length == 19 || length == 25) || level == 9 && (length == 1 || length == 17)
            || level == 10 && (length == 5 || length == 21) || level == 11 && length == 4
            || level == 254 && length == 2
    } else {
        level == 1 && length == 5 || level == 2 && length == 11 || level == 4 && length == 3
            || level == 5 && length == 7 || level == 6 && length == 8 || level == 255 && length
            == 6
    }
}

/// The position behind a metadata block: its length, its level and that many bytes.
pub open spec fn after_block(d: Seq<u8>, p: Option<int>, newer: bool) -> Option<int> {
    let length = code(d, p);
    let level_at = after_code(d, p);
    if block_fits(field(d, level_at, 8), length, newer) {
        after(d, after(d, level_at, 8), 8 * length)
    } else {
        None
    }
}

pub open spec fn after_blocks(d: Seq<u8>, p: Option<int>, k: nat, newer: bool) -> Option<int>
    decreases k,
{
    if k == 0 || p is None {
        p
    } else {
        after_blocks(d, after_block(d, p, newer), (k - 1) as nat, newer)
    }
}

/// The next position that starts a byte.
pub open spec fn aligned(p: Option<int>) -> Option<int> {
    match p {
        Some(at) => Some((at + 7) / 8 * 8),
        None => None,
    }
}

/// The position behind a list of metadata blocks: their number, and each of them from the
/// next byte on.
pub open spec fn after_list(d: Seq<u8>, p: Option<int>, newer: bool) -> Option<int> {
    after_blocks(d, aligned(after_code(d, p)), code(d, p), newer)
}

/// The position behind the display management data. A second list follows where there is
/// room for one in front of the checksum.
pub open spec fn after_management(d: Seq<u8>, form: RpuForm, p: Option<int>) -> Option<int> {
    let ids = after_codes(d, p, 3);
    let first = after_list(
        d,
        if form.compressed {
            ids
        } else {
            after(d, ids, 509)
        },
        false,
    );
    match first {
        Some(at) if 8 * d.len() - at >= 56 => after_list(d, first, true),
        _ => first,
    }
}

fn skip_list(d: &[u8], p: Option<u128>, newer: bool) -> (r: Option<u128>)
    requires
        within(d@, p),
    ensures
        place(r) == after_list(d@, place(p), newer),
        within(d@, r),
{
    let mut left: u64 = read_code(d, p);
    let mut at: Option<u128> = match skip_code(d, p) {
        Some(q) => {
            let end: u128 = end_of(d);
            assert((q + 7) / 8 * 8 <= end);
            Some((q + 7) / 8 * 8)
        },
        None => None,
    };
    while left > 0 && at.is_some()
        invariant
            within(d@, at),
            after_blocks(d@, place(at), left as nat, newer) == after_list(d@, place(p), newer),
        decreases left,
    {
        let length: u64 = read_code(d, at);
        let level_at = skip_code(d, at);
        let level: u64 = read(d, level_at, 8);
        let fits = if newer {
            level == 3 && length == 5 || level == 8 && (length == 10 || length == 12 || length == 13
                || length == 19 || length == 25) || level == 9 && (length == 1 || length == 17)
                || level == 10 && (length == 5 || length == 21) || level == 11 && length == 4
                || level == 254 && length == 2
        } else {
            level == 1 && length == 5 || level == 2 && length == 11 || level == 4 && length == 3
                || level == 5 && length == 7 || level == 6 && length == 8 || level == 255 && length
                == 6
        };
        at = if fits {
            skip(d, skip(d, level_at, 8), 8 * length as u128)
        } else {
            None
        };
        left = left - 1;
    }
    at
}

fn skip_management(d: &[u8], form: RpuForm, p: Option<u128>) -> (r: Option<u128>)
    requires
        within(d@, p),
    ensures
        place(r) == after_management(d@, form, place(p)),
        within(d@, r),
{
    let ids = skip_codes(d, p, 3);
    let first = skip_list(
        d,
        if form.compressed {
            ids
        } else {
            skip(d, ids, 509)
        },
        false,
    );
    match first {
        Some(at) => {
            if end_of(d) - at >= 56 {
                skip_list(d, first, true)
            } else {
                first
            }
        },
        None => first,
    }
}

// ---------------------------------------------------------------------------
// The whole
// ---------------------------------------------------------------------------
/// What matters of an RPU that can be read to its end.
#[derive(Clone, Copy, Debug, PartialEq, Eq, Structural)]
pub struct RpuShape {
    /// Whether the mapping can be written again: each curve keeps to one method, and no
    /// coefficient overflows.
    pub writable: bool,
    /// Whether this is profile 7.
    pub dual_layer: bool,
    /// Whether an enhancement layer adds anything to the base layer.
    pub full_layer: bool,
}

impl RpuShape {
    /// Whether the RPU can be written again: its mapping can, or the whole mapping is replaced
    /// because a full enhancement layer is dropped.
    pub fn rewritable(self) -> (r: bool)
        ensures
            r == self.can_be_rewritten(),
    {
        self.writable || self.dual_layer && self.full_layer
    }

    pub open spec fn can_be_rewritten(self) -> bool {
        self.writable || self.dual_layer && self.full_layer
    }
}

/// How far into a NAL payload the RPU starts: behind what is left of a start code and of the
/// NAL header.
pub open spec fn rpu_start(data: Seq<u8>) -> Option<int> {
    let (a, b, c, e, f) = (data[0], data[1], data[2], data[3], data[4]);
    if data.len() < 25 {
        None
    } else if a == 0 && b == 0 && c == 0 && e == 1 && f == 25 {
        Some(4)
    } else if a == 0 && b == 0 && c == 1 && e == 25 && f == 8 {
        Some(3)
    } else if (a == 0 || a == 124) && b == 1 && c == 25 && e == 8 && f == 9 {
        Some(2)
    } else if a == 1 && b == 25 && c == 8 && e == 9 {
        Some(1)
    } else if a == 25 && b == 8 && c == 9 {
        Some(0)
    } else {
        None
    }
}

/// The shape of an RPU without emulation prevention and trailing zeros; None where it cannot
/// be read to its end.
pub open spec fn shape_of(d: Seq<u8>) -> Option<RpuShape> {
    match header_at(d) {
        None => None,
        Some((form, p)) => {
            let (mapped, writable, full_layer) = if form.mapped {
                mapping_at(d, form, Some(p))
            } else {
                (Some(p), true, false)
            };
            let end = if form.managed {
                after_management(d, form, mapped)
            } else {
                mapped
            };
            if end is Some {
                Some(RpuShape { writable, dual_layer: form.dual_layer, full_layer })
            } else {
                None
            }
        },
    }
}

/// The shape of the RPU in a NAL payload: at least seven bytes, the last one 0x80.
pub open spec fn rpu_shape(data: Seq<u8>) -> Option<RpuShape> {
    match rpu_start(data) {
        None => None,
        Some(start) => {
            let d = without_trailing_zeros(unescaped(data.subrange(start, data.len() as int)).0);
            if d.len() >= 7 && d.last() == 0x80 {
                shape_of(d)
            } else {
                None
            }
        },
    }
}

fn find_start(data: &[u8]) -> (r: Option<usize>)
    ensures
        match r {
            Some(start) => rpu_start(data@) == Some(start as int) && start <= data@.len(),
            None => rpu_start(data@) is None,
        },
{
    if data.len() < 25 {
        return None;
    }
    let (a, b, c, e, f) = (data[0], data[1], data[2], data[3], data[4]);
    if a == 0 && b == 0 && c == 0 && e == 1 && f == 25 {
        Some(4)
    } else if a == 0 && b == 0 && c == 1 && e == 25 && f == 8 {
        Some(3)
    } else if (a == 0 || a == 124) && b == 1 && c == 25 && e == 8 && f == 9 {
        Some(2)
    } else if a == 1 && b == 25 && c == 8 && e == 9 {
        Some(1)
    } else if a == 25 && b == 8 && c == 9 {
        Some(0)
    } else {
        None
    }
}

/// The shape of the RPU in a NAL payload; None where it cannot be read to its end.
pub fn read_shape(data: &[u8]) -> (r: Option<RpuShape>)
    ensures
        r == rpu_shape(data@),
{
    let start: usize = match find_start(data) {
        Some(start) => start,
        None => {
            return None;
        },
    };
    let mut d = remove_emulation_prevention(vstd::slice::slice_subrange(data, start, data.len()));
    let ghost whole = d@;
    while d.len() > 0 && d[d.len() - 1] == 0
        invariant
            without_trailing_zeros(d@) == without_trailing_zeros(whole),
        decreases d@.len(),
    {
        d.pop();
    }
    if d.len() < 7 || d[d.len() - 1] != 0x80 {
        return None;
    }
    let bytes = d.as_slice();
    let (form, p) = match read_header(bytes) {
        Some(header) => header,
        None => {
            return None;
        },
    };
    let (mapped, writable, full_layer) = if form.mapped {
        skip_mapping(bytes, form, Some(p))
    } else {
        (Some(p), true, false)
    };
    let end = if form.managed {
        skip_management(bytes, form, mapped)
    } else {
        mapped
    };
    if end.is_some() {
        Some(RpuShape { writable, dual_layer: form.dual_layer, full_layer })
    } else {
        None
    }
}

// ---------------------------------------------------------------------------
// What the bits say
// ---------------------------------------------------------------------------
/// Eight bits from the start of a byte on are that byte.
pub proof fn law_whole_bytes_read_as_they_stand(d: Seq<u8>, k: int)
    requires
        0 <= k < d.len(),
    ensures
        number(d, 8 * k, 8) == d[k],
{
    let b = d[k];
    reveal_with_fuel(number, 9);
    assert forall|i: int| 0 <= i < 8 implies #[trigger] bit(d, 8 * k + i) == (if bit_of(b, i as u8) {
        1nat
    } else {
        0nat
    }) by {
        assert((8 * k + i) / 8 == k && (8 * k + i) % 8 == i) by (nonlinear_arith)
            requires
                0 <= i < 8,
        ;
    }
    assert(b == 128 * ((b >> 7u8) & 1) + 64 * ((b >> 6u8) & 1) + 32 * ((b >> 5u8) & 1) + 16 * ((b
        >> 4u8) & 1) + 8 * ((b >> 3u8) & 1) + 4 * ((b >> 2u8) & 1) + 2 * ((b >> 1u8) & 1) + ((b
        >> 0u8) & 1)) by (bit_vector);
    lemma_low_bit(b, 0);
    lemma_low_bit(b, 1);
    lemma_low_bit(b, 2);
    lemma_low_bit(b, 3);
    lemma_low_bit(b, 4);
    lemma_low_bit(b, 5);
    lemma_low_bit(b, 6);
    lemma_low_bit(b, 7);
    assert(bit(d, 8 * k + 0) == (b >> 7u8) & 1);
    assert(bit(d, 8 * k + 1) == (b >> 6u8) & 1);
    assert(bit(d, 8 * k + 2) == (b >> 5u8) & 1);
    assert(bit(d, 8 * k + 3) == (b >> 4u8) & 1);
    assert(bit(d, 8 * k + 4) == (b >> 3u8) & 1);
    assert(bit(d, 8 * k + 5) == (b >> 2u8) & 1);
    assert(bit(d, 8 * k + 6) == (b >> 1u8) & 1);
    assert(bit(d, 8 * k + 7) == (b >> 0u8) & 1);
}

proof fn lemma_low_bit(b: u8, n: u8)
    requires
        n < 8,
    ensures
        (b >> n) & 1 == 0 || (b >> n) & 1 == 1,
{
    assert((b >> n) & 1 == 0 || (b >> n) & 1 == 1) by (bit_vector);
}

/// A code starts with as many zeros as there are bits behind its first one, and its number is
/// what the bits from that one on say, less one.
pub proof fn law_codes_are_as_long_as_their_zeros(d: Seq<u8>, p: int, n: nat)
    requires
        0 <= p,
        n <= 63,
        p + 2 * n + 1 <= 8 * d.len(),
        forall|i: int| p <= i < p + n ==> #[trigger] bit(d, i) == 0,
        bit(d, p + n) == 1,
    ensures
        after_code(d, Some(p)) == Some(p + 2 * n + 1),
        code(d, Some(p)) + 1 == number(d, p + n, n + 1),
        pow2(n) <= code(d, Some(p)) + 1 < pow2(n + 1),
{
    lemma_zeros_are(d, p, n);
    lemma_number_bound(d, p + n, n + 1);
    lemma_leading_one(d, p + n, n);
    lemma_code_is_positive(d, p, n);
}

/// A number with a one in front is at least that power of two.
proof fn lemma_leading_one(d: Seq<u8>, p: int, n: nat)
    requires
        bit(d, p) == 1,
    ensures
        number(d, p, n + 1) >= pow2(n),
    decreases n,
{
    if n == 0 {
        lemma2_to64();
        reveal_with_fuel(number, 2);
    } else {
        lemma_leading_one(d, p, (n - 1) as nat);
        lemma_pow2_unfold(n);
    }
}

proof fn lemma_zeros_are(d: Seq<u8>, p: int, n: nat)
    requires
        0 <= p,
        p + n < 8 * d.len(),
        forall|i: int| p <= i < p + n ==> #[trigger] bit(d, i) == 0,
        bit(d, p + n) == 1,
    ensures
        zeros(d, p) == Some(n),
    decreases n,
{
    if n > 0 {
        assert(bit(d, p) == 0);
        lemma_zeros_are(d, p + 1, (n - 1) as nat);
    }
}

} // verus!
