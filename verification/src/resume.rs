//! What a job keeps between runs: its chunk list, the chunks that are done, the CRF of each
//! chunk, and where all of it lies.
use crate::bytes::{be_bytes, push_be};
use crate::hevc::{hex_of, to_hex};
use crate::path::{join_path, joined_path};
use crate::text::{
    decimal, digits_value, from_chars, has_prefix, is_digit, lemma_same_front, less,
    push_decimal, same, to_chars, trim, trim_range, trimmed,
};
use std::collections::hash_map::DefaultHasher;
use std::hash::Hasher;
use vstd::prelude::*;
use vstd::std_specs::hash::*;
use vstd::string::*;
use vstd::utf8::*;

verus! {

/// One chunk of a video, by its first and last frame.
#[derive(Clone, Copy, Debug, PartialEq, Eq, Structural)]
pub struct SceneEntry {
    pub index: usize,
    pub start_frame: u64,
    pub end_frame: u64,
}

/// `n` zeros.
pub open spec fn zero_digits(n: nat) -> Seq<char> {
    Seq::new(n, |i: int| '0')
}

/// `n` in decimal, filled up with zeros to at least five digits.
pub open spec fn five_digits(n: nat) -> Seq<char> {
    let d = decimal(n);
    if d.len() >= 5 {
        d
    } else {
        zero_digits((5 - d.len()) as nat) + d
    }
}

impl SceneEntry {
    pub fn frame_count(&self) -> (n: u64)
        requires
            self.start_frame <= self.end_frame,
            self.end_frame - self.start_frame < u64::MAX,
        ensures
            n == self.end_frame - self.start_frame + 1,
    {
        self.end_frame - self.start_frame + 1
    }

    /// The key of the chunk: its number from 1 on.
    pub fn padded_index(&self) -> (s: String)
        requires
            self.index < usize::MAX,
        ensures
            s@ == five_digits((self.index + 1) as nat),
    {
        let n: u64 = self.index as u64 + 1;
        let mut digits = String::new();
        push_decimal(&mut digits, n);
        assert(digits@ =~= decimal(n as nat));
        let count: usize = digits.as_str().unicode_len();
        let mut s = String::new();
        let mut filled: usize = count;
        assert(s@ =~= zero_digits(0));
        while filled < 5
            invariant
                count <= filled,
                filled <= 5 || filled == count,
                s@ == zero_digits((filled - count) as nat),
            decreases 5 - filled,
        {
            s.append("0");
            filled = filled + 1;
            proof {
                reveal_strlit("0");
                assert(s@ =~= zero_digits((filled - count) as nat));
            }
        }
        s.append(digits.as_str());
        assert(s@ =~= five_digits(n as nat));
        s
    }
}

proof fn lemma_leading_zeros(n: nat, s: Seq<char>)
    ensures
        digits_value(zero_digits(n) + s) == digits_value(s),
    decreases s.len(), n,
{
    let whole = zero_digits(n) + s;
    if s.len() > 0 {
        assert(whole.drop_last() =~= zero_digits(n) + s.drop_last());
        lemma_leading_zeros(n, s.drop_last());
    } else if n > 0 {
        assert(whole.drop_last() =~= zero_digits((n - 1) as nat) + s);
        lemma_leading_zeros((n - 1) as nat, s);
    } else {
        assert(whole =~= s);
    }
}

/// No two chunks of a list share a key.
pub proof fn law_chunk_keys_differ(a: nat, b: nat)
    requires
        five_digits(a) == five_digits(b),
    ensures
        a == b,
{
    crate::text::law_decimal_round_trip(a, a);
    crate::text::law_decimal_round_trip(b, b);
    if decimal(a).len() < 5 {
        lemma_leading_zeros((5 - decimal(a).len()) as nat, decimal(a));
    }
    if decimal(b).len() < 5 {
        lemma_leading_zeros((5 - decimal(b).len()) as nat, decimal(b));
    }
}

/// Texts of one length are compared by their last characters when all others are equal.
proof fn lemma_less_push(s: Seq<char>, c: char, t: Seq<char>, d: char)
    requires
        s.len() == t.len(),
    ensures
        less(s.push(c), t.push(d)) == (less(s, t) || s == t && c < d),
    decreases s.len(),
{
    let (a, b) = (s.push(c), t.push(d));
    if s.len() == 0 {
        assert(s =~= t);
        assert(!less(a.drop_first(), b.drop_first()));
    } else {
        assert(a.drop_first() =~= s.drop_first().push(c));
        assert(b.drop_first() =~= t.drop_first().push(d));
        lemma_less_push(s.drop_first(), c, t.drop_first(), d);
        if s[0] == t[0] {
            assert(s =~= seq![s[0]] + s.drop_first());
            assert(t =~= seq![t[0]] + t.drop_first());
        }
    }
}

/// Digits of one length are compared as the numbers that they stand for.
proof fn lemma_digits_compare(s: Seq<char>, t: Seq<char>)
    requires
        s.len() == t.len(),
        forall|i: int| 0 <= i < s.len() ==> is_digit(#[trigger] s[i]),
        forall|i: int| 0 <= i < t.len() ==> is_digit(#[trigger] t[i]),
    ensures
        less(s, t) == (digits_value(s) < digits_value(t)),
        s == t <==> digits_value(s) == digits_value(t),
    decreases s.len(),
{
    if s.len() == 0 {
        assert(s =~= t);
    } else {
        let (a, b) = (s.drop_last(), t.drop_last());
        assert(s =~= a.push(s.last()));
        assert(t =~= b.push(t.last()));
        assert(is_digit(s[s.len() - 1]) && is_digit(t[t.len() - 1]));
        lemma_digits_compare(a, b);
        lemma_less_push(a, s.last(), b, t.last());
    }
}

proof fn lemma_key_digits(n: nat)
    requires
        n < 100000,
    ensures
        five_digits(n).len() == 5,
        forall|i: int| 0 <= i < 5 ==> is_digit(#[trigger] five_digits(n)[i]),
        digits_value(five_digits(n)) == n,
{
    crate::text::law_decimal_round_trip(n, n);
    let d = decimal(n);
    assert(d.len() <= 5) by {
        reveal_with_fuel(decimal, 5);
        assert(n / 10 < 10000 && n / 10 / 10 < 1000 && n / 10 / 10 / 10 < 100);
        assert(n / 10 / 10 / 10 / 10 < 10);
    }
    if d.len() < 5 {
        lemma_leading_zeros((5 - d.len()) as nat, d);
    }
    assert forall|i: int| 0 <= i < 5 implies is_digit(#[trigger] five_digits(n)[i]) by {
        let zeros = 5 - d.len();
        if i >= zeros {
            assert(five_digits(n)[i] == d[i - zeros]);
        }
    }
}

/// The keys of the first 99,999 chunks have five characters and sort as the chunks do.
pub proof fn law_chunk_keys_sort_as_numbers(a: nat, b: nat)
    requires
        a < 100000,
        b < 100000,
    ensures
        five_digits(a).len() == 5,
        less(five_digits(a), five_digits(b)) == (a < b),
{
    lemma_key_digits(a);
    lemma_key_digits(b);
    lemma_digits_compare(five_digits(a), five_digits(b));
}

// ---------------------------------------------------------------------------
// State files
// ---------------------------------------------------------------------------
/// Whether a state file reads as the default: it is missing, or holds nothing but white
/// space, as a crash between its creation and its first write leaves it.
pub open spec fn reads_as_default(raw: Option<Seq<char>>) -> bool {
    match raw {
        Some(text) => trimmed(text).len() == 0,
        None => true,
    }
}

/// Whether a state file starts over; its content is to be parsed otherwise.
pub fn load_json_or_default(raw: Option<&str>) -> (fresh: bool)
    ensures
        fresh == reads_as_default(
            match raw {
                Some(text) => Some(text@),
                None => None,
            },
        ),
{
    match raw {
        Some(text) => {
            let chars = to_chars(text);
            let (from, to) = trim_range(chars.as_slice());
            assert(trimmed(text@).len() == to - from);
            from == to
        },
        None => true,
    }
}

/// What entries by key amount to: a later one stands for an earlier one with its key.
pub open spec fn entry_map<V>(entries: Seq<(String, V)>) -> Map<Seq<char>, V>
    decreases entries.len(),
{
    if entries.len() == 0 {
        Map::empty()
    } else {
        entry_map(entries.drop_last()).insert(entries.last().0@, entries.last().1)
    }
}

proof fn lemma_entry_absent<V>(entries: Seq<(String, V)>, key: Seq<char>, from: int)
    requires
        0 <= from <= entries.len(),
        forall|k: int| from <= k < entries.len() ==> (#[trigger] entries[k]).0@ != key,
    ensures
        entry_map(entries).dom().contains(key) == entry_map(
            entries.subrange(0, from),
        ).dom().contains(key),
        entry_map(entries).dom().contains(key) ==> entry_map(entries)[key] == entry_map(
            entries.subrange(0, from),
        )[key],
    decreases entries.len(),
{
    if from < entries.len() {
        let front = entries.drop_last();
        assert forall|k: int| from <= k < front.len() implies (#[trigger] front[k]).0@ != key by {
            assert(front[k] == entries[k]);
        }
        lemma_entry_absent(front, key, from);
        assert(front.subrange(0, from) =~= entries.subrange(0, from));
        assert(entries[entries.len() - 1].0@ != key);
    } else {
        assert(entries.subrange(0, from) =~= entries);
    }
}

proof fn lemma_entry_replaced<V>(
    entries: Seq<(String, V)>,
    next: Seq<(String, V)>,
    at: int,
    key: Seq<char>,
    value: V,
)
    requires
        0 <= at < entries.len(),
        next.len() == entries.len(),
        entries[at].0@ == key,
        next[at].0@ == key,
        next[at].1 == value,
        forall|k: int| 0 <= k < entries.len() && k != at ==> #[trigger] next[k] == entries[k],
        forall|k: int| at < k < entries.len() ==> (#[trigger] entries[k]).0@ != key,
    ensures
        entry_map(next) == entry_map(entries).insert(key, value),
    decreases entries.len(),
{
    let front = entries.drop_last();
    let next_front = next.drop_last();
    if at == entries.len() - 1 {
        assert(front =~= next_front);
        assert(entry_map(next) =~= entry_map(entries).insert(key, value));
    } else {
        assert forall|k: int| 0 <= k < front.len() && k != at implies #[trigger] next_front[k]
            == front[k] by {
            assert(next[k] == entries[k]);
        }
        assert forall|k: int| at < k < front.len() implies (#[trigger] front[k]).0@ != key by {
            assert(front[k] == entries[k]);
        }
        lemma_entry_replaced(front, next_front, at, key, value);
        let last = entries[entries.len() - 1];
        assert(next[entries.len() - 1] == last);
        assert(last.0@ != key);
        assert(entry_map(next) =~= entry_map(entries).insert(key, value));
    }
}

/// A key has the value of the last entry that names it.
pub proof fn law_last_entry_counts<V>(entries: Seq<(String, V)>, key: Seq<char>, i: int)
    requires
        0 <= i < entries.len(),
        entries[i].0@ == key,
        forall|k: int| i < k < entries.len() ==> (#[trigger] entries[k]).0@ != key,
    ensures
        entry_map(entries).dom().contains(key),
        entry_map(entries)[key] == entries[i].1,
{
    let upto = entries.subrange(0, i + 1);
    lemma_entry_absent(entries, key, i + 1);
    assert(upto.last() == entries[i]);
    assert(entry_map(upto).dom().contains(key));
}

/// A key that no entry names has no value.
pub proof fn law_unnamed_keys_have_no_value<V>(entries: Seq<(String, V)>, key: Seq<char>)
    requires
        forall|k: int| 0 <= k < entries.len() ==> (#[trigger] entries[k]).0@ != key,
    ensures
        !entry_map(entries).dom().contains(key),
{
    lemma_entry_absent(entries, key, 0);
    assert(entries.subrange(0, 0) =~= Seq::empty());
    assert(!entry_map(entries.subrange(0, 0)).dom().contains(key));
}

/// Where the last entry with this key stands.
fn entry_at<V>(entries: &Vec<(String, V)>, key: &str) -> (r: Option<usize>)
    ensures
        match r {
            Some(at) => {
                &&& at < entries@.len()
                &&& entries@[at as int].0@ == key@
                &&& forall|k: int| at < k < entries@.len() ==> (#[trigger] entries@[k]).0@ != key@
                &&& entry_map(entries@).dom().contains(key@)
                &&& entry_map(entries@)[key@] == entries@[at as int].1
            },
            None => {
                &&& forall|k: int| 0 <= k < entries@.len() ==> (#[trigger] entries@[k]).0@ != key@
                &&& !entry_map(entries@).dom().contains(key@)
            },
        },
{
    let mut i: usize = entries.len();
    while i > 0
        invariant
            i <= entries@.len(),
            forall|k: int| i <= k < entries@.len() ==> (#[trigger] entries@[k]).0@ != key@,
        decreases i,
    {
        i = i - 1;
        if same(entries[i].0.as_str(), key) {
            proof {
                lemma_entry_absent(entries@, key@, i + 1);
                let upto = entries@.subrange(0, i + 1);
                assert(upto.last() == entries@[i as int]);
            }
            return Some(i);
        }
    }
    proof {
        lemma_entry_absent(entries@, key@, 0);
    }
    None
}

/// Puts `value` under `key`, in place of what was there.
fn put_entry<V>(entries: &mut Vec<(String, V)>, key: &str, value: V)
    ensures
        entry_map(final(entries)@) == entry_map(old(entries)@).insert(key@, value),
{
    let ghost before = entries@;
    let found = entry_at(entries, key);
    let name = key.to_owned();
    match found {
        Some(at) => {
            entries.set(at, (name, value));
            proof {
                lemma_entry_replaced(before, entries@, at as int, key@, value);
            }
        },
        None => {
            entries.push((name, value));
            assert(entries@.drop_last() =~= before);
        },
    }
}

#[derive(Clone, Copy, Debug, PartialEq, Eq, Structural)]
pub struct ChunkInfo {
    pub frames: u64,
    pub size_bytes: u64,
}

/// The finished chunks by key.
#[derive(Debug)]
pub struct DoneState {
    pub chunks: Vec<(String, ChunkInfo)>,
}

impl View for DoneState {
    type V = Map<Seq<char>, ChunkInfo>;

    open spec fn view(&self) -> Map<Seq<char>, ChunkInfo> {
        entry_map(self.chunks@)
    }
}

/// The record of finished chunks and the file that it is kept in.
#[derive(Debug)]
pub struct DoneFile {
    pub path: String,
    pub state: DoneState,
}

impl DoneFile {
    /// The record at `path`, with the state that was read from there, if any.
    pub fn load_or_create(path: &str, saved: Option<DoneState>) -> (done: DoneFile)
        ensures
            done.path@ == path@,
            done.state@ == match saved {
                Some(state) => state@,
                None => Map::<Seq<char>, ChunkInfo>::empty(),
            },
    {
        let state = match saved {
            Some(state) => state,
            None => {
                let chunks: Vec<(String, ChunkInfo)> = Vec::new();
                assert(entry_map(chunks@) =~= Map::<Seq<char>, ChunkInfo>::empty());
                DoneState { chunks }
            },
        };
        DoneFile { path: path.to_owned(), state }
    }

    /// Whether a chunk is done: it was recorded, and its file has the recorded size. A
    /// truncated, empty or missing file is not done.
    pub fn is_done(&self, chunk_key: &str, size_on_disk: Option<u64>) -> (r: bool)
        ensures
            r == (self.state@.dom().contains(chunk_key@) && self.state@[chunk_key@].size_bytes > 0
                && size_on_disk == Some(self.state@[chunk_key@].size_bytes)),
    {
        match entry_at(&self.state.chunks, chunk_key) {
            Some(at) => {
                let expected: u64 = self.state.chunks[at].1.size_bytes;
                match size_on_disk {
                    Some(size) => size == expected && expected > 0,
                    None => false,
                }
            },
            None => false,
        }
    }

    /// Records a chunk; the state is to be written back to `path`.
    pub fn mark_done(&mut self, chunk_key: &str, frames: u64, size_bytes: u64)
        ensures
            final(self).path@ == old(self).path@,
            final(self).state@ == old(self).state@.insert(
                chunk_key@,
                ChunkInfo { frames, size_bytes },
            ),
    {
        put_entry(&mut self.state.chunks, chunk_key, ChunkInfo { frames, size_bytes });
    }
}

/// A chunk that was recorded is done as long as its file keeps its size, and recording
/// another chunk does not change that.
pub proof fn law_recorded_chunks_stay_done(
    state: Map<Seq<char>, ChunkInfo>,
    key: Seq<char>,
    info: ChunkInfo,
    other: Seq<char>,
    other_info: ChunkInfo,
)
    requires
        key != other,
    ensures
        state.insert(key, info).insert(other, other_info).dom().contains(key),
        state.insert(key, info).insert(other, other_info)[key] == info,
{
}

/// The solved CRF of each chunk, so that a resumed job does not probe again. A value is
/// kept as the bits of its floating-point number.
#[derive(Debug)]
pub struct CrfCache {
    pub path: String,
    pub state: Vec<(String, u64)>,
}

impl View for CrfCache {
    type V = Map<Seq<char>, u64>;

    open spec fn view(&self) -> Map<Seq<char>, u64> {
        entry_map(self.state@)
    }
}

impl CrfCache {
    /// The cache at `path`, with the state that was read from there, if any.
    pub fn load_or_create(path: &str, saved: Option<Vec<(String, u64)>>) -> (cache: CrfCache)
        ensures
            cache.path@ == path@,
            cache@ == match saved {
                Some(state) => entry_map(state@),
                None => Map::<Seq<char>, u64>::empty(),
            },
    {
        let state = match saved {
            Some(state) => state,
            None => {
                let state: Vec<(String, u64)> = Vec::new();
                assert(entry_map(state@) =~= Map::<Seq<char>, u64>::empty());
                state
            },
        };
        CrfCache { path: path.to_owned(), state }
    }

    pub fn get(&self, chunk_key: &str) -> (r: Option<u64>)
        ensures
            r == if self@.dom().contains(chunk_key@) {
                Some(self@[chunk_key@])
            } else {
                None
            },
    {
        match entry_at(&self.state, chunk_key) {
            Some(at) => Some(self.state[at].1),
            None => None,
        }
    }

    /// Keeps the CRF of a chunk; the state is to be written back to `path`.
    pub fn insert(&mut self, chunk_key: &str, crf: u64)
        ensures
            final(self).path@ == old(self).path@,
            final(self)@ == old(self)@.insert(chunk_key@, crf),
    {
        put_entry(&mut self.state, chunk_key, crf);
    }
}

// ---------------------------------------------------------------------------
// The temporary directory
// ---------------------------------------------------------------------------
/// The hash of a string: of its bytes and the end mark of a string.
pub open spec fn stem_hash(stem: Seq<char>) -> u64 {
    DefaultHasher::spec_finish(seq![encode_utf8(stem), seq![0xffu8]])
}

/// Hashes a string the same way in every run.
pub fn stable_hash(stem: &str) -> (h: u64)
    ensures
        h == stem_hash(stem@),
{
    let mut hasher = DefaultHasher::new();
    hasher.write(stem.as_bytes());
    let mut mark: Vec<u8> = Vec::new();
    mark.push(0xff);
    hasher.write(mark.as_slice());
    proof {
        assert(mark@ =~= seq![0xffu8]);
        assert(hasher@ =~= seq![encode_utf8(stem@), seq![0xffu8]]);
    }
    hasher.finish()
}

/// The number of bytes that a name takes in UTF-8.
pub open spec fn byte_len(s: Seq<char>) -> nat {
    encode_utf8(s).len()
}

/// The longest start of `s` of at most `max` bytes.
pub open spec fn cut_to(s: Seq<char>, max: nat) -> Seq<char>
    decreases s.len(),
{
    if s.len() == 0 || byte_len(s) <= max {
        s
    } else {
        cut_to(s.drop_last(), max)
    }
}

/// `.avet_` and the stem, or where that is longer than 255 bytes, its start and a hash.
pub open spec fn temp_name(stem: Seq<char>, hash: u64) -> Seq<char> {
    let name = ".avet_"@ + stem;
    if byte_len(name) <= 255 {
        name
    } else {
        cut_to(name, 238) + "-"@ + hex_of(be_bytes(hash as nat, 8))
    }
}

pub open spec fn char_width(c: char) -> nat {
    encode_scalar(c as u32).len()
}

fn width(c: char) -> (n: usize)
    ensures
        n == char_width(c),
        1 <= n <= 4,
{
    let u: u32 = c as u32;
    proof {
        char_is_scalar(c);
    }
    if u <= 0x7F {
        1
    } else if u <= 0x7FF {
        2
    } else if u <= 0xFFFF {
        3
    } else {
        4
    }
}

proof fn lemma_byte_len_push(s: Seq<char>, c: char)
    ensures
        byte_len(s.push(c)) == byte_len(s) + char_width(c),
    decreases s.len(),
{
    let whole = s.push(c);
    if s.len() == 0 {
        assert(whole.drop_first() =~= Seq::empty());
        reveal_with_fuel(encode_utf8, 2);
    } else {
        lemma_byte_len_push(s.drop_first(), c);
        assert(whole.drop_first() =~= s.drop_first().push(c));
    }
}

proof fn lemma_cut_to(s: Seq<char>, n: int, max: nat)
    requires
        0 <= n < s.len(),
        byte_len(s.subrange(0, n)) <= max,
        byte_len(s.subrange(0, n + 1)) > max,
    ensures
        cut_to(s, max) == s.subrange(0, n),
    decreases s.len(),
{
    lemma_byte_len_grows(s, n + 1);
    let front = s.drop_last();
    if n == s.len() - 1 {
        assert(front =~= s.subrange(0, n));
        assert(cut_to(front, max) == front);
    } else {
        assert(front.subrange(0, n) =~= s.subrange(0, n));
        assert(front.subrange(0, n + 1) =~= s.subrange(0, n + 1));
        lemma_cut_to(front, n, max);
    }
}

proof fn lemma_byte_len_grows(s: Seq<char>, n: int)
    requires
        0 <= n <= s.len(),
    ensures
        byte_len(s.subrange(0, n)) <= byte_len(s),
    decreases s.len(),
{
    if n < s.len() {
        let front = s.drop_last();
        assert(front.subrange(0, n) =~= s.subrange(0, n));
        lemma_byte_len_grows(front, n);
        assert(front.push(s.last()) =~= s);
        lemma_byte_len_push(front, s.last());
    } else {
        assert(s.subrange(0, n) =~= s);
    }
}

/// The name of the directory for a stem with this hash.
pub fn temp_dir_name_for(stem: &str, hash: u64) -> (name: String)
    ensures
        name@ == temp_name(stem@, hash),
{
    let mut name = String::new();
    name.append(".avet_");
    name.append(stem);
    let ghost whole = ".avet_"@ + stem@;
    assert(name@ =~= whole);
    let chars = to_chars(name.as_str());
    let mut total: usize = 0;
    let mut keep: usize = 0;
    let mut i: usize = 0;
    proof {
        assert(whole.subrange(0, 0) =~= Seq::empty());
    }
    while i < chars.len() && total <= 255
        invariant
            chars@ == whole,
            i <= chars@.len(),
            total == byte_len(whole.subrange(0, i as int)),
            total <= 259,
            keep <= i,
            byte_len(whole.subrange(0, keep as int)) <= 238,
            keep < i ==> byte_len(whole.subrange(0, keep + 1)) > 238,
            keep == i ==> total <= 238,
        decreases chars@.len() - i,
    {
        proof {
            assert(whole.subrange(0, i + 1) =~= whole.subrange(0, i as int).push(
                whole[i as int],
            ));
            lemma_byte_len_push(whole.subrange(0, i as int), whole[i as int]);
        }
        total = total + width(chars[i]);
        if keep == i && total <= 238 {
            keep = i + 1;
        }
        i = i + 1;
    }
    if total <= 255 {
        assert(whole.subrange(0, i as int) =~= whole);
        return name;
    }
    proof {
        lemma_byte_len_grows(whole, i as int);
        lemma_cut_to(whole, keep as int, 238);
    }
    let short = crate::text::part(chars.as_slice(), 0, keep);
    let mut out = from_chars(short.as_slice());
    out.append("-");
    let mut digits: Vec<u8> = Vec::new();
    push_be(&mut digits, hash, 8);
    assert(digits@ =~= be_bytes(hash as nat, 8));
    out.append(to_hex(digits.as_slice()).as_str());
    assert(out@ =~= temp_name(stem@, hash));
    out
}

/// `.avet_<stem>`, shortened with a hash of the stem where that passes the 255-byte limit
/// of a name.
pub fn temp_dir_name(stem: &str) -> (name: String)
    ensures
        name@ == temp_name(stem@, stem_hash(stem@)),
{
    let hash: u64 = stable_hash(stem);
    temp_dir_name_for(stem, hash)
}

proof fn lemma_byte_len_add(a: Seq<char>, b: Seq<char>)
    ensures
        byte_len(a + b) == byte_len(a) + byte_len(b),
    decreases b.len(),
{
    if b.len() == 0 {
        assert(a + b =~= a);
    } else {
        let front = b.drop_last();
        lemma_byte_len_add(a, front);
        assert(a + b =~= (a + front).push(b.last()));
        assert(front.push(b.last()) =~= b);
        lemma_byte_len_push(a + front, b.last());
        lemma_byte_len_push(front, b.last());
    }
}

proof fn lemma_cut_fits(s: Seq<char>, max: nat)
    ensures
        byte_len(cut_to(s, max)) <= max,
    decreases s.len(),
{
    if s.len() > 0 && byte_len(s) > max {
        lemma_cut_fits(s.drop_last(), max);
    }
}

proof fn lemma_hex_len(bytes: Seq<u8>)
    ensures
        hex_of(bytes).len() == 2 * bytes.len(),
        byte_len(hex_of(bytes)) == 2 * bytes.len(),
    decreases bytes.len(),
{
    if bytes.len() > 0 {
        let front = bytes.drop_last();
        lemma_hex_len(front);
        let high = crate::hevc::hex_digit((bytes.last() / 16) as nat);
        let low = crate::hevc::hex_digit((bytes.last() % 16) as nat);
        lemma_byte_len_push(hex_of(front), high);
        lemma_byte_len_push(hex_of(front).push(high), low);
    }
}

/// Every stem gets a name that fits, and long stems with different hashes get different
/// names.
pub proof fn law_temp_names_fit(stem: Seq<char>, hash: u64, other: Seq<char>, other_hash: u64)
    ensures
        byte_len(temp_name(stem, hash)) <= 255,
        byte_len(".avet_"@ + stem) > 255 && byte_len(".avet_"@ + other) > 255 && hash != other_hash
            ==> temp_name(stem, hash) != temp_name(other, other_hash),
{
    reveal_strlit("-");
    crate::bytes::lemma_bytes_len(hash as nat, 8);
    crate::bytes::lemma_bytes_len(other_hash as nat, 8);
    crate::bytes::lemma_pow256();
    let h = hex_of(be_bytes(hash as nat, 8));
    let g = hex_of(be_bytes(other_hash as nat, 8));
    lemma_hex_len(be_bytes(hash as nat, 8));
    lemma_hex_len(be_bytes(other_hash as nat, 8));
    let name = ".avet_"@ + stem;
    let cut = cut_to(name, 238);
    lemma_cut_fits(name, 238);
    lemma_byte_len_add(cut, "-"@);
    lemma_byte_len_add(cut + "-"@, h);
    assert(byte_len("-"@) == 1) by {
        lemma_byte_len_push(Seq::empty(), '-');
        assert(Seq::<char>::empty().push('-') =~= "-"@);
    }
    let a = temp_name(stem, hash);
    let b = temp_name(other, other_hash);
    if byte_len(name) > 255 && byte_len(".avet_"@ + other) > 255 && hash != other_hash {
        if a == b {
            assert(a.subrange(a.len() - 16, a.len() as int) =~= h);
            assert(b.subrange(b.len() - 16, b.len() as int) =~= g);
            crate::hevc::law_hex_round_trip(be_bytes(hash as nat, 8));
            crate::hevc::law_hex_round_trip(be_bytes(other_hash as nat, 8));
            crate::bytes::law_be_round_trip(hash as nat, 8);
            crate::bytes::law_be_round_trip(other_hash as nat, 8);
        }
    }
}

/// Stems that fit keep their own name, so that two of them never share a directory.
pub proof fn law_short_names_tell_stems_apart(
    stem: Seq<char>,
    hash: u64,
    other: Seq<char>,
    other_hash: u64,
)
    requires
        byte_len(".avet_"@ + stem) <= 255,
        byte_len(".avet_"@ + other) <= 255,
        stem != other,
    ensures
        has_prefix(temp_name(stem, hash), ".avet_"@),
        temp_name(stem, hash) != temp_name(other, other_hash),
{
    assert((".avet_"@ + stem).subrange(0, ".avet_"@.len() as int) =~= ".avet_"@);
    if temp_name(stem, hash) == temp_name(other, other_hash) {
        lemma_same_front(".avet_"@, stem, other);
    }
}

// ---------------------------------------------------------------------------
// The source and where its work lies
// ---------------------------------------------------------------------------
/// A time of change in decimal, and a dash where it is not known.
pub open spec fn time_text(modified: Option<u64>) -> Seq<char> {
    match modified {
        Some(t) => decimal(t as nat),
        None => "-"@,
    }
}

/// What a source is told by: its path, its size and when it was last changed.
pub open spec fn source_text(path: Seq<char>, size: u64, modified: Option<u64>) -> Seq<char> {
    path + " "@ + decimal(size as nat) + " "@ + time_text(modified)
}

/// What a source is told by, so that another file put in its place is not taken for it.
pub fn source_id(path: &str, size: u64, modified: Option<u64>) -> (id: String)
    ensures
        id@ == source_text(path@, size, modified),
{
    let mut id = String::new();
    id.append(path);
    id.append(" ");
    push_decimal(&mut id, size);
    id.append(" ");
    match modified {
        Some(t) => {
            push_decimal(&mut id, t);
        },
        None => {
            id.append("-");
        },
    }
    assert(id@ =~= source_text(path@, size, modified));
    id
}

/// Text behind the last space can be told from what is in front of it.
proof fn lemma_last_word(a: Seq<char>, x: Seq<char>, b: Seq<char>, y: Seq<char>)
    requires
        a + " "@ + x == b + " "@ + y,
        !x.contains(' '),
        !y.contains(' '),
    ensures
        a == b,
        x == y,
{
    reveal_strlit(" ");
    let s = a + " "@ + x;
    let t = b + " "@ + y;
    assert(s.len() == a.len() + 1 + x.len());
    assert(t.len() == b.len() + 1 + y.len());
    assert(s[a.len() as int] == ' ');
    assert(t[b.len() as int] == ' ');
    if a.len() < b.len() {
        assert(x[b.len() - a.len() - 1] == s[b.len() as int]);
    }
    if b.len() < a.len() {
        assert(y[a.len() - b.len() - 1] == t[a.len() as int]);
    }
    assert(a =~= s.subrange(0, a.len() as int));
    assert(b =~= t.subrange(0, b.len() as int));
    assert(x =~= s.subrange(a.len() as int + 1, s.len() as int));
    assert(y =~= t.subrange(b.len() as int + 1, t.len() as int));
}

proof fn lemma_number_is_a_word(n: u64)
    ensures
        !decimal(n as nat).contains(' '),
        digits_value(decimal(n as nat)) == n,
        decimal(n as nat) != "-"@,
{
    reveal_strlit("-");
    crate::text::law_decimal_round_trip(n as nat, n as nat);
    let d = decimal(n as nat);
    assert(is_digit(d[0]));
}

/// Two sources are told apart: a file with another path, another size or another time of
/// change, such as one that replaced the source of a job, has another ID.
pub proof fn law_source_ids_differ(
    path: Seq<char>,
    size: u64,
    modified: Option<u64>,
    other_path: Seq<char>,
    other_size: u64,
    other_modified: Option<u64>,
)
    requires
        path != other_path || size != other_size || modified != other_modified,
    ensures
        source_text(path, size, modified) != source_text(other_path, other_size, other_modified),
{
    reveal_strlit("-");
    lemma_number_is_a_word(size);
    lemma_number_is_a_word(other_size);
    if let Some(t) = modified {
        lemma_number_is_a_word(t);
    }
    if let Some(t) = other_modified {
        lemma_number_is_a_word(t);
    }
    let (x, y) = (time_text(modified), time_text(other_modified));
    let a = path + " "@ + decimal(size as nat);
    let b = other_path + " "@ + decimal(other_size as nat);
    if a + " "@ + x == b + " "@ + y {
        lemma_last_word(a, x, b, y);
        lemma_last_word(path, decimal(size as nat), other_path, decimal(other_size as nat));
    }
}

/// Where the work in progress on a video lies.
#[derive(Debug)]
pub struct TempDir {
    pub path: String,
    pub index_path: String,
    pub scenes_path: String,
    pub done_path: String,
    pub tq_path: String,
    pub fingerprint_path: String,
    pub source_id_path: String,
    pub failed_path: String,
    pub chunks_dir: String,
    pub crop_cache: String,
    pub tracks_path: String,
    pub remux_path: String,
    pub video_path: String,
    pub mux_path: String,
    pub timestamps_path: String,
    pub hdr10plus_path: String,
}

impl TempDir {
    /// The directory for a video, next to its output.
    pub fn for_video(output_dir: &str, video_stem: &str) -> (t: TempDir)
        ensures
            t.path@ == joined_path(output_dir@, temp_name(video_stem@, stem_hash(video_stem@))),
            t.index_path@ == joined_path(t.path@, "frame-index.ffindex"@),
            t.scenes_path@ == joined_path(t.path@, "scenes.json"@),
            t.done_path@ == joined_path(t.path@, "done.json"@),
            t.tq_path@ == joined_path(t.path@, "tq.json"@),
            t.fingerprint_path@ == joined_path(t.path@, "profile.fingerprint"@),
            t.source_id_path@ == joined_path(t.path@, "source.path"@),
            t.failed_path@ == joined_path(t.path@, ".failed"@),
            t.chunks_dir@ == joined_path(t.path@, "chunks"@),
            t.crop_cache@ == joined_path(t.path@, "crop.cache"@),
            t.tracks_path@ == joined_path(t.path@, "tracks.mkv"@),
            t.remux_path@ == joined_path(t.path@, "source.mkv"@),
            t.video_path@ == joined_path(t.path@, "video.ivf"@),
            t.mux_path@ == joined_path(t.path@, "muxed.mkv"@),
            t.timestamps_path@ == joined_path(t.path@, "timestamps.txt"@),
            t.hdr10plus_path@ == joined_path(t.path@, "hdr10plus.json"@),
    {
        let name = temp_dir_name(video_stem);
        let path = join_path(output_dir, name.as_str());
        let dir = path.as_str();
        let index_path = join_path(dir, "frame-index.ffindex");
        let scenes_path = join_path(dir, "scenes.json");
        let done_path = join_path(dir, "done.json");
        let tq_path = join_path(dir, "tq.json");
        let fingerprint_path = join_path(dir, "profile.fingerprint");
        let source_id_path = join_path(dir, "source.path");
        let failed_path = join_path(dir, ".failed");
        let chunks_dir = join_path(dir, "chunks");
        let crop_cache = join_path(dir, "crop.cache");
        let tracks_path = join_path(dir, "tracks.mkv");
        let remux_path = join_path(dir, "source.mkv");
        let video_path = join_path(dir, "video.ivf");
        let mux_path = join_path(dir, "muxed.mkv");
        let timestamps_path = join_path(dir, "timestamps.txt");
        let hdr10plus_path = join_path(dir, "hdr10plus.json");
        TempDir {
            path,
            index_path,
            scenes_path,
            done_path,
            tq_path,
            fingerprint_path,
            source_id_path,
            failed_path,
            chunks_dir,
            crop_cache,
            tracks_path,
            remux_path,
            video_path,
            mux_path,
            timestamps_path,
            hdr10plus_path,
        }
    }

    /// The file that a chunk is encoded to.
    pub fn chunk_path(&self, key: &str) -> (path: String)
        ensures
            path@ == joined_path(self.chunks_dir@, key@ + ".ivf"@),
    {
        let mut name = String::new();
        name.append(key);
        name.append(".ivf");
        assert(name@ =~= key@ + ".ivf"@);
        join_path(self.chunks_dir.as_str(), name.as_str())
    }

    /// The ID of the source that the directory was made for, by what its record says.
    pub fn recorded_source(&self, raw: Option<&str>) -> (r: Option<String>)
        ensures
            match (raw, r) {
                (Some(text), Some(source)) => source@ == trimmed(text@),
                (None, None) => true,
                _ => false,
            },
    {
        match raw {
            Some(text) => {
                let chars = to_chars(text);
                let inner = trim(chars.as_slice());
                Some(from_chars(inner.as_slice()))
            },
            None => None,
        }
    }

    /// Whether the directory has to be discarded before the source with this ID can have it:
    /// it describes another video of the same name.
    pub fn claim_source(&self, raw: Option<&str>, id: &str) -> (discard: bool)
        ensures
            discard == (raw matches Some(text) && trimmed(text@) != id@),
    {
        match self.recorded_source(raw) {
            Some(prev) => !same(prev.as_str(), id),
            None => false,
        }
    }

    /// Whether the source with this ID is the one that the directory was made for.
    pub fn source_unchanged(&self, raw: Option<&str>, id: &str) -> (r: bool)
        ensures
            r == (raw matches Some(text) && trimmed(text@) == id@),
    {
        match self.recorded_source(raw) {
            Some(prev) => same(prev.as_str(), id),
            None => false,
        }
    }
}

} // verus!
