//! Strings as sequences of characters.
use vstd::prelude::*;
use vstd::string::*;

verus! {

/// `String::push`: appends one character and changes nothing else.
#[verifier::external_body]
pub(crate) fn push_char(s: &mut String, c: char)
    ensures
        final(s)@ == old(s)@.push(c),
{
    s.push(c)
}

/// The characters of a string.
pub fn to_chars(s: &str) -> (v: Vec<char>)
    ensures
        v@ == s@,
{
    let mut v: Vec<char> = Vec::new();
    for c in it: s.chars()
        invariant
            it.seq() == s@,
            v@ == s@.subrange(0, it.index() as int),
    {
        v.push(c);
        assert(s@.subrange(0, it.index() as int).push(c) =~= s@.subrange(0, it.index() + 1));
    }
    assert(s@.subrange(0, s@.len() as int) =~= s@);
    v
}

/// A string of these characters.
pub fn from_chars(v: &[char]) -> (s: String)
    ensures
        s@ == v@,
{
    let mut s = String::new();
    let mut i: usize = 0;
    while i < v.len()
        invariant
            i <= v@.len(),
            s@ == v@.subrange(0, i as int),
        decreases v@.len() - i,
    {
        push_char(&mut s, v[i]);
        i = i + 1;
        assert(s@ =~= v@.subrange(0, i as int));
    }
    assert(v@.subrange(0, i as int) =~= v@);
    s
}

/// Whether two character sequences are equal.
pub fn same_chars(a: &[char], b: &[char]) -> (r: bool)
    ensures
        r == (a@ == b@),
{
    if a.len() != b.len() {
        return false;
    }
    let mut i: usize = 0;
    while i < a.len()
        invariant
            a@.len() == b@.len(),
            i <= a@.len(),
            forall|k: int| 0 <= k < i ==> a@[k] == b@[k],
        decreases a@.len() - i,
    {
        if a[i] != b[i] {
            return false;
        }
        i = i + 1;
    }
    assert(a@ =~= b@);
    true
}

/// Whether two strings are equal.
pub fn same(a: &str, b: &str) -> (r: bool)
    ensures
        r == (a@ == b@),
{
    let x = to_chars(a);
    let y = to_chars(b);
    same_chars(x.as_slice(), y.as_slice())
}

/// The strings of a list, as sequences of characters.
pub open spec fn strings(v: Seq<String>) -> Seq<Seq<char>> {
    Seq::new(v.len(), |i: int| v[i]@)
}

// ---------------------------------------------------------------------------
// Numbers
// ---------------------------------------------------------------------------
/// A decimal digit.
pub open spec fn digit(n: nat) -> char {
    (48 + n) as char
}

pub open spec fn is_digit(c: char) -> bool {
    '0' <= c <= '9'
}

/// The value of a decimal digit.
pub open spec fn digit_value(c: char) -> nat {
    (c as nat - 48) as nat
}

/// `n` in decimal.
pub open spec fn decimal(n: nat) -> Seq<char>
    decreases n,
{
    if n < 10 {
        seq![digit(n)]
    } else {
        decimal(n / 10).push(digit(n % 10))
    }
}

/// Whether `s` is one or more decimal digits.
pub open spec fn all_digits(s: Seq<char>) -> bool {
    s.len() > 0 && forall|i: int| 0 <= i < s.len() ==> is_digit(#[trigger] s[i])
}

/// The number that decimal digits stand for.
pub open spec fn digits_value(s: Seq<char>) -> nat
    decreases s.len(),
{
    if s.len() == 0 {
        0
    } else {
        10 * digits_value(s.drop_last()) + digit_value(s.last())
    }
}

/// A number in decimal, with a plus sign or without, of at most `max`.
pub open spec fn unsigned(s: Seq<char>, max: nat) -> Option<nat> {
    let digits = if s.len() > 0 && s[0] == '+' {
        s.drop_first()
    } else {
        s
    };
    if all_digits(digits) && digits_value(digits) <= max {
        Some(digits_value(digits))
    } else {
        None
    }
}

/// A number in decimal, with a sign or without, of 64 bits.
pub open spec fn signed(s: Seq<char>) -> Option<int> {
    let negative = s.len() > 0 && s[0] == '-';
    let digits = if s.len() > 0 && (s[0] == '+' || s[0] == '-') {
        s.drop_first()
    } else {
        s
    };
    let value: int = if negative {
        -digits_value(digits)
    } else {
        digits_value(digits) as int
    };
    if all_digits(digits) && i64::MIN <= value <= i64::MAX {
        Some(value)
    } else {
        None
    }
}

/// A number that was written in decimal reads back.
pub proof fn law_decimal_round_trip(n: nat, max: nat)
    requires
        n <= max,
    ensures
        all_digits(decimal(n)),
        digits_value(decimal(n)) == n,
        unsigned(decimal(n), max) == Some(n),
    decreases n,
{
    let s = decimal(n);
    if n >= 10 {
        law_decimal_round_trip(n / 10, max);
        assert(s.drop_last() =~= decimal(n / 10));
        assert forall|i: int| 0 <= i < s.len() implies is_digit(#[trigger] s[i]) by {
            if i < s.len() - 1 {
                assert(s[i] == decimal(n / 10)[i]);
            }
        }
    } else {
        assert(s.drop_last() =~= Seq::empty());
        reveal_with_fuel(digits_value, 2);
    }
    assert(is_digit(s[0]));
}

fn digit_char(n: u64) -> (c: char)
    requires
        n < 10,
    ensures
        c == digit(n as nat),
{
    match n {
        0 => '0',
        1 => '1',
        2 => '2',
        3 => '3',
        4 => '4',
        5 => '5',
        6 => '6',
        7 => '7',
        8 => '8',
        _ => '9',
    }
}

/// Appends `n` in decimal.
pub fn push_decimal(out: &mut String, n: u64)
    ensures
        final(out)@ == old(out)@ + decimal(n as nat),
    decreases n,
{
    if n >= 10 {
        push_decimal(out, n / 10);
    }
    push_char(out, digit_char(n % 10));
    assert(out@ =~= old(out)@ + decimal(n as nat));
}

/// `n` in decimal.
pub fn decimal_string(n: u64) -> (s: String)
    ensures
        s@ == decimal(n as nat),
{
    let mut s = String::new();
    push_decimal(&mut s, n);
    assert(s@ =~= decimal(n as nat));
    s
}

proof fn lemma_digits_grow(s: Seq<char>, n: int)
    requires
        0 <= n <= s.len(),
    ensures
        digits_value(s.subrange(0, n)) <= digits_value(s),
    decreases s.len(),
{
    if n < s.len() {
        assert(s.drop_last().subrange(0, n) =~= s.subrange(0, n));
        lemma_digits_grow(s.drop_last(), n);
    } else {
        assert(s.subrange(0, n) =~= s);
    }
}

/// The number that decimal digits from `from` on stand for, if it is at most `max`.
pub fn parse_digits(s: &[char], from: usize, max: u64) -> (r: Option<u64>)
    requires
        from <= s@.len(),
    ensures
        ({
            let digits = s@.subrange(from as int, s@.len() as int);
            match r {
                Some(v) => all_digits(digits) && digits_value(digits) == v && v <= max,
                None => !(all_digits(digits) && digits_value(digits) <= max),
            }
        }),
{
    let ghost digits = s@.subrange(from as int, s@.len() as int);
    if from >= s.len() {
        return None;
    }
    let mut v: u64 = 0;
    let mut i: usize = from;
    assert(s@.subrange(from as int, from as int) =~= Seq::empty());
    while i < s.len()
        invariant
            from <= i <= s@.len(),
            from < s@.len(),
            digits == s@.subrange(from as int, s@.len() as int),
            v == digits_value(s@.subrange(from as int, i as int)),
            v <= max,
            forall|k: int| 0 <= k < i - from ==> is_digit(#[trigger] digits[k]),
        decreases s@.len() - i,
    {
        let c = s[i];
        proof {
            assert(digits[i - from] == c);
            let next = s@.subrange(from as int, i + 1);
            assert(next.drop_last() =~= s@.subrange(from as int, i as int));
            assert(next.last() == c);
            assert(digits.subrange(0, i + 1 - from) =~= next);
            lemma_digits_grow(digits, i + 1 - from);
        }
        if !('0' <= c && c <= '9') {
            return None;
        }
        let d: u64 = (c as u32 - 48) as u64;
        if v > (max / 10) || v * 10 > max - (if d <= max {
            d
        } else {
            max
        }) || d > max {
            return None;
        }
        v = v * 10 + d;
        i = i + 1;
    }
    assert(s@.subrange(from as int, i as int) =~= digits);
    Some(v)
}

/// A number in decimal of at most `max`, as `str::parse` reads unsigned numbers.
pub fn parse_unsigned(s: &[char], max: u64) -> (r: Option<u64>)
    ensures
        match r {
            Some(v) => unsigned(s@, max as nat) == Some(v as nat),
            None => unsigned(s@, max as nat) is None,
        },
{
    if s.len() > 0 && s[0] == '+' {
        assert(s@.subrange(1, s@.len() as int) =~= s@.drop_first());
        parse_digits(s, 1, max)
    } else {
        assert(s@.subrange(0, s@.len() as int) =~= s@);
        parse_digits(s, 0, max)
    }
}

/// A signed number in decimal, as `str::parse` reads `i64`.
pub fn parse_signed(s: &[char]) -> (r: Option<i64>)
    ensures
        match r {
            Some(v) => signed(s@) == Some(v as int),
            None => signed(s@) is None,
        },
{
    if s.len() > 0 && s[0] == '-' {
        assert(s@.subrange(1, s@.len() as int) =~= s@.drop_first());
        match parse_digits(s, 1, 0x8000_0000_0000_0000) {
            Some(v) => {
                if v == 0x8000_0000_0000_0000 {
                    Some(i64::MIN)
                } else {
                    Some(-(v as i64))
                }
            },
            None => None,
        }
    } else {
        let from: usize = if s.len() > 0 && s[0] == '+' {
            1
        } else {
            0
        };
        assert(s@.subrange(0, s@.len() as int) =~= s@);
        assert(from == 1 ==> s@.subrange(1, s@.len() as int) =~= s@.drop_first());
        match parse_digits(s, from, 0x7fff_ffff_ffff_ffff) {
            Some(v) => Some(v as i64),
            None => None,
        }
    }
}

// ---------------------------------------------------------------------------
// Pieces of text
// ---------------------------------------------------------------------------
/// Whether `s` starts with `prefix`.
pub open spec fn has_prefix(s: Seq<char>, prefix: Seq<char>) -> bool {
    s.len() >= prefix.len() && s.subrange(0, prefix.len() as int) == prefix
}

/// Whether `s` ends with `suffix`.
pub open spec fn has_suffix(s: Seq<char>, suffix: Seq<char>) -> bool {
    s.len() >= suffix.len() && s.subrange(s.len() - suffix.len(), s.len() as int) == suffix
}

/// Whether `part` occurs in `s` at `at`.
pub open spec fn occurs_at(s: Seq<char>, part: Seq<char>, at: int) -> bool {
    0 <= at && at + part.len() <= s.len() && s.subrange(at, at + part.len()) == part
}

/// Whether `part` occurs in `s`.
pub open spec fn occurs(s: Seq<char>, part: Seq<char>) -> bool {
    exists|at: int| #[trigger] occurs_at(s, part, at)
}

/// Whether `part` occurs in `s` at `at`.
pub fn is_at(s: &[char], part: &[char], at: usize) -> (r: bool)
    ensures
        r == occurs_at(s@, part@, at as int),
{
    if at > s.len() || s.len() - at < part.len() {
        return false;
    }
    let mut i: usize = 0;
    while i < part.len()
        invariant
            at + part@.len() <= s@.len(),
            i <= part@.len(),
            forall|k: int| 0 <= k < i ==> #[trigger] part@[k] == s@[at + k],
        decreases part@.len() - i,
    {
        let len: usize = s.len();
        if s[at + i] != part[i] {
            assert(s@.subrange(at as int, at + part@.len())[i as int] != part@[i as int]);
            return false;
        }
        i = i + 1;
    }
    assert(s@.subrange(at as int, at + part@.len()) =~= part@);
    true
}

pub fn starts_with(s: &[char], prefix: &str) -> (r: bool)
    ensures
        r == has_prefix(s@, prefix@),
{
    let p = to_chars(prefix);
    is_at(s, p.as_slice(), 0)
}

pub fn ends_with(s: &[char], suffix: &str) -> (r: bool)
    ensures
        r == has_suffix(s@, suffix@),
{
    let p = to_chars(suffix);
    if s.len() < p.len() {
        return false;
    }
    is_at(s, p.as_slice(), s.len() - p.len())
}

/// The first place at or after `from` where `part` occurs.
pub open spec fn first_at(s: Seq<char>, part: Seq<char>, from: int) -> Option<int>
    decreases s.len() + 1 - from,
{
    if from < 0 || from + part.len() > s.len() {
        None
    } else if occurs_at(s, part, from) {
        Some(from)
    } else {
        first_at(s, part, from + 1)
    }
}

pub proof fn lemma_first_at(s: Seq<char>, part: Seq<char>, from: int)
    requires
        0 <= from,
    ensures
        match first_at(s, part, from) {
            Some(at) => from <= at && occurs_at(s, part, at) && forall|k: int|
                from <= k < at ==> !#[trigger] occurs_at(s, part, k),
            None => forall|k: int| from <= k ==> !#[trigger] occurs_at(s, part, k),
        },
    decreases s.len() + 1 - from,
{
    if from + part.len() <= s.len() && !occurs_at(s, part, from) {
        lemma_first_at(s, part, from + 1);
    }
}

/// What does not occur before a place is first found there.
pub proof fn lemma_first_is(s: Seq<char>, part: Seq<char>, at: int)
    requires
        occurs_at(s, part, at),
        forall|k: int| 0 <= k < at ==> !#[trigger] occurs_at(s, part, k),
    ensures
        first_at(s, part, 0) == Some(at),
{
    lemma_first_at(s, part, 0);
}

/// A separator of one character is first found behind text that is free of it.
pub proof fn lemma_first_separator(a: Seq<char>, sep: Seq<char>, b: Seq<char>)
    requires
        sep.len() == 1,
        !a.contains(sep[0]),
    ensures
        first_at(a + sep + b, sep, 0) == Some(a.len() as int),
        (a + sep + b).subrange(0, a.len() as int) == a,
        (a + sep + b).subrange(a.len() as int + 1, (a + sep + b).len() as int) == b,
{
    let s = a + sep + b;
    let at = a.len() as int;
    assert(s.subrange(at, at + 1) =~= sep);
    assert forall|k: int| 0 <= k < at implies !#[trigger] occurs_at(s, sep, k) by {
        assert(s.subrange(k, k + 1)[0] == a[k]);
    }
    lemma_first_is(s, sep, at);
    assert(s.subrange(0, at) =~= a);
    assert(s.subrange(at + 1, s.len() as int) =~= b);
}

/// A number holds nothing but digits, and is left whole by trimming.
pub proof fn lemma_decimal_is_plain(n: nat, c: char)
    requires
        !is_digit(c),
    ensures
        !decimal(n).contains(c),
        trimmed(decimal(n)) == decimal(n),
{
    law_decimal_round_trip(n, n);
    let d = decimal(n);
    assert(is_digit(d[0]) && is_digit(d.last()));
    lemma_trimmed_whole(d);
}

/// Text without a part of one character does not hold it anywhere.
pub proof fn lemma_no_separator(s: Seq<char>, sep: Seq<char>)
    requires
        sep.len() == 1,
        !s.contains(sep[0]),
    ensures
        first_at(s, sep, 0) is None,
{
    lemma_first_at(s, sep, 0);
    if let Some(at) = first_at(s, sep, 0) {
        assert(s.subrange(at, at + 1)[0] == s[at]);
    }
}

pub fn find_from(s: &[char], part: &[char], from: usize) -> (r: Option<usize>)
    ensures
        match r {
            Some(at) => first_at(s@, part@, from as int) == Some(at as int) && at + part@.len()
                <= s@.len(),
            None => first_at(s@, part@, from as int) is None,
        },
{
    let mut at: usize = from;
    while at <= s.len() && s.len() - at >= part.len()
        invariant
            from <= at,
            first_at(s@, part@, at as int) == first_at(s@, part@, from as int),
        decreases s@.len() + 1 - at,
    {
        if is_at(s, part, at) {
            return Some(at);
        }
        assert(at == s@.len() ==> s@.subrange(at as int, at as int) =~= part@);
        at = at + 1;
    }
    None
}

pub fn contains(s: &[char], part: &str) -> (r: bool)
    ensures
        r == occurs(s@, part@),
{
    let p = to_chars(part);
    proof {
        lemma_first_at(s@, part@, 0);
        if first_at(s@, part@, 0) is None {
            assert forall|at: int| !#[trigger] occurs_at(s@, part@, at) by {}
        }
    }
    find_from(s, p.as_slice(), 0).is_some()
}

/// White space, as Unicode has it.
pub open spec fn is_space(c: char) -> bool {
    ||| 9 <= c as u32 <= 13
    ||| c as u32 == 0x20
    ||| c as u32 == 0x85
    ||| c as u32 == 0xA0
    ||| c as u32 == 0x1680
    ||| 0x2000 <= c as u32 <= 0x200A
    ||| c as u32 == 0x2028
    ||| c as u32 == 0x2029
    ||| c as u32 == 0x202F
    ||| c as u32 == 0x205F
    ||| c as u32 == 0x3000
}

pub fn space(c: char) -> (r: bool)
    ensures
        r == is_space(c),
{
    let u: u32 = c as u32;
    (9 <= u && u <= 13) || u == 0x20 || u == 0x85 || u == 0xA0 || u == 0x1680 || (0x2000 <= u && u
        <= 0x200A) || u == 0x2028 || u == 0x2029 || u == 0x202F || u == 0x205F || u == 0x3000
}

/// `s` without the white space at its start.
pub open spec fn trim_start(s: Seq<char>) -> Seq<char>
    decreases s.len(),
{
    if s.len() > 0 && is_space(s[0]) {
        trim_start(s.drop_first())
    } else {
        s
    }
}

/// `s` without the white space at its end.
pub open spec fn trim_end(s: Seq<char>) -> Seq<char>
    decreases s.len(),
{
    if s.len() > 0 && is_space(s.last()) {
        trim_end(s.drop_last())
    } else {
        s
    }
}

/// `s` without the white space around it.
pub open spec fn trimmed(s: Seq<char>) -> Seq<char> {
    trim_end(trim_start(s))
}

/// Where `s` without the white space around it starts and ends.
pub fn trim_range(s: &[char]) -> (r: (usize, usize))
    ensures
        r.0 <= r.1 <= s@.len(),
        s@.subrange(r.0 as int, r.1 as int) == trimmed(s@),
{
    let mut from: usize = 0;
    assert(s@.subrange(0, s@.len() as int) =~= s@);
    while from < s.len() && space(s[from])
        invariant
            from <= s@.len(),
            trim_start(s@.subrange(from as int, s@.len() as int)) == trim_start(s@),
        decreases s@.len() - from,
    {
        assert(s@.subrange(from as int, s@.len() as int).drop_first() =~= s@.subrange(
            from + 1,
            s@.len() as int,
        ));
        from = from + 1;
    }
    let ghost rest = s@.subrange(from as int, s@.len() as int);
    assert(trim_start(rest) == rest);
    let mut to: usize = s.len();
    while to > from && space(s[to - 1])
        invariant
            from <= to <= s@.len(),
            trim_end(s@.subrange(from as int, to as int)) == trimmed(s@),
        decreases to,
    {
        assert(s@.subrange(from as int, to as int).drop_last() =~= s@.subrange(
            from as int,
            to - 1,
        ));
        to = to - 1;
    }
    (from, to)
}

/// Part of a character sequence, as a vector.
pub fn part(s: &[char], from: usize, to: usize) -> (v: Vec<char>)
    requires
        from <= to <= s@.len(),
    ensures
        v@ == s@.subrange(from as int, to as int),
{
    let mut v: Vec<char> = Vec::new();
    let mut i: usize = from;
    while i < to
        invariant
            from <= i <= to <= s@.len(),
            v@ == s@.subrange(from as int, i as int),
        decreases to - i,
    {
        v.push(s[i]);
        i = i + 1;
        assert(v@ =~= s@.subrange(from as int, i as int));
    }
    v
}

/// `s` without the white space around it.
pub fn trim(s: &[char]) -> (v: Vec<char>)
    ensures
        v@ == trimmed(s@),
{
    let (from, to) = trim_range(s);
    part(s, from, to)
}

/// What text is split at.
#[derive(Clone, Copy, Debug, PartialEq, Eq, Structural)]
pub enum Separator {
    Char { c: char },
    Space,
}

pub open spec fn separates(sep: Separator, c: char) -> bool {
    match sep {
        Separator::Char { c: at } => c == at,
        Separator::Space => is_space(c),
    }
}

/// The pieces of `s` between separators, empty ones too.
pub open spec fn pieces(s: Seq<char>, sep: Separator) -> Seq<Seq<char>>
    decreases s.len(),
{
    if s.len() == 0 {
        seq![Seq::empty()]
    } else {
        let front = pieces(s.drop_last(), sep);
        if separates(sep, s.last()) {
            front.push(Seq::empty())
        } else {
            front.drop_last().push(front.last().push(s.last()))
        }
    }
}

/// The words of `s`: its pieces between white space.
pub open spec fn words(s: Seq<char>) -> Seq<Seq<char>> {
    pieces(s, Separator::Space).filter(|w: Seq<char>| w.len() > 0)
}

/// A line without the carriage return at its end.
pub open spec fn without_return(line: Seq<char>) -> Seq<char> {
    if line.len() > 0 && line.last() == '\r' {
        line.drop_last()
    } else {
        line
    }
}

/// The lines of `s`, each without its line end; nothing follows the last line end.
pub open spec fn lines(s: Seq<char>) -> Seq<Seq<char>> {
    let all = pieces(s, Separator::Char { c: '\n' });
    let ended = if all.last().len() == 0 {
        all.drop_last()
    } else {
        all
    };
    Seq::new(
        ended.len(),
        |i: int|
            if i < all.len() - 1 {
                without_return(ended[i])
            } else {
                ended[i]
            },
    )
}

pub open spec fn char_lists(v: Seq<Vec<char>>) -> Seq<Seq<char>> {
    Seq::new(v.len(), |i: int| v[i]@)
}

pub proof fn lemma_pieces(s: Seq<char>, sep: Separator)
    ensures
        pieces(s, sep).len() > 0,
        pieces(s, sep).len() <= s.len() + 1,
    decreases s.len(),
{
    if s.len() > 0 {
        lemma_pieces(s.drop_last(), sep);
    }
}

pub fn split(s: &[char], sep: Separator) -> (out: Vec<Vec<char>>)
    ensures
        char_lists(out@) == pieces(s@, sep),
{
    let mut out: Vec<Vec<char>> = Vec::new();
    let mut last: Vec<char> = Vec::new();
    let mut i: usize = 0;
    proof {
        assert(s@.subrange(0, 0) =~= Seq::empty());
        assert(char_lists(out@).push(last@) =~= seq![Seq::<char>::empty()]);
    }
    while i < s.len()
        invariant
            i <= s@.len(),
            char_lists(out@).push(last@) == pieces(s@.subrange(0, i as int), sep),
        decreases s@.len() - i,
    {
        let c = s[i];
        let ghost front = char_lists(out@);
        let ghost before = last@;
        proof {
            assert(s@.subrange(0, i + 1).drop_last() =~= s@.subrange(0, i as int));
            assert(front.push(before).drop_last() =~= front);
        }
        let ends = match sep {
            Separator::Char { c: at } => c == at,
            Separator::Space => space(c),
        };
        if ends {
            out.push(last);
            last = Vec::new();
            proof {
                assert(char_lists(out@) =~= front.push(before));
                assert(last@ =~= Seq::empty());
            }
        } else {
            last.push(c);
        }
        i = i + 1;
    }
    assert(s@.subrange(0, i as int) =~= s@);
    let ghost front = char_lists(out@);
    let ghost end = last@;
    out.push(last);
    assert(char_lists(out@) =~= front.push(end));
    out
}

/// The words of `s`.
pub fn split_words(s: &[char]) -> (out: Vec<Vec<char>>)
    ensures
        char_lists(out@) == words(s@),
{
    let all = split(s, Separator::Space);
    let ghost views = char_lists(all@);
    let ghost keep = |w: Seq<char>| w.len() > 0;
    let mut out: Vec<Vec<char>> = Vec::new();
    let mut i: usize = 0;
    proof {
        assert(views.subrange(0, 0).filter(keep) =~= Seq::empty()) by {
            reveal(Seq::filter);
        }
        assert(char_lists(out@) =~= Seq::empty());
    }
    while i < all.len()
        invariant
            i <= all@.len(),
            views == char_lists(all@),
            keep == (|w: Seq<char>| w.len() > 0),
            char_lists(out@) == views.subrange(0, i as int).filter(keep),
        decreases all@.len() - i,
    {
        let ghost next = views.subrange(0, i + 1);
        let ghost before = char_lists(out@);
        proof {
            assert(next.drop_last() =~= views.subrange(0, i as int));
            assert(next.last() == all@[i as int]@);
            assert(next.filter(keep) == (if keep(next.last()) {
                next.drop_last().filter(keep).push(next.last())
            } else {
                next.drop_last().filter(keep)
            })) by {
                reveal(Seq::filter);
            }
        }
        if all[i].len() > 0 {
            let word = part(all[i].as_slice(), 0, all[i].len());
            proof {
                assert(word@ =~= all@[i as int]@);
            }
            out.push(word);
            assert(char_lists(out@) =~= before.push(next.last()));
        }
        i = i + 1;
    }
    assert(views.subrange(0, i as int) =~= views);
    out
}

/// The lines of `s`.
pub fn split_lines(s: &[char]) -> (out: Vec<Vec<char>>)
    ensures
        char_lists(out@) == lines(s@),
{
    let all = split(s, Separator::Char { c: '\n' });
    proof {
        lemma_pieces(s@, Separator::Char { c: '\n' });
        assert(char_lists(all@).last() == all@[all@.len() - 1]@);
    }
    let count: usize = if all[all.len() - 1].len() == 0 {
        all.len() - 1
    } else {
        all.len()
    };
    let mut out: Vec<Vec<char>> = Vec::new();
    let mut i: usize = 0;
    while i < count
        invariant
            i <= count <= all@.len(),
            count == lines(s@).len(),
            char_lists(all@) == pieces(s@, Separator::Char { c: '\n' }),
            all@.len() > 0,
            out@.len() == i,
            forall|k: int| 0 <= k < i ==> (#[trigger] out@[k])@ == lines(s@)[k],
            forall|k: int|
                0 <= k < count ==> #[trigger] lines(s@)[k] == (if k < all@.len() - 1 {
                    without_return(all@[k]@)
                } else {
                    all@[k]@
                }),
        decreases count - i,
    {
        let len: usize = all[i].len();
        let to: usize = if i + 1 < all.len() && len > 0 && all[i][len - 1] == '\r' {
            len - 1
        } else {
            len
        };
        let line = part(all[i].as_slice(), 0, to);
        proof {
            assert(lines(s@)[i as int] =~= line@);
        }
        out.push(line);
        i = i + 1;
    }
    assert(char_lists(out@) =~= lines(s@));
    out
}

/// Text without separators is one piece.
pub proof fn lemma_one_piece(s: Seq<char>, sep: Separator)
    requires
        forall|i: int| 0 <= i < s.len() ==> !separates(sep, #[trigger] s[i]),
    ensures
        pieces(s, sep) == seq![s],
    decreases s.len(),
{
    if s.len() > 0 {
        lemma_one_piece(s.drop_last(), sep);
        assert(s.drop_last().push(s.last()) =~= s);
        assert(pieces(s, sep) =~= seq![s]);
    } else {
        assert(s =~= Seq::empty());
        assert(pieces(s, sep) =~= seq![s]);
    }
}

/// Pieces on both sides of a separator are the pieces of the whole.
pub proof fn lemma_pieces_join(a: Seq<char>, c: char, b: Seq<char>, sep: Separator)
    requires
        separates(sep, c),
    ensures
        pieces(a.push(c) + b, sep) == pieces(a, sep) + pieces(b, sep),
    decreases b.len(),
{
    let whole = a.push(c) + b;
    if b.len() == 0 {
        assert(whole =~= a.push(c));
        assert(a.push(c).drop_last() =~= a);
        assert(pieces(whole, sep) =~= pieces(a, sep) + pieces(b, sep));
    } else {
        let front = b.drop_last();
        lemma_pieces_join(a, c, front, sep);
        lemma_pieces(front, sep);
        assert(whole.drop_last() =~= a.push(c) + front);
        let p = pieces(a, sep);
        let q = pieces(front, sep);
        assert((p + q).last() == q.last());
        assert((p + q).drop_last() =~= p + q.drop_last());
        assert(pieces(whole, sep) =~= pieces(a, sep) + pieces(b, sep));
    }
}

// ---------------------------------------------------------------------------
// Lists and options of strings
// ---------------------------------------------------------------------------
/// The characters of a string that may be missing.
pub open spec fn text_of(s: Option<String>) -> Option<Seq<char>> {
    match s {
        Some(s) => Some(s@),
        None => None,
    }
}

/// The characters of a borrowed string that may be missing.
pub open spec fn str_of(s: Option<&str>) -> Option<Seq<char>> {
    match s {
        Some(s) => Some(s@),
        None => None,
    }
}

/// Borrows a string that may be missing.
pub fn as_text<'a>(s: &'a Option<String>) -> (r: Option<&'a str>)
    ensures
        str_of(r) == text_of(*s),
{
    match s {
        Some(s) => Some(s.as_str()),
        None => None,
    }
}

/// Whether a string is in a list.
pub fn listed(list: &[String], s: &str) -> (r: bool)
    ensures
        r == strings(list@).contains(s@),
{
    let ghost views = strings(list@);
    let mut i: usize = 0;
    while i < list.len()
        invariant
            i <= list@.len(),
            views == strings(list@),
            forall|k: int| 0 <= k < i ==> #[trigger] views[k] != s@,
        decreases list@.len() - i,
    {
        assert(views[i as int] == list@[i as int]@);
        if same(list[i].as_str(), s) {
            return true;
        }
        i = i + 1;
    }
    false
}

/// Strings with a separator between each two.
pub open spec fn joined(parts: Seq<Seq<char>>, sep: Seq<char>) -> Seq<char>
    decreases parts.len(),
{
    if parts.len() == 0 {
        Seq::empty()
    } else if parts.len() == 1 {
        parts[0]
    } else {
        joined(parts.drop_last(), sep) + sep + parts.last()
    }
}

pub proof fn lemma_same_front(front: Seq<char>, x: Seq<char>, y: Seq<char>)
    requires
        front + x == front + y,
    ensures
        x == y,
{
    let s = front + x;
    let t = front + y;
    assert(s.len() == t.len());
    assert(x =~= s.subrange(front.len() as int, s.len() as int));
    assert(y =~= t.subrange(front.len() as int, t.len() as int));
}

pub proof fn lemma_same_back(x: Seq<char>, y: Seq<char>, back: Seq<char>)
    requires
        x + back == y + back,
    ensures
        x == y,
{
    let s = x + back;
    let t = y + back;
    assert(s.len() == t.len());
    assert(x =~= s.subrange(0, x.len() as int));
    assert(y =~= t.subrange(0, y.len() as int));
}

/// Strings that are joined tell one of their parts by the others.
pub proof fn lemma_joined_tells_part(
    parts: Seq<Seq<char>>,
    others: Seq<Seq<char>>,
    i: int,
    sep: Seq<char>,
)
    requires
        0 <= i < parts.len(),
        others == parts.update(i, others[i]),
        joined(parts, sep) == joined(others, sep),
    ensures
        parts[i] == others[i],
    decreases parts.len(),
{
    if parts.len() > 1 {
        let (a, b) = (parts.drop_last(), others.drop_last());
        if i == parts.len() - 1 {
            assert(a =~= b);
            lemma_same_front(joined(a, sep) + sep, parts.last(), others.last());
        } else {
            assert(parts.last() == others.last());
            assert(b =~= a.update(i, others[i]));
            let end = sep + parts.last();
            assert(joined(a, sep) + sep + parts.last() =~= joined(a, sep) + end);
            assert(joined(b, sep) + sep + parts.last() =~= joined(b, sep) + end);
            lemma_same_back(joined(a, sep), joined(b, sep), end);
            lemma_joined_tells_part(a, b, i, sep);
        }
    }
}

/// Text that ends with a number, and has something else in front of it, tells it.
pub proof fn lemma_last_number(x: Seq<char>, m: nat, y: Seq<char>, n: nat)
    requires
        x + decimal(m) == y + decimal(n),
        x.len() > 0 && !is_digit(x.last()),
        y.len() > 0 && !is_digit(y.last()),
    ensures
        x == y,
        m == n,
{
    law_decimal_round_trip(m, m);
    law_decimal_round_trip(n, n);
    let (a, b) = (decimal(m), decimal(n));
    let s = x + a;
    let t = y + b;
    assert(s.len() == x.len() + a.len());
    assert(t.len() == y.len() + b.len());
    if x.len() < y.len() {
        assert(t[y.len() - 1] == y.last());
        assert(s[y.len() - 1] == a[y.len() - 1 - x.len()]);
    }
    if y.len() < x.len() {
        assert(s[x.len() - 1] == x.last());
        assert(t[x.len() - 1] == b[x.len() - 1 - y.len()]);
    }
    assert(x =~= s.subrange(0, x.len() as int));
    assert(y =~= t.subrange(0, y.len() as int));
    lemma_same_front(x, a, b);
}

pub proof fn lemma_regroup(a: Seq<char>, b: Seq<char>, c: Seq<char>)
    ensures
        a + (b + c) == a + b + c,
{
    assert(a + (b + c) =~= a + b + c);
}

/// Parts that are joined with a character that none of them holds split into them again.
pub proof fn law_joined_parts_split_again(parts: Seq<Seq<char>>, c: char)
    requires
        parts.len() > 0,
        forall|i: int| 0 <= i < parts.len() ==> !(#[trigger] parts[i]).contains(c),
    ensures
        pieces(joined(parts, seq![c]), Separator::Char { c }) == parts,
    decreases parts.len(),
{
    let sep = Separator::Char { c };
    let last = parts.last();
    assert(!parts[parts.len() - 1].contains(c));
    assert forall|i: int| 0 <= i < last.len() implies !separates(sep, #[trigger] last[i]) by {
        assert(last.contains(last[i]));
    }
    lemma_one_piece(last, sep);
    if parts.len() == 1 {
        assert(seq![last] =~= parts);
    } else {
        let front = parts.drop_last();
        assert forall|i: int| 0 <= i < front.len() implies !(#[trigger] front[i]).contains(c) by {
            assert(front[i] == parts[i]);
        }
        law_joined_parts_split_again(front, c);
        let a = joined(front, seq![c]);
        assert(joined(parts, seq![c]) =~= a.push(c) + last);
        lemma_pieces_join(a, c, last, sep);
        assert(front + seq![last] =~= parts);
    }
}

/// Joins strings with a separator.
pub fn join(parts: &[String], sep: &str) -> (s: String)
    ensures
        s@ == joined(strings(parts@), sep@),
{
    let ghost views = strings(parts@);
    let mut s = String::new();
    let mut i: usize = 0;
    assert(views.subrange(0, 0) =~= Seq::empty());
    assert(s@ =~= joined(views.subrange(0, 0), sep@));
    while i < parts.len()
        invariant
            i <= parts@.len(),
            views == strings(parts@),
            s@ == joined(views.subrange(0, i as int), sep@),
        decreases parts@.len() - i,
    {
        let ghost before = s@;
        proof {
            let now = views.subrange(0, i + 1);
            assert(now.drop_last() =~= views.subrange(0, i as int));
            assert(now.last() == parts@[i as int]@);
            assert(now[0] == views[0]);
        }
        if i > 0 {
            s.append(sep);
        }
        s.append(parts[i].as_str());
        i = i + 1;
        assert(s@ =~= joined(views.subrange(0, i as int), sep@));
    }
    assert(views.subrange(0, i as int) =~= views);
    s
}

/// Copies a list of strings.
pub fn copied(list: &[String]) -> (out: Vec<String>)
    ensures
        strings(out@) == strings(list@),
{
    let mut out: Vec<String> = Vec::new();
    let mut i: usize = 0;
    assert(strings(out@) =~= strings(list@).subrange(0, 0));
    while i < list.len()
        invariant
            i <= list@.len(),
            strings(out@) == strings(list@).subrange(0, i as int),
        decreases list@.len() - i,
    {
        let ghost before = strings(out@);
        let s = list[i].clone();
        let ghost view = s@;
        out.push(s);
        assert(strings(out@) =~= before.push(view));
        i = i + 1;
        assert(before.push(view) =~= strings(list@).subrange(0, i as int));
    }
    assert(strings(list@).subrange(0, i as int) =~= strings(list@));
    out
}

// ---------------------------------------------------------------------------
// Order
// ---------------------------------------------------------------------------
/// Whether `a` comes before `b` in the order of a dictionary of code points.
pub open spec fn less(a: Seq<char>, b: Seq<char>) -> bool
    decreases a.len(),
{
    if b.len() == 0 {
        false
    } else if a.len() == 0 {
        true
    } else if a[0] != b[0] {
        a[0] < b[0]
    } else {
        less(a.drop_first(), b.drop_first())
    }
}

pub fn is_less(a: &str, b: &str) -> (r: bool)
    ensures
        r == less(a@, b@),
{
    let x = to_chars(a);
    let y = to_chars(b);
    let n: usize = x.len();
    let m: usize = y.len();
    let mut i: usize = 0;
    assert(x@.subrange(0, n as int) =~= x@ && y@.subrange(0, m as int) =~= y@);
    while i < n && i < m && x[i] == y[i]
        invariant
            i <= n == x@.len(),
            i <= m == y@.len(),
            less(x@.subrange(i as int, n as int), y@.subrange(i as int, m as int)) == less(x@, y@),
        decreases n - i,
    {
        assert(x@.subrange(i as int, n as int).drop_first() =~= x@.subrange(i + 1, n as int));
        assert(y@.subrange(i as int, m as int).drop_first() =~= y@.subrange(i + 1, m as int));
        i = i + 1;
    }
    if i == m {
        false
    } else if i == n {
        true
    } else {
        x[i] < y[i]
    }
}

/// No string comes before itself.
pub proof fn lemma_less_irreflexive(a: Seq<char>)
    ensures
        !less(a, a),
    decreases a.len(),
{
    if a.len() > 0 {
        lemma_less_irreflexive(a.drop_first());
    }
}

/// Of two strings that come before one another through a third, the first comes first.
pub proof fn lemma_less_transitive(a: Seq<char>, b: Seq<char>, c: Seq<char>)
    requires
        less(a, b),
        less(b, c),
    ensures
        less(a, c),
    decreases a.len(),
{
    if a.len() > 0 && a[0] == b[0] && b[0] == c[0] {
        lemma_less_transitive(a.drop_first(), b.drop_first(), c.drop_first());
    }
}

/// Of two different strings one comes first.
pub proof fn lemma_less_total(a: Seq<char>, b: Seq<char>)
    ensures
        a != b ==> less(a, b) || less(b, a),
    decreases a.len(),
{
    if a.len() > 0 && b.len() > 0 && a[0] == b[0] {
        lemma_less_total(a.drop_first(), b.drop_first());
        if a.drop_first() == b.drop_first() {
            assert(a =~= seq![a[0]] + a.drop_first());
            assert(b =~= seq![b[0]] + b.drop_first());
        }
    } else if a.len() == 0 && b.len() == 0 {
        assert(a =~= b);
    }
}

/// Text without the white space at its end.
pub fn trim_back(s: &[char]) -> (v: Vec<char>)
    ensures
        v@ == trim_end(s@),
{
    let mut to: usize = s.len();
    assert(s@.subrange(0, to as int) =~= s@);
    while to > 0 && space(s[to - 1])
        invariant
            to <= s@.len(),
            trim_end(s@.subrange(0, to as int)) == trim_end(s@),
        decreases to,
    {
        assert(s@.subrange(0, to as int).drop_last() =~= s@.subrange(0, to - 1));
        to = to - 1;
    }
    part(s, 0, to)
}

/// What is left of text is a part of its start that does not end in white space.
pub proof fn lemma_trim_end(s: Seq<char>)
    ensures
        trim_end(s).len() <= s.len(),
        trim_end(s) == s.subrange(0, trim_end(s).len() as int),
        trim_end(s).len() > 0 ==> !is_space(trim_end(s).last()),
        s.len() > 0 && !is_space(s.last()) ==> trim_end(s) == s,
    decreases s.len(),
{
    if s.len() > 0 && is_space(s.last()) {
        lemma_trim_end(s.drop_last());
        assert(s.drop_last().subrange(0, trim_end(s).len() as int) =~= s.subrange(
            0,
            trim_end(s).len() as int,
        ));
    } else {
        assert(s.subrange(0, s.len() as int) =~= s);
    }
}

proof fn lemma_trim_start(s: Seq<char>)
    ensures
        trim_start(s).len() > 0 ==> !is_space(trim_start(s)[0]),
    decreases s.len(),
{
    if s.len() > 0 && is_space(s[0]) {
        lemma_trim_start(s.drop_first());
    }
}

/// Text without the white space around it neither starts nor ends with some.
pub proof fn lemma_trimmed(s: Seq<char>)
    ensures
        trimmed(s).len() > 0 ==> !is_space(trimmed(s)[0]) && !is_space(trimmed(s).last()),
{
    lemma_trim_start(s);
    lemma_trim_end(trim_start(s));
}

/// Text that neither starts nor ends with white space is left as it is.
pub proof fn lemma_trimmed_whole(s: Seq<char>)
    requires
        s.len() > 0,
        !is_space(s[0]),
        !is_space(s.last()),
    ensures
        trimmed(s) == s,
{
}

pub open spec fn views(words: Seq<&str>) -> Seq<Seq<char>> {
    Seq::new(words.len(), |i: int| words[i]@)
}

/// Appends words to a list.
pub fn push_words(args: &mut Vec<String>, words: &[&str])
    ensures
        strings(final(args)@) == strings(old(args)@) + views(words@),
{
    let ghost before = strings(args@);
    let mut i: usize = 0;
    assert(strings(args@) =~= before + views(words@.subrange(0, 0)));
    while i < words.len()
        invariant
            i <= words@.len(),
            strings(args@) == before + views(words@.subrange(0, i as int)),
        decreases words@.len() - i,
    {
        let ghost held = strings(args@);
        args.push(words[i].to_owned());
        assert(strings(args@) =~= held.push(words@[i as int]@));
        assert(views(words@.subrange(0, i + 1)) =~= views(words@.subrange(0, i as int)).push(
            words@[i as int]@,
        ));
        i = i + 1;
    }
    assert(words@.subrange(0, i as int) =~= words@);
}

/// Appends a word and a text to a list.
pub fn push_two(args: &mut Vec<String>, a: &str, b: String)
    ensures
        strings(final(args)@) == strings(old(args)@) + seq![a@, b@],
{
    let ghost before = strings(args@);
    let ghost v = b@;
    args.push(a.to_owned());
    args.push(b);
    assert(strings(args@) =~= before + seq![a@, v]);
}

// ---------------------------------------------------------------------------
// Decimal fractions
// ---------------------------------------------------------------------------
pub open spec fn without_sign(s: Seq<char>) -> Seq<char> {
    if s.len() > 0 && (s[0] == '+' || s[0] == '-') {
        s.drop_first()
    } else {
        s
    }
}

/// Digits, with a decimal point among or beside them or without one.
pub open spec fn is_fraction(s: Seq<char>) -> bool {
    match first_at(s, "."@, 0) {
        Some(dot) => all_digits(s.subrange(0, dot) + s.subrange(dot + 1, s.len() as int)),
        None => all_digits(s),
    }
}

/// Where an exponent starts.
pub open spec fn exponent_at(s: Seq<char>) -> Option<int> {
    match first_at(s, "e"@, 0) {
        Some(at) => Some(at),
        None => first_at(s, "E"@, 0),
    }
}

/// `s` is this word of small letters, in whichever case.
pub open spec fn is_word(s: Seq<char>, word: Seq<char>) -> bool {
    s.len() == word.len() && forall|i: int|
        0 <= i < s.len() ==> (#[trigger] s[i]) == word[i] || ('A' <= s[i] <= 'Z' && s[i] as u32 + 32
            == word[i] as u32)
}

/// Text that reads as a number in floating point: a fraction in decimal, with an exponent or
/// without, or the name of a value that is none. Each may have a sign.
pub open spec fn reads_as_number(s: Seq<char>) -> bool {
    let body = without_sign(s);
    is_word(body, "inf"@) || is_word(body, "infinity"@) || is_word(body, "nan"@) || match exponent_at(
        body,
    ) {
        Some(at) => is_fraction(body.subrange(0, at)) && all_digits(
            without_sign(body.subrange(at + 1, body.len() as int)),
        ),
        None => is_fraction(body),
    }
}

fn sign_len(s: &[char]) -> (n: usize)
    ensures
        n <= s@.len(),
        s@.subrange(n as int, s@.len() as int) == without_sign(s@),
{
    if s.len() > 0 && (s[0] == '+' || s[0] == '-') {
        assert(s@.subrange(1, s@.len() as int) =~= s@.drop_first());
        1
    } else {
        assert(s@.subrange(0, s@.len() as int) =~= s@);
        0
    }
}

fn digits(s: &[char]) -> (r: bool)
    ensures
        r == all_digits(s@),
{
    let mut i: usize = 0;
    while i < s.len()
        invariant
            i <= s@.len(),
            forall|k: int| 0 <= k < i ==> is_digit(#[trigger] s@[k]),
        decreases s@.len() - i,
    {
        if s[i] < '0' || s[i] > '9' {
            assert(!is_digit(s@[i as int]));
            return false;
        }
        i = i + 1;
    }
    s.len() > 0
}

fn fraction(s: &[char]) -> (r: bool)
    ensures
        r == is_fraction(s@),
{
    let dot = to_chars(".");
    proof {
        reveal_strlit(".");
    }
    match find_from(s, dot.as_slice(), 0) {
        Some(at) => {
            let len: usize = s.len();
            let mut all = part(s, 0, at);
            let mut rest = part(s, at + 1, len);
            all.append(&mut rest);
            digits(all.as_slice())
        },
        None => digits(s),
    }
}

fn same_word(s: &[char], word: &str) -> (r: bool)
    ensures
        r == is_word(s@, word@),
{
    let w = to_chars(word);
    if s.len() != w.len() {
        return false;
    }
    let mut i: usize = 0;
    while i < s.len()
        invariant
            i <= s@.len() == w@.len(),
            w@ == word@,
            forall|k: int|
                0 <= k < i ==> (#[trigger] s@[k]) == word@[k] || ('A' <= s@[k] <= 'Z' && s@[k] as u32
                    + 32 == word@[k] as u32),
        decreases s@.len() - i,
    {
        let c = s[i];
        if c != w[i] && !('A' <= c && c <= 'Z' && c as u32 + 32 == w[i] as u32) {
            assert(s@[i as int] == c);
            return false;
        }
        i = i + 1;
    }
    true
}

/// Whether text reads as a number in floating point.
pub fn is_number(s: &[char]) -> (r: bool)
    ensures
        r == reads_as_number(s@),
{
    let len: usize = s.len();
    let body = part(s, sign_len(s), len);
    let b = body.as_slice();
    if same_word(b, "inf") || same_word(b, "infinity") || same_word(b, "nan") {
        return true;
    }
    let small = to_chars("e");
    let big = to_chars("E");
    proof {
        reveal_strlit("e");
        reveal_strlit("E");
    }
    let at = match find_from(b, small.as_slice(), 0) {
        Some(at) => Some(at),
        None => find_from(b, big.as_slice(), 0),
    };
    match at {
        Some(at) => {
            let size: usize = b.len();
            let front = part(b, 0, at);
            let exponent = part(b, at + 1, size);
            let from: usize = sign_len(exponent.as_slice());
            let end: usize = exponent.len();
            let power = part(exponent.as_slice(), from, end);
            fraction(front.as_slice()) && digits(power.as_slice())
        },
        None => fraction(b),
    }
}

// ---------------------------------------------------------------------------
// Arguments
// ---------------------------------------------------------------------------
/// A tool is given an option with this value: they stand behind one another in its arguments.
#[verifier::opaque]
pub open spec fn gives(args: Seq<Seq<char>>, option: Seq<char>, value: Seq<char>) -> bool {
    exists|i: int| 0 <= i && i + 1 < args.len() && #[trigger] args[i] == option && args[i + 1] == value
}

pub proof fn lemma_gives_at(args: Seq<Seq<char>>, i: int)
    ensures
        0 <= i && i + 1 < args.len() ==> gives(args, args[i], args[i + 1]),
{
    reveal(gives);
}

/// What is given stays given among more arguments.
pub proof fn lemma_gives_joined(a: Seq<Seq<char>>, b: Seq<Seq<char>>)
    ensures
        forall|option: Seq<char>, value: Seq<char>| #[trigger]
            gives(a, option, value) ==> gives(a + b, option, value),
        forall|option: Seq<char>, value: Seq<char>| #[trigger]
            gives(b, option, value) ==> gives(a + b, option, value),
{
    reveal(gives);
    let all = a + b;
    assert forall|option: Seq<char>, value: Seq<char>| #[trigger]
        gives(a, option, value) implies gives(all, option, value) by {
        let i = choose|i: int|
            0 <= i && i + 1 < a.len() && #[trigger] a[i] == option && a[i + 1] == value;
        assert(all[i] == a[i] && all[i + 1] == a[i + 1]);
    }
    assert forall|option: Seq<char>, value: Seq<char>| #[trigger]
        gives(b, option, value) implies gives(all, option, value) by {
        let i = choose|i: int|
            0 <= i && i + 1 < b.len() && #[trigger] b[i] == option && b[i + 1] == value;
        let k = a.len() + i;
        assert(all[k] == b[i] && all[k + 1] == b[i + 1]);
    }
}

// ---------------------------------------------------------------------------
// Short words
// ---------------------------------------------------------------------------
/// The length of a word, its first character and its last three, which tell most short words
/// apart.
pub open spec fn outline(s: Seq<char>) -> (nat, char, char, char, char) {
    (s.len(), s[0], s[s.len() - 3], s[s.len() - 2], s[s.len() - 1])
}

/// Texts with one start are compared by what is behind it.
pub proof fn lemma_less_behind(front: Seq<char>, a: Seq<char>, b: Seq<char>)
    ensures
        less(front + a, front + b) == less(a, b),
    decreases front.len(),
{
    if front.len() == 0 {
        assert(front + a =~= a);
        assert(front + b =~= b);
    } else {
        lemma_less_behind(front.drop_first(), a, b);
        assert((front + a).drop_first() =~= front.drop_first() + a);
        assert((front + b).drop_first() =~= front.drop_first() + b);
    }
}

/// A number between white space is the first word of what it starts.
pub proof fn lemma_first_word(word: Seq<char>, back: Seq<char>)
    requires
        word.len() > 0,
        forall|i: int| 0 <= i < word.len() ==> !is_space(#[trigger] word[i]),
    ensures
        words(" "@ + word + " "@ + back).len() > 0,
        words(" "@ + word + " "@ + back)[0] == word,
{
    reveal_strlit(" ");
    let sep = Separator::Space;
    let none = Seq::<char>::empty();
    let s = " "@ + word + " "@ + back;
    let a = none.push(' ') + word;
    assert forall|i: int| 0 <= i < word.len() implies !separates(sep, #[trigger] word[i]) by {
        assert(!is_space(word[i]));
    }
    lemma_one_piece(word, sep);
    lemma_one_piece(none, sep);
    lemma_pieces_join(none, ' ', word, sep);
    lemma_pieces_join(a, ' ', back, sep);
    assert(s =~= a.push(' ') + back);
    let keep = |w: Seq<char>| w.len() > 0;
    let first = seq![none] + seq![word];
    let rest = pieces(back, sep);
    assert(pieces(s, sep) == first + rest);
    Seq::filter_distributes_over_add(first, rest, keep);
    Seq::filter_distributes_over_add(seq![none], seq![word], keep);
    reveal(Seq::filter);
    assert(seq![none].drop_last() =~= Seq::empty());
    assert(seq![word].drop_last() =~= Seq::empty());
    assert(Seq::<Seq<char>>::empty().filter(keep) =~= Seq::empty());
    assert(seq![none].last() == none && seq![word].last() == word);
    assert(seq![none].filter(keep) =~= Seq::empty());
    assert(seq![word].filter(keep) =~= seq![word]);
    assert(first.filter(keep) =~= seq![word]);
}

} // verus!
