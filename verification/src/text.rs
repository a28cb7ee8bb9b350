//! Character-level text helpers: decimal numbers, whitespace, and building
//! strings out of characters.
use vstd::prelude::*;
use vstd::string::*;

verus! {

// ---------------------------------------------------------------------------
// Decimal digits
// ---------------------------------------------------------------------------

pub open spec fn is_digit(c: char) -> bool {
    '0' <= c && c <= '9'
}

pub open spec fn digit_value(c: char) -> nat {
    (c as int - '0' as int) as nat
}

pub open spec fn digit_char(d: int) -> char {
    if d == 0 {
        '0'
    } else if d == 1 {
        '1'
    } else if d == 2 {
        '2'
    } else if d == 3 {
        '3'
    } else if d == 4 {
        '4'
    } else if d == 5 {
        '5'
    } else if d == 6 {
        '6'
    } else if d == 7 {
        '7'
    } else if d == 8 {
        '8'
    } else {
        '9'
    }
}

pub open spec fn all_digits(s: Seq<char>) -> bool {
    forall|i: int| 0 <= i < s.len() ==> is_digit(#[trigger] s[i])
}

/// The number written by a sequence of decimal digits, most significant first.
pub open spec fn digits_value(s: Seq<char>) -> nat
    decreases s.len(),
{
    if s.len() == 0 {
        0
    } else {
        digits_value(s.drop_last()) * 10 + digit_value(s.last())
    }
}

/// The shortest decimal representation of `n`.
pub open spec fn decimal(n: nat) -> Seq<char>
    decreases n,
{
    if n < 10 {
        seq![digit_char(n as int)]
    } else {
        decimal(n / 10).push(digit_char((n % 10) as int))
    }
}

/// The decimal representation of a signed number, with a leading `-` when negative.
pub open spec fn decimal_signed(x: int) -> Seq<char> {
    if x < 0 {
        seq!['-'] + decimal((-x) as nat)
    } else {
        decimal(x as nat)
    }
}

/// What `str::parse` gives for an unsigned integer type whose largest value is `max`:
/// an optional `+`, then one or more ASCII digits whose value does not exceed `max`.
pub open spec fn parse_unsigned(s: Seq<char>, max: int) -> Option<int> {
    let body = if s.len() > 0 && s[0] == '+' {
        s.drop_first()
    } else {
        s
    };
    if body.len() > 0 && all_digits(body) && digits_value(body) <= max {
        Some(digits_value(body) as int)
    } else {
        None
    }
}

/// What `str::parse` gives for a signed integer type with range `min..=max`:
/// an optional sign, then one or more ASCII digits, the value within range.
pub open spec fn parse_signed(s: Seq<char>, min: int, max: int) -> Option<int> {
    if s.len() > 0 && s[0] == '-' {
        let body = s.drop_first();
        if body.len() > 0 && all_digits(body) && -(digits_value(body) as int) >= min {
            Some(-(digits_value(body) as int))
        } else {
            None
        }
    } else {
        parse_unsigned(s, max)
    }
}

pub proof fn lemma_digit_char(d: int)
    requires
        0 <= d < 10,
    ensures
        is_digit(digit_char(d)),
        digit_value(digit_char(d)) == d,
        digit_char(d) != '+',
        digit_char(d) != '-',
{
}

pub proof fn lemma_digits_value_prefix(s: Seq<char>, k: int)
    requires
        all_digits(s),
        0 <= k <= s.len(),
    ensures
        digits_value(s.take(k)) <= digits_value(s),
    decreases s.len(),
{
    if k < s.len() {
        let t = s.drop_last();
        assert(t.take(k) =~= s.take(k));
        lemma_digits_value_prefix(t, k);
    } else {
        assert(s.take(k) =~= s);
    }
}

pub proof fn lemma_decimal(n: nat)
    ensures
        decimal(n).len() > 0,
        all_digits(decimal(n)),
        digits_value(decimal(n)) == n,
        decimal(n)[0] != '+',
        decimal(n)[0] != '-',
    decreases n,
{
    if n < 10 {
        lemma_digit_char(n as int);
        assert(decimal(n).drop_last() =~= Seq::<char>::empty());
        assert(digits_value(decimal(n).drop_last()) == 0);
        assert(digits_value(decimal(n)) == digit_value(decimal(n).last()));
    } else {
        lemma_decimal(n / 10);
        lemma_digit_char((n % 10) as int);
        assert(decimal(n).drop_last() =~= decimal(n / 10));
        assert(decimal(n).last() == digit_char((n % 10) as int));
        assert((n / 10) * 10 + n % 10 == n);
        assert(digits_value(decimal(n)) == digits_value(decimal(n / 10)) * 10 + (n % 10));
    }
}

/// Parsing the decimal form of a number gives the number back.
pub proof fn lemma_parse_decimal(n: nat, max: int)
    requires
        n <= max,
    ensures
        parse_unsigned(decimal(n), max) == Some(n as int),
{
    lemma_decimal(n);
}

pub fn digit_to_char(d: u8) -> (c: char)
    requires
        d < 10,
    ensures
        c == digit_char(d as int),
{
    match d {
        0 => '0',
        1 => '1',
        2 => '2',
        3 => '3',
        4 => '4',
        5 => '5',
        6 => '6',
        7 => '7',
        8 => '8',
        _ => '9',
    }
}

pub fn char_is_digit(c: char) -> (b: bool)
    ensures
        b == is_digit(c),
{
    '0' <= c && c <= '9'
}

fn char_digit_value(c: char) -> (d: u64)
    requires
        is_digit(c),
    ensures
        d == digit_value(c),
        d < 10,
{
    (c as u32 - '0' as u32) as u64
}

/// Parses `v[lo..hi]` as digits; `None` when a character is not a digit, the
/// range is empty, or the value exceeds `max`.
fn parse_digits(v: &Vec<char>, lo: usize, hi: usize, max: u64) -> (r: Option<u64>)
    requires
        lo <= hi <= v.len(),
        max <= u32::MAX,
    ensures
        ({
            let s = v@.subrange(lo as int, hi as int);
            match r {
                Some(x) => s.len() > 0 && all_digits(s) && digits_value(s) == x && x <= max,
                None => !(s.len() > 0 && all_digits(s) && digits_value(s) <= max),
            }
        }),
{
    let ghost s = v@.subrange(lo as int, hi as int);
    if lo == hi {
        return None;
    }
    let mut acc: u64 = 0;
    let mut i: usize = lo;
    while i < hi
        invariant
            lo <= i <= hi <= v.len(),
            s == v@.subrange(lo as int, hi as int),
            max <= u32::MAX,
            all_digits(s.take(i - lo)),
            acc == digits_value(s.take(i - lo)),
            acc <= max,
        decreases hi - i,
    {
        let c = v[i];
        if !char_is_digit(c) {
            assert(s[i - lo] == c);
            return None;
        }
        let d = char_digit_value(c);
        proof {
            let t = s.take(i - lo + 1);
            assert(t.drop_last() =~= s.take(i - lo));
            assert(t.last() == c);
        }
        acc = acc * 10 + d;
        if acc > max {
            proof {
                let t = s.take(i - lo + 1);
                assert(all_digits(t));
                if all_digits(s) {
                    lemma_digits_value_prefix(s, i - lo + 1);
                }
            }
            return None;
        }
        i = i + 1;
    }
    assert(s.take(hi - lo) =~= s);
    Some(acc)
}

/// `str::parse` for an unsigned type with largest value `max`, applied to `v[lo..hi]`.
pub fn parse_unsigned_range(v: &Vec<char>, lo: usize, hi: usize, max: u64) -> (r: Option<u64>)
    requires
        lo <= hi <= v.len(),
        max <= u32::MAX,
    ensures
        match r {
            Some(x) => parse_unsigned(v@.subrange(lo as int, hi as int), max as int) == Some(
                x as int,
            ),
            None => parse_unsigned(v@.subrange(lo as int, hi as int), max as int) is None,
        },
{
    let ghost s = v@.subrange(lo as int, hi as int);
    if lo < hi && v[lo] == '+' {
        assert(s.drop_first() =~= v@.subrange(lo + 1, hi as int));
        parse_digits(v, lo + 1, hi, max)
    } else {
        parse_digits(v, lo, hi, max)
    }
}

/// `str::parse` for a signed type with range `-min_abs..=max`, applied to `v[lo..hi]`.
pub fn parse_signed_range(v: &Vec<char>, lo: usize, hi: usize, min_abs: u64, max: u64) -> (r:
    Option<i64>)
    requires
        lo <= hi <= v.len(),
        max <= u32::MAX,
        min_abs <= u32::MAX,
    ensures
        match r {
            Some(x) => parse_signed(
                v@.subrange(lo as int, hi as int),
                -(min_abs as int),
                max as int,
            ) == Some(x as int),
            None => parse_signed(
                v@.subrange(lo as int, hi as int),
                -(min_abs as int),
                max as int,
            ) is None,
        },
{
    let ghost s = v@.subrange(lo as int, hi as int);
    if lo < hi && v[lo] == '-' {
        assert(s.drop_first() =~= v@.subrange(lo + 1, hi as int));
        match parse_digits(v, lo + 1, hi, min_abs) {
            Some(x) => Some(-(x as i64)),
            None => None,
        }
    } else {
        match parse_unsigned_range(v, lo, hi, max) {
            Some(x) => Some(x as i64),
            None => None,
        }
    }
}

/// Why `str::parse` refused a text as an integer, as std's `IntErrorKind` tells.
#[derive(Clone, Copy, Debug, PartialEq, Eq, Structural)]
pub enum IntError {
    /// The text is empty.
    Empty,
    /// A character is not a digit, or the text is a sign alone.
    InvalidDigit,
    /// The number is above the type's largest value.
    PosOverflow,
    /// The number is below the type's smallest value.
    NegOverflow,
}

/// The text std's `ParseIntError` displays for an error.
pub open spec fn int_error_message(e: IntError) -> Seq<char> {
    match e {
        IntError::Empty => "cannot parse integer from empty string"@,
        IntError::InvalidDigit => "invalid digit found in string"@,
        IntError::PosOverflow => "number too large to fit in target type"@,
        IntError::NegOverflow => "number too small to fit in target type"@,
    }
}

impl IntError {
    /// The text std's `ParseIntError` displays for the error.
    pub fn message(&self) -> (s: &'static str)
        ensures
            s@ == int_error_message(*self),
    {
        match self {
            IntError::Empty => "cannot parse integer from empty string",
            IntError::InvalidDigit => "invalid digit found in string",
            IntError::PosOverflow => "number too large to fit in target type",
            IntError::NegOverflow => "number too small to fit in target type",
        }
    }
}

/// The first problem met reading digits from `s[i..]` onto `acc`: a
/// character that is not a digit, or a value beyond `bound`, which is
/// reported as `overflow`. (A text with neither problem parses, so the last
/// case is not one of a refused text.)
pub open spec fn scan_digits(s: Seq<char>, i: int, acc: int, bound: int, overflow: IntError) -> IntError
    decreases s.len() - i,
{
    if i < 0 || i >= s.len() {
        IntError::InvalidDigit
    } else if !is_digit(s[i]) {
        IntError::InvalidDigit
    } else if acc * 10 + digit_value(s[i]) > bound {
        overflow
    } else {
        scan_digits(s, i + 1, acc * 10 + digit_value(s[i]), bound, overflow)
    }
}

/// Why `str::parse` refuses `s` for an integer type whose range is
/// `-min_abs..=max` (`min_abs` is 0 for an unsigned type): the text is
/// empty, a sign alone, or its digits, read from the left, first meet a
/// character that is not a digit or a value out of range.
pub open spec fn int_error(s: Seq<char>, min_abs: int, max: int) -> IntError {
    if s.len() == 0 {
        IntError::Empty
    } else if (s[0] == '+' || s[0] == '-') && s.len() == 1 {
        IntError::InvalidDigit
    } else if s[0] == '+' {
        scan_digits(s, 1, 0, max, IntError::PosOverflow)
    } else if s[0] == '-' && min_abs > 0 {
        scan_digits(s, 1, 0, min_abs, IntError::NegOverflow)
    } else {
        scan_digits(s, 0, 0, max, IntError::PosOverflow)
    }
}

fn scan_digits_range(v: &Vec<char>, lo: usize, start: usize, hi: usize, bound: u64, overflow: IntError) -> (r: IntError)
    requires
        lo <= start <= hi <= v.len(),
        bound <= u32::MAX,
    ensures
        r == scan_digits(v@.subrange(lo as int, hi as int), start - lo, 0, bound as int, overflow),
{
    let ghost s = v@.subrange(lo as int, hi as int);
    let mut acc: u64 = 0;
    let mut i: usize = start;
    while i < hi
        invariant
            lo <= start <= i <= hi <= v.len(),
            s == v@.subrange(lo as int, hi as int),
            bound <= u32::MAX,
            acc <= bound,
            scan_digits(s, i - lo, acc as int, bound as int, overflow) == scan_digits(
                s,
                start - lo,
                0,
                bound as int,
                overflow,
            ),
        decreases hi - i,
    {
        let c = v[i];
        assert(s[i - lo] == c);
        if !char_is_digit(c) {
            return IntError::InvalidDigit;
        }
        let d = char_digit_value(c);
        let next = acc * 10 + d;
        if next > bound {
            return overflow;
        }
        acc = next;
        i = i + 1;
    }
    IntError::InvalidDigit
}

/// Why `str::parse` refuses `v[lo..hi]` for an integer type whose range is
/// `-min_abs..=max`.
pub fn int_error_range(v: &Vec<char>, lo: usize, hi: usize, min_abs: u64, max: u64) -> (r: IntError)
    requires
        lo <= hi <= v.len(),
        max <= u32::MAX,
        min_abs <= u32::MAX,
    ensures
        r == int_error(v@.subrange(lo as int, hi as int), min_abs as int, max as int),
{
    let ghost s = v@.subrange(lo as int, hi as int);
    if lo == hi {
        return IntError::Empty;
    }
    assert(s[0] == v@[lo as int]);
    if (v[lo] == '+' || v[lo] == '-') && hi - lo == 1 {
        return IntError::InvalidDigit;
    }
    if v[lo] == '+' {
        return scan_digits_range(v, lo, lo + 1, hi, max, IntError::PosOverflow);
    }
    if v[lo] == '-' && min_abs > 0 {
        return scan_digits_range(v, lo, lo + 1, hi, min_abs, IntError::NegOverflow);
    }
    scan_digits_range(v, lo, lo, hi, max, IntError::PosOverflow)
}

/// `str::parse::<u32>` of a whole text.
pub fn parse_u32(text: &str) -> (r: Result<u32, IntError>)
    ensures
        match parse_unsigned(text@, u32::MAX as int) {
            Some(n) => r == Ok::<u32, IntError>(n as u32),
            None => r == Err::<u32, IntError>(int_error(text@, 0, u32::MAX as int)),
        },
{
    let v = chars_of(text);
    assert(v@.subrange(0, v@.len() as int) =~= text@);
    match parse_unsigned_range(&v, 0, v.len(), 4294967295) {
        Some(n) => Ok(n as u32),
        None => Err(int_error_range(&v, 0, v.len(), 0, 4294967295)),
    }
}

// ---------------------------------------------------------------------------
// Whitespace, trimming, splitting
// ---------------------------------------------------------------------------

/// Unicode `White_Space`, as `char::is_whitespace` defines it.
pub open spec fn is_space(c: char) -> bool {
    ||| ('\u{9}' <= c && c <= '\u{d}')
    ||| c == ' '
    ||| c == '\u{85}'
    ||| c == '\u{a0}'
    ||| c == '\u{1680}'
    ||| ('\u{2000}' <= c && c <= '\u{200a}')
    ||| c == '\u{2028}'
    ||| c == '\u{2029}'
    ||| c == '\u{202f}'
    ||| c == '\u{205f}'
    ||| c == '\u{3000}'
}

pub fn char_is_space(c: char) -> (b: bool)
    ensures
        b == is_space(c),
{
    ('\u{9}' <= c && c <= '\u{d}') || c == ' ' || c == '\u{85}' || c == '\u{a0}' || c
        == '\u{1680}' || ('\u{2000}' <= c && c <= '\u{200a}') || c == '\u{2028}' || c
        == '\u{2029}' || c == '\u{202f}' || c == '\u{205f}' || c == '\u{3000}'
}

/// Index of the first character at or after `i` that is not whitespace (or `s.len()`).
pub open spec fn skip_space(s: Seq<char>, i: int) -> int
    decreases s.len() - i,
{
    if i < s.len() && is_space(s[i]) {
        skip_space(s, i + 1)
    } else {
        i
    }
}

/// Index of the first whitespace character at or after `i` (or `s.len()`).
pub open spec fn skip_word(s: Seq<char>, i: int) -> int
    decreases s.len() - i,
{
    if i < s.len() && !is_space(s[i]) {
        skip_word(s, i + 1)
    } else {
        i
    }
}

/// End index of `s[..e]` once trailing whitespace is dropped.
pub open spec fn trim_end_index(s: Seq<char>, e: int) -> int
    decreases e,
{
    if e > 0 && is_space(s[e - 1]) {
        trim_end_index(s, e - 1)
    } else {
        e
    }
}

/// `str::trim`: the text without leading and trailing whitespace.
pub open spec fn trim(s: Seq<char>) -> Seq<char> {
    let b = skip_space(s, 0);
    let e = trim_end_index(s, s.len() as int);
    if b < e {
        s.subrange(b, e)
    } else {
        Seq::empty()
    }
}

/// `str::split_whitespace` of `s[i..]`: the maximal runs of non-whitespace characters.
pub open spec fn words_from(s: Seq<char>, i: int) -> Seq<Seq<char>>
    decreases s.len() - i,
{
    let b = skip_space(s, i);
    if i < 0 || i > s.len() || b >= s.len() {
        Seq::empty()
    } else {
        let e = skip_word(s, b);
        proof {
            lemma_skip_space_bounds(s, i);
            lemma_skip_word_bounds(s, b);
        }
        seq![s.subrange(b, e)] + words_from(s, e)
    }
}

pub open spec fn words(s: Seq<char>) -> Seq<Seq<char>> {
    words_from(s, 0)
}

pub proof fn lemma_skip_space_bounds(s: Seq<char>, i: int)
    requires
        0 <= i <= s.len(),
    ensures
        i <= skip_space(s, i) <= s.len(),
        forall|j: int| i <= j < skip_space(s, i) ==> is_space(#[trigger] s[j]),
        skip_space(s, i) < s.len() ==> !is_space(s[skip_space(s, i)]),
    decreases s.len() - i,
{
    if i < s.len() && is_space(s[i]) {
        lemma_skip_space_bounds(s, i + 1);
    }
}

pub proof fn lemma_skip_word_bounds(s: Seq<char>, i: int)
    ensures
        i < s.len() && !is_space(s[i]) && i >= 0 ==> i < skip_word(s, i) <= s.len(),
        0 <= i <= s.len() ==> i <= skip_word(s, i) <= s.len(),
        forall|j: int| i <= j < skip_word(s, i) ==> !is_space(#[trigger] s[j]),
        0 <= i && skip_word(s, i) < s.len() ==> is_space(s[skip_word(s, i)]),
    decreases s.len() - i,
{
    if i < s.len() && !is_space(s[i]) {
        lemma_skip_word_bounds(s, i + 1);
    }
}

pub proof fn lemma_trim_end_bounds(s: Seq<char>, e: int)
    requires
        0 <= e <= s.len(),
    ensures
        0 <= trim_end_index(s, e) <= e,
        forall|j: int| trim_end_index(s, e) <= j < e ==> is_space(#[trigger] s[j]),
        trim_end_index(s, e) > 0 ==> !is_space(s[trim_end_index(s, e) - 1]),
    decreases e,
{
    if e > 0 && is_space(s[e - 1]) {
        lemma_trim_end_bounds(s, e - 1);
    }
}

pub fn skip_space_exec(v: &Vec<char>, i: usize) -> (r: usize)
    requires
        i <= v.len(),
    ensures
        r == skip_space(v@, i as int),
{
    let mut j = i;
    while j < v.len() && char_is_space(v[j])
        invariant
            i <= j <= v.len(),
            skip_space(v@, i as int) == skip_space(v@, j as int),
        decreases v.len() - j,
    {
        j = j + 1;
    }
    j
}

pub fn skip_word_exec(v: &Vec<char>, i: usize) -> (r: usize)
    requires
        i <= v.len(),
    ensures
        r == skip_word(v@, i as int),
{
    let mut j = i;
    while j < v.len() && !char_is_space(v[j])
        invariant
            i <= j <= v.len(),
            skip_word(v@, i as int) == skip_word(v@, j as int),
        decreases v.len() - j,
    {
        j = j + 1;
    }
    j
}

fn trim_end_exec(v: &Vec<char>, e: usize) -> (r: usize)
    requires
        e <= v.len(),
    ensures
        r == trim_end_index(v@, e as int),
{
    let mut j = e;
    while j > 0 && char_is_space(v[j - 1])
        invariant
            j <= e <= v.len(),
            trim_end_index(v@, e as int) == trim_end_index(v@, j as int),
        decreases j,
    {
        j = j - 1;
    }
    j
}

/// The bounds `(b, e)` of `trim(v@)` within `v`.
pub fn trim_bounds(v: &Vec<char>) -> (r: (usize, usize))
    ensures
        r.0 <= r.1 <= v.len(),
        v@.subrange(r.0 as int, r.1 as int) == trim(v@),
{
    let b = skip_space_exec(v, 0);
    let e = trim_end_exec(v, v.len());
    proof {
        lemma_skip_space_bounds(v@, 0);
        lemma_trim_end_bounds(v@, v@.len() as int);
    }
    if b < e {
        (b, e)
    } else {
        (b, b)
    }
}

/// Splits `v` at whitespace, as `str::split_whitespace` does.
pub fn split_words(v: &Vec<char>) -> (r: Vec<Vec<char>>)
    ensures
        r@.len() == words(v@).len(),
        forall|k: int| 0 <= k < r@.len() ==> (#[trigger] r@[k])@ == words(v@)[k],
{
    let mut out: Vec<Vec<char>> = Vec::new();
    let mut i: usize = 0;
    while i < v.len()
        invariant
            i <= v.len(),
            out@.len() + words_from(v@, i as int).len() == words(v@).len(),
            forall|k: int| 0 <= k < out@.len() ==> (#[trigger] out@[k])@ == words(v@)[k],
            forall|k: int|
                0 <= k < words_from(v@, i as int).len() ==> words(v@)[out@.len() + k]
                    == #[trigger] words_from(v@, i as int)[k],
        decreases v.len() - i,
    {
        let b = skip_space_exec(v, i);
        proof {
            lemma_skip_space_bounds(v@, i as int);
        }
        if b >= v.len() {
            assert(words_from(v@, i as int) =~= Seq::<Seq<char>>::empty());
            i = v.len();
        } else {
            let e = skip_word_exec(v, b);
            proof {
                lemma_skip_word_bounds(v@, b as int);
            }
            let w = slice_vec(v, b, e);
            let ghost rest = words_from(v@, e as int);
            assert(words_from(v@, i as int) == seq![v@.subrange(b as int, e as int)] + rest);
            assert(words(v@)[out@.len() as int] == w@) by {
                assert(words_from(v@, i as int)[0] == v@.subrange(b as int, e as int));
            }
            assert forall|k: int| 0 <= k < rest.len() implies words(v@)[out@.len() + 1 + k]
                == #[trigger] rest[k] by {
                assert(words_from(v@, i as int)[k + 1] == rest[k]);
            }
            out.push(w);
            i = e;
        }
    }
    proof {
        if i == v.len() {
            lemma_skip_space_bounds(v@, i as int);
        }
        assert(words_from(v@, i as int).len() == 0);
    }
    out
}

// ---------------------------------------------------------------------------
// Splitting at a separator character, and lines
// ---------------------------------------------------------------------------

/// Index of the first `c` at or after `i`, or `s.len()`.
pub open spec fn find_char(s: Seq<char>, c: char, i: int) -> int
    decreases s.len() - i,
{
    if i < s.len() && s[i] != c {
        find_char(s, c, i + 1)
    } else {
        i
    }
}

pub proof fn lemma_find_char_bounds(s: Seq<char>, c: char, i: int)
    requires
        0 <= i <= s.len(),
    ensures
        i <= find_char(s, c, i) <= s.len(),
        forall|j: int| i <= j < find_char(s, c, i) ==> #[trigger] s[j] != c,
        find_char(s, c, i) < s.len() ==> s[find_char(s, c, i)] == c,
    decreases s.len() - i,
{
    if i < s.len() && s[i] != c {
        lemma_find_char_bounds(s, c, i + 1);
    }
}

pub fn find_char_exec(v: &Vec<char>, c: char, i: usize) -> (r: usize)
    requires
        i <= v.len(),
    ensures
        r == find_char(v@, c, i as int),
{
    let mut j = i;
    while j < v.len() && v[j] != c
        invariant
            i <= j <= v.len(),
            find_char(v@, c, i as int) == find_char(v@, c, j as int),
        decreases v.len() - j,
    {
        j = j + 1;
    }
    j
}

/// `str::split(c)` of `s[i..]`.
pub open spec fn split_from(s: Seq<char>, c: char, i: int) -> Seq<Seq<char>>
    decreases s.len() - i,
{
    let k = find_char(s, c, i);
    if i < 0 || i > s.len() {
        Seq::empty()
    } else if k >= s.len() {
        seq![s.subrange(i, s.len() as int)]
    } else {
        proof {
            lemma_find_char_bounds(s, c, i);
        }
        seq![s.subrange(i, k)] + split_from(s, c, k + 1)
    }
}

/// `str::split(c)`.
pub open spec fn split_at_char(s: Seq<char>, c: char) -> Seq<Seq<char>> {
    split_from(s, c, 0)
}

/// `str::lines` of `s[i..]`: pieces ending at `\n`, without the `\n` and
/// without a `\r` just before it; no piece after a final `\n`.
pub open spec fn lines_from(s: Seq<char>, i: int) -> Seq<Seq<char>>
    decreases s.len() - i,
{
    if i < 0 || i >= s.len() {
        Seq::empty()
    } else {
        let k = find_char(s, '\n', i);
        if k >= s.len() {
            seq![s.subrange(i, s.len() as int)]
        } else {
            proof {
                lemma_find_char_bounds(s, '\n', i);
            }
            let line = s.subrange(i, k);
            let line = if line.len() > 0 && line.last() == '\r' {
                line.drop_last()
            } else {
                line
            };
            seq![line] + lines_from(s, k + 1)
        }
    }
}

pub open spec fn lines(s: Seq<char>) -> Seq<Seq<char>> {
    lines_from(s, 0)
}

/// Splits `v` into lines, as `str::lines` does.
pub fn split_lines(v: &Vec<char>) -> (r: Vec<Vec<char>>)
    ensures
        r@.len() == lines(v@).len(),
        forall|k: int| 0 <= k < r@.len() ==> (#[trigger] r@[k])@ == lines(v@)[k],
{
    let mut out: Vec<Vec<char>> = Vec::new();
    let mut i: usize = 0;
    while i < v.len()
        invariant
            i <= v.len(),
            out@.len() + lines_from(v@, i as int).len() == lines(v@).len(),
            forall|k: int| 0 <= k < out@.len() ==> (#[trigger] out@[k])@ == lines(v@)[k],
            forall|k: int|
                0 <= k < lines_from(v@, i as int).len() ==> lines(v@)[out@.len() + k]
                    == #[trigger] lines_from(v@, i as int)[k],
        decreases v.len() - i,
    {
        let k = find_char_exec(v, '\n', i);
        proof {
            lemma_find_char_bounds(v@, '\n', i as int);
        }
        let mut e = k;
        if e > i && v[e - 1] == '\r' && k < v.len() {
            e = e - 1;
        }
        let line = slice_vec(v, i, e);
        let next = if k < v.len() {
            k + 1
        } else {
            v.len()
        };
        let ghost rest = lines_from(v@, next as int);
        assert(lines_from(v@, i as int) == seq![line@] + rest) by {
            if k < v.len() {
                let raw = v@.subrange(i as int, k as int);
                if raw.len() > 0 && raw.last() == '\r' {
                    assert(raw.drop_last() =~= line@);
                } else {
                    assert(raw =~= line@);
                }
            } else {
                assert(rest =~= Seq::<Seq<char>>::empty());
            }
        }
        assert(lines(v@)[out@.len() as int] == line@) by {
            assert(lines_from(v@, i as int)[0] == line@);
        }
        assert forall|j: int| 0 <= j < rest.len() implies lines(v@)[out@.len() + 1 + j]
            == #[trigger] rest[j] by {
            assert(lines_from(v@, i as int)[j + 1] == rest[j]);
        }
        out.push(line);
        i = next;
    }
    assert(lines_from(v@, i as int).len() == 0);
    out
}

/// Splits `v` at every `c`, as `str::split(c)` does.
pub fn split_at_char_exec(v: &Vec<char>, c: char) -> (r: Vec<Vec<char>>)
    ensures
        r@.len() == split_at_char(v@, c).len(),
        forall|k: int| 0 <= k < r@.len() ==> (#[trigger] r@[k])@ == split_at_char(v@, c)[k],
{
    let mut out: Vec<Vec<char>> = Vec::new();
    let mut i: usize = 0;
    loop
        invariant
            i <= v.len(),
            out@.len() + split_from(v@, c, i as int).len() == split_at_char(v@, c).len(),
            forall|k: int|
                0 <= k < out@.len() ==> (#[trigger] out@[k])@ == split_at_char(v@, c)[k],
            forall|k: int|
                0 <= k < split_from(v@, c, i as int).len() ==> split_at_char(v@, c)[out@.len()
                    + k] == #[trigger] split_from(v@, c, i as int)[k],
        decreases v.len() - i,
    {
        let k = find_char_exec(v, c, i);
        proof {
            lemma_find_char_bounds(v@, c, i as int);
        }
        let piece = slice_vec(v, i, k);
        if k >= v.len() {
            assert(split_from(v@, c, i as int) == seq![piece@]);
            assert(split_at_char(v@, c)[out@.len() as int] == piece@) by {
                assert(split_from(v@, c, i as int)[0] == piece@);
            }
            out.push(piece);
            return out;
        }
        let ghost rest = split_from(v@, c, k + 1);
        assert(split_from(v@, c, i as int) == seq![piece@] + rest);
        assert(split_at_char(v@, c)[out@.len() as int] == piece@) by {
            assert(split_from(v@, c, i as int)[0] == piece@);
        }
        assert forall|j: int| 0 <= j < rest.len() implies split_at_char(v@, c)[out@.len() + 1
            + j] == #[trigger] rest[j] by {
            assert(split_from(v@, c, i as int)[j + 1] == rest[j]);
        }
        out.push(piece);
        i = k + 1;
    }
}

// ---------------------------------------------------------------------------
// Strings and character vectors
// ---------------------------------------------------------------------------

/// The characters of `s`, in order.
pub fn chars_of(s: &str) -> (v: Vec<char>)
    ensures
        v@ == s@,
{
    let n = s.unicode_len();
    let mut v: Vec<char> = Vec::new();
    let mut i: usize = 0;
    while i < n
        invariant
            n == s@.len(),
            i <= n,
            v@ == s@.subrange(0, i as int),
        decreases n - i,
    {
        let c = s.get_char(i);
        v.push(c);
        i = i + 1;
        assert(v@ =~= s@.subrange(0, i as int));
    }
    assert(v@ =~= s@);
    v
}

/// `v[lo..hi]` as a new vector.
pub fn slice_vec(v: &Vec<char>, lo: usize, hi: usize) -> (r: Vec<char>)
    requires
        lo <= hi <= v.len(),
    ensures
        r@ == v@.subrange(lo as int, hi as int),
{
    let mut r: Vec<char> = Vec::new();
    let mut i = lo;
    while i < hi
        invariant
            lo <= i <= hi <= v.len(),
            r@ == v@.subrange(lo as int, i as int),
        decreases hi - i,
    {
        r.push(v[i]);
        i = i + 1;
        assert(r@ =~= v@.subrange(lo as int, i as int));
    }
    r
}

/// Calls `String::push`, which std documents as appending the character to
/// the end of the string: the contract claims that the characters afterwards
/// are those before, followed by `c`.
#[verifier::external_body]
pub(crate) fn push_char(s: &mut String, c: char)
    ensures
        final(s)@ == old(s)@.push(c),
{
    s.push(c);
}

/// Appends all characters of `v`.
pub fn push_chars(s: &mut String, v: &Vec<char>)
    ensures
        final(s)@ == old(s)@ + v@,
{
    let ghost start = s@;
    let mut i: usize = 0;
    while i < v.len()
        invariant
            i <= v.len(),
            s@ == start + v@.subrange(0, i as int),
        decreases v.len() - i,
    {
        push_char(s, v[i]);
        i = i + 1;
        assert(s@ =~= start + v@.subrange(0, i as int));
    }
    assert(v@.subrange(0, v.len() as int) =~= v@);
}

/// Appends all characters of `t`.
pub fn push_str(s: &mut String, t: &str)
    ensures
        final(s)@ == old(s)@ + t@,
{
    let v = chars_of(t);
    push_chars(s, &v);
}

/// A new string holding the characters of `v`.
pub fn string_of(v: &Vec<char>) -> (s: String)
    ensures
        s@ == v@,
{
    let mut s = String::new();
    push_chars(&mut s, v);
    assert(s@ =~= v@);
    s
}

/// Appends the decimal form of `n`.
pub fn push_decimal(s: &mut String, n: u64)
    ensures
        final(s)@ == old(s)@ + decimal(n as nat),
    decreases n,
{
    if n >= 10 {
        push_decimal(s, n / 10);
    }
    let d = digit_to_char((n % 10) as u8);
    push_char(s, d);
    proof {
        if n < 10 {
            assert(decimal(n as nat) =~= seq![d]);
        }
    }
}

/// Appends the decimal form of a signed number.
pub fn push_decimal_signed(s: &mut String, x: i64)
    requires
        x > i64::MIN,
    ensures
        final(s)@ == old(s)@ + decimal_signed(x as int),
{
    if x < 0 {
        let ghost start = s@;
        push_char(s, '-');
        push_decimal(s, (-x) as u64);
        assert(s@ =~= start + (seq!['-'] + decimal((-x) as nat)));
    } else {
        push_decimal(s, x as u64);
    }
}

/// Whether the characters of `a` and `b` are the same.
pub fn chars_eq(a: &Vec<char>, b: &Vec<char>) -> (r: bool)
    ensures
        r == (a@ == b@),
{
    if a.len() != b.len() {
        return false;
    }
    let mut i: usize = 0;
    while i < a.len()
        invariant
            a.len() == b.len(),
            i <= a.len(),
            forall|j: int| 0 <= j < i ==> a@[j] == b@[j],
        decreases a.len() - i,
    {
        if a[i] != b[i] {
            return false;
        }
        i = i + 1;
    }
    assert(a@ =~= b@);
    true
}

/// Whether `a` and `b` hold the same text.
pub fn str_eq(a: &str, b: &str) -> (r: bool)
    ensures
        r == (a@ == b@),
{
    let x = chars_of(a);
    let y = chars_of(b);
    chars_eq(&x, &y)
}

// ---------------------------------------------------------------------------
// Joining, and what splitting a join gives back
// ---------------------------------------------------------------------------

/// `s` holds no `c`.
pub open spec fn no_char(s: Seq<char>, c: char) -> bool {
    forall|j: int| 0 <= j < s.len() ==> #[trigger] s[j] != c
}

/// The pieces joined with `c` between them.
pub open spec fn join_with(fs: Seq<Seq<char>>, c: char) -> Seq<char>
    decreases fs.len(),
{
    if fs.len() == 0 {
        Seq::empty()
    } else if fs.len() == 1 {
        fs[0]
    } else {
        fs[0] + seq![c] + join_with(fs.drop_first(), c)
    }
}

/// Each line followed by `\n`.
pub open spec fn join_lines(ls: Seq<Seq<char>>) -> Seq<char>
    decreases ls.len(),
{
    if ls.len() == 0 {
        Seq::empty()
    } else {
        ls[0] + seq!['\n'] + join_lines(ls.drop_first())
    }
}

pub proof fn lemma_find_char_shift(p: Seq<char>, q: Seq<char>, c: char, i: int)
    requires
        0 <= i <= q.len(),
    ensures
        find_char(p + q, c, p.len() + i) == p.len() + find_char(q, c, i),
    decreases q.len() - i,
{
    if i < q.len() {
        assert((p + q)[p.len() + i] == q[i]);
        if q[i] != c {
            lemma_find_char_shift(p, q, c, i + 1);
        }
    }
}

pub proof fn lemma_split_from_shift(p: Seq<char>, q: Seq<char>, c: char, i: int)
    requires
        0 <= i <= q.len(),
    ensures
        split_from(p + q, c, p.len() + i) == split_from(q, c, i),
    decreases q.len() - i,
{
    lemma_find_char_shift(p, q, c, i);
    lemma_find_char_bounds(q, c, i);
    let k = find_char(q, c, i);
    if k < q.len() {
        lemma_split_from_shift(p, q, c, k + 1);
        assert((p + q).subrange(p.len() + i, p.len() + k) =~= q.subrange(i, k));
    } else {
        assert((p + q).subrange(p.len() + i, (p + q).len() as int) =~= q.subrange(
            i,
            q.len() as int,
        ));
    }
}

pub proof fn lemma_lines_from_shift(p: Seq<char>, q: Seq<char>, i: int)
    requires
        0 <= i <= q.len(),
    ensures
        lines_from(p + q, p.len() + i) == lines_from(q, i),
    decreases q.len() - i,
{
    if i < q.len() {
        lemma_find_char_shift(p, q, '\n', i);
        lemma_find_char_bounds(q, '\n', i);
        let k = find_char(q, '\n', i);
        if k < q.len() {
            lemma_lines_from_shift(p, q, k + 1);
            assert((p + q).subrange(p.len() + i, p.len() + k) =~= q.subrange(i, k));
        } else {
            assert((p + q).subrange(p.len() + i, (p + q).len() as int) =~= q.subrange(
                i,
                q.len() as int,
            ));
        }
    }
}

/// Splitting pieces joined with `c` at `c` gives the pieces back, when no piece holds `c`.
pub proof fn lemma_split_join(fs: Seq<Seq<char>>, c: char)
    requires
        fs.len() >= 1,
        forall|i: int| 0 <= i < fs.len() ==> no_char(#[trigger] fs[i], c),
    ensures
        split_at_char(join_with(fs, c), c) == fs,
    decreases fs.len(),
{
    let f0 = fs[0];
    assert(no_char(f0, c));
    if fs.len() == 1 {
        let s = join_with(fs, c);
        assert(s == f0);
        lemma_find_char_none(f0, c, 0);
        assert(f0.subrange(0, f0.len() as int) =~= f0);
        assert(split_at_char(s, c) =~= fs);
    } else {
        let rest = fs.drop_first();
        assert forall|i: int| 0 <= i < rest.len() implies no_char(#[trigger] rest[i], c) by {
            assert(rest[i] == fs[i + 1]);
        }
        lemma_split_join(rest, c);
        let tail = join_with(rest, c);
        let head = f0 + seq![c];
        let s = join_with(fs, c);
        assert(s == head + tail);
        lemma_find_char_none(f0, c, 0);
        lemma_find_char_shift(f0, seq![c] + tail, c, 0);
        assert(f0 + (seq![c] + tail) == s);
        assert((seq![c] + tail)[0] == c);
        assert(find_char(seq![c] + tail, c, 0) == 0);
        assert forall|k: int| 0 <= k < f0.len() implies #[trigger] s[k] != c by {
            assert(s[k] == f0[k]);
        }
        lemma_find_char_skip(s, c, 0, f0.len() as int);
        assert(find_char(s, c, 0) == f0.len());
        lemma_split_from_shift(head, tail, c, 0);
        assert(s.subrange(0, f0.len() as int) =~= f0);
        assert(split_at_char(s, c) =~= fs);
    }
}

pub proof fn lemma_find_char_skip(s: Seq<char>, c: char, i: int, j: int)
    requires
        0 <= i <= j <= s.len(),
        forall|k: int| i <= k < j ==> #[trigger] s[k] != c,
    ensures
        find_char(s, c, i) == find_char(s, c, j),
    decreases j - i,
{
    if i < j {
        lemma_find_char_skip(s, c, i + 1, j);
    }
}

pub proof fn lemma_find_char_none(s: Seq<char>, c: char, i: int)
    requires
        0 <= i <= s.len(),
        no_char(s, c),
    ensures
        find_char(s, c, i) == s.len(),
    decreases s.len() - i,
{
    if i < s.len() {
        lemma_find_char_none(s, c, i + 1);
    }
}

/// Splitting lines each followed by `\n` gives the lines back, when no line
/// holds `\n` or ends with `\r`.
pub proof fn lemma_lines_join(ls: Seq<Seq<char>>)
    requires
        forall|i: int|
            0 <= i < ls.len() ==> no_char(#[trigger] ls[i], '\n') && !(ls[i].len() > 0
                && ls[i].last() == '\r'),
    ensures
        lines(join_lines(ls)) == ls,
    decreases ls.len(),
{
    if ls.len() == 0 {
        assert(lines(join_lines(ls)) =~= ls);
    } else {
        let l0 = ls[0];
        assert(no_char(l0, '\n'));
        let rest = ls.drop_first();
        assert forall|i: int| 0 <= i < rest.len() implies no_char(#[trigger] rest[i], '\n') && !(
        rest[i].len() > 0 && rest[i].last() == '\r') by {
            assert(rest[i] == ls[i + 1]);
        }
        lemma_lines_join(rest);
        let tail = join_lines(rest);
        let head = l0 + seq!['\n'];
        let s = join_lines(ls);
        assert(s == head + tail);
        lemma_find_char_none(l0, '\n', 0);
        lemma_find_char_shift(l0, seq!['\n'] + tail, '\n', 0);
        assert(l0 + (seq!['\n'] + tail) == s);
        assert((seq!['\n'] + tail)[0] == '\n');
        assert(find_char(seq!['\n'] + tail, '\n', 0) == 0);
        assert forall|k: int| 0 <= k < l0.len() implies #[trigger] s[k] != '\n' by {
            assert(s[k] == l0[k]);
        }
        lemma_find_char_skip(s, '\n', 0, l0.len() as int);
        assert(find_char(s, '\n', 0) == l0.len());
        lemma_lines_from_shift(head, tail, 0);
        assert(s.subrange(0, l0.len() as int) =~= l0);
        assert(lines(s) =~= ls);
    }
}

/// Splitting at whitespace a text made of a word, one space and more text:
/// the word comes first.
pub proof fn lemma_words_cons(w: Seq<char>, rest: Seq<char>)
    requires
        w.len() > 0,
        forall|j: int| 0 <= j < w.len() ==> !is_space(#[trigger] w[j]),
    ensures
        words(w + seq![' '] + rest) == seq![w] + words(rest),
{
    let s = w + seq![' '] + rest;
    assert(s[0] == w[0]);
    assert(skip_space(s, 0) == 0);
    lemma_skip_word_to(s, 0, w.len() as int);
    assert(s[w.len() as int] == ' ');
    assert(skip_word(s, w.len() as int) == w.len());
    assert(s.subrange(0, w.len() as int) =~= w);
    lemma_words_from_shift(w + seq![' '], rest, 0);
    assert(skip_space(s, w.len() as int) == skip_space(s, w.len() as int + 1));
    lemma_words_from_space(s, w.len() as int);
}

proof fn lemma_skip_word_to(s: Seq<char>, i: int, e: int)
    requires
        0 <= i <= e <= s.len(),
        forall|j: int| i <= j < e ==> !is_space(#[trigger] s[j]),
    ensures
        skip_word(s, i) == skip_word(s, e),
    decreases e - i,
{
    if i < e {
        lemma_skip_word_to(s, i + 1, e);
    }
}

proof fn lemma_words_from_space(s: Seq<char>, i: int)
    requires
        0 <= i < s.len(),
        is_space(s[i]),
    ensures
        words_from(s, i) == words_from(s, i + 1),
{
    assert(skip_space(s, i) == skip_space(s, i + 1));
}

pub proof fn lemma_words_from_shift(p: Seq<char>, q: Seq<char>, i: int)
    requires
        0 <= i <= q.len(),
    ensures
        words_from(p + q, p.len() + i) == words_from(q, i),
    decreases q.len() - i,
{
    lemma_skip_space_shift(p, q, i);
    lemma_skip_space_bounds(q, i);
    let b = skip_space(q, i);
    if b < q.len() {
        lemma_skip_word_shift(p, q, b);
        lemma_skip_word_bounds(q, b);
        let e = skip_word(q, b);
        lemma_words_from_shift(p, q, e);
        assert((p + q).subrange(p.len() + b, p.len() + e) =~= q.subrange(b, e));
    }
}

proof fn lemma_skip_space_shift(p: Seq<char>, q: Seq<char>, i: int)
    requires
        0 <= i <= q.len(),
    ensures
        skip_space(p + q, p.len() + i) == p.len() + skip_space(q, i),
    decreases q.len() - i,
{
    if i < q.len() {
        assert((p + q)[p.len() + i] == q[i]);
        if is_space(q[i]) {
            lemma_skip_space_shift(p, q, i + 1);
        }
    }
}

proof fn lemma_skip_word_shift(p: Seq<char>, q: Seq<char>, i: int)
    requires
        0 <= i <= q.len(),
    ensures
        skip_word(p + q, p.len() + i) == p.len() + skip_word(q, i),
    decreases q.len() - i,
{
    if i < q.len() {
        assert((p + q)[p.len() + i] == q[i]);
        if !is_space(q[i]) {
            lemma_skip_word_shift(p, q, i + 1);
        }
    }
}

/// A single word with no whitespace splits to itself.
pub proof fn lemma_words_single(w: Seq<char>)
    requires
        w.len() > 0,
        forall|j: int| 0 <= j < w.len() ==> !is_space(#[trigger] w[j]),
    ensures
        words(w) == seq![w],
{
    assert(skip_space(w, 0) == 0);
    lemma_skip_word_to(w, 0, w.len() as int);
    assert(skip_word(w, w.len() as int) == w.len());
    assert(w.subrange(0, w.len() as int) =~= w);
    assert(words_from(w, w.len() as int) =~= Seq::<Seq<char>>::empty());
    assert(words(w) =~= seq![w]);
}

/// Trimming a text followed by a newline drops the newline.
pub proof fn lemma_trim_newline(s: Seq<char>)
    requires
        s.len() > 0,
        !is_space(s[0]),
        !is_space(s.last()),
    ensures
        trim(s + seq!['\n']) == s,
{
    let t = s + seq!['\n'];
    assert(t[0] == s[0]);
    assert(skip_space(t, 0) == 0);
    assert(t[t.len() - 1] == '\n');
    assert(t[s.len() - 1] == s.last());
    assert(trim_end_index(t, t.len() as int) == trim_end_index(t, s.len() as int));
    assert(trim_end_index(t, s.len() as int) == s.len());
    assert(t.subrange(0, s.len() as int) =~= s);
}

/// Appending a line to the lines appends it, with its newline, to their join.
pub proof fn lemma_join_lines_push(ls: Seq<Seq<char>>, l: Seq<char>)
    ensures
        join_lines(ls.push(l)) == join_lines(ls) + l + seq!['\n'],
    decreases ls.len(),
{
    if ls.len() == 0 {
        assert(ls.push(l).drop_first() =~= Seq::<Seq<char>>::empty());
        assert(ls.push(l)[0] == l);
        assert(join_lines(ls.push(l).drop_first()) == Seq::<char>::empty());
        assert(join_lines(ls) == Seq::<char>::empty());
        assert(join_lines(ls.push(l)) =~= l + seq!['\n']);
    } else {
        lemma_join_lines_push(ls.drop_first(), l);
        assert(ls.push(l).drop_first() =~= ls.drop_first().push(l));
        assert(join_lines(ls.push(l)) =~= join_lines(ls) + l + seq!['\n']);
    }
}

/// Reads the whole number in a text such as a sysfs attribute: the text
/// without surrounding whitespace, parsed as a `u32`.
pub fn parse_trimmed_u32(text: &str) -> (r: Result<u32, IntError>)
    ensures
        match parse_unsigned(trim(text@), u32::MAX as int) {
            Some(n) => r == Ok::<u32, IntError>(n as u32),
            None => r == Err::<u32, IntError>(int_error(trim(text@), 0, u32::MAX as int)),
        },
{
    let v = chars_of(text);
    let (b, e) = trim_bounds(&v);
    match parse_unsigned_range(&v, b, e, 4294967295) {
        Some(n) => Ok(n as u32),
        None => Err(int_error_range(&v, b, e, 0, 4294967295)),
    }
}

} // verus!
