//! Brightness changes written as percentages: `50%`, `+5%`, `-5%`, `*120%`, `/120%`.
use vstd::prelude::*;

use crate::text::{
    chars_of, int_error, int_error_message, int_error_range, IntError, decimal, is_digit, lemma_decimal, lemma_parse_decimal, parse_signed, parse_signed_range,
    parse_unsigned, parse_unsigned_range,
};

verus! {

/// A requested change of a brightness percentage.
#[derive(Clone, Copy, Debug, PartialEq, Eq, Structural)]
pub enum PercentChange {
    /// Set the brightness to this percentage.
    Absolute(u8),
    /// Add this many percentage points.
    Delta(i8),
    /// Multiply by this many percent.
    Multiply(u16),
    /// Divide by this many percent.
    Divide(u16),
}

/// Why a brightness change could not be parsed.
#[derive(Clone, Copy, Debug, PartialEq, Eq, Structural)]
pub enum LevelError {
    /// The value does not end with `%`.
    MissingPercentSign,
    /// The number is not a valid integer of its type, for this reason.
    InvalidNumber(IntError),
    /// An absolute percentage above 100.
    PercentOutOfRange,
    /// A delta above 100.
    DeltaOutOfRange,
    /// A factor of 0%.
    ZeroFactor,
}

impl LevelError {
    /// The text that explains the error.
    pub fn message(&self) -> (s: &'static str)
        ensures
            self is MissingPercentSign ==> s@ == "brightness value must end with %"@,
            *self matches LevelError::InvalidNumber(e) ==> s@ == int_error_message(e),
            self is PercentOutOfRange ==> s@ == "brightness percent must be between 0 and 100"@,
            self is DeltaOutOfRange ==> s@ == "brightness delta must be between -100 and 100"@,
            self is ZeroFactor ==> s@ == "brightness factor must be greater than 0%"@,
    {
        match self {
            LevelError::MissingPercentSign => "brightness value must end with %",
            LevelError::InvalidNumber(e) => e.message(),
            LevelError::PercentOutOfRange => "brightness percent must be between 0 and 100",
            LevelError::DeltaOutOfRange => "brightness delta must be between -100 and 100",
            LevelError::ZeroFactor => "brightness factor must be greater than 0%",
        }
    }
}

impl PercentChange {
    /// Whether applying the change needs the current brightness.
    pub open spec fn is_relative(self) -> bool {
        !(self is Absolute)
    }

    /// Whether applying the change needs the current brightness.
    pub fn needs_current(&self) -> (b: bool)
        ensures
            b == self.is_relative(),
    {
        !matches!(self, PercentChange::Absolute(_))
    }
}

/// A delta: an `i8` no greater than 100.
pub open spec fn spec_parse_delta(s: Seq<char>) -> Result<int, LevelError> {
    match parse_signed(s, -128, 127) {
        None => Err(LevelError::InvalidNumber(int_error(s, 128, 127))),
        Some(d) => if d > 100 {
            Err(LevelError::DeltaOutOfRange)
        } else {
            Ok(d)
        },
    }
}

/// A factor: a nonzero `u16`.
pub open spec fn spec_parse_factor(s: Seq<char>) -> Result<int, LevelError> {
    match parse_unsigned(s, 65535) {
        None => Err(LevelError::InvalidNumber(int_error(s, 0, 65535))),
        Some(f) => if f == 0 {
            Err(LevelError::ZeroFactor)
        } else {
            Ok(f)
        },
    }
}

/// The change that a text such as `+5%` denotes.
pub open spec fn spec_parse_percent_change(s: Seq<char>) -> Result<PercentChange, LevelError> {
    if !(s.len() > 0 && s.last() == '%') {
        Err(LevelError::MissingPercentSign)
    } else {
        let v = s.drop_last();
        if v.len() > 0 && v[0] == '+' {
            match spec_parse_delta(v.drop_first()) {
                Ok(d) => Ok(PercentChange::Delta(d as i8)),
                Err(e) => Err(e),
            }
        } else if v.len() > 0 && v[0] == '-' {
            match spec_parse_delta(v.drop_first()) {
                Ok(d) => Ok(PercentChange::Delta((-d) as i8)),
                Err(e) => Err(e),
            }
        } else if v.len() > 0 && v[0] == '*' {
            match spec_parse_factor(v.drop_first()) {
                Ok(f) => Ok(PercentChange::Multiply(f as u16)),
                Err(e) => Err(e),
            }
        } else if v.len() > 0 && v[0] == '/' {
            match spec_parse_factor(v.drop_first()) {
                Ok(f) => Ok(PercentChange::Divide(f as u16)),
                Err(e) => Err(e),
            }
        } else {
            match parse_unsigned(v, 255) {
                None => Err(LevelError::InvalidNumber(int_error(v, 0, 255))),
                Some(p) => if p > 100 {
                    Err(LevelError::PercentOutOfRange)
                } else {
                    Ok(PercentChange::Absolute(p as u8))
                },
            }
        }
    }
}

/// The text is a `-` delta whose negation does not fit in an `i8` (such as `--128%`).
pub open spec fn negated_delta_overflows(s: Seq<char>) -> bool {
    &&& s.len() > 0
    &&& s.last() == '%'
    &&& s.drop_last().len() > 0
    &&& s.drop_last()[0] == '-'
    &&& spec_parse_delta(s.drop_last().drop_first()) == Ok::<int, LevelError>(-128)
}

fn parse_delta(v: &Vec<char>, lo: usize, hi: usize) -> (r: Result<i8, LevelError>)
    requires
        lo <= hi <= v.len(),
    ensures
        match r {
            Ok(d) => spec_parse_delta(v@.subrange(lo as int, hi as int)) == Ok::<
                int,
                LevelError,
            >(d as int),
            Err(e) => spec_parse_delta(v@.subrange(lo as int, hi as int)) == Err::<
                int,
                LevelError,
            >(e),
        },
{
    match parse_signed_range(v, lo, hi, 128, 127) {
        None => Err(LevelError::InvalidNumber(int_error_range(v, lo, hi, 128, 127))),
        Some(d) => {
            if d > 100 {
                Err(LevelError::DeltaOutOfRange)
            } else {
                Ok(d as i8)
            }
        },
    }
}

fn parse_factor(v: &Vec<char>, lo: usize, hi: usize) -> (r: Result<u16, LevelError>)
    requires
        lo <= hi <= v.len(),
    ensures
        match r {
            Ok(f) => spec_parse_factor(v@.subrange(lo as int, hi as int)) == Ok::<
                int,
                LevelError,
            >(f as int),
            Err(e) => spec_parse_factor(v@.subrange(lo as int, hi as int)) == Err::<
                int,
                LevelError,
            >(e),
        },
{
    match parse_unsigned_range(v, lo, hi, 65535) {
        None => Err(LevelError::InvalidNumber(int_error_range(v, lo, hi, 0, 65535))),
        Some(f) => {
            if f == 0 {
                Err(LevelError::ZeroFactor)
            } else {
                Ok(f as u16)
            }
        },
    }
}

/// Parses a brightness change such as `50%`, `+5%`, `-5%`, `*120%` or `/120%`.
pub fn parse_percent_change(value: &str) -> (r: Result<PercentChange, LevelError>)
    requires
        !negated_delta_overflows(value@),
    ensures
        r == spec_parse_percent_change(value@),
{
    let v = chars_of(value);
    let n = v.len();
    if n == 0 || v[n - 1] != '%' {
        return Err(LevelError::MissingPercentSign);
    }
    let ghost body = value@.drop_last();
    assert(body =~= v@.subrange(0, n - 1));
    let e = n - 1;
    if e > 0 && v[0] == '+' {
        assert(body.drop_first() =~= v@.subrange(1, e as int));
        return match parse_delta(&v, 1, e) {
            Ok(d) => Ok(PercentChange::Delta(d)),
            Err(err) => Err(err),
        };
    }
    if e > 0 && v[0] == '-' {
        assert(body.drop_first() =~= v@.subrange(1, e as int));
        return match parse_delta(&v, 1, e) {
            Ok(d) => Ok(PercentChange::Delta(-d)),
            Err(err) => Err(err),
        };
    }
    if e > 0 && v[0] == '*' {
        assert(body.drop_first() =~= v@.subrange(1, e as int));
        return match parse_factor(&v, 1, e) {
            Ok(f) => Ok(PercentChange::Multiply(f)),
            Err(err) => Err(err),
        };
    }
    if e > 0 && v[0] == '/' {
        assert(body.drop_first() =~= v@.subrange(1, e as int));
        return match parse_factor(&v, 1, e) {
            Ok(f) => Ok(PercentChange::Divide(f)),
            Err(err) => Err(err),
        };
    }
    match parse_unsigned_range(&v, 0, e, 255) {
        None => Err(LevelError::InvalidNumber(int_error_range(&v, 0, e, 0, 255))),
        Some(p) => {
            if p > 100 {
                Err(LevelError::PercentOutOfRange)
            } else {
                Ok(PercentChange::Absolute(p as u8))
            }
        },
    }
}

// ---------------------------------------------------------------------------
// Applying a change
// ---------------------------------------------------------------------------

pub open spec fn clamp(x: int, lo: int, hi: int) -> int {
    if x < lo {
        lo
    } else if x > hi {
        hi
    } else {
        x
    }
}

/// `x as i16` for a `u32`: the low 16 bits read as a signed number.
pub open spec fn low_i16(x: u32) -> int {
    let m = x as int % 65536;
    if m >= 32768 {
        m - 65536
    } else {
        m
    }
}

/// `(current * factor + 50) / 100`, rounded percentage of a product.
pub open spec fn scaled_up(current: int, factor: int) -> int {
    (current * factor + 50) / 100
}

/// `(current * 100 + factor / 2) / factor`, rounded percentage of a quotient.
pub open spec fn scaled_down(current: int, factor: int) -> int {
    (current * 100 + factor / 2) / factor
}

/// The percentage that results from applying `change` to `current`.
pub open spec fn spec_apply_percent_change(current: Option<u32>, change: PercentChange) -> int {
    let cur = current.unwrap() as int;
    match change {
        PercentChange::Absolute(p) => p as int,
        PercentChange::Delta(d) => clamp(low_i16(current.unwrap()) + d as int, 0, 100),
        PercentChange::Multiply(f) => {
            let p = clamp(scaled_up(cur, f as int), 0, 100);
            if p == cur && f > 100 && cur < 100 {
                cur + 1
            } else if p == cur && f < 100 && cur > 0 {
                cur - 1
            } else {
                p
            }
        },
        PercentChange::Divide(f) => {
            let p = clamp(scaled_down(cur, f as int), 0, 100);
            if p == cur && f > 100 && cur > 0 {
                cur - 1
            } else if p == cur && f < 100 && cur < 100 {
                cur + 1
            } else {
                p
            }
        },
    }
}

/// The inputs on which applying a change is defined: a current value for a
/// relative change, a nonzero divisor, and no overflow of `u32` arithmetic.
pub open spec fn percent_change_applicable(current: Option<u32>, change: PercentChange) -> bool {
    &&& change.is_relative() ==> current is Some
    &&& change matches PercentChange::Multiply(f) ==> current.unwrap() as int * f as int + 50
        <= u32::MAX
    &&& change matches PercentChange::Divide(f) ==> f > 0 && current.unwrap() as int * 100 + f
        as int / 2 <= u32::MAX
}

/// Applies `change` to the current percentage `current`.
///
/// A multiplication or division that would round back to the current value
/// still moves it by one point in the requested direction.
pub fn apply_percent_change(current: Option<u32>, change: PercentChange) -> (r: u8)
    requires
        percent_change_applicable(current, change),
    ensures
        r as int == spec_apply_percent_change(current, change),
{
    match change {
        PercentChange::Absolute(percent) => percent,
        PercentChange::Delta(delta) => {
            let cur = current.unwrap();
            let m = (cur % 65536) as i32;
            let c: i32 = if m >= 32768 {
                m - 65536
            } else {
                m
            };
            let sum: i32 = c + delta as i32;
            if sum < 0 {
                0
            } else if sum > 100 {
                100
            } else {
                sum as u8
            }
        },
        PercentChange::Multiply(factor) => {
            let cur = current.unwrap();
            let raw = (cur * factor as u32 + 50) / 100;
            let percent = if raw > 100 {
                100
            } else {
                raw
            };
            if percent == cur && factor > 100 && cur < 100 {
                (cur + 1) as u8
            } else if percent == cur && factor < 100 && cur > 0 {
                (cur - 1) as u8
            } else {
                percent as u8
            }
        },
        PercentChange::Divide(factor) => {
            let cur = current.unwrap();
            let raw = (cur * 100 + factor as u32 / 2) / factor as u32;
            let percent = if raw > 100 {
                100
            } else {
                raw
            };
            if percent == cur && factor > 100 && cur > 0 {
                (cur - 1) as u8
            } else if percent == cur && factor < 100 && cur < 100 {
                (cur + 1) as u8
            } else {
                percent as u8
            }
        },
    }
}

// ---------------------------------------------------------------------------
// Laws
// ---------------------------------------------------------------------------

/// A relative change always yields a percentage between 0 and 100.
pub proof fn lemma_relative_change_in_range(current: u32, change: PercentChange)
    requires
        change.is_relative(),
        percent_change_applicable(Some(current), change),
    ensures
        0 <= spec_apply_percent_change(Some(current), change) <= 100,
{
    assert(change.is_relative());
    match change {
        PercentChange::Multiply(f) => {
            assert(scaled_up(current as int, f as int) >= 0) by (nonlinear_arith)
                requires
                    current >= 0,
                    f >= 0,
            ;
        },
        PercentChange::Divide(f) => {
            assert(scaled_down(current as int, f as int) >= 0) by (nonlinear_arith)
                requires
                    current >= 0,
                    f > 0,
            ;
        },
        _ => {},
    }
}

/// Multiplying by more than 100% raises a brightness below 100%, and by less
/// than 100% lowers a brightness above 0%; dividing does the opposite.
pub proof fn lemma_scaling_always_moves(current: u32, factor: u16)
    requires
        current as int * factor as int + 50 <= u32::MAX,
        factor > 0,
        current as int * 100 + factor as int / 2 <= u32::MAX,
    ensures
        factor > 100 && current < 100 ==> spec_apply_percent_change(
            Some(current),
            PercentChange::Multiply(factor),
        ) > current,
        factor < 100 && current > 0 ==> spec_apply_percent_change(
            Some(current),
            PercentChange::Multiply(factor),
        ) < current,
        factor > 100 && current > 0 ==> spec_apply_percent_change(
            Some(current),
            PercentChange::Divide(factor),
        ) < current,
        factor < 100 && current < 100 ==> spec_apply_percent_change(
            Some(current),
            PercentChange::Divide(factor),
        ) > current,
{
    let c = current as int;
    let f = factor as int;
    if f > 100 {
        assert(scaled_up(c, f) >= c) by (nonlinear_arith)
            requires
                c >= 0,
                f > 100,
        ;
        assert(scaled_down(c, f) <= c) by (nonlinear_arith)
            requires
                c >= 0,
                f > 100,
        ;
    }
    if f < 100 {
        assert(scaled_up(c, f) <= c) by (nonlinear_arith)
            requires
                c >= 0,
                0 < f < 100,
        ;
        assert(scaled_down(c, f) >= c) by (nonlinear_arith)
            requires
                c >= 0,
                0 < f < 100,
        ;
    }
}

/// Parsing `N%` for a percentage `N` gives `Absolute(N)`.
pub proof fn lemma_parse_absolute(p: nat)
    requires
        p <= 100,
    ensures
        spec_parse_percent_change(decimal(p).push('%')) == Ok::<PercentChange, LevelError>(
            PercentChange::Absolute(p as u8),
        ),
{
    let s = decimal(p).push('%');
    assert(s.drop_last() =~= decimal(p));
    lemma_decimal(p);
    lemma_parse_decimal(p, 255);
    assert(decimal(p)[0] != '*' && decimal(p)[0] != '/') by {
        assert(is_digit(decimal(p)[0]));
    }
}

/// Parsing `+D%` and `-D%` for a delta `D` of at most 100 gives `Delta(D)`
/// and `Delta(-D)`.
pub proof fn lemma_parse_delta(d: nat)
    requires
        d <= 100,
    ensures
        spec_parse_percent_change(seq!['+'] + decimal(d) + seq!['%']) == Ok::<PercentChange, LevelError>(
            PercentChange::Delta(d as i8),
        ),
        spec_parse_percent_change(seq!['-'] + decimal(d) + seq!['%']) == Ok::<PercentChange, LevelError>(
            PercentChange::Delta((-(d as int)) as i8),
        ),
{
    lemma_decimal(d);
    lemma_parse_decimal(d, 127);
    assert(parse_signed(decimal(d), -128, 127) == Some(d as int));
    let plus = seq!['+'] + decimal(d) + seq!['%'];
    let minus = seq!['-'] + decimal(d) + seq!['%'];
    assert(plus.drop_last() =~= seq!['+'] + decimal(d));
    assert(plus.drop_last().drop_first() =~= decimal(d));
    assert(minus.drop_last() =~= seq!['-'] + decimal(d));
    assert(minus.drop_last().drop_first() =~= decimal(d));
}

/// Parsing `*F%` and `/F%` for a nonzero factor `F` gives `Multiply(F)` and
/// `Divide(F)`.
pub proof fn lemma_parse_factor(f: nat)
    requires
        1 <= f <= 65535,
    ensures
        spec_parse_percent_change(seq!['*'] + decimal(f) + seq!['%']) == Ok::<PercentChange, LevelError>(
            PercentChange::Multiply(f as u16),
        ),
        spec_parse_percent_change(seq!['/'] + decimal(f) + seq!['%']) == Ok::<PercentChange, LevelError>(
            PercentChange::Divide(f as u16),
        ),
{
    lemma_decimal(f);
    lemma_parse_decimal(f, 65535);
    let times = seq!['*'] + decimal(f) + seq!['%'];
    let over = seq!['/'] + decimal(f) + seq!['%'];
    assert(times.drop_last() =~= seq!['*'] + decimal(f));
    assert(times.drop_last().drop_first() =~= decimal(f));
    assert(over.drop_last() =~= seq!['/'] + decimal(f));
    assert(over.drop_last().drop_first() =~= decimal(f));
}

/// An absolute change sets its own percentage, and a delta from a current
/// percentage of at most 100 adds the delta, stopping at 0 and at 100.
pub proof fn lemma_absolute_and_delta(current: u32, change: PercentChange)
    ensures
        change matches PercentChange::Absolute(p) ==> spec_apply_percent_change(Some(current), change)
            == p,
        change matches PercentChange::Delta(d) ==> (current <= 100 ==> spec_apply_percent_change(
            Some(current),
            change,
        ) == if current + d < 0 {
            0
        } else if current + d > 100 {
            100
        } else {
            current + d
        }),
{
}

} // verus!
