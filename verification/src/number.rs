//! Parsers of numbers in text.

use crate::error::Error as Stack;
use crate::input::{
    lemma_tail_at_compose, lemma_tail_reflexive, lemma_tail_round_trip, lemma_tail_transitive,
    lemma_utf8_len_step, utf8_len, Input,
};
use crate::parse::{PResult, Parse};
use crate::predicate::{digit_value, is_digit, to_digit, Digit};
use crate::span::Span;
use crate::string::{
    common_prefix, end_of, failed, lemma_run_length, matched, run_length, scan_common, scan_run,
    unmatched_at, Error, IntErrorKind,
};
use core::marker::PhantomData;
use vstd::prelude::*;
use vstd::std_specs::iter::IteratorSpec;

verus! {

/// The number that a text of decimal digits stands for.
pub open spec fn decimal_value(digits: Seq<char>) -> nat
    decreases digits.len(),
{
    if digits.len() == 0 {
        0
    } else {
        decimal_value(digits.drop_last()) * 10 + match digit_value(digits.last()) {
            Some(v) => v as nat,
            None => 0,
        }
    }
}

/// A longer prefix of a text of digits stands for no smaller a number.
pub proof fn lemma_decimal_value_grows(digits: Seq<char>, i: int)
    requires
        0 <= i <= digits.len(),
    ensures
        decimal_value(digits.take(i)) <= decimal_value(digits),
    decreases digits.len() - i,
{
    if i < digits.len() {
        lemma_decimal_value_grows(digits, i + 1);
        assert(digits.take(i + 1).drop_last() =~= digits.take(i));
    } else {
        assert(digits.take(i) =~= digits);
    }
}

/// Converts a text of decimal digits to the number that it stands for, if
/// that number is at most `max`.
pub fn to_number(digits: &str, max: u64) -> (r: Option<u64>)
    requires
        forall|i: int| 0 <= i < digits@.len() ==> is_digit(#[trigger] digits@[i], 10),
    ensures
        match r {
            Some(v) => v == decimal_value(digits@) && v <= max,
            None => decimal_value(digits@) > max,
        },
{
    broadcast use vstd::string::group_string_axioms;

    let mut chars = digits.chars();
    let mut value: u64 = 0;
    let ghost mut count: int = 0;
    proof {
        assert(digits@.skip(0) =~= digits@);
        assert(digits@.take(0) =~= Seq::<char>::empty());
    }
    loop
        invariant_except_break
            chars.remaining() == digits@.skip(count),
        invariant
            0 <= count <= digits@.len(),
            value == decimal_value(digits@.take(count)),
            value <= max,
            forall|i: int| 0 <= i < digits@.len() ==> is_digit(#[trigger] digits@[i], 10),
        ensures
            count == digits@.len(),
        decreases digits@.len() - count,
    {
        match chars.next() {
            None => {
                break ;
            },
            Some(c) => {
                assert(c == digits@[count]);
                proof {
                    assert(digits@.take(count + 1).drop_last() =~= digits@.take(count));
                    assert(digits@.take(count + 1).last() == c);
                }
                let digit: u64 = match to_digit(c, 10) {
                    Some(d) => d as u64,
                    None => 0,
                };
                let next: u128 = value as u128 * 10 + digit as u128;
                if next > max as u128 {
                    proof {
                        lemma_decimal_value_grows(digits@, count + 1);
                    }
                    return None;
                }
                value = next as u64;
                proof {
                    count = count + 1;
                }
            },
        }
    }
    proof {
        assert(digits@.take(count) =~= digits@);
    }
    Some(value)
}

/// An integer type that a decimal number in text is converted to.
pub trait Integer: Sized {
    /// The least value of the type.
    spec fn least() -> int;

    /// The greatest value of the type.
    spec fn greatest() -> int;

    /// The integer that a value of the type stands for.
    spec fn value(self) -> int;

    /// Zero is a value of the type.
    proof fn lemma_zero_in_range()
        ensures
            Self::least() <= 0 <= Self::greatest(),
    ;

    /// Whether a number of this type may begin with a sign.
    fn signed() -> (r: bool)
        ensures
            r == (Self::least() < 0),
    ;

    /// The greatest magnitude of a value with the given sign.
    fn limit(negative: bool) -> (r: u64)
        ensures
            r == if negative {
                -Self::least()
            } else {
                Self::greatest()
            },
    ;

    /// The value with the given sign and magnitude.
    fn compose(negative: bool, magnitude: u64) -> (r: Self)
        requires
            magnitude <= if negative {
                -Self::least()
            } else {
                Self::greatest()
            },
        ensures
            r.value() == if negative {
                -(magnitude as int)
            } else {
                magnitude as int
            },
    ;
}

impl Integer for u8 {
    open spec fn least() -> int {
        0
    }

    open spec fn greatest() -> int {
        u8::MAX as int
    }

    open spec fn value(self) -> int {
        self as int
    }

    proof fn lemma_zero_in_range() {
    }

    fn signed() -> (r: bool) {
        false
    }

    fn limit(negative: bool) -> (r: u64) {
        if negative {
            0
        } else {
            u8::MAX as u64
        }
    }

    fn compose(negative: bool, magnitude: u64) -> (r: Self) {
        magnitude as u8
    }
}

impl Integer for u16 {
    open spec fn least() -> int {
        0
    }

    open spec fn greatest() -> int {
        u16::MAX as int
    }

    open spec fn value(self) -> int {
        self as int
    }

    proof fn lemma_zero_in_range() {
    }

    fn signed() -> (r: bool) {
        false
    }

    fn limit(negative: bool) -> (r: u64) {
        if negative {
            0
        } else {
            u16::MAX as u64
        }
    }

    fn compose(negative: bool, magnitude: u64) -> (r: Self) {
        magnitude as u16
    }
}

impl Integer for u32 {
    open spec fn least() -> int {
        0
    }

    open spec fn greatest() -> int {
        u32::MAX as int
    }

    open spec fn value(self) -> int {
        self as int
    }

    proof fn lemma_zero_in_range() {
    }

    fn signed() -> (r: bool) {
        false
    }

    fn limit(negative: bool) -> (r: u64) {
        if negative {
            0
        } else {
            u32::MAX as u64
        }
    }

    fn compose(negative: bool, magnitude: u64) -> (r: Self) {
        magnitude as u32
    }
}

impl Integer for u64 {
    open spec fn least() -> int {
        0
    }

    open spec fn greatest() -> int {
        u64::MAX as int
    }

    open spec fn value(self) -> int {
        self as int
    }

    proof fn lemma_zero_in_range() {
    }

    fn signed() -> (r: bool) {
        false
    }

    fn limit(negative: bool) -> (r: u64) {
        if negative {
            0
        } else {
            u64::MAX as u64
        }
    }

    fn compose(negative: bool, magnitude: u64) -> (r: Self) {
        magnitude as u64
    }
}

impl Integer for usize {
    open spec fn least() -> int {
        0
    }

    open spec fn greatest() -> int {
        usize::MAX as int
    }

    open spec fn value(self) -> int {
        self as int
    }

    proof fn lemma_zero_in_range() {
    }

    fn signed() -> (r: bool) {
        false
    }

    fn limit(negative: bool) -> (r: u64) {
        if negative {
            0
        } else {
            usize::MAX as u64
        }
    }

    fn compose(negative: bool, magnitude: u64) -> (r: Self) {
        magnitude as usize
    }
}

impl Integer for i8 {
    open spec fn least() -> int {
        i8::MIN as int
    }

    open spec fn greatest() -> int {
        i8::MAX as int
    }

    open spec fn value(self) -> int {
        self as int
    }

    proof fn lemma_zero_in_range() {
    }

    fn signed() -> (r: bool) {
        true
    }

    fn limit(negative: bool) -> (r: u64) {
        if negative {
            i8::MAX as u64 + 1
        } else {
            i8::MAX as u64
        }
    }

    fn compose(negative: bool, magnitude: u64) -> (r: Self) {
        if !negative {
            magnitude as i8
        } else if magnitude > i8::MAX as u64 {
            i8::MIN
        } else {
            -(magnitude as i8)
        }
    }
}

impl Integer for i16 {
    open spec fn least() -> int {
        i16::MIN as int
    }

    open spec fn greatest() -> int {
        i16::MAX as int
    }

    open spec fn value(self) -> int {
        self as int
    }

    proof fn lemma_zero_in_range() {
    }

    fn signed() -> (r: bool) {
        true
    }

    fn limit(negative: bool) -> (r: u64) {
        if negative {
            i16::MAX as u64 + 1
        } else {
            i16::MAX as u64
        }
    }

    fn compose(negative: bool, magnitude: u64) -> (r: Self) {
        if !negative {
            magnitude as i16
        } else if magnitude > i16::MAX as u64 {
            i16::MIN
        } else {
            -(magnitude as i16)
        }
    }
}

impl Integer for i32 {
    open spec fn least() -> int {
        i32::MIN as int
    }

    open spec fn greatest() -> int {
        i32::MAX as int
    }

    open spec fn value(self) -> int {
        self as int
    }

    proof fn lemma_zero_in_range() {
    }

    fn signed() -> (r: bool) {
        true
    }

    fn limit(negative: bool) -> (r: u64) {
        if negative {
            i32::MAX as u64 + 1
        } else {
            i32::MAX as u64
        }
    }

    fn compose(negative: bool, magnitude: u64) -> (r: Self) {
        if !negative {
            magnitude as i32
        } else if magnitude > i32::MAX as u64 {
            i32::MIN
        } else {
            -(magnitude as i32)
        }
    }
}

impl Integer for i64 {
    open spec fn least() -> int {
        i64::MIN as int
    }

    open spec fn greatest() -> int {
        i64::MAX as int
    }

    open spec fn value(self) -> int {
        self as int
    }

    proof fn lemma_zero_in_range() {
    }

    fn signed() -> (r: bool) {
        true
    }

    fn limit(negative: bool) -> (r: u64) {
        if negative {
            i64::MAX as u64 + 1
        } else {
            i64::MAX as u64
        }
    }

    fn compose(negative: bool, magnitude: u64) -> (r: Self) {
        if !negative {
            magnitude as i64
        } else if magnitude > i64::MAX as u64 {
            i64::MIN
        } else {
            -(magnitude as i64)
        }
    }
}

impl Integer for isize {
    open spec fn least() -> int {
        isize::MIN as int
    }

    open spec fn greatest() -> int {
        isize::MAX as int
    }

    open spec fn value(self) -> int {
        self as int
    }

    proof fn lemma_zero_in_range() {
    }

    fn signed() -> (r: bool) {
        true
    }

    fn limit(negative: bool) -> (r: u64) {
        if negative {
            isize::MAX as u64 + 1
        } else {
            isize::MAX as u64
        }
    }

    fn compose(negative: bool, magnitude: u64) -> (r: Self) {
        if !negative {
            magnitude as isize
        } else if magnitude > isize::MAX as u64 {
            isize::MIN
        } else {
            -(magnitude as isize)
        }
    }
}

/// The number of characters that a sign takes at the beginning of `s`: one
/// for `+` or `-`, none otherwise.
pub open spec fn sign_length(s: Seq<char>) -> nat {
    if s.len() > 0 && (s[0] == '+' || s[0] == '-') {
        1
    } else {
        0
    }
}

/// What a parser of decimal integers of the type `T` returns.  A signed
/// type takes a `+` or `-` before the digits, an unsigned type takes none.
/// Where no digit follows, the failure is that of the missing digits; where
/// the number does not fit the type, the failure names the side on which it
/// does not fit and points to the sign and the digits.
pub open spec fn integer_outcome<'a, T: Integer>(input: Input<'a>, r: PResult<Input<'a>, T>)
    -> bool {
    let g = if T::least() < 0 {
        sign_length(input@) as int
    } else {
        0
    };
    let negative = g == 1 && input@[0] == '-';
    let digits = input@.skip(g);
    let k = run_length(Digit(10), digits) as int;
    let magnitude = decimal_value(digits.take(k)) as int;
    let number = if negative {
        -magnitude
    } else {
        magnitude
    };
    let span = Span::of(
        input.position() as int,
        (input.position() + utf8_len(input@.take(g + k))) as int,
    );
    if k == 0 {
        if digits.len() == 0 {
            failed(r, end_of(input))
        } else {
            failed(r, unmatched_at(input, g, g + 1))
        }
    } else if number > T::greatest() {
        failed(r, Error::ParseInt { error: IntErrorKind::PosOverflow, span })
    } else if number < T::least() {
        failed(r, Error::ParseInt { error: IntErrorKind::NegOverflow, span })
    } else {
        r matches Ok((v, rest)) && v.value() == number && rest.is_tail_at(input, g + k)
    }
}

/// Parses a decimal integer of the type `T`.  [`Decimal`] is the same
/// parser as a value.
pub fn integer<'a, T: Integer>(input: Input<'a>) -> (r: PResult<Input<'a>, T>)
    ensures
        integer_outcome::<T>(input, r),
        r matches Ok((_, rest)) ==> rest.is_tail_of(input),
{
    let mut negative = false;
    let mut sign_bytes: usize = 0;
    if T::signed() {
        match input.first() {
            Some(c) => {
                if c == '+' || c == '-' {
                    negative = c == '-';
                    sign_bytes = 1;
                }
            },
            None => {},
        }
    }
    let ghost g = sign_bytes as int;
    proof {
        assert(input@.take(0) =~= Seq::<char>::empty());
        if g == 1 {
            lemma_utf8_len_step(input@, 0);
        }
    }
    let (_, after) = input.advance(sign_bytes, Ghost(g));
    let (count, bytes) = scan_run(&Digit(10), after.as_str());
    let (digits, rest) = after.advance(bytes, Ghost(count as int));
    proof {
        lemma_tail_transitive(input, after, rest);
        lemma_tail_round_trip(input, after);
        lemma_tail_round_trip(input, rest);
        lemma_run_length(Digit(10), after@);
        assert(input@.take(g + count) =~= input@.take(g) + after@.take(count as int));
        crate::input::lemma_encode_concat(input@.take(g), after@.take(count as int));
    }
    if count == 0 {
        return match after.first() {
            None => Err(Stack::from_mismatch(Error::end(input))),
            Some(c) => {
                proof {
                    lemma_utf8_len_step(input@, g);
                    lemma_utf8_len_step(after@, 0);
                    assert(after@.take(0) =~= Seq::<char>::empty());
                }
                let span = after.span_of(crate::input::char_width(c));
                Err(Stack::from_mismatch(Error::unmatched(span)))
            },
        };
    }
    let _ = rest.len();
    proof {
        T::lemma_zero_in_range();
    }
    match to_number(digits, T::limit(negative)) {
        Some(magnitude) => Ok((T::compose(negative, magnitude), rest)),
        None => {
            let span = Span::new(input.offset(), rest.offset());
            let error = if negative {
                IntErrorKind::NegOverflow
            } else {
                IntErrorKind::PosOverflow
            };
            Err(Stack::from_mismatch(Error::ParseInt { error, span }))
        },
    }
}

/// Parses a decimal `u8`.  Plus or minus signs aren't accepted.
pub fn u8<'a>(input: Input<'a>) -> (r: PResult<Input<'a>, u8>)
    ensures
        integer_outcome::<u8>(input, r),
        r matches Ok((_, rest)) ==> rest.is_tail_of(input),
{
    integer::<u8>(input)
}

/// Parses a decimal `u16`.  Plus or minus signs aren't accepted.
pub fn u16<'a>(input: Input<'a>) -> (r: PResult<Input<'a>, u16>)
    ensures
        integer_outcome::<u16>(input, r),
        r matches Ok((_, rest)) ==> rest.is_tail_of(input),
{
    integer::<u16>(input)
}

/// Parses a decimal `u32`.  Plus or minus signs aren't accepted.
pub fn u32<'a>(input: Input<'a>) -> (r: PResult<Input<'a>, u32>)
    ensures
        integer_outcome::<u32>(input, r),
        r matches Ok((_, rest)) ==> rest.is_tail_of(input),
{
    integer::<u32>(input)
}

/// Parses a decimal `u64`.  Plus or minus signs aren't accepted.
pub fn u64<'a>(input: Input<'a>) -> (r: PResult<Input<'a>, u64>)
    ensures
        integer_outcome::<u64>(input, r),
        r matches Ok((_, rest)) ==> rest.is_tail_of(input),
{
    integer::<u64>(input)
}

/// Parses a decimal `usize`.  Plus or minus signs aren't accepted.
pub fn usize<'a>(input: Input<'a>) -> (r: PResult<Input<'a>, usize>)
    ensures
        integer_outcome::<usize>(input, r),
        r matches Ok((_, rest)) ==> rest.is_tail_of(input),
{
    integer::<usize>(input)
}

/// Parses a decimal `i8`.  The digits may follow a plus or a minus sign.
pub fn i8<'a>(input: Input<'a>) -> (r: PResult<Input<'a>, i8>)
    ensures
        integer_outcome::<i8>(input, r),
        r matches Ok((_, rest)) ==> rest.is_tail_of(input),
{
    integer::<i8>(input)
}

/// Parses a decimal `i16`.  The digits may follow a plus or a minus sign.
pub fn i16<'a>(input: Input<'a>) -> (r: PResult<Input<'a>, i16>)
    ensures
        integer_outcome::<i16>(input, r),
        r matches Ok((_, rest)) ==> rest.is_tail_of(input),
{
    integer::<i16>(input)
}

/// Parses a decimal `i32`.  The digits may follow a plus or a minus sign.
pub fn i32<'a>(input: Input<'a>) -> (r: PResult<Input<'a>, i32>)
    ensures
        integer_outcome::<i32>(input, r),
        r matches Ok((_, rest)) ==> rest.is_tail_of(input),
{
    integer::<i32>(input)
}

/// Parses a decimal `i64`.  The digits may follow a plus or a minus sign.
pub fn i64<'a>(input: Input<'a>) -> (r: PResult<Input<'a>, i64>)
    ensures
        integer_outcome::<i64>(input, r),
        r matches Ok((_, rest)) ==> rest.is_tail_of(input),
{
    integer::<i64>(input)
}

/// Parses a decimal `isize`.  The digits may follow a plus or a minus sign.
pub fn isize<'a>(input: Input<'a>) -> (r: PResult<Input<'a>, isize>)
    ensures
        integer_outcome::<isize>(input, r),
        r matches Ok((_, rest)) ==> rest.is_tail_of(input),
{
    integer::<isize>(input)
}

/// The number of decimal digits at the beginning of `s`.
pub open spec fn digits_length(s: Seq<char>) -> nat {
    run_length(Digit(10), s)
}

/// The length of the special value at the beginning of `s`, if it begins
/// with one: `infinity`, `inf` or `nan`, in any case.
pub open spec fn word_length(s: Seq<char>) -> Option<nat> {
    if common_prefix("infinity"@, s, true) == 8 {
        Some(8)
    } else if common_prefix("inf"@, s, true) == 3 {
        Some(3)
    } else if common_prefix("nan"@, s, true) == 3 {
        Some(3)
    } else {
        None
    }
}

/// The length of the digits and the point at the beginning of `s`, if it
/// begins with a number: digits, a point and digits, of which those before
/// the point or those behind it may be missing, or digits alone.
pub open spec fn number_length(s: Seq<char>) -> Option<nat> {
    let a = digits_length(s);
    if a > 0 {
        if a < s.len() && s[a as int] == '.' {
            Some(a + 1 + digits_length(s.skip(a + 1 as int)))
        } else {
            Some(a)
        }
    } else if s.len() > 0 && s[0] == '.' && digits_length(s.skip(1)) > 0 {
        Some(1 + digits_length(s.skip(1)))
    } else {
        None
    }
}

/// The length of the exponent at the beginning of `s`: `e` or `E`, a sign
/// or none, and at least one digit.  It is zero where `s` begins with no
/// exponent.
pub open spec fn exponent_length(s: Seq<char>) -> nat {
    if s.len() > 0 && (s[0] == 'e' || s[0] == 'E') {
        let g = sign_length(s.skip(1));
        let d = digits_length(s.skip(1 + g as int));
        if d > 0 {
            1 + g + d
        } else {
            0
        }
    } else {
        0
    }
}

/// The length of what follows the sign of a floating point literal at the
/// beginning of `s`, if there is such a literal: a special value, or a
/// number with an exponent or without.
pub open spec fn body_length(s: Seq<char>) -> Option<nat> {
    match word_length(s) {
        Some(w) => Some(w),
        None => match number_length(s) {
            Some(n) => Some(n + exponent_length(s.skip(n as int))),
            None => None,
        },
    }
}

/// The length of the floating point literal at the beginning of `s`, if it
/// begins with one.
pub open spec fn float_length(s: Seq<char>) -> Option<nat> {
    let g = sign_length(s);
    match body_length(s.skip(g as int)) {
        Some(n) => Some(g + n),
        None => None,
    }
}

/// What the parser of floating point literals returns: the literal, where
/// the input begins with one.  Where it does not, the failure is that of
/// the digits that are missing behind the sign.
pub open spec fn float_outcome<'a>(input: Input<'a>, r: PResult<Input<'a>, &'a str>) -> bool {
    let g = sign_length(input@) as int;
    match float_length(input@) {
        Some(k) => matched(input, k as int, r),
        None => if input@.len() == g {
            failed(r, end_of(input))
        } else {
            failed(r, unmatched_at(input, g, g + 1))
        },
    }
}

/// Skips the decimal digits at the beginning of `input`.
fn skip_digits<'a>(input: Input<'a>) -> (r: (usize, Input<'a>))
    ensures
        r.0 == digits_length(input@),
        r.1.is_tail_at(input, r.0 as int),
{
    let (count, bytes) = scan_run(&Digit(10), input.as_str());
    let (_, rest) = input.advance(bytes, Ghost(count as int));
    (count, rest)
}

/// Skips the first character of `input` where it is `a` or `b`.
fn skip_either<'a>(input: Input<'a>, a: char, b: char) -> (r: (bool, Input<'a>))
    ensures
        r.0 == (input@.len() > 0 && (input@[0] == a || input@[0] == b)),
        r.1.is_tail_at(
            input,
            if r.0 {
                1
            } else {
                0
            },
        ),
{
    proof {
        assert(input@.take(0) =~= Seq::<char>::empty());
        lemma_tail_reflexive(input);
    }
    match input.first() {
        Some(c) => {
            if c == a || c == b {
                proof {
                    lemma_utf8_len_step(input@, 0);
                }
                let (_, rest) = input.advance(crate::input::char_width(c), Ghost(1));
                (true, rest)
            } else {
                (false, input)
            }
        },
        None => (false, input),
    }
}

/// Skips `word` at the beginning of `input`, in any case.
fn skip_word<'a>(input: Input<'a>, word: &str) -> (r: Option<Input<'a>>)
    ensures
        match r {
            Some(rest) => common_prefix(word@, input@, true) == word@.len() && rest.is_tail_at(
                input,
                word@.len() as int,
            ),
            None => common_prefix(word@, input@, true) != word@.len(),
        },
{
    let (count, bytes, complete) = scan_common(word, input.as_str(), true);
    if complete {
        let (_, rest) = input.advance(bytes, Ghost(count as int));
        Some(rest)
    } else {
        None
    }
}

/// Skips the number at the beginning of `input`.
fn skip_number<'a>(input: Input<'a>) -> (r: Option<Input<'a>>)
    ensures
        match number_length(input@) {
            Some(n) => r matches Some(rest) && rest.is_tail_at(input, n as int),
            None => r is None,
        },
{
    let (a, after_a) = skip_digits(input);
    proof {
        lemma_run_length(Digit(10), input@);
    }
    if a > 0 {
        let (point, after_point) = skip_either(after_a, '.', '.');
        if point {
            let (b, after_b) = skip_digits(after_point);
            proof {
                assert(after_point@ =~= input@.skip(a + 1));
                lemma_tail_at_compose(input, after_a, after_point, a as int, 1);
                lemma_tail_at_compose(input, after_point, after_b, a + 1, b as int);
            }
            Some(after_b)
        } else {
            Some(after_a)
        }
    } else {
        let (point, after_point) = skip_either(input, '.', '.');
        if point {
            let (b, after_b) = skip_digits(after_point);
            proof {
                lemma_tail_at_compose(input, after_point, after_b, 1, b as int);
            }
            if b > 0 {
                Some(after_b)
            } else {
                None
            }
        } else {
            None
        }
    }
}

/// Skips the exponent at the beginning of `input`, if there is one.
fn skip_exponent<'a>(input: Input<'a>) -> (rest: Input<'a>)
    ensures
        rest.is_tail_at(input, exponent_length(input@) as int),
{
    proof {
        assert(input@.take(0) =~= Seq::<char>::empty());
        lemma_tail_reflexive(input);
    }
    let (letter, after_letter) = skip_either(input, 'e', 'E');
    if !letter {
        return input;
    }
    let (sign, after_sign) = skip_either(after_letter, '+', '-');
    let (d, after_digits) = skip_digits(after_sign);
    let ghost g: int = if sign {
        1
    } else {
        0
    };
    proof {
        assert(after_sign@ =~= input@.skip(1 + g));
        lemma_tail_at_compose(input, after_letter, after_sign, 1, g);
        lemma_tail_at_compose(input, after_sign, after_digits, 1 + g, d as int);
    }
    if d > 0 {
        after_digits
    } else {
        input
    }
}

/// Skips what follows the sign of a floating point literal.
fn skip_body<'a>(input: Input<'a>) -> (r: Option<Input<'a>>)
    ensures
        match body_length(input@) {
            Some(n) => r matches Some(rest) && rest.is_tail_at(input, n as int),
            None => r is None,
        },
{
    proof {
        reveal_strlit("infinity");
        reveal_strlit("inf");
        reveal_strlit("nan");
    }
    if let Some(rest) = skip_word(input, "infinity") {
        return Some(rest);
    }
    if let Some(rest) = skip_word(input, "inf") {
        return Some(rest);
    }
    if let Some(rest) = skip_word(input, "nan") {
        return Some(rest);
    }
    match skip_number(input) {
        Some(after_number) => {
            let rest = skip_exponent(after_number);
            proof {
                let n = number_length(input@).unwrap() as int;
                lemma_tail_at_compose(
                    input,
                    after_number,
                    rest,
                    n,
                    exponent_length(after_number@) as int,
                );
            }
            Some(rest)
        },
        None => None,
    }
}

/// Matches a floating point literal and returns it as text: an optional
/// sign, then `inf`, `infinity` or `nan` in any case, or a number with an
/// optional exponent.  The number is digits, a point and digits, of which
/// those before the point or those behind it may be missing, or digits
/// alone.  An exponent without digits is not part of the literal.
/// [`Float`] is the same parser as a value.
pub fn float<'a>(input: Input<'a>) -> (r: PResult<Input<'a>, &'a str>)
    ensures
        float_outcome(input, r),
        r matches Ok((_, rest)) ==> rest.is_tail_of(input),
{
    let (sign, after_sign) = skip_either(input, '+', '-');
    let ghost g: int = if sign {
        1
    } else {
        0
    };
    match skip_body(after_sign) {
        Some(rest) => {
            proof {
                let n = body_length(after_sign@).unwrap() as int;
                lemma_tail_at_compose(input, after_sign, rest, g, n);
                lemma_tail_round_trip(input, rest);
            }
            let _ = rest.len();
            let bytes = rest.offset() - input.offset();
            let (head, _) = input.advance(bytes, Ghost(input@.len() - rest@.len()));
            Ok((head, rest))
        },
        None => {
            match after_sign.first() {
                None => Err(Stack::from_mismatch(Error::end(input))),
                Some(c) => {
                    proof {
                        lemma_utf8_len_step(input@, g);
                        lemma_utf8_len_step(after_sign@, 0);
                        assert(after_sign@.take(0) =~= Seq::<char>::empty());
                        lemma_tail_round_trip(input, after_sign);
                    }
                    let span = after_sign.span_of(crate::input::char_width(c));
                    Err(Stack::from_mismatch(Error::unmatched(span)))
                },
            }
        },
    }
}

/// The parser [`integer`] of the type `T` as a value.
#[derive(Debug)]
pub struct Decimal<T>(pub PhantomData<T>);

/// The parser [`float`] as a value.
#[derive(Debug, Clone, Copy)]
pub struct Float;

/// The parser of decimal integers of the type `T`, as a value.
pub fn decimal<T: Integer>() -> (p: Decimal<T>)
    ensures
        p == Decimal::<T>(PhantomData),
{
    Decimal(PhantomData)
}

impl<'a, T: Integer> Parse<'a> for Decimal<T> {
    type Output = T;

    open spec fn wf(&self) -> bool {
        true
    }

    open spec fn parses(&self, input: Input<'a>, r: PResult<Input<'a>, T>) -> bool {
        integer_outcome::<T>(input, r)
    }

    proof fn lemma_rest_is_tail(&self, input: Input<'a>, out: T, rest: Input<'a>) {
        let g = if T::least() < 0 {
            sign_length(input@) as int
        } else {
            0
        };
        lemma_run_length(Digit(10), input@.skip(g));
    }

    fn parse(&self, input: Input<'a>) -> (r: PResult<Input<'a>, T>) {
        integer::<T>(input)
    }
}

impl<'a> Parse<'a> for Float {
    type Output = &'a str;

    open spec fn wf(&self) -> bool {
        true
    }

    open spec fn parses(&self, input: Input<'a>, r: PResult<Input<'a>, &'a str>) -> bool {
        float_outcome(input, r)
    }

    proof fn lemma_rest_is_tail(&self, input: Input<'a>, out: &'a str, rest: Input<'a>) {
    }

    fn parse(&self, input: Input<'a>) -> (r: PResult<Input<'a>, &'a str>) {
        float(input)
    }
}

} // verus!
