//! Parsers which operate on text.

use crate::error::Error as Stack;
use crate::adaptor::succeeds_to;
use crate::input::{
    byte_len, char_width, chars_covering, lemma_chars_covering, lemma_chars_le_bytes,
    lemma_tail_reflexive, lemma_tail_round_trip, lemma_tail_transitive, lemma_utf8_len_split,
    lemma_utf8_len_step, utf8_len, Input,
};
use crate::parse::{fails_on, productive, PResult, Parse};
use crate::predicate::{Alphabetic, Alphanumeric, Any, Digit, NoneOf, Not, OneOf, Predicate, Whitespace};
use crate::span::Span;
use vstd::prelude::*;
use vstd::std_specs::iter::IteratorSpec;

verus! {

/// Why a decimal number does not fit its type.
#[derive(Debug, Clone, Copy, PartialEq, Eq, Structural)]
pub enum IntErrorKind {
    /// The number is greater than the greatest value of the type.
    PosOverflow,
    /// The number is less than the least value of the type.
    NegOverflow,
}

/// Why a parser of text failed.
#[derive(Debug, Clone, Copy, PartialEq, Eq, Structural)]
pub enum Error {
    /// The parser unexpectedly reached the end of the input.
    End {
        /// The empty span at the end of the input.
        span: Span,
    },
    /// The parser failed to match.
    Unmatched {
        /// The part of the input which the parser met instead of what it
        /// expected.
        span: Span,
    },
    /// Returned by [`eof`] when the input isn't empty.
    NotEnd,
    /// Failed to convert digits to an integer.
    ParseInt {
        /// Why the conversion failed.
        error: IntErrorKind,
        /// The part of the input which was converted.
        span: Span,
    },
    /// Failed to convert a literal to a floating point number.
    ParseFloat {
        /// The part of the input which was converted.
        span: Span,
    },
}

/// The failure of a parser that found the end of `input` where it needed
/// more: it points to the empty span at the end of `input`.
pub open spec fn end_of(input: Input) -> Error {
    Error::End { span: Span::of(input.end_position() as int, input.end_position() as int) }
}

/// The failure of a parser that did not match the characters of `input`
/// from index `from` up to index `to`: it points to their span.
pub open spec fn unmatched_at(input: Input, from: int, to: int) -> Error {
    Error::Unmatched {
        span: Span::of(
            (input.position() + utf8_len(input@.take(from))) as int,
            (input.position() + utf8_len(input@.take(to))) as int,
        ),
    }
}

impl Error {
    /// The part of the input that the error points to, if it points to one.
    pub open spec fn location(self) -> Option<Span> {
        match self {
            Error::End { span } => Some(span),
            Error::Unmatched { span } => Some(span),
            Error::NotEnd => None,
            Error::ParseInt { span, .. } => Some(span),
            Error::ParseFloat { span } => Some(span),
        }
    }

    /// Creates a new `End` error which points to the end of `input`.
    pub fn end(input: Input) -> (e: Error)
        ensures
            e == end_of(input),
    {
        Error::End { span: input.end_span() }
    }

    /// Creates a new `Unmatched` error with a given span.
    pub fn unmatched(span: Span) -> (e: Error)
        ensures
            e == (Error::Unmatched { span }),
    {
        Error::Unmatched { span }
    }

    /// The part of the input that the error points to, if it points to one.
    pub fn span(&self) -> (r: Option<Span>)
        ensures
            r == self.location(),
    {
        match self {
            Error::End { span } => Some(*span),
            Error::Unmatched { span } => Some(*span),
            Error::NotEnd => None,
            Error::ParseInt { span, .. } => Some(*span),
            Error::ParseFloat { span } => Some(*span),
        }
    }
}

/// The parser took the first `k` characters of `input` as its output, and
/// left the rest.
pub open spec fn matched<'a>(input: Input<'a>, k: int, r: PResult<Input<'a>, &'a str>) -> bool {
    r matches Ok((out, rest)) && out@ == input@.take(k) && rest.is_tail_at(input, k)
}

/// The parser failed, and reports `error` as the one cause.
pub open spec fn failed<'a, O>(r: PResult<Input<'a>, O>, error: Error) -> bool {
    r matches Err(e) && e@ == Stack::single(error)
}

/// The length of the longest prefix of `s` whose characters are all
/// accepted by `predicate`.
pub open spec fn run_length<Q: Predicate>(predicate: Q, s: Seq<char>) -> nat
    decreases s.len(),
{
    if s.len() > 0 && predicate.accepts(s[0]) {
        1 + run_length(predicate, s.drop_first())
    } else {
        0
    }
}

/// `run_length` is the one index at which the accepted prefix of `s` ends:
/// every character before it is accepted, and the character at it, if there
/// is one, is not.
pub proof fn lemma_run_length<Q: Predicate>(predicate: Q, s: Seq<char>)
    ensures
        run_length(predicate, s) <= s.len(),
        forall|i: int| 0 <= i < run_length(predicate, s) ==> predicate.accepts(#[trigger] s[i]),
        run_length(predicate, s) < s.len() ==> !predicate.accepts(
            s[run_length(predicate, s) as int],
        ),
    decreases s.len(),
{
    if s.len() > 0 && predicate.accepts(s[0]) {
        let tail = s.drop_first();
        lemma_run_length(predicate, tail);
        assert forall|i: int| 0 <= i < run_length(predicate, s) implies predicate.accepts(
            #[trigger] s[i],
        ) by {
            if i > 0 {
                assert(s[i] == tail[i - 1]);
            }
        }
        if run_length(predicate, s) < s.len() {
            assert(s[run_length(predicate, s) as int] == tail[run_length(predicate, tail) as int]);
        }
    }
}

/// An index with the properties of `run_length` is `run_length`.
pub proof fn lemma_run_length_unique<Q: Predicate>(predicate: Q, s: Seq<char>, k: int)
    requires
        0 <= k <= s.len(),
        forall|i: int| 0 <= i < k ==> predicate.accepts(#[trigger] s[i]),
        k < s.len() ==> !predicate.accepts(s[k]),
    ensures
        run_length(predicate, s) == k,
{
    lemma_run_length(predicate, s);
    let n = run_length(predicate, s) as int;
    if n < k {
        assert(predicate.accepts(s[n]));
    } else if k < n {
        assert(predicate.accepts(s[k]));
    }
}

/// The run of a text continues in what follows an accepted character.
proof fn lemma_run_length_skip<Q: Predicate>(predicate: Q, s: Seq<char>, k: int)
    requires
        0 <= k < s.len(),
        predicate.accepts(s[k]),
    ensures
        run_length(predicate, s.skip(k)) == 1 + run_length(predicate, s.skip(k + 1)),
{
    assert(s.skip(k).drop_first() =~= s.skip(k + 1));
}

/// Counts the characters at the beginning of `text` that `predicate`
/// accepts, and the bytes that they take.
pub fn scan_run<Q: Predicate>(predicate: &Q, text: &str) -> (r: (usize, usize))
    requires
        predicate.wf(),
    ensures
        r.0 == run_length(*predicate, text@),
        r.1 == utf8_len(text@.take(r.0 as int)),
        r.0 <= text@.len(),
{
    broadcast use vstd::string::group_string_axioms;

    let total = byte_len(text);
    let mut chars = text.chars();
    let mut count: usize = 0;
    let mut bytes: usize = 0;
    proof {
        assert(text@.skip(0) =~= text@);
        assert(text@.take(0) =~= Seq::<char>::empty());
    }
    loop
        invariant_except_break
            chars.remaining() == text@.skip(count as int),
            run_length(*predicate, text@) == count + run_length(
                *predicate,
                text@.skip(count as int),
            ),
        invariant
            predicate.wf(),
            total == utf8_len(text@),
            0 <= count <= text@.len(),
            bytes == utf8_len(text@.take(count as int)),
        ensures
            count == run_length(*predicate, text@),
            bytes == utf8_len(text@.take(count as int)),
            count <= text@.len(),
        decreases text@.len() - count,
    {
        match chars.next() {
            None => {
                break ;
            },
            Some(c) => {
                assert(c == text@[count as int]);
                if !predicate.test(c) {
                    break ;
                }
                proof {
                    lemma_run_length_skip(*predicate, text@, count as int);
                    lemma_utf8_len_step(text@, count as int);
                    lemma_chars_le_bytes(text@);
                }
                bytes += char_width(c);
                count += 1;
            },
        }
    }
    (count, bytes)
}

/// What a parser returns that takes the longest prefix whose characters
/// `predicate` accepts, and wants at least `min` of them.  A shorter run
/// fails: at the end of the input where the input ends with the run, at the
/// character behind the run otherwise.
pub open spec fn run_outcome<'a, Q: Predicate>(
    predicate: Q,
    min: usize,
    input: Input<'a>,
    r: PResult<Input<'a>, &'a str>,
) -> bool {
    let k = run_length(predicate, input@) as int;
    if k >= min {
        matched(input, k, r)
    } else if k == input@.len() {
        failed(r, end_of(input))
    } else {
        failed(r, unmatched_at(input, k, k + 1))
    }
}

/// Takes the longest prefix of `input` whose characters `predicate`
/// accepts, provided that it has at least `min` characters.
pub fn match_run<'a, Q: Predicate>(predicate: &Q, min: usize, input: Input<'a>) -> (r:
    PResult<Input<'a>, &'a str>)
    requires
        predicate.wf(),
    ensures
        run_outcome(*predicate, min, input, r),
        r matches Ok((_, rest)) ==> rest.is_tail_of(input),
{
    let (count, bytes) = scan_run(predicate, input.as_str());
    let (head, rest) = input.advance(bytes, Ghost(count as int));
    if count >= min {
        Ok((head, rest))
    } else {
        match rest.first() {
            None => {
                Err(Stack::from_mismatch(Error::end(input)))
            },
            Some(c) => {
                proof {
                    lemma_utf8_len_step(input@, count as int);
                    lemma_utf8_len_step(rest@, 0);
                    assert(rest@.take(0) =~= Seq::<char>::empty());
                }
                let span = rest.span_of(char_width(c));
                Err(Stack::from_mismatch(Error::unmatched(span)))
            },
        }
    }
}

/// The code of `c`, or of its lower case form where `c` is one of the
/// ASCII letters `A` to `Z`.  No other character is folded.
pub open spec fn ascii_lower(c: char) -> int {
    if 65 <= c as int <= 90 {
        c as int + 32
    } else {
        c as int
    }
}

/// Whether `a` and `b` count as the same character: where `fold` is set,
/// the case of ASCII letters is ignored.
pub open spec fn agree(a: char, b: char, fold: bool) -> bool {
    if fold {
        ascii_lower(a) == ascii_lower(b)
    } else {
        a == b
    }
}

/// The number of characters at the beginning of `a` and `b` that agree.
pub open spec fn common_prefix(a: Seq<char>, b: Seq<char>, fold: bool) -> nat
    decreases a.len(),
{
    if a.len() > 0 && b.len() > 0 && agree(a[0], b[0], fold) {
        1 + common_prefix(a.drop_first(), b.drop_first(), fold)
    } else {
        0
    }
}

/// `common_prefix` is the one index at which `a` and `b` cease to agree:
/// the characters before it agree, and the characters at it, where both
/// texts have one, do not.
pub proof fn lemma_common_prefix(a: Seq<char>, b: Seq<char>, fold: bool)
    ensures
        common_prefix(a, b, fold) <= a.len(),
        common_prefix(a, b, fold) <= b.len(),
        forall|i: int|
            0 <= i < common_prefix(a, b, fold) ==> agree(#[trigger] a[i], b[i], fold),
        common_prefix(a, b, fold) < a.len() && common_prefix(a, b, fold) < b.len() ==> !agree(
            a[common_prefix(a, b, fold) as int],
            b[common_prefix(a, b, fold) as int],
            fold,
        ),
    decreases a.len(),
{
    if a.len() > 0 && b.len() > 0 && agree(a[0], b[0], fold) {
        let ta = a.drop_first();
        let tb = b.drop_first();
        lemma_common_prefix(ta, tb, fold);
        let n = common_prefix(a, b, fold) as int;
        assert forall|i: int| 0 <= i < n implies agree(#[trigger] a[i], b[i], fold) by {
            if i > 0 {
                assert(a[i] == ta[i - 1]);
                assert(b[i] == tb[i - 1]);
            }
        }
        if n < a.len() && n < b.len() {
            assert(a[n] == ta[n - 1]);
            assert(b[n] == tb[n - 1]);
        }
    }
}

/// A text begins with a literal exactly when the two agree, letter for
/// letter, over the whole length of the literal.
pub proof fn lemma_common_prefix_exact(literal: Seq<char>, s: Seq<char>)
    ensures
        literal.is_prefix_of(s) <==> common_prefix(literal, s, false) == literal.len(),
{
    lemma_common_prefix(literal, s, false);
    let n = common_prefix(literal, s, false) as int;
    if n == literal.len() {
        assert(literal =~= s.subrange(0, n));
    }
    if literal.is_prefix_of(s) {
        if n < literal.len() {
            assert(literal[n] == s.subrange(0, literal.len() as int)[n]);
        }
    }
}

/// The agreement of two texts continues behind a pair of characters that
/// agree.
proof fn lemma_common_prefix_skip(a: Seq<char>, b: Seq<char>, fold: bool, k: int)
    requires
        0 <= k < a.len(),
        k < b.len(),
        agree(a[k], b[k], fold),
    ensures
        common_prefix(a.skip(k), b.skip(k), fold) == 1 + common_prefix(
            a.skip(k + 1),
            b.skip(k + 1),
            fold,
        ),
{
    assert(a.skip(k).drop_first() =~= a.skip(k + 1));
    assert(b.skip(k).drop_first() =~= b.skip(k + 1));
}

/// Whether `a` and `b` count as the same character.
pub fn same_char(a: char, b: char, fold: bool) -> (r: bool)
    ensures
        r == agree(a, b, fold),
{
    if fold {
        let x: u32 = a as u32;
        let y: u32 = b as u32;
        let lx: u32 = if 65 <= x && x <= 90 {
            x + 32
        } else {
            x
        };
        let ly: u32 = if 65 <= y && y <= 90 {
            y + 32
        } else {
            y
        };
        lx == ly
    } else {
        a == b
    }
}

/// Counts the characters at the beginning of `text` that agree with those
/// of `literal`, and the bytes that they take in `text`; tells whether the
/// whole of `literal` agreed.
pub fn scan_common(literal: &str, text: &str, fold: bool) -> (r: (usize, usize, bool))
    ensures
        r.0 == common_prefix(literal@, text@, fold),
        r.1 == utf8_len(text@.take(r.0 as int)),
        r.0 <= text@.len(),
        r.0 <= literal@.len(),
        r.2 == (r.0 == literal@.len()),
{
    broadcast use vstd::string::group_string_axioms;

    let total = byte_len(text);
    let mut wanted = literal.chars();
    let mut chars = text.chars();
    let mut count: usize = 0;
    let mut bytes: usize = 0;
    let mut complete = false;
    proof {
        assert(text@.skip(0) =~= text@);
        assert(literal@.skip(0) =~= literal@);
        assert(text@.take(0) =~= Seq::<char>::empty());
    }
    loop
        invariant_except_break
            chars.remaining() == text@.skip(count as int),
            wanted.remaining() == literal@.skip(count as int),
            common_prefix(literal@, text@, fold) == count + common_prefix(
                literal@.skip(count as int),
                text@.skip(count as int),
                fold,
            ),
            !complete,
        invariant
            total == utf8_len(text@),
            0 <= count <= text@.len(),
            count <= literal@.len(),
            bytes == utf8_len(text@.take(count as int)),
        ensures
            count == common_prefix(literal@, text@, fold),
            complete == (count == literal@.len()),
        decreases text@.len() - count,
    {
        match wanted.next() {
            None => {
                complete = true;
                break ;
            },
            Some(w) => {
                assert(w == literal@[count as int]);
                match chars.next() {
                    None => {
                        break ;
                    },
                    Some(c) => {
                        assert(c == text@[count as int]);
                        if !same_char(w, c, fold) {
                            break ;
                        }
                        proof {
                            lemma_common_prefix_skip(literal@, text@, fold, count as int);
                            lemma_utf8_len_step(text@, count as int);
                            lemma_chars_le_bytes(text@);
                        }
                        bytes += char_width(c);
                        count += 1;
                    },
                }
            },
        }
    }
    (count, bytes, complete)
}

/// Counts the characters at the beginning of `text` that it takes to fill
/// `wanted` bytes, and the bytes that they take.
pub fn scan_bytes(text: &str, wanted: usize) -> (r: (usize, usize))
    ensures
        r.0 == chars_covering(text@, wanted as int),
        r.1 == utf8_len(text@.take(r.0 as int)),
        r.0 <= text@.len(),
        r.1 <= utf8_len(text@),
{
    broadcast use vstd::string::group_string_axioms;

    let total = byte_len(text);
    let mut chars = text.chars();
    let mut count: usize = 0;
    let mut bytes: usize = 0;
    proof {
        assert(text@.skip(0) =~= text@);
        assert(text@.take(0) =~= Seq::<char>::empty());
    }
    while bytes < wanted
        invariant_except_break
            chars.remaining() == text@.skip(count as int),
            chars_covering(text@, wanted as int) == count + chars_covering(
                text@.skip(count as int),
                wanted - bytes,
            ),
        invariant
            total == utf8_len(text@),
            0 <= count <= text@.len(),
            bytes == utf8_len(text@.take(count as int)),
            bytes <= total,
        ensures
            count == chars_covering(text@, wanted as int),
        decreases text@.len() - count,
    {
        match chars.next() {
            None => {
                break ;
            },
            Some(c) => {
                assert(c == text@[count as int]);
                proof {
                    assert(text@.skip(count as int).drop_first() =~= text@.skip(count + 1));
                    lemma_utf8_len_step(text@, count as int);
                    lemma_chars_le_bytes(text@);
                }
                bytes += char_width(c);
                count += 1;
            },
        }
    }
    (count, bytes)
}

/// What a literal returns as a parser: the literal where the input begins
/// with it.  Where it does not, the failure is at the end of the input if
/// the input has fewer bytes than the literal.  Else it is at the
/// characters that stand in the literal's place: those from the beginning of
/// the input up to the first boundary between characters at or behind the
/// bytes of the literal.
pub open spec fn literal_outcome<'a>(
    literal: Seq<char>,
    input: Input<'a>,
    r: PResult<Input<'a>, &'a str>,
) -> bool {
    if literal.is_prefix_of(input@) {
        matched(input, literal.len() as int, r)
    } else if utf8_len(input@) < utf8_len(literal) {
        failed(r, end_of(input))
    } else {
        failed(r, unmatched_at(input, 0, chars_covering(input@, utf8_len(literal) as int) as int))
    }
}

/// Matches `literal` at the beginning of `input`.
pub fn match_literal<'a>(literal: &str, input: Input<'a>) -> (r: PResult<Input<'a>, &'a str>)
    ensures
        literal_outcome(literal@, input, r),
        r matches Ok((_, rest)) ==> rest.is_tail_of(input),
{
    proof {
        lemma_common_prefix_exact(literal@, input@);
    }
    let (count, bytes, complete) = scan_common(literal, input.as_str(), false);
    if complete {
        let (head, rest) = input.advance(bytes, Ghost(count as int));
        Ok((head, rest))
    } else {
        let wanted = byte_len(literal);
        if input.len() < wanted {
            Err(Stack::from_mismatch(Error::end(input)))
        } else {
            let (_, covered) = scan_bytes(input.as_str(), wanted);
            proof {
                assert(input@.take(0) =~= Seq::<char>::empty());
            }
            Err(Stack::from_mismatch(Error::unmatched(input.span_of(covered))))
        }
    }
}

/// The span of a literal's failure to match covers whole characters of the
/// input: it begins where the input begins, ends between two characters or
/// at the end of the input, and holds the bytes that the literal would take
/// and less than one character more.
pub proof fn lemma_literal_mismatch_is_on_boundaries<'a>(
    literal: &str,
    input: Input<'a>,
    r: PResult<Input<'a>, &'a str>,
)
    requires
        literal.parses(input, r),
        !literal@.is_prefix_of(input@),
        utf8_len(input@) >= utf8_len(literal@),
    ensures
        exists|k: int|
            {
                &&& 0 <= k <= input@.len()
                &&& failed(r, #[trigger] unmatched_at(input, 0, k))
                &&& utf8_len(literal@) <= utf8_len(input@.take(k)) < utf8_len(literal@) + 4
                &&& k > 0 ==> utf8_len(input@.take(k - 1)) < utf8_len(literal@)
            },
{
    let k = chars_covering(input@, utf8_len(literal@) as int) as int;
    lemma_chars_covering(input@, utf8_len(literal@) as int);
    assert(failed(r, unmatched_at(input, 0, k)));
}

/// A literal succeeds on exactly the inputs that begin with it.  It then
/// returns the literal, consumes exactly the bytes of the literal, and
/// leaves the input without its first characters, as many as the literal
/// has.
pub proof fn lemma_literal_matches_prefix<'a>(
    literal: &str,
    input: Input<'a>,
    r: PResult<Input<'a>, &'a str>,
)
    requires
        literal.parses(input, r),
    ensures
        r is Ok <==> literal@.is_prefix_of(input@),
        r matches Ok((out, rest)) ==> {
            &&& out@ == literal@
            &&& rest@ == input@.skip(literal@.len() as int)
            &&& rest.position() == input.position() + utf8_len(literal@)
            &&& utf8_len(rest@) + utf8_len(literal@) == utf8_len(input@)
        },
{
    if literal@.is_prefix_of(input@) {
        assert(input@.take(literal@.len() as int) =~= literal@);
        lemma_utf8_len_split(input@, literal@.len() as int);
    }
}

/// What a literal returns as a parser that ignores the case of ASCII
/// letters: the input's own characters in the literal's place, where they
/// agree with the literal.  Where they do not, the failure is at the end of
/// the input if the input ended first, and else at the input up to and with
/// the first character that differs.
pub open spec fn anycase_outcome<'a>(
    literal: Seq<char>,
    input: Input<'a>,
    r: PResult<Input<'a>, &'a str>,
) -> bool {
    let m = common_prefix(literal, input@, true) as int;
    if m == literal.len() {
        matched(input, m, r)
    } else if m == input@.len() {
        failed(r, end_of(input))
    } else {
        failed(r, unmatched_at(input, 0, m + 1))
    }
}

/// Matches `literal` at the beginning of `input`, ignoring the case of
/// ASCII letters.
pub fn match_anycase<'a>(literal: &str, input: Input<'a>) -> (r: PResult<Input<'a>, &'a str>)
    ensures
        anycase_outcome(literal@, input, r),
        r matches Ok((_, rest)) ==> rest.is_tail_of(input),
{
    let (count, bytes, complete) = scan_common(literal, input.as_str(), true);
    let (head, rest) = input.advance(bytes, Ghost(count as int));
    if complete {
        Ok((head, rest))
    } else {
        match rest.first() {
            None => {
                Err(Stack::from_mismatch(Error::end(input)))
            },
            Some(c) => {
                proof {
                    lemma_utf8_len_step(input@, count as int);
                    assert(input@.take(0) =~= Seq::<char>::empty());
                }
                let _ = input.len();
                let span = input.span_of(bytes + char_width(c));
                Err(Stack::from_mismatch(Error::unmatched(span)))
            },
        }
    }
}

/// What a parser returns that takes the first character of the input where
/// `predicate` accepts it.
pub open spec fn char_outcome<'a, Q: Predicate>(
    predicate: Q,
    input: Input<'a>,
    r: PResult<Input<'a>, char>,
) -> bool {
    if input@.len() == 0 {
        failed(r, end_of(input))
    } else if predicate.accepts(input@[0]) {
        r matches Ok((c, rest)) && c == input@[0] && rest.is_tail_at(input, 1)
    } else {
        failed(r, unmatched_at(input, 0, 1))
    }
}

/// Takes the first character of `input` where `predicate` accepts it.
pub fn match_char<'a, Q: Predicate>(predicate: &Q, input: Input<'a>) -> (r: PResult<
    Input<'a>,
    char,
>)
    requires
        predicate.wf(),
    ensures
        char_outcome(*predicate, input, r),
        r matches Ok((_, rest)) ==> rest.is_tail_of(input),
{
    match input.first() {
        None => Err(Stack::from_mismatch(Error::end(input))),
        Some(c) => {
            proof {
                lemma_utf8_len_step(input@, 0);
                assert(input@.take(0) =~= Seq::<char>::empty());
            }
            let width = char_width(c);
            if predicate.test(c) {
                let (_, rest) = input.advance(width, Ghost(1));
                Ok((c, rest))
            } else {
                Err(Stack::from_mismatch(Error::unmatched(input.span_of(width))))
            }
        },
    }
}

/// What a parser returns that takes exactly `n` characters.
pub open spec fn take_outcome<'a>(n: usize, input: Input<'a>, r: PResult<Input<'a>, &'a str>)
    -> bool {
    if n <= input@.len() {
        matched(input, n as int, r)
    } else {
        failed(r, end_of(input))
    }
}

/// Counts up to `n` characters of `text`, and the bytes that they take.
pub fn scan_count(text: &str, n: usize) -> (r: (usize, usize))
    ensures
        r.0 == if n <= text@.len() {
            n as int
        } else {
            text@.len() as int
        },
        r.1 == utf8_len(text@.take(r.0 as int)),
{
    broadcast use vstd::string::group_string_axioms;

    let total = byte_len(text);
    let mut chars = text.chars();
    let mut count: usize = 0;
    let mut bytes: usize = 0;
    proof {
        assert(text@.skip(0) =~= text@);
        assert(text@.take(0) =~= Seq::<char>::empty());
    }
    while count < n
        invariant_except_break
            chars.remaining() == text@.skip(count as int),
        invariant
            total == utf8_len(text@),
            0 <= count <= text@.len(),
            count <= n,
            bytes == utf8_len(text@.take(count as int)),
        ensures
            count == n || count == text@.len(),
            count <= n,
            count <= text@.len(),
            bytes == utf8_len(text@.take(count as int)),
        decreases n - count,
    {
        match chars.next() {
            None => {
                break ;
            },
            Some(c) => {
                assert(c == text@[count as int]);
                proof {
                    lemma_utf8_len_step(text@, count as int);
                    lemma_chars_le_bytes(text@);
                }
                bytes += char_width(c);
                count += 1;
            },
        }
    }
    (count, bytes)
}

/// Takes exactly `n` characters (not bytes) from `input`.
pub fn take_chars<'a>(n: usize, input: Input<'a>) -> (r: PResult<Input<'a>, &'a str>)
    ensures
        take_outcome(n, input, r),
        r matches Ok((_, rest)) ==> rest.is_tail_of(input),
{
    let (count, bytes) = scan_count(input.as_str(), n);
    if count == n {
        let (head, rest) = input.advance(bytes, Ghost(count as int));
        Ok((head, rest))
    } else {
        Err(Stack::from_mismatch(Error::end(input)))
    }
}

/// What [`eof`] returns: nothing, and the input as it was, where the input
/// is empty; a failure that points nowhere, where it is not.
pub open spec fn eof_outcome<'a>(input: Input<'a>, r: PResult<Input<'a>, ()>) -> bool {
    if input@.len() == 0 {
        r matches Ok((_, rest)) && rest == input
    } else {
        failed(r, Error::NotEnd)
    }
}

/// Succeeds if the input is empty, and consumes nothing.  [`Eof`] is the
/// same parser as a value.
pub fn eof<'a>(input: Input<'a>) -> (r: PResult<Input<'a>, ()>)
    ensures
        eof_outcome(input, r),
        r matches Ok((_, rest)) ==> rest.is_tail_of(input),
{
    if input.is_empty() {
        proof {
            crate::input::lemma_tail_reflexive(input);
        }
        Ok(((), input))
    } else {
        Err(Stack::from_mismatch(Error::NotEnd))
    }
}

/// A parser that matches a text letter for letter.  A `&str` is such a
/// parser by itself.
#[derive(Debug, Clone, Copy)]
pub struct Literal<'l>(pub &'l str);

/// A parser that matches a text, ignoring the case of ASCII letters.
#[derive(Debug, Clone, Copy)]
pub struct AnyCase<'l>(pub &'l str);

/// A parser that takes a fixed number of characters.
#[derive(Debug, Clone, Copy)]
pub struct Take(pub usize);

/// A parser that takes the longest prefix whose characters a test accepts,
/// and fails where that prefix has fewer than `min` characters.
#[derive(Debug)]
pub struct TakeWhile<Q> {
    /// The test that the characters of the prefix pass.
    pub predicate: Q,
    /// The least number of characters that the prefix must have.
    pub min: usize,
}

/// A parser that takes one character, if a test accepts it.
#[derive(Debug)]
pub struct Char<Q>(pub Q);

impl<'a, 'l> Parse<'a> for Literal<'l> {
    type Output = &'a str;

    open spec fn wf(&self) -> bool {
        true
    }

    open spec fn parses(&self, input: Input<'a>, r: PResult<Input<'a>, &'a str>) -> bool {
        literal_outcome(self.0@, input, r)
    }

    proof fn lemma_rest_is_tail(&self, input: Input<'a>, out: &'a str, rest: Input<'a>) {
    }

    fn parse(&self, input: Input<'a>) -> (r: PResult<Input<'a>, &'a str>) {
        match_literal(self.0, input)
    }
}

impl<'a, 'l> Parse<'a> for &'l str {
    type Output = &'a str;

    open spec fn wf(&self) -> bool {
        true
    }

    open spec fn parses(&self, input: Input<'a>, r: PResult<Input<'a>, &'a str>) -> bool {
        literal_outcome(self@, input, r)
    }

    proof fn lemma_rest_is_tail(&self, input: Input<'a>, out: &'a str, rest: Input<'a>) {
    }

    fn parse(&self, input: Input<'a>) -> (r: PResult<Input<'a>, &'a str>) {
        match_literal(*self, input)
    }
}

impl<'a> Parse<'a> for char {
    type Output = char;

    open spec fn wf(&self) -> bool {
        true
    }

    open spec fn parses(&self, input: Input<'a>, r: PResult<Input<'a>, char>) -> bool {
        char_outcome(*self, input, r)
    }

    proof fn lemma_rest_is_tail(&self, input: Input<'a>, out: char, rest: Input<'a>) {
    }

    fn parse(&self, input: Input<'a>) -> (r: PResult<Input<'a>, char>) {
        match_char(self, input)
    }
}

impl<'a, 'l> Parse<'a> for AnyCase<'l> {
    type Output = &'a str;

    open spec fn wf(&self) -> bool {
        true
    }

    open spec fn parses(&self, input: Input<'a>, r: PResult<Input<'a>, &'a str>) -> bool {
        anycase_outcome(self.0@, input, r)
    }

    proof fn lemma_rest_is_tail(&self, input: Input<'a>, out: &'a str, rest: Input<'a>) {
        lemma_common_prefix(self.0@, input@, true);
    }

    fn parse(&self, input: Input<'a>) -> (r: PResult<Input<'a>, &'a str>) {
        match_anycase(self.0, input)
    }
}

impl<'a> Parse<'a> for Take {
    type Output = &'a str;

    open spec fn wf(&self) -> bool {
        true
    }

    open spec fn parses(&self, input: Input<'a>, r: PResult<Input<'a>, &'a str>) -> bool {
        take_outcome(self.0, input, r)
    }

    proof fn lemma_rest_is_tail(&self, input: Input<'a>, out: &'a str, rest: Input<'a>) {
    }

    fn parse(&self, input: Input<'a>) -> (r: PResult<Input<'a>, &'a str>) {
        take_chars(self.0, input)
    }
}

impl<'a, Q: Predicate> Parse<'a> for TakeWhile<Q> {
    type Output = &'a str;

    open spec fn wf(&self) -> bool {
        self.predicate.wf()
    }

    open spec fn parses(&self, input: Input<'a>, r: PResult<Input<'a>, &'a str>) -> bool {
        run_outcome(self.predicate, self.min, input, r)
    }

    proof fn lemma_rest_is_tail(&self, input: Input<'a>, out: &'a str, rest: Input<'a>) {
        lemma_run_length(self.predicate, input@);
    }

    fn parse(&self, input: Input<'a>) -> (r: PResult<Input<'a>, &'a str>) {
        match_run(&self.predicate, self.min, input)
    }
}

impl<'a, Q: Predicate> Parse<'a> for Char<Q> {
    type Output = char;

    open spec fn wf(&self) -> bool {
        self.0.wf()
    }

    open spec fn parses(&self, input: Input<'a>, r: PResult<Input<'a>, char>) -> bool {
        char_outcome(self.0, input, r)
    }

    proof fn lemma_rest_is_tail(&self, input: Input<'a>, out: char, rest: Input<'a>) {
    }

    fn parse(&self, input: Input<'a>) -> (r: PResult<Input<'a>, char>) {
        match_char(&self.0, input)
    }
}

/// Two outcomes are the same: the same text with the same rest at the same
/// offset, or the same contexts of a failure.
pub open spec fn same_outcome<'a>(
    r: PResult<Input<'a>, &'a str>,
    s: PResult<Input<'a>, &'a str>,
) -> bool {
    match (r, s) {
        (Ok((a, x)), Ok((b, y))) => a@ == b@ && x@ == y@ && x.position() == y.position(),
        (Err(e), Err(f)) => e@ == f@,
        _ => false,
    }
}

/// The parsers of text are functions of the input: two runs on the same
/// input have the same outcome.
pub proof fn lemma_matchers_are_functions<'a, Q: Predicate>(
    predicate: Q,
    n: usize,
    literal: &str,
    input: Input<'a>,
    r: PResult<Input<'a>, &'a str>,
    s: PResult<Input<'a>, &'a str>,
)
    ensures
        (TakeWhile { predicate, min: n }).parses(input, r) && (TakeWhile {
            predicate,
            min: n,
        }).parses(input, s) ==> same_outcome(r, s),
        Take(n).parses(input, r) && Take(n).parses(input, s) ==> same_outcome(r, s),
        Literal(literal).parses(input, r) && Literal(literal).parses(input, s) ==> same_outcome(
            r,
            s,
        ),
        AnyCase(literal).parses(input, r) && AnyCase(literal).parses(input, s) ==> same_outcome(
            r,
            s,
        ),
{
}

/// A literal that is not empty consumes input when it matches.
pub proof fn lemma_literal_is_productive<'l>(text: &'l str)
    requires
        text@.len() > 0,
    ensures
        productive(Literal(text)),
        productive(text),
        productive(AnyCase(text)),
{
    assert forall|input: Input, out: &str, rest: Input| #[trigger]
        AnyCase(text).parses(input, Ok((out, rest))) implies rest@.len() < input@.len() by {
        lemma_common_prefix(text@, input@, true);
    }
}

/// A parser of one character consumes input when it matches.
pub proof fn lemma_char_is_productive<Q: Predicate>(predicate: Q)
    ensures
        productive(Char(predicate)),
{
}

/// A parser of a run of at least one character consumes input when it
/// matches, and so does one of a fixed number of characters that is not
/// zero.
pub proof fn lemma_run_is_productive<Q: Predicate>(predicate: Q, min: usize)
    requires
        min > 0,
    ensures
        productive(TakeWhile { predicate, min }),
        productive(Take(min)),
{
    assert forall|input: Input, out: &str, rest: Input| #[trigger]
        (TakeWhile { predicate, min }).parses(input, Ok((out, rest))) implies rest@.len()
        < input@.len() by {
        lemma_run_length(predicate, input@);
    }
}

/// Matches `text` letter for letter.
pub fn literal<'l>(text: &'l str) -> (p: Literal<'l>)
    ensures
        p == Literal(text),
{
    Literal(text)
}

/// Matches `literal` ignoring the case.  Only ASCII letters are folded: a
/// letter outside ASCII matches itself alone.
pub fn anycase<'l>(literal: &'l str) -> (p: AnyCase<'l>)
    ensures
        p == AnyCase(literal),
{
    AnyCase(literal)
}

/// Takes exactly `length` characters (not bytes) from the input, and fails
/// at the end of the input where it has fewer.
pub fn take(length: usize) -> (p: Take)
    ensures
        p == Take(length),
{
    Take(length)
}

/// Cuts off the longest prefix for whose characters `predicate` holds, and
/// fails where it has fewer than `min` characters.
pub fn take_while_min<Q: Predicate>(predicate: Q, min: usize) -> (p: TakeWhile<Q>)
    ensures
        p == (TakeWhile { predicate, min }),
{
    TakeWhile { predicate, min }
}

/// Cuts off the longest prefix whose characters `predicate` accepts, and
/// fails where there is no such character.  The predicate is a function from
/// characters to `bool`, or any other [`Predicate`].
pub fn take_while<Q: Predicate>(predicate: Q) -> (p: TakeWhile<Q>)
    ensures
        p == (TakeWhile { predicate, min: 1 }),
{
    TakeWhile { predicate, min: 1 }
}

/// Matches a prefix of at least one character, up to the first character
/// that `predicate` accepts.  The predicate is a function from characters to
/// `bool`, or any other [`Predicate`].
pub fn take_until<Q: Predicate>(predicate: Q) -> (p: TakeWhile<Not<Q>>)
    ensures
        p == (TakeWhile { predicate: Not(predicate), min: 1 }),
{
    TakeWhile { predicate: Not(predicate), min: 1 }
}

/// Matches one or more of the characters in `chars`.
pub fn one_of<'c>(chars: &'c [char]) -> (p: TakeWhile<OneOf<'c>>)
    ensures
        p == (TakeWhile { predicate: OneOf(chars), min: 1 }),
{
    TakeWhile { predicate: OneOf(chars), min: 1 }
}

/// Matches one or more characters that are not in `chars`.
pub fn none_of<'c>(chars: &'c [char]) -> (p: TakeWhile<NoneOf<'c>>)
    ensures
        p == (TakeWhile { predicate: NoneOf(chars), min: 1 }),
{
    TakeWhile { predicate: NoneOf(chars), min: 1 }
}

/// Matches one or more characters of Unicode whitespace.  As a value, the
/// same parser is `take_while(Whitespace)`.
pub fn whitespace<'a>(input: Input<'a>) -> (r: PResult<Input<'a>, &'a str>)
    ensures
        run_outcome(Whitespace, 1, input, r),
        r matches Ok((_, rest)) ==> rest.is_tail_of(input),
{
    match_run(&Whitespace, 1, input)
}

/// Matches one or more alphabetic or numeric characters.  As a value, the
/// same parser is `take_while(Alphanumeric)`.
pub fn alphanumeric<'a>(input: Input<'a>) -> (r: PResult<Input<'a>, &'a str>)
    ensures
        run_outcome(Alphanumeric, 1, input, r),
        r matches Ok((_, rest)) ==> rest.is_tail_of(input),
{
    match_run(&Alphanumeric, 1, input)
}

/// Matches one or more alphabetic characters.  As a value, the same parser
/// is `take_while(Alphabetic)`.
pub fn alphabetic<'a>(input: Input<'a>) -> (r: PResult<Input<'a>, &'a str>)
    ensures
        run_outcome(Alphabetic, 1, input, r),
        r matches Ok((_, rest)) ==> rest.is_tail_of(input),
{
    match_run(&Alphabetic, 1, input)
}

/// Matches one or more digits of the radix `R`, which is from 2 to 36.  As
/// a value, the same parser is `take_while(Digit(R))`.
pub fn digits<'a, const R: u32>(input: Input<'a>) -> (r: PResult<Input<'a>, &'a str>)
    requires
        2 <= R <= 36,
    ensures
        run_outcome(Digit(R), 1, input, r),
        r matches Ok((_, rest)) ==> rest.is_tail_of(input),
{
    match_run(&Digit(R), 1, input)
}

/// Returns the first character of the input if `predicate` accepts it.
/// Fails at that character if it does not, and at the end of the input if
/// the input is empty.  The predicate is a function from characters to
/// `bool`, or any other [`Predicate`].
pub fn char<Q: Predicate>(predicate: Q) -> (p: Char<Q>)
    ensures
        p == Char(predicate),
{
    Char(predicate)
}

/// Returns whatever character is first in the input.  Fails if the input
/// is empty.  As a value, the same parser is `char(Any)`.
pub fn any_char<'a>(input: Input<'a>) -> (r: PResult<Input<'a>, char>)
    ensures
        char_outcome(Any, input, r),
        r matches Ok((_, rest)) ==> rest.is_tail_of(input),
{
    match_char(&Any, input)
}

/// Returns the first character of the input if it is one of `chars`.
pub fn one_of_char<'c>(chars: &'c [char]) -> (p: Char<OneOf<'c>>)
    ensures
        p == Char(OneOf(chars)),
{
    Char(OneOf(chars))
}

/// Returns the first character of the input if it is not one of `chars`.
pub fn none_of_char<'c>(chars: &'c [char]) -> (p: Char<NoneOf<'c>>)
    ensures
        p == Char(NoneOf(chars)),
{
    Char(NoneOf(chars))
}

/// A parser that returns what another parser consumed.
#[derive(Debug)]
pub struct Consume<P>(pub P);

/// A parser that returns an empty slice where another parser fails.
#[derive(Debug)]
pub struct Or0<P>(pub P);

impl<'a, P: Parse<'a>> Parse<'a> for Consume<P> {
    type Output = &'a str;

    open spec fn wf(&self) -> bool {
        self.0.wf()
    }

    open spec fn parses(&self, input: Input<'a>, r: PResult<Input<'a>, &'a str>) -> bool {
        match r {
            Ok((out, rest)) => out@ == rest.consumed_from(input) && succeeds_to(
                self.0,
                input,
                rest,
            ),
            Err(e) => self.0.parses(input, Err(e)),
        }
    }

    proof fn lemma_rest_is_tail(&self, input: Input<'a>, out: &'a str, rest: Input<'a>) {
        let o = choose|o: P::Output| self.0.parses(input, Ok((o, rest)));
        self.0.lemma_rest_is_tail(input, o, rest);
    }

    fn parse(&self, input: Input<'a>) -> (r: PResult<Input<'a>, &'a str>) {
        match self.0.parse(input) {
            Ok((out, rest)) => {
                proof {
                    assert(self.0.parses(input, Ok((out, rest))));
                    assert(succeeds_to(self.0, input, rest));
                    lemma_tail_round_trip(input, rest);
                }
                let _ = rest.len();
                let bytes = rest.offset() - input.offset();
                let (head, _) = input.advance(bytes, Ghost(input@.len() - rest@.len()));
                Ok((head, rest))
            },
            Err(e) => Err(e),
        }
    }
}

impl<'a, P: Parse<'a, Output = &'a str>> Parse<'a> for Or0<P> {
    type Output = &'a str;

    open spec fn wf(&self) -> bool {
        self.0.wf()
    }

    open spec fn parses(&self, input: Input<'a>, r: PResult<Input<'a>, &'a str>) -> bool {
        match r {
            Ok((out, rest)) => {
                ||| self.0.parses(input, Ok((out, rest)))
                ||| (fails_on(self.0, input) && rest == input && out@.len() == 0)
            },
            Err(_) => false,
        }
    }

    proof fn lemma_rest_is_tail(&self, input: Input<'a>, out: &'a str, rest: Input<'a>) {
        if self.0.parses(input, Ok((out, rest))) {
            self.0.lemma_rest_is_tail(input, out, rest);
        } else {
            lemma_tail_reflexive(input);
        }
    }

    fn parse(&self, input: Input<'a>) -> (r: PResult<Input<'a>, &'a str>) {
        match self.0.parse(input) {
            Ok((out, rest)) => Ok((out, rest)),
            Err(e) => {
                proof {
                    assert(self.0.parses(input, Err(e)));
                    assert(input@.take(0) =~= Seq::<char>::empty());
                    lemma_tail_reflexive(input);
                }
                let (head, _) = input.advance(0, Ghost(0));
                Ok((head, input))
            },
        }
    }
}

/// Returns the prefix which the inner parser consumed as output.
pub fn consume<P>(parser: P) -> (p: Consume<P>)
    ensures
        p == Consume(parser),
{
    Consume(parser)
}

/// Returns an empty string if the underlying parser fails.  The string
/// stands for the start of the input, and the input is left as it was.
pub fn or0<P>(parser: P) -> (p: Or0<P>)
    ensures
        p == Or0(parser),
{
    Or0(parser)
}

/// What [`line_end`] returns: a line feed where the input begins with one,
/// and else what the literal of carriage return and line feed returns.
pub open spec fn line_end_outcome<'a>(input: Input<'a>, r: PResult<Input<'a>, &'a str>) -> bool {
    if "\n"@.is_prefix_of(input@) {
        literal_outcome("\n"@, input, r)
    } else {
        literal_outcome("\r\n"@, input, r)
    }
}

/// Matches either a `\n` or `\r\n` line ending, and returns it.
/// [`LineEnd`] is the same parser as a value.
pub fn line_end<'a>(input: Input<'a>) -> (r: PResult<Input<'a>, &'a str>)
    ensures
        line_end_outcome(input, r),
        r matches Ok((_, rest)) ==> rest.is_tail_of(input),
{
    match match_literal("\n", input) {
        Ok((out, rest)) => Ok((out, rest)),
        Err(_) => match_literal("\r\n", input),
    }
}

/// What [`line`] returns: the characters before the first line feed, where
/// there is one, and what follows the line feed as the rest.  Without a
/// line feed it fails at the end of the input.
pub open spec fn line_outcome<'a>(input: Input<'a>, r: PResult<Input<'a>, &'a str>) -> bool {
    let k = run_length(Not('\n'), input@) as int;
    if k < input@.len() {
        r matches Ok((out, rest)) && out@ == input@.take(k) && rest.is_tail_at(input, k + 1)
    } else {
        failed(r, end_of(input))
    }
}

/// Matches a single `\n`-terminated line.  Returns the whole line without
/// the line feed.  If the line ended in `\r\n`, the carriage return is
/// part of the output.  [`Line`] is the same parser as a value.
pub fn line<'a>(input: Input<'a>) -> (r: PResult<Input<'a>, &'a str>)
    ensures
        line_outcome(input, r),
        r matches Ok((_, rest)) ==> rest.is_tail_of(input),
{
    let (count, bytes) = scan_run(&Not('\n'), input.as_str());
    let (head, mid) = input.advance(bytes, Ghost(count as int));
    proof {
        reveal_strlit("\n");
        reveal_strlit("\r\n");
        lemma_run_length(Not('\n'), input@);
        lemma_tail_round_trip(input, mid);
        lemma_chars_le_bytes("\r\n"@);
        if count < input@.len() {
            assert(mid@[0] == '\n');
            assert("\n"@ =~= mid@.subrange(0, 1));
        }
    }
    match line_end(mid) {
        Ok((_, rest)) => {
            proof {
                lemma_tail_transitive(input, mid, rest);
            }
            Ok((head, rest))
        },
        Err(e) => Err(e),
    }
}

/// The parser [`eof`] as a value: it succeeds if the input is empty.
#[derive(Debug, Clone, Copy)]
pub struct Eof;

/// The parser [`line_end`] as a value: it matches a line feed, or a carriage
/// return and a line feed.
#[derive(Debug, Clone, Copy)]
pub struct LineEnd;

/// The parser [`line`] as a value: it matches a line with the line feed
/// that ends it.
#[derive(Debug, Clone, Copy)]
pub struct Line;

impl<'a> Parse<'a> for Eof {
    type Output = ();

    open spec fn wf(&self) -> bool {
        true
    }

    open spec fn parses(&self, input: Input<'a>, r: PResult<Input<'a>, ()>) -> bool {
        eof_outcome(input, r)
    }

    proof fn lemma_rest_is_tail(&self, input: Input<'a>, out: (), rest: Input<'a>) {
        lemma_tail_reflexive(input);
    }

    fn parse(&self, input: Input<'a>) -> (r: PResult<Input<'a>, ()>) {
        eof(input)
    }
}

impl<'a> Parse<'a> for LineEnd {
    type Output = &'a str;

    open spec fn wf(&self) -> bool {
        true
    }

    open spec fn parses(&self, input: Input<'a>, r: PResult<Input<'a>, &'a str>) -> bool {
        line_end_outcome(input, r)
    }

    proof fn lemma_rest_is_tail(&self, input: Input<'a>, out: &'a str, rest: Input<'a>) {
    }

    fn parse(&self, input: Input<'a>) -> (r: PResult<Input<'a>, &'a str>) {
        line_end(input)
    }
}

impl<'a> Parse<'a> for Line {
    type Output = &'a str;

    open spec fn wf(&self) -> bool {
        true
    }

    open spec fn parses(&self, input: Input<'a>, r: PResult<Input<'a>, &'a str>) -> bool {
        line_outcome(input, r)
    }

    proof fn lemma_rest_is_tail(&self, input: Input<'a>, out: &'a str, rest: Input<'a>) {
        lemma_run_length(Not('\n'), input@);
    }

    fn parse(&self, input: Input<'a>) -> (r: PResult<Input<'a>, &'a str>) {
        line(input)
    }
}

} // verus!
