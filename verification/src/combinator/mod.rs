//! Combinators which combine other parsers, whatever they parse.

pub mod choice;
pub mod tuple;

pub use choice::{choice, Choice};
pub use tuple::{tuple, Sequence, Tuple};

use crate::adaptor::Value;
use crate::error::Error;
use crate::input::{lemma_tail_reflexive, lemma_tail_transitive, Input};
use crate::parse::{always_fails_on, fails_on, productive, PResult, Parse};
use crate::span::Span;
use crate::string::Error as Mismatch;
use vstd::pervasive::cloned;
use vstd::prelude::*;

verus! {

/// A parser that never fails: where the inner parser fails, it returns
/// `None` and the input as it was.
#[derive(Debug)]
pub struct Optional<P>(pub P);

/// A parser that succeeds where the inner parser fails, and fails where it
/// succeeds.  It never consumes input.
///
/// As a parser, `Not` fails with the error type of every parser, which
/// cannot hold the inner parser's output: its failure points to what the
/// inner parser matched.  The function [`refute`] swaps the two sides of the
/// result in full, and hands the inner parser's output back as the failure.
#[derive(Debug)]
pub struct Not<P>(pub P);

/// A parser that runs three parsers in a row and keeps the output of the
/// second.
#[derive(Debug)]
pub struct Delimited<L, C, R> {
    /// What stands before the content.
    pub left: L,
    /// The content.
    pub content: C,
    /// What stands behind the content.
    pub right: R,
}

/// A parser that repeats another, and gathers its outputs in an
/// accumulator.
pub struct Fold<P, A, F> {
    /// The parser that is repeated.
    pub parser: P,
    /// The accumulator that every run begins with.
    pub acc: A,
    /// Puts one output in the accumulator.
    pub apply: F,
}

/// The failure of [`Not`] where the inner parser matched the input from
/// `input` to `rest`: it points to what was matched.
pub open spec fn matched_between(input: Input, rest: Input) -> Mismatch {
    Mismatch::Unmatched { span: Span::of(input.position() as int, rest.position() as int) }
}

impl<'a, P: Parse<'a>> Parse<'a> for Optional<P> {
    type Output = Option<P::Output>;

    open spec fn wf(&self) -> bool {
        self.0.wf()
    }

    open spec fn parses(&self, input: Input<'a>, r: PResult<Input<'a>, Option<P::Output>>)
        -> bool {
        match r {
            Ok((Some(out), rest)) => self.0.parses(input, Ok((out, rest))),
            Ok((None, rest)) => rest == input && fails_on(self.0, input),
            Err(_) => false,
        }
    }

    proof fn lemma_rest_is_tail(&self, input: Input<'a>, out: Option<P::Output>, rest: Input<'a>) {
        match out {
            Some(o) => self.0.lemma_rest_is_tail(input, o, rest),
            None => lemma_tail_reflexive(input),
        }
    }

    fn parse(&self, input: Input<'a>) -> (r: PResult<Input<'a>, Option<P::Output>>) {
        match self.0.parse(input) {
            Ok((out, rest)) => Ok((Some(out), rest)),
            Err(e) => {
                proof {
                    assert(self.0.parses(input, Err(e)));
                    lemma_tail_reflexive(input);
                }
                Ok((None, input))
            },
        }
    }
}

impl<'a, P: Parse<'a>> Parse<'a> for Not<P> {
    type Output = Error;

    open spec fn wf(&self) -> bool {
        self.0.wf()
    }

    open spec fn parses(&self, input: Input<'a>, r: PResult<Input<'a>, Error>) -> bool {
        match r {
            Ok((e, rest)) => rest == input && self.0.parses(input, Err(e)),
            Err(e) => exists|out: P::Output, rest: Input<'a>| #[trigger]
                self.0.parses(input, Ok((out, rest))) && e@ == Error::single(
                    matched_between(input, rest),
                ),
        }
    }

    proof fn lemma_rest_is_tail(&self, input: Input<'a>, out: Error, rest: Input<'a>) {
        lemma_tail_reflexive(input);
    }

    fn parse(&self, input: Input<'a>) -> (r: PResult<Input<'a>, Error>) {
        match self.0.parse(input) {
            Ok((out, rest)) => {
                proof {
                    crate::input::lemma_tail_round_trip(input, rest);
                }
                let _ = rest.len();
                let span = Span::new(input.offset(), rest.offset());
                let e = Error::from_mismatch(Mismatch::unmatched(span));
                proof {
                    assert(self.0.parses(input, Ok((out, rest))));
                }
                Err(e)
            },
            Err(e) => {
                proof {
                    lemma_tail_reflexive(input);
                }
                Ok((e, input))
            },
        }
    }
}

/// The three parsers match one behind the other from `input` to `rest`, and
/// the second makes `out`.
pub open spec fn all_match<'a, L: Parse<'a>, C: Parse<'a>, R: Parse<'a>>(
    left: L,
    content: C,
    right: R,
    input: Input<'a>,
    out: C::Output,
    rest: Input<'a>,
) -> bool {
    exists|a: L::Output, i: Input<'a>, c: R::Output, j: Input<'a>|
        #![trigger left.parses(input, Ok((a, i))), right.parses(j, Ok((c, rest)))]
        left.parses(input, Ok((a, i))) && content.parses(i, Ok((out, j))) && right.parses(
            j,
            Ok((c, rest)),
        )
}

/// One of the three parsers fails with `e`, behind those before it.
pub open spec fn one_fails<'a, L: Parse<'a>, C: Parse<'a>, R: Parse<'a>>(
    left: L,
    content: C,
    right: R,
    input: Input<'a>,
    e: Error,
) -> bool {
    ||| left.parses(input, Err(e))
    ||| exists|a: L::Output, i: Input<'a>| #[trigger]
        left.parses(input, Ok((a, i))) && content.parses(i, Err(e))
    ||| exists|a: L::Output, i: Input<'a>, b: C::Output, j: Input<'a>|
        #![trigger left.parses(input, Ok((a, i))), content.parses(i, Ok((b, j)))]
        left.parses(input, Ok((a, i))) && content.parses(i, Ok((b, j))) && right.parses(
            j,
            Err(e),
        )
}

impl<'a, L: Parse<'a>, C: Parse<'a>, R: Parse<'a>> Parse<'a> for Delimited<L, C, R> {
    type Output = C::Output;

    open spec fn wf(&self) -> bool {
        self.left.wf() && self.content.wf() && self.right.wf()
    }

    open spec fn parses(&self, input: Input<'a>, r: PResult<Input<'a>, C::Output>) -> bool {
        match r {
            Ok((out, rest)) => all_match(self.left, self.content, self.right, input, out, rest),
            Err(e) => one_fails(self.left, self.content, self.right, input, e),
        }
    }

    proof fn lemma_rest_is_tail(&self, input: Input<'a>, out: C::Output, rest: Input<'a>) {
        let (a, i, c, j) = choose|a: L::Output, i: Input<'a>, c: R::Output, j: Input<'a>|
            #![trigger self.left.parses(input, Ok((a, i))), self.right.parses(j, Ok((c, rest)))]
            self.left.parses(input, Ok((a, i))) && self.content.parses(i, Ok((out, j)))
                && self.right.parses(j, Ok((c, rest)));
        self.left.lemma_rest_is_tail(input, a, i);
        self.content.lemma_rest_is_tail(i, out, j);
        self.right.lemma_rest_is_tail(j, c, rest);
        lemma_tail_transitive(input, i, j);
        lemma_tail_transitive(input, j, rest);
    }

    fn parse(&self, input: Input<'a>) -> (r: PResult<Input<'a>, C::Output>) {
        match self.left.parse(input) {
            Err(e) => Err(e),
            Ok((a, i)) => match self.content.parse(i) {
                Err(e) => {
                    proof {
                        assert(self.left.parses(input, Ok((a, i))));
                    }
                    Err(e)
                },
                Ok((out, j)) => match self.right.parse(j) {
                    Ok((c, rest)) => {
                        proof {
                            assert(self.left.parses(input, Ok((a, i))) && self.right.parses(
                                j,
                                Ok((c, rest)),
                            ));
                            assert(all_match(
                                self.left,
                                self.content,
                                self.right,
                                input,
                                out,
                                rest,
                            ));
                            lemma_tail_transitive(input, i, j);
                            lemma_tail_transitive(input, j, rest);
                        }
                        Ok((out, rest))
                    },
                    Err(e) => {
                        proof {
                            assert(self.left.parses(input, Ok((a, i))) && self.content.parses(
                                i,
                                Ok((out, j)),
                            ));
                        }
                        Err(e)
                    },
                },
            },
        }
    }
}

/// Beginning with the accumulator `acc` on `input`, repeating `parser` and
/// putting each output in the accumulator with `apply` ends with the
/// accumulator `out` on `rest`, where `parser` fails.
pub open spec fn folds<'a, P: Parse<'a>, A, F: Fn(A, P::Output) -> A>(
    parser: P,
    apply: F,
    acc: A,
    input: Input<'a>,
    out: A,
    rest: Input<'a>,
) -> bool
    decreases input@.len(),
{
    ||| (out == acc && rest == input && fails_on(parser, input))
    ||| exists|o: P::Output, mid: Input<'a>, next: A|
        #![trigger parser.parses(input, Ok((o, mid))), call_ensures(apply, (acc, o), next)]
        parser.parses(input, Ok((o, mid))) && mid@.len() < input@.len() && call_ensures(
            apply,
            (acc, o),
            next,
        ) && folds(parser, apply, next, mid, out, rest)
}

/// Repeating a parser leaves a tail of the input.
pub proof fn lemma_folds_tail<'a, P: Parse<'a>, A, F: Fn(A, P::Output) -> A>(
    parser: P,
    apply: F,
    acc: A,
    input: Input<'a>,
    out: A,
    rest: Input<'a>,
)
    requires
        parser.wf(),
        folds(parser, apply, acc, input, out, rest),
    ensures
        rest.is_tail_of(input),
    decreases input@.len(),
{
    if out == acc && rest == input && fails_on(parser, input) {
        lemma_tail_reflexive(input);
    } else {
        let (o, mid, next) = choose|o: P::Output, mid: Input<'a>, next: A|
            #![trigger parser.parses(input, Ok((o, mid))), call_ensures(apply, (acc, o), next)]
            parser.parses(input, Ok((o, mid))) && mid@.len() < input@.len() && call_ensures(
                apply,
                (acc, o),
                next,
            ) && folds(parser, apply, next, mid, out, rest);
        parser.lemma_rest_is_tail(input, o, mid);
        lemma_folds_tail(parser, apply, next, mid, out, rest);
        lemma_tail_transitive(input, mid, rest);
    }
}

impl<'a, P: Parse<'a>, A: Clone, F: Fn(A, P::Output) -> A> Parse<'a> for Fold<P, A, F> {
    type Output = A;

    /// The repeated parser must consume input whenever it succeeds:
    /// repeating one that can succeed on nothing would never end.
    open spec fn wf(&self) -> bool {
        &&& self.parser.wf()
        &&& productive(self.parser)
        &&& forall|acc: A, o: P::Output| call_requires(self.apply, (acc, o))
    }

    open spec fn parses(&self, input: Input<'a>, r: PResult<Input<'a>, A>) -> bool {
        r matches Ok((out, rest)) && exists|start: A| #[trigger]
            cloned(self.acc, start) && folds(self.parser, self.apply, start, input, out, rest)
    }

    proof fn lemma_rest_is_tail(&self, input: Input<'a>, out: A, rest: Input<'a>) {
        let start = choose|start: A| #[trigger]
            cloned(self.acc, start) && folds(self.parser, self.apply, start, input, out, rest);
        lemma_folds_tail(self.parser, self.apply, start, input, out, rest);
    }

    fn parse(&self, input: Input<'a>) -> (r: PResult<Input<'a>, A>) {
        let mut acc = self.acc.clone();
        let mut current = input;
        let ghost start = acc;
        loop
            invariant
                self.wf(),
                cloned(self.acc, start),
                forall|out: A, rest: Input<'a>| #[trigger]
                    folds(self.parser, self.apply, acc, current, out, rest) ==> folds(
                        self.parser,
                        self.apply,
                        start,
                        input,
                        out,
                        rest,
                    ),
            decreases current@.len(),
        {
            match self.parser.parse(current) {
                Err(e) => {
                    proof {
                        assert(self.parser.parses(current, Err(e)));
                        assert(folds(self.parser, self.apply, acc, current, acc, current));
                        lemma_folds_tail(self.parser, self.apply, start, input, acc, current);
                    }
                    return Ok((acc, current));
                },
                Ok((o, mid)) => {
                    let ghost before = acc;
                    proof {
                        assert(self.parser.parses(current, Ok((o, mid))));
                    }
                    let next = (self.apply)(acc, o);
                    proof {
                        assert forall|out: A, rest: Input<'a>| #[trigger]
                            folds(self.parser, self.apply, next, mid, out, rest) implies folds(
                            self.parser,
                            self.apply,
                            start,
                            input,
                            out,
                            rest,
                        ) by {
                            assert(self.parser.parses(current, Ok((o, mid))) && call_ensures(
                                self.apply,
                                (before, o),
                                next,
                            ));
                            assert(folds(self.parser, self.apply, before, current, out, rest));
                        }
                    }
                    acc = next;
                    current = mid;
                },
            }
        }
    }
}

/// Applies `parser` again and again, and passes each output with the
/// accumulator to `apply`, which returns the new accumulator.  Useful for
/// building strings, vectors of elements, and so on.  Every run begins with
/// a clone of `acc`.
///
/// `fold` stops when `parser` returns an error, and returns the accumulator
/// and the input as they stood before that attempt.  A `parser` that can
/// succeed without consuming input would be repeated for ever: such a
/// parser does not meet what `fold` requires.
pub fn fold<P, A, F>(parser: P, acc: A, apply: F) -> (p: Fold<P, A, F>)
    ensures
        p == (Fold { parser, acc, apply }),
{
    Fold { parser, acc, apply }
}

/// Replaces the output of `parser` with clones of `value`.
pub fn value<P, V: Clone>(output: V, parser: P) -> (p: Value<P, V>)
    ensures
        p == (Value { parser, value: output }),
{
    Value { parser, value: output }
}

/// An optional parser never fails.
pub proof fn lemma_optional_never_fails<'a, P: Parse<'a>>(
    parser: P,
    input: Input<'a>,
    r: PResult<Input<'a>, Option<P::Output>>,
)
    requires
        Optional(parser).parses(input, r),
    ensures
        r is Ok,
{
}

/// Where the inner parser fails, the optional parser returns `None` and
/// the input as it was, and nothing else.
pub proof fn lemma_optional_of_failure<'a, P: Parse<'a>>(
    parser: P,
    input: Input<'a>,
    r: PResult<Input<'a>, Option<P::Output>>,
)
    requires
        always_fails_on(parser, input),
    ensures
        Optional(parser).parses(input, r) <==> r == Ok::<
            (Option<P::Output>, Input<'a>),
            Error,
        >((None, input)),
{
    if let Ok((Some(out), rest)) = r {
        if parser.parses(input, Ok((out, rest))) {
            assert(false);
        }
    }
}

/// Where the repeated parser fails on the input, `fold` returns a clone of
/// its first accumulator and the input as it was.
pub proof fn lemma_fold_of_failure<'a, P: Parse<'a>, A: Clone, F: Fn(A, P::Output) -> A>(
    fold: Fold<P, A, F>,
    input: Input<'a>,
    r: PResult<Input<'a>, A>,
)
    requires
        always_fails_on(fold.parser, input),
        fold.parses(input, r),
    ensures
        r matches Ok((out, rest)) && rest == input && cloned(fold.acc, out),
{
    let out = r->Ok_0.0;
    let rest = r->Ok_0.1;
    let start = choose|start: A| #[trigger]
        cloned(fold.acc, start) && folds(fold.parser, fold.apply, start, input, out, rest);
    if !(out == start && rest == input) {
        let (o, mid, next) = choose|o: P::Output, mid: Input<'a>, next: A|
            #![trigger fold.parser.parses(input, Ok((o, mid))), call_ensures(fold.apply, (start, o), next)]
            fold.parser.parses(input, Ok((o, mid))) && mid@.len() < input@.len() && call_ensures(
                fold.apply,
                (start, o),
                next,
            ) && folds(fold.parser, fold.apply, next, mid, out, rest);
        assert(false);
    }
}

/// Makes the passed parser optional.  That is, it'll return
/// `Ok((None, input))` if the underlying parser fails.  The input won't be
/// consumed.
pub fn optional<P>(parser: P) -> (p: Optional<P>)
    ensures
        p == Optional(parser),
{
    Optional(parser)
}

/// The same as [`optional`].
pub fn option<P>(parser: P) -> (p: Optional<P>)
    ensures
        p == Optional(parser),
{
    Optional(parser)
}

/// Swaps the parser results, as far as a parser can: if the underlying
/// parser fails, `not` returns its error as the output, and the input that
/// was passed to it.  If it succeeds, `not` fails, and points to what the
/// underlying parser matched.  See [`refute`] for the swap that keeps the
/// underlying parser's output.
pub fn not<P>(parser: P) -> (p: Not<P>)
    ensures
        p == Not(parser),
{
    Not(parser)
}

/// `parser` makes `out` of `input`, whatever it leaves.
pub open spec fn makes<'a, P: Parse<'a>>(parser: P, input: Input<'a>, out: P::Output) -> bool {
    exists|rest: Input<'a>| parser.parses(input, Ok((out, rest)))
}

/// Runs `parser` on `input` and swaps its result: if the parser fails, its
/// error is returned as the output, with the input as it was.  If it
/// succeeds, its output is returned as the failure, and the input is not
/// consumed.
pub fn refute<'a, P: Parse<'a>>(parser: &P, input: Input<'a>) -> (r: Result<
    (Error, Input<'a>),
    P::Output,
>)
    requires
        parser.wf(),
    ensures
        match r {
            Ok((e, rest)) => rest == input && parser.parses(input, Err(e)),
            Err(out) => makes(*parser, input, out),
        },
{
    match parser.parse(input) {
        Ok((out, rest)) => {
            proof {
                assert(parser.parses(input, Ok((out, rest))));
            }
            Err(out)
        },
        Err(e) => Ok((e, input)),
    }
}

/// What [`refute`] returns and what [`Not`] returns go together: the two
/// succeed on the same outcomes of the inner parser, with the same error as
/// output and the input as it was, and where `Not` fails the inner parser
/// made an output, which `refute` hands back.
pub proof fn lemma_not_agrees_with_refute<'a, P: Parse<'a>>(
    parser: P,
    input: Input<'a>,
    r: PResult<Input<'a>, Error>,
)
    requires
        Not(parser).parses(input, r),
    ensures
        match r {
            Ok((e, rest)) => rest == input && parser.parses(input, Err(e)),
            Err(_) => exists|out: P::Output| makes(parser, input, out),
        },
{
    if let Err(e) = r {
        let (out, rest) = choose|out: P::Output, rest: Input<'a>| #[trigger]
            parser.parses(input, Ok((out, rest))) && e@ == Error::single(
                matched_between(input, rest),
            );
        assert(makes(parser, input, out));
    }
}

/// Matches the `content` parser with `left` and `right` at the start and
/// the end respectively.  If any one of the three parsers fails, its error
/// is returned.  Otherwise the output of `content` is returned.
pub fn delimited<L, C, R>(left: L, content: C, right: R) -> (p: Delimited<L, C, R>)
    ensures
        p == (Delimited { left, content, right }),
{
    Delimited { left, content, right }
}

} // verus!
