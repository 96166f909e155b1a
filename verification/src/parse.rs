//! The contract that every parser meets.

use crate::adaptor::{
    AndThen, Before, ByRef, Coerce, MapErr, MapOut, MapResult, OrValue, Value, WithContext,
    WithMessage,
};
use crate::combinator::choice::Choice;
use crate::context::Context;
use crate::error::Error;
use crate::input::{lemma_tail_round_trip, utf8_len, Input};
use core::marker::PhantomData;
use vstd::prelude::*;
use vstd::utf8::encode_utf8;

verus! {

/// The result type returned by parsers.  If the parser succeeds, an
/// `(output, rest)` tuple is returned, where `output` is what the parser
/// made and `rest` is the input with the parsed part cut off.
pub type PResult<I, O> = Result<(O, I), Error>;

/// The core trait which defines parsers.
///
/// A parser is described by a relation between an input and an outcome:
/// [`Parse::parses`] says which outcomes `parse` may have on an input.  For
/// the matchers of this library the relation admits exactly one outcome on
/// each input; for combinators it is stated over the relations of the
/// parsers that they combine.
pub trait Parse<'a> {
    /// What the parser makes of the input that it consumes.
    type Output;

    /// What must hold of the parser for it to be run.
    spec fn wf(&self) -> bool;

    /// Whether `r` is an outcome of the parser on `input`.
    spec fn parses(&self, input: Input<'a>, r: PResult<Input<'a>, Self::Output>) -> bool;

    /// What a parser leaves is a tail of what it was given: no parser
    /// makes up input, or goes back in it.
    proof fn lemma_rest_is_tail(&self, input: Input<'a>, out: Self::Output, rest: Input<'a>)
        requires
            self.wf(),
            self.parses(input, Ok((out, rest))),
        ensures
            rest.is_tail_of(input),
    ;

    /// Runs the parser on `input`.
    fn parse(&self, input: Input<'a>) -> (r: PResult<Input<'a>, Self::Output>)
        requires
            self.wf(),
        ensures
            self.parses(input, r),
            r matches Ok((_, rest)) ==> rest.is_tail_of(input),
    ;

    /// Borrows the parser: the parser that is returned parses as this one
    /// does, and can be copied, so that this parser can stand in several
    /// places at once.
    fn by_ref(&self) -> (p: ByRef<'_, Self>) where Self: Sized
        ensures
            p == ByRef(self),
    {
        ByRef(self)
    }

    /// Converts the output type using the `Into` trait.
    fn coerce<OX>(self) -> (p: Coerce<Self, OX>) where Self: Sized, Self::Output: Into<OX>
        ensures
            p == (Coerce::<Self, OX> { parser: self, target: PhantomData }),
    {
        Coerce { parser: self, target: PhantomData }
    }

    /// Transforms the result.  The function `f` is passed `Ok(output)` if
    /// the parser succeeded or `Err(error)` if it failed.  If it returns
    /// `Ok`, that is the new output: behind the parser's output, what the
    /// parser left is left; behind the parser's error, the input is left as
    /// it was.  If it returns `Err`, that is the new error.
    fn map<OX, F>(self, f: F) -> (p: MapResult<Self, F>) where
        Self: Sized,
        F: Fn(Result<Self::Output, Error>) -> Result<OX, Error>,

        ensures
            p == (MapResult { parser: self, f }),
    {
        MapResult { parser: self, f }
    }

    /// Applies a transformation to the output, or does nothing if the
    /// parser returns an error.
    fn map_out<OX, F>(self, f: F) -> (p: MapOut<Self, F>) where
        Self: Sized,
        F: Fn(Self::Output) -> OX,

        ensures
            p == (MapOut { parser: self, f }),
    {
        MapOut { parser: self, f }
    }

    /// Applies a transformation to the error, or does nothing if the parser
    /// succeeds.
    fn map_err<F>(self, f: F) -> (p: MapErr<Self, F>) where Self: Sized, F: Fn(Error) -> Error
        ensures
            p == (MapErr { parser: self, f }),
    {
        MapErr { parser: self, f }
    }

    /// Replaces the output of the parser with clones of `value`.  If the
    /// parser fails, the error remains unchanged.
    fn value<V: Clone>(self, value: V) -> (p: Value<Self, V>) where Self: Sized
        ensures
            p == (Value { parser: self, value }),
    {
        Value { parser: self, value }
    }

    /// Attaches the context that `f` makes to the error, if the parser
    /// fails.
    fn with_context<F>(self, f: F) -> (p: WithContext<Self, F>) where
        Self: Sized,
        F: Fn() -> Context,

        ensures
            p == (WithContext { parser: self, f }),
    {
        WithContext { parser: self, f }
    }

    /// Attaches the message that `f` makes to the error, if the parser
    /// fails.
    fn with_message<F>(self, f: F) -> (p: WithMessage<Self, F>) where
        Self: Sized,
        F: Fn() -> String,

        ensures
            p == (WithMessage { parser: self, f }),
    {
        WithMessage { parser: self, f }
    }

    /// Calls the `other` parser if this one fails, and returns its result
    /// instead.
    fn or<Q>(self, other: Q) -> (p: Choice<(Self, Q)>) where Self: Sized
        ensures
            p == Choice((self, other)),
    {
        Choice((self, other))
    }

    /// Replaces the error with a clone of `default` and the untouched
    /// input, if the parser fails.
    fn or_value(self, default: Self::Output) -> (p: OrValue<Self, Self::Output>) where
        Self: Sized,
        Self::Output: Clone,

        ensures
            p == (OrValue { parser: self, default }),
    {
        OrValue { parser: self, default }
    }

    /// If the parser succeeds, discards its output and returns the result
    /// of the `next` parser on what is left.  If either parser fails, its
    /// error is returned.
    fn and_then<Q>(self, next: Q) -> (p: AndThen<Self, Q>) where Self: Sized
        ensures
            p == (AndThen { first: self, next }),
    {
        AndThen { first: self, next }
    }

    /// Runs `next` behind the parser and discards its output.  If either
    /// parser fails, its error is returned.
    fn before<Q>(self, next: Q) -> (p: Before<Self, Q>) where Self: Sized
        ensures
            p == (Before { first: self, next }),
    {
        Before { first: self, next }
    }
}

/// A function from an input to a result is a parser, provided that it
/// accepts every input and returns as rest a tail of its input.
///
/// A function serves callers that ask no proof of what is parsed, and
/// functions that are generic in the parsers that they are given.  Verus
/// does not look into a parser that holds a named function or a closure of a
/// known type: in verified code that builds parsers and reasons about their
/// results, build them of the parser types of this library, each of which
/// stands beside the function of its name (`Eof` beside `eof`, `char(Any)`
/// beside `any_char`), and of types of your own that implement [`Parse`].
impl<'a, O, F: Fn(Input<'a>) -> PResult<Input<'a>, O>> Parse<'a> for F {
    type Output = O;

    open spec fn wf(&self) -> bool {
        &&& forall|input: Input<'a>| call_requires(*self, (input,))
        &&& forall|input: Input<'a>, out: O, rest: Input<'a>|
            call_ensures(*self, (input,), Ok::<(O, Input<'a>), Error>((out, rest)))
                ==> rest.is_tail_of(input)
    }

    open spec fn parses(&self, input: Input<'a>, r: PResult<Input<'a>, O>) -> bool {
        call_ensures(*self, (input,), r)
    }

    proof fn lemma_rest_is_tail(&self, input: Input<'a>, out: O, rest: Input<'a>) {
    }

    fn parse(&self, input: Input<'a>) -> (r: PResult<Input<'a>, O>) {
        let r = self(input);
        proof {
            if r is Ok {
                let pair = r->Ok_0;
                assert(r == Ok::<(O, Input<'a>), Error>((pair.0, pair.1)));
            }
        }
        r
    }
}

/// What the parser of a function is: in a function that creates a closure,
/// this states of the closure what the implementation above states of every
/// function.
pub proof fn lemma_function_is_parser<'a, O, F: Fn(Input<'a>) -> PResult<Input<'a>, O>>(f: F)
    ensures
        f.wf() <==> {
            &&& forall|input: Input<'a>| call_requires(f, (input,))
            &&& forall|input: Input<'a>, out: O, rest: Input<'a>|
                call_ensures(f, (input,), Ok::<(O, Input<'a>), Error>((out, rest)))
                    ==> rest.is_tail_of(input)
        },
        forall|input: Input<'a>, r: PResult<Input<'a>, O>| #[trigger]
            f.parses(input, r) <==> call_ensures(f, (input,), r),
{
}

/// A parser always consumes input when it succeeds.  This is what
/// [`fold`](crate::combinator::fold) asks of the parser that it repeats.
pub open spec fn productive<'a, P: Parse<'a>>(parser: P) -> bool {
    forall|input: Input<'a>, out: P::Output, rest: Input<'a>| #[trigger]
        parser.parses(input, Ok((out, rest))) ==> rest@.len() < input@.len()
}

/// The parser has a failure as an outcome on `input`.
pub open spec fn fails_on<'a, P: Parse<'a>>(parser: P, input: Input<'a>) -> bool {
    exists|e: Error| parser.parses(input, Err::<(P::Output, Input<'a>), Error>(e))
}

/// The parser fails on `input`, and never succeeds on it.
pub open spec fn always_fails_on<'a, P: Parse<'a>>(parser: P, input: Input<'a>) -> bool {
    &&& fails_on(parser, input)
    &&& forall|r: PResult<Input<'a>, P::Output>| #[trigger] parser.parses(input, r) ==> r is Err
}

/// What a parser consumed, followed by what it left, is the input that it
/// was given, character for character and byte for byte; and the offset of
/// what it left is the offset of the input plus the bytes consumed.
pub proof fn lemma_consumed_then_rest_is_input<'a, P: Parse<'a>>(
    parser: P,
    input: Input<'a>,
    out: P::Output,
    rest: Input<'a>,
)
    requires
        parser.wf(),
        parser.parses(input, Ok((out, rest))),
    ensures
        rest.consumed_from(input) + rest@ =~= input@,
        encode_utf8(rest.consumed_from(input)) + encode_utf8(rest@) =~= encode_utf8(input@),
        rest.position() == input.position() + utf8_len(rest.consumed_from(input)),
        exists|k: int| 0 <= k <= input@.len() && rest@ == #[trigger] input@.skip(k),
{
    parser.lemma_rest_is_tail(input, out, rest);
    lemma_tail_round_trip(input, rest);
    assert(rest@ == input@.skip(input@.len() - rest@.len()));
}

} // verus!
