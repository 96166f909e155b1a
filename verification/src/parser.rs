//! A parser with the methods that build other parsers of it.

use crate::adaptor::{
    AndThen, Before, ByRef, Coerce, MapErr, MapOut, MapResult, OrValue, Value, WithContext,
    WithMessage,
};
use crate::combinator::choice::Choice;
use crate::context::Context;
use crate::error::Error;
use crate::input::Input;
use crate::parse::{PResult, Parse};
use core::marker::PhantomData;
use vstd::prelude::*;

verus! {

/// A parser, wrapped so that other parsers can be built of it by method
/// calls.  The wrapper parses as the parser that it holds.
pub struct Parser<P>(pub P);

impl<'a, P: Parse<'a>> Parse<'a> for Parser<P> {
    type Output = P::Output;

    open spec fn wf(&self) -> bool {
        self.0.wf()
    }

    open spec fn parses(&self, input: Input<'a>, r: PResult<Input<'a>, P::Output>) -> bool {
        self.0.parses(input, r)
    }

    proof fn lemma_rest_is_tail(&self, input: Input<'a>, out: P::Output, rest: Input<'a>) {
        self.0.lemma_rest_is_tail(input, out, rest);
    }

    fn parse(&self, input: Input<'a>) -> (r: PResult<Input<'a>, P::Output>) {
        self.0.parse(input)
    }
}

impl<P> Parser<P> {
    /// Wraps `parser`.
    pub fn from(parser: P) -> (p: Parser<P>)
        ensures
            p == Parser(parser),
    {
        Parser(parser)
    }

    /// Runs the parser on `input`.
    pub fn parse<'a>(&self, input: Input<'a>) -> (r: PResult<Input<'a>, P::Output>) where
        P: Parse<'a>,

        requires
            self.0.wf(),
        ensures
            self.0.parses(input, r),
            r matches Ok((_, rest)) ==> rest.is_tail_of(input),
    {
        self.0.parse(input)
    }

    /// Borrows the parser: the parser that is returned parses as this one
    /// does, and can be copied, so that this parser can stand in several
    /// places at once.
    pub fn by_ref(&self) -> (p: Parser<ByRef<'_, P>>)
        ensures
            p == Parser(ByRef(&self.0)),
    {
        Parser(ByRef(&self.0))
    }

    /// Converts the output type using the `Into` trait.
    pub fn coerce<OX>(self) -> (p: Parser<Coerce<P, OX>>)
        ensures
            p == Parser(Coerce::<P, OX> { parser: self.0, target: PhantomData }),
    {
        Parser(Coerce { parser: self.0, target: PhantomData })
    }

    /// Transforms the result.  The function `f` is passed `Ok(output)` if
    /// the parser succeeded or `Err(error)` if it failed.  If it returns
    /// `Ok`, that is the new output: behind the parser's output, what the
    /// parser left is left; behind the parser's error, the input is left as
    /// it was.  If it returns `Err`, that is the new error.
    pub fn map<'a, OX, F>(self, f: F) -> (p: Parser<MapResult<P, F>>) where
        P: Parse<'a>,
        F: Fn(Result<P::Output, Error>) -> Result<OX, Error>,

        ensures
            p == Parser(MapResult { parser: self.0, f }),
    {
        Parser(MapResult { parser: self.0, f })
    }

    /// Applies a transformation to the output, or does nothing if the
    /// parser returns an error.
    pub fn map_out<'a, OX, F>(self, f: F) -> (p: Parser<MapOut<P, F>>) where
        P: Parse<'a>,
        F: Fn(P::Output) -> OX,

        ensures
            p == Parser(MapOut { parser: self.0, f }),
    {
        Parser(MapOut { parser: self.0, f })
    }

    /// Applies a transformation to the error, or does nothing if the parser
    /// succeeds.
    pub fn map_err<F>(self, f: F) -> (p: Parser<MapErr<P, F>>) where F: Fn(Error) -> Error
        ensures
            p == Parser(MapErr { parser: self.0, f }),
    {
        Parser(MapErr { parser: self.0, f })
    }

    /// Replaces the output of the parser with clones of `value`.  If the
    /// parser fails, the error remains unchanged.
    pub fn value<V: Clone>(self, value: V) -> (p: Parser<Value<P, V>>)
        ensures
            p == Parser(Value { parser: self.0, value }),
    {
        Parser(Value { parser: self.0, value })
    }

    /// Attaches the context that `f` makes to the error, if the parser
    /// fails.
    pub fn with_context<F>(self, f: F) -> (p: Parser<WithContext<P, F>>) where F: Fn() -> Context
        ensures
            p == Parser(WithContext { parser: self.0, f }),
    {
        Parser(WithContext { parser: self.0, f })
    }

    /// Attaches the message that `f` makes to the error, if the parser
    /// fails.
    pub fn with_message<F>(self, f: F) -> (p: Parser<WithMessage<P, F>>) where F: Fn() -> String
        ensures
            p == Parser(WithMessage { parser: self.0, f }),
    {
        Parser(WithMessage { parser: self.0, f })
    }

    /// Calls the `other` parser if this one fails, and returns its result
    /// instead.
    pub fn or<Q>(self, other: Q) -> (p: Parser<Choice<(P, Q)>>)
        ensures
            p == Parser(Choice((self.0, other))),
    {
        Parser(Choice((self.0, other)))
    }

    /// Replaces the error with a clone of `default` and the untouched
    /// input, if the parser fails.
    pub fn or_value<O: Clone>(self, default: O) -> (p: Parser<OrValue<P, O>>)
        ensures
            p == Parser(OrValue { parser: self.0, default }),
    {
        Parser(OrValue { parser: self.0, default })
    }

    /// If the parser succeeds, discards its output and returns the result
    /// of the `next` parser on what is left.  If either parser fails, its
    /// error is returned.
    pub fn and_then<Q>(self, next: Q) -> (p: Parser<AndThen<P, Q>>)
        ensures
            p == Parser(AndThen { first: self.0, next }),
    {
        Parser(AndThen { first: self.0, next })
    }

    /// Runs `next` behind the parser and discards its output.  If either
    /// parser fails, its error is returned.
    pub fn before<Q>(self, next: Q) -> (p: Parser<Before<P, Q>>)
        ensures
            p == Parser(Before { first: self.0, next }),
    {
        Parser(Before { first: self.0, next })
    }
}

} // verus!
