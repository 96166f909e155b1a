//! Parsers that change what another parser returns.

use crate::combinator::tuple::{both_match, either_fails, lemma_pair_tail, parse_pair};
use crate::context::{Context, ContextView, Reason};
use crate::error::Error;
use crate::input::{lemma_tail_reflexive, Input};
use crate::parse::{fails_on, PResult, Parse};
use core::marker::PhantomData;
use vstd::pervasive::cloned;
use vstd::prelude::*;

verus! {

/// A parser that borrows another and parses as it does, so that one parser
/// can stand in several places.
#[derive(Debug)]
pub struct ByRef<'p, P>(pub &'p P);

impl<'p, P> Clone for ByRef<'p, P> {
    fn clone(&self) -> (r: Self)
        ensures
            r == *self,
    {
        ByRef(self.0)
    }
}

impl<'p, P> Copy for ByRef<'p, P> {

}

impl<'a, 'p, P: Parse<'a>> Parse<'a> for ByRef<'p, P> {
    type Output = P::Output;

    open spec fn wf(&self) -> bool {
        self.0.wf()
    }

    open spec fn parses(&self, input: Input<'a>, r: PResult<Input<'a>, P::Output>) -> bool {
        self.0.parses(input, r)
    }

    proof fn lemma_rest_is_tail(&self, input: Input<'a>, out: P::Output, rest: Input<'a>) {
        self.0.lemma_rest_is_tail(input, out, rest);
    }

    fn parse(&self, input: Input<'a>) -> (r: PResult<Input<'a>, P::Output>) {
        self.0.parse(input)
    }
}

/// Converts the output of a parser with `Into`.
pub struct Coerce<P, OX> {
    /// The parser whose output is converted.
    pub parser: P,
    /// The type that the output is converted to.
    pub target: PhantomData<OX>,
}

/// Passes the result of a parser through a function, which may turn a
/// success into a failure and a failure into a success.
pub struct MapResult<P, F> {
    /// The parser whose result is passed on.
    pub parser: P,
    /// What is made of the result.
    pub f: F,
}

/// Passes the output of a parser through a function.
pub struct MapOut<P, F> {
    /// The parser whose output is passed on.
    pub parser: P,
    /// What is made of the output.
    pub f: F,
}

/// Passes the error of a parser through a function.
pub struct MapErr<P, F> {
    /// The parser whose error is passed on.
    pub parser: P,
    /// What is made of the error.
    pub f: F,
}

/// Replaces the output of a parser with a clone of a value.
pub struct Value<P, V> {
    /// The parser whose output is replaced.
    pub parser: P,
    /// The value whose clones are returned.
    pub value: V,
}

/// Adds a context to the error of a parser.
pub struct WithContext<P, F> {
    /// The parser whose error gets the context.
    pub parser: P,
    /// Makes the context.
    pub f: F,
}

/// Adds an explanation in words to the error of a parser.
pub struct WithMessage<P, F> {
    /// The parser whose error gets the explanation.
    pub parser: P,
    /// Makes the explanation.
    pub f: F,
}

/// Replaces the failure of a parser with a clone of a value, and the input
/// as it was.
pub struct OrValue<P, O> {
    /// The parser whose failure is replaced.
    pub parser: P,
    /// The value whose clones are returned.
    pub default: O,
}

/// Runs two parsers in a row and returns the output of the second.
pub struct AndThen<P, Q> {
    /// The parser that runs first, and whose output is dropped.
    pub first: P,
    /// The parser that runs on what the first leaves.
    pub next: Q,
}

/// Runs two parsers in a row and returns the output of the first.
pub struct Before<P, Q> {
    /// The parser that runs first.
    pub first: P,
    /// The parser that runs on what the first leaves, and whose output is
    /// dropped.
    pub next: Q,
}

impl<'a, P: Parse<'a>, OX> Parse<'a> for Coerce<P, OX> where P::Output: Into<OX> {
    type Output = OX;

    open spec fn wf(&self) -> bool {
        self.parser.wf()
    }

    open spec fn parses(&self, input: Input<'a>, r: PResult<Input<'a>, OX>) -> bool {
        match r {
            Ok((converted, rest)) => converts(self.parser, input, converted, rest),
            Err(e) => self.parser.parses(input, Err(e)),
        }
    }

    proof fn lemma_rest_is_tail(&self, input: Input<'a>, out: OX, rest: Input<'a>) {
        let o = choose|o: P::Output| #[trigger]
            self.parser.parses(input, Ok((o, rest))) && call_ensures(
                <P::Output as Into<OX>>::into,
                (o,),
                out,
            );
        self.parser.lemma_rest_is_tail(input, o, rest);
    }

    fn parse(&self, input: Input<'a>) -> (r: PResult<Input<'a>, OX>) {
        match self.parser.parse(input) {
            Ok((out, rest)) => {
                let ghost before = out;
                let converted = out.into();
                proof {
                    assert(self.parser.parses(input, Ok((before, rest))));
                    assert(converts(self.parser, input, converted, rest));
                }
                Ok((converted, rest))
            },
            Err(e) => Err(e),
        }
    }
}

/// `parser` leaves `rest` of `input`, and `converted` is what `into` makes
/// of its output.
pub open spec fn converts<'a, P: Parse<'a>, OX>(
    parser: P,
    input: Input<'a>,
    converted: OX,
    rest: Input<'a>,
) -> bool where P::Output: Into<OX> {
    exists|o: P::Output| #[trigger]
        parser.parses(input, Ok((o, rest))) && call_ensures(
            <P::Output as Into<OX>>::into,
            (o,),
            converted,
        )
}

/// What [`MapResult`] hands to its function for the result `q` of the
/// inner parser on `input`: the output or the error, and the input that is
/// left, which after a failure is `input` itself.
pub open spec fn handed_on<'a, O>(input: Input<'a>, q: PResult<Input<'a>, O>) -> (
    Result<O, Error>,
    Input<'a>,
) {
    match q {
        Ok((out, rest)) => (Ok(out), rest),
        Err(e) => (Err(e), input),
    }
}

/// The result of [`MapResult`] where its function returned `made` and
/// `rest` is left.
pub open spec fn put_back<'a, OX>(made: Result<OX, Error>, rest: Input<'a>) -> PResult<
    Input<'a>,
    OX,
> {
    match made {
        Ok(out) => Ok((out, rest)),
        Err(e) => Err(e),
    }
}

/// `r` is what `f` makes of an outcome of `parser` on `input`.
pub open spec fn maps_result<'a, P: Parse<'a>, OX, F: Fn(Result<P::Output, Error>) -> Result<
    OX,
    Error,
>>(parser: P, f: F, input: Input<'a>, r: PResult<Input<'a>, OX>) -> bool {
    exists|q: PResult<Input<'a>, P::Output>, made: Result<OX, Error>|
        #![trigger parser.parses(input, q), put_back(made, handed_on(input, q).1)]
        parser.parses(input, q) && call_ensures(f, (handed_on(input, q).0,), made) && r
            == put_back(made, handed_on(input, q).1)
}

impl<'a, P: Parse<'a>, OX, F: Fn(Result<P::Output, Error>) -> Result<OX, Error>> Parse<
    'a,
> for MapResult<P, F> {
    type Output = OX;

    open spec fn wf(&self) -> bool {
        &&& self.parser.wf()
        &&& forall|x: Result<P::Output, Error>| call_requires(self.f, (x,))
    }

    open spec fn parses(&self, input: Input<'a>, r: PResult<Input<'a>, OX>) -> bool {
        maps_result(self.parser, self.f, input, r)
    }

    proof fn lemma_rest_is_tail(&self, input: Input<'a>, out: OX, rest: Input<'a>) {
        let r: PResult<Input<'a>, OX> = Ok((out, rest));
        let (q, made) = choose|q: PResult<Input<'a>, P::Output>, made: Result<OX, Error>|
            #![trigger self.parser.parses(input, q), put_back(made, handed_on(input, q).1)]
            self.parser.parses(input, q) && call_ensures(self.f, (handed_on(input, q).0,), made)
                && r == put_back(made, handed_on(input, q).1);
        match q {
            Ok((o, mid)) => {
                self.parser.lemma_rest_is_tail(input, o, mid);
            },
            Err(_) => {
                lemma_tail_reflexive(input);
            },
        }
    }

    fn parse(&self, input: Input<'a>) -> (r: PResult<Input<'a>, OX>) {
        let q = self.parser.parse(input);
        let ghost seen = q;
        let (arg, rest) = match q {
            Ok((out, rest)) => (Ok(out), rest),
            Err(e) => {
                proof {
                    lemma_tail_reflexive(input);
                }
                (Err(e), input)
            },
        };
        let made = (self.f)(arg);
        let ghost given = made;
        let r = match made {
            Ok(out) => Ok((out, rest)),
            Err(e) => Err(e),
        };
        proof {
            assert(self.parser.parses(input, seen) && r == put_back(
                given,
                handed_on(input, seen).1,
            ));
        }
        r
    }
}

/// `parser` leaves `rest` of `input`, and `made` is what `f` makes of its
/// output.
pub open spec fn maps_output<'a, P: Parse<'a>, OX, F: Fn(P::Output) -> OX>(
    parser: P,
    f: F,
    input: Input<'a>,
    made: OX,
    rest: Input<'a>,
) -> bool {
    exists|o: P::Output| #[trigger]
        parser.parses(input, Ok((o, rest))) && call_ensures(f, (o,), made)
}

impl<'a, P: Parse<'a>, OX, F: Fn(P::Output) -> OX> Parse<'a> for MapOut<P, F> {
    type Output = OX;

    open spec fn wf(&self) -> bool {
        &&& self.parser.wf()
        &&& forall|o: P::Output| call_requires(self.f, (o,))
    }

    open spec fn parses(&self, input: Input<'a>, r: PResult<Input<'a>, OX>) -> bool {
        match r {
            Ok((made, rest)) => maps_output(self.parser, self.f, input, made, rest),
            Err(e) => self.parser.parses(input, Err(e)),
        }
    }

    proof fn lemma_rest_is_tail(&self, input: Input<'a>, out: OX, rest: Input<'a>) {
        let o = choose|o: P::Output| #[trigger]
            self.parser.parses(input, Ok((o, rest))) && call_ensures(self.f, (o,), out);
        self.parser.lemma_rest_is_tail(input, o, rest);
    }

    fn parse(&self, input: Input<'a>) -> (r: PResult<Input<'a>, OX>) {
        match self.parser.parse(input) {
            Ok((out, rest)) => {
                let ghost before = out;
                let made = (self.f)(out);
                proof {
                    assert(self.parser.parses(input, Ok((before, rest))));
                    assert(maps_output(self.parser, self.f, input, made, rest));
                }
                Ok((made, rest))
            },
            Err(e) => Err(e),
        }
    }
}

/// `parser` fails on `input`, and `made` is what `f` makes of its error.
pub open spec fn maps_error<'a, P: Parse<'a>, F: Fn(Error) -> Error>(
    parser: P,
    f: F,
    input: Input<'a>,
    made: Error,
) -> bool {
    exists|e: Error| #[trigger]
        parser.parses(input, Err(e)) && call_ensures(f, (e,), made)
}

impl<'a, P: Parse<'a>, F: Fn(Error) -> Error> Parse<'a> for MapErr<P, F> {
    type Output = P::Output;

    open spec fn wf(&self) -> bool {
        &&& self.parser.wf()
        &&& forall|e: Error| call_requires(self.f, (e,))
    }

    open spec fn parses(&self, input: Input<'a>, r: PResult<Input<'a>, P::Output>) -> bool {
        match r {
            Ok((out, rest)) => self.parser.parses(input, Ok((out, rest))),
            Err(made) => maps_error(self.parser, self.f, input, made),
        }
    }

    proof fn lemma_rest_is_tail(&self, input: Input<'a>, out: P::Output, rest: Input<'a>) {
        self.parser.lemma_rest_is_tail(input, out, rest);
    }

    fn parse(&self, input: Input<'a>) -> (r: PResult<Input<'a>, P::Output>) {
        match self.parser.parse(input) {
            Ok((out, rest)) => Ok((out, rest)),
            Err(e) => {
                let ghost before = e;
                let made = (self.f)(e);
                proof {
                    assert(self.parser.parses(input, Err(before)));
                    assert(maps_error(self.parser, self.f, input, made));
                }
                Err(made)
            },
        }
    }
}

/// `parser` succeeds on `input` and leaves `rest`.
pub open spec fn succeeds_to<'a, P: Parse<'a>>(parser: P, input: Input<'a>, rest: Input<'a>)
    -> bool {
    exists|o: P::Output| parser.parses(input, Ok((o, rest)))
}

impl<'a, P: Parse<'a>, V: Clone> Parse<'a> for Value<P, V> {
    type Output = V;

    open spec fn wf(&self) -> bool {
        self.parser.wf()
    }

    open spec fn parses(&self, input: Input<'a>, r: PResult<Input<'a>, V>) -> bool {
        match r {
            Ok((value, rest)) => cloned(self.value, value) && succeeds_to(
                self.parser,
                input,
                rest,
            ),
            Err(e) => self.parser.parses(input, Err(e)),
        }
    }

    proof fn lemma_rest_is_tail(&self, input: Input<'a>, out: V, rest: Input<'a>) {
        let o = choose|o: P::Output| self.parser.parses(input, Ok((o, rest)));
        self.parser.lemma_rest_is_tail(input, o, rest);
    }

    fn parse(&self, input: Input<'a>) -> (r: PResult<Input<'a>, V>) {
        match self.parser.parse(input) {
            Ok((out, rest)) => {
                proof {
                    assert(self.parser.parses(input, Ok((out, rest))));
                    assert(succeeds_to(self.parser, input, rest));
                }
                Ok((self.value.clone(), rest))
            },
            Err(e) => Err(e),
        }
    }
}

/// `parser` fails on `input`, and `made` is its error with the context
/// that `f` makes behind it.
pub open spec fn adds_context<'a, P: Parse<'a>, F: Fn() -> Context>(
    parser: P,
    f: F,
    input: Input<'a>,
    made: Error,
) -> bool {
    exists|e: Error, c: Context|
        #![trigger parser.parses(input, Err(e)), call_ensures(f, (), c)]
        parser.parses(input, Err(e)) && call_ensures(f, (), c) && made@ == e@.push(c@)
}

impl<'a, P: Parse<'a>, F: Fn() -> Context> Parse<'a> for WithContext<P, F> {
    type Output = P::Output;

    open spec fn wf(&self) -> bool {
        &&& self.parser.wf()
        &&& call_requires(self.f, ())
    }

    open spec fn parses(&self, input: Input<'a>, r: PResult<Input<'a>, P::Output>) -> bool {
        match r {
            Ok((out, rest)) => self.parser.parses(input, Ok((out, rest))),
            Err(made) => adds_context(self.parser, self.f, input, made),
        }
    }

    proof fn lemma_rest_is_tail(&self, input: Input<'a>, out: P::Output, rest: Input<'a>) {
        self.parser.lemma_rest_is_tail(input, out, rest);
    }

    fn parse(&self, input: Input<'a>) -> (r: PResult<Input<'a>, P::Output>) {
        match self.parser.parse(input) {
            Ok((out, rest)) => Ok((out, rest)),
            Err(e) => {
                let c = (self.f)();
                let made = e.push(c);
                proof {
                    assert(self.parser.parses(input, Err(e)) && call_ensures(self.f, (), c));
                    assert(adds_context(self.parser, self.f, input, made));
                }
                Err(made)
            },
        }
    }
}

/// The context that explains a failure with the words `text`, and points
/// nowhere.
pub open spec fn message_context(text: Seq<char>) -> ContextView {
    ContextView { span: None, reason: Reason::Message(text) }
}

/// `parser` fails on `input`, and `made` is its error with the words that
/// `f` makes behind it.
pub open spec fn adds_message<'a, P: Parse<'a>, F: Fn() -> String>(
    parser: P,
    f: F,
    input: Input<'a>,
    made: Error,
) -> bool {
    exists|e: Error, text: String|
        #![trigger parser.parses(input, Err(e)), call_ensures(f, (), text)]
        parser.parses(input, Err(e)) && call_ensures(f, (), text) && made@ == e@.push(
            message_context(text@),
        )
}

impl<'a, P: Parse<'a>, F: Fn() -> String> Parse<'a> for WithMessage<P, F> {
    type Output = P::Output;

    open spec fn wf(&self) -> bool {
        &&& self.parser.wf()
        &&& call_requires(self.f, ())
    }

    open spec fn parses(&self, input: Input<'a>, r: PResult<Input<'a>, P::Output>) -> bool {
        match r {
            Ok((out, rest)) => self.parser.parses(input, Ok((out, rest))),
            Err(made) => adds_message(self.parser, self.f, input, made),
        }
    }

    proof fn lemma_rest_is_tail(&self, input: Input<'a>, out: P::Output, rest: Input<'a>) {
        self.parser.lemma_rest_is_tail(input, out, rest);
    }

    fn parse(&self, input: Input<'a>) -> (r: PResult<Input<'a>, P::Output>) {
        match self.parser.parse(input) {
            Ok((out, rest)) => Ok((out, rest)),
            Err(e) => {
                let text = (self.f)();
                let made = e.push(Context::from_message(text.as_str()));
                proof {
                    assert(self.parser.parses(input, Err(e)) && call_ensures(self.f, (), text));
                    assert(adds_message(self.parser, self.f, input, made));
                }
                Err(made)
            },
        }
    }
}

impl<'a, P: Parse<'a>> Parse<'a> for OrValue<P, P::Output> where P::Output: Clone {
    type Output = P::Output;

    open spec fn wf(&self) -> bool {
        self.parser.wf()
    }

    open spec fn parses(&self, input: Input<'a>, r: PResult<Input<'a>, P::Output>) -> bool {
        match r {
            Ok((out, rest)) => {
                ||| self.parser.parses(input, Ok((out, rest)))
                ||| (fails_on(self.parser, input) && rest == input && cloned(self.default, out))
            },
            Err(_) => false,
        }
    }

    proof fn lemma_rest_is_tail(&self, input: Input<'a>, out: P::Output, rest: Input<'a>) {
        if self.parser.parses(input, Ok((out, rest))) {
            self.parser.lemma_rest_is_tail(input, out, rest);
        } else {
            lemma_tail_reflexive(input);
        }
    }

    fn parse(&self, input: Input<'a>) -> (r: PResult<Input<'a>, P::Output>) {
        match self.parser.parse(input) {
            Ok((out, rest)) => Ok((out, rest)),
            Err(e) => {
                proof {
                    assert(self.parser.parses(input, Err(e)));
                    lemma_tail_reflexive(input);
                }
                Ok((self.default.clone(), input))
            },
        }
    }
}

/// `first` and `next` match in a row from `input` to `rest`, and `next`
/// makes `out`.
pub open spec fn second_of<'a, P: Parse<'a>, Q: Parse<'a>>(
    first: P,
    next: Q,
    input: Input<'a>,
    out: Q::Output,
    rest: Input<'a>,
) -> bool {
    exists|dropped: P::Output| both_match(first, next, input, dropped, out, rest)
}

/// `first` and `next` match in a row from `input` to `rest`, and `first`
/// makes `out`.
pub open spec fn first_of<'a, P: Parse<'a>, Q: Parse<'a>>(
    first: P,
    next: Q,
    input: Input<'a>,
    out: P::Output,
    rest: Input<'a>,
) -> bool {
    exists|dropped: Q::Output| both_match(first, next, input, out, dropped, rest)
}

impl<'a, P: Parse<'a>, Q: Parse<'a>> Parse<'a> for AndThen<P, Q> {
    type Output = Q::Output;

    open spec fn wf(&self) -> bool {
        self.first.wf() && self.next.wf()
    }

    open spec fn parses(&self, input: Input<'a>, r: PResult<Input<'a>, Q::Output>) -> bool {
        match r {
            Ok((out, rest)) => second_of(self.first, self.next, input, out, rest),
            Err(e) => either_fails(self.first, self.next, input, e),
        }
    }

    proof fn lemma_rest_is_tail(&self, input: Input<'a>, out: Q::Output, rest: Input<'a>) {
        let dropped = choose|dropped: P::Output|
            both_match(self.first, self.next, input, dropped, out, rest);
        lemma_pair_tail(self.first, self.next, input, dropped, out, rest);
    }

    fn parse(&self, input: Input<'a>) -> (r: PResult<Input<'a>, Q::Output>) {
        match parse_pair(&self.first, &self.next, input) {
            Ok(((dropped, out), rest)) => {
                proof {
                    assert(both_match(self.first, self.next, input, dropped, out, rest));
                    assert(second_of(self.first, self.next, input, out, rest));
                }
                Ok((out, rest))
            },
            Err(e) => Err(e),
        }
    }
}

impl<'a, P: Parse<'a>, Q: Parse<'a>> Parse<'a> for Before<P, Q> {
    type Output = P::Output;

    open spec fn wf(&self) -> bool {
        self.first.wf() && self.next.wf()
    }

    open spec fn parses(&self, input: Input<'a>, r: PResult<Input<'a>, P::Output>) -> bool {
        match r {
            Ok((out, rest)) => first_of(self.first, self.next, input, out, rest),
            Err(e) => either_fails(self.first, self.next, input, e),
        }
    }

    proof fn lemma_rest_is_tail(&self, input: Input<'a>, out: P::Output, rest: Input<'a>) {
        let dropped = choose|dropped: Q::Output|
            both_match(self.first, self.next, input, out, dropped, rest);
        lemma_pair_tail(self.first, self.next, input, out, dropped, rest);
    }

    fn parse(&self, input: Input<'a>) -> (r: PResult<Input<'a>, P::Output>) {
        match parse_pair(&self.first, &self.next, input) {
            Ok(((out, dropped), rest)) => {
                proof {
                    assert(both_match(self.first, self.next, input, out, dropped, rest));
                    assert(first_of(self.first, self.next, input, out, rest));
                }
                Ok((out, rest))
            },
            Err(e) => Err(e),
        }
    }
}

} // verus!
