//! Sequences of parsers.

use crate::error::Error;
use crate::input::{lemma_tail_transitive, Input};
use crate::parse::{productive, PResult, Parse};
use vstd::prelude::*;

verus! {

/// A fixed number of parsers that are run one behind the other.
pub trait Tuple<'a> {
    /// The outputs of the parsers, in their order.
    type Output;

    /// What must hold of the parsers for them to be run.
    spec fn wf(&self) -> bool;

    /// Whether `r` is an outcome of the sequence on `input`.
    spec fn parses(&self, input: Input<'a>, r: PResult<Input<'a>, Self::Output>) -> bool;

    /// What the sequence leaves is a tail of what it was given.
    proof fn lemma_rest_is_tail(&self, input: Input<'a>, out: Self::Output, rest: Input<'a>)
        requires
            self.wf(),
            self.parses(input, Ok((out, rest))),
        ensures
            rest.is_tail_of(input),
    ;

    /// Runs the parsers in their order, each on what the one before it
    /// left.  Returns the first failure, if there is one.
    fn parse(&self, input: Input<'a>) -> (r: PResult<Input<'a>, Self::Output>)
        requires
            self.wf(),
        ensures
            self.parses(input, r),
            r matches Ok((_, rest)) ==> rest.is_tail_of(input),
    ;
}

/// A parser that runs the parsers of a tuple one behind the other.
#[derive(Debug)]
pub struct Sequence<P>(pub P);

/// `a` makes `x` of `input`, and `b` makes `y` of what `a` leaves, and
/// leaves `rest`.
pub open spec fn both_match<'a, A: Parse<'a>, B: Parse<'a>>(
    a: A,
    b: B,
    input: Input<'a>,
    x: A::Output,
    y: B::Output,
    rest: Input<'a>,
) -> bool {
    exists|mid: Input<'a>| #[trigger]
        a.parses(input, Ok((x, mid))) && b.parses(mid, Ok((y, rest)))
}

/// `a` fails on `input` with `e`, or `b` fails with `e` on what `a`
/// leaves.
pub open spec fn either_fails<'a, A: Parse<'a>, B: Parse<'a>>(
    a: A,
    b: B,
    input: Input<'a>,
    e: Error,
) -> bool {
    ||| a.parses(input, Err(e))
    ||| exists|x: A::Output, mid: Input<'a>| #[trigger]
        a.parses(input, Ok((x, mid))) && b.parses(mid, Err(e))
}

/// The outcomes of two parsers in a row.
pub open spec fn pair_outcome<'a, A: Parse<'a>, B: Parse<'a>>(
    a: A,
    b: B,
    input: Input<'a>,
    r: PResult<Input<'a>, (A::Output, B::Output)>,
) -> bool {
    match r {
        Ok(((x, y), rest)) => both_match(a, b, input, x, y, rest),
        Err(e) => either_fails(a, b, input, e),
    }
}

/// Two parsers in a row leave a tail of the input.
pub proof fn lemma_pair_tail<'a, A: Parse<'a>, B: Parse<'a>>(
    a: A,
    b: B,
    input: Input<'a>,
    x: A::Output,
    y: B::Output,
    rest: Input<'a>,
)
    requires
        a.wf(),
        b.wf(),
        both_match(a, b, input, x, y, rest),
    ensures
        rest.is_tail_of(input),
{
    let mid = choose|mid: Input<'a>| #[trigger]
        a.parses(input, Ok((x, mid))) && b.parses(mid, Ok((y, rest)));
    a.lemma_rest_is_tail(input, x, mid);
    b.lemma_rest_is_tail(mid, y, rest);
    lemma_tail_transitive(input, mid, rest);
}

/// Runs `a`, and `b` on what `a` leaves.
pub fn parse_pair<'a, A: Parse<'a>, B: Parse<'a>>(a: &A, b: &B, input: Input<'a>) -> (r: PResult<
    Input<'a>,
    (A::Output, B::Output),
>)
    requires
        a.wf(),
        b.wf(),
    ensures
        pair_outcome(*a, *b, input, r),
        r matches Ok((_, rest)) ==> rest.is_tail_of(input),
{
    match a.parse(input) {
        Err(e) => Err(e),
        Ok((x, mid)) => match b.parse(mid) {
            Err(e) => {
                proof {
                    assert(a.parses(input, Ok((x, mid))));
                }
                Err(e)
            },
            Ok((y, rest)) => {
                proof {
                    assert(a.parses(input, Ok((x, mid))));
                    assert(both_match(*a, *b, input, x, y, rest));
                    lemma_tail_transitive(input, mid, rest);
                }
                Ok(((x, y), rest))
            },
        },
    }
}

impl<'a, A: Parse<'a>, B: Parse<'a>> Tuple<'a> for (A, B) {
    type Output = (A::Output, B::Output);

    open spec fn wf(&self) -> bool {
        self.0.wf() && self.1.wf()
    }

    open spec fn parses(&self, input: Input<'a>, r: PResult<Input<'a>, Self::Output>) -> bool {
        pair_outcome(self.0, self.1, input, r)
    }

    proof fn lemma_rest_is_tail(&self, input: Input<'a>, out: Self::Output, rest: Input<'a>) {
        lemma_pair_tail(self.0, self.1, input, out.0, out.1, rest);
    }

    fn parse(&self, input: Input<'a>) -> (r: PResult<Input<'a>, Self::Output>) {
        parse_pair(&self.0, &self.1, input)
    }
}

/// `a` makes `x` of `input`, and `b` and `c` make `y` and `z` of what
/// follows, and leave `rest`.
pub open spec fn three_match<'a, A: Parse<'a>, B: Parse<'a>, C: Parse<'a>>(
    a: A,
    b: B,
    c: C,
    input: Input<'a>,
    x: A::Output,
    y: B::Output,
    z: C::Output,
    rest: Input<'a>,
) -> bool {
    exists|mid: Input<'a>| #[trigger]
        a.parses(input, Ok((x, mid))) && both_match(b, c, mid, y, z, rest)
}

/// `a` fails on `input` with `e`, or one of `b` and `c` fails with `e` on
/// what follows.
pub open spec fn one_of_three_fails<'a, A: Parse<'a>, B: Parse<'a>, C: Parse<'a>>(
    a: A,
    b: B,
    c: C,
    input: Input<'a>,
    e: Error,
) -> bool {
    ||| a.parses(input, Err(e))
    ||| exists|x: A::Output, mid: Input<'a>| #[trigger]
        a.parses(input, Ok((x, mid))) && either_fails(b, c, mid, e)
}

/// The outcomes of three parsers in a row.
pub open spec fn triple_outcome<'a, A: Parse<'a>, B: Parse<'a>, C: Parse<'a>>(
    a: A,
    b: B,
    c: C,
    input: Input<'a>,
    r: PResult<Input<'a>, (A::Output, B::Output, C::Output)>,
) -> bool {
    match r {
        Ok(((x, y, z), rest)) => three_match(a, b, c, input, x, y, z, rest),
        Err(e) => one_of_three_fails(a, b, c, input, e),
    }
}

/// Runs `a`, then `b` and `c`, each on what the one before it leaves.
pub fn parse_triple<'a, A: Parse<'a>, B: Parse<'a>, C: Parse<'a>>(
    a: &A,
    b: &B,
    c: &C,
    input: Input<'a>,
) -> (r: PResult<Input<'a>, (A::Output, B::Output, C::Output)>)
    requires
        a.wf(),
        b.wf(),
        c.wf(),
    ensures
        triple_outcome(*a, *b, *c, input, r),
        r matches Ok((_, rest)) ==> rest.is_tail_of(input),
{
    match a.parse(input) {
        Err(e) => Err(e),
        Ok((x, mid)) => match parse_pair(b, c, mid) {
            Err(e) => {
                proof {
                    assert(a.parses(input, Ok((x, mid))));
                    assert(one_of_three_fails(*a, *b, *c, input, e));
                }
                Err(e)
            },
            Ok(((y, z), rest)) => {
                proof {
                    assert(a.parses(input, Ok((x, mid))));
                    assert(three_match(*a, *b, *c, input, x, y, z, rest));
                    lemma_tail_transitive(input, mid, rest);
                }
                Ok(((x, y, z), rest))
            },
        },
    }
}

impl<'a, A: Parse<'a>, B: Parse<'a>, C: Parse<'a>> Tuple<'a> for (A, B, C) {
    type Output = (A::Output, B::Output, C::Output);

    open spec fn wf(&self) -> bool {
        self.0.wf() && self.1.wf() && self.2.wf()
    }

    open spec fn parses(&self, input: Input<'a>, r: PResult<Input<'a>, Self::Output>) -> bool {
        triple_outcome(self.0, self.1, self.2, input, r)
    }

    proof fn lemma_rest_is_tail(&self, input: Input<'a>, out: Self::Output, rest: Input<'a>) {
        let mid = choose|mid: Input<'a>| #[trigger]
            self.0.parses(input, Ok((out.0, mid))) && both_match(
                self.1,
                self.2,
                mid,
                out.1,
                out.2,
                rest,
            );
        self.0.lemma_rest_is_tail(input, out.0, mid);
        lemma_pair_tail(self.1, self.2, mid, out.1, out.2, rest);
        lemma_tail_transitive(input, mid, rest);
    }

    fn parse(&self, input: Input<'a>) -> (r: PResult<Input<'a>, Self::Output>) {
        parse_triple(&self.0, &self.1, &self.2, input)
    }
}

/// `a` makes `w` of `input`, and `b`, `c` and `d` make `x`, `y` and `z`
/// of what follows, and leave `rest`.
pub open spec fn four_match<'a, A: Parse<'a>, B: Parse<'a>, C: Parse<'a>, D: Parse<'a>>(
    a: A,
    b: B,
    c: C,
    d: D,
    input: Input<'a>,
    w: A::Output,
    x: B::Output,
    y: C::Output,
    z: D::Output,
    rest: Input<'a>,
) -> bool {
    exists|mid: Input<'a>| #[trigger]
        a.parses(input, Ok((w, mid))) && three_match(b, c, d, mid, x, y, z, rest)
}

/// `a` fails on `input` with `e`, or one of `b`, `c` and `d` fails with
/// `e` on what follows.
pub open spec fn one_of_four_fails<
    'a,
    A: Parse<'a>,
    B: Parse<'a>,
    C: Parse<'a>,
    D: Parse<'a>,
>(a: A, b: B, c: C, d: D, input: Input<'a>, e: Error) -> bool {
    ||| a.parses(input, Err(e))
    ||| exists|w: A::Output, mid: Input<'a>| #[trigger]
        a.parses(input, Ok((w, mid))) && one_of_three_fails(b, c, d, mid, e)
}

impl<'a, A: Parse<'a>, B: Parse<'a>, C: Parse<'a>, D: Parse<'a>> Tuple<'a> for (A, B, C, D) {
    type Output = (A::Output, B::Output, C::Output, D::Output);

    open spec fn wf(&self) -> bool {
        self.0.wf() && self.1.wf() && self.2.wf() && self.3.wf()
    }

    open spec fn parses(&self, input: Input<'a>, r: PResult<Input<'a>, Self::Output>) -> bool {
        match r {
            Ok(((w, x, y, z), rest)) => four_match(
                self.0,
                self.1,
                self.2,
                self.3,
                input,
                w,
                x,
                y,
                z,
                rest,
            ),
            Err(e) => one_of_four_fails(self.0, self.1, self.2, self.3, input, e),
        }
    }

    proof fn lemma_rest_is_tail(&self, input: Input<'a>, out: Self::Output, rest: Input<'a>) {
        let mid = choose|mid: Input<'a>| #[trigger]
            self.0.parses(input, Ok((out.0, mid))) && three_match(
                self.1,
                self.2,
                self.3,
                mid,
                out.1,
                out.2,
                out.3,
                rest,
            );
        self.0.lemma_rest_is_tail(input, out.0, mid);
        (self.1, self.2, self.3).lemma_rest_is_tail(mid, (out.1, out.2, out.3), rest);
        lemma_tail_transitive(input, mid, rest);
    }

    fn parse(&self, input: Input<'a>) -> (r: PResult<Input<'a>, Self::Output>) {
        match self.0.parse(input) {
            Err(e) => Err(e),
            Ok((w, mid)) => match parse_triple(&self.1, &self.2, &self.3, mid) {
                Err(e) => {
                    proof {
                        assert(self.0.parses(input, Ok((w, mid))));
                        assert(one_of_four_fails(self.0, self.1, self.2, self.3, input, e));
                    }
                    Err(e)
                },
                Ok(((x, y, z), rest)) => {
                    proof {
                        assert(self.0.parses(input, Ok((w, mid))));
                        assert(four_match(
                            self.0,
                            self.1,
                            self.2,
                            self.3,
                            input,
                            w,
                            x,
                            y,
                            z,
                            rest,
                        ));
                        lemma_tail_transitive(input, mid, rest);
                    }
                    Ok(((w, x, y, z), rest))
                },
            },
        }
    }
}

/// Two parsers in a row consume input when they match, provided that one
/// of the two does.
pub proof fn lemma_pair_is_productive<'a, A: Parse<'a>, B: Parse<'a>>(a: A, b: B)
    requires
        a.wf(),
        b.wf(),
        productive(a) || productive(b),
    ensures
        productive(Sequence((a, b))),
{
    assert forall|input: Input<'a>, out: (A::Output, B::Output), rest: Input<'a>| #[trigger]
        Sequence((a, b)).parses(input, Ok((out, rest))) implies rest@.len() < input@.len() by {
        let mid = choose|mid: Input<'a>| #[trigger]
            a.parses(input, Ok((out.0, mid))) && b.parses(mid, Ok((out.1, rest)));
        a.lemma_rest_is_tail(input, out.0, mid);
        b.lemma_rest_is_tail(mid, out.1, rest);
    }
}

impl<'a, P: Tuple<'a>> Parse<'a> for Sequence<P> {
    type Output = P::Output;

    open spec fn wf(&self) -> bool {
        self.0.wf()
    }

    open spec fn parses(&self, input: Input<'a>, r: PResult<Input<'a>, P::Output>) -> bool {
        self.0.parses(input, r)
    }

    proof fn lemma_rest_is_tail(&self, input: Input<'a>, out: P::Output, rest: Input<'a>) {
        self.0.lemma_rest_is_tail(input, out, rest);
    }

    fn parse(&self, input: Input<'a>) -> (r: PResult<Input<'a>, P::Output>) {
        self.0.parse(input)
    }
}

/// Makes a parser of a tuple of parsers: it runs them one behind the other
/// and returns the tuple of their outputs, or the first failure.
pub fn tuple<P>(parsers: P) -> (p: Sequence<P>)
    ensures
        p == Sequence(parsers),
{
    Sequence(parsers)
}

} // verus!
