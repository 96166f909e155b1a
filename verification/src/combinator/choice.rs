//! Ordered choice.

use crate::input::Input;
use crate::parse::{always_fails_on, fails_on, productive, PResult, Parse};
use vstd::prelude::*;

verus! {

/// A parser that tries alternatives in order.  The alternatives are the
/// parsers of a tuple, or those of a vector.
#[derive(Debug)]
pub struct Choice<P>(pub P);

/// The outcome of an alternative that is followed by others: its success,
/// or, where it fails, `otherwise`, the outcome of those that follow.
pub open spec fn or_else<'a, A: Parse<'a>>(
    first: A,
    input: Input<'a>,
    r: PResult<Input<'a>, A::Output>,
    otherwise: bool,
) -> bool {
    (r is Ok && first.parses(input, r)) || (fails_on(first, input) && otherwise)
}

/// Tries `first`, and hands on its success.
fn attempt<'a, A: Parse<'a>>(first: &A, input: Input<'a>) -> (r: Option<(A::Output, Input<'a>)>)
    requires
        first.wf(),
    ensures
        match r {
            Some((out, rest)) => first.parses(input, Ok((out, rest))) && rest.is_tail_of(input),
            None => fails_on(*first, input),
        },
{
    match first.parse(input) {
        Ok((out, rest)) => Some((out, rest)),
        Err(e) => {
            proof {
                assert(first.parses(input, Err(e)));
            }
            None
        },
    }
}

impl<'a, A: Parse<'a>, B: Parse<'a, Output = A::Output>> Parse<'a> for Choice<(A, B)> {
    type Output = A::Output;

    open spec fn wf(&self) -> bool {
        self.0.0.wf() && self.0.1.wf()
    }

    open spec fn parses(&self, input: Input<'a>, r: PResult<Input<'a>, A::Output>) -> bool {
        or_else(self.0.0, input, r, self.0.1.parses(input, r))
    }

    proof fn lemma_rest_is_tail(&self, input: Input<'a>, out: A::Output, rest: Input<'a>) {
        if self.0.0.parses(input, Ok((out, rest))) {
            self.0.0.lemma_rest_is_tail(input, out, rest);
        } else {
            self.0.1.lemma_rest_is_tail(input, out, rest);
        }
    }

    fn parse(&self, input: Input<'a>) -> (r: PResult<Input<'a>, A::Output>) {
        if let Some((out, rest)) = attempt(&self.0.0, input) {
            return Ok((out, rest));
        }
        self.0.1.parse(input)
    }
}

impl<
    'a,
    A: Parse<'a>,
    B: Parse<'a, Output = A::Output>,
    C: Parse<'a, Output = A::Output>,
> Parse<'a> for Choice<(A, B, C)> {
    type Output = A::Output;

    open spec fn wf(&self) -> bool {
        self.0.0.wf() && self.0.1.wf() && self.0.2.wf()
    }

    open spec fn parses(&self, input: Input<'a>, r: PResult<Input<'a>, A::Output>) -> bool {
        or_else(self.0.0, input, r, or_else(self.0.1, input, r, self.0.2.parses(input, r)))
    }

    proof fn lemma_rest_is_tail(&self, input: Input<'a>, out: A::Output, rest: Input<'a>) {
        if self.0.0.parses(input, Ok((out, rest))) {
            self.0.0.lemma_rest_is_tail(input, out, rest);
        } else if self.0.1.parses(input, Ok((out, rest))) {
            self.0.1.lemma_rest_is_tail(input, out, rest);
        } else {
            self.0.2.lemma_rest_is_tail(input, out, rest);
        }
    }

    fn parse(&self, input: Input<'a>) -> (r: PResult<Input<'a>, A::Output>) {
        if let Some((out, rest)) = attempt(&self.0.0, input) {
            return Ok((out, rest));
        }
        if let Some((out, rest)) = attempt(&self.0.1, input) {
            return Ok((out, rest));
        }
        self.0.2.parse(input)
    }
}

impl<
    'a,
    A: Parse<'a>,
    B: Parse<'a, Output = A::Output>,
    C: Parse<'a, Output = A::Output>,
    D: Parse<'a, Output = A::Output>,
> Parse<'a> for Choice<(A, B, C, D)> {
    type Output = A::Output;

    open spec fn wf(&self) -> bool {
        self.0.0.wf() && self.0.1.wf() && self.0.2.wf() && self.0.3.wf()
    }

    open spec fn parses(&self, input: Input<'a>, r: PResult<Input<'a>, A::Output>) -> bool {
        or_else(
            self.0.0,
            input,
            r,
            or_else(self.0.1, input, r, or_else(self.0.2, input, r, self.0.3.parses(input, r))),
        )
    }

    proof fn lemma_rest_is_tail(&self, input: Input<'a>, out: A::Output, rest: Input<'a>) {
        if self.0.0.parses(input, Ok((out, rest))) {
            self.0.0.lemma_rest_is_tail(input, out, rest);
        } else if self.0.1.parses(input, Ok((out, rest))) {
            self.0.1.lemma_rest_is_tail(input, out, rest);
        } else if self.0.2.parses(input, Ok((out, rest))) {
            self.0.2.lemma_rest_is_tail(input, out, rest);
        } else {
            self.0.3.lemma_rest_is_tail(input, out, rest);
        }
    }

    fn parse(&self, input: Input<'a>) -> (r: PResult<Input<'a>, A::Output>) {
        if let Some((out, rest)) = attempt(&self.0.0, input) {
            return Ok((out, rest));
        }
        if let Some((out, rest)) = attempt(&self.0.1, input) {
            return Ok((out, rest));
        }
        if let Some((out, rest)) = attempt(&self.0.2, input) {
            return Ok((out, rest));
        }
        self.0.3.parse(input)
    }
}

/// A choice whose first alternative fails on the input has the outcomes of
/// its second alternative, and no others.
pub proof fn lemma_choice_of_failure<'a, A: Parse<'a>, B: Parse<'a, Output = A::Output>>(
    first: A,
    second: B,
    input: Input<'a>,
    r: PResult<Input<'a>, A::Output>,
)
    requires
        always_fails_on(first, input),
    ensures
        Choice((first, second)).parses(input, r) <==> second.parses(input, r),
{
}

/// A choice whose first alternative succeeds returns what that alternative
/// returns, whatever the second would do.
pub proof fn lemma_choice_of_success<'a, A: Parse<'a>, B: Parse<'a, Output = A::Output>>(
    first: A,
    second: B,
    input: Input<'a>,
    out: A::Output,
    rest: Input<'a>,
)
    requires
        first.parses(input, Ok((out, rest))),
    ensures
        Choice((first, second)).parses(input, Ok((out, rest))),
{
}

/// A choice of two consumes input when it succeeds, provided that both
/// alternatives do.
pub proof fn lemma_choice_is_productive<'a, A: Parse<'a>, B: Parse<'a, Output = A::Output>>(
    first: A,
    second: B,
)
    requires
        productive(first),
        productive(second),
    ensures
        productive(Choice((first, second))),
{
}

/// The alternative at `index` decides the outcome of a list of
/// alternatives: those before it fail, and it succeeds or is the last.
pub open spec fn decided_at<'a, P: Parse<'a>>(
    parsers: Seq<P>,
    index: int,
    input: Input<'a>,
    r: PResult<Input<'a>, P::Output>,
) -> bool {
    &&& 0 <= index < parsers.len()
    &&& forall|j: int| 0 <= j < index ==> fails_on(#[trigger] parsers[j], input)
    &&& parsers[index].parses(input, r)
    &&& r is Ok || index == parsers.len() - 1
}

impl<'a, P: Parse<'a>> Parse<'a> for Choice<Vec<P>> {
    type Output = P::Output;

    /// The list holds at least one alternative.
    open spec fn wf(&self) -> bool {
        &&& self.0.len() > 0
        &&& forall|i: int| 0 <= i < self.0.len() ==> (#[trigger] self.0@[i]).wf()
    }

    open spec fn parses(&self, input: Input<'a>, r: PResult<Input<'a>, P::Output>) -> bool {
        exists|index: int| decided_at(self.0@, index, input, r)
    }

    proof fn lemma_rest_is_tail(&self, input: Input<'a>, out: P::Output, rest: Input<'a>) {
        let index = choose|index: int| decided_at(self.0@, index, input, Ok((out, rest)));
        self.0@[index].lemma_rest_is_tail(input, out, rest);
    }

    fn parse(&self, input: Input<'a>) -> (r: PResult<Input<'a>, P::Output>) {
        let last = self.0.len() - 1;
        let mut index: usize = 0;
        while index < last
            invariant
                self.wf(),
                last == self.0.len() - 1,
                index <= last,
                forall|j: int| 0 <= j < index ==> fails_on(#[trigger] self.0@[j], input),
            decreases last - index,
        {
            if let Some((out, rest)) = attempt(&self.0[index], input) {
                proof {
                    assert(decided_at(self.0@, index as int, input, Ok((out, rest))));
                }
                return Ok((out, rest));
            }
            index += 1;
        }
        let r = self.0[last].parse(input);
        proof {
            assert(decided_at(self.0@, last as int, input, r));
        }
        r
    }
}

/// Picks the first succeeding parser and returns its output.  If all
/// parsers fail, the error from the last one is returned.
pub fn choice<P>(parsers: P) -> (p: Choice<P>)
    ensures
        p == Choice(parsers),
{
    Choice(parsers)
}

} // verus!
