//! The text of errors.

use crate::context::{Cause, Context, ContextView, Reason};
use crate::error::Error;
use crate::input::{excerpt, excerpt_text};
use crate::span::Span;
use crate::string::{Error as Mismatch, IntErrorKind};
use vstd::prelude::*;
use vstd::string::StringExecFns;

verus! {

/// The character of the decimal digit `d`.
pub open spec fn digit_text(d: nat) -> Seq<char>
    recommends
        d < 10,
{
    if d == 0 {
        "0"@
    } else if d == 1 {
        "1"@
    } else if d == 2 {
        "2"@
    } else if d == 3 {
        "3"@
    } else if d == 4 {
        "4"@
    } else if d == 5 {
        "5"@
    } else if d == 6 {
        "6"@
    } else if d == 7 {
        "7"@
    } else if d == 8 {
        "8"@
    } else {
        "9"@
    }
}

/// The decimal digits of `n`, without leading zeros.
pub open spec fn decimal_text(n: nat) -> Seq<char>
    decreases n,
{
    if n < 10 {
        digit_text(n)
    } else {
        decimal_text(n / 10) + digit_text(n % 10)
    }
}

/// The text of a span: its bounds, with two points between them.
pub open spec fn span_text(span: Span) -> Seq<char> {
    decimal_text(span.lo() as nat) + ".."@ + decimal_text(span.hi() as nat)
}

/// What the failure of a parser of text says.
pub open spec fn mismatch_text(error: Mismatch) -> Seq<char> {
    match error {
        Mismatch::End { .. } => "Unexpected end of input"@,
        Mismatch::Unmatched { .. } => "Parser failed to match"@,
        Mismatch::NotEnd => "Input not empty"@,
        Mismatch::ParseInt { error: IntErrorKind::PosOverflow, .. } =>
            "Failed to parse integer: number too large to fit in target type"@,
        Mismatch::ParseInt { error: IntErrorKind::NegOverflow, .. } =>
            "Failed to parse integer: number too small to fit in target type"@,
        Mismatch::ParseFloat { .. } => "Failed to parse float"@,
    }
}

/// The text of a context: what it reports, and behind ` at ` the span that
/// it points to, if it points to one.
pub open spec fn context_text(context: ContextView) -> Seq<char> {
    let what = match context.reason {
        Reason::Mismatch(e) => mismatch_text(e),
        Reason::Message(m) => m,
    };
    match context.span {
        Some(span) => what + " at "@ + span_text(span),
        None => what,
    }
}

/// The text of a stack of contexts: one line for each context, the
/// outermost first, each with its index in the stack before it.
pub open spec fn stack_text(stack: Seq<ContextView>) -> Seq<char>
    decreases stack.len(),
{
    if stack.len() == 0 {
        Seq::<char>::empty()
    } else {
        decimal_text((stack.len() - 1) as nat) + ": "@ + context_text(stack.last()) + "\n"@
            + stack_text(stack.drop_last())
    }
}

/// The decimal digit `d` as text.
fn digit(d: usize) -> (r: &'static str)
    requires
        d < 10,
    ensures
        r@ == digit_text(d as nat),
{
    if d == 0 {
        "0"
    } else if d == 1 {
        "1"
    } else if d == 2 {
        "2"
    } else if d == 3 {
        "3"
    } else if d == 4 {
        "4"
    } else if d == 5 {
        "5"
    } else if d == 6 {
        "6"
    } else if d == 7 {
        "7"
    } else if d == 8 {
        "8"
    } else {
        "9"
    }
}

/// The decimal digits of `n`.
pub fn decimal(n: usize) -> (r: String)
    ensures
        r@ == decimal_text(n as nat),
    decreases n,
{
    if n < 10 {
        String::from_str(digit(n))
    } else {
        let mut text = decimal(n / 10);
        text.append(digit(n % 10));
        text
    }
}

impl Span {
    /// The text of the span: its bounds, with two points between them.
    pub fn render(&self) -> (r: String)
        ensures
            r@ == span_text(*self),
    {
        let mut text = decimal(self.start());
        text.append("..");
        let end = decimal(self.end());
        text.append(end.as_str());
        text
    }
}

impl Mismatch {
    /// What the failure says.
    pub fn describe(&self) -> (r: &'static str)
        ensures
            r@ == mismatch_text(*self),
    {
        match self {
            Mismatch::End { .. } => "Unexpected end of input",
            Mismatch::Unmatched { .. } => "Parser failed to match",
            Mismatch::NotEnd => "Input not empty",
            Mismatch::ParseInt { error: IntErrorKind::PosOverflow, .. } =>
                "Failed to parse integer: number too large to fit in target type",
            Mismatch::ParseInt { error: IntErrorKind::NegOverflow, .. } =>
                "Failed to parse integer: number too small to fit in target type",
            Mismatch::ParseFloat { .. } => "Failed to parse float",
        }
    }
}

impl Context {
    /// The text of the context: what it reports, and where.
    pub fn render(&self) -> (r: String)
        ensures
            r@ == context_text(self@),
    {
        let mut text = match self.cause() {
            Cause::Mismatch(e) => String::from_str(e.describe()),
            Cause::Message(m) => m.clone(),
        };
        match self.span() {
            Some(span) => {
                text.append(" at ");
                let place = span.render();
                text.append(place.as_str());
            },
            None => {},
        }
        text
    }
}

impl Error {
    /// The text of the error: one line for each context, the outermost
    /// first, each with its index in the stack before it.
    pub fn render(&self) -> (r: String)
        ensures
            r@ == stack_text(self@),
    {
        let mut text = String::new();
        let mut left = self.len();
        proof {
            assert(self@.take(left as int) =~= self@);
        }
        while left > 0
            invariant
                left <= self@.len(),
                text@ + stack_text(self@.take(left as int)) == stack_text(self@),
            decreases left,
        {
            left -= 1;
            let context = match self.get(left) {
                Some(c) => c,
                None => {
                    return text;
                },
            };
            let ghost before = text@;
            let index = decimal(left);
            text.append(index.as_str());
            text.append(": ");
            let line = context.render();
            text.append(line.as_str());
            text.append("\n");
            proof {
                let shown = self@.take(left + 1);
                assert(shown.last() == self@[left as int]);
                assert(shown.drop_last() =~= self@.take(left as int));
                assert(text@ + stack_text(self@.take(left as int)) =~= before + stack_text(shown));
            }
        }
        proof {
            assert(text@ + Seq::<char>::empty() =~= text@);
        }
        text
    }
}

/// The text of a context of a failure in `source`: what it reports, the
/// span that it points to, and in quotes the part of `source` that the
/// span covers.
pub open spec fn context_text_in(context: ContextView, source: Seq<char>) -> Seq<char> {
    match context.span {
        Some(span) => match excerpt_text(source, span) {
            Some(part) => context_text(context) + " '"@ + part + "'"@,
            None => context_text(context),
        },
        None => context_text(context),
    }
}

/// The text of a stack of contexts of a failure in `source`: one line for
/// each context, the outermost first, each with its index in the stack
/// before it.
pub open spec fn stack_text_in(stack: Seq<ContextView>, source: Seq<char>) -> Seq<char>
    decreases stack.len(),
{
    if stack.len() == 0 {
        Seq::<char>::empty()
    } else {
        decimal_text((stack.len() - 1) as nat) + ": "@ + context_text_in(stack.last(), source)
            + "\n"@ + stack_text_in(stack.drop_last(), source)
    }
}

impl Context {
    /// The text of the context of a failure in `source`: what it reports,
    /// where, and the part of `source` that it points to.
    pub fn explain(&self, source: &str) -> (r: String)
        ensures
            r@ == context_text_in(self@, source@),
    {
        let mut text = self.render();
        match self.span() {
            Some(span) => match excerpt(source, span) {
                Some(part) => {
                    text.append(" '");
                    text.append(part);
                    text.append("'");
                },
                None => {},
            },
            None => {},
        }
        text
    }
}

impl Error {
    /// The text of the error of a parser that was run on `source`: one
    /// line for each context, the outermost first, each with its index in
    /// the stack, what it reports, the span that it points to and the part
    /// of `source` that the span covers.
    pub fn explain(&self, source: &str) -> (r: String)
        ensures
            r@ == stack_text_in(self@, source@),
    {
        let mut text = String::new();
        let mut left = self.len();
        proof {
            assert(self@.take(left as int) =~= self@);
        }
        while left > 0
            invariant
                left <= self@.len(),
                text@ + stack_text_in(self@.take(left as int), source@) == stack_text_in(
                    self@,
                    source@,
                ),
            decreases left,
        {
            left -= 1;
            let context = match self.get(left) {
                Some(c) => c,
                None => {
                    return text;
                },
            };
            let ghost before = text@;
            let index = decimal(left);
            text.append(index.as_str());
            text.append(": ");
            let line = context.explain(source);
            text.append(line.as_str());
            text.append("\n");
            proof {
                let shown = self@.take(left + 1);
                assert(shown.last() == self@[left as int]);
                assert(shown.drop_last() =~= self@.take(left as int));
                assert(text@ + stack_text_in(self@.take(left as int), source@) =~= before
                    + stack_text_in(shown, source@));
            }
        }
        proof {
            assert(text@ + Seq::<char>::empty() =~= text@);
        }
        text
    }
}

} // verus!
