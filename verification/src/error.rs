//! The error that parsers return: a stack of contexts.

use crate::context::{Context, ContextView, Reason};
use crate::input::Input;
use crate::string::{end_of, Error as Mismatch};
use vstd::prelude::*;

verus! {

/// The contexts of a failure, the innermost cause first.  Parsers that
/// enclose the failing one add theirs behind it.  The stack is never empty.
#[derive(Debug)]
pub struct Error {
    stack: Vec<Context>,
}

/// The first failure of a parser of text that `stack` reports, if any.
pub open spec fn first_mismatch(stack: Seq<ContextView>) -> Option<Mismatch>
    decreases stack.len(),
{
    if stack.len() == 0 {
        None
    } else {
        match stack[0].reason {
            Reason::Mismatch(e) => Some(e),
            Reason::Message(_) => first_mismatch(stack.drop_first()),
        }
    }
}

impl View for Error {
    type V = Seq<ContextView>;

    closed spec fn view(&self) -> Seq<ContextView> {
        self.stack@.map_values(|c: Context| c@)
    }
}

impl Error {
    #[verifier::type_invariant]
    spec fn non_empty(self) -> bool {
        self.stack.len() > 0
    }

    /// The stack of a failure with the single cause `error`.
    pub open spec fn single(error: Mismatch) -> Seq<ContextView> {
        seq![ContextView { span: error.location(), reason: Reason::Mismatch(error) }]
    }

    /// An error with the given contexts, the innermost cause first.
    pub fn new(contexts: Vec<Context>) -> (e: Error)
        requires
            contexts.len() > 0,
        ensures
            e@ == contexts@.map_values(|c: Context| c@),
            e@.len() == contexts.len(),
    {
        Error { stack: contexts }
    }

    /// An error with one context.
    pub fn from_context(context: Context) -> (e: Error)
        ensures
            e@ == seq![context@],
    {
        let mut stack = Vec::new();
        stack.push(context);
        proof {
            assert(stack@.map_values(|c: Context| c@) =~= seq![context@]);
        }
        Error { stack }
    }

    /// An error whose one context reports the failure `error`.
    pub fn from_mismatch(error: Mismatch) -> (e: Error)
        ensures
            e@ == Error::single(error),
    {
        Error::from_context(Context::from_error(error))
    }

    /// The error of a parser that found the end of `input` where it needed
    /// more.
    pub fn end(input: Input) -> (e: Error)
        ensures
            e@ == Error::single(end_of(input)),
    {
        Error::from_mismatch(Mismatch::end(input))
    }

    /// Adds the context that `f` returns to the stack, as the outermost.
    pub fn with_context<F: FnOnce() -> Context>(self, f: F) -> (e: Error)
        requires
            call_requires(f, ()),
        ensures
            exists|c: Context| call_ensures(f, (), c) && e@ == self@.push(c@),
    {
        proof {
            use_type_invariant(&self);
        }
        let mut stack = self.stack;
        let ghost before = stack@;
        let context = f();
        stack.push(context);
        proof {
            assert(stack@.map_values(|c: Context| c@) =~= before.map_values(|c: Context| c@).push(
                context@,
            ));
        }
        Error { stack }
    }

    /// Adds `context` to the stack, as the outermost.
    pub fn push(self, context: Context) -> (e: Error)
        ensures
            e@ == self@.push(context@),
    {
        proof {
            use_type_invariant(&self);
        }
        let mut stack = self.stack;
        let ghost before = stack@;
        stack.push(context);
        proof {
            assert(stack@.map_values(|c: Context| c@) =~= before.map_values(|c: Context| c@).push(
                context@,
            ));
        }
        Error { stack }
    }

    /// The innermost, most specific cause.
    pub fn source(&self) -> (c: &Context)
        ensures
            self@.len() > 0,
            c@ == self@[0],
    {
        proof {
            use_type_invariant(self);
        }
        &self.stack[0]
    }

    /// The number of contexts: at least one.
    pub fn len(&self) -> (n: usize)
        ensures
            n == self@.len(),
            n > 0,
    {
        proof {
            use_type_invariant(self);
        }
        self.stack.len()
    }

    /// The context at `index`, counted from the innermost cause.
    pub fn get(&self, index: usize) -> (r: Option<&Context>)
        ensures
            index < self@.len() ==> (r matches Some(c) && c@ == self@[index as int]),
            index >= self@.len() ==> r is None,
    {
        if index < self.stack.len() {
            Some(&self.stack[index])
        } else {
            None
        }
    }

    /// The first failure of a parser of text in the stack, if there is one.
    pub fn downcast_ref(&self) -> (r: Option<&Mismatch>)
        ensures
            match first_mismatch(self@) {
                Some(e) => r == Some(&e),
                None => r is None,
            },
    {
        let mut index: usize = 0;
        proof {
            assert(self@.skip(0) =~= self@);
        }
        while index < self.stack.len()
            invariant
                index <= self.stack.len(),
                first_mismatch(self@) == first_mismatch(self@.skip(index as int)),
            decreases self.stack.len() - index,
        {
            let found = self.stack[index].downcast_ref();
            if found.is_some() {
                return found;
            }
            proof {
                let here = self@.skip(index as int);
                assert(here.drop_first() =~= self@.skip(index + 1));
            }
            index += 1;
        }
        None
    }
}

impl From<Context> for Error {
    /// An error with the one context `context`.
    fn from(context: Context) -> (e: Error)
        ensures
            e@ == seq![context@],
    {
        Error::from_context(context)
    }
}

impl vstd::std_specs::convert::FromSpecImpl<Context> for Error {
    open spec fn obeys_from_spec() -> bool {
        false
    }

    open spec fn from_spec(context: Context) -> Error {
        arbitrary()
    }
}

impl From<Mismatch> for Error {
    /// An error whose one context reports the failure `error`.
    fn from(error: Mismatch) -> (e: Error)
        ensures
            e@ == Error::single(error),
    {
        Error::from_mismatch(error)
    }
}

impl vstd::std_specs::convert::FromSpecImpl<Mismatch> for Error {
    open spec fn obeys_from_spec() -> bool {
        false
    }

    open spec fn from_spec(error: Mismatch) -> Error {
        arbitrary()
    }
}

impl PartialEq for Error {
    /// Two errors are equal where they hold equal contexts in the same
    /// order.
    fn eq(&self, other: &Error) -> (r: bool) {
        if self.stack.len() != other.stack.len() {
            assert(self@.len() != other@.len());
            return false;
        }
        let mut index: usize = 0;
        while index < self.stack.len()
            invariant
                self.stack.len() == other.stack.len(),
                index <= self.stack.len(),
                forall|i: int| 0 <= i < index ==> self@[i] == other@[i],
            decreases self.stack.len() - index,
        {
            if !(self.stack[index] == other.stack[index]) {
                assert(self@[index as int] != other@[index as int]);
                return false;
            }
            index += 1;
        }
        proof {
            assert(self@ =~= other@);
        }
        true
    }
}

impl vstd::std_specs::cmp::PartialEqSpecImpl for Error {
    open spec fn obeys_eq_spec() -> bool {
        true
    }

    open spec fn eq_spec(&self, other: &Error) -> bool {
        self@ == other@
    }
}

} // verus!
