//! One recorded cause of a failure.

use crate::span::Span;
use crate::string::Error as Mismatch;
use vstd::prelude::*;

verus! {

/// What a [`Context`] reports, as a mathematical value.
pub enum Reason {
    /// The failure of a parser of text.
    Mismatch(Mismatch),
    /// An explanation in words.
    Message(Seq<char>),
}

/// The mathematical value of a [`Context`].
pub struct ContextView {
    /// The part of the input that the context points to, if any.
    pub span: Option<Span>,
    /// What the context reports.
    pub reason: Reason,
}

/// What a [`Context`] reports.
#[derive(Debug)]
pub enum Cause {
    /// The failure of a parser of text.
    Mismatch(Mismatch),
    /// An explanation in words.
    Message(String),
}

impl View for Cause {
    type V = Reason;

    open spec fn view(&self) -> Reason {
        match self {
            Cause::Mismatch(e) => Reason::Mismatch(*e),
            Cause::Message(m) => Reason::Message(m@),
        }
    }
}

/// A single record of a failure: what failed, and, where it is known, the
/// part of the input at which it failed.
#[derive(Debug)]
pub struct Context {
    span: Option<Span>,
    cause: Cause,
}

impl View for Context {
    type V = ContextView;

    closed spec fn view(&self) -> ContextView {
        ContextView { span: self.span, reason: self.cause@ }
    }
}

impl Context {
    /// A context for `cause` that points to the `length` bytes of the
    /// input that begin at `offset`.
    pub fn new(offset: usize, length: usize, cause: Cause) -> (c: Context)
        requires
            offset + length <= usize::MAX,
        ensures
            c@.reason == cause@,
            c@.span matches Some(span) && span.lo() == offset && span.hi() == offset + length,
    {
        Context { span: Some(Span::new(offset, offset + length)), cause }
    }

    /// A context that reports the failure of a parser of text, and points
    /// where that failure points.
    pub fn from_error(error: Mismatch) -> (c: Context)
        ensures
            c@ == (ContextView { span: error.location(), reason: Reason::Mismatch(error) }),
    {
        Context { span: error.span(), cause: Cause::Mismatch(error) }
    }

    /// A context that explains a failure in words, and points nowhere.
    pub fn from_message(msg: &str) -> (c: Context)
        ensures
            c@ == (ContextView { span: None, reason: Reason::Message(msg@) }),
    {
        Context { span: None, cause: Cause::Message(msg.to_owned()) }
    }

    /// The same context, pointing to `span`.
    pub fn with_span(self, span: Span) -> (c: Context)
        ensures
            c@ == (ContextView { span: Some(span), reason: self@.reason }),
    {
        Context { span: Some(span), cause: self.cause }
    }

    /// Whether the context points to a part of the input.
    pub fn has_span(&self) -> (r: bool)
        ensures
            r == self@.span.is_some(),
    {
        self.span.is_some()
    }

    /// The part of the input that the context points to, if any.
    pub fn span(&self) -> (r: Option<Span>)
        ensures
            r == self@.span,
    {
        self.span
    }

    /// What the context reports.
    pub fn cause(&self) -> (r: &Cause)
        ensures
            r@ == self@.reason,
    {
        &self.cause
    }

    /// The failure of a parser of text that the context reports, if it
    /// reports one.
    pub fn downcast_ref(&self) -> (r: Option<&Mismatch>)
        ensures
            match self@.reason {
                Reason::Mismatch(e) => r == Some(&e),
                Reason::Message(_) => r is None,
            },
    {
        match &self.cause {
            Cause::Mismatch(e) => Some(e),
            Cause::Message(_) => None,
        }
    }

    /// The explanation in words that the context reports, if it reports
    /// one.
    pub fn message(&self) -> (r: Option<&str>)
        ensures
            match self@.reason {
                Reason::Mismatch(_) => r is None,
                Reason::Message(m) => r matches Some(text) && text@ == m,
            },
    {
        match &self.cause {
            Cause::Mismatch(_) => None,
            Cause::Message(m) => Some(m.as_str()),
        }
    }

    /// A copy of the context.
    pub fn duplicate(&self) -> (c: Context)
        ensures
            c@ == self@,
    {
        let cause = match &self.cause {
            Cause::Mismatch(e) => Cause::Mismatch(*e),
            Cause::Message(m) => Cause::Message(m.clone()),
        };
        Context { span: self.span, cause }
    }
}

impl PartialEq for Context {
    /// Two contexts are equal where they point to the same span, or both
    /// to none, and report the same.
    fn eq(&self, other: &Context) -> (r: bool) {
        let same_span = match (self.span, other.span) {
            (Some(a), Some(b)) => a == b,
            (None, None) => true,
            _ => false,
        };
        let same_cause = match (&self.cause, &other.cause) {
            (Cause::Mismatch(a), Cause::Mismatch(b)) => *a == *b,
            (Cause::Message(a), Cause::Message(b)) => *a == *b,
            _ => false,
        };
        same_span && same_cause
    }
}

impl vstd::std_specs::cmp::PartialEqSpecImpl for Context {
    open spec fn obeys_eq_spec() -> bool {
        true
    }

    open spec fn eq_spec(&self, other: &Context) -> bool {
        self@ == other@
    }
}

} // verus!
