//! Parsers of text that match zero or more characters, and so never fail.

use crate::predicate::{
    Alphabetic, Alphanumeric, NoneOf, Not, OneOf, Predicate, Whitespace,
};
use crate::string::TakeWhile;
use vstd::prelude::*;

verus! {

/// Cuts off the longest prefix whose characters `predicate` accepts.  The
/// prefix may be empty.  The predicate is a function from characters to
/// `bool`, or any other [`Predicate`].
pub fn take_while0<Q: Predicate>(predicate: Q) -> (p: TakeWhile<Q>)
    ensures
        p == (TakeWhile { predicate, min: 0 }),
{
    TakeWhile { predicate, min: 0 }
}

/// Matches a prefix up to the first character that `predicate` accepts.
/// The prefix may be empty.  The predicate is a function from characters to
/// `bool`, or any other [`Predicate`].
pub fn take_until0<Q: Predicate>(predicate: Q) -> (p: TakeWhile<Not<Q>>)
    ensures
        p == (TakeWhile { predicate: Not(predicate), min: 0 }),
{
    TakeWhile { predicate: Not(predicate), min: 0 }
}

/// Matches zero or more of the characters in `chars`.
pub fn one_of0<'c>(chars: &'c [char]) -> (p: TakeWhile<OneOf<'c>>)
    ensures
        p == (TakeWhile { predicate: OneOf(chars), min: 0 }),
{
    TakeWhile { predicate: OneOf(chars), min: 0 }
}

/// Matches zero or more characters that are not in `chars`.
pub fn none_of0<'c>(chars: &'c [char]) -> (p: TakeWhile<NoneOf<'c>>)
    ensures
        p == (TakeWhile { predicate: NoneOf(chars), min: 0 }),
{
    TakeWhile { predicate: NoneOf(chars), min: 0 }
}

/// Matches zero or more characters of Unicode whitespace.
pub fn whitespace0() -> (p: TakeWhile<Whitespace>)
    ensures
        p == (TakeWhile { predicate: Whitespace, min: 0 }),
{
    TakeWhile { predicate: Whitespace, min: 0 }
}

/// Matches zero or more alphabetic or numeric characters.
pub fn alphanumeric0() -> (p: TakeWhile<Alphanumeric>)
    ensures
        p == (TakeWhile { predicate: Alphanumeric, min: 0 }),
{
    TakeWhile { predicate: Alphanumeric, min: 0 }
}

/// Matches zero or more alphabetic characters.
pub fn alphabetic0() -> (p: TakeWhile<Alphabetic>)
    ensures
        p == (TakeWhile { predicate: Alphabetic, min: 0 }),
{
    TakeWhile { predicate: Alphabetic, min: 0 }
}

} // verus!
