//! Sets of characters, as tests that a parser applies to a character.

use vstd::prelude::*;

verus! {

/// A test on characters.  The test decides a set: it gives the same answer
/// whenever it is asked about the same character.
pub trait Predicate {
    /// What must hold of the test for it to be applied.
    spec fn wf(&self) -> bool;

    /// Whether `c` is in the set.
    spec fn accepts(&self, c: char) -> bool;

    /// Tests `c`.
    fn test(&self, c: char) -> (b: bool)
        requires
            self.wf(),
        ensures
            b == self.accepts(c),
    ;
}

/// A function from characters to `bool` is a test, provided that it accepts
/// every character as its argument and that its answer is determined by
/// the character.
///
/// The set of a function holds the characters for which `true` is an answer
/// that the function may give.  From what a function ensures, a proof learns
/// which answers it does not give, never that it gives one: so a proof can
/// show that a function rejects a character, and cannot show that it accepts
/// one.  In verified code, state a set as a type that implements
/// [`Predicate`], as the sets of this module do; a function serves callers
/// that ask no proof of what is matched.
impl<F: Fn(char) -> bool> Predicate for F {
    open spec fn wf(&self) -> bool {
        &&& forall|c: char| call_requires(*self, (c,))
        &&& forall|c: char| !(call_ensures(*self, (c,), true) && call_ensures(*self, (c,), false))
    }

    open spec fn accepts(&self, c: char) -> bool {
        call_ensures(*self, (c,), true)
    }

    fn test(&self, c: char) -> (b: bool) {
        self(c)
    }
}

/// What the test of a function is: in a function that creates a closure,
/// this states of the closure what the implementation above states of every
/// function.
pub proof fn lemma_function_is_predicate<F: Fn(char) -> bool>(f: F)
    ensures
        f.wf() <==> {
            &&& forall|c: char| call_requires(f, (c,))
            &&& forall|c: char| !(call_ensures(f, (c,), true) && call_ensures(f, (c,), false))
        },
        forall|c: char| #[trigger] f.accepts(c) <==> call_ensures(f, (c,), true),
{
}

/// The characters of a slice.
#[derive(Debug, Clone, Copy)]
pub struct OneOf<'c>(pub &'c [char]);

/// The characters that are not in a slice.
#[derive(Debug, Clone, Copy)]
pub struct NoneOf<'c>(pub &'c [char]);

/// The characters that another test rejects.
#[derive(Debug)]
pub struct Not<Q>(pub Q);

/// Every character.
#[derive(Debug, Clone, Copy)]
pub struct Any;

/// The digits of a radix from 2 to 36: `0` to `9`, then the letters from
/// `a`, in either case.
#[derive(Debug, Clone, Copy)]
pub struct Digit(pub u32);

/// The characters with the Unicode property `White_Space`.
#[derive(Debug, Clone, Copy)]
pub struct Whitespace;

/// The characters with the Unicode property `Alphabetic`.
#[derive(Debug, Clone, Copy)]
pub struct Alphabetic;

/// The characters that are alphabetic or numeric in Unicode.
#[derive(Debug, Clone, Copy)]
pub struct Alphanumeric;

/// Whether `chars` holds `c`.
pub fn holds(chars: &[char], c: char) -> (b: bool)
    ensures
        b == chars@.contains(c),
{
    let mut i: usize = 0;
    while i < chars.len()
        invariant
            i <= chars.len(),
            forall|j: int| 0 <= j < i ==> chars@[j] != c,
        decreases chars.len() - i,
    {
        if chars[i] == c {
            return true;
        }
        i += 1;
    }
    false
}

/// The value of `c` as a digit: `0` to `9` stand for 0 to 9, and the
/// letters from `a`, in either case, for 10 to 35.
pub open spec fn digit_value(c: char) -> Option<int> {
    let v = c as int;
    if 48 <= v <= 57 {
        Some(v - 48)
    } else if 97 <= v <= 122 {
        Some(v - 97 + 10)
    } else if 65 <= v <= 90 {
        Some(v - 65 + 10)
    } else {
        None
    }
}

/// Whether `c` is a digit of `radix`.
pub open spec fn is_digit(c: char, radix: u32) -> bool {
    digit_value(c) matches Some(v) && v < radix
}

/// The value of `c` as a digit of `radix`, if it is one.
pub fn to_digit(c: char, radix: u32) -> (r: Option<u32>)
    ensures
        match r {
            Some(v) => digit_value(c) == Some(v as int) && v < radix,
            None => !is_digit(c, radix),
        },
{
    let v: u32 = c as u32;
    let value: u32 = if 48 <= v && v <= 57 {
        v - 48
    } else if 97 <= v && v <= 122 {
        v - 97 + 10
    } else if 65 <= v && v <= 90 {
        v - 65 + 10
    } else {
        return None;
    };
    if value < radix {
        Some(value)
    } else {
        None
    }
}

/// Whether `c` has the Unicode property `White_Space`: the property holds
/// of the tabulations, line and page breaks U+0009 to U+000D, of the space,
/// of the next line U+0085, of the no-break space U+00A0, of the ogham space
/// mark U+1680, of the spaces U+2000 to U+200A, of the line and paragraph
/// separators U+2028 and U+2029, and of the spaces U+202F, U+205F and U+3000.
pub open spec fn unicode_whitespace(c: char) -> bool {
    let v = c as int;
    ||| 0x09 <= v <= 0x0D
    ||| v == 0x20
    ||| v == 0x85
    ||| v == 0xA0
    ||| v == 0x1680
    ||| 0x2000 <= v <= 0x200A
    ||| v == 0x2028
    ||| v == 0x2029
    ||| v == 0x202F
    ||| v == 0x205F
    ||| v == 0x3000
}

/// What `char::is_alphabetic` returns for `c`.
pub uninterp spec fn unicode_alphabetic(c: char) -> bool;

/// What `char::is_alphanumeric` returns for `c`.
pub uninterp spec fn unicode_alphanumeric(c: char) -> bool;

/// Calls `char::is_whitespace`, which tells whether `c` has the Unicode
/// property `White_Space`.  The contract states the property by its code
/// points.
#[verifier::external_body]
fn is_whitespace(c: char) -> (b: bool)
    ensures
        b == unicode_whitespace(c),
{
    c.is_whitespace()
}

/// Calls `char::is_alphabetic`, which looks `c` up in the tables of the
/// Unicode property `Alphabetic`.  The contract gives the answer a name.
#[verifier::external_body]
fn is_alphabetic(c: char) -> (b: bool)
    ensures
        b == unicode_alphabetic(c),
{
    c.is_alphabetic()
}

/// Calls `char::is_alphanumeric`, which looks `c` up in the tables of the
/// Unicode properties `Alphabetic` and of the numeric general categories.
/// The contract gives the answer a name.
#[verifier::external_body]
fn is_alphanumeric(c: char) -> (b: bool)
    ensures
        b == unicode_alphanumeric(c),
{
    c.is_alphanumeric()
}

impl<'c> Predicate for OneOf<'c> {
    open spec fn wf(&self) -> bool {
        true
    }

    open spec fn accepts(&self, c: char) -> bool {
        self.0@.contains(c)
    }

    fn test(&self, c: char) -> (b: bool) {
        holds(self.0, c)
    }
}

impl<'c> Predicate for NoneOf<'c> {
    open spec fn wf(&self) -> bool {
        true
    }

    open spec fn accepts(&self, c: char) -> bool {
        !self.0@.contains(c)
    }

    fn test(&self, c: char) -> (b: bool) {
        !holds(self.0, c)
    }
}

impl<Q: Predicate> Predicate for Not<Q> {
    open spec fn wf(&self) -> bool {
        self.0.wf()
    }

    open spec fn accepts(&self, c: char) -> bool {
        !self.0.accepts(c)
    }

    fn test(&self, c: char) -> (b: bool) {
        !self.0.test(c)
    }
}

impl Predicate for Any {
    open spec fn wf(&self) -> bool {
        true
    }

    open spec fn accepts(&self, c: char) -> bool {
        true
    }

    fn test(&self, c: char) -> (b: bool) {
        true
    }
}

impl Predicate for Digit {
    open spec fn wf(&self) -> bool {
        2 <= self.0 <= 36
    }

    open spec fn accepts(&self, c: char) -> bool {
        is_digit(c, self.0)
    }

    fn test(&self, c: char) -> (b: bool) {
        to_digit(c, self.0).is_some()
    }
}

impl Predicate for Whitespace {
    open spec fn wf(&self) -> bool {
        true
    }

    open spec fn accepts(&self, c: char) -> bool {
        unicode_whitespace(c)
    }

    fn test(&self, c: char) -> (b: bool) {
        is_whitespace(c)
    }
}

impl Predicate for Alphabetic {
    open spec fn wf(&self) -> bool {
        true
    }

    open spec fn accepts(&self, c: char) -> bool {
        unicode_alphabetic(c)
    }

    fn test(&self, c: char) -> (b: bool) {
        is_alphabetic(c)
    }
}

impl Predicate for Alphanumeric {
    open spec fn wf(&self) -> bool {
        true
    }

    open spec fn accepts(&self, c: char) -> bool {
        unicode_alphanumeric(c)
    }

    fn test(&self, c: char) -> (b: bool) {
        is_alphanumeric(c)
    }
}

impl Predicate for char {
    open spec fn wf(&self) -> bool {
        true
    }

    open spec fn accepts(&self, c: char) -> bool {
        c == *self
    }

    fn test(&self, c: char) -> (b: bool) {
        c == *self
    }
}

} // verus!
