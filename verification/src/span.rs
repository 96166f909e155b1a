//! Byte ranges into an input buffer.

use crate::input::{byte_len, excerpt, excerpt_text, same_text, utf8_len};
use core::ops::Range;
use vstd::prelude::*;

verus! {

/// A half-open range of byte offsets into a buffer.  Unlike `Range<usize>`,
/// every `Span` that exists at run time has `start <= end`.
#[derive(Debug, Clone, Copy, Hash, PartialEq, Eq, Structural)]
pub struct Span {
    start: usize,
    end: usize,
}

/// The span that a slice of `needle_len` bytes at address `needle` takes
/// inside a buffer of `haystack_len` bytes at address `haystack`, if the
/// slice lies inside the buffer.  Both the distance between the addresses
/// and the end of the slice are taken modulo the size of the address space.
pub open spec fn located(needle: usize, needle_len: usize, haystack: usize, haystack_len: usize)
    -> Option<(int, int)> {
    let start = if needle >= haystack {
        needle - haystack
    } else {
        needle - haystack + usize::MAX + 1
    };
    let end = if start + needle_len > usize::MAX {
        start + needle_len - usize::MAX - 1
    } else {
        start + needle_len
    };
    if start <= end <= haystack_len {
        Some((start, end))
    } else {
        None
    }
}

impl Span {
    #[verifier::type_invariant]
    spec fn ordered(self) -> bool {
        self.start <= self.end
    }

    /// The inclusive lower bound, as a specification value.
    pub closed spec fn lo(self) -> usize {
        self.start
    }

    /// The exclusive upper bound, as a specification value.
    pub closed spec fn hi(self) -> usize {
        self.end
    }

    /// The span from `lo` to `hi`, as a specification value.
    pub closed spec fn of(lo: int, hi: int) -> Span {
        Span { start: lo as usize, end: hi as usize }
    }

    /// The bounds of `Span::of(lo, hi)` are `lo` and `hi`.
    pub broadcast proof fn lemma_of_bounds(lo: int, hi: int)
        requires
            0 <= lo <= usize::MAX,
            0 <= hi <= usize::MAX,
        ensures
            (#[trigger] Span::of(lo, hi)).lo() == lo,
            Span::of(lo, hi).hi() == hi,
    {
    }

    /// A span is the span from its lower to its upper bound.
    pub broadcast proof fn lemma_of_own_bounds(self)
        ensures
            Span::of(#[trigger] self.lo() as int, self.hi() as int) == self,
    {
    }

    /// A span is determined by its two bounds.
    pub proof fn lemma_bounds_determine(self, other: Span)
        requires
            self.lo() == other.lo(),
            self.hi() == other.hi(),
        ensures
            self == other,
    {
    }

    /// Creates a new span from `start` to `end`.  See [`Span::try_new`] for
    /// a constructor that accepts any pair of offsets.
    pub fn new(start: usize, end: usize) -> (span: Span)
        requires
            start <= end,
        ensures
            span == Span::of(start as int, end as int),
            span.lo() == start,
            span.hi() == end,
    {
        Span { start, end }
    }

    /// Returns a new span, or `None` if `start` is greater than `end`.
    pub fn try_new(start: usize, end: usize) -> (r: Option<Span>)
        ensures
            start <= end ==> (r matches Some(span) && span.lo() == start && span.hi() == end),
            start > end ==> r is None,
    {
        if start <= end {
            Some(Span { start, end })
        } else {
            None
        }
    }

    /// Returns the span of a range, or `None` if the range's start is
    /// greater than its end.
    pub fn from_range(range: Range<usize>) -> (r: Option<Span>)
        ensures
            range.start <= range.end ==> (r matches Some(span) && span.lo() == range.start
                && span.hi() == range.end),
            range.start > range.end ==> r is None,
    {
        Span::try_new(range.start, range.end)
    }

    /// Computes the span of a slice inside a buffer from their addresses
    /// and lengths.  The distance between the addresses is taken modulo
    /// the address space, as is the end of the slice, so that a slice that
    /// starts before the buffer is told apart from one that starts inside.
    pub fn locate(needle: usize, needle_len: usize, haystack: usize, haystack_len: usize) -> (r:
        Option<Span>)
        ensures
            match located(needle, needle_len, haystack, haystack_len) {
                Some((start, end)) => r matches Some(span) && span.lo() == start && span.hi()
                    == end,
                None => r is None,
            },
            r matches Some(span) ==> span.hi() - span.lo() == needle_len && span.hi()
                <= haystack_len,
    {
        let start = needle.wrapping_sub(haystack);
        let end = start.wrapping_add(needle_len);
        if start <= haystack_len && end <= haystack_len && start <= end {
            Some(Span { start, end })
        } else {
            None
        }
    }

    /// The span that `needle` takes in `haystack`, where the two lie at
    /// the given addresses: the span that [`located`] gives, provided that
    /// it covers in `haystack` the text of `needle`.
    pub open spec fn found(
        needle: Seq<char>,
        needle_address: usize,
        haystack: Seq<char>,
        haystack_address: usize,
    ) -> Option<Span> {
        match located(
            needle_address,
            utf8_len(needle) as usize,
            haystack_address,
            utf8_len(haystack) as usize,
        ) {
            Some((start, end)) => if excerpt_text(haystack, Span::of(start, end)) == Some(
                needle,
            ) {
                Some(Span::of(start, end))
            } else {
                None
            },
            None => None,
        }
    }

    /// Determines the span of `needle` inside `haystack` from the addresses
    /// of the two.  The span is returned where the text that it covers in
    /// `haystack` is that of `needle`.
    pub fn find(
        needle: &str,
        needle_address: usize,
        haystack: &str,
        haystack_address: usize,
    ) -> (r: Option<Span>)
        ensures
            r == Span::found(needle@, needle_address, haystack@, haystack_address),
    {
        let span = Span::locate(
            needle_address,
            byte_len(needle),
            haystack_address,
            byte_len(haystack),
        )?;
        proof {
            span.lemma_of_own_bounds();
        }
        let covered = excerpt(haystack, span)?;
        if same_text(covered, needle) {
            Some(span)
        } else {
            None
        }
    }

    /// Determines the span of `needle` inside `haystack`, where `needle` is
    /// a slice borrowed from `haystack`.  Returns `None` when `needle` does
    /// not lie inside `haystack`'s memory, whatever the two hold.  The span
    /// that is returned covers in `haystack` the text of `needle`.
    pub fn from_substring(needle: &str, haystack: &str) -> (r: Option<Span>)
        ensures
            r matches Some(span) ==> excerpt_text(haystack@, span) == Some(needle@),
    {
        let needle_start = address_of(needle);
        let haystack_start = address_of(haystack);
        Span::find(needle, needle_start, haystack, haystack_start)
    }

    /// The inclusive lower bound.
    pub fn start(&self) -> (r: usize)
        ensures
            r == self.lo(),
            r <= self.hi(),
    {
        proof {
            use_type_invariant(self);
        }
        self.start
    }

    /// The exclusive upper bound.
    pub fn end(&self) -> (r: usize)
        ensures
            r == self.hi(),
            r >= self.lo(),
    {
        proof {
            use_type_invariant(self);
        }
        self.end
    }

    /// Converts the span to the equivalent range, which can be used to
    /// index strings and byte slices.
    pub fn to_range(&self) -> (r: Range<usize>)
        ensures
            r.start == self.lo(),
            r.end == self.hi(),
            r.start <= r.end,
    {
        proof {
            use_type_invariant(self);
        }
        self.start..self.end
    }

    /// Returns `true` if `self` fully contains `other`.
    pub fn contains(&self, other: Span) -> (r: bool)
        ensures
            r == (self.lo() <= other.lo() && other.hi() <= self.hi()),
    {
        self.start <= other.start && self.end >= other.end
    }

    /// Length of the span in bytes (not in characters).
    pub fn len(&self) -> (r: usize)
        ensures
            r == self.hi() - self.lo(),
    {
        proof {
            use_type_invariant(self);
        }
        self.end - self.start
    }

    /// Returns `true` if the span covers no byte.
    pub fn is_empty(&self) -> (r: bool)
        ensures
            r == (self.lo() == self.hi()),
    {
        self.start == self.end
    }
}

impl From<Span> for Range<usize> {
    /// The range with the bounds of `span`.
    fn from(span: Span) -> (r: Range<usize>) {
        span.to_range()
    }
}

impl vstd::std_specs::convert::FromSpecImpl<Span> for Range<usize> {
    open spec fn obeys_from_spec() -> bool {
        true
    }

    open spec fn from_spec(span: Span) -> Range<usize> {
        Range { start: span.lo(), end: span.hi() }
    }
}

/// `contains` is a partial order on spans: it is reflexive and transitive,
/// and two spans that contain each other are equal.
pub proof fn lemma_contains_is_partial_order(a: Span, b: Span, c: Span)
    ensures
        a.lo() <= a.lo() && a.hi() <= a.hi(),
        (a.lo() <= b.lo() && b.hi() <= a.hi()) && (b.lo() <= c.lo() && c.hi() <= b.hi()) ==> (
        a.lo() <= c.lo() && c.hi() <= a.hi()),
        (a.lo() <= b.lo() && b.hi() <= a.hi()) && (b.lo() <= a.lo() && a.hi() <= b.hi()) ==> a
            == b,
{
}

/// Calls `str::as_ptr` and hands the pointer back as a number.  Nothing is
/// claimed of the number.
#[verifier::external_body]
fn address_of(text: &str) -> usize {
    text.as_ptr() as usize
}

} // verus!
