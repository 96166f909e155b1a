//! The input of a parser: what is left of a text, and where it begins.

use crate::span::Span;
use vstd::prelude::*;
use vstd::utf8::*;

verus! {

/// The number of bytes that the UTF-8 encoding of `s` takes.
pub open spec fn utf8_len(s: Seq<char>) -> nat {
    encode_utf8(s).len()
}

/// The number of bytes that the UTF-8 encoding of `c` takes.
pub open spec fn char_len(c: char) -> nat {
    encode_scalar(c as u32).len()
}

/// Encoding distributes over concatenation.
pub proof fn lemma_encode_concat(a: Seq<char>, b: Seq<char>)
    ensures
        encode_utf8(a + b) =~= encode_utf8(a) + encode_utf8(b),
    decreases a.len(),
{
    if a.len() == 0 {
        assert(a + b =~= b);
    } else {
        assert((a + b).drop_first() =~= a.drop_first() + b);
        lemma_encode_concat(a.drop_first(), b);
    }
}

/// The bytes of a text are those of any prefix followed by those of the
/// rest.
pub proof fn lemma_utf8_len_split(s: Seq<char>, k: int)
    requires
        0 <= k <= s.len(),
    ensures
        encode_utf8(s) =~= encode_utf8(s.take(k)) + encode_utf8(s.skip(k)),
        utf8_len(s) == utf8_len(s.take(k)) + utf8_len(s.skip(k)),
{
    assert(s =~= s.take(k) + s.skip(k));
    lemma_encode_concat(s.take(k), s.skip(k));
}

/// Taking one more character adds that character's bytes.
pub proof fn lemma_utf8_len_step(s: Seq<char>, k: int)
    requires
        0 <= k < s.len(),
    ensures
        utf8_len(s.take(k + 1)) == utf8_len(s.take(k)) + char_len(s[k]),
        utf8_len(s.take(k + 1)) <= utf8_len(s),
{
    let one = seq![s[k]];
    assert(s.take(k + 1) =~= s.take(k) + one);
    lemma_encode_concat(s.take(k), one);
    assert(one.drop_first() =~= Seq::<char>::empty());
    assert(encode_utf8(one) =~= encode_scalar(s[k] as u32)) by {
        reveal_with_fuel(encode_utf8, 2);
    }
    lemma_utf8_len_split(s, k + 1);
}

/// A text has at least as many bytes as characters.
pub proof fn lemma_chars_le_bytes(s: Seq<char>)
    ensures
        s.len() <= utf8_len(s),
    decreases s.len(),
{
    if s.len() > 0 {
        lemma_chars_le_bytes(s.drop_first());
    }
}

/// Byte lengths of prefixes grow with the prefix, strictly.
pub proof fn lemma_utf8_len_monotonic(s: Seq<char>, i: int, j: int)
    requires
        0 <= i <= j <= s.len(),
    ensures
        utf8_len(s.take(i)) + (j - i) <= utf8_len(s.take(j)),
        utf8_len(s.take(j)) <= utf8_len(s),
{
    let t = s.take(j);
    lemma_utf8_len_split(t, i);
    assert(t.take(i) =~= s.take(i));
    lemma_chars_le_bytes(t.skip(i));
    lemma_utf8_len_split(s, j);
}

/// The least number of characters at the beginning of `s` that take at
/// least `bytes` bytes together; all the characters of `s`, where `s` has
/// fewer bytes.  The prefix of that many characters ends at the first
/// boundary between characters at or behind `bytes` bytes.
pub open spec fn chars_covering(s: Seq<char>, bytes: int) -> nat
    decreases s.len(),
{
    if bytes <= 0 || s.len() == 0 {
        0
    } else {
        1 + chars_covering(s.drop_first(), bytes - char_len(s[0]))
    }
}

/// The prefix of `chars_covering` characters is the shortest prefix that
/// takes at least `bytes` bytes: it takes that many, the prefix with one
/// character less does not, and so it ends less than one character behind
/// `bytes` bytes.
pub proof fn lemma_chars_covering(s: Seq<char>, bytes: int)
    requires
        0 <= bytes <= utf8_len(s),
    ensures
        chars_covering(s, bytes) <= s.len(),
        utf8_len(s.take(chars_covering(s, bytes) as int)) >= bytes,
        utf8_len(s.take(chars_covering(s, bytes) as int)) < bytes + 4,
        chars_covering(s, bytes) > 0 ==> utf8_len(s.take(chars_covering(s, bytes) - 1)) < bytes,
    decreases s.len(),
{
    let k = chars_covering(s, bytes) as int;
    if bytes <= 0 || s.len() == 0 {
        assert(s.take(0) =~= Seq::<char>::empty());
    } else {
        let tail = s.drop_first();
        let left = bytes - char_len(s[0]);
        let j = chars_covering(tail, left) as int;
        assert(s.take(0) =~= Seq::<char>::empty());
        assert(s.take(1).drop_first() =~= Seq::<char>::empty());
        if left <= 0 {
            assert(encode_utf8(s.take(1)) =~= encode_scalar(s[0] as u32)) by {
                reveal_with_fuel(encode_utf8, 2);
            }
        } else {
            assert(tail.len() > 0) by {
                if tail.len() == 0 {
                    assert(s =~= s.take(1));
                    assert(encode_utf8(s.take(1)) =~= encode_scalar(s[0] as u32)) by {
                        reveal_with_fuel(encode_utf8, 2);
                    }
                }
            }
            lemma_chars_covering(tail, left);
            assert(s.take(k).drop_first() =~= tail.take(j));
            assert(s.take(k - 1).drop_first() =~= tail.take(j - 1));
        }
    }
}

/// The end of every prefix of a text is a character boundary of its bytes.
pub proof fn lemma_prefix_is_boundary(s: Seq<char>, k: int)
    requires
        0 <= k <= s.len(),
    ensures
        is_char_boundary(encode_utf8(s), utf8_len(s.take(k)) as int),
    decreases k,
{
    broadcast use encode_utf8_valid_utf8;

    let bytes = encode_utf8(s);
    if k == 0 {
        assert(s.take(0) =~= Seq::<char>::empty());
    } else {
        let tail = s.drop_first();
        encode_utf8_first_scalar(s);
        assert(pop_first_scalar(bytes) =~= encode_utf8(tail));
        lemma_prefix_is_boundary(tail, k - 1);
        assert(s.take(k).drop_first() =~= tail.take(k - 1));
        assert(s.take(k)[0] == s[0]);
        lemma_utf8_len_monotonic(s, 0, k);
        lemma_utf8_len_split(s, k);
    }
}

/// A character boundary of a text's bytes is the end of one of its
/// prefixes.
pub proof fn lemma_boundary_is_prefix(s: Seq<char>, index: int) -> (k: int)
    requires
        is_char_boundary(encode_utf8(s), index),
    ensures
        0 <= k <= s.len(),
        index == utf8_len(s.take(k)),
    decreases s.len(),
{
    broadcast use encode_utf8_valid_utf8;

    let bytes = encode_utf8(s);
    if index == 0 {
        assert(s.take(0) =~= Seq::<char>::empty());
        0
    } else {
        assert(s.len() > 0);
        let tail = s.drop_first();
        encode_utf8_first_scalar(s);
        assert(pop_first_scalar(bytes) =~= encode_utf8(tail));
        let j = lemma_boundary_is_prefix(tail, index - length_of_first_scalar(bytes));
        assert(s.take(j + 1).drop_first() =~= tail.take(j));
        assert(s.take(j + 1)[0] == s[0]);
        j + 1
    }
}

/// Two texts with the same bytes are the same text.
pub proof fn lemma_encode_injective(a: Seq<char>, b: Seq<char>)
    requires
        encode_utf8(a) == encode_utf8(b),
    ensures
        a == b,
{
    encode_utf8_decode_utf8(a);
    encode_utf8_decode_utf8(b);
}

/// The number of bytes that `c` takes in UTF-8.
pub fn char_width(c: char) -> (n: usize)
    ensures
        n == char_len(c),
        1 <= n <= 4,
{
    let v: u32 = c as u32;
    if v < 0x80 {
        1
    } else if v < 0x800 {
        2
    } else if v < 0x10000 {
        3
    } else {
        4
    }
}

/// The number of bytes in `text`.
pub fn byte_len(text: &str) -> (n: usize)
    ensures
        n == utf8_len(text@),
{
    broadcast use vstd::slice::group_slice_axioms;

    text.as_bytes().len()
}

/// The first character of `text`, if it has one.
pub fn first_char(text: &str) -> (r: Option<char>)
    ensures
        r == if text@.len() > 0 {
            Some(text@[0])
        } else {
            None::<char>
        },
{
    broadcast use vstd::string::group_string_axioms;

    let mut chars = text.chars();
    chars.next()
}

/// Cuts `text` in two at `bytes`, the end of its prefix of `k` characters.
pub fn split_prefix<'a>(text: &'a str, bytes: usize, Ghost(k): Ghost<int>) -> (r: (
    &'a str,
    &'a str,
))
    requires
        0 <= k <= text@.len(),
        bytes == utf8_len(text@.take(k)),
    ensures
        r.0@ == text@.take(k),
        r.1@ == text@.skip(k),
{
    proof {
        lemma_prefix_is_boundary(text@, k);
        lemma_utf8_len_split(text@, k);
    }
    let r = text.split_at(bytes);
    proof {
        let all = encode_utf8(text@);
        let head = encode_utf8(text@.take(k));
        let tail = encode_utf8(text@.skip(k));
        assert(all.subrange(0, bytes as int) =~= head);
        assert(all.subrange(bytes as int, all.len() as int) =~= tail);
        lemma_encode_injective(r.0@, text@.take(k));
        lemma_encode_injective(r.1@, text@.skip(k));
    }
    r
}

/// What is left of a text to parse, together with the byte offset in the
/// whole text at which it begins.
#[derive(Debug, Clone, Copy)]
pub struct Input<'a> {
    text: &'a str,
    offset: usize,
}

impl<'a> View for Input<'a> {
    type V = Seq<char>;

    /// The characters that are left.
    closed spec fn view(&self) -> Seq<char> {
        self.text@
    }
}

impl<'a> Input<'a> {
    #[verifier::type_invariant]
    spec fn in_bounds(self) -> bool {
        self.offset + utf8_len(self.text@) <= usize::MAX
    }

    /// The byte offset in the whole text at which this input begins.
    pub closed spec fn position(self) -> nat {
        self.offset as nat
    }

    /// The byte offset in the whole text at which this input ends.
    pub open spec fn end_position(self) -> nat {
        self.position() + utf8_len(self@)
    }

    /// `self` is what is left of `start` once its first `k` characters are
    /// consumed.
    pub open spec fn is_tail_at(self, start: Input<'a>, k: int) -> bool {
        &&& 0 <= k <= start@.len()
        &&& self@ == start@.skip(k)
        &&& self.position() == start.position() + utf8_len(start@.take(k))
    }

    /// `self` is what is left of `start` once some prefix of it is
    /// consumed, so that the consumed prefix followed by `self` is `start`.
    pub open spec fn is_tail_of(self, start: Input<'a>) -> bool {
        self.is_tail_at(start, start@.len() - self@.len())
    }

    /// The characters of `start` that are gone in `self`.
    pub open spec fn consumed_from(self, start: Input<'a>) -> Seq<char> {
        start@.take(start@.len() - self@.len())
    }

    /// The whole of `text`, beginning at offset 0.
    pub fn new(text: &'a str) -> (input: Input<'a>)
        ensures
            input@ == text@,
            input.position() == 0,
    {
        let _ = byte_len(text);
        Input { text, offset: 0 }
    }

    /// What is left, as a string slice.
    pub fn as_str(&self) -> (r: &'a str)
        ensures
            r@ == self@,
    {
        self.text
    }

    /// The byte offset in the whole text at which this input begins.
    pub fn offset(&self) -> (r: usize)
        ensures
            r == self.position(),
            self.end_position() <= usize::MAX,
    {
        proof {
            use_type_invariant(self);
        }
        self.offset
    }

    /// The number of bytes that are left.
    pub fn len(&self) -> (r: usize)
        ensures
            r == utf8_len(self@),
            self.position() + r <= usize::MAX,
    {
        proof {
            use_type_invariant(self);
        }
        byte_len(self.text)
    }

    /// Whether nothing is left.
    pub fn is_empty(&self) -> (r: bool)
        ensures
            r == (self@.len() == 0),
    {
        self.text.is_empty()
    }

    /// The first character that is left, if there is one.
    pub fn first(&self) -> (r: Option<char>)
        ensures
            r == if self@.len() > 0 {
                Some(self@[0])
            } else {
                None::<char>
            },
    {
        first_char(self.text)
    }

    /// The empty span at the end of the input.
    pub fn end_span(&self) -> (span: Span)
        ensures
            span == Span::of(self.end_position() as int, self.end_position() as int),
            span.lo() == self.end_position(),
            span.hi() == self.end_position(),
    {
        proof {
            use_type_invariant(self);
        }
        let end = self.offset + byte_len(self.text);
        Span::new(end, end)
    }

    /// The span of the first `bytes` bytes of the input.
    pub fn span_of(&self, bytes: usize) -> (span: Span)
        requires
            bytes <= utf8_len(self@),
        ensures
            span == Span::of(self.position() as int, self.position() + bytes),
            span.lo() == self.position(),
            span.hi() == self.position() + bytes,
    {
        proof {
            use_type_invariant(self);
        }
        Span::new(self.offset, self.offset + bytes)
    }

    /// Cuts the input in two at `bytes`, the end of its prefix of `k`
    /// characters: the prefix, and the input that is left.
    pub fn advance(self, bytes: usize, Ghost(k): Ghost<int>) -> (r: (&'a str, Input<'a>))
        requires
            0 <= k <= self@.len(),
            bytes == utf8_len(self@.take(k)),
        ensures
            r.0@ == self@.take(k),
            r.1.is_tail_at(self, k),
            r.1.is_tail_of(self),
    {
        proof {
            use_type_invariant(self);
            lemma_utf8_len_split(self@, k);
        }
        let (head, tail) = split_prefix(self.text, bytes, Ghost(k));
        (head, Input { text: tail, offset: self.offset + bytes })
    }

    /// Cuts the input in two after `bytes` bytes, where that is a character
    /// boundary inside the input; returns `None` where it is not.
    pub fn split_at(self, bytes: usize) -> (r: Option<(&'a str, Input<'a>)>)
        ensures
            match r {
                Some((head, rest)) => {
                    &&& rest.is_tail_of(self)
                    &&& head@ == rest.consumed_from(self)
                    &&& utf8_len(head@) == bytes
                },
                None => forall|k: int| 0 <= k <= self@.len() ==> utf8_len(#[trigger] self@.take(k))
                    != bytes,
            },
    {
        if self.text.is_char_boundary(bytes) {
            let ghost k = lemma_boundary_is_prefix(self@, bytes as int);
            Some(self.advance(bytes, Ghost(k)))
        } else {
            proof {
                assert forall|k: int| 0 <= k <= self@.len() implies utf8_len(
                    #[trigger] self@.take(k),
                ) != bytes by {
                    lemma_prefix_is_boundary(self@, k);
                }
            }
            None
        }
    }
}

/// Being a tail is reflexive.
pub proof fn lemma_tail_reflexive<'a>(input: Input<'a>)
    ensures
        input.is_tail_at(input, 0),
        input.is_tail_of(input),
{
    assert(input@.skip(0) =~= input@);
    assert(input@.take(0) =~= Seq::<char>::empty());
}

/// A tail of a tail is a tail: consuming `j` characters and then `k` more
/// consumes `j + k`.
pub proof fn lemma_tail_transitive<'a>(start: Input<'a>, mid: Input<'a>, rest: Input<'a>)
    requires
        mid.is_tail_of(start),
        rest.is_tail_of(mid),
    ensures
        rest.is_tail_of(start),
        rest.consumed_from(start) =~= mid.consumed_from(start) + rest.consumed_from(mid),
{
    let j = start@.len() - mid@.len();
    let k = mid@.len() - rest@.len();
    assert(rest@ =~= start@.skip(j + k));
    let whole = start@.take(j + k);
    assert(whole =~= start@.take(j) + mid@.take(k));
    lemma_encode_concat(start@.take(j), mid@.take(k));
}

/// Consuming `j` characters and then `k` more consumes `j + k`.
pub proof fn lemma_tail_at_compose<'a>(
    start: Input<'a>,
    mid: Input<'a>,
    rest: Input<'a>,
    j: int,
    k: int,
)
    requires
        mid.is_tail_at(start, j),
        rest.is_tail_at(mid, k),
    ensures
        rest.is_tail_at(start, j + k),
        rest.is_tail_of(start),
{
    lemma_tail_transitive(start, mid, rest);
}

/// What a parser consumed, followed by what it left, is what it was given;
/// and the offset moved by the bytes consumed.
pub proof fn lemma_tail_round_trip<'a>(start: Input<'a>, rest: Input<'a>)
    requires
        rest.is_tail_of(start),
    ensures
        rest.consumed_from(start) + rest@ =~= start@,
        encode_utf8(rest.consumed_from(start)) + encode_utf8(rest@) =~= encode_utf8(start@),
        rest.position() - start.position() == utf8_len(rest.consumed_from(start)),
        rest.end_position() == start.end_position(),
{
    lemma_utf8_len_split(start@, start@.len() - rest@.len());
}

/// The characters of `source` from index `i` up to index `j` are those
/// that `span` covers.
pub open spec fn covers(source: Seq<char>, span: Span, i: int, j: int) -> bool {
    &&& 0 <= i <= j <= source.len()
    &&& utf8_len(source.take(i)) == span.lo()
    &&& utf8_len(source.take(j)) == span.hi()
}

/// The part of `source` that `span` covers, if the span lies in `source`
/// and begins and ends between characters.
pub open spec fn excerpt_text(source: Seq<char>, span: Span) -> Option<Seq<char>> {
    if exists|i: int, j: int| covers(source, span, i, j) {
        let (i, j) = choose|i: int, j: int| covers(source, span, i, j);
        Some(source.subrange(i, j))
    } else {
        None
    }
}

/// A span covers at most one part of a text.
pub proof fn lemma_covers_once(source: Seq<char>, span: Span, i: int, j: int, k: int, l: int)
    requires
        covers(source, span, i, j),
        covers(source, span, k, l),
    ensures
        i == k,
        j == l,
{
    if i < k {
        lemma_utf8_len_monotonic(source, i, k);
    }
    if k < i {
        lemma_utf8_len_monotonic(source, k, i);
    }
    if j < l {
        lemma_utf8_len_monotonic(source, j, l);
    }
    if l < j {
        lemma_utf8_len_monotonic(source, l, j);
    }
}

/// The part of `source` that `span` covers, if the span lies in `source`
/// and begins and ends between characters.
pub fn excerpt<'s>(source: &'s str, span: Span) -> (r: Option<&'s str>)
    ensures
        match r {
            Some(text) => excerpt_text(source@, span) == Some(text@),
            None => excerpt_text(source@, span) is None,
        },
{
    let whole = Input::new(source);
    let (head, _) = match whole.split_at(span.end()) {
        Some(pair) => pair,
        None => {
            return None;
        },
    };
    let (_, tail) = match Input::new(head).split_at(span.start()) {
        Some(pair) => pair,
        None => {
            proof {
                assert forall|i: int, l: int| !covers(source@, span, i, l) by {
                    if covers(source@, span, i, l) {
                        lemma_covers_end(source@, span, i, l, head@);
                        assert(head@.take(i) =~= source@.take(i));
                    }
                }
            }
            return None;
        },
    };
    proof {
        let i = head@.len() - tail@.len();
        assert(head@.take(i) =~= source@.take(i));
        assert(source@.take(head@.len() as int) =~= head@);
        assert(covers(source@, span, i, head@.len() as int));
        let (k, l) = choose|k: int, l: int| covers(source@, span, k, l);
        lemma_covers_once(source@, span, i, head@.len() as int, k, l);
        assert(tail@ =~= source@.subrange(i, head@.len() as int));
    }
    Some(tail.as_str())
}

/// Where a span covers a part of a text that ends with the prefix `head`,
/// the part ends where `head` ends.
proof fn lemma_covers_end(source: Seq<char>, span: Span, i: int, l: int, head: Seq<char>)
    requires
        covers(source, span, i, l),
        head.is_prefix_of(source),
        utf8_len(head) == span.hi(),
    ensures
        l == head.len(),
        i <= head.len(),
{
    let h = head.len() as int;
    assert(source.take(h) =~= head);
    if l < h {
        lemma_utf8_len_monotonic(source, l, h);
    }
    if h < l {
        lemma_utf8_len_monotonic(source, h, l);
    }
}

/// Whether two texts are the same, byte for byte.
pub fn same_text(a: &str, b: &str) -> (r: bool)
    ensures
        r == (a@ == b@),
{
    broadcast use vstd::slice::group_slice_axioms;

    let x = a.as_bytes();
    let y = b.as_bytes();
    if x.len() != y.len() {
        return false;
    }
    let mut index: usize = 0;
    while index < x.len()
        invariant
            x@ == encode_utf8(a@),
            y@ == encode_utf8(b@),
            x@.len() == y@.len(),
            index <= x@.len(),
            forall|i: int| 0 <= i < index ==> x@[i] == y@[i],
        decreases x.len() - index,
    {
        if x[index] != y[index] {
            return false;
        }
        index += 1;
    }
    proof {
        assert(x@ =~= y@);
        lemma_encode_injective(a@, b@);
    }
    true
}

} // verus!
