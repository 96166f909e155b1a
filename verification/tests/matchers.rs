use komb::predicate::{Any, Digit, Not, OneOf, Whitespace};
use komb::span::Span;
use komb::str::{alphabetic0, alphanumeric0, take_until0, take_while0, whitespace0};
use komb::string;
use komb::string::{
    alphabetic, alphanumeric, any_char, anycase, char, consume, digits, eof, line_end, literal,
    none_of_char, one_of_char, or0, take, take_until, take_while, take_while_min, whitespace,
    Eof, Error, IntErrorKind, Line, LineEnd,
};
use komb::{Input, Parse};

fn cause(error: &komb::Error) -> Error {
    *error.source().downcast_ref().unwrap()
}

#[test]
fn literal_matches_prefix() {
    let (out, rest) = literal("ab").parse(Input::new("abc")).unwrap();
    assert_eq!(("ab", "c", 2), (out, rest.as_str(), rest.offset()));
    let (out, rest) = Parse::parse(&"ab", Input::new("ab")).unwrap();
    assert_eq!(("ab", "", 2), (out, rest.as_str(), rest.offset()));
    let (out, rest) = literal("").parse(Input::new("ab")).unwrap();
    assert_eq!(("", "ab", 0), (out, rest.as_str(), rest.offset()));
}

#[test]
fn literal_consumes_its_bytes() {
    let (out, rest) = literal("né").parse(Input::new("née")).unwrap();
    assert_eq!(("né", "e", 3), (out, rest.as_str(), rest.offset()));
}

#[test]
fn literal_unmatched() {
    let e = literal("ab").parse(Input::new("xbc")).unwrap_err();
    assert_eq!(1, e.len());
    assert_eq!(Error::Unmatched { span: Span::new(0, 2) }, cause(&e));
    assert_eq!(Some(Span::new(0, 2)), e.source().span());
}

#[test]
fn literal_end_of_input() {
    let e = literal("ab").parse(Input::new("a")).unwrap_err();
    assert_eq!(Error::End { span: Span::new(1, 1) }, cause(&e));
    let e = literal("ab").parse(Input::new("")).unwrap_err();
    assert_eq!(Error::End { span: Span::new(0, 0) }, cause(&e));
}

#[test]
fn anycase_folds_ascii_only() {
    let p = anycase("select");
    let (out, rest) = p.parse(Input::new("select from table")).unwrap();
    assert_eq!(("select", " from table"), (out, rest.as_str()));
    let (out, rest) = p.parse(Input::new("SELECT FROM table")).unwrap();
    assert_eq!(("SELECT", " FROM table"), (out, rest.as_str()));

    let p = anycase("löve2d");
    assert!(p.parse(Input::new("LÖVE2D")).is_err());
    let (out, rest) = p.parse(Input::new("LöVE2D!")).unwrap();
    assert_eq!(("LöVE2D", "!"), (out, rest.as_str()));
}

#[test]
fn anycase_failures() {
    let e = anycase("select").parse(Input::new("sel")).unwrap_err();
    assert_eq!(Error::End { span: Span::new(3, 3) }, cause(&e));
    let e = anycase("select").parse(Input::new("seLfish")).unwrap_err();
    assert_eq!(Error::Unmatched { span: Span::new(0, 4) }, cause(&e));
    let e = anycase("löve").parse(Input::new("lÖve")).unwrap_err();
    assert_eq!(Error::Unmatched { span: Span::new(0, 3) }, cause(&e));
}

#[test]
fn char_by_predicate() {
    let p = char(|ch| ch == '1' || ch == 'a');
    let (out, rest) = p.parse(Input::new("1rest")).unwrap();
    assert_eq!(('1', "rest"), (out, rest.as_str()));
    let (out, rest) = p.parse(Input::new("a1")).unwrap();
    assert_eq!(('a', "1"), (out, rest.as_str()));
    let e = p.parse(Input::new("x")).unwrap_err();
    assert_eq!(Error::Unmatched { span: Span::new(0, 1) }, cause(&e));
    let e = p.parse(Input::new("")).unwrap_err();
    assert_eq!(Error::End { span: Span::new(0, 0) }, cause(&e));
}

#[test]
fn char_consumes_its_width() {
    let (out, rest) = any_char(Input::new("€uro")).unwrap();
    assert_eq!(('€', "uro", 3), (out, rest.as_str(), rest.offset()));
    let (out, rest) = any_char(Input::new("𝄞x")).unwrap();
    assert_eq!(('𝄞', "x", 4), (out, rest.as_str(), rest.offset()));
    let e = char(|c| c == 'e').parse(Input::new("é")).unwrap_err();
    assert_eq!(Error::Unmatched { span: Span::new(0, 2) }, cause(&e));
    assert!(any_char(Input::new("")).is_err());
}

#[test]
fn char_of_a_set() {
    let (out, rest) = one_of_char(&['x', 'y']).parse(Input::new("yx")).unwrap();
    assert_eq!(('y', "x"), (out, rest.as_str()));
    assert!(one_of_char(&['x', 'y']).parse(Input::new("z")).is_err());
    let (out, rest) = none_of_char(&['x', 'y']).parse(Input::new("zx")).unwrap();
    assert_eq!(('z', "x"), (out, rest.as_str()));
    assert!(none_of_char(&['x', 'y']).parse(Input::new("x")).is_err());
    let (out, rest) = 'q'.parse(Input::new("qr")).unwrap();
    assert_eq!(('q', "r"), (out, rest.as_str()));
}

#[test]
fn take_counts_characters() {
    let (out, rest) = take(2).parse(Input::new("héllo")).unwrap();
    assert_eq!(("hé", "llo", 3), (out, rest.as_str(), rest.offset()));
    let (out, rest) = take(0).parse(Input::new("abc")).unwrap();
    assert_eq!(("", "abc"), (out, rest.as_str()));
    let (out, rest) = take(3).parse(Input::new("abc")).unwrap();
    assert_eq!(("abc", ""), (out, rest.as_str()));
    let e = take(4).parse(Input::new("abc")).unwrap_err();
    assert_eq!(Error::End { span: Span::new(3, 3) }, cause(&e));
}

#[test]
fn take_while_takes_the_longest_run() {
    let p = take_while(|ch| ch == '0' || ch == '1');
    let (out, rest) = p.parse(Input::new("01010rest")).unwrap();
    assert_eq!(("01010", "rest"), (out, rest.as_str()));
    let (out, rest) = p.parse(Input::new("0101")).unwrap();
    assert_eq!(("0101", ""), (out, rest.as_str()));
    let e = p.parse(Input::new("other")).unwrap_err();
    assert_eq!(Error::Unmatched { span: Span::new(0, 1) }, cause(&e));
    let e = p.parse(Input::new("")).unwrap_err();
    assert_eq!(Error::End { span: Span::new(0, 0) }, cause(&e));
}

#[test]
fn take_while_min_wants_its_minimum() {
    let p = take_while_min(Digit(10), 3);
    let (out, rest) = p.parse(Input::new("1234x")).unwrap();
    assert_eq!(("1234", "x"), (out, rest.as_str()));
    let e = p.parse(Input::new("12x")).unwrap_err();
    assert_eq!(Error::Unmatched { span: Span::new(2, 3) }, cause(&e));
    let e = p.parse(Input::new("12")).unwrap_err();
    assert_eq!(Error::End { span: Span::new(2, 2) }, cause(&e));
    let zero = take_while_min(Not('a'), 0);
    let (out, rest) = zero.parse(Input::new("abc")).unwrap();
    assert_eq!(("", "abc"), (out, rest.as_str()));
}

#[test]
fn take_until_stops_before_the_character() {
    let (out, rest) = take_until(|c| c == ';').parse(Input::new("ab;cd")).unwrap();
    assert_eq!(("ab", ";cd"), (out, rest.as_str()));
    assert!(take_until(|c| c == ';').parse(Input::new(";cd")).is_err());
    let (out, rest) = take_until0(|c| c == ';').parse(Input::new(";cd")).unwrap();
    assert_eq!(("", ";cd"), (out, rest.as_str()));
}

#[test]
fn zero_or_more_never_fails() {
    let (out, rest) = take_while0(|c: char| c.is_ascii_digit()).parse(Input::new("x1")).unwrap();
    assert_eq!(("", "x1"), (out, rest.as_str()));
    let (out, rest) = take_while0(|c: char| c.is_ascii_digit()).parse(Input::new("")).unwrap();
    assert_eq!(("", ""), (out, rest.as_str()));
    let (out, rest) = whitespace0().parse(Input::new("\u{2003} \tx")).unwrap();
    assert_eq!(("\u{2003} \t", "x"), (out, rest.as_str()));
    let (out, rest) = alphabetic0().parse(Input::new("añ1")).unwrap();
    assert_eq!(("añ", "1"), (out, rest.as_str()));
    let (out, rest) = alphanumeric0().parse(Input::new("añ1_")).unwrap();
    assert_eq!(("añ1", "_"), (out, rest.as_str()));
}

#[test]
fn classes_of_unicode() {
    let (out, rest) = whitespace(Input::new(" \t\nx")).unwrap();
    assert_eq!((" \t\n", "x"), (out, rest.as_str()));
    assert!(whitespace(Input::new("x ")).is_err());
    let (out, rest) = alphabetic(Input::new("abcXYZ rest")).unwrap();
    assert_eq!(("abcXYZ", " rest"), (out, rest.as_str()));
    assert!(alphabetic(Input::new("_ident")).is_err());
    assert!(alphabetic(Input::new("1a")).is_err());
    let (out, rest) = alphanumeric(Input::new("a1٣-")).unwrap();
    assert_eq!(("a1٣", "-"), (out, rest.as_str()));
    assert!(alphanumeric(Input::new("-")).is_err());
}

#[test]
fn digits_of_a_radix() {
    let (out, rest) = digits::<16>(Input::new("deadbeefrest")).unwrap();
    assert_eq!(("deadbeef", "rest"), (out, rest.as_str()));
    assert!(digits::<16>(Input::new("")).is_err());
    let (out, rest) = digits::<2>(Input::new("0102")).unwrap();
    assert_eq!(("010", "2"), (out, rest.as_str()));
    let (out, rest) = digits::<36>(Input::new("Zz9!")).unwrap();
    assert_eq!(("Zz9", "!"), (out, rest.as_str()));
    assert!(digits::<10>(Input::new("a")).is_err());
}

#[test]
fn end_of_input() {
    let (_, rest) = eof(Input::new("")).unwrap();
    assert_eq!("", rest.as_str());
    let e = eof(Input::new("more")).unwrap_err();
    assert_eq!(Error::NotEnd, cause(&e));
    assert_eq!(None, e.source().span());
}

#[test]
fn line_endings() {
    let (out, rest) = line_end(Input::new("\nworld")).unwrap();
    assert_eq!(("\n", "world"), (out, rest.as_str()));
    let (out, rest) = line_end(Input::new("\r\nworld")).unwrap();
    assert_eq!(("\r\n", "world"), (out, rest.as_str()));
    let e = line_end(Input::new("world")).unwrap_err();
    assert_eq!(Error::Unmatched { span: Span::new(0, 2) }, cause(&e));
    let e = line_end(Input::new("\r")).unwrap_err();
    assert_eq!(Error::End { span: Span::new(1, 1) }, cause(&e));
}

#[test]
fn lines() {
    let (out, rest) = string::line(Input::new("Hello\nworld")).unwrap();
    assert_eq!(("Hello", "world"), (out, rest.as_str()));
    let (out, rest) = string::line(Input::new("Hello\r\nworld")).unwrap();
    assert_eq!(("Hello\r", "world"), (out, rest.as_str()));
    let (out, rest) = string::line(Input::new("\nnext line")).unwrap();
    assert_eq!(("", "next line"), (out, rest.as_str()));
    assert!(string::line(Input::new("")).is_err());
    let e = string::line(Input::new("Hello there")).unwrap_err();
    assert_eq!(Error::End { span: Span::new(11, 11) }, cause(&e));
}

#[test]
fn consume_returns_what_was_consumed() {
    let p = consume((literal("a"), any_char, take(2)));
    let p = komb::combinator::tuple(p.0);
    let p = consume(p);
    let (out, rest) = p.parse(Input::new("aébcd")).unwrap();
    assert_eq!(("aébc", "d"), (out, rest.as_str()));
    assert!(p.parse(Input::new("x")).is_err());
}

#[test]
fn or0_returns_the_empty_prefix() {
    let p = or0(take_while(|c| c == 'a'));
    let (out, rest) = p.parse(Input::new("aab")).unwrap();
    assert_eq!(("aa", "b"), (out, rest.as_str()));
    let (out, rest) = p.parse(Input::new("b")).unwrap();
    assert_eq!(("", "b", 0), (out, rest.as_str(), rest.offset()));
}

#[test]
fn error_kinds_are_told_apart() {
    assert_ne!(
        Error::ParseInt { error: IntErrorKind::PosOverflow, span: Span::new(0, 1) },
        Error::ParseInt { error: IntErrorKind::NegOverflow, span: Span::new(0, 1) }
    );
    assert_eq!(Some(Span::new(2, 5)), Error::ParseFloat { span: Span::new(2, 5) }.span());
    assert_eq!(Some(Span::new(2, 5)), Error::unmatched(Span::new(2, 5)).span());
    assert_eq!(None, Error::NotEnd.span());
}

#[test]
fn literal_mismatch_ends_between_characters() {
    let e = literal("ab").parse(Input::new("aé")).unwrap_err();
    assert_eq!(Error::Unmatched { span: Span::new(0, 3) }, cause(&e));
    assert_eq!("0: Parser failed to match at 0..3 'aé'\n", e.explain("aé"));
    let e = literal("ab").parse(Input::new("éé")).unwrap_err();
    assert_eq!(Error::Unmatched { span: Span::new(0, 2) }, cause(&e));
    let e = literal("abc").parse(Input::new("aéx")).unwrap_err();
    assert_eq!(Error::Unmatched { span: Span::new(0, 3) }, cause(&e));
    let e = literal("abcd").parse(Input::new("a𝄞")).unwrap_err();
    assert_eq!(Error::Unmatched { span: Span::new(0, 5) }, cause(&e));
    let e = literal("é").parse(Input::new("e€")).unwrap_err();
    assert_eq!(Error::Unmatched { span: Span::new(0, 4) }, cause(&e));
    let e = literal("ab").parse(Input::new("xbc")).unwrap_err();
    assert_eq!(Error::Unmatched { span: Span::new(0, 2) }, cause(&e));
    let (_, rest) = take(1).parse(Input::new("żaéz")).unwrap();
    let e = literal("bé").parse(rest).unwrap_err();
    assert_eq!(Error::Unmatched { span: Span::new(2, 5) }, cause(&e));
}

#[test]
fn predicates_of_any_kind() {
    let (out, rest) = take_while(Digit(10)).parse(Input::new("12a")).unwrap();
    assert_eq!(("12", "a"), (out, rest.as_str()));
    let (out, rest) = take_until(Whitespace).parse(Input::new("ab cd")).unwrap();
    assert_eq!(("ab", " cd"), (out, rest.as_str()));
    let (out, rest) = char(Any).parse(Input::new("é!")).unwrap();
    assert_eq!(('é', "!"), (out, rest.as_str()));
    let (out, rest) = char(Digit(16)).parse(Input::new("f0")).unwrap();
    assert_eq!(('f', "0"), (out, rest.as_str()));
    let (out, rest) = take_while0(OneOf(&['a', 'b'])).parse(Input::new("abc")).unwrap();
    assert_eq!(("ab", "c"), (out, rest.as_str()));
    let (out, rest) = take_until0('c').parse(Input::new("abc")).unwrap();
    assert_eq!(("ab", "c"), (out, rest.as_str()));
    let (out, rest) = take_while('a').parse(Input::new("aab")).unwrap();
    assert_eq!(("aa", "b"), (out, rest.as_str()));
}

#[test]
fn parsers_as_values() {
    assert!(Eof.parse(Input::new("")).is_ok());
    assert_eq!(Error::NotEnd, cause(&Eof.parse(Input::new("x")).unwrap_err()));
    let (out, rest) = LineEnd.parse(Input::new("\r\nx")).unwrap();
    assert_eq!(("\r\n", "x"), (out, rest.as_str()));
    assert!(LineEnd.parse(Input::new("x")).is_err());
    let (out, rest) = Line.parse(Input::new("one\ntwo")).unwrap();
    assert_eq!(("one", "two"), (out, rest.as_str()));
    assert!(Line.parse(Input::new("one")).is_err());
    let (out, rest) = literal("a").before(Eof).parse(Input::new("a")).unwrap();
    assert_eq!(("a", ""), (out, rest.as_str()));
}

#[test]
fn whitespace_is_the_property_of_unicode() {
    for v in 0u32..0x110000 {
        if let Some(c) = std::char::from_u32(v) {
            let text = c.to_string();
            assert_eq!(c.is_whitespace(), whitespace(Input::new(&text)).is_ok(), "U+{:04X}", v);
        }
    }
    let all = "\t\n\u{B}\u{C}\r \u{85}\u{A0}\u{1680}\u{2000}\u{2001}\u{2002}\u{2003}\u{2004}\
               \u{2005}\u{2006}\u{2007}\u{2008}\u{2009}\u{200A}\u{2028}\u{2029}\u{202F}\u{205F}\
               \u{3000}";
    assert_eq!(25, all.chars().count());
    let (out, rest) = whitespace0().parse(Input::new(all)).unwrap();
    assert_eq!((all, ""), (out, rest.as_str()));
    for c in ['\u{8}', '\u{E}', '\u{1F}', '\u{180E}', '\u{200B}', '\u{FEFF}', '\u{8D8A}', 'x'] {
        let text = c.to_string();
        assert!(whitespace(Input::new(&text)).is_err());
    }
}
