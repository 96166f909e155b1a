use komb::context::{Cause, Context};
use komb::input::{excerpt, same_text};
use komb::render::decimal;
use komb::span::Span;
use komb::string::{Error as Mismatch, IntErrorKind};
use komb::{Error, Input};
use std::ops::Range;

#[test]
fn span_bounds() {
    let span = Span::new(3, 10);
    assert_eq!((3, 10, 7, false), (span.start(), span.end(), span.len(), span.is_empty()));
    assert_eq!(3..10, span.to_range());
    assert_eq!(3..10, Range::from(span));
    let empty = Span::new(4, 4);
    assert_eq!((0, true), (empty.len(), empty.is_empty()));
}

#[test]
fn span_try_new() {
    assert_eq!(Some(Span::new(1, 2)), Span::try_new(1, 2));
    assert_eq!(Some(Span::new(2, 2)), Span::try_new(2, 2));
    assert_eq!(None, Span::try_new(3, 2));
    assert_eq!(Some(Span::new(1, 2)), Span::from_range(1..2));
    assert_eq!(None, Span::from_range(3..2));
}

#[test]
fn span_contains() {
    let outer = Span::new(2, 8);
    assert!(outer.contains(Span::new(2, 8)));
    assert!(outer.contains(Span::new(3, 5)));
    assert!(outer.contains(Span::new(8, 8)));
    assert!(!outer.contains(Span::new(1, 5)));
    assert!(!outer.contains(Span::new(5, 9)));
    assert!(!Span::new(3, 5).contains(outer));
}

#[test]
fn span_locate() {
    assert_eq!(Some(Span::new(3, 10)), Span::locate(1003, 7, 1000, 17));
    assert_eq!(Some(Span::new(0, 17)), Span::locate(1000, 17, 1000, 17));
    assert_eq!(Some(Span::new(17, 17)), Span::locate(1017, 0, 1000, 17));
    assert_eq!(None, Span::locate(1011, 7, 1000, 17));
    assert_eq!(None, Span::locate(999, 7, 1000, 17));
    assert_eq!(None, Span::locate(2000, 7, 1000, 17));
    assert_eq!(None, Span::locate(1003, usize::MAX, 1000, 17));
}

#[test]
fn span_of_a_slice_of_the_buffer() {
    let s = String::from("żółw i jeż");
    let sub = &s[9..];
    assert_eq!(Some(Span::new(9, s.len())), Span::from_substring(sub, &s));
    assert_eq!(Some(Span::new(0, 0)), Span::from_substring(&s[..0], &s));
    let copy = String::from(sub);
    assert_eq!(None, Span::from_substring(&copy, &s));
}

#[test]
fn input_positions() {
    let input = Input::new("née");
    assert_eq!((0, 4, false, Some('n'), "née"), (
        input.offset(),
        input.len(),
        input.is_empty(),
        input.first(),
        input.as_str()
    ));
    assert_eq!(Span::new(4, 4), input.end_span());
    let (head, rest) = input.split_at(3).unwrap();
    assert_eq!(("né", "e", 3, 1), (head, rest.as_str(), rest.offset(), rest.len()));
    assert_eq!(Span::new(4, 4), rest.end_span());
    assert!(input.split_at(2).is_none());
    assert!(input.split_at(5).is_none());
    let (head, rest) = input.split_at(4).unwrap();
    assert_eq!(("née", "", true, None), (head, rest.as_str(), rest.is_empty(), rest.first()));
    let (head, rest) = rest.split_at(0).unwrap();
    assert_eq!(("", "", 4), (head, rest.as_str(), rest.offset()));
}

#[test]
fn context_parts() {
    let c = Context::from_message("while parsing a list");
    assert_eq!((false, None, Some("while parsing a list")), (c.has_span(), c.span(), c.message()));
    assert!(c.downcast_ref().is_none());
    let c = c.with_span(Span::new(2, 3));
    assert_eq!((true, Some(Span::new(2, 3))), (c.has_span(), c.span()));

    let c = Context::from_error(Mismatch::Unmatched { span: Span::new(5, 6) });
    assert_eq!(Some(Span::new(5, 6)), c.span());
    assert_eq!(Some(&Mismatch::Unmatched { span: Span::new(5, 6) }), c.downcast_ref());
    assert_eq!(None, c.message());
    let c = Context::from_error(Mismatch::NotEnd);
    assert_eq!(None, c.span());

    let c = Context::new(7, 2, Cause::Message(String::from("here")));
    assert_eq!((Some(Span::new(7, 9)), Some("here")), (c.span(), c.message()));
    let d = c.duplicate();
    assert_eq!((c.span(), c.message()), (d.span(), d.message()));
}

#[test]
fn error_stack() {
    let e = Error::new(vec![
        Context::from_message("first"),
        Context::from_error(Mismatch::NotEnd),
        Context::from_error(Mismatch::Unmatched { span: Span::new(0, 1) }),
    ]);
    assert_eq!(3, e.len());
    assert_eq!(Some("first"), e.source().message());
    assert_eq!(Some(&Mismatch::NotEnd), e.downcast_ref());
    let e = e.with_context(|| Context::from_message("last"));
    assert_eq!(4, e.len());
    assert_eq!(Some("last"), e.get(3).unwrap().message());
    assert_eq!(Some("first"), e.source().message());

    let only_words = Error::from(Context::from_message("words"));
    assert_eq!(None, only_words.downcast_ref());
    let e = Error::end(Input::new("abc"));
    assert_eq!(Some(&Mismatch::End { span: Span::new(3, 3) }), e.downcast_ref());
    assert_eq!(Some(Span::new(3, 3)), e.source().span());
}

#[test]
fn decimal_digits() {
    assert_eq!("0", decimal(0));
    assert_eq!("7", decimal(7));
    assert_eq!("10", decimal(10));
    assert_eq!("1203", decimal(1203));
    assert_eq!(usize::MAX.to_string(), decimal(usize::MAX));
}

#[test]
fn rendered_text() {
    assert_eq!("3..10", Span::new(3, 10).render());
    assert_eq!("Unexpected end of input", Mismatch::End { span: Span::new(0, 0) }.describe());
    assert_eq!("Input not empty", Mismatch::NotEnd.describe());
    assert_eq!(
        "Parser failed to match at 5..6",
        Context::from_error(Mismatch::Unmatched { span: Span::new(5, 6) }).render()
    );
    assert_eq!("in a list", Context::from_message("in a list").render());
    let e = Error::from(Mismatch::ParseInt {
        error: IntErrorKind::PosOverflow,
        span: Span::new(12, 15),
    })
    .push(Context::from_message("in a number"))
    .push(Context::from_message("in a list").with_span(Span::new(10, 20)));
    assert_eq!(
        "2: in a list at 10..20\n\
         1: in a number\n\
         0: Failed to parse integer: number too large to fit in target type at 12..15\n",
        e.render()
    );
    assert_eq!(
        "0: Failed to parse integer: number too small to fit in target type at 0..4\n",
        komb::number::i8(Input::new("-129")).unwrap_err().render()
    );
    assert_eq!(
        "0: Failed to parse float at 1..2\n",
        Error::from(Mismatch::ParseFloat { span: Span::new(1, 2) }).render()
    );
}

#[test]
fn excerpts() {
    let source = "żółw i jeż";
    assert_eq!(Some("żółw"), excerpt(source, Span::new(0, 7)));
    assert_eq!(Some("jeż"), excerpt(source, Span::new(10, 14)));
    assert_eq!(Some(""), excerpt(source, Span::new(14, 14)));
    assert_eq!(Some(source), excerpt(source, Span::new(0, 14)));
    assert_eq!(None, excerpt(source, Span::new(0, 1)));
    assert_eq!(None, excerpt(source, Span::new(1, 7)));
    assert_eq!(None, excerpt(source, Span::new(10, 15)));
    assert_eq!(None, excerpt(source, Span::new(15, 16)));
}

#[test]
fn explained_in_the_source() {
    let source = "(not closed)";
    let p = komb::combinator::delimited(
        komb::string::literal("("),
        komb::str::take_while0(|c: char| c.is_alphabetic()),
        komb::string::literal(")"),
    );
    let e = komb::Parse::parse(&p, Input::new(source)).unwrap_err();
    let e = e.push(Context::from_message("in brackets").with_span(Span::new(0, 4)));
    let e = e.push(Context::from_message("in a list"));
    let e = e.push(Context::from_message("nowhere").with_span(Span::new(20, 30)));
    assert_eq!(
        "3: nowhere at 20..30\n\
         2: in a list\n\
         1: in brackets at 0..4 '(not'\n\
         0: Parser failed to match at 4..5 ' '\n",
        e.explain(source)
    );
    assert_eq!(
        "Unexpected end of input at 3..3 ''",
        Context::from_error(Mismatch::End { span: Span::new(3, 3) }).explain("abc")
    );
}

#[test]
fn errors_compare_by_their_contexts() {
    let a = Error::from(Mismatch::NotEnd).push(Context::from_message("x"));
    let b = Error::from(Mismatch::NotEnd).push(Context::from_message("x"));
    assert_eq!(a, b);
    assert_ne!(a, Error::from(Mismatch::NotEnd));
    assert_ne!(a, Error::from(Mismatch::NotEnd).push(Context::from_message("y")));
    assert_ne!(
        a,
        Error::from(Mismatch::NotEnd).push(Context::from_message("x").with_span(Span::new(0, 0)))
    );
    assert_ne!(
        Context::from_error(Mismatch::End { span: Span::new(1, 1) }),
        Context::from_error(Mismatch::Unmatched { span: Span::new(1, 1) })
    );
    assert_eq!(
        Err(Error::from(Mismatch::End { span: Span::new(1, 1) })),
        komb::Parse::parse(&komb::string::literal("ab"), Input::new("a")).map(|(out, _)| out)
    );
}

#[test]
fn texts_compare_by_their_bytes() {
    assert!(same_text("", ""));
    assert!(same_text("jeż", "jeż"));
    assert!(!same_text("jeż", "jez"));
    assert!(!same_text("je", "jez"));
    assert!(!same_text("a", ""));
}

#[test]
fn span_find() {
    let s = "an example string";
    assert_eq!(Some(Span::new(3, 10)), Span::find("example", 1003, s, 1000));
    assert_eq!(None, Span::find("example", 1004, s, 1000));
    assert_eq!(None, Span::find("example", 1013, s, 1000));
    assert_eq!(None, Span::find("example", 3, s, 1000));
    assert_eq!(Some(Span::new(17, 17)), Span::find("", 1017, s, 1000));
    assert_eq!(None, Span::find("ż", 1001, "żż", 1000));
    assert_eq!(Some(Span::new(2, 4)), Span::find("ż", 1002, "żż", 1000));
}
