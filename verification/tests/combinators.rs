use komb::combinator::{choice, delimited, fold, not, optional, refute, tuple, value, Choice};
use komb::context::Context;
use komb::span::Span;
use komb::str::take_while0;
use komb::string::{any_char, digits, eof, literal, take, take_while, Error};
use komb::{Input, PResult, Parse, Parser};

fn cause(error: &komb::Error) -> Error {
    *error.source().downcast_ref().unwrap()
}

fn never(input: Input) -> PResult<Input, char> {
    Err(komb::Error::end(input))
}

#[test]
fn optional_of_a_failure_is_none() {
    let p = optional("lit");
    let (out, rest) = p.parse(Input::new("lit rest")).unwrap();
    assert_eq!((Some("lit"), " rest"), (out, rest.as_str()));
    let (out, rest) = p.parse(Input::new("lat rest")).unwrap();
    assert_eq!((None, "lat rest", 0), (out, rest.as_str(), rest.offset()));
    let (out, rest) = optional(never).parse(Input::new("anything")).unwrap();
    assert_eq!((None, "anything"), (out, rest.as_str()));
}

#[test]
fn choice_with_a_failing_first_is_the_second() {
    for text in ["", "a", "xyz", "éa"] {
        let alone = optional(any_char).parse(Input::new(text)).unwrap();
        let chosen = choice((Parser::from(never).map_out(Some), optional(any_char)))
            .parse(Input::new(text))
            .unwrap();
        assert_eq!((alone.0, alone.1.as_str()), (chosen.0, chosen.1.as_str()));
    }
}

#[test]
fn choice_returns_the_first_success() {
    let p = choice(("a", "ab", "b"));
    let (out, rest) = p.parse(Input::new("ab rest")).unwrap();
    assert_eq!(("a", "b rest"), (out, rest.as_str()));
    let (out, rest) = p.parse(Input::new("b rest")).unwrap();
    assert_eq!(("b", " rest"), (out, rest.as_str()));
}

#[test]
fn choice_returns_the_last_error() {
    let p = choice(("abc", "a"));
    let e = p.parse(Input::new("b")).unwrap_err();
    assert_eq!(Error::Unmatched { span: Span::new(0, 1) }, cause(&e));
    let p = choice(("a", "abc"));
    let e = p.parse(Input::new("b")).unwrap_err();
    assert_eq!(Error::End { span: Span::new(1, 1) }, cause(&e));
    let p = choice(("a", "b", "c", "dd"));
    let (out, _) = p.parse(Input::new("c")).unwrap();
    assert_eq!("c", out);
    let (out, _) = p.parse(Input::new("dd")).unwrap();
    assert_eq!("dd", out);
    let e = p.parse(Input::new("e")).unwrap_err();
    assert_eq!(Error::End { span: Span::new(1, 1) }, cause(&e));
}

#[test]
fn choice_of_a_list() {
    let p = Choice(vec![literal("one"), literal("two"), literal("three")]);
    let (out, rest) = p.parse(Input::new("three!")).unwrap();
    assert_eq!(("three", "!"), (out, rest.as_str()));
    let (out, rest) = p.parse(Input::new("two!")).unwrap();
    assert_eq!(("two", "!"), (out, rest.as_str()));
    let e = p.parse(Input::new("four")).unwrap_err();
    assert_eq!(Error::End { span: Span::new(4, 4) }, cause(&e));
    let single = Choice(vec![literal("one")]);
    assert!(single.parse(Input::new("two")).is_err());
}

#[test]
fn fold_of_a_failure_is_the_seed() {
    let p = fold(never, vec!['s'], |mut v: Vec<char>, c| {
        v.push(c);
        v
    });
    let (out, rest) = p.parse(Input::new("abc")).unwrap();
    assert_eq!((vec!['s'], "abc", 0), (out, rest.as_str(), rest.offset()));
}

#[test]
fn fold_gathers_until_the_first_failure() {
    let p = fold(
        Parser::from(any_char).before(","),
        Vec::new(),
        |mut v: Vec<char>, element| {
            v.push(element);
            v
        },
    );
    let (out, rest) = p.parse(Input::new("a,b,c,d,")).unwrap();
    assert_eq!((vec!['a', 'b', 'c', 'd'], ""), (out, rest.as_str()));
    let (out, rest) = p.parse(Input::new("a,b,cd,")).unwrap();
    assert_eq!((vec!['a', 'b'], "cd,", 4), (out, rest.as_str(), rest.offset()));
    let (out, rest) = p.parse(Input::new("a,b,c,d,")).unwrap();
    assert_eq!((vec!['a', 'b', 'c', 'd'], ""), (out, rest.as_str()));
}

#[test]
fn delimited_brackets() {
    let p = delimited(literal("("), take_while0(|c: char| c.is_alphabetic()), literal(")"));
    let (out, rest) = p.parse(Input::new("(word)")).unwrap();
    assert_eq!(("word", ""), (out, rest.as_str()));
    let (out, rest) = p.parse(Input::new("() rest")).unwrap();
    assert_eq!(("", " rest"), (out, rest.as_str()));
    let e = p.parse(Input::new("(notclosed")).unwrap_err();
    assert_eq!(Error::End { span: Span::new(10, 10) }, cause(&e));
    let e = p.parse(Input::new("(not closed)")).unwrap_err();
    assert_eq!(Error::Unmatched { span: Span::new(4, 5) }, cause(&e));
    let e = p.parse(Input::new("word)")).unwrap_err();
    assert_eq!(Error::Unmatched { span: Span::new(0, 1) }, cause(&e));
}

#[test]
fn sequence_threads_the_input() {
    let p = tuple((take(1), take(2)));
    let (out, rest) = p.parse(Input::new("éàüx")).unwrap();
    assert_eq!((("é", "àü"), "x", 6), (out, rest.as_str(), rest.offset()));
    let e = p.parse(Input::new("éà")).unwrap_err();
    assert_eq!(Error::End { span: Span::new(4, 4) }, cause(&e));
    let e = tuple(("a", "b", "c")).parse(Input::new("abx")).unwrap_err();
    assert_eq!(Error::Unmatched { span: Span::new(2, 3) }, cause(&e));
    let e = tuple(("a", "b", "c")).parse(Input::new("xbc")).unwrap_err();
    assert_eq!(Error::Unmatched { span: Span::new(0, 1) }, cause(&e));
}

#[test]
fn not_swaps_the_result() {
    let p = not("str");
    let e = p.parse(Input::new("string")).unwrap_err();
    assert_eq!(Error::Unmatched { span: Span::new(0, 3) }, cause(&e));
    let (out, rest) = p.parse(Input::new("other")).unwrap();
    assert_eq!("other", rest.as_str());
    assert_eq!(Error::Unmatched { span: Span::new(0, 3) }, cause(&out));
}

#[test]
fn value_replaces_the_output() {
    let p = value(7u8, "seven");
    let (out, rest) = p.parse(Input::new("seven!")).unwrap();
    assert_eq!((7, "!"), (out, rest.as_str()));
    assert!(p.parse(Input::new("eight")).is_err());
    let p = Parser::from("null").value(None::<bool>);
    assert_eq!(None, p.parse(Input::new("null")).unwrap().0);
}

#[test]
fn map_may_turn_the_result_round() {
    let p = Parser::from(take(4)).map(|r| match r {
        Ok(s) => u32::from_str_radix(s, 16).map_err(|_| komb::Error::from(Error::NotEnd)),
        Err(_) => Ok(0),
    });
    let (out, rest) = p.parse(Input::new("00ffx")).unwrap();
    assert_eq!((255, "x"), (out, rest.as_str()));
    let (out, rest) = p.parse(Input::new("00f")).unwrap();
    assert_eq!((0, "00f"), (out, rest.as_str()));
    let e = p.parse(Input::new("00fgx")).unwrap_err();
    assert_eq!(Error::NotEnd, cause(&e));
}

#[test]
fn map_out_and_map_err() {
    let p = Parser::from(digits::<10>).map_out(|s: &str| s.len());
    let (out, rest) = p.parse(Input::new("1234x")).unwrap();
    assert_eq!((4, "x"), (out, rest.as_str()));
    let e = p.parse(Input::new("x")).unwrap_err();
    assert_eq!(Error::Unmatched { span: Span::new(0, 1) }, cause(&e));

    let p = Parser::from(digits::<10>).map_err(|e| e.push(Context::from_message("no digits")));
    let e = p.parse(Input::new("x")).unwrap_err();
    assert_eq!(2, e.len());
    assert_eq!(Some("no digits"), e.get(1).unwrap().message());
    assert_eq!(("12", "x"), {
        let (out, rest) = p.parse(Input::new("12x")).unwrap();
        (out, rest.as_str())
    });
}

#[test]
fn context_is_added_behind_the_cause() {
    let p = Parser::from("a")
        .with_context(|| Context::from_message("inner").with_span(Span::new(1, 2)))
        .with_message(|| String::from("outer"));
    let e = p.parse(Input::new("b")).unwrap_err();
    assert_eq!(3, e.len());
    assert_eq!(Error::Unmatched { span: Span::new(0, 1) }, cause(&e));
    assert_eq!(Some("inner"), e.get(1).unwrap().message());
    assert_eq!(Some(Span::new(1, 2)), e.get(1).unwrap().span());
    assert_eq!(Some("outer"), e.get(2).unwrap().message());
    assert_eq!(None, e.get(2).unwrap().span());
    assert!(e.get(3).is_none());
    assert_eq!(Some(&Error::Unmatched { span: Span::new(0, 1) }), e.downcast_ref());
    assert!(p.parse(Input::new("a")).is_ok());
}

#[test]
fn or_and_or_value() {
    let p = Parser::from("a").or("b");
    assert_eq!("b", p.parse(Input::new("b")).unwrap().0);
    assert!(p.parse(Input::new("c")).is_err());
    let p = Parser::from("a").or_value("none");
    let (out, rest) = p.parse(Input::new("b")).unwrap();
    assert_eq!(("none", "b"), (out, rest.as_str()));
    let (out, rest) = p.parse(Input::new("ab")).unwrap();
    assert_eq!(("a", "b"), (out, rest.as_str()));
}

#[test]
fn and_then_and_before() {
    let p = Parser::from("key").and_then("=").and_then(digits::<10>);
    let (out, rest) = p.parse(Input::new("key=12;")).unwrap();
    assert_eq!(("12", ";"), (out, rest.as_str()));
    let e = p.parse(Input::new("key:12")).unwrap_err();
    assert_eq!(Error::Unmatched { span: Span::new(3, 4) }, cause(&e));

    let p = Parser::from("Hello world").before(eof);
    let (out, rest) = p.parse(Input::new("Hello world")).unwrap();
    assert_eq!(("Hello world", ""), (out, rest.as_str()));
    let e = p.parse(Input::new("Hello world and then some")).unwrap_err();
    assert_eq!(Error::NotEnd, cause(&e));
}

#[test]
fn coerce_converts_with_into() {
    let p = Parser::from(any_char).coerce::<String>();
    let (out, rest) = p.parse(Input::new("ab")).unwrap();
    assert_eq!((String::from("a"), "b"), (out, rest.as_str()));
    let p = Parser::from(any_char).coerce::<u32>();
    assert_eq!(0x20ac, p.parse(Input::new("€")).unwrap().0);
}

#[test]
fn consumed_and_rest_are_the_input() {
    let p = tuple((
        optional("«"),
        take_while(|c: char| c.is_alphabetic()),
        choice(("»", "›", "")),
    ));
    for text in ["«né»e", "né›", "née", "«x"] {
        let input = Input::new(text);
        let (_, rest) = p.parse(input).unwrap();
        let consumed = rest.offset() - input.offset();
        assert!(text.ends_with(rest.as_str()));
        assert_eq!(text.len(), consumed + rest.as_str().len());
        assert_eq!(text, format!("{}{}", &text[..consumed], rest.as_str()));
    }
}

#[test]
fn parser_wraps_a_parser() {
    let p = Parser::from(literal("a"));
    let (out, rest) = p.parse(Input::new("ab")).unwrap();
    assert_eq!(("a", "b"), (out, rest.as_str()));
    let (out, rest) = Parse::parse(&p, Input::new("ab")).unwrap();
    assert_eq!(("a", "b"), (out, rest.as_str()));
}

#[test]
fn sequence_of_four() {
    let p = tuple(("a", any_char, take(2), eof));
    let (out, rest) = p.parse(Input::new("abcd")).unwrap();
    assert_eq!((("a", 'b', "cd", ()), ""), (out, rest.as_str()));
    let e = p.parse(Input::new("abcde")).unwrap_err();
    assert_eq!(Error::NotEnd, cause(&e));
    let e = p.parse(Input::new("abc")).unwrap_err();
    assert_eq!(Error::End { span: Span::new(3, 3) }, cause(&e));
}

#[test]
fn every_parser_has_the_methods() {
    let p = "true".value(true).or("false".value(false));
    assert_eq!(true, p.parse(Input::new("true")).unwrap().0);
    assert_eq!(false, p.parse(Input::new("false")).unwrap().0);
    assert!(p.parse(Input::new("null")).is_err());

    let p = any_char.before(",").map_out(|c: char| c.to_ascii_uppercase());
    let (out, rest) = p.parse(Input::new("a,b")).unwrap();
    assert_eq!(('A', "b"), (out, rest.as_str()));

    let p = "#".and_then(digits::<16>).or_value("0");
    let (out, rest) = p.parse(Input::new("#ff;")).unwrap();
    assert_eq!(("ff", ";"), (out, rest.as_str()));
    let (out, rest) = p.parse(Input::new("ff;")).unwrap();
    assert_eq!(("0", "ff;"), (out, rest.as_str()));

    let p = take(1)
        .map(|r| r.map(|s: &str| s.len()))
        .with_message(|| String::from("one character"))
        .with_context(|| Context::from_message("somewhere"))
        .map_err(|e| e.push(Context::from_message("last")));
    assert_eq!(2, p.parse(Input::new("éa")).unwrap().0);
    let e = p.parse(Input::new("")).unwrap_err();
    assert_eq!(4, e.len());
    assert_eq!(Some("one character"), e.get(1).unwrap().message());
    assert_eq!(Some("somewhere"), e.get(2).unwrap().message());
    assert_eq!(Some("last"), e.get(3).unwrap().message());

    let p = 'x'.coerce::<u32>();
    assert_eq!(120, p.parse(Input::new("x")).unwrap().0);
}

#[test]
fn refute_hands_the_output_back() {
    assert_eq!(Err("str"), refute(&"str", Input::new("string")).map(|(e, r)| (e, r.as_str())));
    let (e, rest) = refute(&"str", Input::new("other")).unwrap();
    assert_eq!(("other", 0), (rest.as_str(), rest.offset()));
    assert_eq!(Error::Unmatched { span: Span::new(0, 3) }, cause(&e));
    assert_eq!(Err(7u8), refute(&value(7u8, any_char), Input::new("x")).map(|(e, r)| (e, r.as_str())));
    let inner = not("a");
    let e = refute(&inner, Input::new("b")).unwrap_err();
    assert_eq!(Error::Unmatched { span: Span::new(0, 1) }, cause(&e));
    let (e, rest) = refute(&inner, Input::new("a")).unwrap();
    assert_eq!("a", rest.as_str());
    assert_eq!(Error::Unmatched { span: Span::new(0, 1) }, cause(&e));
}

#[test]
fn a_parser_can_stand_in_several_places() {
    let word = take_while(|c: char| c.is_alphabetic());
    let p = tuple((word.by_ref(), " ", word.by_ref(), optional(word.by_ref())));
    let (out, rest) = p.parse(Input::new("ab cd!")).unwrap();
    assert_eq!((("ab", " ", "cd", None), "!"), (out, rest.as_str()));
    let shared = Parser::from(literal("x"));
    let twice = shared.by_ref().and_then(shared.by_ref());
    let (out, rest) = twice.parse(Input::new("xxy")).unwrap();
    assert_eq!(("x", "y"), (out, rest.as_str()));
    assert!(shared.parse(Input::new("x")).is_ok());
    let copied = word.by_ref();
    let again = copied;
    assert_eq!("ab", copied.parse(Input::new("ab")).unwrap().0);
    assert_eq!("ab", again.parse(Input::new("ab")).unwrap().0);
}
