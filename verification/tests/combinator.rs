use komb::combinator::{choice, option, tuple, Tuple};
use komb::string::{any_char, char, literal, take_while};
use komb::{Input, Parse, Parser};

#[test]
fn combinator_playground() {
    let res = option(take_while(|c: char| c.is_ascii_lowercase()));

    let (out, rest) = res.parse(Input::new("ABCD")).unwrap();
    assert_eq!((None, "ABCD"), (out, rest.as_str()));
}

#[test]
fn choice_test_macro() {
    let parser = choice(('a', 'b'));
    let (out, rest) = parser.parse(Input::new("bc")).unwrap();
    assert_eq!(('b', "c"), (out, rest.as_str()));

    let parser = choice(('a', 'b', 'c'));
    let (out, rest) = parser.parse(Input::new("cx")).unwrap();
    assert_eq!(('c', "x"), (out, rest.as_str()));
}

#[test]
fn basic() {
    let p = tuple((literal("a"), literal("b"), literal("c")));
    let (out, rest) = p.parse(Input::new("abc rest")).unwrap();
    assert_eq!((("a", "b", "c"), " rest"), (out, rest.as_str()));
}

#[test]
fn types() {
    let p = (literal("a"), any_char, literal("c"));
    let (out, rest) = Tuple::parse(&p, Input::new("abc rest")).unwrap();
    assert_eq!((("a", 'b', "c"), " rest"), (out, rest.as_str()));
}

#[test]
fn select_test_macro() {
    let parser = Parser::from('a').or('b').or('c');
    let (out, rest) = parser.parse(Input::new("bc")).unwrap();
    assert_eq!(('b', "c"), (out, rest.as_str()));
}

#[test]
fn tuples_test_macro() {
    let parser = choice((char(|c| c == 'a'), char(|c| c == 'b')));
    let (out, rest) = parser.parse(Input::new("bc")).unwrap();
    assert_eq!(('b', "c"), (out, rest.as_str()));

    let parser = choice((char(|c| c == 'a'), char(|c| c == 'b'), char(|c| c == 'c')));
    let (out, rest) = parser.parse(Input::new("cx")).unwrap();
    assert_eq!(('c', "x"), (out, rest.as_str()));
}
