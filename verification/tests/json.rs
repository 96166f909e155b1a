use komb::combinator::{choice, delimited, fold, optional, tuple};
use komb::span::Span;
use komb::str::one_of0;
use komb::string::{anycase, consume, digits, eof, none_of_char, take, Error as Mismatch};
use komb::{Error, Input, PResult, Parse, Parser};
use std::collections::HashMap;
use std::str::FromStr;

#[derive(Debug, Clone, PartialEq)]
enum Value {
    Null,
    Bool(bool),
    Number(f64),
    String(String),
    Array(Vec<Value>),
    Object(HashMap<String, Value>),
}

fn unmatched(from: Input, to: Input) -> Error {
    Error::from(Mismatch::unmatched(Span::new(from.offset(), to.offset())))
}

fn whitespace(input: Input) -> PResult<Input, ()> {
    Parser::from(one_of0(&[' ', '\n', '\r', '\t'])).value(()).parse(input)
}

fn bool(input: Input) -> PResult<Input, bool> {
    delimited(
        whitespace,
        choice((Parser::from("true").value(true), Parser::from("false").value(false))),
        whitespace,
    )
    .parse(input)
}

fn unicode_escape(input: Input) -> PResult<Input, char> {
    let (hex, rest) = Parser::from("\\u").and_then(take(4)).parse(input)?;
    match u32::from_str_radix(hex, 16).ok().and_then(char::from_u32) {
        Some(c) => Ok((c, rest)),
        None => Err(unmatched(input, rest)),
    }
}

fn string(input: Input) -> PResult<Input, String> {
    let p = fold(
        choice((
            Parser::from("\\\"").value('\"'),
            Parser::from("\\\\").value('\\'),
            Parser::from("\\/").value('/'),
            choice((
                Parser::from("\\b").value('\x08'),
                Parser::from("\\f").value('\x0C'),
                Parser::from("\\n").value('\n'),
                choice((
                    Parser::from("\\r").value('\r'),
                    Parser::from("\\t").value('\t'),
                    unicode_escape,
                    none_of_char(&['\\', '"']),
                )),
            )),
        )),
        String::new(),
        |mut acc: String, ch| {
            acc.push(ch);
            acc
        },
    );

    delimited('"', p, '"').parse(input)
}

fn digits_leading(input: Input) -> PResult<Input, &str> {
    let (out, rest) = digits::<10>(input)?;
    if out.starts_with('0') && out.len() > 1 {
        return Err(unmatched(input, rest));
    }
    Ok((out, rest))
}

fn number(input: Input) -> PResult<Input, f64> {
    let integer = tuple((optional('-'), digits_leading));
    let fraction = optional(tuple(('.', digits::<10>)));
    let sign = optional(choice(('+', '-')));
    let exponent = optional(tuple((anycase("e"), sign, digits::<10>)));
    let (literal, rest) = consume(tuple((integer, fraction, exponent))).parse(input)?;
    Ok((f64::from_str(literal).unwrap(), rest))
}

fn object(input: Input) -> PResult<Input, HashMap<String, Value>> {
    let pair = Parser::from(tuple((
        whitespace,
        string,
        whitespace,
        tuple((":", value, optional(","), whitespace)),
    )))
    .map_out(|(_, key, _, (_, value, _, _))| (key, value));
    let pairs = fold(pair, HashMap::new(), |mut acc: HashMap<String, Value>, (key, value)| {
        acc.insert(key, value);
        acc
    });
    delimited(Parser::from("{").before(whitespace), pairs, "}").parse(input)
}

fn array(input: Input) -> PResult<Input, Vec<Value>> {
    let init = fold(Parser::from(value).before(','), Vec::new(), |mut acc: Vec<Value>, value| {
        acc.push(value);
        acc
    });
    let elements = Parser::from(tuple((init, value))).map_out(|(mut elements, last)| {
        elements.push(last);
        elements
    });
    delimited("[", elements, "]").parse(input)
}

fn value(input: Input) -> PResult<Input, Value> {
    delimited(
        whitespace,
        choice((
            Parser::from(object).map_out(Value::Object),
            Parser::from(array).map_out(Value::Array),
            Parser::from(string).map_out(Value::String),
            choice((
                Parser::from(number).map_out(Value::Number),
                Parser::from("true").value(Value::Bool(true)),
                Parser::from("false").value(Value::Bool(false)),
                Parser::from("null").value(Value::Null),
            )),
        )),
        whitespace,
    )
    .parse(input)
}

fn parse(text: &str) -> Result<Value, Error> {
    Parser::from(value).before(eof).parse(Input::new(text)).map(|(output, _)| output)
}

#[test]
fn test_bool() {
    let s = "   true  ";
    let (out, rest) = bool(Input::new(s)).unwrap();
    assert_eq!((true, ""), (out, rest.as_str()));
}

#[test]
fn test_string() {
    let s = r#""a string with \"escapes\n""#;

    let (out, rest) = string.parse(Input::new(s)).unwrap();
    assert_eq!(
        (String::from("a string with \"escapes\n"), ""),
        (out, rest.as_str())
    )
}

#[test]
fn json_numbers() {
    assert_eq!(Ok((100.0, "")), number(Input::new("100")).map(|(n, r)| (n, r.as_str())));
    assert_eq!(Ok((0.1e10, ",")), number(Input::new("0.1e+10,")).map(|(n, r)| (n, r.as_str())));
    assert_eq!(Ok((-2e-10, "")), number(Input::new("-2E-10")).map(|(n, r)| (n, r.as_str())));
    assert_eq!(Ok((0.0, "")), number(Input::new("0")).map(|(n, r)| (n, r.as_str())));
    assert_eq!(
        Err(Error::from(Mismatch::unmatched(Span::new(0, 3)))),
        number(Input::new("007")).map(|(n, r)| (n, r.as_str()))
    );
    assert!(parse("-").is_err());
}

#[test]
fn json_document() {
    let text = r#"
{
    "glossary": {
        "title": true,
        "GlossDiv": {
            "title": "S",
            "number": 100,
            "another": 100.1,
            "another5": -2E-10,
            "GlossList": {
                "GlossEntry": {
                    "ID": "SGML",
                    "Abbrev": "ISO 8879:1986",
                    "GlossDef": {
                        "para": "A meta-markup language, used to create markup languages.",
                        "GlossSeeAlso": ["GML", "XML", null, 1.5e3, "\u00e9\t"]
                    }
                }
            }
        }
    }
}"#;
    let parsed = parse(text).unwrap();
    let Value::Object(root) = parsed else { panic!("an object") };
    let Value::Object(glossary) = &root["glossary"] else { panic!("an object") };
    assert_eq!(Value::Bool(true), glossary["title"]);
    let Value::Object(div) = &glossary["GlossDiv"] else { panic!("an object") };
    assert_eq!(Value::String(String::from("S")), div["title"]);
    assert_eq!(Value::Number(100.0), div["number"]);
    assert_eq!(Value::Number(100.1), div["another"]);
    assert_eq!(Value::Number(-2e-10), div["another5"]);
    let Value::Object(list) = &div["GlossList"] else { panic!("an object") };
    let Value::Object(entry) = &list["GlossEntry"] else { panic!("an object") };
    let Value::Object(def) = &entry["GlossDef"] else { panic!("an object") };
    assert_eq!(
        Value::Array(vec![
            Value::String(String::from("GML")),
            Value::String(String::from("XML")),
            Value::Null,
            Value::Number(1500.0),
            Value::String(String::from("é\t")),
        ]),
        def["GlossSeeAlso"]
    );
}

#[test]
fn json_failures_point_into_the_text() {
    let e = parse(r#"{"a": [1, 2}"#).unwrap_err();
    assert!(e.len() >= 1);
    let e = parse("[1, 2] x").unwrap_err();
    assert_eq!(Some(&Mismatch::NotEnd), e.downcast_ref());
    let e = string(Input::new(r#""open"#)).unwrap_err();
    assert_eq!(Some(&Mismatch::End { span: Span::new(5, 5) }), e.downcast_ref());
    assert_eq!("0: Unexpected end of input at 5..5 ''\n", e.explain(r#""open"#));
    let e = parse(r#""open"#).unwrap_err();
    assert_eq!(Some(&Mismatch::Unmatched { span: Span::new(0, 4) }), e.downcast_ref());
    assert_eq!("0: Parser failed to match at 0..4 '\"ope'\n", e.explain(r#""open"#));
}
