use komb::number::{
    decimal, float, i16, i32, i64, i8, isize, u16, u32, u64, u8, usize, Float,
};
use komb::Parse;
use komb::span::Span;
use komb::string::{Error, IntErrorKind};
use komb::Input;
use std::str::FromStr;

fn cause(error: &komb::Error) -> Error {
    *error.source().downcast_ref().unwrap()
}

fn float_value(text: &str) -> (f64, String) {
    let (out, rest) = float(Input::new(text)).unwrap();
    (f64::from_str(out).unwrap(), String::from(rest.as_str()))
}

#[test]
fn float_scenarios() {
    assert_eq!((3.14, String::from("")), float_value("3.14"));
    assert_eq!((-2e-10, String::from("rest")), float_value("-2E-10rest"));
    assert_eq!((f64::INFINITY, String::from("")), float_value("iNf"));
    assert_eq!((f64::NEG_INFINITY, String::from("")), float_value("-inF"));
}

#[test]
fn float_shapes() {
    assert_eq!((-3.14, String::from("")), float_value("-3.14"));
    assert_eq!((2.5E10, String::from("")), float_value("2.5E10"));
    assert_eq!((2.5E-10, String::from("")), float_value("2.5E-10"));
    assert_eq!((5.0, String::from("")), float_value("5."));
    assert_eq!((0.5, String::from("")), float_value(".5"));
    assert_eq!((7.0, String::from("")), float_value("+7"));
    assert_eq!((1e3, String::from("x")), float_value("1e+3x"));
    assert_eq!((f64::INFINITY, String::from("!")), float_value("Infinity!"));
    assert!(float_value("NaN").0.is_nan());
}

#[test]
fn float_leaves_what_is_no_part_of_the_literal() {
    let (out, rest) = float(Input::new("2e")).unwrap();
    assert_eq!(("2", "e"), (out, rest.as_str()));
    let (out, rest) = float(Input::new("2e+x")).unwrap();
    assert_eq!(("2", "e+x"), (out, rest.as_str()));
    let (out, rest) = float(Input::new("1.2.3")).unwrap();
    assert_eq!(("1.2", ".3"), (out, rest.as_str()));
    let (out, rest) = float(Input::new("infinit")).unwrap();
    assert_eq!(("inf", "init"), (out, rest.as_str()));
    let (out, rest) = float(Input::new("12ab")).unwrap();
    assert_eq!(("12", "ab", 2), (out, rest.as_str(), rest.offset()));
}

#[test]
fn float_failures() {
    let e = float(Input::new("")).unwrap_err();
    assert_eq!(Error::End { span: Span::new(0, 0) }, cause(&e));
    let e = float(Input::new("-")).unwrap_err();
    assert_eq!(Error::End { span: Span::new(1, 1) }, cause(&e));
    let e = float(Input::new("+x")).unwrap_err();
    assert_eq!(Error::Unmatched { span: Span::new(1, 2) }, cause(&e));
    let e = float(Input::new(".")).unwrap_err();
    assert_eq!(Error::Unmatched { span: Span::new(0, 1) }, cause(&e));
    let e = float(Input::new("e5")).unwrap_err();
    assert_eq!(Error::Unmatched { span: Span::new(0, 1) }, cause(&e));
}

#[test]
fn unsigned_keeps_leading_zeros() {
    let (out, rest) = u64(Input::new("007")).unwrap();
    assert_eq!((7, "", 3), (out, rest.as_str(), rest.offset()));
    let (out, rest) = u8(Input::new("0000255 ")).unwrap();
    assert_eq!((255, " "), (out, rest.as_str()));
}

#[test]
fn unsigned_limits() {
    assert_eq!(255, u8(Input::new("255")).unwrap().0);
    assert_eq!(65535, u16(Input::new("65535")).unwrap().0);
    assert_eq!(4294967295, u32(Input::new("4294967295")).unwrap().0);
    assert_eq!(u64::MAX, u64(Input::new("18446744073709551615")).unwrap().0);
    assert_eq!(usize::MAX, usize(Input::new(&usize::MAX.to_string())).unwrap().0);
    let e = u8(Input::new("256x")).unwrap_err();
    assert_eq!(
        Error::ParseInt { error: IntErrorKind::PosOverflow, span: Span::new(0, 3) },
        cause(&e)
    );
    assert!(u16(Input::new("65536")).is_err());
    assert!(u32(Input::new("4294967296")).is_err());
    assert!(u64(Input::new("18446744073709551616")).is_err());
    assert!(u64(Input::new("99999999999999999999999999")).is_err());
}

#[test]
fn unsigned_takes_no_sign() {
    let e = u8(Input::new("+1")).unwrap_err();
    assert_eq!(Error::Unmatched { span: Span::new(0, 1) }, cause(&e));
    let e = u32(Input::new("-1")).unwrap_err();
    assert_eq!(Error::Unmatched { span: Span::new(0, 1) }, cause(&e));
    let e = u32(Input::new("")).unwrap_err();
    assert_eq!(Error::End { span: Span::new(0, 0) }, cause(&e));
}

#[test]
fn signed_values() {
    let (out, rest) = i32(Input::new("3")).unwrap();
    assert_eq!((3, ""), (out, rest.as_str()));
    let (out, rest) = i32(Input::new("-1")).unwrap();
    assert_eq!((-1, ""), (out, rest.as_str()));
    let (out, rest) = i32(Input::new("+4")).unwrap();
    assert_eq!((4, ""), (out, rest.as_str()));
    let (out, rest) = i64(Input::new("-0012abc")).unwrap();
    assert_eq!((-12, "abc", 5), (out, rest.as_str(), rest.offset()));
}

#[test]
fn signed_limits() {
    assert_eq!(i8::MIN, i8(Input::new("-128")).unwrap().0);
    assert_eq!(i8::MAX, i8(Input::new("127")).unwrap().0);
    assert_eq!(i16::MIN, i16(Input::new("-32768")).unwrap().0);
    assert_eq!(i32::MIN, i32(Input::new("-2147483648")).unwrap().0);
    assert_eq!(i64::MIN, i64(Input::new("-9223372036854775808")).unwrap().0);
    assert_eq!(i64::MAX, i64(Input::new("+9223372036854775807")).unwrap().0);
    assert_eq!(isize::MIN, isize(Input::new(&isize::MIN.to_string())).unwrap().0);
    let e = i8(Input::new("128")).unwrap_err();
    assert_eq!(
        Error::ParseInt { error: IntErrorKind::PosOverflow, span: Span::new(0, 3) },
        cause(&e)
    );
    let e = i8(Input::new("-129")).unwrap_err();
    assert_eq!(
        Error::ParseInt { error: IntErrorKind::NegOverflow, span: Span::new(0, 4) },
        cause(&e)
    );
    assert!(i64(Input::new("9223372036854775808")).is_err());
    assert!(i64(Input::new("-9223372036854775809")).is_err());
}

#[test]
fn signed_wants_digits() {
    let e = i32(Input::new("-")).unwrap_err();
    assert_eq!(Error::End { span: Span::new(1, 1) }, cause(&e));
    let e = i32(Input::new("+-1")).unwrap_err();
    assert_eq!(Error::Unmatched { span: Span::new(1, 2) }, cause(&e));
    let e = i32(Input::new("x")).unwrap_err();
    assert_eq!(Error::Unmatched { span: Span::new(0, 1) }, cause(&e));
}

#[test]
fn number_parsers_as_values() {
    let (out, rest) = decimal::<u8>().parse(Input::new("255;")).unwrap();
    assert_eq!((255u8, ";"), (out, rest.as_str()));
    assert!(decimal::<u8>().parse(Input::new("256")).is_err());
    let (out, rest) = decimal::<i16>().parse(Input::new("-32768")).unwrap();
    assert_eq!((i16::MIN, ""), (out, rest.as_str()));
    let (out, rest) = Float.parse(Input::new("-1.5e3x")).unwrap();
    assert_eq!(("-1.5e3", "x"), (out, rest.as_str()));
    assert!(Float.parse(Input::new("x")).is_err());
}
