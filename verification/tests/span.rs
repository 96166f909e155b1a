use komb::span::Span;

#[test]
fn from_substring() {
    let s = "an example string";
    let sub = &s[3..10];
    assert_eq!(sub, "example");

    let span = Span::from_substring(sub, s);
    assert_eq!(Some(Span::new(3, 10)), span);
    let span = span.unwrap();
    assert_eq!("example", &s[span.to_range()]);

    let other = "another string";
    assert_eq!(None, Span::from_substring(other, s));
}
