use komb::str::{none_of0, one_of0};
use komb::string::{none_of, one_of};
use komb::{Input, Parse};

#[test]
fn str_playground() {
    let (out, rest) = none_of0(&['c']).parse(Input::new("abcd")).unwrap();
    assert_eq!(("ab", "cd"), (out, rest.as_str()));
    let (out, rest) = one_of0(&['a', 'b']).parse(Input::new("abcd")).unwrap();
    assert_eq!(("ab", "cd"), (out, rest.as_str()));
}

#[test]
fn string_playground() {
    let (out, rest) = none_of(&['c']).parse(Input::new("abcd")).unwrap();
    assert_eq!(("ab", "cd"), (out, rest.as_str()));
    let (out, rest) = one_of(&['a', 'b']).parse(Input::new("abcd")).unwrap();
    assert_eq!(("ab", "cd"), (out, rest.as_str()));
}
