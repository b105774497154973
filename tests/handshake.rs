use termcastd::handshake::{find_byte, parse_hello, AuthResults};

#[test]
fn parse_hello_with_password() {
    let (name, pw) = parse_hello(b"hello alice secret").unwrap();
    assert_eq!(name, "alice");
    assert_eq!(pw, "secret");
}

#[test]
fn parse_hello_without_password() {
    let (name, pw) = parse_hello(b"hello bob").unwrap();
    assert_eq!(name, "bob");
    assert_eq!(pw, "");
}

#[test]
fn parse_hello_password_keeps_spaces() {
    let (name, pw) = parse_hello(b"hello a b c").unwrap();
    assert_eq!(name, "a");
    assert_eq!(pw, "b c");
}

#[test]
fn parse_hello_accepts_utf8_name() {
    let (name, pw) = parse_hello("hello j\u{f6}rg p\u{e4}ss".as_bytes()).unwrap();
    assert_eq!(name, "j\u{f6}rg");
    assert_eq!(pw, "p\u{e4}ss");
}

#[test]
fn parse_hello_errors() {
    assert_eq!(parse_hello(b"hello").unwrap_err(), AuthResults::NotEnoughParts);
    assert_eq!(parse_hello(b"").unwrap_err(), AuthResults::NotEnoughParts);
    assert_eq!(parse_hello(b"hi alice pw").unwrap_err(), AuthResults::MissingHello);
    assert_eq!(parse_hello(b"Hello alice pw").unwrap_err(), AuthResults::MissingHello);
    assert_eq!(parse_hello(b"hello  ").unwrap_err(), AuthResults::InvalidName);
    assert_eq!(parse_hello(b"hello \x19 ").unwrap_err(), AuthResults::InvalidName);
    assert_eq!(parse_hello(b"hello al\tice").unwrap_err(), AuthResults::InvalidName);
    assert_eq!(parse_hello(b"hello \xff pw").unwrap_err(), AuthResults::Utf8Error);
    assert_eq!(parse_hello(b"\xfe").unwrap_err(), AuthResults::Utf8Error);
}

#[test]
fn find_byte_gives_first_or_length() {
    assert_eq!(find_byte(b"ab\ncd\n", b'\n'), 2);
    assert_eq!(find_byte(b"abc", b'\n'), 3);
    assert_eq!(find_byte(b"", b'\n'), 0);
}
