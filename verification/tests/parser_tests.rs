use kv_cache::decimal::{is_digit_byte, push_decimal, read_decimal_u32};
use kv_cache::{is_key_char, parse_ascii_cmd, Cmd, ParseError};

fn set(key: &str, flag: u32, ttl: u32, len: u32, noreply: Option<bool>) -> Cmd {
    Cmd::CmdSet { key: key.as_bytes().to_vec(), flag, ttl, len, noreply }
}

fn get(key: &str) -> Cmd {
    Cmd::CmdGet { key: key.as_bytes().to_vec() }
}

fn parsed(line: &[u8]) -> Result<Cmd, ParseError> {
    parse_ascii_cmd(line).map(|(_, cmd)| cmd)
}

#[test]
fn key_chars_are_printable_and_not_the_space() {
    assert!(!is_key_char(0));
    assert!(!is_key_char(b'\t'));
    assert!(!is_key_char(b'\r'));
    assert!(!is_key_char(b'\n'));
    assert!(!is_key_char(31));
    assert!(!is_key_char(b' '));
    assert!(is_key_char(b'!'));
    assert!(is_key_char(b'0'));
    assert!(is_key_char(b'a'));
    assert!(is_key_char(b'Z'));
    assert!(is_key_char(b'~'));
    assert!(!is_key_char(127));
    assert!(!is_key_char(128));
    assert!(!is_key_char(255));
}

#[test]
fn digits_are_zero_to_nine() {
    assert!(!is_digit_byte(b'/'));
    assert!(is_digit_byte(b'0'));
    assert!(is_digit_byte(b'9'));
    assert!(!is_digit_byte(b':'));
}

#[test]
fn decimal_is_read() {
    assert_eq!(read_decimal_u32(b"0"), Some(0));
    assert_eq!(read_decimal_u32(b"7"), Some(7));
    assert_eq!(read_decimal_u32(b"12345"), Some(12345));
    assert_eq!(read_decimal_u32(b"007"), Some(7));
    assert_eq!(read_decimal_u32(b"4294967295"), Some(u32::MAX));
    assert_eq!(read_decimal_u32(b"0000000000004294967295"), Some(u32::MAX));
}

#[test]
fn what_is_no_decimal_is_not_read() {
    assert_eq!(read_decimal_u32(b""), None);
    assert_eq!(read_decimal_u32(b"4294967296"), None);
    assert_eq!(read_decimal_u32(b"99999999999"), None);
    assert_eq!(read_decimal_u32(b"+1"), None);
    assert_eq!(read_decimal_u32(b"-1"), None);
    assert_eq!(read_decimal_u32(b"1 "), None);
    assert_eq!(read_decimal_u32(b" 1"), None);
    assert_eq!(read_decimal_u32(b"1a"), None);
    assert_eq!(read_decimal_u32(b"0x1"), None);
    assert_eq!(read_decimal_u32(&[b'1', 0xb2]), None);
}

#[test]
fn decimal_is_written() {
    for (n, text) in [
        (0u64, "0"),
        (7, "7"),
        (9, "9"),
        (10, "10"),
        (99, "99"),
        (100, "100"),
        (4_294_967_295, "4294967295"),
        (4_194_304, "4194304"),
        (u64::MAX, "18446744073709551615"),
    ] {
        let mut out = b"x".to_vec();
        push_decimal(&mut out, n);
        assert_eq!(out, format!("x{}", text).into_bytes());
    }
}

#[test]
fn decimal_written_is_read_back() {
    for n in [0u32, 1, 9, 10, 11, 255, 65_535, 1_000_000_000, u32::MAX - 1, u32::MAX] {
        let mut out = Vec::new();
        push_decimal(&mut out, n as u64);
        assert_eq!(read_decimal_u32(&out), Some(n));
    }
}

#[test]
fn set_line_is_parsed() {
    assert_eq!(parsed(b"set foo 1 0 3\r\n"), Ok(set("foo", 1, 0, 3, None)));
    assert_eq!(parsed(b"set foo 0 0 3 noreply\r\n"), Ok(set("foo", 0, 0, 3, Some(true))));
    assert_eq!(
        parsed(b"set a:b/c~! 4294967295 4294967295 4294967295\r\n"),
        Ok(set("a:b/c~!", u32::MAX, u32::MAX, u32::MAX, None))
    );
    assert_eq!(parsed(b"set k 0000000001 02 003\r\n"), Ok(set("k", 1, 2, 3, None)));
}

#[test]
fn command_words_are_matched_without_regard_to_case() {
    assert_eq!(parsed(b"SET foo 1 2 3\r\n"), Ok(set("foo", 1, 2, 3, None)));
    assert_eq!(parsed(b"SeT foo 1 2 3 NoRePlY\r\n"), Ok(set("foo", 1, 2, 3, Some(true))));
    assert_eq!(parsed(b"GET Foo\r\n"), Ok(get("Foo")));
    assert_eq!(parsed(b"gEt foo\r\n"), Ok(get("foo")));
    assert_eq!(parsed(b"VERSION\r\n"), Ok(Cmd::CmdVersion));
    assert_eq!(parsed(b"Version\r\n"), Ok(Cmd::CmdVersion));
}

#[test]
fn noreply_is_a_field_of_its_own_after_one_space() {
    assert_eq!(parsed(b"set foo 1 2 3 noreply\r\n"), Ok(set("foo", 1, 2, 3, Some(true))));
    assert_eq!(parsed(b"set foo 0 0 3noreply\r\n"), Err(ParseError::Malformed));
    assert_eq!(parsed(b"set foo 1 2 3noreply\r\n"), Err(ParseError::Malformed));
    assert_eq!(parsed(b"set foo 1 2 3  noreply\r\n"), Err(ParseError::Malformed));
    assert_eq!(parsed(b"set foo 1 2 3 noreply \r\n"), Err(ParseError::Malformed));
    assert_eq!(parsed(b"set foo 1 2 3 noreplyx\r\n"), Err(ParseError::Malformed));
    assert_eq!(parsed(b"set foo 1 2 3 noreply noreply\r\n"), Err(ParseError::Malformed));
}

#[test]
fn space_after_the_last_field_is_malformed() {
    assert_eq!(parsed(b"set foo 0 0 3 \r\n"), Err(ParseError::Malformed));
    assert_eq!(parsed(b"set foo 1 2 3 \r\n"), Err(ParseError::Malformed));
    assert_eq!(parsed(b"set foo 1 2 3  \r\n"), Err(ParseError::Malformed));
}

#[test]
fn get_and_version_lines_are_parsed() {
    assert_eq!(parsed(b"get foo\r\n"), Ok(get("foo")));
    assert_eq!(parsed(b"get missing\r\n"), Ok(get("missing")));
    assert_eq!(parsed(b"get set\r\n"), Ok(get("set")));
    assert_eq!(parsed(b"version\r\n"), Ok(Cmd::CmdVersion));
}

#[test]
fn bytes_after_the_line_are_handed_back() {
    let (rest, cmd) = parse_ascii_cmd(b"get foo\r\nbar\r\n").expect("a get line");
    assert_eq!(cmd, get("foo"));
    assert_eq!(rest, b"bar\r\n");
    let (rest, cmd) = parse_ascii_cmd(b"version\r\n").expect("a version line");
    assert_eq!(cmd, Cmd::CmdVersion);
    assert!(rest.is_empty());
    let (rest, cmd) = parse_ascii_cmd(b"set k 1 2 3 noreply\r\nabc\r\n").expect("a set line");
    assert_eq!(cmd, set("k", 1, 2, 3, Some(true)));
    assert_eq!(rest, b"abc\r\n");
}

#[test]
fn empty_line_is_empty() {
    assert_eq!(parsed(b""), Err(ParseError::Empty));
}

#[test]
fn other_words_are_unknown() {
    assert_eq!(parsed(b"frobnicate\r\n"), Err(ParseError::UnknownCommand));
    assert_eq!(parsed(b"\r\n"), Err(ParseError::UnknownCommand));
    assert_eq!(parsed(b" get foo\r\n"), Err(ParseError::UnknownCommand));
    assert_eq!(parsed(b"delete foo\r\n"), Err(ParseError::UnknownCommand));
    assert_eq!(parsed(b"se"), Err(ParseError::UnknownCommand));
    assert_eq!(parsed(b"ge\r\n"), Err(ParseError::UnknownCommand));
    assert_eq!(parsed(b"versio\r\n"), Err(ParseError::UnknownCommand));
    assert_eq!(parsed(b"bar\r\n"), Err(ParseError::UnknownCommand));
}

#[test]
fn set_line_with_wrong_fields_is_malformed() {
    for line in [
        &b"set\r\n"[..],
        b"set \r\n",
        b"set foo\r\n",
        b"set foo 1\r\n",
        b"set foo 1 2\r\n",
        b"set foo 1 2 \r\n",
        b"set foo 1 2 3 4\r\n",
        b"set foo 1 2 3 noreply x\r\n",
        b"set foo 1 2 3 norepl\r\n",
        b"set  foo 1 2 3\r\n",
        b"set foo  1 2 3\r\n",
        b"set foo 1  2 3\r\n",
        b"set foo 1 2  3\r\n",
        b"setfoo 1 2 3\r\n",
        b"set\tfoo 1 2 3\r\n",
        b"set foo a 2 3\r\n",
        b"set foo 1 b 3\r\n",
        b"set foo 1 2 c\r\n",
        b"set foo -1 2 3\r\n",
        b"set foo +1 2 3\r\n",
        b"set foo 1.5 2 3\r\n",
        b"set foo 1 2 3\n",
        b"set foo 1 2 3\r",
        b"set foo 1 2 3",
        b"set foo 1 2 3\n\r",
        b"set f\x01o 1 2 3\r\n",
        b"set f\x7fo 1 2 3\r\n",
        b"set f\xc3\xa9 1 2 3\r\n",
    ] {
        assert_eq!(parsed(line), Err(ParseError::Malformed), "{:?}", line);
    }
}

#[test]
fn number_that_a_u32_does_not_hold_is_malformed() {
    assert_eq!(parsed(b"set foo 4294967296 0 3\r\n"), Err(ParseError::Malformed));
    assert_eq!(parsed(b"set foo 0 4294967296 3\r\n"), Err(ParseError::Malformed));
    assert_eq!(parsed(b"set foo 0 0 4294967296\r\n"), Err(ParseError::Malformed));
    assert_eq!(parsed(b"set foo 0 0 9999999999\r\n"), Err(ParseError::Malformed));
}

#[test]
fn number_of_more_than_ten_digits_is_malformed() {
    assert_eq!(parsed(b"set foo 0000000001 0 3\r\n"), Ok(set("foo", 1, 0, 3, None)));
    assert_eq!(parsed(b"set foo 00000000001 0 3\r\n"), Err(ParseError::Malformed));
    assert_eq!(parsed(b"set foo 0 0 00000000003\r\n"), Err(ParseError::Malformed));
    assert_eq!(parsed(b"set foo 0 0 12345678901\r\n"), Err(ParseError::Malformed));
}

#[test]
fn get_line_with_wrong_fields_is_malformed() {
    for line in [
        &b"get\r\n"[..],
        b"get \r\n",
        b"get  foo\r\n",
        b"get foo \r\n",
        b"get foo bar\r\n",
        b"getfoo\r\n",
        b"get foo",
        b"get foo\n",
        b"get foo\r",
        b"get f\x00o\r\n",
    ] {
        assert_eq!(parsed(line), Err(ParseError::Malformed), "{:?}", line);
    }
}

#[test]
fn version_line_with_more_on_it_is_malformed() {
    assert_eq!(parsed(b"version"), Err(ParseError::Malformed));
    assert_eq!(parsed(b"version \r\n"), Err(ParseError::Malformed));
    assert_eq!(parsed(b"version 1\r\n"), Err(ParseError::Malformed));
    assert_eq!(parsed(b"versions\r\n"), Err(ParseError::Malformed));
    assert_eq!(parsed(b"version\n"), Err(ParseError::Malformed));
}

#[test]
fn long_key_is_parsed() {
    let key = "k".repeat(100_000);
    let line = format!("get {}\r\n", key).into_bytes();
    assert_eq!(parsed(&line), Ok(get(&key)));
}
