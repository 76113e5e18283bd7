use kompyle::circuit::text::{
    byte_is_space, parse_index, parse_literal, push_signed, push_unsigned, split_lines, tokenize,
};

fn strings(pieces: Vec<Vec<u8>>) -> Vec<String> {
    pieces.into_iter().map(|p| String::from_utf8(p).unwrap()).collect()
}

#[test]
fn ascii_white_space() {
    for b in [b' ', b'\t', b'\n', 12u8, b'\r'] {
        assert!(byte_is_space(b));
    }
    for b in [b'a', b'0', 11u8, 0u8, 160u8] {
        assert!(!byte_is_space(b));
    }
}

#[test]
fn lines_of_a_text() {
    assert_eq!(strings(split_lines(b"a\nbc\n")), vec!["a", "bc"]);
    assert_eq!(strings(split_lines(b"a\nbc")), vec!["a", "bc"]);
    assert_eq!(strings(split_lines(b"\n\nx")), vec!["", "", "x"]);
    assert_eq!(strings(split_lines(b"")), Vec::<String>::new());
    assert_eq!(strings(split_lines(b"\n")), vec![""]);
}

#[test]
fn tokens_of_a_line() {
    assert_eq!(strings(tokenize(b"  12 -3\t4\r")), vec!["12", "-3", "4"]);
    assert_eq!(strings(tokenize(b"x")), vec!["x"]);
    assert_eq!(strings(tokenize(b" \t ")), Vec::<String>::new());
    assert_eq!(strings(tokenize(b"")), Vec::<String>::new());
}

#[test]
fn positions_are_unsigned_numerals() {
    assert_eq!(parse_index(b"0"), Some(0));
    assert_eq!(parse_index(b"+17"), Some(17));
    assert_eq!(parse_index(b"007"), Some(7));
    assert_eq!(parse_index(b""), None);
    assert_eq!(parse_index(b"+"), None);
    assert_eq!(parse_index(b"-1"), None);
    assert_eq!(parse_index(b"1a"), None);
    assert_eq!(parse_index(b"340282366920938463463374607431768211456"), None);
    assert_eq!(parse_index(usize::MAX.to_string().as_bytes()), Some(usize::MAX));
}

#[test]
fn literals_are_signed_numerals_of_32_bits() {
    assert_eq!(parse_literal(b"12"), Some(12));
    assert_eq!(parse_literal(b"-12"), Some(-12));
    assert_eq!(parse_literal(b"+12"), Some(12));
    assert_eq!(parse_literal(b"-0"), Some(0));
    assert_eq!(parse_literal(b"2147483647"), Some(i32::MAX));
    assert_eq!(parse_literal(b"-2147483648"), Some(i32::MIN));
    assert_eq!(parse_literal(b"2147483648"), None);
    assert_eq!(parse_literal(b"-2147483649"), None);
    assert_eq!(parse_literal(b"-"), None);
    assert_eq!(parse_literal(b"--1"), None);
    assert_eq!(parse_literal(b"+-1"), None);
    assert_eq!(parse_literal(b"1 "), None);
    assert_eq!(parse_literal(b"00000000000000000000000000000000000000001"), Some(1));
}

#[test]
fn decimal_numerals() {
    let mut out = String::from("x");
    push_unsigned(&mut out, 0);
    push_unsigned(&mut out, 907);
    push_signed(&mut out, -45);
    push_signed(&mut out, i32::MIN);
    push_unsigned(&mut out, u64::MAX);
    assert_eq!(out, "x0907-45-214748364818446744073709551615");
}

#[test]
fn numerals_are_read_back() {
    for v in [0, 1, -1, 9, 10, -10, 12345, i32::MAX, i32::MIN] {
        let mut out = String::new();
        push_signed(&mut out, v);
        assert_eq!(out, v.to_string());
        assert_eq!(parse_literal(out.as_bytes()), Some(v));
    }
}
