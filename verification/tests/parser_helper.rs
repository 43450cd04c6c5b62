use valuable_value::parser_helper::{
    is_binary_digit, is_binary_digit_or_underscore, is_digit, is_digit_or_underscore,
    is_hex_digit, is_hex_digit_or_underscore, is_ws, Error, ParserHelper, Reason,
};

#[test]
fn cursor_starts_at_zero() {
    let p = ParserHelper::new(b"abc");
    assert_eq!(p.position(), 0);
    assert_eq!(p.len(), 3);
    assert_eq!(p.rest(), b"abc");
    assert_eq!(p.slice(1, 3), b"bc");
}

#[test]
fn next_reports_end_of_input_at_the_position() {
    let mut p = ParserHelper::new(b"a");
    assert_eq!(p.next::<u8>(), Ok(0x61));
    assert_eq!(p.position(), 1);
    assert_eq!(
        p.next::<u8>(),
        Err(Error { position: 1, reason: Reason::UnexpectedEndOfInput })
    );
    assert_eq!(
        p.peek::<u8>(),
        Err(Error { position: 1, reason: Reason::UnexpectedEndOfInput })
    );
    assert_eq!(p.peek_or_end(), None);
    assert_eq!(p.next_or_end(), None);
    assert_eq!(p.position(), 1);
}

#[test]
fn advance_over_only_on_a_match() {
    let mut p = ParserHelper::new(b"nil,");
    assert!(!p.advance_over(b"nix"));
    assert_eq!(p.position(), 0);
    assert!(!p.advance_over(b"nil,,"));
    assert!(p.advance_over(b"nil"));
    assert_eq!(p.position(), 3);
    assert!(p.advance_over(b""));
    assert_eq!(p.position(), 3);
}

#[test]
fn advance_or_fails_at_the_start() {
    let mut p = ParserHelper::new(&[1, 2, 3, 4]);
    p.advance(1);
    assert_eq!(p.advance_or(2, 7u8), Ok(()));
    assert_eq!(p.position(), 3);
    assert_eq!(p.advance_or(2, 7u8), Err(Error { position: 3, reason: Reason::Other(7u8) }));
    assert_eq!(p.position(), 3);
    assert_eq!(p.advance_or(1, 7u8), Ok(()));
    assert_eq!(p.position(), 4);
}

#[test]
fn expect_consumes_and_pins_the_error() {
    let mut p = ParserHelper::new(b"ab");
    assert_eq!(p.expect(b'a', "no a"), Ok(()));
    assert_eq!(p.expect(b'x', "no x"), Err(Error::new(1, "no x")));
    assert_eq!(p.position(), 2);
    assert_eq!(p.expect(b'x', "no x"), Err(Error::unexpected_end_of_input(2)));
}

#[test]
fn expect_pred_uses_the_predicate() {
    let mut p = ParserHelper::new(b"1a");
    assert_eq!(p.expect_pred(is_digit, ()), Ok(()));
    assert_eq!(p.expect_pred(is_digit, ()), Err(Error::new(1, ())));
}

#[test]
fn expect_bytes_stays_on_failure() {
    let mut p = ParserHelper::new(b"true");
    assert_eq!(p.expect_bytes(b"tru3", 1u8), Err(Error::new(0, 1u8)));
    assert_eq!(p.position(), 0);
    assert_eq!(p.expect_bytes(b"true", 1u8), Ok(()));
    assert_eq!(p.position(), 4);
}

#[test]
fn skip_stops_at_the_first_other_byte() {
    let mut p = ParserHelper::new(b"12_3x4");
    p.skip(is_digit_or_underscore);
    assert_eq!(p.position(), 4);
    p.skip(is_digit_or_underscore);
    assert_eq!(p.position(), 4);
    let mut q = ParserHelper::new(b"123");
    q.skip(is_digit);
    assert_eq!(q.position(), 3);
}

#[test]
fn whitespace_helpers() {
    let mut p = ParserHelper::new(b" \t\r\n x");
    p.skip_ws();
    assert_eq!(p.position(), 5);
    let mut p = ParserHelper::new(b"  :");
    assert_eq!(p.peek_ws::<u8>(), Ok(b':'));
    assert_eq!(p.position(), 2);
    let mut p = ParserHelper::new(b"  :");
    assert_eq!(p.expect_ws(b':', 0u8), Ok(()));
    assert_eq!(p.position(), 3);
    let mut p = ParserHelper::new(b"  ;");
    assert_eq!(p.expect_ws(b':', 0u8), Err(Error::new(2, 0u8)));
}

#[test]
fn fail_helpers_carry_the_position() {
    let mut p = ParserHelper::new(b"abc");
    p.advance(2);
    assert_eq!(p.fail::<(), u8>(9), Err(Error { position: 2, reason: Reason::Other(9) }));
    assert_eq!(p.fail_at_position::<(), u8>(9, 0), Err(Error::new(0, 9)));
    assert_eq!(p.unexpected_end_of_input::<(), u8>(), Err(Error::unexpected_end_of_input(2)));
}

#[test]
fn byte_classes() {
    for b in 0u8..=255 {
        assert_eq!(is_ws(b), b == 0x09 || b == 0x0A || b == 0x0D || b == 0x20);
        assert_eq!(is_digit(b), b.is_ascii_digit());
        assert_eq!(is_hex_digit(b), b.is_ascii_hexdigit());
        assert_eq!(is_binary_digit(b), b == b'0' || b == b'1');
        assert_eq!(is_digit_or_underscore(b), b == b'_' || b.is_ascii_digit());
        assert_eq!(is_hex_digit_or_underscore(b), b == b'_' || b.is_ascii_hexdigit());
        assert_eq!(is_binary_digit_or_underscore(b), b == b'_' || b == b'0' || b == b'1');
    }
}
