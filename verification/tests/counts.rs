use game2048::cli::{parse_argument, parse_count, CountError};

#[test]
fn counts_are_read_in_decimal() {
    assert_eq!(parse_count(b"0"), Ok(0));
    assert_eq!(parse_count(b"10"), Ok(10));
    assert_eq!(parse_count(b"+25"), Ok(25));
    assert_eq!(parse_count(b"007"), Ok(7));
}

#[test]
fn malformed_counts_are_refused_like_the_standard_parser() {
    for text in ["", "+", "-", "-5", "1a", "a1", " 5", "5 ", "+-1"] {
        let expected = text.parse::<usize>().map_err(|e| e.to_string());
        let got = parse_count(text.as_bytes()).map_err(|e| e.message().to_string());
        assert_eq!(got, expected, "text {text:?}");
    }
    assert_eq!(parse_count(b""), Err(CountError::Empty));
    assert_eq!(parse_count(b"+"), Err(CountError::InvalidDigit));
    assert_eq!(parse_count(b"12x"), Err(CountError::InvalidDigit));
}

#[test]
fn counts_past_usize_overflow() {
    let too_big = format!("{}0", usize::MAX);
    assert_eq!(parse_count(too_big.as_bytes()), Err(CountError::PosOverflow));
    let max = usize::MAX.to_string();
    assert_eq!(parse_count(max.as_bytes()), Ok(usize::MAX));
    // A bad digit after the overflow point is not reached.
    let overflow_then_letter = format!("{}0x", usize::MAX);
    assert_eq!(parse_count(overflow_then_letter.as_bytes()), Err(CountError::PosOverflow));
    assert_eq!(
        overflow_then_letter.parse::<usize>().map_err(|e| e.to_string()),
        Err(CountError::PosOverflow.message().to_string())
    );
}

#[test]
fn a_missing_argument_gives_the_default() {
    assert_eq!(parse_argument(None, 10), Ok(10));
    assert_eq!(parse_argument(Some(b"3"), 10), Ok(3));
    assert_eq!(parse_argument(Some(b"x"), 10), Err(CountError::InvalidDigit));
}
