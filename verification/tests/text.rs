use laurent::parse_u32;
use laurent::str_eq;
use laurent::u32_string;
use laurent::Error;

#[test]
fn parse_u32_reads_plain_digits() {
    assert_eq!(parse_u32("0"), Ok(0));
    assert_eq!(parse_u32("7"), Ok(7));
    assert_eq!(parse_u32("123"), Ok(123));
    assert_eq!(parse_u32("0042"), Ok(42));
    assert_eq!(parse_u32("4294967295"), Ok(u32::MAX));
}

#[test]
fn parse_u32_accepts_a_leading_plus() {
    assert_eq!(parse_u32("+5"), Ok(5));
    assert_eq!(parse_u32("+"), Err(Error::ParseInt));
}

#[test]
fn parse_u32_rejects_malformed_text() {
    assert_eq!(parse_u32(""), Err(Error::ParseInt));
    assert_eq!(parse_u32("12a"), Err(Error::ParseInt));
    assert_eq!(parse_u32("-1"), Err(Error::ParseInt));
    assert_eq!(parse_u32(" 1"), Err(Error::ParseInt));
}

#[test]
fn parse_u32_rejects_overflow_exactly_at_the_boundary() {
    assert_eq!(parse_u32("4294967296"), Err(Error::ParseInt));
    assert_eq!(parse_u32("99999999999"), Err(Error::ParseInt));
}

#[test]
fn u32_string_renders_decimal() {
    assert_eq!(u32_string(0), "0");
    assert_eq!(u32_string(9), "9");
    assert_eq!(u32_string(10), "10");
    assert_eq!(u32_string(1024), "1024");
    assert_eq!(u32_string(u32::MAX), "4294967295");
}

#[test]
fn u32_string_round_trips_through_parse() {
    for n in [0, 1, 9, 10, 99, 100, 12345, u32::MAX] {
        assert_eq!(parse_u32(u32_string(n).as_str()), Ok(n));
    }
}

#[test]
fn str_eq_compares_by_characters() {
    assert!(str_eq("", ""));
    assert!(str_eq("#OK", "#OK"));
    assert!(!str_eq("#OK", "#ERR"));
    assert!(!str_eq("a", "ab"));
}
