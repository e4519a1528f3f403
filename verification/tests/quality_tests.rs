use fastq_filter::quality::get_quality_value;
use fastq_filter::quality::parse_decimal;
use fastq_filter::quality::Decimal;

const ONE: i128 = 1_000_000_000_000_000_000;

fn parsed(token: &str) -> i128 {
    parse_decimal(token.as_bytes())
        .unwrap_or_else(|_| panic!("token {:?} should parse", token))
        .scaled
}

#[test]
fn parses_plain_integers() {
    assert_eq!(parsed("7"), 7 * ONE);
    assert_eq!(parsed("0"), 0);
    assert_eq!(parsed("93"), 93 * ONE);
}

#[test]
fn parses_fractions() {
    assert_eq!(parsed("93.5"), 93 * ONE + ONE / 2);
    assert_eq!(parsed("7.0"), 7 * ONE);
    assert_eq!(parsed("0.25"), ONE / 4);
    assert_eq!(parsed("1."), ONE);
    assert_eq!(parsed(".5"), ONE / 2);
}

#[test]
fn parses_signs() {
    assert_eq!(parsed("-1.5"), -(ONE + ONE / 2));
    assert_eq!(parsed("+3"), 3 * ONE);
    assert_eq!(parsed("-0.0"), 0);
}

#[test]
fn rejects_non_numeric_tokens() {
    assert!(parse_decimal(b"here").is_err());
    assert!(parse_decimal(b"").is_err());
    assert!(parse_decimal(b".").is_err());
    assert!(parse_decimal(b"-").is_err());
    assert!(parse_decimal(b"1e3").is_err());
    assert!(parse_decimal(b"inf").is_err());
    assert!(parse_decimal(b"NaN").is_err());
    assert!(parse_decimal(b"1.2.3").is_err());
    assert!(parse_decimal(b"1 2").is_err());
}

#[test]
fn digit_count_is_capped_at_eighteen() {
    assert_eq!(parsed("999999999999999999"), 999_999_999_999_999_999 * ONE);
    assert!(parse_decimal(b"9999999999999999999").is_err());
    assert_eq!(parsed(".000000000000000001"), 1);
    // The cap counts every digit written, a leading zero too.
    assert!(parse_decimal(b"0.000000000000000001").is_err());
}

#[test]
fn header_quality_comes_from_last_underscore_token() {
    assert_eq!(get_quality_value(b"@read1_xyz_93.5").unwrap().scaled, 93 * ONE + ONE / 2);
    assert_eq!(get_quality_value(b"@r_50").unwrap().scaled, 50 * ONE);
    // The whole header is the token when it has no underscore.
    assert_eq!(get_quality_value(b"12.5").unwrap().scaled, 12 * ONE + ONE / 2);
    assert!(get_quality_value(b"@read1").is_err());
}

// A malformed header still parses its trailing token; a non-numeric one is
// rejected, a numeric one — even negative — is accepted.
#[test]
fn malformed_header_trailing_token() {
    assert!(get_quality_value(b"no_underscore_here").is_err());
    assert_eq!(get_quality_value(b"read_-1.5").unwrap().scaled, -(ONE + ONE / 2));
}

#[test]
fn whitespace_after_the_numeric_token_is_tolerated() {
    assert_eq!(get_quality_value(b"@a_93.5 length=200").unwrap().scaled, 93 * ONE + ONE / 2);
    assert_eq!(get_quality_value(b"@a_ 7 ").unwrap().scaled, 7 * ONE);
    assert!(get_quality_value(b"@a_   ").is_err());
    assert!(get_quality_value(b"@a_").is_err());
}

#[test]
fn decimal_comparison_is_exact() {
    let lo = parse_decimal(b"7.0").unwrap();
    let hi = parse_decimal(b"93.5").unwrap();
    assert!(hi.scaled >= lo.scaled);
    assert!(lo.scaled < hi.scaled);
    assert_eq!(parse_decimal(b"7").unwrap(), parse_decimal(b"7.000").unwrap());
    assert_eq!(Decimal::from_int(-2).scaled, -2 * ONE);
}
