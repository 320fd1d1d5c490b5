use ch32_data::size::{parse_size_str, size_fits_exec};

#[test]
fn size_plain_number() {
    assert_eq!(parse_size_str("2048"), Ok(2048));
    assert_eq!(parse_size_str("  +7 "), Ok(7));
}

#[test]
fn size_with_suffixes() {
    assert_eq!(parse_size_str("16K"), Ok(16 * 1024));
    assert_eq!(parse_size_str("16KB"), Ok(16 * 1024));
    assert_eq!(parse_size_str("16KiB"), Ok(16 * 1024));
    assert_eq!(parse_size_str(" 64 K "), Ok(64 * 1024));
}

#[test]
fn size_errors_carry_the_parse_error() {
    assert_eq!(parse_size_str("abc"), Err("bad size \"abc\": invalid digit found in string".to_string()));
    assert_eq!(parse_size_str(" K"), Err("bad size \"K\": cannot parse integer from empty string".to_string()));
    assert_eq!(
        parse_size_str("99999999999"),
        Err("bad size \"99999999999\": number too large to fit in target type".to_string())
    );
    assert_eq!(parse_size_str("16 M"), Err("bad size \"16 M\": invalid digit found in string".to_string()));
}

#[test]
fn size_fits_guards_the_multiplication() {
    assert!(size_fits_exec("4194303K"));
    assert!(!size_fits_exec("4194304K"));
    assert!(size_fits_exec("x"));
}

#[test]
fn size_parse_errors_follow_the_scan() {
    assert_eq!(parse_size_str("+"), Err("bad size \"+\": invalid digit found in string".to_string()));
    assert_eq!(parse_size_str("-5"), Err("bad size \"-5\": invalid digit found in string".to_string()));
    assert_eq!(
        parse_size_str("99999999999x"),
        Err("bad size \"99999999999x\": number too large to fit in target type".to_string())
    );
    assert_eq!(
        parse_size_str("12x99999999999"),
        Err("bad size \"12x99999999999\": invalid digit found in string".to_string())
    );
}
