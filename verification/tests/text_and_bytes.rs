use nebula::bytes::{u32_from_be_bytes, u64_to_be_bytes};
use nebula::credentials_authenticator::hash_username_and_password;
use nebula::text::{join_strings, parse_u64, u64_to_decimal};

#[test]
fn decimal_writes_digits() {
    assert_eq!(u64_to_decimal(0), "0");
    assert_eq!(u64_to_decimal(9), "9");
    assert_eq!(u64_to_decimal(10), "10");
    assert_eq!(u64_to_decimal(1687249040004), "1687249040004");
    assert_eq!(u64_to_decimal(u64::MAX), u64::MAX.to_string());
}

#[test]
fn parse_reads_like_std() {
    for text in ["0", "42", "+7", "", "+", "-1", "12a", "18446744073709551615", "18446744073709551616", "007", " 1"] {
        assert_eq!(parse_u64(text), text.parse::<u64>().ok(), "{text}");
    }
}

#[test]
fn decimal_parses_back() {
    for n in [0u64, 1, 99, 100, 123456789, u64::MAX] {
        assert_eq!(parse_u64(&u64_to_decimal(n)), Some(n));
    }
}

#[test]
fn big_endian_bytes() {
    assert_eq!(u64_to_be_bytes(0x0102030405060708), vec![1, 2, 3, 4, 5, 6, 7, 8]);
    assert_eq!(u64_to_be_bytes(7), 7u64.to_be_bytes().to_vec());
    assert_eq!(u32_from_be_bytes([0, 0, 1, 2]), 258);
    assert_eq!(u32_from_be_bytes([255, 255, 255, 255]), u32::MAX);
}

#[test]
fn join_strings_like_std() {
    let parts = vec!["a".to_owned(), "bc".to_owned(), "".to_owned()];
    assert_eq!(join_strings(&parts, ", "), parts.join(", "));
    assert_eq!(join_strings(&Vec::new(), ", "), "");
}

#[test]
fn hashing_credentials_does_nothing_yet() {
    hash_username_and_password("user".to_owned(), "password".to_owned());
}
