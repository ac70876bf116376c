//! Version-helper and decimal tests: exact parses, exact renderings, and
//! the boundary values of the signed 64-bit parser.

use qvs20::decimal::{i64_to_dec_bytes, parse_i64, u64_to_dec_bytes};
use qvs20::records::{CrateData, VersionData};
use qvs20::utils::{parse_semver, try_parse_semver, version_for_sorting};

#[test]
pub fn parse_semver_reads_three_numbers() {
    assert_eq!(parse_semver("12.99.88alpha"), (12, 99, 88));
    assert_eq!(parse_semver("1.2.3"), (1, 2, 3));
    assert_eq!(parse_semver("0.1.1"), (0, 1, 1));
}

#[test]
pub fn try_parse_semver_decides_the_shape() {
    assert_eq!(try_parse_semver("12.99.88alpha"), Some((12, 99, 88)));
    assert_eq!(try_parse_semver("1.2.3"), Some((1, 2, 3)));
    assert_eq!(try_parse_semver(""), None);
    assert_eq!(try_parse_semver("abc"), None);
    assert_eq!(try_parse_semver("1.2"), None);
    assert_eq!(try_parse_semver("1..2"), None);
    assert_eq!(try_parse_semver("1.2.x"), None);
    assert_eq!(try_parse_semver("99999999999999999999.1.1"), None);
    assert_eq!(try_parse_semver("č.2.3"), None);
}

#[test]
pub fn version_for_sorting_pads_to_nine_digits() {
    assert_eq!(
        version_for_sorting("12.99.88alpha"),
        "000000012.000000099.000000088"
    );
    assert_eq!(version_for_sorting("1.2.3"), "000000001.000000002.000000003");
    assert_eq!(
        version_for_sorting("1234567890.2.3"),
        "1234567890.000000002.000000003"
    );
}

#[test]
pub fn decimal_formatting_is_exact() {
    assert_eq!(u64_to_dec_bytes(0), b"0".to_vec());
    assert_eq!(u64_to_dec_bytes(10), b"10".to_vec());
    assert_eq!(u64_to_dec_bytes(18446744073709551615), b"18446744073709551615".to_vec());
    assert_eq!(i64_to_dec_bytes(-42), b"-42".to_vec());
    assert_eq!(i64_to_dec_bytes(0), b"0".to_vec());
    assert_eq!(i64_to_dec_bytes(i64::MIN), b"-9223372036854775808".to_vec());
    assert_eq!(i64_to_dec_bytes(i64::MAX), b"9223372036854775807".to_vec());
}

#[test]
pub fn parse_i64_accepts_exactly_signed_decimals() {
    assert_eq!(parse_i64(b"123"), Some(123));
    assert_eq!(parse_i64(b"-123"), Some(-123));
    assert_eq!(parse_i64(b"0012"), Some(12));
    assert_eq!(parse_i64(b"-0"), Some(0));
    assert_eq!(parse_i64(b"9223372036854775807"), Some(i64::MAX));
    assert_eq!(parse_i64(b"-9223372036854775808"), Some(i64::MIN));
    assert_eq!(parse_i64(b"9223372036854775808"), None);
    assert_eq!(parse_i64(b"-9223372036854775809"), None);
    assert_eq!(parse_i64(b"12x"), None);
    assert_eq!(parse_i64(b""), None);
    assert_eq!(parse_i64(b"-"), None);
    assert_eq!(parse_i64(b"+5"), None);
}

#[test]
pub fn record_defaults_are_empty() {
    let c = CrateData::default();
    assert_eq!(c.name, "");
    assert_eq!(c.id, "");
    let v = VersionData::default();
    assert_eq!(v.crate_id, "");
    assert_eq!(v.version_for_sorting, None);
}
