//! Tests of decimal rendering and the byte-wise string order.

use limitador::text::{bytes_cmp, str_cmp, u64_to_string};

#[test]
fn renders_decimals_exactly() {
    assert_eq!(u64_to_string(0), "0");
    assert_eq!(u64_to_string(7), "7");
    assert_eq!(u64_to_string(60), "60");
    assert_eq!(u64_to_string(12345), "12345");
    assert_eq!(u64_to_string(u64::MAX), "18446744073709551615");
}

#[test]
fn byte_order_is_lexicographic() {
    assert!(bytes_cmp(b"abc", b"abd") < 0);
    assert!(bytes_cmp(b"abc", b"abc") == 0);
    assert!(bytes_cmp(b"abcd", b"abc") > 0);
    assert!(bytes_cmp(b"", b"a") < 0);
    assert!(str_cmp("alpha", "zulu") < 0);
    assert!(str_cmp("mike", "mike") == 0);
    assert!(str_cmp("zulu", "alpha") > 0);
}
