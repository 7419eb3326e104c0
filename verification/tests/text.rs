use data::text::{hex2, hex4, str_concat, str_eq, str_leq};

#[test]
fn hex4_pads_to_four_digits_and_grows_past_them() {
    assert_eq!(hex4(0x0), "0000");
    assert_eq!(hex4(0x41), "0041");
    assert_eq!(hex4(0x5170), "5170");
    assert_eq!(hex4(0xABCDE), "ABCDE");
    assert_eq!(hex4(0x10FFFF), "10FFFF");
}

#[test]
fn hex2_pads_to_two_digits() {
    assert_eq!(hex2(0x0), "00");
    assert_eq!(hex2(0x7), "07");
    assert_eq!(hex2(0x81), "81");
    assert_eq!(hex2(0xFF), "FF");
}

#[test]
fn string_comparisons() {
    assert!(str_eq("abc", "abc"));
    assert!(!str_eq("abc", "abd"));
    assert!(str_leq("abc", "abd"));
    assert!(str_leq("abc", "abc"));
    assert!(str_leq("ab", "abc"));
    assert!(!str_leq("abd", "abc"));
    assert!(!str_leq("b", "a"));
    assert!(str_leq("", "a"));
}

#[test]
fn concatenation() {
    assert_eq!(str_concat("CJK UNIFIED IDEOGRAPH-", "5170"), "CJK UNIFIED IDEOGRAPH-5170");
}
