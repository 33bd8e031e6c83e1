//! Decimal rendering and the lexicographic string order.
use slde::strutil::chars_lt;
use slde::strutil::string_lt;
use slde::strutil::u64_to_dec;

#[test]
fn renders_decimals_without_leading_zeros() {
    assert_eq!(u64_to_dec(0), "0");
    assert_eq!(u64_to_dec(7), "7");
    assert_eq!(u64_to_dec(10), "10");
    assert_eq!(u64_to_dec(12345), "12345");
    assert_eq!(u64_to_dec(u64::MAX), "18446744073709551615");
}

#[test]
fn orders_strings_by_code_point() {
    assert!(string_lt(&String::from("1"), &String::from("2")));
    assert!(!string_lt(&String::from("2"), &String::from("1")));
    assert!(!string_lt(&String::from("2"), &String::from("2")));
    assert!(string_lt(&String::from("ab"), &String::from("b")));
    assert!(string_lt(&String::from("a"), &String::from("ab")));
    assert!(string_lt(&String::from(""), &String::from("a")));
    assert!(!string_lt(&String::from("a"), &String::from("")));
}

#[test]
fn orders_character_vectors_like_strings() {
    let a: Vec<char> = vec!['m', 'i', 'l', 'k'];
    let b: Vec<char> = vec!['m', 'i', 'l', 'k', 's'];
    assert!(chars_lt(&a, &b));
    assert!(!chars_lt(&b, &a));
    assert!(!chars_lt(&a, &a));
}
