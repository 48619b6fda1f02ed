use pulse::text::{
    chars_le_exec, chars_of, contains_chars, push_decimal, starts_with_chars, string_of,
    to_ascii_lower, trim,
};

#[test]
fn trim_removes_unicode_whitespace() {
    assert_eq!(trim("\t  a b \n"), "a b");
    assert_eq!(trim("\u{3000}x\u{00A0}"), "x");
    assert_eq!(trim("   "), "");
    assert_eq!(trim("inner  space"), "inner  space");
}

#[test]
fn ascii_lowercase_only_touches_ascii() {
    let l = to_ascii_lower(&chars_of("Wi-FI ÄB"));
    assert_eq!(string_of(&l), "wi-fi Äb");
}

#[test]
fn substring_search() {
    let hay = chars_of("vethernet (default switch)");
    assert!(contains_chars(&hay, &chars_of("ethernet")));
    assert!(contains_chars(&hay, &chars_of("")));
    assert!(!contains_chars(&hay, &chars_of("wifi")));
    assert!(starts_with_chars(&hay, &chars_of("veth")));
    assert!(!starts_with_chars(&hay, &chars_of("eth")));
}

#[test]
fn decimal_digits() {
    let mut s = String::from("n=");
    push_decimal(&mut s, 0);
    push_decimal(&mut s, 1234567890);
    assert_eq!(s, "n=01234567890");
    let mut m = String::new();
    push_decimal(&mut m, u64::MAX);
    assert_eq!(m, u64::MAX.to_string());
}

#[test]
fn code_point_order() {
    let cases = ["", "a", "ab", "b", "B", "Ä", "aa"];
    for x in cases {
        for y in cases {
            assert_eq!(chars_le_exec(&chars_of(x), &chars_of(y)), x <= y, "{x} {y}");
        }
    }
}

#[test]
fn decimal_of_zero_and_powers_of_ten() {
    for n in [0u64, 1, 9, 10, 99, 100, 1_000_000] {
        let mut s = String::new();
        push_decimal(&mut s, n);
        assert_eq!(s, n.to_string());
    }
}
