use mwi_planner::text::{
    compare_text, decimal_string, escape_slashes, find_last_char, parse_u32, starts_with, strip_prefix_or_keep,
    substring, trim, TextOrder,
};

#[test]
fn decimal_strings_read_back_as_the_same_number() {
    for n in [0u32, 7, 10, 42, 999, 1_000_000, u32::MAX] {
        assert_eq!(decimal_string(n as u64), n.to_string());
        assert_eq!(parse_u32(&decimal_string(n as u64)), Some(n));
    }
    assert_eq!(decimal_string(u64::MAX), u64::MAX.to_string());
}

#[test]
fn parsing_follows_the_standard_library() {
    for text in ["", "+", "-", "0", "+0", "-0", "007", "+12", "1+2", "4294967295", "4294967296", "99999999999", " 1", "١"] {
        assert_eq!(parse_u32(text), text.parse::<u32>().ok(), "input {text:?}");
    }
}

#[test]
fn trimming_follows_the_standard_library() {
    for text in ["", "  ", " a ", "\u{85}x\u{a0}", "\u{200b}y", "\u{2028}z\u{3000}", "é", "a b"] {
        assert_eq!(trim(text), text.trim(), "input {text:?}");
    }
}

#[test]
fn comparison_follows_string_order() {
    let words = ["", "a", "ab", "b", "B", "é", "ÿ", "z", "aa"];
    for left in words {
        for right in words {
            let expected = if left < right {
                TextOrder::Less
            } else if left == right {
                TextOrder::Equal
            } else {
                TextOrder::Greater
            };
            assert_eq!(compare_text(left, right), expected);
        }
    }
}

#[test]
fn prefix_and_substring_helpers() {
    assert!(starts_with("/items/egg", "/items/"));
    assert!(!starts_with("/item", "/items/"));
    assert_eq!(strip_prefix_or_keep("/items/egg", "/items/"), "egg");
    assert_eq!(strip_prefix_or_keep("egg", "/items/"), "egg");
    assert_eq!(substring("héllo", 1, 3), "él");
    assert_eq!(find_last_char("a:b:c", ':'), Some(3));
    assert_eq!(find_last_char("abc", ':'), None);
    assert_eq!(escape_slashes("/a/b"), "%2Fa%2Fb");
}
