use oh_my_harness::text::{decimal_string, replace_all, str_lt};

#[test]
fn replace_all_matches_str_replace() {
    let cases = [
        ("no skills/ directory found in /tmp/omh-clone-1", "/tmp/omh-clone-1", "https://x/y.git"),
        ("aaaa", "aa", "b"),
        ("abc", "", "X"),
        ("", "", "X"),
        ("", "a", "X"),
        ("abcabc", "bc", ""),
        ("aXb", "X", ""),
        ("héllo wörld", "ö", "o"),
    ];
    for (s, from, to) in cases {
        assert_eq!(replace_all(s, from, to), s.replace(from, to), "{s:?} {from:?} {to:?}");
    }
}

#[test]
fn replace_with_empty_pattern_surrounds_every_char() {
    assert_eq!(replace_all("abc", "", "X"), "XaXbXcX");
}

#[test]
fn str_lt_orders_like_str() {
    let words = ["", "a", "b", "ab", "abc", "kick-off", "wrap-up", "Z", "é", "e"];
    for a in words {
        for b in words {
            assert_eq!(str_lt(a, b), a < b, "{a:?} {b:?}");
        }
    }
}

#[test]
fn decimal_string_matches_format() {
    for n in [0u32, 7, 9, 10, 42, 100, 4021, 65535, u32::MAX] {
        assert_eq!(decimal_string(n), format!("{n}"));
    }
}
