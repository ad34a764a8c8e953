use event_xml_exporter::text::{
    contains_text, decimal_string, join_decimals, join_strings, parse_u32, parse_usize, str_less,
    trim_string, insert_sorted,
};

#[test]
fn decimal_rendering() {
    assert_eq!(decimal_string(0), "0");
    assert_eq!(decimal_string(7), "7");
    assert_eq!(decimal_string(41), "41");
    assert_eq!(decimal_string(1000), "1000");
    assert_eq!(decimal_string(u128::MAX), u128::MAX.to_string());
}

#[test]
fn decimal_then_parse_gives_the_number_back() {
    for n in [1usize, 9, 10, 250, 65535, 1_000_000, usize::MAX] {
        assert_eq!(parse_usize(&decimal_string(n as u128)), Some(n));
    }
}

#[test]
fn parsing_follows_std_rules() {
    assert_eq!(parse_usize("42"), Some(42));
    assert_eq!(parse_usize("+42"), Some(42));
    assert_eq!(parse_usize("007"), Some(7));
    assert_eq!(parse_usize(""), None);
    assert_eq!(parse_usize("+"), None);
    assert_eq!(parse_usize("-1"), None);
    assert_eq!(parse_usize(" 1"), None);
    assert_eq!(parse_usize("1a"), None);
    assert_eq!(parse_u32("4294967295"), Some(u32::MAX));
    assert_eq!(parse_u32("4294967296"), None);
    for s in ["", "+", "12", "+12", "-3", "99999999999", "3x"] {
        assert_eq!(parse_u32(s), s.parse::<u32>().ok());
        assert_eq!(parse_usize(s), s.parse::<usize>().ok());
    }
}

#[test]
fn trimming_follows_std_rules() {
    for s in ["", "  ", " a ", "\t\nx y\r\n", "\u{3000}ğ\u{a0}", "abc"] {
        assert_eq!(trim_string(s), s.trim());
    }
}

#[test]
fn substring_search() {
    assert!(contains_text("Tarama kullanıcı tarafından iptal edildi", "iptal edildi"));
    assert!(contains_text("abc", ""));
    assert!(!contains_text("iptal", "iptal edildi"));
    assert!(!contains_text("", "a"));
}

#[test]
fn joining() {
    assert_eq!(join_decimals(&vec![41, 55], ","), "41,55");
    assert_eq!(join_decimals(&vec![], ","), "");
    assert_eq!(join_strings(&vec!["a".to_owned(), "b".to_owned(), "c".to_owned()], ", "), "a, b, c");
    assert_eq!(join_strings(&vec!["solo".to_owned()], " | "), "solo");
}

#[test]
fn lexicographic_order_matches_string_order() {
    let words = ["", "a", "ab", "b", "Z", "ğ", "g", "ab\u{0}"];
    for a in words {
        for b in words {
            assert_eq!(str_less(a, b), a < b, "{a:?} < {b:?}");
        }
    }
}

#[test]
fn sorted_insertion_keeps_a_set() {
    let mut v: Vec<String> = Vec::new();
    for w in ["LAB-PC", "ALPHA", "LAB-PC", "zeta", "ALPHA"] {
        insert_sorted(&mut v, w.to_owned());
    }
    assert_eq!(v, vec!["ALPHA", "LAB-PC", "zeta"]);
}
