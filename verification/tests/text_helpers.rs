use nft_rarity::text::{
    chars_of, find_in, find_pattern_in, push_decimal, remove_quotes, replace_chars, string_of,
};

fn v(s: &str) -> Vec<char> {
    s.chars().collect()
}

#[test]
fn chars_and_strings() {
    let c = chars_of("héllo");
    assert_eq!(c, vec!['h', 'é', 'l', 'l', 'o']);
    assert_eq!(string_of(&c, 1, 4), "éll".to_string());
    assert_eq!(string_of(&c, 2, 2), String::new());
}

#[test]
fn find_gives_offset_or_zero() {
    let c = v("ab,cd,e");
    assert_eq!(find_in(&c, 0, 7, ','), 2);
    assert_eq!(find_in(&c, 3, 7, ','), 2);
    assert_eq!(find_in(&c, 6, 7, ','), 0);
    assert_eq!(find_in(&c, 2, 7, ','), 0);
}

#[test]
fn find_pattern_gives_offset_or_zero() {
    let c = v("xx record { 1 : y");
    let p = v("record { 1 :");
    assert_eq!(find_pattern_in(&c, 0, c.len(), &p), 3);
    assert_eq!(find_pattern_in(&c, 3, c.len(), &p), 0);
    assert_eq!(find_pattern_in(&c, 4, c.len(), &p), 0);
}

#[test]
fn replace_is_left_to_right_and_non_overlapping() {
    let out = replace_chars(&v("aaaa-aa"), &v("aa"), &v("b"));
    assert_eq!(out, v("bb-b"));
    let out = replace_chars(&v("aaa"), &v("aa"), &v(""));
    assert_eq!(out, v("a"));
}

#[test]
fn quotes_are_dropped() {
    assert_eq!(remove_quotes(&v("\"a\":\"b\"")), v("a:b"));
}

#[test]
fn decimal_writing() {
    let mut out = v("n=");
    push_decimal(&mut out, 0);
    assert_eq!(out, v("n=0"));
    let mut out = Vec::new();
    push_decimal(&mut out, 18446744073709551615);
    assert_eq!(out, v("18446744073709551615"));
    let mut out = Vec::new();
    push_decimal(&mut out, 1000);
    assert_eq!(out, v("1000"));
}
