use chrometester::order::key_is_less;
use chrometester::text::{
    ends_with, parse_u64, split, starts_with, str_eq, trim, trim_end_matches, trim_start_matches,
    u64_to_string,
};

#[test]
fn trim_takes_white_space_off_both_ends() {
    assert_eq!(trim("  a b\t\r\n"), "a b");
    assert_eq!(trim("\u{3000}\u{a0}\u{2003}x\u{85}\u{2029}"), "x");
    assert_eq!(trim(" \n "), "");
    assert_eq!(trim(""), "");
    assert_eq!(trim("\u{200b}x"), "\u{200b}x");
}

#[test]
fn trimming_twice_is_trimming_once() {
    for s in ["", " ", " a ", "\u{3000}中 文\n", "a"] {
        let once = trim(s);
        assert_eq!(trim(&once), once);
    }
}

#[test]
fn one_character_is_taken_off_one_end() {
    assert_eq!(trim_end_matches("118.0.1//", '/'), "118.0.1");
    assert_eq!(trim_end_matches("/a/", '/'), "/a");
    assert_eq!(trim_end_matches("///", '/'), "");
    assert_eq!(trim_start_matches("vv1.2v", 'v'), "1.2v");
    assert_eq!(trim_start_matches("1.2", 'v'), "1.2");
}

#[test]
fn split_gives_the_pieces_between_separators() {
    assert_eq!(split("a.b.c", '.'), vec!["a", "b", "c"]);
    assert_eq!(split("", '.'), vec![""]);
    assert_eq!(split(".", '.'), vec!["", ""]);
    assert_eq!(split("a..b", '.'), vec!["a", "", "b"]);
}

#[test]
fn numbers_are_read() {
    assert_eq!(parse_u64("0"), Some(0));
    assert_eq!(parse_u64("00012"), Some(12));
    assert_eq!(parse_u64("+5"), Some(5));
    assert_eq!(parse_u64("18446744073709551615"), Some(u64::MAX));
    assert_eq!(parse_u64("18446744073709551616"), None);
    assert_eq!(parse_u64("99999999999999999999999"), None);
    assert_eq!(parse_u64(""), None);
    assert_eq!(parse_u64("+"), None);
    assert_eq!(parse_u64("-1"), None);
    assert_eq!(parse_u64("1a"), None);
    assert_eq!(parse_u64("++1"), None);
}

#[test]
fn numbers_are_written_and_read_back() {
    assert_eq!(u64_to_string(0), "0");
    assert_eq!(u64_to_string(1084008), "1084008");
    for n in [0, 9, 10, 99, 100, 1084008, u64::MAX] {
        assert_eq!(parse_u64(&u64_to_string(n)), Some(n));
    }
}

#[test]
fn beginnings_and_ends() {
    assert!(starts_with("https://github.com/x", "https://github.com/"));
    assert!(!starts_with("https", "https://github.com/"));
    assert!(starts_with("abc", ""));
    assert!(ends_with("Win/1/chrome-win.zip", "chrome-win.zip"));
    assert!(!ends_with("chrome-win.zip.1", "chrome-win.zip"));
    assert!(!ends_with("zip", "chrome-win.zip"));
    assert!(str_eq("中文", "中文"));
    assert!(!str_eq("a", "A"));
}

#[test]
fn keys_are_ordered_like_words() {
    assert!(key_is_less(&vec![113, 0], &vec![114]));
    assert!(!key_is_less(&vec![114], &vec![113, 0]));
    assert!(key_is_less(&vec![1], &vec![1, 0]));
    assert!(!key_is_less(&vec![1, 0], &vec![1]));
    assert!(key_is_less(&vec![], &vec![0]));
    assert!(!key_is_less(&vec![], &vec![]));
}

#[test]
fn of_two_different_keys_one_is_less() {
    let keys = [vec![], vec![0], vec![0, 1], vec![1], vec![1, 0], vec![2]];
    for (i, a) in keys.iter().enumerate() {
        for (j, b) in keys.iter().enumerate() {
            assert_eq!(key_is_less(a, b), i < j);
        }
    }
}
