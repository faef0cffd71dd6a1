use route_optimizer::text::{
    decimal_string, parse_u64, remove_char, split, str_eq, trim, white_space,
};
use route_optimizer::trace::{base, string};

#[test]
fn decimal_string_writes_digits() {
    assert_eq!(decimal_string(0), "0");
    assert_eq!(decimal_string(7), "7");
    assert_eq!(decimal_string(1234567), "1234567");
    assert_eq!(decimal_string(u128::MAX), u128::MAX.to_string());
}

#[test]
fn split_keeps_empty_pieces() {
    assert_eq!(split("a,b,,c", ','), vec!["a", "b", "", "c"]);
    assert_eq!(split("", ','), vec![""]);
    assert_eq!(split("jita", ','), vec!["jita"]);
    assert_eq!(split(",", ','), vec!["", ""]);
}

#[test]
fn trim_removes_unicode_white_space() {
    assert_eq!(trim("  12 \n"), "12");
    assert_eq!(trim("\u{3000}a b\u{a0}"), "a b");
    assert_eq!(trim("   "), "");
    assert!(white_space('\u{2028}'));
    assert!(!white_space('x'));
}

#[test]
fn remove_char_drops_every_occurrence() {
    assert_eq!(remove_char("1.234.567", '.'), "1234567");
    assert_eq!(remove_char("...", '.'), "");
    assert_eq!(remove_char("abc", '.'), "abc");
}

#[test]
fn parse_u64_follows_std() {
    for s in ["0", "42", "+42", "007", "18446744073709551615"] {
        assert_eq!(parse_u64(s), s.parse::<u64>().ok());
    }
    for s in ["", "+", "-1", " 1", "1 ", "18446744073709551616", "1a", "99999999999999999999999"] {
        assert_eq!(parse_u64(s), None);
        assert!(s.parse::<u64>().is_err());
    }
}

#[test]
fn str_eq_compares_characters() {
    assert!(str_eq("abc", "abc"));
    assert!(!str_eq("abc", "abd"));
    assert!(!str_eq("abc", "ab"));
}

#[test]
fn labels_are_painted_with_their_colours() {
    assert_eq!(base::ok("done"), "\u{1b}[38;5;70m[  O K  ]\u{1b}[0m done");
    assert_eq!(base::error("bad"), "\u{1b}[38;5;160m[  ERR  ]\u{1b}[0m bad");
    assert_eq!(base::info("x"), "\u{1b}[38;5;39m[  INF  ]\u{1b}[0m x");
    assert_eq!(base::debug(""), "\u{1b}[38;5;190m[  DBG  ]\u{1b}[0m ");
    assert_eq!(base::warn("w"), "\u{1b}[38;5;199m[  WRN  ]\u{1b}[0m w");
}

#[test]
fn string_labels_match_base_labels() {
    assert_eq!(string::ok("m"), base::ok("m"));
    assert_eq!(string::error("m"), base::error("m"));
    assert_eq!(string::info("m"), base::info("m"));
    assert_eq!(string::debug("m"), base::debug("m"));
    assert_eq!(string::warn("m"), base::warn("m"));
}
