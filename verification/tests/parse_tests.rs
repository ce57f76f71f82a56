use coinbot::parse::{parse_amount, parse_command, parse_u64, second_token, str_eq};

#[test]
fn parse_command_cases() {
    assert_eq!(parse_command("!gamble 100"), Some("!gamble"));
    assert_eq!(parse_command("!gamble"), Some("!gamble"));
    assert_eq!(parse_command("gamble 100"), None);
    assert_eq!(parse_command(""), None);
    assert_eq!(parse_command("!"), Some("!"));
    assert_eq!(parse_command("! gamble"), Some("!"));
    // the keyword is split on the space character alone
    assert_eq!(parse_command("!gamble\t100"), Some("!gamble\t100"));
}

#[test]
fn parse_u64_cases() {
    assert_eq!(parse_u64("123"), Some(123));
    assert_eq!(parse_u64("0"), Some(0));
    assert_eq!(parse_u64("0012"), Some(12));
    assert_eq!(parse_u64("+5"), Some(5));
    assert_eq!(parse_u64(""), None);
    assert_eq!(parse_u64("+"), None);
    assert_eq!(parse_u64("-3"), None);
    assert_eq!(parse_u64("12a"), None);
    assert_eq!(parse_u64(" 12"), None);
    assert_eq!(parse_u64("18446744073709551615"), Some(u64::MAX));
    assert_eq!(parse_u64("18446744073709551616"), None);
    assert_eq!(parse_u64("99999999999999999999999999"), None);
}

#[test]
fn second_token_cases() {
    assert_eq!(second_token("!gamble 100"), Some("100"));
    assert_eq!(second_token("!gamble"), None);
    assert_eq!(second_token("!gamble   42  x"), Some("42"));
    assert_eq!(second_token("  lead 7"), Some("7"));
    assert_eq!(second_token("!gamble\t99"), Some("99"));
    assert_eq!(second_token("   "), None);
    assert_eq!(second_token(""), None);
}

#[test]
fn tokens_split_on_unicode_whitespace() {
    // the separators are exactly what char::is_whitespace accepts
    assert_eq!(second_token("!gamble\u{b}100"), Some("100"));
    assert_eq!(second_token("!gamble\u{a0}100"), Some("100"));
    assert_eq!(second_token("!gamble\u{2003}100\u{3000}x"), Some("100"));
    for c in ["\u{b}", "\u{85}", "\u{a0}", "\u{1680}", "\u{2000}", "\u{200a}", "\u{2028}", "\u{2029}", "\u{202f}", "\u{205f}", "\u{3000}"] {
        assert!(c.chars().all(char::is_whitespace), "sanity: {c:?}");
        let msg = format!("!gamble{c}77");
        assert_eq!(second_token(&msg), Some("77"), "separator {c:?}");
    }
    // a character outside the set does not separate
    assert_eq!(second_token("!gamble\u{200b}100"), None);
}

#[test]
fn parse_amount_cases() {
    assert_eq!(parse_amount("!gamble 100"), Some(100));
    assert_eq!(parse_amount("!gamble +7 tail"), Some(7));
    assert_eq!(parse_amount("!gamble ten"), None);
    assert_eq!(parse_amount("!gamble"), None);
}

#[test]
fn str_eq_cases() {
    assert!(str_eq("", ""));
    assert!(str_eq("abc", "abc"));
    assert!(!str_eq("abc", "abd"));
    assert!(!str_eq("abc", "ab"));
    assert!(str_eq("Just_Robbe_", "Just_Robbe_"));
    assert!(!str_eq("just_robbe_", "Just_robbe_"));
}
