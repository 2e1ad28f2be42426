use animstore::text::{is_float_literal_text, parse_i32_text, parse_u32_text, render_dec, str_eq};

#[test]
fn render_dec_exact_values() {
    assert_eq!(render_dec(0), "0");
    assert_eq!(render_dec(7), "7");
    assert_eq!(render_dec(10), "10");
    assert_eq!(render_dec(40000000), "40000000");
    assert_eq!(render_dec(u32::MAX), "4294967295");
}

#[test]
fn parse_u32_exact_values() {
    assert_eq!(parse_u32_text("0"), Some(0));
    assert_eq!(parse_u32_text("+42"), Some(42));
    assert_eq!(parse_u32_text("042"), Some(42));
    assert_eq!(parse_u32_text("4294967295"), Some(u32::MAX));
    assert_eq!(parse_u32_text("4294967296"), None);
    assert_eq!(parse_u32_text("99999999999999999999"), None);
    assert_eq!(parse_u32_text(""), None);
    assert_eq!(parse_u32_text("+"), None);
    assert_eq!(parse_u32_text("-1"), None);
    assert_eq!(parse_u32_text("1 "), None);
}

#[test]
fn parse_i32_exact_values() {
    assert_eq!(parse_i32_text("0"), Some(0));
    assert_eq!(parse_i32_text("-1"), Some(-1));
    assert_eq!(parse_i32_text("+17"), Some(17));
    assert_eq!(parse_i32_text("2147483647"), Some(i32::MAX));
    assert_eq!(parse_i32_text("2147483648"), None);
    assert_eq!(parse_i32_text("-2147483648"), Some(i32::MIN));
    assert_eq!(parse_i32_text("-2147483649"), None);
    assert_eq!(parse_i32_text("-"), None);
    assert_eq!(parse_i32_text("- 1"), None);
}

#[test]
fn integer_grammar_matches_std() {
    for s in ["0", "+42", "042", "4294967295", "4294967296", "", "+", "-1", "1 ", "12a"] {
        assert_eq!(parse_u32_text(s), s.parse::<u32>().ok(), "on {:?}", s);
    }
    for s in ["0", "-1", "+17", "2147483647", "2147483648", "-2147483648", "-2147483649", "-"] {
        assert_eq!(parse_i32_text(s), s.parse::<i32>().ok(), "on {:?}", s);
    }
}

#[test]
fn float_grammar_matches_std() {
    for s in [
        "0", "1.5", "-0.25", "+5", "1e10", "1E-3", "2.5e+7", ".5", "5.", "inf", "-inf", "Inf",
        "infinity", "NaN", "nan", "abc", "", "+", "-", ".", "1.2.3", "--1", "1e", "1e+", "e5",
        "in", "infinit", "1 ", " 1",
    ] {
        assert_eq!(is_float_literal_text(s), s.parse::<f32>().is_ok(), "on {:?}", s);
    }
}

#[test]
fn str_eq_compares_by_characters() {
    assert!(str_eq("", ""));
    assert!(str_eq("abc", "abc"));
    assert!(!str_eq("abc", "abd"));
    assert!(!str_eq("abc", "ab"));
    assert!(str_eq("naïve", "naïve"));
}
