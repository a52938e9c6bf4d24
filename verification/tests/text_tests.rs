use remote_ram::text::{
    decimal, hex_digits, is_whitespace, parse_usize, split_whitespace, trim_whitespace,
};

fn chars(s: &str) -> Vec<char> {
    s.chars().collect()
}

fn text(v: &[char]) -> String {
    v.iter().collect()
}

#[test]
fn whitespace_covers_unicode_white_space() {
    for c in [' ', '\t', '\n', '\r', '\u{0b}', '\u{0c}', '\u{85}', '\u{a0}', '\u{1680}', '\u{2000}', '\u{200a}', '\u{2028}', '\u{2029}', '\u{202f}', '\u{205f}', '\u{3000}'] {
        assert!(is_whitespace(c), "{:?}", c);
    }
    for c in ['a', 'Z', '0', '_', '\u{200b}', '\u{feff}', '\u{fffd}'] {
        assert!(!is_whitespace(c), "{:?}", c);
    }
}

#[test]
fn whitespace_agrees_with_std() {
    for u in 0u32..0x3100 {
        if let Some(c) = char::from_u32(u) {
            assert_eq!(is_whitespace(c), c.is_whitespace(), "{:?}", c);
        }
    }
}

#[test]
fn split_drops_empty_pieces() {
    let words = split_whitespace(&chars("  WRITE pool_1\t 42  a  b\n"));
    let words: Vec<String> = words.iter().map(|w| text(w)).collect();
    assert_eq!(words, vec!["WRITE", "pool_1", "42", "a", "b"]);
    assert!(split_whitespace(&chars(" \n\t ")).is_empty());
    assert!(split_whitespace(&[]).is_empty());
}

#[test]
fn split_agrees_with_std() {
    for s in ["a b", "\u{3000}x\u{85}y", "OK pool_1\n", "", "   ", "é à\u{a0}ü"] {
        let mine: Vec<String> = split_whitespace(&chars(s)).iter().map(|w| text(w)).collect();
        let std: Vec<String> = s.split_whitespace().map(|w| w.to_string()).collect();
        assert_eq!(mine, std);
    }
}

#[test]
fn trim_removes_both_ends_only() {
    assert_eq!(text(&trim_whitespace(&chars("  OK 12 \n"))), "OK 12");
    assert_eq!(text(&trim_whitespace(&chars("\u{2003}PONG\u{3000}"))), "PONG");
    assert_eq!(text(&trim_whitespace(&chars("   "))), "");
    assert_eq!(text(&trim_whitespace(&chars("a  b"))), "a  b");
}

#[test]
fn parse_accepts_what_std_accepts() {
    assert_eq!(parse_usize(&chars("0")), Some(0));
    assert_eq!(parse_usize(&chars("4096")), Some(4096));
    assert_eq!(parse_usize(&chars("+7")), Some(7));
    assert_eq!(parse_usize(&chars("007")), Some(7));
    assert_eq!(parse_usize(&chars("")), None);
    assert_eq!(parse_usize(&chars("+")), None);
    assert_eq!(parse_usize(&chars("-1")), None);
    assert_eq!(parse_usize(&chars("12a")), None);
    assert_eq!(parse_usize(&chars("١٢")), None);
    assert_eq!(parse_usize(&chars(&usize::MAX.to_string())), Some(usize::MAX));
    let over = format!("{}0", usize::MAX);
    assert_eq!(parse_usize(&chars(&over)), None);
    for s in ["1", "+1", "-0", "99999999999999999999999", "1 2", "++1", "0x10"] {
        assert_eq!(parse_usize(&chars(s)), s.parse::<usize>().ok(), "{}", s);
    }
}

#[test]
fn decimal_numerals() {
    assert_eq!(text(&decimal(0)), "0");
    assert_eq!(text(&decimal(7)), "7");
    assert_eq!(text(&decimal(10)), "10");
    assert_eq!(text(&decimal(1048576)), "1048576");
    assert_eq!(text(&decimal(usize::MAX)), usize::MAX.to_string());
}

#[test]
fn hex_numerals_are_zero_padded() {
    assert_eq!(text(&hex_digits(0, 8)), "00000000");
    assert_eq!(text(&hex_digits(0xdeadbeef, 8)), "deadbeef");
    assert_eq!(text(&hex_digits(0xab, 4)), "00ab");
    assert_eq!(text(&hex_digits(0x12345, 4)), "2345");
    assert_eq!(text(&hex_digits(5, 0)), "");
}
