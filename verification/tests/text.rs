use vt100::text::parse_u32;
use vt100::text::push_decimal;
use vt100::text::string_from_chars;
use vt100::text::text_char;

#[test]
fn parse_u32_reads_decimal() {
    assert_eq!(parse_u32(&['4', '2']), Some(42));
    assert_eq!(parse_u32(&['+', '7']), Some(7));
    assert_eq!(parse_u32(&['4', '2', '9', '4', '9', '6', '7', '2', '9', '5']), Some(u32::MAX));
}

#[test]
fn parse_u32_rejects() {
    assert_eq!(parse_u32(&[]), None);
    assert_eq!(parse_u32(&['+']), None);
    assert_eq!(parse_u32(&['-', '1']), None);
    assert_eq!(parse_u32(&['1', 'x']), None);
    assert_eq!(parse_u32(&['4', '2', '9', '4', '9', '6', '7', '2', '9', '6']), None);
}

#[test]
fn parse_u32_agrees_with_std() {
    for s in ["", "0", "12", "+3", "-3", " 4", "4294967295", "4294967296", "00042", "1a"] {
        let chars: Vec<char> = s.chars().collect();
        assert_eq!(parse_u32(&chars), s.parse::<u32>().ok(), "{}", s);
    }
}

#[test]
fn decimal_round_trip() {
    for n in [0u32, 7, 10, 1234, u32::MAX] {
        let mut s = String::new();
        push_decimal(&mut s, n);
        assert_eq!(s, n.to_string());
        let chars: Vec<char> = s.chars().collect();
        assert_eq!(parse_u32(&chars), Some(n));
    }
}

#[test]
fn text_chars() {
    assert!(text_char(' '));
    assert!(text_char('é'));
    assert!(!text_char('\u{1f}'));
    assert!(!text_char('\u{1b}'));
}

#[test]
fn strings_from_chars() {
    assert_eq!(string_from_chars(&['a', 'é', 'z']), "aéz");
    assert_eq!(string_from_chars(&[]), "");
}

