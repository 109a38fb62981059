use mash::text::{chars_of, decimal_string, is_whitespace, pad_left_chars, parse_usize};

#[test]
fn white_space_matches_the_standard_library() {
    for c in (0u32..0x11000).chain(0x1F000..0x1F100).filter_map(char::from_u32) {
        assert_eq!(is_whitespace(c), c.is_whitespace(), "{:?}", c);
    }
}

#[test]
fn parsing_numbers_matches_the_standard_library() {
    for s in [
        "0", "7", "42", "+5", "+", "-1", "", " 1", "1 ", "007", "18446744073709551615",
        "18446744073709551616", "99999999999999999999", "1a", "+-1", "++1", "٣",
    ] {
        assert_eq!(parse_usize(s), s.parse::<usize>().ok(), "{:?}", s);
    }
}

#[test]
fn decimal_and_padding() {
    let s: String = decimal_string(0).into_iter().collect();
    assert_eq!(s, "0");
    let s: String = decimal_string(120034).into_iter().collect();
    assert_eq!(s, "120034");
    let p: String = pad_left_chars(&chars_of("42"), 5).into_iter().collect();
    assert_eq!(p, "   42");
    let p: String = pad_left_chars(&chars_of("123456"), 5).into_iter().collect();
    assert_eq!(p, "123456");
    for n in [0usize, 9, 10, 99, 100, 12345, 123456] {
        let s: String = decimal_string(n).into_iter().collect();
        assert_eq!(format!("{:>5}", n), pad_left_chars(&chars_of(&s), 5).into_iter().collect::<String>());
    }
}
