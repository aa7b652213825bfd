use apaseh::text::{
    chars_of, decimal_chars, find_char, parse_i32_chars, parse_unsigned_chars, split_chars,
    split_lines, split_words, trim_chars,
};

fn s(v: &[char]) -> String {
    v.iter().collect()
}

#[test]
fn trimming_unicode_whitespace() {
    assert_eq!(s(&trim_chars(&chars_of(" \t\u{3000}ab c\u{a0}\r\n"))), "ab c");
    assert_eq!(s(&trim_chars(&chars_of("   "))), "");
}

#[test]
fn words_and_pieces() {
    let w = split_words(&chars_of("  a  bb\tc "));
    assert_eq!(w.iter().map(|x| s(x)).collect::<Vec<_>>(), vec!["a", "bb", "c"]);
    let p = split_chars(&chars_of("a,,b,"), ',');
    assert_eq!(p.iter().map(|x| s(x)).collect::<Vec<_>>(), vec!["a", "", "b", ""]);
}

#[test]
fn lines_like_std() {
    for text in ["", "a", "a\n", "a\r\nb", "a\n\nb\r\n", "\r", "x\ry\n"] {
        let ours: Vec<String> = split_lines(&chars_of(text)).iter().map(|x| s(x)).collect();
        let std_lines: Vec<String> = text.lines().map(|l| l.to_string()).collect();
        assert_eq!(ours, std_lines, "text {:?}", text);
    }
}

#[test]
fn numbers_like_std() {
    for text in ["0", "+5", "-5", "", "+", "12a", "65535", "65536", " 1", "007"] {
        let ours = parse_unsigned_chars(&chars_of(text), 65535).map(|v| v as u16);
        assert_eq!(ours, text.parse::<u16>().ok(), "text {:?}", text);
    }
    for text in ["-2147483648", "2147483647", "2147483648", "-", "-0", "+-1", "--1"] {
        assert_eq!(parse_i32_chars(&chars_of(text)), text.parse::<i32>().ok(), "text {:?}", text);
    }
}

#[test]
fn decimal_rendering() {
    for n in [0u64, 7, 10, 99, 100, 12345, u64::MAX] {
        assert_eq!(s(&decimal_chars(n)), n.to_string());
    }
}

#[test]
fn find_first() {
    assert_eq!(find_char(&chars_of("a=b=c"), '='), Some(1));
    assert_eq!(find_char(&chars_of("abc"), '='), None);
}
