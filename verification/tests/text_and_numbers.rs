use cmd_transformer::number;
use cmd_transformer::text;

fn chars(s: &str) -> Vec<char> {
    s.chars().collect()
}

fn strings(parts: Vec<Vec<char>>) -> Vec<String> {
    parts.iter().map(|p| p.iter().collect()).collect()
}

#[test]
fn characters_and_strings() {
    assert_eq!(text::chars_of("aé\n"), vec!['a', 'é', '\n']);
    assert_eq!(text::string_of(&vec!['a', 'é', '\n']), "aé\n");
    assert_eq!(text::slice(&chars("hello"), 1, 3), vec!['e', 'l']);
    assert!(text::same("git", "git"));
    assert!(!text::same("git", "gi"));
    assert!(text::same_chars(&chars("ab"), &chars("ab")));
    assert!(!text::same_chars(&chars("ab"), &chars("ac")));
    assert!(!text::same_chars(&chars("ab"), &chars("abc")));
}

#[test]
fn white_space_is_that_of_unicode() {
    for u in 0u32..=0x10FFFF {
        if let Some(c) = char::from_u32(u) {
            assert_eq!(text::is_whitespace(c), c.is_whitespace(), "U+{:04X}", u);
        }
    }
}

#[test]
fn trimming() {
    for s in ["", " ", "\t a b \u{2003}\n", "a", "  a", "a  ", "\u{3000}", "\u{200B} x"] {
        let trimmed: String = text::trim(&chars(s)).iter().collect();
        assert_eq!(trimmed, s.trim());
    }
}

#[test]
fn lines_of_text() {
    for s in [
        "", "\n", "a", "a\n", "a\n\n", "\na", "a\r\nb\r\n", "a\rb\n", "a\r", "a\n\r\n\r", "\r\r\n",
        "a\nb\nc",
    ] {
        let expected: Vec<String> = s.lines().map(|l| l.to_string()).collect();
        assert_eq!(strings(text::lines(&chars(s))), expected, "{:?}", s);
    }
}

#[test]
fn finding_a_character() {
    assert_eq!(text::find(&chars("a=b=c"), '=', 0), 1);
    assert_eq!(text::find(&chars("a=b=c"), '=', 2), 3);
    assert_eq!(text::find(&chars("a=b=c"), '=', 4), 5);
    assert_eq!(text::find(&chars(""), '=', 0), 0);
}

#[test]
fn integers_read_as_the_standard_library_reads_them() {
    for s in [
        "", "0", "7", "+7", "-7", "+", "-", "--7", "++7", " 7", "7 ", "0x7", "7_0", "007", "-0", "+0",
        "4294967295", "4294967296", "2147483647", "2147483648", "-2147483648", "-2147483649",
        "9223372036854775807", "9223372036854775808", "-9223372036854775808",
        "-9223372036854775809", "18446744073709551615", "18446744073709551616",
        "99999999999999999999999999999999999999999999", "000000000000000000000000000000000000001",
        "99999999999999999999x", "1.5", "１",
    ] {
        let c = chars(s);
        assert_eq!(number::parse_u32(&c), s.parse::<u32>().ok(), "{:?}", s);
        assert_eq!(number::parse_usize(&c), s.parse::<usize>().ok(), "{:?}", s);
        assert_eq!(number::parse_i32(&c), s.parse::<i32>().ok(), "{:?}", s);
        assert_eq!(number::parse_i64(&c), s.parse::<i64>().ok(), "{:?}", s);
    }
}

#[test]
fn numbers_in_decimal_read_back() {
    for n in [0u64, 9, 10, 99, 100, 128, 3000, 1114111, 4294967295, u64::MAX] {
        let s = number::to_decimal(n);
        assert_eq!(s, n.to_string());
        assert_eq!(number::parse_usize(&chars(&s)), Some(n as usize));
    }
}

#[test]
fn floats_are_what_the_standard_library_reads() {
    for s in [
        "", "0.8", "1", "1.", ".1", ".", "-.5", "+.5e3", "1e5", "1E-5", "1e+5", "1e", "e5", "1e5.0",
        "1..2", "1.2.3", "inf", "-INF", "Infinity", "+iNfInItY", "infinit", "nan", "-NaN", "nano",
        "+", "-", "+-1", "1 ", " 1", "0x10", "1_0", "1e1e1", "1,5", "e", ".e1", "1.e1", "i", "infe1",
        "٣", "ınf",
    ] {
        assert_eq!(number::reads_as_float(&chars(s)), s.parse::<f64>().is_ok(), "{:?}", s);
    }
}
