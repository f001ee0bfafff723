use xmap::number::{decimal_text, parse_unsigned, Decimal};
use xmap::text::{blank, chars_of, line_ranges, space, split_ranges};

fn chars(s: &str) -> Vec<char> {
    s.chars().collect()
}

fn cut(text: &str, ranges: &Vec<(usize, usize)>) -> Vec<String> {
    let all = chars(text);
    ranges.iter().map(|(a, b)| all[*a..*b].iter().collect()).collect()
}

#[test]
fn decimal_text_follows_the_literal_syntax() {
    for good in [
        "0", "3.14", "-3.14", "+3.14", "2.5E10", "2.5e10", "2.5E-10", "2.5e+10", "5.", ".5",
        "-.5", "inf", "-inf", "+infinity", "INFINITY", "NaN", "nan", "-nan", "000", "1e0",
        "103833.0",
    ] {
        assert!(decimal_text(&chars(good)), "{} spells a number", good);
        assert_eq!(good.parse::<f64>().is_ok(), true, "{}", good);
    }
    for bad in [
        "", "+", "-", ".", "e5", "1e", "1e+", "1.2.3", " 1", "1 ", "1_0", "0x10", "infinit",
        "in", "nanx", "++1", "1e5.0", "1,5", "\u{661}", "1f", "--1", ". 5", "+.", "-e1",
    ] {
        assert!(!decimal_text(&chars(bad)), "{:?} spells no number", bad);
        assert_eq!(bad.parse::<f64>().is_ok(), false, "{:?}", bad);
    }
}

#[test]
fn decimal_keeps_its_text() {
    let d = Decimal::parse(&chars("-12.50e3")).unwrap();
    assert_eq!(d.text().iter().collect::<String>(), "-12.50e3");
    assert_eq!(d.clone().text(), d.text());
    assert!(Decimal::parse(&chars("twelve")).is_none());
}

#[test]
fn parse_unsigned_reads_digits_up_to_the_bound() {
    assert_eq!(parse_unsigned(&chars("0"), 255), Some(0));
    assert_eq!(parse_unsigned(&chars("255"), 255), Some(255));
    assert_eq!(parse_unsigned(&chars("256"), 255), None);
    assert_eq!(parse_unsigned(&chars("+17"), 255), Some(17));
    assert_eq!(parse_unsigned(&chars("00000000000000000000017"), 255), Some(17));
    assert_eq!(parse_unsigned(&chars("4294967295"), 4294967295), Some(4294967295));
    assert_eq!(parse_unsigned(&chars("4294967296"), 4294967295), None);
    assert_eq!(parse_unsigned(&chars("18446744073709551615"), u64::MAX), Some(u64::MAX));
    assert_eq!(parse_unsigned(&chars("18446744073709551616"), u64::MAX), None);
    assert_eq!(parse_unsigned(&chars("99999999999999999999999"), u64::MAX), None);
    for bad in ["", "+", "-1", "-0", "1 ", " 1", "1.0", "1e3", "++1", "12a", "\u{661}"] {
        assert_eq!(parse_unsigned(&chars(bad), 4294967295), None, "{:?}", bad);
        assert!(bad.parse::<u32>().is_err());
    }
}

#[test]
fn split_ranges_cuts_at_every_separator() {
    let text = "a\t\tbc\t";
    assert_eq!(cut(text, &split_ranges(&chars(text), '\t')), vec!["a", "", "bc", ""]);
    assert_eq!(split_ranges(&chars(""), '\t'), vec![(0, 0)]);
    assert_eq!(split_ranges(&chars("abc"), '\t'), vec![(0, 3)]);
    assert_eq!(split_ranges(&chars("\t"), '\t'), vec![(0, 0), (1, 1)]);
}

#[test]
fn line_ranges_follow_the_line_endings() {
    for text in ["", "a", "a\n", "a\nb", "a\r\nb\r\n", "a\n\nb\n", "\n", "\n\n", "a\r", "a\r\r\n", "\r\n"] {
        let expected: Vec<String> =
            text.split_terminator('\n').map(|l| l.strip_suffix('\r').unwrap_or(l).to_string()).collect();
        assert_eq!(cut(text, &line_ranges(&chars(text))), expected, "{:?}", text);
    }
    assert_eq!(line_ranges(&chars("ab\r\ncd")), vec![(0, 2), (4, 6)]);
}

#[test]
fn space_is_unicode_white_space() {
    for code in 0u32..0x11000 {
        if let Some(c) = char::from_u32(code) {
            assert_eq!(space(c), c.is_whitespace(), "U+{:04X}", code);
        }
    }
    assert!(blank(&chars("")));
    assert!(blank(&chars(" \t\u{a0}\u{3000}")));
    assert!(!blank(&chars(" \t.")));
}

#[test]
fn chars_of_lists_the_characters() {
    assert_eq!(chars_of("a\u{e9}\u{1f600}"), vec!['a', '\u{e9}', '\u{1f600}']);
    assert_eq!(chars_of(""), Vec::<char>::new());
}
