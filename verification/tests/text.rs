//! Text primitives.

use fastrans::text::{cut_once, lines, parse_number, push_number, split_on, to_lower, trim};

#[test]
fn splitting() {
    assert_eq!(split_on("a\tb\t\tc", '\t'), vec!["a", "b", "", "c"]);
    assert_eq!(split_on("", '\t'), vec![""]);
    for s in ["", "a", "a\n", "a\r\nb", "\n\n", "a\rb\r", "a\n\r\nb\r\n"] {
        let expect: Vec<String> = s.lines().map(|l| l.to_string()).collect();
        assert_eq!(lines(s), expect, "{s:?}");
    }
    assert_eq!(cut_once("a=b=c", '='), Some(("a".to_string(), "b=c".to_string())));
    assert_eq!(cut_once("abc", '='), None);
}

#[test]
fn trimming_and_case() {
    for s in ["", " a ", "\u{3000}你好\u{a0}", "\t\n", "a b", "\u{85}x\u{2028}"] {
        assert_eq!(trim(s), s.trim());
    }
    assert_eq!(to_lower("AbÉ你Z"), "abÉ你z");
}

#[test]
fn numbers() {
    for s in ["0", "00", "42", "+7", "4294967295", "4294967296", "", "+", "-1", "1 ", "a", "18446744073709551615"] {
        assert_eq!(parse_number(s, 0xffff_ffff), s.parse::<u32>().ok().map(|n| n as u64), "{s:?}");
        assert_eq!(parse_number(s, u64::MAX), s.parse::<u64>().ok(), "{s:?}");
    }
    for n in [0u64, 7, 10, 4294967295, u64::MAX] {
        let mut s = String::from("n=");
        push_number(&mut s, n);
        assert_eq!(s, format!("n={n}"));
    }
}
