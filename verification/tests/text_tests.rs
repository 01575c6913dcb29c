use stress_visualizer::literal::{push_decimal, push_flag, read_count, read_flag};
use stress_visualizer::text::{chars_of, find_in, piece_bounds, text_less, trim_bounds, white_space};

fn chars(s: &str) -> Vec<char> {
    s.chars().collect()
}

fn count(s: &str) -> Option<u64> {
    let v = chars(s);
    read_count(&v, 0, v.len())
}

fn flag(s: &str) -> Option<bool> {
    let v = chars(s);
    read_flag(&v, 0, v.len())
}

fn trimmed(s: &str) -> String {
    let v = chars(s);
    let (from, to) = trim_bounds(&v, 0, v.len());
    v[from..to].iter().collect()
}

fn found(hay: &str, needle: &str) -> Option<usize> {
    let v = chars(hay);
    find_in(&v, 0, v.len(), &chars(needle))
}

#[test]
fn chars_of_gives_the_characters_in_order() {
    assert_eq!(chars_of("a,b"), vec!['a', ',', 'b']);
    assert_eq!(chars_of(""), Vec::<char>::new());
    assert_eq!(chars_of("é\u{3000}z"), vec!['é', '\u{3000}', 'z']);
}

#[test]
fn white_space_agrees_with_the_standard_library_on_every_character() {
    let mut code: u32 = 0;
    while code <= 0x10FFFF {
        if let Some(c) = char::from_u32(code) {
            assert_eq!(white_space(c), c.is_whitespace(), "code point {:#x}", code);
        }
        code += 1;
    }
}

#[test]
fn text_less_orders_as_the_standard_library_orders_strings() {
    let samples = [
        "", "a", "A", "ab", "abc", "b", "readers", "writers", "writer-sleep-time", "é", "z",
        "\u{10000}", "\u{ffff}", "a b", "a=", "archive", "compress",
    ];
    for a in samples.iter() {
        for b in samples.iter() {
            assert_eq!(text_less(a, b), a < b, "{:?} against {:?}", a, b);
        }
    }
}

#[test]
fn text_less_puts_a_proper_prefix_first() {
    assert!(text_less("writer", "writers"));
    assert!(!text_less("writers", "writer"));
    assert!(!text_less("writers", "writers"));
    assert!(text_less("", "a"));
    assert!(!text_less("", ""));
}

#[test]
fn trim_removes_white_space_at_both_ends_only() {
    assert_eq!(trimmed("  a b \t"), "a b");
    assert_eq!(trimmed("\u{a0}x\u{2003}\u{3000}"), "x");
    assert_eq!(trimmed("   "), "");
    assert_eq!(trimmed(""), "");
    assert_eq!(trimmed("x"), "x");
    for s in ["  a b \t", "\n\rq", "\u{85}w\u{1680}", " ", "", "none"] {
        assert_eq!(trimmed(s), s.trim());
    }
}

#[test]
fn trim_bounds_stay_within_the_given_limits() {
    let v = chars("ab  cd  ef");
    assert_eq!(trim_bounds(&v, 2, 8), (4, 6));
    assert_eq!(trim_bounds(&v, 2, 4), (4, 4));
    assert_eq!(trim_bounds(&v, 0, 10), (0, 10));
}

#[test]
fn find_gives_the_first_occurrence() {
    assert_eq!(found("a==b==c", "=="), Some(1));
    assert_eq!(found("a<=b", "<"), Some(1));
    assert_eq!(found("a<=b", "="), Some(2));
    assert_eq!(found("abc", "=="), None);
    assert_eq!(found("=", "=="), None);
    assert_eq!(found("", ">"), None);
    assert_eq!(found("abc", ""), Some(0));
    assert_eq!(found("aab", "ab"), Some(1));
    for (hay, needle) in [("a==b==c", "=="), ("xyz", "z"), ("x", "xyz"), ("é<é", "<")] {
        let by_chars = hay.find(needle).map(|byte| hay[..byte].chars().count());
        assert_eq!(found(hay, needle), by_chars);
    }
}

#[test]
fn find_counts_from_the_lower_limit() {
    let v = chars("==a==");
    assert_eq!(find_in(&v, 1, 5, &chars("==")), Some(2));
    assert_eq!(find_in(&v, 1, 4, &chars("==")), None);
    assert_eq!(find_in(&v, 0, 5, &chars("==")), Some(0));
}

#[test]
fn piece_bounds_split_at_every_comma() {
    assert_eq!(piece_bounds(&chars("a,bc,,d")), vec![(0, 1), (2, 4), (5, 5), (6, 7)]);
    assert_eq!(piece_bounds(&chars("")), vec![(0, 0)]);
    assert_eq!(piece_bounds(&chars(",")), vec![(0, 0), (1, 1)]);
    assert_eq!(piece_bounds(&chars("abc")), vec![(0, 3)]);
    for s in ["a,bc,,d", "", ",", "x,", ",x", "no comma"] {
        let v = chars(s);
        let pieces: Vec<String> =
            piece_bounds(&v).iter().map(|(from, to)| v[*from..*to].iter().collect()).collect();
        let expected: Vec<String> = s.split(',').map(|p| p.to_string()).collect();
        assert_eq!(pieces, expected);
    }
}

#[test]
fn read_count_takes_digits_with_an_optional_plus() {
    assert_eq!(count("0"), Some(0));
    assert_eq!(count("42"), Some(42));
    assert_eq!(count("+42"), Some(42));
    assert_eq!(count("007"), Some(7));
    assert_eq!(count("18446744073709551615"), Some(u64::MAX));
}

#[test]
fn read_count_refuses_everything_else() {
    assert_eq!(count(""), None);
    assert_eq!(count("+"), None);
    assert_eq!(count("-1"), None);
    assert_eq!(count("++1"), None);
    assert_eq!(count("1+"), None);
    assert_eq!(count(" 1"), None);
    assert_eq!(count("1 "), None);
    assert_eq!(count("1.0"), None);
    assert_eq!(count("12a"), None);
    assert_eq!(count("18446744073709551616"), None);
    assert_eq!(count("99999999999999999999999"), None);
    assert_eq!(count("٣"), None);
}

#[test]
fn read_count_agrees_with_the_standard_library() {
    for s in [
        "0", "1", "+1", "-1", "", "+", "18446744073709551615", "18446744073709551616", "00",
        "1_000", "0x10", "true", "9a", "+0", "184467440737095516150",
    ] {
        assert_eq!(count(s), s.parse::<u64>().ok(), "{:?}", s);
    }
}

#[test]
fn read_count_reads_within_its_limits() {
    let v = chars("ab123cd");
    assert_eq!(read_count(&v, 2, 5), Some(123));
    assert_eq!(read_count(&v, 2, 6), None);
    assert_eq!(read_count(&v, 3, 3), None);
}

#[test]
fn read_flag_takes_the_two_words_only() {
    assert_eq!(flag("true"), Some(true));
    assert_eq!(flag("false"), Some(false));
    assert_eq!(flag("True"), None);
    assert_eq!(flag("FALSE"), None);
    assert_eq!(flag(" true"), None);
    assert_eq!(flag("true "), None);
    assert_eq!(flag("tru"), None);
    assert_eq!(flag("falsee"), None);
    assert_eq!(flag("1"), None);
    assert_eq!(flag(""), None);
    for s in ["true", "false", "t", "yes", "", "truee", "fals"] {
        assert_eq!(flag(s), s.parse::<bool>().ok());
    }
}

#[test]
fn push_decimal_writes_base_ten_without_leading_zeros() {
    for n in [0u64, 1, 9, 10, 11, 99, 100, 101, 12345, 1_000_000, u64::MAX - 1, u64::MAX] {
        let mut out = String::from("n=");
        push_decimal(&mut out, n);
        assert_eq!(out, format!("n={}", n));
    }
}

#[test]
fn push_decimal_reads_back_as_the_same_count() {
    for n in [0u64, 7, 10, 4096, u64::MAX] {
        let mut out = String::new();
        push_decimal(&mut out, n);
        assert_eq!(count(&out), Some(n));
        assert_eq!(flag(&out), None);
    }
}

#[test]
fn push_flag_writes_the_two_words() {
    let mut out = String::from("x==");
    push_flag(&mut out, true);
    assert_eq!(out, "x==true");
    let mut out = String::new();
    push_flag(&mut out, false);
    assert_eq!(out, "false");
    assert_eq!(flag(&out), Some(false));
}
