use wordcount::order::{compare, KeyOrder};
use wordcount::text::{digit_char, push_decimal};
use wordcount::words::{is_whitespace, split_words};

#[test]
fn whitespace_is_unicode_white_space() {
    let mut n = 0;
    for u in 0..=0x10FFFFu32 {
        if let Some(c) = char::from_u32(u) {
            assert_eq!(is_whitespace(c), c.is_whitespace(), "U+{:04X}", u);
            if is_whitespace(c) {
                n += 1;
            }
        }
    }
    assert_eq!(n, 25);
}

#[test]
fn whitespace_samples() {
    for c in [' ', '\t', '\n', '\r', '\u{0B}', '\u{0C}', '\u{85}', '\u{A0}', '\u{2003}', '\u{3000}'] {
        assert!(is_whitespace(c));
    }
    for c in ['a', '0', '_', '\u{0}', '\u{1F}', '\u{200B}', '\u{180E}', '\u{FEFF}', 'é'] {
        assert!(!is_whitespace(c));
    }
}

#[test]
fn split_words_takes_maximal_runs() {
    assert_eq!(split_words("the quick  brown"), vec!["the", "quick", "brown"]);
    assert_eq!(split_words("  lead and trail \n"), vec!["lead", "and", "trail"]);
    assert_eq!(split_words("one"), vec!["one"]);
    assert_eq!(split_words("a\tb\nc\r\nd"), vec!["a", "b", "c", "d"]);
    assert_eq!(split_words("x,y z."), vec!["x,y", "z."]);
    assert!(split_words("").is_empty());
    assert!(split_words(" \t\r\n").is_empty());
}

#[test]
fn split_words_agrees_with_std() {
    let samples = [
        "",
        " ",
        "a",
        " a",
        "a ",
        "héllo wörld\u{A0}nbsp\u{2003}em\u{3000}ideographic",
        "tab\there\u{85}next\u{2028}line\u{2029}para",
        "zero\u{200B}width stays\u{FEFF}joined",
        "日本語 テキスト  終わり",
        "\u{1680}ogham\u{205F}math\u{202F}narrow",
    ];
    for s in samples {
        let expected: Vec<String> = s.split_whitespace().map(String::from).collect();
        assert_eq!(split_words(s), expected, "{:?}", s);
    }
}

fn std_order(a: &str, b: &str) -> KeyOrder {
    if a < b {
        KeyOrder::Less
    } else if a == b {
        KeyOrder::Equal
    } else {
        KeyOrder::Greater
    }
}

#[test]
fn compare_is_lexicographic_on_bytes() {
    assert_eq!(compare("a", "b"), KeyOrder::Less);
    assert_eq!(compare("b", "a"), KeyOrder::Greater);
    assert_eq!(compare("same", "same"), KeyOrder::Equal);
    assert_eq!(compare("", ""), KeyOrder::Equal);
    assert_eq!(compare("", "a"), KeyOrder::Less);
    assert_eq!(compare("a", ""), KeyOrder::Greater);
    assert_eq!(compare("ab", "abc"), KeyOrder::Less);
    assert_eq!(compare("abc", "ab"), KeyOrder::Greater);
    assert_eq!(compare("Z", "a"), KeyOrder::Less);
    assert_eq!(compare("z", "é"), KeyOrder::Less);
    assert_eq!(compare("10", "9"), KeyOrder::Less);
}

#[test]
fn compare_agrees_with_std() {
    let words = ["", "a", "A", "ab", "abc", "b", "é", "e", "z", "zz", "日本", "日本語", "\u{10FFFF}", "~"];
    for a in words {
        for b in words {
            assert_eq!(compare(a, b), std_order(a, b), "{:?} {:?}", a, b);
        }
    }
}

#[test]
fn digits_are_ascii() {
    let expected = ['0', '1', '2', '3', '4', '5', '6', '7', '8', '9'];
    for d in 0..10u8 {
        assert_eq!(digit_char(d), expected[d as usize]);
    }
}

#[test]
fn decimal_has_no_leading_zeros() {
    for (n, text) in [
        (0u64, "0"),
        (7, "7"),
        (9, "9"),
        (10, "10"),
        (11, "11"),
        (99, "99"),
        (100, "100"),
        (1234567890, "1234567890"),
        (u64::MAX, "18446744073709551615"),
    ] {
        let mut s = String::new();
        push_decimal(&mut s, n);
        assert_eq!(s, text);
    }
    let mut s = String::from("n=");
    push_decimal(&mut s, 42);
    assert_eq!(s, "n=42");
}
