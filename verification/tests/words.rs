use simple_db::text::{char_is_whitespace, push_decimal, starts_with, word_ranges};

fn words(text: &str) -> Vec<String> {
    let chars: Vec<char> = text.chars().collect();
    word_ranges(text)
        .iter()
        .map(|(start, end)| chars[*start..*end].iter().collect())
        .collect()
}

#[test]
fn whitespace_is_what_the_standard_library_calls_so() {
    for code in 0..=0x10ffffu32 {
        if let Some(c) = char::from_u32(code) {
            assert_eq!(char_is_whitespace(c), c.is_whitespace(), "U+{:04X}", code);
        }
    }
}

#[test]
fn words_are_the_runs_between_whitespace() {
    assert_eq!(words(""), Vec::<String>::new());
    assert_eq!(words("   "), Vec::<String>::new());
    assert_eq!(words("a"), vec!["a"]);
    assert_eq!(
        words("insert 1 user1 person1@example.com"),
        vec!["insert", "1", "user1", "person1@example.com"]
    );
    assert_eq!(words("  two   words\t"), vec!["two", "words"]);
    assert_eq!(words("a\nb\rc\u{b}d\u{c}e"), vec!["a", "b", "c", "d", "e"]);
    assert_eq!(words("x\u{a0}y\u{3000}z\u{2003}w"), vec!["x", "y", "z", "w"]);
    assert_eq!(words("\u{20ac}uro \u{e9}t\u{e9}"), vec!["\u{20ac}uro", "\u{e9}t\u{e9}"]);
    // A zero-width space is no whitespace.
    assert_eq!(words("a\u{200b}b"), vec!["a\u{200b}b"]);
}

#[test]
fn word_ranges_count_characters() {
    assert_eq!(word_ranges("ab  cd"), vec![(0, 2), (4, 6)]);
    assert_eq!(word_ranges(" \u{20ac}\u{20ac} x"), vec![(1, 3), (4, 5)]);
    assert_eq!(word_ranges("x"), vec![(0, 1)]);
    assert_eq!(word_ranges("x "), vec![(0, 1)]);
}

#[test]
fn words_agree_with_split_whitespace() {
    let samples = [
        "",
        " ",
        "select",
        "insert 1 a b",
        "\tinsert\t\t2  \u{1680}name\u{2028}mail@host \n",
        "\u{85}a\u{85}\u{85}b",
        "tr\u{e4}iling \u{1f600} ",
    ];
    for sample in samples {
        let expected: Vec<String> = sample.split_whitespace().map(String::from).collect();
        assert_eq!(words(sample), expected, "{:?}", sample);
    }
}

#[test]
fn starts_with_compares_the_front() {
    assert!(starts_with("select", "select"));
    assert!(starts_with("select * from t", "select"));
    assert!(starts_with("selection", "select"));
    assert!(starts_with("anything", ""));
    assert!(starts_with("", ""));
    assert!(!starts_with("selec", "select"));
    assert!(!starts_with("", "select"));
    assert!(!starts_with(" select", "select"));
    assert!(!starts_with("Select", "select"));
    assert!(!starts_with("insert", "select"));
    assert!(starts_with("\u{20ac}5", "\u{20ac}"));
    assert!(!starts_with("\u{20ac}5", "\u{20ad}"));
}

#[test]
fn decimal_digits() {
    let cases: [(u32, &str); 9] = [
        (0, "0"),
        (1, "1"),
        (9, "9"),
        (10, "10"),
        (99, "99"),
        (100, "100"),
        (1400, "1400"),
        (1_000_000_007, "1000000007"),
        (u32::MAX, "4294967295"),
    ];
    for (n, text) in cases {
        let mut out = vec![b'#'];
        push_decimal(&mut out, n);
        assert_eq!(out, format!("#{}", text).into_bytes());
    }
}
