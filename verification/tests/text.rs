use commit_stats::text::{
    chars_of, copy_range, has_prefix, is_white_space, parse_decimal, split_at_each, split_words,
    stands_at, trimmed,
};

fn chars(text: &str) -> Vec<char> {
    text.chars().collect()
}

fn strings(parts: Vec<Vec<char>>) -> Vec<String> {
    parts.iter().map(|p| p.iter().collect::<String>()).collect()
}

#[test]
fn chars_of_a_text_are_its_characters() {
    assert_eq!(chars_of("a;é\n"), vec!['a', ';', 'é', '\n']);
    assert!(chars_of("").is_empty());
}

#[test]
fn white_space_is_what_std_takes_for_it() {
    for n in 0u32..0x3100 {
        if let Some(c) = char::from_u32(n) {
            assert_eq!(is_white_space(c), c.is_whitespace(), "at {:x}", n);
        }
    }
    assert!(!is_white_space('\u{10FFFF}'));
}

#[test]
fn copy_range_takes_the_range() {
    let text = chars("abcdef");
    assert_eq!(copy_range(&text, 1, 4), chars("bcd"));
    assert_eq!(copy_range(&text, 0, 6), text);
    assert!(copy_range(&text, 3, 3).is_empty());
}

#[test]
fn trimmed_drops_white_space_at_both_ends() {
    assert_eq!(trimmed(&chars("  a b \t\r\n")), chars("a b"));
    assert_eq!(trimmed(&chars("a")), chars("a"));
    assert_eq!(trimmed(&chars(" \u{3000}\u{a0}x\u{2003}")), chars("x"));
    assert!(trimmed(&chars("   ")).is_empty());
    assert!(trimmed(&chars("")).is_empty());
    for text in ["", " ", " a", "a ", " a  b ", "\n\ta\n", "ab"] {
        assert_eq!(trimmed(&chars(text)), chars(text.trim()));
    }
}

#[test]
fn stands_at_and_prefix() {
    let text = chars("ab;;;;cd");
    let sep = chars(";;;;");
    assert!(stands_at(&text, &sep, 2));
    assert!(!stands_at(&text, &sep, 1));
    assert!(!stands_at(&text, &sep, 5));
    assert!(!stands_at(&text, &sep, 8));
    assert!(!stands_at(&text, &sep, 100));
    assert!(stands_at(&text, &chars(""), 8));
    assert!(has_prefix(&text, &chars("ab;")));
    assert!(has_prefix(&text, &chars("")));
    assert!(!has_prefix(&text, &chars("b")));
    assert!(!has_prefix(&chars("ab"), &chars("abc")));
}

#[test]
fn split_cuts_at_each_separator() {
    let sep = chars(";;;;");
    assert_eq!(strings(split_at_each(&chars("a;;;;b;;;;c"), &sep)), vec!["a", "b", "c"]);
    assert_eq!(strings(split_at_each(&chars("abc"), &sep)), vec!["abc"]);
    assert_eq!(strings(split_at_each(&chars(""), &sep)), vec![""]);
    assert_eq!(strings(split_at_each(&chars(";;;;"), &sep)), vec!["", ""]);
    assert_eq!(strings(split_at_each(&chars("a;;;;"), &sep)), vec!["a", ""]);
    assert_eq!(strings(split_at_each(&chars(";;;;;;a"), &sep)), vec!["", ";;a"]);
    assert_eq!(strings(split_at_each(&chars("a;;;;;;;;b"), &sep)), vec!["a", "", "b"]);
    assert_eq!(strings(split_at_each(&chars("a;;;b"), &sep)), vec!["a;;;b"]);
    assert_eq!(strings(split_at_each(&chars("ab"), &chars(""))), vec!["ab"]);
    for text in ["", ";", "a;;;;;b;;;", ";;;;;;;;", "x;;;;y;;;;;;;;;z;;;;"] {
        let expected: Vec<String> = text.split(";;;;").map(String::from).collect();
        assert_eq!(strings(split_at_each(&chars(text), &sep)), expected);
    }
}

#[test]
fn split_at_line_breaks() {
    let newline = chars("\n");
    assert_eq!(strings(split_at_each(&chars("a\nb\r\n\nc\n"), &newline)), vec!["a", "b\r", "", "c", ""]);
}

#[test]
fn words_are_the_runs_between_white_space() {
    assert_eq!(strings(split_words(&chars("  ab  c\td\n"))), vec!["ab", "c", "d"]);
    assert_eq!(strings(split_words(&chars("abc"))), vec!["abc"]);
    assert!(split_words(&chars(" \t ")).is_empty());
    assert!(split_words(&chars("")).is_empty());
    for text in ["a b", " a", "a ", "ab  cd e", "\u{3000}x\u{a0}y"] {
        let expected: Vec<String> = text.split_whitespace().map(String::from).collect();
        assert_eq!(strings(split_words(&chars(text))), expected);
    }
}

#[test]
fn decimal_numbers() {
    assert_eq!(parse_decimal(&chars("0")), Some(0));
    assert_eq!(parse_decimal(&chars("1704844800")), Some(1704844800));
    assert_eq!(parse_decimal(&chars("007")), Some(7));
    assert_eq!(parse_decimal(&chars("18446744073709551615")), Some(u64::MAX));
    assert_eq!(parse_decimal(&chars("18446744073709551616")), None);
    assert_eq!(parse_decimal(&chars("99999999999999999999999")), None);
    assert_eq!(parse_decimal(&chars("")), None);
    assert_eq!(parse_decimal(&chars("12a")), None);
    assert_eq!(parse_decimal(&chars("-1")), None);
    assert_eq!(parse_decimal(&chars("+1")), None);
    assert_eq!(parse_decimal(&chars(" 1")), None);
    assert_eq!(parse_decimal(&chars("١٢")), None);
    assert_eq!(parse_decimal(&chars("99999999999999999999999x")), None);
}
