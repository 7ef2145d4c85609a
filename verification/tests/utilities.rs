use catering_invoice::utilities::{parse_u32, push_decimal, word_wrap};

fn wrap(text: &str, max_len: usize) -> Vec<String> {
    word_wrap(text, max_len)
}

#[test]
fn word_wrap_packs_words_greedily() {
    assert_eq!(wrap("the quick brown fox", 10), vec!["the quick", "brown fox"]);
}

#[test]
fn word_wrap_of_empty_text_has_no_lines() {
    assert!(wrap("", 10).is_empty());
    assert!(wrap(" \t\n ", 10).is_empty());
}

#[test]
fn word_wrap_puts_a_long_word_on_its_own_line() {
    assert_eq!(wrap("a verylongword b", 5), vec!["a", "verylongword", "b"]);
}

#[test]
fn word_wrap_collapses_white_space() {
    assert_eq!(wrap("  a\tb\nc   d  ", 100), vec!["a b c d"]);
    assert_eq!(wrap("a\u{3000}b\u{a0}c", 100), vec!["a b c"]);
}

#[test]
fn word_wrap_counts_bytes() {
    // 'é' takes two bytes in UTF-8.
    assert_eq!(wrap("é é é", 5), vec!["é é", "é"]);
}

#[test]
fn word_wrap_with_zero_width_gives_one_word_per_line() {
    assert_eq!(wrap("a b c", 0), vec!["a", "b", "c"]);
}

#[test]
fn word_wrap_line_exactly_at_limit() {
    assert_eq!(wrap("ab cd ef", 5), vec!["ab cd", "ef"]);
    assert_eq!(wrap("ab cd ef", 4), vec!["ab", "cd", "ef"]);
}

#[test]
fn word_wrap_keeps_the_words_in_order() {
    let text = "Prime rib with horseradish, roasted potatoes and a green salad";
    let lines = wrap(text, 12);
    assert_eq!(lines.join(" "), text.split_whitespace().collect::<Vec<_>>().join(" "));
    for line in &lines {
        assert!(line.len() <= 12 || !line.contains(' '));
        assert_eq!(line.trim(), line);
    }
}

#[test]
fn word_wrap_is_greedy() {
    let lines = wrap("one two three four five six seven", 9);
    for pair in lines.windows(2) {
        let next_word = pair[1].split(' ').next().unwrap();
        assert!(pair[0].len() + 1 + next_word.len() > 9);
    }
    assert_eq!(lines, vec!["one two", "three", "four five", "six seven"]);
}

#[test]
fn parse_u32_accepts_what_std_accepts() {
    for s in [
        "42", "+7", "007", "0", "4294967295", "4294967296", "-1", "-0", "", "+", "++1", " 1",
        "1 ", "1a", "99999999999999999999", "+0",
    ] {
        assert_eq!(parse_u32(s), s.parse::<u32>().ok(), "input {s:?}");
    }
}

#[test]
fn parse_u32_values() {
    assert_eq!(parse_u32("12"), Some(12));
    assert_eq!(parse_u32("+12"), Some(12));
    assert_eq!(parse_u32("4294967295"), Some(u32::MAX));
    assert_eq!(parse_u32("4294967296"), None);
    assert_eq!(parse_u32("twelve"), None);
}

#[test]
fn decimal_round_trips_through_parse() {
    for n in [0u32, 7, 10, 12, 100, 65535, 4294967295] {
        let mut s = String::new();
        push_decimal(&mut s, n);
        assert_eq!(s, n.to_string());
        assert_eq!(parse_u32(&s), Some(n));
    }
}

#[test]
fn push_decimal_appends() {
    let mut s = String::from("n=");
    push_decimal(&mut s, 305);
    assert_eq!(s, "n=305");
}

#[test]
fn wider_limit_never_gives_more_lines() {
    let text = "Prime rib with horseradish, roasted potatoes and a green salad";
    let mut previous = usize::MAX;
    for width in 0..70 {
        let n = wrap(text, width).len();
        assert!(n <= previous, "width {width}");
        previous = n;
    }
    assert_eq!(wrap(text, 0).len(), 10);
    assert_eq!(wrap(text, 1000).len(), 1);
}
