use amitex_gui::text::{
    align_right, blank, joined, read_count, read_signed, split_lines, split_once, split_words,
    to_decimal, trimmed, trimmed_at_end,
};

#[test]
fn trimming_takes_white_space_of_all_kinds() {
    for s in ["", "  ", "a", " a b ", "\t\u{a0}x\u{3000}\n", "\u{2028}é\u{85}", "\u{200b}x"] {
        assert_eq!(trimmed(s), s.trim());
        assert_eq!(trimmed_at_end(s), s.trim_end());
        assert_eq!(blank(s), s.trim().is_empty());
    }
}

#[test]
fn words_are_split_at_white_space() {
    for s in ["", " ", "one", " one  two\tthree\u{2003}four\n", "a\u{feff}b c"] {
        let expected: Vec<String> = s.split_whitespace().map(str::to_string).collect();
        assert_eq!(split_words(s), expected);
    }
}

#[test]
fn lines_lose_their_ends() {
    for s in ["", "\n", "a", "a\n", "a\r\nb", "a\r", "\r\n\n", "x\n\ny\r\r\n", "é\nß"] {
        let expected: Vec<String> = s.lines().map(str::to_string).collect();
        assert_eq!(split_lines(s), expected);
    }
}

#[test]
fn the_first_sign_splits() {
    assert_eq!(split_once("A=b=c", '='), Some(("A".to_string(), "b=c".to_string())));
    assert_eq!(split_once("=", '='), Some((String::new(), String::new())));
    assert_eq!(split_once("none", '='), None);
}

#[test]
fn parts_are_joined() {
    let parts = vec!["a".to_string(), String::new(), "b".to_string()];
    assert_eq!(joined(&parts, ", "), "a, , b");
    assert_eq!(joined(&Vec::new(), ", "), "");
}

#[test]
fn decimals_are_written_and_read() {
    for n in [0, 1, 9, 10, 11, 99, 100, 12345, u64::MAX] {
        assert_eq!(to_decimal(n), n.to_string());
    }
    for s in ["", "-", "+", "0", "007", "+5", "-12", "9223372036854775807", "9223372036854775808", "-9223372036854775808", "-9223372036854775809", "1x", "--1", "１"] {
        assert_eq!(read_signed(s), s.parse::<i64>().ok(), "{s}");
        assert_eq!(read_count(s), s.parse::<usize>().ok(), "{s}");
    }
    assert_eq!(read_count("18446744073709551615"), Some(usize::MAX));
    assert_eq!(read_count("18446744073709551616"), None);
}

#[test]
fn short_texts_are_aligned() {
    assert_eq!(align_right("1.5", 6), format!("{:>6}", "1.5"));
    assert_eq!(align_right("long text", 4), "long text");
    assert_eq!(align_right("", 2), "  ");
}
