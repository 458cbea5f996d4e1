use sync_sessions::order::{insert_text, text_precedes};
use sync_sessions::summary::{get_summary_of_message, noise};
use sync_sessions::text::{
    blank, from_chars, join, lines, same_text, starts_with, to_chars, to_decimal, trim, white_space,
};

const SAMPLES: [&str; 16] = [
    "", "\n", "\r\n", "\r", "a", "a\n", "a\r\n", "a\nb", "a\n\nb\n", "a\r\nb\r", "a\r\r\nb",
    "\n\n", " \t x \u{2003}", "żółć\nμ", "요약", "a\u{85}b\u{2028}c",
];

#[test]
fn lines_as_in_the_standard_library() {
    for s in SAMPLES {
        let expected: Vec<&str> = s.lines().collect();
        assert_eq!(lines(s), expected, "{:?}", s);
    }
}

#[test]
fn white_space_as_in_the_standard_library() {
    for c in '\0'..=char::MAX {
        assert_eq!(white_space(c), c.is_whitespace(), "{:?}", c);
    }
}

#[test]
fn trimming_as_in_the_standard_library() {
    for s in SAMPLES {
        assert_eq!(trim(s), s.trim());
        assert_eq!(blank(s), s.trim().is_empty());
    }
}

#[test]
fn order_as_in_the_standard_library() {
    for a in SAMPLES {
        for b in SAMPLES {
            assert_eq!(text_precedes(a, b), a < b, "{:?} {:?}", a, b);
            assert_eq!(same_text(a, b), a == b);
            assert_eq!(starts_with(a, b), a.starts_with(b));
        }
    }
}

#[test]
fn characters_and_back() {
    let chars = to_chars("żółć");
    assert_eq!(chars, vec!['ż', 'ó', 'ł', 'ć']);
    assert_eq!(from_chars(&chars, 1, 3), "ół");
    assert_eq!(from_chars(&chars, 2, 2), "");
}

#[test]
fn decimal_numbers() {
    for n in [0u64, 1, 9, 10, 99, 100, 1234567890, u64::MAX] {
        assert_eq!(to_decimal(n), n.to_string());
    }
}

#[test]
fn joining() {
    let parts = vec!["a".to_string(), String::new(), "b".to_string()];
    assert_eq!(join(&parts, ", "), "a, , b");
    assert_eq!(join(&vec!["a".to_string()], ", "), "a");
    assert_eq!(join(&Vec::new(), ", "), "");
}

#[test]
fn insertion_keeps_order_and_adds_nothing_twice() {
    let mut list: Vec<String> = Vec::new();
    for t in ["b", "a", "c", "b", "a", "ab"] {
        insert_text(&mut list, t);
    }
    assert_eq!(list, vec!["a", "ab", "b", "c"]);
}

#[test]
fn noise_is_no_summary() {
    for t in [
        "<command-name>/clear</command-name>",
        "<command unfinished",
        "<local-command-stdout>",
        "<bash-input>ls",
        "> quoted",
        "/compact",
        "You are an assistant",
        "Base directory for this skill",
        "Warmup",
        "요약할 텍스트: abc",
        "| a | b |",
        "<note>text</note>",
    ] {
        assert!(noise(t), "{:?}", t);
        assert_eq!(get_summary_of_message(t), None);
        assert_eq!(get_summary_of_message(&format!("  {}\n", t)), None);
    }
    for t in ["a < b", "<3", "you are", "x > y", "What about /tmp?"] {
        assert!(!noise(t), "{:?}", t);
        assert_eq!(get_summary_of_message(t).as_deref(), Some(t));
    }
}

#[test]
fn summary_is_one_short_line() {
    assert_eq!(get_summary_of_message("  \n first \r\nsecond").as_deref(), Some("first "));
    assert_eq!(get_summary_of_message(" \n "), None);
    let long = "é".repeat(150);
    assert_eq!(get_summary_of_message(&long), Some("é".repeat(100)));
    let exact = "é".repeat(100);
    assert_eq!(get_summary_of_message(&exact), Some(exact));
}
