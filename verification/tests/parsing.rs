use canalyzer::canbus::{
    classify_line, is_separator, parse_line, token_spans, LineAction, Message, PAUSE_MILLIS,
};
use canalyzer::text::{chars_of, lex_less, str_less};

#[test]
fn record_line_is_parsed() {
    let m = parse_line("ID: 101 X 3F", 42).unwrap();
    assert_eq!(m.id, "101");
    assert_eq!(m.data, "3F");
    assert_eq!(m.ts, 42);
    assert_eq!(m, Message::new("101".to_string(), "3F".to_string(), 42));
}

#[test]
fn garbage_is_no_record() {
    assert_eq!(parse_line("garbage text", 1), None);
    assert_eq!(classify_line("garbage text", 1), LineAction::Skip);
}

#[test]
fn sleep_is_a_pause_and_no_record() {
    assert_eq!(parse_line("sleep", 1), None);
    assert_eq!(classify_line("sleep", 1), LineAction::Pause(1000));
    assert_eq!(PAUSE_MILLIS, 1000);
}

#[test]
fn sleep_with_anything_else_is_skipped() {
    assert_eq!(classify_line("sleep ", 1), LineAction::Skip);
    assert_eq!(classify_line(" sleep", 1), LineAction::Skip);
    assert_eq!(classify_line("sleeps", 1), LineAction::Skip);
    assert_eq!(classify_line("Sleep", 1), LineAction::Skip);
}

#[test]
fn record_line_is_classified() {
    let expected = Message::new("7".to_string(), "AB".to_string(), -3);
    assert_eq!(classify_line("ID: 7 len AB", -3), LineAction::Record(expected));
}

#[test]
fn empty_line_is_no_record() {
    assert_eq!(parse_line("", 0), None);
    assert_eq!(parse_line("   ", 0), None);
    assert_eq!(classify_line("", 0), LineAction::Skip);
}

#[test]
fn too_few_tokens_is_no_record() {
    assert_eq!(parse_line("ID:", 0), None);
    assert_eq!(parse_line("ID: 101", 0), None);
    assert_eq!(parse_line("ID: 101 X", 0), None);
}

#[test]
fn wrong_sentinel_is_no_record() {
    assert_eq!(parse_line("id: 101 X 3F", 0), None);
    assert_eq!(parse_line("ID 101 X 3F", 0), None);
    assert_eq!(parse_line("ID:101 X 3F 00", 0), None);
    assert_eq!(parse_line("XID: 101 X 3F", 0), None);
    assert_eq!(parse_line("ID:: 101 X 3F", 0), None);
}

#[test]
fn runs_of_separators_count_once() {
    let m = parse_line("  ID:\t7  X \u{3000} AB  extra words", 9).unwrap();
    assert_eq!(m.id, "7");
    assert_eq!(m.data, "AB");
}

#[test]
fn third_token_is_passed_over() {
    let m = parse_line("ID: 1A0 anything DEADBEEF", 0).unwrap();
    assert_eq!(m.id, "1A0");
    assert_eq!(m.data, "DEADBEEF");
}

#[test]
fn payload_may_hold_any_code_point() {
    let m = parse_line("ID: \u{e9}t\u{e9} X h\u{e9}llo\u{1f600}", 0).unwrap();
    assert_eq!(m.id, "\u{e9}t\u{e9}");
    assert_eq!(m.data, "h\u{e9}llo\u{1f600}");
}

#[test]
fn spans_cut_out_the_tokens() {
    let chars: Vec<char> = " ab  c\td ".chars().collect();
    assert_eq!(token_spans(&chars), vec![(1, 3), (5, 6), (7, 8)]);
    assert_eq!(token_spans(&Vec::new()), vec![]);
    let one: Vec<char> = "word".chars().collect();
    assert_eq!(token_spans(&one), vec![(0, 4)]);
}

#[test]
fn separators_are_the_white_space_code_points() {
    for c in ['\t', '\n', '\u{b}', '\u{c}', '\r', ' ', '\u{85}', '\u{a0}', '\u{1680}', '\u{2000}',
        '\u{200a}', '\u{2028}', '\u{2029}', '\u{202f}', '\u{205f}', '\u{3000}']
    {
        assert!(is_separator(c));
    }
    for c in ['a', ':', '0', '\u{8}', '\u{e}', '\u{200b}', '\u{feff}', '\u{1f}'] {
        assert!(!is_separator(c));
    }
}

#[test]
fn separators_agree_with_std_on_every_code_point() {
    let mut n: u32 = 0;
    while n <= 0x10ffff {
        if let Some(c) = char::from_u32(n) {
            assert_eq!(is_separator(c), c.is_whitespace());
        }
        n += 1;
    }
}

#[test]
fn chars_of_gives_code_points() {
    assert_eq!(chars_of("a\u{e9}\u{1f600}"), vec!['a', '\u{e9}', '\u{1f600}']);
    assert_eq!(chars_of(""), Vec::<char>::new());
}

#[test]
fn lexicographic_order_of_identifiers() {
    assert!(str_less("100", "101"));
    assert!(!str_less("101", "100"));
    assert!(!str_less("101", "101"));
    assert!(str_less("10", "101"));
    assert!(!str_less("101", "10"));
    assert!(str_less("", "0"));
    assert!(!str_less("", ""));
    assert!(str_less("9", "A"));
    assert!(str_less("z", "\u{e9}"));
    assert!(lex_less(&vec!['a', 'b'], &vec!['a', 'c']));
    assert!(!lex_less(&vec!['b'], &vec!['a', 'c']));
}

#[test]
fn lexicographic_order_agrees_with_std() {
    let words = ["", "0", "00", "01", "1", "10", "A", "a", "ab", "b", "\u{e9}", "\u{1f600}"];
    for a in words {
        for b in words {
            assert_eq!(str_less(a, b), a < b);
        }
    }
}
