use subscribe_hn::text::{
    chars_of, decimal_string, entries_file_text, has_piece, has_word, join_newline, line_for,
    lines_of, parse_decimal, string_of, trimmed, Separators,
};

fn chars(s: &str) -> Vec<char> {
    s.chars().collect()
}

#[test]
fn title_pieces_split_at_space_slash_hyphen() {
    let title = chars("show hn: rust/wasm-based editor");
    let t = Separators::TitlePunctuation;
    assert!(has_piece(&title, &chars("rust"), t));
    assert!(has_piece(&title, &chars("wasm"), t));
    assert!(has_piece(&title, &chars("based"), t));
    assert!(has_piece(&title, &chars("hn:"), t));
    assert!(!has_piece(&title, &chars("hn"), t));
    assert!(!has_piece(&title, &chars("rust/wasm"), t));
    assert!(!has_piece(&title, &chars(""), t));
}

#[test]
fn title_pieces_include_empty_ones() {
    let t = Separators::TitlePunctuation;
    assert!(has_piece(&chars("a  b"), &chars(""), t));
    assert!(has_piece(&chars("-a"), &chars(""), t));
    assert!(has_piece(&chars(""), &chars(""), t));
}

#[test]
fn text_words_split_at_ascii_whitespace_without_empty_ones() {
    let w = Separators::AsciiWhitespace;
    let body = chars("learning\trust\r\nin  2024");
    assert!(has_word(&body, &chars("rust"), w));
    assert!(has_word(&body, &chars("2024"), w));
    assert!(!has_word(&body, &chars(""), w));
    assert!(!has_word(&body, &chars("in 2024"), w));
    assert!(!has_word(&chars("a\u{A0}b"), &chars("a"), w));
}

#[test]
fn parse_decimal_follows_str_parse() {
    assert_eq!(parse_decimal(&chars("42"), u32::MAX as u64), Some(42));
    assert_eq!(parse_decimal(&chars("+42"), u32::MAX as u64), Some(42));
    assert_eq!(parse_decimal(&chars("007"), u32::MAX as u64), Some(7));
    assert_eq!(parse_decimal(&chars("-42"), u32::MAX as u64), None);
    assert_eq!(parse_decimal(&chars("+"), u32::MAX as u64), None);
    assert_eq!(parse_decimal(&chars(""), u32::MAX as u64), None);
    assert_eq!(parse_decimal(&chars("4 2"), u32::MAX as u64), None);
    assert_eq!(parse_decimal(&chars("65535"), u16::MAX as u64), Some(65535));
    assert_eq!(parse_decimal(&chars("65536"), u16::MAX as u64), None);
    assert_eq!(parse_decimal(&chars("4294967295"), u32::MAX as u64), Some(4294967295));
    assert_eq!(parse_decimal(&chars("4294967296"), u32::MAX as u64), None);
    assert_eq!(parse_decimal(&chars("99999999999999999999999"), u32::MAX as u64), None);
}

#[test]
fn decimal_string_matches_to_string() {
    for n in [0u64, 7, 10, 12345, 4294967295, u64::MAX] {
        assert_eq!(decimal_string(n), n.to_string());
    }
}

#[test]
fn trimmed_removes_unicode_whitespace() {
    assert_eq!(string_of(&trimmed(&chars("  42\n"))), "42");
    assert_eq!(string_of(&trimmed(&chars("\u{3000}x y\u{A0}"))), "x y");
    assert_eq!(string_of(&trimmed(&chars(" \t "))), "");
}

#[test]
fn lines_follow_bufread_lines() {
    assert_eq!(lines_of(b"a\nb\n"), vec!["a", "b"]);
    assert_eq!(lines_of(b"a\r\nb"), vec!["a", "b"]);
    assert_eq!(lines_of(b"a\nb\r"), vec!["a", "b\r"]);
    assert_eq!(lines_of(b"\n"), vec![""]);
    assert_eq!(lines_of(b""), Vec::<String>::new());
    assert_eq!(lines_of(b"ok\n\xff\xfe\nfine"), vec!["ok", "fine"]);
    assert_eq!(lines_of("caf\u{e9}\n".as_bytes()), vec!["caf\u{e9}"]);
}

#[test]
fn join_and_entries_text() {
    let ts = vec!["rust".to_string(), "go".to_string()];
    assert_eq!(join_newline(&ts), "rust\ngo");
    assert_eq!(entries_file_text(&ts), "rust\ngo\n");
    assert_eq!(entries_file_text(&vec![]), "\n");
    assert_eq!(line_for(&"zig".to_string()), "zig\n");
}

#[test]
fn written_entries_read_back() {
    let ts = vec!["rust".to_string(), "".to_string(), "c++".to_string()];
    let text = entries_file_text(&ts);
    assert_eq!(lines_of(text.as_bytes()), ts);
}

#[test]
fn written_empty_list_reads_back_as_one_empty_line() {
    let text = entries_file_text(&vec![]);
    assert_eq!(lines_of(text.as_bytes()), vec![""]);
}

#[test]
fn appended_line_reads_back_last() {
    let mut file = b"rust\ngo\n".to_vec();
    file.extend_from_slice(line_for(&"zig".to_string()).as_bytes());
    assert_eq!(lines_of(&file), vec!["rust", "go", "zig"]);
}

#[test]
fn chars_and_strings_round_trip() {
    let s = "hé/λ";
    assert_eq!(string_of(&chars_of(s)), s);
}
