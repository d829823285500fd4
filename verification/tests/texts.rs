use tmux_jump::ansi::strip_ansi;
use tmux_jump::names::sanitize_name;
use tmux_jump::text::{
    chars_of, decimal, fields, is_white_space, joined, lines, parse_number, same, text_of, trim,
};

#[test]
fn ansi_stripping_handles_csi_and_osc_sequences() {
    assert_eq!(strip_ansi("\x1b[31mred\x1b[0m"), "red");
    assert_eq!(strip_ansi("\x1b]0;title\x07prompt"), "prompt");
    assert_eq!(strip_ansi("\x1b]8;;https://example.com\x1b\\link\x1b]8;;\x1b\\"), "link");
}

#[test]
fn session_names_are_sanitized_for_tmux() {
    assert_eq!(sanitize_name("my project/api"), "my_project_api");
    assert_eq!(sanitize_name("!!!"), "session");
}

#[test]
fn stripping_edges() {
    assert_eq!(strip_ansi(""), "");
    assert_eq!(strip_ansi("plain · text"), "plain · text");
    // Any other character after an escape is dropped with it.
    assert_eq!(strip_ansi("a\x1b7b"), "ab");
    assert_eq!(strip_ansi("a\x1b\x1b[0mb"), "a[0mb");
    // Sequences that never end take the rest.
    assert_eq!(strip_ansi("a\x1b[31"), "a");
    assert_eq!(strip_ansi("a\x1b]title"), "a");
    assert_eq!(strip_ansi("a\x1b"), "a");
    // The first and the last character that end a control sequence.
    assert_eq!(strip_ansi("\x1b[@x\x1b[~y\x1b[?z"), "xy");
    // An escape inside a title that is not followed by a backslash goes on with the title, and the
    // character behind it is taken whatever it is.
    assert_eq!(strip_ansi("\x1b]a\x1b\x07b\x07c"), "c");
    assert_eq!(strip_ansi("\x1b]a\x1b\x1b\\b\x07c"), "c");
}

#[test]
fn stripping_twice_is_stripping_once() {
    for text in ["\x1b[31mred\x1b[0m", "a\x1b\x1b[0mb", "\x1b]a\x1b\x07b\x07c", "plain"] {
        let once = strip_ansi(text);
        assert!(!once.contains('\x1b'));
        assert_eq!(strip_ansi(&once), once);
    }
}

#[test]
fn sanitizing_edges() {
    assert_eq!(sanitize_name(""), "session");
    assert_eq!(sanitize_name("a.b c/d:e"), "a_b_c_d_e");
    assert_eq!(sanitize_name("über-straße_1"), "ber-strae_1");
    assert_eq!(sanitize_name("\t\n"), "session");
    for name in ["a_b-C9", "session", "..", "my project/api"] {
        let once = sanitize_name(name);
        assert_eq!(sanitize_name(&once), once);
    }
}

#[test]
fn white_space_is_that_of_unicode() {
    for number in 0..=0x10_ffffu32 {
        if let Some(c) = char::from_u32(number) {
            assert_eq!(is_white_space(c), c.is_whitespace(), "{number:x}");
        }
    }
}

#[test]
fn trimming_takes_white_space_from_both_ends() {
    for text in ["", " ", "\t a b\u{3000}\n", "a", " a", "a ", "\u{85}x\u{a0}"] {
        assert_eq!(trim(text), text.trim());
    }
}

#[test]
fn lines_end_as_in_files() {
    for text in ["", "\n", "a", "a\n", "a\nb", "a\r\nb\r\n", "\r\n\r\n", "a\rb\n", "a\n\nb", "a\r", "\r"] {
        let expected: Vec<String> = text.lines().map(|line| line.to_string()).collect();
        assert_eq!(lines(text), expected, "{text:?}");
    }
}

#[test]
fn fields_leave_the_rest_in_the_last() {
    for text in ["", "a", "a|b", "a|b|c", "|", "a||b|c|d|e", "ä|ö"] {
        for count in 1..6usize {
            let expected: Vec<String> = text.splitn(count, '|').map(|part| part.to_string()).collect();
            assert_eq!(fields(text, '|', count), expected, "{text:?} {count}");
        }
    }
}

#[test]
fn numbers_are_read_as_std_reads_them() {
    for text in [
        "", "0", "7", "007", "+5", "+", "-1", "1a", " 1", "18446744073709551615",
        "18446744073709551616", "99999999999999999999", "1_000", "١",
    ] {
        assert_eq!(parse_number(text), text.parse::<u64>().ok(), "{text:?}");
    }
}

#[test]
fn numbers_are_written_in_decimals() {
    for number in [0, 7, 10, 25_000, u64::MAX] {
        assert_eq!(decimal(number), number.to_string());
    }
}

#[test]
fn texts_are_put_together_and_compared() {
    assert_eq!(joined("a·", "b"), "a·b");
    assert!(same("ä", "ä"));
    assert!(!same("ä", "a"));
    assert_eq!(chars_of("a·"), vec!['a', '·']);
    assert_eq!(text_of(&vec!['a', '·', 'b'], 1, 3), "·b");
}

#[test]
fn sequence_between_two_texts_leaves_no_trace() {
    for sequence in ["\x1b[31m", "\x1b[?25h", "\x1b]0;t\x07", "\x1b]8;;x\x1b\\", "\x1b7", "\x1b(" ] {
        for after in ["", "after", "m@~", "\x07", "\\", "[x"] {
            assert_eq!(strip_ansi(&format!("before{sequence}{after}")), format!("before{after}"));
        }
    }
}
