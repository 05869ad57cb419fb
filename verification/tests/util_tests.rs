use miniutils::cat::cat_render;
use miniutils::cat::Config;
use miniutils::echo::echo_line;
use miniutils::fmt::format_padded;
use miniutils::head::head_bytes;
use miniutils::head::head_lines;
use miniutils::lines::lines_match;
use miniutils::lines::split_lines;
use miniutils::wc::count;
use miniutils::wc::effective_flags;
use miniutils::wc::format_report;
use miniutils::wc::FileInfo;

fn bytes(s: &str) -> Vec<u8> {
    s.as_bytes().to_vec()
}

fn byte_lines(parts: &[&str]) -> Vec<Vec<u8>> {
    parts.iter().map(|p| bytes(p)).collect()
}

#[test]
fn test_count() {
    let text = "I don't want the world. I just want your half.\r\n";
    let info = count(&text.chars().collect());
    let expected = FileInfo { num_lines: 1, num_words: 10, num_bytes: 48, num_chars: 48 };
    assert_eq!(info, expected);
}

#[test]
fn count_multibyte_text() {
    let text = "caf\u{e9}\n\u{4e16}\u{754c}";
    let info = count(&text.chars().collect());
    assert_eq!(
        info,
        FileInfo { num_lines: 2, num_words: 2, num_bytes: 12, num_chars: 7 }
    );
}

#[test]
fn count_empty_text() {
    let info = count(&Vec::new());
    assert_eq!(
        info,
        FileInfo { num_lines: 0, num_words: 0, num_bytes: 0, num_chars: 0 }
    );
}

#[test]
fn totals_accumulate() {
    let mut total = FileInfo { num_lines: 1, num_words: 2, num_bytes: 3, num_chars: 4 };
    total.accumulate(&FileInfo { num_lines: 10, num_words: 20, num_bytes: 30, num_chars: 40 });
    assert_eq!(
        total,
        FileInfo { num_lines: 11, num_words: 22, num_bytes: 33, num_chars: 44 }
    );
}

#[test]
fn default_report_shows_lines_words_bytes() {
    assert_eq!(effective_flags(false, false, false, false), (true, true, true, false));
    assert_eq!(effective_flags(false, false, false, true), (false, false, false, true));
    assert_eq!(effective_flags(true, false, true, false), (true, false, true, false));
}

#[test]
fn report_line_is_column_aligned() {
    let info = FileInfo { num_lines: 1, num_words: 10, num_bytes: 48, num_chars: 48 };
    let out = format_report(&info, true, true, true, false, &bytes("fun.txt"), true);
    assert_eq!(String::from_utf8(out).unwrap(), "       1      10      48 fun.txt\n");
    let bare = format_report(&info, true, true, true, false, &bytes("-"), false);
    assert_eq!(String::from_utf8(bare).unwrap(), "       1      10      48\n");
}

#[test]
fn padded_fields_keep_wide_numbers() {
    assert_eq!(format_padded(2, 4), bytes("   2"));
    assert_eq!(format_padded(0, 4), bytes("   0"));
    assert_eq!(format_padded(12345, 4), bytes("12345"));
    assert_eq!(format_padded(7, 8), bytes("       7"));
}

#[test]
fn splitting_keeps_terminators() {
    assert_eq!(split_lines(&bytes("")), Vec::<Vec<u8>>::new());
    assert_eq!(split_lines(&bytes("a\nb")), byte_lines(&["a\n", "b"]));
    assert_eq!(split_lines(&bytes("\n\n")), byte_lines(&["\n", "\n"]));
    assert_eq!(split_lines(&bytes("x\r\ny\n")), byte_lines(&["x\r\n", "y\n"]));
}

#[test]
fn terminator_stripped_comparison() {
    assert!(lines_match(&bytes("a\n"), &bytes("a\r\n")));
    assert!(lines_match(&bytes("a"), &bytes("a\n")));
    assert!(!lines_match(&bytes("a \n"), &bytes("a\n")));
    assert!(!lines_match(&bytes("a\n"), &bytes("b\n")));
    assert!(lines_match(&bytes(""), &bytes("\n")));
}

#[test]
fn cat_numbering_modes() {
    let lines = byte_lines(&["hello", "", "world"]);
    let plain = cat_render(&lines, false, false);
    assert_eq!(String::from_utf8(plain).unwrap(), "hello\n\nworld\n");
    let numbered = cat_render(&lines, true, false);
    assert_eq!(
        String::from_utf8(numbered).unwrap(),
        "     1\thello\n     2\t\n     3\tworld\n"
    );
    let nonblank = cat_render(&lines, false, true);
    assert_eq!(
        String::from_utf8(nonblank).unwrap(),
        "     1\thello\n\n     2\tworld\n"
    );
}

#[test]
fn cat_config_carries_options() {
    let config = Config {
        files: vec![String::from("-")],
        number_lines: false,
        number_nonblank_lines: true,
    };
    assert_eq!(config.files.len(), 1);
    let out = cat_render(&byte_lines(&["x"]), config.number_lines, config.number_nonblank_lines);
    assert_eq!(String::from_utf8(out).unwrap(), "     1\tx\n");
}

#[test]
fn head_truncates_bytes() {
    assert_eq!(head_bytes(&bytes("abcdef"), 4), bytes("abcd"));
    assert_eq!(head_bytes(&bytes("ab"), 4), bytes("ab"));
    assert_eq!(head_bytes(&bytes("ab"), 0), bytes(""));
}

#[test]
fn head_truncates_lines() {
    let lines = split_lines(&bytes("a\nb\nc\n"));
    assert_eq!(head_lines(&lines, 2), bytes("a\nb\n"));
    assert_eq!(head_lines(&lines, 10), bytes("a\nb\nc\n"));
    assert_eq!(head_lines(&lines, 0), bytes(""));
}

#[test]
fn echo_joins_with_spaces() {
    let args = byte_lines(&["Hello", "world"]);
    assert_eq!(echo_line(&args, false), bytes("Hello world\n"));
    assert_eq!(echo_line(&args, true), bytes("Hello world"));
    assert_eq!(echo_line(&Vec::new(), false), bytes("\n"));
}
