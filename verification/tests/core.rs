use crust::input::{InputEvent, KeyName, KeyState, MOD_CONTROL, MOD_SHIFT};
use crust::{base64_encode, clipboard_copy, display_width, shell_escape, strip_ansi, truncate_ansi};
use crust::{Crust, Cursor, Input};

#[test]
fn strip_removes_every_kind_of_escape() {
    assert_eq!(strip_ansi("\x1b[31mred\x1b[0m plain"), "red plain");
    assert_eq!(strip_ansi("\x1b]8;;http://x\x07link\x1b]8;;\x1b\\ end"), "link end");
    assert_eq!(strip_ansi("a\x1b7b"), "ab");
    assert_eq!(strip_ansi("tail\x1b"), "tail");
    assert_eq!(strip_ansi(""), "");
}

#[test]
fn stripping_twice_is_stripping_once() {
    for s in ["\x1b[1mbold\x1b[22m", "\x1b[38;5;1mx", "a\x1b]0;title\x07b", "plain"] {
        let once = strip_ansi(s);
        assert_eq!(strip_ansi(&once), once);
        assert!(!once.contains('\x1b'));
    }
}

#[test]
fn width_counts_columns_of_visible_text() {
    assert_eq!(display_width("\x1b[1mhello\x1b[22m"), 5);
    assert_eq!(display_width("日本"), 4);
    assert_eq!(display_width(""), 0);
}

#[test]
fn truncation_marks_the_cut() {
    assert_eq!(truncate_ansi("hello world", 5), "hell\u{2026}\x1b[0m");
    assert_eq!(truncate_ansi("hi", 5), "hi\x1b[0m");
    assert_eq!(truncate_ansi("abc", 1), "a\x1b[0m");
    assert_eq!(truncate_ansi("\x1b[31mhello\x1b[0m", 3), "\x1b[31mhe\u{2026}\x1b[0m");
    assert_eq!(truncate_ansi("日本語", 4), "日\u{2026}\x1b[0m");
}

#[test]
fn truncation_closes_an_open_hyperlink() {
    assert_eq!(
        truncate_ansi("\x1b]8;;http://x\x07link text", 3),
        "\x1b]8;;http://x\x07li\u{2026}\x1b]8;;\x1b\\\x1b[0m"
    );
}

#[test]
fn base64_matches_the_standard() {
    assert_eq!(base64_encode(b"Man"), "TWFu");
    assert_eq!(base64_encode(b"Ma"), "TWE=");
    assert_eq!(base64_encode(b"M"), "TQ==");
    assert_eq!(base64_encode(b""), "");
    assert_eq!(base64_encode(b"hello world"), "aGVsbG8gd29ybGQ=");
    for n in 0..10usize {
        let data = vec![7u8; n];
        assert_eq!(base64_encode(&data).len(), 4 * ((n + 2) / 3));
    }
}

#[test]
fn shell_escape_quotes_quotes() {
    assert_eq!(shell_escape("it's"), "'it'\\''s'");
    assert_eq!(shell_escape("plain"), "'plain'");
    assert_eq!(shell_escape(""), "''");
}

#[test]
fn clipboard_request_names_the_selection() {
    let (osc, sel) = clipboard_copy("hi", "primary");
    assert_eq!(osc, "\x1b]52;p;aGk=\x07");
    assert_eq!(sel, "primary");
    let (osc, sel) = clipboard_copy("hi", "clipboard");
    assert_eq!(osc, "\x1b]52;c;aGk=\x07");
    assert_eq!(sel, "clipboard");
    let (osc, _) = clipboard_copy("é", "anything");
    assert_eq!(osc, "\x1b]52;c;w6k=\x07");
}

#[test]
fn terminal_sequences() {
    assert_eq!(Crust::clear_screen(), "\x1b[2J\x1b[H");
    assert_eq!(Crust::set_title("t"), "\x1b]0;t\x07");
    assert_eq!(Crust::set_app_identity("app"), "\x1b]0;app\x07\x1b]1;app\x07\x1b]2;app\x07");
}

#[test]
fn cursor_sequences() {
    assert_eq!(Cursor::set(5, 3), "\x1b[3;5H");
    assert_eq!(Cursor::row(7, (2, 9)), "\x1b[7;9H");
    assert_eq!(Cursor::col(4, (2, 9)), "\x1b[2;4H");
    assert_eq!(Cursor::up(3), "\x1b[3A");
    assert_eq!(Cursor::down(1), "\x1b[1B");
    assert_eq!(Cursor::right(12), "\x1b[12C");
    assert_eq!(Cursor::left(0), "\x1b[0D");
    assert_eq!(Cursor::shape(5), "\x1b[5 q");
    assert_eq!(Cursor::clear_char(2), "\x1b[2X");
    assert_eq!(Cursor::next_line(), "\x1b[E");
    assert_eq!(Cursor::prev_line(), "\x1b[F");
    assert_eq!(Cursor::save(), "\x1b7");
    assert_eq!(Cursor::restore(), "\x1b8");
    assert_eq!(Cursor::clear_line(), "\x1b[2K\r");
    assert_eq!(Cursor::clear_line_before(), "\x1b[1K");
    assert_eq!(Cursor::clear_line_after(), "\x1b[K");
    assert_eq!(Cursor::clear_screen_down(), "\x1b[J");
    assert_eq!(Cursor::scroll_up(), "\x1bM");
    assert_eq!(Cursor::scroll_down(), "\x1bD");
}

#[test]
fn key_names() {
    assert_eq!(Input::key_to_string(KeyName::Char('a'), 0), "a");
    assert_eq!(Input::key_to_string(KeyName::Char('a'), MOD_CONTROL), "C-A");
    assert_eq!(Input::key_to_string(KeyName::Char('1'), MOD_CONTROL), "C-1");
    assert_eq!(Input::key_to_string(KeyName::Char(' '), MOD_CONTROL), "C-SPACE");
    assert_eq!(Input::key_to_string(KeyName::Char('é'), MOD_SHIFT), "é");
    assert_eq!(Input::key_to_string(KeyName::Up, MOD_SHIFT), "S-UP");
    assert_eq!(Input::key_to_string(KeyName::Up, MOD_SHIFT | MOD_CONTROL), "C-UP");
    assert_eq!(Input::key_to_string(KeyName::Down, 0), "DOWN");
    assert_eq!(Input::key_to_string(KeyName::F(5), 0), "F5");
    assert_eq!(Input::key_to_string(KeyName::F(12), MOD_CONTROL), "F12");
    assert_eq!(Input::key_to_string(KeyName::Backspace, MOD_CONTROL), "WBACK");
    assert_eq!(Input::key_to_string(KeyName::Backspace, MOD_SHIFT), "S-BACK");
    assert_eq!(Input::key_to_string(KeyName::Tab, MOD_SHIFT), "S-TAB");
    assert_eq!(Input::key_to_string(KeyName::BackTab, 0), "S-TAB");
    assert_eq!(Input::key_to_string(KeyName::PageDown, MOD_CONTROL), "C-PgDOWN");
    assert_eq!(Input::key_to_string(KeyName::Esc, MOD_CONTROL), "ESC");
    assert_eq!(Input::key_to_string(KeyName::Other, 0), "");
}

#[test]
fn getchr_skips_releases_and_names_pastes() {
    let release = InputEvent::Key { code: KeyName::Char('x'), mods: 0, state: KeyState::Released };
    assert_eq!(Input::getchr_answer(&release), None);
    let press = InputEvent::Key { code: KeyName::Char('x'), mods: 0, state: KeyState::Pressed };
    assert_eq!(Input::getchr_answer(&press), Some("x".to_string()));
    assert_eq!(Input::getchr_answer(&InputEvent::Resize), Some("RESIZE".to_string()));
    assert_eq!(Input::getchr_answer(&InputEvent::Paste("ab".to_string())), Some("PASTE\0ab".to_string()));
    assert_eq!(Input::getchr_answer(&InputEvent::Other), None);
}

#[test]
fn event_ms_reports_what_happened_to_the_key() {
    let release = InputEvent::Key { code: KeyName::Enter, mods: 0, state: KeyState::Released };
    assert_eq!(Input::event_answer(&release), Some(("ENTER".to_string(), KeyState::Released)));
    assert_eq!(Input::event_answer(&InputEvent::Resize), Some(("RESIZE".to_string(), KeyState::Pressed)));
    assert_eq!(Input::event_answer(&InputEvent::Paste("x".to_string())), None);
}

#[test]
fn truncated_plain_text_fits_its_width() {
    for w in 0..14 {
        let r = truncate_ansi("hello world", w);
        assert!(display_width(&r) <= w);
    }
    assert_eq!(strip_ansi(&truncate_ansi("hello world", 6)), "hello\u{2026}");
    assert_eq!(display_width(&truncate_ansi("hello world", 6)), 6);
    assert_eq!(strip_ansi(&truncate_ansi("hello world", 1)), "h");
    assert_eq!(display_width("\u{2502}\u{2500}\u{253c}\u{2026}"), 4);
}

#[test]
fn base64_uses_its_alphabet_and_pads_only_at_the_end() {
    assert_eq!(base64_encode(&[0xfb, 0xff, 0xbf]), "+/+/");
    assert_eq!(base64_encode(&[0xfb, 0xff]), "+/8=");
    let all: Vec<u8> = (0..=255u8).collect();
    let out = base64_encode(&all);
    assert!(out.chars().all(|c| c.is_ascii_alphanumeric() || c == '+' || c == '/' || c == '='));
    assert!(!out[..out.len() - 2].contains('='));
}

#[test]
fn stripping_keeps_the_visible_characters_in_order() {
    let s = "a\x1b[1mb\x1b]0;t\x07c\x1b7d";
    let r = strip_ansi(s);
    assert_eq!(r, "abcd");
    let mut rest = s.chars();
    for c in r.chars() {
        assert!(rest.any(|x| x == c));
    }
}
