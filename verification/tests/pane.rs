use crust::pane::Align;
use crust::Pane;

const COLORS: &str = "\x1b[48;5;0m\x1b[38;5;255m";

fn blank_row(row: u16, width: usize) -> String {
    format!("\x1b[{};1H{}\x1b[0m{}{}\x1b[0m", row, COLORS, COLORS, " ".repeat(width))
}

#[test]
fn say_draws_every_row_once() {
    let mut p = Pane::new(1, 1, 10, 3, 255, 0);
    p.say("hello");
    let expected = format!(
        "\x1b[1;1H{}hello\x1b[0m{}     \x1b[0m{}{}",
        COLORS,
        COLORS,
        blank_row(2, 10),
        blank_row(3, 10)
    );
    assert_eq!(p.take_output(), expected);
    assert_eq!(p.text(), "hello");
    assert!(!p.moreup && !p.moredown);
}

#[test]
fn a_second_refresh_redraws_nothing() {
    let mut p = Pane::new(1, 1, 10, 3, 255, 0);
    p.say("hello");
    p.take_output();
    p.refresh();
    assert_eq!(p.take_output(), "");
}

#[test]
fn only_changed_rows_are_redrawn() {
    let mut p = Pane::new(1, 1, 10, 2, 255, 0);
    p.say("same\nold");
    p.take_output();
    p.set_text("same\nnew");
    p.refresh();
    assert_eq!(p.take_output(), format!("\x1b[2;1H{}new\x1b[0m{}       \x1b[0m", COLORS, COLORS));
}

#[test]
fn scroll_markers_show_more_text() {
    let mut p = Pane::new(1, 1, 10, 2, 255, 0);
    p.say("a\nb\nc");
    let out = p.take_output();
    assert!(out.ends_with("\x1b[2;10H\x1b[38;5;255m\u{2207}\x1b[0m"));
    assert!(p.moredown && !p.moreup);
    p.linedown();
    assert_eq!(p.ix, 1);
    let out = p.take_output();
    assert!(out.ends_with("\x1b[1;10H\x1b[38;5;255m\u{2206}\x1b[0m"));
    assert!(p.moreup && !p.moredown);
    p.refresh();
    assert_eq!(p.take_output(), "\x1b[1;10H\x1b[38;5;255m\u{2206}\x1b[0m");
    p.linedown();
    p.linedown();
    assert_eq!(p.ix, 2);
    p.take_output();
    p.linedown();
    assert_eq!(p.ix, 2);
    assert_eq!(p.take_output(), "");
}

#[test]
fn paging_stays_inside_the_text() {
    let mut p = Pane::new(1, 1, 10, 3, 255, 0);
    p.set_text("0\n1\n2\n3\n4\n5\n6\n7\n8\n9");
    assert_eq!(p.line_count(), 10);
    p.pagedown();
    assert_eq!(p.ix, 2);
    p.bottom();
    assert_eq!(p.ix, 7);
    p.pagedown();
    assert_eq!(p.ix, 7);
    p.pageup();
    assert_eq!(p.ix, 5);
    p.top();
    assert_eq!(p.ix, 0);
    p.lineup();
    assert_eq!(p.ix, 0);
}

#[test]
fn the_line_count_is_cached_until_the_text_changes() {
    let mut p = Pane::new(1, 1, 10, 3, 255, 0);
    p.set_text("a\nb");
    assert_eq!(p.line_count(), 2);
    p.set_text("a\nb\nc");
    assert_eq!(p.line_count(), 3);
    p.set_text("");
    assert_eq!(p.line_count(), 1);
}

#[test]
fn lines_wrap_at_the_width() {
    let mut p = Pane::new(1, 1, 5, 2, 255, 0);
    p.say("aaa bbb");
    let out = p.take_output();
    assert!(out.contains("aaa"));
    assert!(out.contains("\x1b[2;1H"));
    assert!(out.contains("bbb"));
}

#[test]
fn right_aligned_lines_are_padded_on_the_left() {
    let mut p = Pane::new(1, 1, 6, 1, 255, 0);
    p.align = Align::Right;
    p.say("ab");
    assert_eq!(p.take_output(), format!("\x1b[1;1H{}    ab\x1b[0m", COLORS));
}

#[test]
fn the_border_rings_the_content() {
    let mut p = Pane::new(2, 2, 3, 1, 7, 0);
    p.border = true;
    p.border_refresh();
    let codes = "\x1b[38;5;7m\x1b[48;5;0m";
    let expected = format!(
        "\x1b[1;1H{}\u{250c}\u{2500}\u{2500}\u{2500}\u{2510}\x1b[3;1H{}\u{2514}\u{2500}\u{2500}\u{2500}\u{2518}\x1b[2;1H{}\u{2502}\x1b[2;5H\u{2502}\x1b[0m",
        codes, codes, codes
    );
    assert_eq!(p.take_output(), expected);
}

#[test]
fn clear_blanks_the_area() {
    let mut p = Pane::new(1, 1, 3, 1, 255, 0);
    p.say("abc");
    p.take_output();
    p.clear();
    assert_eq!(p.text(), "");
    assert_eq!(p.take_output(), "\x1b[1;1H\x1b[48;5;0m   \x1b[0m");
}

#[test]
fn moving_keeps_coordinates_at_one_or_more() {
    let mut p = Pane::new(5, 5, 3, 1, 255, 0);
    p.move_by(-10, 2);
    assert_eq!(p.x, 1);
    assert_eq!(p.y, 7);
    p.move_by(3, -1);
    assert_eq!((p.x, p.y), (4, 6));
}

#[test]
fn recording_keeps_replaced_text() {
    let mut p = Pane::new(1, 1, 10, 1, 255, 0);
    p.record = true;
    p.set_text("first");
    p.set_text("second");
    p.set_text("");
    assert_eq!(p.history, vec!["first".to_string(), "second".to_string()]);
    p.cleanup();
    assert!(p.history.is_empty());
}

#[test]
fn the_window_title_sequence() {
    assert_eq!(Pane::set_window_title("t"), "\x1b]0;t\x07");
}

#[test]
fn scrolling_by_a_line_moves_the_region_and_draws_one_row() {
    let mut p = Pane::new(1, 1, 4, 3, 255, 0);
    p.set_text("a\nb\nc\nd\ne");
    p.refresh();
    p.take_output();
    p.ix = 1;
    p.scroll_refresh(1);
    let expected = format!(
        "\x1b[1;4H \x1b[3;4H \x1b[1;3r\x1b[3;1H\n\x1b[r\x1b[3;1H{}d\x1b[0m{}   \x1b[0m\x1b[1;4H\x1b[38;5;255m\u{2206}\x1b[0m\x1b[3;4H\x1b[38;5;255m\u{2207}\x1b[0m",
        COLORS, COLORS
    );
    assert_eq!(p.take_output(), expected);
    // Nothing moved since: a diff refresh only puts the markers back.
    p.refresh();
    assert_eq!(
        p.take_output(),
        "\x1b[1;4H\x1b[38;5;255m\u{2206}\x1b[0m\x1b[3;4H\x1b[38;5;255m\u{2207}\x1b[0m"
    );
}

#[test]
fn scrolling_a_whole_page_falls_back_to_a_refresh() {
    let mut p = Pane::new(1, 1, 4, 2, 255, 0);
    p.set_text("a\nb\nc\nd");
    p.refresh();
    p.take_output();
    p.ix = 2;
    p.scroll_refresh(2);
    let out = p.take_output();
    assert!(out.starts_with("\x1b[1;1H"));
    assert!(!out.contains("\x1b[r"));
}

#[test]
fn the_history_keeps_at_most_a_hundred_entries() {
    let mut p = Pane::new(1, 1, 10, 1, 255, 0);
    p.record = true;
    for i in 0..105 {
        p.set_text(&format!("t{}", i));
    }
    assert_eq!(p.history.len(), 100);
    assert_eq!(p.history[0], "t4");
    assert_eq!(p.history[99], "t103");
}

fn one_row(p: &mut Pane, text: &str) -> String {
    p.say(text);
    p.take_output()
}

#[test]
fn a_line_with_its_own_foreground_keeps_it() {
    let mut p = Pane::new(1, 1, 5, 1, 255, 0);
    let c = COLORS;
    assert_eq!(
        one_row(&mut p, "\x1b[31mred\x1b[0m"),
        format!("\x1b[1;1H{c}\x1b[31mred\x1b[0m{c}\x1b[0m{c}  \x1b[0m")
    );
}

#[test]
fn a_short_background_code_is_dropped() {
    let mut p = Pane::new(1, 1, 3, 1, 255, 0);
    let c = COLORS;
    assert_eq!(
        one_row(&mut p, "\x1b[41mX\x1b[0m"),
        format!("\x1b[1;1H{c}X\x1b[0m{c}\x1b[0m{c}  \x1b[0m")
    );
}

#[test]
fn a_line_with_its_own_256_colour_background_keeps_it() {
    let mut p = Pane::new(1, 1, 3, 1, 255, 0);
    let c = COLORS;
    assert_eq!(
        one_row(&mut p, "\x1b[48;5;2mX\x1b[0m"),
        format!("\x1b[1;1H{c}\x1b[48;5;2mX\x1b[0m{c}\x1b[0m{c}  \x1b[0m")
    );
}

#[test]
fn a_background_right_after_an_unfinished_code_is_kept() {
    let mut p = Pane::new(1, 1, 3, 1, 255, 0);
    let c = COLORS;
    assert_eq!(
        one_row(&mut p, "\x1b[1\x1b[48;5;2mX\x1b[0m"),
        format!("\x1b[1;1H{c}\x1b[1\x1b[48;5;2mX\x1b[0m{c}\x1b[0m{c}  \x1b[0m")
    );
}

#[test]
fn tabs_become_eight_spaces() {
    let mut p = Pane::new(1, 1, 10, 1, 255, 0);
    let c = COLORS;
    assert_eq!(one_row(&mut p, "\tx"), format!("\x1b[1;1H{c}        x\x1b[0m{c} \x1b[0m"));
}

#[test]
fn words_wrap_at_the_last_space() {
    let mut p = Pane::new(1, 1, 5, 2, 255, 0);
    let c = COLORS;
    assert_eq!(
        one_row(&mut p, "aaa bbb"),
        format!("\x1b[1;1H{c}aaa\x1b[0m{c}  \x1b[0m\x1b[2;1H{c}bbb\x1b[0m{c}  \x1b[0m")
    );
}

#[test]
fn unwrapped_long_lines_are_cut_with_a_marker() {
    let mut p = Pane::new(1, 1, 4, 1, 255, 0);
    p.wrap = false;
    let c = COLORS;
    assert_eq!(one_row(&mut p, "abcdefgh"), format!("\x1b[1;1H{c}abc\u{2026}\x1b[0m\x1b[0m"));
}

#[test]
fn wrapped_words_are_never_cut() {
    let mut p = Pane::new(1, 1, 8, 6, 255, 0);
    p.say("alpha beta gamma delta eps");
    let out = p.take_output();
    assert!(!out.contains('\u{2026}'));
    for word in ["alpha", "beta", "gamma", "delta", "eps"] {
        assert!(out.contains(word));
    }
}

#[test]
fn an_unfinished_code_is_kept_as_it_is() {
    let mut p = Pane::new(1, 1, 3, 1, 255, 0);
    let c = COLORS;
    assert_eq!(
        one_row(&mut p, "\x1b[1mX\x1b[3"),
        format!("\x1b[1;1H{c}\x1b[1mX\x1b[3\x1b[0m{c}  \x1b[0m")
    );
}

#[test]
fn wrapped_coloured_words_keep_their_codes_and_fit() {
    let mut p = Pane::new(1, 1, 6, 4, 255, 0);
    p.say("\x1b[31mred\x1b[0m and \x1b[32mgreen\x1b[0m words");
    let out = p.take_output();
    assert!(!out.contains('\u{2026}'));
    assert!(out.contains("\x1b[31mred"));
    assert!(out.contains("\x1b[32mgreen"));
    assert!(out.contains("words"));
}

#[test]
fn a_pane_without_markers_draws_at_the_edge() {
    let mut p = Pane::new(0, 1, 0, 1, 255, 0);
    p.clear();
    p.say("");
    p.full_refresh();
    assert!(p.take_output().starts_with("\x1b[1;0H"));
}
