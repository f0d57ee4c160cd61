use crust::input::{KeyName, MOD_CONTROL};
use crust::{Pane, Popup};

#[test]
fn a_centred_popup_sits_in_the_middle() {
    let p = Popup::centered(20, 10, 255, 0, 80, 24);
    assert_eq!((p.pane.x, p.pane.y, p.pane.w, p.pane.h), (30, 7, 20, 10));
    assert!(p.pane.border && p.pane.scroll);
    let q = Popup::centered(100, 30, 255, 0, 80, 24);
    assert_eq!((q.pane.x, q.pane.y), (1, 1));
}

#[test]
fn the_viewer_scrolls_and_closes() {
    let mut p = Popup::new(2, 2, 10, 2, 255, 0);
    p.view("one\ntwo\nthree");
    assert_eq!(p.pane.ix, 0);
    assert!(p.view_key("DOWN") == false);
    assert_eq!(p.pane.ix, 1);
    assert!(!p.view_key("k"));
    assert_eq!(p.pane.ix, 0);
    assert!(!p.view_key("G"));
    assert_eq!(p.pane.ix, 1);
    assert!(!p.view_key("x"));
    assert!(p.view_key("q"));
    assert!(p.view_key("ESC"));
    assert!(p.view_key("ENTER"));
}

#[test]
fn the_menu_moves_the_selection_and_answers() {
    let mut p = Popup::new(2, 2, 10, 2, 255, 0);
    let items = p.modal("alpha\nbeta\ngamma");
    assert_eq!(items.len(), 3);
    assert_eq!(p.pane.index, 0);
    assert!(p.pane.text().starts_with("\x1b[7malpha"));
    assert_eq!(p.modal_key(&items, "DOWN"), None);
    assert_eq!(p.modal_key(&items, "j"), None);
    assert_eq!(p.pane.index, 2);
    // The selection is kept on screen: two rows, third item selected.
    assert_eq!(p.pane.ix, 1);
    assert_eq!(p.modal_key(&items, "DOWN"), None);
    assert_eq!(p.pane.index, 2);
    assert_eq!(p.modal_key(&items, "x"), None);
    assert_eq!(p.modal_key(&items, "ENTER"), Some(Some(2)));
    assert_eq!(p.modal_key(&items, "HOME"), None);
    assert_eq!(p.pane.index, 0);
    assert_eq!(p.pane.ix, 0);
    assert_eq!(p.modal_key(&items, "q"), Some(None));
}

#[test]
fn a_menu_opens_on_a_given_item_within_range() {
    let mut p = Popup::new(2, 2, 10, 5, 255, 0);
    p.pane.index = 9;
    let items = p.modal("a\nb");
    assert_eq!(items.len(), 2);
    assert_eq!(p.pane.index, 1);
}

#[test]
fn dismissing_blanks_the_popup_and_its_ring() {
    let mut p = Popup::new(2, 2, 1, 1, 255, 0);
    p.show("x");
    p.pane.take_output();
    p.dismiss(&mut Vec::new());
    assert_eq!(
        p.pane.take_output(),
        "\x1b[2;2H\x1b[48;5;0m \x1b[0m\x1b[0m\x1b[1;1H   \x1b[3;1H   \x1b[2;1H \x1b[2;3H "
    );
    assert_eq!(p.pane.text(), "");
}

fn shown(x: u16, text: &str) -> Pane {
    let mut p = Pane::new(x, 1, 4, 1, 255, 0);
    p.say(text);
    p.take_output();
    p
}

#[test]
fn dismissing_repaints_each_covered_pane_in_full_in_order() {
    let mut p = Popup::new(2, 1, 3, 1, 255, 0);
    p.show("pop");
    p.pane.take_output();
    let mut covered = vec![shown(1, "left"), shown(6, "right")];
    p.dismiss(&mut covered);
    assert_eq!(covered.len(), 2);
    let mut expected = vec![shown(1, "left"), shown(6, "right")];
    for (got, want) in covered.iter_mut().zip(expected.iter_mut()) {
        want.full_refresh();
        assert_eq!(got.text(), want.text());
        assert_eq!(got.take_output(), want.take_output());
    }
    assert_eq!(covered[0].x, 1);
    assert_eq!(covered[1].x, 6);
    assert_eq!(p.pane.text(), "");
}

#[test]
fn the_editor_draws_prompt_and_text() {
    let mut p = Pane::new(1, 1, 20, 1, 255, 0);
    let st = p.ask("> ", "hi");
    assert_eq!(
        p.take_output(),
        format!("\x1b[1;1H\x1b[48;5;0m\x1b[38;5;255m> hi{}\x1b[0m\x1b[1;5H", " ".repeat(16))
    );
    assert_eq!(st.cursor, 2);
}

#[test]
fn the_editor_edits_at_the_cursor() {
    let mut p = Pane::new(1, 1, 20, 1, 255, 0);
    let mut st = p.ask("", "hi");
    assert!(!p.edit_key(&mut st, KeyName::Char('!'), 0));
    assert!(!p.edit_key(&mut st, KeyName::Home, 0));
    assert!(!p.edit_key(&mut st, KeyName::Char('>'), 0));
    assert!(!p.edit_key(&mut st, KeyName::Right, 0));
    assert!(!p.edit_key(&mut st, KeyName::Delete, 0));
    assert!(!p.edit_key(&mut st, KeyName::Char('\t'), 0));
    assert!(!p.edit_key(&mut st, KeyName::Backspace, 0));
    assert!(!p.edit_key(&mut st, KeyName::End, 0));
    assert!(!p.edit_key(&mut st, KeyName::Left, 0));
    assert!(!p.edit_key(&mut st, KeyName::Char('k'), MOD_CONTROL));
    assert!(p.edit_key(&mut st, KeyName::Enter, 0));
    let text = p.edit_finish(st);
    // "hi!", then ">hi!", then ">h!" (delete under the cursor), then ">!"
    // (backspace), and control-K cuts after the ">".
    assert_eq!(text, ">");
    assert_eq!(p.text(), ">");
}

#[test]
fn escape_empties_the_text() {
    let mut p = Pane::new(1, 1, 20, 1, 255, 0);
    let mut st = p.ask("? ", "draft");
    assert!(p.edit_key(&mut st, KeyName::Esc, 0));
    assert_eq!(p.edit_finish(st), "");
}

#[test]
fn the_history_is_walked_with_up_and_down() {
    let mut p = Pane::new(1, 1, 20, 1, 255, 0);
    p.record = true;
    p.history = vec!["old".to_string(), "newer".to_string()];
    let mut st = p.ask_with_bg("", "typed", 17);
    assert_eq!(p.bg, 17);
    assert!(!p.edit_key(&mut st, KeyName::Up, 0));
    assert_eq!(st.buf.iter().collect::<String>(), "newer");
    assert!(!p.edit_key(&mut st, KeyName::Up, 0));
    assert_eq!(st.buf.iter().collect::<String>(), "old");
    assert!(!p.edit_key(&mut st, KeyName::Up, 0));
    assert_eq!(st.buf.iter().collect::<String>(), "old");
    assert!(!p.edit_key(&mut st, KeyName::Down, 0));
    assert_eq!(st.buf.iter().collect::<String>(), "newer");
    assert!(!p.edit_key(&mut st, KeyName::Down, 0));
    assert_eq!(st.buf.iter().collect::<String>(), "typed");
    assert!(p.edit_key(&mut st, KeyName::Enter, 0));
    let text = p.edit_finish(st);
    assert_eq!(text, "typed");
    assert_eq!(p.bg, 0);
    assert_eq!(p.history.last().unwrap(), "typed");
}

#[test]
fn the_selection_bar_survives_an_item_reset() {
    let mut p = Popup::new(2, 2, 10, 2, 255, 0);
    let _items = p.modal("a\x1b[0mb\nc");
    let text = p.pane.text().to_string();
    assert!(text.starts_with("\x1b[7ma\x1b[0m\x1b[7mb\x1b[0m\x1b[7m"));
}

#[test]
fn the_line_count_follows_the_edited_text() {
    let mut p = Pane::new(1, 1, 20, 1, 255, 0);
    p.set_text("a\nb");
    assert_eq!(p.line_count(), 2);
    let mut st = p.editline();
    assert_eq!(st.cursor, 3);
    for _ in 0..3 {
        assert!(!p.edit_key(&mut st, KeyName::Backspace, 0));
    }
    assert!(!p.edit_key(&mut st, KeyName::Char('x'), 0));
    assert!(!p.edit_key(&mut st, KeyName::Char('\n'), 0));
    assert!(!p.edit_key(&mut st, KeyName::Char('y'), 0));
    assert!(!p.edit_key(&mut st, KeyName::Char('\n'), 0));
    assert!(p.edit_key(&mut st, KeyName::Enter, 0));
    assert_eq!(p.edit_finish(st), "x\ny\n");
    assert_eq!(p.line_count(), 3);
}
