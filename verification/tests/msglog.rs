use crust::msglog::age;
use crust::MessageLog;
use crust::strip_ansi;

#[test]
fn the_cap_drops_the_oldest() {
    let mut log = MessageLog::new(3);
    for m in ["one", "two", "three", "four"] {
        log.push(m, 46);
    }
    let out = log.render();
    assert!(!out.contains("one"), "oldest survived: {}", out);
    assert!(out.contains("four"), "newest missing: {}", out);
    assert_eq!(log.len(), 3);
}

#[test]
fn a_cap_of_zero_keeps_nothing() {
    let mut log = MessageLog::new(0);
    log.push("ignored", 46);
    assert!(log.is_empty());
    assert!(log.render().contains("nothing yet"));
}

#[test]
fn shrinking_the_cap_drops_the_oldest() {
    let mut log = MessageLog::new(5);
    for m in ["a", "b", "c", "d", "e"] {
        log.push(m, 46);
    }
    log.set_cap(2);
    let out = log.render();
    assert_eq!(log.len(), 2);
    assert!(out.contains("d") && out.contains("e"), "{}", out);
}

#[test]
fn ages_read_in_the_largest_unit() {
    assert_eq!(age(0), "just now");
    assert_eq!(age(4), "just now");
    assert_eq!(age(5), "5s");
    assert_eq!(age(59), "59s");
    assert_eq!(age(60), "1m");
    assert_eq!(age(3599), "59m");
    assert_eq!(age(3600), "1h");
    assert_eq!(age(86399), "23h");
    assert_eq!(age(3 * 86400), "3d");
}

#[test]
fn render_right_aligns_the_stamps() {
    let mut log = MessageLog::new(4);
    log.push("first", 46);
    log.push("second", 196);
    let out = log.render_with_ages(&vec![125, 7]);
    assert_eq!(
        out,
        "  \x1b[38;5;244m2m\x1b[39m  \x1b[38;5;46mfirst\x1b[39m\n  \x1b[38;5;244m7s\x1b[39m  \x1b[38;5;196msecond\x1b[39m"
    );
    let out = log.render_with_ages(&vec![12, 0]);
    assert_eq!(
        out,
        "       \x1b[38;5;244m12s\x1b[39m  \x1b[38;5;46mfirst\x1b[39m\n  \x1b[38;5;244mjust now\x1b[39m  \x1b[38;5;196msecond\x1b[39m"
    );
}

#[test]
fn a_fresh_message_is_just_now() {
    let mut log = MessageLog::new(2);
    log.push("hello", 46);
    let out = log.render();
    assert_eq!(out, "  \x1b[38;5;244mjust now\x1b[39m  \x1b[38;5;46mhello\x1b[39m");
}

#[test]
fn the_newest_is_last_and_the_cap_holds() {
    let mut log = MessageLog::new(2);
    log.push("x", 1);
    log.push("y", 2);
    log.push("z", 3);
    assert_eq!(log.len(), 2);
    let out = log.render_with_ages(&vec![0, 0]);
    let lines: Vec<&str> = out.split('\n').collect();
    assert_eq!(lines.len(), 2);
    assert!(lines[0].contains("y"));
    assert!(lines[1].contains("z"));
    log.clear();
    assert!(log.is_empty());
}

#[test]
fn the_log_popup_is_sized_to_fit() {
    let mut log = MessageLog::new(3);
    log.push("Sent to alice", 46);
    let mut p = log.show("Messages", 255, 235, 80, 24);
    // Widest line: "  just now  Sent to alice" is 25 columns, plus 6.
    assert_eq!(p.pane.w, 31);
    // Three lines: the title, an empty line, one message; plus 4.
    assert_eq!(p.pane.h, 7);
    assert_eq!(p.pane.x, 24);
    assert_eq!(p.pane.y, 8);
    assert!(p.pane.text().starts_with("\x1b[1mMessages\x1b[22m\n\n"));
    assert!(p.pane.take_output().contains("Sent to alice"));
}

#[test]
fn messages_start_in_one_column_whatever_their_ages() {
    let mut log = MessageLog::new(5);
    log.push("one", 1);
    log.push("two", 2);
    log.push("three", 3);
    let out = log.render_with_ages(&vec![0, 12, 200000]);
    let lines: Vec<String> = out.split('\n').map(strip_ansi).collect();
    assert_eq!(lines, vec!["  just now  one", "       12s  two", "        2d  three"]);
}
