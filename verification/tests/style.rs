use crust::display_width;
use crust::strip_ansi;
use crust::style::{
    bg, bg_rgb, blink, bold, coded, coded_rgb, dim, fb, fg, fg_rgb, hyperlink, italic, native,
    parse_hex_color, reset_bg, reset_fg, reverse, rgb, rgb_to_xterm, set_bg, set_bg_rgb, set_fg,
    set_fg_rgb, sgr, styled, underline, RESET,
};

#[test]
fn colours_reset_only_what_they_set() {
    assert_eq!(fg("x", 208), "\x1b[38;5;208mx\x1b[39m");
    assert_eq!(bg("x", 0), "\x1b[48;5;0mx\x1b[49m");
    assert_eq!(fb("x", 1, 2), "\x1b[38;5;1;48;5;2mx\x1b[39;49m");
    assert_eq!(native("x"), "\x1b[39mx\x1b[39m");
}

#[test]
fn attributes_reset_only_themselves() {
    assert_eq!(bold("x"), "\x1b[1mx\x1b[22m");
    assert_eq!(dim("x"), "\x1b[2mx\x1b[22m");
    assert_eq!(italic("x"), "\x1b[3mx\x1b[23m");
    assert_eq!(underline("x"), "\x1b[4mx\x1b[24m");
    assert_eq!(blink("x"), "\x1b[5mx\x1b[25m");
    assert_eq!(reverse("x"), "\x1b[7mx\x1b[27m");
}

#[test]
fn colouring_does_not_change_the_width() {
    for t in ["", "abc", "日本", "a\x1b[1mb\x1b[22m"] {
        assert_eq!(display_width(&fg(t, 123)), display_width(t));
        assert_eq!(strip_ansi(&fg(t, 123)), strip_ansi(t));
        assert_eq!(strip_ansi(&bold(t)), strip_ansi(t));
    }
}

#[test]
fn rgb_colours_need_a_valid_hex() {
    assert_eq!(fg_rgb("x", "#ff8000"), "\x1b[38;2;255;128;0mx\x1b[39m");
    assert_eq!(bg_rgb("x", "f80"), "\x1b[48;2;255;136;0mx\x1b[49m");
    assert_eq!(fg_rgb("x", "nope"), "x");
    assert_eq!(bg_rgb("x", "#12345"), "x");
}

#[test]
fn hex_colours_parse() {
    assert_eq!(parse_hex_color("#ff8000"), Some((255, 128, 0)));
    assert_eq!(parse_hex_color("ff8000"), Some((255, 128, 0)));
    assert_eq!(parse_hex_color("##abc"), Some((170, 187, 204)));
    assert_eq!(parse_hex_color("#f80"), Some((255, 136, 0)));
    assert_eq!(parse_hex_color("#zz0000"), None);
    assert_eq!(parse_hex_color("#12345"), None);
    assert_eq!(parse_hex_color(""), None);
}

#[test]
fn xterm_index_of_rgb() {
    assert_eq!(rgb_to_xterm(0, 0, 0), 16);
    assert_eq!(rgb_to_xterm(7, 7, 7), 232);
    assert_eq!(rgb_to_xterm(255, 255, 255), 231);
    assert_eq!(rgb_to_xterm(128, 128, 128), 244);
    assert_eq!(rgb_to_xterm(255, 0, 0), 196);
    assert_eq!(rgb_to_xterm(0, 255, 0), 46);
    assert_eq!(rgb_to_xterm(10, 20, 30), 233);
    assert_eq!(rgb_to_xterm(200, 0, 0), 160);
    assert_eq!(rgb_to_xterm(95, 135, 175), 67);
}

#[test]
fn combined_sequences() {
    assert_eq!(styled("x", Some(1), None, "bu"), "\x1b[38;5;1;1;4mx\x1b[0m");
    assert_eq!(styled("x", None, Some(7), "zr"), "\x1b[48;5;7;7mx\x1b[0m");
    assert_eq!(styled("x", None, None, ""), "x");
    assert_eq!(coded("x", "208,,b"), "\x1b[38;5;208;1mx\x1b[0m");
    assert_eq!(coded("x", "1,2,il"), "\x1b[38;5;1;48;5;2;3;5mx\x1b[0m");
    assert_eq!(coded("x", "300"), "x");
    assert_eq!(coded_rgb("x", Some((1, 2, 3)), Some((4, 5, 6))), "\x1b[38;2;1;2;3;48;2;4;5;6mx\x1b[0m");
    assert_eq!(coded_rgb("x", None, None), "x");
    assert_eq!(rgb("x", Some((1, 2, 3)), None, "d"), "\x1b[2;38;2;1;2;3mx\x1b[0m");
    assert_eq!(rgb("x", None, None, "q"), "x");
}

#[test]
fn bare_sequences() {
    assert_eq!(hyperlink("http://a", "L"), "\x1b]8;;http://a\x1b\\L\x1b]8;;\x1b\\");
    assert_eq!(sgr("01;34"), "\x1b[01;34m");
    assert_eq!(set_fg(9), "\x1b[38;5;9m");
    assert_eq!(set_bg(9), "\x1b[48;5;9m");
    assert_eq!(set_fg_rgb(1, 2, 3), "\x1b[38;2;1;2;3m");
    assert_eq!(set_bg_rgb(1, 2, 3), "\x1b[48;2;1;2;3m");
    assert_eq!(reset_fg(), "\x1b[39m");
    assert_eq!(reset_bg(), "\x1b[49m");
    assert_eq!(RESET, "\x1b[0m");
}

#[test]
fn hex_colours_take_digits_only_and_colour_numbers_a_plus_sign() {
    assert_eq!(parse_hex_color("+f+f+f"), None);
    assert_eq!(parse_hex_color("#+ff+ff"), None);
    assert_eq!(parse_hex_color("#+++"), None);
    assert_eq!(coded("x", "+5,,"), "\x1b[38;5;5mx\x1b[0m");
}

#[test]
fn a_coded_spec_draws_as_styled_does() {
    assert_eq!(coded("x", "1,200,bu"), styled("x", Some(1), Some(200), "bu"));
    assert_eq!(coded("hi", "0,0,"), styled("hi", Some(0), Some(0), ""));
    assert_eq!(coded("x", "255,7,r"), "\x1b[38;5;255;48;5;7;7mx\x1b[0m");
}
