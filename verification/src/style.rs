//! Text styling: ANSI colour and attribute sequences around a text.

use vstd::prelude::*;

use crate::{at_rest, display_width_spec, lemma_csi, lemma_strip_concat, strip_seq, strip_state};
use crate::chars::{
    is_alpha, is_digit, chars_of, dec, hex_val, hex_val_exec, join, join_strings, parse_u8, parse_u8_spec,
    push_dec, split_char, split_chars, views, digit, dec_value, all_digits, lemma_split_around,
    lemma_split_none,
};

verus! {

/// The decimal numeral of a byte.
pub open spec fn d8(n: u8) -> Seq<char> {
    dec(n as nat)
}

/// `text` in the 256-colour foreground `color`, then the default foreground.
pub open spec fn fg_spec(text: Seq<char>, color: u8) -> Seq<char> {
    "\x1b[38;5;"@ + d8(color) + "m"@ + text + "\x1b[39m"@
}

/// Apply foreground color (0-255). Resets only fg (SGR 39), not all attributes.
pub fn fg(text: &str, color: u8) -> (r: String)
    ensures
        r@ == fg_spec(text@, color),
{
    let mut r = String::new();
    r.append("\x1b[38;5;");
    push_dec(&mut r, color as u64);
    r.append("m");
    r.append(text);
    r.append("\x1b[39m");
    r
}

/// Wrap `text` so it renders in the terminal's native foreground —
/// useful for emoji glyphs that would otherwise be tinted by an
/// outer `fg(...)`. Emits `CSI 39` (default fg) before and after.
pub fn native(text: &str) -> (r: String)
    ensures
        r@ == "\x1b[39m"@ + text@ + "\x1b[39m"@,
{
    let mut r = String::from_str("\x1b[39m");
    r.append(text);
    r.append("\x1b[39m");
    r
}

/// The truecolor parameters `r;g;b`.
pub open spec fn rgb_params(r: u8, g: u8, b: u8) -> Seq<char> {
    d8(r) + ";"@ + d8(g) + ";"@ + d8(b)
}

fn push_rgb_params(out: &mut String, r: u8, g: u8, b: u8)
    ensures
        final(out)@ == old(out)@ + rgb_params(r, g, b),
{
    push_dec(out, r as u64);
    out.append(";");
    push_dec(out, g as u64);
    out.append(";");
    push_dec(out, b as u64);
}

/// Apply foreground color from RGB hex string
pub fn fg_rgb(text: &str, hex: &str) -> (res: String)
    ensures
        res@ == match parse_hex_spec(hex@) {
            Some((r, g, b)) => "\x1b[38;2;"@ + rgb_params(r, g, b) + "m"@ + text@ + "\x1b[39m"@,
            None => text@,
        },
{
    match parse_hex(hex) {
        Some((r, g, b)) => {
            let mut res = String::from_str("\x1b[38;2;");
            push_rgb_params(&mut res, r, g, b);
            res.append("m");
            res.append(text);
            res.append("\x1b[39m");
            res
        },
        None => String::from_str(text),
    }
}

/// Apply background color (0-255). Resets only bg (SGR 49), not all attributes.
pub fn bg(text: &str, color: u8) -> (r: String)
    ensures
        r@ == "\x1b[48;5;"@ + d8(color) + "m"@ + text@ + "\x1b[49m"@,
{
    let mut r = String::from_str("\x1b[48;5;");
    push_dec(&mut r, color as u64);
    r.append("m");
    r.append(text);
    r.append("\x1b[49m");
    r
}

/// Apply background color from RGB hex string
pub fn bg_rgb(text: &str, hex: &str) -> (res: String)
    ensures
        res@ == match parse_hex_spec(hex@) {
            Some((r, g, b)) => "\x1b[48;2;"@ + rgb_params(r, g, b) + "m"@ + text@ + "\x1b[49m"@,
            None => text@,
        },
{
    match parse_hex(hex) {
        Some((r, g, b)) => {
            let mut res = String::from_str("\x1b[48;2;");
            push_rgb_params(&mut res, r, g, b);
            res.append("m");
            res.append(text);
            res.append("\x1b[49m");
            res
        },
        None => String::from_str(text),
    }
}

/// Apply both foreground and background (0-255). Resets both fg+bg.
pub fn fb(text: &str, fgc: u8, bgc: u8) -> (r: String)
    ensures
        r@ == "\x1b[38;5;"@ + d8(fgc) + ";48;5;"@ + d8(bgc) + "m"@ + text@ + "\x1b[39;49m"@,
{
    let mut r = String::from_str("\x1b[38;5;");
    push_dec(&mut r, fgc as u64);
    r.append(";48;5;");
    push_dec(&mut r, bgc as u64);
    r.append("m");
    r.append(text);
    r.append("\x1b[39;49m");
    r
}

/// `text` between an opening and a closing sequence.
fn wrap_in(open: &str, text: &str, close: &str) -> (r: String)
    ensures
        r@ == open@ + text@ + close@,
{
    let mut r = String::from_str(open);
    r.append(text);
    r.append(close);
    r
}

/// `text` in bold, then bold off.
pub open spec fn bold_spec(text: Seq<char>) -> Seq<char> {
    "\x1b[1m"@ + text + "\x1b[22m"@
}

/// Bold. Resets only bold (SGR 22).
pub fn bold(text: &str) -> (r: String)
    ensures
        r@ == bold_spec(text@),
{
    wrap_in("\x1b[1m", text, "\x1b[22m")
}

/// Dim / faint. Resets only bold+faint (SGR 22), so surrounding color
/// survives.
pub fn dim(text: &str) -> (r: String)
    ensures
        r@ == "\x1b[2m"@ + text@ + "\x1b[22m"@,
{
    wrap_in("\x1b[2m", text, "\x1b[22m")
}

/// Italic. Resets only italic (SGR 23).
pub fn italic(text: &str) -> (r: String)
    ensures
        r@ == "\x1b[3m"@ + text@ + "\x1b[23m"@,
{
    wrap_in("\x1b[3m", text, "\x1b[23m")
}

/// Underline. Resets only underline (SGR 24).
pub fn underline(text: &str) -> (r: String)
    ensures
        r@ == "\x1b[4m"@ + text@ + "\x1b[24m"@,
{
    wrap_in("\x1b[4m", text, "\x1b[24m")
}

/// Blink. Resets only blink (SGR 25).
pub fn blink(text: &str) -> (r: String)
    ensures
        r@ == "\x1b[5m"@ + text@ + "\x1b[25m"@,
{
    wrap_in("\x1b[5m", text, "\x1b[25m")
}

/// Reverse video. Resets only reverse (SGR 27).
pub fn reverse(text: &str) -> (r: String)
    ensures
        r@ == "\x1b[7m"@ + text@ + "\x1b[27m"@,
{
    wrap_in("\x1b[7m", text, "\x1b[27m")
}

/// The SGR code of an attribute letter: `b` 1, `d` 2 (where `with_dim`),
/// `i` 3, `u` 4, `l` 5, `r` 7; other letters give none.
pub open spec fn attr_code(c: char, with_dim: bool) -> Seq<Seq<char>> {
    if c == 'b' {
        seq!["1"@]
    } else if with_dim && c == 'd' {
        seq!["2"@]
    } else if c == 'i' {
        seq!["3"@]
    } else if c == 'u' {
        seq!["4"@]
    } else if c == 'l' {
        seq!["5"@]
    } else if c == 'r' {
        seq!["7"@]
    } else {
        Seq::empty()
    }
}

/// The SGR codes of an attribute string, in order.
pub open spec fn attr_codes(a: Seq<char>, with_dim: bool) -> Seq<Seq<char>>
    decreases a.len(),
{
    if a.len() == 0 {
        Seq::empty()
    } else {
        attr_codes(a.drop_last(), with_dim) + attr_code(a.last(), with_dim)
    }
}

fn push_attr_codes(codes: &mut Vec<String>, attrs: &Vec<char>, with_dim: bool)
    ensures
        views(final(codes)@) == views(old(codes)@) + attr_codes(attrs@, with_dim),
{
    let mut i: usize = 0;
    while i < attrs.len()
        invariant
            0 <= i <= attrs@.len(),
            views(codes@) == views(old(codes)@) + attr_codes(attrs@.take(i as int), with_dim),
        decreases attrs@.len() - i,
    {
        let ch = attrs[i];
        assert(attrs@.take(i + 1).drop_last() == attrs@.take(i as int));
        let ghost before = codes@;
        if ch == 'b' {
            codes.push(String::from_str("1"));
        } else if with_dim && ch == 'd' {
            codes.push(String::from_str("2"));
        } else if ch == 'i' {
            codes.push(String::from_str("3"));
        } else if ch == 'u' {
            codes.push(String::from_str("4"));
        } else if ch == 'l' {
            codes.push(String::from_str("5"));
        } else if ch == 'r' {
            codes.push(String::from_str("7"));
        }
        assert(views(codes@) == views(before) + attr_code(ch, with_dim));
        i += 1;
    }
    assert(attrs@.take(attrs@.len() as int) == attrs@);
}

/// `text` under the SGR codes, in one sequence closed by a full reset;
/// `text` alone when there are no codes.
pub open spec fn sgr_wrap(text: Seq<char>, codes: Seq<Seq<char>>) -> Seq<char> {
    if codes.len() == 0 {
        text
    } else {
        "\x1b["@ + join(codes, ";"@) + "m"@ + text + "\x1b[0m"@
    }
}

fn sgr_wrap_exec(text: &str, codes: &Vec<String>) -> (r: String)
    ensures
        r@ == sgr_wrap(text@, views(codes@)),
{
    if codes.len() == 0 {
        String::from_str(text)
    } else {
        let mut r = String::from_str("\x1b[");
        let j = join_strings(codes, ";");
        r.append(j.as_str());
        r.append("m");
        r.append(text);
        r.append("\x1b[0m");
        r
    }
}

/// The code `38;5;n` (foreground) or `48;5;n` (background).
pub open spec fn code256(fore: bool, n: u8) -> Seq<char> {
    (if fore { "38;5;"@ } else { "48;5;"@ }) + d8(n)
}

fn code256_exec(fore: bool, n: u8) -> (r: String)
    ensures
        r@ == code256(fore, n),
{
    let mut r = if fore { String::from_str("38;5;") } else { String::from_str("48;5;") };
    push_dec(&mut r, n as u64);
    r
}

/// The code `38;2;r;g;b` (foreground) or `48;2;r;g;b` (background).
pub open spec fn code_rgb(fore: bool, c: (u8, u8, u8)) -> Seq<char> {
    (if fore { "38;2;"@ } else { "48;2;"@ }) + rgb_params(c.0, c.1, c.2)
}

fn code_rgb_exec(fore: bool, c: (u8, u8, u8)) -> (r: String)
    ensures
        r@ == code_rgb(fore, c),
{
    let mut r = if fore { String::from_str("38;2;") } else { String::from_str("48;2;") };
    push_rgb_params(&mut r, c.0, c.1, c.2);
    r
}

/// The codes of an optional colour.
pub open spec fn opt_code256(fore: bool, c: Option<u8>) -> Seq<Seq<char>> {
    match c {
        Some(n) => seq![code256(fore, n)],
        None => Seq::empty(),
    }
}

pub open spec fn opt_code_rgb(fore: bool, c: Option<(u8, u8, u8)>) -> Seq<Seq<char>> {
    match c {
        Some(t) => seq![code_rgb(fore, t)],
        None => Seq::empty(),
    }
}

/// Apply multiple style attributes in a single ANSI sequence (no nesting issues).
/// Pass None for fg/bg to leave them at terminal default.
/// attrs: combination of 'b' (bold), 'i' (italic), 'u' (underline), 'l' (blink), 'r' (reverse)
pub fn styled(text: &str, fgc: Option<u8>, bgc: Option<u8>, attrs: &str) -> (r: String)
    ensures
        r@ == sgr_wrap(
            text@,
            opt_code256(true, fgc) + opt_code256(false, bgc) + attr_codes(attrs@, false),
        ),
{
    let mut codes: Vec<String> = Vec::new();
    if let Some(f) = fgc {
        codes.push(code256_exec(true, f));
    }
    if let Some(b) = bgc {
        codes.push(code256_exec(false, b));
    }
    assert(views(codes@) == opt_code256(true, fgc) + opt_code256(false, bgc));
    let a = chars_of(attrs);
    push_attr_codes(&mut codes, &a, false);
    sgr_wrap_exec(text, &codes)
}

/// The codes that a `coded` spec `fg,bg,attrs` asks for: each colour
/// that parses as a `u8`, then the attribute letters.
pub open spec fn coded_codes(spec: Seq<char>) -> Seq<Seq<char>> {
    let parts = split_char(spec, ',');
    (match parse_u8_spec(parts[0]) {
        Some(n) => seq![code256(true, n)],
        None => Seq::empty(),
    }) + (if parts.len() > 1 {
        match parse_u8_spec(parts[1]) {
            Some(n) => seq![code256(false, n)],
            None => Seq::empty(),
        }
    } else {
        Seq::empty()
    }) + (if parts.len() > 2 {
        attr_codes(parts[2], false)
    } else {
        Seq::empty()
    })
}

/// Coded format: "fg,bg,biulr"
pub fn coded(text: &str, spec: &str) -> (r: String)
    ensures
        r@ == sgr_wrap(text@, coded_codes(spec@)),
{
    let sc = chars_of(spec);
    let parts = split_chars(&sc, ',');
    proof { crate::chars::lemma_split_nonempty(sc@, ','); }
    let ghost sp = split_char(sc@, ',');
    assert(parts@[0]@ == sp[0]);
    let mut codes: Vec<String> = Vec::new();
    if let Some(n) = parse_u8(&parts[0]) {
        codes.push(code256_exec(true, n));
    }
    let ghost c0 = views(codes@);
    if parts.len() > 1 {
        assert(parts@[1]@ == sp[1]);
        if let Some(n) = parse_u8(&parts[1]) {
            codes.push(code256_exec(false, n));
        }
    }
    let ghost c1 = views(codes@);
    if parts.len() > 2 {
        assert(parts@[2]@ == sp[2]);
        push_attr_codes(&mut codes, &parts[2], false);
    }
    assert(views(codes@) == coded_codes(spec@));
    sgr_wrap_exec(text, &codes)
}

/// Truecolor (24-bit) sibling of `coded`: optional (r,g,b) fg/bg. Terminates
/// with a full reset (`\x1b[0m`) so a host pane restores its own colors after.
pub fn coded_rgb(text: &str, fg: Option<(u8, u8, u8)>, bg: Option<(u8, u8, u8)>) -> (r: String)
    ensures
        r@ == sgr_wrap(text@, opt_code_rgb(true, fg) + opt_code_rgb(false, bg)),
{
    let mut codes: Vec<String> = Vec::new();
    if let Some(c) = fg {
        codes.push(code_rgb_exec(true, c));
    }
    if let Some(c) = bg {
        codes.push(code_rgb_exec(false, c));
    }
    assert(views(codes@) == opt_code_rgb(true, fg) + opt_code_rgb(false, bg));
    sgr_wrap_exec(text, &codes)
}

/// Truecolor with attributes, in ONE escape sequence: the attribute
/// letters (`b`, `d`, `i`, `u`, `l`, `r`) first, then the colours.
pub fn rgb(text: &str, fg: Option<(u8, u8, u8)>, bg: Option<(u8, u8, u8)>, attrs: &str) -> (r: String)
    ensures
        r@ == sgr_wrap(
            text@,
            attr_codes(attrs@, true) + opt_code_rgb(true, fg) + opt_code_rgb(false, bg),
        ),
{
    let mut codes: Vec<String> = Vec::new();
    let a = chars_of(attrs);
    push_attr_codes(&mut codes, &a, true);
    let ghost after_attrs = codes@;
    if let Some(c) = fg {
        codes.push(code_rgb_exec(true, c));
    }
    if let Some(c) = bg {
        codes.push(code_rgb_exec(false, c));
    }
    assert(views(codes@) == views(after_attrs) + opt_code_rgb(true, fg) + opt_code_rgb(false, bg));
    sgr_wrap_exec(text, &codes)
}

/// A bare SGR reset, for callers assembling their own spans.
pub const RESET: &'static str = "\x1b[0m";

/// Reverse video on, with no reset.
pub const REVERSE: &'static str = "\x1b[7m";

/// An OSC 8 hyperlink: `label` becomes clickable, pointing at `url`.
/// The link is closed with an empty OSC 8.
pub fn hyperlink(url: &str, label: &str) -> (r: String)
    ensures
        r@ == "\x1b]8;;"@ + url@ + "\x1b\\"@ + label@ + "\x1b]8;;\x1b\\"@,
{
    let mut r = String::from_str("\x1b]8;;");
    r.append(url);
    r.append("\x1b\\");
    r.append(label);
    r.append("\x1b]8;;\x1b\\");
    r
}

/// Wrap an SGR parameter string that came from outside the program
/// into a usable escape.
pub fn sgr(spec: &str) -> (r: String)
    ensures
        r@ == "\x1b["@ + spec@ + "m"@,
{
    wrap_in("\x1b[", spec, "m")
}

/// Just the "switch foreground to this 256-color" sequence, with no reset.
pub fn set_fg(color: u8) -> (r: String)
    ensures
        r@ == "\x1b["@ + code256(true, color) + "m"@,
{
    let mut r = String::from_str("\x1b[");
    let c = code256_exec(true, color);
    r.append(c.as_str());
    r.append("m");
    r
}

/// Truecolor sibling of `set_fg`.
pub fn set_fg_rgb(r: u8, g: u8, b: u8) -> (s: String)
    ensures
        s@ == "\x1b["@ + code_rgb(true, (r, g, b)) + "m"@,
{
    let mut s = String::from_str("\x1b[");
    let c = code_rgb_exec(true, (r, g, b));
    s.append(c.as_str());
    s.append("m");
    s
}

/// Background counterpart of `set_fg`.
pub fn set_bg(color: u8) -> (r: String)
    ensures
        r@ == "\x1b["@ + code256(false, color) + "m"@,
{
    let mut r = String::from_str("\x1b[");
    let c = code256_exec(false, color);
    r.append(c.as_str());
    r.append("m");
    r
}

/// Truecolor sibling of `set_bg`.
pub fn set_bg_rgb(r: u8, g: u8, b: u8) -> (s: String)
    ensures
        s@ == "\x1b["@ + code_rgb(false, (r, g, b)) + "m"@,
{
    let mut s = String::from_str("\x1b[");
    let c = code_rgb_exec(false, (r, g, b));
    s.append(c.as_str());
    s.append("m");
    s
}

/// Return the background to the terminal default (SGR 49).
pub fn reset_bg() -> (r: String)
    ensures
        r@ == "\x1b[49m"@,
{
    String::from_str("\x1b[49m")
}

/// Return the foreground to the terminal default (SGR 39), leaving
/// background and attributes alone.
pub fn reset_fg() -> (r: String)
    ensures
        r@ == "\x1b[39m"@,
{
    String::from_str("\x1b[39m")
}

/// `s` without the leading run of `c` (`str::trim_start_matches` with a char).
pub open spec fn trim_start_char(s: Seq<char>, c: char) -> Seq<char>
    decreases s.len(),
{
    if s.len() > 0 && s[0] == c {
        trim_start_char(s.skip(1), c)
    } else {
        s
    }
}

proof fn lemma_trim_start(s: Seq<char>, c: char, i: int)
    requires
        0 <= i <= s.len(),
        forall|j: int| 0 <= j < i ==> s[j] == c,
        i == s.len() || s[i] != c,
    ensures
        trim_start_char(s, c) == s.skip(i),
    decreases i,
{
    if i > 0 {
        assert(s.skip(1).skip(i - 1) == s.skip(i));
        lemma_trim_start(s.skip(1), c, i - 1);
    } else {
        assert(s.skip(0) == s);
    }
}

/// The byte written by two hexadecimal digits `a b`, if both are digits.
pub open spec fn hex_pair(a: char, b: char) -> Option<u8> {
    match (hex_val(a), hex_val(b)) {
        (Some(x), Some(y)) => Some((x * 16 + y) as u8),
        _ => None,
    }
}

fn hex_pair_exec(a: char, b: char) -> (r: Option<u8>)
    ensures
        r == hex_pair(a, b),
{
    match (hex_val_exec(a), hex_val_exec(b)) {
        (Some(x), Some(y)) => Some((x * 16 + y) as u8),
        _ => None,
    }
}

/// What `parse_hex_color` returns: after any leading `#`, six characters
/// `RRGGBB` or three `RGB` (each doubled), every pair read as hexadecimal.
pub open spec fn parse_hex_spec(hex: Seq<char>) -> Option<(u8, u8, u8)> {
    let h = trim_start_char(hex, '#');
    if h.len() == 6 {
        match (hex_pair(h[0], h[1]), hex_pair(h[2], h[3]), hex_pair(h[4], h[5])) {
            (Some(r), Some(g), Some(b)) => Some((r, g, b)),
            _ => None,
        }
    } else if h.len() == 3 {
        match (hex_pair(h[0], h[0]), hex_pair(h[1], h[1]), hex_pair(h[2], h[2])) {
            (Some(r), Some(g), Some(b)) => Some((r, g, b)),
            _ => None,
        }
    } else {
        None
    }
}

/// Parse hex color string ("#RRGGBB" or "#RGB") to (r, g, b)
pub fn parse_hex_color(hex: &str) -> (res: Option<(u8, u8, u8)>)
    ensures
        res == parse_hex_spec(hex@),
{
    let cs = chars_of(hex);
    let mut i: usize = 0;
    while i < cs.len() && cs[i] == '#'
        invariant
            0 <= i <= cs@.len(),
            forall|j: int| 0 <= j < i ==> cs@[j] == '#',
        decreases cs@.len() - i,
    {
        i += 1;
    }
    proof { lemma_trim_start(cs@, '#', i as int); }
    let n = cs.len() - i;
    if n == 6 {
        let r = hex_pair_exec(cs[i], cs[i + 1]);
        let g = hex_pair_exec(cs[i + 2], cs[i + 3]);
        let b = hex_pair_exec(cs[i + 4], cs[i + 5]);
        match (r, g, b) {
            (Some(r), Some(g), Some(b)) => Some((r, g, b)),
            _ => None,
        }
    } else if n == 3 {
        let r = hex_pair_exec(cs[i], cs[i]);
        let g = hex_pair_exec(cs[i + 1], cs[i + 1]);
        let b = hex_pair_exec(cs[i + 2], cs[i + 2]);
        match (r, g, b) {
            (Some(r), Some(g), Some(b)) => Some((r, g, b)),
            _ => None,
        }
    } else {
        None
    }
}

fn parse_hex(hex: &str) -> (res: Option<(u8, u8, u8)>)
    ensures
        res == parse_hex_spec(hex@),
{
    parse_hex_color(hex)
}

/// The level of step `i` (0 to 5) of the xterm colour cube.
pub open spec fn cube_level(i: int) -> int {
    if i == 0 { 0 } else { 55 + 40 * i }
}

/// The colour of the xterm-256 index `x` (16 to 255): the 6x6x6 cube
/// for 16 to 231, the grey ramp 8, 18, ..., 238 for 232 to 255.
pub open spec fn xterm_colour(x: int) -> (int, int, int) {
    if x < 232 {
        let k = x - 16;
        (cube_level(k / 36), cube_level((k / 6) % 6), cube_level(k % 6))
    } else {
        let v = 8 + 10 * (x - 232);
        (v, v, v)
    }
}

/// The squared distance from the colour of index `x` to (r, g, b).
pub open spec fn xterm_dist(x: int, r: u8, g: u8, b: u8) -> int {
    let c = xterm_colour(x);
    (c.0 - r) * (c.0 - r) + (c.1 - g) * (c.1 - g) + (c.2 - b) * (c.2 - b)
}

fn cube_level_exec(i: u16) -> (v: i64)
    requires
        i < 6,
    ensures
        v == cube_level(i as int),
{
    if i == 0 { 0 } else { 55 + 40 * (i as i64) }
}

fn xterm_dist_exec(x: u16, r: u8, g: u8, b: u8) -> (d: i64)
    requires
        16 <= x <= 255,
    ensures
        d == xterm_dist(x as int, r, g, b),
{
    let (cr, cg, cb): (i64, i64, i64) = if x < 232 {
        let k = x - 16;
        (cube_level_exec(k / 36), cube_level_exec((k / 6) % 6), cube_level_exec(k % 6))
    } else {
        let v: i64 = 8 + 10 * ((x - 232) as i64);
        (v, v, v)
    };
    let dr = cr - r as i64;
    let dg = cg - g as i64;
    let db = cb - b as i64;
    assert(-255 <= dr <= 255 && -255 <= dg <= 255 && -255 <= db <= 255);
    assert(dr * dr <= 65025 && dg * dg <= 65025 && db * db <= 65025) by (nonlinear_arith)
        requires -255 <= dr <= 255, -255 <= dg <= 255, -255 <= db <= 255;
    assert(dr * dr >= 0 && dg * dg >= 0 && db * db >= 0) by (nonlinear_arith);
    dr * dr + dg * dg + db * db
}

/// Convert RGB values to the nearest xterm-256 color index: the index
/// from 16 to 255 whose colour is nearest in squared RGB distance, the
/// lowest such index where several are.
pub fn rgb_to_xterm(r: u8, g: u8, b: u8) -> (x: u8)
    ensures
        16 <= x,
        forall|j: int| 16 <= j <= 255 ==> xterm_dist(x as int, r, g, b) <= xterm_dist(j, r, g, b),
        forall|j: int| 16 <= j < x ==> xterm_dist(j, r, g, b) > xterm_dist(x as int, r, g, b),
{
    let mut best: u16 = 16;
    let mut best_d: i64 = xterm_dist_exec(16, r, g, b);
    let mut x: u16 = 17;
    while x <= 255
        invariant
            17 <= x <= 256,
            16 <= best < x,
            best_d == xterm_dist(best as int, r, g, b),
            forall|j: int| 16 <= j < x ==> xterm_dist(best as int, r, g, b) <= #[trigger] xterm_dist(j, r, g, b),
            forall|j: int| 16 <= j < best ==> #[trigger] xterm_dist(j, r, g, b) > xterm_dist(best as int, r, g, b),
        decreases 256 - x,
    {
        let d = xterm_dist_exec(x, r, g, b);
        if d < best_d {
            best = x;
            best_d = d;
        }
        x += 1;
    }
    best as u8
}


/// Colouring a text changes nothing of what is visible of it: the
/// colour codes around it show nothing, so its display width stays the
/// same. (The text must not end inside an escape sequence of its own.)
pub proof fn law_colour_is_invisible(text: Seq<char>, color: u8)
    requires
        at_rest(strip_state(text)),
    ensures
        strip_seq(fg_spec(text, color)) == strip_seq(text),
        display_width_spec(fg_spec(text, color)) == display_width_spec(text),
{
    reveal_strlit("\x1b[38;5;");
    reveal_strlit("m");
    reveal_strlit("\x1b[39m");
    lemma_dec_digits(color as nat);
    let body = seq!['3', '8', ';', '5', ';'] + d8(color);
    assert forall|i: int| 0 <= i < body.len() implies !is_alpha(#[trigger] body[i]) by {
        if i >= 5 {
            assert(body[i] == d8(color)[i - 5]);
        }
    }
    lemma_csi(body, 'm');
    let open = seq!['\x1b', '['] + body + seq!['m'];
    assert(open =~= "\x1b[38;5;"@ + d8(color) + "m"@);
    let close_body = seq!['3', '9'];
    assert forall|i: int| 0 <= i < close_body.len() implies !is_alpha(#[trigger] close_body[i]) by {}
    lemma_csi(close_body, 'm');
    let close = seq!['\x1b', '['] + close_body + seq!['m'];
    assert(close =~= "\x1b[39m"@);
    lemma_strip_concat(open, text + close);
    lemma_strip_concat(text, close);
    assert(fg_spec(text, color) =~= open + (text + close));
    assert(strip_seq(text) + Seq::<char>::empty() =~= strip_seq(text));
}

/// Making a text bold changes nothing of what is visible of it. (The
/// text must not end inside an escape sequence of its own.)
pub proof fn law_bold_is_invisible(text: Seq<char>)
    requires
        at_rest(strip_state(text)),
    ensures
        strip_seq(bold_spec(text)) == strip_seq(text),
        display_width_spec(bold_spec(text)) == display_width_spec(text),
{
    reveal_strlit("\x1b[1m");
    reveal_strlit("\x1b[22m");
    let ob = seq!['1'];
    assert forall|i: int| 0 <= i < ob.len() implies !is_alpha(#[trigger] ob[i]) by {}
    lemma_csi(ob, 'm');
    let open = seq!['\x1b', '['] + ob + seq!['m'];
    assert(open =~= "\x1b[1m"@);
    let cb = seq!['2', '2'];
    assert forall|i: int| 0 <= i < cb.len() implies !is_alpha(#[trigger] cb[i]) by {}
    lemma_csi(cb, 'm');
    let close = seq!['\x1b', '['] + cb + seq!['m'];
    assert(close =~= "\x1b[22m"@);
    lemma_strip_concat(open, text + close);
    lemma_strip_concat(text, close);
    assert(bold_spec(text) =~= open + (text + close));
    assert(strip_seq(text) + Seq::<char>::empty() =~= strip_seq(text));
}

/// The decimal numeral of `n` is a run of digits worth `n`.
pub proof fn lemma_dec_digits(n: nat)
    ensures
        dec(n).len() > 0,
        all_digits(dec(n)),
        dec_value(dec(n)) == n,
    decreases n,
{
    if n < 10 {
        assert(dec(n).drop_last() =~= Seq::<char>::empty());
        assert(dec_value(dec(n).drop_last()) == 0);
    } else {
        lemma_dec_digits(n / 10);
        let d = dec(n / 10);
        assert(dec(n).drop_last() =~= d);
        assert(is_digit(digit(n % 10)));
        assert((digit(n % 10) as nat - '0' as nat) as nat == n % 10);
        assert(all_digits(dec(n))) by {
            assert forall|i: int| 0 <= i < dec(n).len() implies is_digit(#[trigger] dec(n)[i]) by {
                if i < d.len() {
                    assert(dec(n)[i] == d[i]);
                }
            }
        }
    }
}

/// The numeral of a byte parses back to the byte.
pub proof fn lemma_parse_dec_u8(v: u8)
    ensures
        parse_u8_spec(dec(v as nat)) == Some(v),
        forall|i: int| 0 <= i < dec(v as nat).len() ==> #[trigger] dec(v as nat)[i] != ',',
{
    lemma_dec_digits(v as nat);
    let d = dec(v as nat);
    assert(is_digit(d[0]));
    assert forall|i: int| 0 <= i < d.len() implies #[trigger] d[i] != ',' by {
        assert(is_digit(d[i]));
    }
}

/// `coded` with the spec `fg,bg,attrs` written from two bytes and
/// attribute letters without a comma asks for what `styled` asks for with
/// the same colours and attributes, so the two draw the same.
pub proof fn law_coded_is_styled(f: u8, b: u8, a: Seq<char>)
    requires
        forall|i: int| 0 <= i < a.len() ==> a[i] != ',',
    ensures
        coded_codes(dec(f as nat) + seq![','] + dec(b as nat) + seq![','] + a)
            == opt_code256(true, Some(f)) + opt_code256(false, Some(b)) + attr_codes(a, false),
{
    let df = dec(f as nat);
    let db = dec(b as nat);
    lemma_parse_dec_u8(f);
    lemma_parse_dec_u8(b);
    lemma_split_none(df, ',');
    lemma_split_none(db, ',');
    lemma_split_none(a, ',');
    lemma_split_around(df, db, ',');
    lemma_split_around(df + seq![','] + db, a, ',');
    let parts = split_char(df + seq![','] + db + seq![','] + a, ',');
    assert(parts =~= seq![df, db, a]);
    assert(parts[0] == df && parts[1] == db && parts[2] == a);
}

} // verus!
