//! crust: a pane-based terminal UI library with ANSI colours, scrolling,
//! input handling and diff-based rendering.
//!
//! This crate holds the part that decides what the terminal is sent:
//! escape sequences, text measurement and truncation, word wrapping,
//! table formatting, pane and popup state. Writing to the terminal and
//! reading keys is left to the caller.

use vstd::prelude::*;

pub mod chars;
pub mod style;
pub mod msglog;
pub mod pane;
pub mod popup;
pub mod input;
pub mod editline;
pub mod cursor;
pub mod text;

pub use msglog::MessageLog;
pub use pane::Pane;
pub use popup::Popup;
pub use input::Input;
pub use cursor::Cursor;

use crate::chars::{
    alpha, char_width, chars_of, is_alpha, push_char, push_replaced, replace_char, str_width,
    char_width_spec, str_width_spec, all_narrow, is_narrow,
};

verus! {

/// The state of the escape-sequence scanner of `strip_ansi`:
/// (after ESC, inside CSI, inside OSC, ESC seen inside OSC).
pub type ScanState = (bool, bool, bool, bool);

/// One step of `strip_ansi`: the next state, and whether `ch` is visible text.
pub open spec fn strip_step(st: ScanState, ch: char) -> (ScanState, bool) {
    let (esc, csi, osc, oe) = st;
    if osc {
        if ch == '\x07' {
            ((esc, csi, false, oe), false)
        } else if oe {
            ((esc, csi, false, false), false)
        } else if ch == '\x1b' {
            ((esc, csi, osc, true), false)
        } else {
            (st, false)
        }
    } else if esc {
        if ch == '[' {
            ((false, true, osc, oe), false)
        } else if ch == ']' {
            ((false, csi, true, oe), false)
        } else {
            ((false, csi, osc, oe), false)
        }
    } else if csi {
        if is_alpha(ch) {
            ((esc, false, osc, oe), false)
        } else {
            (st, false)
        }
    } else if ch == '\x1b' {
        ((true, csi, osc, oe), false)
    } else {
        (st, true)
    }
}

/// The scanner state after reading all of `s`.
pub open spec fn strip_state(s: Seq<char>) -> ScanState
    decreases s.len(),
{
    if s.len() == 0 {
        (false, false, false, false)
    } else {
        strip_step(strip_state(s.drop_last()), s.last()).0
    }
}

/// The visible text of `s`: every character outside CSI (`ESC [ ... letter`),
/// OSC (`ESC ] ... BEL` or `ESC ] ... ESC x`) and two-character escapes.
pub open spec fn strip_seq(s: Seq<char>) -> Seq<char>
    decreases s.len(),
{
    if s.len() == 0 {
        Seq::empty()
    } else if strip_step(strip_state(s.drop_last()), s.last()).1 {
        strip_seq(s.drop_last()).push(s.last())
    } else {
        strip_seq(s.drop_last())
    }
}

/// Strip ANSI escape sequences from a string.
pub fn strip_ansi(s: &str) -> (r: String)
    ensures
        r@ == strip_seq(s@),
{
    let cs = chars_of(s);
    let mut result = String::new();
    let mut in_escape = false;
    let mut in_csi = false;
    let mut in_osc = false;
    let mut osc_saw_esc = false;
    let mut i: usize = 0;
    while i < cs.len()
        invariant
            0 <= i <= cs@.len(),
            cs@ == s@,
            (in_escape, in_csi, in_osc, osc_saw_esc) == strip_state(cs@.take(i as int)),
            result@ == strip_seq(cs@.take(i as int)),
        decreases cs@.len() - i,
    {
        let ch = cs[i];
        assert(cs@.take(i + 1).drop_last() == cs@.take(i as int));
        if in_osc {
            if ch == '\x07' {
                in_osc = false;
            } else if osc_saw_esc {
                in_osc = false;
                osc_saw_esc = false;
            } else if ch == '\x1b' {
                osc_saw_esc = true;
            }
        } else if in_escape {
            if ch == '[' {
                in_csi = true;
                in_escape = false;
            } else if ch == ']' {
                in_osc = true;
                in_escape = false;
            } else {
                in_escape = false;
            }
        } else if in_csi {
            if alpha(ch) {
                in_csi = false;
            }
        } else if ch == '\x1b' {
            in_escape = true;
        } else {
            push_char(&mut result, ch);
        }
        i += 1;
    }
    assert(cs@.take(cs@.len() as int) == cs@);
    result
}

/// The visible width of `s`: the `unicode_width` width of its visible text.
pub open spec fn display_width_spec(s: Seq<char>) -> usize {
    str_width_spec(strip_seq(s))
}

/// Calculate visible display width of a string (excluding ANSI, handling Unicode)
pub fn display_width(s: &str) -> (r: usize)
    ensures
        r == display_width_spec(s@),
{
    let stripped = strip_ansi(s);
    str_width(stripped.as_str())
}


/// The state of the scanner of `truncate_ansi`.
pub struct TruncState {
    pub esc: bool,
    pub csi: bool,
    pub osc: bool,
    pub osc_esc: bool,
    /// An OSC 8 hyperlink is open.
    pub osc8: bool,
    /// The body of the OSC being read.
    pub accum: Seq<char>,
    /// Columns of visible text kept so far.
    pub visible: nat,
    /// A visible character did not fit: nothing more is kept.
    pub stopped: bool,
}

pub open spec fn trunc_init() -> TruncState {
    TruncState {
        esc: false,
        csi: false,
        osc: false,
        osc_esc: false,
        osc8: false,
        accum: Seq::empty(),
        visible: 0,
        stopped: false,
    }
}

/// The first position of `c` in `s`, if any.
pub open spec fn first_index(s: Seq<char>, c: char) -> Option<int>
    decreases s.len(),
{
    if s.len() == 0 {
        None
    } else {
        match first_index(s.drop_last(), c) {
            Some(k) => Some(k),
            None => if s.last() == c { Some(s.len() - 1) } else { None },
        }
    }
}

/// Whether an OSC 8 hyperlink is open after an OSC with body `body` ends:
/// a body `8;params;url` opens one when `url` is not empty and closes it
/// when it is; any other body leaves the state `open` as it was.
pub open spec fn osc8_after(body: Seq<char>, open: bool) -> bool {
    if body.len() >= 2 && body[0] == '8' && body[1] == ';' {
        match first_index(body.skip(2), ';') {
            Some(sep) => sep + 1 < body.len() - 2,
            None => open,
        }
    } else {
        open
    }
}

/// Columns that `truncate_ansi` counts for a character.
pub open spec fn width_or_zero(c: char) -> nat {
    match char_width_spec(c) {
        Some(w) => w as nat,
        None => 0,
    }
}

/// One step of `truncate_ansi`: the next state, and what of `ch` is kept.
pub open spec fn trunc_step(st: TruncState, ch: char, target: nat) -> (TruncState, Seq<char>) {
    if st.stopped {
        (st, Seq::empty())
    } else if st.osc {
        if ch == '\x07' || st.osc_esc {
            (TruncState { osc8: osc8_after(st.accum, st.osc8), osc: false, osc_esc: false, accum: Seq::empty(), ..st }, seq![ch])
        } else if ch == '\x1b' {
            (TruncState { osc_esc: true, ..st }, seq![ch])
        } else {
            (TruncState { accum: st.accum.push(ch), ..st }, seq![ch])
        }
    } else if st.esc {
        if ch == '[' {
            (TruncState { csi: true, esc: false, ..st }, seq![ch])
        } else if ch == ']' {
            (TruncState { osc: true, esc: false, accum: Seq::empty(), ..st }, seq![ch])
        } else {
            (TruncState { esc: false, ..st }, seq![ch])
        }
    } else if st.csi {
        if is_alpha(ch) {
            (TruncState { csi: false, ..st }, seq![ch])
        } else {
            (st, seq![ch])
        }
    } else if ch == '\x1b' {
        (TruncState { esc: true, ..st }, seq![ch])
    } else if st.visible + width_or_zero(ch) > target {
        (TruncState { stopped: true, ..st }, Seq::empty())
    } else {
        (TruncState { visible: st.visible + width_or_zero(ch), ..st }, seq![ch])
    }
}

/// The scanner state after `s`, and what of `s` is kept.
pub open spec fn trunc_run(s: Seq<char>, target: nat) -> (TruncState, Seq<char>)
    decreases s.len(),
{
    if s.len() == 0 {
        (trunc_init(), Seq::empty())
    } else {
        let (st, out) = trunc_run(s.drop_last(), target);
        let (st2, e) = trunc_step(st, s.last(), target);
        (st2, out + e)
    }
}

/// What `truncate_ansi(s, max_width)` returns.
pub open spec fn truncate_spec(s: Seq<char>, max_width: nat) -> Seq<char> {
    if display_width_spec(s) <= max_width {
        s + "\x1b[0m"@
    } else {
        let target = if max_width >= 2 { (max_width - 1) as nat } else { max_width };
        let (st, kept) = trunc_run(s, target);
        kept
            + (if max_width >= 2 { seq!['\u{2026}'] } else { Seq::empty() })
            + (if st.osc8 { "\x1b]8;;\x1b\\"@ } else { Seq::empty() })
            + "\x1b[0m"@
    }
}

/// Whether an OSC with this body leaves an OSC 8 hyperlink open.
fn osc8_after_exec(body: &Vec<char>, open: bool) -> (r: bool)
    ensures
        r == osc8_after(body@, open),
{
    if body.len() >= 2 && body[0] == '8' && body[1] == ';' {
        let ghost rest = body@.skip(2);
        let mut j: usize = 2;
        while j < body.len()
            invariant
                2 <= j <= body@.len(),
                body@[0] == '8' && body@[1] == ';',
                rest == body@.skip(2),
                first_index(rest.take(j - 2), ';') is None,
            decreases body@.len() - j,
        {
            assert(rest.take(j - 1).drop_last() == rest.take(j - 2));
            if body[j] == ';' {
                proof {
                    assert(rest.take(j - 1).last() == ';');
                    assert(first_index(rest.take(j - 1), ';') == Some((j - 2) as int));
                    lemma_first_index_prefix(rest, (j - 1) as int, ';');
                }
                return j + 1 < body.len();
            }
            j += 1;
        }
        assert(rest.take(j - 2) == rest);
        open
    } else {
        open
    }
}

/// The first position found in a prefix is the first position in the whole.
proof fn lemma_first_index_prefix(s: Seq<char>, n: int, c: char)
    requires
        0 <= n <= s.len(),
        first_index(s.take(n), c) is Some,
    ensures
        first_index(s, c) == first_index(s.take(n), c),
    decreases s.len(),
{
    if n < s.len() {
        assert(s.drop_last().take(n) == s.take(n));
        lemma_first_index_prefix(s.drop_last(), n, c);
    } else {
        assert(s.take(n) == s);
    }
}

/// Truncate a string to max_width visible characters, preserving ANSI codes.
/// Appends an ellipsis "…" marker when actual truncation happens so the
/// reader can see the line was cut. If the input already fits in max_width,
/// returns it unchanged (plus a color reset).
pub fn truncate_ansi(s: &str, max_width: usize) -> (r: String)
    ensures
        r@ == truncate_spec(s@, max_width as nat),
{
    if display_width(s) <= max_width {
        let mut out = String::from_str(s);
        out.append("\x1b[0m");
        return out;
    }
    let target: usize = if max_width >= 2 { max_width - 1 } else { max_width };
    let cs = chars_of(s);
    let mut result = String::new();
    let mut visible: usize = 0;
    let mut in_escape = false;
    let mut in_csi = false;
    let mut in_osc = false;
    let mut osc_saw_esc = false;
    let mut osc8_open = false;
    let mut osc_accum: Vec<char> = Vec::new();
    let mut stopped = false;
    let mut i: usize = 0;
    while i < cs.len()
        invariant
            0 <= i <= cs@.len(),
            cs@ == s@,
            visible <= target,
            ({
                let (st, kept) = trunc_run(cs@.take(i as int), target as nat);
                &&& st.esc == in_escape
                &&& st.csi == in_csi
                &&& st.osc == in_osc
                &&& st.osc_esc == osc_saw_esc
                &&& st.osc8 == osc8_open
                &&& st.accum == osc_accum@
                &&& st.visible == visible
                &&& st.stopped == stopped
                &&& kept == result@
            }),
        decreases cs@.len() - i,
    {
        let ch = cs[i];
        assert(cs@.take(i + 1).drop_last() == cs@.take(i as int));
        if stopped {
        } else if in_osc {
            push_char(&mut result, ch);
            if ch == '\x07' || osc_saw_esc {
                osc8_open = osc8_after_exec(&osc_accum, osc8_open);
                in_osc = false;
                osc_saw_esc = false;
                osc_accum = Vec::new();
            } else if ch == '\x1b' {
                osc_saw_esc = true;
            } else {
                osc_accum.push(ch);
            }
        } else if in_escape {
            push_char(&mut result, ch);
            if ch == '[' {
                in_csi = true;
                in_escape = false;
            } else if ch == ']' {
                in_osc = true;
                in_escape = false;
                osc_accum = Vec::new();
            } else {
                in_escape = false;
            }
        } else if in_csi {
            push_char(&mut result, ch);
            if alpha(ch) {
                in_csi = false;
            }
        } else if ch == '\x1b' {
            in_escape = true;
            push_char(&mut result, ch);
        } else {
            let w: usize = match char_width(ch) {
                Some(w) => w,
                None => 0,
            };
            if w > target - visible {
                stopped = true;
            } else {
                visible += w;
                push_char(&mut result, ch);
            }
        }
        i += 1;
    }
    assert(cs@.take(cs@.len() as int) == cs@);
    if max_width >= 2 {
        push_char(&mut result, '\u{2026}');
    }
    if osc8_open {
        result.append("\x1b]8;;\x1b\\");
    }
    result.append("\x1b[0m");
    result
}


/// What `shell_escape(s)` returns: `s` in single quotes, each `'` in it
/// written as `'\''`.
pub open spec fn shell_escape_spec(s: Seq<char>) -> Seq<char> {
    "'"@ + replace_char(s, '\'', "'\\''"@) + "'"@
}

/// Shell-escape a string (single-quote wrapping with quote escaping)
pub fn shell_escape(s: &str) -> (r: String)
    ensures
        r@ == shell_escape_spec(s@),
{
    let cs = chars_of(s);
    let mut r = String::new();
    r.append("'");
    push_replaced(&mut r, &cs, '\'', "'\\''");
    r.append("'");
    r
}

/// The base64 alphabet: `A-Z`, `a-z`, `0-9`, `+`, `/`.
pub open spec fn b64_char(v: nat) -> char {
    if v < 26 {
        (65 + v) as char
    } else if v < 52 {
        (97 + (v - 26)) as char
    } else if v < 62 {
        (48 + (v - 52)) as char
    } else if v == 62 {
        '+'
    } else {
        '/'
    }
}

/// The four characters that encode a group of one to three bytes, padded
/// with `=` where the group is short.
pub open spec fn b64_group(g: Seq<u8>) -> Seq<char> {
    let b0 = g[0] as nat;
    let b1 = if g.len() > 1 { g[1] as nat } else { 0 };
    let b2 = if g.len() > 2 { g[2] as nat } else { 0 };
    seq![
        b64_char(b0 / 4),
        b64_char((b0 % 4) * 16 + b1 / 16),
        if g.len() > 1 { b64_char((b1 % 16) * 4 + b2 / 64) } else { '=' },
        if g.len() > 2 { b64_char(b2 % 64) } else { '=' },
    ]
}

/// Standard base64 (RFC 4648, with padding) of `d`: each group of three
/// bytes, the last one possibly shorter, becomes four characters.
pub open spec fn base64_spec(d: Seq<u8>) -> Seq<char>
    decreases d.len(),
{
    if d.len() == 0 {
        Seq::empty()
    } else {
        let k = ((d.len() - 1) / 3) * 3;
        base64_spec(d.take(k)) + b64_group(d.skip(k))
    }
}

fn b64_exec(v: u32) -> (c: char)
    requires
        v < 64,
    ensures
        c == b64_char(v as nat),
{
    if v < 26 {
        ((65 + v) as u8) as char
    } else if v < 52 {
        ((97 + (v - 26)) as u8) as char
    } else if v < 62 {
        ((48 + (v - 52)) as u8) as char
    } else if v == 62 {
        '+'
    } else {
        '/'
    }
}

/// Base64 encode bytes (used by OSC 52 clipboard, Kitty protocol, etc.)
pub fn base64_encode(data: &[u8]) -> (r: String)
    ensures
        r@ == base64_spec(data@),
{
    let mut result = String::new();
    let n = data.len();
    let mut i: usize = 0;
    while i < n
        invariant
            n == data@.len(),
            i <= n,
            i % 3 == 0 || i == n,
            result@ == base64_spec(data@.take(i as int)),
        decreases n - i,
    {
        let len: usize = if n - i >= 3 { 3 } else { n - i };
        let b0 = data[i] as u32;
        let b1: u32 = if len > 1 { data[i + 1] as u32 } else { 0 };
        let b2: u32 = if len > 2 { data[i + 2] as u32 } else { 0 };
        let ghost m = (i + len) as int;
        let ghost pre = data@.take(m);
        proof {
            assert(((m - 1) / 3) * 3 == i) by (nonlinear_arith)
                requires i % 3 == 0, i < m <= i + 3;
            assert(pre.take(i as int) == data@.take(i as int));
            assert(pre.skip(i as int) == data@.subrange(i as int, m));
        }
        push_char(&mut result, b64_exec(b0 / 4));
        push_char(&mut result, b64_exec((b0 % 4) * 16 + b1 / 16));
        if len > 1 {
            push_char(&mut result, b64_exec((b1 % 16) * 4 + b2 / 64));
        } else {
            push_char(&mut result, '=');
        }
        if len > 2 {
            push_char(&mut result, b64_exec(b2 % 64));
        } else {
            push_char(&mut result, '=');
        }
        assert(result@ == base64_spec(pre));
        i += len;
    }
    assert(data@.take(n as int) == data@);
    result
}


/// The OSC 52 request that puts `text` on the clipboard ("p" for the
/// primary selection, "c" for any other `selection`), base64-encoded.
pub open spec fn osc52_spec(text: Seq<u8>, selection: Seq<char>) -> Seq<char> {
    let sel = if selection == "primary"@ { "p"@ } else { "c"@ };
    "\x1b]52;"@ + sel + ";"@ + base64_spec(text) + "\x07"@
}

/// Copy text to clipboard via OSC 52: the request to write to the
/// terminal, and the selection to hand `xclip` as a fallback
/// ("primary" for the primary selection, "clipboard" otherwise).
/// `selection`: "clipboard" (default) or "primary".
pub fn clipboard_copy(text: &str, selection: &str) -> (r: (String, String))
    ensures
        r.0@ == osc52_spec(vstd::utf8::encode_utf8(text@), selection@),
        r.1@ == (if selection@ == "primary"@ { "primary"@ } else { "clipboard"@ }),
{
    let primary = chars::str_eq(selection, "primary");
    let encoded = base64_encode(text.as_bytes());
    let mut osc = String::from_str("\x1b]52;");
    osc.append(if primary { "p" } else { "c" });
    osc.append(";");
    osc.append(encoded.as_str());
    osc.append("\x07");
    let sel = String::from_str(if primary { "primary" } else { "clipboard" });
    (osc, sel)
}

/// ANSI escape regex pattern
pub const ANSI_RE: &'static str = "\x1b\\[[0-9;]*m";

/// The terminal as a whole: the escape sequences that clear it and name
/// its window. Entering and leaving raw mode and the alternate screen is
/// the caller's.
pub struct Crust;

impl Crust {
    /// Clear the screen and put the cursor in the top left corner.
    pub fn clear_screen() -> (r: String)
        ensures
            r@ == "\x1b[2J\x1b[H"@,
    {
        String::from_str("\x1b[2J\x1b[H")
    }

    /// Set terminal window title via OSC escape
    pub fn set_title(title: &str) -> (r: String)
        ensures
            r@ == "\x1b]0;"@ + title@ + "\x07"@,
    {
        let mut r = String::from_str("\x1b]0;");
        r.append(title);
        r.append("\x07");
        r
    }

    /// Announce this app's identity to the host terminal so the window's
    /// name and icon name reflect the running app: OSC 0 (icon name and
    /// title), OSC 1 (icon name) and OSC 2 (title), since terminals split
    /// the two differently.
    pub fn set_app_identity(name: &str) -> (r: String)
        ensures
            r@ == "\x1b]0;"@ + name@ + "\x07"@ + "\x1b]1;"@ + name@ + "\x07"@ + "\x1b]2;"@ + name@ + "\x07"@,
    {
        let mut r = String::from_str("\x1b]0;");
        r.append(name);
        r.append("\x07\x1b]1;");
        r.append(name);
        r.append("\x07\x1b]2;");
        r.append(name);
        r.append("\x07");
        proof {
            reveal_strlit("\x07\x1b]1;");
            reveal_strlit("\x07\x1b]2;");
            reveal_strlit("\x07");
            reveal_strlit("\x1b]1;");
            reveal_strlit("\x1b]2;");
        }
        r
    }
}


/// The scanner at rest: outside any escape sequence.
pub open spec fn at_rest(st: ScanState) -> bool {
    st == (false, false, false, false)
}

/// A text without ESC leaves the scanner at rest and is all visible.
pub proof fn lemma_plain_text(s: Seq<char>)
    requires
        forall|i: int| 0 <= i < s.len() ==> s[i] != '\x1b',
    ensures
        at_rest(strip_state(s)),
        strip_seq(s) == s,
    decreases s.len(),
{
    if s.len() > 0 {
        lemma_plain_text(s.drop_last());
        assert(s.drop_last().push(s.last()) =~= s);
    }
}

/// `strip_ansi` leaves no ESC behind: what it returns holds no escape
/// sequence at all.
pub proof fn law_strip_leaves_no_escape(s: Seq<char>)
    ensures
        forall|i: int| 0 <= i < strip_seq(s).len() ==> strip_seq(s)[i] != '\x1b',
    decreases s.len(),
{
    if s.len() > 0 {
        law_strip_leaves_no_escape(s.drop_last());
        let p = strip_seq(s.drop_last());
        if strip_step(strip_state(s.drop_last()), s.last()).1 {
            assert(s.last() != '\x1b');
            assert forall|i: int| 0 <= i < strip_seq(s).len() implies strip_seq(s)[i] != '\x1b' by {
                if i < p.len() {
                    assert(strip_seq(s)[i] == p[i]);
                }
            }
        }
    }
}

/// `r` is `s` with some characters left out: `idx` picks, in increasing
/// order, the positions of `s` that `r` keeps.
pub open spec fn picks(r: Seq<char>, s: Seq<char>, idx: Seq<int>) -> bool {
    &&& idx.len() == r.len()
    &&& forall|k: int| 0 <= k < idx.len() ==> 0 <= #[trigger] idx[k] < s.len() && r[k] == s[idx[k]]
    &&& forall|k: int, l: int| 0 <= k < l < idx.len() ==> #[trigger] idx[k] < #[trigger] idx[l]
}

/// `strip_ansi` only leaves characters out: what it returns is a
/// subsequence of its input, its characters kept in order.
pub proof fn law_strip_keeps_order(s: Seq<char>)
    ensures
        exists|idx: Seq<int>| picks(strip_seq(s), s, idx),
    decreases s.len(),
{
    if s.len() == 0 {
        assert(picks(strip_seq(s), s, Seq::<int>::empty()));
    } else {
        let d = s.drop_last();
        law_strip_keeps_order(d);
        let idx = choose|idx: Seq<int>| picks(strip_seq(d), d, idx);
        if strip_step(strip_state(d), s.last()).1 {
            let j = idx.push(s.len() - 1);
            let r = strip_seq(s);
            assert(r == strip_seq(d).push(s.last()));
            assert forall|k: int| 0 <= k < j.len() implies 0 <= #[trigger] j[k] < s.len() && r[k] == s[j[k]] by {
                if k < idx.len() {
                    assert(j[k] == idx[k]);
                    assert(d[idx[k]] == s[idx[k]]);
                }
            }
            assert forall|k: int, l: int| 0 <= k < l < j.len() implies #[trigger] j[k] < #[trigger] j[l] by {
                if l < idx.len() {
                    assert(j[k] == idx[k] && j[l] == idx[l]);
                } else {
                    assert(j[k] == idx[k]);
                }
            }
            assert(picks(r, s, j));
        } else {
            assert forall|k: int| 0 <= k < idx.len() implies 0 <= #[trigger] idx[k] < s.len() && strip_seq(s)[k] == s[idx[k]] by {
                assert(d[idx[k]] == s[idx[k]]);
            }
            assert(picks(strip_seq(s), s, idx));
        }
    }
}

/// Stripping twice is stripping once.
pub proof fn law_strip_idempotent(s: Seq<char>)
    ensures
        strip_seq(strip_seq(s)) == strip_seq(s),
{
    law_strip_leaves_no_escape(s);
    lemma_plain_text(strip_seq(s));
}

/// A string that already fits comes back unchanged, with a colour reset after it.
pub proof fn law_truncate_keeps_what_fits(s: Seq<char>, max_width: nat)
    requires
        display_width_spec(s) <= max_width,
    ensures
        truncate_spec(s, max_width) == s + "\x1b[0m"@,
{
}

/// Whatever is cut, the result ends with a colour reset, so no colour
/// bleeds past it.
pub proof fn law_truncate_ends_with_reset(s: Seq<char>, max_width: nat)
    ensures
        truncate_spec(s, max_width).len() >= 4,
        truncate_spec(s, max_width).subrange(truncate_spec(s, max_width).len() - 4, truncate_spec(s, max_width).len() as int)
            == "\x1b[0m"@,
{
    reveal_strlit("\x1b[0m");
    let t = truncate_spec(s, max_width);
    let r = "\x1b[0m"@;
    if display_width_spec(s) <= max_width {
        assert(t.subrange(t.len() - 4, t.len() as int) =~= r);
    } else {
        let target = if max_width >= 2 { (max_width - 1) as nat } else { max_width };
        let (st, kept) = trunc_run(s, target);
        let head = kept
            + (if max_width >= 2 { seq!['\u{2026}'] } else { Seq::empty() })
            + (if st.osc8 { "\x1b]8;;\x1b\\"@ } else { Seq::empty() });
        assert(t == head + r);
        assert(t.subrange(t.len() - 4, t.len() as int) =~= r);
    }
}

/// Scanning narrow text keeps it while it fits the target, one column
/// for each character, and stops at the first that does not fit.
proof fn lemma_trunc_narrow(s: Seq<char>, target: nat)
    requires
        all_narrow(s),
    ensures
        ({
            let (st, kept) = trunc_run(s, target);
            let m = if s.len() <= target { s.len() } else { target };
            &&& kept == s.take(m as int)
            &&& !st.esc && !st.csi && !st.osc && !st.osc8
            &&& st.visible == m
            &&& st.stopped == (s.len() > target)
        }),
    decreases s.len(),
{
    if s.len() == 0 {
        assert(s.take(0) =~= Seq::<char>::empty());
    } else {
        let p = s.drop_last();
        assert(all_narrow(p)) by {
            assert forall|i: int| 0 <= i < p.len() implies is_narrow(#[trigger] p[i]) by {
                assert(p[i] == s[i]);
            }
        }
        lemma_trunc_narrow(p, target);
        let c = s.last();
        assert(is_narrow(c));
        assert(c != '\x1b');
        assert(width_or_zero(c) == 1);
        let (st, kept) = trunc_run(p, target);
        if p.len() < target {
            assert(kept.push(c) =~= s.take(s.len() as int));
        } else {
            assert(p.take(target as int) =~= s.take(target as int));
        }
    }
}

/// Narrow text without escape codes shows as itself, one column per
/// character, and leaves the scanner at rest.
pub proof fn lemma_narrow_width(s: Seq<char>)
    requires
        all_narrow(s),
        s.len() <= usize::MAX,
    ensures
        strip_seq(s) == s,
        at_rest(strip_state(s)),
        display_width_spec(s) == s.len(),
{
    assert forall|i: int| 0 <= i < s.len() implies s[i] != '\x1b' by {
        assert(is_narrow(s[i]));
    }
    lemma_plain_text(s);
}

/// The colour reset shows nothing and leaves the scanner at rest.
proof fn lemma_reset_hidden(a: Seq<char>)
    requires
        at_rest(strip_state(a)),
    ensures
        strip_seq(a + "\x1b[0m"@) == strip_seq(a),
{
    reveal_strlit("\x1b[0m");
    let r = "\x1b[0m"@;
    assert(r =~= seq!['\x1b', '['] + seq!['0'] + seq!['m']);
    lemma_csi(seq!['0'], 'm');
    lemma_strip_concat(a, r);
    assert(strip_seq(a) + Seq::<char>::empty() =~= strip_seq(a));
}

/// On narrow text without escape codes, `truncate_ansi` shows the text
/// itself where it fits; else as many characters as fit before a one
/// column ellipsis (only the characters that fit, where `max_width` is
/// below 2). Either way what it shows is at most `max_width` columns.
pub proof fn law_truncate_fits(s: Seq<char>, max_width: nat)
    requires
        all_narrow(s),
        s.len() <= usize::MAX,
    ensures
        strip_seq(truncate_spec(s, max_width)) == (if s.len() <= max_width {
            s
        } else if max_width >= 2 {
            s.take(max_width - 1).push('\u{2026}')
        } else {
            s.take(max_width as int)
        }),
        display_width_spec(truncate_spec(s, max_width)) <= max_width,
{
    lemma_narrow_width(s);
    if s.len() <= max_width {
        lemma_reset_hidden(s);
    } else {
        let target = if max_width >= 2 { (max_width - 1) as nat } else { max_width };
        lemma_trunc_narrow(s, target);
        let (st, kept) = trunc_run(s, target);
        let shown = kept + (if max_width >= 2 { seq!['\u{2026}'] } else { Seq::empty() });
        assert(truncate_spec(s, max_width) == shown + "\x1b[0m"@);
        assert(all_narrow(shown)) by {
            assert forall|i: int| 0 <= i < shown.len() implies is_narrow(#[trigger] shown[i]) by {
                if i < kept.len() {
                    assert(shown[i] == s[i]);
                }
            }
        }
        lemma_narrow_width(shown);
        lemma_reset_hidden(shown);
        if max_width >= 2 {
            assert(shown =~= s.take(max_width - 1).push('\u{2026}'));
        } else {
            assert(shown =~= s.take(max_width as int));
        }
        lemma_narrow_width(strip_seq(truncate_spec(s, max_width)));
    }
}

/// Base64 writes four characters for every three bytes or part of three.
pub proof fn law_base64_length(d: Seq<u8>)
    ensures
        base64_spec(d).len() == 4 * ((d.len() + 2) / 3),
    decreases d.len(),
{
    if d.len() > 0 {
        let n = d.len() as int;
        let k = ((n - 1) / 3) * 3;
        assert(0 <= k < n <= k + 3) by (nonlinear_arith)
            requires k == ((n - 1) / 3) * 3, n >= 1;
        law_base64_length(d.take(k));
        assert(d.take(k).len() == k);
        assert((k + 2) / 3 + 1 == (n + 2) / 3) by (nonlinear_arith)
            requires k == ((n - 1) / 3) * 3, n >= 1, k < n, n <= k + 3;
    }
}


/// A character of the base64 alphabet, or the padding `=`.
pub open spec fn is_b64(c: char) -> bool {
    is_alpha(c) || ('0' <= c && c <= '9') || c == '+' || c == '/' || c == '='
}

proof fn lemma_b64_char(v: nat)
    requires
        v < 64,
    ensures
        is_b64(b64_char(v)),
        b64_char(v) != '=',
{
    if v < 26 {
        assert(65 <= 65 + v <= 90);
    } else if v < 52 {
        assert(97 <= 97 + (v - 26) <= 122);
    } else if v < 62 {
        assert(48 <= 48 + (v - 52) <= 57);
    }
}

/// Base64 writes only letters, digits, `+` and `/`, with `=` as padding
/// at most in the last two places.
pub proof fn law_base64_alphabet(d: Seq<u8>)
    ensures
        forall|i: int| 0 <= i < base64_spec(d).len() ==> is_b64(#[trigger] base64_spec(d)[i]),
        forall|i: int| 0 <= i < base64_spec(d).len() - 2 ==> #[trigger] base64_spec(d)[i] != '=',
    decreases d.len(),
{
    if d.len() > 0 {
        let k = ((d.len() - 1) / 3) * 3;
        let n = d.len() as int;
        assert(0 <= k < n <= k + 3) by (nonlinear_arith)
            requires k == ((n - 1) / 3) * 3, n >= 1;
        law_base64_alphabet(d.take(k));
        assert(d.take(k).len() % 3 == 0) by (nonlinear_arith)
            requires k == ((n - 1) / 3) * 3, d.take(k).len() == k;
        lemma_b64_no_pad_full(d.take(k));
        let a = base64_spec(d.take(k));
        let g = d.skip(k);
        let b = b64_group(g);
        let b0 = g[0] as nat;
        let b1 = if g.len() > 1 { g[1] as nat } else { 0 };
        let b2 = if g.len() > 2 { g[2] as nat } else { 0 };
        assert(b0 / 4 < 64 && (b0 % 4) * 16 + b1 / 16 < 64 && (b1 % 16) * 4 + b2 / 64 < 64 && b2 % 64 < 64) by (nonlinear_arith)
            requires b0 < 256, b1 < 256, b2 < 256;
        lemma_b64_char(b0 / 4);
        lemma_b64_char((b0 % 4) * 16 + b1 / 16);
        lemma_b64_char((b1 % 16) * 4 + b2 / 64);
        lemma_b64_char(b2 % 64);
        assert(forall|j: int| 0 <= j < 4 ==> is_b64(#[trigger] b[j]));
        assert(b[0] != '=' && b[1] != '=');
        assert forall|i: int| 0 <= i < (a + b).len() implies is_b64(#[trigger] (a + b)[i]) by {
            if i < a.len() {
                assert((a + b)[i] == a[i]);
            } else {
                assert((a + b)[i] == b[i - a.len()]);
            }
        }
        assert forall|i: int| 0 <= i < (a + b).len() - 2 implies #[trigger] (a + b)[i] != '=' by {
            if i < a.len() {
                assert((a + b)[i] == a[i]);
            } else {
                assert((a + b)[i] == b[i - a.len()]);
            }
        }
    }
}

/// Every group but the last is full, so what encodes a multiple of three
/// bytes has no padding at all.
proof fn lemma_b64_no_pad_full(d: Seq<u8>)
    requires
        d.len() % 3 == 0,
    ensures
        forall|i: int| 0 <= i < base64_spec(d).len() ==> #[trigger] base64_spec(d)[i] != '=',
    decreases d.len(),
{
    if d.len() > 0 {
        let k = ((d.len() - 1) / 3) * 3;
        let n = d.len() as int;
        assert(k == n - 3) by (nonlinear_arith)
            requires k == ((n - 1) / 3) * 3, n >= 3, n % 3 == 0;
        lemma_b64_no_pad_full(d.take(k));
        let a = base64_spec(d.take(k));
        let g = d.skip(k);
        let b = b64_group(g);
        let b0 = g[0] as nat;
        let b1 = g[1] as nat;
        let b2 = g[2] as nat;
        assert(b0 / 4 < 64 && (b0 % 4) * 16 + b1 / 16 < 64 && (b1 % 16) * 4 + b2 / 64 < 64 && b2 % 64 < 64) by (nonlinear_arith)
            requires b0 < 256, b1 < 256, b2 < 256;
        lemma_b64_char(b0 / 4);
        lemma_b64_char((b0 % 4) * 16 + b1 / 16);
        lemma_b64_char((b1 % 16) * 4 + b2 / 64);
        lemma_b64_char(b2 % 64);
        assert forall|i: int| 0 <= i < (a + b).len() implies #[trigger] (a + b)[i] != '=' by {
            if i < a.len() {
                assert((a + b)[i] == a[i]);
            } else {
                assert((a + b)[i] == b[i - a.len()]);
            }
        }
    }
}

/// Reading `a` and then `b`, where `a` leaves the scanner at rest, shows
/// what `a` shows and then what `b` shows, and ends where `b` ends.
pub proof fn lemma_strip_concat(a: Seq<char>, b: Seq<char>)
    requires
        at_rest(strip_state(a)),
    ensures
        strip_seq(a + b) == strip_seq(a) + strip_seq(b),
        strip_state(a + b) == strip_state(b),
    decreases b.len(),
{
    if b.len() == 0 {
        assert(a + b =~= a);
    } else {
        lemma_strip_concat(a, b.drop_last());
        assert((a + b).drop_last() =~= a + b.drop_last());
        assert((a + b).last() == b.last());
    }
}

/// The scanner inside a CSI sequence after `ESC [` and then `body`,
/// which holds no letter: nothing shown.
proof fn lemma_csi_body(body: Seq<char>)
    requires
        forall|i: int| 0 <= i < body.len() ==> !is_alpha(#[trigger] body[i]),
    ensures
        strip_seq(seq!['\x1b', '['] + body) == Seq::<char>::empty(),
        strip_state(seq!['\x1b', '['] + body) == (false, true, false, false),
    decreases body.len(),
{
    let e = seq!['\x1b', '['];
    if body.len() == 0 {
        let e1 = seq!['\x1b'];
        assert(e1.drop_last() =~= Seq::<char>::empty());
        assert(strip_state(e1.drop_last()) == (false, false, false, false));
        assert(strip_seq(e1.drop_last()) == Seq::<char>::empty());
        assert(strip_state(e1) == (true, false, false, false));
        assert(strip_seq(e1) == Seq::<char>::empty());
        assert(e.drop_last() =~= e1);
        assert(e.last() == '[');
        assert(strip_state(e) == (false, true, false, false));
        assert(strip_seq(e) == Seq::<char>::empty());
        assert(e + body =~= e);
    } else {
        lemma_csi_body(body.drop_last());
        assert((e + body).drop_last() =~= e + body.drop_last());
        assert((e + body).last() == body.last());
    }
}

/// A whole CSI sequence, `ESC [`, a body without letters, a final letter:
/// nothing shown, and the scanner back at rest.
pub proof fn lemma_csi(body: Seq<char>, fin: char)
    requires
        forall|i: int| 0 <= i < body.len() ==> !is_alpha(#[trigger] body[i]),
        is_alpha(fin),
    ensures
        strip_seq(seq!['\x1b', '['] + body + seq![fin]) == Seq::<char>::empty(),
        at_rest(strip_state(seq!['\x1b', '['] + body + seq![fin])),
{
    lemma_csi_body(body);
    let s = seq!['\x1b', '['] + body + seq![fin];
    assert(s.drop_last() =~= seq!['\x1b', '['] + body);
}

} // verus!
