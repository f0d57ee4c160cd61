//! The single-line editor of a pane, with history.
//!
//! The editor is driven one key at a time: `editline` (or `ask`) opens
//! it and draws the prompt and text, `edit_key` applies a key and draws
//! again, `edit_finish` closes it and hands back the text. Reading the
//! keys, and showing the terminal cursor while editing, is the caller's.

use vstd::prelude::*;

use crate::chars::{chars_of, push_range, push_repeat, spaces, string_of, views};
use crate::input::{KeyName, MOD_CONTROL};
use crate::pane::{colors_exec, colors_spec, goto_spec, min_nat, push_goto, sat_sub, Pane, PaneText};
use crate::{display_width, display_width_spec};

verus! {

/// The editor's state as a value: the text being edited, the cursor (a
/// character position), the history entry shown (counted back from the
/// newest) and the text that was there before the history was entered.
pub struct EditState {
    pub buf: Seq<char>,
    pub cursor: nat,
    pub hist: Option<nat>,
    pub saved: Seq<char>,
}

/// A line editor at work on a pane.
pub struct LineEdit {
    pub buf: Vec<char>,
    pub cursor: usize,
    pub hist_pos: Option<usize>,
    pub saved: Vec<char>,
    /// The pane background to put back when the editor closes.
    pub restore_bg: Option<u16>,
}

impl LineEdit {
    pub open spec fn state(&self) -> EditState {
        EditState { buf: self.buf@, cursor: self.cursor as nat, hist: match self.hist_pos {
            Some(p) => Some(p as nat),
            None => None,
        }, saved: self.saved@ }
    }

    /// The cursor is inside the text, and the history entry shown is one
    /// of the `n` there are.
    pub open spec fn wf(&self, n: nat) -> bool {
        &&& self.cursor <= self.buf@.len()
        &&& (self.hist_pos matches Some(p) ==> p < n)
    }
}

/// What one key does to the editor, with the pane recording history or
/// not, and `history` its entries, oldest first; and whether the key
/// ends the editing. ENTER ends it, ESC ends it with the text emptied;
/// Backspace and Delete remove the character before and under the
/// cursor; Left, Right, Home and End move the cursor; Up and Down walk
/// the history (Up only when there is one); control-K cuts the text at
/// the cursor; any other character but a tab is inserted at the cursor.
pub open spec fn edit_step(s: EditState, code: KeyName, mods: u8, record: bool, history: Seq<Seq<char>>) -> (EditState, bool) {
    let n = history.len();
    match code {
        KeyName::Enter => (s, true),
        KeyName::Esc => (EditState { buf: Seq::empty(), cursor: 0, ..s }, true),
        KeyName::Backspace => if s.cursor > 0 {
            (EditState { buf: s.buf.remove(s.cursor - 1), cursor: (s.cursor - 1) as nat, ..s }, false)
        } else {
            (s, false)
        },
        KeyName::Delete => if s.cursor < s.buf.len() {
            (EditState { buf: s.buf.remove(s.cursor as int), ..s }, false)
        } else {
            (s, false)
        },
        KeyName::Left => (if s.cursor > 0 { EditState { cursor: (s.cursor - 1) as nat, ..s } } else { s }, false),
        KeyName::Right => (if s.cursor < s.buf.len() { EditState { cursor: s.cursor + 1, ..s } } else { s }, false),
        KeyName::Home => (EditState { cursor: 0, ..s }, false),
        KeyName::End => (EditState { cursor: s.buf.len(), ..s }, false),
        KeyName::Up => if record && n > 0 {
            let pos: nat = match s.hist {
                Some(p) => min_nat(p + 1, (n - 1) as nat),
                None => 0,
            };
            let saved = if s.hist is None { s.buf } else { s.saved };
            let b = history[n - 1 - pos];
            (EditState { buf: b, cursor: b.len(), hist: Some(pos), saved }, false)
        } else {
            (s, false)
        },
        KeyName::Down => if record {
            match s.hist {
                Some(p) => if p == 0 {
                    (EditState { buf: s.saved, cursor: s.saved.len(), hist: None, ..s }, false)
                } else {
                    let b = history[n - p];
                    (EditState { buf: b, cursor: b.len(), hist: Some((p - 1) as nat), ..s }, false)
                },
                None => (s, false),
            }
        } else {
            (s, false)
        },
        KeyName::Char(c) => if c == 'k' && mods == MOD_CONTROL {
            (EditState { buf: s.buf.take(s.cursor as int), ..s }, false)
        } else if c != '\t' {
            (EditState { buf: s.buf.insert(s.cursor as int, c), cursor: s.cursor + 1, ..s }, false)
        } else {
            (s, false)
        },
        _ => (s, false),
    }
}

/// What the editor draws: the prompt and the end of the text that fits
/// after it, padded to the width, in the pane colours at the pane's top
/// left corner; then the terminal cursor is placed after the text
/// before the edit cursor (its column counted in 16 bits, as the
/// terminal's coordinates are).
pub open spec fn edit_view(prompt: Seq<char>, buf: Seq<char>, cursor: nat, x: u16, y: u16, w: u16, fg: u16, bg: u16) -> Seq<char> {
    let pw = display_width_spec(prompt) as nat;
    let ew = sat_sub(w as nat, pw);
    let visible = if buf.len() > ew { buf.skip(buf.len() - ew) } else { buf };
    let pad = spaces(sat_sub(ew, display_width_spec(visible) as nat));
    let before = buf.take(min_nat(cursor, buf.len()) as int);
    let col = ((x as nat + pw % 65536 + (display_width_spec(before) as nat) % 65536) % 65536) as nat;
    goto_spec(y as nat, x as nat) + colors_spec(fg, bg) + prompt + visible + pad + "\x1b[0m"@ + goto_spec(y as nat, col)
}

/// The history after `entry` was added: kept when recording and not
/// empty, the oldest entry dropped when that makes more than 100.
pub open spec fn history_with(history: Seq<String>, record: bool, entry: String) -> Seq<String> {
    if record && entry@.len() > 0 {
        let h = history.push(entry);
        if h.len() > 100 { h.remove(0) } else { h }
    } else {
        history
    }
}

impl Pane {
    /// What the editor draws on this pane for `s`.
    pub open spec fn edit_output(&self, s: EditState) -> Seq<char> {
        edit_view(self.prompt@, s.buf, s.cursor, self.x, self.y, self.w, self.fg, self.bg)
    }

    /// Draw the editor: prompt, text, terminal cursor.
    pub fn edit_redraw(&mut self, st: &LineEdit)
        ensures
            final(self).output() == old(self).output() + old(self).edit_output(st.state()),
            *final(self) == (Pane { pending: final(self).pending, ..*old(self) }),
    {
        let (cx, cy, cw, _) = self.content_area();
        let pw = display_width(self.prompt.as_str());
        let ew: usize = if (cw as usize) >= pw { cw as usize - pw } else { 0 };
        let n = st.buf.len();
        let lo: usize = if n > ew { n - ew } else { 0 };
        let mut visible = String::new();
        push_range(&mut visible, &st.buf, lo, n);
        proof {
            if n > ew {
                assert(st.buf@.subrange(lo as int, n as int) == st.buf@.skip(n - ew));
            } else {
                assert(st.buf@.subrange(0, n as int) == st.buf@);
            }
        }
        let vw = display_width(visible.as_str());
        let mut s = String::new();
        push_goto(&mut s, cy as u64, cx as u64);
        let colors = colors_exec(self.fg, self.bg);
        s.append(colors.as_str());
        s.append(self.prompt.as_str());
        s.append(visible.as_str());
        push_repeat(&mut s, " ", if ew >= vw { ew - vw } else { 0 });
        s.append("\x1b[0m");
        let upto: usize = if st.cursor <= n { st.cursor } else { n };
        let mut before = String::new();
        push_range(&mut before, &st.buf, 0, upto);
        assert(st.buf@.subrange(0, upto as int) == st.buf@.take(upto as int));
        let bw = display_width(before.as_str());
        let col: u64 = (cx as u64 + (pw % 65536) as u64 + (bw % 65536) as u64) % 65536;
        push_goto(&mut s, cy as u64, col);
        self.pending.append(s.as_str());
    }

    /// Start editing the pane's text, the cursor at its end, and draw
    /// the editor.
    pub fn editline(&mut self) -> (st: LineEdit)
        ensures
            st.state() == (EditState { buf: old(self).text_view(), cursor: old(self).text_view().len(), hist: None, saved: Seq::empty() }),
            st.restore_bg is None,
            st.wf(old(self).history@.len()),
            final(self).output() == old(self).output() + old(self).edit_output(st.state()),
            *final(self) == (Pane { pending: final(self).pending, ..*old(self) }),
    {
        let buf = chars_of(self.text());
        let n = buf.len();
        let st = LineEdit { buf, cursor: n, hist_pos: None, saved: Vec::new(), restore_bg: None };
        self.edit_redraw(&st);
        st
    }

    /// Apply one key to the editor and, unless it ended the editing,
    /// draw again. The answer says whether the editing ended.
    pub fn edit_key(&mut self, st: &mut LineEdit, code: KeyName, mods: u8) -> (done: bool)
        requires
            old(st).wf(old(self).history@.len()),
        ensures
            (final(st).state(), done) == edit_step(old(st).state(), code, mods, old(self).record, views(old(self).history@)),
            final(st).restore_bg == old(st).restore_bg,
            final(st).wf(old(self).history@.len()),
            final(self).output() == old(self).output() + (if done { Seq::empty() } else { old(self).edit_output(final(st).state()) }),
            *final(self) == (Pane { pending: final(self).pending, ..*old(self) }),
    {
        let done = self.edit_step_exec(st, code, mods);
        if !done {
            self.edit_redraw(st);
        }
        done
    }

    fn edit_step_exec(&self, st: &mut LineEdit, code: KeyName, mods: u8) -> (done: bool)
        requires
            old(st).wf(self.history@.len()),
        ensures
            (final(st).state(), done) == edit_step(old(st).state(), code, mods, self.record, views(self.history@)),
            final(st).restore_bg == old(st).restore_bg,
            final(st).wf(self.history@.len()),
    {
        let ghost hv = views(self.history@);
        let n = self.history.len();
        match code {
            KeyName::Enter => true,
            KeyName::Esc => {
                st.buf = Vec::new();
                st.cursor = 0;
                assert(st.buf@ =~= Seq::<char>::empty());
                true
            },
            KeyName::Backspace => {
                if st.cursor > 0 {
                    st.cursor = st.cursor - 1;
                    st.buf.remove(st.cursor);
                }
                false
            },
            KeyName::Delete => {
                if st.cursor < st.buf.len() {
                    st.buf.remove(st.cursor);
                }
                false
            },
            KeyName::Left => {
                if st.cursor > 0 {
                    st.cursor = st.cursor - 1;
                }
                false
            },
            KeyName::Right => {
                if st.cursor < st.buf.len() {
                    st.cursor = st.cursor + 1;
                }
                false
            },
            KeyName::Home => {
                st.cursor = 0;
                false
            },
            KeyName::End => {
                st.cursor = st.buf.len();
                false
            },
            KeyName::Up => {
                if self.record && n > 0 {
                    let pos: usize = match st.hist_pos {
                        Some(p) => if p + 1 <= n - 1 { p + 1 } else { n - 1 },
                        None => {
                            st.saved = st.buf.clone();
                            0
                        },
                    };
                    st.hist_pos = Some(pos);
                    st.buf = chars_of(self.history[n - 1 - pos].as_str());
                    st.cursor = st.buf.len();
                    assert(hv[n - 1 - pos] == self.history@[n - 1 - pos]@);
                }
                false
            },
            KeyName::Down => {
                if self.record {
                    match st.hist_pos {
                        Some(p) => {
                            if p == 0 {
                                st.hist_pos = None;
                                st.buf = st.saved.clone();
                                st.cursor = st.buf.len();
                            } else {
                                st.hist_pos = Some(p - 1);
                                st.buf = chars_of(self.history[n - p].as_str());
                                st.cursor = st.buf.len();
                                assert(hv[n - p] == self.history@[n - p]@);
                            }
                        },
                        None => {},
                    }
                }
                false
            },
            KeyName::Char(c) => {
                if c == 'k' && mods == MOD_CONTROL {
                    st.buf.truncate(st.cursor);
                } else if c != '\t' {
                    st.buf.insert(st.cursor, c);
                    let len = st.buf.len();
                    assert(st.cursor < len);
                    st.cursor = st.cursor + 1;
                }
                false
            },
            _ => false,
        }
    }

    /// Close the editor: the text is kept in the history when recording
    /// and not empty (at most 100 entries), becomes the pane's text, and
    /// is returned; a background changed for the editing is put back.
    /// The cached line count is dropped, as the text changed.
    pub fn edit_finish(&mut self, st: LineEdit) -> (r: String)
        ensures
            r@ == st.buf@,
            final(self).text_view() == st.buf@,
            final(self).cached_count() is None,
            final(self).wf(),
            final(self).history@ == history_with(old(self).history@, old(self).record, r),
            final(self).bg == (match st.restore_bg {
                Some(b) => b,
                None => old(self).bg,
            }),
            *final(self) == (Pane { content: final(self).content, history: final(self).history, bg: final(self).bg, ..*old(self) }),
    {
        let r = string_of(&st.buf);
        if self.record && !r.as_str().is_empty() {
            self.history.push(r.clone());
            if self.history.len() > 100 {
                self.history.remove(0);
            }
        }
        self.content = PaneText::fresh(r.clone());
        match st.restore_bg {
            Some(b) => {
                self.bg = b;
            },
            None => {},
        }
        r
    }

    /// Ask for input: the prompt and initial text are set, and the
    /// editor opens on that text.
    pub fn ask(&mut self, prompt: &str, initial: &str) -> (st: LineEdit)
        ensures
            final(self).prompt@ == prompt@,
            final(self).text_view() == initial@,
            final(self).cached_count() is None,
            final(self).history@ == old(self).history_after(),
            st.state() == (EditState { buf: initial@, cursor: initial@.len(), hist: None, saved: Seq::empty() }),
            st.restore_bg is None,
            st.wf(final(self).history@.len()),
            final(self).output() == old(self).output() + final(self).edit_output(st.state()),
            *final(self) == (Pane {
                prompt: final(self).prompt,
                content: final(self).content,
                history: final(self).history,
                pending: final(self).pending,
                ..*old(self)
            }),
    {
        self.prompt = String::from_str(prompt);
        self.set_text(initial);
        self.editline()
    }

    /// As `ask`, in the background colour `temp_bg` until the editor closes.
    pub fn ask_with_bg(&mut self, prompt: &str, initial: &str, temp_bg: u16) -> (st: LineEdit)
        ensures
            final(self).prompt@ == prompt@,
            final(self).text_view() == initial@,
            final(self).bg == temp_bg,
            final(self).history@ == old(self).history_after(),
            st.state() == (EditState { buf: initial@, cursor: initial@.len(), hist: None, saved: Seq::empty() }),
            st.restore_bg == Some(old(self).bg),
            st.wf(final(self).history@.len()),
            final(self).output() == old(self).output() + final(self).edit_output(st.state()),
            *final(self) == (Pane {
                prompt: final(self).prompt,
                content: final(self).content,
                history: final(self).history,
                pending: final(self).pending,
                bg: temp_bg,
                ..*old(self)
            }),
    {
        let orig_bg = self.bg;
        self.bg = temp_bg;
        let mut st = self.ask(prompt, initial);
        st.restore_bg = Some(orig_bg);
        st
    }
}


/// The history never grows past 100 entries.
pub proof fn law_history_stays_bounded(history: Seq<String>, record: bool, entry: String)
    requires
        history.len() <= 100,
    ensures
        history_with(history, record, entry).len() <= 100,
{
}

/// ESC ends the editing with the text emptied; ENTER ends it with the
/// text as it stands.
pub proof fn law_escape_and_enter(s: EditState, mods: u8, record: bool, history: Seq<Seq<char>>)
    ensures
        edit_step(s, KeyName::Esc, mods, record, history).1,
        edit_step(s, KeyName::Esc, mods, record, history).0.buf == Seq::<char>::empty(),
        edit_step(s, KeyName::Enter, mods, record, history) == (s, true),
{
}

/// Every other key leaves the editor open.
pub proof fn law_only_escape_and_enter_end(s: EditState, code: KeyName, mods: u8, record: bool, history: Seq<Seq<char>>)
    requires
        code != KeyName::Esc,
        code != KeyName::Enter,
    ensures
        !edit_step(s, code, mods, record, history).1,
{
}

/// The editor shows the end of the text, where the cursor works: after
/// the prompt come the last `ew` characters of the text, `ew` being the
/// width left beside the prompt, or the whole text where it fits.
pub proof fn law_editor_shows_the_end_of_the_text(
    prompt: Seq<char>,
    buf: Seq<char>,
    cursor: nat,
    x: u16,
    y: u16,
    w: u16,
    fg: u16,
    bg: u16,
)
    ensures
        ({
            let out = edit_view(prompt, buf, cursor, x, y, w, fg, bg);
            let head = goto_spec(y as nat, x as nat) + colors_spec(fg, bg) + prompt;
            let ew = sat_sub(w as nat, display_width_spec(prompt) as nat);
            &&& out.len() >= head.len() + min_nat(ew, buf.len())
            &&& out.take(head.len() as int) == head
            &&& buf.len() > ew ==> out.subrange(head.len() as int, (head.len() + ew) as int) == buf.subrange(buf.len() - ew, buf.len() as int)
            &&& buf.len() <= ew ==> out.subrange(head.len() as int, (head.len() + buf.len()) as int) == buf
        }),
{
    let out = edit_view(prompt, buf, cursor, x, y, w, fg, bg);
    let head = goto_spec(y as nat, x as nat) + colors_spec(fg, bg) + prompt;
    let ew = sat_sub(w as nat, display_width_spec(prompt) as nat);
    let visible = if buf.len() > ew { buf.skip(buf.len() - ew) } else { buf };
    let pw = display_width_spec(prompt) as nat;
    let pad = spaces(sat_sub(ew, display_width_spec(visible) as nat));
    let before = buf.take(min_nat(cursor, buf.len()) as int);
    let col = ((x as nat + pw % 65536 + (display_width_spec(before) as nat) % 65536) % 65536) as nat;
    let rest = pad + "\x1b[0m"@ + goto_spec(y as nat, col);
    assert(out == head + visible + rest);
    assert(out =~= head + (visible + rest));
    assert(out.take(head.len() as int) =~= head);
    assert(out.subrange(head.len() as int, (head.len() + visible.len()) as int) =~= visible);
    if buf.len() > ew {
        assert(buf.skip(buf.len() - ew) =~= buf.subrange(buf.len() - ew, buf.len() as int));
    }
}

} // verus!
