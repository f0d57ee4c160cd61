//! Input handling: the names that keys are reported by.
//!
//! Reading the terminal is the caller's part. It hands over what it read
//! as an `InputEvent`, with the key's code as a `KeyName` and its
//! modifiers as the bits that the terminal backend reports them by, and
//! gets back the key's name ("ESC", "C-UP", "a", "F5", ...).

use vstd::prelude::*;

use crate::chars::{dec, push_char, push_dec};

verus! {

/// The shift bit of a modifier set.
pub const MOD_SHIFT: u8 = 1;

/// The control bit of a modifier set.
pub const MOD_CONTROL: u8 = 2;

/// What happened to a key, for readers that ask with `event_ms`.
#[derive(Clone, Copy, PartialEq, Eq, Structural, Debug)]
pub enum KeyState {
    Pressed,
    Repeated,
    Released,
}

/// The key of a key event. `Other` is every key that has no name here
/// (caps lock, media keys, a lone modifier, ...).
#[derive(Clone, Copy, PartialEq, Eq, Structural, Debug)]
pub enum KeyName {
    Backspace,
    Enter,
    Left,
    Right,
    Up,
    Down,
    Home,
    End,
    PageUp,
    PageDown,
    Tab,
    BackTab,
    Delete,
    Insert,
    F(u8),
    Char(char),
    Esc,
    Other,
}

/// One event read from the terminal.
pub enum InputEvent {
    /// A key, its modifier bits and what happened to it.
    Key { code: KeyName, mods: u8, state: KeyState },
    /// The terminal changed size.
    Resize,
    /// A bracketed paste, with what was pasted.
    Paste(String),
    /// Anything else (focus, mouse).
    Other,
}

/// `c` in upper case where it is an ASCII letter.
pub open spec fn ascii_upper(c: char) -> char {
    if 'a' <= c && c <= 'z' {
        ((c as u32) - 32) as char
    } else {
        c
    }
}

fn ascii_upper_exec(c: char) -> (r: char)
    ensures
        r == ascii_upper(c),
{
    if 'a' <= c && c <= 'z' {
        let u: u8 = (c as u32 - 32) as u8;
        u as char
    } else {
        c
    }
}

/// The name of a key: the control key is read before the shift key, and
/// a key that tells neither apart has one name for all.
pub open spec fn key_name_spec(code: KeyName, mods: u8) -> Seq<char> {
    let ctrl = (mods & MOD_CONTROL) != 0;
    let shift = (mods & MOD_SHIFT) != 0;
    match code {
        KeyName::Esc => "ESC"@,
        KeyName::Enter => "ENTER"@,
        KeyName::Tab => if shift { "S-TAB"@ } else { "TAB"@ },
        KeyName::BackTab => "S-TAB"@,
        KeyName::Backspace => if ctrl { "WBACK"@ } else if shift { "S-BACK"@ } else { "BACK"@ },
        KeyName::Delete => if ctrl { "C-DEL"@ } else { "DEL"@ },
        KeyName::Insert => if ctrl { "C-INS"@ } else { "INS"@ },
        KeyName::Up => if ctrl { "C-UP"@ } else if shift { "S-UP"@ } else { "UP"@ },
        KeyName::Down => if ctrl { "C-DOWN"@ } else if shift { "S-DOWN"@ } else { "DOWN"@ },
        KeyName::Left => if ctrl { "C-LEFT"@ } else if shift { "S-LEFT"@ } else { "LEFT"@ },
        KeyName::Right => if ctrl { "C-RIGHT"@ } else if shift { "S-RIGHT"@ } else { "RIGHT"@ },
        KeyName::Home => if ctrl { "C-HOME"@ } else { "HOME"@ },
        KeyName::End => if ctrl { "C-END"@ } else { "END"@ },
        KeyName::PageUp => if ctrl { "C-PgUP"@ } else { "PgUP"@ },
        KeyName::PageDown => if ctrl { "C-PgDOWN"@ } else { "PgDOWN"@ },
        KeyName::F(n) => "F"@ + dec(n as nat),
        KeyName::Char(c) => if ctrl && c == ' ' {
            "C-SPACE"@
        } else if ctrl {
            "C-"@ + seq![ascii_upper(c)]
        } else {
            seq![c]
        },
        KeyName::Other => Seq::empty(),
    }
}

/// What `getchr` answers for an event: a release is no key press and
/// gives nothing; a key gives its name, a resize "RESIZE", a paste
/// "PASTE", a NUL and the pasted text; anything else nothing.
pub open spec fn getchr_spec(ev: InputEvent) -> Option<Seq<char>> {
    match ev {
        InputEvent::Key { code, mods, state } => if state == KeyState::Released {
            None
        } else {
            Some(key_name_spec(code, mods))
        },
        InputEvent::Resize => Some("RESIZE"@),
        InputEvent::Paste(s) => Some("PASTE"@ + seq!['\0'] + s@),
        InputEvent::Other => None,
    }
}

/// What `event_ms` answers for an event: every key with its name and
/// what happened to it, a resize as a pressed "RESIZE", nothing else.
pub open spec fn event_spec(ev: InputEvent) -> Option<(Seq<char>, KeyState)> {
    match ev {
        InputEvent::Key { code, mods, state } => Some((key_name_spec(code, mods), state)),
        InputEvent::Resize => Some(("RESIZE"@, KeyState::Pressed)),
        _ => None,
    }
}

/// The key names, for reading keys by name.
pub struct Input;

impl Input {
    /// Convert a key and its modifier bits to its name.
    pub fn key_to_string(code: KeyName, mods: u8) -> (r: String)
        ensures
            r@ == key_name_spec(code, mods),
    {
        let ctrl = (mods & MOD_CONTROL) != 0;
        let shift = (mods & MOD_SHIFT) != 0;
        match code {
            KeyName::Esc => String::from_str("ESC"),
            KeyName::Enter => String::from_str("ENTER"),
            KeyName::Tab => if shift { String::from_str("S-TAB") } else { String::from_str("TAB") },
            KeyName::BackTab => String::from_str("S-TAB"),
            KeyName::Backspace => if ctrl {
                String::from_str("WBACK")
            } else if shift {
                String::from_str("S-BACK")
            } else {
                String::from_str("BACK")
            },
            KeyName::Delete => if ctrl { String::from_str("C-DEL") } else { String::from_str("DEL") },
            KeyName::Insert => if ctrl { String::from_str("C-INS") } else { String::from_str("INS") },
            KeyName::Up => if ctrl {
                String::from_str("C-UP")
            } else if shift {
                String::from_str("S-UP")
            } else {
                String::from_str("UP")
            },
            KeyName::Down => if ctrl {
                String::from_str("C-DOWN")
            } else if shift {
                String::from_str("S-DOWN")
            } else {
                String::from_str("DOWN")
            },
            KeyName::Left => if ctrl {
                String::from_str("C-LEFT")
            } else if shift {
                String::from_str("S-LEFT")
            } else {
                String::from_str("LEFT")
            },
            KeyName::Right => if ctrl {
                String::from_str("C-RIGHT")
            } else if shift {
                String::from_str("S-RIGHT")
            } else {
                String::from_str("RIGHT")
            },
            KeyName::Home => if ctrl { String::from_str("C-HOME") } else { String::from_str("HOME") },
            KeyName::End => if ctrl { String::from_str("C-END") } else { String::from_str("END") },
            KeyName::PageUp => if ctrl { String::from_str("C-PgUP") } else { String::from_str("PgUP") },
            KeyName::PageDown => if ctrl { String::from_str("C-PgDOWN") } else { String::from_str("PgDOWN") },
            KeyName::F(n) => {
                let mut r = String::from_str("F");
                push_dec(&mut r, n as u64);
                r
            },
            KeyName::Char(c) => {
                if ctrl && c == ' ' {
                    String::from_str("C-SPACE")
                } else if ctrl {
                    let mut r = String::from_str("C-");
                    push_char(&mut r, ascii_upper_exec(c));
                    proof { reveal_strlit("C-"); }
                    r
                } else {
                    let mut r = String::new();
                    push_char(&mut r, c);
                    r
                }
            },
            KeyName::Other => String::new(),
        }
    }

    /// What `getchr` answers once it has read `ev`.
    pub fn getchr_answer(ev: &InputEvent) -> (r: Option<String>)
        ensures
            match getchr_spec(*ev) {
                Some(s) => r matches Some(t) && t@ == s,
                None => r is None,
            },
    {
        match ev {
            InputEvent::Key { code, mods, state } => {
                if *state == KeyState::Released {
                    None
                } else {
                    Some(Self::key_to_string(*code, *mods))
                }
            },
            InputEvent::Resize => Some(String::from_str("RESIZE")),
            InputEvent::Paste(s) => {
                let mut r = String::from_str("PASTE");
                push_char(&mut r, '\0');
                r.append(s.as_str());
                Some(r)
            },
            InputEvent::Other => None,
        }
    }

    /// What `event_ms` answers once it has read `ev`.
    pub fn event_answer(ev: &InputEvent) -> (r: Option<(String, KeyState)>)
        ensures
            match event_spec(*ev) {
                Some((s, k)) => r matches Some((t, j)) && t@ == s && j == k,
                None => r is None,
            },
    {
        match ev {
            InputEvent::Key { code, mods, state } => Some((Self::key_to_string(*code, *mods), *state)),
            InputEvent::Resize => Some((String::from_str("RESIZE"), KeyState::Pressed)),
            _ => None,
        }
    }
}

} // verus!
