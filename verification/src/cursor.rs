//! Cursor control: the escape sequences that move, save and restore the
//! terminal cursor and clear around it. Each function answers the
//! sequence; writing it to the terminal is the caller's.

use vstd::prelude::*;

use crate::chars::{dec, push_dec};
use crate::pane::{goto_spec, push_goto};

verus! {

/// `CSI n` followed by the final character `f`.
pub open spec fn csi_n(n: nat, f: Seq<char>) -> Seq<char> {
    "\x1b["@ + dec(n) + f
}

fn csi_n_exec(n: u64, f: &str) -> (r: String)
    ensures
        r@ == csi_n(n as nat, f@),
{
    let mut r = String::from_str("\x1b[");
    push_dec(&mut r, n);
    r.append(f);
    r
}

pub struct Cursor;

impl Cursor {
    /// Set cursor position (col, row), 1-indexed.
    pub fn set(col: u16, row: u16) -> (r: String)
        ensures
            r@ == goto_spec(row as nat, col as nat),
    {
        let mut r = String::new();
        push_goto(&mut r, row as u64, col as u64);
        r
    }

    /// Move to row `r`, keeping the column of `pos`, the cursor position
    /// as (row, col).
    pub fn row(r: u16, pos: (u16, u16)) -> (s: String)
        ensures
            s@ == goto_spec(r as nat, pos.1 as nat),
    {
        let (_, c) = pos;
        Self::set(c, r)
    }

    /// Move to column `c`, keeping the row of `pos`, the cursor position
    /// as (row, col).
    pub fn col(c: u16, pos: (u16, u16)) -> (s: String)
        ensures
            s@ == goto_spec(pos.0 as nat, c as nat),
    {
        let (r, _) = pos;
        Self::set(c, r)
    }

    /// Move up n rows
    pub fn up(n: u16) -> (r: String)
        ensures
            r@ == csi_n(n as nat, "A"@),
    {
        csi_n_exec(n as u64, "A")
    }

    /// Move down n rows
    pub fn down(n: u16) -> (r: String)
        ensures
            r@ == csi_n(n as nat, "B"@),
    {
        csi_n_exec(n as u64, "B")
    }

    /// Move right n columns
    pub fn right(n: u16) -> (r: String)
        ensures
            r@ == csi_n(n as nat, "C"@),
    {
        csi_n_exec(n as u64, "C")
    }

    /// Move left n columns
    pub fn left(n: u16) -> (r: String)
        ensures
            r@ == csi_n(n as nat, "D"@),
    {
        csi_n_exec(n as u64, "D")
    }

    /// Move to start of next line
    pub fn next_line() -> (r: String)
        ensures
            r@ == "\x1b[E"@,
    {
        String::from_str("\x1b[E")
    }

    /// Move to start of previous line
    pub fn prev_line() -> (r: String)
        ensures
            r@ == "\x1b[F"@,
    {
        String::from_str("\x1b[F")
    }

    /// Save cursor position
    pub fn save() -> (r: String)
        ensures
            r@ == "\x1b7"@,
    {
        String::from_str("\x1b7")
    }

    /// Restore saved cursor position
    pub fn restore() -> (r: String)
        ensures
            r@ == "\x1b8"@,
    {
        String::from_str("\x1b8")
    }

    /// Set the host terminal's caret shape via DECSCUSR (`CSI N q`).
    /// Common values: 0 / 1 blinking block (terminal default), 2 steady
    /// block, 3 blinking underline, 4 steady underline, 5 blinking bar,
    /// 6 steady bar.
    pub fn shape(n: u8) -> (r: String)
        ensures
            r@ == csi_n(n as nat, " q"@),
    {
        csi_n_exec(n as u64, " q")
    }

    /// Clear n characters from cursor position
    pub fn clear_char(n: u16) -> (r: String)
        ensures
            r@ == csi_n(n as nat, "X"@),
    {
        csi_n_exec(n as u64, "X")
    }

    /// Clear entire line, cursor to start
    pub fn clear_line() -> (r: String)
        ensures
            r@ == "\x1b[2K\r"@,
    {
        String::from_str("\x1b[2K\r")
    }

    /// Clear from start of line to cursor
    pub fn clear_line_before() -> (r: String)
        ensures
            r@ == "\x1b[1K"@,
    {
        String::from_str("\x1b[1K")
    }

    /// Clear from cursor to end of line
    pub fn clear_line_after() -> (r: String)
        ensures
            r@ == "\x1b[K"@,
    {
        String::from_str("\x1b[K")
    }

    /// Clear from cursor to bottom of screen
    pub fn clear_screen_down() -> (r: String)
        ensures
            r@ == "\x1b[J"@,
    {
        String::from_str("\x1b[J")
    }

    /// Scroll terminal up one line
    pub fn scroll_up() -> (r: String)
        ensures
            r@ == "\x1bM"@,
    {
        String::from_str("\x1bM")
    }

    /// Scroll terminal down one line
    pub fn scroll_down() -> (r: String)
        ensures
            r@ == "\x1bD"@,
    {
        String::from_str("\x1bD")
    }
}

} // verus!
