//! Popup - modal dialog widget: a centered (or positioned) pane that
//! overlays content with keyboard navigation.
//!
//! The key loop belongs to the caller: `view` and `modal` open the
//! popup, `view_key` and `modal_key` apply one key each.

use vstd::prelude::*;

use crate::chars::{occurs_at, chars_of, push_repeat, push_replaced_sub, replace_sub, spaces, split_char, split_chars, str_eq, string_of, views, join, join_strings};
use crate::pane::{Pane, concat, goto_spec, min_nat, push_goto, sat_sub};
use crate::style::{RESET, REVERSE};
use crate::{display_width, display_width_spec, truncate_ansi, truncate_spec};

verus! {

/// The border ring of a dismissed popup blanked: the rows above and
/// below, then the two side cells of every content row.
pub open spec fn ring_spec(x: u16, y: u16, w: u16, h: u16) -> Seq<char> {
    let x0 = if sat_sub(x as nat, 1) >= 1 { sat_sub(x as nat, 1) } else { 1 };
    let y0 = if sat_sub(y as nat, 1) >= 1 { sat_sub(y as nat, 1) } else { 1 };
    let row = spaces((w + 2) as nat);
    "\x1b[0m"@ + goto_spec(y0, x0) + row + goto_spec((y + h) as nat, x0) + row
        + concat(Seq::new(h as nat, |r: int| goto_spec((y + r) as nat, x0) + " "@ + goto_spec((y + r) as nat, (x + w) as nat) + " "@))
}

fn ring_exec(x: u16, y: u16, w: u16, h: u16) -> (r: String)
    requires
        x + w <= u16::MAX,
        y + h <= u16::MAX,
    ensures
        r@ == ring_spec(x, y, w, h),
{
    let x0: u64 = if x >= 2 { x as u64 - 1 } else { 1 };
    let y0: u64 = if y >= 2 { y as u64 - 1 } else { 1 };
    let mut r = String::from_str("\x1b[0m");
    push_goto(&mut r, y0, x0);
    push_repeat(&mut r, " ", w as usize + 2);
    push_goto(&mut r, y as u64 + h as u64, x0);
    push_repeat(&mut r, " ", w as usize + 2);
    let ghost head = r@;
    let ghost pieces = Seq::new(h as nat, |q: int| goto_spec((y + q) as nat, x0 as nat) + " "@ + goto_spec((y + q) as nat, (x + w) as nat) + " "@);
    let mut q: u16 = 0;
    while q < h
        invariant
            q <= h,
            y + h <= u16::MAX,
            x + w <= u16::MAX,
            pieces == Seq::new(h as nat, |q: int| goto_spec((y + q) as nat, x0 as nat) + " "@ + goto_spec((y + q) as nat, (x + w) as nat) + " "@),
            r@ == head + concat(pieces.take(q as int)),
        decreases h - q,
    {
        assert(pieces.take(q + 1).drop_last() == pieces.take(q as int));
        push_goto(&mut r, y as u64 + q as u64, x0);
        r.append(" ");
        push_goto(&mut r, y as u64 + q as u64, x as u64 + w as u64);
        r.append(" ");
        q += 1;
    }
    assert(pieces.take(h as int) == pieces);
    r
}

/// One row drawn as the selection bar: reverse video, re-armed after
/// every reset inside the row, padded to `width`, then a reset.
pub open spec fn select_bar_spec(line: Seq<char>, width: nat) -> Seq<char> {
    "\x1b[7m"@ + replace_sub(line, "\x1b[0m"@, "\x1b[0m"@ + "\x1b[7m"@)
        + spaces(sat_sub(width, display_width_spec(line) as nat)) + "\x1b[0m"@
}

/// One row drawn as the selection bar. Reverse video is re-armed after
/// every reset inside the row, so an item carrying its own colors does
/// not drop the bar half way across.
fn select_bar(line: &str, width: usize) -> (r: String)
    ensures
        r@ == select_bar_spec(line@, width as nat),
{
    let cs = chars_of(line);
    let reset = chars_of(RESET);
    proof { reveal_strlit("\x1b[0m"); }
    let mut fix = String::from_str(RESET);
    fix.append(REVERSE);
    let w = display_width(line);
    let pad: usize = if width >= w { width - w } else { 0 };
    let mut r = String::from_str(REVERSE);
    push_replaced_sub(&mut r, &cs, &reset, fix.as_str());
    push_repeat(&mut r, " ", pad);
    r.append(RESET);
    r
}

/// What a key does in a viewer.
pub enum ViewAction {
    Close,
    LineUp,
    LineDown,
    PageDown,
    PageUp,
    Top,
    Bottom,
    Ignore,
}

/// What the viewer's key action `a` needs to draw `p` where it scrolls to.
pub open spec fn view_key_fits(p: &Pane, a: ViewAction) -> bool {
    let t = p.text_view();
    let h1 = sat_sub(p.h as nat, 1);
    match a {
        ViewAction::LineUp => p.ix > 0 ==> p.draw_fits(t, (p.ix - 1) as nat),
        ViewAction::LineDown => p.ix + 1 < p.lines_known() ==> p.draw_fits(t, (p.ix + 1) as nat),
        ViewAction::PageDown => p.draw_fits(t, min_nat(p.ix as nat + h1, sat_sub(p.lines_known() as nat, p.h as nat))),
        ViewAction::PageUp => p.draw_fits(t, sat_sub(p.ix as nat, h1)),
        ViewAction::Top => p.draw_fits(t, 0),
        ViewAction::Bottom => p.draw_fits(t, sat_sub(p.lines_known() as nat, p.h as nat)),
        _ => true,
    }
}

/// The viewer's keys: ESC, q and ENTER close; Up/k, Down/j scroll a line;
/// PgDOWN/SPACE and PgUP/b a page; HOME/g and END/G jump to the edges.
pub open spec fn view_action(key: Seq<char>) -> ViewAction {
    if key == "ESC"@ || key == "q"@ || key == "ENTER"@ {
        ViewAction::Close
    } else if key == "UP"@ || key == "k"@ {
        ViewAction::LineUp
    } else if key == "DOWN"@ || key == "j"@ {
        ViewAction::LineDown
    } else if key == "PgDOWN"@ || key == " "@ {
        ViewAction::PageDown
    } else if key == "PgUP"@ || key == "b"@ {
        ViewAction::PageUp
    } else if key == "HOME"@ || key == "g"@ {
        ViewAction::Top
    } else if key == "END"@ || key == "G"@ {
        ViewAction::Bottom
    } else {
        ViewAction::Ignore
    }
}

/// What a key does in a menu.
pub enum MenuAction {
    Cancel,
    Choose,
    Up,
    Down,
    PageUp,
    PageDown,
    First,
    Last,
    Ignore,
}

/// The menu's keys: ESC and q cancel, ENTER chooses; Up/k, Down/j,
/// PgUP/b, PgDOWN/SPACE, HOME/g and END/G move the selection.
pub open spec fn menu_action(key: Seq<char>) -> MenuAction {
    if key == "ESC"@ || key == "q"@ {
        MenuAction::Cancel
    } else if key == "ENTER"@ {
        MenuAction::Choose
    } else if key == "UP"@ || key == "k"@ {
        MenuAction::Up
    } else if key == "DOWN"@ || key == "j"@ {
        MenuAction::Down
    } else if key == "PgUP"@ || key == "b"@ {
        MenuAction::PageUp
    } else if key == "PgDOWN"@ || key == " "@ {
        MenuAction::PageDown
    } else if key == "HOME"@ || key == "g"@ {
        MenuAction::First
    } else if key == "END"@ || key == "G"@ {
        MenuAction::Last
    } else {
        MenuAction::Ignore
    }
}

/// The selection after a move, with `last` the index of the last item
/// and `page` the rows of the popup (at least one).
pub open spec fn menu_index(a: MenuAction, index: nat, last: nat, page: nat) -> nat {
    match a {
        MenuAction::Up => sat_sub(index, 1),
        MenuAction::Down => min_nat(index + 1, last),
        MenuAction::PageUp => sat_sub(index, page),
        MenuAction::PageDown => min_nat(index + page, last),
        MenuAction::First => 0,
        MenuAction::Last => last,
        _ => index,
    }
}

/// The scroll position that keeps the selection on screen, moving no
/// further than it takes.
pub open spec fn menu_scroll(index: nat, ix: nat, h: nat) -> nat {
    if index < ix {
        index
    } else if index >= ix + h {
        (index + 1 - h) as nat
    } else {
        ix
    }
}

/// The menu rows: each item cut to the width, the selected one as the bar.
pub open spec fn menu_rows(items: Seq<Seq<char>>, index: nat, w: nat) -> Seq<Seq<char>> {
    Seq::new(
        items.len(),
        |i: int| if i == index { select_bar_spec(truncate_spec(items[i], w), w) } else { truncate_spec(items[i], w) },
    )
}

/// The rows of a popup `h` rows high: at least one.
pub open spec fn page_of(h: u16) -> nat {
    if h >= 1 { h as nat } else { 1 }
}

/// The menu rows joined into one text.
fn menu_text(items: &Vec<String>, index: usize, w: usize) -> (text: String)
    ensures
        text@ == join(menu_rows(views(items@), index as nat, w as nat), "\n"@),
{
    let ghost iv = views(items@);
    let mut rows: Vec<String> = Vec::new();
    let mut i: usize = 0;
    while i < items.len()
        invariant
            i <= items@.len(),
            iv == views(items@),
            rows@.len() == i,
            forall|k: int| 0 <= k < i ==> #[trigger] rows@[k]@ == menu_rows(iv, index as nat, w as nat)[k],
        decreases items@.len() - i,
    {
        let line = truncate_ansi(items[i].as_str(), w);
        assert(iv[i as int] == items@[i as int]@);
        if i == index {
            rows.push(select_bar(line.as_str(), w));
        } else {
            rows.push(line);
        }
        i += 1;
    }
    assert(views(rows@) =~= menu_rows(iv, index as nat, w as nat));
    join_strings(&rows, "\n")
}

pub struct Popup {
    pub pane: Pane,
}

impl Popup {
    /// Create a centered popup with given dimensions, on a terminal of
    /// `cols` columns and `rows` rows.
    pub fn centered(w: u16, h: u16, fg: u16, bg: u16, cols: u16, rows: u16) -> (p: Self)
        ensures
            p.pane.wf(),
            p.pane.x == (if sat_sub(cols as nat, w as nat) / 2 >= 1 { sat_sub(cols as nat, w as nat) / 2 } else { 1 }),
            p.pane.y == (if sat_sub(rows as nat, h as nat) / 2 >= 1 { sat_sub(rows as nat, h as nat) / 2 } else { 1 }),
            p.pane.w == w && p.pane.h == h && p.pane.fg == fg && p.pane.bg == bg,
            p.pane.border && p.pane.scroll,
            p.pane.border_fg is None && p.pane.scroll_fg is None,
            p.pane.align == crate::pane::Align::Left,
            p.pane.ix == 0 && p.pane.index == 0,
            p.pane.text_view() == Seq::<char>::empty(),
            p.pane.frame_view() == Seq::<Seq<char>>::empty(),
            p.pane.output() == Seq::<char>::empty(),
            p.pane.wrap && !p.pane.record,
            p.pane.history@.len() == 0,
            p.pane.cached_count() is None,
            !p.pane.moreup && !p.pane.moredown,
    {
        let x = (if cols >= w { cols - w } else { 0 }) / 2;
        let y = (if rows >= h { rows - h } else { 0 }) / 2;
        let mut pane = Pane::new(if x >= 1 { x } else { 1 }, if y >= 1 { y } else { 1 }, w, h, fg, bg);
        pane.border = true;
        pane.scroll = true;
        Popup { pane }
    }

    /// Create a popup at specific position
    pub fn new(x: u16, y: u16, w: u16, h: u16, fg: u16, bg: u16) -> (p: Self)
        ensures
            p.pane.wf(),
            p.pane.x == x && p.pane.y == y && p.pane.w == w && p.pane.h == h,
            p.pane.fg == fg && p.pane.bg == bg,
            p.pane.border && p.pane.scroll,
            p.pane.border_fg is None && p.pane.scroll_fg is None,
            p.pane.align == crate::pane::Align::Left,
            p.pane.ix == 0 && p.pane.index == 0,
            p.pane.text_view() == Seq::<char>::empty(),
            p.pane.frame_view() == Seq::<Seq<char>>::empty(),
            p.pane.output() == Seq::<char>::empty(),
            p.pane.wrap && !p.pane.record,
            p.pane.history@.len() == 0,
            p.pane.cached_count() is None,
            !p.pane.moreup && !p.pane.moredown,
    {
        let mut pane = Pane::new(x, y, w, h, fg, bg);
        pane.border = true;
        pane.scroll = true;
        Popup { pane }
    }

    /// Show the popup (non-blocking, for manual control): the content,
    /// the border, a refresh.
    pub fn show(&mut self, content: &str)
        requires
            old(self).pane.border ==> old(self).pane.border_fits(),
            old(self).pane.draw_fits(content@, old(self).pane.ix as nat),
        ensures
            final(self).pane.wf(),
            final(self).pane.same_style(&old(self).pane),
            final(self).pane.ix == old(self).pane.ix,
            final(self).pane.text_view() == content@,
            final(self).pane.history@ == old(self).pane.history_after(),
            final(self).pane.output() == old(self).pane.output()
                + (if old(self).pane.border { old(self).pane.border_output() } else { Seq::empty() })
                + old(self).pane.refresh_output(content@, old(self).pane.ix as nat, old(self).pane.frame_view()),
            final(self).pane.frame_view() == old(self).pane.frame_of(content@, old(self).pane.ix as nat),
            final(self).pane.cached_count() is None,
            final(self).pane.moreup == (old(self).pane.ix > 0),
            final(self).pane.moredown == old(self).pane.more_below(content@, old(self).pane.ix as nat),
    {
        let ghost pre = self.pane;
        self.pane.set_text(content);
        proof { self.pane.lemma_style_decides(&pre); }
        self.pane.border_refresh();
        proof { self.pane.lemma_style_decides(&pre); }
        self.pane.refresh();
    }

    /// Open the popup as a read-only VIEWER: the content from its first
    /// line, the border, a refresh. Feed it keys with `view_key`.
    pub fn view(&mut self, content: &str)
        requires
            old(self).pane.border ==> old(self).pane.border_fits(),
            old(self).pane.draw_fits(content@, 0),
        ensures
            final(self).pane.wf(),
            final(self).pane.same_style(&old(self).pane),
            final(self).pane.ix == 0,
            final(self).pane.text_view() == content@,
            final(self).pane.history@ == old(self).pane.history_after(),
            final(self).pane.output() == old(self).pane.output()
                + (if old(self).pane.border { old(self).pane.border_output() } else { Seq::empty() })
                + old(self).pane.refresh_output(content@, 0, old(self).pane.frame_view()),
            final(self).pane.frame_view() == old(self).pane.frame_of(content@, 0),
            final(self).pane.cached_count() is None,
            !final(self).pane.moreup,
            final(self).pane.moredown == old(self).pane.more_below(content@, 0),
    {
        let ghost pre = self.pane;
        self.pane.set_text(content);
        self.pane.ix = 0;
        proof { self.pane.lemma_style_decides(&pre); }
        self.pane.border_refresh();
        proof { self.pane.lemma_style_decides(&pre); }
        self.pane.refresh();
    }

    /// One key for the viewer: Up/Down (and k/j) scroll the content one
    /// line at a time, PgUp/PgDn/SPACE page, g/G jump to the edges. Any
    /// of ESC / q / ENTER closes: the result says whether it did.
    pub fn view_key(&mut self, key: &str) -> (closed: bool)
        requires
            view_key_fits(&old(self).pane, view_action(key@)),
            view_action(key@) is PageDown ==> old(self).pane.ix + sat_sub(old(self).pane.h as nat, 1) <= usize::MAX,
        ensures
            closed == (view_action(key@) is Close),
            final(self).pane.wf() == old(self).pane.wf(),
            match view_action(key@) {
                ViewAction::LineUp => old(self).pane.lineup_post(&final(self).pane),
                ViewAction::LineDown => old(self).pane.linedown_post(&final(self).pane),
                ViewAction::PageDown => old(self).pane.pagedown_post(&final(self).pane),
                ViewAction::PageUp => old(self).pane.pageup_post(&final(self).pane),
                ViewAction::Top => old(self).pane.top_post(&final(self).pane),
                ViewAction::Bottom => old(self).pane.bottom_post(&final(self).pane),
                _ => *final(self) == *old(self),
            },
    {
        if str_eq(key, "ESC") || str_eq(key, "q") || str_eq(key, "ENTER") {
            return true;
        }
        if str_eq(key, "UP") || str_eq(key, "k") {
            self.pane.lineup();
        } else if str_eq(key, "DOWN") || str_eq(key, "j") {
            self.pane.linedown();
        } else if str_eq(key, "PgDOWN") || str_eq(key, " ") {
            self.pane.pagedown();
        } else if str_eq(key, "PgUP") || str_eq(key, "b") {
            self.pane.pageup();
        } else if str_eq(key, "HOME") || str_eq(key, "g") {
            self.pane.top();
        } else if str_eq(key, "END") || str_eq(key, "G") {
            self.pane.bottom();
        }
        false
    }

    /// What `render` does: the scroll position moves just enough to keep
    /// the selection on screen, the text becomes the menu rows, and the
    /// pane refreshes.
    pub open spec fn rendered_into(&self, post: &Popup, items: Seq<Seq<char>>) -> bool {
        let ix = menu_scroll(self.pane.index as nat, self.pane.ix as nat, page_of(self.pane.h));
        let text = join(menu_rows(items, self.pane.index as nat, self.pane.w as nat), "\n"@);
        &&& post.pane.wf()
        &&& post.pane.same_style(&self.pane)
        &&& post.pane.ix == ix
        &&& post.pane.text_view() == text
        &&& post.pane.history@ == self.pane.history_after()
        &&& post.pane.cached_count() is None
        &&& self.pane.shows(&post.pane, text, ix)
    }

    /// Draw the items with the current one highlighted, scrolling only as
    /// far as it takes to keep the selection on screen.
    fn render(&mut self, items: &Vec<String>)
        requires
            old(self).pane.fits(),
            old(self).pane.index < items@.len(),
        ensures
            old(self).rendered_into(final(self), views(items@)),
    {
        let h: usize = if self.pane.h >= 1 { self.pane.h as usize } else { 1 };
        let n_items = items.len();
        assert(self.pane.index < n_items);
        if self.pane.index < self.pane.ix {
            self.pane.ix = self.pane.index;
        } else if self.pane.index - self.pane.ix >= h {
            self.pane.ix = self.pane.index + 1 - h;
        }
        let text = menu_text(items, self.pane.index, self.pane.w as usize);
        self.pane.set_text(text.as_str());
        proof { self.pane.lemma_style_decides(&old(self).pane); }
        self.pane.refresh();
    }

    /// Open the popup as a MENU: one line per item, the current one drawn
    /// as a selection bar. Set `pane.index` before calling to open on a
    /// given item. Returns the items; feed keys with `modal_key`.
    pub fn modal(&mut self, content: &str) -> (items: Vec<String>)
        requires
            old(self).pane.fits(),
        ensures
            views(items@) == split_char(content@, '\n'),
            items@.len() >= 1,
            final(self).pane.wf(),
            !final(self).pane.wrap,
            final(self).pane.index == min_nat(old(self).pane.index as nat, (items@.len() - 1) as nat),
            final(self).pane.ix == menu_scroll(final(self).pane.index as nat, old(self).pane.ix as nat, page_of(old(self).pane.h)),
            final(self).pane.text_view() == join(menu_rows(views(items@), final(self).pane.index as nat, old(self).pane.w as nat), "\n"@),
            final(self).pane.same_style(&(Pane { wrap: false, index: final(self).pane.index, ..old(self).pane })),
            final(self).pane.output() == old(self).pane.output()
                + (if old(self).pane.border { final(self).pane.border_output() } else { Seq::empty() })
                + final(self).pane.refresh_output(final(self).pane.text_view(), final(self).pane.ix as nat, old(self).pane.frame_view()),
            final(self).pane.frame_view() == final(self).pane.frame_of(final(self).pane.text_view(), final(self).pane.ix as nat),
            final(self).pane.history@ == old(self).pane.history_after(),
            final(self).pane.cached_count() is None,
            final(self).pane.moreup == (final(self).pane.ix > 0),
            final(self).pane.moredown == final(self).pane.more_below(final(self).pane.text_view(), final(self).pane.ix as nat),
    {
        let cs = chars_of(content);
        let parts = split_chars(&cs, '\n');
        proof { crate::chars::lemma_split_nonempty(cs@, '\n'); }
        let mut items: Vec<String> = Vec::new();
        let mut k: usize = 0;
        while k < parts.len()
            invariant
                k <= parts@.len(),
                parts@.len() == split_char(cs@, '\n').len(),
                forall|q: int| 0 <= q < parts@.len() ==> #[trigger] parts@[q]@ == split_char(cs@, '\n')[q],
                items@.len() == k,
                forall|q: int| 0 <= q < k ==> #[trigger] items@[q]@ == split_char(cs@, '\n')[q],
            decreases parts@.len() - k,
        {
            items.push(string_of(&parts[k]));
            k += 1;
        }
        assert(views(items@) =~= split_char(content@, '\n'));
        let last = items.len() - 1;
        self.pane.wrap = false;
        if self.pane.index > last {
            self.pane.index = last;
        }
        let ghost mid = self.pane;
        self.pane.border_refresh();
        let ghost drawn = self.pane;
        assert(drawn.history_after() == old(self).pane.history_after());
        self.render(&items);
        proof {
            self.pane.lemma_style_decides(&mid);
            self.pane.lemma_style_decides(&drawn);
        }
        items
    }

    /// One key for the menu. ESC or q answer `Some(None)`, ENTER answers
    /// `Some(Some(index))`; a move key moves the selection and redraws;
    /// any other key does nothing. `None` means: keep asking.
    pub fn modal_key(&mut self, items: &Vec<String>, key: &str) -> (r: Option<Option<usize>>)
        requires
            old(self).pane.fits(),
            old(self).pane.index < items@.len(),
        ensures
            match menu_action(key@) {
                MenuAction::Cancel => r == Some(Option::<usize>::None) && *final(self) == *old(self),
                MenuAction::Choose => r == Some(Some(old(self).pane.index)) && *final(self) == *old(self),
                MenuAction::Ignore => r is None && *final(self) == *old(self),
                _ => r is None && ({
                    let moved = Popup {
                        pane: Pane {
                            index: menu_index(
                                menu_action(key@),
                                old(self).pane.index as nat,
                                (items@.len() - 1) as nat,
                                page_of(old(self).pane.h),
                            ) as usize,
                            ..old(self).pane
                        },
                    };
                    &&& final(self).pane.index == moved.pane.index
                    &&& moved.rendered_into(final(self), views(items@))
                }),
            },
            final(self).pane.index < items@.len(),
    {
        let last = items.len() - 1;
        let page: usize = if self.pane.h >= 1 { self.pane.h as usize } else { 1 };
        let idx = self.pane.index;
        if str_eq(key, "ESC") || str_eq(key, "q") {
            return Some(None);
        }
        if str_eq(key, "ENTER") {
            return Some(Some(idx));
        }
        let new_idx = if str_eq(key, "UP") || str_eq(key, "k") {
            if idx >= 1 { idx - 1 } else { 0 }
        } else if str_eq(key, "DOWN") || str_eq(key, "j") {
            if idx < last { idx + 1 } else { last }
        } else if str_eq(key, "PgUP") || str_eq(key, "b") {
            if idx >= page { idx - page } else { 0 }
        } else if str_eq(key, "PgDOWN") || str_eq(key, " ") {
            if last - idx > page { idx + page } else { last }
        } else if str_eq(key, "HOME") || str_eq(key, "g") {
            0
        } else if str_eq(key, "END") || str_eq(key, "G") {
            last
        } else {
            return None;
        };
        self.pane.index = new_idx;
        self.render(items);
        None
    }

    /// Dismiss the popup and refresh the panes it covered: the content
    /// area is cleared and, when there is a border, the ring around it is
    /// blanked too (nothing else would repaint a border cell that no pane
    /// owns); then each pane of `refresh_panes`, in order, gets one full
    /// refresh.
    pub fn dismiss(&mut self, refresh_panes: &mut Vec<Pane>)
        requires
            old(self).pane.rows_fit(),
            old(self).pane.border ==> old(self).pane.x + old(self).pane.w <= u16::MAX && old(self).pane.y + old(self).pane.h <= u16::MAX,
            forall|k: int| 0 <= k < old(refresh_panes)@.len() ==> (#[trigger] old(refresh_panes)@[k]).full_fits(),
        ensures
            final(self).pane.wf(),
            final(self).pane.same_style(&old(self).pane),
            final(self).pane.ix == 0,
            final(self).pane.text_view() == Seq::<char>::empty(),
            final(self).pane.frame_view() == Seq::<Seq<char>>::empty(),
            final(self).pane.output() == old(self).pane.output()
                + crate::pane::blank_rows(old(self).pane.x, old(self).pane.y, old(self).pane.w, old(self).pane.h, old(self).pane.bg)
                + (if old(self).pane.border { ring_spec(old(self).pane.x, old(self).pane.y, old(self).pane.w, old(self).pane.h) } else { Seq::empty() }),
            final(self).pane.history@ == old(self).pane.history_after(),
            final(self).pane.cached_count() is None,
            final(self).pane.moreup == old(self).pane.moreup,
            final(self).pane.moredown == old(self).pane.moredown,
            final(refresh_panes)@.len() == old(refresh_panes)@.len(),
            forall|k: int| 0 <= k < old(refresh_panes)@.len()
                ==> (#[trigger] old(refresh_panes)@[k]).full_refreshed_into(&final(refresh_panes)@[k]),
    {
        self.pane.clear();
        if self.pane.border {
            let ring = ring_exec(self.pane.x, self.pane.y, self.pane.w, self.pane.h);
            self.pane.pending.append(ring.as_str());
        }
        let mut todo: Vec<Pane> = Vec::new();
        std::mem::swap(&mut todo, refresh_panes);
        let ghost panes = todo@;
        let n = todo.len();
        let mut k: usize = 0;
        while k < n
            invariant
                panes == old(refresh_panes)@,
                n == panes.len(),
                k <= n,
                todo@ == panes.skip(k as int),
                refresh_panes@.len() == k,
                forall|q: int| 0 <= q < panes.len() ==> (#[trigger] panes[q]).full_fits(),
                forall|q: int| 0 <= q < k ==> (#[trigger] panes[q]).full_refreshed_into(&refresh_panes@[q]),
            decreases n - k,
        {
            let mut p = todo.remove(0);
            assert(p == panes[k as int]);
            assert(todo@ =~= panes.skip(k + 1));
            p.full_refresh();
            refresh_panes.push(p);
            k += 1;
        }
    }
}


/// The menu scrolls so the selection is on screen, and where it already
/// is, does not scroll at all.
pub proof fn law_menu_keeps_selection_visible(index: nat, ix: nat, h: nat)
    requires
        h >= 1,
    ensures
        menu_scroll(index, ix, h) <= index < menu_scroll(index, ix, h) + h,
        ix <= index < ix + h ==> menu_scroll(index, ix, h) == ix,
{
}

/// A move in the menu never leaves the items: from a selection among
/// `last + 1` items, every key lands on one of them.
pub proof fn law_menu_stays_on_items(a: MenuAction, index: nat, last: nat, page: nat)
    requires
        index <= last,
    ensures
        menu_index(a, index, last, page) <= last,
{
}


/// A prefix without ESC of the text with resets re-armed is a prefix of
/// the text itself: every replacement starts with ESC.
proof fn lemma_rearm_prefix(t: Seq<char>, w: Seq<char>)
    requires
        forall|k: int| 0 <= k < w.len() ==> #[trigger] w[k] != '\x1b',
        w.len() <= replace_sub(t, "\x1b[0m"@, "\x1b[0m\x1b[7m"@).len(),
        replace_sub(t, "\x1b[0m"@, "\x1b[0m\x1b[7m"@).take(w.len() as int) == w,
    ensures
        w.len() <= t.len(),
        t.take(w.len() as int) == w,
    decreases w.len(),
{
    reveal_strlit("\x1b[0m");
    reveal_strlit("\x1b[0m\x1b[7m");
    let r = replace_sub(t, "\x1b[0m"@, "\x1b[0m\x1b[7m"@);
    if w.len() > 0 {
        if t.len() < 4 {
        } else if t.take(4) == "\x1b[0m"@ {
            assert(r[0] == w[0]);
        } else {
            let rest = replace_sub(t.skip(1), "\x1b[0m"@, "\x1b[0m\x1b[7m"@);
            assert(r == seq![t[0]] + rest);
            let w1 = w.skip(1);
            assert(rest.take(w1.len() as int) =~= w1) by {
                assert forall|k: int| 0 <= k < w1.len() implies rest[k] == w1[k] by {
                    assert(r[k + 1] == rest[k]);
                    assert(r.take(w.len() as int)[k + 1] == w[k + 1]);
                }
            }
            lemma_rearm_prefix(t.skip(1), w1);
            assert(t.take(w.len() as int) =~= w) by {
                assert forall|k: int| 0 <= k < w.len() implies t[k] == w[k] by {
                    if k == 0 {
                        assert(r.take(w.len() as int)[0] == w[0]);
                    } else {
                        assert(t.skip(1).take(w1.len() as int)[k - 1] == w1[k - 1]);
                    }
                }
            }
        }
    }
}

/// Inside a selection bar, reverse video is re-armed after every reset:
/// wherever the row, with its resets re-armed, holds a reset, reverse
/// video follows it, so an item carrying its own colours does not drop
/// the bar half way across.
pub proof fn law_bar_rearms_reverse(s: Seq<char>, j: int)
    requires
        occurs_at(replace_sub(s, "\x1b[0m"@, "\x1b[0m"@ + "\x1b[7m"@), "\x1b[0m"@, j),
    ensures
        occurs_at(replace_sub(s, "\x1b[0m"@, "\x1b[0m"@ + "\x1b[7m"@), "\x1b[7m"@, j + 4),
    decreases s.len(),
{
    reveal_strlit("\x1b[0m");
    reveal_strlit("\x1b[7m");
    reveal_strlit("\x1b[0m\x1b[7m");
    let rv = "\x1b[0m"@ + "\x1b[7m"@;
    assert(rv =~= "\x1b[0m\x1b[7m"@);
    let r = replace_sub(s, "\x1b[0m"@, rv);
    let m = r.subrange(j, j + 4);
    assert(m == "\x1b[0m"@);
    assert(m[0] == '\x1b' && m[1] == '[' && m[2] == '0' && m[3] == 'm');
    if s.len() < 4 {
        assert(r == s);
    } else if s.take(4) == "\x1b[0m"@ {
        let rest = replace_sub(s.skip(4), "\x1b[0m"@, rv);
        assert(r == rv + rest);
        if j >= 8 {
            assert(rest.subrange(j - 8, j - 4) =~= m);
            law_bar_rearms_reverse(s.skip(4), j - 8);
            assert(r.subrange(j + 4, j + 8) =~= rest.subrange(j - 4, j));
        } else if j == 0 {
            assert(r.subrange(4, 8) =~= "\x1b[7m"@);
        } else {
            assert(r[j] == m[0]);
            if j == 4 {
                assert(r[j + 2] == m[2]);
            }
        }
    } else {
        let rest = replace_sub(s.skip(1), "\x1b[0m"@, rv);
        assert(r == seq![s[0]] + rest);
        if j >= 1 {
            assert(rest.subrange(j - 1, j + 3) =~= m);
            law_bar_rearms_reverse(s.skip(1), j - 1);
            assert(r.subrange(j + 4, j + 8) =~= rest.subrange(j + 3, j + 7));
        } else {
            let w = seq!['[', '0', 'm'];
            assert(rest.take(3) =~= w) by {
                assert(rest[0] == m[1] && rest[1] == m[2] && rest[2] == m[3]);
            }
            assert(rv =~= "\x1b[0m\x1b[7m"@);
            lemma_rearm_prefix(s.skip(1), w);
            assert(s.take(4) =~= "\x1b[0m"@) by {
                assert(s[0] == m[0]);
                assert(s.skip(1).take(3)[0] == s[1]);
                assert(s.skip(1).take(3)[1] == s[2]);
                assert(s.skip(1).take(3)[2] == s[3]);
            }
        }
    }
}

/// The menu's moves: a page is the popup's height (one row at least);
/// a line move goes one item, a page move a whole page, each stopping at
/// the first or the last item; the other keys leave the selection.
pub proof fn law_menu_moves(index: nat, last: nat, h: u16)
    requires
        index <= last,
    ensures
        page_of(h) >= 1,
        h >= 1 ==> page_of(h) == h,
        index < last ==> menu_index(MenuAction::Down, index, last, page_of(h)) == index + 1,
        index > 0 ==> menu_index(MenuAction::Up, index, last, page_of(h)) + 1 == index,
        index + page_of(h) <= last ==> menu_index(MenuAction::PageDown, index, last, page_of(h)) == index + page_of(h),
        index + page_of(h) > last ==> menu_index(MenuAction::PageDown, index, last, page_of(h)) == last,
        index >= page_of(h) ==> menu_index(MenuAction::PageUp, index, last, page_of(h)) + page_of(h) == index,
        index < page_of(h) ==> menu_index(MenuAction::PageUp, index, last, page_of(h)) == 0,
        menu_index(MenuAction::First, index, last, page_of(h)) == 0,
        menu_index(MenuAction::Last, index, last, page_of(h)) == last,
{
}

/// Which key does what in the menu.
pub proof fn law_menu_keys()
    ensures
        menu_action("PgDOWN"@) == MenuAction::PageDown,
        menu_action(" "@) == MenuAction::PageDown,
        menu_action("PgUP"@) == MenuAction::PageUp,
        menu_action("DOWN"@) == MenuAction::Down,
        menu_action("UP"@) == MenuAction::Up,
        menu_action("ENTER"@) == MenuAction::Choose,
        menu_action("ESC"@) == MenuAction::Cancel,
{
    reveal_strlit("PgDOWN");
    reveal_strlit(" ");
    reveal_strlit("PgUP");
    reveal_strlit("DOWN");
    reveal_strlit("UP");
    reveal_strlit("ENTER");
    reveal_strlit("ESC");
    reveal_strlit("q");
    reveal_strlit("k");
    reveal_strlit("j");
    reveal_strlit("b");
    assert("PgDOWN"@ =~= seq!['P', 'g', 'D', 'O', 'W', 'N']);
    assert(" "@ =~= seq![' ']);
    assert("PgUP"@ =~= seq!['P', 'g', 'U', 'P']);
    assert("DOWN"@ =~= seq!['D', 'O', 'W', 'N']);
    assert("UP"@ =~= seq!['U', 'P']);
    assert("ENTER"@ =~= seq!['E', 'N', 'T', 'E', 'R']);
    assert("ESC"@ =~= seq!['E', 'S', 'C']);
    assert("q"@ =~= seq!['q']);
    assert("k"@ =~= seq!['k']);
    assert("j"@ =~= seq!['j']);
    assert("b"@ =~= seq!['b']);
    assert("PgDOWN"@.len() == 6 && " "@.len() == 1);
    assert("PgDOWN"@ != "DOWN"@ && "PgDOWN"@ != "PgUP"@ && "PgDOWN"@ != "ESC"@ && "PgDOWN"@ != "ENTER"@);
    assert(" "@[0] != "q"@[0] && " "@[0] != "k"@[0] && " "@[0] != "j"@[0] && " "@[0] != "b"@[0]);
}

} // verus!
