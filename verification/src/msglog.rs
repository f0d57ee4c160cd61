//! A short history of the status lines an app has already shown.
//!
//! A status line says one thing and is gone: a send that failed, a
//! source that stopped working, a reply from a background job. Look
//! away for a moment and it is unrecoverable. This keeps the last few
//! so the user can read what they missed. Ages are relative, so no
//! clock or timezone is involved.

use vstd::prelude::*;

use std::collections::VecDeque;
use std::time::{Duration, Instant};

use crate::chars::{chars_of, dec, join, join_strings, push_dec, push_repeat, spaces, repeat, split_char, split_chars, string_of, views};
use crate::style::{bold, bold_spec, fg, fg_spec, law_colour_is_invisible, lemma_dec_digits};
use crate::chars::{all_narrow, is_narrow, is_digit};
use crate::{lemma_narrow_width, lemma_strip_concat, strip_seq};
use crate::pane::{min_nat, sat_sub};
use crate::popup::Popup;
use crate::{display_width, display_width_spec};

verus! {

#[verifier::external_type_specification]
#[verifier::external_body]
pub struct ExInstant(Instant);

/// The current instant (`Instant::now`).
///
/// Trusted: nothing is stated of the value, which depends on the clock.
#[verifier::external_body]
fn now() -> Instant {
    Instant::now()
}

/// The time since `t` (`Instant::elapsed`).
///
/// Trusted: nothing is stated of the value, which depends on the clock.
#[verifier::external_body]
fn elapsed(t: &Instant) -> Duration {
    t.elapsed()
}

/// Whole seconds of `d` (`Duration::as_secs`).
///
/// Trusted: nothing is stated of the value; the library only shows it.
#[verifier::external_body]
fn as_secs(d: &Duration) -> u64 {
    d.as_secs()
}

/// The age shown for `s` seconds: "just now", "12s", "4m", "2h", "3d".
pub open spec fn age_spec(s: nat) -> Seq<char> {
    if s < 5 {
        "just now"@
    } else if s < 60 {
        dec(s) + "s"@
    } else if s < 3600 {
        dec(s / 60) + "m"@
    } else if s < 86400 {
        dec(s / 3600) + "h"@
    } else {
        dec(s / 86400) + "d"@
    }
}

/// "just now", "12s", "4m", "2h", "3d".
pub fn age(s: u64) -> (r: String)
    ensures
        r@ == age_spec(s as nat),
{
    if s < 5 {
        return String::from_str("just now");
    }
    let mut r = String::new();
    if s < 60 {
        push_dec(&mut r, s);
        r.append("s");
    } else if s < 3600 {
        push_dec(&mut r, s / 60);
        r.append("m");
    } else if s < 86400 {
        push_dec(&mut r, s / 3600);
        r.append("h");
    } else {
        push_dec(&mut r, s / 86400);
        r.append("d");
    }
    r
}

pub struct MessageLog {
    cap: usize,
    entries: VecDeque<(Instant, String, u8)>,
}

/// The last `n` items of `s` (all of them when there are fewer).
pub open spec fn last_n<T>(s: Seq<T>, n: nat) -> Seq<T> {
    if s.len() <= n {
        s
    } else {
        s.skip(s.len() - n)
    }
}

/// The widest of a list of widths (0 for none).
pub open spec fn max_of(ws: Seq<nat>) -> nat
    decreases ws.len(),
{
    if ws.len() == 0 {
        0
    } else {
        let m = max_of(ws.drop_last());
        if ws.last() > m { ws.last() } else { m }
    }
}

/// The widths of the age stamps.
pub open spec fn stamp_widths(ages: Seq<u64>) -> Seq<nat> {
    ages.map_values(|a: u64| display_width_spec(age_spec(a as nat)) as nat)
}

/// One rendered line: the stamp right-aligned to `width`, dimmed, then the
/// message in its own colour.
pub open spec fn log_line(msg: (Seq<char>, u8), age: u64, width: nat) -> Seq<char> {
    stamp_column(age, width) + "  "@ + fg_spec(msg.0, msg.1)
}

/// The stamp column of a line: two spaces, then the stamp right-aligned
/// to `width` and dimmed.
pub open spec fn stamp_column(age: u64, width: nat) -> Seq<char> {
    let stamp = age_spec(age as nat);
    "  "@ + spaces((width - display_width_spec(stamp)) as nat) + fg_spec(stamp, 244)
}

/// What `render` shows for these messages when they have these ages.
pub open spec fn render_spec(msgs: Seq<(Seq<char>, u8)>, ages: Seq<u64>) -> Seq<char> {
    if msgs.len() == 0 {
        fg_spec("  (nothing yet)"@, 244)
    } else {
        let width = max_of(stamp_widths(ages));
        join(Seq::new(msgs.len(), |i: int| log_line(msgs[i], ages[i], width)), "\n"@)
    }
}


/// What the log popup shows: the title in bold, an empty line, the log.
pub open spec fn show_content(title: Seq<char>, body: Seq<char>) -> Seq<char> {
    bold_spec(title) + "\n\n"@ + body
}

/// The widest line of `text`.
pub open spec fn widest_line(text: Seq<char>) -> nat {
    max_of(split_char(text, '\n').map_values(|l: Seq<char>| display_width_spec(l) as nat))
}

/// The log popup's width for `text` on a terminal `cols` wide: six more
/// than the widest line (counted in 16 bits), no wider than the terminal
/// less four, and at least 24.
pub open spec fn show_width(text: Seq<char>, cols: u16) -> u16 {
    let want = ((widest_line(text) % 65536) + 6) % 65536;
    let fit = min_nat(want as nat, sat_sub(cols as nat, 4));
    (if fit >= 24 { fit } else { 24 }) as u16
}

/// The log popup's height for `text` on a terminal `rows` high: four
/// more than its lines (counted in 16 bits), no higher than the
/// terminal less four.
pub open spec fn show_height(text: Seq<char>, rows: u16) -> u16 {
    let want = ((split_char(text, '\n').len() % 65536) + 4) % 65536;
    min_nat(want as nat, sat_sub(rows as nat, 4)) as u16
}

/// No width is above the widest.
pub proof fn lemma_max_of(ws: Seq<nat>)
    ensures
        forall|i: int| 0 <= i < ws.len() ==> ws[i] <= max_of(ws),
    decreases ws.len(),
{
    if ws.len() > 0 {
        lemma_max_of(ws.drop_last());
        assert forall|i: int| 0 <= i < ws.len() implies ws[i] <= max_of(ws) by {
            if i < ws.len() - 1 {
                assert(ws.drop_last()[i] == ws[i]);
            }
        }
    }
}

impl MessageLog {
    /// The messages held, oldest first, each with the colour it was shown in.
    pub closed spec fn msgs(&self) -> Seq<(Seq<char>, u8)> {
        self.entries@.map_values(|e: (Instant, String, u8)| (e.1@, e.2))
    }

    /// The instants at which the messages held were pushed, oldest first,
    /// one for each message.
    pub closed spec fn stamps(&self) -> Seq<Instant> {
        self.entries@.map_values(|e: (Instant, String, u8)| e.0)
    }

    /// How many messages are kept.
    pub closed spec fn cap_spec(&self) -> nat {
        self.cap as nat
    }

    /// The log never holds more than its cap.
    #[verifier::type_invariant]
    spec fn within_cap(&self) -> bool {
        self.entries@.len() <= self.cap
    }

    /// Keep the last `cap` messages. A cap of 0 keeps none, and every
    /// other call becomes a no-op.
    pub fn new(cap: usize) -> (r: Self)
        ensures
            r.cap_spec() == cap,
            r.msgs() == Seq::<(Seq<char>, u8)>::empty(),
            r.stamps() == Seq::<Instant>::empty(),
    {
        let r = MessageLog { cap, entries: VecDeque::new() };
        assert(r.msgs() =~= Seq::<(Seq<char>, u8)>::empty());
        assert(r.stamps() =~= Seq::<Instant>::empty());
        r
    }

    /// Change how many are kept, dropping the oldest if that is fewer.
    pub fn set_cap(&mut self, cap: usize)
        ensures
            final(self).cap_spec() == cap,
            final(self).msgs() == last_n(old(self).msgs(), cap as nat),
            final(self).stamps() == last_n(old(self).stamps(), cap as nat),
    {
        proof { use_type_invariant(&*self); }
        let mut entries: VecDeque<(Instant, String, u8)> = VecDeque::new();
        std::mem::swap(&mut entries, &mut self.entries);
        let ghost all = entries@;
        while entries.len() > cap
            invariant
                all == old(self).entries@,
                all.len() >= entries@.len(),
                entries@.len() == all.len() || entries@.len() >= cap,
                entries@ == all.skip(all.len() - entries@.len()),
            decreases entries@.len(),
        {
            let ghost before = entries@;
            entries.pop_front();
            assert(entries@ =~= before.skip(1));
            assert(entries@ =~= all.skip(all.len() - entries@.len()));
        }
        proof {
            if entries@.len() == all.len() {
                assert(all.skip(0) =~= all);
            }
        }
        *self = MessageLog { cap, entries };
        assert(self.msgs() =~= last_n(old(self).msgs(), cap as nat));
        assert(self.stamps() =~= last_n(old(self).stamps(), cap as nat));
    }

    /// Remember one message and the color it was shown in.
    pub fn push(&mut self, msg: &str, fg: u8)
        ensures
            final(self).cap_spec() == old(self).cap_spec(),
            final(self).msgs() == last_n(old(self).msgs().push((msg@, fg)), old(self).cap_spec()),
            exists|t: Instant| final(self).stamps() == last_n(old(self).stamps().push(t), old(self).cap_spec()),
    {
        proof { use_type_invariant(&*self); }
        if self.cap == 0 {
            assert(self.msgs() =~= last_n(old(self).msgs().push((msg@, fg)), 0));
            proof {
                let t = vstd::pervasive::arbitrary::<Instant>();
                assert(self.stamps() =~= last_n(old(self).stamps().push(t), 0));
            }
            return;
        }
        let mut entries: VecDeque<(Instant, String, u8)> = VecDeque::new();
        std::mem::swap(&mut entries, &mut self.entries);
        if entries.len() == self.cap {
            entries.pop_front();
        }
        let ghost mid = entries@.map_values(|e: (Instant, String, u8)| (e.1@, e.2));
        let ghost mid_t = entries@.map_values(|e: (Instant, String, u8)| e.0);
        let t = now();
        let ghost tg = t;
        entries.push_back((t, String::from_str(msg), fg));
        *self = MessageLog { cap: self.cap, entries };
        assert(self.msgs() =~= mid.push((msg@, fg)));
        assert(self.msgs() =~= last_n(old(self).msgs().push((msg@, fg)), old(self).cap_spec()));
        assert(self.stamps() =~= mid_t.push(tg));
        assert(self.stamps() =~= last_n(old(self).stamps().push(tg), old(self).cap_spec()));
    }

    pub fn is_empty(&self) -> (r: bool)
        ensures
            r == (self.msgs().len() == 0),
    {
        self.entries.len() == 0
    }

    pub fn len(&self) -> (r: usize)
        ensures
            r == self.msgs().len(),
            r <= self.cap_spec(),
    {
        proof { use_type_invariant(self); }
        self.entries.len()
    }

    pub fn clear(&mut self)
        ensures
            final(self).cap_spec() == old(self).cap_spec(),
            final(self).msgs() == Seq::<(Seq<char>, u8)>::empty(),
            final(self).stamps() == Seq::<Instant>::empty(),
    {
        self.entries = VecDeque::new();
        assert(self.msgs() =~= Seq::<(Seq<char>, u8)>::empty());
        assert(self.stamps() =~= Seq::<Instant>::empty());
    }

    /// The log as lines, newest last, when the messages are `ages[i]`
    /// seconds old.
    pub fn render_with_ages(&self, ages: &Vec<u64>) -> (r: String)
        requires
            ages@.len() == self.msgs().len(),
        ensures
            r@ == render_spec(self.msgs(), ages@),
    {
        let n = self.entries.len();
        if n == 0 {
            return fg("  (nothing yet)", 244);
        }
        let mut stamps: Vec<String> = Vec::new();
        let mut widths: Vec<usize> = Vec::new();
        let mut width: usize = 0;
        let mut i: usize = 0;
        while i < n
            invariant
                n == self.entries@.len(),
                n == ages@.len(),
                0 <= i <= n,
                stamps@.len() == i,
                widths@.len() == i,
                forall|k: int| 0 <= k < i ==> #[trigger] stamps@[k]@ == age_spec(ages@[k] as nat),
                forall|k: int| 0 <= k < i ==> #[trigger] widths@[k] == display_width_spec(age_spec(ages@[k] as nat)),
                width == max_of(stamp_widths(ages@.take(i as int))),
            decreases n - i,
        {
            let st = age(ages[i]);
            let w = display_width(st.as_str());
            assert(stamp_widths(ages@.take(i + 1)).drop_last() == stamp_widths(ages@.take(i as int)));
            if w > width {
                width = w;
            }
            stamps.push(st);
            widths.push(w);
            i += 1;
        }
        assert(ages@.take(n as int) == ages@);
        proof { lemma_max_of(stamp_widths(ages@)); }
        let ghost msgs = self.msgs();
        let mut lines: Vec<String> = Vec::new();
        let mut j: usize = 0;
        while j < n
            invariant
                n == self.entries@.len(),
                n == ages@.len(),
                msgs == self.msgs(),
                0 <= j <= n,
                stamps@.len() == n,
                widths@.len() == n,
                forall|k: int| 0 <= k < n ==> #[trigger] stamps@[k]@ == age_spec(ages@[k] as nat),
                forall|k: int| 0 <= k < n ==> #[trigger] widths@[k] == display_width_spec(age_spec(ages@[k] as nat)),
                width == max_of(stamp_widths(ages@)),
                forall|k: int| 0 <= k < n ==> stamp_widths(ages@)[k] <= max_of(stamp_widths(ages@)),
                lines@.len() == j,
                forall|k: int| 0 <= k < j ==> #[trigger] lines@[k]@ == log_line(msgs[k], ages@[k], width as nat),
            decreases n - j,
        {
            let e = &self.entries[j];
            assert(stamp_widths(ages@)[j as int] == widths@[j as int]);
            let mut line = String::from_str("  ");
            push_repeat(&mut line, " ", width - widths[j]);
            let s1 = fg(stamps[j].as_str(), 244);
            line.append(s1.as_str());
            line.append("  ");
            let s2 = fg(e.1.as_str(), e.2);
            line.append(s2.as_str());
            assert(msgs[j as int] == (e.1@, e.2));
            lines.push(line);
            j += 1;
        }
        let r = join_strings(&lines, "\n");
        assert(views(lines@) =~= Seq::new(msgs.len(), |i: int| log_line(msgs[i], ages@[i], width as nat)));
        r
    }

    /// The log as lines, newest last, each in the color it was shown in.
    pub fn render(&self) -> (r: String)
        ensures
            exists|ages: Seq<u64>| ages.len() == self.msgs().len() && r@ == render_spec(self.msgs(), ages),
    {
        let mut ages: Vec<u64> = Vec::new();
        let mut i: usize = 0;
        while i < self.entries.len()
            invariant
                0 <= i <= self.entries@.len(),
                ages@.len() == i,
            decreases self.entries@.len() - i,
        {
            let d = elapsed(&self.entries[i].0);
            ages.push(as_secs(&d));
            i += 1;
        }
        self.render_with_ages(&ages)
    }

    /// Open the log in a popup on a terminal `cols` wide and `rows` high,
    /// sized to what it holds: the title in bold, an empty line, the log.
    /// The popup is a viewer: feed it keys with `view_key`, and when one
    /// closes it, `dismiss` it and repaint in full every pane it covered.
    pub fn show(&self, title: &str, fg: u16, bg: u16, cols: u16, rows: u16) -> (p: Popup)
        ensures
            exists|ages: Seq<u64>|
                ages.len() == self.msgs().len() && p.pane.text_view() == show_content(title@, #[trigger] render_spec(self.msgs(), ages)),
            p.pane.w == show_width(p.pane.text_view(), cols),
            p.pane.h == show_height(p.pane.text_view(), rows),
            p.pane.x == (if sat_sub(cols as nat, p.pane.w as nat) / 2 >= 1 { sat_sub(cols as nat, p.pane.w as nat) / 2 } else { 1 }),
            p.pane.y == (if sat_sub(rows as nat, p.pane.h as nat) / 2 >= 1 { sat_sub(rows as nat, p.pane.h as nat) / 2 } else { 1 }),
            p.pane.fg == fg && p.pane.bg == bg,
            p.pane.border && p.pane.scroll && p.pane.wrap,
            p.pane.ix == 0,
            p.pane.fits(),
            p.pane.output() == p.pane.border_output() + p.pane.refresh_output(p.pane.text_view(), 0, Seq::empty()),
            p.pane.frame_view() == p.pane.frame_of(p.pane.text_view(), 0),
            !p.pane.moreup,
            p.pane.moredown == p.pane.more_below(p.pane.text_view(), 0),
            p.pane.history@.len() == 0 && !p.pane.record,
            p.pane.align == crate::pane::Align::Left,
            p.pane.border_fg is None && p.pane.scroll_fg is None,
            p.pane.index == 0,
    {
        let body = self.render();
        let mut content = bold(title);
        content.append("\n\n");
        content.append(body.as_str());
        let cs = chars_of(content.as_str());
        let parts = split_chars(&cs, '\n');
        proof { crate::chars::lemma_split_nonempty(cs@, '\n'); }
        let ghost lines = split_char(cs@, '\n');
        let ghost ws = lines.map_values(|l: Seq<char>| display_width_spec(l) as nat);
        let mut widest: usize = 0;
        let mut i: usize = 0;
        while i < parts.len()
            invariant
                i <= parts@.len(),
                parts@.len() == lines.len(),
                forall|q: int| 0 <= q < parts@.len() ==> #[trigger] parts@[q]@ == lines[q],
                ws == lines.map_values(|l: Seq<char>| display_width_spec(l) as nat),
                widest == max_of(ws.take(i as int)),
            decreases parts@.len() - i,
        {
            let line = string_of(&parts[i]);
            let d = display_width(line.as_str());
            assert(ws.take(i + 1).drop_last() == ws.take(i as int));
            if d > widest {
                widest = d;
            }
            i += 1;
        }
        assert(ws.take(parts@.len() as int) == ws);
        let want: u64 = ((widest as u64 % 65536) + 6) % 65536;
        let room: u64 = if cols >= 4 { cols as u64 - 4 } else { 0 };
        let fit: u64 = if want <= room { want } else { room };
        let w: u16 = (if fit >= 24 { fit } else { 24 }) as u16;
        let hwant: u64 = ((parts.len() as u64 % 65536) + 4) % 65536;
        let hroom: u64 = if rows >= 4 { rows as u64 - 4 } else { 0 };
        let h: u16 = (if hwant <= hroom { hwant } else { hroom }) as u16;
        let mut popup = Popup::centered(w, h, fg, bg, cols, rows);
        let ghost fresh = popup.pane;
        popup.view(content.as_str());
        proof { popup.pane.lemma_style_decides(&fresh); }
        popup
    }
}

/// Pushing onto the last `cap` messages of a history leaves the last `cap`
/// messages of the longer history: the log always holds the newest `cap`
/// messages ever pushed, oldest first.
pub proof fn law_log_keeps_newest(history: Seq<(Seq<char>, u8)>, m: (Seq<char>, u8), cap: nat)
    ensures
        last_n(last_n(history, cap).push(m), cap) == last_n(history.push(m), cap),
{
    let h = history.push(m);
    if history.len() <= cap {
        assert(last_n(history, cap) == history);
    } else {
        let l = last_n(history, cap);
        assert(l.len() == cap);
        if cap == 0 {
            assert(last_n(l.push(m), cap) =~= last_n(h, cap));
        } else {
            assert(last_n(l.push(m), cap) =~= last_n(h, cap));
        }
    }
}


/// With room for any message at all, the one pushed last is the newest
/// one held, and the log holds no more than its cap.
pub proof fn law_log_newest_last(history: Seq<(Seq<char>, u8)>, m: (Seq<char>, u8), cap: nat)
    requires
        cap > 0,
    ensures
        last_n(history.push(m), cap).last() == m,
        last_n(history.push(m), cap).len() <= cap,
{
}


/// A cap of 0 keeps nothing, whatever is pushed.
pub proof fn law_zero_cap_keeps_nothing(history: Seq<(Seq<char>, u8)>, m: (Seq<char>, u8))
    ensures
        last_n(history.push(m), 0).len() == 0,
{
}

/// Ten to the `k`.
pub open spec fn pow10(k: nat) -> nat
    decreases k,
{
    if k == 0 { 1 } else { 10 * pow10((k - 1) as nat) }
}

proof fn lemma_dec_len(n: nat, k: nat)
    requires
        k >= 1,
        n < pow10(k),
    ensures
        dec(n).len() <= k,
    decreases k,
{
    if n >= 10 {
        let p = pow10((k - 1) as nat);
        assert(k >= 2) by {
            if k == 1 {
                assert(pow10(0) == 1);
            }
        }
        assert(n / 10 < p) by (nonlinear_arith)
            requires n < 10 * p;
        lemma_dec_len(n / 10, (k - 1) as nat);
    }
}

/// An age stamp is at most twenty narrow characters.
proof fn lemma_age_narrow(a: u64)
    ensures
        all_narrow(age_spec(a as nat)),
        age_spec(a as nat).len() <= 20,
{
    let s = a as nat;
    reveal_strlit("just now");
    reveal_strlit("s");
    reveal_strlit("m");
    reveal_strlit("h");
    reveal_strlit("d");
    if s >= 5 {
        let n = if s < 60 { s } else if s < 3600 { s / 60 } else if s < 86400 { s / 3600 } else { s / 86400 };
        let u = if s < 60 { "s"@ } else if s < 3600 { "m"@ } else if s < 86400 { "h"@ } else { "d"@ };
        assert(age_spec(s) == dec(n) + u);
        lemma_dec_digits(n);
        assert(n <= s);
        reveal_with_fuel(pow10, 20);
        assert(pow10(19) == 10000000000000000000nat);
        assert(s >= 86400 ==> n <= 213503982334601) by (nonlinear_arith)
            requires n == (if s < 60 { s } else if s < 3600 { s / 60 } else if s < 86400 { s / 3600 } else { s / 86400 }), s <= 18446744073709551615nat;
        assert(n < pow10(19));
        lemma_dec_len(n, 19);
        let t = dec(n) + u;
        assert forall|i: int| 0 <= i < t.len() implies is_narrow(#[trigger] t[i]) by {
            if i < dec(n).len() {
                assert(t[i] == dec(n)[i]);
                assert(is_digit(dec(n)[i]));
            } else {
                assert(t[i] == u[i - dec(n).len()]);
            }
        }
    } else {
        let t = "just now"@;
        assert forall|i: int| 0 <= i < t.len() implies is_narrow(#[trigger] t[i]) by {}
    }
}

/// The stamps line up: every line's stamp column, padding and stamp,
/// shows the same number of columns, so the messages all start in one
/// column.
pub proof fn law_stamps_line_up(ages: Seq<u64>)
    ensures
        forall|i: int| 0 <= i < ages.len()
            ==> display_width_spec(#[trigger] stamp_column(ages[i], max_of(stamp_widths(ages)))) == 2 + max_of(stamp_widths(ages)),
{
    let ws = stamp_widths(ages);
    let m = max_of(ws);
    lemma_max_of(ws);
    assert forall|i: int| 0 <= i < ages.len() implies ws[i] <= 20 by {
        lemma_age_narrow(ages[i]);
        lemma_narrow_width(age_spec(ages[i] as nat));
    }
    if ws.len() > 0 {
        crate::text::lemma_max_is_one(ws);
    } else {
        assert(m == 0);
    }
    assert(m <= 20);
    assert forall|i: int| 0 <= i < ages.len()
        implies display_width_spec(#[trigger] stamp_column(ages[i], m)) == 2 + m by {
        let st = age_spec(ages[i] as nat);
        lemma_age_narrow(ages[i]);
        lemma_narrow_width(st);
        assert(ws[i] == st.len());
        reveal_strlit("  ");
        reveal_strlit(" ");
        let sp = spaces((m - st.len()) as nat);
        crate::text::lemma_spaces_narrow((m - st.len()) as nat);
        let pre = "  "@ + sp;
        assert(all_narrow(pre)) by {
            assert forall|k: int| 0 <= k < pre.len() implies is_narrow(#[trigger] pre[k]) by {
                if k >= 2 {
                    assert(pre[k] == sp[k - 2]);
                }
            }
        }
        assert(pre.len() <= 22);
        lemma_narrow_width(pre);
        law_colour_is_invisible(st, 244);
        lemma_strip_concat(pre, fg_spec(st, 244));
        assert(stamp_column(ages[i], m) == pre + fg_spec(st, 244));
        let vis = pre + st;
        assert(strip_seq(stamp_column(ages[i], m)) == vis);
        assert(all_narrow(vis)) by {
            assert forall|k: int| 0 <= k < vis.len() implies is_narrow(#[trigger] vis[k]) by {
                if k < pre.len() {
                    assert(vis[k] == pre[k]);
                } else {
                    assert(vis[k] == st[k - pre.len()]);
                }
            }
        }
        lemma_narrow_width(vis);
    }
}

} // verus!
