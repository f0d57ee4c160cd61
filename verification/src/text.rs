//! Text-formatting helpers: Markdown tables drawn as Unicode boxes, and
//! the cleanup of Wikipedia plain-text extracts.

use vstd::prelude::*;

use crate::pane::count_char;
use crate::msglog::{max_of, lemma_max_of};
use crate::{display_width, display_width_spec, lemma_narrow_width};
use crate::chars::{all_narrow, is_narrow, lemma_split_around, lemma_split_none};
use crate::pane::{narrow_lines_fit, lemma_split_narrow};

use crate::chars::{
    chars_of, split_char, split_chars, spaces, repeat, repeat_str, contains_at_any, contains_sub, is_ws, join, join_strings, occurs_at, push_char,
    push_range, push_replaced, push_replaced_sub, replace_char, replace_sub, string_of, views, ws,
};

verus! {

// ---------------------------------------------------------------------
// Trimming
// ---------------------------------------------------------------------

/// The views of a vector of character vectors.
pub open spec fn vviews(v: Seq<Vec<char>>) -> Seq<Seq<char>> {
    v.map_values(|x: Vec<char>| x@)
}


/// What is trimmed: whitespace (`None`) or one character.
pub open spec fn trims(c: char, what: Option<char>) -> bool {
    match what {
        None => is_ws(c),
        Some(d) => c == d,
    }
}

fn trims_exec(c: char, what: Option<char>) -> (r: bool)
    ensures
        r == trims(c, what),
{
    match what {
        None => ws(c),
        Some(d) => c == d,
    }
}

/// The first position at or after `i` whose character is not trimmed.
pub open spec fn lead_from(s: Seq<char>, i: int, what: Option<char>) -> int
    decreases s.len() - i,
{
    if 0 <= i < s.len() && trims(s[i], what) {
        lead_from(s, i + 1, what)
    } else {
        i
    }
}

/// The end of `s.take(j)` once its trimmed characters are cut off the end.
pub open spec fn end_from(s: Seq<char>, j: int, what: Option<char>) -> int
    decreases j,
{
    if 0 < j <= s.len() && trims(s[j - 1], what) {
        end_from(s, j - 1, what)
    } else {
        j
    }
}

pub proof fn lemma_lead_from(s: Seq<char>, i: int, what: Option<char>)
    requires
        0 <= i <= s.len(),
    ensures
        i <= lead_from(s, i, what) <= s.len(),
        forall|k: int| i <= k < lead_from(s, i, what) ==> trims(#[trigger] s[k], what),
        lead_from(s, i, what) < s.len() ==> !trims(s[lead_from(s, i, what)], what),
    decreases s.len() - i,
{
    if i < s.len() && trims(s[i], what) {
        lemma_lead_from(s, i + 1, what);
    }
}

pub proof fn lemma_end_from(s: Seq<char>, j: int, what: Option<char>)
    requires
        0 <= j <= s.len(),
    ensures
        0 <= end_from(s, j, what) <= j,
        forall|k: int| end_from(s, j, what) <= k < j ==> trims(#[trigger] s[k], what),
        end_from(s, j, what) > 0 ==> !trims(s[end_from(s, j, what) - 1], what),
    decreases j,
{
    if 0 < j && trims(s[j - 1], what) {
        lemma_end_from(s, j - 1, what);
    }
}

/// `s` without its leading trimmed characters (`str::trim_start`).
pub open spec fn trim_start_by(s: Seq<char>, what: Option<char>) -> Seq<char> {
    s.skip(lead_from(s, 0, what))
}

/// `s` without its trailing trimmed characters (`str::trim_end`).
pub open spec fn trim_end_by(s: Seq<char>, what: Option<char>) -> Seq<char> {
    s.take(end_from(s, s.len() as int, what))
}

/// `s` without leading and trailing trimmed characters (`str::trim`,
/// `str::trim_matches`).
pub open spec fn trim_by(s: Seq<char>, what: Option<char>) -> Seq<char> {
    trim_end_by(trim_start_by(s, what), what)
}

/// `s` without leading and trailing whitespace.
pub open spec fn trim(s: Seq<char>) -> Seq<char> {
    trim_by(s, None)
}

fn lead_exec(s: &Vec<char>, i: usize, what: Option<char>) -> (r: usize)
    requires
        i <= s@.len(),
    ensures
        r == lead_from(s@, i as int, what),
{
    let mut k = i;
    while k < s.len() && trims_exec(s[k], what)
        invariant
            i <= k <= s@.len(),
            lead_from(s@, k as int, what) == lead_from(s@, i as int, what),
        decreases s@.len() - k,
    {
        k += 1;
    }
    k
}

fn end_exec(s: &Vec<char>, j: usize, what: Option<char>) -> (r: usize)
    requires
        j <= s@.len(),
    ensures
        r == end_from(s@, j as int, what),
{
    let mut k = j;
    while k > 0 && trims_exec(s[k - 1], what)
        invariant
            k <= j <= s@.len(),
            end_from(s@, k as int, what) == end_from(s@, j as int, what),
        decreases k,
    {
        k -= 1;
    }
    k
}

/// The characters of `s` trimmed.
pub fn trim_vec(s: &Vec<char>, what: Option<char>) -> (r: Vec<char>)
    ensures
        r@ == trim_by(s@, what),
{
    let lo = lead_exec(s, 0, what);
    proof { lemma_lead_from(s@, 0, what); }
    let mut t: Vec<char> = Vec::new();
    let mut i = lo;
    while i < s.len()
        invariant
            lo <= i <= s@.len(),
            t@ == s@.subrange(lo as int, i as int),
        decreases s@.len() - i,
    {
        t.push(s[i]);
        assert(s@.subrange(lo as int, i + 1) == s@.subrange(lo as int, i as int).push(s@[i as int]));
        i += 1;
    }
    assert(t@ == trim_start_by(s@, what));
    let hi = end_exec(&t, t.len(), what);
    proof { lemma_end_from(t@, t@.len() as int, what); }
    let mut r: Vec<char> = Vec::new();
    let mut j: usize = 0;
    while j < hi
        invariant
            hi <= t@.len(),
            j <= hi,
            r@ == t@.take(j as int),
        decreases hi - j,
    {
        r.push(t[j]);
        assert(t@.take(j + 1) == t@.take(j as int).push(t@[j as int]));
        j += 1;
    }
    r
}

/// Every character of `s` is whitespace: `s.trim()` is empty.
pub open spec fn is_blank(s: Seq<char>) -> bool {
    forall|i: int| 0 <= i < s.len() ==> is_ws(#[trigger] s[i])
}

fn blank_exec(s: &Vec<char>) -> (r: bool)
    ensures
        r == is_blank(s@),
{
    let mut i: usize = 0;
    while i < s.len()
        invariant
            i <= s@.len(),
            forall|k: int| 0 <= k < i ==> is_ws(#[trigger] s@[k]),
        decreases s@.len() - i,
    {
        if !ws(s[i]) {
            return false;
        }
        i += 1;
    }
    true
}

// ---------------------------------------------------------------------
// One line of prose
// ---------------------------------------------------------------------

/// What may stand inside brackets that hold nothing: spaces, `;`, `,`.
pub open spec fn is_fill(c: char) -> bool {
    c == ' ' || c == ';' || c == ','
}

/// Punctuation that no space may stand before.
pub open spec fn is_stop(c: char) -> bool {
    c == ',' || c == '.' || c == ';' || c == ':'
}

/// The first position at or after `k` that is not a filler.
pub open spec fn fill_end(b: Seq<char>, k: int) -> int
    decreases b.len() - k,
{
    if 0 <= k < b.len() && is_fill(b[k]) {
        fill_end(b, k + 1)
    } else {
        k
    }
}

/// The first position at or after `k` that is not a space.
pub open spec fn space_end(b: Seq<char>, k: int) -> int
    decreases b.len() - k,
{
    if 0 <= k < b.len() && b[k] == ' ' {
        space_end(b, k + 1)
    } else {
        k
    }
}

pub proof fn lemma_fill_end(b: Seq<char>, k: int)
    ensures
        fill_end(b, k) >= k,
        0 <= k ==> fill_end(b, k) <= b.len() || fill_end(b, k) == k,
    decreases b.len() - k,
{
    if 0 <= k < b.len() && is_fill(b[k]) {
        lemma_fill_end(b, k + 1);
    }
}

pub proof fn lemma_space_end(b: Seq<char>, k: int)
    ensures
        space_end(b, k) >= k,
        0 <= k < b.len() && b[k] == ' ' ==> space_end(b, k) > k,
        0 <= k <= b.len() ==> space_end(b, k) <= b.len(),
    decreases b.len() - k,
{
    if 0 <= k < b.len() && b[k] == ' ' {
        lemma_space_end(b, k + 1);
    }
}

/// `out` without its trailing spaces.
pub open spec fn drop_spaces(out: Seq<char>) -> Seq<char>
    decreases out.len(),
{
    if out.len() > 0 && out.last() == ' ' {
        drop_spaces(out.drop_last())
    } else {
        out
    }
}

/// Tidying a line from position `i` on, with `out` written so far:
/// brackets holding only fillers go (and the spaces before them when
/// closing punctuation follows); other brackets stay but lose the fillers
/// after them; a run of spaces becomes one space, and none where one is
/// already written, before closing punctuation or at the start.
pub open spec fn tidy_go(b: Seq<char>, i: int, out: Seq<char>) -> Seq<char>
    decreases b.len() - i,
{
    if i < 0 || i >= b.len() {
        out
    } else {
        let c = b[i];
        if c == '(' || c == '[' {
            let close = if c == '(' { ')' } else { ']' };
            let k = fill_end(b, i + 1);
            proof { lemma_fill_end(b, i + 1); }
            if k < b.len() && b[k] == close {
                let e = space_end(b, k + 1);
                let out2 = if e < b.len() && is_closer(b[e]) { drop_spaces(out) } else { out };
                tidy_go(b, k + 1, out2)
            } else {
                tidy_go(b, k, out.push(c))
            }
        } else if c == ' ' {
            let k = space_end(b, i);
            proof { lemma_space_end(b, i); }
            let keep = !(k < b.len() && is_closer(b[k])) && out.len() > 0 && out.last() != ' ';
            tidy_go(b, k, if keep { out.push(' ') } else { out })
        } else {
            tidy_go(b, i + 1, out.push(c))
        }
    }
}

/// One line of prose tidied: its indentation kept, the rest tidied and
/// without trailing spaces.
pub open spec fn tidy_line_spec(line: Seq<char>) -> Seq<char> {
    let ind = lead_from(line, 0, None);
    line.take(ind) + drop_spaces(tidy_go(line.skip(ind), 0, Seq::empty()))
}

fn fill_end_exec(b: &Vec<char>, k: usize) -> (r: usize)
    requires
        k <= b@.len(),
    ensures
        r == fill_end(b@, k as int),
        k <= r <= b@.len(),
{
    let mut j = k;
    while j < b.len() && (b[j] == ' ' || b[j] == ';' || b[j] == ',')
        invariant
            k <= j <= b@.len(),
            fill_end(b@, j as int) == fill_end(b@, k as int),
        decreases b@.len() - j,
    {
        j += 1;
    }
    j
}

fn space_end_exec(b: &Vec<char>, k: usize) -> (r: usize)
    requires
        k <= b@.len(),
    ensures
        r == space_end(b@, k as int),
        k <= r <= b@.len(),
{
    let mut j = k;
    while j < b.len() && b[j] == ' '
        invariant
            k <= j <= b@.len(),
            space_end(b@, j as int) == space_end(b@, k as int),
        decreases b@.len() - j,
    {
        j += 1;
    }
    j
}

fn drop_spaces_exec(out: &mut Vec<char>)
    ensures
        final(out)@ == drop_spaces(old(out)@),
{
    while out.len() > 0 && out[out.len() - 1] == ' '
        invariant
            drop_spaces(out@) == drop_spaces(old(out)@),
        decreases out@.len(),
    {
        out.pop();
    }
}

/// One line of prose: drop the empty brackets and stray leading `;` the
/// extract leaves where a template used to be, and squeeze the gaps.
fn tidy_line(line: &str) -> (r: String)
    ensures
        r@ == tidy_line_spec(line@),
{
    let cs = chars_of(line);
    let indent = lead_exec(&cs, 0, None);
    proof { lemma_lead_from(cs@, 0, None); }
    let mut b: Vec<char> = Vec::new();
    let mut q = indent;
    while q < cs.len()
        invariant
            indent <= q <= cs@.len(),
            b@ == cs@.subrange(indent as int, q as int),
        decreases cs@.len() - q,
    {
        b.push(cs[q]);
        assert(cs@.subrange(indent as int, q + 1) == cs@.subrange(indent as int, q as int).push(cs@[q as int]));
        q += 1;
    }
    assert(b@ == cs@.skip(indent as int));
    let ghost goal = tidy_go(b@, 0, Seq::empty());
    let mut out: Vec<char> = Vec::new();
    let mut i: usize = 0;
    while i < b.len()
        invariant
            i <= b@.len(),
            tidy_go(b@, i as int, out@) == goal,
        decreases b@.len() - i,
    {
        let c = b[i];
        if c == '(' || c == '[' {
            let close = if c == '(' { ')' } else { ']' };
            let k = fill_end_exec(&b, i + 1);
            if k < b.len() && b[k] == close {
                let e = space_end_exec(&b, k + 1);
                if e < b.len() && (b[e] == ',' || b[e] == '.' || b[e] == ';' || b[e] == ':' || b[e] == ')' || b[e] == ']') {
                    drop_spaces_exec(&mut out);
                }
                i = k + 1;
            } else {
                out.push(c);
                i = k;
            }
        } else if c == ' ' {
            let k = space_end_exec(&b, i);
            proof { lemma_space_end(b@, i as int); }
            let stops = k < b.len() && (b[k] == ',' || b[k] == '.' || b[k] == ';' || b[k] == ':' || b[k] == ')' || b[k] == ']');
            if !stops && out.len() > 0 && out[out.len() - 1] != ' ' {
                out.push(' ');
            }
            i = k;
        } else {
            out.push(c);
            i += 1;
        }
    }
    drop_spaces_exec(&mut out);
    let mut r = String::new();
    push_range(&mut r, &cs, 0, indent);
    assert(cs@.subrange(0, indent as int) == cs@.take(indent as int));
    let tail = string_of(&out);
    r.append(tail.as_str());
    r
}

/// The tidied lines, blank lines never more than one in a row.
pub open spec fn prose_lines(lines: Seq<Seq<char>>) -> Seq<Seq<char>>
    decreases lines.len(),
{
    if lines.len() == 0 {
        Seq::empty()
    } else {
        let p = prose_lines(lines.drop_last());
        let c = tidy_line_spec(lines.last());
        if is_blank(c) && p.len() > 0 && is_blank(p.last()) {
            p
        } else {
            p.push(c)
        }
    }
}

fn tidy_prose(lines: &Vec<String>) -> (r: String)
    ensures
        r@ == join(prose_lines(views(lines@)), "\n"@),
{
    let ghost lv = views(lines@);
    let mut out: Vec<String> = Vec::new();
    let mut last_blank = false;
    let mut i: usize = 0;
    while i < lines.len()
        invariant
            i <= lines@.len(),
            lv == views(lines@),
            views(out@) == prose_lines(lv.take(i as int)),
            out@.len() > 0 ==> last_blank == is_blank(out@.last()@),
        decreases lines@.len() - i,
    {
        assert(lv.take(i + 1).drop_last() == lv.take(i as int));
        assert(lv.take(i + 1).last() == lines@[i as int]@);
        let cleaned = tidy_line(lines[i].as_str());
        let cv = chars_of(cleaned.as_str());
        let blank = blank_exec(&cv);
        if blank && out.len() > 0 && last_blank {
        } else {
            out.push(cleaned);
            last_blank = blank;
            assert(views(out@) == views(out@.drop_last()).push(out@.last()@));
        }
        i += 1;
    }
    assert(lv.take(lines@.len() as int) == lv);
    join_strings(&out, "\n")
}


// ---------------------------------------------------------------------
// Searching
// ---------------------------------------------------------------------

/// The first position at or after `i` where `pat` occurs in `s`
/// (`str::find`, from `i`).
pub open spec fn find_from(s: Seq<char>, pat: Seq<char>, i: int) -> Option<int>
    decreases s.len() - i,
{
    if i < 0 || i + pat.len() > s.len() {
        None
    } else if pat.len() == 0 || occurs_at(s, pat, i) {
        Some(i)
    } else {
        find_from(s, pat, i + 1)
    }
}

pub proof fn lemma_find_from(s: Seq<char>, pat: Seq<char>, i: int)
    requires
        0 <= i,
    ensures
        find_from(s, pat, i) matches Some(p) ==> i <= p && p + pat.len() <= s.len() && occurs_at(s, pat, p),
        find_from(s, pat, i) is None ==> forall|k: int| i <= k ==> !#[trigger] occurs_at(s, pat, k),
    decreases s.len() - i,
{
    if pat.len() == 0 && i <= s.len() {
        assert(s.subrange(i, i) =~= pat);
    }
    if i + pat.len() <= s.len() && pat.len() > 0 && !occurs_at(s, pat, i) {
        lemma_find_from(s, pat, i + 1);
        if find_from(s, pat, i + 1) is None {
            assert forall|k: int| i <= k implies !#[trigger] occurs_at(s, pat, k) by {
                if k == i {
                } else {
                    assert(i + 1 <= k);
                }
            }
        }
    }
}

fn matches_at(s: &Vec<char>, pat: &Vec<char>, i: usize) -> (r: bool)
    requires
        i + pat@.len() <= s@.len(),
    ensures
        r == occurs_at(s@, pat@, i as int),
{
    let n = s.len();
    let m = pat.len();
    let mut j: usize = 0;
    while j < m
        invariant
            n == s@.len(),
            m == pat@.len(),
            i + m <= n,
            j <= m,
            forall|t: int| 0 <= t < j ==> s@[i + t] == pat@[t],
        decreases m - j,
    {
        if s[i + j] != pat[j] {
            assert(s@.subrange(i as int, i + pat@.len())[j as int] == s@[i + j]);
            return false;
        }
        j += 1;
    }
    assert(s@.subrange(i as int, i + pat@.len()) =~= pat@);
    true
}

fn find_exec(s: &Vec<char>, pat: &Vec<char>, i: usize) -> (r: Option<usize>)
    ensures
        r matches Some(p) ==> find_from(s@, pat@, i as int) == Some(p as int),
        r is None ==> find_from(s@, pat@, i as int) is None,
{
    let n = s.len();
    let m = pat.len();
    let mut k = i;
    while k <= n && n - k >= m
        invariant
            n == s@.len(),
            m == pat@.len(),
            i <= k,
            find_from(s@, pat@, k as int) == find_from(s@, pat@, i as int),
        decreases n + 1 - k,
    {
        if m == 0 || matches_at(s, pat, k) {
            return Some(k);
        }
        k += 1;
    }
    None
}

/// The characters of `s` from `lo` to `hi`.
fn slice_vec(s: &Vec<char>, lo: usize, hi: usize) -> (r: Vec<char>)
    requires
        lo <= hi <= s@.len(),
    ensures
        r@ == s@.subrange(lo as int, hi as int),
{
    let mut r: Vec<char> = Vec::new();
    let mut i = lo;
    while i < hi
        invariant
            lo <= i <= hi <= s@.len(),
            r@ == s@.subrange(lo as int, i as int),
        decreases hi - i,
    {
        r.push(s[i]);
        assert(s@.subrange(lo as int, i + 1) == s@.subrange(lo as int, i as int).push(s@[i as int]));
        i += 1;
    }
    r
}

fn append_vec(out: &mut Vec<char>, s: &Vec<char>)
    ensures
        final(out)@ == old(out)@ + s@,
{
    let mut i: usize = 0;
    while i < s.len()
        invariant
            i <= s@.len(),
            out@ == old(out)@ + s@.take(i as int),
        decreases s@.len() - i,
    {
        out.push(s[i]);
        assert(s@.take(i + 1) == s@.take(i as int).push(s@[i as int]));
        i += 1;
    }
    assert(s@.take(s@.len() as int) == s@);
}

// ---------------------------------------------------------------------
// TeX
// ---------------------------------------------------------------------

/// A `{...}` group with no nesting at the start of `s`: the start of
/// what is inside, and the position just past the `}`.
pub open spec fn braced_spec(s: Seq<char>) -> Option<(int, int)> {
    if s.len() == 0 || s[0] != '{' {
        None
    } else {
        match find_from(s, "}"@, 1) {
            None => None,
            Some(e) => if contains_sub(s.subrange(1, e), "{"@) { None } else { Some((1, e + 1)) },
        }
    }
}

/// A `{...}` group with no nesting: returns (inner start, past the `}`),
/// as character positions.
fn braced(s: &Vec<char>) -> (r: Option<(usize, usize)>)
    ensures
        r matches Some((a, b)) ==> braced_spec(s@) == Some((a as int, b as int)) && 1 <= a < b <= s@.len(),
        r is None ==> braced_spec(s@) is None,
{
    let n = s.len();
    if s.len() == 0 || s[0] != '{' {
        return None;
    }
    let close = chars_of("}");
    proof { reveal_strlit("}"); }
    let e = match find_exec(s, &close, 1) {
        Some(e) => e,
        None => return None,
    };
    proof {
        lemma_find_from(s@, close@, 1);
        assert(s@.subrange(e as int, e + 1)[0] == s@[e as int]);
    }
    let inner = slice_vec(s, 1, e);
    let open = chars_of("{");
    if contains_at_any(&inner, &open) {
        return None;
    }
    Some((1, e + 1))
}

/// `cmd{A}{B}` becomes `open A mid B close`, at the first `cmd` and only
/// where neither argument nests; otherwise `s` is kept.
pub open spec fn two_arg_spec(s: Seq<char>, cmd: Seq<char>, open: Seq<char>, mid: Seq<char>, close: Seq<char>) -> Seq<char> {
    match find_from(s, cmd, 0) {
        None => s,
        Some(p) => {
            let rest = trim_start_by(s.skip(p + cmd.len()), None);
            match braced_spec(rest) {
                None => s,
                Some((a0, a1)) => {
                    let after = trim_start_by(rest.skip(a1), None);
                    match braced_spec(after) {
                        None => s,
                        Some((b0, b1)) => s.take(p) + open + rest.subrange(a0, a1 - 1) + mid
                            + after.subrange(b0, b1 - 1) + close + after.skip(b1),
                    }
                },
            }
        },
    }
}

/// `cmd{A}` becomes `open A close`, at the first `cmd` and only where the
/// argument does not nest; otherwise `s` is kept.
pub open spec fn one_arg_spec(s: Seq<char>, cmd: Seq<char>, open: Seq<char>, close: Seq<char>) -> Seq<char> {
    match find_from(s, cmd, 0) {
        None => s,
        Some(p) => {
            let rest = trim_start_by(s.skip(p + cmd.len()), None);
            match braced_spec(rest) {
                None => s,
                Some((a0, a1)) => s.take(p) + open + rest.subrange(a0, a1 - 1) + close + rest.skip(a1),
            }
        },
    }
}

/// `s` from `i` on, leading whitespace dropped.
fn trim_start_from(s: &Vec<char>, i: usize) -> (r: Vec<char>)
    requires
        i <= s@.len(),
    ensures
        r@ == trim_start_by(s@.skip(i as int), None),
{
    let tail = slice_vec(s, i, s.len());
    assert(tail@ == s@.skip(i as int));
    let lo = lead_exec(&tail, 0, None);
    proof { lemma_lead_from(tail@, 0, None); }
    let r = slice_vec(&tail, lo, tail.len());
    assert(r@ == tail@.skip(lo as int));
    r
}

/// `cmd{A}{B}` → `open A mid B close`, only where neither argument nests.
fn two_arg(s: &Vec<char>, cmd: &str, open: &str, mid: &str, close: &str) -> (r: Vec<char>)
    ensures
        r@ == two_arg_spec(s@, cmd@, open@, mid@, close@),
{
    let cv = chars_of(cmd);
    let n = s.len();
    let p = match find_exec(s, &cv, 0) {
        Some(p) => p,
        None => return s.clone(),
    };
    proof { lemma_find_from(s@, cv@, 0); }
    let rest = trim_start_from(s, p + cv.len());
    let (a0, a1) = match braced(&rest) {
        Some(a) => a,
        None => return s.clone(),
    };
    let after = trim_start_from(&rest, a1);
    let (b0, b1) = match braced(&after) {
        Some(b) => b,
        None => return s.clone(),
    };
    let mut r = slice_vec(s, 0, p);
    assert(r@ == s@.take(p as int));
    append_vec(&mut r, &chars_of(open));
    append_vec(&mut r, &slice_vec(&rest, a0, a1 - 1));
    append_vec(&mut r, &chars_of(mid));
    append_vec(&mut r, &slice_vec(&after, b0, b1 - 1));
    append_vec(&mut r, &chars_of(close));
    let tail = slice_vec(&after, b1, after.len());
    assert(tail@ == after@.skip(b1 as int));
    append_vec(&mut r, &tail);
    r
}

/// `cmd{A}` → `open A close`, only where the argument does not nest.
fn one_arg(s: &Vec<char>, cmd: &str, open: &str, close: &str) -> (r: Vec<char>)
    ensures
        r@ == one_arg_spec(s@, cmd@, open@, close@),
{
    let cv = chars_of(cmd);
    let n = s.len();
    let p = match find_exec(s, &cv, 0) {
        Some(p) => p,
        None => return s.clone(),
    };
    proof { lemma_find_from(s@, cv@, 0); }
    let rest = trim_start_from(s, p + cv.len());
    let (a0, a1) = match braced(&rest) {
        Some(a) => a,
        None => return s.clone(),
    };
    let mut r = slice_vec(s, 0, p);
    assert(r@ == s@.take(p as int));
    append_vec(&mut r, &chars_of(open));
    append_vec(&mut r, &slice_vec(&rest, a0, a1 - 1));
    append_vec(&mut r, &chars_of(close));
    let tail = slice_vec(&rest, a1, rest.len());
    assert(tail@ == rest@.skip(a1 as int));
    append_vec(&mut r, &tail);
    r
}


/// LaTeX commands worth a real character, in the order they are replaced.
#[verifier::opaque]
pub open spec fn tex_symbols() -> Seq<(Seq<char>, Seq<char>)> {
    seq![
        ("\\hbar"@, "ℏ"@),
        ("\\varepsilon"@, "ε"@),
        ("\\epsilon"@, "ε"@),
        ("\\vartheta"@, "θ"@),
        ("\\alpha"@, "α"@),
        ("\\beta"@, "β"@),
        ("\\gamma"@, "γ"@),
        ("\\delta"@, "δ"@),
        ("\\zeta"@, "ζ"@),
        ("\\eta"@, "η"@),
        ("\\theta"@, "θ"@),
        ("\\iota"@, "ι"@),
        ("\\kappa"@, "κ"@),
        ("\\lambda"@, "λ"@),
        ("\\mu"@, "μ"@),
        ("\\nu"@, "ν"@),
        ("\\xi"@, "ξ"@),
        ("\\pi"@, "π"@),
        ("\\rho"@, "ρ"@),
        ("\\sigma"@, "σ"@),
        ("\\tau"@, "τ"@),
        ("\\upsilon"@, "υ"@),
        ("\\phi"@, "φ"@),
        ("\\chi"@, "χ"@),
        ("\\psi"@, "ψ"@),
        ("\\omega"@, "ω"@),
        ("\\Gamma"@, "Γ"@),
        ("\\Delta"@, "Δ"@),
        ("\\Theta"@, "Θ"@),
        ("\\Lambda"@, "Λ"@),
        ("\\Sigma"@, "Σ"@),
        ("\\Phi"@, "Φ"@),
        ("\\Psi"@, "Ψ"@),
        ("\\Omega"@, "Ω"@),
        ("\\times"@, "×"@),
        ("\\cdot"@, "·"@),
        ("\\pm"@, "±"@),
        ("\\mp"@, "∓"@),
        ("\\rightarrow"@, "→"@),
        ("\\leftarrow"@, "←"@),
        ("\\to"@, "→"@),
        ("\\approx"@, "≈"@),
        ("\\equiv"@, "≡"@),
        ("\\neq"@, "≠"@),
        ("\\leq"@, "≤"@),
        ("\\geq"@, "≥"@),
        ("\\ll"@, "≪"@),
        ("\\gg"@, "≫"@),
        ("\\propto"@, "∝"@),
        ("\\infty"@, "∞"@),
        ("\\partial"@, "∂"@),
        ("\\nabla"@, "∇"@),
        ("\\sum"@, "Σ"@),
        ("\\prod"@, "Π"@),
        ("\\int"@, "∫"@),
        ("\\pm"@, "±"@),
        ("\\langle"@, "⟨"@),
        ("\\rangle"@, "⟩"@),
        ("\\dagger"@, "†"@),
        ("\\ast"@, "*"@),
    ]
}

/// Commands that carry no meaning once the formula is one line of text.
#[verifier::opaque]
pub open spec fn tex_noise() -> Seq<Seq<char>> {
    seq![
        "\\displaystyle"@,
        "\\textstyle"@,
        "\\operatorname"@,
        "\\mathrm"@,
        "\\mathbf"@,
        "\\mathbb"@,
        "\\mathcal"@,
        "\\boldsymbol"@,
        "\\overline"@,
        "\\underline"@,
        "\\left"@,
        "\\right"@,
        "\\text"@,
        "\\vec"@,
        "\\hat"@,
        "\\bar"@,
        "\\tilde"@,
        "\\bigg"@,
        "\\Bigg"@,
        "\\big"@,
        "\\Big"@,
        "\\limits"@,
        "\\,"@,
        "\\;"@,
        "\\!"@,
        "\\ "@,
    ]
}

/// Structure a flat glyph join cannot show, so the LaTeX is used instead.
pub open spec fn tex_structure() -> Seq<Seq<char>> {
    seq!["\\frac"@, "\\dfrac"@, "\\tfrac"@, "\\sqrt"@, "\\over"@, "\\binom"@]
}

/// The views of pairs of strings.
pub open spec fn pair_views(v: Seq<(&str, &str)>) -> Seq<(Seq<char>, Seq<char>)> {
    v.map_values(|p: (&str, &str)| (p.0@, p.1@))
}

/// The views of strings.
pub open spec fn str_views(v: Seq<&str>) -> Seq<Seq<char>> {
    v.map_values(|p: &str| p@)
}

fn tex_symbols_exec() -> (v: Vec<(&'static str, &'static str)>)
    ensures
        pair_views(v@) == tex_symbols(),
{
    let v = vec![
        ("\\hbar", "ℏ"),
        ("\\varepsilon", "ε"),
        ("\\epsilon", "ε"),
        ("\\vartheta", "θ"),
        ("\\alpha", "α"),
        ("\\beta", "β"),
        ("\\gamma", "γ"),
        ("\\delta", "δ"),
        ("\\zeta", "ζ"),
        ("\\eta", "η"),
        ("\\theta", "θ"),
        ("\\iota", "ι"),
        ("\\kappa", "κ"),
        ("\\lambda", "λ"),
        ("\\mu", "μ"),
        ("\\nu", "ν"),
        ("\\xi", "ξ"),
        ("\\pi", "π"),
        ("\\rho", "ρ"),
        ("\\sigma", "σ"),
        ("\\tau", "τ"),
        ("\\upsilon", "υ"),
        ("\\phi", "φ"),
        ("\\chi", "χ"),
        ("\\psi", "ψ"),
        ("\\omega", "ω"),
        ("\\Gamma", "Γ"),
        ("\\Delta", "Δ"),
        ("\\Theta", "Θ"),
        ("\\Lambda", "Λ"),
        ("\\Sigma", "Σ"),
        ("\\Phi", "Φ"),
        ("\\Psi", "Ψ"),
        ("\\Omega", "Ω"),
        ("\\times", "×"),
        ("\\cdot", "·"),
        ("\\pm", "±"),
        ("\\mp", "∓"),
        ("\\rightarrow", "→"),
        ("\\leftarrow", "←"),
        ("\\to", "→"),
        ("\\approx", "≈"),
        ("\\equiv", "≡"),
        ("\\neq", "≠"),
        ("\\leq", "≤"),
        ("\\geq", "≥"),
        ("\\ll", "≪"),
        ("\\gg", "≫"),
        ("\\propto", "∝"),
        ("\\infty", "∞"),
        ("\\partial", "∂"),
        ("\\nabla", "∇"),
        ("\\sum", "Σ"),
        ("\\prod", "Π"),
        ("\\int", "∫"),
        ("\\pm", "±"),
        ("\\langle", "⟨"),
        ("\\rangle", "⟩"),
        ("\\dagger", "†"),
        ("\\ast", "*"),
    ];
    proof { reveal(tex_symbols); }
    assert(pair_views(v@) =~= tex_symbols());
    v
}

fn tex_noise_exec() -> (v: Vec<&'static str>)
    ensures
        str_views(v@) == tex_noise(),
{
    let v = vec![
        "\\displaystyle",
        "\\textstyle",
        "\\operatorname",
        "\\mathrm",
        "\\mathbf",
        "\\mathbb",
        "\\mathcal",
        "\\boldsymbol",
        "\\overline",
        "\\underline",
        "\\left",
        "\\right",
        "\\text",
        "\\vec",
        "\\hat",
        "\\bar",
        "\\tilde",
        "\\bigg",
        "\\Bigg",
        "\\big",
        "\\Big",
        "\\limits",
        "\\,",
        "\\;",
        "\\!",
        "\\ ",
    ];
    proof { reveal(tex_noise); }
    assert(str_views(v@) =~= tex_noise());
    v
}

fn tex_structure_exec() -> (v: Vec<&'static str>)
    ensures
        str_views(v@) == tex_structure(),
{
    let v = vec!["\\frac", "\\dfrac", "\\tfrac", "\\sqrt", "\\over", "\\binom"];
    assert(str_views(v@) =~= tex_structure());
    v
}

/// Each pair's first part replaced by its second, in order.
pub open spec fn replace_all(s: Seq<char>, t: Seq<(Seq<char>, Seq<char>)>) -> Seq<char>
    decreases t.len(),
{
    if t.len() == 0 {
        s
    } else {
        replace_sub(replace_all(s, t.drop_last()), t.last().0, t.last().1)
    }
}

/// Each of `t` replaced by a space, in order.
pub open spec fn blank_all(s: Seq<char>, t: Seq<Seq<char>>) -> Seq<char>
    decreases t.len(),
{
    if t.len() == 0 {
        s
    } else {
        replace_sub(blank_all(s, t.drop_last()), t.last(), " "@)
    }
}

/// `s` with `pat` replaced by `r` (`str::replace`).
fn replaced(s: &Vec<char>, pat: &str, r: &str) -> (out: Vec<char>)
    ensures
        out@ == replace_sub(s@, pat@, r@),
{
    let pv = chars_of(pat);
    if pv.len() == 0 {
        return s.clone();
    }
    let mut o = String::new();
    push_replaced_sub(&mut o, s, &pv, r);
    chars_of(o.as_str())
}

fn replace_all_exec(s: &Vec<char>, t: &Vec<(&str, &str)>) -> (out: Vec<char>)
    ensures
        out@ == replace_all(s@, pair_views(t@)),
{
    let ghost tv = pair_views(t@);
    let mut cur = s.clone();
    let mut k: usize = 0;
    while k < t.len()
        invariant
            k <= t@.len(),
            tv == pair_views(t@),
            cur@ == replace_all(s@, tv.take(k as int)),
        decreases t@.len() - k,
    {
        assert(tv.take(k + 1).drop_last() == tv.take(k as int));
        let (a, b) = t[k];
        cur = replaced(&cur, a, b);
        k += 1;
    }
    assert(tv.take(t@.len() as int) == tv);
    cur
}

fn blank_all_exec(s: &Vec<char>, t: &Vec<&str>) -> (out: Vec<char>)
    ensures
        out@ == blank_all(s@, str_views(t@)),
{
    let ghost tv = str_views(t@);
    let mut cur = s.clone();
    let mut k: usize = 0;
    while k < t.len()
        invariant
            k <= t@.len(),
            tv == str_views(t@),
            cur@ == blank_all(s@, tv.take(k as int)),
        decreases t@.len() - k,
    {
        assert(tv.take(k + 1).drop_last() == tv.take(k as int));
        cur = replaced(&cur, t[k], " ");
        k += 1;
    }
    assert(tv.take(t@.len() as int) == tv);
    cur
}

/// The maximal runs of non-whitespace of `s` (`str::split_whitespace`).
pub open spec fn words(s: Seq<char>) -> Seq<Seq<char>>
    decreases s.len(),
{
    if s.len() == 0 {
        Seq::empty()
    } else {
        let p = words(s.drop_last());
        let c = s.last();
        if is_ws(c) {
            p
        } else if s.len() >= 2 && !is_ws(s[s.len() - 2]) && p.len() > 0 {
            p.update(p.len() - 1, p.last().push(c))
        } else {
            p.push(seq![c])
        }
    }
}

/// The words of `s` (`str::split_whitespace`).
fn words_exec(s: &Vec<char>) -> (r: Vec<Vec<char>>)
    ensures
        vviews(r@) == words(s@),
{
    let mut ws_out: Vec<Vec<char>> = Vec::new();
    let mut i: usize = 0;
    assert(vviews(ws_out@) =~= words(s@.take(0)));
    while i < s.len()
        invariant
            i <= s@.len(),
            vviews(ws_out@) == words(s@.take(i as int)),
        decreases s@.len() - i,
    {
        let ghost pre = s@.take(i as int);
        assert(s@.take(i + 1).drop_last() == pre);
        let c = s[i];
        if ws(c) {
        } else if i >= 1 && !ws(s[i - 1]) && ws_out.len() > 0 {
            assert(s@.take(i + 1)[i - 1] == s@[i - 1]);
            let last = ws_out.len() - 1;
            let mut w = ws_out[last].clone();
            w.push(c);
            ws_out.set(last, w);
            assert(vviews(ws_out@) =~= words(s@.take(i + 1)));
        } else {
            proof {
                if i >= 1 {
                    assert(s@.take(i + 1)[i - 1] == s@[i - 1]);
                }
            }
            let mut w: Vec<char> = Vec::new();
            w.push(c);
            ws_out.push(w);
            assert(vviews(ws_out@) =~= words(s@.take(i + 1)));
        }
        i += 1;
    }
    assert(s@.take(s@.len() as int) == s@);
    ws_out
}

/// Character vectors as strings.
fn to_strings(v: &Vec<Vec<char>>) -> (r: Vec<String>)
    ensures
        views(r@) == vviews(v@),
{
    let mut strs: Vec<String> = Vec::new();
    let mut k: usize = 0;
    while k < v.len()
        invariant
            k <= v@.len(),
            strs@.len() == k,
            forall|q: int| 0 <= q < k ==> #[trigger] strs@[q]@ == v@[q]@,
        decreases v@.len() - k,
    {
        strs.push(string_of(&v[k]));
        k += 1;
    }
    assert(views(strs@) =~= vviews(v@));
    strs
}

/// The words of `s` joined by single spaces.
fn squeeze(s: &Vec<char>) -> (r: String)
    ensures
        r@ == join(words(s@), " "@),
{
    let w = words_exec(s);
    let strs = to_strings(&w);
    join_strings(&strs, " ")
}

/// One pass of unwinding: fractions, then square roots.
pub open spec fn frac_pass(s: Seq<char>) -> Seq<char> {
    let s = two_arg_spec(s, "\\frac"@, "("@, ")/("@, ")"@);
    let s = two_arg_spec(s, "\\dfrac"@, "("@, ")/("@, ")"@);
    let s = two_arg_spec(s, "\\tfrac"@, "("@, ")/("@, ")"@);
    one_arg_spec(s, "\\sqrt"@, "√("@, ")"@)
}

/// What a TeX annotation holds: what follows its first space, less a
/// closing brace at the end.
pub open spec fn tex_body(line: Seq<char>) -> Seq<char> {
    let body = match find_from(line, " "@, 0) {
        Some(p) => line.skip(p + 1),
        None => Seq::empty(),
    };
    if body.len() > 0 && body.last() == '}' { body.drop_last() } else { body }
}

/// A TeX body made one line of text: unwound in four passes (innermost
/// first), symbols and noise replaced, braces dropped, tildes made
/// spaces, backslashes dropped, and the gaps squeezed.
pub open spec fn tex_flatten(s0: Seq<char>) -> Seq<char> {
    let s1 = frac_pass(frac_pass(frac_pass(frac_pass(s0))));
    let s2 = blank_all(replace_all(s1, tex_symbols()), tex_noise());
    let s3 = replace_char(replace_char(replace_char(s2, '{', Seq::empty()), '}', Seq::empty()), '~', " "@);
    join(words(replace_char(s3, '\\', Seq::empty())), " "@)
}

/// `{\displaystyle E={\frac {a}{b}}}` → `E=(a)/(b)`.
pub open spec fn tidy_tex_spec(line: Seq<char>) -> Seq<char> {
    tex_flatten(tex_body(line))
}

fn frac_pass_exec(s: &Vec<char>) -> (r: Vec<char>)
    ensures
        r@ == frac_pass(s@),
{
    let s1 = two_arg(s, "\\frac", "(", ")/(", ")");
    let s2 = two_arg(&s1, "\\dfrac", "(", ")/(", ")");
    let s3 = two_arg(&s2, "\\tfrac", "(", ")/(", ")");
    one_arg(&s3, "\\sqrt", "√(", ")")
}

fn replaced_char(s: &Vec<char>, c: char, r: &str) -> (out: Vec<char>)
    ensures
        out@ == replace_char(s@, c, r@),
{
    let mut o = String::new();
    push_replaced(&mut o, s, c, r);
    chars_of(o.as_str())
}

fn tex_body_exec(line: &Vec<char>) -> (r: Vec<char>)
    ensures
        r@ == tex_body(line@),
{
    let sp = chars_of(" ");
    let len = line.len();
    let body = match find_exec(line, &sp, 0) {
        Some(p) => {
            proof { lemma_find_from(line@, sp@, 0); reveal_strlit(" "); }
            let b = slice_vec(line, p + 1, line.len());
            assert(b@ == line@.skip(p + 1));
            b
        },
        None => Vec::new(),
    };
    let n = body.len();
    assert(n > 0 ==> body@.subrange(0, n - 1) == body@.drop_last());
    if n > 0 && body[n - 1] == '}' { slice_vec(&body, 0, n - 1) } else { body }
}

fn tex_flatten_exec(s0: &Vec<char>) -> (r: String)
    ensures
        r@ == tex_flatten(s0@),
{
    let a = frac_pass_exec(s0);
    let b = frac_pass_exec(&a);
    let c = frac_pass_exec(&b);
    let s1 = frac_pass_exec(&c);
    assert(s1@ == frac_pass(frac_pass(frac_pass(frac_pass(s0@)))));
    let syms = tex_symbols_exec();
    let noise = tex_noise_exec();
    let r1 = replace_all_exec(&s1, &syms);
    let s2 = blank_all_exec(&r1, &noise);
    assert(s2@ == blank_all(replace_all(s1@, tex_symbols()), tex_noise()));
    let t1 = replaced_char(&s2, '{', "");
    let t2 = replaced_char(&t1, '}', "");
    let s3 = replaced_char(&t2, '~', " ");
    let s4 = replaced_char(&s3, '\\', "");
    proof {
        reveal_strlit("");
        assert(""@ =~= Seq::<char>::empty());
    }
    assert(s4@ == replace_char(s3@, '\\', Seq::empty()));
    squeeze(&s4)
}

/// `{\displaystyle E={\frac {a}{b}}}` → `E=(a)/(b)`.
fn tidy_tex(line: &Vec<char>) -> (r: String)
    ensures
        r@ == tidy_tex_spec(line@),
{
    let body = tex_body_exec(line);
    tex_flatten_exec(&body)
}


// ---------------------------------------------------------------------
// Wikipedia extract cleanup
// ---------------------------------------------------------------------

/// `s` starts with `p`.
pub open spec fn starts_with(s: Seq<char>, p: Seq<char>) -> bool {
    p.len() <= s.len() && s.take(p.len() as int) == p
}

fn starts_with_exec(s: &Vec<char>, p: &str) -> (r: bool)
    ensures
        r == starts_with(s@, p@),
{
    let pv = chars_of(p);
    if pv.len() > s.len() {
        return false;
    }
    let r = matches_at(s, &pv, 0);
    assert(s@.subrange(0, pv@.len() as int) == s@.take(pv@.len() as int));
    r
}

/// A line that can belong to a math block: blank, or indented by two spaces.
pub open spec fn in_math(l: Seq<char>) -> bool {
    is_blank(l) || starts_with(l, "  "@)
}

/// The end of the run of math-block lines starting at `j`.
pub open spec fn math_end(lines: Seq<Seq<char>>, j: int) -> int
    decreases lines.len() - j,
{
    if 0 <= j < lines.len() && in_math(lines[j]) {
        math_end(lines, j + 1)
    } else {
        j
    }
}

pub proof fn lemma_math_end(lines: Seq<Seq<char>>, j: int)
    requires
        0 <= j <= lines.len(),
    ensures
        j <= math_end(lines, j) <= lines.len(),
        j < lines.len() && in_math(lines[j]) ==> math_end(lines, j) > j,
    decreases lines.len() - j,
{
    if j < lines.len() && in_math(lines[j]) {
        lemma_math_end(lines, j + 1);
    }
}

/// A `{\displaystyle ...}` or `{\textstyle ...}` annotation.
pub open spec fn is_latex(t: Seq<char>) -> bool {
    starts_with(t, "{\\displaystyle"@) || starts_with(t, "{\\textstyle"@)
}

/// The last annotation among `lines[i..j]`, trimmed.
pub open spec fn run_latex(lines: Seq<Seq<char>>, i: int, j: int) -> Option<Seq<char>>
    decreases j - i,
{
    if j <= i {
        None
    } else {
        let t = trim(lines[j - 1]);
        if is_latex(t) { Some(t) } else { run_latex(lines, i, j - 1) }
    }
}

/// The glyphs of `lines[i..j]`: every trimmed line that is no annotation, joined.
pub open spec fn run_toks(lines: Seq<Seq<char>>, i: int, j: int) -> Seq<char>
    decreases j - i,
{
    if j <= i {
        Seq::empty()
    } else {
        let t = trim(lines[j - 1]);
        run_toks(lines, i, j - 1) + (if is_latex(t) { Seq::empty() } else { t })
    }
}

/// The annotation uses structure that a flat join of glyphs cannot show.
pub open spec fn has_structure(tex: Seq<char>) -> bool {
    exists|k: int| 0 <= k < tex_structure().len() && contains_sub(tex, #[trigger] tex_structure()[k])
}

/// Cleaning the extract's lines from `i` on, with `out` written so far.
/// A run of blank or indented lines with an annotation becomes one
/// expression: the LaTeX tidied where it has structure, else the glyphs
/// joined. Where the run started indented after a line of text, the
/// expression joins that line, and so does the line after the run; else
/// it stands on a line of its own, indented, after an empty line. A run
/// without an annotation, and every other line, is kept.
pub open spec fn wiki_go(lines: Seq<Seq<char>>, i: int, out: Seq<Seq<char>>) -> Seq<Seq<char>>
    decreases lines.len() - i,
{
    if i < 0 || i >= lines.len() {
        out
    } else {
        let ln = lines[i];
        if ln.len() == 0 || starts_with(ln, "  "@) {
            let j = math_end(lines, i);
            proof { lemma_math_end(lines, i); }
            match run_latex(lines, i, j) {
                Some(tex) => {
                    let expr = if has_structure(tex) { tidy_tex_spec(tex) } else { run_toks(lines, i, j) };
                    let inline = ln.len() > 0 && out.len() > 0 && !is_blank(out.last());
                    if inline {
                        let glue = j < lines.len() && !is_blank(lines[j]);
                        let last = out.last() + expr + (if glue { lines[j] } else { Seq::empty() });
                        wiki_go(lines, if glue { j + 1 } else { j }, out.drop_last().push(last))
                    } else {
                        wiki_go(lines, j, out.push(Seq::empty()).push("    "@ + expr))
                    }
                },
                None => wiki_go(lines, i + 1, out.push(ln)),
            }
        } else {
            wiki_go(lines, i + 1, out.push(ln))
        }
    }
}

/// What `clean_wiki_extract` returns for `text`.
pub open spec fn clean_wiki_spec(text: Seq<char>) -> Seq<char> {
    join(prose_lines(wiki_go(split_char(text, '\n'), 0, Seq::empty())), "\n"@)
}

fn in_math_exec(l: &Vec<char>) -> (r: bool)
    ensures
        r == in_math(l@),
{
    blank_exec(l) || starts_with_exec(l, "  ")
}

fn is_latex_exec(t: &Vec<char>) -> (r: bool)
    ensures
        r == is_latex(t@),
{
    starts_with_exec(t, "{\\displaystyle") || starts_with_exec(t, "{\\textstyle")
}

fn has_structure_exec(tex: &Vec<char>) -> (r: bool)
    ensures
        r == has_structure(tex@),
{
    let st = tex_structure_exec();
    let mut k: usize = 0;
    while k < st.len()
        invariant
            k <= st@.len(),
            str_views(st@) == tex_structure(),
            forall|q: int| 0 <= q < k ==> !contains_sub(tex@, #[trigger] tex_structure()[q]),
        decreases st@.len() - k,
    {
        let pv = chars_of(st[k]);
        assert(tex_structure()[k as int] == st@[k as int]@);
        if contains_at_any(tex, &pv) {
            return true;
        }
        k += 1;
    }
    false
}

/// The run of math-block lines from `i`: where it ends, its last
/// annotation, and its glyphs.
fn math_scan(lines: &Vec<Vec<char>>, i: usize) -> (r: (usize, Option<Vec<char>>, Vec<char>))
    requires
        i <= lines@.len(),
    ensures
        r.0 == math_end(vviews(lines@), i as int),
        match r.1 {
            Some(t) => run_latex(vviews(lines@), i as int, r.0 as int) == Some(t@),
            None => run_latex(vviews(lines@), i as int, r.0 as int) is None,
        },
        r.2@ == run_toks(vviews(lines@), i as int, r.0 as int),
{
    let ghost lv = vviews(lines@);
    let mut j = i;
    let mut latex: Option<Vec<char>> = None;
    let mut toks: Vec<char> = Vec::new();
    while j < lines.len() && in_math_exec(&lines[j])
        invariant
            i <= j <= lines@.len(),
            lv == vviews(lines@),
            math_end(lv, j as int) == math_end(lv, i as int),
            match latex {
                Some(t) => run_latex(lv, i as int, j as int) == Some(t@),
                None => run_latex(lv, i as int, j as int) is None,
            },
            toks@ == run_toks(lv, i as int, j as int),
        decreases lines@.len() - j,
    {
        let t = trim_vec(&lines[j], None);
        assert(lv[j as int] == lines@[j as int]@);
        if is_latex_exec(&t) {
            latex = Some(t);
        } else {
            append_vec(&mut toks, &t);
        }
        j += 1;
    }
    (j, latex, toks)
}

/// Clean a Wikipedia plain-text extract for reading in a pane: math
/// blocks become one inline expression, and the debris left by dropped
/// templates goes away.
#[verifier::rlimit(40)]
pub fn clean_wiki_extract(text: &str) -> (r: String)
    ensures
        r@ == clean_wiki_spec(text@),
{
    let tv = chars_of(text);
    let lines = split_chars(&tv, '\n');
    let ghost lv = vviews(lines@);
    assert(lv =~= split_char(tv@, '\n'));
    let ghost goal = wiki_go(lv, 0, Seq::empty());
    let mut out: Vec<Vec<char>> = Vec::new();
    assert(vviews(out@) =~= Seq::<Seq<char>>::empty());
    let mut i: usize = 0;
    while i < lines.len()
        invariant
            i <= lines@.len(),
            lv == vviews(lines@),
            wiki_go(lv, i as int, vviews(out@)) == goal,
        decreases lines@.len() - i,
    {
        let ln = &lines[i];
        assert(lv[i as int] == ln@);
        let ghost i0 = i as int;
        let ghost out0 = vviews(out@);
        let mut handled = false;
        if ln.len() == 0 || starts_with_exec(ln, "  ") {
            proof {
                lemma_math_end(lv, i as int);
                reveal_strlit("  ");
                if ln@.len() == 0 {
                    assert(is_blank(ln@));
                }
            }
            let (j, latex, toks) = math_scan(&lines, i);
            match latex {
                Some(tex) => {
                    let expr = if has_structure_exec(&tex) {
                        let t = tidy_tex(&tex);
                        chars_of(t.as_str())
                    } else {
                        toks
                    };
                    let mut inline = false;
                    if ln.len() > 0 && out.len() > 0 {
                        assert(out0.last() == out@[out@.len() - 1]@);
                        inline = !blank_exec(&out[out.len() - 1]);
                    }
                    assert(inline == (ln@.len() > 0 && out0.len() > 0 && !is_blank(out0.last())));
                    if inline {
                        let k = out.len() - 1;
                        let mut last = out[k].clone();
                        append_vec(&mut last, &expr);
                        let mut next = j;
                        if j < lines.len() && !blank_exec(&lines[j]) {
                            assert(lv[j as int] == lines@[j as int]@);
                            append_vec(&mut last, &lines[j]);
                            next = j + 1;
                        }
                        let ghost before = vviews(out@);
                        assert(before.last() == out@[k as int]@);
                        out.set(k, last);
                        assert(vviews(out@) =~= before.drop_last().push(last@));
                        assert(wiki_go(lv, i0, out0) == wiki_go(lv, next as int, vviews(out@)));
                        i = next;
                    } else {
                        out.push(Vec::new());
                        let mut line = chars_of("    ");
                        append_vec(&mut line, &expr);
                        out.push(line);
                        assert(vviews(out@) =~= out0.push(Seq::empty()).push(line@));
                        proof { reveal_strlit("    "); }
                        assert(wiki_go(lv, i0, out0) == wiki_go(lv, j as int, vviews(out@)));
                        i = j;
                    }
                    handled = true;
                },
                None => {},
            }
        }
        if !handled {
            let ghost before = vviews(out@);
            out.push(ln.clone());
            assert(vviews(out@) =~= before.push(ln@));
            assert(wiki_go(lv, i0, out0) == wiki_go(lv, i0 + 1, vviews(out@)));
            i += 1;
        }
    }
    let strs = to_strings(&out);
    tidy_prose(&strs)
}


// ---------------------------------------------------------------------
// Markdown table rows
// ---------------------------------------------------------------------

/// How a table column's cells sit in its width.
#[derive(Clone, Copy, PartialEq, Eq, Structural, Debug)]
pub enum Align {
    Left,
    Right,
    Center,
}

/// The cells of a pipe row as written: the line trimmed, the pipes at its
/// ends dropped, split at the pipes between.
pub open spec fn pipe_parts(line: Seq<char>) -> Seq<Seq<char>> {
    split_char(trim_by(trim(line), Some('|')), '|')
}

/// A pipe row: trimmed, it starts and ends with `|` and holds two or more.
pub open spec fn is_pipe_row_spec(line: Seq<char>) -> bool {
    let t = trim(line);
    t.len() > 0 && t[0] == '|' && t.last() == '|' && count_char(t, '|') >= 2
}

/// One cell of a separator row: not empty, only `-`, `:` and spaces, and
/// at least one `-`.
pub open spec fn sep_cell(s: Seq<char>) -> bool {
    &&& s.len() > 0
    &&& forall|i: int| 0 <= i < s.len() ==> (#[trigger] s[i] == '-' || s[i] == ':' || s[i] == ' ')
    &&& exists|i: int| 0 <= i < s.len() && #[trigger] s[i] == '-'
}

/// A separator row `| --- | :---: | ---: |`.
pub open spec fn is_md_separator_spec(line: Seq<char>) -> bool {
    let t = trim(line);
    &&& t.len() > 0 && t[0] == '|' && t.last() == '|'
    &&& forall|k: int| 0 <= k < pipe_parts(line).len() ==> sep_cell(trim(#[trigger] pipe_parts(line)[k]))
}

/// The alignment a separator cell asks for: `:` at both ends centres, at
/// the right end only right-aligns, anything else left-aligns.
pub open spec fn align_of(s: Seq<char>) -> Align {
    let left = s.len() > 0 && s[0] == ':';
    let right = s.len() > 0 && s.last() == ':';
    if left && right { Align::Center } else if right { Align::Right } else { Align::Left }
}

fn trim_all(parts: &Vec<Vec<char>>) -> (r: Vec<Vec<char>>)
    ensures
        vviews(r@) == vviews(parts@).map_values(|p: Seq<char>| trim(p)),
{
    let mut r: Vec<Vec<char>> = Vec::new();
    let mut k: usize = 0;
    while k < parts.len()
        invariant
            k <= parts@.len(),
            r@.len() == k,
            forall|q: int| 0 <= q < k ==> #[trigger] r@[q]@ == trim(parts@[q]@),
        decreases parts@.len() - k,
    {
        r.push(trim_vec(&parts[k], None));
        k += 1;
    }
    assert(vviews(r@) =~= vviews(parts@).map_values(|p: Seq<char>| trim(p)));
    r
}

fn pipe_parts_exec(line: &Vec<char>) -> (r: Vec<Vec<char>>)
    ensures
        vviews(r@) == pipe_parts(line@),
{
    let t = trim_vec(line, None);
    let inner = trim_vec(&t, Some('|'));
    let parts = split_chars(&inner, '|');
    assert(vviews(parts@) =~= pipe_parts(line@));
    parts
}

fn count_exec(s: &Vec<char>, c: char) -> (r: usize)
    ensures
        r == count_char(s@, c),
{
    let mut n: usize = 0;
    let mut i: usize = 0;
    while i < s.len()
        invariant
            i <= s@.len(),
            n <= i,
            n == count_char(s@.take(i as int), c),
        decreases s@.len() - i,
    {
        assert(s@.take(i + 1).drop_last() == s@.take(i as int));
        if s[i] == c {
            n += 1;
        }
        i += 1;
    }
    assert(s@.take(s@.len() as int) == s@);
    n
}

fn is_pipe_row(line: &Vec<char>) -> (r: bool)
    ensures
        r == is_pipe_row_spec(line@),
{
    let t = trim_vec(line, None);
    let n = t.len();
    n > 0 && t[0] == '|' && t[n - 1] == '|' && count_exec(&t, '|') >= 2
}

fn sep_cell_exec(s: &Vec<char>) -> (r: bool)
    ensures
        r == sep_cell(s@),
{
    if s.len() == 0 {
        return false;
    }
    let mut dash = false;
    let mut i: usize = 0;
    while i < s.len()
        invariant
            i <= s@.len(),
            forall|k: int| 0 <= k < i ==> (#[trigger] s@[k] == '-' || s@[k] == ':' || s@[k] == ' '),
            dash == exists|k: int| 0 <= k < i && #[trigger] s@[k] == '-',
        decreases s@.len() - i,
    {
        let c = s[i];
        if !(c == '-' || c == ':' || c == ' ') {
            return false;
        }
        if c == '-' {
            dash = true;
        }
        i += 1;
    }
    dash
}

/// Match `| --- | :---: | ---: |` separator rows.
fn is_md_separator(line: &Vec<char>) -> (r: bool)
    ensures
        r == is_md_separator_spec(line@),
{
    let t = trim_vec(line, None);
    let n = t.len();
    if !(n > 0 && t[0] == '|' && t[n - 1] == '|') {
        return false;
    }
    let parts = pipe_parts_exec(line);
    let mut k: usize = 0;
    while k < parts.len()
        invariant
            k <= parts@.len(),
            vviews(parts@) == pipe_parts(line@),
            forall|q: int| 0 <= q < k ==> sep_cell(trim(#[trigger] pipe_parts(line@)[q])),
        decreases parts@.len() - k,
    {
        let cell = trim_vec(&parts[k], None);
        assert(pipe_parts(line@)[k as int] == parts@[k as int]@);
        if !sep_cell_exec(&cell) {
            return false;
        }
        k += 1;
    }
    true
}

fn align_of_exec(s: &Vec<char>) -> (r: Align)
    ensures
        r == align_of(s@),
{
    let n = s.len();
    let left = n > 0 && s[0] == ':';
    let right = n > 0 && s[n - 1] == ':';
    if left && right { Align::Center } else if right { Align::Right } else { Align::Left }
}

/// The alignments a separator row asks for, one per cell.
fn parse_md_alignments(line: &Vec<char>) -> (r: Vec<Align>)
    ensures
        r@ == pipe_parts(line@).map_values(|p: Seq<char>| align_of(trim(p))),
{
    let parts = pipe_parts_exec(line);
    let mut r: Vec<Align> = Vec::new();
    let mut k: usize = 0;
    while k < parts.len()
        invariant
            k <= parts@.len(),
            vviews(parts@) == pipe_parts(line@),
            r@.len() == k,
            forall|q: int| 0 <= q < k ==> #[trigger] r@[q] == align_of(trim(pipe_parts(line@)[q])),
        decreases parts@.len() - k,
    {
        let cell = trim_vec(&parts[k], None);
        assert(pipe_parts(line@)[k as int] == parts@[k as int]@);
        r.push(align_of_exec(&cell));
        k += 1;
    }
    assert(r@ =~= pipe_parts(line@).map_values(|p: Seq<char>| align_of(trim(p))));
    r
}

/// The cells of a pipe row, each trimmed.
fn split_pipe_row(line: &Vec<char>) -> (r: Vec<Vec<char>>)
    ensures
        vviews(r@) == pipe_parts(line@).map_values(|p: Seq<char>| trim(p)),
{
    let parts = pipe_parts_exec(line);
    trim_all(&parts)
}

/// Display width ignoring ANSI escape sequences.
fn display_width_cell(s: &Vec<char>) -> (r: usize)
    ensures
        r == display_width_spec(s@),
{
    let st = string_of(s);
    display_width(st.as_str())
}

/// `s` placed in `w` columns: as it is where it is as wide or wider,
/// else padded by spaces on the right, on the left, or on both sides
/// (the odd one on the right).
pub open spec fn align_cell_spec(s: Seq<char>, w: nat, a: Align) -> Seq<char> {
    let cw = display_width_spec(s) as nat;
    if cw >= w {
        s
    } else {
        let pad = (w - cw) as nat;
        match a {
            Align::Left => s + spaces(pad),
            Align::Right => spaces(pad) + s,
            Align::Center => spaces(pad / 2) + s + spaces((pad - pad / 2) as nat),
        }
    }
}

fn push_spaces_vec(out: &mut Vec<char>, n: usize)
    ensures
        final(out)@ == old(out)@ + spaces(n as nat),
{
    let mut i: usize = 0;
    while i < n
        invariant
            i <= n,
            out@ == old(out)@ + spaces(i as nat),
        decreases n - i,
    {
        proof { lemma_spaces_push(i as nat); }
        out.push(' ');
        i += 1;
    }
}

pub proof fn lemma_spaces_push(n: nat)
    ensures
        spaces(n + 1) == spaces(n).push(' '),
{
    reveal_strlit(" ");
    lemma_repeat_push(" "@, n);
    assert(" "@ =~= seq![' ']);
}

pub proof fn lemma_repeat_push(s: Seq<char>, n: nat)
    ensures
        repeat(s, n + 1) == repeat(s, n) + s,
    decreases n,
{
    if n > 0 {
        lemma_repeat_push(s, (n - 1) as nat);
    }
}

fn align_cell(s: &Vec<char>, w: usize, a: Align) -> (r: Vec<char>)
    ensures
        r@ == align_cell_spec(s@, w as nat, a),
{
    let cw = display_width_cell(s);
    if cw >= w {
        return s.clone();
    }
    let pad = w - cw;
    let mut r: Vec<char> = Vec::new();
    match a {
        Align::Left => {
            append_vec(&mut r, s);
            push_spaces_vec(&mut r, pad);
        },
        Align::Right => {
            push_spaces_vec(&mut r, pad);
            append_vec(&mut r, s);
        },
        Align::Center => {
            let l = pad / 2;
            push_spaces_vec(&mut r, l);
            append_vec(&mut r, s);
            push_spaces_vec(&mut r, pad - l);
        },
    }
    r
}

// ---------------------------------------------------------------------
// Wrapping a cell
// ---------------------------------------------------------------------

/// A word too wide for `w` cut into lines of `w` characters (after
/// `lines`); what remains, no wider than `w`, is returned beside them.
pub open spec fn cut_long(r: Seq<char>, w: nat, lines: Seq<Seq<char>>) -> (Seq<Seq<char>>, Seq<char>)
    decreases r.len(),
{
    if w == 0 || r.len() == 0 || display_width_spec(r) <= w {
        (lines, r)
    } else {
        let n = if w <= r.len() { w as int } else { r.len() as int };
        cut_long(r.skip(n), w, lines.push(r.take(n)))
    }
}

/// One word placed: a word wider than the width ends the current line and
/// is cut; one that fits on the current line joins it after a space;
/// otherwise it starts a new line.
pub open spec fn wrap_word(st: (Seq<Seq<char>>, Seq<char>), word: Seq<char>, w: nat) -> (Seq<Seq<char>>, Seq<char>) {
    let lines = st.0;
    let cur = st.1;
    let wd = display_width_spec(word) as nat;
    if wd > w {
        cut_long(word, w, if cur.len() > 0 { lines.push(cur) } else { lines })
    } else if cur.len() == 0 {
        (lines, word)
    } else if display_width_spec(cur) + 1 + wd <= w {
        (lines, cur + " "@ + word)
    } else {
        (lines.push(cur), word)
    }
}

/// The words placed one after the other: the finished lines and the current one.
pub open spec fn wrap_words(ws: Seq<Seq<char>>, w: nat) -> (Seq<Seq<char>>, Seq<char>)
    decreases ws.len(),
{
    if ws.len() == 0 {
        (Seq::empty(), Seq::empty())
    } else {
        wrap_word(wrap_words(ws.drop_last(), w), ws.last(), w)
    }
}

/// One paragraph of a cell wrapped: as it is where it fits, else its words
/// placed, the last line kept unless empty.
pub open spec fn wrap_para(p: Seq<char>, w: nat) -> Seq<Seq<char>> {
    if display_width_spec(p) <= w {
        seq![p]
    } else {
        let st = wrap_words(words(p), w);
        if st.1.len() > 0 { st.0.push(st.1) } else { st.0 }
    }
}

/// The paragraphs wrapped, one after the other.
pub open spec fn wrap_paras(ps: Seq<Seq<char>>, w: nat) -> Seq<Seq<char>>
    decreases ps.len(),
{
    if ps.len() == 0 {
        Seq::empty()
    } else {
        wrap_paras(ps.drop_last(), w) + wrap_para(ps.last(), w)
    }
}

/// A cell word-wrapped to `w`: each paragraph wrapped; one empty line
/// where that gives none or the width is 0.
pub open spec fn wrap_cell_spec(s: Seq<char>, w: nat) -> Seq<Seq<char>> {
    if w == 0 {
        seq![Seq::empty()]
    } else {
        let ls = wrap_paras(split_char(s, '\n'), w);
        if ls.len() == 0 { seq![Seq::empty()] } else { ls }
    }
}

fn cut_long_exec(word: &Vec<char>, w: usize, lines: &mut Vec<Vec<char>>) -> (rest: Vec<char>)
    requires
        w > 0,
    ensures
        cut_long(word@, w as nat, vviews(old(lines)@)) == (vviews(final(lines)@), rest@),
{
    let mut r = word.clone();
    while r.len() > 0 && display_width_cell(&r) > w
        invariant
            w > 0,
            cut_long(r@, w as nat, vviews(lines@)) == cut_long(word@, w as nat, vviews(old(lines)@)),
        decreases r@.len(),
    {
        let n = r.len();
        let k: usize = if w <= n { w } else { n };
        let head = slice_vec(&r, 0, k);
        let tail = slice_vec(&r, k, n);
        assert(head@ == r@.take(k as int));
        assert(tail@ == r@.skip(k as int));
        let ghost before = vviews(lines@);
        lines.push(head);
        assert(vviews(lines@) =~= before.push(head@));
        r = tail;
    }
    r
}

fn wrap_para_exec(p: &Vec<char>, w: usize) -> (r: Vec<Vec<char>>)
    requires
        w > 0,
    ensures
        vviews(r@) == wrap_para(p@, w as nat),
{
    if display_width_cell(p) <= w {
        let mut r: Vec<Vec<char>> = Vec::new();
        r.push(p.clone());
        assert(vviews(r@) =~= seq![p@]);
        return r;
    }
    let ws = words_exec(p);
    let ghost wv = vviews(ws@);
    let mut lines: Vec<Vec<char>> = Vec::new();
    let mut cur: Vec<char> = Vec::new();
    let mut i: usize = 0;
    assert(vviews(lines@) =~= Seq::<Seq<char>>::empty());
    while i < ws.len()
        invariant
            w > 0,
            i <= ws@.len(),
            wv == vviews(ws@),
            wv == words(p@),
            (vviews(lines@), cur@) == wrap_words(wv.take(i as int), w as nat),
        decreases ws@.len() - i,
    {
        assert(wv.take(i + 1).drop_last() == wv.take(i as int));
        assert(wv.take(i + 1).last() == ws@[i as int]@);
        let word = &ws[i];
        let wd = display_width_cell(word);
        if wd > w {
            if cur.len() > 0 {
                let ghost before = vviews(lines@);
                lines.push(cur);
                assert(vviews(lines@) =~= before.push(lines@.last()@));
            }
            cur = cut_long_exec(word, w, &mut lines);
        } else if cur.len() == 0 {
            cur = word.clone();
        } else {
            let cw = display_width_cell(&cur);
            if (cw as u128) + 1 + (wd as u128) <= w as u128 {
                cur.push(' ');
                append_vec(&mut cur, word);
                proof { reveal_strlit(" "); assert(" "@ =~= seq![' ']); }
            } else {
                let ghost before = vviews(lines@);
                lines.push(cur);
                assert(vviews(lines@) =~= before.push(lines@.last()@));
                cur = word.clone();
            }
        }
        i += 1;
    }
    assert(wv.take(ws@.len() as int) == wv);
    if cur.len() > 0 {
        let ghost before = vviews(lines@);
        lines.push(cur);
        assert(vviews(lines@) =~= before.push(lines@.last()@));
    }
    lines
}

/// Word-wrap `s` so every returned line's display width is at most `w`
/// where that can be had: breaks on whitespace, and long words are cut
/// at `w` characters.
fn wrap_cell(s: &Vec<char>, w: usize) -> (r: Vec<Vec<char>>)
    ensures
        vviews(r@) == wrap_cell_spec(s@, w as nat),
{
    if w == 0 {
        let mut r: Vec<Vec<char>> = Vec::new();
        r.push(Vec::new());
        assert(vviews(r@) =~= seq![Seq::<char>::empty()]);
        return r;
    }
    let paras = split_chars(s, '\n');
    let ghost pv = vviews(paras@);
    assert(pv =~= split_char(s@, '\n'));
    let mut lines: Vec<Vec<char>> = Vec::new();
    let mut k: usize = 0;
    assert(vviews(lines@) =~= wrap_paras(pv.take(0), w as nat));
    while k < paras.len()
        invariant
            w > 0,
            k <= paras@.len(),
            pv == vviews(paras@),
            vviews(lines@) == wrap_paras(pv.take(k as int), w as nat),
        decreases paras@.len() - k,
    {
        assert(pv.take(k + 1).drop_last() == pv.take(k as int));
        assert(pv.take(k + 1).last() == paras@[k as int]@);
        let more = wrap_para_exec(&paras[k], w);
        let mut j: usize = 0;
        let ghost base = vviews(lines@);
        while j < more.len()
            invariant
                j <= more@.len(),
                vviews(lines@) == base + vviews(more@).take(j as int),
            decreases more@.len() - j,
        {
            let ghost before = vviews(lines@);
            let item = more[j].clone();
            assert(item@ == vviews(more@)[j as int]);
            lines.push(item);
            assert(vviews(lines@) =~= before.push(item@));
            assert(vviews(more@).take(j + 1) == vviews(more@).take(j as int).push(item@));
            assert(vviews(lines@) =~= base + vviews(more@).take(j + 1));
            j += 1;
        }
        assert(vviews(more@).take(more@.len() as int) == vviews(more@));
        k += 1;
    }
    assert(pv.take(paras@.len() as int) == pv);
    if lines.len() == 0 {
        lines.push(Vec::new());
        assert(vviews(lines@) =~= seq![Seq::<char>::empty()]);
    }
    lines
}


// ---------------------------------------------------------------------
// Tables
// ---------------------------------------------------------------------

/// Integers as naturals.
pub open spec fn nats(ws: Seq<usize>) -> Seq<nat> {
    ws.map_values(|w: usize| w as nat)
}

/// The sum of `ws`.
pub open spec fn sum_of(ws: Seq<nat>) -> nat
    decreases ws.len(),
{
    if ws.len() == 0 {
        0
    } else {
        sum_of(ws.drop_last()) + ws.last()
    }
}

/// The first position at or after `i` holding `m` (the length where none does).
pub open spec fn first_at(ws: Seq<nat>, m: nat, i: int) -> int
    decreases ws.len() - i,
{
    if i < 0 || i >= ws.len() {
        ws.len() as int
    } else if ws[i] == m {
        i
    } else {
        first_at(ws, m, i + 1)
    }
}

pub proof fn lemma_sum_update(ws: Seq<nat>, i: int, v: nat)
    requires
        0 <= i < ws.len(),
    ensures
        sum_of(ws.update(i, v)) + ws[i] == sum_of(ws) + v,
    decreases ws.len(),
{
    let u = ws.update(i, v);
    if i < ws.len() - 1 {
        lemma_sum_update(ws.drop_last(), i, v);
        assert(u.drop_last() =~= ws.drop_last().update(i, v));
    } else {
        assert(u.drop_last() =~= ws.drop_last());
    }
}

pub proof fn lemma_first_max(ws: Seq<nat>)
    requires
        ws.len() > 0,
    ensures
        0 <= first_at(ws, max_of(ws), 0) < ws.len(),
        ws[first_at(ws, max_of(ws), 0)] == max_of(ws),
{
    lemma_max_is_one(ws);
    let m = max_of(ws);
    let k = choose|k: int| 0 <= k < ws.len() && ws[k] == m;
    lemma_first_at(ws, m, 0, k);
}

pub proof fn lemma_max_is_one(ws: Seq<nat>)
    requires
        ws.len() > 0,
    ensures
        exists|k: int| 0 <= k < ws.len() && ws[k] == max_of(ws),
    decreases ws.len(),
{
    if ws.len() > 1 {
        lemma_max_is_one(ws.drop_last());
        let k = choose|k: int| 0 <= k < ws.len() - 1 && ws.drop_last()[k] == max_of(ws.drop_last());
        if ws.last() > max_of(ws.drop_last()) {
            assert(ws[ws.len() - 1] == max_of(ws));
        } else {
            assert(ws[k] == max_of(ws));
        }
    } else {
        assert(ws.drop_last().len() == 0);
        assert(max_of(ws.drop_last()) == 0);
        assert(ws[0] == max_of(ws));
    }
}

pub proof fn lemma_first_at(ws: Seq<nat>, m: nat, i: int, k: int)
    requires
        0 <= i <= k < ws.len(),
        ws[k] == m,
    ensures
        i <= first_at(ws, m, i) <= k,
        ws[first_at(ws, m, i)] == m,
    decreases k - i,
{
    if ws[i] != m {
        lemma_first_at(ws, m, i + 1, k);
    }
}

/// The column widths shrunk to fit `budget` with `overhead` besides:
/// while they do not fit, the first widest loses a column, until the
/// widest is 3 or less.
pub open spec fn shrink(ws: Seq<nat>, overhead: nat, budget: nat) -> Seq<nat>
    decreases sum_of(ws),
{
    if sum_of(ws) + overhead <= budget {
        ws
    } else {
        let m = max_of(ws);
        let k = first_at(ws, m, 0);
        if m <= 3 || k < 0 || k >= ws.len() {
            ws
        } else {
            proof {
                lemma_first_max(ws);
                lemma_sum_update(ws, k, (m - 1) as nat);
            }
            shrink(ws.update(k, (m - 1) as nat), overhead, budget)
        }
    }
}

/// The row widened to `n` cells by empty ones.
pub open spec fn norm_row(r: Seq<Seq<char>>, n: nat) -> Seq<Seq<char>> {
    Seq::new(n, |c: int| if c < r.len() { r[c] } else { Seq::empty() })
}

/// The number of columns: that of the longest row.
pub open spec fn n_cols(rows: Seq<Seq<Seq<char>>>) -> nat {
    max_of(rows.map_values(|r: Seq<Seq<char>>| r.len()))
}

/// A column's natural width: its widest cell, no more than 40, at least 1.
pub open spec fn col_width(rows: Seq<Seq<Seq<char>>>, n: nat, c: int) -> nat {
    let m = max_of(rows.map_values(|r: Seq<Seq<char>>| display_width_spec(norm_row(r, n)[c]) as nat));
    let m40 = if m <= 40 { m } else { 40 };
    if m40 >= 1 { m40 } else { 1 }
}

/// The line `li` of a wrapped cell, empty past its end.
pub open spec fn cell_at(ls: Seq<Seq<char>>, li: int) -> Seq<char> {
    if 0 <= li < ls.len() { ls[li] } else { Seq::empty() }
}

/// A row drawn: each cell wrapped to its column, and as many lines as
/// the tallest cell needs, each a space and the cells aligned in their
/// columns with ` │ ` between.
pub open spec fn format_row_spec(row: Seq<Seq<char>>, widths: Seq<nat>, aligns: Seq<Align>) -> Seq<char> {
    let wrapped = Seq::new(row.len(), |c: int| wrap_cell_spec(row[c], widths[c]));
    let max_lines = if row.len() == 0 { 1 } else { max_of(wrapped.map_values(|ls: Seq<Seq<char>>| ls.len())) };
    join(
        Seq::new(max_lines, |li: int|
            " "@ + join(Seq::new(row.len(), |c: int| align_cell_spec(cell_at(wrapped[c], li), widths[c], aligns[c])), " │ "@)),
        "\n"@,
    )
}

/// The rule under the header: `─` one wider than each column, `┼─`
/// between columns, after a space.
pub open spec fn header_spec(widths: Seq<nat>) -> Seq<char> {
    " "@ + join(widths.map_values(|w: nat| repeat("─"@, w + 1)), "┼─"@)
}

/// A table drawn: the header row, the rule, the body rows. Rows are
/// widened to the longest; columns take their natural widths, shrunk to
/// fit `max_width` with three columns of framing per column; columns
/// without an alignment are left-aligned.
pub open spec fn format_table_spec(rows: Seq<Seq<Seq<char>>>, aligns: Seq<Align>, max_width: nat) -> Seq<char> {
    let n = n_cols(rows);
    if rows.len() == 0 || n == 0 {
        Seq::empty()
    } else {
        let ws = shrink(Seq::new(n, |c: int| col_width(rows, n, c)), 3 * n, max_width);
        let al = Seq::new(n, |c: int| if c < aligns.len() { aligns[c] } else { Align::Left });
        format_row_spec(norm_row(rows[0], n), ws, al) + "\n"@ + header_spec(ws) + "\n"@
            + join(Seq::new((rows.len() - 1) as nat, |i: int| format_row_spec(norm_row(rows[i + 1], n), ws, al)), "\n"@)
    }
}

fn sum_exec(ws: &Vec<usize>) -> (r: u128)
    requires
        forall|k: int| 0 <= k < ws@.len() ==> ws@[k] <= 40,
    ensures
        r == sum_of(nats(ws@)),
        r <= 40 * ws@.len(),
{
    let ghost nv = nats(ws@);
    let mut acc: u128 = 0;
    let mut i: usize = 0;
    while i < ws.len()
        invariant
            i <= ws@.len(),
            nv == nats(ws@),
            forall|k: int| 0 <= k < ws@.len() ==> ws@[k] <= 40,
            acc == sum_of(nv.take(i as int)),
            acc <= 40 * i,
        decreases ws@.len() - i,
    {
        assert(nv.take(i + 1).drop_last() == nv.take(i as int));
        acc = acc + ws[i] as u128;
        i += 1;
    }
    assert(nv.take(ws@.len() as int) == nv);
    acc
}

fn max_exec(ws: &Vec<usize>) -> (r: usize)
    ensures
        r == max_of(nats(ws@)),
{
    let ghost nv = nats(ws@);
    let mut m: usize = 0;
    let mut i: usize = 0;
    while i < ws.len()
        invariant
            i <= ws@.len(),
            nv == nats(ws@),
            m == max_of(nv.take(i as int)),
        decreases ws@.len() - i,
    {
        assert(nv.take(i + 1).drop_last() == nv.take(i as int));
        if ws[i] > m {
            m = ws[i];
        }
        i += 1;
    }
    assert(nv.take(ws@.len() as int) == nv);
    m
}

fn first_at_exec(ws: &Vec<usize>, m: usize) -> (r: usize)
    ensures
        r == first_at(nats(ws@), m as nat, 0),
{
    let ghost nv = nats(ws@);
    let mut i: usize = 0;
    while i < ws.len() && ws[i] != m
        invariant
            i <= ws@.len(),
            nv == nats(ws@),
            first_at(nv, m as nat, i as int) == first_at(nv, m as nat, 0),
        decreases ws@.len() - i,
    {
        i += 1;
    }
    i
}

fn shrink_exec(ws: &mut Vec<usize>, overhead: u128, budget: usize)
    requires
        forall|k: int| 0 <= k < old(ws)@.len() ==> old(ws)@[k] <= 40,
        overhead <= 3 * usize::MAX,
    ensures
        nats(final(ws)@) == shrink(nats(old(ws)@), overhead as nat, budget as nat),
        final(ws)@.len() == old(ws)@.len(),
        forall|k: int| 0 <= k < final(ws)@.len() ==> final(ws)@[k] <= 40,
{
    loop
        invariant
            overhead <= 3 * usize::MAX,
            forall|k: int| 0 <= k < ws@.len() ==> ws@[k] <= 40,
            ws@.len() == old(ws)@.len(),
            shrink(nats(ws@), overhead as nat, budget as nat) == shrink(nats(old(ws)@), overhead as nat, budget as nat),
        decreases sum_of(nats(ws@)),
    {
        let total = sum_exec(ws);
        let n = ws.len();
        assert(total <= 40 * n);
        assert(n <= usize::MAX && usize::MAX <= u64::MAX);
        assert(total + overhead <= 43 * (u64::MAX as int));
        if total + overhead <= budget as u128 {
            return;
        }
        let m = max_exec(ws);
        if m <= 3 {
            return;
        }
        let k = first_at_exec(ws, m);
        proof {
            lemma_first_max(nats(ws@));
            lemma_sum_update(nats(ws@), k as int, (m - 1) as nat);
        }
        let ghost before = nats(ws@);
        ws.set(k, m - 1);
        assert(nats(ws@) =~= before.update(k as int, (m - 1) as nat));
    }
}

fn header_separator(widths: &Vec<usize>) -> (r: String)
    requires
        forall|k: int| 0 <= k < widths@.len() ==> widths@[k] < usize::MAX,
    ensures
        r@ == header_spec(nats(widths@)),
{
    let ghost bars = nats(widths@).map_values(|w: nat| repeat("─"@, w + 1));
    let mut parts: Vec<String> = Vec::new();
    let mut i: usize = 0;
    while i < widths.len()
        invariant
            i <= widths@.len(),
            forall|k: int| 0 <= k < widths@.len() ==> widths@[k] < usize::MAX,
            bars == nats(widths@).map_values(|w: nat| repeat("─"@, w + 1)),
            parts@.len() == i,
            forall|q: int| 0 <= q < i ==> #[trigger] parts@[q]@ == bars[q],
        decreases widths@.len() - i,
    {
        parts.push(repeat_str("─", widths[i] + 1));
        i += 1;
    }
    assert(views(parts@) =~= bars);
    let mut s = String::from_str(" ");
    let body = join_strings(&parts, "┼─");
    s.append(body.as_str());
    s
}

/// The views of rows of cells.
pub open spec fn rows_views(rows: Seq<Vec<Vec<char>>>) -> Seq<Seq<Seq<char>>> {
    rows.map_values(|r: Vec<Vec<char>>| vviews(r@))
}

fn format_row(row: &Vec<Vec<char>>, widths: &Vec<usize>, aligns: &Vec<Align>) -> (r: String)
    requires
        row@.len() <= widths@.len(),
        row@.len() <= aligns@.len(),
    ensures
        r@ == format_row_spec(vviews(row@), nats(widths@), aligns@),
{
    let ghost rv = vviews(row@);
    let ghost wv = nats(widths@);
    let ghost wrapped_spec = Seq::new(rv.len(), |c: int| wrap_cell_spec(rv[c], wv[c]));
    let mut wrapped: Vec<Vec<Vec<char>>> = Vec::new();
    let mut c: usize = 0;
    while c < row.len()
        invariant
            c <= row@.len(),
            row@.len() <= widths@.len(),
            rv == vviews(row@),
            wv == nats(widths@),
            wrapped_spec == Seq::new(rv.len(), |c: int| wrap_cell_spec(rv[c], wv[c])),
            wrapped@.len() == c,
            forall|q: int| 0 <= q < c ==> vviews(#[trigger] wrapped@[q]@) == wrapped_spec[q],
        decreases row@.len() - c,
    {
        wrapped.push(wrap_cell(&row[c], widths[c]));
        c += 1;
    }
    let ghost lens = wrapped_spec.map_values(|ls: Seq<Seq<char>>| ls.len());
    let mut max_lines: usize = 0;
    let mut q: usize = 0;
    while q < wrapped.len()
        invariant
            q <= wrapped@.len(),
            wrapped@.len() == rv.len(),
            wrapped_spec.len() == rv.len(),
            lens == wrapped_spec.map_values(|ls: Seq<Seq<char>>| ls.len()),
            forall|k: int| 0 <= k < wrapped@.len() ==> vviews(#[trigger] wrapped@[k]@) == wrapped_spec[k],
            max_lines == max_of(lens.take(q as int)),
        decreases wrapped@.len() - q,
    {
        assert(lens.take(q + 1).drop_last() == lens.take(q as int));
        assert(lens[q as int] == wrapped@[q as int]@.len());
        if wrapped[q].len() > max_lines {
            max_lines = wrapped[q].len();
        }
        q += 1;
    }
    assert(lens.take(wrapped@.len() as int) == lens);
    if row.len() == 0 {
        max_lines = 1;
    }
    let ghost line_spec = Seq::new(max_lines as nat, |li: int|
        " "@ + join(Seq::new(rv.len(), |c: int| align_cell_spec(cell_at(wrapped_spec[c], li), wv[c], aligns@[c])), " │ "@));
    let mut lines: Vec<String> = Vec::new();
    let mut li: usize = 0;
    while li < max_lines
        invariant
            li <= max_lines,
            row@.len() <= widths@.len(),
            row@.len() <= aligns@.len(),
            wrapped@.len() == rv.len(),
            rv == vviews(row@),
            wv == nats(widths@),
            wrapped_spec.len() == rv.len(),
            forall|k: int| 0 <= k < wrapped@.len() ==> vviews(#[trigger] wrapped@[k]@) == wrapped_spec[k],
            line_spec == Seq::new(max_lines as nat, |li: int|
                " "@ + join(Seq::new(rv.len(), |c: int| align_cell_spec(cell_at(wrapped_spec[c], li), wv[c], aligns@[c])), " │ "@)),
            lines@.len() == li,
            forall|k: int| 0 <= k < li ==> #[trigger] lines@[k]@ == line_spec[k],
        decreases max_lines - li,
    {
        let ghost cells_spec = Seq::new(rv.len(), |c: int| align_cell_spec(cell_at(wrapped_spec[c], li as int), wv[c], aligns@[c]));
        let mut cells: Vec<String> = Vec::new();
        let mut ci: usize = 0;
        while ci < row.len()
            invariant
                ci <= row@.len(),
                row@.len() <= widths@.len(),
                row@.len() <= aligns@.len(),
                wrapped@.len() == rv.len(),
                wrapped_spec.len() == rv.len(),
                rv == vviews(row@),
                wv == nats(widths@),
                forall|k: int| 0 <= k < wrapped@.len() ==> vviews(#[trigger] wrapped@[k]@) == wrapped_spec[k],
                cells_spec == Seq::new(rv.len(), |c: int| align_cell_spec(cell_at(wrapped_spec[c], li as int), wv[c], aligns@[c])),
                cells@.len() == ci,
                forall|k: int| 0 <= k < ci ==> #[trigger] cells@[k]@ == cells_spec[k],
            decreases row@.len() - ci,
        {
            let ws_c = &wrapped[ci];
            let cell: Vec<char> = if li < ws_c.len() { ws_c[li].clone() } else { Vec::new() };
            assert(vviews(wrapped@[ci as int]@) == wrapped_spec[ci as int]);
            assert(cell@ == cell_at(wrapped_spec[ci as int], li as int));
            let a = align_cell(&cell, widths[ci], aligns[ci]);
            cells.push(string_of(&a));
            ci += 1;
        }
        assert(views(cells@) =~= cells_spec);
        let mut line = String::from_str(" ");
        let joined = join_strings(&cells, " │ ");
        line.append(joined.as_str());
        lines.push(line);
        li += 1;
    }
    assert(views(lines@) =~= line_spec);
    join_strings(&lines, "\n")
}


fn format_table_chars(rows: &Vec<Vec<Vec<char>>>, aligns: &Vec<Align>, max_width: usize) -> (r: String)
    ensures
        r@ == format_table_spec(rows_views(rows@), aligns@, max_width as nat),
{
    let ghost rv = rows_views(rows@);
    if rows.len() == 0 {
        return String::new();
    }
    let ghost lens = rv.map_values(|r: Seq<Seq<char>>| r.len());
    let mut n: usize = 0;
    let mut i: usize = 0;
    while i < rows.len()
        invariant
            i <= rows@.len(),
            rv == rows_views(rows@),
            lens == rv.map_values(|r: Seq<Seq<char>>| r.len()),
            n == max_of(lens.take(i as int)),
        decreases rows@.len() - i,
    {
        assert(lens.take(i + 1).drop_last() == lens.take(i as int));
        assert(lens[i as int] == rows@[i as int]@.len());
        if rows[i].len() > n {
            n = rows[i].len();
        }
        i += 1;
    }
    assert(lens.take(rows@.len() as int) == lens);
    assert(n == n_cols(rv));
    if n == 0 {
        return String::new();
    }
    // Rows widened to `n` cells.
    let mut nrows: Vec<Vec<Vec<char>>> = Vec::new();
    let mut k: usize = 0;
    while k < rows.len()
        invariant
            k <= rows@.len(),
            rv == rows_views(rows@),
            nrows@.len() == k,
            forall|q: int| 0 <= q < k ==> vviews(#[trigger] nrows@[q]@) == norm_row(rv[q], n as nat),
        decreases rows@.len() - k,
    {
        let mut r2: Vec<Vec<char>> = Vec::new();
        let mut c: usize = 0;
        while c < n
            invariant
                c <= n,
                rv == rows_views(rows@),
                k < rows@.len(),
                r2@.len() == c,
                forall|q: int| 0 <= q < c ==> #[trigger] r2@[q]@ == norm_row(rv[k as int], n as nat)[q],
            decreases n - c,
        {
            assert(rv[k as int] == vviews(rows@[k as int]@));
            if c < rows[k].len() {
                r2.push(rows[k][c].clone());
            } else {
                r2.push(Vec::new());
            }
            c += 1;
        }
        assert(vviews(r2@) =~= norm_row(rv[k as int], n as nat));
        nrows.push(r2);
        k += 1;
    }
    // Natural column widths.
    let ghost natural = Seq::new(n as nat, |c: int| col_width(rv, n as nat, c));
    let mut widths: Vec<usize> = Vec::new();
    let mut c: usize = 0;
    while c < n
        invariant
            c <= n,
            rv == rows_views(rows@),
            nrows@.len() == rows@.len(),
            forall|q: int| 0 <= q < rows@.len() ==> vviews(#[trigger] nrows@[q]@) == norm_row(rv[q], n as nat),
            natural == Seq::new(n as nat, |c: int| col_width(rv, n as nat, c)),
            widths@.len() == c,
            forall|q: int| 0 <= q < c ==> #[trigger] widths@[q] == natural[q],
            forall|q: int| 0 <= q < c ==> widths@[q] <= 40,
        decreases n - c,
    {
        let ghost dws = rv.map_values(|r: Seq<Seq<char>>| display_width_spec(norm_row(r, n as nat)[c as int]) as nat);
        let mut m: usize = 0;
        let mut j: usize = 0;
        while j < nrows.len()
            invariant
                j <= nrows@.len(),
                c < n,
                nrows@.len() == rows@.len(),
                rv == rows_views(rows@),
                forall|q: int| 0 <= q < rows@.len() ==> vviews(#[trigger] nrows@[q]@) == norm_row(rv[q], n as nat),
                dws == rv.map_values(|r: Seq<Seq<char>>| display_width_spec(norm_row(r, n as nat)[c as int]) as nat),
                m == max_of(dws.take(j as int)),
            decreases nrows@.len() - j,
        {
            assert(dws.take(j + 1).drop_last() == dws.take(j as int));
            assert(vviews(nrows@[j as int]@) == norm_row(rv[j as int], n as nat));
            assert(nrows@[j as int]@[c as int]@ == norm_row(rv[j as int], n as nat)[c as int]);
            let d = display_width_cell(&nrows[j][c]);
            if d > m {
                m = d;
            }
            j += 1;
        }
        assert(dws.take(nrows@.len() as int) == dws);
        let m40: usize = if m <= 40 { m } else { 40 };
        widths.push(if m40 >= 1 { m40 } else { 1 });
        c += 1;
    }
    assert(nats(widths@) =~= natural);
    shrink_exec(&mut widths, 3 * (n as u128), max_width);
    let ghost ws = shrink(natural, 3 * (n as nat), max_width as nat);
    assert(nats(widths@) == ws);
    // Alignments, one per column.
    let mut al: Vec<Align> = Vec::new();
    let mut c2: usize = 0;
    while c2 < n
        invariant
            c2 <= n,
            al@.len() == c2,
            forall|q: int| 0 <= q < c2 ==> #[trigger] al@[q] == (if q < aligns@.len() { aligns@[q] } else { Align::Left }),
        decreases n - c2,
    {
        if c2 < aligns.len() {
            al.push(aligns[c2]);
        } else {
            al.push(Align::Left);
        }
        c2 += 1;
    }
    let ghost alv = Seq::new(n as nat, |c: int| if c < aligns@.len() { aligns@[c] } else { Align::Left });
    assert(al@ =~= alv);
    assert(vviews(nrows@[0]@) == norm_row(rv[0], n as nat));
    let mut out = format_row(&nrows[0], &widths, &al);
    out.append("\n");
    let sep = header_separator(&widths);
    out.append(sep.as_str());
    out.append("\n");
    let ghost body_spec = Seq::new((rv.len() - 1) as nat, |i: int| format_row_spec(norm_row(rv[i + 1], n as nat), ws, alv));
    let mut body: Vec<String> = Vec::new();
    let mut b: usize = 1;
    while b < nrows.len()
        invariant
            1 <= b <= nrows@.len(),
            nrows@.len() == rows@.len(),
            rv == rows_views(rows@),
            rv.len() == rows@.len(),
            forall|q: int| 0 <= q < rows@.len() ==> vviews(#[trigger] nrows@[q]@) == norm_row(rv[q], n as nat),
            forall|q: int| 0 <= q < rows@.len() ==> (#[trigger] nrows@[q]@).len() == n,
            widths@.len() == n,
            al@.len() == n,
            nats(widths@) == ws,
            al@ == alv,
            body_spec == Seq::new((rv.len() - 1) as nat, |i: int| format_row_spec(norm_row(rv[i + 1], n as nat), ws, alv)),
            body@.len() == b - 1,
            forall|q: int| 0 <= q < b - 1 ==> #[trigger] body@[q]@ == body_spec[q],
        decreases nrows@.len() - b,
    {
        body.push(format_row(&nrows[b], &widths, &al));
        b += 1;
    }
    assert(views(body@) =~= body_spec);
    let rest = join_strings(&body, "\n");
    out.append(rest.as_str());
    out
}

/// The views of rows of strings.
pub open spec fn str_rows(rows: Seq<Vec<String>>) -> Seq<Seq<Seq<char>>> {
    rows.map_values(|r: Vec<String>| views(r@))
}

/// Render a table given a cell matrix and per-column alignments. The first
/// row is treated as the header. `max_width` is the total output budget;
/// the renderer clamps column widths so the whole frame fits.
pub fn format_table(rows: &[Vec<String>], aligns: &[Align], max_width: usize) -> (r: String)
    ensures
        r@ == format_table_spec(str_rows(rows@), aligns@, max_width as nat),
{
    let mut cr: Vec<Vec<Vec<char>>> = Vec::new();
    let mut i: usize = 0;
    while i < rows.len()
        invariant
            i <= rows@.len(),
            cr@.len() == i,
            forall|q: int| 0 <= q < i ==> vviews(#[trigger] cr@[q]@) == views(rows@[q]@),
        decreases rows@.len() - i,
    {
        let mut r: Vec<Vec<char>> = Vec::new();
        let mut j: usize = 0;
        while j < rows[i].len()
            invariant
                i < rows@.len(),
                j <= rows@[i as int]@.len(),
                r@.len() == j,
                forall|q: int| 0 <= q < j ==> #[trigger] r@[q]@ == rows@[i as int]@[q]@,
            decreases rows@[i as int]@.len() - j,
        {
            r.push(chars_of(rows[i][j].as_str()));
            j += 1;
        }
        assert(vviews(r@) =~= views(rows@[i as int]@));
        cr.push(r);
        i += 1;
    }
    assert(rows_views(cr@) =~= str_rows(rows@));
    let mut al: Vec<Align> = Vec::new();
    let mut k: usize = 0;
    while k < aligns.len()
        invariant
            k <= aligns@.len(),
            al@ == aligns@.take(k as int),
        decreases aligns@.len() - k,
    {
        al.push(aligns[k]);
        assert(aligns@.take(k + 1) == aligns@.take(k as int).push(aligns@[k as int]));
        k += 1;
    }
    assert(aligns@.take(aligns@.len() as int) == aligns@);
    format_table_chars(&cr, &al, max_width)
}

// ---------------------------------------------------------------------
// Markdown tables in a text
// ---------------------------------------------------------------------

/// The lines of `s`: split at every `\n`, each kept as it stands, so
/// that the lines joined by `\n` give `s` back.
pub open spec fn md_lines(s: Seq<char>) -> Seq<Seq<char>> {
    split_char(s, '\n')
}

/// The end of the run of pipe rows starting at `j`.
pub open spec fn pipe_end(lines: Seq<Seq<char>>, j: int) -> int
    decreases lines.len() - j,
{
    if 0 <= j < lines.len() && is_pipe_row_spec(lines[j]) {
        pipe_end(lines, j + 1)
    } else {
        j
    }
}

pub proof fn lemma_pipe_end(lines: Seq<Seq<char>>, j: int)
    requires
        0 <= j <= lines.len(),
    ensures
        j <= pipe_end(lines, j) <= lines.len(),
    decreases lines.len() - j,
{
    if j < lines.len() && is_pipe_row_spec(lines[j]) {
        lemma_pipe_end(lines, j + 1);
    }
}

/// The cells of a pipe row, trimmed.
pub open spec fn row_cells(line: Seq<char>) -> Seq<Seq<char>> {
    pipe_parts(line).map_values(|p: Seq<char>| trim(p))
}

/// The table whose header is `lines[i]`, with body rows `lines[i+2..j]`.
pub open spec fn table_rows(lines: Seq<Seq<char>>, i: int, j: int) -> Seq<Seq<Seq<char>>> {
    seq![row_cells(lines[i])] + Seq::new((j - (i + 2)) as nat, |k: int| row_cells(lines[i + 2 + k]))
}

/// The alignments of a separator row.
pub open spec fn row_aligns(line: Seq<char>) -> Seq<Align> {
    pipe_parts(line).map_values(|p: Seq<char>| align_of(trim(p)))
}

/// The lines from `i` on, with `out` written so far: a pipe row followed
/// by a separator row starts a table, which takes the pipe rows after
/// the separator and is drawn in their place; every other line is kept.
pub open spec fn md_go(lines: Seq<Seq<char>>, i: int, out: Seq<Seq<char>>, max_width: nat) -> Seq<Seq<char>>
    decreases lines.len() - i,
{
    if i < 0 || i >= lines.len() {
        out
    } else if is_pipe_row_spec(lines[i]) && i + 1 < lines.len() && is_md_separator_spec(lines[i + 1]) {
        let j = pipe_end(lines, i + 2);
        proof { lemma_pipe_end(lines, i + 2); }
        md_go(lines, j, out.push(format_table_spec(table_rows(lines, i, j), row_aligns(lines[i + 1]), max_width)), max_width)
    } else {
        md_go(lines, i + 1, out.push(lines[i]), max_width)
    }
}

/// What `format_markdown_tables` returns.
pub open spec fn format_md_spec(body: Seq<char>, max_width: nat) -> Seq<char> {
    join(md_go(md_lines(body), 0, Seq::empty(), max_width), "\n"@)
}

fn md_lines_exec(body: &Vec<char>) -> (r: Vec<Vec<char>>)
    ensures
        vviews(r@) == md_lines(body@),
{
    let r = split_chars(body, '\n');
    assert(vviews(r@) =~= md_lines(body@));
    r
}

fn pipe_end_exec(lines: &Vec<Vec<char>>, j: usize) -> (r: usize)
    requires
        j <= lines@.len(),
    ensures
        r == pipe_end(vviews(lines@), j as int),
{
    let ghost lv = vviews(lines@);
    let mut k = j;
    while k < lines.len() && is_pipe_row(&lines[k])
        invariant
            j <= k <= lines@.len(),
            lv == vviews(lines@),
            pipe_end(lv, k as int) == pipe_end(lv, j as int),
        decreases lines@.len() - k,
    {
        assert(lv[k as int] == lines@[k as int]@);
        k += 1;
    }
    proof {
        if k < lines@.len() {
            assert(lv[k as int] == lines@[k as int]@);
        }
    }
    k
}

/// Scan `body` for Markdown tables and replace each with a Unicode-box
/// formatted block sized to fit within `max_width` columns. Non-table text
/// passes through verbatim.
///
/// A Markdown table is recognised by:
/// - a header row of the form `| cell | cell | ... |`
/// - followed by a separator `| --- | ---: |` etc.
/// - followed by zero or more body rows of the same shape.
pub fn format_markdown_tables(body: &str, max_width: usize) -> (r: String)
    ensures
        r@ == format_md_spec(body@, max_width as nat),
{
    let bv = chars_of(body);
    let lines = md_lines_exec(&bv);
    let ghost lv = vviews(lines@);
    let ghost goal = md_go(lv, 0, Seq::empty(), max_width as nat);
    let mut out: Vec<String> = Vec::new();
    assert(views(out@) =~= Seq::<Seq<char>>::empty());
    let mut i: usize = 0;
    while i < lines.len()
        invariant
            i <= lines@.len(),
            lv == vviews(lines@),
            lv == md_lines(bv@),
            bv@ == body@,
            md_go(lv, i as int, views(out@), max_width as nat) == goal,
        decreases lines@.len() - i,
    {
        let ghost out0 = views(out@);
        assert(lv[i as int] == lines@[i as int]@);
        let mut table = false;
        if is_pipe_row(&lines[i]) && i + 1 < lines.len() {
            assert(lv[i + 1] == lines@[i + 1]@);
            if is_md_separator(&lines[i + 1]) {
                table = true;
            }
        }
        if table {
            let j = pipe_end_exec(&lines, i + 2);
            proof { lemma_pipe_end(lv, i + 2); }
            let ghost tr = table_rows(lv, i as int, j as int);
            let mut rows: Vec<Vec<Vec<char>>> = Vec::new();
            rows.push(split_pipe_row(&lines[i]));
            let mut k = i + 2;
            while k < j
                invariant
                    i + 2 <= k <= j <= lines@.len(),
                    lv == vviews(lines@),
                    tr == table_rows(lv, i as int, j as int),
                    rows@.len() == k - (i + 1),
                    forall|q: int| 0 <= q < rows@.len() ==> vviews(#[trigger] rows@[q]@) == tr[q],
                decreases j - k,
            {
                assert(lv[k as int] == lines@[k as int]@);
                rows.push(split_pipe_row(&lines[k]));
                k += 1;
            }
            assert(rows_views(rows@) =~= tr);
            let aligns = parse_md_alignments(&lines[i + 1]);
            let t = format_table_chars(&rows, &aligns, max_width);
            out.push(t);
            assert(views(out@) =~= out0.push(t@));
            i = j;
        } else {
            let s = string_of(&lines[i]);
            out.push(s);
            assert(views(out@) =~= out0.push(lines@[i as int]@));
            i += 1;
        }
    }
    join_strings(&out, "\n")
}


/// The cleaned prose never has two blank lines in a row.
pub proof fn law_prose_never_two_blank_lines(lines: Seq<Seq<char>>)
    ensures
        forall|i: int| 0 <= i < prose_lines(lines).len() - 1
            ==> !(is_blank(#[trigger] prose_lines(lines)[i]) && is_blank(prose_lines(lines)[i + 1])),
    decreases lines.len(),
{
    if lines.len() > 0 {
        law_prose_never_two_blank_lines(lines.drop_last());
        let p = prose_lines(lines.drop_last());
        let q = prose_lines(lines);
        assert forall|i: int| 0 <= i < q.len() - 1 implies !(is_blank(#[trigger] q[i]) && is_blank(q[i + 1])) by {
            if i + 1 < p.len() {
                assert(q[i] == p[i] && q[i + 1] == p[i + 1]);
            } else {
                assert(q[i] == p[i]);
            }
        }
    }
}

/// Shrinking the columns ends with a table that fits the budget, or with
/// no column wider than 3 left to take from.
pub proof fn law_shrunk_columns_fit(ws: Seq<nat>, overhead: nat, budget: nat)
    ensures
        sum_of(shrink(ws, overhead, budget)) + overhead <= budget || max_of(shrink(ws, overhead, budget)) <= 3,
    decreases sum_of(ws),
{
    if sum_of(ws) + overhead > budget {
        let m = max_of(ws);
        let k = first_at(ws, m, 0);
        if m > 3 && 0 <= k < ws.len() {
            lemma_first_max(ws);
            lemma_sum_update(ws, k, (m - 1) as nat);
            law_shrunk_columns_fit(ws.update(k, (m - 1) as nat), overhead, budget);
        } else if m > 3 {
            lemma_first_max(ws);
        }
    }
}


/// Lines that hold no pipe row are kept one for one.
proof fn lemma_lines_kept(lines: Seq<Seq<char>>, i: int, out: Seq<Seq<char>>, max_width: nat)
    requires
        0 <= i <= lines.len(),
        forall|k: int| 0 <= k < lines.len() ==> !is_pipe_row_spec(#[trigger] lines[k]),
    ensures
        md_go(lines, i, out, max_width) == out + lines.skip(i),
    decreases lines.len() - i,
{
    if i < lines.len() {
        lemma_lines_kept(lines, i + 1, out.push(lines[i]), max_width);
        assert(out.push(lines[i]) + lines.skip(i + 1) =~= out + lines.skip(i));
    } else {
        assert(out + lines.skip(i) =~= out);
    }
}

/// Text without a pipe row comes back verbatim, whatever the width:
/// line endings, `\r` and a last newline included.
pub proof fn law_text_without_tables_passes_through(body: Seq<char>, max_width: nat)
    requires
        forall|k: int| 0 <= k < md_lines(body).len() ==> !is_pipe_row_spec(#[trigger] md_lines(body)[k]),
    ensures
        format_md_spec(body, max_width) == body,
{
    let lines = md_lines(body);
    lemma_lines_kept(lines, 0, Seq::empty(), max_width);
    assert(Seq::<Seq<char>>::empty() + lines.skip(0) =~= lines);
    crate::chars::lemma_join_split(body, '\n');
    reveal_strlit("\n");
    assert("\n"@ =~= seq!['\n']);
}

/// A closing mark that no space may stand before.
pub open spec fn is_closer(c: char) -> bool {
    is_stop(c) || c == ')' || c == ']'
}

/// No two spaces in a row, and no space before closing punctuation.
pub open spec fn squeezed(out: Seq<char>) -> bool {
    forall|j: int| 0 <= j < out.len() - 1 && out[j] == ' ' ==> out[j + 1] != ' ' && !is_closer(#[trigger] out[j + 1])
}

/// Where `out` ends with a space, the next character after the spaces
/// from `i` on is no closing mark.
pub open spec fn space_ok(b: Seq<char>, i: int, out: Seq<char>) -> bool {
    out.len() > 0 && out.last() == ' ' ==> space_end(b, i) >= b.len() || !is_closer(b[space_end(b, i)])
}

proof fn lemma_push_squeezed(out: Seq<char>, c: char)
    requires
        squeezed(out),
        out.len() > 0 && out.last() == ' ' ==> c != ' ' && !is_closer(c),
    ensures
        squeezed(out.push(c)),
{
    let o2 = out.push(c);
    assert forall|j: int| 0 <= j < o2.len() - 1 && o2[j] == ' ' implies o2[j + 1] != ' ' && !is_closer(#[trigger] o2[j + 1]) by {
        assert(o2[j] == out[j]);
        if j < out.len() - 1 {
            assert(o2[j + 1] == out[j + 1]);
        }
    }
}

proof fn lemma_tidy_squeezes(b: Seq<char>, i: int, out: Seq<char>)
    requires
        0 <= i <= b.len(),
        squeezed(out),
        space_ok(b, i, out),
        out.len() > 0 ==> out[0] != ' ',
    ensures
        squeezed(tidy_go(b, i, out)),
        tidy_go(b, i, out).len() > 0 ==> tidy_go(b, i, out)[0] != ' ',
    decreases b.len() - i,
{
    if i < b.len() {
        let c = b[i];
        if c == '(' || c == '[' {
            let close = if c == '(' { ')' } else { ']' };
            let k = fill_end(b, i + 1);
            lemma_fill_end_bound(b, i + 1);
            if k < b.len() && b[k] == close {
                let e = space_end(b, k + 1);
                if e < b.len() && is_closer(b[e]) {
                    lemma_drop_spaces_squeezed(out);
                    lemma_drop_spaces_ends(out);
                    lemma_tidy_squeezes(b, k + 1, drop_spaces(out));
                } else {
                    lemma_tidy_squeezes(b, k + 1, out);
                }
            } else {
                lemma_push_squeezed(out, c);
                lemma_tidy_squeezes(b, k, out.push(c));
            }
        } else if c == ' ' {
            let k = space_end(b, i);
            lemma_space_end(b, i);
            lemma_space_end_stops(b, i);
            let keep = !(k < b.len() && is_closer(b[k])) && out.len() > 0 && out.last() != ' ';
            if keep {
                lemma_push_squeezed(out, ' ');
                lemma_tidy_squeezes(b, k, out.push(' '));
            } else {
                lemma_tidy_squeezes(b, k, out);
            }
        } else {
            lemma_push_squeezed(out, c);
            lemma_tidy_squeezes(b, i + 1, out.push(c));
        }
    }
}

proof fn lemma_fill_end_bound(b: Seq<char>, k: int)
    requires
        0 <= k <= b.len(),
    ensures
        k <= fill_end(b, k) <= b.len(),
    decreases b.len() - k,
{
    if k < b.len() && is_fill(b[k]) {
        lemma_fill_end_bound(b, k + 1);
    }
}

proof fn lemma_drop_spaces_ends(out: Seq<char>)
    ensures
        drop_spaces(out).len() > 0 ==> drop_spaces(out).last() != ' ',
    decreases out.len(),
{
    if out.len() > 0 && out.last() == ' ' {
        lemma_drop_spaces_ends(out.drop_last());
    }
}

pub proof fn lemma_space_end_stops(b: Seq<char>, k: int)
    requires
        0 <= k <= b.len(),
    ensures
        space_end(b, k) < b.len() ==> b[space_end(b, k)] != ' ',
    decreases b.len() - k,
{
    if k < b.len() && b[k] == ' ' {
        lemma_space_end_stops(b, k + 1);
    }
}

proof fn lemma_drop_spaces_squeezed(out: Seq<char>)
    requires
        squeezed(out),
    ensures
        squeezed(drop_spaces(out)),
        drop_spaces(out).len() <= out.len(),
        forall|j: int| 0 <= j < drop_spaces(out).len() ==> drop_spaces(out)[j] == out[j],
    decreases out.len(),
{
    if out.len() > 0 && out.last() == ' ' {
        let d = out.drop_last();
        assert(squeezed(d)) by {
            assert forall|j: int| 0 <= j < d.len() - 1 && d[j] == ' ' implies d[j + 1] != ' ' && !is_closer(#[trigger] d[j + 1]) by {
                assert(d[j] == out[j] && d[j + 1] == out[j + 1]);
            }
        }
        lemma_drop_spaces_squeezed(d);
        assert forall|j: int| 0 <= j < drop_spaces(out).len() implies drop_spaces(out)[j] == out[j] by {
            assert(drop_spaces(out) == drop_spaces(d));
            assert(d[j] == out[j]);
        }
    }
}

/// A line of prose is tidied to words separated by single spaces, with
/// no space at its start (after the indentation) or before closing
/// punctuation.
pub proof fn law_tidy_squeezes_gaps(line: Seq<char>)
    ensures
        ({
            let ind = lead_from(line, 0, None);
            let body = drop_spaces(tidy_go(line.skip(ind), 0, Seq::empty()));
            &&& squeezed(body)
            &&& body.len() > 0 ==> body[0] != ' '
            &&& tidy_line_spec(line) == line.take(ind) + body
        }),
{
    let ind = lead_from(line, 0, None);
    lemma_lead_from(line, 0, None);
    let b = line.skip(ind);
    lemma_tidy_squeezes(b, 0, Seq::empty());
    lemma_drop_spaces_squeezed(tidy_go(b, 0, Seq::empty()));
}

// ---------------------------------------------------------------------
// How wide a drawn table is
// ---------------------------------------------------------------------

/// Every line of `s` shows at most `mw` columns.
pub open spec fn lines_fit(s: Seq<char>, mw: nat) -> bool {
    forall|k: int| 0 <= k < split_char(s, '\n').len() ==> display_width_spec(#[trigger] split_char(s, '\n')[k]) <= mw
}

proof fn lemma_fit_around(a: Seq<char>, b: Seq<char>, mw: nat)
    requires
        lines_fit(a, mw),
        lines_fit(b, mw),
    ensures
        lines_fit(a + "\n"@ + b, mw),
{
    reveal_strlit("\n");
    assert("\n"@ =~= seq!['\n']);
    lemma_split_around(a, b, '\n');
    let p = split_char(a, '\n');
    let q = split_char(b, '\n');
    assert forall|k: int| 0 <= k < (p + q).len() implies display_width_spec(#[trigger] (p + q)[k]) <= mw by {
        if k < p.len() {
            assert((p + q)[k] == p[k]);
        } else {
            assert((p + q)[k] == q[k - p.len()]);
        }
    }
}

proof fn lemma_fit_join(parts: Seq<Seq<char>>, mw: nat)
    requires
        forall|k: int| 0 <= k < parts.len() ==> lines_fit(#[trigger] parts[k], mw),
    ensures
        lines_fit(join(parts, "\n"@), mw),
    decreases parts.len(),
{
    if parts.len() == 0 {
        assert(split_char(Seq::<char>::empty(), '\n') =~= seq![Seq::<char>::empty()]);
        assert(display_width_spec(Seq::<char>::empty()) == 0) by {
            crate::lemma_plain_text(Seq::<char>::empty());
        }
    } else if parts.len() == 1 {
        assert(lines_fit(parts[0], mw));
    } else {
        let d = parts.drop_last();
        assert forall|k: int| 0 <= k < d.len() implies lines_fit(#[trigger] d[k], mw) by {
            assert(d[k] == parts[k]);
        }
        lemma_fit_join(d, mw);
        assert(lines_fit(parts[parts.len() - 1], mw));
        lemma_fit_around(join(d, "\n"@), parts.last(), mw);
    }
}

proof fn lemma_fit_line(s: Seq<char>, mw: nat)
    requires
        all_narrow(s),
        s.len() <= mw,
        mw <= usize::MAX,
    ensures
        lines_fit(s, mw),
{
    assert forall|i: int| 0 <= i < s.len() implies s[i] != '\n' by {
        assert(is_narrow(s[i]));
    }
    lemma_split_none(s, '\n');
    lemma_narrow_width(s);
}

/// Joined narrow parts of known lengths: narrow, and as long as the parts
/// and separators together.
proof fn lemma_join_narrow(parts: Seq<Seq<char>>, sep: Seq<char>, ws: Seq<nat>, extra: nat)
    requires
        parts.len() == ws.len(),
        all_narrow(sep),
        forall|k: int| 0 <= k < parts.len() ==> all_narrow(#[trigger] parts[k]) && parts[k].len() == ws[k] + extra,
    ensures
        all_narrow(join(parts, sep)),
        parts.len() >= 1 ==> join(parts, sep).len() == sum_of(ws) + extra * parts.len() + sep.len() * (parts.len() - 1),
    decreases parts.len(),
{
    if parts.len() == 0 {
    } else if parts.len() == 1 {
        assert(all_narrow(parts[0]));
        assert(ws.drop_last() =~= Seq::<nat>::empty());
        assert(sum_of(ws.drop_last()) == 0);
        assert(sum_of(ws) == ws[0]);
        let e = extra as int;
        let sl = sep.len() as int;
        assert(e * 1 == e && sl * 0 == 0) by (nonlinear_arith);
    } else {
        let d = parts.drop_last();
        assert forall|k: int| 0 <= k < d.len() implies all_narrow(#[trigger] d[k]) && d[k].len() == ws.drop_last()[k] + extra by {
            assert(d[k] == parts[k]);
        }
        lemma_join_narrow(d, sep, ws.drop_last(), extra);
        let j = join(d, sep);
        let l = parts.last();
        assert(all_narrow(parts[parts.len() - 1]));
        let r = j + sep + l;
        assert forall|i: int| 0 <= i < r.len() implies is_narrow(#[trigger] r[i]) by {
            if i < j.len() {
                assert(r[i] == j[i]);
            } else if i < j.len() + sep.len() {
                assert(r[i] == sep[i - j.len()]);
            } else {
                assert(r[i] == l[i - j.len() - sep.len()]);
            }
        }
        let n = parts.len() as int;
        let e = extra as int;
        let sl = sep.len() as int;
        assert(sum_of(ws) == sum_of(ws.drop_last()) + ws.last());
        assert(ws.last() == ws[n - 1]);
        assert(l.len() == ws[n - 1] + extra);
        assert(j.len() == sum_of(ws.drop_last()) + e * (n - 1) + sl * (n - 2));
        assert(e * (n - 1) + e == e * n) by (nonlinear_arith);
        assert(sl * (n - 2) + sl == sl * (n - 1)) by (nonlinear_arith);
        assert(r.len() == j.len() + sl + l.len());
        assert(r.len() == sum_of(ws) + e * n + sl * (n - 1));
    }
}

proof fn lemma_narrow_sub(s: Seq<char>, lo: int, hi: int)
    requires
        all_narrow(s),
        0 <= lo <= hi <= s.len(),
    ensures
        all_narrow(s.subrange(lo, hi)),
{
    assert forall|i: int| 0 <= i < hi - lo implies is_narrow(#[trigger] s.subrange(lo, hi)[i]) by {
        assert(s.subrange(lo, hi)[i] == s[lo + i]);
    }
}

proof fn lemma_lines_push(lines: Seq<Seq<char>>, l: Seq<char>, w: nat)
    requires
        narrow_lines_fit(lines, w),
        all_narrow(l),
        l.len() <= w,
    ensures
        narrow_lines_fit(lines.push(l), w),
{
    assert forall|k: int| 0 <= k < lines.len() + 1 implies all_narrow(#[trigger] lines.push(l)[k]) && lines.push(l)[k].len() <= w by {
        if k < lines.len() {
            assert(lines.push(l)[k] == lines[k]);
        }
    }
}

proof fn lemma_cut_long_fits(r: Seq<char>, w: nat, lines: Seq<Seq<char>>)
    requires
        1 <= w,
        all_narrow(r),
        r.len() <= usize::MAX,
        narrow_lines_fit(lines, w),
    ensures
        narrow_lines_fit(cut_long(r, w, lines).0, w),
        all_narrow(cut_long(r, w, lines).1),
        cut_long(r, w, lines).1.len() <= w,
    decreases r.len(),
{
    lemma_narrow_width(r);
    if r.len() > 0 && display_width_spec(r) > w {
        lemma_narrow_sub(r, 0, w as int);
        lemma_narrow_sub(r, w as int, r.len() as int);
        assert(r.take(w as int) == r.subrange(0, w as int));
        assert(r.skip(w as int) == r.subrange(w as int, r.len() as int));
        lemma_lines_push(lines, r.take(w as int), w);
        lemma_cut_long_fits(r.skip(w as int), w, lines.push(r.take(w as int)));
    }
}

proof fn lemma_words_narrow(s: Seq<char>)
    requires
        all_narrow(s),
    ensures
        forall|k: int| 0 <= k < words(s).len() ==> all_narrow(#[trigger] words(s)[k]) && words(s)[k].len() <= s.len(),
    decreases s.len(),
{
    if s.len() > 0 {
        let d = s.drop_last();
        lemma_narrow_sub(s, 0, s.len() - 1);
        assert(d == s.subrange(0, s.len() - 1));
        lemma_words_narrow(d);
        let p = words(d);
        let c = s.last();
        assert(is_narrow(c));
        if is_ws(c) {
        } else if s.len() >= 2 && !is_ws(s[s.len() - 2]) && p.len() > 0 {
            let l = p.last().push(c);
            let q = p.update(p.len() - 1, l);
            assert(all_narrow(p[p.len() - 1]) && p[p.len() - 1].len() <= d.len());
            assert(all_narrow(l)) by {
                assert forall|j: int| 0 <= j < l.len() implies is_narrow(#[trigger] l[j]) by {
                    if j < l.len() - 1 {
                        assert(l[j] == p.last()[j]);
                    }
                }
            }
            assert forall|k: int| 0 <= k < q.len() implies all_narrow(#[trigger] q[k]) && q[k].len() <= s.len() by {
                if k < p.len() - 1 {
                    assert(q[k] == p[k]);
                }
            }
        } else {
            let q = p.push(seq![c]);
            assert(all_narrow(seq![c]));
            assert forall|k: int| 0 <= k < q.len() implies all_narrow(#[trigger] q[k]) && q[k].len() <= s.len() by {
                if k < p.len() {
                    assert(q[k] == p[k]);
                }
            }
        }
    }
}

proof fn lemma_wrap_words_fit(ws: Seq<Seq<char>>, w: nat)
    requires
        1 <= w <= usize::MAX,
        forall|k: int| 0 <= k < ws.len() ==> all_narrow(#[trigger] ws[k]) && ws[k].len() <= usize::MAX,
    ensures
        narrow_lines_fit(wrap_words(ws, w).0, w),
        all_narrow(wrap_words(ws, w).1),
        wrap_words(ws, w).1.len() <= w,
    decreases ws.len(),
{
    if ws.len() > 0 {
        let d = ws.drop_last();
        assert forall|k: int| 0 <= k < d.len() implies all_narrow(#[trigger] d[k]) && d[k].len() <= usize::MAX by {
            assert(d[k] == ws[k]);
        }
        lemma_wrap_words_fit(d, w);
        let (lines, cur) = wrap_words(d, w);
        let word = ws.last();
        assert(all_narrow(ws[ws.len() - 1]));
        lemma_narrow_width(word);
        lemma_narrow_width(cur);
        let wd = display_width_spec(word) as nat;
        if wd > w {
            if cur.len() > 0 {
                lemma_lines_push(lines, cur, w);
            }
            lemma_cut_long_fits(word, w, if cur.len() > 0 { lines.push(cur) } else { lines });
        } else if cur.len() == 0 {
        } else if display_width_spec(cur) + 1 + wd <= w {
            reveal_strlit(" ");
            let j = cur + " "@ + word;
            assert forall|i: int| 0 <= i < j.len() implies is_narrow(#[trigger] j[i]) by {
                if i < cur.len() {
                    assert(j[i] == cur[i]);
                } else if i == cur.len() {
                    assert(j[i] == ' ');
                } else {
                    assert(j[i] == word[i - cur.len() - 1]);
                }
            }
        } else {
            lemma_lines_push(lines, cur, w);
        }
    }
}

proof fn lemma_wrap_paras_fit(ps: Seq<Seq<char>>, w: nat)
    requires
        1 <= w <= usize::MAX,
        forall|k: int| 0 <= k < ps.len() ==> all_narrow(#[trigger] ps[k]) && ps[k].len() <= usize::MAX,
    ensures
        narrow_lines_fit(wrap_paras(ps, w), w),
    decreases ps.len(),
{
    if ps.len() > 0 {
        let d = ps.drop_last();
        assert forall|k: int| 0 <= k < d.len() implies all_narrow(#[trigger] d[k]) && d[k].len() <= usize::MAX by {
            assert(d[k] == ps[k]);
        }
        lemma_wrap_paras_fit(d, w);
        let p = ps.last();
        assert(all_narrow(ps[ps.len() - 1]));
        lemma_narrow_width(p);
        let a = wrap_paras(d, w);
        let b = wrap_para(p, w);
        if display_width_spec(p) > w {
            lemma_words_narrow(p);
            lemma_wrap_words_fit(words(p), w);
            let st = wrap_words(words(p), w);
            if st.1.len() > 0 {
                lemma_lines_push(st.0, st.1, w);
            }
        }
        assert(narrow_lines_fit(b, w));
        assert forall|k: int| 0 <= k < (a + b).len() implies all_narrow(#[trigger] (a + b)[k]) && (a + b)[k].len() <= w by {
            if k < a.len() {
                assert((a + b)[k] == a[k]);
            } else {
                assert((a + b)[k] == b[k - a.len()]);
            }
        }
    }
}

/// A cell of narrow characters and line feeds wraps into narrow lines no
/// wider than its column.
proof fn lemma_wrap_cell_fits(s: Seq<char>, w: nat)
    requires
        1 <= w <= usize::MAX,
        s.len() <= usize::MAX,
        forall|i: int| 0 <= i < s.len() ==> is_narrow(#[trigger] s[i]) || s[i] == '\n',
    ensures
        narrow_lines_fit(wrap_cell_spec(s, w), w),
{
    lemma_split_narrow(s);
    lemma_wrap_paras_fit(split_char(s, '\n'), w);
    let ls = wrap_paras(split_char(s, '\n'), w);
    if ls.len() == 0 {
        lemma_lines_push(Seq::empty(), Seq::empty(), w);
        assert(Seq::<Seq<char>>::empty().push(Seq::<char>::empty()) =~= seq![Seq::<char>::empty()]);
    }
}

/// `n` copies of one narrow character: narrow, `n` long.
proof fn lemma_repeat_narrow(t: Seq<char>, n: nat)
    requires
        t.len() == 1,
        is_narrow(t[0]),
    ensures
        all_narrow(repeat(t, n)),
        repeat(t, n).len() == n,
    decreases n,
{
    if n > 0 {
        lemma_repeat_narrow(t, (n - 1) as nat);
        let a = repeat(t, (n - 1) as nat);
        assert forall|i: int| 0 <= i < (a + t).len() implies is_narrow(#[trigger] (a + t)[i]) by {
            if i < a.len() {
                assert((a + t)[i] == a[i]);
            } else {
                assert((a + t)[i] == t[0]);
            }
        }
    }
}

proof fn lemma_concat_narrow(a: Seq<char>, b: Seq<char>)
    requires
        all_narrow(a),
        all_narrow(b),
    ensures
        all_narrow(a + b),
{
    assert forall|i: int| 0 <= i < (a + b).len() implies is_narrow(#[trigger] (a + b)[i]) by {
        if i < a.len() {
            assert((a + b)[i] == a[i]);
        } else {
            assert((a + b)[i] == b[i - a.len()]);
        }
    }
}

/// A narrow cell no wider than its column is aligned to exactly its width.
proof fn lemma_align_narrow(s: Seq<char>, w: nat, a: Align)
    requires
        all_narrow(s),
        s.len() <= w <= usize::MAX,
    ensures
        all_narrow(align_cell_spec(s, w, a)),
        align_cell_spec(s, w, a).len() == w,
{
    lemma_narrow_width(s);
    reveal_strlit(" ");
    assert(" "@ =~= seq![' ']);
    if s.len() < w {
        let pad = (w - s.len()) as nat;
        lemma_repeat_narrow(" "@, pad);
        lemma_repeat_narrow(" "@, pad / 2);
        lemma_repeat_narrow(" "@, (pad - pad / 2) as nat);
        match a {
            Align::Left => {
                lemma_concat_narrow(s, spaces(pad));
            },
            Align::Right => {
                lemma_concat_narrow(spaces(pad), s);
            },
            Align::Center => {
                lemma_concat_narrow(spaces(pad / 2), s);
                lemma_concat_narrow(spaces(pad / 2) + s, spaces((pad - pad / 2) as nat));
            },
        }
    }
}

/// Each line of a drawn row shows a space, the columns and three columns
/// between each two of them.
proof fn lemma_row_fits(row: Seq<Seq<char>>, ws: Seq<nat>, aligns: Seq<Align>, mw: nat)
    requires
        row.len() == ws.len(),
        row.len() >= 1,
        forall|c: int| 0 <= c < ws.len() ==> 1 <= #[trigger] ws[c] <= 40,
        forall|c: int, i: int| 0 <= c < row.len() && 0 <= i < row[c].len()
            ==> is_narrow(#[trigger] row[c][i]) || row[c][i] == '\n',
        forall|c: int| 0 <= c < row.len() ==> (#[trigger] row[c]).len() <= usize::MAX,
        sum_of(ws) + 3 * ws.len() <= mw + 2,
        mw <= usize::MAX,
    ensures
        lines_fit(format_row_spec(row, ws, aligns), mw),
{
    let n = row.len();
    let wrapped = Seq::new(n, |c: int| wrap_cell_spec(row[c], ws[c]));
    let max_lines = max_of(wrapped.map_values(|ls: Seq<Seq<char>>| ls.len()));
    assert forall|c: int| 0 <= c < n implies narrow_lines_fit(#[trigger] wrapped[c], ws[c]) by {
        assert forall|i: int| 0 <= i < row[c].len() implies is_narrow(#[trigger] row[c][i]) || row[c][i] == '\n' by {}
        lemma_wrap_cell_fits(row[c], ws[c]);
    }
    reveal_strlit(" \u{2502} ");
    reveal_strlit(" ");
    let sep = " \u{2502} "@;
    assert(sep.len() == 3);
    assert(all_narrow(sep)) by {
        assert forall|i: int| 0 <= i < sep.len() implies is_narrow(#[trigger] sep[i]) by {}
    }
    let lines = Seq::new(max_lines, |li: int|
        " "@ + join(Seq::new(n, |c: int| align_cell_spec(cell_at(wrapped[c], li), ws[c], aligns[c])), sep));
    assert forall|li: int| 0 <= li < lines.len() implies lines_fit(#[trigger] lines[li], mw) by {
        let cells = Seq::new(n, |c: int| align_cell_spec(cell_at(wrapped[c], li), ws[c], aligns[c]));
        assert forall|c: int| 0 <= c < cells.len() implies all_narrow(#[trigger] cells[c]) && cells[c].len() == ws[c] + 0 by {
            let l = cell_at(wrapped[c], li);
            assert(narrow_lines_fit(wrapped[c], ws[c]));
            if 0 <= li < wrapped[c].len() {
                assert(all_narrow(wrapped[c][li]) && wrapped[c][li].len() <= ws[c]);
            }
            lemma_align_narrow(l, ws[c], aligns[c]);
        }
        lemma_join_narrow(cells, sep, ws, 0);
        let j = join(cells, sep);
        assert(all_narrow(" "@)) by {
            assert forall|i: int| 0 <= i < 1 implies is_narrow(#[trigger] " "@[i]) by {}
        }
        lemma_concat_narrow(" "@, j);
        assert(j.len() == sum_of(ws) + 0 * n + 3 * (n - 1));
        lemma_fit_line(" "@ + j, mw);
    }
    lemma_fit_join(lines, mw);
}

/// The rule under the header shows a space, one more than each column,
/// and two columns between each two of them.
proof fn lemma_header_fits(ws: Seq<nat>, mw: nat)
    requires
        ws.len() >= 1,
        sum_of(ws) + 3 * ws.len() <= mw + 1,
        mw <= usize::MAX,
    ensures
        lines_fit(header_spec(ws), mw),
{
    reveal_strlit("\u{2500}");
    reveal_strlit("\u{253c}\u{2500}");
    reveal_strlit(" ");
    let bar = "\u{2500}"@;
    let sep = "\u{253c}\u{2500}"@;
    assert(bar.len() == 1 && is_narrow(bar[0]));
    assert(all_narrow(sep)) by {
        assert forall|i: int| 0 <= i < sep.len() implies is_narrow(#[trigger] sep[i]) by {}
    }
    let parts = ws.map_values(|w: nat| repeat(bar, w + 1));
    assert forall|k: int| 0 <= k < parts.len() implies all_narrow(#[trigger] parts[k]) && parts[k].len() == ws[k] + 1 by {
        lemma_repeat_narrow(bar, ws[k] + 1);
    }
    lemma_join_narrow(parts, sep, ws, 1);
    let j = join(parts, sep);
    assert(all_narrow(" "@)) by {
        assert forall|i: int| 0 <= i < 1 implies is_narrow(#[trigger] " "@[i]) by {}
    }
    lemma_concat_narrow(" "@, j);
    lemma_fit_line(" "@ + j, mw);
}

/// Shrinking keeps the number of columns and each width between 1 and 40.
proof fn lemma_shrink_bounds(ws: Seq<nat>, overhead: nat, budget: nat)
    requires
        forall|k: int| 0 <= k < ws.len() ==> 1 <= #[trigger] ws[k] <= 40,
    ensures
        shrink(ws, overhead, budget).len() == ws.len(),
        forall|k: int| 0 <= k < ws.len() ==> 1 <= #[trigger] shrink(ws, overhead, budget)[k] <= 40,
    decreases sum_of(ws),
{
    if sum_of(ws) + overhead > budget {
        let m = max_of(ws);
        let k = first_at(ws, m, 0);
        if m > 3 && 0 <= k < ws.len() {
            lemma_first_max(ws);
            lemma_sum_update(ws, k, (m - 1) as nat);
            let u = ws.update(k, (m - 1) as nat);
            assert forall|q: int| 0 <= q < u.len() implies 1 <= #[trigger] u[q] <= 40 by {
                if q != k {
                    assert(u[q] == ws[q]);
                }
            }
            lemma_shrink_bounds(u, overhead, budget);
        }
    }
}

proof fn lemma_sum_bound(ws: Seq<nat>, b: nat)
    requires
        forall|k: int| 0 <= k < ws.len() ==> #[trigger] ws[k] <= b,
    ensures
        sum_of(ws) <= b * ws.len(),
    decreases ws.len(),
{
    if ws.len() > 0 {
        let d = ws.drop_last();
        assert forall|k: int| 0 <= k < d.len() implies #[trigger] d[k] <= b by {
            assert(d[k] == ws[k]);
        }
        lemma_sum_bound(d, b);
        assert(ws.last() == ws[ws.len() - 1]);
        let n = ws.len() as int;
        assert(b * (n - 1) + b == b * n) by (nonlinear_arith);
    }
}

/// A table of narrow cells (line feeds allowed) fits the budget when the
/// budget leaves at least six columns for each column of the table, less
/// one: every line of it shows at most `max_width` columns.
pub proof fn law_table_fits(rows: Seq<Seq<Seq<char>>>, aligns: Seq<Align>, max_width: nat)
    requires
        forall|r: int, c: int, i: int| 0 <= r < rows.len() && 0 <= c < rows[r].len() && 0 <= i < rows[r][c].len()
            ==> is_narrow(#[trigger] rows[r][c][i]) || rows[r][c][i] == '\n',
        forall|r: int, c: int| 0 <= r < rows.len() && 0 <= c < rows[r].len() ==> (#[trigger] rows[r][c]).len() <= usize::MAX,
        6 * n_cols(rows) <= max_width + 1,
        max_width <= usize::MAX,
    ensures
        lines_fit(format_table_spec(rows, aligns, max_width), max_width),
{
    let n = n_cols(rows);
    if rows.len() == 0 || n == 0 {
        assert(split_char(Seq::<char>::empty(), '\n') =~= seq![Seq::<char>::empty()]);
        assert(display_width_spec(Seq::<char>::empty()) == 0) by {
            crate::lemma_plain_text(Seq::<char>::empty());
        }
    } else {
        let nat_ws = Seq::new(n, |c: int| col_width(rows, n, c));
        let ws = shrink(nat_ws, 3 * n, max_width);
        let al = Seq::new(n, |c: int| if c < aligns.len() { aligns[c] } else { Align::Left });
        lemma_shrink_bounds(nat_ws, 3 * n, max_width);
        law_shrunk_columns_fit(nat_ws, 3 * n, max_width);
        if max_of(ws) <= 3 {
            lemma_max_of(ws);
            lemma_sum_bound(ws, 3);
        }
        assert(sum_of(ws) + 3 * ws.len() <= max_width + 1);
        assert forall|r: int| 0 <= r < rows.len() implies lines_fit(#[trigger] format_row_spec(norm_row(rows[r], n), ws, al), max_width) by {
            let row = norm_row(rows[r], n);
            assert forall|c: int, i: int| 0 <= c < row.len() && 0 <= i < row[c].len()
                implies is_narrow(#[trigger] row[c][i]) || row[c][i] == '\n' by {
                assert(c < rows[r].len());
                assert(row[c] == rows[r][c]);
            }
            assert forall|c: int| 0 <= c < row.len() implies (#[trigger] row[c]).len() <= usize::MAX by {
                if c < rows[r].len() {
                    assert(row[c] == rows[r][c]);
                }
            }
            lemma_row_fits(row, ws, al, max_width);
        }
        let head = format_row_spec(norm_row(rows[0], n), ws, al);
        lemma_header_fits(ws, max_width);
        let body = Seq::new((rows.len() - 1) as nat, |i: int| format_row_spec(norm_row(rows[i + 1], n), ws, al));
        assert forall|i: int| 0 <= i < body.len() implies lines_fit(#[trigger] body[i], max_width) by {
            assert(lines_fit(format_row_spec(norm_row(rows[i + 1], n), ws, al), max_width));
        }
        lemma_fit_join(body, max_width);
        lemma_fit_around(head, header_spec(ws), max_width);
        lemma_fit_around(head + "\n"@ + header_spec(ws), join(body, "\n"@), max_width);
    }
}

/// `n` spaces are narrow and `n` long.
pub proof fn lemma_spaces_narrow(n: nat)
    ensures
        all_narrow(spaces(n)),
        spaces(n).len() == n,
{
    reveal_strlit(" ");
    assert(" "@ =~= seq![' ']);
    lemma_repeat_narrow(" "@, n);
}

/// The separator row decides each column's alignment by its colons: a
/// cell with a colon at both ends centres its column, one with a colon at
/// the right end only right-aligns it, and any other left-aligns it.
pub proof fn law_separator_colons_decide_alignment(cell: Seq<char>)
    ensures
        cell.len() > 0 && cell[0] == ':' && cell[cell.len() - 1] == ':' ==> align_of(cell) == Align::Center,
        cell.len() > 0 && cell[0] != ':' && cell[cell.len() - 1] == ':' ==> align_of(cell) == Align::Right,
        cell.len() == 0 || cell[cell.len() - 1] != ':' ==> align_of(cell) == Align::Left,
        align_of(cell) != Align::Left ==> cell.len() > 0 && cell[cell.len() - 1] == ':',
{
}

/// The alignment of column `k` of a separator row is that of its
/// trimmed cell.
pub proof fn law_row_alignments_follow_cells(line: Seq<char>, k: int)
    requires
        0 <= k < pipe_parts(line).len(),
    ensures
        row_aligns(line).len() == pipe_parts(line).len(),
        row_aligns(line)[k] == align_of(trim(pipe_parts(line)[k])),
{
}

/// A cell narrower than its column is padded with spaces to exactly the
/// column's width: flush left, flush right, or centred with the odd space
/// on the right (the left gap is half the padding, rounded down).
pub proof fn law_cells_fill_their_column(s: Seq<char>, w: nat)
    requires
        (display_width_spec(s) as nat) < w,
    ensures
        ({
            let pad = (w - display_width_spec(s)) as nat;
            let c = align_cell_spec(s, w, Align::Center);
            &&& align_cell_spec(s, w, Align::Left) == s + spaces(pad)
            &&& align_cell_spec(s, w, Align::Right) == spaces(pad) + s
            &&& exists|l: nat, r: nat| l + r == pad && l <= r <= l + 1 && c == spaces(l) + s + spaces(r)
        }),
{
    let pad = (w - display_width_spec(s)) as nat;
    let l = pad / 2;
    let r = (pad - pad / 2) as nat;
    assert(l + r == pad && l <= r <= l + 1);
    assert(align_cell_spec(s, w, Align::Center) == spaces(l) + s + spaces(r));
}

// ---------------------------------------------------------------------
// How far the TeX unwinding goes
// ---------------------------------------------------------------------

/// No backslash in `s`.
pub open spec fn no_backslash(s: Seq<char>) -> bool {
    forall|i: int| 0 <= i < s.len() ==> #[trigger] s[i] != '\\'
}

/// No brace and no backslash in `s`: a plain argument.
pub open spec fn plain_arg(s: Seq<char>) -> bool {
    forall|i: int| 0 <= i < s.len() ==> #[trigger] s[i] != '\\' && s[i] != '{' && s[i] != '}'
}

/// Every backslash of `s` is followed by an `f`.
pub open spec fn backslash_f(s: Seq<char>) -> bool {
    forall|i: int| 0 <= i < s.len() && #[trigger] s[i] == '\\' ==> i + 1 < s.len() && s[i + 1] == 'f'
}

/// A fraction with plain arguments after plain text: `sep\frac{a}{b}`.
pub open spec fn raw_frac(p: (Seq<char>, Seq<char>, Seq<char>)) -> Seq<char> {
    p.0 + "\\frac"@ + seq!['{'] + p.1 + seq!['}', '{'] + p.2 + seq!['}']
}

/// The same unwound: `sep(a)/(b)`.
pub open spec fn cooked_frac(p: (Seq<char>, Seq<char>, Seq<char>)) -> Seq<char> {
    p.0 + "("@ + p.1 + ")/("@ + p.2 + ")"@
}

/// The pieces unwound, one after the other.
pub open spec fn cooked_all(ps: Seq<(Seq<char>, Seq<char>, Seq<char>)>) -> Seq<char>
    decreases ps.len(),
{
    if ps.len() == 0 { Seq::empty() } else { cooked_all(ps.drop_last()) + cooked_frac(ps.last()) }
}

/// The pieces as written, one after the other.
pub open spec fn raw_all(ps: Seq<(Seq<char>, Seq<char>, Seq<char>)>) -> Seq<char>
    decreases ps.len(),
{
    if ps.len() == 0 { Seq::empty() } else { raw_frac(ps[0]) + raw_all(ps.skip(1)) }
}

/// Every piece has plain text before a fraction with plain arguments.
pub open spec fn plain_pieces(ps: Seq<(Seq<char>, Seq<char>, Seq<char>)>) -> bool {
    forall|k: int| 0 <= k < ps.len() ==> plain_arg((#[trigger] ps[k]).0) && plain_arg(ps[k].1) && plain_arg(ps[k].2)
}

proof fn lemma_find_first(s: Seq<char>, pat: Seq<char>, i: int, p: int)
    requires
        0 <= i <= p,
        pat.len() > 0,
        occurs_at(s, pat, p),
        forall|k: int| i <= k < p ==> !#[trigger] occurs_at(s, pat, k),
    ensures
        find_from(s, pat, i) == Some(p),
    decreases p - i,
{
    if i < p {
        assert(!occurs_at(s, pat, i));
        lemma_find_first(s, pat, i + 1, p);
    }
}

proof fn lemma_find_none(s: Seq<char>, pat: Seq<char>, i: int)
    requires
        0 <= i,
        pat.len() > 0,
        forall|k: int| i <= k ==> !#[trigger] occurs_at(s, pat, k),
    ensures
        find_from(s, pat, i) is None,
    decreases s.len() - i,
{
    if i + pat.len() <= s.len() {
        assert(!occurs_at(s, pat, i));
        lemma_find_none(s, pat, i + 1);
    }
}

/// A pattern that starts with a backslash and then `c`, other than `f`,
/// is not found where every backslash is followed by `f`.
proof fn lemma_no_cmd(s: Seq<char>, pat: Seq<char>)
    requires
        backslash_f(s),
        pat.len() >= 2,
        pat[0] == '\\',
        pat[1] != 'f',
    ensures
        find_from(s, pat, 0) is None,
{
    assert forall|k: int| 0 <= k implies !#[trigger] occurs_at(s, pat, k) by {
        if occurs_at(s, pat, k) {
            assert(s.subrange(k, k + pat.len())[0] == s[k]);
            assert(s.subrange(k, k + pat.len())[1] == s[k + 1]);
        }
    }
    lemma_find_none(s, pat, 0);
}

/// `{a}` then anything, with `a` plain: a group whose inside is `a`.
proof fn lemma_braced_plain(a: Seq<char>, t: Seq<char>)
    requires
        plain_arg(a),
    ensures
        braced_spec(seq!['{'] + a + seq!['}'] + t) == Some((1int, a.len() + 2int)),
        trim_start_by(seq!['{'] + a + seq!['}'] + t, None) == seq!['{'] + a + seq!['}'] + t,
{
    reveal_strlit("}");
    reveal_strlit("{");
    let x = seq!['{'] + a + seq!['}'] + t;
    let e = (a.len() + 1) as int;
    assert(x[e] == '}');
    assert(x.subrange(e, e + 1) =~= "}"@);
    assert forall|k: int| 1 <= k < e implies !#[trigger] occurs_at(x, "}"@, k) by {
        assert(x[k] == a[k - 1]);
        assert(x.subrange(k, k + 1)[0] == x[k]);
    }
    lemma_find_first(x, "}"@, 1, e);
    assert(x.subrange(1, e) =~= a);
    assert(!contains_sub(a, "{"@)) by {
        if contains_sub(a, "{"@) {
            let q = choose|q: int| occurs_at(a, "{"@, q);
            assert(a.subrange(q, q + 1)[0] == a[q]);
        }
    }
    assert(!is_ws('{'));
    assert(lead_from(x, 0, None) == 0);
    assert(x.skip(0) =~= x);
}

proof fn lemma_plain_concat(a: Seq<char>, b: Seq<char>)
    requires
        no_backslash(a),
        no_backslash(b),
    ensures
        no_backslash(a + b),
{
    assert forall|i: int| 0 <= i < (a + b).len() implies #[trigger] (a + b)[i] != '\\' by {
        if i < a.len() {
            assert((a + b)[i] == a[i]);
        } else {
            assert((a + b)[i] == b[i - a.len()]);
        }
    }
}

/// The first fraction after plain text is unwound by one pass, and the
/// rest of the pass changes nothing more.
/// The first `\frac` after plain text, with plain arguments, is unwound.
#[verifier::rlimit(40)]
proof fn lemma_two_arg_first(pre: Seq<char>, a: Seq<char>, b: Seq<char>, r: Seq<char>)
    requires
        no_backslash(pre),
        plain_arg(a),
        plain_arg(b),
    ensures
        two_arg_spec(pre + "\\frac"@ + seq!['{'] + a + seq!['}', '{'] + b + seq!['}'] + r, "\\frac"@, "("@, ")/("@, ")"@)
            == pre + "("@ + a + ")/("@ + b + ")"@ + r,
{
    reveal_strlit("\\frac");
    let fr = "\\frac"@;
    assert(fr =~= seq!['\\', 'f', 'r', 'a', 'c']);
    let tail = seq!['{'] + a + seq!['}', '{'] + b + seq!['}'] + r;
    let s = pre + fr + tail;
    assert(s =~= pre + "\\frac"@ + seq!['{'] + a + seq!['}', '{'] + b + seq!['}'] + r);
    let p = pre.len() as int;
    assert(s.subrange(p, p + 5) =~= fr);
    assert forall|k: int| 0 <= k < p implies !#[trigger] occurs_at(s, fr, k) by {
        assert(s[k] == pre[k]);
        if occurs_at(s, fr, k) {
            assert(s.subrange(k, k + 5)[0] == s[k]);
        }
    }
    lemma_find_first(s, fr, 0, p);
    assert(s.skip(p + 5) =~= tail);
    let after_a = seq!['{'] + b + seq!['}'] + r;
    assert(tail =~= seq!['{'] + a + seq!['}'] + after_a);
    lemma_braced_plain(a, after_a);
    assert(tail.skip(a.len() + 2int) =~= after_a);
    lemma_braced_plain(b, r);
    assert(tail.subrange(1, a.len() + 1int) =~= a);
    assert(after_a.subrange(1, b.len() + 1int) =~= b);
    assert(after_a.skip(b.len() + 2int) =~= r);
    assert(s.take(p) =~= pre);
}

/// The first fraction after plain text is unwound by one pass, and the
/// rest of the pass changes nothing more.
proof fn lemma_frac_pass_first(pre: Seq<char>, a: Seq<char>, b: Seq<char>, r: Seq<char>)
    requires
        no_backslash(pre),
        plain_arg(a),
        plain_arg(b),
        backslash_f(r),
    ensures
        frac_pass(pre + "\\frac"@ + seq!['{'] + a + seq!['}', '{'] + b + seq!['}'] + r)
            == pre + "("@ + a + ")/("@ + b + ")"@ + r,
{
    reveal_strlit("\\dfrac");
    reveal_strlit("\\tfrac");
    reveal_strlit("\\sqrt");
    reveal_strlit("(");
    reveal_strlit(")/(");
    reveal_strlit(")");
    lemma_two_arg_first(pre, a, b, r);
    let s1 = pre + "("@ + a + ")/("@ + b + ")"@ + r;
    let mid = pre + "("@ + a + ")/("@ + b + ")"@;
    assert(no_backslash(mid)) by {
        assert forall|i: int| 0 <= i < mid.len() implies #[trigger] mid[i] != '\\' by {
            if i < pre.len() {
                assert(mid[i] == pre[i]);
            } else if i < pre.len() + 1 {
            } else if i < pre.len() + 1 + a.len() {
                assert(mid[i] == a[i - pre.len() - 1]);
            } else if i < pre.len() + 1 + a.len() + 3 {
            } else if i < pre.len() + 1 + a.len() + 3 + b.len() {
                assert(mid[i] == b[i - pre.len() - 1 - a.len() - 3]);
            }
        }
    }
    assert(s1 =~= mid + r);
    assert(backslash_f(s1)) by {
        assert forall|i: int| 0 <= i < s1.len() && #[trigger] s1[i] == '\\' implies i + 1 < s1.len() && s1[i + 1] == 'f' by {
            if i < mid.len() {
                assert(s1[i] == mid[i]);
            } else {
                assert(s1[i] == r[i - mid.len()]);
                assert(s1[i + 1] == r[i + 1 - mid.len()]);
            }
        }
    }
    lemma_no_cmd(s1, "\\dfrac"@);
    lemma_no_cmd(s1, "\\tfrac"@);
    lemma_no_cmd(s1, "\\sqrt"@);
}

/// Text without a backslash is left as it is by a pass.
proof fn lemma_frac_pass_plain(s: Seq<char>)
    requires
        no_backslash(s),
    ensures
        frac_pass(s) == s,
{
    reveal_strlit("\\frac");
    reveal_strlit("\\dfrac");
    reveal_strlit("\\tfrac");
    reveal_strlit("\\sqrt");
    assert(backslash_f(s));
    assert("\\frac"@[0] == '\\' && "\\frac"@.len() == 5);
    assert forall|k: int| 0 <= k implies !#[trigger] occurs_at(s, "\\frac"@, k) by {
        if occurs_at(s, "\\frac"@, k) {
            assert(s.subrange(k, k + 5)[0] == s[k]);
        }
    }
    lemma_find_none(s, "\\frac"@, 0);
    lemma_no_cmd(s, "\\dfrac"@);
    lemma_no_cmd(s, "\\tfrac"@);
    lemma_no_cmd(s, "\\sqrt"@);
}

proof fn lemma_cooked_plain(ps: Seq<(Seq<char>, Seq<char>, Seq<char>)>)
    requires
        plain_pieces(ps),
    ensures
        no_backslash(cooked_all(ps)),
    decreases ps.len(),
{
    if ps.len() > 0 {
        let d = ps.drop_last();
        assert(plain_pieces(d)) by {
            assert forall|k: int| 0 <= k < d.len() implies plain_arg((#[trigger] d[k]).0) && plain_arg(d[k].1) && plain_arg(d[k].2) by {
                assert(d[k] == ps[k]);
            }
        }
        lemma_cooked_plain(d);
        let q = ps.last();
        assert(plain_arg(ps[ps.len() - 1].0) && plain_arg(ps[ps.len() - 1].1) && plain_arg(ps[ps.len() - 1].2));
        reveal_strlit("(");
        reveal_strlit(")/(");
        reveal_strlit(")");
        let c = cooked_frac(q);
        assert(no_backslash(c)) by {
            let l0 = q.0.len() as int;
            let l1 = q.1.len() as int;
            assert forall|i: int| 0 <= i < c.len() implies #[trigger] c[i] != '\\' by {
                if i < l0 {
                    assert(c[i] == q.0[i]);
                } else if i < l0 + 1 {
                } else if i < l0 + 1 + l1 {
                    assert(c[i] == q.1[i - l0 - 1]);
                } else if i < l0 + 1 + l1 + 3 {
                } else if i < l0 + 1 + l1 + 3 + q.2.len() {
                    assert(c[i] == q.2[i - l0 - 1 - l1 - 3]);
                }
            }
        }
        lemma_plain_concat(cooked_all(d), c);
    }
}

proof fn lemma_raw_backslash_f(ps: Seq<(Seq<char>, Seq<char>, Seq<char>)>, tail: Seq<char>)
    requires
        plain_pieces(ps),
        no_backslash(tail),
    ensures
        backslash_f(raw_all(ps) + tail),
    decreases ps.len(),
{
    if ps.len() == 0 {
        assert(raw_all(ps) + tail =~= tail);
    } else {
        let rest = ps.skip(1);
        assert(plain_pieces(rest)) by {
            assert forall|k: int| 0 <= k < rest.len() implies plain_arg((#[trigger] rest[k]).0) && plain_arg(rest[k].1) && plain_arg(rest[k].2) by {
                assert(rest[k] == ps[k + 1]);
            }
        }
        lemma_raw_backslash_f(rest, tail);
        let q = ps[0];
        assert(plain_arg(q.0) && plain_arg(q.1) && plain_arg(q.2));
        reveal_strlit("\\frac");
        assert("\\frac"@ =~= seq!['\\', 'f', 'r', 'a', 'c']);
        let f = raw_frac(q);
        let t = raw_all(rest) + tail;
        let x = f + t;
        assert(raw_all(ps) + tail =~= x);
        let l0 = q.0.len() as int;
        let l1 = q.1.len() as int;
        assert forall|i: int| 0 <= i < x.len() && #[trigger] x[i] == '\\' implies i + 1 < x.len() && x[i + 1] == 'f' by {
            if i < f.len() {
                assert(x[i] == f[i]);
                if i < l0 {
                    assert(f[i] == q.0[i]);
                } else if i == l0 {
                    assert(x[i + 1] == f[i + 1]);
                } else if i < l0 + 6 {
                } else if i < l0 + 6 + l1 {
                    assert(f[i] == q.1[i - l0 - 6]);
                } else if i < l0 + 8 + l1 {
                } else if i < l0 + 8 + l1 + q.2.len() {
                    assert(f[i] == q.2[i - l0 - 8 - l1]);
                }
            } else {
                assert(x[i] == t[i - f.len()]);
                assert(x[i + 1] == t[i + 1 - f.len()]);
            }
        }
    }
}

/// The text with the first `j` fractions unwound.
pub open spec fn unwound_first(ps: Seq<(Seq<char>, Seq<char>, Seq<char>)>, j: int, tail: Seq<char>) -> Seq<char> {
    cooked_all(ps.take(j)) + raw_all(ps.skip(j)) + tail
}

proof fn lemma_pass_unwinds_next(ps: Seq<(Seq<char>, Seq<char>, Seq<char>)>, j: int, tail: Seq<char>)
    requires
        plain_pieces(ps),
        no_backslash(tail),
        0 <= j < ps.len(),
    ensures
        frac_pass(unwound_first(ps, j, tail)) == unwound_first(ps, j + 1, tail),
{
    let q = ps[j];
    let head = ps.take(j);
    assert(plain_pieces(head)) by {
        assert forall|k: int| 0 <= k < head.len() implies plain_arg((#[trigger] head[k]).0) && plain_arg(head[k].1) && plain_arg(head[k].2) by {
            assert(head[k] == ps[k]);
        }
    }
    lemma_cooked_plain(head);
    assert(plain_arg(q.0) && plain_arg(q.1) && plain_arg(q.2));
    let pre = cooked_all(head) + q.0;
    lemma_plain_concat(cooked_all(head), q.0);
    let later = ps.skip(j + 1);
    assert(plain_pieces(later)) by {
        assert forall|k: int| 0 <= k < later.len() implies plain_arg((#[trigger] later[k]).0) && plain_arg(later[k].1) && plain_arg(later[k].2) by {
            assert(later[k] == ps[j + 1 + k]);
        }
    }
    lemma_raw_backslash_f(later, tail);
    let r = raw_all(later) + tail;
    assert(ps.skip(j)[0] == q);
    assert(ps.skip(j).skip(1) =~= later);
    assert(raw_all(ps.skip(j)) == raw_frac(q) + raw_all(later));
    assert(unwound_first(ps, j, tail) =~= pre + "\\frac"@ + seq!['{'] + q.1 + seq!['}', '{'] + q.2 + seq!['}'] + r);
    lemma_frac_pass_first(pre, q.1, q.2, r);
    assert(ps.take(j + 1).drop_last() =~= head);
    assert(ps.take(j + 1).last() == q);
    assert(cooked_all(ps.take(j + 1)) == cooked_all(head) + cooked_frac(q));
    assert(unwound_first(ps, j + 1, tail) =~= pre + "("@ + q.1 + ")/("@ + q.2 + ")"@ + r);
}

/// Unwinding reaches up to four fractions: a TeX body made of plain text
/// and up to four fractions `\frac{a}{b}` with plain arguments flattens
/// to exactly what the same body with each fraction written `(a)/(b)`
/// flattens to.
pub proof fn law_four_fractions_unwind(ps: Seq<(Seq<char>, Seq<char>, Seq<char>)>, tail: Seq<char>)
    requires
        ps.len() <= 4,
        plain_pieces(ps),
        no_backslash(tail),
    ensures
        tex_flatten(raw_all(ps) + tail) == tex_flatten(cooked_all(ps) + tail),
{
    let k = ps.len() as int;
    assert forall|j: int| 0 <= j <= k implies #[trigger] unwound_first(ps, j, tail) == cooked_all(ps.take(j)) + raw_all(ps.skip(j)) + tail by {}
    assert(ps.take(0) =~= Seq::<(Seq<char>, Seq<char>, Seq<char>)>::empty());
    assert(ps.skip(0) =~= ps);
    assert(unwound_first(ps, 0, tail) =~= raw_all(ps) + tail);
    assert(ps.take(k) =~= ps);
    assert(ps.skip(k) =~= Seq::<(Seq<char>, Seq<char>, Seq<char>)>::empty());
    let done = cooked_all(ps) + tail;
    assert(unwound_first(ps, k, tail) =~= done);
    lemma_cooked_plain(ps);
    lemma_plain_concat(cooked_all(ps), tail);
    lemma_frac_pass_plain(done);
    // each pass unwinds one more fraction until none is left
    let m0 = raw_all(ps) + tail;
    let m1 = frac_pass(m0);
    let m2 = frac_pass(m1);
    let m3 = frac_pass(m2);
    let m4 = frac_pass(m3);
    if k >= 1 { lemma_pass_unwinds_next(ps, 0, tail); }
    if k >= 2 { lemma_pass_unwinds_next(ps, 1, tail); }
    if k >= 3 { lemma_pass_unwinds_next(ps, 2, tail); }
    if k >= 4 { lemma_pass_unwinds_next(ps, 3, tail); }
    assert(m4 == done);
    assert(frac_pass(frac_pass(frac_pass(frac_pass(done)))) == done);
}

} // verus!
