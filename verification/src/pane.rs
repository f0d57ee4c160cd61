//! Pane - the core widget: a positioned rectangle with content,
//! scrolling, borders, and diff-based rendering.
//!
//! A pane does not write to the terminal itself. Everything it would
//! print is appended to its pending output, which the caller takes with
//! `take_output` and writes out.

use vstd::prelude::*;

use crate::chars::{
    alpha, char_width, chars_of, contains_at_any, contains_sub, dec, digit_p, is_alpha,
    is_digit, join, join_strings, parse_dec, parse_dec_spec, push_char, push_dec, push_range,
    push_repeat, push_replaced, push_replaced_sub, replace_char, replace_sub, same_chars,
    repeat, repeat_str, spaces, split_char, split_chars, string_of, char_width_spec, views,
    all_narrow, is_narrow, lemma_split_nonempty, occurs_at,
};
use crate::{display_width, display_width_spec, strip_ansi, strip_seq, truncate_ansi, truncate_spec, lemma_narrow_width};
use crate::{at_rest, lemma_csi, lemma_strip_concat, strip_state};
use crate::style::{fg, fg_spec};

verus! {

// ---------------------------------------------------------------------
// Background colours inside a line
// ---------------------------------------------------------------------

/// The end of the run of digits and `;` that starts at `j`.
pub open spec fn params_end(cs: Seq<char>, j: int) -> int
    decreases cs.len() - j,
{
    if j < 0 || j >= cs.len() || !(is_digit(cs[j]) || cs[j] == ';') {
        j
    } else {
        params_end(cs, j + 1)
    }
}

pub proof fn lemma_params_end(cs: Seq<char>, j: int)
    requires
        0 <= j <= cs.len(),
    ensures
        j <= params_end(cs, j) <= cs.len(),
        forall|k: int| j <= k < params_end(cs, j) ==> (is_digit(#[trigger] cs[k]) || cs[k] == ';'),
        params_end(cs, j) < cs.len() ==> !(is_digit(cs[params_end(cs, j)]) || cs[params_end(cs, j)] == ';'),
    decreases cs.len() - j,
{
    if j < cs.len() && (is_digit(cs[j]) || cs[j] == ';') {
        lemma_params_end(cs, j + 1);
    }
}

/// The scan of `has_ansi_bg` from position `i`: some `ESC [` before the
/// last five characters opens parameters holding `48;5;` or `48;2;`,
/// as the pattern `\e\[[\d;]*48;[25];` asks. After parameters that do
/// not, the scan resumes at the character that ended them, which may
/// open the next sequence.
pub open spec fn bg_scan(cs: Seq<char>, i: int) -> bool
    decreases cs.len() - i,
{
    if i < 0 || cs.len() <= 5 || i >= cs.len() - 5 {
        false
    } else if cs[i] == '\x1b' && cs[i + 1] == '[' {
        proof { lemma_params_end(cs, i + 2); }
        let j = params_end(cs, i + 2);
        if contains_sub(cs.subrange(i + 2, j), "48;5;"@) || contains_sub(cs.subrange(i + 2, j), "48;2;"@) {
            true
        } else {
            bg_scan(cs, j)
        }
    } else {
        bg_scan(cs, i + 1)
    }
}

/// A match of `\e\[[\d;]*48;[25];` at `i`: `ESC [` there, and the run of
/// digits and `;` after it holds `48;5;` or `48;2;`.
pub open spec fn bg_match_at(cs: Seq<char>, i: int) -> bool {
    &&& 0 <= i
    &&& i + 1 < cs.len()
    &&& cs[i] == '\x1b'
    &&& cs[i + 1] == '['
    &&& (contains_sub(cs.subrange(i + 2, params_end(cs, i + 2)), "48;5;"@)
        || contains_sub(cs.subrange(i + 2, params_end(cs, i + 2)), "48;2;"@))
}

proof fn lemma_bg_scan_from(cs: Seq<char>, i: int)
    requires
        0 <= i,
    ensures
        bg_scan(cs, i) == exists|k: int| k >= i && #[trigger] bg_match_at(cs, k),
    decreases cs.len() - i,
{
    reveal_strlit("48;5;");
    reveal_strlit("48;2;");
    if cs.len() <= 5 || i >= cs.len() - 5 {
        assert forall|k: int| k >= i implies !#[trigger] bg_match_at(cs, k) by {
            if bg_match_at(cs, k) {
                lemma_params_end(cs, k + 2);
                let sub = cs.subrange(k + 2, params_end(cs, k + 2));
                if contains_sub(sub, "48;5;"@) {
                    let q = choose|q: int| occurs_at(sub, "48;5;"@, q);
                } else {
                    let q = choose|q: int| occurs_at(sub, "48;2;"@, q);
                }
            }
        }
    } else if cs[i] == '\x1b' && cs[i + 1] == '[' {
        lemma_params_end(cs, i + 2);
        let j = params_end(cs, i + 2);
        if !bg_match_at(cs, i) {
            lemma_bg_scan_from(cs, j);
            assert forall|k: int| i < k < j implies !#[trigger] bg_match_at(cs, k) by {
                if k >= i + 2 {
                    assert(is_digit(cs[k]) || cs[k] == ';');
                }
            }
            if exists|k: int| k >= i && #[trigger] bg_match_at(cs, k) {
                let k = choose|k: int| k >= i && #[trigger] bg_match_at(cs, k);
                assert(k >= j);
            }
        }
    } else {
        lemma_bg_scan_from(cs, i + 1);
        if exists|k: int| k >= i && #[trigger] bg_match_at(cs, k) {
            let k = choose|k: int| k >= i && #[trigger] bg_match_at(cs, k);
            assert(k >= i + 1);
        }
    }
}

/// The background scan finds exactly the matches of the pattern
/// `\e\[[\d;]*48;[25];` anywhere in the text.
pub proof fn law_background_scan_matches_pattern(cs: Seq<char>)
    ensures
        bg_scan(cs, 0) == exists|k: int| #[trigger] bg_match_at(cs, k),
{
    lemma_bg_scan_from(cs, 0);
    if exists|k: int| #[trigger] bg_match_at(cs, k) {
        let k = choose|k: int| #[trigger] bg_match_at(cs, k);
        assert(k >= 0);
    }
}

/// Check if a string contains ANSI background color sequences (48;5;N or 48;2;R;G;B).
/// Matches the pattern `\e\[[\d;]*48;[25];`.
fn has_ansi_bg(cs: &Vec<char>) -> (r: bool)
    ensures
        r == bg_scan(cs@, 0),
{
    let n = cs.len();
    if n <= 5 {
        return false;
    }
    let p5 = chars_of("48;5;");
    let p2 = chars_of("48;2;");
    let mut i: usize = 0;
    while i < n - 5
        invariant
            n == cs@.len(),
            n > 5,
            p5@ == "48;5;"@,
            p2@ == "48;2;"@,
            i <= n + 1,
            bg_scan(cs@, 0) == bg_scan(cs@, i as int),
        decreases n + 1 - i,
    {
        if cs[i] == '\x1b' && cs[i + 1] == '[' {
            let mut j = i + 2;
            while j < n && (digit_p(cs[j]) || cs[j] == ';')
                invariant
                    i + 2 <= j <= n,
                    n == cs@.len(),
                    params_end(cs@, i + 2) == params_end(cs@, j as int),
                decreases n - j,
            {
                j += 1;
            }
            let mut params: Vec<char> = Vec::new();
            let mut k = i + 2;
            while k < j
                invariant
                    i + 2 <= k <= j <= n,
                    n == cs@.len(),
                    params@ == cs@.subrange(i + 2, k as int),
                decreases j - k,
            {
                params.push(cs[k]);
                k += 1;
            }
            if contains_at_any(&params, &p5) || contains_at_any(&params, &p2) {
                return true;
            }
            i = j;
        } else {
            i += 1;
        }
    }
    false
}

/// The end of the run of non-letters that starts at `j`.
pub open spec fn alpha_from(cs: Seq<char>, j: int) -> int
    decreases cs.len() - j,
{
    if j < 0 || j >= cs.len() || is_alpha(cs[j]) {
        j
    } else {
        alpha_from(cs, j + 1)
    }
}

pub proof fn lemma_alpha_from(cs: Seq<char>, j: int)
    requires
        0 <= j <= cs.len(),
    ensures
        j <= alpha_from(cs, j) <= cs.len(),
        alpha_from(cs, j) < cs.len() ==> is_alpha(cs[alpha_from(cs, j)]),
        forall|k: int| j <= k < alpha_from(cs, j) ==> !is_alpha(#[trigger] cs[k]),
    decreases cs.len() - j,
{
    if j < cs.len() && !is_alpha(cs[j]) {
        lemma_alpha_from(cs, j + 1);
    }
}

/// The number `parse::<u32>` reads from a parameter, 999 when it reads none.
pub open spec fn code_of(part: Seq<char>) -> nat {
    match parse_dec_spec(part, 0xffff_ffff) {
        Some(v) => v,
        None => 999,
    }
}

/// SGR background codes: 40-47, 49, 100-107.
pub open spec fn is_bg_code(c: nat) -> bool {
    (40 <= c && c <= 47) || c == 49 || (100 <= c && c <= 107)
}

/// The parameters that survive from position `i` on when background
/// codes are dropped: `48;5;n` and `48;2;r;g;b` go whole, `38;5;n` and
/// `38;2;r;g;b` stay whole, every other code stays.
pub open spec fn keep_from(parts: Seq<Seq<char>>, i: int) -> Seq<Seq<char>>
    decreases parts.len() - i,
{
    if i < 0 || i >= parts.len() {
        Seq::empty()
    } else {
        let c = code_of(parts[i]);
        if is_bg_code(c) {
            keep_from(parts, i + 1)
        } else if c == 48 {
            if i + 2 < parts.len() && parts[i + 1] == seq!['5'] {
                keep_from(parts, i + 3)
            } else if i + 4 < parts.len() && parts[i + 1] == seq!['2'] {
                keep_from(parts, i + 5)
            } else {
                keep_from(parts, i + 1)
            }
        } else if c == 38 {
            if i + 2 < parts.len() && parts[i + 1] == seq!['5'] {
                parts.subrange(i, i + 3) + keep_from(parts, i + 3)
            } else if i + 4 < parts.len() && parts[i + 1] == seq!['2'] {
                parts.subrange(i, i + 5) + keep_from(parts, i + 5)
            } else {
                seq![parts[i]] + keep_from(parts, i + 1)
            }
        } else {
            seq![parts[i]] + keep_from(parts, i + 1)
        }
    }
}

/// Parameters that set a background: they hold `48;`, or one of them is
/// a background code.
pub open spec fn has_bg_params(params: Seq<char>) -> bool {
    contains_sub(params, "48;"@) || exists|k: int|
        0 <= k < split_char(params, ';').len() && is_bg_code(code_of(#[trigger] split_char(params, ';')[k]))
}

/// What `strip_ansi_bg` writes for `ESC [ params term`.
pub open spec fn csi_without_bg(params: Seq<char>, term: char) -> Seq<char> {
    if term == 'm' && has_bg_params(params) {
        let keep = keep_from(split_char(params, ';'), 0);
        if keep.len() > 0 {
            "\x1b["@ + join(keep, ";"@) + "m"@
        } else {
            Seq::empty()
        }
    } else {
        "\x1b["@ + params + seq![term]
    }
}

/// `strip_ansi_bg` from position `pos` on.
pub open spec fn strip_bg_from(cs: Seq<char>, pos: int) -> Seq<char>
    decreases cs.len() - pos,
{
    if pos < 0 || pos >= cs.len() {
        Seq::empty()
    } else if cs[pos] == '\x1b' && pos + 1 < cs.len() && cs[pos + 1] == '[' {
        let a = alpha_from(cs, pos + 2);
        if a < cs.len() {
            proof { lemma_alpha_from(cs, pos + 2); }
            csi_without_bg(cs.subrange(pos + 2, a), cs[a]) + strip_bg_from(cs, a + 1)
        } else {
            cs.subrange(pos, cs.len() as int)
        }
    } else {
        seq![cs[pos]] + strip_bg_from(cs, pos + 1)
    }
}

fn is_one(p: &Vec<char>, c: char) -> (r: bool)
    ensures
        r == (p@ == seq![c]),
{
    if p.len() == 1 && p[0] == c {
        assert(p@ =~= seq![c]);
        true
    } else {
        false
    }
}

fn code_of_exec(p: &Vec<char>) -> (r: u64)
    ensures
        r == code_of(p@),
{
    match parse_dec(p, 0xffff_ffff) {
        Some(v) => v,
        None => 999,
    }
}

fn is_bg_code_exec(c: u64) -> (r: bool)
    ensures
        r == is_bg_code(c as nat),
{
    (40 <= c && c <= 47) || c == 49 || (100 <= c && c <= 107)
}

/// The parameters kept when background codes are dropped.
fn keep_parts(parts: &Vec<Vec<char>>) -> (r: Vec<String>)
    ensures
        views(r@) == keep_from(parts@.map_values(|p: Vec<char>| p@), 0),
{
    let ghost ps = parts@.map_values(|p: Vec<char>| p@);
    let n = parts.len();
    let mut r: Vec<String> = Vec::new();
    let mut i: usize = 0;
    while i < n
        invariant
            n == parts@.len(),
            ps == parts@.map_values(|p: Vec<char>| p@),
            views(r@) + keep_from(ps, i as int) == keep_from(ps, 0),
        decreases n - i,
    {
        let c = code_of_exec(&parts[i]);
        let ghost before = views(r@);
        if is_bg_code_exec(c) {
            i += 1;
        } else if c == 48 {
            if n - i > 2 && is_one(&parts[i + 1], '5') {
                i += 3;
            } else if n - i > 4 && is_one(&parts[i + 1], '2') {
                i += 5;
            } else {
                i += 1;
            }
        } else if c == 38 {
            let take: usize = if n - i > 2 && is_one(&parts[i + 1], '5') {
                3
            } else if n - i > 4 && is_one(&parts[i + 1], '2') {
                5
            } else {
                1
            };
            let mut k: usize = 0;
            while k < take
                invariant
                    n == parts@.len(),
                    i + take <= n,
                    k <= take,
                    ps == parts@.map_values(|p: Vec<char>| p@),
                    views(r@) == before + ps.subrange(i as int, i + k),
                decreases take - k,
            {
                let ghost r0 = r@;
                let sk = string_of(&parts[i + k]);
                r.push(sk);
                assert(ps[i + k] == parts@[i + k]@);
                assert(views(r@) =~= views(r0).push(sk@));
                assert(views(r@) =~= before + ps.subrange(i as int, i + k + 1));
                k += 1;
            }
            i += take;
        } else {
            r.push(string_of(&parts[i]));
            assert(views(r@) =~= before + seq![ps[i as int]]);
            i += 1;
        }
    }
    r
}

/// Appends what `strip_ansi_bg` writes for `ESC [ cs[ps..a] term`.
fn push_csi_without_bg(out: &mut String, cs: &Vec<char>, ps: usize, a: usize, term: char)
    requires
        ps <= a <= cs@.len(),
    ensures
        final(out)@ == old(out)@ + csi_without_bg(cs@.subrange(ps as int, a as int), term),
{
    let mut params: Vec<char> = Vec::new();
    let mut k = ps;
    while k < a
        invariant
            ps <= k <= a <= cs@.len(),
            params@ == cs@.subrange(ps as int, k as int),
        decreases a - k,
    {
        params.push(cs[k]);
        k += 1;
    }
    let mut has_bg = false;
    if term == 'm' {
        let p48 = chars_of("48;");
        let parts = split_chars(&params, ';');
        let ghost sp = split_char(params@, ';');
        has_bg = contains_at_any(&params, &p48);
        let mut j: usize = 0;
        while j < parts.len() && !has_bg
            invariant
                parts@.len() == sp.len(),
                sp == split_char(params@, ';'),
                forall|q: int| 0 <= q < parts@.len() ==> #[trigger] parts@[q]@ == sp[q],
                j <= parts@.len(),
                has_bg ==> has_bg_params(params@),
                !has_bg ==> !contains_sub(params@, "48;"@),
                !has_bg ==> forall|q: int| 0 <= q < j ==> !is_bg_code(code_of(#[trigger] sp[q])),
            decreases parts@.len() - j,
        {
            if is_bg_code_exec(code_of_exec(&parts[j])) {
                assert(is_bg_code(code_of(sp[j as int])));
                assert(has_bg_params(params@));
                has_bg = true;
            }
            j += 1;
        }
        if has_bg {
            assert(parts@.map_values(|p: Vec<char>| p@) =~= sp);
            let keep = keep_parts(&parts);
            if keep.len() > 0 {
                out.append("\x1b[");
                let joined = join_strings(&keep, ";");
                out.append(joined.as_str());
                out.append("m");
            }
            return;
        }
    }
    out.append("\x1b[");
    push_range(out, cs, ps, a);
    push_char(out, term);
}

/// Strip ANSI background color sequences from a string.
/// Preserves foreground colors, text attributes, and all UTF-8 content:
/// an escape sequence that the text does not finish is kept as it is.
fn strip_ansi_bg(cs: &Vec<char>) -> (r: String)
    ensures
        r@ == strip_bg_from(cs@, 0),
{
    let n = cs.len();
    let mut out = String::new();
    let mut pos: usize = 0;
    while pos < n
        invariant
            n == cs@.len(),
            pos <= n,
            out@ + strip_bg_from(cs@, pos as int) == strip_bg_from(cs@, 0),
        decreases n - pos,
    {
        if cs[pos] == '\x1b' && pos + 1 < n && cs[pos + 1] == '[' {
            let mut a = pos + 2;
            while a < n && !alpha(cs[a])
                invariant
                    pos + 2 <= a <= n,
                    n == cs@.len(),
                    alpha_from(cs@, pos + 2) == alpha_from(cs@, a as int),
                decreases n - a,
            {
                a += 1;
            }
            if a < n {
                proof { lemma_alpha_from(cs@, pos + 2); }
                push_csi_without_bg(&mut out, cs, pos + 2, a, cs[a]);
                pos = a + 1;
            } else {
                push_range(&mut out, cs, pos, n);
                pos = n;
            }
        } else {
            push_char(&mut out, cs[pos]);
            pos += 1;
        }
    }
    out
}

/// No ASCII letter in `s`.
pub open spec fn no_alpha(s: Seq<char>) -> bool {
    forall|i: int| 0 <= i < s.len() ==> !is_alpha(#[trigger] s[i])
}

proof fn lemma_split_no_alpha(s: Seq<char>, c: char)
    requires
        no_alpha(s),
    ensures
        forall|k: int| 0 <= k < split_char(s, c).len() ==> no_alpha(#[trigger] split_char(s, c)[k]),
    decreases s.len(),
{
    if s.len() > 0 {
        let d = s.drop_last();
        assert(no_alpha(d)) by {
            assert forall|i: int| 0 <= i < d.len() implies !is_alpha(#[trigger] d[i]) by {
                assert(d[i] == s[i]);
            }
        }
        lemma_split_no_alpha(d, c);
        lemma_split_nonempty(d, c);
        let p = split_char(d, c);
        if s.last() == c {
            let q = p.push(Seq::<char>::empty());
            assert forall|k: int| 0 <= k < q.len() implies no_alpha(#[trigger] q[k]) by {
                if k < p.len() {
                    assert(q[k] == p[k]);
                }
            }
        } else {
            let l = p.last().push(s.last());
            let q = p.update(p.len() - 1, l);
            assert(no_alpha(p[p.len() - 1]));
            assert(!is_alpha(s[s.len() - 1]));
            assert(no_alpha(l)) by {
                assert forall|j: int| 0 <= j < l.len() implies !is_alpha(#[trigger] l[j]) by {
                    if j < l.len() - 1 {
                        assert(l[j] == p.last()[j]);
                    }
                }
            }
            assert forall|k: int| 0 <= k < q.len() implies no_alpha(#[trigger] q[k]) by {
                if k < p.len() - 1 {
                    assert(q[k] == p[k]);
                }
            }
        }
    }
}

proof fn lemma_keep_no_alpha(parts: Seq<Seq<char>>, i: int)
    requires
        forall|k: int| 0 <= k < parts.len() ==> no_alpha(#[trigger] parts[k]),
    ensures
        forall|k: int| 0 <= k < keep_from(parts, i).len() ==> no_alpha(#[trigger] keep_from(parts, i)[k]),
    decreases parts.len() - i,
{
    if 0 <= i < parts.len() {
        let c = code_of(parts[i]);
        let step: int = if is_bg_code(c) {
            1
        } else if c == 48 || c == 38 {
            if i + 2 < parts.len() && parts[i + 1] == seq!['5'] {
                3
            } else if i + 4 < parts.len() && parts[i + 1] == seq!['2'] {
                5
            } else {
                1
            }
        } else {
            1
        };
        lemma_keep_no_alpha(parts, i + step);
        let rest = keep_from(parts, i + step);
        let head = parts.subrange(i, i + step);
        assert forall|k: int| 0 <= k < head.len() implies no_alpha(#[trigger] head[k]) by {
            assert(head[k] == parts[i + k]);
        }
        assert(seq![parts[i]] =~= parts.subrange(i, i + 1));
        let all = head + rest;
        assert forall|k: int| 0 <= k < all.len() implies no_alpha(#[trigger] all[k]) by {
            if k < head.len() {
                assert(all[k] == head[k]);
            } else {
                assert(all[k] == rest[k - head.len()]);
            }
        }
    }
}

proof fn lemma_join_no_alpha(parts: Seq<Seq<char>>, sep: Seq<char>)
    requires
        no_alpha(sep),
        forall|k: int| 0 <= k < parts.len() ==> no_alpha(#[trigger] parts[k]),
    ensures
        no_alpha(join(parts, sep)),
    decreases parts.len(),
{
    if parts.len() == 1 {
        assert(no_alpha(parts[0]));
    } else if parts.len() > 1 {
        let d = parts.drop_last();
        assert forall|k: int| 0 <= k < d.len() implies no_alpha(#[trigger] d[k]) by {
            assert(d[k] == parts[k]);
        }
        lemma_join_no_alpha(d, sep);
        let j = join(d, sep);
        let l = parts.last();
        assert(no_alpha(parts[parts.len() - 1]));
        let r = j + sep + l;
        assert forall|i: int| 0 <= i < r.len() implies !is_alpha(#[trigger] r[i]) by {
            if i < j.len() {
                assert(r[i] == j[i]);
            } else if i < j.len() + sep.len() {
                assert(r[i] == sep[i - j.len()]);
            } else {
                assert(r[i] == l[i - j.len() - sep.len()]);
            }
        }
    }
}

/// What `strip_ansi_bg` writes for a whole CSI sequence shows nothing and
/// ends outside any escape sequence.
proof fn lemma_csi_without_bg_hidden(params: Seq<char>, term: char)
    requires
        no_alpha(params),
        is_alpha(term),
    ensures
        strip_seq(csi_without_bg(params, term)) == Seq::<char>::empty(),
        at_rest(strip_state(csi_without_bg(params, term))),
{
    reveal_strlit("\x1b[");
    reveal_strlit("m");
    reveal_strlit(";");
    assert("\x1b["@ =~= seq!['\x1b', '[']);
    assert("m"@ =~= seq!['m']);
    if term == 'm' && has_bg_params(params) {
        let keep = keep_from(split_char(params, ';'), 0);
        if keep.len() > 0 {
            lemma_split_no_alpha(params, ';');
            lemma_keep_no_alpha(split_char(params, ';'), 0);
            assert(no_alpha(";"@)) by {
                assert forall|i: int| 0 <= i < ";"@.len() implies !is_alpha(#[trigger] ";"@[i]) by {}
            }
            lemma_join_no_alpha(keep, ";"@);
            let j = join(keep, ";"@);
            assert forall|i: int| 0 <= i < j.len() implies !is_alpha(#[trigger] j[i]) by {}
            lemma_csi(j, 'm');
        } else {
            assert(strip_seq(Seq::<char>::empty()) == Seq::<char>::empty());
            assert(strip_state(Seq::<char>::empty()) == (false, false, false, false));
        }
    } else {
        assert forall|i: int| 0 <= i < params.len() implies !is_alpha(#[trigger] params[i]) by {}
        lemma_csi(params, term);
    }
}

/// Every ESC of `cs` opens a CSI sequence (`ESC [`).
pub open spec fn csi_only(cs: Seq<char>) -> bool {
    forall|i: int| 0 <= i < cs.len() && #[trigger] cs[i] == '\x1b' ==> i + 1 < cs.len() && cs[i + 1] == '['
}

proof fn lemma_strip_bg_from_visible(cs: Seq<char>, pos: int)
    requires
        csi_only(cs),
        0 <= pos <= cs.len(),
    ensures
        strip_seq(strip_bg_from(cs, pos)) == strip_seq(cs.skip(pos)),
    decreases cs.len() - pos,
{
    if pos == cs.len() {
        assert(cs.skip(pos) =~= Seq::<char>::empty());
    } else if cs[pos] == '\x1b' && pos + 1 < cs.len() && cs[pos + 1] == '[' {
        lemma_alpha_from(cs, pos + 2);
        let a = alpha_from(cs, pos + 2);
        if a < cs.len() {
            let body = cs.subrange(pos + 2, a);
            assert forall|i: int| 0 <= i < body.len() implies !is_alpha(#[trigger] body[i]) by {
                assert(body[i] == cs[pos + 2 + i]);
                assert(!is_alpha(cs[pos + 2 + i]));
            }
            lemma_csi(body, cs[a]);
            let piece = seq!['\x1b', '['] + body + seq![cs[a]];
            assert(cs.skip(pos) =~= piece + cs.skip(a + 1));
            lemma_strip_concat(piece, cs.skip(a + 1));
            lemma_csi_without_bg_hidden(body, cs[a]);
            lemma_strip_concat(csi_without_bg(body, cs[a]), strip_bg_from(cs, a + 1));
            lemma_strip_bg_from_visible(cs, a + 1);
            assert(Seq::<char>::empty() + strip_seq(cs.skip(a + 1)) =~= strip_seq(cs.skip(a + 1)));
        } else {
            assert(cs.subrange(pos, cs.len() as int) =~= cs.skip(pos));
        }
    } else {
        let c = cs[pos];
        assert(c != '\x1b');
        let one = seq![c];
        assert(one.drop_last() =~= Seq::<char>::empty());
        assert(strip_state(one.drop_last()) == (false, false, false, false));
        assert(strip_seq(one.drop_last()) == Seq::<char>::empty());
        assert(at_rest(strip_state(one)));
        assert(strip_seq(one) == one);
        assert(cs.skip(pos) =~= one + cs.skip(pos + 1));
        lemma_strip_concat(one, cs.skip(pos + 1));
        lemma_strip_concat(one, strip_bg_from(cs, pos + 1));
        lemma_strip_bg_from_visible(cs, pos + 1);
    }
}

/// Dropping background codes changes nothing that shows: on a text whose
/// escapes are all CSI sequences, what is visible of the result is what
/// is visible of the text, unfinished sequences included.
pub proof fn law_strip_bg_keeps_visible_text(cs: Seq<char>)
    requires
        csi_only(cs),
    ensures
        strip_seq(strip_bg_from(cs, 0)) == strip_seq(cs),
        display_width_spec(strip_bg_from(cs, 0)) == display_width_spec(cs),
{
    lemma_strip_bg_from_visible(cs, 0);
    assert(cs.skip(0) =~= cs);
}

} // verus!

verus! {

// ---------------------------------------------------------------------
// Word wrapping
// ---------------------------------------------------------------------

/// Columns that `wrap_lines` counts for a character: characters without
/// a width count as one.
pub open spec fn width_or_one(c: char) -> nat {
    match char_width_spec(c) {
        Some(w) => w as nat,
        None => 1,
    }
}

/// `a + b`, held at `usize::MAX`.
pub open spec fn sat_add(a: nat, b: nat) -> nat {
    if a + b > usize::MAX { usize::MAX as nat } else { a + b }
}

/// The end of an OSC body that starts at `j`: past a BEL, past `ESC \`,
/// or the end of the line.
pub open spec fn osc_stop(cs: Seq<char>, j: int) -> int
    decreases cs.len() - j,
{
    if j < 0 || j >= cs.len() {
        cs.len() as int
    } else if cs[j] == '\x07' {
        j + 1
    } else if cs[j] == '\x1b' && j + 1 < cs.len() && cs[j + 1] == '\\' {
        j + 2
    } else {
        osc_stop(cs, j + 1)
    }
}

pub proof fn lemma_osc_stop(cs: Seq<char>, j: int)
    requires
        0 <= j <= cs.len(),
    ensures
        j <= osc_stop(cs, j) <= cs.len(),
    decreases cs.len() - j,
{
    if j < cs.len() && cs[j] != '\x07' && !(cs[j] == '\x1b' && j + 1 < cs.len() && cs[j + 1] == '\\') {
        lemma_osc_stop(cs, j + 1);
    }
}

/// The last position of `c` in `s`, if any.
pub open spec fn last_index(s: Seq<char>, c: char) -> Option<int>
    decreases s.len(),
{
    if s.len() == 0 {
        None
    } else if s.last() == c {
        Some(s.len() - 1)
    } else {
        last_index(s.drop_last(), c)
    }
}

/// The state of the word wrapper: the line being built, its width, the
/// last SGR sequence still in force, and the lines already finished.
pub struct WrapState {
    pub cur: Seq<char>,
    pub cw: nat,
    pub active: Seq<char>,
    pub lines: Seq<Seq<char>>,
}

/// The new line started when a character does not fit: the words after
/// the last space move down (behind the SGR sequence in force), or, with
/// no space, the whole line is finished as it is.
pub open spec fn wrap_break(st: WrapState) -> WrapState {
    match last_index(st.cur, ' ') {
        Some(sp) => {
            let nc = st.active + st.cur.skip(sp + 1);
            WrapState {
                lines: st.lines.push(st.cur.take(sp)),
                cur: nc,
                cw: display_width_spec(strip_seq(nc)) as nat,
                ..st
            }
        },
        None => WrapState { lines: st.lines.push(st.cur), cur: st.active, cw: 0, ..st },
    }
}

/// Word-wrapping a line from position `i` on: escape sequences pass
/// through at no width, every other character goes on the current line,
/// which breaks first if the character would make it wider than `width`.
pub open spec fn wrap_go(cs: Seq<char>, i: int, st: WrapState, width: nat) -> Seq<Seq<char>>
    decreases cs.len() - i,
{
    if i < 0 || i >= cs.len() {
        if st.cur.len() > 0 || st.lines.len() == 0 {
            st.lines.push(st.cur)
        } else {
            st.lines
        }
    } else if cs[i] == '\x1b' && i + 1 < cs.len() && cs[i + 1] == '[' {
        proof { lemma_alpha_from(cs, i + 2); }
        let stop = alpha_from(cs, i + 2);
        let end = if stop < cs.len() { stop + 1 } else { cs.len() as int };
        let sq = cs.subrange(i, end);
        wrap_go(
            cs,
            end,
            WrapState { cur: st.cur + sq, active: if sq == "\x1b[0m"@ { Seq::empty() } else { sq }, ..st },
            width,
        )
    } else if cs[i] == '\x1b' && i + 1 < cs.len() && cs[i + 1] == ']' {
        proof { lemma_osc_stop(cs, i + 2); }
        let end = osc_stop(cs, i + 2);
        wrap_go(cs, end, WrapState { cur: st.cur + cs.subrange(i, end), ..st }, width)
    } else {
        let w = width_or_one(cs[i]);
        let st2 = if st.cw + w > width { wrap_break(st) } else { st };
        wrap_go(cs, i + 1, WrapState { cur: st2.cur.push(cs[i]), cw: sat_add(st2.cw, w), ..st2 }, width)
    }
}

pub open spec fn wrap_init() -> WrapState {
    WrapState { cur: Seq::empty(), cw: 0, active: Seq::empty(), lines: Seq::empty() }
}

/// The physical lines of one text line: the line itself when wrapping
/// is off or it fits, else the word-wrapped pieces.
pub open spec fn wrap_line(line: Seq<char>, wrap: bool, width: nat) -> Seq<Seq<char>> {
    if !wrap || display_width_spec(line) <= width {
        seq![line]
    } else {
        wrap_go(line, 0, wrap_init(), width)
    }
}

/// All the lists, one after the other.
pub open spec fn concat_all(ss: Seq<Seq<Seq<char>>>) -> Seq<Seq<char>>
    decreases ss.len(),
{
    if ss.len() == 0 {
        Seq::empty()
    } else {
        concat_all(ss.drop_last()) + ss.last()
    }
}

/// Eight spaces, what a tab becomes.
pub open spec fn tab_spaces() -> Seq<char> {
    "        "@
}

/// The physical lines of a text for a content width: tabs become eight
/// spaces, the text splits at newlines, and each line wraps.
pub open spec fn wrap_lines_spec(text: Seq<char>, wrap: bool, width: nat) -> Seq<Seq<char>> {
    if width == 0 {
        Seq::empty()
    } else {
        let parts = split_char(replace_char(text, '\t', tab_spaces()), '\n');
        concat_all(Seq::new(parts.len(), |k: int| wrap_line(parts[k], wrap, width)))
    }
}

/// The last position of `c` in `v`.
fn last_index_exec(v: &Vec<char>, c: char) -> (r: Option<usize>)
    ensures
        match r {
            Some(k) => last_index(v@, c) == Some(k as int) && k < v@.len(),
            None => last_index(v@, c) is None,
        },
{
    let mut k = v.len();
    assert(v@.take(k as int) == v@);
    while k > 0
        invariant
            k <= v@.len(),
            last_index(v@, c) == last_index(v@.take(k as int), c),
        decreases k,
    {
        assert(v@.take(k as int).drop_last() == v@.take(k - 1));
        if v[k - 1] == c {
            return Some(k - 1);
        }
        k -= 1;
    }
    None
}

/// The end of the OSC body that starts at `j`.
fn osc_end(cs: &Vec<char>, j: usize) -> (r: usize)
    requires
        j <= cs@.len(),
    ensures
        r == osc_stop(cs@, j as int),
{
    let n = cs.len();
    let mut i = j;
    while i < n
        invariant
            j <= i <= n,
            n == cs@.len(),
            osc_stop(cs@, j as int) == osc_stop(cs@, i as int),
        decreases n - i,
    {
        if cs[i] == '\x07' {
            return i + 1;
        }
        if cs[i] == '\x1b' && i + 1 < n && cs[i + 1] == '\\' {
            return i + 2;
        }
        i += 1;
    }
    n
}

/// `v[lo..hi]` as a vector.
fn sub_vec(v: &Vec<char>, lo: usize, hi: usize) -> (r: Vec<char>)
    requires
        lo <= hi <= v@.len(),
    ensures
        r@ == v@.subrange(lo as int, hi as int),
{
    let mut r: Vec<char> = Vec::new();
    let mut k = lo;
    while k < hi
        invariant
            lo <= k <= hi <= v@.len(),
            r@ == v@.subrange(lo as int, k as int),
        decreases hi - k,
    {
        r.push(v[k]);
        k += 1;
    }
    r
}

/// `a` followed by `b`.
fn cat_vec(a: &Vec<char>, b: &Vec<char>) -> (r: Vec<char>)
    ensures
        r@ == a@ + b@,
{
    let mut r = sub_vec(a, 0, a.len());
    assert(a@.subrange(0, a@.len() as int) == a@);
    let mut k: usize = 0;
    while k < b.len()
        invariant
            k <= b@.len(),
            r@ == a@ + b@.take(k as int),
        decreases b@.len() - k,
    {
        r.push(b[k]);
        assert(b@.take(k + 1) == b@.take(k as int).push(b@[k as int]));
        k += 1;
    }
    assert(b@.take(b@.len() as int) == b@);
    r
}

/// Word-wrap one line that is wider than `width`.
fn wrap_one(cs: &Vec<char>, width: usize) -> (r: Vec<String>)
    ensures
        views(r@) == wrap_go(cs@, 0, wrap_init(), width as nat),
{
    let n = cs.len();
    let reset = chars_of("\x1b[0m");
    let mut result: Vec<String> = Vec::new();
    let mut current: Vec<char> = Vec::new();
    let mut current_width: usize = 0;
    let mut active: Vec<char> = Vec::new();
    let mut i: usize = 0;
    assert(views(result@) =~= Seq::<Seq<char>>::empty());
    while i < n
        invariant
            n == cs@.len(),
            i <= n,
            reset@ == "\x1b[0m"@,
            wrap_go(cs@, 0, wrap_init(), width as nat) == wrap_go(
                cs@,
                i as int,
                WrapState { cur: current@, cw: current_width as nat, active: active@, lines: views(result@) },
                width as nat,
            ),
        decreases n - i,
    {
        if cs[i] == '\x1b' && i + 1 < n && cs[i + 1] == '[' {
            let start = i;
            i += 2;
            while i < n && !alpha(cs[i])
                invariant
                    start + 2 <= i <= n,
                    n == cs@.len(),
                    alpha_from(cs@, start + 2) == alpha_from(cs@, i as int),
                decreases n - i,
            {
                i += 1;
            }
            if i < n {
                i += 1;
            }
            let sq = sub_vec(cs, start, i);
            if same_chars(&sq, &reset) {
                active = Vec::new();
            } else {
                active = sub_vec(cs, start, i);
            }
            current = cat_vec(&current, &sq);
        } else if cs[i] == '\x1b' && i + 1 < n && cs[i + 1] == ']' {
            let start = i;
            i = osc_end(cs, i + 2);
            proof { lemma_osc_stop(cs@, start + 2); }
            let sq = sub_vec(cs, start, i);
            current = cat_vec(&current, &sq);
        } else {
            let c = cs[i];
            let ch_width: usize = match char_width(c) {
                Some(w) => w,
                None => 1,
            };
            if ch_width > width || current_width > width - ch_width {
                match last_index_exec(&current, ' ') {
                    Some(space_pos) => {
                        let clen = current.len();
                        assert(space_pos < clen);
                        let remainder = sub_vec(&current, space_pos + 1, clen);
                        let head = sub_vec(&current, 0, space_pos);
                        let ghost r0 = result@;
                        result.push(string_of(&head));
                        assert(views(result@) =~= views(r0).push(current@.take(space_pos as int)));
                        current = cat_vec(&active, &remainder);
                        let cur_s = string_of(&current);
                        let stripped = strip_ansi(cur_s.as_str());
                        current_width = display_width(stripped.as_str());
                    },
                    None => {
                        let ghost r0 = result@;
                        result.push(string_of(&current));
                        assert(views(result@) =~= views(r0).push(current@));
                        current = sub_vec(&active, 0, active.len());
                        assert(active@.subrange(0, active@.len() as int) == active@);
                        current_width = 0;
                    },
                }
            }
            current.push(c);
            current_width = current_width.saturating_add(ch_width);
            i += 1;
        }
    }
    if current.len() > 0 || result.len() == 0 {
        let ghost r0 = result@;
        result.push(string_of(&current));
        assert(views(result@) =~= views(r0).push(current@));
    }
    result
}

} // verus!

verus! {

// ---------------------------------------------------------------------
// The pane
// ---------------------------------------------------------------------

/// How a pane's lines sit inside its width.
#[derive(Clone, Copy, PartialEq, Eq, Structural)]
pub enum Align {
    Left,
    Center,
    Right,
}

/// A terminal pane with position, size, content, and rendering state
pub struct Pane {
    pub x: u16,
    pub y: u16,
    pub w: u16,
    pub h: u16,
    pub fg: u16,
    pub bg: u16,
    pub border: bool,
    /// Custom border color (falls back to fg)
    pub border_fg: Option<u16>,
    pub scroll: bool,
    /// Custom scroll indicator color
    pub scroll_fg: Option<u16>,
    pub align: Align,
    pub ix: usize,
    pub index: usize,
    pub prompt: String,
    pub record: bool,
    pub history: Vec<String>,
    pub moreup: bool,
    pub moredown: bool,
    /// Flag for conditional rendering
    pub update: bool,
    /// Word-wrap long lines (default true)
    pub wrap: bool,
    /// The content and its cached line count.
    pub content: PaneText,
    /// The rows drawn by the last refresh.
    pub drawn: DrawnFrame,
    /// What is still to be written to the terminal.
    pub pending: Pending,
}

/// What a pane has still to write to the terminal. Only this module
/// reaches inside; other modules append to it.
pub struct Pending {
    out: String,
}

impl Pending {
    /// The text to write.
    pub closed spec fn text(&self) -> Seq<char> {
        self.out@
    }

    /// Append `s`.
    pub(crate) fn append(&mut self, s: &str)
        ensures
            final(self).text() == old(self).text() + s@,
    {
        self.out.append(s);
    }
}

/// The rows a pane drew at its last refresh, which the next refresh
/// compares against. Only this module reaches inside.
pub struct DrawnFrame {
    rows: Vec<String>,
}

impl DrawnFrame {
    /// The rows drawn.
    pub closed spec fn rows(&self) -> Seq<Seq<char>> {
        views(self.rows@)
    }
}

/// A pane's text and its line count once that has been asked for. Only
/// this module reaches inside, and it keeps the count that of the text.
pub struct PaneText {
    text: String,
    line_count: Option<usize>,
}

impl PaneText {
    /// The text.
    pub closed spec fn string(&self) -> String {
        self.text
    }

    /// The cached line count, if any.
    pub closed spec fn count(&self) -> Option<usize> {
        self.line_count
    }

    /// A text with no line count cached.
    pub(crate) fn fresh(s: String) -> (r: PaneText)
        ensures
            r.string() == s,
            r.count() is None,
    {
        PaneText { text: s, line_count: None }
    }
}

/// The scroll position a page (less one line) below `ix`, no further
/// than a page before the end of `lc` lines.
fn page_down_ix(ix: usize, h: u16, lc: usize) -> (r: usize)
    requires
        ix + sat_sub(h as nat, 1) <= usize::MAX,
    ensures
        r == min_nat(ix as nat + sat_sub(h as nat, 1), sat_sub(lc as nat, h as nat)),
{
    let page = h as usize;
    let step: usize = if page >= 1 { page - 1 } else { 0 };
    let a = ix + step;
    let b: usize = if lc >= page { lc - page } else { 0 };
    if a <= b { a } else { b }
}

/// `x` read as a signed 16-bit number.
pub open spec fn as_i16(x: u16) -> int {
    if x < 32768 { x as int } else { x - 65536 }
}

/// The coordinate `x` moved by `d`, and kept at 1 or more.
pub open spec fn moved(x: u16, d: i16) -> u16 {
    let v = as_i16(x) + d;
    if v >= 1 { v as u16 } else { 1 }
}

fn moved_exec(x: u16, d: i16) -> (r: u16)
    requires
        i16::MIN <= as_i16(x) + d <= i16::MAX,
    ensures
        r == moved(x, d),
{
    let xi: i32 = if x < 32768 { x as i32 } else { x as i32 - 65536 };
    let v: i32 = xi + d as i32;
    if v >= 1 { v as u16 } else { 1 }
}

/// How many times `c` occurs in `s`.
pub open spec fn count_char(s: Seq<char>, c: char) -> nat
    decreases s.len(),
{
    if s.len() == 0 {
        0
    } else {
        count_char(s.drop_last(), c) + if s.last() == c { 1nat } else { 0nat }
    }
}

/// `line` placed in `width` columns: as it is, centred, or right-aligned
/// by leading spaces when it is narrower.
pub open spec fn align_spec(a: Align, line: Seq<char>, width: nat) -> Seq<char> {
    let vis = display_width_spec(line) as nat;
    match a {
        Align::Left => line,
        Align::Center => if vis >= width { line } else { spaces(((width - vis) as nat / 2) as nat) + line },
        Align::Right => if vis >= width { line } else { spaces((width - vis) as nat) + line },
    }
}

/// The colour prefix of a pane: its background, then its foreground.
pub open spec fn colors_spec(fg: u16, bg: u16) -> Seq<char> {
    "\x1b[48;5;"@ + dec(bg as nat) + "m"@ + "\x1b[38;5;"@ + dec(fg as nat) + "m"@
}

/// Move the cursor to `row`, `col`.
pub open spec fn goto_spec(row: nat, col: nat) -> Seq<char> {
    "\x1b["@ + dec(row) + ";"@ + dec(col) + "H"@
}

/// A content line made ready for the pane: tabs become eight spaces; a
/// line with its own background keeps it, a line with other escapes
/// loses its background codes, and in both every full reset is
/// followed by the pane colours again.
pub open spec fn processed_line(content: Seq<char>, colors: Seq<char>) -> Seq<char> {
    let expanded = replace_char(content, '\t', tab_spaces());
    let has_ansi = contains_sub(expanded, "\x1b["@);
    let reset_fix = "\x1b[0m"@ + colors;
    if has_ansi && bg_scan(expanded, 0) {
        replace_sub(expanded, "\x1b[0m"@, reset_fix)
    } else if has_ansi {
        replace_sub(strip_bg_from(expanded, 0), "\x1b[0m"@, reset_fix)
    } else {
        expanded
    }
}

/// What the pane writes for one row: go to the row, pane colours, the
/// line clipped to the width, padding in pane colours, reset.
pub open spec fn render_line_spec(row: nat, cx: nat, cw: nat, colors: Seq<char>, content: Seq<char>) -> Seq<char> {
    let processed = processed_line(content, colors);
    let clipped = if display_width_spec(processed) > cw { truncate_spec(processed, cw) } else { processed };
    let cl = display_width_spec(clipped) as nat;
    let pad = if cl < cw { "\x1b[0m"@ + colors + spaces((cw - cl) as nat) } else { Seq::empty() };
    goto_spec(row, cx) + colors + clipped + pad + "\x1b[0m"@
}

/// All the pieces, one after the other.
pub open spec fn concat(ss: Seq<Seq<char>>) -> Seq<char>
    decreases ss.len(),
{
    if ss.len() == 0 {
        Seq::empty()
    } else {
        concat(ss.drop_last()) + ss.last()
    }
}

pub fn push_goto(out: &mut String, row: u64, col: u64)
    ensures
        final(out)@ == old(out)@ + goto_spec(row as nat, col as nat),
{
    out.append("\x1b[");
    push_dec(out, row);
    out.append(";");
    push_dec(out, col);
    out.append("H");
}

pub(crate) fn colors_exec(fg: u16, bg: u16) -> (r: String)
    ensures
        r@ == colors_spec(fg, bg),
{
    let mut r = String::from_str("\x1b[48;5;");
    push_dec(&mut r, bg as u64);
    r.append("m\x1b[38;5;");
    push_dec(&mut r, fg as u64);
    r.append("m");
    proof { reveal_strlit("m\x1b[38;5;"); reveal_strlit("m"); reveal_strlit("\x1b[38;5;"); }
    assert("m\x1b[38;5;"@ == "m"@ + "\x1b[38;5;"@);
    r
}

/// A content line made ready for the pane (see `processed_line`).
fn process_line(content: &str, colors: &str) -> (r: String)
    ensures
        r@ == processed_line(content@, colors@),
{
    let cs = chars_of(content);
    let mut expanded = String::new();
    push_replaced(&mut expanded, &cs, '\t', "        ");
    let ecs = chars_of(expanded.as_str());
    let esc_open = chars_of("\x1b[");
    let has_ansi = contains_at_any(&ecs, &esc_open);
    let reset = chars_of("\x1b[0m");
    proof { reveal_strlit("\x1b[0m"); }
    let mut reset_fix = String::from_str("\x1b[0m");
    reset_fix.append(colors);
    let processed = if has_ansi && has_ansi_bg(&ecs) {
        let mut p = String::new();
        push_replaced_sub(&mut p, &ecs, &reset, reset_fix.as_str());
        p
    } else if has_ansi {
        let no_bg = strip_ansi_bg(&ecs);
        let nb = chars_of(no_bg.as_str());
        let mut p = String::new();
        push_replaced_sub(&mut p, &nb, &reset, reset_fix.as_str());
        p
    } else {
        expanded
    };
    processed
}

/// Appends what the pane writes for one row.
fn push_pane_line(out: &mut String, row: u64, cx: u64, cw: u16, colors: &str, content: &str)
    ensures
        final(out)@ == old(out)@ + render_line_spec(row as nat, cx as nat, cw as nat, colors@, content@),
{
    let processed = process_line(content, colors);
    let max_w = cw as usize;
    let vis_len = display_width(processed.as_str());
    let clipped = if vis_len > max_w {
        truncate_ansi(processed.as_str(), max_w)
    } else {
        processed
    };
    let clipped_len = display_width(clipped.as_str());
    push_goto(out, row, cx);
    out.append(colors);
    out.append(clipped.as_str());
    if clipped_len < max_w {
        out.append("\x1b[0m");
        out.append(colors);
        push_repeat(out, " ", max_w - clipped_len);
    }
    out.append("\x1b[0m");
}

} // verus!

verus! {

/// Word-wrap `text` to fit `width`, preserving ANSI codes.
fn wrap_text(text: &str, wrap: bool, width: usize) -> (r: Vec<String>)
    ensures
        views(r@) == wrap_lines_spec(text@, wrap, width as nat),
{
    let mut result: Vec<String> = Vec::new();
    if width == 0 {
        assert(views(result@) =~= Seq::<Seq<char>>::empty());
        return result;
    }
    let cs = chars_of(text);
    let mut expanded = String::new();
    push_replaced(&mut expanded, &cs, '\t', "        ");
    let ecs = chars_of(expanded.as_str());
    let parts = split_chars(&ecs, '\n');
    let ghost sp = split_char(ecs@, '\n');
    let ghost per = Seq::new(sp.len(), |k: int| wrap_line(sp[k], wrap, width as nat));
    let mut k: usize = 0;
    assert(views(result@) =~= concat_all(per.take(0)));
    while k < parts.len()
        invariant
            parts@.len() == sp.len(),
            forall|q: int| 0 <= q < parts@.len() ==> #[trigger] parts@[q]@ == sp[q],
            per == Seq::new(sp.len(), |k: int| wrap_line(sp[k], wrap, width as nat)),
            k <= parts@.len(),
            width > 0,
            views(result@) == concat_all(per.take(k as int)),
        decreases parts@.len() - k,
    {
        let line = string_of(&parts[k]);
        assert(per.take(k + 1).drop_last() == per.take(k as int));
        let ghost r0 = views(result@);
        if !wrap || display_width(line.as_str()) <= width {
            result.push(line);
            assert(views(result@) =~= r0 + seq![sp[k as int]]);
        } else {
            let pieces = wrap_one(&parts[k], width);
            let mut j: usize = 0;
            while j < pieces.len()
                invariant
                    j <= pieces@.len(),
                    views(result@) == r0 + views(pieces@).take(j as int),
                decreases pieces@.len() - j,
            {
                let ghost r1 = result@;
                result.push(pieces[j].clone());
                assert(views(result@) =~= views(r1).push(pieces@[j as int]@));
                assert(views(pieces@).take(j + 1) =~= views(pieces@).take(j as int).push(pieces@[j as int]@));
                j += 1;
            }
            assert(views(pieces@).take(pieces@.len() as int) == views(pieces@));
        }
        k += 1;
    }
    assert(per.take(parts@.len() as int) == per);
    result
}

/// Align a line within the content width
fn align_text(a: Align, line: &str, width: usize) -> (r: String)
    ensures
        r@ == align_spec(a, line@, width as nat),
{
    let vis_len = display_width(line);
    match a {
        Align::Left => String::from_str(line),
        Align::Center => {
            if vis_len >= width {
                String::from_str(line)
            } else {
                let mut r = String::new();
                push_repeat(&mut r, " ", (width - vis_len) / 2);
                r.append(line);
                r
            }
        },
        Align::Right => {
            if vis_len >= width {
                String::from_str(line)
            } else {
                let mut r = String::new();
                push_repeat(&mut r, " ", width - vis_len);
                r.append(line);
                r
            }
        },
    }
}

/// What is written for the row `i` of `frame`: the row when it differs
/// from the row drawn before, nothing when it is the same.
pub open spec fn row_piece(x: u16, y: u16, w: u16, colors: Seq<char>, frame: Seq<Seq<char>>, prev: Seq<Seq<char>>, i: int) -> Seq<char> {
    if i >= prev.len() || prev[i] != frame[i] {
        render_line_spec((y + i) as nat, x as nat, w as nat, colors, frame[i])
    } else {
        Seq::empty()
    }
}

/// What is written for the rows of `frame` that differ from `prev`.
pub open spec fn rows_spec(x: u16, y: u16, w: u16, colors: Seq<char>, frame: Seq<Seq<char>>, prev: Seq<Seq<char>>) -> Seq<char> {
    concat(Seq::new(frame.len(), |i: int| row_piece(x, y, w, colors, frame, prev, i)))
}

/// Appends the rows of `frame` that differ from `prev`.
fn push_rows(out: &mut String, x: u16, y: u16, w: u16, colors: &str, frame: &Vec<String>, prev: &Vec<String>)
    requires
        y + frame@.len() <= u16::MAX + 1,
    ensures
        final(out)@ == old(out)@ + rows_spec(x, y, w, colors@, views(frame@), views(prev@)),
{
    let ghost fv = views(frame@);
    let ghost pv = views(prev@);
    let ghost pieces = Seq::new(fv.len(), |i: int| row_piece(x, y, w, colors@, fv, pv, i));
    let mut j: usize = 0;
    while j < frame.len()
        invariant
            j <= frame@.len(),
            fv == views(frame@),
            pv == views(prev@),
            y + frame@.len() <= u16::MAX + 1,
            pieces == Seq::new(fv.len(), |i: int| row_piece(x, y, w, colors@, fv, pv, i)),
            out@ == old(out)@ + concat(pieces.take(j as int)),
        decreases frame@.len() - j,
    {
        assert(pieces.take(j + 1).drop_last() == pieces.take(j as int));
        let changed = j >= prev.len() || !(prev[j] == frame[j]);
        proof {
            if j < prev@.len() {
                assert(pv[j as int] == prev@[j as int]@);
            }
            assert(fv[j as int] == frame@[j as int]@);
        }
        if changed {
            push_pane_line(out, y as u64 + j as u64, x as u64, w, colors, frame[j].as_str());
        }
        j += 1;
    }
    assert(pieces.take(frame@.len() as int) == pieces);
}

/// `a - b`, held at 0.
pub open spec fn sat_sub(a: nat, b: nat) -> nat {
    if a >= b { (a - b) as nat } else { 0 }
}

pub open spec fn min_nat(a: nat, b: nat) -> nat {
    if a <= b { a } else { b }
}

/// One blank row of the content area: spaces in the pane background.
pub open spec fn blank_row(x: u16, y: u16, w: u16, bg: u16, r: int) -> Seq<char> {
    goto_spec((y + r) as nat, x as nat) + "\x1b[48;5;"@ + dec(bg as nat) + "m"@ + spaces(w as nat) + "\x1b[0m"@
}

/// Every row of the content area blanked.
pub open spec fn blank_rows(x: u16, y: u16, w: u16, h: u16, bg: u16) -> Seq<char> {
    concat(Seq::new(h as nat, |r: int| blank_row(x, y, w, bg, r)))
}

/// The two sides of the border at content row `r`.
pub open spec fn side_row(y: u16, left: nat, right: nat, codes: Seq<char>, r: int) -> Seq<char> {
    goto_spec((y + r) as nat, left) + codes + "\u{2502}"@ + goto_spec((y + r) as nat, right) + "\u{2502}"@
}

/// The border colours: foreground, then background.
pub open spec fn border_codes_spec(bfg: u16, bg: u16) -> Seq<char> {
    "\x1b[38;5;"@ + dec(bfg as nat) + "m"@ + "\x1b[48;5;"@ + dec(bg as nat) + "m"@
}

fn border_codes(bfg: u16, bg: u16) -> (r: String)
    ensures
        r@ == border_codes_spec(bfg, bg),
{
    let mut codes = String::from_str("\x1b[38;5;");
    push_dec(&mut codes, bfg as u64);
    codes.append("m\x1b[48;5;");
    push_dec(&mut codes, bg as u64);
    codes.append("m");
    proof { reveal_strlit("m\x1b[48;5;"); reveal_strlit("m"); reveal_strlit("\x1b[48;5;"); }
    assert("m\x1b[48;5;"@ == "m"@ + "\x1b[48;5;"@);
    codes
}

/// The top and bottom edges of a border.
pub open spec fn border_caps(top: nat, left: nat, bottom: nat, codes: Seq<char>, hbar: Seq<char>) -> Seq<char> {
    goto_spec(top, left) + codes + "\u{250c}"@ + hbar + "\u{2510}"@ + goto_spec(bottom, left) + codes
        + "\u{2514}"@ + hbar + "\u{2518}"@
}

fn push_border_caps(out: &mut String, top: u64, left: u64, bottom: u64, codes: &str, hbar: &str)
    ensures
        final(out)@ == old(out)@ + border_caps(top as nat, left as nat, bottom as nat, codes@, hbar@),
{
    push_goto(out, top, left);
    out.append(codes);
    out.append("\u{250c}");
    out.append(hbar);
    out.append("\u{2510}");
    push_goto(out, bottom, left);
    out.append(codes);
    out.append("\u{2514}");
    out.append(hbar);
    out.append("\u{2518}");
}

/// The sides of a border, row by row.
pub open spec fn border_sides(y: u16, h: u16, left: nat, right: nat, codes: Seq<char>) -> Seq<char> {
    concat(Seq::new(h as nat, |r: int| side_row(y, left, right, codes, r)))
}

#[verifier::rlimit(30)]
fn push_border_sides(out: &mut String, y: u16, h: u16, left: u64, right: u64, codes: &str)
    requires
        y + h <= u16::MAX,
    ensures
        final(out)@ == old(out)@ + border_sides(y, h, left as nat, right as nat, codes@),
{
    let ghost pieces = Seq::new(h as nat, |r: int| side_row(y, left as nat, right as nat, codes@, r));
    let mut row: u16 = 0;
    while row < h
        invariant
            row <= h,
            y + h <= u16::MAX,
            pieces == Seq::new(h as nat, |r: int| side_row(y, left as nat, right as nat, codes@, r)),
            out@ == old(out)@ + concat(pieces.take(row as int)),
        decreases h - row,
    {
        assert(pieces.take(row + 1).drop_last() == pieces.take(row as int));
        push_goto(out, y as u64 + row as u64, left);
        out.append(codes);
        out.append("\u{2502}");
        push_goto(out, y as u64 + row as u64, right);
        out.append("\u{2502}");
        row += 1;
    }
    assert(pieces.take(h as int) == pieces);
}

pub proof fn lemma_assoc4(a: Seq<char>, b: Seq<char>, c: Seq<char>, d: Seq<char>)
    ensures
        a + b + c + d == a + (b + c + d),
{
    assert(a + b + c + d =~= a + (b + c + d));
}

/// The rows `lo .. lo + n` of `frame`, each written in full.
pub open spec fn rows_at(x: u16, y: u16, w: u16, colors: Seq<char>, frame: Seq<Seq<char>>, lo: int, n: nat) -> Seq<char> {
    concat(Seq::new(n, |k: int| render_line_spec((y + lo + k) as nat, x as nat, w as nat, colors, frame[lo + k])))
}

/// The scroll marker at `row`, `col`: `∆` above, `∇` below.
pub open spec fn marker_spec(row: nat, col: nat, color: u16, up: bool) -> Seq<char> {
    goto_spec(row, col) + "\x1b[38;5;"@ + dec(color as nat) + "m"@ + (if up { "\u{2206}"@ } else { "\u{2207}"@ })
        + "\x1b[0m"@
}

fn push_marker(out: &mut String, row: u64, col: u64, color: u16, up: bool)
    ensures
        final(out)@ == old(out)@ + marker_spec(row as nat, col as nat, color, up),
{
    push_goto(out, row, col);
    out.append("\x1b[38;5;");
    push_dec(out, color as u64);
    out.append("m");
    if up {
        out.append("\u{2206}");
    } else {
        out.append("\u{2207}");
    }
    out.append("\x1b[0m");
}

impl Pane {
    /// The pane's text.
    pub open spec fn text_view(&self) -> Seq<char> {
        self.content.string()@
    }

    /// The cached line count, if any.
    pub open spec fn cached_count(&self) -> Option<usize> {
        self.content.count()
    }

    /// The lines drawn by the last refresh.
    pub open spec fn frame_view(&self) -> Seq<Seq<char>> {
        self.drawn.rows()
    }

    /// What the pane has to write to the terminal and has not handed over yet.
    pub open spec fn output(&self) -> Seq<char> {
        self.pending.text()
    }

    /// The cached line count, where there is one, is that of the text.
    pub open spec fn wf(&self) -> bool {
        self.cached_count() matches Some(c) ==> c == sat_add(count_char(self.text_view(), '\n'), 1)
    }

    /// The scroll markers asked for have 16-bit positions: the last column
    /// for either, the last row for the one below.
    pub open spec fn markers_fit(&self, up: bool, down: bool) -> bool {
        &&& (self.scroll && (up || down)) ==> 1 <= self.x + self.w <= u16::MAX
        &&& (self.scroll && down) ==> 1 <= self.y + self.h <= u16::MAX
    }

    /// What drawing `text` scrolled to `ix` needs: 16-bit row numbers
    /// for the rows, and room for the scroll markers it shows.
    pub open spec fn draw_fits(&self, text: Seq<char>, ix: nat) -> bool {
        &&& self.rows_fit()
        &&& self.markers_fit(ix > 0, self.more_below(text, ix))
    }

    /// The border ring's far column and row have 16-bit numbers.
    pub open spec fn border_fits(&self) -> bool {
        &&& self.x + self.w <= u16::MAX
        &&& self.y + self.h <= u16::MAX
    }

    /// What a full repaint needs: room for the border, where there is
    /// one, and for drawing the text as it is scrolled.
    pub open spec fn full_fits(&self) -> bool {
        &&& self.border ==> self.border_fits()
        &&& self.draw_fits(self.text_view(), self.ix as nat)
    }

    /// Every row of the content area has a 16-bit row number.
    pub open spec fn rows_fit(&self) -> bool {
        self.y + self.h <= u16::MAX + 1
    }

    /// The pane and the border ring around it fit the terminal's
    /// 16-bit coordinates, and the last column and row are at least 0.
    pub open spec fn fits(&self) -> bool {
        &&& self.x + self.w <= u16::MAX
        &&& self.y + self.h <= u16::MAX
        &&& self.x + self.w >= 1
        &&& self.y + self.h >= 1
    }

    /// Everything but the text, its cached line count, the history, the
    /// scroll position, the scroll flags, the drawn frame and the pending output.
    pub open spec fn same_style(&self, other: &Pane) -> bool {
        &&& self.x == other.x
        &&& self.y == other.y
        &&& self.w == other.w
        &&& self.h == other.h
        &&& self.fg == other.fg
        &&& self.bg == other.bg
        &&& self.border == other.border
        &&& self.border_fg == other.border_fg
        &&& self.scroll == other.scroll
        &&& self.scroll_fg == other.scroll_fg
        &&& self.align == other.align
        &&& self.index == other.index
        &&& self.prompt == other.prompt
        &&& self.record == other.record
        &&& self.update == other.update
        &&& self.wrap == other.wrap
    }

    /// The same layout, text, cache and scroll position.
    pub open spec fn same_content(&self, other: &Pane) -> bool {
        &&& self.same_style(other)
        &&& self.history == other.history
        &&& self.text_view() == other.text_view()
        &&& self.cached_count() == other.cached_count()
        &&& self.ix == other.ix
    }

    /// The physical lines of `text` in this pane.
    pub closed spec fn lines_of(&self, text: Seq<char>) -> Seq<Seq<char>> {
        wrap_lines_spec(text, self.wrap, self.w as nat)
    }

    /// The rows shown for `text` scrolled to `ix`: aligned lines, then
    /// empty rows below the end.
    pub closed spec fn frame_of(&self, text: Seq<char>, ix: nat) -> Seq<Seq<char>> {
        let lines = self.lines_of(text);
        Seq::new(
            self.h as nat,
            |i: int| if ix + i < lines.len() { align_spec(self.align, lines[ix + i], self.w as nat) } else { Seq::empty() },
        )
    }

    /// What is written for the rows of `frame` that differ from `prev`.
    pub closed spec fn rows_output(&self, frame: Seq<Seq<char>>, prev: Seq<Seq<char>>) -> Seq<char> {
        rows_spec(self.x, self.y, self.w, colors_spec(self.fg, self.bg), frame, prev)
    }

    /// The colour of the scroll markers.
    pub closed spec fn marker_color(&self) -> u16 {
        match self.scroll_fg {
            Some(c) => c,
            None => self.fg,
        }
    }

    /// The scroll markers: top right when there is more above, bottom
    /// right when there is more below, none when scroll markers are off.
    pub closed spec fn markers(&self, up: bool, down: bool) -> Seq<char> {
        if self.scroll {
            (if up { marker_spec(self.y as nat, (self.x + self.w - 1) as nat, self.marker_color(), true) } else { Seq::empty() })
                + (if down {
                marker_spec((self.y + self.h - 1) as nat, (self.x + self.w - 1) as nat, self.marker_color(), false)
            } else {
                Seq::empty()
            })
        } else {
            Seq::empty()
        }
    }

    /// More lines below the screen for `text` scrolled to `ix`.
    pub closed spec fn more_below(&self, text: Seq<char>, ix: nat) -> bool {
        ix + self.h < self.lines_of(text).len()
    }

    /// What a refresh writes for `text` scrolled to `ix`, after `prev` was drawn.
    pub closed spec fn refresh_output(&self, text: Seq<char>, ix: nat, prev: Seq<Seq<char>>) -> Seq<char> {
        self.rows_output(self.frame_of(text, ix), prev) + self.markers(ix > 0, self.more_below(text, ix))
    }

    /// `post` is `self` refreshed: the changed rows and the markers are
    /// written, the frame is remembered, the scroll flags are set.
    pub open spec fn refreshed_into(&self, post: &Pane) -> bool {
        &&& post.same_content(self)
        &&& self.shows(post, self.text_view(), self.ix as nat)
    }

    /// `post` shows `text` scrolled to `ix`, refreshed from `self`: the
    /// rows that differ from what `self` drew and the markers are written,
    /// the new rows are remembered, the scroll flags are set.
    pub open spec fn shows(&self, post: &Pane, text: Seq<char>, ix: nat) -> bool {
        &&& post.output() == self.output() + self.refresh_output(text, ix, self.frame_view())
        &&& post.frame_view() == self.frame_of(text, ix)
        &&& post.moreup == (ix > 0)
        &&& post.moredown == self.more_below(text, ix)
    }

    /// The history after `text` was replaced while recording: the old
    /// text is remembered when there was one, and the oldest entry goes
    /// when that makes more than 100.
    pub open spec fn history_after(&self) -> Seq<String> {
        if self.record && self.text_view().len() > 0 {
            let h = self.history@.push(self.content.string());
            if h.len() > 100 { h.remove(0) } else { h }
        } else {
            self.history@
        }
    }

    /// The number of lines of the text: one more than its newlines.
    pub open spec fn count_spec(&self) -> usize {
        sat_add(count_char(self.text_view(), '\n'), 1) as usize
    }

    /// The line count as `line_count` answers it: the cached one where
    /// there is one, else that of the text.
    pub open spec fn lines_known(&self) -> usize {
        match self.cached_count() {
            Some(c) => c,
            None => self.count_spec(),
        }
    }

    /// The border ring drawn around the pane, one column and row outside
    /// the content area, in the border colour on the pane background.
    pub closed spec fn border_output(&self) -> Seq<char> {
        let left = sat_sub(self.x as nat, 1);
        let top = sat_sub(self.y as nat, 1);
        let right = (self.x + self.w) as nat;
        let bottom = (self.y + self.h) as nat;
        let bfg = match self.border_fg {
            Some(c) => c,
            None => self.fg,
        };
        let codes = border_codes_spec(bfg, self.bg);
        border_caps(top, left, bottom, codes, repeat("\u{2500}"@, self.w as nat))
            + border_sides(self.y, self.h, left, right, codes) + "\x1b[0m"@
    }

    /// The number of rows `scroll_refresh` moves by.
    pub open spec fn abs_delta(delta: i32) -> nat {
        if delta >= 0 { delta as nat } else { (-delta) as nat }
    }

    /// `scroll_refresh` redraws the usual way: no movement, a movement of
    /// a whole page or more, or no full previous frame to move.
    pub open spec fn scroll_falls_back(&self, delta: i32) -> bool {
        let abs = Self::abs_delta(delta);
        abs == 0 || abs >= self.h || self.frame_view().len() != self.h
    }

    /// What `scroll_refresh` writes before the new rows: the old scroll
    /// markers rubbed out, the scroll region set to the pane, the content
    /// moved by line feeds (down) or reverse index (up), the region reset.
    pub closed spec fn scroll_head(&self, delta: i32) -> Seq<char> {
        let abs = Self::abs_delta(delta);
        let col = (self.x + self.w - 1) as nat;
        let top = self.y as nat;
        let bot = (self.y + self.h - 1) as nat;
        (if self.scroll { goto_spec(top, col) + " "@ + goto_spec(bot, col) + " "@ } else { Seq::empty() })
            + "\x1b["@ + dec(top) + ";"@ + dec(bot) + "r"@
            + (if delta > 0 { goto_spec(bot, 1) + repeat("\n"@, abs) } else { goto_spec(top, 1) + repeat("\x1bM"@, abs) })
            + "\x1b[r"@
    }

    /// What `scroll_refresh` writes when it does not fall back: the
    /// movement, the rows that came into view, the scroll markers.
    pub closed spec fn scroll_output(&self, delta: i32) -> Seq<char> {
        let abs = Self::abs_delta(delta);
        let frame = self.frame_of(self.text_view(), self.ix as nat);
        let colors = colors_spec(self.fg, self.bg);
        let first = if delta > 0 { self.h - abs } else { 0 };
        self.scroll_head(delta) + rows_at(self.x, self.y, self.w, colors, frame, first, abs)
            + self.markers(self.ix > 0, self.more_below(self.text_view(), self.ix as nat))
    }

    /// `post` is `self` after a scroll by `delta` that does not fall back.
    pub open spec fn scrolled_into(&self, post: &Pane, delta: i32) -> bool {
        &&& post.same_content(self)
        &&& post.output() == self.output() + self.scroll_output(delta)
        &&& post.frame_view() == self.frame_of(self.text_view(), self.ix as nat)
        &&& post.moreup == (self.ix > 0)
        &&& post.moredown == self.more_below(self.text_view(), self.ix as nat)
    }

    /// What `lineup` does: one line up and a refresh, unless at the top.
    pub open spec fn lineup_post(&self, post: &Pane) -> bool {
        &&& (post.wf() == self.wf())
        &&& (post.same_style(self))
        &&& (post.history == self.history)
        &&& (post.text_view() == self.text_view())
        &&& (post.cached_count() == self.cached_count())
        &&& (self.ix > 0 ==> post.ix == self.ix - 1 && self.shows(post, self.text_view(), (self.ix - 1) as nat))
        &&& (self.ix == 0 ==> *post == *self)
    }

    /// What `linedown` does: the line count is cached; one line down and a refresh, unless at the last line.
    pub open spec fn linedown_post(&self, post: &Pane) -> bool {
        &&& (post.wf() == self.wf())
        &&& (post.same_style(self))
        &&& (post.history == self.history)
        &&& (post.text_view() == self.text_view())
        &&& (post.cached_count() == Some(self.lines_known()))
        &&& (self.ix + 1 < self.lines_known() ==> post.ix == self.ix + 1 && self.shows(post, self.text_view(), (self.ix + 1) as nat))
        &&& (self.ix + 1 >= self.lines_known() ==> post.ix == self.ix && post.output() == self.output() && post.frame_view() == self.frame_view() && post.moreup == self.moreup && post.moredown == self.moredown)
    }

    /// What `pageup` does: a page (less one line) up, no further than the top, and a refresh.
    pub open spec fn pageup_post(&self, post: &Pane) -> bool {
        &&& (post.wf() == self.wf())
        &&& (post.same_style(self))
        &&& (post.history == self.history)
        &&& (post.text_view() == self.text_view())
        &&& (post.cached_count() == self.cached_count())
        &&& (post.ix == sat_sub(self.ix as nat, sat_sub(self.h as nat, 1)))
        &&& (self.shows(post, self.text_view(), post.ix as nat))
    }

    /// What `pagedown` does: the line count is cached; a page (less one line) down, no further than a page before the end, and a refresh.
    pub open spec fn pagedown_post(&self, post: &Pane) -> bool {
        &&& (post.wf() == self.wf())
        &&& (post.same_style(self))
        &&& (post.history == self.history)
        &&& (post.text_view() == self.text_view())
        &&& (post.cached_count() == Some(self.lines_known()))
        &&& (post.ix == min_nat(self.ix as nat + sat_sub(self.h as nat, 1), sat_sub(self.lines_known() as nat, self.h as nat)))
        &&& (self.shows(post, self.text_view(), post.ix as nat))
    }

    /// What `top` does: to the first line, and a refresh.
    pub open spec fn top_post(&self, post: &Pane) -> bool {
        &&& (post.wf() == self.wf())
        &&& (post.same_style(self))
        &&& (post.history == self.history)
        &&& (post.text_view() == self.text_view())
        &&& (post.cached_count() == self.cached_count())
        &&& (post.ix == 0)
        &&& (self.shows(post, self.text_view(), 0))
    }

    /// What `bottom` does: the line count is cached; to a page before the end, and a refresh.
    pub open spec fn bottom_post(&self, post: &Pane) -> bool {
        &&& (post.wf() == self.wf())
        &&& (post.same_style(self))
        &&& (post.history == self.history)
        &&& (post.text_view() == self.text_view())
        &&& (post.cached_count() == Some(self.lines_known()))
        &&& (post.ix == sat_sub(self.lines_known() as nat, self.h as nat))
        &&& (self.shows(post, self.text_view(), post.ix as nat))
    }

    /// `post` is `self` repainted in full: the content area blanked, the
    /// border drawn, and every row drawn as if nothing had been before.
    pub open spec fn full_refreshed_into(&self, post: &Pane) -> bool {
        &&& post.wf() == self.wf()
        &&& post.same_content(self)
        &&& post.output() == self.output()
            + blank_rows(self.x, self.y, self.w, self.h, self.bg)
            + (if self.border { self.border_output() } else { Seq::empty() })
            + self.refresh_output(self.text_view(), self.ix as nat, Seq::empty())
        &&& post.frame_view() == self.frame_of(self.text_view(), self.ix as nat)
        &&& post.moreup == (self.ix > 0)
        &&& post.moredown == self.more_below(self.text_view(), self.ix as nat)
    }

    /// The pane moved by `dx`, `dy`: each coordinate read as a signed
    /// 16-bit number, moved, and kept at 1 or more.
    pub open spec fn moved_by(&self, dx: i16, dy: i16) -> Pane {
        Pane { x: moved(self.x, dx), y: moved(self.y, dy), ..*self }
    }

    /// Panes alike in everything `same_style` compares draw alike: the
    /// same lines, rows, markers, border and refresh output.
    pub proof fn lemma_style_decides(&self, other: &Pane)
        requires
            self.same_style(other),
        ensures
            self.border_output() == other.border_output(),
            forall|t: Seq<char>| #[trigger] self.lines_of(t) == other.lines_of(t),
            forall|t: Seq<char>, i: nat| #[trigger] self.frame_of(t, i) == other.frame_of(t, i),
            forall|t: Seq<char>, i: nat| #[trigger] self.more_below(t, i) == other.more_below(t, i),
            forall|t: Seq<char>, i: nat, p: Seq<Seq<char>>| #[trigger] self.refresh_output(t, i, p) == other.refresh_output(t, i, p),
    {
    }

    /// Create a new pane at position (x, y) with size (w, h) and colors
    pub fn new(x: u16, y: u16, w: u16, h: u16, fg: u16, bg: u16) -> (p: Self)
        ensures
            p.wf(),
            p.x == x && p.y == y && p.w == w && p.h == h && p.fg == fg && p.bg == bg,
            !p.border && p.border_fg is None && p.scroll && p.scroll_fg is None,
            p.align == Align::Left,
            p.ix == 0 && p.index == 0,
            p.prompt@ == Seq::<char>::empty(),
            !p.record && p.history@.len() == 0,
            !p.moreup && !p.moredown && p.update && p.wrap,
            p.text_view() == Seq::<char>::empty(),
            p.cached_count() is None,
            p.frame_view() == Seq::<Seq<char>>::empty(),
            p.output() == Seq::<char>::empty(),
    {
        let p = Pane {
            x,
            y,
            w,
            h,
            fg,
            bg,
            border: false,
            border_fg: None,
            scroll: true,
            scroll_fg: None,
            align: Align::Left,
            ix: 0,
            index: 0,
            prompt: String::new(),
            record: false,
            history: Vec::new(),
            moreup: false,
            moredown: false,
            update: true,
            wrap: true,
            content: PaneText { text: String::new(), line_count: None },
            drawn: DrawnFrame { rows: Vec::new() },
            pending: Pending { out: String::new() },
        };
        assert(p.frame_view() =~= Seq::<Seq<char>>::empty());
        p
    }

    /// Hand over what the pane has to write to the terminal.
    pub fn take_output(&mut self) -> (r: String)
        ensures
            *final(self) == (Pane { pending: final(self).pending, ..*old(self) }),
            r@ == old(self).output(),
            final(self).output() == Seq::<char>::empty(),
            final(self).same_content(old(self)),
            final(self).frame_view() == old(self).frame_view(),
            final(self).moreup == old(self).moreup,
            final(self).moredown == old(self).moredown,
            final(self).wf() == old(self).wf(),
    {
        let mut r = String::new();
        std::mem::swap(&mut r, &mut self.pending.out);
        r
    }

    /// Get pane text content
    pub fn text(&self) -> (r: &str)
        ensures
            r@ == self.text_view(),
    {
        self.content.text.as_str()
    }

    /// Content area is always (x, y, w, h).
    /// Border is drawn OUTSIDE the content area.
    pub(crate) fn content_area(&self) -> (r: (u16, u16, u16, u16))
        ensures
            r == (self.x, self.y, self.w, self.h),
    {
        (self.x, self.y, self.w, self.h)
    }

    /// Word-wrap text to fit width, preserving ANSI codes
    fn wrap_lines(&self, width: usize) -> (r: Vec<String>)
        ensures
            views(r@) == wrap_lines_spec(self.text_view(), self.wrap, width as nat),
    {
        wrap_text(self.content.text.as_str(), self.wrap, width)
    }

    /// Align a line within the content width
    fn align_line(&self, line: &str, width: usize) -> (r: String)
        ensures
            r@ == align_spec(self.align, line@, width as nat),
    {
        align_text(self.align, line, width)
    }

    /// The rows shown for the text scrolled to `ix`, given its physical lines.
    fn frame_rows(&self, lines: &Vec<String>) -> (frame: Vec<String>)
        requires
            views(lines@) == self.lines_of(self.text_view()),
        ensures
            views(frame@) == self.frame_of(self.text_view(), self.ix as nat),
    {
        let total = lines.len();
        let ch = self.h;
        let cw = self.w;
        let mut frame: Vec<String> = Vec::new();
        let mut i: usize = 0;
        while i < ch as usize
            invariant
                i <= ch,
                ch == self.h,
                cw == self.w,
                total == lines@.len(),
                views(lines@) == self.lines_of(self.text_view()),
                frame@.len() == i,
                forall|k: int| 0 <= k < i ==> #[trigger] frame@[k]@ == self.frame_of(self.text_view(), self.ix as nat)[k],
            decreases ch - i,
        {
            if i < total && self.ix < total - i {
                assert(lines@[self.ix + i]@ == self.lines_of(self.text_view())[self.ix + i]);
                let line = self.align_line(lines[self.ix + i].as_str(), cw as usize);
                frame.push(line);
            } else {
                frame.push(String::new());
            }
            i += 1;
        }
        assert(views(frame@) =~= self.frame_of(self.text_view(), self.ix as nat));
        frame
    }

    /// Appends the scroll markers.
    fn push_markers(&mut self, up: bool, down: bool)
        requires
            old(self).markers_fit(up, down),
        ensures
            *final(self) == (Pane { pending: final(self).pending, ..*old(self) }),
            final(self).output() == old(self).output() + old(self).markers(up, down),
            final(self).same_content(old(self)),
            final(self).frame_view() == old(self).frame_view(),
            final(self).moreup == old(self).moreup,
            final(self).moredown == old(self).moredown,
    {
        if self.scroll {
            let sc = match self.scroll_fg {
                Some(c) => c,
                None => self.fg,
            };
            let ghost o0 = self.pending.out@;
            if up {
                push_marker(&mut self.pending.out, self.y as u64, self.x as u64 + self.w as u64 - 1, sc, true);
            }
            let ghost o1 = self.pending.out@;
            if down {
                push_marker(&mut self.pending.out, self.y as u64 + self.h as u64 - 1, self.x as u64 + self.w as u64 - 1, sc, false);
            }
        }
    }

    /// Diff-based refresh: only redraws changed lines
    #[verifier::rlimit(40)]
    pub fn refresh(&mut self)
        requires
            old(self).draw_fits(old(self).text_view(), old(self).ix as nat),
        ensures
            *final(self) == (Pane { pending: final(self).pending, drawn: final(self).drawn, moreup: final(self).moreup, moredown: final(self).moredown, ..*old(self) }),
            old(self).refreshed_into(final(self)),
            final(self).wf() == old(self).wf(),
    {
        let ghost pre = *self;
        let lines = self.wrap_lines(self.w as usize);
        let total = lines.len();
        let frame = self.frame_rows(&lines);
        self.moreup = self.ix > 0;
        self.moredown = total >= self.h as usize && self.ix < total - self.h as usize;
        let pane_colors = colors_exec(self.fg, self.bg);
        assert(frame@.len() == views(frame@).len());
        push_rows(&mut self.pending.out, self.x, self.y, self.w, pane_colors.as_str(), &frame, &self.drawn.rows);
        let (up, down) = (self.moreup, self.moredown);
        self.push_markers(up, down);
        self.drawn.rows = frame;
        assert(self.same_content(&pre));
        assert(self.frame_view() == pre.frame_of(pre.text_view(), pre.ix as nat));
        assert(self.moreup == (pre.ix > 0));
        assert(self.moredown == pre.more_below(pre.text_view(), pre.ix as nat));
        assert(self.output() == pre.output() + pre.refresh_output(pre.text_view(), pre.ix as nat, pre.frame_view()));
    }

    /// Set pane text content (invalidates line_count cache)
    pub fn set_text(&mut self, text: &str)
        ensures
            final(self).wf(),
            final(self).same_style(old(self)),
            final(self).ix == old(self).ix,
            final(self).text_view() == text@,
            final(self).cached_count() is None,
            final(self).history@ == old(self).history_after(),
            final(self).frame_view() == old(self).frame_view(),
            final(self).output() == old(self).output(),
            final(self).moreup == old(self).moreup,
            final(self).moredown == old(self).moredown,
            *final(self) == (Pane { content: final(self).content, history: final(self).history, ..*old(self) }),
    {
        if self.record && !self.content.text.as_str().is_empty() {
            self.history.push(self.content.text.clone());
            if self.history.len() > 100 {
                self.history.remove(0);
            }
        }
        self.content = PaneText { text: String::from_str(text), line_count: None };
    }

    /// Get line count (cached)
    pub fn line_count(&mut self) -> (r: usize)
        ensures
            *final(self) == (Pane { content: final(self).content, ..*old(self) }),
            r == old(self).lines_known(),
            final(self).wf() == old(self).wf(),
            final(self).cached_count() == Some(r),
            final(self).same_style(old(self)),
            final(self).history == old(self).history,
            final(self).text_view() == old(self).text_view(),
            final(self).ix == old(self).ix,
            final(self).frame_view() == old(self).frame_view(),
            final(self).output() == old(self).output(),
            final(self).moreup == old(self).moreup,
            final(self).moredown == old(self).moredown,
    {
        if let Some(c) = self.content.line_count {
            return c;
        }
        let cs = chars_of(self.content.text.as_str());
        let mut count: usize = 0;
        let mut i: usize = 0;
        while i < cs.len()
            invariant
                i <= cs@.len(),
                count <= i,
                count == count_char(cs@.take(i as int), '\n'),
            decreases cs@.len() - i,
        {
            assert(cs@.take(i + 1).drop_last() == cs@.take(i as int));
            if cs[i] == '\n' {
                count += 1;
            }
            i += 1;
        }
        assert(cs@.take(cs@.len() as int) == cs@);
        let c = count.saturating_add(1);
        self.content.line_count = Some(c);
        c
    }

    /// Set text and refresh (resets scroll)
    pub fn say(&mut self, text: &str)
        requires
            old(self).draw_fits(text@, 0),
        ensures
            final(self).wf(),
            final(self).same_style(old(self)),
            final(self).ix == 0,
            final(self).text_view() == text@,
            final(self).cached_count() is None,
            final(self).history@ == old(self).history_after(),
            old(self).shows(final(self), text@, 0),
    {
        self.set_text(text);
        self.ix = 0;
        self.refresh();
    }

    /// Blank the content area row by row in the pane's background.
    fn push_blank_rows(&mut self)
        requires
            old(self).rows_fit(),
        ensures
            final(self).output() == old(self).output() + blank_rows(old(self).x, old(self).y, old(self).w, old(self).h, old(self).bg),
            final(self).same_content(old(self)),
            final(self).frame_view() == old(self).frame_view(),
            final(self).moreup == old(self).moreup,
            final(self).moredown == old(self).moredown,
            final(self).wf() == old(self).wf(),
    {
        let ghost pre = *self;
        let mut bg_code = String::from_str("\x1b[48;5;");
        push_dec(&mut bg_code, self.bg as u64);
        bg_code.append("m");
        let blank = repeat_str(" ", self.w as usize);
        let ghost pieces = Seq::new(pre.h as nat, |r: int| blank_row(pre.x, pre.y, pre.w, pre.bg, r));
        let (x, y, h) = (self.x, self.y, self.h);
        let mut acc = String::new();
        let mut row: u16 = 0;
        while row < h
            invariant
                row <= h,
                x == pre.x && y == pre.y && h == pre.h,
                bg_code@ == "\x1b[48;5;"@ + dec(pre.bg as nat) + "m"@,
                blank@ == spaces(pre.w as nat),
                pieces == Seq::new(pre.h as nat, |r: int| blank_row(pre.x, pre.y, pre.w, pre.bg, r)),
                acc@ == concat(pieces.take(row as int)),
            decreases h - row,
        {
            assert(pieces.take(row + 1).drop_last() == pieces.take(row as int));
            push_goto(&mut acc, y as u64 + row as u64, x as u64);
            acc.append(bg_code.as_str());
            acc.append(blank.as_str());
            acc.append("\x1b[0m");
            row += 1;
        }
        assert(pieces.take(pre.h as int) == pieces);
        self.pending.out.append(acc.as_str());
    }

    /// Clear content
    pub fn clear(&mut self)
        requires
            old(self).rows_fit(),
        ensures
            final(self).wf(),
            final(self).same_style(old(self)),
            final(self).ix == 0,
            final(self).text_view() == Seq::<char>::empty(),
            final(self).cached_count() is None,
            final(self).history@ == old(self).history_after(),
            final(self).output() == old(self).output() + blank_rows(old(self).x, old(self).y, old(self).w, old(self).h, old(self).bg),
            final(self).frame_view() == Seq::<Seq<char>>::empty(),
            final(self).moreup == old(self).moreup,
            final(self).moredown == old(self).moredown,
    {
        self.set_text("");
        proof { reveal_strlit(""); }
        self.ix = 0;
        self.push_blank_rows();
        self.drawn.rows.clear();
        assert(self.frame_view() =~= Seq::<Seq<char>>::empty());
    }

    /// Draw border OUTSIDE the pane area.
    /// Border occupies (x-1, y-1) to (x+w, y+h).
    fn draw_border(&mut self)
        requires
            old(self).border_fits(),
        ensures
            *final(self) == (Pane { pending: final(self).pending, ..*old(self) }),
            final(self).output() == old(self).output() + old(self).border_output(),
            final(self).same_content(old(self)),
            final(self).frame_view() == old(self).frame_view(),
            final(self).moreup == old(self).moreup,
            final(self).moredown == old(self).moredown,
            final(self).wf() == old(self).wf(),
    {
        let left: u64 = if self.x >= 1 { self.x as u64 - 1 } else { 0 };
        let top: u64 = if self.y >= 1 { self.y as u64 - 1 } else { 0 };
        let right: u64 = self.x as u64 + self.w as u64;
        let bottom: u64 = self.y as u64 + self.h as u64;
        let bfg = match self.border_fg {
            Some(c) => c,
            None => self.fg,
        };
        let codes = border_codes(bfg, self.bg);
        let hbar = repeat_str("\u{2500}", self.w as usize);
        let mut b = String::new();
        push_border_caps(&mut b, top, left, bottom, codes.as_str(), hbar.as_str());
        push_border_sides(&mut b, self.y, self.h, left, right, codes.as_str());
        b.append("\x1b[0m");
        assert(b@ == self.border_output());
        self.pending.out.append(b.as_str());
    }

    /// Refresh border only
    pub fn border_refresh(&mut self)
        requires
            old(self).border ==> old(self).border_fits(),
        ensures
            *final(self) == (Pane { pending: final(self).pending, ..*old(self) }),
            final(self).output() == old(self).output() + (if old(self).border { old(self).border_output() } else { Seq::empty() }),
            final(self).same_content(old(self)),
            final(self).frame_view() == old(self).frame_view(),
            final(self).moreup == old(self).moreup,
            final(self).moredown == old(self).moredown,
            final(self).wf() == old(self).wf(),
    {
        if self.border {
            self.draw_border();
        }
    }

    /// Force complete repaint (clears diff cache, redraws border)
    pub fn full_refresh(&mut self)
        requires
            old(self).full_fits(),
        ensures
            old(self).full_refreshed_into(final(self)),
    {
        self.drawn.rows.clear();
        assert(self.frame_view() =~= Seq::<Seq<char>>::empty());
        self.push_blank_rows();
        if self.border {
            self.draw_border();
        }
        self.refresh();
    }

    /// Move pane by relative amounts, and repaint it in full there.
    pub fn move_by(&mut self, dx: i16, dy: i16)
        requires
            i16::MIN <= as_i16(old(self).x) + dx <= i16::MAX,
            i16::MIN <= as_i16(old(self).y) + dy <= i16::MAX,
            old(self).moved_by(dx, dy).full_fits(),
        ensures
            old(self).moved_by(dx, dy).full_refreshed_into(final(self)),
            final(self).x == moved(old(self).x, dx),
            final(self).y == moved(old(self).y, dy),
    {
        self.x = moved_exec(self.x, dx);
        self.y = moved_exec(self.y, dy);
        self.full_refresh();
    }

    /// Scroll up one line
    pub fn lineup(&mut self)
        requires
            old(self).ix > 0 ==> old(self).draw_fits(old(self).text_view(), (old(self).ix - 1) as nat),
        ensures
            old(self).lineup_post(final(self)),
    {
        if self.ix > 0 {
            self.ix -= 1;
            self.refresh();
        }
    }

    /// Scroll down one line
    pub fn linedown(&mut self)
        requires
            old(self).ix + 1 < old(self).lines_known() ==> old(self).draw_fits(old(self).text_view(), (old(self).ix + 1) as nat),
        ensures
            old(self).linedown_post(final(self)),
    {
        let lc = self.line_count();
        if lc >= 1 && self.ix < lc - 1 {
            self.ix += 1;
            self.refresh();
        }
    }

    /// Scroll up one page
    pub fn pageup(&mut self)
        requires
            old(self).draw_fits(old(self).text_view(), sat_sub(old(self).ix as nat, sat_sub(old(self).h as nat, 1))),
        ensures
            old(self).pageup_post(final(self)),
    {
        let page = self.h as usize;
        let step: usize = if page >= 1 { page - 1 } else { 0 };
        self.ix = if self.ix >= step { self.ix - step } else { 0 };
        self.refresh();
    }

    /// Scroll down one page
    pub fn pagedown(&mut self)
        requires
            old(self).draw_fits(
                old(self).text_view(),
                min_nat(old(self).ix as nat + sat_sub(old(self).h as nat, 1), sat_sub(old(self).lines_known() as nat, old(self).h as nat)),
            ),
            old(self).ix + sat_sub(old(self).h as nat, 1) <= usize::MAX,
        ensures
            old(self).pagedown_post(final(self)),
    {
        let lc = self.line_count();
        self.ix = page_down_ix(self.ix, self.h, lc);
        self.refresh();
    }

    /// Scroll to top
    pub fn top(&mut self)
        requires
            old(self).draw_fits(old(self).text_view(), 0),
        ensures
            old(self).top_post(final(self)),
    {
        self.ix = 0;
        self.refresh();
    }

    /// Scroll to bottom
    pub fn bottom(&mut self)
        requires
            old(self).draw_fits(old(self).text_view(), sat_sub(old(self).lines_known() as nat, old(self).h as nat)),
        ensures
            old(self).bottom_post(final(self)),
    {
        let lc = self.line_count();
        let page = self.h as usize;
        self.ix = if lc >= page { lc - page } else { 0 };
        self.refresh();
    }

    /// Clean up caches and history
    pub fn cleanup(&mut self)
        ensures
            final(self).wf(),
            final(self).same_style(old(self)),
            final(self).text_view() == old(self).text_view(),
            final(self).ix == old(self).ix,
            final(self).history@.len() == 0,
            final(self).cached_count() is None,
            final(self).frame_view() == Seq::<Seq<char>>::empty(),
            final(self).output() == old(self).output(),
            final(self).moreup == old(self).moreup,
            final(self).moredown == old(self).moredown,
    {
        self.drawn.rows.clear();
        self.history.clear();
        self.content.line_count = None;
        assert(self.frame_view() =~= Seq::<Seq<char>>::empty());
    }

    /// The OSC sequence that sets the terminal window title.
    pub fn set_window_title(title: &str) -> (r: String)
        ensures
            r@ == "\x1b]0;"@ + title@ + "\x07"@,
    {
        let mut r = String::from_str("\x1b]0;");
        r.append(title);
        r.append("\x07");
        r
    }

    /// The rows `lo..hi` of `frame`, each written in full.
    fn push_frame_rows(&mut self, frame: &Vec<String>, colors: &str, lo: usize, hi: usize)
        requires
            old(self).fits(),
            lo <= hi <= frame@.len(),
            frame@.len() == old(self).h,
        ensures
            final(self).output() == old(self).output() + rows_at(old(self).x, old(self).y, old(self).w, colors@, views(frame@), lo as int, (hi - lo) as nat),
            final(self).same_content(old(self)),
            final(self).frame_view() == old(self).frame_view(),
            final(self).moreup == old(self).moreup,
            final(self).moredown == old(self).moredown,
            final(self).wf() == old(self).wf(),
    {
        let ghost pre = *self;
        let ghost fv = views(frame@);
        let ghost pieces = Seq::new(
            (hi - lo) as nat,
            |k: int| render_line_spec((pre.y + lo + k) as nat, pre.x as nat, pre.w as nat, colors@, fv[lo + k]),
        );
        let (x, y, w) = (self.x, self.y, self.w);
        let mut acc = String::new();
        let mut i = lo;
        while i < hi
            invariant
                lo <= i <= hi <= frame@.len(),
                frame@.len() == pre.h,
                pre.fits(),
                x == pre.x && y == pre.y && w == pre.w,
                fv == views(frame@),
                pieces == Seq::new(
                    (hi - lo) as nat,
                    |k: int| render_line_spec((pre.y + lo + k) as nat, pre.x as nat, pre.w as nat, colors@, fv[lo + k]),
                ),
                acc@ == concat(pieces.take(i - lo)),
            decreases hi - i,
        {
            assert(pieces.take(i - lo + 1).drop_last() == pieces.take(i - lo));
            assert(fv[i as int] == frame@[i as int]@);
            push_pane_line(&mut acc, y as u64 + i as u64, x as u64, w, colors, frame[i].as_str());
            i += 1;
        }
        assert(pieces.take(hi - lo) == pieces);
        self.pending.out.append(acc.as_str());
    }

    /// Efficient scroll by N lines using terminal scroll regions.
    /// Only renders the newly exposed line(s) instead of the full pane.
    /// `delta`: positive = scroll down (content moves up), negative = scroll up.
    /// Falls back to refresh() if delta is too large or prev_frame is empty.
    pub fn scroll_refresh(&mut self, delta: i32)
        requires
            old(self).scroll_falls_back(delta) ==> old(self).draw_fits(old(self).text_view(), old(self).ix as nat),
            !old(self).scroll_falls_back(delta) ==> old(self).fits(),
        ensures
            final(self).wf() == old(self).wf(),
            old(self).scroll_falls_back(delta) ==> old(self).refreshed_into(final(self)),
            !old(self).scroll_falls_back(delta) ==> old(self).scrolled_into(final(self), delta),
    {
        let h = self.h as usize;
        let abs: usize = if delta >= 0 { delta as usize } else { (-(delta as i64)) as usize };
        if abs == 0 || abs >= h || self.drawn.rows.len() != h {
            self.refresh();
        } else {
            self.scroll_shift(delta, abs);
        }
    }

    /// `scroll_refresh` when it does not fall back.
    #[verifier::rlimit(40)]
    fn scroll_shift(&mut self, delta: i32, abs: usize)
        requires
            old(self).fits(),
            !old(self).scroll_falls_back(delta),
            abs == Self::abs_delta(delta),
        ensures
            final(self).wf() == old(self).wf(),
            old(self).scrolled_into(final(self), delta),
    {
        let h = self.h as usize;
        let ghost pre = *self;
        let lines = self.wrap_lines(self.w as usize);
        let total = lines.len();
        let frame = self.frame_rows(&lines);
        self.moreup = self.ix > 0;
        self.moredown = total >= h && self.ix < total - h;
        let pane_colors = colors_exec(self.fg, self.bg);
        let head = self.scroll_head_exec(delta, abs);
        self.pending.out.append(head.as_str());
        let ghost o1 = self.pending.out@;
        assert(frame@.len() == views(frame@).len());
        let first: usize = if delta > 0 { h - abs } else { 0 };
        self.push_frame_rows(&frame, pane_colors.as_str(), first, first + abs);
        let ghost o2 = self.pending.out@;
        let (up, down) = (self.moreup, self.moredown);
        self.push_markers(up, down);
        self.drawn.rows = frame;
        proof {
            let fv = pre.frame_of(pre.text_view(), pre.ix as nat);
            assert(views(frame@) == fv);
            assert(self.same_content(&pre));
            assert(self.frame_view() == fv);
            assert(self.moreup == (pre.ix > 0));
            assert(self.moredown == pre.more_below(pre.text_view(), pre.ix as nat));
            assert(o1 == pre.output() + pre.scroll_head(delta));
            assert(o2 == o1 + rows_at(pre.x, pre.y, pre.w, colors_spec(pre.fg, pre.bg), fv, first as int, abs as nat));
            assert(self.output() == o2 + pre.markers(pre.ix > 0, pre.more_below(pre.text_view(), pre.ix as nat)));
            lemma_assoc4(
                pre.output(),
                pre.scroll_head(delta),
                rows_at(pre.x, pre.y, pre.w, colors_spec(pre.fg, pre.bg), fv, first as int, abs as nat),
                pre.markers(pre.ix > 0, pre.more_below(pre.text_view(), pre.ix as nat)),
            );
        }
    }

    /// The sequence that moves the scrolled content (see `scroll_head`).
    fn scroll_head_exec(&self, delta: i32, abs: usize) -> (head: String)
        requires
            self.fits(),
            abs == Self::abs_delta(delta),
        ensures
            head@ == self.scroll_head(delta),
    {
        let col: u64 = self.x as u64 + self.w as u64 - 1;
        let top_row: u64 = self.y as u64;
        let bot_row: u64 = self.y as u64 + self.h as u64 - 1;
        let mut head = String::new();
        if self.scroll {
            push_goto(&mut head, top_row, col);
            head.append(" ");
            push_goto(&mut head, bot_row, col);
            head.append(" ");
        }
        head.append("\x1b[");
        push_dec(&mut head, top_row);
        head.append(";");
        push_dec(&mut head, bot_row);
        head.append("r");
        if delta > 0 {
            push_goto(&mut head, bot_row, 1);
            push_repeat(&mut head, "\n", abs);
        } else {
            push_goto(&mut head, top_row, 1);
            push_repeat(&mut head, "\x1bM", abs);
        }
        head.append("\x1b[r");
        head
    }
}


/// Nothing but empty pieces concatenated is nothing.
pub proof fn lemma_concat_empty(ss: Seq<Seq<char>>)
    requires
        forall|i: int| 0 <= i < ss.len() ==> (#[trigger] ss[i]).len() == 0,
    ensures
        concat(ss) == Seq::<char>::empty(),
    decreases ss.len(),
{
    if ss.len() > 0 {
        lemma_concat_empty(ss.drop_last());
        assert(ss[ss.len() - 1].len() == 0);
        assert(concat(ss) =~= Seq::<char>::empty());
    }
}

proof fn lemma_last_index(s: Seq<char>, c: char)
    ensures
        match last_index(s, c) {
            Some(k) => 0 <= k < s.len() && s[k] == c,
            None => true,
        },
    decreases s.len(),
{
    if s.len() > 0 && s.last() != c {
        lemma_last_index(s.drop_last(), c);
    }
}

/// The lines fit `width` and hold only narrow characters.
pub open spec fn narrow_lines_fit(lines: Seq<Seq<char>>, width: nat) -> bool {
    forall|k: int| 0 <= k < lines.len() ==> all_narrow(#[trigger] lines[k]) && lines[k].len() <= width
}

/// Wrapping narrow text keeps every line within the width.
proof fn lemma_wrap_go_fits(cs: Seq<char>, i: int, st: WrapState, width: nat)
    requires
        all_narrow(cs),
        1 <= width <= usize::MAX,
        0 <= i <= cs.len(),
        st.active.len() == 0,
        all_narrow(st.cur),
        st.cw == st.cur.len(),
        st.cur.len() <= width,
        narrow_lines_fit(st.lines, width),
    ensures
        narrow_lines_fit(wrap_go(cs, i, st, width), width),
    decreases cs.len() - i,
{
    if i < cs.len() {
        let c = cs[i];
        assert(is_narrow(c));
        assert(c != '\x1b');
        assert(width_or_one(c) == 1);
        let st2 = if st.cw + 1 > width { wrap_break(st) } else { st };
        if st.cw + 1 > width {
            lemma_last_index(st.cur, ' ');
            match last_index(st.cur, ' ') {
                Some(sp) => {
                    let nc = st.active + st.cur.skip(sp + 1);
                    assert(nc =~= st.cur.skip(sp + 1));
                    assert(all_narrow(nc)) by {
                        assert forall|k: int| 0 <= k < nc.len() implies is_narrow(#[trigger] nc[k]) by {
                            assert(nc[k] == st.cur[sp + 1 + k]);
                        }
                    }
                    lemma_narrow_width(nc);
                    let t = st.cur.take(sp);
                    assert(all_narrow(t)) by {
                        assert forall|k: int| 0 <= k < t.len() implies is_narrow(#[trigger] t[k]) by {
                            assert(t[k] == st.cur[k]);
                        }
                    }
                    assert(st2.lines == st.lines.push(t));
                    assert(narrow_lines_fit(st2.lines, width)) by {
                        assert forall|k: int| 0 <= k < st2.lines.len() implies all_narrow(#[trigger] st2.lines[k]) && st2.lines[k].len() <= width by {
                            if k < st.lines.len() {
                                assert(st2.lines[k] == st.lines[k]);
                            }
                        }
                    }
                },
                None => {
                    assert(narrow_lines_fit(st2.lines, width)) by {
                        assert forall|k: int| 0 <= k < st2.lines.len() implies all_narrow(#[trigger] st2.lines[k]) && st2.lines[k].len() <= width by {
                            if k < st.lines.len() {
                                assert(st2.lines[k] == st.lines[k]);
                            }
                        }
                    }
                },
            }
        }
        let st3 = WrapState { cur: st2.cur.push(c), cw: sat_add(st2.cw, 1), ..st2 };
        assert(all_narrow(st3.cur)) by {
            assert forall|k: int| 0 <= k < st3.cur.len() implies is_narrow(#[trigger] st3.cur[k]) by {
                if k < st2.cur.len() {
                    assert(st3.cur[k] == st2.cur[k]);
                }
            }
        }
        lemma_wrap_go_fits(cs, i + 1, st3, width);
    } else {
        assert(narrow_lines_fit(st.lines.push(st.cur), width)) by {
            assert forall|k: int| 0 <= k < st.lines.len() + 1 implies all_narrow(#[trigger] st.lines.push(st.cur)[k]) && st.lines.push(st.cur)[k].len() <= width by {
                if k < st.lines.len() {
                    assert(st.lines.push(st.cur)[k] == st.lines[k]);
                }
            }
        }
    }
}

/// Narrow characters, line feeds and tabs.
pub open spec fn narrow_text(s: Seq<char>) -> bool {
    forall|i: int| 0 <= i < s.len() ==> is_narrow(#[trigger] s[i]) || s[i] == '\n' || s[i] == '\t'
}

proof fn lemma_tabs_expanded(s: Seq<char>)
    requires
        narrow_text(s),
    ensures
        forall|i: int| 0 <= i < replace_char(s, '\t', tab_spaces()).len()
            ==> is_narrow(#[trigger] replace_char(s, '\t', tab_spaces())[i]) || replace_char(s, '\t', tab_spaces())[i] == '\n',
    decreases s.len(),
{
    if s.len() > 0 {
        let p = s.drop_last();
        assert(narrow_text(p)) by {
            assert forall|i: int| 0 <= i < p.len() implies is_narrow(#[trigger] p[i]) || p[i] == '\n' || p[i] == '\t' by {
                assert(p[i] == s[i]);
            }
        }
        lemma_tabs_expanded(p);
        reveal_strlit("        ");
        let a = replace_char(p, '\t', tab_spaces());
        let b = if s.last() == '\t' { tab_spaces() } else { seq![s.last()] };
        assert(replace_char(s, '\t', tab_spaces()) == a + b);
        assert forall|i: int| 0 <= i < (a + b).len() implies is_narrow(#[trigger] (a + b)[i]) || (a + b)[i] == '\n' by {
            if i < a.len() {
                assert((a + b)[i] == a[i]);
            } else {
                assert((a + b)[i] == b[i - a.len()]);
            }
        }
    }
}

/// The lines of a text of narrow characters and line feeds are narrow,
/// and no longer than the text.
pub proof fn lemma_split_narrow(s: Seq<char>)
    requires
        forall|i: int| 0 <= i < s.len() ==> is_narrow(#[trigger] s[i]) || s[i] == '\n',
    ensures
        forall|k: int| 0 <= k < split_char(s, '\n').len()
            ==> all_narrow(#[trigger] split_char(s, '\n')[k]) && split_char(s, '\n')[k].len() <= s.len(),
    decreases s.len(),
{
    if s.len() > 0 {
        let d = s.drop_last();
        assert forall|i: int| 0 <= i < d.len() implies is_narrow(#[trigger] d[i]) || d[i] == '\n' by {
            assert(d[i] == s[i]);
        }
        lemma_split_narrow(d);
        lemma_split_nonempty(d, '\n');
        let p = split_char(d, '\n');
        if s.last() == '\n' {
            let q = p.push(Seq::<char>::empty());
            assert forall|k: int| 0 <= k < q.len() implies all_narrow(#[trigger] q[k]) && q[k].len() <= s.len() by {
                if k < p.len() {
                    assert(q[k] == p[k]);
                }
            }
        } else {
            let l = p.last().push(s.last());
            let q = p.update(p.len() - 1, l);
            assert(all_narrow(p[p.len() - 1]));
            assert(all_narrow(l)) by {
                assert forall|j: int| 0 <= j < l.len() implies is_narrow(#[trigger] l[j]) by {
                    if j < l.len() - 1 {
                        assert(l[j] == p.last()[j]);
                    }
                }
            }
            assert(p[p.len() - 1].len() <= d.len());
            assert forall|k: int| 0 <= k < q.len() implies all_narrow(#[trigger] q[k]) && q[k].len() <= s.len() by {
                if k < p.len() - 1 {
                    assert(q[k] == p[k]);
                }
            }
        }
    }
}

proof fn lemma_concat_all_fits(ss: Seq<Seq<Seq<char>>>, width: nat)
    requires
        forall|k: int, j: int| 0 <= k < ss.len() && 0 <= j < ss[k].len() ==> display_width_spec(#[trigger] ss[k][j]) <= width,
    ensures
        forall|j: int| 0 <= j < concat_all(ss).len() ==> display_width_spec(#[trigger] concat_all(ss)[j]) <= width,
    decreases ss.len(),
{
    if ss.len() > 0 {
        let d = ss.drop_last();
        assert forall|k: int, j: int| 0 <= k < d.len() && 0 <= j < d[k].len() implies display_width_spec(#[trigger] d[k][j]) <= width by {
            assert(d[k] == ss[k]);
        }
        lemma_concat_all_fits(d, width);
        let a = concat_all(d);
        let b = ss.last();
        assert forall|j: int| 0 <= j < (a + b).len() implies display_width_spec(#[trigger] (a + b)[j]) <= width by {
            if j < a.len() {
                assert((a + b)[j] == a[j]);
            } else {
                assert((a + b)[j] == b[j - a.len()]);
                assert(display_width_spec(ss[ss.len() - 1][j - a.len()]) <= width);
            }
        }
    }
}

/// With wrapping on, every physical line of a text of narrow characters,
/// line feeds and tabs fits the width: each shows at most `width` columns.
pub proof fn law_wrapped_lines_fit(text: Seq<char>, width: nat)
    requires
        narrow_text(text),
        width <= usize::MAX,
    ensures
        forall|k: int| 0 <= k < wrap_lines_spec(text, true, width).len()
            ==> display_width_spec(#[trigger] wrap_lines_spec(text, true, width)[k]) <= width,
{
    if width > 0 {
        let e = replace_char(text, '\t', tab_spaces());
        lemma_tabs_expanded(text);
        lemma_split_narrow(e);
        let parts = split_char(e, '\n');
        let ss = Seq::new(parts.len(), |k: int| wrap_line(parts[k], true, width));
        assert forall|k: int, j: int| 0 <= k < ss.len() && 0 <= j < ss[k].len() implies display_width_spec(#[trigger] ss[k][j]) <= width by {
            let line = parts[k];
            assert(all_narrow(line));
            if display_width_spec(line) > width {
                lemma_wrap_go_fits(line, 0, wrap_init(), width);
                let ls = wrap_go(line, 0, wrap_init(), width);
                assert(all_narrow(ls[j]) && ls[j].len() <= width);
                lemma_narrow_width(ls[j]);
            }
        }
        lemma_concat_all_fits(ss, width);
    }
}

/// At `i` starts a whole CSI sequence without spaces: `ESC [`, then no
/// letter and no space up to a final letter.
pub open spec fn csi_ok(cs: Seq<char>, i: int) -> bool {
    &&& i + 1 < cs.len()
    &&& cs[i + 1] == '['
    &&& alpha_from(cs, i + 2) < cs.len()
    &&& forall|k: int| i + 2 <= k < alpha_from(cs, i + 2) ==> #[trigger] cs[k] != ' '
}

/// A line of narrow characters and whole CSI sequences without spaces:
/// every character is narrow or an ESC that starts such a sequence.
pub open spec fn sgr_line(cs: Seq<char>) -> bool {
    forall|i: int| 0 <= i < cs.len() ==> is_narrow(#[trigger] cs[i]) || (cs[i] == '\x1b' && csi_ok(cs, i))
}

/// Every space of `s` stands outside any escape sequence.
pub open spec fn spaces_at_rest(s: Seq<char>) -> bool {
    forall|k: int| 0 <= k < s.len() && #[trigger] s[k] == ' ' ==> at_rest(strip_state(s.take(k)))
}

/// What the wrapper keeps true while it wraps such a line: the current
/// line is outside any escape sequence, shows `cw` narrow columns, at
/// most `width`, with its spaces outside escape sequences; the SGR
/// sequence in force shows nothing; every finished line fits.
pub open spec fn wrap_inv(st: WrapState, width: nat) -> bool {
    &&& at_rest(strip_state(st.cur))
    &&& all_narrow(strip_seq(st.cur))
    &&& strip_seq(st.cur).len() == st.cw
    &&& st.cw <= width
    &&& spaces_at_rest(st.cur)
    &&& strip_seq(st.active) == Seq::<char>::empty()
    &&& at_rest(strip_state(st.active))
    &&& forall|k: int| 0 <= k < st.active.len() ==> #[trigger] st.active[k] != ' '
    &&& forall|k: int| 0 <= k < st.lines.len() ==> display_width_spec(#[trigger] st.lines[k]) <= width
}

proof fn lemma_rest_push(s: Seq<char>, c: char)
    requires
        at_rest(strip_state(s)),
        c != '\x1b',
    ensures
        strip_seq(s.push(c)) == strip_seq(s).push(c),
        at_rest(strip_state(s.push(c))),
{
    assert(s.push(c).drop_last() =~= s);
}

/// A narrow text shown by `s` with `s` outside any escape sequence at
/// its end: its display width is the number of characters shown.
proof fn lemma_shown_width(s: Seq<char>)
    requires
        all_narrow(strip_seq(s)),
        strip_seq(s).len() <= usize::MAX,
    ensures
        display_width_spec(s) == strip_seq(s).len(),
{
    lemma_narrow_width(strip_seq(s));
}

proof fn lemma_wrap_break_sgr(st: WrapState, width: nat)
    requires
        wrap_inv(st, width),
        1 <= width <= usize::MAX,
        st.cw == width,
    ensures
        wrap_inv(wrap_break(st), width),
        wrap_break(st).cw < width,
{
    let cur = st.cur;
    lemma_last_index(cur, ' ');
    lemma_shown_width(cur);
    match last_index(cur, ' ') {
        Some(sp) => {
            let l = cur.take(sp);
            let tail = cur.skip(sp + 1);
            assert(at_rest(strip_state(l)));
            let sp1 = seq![' '];
            lemma_rest_push(l, ' ');
            assert(l.push(' ') =~= cur.take(sp + 1));
            assert(cur =~= l + (sp1 + tail));
            assert(cur =~= cur.take(sp + 1) + tail);
            lemma_strip_concat(l, sp1 + tail);
            lemma_strip_concat(cur.take(sp + 1), tail);
            assert(strip_seq(cur.take(sp + 1)) == strip_seq(l).push(' '));
            // what shows of the line and of the tail
            let sl = strip_seq(l);
            let stail = strip_seq(tail);
            assert(strip_seq(cur) == sl.push(' ') + stail);
            assert(strip_seq(cur) =~= sl + seq![' '] + stail);
            assert(all_narrow(sl)) by {
                assert forall|k: int| 0 <= k < sl.len() implies is_narrow(#[trigger] sl[k]) by {
                    assert(strip_seq(cur)[k] == sl[k]);
                }
            }
            assert(all_narrow(stail)) by {
                assert forall|k: int| 0 <= k < stail.len() implies is_narrow(#[trigger] stail[k]) by {
                    assert(strip_seq(cur)[sl.len() + 1 + k] == stail[k]);
                }
            }
            lemma_shown_width(l);
            // the new current line
            let nc = st.active + tail;
            lemma_strip_concat(st.active, tail);
            assert(strip_seq(nc) =~= stail);
            crate::law_strip_idempotent(nc);
            lemma_narrow_width(stail);
            assert(at_rest(strip_state(nc)));
            assert(spaces_at_rest(nc)) by {
                assert forall|k: int| 0 <= k < nc.len() && #[trigger] nc[k] == ' ' implies at_rest(strip_state(nc.take(k))) by {
                    let a = st.active;
                    if k < a.len() {
                        assert(nc[k] == a[k]);
                    } else {
                        let k2 = k - a.len();
                        assert(nc[k] == cur[sp + 1 + k2]);
                        assert(at_rest(strip_state(cur.take(sp + 1 + k2))));
                        assert(cur.take(sp + 1 + k2) =~= cur.take(sp + 1) + tail.take(k2));
                        lemma_strip_concat(cur.take(sp + 1), tail.take(k2));
                        assert(nc.take(k) =~= a + tail.take(k2));
                        lemma_strip_concat(a, tail.take(k2));
                    }
                }
            }
            let st2 = wrap_break(st);
            assert(st2.lines == st.lines.push(l));
            assert forall|k: int| 0 <= k < st2.lines.len() implies display_width_spec(#[trigger] st2.lines[k]) <= width by {
                if k < st.lines.len() {
                    assert(st2.lines[k] == st.lines[k]);
                }
            }
        },
        None => {
            let st2 = wrap_break(st);
            assert(st.active + Seq::<char>::empty() =~= st.active);
            assert(st2.cur == st.active);
            assert(spaces_at_rest(st.active)) by {
                assert forall|k: int| 0 <= k < st.active.len() && #[trigger] st.active[k] == ' ' implies at_rest(strip_state(st.active.take(k))) by {}
            }
            assert(strip_seq(st.active) =~= Seq::<char>::empty());
            assert forall|k: int| 0 <= k < st2.lines.len() implies display_width_spec(#[trigger] st2.lines[k]) <= width by {
                if k < st.lines.len() {
                    assert(st2.lines[k] == st.lines[k]);
                }
            }
        },
    }
}

proof fn lemma_wrap_go_sgr(cs: Seq<char>, i: int, st: WrapState, width: nat)
    requires
        sgr_line(cs),
        1 <= width <= usize::MAX,
        0 <= i <= cs.len(),
        wrap_inv(st, width),
    ensures
        forall|k: int| 0 <= k < wrap_go(cs, i, st, width).len()
            ==> display_width_spec(#[trigger] wrap_go(cs, i, st, width)[k]) <= width,
    decreases cs.len() - i,
{
    if i >= cs.len() {
        let out = if st.cur.len() > 0 || st.lines.len() == 0 { st.lines.push(st.cur) } else { st.lines };
        lemma_shown_width(st.cur);
        assert forall|k: int| 0 <= k < out.len() implies display_width_spec(#[trigger] out[k]) <= width by {
            if k < st.lines.len() {
                assert(out[k] == st.lines[k]);
            }
        }
    } else if cs[i] == '\x1b' && i + 1 < cs.len() && cs[i + 1] == '[' {
        assert(is_narrow(cs[i]) || (cs[i] == '\x1b' && csi_ok(cs, i)));
        lemma_alpha_from(cs, i + 2);
        let stop = alpha_from(cs, i + 2);
        let end = stop + 1;
        let sq = cs.subrange(i, end);
        let body = cs.subrange(i + 2, stop);
        assert forall|k: int| 0 <= k < body.len() implies !crate::chars::is_alpha(#[trigger] body[k]) by {
            assert(body[k] == cs[i + 2 + k]);
            assert(!crate::chars::is_alpha(cs[i + 2 + k]));
        }
        lemma_csi(body, cs[stop]);
        assert(sq =~= seq!['\x1b', '['] + body + seq![cs[stop]]);
        assert forall|k: int| 0 <= k < sq.len() implies #[trigger] sq[k] != ' ' by {
            assert(sq[k] == cs[i + k]);
            if k >= 2 && i + k < stop {
                assert(cs[i + k] != ' ');
            }
        }
        let nc = st.cur + sq;
        lemma_strip_concat(st.cur, sq);
        assert(strip_seq(nc) =~= strip_seq(st.cur));
        assert(spaces_at_rest(nc)) by {
            assert forall|k: int| 0 <= k < nc.len() && #[trigger] nc[k] == ' ' implies at_rest(strip_state(nc.take(k))) by {
                if k < st.cur.len() {
                    assert(nc[k] == st.cur[k]);
                    assert(nc.take(k) =~= st.cur.take(k));
                } else {
                    assert(nc[k] == sq[k - st.cur.len()]);
                }
            }
        }
        reveal_strlit("\x1b[0m");
        let act = if sq == "\x1b[0m"@ { Seq::<char>::empty() } else { sq };
        if sq == "\x1b[0m"@ {
            assert(strip_seq(act) == Seq::<char>::empty());
            assert(strip_state(act) == (false, false, false, false));
        }
        let st2 = WrapState { cur: nc, active: act, ..st };
        assert(wrap_inv(st2, width));
        assert(stop < cs.len());
        assert(wrap_go(cs, i, st, width) == wrap_go(cs, end, st2, width));
        lemma_wrap_go_sgr(cs, end, st2, width);
    } else {
        let c = cs[i];
        assert(is_narrow(c));
        assert(c != '\x1b');
        assert(width_or_one(c) == 1);
        let st2 = if st.cw + 1 > width { wrap_break(st) } else { st };
        if st.cw + 1 > width {
            lemma_wrap_break_sgr(st, width);
        }
        assert(wrap_inv(st2, width) && st2.cw < width);
        let nc = st2.cur.push(c);
        lemma_rest_push(st2.cur, c);
        let sc = strip_seq(nc);
        assert(all_narrow(sc)) by {
            assert forall|k: int| 0 <= k < sc.len() implies is_narrow(#[trigger] sc[k]) by {
                if k < strip_seq(st2.cur).len() {
                    assert(sc[k] == strip_seq(st2.cur)[k]);
                }
            }
        }
        assert(spaces_at_rest(nc)) by {
            assert forall|k: int| 0 <= k < nc.len() && #[trigger] nc[k] == ' ' implies at_rest(strip_state(nc.take(k))) by {
                if k < st2.cur.len() {
                    assert(nc[k] == st2.cur[k]);
                    assert(nc.take(k) =~= st2.cur.take(k));
                } else {
                    assert(nc.take(k) =~= st2.cur);
                }
            }
        }
        let st3 = WrapState { cur: nc, cw: sat_add(st2.cw, 1), ..st2 };
        assert(wrap_inv(st3, width));
        assert(wrap_go(cs, i, st, width) == wrap_go(cs, i + 1, st3, width));
        lemma_wrap_go_sgr(cs, i + 1, st3, width);
    }
}

/// With wrapping on, every physical line of a line of narrow characters
/// and whole CSI sequences (SGR colours and the like, without spaces)
/// fits the width: the escape sequences take no column, and each shows
/// at most `width` columns.
pub proof fn law_wrapped_coloured_line_fits(line: Seq<char>, width: nat)
    requires
        sgr_line(line),
        1 <= width <= usize::MAX,
    ensures
        forall|k: int| 0 <= k < wrap_line(line, true, width).len()
            ==> display_width_spec(#[trigger] wrap_line(line, true, width)[k]) <= width,
{
    if display_width_spec(line) > width {
        let st = wrap_init();
        assert(strip_seq(st.cur) == Seq::<char>::empty());
        assert(strip_state(st.cur) == (false, false, false, false));
        assert(spaces_at_rest(st.cur));
        assert(wrap_inv(st, width));
        lemma_wrap_go_sgr(line, 0, st, width);
    } else {
        assert forall|k: int| 0 <= k < wrap_line(line, true, width).len()
            implies display_width_spec(#[trigger] wrap_line(line, true, width)[k]) <= width by {
            assert(wrap_line(line, true, width)[k] == line);
        }
    }
}

proof fn lemma_no_tab_kept(s: Seq<char>)
    requires
        forall|i: int| 0 <= i < s.len() ==> s[i] != '\t',
    ensures
        replace_char(s, '\t', tab_spaces()) == s,
    decreases s.len(),
{
    if s.len() > 0 {
        lemma_no_tab_kept(s.drop_last());
        assert(s.drop_last() + seq![s.last()] =~= s);
    }
}

/// With wrapping on, every physical line of a text without tabs, whose
/// lines are narrow characters and whole CSI sequences without spaces,
/// fits the width.
pub proof fn law_wrapped_coloured_text_fits(text: Seq<char>, width: nat)
    requires
        forall|i: int| 0 <= i < text.len() ==> text[i] != '\t',
        forall|k: int| 0 <= k < split_char(text, '\n').len() ==> sgr_line(#[trigger] split_char(text, '\n')[k]),
        width <= usize::MAX,
    ensures
        forall|k: int| 0 <= k < wrap_lines_spec(text, true, width).len()
            ==> display_width_spec(#[trigger] wrap_lines_spec(text, true, width)[k]) <= width,
{
    if width > 0 {
        lemma_no_tab_kept(text);
        let parts = split_char(text, '\n');
        let ss = Seq::new(parts.len(), |k: int| wrap_line(parts[k], true, width));
        assert forall|k: int, j: int| 0 <= k < ss.len() && 0 <= j < ss[k].len() implies display_width_spec(#[trigger] ss[k][j]) <= width by {
            law_wrapped_coloured_line_fits(parts[k], width);
        }
        lemma_concat_all_fits(ss, width);
    }
}

/// The whole escape sequence that starts at `j`: from the ESC through
/// its final letter.
pub open spec fn seq_at(cs: Seq<char>, j: int) -> Seq<char> {
    cs.subrange(j, alpha_from(cs, j + 2) + 1)
}

/// `x` stands whole in the current line or in a finished one.
pub open spec fn kept_whole(st: WrapState, x: Seq<char>) -> bool {
    contains_sub(st.cur, x) || exists|k: int| 0 <= k < st.lines.len() && contains_sub(#[trigger] st.lines[k], x)
}

proof fn lemma_sub_left(a: Seq<char>, b: Seq<char>, x: Seq<char>)
    requires
        contains_sub(a, x),
    ensures
        contains_sub(a + b, x),
{
    let p = choose|p: int| occurs_at(a, x, p);
    assert((a + b).subrange(p, p + x.len()) =~= a.subrange(p, p + x.len()));
    assert(occurs_at(a + b, x, p));
}

proof fn lemma_sub_right(a: Seq<char>, b: Seq<char>, x: Seq<char>)
    requires
        contains_sub(b, x),
    ensures
        contains_sub(a + b, x),
{
    let p = choose|p: int| occurs_at(b, x, p);
    assert((a + b).subrange(a.len() + p, a.len() + p + x.len()) =~= b.subrange(p, p + x.len()));
    assert(occurs_at(a + b, x, a.len() + p));
}

/// A piece without spaces found in a text stands wholly before or wholly
/// after any space of it.
proof fn lemma_sub_split(s: Seq<char>, sp: int, x: Seq<char>)
    requires
        contains_sub(s, x),
        0 <= sp < s.len(),
        s[sp] == ' ',
        forall|k: int| 0 <= k < x.len() ==> #[trigger] x[k] != ' ',
    ensures
        contains_sub(s.take(sp), x) || contains_sub(s.skip(sp + 1), x),
{
    let p = choose|p: int| occurs_at(s, x, p);
    if p + x.len() <= sp {
        assert(s.take(sp).subrange(p, p + x.len()) =~= s.subrange(p, p + x.len()));
        assert(occurs_at(s.take(sp), x, p));
    } else if p > sp {
        assert(s.skip(sp + 1).subrange(p - sp - 1, p - sp - 1 + x.len()) =~= s.subrange(p, p + x.len()));
        assert(occurs_at(s.skip(sp + 1), x, p - sp - 1));
    } else {
        assert(s.subrange(p, p + x.len())[sp - p] == s[sp]);
        assert(x[sp - p] == ' ');
    }
}

/// The escape sequence at `j` has no space, and is not empty.
proof fn lemma_seq_at(cs: Seq<char>, j: int)
    requires
        0 <= j < cs.len(),
        cs[j] == '\x1b',
        csi_ok(cs, j),
    ensures
        seq_at(cs, j).len() >= 1,
        forall|k: int| 0 <= k < seq_at(cs, j).len() ==> #[trigger] seq_at(cs, j)[k] != ' ',
{
    lemma_alpha_from(cs, j + 2);
    let stop = alpha_from(cs, j + 2);
    let x = seq_at(cs, j);
    assert forall|k: int| 0 <= k < x.len() implies #[trigger] x[k] != ' ' by {
        assert(x[k] == cs[j + k]);
        if j + k == stop {
            assert(crate::chars::is_alpha(cs[stop]));
        } else if k >= 2 {
            assert(cs[j + k] != ' ');
        }
    }
}

/// The finished lines stay, one more may come.
proof fn lemma_kept_push_line(st: WrapState, l: Seq<char>, x: Seq<char>, lines2: Seq<Seq<char>>)
    requires
        exists|k: int| 0 <= k < st.lines.len() && contains_sub(#[trigger] st.lines[k], x),
        lines2 == st.lines.push(l),
    ensures
        exists|k: int| 0 <= k < lines2.len() && contains_sub(#[trigger] lines2[k], x),
{
    let k = choose|k: int| 0 <= k < st.lines.len() && contains_sub(#[trigger] st.lines[k], x);
    assert(lines2[k] == st.lines[k]);
}

proof fn lemma_break_keeps(st: WrapState, x: Seq<char>)
    requires
        kept_whole(st, x),
        x.len() >= 1,
        forall|k: int| 0 <= k < x.len() ==> #[trigger] x[k] != ' ',
    ensures
        kept_whole(wrap_break(st), x),
{
    let st2 = wrap_break(st);
    lemma_last_index(st.cur, ' ');
    match last_index(st.cur, ' ') {
        Some(sp) => {
            let l = st.cur.take(sp);
            assert(st2.lines == st.lines.push(l));
            if contains_sub(st.cur, x) {
                lemma_sub_split(st.cur, sp, x);
                if contains_sub(l, x) {
                    assert(st2.lines[st.lines.len() as int] == l);
                } else {
                    lemma_sub_right(st.active, st.cur.skip(sp + 1), x);
                }
            } else {
                lemma_kept_push_line(st, l, x, st2.lines);
            }
        },
        None => {
            assert(st2.lines == st.lines.push(st.cur));
            if contains_sub(st.cur, x) {
                assert(st2.lines[st.lines.len() as int] == st.cur);
            } else {
                lemma_kept_push_line(st, st.cur, x, st2.lines);
            }
        },
    }
}

proof fn lemma_wrap_go_keeps(cs: Seq<char>, i: int, st: WrapState, width: nat)
    requires
        sgr_line(cs),
        0 <= i <= cs.len(),
        forall|j: int| 0 <= j < i && #[trigger] cs[j] == '\x1b' ==> kept_whole(st, seq_at(cs, j)),
    ensures
        forall|j: int| 0 <= j < cs.len() && #[trigger] cs[j] == '\x1b'
            ==> exists|k: int| 0 <= k < wrap_go(cs, i, st, width).len() && contains_sub(#[trigger] wrap_go(cs, i, st, width)[k], seq_at(cs, j)),
    decreases cs.len() - i,
{
    if i >= cs.len() {
        let out = if st.cur.len() > 0 || st.lines.len() == 0 { st.lines.push(st.cur) } else { st.lines };
        assert(wrap_go(cs, i, st, width) == out);
        assert forall|j: int| 0 <= j < cs.len() && #[trigger] cs[j] == '\x1b'
            implies exists|k: int| 0 <= k < out.len() && contains_sub(#[trigger] out[k], seq_at(cs, j)) by {
            let x = seq_at(cs, j);
            assert(is_narrow(cs[j]) || (cs[j] == '\x1b' && csi_ok(cs, j)));
            lemma_seq_at(cs, j);
            if contains_sub(st.cur, x) {
                let p = choose|p: int| occurs_at(st.cur, x, p);
                assert(st.cur.len() > 0);
                assert(out[st.lines.len() as int] == st.cur);
            } else {
                let k = choose|k: int| 0 <= k < st.lines.len() && contains_sub(#[trigger] st.lines[k], x);
                assert(out[k] == st.lines[k]);
            }
        }
    } else if cs[i] == '\x1b' && i + 1 < cs.len() && cs[i + 1] == '[' {
        assert(is_narrow(cs[i]) || (cs[i] == '\x1b' && csi_ok(cs, i)));
        lemma_alpha_from(cs, i + 2);
        let stop = alpha_from(cs, i + 2);
        let end = stop + 1;
        let sq = cs.subrange(i, end);
        let nc = st.cur + sq;
        reveal_strlit("\x1b[0m");
        let act = if sq == "\x1b[0m"@ { Seq::<char>::empty() } else { sq };
        let st2 = WrapState { cur: nc, active: act, ..st };
        assert(wrap_go(cs, i, st, width) == wrap_go(cs, end, st2, width));
        assert forall|j: int| 0 <= j < end && #[trigger] cs[j] == '\x1b' implies kept_whole(st2, seq_at(cs, j)) by {
            let x = seq_at(cs, j);
            if j < i {
                if contains_sub(st.cur, x) {
                    lemma_sub_left(st.cur, sq, x);
                }
            } else {
                // an ESC inside the sequence starts a tail of it
                assert(is_narrow(cs[j]) || (cs[j] == '\x1b' && csi_ok(cs, j)));
                if j > i {
                    assert(j >= i + 2);
                    assert(!crate::chars::is_alpha(cs[j + 1]));
                    lemma_alpha_from(cs, j + 2);
                    lemma_alpha_same(cs, i + 2, j + 2);
                }
                assert(alpha_from(cs, j + 2) == stop);
                assert(sq.subrange(j - i, sq.len() as int) =~= x);
                assert(occurs_at(sq, x, j - i));
                lemma_sub_right(st.cur, sq, x);
            }
        }
        lemma_wrap_go_keeps(cs, end, st2, width);
    } else {
        let c = cs[i];
        assert(c != '\x1b');
        let w = width_or_one(c);
        let st2 = if st.cw + w > width { wrap_break(st) } else { st };
        let st3 = WrapState { cur: st2.cur.push(c), cw: sat_add(st2.cw, w), ..st2 };
        assert forall|j: int| 0 <= j < i + 1 && #[trigger] cs[j] == '\x1b' implies kept_whole(st3, seq_at(cs, j)) by {
            let x = seq_at(cs, j);
            assert(j != i);
            assert(kept_whole(st, x));
            assert(is_narrow(cs[j]) || (cs[j] == '\x1b' && csi_ok(cs, j)));
            lemma_seq_at(cs, j);
            if st.cw + w > width {
                lemma_break_keeps(st, x);
            }
            assert(kept_whole(st2, x));
            if contains_sub(st2.cur, x) {
                assert(st2.cur.push(c) =~= st2.cur + seq![c]);
                lemma_sub_left(st2.cur, seq![c], x);
                assert(contains_sub(st3.cur, x));
            } else {
                assert(st3.lines == st2.lines);
                let k = choose|k: int| 0 <= k < st2.lines.len() && contains_sub(#[trigger] st2.lines[k], x);
                assert(contains_sub(st3.lines[k], x));
            }
        }
        assert(wrap_go(cs, i, st, width) == wrap_go(cs, i + 1, st3, width));
        lemma_wrap_go_keeps(cs, i + 1, st3, width);
    }
}

/// Between `a` and `b`, no letter: the first letter from either is the same.
proof fn lemma_alpha_same(cs: Seq<char>, a: int, b: int)
    requires
        0 <= a <= b <= cs.len(),
        forall|k: int| a <= k < b ==> !crate::chars::is_alpha(#[trigger] cs[k]),
    ensures
        alpha_from(cs, a) == alpha_from(cs, b),
    decreases b - a,
{
    if a < b {
        lemma_alpha_same(cs, a + 1, b);
    }
}

/// Wrapping keeps the escape codes: every escape sequence of a line of
/// narrow characters and whole CSI sequences without spaces stands whole
/// in one of the physical lines, never cut by a line break.
pub proof fn law_wrapping_keeps_escape_codes(line: Seq<char>, width: nat)
    requires
        sgr_line(line),
    ensures
        forall|j: int| 0 <= j < line.len() && #[trigger] line[j] == '\x1b'
            ==> exists|k: int| 0 <= k < wrap_line(line, true, width).len()
                && contains_sub(#[trigger] wrap_line(line, true, width)[k], seq_at(line, j)),
{
    if display_width_spec(line) > width {
        lemma_wrap_go_keeps(line, 0, wrap_init(), width);
        assert(wrap_line(line, true, width) == wrap_go(line, 0, wrap_init(), width));
    } else {
        assert forall|j: int| 0 <= j < line.len() && #[trigger] line[j] == '\x1b'
            implies exists|k: int| 0 <= k < wrap_line(line, true, width).len()
                && contains_sub(#[trigger] wrap_line(line, true, width)[k], seq_at(line, j)) by {
            assert(is_narrow(line[j]) || (line[j] == '\x1b' && csi_ok(line, j)));
            lemma_alpha_from(line, j + 2);
            let x = seq_at(line, j);
            assert(line.subrange(j, j + x.len()) =~= x);
            assert(occurs_at(line, x, j));
            assert(wrap_line(line, true, width)[0] == line);
        }
    }
}

/// A line narrower than the width is placed by leading spaces only:
/// left-aligned it is unchanged, right-aligned it ends at the last
/// column, and centred its leading gap is half the free room, rounded
/// down, so the trailing room is the same or one more.
pub proof fn law_lines_sit_where_aligned(line: Seq<char>, width: nat)
    requires
        (display_width_spec(line) as nat) < width,
    ensures
        align_spec(Align::Left, line, width) == line,
        align_spec(Align::Right, line, width) == spaces((width - display_width_spec(line)) as nat) + line,
        ({
            let c = align_spec(Align::Center, line, width);
            let room = (width - display_width_spec(line)) as nat;
            exists|k: nat| c == spaces(k) + line && 2 * k <= room && room <= 2 * k + 1
        }),
{
    let room = (width - display_width_spec(line)) as nat;
    let k = room / 2;
    assert(2 * k <= room && room <= 2 * k + 1);
    assert(align_spec(Align::Center, line, width) == spaces(k) + line);
}

/// Rows already on screen are not written again: diffing a frame
/// against itself writes nothing.
pub proof fn law_unchanged_rows_are_not_written(x: u16, y: u16, w: u16, colors: Seq<char>, frame: Seq<Seq<char>>)
    ensures
        rows_spec(x, y, w, colors, frame, frame) == Seq::<char>::empty(),
{
    let ss = Seq::new(frame.len(), |i: int| row_piece(x, y, w, colors, frame, frame, i));
    assert forall|i: int| 0 <= i < ss.len() implies (#[trigger] ss[i]).len() == 0 by {}
    lemma_concat_empty(ss);
}

impl Pane {
    /// On a well-formed pane, which is every pane the public functions
    /// give back, the line count answers one more than the newlines of
    /// the text as it is now, however the text was last changed.
    pub proof fn law_line_count_follows_the_text(p: Pane)
        requires
            p.wf(),
        ensures
            p.lines_known() == p.count_spec(),
    {
        if let Some(c) = p.cached_count() {
            assert(c == sat_add(count_char(p.text_view(), '\n'), 1));
            assert(sat_add(count_char(p.text_view(), '\n'), 1) <= usize::MAX);
        }
    }

    /// A refresh right after a refresh, with nothing changed in between,
    /// writes only the scroll markers: the diff-based refresh redraws no
    /// row that is already on screen.
    pub proof fn law_second_refresh_writes_only_markers(p: Pane, q: Pane, r: Pane)
        requires
            p.refreshed_into(&q),
            q.refreshed_into(&r),
        ensures
            r.output() == q.output() + q.markers(q.ix > 0, q.more_below(q.text_view(), q.ix as nat)),
    {
        q.lemma_style_decides(&p);
        let t = q.text_view();
        let ix = q.ix as nat;
        assert(q.frame_view() == q.frame_of(t, ix));
        law_unchanged_rows_are_not_written(q.x, q.y, q.w, colors_spec(q.fg, q.bg), q.frame_of(t, ix));
        assert(q.rows_output(q.frame_of(t, ix), q.frame_view()) == Seq::<char>::empty());
        assert(q.refresh_output(t, ix, q.frame_view()) =~= q.markers(ix > 0, q.more_below(t, ix)));
    }
}

} // verus!
