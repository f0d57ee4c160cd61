//! Character-level building blocks: turning strings into character
//! vectors and back, decimal numerals, character classes, and the
//! display widths that the `unicode_width` crate computes.

use vstd::prelude::*;
use unicode_width::UnicodeWidthChar;
use unicode_width::UnicodeWidthStr;

verus! {

/// Appends one character to a string (`String::push`).
///
/// Trusted: `String::push` appends its argument at the end of the string.
#[verifier::external_body]
pub(crate) fn push_char(s: &mut String, c: char)
    ensures
        final(s)@ == old(s)@.push(c),
{
    s.push(c);
}

/// The characters of `s`, in order.
pub fn chars_of(s: &str) -> (v: Vec<char>)
    ensures
        v@ == s@,
{
    let mut v: Vec<char> = Vec::new();
    for c in it: s.chars()
        invariant
            v@ == it.seq().take(it.index()),
            it.seq() == s@,
    {
        v.push(c);
    }
    v
}

/// Appends `cs[lo..hi]` to `out`.
pub fn push_range(out: &mut String, cs: &Vec<char>, lo: usize, hi: usize)
    requires
        lo <= hi <= cs@.len(),
    ensures
        final(out)@ == old(out)@ + cs@.subrange(lo as int, hi as int),
{
    let mut i = lo;
    while i < hi
        invariant
            lo <= i <= hi <= cs@.len(),
            out@ == old(out)@ + cs@.subrange(lo as int, i as int),
        decreases hi - i,
    {
        push_char(out, cs[i]);
        assert(cs@.subrange(lo as int, i + 1) == cs@.subrange(lo as int, i as int).push(cs@[i as int]));
        i += 1;
    }
}

/// A string holding exactly the characters of `cs`.
pub fn string_of(cs: &Vec<char>) -> (s: String)
    ensures
        s@ == cs@,
{
    let mut s = String::new();
    push_range(&mut s, cs, 0, cs.len());
    assert(cs@.subrange(0, cs@.len() as int) == cs@);
    s
}

/// The decimal digit for `d` (below ten).
pub open spec fn digit(d: nat) -> char {
    if d == 0 { '0' }
    else if d == 1 { '1' }
    else if d == 2 { '2' }
    else if d == 3 { '3' }
    else if d == 4 { '4' }
    else if d == 5 { '5' }
    else if d == 6 { '6' }
    else if d == 7 { '7' }
    else if d == 8 { '8' }
    else { '9' }
}

/// The decimal numeral of `n`, without leading zeros.
pub open spec fn dec(n: nat) -> Seq<char>
    decreases n,
{
    if n < 10 {
        seq![digit(n)]
    } else {
        dec(n / 10).push(digit(n % 10))
    }
}

fn digit_char(d: u64) -> (c: char)
    requires
        d < 10,
    ensures
        c == digit(d as nat),
{
    if d == 0 { '0' }
    else if d == 1 { '1' }
    else if d == 2 { '2' }
    else if d == 3 { '3' }
    else if d == 4 { '4' }
    else if d == 5 { '5' }
    else if d == 6 { '6' }
    else if d == 7 { '7' }
    else if d == 8 { '8' }
    else { '9' }
}

/// Appends the decimal numeral of `n` to `out`.
pub fn push_dec(out: &mut String, n: u64)
    ensures
        final(out)@ == old(out)@ + dec(n as nat),
    decreases n,
{
    if n >= 10 {
        push_dec(out, n / 10);
    }
    push_char(out, digit_char(n % 10));
}

/// ASCII letters, as `char::is_ascii_alphabetic` decides.
pub open spec fn is_alpha(c: char) -> bool {
    ('a' <= c && c <= 'z') || ('A' <= c && c <= 'Z')
}

/// ASCII digits, as `char::is_ascii_digit` decides.
pub open spec fn is_digit(c: char) -> bool {
    '0' <= c && c <= '9'
}

/// Unicode `White_Space`, as `char::is_whitespace` decides.
pub open spec fn is_ws(c: char) -> bool {
    ('\u{9}' <= c && c <= '\u{d}') || c == ' ' || c == '\u{85}' || c == '\u{a0}'
        || c == '\u{1680}' || ('\u{2000}' <= c && c <= '\u{200a}') || c == '\u{2028}'
        || c == '\u{2029}' || c == '\u{202f}' || c == '\u{205f}' || c == '\u{3000}'
}

pub fn alpha(c: char) -> (b: bool)
    ensures
        b == is_alpha(c),
{
    ('a' <= c && c <= 'z') || ('A' <= c && c <= 'Z')
}

pub fn digit_p(c: char) -> (b: bool)
    ensures
        b == is_digit(c),
{
    '0' <= c && c <= '9'
}

pub fn ws(c: char) -> (b: bool)
    ensures
        b == is_ws(c),
{
    ('\u{9}' <= c && c <= '\u{d}') || c == ' ' || c == '\u{85}' || c == '\u{a0}'
        || c == '\u{1680}' || ('\u{2000}' <= c && c <= '\u{200a}') || c == '\u{2028}'
        || c == '\u{2029}' || c == '\u{202f}' || c == '\u{205f}' || c == '\u{3000}'
}

/// What `UnicodeWidthStr::width` returns for a string with these characters.
pub uninterp spec fn uw_str_width(s: Seq<char>) -> usize;

/// What `UnicodeWidthChar::width` returns for a character.
pub uninterp spec fn uw_char_width(c: char) -> Option<usize>;

/// A printable ASCII character: U+0020 up to (excluding) U+007F.
pub open spec fn is_printable(c: char) -> bool {
    ' ' <= c && c < '\u{7f}'
}

/// A character one column wide in every string that holds only such
/// characters: printable ASCII, the ellipsis `…` and the box-drawing
/// lines `─`, `│` and `┼`.
pub open spec fn is_narrow(c: char) -> bool {
    is_printable(c) || c == '\u{2026}' || c == '\u{2500}' || c == '\u{2502}' || c == '\u{253c}'
}

/// Every character of `s` is narrow.
pub open spec fn all_narrow(s: Seq<char>) -> bool {
    forall|i: int| 0 <= i < s.len() ==> is_narrow(#[trigger] s[i])
}

/// The column width of a string: one column per character where every
/// character is narrow, otherwise what the `unicode_width` crate answers.
pub open spec fn str_width_spec(s: Seq<char>) -> usize {
    if all_narrow(s) { s.len() as usize } else { uw_str_width(s) }
}

/// The column width of a character: one column for a narrow one, none
/// for the control codes, otherwise what the crate answers.
pub open spec fn char_width_spec(c: char) -> Option<usize> {
    if is_narrow(c) {
        Some(1usize)
    } else if c < ' ' || ('\u{7f}' <= c && c < '\u{a0}') {
        None
    } else {
        uw_char_width(c)
    }
}

/// The column width of a string (`UnicodeWidthStr::width`).
///
/// Trusted: the result is a function of the characters alone. For a
/// string of narrow characters it is the number of characters: the crate
/// folds from the end, and every character up to U+00A0 other than a line
/// feed adds one column and leaves the fold in its default state; `…`
/// (U+2026), `─` (U+2500), `│` (U+2502) and `┼` (U+253C) have the East Asian
/// width Ambiguous and are no letters, which the crate's rules give one
/// column outside an East Asian context, and none of them takes part in
/// the sequences that the rules measure otherwise than as the sum of their
/// characters. So the empty string has width 0. Nothing else is said of it.
#[verifier::external_body]
pub(crate) fn str_width(s: &str) -> (r: usize)
    ensures
        r == (if all_narrow(s@) { s@.len() as usize } else { uw_str_width(s@) }),
{
    UnicodeWidthStr::width(s)
}

/// The column width of a character (`UnicodeWidthChar::width`).
///
/// Trusted: the result is a function of the character alone; the crate's
/// source answers `Some(1)` for U+0020 up to (excluding) U+007F and `None`
/// for the control codes below U+0020 and from U+007F up to (excluding)
/// U+00A0; its rules give `…`, `─`, `│` and `┼` one column (East Asian
/// width Ambiguous, no letters, outside an East Asian context). Nothing
/// else is said of it.
#[verifier::external_body]
pub(crate) fn char_width(c: char) -> (r: Option<usize>)
    ensures
        r == (if is_narrow(c) {
            Some(1usize)
        } else if c < ' ' || ('\u{7f}' <= c && c < '\u{a0}') {
            None
        } else {
            uw_char_width(c)
        }),
{
    UnicodeWidthChar::width(c)
}

} // verus!

verus! {

/// `s` with every `c` replaced by `r` (`str::replace` with a char pattern).
pub open spec fn replace_char(s: Seq<char>, c: char, r: Seq<char>) -> Seq<char>
    decreases s.len(),
{
    if s.len() == 0 {
        Seq::empty()
    } else {
        replace_char(s.drop_last(), c, r) + (if s.last() == c { r } else { seq![s.last()] })
    }
}

/// Appends `replace_char(s, c, r)` to `out`.
pub fn push_replaced(out: &mut String, s: &Vec<char>, c: char, r: &str)
    ensures
        final(out)@ == old(out)@ + replace_char(s@, c, r@),
{
    let mut i: usize = 0;
    while i < s.len()
        invariant
            0 <= i <= s@.len(),
            out@ == old(out)@ + replace_char(s@.take(i as int), c, r@),
        decreases s@.len() - i,
    {
        assert(s@.take(i + 1).drop_last() == s@.take(i as int));
        if s[i] == c {
            out.append(r);
        } else {
            push_char(out, s[i]);
        }
        i += 1;
    }
    assert(s@.take(s@.len() as int) == s@);
}

} // verus!

verus! {

/// The views of a vector of strings.
pub open spec fn views(v: Seq<String>) -> Seq<Seq<char>> {
    v.map_values(|s: String| s@)
}

/// The parts joined with `sep` between them (`slice::join`).
pub open spec fn join(parts: Seq<Seq<char>>, sep: Seq<char>) -> Seq<char>
    decreases parts.len(),
{
    if parts.len() == 0 {
        Seq::empty()
    } else if parts.len() == 1 {
        parts[0]
    } else {
        join(parts.drop_last(), sep) + sep + parts.last()
    }
}

/// The strings of `v` joined with `sep` between them.
pub fn join_strings(v: &Vec<String>, sep: &str) -> (r: String)
    ensures
        r@ == join(views(v@), sep@),
{
    let mut r = String::new();
    let mut i: usize = 0;
    while i < v.len()
        invariant
            0 <= i <= v@.len(),
            r@ == join(views(v@.take(i as int)), sep@),
        decreases v@.len() - i,
    {
        assert(views(v@.take(i + 1)).drop_last() == views(v@.take(i as int)));
        if i > 0 {
            r.append(sep);
        }
        r.append(v[i].as_str());
        i += 1;
    }
    assert(v@.take(v@.len() as int) == v@);
    r
}

/// `s` split at every `c` (`str::split` with a char pattern): always at
/// least one part.
pub open spec fn split_char(s: Seq<char>, c: char) -> Seq<Seq<char>>
    decreases s.len(),
{
    if s.len() == 0 {
        seq![Seq::empty()]
    } else {
        let p = split_char(s.drop_last(), c);
        if s.last() == c {
            p.push(Seq::empty())
        } else {
            p.update(p.len() - 1, p.last().push(s.last()))
        }
    }
}

pub proof fn lemma_split_nonempty(s: Seq<char>, c: char)
    ensures
        split_char(s, c).len() >= 1,
    decreases s.len(),
{
    if s.len() > 0 {
        lemma_split_nonempty(s.drop_last(), c);
    }
}

proof fn lemma_join_extend_last(q: Seq<Seq<char>>, sep: Seq<char>, x: char)
    requires
        q.len() >= 1,
    ensures
        join(q.update(q.len() - 1, q.last().push(x)), sep) == join(q, sep).push(x),
{
    let u = q.update(q.len() - 1, q.last().push(x));
    if q.len() > 1 {
        assert(u.drop_last() =~= q.drop_last());
    }
}

/// Splitting at `c` and joining with `c` gives the text back.
pub proof fn lemma_join_split(s: Seq<char>, c: char)
    ensures
        join(split_char(s, c), seq![c]) == s,
    decreases s.len(),
{
    if s.len() == 0 {
        assert(join(split_char(s, c), seq![c]) =~= s);
    } else {
        let p = split_char(s.drop_last(), c);
        lemma_join_split(s.drop_last(), c);
        lemma_split_nonempty(s.drop_last(), c);
        if s.last() == c {
            assert(p.push(Seq::empty()).drop_last() =~= p);
            assert(join(p, seq![c]) + seq![c] + Seq::<char>::empty() =~= s);
        } else {
            lemma_join_extend_last(p, seq![c], s.last());
            assert(s.drop_last().push(s.last()) =~= s);
        }
    }
}

/// Splitting around one separator splits each side.
pub proof fn lemma_split_around(a: Seq<char>, b: Seq<char>, c: char)
    ensures
        split_char(a + seq![c] + b, c) == split_char(a, c) + split_char(b, c),
    decreases b.len(),
{
    let ac = a + seq![c];
    assert(ac.drop_last() =~= a);
    lemma_split_nonempty(a, c);
    if b.len() == 0 {
        assert(ac + b =~= ac);
        assert(split_char(a, c).push(Seq::empty()) =~= split_char(a, c) + split_char(b, c));
    } else {
        let d = b.drop_last();
        lemma_split_around(a, d, c);
        lemma_split_nonempty(d, c);
        assert((ac + b).drop_last() =~= ac + d);
        assert((ac + b).last() == b.last());
        let p = split_char(a, c);
        let q = split_char(d, c);
        if b.last() == c {
            assert((p + q).push(Seq::empty()) =~= p + q.push(Seq::empty()));
        } else {
            let pq = p + q;
            assert(pq.last() == q.last());
            assert(pq.update(pq.len() - 1, pq.last().push(b.last())) =~= p + q.update(q.len() - 1, q.last().push(b.last())));
        }
    }
}

/// A text without `c` is one part.
pub proof fn lemma_split_none(s: Seq<char>, c: char)
    requires
        forall|i: int| 0 <= i < s.len() ==> s[i] != c,
    ensures
        split_char(s, c) == seq![s],
    decreases s.len(),
{
    if s.len() == 0 {
        assert(s =~= Seq::<char>::empty());
    } else {
        lemma_split_none(s.drop_last(), c);
        assert(s.drop_last().push(s.last()) =~= s);
        assert(seq![s.drop_last()].update(0, s.drop_last().push(s.last())) =~= seq![s]);
    }
}

/// The parts of `s` split at every `c`.
pub fn split_chars(s: &Vec<char>, c: char) -> (r: Vec<Vec<char>>)
    ensures
        r@.len() == split_char(s@, c).len(),
        forall|k: int| 0 <= k < r@.len() ==> #[trigger] r@[k]@ == split_char(s@, c)[k],
{
    let mut r: Vec<Vec<char>> = Vec::new();
    r.push(Vec::new());
    let mut cur: Vec<char> = Vec::new();
    let mut i: usize = 0;
    while i < s.len()
        invariant
            0 <= i <= s@.len(),
            r@.len() >= 1,
            r@.len() == split_char(s@.take(i as int), c).len(),
            forall|k: int| 0 <= k < r@.len() - 1 ==> #[trigger] r@[k]@ == split_char(s@.take(i as int), c)[k],
            cur@ == split_char(s@.take(i as int), c).last(),
        decreases s@.len() - i,
    {
        assert(s@.take(i + 1).drop_last() == s@.take(i as int));
        proof { lemma_split_nonempty(s@.take(i as int), c); }
        if s[i] == c {
            let last_ix = r.len() - 1;
            r.set(last_ix, cur);
            r.push(Vec::new());
            cur = Vec::new();
        } else {
            cur.push(s[i]);
        }
        i += 1;
    }
    assert(s@.take(s@.len() as int) == s@);
    let last_ix = r.len() - 1;
    r.set(last_ix, cur);
    r
}

/// A hexadecimal digit's value, if `c` is one.
pub open spec fn hex_val(c: char) -> Option<nat> {
    if '0' <= c && c <= '9' {
        Some((c as nat - '0' as nat) as nat)
    } else if 'a' <= c && c <= 'f' {
        Some((c as nat - 'a' as nat + 10) as nat)
    } else if 'A' <= c && c <= 'F' {
        Some((c as nat - 'A' as nat + 10) as nat)
    } else {
        None
    }
}

pub fn hex_val_exec(c: char) -> (r: Option<u32>)
    ensures
        r matches Some(v) ==> hex_val(c) == Some(v as nat),
        r is None ==> hex_val(c) is None,
{
    if '0' <= c && c <= '9' {
        Some((c as u32) - ('0' as u32))
    } else if 'a' <= c && c <= 'f' {
        Some((c as u32) - ('a' as u32) + 10)
    } else if 'A' <= c && c <= 'F' {
        Some((c as u32) - ('A' as u32) + 10)
    } else {
        None
    }
}

/// The value of a run of decimal digits.
pub open spec fn dec_value(s: Seq<char>) -> nat
    decreases s.len(),
{
    if s.len() == 0 {
        0
    } else {
        dec_value(s.drop_last()) * 10 + (s.last() as nat - '0' as nat) as nat
    }
}

pub open spec fn all_digits(s: Seq<char>) -> bool {
    forall|i: int| 0 <= i < s.len() ==> is_digit(#[trigger] s[i])
}

/// What `str::parse` returns for an unsigned integer type whose largest
/// value is `max`: an optional `+`, then one or more decimal digits whose
/// value is at most `max`.
pub open spec fn parse_dec_spec(s: Seq<char>, max: nat) -> Option<nat> {
    let digits = if s.len() > 0 && s[0] == '+' { s.skip(1) } else { s };
    if digits.len() > 0 && all_digits(digits) && dec_value(digits) <= max {
        Some(dec_value(digits))
    } else {
        None
    }
}

/// What `str::parse::<u8>` returns.
pub open spec fn parse_u8_spec(s: Seq<char>) -> Option<u8> {
    match parse_dec_spec(s, 255) {
        Some(v) => Some(v as u8),
        None => None,
    }
}

proof fn lemma_dec_value_grows(s: Seq<char>, n: int)
    requires
        0 <= n <= s.len(),
        all_digits(s),
    ensures
        dec_value(s.take(n)) <= dec_value(s),
    decreases s.len(),
{
    if n < s.len() {
        assert(s.drop_last().take(n) == s.take(n));
        assert(all_digits(s.drop_last()));
        lemma_dec_value_grows(s.drop_last(), n);
    } else {
        assert(s.take(n) == s);
    }
}

/// Parse a string as an unsigned integer of at most `max`, the way
/// `str::parse` does for an unsigned type.
pub fn parse_dec(s: &Vec<char>, max: u64) -> (r: Option<u64>)
    requires
        max < u64::MAX / 16,
    ensures
        match r {
            Some(v) => parse_dec_spec(s@, max as nat) == Some(v as nat),
            None => parse_dec_spec(s@, max as nat) is None,
        },
{
    let start: usize = if s.len() > 0 && s[0] == '+' { 1 } else { 0 };
    let ghost digits = if s@.len() > 0 && s@[0] == '+' { s@.skip(1) } else { s@ };
    if start >= s.len() {
        return None;
    }
    let mut v: u64 = 0;
    let mut i = start;
    while i < s.len()
        invariant
            start <= i <= s@.len(),
            start <= 1,
            max < u64::MAX / 16,
            digits == s@.skip(start as int),
            digits == (if s@.len() > 0 && s@[0] == '+' { s@.skip(1) } else { s@ }),
            digits.len() > 0,
            all_digits(digits.take(i - start)),
            v == dec_value(digits.take(i - start)),
            v <= max,
        decreases s@.len() - i,
    {
        let c = s[i];
        assert(digits.take(i - start + 1).drop_last() == digits.take(i - start));
        if !digit_p(c) {
            assert(!is_digit(digits[i - start]));
            return None;
        }
        let nv = v * 10 + ((c as u64) - ('0' as u64));
        if nv > max {
            proof {
                assert(all_digits(digits.take(i - start + 1)));
                if all_digits(digits) {
                    lemma_dec_value_grows(digits, i - start + 1);
                }
            }
            return None;
        }
        v = nv;
        i += 1;
    }
    assert(digits.take(i - start) == digits);
    Some(v)
}

/// Parse a string as a `u8` the way `str::parse::<u8>` does.
pub fn parse_u8(s: &Vec<char>) -> (r: Option<u8>)
    ensures
        r == parse_u8_spec(s@),
{
    match parse_dec(s, 255) {
        Some(v) => Some(v as u8),
        None => None,
    }
}

} // verus!

verus! {

/// `s` written `n` times (`str::repeat`).
pub open spec fn repeat(s: Seq<char>, n: nat) -> Seq<char>
    decreases n,
{
    if n == 0 {
        Seq::empty()
    } else {
        repeat(s, (n - 1) as nat) + s
    }
}

/// `n` spaces.
pub open spec fn spaces(n: nat) -> Seq<char> {
    repeat(" "@, n)
}

/// Appends `s` written `n` times.
pub fn push_repeat(out: &mut String, s: &str, n: usize)
    ensures
        final(out)@ == old(out)@ + repeat(s@, n as nat),
{
    let mut i: usize = 0;
    while i < n
        invariant
            0 <= i <= n,
            out@ == old(out)@ + repeat(s@, i as nat),
        decreases n - i,
    {
        out.append(s);
        i += 1;
    }
}

/// `s` written `n` times, as a new string.
pub fn repeat_str(s: &str, n: usize) -> (r: String)
    ensures
        r@ == repeat(s@, n as nat),
{
    let mut r = String::new();
    push_repeat(&mut r, s, n);
    r
}

} // verus!

verus! {

/// `pat` occurs in `s` at position `i`.
pub open spec fn occurs_at(s: Seq<char>, pat: Seq<char>, i: int) -> bool {
    0 <= i && i + pat.len() <= s.len() && s.subrange(i, i + pat.len()) == pat
}

/// `pat` occurs somewhere in `s` (`str::contains`).
pub open spec fn contains_sub(s: Seq<char>, pat: Seq<char>) -> bool {
    exists|i: int| occurs_at(s, pat, i)
}

/// Whether `pat` occurs in `cs`.
pub fn contains_at_any(cs: &Vec<char>, pat: &Vec<char>) -> (r: bool)
    ensures
        r == contains_sub(cs@, pat@),
{
    let n = cs.len();
    let m = pat.len();
    if m > n {
        assert forall|i: int| !occurs_at(cs@, pat@, i) by {}
        return false;
    }
    let mut i: usize = 0;
    while i <= n - m
        invariant
            n == cs@.len(),
            m == pat@.len(),
            m <= n,
            i <= n - m + 1,
            forall|k: int| 0 <= k < i ==> !occurs_at(cs@, pat@, k),
        decreases n - m + 1 - i,
    {
        let mut j: usize = 0;
        let mut ok = true;
        while j < m
            invariant
                n == cs@.len(),
                m == pat@.len(),
                i + m <= n,
                j <= m,
                ok == (forall|t: int| 0 <= t < j ==> cs@[i + t] == pat@[t]),
            decreases m - j,
        {
            if cs[i + j] != pat[j] {
                ok = false;
            }
            j += 1;
        }
        if ok {
            assert(cs@.subrange(i as int, i + m) =~= pat@);
            assert(occurs_at(cs@, pat@, i as int));
            return true;
        }
        assert(!occurs_at(cs@, pat@, i as int)) by {
            if occurs_at(cs@, pat@, i as int) {
                let t = choose|t: int| 0 <= t < m && cs@[i + t] != pat@[t];
                assert(cs@.subrange(i as int, i + m)[t] == cs@[i + t]);
            }
        }
        i += 1;
    }
    assert forall|k: int| !occurs_at(cs@, pat@, k) by {
        if 0 <= k && k < i {
        }
    }
    false
}

/// `s` with every occurrence of `pat`, read left to right without
/// overlap, replaced by `r` (`str::replace` with a non-empty pattern).
pub open spec fn replace_sub(s: Seq<char>, pat: Seq<char>, r: Seq<char>) -> Seq<char>
    decreases s.len(),
{
    if pat.len() == 0 || s.len() < pat.len() {
        s
    } else if s.take(pat.len() as int) == pat {
        r + replace_sub(s.skip(pat.len() as int), pat, r)
    } else {
        seq![s[0]] + replace_sub(s.skip(1), pat, r)
    }
}

/// Appends `replace_sub(cs, pat, r)` to `out`.
pub fn push_replaced_sub(out: &mut String, cs: &Vec<char>, pat: &Vec<char>, r: &str)
    requires
        pat@.len() > 0,
    ensures
        final(out)@ == old(out)@ + replace_sub(cs@, pat@, r@),
{
    let n = cs.len();
    let m = pat.len();
    let mut i: usize = 0;
    assert(cs@.skip(0) == cs@);
    while i < n && n - i >= m
        invariant
            n == cs@.len(),
            m == pat@.len(),
            m > 0,
            i <= n,
            out@ + replace_sub(cs@.skip(i as int), pat@, r@) == old(out)@ + replace_sub(cs@, pat@, r@),
        decreases n - i,
    {
        let ghost rest = cs@.skip(i as int);
        let mut j: usize = 0;
        let mut ok = true;
        while j < m
            invariant
                n == cs@.len(),
                m == pat@.len(),
                i + m <= n,
                j <= m,
                ok == (forall|t: int| 0 <= t < j ==> cs@[i + t] == pat@[t]),
            decreases m - j,
        {
            if cs[i + j] != pat[j] {
                ok = false;
            }
            j += 1;
        }
        if ok {
            assert(rest.take(m as int) =~= pat@);
            assert(rest.skip(m as int) =~= cs@.skip(i + m));
            out.append(r);
            i += m;
        } else {
            assert(rest.take(m as int) != pat@) by {
                let t = choose|t: int| 0 <= t < m && cs@[i + t] != pat@[t];
                assert(rest.take(m as int)[t] == cs@[i + t]);
            }
            assert(rest.skip(1) =~= cs@.skip(i + 1));
            assert(out@.push(cs@[i as int]) == out@ + seq![rest[0]]);
            push_char(out, cs[i]);
            i += 1;
        }
    }
    let ghost rest = cs@.skip(i as int);
    assert(replace_sub(rest, pat@, r@) == rest);
    let ghost o = out@;
    push_range(out, cs, i, n);
    assert(cs@.subrange(i as int, n as int) == rest);
}

} // verus!

verus! {

/// Whether two character vectors hold the same characters.
pub fn same_chars(a: &Vec<char>, b: &Vec<char>) -> (r: bool)
    ensures
        r == (a@ == b@),
{
    if a.len() != b.len() {
        return false;
    }
    let mut k: usize = 0;
    while k < a.len()
        invariant
            a@.len() == b@.len(),
            k <= a@.len(),
            forall|j: int| 0 <= j < k ==> a@[j] == b@[j],
        decreases a@.len() - k,
    {
        if a[k] != b[k] {
            return false;
        }
        k += 1;
    }
    assert(a@ =~= b@);
    true
}

} // verus!

verus! {

/// Whether two strings hold the same characters.
pub fn str_eq(a: &str, b: &str) -> (r: bool)
    ensures
        r == (a@ == b@),
{
    let x = chars_of(a);
    let y = chars_of(b);
    same_chars(&x, &y)
}

} // verus!
