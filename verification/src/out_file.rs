//! Reading the lattice points back from the text that Normaliz writes to its
//! `.out` file.
//!
//! The first line starts with the number `N` of lattice points. After the
//! first `***` the text holds the line
//! `N lattice points in polytope (module generators):` and then one line per
//! point: its integer coordinates, the last of which is the homogenising
//! coordinate and is dropped.
use vstd::prelude::*;
use vstd::string::StringExecFns;
use crate::eva::{digits_value, is_digit, lemma_digits_nonneg};
use crate::strata::dec;
use crate::text::push_usize;

verus! {

/// The characters of `text`, in one pass.
pub fn chars_vec(text: &str) -> (cs: Vec<char>)
    ensures
        cs@ == text@,
{
    broadcast use vstd::string::axiom_spec_iter;
    let mut cs: Vec<char> = Vec::new();
    for c in it: text.chars()
        invariant
            cs@ == it.seq().take(it.index() as int),
    {
        cs.push(c);
    }
    cs
}

/// `c` has Unicode's `White_Space` property, the test of
/// `char::is_whitespace` that separates words.
pub open spec fn is_ws(c: char) -> bool {
    ||| '\u{9}' <= c <= '\u{d}'
    ||| c == ' '
    ||| c == '\u{85}'
    ||| c == '\u{a0}'
    ||| c == '\u{1680}'
    ||| '\u{2000}' <= c <= '\u{200a}'
    ||| c == '\u{2028}'
    ||| c == '\u{2029}'
    ||| c == '\u{202f}'
    ||| c == '\u{205f}'
    ||| c == '\u{3000}'
}

/// Whether `c` is white space.
pub fn is_ws_char(c: char) -> (b: bool)
    ensures
        b == is_ws(c),
{
    ('\u{9}' <= c && c <= '\u{d}') || c == ' ' || c == '\u{85}' || c == '\u{a0}' || c == '\u{1680}'
        || ('\u{2000}' <= c && c <= '\u{200a}') || c == '\u{2028}' || c == '\u{2029}' || c == '\u{202f}'
        || c == '\u{205f}' || c == '\u{3000}'
}

/// A non-empty run of ASCII digits.
pub open spec fn all_digits(t: Seq<char>) -> bool {
    t.len() > 0 && forall|k: int| 0 <= k < t.len() ==> #[trigger] is_digit(t[k])
}

/// The value of a decimal integer with an optional `+` (or, when `signed`,
/// `-`) in front, as Rust's `parse` reads one; `None` for anything else.
pub open spec fn signed_value(t: Seq<char>, signed: bool) -> Option<int> {
    if t.len() > 0 && t[0] == '+' && all_digits(t.drop_first()) {
        Some(digits_value(t, 1, t.len() as int))
    } else if signed && t.len() > 0 && t[0] == '-' && all_digits(t.drop_first()) {
        Some(-digits_value(t, 1, t.len() as int))
    } else if all_digits(t) {
        Some(digits_value(t, 0, t.len() as int))
    } else {
        None
    }
}

/// The word as an `i64`, when it is one.
pub open spec fn parse_i64(t: Seq<char>) -> Option<i64> {
    match signed_value(t, true) {
        Some(v) => if i64::MIN <= v <= i64::MAX { Some(v as i64) } else { None },
        None => None,
    }
}

/// The word as a `usize`, when it is one.
pub open spec fn parse_usize(t: Seq<char>) -> Option<usize> {
    match signed_value(t, false) {
        Some(v) => if 0 <= v <= usize::MAX { Some(v as usize) } else { None },
        None => None,
    }
}

/// `digits_value` does not depend on what lies outside the range.
proof fn lemma_digits_shift(s: Seq<char>, a: int, i: int, j: int)
    requires
        0 <= a <= i <= j <= s.len(),
    ensures
        digits_value(s, i, j) == digits_value(s.subrange(a, s.len() as int), i - a, j - a),
    decreases j - i,
{
    if j > i {
        lemma_digits_shift(s, a, i, j - 1);
    }
}

/// Reads `s[i..j]` as an integer of [`signed_value`] and keeps it when it
/// lies in `[lo, hi]`.
pub(crate) fn read_int(s: &Vec<char>, i: usize, j: usize, signed: bool, lo: i128, hi: i128) -> (r: Option<i128>)
    requires
        i <= j <= s@.len(),
        -0x1_0000_0000_0000_0000 <= lo,
        hi <= 0x1_0000_0000_0000_0000,
    ensures
        r == (match signed_value(s@.subrange(i as int, j as int), signed) {
            Some(v) => if lo <= v <= hi { Some(v as i128) } else { None },
            None => None,
        }),
{
    let ghost t = s@.subrange(i as int, j as int);
    let mut k = i;
    let mut neg = false;
    if k < j && s[k] == '+' {
        k = k + 1;
    } else if signed && k < j && s[k] == '-' {
        neg = true;
        k = k + 1;
    }
    if k >= j {
        proof {
            if t.len() > 0 {
                assert(t.drop_first().len() == 0);
                assert(t[0] == s@[i as int]);
                assert(!is_digit(t[0]));
            }
        }
        return None;
    }
    let start = k;
    let mut acc: u128 = 0;
    let mut over = false;
    while k < j
        invariant
            t == s@.subrange(i as int, j as int),
            i <= start <= k <= j <= s@.len(),
            start == i || start == i + 1,
            start == i + 1 ==> (s@[i as int] == '+' && !neg) || (signed && s@[i as int] == '-' && neg),
            start == i ==> !neg && s@[i as int] != '+' && !(signed && s@[i as int] == '-'),
            forall|x: int| start <= x < k ==> #[trigger] is_digit(s@[x]),
            !over ==> acc == digits_value(s@, start as int, k as int),
            !over ==> acc <= 0x1_0000_0000_0000_0000,
            over ==> digits_value(s@, start as int, k as int) > 0x1_0000_0000_0000_0000,
        decreases j - k,
    {
        let c = s[k];
        if !('0' <= c && c <= '9') {
            proof {
                let q = (k - i) as int;
                assert(t[q] == c);
                assert(!is_digit(t[q]));
                assert(!all_digits(t));
                if start == i + 1 {
                    assert(t.drop_first()[q - 1] == c);
                    assert(!is_digit(t.drop_first()[q - 1]));
                    assert(!all_digits(t.drop_first()));
                }
            }
            return None;
        }
        let d = (c as u32 - '0' as u32) as u128;
        proof {
            lemma_digits_nonneg(s@, start as int, k as int);
            assert(digits_value(s@, start as int, k + 1) == digits_value(s@, start as int, k as int) * 10 + d);
        }
        if !over {
            if acc > 0x1_0000_0000_0000_0000 / 10 {
                over = true;
                proof {
                    assert(acc * 10 + d > 0x1_0000_0000_0000_0000) by (nonlinear_arith)
                        requires acc > 0x1_0000_0000_0000_0000u128 / 10, d <= 9;
                }
            } else {
                proof {
                    assert(acc * 10 + d <= 0x1_0000_0000_0000_0009) by (nonlinear_arith)
                        requires acc <= 0x1_0000_0000_0000_0000u128 / 10, d <= 9;
                }
                acc = acc * 10 + d;
                if acc > 0x1_0000_0000_0000_0000 {
                    over = true;
                }
            }
        } else {
            proof {
                let pv = digits_value(s@, start as int, k as int);
                assert(pv * 10 + d > 0x1_0000_0000_0000_0000) by (nonlinear_arith)
                    requires pv > 0x1_0000_0000_0000_0000int, d >= 0;
            }
        }
        k = k + 1;
    }
    proof {
        let off = start - i;
        assert forall|x: int| off <= x < t.len() implies #[trigger] is_digit(t[x]) by {
            assert(t[x] == s@[i + x]);
        }
        lemma_digits_shift(s@, i as int, start as int, j as int);
        assert(s@.subrange(i as int, s@.len() as int).subrange(0, j - i) == t);
        lemma_digits_prefix(s@.subrange(i as int, s@.len() as int), t, off, j - i);
        if off == 1 {
            assert forall|x: int| 0 <= x < t.drop_first().len() implies #[trigger] is_digit(t.drop_first()[x]) by {
                assert(t.drop_first()[x] == t[x + 1]);
            }
            assert(all_digits(t.drop_first()));
        } else {
            assert(all_digits(t));
            assert(is_digit(t[0]));
        }
    }
    if over {
        return None;
    }
    let v: i128 = if neg { -(acc as i128) } else { acc as i128 };
    if lo <= v && v <= hi {
        Some(v)
    } else {
        None
    }
}

/// `digits_value` on a sequence agrees with it on any longer sequence with
/// the same prefix.
proof fn lemma_digits_prefix(u: Seq<char>, t: Seq<char>, i: int, j: int)
    requires
        0 <= i <= j <= t.len() <= u.len(),
        t == u.subrange(0, t.len() as int),
    ensures
        digits_value(u, i, j) == digits_value(t, i, j),
    decreases j - i,
{
    if j > i {
        lemma_digits_prefix(u, t, i, j - 1);
        assert(t[j - 1] == u[j - 1]);
    }
}

/// The end of the word of `s[..e]` that starts at `i`: the first white
/// character at or after `i`, or `e`.
pub open spec fn word_end(s: Seq<char>, i: int, e: int) -> int
    decreases e - i,
{
    if 0 <= i < e && !is_ws(s[i]) {
        word_end(s, i + 1, e)
    } else {
        i
    }
}

/// A word ends at or after its start and at or before `e`.
pub proof fn lemma_word_end(s: Seq<char>, i: int, e: int)
    requires
        0 <= i <= e,
    ensures
        i <= word_end(s, i, e) <= e,
        forall|x: int| i <= x < word_end(s, i, e) ==> !#[trigger] is_ws(s[x]),
        word_end(s, i, e) < e ==> is_ws(s[word_end(s, i, e)]),
    decreases e - i,
{
    if i < e && !is_ws(s[i]) {
        lemma_word_end(s, i + 1, e);
    }
}

/// The end of the line that starts at `i`: the first `'\n'` at or after
/// `i`, or the end of the text.
pub open spec fn line_end(s: Seq<char>, i: int) -> int
    decreases s.len() - i,
{
    if 0 <= i < s.len() && s[i] != '\n' {
        line_end(s, i + 1)
    } else {
        i
    }
}

/// A line ends at or after its start, on a `'\n'` or at the end.
proof fn lemma_line_end(s: Seq<char>, i: int)
    requires
        0 <= i <= s.len(),
    ensures
        i <= line_end(s, i) <= s.len(),
        line_end(s, i) < s.len() ==> s[line_end(s, i)] == '\n',
    decreases s.len() - i,
{
    if i < s.len() && s[i] != '\n' {
        lemma_line_end(s, i + 1);
    }
}

/// The words of `s[i..e]` that read as `i64`, in order; the other words
/// are skipped.
pub open spec fn line_values(s: Seq<char>, i: int, e: int) -> Seq<i64>
    decreases e - i,
{
    if i < 0 || i >= e {
        Seq::empty()
    } else if is_ws(s[i]) {
        line_values(s, i + 1, e)
    } else {
        let j = word_end(s, i + 1, e);
        proof {
            lemma_word_end(s, i + 1, e);
        }
        let rest = line_values(s, j, e);
        match parse_i64(s.subrange(i, j)) {
            Some(v) => seq![v] + rest,
            None => rest,
        }
    }
}

/// The first word of `s[i..e]` read as a `usize`, or 0 when there is none
/// or it does not read as one.
pub open spec fn first_count(s: Seq<char>, i: int, e: int) -> usize
    decreases e - i,
{
    if i < 0 || i >= e {
        0
    } else if is_ws(s[i]) {
        first_count(s, i + 1, e)
    } else {
        match parse_usize(s.subrange(i, word_end(s, i, e))) {
            Some(c) => c,
            None => 0,
        }
    }
}

/// The end of the word that starts at `i`.
fn word_end_exec(s: &Vec<char>, i: usize, e: usize) -> (j: usize)
    requires
        i <= e <= s@.len(),
    ensures
        j == word_end(s@, i as int, e as int),
        i <= j <= e,
{
    proof {
        lemma_word_end(s@, i as int, e as int);
    }
    let mut j = i;
    while j < e && !is_ws_char(s[j])
        invariant
            i <= j <= e <= s@.len(),
            word_end(s@, j as int, e as int) == word_end(s@, i as int, e as int),
        decreases e - j,
    {
        j = j + 1;
    }
    j
}

/// The end of the line that starts at `i`.
fn line_end_exec(s: &Vec<char>, i: usize) -> (j: usize)
    requires
        i <= s@.len(),
    ensures
        j == line_end(s@, i as int),
        i <= j <= s@.len(),
{
    proof {
        lemma_line_end(s@, i as int);
    }
    let mut j = i;
    while j < s.len() && s[j] != '\n'
        invariant
            i <= j <= s@.len(),
            line_end(s@, j as int) == line_end(s@, i as int),
        decreases s@.len() - j,
    {
        j = j + 1;
    }
    j
}

/// The words of `s[i..e]` that read as `i64`.
fn line_values_exec(s: &Vec<char>, i: usize, e: usize) -> (v: Vec<i64>)
    requires
        i <= e <= s@.len(),
    ensures
        v@ == line_values(s@, i as int, e as int),
{
    let mut out: Vec<i64> = Vec::new();
    let mut k = i;
    while k < e
        invariant
            i <= k <= e <= s@.len(),
            out@ + line_values(s@, k as int, e as int) == line_values(s@, i as int, e as int),
        decreases e - k,
    {
        if is_ws_char(s[k]) {
            k = k + 1;
        } else {
            let j = word_end_exec(s, k + 1, e);
            let ghost rest = line_values(s@, j as int, e as int);
            let r = read_int(s, k, j, true, -0x8000_0000_0000_0000, 0x7fff_ffff_ffff_ffff);
            let ghost before = out@;
            match r {
                Some(x) => {
                    out.push(x as i64);
                    proof {
                        assert(before + (seq![x as i64] + rest) == out@ + rest);
                    }
                },
                None => {},
            }
            k = j;
        }
    }
    out
}

/// The first word of `s[i..e]` as a `usize`, or 0.
fn first_count_exec(s: &Vec<char>, i: usize, e: usize) -> (c: usize)
    requires
        i <= e <= s@.len(),
    ensures
        c == first_count(s@, i as int, e as int),
{
    let mut k = i;
    while k < e && is_ws_char(s[k])
        invariant
            i <= k <= e <= s@.len(),
            first_count(s@, k as int, e as int) == first_count(s@, i as int, e as int),
        decreases e - k,
    {
        k = k + 1;
    }
    if k >= e {
        return 0;
    }
    let j = word_end_exec(s, k, e);
    match read_int(s, k, j, false, 0, usize::MAX as i128) {
        Some(c) => c as usize,
        None => 0,
    }
}

/// `pat` occurs in `s` at `i`.
pub open spec fn occurs_at(s: Seq<char>, pat: Seq<char>, i: int) -> bool {
    0 <= i && i + pat.len() <= s.len() && s.subrange(i, i + pat.len()) == pat
}

/// The first position at or after `i` where `pat` occurs, as `str::find`
/// reports it on the text from `i` on.
pub open spec fn find_from(s: Seq<char>, pat: Seq<char>, i: int) -> Option<int>
    decreases s.len() - i,
{
    if i < 0 || i + pat.len() > s.len() {
        None
    } else if occurs_at(s, pat, i) {
        Some(i)
    } else if i >= s.len() {
        None
    } else {
        find_from(s, pat, i + 1)
    }
}

/// A position that [`find_from`] reports is one where `pat` occurs.
proof fn lemma_find_from(s: Seq<char>, pat: Seq<char>, i: int)
    ensures
        find_from(s, pat, i) matches Some(p) ==> i <= p && occurs_at(s, pat, p),
    decreases s.len() - i,
{
    if i < 0 || i + pat.len() > s.len() {
    } else if occurs_at(s, pat, i) {
    } else if i >= s.len() {
    } else {
        lemma_find_from(s, pat, i + 1);
    }
}

/// Whether `pat` occurs in `s` at `i`.
fn occurs_exec(s: &Vec<char>, pat: &Vec<char>, i: usize) -> (b: bool)
    requires
        i + pat@.len() <= s@.len(),
    ensures
        b == occurs_at(s@, pat@, i as int),
{
    let n = pat.len();
    let sl = s.len();
    let mut k: usize = 0;
    while k < n
        invariant
            n == pat@.len(),
            sl == s@.len(),
            i + n <= s@.len(),
            k <= n,
            forall|x: int| 0 <= x < k ==> s@[i + x] == pat@[x],
        decreases n - k,
    {
        if s[i + k] != pat[k] {
            proof {
                assert(s@.subrange(i as int, i + n)[k as int] != pat@[k as int]);
            }
            return false;
        }
        k = k + 1;
    }
    proof {
        assert(s@.subrange(i as int, i + n) =~= pat@);
    }
    true
}

/// The first position at or after `from` where `pat` occurs.
fn find_exec(s: &Vec<char>, pat: &Vec<char>, from: usize) -> (r: Option<usize>)
    requires
        from <= s@.len(),
    ensures
        match find_from(s@, pat@, from as int) {
            Some(p) => r == Some(p as usize),
            None => r is None,
        },
{
    let mut i = from;
    while pat.len() <= s.len() - i
        invariant
            from <= i <= s@.len(),
            find_from(s@, pat@, i as int) == find_from(s@, pat@, from as int),
        decreases s@.len() - i,
    {
        if occurs_exec(s, pat, i) {
            return Some(i);
        }
        if i >= s.len() {
            return None;
        }
        i = i + 1;
    }
    None
}

/// The line that announces the lattice points.
pub open spec fn marker(c: nat) -> Seq<char> {
    dec(c) + " lattice points in polytope (module generators):"@
}

/// The points of the (at most `k`) lines that start at `p`: the words of
/// each line that read as `i64`, without the last; a line with no such
/// word gives no point.
pub open spec fn points_from(s: Seq<char>, p: int, k: nat) -> Seq<Seq<i64>>
    decreases k,
{
    if k == 0 || p < 0 || p >= s.len() {
        Seq::empty()
    } else {
        let e = line_end(s, p);
        let row = line_values(s, p, e);
        let rest = points_from(s, e + 1, (k - 1) as nat);
        if row.len() == 0 {
            rest
        } else {
            seq![row.drop_last()] + rest
        }
    }
}

/// The number of lattice points: the first word of the first line, or 0.
pub open spec fn out_count(s: Seq<char>) -> usize {
    first_count(s, 0, line_end(s, 0))
}

/// The lattice points: none when the count is 0; else the points of the
/// `count` lines that follow the line of the first [`marker`] after the
/// first `***` (none when there is no such line).
pub open spec fn out_points(s: Seq<char>) -> Seq<Seq<i64>> {
    let c = out_count(s);
    if c == 0 {
        Seq::empty()
    } else {
        let sep = match find_from(s, "***"@, 0) {
            Some(p) => p,
            None => s.len() as int,
        };
        match find_from(s, marker(c as nat), sep) {
            Some(q) => points_from(s, line_end(s, q) + 1, c as nat),
            None => Seq::empty(),
        }
    }
}

/// The views of the rows.
pub open spec fn rows_view(v: Seq<Vec<i64>>) -> Seq<Seq<i64>> {
    v.map_values(|row: Vec<i64>| row@)
}

/// Reads the text of a Normaliz `.out` file: the number of lattice points
/// and the points, each without its last (homogenising) coordinate;
/// `(0, [])` when the count is 0 or unreadable.
pub fn parse_out(text: &str) -> (r: (usize, Vec<Vec<i64>>))
    ensures
        r.0 == out_count(text@),
        rows_view(r.1@) == out_points(text@),
{
    let s = chars_vec(text);
    proof {
        lemma_line_end(s@, 0);
    }
    let e0 = line_end_exec(&s, 0);
    let c = first_count_exec(&s, 0, e0);
    if c == 0 {
        let none: Vec<Vec<i64>> = Vec::new();
        proof {
            assert(rows_view(none@) =~= Seq::<Seq<i64>>::empty());
        }
        return (0, none);
    }
    let star = chars_vec("***");
    let sep = match find_exec(&s, &star, 0) {
        Some(p) => p,
        None => s.len(),
    };
    proof {
        lemma_find_from(s@, star@, 0);
        lemma_find_from(s@, marker(c as nat), sep as int);
    }
    let mut m = String::new();
    push_usize(&mut m, c);
    m.append(" lattice points in polytope (module generators):");
    let mk = chars_vec(m.as_str());
    let mut pts: Vec<Vec<i64>> = Vec::new();
    match find_exec(&s, &mk, sep) {
        None => {
            proof {
                assert(rows_view(pts@) =~= Seq::<Seq<i64>>::empty());
            }
            (c, pts)
        },
        Some(q) => {
            let le = line_end_exec(&s, q);
            let mut p: usize = if le < s.len() { le + 1 } else { s.len() };
            let mut k: usize = 0;
            proof {
                assert(rows_view(pts@) =~= Seq::<Seq<i64>>::empty());
                assert(points_from(s@, p as int, c as nat) == points_from(s@, le + 1, c as nat));
            }
            while k < c && p < s.len()
                invariant
                    k <= c,
                    p <= s@.len(),
                    rows_view(pts@) + points_from(s@, p as int, (c - k) as nat)
                        == points_from(s@, le + 1, c as nat),
                decreases c - k,
            {
                let e = line_end_exec(&s, p);
                let mut row = line_values_exec(&s, p, e);
                let ghost rest = points_from(s@, e + 1, (c - k - 1) as nat);
                let ghost before = rows_view(pts@);
                if row.len() > 0 {
                    let ghost full = row@;
                    row.pop();
                    proof {
                        assert(row@ == full.drop_last());
                    }
                    pts.push(row);
                    proof {
                        assert(rows_view(pts@) =~= before.push(full.drop_last()));
                        assert(before + (seq![full.drop_last()] + rest) =~= rows_view(pts@) + rest);
                    }
                }
                let np: usize = if e < s.len() { e + 1 } else { s.len() };
                proof {
                    assert(points_from(s@, np as int, (c - k - 1) as nat) == rest);
                }
                p = np;
                k = k + 1;
            }
            proof {
                assert(points_from(s@, p as int, (c - k) as nat) == Seq::<Seq<i64>>::empty());
                assert(rows_view(pts@) + Seq::<Seq<i64>>::empty() =~= rows_view(pts@));
            }
            (c, pts)
        },
    }
}

} // verus!
