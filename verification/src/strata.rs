//! Strata chains `M_0 ⊆ M_1 ⊆ … ⊆ M_lmax ⊆ {1, …, N}`: random monotone
//! chains, and their text form, `;`-separated rows of `,`-separated numbers.
use vstd::prelude::*;
use vstd::string::{StrSliceExecFns, StringExecFns};
use rand::Rng;

verus! {

/// The decimal digit character for `d`, `0 ≤ d ≤ 9`.
pub open spec fn digit_char(d: int) -> char {
    if d == 0 { '0' } else if d == 1 { '1' } else if d == 2 { '2' } else if d == 3 { '3' } else if d == 4 { '4' }
    else if d == 5 { '5' } else if d == 6 { '6' } else if d == 7 { '7' } else if d == 8 { '8' } else { '9' }
}

/// The value of a decimal digit character, or `None`.
pub open spec fn digit_value(c: char) -> Option<int> {
    if c == '0' { Some(0int) } else if c == '1' { Some(1int) } else if c == '2' { Some(2int) } else if c == '3' { Some(3int) }
    else if c == '4' { Some(4int) } else if c == '5' { Some(5int) } else if c == '6' { Some(6int) } else if c == '7' { Some(7int) }
    else if c == '8' { Some(8int) } else if c == '9' { Some(9int) } else { None }
}

/// The decimal form of `n`.
pub open spec fn dec(n: nat) -> Seq<char>
    decreases n,
{
    if n < 10 {
        seq![digit_char(n as int)]
    } else {
        dec(n / 10).push(digit_char((n % 10) as int))
    }
}

/// A row: its numbers in decimal, separated by `,`.
pub open spec fn row_text(r: Seq<usize>) -> Seq<char>
    decreases r.len(),
{
    if r.len() == 0 {
        Seq::empty()
    } else if r.len() == 1 {
        dec(r[0] as nat)
    } else {
        row_text(r.drop_last()) + seq![','] + dec(r.last() as nat)
    }
}

/// A chain: its rows separated by `;`.
pub open spec fn chain_text(c: Seq<Seq<usize>>) -> Seq<char>
    decreases c.len(),
{
    if c.len() == 0 {
        Seq::empty()
    } else if c.len() == 1 {
        row_text(c[0])
    } else {
        chain_text(c.drop_last()) + seq![';'] + row_text(c.last())
    }
}

/// The views of the rows.
pub open spec fn rows_view(v: Seq<Vec<usize>>) -> Seq<Seq<usize>> {
    Seq::new(v.len(), |i: int| v[i]@)
}

/// The pieces of `s` between occurrences of `sep` (one piece more than
/// there are separators).
pub open spec fn split(s: Seq<char>, sep: char) -> Seq<Seq<char>>
    decreases s.len(),
{
    if s.len() == 0 {
        seq![Seq::empty()]
    } else {
        let prev = split(s.drop_last(), sep);
        if s.last() == sep {
            prev.push(Seq::empty())
        } else {
            prev.update(prev.len() - 1, prev.last().push(s.last()))
        }
    }
}

/// Unicode `White_Space` characters, the ones `str::trim` removes.
pub open spec fn is_ws(c: char) -> bool {
    ||| c == ' ' || c == '\t' || c == '\n' || c == '\u{0B}' || c == '\u{0C}' || c == '\r'
    ||| c == '\u{85}' || c == '\u{A0}' || c == '\u{1680}'
    ||| ('\u{2000}' <= c && c <= '\u{200A}')
    ||| c == '\u{2028}' || c == '\u{2029}' || c == '\u{202F}' || c == '\u{205F}' || c == '\u{3000}'
}

/// `s` without its leading whitespace.
pub open spec fn trim_start(s: Seq<char>) -> Seq<char>
    decreases s.len(),
{
    if s.len() > 0 && is_ws(s[0]) { trim_start(s.drop_first()) } else { s }
}

/// `s` without its trailing whitespace.
pub open spec fn trim_end(s: Seq<char>) -> Seq<char>
    decreases s.len(),
{
    if s.len() > 0 && is_ws(s.last()) { trim_end(s.drop_last()) } else { s }
}

/// The value of a run of digits; `None` if some character is not a digit.
pub open spec fn digits_of(s: Seq<char>) -> Option<int>
    decreases s.len(),
{
    if s.len() == 0 {
        Some(0int)
    } else {
        match (digits_of(s.drop_last()), digit_value(s.last())) {
            (Some(v), Some(d)) => Some(v * 10 + d),
            _ => None,
        }
    }
}

/// A token as `usize::from_str` reads it after trimming: an optional `+`
/// and at least one digit, with a value that fits.
pub open spec fn parse_token(tok: Seq<char>) -> Option<usize> {
    let t = trim_end(trim_start(tok));
    let body = if t.len() > 0 && t[0] == '+' { t.drop_first() } else { t };
    if body.len() == 0 {
        None
    } else {
        match digits_of(body) {
            Some(v) => if v <= usize::MAX { Some(v as usize) } else { None },
            None => None,
        }
    }
}

/// The numbers of the tokens that parse, in order.
pub open spec fn parse_all(toks: Seq<Seq<char>>) -> Seq<usize>
    decreases toks.len(),
{
    if toks.len() == 0 {
        Seq::empty()
    } else {
        let prev = parse_all(toks.drop_last());
        match parse_token(toks.last()) {
            Some(v) => prev.push(v),
            None => prev,
        }
    }
}

/// A row of text: empty, or the parsable `,`-separated tokens.
pub open spec fn decode_row(row: Seq<char>) -> Seq<usize> {
    if row.len() == 0 { Seq::empty() } else { parse_all(split(row, ',')) }
}

/// The chain read from its text form.
pub open spec fn decode_spec(s: Seq<char>) -> Seq<Seq<usize>> {
    split(s, ';').map_values(|row: Seq<char>| decode_row(row))
}

/// The digit string for `d`.
pub(crate) fn digit_str(d: usize) -> (s: &'static str)
    requires
        d < 10,
    ensures
        s@ == seq![digit_char(d as int)],
{
    proof {
        reveal_strlit("0");
        reveal_strlit("1");
        reveal_strlit("2");
        reveal_strlit("3");
        reveal_strlit("4");
        reveal_strlit("5");
        reveal_strlit("6");
        reveal_strlit("7");
        reveal_strlit("8");
        reveal_strlit("9");
    }
    if d == 0 {
        "0"
    } else if d == 1 {
        "1"
    } else if d == 2 {
        "2"
    } else if d == 3 {
        "3"
    } else if d == 4 {
        "4"
    } else if d == 5 {
        "5"
    } else if d == 6 {
        "6"
    } else if d == 7 {
        "7"
    } else if d == 8 {
        "8"
    } else {
        "9"
    }
}

/// Appends the decimal form of `n`.
fn write_dec(out: &mut String, n: usize)
    ensures
        final(out)@ == old(out)@ + dec(n as nat),
    decreases n,
{
    if n >= 10 {
        write_dec(out, n / 10);
    }
    out.append(digit_str(n % 10));
    proof {
        if n >= 10 {
            assert(old(out)@ + dec(n as nat) == old(out)@ + dec((n / 10) as nat) + seq![digit_char((n % 10) as int)]);
        }
    }
}

/// Encodes a chain as `;`-separated rows of `,`-separated numbers; a chain
/// of `k + 1` rows has exactly `k` semicolons.
pub fn encode_chain(chain: &[Vec<usize>]) -> (s: String)
    ensures
        s@ == chain_text(rows_view(chain@)),
{
    proof {
        reveal_strlit(";");
        reveal_strlit(",");
    }
    let mut out = String::from_str("");
    proof {
        reveal_strlit("");
    }
    let mut i: usize = 0;
    while i < chain.len()
        invariant
            i <= chain@.len(),
            out@ == chain_text(rows_view(chain@).subrange(0, i as int)),
        decreases chain@.len() - i,
    {
        let ghost before = out@;
        if i > 0 {
            out.append(";");
        }
        let row = &chain[i];
        proof {
            reveal_strlit(";");
            assert(row_text(row@.subrange(0, 0)) == Seq::<char>::empty());
            if i > 0 {
                assert(out@ =~= before + seq![';'] + row_text(row@.subrange(0, 0)));
            } else {
                assert(out@ =~= before + row_text(row@.subrange(0, 0)));
            }
        }
        let mut j: usize = 0;
        while j < row.len()
            invariant
                j <= row@.len(),
                i > 0 ==> out@ == before + seq![';'] + row_text(row@.subrange(0, j as int)),
                i == 0 ==> out@ == before + row_text(row@.subrange(0, j as int)),
            decreases row@.len() - j,
        {
            let ghost mid = out@;
            if j > 0 {
                out.append(",");
            }
            write_dec(&mut out, row[j]);
            proof {
                reveal_strlit(",");
                let r = row@.subrange(0, j + 1);
                let prev = row_text(row@.subrange(0, j as int));
                let d = dec(row@[j as int] as nat);
                assert(r.drop_last() == row@.subrange(0, j as int));
                if j == 0 {
                    assert(row_text(r) == d);
                    assert(prev == Seq::<char>::empty());
                    assert(out@ =~= mid + d);
                } else {
                    assert(row_text(r) == prev + seq![','] + d);
                    assert(out@ =~= mid + seq![','] + d);
                }
                if i > 0 {
                    assert(out@ =~= before + seq![';'] + row_text(r));
                } else {
                    assert(out@ =~= before + row_text(r));
                }
            }
            j = j + 1;
        }
        proof {
            assert(row@.subrange(0, row@.len() as int) == row@);
            let c = rows_view(chain@).subrange(0, i + 1);
            if i > 0 {
                assert(chain_text(c) == chain_text(c.drop_last()) + seq![';'] + row_text(c.last()));
            }
            assert(c.drop_last() == rows_view(chain@).subrange(0, i as int));
            assert(c.last() == row@);
            if i == 0 {
                assert(chain_text(rows_view(chain@).subrange(0, 0)) == Seq::<char>::empty());
                assert(chain_text(c) == row_text(row@));
            }
        }
        i = i + 1;
    }
    proof {
        assert(rows_view(chain@).subrange(0, chain@.len() as int) == rows_view(chain@));
    }
    out
}


/// The views of a list of character vectors.
pub open spec fn pieces_view(v: Seq<Vec<char>>) -> Seq<Seq<char>> {
    Seq::new(v.len(), |i: int| v[i]@)
}

/// The characters of a string.
fn chars_of(input: &str) -> (cs: Vec<char>)
    ensures
        cs@ == input@,
{
    let n = input.unicode_len();
    let mut cs: Vec<char> = Vec::new();
    let mut i: usize = 0;
    while i < n
        invariant
            n == input@.len(),
            i <= n,
            cs@ == input@.subrange(0, i as int),
        decreases n - i,
    {
        cs.push(input.get_char(i));
        i = i + 1;
    }
    assert(cs@ == input@);
    cs
}

/// The pieces of `s` between occurrences of `sep`.
fn split_exec(s: &Vec<char>, sep: char) -> (pieces: Vec<Vec<char>>)
    ensures
        pieces_view(pieces@) == split(s@, sep),
{
    let mut done: Vec<Vec<char>> = Vec::new();
    let mut cur: Vec<char> = Vec::new();
    let mut i: usize = 0;
    proof {
        assert(s@.subrange(0, 0) =~= Seq::<char>::empty());
        assert(pieces_view(done@).push(cur@) =~= split(s@.subrange(0, 0), sep));
    }
    while i < s.len()
        invariant
            i <= s@.len(),
            pieces_view(done@).push(cur@) == split(s@.subrange(0, i as int), sep),
        decreases s@.len() - i,
    {
        let c = s[i];
        let ghost prefix = s@.subrange(0, i + 1);
        proof {
            assert(prefix.drop_last() =~= s@.subrange(0, i as int));
            assert(prefix.last() == c);
        }
        if c == sep {
            let ghost old_done = done@;
            let finished = cur;
            done.push(finished);
            cur = Vec::new();
            proof {
                assert(pieces_view(done@) =~= pieces_view(old_done).push(finished@));
                assert(pieces_view(done@).push(cur@) =~= split(prefix, sep));
            }
        } else {
            let ghost old_cur = cur@;
            cur.push(c);
            proof {
                let prev = split(s@.subrange(0, i as int), sep);
                assert(prev.last() == old_cur);
                assert(pieces_view(done@).push(cur@) =~= prev.update(prev.len() - 1, prev.last().push(c)));
            }
        }
        i = i + 1;
    }
    let ghost old_done = done@;
    done.push(cur);
    proof {
        assert(s@.subrange(0, s@.len() as int) =~= s@);
        assert(pieces_view(done@) =~= pieces_view(old_done).push(done@.last()@));
    }
    done
}

/// `c` is a Unicode `White_Space` character.
fn is_ws_exec(c: char) -> (b: bool)
    ensures
        b == is_ws(c),
{
    c == ' ' || c == '\t' || c == '\n' || c == '\u{0B}' || c == '\u{0C}' || c == '\r'
        || c == '\u{85}' || c == '\u{A0}' || c == '\u{1680}'
        || ('\u{2000}' <= c && c <= '\u{200A}')
        || c == '\u{2028}' || c == '\u{2029}' || c == '\u{202F}' || c == '\u{205F}' || c == '\u{3000}'
}

/// The value of a decimal digit character.
fn digit_value_exec(c: char) -> (r: Option<usize>)
    ensures
        match digit_value(c) {
            Some(v) => r == Some(v as usize),
            None => r is None,
        },
{
    if c == '0' { Some(0) } else if c == '1' { Some(1) } else if c == '2' { Some(2) } else if c == '3' { Some(3) }
    else if c == '4' { Some(4) } else if c == '5' { Some(5) } else if c == '6' { Some(6) } else if c == '7' { Some(7) }
    else if c == '8' { Some(8) } else if c == '9' { Some(9) } else { None }
}

/// Digit values are at most 9, and digit runs only grow when extended.
proof fn lemma_digits_of_prefix(s: Seq<char>, j: int)
    requires
        0 <= j <= s.len(),
        digits_of(s) is Some,
    ensures
        digits_of(s.subrange(0, j)) is Some,
        0 <= digits_of(s.subrange(0, j))->0 <= digits_of(s)->0,
    decreases s.len() - j,
{
    if j < s.len() {
        assert(s.drop_last().subrange(0, j) == s.subrange(0, j));
        lemma_digits_of_prefix(s.drop_last(), j);
        lemma_digits_of_prefix(s.drop_last(), s.len() - 1);
        assert(s.drop_last().subrange(0, s.len() - 1) == s.drop_last());
    } else {
        assert(s.subrange(0, j) == s);
        lemma_digits_nonneg(s);
    }
}

/// Digit runs have non-negative values.
proof fn lemma_digits_nonneg(s: Seq<char>)
    requires
        digits_of(s) is Some,
    ensures
        digits_of(s)->0 >= 0,
    decreases s.len(),
{
    if s.len() > 0 {
        lemma_digits_nonneg(s.drop_last());
    }
}

/// Reads a token as [`parse_token`] does.
fn parse_token_exec(tok: &Vec<char>) -> (r: Option<usize>)
    ensures
        r == parse_token(tok@),
{
    let n = tok.len();
    let mut a: usize = 0;
    proof {
        assert(tok@.subrange(0, n as int) =~= tok@);
    }
    while a < n && is_ws_exec(tok[a])
        invariant
            n == tok@.len(),
            a <= n,
            trim_start(tok@) == trim_start(tok@.subrange(a as int, n as int)),
        decreases n - a,
    {
        proof {
            assert(tok@.subrange(a as int, n as int).drop_first() =~= tok@.subrange(a + 1, n as int));
        }
        a = a + 1;
    }
    proof {
        assert(trim_start(tok@) == tok@.subrange(a as int, n as int));
        assert(tok@.subrange(a as int, n as int) =~= tok@.subrange(a as int, n as int));
    }
    let mut b: usize = n;
    while b > a && is_ws_exec(tok[b - 1])
        invariant
            n == tok@.len(),
            a <= b <= n,
            trim_end(tok@.subrange(a as int, n as int)) == trim_end(tok@.subrange(a as int, b as int)),
        decreases b - a,
    {
        proof {
            assert(tok@.subrange(a as int, b as int).drop_last() =~= tok@.subrange(a as int, b - 1));
        }
        b = b - 1;
    }
    let ghost t = tok@.subrange(a as int, b as int);
    proof {
        assert(trim_end(trim_start(tok@)) == t);
    }
    let mut start = a;
    if start < b && tok[start] == '+' {
        start = start + 1;
    }
    let ghost body = tok@.subrange(start as int, b as int);
    proof {
        if a < b && tok@[a as int] == '+' {
            assert(body =~= t.drop_first());
        } else {
            assert(body =~= t);
        }
    }
    if start == b {
        return None;
    }
    let mut v: usize = 0;
    let mut too_large = false;
    let mut k: usize = start;
    proof {
        assert(tok@.subrange(start as int, start as int) =~= Seq::<char>::empty());
    }
    while k < b
        invariant
            n == tok@.len(),
            start <= k <= b <= n,
            body == tok@.subrange(start as int, b as int),
            t == tok@.subrange(a as int, b as int),
            trim_end(trim_start(tok@)) == t,
            body == (if t.len() > 0 && t[0] == '+' { t.drop_first() } else { t }),
            body.len() > 0,
            digits_of(tok@.subrange(start as int, k as int)) is Some,
            !too_large ==> v == digits_of(tok@.subrange(start as int, k as int))->0,
            too_large ==> digits_of(tok@.subrange(start as int, k as int))->0 > usize::MAX,
        decreases b - k,
    {
        let ghost pre = tok@.subrange(start as int, k + 1);
        proof {
            assert(pre.drop_last() =~= tok@.subrange(start as int, k as int));
            lemma_digits_nonneg(tok@.subrange(start as int, k as int));
        }
        let d = match digit_value_exec(tok[k]) {
            Some(d) => d,
            None => {
                proof {
                    assert(digits_of(pre) is None);
                    if digits_of(body) is Some {
                        assert(body.subrange(0, k + 1 - start) =~= pre);
                        lemma_digits_of_prefix(body, k + 1 - start);
                    }
                    assert(digits_of(body) is None);
                    assert(body.len() > 0);
                    assert(parse_token(tok@) is None);
                }
                return None;
            },
        };
        if !too_large {
            if v > (usize::MAX - d) / 10 {
                too_large = true;
                proof {
                    assert(v * 10 + d > usize::MAX) by (nonlinear_arith) requires v > (usize::MAX - d) / 10, d <= 9;
                }
            } else {
                proof {
                    assert(v * 10 + d <= usize::MAX) by (nonlinear_arith) requires v <= (usize::MAX - d) / 10, d <= 9;
                }
                v = v * 10 + d;
            }
        } else {
            proof {
                let pv = digits_of(tok@.subrange(start as int, k as int))->0;
                assert(pv * 10 + d > usize::MAX) by (nonlinear_arith) requires pv > usize::MAX, d >= 0;
            }
        }
        k = k + 1;
    }
    proof {
        assert(tok@.subrange(start as int, b as int) == body);
    }
    if too_large {
        None
    } else {
        Some(v)
    }
}

/// Reads a chain from its text form: `;`-separated rows, each empty or a
/// list of `,`-separated tokens of which the ones that parse are kept.
pub fn decode_chain(s: &str) -> (c: Vec<Vec<usize>>)
    ensures
        rows_view(c@) == decode_spec(s@),
{
    let cs = chars_of(s);
    let rows = split_exec(&cs, ';');
    let mut out: Vec<Vec<usize>> = Vec::new();
    let mut i: usize = 0;
    while i < rows.len()
        invariant
            i <= rows@.len(),
            pieces_view(rows@) == split(s@, ';'),
            rows_view(out@) == decode_spec(s@).subrange(0, i as int),
        decreases rows@.len() - i,
    {
        let row = &rows[i];
        let mut values: Vec<usize> = Vec::new();
        if row.len() > 0 {
            let toks = split_exec(row, ',');
            let mut j: usize = 0;
            while j < toks.len()
                invariant
                    j <= toks@.len(),
                    pieces_view(toks@) == split(row@, ','),
                    values@ == parse_all(split(row@, ',').subrange(0, j as int)),
                decreases toks@.len() - j,
            {
                let ghost sub = split(row@, ',').subrange(0, j + 1);
                proof {
                    assert(sub.drop_last() =~= split(row@, ',').subrange(0, j as int));
                    assert(sub.last() == toks@[j as int]@);
                }
                match parse_token_exec(&toks[j]) {
                    Some(v) => {
                        values.push(v);
                    },
                    None => {},
                }
                j = j + 1;
            }
            proof {
                assert(split(row@, ',').subrange(0, toks@.len() as int) =~= split(row@, ','));
            }
        }
        proof {
            assert(split(s@, ';')[i as int] == row@);
            assert(values@ == decode_row(row@));
            assert(decode_spec(s@)[i as int] == decode_row(row@));
        }
        let ghost old_out = out@;
        let ghost vv = values@;
        out.push(values);
        proof {
            assert(rows_view(out@) =~= rows_view(old_out).push(vv));
            assert(rows_view(out@) =~= decode_spec(s@).subrange(0, i + 1));
        }
        i = i + 1;
    }
    proof {
        assert(decode_spec(s@).subrange(0, rows@.len() as int) =~= decode_spec(s@));
    }
    out
}


/// `split` always yields at least one piece.
proof fn lemma_split_nonempty(s: Seq<char>, sep: char)
    ensures
        split(s, sep).len() >= 1,
    decreases s.len(),
{
    if s.len() > 0 {
        lemma_split_nonempty(s.drop_last(), sep);
    }
}

/// Splitting at a separator splits the two sides separately.
proof fn lemma_split_concat(a: Seq<char>, b: Seq<char>, sep: char)
    ensures
        split(a + seq![sep] + b, sep) == split(a, sep) + split(b, sep),
    decreases b.len(),
{
    let whole = a + seq![sep] + b;
    if b.len() == 0 {
        assert(whole.drop_last() =~= a);
        assert(split(whole, sep) =~= split(a, sep) + split(b, sep));
    } else {
        lemma_split_concat(a, b.drop_last(), sep);
        lemma_split_nonempty(b.drop_last(), sep);
        lemma_split_nonempty(a, sep);
        assert(whole.drop_last() =~= a + seq![sep] + b.drop_last());
        assert(whole.last() == b.last());
        let pa = split(a, sep);
        let pb = split(b.drop_last(), sep);
        if b.last() == sep {
            assert(split(whole, sep) =~= pa + split(b, sep));
        } else {
            assert((pa + pb).update((pa + pb).len() - 1, (pa + pb).last().push(b.last()))
                =~= pa + pb.update(pb.len() - 1, pb.last().push(b.last())));
            assert(split(whole, sep) =~= pa + split(b, sep));
        }
    }
}

/// Text without the separator is a single piece.
proof fn lemma_split_whole(s: Seq<char>, sep: char)
    requires
        forall|i: int| 0 <= i < s.len() ==> s[i] != sep,
    ensures
        split(s, sep) == seq![s],
    decreases s.len(),
{
    if s.len() > 0 {
        lemma_split_whole(s.drop_last(), sep);
        assert(s.last() != sep);
        assert(s.drop_last().push(s.last()) =~= s);
        assert(split(s, sep) =~= seq![s]);
    } else {
        assert(s =~= Seq::<char>::empty());
    }
}

/// A digit character is a digit, not whitespace, `,`, `;` or `+`, and reads back as its value.
proof fn lemma_digit_char(d: int)
    requires
        0 <= d <= 9,
    ensures
        digit_value(digit_char(d)) == Some(d),
        !is_ws(digit_char(d)),
        digit_char(d) != ',',
        digit_char(d) != ';',
        digit_char(d) != '+',
{
}

/// The decimal form of `n`: nonempty, all digits, reading back as `n`.
proof fn lemma_dec(n: nat)
    ensures
        dec(n).len() >= 1,
        digits_of(dec(n)) == Some(n as int),
        forall|i: int| 0 <= i < dec(n).len() ==> digit_value(#[trigger] dec(n)[i]) is Some,
    decreases n,
{
    if n < 10 {
        lemma_digit_char(n as int);
        assert(dec(n).drop_last() =~= Seq::<char>::empty());
        assert(digits_of(Seq::<char>::empty()) == Some(0int));
        assert(dec(n).last() == digit_char(n as int));
        assert(digits_of(dec(n)) == Some(0int * 10 + n as int));
    } else {
        lemma_dec(n / 10);
        lemma_digit_char((n % 10) as int);
        assert(dec(n).drop_last() =~= dec(n / 10));
        assert(dec(n).last() == digit_char((n % 10) as int));
        assert((n / 10) * 10 + n % 10 == n) by (nonlinear_arith);
        assert(digits_of(dec(n)) == Some((n / 10) as int * 10 + (n % 10) as int));
        assert forall|i: int| 0 <= i < dec(n).len() implies digit_value(#[trigger] dec(n)[i]) is Some by {
            if i < dec(n).len() - 1 {
                assert(dec(n)[i] == dec(n / 10)[i]);
            }
        }
    }
}

/// No character of a decimal form is whitespace, `,`, `;` or `+`.
proof fn lemma_dec_chars(n: nat)
    ensures
        forall|i: int| 0 <= i < dec(n).len() ==> {
            &&& !is_ws(#[trigger] dec(n)[i])
            &&& dec(n)[i] != ','
            &&& dec(n)[i] != ';'
            &&& dec(n)[i] != '+'
        },
    decreases n,
{
    if n < 10 {
        lemma_digit_char(n as int);
    } else {
        lemma_dec_chars(n / 10);
        lemma_digit_char((n % 10) as int);
        assert forall|i: int| 0 <= i < dec(n).len() implies {
            &&& !is_ws(#[trigger] dec(n)[i])
            &&& dec(n)[i] != ','
            &&& dec(n)[i] != ';'
            &&& dec(n)[i] != '+'
        } by {
            if i < dec(n).len() - 1 {
                assert(dec(n)[i] == dec(n / 10)[i]);
            }
        }
    }
}

/// A token in decimal form reads back as its number.
proof fn lemma_parse_dec(n: usize)
    ensures
        parse_token(dec(n as nat)) == Some(n),
{
    let d = dec(n as nat);
    lemma_dec(n as nat);
    lemma_dec_chars(n as nat);
    assert(trim_start(d) == d);
    assert(trim_end(d) == d);
}

/// A row's text has no `;`; a nonempty row's text is nonempty.
proof fn lemma_row_text(r: Seq<usize>)
    ensures
        forall|i: int| 0 <= i < row_text(r).len() ==> #[trigger] row_text(r)[i] != ';',
        r.len() >= 1 ==> row_text(r).len() >= 1,
    decreases r.len(),
{
    if r.len() == 1 {
        lemma_dec_chars(r[0] as nat);
        lemma_dec(r[0] as nat);
    } else if r.len() > 1 {
        lemma_row_text(r.drop_last());
        lemma_dec_chars(r.last() as nat);
        lemma_dec(r.last() as nat);
    }
}

/// The `,`-pieces of a nonempty row's text are the decimal forms of its numbers.
proof fn lemma_split_row(r: Seq<usize>)
    requires
        r.len() >= 1,
    ensures
        split(row_text(r), ',') == Seq::new(r.len(), |i: int| dec(r[i] as nat)),
    decreases r.len(),
{
    if r.len() == 1 {
        lemma_dec_chars(r[0] as nat);
        lemma_split_whole(dec(r[0] as nat), ',');
        assert(split(row_text(r), ',') =~= Seq::new(r.len(), |i: int| dec(r[i] as nat)));
    } else {
        lemma_split_row(r.drop_last());
        lemma_dec_chars(r.last() as nat);
        lemma_split_whole(dec(r.last() as nat), ',');
        lemma_split_concat(row_text(r.drop_last()), dec(r.last() as nat), ',');
        assert(split(row_text(r), ',') =~= Seq::new(r.len(), |i: int| dec(r[i] as nat)));
    }
}

/// The numbers of a list of decimal forms are the list.
proof fn lemma_parse_all_dec(r: Seq<usize>)
    ensures
        parse_all(Seq::new(r.len(), |i: int| dec(r[i] as nat))) == r,
    decreases r.len(),
{
    if r.len() > 0 {
        let toks = Seq::new(r.len(), |i: int| dec(r[i] as nat));
        lemma_parse_all_dec(r.drop_last());
        assert(toks.drop_last() =~= Seq::new(r.drop_last().len(), |i: int| dec(r.drop_last()[i] as nat)));
        lemma_parse_dec(r.last());
        assert(r.drop_last().push(r.last()) =~= r);
    }
}

/// A row reads back from its text.
pub proof fn lemma_decode_row(r: Seq<usize>)
    ensures
        decode_row(row_text(r)) == r,
{
    if r.len() == 0 {
        assert(r =~= Seq::<usize>::empty());
    } else {
        lemma_row_text(r);
        lemma_split_row(r);
        lemma_parse_all_dec(r);
    }
}

/// The `;`-pieces of a nonempty chain's text are the texts of its rows.
proof fn lemma_split_chain(c: Seq<Seq<usize>>)
    requires
        c.len() >= 1,
    ensures
        split(chain_text(c), ';') == Seq::new(c.len(), |i: int| row_text(c[i])),
    decreases c.len(),
{
    if c.len() == 1 {
        lemma_row_text(c[0]);
        lemma_split_whole(row_text(c[0]), ';');
        assert(split(chain_text(c), ';') =~= Seq::new(c.len(), |i: int| row_text(c[i])));
    } else {
        lemma_split_chain(c.drop_last());
        lemma_row_text(c.last());
        lemma_split_whole(row_text(c.last()), ';');
        lemma_split_concat(chain_text(c.drop_last()), row_text(c.last()), ';');
        assert(split(chain_text(c), ';') =~= Seq::new(c.len(), |i: int| row_text(c[i])));
    }
}

/// Decoding undoes encoding: a chain with at least one row reads back from
/// its text form. (The empty chain encodes to the empty string, which
/// reads back as one empty row.)
pub proof fn lemma_decode_encode(c: Seq<Seq<usize>>)
    requires
        c.len() >= 1,
    ensures
        decode_spec(chain_text(c)) == c,
{
    lemma_split_chain(c);
    assert forall|i: int| 0 <= i < c.len() implies #[trigger] decode_spec(chain_text(c))[i] == c[i] by {
        lemma_decode_row(c[i]);
    }
    assert(decode_spec(chain_text(c)) =~= c);
}


/// A Bernoulli trial with success probability `numerator / denominator`,
/// drawn from the thread-local generator by `rand::Rng::gen_ratio`. The
/// outcome is random: only the two certain cases, which the function's
/// documentation guarantees, are stated.
#[verifier::external_body]
fn coin(numerator: u32, denominator: u32) -> (b: bool)
    requires
        0 < denominator,
        numerator <= denominator,
    ensures
        numerator == 0 ==> !b,
        numerator == denominator ==> b,
{
    rand::thread_rng().gen_ratio(numerator, denominator)
}

/// The positions `i + 1` with `p[i]` set, for `i < k`, in increasing order.
pub open spec fn snapshot_spec(p: Seq<bool>, k: int) -> Seq<usize>
    decreases k,
{
    if k <= 0 {
        Seq::empty()
    } else if p[k - 1] {
        snapshot_spec(p, k - 1).push(k as usize)
    } else {
        snapshot_spec(p, k - 1)
    }
}

/// A list of values in `1..=n`, strictly increasing.
pub open spec fn stratum_ok(row: Seq<usize>, n: int) -> bool {
    &&& forall|i: int| 0 <= i < row.len() ==> 1 <= #[trigger] row[i] <= n
    &&& forall|i: int, j: int| 0 <= i < j < row.len() ==> #[trigger] row[i] < #[trigger] row[j]
}

/// Membership in a snapshot, and its shape.
proof fn lemma_snapshot(p: Seq<bool>, k: int)
    requires
        0 <= k <= p.len(),
        k <= usize::MAX,
    ensures
        stratum_ok(snapshot_spec(p, k), k),
        forall|x: int| crate::generated::seq_has(snapshot_spec(p, k), x) <==> (1 <= x <= k && p[x - 1]),
    decreases k,
{
    if k > 0 {
        lemma_snapshot(p, k - 1);
        let prev = snapshot_spec(p, k - 1);
        let cur = snapshot_spec(p, k);
        assert forall|x: int| crate::generated::seq_has(cur, x) <==> (1 <= x <= k && p[x - 1]) by {
            let in_prev = crate::generated::seq_has(prev, x);
            assert(in_prev <==> (1 <= x <= k - 1 && p[x - 1]));
            if p[k - 1] {
                if crate::generated::seq_has(cur, x) {
                    let j = choose|j: int| 0 <= j < cur.len() && cur[j] == x;
                    if j < prev.len() {
                        assert(prev[j] == x);
                        assert(in_prev);
                    }
                }
                if 1 <= x <= k && p[x - 1] {
                    if x < k {
                        assert(in_prev);
                        let j = choose|j: int| 0 <= j < prev.len() && prev[j] == x;
                        assert(cur[j] == x);
                    } else {
                        assert(cur[prev.len() as int] == x);
                    }
                }
            } else {
                assert(cur == prev);
            }
        }
    }
}

/// The values `i + 1` with `present[i]` set.
fn snapshot(present: &Vec<bool>) -> (row: Vec<usize>)
    ensures
        row@ == snapshot_spec(present@, present@.len() as int),
{
    let mut row: Vec<usize> = Vec::new();
    let mut i: usize = 0;
    while i < present.len()
        invariant
            i <= present@.len(),
            row@ == snapshot_spec(present@, i as int),
        decreases present@.len() - i,
    {
        if present[i] {
            row.push(i + 1);
        }
        i = i + 1;
    }
    row
}

/// The draws as sequences.
pub open spec fn draws_view(grow: Seq<Vec<bool>>) -> Seq<Seq<bool>> {
    Seq::new(grow.len(), |i: int| grow[i]@)
}

/// Which of `1..=n` are in level `l ≥ 1`: the first draws for level 1; at
/// each later level `j` an element joins when its draw `grow[j − 2]` is set.
pub open spec fn level_present(first: Seq<bool>, grow: Seq<Seq<bool>>, l: int) -> Seq<bool>
    decreases l,
{
    if l <= 1 {
        first
    } else {
        let prev = level_present(first, grow, l - 1);
        Seq::new(first.len(), |k: int| prev[k] || grow[l - 2][k])
    }
}

/// The chain the draws give: `M_0 = ∅` and `M_l` the elements present at
/// level `l`, for `l ≤ lmax`.
pub open spec fn chain_from_draws(n: int, lmax: int, first: Seq<bool>, grow: Seq<Seq<bool>>) -> Seq<Seq<usize>> {
    Seq::new((lmax + 1) as nat, |l: int| if l == 0 { Seq::empty() } else { snapshot_spec(level_present(first, grow, l), n) })
}

/// The strata chain given by the draws: `first[k]` puts `k + 1` into `M_1`,
/// and `grow[l − 2][k]` puts it into `M_l` (it stays in every later level).
pub fn strata_from_draws(n: usize, lmax: usize, first: &Vec<bool>, grow: &Vec<Vec<bool>>) -> (chain: Vec<Vec<usize>>)
    requires
        lmax < usize::MAX,
        first@.len() == n,
        lmax <= grow@.len() + 1,
        forall|i: int| 0 <= i < grow@.len() ==> (#[trigger] grow@[i])@.len() == n,
    ensures
        rows_view(chain@) == chain_from_draws(n as int, lmax as int, first@, draws_view(grow@)),
{
    let ghost want = chain_from_draws(n as int, lmax as int, first@, draws_view(grow@));
    let mut chain: Vec<Vec<usize>> = Vec::new();
    chain.push(Vec::new());
    let mut present: Vec<bool> = Vec::new();
    let mut k: usize = 0;
    while k < n
        invariant
            k <= n,
            first@.len() == n,
            present@ == first@.subrange(0, k as int),
        decreases n - k,
    {
        present.push(first[k]);
        proof {
            assert(present@ =~= first@.subrange(0, k + 1));
        }
        k = k + 1;
    }
    proof {
        assert(present@ =~= first@);
        assert(rows_view(chain@) =~= want.subrange(0, 1));
    }
    let mut l: usize = 1;
    while l <= lmax
        invariant
            1 <= l <= lmax + 1,
            lmax < usize::MAX,
            first@.len() == n,
            lmax <= grow@.len() + 1,
            forall|i: int| 0 <= i < grow@.len() ==> (#[trigger] grow@[i])@.len() == n,
            want == chain_from_draws(n as int, lmax as int, first@, draws_view(grow@)),
            present@ == level_present(first@, draws_view(grow@), if l == 1 { 1 } else { l - 1 }),
            chain@.len() == l,
            rows_view(chain@) == want.subrange(0, l as int),
        decreases lmax + 1 - l,
    {
        if l >= 2 {
            let ghost before = present@;
            let row = &grow[l - 2];
            let mut q: usize = 0;
            while q < n
                invariant
                    q <= n,
                    present@.len() == n,
                    before.len() == n,
                    row@.len() == n,
                    forall|j: int| 0 <= j < q ==> #[trigger] present@[j] == (before[j] || row@[j]),
                    forall|j: int| q <= j < n ==> #[trigger] present@[j] == before[j],
                decreases n - q,
            {
                if row[q] && !present[q] {
                    present.set(q, true);
                }
                q = q + 1;
            }
            proof {
                assert(draws_view(grow@)[l - 2] == row@);
                assert(present@ =~= level_present(first@, draws_view(grow@), l as int));
            }
        }
        let next = snapshot(&present);
        let ghost r = next@;
        proof {
            assert(level_present(first@, draws_view(grow@), l as int).len() == n) by {
                lemma_level_len(first@, draws_view(grow@), l as int);
            }
            assert(r == want[l as int]);
        }
        chain.push(next);
        proof {
            assert(chain@[l as int]@ == r);
            assert(rows_view(chain@) =~= want.subrange(0, l + 1));
        }
        l = l + 1;
    }
    proof {
        assert(rows_view(chain@) =~= want);
    }
    chain
}

/// Every level has an entry per element.
proof fn lemma_level_len(first: Seq<bool>, grow: Seq<Seq<bool>>, l: int)
    ensures
        level_present(first, grow, l).len() == first.len(),
    decreases l,
{
    if l > 1 {
        lemma_level_len(first, grow, l - 1);
    }
}

/// The chain of any draws is a chain of strata: every level is a strictly
/// increasing list in `1..=n`, and each level lies in the next.
pub proof fn lemma_chain_from_draws(n: int, lmax: int, first: Seq<bool>, grow: Seq<Seq<bool>>)
    requires
        0 <= n <= usize::MAX,
        0 <= lmax,
        first.len() == n,
        forall|i: int| 0 <= i < grow.len() ==> (#[trigger] grow[i]).len() == n,
    ensures
        forall|l: int| 0 <= l <= lmax ==> stratum_ok(#[trigger] chain_from_draws(n, lmax, first, grow)[l], n),
        forall|l: int, x: int| 0 <= l < lmax && #[trigger] crate::generated::seq_has(chain_from_draws(n, lmax, first, grow)[l], x)
            ==> crate::generated::seq_has(chain_from_draws(n, lmax, first, grow)[l + 1], x),
{
    let c = chain_from_draws(n, lmax, first, grow);
    assert forall|l: int| 0 <= l <= lmax implies stratum_ok(#[trigger] c[l], n) by {
        if l > 0 {
            lemma_level_len(first, grow, l);
            lemma_snapshot(level_present(first, grow, l), n);
        }
    }
    assert forall|l: int, x: int| 0 <= l < lmax && #[trigger] crate::generated::seq_has(c[l], x)
        implies crate::generated::seq_has(c[l + 1], x) by {
        if l > 0 {
            lemma_level_len(first, grow, l);
            lemma_level_len(first, grow, l + 1);
            lemma_snapshot(level_present(first, grow, l), n);
            lemma_snapshot(level_present(first, grow, l + 1), n);
        } else {
            assert(c[0].len() == 0);
        }
    }
}

/// A random chain `M_0 ⊆ M_1 ⊆ … ⊆ M_lmax ⊆ {1, …, n}` with `M_0 = ∅`:
/// `M_1` takes each element with probability 2/5, and each later level
/// adds each missing element with probability 1/4. The draws are random;
/// the chain is the one [`strata_from_draws`] gives for some draws.
pub fn random_strata(n: usize, lmax: usize) -> (chain: Vec<Vec<usize>>)
    requires
        lmax < usize::MAX,
    ensures
        exists|first: Seq<bool>, grow: Seq<Seq<bool>>| {
            &&& first.len() == n
            &&& lmax <= grow.len() + 1
            &&& rows_view(chain@) == chain_from_draws(n as int, lmax as int, first, grow)
        },
{
    let mut first: Vec<bool> = Vec::new();
    let mut i: usize = 0;
    while i < n
        invariant
            i <= n,
            first@.len() == i,
        decreases n - i,
    {
        first.push(coin(2, 5));
        i = i + 1;
    }
    let mut grow: Vec<Vec<bool>> = Vec::new();
    let mut l: usize = 2;
    while l <= lmax
        invariant
            2 <= l <= lmax + 1 || (lmax < 2 && l == 2),
            lmax < usize::MAX,
            grow@.len() == l - 2,
            forall|j: int| 0 <= j < grow@.len() ==> (#[trigger] grow@[j])@.len() == n,
        decreases lmax + 1 - l,
    {
        let mut row: Vec<bool> = Vec::new();
        let mut k: usize = 0;
        while k < n
            invariant
                k <= n,
                row@.len() == k,
            decreases n - k,
        {
            row.push(coin(1, 4));
            k = k + 1;
        }
        grow.push(row);
        l = l + 1;
    }
    let chain = strata_from_draws(n, lmax, &first, &grow);
    proof {
        assert(lmax <= draws_view(grow@).len() + 1);
    }
    chain
}


/// The first index `≥ k` whose entry is at least `v` (the length if none):
/// where a search of a sorted row for `v` lands.
pub open spec fn lower_bound(row: Seq<usize>, v: int, k: int) -> int
    decreases row.len() - k,
{
    if k >= row.len() || k < 0 || row[k] >= v {
        if k < 0 { 0 } else { k }
    } else {
        lower_bound(row, v, k + 1)
    }
}

/// `v` is found in the row by a search of a sorted row.
pub open spec fn row_has(row: Seq<usize>, v: int) -> bool {
    let p = lower_bound(row, v, 0);
    p < row.len() && row[p] == v
}

/// The row with the found `v` taken out, or unchanged.
pub open spec fn row_without(row: Seq<usize>, v: int) -> Seq<usize> {
    let p = lower_bound(row, v, 0);
    if row_has(row, v) { row.subrange(0, p) + row.subrange(p + 1, row.len() as int) } else { row }
}

/// The row with `v` put in its sorted place, or unchanged when found.
pub open spec fn row_with(row: Seq<usize>, v: usize) -> Seq<usize> {
    let p = lower_bound(row, v as int, 0);
    if row_has(row, v as int) { row } else { row.subrange(0, p).push(v) + row.subrange(p, row.len() as int) }
}

/// Toggling `v` at level `l` of a chain: when `v` is in `M_l` it leaves
/// every level `1..=l`; otherwise it joins every level `l..`. Level 0,
/// levels out of range and `v = 0` leave the chain unchanged.
pub open spec fn toggle_chain(c: Seq<Seq<usize>>, l: int, v: usize) -> Seq<Seq<usize>> {
    if l == 0 || l >= c.len() || v == 0 {
        c
    } else if row_has(c[l], v as int) {
        Seq::new(c.len(), |k: int| if 1 <= k <= l { row_without(c[k], v as int) } else { c[k] })
    } else {
        Seq::new(c.len(), |k: int| if k >= l { row_with(c[k], v) } else { c[k] })
    }
}

/// `lower_bound` stays in range, and the entries it passes are below `v`.
proof fn lemma_lower_bound(row: Seq<usize>, v: int, k: int)
    requires
        0 <= k <= row.len(),
    ensures
        k <= lower_bound(row, v, k) <= row.len(),
    decreases row.len() - k,
{
    if k < row.len() && row[k] < v {
        lemma_lower_bound(row, v, k + 1);
    }
}

/// Where a search of a sorted `row` for `v` lands.
fn lower_bound_exec(row: &Vec<usize>, v: usize) -> (p: usize)
    ensures
        p == lower_bound(row@, v as int, 0),
        p <= row@.len(),
{
    proof {
        lemma_lower_bound(row@, v as int, 0);
    }
    let mut k: usize = 0;
    while k < row.len() && row[k] < v
        invariant
            k <= row@.len(),
            lower_bound(row@, v as int, k as int) == lower_bound(row@, v as int, 0),
        decreases row@.len() - k,
    {
        k = k + 1;
    }
    k
}

/// A copy of a row.
fn copy_row(row: &Vec<usize>) -> (r: Vec<usize>)
    ensures
        r@ == row@,
{
    let mut out: Vec<usize> = Vec::new();
    let mut j: usize = 0;
    while j < row.len()
        invariant
            j <= row@.len(),
            out@ == row@.subrange(0, j as int),
        decreases row@.len() - j,
    {
        out.push(row[j]);
        proof {
            assert(out@ =~= row@.subrange(0, j + 1));
        }
        j = j + 1;
    }
    proof {
        assert(out@ =~= row@);
    }
    out
}

/// The row with the found `v` taken out, or with `v` put in (`add`).
fn edit_row(row: &Vec<usize>, v: usize, add: bool) -> (r: Vec<usize>)
    ensures
        r@ == (if add { row_with(row@, v) } else { row_without(row@, v as int) }),
{
    let p = lower_bound_exec(row, v);
    let found = p < row.len() && row[p] == v;
    let mut out: Vec<usize> = Vec::new();
    let mut k: usize = 0;
    while k < p
        invariant
            p <= row@.len(),
            k <= p,
            out@ == row@.subrange(0, k as int),
        decreases p - k,
    {
        out.push(row[k]);
        proof {
            assert(out@ =~= row@.subrange(0, k + 1));
        }
        k = k + 1;
    }
    let ghost head = out@;
    let mut start = p;
    if found {
        if !add {
            start = p + 1;
        }
    } else if add {
        out.push(v);
    }
    let ghost mid = out@;
    let mut k: usize = start;
    while k < row.len()
        invariant
            start <= k <= row@.len(),
            out@ == mid + row@.subrange(start as int, k as int),
        decreases row@.len() - k,
    {
        out.push(row[k]);
        proof {
            assert(out@ =~= mid + row@.subrange(start as int, k + 1));
        }
        k = k + 1;
    }
    proof {
        assert(head == row@.subrange(0, p as int));
        if found {
            assert(row@ =~= row@.subrange(0, p as int) + row@.subrange(p as int, row@.len() as int));
        }
        assert(out@ =~= (if add { row_with(row@, v) } else { row_without(row@, v as int) }));
    }
    out
}

/// Toggles `v` at level `l` of a chain (see [`toggle_chain`]).
pub fn strata_toggle(chain: &Vec<Vec<usize>>, l: usize, v: usize) -> (c: Vec<Vec<usize>>)
    ensures
        rows_view(c@) == toggle_chain(rows_view(chain@), l as int, v),
{
    let n = chain.len();
    let active = !(l == 0 || l >= n || v == 0);
    let inside = if active {
        let lb = lower_bound_exec(&chain[l], v);
        lb < chain[l].len() && chain[l][lb] == v
    } else {
        false
    };
    let ghost want = toggle_chain(rows_view(chain@), l as int, v);
    let mut out: Vec<Vec<usize>> = Vec::new();
    let mut k: usize = 0;
    while k < n
        invariant
            n == chain@.len(),
            active == !(l == 0 || l >= n || v == 0),
            k <= n,
            active ==> inside == row_has(chain@[l as int]@, v as int),
            want == toggle_chain(rows_view(chain@), l as int, v),
            rows_view(out@) == want.subrange(0, k as int),
            out@.len() == k,
        decreases n - k,
    {
        let edit = active && if inside { 1 <= k && k <= l } else { k >= l };
        let row = if edit {
            edit_row(&chain[k], v, !inside)
        } else {
            copy_row(&chain[k])
        };
        let ghost r = row@;
        proof {
            assert(r == want[k as int]);
        }
        out.push(row);
        proof {
            assert(out@[k as int]@ == r);
            assert(rows_view(out@) =~= want.subrange(0, k + 1));
        }
        k = k + 1;
    }
    proof {
        assert(rows_view(out@) =~= want);
    }
    out
}

/// [`strata_toggle`] on the text form of a chain.
pub fn js_strata_toggle(chain_str: &str, l: usize, v: usize) -> (s: String)
    ensures
        s@ == chain_text(toggle_chain(decode_spec(chain_str@), l as int, v)),
{
    let chain = decode_chain(chain_str);
    let toggled = strata_toggle(&chain, l, v);
    proof {
        assert(rows_view(toggled@) == toggle_chain(decode_spec(chain_str@), l as int, v));
    }
    encode_chain(toggled.as_slice())
}

} // verus!
