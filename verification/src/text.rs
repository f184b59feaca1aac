//! Decimal text of integers and the line-oriented layout shared by the
//! generated input files: integers separated by spaces, one row per line.
use vstd::prelude::*;
use vstd::string::StringExecFns;
use crate::strata::{dec, digit_char, digit_str};

verus! {

/// The decimal form of an integer, with a leading `-` when it is negative.
pub open spec fn int_text(v: int) -> Seq<char> {
    if v < 0 {
        seq!['-'] + dec((-v) as nat)
    } else {
        dec(v as nat)
    }
}

/// Integers in decimal, separated by single spaces.
pub open spec fn spaced(r: Seq<i64>) -> Seq<char>
    decreases r.len(),
{
    if r.len() == 0 {
        Seq::empty()
    } else if r.len() == 1 {
        int_text(r[0] as int)
    } else {
        spaced(r.drop_last()) + seq![' '] + int_text(r.last() as int)
    }
}

/// Rows of integers, each row spaced and followed by a newline.
pub open spec fn lines(rows: Seq<Seq<i64>>) -> Seq<char>
    decreases rows.len(),
{
    if rows.len() == 0 {
        Seq::empty()
    } else {
        lines(rows.drop_last()) + spaced(rows.last()) + seq!['\n']
    }
}

/// Appends the decimal form of `n`.
pub fn push_u64(out: &mut String, n: u64)
    ensures
        final(out)@ == old(out)@ + dec(n as nat),
    decreases n,
{
    if n >= 10 {
        push_u64(out, n / 10);
    }
    let d: u64 = n % 10;
    out.append(digit_str(d as usize));
    proof {
        if n >= 10 {
            assert(old(out)@ + dec(n as nat) == old(out)@ + dec((n / 10) as nat) + seq![digit_char((n % 10) as int)]);
        }
    }
}

/// Appends the decimal form of `v`, with a `-` when it is negative.
pub fn push_int(out: &mut String, v: i64)
    ensures
        final(out)@ == old(out)@ + int_text(v as int),
{
    if v < 0 {
        out.append("-");
        proof {
            reveal_strlit("-");
        }
        let plus: i64 = -(v + 1);
        let u: u64 = (plus as u64) + 1;
        push_u64(out, u);
        proof {
            assert(old(out)@ + int_text(v as int) =~= old(out)@ + seq!['-'] + dec(u as nat));
        }
    } else {
        push_u64(out, v as u64);
    }
}

/// Appends a row of integers separated by single spaces.
pub fn push_spaced(out: &mut String, r: &[i64])
    ensures
        final(out)@ == old(out)@ + spaced(r@),
{
    let ghost start = out@;
    let mut i: usize = 0;
    proof {
        assert(spaced(r@.subrange(0, 0)) == Seq::<char>::empty());
        assert(out@ =~= start + spaced(r@.subrange(0, 0)));
    }
    while i < r.len()
        invariant
            i <= r@.len(),
            out@ == start + spaced(r@.subrange(0, i as int)),
        decreases r@.len() - i,
    {
        let ghost before = out@;
        if i > 0 {
            out.append(" ");
        }
        push_int(out, r[i]);
        proof {
            reveal_strlit(" ");
            let s = r@.subrange(0, i + 1);
            assert(s.drop_last() =~= r@.subrange(0, i as int));
            assert(s.last() == r@[i as int]);
            if i == 0 {
                assert(spaced(s) == int_text(r@[0] as int));
                assert(out@ =~= start + spaced(s));
            } else {
                assert(spaced(s) == spaced(s.drop_last()) + seq![' '] + int_text(s.last() as int));
                assert(out@ =~= start + spaced(s));
            }
        }
        i = i + 1;
    }
    proof {
        assert(r@.subrange(0, r@.len() as int) =~= r@);
    }
}

/// The views of rows held in vectors.
pub open spec fn rows_of_vecs(rows: Seq<Vec<i64>>) -> Seq<Seq<i64>> {
    Seq::new(rows.len(), |i: int| rows[i]@)
}

/// Appends rows of integers, each spaced and followed by a newline.
pub fn push_lines(out: &mut String, rows: &Vec<Vec<i64>>)
    ensures
        final(out)@ == old(out)@ + lines(rows_of_vecs(rows@)),
{
    let ghost start = out@;
    let mut i: usize = 0;
    proof {
        assert(rows_of_vecs(rows@).subrange(0, 0).len() == 0);
        assert(out@ =~= start + lines(rows_of_vecs(rows@).subrange(0, 0)));
    }
    while i < rows.len()
        invariant
            i <= rows@.len(),
            out@ == start + lines(rows_of_vecs(rows@).subrange(0, i as int)),
        decreases rows@.len() - i,
    {
        push_spaced(out, rows[i].as_slice());
        out.append("\n");
        proof {
            reveal_strlit("\n");
            let s = rows_of_vecs(rows@).subrange(0, i + 1);
            assert(s.drop_last() =~= rows_of_vecs(rows@).subrange(0, i as int));
            assert(s.last() == rows@[i as int]@);
            assert(out@ =~= start + lines(s));
        }
        i = i + 1;
    }
    proof {
        assert(rows_of_vecs(rows@).subrange(0, rows@.len() as int) =~= rows_of_vecs(rows@));
    }
}

/// Appends the decimal form of `n`.
pub fn push_usize(out: &mut String, n: usize)
    ensures
        final(out)@ == old(out)@ + dec(n as nat),
{
    push_u64(out, n as u64);
}

/// Naturals in decimal, separated by single spaces.
pub open spec fn spaced_nat(r: Seq<usize>) -> Seq<char>
    decreases r.len(),
{
    if r.len() == 0 {
        Seq::empty()
    } else if r.len() == 1 {
        dec(r[0] as nat)
    } else {
        spaced_nat(r.drop_last()) + seq![' '] + dec(r.last() as nat)
    }
}

/// Appends naturals separated by single spaces.
pub fn push_spaced_nat(out: &mut String, r: &Vec<usize>)
    ensures
        final(out)@ == old(out)@ + spaced_nat(r@),
{
    let ghost start = out@;
    let mut i: usize = 0;
    proof {
        assert(spaced_nat(r@.subrange(0, 0)) == Seq::<char>::empty());
        assert(out@ =~= start + spaced_nat(r@.subrange(0, 0)));
    }
    while i < r.len()
        invariant
            i <= r@.len(),
            out@ == start + spaced_nat(r@.subrange(0, i as int)),
        decreases r@.len() - i,
    {
        if i > 0 {
            out.append(" ");
        }
        push_usize(out, r[i]);
        proof {
            reveal_strlit(" ");
            let s = r@.subrange(0, i + 1);
            assert(s.drop_last() =~= r@.subrange(0, i as int));
            assert(s.last() == r@[i as int]);
            if i == 0 {
                assert(spaced_nat(s) == dec(r@[0] as nat));
            } else {
                assert(spaced_nat(s) == spaced_nat(s.drop_last()) + seq![' '] + dec(s.last() as nat));
            }
            assert(out@ =~= start + spaced_nat(s));
        }
        i = i + 1;
    }
    proof {
        assert(r@.subrange(0, r@.len() as int) =~= r@);
    }
}

/// `true` or `false`.
pub open spec fn bool_text(b: bool) -> Seq<char> {
    if b { "true"@ } else { "false"@ }
}

/// Appends `true` or `false`.
pub fn push_bool(out: &mut String, b: bool)
    ensures
        final(out)@ == old(out)@ + bool_text(b),
{
    if b {
        out.append("true");
    } else {
        out.append("false");
    }
}

} // verus!
