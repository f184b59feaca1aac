//! A script for the computer algebra system GAP (package NumericalSgps)
//! that recomputes the invariants of semigroups and asserts that they agree
//! with the ones computed here.
use vstd::prelude::*;
use vstd::string::StringExecFns;
use crate::generated::filter_upto;
use crate::inspect::pf_blob_pred;
use crate::semigroup::Semigroup;
use crate::strata::dec;
use crate::text::push_usize;

verus! {

/// Naturals in decimal, separated by `sep`.
pub open spec fn joined(v: Seq<usize>, sep: Seq<char>) -> Seq<char>
    decreases v.len(),
{
    if v.len() == 0 {
        Seq::empty()
    } else if v.len() == 1 {
        dec(v[0] as nat)
    } else {
        joined(v.drop_last(), sep) + sep + dec(v.last() as nat)
    }
}

/// Appends naturals separated by `sep`.
pub(crate) fn push_joined(out: &mut String, v: &Vec<usize>, sep: &str)
    ensures
        final(out)@ == old(out)@ + joined(v@, sep@),
{
    let ghost start = out@;
    let mut i: usize = 0;
    proof {
        assert(joined(v@.subrange(0, 0), sep@) == Seq::<char>::empty());
        assert(out@ =~= start + joined(v@.subrange(0, 0), sep@));
    }
    while i < v.len()
        invariant
            i <= v@.len(),
            out@ == start + joined(v@.subrange(0, i as int), sep@),
        decreases v@.len() - i,
    {
        if i > 0 {
            out.append(sep);
        }
        push_usize(out, v[i]);
        proof {
            let s = v@.subrange(0, i + 1);
            assert(s.drop_last() =~= v@.subrange(0, i as int));
            assert(s.last() == v@[i as int]);
            assert(out@ =~= start + joined(s, sep@));
        }
        i = i + 1;
    }
    proof {
        assert(v@.subrange(0, v@.len() as int) =~= v@);
    }
}

/// The pseudo-Frobenius numbers as [`Semigroup::pft`] lists them.
pub open spec fn pft_list(s: Semigroup) -> Seq<usize> {
    filter_upto(pf_blob_pred(s), s.f as int).push(s.f)
}

/// `Assert(0, Name(ngI) = value);`
pub open spec fn assert_line(name: Seq<char>, idx: nat, value: Seq<char>) -> Seq<char> {
    "Assert(0, "@ + name + "(ng"@ + dec(idx) + ") = "@ + value + ");\n"@
}

/// The GAP assertions for one semigroup, bound to the variable `ng{idx}`:
/// multiplicity, Frobenius number, embedding dimension, genus, the number
/// of elements up to `f`, symmetry, Apéry list, pseudo-Frobenius numbers
/// and type.
#[verifier::opaque]
pub open spec fn gap_block_text(s: Semigroup, idx: nat) -> Seq<char> {
    let pf = pft_list(s);
    "# \u{2500}\u{2500} Semigroup "@ + dec(idx) + ": <"@ + joined(s.gen_set@, ", "@) + "> \u{2500}\u{2500}\n"@
        + "ng"@ + dec(idx) + " := NumericalSemigroup("@ + joined(s.gen_set@, ","@) + ");\n"@
        + assert_line("Multiplicity"@, idx, dec(s.m as nat))
        + assert_line("FrobeniusNumber"@, idx, dec(s.f as nat))
        + assert_line("EmbeddingDimension"@, idx, dec(s.e as nat))
        + assert_line("GenusOfNumericalSemigroup"@, idx, dec(s.g as nat))
        + "Assert(0, 1 + FrobeniusNumber(ng"@ + dec(idx) + ") - GenusOfNumericalSemigroup(ng"@ + dec(idx) + ") = "@
            + dec(s.sigma as nat) + ");\n"@
        + assert_line("IsSymmetric"@, idx, if s.g == s.sigma { "true"@ } else { "false"@ })
        + "Assert(0, AperyList(ng"@ + dec(idx) + ", "@ + dec(s.m as nat) + ") = ["@ + joined(s.apery_set@, ","@) + "]);\n"@
        + "Assert(0, Set(PseudoFrobeniusOfNumericalSemigroup(ng"@ + dec(idx) + ")) = Set(["@ + joined(pf, ","@) + "]));\n"@
        + assert_line("TypeOfNumericalSemigroup"@, idx, dec(pf.len()))
        + "\n"@
}

/// Appends `Assert(0, Name(ngI) = value);` for a number.
fn push_assert_num(out: &mut String, name: &str, idx: usize, value: usize)
    ensures
        final(out)@ == old(out)@ + assert_line(name@, idx as nat, dec(value as nat)),
{
    out.append("Assert(0, ");
    out.append(name);
    out.append("(ng");
    push_usize(out, idx);
    out.append(") = ");
    push_usize(out, value);
    out.append(");\n");
    proof {
        assert(final(out)@ =~= old(out)@ + assert_line(name@, idx as nat, dec(value as nat)));
    }
}

/// The GAP assertions for one semigroup, bound to the variable `ng{idx}`.
pub fn gap_block(sg: &Semigroup, idx: usize) -> (text: String)
    requires
        sg.wf(),
    ensures
        text@ == gap_block_text(*sg, idx as nat),
{
    let ((pf, t), _) = sg.pft();
    let mut out = String::new();
    out.append("# \u{2500}\u{2500} Semigroup ");
    push_usize(&mut out, idx);
    out.append(": <");
    push_joined(&mut out, &sg.gen_set, ", ");
    out.append("> \u{2500}\u{2500}\n");
    out.append("ng");
    push_usize(&mut out, idx);
    out.append(" := NumericalSemigroup(");
    push_joined(&mut out, &sg.gen_set, ",");
    out.append(");\n");
    let ghost head = out@;
    push_assert_num(&mut out, "Multiplicity", idx, sg.m);
    push_assert_num(&mut out, "FrobeniusNumber", idx, sg.f);
    push_assert_num(&mut out, "EmbeddingDimension", idx, sg.e);
    push_assert_num(&mut out, "GenusOfNumericalSemigroup", idx, sg.g);
    out.append("Assert(0, 1 + FrobeniusNumber(ng");
    push_usize(&mut out, idx);
    out.append(") - GenusOfNumericalSemigroup(ng");
    push_usize(&mut out, idx);
    out.append(") = ");
    push_usize(&mut out, sg.sigma);
    out.append(");\n");
    let ghost mid = out@;
    out.append("Assert(0, ");
    out.append("IsSymmetric");
    out.append("(ng");
    push_usize(&mut out, idx);
    out.append(") = ");
    if sg.is_symmetric() {
        out.append("true");
    } else {
        out.append("false");
    }
    out.append(");\n");
    proof {
        assert(out@ =~= mid + assert_line("IsSymmetric"@, idx as nat, if sg.g == sg.sigma { "true"@ } else { "false"@ }));
    }
    out.append("Assert(0, AperyList(ng");
    push_usize(&mut out, idx);
    out.append(", ");
    push_usize(&mut out, sg.m);
    out.append(") = [");
    push_joined(&mut out, &sg.apery_set, ",");
    out.append("]);\n");
    out.append("Assert(0, Set(PseudoFrobeniusOfNumericalSemigroup(ng");
    push_usize(&mut out, idx);
    out.append(")) = Set([");
    push_joined(&mut out, &pf, ",");
    out.append("]));\n");
    push_assert_num(&mut out, "TypeOfNumericalSemigroup", idx, t);
    out.append("\n");
    proof {
        reveal(gap_block_text);
        assert(out@ =~= gap_block_text(*sg, idx as nat));
    }
    out
}

/// The preamble of a GAP script.
pub open spec fn gap_preamble() -> Seq<char> {
    "# Generated by f3m \u{2014} paste into GAP or run with 'gap <file>'\n"@
        + "# Requires: LoadPackage(\"NumericalSgps\");\n\n"@ + "LoadPackage(\"NumericalSgps\");;\n\n"@
}

/// The blocks of the first `k` semigroups, numbered from 1.
pub open spec fn gap_blocks(sgs: Seq<Semigroup>, k: int) -> Seq<char>
    decreases k,
{
    if k <= 0 {
        Seq::empty()
    } else {
        gap_blocks(sgs, k - 1) + gap_block_text(sgs[k - 1], k as nat)
    }
}

/// A GAP script that loads NumericalSgps, asserts the invariants of each
/// semigroup (numbered from 1) and finally prints that all assertions passed.
pub fn to_gap(semigroups: &[Semigroup]) -> (text: String)
    requires
        semigroups@.len() < usize::MAX,
        forall|i: int| 0 <= i < semigroups@.len() ==> (#[trigger] semigroups@[i]).wf(),
    ensures
        text@ == gap_preamble() + gap_blocks(semigroups@, semigroups@.len() as int)
            + "Print(\"All assertions passed.\\n\");\n"@,
{
    let mut out = String::new();
    out.append("# Generated by f3m \u{2014} paste into GAP or run with 'gap <file>'\n");
    out.append("# Requires: LoadPackage(\"NumericalSgps\");\n\n");
    out.append("LoadPackage(\"NumericalSgps\");;\n\n");
    let ghost start = out@;
    let mut i: usize = 0;
    while i < semigroups.len()
        invariant
            semigroups@.len() < usize::MAX,
            forall|j: int| 0 <= j < semigroups@.len() ==> (#[trigger] semigroups@[j]).wf(),
            i <= semigroups@.len(),
            out@ == start + gap_blocks(semigroups@, i as int),
        decreases semigroups@.len() - i,
    {
        let block = gap_block(&semigroups[i], i + 1);
        out.append(block.as_str());
        proof {
            assert(out@ =~= start + gap_blocks(semigroups@, i + 1));
        }
        i = i + 1;
    }
    out.append("Print(\"All assertions passed.\\n\");\n");
    proof {
        assert(out@ =~= gap_preamble() + gap_blocks(semigroups@, semigroups@.len() as int)
            + "Print(\"All assertions passed.\\n\");\n"@);
    }
    out
}


/// The preamble of a GAP script: a comment and the package load.
pub fn gap_header() -> (text: String)
    ensures
        text@ == gap_preamble(),
{
    let mut out = String::new();
    out.append("# Generated by f3m \u{2014} paste into GAP or run with 'gap <file>'\n");
    out.append("# Requires: LoadPackage(\"NumericalSgps\");\n\n");
    out.append("LoadPackage(\"NumericalSgps\");;\n\n");
    out
}

/// The last line of a GAP script: the report that every assertion passed.
pub fn gap_footer() -> (text: String)
    ensures
        text@ == "Print(\"All assertions passed.\\n\");\n"@,
{
    let mut out = String::new();
    out.append("Print(\"All assertions passed.\\n\");\n");
    out
}

} // verus!
