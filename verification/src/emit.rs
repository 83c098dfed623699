//! The QDIMACS emitter: serializing a formula back to text, building the
//! assumption-enriched sub-formulas, and the filename conventions of the
//! downstream harness.

use crate::nums::{dec_str, iabs, int_str, ints, u64_to_string};
use crate::types::Formula;
use vstd::prelude::*;

verus! {

/// Do two prefix entries carry the same quantifier?
pub open spec fn same_sign(a: int, b: int) -> bool {
    (a > 0) == (b > 0)
}

/// The prefix regrouped into maximal runs of one quantifier: a new block
/// starts exactly where the sign changes.
pub open spec fn blocks_of(prefix: Seq<int>) -> Seq<Seq<int>>
    decreases prefix.len(),
{
    if prefix.len() == 0 {
        Seq::empty()
    } else {
        let b = blocks_of(prefix.drop_last());
        if b.len() > 0 && same_sign(b.last().last(), prefix.last()) {
            b.update(b.len() - 1, b.last().push(prefix.last()))
        } else {
            b.push(seq![prefix.last()])
        }
    }
}

/// The blocks, concatenated back in order.
pub open spec fn blocks_concat(bs: Seq<Seq<int>>) -> Seq<int>
    decreases bs.len(),
{
    if bs.len() == 0 {
        Seq::empty()
    } else {
        blocks_concat(bs.drop_last()) + bs.last()
    }
}

/// The quantifier letter of a block whose first entry is `e`.
pub open spec fn quant_str(e: int) -> Seq<char> {
    if e < 0 {
        "e"@
    } else {
        "a"@
    }
}

/// The variables of a block, each preceded by one space.
pub open spec fn nums_text(b: Seq<int>) -> Seq<char>
    decreases b.len(),
{
    if b.len() == 0 {
        Seq::empty()
    } else {
        nums_text(b.drop_last()) + " "@ + dec_str(iabs(b.last()) as nat)
    }
}

proof fn lemma_nums_text_single(e: int)
    ensures
        nums_text(seq![e]) =~= " "@ + dec_str(iabs(e) as nat),
{
    assert(seq![e].drop_last() =~= Seq::<int>::empty());
    assert(nums_text(Seq::<int>::empty()) =~= Seq::<char>::empty());
    assert(seq![e].last() == e);
    assert(nums_text(seq![e]) =~= Seq::<char>::empty() + " "@ + dec_str(iabs(e) as nat));
}

/// One serialized quantifier line, terminator included.
pub open spec fn block_line(b: Seq<int>) -> Seq<char> {
    quant_str(b[0]) + nums_text(b) + " 0\n"@
}

/// All serialized quantifier lines.
pub open spec fn prefix_lines(bs: Seq<Seq<int>>) -> Seq<char>
    decreases bs.len(),
{
    if bs.len() == 0 {
        Seq::empty()
    } else {
        prefix_lines(bs.drop_last()) + block_line(bs.last())
    }
}

/// One serialized clause: each literal followed by one space, then the
/// terminating zero.
pub open spec fn clause_text(c: Seq<int>) -> Seq<char>
    decreases c.len(),
{
    if c.len() == 0 {
        "0\n"@
    } else {
        int_str(c[0]) + " "@ + clause_text(c.drop_first())
    }
}

/// All serialized clauses.
pub open spec fn matrix_text(m: Seq<Seq<int>>) -> Seq<char>
    decreases m.len(),
{
    if m.len() == 0 {
        Seq::empty()
    } else {
        matrix_text(m.drop_last()) + clause_text(m.last())
    }
}

/// The serialized header line.
pub open spec fn header_text(nr_of_variables: int, nr_of_clauses: int) -> Seq<char> {
    "p cnf "@ + dec_str(nr_of_variables as nat) + " "@ + dec_str(nr_of_clauses as nat) + "\n"@
}

/// The full QDIMACS serialization of a formula: the header, one line per
/// maximal quantifier block, then the clauses, literal order preserved.
pub open spec fn spec_qdimacs(f: crate::types::FormulaModel) -> Seq<char> {
    header_text(f.nr_of_variables, f.nr_of_clauses) + prefix_lines(blocks_of(f.prefix))
        + matrix_text(f.matrix)
}

/// The emitter regroups the prefix into exactly one line per maximal
/// quantifier block: the blocks concatenate back to the prefix, each is a
/// non-empty single-quantifier run, and two adjacent variables of the same
/// quantifier never start a new block, since adjacent blocks alternate.
pub proof fn lemma_prefix_regrouping(prefix: Seq<int>)
    requires
        forall|i: int| 0 <= i < prefix.len() ==> #[trigger] prefix[i] != 0,
    ensures
        blocks_concat(blocks_of(prefix)) =~= prefix,
        forall|k: int| 0 <= k < blocks_of(prefix).len() ==> (#[trigger] blocks_of(prefix)[k]).len()
            >= 1,
        forall|k: int, j: int|
            #![trigger blocks_of(prefix)[k][j]]
            0 <= k < blocks_of(prefix).len() && 0 <= j < blocks_of(prefix)[k].len() ==> same_sign(
                blocks_of(prefix)[k][j],
                blocks_of(prefix)[k][0],
            ),
        forall|k: int|
            0 <= k < blocks_of(prefix).len() - 1 ==> !same_sign(
                (#[trigger] blocks_of(prefix)[k])[0],
                blocks_of(prefix)[k + 1][0],
            ),
        prefix.len() > 0 ==> blocks_of(prefix).len() >= 1,
    decreases prefix.len(),
{
    if prefix.len() > 0 {
        let pre = prefix.drop_last();
        let e = prefix.last();
        lemma_prefix_regrouping(pre);
        let b = blocks_of(pre);
        let bs = blocks_of(prefix);
        if b.len() > 0 && same_sign(b.last().last(), e) {
            assert(bs == b.update(b.len() - 1, b.last().push(e)));
            assert(bs.drop_last() =~= b.drop_last());
            assert(bs.last() == b.last().push(e));
            assert(blocks_concat(bs) =~= blocks_concat(b.drop_last()) + b.last().push(e));
            assert(blocks_concat(b) =~= blocks_concat(b.drop_last()) + b.last());
            assert(blocks_concat(bs) =~= blocks_concat(b) + seq![e]);
            assert(blocks_concat(bs) =~= prefix);
            assert(b.last() == b[b.len() - 1]);
            assert(b.last().len() >= 1);
            assert forall|k: int, j: int|
                #![trigger bs[k][j]]
                0 <= k < bs.len() && 0 <= j < bs[k].len() implies same_sign(bs[k][j], bs[k][0]) by {
                if k < bs.len() - 1 {
                    assert(bs[k] == b[k]);
                    assert(b[k][j] == bs[k][j]);
                } else {
                    assert(bs[k] == b.last().push(e));
                    if j < bs[k].len() - 1 {
                        assert(bs[k][j] == b.last()[j]);
                        assert(same_sign(b.last()[j], b.last()[0]));
                        assert(bs[k][0] == b.last()[0]);
                    } else {
                        assert(bs[k][j] == e);
                        assert(b.last()[b.last().len() - 1] == b.last().last());
                        assert(same_sign(b.last().last(), b.last()[0]));
                        assert(bs[k][0] == b.last()[0]);
                    }
                }
            }
            assert forall|k: int| 0 <= k < bs.len() - 1 implies !same_sign(
                (#[trigger] bs[k])[0],
                bs[k + 1][0],
            ) by {
                assert(bs[k] == b[k]);
                if k + 1 < bs.len() - 1 {
                    assert(bs[k + 1] == b[k + 1]);
                } else {
                    assert(bs[k + 1] == b.last().push(e));
                    assert(bs[k + 1][0] == b.last()[0]);
                    assert(b[k + 1] == b.last());
                }
            }
        } else {
            assert(bs == b.push(seq![e]));
            assert(bs.drop_last() =~= b);
            assert(bs.last() == seq![e]);
            assert(blocks_concat(bs) =~= blocks_concat(b) + seq![e]);
            assert(blocks_concat(bs) =~= prefix);
            assert forall|k: int, j: int|
                #![trigger bs[k][j]]
                0 <= k < bs.len() && 0 <= j < bs[k].len() implies same_sign(bs[k][j], bs[k][0]) by {
                if k < bs.len() - 1 {
                    assert(bs[k] == b[k]);
                } else {
                    assert(bs[k] == seq![e]);
                }
            }
            assert forall|k: int| 0 <= k < bs.len() - 1 implies !same_sign(
                (#[trigger] bs[k])[0],
                bs[k + 1][0],
            ) by {
                assert(bs[k] == b[k]);
                if k + 1 < bs.len() - 1 {
                    assert(bs[k + 1] == b[k + 1]);
                } else {
                    assert(bs[k + 1] == seq![e]);
                    if b.len() > 0 {
                        assert(b[k] == b.last() || k < b.len() - 1);
                        if k == b.len() - 1 {
                            // the new block starts because the sign changed
                            assert(!same_sign(b.last().last(), e));
                            assert(same_sign(b.last().last(), b.last()[0]));
                            assert(!same_sign(b.last()[0], e));
                        }
                    }
                }
            }
        }
    }
}

/// Serializes the formula as QDIMACS text: the header, the prefix
/// regrouped into alternating quantifier lines, then each clause with its
/// literals in order.
#[verifier::rlimit(100)]
pub fn write_qdimacs(formula: &Formula) -> (r: String)
    requires
        formula@.prefix_wf(),
        formula@.nr_of_variables >= 0,
        formula@.nr_of_clauses >= 0,
    ensures
        r@ == spec_qdimacs(formula@),
{
    let ghost fm = formula@;
    let mut out = String::new();
    out.append("p cnf ");
    let vs = u64_to_string(formula.nr_of_variables as u64);
    out.append(vs.as_str());
    out.append(" ");
    let cs = u64_to_string(formula.nr_of_clauses as u64);
    out.append(cs.as_str());
    out.append("\n");
    proof {
        assert(out@ =~= header_text(fm.nr_of_variables, fm.nr_of_clauses));
    }
    let ghost header = out@;

    let plen = formula.prefix.len();
    let mut last_q: i32 = 0;
    let mut i: usize = 0;
    while i < plen
        invariant
            0 <= i <= plen,
            plen == formula.prefix@.len(),
            fm == formula@,
            fm.prefix_wf(),
            header == header_text(fm.nr_of_variables, fm.nr_of_clauses),
            i == 0 ==> last_q == 0 && out@ == header,
            i > 0 ==> ({
                let bs = blocks_of(fm.prefix.take(i as int));
                &&& last_q as int == fm.prefix[i - 1]
                &&& last_q != 0
                &&& bs.len() >= 1
                &&& bs.last().len() >= 1
                &&& bs.last().last() == fm.prefix[i - 1]
                &&& out@ == header + prefix_lines(bs.drop_last()) + quant_str(bs.last()[0])
                    + nums_text(bs.last())
            }),
        decreases plen - i,
    {
        let q = formula.prefix[i];
        proof {
            assert(fm.prefix[i as int] == q as int);
            assert(q != 0 && -i32::MAX <= q as int <= i32::MAX);
        }
        let ghost pre = fm.prefix.take(i as int);
        let ghost cur = fm.prefix.take(i as int + 1);
        proof {
            assert(cur.drop_last() =~= pre);
            assert(cur.last() == fm.prefix[i as int]);
        }
        let a: i32 = if q < 0 {
            -q
        } else {
            q
        };
        proof {
            assert(a as int == iabs(q as int));
        }
        if q < 0 && last_q >= 0 {
            if last_q != 0 {
                out.append(" 0\n");
            }
            out.append("e");
            out.append(" ");
            let ds = u64_to_string(a as u64);
            out.append(ds.as_str());
            proof {
                let bs = blocks_of(cur);
                if i == 0 {
                    assert(blocks_of(pre).len() == 0);
                    assert(bs =~= seq![seq![q as int]]);
                    assert(bs.drop_last().len() == 0);
                    assert(prefix_lines(bs.drop_last()) =~= Seq::<char>::empty());
                    lemma_nums_text_single(q as int);
                    assert(out@ =~= header + prefix_lines(bs.drop_last()) + quant_str(bs.last()[0])
                        + nums_text(bs.last()));
                } else {
                    let b = blocks_of(pre);
                    assert(!same_sign(b.last().last(), q as int));
                    assert(bs == b.push(seq![q as int]));
                    assert(bs.drop_last() =~= b);
                    assert(prefix_lines(b) =~= prefix_lines(b.drop_last()) + block_line(b.last()));
                    assert(block_line(b.last()) =~= quant_str(b.last()[0]) + nums_text(b.last())
                        + " 0\n"@);
                    lemma_nums_text_single(q as int);
                    assert(out@ =~= header + prefix_lines(bs.drop_last()) + quant_str(bs.last()[0])
                        + nums_text(bs.last()));
                }
            }
        } else if q > 0 && last_q <= 0 {
            if last_q != 0 {
                out.append(" 0\n");
            }
            out.append("a");
            out.append(" ");
            let ds = u64_to_string(a as u64);
            out.append(ds.as_str());
            proof {
                let bs = blocks_of(cur);
                if i == 0 {
                    assert(blocks_of(pre).len() == 0);
                    assert(bs =~= seq![seq![q as int]]);
                    assert(bs.drop_last().len() == 0);
                    assert(prefix_lines(bs.drop_last()) =~= Seq::<char>::empty());
                    lemma_nums_text_single(q as int);
                    assert(out@ =~= header + prefix_lines(bs.drop_last()) + quant_str(bs.last()[0])
                        + nums_text(bs.last()));
                } else {
                    let b = blocks_of(pre);
                    assert(!same_sign(b.last().last(), q as int));
                    assert(bs == b.push(seq![q as int]));
                    assert(bs.drop_last() =~= b);
                    assert(prefix_lines(b) =~= prefix_lines(b.drop_last()) + block_line(b.last()));
                    assert(block_line(b.last()) =~= quant_str(b.last()[0]) + nums_text(b.last())
                        + " 0\n"@);
                    lemma_nums_text_single(q as int);
                    assert(out@ =~= header + prefix_lines(bs.drop_last()) + quant_str(bs.last()[0])
                        + nums_text(bs.last()));
                }
            }
        } else {
            out.append(" ");
            let ds = u64_to_string(a as u64);
            out.append(ds.as_str());
            proof {
                let b = blocks_of(pre);
                let bs = blocks_of(cur);
                assert(i > 0);
                assert(same_sign(b.last().last(), q as int));
                assert(bs == b.update(b.len() - 1, b.last().push(q as int)));
                assert(bs.drop_last() =~= b.drop_last());
                assert(bs.last() == b.last().push(q as int));
                assert(nums_text(b.last().push(q as int)) =~= nums_text(b.last()) + " "@
                    + dec_str(iabs(q as int) as nat)) by {
                    assert(b.last().push(q as int).drop_last() =~= b.last());
                }
                assert(bs.last()[0] == b.last()[0]);
                assert(out@ =~= header + prefix_lines(bs.drop_last()) + quant_str(bs.last()[0])
                    + nums_text(bs.last()));
            }
        }
        last_q = q;
        i = i + 1;
    }
    proof {
        assert(fm.prefix.take(plen as int) =~= fm.prefix);
    }
    if last_q != 0 {
        out.append(" 0\n");
        proof {
            let bs = blocks_of(fm.prefix);
            assert(prefix_lines(bs) =~= prefix_lines(bs.drop_last()) + block_line(bs.last()));
            assert(out@ =~= header + prefix_lines(bs));
        }
    } else {
        proof {
            assert(fm.prefix.len() == 0);
            assert(blocks_of(fm.prefix).len() == 0);
            assert(out@ =~= header + prefix_lines(blocks_of(fm.prefix)));
        }
    }
    let ghost upper = out@;

    let mlen = formula.matrix.len();
    let mut i: usize = 0;
    while i < mlen
        invariant
            0 <= i <= mlen,
            mlen == formula.matrix@.len(),
            fm == formula@,
            upper == header_text(fm.nr_of_variables, fm.nr_of_clauses) + prefix_lines(
                blocks_of(fm.prefix),
            ),
            out@ == upper + matrix_text(fm.matrix.take(i as int)),
        decreases mlen - i,
    {
        let clause = &formula.matrix[i];
        proof {
            assert(fm.matrix[i as int] == ints(clause@));
            assert(fm.matrix.take(i + 1).drop_last() =~= fm.matrix.take(i as int));
            assert(fm.matrix.take(i + 1).last() == fm.matrix[i as int]);
        }
        let cl = clause_to_string(clause);
        out.append(cl.as_str());
        proof {
            assert(out@ =~= upper + matrix_text(fm.matrix.take(i + 1)));
        }
        i = i + 1;
    }
    proof {
        assert(fm.matrix.take(mlen as int) =~= fm.matrix);
        assert(out@ =~= spec_qdimacs(fm));
    }
    out
}

/// Serializes one clause: literals in order, each with a trailing space,
/// closed by the zero terminator.
fn clause_to_string(clause: &Vec<i32>) -> (r: String)
    ensures
        r@ == clause_text(ints(clause@)),
{
    let n = clause.len();
    let mut out = String::new();
    proof {
        assert(ints(clause@).skip(0) =~= ints(clause@));
        assert(out@ + clause_text(ints(clause@)) =~= clause_text(ints(clause@)));
    }
    let mut j: usize = 0;
    while j < n
        invariant
            0 <= j <= n,
            n == clause@.len(),
            clause_text(ints(clause@)) =~= out@ + clause_text(ints(clause@).skip(j as int)),
        decreases n - j,
    {
        let l = clause[j];
        proof {
            assert(ints(clause@).skip(j as int)[0] == clause@[j as int] as int);
            assert(ints(clause@).skip(j as int).drop_first() =~= ints(clause@).skip(j + 1));
        }
        let ls = crate::nums::i32_to_string(l);
        out.append(ls.as_str());
        out.append(" ");
        j = j + 1;
    }
    proof {
        assert(ints(clause@).skip(n as int).len() == 0);
    }
    out.append("0\n");
    out
}

/// Clones the formula, pins each assumed literal with a unit clause, and
/// flips each covered universal quantifier to existential: with the
/// variable fixed the universal reading would be trivially false, while
/// the existential preserves the outer semantics under reduction.
pub fn assume_split(formula: &Formula, assumption: &Vec<i32>) -> (r: Formula)
    requires
        formula@.prefix_wf(),
        formula.prefix@.len() == 0 || assumption@.len() <= formula.prefix@.len(),
        formula.nr_of_clauses as int + assumption@.len() <= i32::MAX,
    ensures
        r@.splits == formula@.splits,
        r@.nr_of_variables == formula@.nr_of_variables,
        r@.nr_of_clauses == formula@.nr_of_clauses + assumption@.len(),
        r@.prefix =~= Seq::new(
            formula@.prefix.len(),
            |j: int|
                if j < assumption@.len() && formula@.prefix[j] > 0 {
                    -formula@.prefix[j]
                } else {
                    formula@.prefix[j]
                },
        ),
        r@.matrix =~= formula@.matrix + Seq::new(
            assumption@.len(),
            |j: int| seq![assumption@[j] as int],
        ),
{
    let mut assumed = formula.clone();
    let alen = assumption.len();
    let plen = formula.prefix.len();
    let ghost target_prefix = Seq::new(
        formula@.prefix.len(),
        |t: int|
            if t < assumption@.len() && formula@.prefix[t] > 0 {
                -formula@.prefix[t]
            } else {
                formula@.prefix[t]
            },
    );
    let mut new_prefix: Vec<i32> = Vec::new();
    let mut j: usize = 0;
    while j < plen
        invariant
            0 <= j <= plen,
            plen == formula.prefix@.len(),
            alen == assumption@.len(),
            formula@.prefix_wf(),
            target_prefix == Seq::new(
                formula@.prefix.len(),
                |t: int|
                    if t < assumption@.len() && formula@.prefix[t] > 0 {
                        -formula@.prefix[t]
                    } else {
                        formula@.prefix[t]
                    },
            ),
            new_prefix@.len() == j,
            forall|t: int|
                0 <= t < j ==> #[trigger] new_prefix@[t] as int == target_prefix[t],
        decreases plen - j,
    {
        let p = formula.prefix[j];
        proof {
            assert(formula@.prefix[j as int] == p as int);
            assert(p != 0 && -i32::MAX <= p as int <= i32::MAX);
        }
        if j < alen && p > 0 {
            new_prefix.push(-p);
        } else {
            new_prefix.push(p);
        }
        j = j + 1;
    }
    proof {
        assert(ints(new_prefix@) =~= target_prefix);
    }
    assumed.prefix = new_prefix;
    let mut j: usize = 0;
    let ghost base_matrix = formula@.matrix;
    let ghost base_count = formula.nr_of_clauses as int;
    while j < alen
        invariant
            0 <= j <= alen,
            alen == assumption@.len(),
            base_matrix == formula@.matrix,
            base_count == formula.nr_of_clauses as int,
            base_count + alen <= i32::MAX,
            assumed.nr_of_clauses as int == base_count + j,
            assumed@.prefix == target_prefix,
            assumed@.splits == formula@.splits,
            assumed@.nr_of_variables == formula@.nr_of_variables,
            assumed@.matrix =~= base_matrix + Seq::new(j as nat, |t: int| seq![assumption@[t] as int]),
        decreases alen - j,
    {
        let v = assumption[j];
        let mut unit: Vec<i32> = Vec::new();
        unit.push(v);
        proof {
            assert(ints(unit@) =~= seq![assumption@[j as int] as int]);
            crate::nums::lemma_vecs_model_push(assumed.matrix@, unit);
        }
        assumed.matrix.push(unit);
        assumed.nr_of_clauses = assumed.nr_of_clauses + 1;
        proof {
            assert(assumed@.matrix =~= base_matrix + Seq::new(
                (j + 1) as nat,
                |t: int| seq![assumption@[t] as int],
            ));
        }
        j = j + 1;
    }
    assumed
}

/// The output filename of the sub-formula with split ID `i`: the decimal
/// ID, a colon, and the base name of the originating file.
pub fn split_file_name(i: usize, base: &str) -> (r: String)
    ensures
        r@ == dec_str(i as nat) + ":"@ + base@,
{
    let mut out = u64_to_string(i as u64);
    out.append(":");
    out.append(base);
    out
}

/// The log filename the harness writes for run `name` and split ID `i`
/// over original base name `base`.
pub fn log_file_name(name: &str, i: usize, base: &str) -> (r: String)
    ensures
        r@ == name@ + "-"@ + dec_str(i as nat) + ":"@ + base@ + ".log"@,
{
    let mut out = String::from_str(name);
    out.append("-");
    let ds = u64_to_string(i as u64);
    out.append(ds.as_str());
    out.append(":");
    out.append(base);
    out.append(".log");
    out
}

} // verus!
