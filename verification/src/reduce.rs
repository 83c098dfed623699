//! The result reducer: fusing per-leaf solver verdicts up the quantifier
//! prefix, and the end-to-end statistics of a run.

use crate::splits::count_sat;
use crate::types::{
    vars_concat, Formula, FormulaModel, ResultModel, SolverResult, SolverReturnCode, SplitModel,
};
use vstd::arithmetic::power2::pow2;
use vstd::prelude::*;

verus! {

/// The two quantifier kinds of a prefix position.
#[derive(Debug, Clone, Copy, PartialEq, Eq, Structural)]
pub enum Quantifier {
    Forall,
    Exists,
}

/// Why a reduction could not be completed.
#[derive(Debug, Clone, Copy, PartialEq, Eq, Structural)]
pub enum ReduceError {
    /// A split accepts no assignment at all, so no chunk width exists.
    ZeroWidthSplit,
    /// The fold did not end in exactly one fused result.
    ResultCountMismatch,
}

/// The sentinel wall time reported when a fold step has no certificate.
pub const NO_SOLVER_MILLIS: u64 = 10_000_000_000;

/// A sequence of results as their mathematical models.
pub open spec fn models(s: Seq<SolverResult>) -> Seq<ResultModel> {
    s.map_values(|r: SolverResult| r@)
}

/// Does some element of the chunk carry this verdict?
pub open spec fn has_code(chunk: Seq<ResultModel>, code: SolverReturnCode) -> bool {
    exists|i: int| 0 <= i < chunk.len() && (#[trigger] chunk[i]).code == code
}

/// Does every element of the chunk carry this verdict?
pub open spec fn all_code(chunk: Seq<ResultModel>, code: SolverReturnCode) -> bool {
    forall|i: int| 0 <= i < chunk.len() ==> (#[trigger] chunk[i]).code == code
}

/// The earliest index carrying `code` with the least (`prefer_min`) or
/// greatest wall time among those that carry it; `-1` when none does.
pub open spec fn best_idx(chunk: Seq<ResultModel>, code: SolverReturnCode, prefer_min: bool) -> int
    decreases chunk.len(),
{
    if chunk.len() == 0 {
        -1
    } else {
        let b = best_idx(chunk.drop_last(), code, prefer_min);
        if chunk.last().code != code {
            b
        } else if b == -1 {
            chunk.len() - 1
        } else if (prefer_min && chunk[b].millis <= chunk.last().millis) || (!prefer_min
            && chunk[b].millis >= chunk.last().millis) {
            b
        } else {
            chunk.len() - 1
        }
    }
}

pub proof fn lemma_best_idx_props(chunk: Seq<ResultModel>, code: SolverReturnCode, prefer_min: bool)
    ensures
        has_code(chunk, code) <==> 0 <= best_idx(chunk, code, prefer_min) < chunk.len(),
        !has_code(chunk, code) ==> best_idx(chunk, code, prefer_min) == -1,
        has_code(chunk, code) ==> (#[trigger] chunk[best_idx(chunk, code, prefer_min)]).code
            == code,
        has_code(chunk, code) ==> forall|i: int|
            0 <= i < chunk.len() && (#[trigger] chunk[i]).code == code ==> (if prefer_min {
                chunk[best_idx(chunk, code, prefer_min)].millis <= chunk[i].millis
            } else {
                chunk[best_idx(chunk, code, prefer_min)].millis >= chunk[i].millis
            }),
    decreases chunk.len(),
{
    if chunk.len() > 0 {
        let pre = chunk.drop_last();
        lemma_best_idx_props(pre, code, prefer_min);
        let b = best_idx(chunk, code, prefer_min);
        assert(forall|i: int| 0 <= i < pre.len() ==> pre[i] == chunk[i]);
        if chunk.last().code == code {
            assert(chunk[chunk.len() - 1].code == code);
            assert(has_code(chunk, code));
        }
        if has_code(pre, code) {
            let w = choose|i: int| 0 <= i < pre.len() && (#[trigger] pre[i]).code == code;
            assert(chunk[w].code == code);
            assert(has_code(chunk, code));
        }
        if has_code(chunk, code) {
            if !has_code(pre, code) && chunk.last().code != code {
                let w = choose|i: int| 0 <= i < chunk.len() && (#[trigger] chunk[i]).code == code;
                if w < chunk.len() - 1 {
                    assert(pre[w].code == code);
                }
                assert(false);
            }
            assert forall|i: int|
                0 <= i < chunk.len() && (#[trigger] chunk[i]).code == code implies (if prefer_min {
                chunk[b].millis <= chunk[i].millis
            } else {
                chunk[b].millis >= chunk[i].millis
            }) by {
                if i < chunk.len() - 1 {
                    assert(pre[i].code == code);
                    assert(has_code(pre, code));
                }
            }
        }
    }
}

/// The fused verdict of one contiguous chunk. At an existential boundary
/// any SAT child answers fastest; certifying UNSAT needs all children, so
/// the slowest UNSAT dominates. The universal case is dual. Mixed outcomes
/// without a certificate give a sentinel timeout.
pub open spec fn fuse_chunk(quant: Quantifier, chunk: Seq<ResultModel>) -> ResultModel {
    match quant {
        Quantifier::Exists => {
            if has_code(chunk, SolverReturnCode::Sat) {
                let b = best_idx(chunk, SolverReturnCode::Sat, true);
                ResultModel {
                    millis: chunk[b].millis,
                    code: SolverReturnCode::Sat,
                    name: chunk[b].name,
                }
            } else if chunk.len() > 0 && all_code(chunk, SolverReturnCode::Unsat) {
                let b = best_idx(chunk, SolverReturnCode::Unsat, false);
                ResultModel {
                    millis: chunk[b].millis,
                    code: SolverReturnCode::Unsat,
                    name: chunk[b].name,
                }
            } else {
                ResultModel {
                    millis: NO_SOLVER_MILLIS,
                    code: SolverReturnCode::Timeout,
                    name: "(no solver)"@,
                }
            }
        },
        Quantifier::Forall => {
            if chunk.len() > 0 && all_code(chunk, SolverReturnCode::Sat) {
                let b = best_idx(chunk, SolverReturnCode::Sat, false);
                ResultModel {
                    millis: chunk[b].millis,
                    code: SolverReturnCode::Sat,
                    name: chunk[b].name,
                }
            } else if has_code(chunk, SolverReturnCode::Unsat) {
                let b = best_idx(chunk, SolverReturnCode::Unsat, true);
                ResultModel {
                    millis: chunk[b].millis,
                    code: SolverReturnCode::Unsat,
                    name: chunk[b].name,
                }
            } else {
                ResultModel {
                    millis: NO_SOLVER_MILLIS,
                    code: SolverReturnCode::Timeout,
                    name: "(no solver)"@,
                }
            }
        },
    }
}

/// One reduction layer: each contiguous chunk of `width` results fuses
/// into one; a trailing remainder shorter than `width` is dropped.
pub open spec fn reduce_chunks(quant: Quantifier, width: nat, rs: Seq<ResultModel>) -> Seq<
    ResultModel,
> {
    Seq::new(
        rs.len() / width,
        |x: int| fuse_chunk(quant, rs.subrange(x * (width as int), (x + 1) * (width as int))),
    )
}

/// Universal fusion of an all-SAT block: SAT, with the largest wall time
/// among the children, carrying a name of a child that attains it.
pub proof fn lemma_reduce_universal_all_sat(chunk: Seq<ResultModel>)
    requires
        chunk.len() >= 1,
        all_code(chunk, SolverReturnCode::Sat),
    ensures
        fuse_chunk(Quantifier::Forall, chunk).code == SolverReturnCode::Sat,
        forall|i: int|
            0 <= i < chunk.len() ==> (#[trigger] chunk[i]).millis <= fuse_chunk(
                Quantifier::Forall,
                chunk,
            ).millis,
        exists|i: int|
            0 <= i < chunk.len() && (#[trigger] chunk[i]).millis == fuse_chunk(
                Quantifier::Forall,
                chunk,
            ).millis && chunk[i].name == fuse_chunk(Quantifier::Forall, chunk).name,
{
    lemma_best_idx_props(chunk, SolverReturnCode::Sat, false);
    assert(chunk[0].code == SolverReturnCode::Sat);
    assert(has_code(chunk, SolverReturnCode::Sat));
    let b = best_idx(chunk, SolverReturnCode::Sat, false);
    assert(chunk[b].millis == fuse_chunk(Quantifier::Forall, chunk).millis && chunk[b].name
        == fuse_chunk(Quantifier::Forall, chunk).name);
}

/// Universal fusion with any UNSAT child: UNSAT, with the least wall time
/// among the UNSAT children, carrying a name of one that attains it.
pub proof fn lemma_reduce_universal_any_unsat(chunk: Seq<ResultModel>)
    requires
        chunk.len() >= 1,
        has_code(chunk, SolverReturnCode::Unsat),
    ensures
        fuse_chunk(Quantifier::Forall, chunk).code == SolverReturnCode::Unsat,
        forall|i: int|
            0 <= i < chunk.len() && (#[trigger] chunk[i]).code == SolverReturnCode::Unsat
                ==> fuse_chunk(Quantifier::Forall, chunk).millis <= chunk[i].millis,
        exists|i: int|
            0 <= i < chunk.len() && (#[trigger] chunk[i]).code == SolverReturnCode::Unsat
                && chunk[i].millis == fuse_chunk(Quantifier::Forall, chunk).millis && chunk[i].name
                == fuse_chunk(Quantifier::Forall, chunk).name,
{
    let w = choose|i: int|
        0 <= i < chunk.len() && (#[trigger] chunk[i]).code == SolverReturnCode::Unsat;
    assert(!all_code(chunk, SolverReturnCode::Sat));
    lemma_best_idx_props(chunk, SolverReturnCode::Unsat, true);
    let b = best_idx(chunk, SolverReturnCode::Unsat, true);
    assert(chunk[b].code == SolverReturnCode::Unsat && chunk[b].millis == fuse_chunk(
        Quantifier::Forall,
        chunk,
    ).millis && chunk[b].name == fuse_chunk(Quantifier::Forall, chunk).name);
}

/// Existential fusion with any SAT child: SAT, with the least wall time
/// among the SAT children, carrying a name of one that attains it.
pub proof fn lemma_reduce_existential_any_sat(chunk: Seq<ResultModel>)
    requires
        chunk.len() >= 1,
        has_code(chunk, SolverReturnCode::Sat),
    ensures
        fuse_chunk(Quantifier::Exists, chunk).code == SolverReturnCode::Sat,
        forall|i: int|
            0 <= i < chunk.len() && (#[trigger] chunk[i]).code == SolverReturnCode::Sat
                ==> fuse_chunk(Quantifier::Exists, chunk).millis <= chunk[i].millis,
        exists|i: int|
            0 <= i < chunk.len() && (#[trigger] chunk[i]).code == SolverReturnCode::Sat
                && chunk[i].millis == fuse_chunk(Quantifier::Exists, chunk).millis && chunk[i].name
                == fuse_chunk(Quantifier::Exists, chunk).name,
{
    lemma_best_idx_props(chunk, SolverReturnCode::Sat, true);
    let b = best_idx(chunk, SolverReturnCode::Sat, true);
    assert(chunk[b].code == SolverReturnCode::Sat && chunk[b].millis == fuse_chunk(
        Quantifier::Exists,
        chunk,
    ).millis && chunk[b].name == fuse_chunk(Quantifier::Exists, chunk).name);
}

/// Existential fusion of an all-UNSAT block: UNSAT, with the largest wall
/// time among the children, carrying a name of a child that attains it.
pub proof fn lemma_reduce_existential_all_unsat(chunk: Seq<ResultModel>)
    requires
        chunk.len() >= 1,
        all_code(chunk, SolverReturnCode::Unsat),
    ensures
        fuse_chunk(Quantifier::Exists, chunk).code == SolverReturnCode::Unsat,
        forall|i: int|
            0 <= i < chunk.len() ==> (#[trigger] chunk[i]).millis <= fuse_chunk(
                Quantifier::Exists,
                chunk,
            ).millis,
        exists|i: int|
            0 <= i < chunk.len() && (#[trigger] chunk[i]).millis == fuse_chunk(
                Quantifier::Exists,
                chunk,
            ).millis && chunk[i].name == fuse_chunk(Quantifier::Exists, chunk).name,
{
    assert(chunk[0].code == SolverReturnCode::Unsat);
    assert(!has_code(chunk, SolverReturnCode::Sat)) by {
        if has_code(chunk, SolverReturnCode::Sat) {
            let w = choose|i: int|
                0 <= i < chunk.len() && (#[trigger] chunk[i]).code == SolverReturnCode::Sat;
            assert(chunk[w].code == SolverReturnCode::Unsat);
        }
    }
    lemma_best_idx_props(chunk, SolverReturnCode::Unsat, false);
    let b = best_idx(chunk, SolverReturnCode::Unsat, false);
    assert(chunk[b].millis == fuse_chunk(Quantifier::Exists, chunk).millis && chunk[b].name
        == fuse_chunk(Quantifier::Exists, chunk).name);
}

/// Scans the verdicts of `results[begin..end]`.
fn scan_codes(results: &Vec<SolverResult>, begin: usize, end: usize) -> (r: (bool, bool, bool, bool))
    requires
        begin <= end <= results@.len(),
    ensures
        r.0 == has_code(models(results@).subrange(begin as int, end as int), SolverReturnCode::Sat),
        r.1 == all_code(models(results@).subrange(begin as int, end as int), SolverReturnCode::Sat),
        r.2 == has_code(
            models(results@).subrange(begin as int, end as int),
            SolverReturnCode::Unsat,
        ),
        r.3 == all_code(
            models(results@).subrange(begin as int, end as int),
            SolverReturnCode::Unsat,
        ),
{
    let ghost chunk = models(results@).subrange(begin as int, end as int);
    let mut any_sat = false;
    let mut all_sat = true;
    let mut any_unsat = false;
    let mut all_unsat = true;
    let mut j: usize = begin;
    while j < end
        invariant
            begin <= j <= end <= results@.len(),
            chunk == models(results@).subrange(begin as int, end as int),
            any_sat == has_code(chunk.take(j - begin), SolverReturnCode::Sat),
            all_sat == all_code(chunk.take(j - begin), SolverReturnCode::Sat),
            any_unsat == has_code(chunk.take(j - begin), SolverReturnCode::Unsat),
            all_unsat == all_code(chunk.take(j - begin), SolverReturnCode::Unsat),
        decreases end - j,
    {
        let e = &results[j];
        proof {
            assert(chunk[j - begin] == results@[j as int]@);
            assert(chunk.take(j - begin + 1).drop_last() =~= chunk.take(j - begin));
            assert(chunk.take(j - begin + 1).last() == chunk[j - begin]);
            assert(forall|t: int|
                0 <= t < j - begin ==> #[trigger] chunk.take(j - begin + 1)[t] == chunk.take(
                    j - begin,
                )[t]);
        }
        match e.result {
            SolverReturnCode::Sat => {
                any_sat = true;
                all_unsat = false;
                proof {
                    assert(chunk.take(j - begin + 1)[j - begin].code == SolverReturnCode::Sat);
                    assert(chunk.take(j - begin + 1)[j - begin].code != SolverReturnCode::Unsat);
                }
            },
            SolverReturnCode::Unsat => {
                any_unsat = true;
                all_sat = false;
                proof {
                    assert(chunk.take(j - begin + 1)[j - begin].code == SolverReturnCode::Unsat);
                    assert(chunk.take(j - begin + 1)[j - begin].code != SolverReturnCode::Sat);
                }
            },
            SolverReturnCode::Timeout => {
                all_sat = false;
                all_unsat = false;
                proof {
                    assert(chunk.take(j - begin + 1)[j - begin].code != SolverReturnCode::Sat);
                    assert(chunk.take(j - begin + 1)[j - begin].code != SolverReturnCode::Unsat);
                }
            },
        }
        proof {
            if has_code(chunk.take(j - begin), SolverReturnCode::Sat) {
                let w = choose|t: int|
                    0 <= t < j - begin && (#[trigger] chunk.take(j - begin)[t]).code
                        == SolverReturnCode::Sat;
                assert(chunk.take(j - begin + 1)[w].code == SolverReturnCode::Sat);
            }
            if has_code(chunk.take(j - begin), SolverReturnCode::Unsat) {
                let w = choose|t: int|
                    0 <= t < j - begin && (#[trigger] chunk.take(j - begin)[t]).code
                        == SolverReturnCode::Unsat;
                assert(chunk.take(j - begin + 1)[w].code == SolverReturnCode::Unsat);
            }
            if has_code(chunk.take(j - begin + 1), SolverReturnCode::Sat) && !has_code(
                chunk.take(j - begin),
                SolverReturnCode::Sat,
            ) {
                let w = choose|t: int|
                    0 <= t < j - begin + 1 && (#[trigger] chunk.take(j - begin + 1)[t]).code
                        == SolverReturnCode::Sat;
                assert(w == j - begin || chunk.take(j - begin)[w].code == SolverReturnCode::Sat);
            }
            if has_code(chunk.take(j - begin + 1), SolverReturnCode::Unsat) && !has_code(
                chunk.take(j - begin),
                SolverReturnCode::Unsat,
            ) {
                let w = choose|t: int|
                    0 <= t < j - begin + 1 && (#[trigger] chunk.take(j - begin + 1)[t]).code
                        == SolverReturnCode::Unsat;
                assert(w == j - begin || chunk.take(j - begin)[w].code == SolverReturnCode::Unsat);
            }
        }
        j = j + 1;
    }
    proof {
        assert(chunk.take(end - begin) =~= chunk);
    }
    (any_sat, all_sat, any_unsat, all_unsat)
}

/// Finds, inside `results[begin..end]`, the earliest index carrying
/// `code` with the least (or greatest) wall time among those carrying it.
fn find_best(
    results: &Vec<SolverResult>,
    begin: usize,
    end: usize,
    code: SolverReturnCode,
    prefer_min: bool,
) -> (r: usize)
    requires
        begin <= end <= results@.len(),
        has_code(models(results@).subrange(begin as int, end as int), code),
    ensures
        begin <= r < end,
        r - begin == best_idx(models(results@).subrange(begin as int, end as int), code, prefer_min),
{
    let ghost chunk = models(results@).subrange(begin as int, end as int);
    let mut found = false;
    let mut bi: usize = begin;
    let mut j: usize = begin;
    while j < end
        invariant
            begin <= j <= end <= results@.len(),
            chunk == models(results@).subrange(begin as int, end as int),
            found == has_code(chunk.take(j - begin), code),
            !found ==> best_idx(chunk.take(j - begin), code, prefer_min) == -1,
            found ==> begin <= bi < j && bi - begin == best_idx(chunk.take(j - begin), code, prefer_min),
        decreases end - j,
    {
        let e = &results[j];
        proof {
            assert(chunk[j - begin] == results@[j as int]@);
            assert(chunk.take(j - begin + 1).drop_last() =~= chunk.take(j - begin));
            assert(chunk.take(j - begin + 1).last() == chunk[j - begin]);
            assert(forall|t: int|
                0 <= t < j - begin ==> #[trigger] chunk.take(j - begin + 1)[t] == chunk.take(
                    j - begin,
                )[t]);
            lemma_best_idx_props(chunk.take(j - begin), code, prefer_min);
            lemma_best_idx_props(chunk.take(j - begin + 1), code, prefer_min);
        }
        if e.result == code {
            proof {
                assert(chunk.take(j - begin + 1)[j - begin].code == code);
            }
            if !found {
                found = true;
                bi = j;
            } else {
                let cur = &results[bi];
                proof {
                    assert(chunk[bi - begin] == results@[bi as int]@);
                }
                if prefer_min {
                    if !(cur.wall_millis <= e.wall_millis) {
                        bi = j;
                    }
                } else {
                    if !(cur.wall_millis >= e.wall_millis) {
                        bi = j;
                    }
                }
            }
        } else {
            proof {
                assert(chunk.take(j - begin + 1)[j - begin].code != code);
            }
        }
        j = j + 1;
    }
    proof {
        assert(chunk.take(end - begin) =~= chunk);
    }
    bi
}

/// Fuses `results[begin..end]` into one result under the given quantifier.
fn fuse_range(results: &Vec<SolverResult>, begin: usize, end: usize, quant: Quantifier) -> (r:
    SolverResult)
    requires
        begin <= end <= results@.len(),
    ensures
        r@ == fuse_chunk(quant, models(results@).subrange(begin as int, end as int)),
{
    let ghost chunk = models(results@).subrange(begin as int, end as int);
    let (any_sat, all_sat, any_unsat, all_unsat) = scan_codes(results, begin, end);
    let nonempty = end > begin;
    match quant {
        Quantifier::Exists => {
            if any_sat {
                let b = find_best(results, begin, end, SolverReturnCode::Sat, true);
                let e = &results[b];
                proof {
                    assert(chunk[b - begin] == results@[b as int]@);
                }
                SolverResult {
                    wall_millis: e.wall_millis,
                    result: SolverReturnCode::Sat,
                    name: e.name.clone(),
                }
            } else if nonempty && all_unsat {
                let b = find_best(results, begin, end, SolverReturnCode::Unsat, false);
                let e = &results[b];
                proof {
                    assert(chunk[0].code == SolverReturnCode::Unsat);
                    assert(chunk[b - begin] == results@[b as int]@);
                }
                SolverResult {
                    wall_millis: e.wall_millis,
                    result: SolverReturnCode::Unsat,
                    name: e.name.clone(),
                }
            } else {
                SolverResult {
                    wall_millis: NO_SOLVER_MILLIS,
                    result: SolverReturnCode::Timeout,
                    name: String::from_str("(no solver)"),
                }
            }
        },
        Quantifier::Forall => {
            if nonempty && all_sat {
                let b = find_best(results, begin, end, SolverReturnCode::Sat, false);
                let e = &results[b];
                proof {
                    assert(chunk[0].code == SolverReturnCode::Sat);
                    assert(chunk[b - begin] == results@[b as int]@);
                }
                SolverResult {
                    wall_millis: e.wall_millis,
                    result: SolverReturnCode::Sat,
                    name: e.name.clone(),
                }
            } else if any_unsat {
                let b = find_best(results, begin, end, SolverReturnCode::Unsat, true);
                let e = &results[b];
                proof {
                    assert(chunk[b - begin] == results@[b as int]@);
                }
                SolverResult {
                    wall_millis: e.wall_millis,
                    result: SolverReturnCode::Unsat,
                    name: e.name.clone(),
                }
            } else {
                SolverResult {
                    wall_millis: NO_SOLVER_MILLIS,
                    result: SolverReturnCode::Timeout,
                    name: String::from_str("(no solver)"),
                }
            }
        },
    }
}

/// Reduces the flat result vector by one quantifier layer: every
/// contiguous chunk of `single_layer_width` results becomes one.
pub fn reduce_result(
    quant: Quantifier,
    single_layer_width: usize,
    results: Vec<SolverResult>,
) -> (r: Vec<SolverResult>)
    requires
        single_layer_width >= 1,
    ensures
        models(r@) == reduce_chunks(quant, single_layer_width as nat, models(results@)),
{
    let ghost rm = models(results@);
    let w = single_layer_width;
    let result_count = results.len() / w;
    proof {
        vstd::arithmetic::div_mod::lemma_fundamental_div_mod(results@.len() as int, w as int);
        assert(rm.len() == results@.len());
    }
    let rlen = results.len();
    let mut out: Vec<SolverResult> = Vec::new();
    let mut x: usize = 0;
    while x < result_count
        invariant
            0 <= x <= result_count,
            w == single_layer_width >= 1,
            result_count == results@.len() as int / w as int,
            rm == models(results@),
            rm.len() == results@.len(),
            rlen == results@.len(),
            out@.len() == x,
            forall|t: int|
                0 <= t < x ==> #[trigger] out@[t]@ == reduce_chunks(quant, w as nat, rm)[t],
        decreases result_count - x,
    {
        proof {
            vstd::arithmetic::div_mod::lemma_fundamental_div_mod(results@.len() as int, w as int);
            vstd::arithmetic::mul::lemma_mul_inequality(x as int + 1, result_count as int, w as int);
            assert((x + 1) * w <= result_count * w);
            assert(result_count * w == (results@.len() as int / w as int) * w);
            assert((results@.len() as int / w as int) * w <= results@.len());
            vstd::arithmetic::mul::lemma_mul_is_distributive_add_other_way(
                w as int,
                x as int,
                1,
            );
            assert((x + 1) * w == x * w + w);
            assert(x * w + w <= rlen);
        }
        let begin = x * w;
        let end = begin + w;
        let fused = fuse_range(&results, begin, end, quant);
        proof {
            assert(models(results@).subrange(begin as int, end as int) =~= rm.subrange(
                (x as int) * (w as int),
                (x as int + 1) * (w as int),
            ));
        }
        out.push(fused);
        x = x + 1;
    }
    proof {
        assert(models(out@) =~= reduce_chunks(quant, w as nat, rm));
    }
    out
}

/// The quantifier governing prefix position `pos`; positions past the end
/// of the prefix count as existential.
pub open spec fn quant_of(f: FormulaModel, pos: int) -> Quantifier {
    if pos >= f.prefix.len() {
        Quantifier::Exists
    } else if f.prefix[pos] < 0 {
        Quantifier::Exists
    } else {
        Quantifier::Forall
    }
}

pub fn quant_from_prefix(formula: &Formula, pos: usize) -> (r: Quantifier)
    ensures
        r == quant_of(formula@, pos as int),
{
    if pos >= formula.prefix.len() {
        Quantifier::Exists
    } else {
        let p = formula.prefix[pos];
        proof {
            assert(formula@.prefix[pos as int] == p as int);
        }
        if p < 0 {
            Quantifier::Exists
        } else {
            Quantifier::Forall
        }
    }
}

/// The total wall time of a run of results.
pub open spec fn sum_millis(rs: Seq<ResultModel>) -> int
    decreases rs.len(),
{
    if rs.len() == 0 {
        0
    } else {
        sum_millis(rs.drop_last()) + rs.last().millis
    }
}

/// The chunk width of a split: how many of its candidate assignments it
/// accepts.
pub open spec fn split_width(s: SplitModel) -> nat {
    count_sat(s, pow2(s.vars.len()))
}

/// Every split of the run accepts at least one assignment.
pub open spec fn widths_positive(splits: Seq<SplitModel>) -> bool {
    forall|k: int| 0 <= k < splits.len() ==> split_width(#[trigger] splits[k]) >= 1
}

/// Folds the flat result vector once per split, innermost split first,
/// tracking the prefix position whose quantifier drives each layer.
pub open spec fn spec_fold_widths(
    f: FormulaModel,
    splits_rev: Seq<SplitModel>,
    pos: int,
    acc: Seq<ResultModel>,
) -> Seq<ResultModel>
    decreases splits_rev.len(),
{
    if splits_rev.len() == 0 {
        acc
    } else {
        let s = splits_rev[0];
        let acc2 = reduce_chunks(quant_of(f, pos), split_width(s), acc);
        let pos2 = if pos > s.vars.len() {
            pos - s.vars.len()
        } else {
            pos
        };
        spec_fold_widths(f, splits_rev.drop_first(), pos2, acc2)
    }
}

proof fn lemma_fold_unfold(
    fm: FormulaModel,
    rest: Seq<SplitModel>,
    pos: int,
    acc: Seq<ResultModel>,
)
    requires
        rest.len() >= 1,
    ensures
        spec_fold_widths(fm, rest, pos, acc) == spec_fold_widths(
            fm,
            rest.drop_first(),
            if pos > rest[0].vars.len() {
                pos - rest[0].vars.len()
            } else {
                pos
            },
            reduce_chunks(quant_of(fm, pos), split_width(rest[0]), acc),
        ),
{
}

proof fn lemma_split_vars_bounded(sm: Seq<SplitModel>, k: int)
    requires
        0 <= k < sm.len(),
    ensures
        sm[k].vars.len() <= vars_concat(sm).len(),
{
    crate::types::lemma_vars_concat_snoc(sm, k);
    crate::types::lemma_vars_concat_take_prefix(sm, k + 1);
}

/// End-to-end statistics of one split-and-merge run. All times are
/// wall-clock milliseconds.
#[derive(Debug)]
pub struct SolveStatistics {
    /// Wall time of the fused result: the critical path of the run.
    pub minimal_execution_time_millis: u64,
    /// Total wall time across all leaves.
    pub summed_execution_time_millis: u128,
    /// Wall time of the solver on the unmodified formula, or the sentinel
    /// when no reference run exists.
    pub non_split_execution_time_millis: u64,
    /// How many leaves were solved: one core per leaf.
    pub required_cores: usize,
    /// The fused verdict.
    pub result: SolverReturnCode,
    /// How many leaves a naive expansion of the covered prefix positions
    /// would have produced.
    pub naive_split_count: u64,
}

/// Folds the per-leaf results of a run up the quantifier prefix and
/// reports the fused verdict together with timing statistics. Fails when
/// a split accepts no assignment or the fold does not end in exactly one
/// result.
#[verifier::rlimit(100)]
pub fn produce_statistics_from_run(
    formula: &Formula,
    results: &Vec<SolverResult>,
    split_count: u64,
    og_formula_result: Option<SolverResult>,
) -> (r: Result<SolveStatistics, ReduceError>)
    requires
        formula@.wf(),
        split_count <= formula.splits@.len(),
        1 <= vars_concat(formula@.splits.take(split_count as int)).len() <= 63,
        pow2(vars_concat(formula@.splits.take(split_count as int)).len()) <= usize::MAX,
    ensures
        ({
            let sm = formula@.splits.take(split_count as int);
            let sd = vars_concat(sm).len() as int;
            let folded = spec_fold_widths(formula@, sm.reverse(), sd - 1, models(results@));
            match r {
                Ok(st) => {
                    &&& widths_positive(sm)
                    &&& folded.len() == 1
                    &&& st.result == folded[0].code
                    &&& st.minimal_execution_time_millis == folded[0].millis
                    &&& st.summed_execution_time_millis == sum_millis(models(results@))
                    &&& st.required_cores == results@.len()
                    &&& st.naive_split_count == pow2(sd as nat)
                    &&& st.non_split_execution_time_millis == (match og_formula_result {
                        Some(og) => og@.millis,
                        None => NO_SOLVER_MILLIS,
                    })
                },
                Err(ReduceError::ZeroWidthSplit) => !widths_positive(sm),
                Err(ReduceError::ResultCountMismatch) => widths_positive(sm) && folded.len() != 1,
            }
        }),
{
    let ghost fm = formula@;
    let ghost sm = fm.splits.take(split_count as int);
    let n_splits = formula.splits.len();
    proof {
        assert(split_count <= n_splits as u64);
    }
    let sc = split_count as usize;

    // total bit width of the covered splits
    let mut sd: usize = 0;
    let mut i: usize = 0;
    while i < sc
        invariant
            0 <= i <= sc,
            sc <= formula.splits@.len(),
            sm == formula@.splits.take(sc as int),
            vars_concat(sm).len() <= 63,
            sd == vars_concat(sm.take(i as int)).len(),
        decreases sc - i,
    {
        let s = &formula.splits[i];
        proof {
            assert(formula@.splits[i as int] == s@);
            assert(sm[i as int] == s@);
            crate::types::lemma_vars_concat_snoc(sm, i as int);
            crate::types::lemma_vars_concat_take_prefix(sm, i as int + 1);
        }
        sd = sd + s.vars.len();
        i = i + 1;
    }
    proof {
        assert(sm.take(sc as int) =~= sm);
        assert(sd == vars_concat(sm).len());
    }

    let naive_split_count = crate::nums::pow2_u64(sd as u64);
    let required_cores = results.len();

    // total wall time across the leaves
    let mut summed: u128 = 0;
    let mut i: usize = 0;
    while i < required_cores
        invariant
            0 <= i <= required_cores,
            required_cores == results@.len(),
            summed == sum_millis(models(results@).take(i as int)),
            summed <= (i as u128) * (u64::MAX as u128),
        decreases required_cores - i,
    {
        let e = &results[i];
        proof {
            assert(models(results@).take(i + 1).drop_last() =~= models(results@).take(i as int));
            assert(models(results@).take(i + 1).last() == results@[i as int]@);
            vstd::arithmetic::mul::lemma_mul_is_distributive_add_other_way(
                u64::MAX as int,
                i as int,
                1,
            );
            vstd::arithmetic::mul::lemma_mul_inequality(
                i as int + 1,
                u64::MAX as int,
                u64::MAX as int,
            );
            assert((i as int + 1) * (u64::MAX as int) <= (u64::MAX as int) * (u64::MAX as int));
            assert((u64::MAX as u128) * (u64::MAX as u128) <= u128::MAX) by (nonlinear_arith);
        }
        summed = summed + e.wall_millis as u128;
        i = i + 1;
    }
    proof {
        assert(models(results@).take(required_cores as int) =~= models(results@));
    }

    // clone the leaf results as the running accumulator
    let mut solver_results: Vec<SolverResult> = Vec::new();
    let mut i: usize = 0;
    while i < required_cores
        invariant
            0 <= i <= required_cores,
            required_cores == results@.len(),
            solver_results@.len() == i,
            forall|t: int| 0 <= t < i ==> #[trigger] solver_results@[t]@ == results@[t]@,
        decreases required_cores - i,
    {
        let e = results[i].clone();
        solver_results.push(e);
        i = i + 1;
    }
    proof {
        assert(models(solver_results@) =~= models(results@));
    }

    let mut quanttree_pos: usize = sd - 1;
    let ghost rev = sm.reverse();
    let ghost folded = spec_fold_widths(fm, rev, sd - 1, models(results@));
    proof {
        assert(rev.skip(0) =~= rev);
        assert(forall|k: int| 0 <= k < sm.len() ==> (#[trigger] sm[k]).wf());
    }
    let mut i: usize = 0;
    while i < sc
        invariant
            0 <= i <= sc,
            sc <= formula.splits@.len(),
            sc as u64 == split_count,
            fm == formula@,
            sm == fm.splits.take(sc as int),
            forall|k: int| 0 <= k < sm.len() ==> (#[trigger] sm[k]).wf(),
            rev == sm.reverse(),
            sd == vars_concat(sm).len(),
            1 <= sd <= 63,
            pow2(sd as nat) <= usize::MAX,
            quanttree_pos < sd,
            folded == spec_fold_widths(
                fm,
                rev.skip(i as int),
                quanttree_pos as int,
                models(solver_results@),
            ),
            forall|k: int| 0 <= k < i ==> split_width(#[trigger] rev[k]) >= 1,
        decreases sc - i,
    {
        let s = &formula.splits[sc - 1 - i];
        proof {
            assert(formula@.splits[sc - 1 - i] == s@);
            assert(sm[sc - 1 - i] == s@);
            assert(rev[i as int] == sm[sc - 1 - i]);
            assert(s@.wf());
            lemma_split_vars_bounded(sm, sc - 1 - i);
            if (s.vars@.len() as nat) < sd as nat {
                vstd::arithmetic::power2::lemma_pow2_strictly_increases(
                    s.vars@.len() as nat,
                    sd as nat,
                );
            }
        }
        let n = s.nr_of_splits();
        if n == 0 {
            proof {
                assert(split_width(rev[i as int]) == 0);
                assert(!widths_positive(sm)) by {
                    assert(sm[sc - 1 - i] == rev[i as int]);
                }
            }
            return Err(ReduceError::ZeroWidthSplit);
        }
        let q = quant_from_prefix(formula, quanttree_pos);
        proof {
            assert(rev.skip(i as int)[0] == rev[i as int]);
            assert(rev.skip(i as int).drop_first() =~= rev.skip(i as int + 1));
            lemma_fold_unfold(
                fm,
                rev.skip(i as int),
                quanttree_pos as int,
                models(solver_results@),
            );
        }
        solver_results = reduce_result(q, n, solver_results);
        if quanttree_pos > s.vars.len() {
            quanttree_pos = quanttree_pos - s.vars.len();
        }
        i = i + 1;
    }
    proof {
        assert(rev.skip(sc as int).len() == 0);
        assert(folded == models(solver_results@));
        assert forall|k: int| 0 <= k < sm.len() implies split_width(#[trigger] sm[k]) >= 1 by {
            assert(rev[sm.len() - 1 - k] == sm[k]);
            assert(split_width(rev[sm.len() - 1 - k]) >= 1);
        }
    }
    if solver_results.len() != 1 {
        return Err(ReduceError::ResultCountMismatch);
    }
    let fused = &solver_results[0];
    proof {
        assert(folded[0] == solver_results@[0]@);
    }
    Ok(
        SolveStatistics {
            minimal_execution_time_millis: fused.wall_millis,
            summed_execution_time_millis: summed,
            non_split_execution_time_millis: (match og_formula_result {
                Some(og) => og.wall_millis,
                None => NO_SOLVER_MILLIS,
            }),
            required_cores,
            result: fused.result,
            naive_split_count,
        },
    )
}

} // verus!
