//! The data model: solver verdicts, integer-split directives, and formulas,
//! together with their mathematical models and well-formedness conditions.

use crate::nums::{iabs, ints};
use vstd::prelude::*;

verus! {

/// Verdict of one external solver run.
#[derive(Debug, Clone, Copy, PartialEq, Eq, Structural)]
pub enum SolverReturnCode {
    Sat,
    Unsat,
    Timeout,
}

/// Kind of a single integer-split constraint.
#[derive(Debug, Clone, Copy, PartialEq, Eq, Structural)]
pub enum IntegerSplitKind {
    LessThan,
    GreaterThan,
    Equals,
}

/// Wall time and verdict read from one solver log.
#[derive(Debug)]
pub struct SolverResult {
    /// Wall-clock time in milliseconds.
    pub wall_millis: u64,
    pub result: SolverReturnCode,
    /// Identifies the log the result was read from.
    pub name: String,
}

/// Mathematical model of a [`SolverResult`].
#[verifier::ext_equal]
pub ghost struct ResultModel {
    pub millis: u64,
    pub code: SolverReturnCode,
    pub name: Seq<char>,
}

impl View for SolverResult {
    type V = ResultModel;

    open spec fn view(&self) -> ResultModel {
        ResultModel { millis: self.wall_millis, code: self.result, name: self.name@ }
    }
}

impl Clone for SolverResult {
    fn clone(&self) -> (r: Self)
        ensures
            r@ == self@,
    {
        SolverResult {
            wall_millis: self.wall_millis,
            result: self.result,
            name: self.name.clone(),
        }
    }
}

/// One constraint of an integer split: a kind and its target rows. For
/// `LessThan` and `GreaterThan` the target is one single-element row
/// holding the bound; for `Equals` each row is one bit-pattern alternative.
#[derive(Debug)]
pub struct IntegerSplitConstraint {
    pub kind: IntegerSplitKind,
    pub target: Vec<Vec<i32>>,
}

/// Mathematical model of an [`IntegerSplitConstraint`].
#[verifier::ext_equal]
pub ghost struct ConstraintModel {
    pub kind: IntegerSplitKind,
    pub target: Seq<Seq<int>>,
}

impl View for IntegerSplitConstraint {
    type V = ConstraintModel;

    open spec fn view(&self) -> ConstraintModel {
        ConstraintModel {
            kind: self.kind,
            target: self.target@.map_values(|row: Vec<i32>| ints(row@)),
        }
    }
}

impl ConstraintModel {
    /// Well-formed for a split over `width` variables.
    pub open spec fn wf(self, width: int) -> bool {
        match self.kind {
            IntegerSplitKind::LessThan | IntegerSplitKind::GreaterThan => {
                &&& self.target.len() == 1
                &&& self.target[0].len() == 1
                &&& 1 <= self.target[0][0] <= i32::MAX
            },
            IntegerSplitKind::Equals => {
                &&& self.target.len() >= 1
                &&& forall|i: int|
                    0 <= i < self.target.len() ==> bit_row_wf(#[trigger] self.target[i], width)
            },
        }
    }
}

/// A row of exactly `width` entries, each 0 or 1.
pub open spec fn bit_row_wf(row: Seq<int>, width: int) -> bool {
    &&& row.len() == width
    &&& forall|j: int| 0 <= j < row.len() ==> (#[trigger] row[j] == 0 || row[j] == 1)
}

/// Copies a vector of literals.
pub fn clone_vec_i32(v: &Vec<i32>) -> (r: Vec<i32>)
    ensures
        r@ == v@,
{
    let n = v.len();
    let mut r: Vec<i32> = Vec::new();
    let mut i: usize = 0;
    while i < n
        invariant
            0 <= i <= n,
            n == v@.len(),
            r@ == v@.take(i as int),
        decreases n - i,
    {
        r.push(v[i]);
        proof {
            assert(r@ =~= v@.take(i + 1));
        }
        i = i + 1;
    }
    proof {
        assert(v@.take(n as int) =~= v@);
    }
    r
}

impl Clone for IntegerSplitConstraint {
    fn clone(&self) -> (r: Self)
        ensures
            r@ == self@,
    {
        let n = self.target.len();
        let mut target: Vec<Vec<i32>> = Vec::new();
        let mut i: usize = 0;
        while i < n
            invariant
                0 <= i <= n,
                n == self.target@.len(),
                target@.len() == i,
                forall|t: int| 0 <= t < i ==> #[trigger] target@[t]@ == self.target@[t]@,
            decreases n - i,
        {
            let row = clone_vec_i32(&self.target[i]);
            target.push(row);
            i = i + 1;
        }
        let r = IntegerSplitConstraint { kind: self.kind, target };
        proof {
            assert(r@.target =~~= self@.target);
            assert(r@ =~~= self@);
        }
        r
    }
}

/// An integer split: an ordered run of prefix variables read as one
/// unsigned integer, most significant variable first, and the constraints
/// that select which values of it are enumerated.
#[derive(Debug)]
pub struct IntegerSplit {
    pub vars: Vec<i32>,
    pub constraints: Vec<IntegerSplitConstraint>,
}

/// Mathematical model of an [`IntegerSplit`].
#[verifier::ext_equal]
pub ghost struct SplitModel {
    pub vars: Seq<int>,
    pub constraints: Seq<ConstraintModel>,
}

impl View for IntegerSplit {
    type V = SplitModel;

    open spec fn view(&self) -> SplitModel {
        SplitModel {
            vars: ints(self.vars@),
            constraints: self.constraints@.map_values(|c: IntegerSplitConstraint| c@),
        }
    }
}

impl Clone for IntegerSplit {
    fn clone(&self) -> (r: Self)
        ensures
            r@ == self@,
    {
        let vars = clone_vec_i32(&self.vars);
        let n = self.constraints.len();
        let mut constraints: Vec<IntegerSplitConstraint> = Vec::new();
        let mut i: usize = 0;
        while i < n
            invariant
                0 <= i <= n,
                n == self.constraints@.len(),
                constraints@.len() == i,
                forall|t: int| 0 <= t < i ==> #[trigger] constraints@[t]@ == self.constraints@[t]@,
            decreases n - i,
        {
            let c = self.constraints[i].clone();
            constraints.push(c);
            i = i + 1;
        }
        let r = IntegerSplit { vars, constraints };
        proof {
            assert(r@.constraints =~~= self@.constraints);
            assert(r@ =~~= self@);
        }
        r
    }
}

impl SplitModel {
    pub open spec fn wf(self) -> bool {
        &&& self.vars.len() >= 1
        &&& forall|i: int| 0 <= i < self.vars.len() ==> 1 <= #[trigger] self.vars[i] <= i32::MAX
        &&& self.constraints.len() >= 1
        &&& forall|i: int|
            0 <= i < self.constraints.len() ==> (#[trigger] self.constraints[i]).wf(
                self.vars.len() as int,
            )
    }
}

/// A parsed QDIMACS formula: quantifier prefix, clause matrix, split
/// directives, and the header counts. A prefix entry is a non-zero signed
/// integer: positive for a universally quantified variable, negative for an
/// existentially quantified one, the variable being its absolute value.
#[derive(Debug)]
pub struct Formula {
    pub splits: Vec<IntegerSplit>,
    pub prefix: Vec<i32>,
    pub matrix: Vec<Vec<i32>>,
    pub nr_of_variables: i32,
    pub nr_of_clauses: i32,
}

impl Clone for Formula {
    fn clone(&self) -> (r: Self)
        ensures
            r@ == self@,
    {
        let ns = self.splits.len();
        let mut splits: Vec<IntegerSplit> = Vec::new();
        let mut i: usize = 0;
        while i < ns
            invariant
                0 <= i <= ns,
                ns == self.splits@.len(),
                splits@.len() == i,
                forall|t: int| 0 <= t < i ==> #[trigger] splits@[t]@ == self.splits@[t]@,
            decreases ns - i,
        {
            let s = self.splits[i].clone();
            splits.push(s);
            i = i + 1;
        }
        let prefix = clone_vec_i32(&self.prefix);
        let nm = self.matrix.len();
        let mut matrix: Vec<Vec<i32>> = Vec::new();
        let mut i: usize = 0;
        while i < nm
            invariant
                0 <= i <= nm,
                nm == self.matrix@.len(),
                matrix@.len() == i,
                forall|t: int| 0 <= t < i ==> #[trigger] matrix@[t]@ == self.matrix@[t]@,
            decreases nm - i,
        {
            let c = clone_vec_i32(&self.matrix[i]);
            matrix.push(c);
            i = i + 1;
        }
        let r = Formula {
            splits,
            prefix,
            matrix,
            nr_of_variables: self.nr_of_variables,
            nr_of_clauses: self.nr_of_clauses,
        };
        proof {
            assert(r@.splits =~~= self@.splits);
            assert(r@.matrix =~~= self@.matrix);
            assert(r@ =~~= self@);
        }
        r
    }
}

/// Mathematical model of a [`Formula`].
#[verifier::ext_equal]
pub ghost struct FormulaModel {
    pub splits: Seq<SplitModel>,
    pub prefix: Seq<int>,
    pub matrix: Seq<Seq<int>>,
    pub nr_of_variables: int,
    pub nr_of_clauses: int,
}

impl View for Formula {
    type V = FormulaModel;

    open spec fn view(&self) -> FormulaModel {
        FormulaModel {
            splits: self.splits@.map_values(|s: IntegerSplit| s@),
            prefix: ints(self.prefix@),
            matrix: self.matrix@.map_values(|c: Vec<i32>| ints(c@)),
            nr_of_variables: self.nr_of_variables as int,
            nr_of_clauses: self.nr_of_clauses as int,
        }
    }
}

/// The variables of a run of splits, concatenated in order.
pub open spec fn vars_concat(splits: Seq<SplitModel>) -> Seq<int>
    decreases splits.len(),
{
    if splits.len() == 0 {
        Seq::empty()
    } else {
        vars_concat(splits.drop_last()) + splits.last().vars
    }
}

/// Extending the run of splits by one appends that split's variables.
pub proof fn lemma_vars_concat_snoc(splits: Seq<SplitModel>, i: int)
    requires
        0 <= i < splits.len(),
    ensures
        vars_concat(splits.take(i + 1)) =~= vars_concat(splits.take(i)) + splits[i].vars,
{
    assert(splits.take(i + 1).drop_last() =~= splits.take(i));
    assert(splits.take(i + 1).last() == splits[i]);
}

/// The concatenation can also be decomposed at its first split.
pub proof fn lemma_vars_concat_head(splits: Seq<SplitModel>)
    requires
        splits.len() >= 1,
    ensures
        vars_concat(splits) =~= splits[0].vars + vars_concat(splits.drop_first()),
    decreases splits.len(),
{
    if splits.len() == 1 {
        assert(splits.drop_last().len() == 0);
        assert(splits.drop_first().len() == 0);
        assert(splits.last() == splits[0]);
        assert(vars_concat(splits.drop_last()) =~= Seq::<int>::empty());
        assert(vars_concat(splits) =~= Seq::<int>::empty() + splits[0].vars);
        assert(vars_concat(splits) =~= splits[0].vars);
    } else {
        lemma_vars_concat_head(splits.drop_last());
        assert(splits.drop_last().drop_first() =~= splits.drop_first().drop_last());
        assert(splits.drop_first().last() == splits.last());
        assert(vars_concat(splits.drop_first()) =~= vars_concat(splits.drop_first().drop_last())
            + splits.last().vars);
        assert(splits.drop_last()[0] == splits[0]);
    }
}

/// The concatenation over an initial run of splits is an initial segment
/// of the concatenation over all of them.
pub proof fn lemma_vars_concat_take_prefix(splits: Seq<SplitModel>, k: int)
    requires
        0 <= k <= splits.len(),
    ensures
        vars_concat(splits.take(k)).len() <= vars_concat(splits).len(),
        vars_concat(splits.take(k)) =~= vars_concat(splits).take(
            vars_concat(splits.take(k)).len() as int,
        ),
    decreases splits.len(),
{
    if k == splits.len() {
        assert(splits.take(k) =~= splits);
        assert(vars_concat(splits) =~= vars_concat(splits).take(vars_concat(splits).len() as int));
    } else {
        assert(splits.take(k) =~= splits.drop_last().take(k));
        lemma_vars_concat_take_prefix(splits.drop_last(), k);
        assert(vars_concat(splits) =~= vars_concat(splits.drop_last()) + splits.last().vars);
        assert(vars_concat(splits.drop_last()).take(vars_concat(splits.drop_last().take(k)).len() as int)
            =~= vars_concat(splits).take(vars_concat(splits.drop_last().take(k)).len() as int));
    }
}

/// The entry of the concatenation at offset `j` inside split `k`'s range
/// is that split's variable `j`.
pub proof fn lemma_vars_concat_index(splits: Seq<SplitModel>, k: int, j: int)
    requires
        0 <= k < splits.len(),
        0 <= j < splits[k].vars.len(),
    ensures
        0 <= split_offset(splits, k) + j < vars_concat(splits).len(),
        vars_concat(splits)[split_offset(splits, k) + j] == splits[k].vars[j],
{
    lemma_vars_concat_snoc(splits, k);
    lemma_vars_concat_take_prefix(splits, k + 1);
    assert(vars_concat(splits.take(k + 1))[split_offset(splits, k) + j] == splits[k].vars[j]);
}

/// Every entry of the concatenation comes from one of the splits, so the
/// concatenation of well-formed splits holds positive variables only.
pub proof fn lemma_vars_concat_wf_entries(splits: Seq<SplitModel>)
    requires
        forall|k: int| 0 <= k < splits.len() ==> (#[trigger] splits[k]).wf(),
    ensures
        forall|j: int|
            0 <= j < vars_concat(splits).len() ==> 1 <= #[trigger] vars_concat(splits)[j]
                <= i32::MAX,
    decreases splits.len(),
{
    if splits.len() > 0 {
        lemma_vars_concat_wf_entries(splits.drop_last());
        assert(splits.last() == splits[splits.len() - 1]);
        assert(splits.last().wf());
        let dl = vars_concat(splits.drop_last());
        assert forall|j: int| 0 <= j < vars_concat(splits).len() implies 1 <= #[trigger] vars_concat(
            splits,
        )[j] <= i32::MAX by {
            if j < dl.len() {
                assert(vars_concat(splits)[j] == dl[j]);
            } else {
                assert(vars_concat(splits)[j] == splits.last().vars[j - dl.len()]);
            }
        }
    }
}

/// The one-variable `LessThan 2` splits synthesized for a formula that
/// declares none, one per prefix position up to the first 64.
pub open spec fn synth_splits(prefix: Seq<int>) -> Seq<SplitModel> {
    Seq::new(
        vstd::math::min(prefix.len() as int, 64) as nat,
        |i: int|
            SplitModel {
                vars: seq![iabs(prefix[i])],
                constraints: seq![
                    ConstraintModel {
                        kind: IntegerSplitKind::LessThan,
                        target: seq![seq![2int]],
                    },
                ],
            },
    )
}

/// The first position of split number `k` inside the concatenation of all
/// split variables.
pub open spec fn split_offset(splits: Seq<SplitModel>, k: int) -> int {
    vars_concat(splits.take(k)).len() as int
}

impl FormulaModel {
    /// The prefix with quantifier signs stripped.
    pub open spec fn prefix_abs(self) -> Seq<int> {
        self.prefix.map_values(|e: int| iabs(e))
    }

    /// All prefix entries are non-zero and their negations are still
    /// representable.
    pub open spec fn prefix_wf(self) -> bool {
        forall|i: int|
            0 <= i < self.prefix.len() ==> (#[trigger] self.prefix[i] != 0 && -i32::MAX
                <= self.prefix[i] <= i32::MAX)
    }

    /// All clauses are non-empty and their literals stay inside the declared
    /// variable range.
    pub open spec fn matrix_wf(self) -> bool {
        forall|i: int|
            0 <= i < self.matrix.len() ==> clause_wf(#[trigger] self.matrix[i], self.nr_of_variables)
    }

    /// The split variables, concatenated, are an initial segment of the
    /// prefix, read by absolute value.
    pub open spec fn splits_cover_prefix(self) -> bool {
        &&& vars_concat(self.splits).len() <= self.prefix.len()
        &&& vars_concat(self.splits) == self.prefix_abs().take(vars_concat(self.splits).len() as int)
    }

    /// Each split stays inside one quantifier block: all prefix entries it
    /// covers carry the same sign.
    pub open spec fn splits_single_block(self) -> bool {
        forall|k: int, p: int|
            #![trigger self.splits[k], self.prefix[p]]
            0 <= k < self.splits.len() && split_offset(self.splits, k) <= p < split_offset(
                self.splits,
                k,
            ) + self.splits[k].vars.len() && p < self.prefix.len() ==> ((self.prefix[p] > 0) == (
            self.prefix[split_offset(self.splits, k)] > 0))
    }

    /// The invariants that hold of every parsed formula.
    pub open spec fn wf(self) -> bool {
        &&& self.prefix_wf()
        &&& self.matrix_wf()
        &&& 0 <= self.nr_of_variables <= i32::MAX
        &&& self.nr_of_clauses == self.matrix.len()
        &&& self.matrix.len() <= i32::MAX
        &&& forall|k: int| 0 <= k < self.splits.len() ==> (#[trigger] self.splits[k]).wf()
        &&& self.splits_cover_prefix()
        &&& self.splits_single_block()
    }
}

/// A non-empty clause of non-zero literals bounded by the declared number of
/// variables.
pub open spec fn clause_wf(clause: Seq<int>, nr_of_variables: int) -> bool {
    &&& clause.len() >= 1
    &&& forall|j: int|
        0 <= j < clause.len() ==> (#[trigger] clause[j] != 0 && -nr_of_variables <= clause[j]
            <= nr_of_variables)
}

/// Enumerates the assumption vectors of the embedded splits: the candidate
/// vector for every index below `max_idx`, most significant bit first over
/// the concatenated split variables.
pub struct FormulaVars {
    vars: Vec<i32>,
    current_idx: u64,
    max_idx: u64,
}

impl FormulaVars {
    /// The concatenated split variables the candidates range over.
    pub closed spec fn vars_model(&self) -> Seq<int> {
        ints(self.vars@)
    }

    pub closed spec fn current(&self) -> u64 {
        self.current_idx
    }

    pub closed spec fn max(&self) -> u64 {
        self.max_idx
    }

    pub open spec fn wf(&self) -> bool {
        &&& self.vars_model().len() <= 63
        &&& forall|j: int| 0 <= j < self.vars_model().len() ==> 1 <= #[trigger] self.vars_model()[j]
    }

    pub fn new(vars: Vec<i32>, max_idx: u64) -> (r: FormulaVars)
        requires
            vars@.len() <= 63,
            forall|j: int| 0 <= j < vars@.len() ==> 1 <= #[trigger] vars@[j],
        ensures
            r.vars_model() == ints(vars@),
            r.current() == 0,
            r.max() == max_idx,
            r.wf(),
    {
        FormulaVars { vars, current_idx: 0, max_idx }
    }

    /// Hands out the candidate vector for the current index and advances,
    /// or `None` once the index range is exhausted.
    pub fn next(&mut self) -> (r: Option<Vec<i32>>)
        requires
            old(self).wf(),
        ensures
            final(self).wf(),
            final(self).vars_model() == old(self).vars_model(),
            final(self).max() == old(self).max(),
            match r {
                Some(v) => {
                    &&& old(self).current() < old(self).max()
                    &&& final(self).current() == old(self).current() + 1
                    &&& ints(v@) == crate::nums::assum_vec(
                        old(self).vars_model(),
                        old(self).current() as nat,
                    )
                },
                None => {
                    &&& old(self).current() >= old(self).max()
                    &&& final(self).current() == old(self).current()
                },
            },
    {
        if self.current_idx >= self.max_idx {
            None
        } else {
            let idx = self.current_idx;
            self.current_idx = self.current_idx + 1;
            let n = self.vars.len();
            let mut v: Vec<i32> = Vec::new();
            let mut j: usize = 0;
            while j < n
                invariant
                    0 <= j <= n,
                    n == self.vars@.len() <= 63,
                    forall|t: int| 0 <= t < n ==> 1 <= #[trigger] self.vars_model()[t],
                    v@.len() == j,
                    forall|t: int|
                        0 <= t < j ==> #[trigger] v@[t] as int == crate::nums::assum_vec(
                            self.vars_model(),
                            idx as nat,
                        )[t],
                decreases n - j,
            {
                let bit_pos: u64 = (n - 1 - j) as u64;
                let b = crate::nums::nbit_u64(idx, bit_pos);
                let var = self.vars[j];
                proof {
                    assert(var as int == self.vars_model()[j as int]);
                }
                if b {
                    v.push(var);
                } else {
                    v.push(-var);
                }
                j = j + 1;
            }
            proof {
                assert(ints(v@) =~= crate::nums::assum_vec(self.vars_model(), idx as nat));
            }
            Some(v)
        }
    }
}

} // verus!
