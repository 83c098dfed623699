//! Constraint satisfaction, the per-split cardinality `nr_of_splits`, and
//! the enumeration of assumption vectors for a whole formula.

use crate::nums::{
    assum_vec, bits_to_num, ints, lemma_assum_vec_value, lemma_row_to_num_bound, lsb_vec, nbit,
    nbit_u64, pow2_u64, row_to_num, vecs_model,
};
use crate::types::{
    bit_row_wf, split_offset, synth_splits, vars_concat, ConstraintModel, Formula, FormulaModel,
    FormulaVars, IntegerSplit, IntegerSplitConstraint, IntegerSplitKind, SplitModel,
};
use vstd::arithmetic::power2::{lemma2_to64, lemma_pow2_strictly_increases, pow2};
use vstd::math::min as spec_min;
use vstd::prelude::*;

verus! {

/// Does bit-pattern alternative `alt` hold of the signed literals `bits`?
/// Positions beyond the shorter of the two are not constrained.
pub open spec fn spec_alt_matches(alt: Seq<int>, bits: Seq<int>) -> bool {
    forall|j: int|
        #![trigger alt[j]]
        #![trigger bits[j]]
        0 <= j < alt.len() && j < bits.len() ==> ((alt[j] == 1 && bits[j] > 0) || (alt[j] == 0
            && bits[j] < 0))
}

/// Is the constraint satisfied by literals `bits` whose unsigned encoding
/// is `num`?
pub open spec fn spec_constraint_satisfied(c: ConstraintModel, bits: Seq<int>, num: nat) -> bool {
    match c.kind {
        IntegerSplitKind::LessThan => num < c.target[0][0],
        IntegerSplitKind::GreaterThan => num > c.target[0][0],
        IntegerSplitKind::Equals => exists|a: int|
            0 <= a < c.target.len() && spec_alt_matches(#[trigger] c.target[a], bits),
    }
}

/// Is any of the split's constraints satisfied?
pub open spec fn spec_split_sat_num(s: SplitModel, bits: Seq<int>, num: nat) -> bool {
    exists|i: int|
        0 <= i < s.constraints.len() && spec_constraint_satisfied(
            #[trigger] s.constraints[i],
            bits,
            num,
        )
}

/// Is the split satisfied by the signed literals `bits` under their own
/// unsigned encoding?
pub open spec fn spec_split_sat(s: SplitModel, bits: Seq<int>) -> bool {
    spec_split_sat_num(s, bits, bits_to_num(bits))
}

/// The sign vector for enumeration index `idx` over `k` placeholder
/// variables: `1` where the bit is set, `-1` where it is not.
pub open spec fn sign_vec(idx: nat, k: nat) -> Seq<int> {
    assum_vec(Seq::new(k, |j: int| 1int), idx)
}

/// How many of the first `n` enumeration indices satisfy the split.
pub open spec fn count_sat(s: SplitModel, n: nat) -> nat
    decreases n,
{
    if n == 0 {
        0
    } else {
        count_sat(s, (n - 1) as nat) + (if spec_split_sat_num(
            s,
            sign_vec((n - 1) as nat, s.vars.len()),
            (n - 1) as nat,
        ) {
            1nat
        } else {
            0nat
        })
    }
}

impl ConstraintModel {
    /// The shape that a comparison constraint's target must have before it
    /// can be evaluated.
    pub open spec fn bounds_ok(self) -> bool {
        (self.kind == IntegerSplitKind::LessThan || self.kind == IntegerSplitKind::GreaterThan)
            ==> (self.target.len() >= 1 && self.target[0].len() >= 1 && 0 <= self.target[0][0]
            <= i32::MAX)
    }
}

impl IntegerSplitConstraint {
    /// Does the constraint accept the literals `bits` whose unsigned
    /// encoding is `num`?
    pub fn satisfied(&self, bits: &[i32], num: u64) -> (r: bool)
        requires
            self@.bounds_ok(),
        ensures
            r == spec_constraint_satisfied(self@, ints(bits@), num as nat),
    {
        match self.kind {
            IntegerSplitKind::LessThan => {
                let bound = self.target[0][0];
                proof {
                    assert(self@.target[0][0] == self.target@[0]@[0] as int);
                }
                num < bound as u64
            },
            IntegerSplitKind::GreaterThan => {
                let bound = self.target[0][0];
                proof {
                    assert(self@.target[0][0] == self.target@[0]@[0] as int);
                }
                num > bound as u64
            },
            IntegerSplitKind::Equals => {
                let mut a: usize = 0;
                let tlen = self.target.len();
                while a < tlen
                    invariant
                        0 <= a <= tlen,
                        tlen == self.target.len(),
                        self@.bounds_ok(),
                        self.kind == IntegerSplitKind::Equals,
                        forall|t: int|
                            0 <= t < a ==> !spec_alt_matches(#[trigger] self@.target[t], ints(bits@)),
                    decreases tlen - a,
                {
                    let alt = &self.target[a];
                    proof {
                        assert(self@.target[a as int] =~= ints(alt@));
                    }
                    if alt_matches(alt, bits) {
                        proof {
                            assert(spec_alt_matches(self@.target[a as int], ints(bits@)));
                        }
                        return true;
                    }
                    a = a + 1;
                }
                proof {
                    assert forall|t: int| 0 <= t < self@.target.len() implies !spec_alt_matches(
                        #[trigger] self@.target[t],
                        ints(bits@),
                    ) by {}
                }
                false
            },
        }
    }
}

/// Checks one bit-pattern alternative against the literals, over the
/// positions both share.
#[verifier::rlimit(50)]
fn alt_matches(alt: &Vec<i32>, bits: &[i32]) -> (r: bool)
    ensures
        r == spec_alt_matches(ints(alt@), ints(bits@)),
{
    let m: usize = if alt.len() < bits.len() {
        alt.len()
    } else {
        bits.len()
    };
    let mut j: usize = 0;
    while j < m
        invariant
            0 <= j <= m,
            m == spec_min(alt@.len() as int, bits@.len() as int),
            forall|t: int|
                #![trigger ints(alt@)[t]]
                0 <= t < j ==> ((ints(alt@)[t] == 1 && ints(bits@)[t] > 0) || (ints(alt@)[t] == 0
                    && ints(bits@)[t] < 0)),
        decreases m - j,
    {
        let av = alt[j];
        let bv = bits[j];
        proof {
            assert(ints(alt@)[j as int] == av as int);
            assert(ints(bits@)[j as int] == bv as int);
        }
        if !((av == 1 && bv > 0) || (av == 0 && bv < 0)) {
            return false;
        }
        j = j + 1;
    }
    proof {
        assert forall|t: int|
            0 <= t < ints(alt@).len() && t < ints(bits@).len() implies ((ints(alt@)[t] == 1 && ints(
            bits@,
        )[t] > 0) || (ints(alt@)[t] == 0 && ints(bits@)[t] < 0)) by {
            assert(t < m);
        }
    }
    true
}

/// The unsigned integer encoded by a vector of signed literals, most
/// significant position first.
pub fn to_u64(slice: &[i32]) -> (r: u64)
    requires
        slice@.len() <= 63,
    ensures
        r == bits_to_num(ints(slice@)),
{
    let n = slice.len();
    proof {
        lemma2_to64();
    }
    let mut acc: u64 = 0;
    let mut j: usize = 0;
    while j < n
        invariant
            0 <= j <= n,
            n == slice@.len() <= 63,
            acc == bits_to_num(ints(slice@.take(j as int))),
            acc < pow2(j as nat),
        decreases n - j,
    {
        let b = slice[j];
        proof {
            assert(ints(slice@.take(j + 1)).drop_last() =~= ints(slice@.take(j as int)));
            assert(ints(slice@.take(j + 1)).last() == slice@[j as int] as int);
            vstd::arithmetic::power2::lemma_pow2_unfold((j + 1) as nat);
            if (j + 1) < 64 {
                lemma_pow2_strictly_increases((j + 1) as nat, 64);
            }
            crate::nums::lemma_pow2_64_value();
        }
        acc = acc * 2 + (if b > 0 {
            1
        } else {
            0
        });
        j = j + 1;
    }
    proof {
        assert(slice@.take(n as int) =~= slice@);
    }
    acc
}

impl IntegerSplit {
    /// Does any constraint of the split accept `v` under encoding `num`?
    pub fn satisfied_with_num(&self, v: &[i32], num: u64) -> (r: bool)
        requires
            forall|i: int| 0 <= i < self@.constraints.len() ==> (#[trigger] self@.constraints[i]).bounds_ok(),
        ensures
            r == spec_split_sat_num(self@, ints(v@), num as nat),
    {
        let n = self.constraints.len();
        let mut i: usize = 0;
        while i < n
            invariant
                0 <= i <= n,
                n == self.constraints.len(),
                forall|t: int|
                    0 <= t < self@.constraints.len() ==> (#[trigger] self@.constraints[t]).bounds_ok(),
                forall|t: int|
                    0 <= t < i ==> !spec_constraint_satisfied(
                        #[trigger] self@.constraints[t],
                        ints(v@),
                        num as nat,
                    ),
            decreases n - i,
        {
            let c = &self.constraints[i];
            proof {
                assert(self@.constraints[i as int] == c@);
            }
            if c.satisfied(v, num) {
                proof {
                    assert(spec_constraint_satisfied(self@.constraints[i as int], ints(v@), num as nat));
                }
                return true;
            }
            i = i + 1;
        }
        false
    }

    /// Does the split accept the signed literals `v`?
    pub fn satisfied(&self, v: &[i32]) -> (r: bool)
        requires
            v@.len() < 64,
            forall|i: int| 0 <= i < self@.constraints.len() ==> (#[trigger] self@.constraints[i]).bounds_ok(),
        ensures
            r == spec_split_sat(self@, ints(v@)),
    {
        let num = to_u64(v);
        self.satisfied_with_num(v, num)
    }

    /// How many of the `2^|vars|` candidate assignments of the split's own
    /// variables the split accepts. The reducer uses this as its chunk
    /// width, so the enumerator and the reducer agree by construction.
    pub fn nr_of_splits(&self) -> (r: usize)
        requires
            self@.wf(),
            self.vars@.len() <= 63,
            pow2(self.vars@.len() as nat) <= usize::MAX,
        ensures
            r == count_sat(self@, pow2(self@.vars.len())),
    {
        let k = self.vars.len();
        let n = pow2_u64(k as u64);
        let mut count: usize = 0;
        let mut i: u64 = 0;
        while i < n
            invariant
                0 <= i <= n,
                n == pow2(k as nat) <= usize::MAX,
                k == self.vars@.len() <= 63,
                self@.wf(),
                count == count_sat(self@, i as nat),
                count <= i,
            decreases n - i,
        {
            let mut v: Vec<i32> = Vec::new();
            let mut j: usize = 0;
            while j < k
                invariant
                    0 <= j <= k,
                    k <= 63,
                    v@.len() == j,
                    forall|t: int|
                        0 <= t < j ==> #[trigger] v@[t] as int == sign_vec(i as nat, k as nat)[t],
                decreases k - j,
            {
                let b = nbit_u64(i, (k - 1 - j) as u64);
                v.push(if b {
                    1
                } else {
                    -1
                });
                j = j + 1;
            }
            proof {
                assert(ints(v@) =~= sign_vec(i as nat, k as nat));
                assert(self@.vars.len() == k as nat);
            }
            if self.satisfied_with_num(v.as_slice(), i) {
                count = count + 1;
            }
            i = i + 1;
        }
        count
    }
}

/// The set of values named by the bit-pattern rows of an `Equals` target.
pub open spec fn row_value_set(rows: Seq<Seq<int>>) -> Set<nat>
    decreases rows.len(),
{
    if rows.len() == 0 {
        Set::empty()
    } else {
        row_value_set(rows.drop_last()).insert(row_to_num(rows.last()))
    }
}

proof fn lemma_row_value_set_finite(rows: Seq<Seq<int>>)
    ensures
        row_value_set(rows).finite(),
        row_value_set(rows).len() <= rows.len(),
    decreases rows.len(),
{
    if rows.len() > 0 {
        lemma_row_value_set_finite(rows.drop_last());
    }
}

proof fn lemma_row_value_set_contains(rows: Seq<Seq<int>>, v: nat)
    ensures
        row_value_set(rows).contains(v) <==> exists|j: int|
            0 <= j < rows.len() && row_to_num(#[trigger] rows[j]) == v,
    decreases rows.len(),
{
    if rows.len() > 0 {
        lemma_row_value_set_contains(rows.drop_last(), v);
        if row_to_num(rows.last()) == v {
            assert(row_to_num(rows[rows.len() - 1]) == v);
        } else if row_value_set(rows).contains(v) {
            let j = choose|j: int|
                0 <= j < rows.drop_last().len() && row_to_num(#[trigger] rows.drop_last()[j]) == v;
            assert(rows[j] == rows.drop_last()[j]);
        } else if exists|j: int| 0 <= j < rows.len() && row_to_num(#[trigger] rows[j]) == v {
            let j = choose|j: int| 0 <= j < rows.len() && row_to_num(#[trigger] rows[j]) == v;
            assert(j < rows.len() - 1);
            assert(rows.drop_last()[j] == rows[j]);
        }
    }
}

/// A bit-pattern row of width `k` matches the sign vector of index `i`
/// exactly when the row names the value `i`.
proof fn lemma_alt_match_value(alt: Seq<int>, k: nat, i: nat)
    requires
        bit_row_wf(alt, k as int),
        i < pow2(k),
    ensures
        spec_alt_matches(alt, sign_vec(i, k)) <==> row_to_num(alt) == i,
    decreases k,
{
    let ones = Seq::new(k, |j: int| 1int);
    let sv = sign_vec(i, k);
    if k == 0 {
        assert(pow2(0) == 1) by {
            lemma2_to64();
        }
        assert(row_to_num(alt) == 0);
    } else {
        crate::nums::lemma_assum_vec_halve(ones, i);
        let ones1 = Seq::new((k - 1) as nat, |j: int| 1int);
        assert(ones.drop_last() =~= ones1);
        let sv1 = sign_vec(i / 2, (k - 1) as nat);
        assert(sv.drop_last() =~= sv1);
        vstd::arithmetic::power2::lemma_pow2_unfold(k);
        assert(i / 2 < pow2((k - 1) as nat));
        lemma_alt_match_value(alt.drop_last(), (k - 1) as nat, i / 2);
        assert(bit_row_wf(alt.drop_last(), k as int - 1));
        // relate the full match to the match on the shortened row plus the
        // last position
        assert(sv.len() == k);
        assert(alt.len() == k);
        let lastc = ((alt.last() == 1 && sv.last() > 0) || (alt.last() == 0 && sv.last() < 0));
        assert(spec_alt_matches(alt, sv) <==> (spec_alt_matches(alt.drop_last(), sv1) && lastc))
            by {
            if spec_alt_matches(alt, sv) {
                assert forall|j: int|
                    0 <= j < alt.drop_last().len() && j < sv1.len() implies ((alt.drop_last()[j]
                    == 1 && sv1[j] > 0) || (alt.drop_last()[j] == 0 && sv1[j] < 0)) by {
                    assert(alt[j] == alt.drop_last()[j]);
                    assert(sv[j] == sv1[j]);
                }
                assert(alt[k - 1] == alt.last());
                assert(sv[k - 1] == sv.last());
            } else {
                if spec_alt_matches(alt.drop_last(), sv1) && lastc {
                    assert forall|j: int| 0 <= j < alt.len() && j < sv.len() implies ((alt[j] == 1
                        && sv[j] > 0) || (alt[j] == 0 && sv[j] < 0)) by {
                        if j < k - 1 {
                            assert(alt.drop_last()[j] == alt[j]);
                            assert(sv1[j] == sv[j]);
                        } else {
                            assert(alt[j] == alt.last());
                            assert(sv[j] == sv.last());
                        }
                    }
                    assert(false);
                }
            }
        }
        assert(sv.last() == (if nbit(i, 0) {
            1int
        } else {
            -1int
        }));
        assert(nbit(i, 0) == (i % 2 == 1)) by {
            lemma2_to64();
        }
        assert(row_to_num(alt) == 2 * row_to_num(alt.drop_last()) + (if alt.last() == 1 {
            1nat
        } else {
            0nat
        }));
        assert(alt.last() == 0 || alt.last() == 1);
        if spec_alt_matches(alt, sv) {
            assert(row_to_num(alt.drop_last()) == i / 2);
            assert((alt.last() == 1) == (i % 2 == 1));
        } else {
            if row_to_num(alt) == i {
                assert(2 * row_to_num(alt.drop_last()) + (if alt.last() == 1 {
                    1nat
                } else {
                    0nat
                }) == i);
                assert(row_to_num(alt.drop_last()) == i / 2 && ((alt.last() == 1) == (i % 2
                    == 1)));
                assert(false);
            }
        }
    }
}

proof fn lemma_count_less_than_upto(s: SplitModel, n: nat)
    requires
        s.wf(),
        s.constraints.len() == 1,
        s.constraints[0].kind == IntegerSplitKind::LessThan,
    ensures
        count_sat(s, n) == spec_min(s.constraints[0].target[0][0], n as int),
    decreases n,
{
    let b = s.constraints[0].target[0][0];
    if n > 0 {
        lemma_count_less_than_upto(s, (n - 1) as nat);
        let i = (n - 1) as nat;
        let sv = sign_vec(i, s.vars.len());
        if i < b {
            assert(spec_constraint_satisfied(s.constraints[0], sv, i));
            assert(spec_split_sat_num(s, sv, i));
        } else {
            assert forall|t: int| 0 <= t < s.constraints.len() implies !spec_constraint_satisfied(
                #[trigger] s.constraints[t],
                sv,
                i,
            ) by {}
        }
    }
}

/// With a single `LessThan b` constraint over `k` variables the split
/// accepts exactly `min(b, 2^k)` of its `2^k` candidate assignments.
pub proof fn lemma_nr_of_splits_less_than(s: SplitModel)
    requires
        s.wf(),
        s.constraints.len() == 1,
        s.constraints[0].kind == IntegerSplitKind::LessThan,
    ensures
        count_sat(s, pow2(s.vars.len())) == spec_min(
            s.constraints[0].target[0][0],
            pow2(s.vars.len()) as int,
        ),
{
    lemma_count_less_than_upto(s, pow2(s.vars.len()));
}

/// The values a split's enumeration index may take below `n`, restricted
/// to those its `Equals` rows name.
spec fn row_values_below(rows: Seq<Seq<int>>, n: nat) -> Set<nat> {
    Set::new(|v: nat| row_value_set(rows).contains(v) && v < n)
}

proof fn lemma_count_equals_upto(s: SplitModel, n: nat)
    requires
        s.wf(),
        s.constraints.len() == 1,
        s.constraints[0].kind == IntegerSplitKind::Equals,
        n <= pow2(s.vars.len()),
    ensures
        row_values_below(s.constraints[0].target, n).finite(),
        count_sat(s, n) == row_values_below(s.constraints[0].target, n).len(),
    decreases n,
{
    let rows = s.constraints[0].target;
    let k = s.vars.len();
    if n == 0 {
        assert(row_values_below(rows, 0) =~= Set::<nat>::empty());
    } else {
        lemma_count_equals_upto(s, (n - 1) as nat);
        let i = (n - 1) as nat;
        let sv = sign_vec(i, k);
        assert(i < pow2(k));
        assert(spec_split_sat_num(s, sv, i) <==> row_value_set(rows).contains(i)) by {
            lemma_row_value_set_contains(rows, i);
            if spec_split_sat_num(s, sv, i) {
                let t = choose|t: int|
                    0 <= t < s.constraints.len() && spec_constraint_satisfied(
                        #[trigger] s.constraints[t],
                        sv,
                        i,
                    );
                assert(t == 0);
                let a = choose|a: int|
                    0 <= a < rows.len() && spec_alt_matches(#[trigger] rows[a], sv);
                assert(bit_row_wf(rows[a], k as int));
                lemma_alt_match_value(rows[a], k, i);
            } else {
                if row_value_set(rows).contains(i) {
                    let j = choose|j: int|
                        0 <= j < rows.len() && row_to_num(#[trigger] rows[j]) == i;
                    assert(bit_row_wf(rows[j], k as int));
                    lemma_alt_match_value(rows[j], k, i);
                    assert(spec_constraint_satisfied(s.constraints[0], sv, i));
                }
            }
        }
        if row_value_set(rows).contains(i) {
            assert(row_values_below(rows, n) =~= row_values_below(rows, (n - 1) as nat).insert(i));
            assert(!row_values_below(rows, (n - 1) as nat).contains(i));
            vstd::set::axiom_set_insert_len(row_values_below(rows, (n - 1) as nat), i);
        } else {
            assert(row_values_below(rows, n) =~= row_values_below(rows, (n - 1) as nat));
        }
    }
}

/// With a single `Equals` constraint the split accepts exactly one
/// assignment for each distinct bit-pattern alternative: the number of
/// accepted assignments is the number of distinct values the rows name,
/// at most the number of rows and at most `2^k`.
pub proof fn lemma_nr_of_splits_equals(s: SplitModel)
    requires
        s.wf(),
        s.constraints.len() == 1,
        s.constraints[0].kind == IntegerSplitKind::Equals,
    ensures
        count_sat(s, pow2(s.vars.len())) == row_value_set(s.constraints[0].target).len(),
        row_value_set(s.constraints[0].target).len() <= s.constraints[0].target.len(),
        count_sat(s, pow2(s.vars.len())) <= pow2(s.vars.len()),
{
    let rows = s.constraints[0].target;
    let k = s.vars.len();
    lemma_count_equals_upto(s, pow2(k));
    lemma_row_value_set_finite(rows);
    assert(row_values_below(rows, pow2(k)) =~= row_value_set(rows)) by {
        assert forall|v: nat| row_value_set(rows).contains(v) implies v < pow2(k) by {
            lemma_row_value_set_contains(rows, v);
            let j = choose|j: int| 0 <= j < rows.len() && row_to_num(#[trigger] rows[j]) == v;
            assert(bit_row_wf(rows[j], k as int));
            lemma_row_to_num_bound(rows[j]);
        }
    }
    lemma_count_upper_bound(s, pow2(k));
}

proof fn lemma_count_upper_bound(s: SplitModel, n: nat)
    ensures
        count_sat(s, n) <= n,
    decreases n,
{
    if n > 0 {
        lemma_count_upper_bound(s, (n - 1) as nat);
    }
}

/// Is the candidate vector for index `idx` accepted by every split of the
/// run, each judging its own section of the vector?
pub open spec fn spec_vec_accepted(splits: Seq<SplitModel>, idx: nat) -> bool {
    forall|k: int|
        0 <= k < splits.len() ==> spec_split_sat(
            #[trigger] splits[k],
            assum_vec(vars_concat(splits), idx).subrange(
                split_offset(splits, k),
                split_offset(splits, k) + splits[k].vars.len(),
            ),
        )
}

/// The accepted assumption vectors of the first `n` enumeration indices,
/// in ascending index order.
pub open spec fn emb_vecs(splits: Seq<SplitModel>, n: nat) -> Seq<Seq<int>>
    decreases n,
{
    if n == 0 {
        Seq::empty()
    } else {
        emb_vecs(splits, (n - 1) as nat) + (if spec_vec_accepted(splits, (n - 1) as nat) {
            seq![assum_vec(vars_concat(splits), (n - 1) as nat)]
        } else {
            Seq::empty()
        })
    }
}

proof fn lemma_alt_match_transfer(alt: Seq<int>, b1: Seq<int>, b2: Seq<int>)
    requires
        b1.len() == b2.len(),
        forall|j: int|
            #![trigger b1[j], b2[j]]
            0 <= j < b1.len() ==> ((b1[j] > 0) == (b2[j] > 0)) && ((b1[j] < 0) == (b2[j] < 0)),
        spec_alt_matches(alt, b1),
    ensures
        spec_alt_matches(alt, b2),
{
    assert forall|j: int|
        #![trigger alt[j], b2[j]]
        0 <= j < alt.len() && j < b2.len() implies ((alt[j] == 1 && b2[j] > 0) || (alt[j] == 0
        && b2[j] < 0)) by {
        assert(0 <= j < alt.len() && j < b1.len());
        assert((alt[j] == 1 && b1[j] > 0) || (alt[j] == 0 && b1[j] < 0));
    }
}

/// Two literal vectors that agree in length and sign satisfy the same
/// constraints under the same encoding.
proof fn lemma_sat_same_signs(s: SplitModel, bits1: Seq<int>, bits2: Seq<int>, num: nat)
    requires
        bits1.len() == bits2.len(),
        forall|j: int|
            #![trigger bits1[j], bits2[j]]
            0 <= j < bits1.len() ==> ((bits1[j] > 0) == (bits2[j] > 0)) && ((bits1[j] < 0) == (
            bits2[j] < 0)),
    ensures
        spec_split_sat_num(s, bits1, num) == spec_split_sat_num(s, bits2, num),
{
    assert forall|t: int| 0 <= t < s.constraints.len() implies (spec_constraint_satisfied(
        #[trigger] s.constraints[t],
        bits1,
        num,
    ) == spec_constraint_satisfied(s.constraints[t], bits2, num)) by {
        let c = s.constraints[t];
        if c.kind == IntegerSplitKind::Equals {
            assert forall|a: int| 0 <= a < c.target.len() implies (spec_alt_matches(
                #[trigger] c.target[a],
                bits1,
            ) == spec_alt_matches(c.target[a], bits2)) by {
                let alt = c.target[a];
                if spec_alt_matches(alt, bits1) {
                    lemma_alt_match_transfer(alt, bits1, bits2);
                }
                if spec_alt_matches(alt, bits2) {
                    lemma_alt_match_transfer(alt, bits2, bits1);
                }
            }
        }
    }
}

/// A single split, enumerated alone, accepts a candidate exactly when its
/// per-index count does: the enumerator and `nr_of_splits` agree.
proof fn lemma_single_split_accepted(s: SplitModel, i: nat)
    requires
        s.wf(),
        i < pow2(s.vars.len()),
    ensures
        spec_vec_accepted(seq![s], i) == spec_split_sat_num(s, sign_vec(i, s.vars.len()), i),
{
    let ss = seq![s];
    let k = s.vars.len();
    assert(ss.drop_last().len() == 0);
    assert(vars_concat(ss.drop_last()) =~= Seq::<int>::empty());
    assert(ss.last() == s);
    assert(vars_concat(ss) =~= s.vars);
    let av = assum_vec(s.vars, i);
    assert(split_offset(ss, 0) == 0) by {
        assert(ss.take(0).len() == 0);
    }
    assert(av.subrange(0, s.vars.len() as int) =~= av);
    lemma_assum_vec_value(s.vars, i);
    let sv = sign_vec(i, k);
    assert(av.len() == sv.len());
    assert forall|j: int| 0 <= j < av.len() implies ((#[trigger] av[j] > 0) == (#[trigger] sv[j]
        > 0)) && ((av[j] < 0) == (sv[j] < 0)) by {
        assert(s.vars[j] >= 1);
        assert(Seq::new(k, |t: int| 1int)[j] == 1);
    }
    lemma_sat_same_signs(s, av, sv, i);
    if spec_vec_accepted(ss, i) {
        assert(spec_split_sat(ss[0], av.subrange(0, s.vars.len() as int)));
        assert(spec_split_sat_num(s, av, i));
    } else {
        if spec_split_sat_num(s, sv, i) {
            assert forall|t: int| 0 <= t < ss.len() implies spec_split_sat(
                #[trigger] ss[t],
                assum_vec(vars_concat(ss), i).subrange(
                    split_offset(ss, t),
                    split_offset(ss, t) + ss[t].vars.len(),
                ),
            ) by {
                assert(t == 0);
                assert(spec_split_sat_num(s, av, i));
            }
            assert(false);
        }
    }
}

proof fn lemma_enumerate_alone_upto(s: SplitModel, n: nat)
    requires
        s.wf(),
        n <= pow2(s.vars.len()),
    ensures
        emb_vecs(seq![s], n).len() == count_sat(s, n),
    decreases n,
{
    if n > 0 {
        lemma_enumerate_alone_upto(s, (n - 1) as nat);
        lemma_single_split_accepted(s, (n - 1) as nat);
    }
}

/// A declared split, enumerated alone over its own variables, yields
/// exactly `nr_of_splits` assumption vectors: the chunk width the reducer
/// uses matches what the enumerator emits for that split.
pub proof fn lemma_enumerate_alone_agrees(s: SplitModel)
    requires
        s.wf(),
    ensures
        emb_vecs(seq![s], pow2(s.vars.len())).len() == count_sat(s, pow2(s.vars.len())),
{
    lemma_enumerate_alone_upto(s, pow2(s.vars.len()));
}

/// The largest run of splits whose variables together fit the depth
/// budget: total bit width and number of splits taken.
pub open spec fn spec_fit(splits: Seq<SplitModel>, d: int) -> (int, int)
    decreases splits.len(),
{
    if splits.len() == 0 {
        (0int, 0int)
    } else if splits[0].vars.len() <= d {
        let r = spec_fit(splits.drop_first(), d - splits[0].vars.len());
        (splits[0].vars.len() + r.0, 1 + r.1)
    } else {
        (0int, 0int)
    }
}

pub proof fn lemma_fit_props(splits: Seq<SplitModel>, d: int)
    ensures
        0 <= spec_fit(splits, d).1 <= splits.len(),
        spec_fit(splits, d).0 == vars_concat(splits.take(spec_fit(splits, d).1)).len(),
        spec_fit(splits, d).0 <= (if d >= 0 {
            d
        } else {
            0
        }),
    decreases splits.len(),
{
    if splits.len() == 0 {
        assert(splits.take(0).len() == 0);
    } else if splits[0].vars.len() <= d {
        let l = splits[0].vars.len() as int;
        lemma_fit_props(splits.drop_first(), d - l);
        let r = spec_fit(splits.drop_first(), d - l);
        let tk = splits.take(1 + r.1);
        assert(tk.len() == 1 + r.1);
        crate::types::lemma_vars_concat_head(tk);
        assert(tk[0] == splits[0]);
        assert(tk.drop_first() =~= splits.drop_first().take(r.1));
    } else {
        assert(splits.take(0).len() == 0);
    }
}

/// The enumeration bit depth stays inside one machine word.
pub open spec fn split_depth_ok(f: FormulaModel, depth: int) -> bool {
    if f.splits.len() > 0 {
        spec_fit(f.splits, depth).0 <= 63
    } else {
        spec_min(depth, f.prefix.len() as int) <= 63
    }
}

/// The assumption vectors a formula produces at the given depth: the
/// filtered embedded enumeration when splits are declared or synthesized,
/// the naive prefix expansion otherwise.
pub open spec fn spec_produce_splits(f: FormulaModel, depth: int) -> Seq<Seq<int>> {
    if f.splits.len() > 0 {
        emb_vecs(
            f.splits.take(spec_fit(f.splits, depth).1),
            pow2(spec_fit(f.splits, depth).0 as nat),
        )
    } else {
        let d = spec_min(depth, f.prefix.len() as int);
        Seq::new(pow2(d as nat), |i: int| lsb_vec(f.prefix_abs().take(d), i as nat))
    }
}

impl Formula {
    /// The total bit width available to embedded splitting.
    pub fn embedded_splits_max_depth(&self) -> (r: usize)
        requires
            vars_concat(self@.splits).len() <= usize::MAX,
        ensures
            r == vars_concat(self@.splits).len(),
    {
        let n = self.splits.len();
        let mut sum: usize = 0;
        let mut i: usize = 0;
        while i < n
            invariant
                0 <= i <= n,
                n == self.splits.len(),
                vars_concat(self@.splits).len() <= usize::MAX,
                sum == vars_concat(self@.splits.take(i as int)).len(),
            decreases n - i,
        {
            let s = &self.splits[i];
            proof {
                assert(self@.splits[i as int] == s@);
                crate::types::lemma_vars_concat_snoc(self@.splits, i as int);
                crate::types::lemma_vars_concat_take_prefix(self@.splits, i + 1);
            }
            sum = sum + s.vars.len();
            i = i + 1;
        }
        proof {
            assert(self@.splits.take(n as int) =~= self@.splits);
        }
        sum
    }

    /// The largest run of splits whose total width fits the requested
    /// depth: returns the width taken and how many splits it spans.
    pub fn embedded_splits_round_fitting(&self, d: i64) -> (r: (u64, u64))
        ensures
            r.0 == spec_fit(self@.splits, d as int).0,
            r.1 == spec_fit(self@.splits, d as int).1,
    {
        if d < 0 {
            proof {
                if self@.splits.len() > 0 {
                    assert(!(self@.splits[0].vars.len() <= d));
                }
            }
            return (0, 0);
        }
        let mut budget: u64 = d as u64;
        let mut bd: u64 = 0;
        let mut sc: u64 = 0;
        let n = self.splits.len();
        proof {
            assert(self@.splits.skip(0) =~= self@.splits);
        }
        let mut i: usize = 0;
        while i < n
            invariant
                0 <= i <= n,
                n == self.splits.len(),
                d >= 0,
                bd + budget == d as u64,
                spec_fit(self@.splits, d as int).0 == bd + spec_fit(
                    self@.splits.skip(i as int),
                    budget as int,
                ).0,
                spec_fit(self@.splits, d as int).1 == sc + spec_fit(
                    self@.splits.skip(i as int),
                    budget as int,
                ).1,
                sc <= i,
            decreases n - i,
        {
            let s = &self.splits[i];
            let l = s.vars.len();
            proof {
                assert(self@.splits.skip(i as int)[0] == self@.splits[i as int]);
                assert(self@.splits.skip(i as int).drop_first() =~= self@.splits.skip(i + 1));
                assert(self@.splits[i as int] == s@);
                lemma_fit_props(self@.splits.skip(i + 1), budget as int - l as int);
            }
            if (l as u64) <= budget {
                budget = budget - l as u64;
                bd = bd + l as u64;
                sc = sc + 1;
            } else {
                proof {
                    assert(spec_fit(self@.splits.skip(i as int), budget as int) == (0int, 0int));
                }
                return (bd, sc);
            }
            i = i + 1;
        }
        proof {
            assert(self@.splits.skip(n as int).len() == 0);
        }
        (bd, sc)
    }

    /// Prepares the candidate enumeration over the first `splits_depth`
    /// splits.
    #[verifier::rlimit(50)]
    fn iterate_possible_vars(&self, bit_depth: u64, splits_depth: u64) -> (r: FormulaVars)
        requires
            splits_depth <= self.splits@.len(),
            forall|k: int| 0 <= k < self@.splits.len() ==> (#[trigger] self@.splits[k]).wf(),
            bit_depth == vars_concat(self@.splits.take(splits_depth as int)).len(),
            bit_depth <= 63,
        ensures
            r.vars_model() == vars_concat(self@.splits.take(splits_depth as int)),
            r.current() == 0,
            r.max() == pow2(bit_depth as nat),
            r.wf(),
    {
        let ghost sm = self@.splits.take(splits_depth as int);
        let n_splits = self.splits.len();
        proof {
            assert(splits_depth <= n_splits as u64);
        }
        let sd = splits_depth as usize;
        let mut cv: Vec<i32> = Vec::new();
        let mut i: usize = 0;
        while i < sd
            invariant
                0 <= i <= sd,
                sd == splits_depth,
                splits_depth <= self.splits@.len(),
                forall|k: int| 0 <= k < self@.splits.len() ==> (#[trigger] self@.splits[k]).wf(),
                sm == self@.splits.take(splits_depth as int),
                cv@.len() == vars_concat(sm.take(i as int)).len(),
                forall|t: int|
                    0 <= t < cv@.len() ==> #[trigger] cv@[t] as int == vars_concat(sm)[t]
                        && 0 <= t < vars_concat(sm).len(),
            decreases sd - i,
        {
            let s = &self.splits[i];
            let m = s.vars.len();
            proof {
                assert(self@.splits[i as int] == s@);
                assert(sm[i as int] == s@);
                crate::types::lemma_vars_concat_snoc(sm, i as int);
                crate::types::lemma_vars_concat_take_prefix(sm, i as int);
            }
            let mut j: usize = 0;
            while j < m
                invariant
                    0 <= j <= m,
                    0 <= i < sm.len(),
                    m == s.vars@.len(),
                    s@ == sm[i as int],
                    cv@.len() == vars_concat(sm.take(i as int)).len() + j,
                    forall|t: int|
                        0 <= t < cv@.len() ==> #[trigger] cv@[t] as int == vars_concat(sm)[t]
                            && 0 <= t < vars_concat(sm).len(),
                decreases m - j,
            {
                proof {
                    crate::types::lemma_vars_concat_index(sm, i as int, j as int);
                    assert(s@.vars[j as int] == s.vars@[j as int] as int);
                }
                cv.push(s.vars[j]);
                j = j + 1;
            }
            proof {
                crate::types::lemma_vars_concat_snoc(sm, i as int);
                assert(cv@.len() == vars_concat(sm.take(i + 1)).len());
            }
            i = i + 1;
        }
        proof {
            assert(sm.take(sd as int) =~= sm);
            assert(cv@.len() == vars_concat(sm).len());
            assert(ints(cv@) =~= vars_concat(sm));
            assert(forall|k: int| 0 <= k < sm.len() ==> (#[trigger] sm[k]).wf());
            crate::types::lemma_vars_concat_wf_entries(sm);
            assert forall|t: int| 0 <= t < cv@.len() implies 1 <= #[trigger] cv@[t] by {
                assert(1 <= vars_concat(sm)[t]);
            }
        }
        let m = pow2_u64(bit_depth);
        FormulaVars::new(cv, m)
    }

    /// Checks whether the split accepts its own section of the candidate
    /// vector.
    fn check_split_slice(s: &IntegerSplit, v: &Vec<i32>, begin: usize, m: usize) -> (r: bool)
        requires
            s@.wf(),
            m == s.vars@.len(),
            m < 64,
            begin + m <= v@.len(),
        ensures
            r == spec_split_sat(s@, ints(v@).subrange(begin as int, begin as int + m as int)),
    {
        let ghost av = ints(v@);
        let mut sub: Vec<i32> = Vec::new();
        let vlen = v.len();
        let mut t: usize = 0;
        while t < m
            invariant
                0 <= t <= m,
                begin + m <= vlen,
                vlen == v@.len(),
                av == ints(v@),
                sub@.len() == t,
                forall|u: int| 0 <= u < t ==> #[trigger] sub@[u] as int == av[begin + u],
            decreases m - t,
        {
            proof {
                assert(v@[begin + t] as int == av[begin as int + t as int]);
            }
            sub.push(v[begin + t]);
            t = t + 1;
        }
        proof {
            assert(ints(sub@) =~= av.subrange(begin as int, begin as int + m as int));
            assert(s@.wf());
            assert forall|c: int| 0 <= c < s@.constraints.len() implies (
            #[trigger] s@.constraints[c]).bounds_ok() by {
                assert(s@.constraints[c].wf(s@.vars.len() as int));
            }
            assert(sub@.len() == m < 64);
        }
        s.satisfied(sub.as_slice())
    }

    /// Enumerates and filters the candidate vectors of the first
    /// `splits_depth` splits over `bit_depth` bits.
    #[verifier::rlimit(100)]
    fn produce_splits_from_embedded(&self, bit_depth: u64, splits_depth: u64) -> (r: Vec<
        Vec<i32>,
    >)
        requires
            self.splits@.len() >= 1,
            splits_depth <= self.splits@.len(),
            forall|k: int| 0 <= k < self@.splits.len() ==> (#[trigger] self@.splits[k]).wf(),
            bit_depth == vars_concat(self@.splits.take(splits_depth as int)).len(),
            bit_depth <= 63,
        ensures
            vecs_model(r@) == emb_vecs(
                self@.splits.take(splits_depth as int),
                pow2(bit_depth as nat),
            ),
    {
        let ghost sm = self@.splits.take(splits_depth as int);
        let mut it = self.iterate_possible_vars(bit_depth, splits_depth);
        let n: u64 = pow2_u64(bit_depth);
        let n_splits = self.splits.len();
        proof {
            assert(splits_depth <= n_splits as u64);
        }
        let sd = splits_depth as usize;
        let mut out: Vec<Vec<i32>> = Vec::new();
        let mut idx: u64 = 0;
        while idx < n
            invariant
                it.wf(),
                it.vars_model() == vars_concat(sm),
                it.max() == n,
                it.current() == idx,
                0 <= idx <= n,
                n == pow2(bit_depth as nat),
                sd == splits_depth,
                sm == self@.splits.take(splits_depth as int),
                sm.len() == splits_depth <= self.splits@.len(),
                forall|k: int| 0 <= k < self@.splits.len() ==> (#[trigger] self@.splits[k]).wf(),
                bit_depth == vars_concat(sm).len() <= 63,
                vecs_model(out@) == emb_vecs(sm, idx as nat),
            decreases n - idx,
        {
            let v: Vec<i32> = match it.next() {
                Some(v) => v,
                None => {
                    return out;
                },
            };
            let ghost av = assum_vec(vars_concat(sm), idx as nat);
            proof {
                assert(ints(v@) == av);
                assert(v@.len() == av.len());
            }
            let mut ok = true;
            let mut k: usize = 0;
            let mut begin: usize = 0;
            while k < sd
                invariant
                    0 <= k <= sd,
                    sd == splits_depth,
                    sm == self@.splits.take(splits_depth as int),
                    sm.len() == splits_depth <= self.splits@.len(),
                    forall|t: int| 0 <= t < self@.splits.len() ==> (#[trigger] self@.splits[t]).wf(),
                    vars_concat(sm).len() <= 63,
                    ints(v@) == av,
                    av.len() == vars_concat(sm).len(),
                    v@.len() == av.len(),
                    begin == split_offset(sm, k as int),
                    begin <= av.len(),
                    ok == (forall|t: int|
                        0 <= t < k ==> spec_split_sat(
                            #[trigger] sm[t],
                            av.subrange(
                                split_offset(sm, t),
                                split_offset(sm, t) + sm[t].vars.len(),
                            ),
                        )),
                decreases sd - k,
            {
                let s = &self.splits[k];
                let m = s.vars.len();
                proof {
                    assert(self@.splits[k as int] == s@);
                    assert(sm[k as int] == s@);
                    crate::types::lemma_vars_concat_snoc(sm, k as int);
                    crate::types::lemma_vars_concat_take_prefix(sm, k as int + 1);
                    assert(split_offset(sm, k as int + 1) == begin + m);
                    assert(begin + m <= av.len());
                }
                if !Self::check_split_slice(s, &v, begin, m) {
                    ok = false;
                }
                begin = begin + m;
                k = k + 1;
            }
            proof {
                assert(sm.take(sd as int) =~= sm);
                if ok {
                    assert(spec_vec_accepted(sm, idx as nat));
                } else {
                    assert(!spec_vec_accepted(sm, idx as nat));
                }
            }
            if ok {
                let ghost prev = out@;
                proof {
                    crate::nums::lemma_vecs_model_push(prev, v);
                }
                out.push(v);
                proof {
                    assert(vecs_model(out@) =~= vecs_model(prev).push(av));
                }
            }
            proof {
                assert(vecs_model(out@) =~= emb_vecs(sm, idx as nat + 1));
            }
            idx = idx + 1;
        }
        out
    }

    /// Enumerates all assumption vectors over the first `min(bit_depth,
    /// |prefix|)` prefix variables, least significant bit first.
    #[verifier::rlimit(50)]
    fn produce_splits_from_prefix_expansion(&self, bit_depth: u64) -> (r: Vec<Vec<i32>>)
        requires
            self@.prefix_wf(),
            spec_min(bit_depth as int, self@.prefix.len() as int) <= 63,
        ensures
            vecs_model(r@) == Seq::new(
                pow2(spec_min(bit_depth as int, self@.prefix.len() as int) as nat),
                |i: int|
                    lsb_vec(
                        self@.prefix_abs().take(
                            spec_min(bit_depth as int, self@.prefix.len() as int),
                        ),
                        i as nat,
                    ),
            ),
    {
        let ghost d = spec_min(bit_depth as int, self@.prefix.len() as int);
        let ghost pa = self@.prefix_abs().take(d);
        let plen = self.prefix.len();
        let depth: usize = if bit_depth < plen as u64 {
            bit_depth as usize
        } else {
            plen
        };
        proof {
            assert(depth == d);
        }
        let n: u64 = pow2_u64(depth as u64);
        let mut out: Vec<Vec<i32>> = Vec::new();
        let mut idx: u64 = 0;
        while idx < n
            invariant
                0 <= idx <= n,
                n == pow2(d as nat),
                depth == d,
                depth <= self.prefix@.len(),
                d <= 63,
                self@.prefix_wf(),
                pa == self@.prefix_abs().take(d),
                vecs_model(out@) =~= Seq::new(idx as nat, |i: int| lsb_vec(pa, i as nat)),
            decreases n - idx,
        {
            let mut v: Vec<i32> = Vec::new();
            let mut j: usize = 0;
            while j < depth
                invariant
                    0 <= j <= depth,
                    depth == d,
                    depth <= self.prefix@.len(),
                    d <= 63,
                    self@.prefix_wf(),
                    pa == self@.prefix_abs().take(d),
                    v@.len() == j,
                    forall|t: int|
                        0 <= t < j ==> #[trigger] v@[t] as int == lsb_vec(pa, idx as nat)[t],
                decreases depth - j,
            {
                let b = nbit_u64(idx, j as u64);
                let p = self.prefix[j];
                proof {
                    assert(self@.prefix[j as int] == p as int);
                    assert(self@.prefix[j as int] != 0 && -i32::MAX <= self@.prefix[j as int]
                        <= i32::MAX);
                    assert(pa[j as int] == crate::nums::iabs(p as int));
                }
                let a: i32 = if p < 0 {
                    -p
                } else {
                    p
                };
                v.push(
                    if b {
                        a
                    } else {
                        -a
                    },
                );
                j = j + 1;
            }
            proof {
                assert(ints(v@) =~= lsb_vec(pa, idx as nat));
            }
            let ghost prev = out@;
            proof {
                crate::nums::lemma_vecs_model_push(prev, v);
            }
            out.push(v);
            proof {
                assert(vecs_model(out@) =~= vecs_model(prev).push(lsb_vec(pa, idx as nat)));
                assert(vecs_model(out@) =~= Seq::new(idx as nat + 1, |i: int| lsb_vec(pa, i as nat)));
            }
            idx = idx + 1;
        }
        out
    }

    /// Produces the ordered assumption vectors for the requested depth;
    /// the position of each vector is its split ID.
    pub fn produce_splits(&self, depth: u32) -> (r: Vec<Vec<i32>>)
        requires
            self@.wf(),
            split_depth_ok(self@, depth as int),
        ensures
            vecs_model(r@) == spec_produce_splits(self@, depth as int),
    {
        if self.splits.len() > 0 {
            let (rd, sc) = self.embedded_splits_round_fitting(depth as i64);
            proof {
                lemma_fit_props(self@.splits, depth as int);
            }
            self.produce_splits_from_embedded(rd, sc)
        } else {
            self.produce_splits_from_prefix_expansion(depth as u64)
        }
    }
}

proof fn lemma_fit_units(splits: Seq<SplitModel>, d: int)
    requires
        forall|k: int| 0 <= k < splits.len() ==> (#[trigger] splits[k]).vars.len() == 1,
        d >= 0,
    ensures
        spec_fit(splits, d) == (
            spec_min(d, splits.len() as int),
            spec_min(d, splits.len() as int),
        ),
    decreases splits.len(),
{
    if splits.len() > 0 {
        if d >= 1 {
            assert(forall|k: int|
                0 <= k < splits.drop_first().len() ==> (#[trigger] splits.drop_first()[k]).vars.len()
                    == 1);
            lemma_fit_units(splits.drop_first(), d - 1);
        }
    }
}

proof fn lemma_emb_all_accepted_len(splits: Seq<SplitModel>, n: nat)
    requires
        forall|i: nat| i < n ==> #[trigger] spec_vec_accepted(splits, i),
    ensures
        emb_vecs(splits, n).len() == n,
    decreases n,
{
    if n > 0 {
        lemma_emb_all_accepted_len(splits, (n - 1) as nat);
        assert(spec_vec_accepted(splits, (n - 1) as nat));
    }
}

proof fn lemma_vc_units_len(splits: Seq<SplitModel>)
    requires
        forall|k: int| 0 <= k < splits.len() ==> (#[trigger] splits[k]).vars.len() == 1,
    ensures
        vars_concat(splits).len() == splits.len(),
    decreases splits.len(),
{
    if splits.len() > 0 {
        lemma_vc_units_len(splits.drop_last());
        assert(splits.last() == splits[splits.len() - 1]);
    }
}

/// After default-splitter synthesis every formula becomes splittable: at
/// depth `d` it enumerates exactly `2^min(d, |prefix|, 64)` assumption
/// vectors, one per candidate assignment of the covered prefix variables.
#[verifier::rlimit(50)]
pub proof fn lemma_default_splitter_coverage(f: FormulaModel, depth: int)
    requires
        f.wf(),
        f.prefix.len() >= 1,
        depth >= 0,
        f.splits == synth_splits(f.prefix),
        spec_min(depth, spec_min(f.prefix.len() as int, 64)) <= 63,
    ensures
        split_depth_ok(f, depth),
        f.splits.len() == spec_min(f.prefix.len() as int, 64),
        spec_produce_splits(f, depth).len() == pow2(
            spec_min(depth, spec_min(f.prefix.len() as int, 64)) as nat,
        ),
{
    let n64 = spec_min(f.prefix.len() as int, 64);
    let m = spec_min(depth, n64);
    assert(f.splits.len() == n64);
    assert(forall|k: int| 0 <= k < f.splits.len() ==> (#[trigger] f.splits[k]).vars.len() == 1);
    lemma_fit_units(f.splits, depth);
    assert(spec_fit(f.splits, depth) == (m, m));
    let sm = f.splits.take(m);
    assert(forall|k: int| 0 <= k < sm.len() ==> (#[trigger] sm[k]).vars.len() == 1);
    lemma_vc_units_len(sm);
    assert(vars_concat(sm).len() == m);
    assert forall|i: nat| i < pow2(m as nat) implies #[trigger] spec_vec_accepted(sm, i) by {
        let av = assum_vec(vars_concat(sm), i);
        assert forall|k: int| 0 <= k < sm.len() implies spec_split_sat(
            #[trigger] sm[k],
            av.subrange(split_offset(sm, k), split_offset(sm, k) + sm[k].vars.len()),
        ) by {
            let tk = sm.take(k);
            assert(forall|t: int| 0 <= t < tk.len() ==> (#[trigger] tk[t]).vars.len() == 1);
            lemma_vc_units_len(tk);
            let off = split_offset(sm, k);
            assert(off == k);
            let sl = av.subrange(off, off + 1);
            assert(sl.len() == 1);
            assert(sl.drop_last() =~= Seq::<int>::empty());
            assert(bits_to_num(Seq::<int>::empty()) == 0);
            assert(bits_to_num(sl) == 2 * bits_to_num(sl.drop_last()) + (if sl.last() > 0 {
                1nat
            } else {
                0nat
            }));
            assert(bits_to_num(sl) <= 1);
            assert(sm[k] == f.splits[k]);
            assert(sm[k].constraints[0].kind == IntegerSplitKind::LessThan);
            assert(sm[k].constraints[0].target[0][0] == 2);
            assert(spec_constraint_satisfied(sm[k].constraints[0], sl, bits_to_num(sl)));
            assert(spec_split_sat_num(sm[k], sl, bits_to_num(sl)));
        }
    }
    lemma_emb_all_accepted_len(sm, pow2(m as nat));
}

} // verus!
