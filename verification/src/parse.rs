//! The QDIMACS parser: tokenizer, line parser for the QDIMACS superset
//! with integer-split directives, and the post-processing that infers split
//! variables, synthesizes the default splitter, and checks the formula
//! invariants.

use crate::nums::{digits_val, ints, is_digits, is_num_tok, num_val, str_eq, vecs_model};
use crate::types::{
    synth_splits, vars_concat, ConstraintModel, Formula, FormulaModel, IntegerSplit,
    IntegerSplitConstraint, IntegerSplitKind, SplitModel,
};
use vstd::arithmetic::power2::{lemma2_to64, lemma_pow2_strictly_increases, pow2};
use vstd::prelude::*;

verus! {

/// Unicode whitespace, as the grammar separates tokens.
pub open spec fn is_space(c: char) -> bool {
    ||| c == ' '
    ||| c == '\t'
    ||| c == '\n'
    ||| c == '\r'
    ||| c == '\x0b'
    ||| c == '\x0c'
    ||| c == '\u{85}'
    ||| c == '\u{a0}'
    ||| c == '\u{1680}'
    ||| ('\u{2000}' <= c && c <= '\u{200a}')
    ||| c == '\u{2028}'
    ||| c == '\u{2029}'
    ||| c == '\u{202f}'
    ||| c == '\u{205f}'
    ||| c == '\u{3000}'
}

fn is_space_char(c: char) -> (r: bool)
    ensures
        r == is_space(c),
{
    c == ' ' || c == '\t' || c == '\n' || c == '\r' || c == '\x0b' || c == '\x0c' || c == '\u{85}'
        || c == '\u{a0}' || c == '\u{1680}' || ('\u{2000}' <= c && c <= '\u{200a}') || c
        == '\u{2028}' || c == '\u{2029}' || c == '\u{202f}' || c == '\u{205f}' || c == '\u{3000}'
}

/// Where the tokenizer stands relative to line structure.
#[derive(Debug, Clone, Copy, PartialEq, Eq, Structural)]
pub enum Mode {
    /// No token seen since the last newline: a `c` here opens a comment.
    LineStart,
    /// Inside a comment: everything to the next newline is ignored.
    InComment,
    /// Behind a token of the current line.
    Mid,
}

/// The maximal run of non-whitespace characters at the front.
pub open spec fn tok_take(s: Seq<char>) -> Seq<char>
    decreases s.len(),
{
    if s.len() == 0 || is_space(s[0]) {
        Seq::empty()
    } else {
        seq![s[0]] + tok_take(s.drop_first())
    }
}

/// The whitespace-separated tokens of the text, with comment lines (a `c`
/// opening a line) dropped.
pub open spec fn spec_tokens(s: Seq<char>, m: Mode) -> Seq<Seq<char>>
    decreases s.len(),
    via spec_tokens_decreases
{
    if s.len() == 0 {
        Seq::empty()
    } else if m == Mode::InComment {
        spec_tokens(
            s.drop_first(),
            if s[0] == '\n' {
                Mode::LineStart
            } else {
                Mode::InComment
            },
        )
    } else if is_space(s[0]) {
        spec_tokens(
            s.drop_first(),
            if s[0] == '\n' {
                Mode::LineStart
            } else {
                m
            },
        )
    } else if m == Mode::LineStart && s[0] == 'c' {
        spec_tokens(s.drop_first(), Mode::InComment)
    } else {
        seq![tok_take(s)] + spec_tokens(s.skip(tok_take(s).len() as int), Mode::Mid)
    }
}

#[via_fn]
proof fn spec_tokens_decreases(s: Seq<char>, m: Mode) {
    if s.len() != 0 && m != Mode::InComment && !is_space(s[0]) && !(m == Mode::LineStart && s[0]
        == 'c') {
        assert(tok_take(s) == seq![s[0]] + tok_take(s.drop_first()));
        assert(tok_take(s).len() >= 1);
        lemma_tok_take_len(s);
    }
}

proof fn lemma_tok_take_len(s: Seq<char>)
    ensures
        tok_take(s).len() <= s.len(),
    decreases s.len(),
{
    if s.len() > 0 && !is_space(s[0]) {
        lemma_tok_take_len(s.drop_first());
    }
}

/// The tokens of a sequence of strings.
pub open spec fn toks_model(v: Seq<String>) -> Seq<Seq<char>> {
    v.map_values(|t: String| t@)
}

/// If `s[start..j]` holds no whitespace and `j` is the end or a whitespace
/// position, the token at `start` is exactly `s[start..j]`.
proof fn lemma_tok_take_run(s: Seq<char>, start: int, j: int)
    requires
        0 <= start <= j <= s.len(),
        forall|u: int| start <= u < j ==> !is_space(#[trigger] s[u]),
        j == s.len() || is_space(s[j]),
    ensures
        tok_take(s.skip(start)) =~= s.subrange(start, j),
    decreases j - start,
{
    if start == j {
        if start < s.len() {
            assert(s.skip(start)[0] == s[start]);
        }
    } else {
        assert(s.skip(start)[0] == s[start]);
        assert(!is_space(s[start]));
        lemma_tok_take_run(s, start + 1, j);
        assert(s.skip(start).drop_first() =~= s.skip(start + 1));
        assert(tok_take(s.skip(start)) == seq![s[start]] + tok_take(s.skip(start + 1)));
    }
}

/// Splits the text into whitespace-separated tokens, dropping comment
/// lines.
pub fn tokenize(s: &str) -> (r: Vec<String>)
    ensures
        toks_model(r@) == spec_tokens(s@, Mode::LineStart),
{
    let n = s.unicode_len();
    let mut out: Vec<String> = Vec::new();
    let mut mode = Mode::LineStart;
    proof {
        assert(s@.skip(0) =~= s@);
        assert(toks_model(out@) =~= Seq::<Seq<char>>::empty());
        assert(toks_model(out@) + spec_tokens(s@, Mode::LineStart) =~= spec_tokens(
            s@,
            Mode::LineStart,
        ));
    }
    let mut i: usize = 0;
    while i < n
        invariant
            0 <= i <= n,
            n == s@.len(),
            spec_tokens(s@, Mode::LineStart) =~= toks_model(out@) + spec_tokens(
                s@.skip(i as int),
                mode,
            ),
        decreases n - i,
    {
        let c = s.get_char(i);
        proof {
            assert(s@.skip(i as int)[0] == s@[i as int]);
            assert(s@.skip(i as int).drop_first() =~= s@.skip(i as int + 1));
        }
        match mode {
            Mode::InComment => {
                if c == '\n' {
                    mode = Mode::LineStart;
                }
                i = i + 1;
            },
            _ => {
                if is_space_char(c) {
                    if c == '\n' {
                        mode = Mode::LineStart;
                    }
                    i = i + 1;
                } else {
                    let line_start = match mode {
                        Mode::LineStart => true,
                        _ => false,
                    };
                    if line_start && c == 'c' {
                        mode = Mode::InComment;
                        i = i + 1;
                    } else {
                        let start = i;
                        let mut j: usize = i;
                        while j < n && !is_space_char(s.get_char(j))
                            invariant
                                start <= j <= n,
                                n == s@.len(),
                                forall|u: int| start <= u < j ==> !is_space(#[trigger] s@[u]),
                            decreases n - j,
                        {
                            j = j + 1;
                        }
                        proof {
                            lemma_tok_take_run(s@, start as int, j as int);
                        }
                        let piece = s.substring_char(start, j);
                        let tok = String::from_str(piece);
                        let ghost prev = out@;
                        out.push(tok);
                        proof {
                            assert(toks_model(out@) =~= toks_model(prev).push(
                                s@.subrange(start as int, j as int),
                            ));
                            assert(tok_take(s@.skip(start as int)).len() == j - start);
                            assert(s@.skip(start as int).skip(j - start) =~= s@.skip(j as int));
                        }
                        i = j;
                        mode = Mode::Mid;
                    }
                }
            },
        }
    }
    proof {
        assert(spec_tokens(s@.skip(n as int), mode) =~= Seq::<Seq<char>>::empty());
        assert(toks_model(out@) =~= toks_model(out@) + Seq::<Seq<char>>::empty());
    }
    out
}

/// The ceiling of the base-2 logarithm: the least `k` with `2^k >= v`.
pub open spec fn clog2(v: int) -> int
    decreases v,
{
    if v <= 1 {
        0
    } else {
        1 + clog2((v + 1) / 2)
    }
}

proof fn lemma_clog2_char(v: int)
    requires
        v >= 1,
    ensures
        clog2(v) >= 0,
        pow2(clog2(v) as nat) >= v,
        clog2(v) == 0 || pow2((clog2(v) - 1) as nat) < v,
        clog2(v) <= v,
    decreases v,
{
    if v <= 1 {
        assert(pow2(0) == 1) by {
            lemma2_to64();
        }
    } else {
        let h = (v + 1) / 2;
        assert(1 <= h < v);
        lemma_clog2_char(h);
        let k = clog2(h);
        vstd::arithmetic::power2::lemma_pow2_unfold((k + 1) as nat);
        assert(pow2((k + 1) as nat) == 2 * pow2(k as nat));
        assert(2 * pow2(k as nat) >= 2 * h) by (nonlinear_arith)
            requires
                pow2(k as nat) >= h,
        ;
        assert(2 * h >= v);
        if k == 0 {
            assert(pow2(0) == 1) by {
                lemma2_to64();
            }
            assert(h == 1);
            assert(v == 2);
            assert(pow2(0) < v);
        } else {
            assert(pow2((k - 1) as nat) < h);
            vstd::arithmetic::power2::lemma_pow2_unfold(k as nat);
            assert(pow2(k as nat) == 2 * pow2((k - 1) as nat));
            assert(2 * pow2((k - 1) as nat) <= 2 * (h - 1)) by (nonlinear_arith)
                requires
                    pow2((k - 1) as nat) < h,
            ;
            assert(2 * (h - 1) < v);
        }
    }
}

/// The number of bits a comparison bound asks for: the ceiling base-2
/// logarithm of the bound, at least 1.
pub open spec fn spec_bound_bits(v: int) -> int {
    if clog2(v) < 1 {
        1
    } else {
        clog2(v)
    }
}

/// How many variables a `LessThan` or `GreaterThan` bound spans.
pub fn var_constraint_to_nr_of_bits(v: i32) -> (r: i32)
    requires
        v >= 1,
    ensures
        r == spec_bound_bits(v as int),
        1 <= r <= 32,
{
    proof {
        lemma_clog2_char(v as int);
        lemma2_to64();
    }
    let mut k: i32 = 0;
    let mut p: u64 = 1;
    while p < v as u64
        invariant
            0 <= k <= 31,
            p == pow2(k as nat),
            v >= 1,
            k == 0 || pow2((k - 1) as nat) < v,
        decreases 32 - k,
    {
        proof {
            lemma2_to64();
            vstd::arithmetic::power2::lemma_pow2_pos(k as nat);
            if k as nat + 1 < 64 {
                lemma_pow2_strictly_increases((k + 1) as nat, 64);
            }
            crate::nums::lemma_pow2_64_value();
            vstd::arithmetic::power2::lemma_pow2_unfold((k + 1) as nat);
            if k >= 31 {
                assert(pow2(31) == 0x80000000);
                assert(p >= 0x80000000);
                assert(v as u64 <= 0x7FFFFFFF);
                assert(false);
            }
        }
        p = p * 2;
        k = k + 1;
    }
    proof {
        // p == pow2(k) >= v and (k == 0 or pow2(k-1) < v): this pins k to clog2(v)
        let c = clog2(v as int);
        if k < c {
            assert(c >= 1);
            assert(pow2((c - 1) as nat) < v);
            if (k as int) < c - 1 {
                lemma_pow2_strictly_increases(k as nat, (c - 1) as nat);
            }
            assert(pow2(k as nat) <= pow2((c - 1) as nat));
            assert(false);
        }
        if k > c {
            assert(k >= 1);
            assert(pow2((k - 1) as nat) < v);
            if c < k - 1 {
                lemma_pow2_strictly_increases(c as nat, (k - 1) as nat);
            }
            assert(pow2(c as nat) <= pow2((k - 1) as nat));
            assert(false);
        }
    }
    if k < 1 {
        1
    } else {
        k
    }
}


/// Why a QDIMACS text was rejected.
#[derive(Debug, Clone, Copy, PartialEq, Eq, Structural)]
pub enum ParseError {
    /// No `p cnf` header line.
    MissingHeader,
    /// More than one `p cnf` header line.
    DuplicateHeader,
    /// A malformed `p cnf` header line.
    BadHeader,
    /// A quantifier block holds something besides positive integers, or a
    /// prefix entry is unusable.
    BadQuantVar,
    /// A quantifier block with no variables.
    EmptyQuantBlock,
    /// A clause token is not a usable signed integer.
    BadClauseLiteral,
    /// A clause with no literals.
    EmptyClause,
    /// An integer-split token where a comparator was expected.
    BadComparator,
    /// A comparison constraint without a usable bound.
    MissingBound,
    /// An `=` constraint without any bit-pattern alternative.
    EmptyEquals,
    /// Bit-pattern alternatives of unequal length, or alternatives that do
    /// not span the split's variables.
    UnequalAlternatives,
    /// An integer split with no constraints before its terminator.
    NoConstraints,
    /// The input ended inside a quantifier block, clause, split, or header.
    UnterminatedInput,
    /// A split needs more prefix variables than the prefix has.
    SplitBeyondPrefix,
    /// The split variables, concatenated, are not an initial segment of the
    /// prefix.
    SplitVarsNotPrefix,
    /// A split spans more than one quantifier block.
    SplitAcrossBlocks,
    /// A matrix literal lies outside the declared variable range.
    LiteralOutOfRange,
    /// The header clause count does not match the number of clauses.
    ClauseCountMismatch,
}

/// The state the line parser accumulates.
#[verifier::ext_equal]
pub ghost struct ParseSt {
    pub hdr: Option<(int, int)>,
    pub prefix: Seq<int>,
    pub matrix: Seq<Seq<int>>,
    pub splits: Seq<SplitModel>,
}

/// A token usable as a positive variable number.
pub open spec fn is_pnum_tok(t: Seq<char>) -> bool {
    is_digits(t) && 1 <= digits_val(t) <= i32::MAX
}

/// A token that terminates a quantifier block or clause.
pub open spec fn is_zero_tok(t: Seq<char>) -> bool {
    is_digits(t) && digits_val(t) == 0
}

/// A token usable as a clause literal or terminator.
pub open spec fn is_lit_tok(t: Seq<char>) -> bool {
    is_num_tok(t) && i32::MIN <= num_val(t) <= i32::MAX
}

/// A maximal run of `0`/`1` characters.
pub open spec fn is_binary_tok(t: Seq<char>) -> bool {
    t.len() >= 1 && forall|i: int| 0 <= i < t.len() ==> (#[trigger] t[i] == '0' || t[i] == '1')
}

/// The bit row a binary token names.
pub open spec fn row_bits(t: Seq<char>) -> Seq<int> {
    t.map_values(
        |c: char|
            if c == '1' {
                1int
            } else {
                0int
            },
    )
}

/// Reads the variables of one quantifier block up to its zero terminator.
pub open spec fn take_quant_vars(toks: Seq<Seq<char>>, j: int) -> Result<
    (Seq<int>, int),
    ParseError,
>
    decreases toks.len() - j,
{
    if j < 0 || j >= toks.len() {
        Err(ParseError::UnterminatedInput)
    } else {
        let t = toks[j];
        if is_zero_tok(t) {
            Ok((Seq::empty(), j + 1))
        } else if is_pnum_tok(t) {
            match take_quant_vars(toks, j + 1) {
                Ok((rest, nj)) => Ok((seq![digits_val(t) as int] + rest, nj)),
                Err(e) => Err(e),
            }
        } else {
            Err(ParseError::BadQuantVar)
        }
    }
}

proof fn lemma_take_quant_vars_pos(toks: Seq<Seq<char>>, j: int)
    ensures
        match take_quant_vars(toks, j) {
            Ok((vs, nj)) => j < nj <= toks.len(),
            Err(_) => true,
        },
    decreases toks.len() - j,
{
    if 0 <= j < toks.len() && !is_zero_tok(toks[j]) && is_pnum_tok(toks[j]) {
        lemma_take_quant_vars_pos(toks, j + 1);
    }
}

/// Reads the literals of one clause up to its zero terminator.
pub open spec fn take_clause_lits(toks: Seq<Seq<char>>, j: int) -> Result<
    (Seq<int>, int),
    ParseError,
>
    decreases toks.len() - j,
{
    if j < 0 || j >= toks.len() {
        Err(ParseError::UnterminatedInput)
    } else {
        let t = toks[j];
        if is_lit_tok(t) {
            if num_val(t) == 0 {
                Ok((Seq::empty(), j + 1))
            } else {
                match take_clause_lits(toks, j + 1) {
                    Ok((rest, nj)) => Ok((seq![num_val(t)] + rest, nj)),
                    Err(e) => Err(e),
                }
            }
        } else {
            Err(ParseError::BadClauseLiteral)
        }
    }
}

proof fn lemma_take_clause_lits_pos(toks: Seq<Seq<char>>, j: int)
    ensures
        match take_clause_lits(toks, j) {
            Ok((ls, nj)) => j < nj <= toks.len(),
            Err(_) => true,
        },
    decreases toks.len() - j,
{
    if 0 <= j < toks.len() && is_lit_tok(toks[j]) && num_val(toks[j]) != 0 {
        lemma_take_clause_lits_pos(toks, j + 1);
    }
}

/// Reads the declared variables of an integer split; stops before the
/// first token that is not a positive integer.
pub open spec fn take_is_vars(toks: Seq<Seq<char>>, j: int) -> (Seq<int>, int)
    decreases toks.len() - j,
{
    if j < 0 || j >= toks.len() {
        (Seq::empty(), j)
    } else if is_pnum_tok(toks[j]) {
        let (rest, nj) = take_is_vars(toks, j + 1);
        (seq![digits_val(toks[j]) as int] + rest, nj)
    } else {
        (Seq::empty(), j)
    }
}

proof fn lemma_take_is_vars_pos(toks: Seq<Seq<char>>, j: int)
    requires
        0 <= j <= toks.len(),
    ensures
        j <= take_is_vars(toks, j).1 <= toks.len(),
    decreases toks.len() - j,
{
    if j < toks.len() && is_pnum_tok(toks[j]) {
        lemma_take_is_vars_pos(toks, j + 1);
    }
}

/// Reads the bit-pattern alternatives of one `=` constraint; stops before
/// a non-binary token or the lone zero terminator.
pub open spec fn take_rows(toks: Seq<Seq<char>>, j: int) -> (Seq<Seq<int>>, int)
    decreases toks.len() - j,
{
    if j < 0 || j >= toks.len() {
        (Seq::empty(), j)
    } else if is_binary_tok(toks[j]) && toks[j] != "0"@ {
        let (rest, nj) = take_rows(toks, j + 1);
        (seq![row_bits(toks[j])] + rest, nj)
    } else {
        (Seq::empty(), j)
    }
}

proof fn lemma_take_rows_pos(toks: Seq<Seq<char>>, j: int)
    requires
        0 <= j <= toks.len(),
    ensures
        j <= take_rows(toks, j).1 <= toks.len(),
    decreases toks.len() - j,
{
    if j < toks.len() && is_binary_tok(toks[j]) && toks[j] != "0"@ {
        lemma_take_rows_pos(toks, j + 1);
    }
}

/// Do all rows share one length, taking the first row's length when no
/// width is fixed yet?
pub open spec fn rows_same_width(rows: Seq<Seq<int>>, width: int) -> bool {
    forall|i: int|
        0 <= i < rows.len() ==> (#[trigger] rows[i]).len() == (if width == 0 && rows.len() > 0 {
            rows[0].len() as int
        } else {
            width
        })
}

/// Reads the constraint groups of one integer split up to its zero
/// terminator, checking that all `=` alternatives of the split share one
/// bit length.
pub open spec fn take_groups(
    toks: Seq<Seq<char>>,
    j: int,
    width: int,
    acc: Seq<ConstraintModel>,
) -> Result<(Seq<ConstraintModel>, int), ParseError>
    decreases toks.len() - j,
    via take_groups_decreases
{
    if j < 0 || j >= toks.len() {
        Err(ParseError::UnterminatedInput)
    } else {
        let t = toks[j];
        if t == "<"@ || t == ">"@ {
            let kind = if t == "<"@ {
                IntegerSplitKind::LessThan
            } else {
                IntegerSplitKind::GreaterThan
            };
            if j + 1 >= toks.len() {
                Err(ParseError::UnterminatedInput)
            } else if is_pnum_tok(toks[j + 1]) {
                take_groups(
                    toks,
                    j + 2,
                    width,
                    acc.push(
                        ConstraintModel {
                            kind,
                            target: seq![seq![digits_val(toks[j + 1]) as int]],
                        },
                    ),
                )
            } else {
                Err(ParseError::MissingBound)
            }
        } else if t == "="@ {
            let (rows, nj) = take_rows(toks, j + 1);
            if rows.len() == 0 {
                Err(ParseError::EmptyEquals)
            } else if !rows_same_width(rows, width) {
                Err(ParseError::UnequalAlternatives)
            } else {
                take_groups(
                    toks,
                    nj,
                    if width == 0 {
                        rows[0].len() as int
                    } else {
                        width
                    },
                    acc.push(ConstraintModel { kind: IntegerSplitKind::Equals, target: rows }),
                )
            }
        } else if t == "0"@ {
            if acc.len() == 0 {
                Err(ParseError::NoConstraints)
            } else {
                Ok((acc, j + 1))
            }
        } else {
            Err(ParseError::BadComparator)
        }
    }
}

#[via_fn]
proof fn take_groups_decreases(toks: Seq<Seq<char>>, j: int, width: int, acc: Seq<ConstraintModel>) {
    if 0 <= j < toks.len() && toks[j] == "="@ {
        lemma_take_rows_pos(toks, j + 1);
    }
}

proof fn lemma_take_groups_pos(toks: Seq<Seq<char>>, j: int, width: int, acc: Seq<ConstraintModel>)
    ensures
        match take_groups(toks, j, width, acc) {
            Ok((cs, nj)) => j < nj <= toks.len(),
            Err(_) => true,
        },
    decreases toks.len() - j,
{
    if 0 <= j < toks.len() {
        let t = toks[j];
        if t == "<"@ || t == ">"@ {
            if j + 1 < toks.len() && is_pnum_tok(toks[j + 1]) {
                lemma_take_groups_pos(
                    toks,
                    j + 2,
                    width,
                    acc.push(
                        ConstraintModel {
                            kind: if t == "<"@ {
                                IntegerSplitKind::LessThan
                            } else {
                                IntegerSplitKind::GreaterThan
                            },
                            target: seq![seq![digits_val(toks[j + 1]) as int]],
                        },
                    ),
                );
            }
        } else if t == "="@ {
            lemma_take_rows_pos(toks, j + 1);
            let (rows, nj) = take_rows(toks, j + 1);
            if rows.len() > 0 && rows_same_width(rows, width) {
                lemma_take_groups_pos(
                    toks,
                    nj,
                    if width == 0 {
                        rows[0].len() as int
                    } else {
                        width
                    },
                    acc.push(ConstraintModel { kind: IntegerSplitKind::Equals, target: rows }),
                );
            }
        }
    }
}

/// Reads one whole integer-split line after its `IS` keyword.
pub open spec fn take_is(toks: Seq<Seq<char>>, j: int) -> Result<(SplitModel, int), ParseError> {
    let (vars, j2) = take_is_vars(toks, j);
    match take_groups(toks, j2, 0, Seq::empty()) {
        Ok((cs, nj)) => Ok((SplitModel { vars, constraints: cs }, nj)),
        Err(e) => Err(e),
    }
}

/// Parses the token stream item by item: header, quantifier blocks,
/// integer splits, and clauses.
pub open spec fn spec_parse_items(toks: Seq<Seq<char>>, j: int, st: ParseSt) -> Result<
    ParseSt,
    ParseError,
>
    decreases toks.len() - j,
    via spec_parse_items_decreases
{
    if j < 0 {
        Err(ParseError::UnterminatedInput)
    } else if j >= toks.len() {
        Ok(st)
    } else {
        let t = toks[j];
        if t == "p"@ {
            if st.hdr is Some {
                Err(ParseError::DuplicateHeader)
            } else if j + 3 >= toks.len() {
                Err(ParseError::BadHeader)
            } else if toks[j + 1] == "cnf"@ && is_digits(toks[j + 2]) && digits_val(toks[j + 2])
                <= i32::MAX && is_digits(toks[j + 3]) && digits_val(toks[j + 3]) <= i32::MAX {
                spec_parse_items(
                    toks,
                    j + 4,
                    ParseSt {
                        hdr: Some(
                            (digits_val(toks[j + 2]) as int, digits_val(toks[j + 3]) as int),
                        ),
                        ..st
                    },
                )
            } else {
                Err(ParseError::BadHeader)
            }
        } else if t == "a"@ || t == "e"@ {
            match take_quant_vars(toks, j + 1) {
                Ok((vars, nj)) => {
                    if vars.len() == 0 {
                        Err(ParseError::EmptyQuantBlock)
                    } else {
                        let entries = if t == "e"@ {
                            vars.map_values(|v: int| -v)
                        } else {
                            vars
                        };
                        spec_parse_items(toks, nj, ParseSt { prefix: st.prefix + entries, ..st })
                    }
                },
                Err(e) => Err(e),
            }
        } else if t == "IS"@ {
            match take_is(toks, j + 1) {
                Ok((s, nj)) => spec_parse_items(toks, nj, ParseSt { splits: st.splits.push(s), ..st }),
                Err(e) => Err(e),
            }
        } else {
            match take_clause_lits(toks, j) {
                Ok((lits, nj)) => {
                    if lits.len() == 0 {
                        Err(ParseError::EmptyClause)
                    } else {
                        spec_parse_items(toks, nj, ParseSt { matrix: st.matrix.push(lits), ..st })
                    }
                },
                Err(e) => Err(e),
            }
        }
    }
}

#[via_fn]
proof fn spec_parse_items_decreases(toks: Seq<Seq<char>>, j: int, st: ParseSt) {
    if 0 <= j < toks.len() {
        let t = toks[j];
        if t == "a"@ || t == "e"@ {
            lemma_take_quant_vars_pos(toks, j + 1);
        } else if t == "IS"@ {
            lemma_take_is_vars_pos(toks, j + 1);
            let (vars, j2) = take_is_vars(toks, j + 1);
            lemma_take_groups_pos(toks, j2, 0, Seq::empty());
        } else if !(t == "p"@) {
            lemma_take_clause_lits_pos(toks, j);
        }
    }
}

/// Replaces empty `vars` lists by the next unclaimed run of prefix
/// variables, its width inferred from the first constraint.
pub open spec fn infer_splits(splits: Seq<SplitModel>, prefix: Seq<int>, cursor: int) -> Result<
    Seq<SplitModel>,
    ParseError,
>
    decreases splits.len(),
{
    if splits.len() == 0 {
        Ok(Seq::empty())
    } else {
        let s = splits[0];
        if s.constraints.len() == 0 {
            Err(ParseError::NoConstraints)
        } else if s.vars.len() == 0 {
            let c = s.constraints[0];
            let w_or_err: Result<int, ParseError> = match c.kind {
                IntegerSplitKind::LessThan | IntegerSplitKind::GreaterThan => {
                    if c.target.len() >= 1 && c.target[0].len() >= 1 && 1 <= c.target[0][0] {
                        Ok(spec_bound_bits(c.target[0][0]))
                    } else {
                        Err(ParseError::MissingBound)
                    }
                },
                IntegerSplitKind::Equals => {
                    if c.target.len() >= 1 {
                        Ok(c.target[0].len() as int)
                    } else {
                        Err(ParseError::EmptyEquals)
                    }
                },
            };
            match w_or_err {
                Err(e) => Err(e),
                Ok(w) => {
                    if cursor < 0 || cursor + w > prefix.len() {
                        Err(ParseError::SplitBeyondPrefix)
                    } else {
                        let vars = prefix.subrange(cursor, cursor + w).map_values(
                            |e: int| crate::nums::iabs(e),
                        );
                        match infer_splits(splits.drop_first(), prefix, cursor + w) {
                            Ok(rest) => Ok(
                                seq![SplitModel { vars, constraints: s.constraints }] + rest,
                            ),
                            Err(e) => Err(e),
                        }
                    }
                },
            }
        } else {
            match infer_splits(splits.drop_first(), prefix, cursor + s.vars.len()) {
                Ok(rest) => Ok(seq![s] + rest),
                Err(e) => Err(e),
            }
        }
    }
}

/// Every split of the run is well-formed.
pub open spec fn all_splits_wf(splits: Seq<SplitModel>) -> bool {
    forall|k: int| 0 <= k < splits.len() ==> (#[trigger] splits[k]).wf()
}

/// Post-processing and the invariant checks: width inference, default
/// splitter synthesis, and the formula consistency conditions.
pub open spec fn spec_postprocess(st: ParseSt) -> Result<FormulaModel, ParseError> {
    match st.hdr {
        None => Err(ParseError::MissingHeader),
        Some((v, c)) => {
            match infer_splits(st.splits, st.prefix, 0) {
                Err(e) => Err(e),
                Ok(splits1) => {
                    let splits2 = if splits1.len() == 0 && st.prefix.len() > 0 {
                        synth_splits(st.prefix)
                    } else {
                        splits1
                    };
                    let f = FormulaModel {
                        splits: splits2,
                        prefix: st.prefix,
                        matrix: st.matrix,
                        nr_of_variables: v,
                        nr_of_clauses: c,
                    };
                    if c != st.matrix.len() {
                        Err(ParseError::ClauseCountMismatch)
                    } else if !f.matrix_wf() {
                        Err(ParseError::LiteralOutOfRange)
                    } else if !all_splits_wf(splits2) {
                        Err(ParseError::UnequalAlternatives)
                    } else if !f.splits_cover_prefix() {
                        Err(ParseError::SplitVarsNotPrefix)
                    } else if !f.splits_single_block() {
                        Err(ParseError::SplitAcrossBlocks)
                    } else if !f.prefix_wf() {
                        Err(ParseError::BadQuantVar)
                    } else {
                        Ok(f)
                    }
                },
            }
        },
    }
}

/// What parsing a whole QDIMACS text yields.
pub open spec fn spec_parse_qdimacs(input: Seq<char>) -> Result<FormulaModel, ParseError> {
    let init = ParseSt {
        hdr: None,
        prefix: Seq::empty(),
        matrix: Seq::empty(),
        splits: Seq::empty(),
    };
    match spec_parse_items(spec_tokens(input, Mode::LineStart), 0, init) {
        Ok(st) => spec_postprocess(st),
        Err(e) => Err(e),
    }
}


/// Classifies a token as a run of digits, saturating its value.
fn classify_digits(t: &String) -> (r: Option<u64>)
    ensures
        match r {
            Some(v) => is_digits(t@) && v == crate::nums::min_u64(digits_val(t@)),
            None => !is_digits(t@),
        },
{
    crate::nums::digits_of_str(t.as_str())
}

/// Reads a binary token as a bit row; `None` when the token holds other
/// characters or is empty.
fn binary_row(t: &String) -> (r: Option<Vec<i32>>)
    ensures
        match r {
            Some(row) => is_binary_tok(t@) && ints(row@) == row_bits(t@),
            None => !is_binary_tok(t@),
        },
{
    let s = t.as_str();
    let n = s.unicode_len();
    if n == 0 {
        return None;
    }
    let mut row: Vec<i32> = Vec::new();
    let mut i: usize = 0;
    while i < n
        invariant
            0 <= i <= n,
            n == s@.len(),
            s@ == t@,
            row@.len() == i,
            forall|u: int| 0 <= u < i ==> (#[trigger] t@[u] == '0' || t@[u] == '1'),
            forall|u: int|
                0 <= u < i ==> #[trigger] row@[u] as int == (if t@[u] == '1' {
                    1int
                } else {
                    0int
                }),
        decreases n - i,
    {
        let c = s.get_char(i);
        if c == '1' {
            row.push(1);
        } else if c == '0' {
            row.push(0);
        } else {
            return None;
        }
        i = i + 1;
    }
    proof {
        assert(ints(row@) =~= row_bits(t@));
    }
    Some(row)
}

/// Reads the variables of one quantifier block, mirroring
/// [`take_quant_vars`].
fn read_quant_vars(toks: &Vec<String>, j: usize) -> (r: Result<(Vec<i32>, usize), ParseError>)
    requires
        j <= toks@.len(),
    ensures
        match (r, take_quant_vars(toks_model(toks@), j as int)) {
            (Ok((vars, nj)), Ok((svars, snj))) => ints(vars@) == svars && nj == snj && j < nj
                <= toks@.len(),
            (Err(e1), Err(e2)) => e1 == e2,
            _ => false,
        },
{
    let ghost tm = toks_model(toks@);
    let n = toks.len();
    let mut acc: Vec<i32> = Vec::new();
    let mut jc: usize = j;
    proof {
        lemma_take_quant_vars_pos(tm, j as int);
    }
    loop
        invariant
            j <= jc <= n,
            n == toks@.len(),
            tm == toks_model(toks@),
            take_quant_vars(tm, j as int) == (match take_quant_vars(tm, jc as int) {
                Ok((rest, nj)) => Ok::<(Seq<int>, int), ParseError>((ints(acc@) + rest, nj)),
                Err(e) => Err(e),
            }),
        decreases n - jc,
    {
        if jc >= n {
            proof {
                assert(take_quant_vars(tm, jc as int) == Err::<(Seq<int>, int), ParseError>(
                    ParseError::UnterminatedInput,
                ));
            }
            return Err(ParseError::UnterminatedInput);
        }
        let t = &toks[jc];
        proof {
            assert(tm[jc as int] == t@);
        }
        match classify_digits(t) {
            Some(v) => {
                if v == 0 {
                    proof {
                        assert(is_zero_tok(tm[jc as int]));
                        assert(take_quant_vars(tm, jc as int) == Ok::<(Seq<int>, int), ParseError>(
                            (Seq::<int>::empty(), jc as int + 1),
                        ));
                        assert(ints(acc@) + Seq::<int>::empty() =~= ints(acc@));
                        lemma_take_quant_vars_pos(tm, j as int);
                    }
                    return Ok((acc, jc + 1));
                } else if v <= 0x7FFF_FFFFu64 {
                    proof {
                        assert(digits_val(t@) == v);
                        assert(is_pnum_tok(tm[jc as int]));
                        assert(!is_zero_tok(tm[jc as int]));
                    }
                    let ghost prev = acc@;
                    acc.push(v as i32);
                    proof {
                        crate::nums::lemma_ints_push(prev, (v as i32));
                        assert forall|rest: Seq<int>|
                            true implies ints(acc@) + rest =~= ints(prev) + (seq![
                            digits_val(t@) as int,
                        ] + rest) by {}
                    }
                    jc = jc + 1;
                } else {
                    proof {
                        if digits_val(t@) <= i32::MAX {
                            assert(crate::nums::min_u64(digits_val(t@)) <= i32::MAX);
                        }
                        assert(!is_pnum_tok(tm[jc as int]));
                        assert(!is_zero_tok(tm[jc as int]));
                        assert(take_quant_vars(tm, jc as int) == Err::<(Seq<int>, int), ParseError>(
                            ParseError::BadQuantVar,
                        ));
                    }
                    return Err(ParseError::BadQuantVar);
                }
            },
            None => {
                proof {
                    assert(!is_pnum_tok(tm[jc as int]));
                    assert(!is_zero_tok(tm[jc as int]));
                    assert(take_quant_vars(tm, jc as int) == Err::<(Seq<int>, int), ParseError>(
                        ParseError::BadQuantVar,
                    ));
                }
                return Err(ParseError::BadQuantVar);
            },
        }
    }
}

/// Reads the literals of one clause, mirroring [`take_clause_lits`].
fn read_clause_lits(toks: &Vec<String>, j: usize) -> (r: Result<(Vec<i32>, usize), ParseError>)
    requires
        j <= toks@.len(),
    ensures
        match (r, take_clause_lits(toks_model(toks@), j as int)) {
            (Ok((lits, nj)), Ok((slits, snj))) => ints(lits@) == slits && nj == snj && j < nj
                <= toks@.len(),
            (Err(e1), Err(e2)) => e1 == e2,
            _ => false,
        },
{
    let ghost tm = toks_model(toks@);
    let n = toks.len();
    let mut acc: Vec<i32> = Vec::new();
    let mut jc: usize = j;
    loop
        invariant
            j <= jc <= n,
            n == toks@.len(),
            tm == toks_model(toks@),
            take_clause_lits(tm, j as int) == (match take_clause_lits(tm, jc as int) {
                Ok((rest, nj)) => Ok::<(Seq<int>, int), ParseError>((ints(acc@) + rest, nj)),
                Err(e) => Err(e),
            }),
        decreases n - jc,
    {
        if jc >= n {
            return Err(ParseError::UnterminatedInput);
        }
        let t = &toks[jc];
        proof {
            assert(tm[jc as int] == t@);
        }
        match crate::nums::parse_i32(t.as_str()) {
            Some(v) => {
                proof {
                    assert(is_lit_tok(tm[jc as int]));
                }
                if v == 0 {
                    proof {
                        assert(ints(acc@) + Seq::<int>::empty() =~= ints(acc@));
                    }
                    return Ok((acc, jc + 1));
                } else {
                    let ghost prev = acc@;
                    acc.push(v);
                    proof {
                        crate::nums::lemma_ints_push(prev, v);
                        assert forall|rest: Seq<int>|
                            true implies ints(acc@) + rest =~= ints(prev) + (seq![num_val(t@)]
                            + rest) by {}
                    }
                    jc = jc + 1;
                }
            },
            None => {
                proof {
                    assert(!is_lit_tok(tm[jc as int]));
                }
                return Err(ParseError::BadClauseLiteral);
            },
        }
    }
}

/// Reads the declared variables of an integer split, mirroring
/// [`take_is_vars`].
fn read_is_vars(toks: &Vec<String>, j: usize) -> (r: (Vec<i32>, usize))
    requires
        j <= toks@.len(),
    ensures
        ints(r.0@) == take_is_vars(toks_model(toks@), j as int).0,
        r.1 == take_is_vars(toks_model(toks@), j as int).1,
        j <= r.1 <= toks@.len(),
{
    let ghost tm = toks_model(toks@);
    let n = toks.len();
    let mut acc: Vec<i32> = Vec::new();
    let mut jc: usize = j;
    proof {
        lemma_take_is_vars_pos(tm, j as int);
    }
    loop
        invariant
            j <= jc <= n,
            n == toks@.len(),
            tm == toks_model(toks@),
            take_is_vars(tm, j as int).0 == ints(acc@) + take_is_vars(tm, jc as int).0,
            take_is_vars(tm, j as int).1 == take_is_vars(tm, jc as int).1,
        decreases n - jc,
    {
        if jc >= n {
            proof {
                assert(take_is_vars(tm, jc as int).0 =~= Seq::<int>::empty());
                assert(ints(acc@) + Seq::<int>::empty() =~= ints(acc@));
            }
            return (acc, jc);
        }
        let t = &toks[jc];
        proof {
            assert(tm[jc as int] == t@);
        }
        let stop = match classify_digits(t) {
            Some(v) => !(1 <= v && v <= 0x7FFF_FFFFu64),
            None => true,
        };
        if stop {
            proof {
                assert(!is_pnum_tok(tm[jc as int]));
                assert(take_is_vars(tm, jc as int).0 =~= Seq::<int>::empty());
                assert(ints(acc@) + Seq::<int>::empty() =~= ints(acc@));
            }
            return (acc, jc);
        }
        let v = match classify_digits(t) {
            Some(v) => v,
            None => {
                return (acc, jc);
            },
        };
        proof {
            assert(is_pnum_tok(tm[jc as int]));
            assert(digits_val(t@) == v);
        }
        let ghost prev = acc@;
        acc.push(v as i32);
        proof {
            crate::nums::lemma_ints_push(prev, (v as i32));
            lemma_take_is_vars_pos(tm, jc as int + 1);
            assert(ints(acc@) + take_is_vars(tm, jc as int + 1).0 =~= ints(prev) + (seq![
                digits_val(t@) as int,
            ] + take_is_vars(tm, jc as int + 1).0));
        }
        jc = jc + 1;
    }
}

/// Reads the bit-pattern alternatives of one `=` constraint, mirroring
/// [`take_rows`].
fn read_rows(toks: &Vec<String>, j: usize) -> (r: (Vec<Vec<i32>>, usize))
    requires
        j <= toks@.len(),
    ensures
        vecs_model(r.0@) == take_rows(toks_model(toks@), j as int).0,
        r.1 == take_rows(toks_model(toks@), j as int).1,
        j <= r.1 <= toks@.len(),
{
    let ghost tm = toks_model(toks@);
    let n = toks.len();
    let mut acc: Vec<Vec<i32>> = Vec::new();
    let mut jc: usize = j;
    proof {
        lemma_take_rows_pos(tm, j as int);
    }
    loop
        invariant
            j <= jc <= n,
            n == toks@.len(),
            tm == toks_model(toks@),
            take_rows(tm, j as int).0 == vecs_model(acc@) + take_rows(tm, jc as int).0,
            take_rows(tm, j as int).1 == take_rows(tm, jc as int).1,
        decreases n - jc,
    {
        if jc >= n {
            proof {
                assert(take_rows(tm, jc as int).0 =~= Seq::<Seq<int>>::empty());
                assert(vecs_model(acc@) + Seq::<Seq<int>>::empty() =~= vecs_model(acc@));
            }
            return (acc, jc);
        }
        let t = &toks[jc];
        proof {
            assert(tm[jc as int] == t@);
        }
        if str_eq(t.as_str(), "0") {
            proof {
                assert(t@ == "0"@);
                assert(take_rows(tm, jc as int).0 =~= Seq::<Seq<int>>::empty());
                assert(vecs_model(acc@) + Seq::<Seq<int>>::empty() =~= vecs_model(acc@));
            }
            return (acc, jc);
        }
        match binary_row(t) {
            Some(row) => {
                let ghost prev = acc@;
                let ghost grow = ints(row@);
                proof {
                    crate::nums::lemma_vecs_model_push(prev, row);
                    lemma_take_rows_pos(tm, jc as int + 1);
                }
                acc.push(row);
                proof {
                    assert(vecs_model(acc@) + take_rows(tm, jc as int + 1).0 =~= vecs_model(prev)
                        + (seq![row_bits(t@)] + take_rows(tm, jc as int + 1).0));
                }
                jc = jc + 1;
            },
            None => {
                proof {
                    assert(take_rows(tm, jc as int).0 =~= Seq::<Seq<int>>::empty());
                    assert(vecs_model(acc@) + Seq::<Seq<int>>::empty() =~= vecs_model(acc@));
                }
                return (acc, jc);
            },
        }
    }
}


proof fn lemma_take_quant_vars_range(toks: Seq<Seq<char>>, j: int)
    ensures
        match take_quant_vars(toks, j) {
            Ok((vs, nj)) => forall|t: int| 0 <= t < vs.len() ==> 1 <= #[trigger] vs[t] <= i32::MAX,
            Err(_) => true,
        },
    decreases toks.len() - j,
{
    if 0 <= j < toks.len() && !is_zero_tok(toks[j]) && is_pnum_tok(toks[j]) {
        lemma_take_quant_vars_range(toks, j + 1);
        if take_quant_vars(toks, j + 1) is Ok {
            let (rest, nj) = take_quant_vars(toks, j + 1).unwrap();
            assert forall|t: int|
                0 <= t < (seq![digits_val(toks[j]) as int] + rest).len() implies 1 <= #[trigger] (
            seq![digits_val(toks[j]) as int] + rest)[t] <= i32::MAX by {
                if t > 0 {
                    assert((seq![digits_val(toks[j]) as int] + rest)[t] == rest[t - 1]);
                }
            }
        }
    }
}

/// Reads the constraint groups of one integer split, mirroring
/// [`take_groups`].
fn read_groups(toks: &Vec<String>, j: usize) -> (r: Result<
    (Vec<IntegerSplitConstraint>, usize),
    ParseError,
>)
    requires
        j <= toks@.len(),
    ensures
        match (r, take_groups(toks_model(toks@), j as int, 0, Seq::empty())) {
            (Ok((cs, nj)), Ok((scs, snj))) => cs@.map_values(|c: IntegerSplitConstraint| c@) == scs
                && nj == snj && j < nj <= toks@.len(),
            (Err(e1), Err(e2)) => e1 == e2,
            _ => false,
        },
{
    let ghost tm = toks_model(toks@);
    let n = toks.len();
    let mut acc: Vec<IntegerSplitConstraint> = Vec::new();
    let mut width: usize = 0;
    let mut jc: usize = j;
    proof {
        lemma_take_groups_pos(tm, j as int, 0, Seq::empty());
        assert(acc@.map_values(|c: IntegerSplitConstraint| c@) =~= Seq::<ConstraintModel>::empty());
    }
    loop
        invariant
            j <= jc <= n,
            n == toks@.len(),
            tm == toks_model(toks@),
            take_groups(tm, j as int, 0, Seq::empty()) == take_groups(
                tm,
                jc as int,
                width as int,
                acc@.map_values(|c: IntegerSplitConstraint| c@),
            ),
        decreases n - jc,
    {
        let ghost accm = acc@.map_values(|c: IntegerSplitConstraint| c@);
        if jc >= n {
            return Err(ParseError::UnterminatedInput);
        }
        let t = &toks[jc];
        proof {
            assert(tm[jc as int] == t@);
        }
        let is_lt = str_eq(t.as_str(), "<");
        let is_gt = str_eq(t.as_str(), ">");
        if is_lt || is_gt {
            let kind = if is_lt {
                IntegerSplitKind::LessThan
            } else {
                IntegerSplitKind::GreaterThan
            };
            if jc >= n - 1 {
                proof {
                    assert(jc as int + 1 >= tm.len());
                }
                return Err(ParseError::UnterminatedInput);
            }
            let t2 = &toks[jc + 1];
            proof {
                assert(tm[jc as int + 1] == t2@);
            }
            match classify_digits(t2) {
                Some(v) => {
                    if 1 <= v && v <= 0x7FFF_FFFFu64 {
                        proof {
                            assert(digits_val(t2@) == v);
                            assert(is_pnum_tok(tm[jc as int + 1]));
                        }
                        let mut row: Vec<i32> = Vec::new();
                        row.push(v as i32);
                        let mut tgt: Vec<Vec<i32>> = Vec::new();
                        tgt.push(row);
                        let c = IntegerSplitConstraint { kind, target: tgt };
                        proof {
                            assert(c@.target =~~= seq![seq![digits_val(t2@) as int]]);
                            assert(c@ =~~= ConstraintModel {
                                kind,
                                target: seq![seq![digits_val(t2@) as int]],
                            });
                        }
                        let ghost prev = acc@;
                        acc.push(c);
                        proof {
                            assert(acc@.map_values(|x: IntegerSplitConstraint| x@) =~= accm.push(
                                c@,
                            ));
                        }
                        jc = jc + 2;
                    } else {
                        proof {
                            if digits_val(t2@) <= i32::MAX {
                                assert(crate::nums::min_u64(digits_val(t2@)) == digits_val(t2@));
                            }
                            assert(!is_pnum_tok(tm[jc as int + 1]));
                        }
                        return Err(ParseError::MissingBound);
                    }
                },
                None => {
                    proof {
                        assert(!is_pnum_tok(tm[jc as int + 1]));
                    }
                    return Err(ParseError::MissingBound);
                },
            }
        } else if str_eq(t.as_str(), "=") {
            proof {
                lemma_take_rows_pos(tm, jc as int + 1);
            }
            let (rows, nj) = read_rows(toks, jc + 1);
            let ghost srows = take_rows(tm, jc as int + 1).0;
            if rows.len() == 0 {
                return Err(ParseError::EmptyEquals);
            }
            let w: usize = if width == 0 {
                rows[0].len()
            } else {
                width
            };
            proof {
                assert(vecs_model(rows@)[0] == ints(rows@[0]@));
                assert(w as int == (if width as int == 0 && srows.len() > 0 {
                    srows[0].len() as int
                } else {
                    width as int
                }));
            }
            let mut ok = true;
            let mut ri: usize = 0;
            let rlen = rows.len();
            while ri < rlen
                invariant
                    0 <= ri <= rlen,
                    rlen == rows@.len(),
                    srows == vecs_model(rows@),
                    ok == (forall|u: int|
                        0 <= u < ri ==> (#[trigger] srows[u]).len() == w as int),
                decreases rlen - ri,
            {
                let rr = &rows[ri];
                proof {
                    assert(srows[ri as int] == ints(rr@));
                }
                if rr.len() != w {
                    proof {
                        assert(srows[ri as int].len() != w as int);
                    }
                    ok = false;
                }
                ri = ri + 1;
            }
            if !ok {
                proof {
                    assert(!rows_same_width(srows, width as int));
                }
                return Err(ParseError::UnequalAlternatives);
            }
            proof {
                assert(rows_same_width(srows, width as int));
            }
            let c = IntegerSplitConstraint { kind: IntegerSplitKind::Equals, target: rows };
            proof {
                assert(c@.target == srows);
                assert(c@ =~~= ConstraintModel { kind: IntegerSplitKind::Equals, target: srows });
            }
            acc.push(c);
            proof {
                assert(acc@.map_values(|x: IntegerSplitConstraint| x@) =~= accm.push(c@));
            }
            width = w;
            jc = nj;
        } else if str_eq(t.as_str(), "0") {
            if acc.len() == 0 {
                proof {
                    assert(accm.len() == 0);
                }
                return Err(ParseError::NoConstraints);
            }
            proof {
                assert(accm.len() > 0);
                lemma_take_groups_pos(tm, j as int, 0, Seq::empty());
            }
            return Ok((acc, jc + 1));
        } else {
            return Err(ParseError::BadComparator);
        }
    }
}

/// Appends one quantifier block's entries to the prefix, negated for an
/// existential block.
fn push_entries(prefix: &mut Vec<i32>, vars: &Vec<i32>, neg: bool)
    requires
        forall|t: int| 0 <= t < vars@.len() ==> 1 <= #[trigger] vars@[t],
    ensures
        ints(final(prefix)@) =~= ints(old(prefix)@) + (if neg {
            ints(vars@).map_values(|v: int| -v)
        } else {
            ints(vars@)
        }),
{
    let ghost base = ints(old(prefix)@);
    let ghost entries = if neg {
        ints(vars@).map_values(|v: int| -v)
    } else {
        ints(vars@)
    };
    let n = vars.len();
    let mut i: usize = 0;
    while i < n
        invariant
            0 <= i <= n,
            n == vars@.len(),
            forall|t: int| 0 <= t < vars@.len() ==> 1 <= #[trigger] vars@[t],
            entries == (if neg {
                ints(vars@).map_values(|v: int| -v)
            } else {
                ints(vars@)
            }),
            entries.len() == n,
            ints(prefix@) =~= base + entries.take(i as int),
        decreases n - i,
    {
        let v = vars[i];
        proof {
            assert(ints(vars@)[i as int] == v as int);
            assert(entries[i as int] == (if neg {
                -(v as int)
            } else {
                v as int
            }));
        }
        let ghost prevp = prefix@;
        if neg {
            prefix.push(-v);
        } else {
            prefix.push(v);
        }
        proof {
            crate::nums::lemma_ints_push(prevp, (if neg {
                (-(v as int)) as i32
            } else {
                v
            }));
            assert(ints(prefix@) =~= base + entries.take(i as int + 1));
        }
        i = i + 1;
    }
    proof {
        assert(entries.take(n as int) =~= entries);
    }
}

/// The parser state's header field as a model value.
pub open spec fn hdr_model(h: Option<(i32, i32)>) -> Option<(int, int)> {
    match h {
        None => None,
        Some((a, b)) => Some((a as int, b as int)),
    }
}


/// Checks one bit row against a width.
fn check_row(row: &Vec<i32>, w: usize) -> (b: bool)
    ensures
        b == crate::types::bit_row_wf(ints(row@), w as int),
{
    let n = row.len();
    if n != w {
        return false;
    }
    let mut i: usize = 0;
    while i < n
        invariant
            0 <= i <= n,
            n == row@.len(),
            forall|t: int| 0 <= t < i ==> (#[trigger] ints(row@)[t] == 0 || ints(row@)[t] == 1),
        decreases n - i,
    {
        let e = row[i];
        proof {
            assert(ints(row@)[i as int] == e as int);
        }
        if !(e == 0 || e == 1) {
            return false;
        }
        i = i + 1;
    }
    true
}

/// Checks one constraint against the split's width.
fn check_constraint_wf(c: &IntegerSplitConstraint, w: usize) -> (b: bool)
    ensures
        b == c@.wf(w as int),
{
    match c.kind {
        IntegerSplitKind::LessThan | IntegerSplitKind::GreaterThan => {
            if c.target.len() != 1 {
                return false;
            }
            let row = &c.target[0];
            proof {
                assert(c@.target[0] == ints(row@));
            }
            if row.len() != 1 {
                return false;
            }
            let b0 = row[0];
            proof {
                assert(c@.target[0][0] == b0 as int);
            }
            1 <= b0
        },
        IntegerSplitKind::Equals => {
            let n = c.target.len();
            if n == 0 {
                return false;
            }
            let mut i: usize = 0;
            while i < n
                invariant
                    0 <= i <= n,
                    n == c.target@.len(),
                    c.kind == IntegerSplitKind::Equals,
                    forall|t: int|
                        0 <= t < i ==> crate::types::bit_row_wf(#[trigger] c@.target[t], w as int),
                decreases n - i,
            {
                let row = &c.target[i];
                proof {
                    assert(c@.target[i as int] == ints(row@));
                }
                if !check_row(row, w) {
                    proof {
                        assert(c@.kind == IntegerSplitKind::Equals);
                        assert(!crate::types::bit_row_wf(c@.target[i as int], w as int));
                        assert(!c@.wf(w as int));
                    }
                    return false;
                }
                i = i + 1;
            }
            true
        },
    }
}

/// Checks a whole split's well-formedness.
fn check_split_wf(s: &IntegerSplit) -> (b: bool)
    ensures
        b == s@.wf(),
{
    let w = s.vars.len();
    if w == 0 {
        return false;
    }
    let mut i: usize = 0;
    while i < w
        invariant
            0 <= i <= w,
            w == s.vars@.len(),
            forall|t: int| 0 <= t < i ==> 1 <= #[trigger] s@.vars[t] <= i32::MAX,
        decreases w - i,
    {
        let v = s.vars[i];
        proof {
            assert(s@.vars[i as int] == v as int);
        }
        if v < 1 {
            return false;
        }
        i = i + 1;
    }
    let n = s.constraints.len();
    if n == 0 {
        return false;
    }
    let mut i: usize = 0;
    while i < n
        invariant
            0 <= i <= n,
            n == s.constraints@.len(),
            w == s.vars@.len(),
            forall|t: int| 0 <= t < i ==> (#[trigger] s@.constraints[t]).wf(s@.vars.len() as int),
        decreases n - i,
    {
        let c = &s.constraints[i];
        proof {
            assert(s@.constraints[i as int] == c@);
        }
        if !check_constraint_wf(c, w) {
            return false;
        }
        i = i + 1;
    }
    true
}

/// Checks that every clause is non-empty with non-zero literals inside the
/// declared variable range.
fn check_matrix(matrix: &Vec<Vec<i32>>, v: i32) -> (b: bool)
    requires
        v >= 0,
    ensures
        b == (forall|i: int|
            0 <= i < vecs_model(matrix@).len() ==> crate::types::clause_wf(
                #[trigger] vecs_model(matrix@)[i],
                v as int,
            )),
{
    let n = matrix.len();
    let mut i: usize = 0;
    while i < n
        invariant
            0 <= i <= n,
            n == matrix@.len(),
            v >= 0,
            forall|t: int|
                0 <= t < i ==> crate::types::clause_wf(#[trigger] vecs_model(matrix@)[t], v as int),
        decreases n - i,
    {
        let clause = &matrix[i];
        proof {
            assert(vecs_model(matrix@)[i as int] == ints(clause@));
        }
        let m = clause.len();
        if m == 0 {
            proof {
                assert(!crate::types::clause_wf(vecs_model(matrix@)[i as int], v as int));
            }
            return false;
        }
        let mut jj: usize = 0;
        while jj < m
            invariant
                0 <= jj <= m,
                m == clause@.len(),
                v >= 0,
                0 <= i < matrix@.len(),
                ints(clause@) == vecs_model(matrix@)[i as int],
                forall|u: int|
                    0 <= u < jj ==> (#[trigger] ints(clause@)[u] != 0 && -(v as int) <= ints(
                        clause@,
                    )[u] <= v as int),
            decreases m - jj,
        {
            let l = clause[jj];
            proof {
                assert(ints(clause@)[jj as int] == l as int);
            }
            if l == 0 || l < -v || l > v {
                proof {
                    assert(!crate::types::clause_wf(ints(clause@), v as int));
                    assert(!crate::types::clause_wf(vecs_model(matrix@)[i as int], v as int));
                }
                return false;
            }
            jj = jj + 1;
        }
        proof {
            assert(crate::types::clause_wf(ints(clause@), v as int));
        }
        i = i + 1;
    }
    true
}


/// Do the split variables, concatenated, form an initial segment of the
/// prefix read by absolute value?
fn check_cover(splits: &Vec<IntegerSplit>, prefix: &Vec<i32>) -> (b: bool)
    ensures
        ({
            let smm = splits@.map_values(|s: IntegerSplit| s@);
            let pm = ints(prefix@);
            b == (vars_concat(smm).len() <= pm.len() && vars_concat(smm) == pm.map_values(
                |e: int| crate::nums::iabs(e),
            ).take(vars_concat(smm).len() as int))
        }),
{
    let ghost smm = splits@.map_values(|s: IntegerSplit| s@);
    let ghost pm = ints(prefix@);
    let ns = splits.len();
    let mut cv: Vec<i32> = Vec::new();
    let mut i: usize = 0;
    while i < ns
        invariant
            0 <= i <= ns,
            ns == splits@.len(),
            smm == splits@.map_values(|s: IntegerSplit| s@),
            cv@.len() == vars_concat(smm.take(i as int)).len(),
            forall|t: int|
                0 <= t < cv@.len() ==> #[trigger] cv@[t] as int == vars_concat(smm)[t] && 0 <= t
                    < vars_concat(smm).len(),
        decreases ns - i,
    {
        let sp = &splits[i];
        let m = sp.vars.len();
        proof {
            assert(smm[i as int] == sp@);
            crate::types::lemma_vars_concat_snoc(smm, i as int);
            crate::types::lemma_vars_concat_take_prefix(smm, i as int);
        }
        let mut jj: usize = 0;
        while jj < m
            invariant
                0 <= jj <= m,
                0 <= i < smm.len(),
                m == sp.vars@.len(),
                sp@ == smm[i as int],
                cv@.len() == vars_concat(smm.take(i as int)).len() + jj,
                forall|t: int|
                    0 <= t < cv@.len() ==> #[trigger] cv@[t] as int == vars_concat(smm)[t] && 0 <= t
                        < vars_concat(smm).len(),
            decreases m - jj,
        {
            proof {
                crate::types::lemma_vars_concat_index(smm, i as int, jj as int);
                assert(sp@.vars[jj as int] == sp.vars@[jj as int] as int);
            }
            cv.push(sp.vars[jj]);
            jj = jj + 1;
        }
        proof {
            crate::types::lemma_vars_concat_snoc(smm, i as int);
            assert(cv@.len() == vars_concat(smm.take(i as int + 1)).len());
        }
        i = i + 1;
    }
    proof {
        assert(smm.take(ns as int) =~= smm);
        assert(cv@.len() == vars_concat(smm).len());
    }
    let k = cv.len();
    let plen = prefix.len();
    if k > plen {
        return false;
    }
    let ghost pabs = pm.map_values(|e: int| crate::nums::iabs(e));
    let mut t: usize = 0;
    while t < k
        invariant
            0 <= t <= k,
            k == cv@.len() <= plen,
            plen == prefix@.len(),
            pm == ints(prefix@),
            smm == splits@.map_values(|s: IntegerSplit| s@),
            pabs == pm.map_values(|e: int| crate::nums::iabs(e)),
            cv@.len() == vars_concat(smm).len(),
            forall|u: int|
                0 <= u < cv@.len() ==> #[trigger] cv@[u] as int == vars_concat(smm)[u],
            forall|u: int| 0 <= u < t ==> vars_concat(smm)[u] == #[trigger] pabs[u],
        decreases k - t,
    {
        let x = prefix[t];
        proof {
            assert(pm[t as int] == x as int);
            assert(pabs[t as int] == crate::nums::iabs(x as int));
        }
        let good = if x == i32::MIN {
            false
        } else {
            let a: i32 = if x < 0 {
                -x
            } else {
                x
            };
            cv[t] == a
        };
        if !good {
            proof {
                if x == i32::MIN {
                    assert(crate::nums::iabs(x as int) == 0x80000000);
                    assert(cv@[t as int] as int <= i32::MAX);
                    assert(vars_concat(smm)[t as int] != pabs[t as int]);
                } else {
                    assert(vars_concat(smm)[t as int] != pabs[t as int]);
                }
                assert(vars_concat(smm) != pabs.take(vars_concat(smm).len() as int)) by {
                    assert(pabs.take(vars_concat(smm).len() as int)[t as int] == pabs[t as int]);
                }
                assert(pabs =~= pm.map_values(|e: int| crate::nums::iabs(e)));
                assert(smm =~= splits@.map_values(|s2: IntegerSplit| s2@));
                assert(vars_concat(smm) != pm.map_values(|e: int| crate::nums::iabs(e)).take(
                    vars_concat(smm).len() as int,
                ));
            }
            return false;
        }
        t = t + 1;
    }
    proof {
        assert(vars_concat(smm) =~= pabs.take(vars_concat(smm).len() as int));
    }
    true
}

/// Does every split stay inside one quantifier block? Only meaningful
/// once the splits cover an initial segment of the prefix.
fn check_single_block(splits: &Vec<IntegerSplit>, prefix: &Vec<i32>) -> (b: bool)
    requires
        ({
            let smm = splits@.map_values(|s: IntegerSplit| s@);
            let pm = ints(prefix@);
            vars_concat(smm).len() <= pm.len()
        }),
    ensures
        ({
            let smm = splits@.map_values(|s: IntegerSplit| s@);
            let pm = ints(prefix@);
            b == (forall|k: int, p: int|
                #![trigger smm[k], pm[p]]
                0 <= k < smm.len() && crate::types::split_offset(smm, k) <= p
                    < crate::types::split_offset(smm, k) + smm[k].vars.len() && p < pm.len() ==> ((
                pm[p] > 0) == (pm[crate::types::split_offset(smm, k)] > 0)))
        }),
{
    let ghost smm = splits@.map_values(|s: IntegerSplit| s@);
    let ghost pm = ints(prefix@);
    let ns = splits.len();
    let plen = prefix.len();
    let mut off: usize = 0;
    let mut i: usize = 0;
    while i < ns
        invariant
            0 <= i <= ns,
            ns == splits@.len(),
            plen == prefix@.len(),
            smm == splits@.map_values(|s: IntegerSplit| s@),
            pm == ints(prefix@),
            vars_concat(smm).len() <= pm.len(),
            off == crate::types::split_offset(smm, i as int),
            off <= vars_concat(smm).len(),
            forall|k: int, p: int|
                #![trigger smm[k], pm[p]]
                0 <= k < i && crate::types::split_offset(smm, k) <= p < crate::types::split_offset(
                    smm,
                    k,
                ) + smm[k].vars.len() && p < pm.len() ==> ((pm[p] > 0) == (pm[
                crate::types::split_offset(smm, k)] > 0)),
        decreases ns - i,
    {
        let sp = &splits[i];
        let m = sp.vars.len();
        proof {
            assert(smm[i as int] == sp@);
            crate::types::lemma_vars_concat_snoc(smm, i as int);
            crate::types::lemma_vars_concat_take_prefix(smm, i as int + 1);
            assert(crate::types::split_offset(smm, i as int + 1) == off + m);
            assert(off + m <= vars_concat(smm).len() <= pm.len());
        }
        if m > 0 {
            let first = prefix[off];
            proof {
                assert(pm[off as int] == first as int);
            }
            let mut p: usize = off;
            while p < off + m
                invariant
                    off <= p <= off + m,
                    off + m <= plen,
                    plen == prefix@.len(),
                    pm == ints(prefix@),
                    pm[off as int] == first as int,
                    0 <= i < smm.len(),
                    smm == splits@.map_values(|s: IntegerSplit| s@),
                    off == crate::types::split_offset(smm, i as int),
                    m == smm[i as int].vars.len(),
                    forall|u: int| off <= u < p ==> ((#[trigger] pm[u] > 0) == (first as int > 0)),
                decreases off + m - p,
            {
                let x = prefix[p];
                proof {
                    assert(pm[p as int] == x as int);
                }
                if (x > 0) != (first > 0) {
                    proof {
                        let so = crate::types::split_offset(smm, i as int);
                        assert(0 <= i < smm.len());
                        assert(so <= p as int);
                        assert((p as int) < so + smm[i as int].vars.len());
                        assert((p as int) < pm.len());
                        assert((pm[p as int] > 0) != (pm[so] > 0));
                    }
                    return false;
                }
                p = p + 1;
            }
            proof {
                assert forall|k: int, p: int|
                    #![trigger smm[k], pm[p]]
                    0 <= k < i + 1 && crate::types::split_offset(smm, k) <= p
                        < crate::types::split_offset(smm, k) + smm[k].vars.len() && p
                        < pm.len() implies ((pm[p] > 0) == (pm[crate::types::split_offset(smm, k)]
                    > 0)) by {
                    if k == i as int {
                        assert(pm[crate::types::split_offset(smm, k)] == first as int);
                    }
                }
            }
        } else {
            proof {
                assert forall|k: int, p: int|
                    #![trigger smm[k], pm[p]]
                    0 <= k < i + 1 && crate::types::split_offset(smm, k) <= p
                        < crate::types::split_offset(smm, k) + smm[k].vars.len() && p
                        < pm.len() implies ((pm[p] > 0) == (pm[crate::types::split_offset(smm, k)]
                    > 0)) by {
                    if k == i as int {
                        assert(smm[k].vars.len() == 0);
                    }
                }
            }
        }
        off = off + m;
        i = i + 1;
    }
    true
}


/// Are all splits well-formed?
fn check_all_splits_wf(splits: &Vec<IntegerSplit>) -> (b: bool)
    ensures
        b == (forall|k: int|
            #![trigger splits@[k]]
            0 <= k < splits@.len() ==> splits@.map_values(|s: IntegerSplit| s@)[k].wf()),
{
    let n = splits.len();
    let mut t: usize = 0;
    while t < n
        invariant
            0 <= t <= n,
            n == splits@.len(),
            forall|u: int|
                #![trigger splits@[u]]
                0 <= u < t ==> splits@.map_values(|s: IntegerSplit| s@)[u].wf(),
        decreases n - t,
    {
        let sp = &splits[t];
        proof {
            assert(splits@.map_values(|s: IntegerSplit| s@)[t as int] == sp@);
        }
        if !check_split_wf(sp) {
            proof {
                assert(!(splits@.map_values(|s: IntegerSplit| s@)[t as int]).wf());
            }
            return false;
        }
        t = t + 1;
    }
    true
}

/// Are all prefix entries non-zero with representable negations?
fn check_prefix_wf(prefix: &Vec<i32>) -> (b: bool)
    ensures
        b == (forall|u: int|
            0 <= u < ints(prefix@).len() ==> (#[trigger] ints(prefix@)[u] != 0 && -i32::MAX <= ints(
                prefix@,
            )[u] <= i32::MAX)),
{
    let n = prefix.len();
    let mut t: usize = 0;
    while t < n
        invariant
            0 <= t <= n,
            n == prefix@.len(),
            forall|u: int|
                0 <= u < t ==> (#[trigger] ints(prefix@)[u] != 0 && -i32::MAX <= ints(prefix@)[u]
                    <= i32::MAX),
        decreases n - t,
    {
        let x = prefix[t];
        proof {
            assert(ints(prefix@)[t as int] == x as int);
        }
        if x == 0 || x == i32::MIN {
            return false;
        }
        t = t + 1;
    }
    true
}

/// Post-processing after a successful line parse: width inference,
/// default-splitter synthesis, and the invariant checks.
#[verifier::rlimit(100)]
fn postprocess(
    hv: i32,
    hc: i32,
    prefix: Vec<i32>,
    matrix: Vec<Vec<i32>>,
    splits0: Vec<IntegerSplit>,
) -> (r: Result<Formula, ParseError>)
    requires
        hv >= 0,
        hc >= 0,
        forall|t: int| 0 <= t < prefix@.len() ==> #[trigger] prefix@[t] != i32::MIN,
    ensures
        ({
            let st = ParseSt {
                hdr: Some((hv as int, hc as int)),
                prefix: ints(prefix@),
                matrix: vecs_model(matrix@),
                splits: splits0@.map_values(|s: IntegerSplit| s@),
            };
            match (r, spec_postprocess(st)) {
                (Ok(f), Ok(m)) => f@ == m && f@.wf(),
                (Err(e1), Err(e2)) => e1 == e2,
                _ => false,
            }
        }),
{
    let ghost sm0 = splits0@.map_values(|s: IntegerSplit| s@);
    let ghost pm = ints(prefix@);
    let ghost st0 = ParseSt {
        hdr: Some((hv as int, hc as int)),
        prefix: ints(prefix@),
        matrix: vecs_model(matrix@),
        splits: splits0@.map_values(|s: IntegerSplit| s@),
    };
    let ns = splits0.len();
    let plen = prefix.len();
    let mut out: Vec<IntegerSplit> = Vec::new();
    let mut cur: usize = 0;
    let mut cur_over = false;
    let ghost mut gcur: int = 0;
    proof {
        assert(sm0.skip(0) =~= sm0);
        assert(out@.map_values(|s: IntegerSplit| s@) =~= Seq::<SplitModel>::empty());
    }
    let mut i: usize = 0;
    while i < ns
        invariant
            0 <= i <= ns,
            ns == splits0@.len(),
            plen == prefix@.len(),
            pm == ints(prefix@),
            sm0 == splits0@.map_values(|s: IntegerSplit| s@),
            forall|t: int| 0 <= t < prefix@.len() ==> #[trigger] prefix@[t] != i32::MIN,
            gcur >= 0,
            !cur_over ==> cur as int == gcur && gcur <= plen,
            cur_over ==> gcur > plen,
            infer_splits(sm0, pm, 0) == (match infer_splits(sm0.skip(i as int), pm, gcur) {
                Ok(rest) => Ok::<Seq<SplitModel>, ParseError>(
                    out@.map_values(|s: IntegerSplit| s@) + rest,
                ),
                Err(e) => Err(e),
            }),
        decreases ns - i,
    {
        let ghost outm = out@.map_values(|s: IntegerSplit| s@);
        let s = &splits0[i];
        proof {
            assert(sm0[i as int] == s@);
            assert(sm0.skip(i as int)[0] == sm0[i as int]);
            assert(sm0.skip(i as int).drop_first() =~= sm0.skip(i as int + 1));
        }
        if s.constraints.len() == 0 {
            return Err(ParseError::NoConstraints);
        }
        let vlen = s.vars.len();
        if vlen == 0 {
            let c0 = &s.constraints[0];
            proof {
                assert(s@.constraints[0] == c0@);
            }
            let w: usize = match c0.kind {
                IntegerSplitKind::LessThan | IntegerSplitKind::GreaterThan => {
                    if c0.target.len() == 0 {
                        return Err(ParseError::MissingBound);
                    }
                    let row0 = &c0.target[0];
                    proof {
                        assert(c0@.target[0] == ints(row0@));
                    }
                    if row0.len() == 0 {
                        return Err(ParseError::MissingBound);
                    }
                    let bound = row0[0];
                    proof {
                        assert(c0@.target[0][0] == bound as int);
                    }
                    if bound < 1 {
                        return Err(ParseError::MissingBound);
                    }
                    let wi = var_constraint_to_nr_of_bits(bound);
                    wi as usize
                },
                IntegerSplitKind::Equals => {
                    if c0.target.len() == 0 {
                        return Err(ParseError::EmptyEquals);
                    }
                    let row0 = &c0.target[0];
                    proof {
                        assert(c0@.target[0] == ints(row0@));
                    }
                    row0.len()
                },
            };
            if cur_over || w > plen - cur {
                proof {
                    assert(gcur + w > plen);
                }
                return Err(ParseError::SplitBeyondPrefix);
            }
            let mut vars: Vec<i32> = Vec::new();
            let mut p: usize = 0;
            while p < w
                invariant
                    0 <= p <= w,
                    cur + w <= plen,
                    plen == prefix@.len(),
                    pm == ints(prefix@),
                    forall|t: int| 0 <= t < prefix@.len() ==> #[trigger] prefix@[t] != i32::MIN,
                    vars@.len() == p,
                    forall|u: int|
                        0 <= u < p ==> #[trigger] vars@[u] as int == crate::nums::iabs(
                            pm[cur + u],
                        ),
                decreases w - p,
            {
                let x = prefix[cur + p];
                proof {
                    assert(pm[cur as int + p as int] == x as int);
                    assert(prefix@[cur as int + p as int] != i32::MIN);
                }
                let a: i32 = if x < 0 {
                    -x
                } else {
                    x
                };
                vars.push(a);
                p = p + 1;
            }
            let ghost specvars = pm.subrange(gcur, gcur + w).map_values(
                |e: int| crate::nums::iabs(e),
            );
            proof {
                assert(ints(vars@) =~= specvars);
            }
            let s2base = s.clone();
            let s2 = IntegerSplit { vars, constraints: s2base.constraints };
            proof {
                assert(s2base@ == s@);
                assert(s2@ =~~= SplitModel { vars: specvars, constraints: s@.constraints });
            }
            out.push(s2);
            proof {
                assert(out@.map_values(|x: IntegerSplit| x@) =~= outm.push(s2@));
                assert forall|rest: Seq<SplitModel>|
                    true implies outm.push(s2@) + rest =~= outm + (seq![s2@] + rest) by {}
                gcur = gcur + w;
            }
            cur = cur + w;
        } else {
            let s2 = s.clone();
            out.push(s2);
            proof {
                assert(out@.map_values(|x: IntegerSplit| x@) =~= outm.push(s@));
                assert forall|rest: Seq<SplitModel>|
                    true implies outm.push(s@) + rest =~= outm + (seq![s@] + rest) by {}
                gcur = gcur + s@.vars.len();
            }
            if !cur_over {
                if vlen <= plen - cur {
                    cur = cur + vlen;
                } else {
                    cur_over = true;
                }
            }
        }
        i = i + 1;
    }
    proof {
        assert(sm0.skip(ns as int).len() == 0);
    }
    let ghost outm = out@.map_values(|s: IntegerSplit| s@);
    proof {
        assert(infer_splits(sm0, pm, 0) == Ok::<Seq<SplitModel>, ParseError>(outm + Seq::empty()));
        assert(outm + Seq::<SplitModel>::empty() =~= outm);
    }

    // default splitter synthesis
    let use_synth = out.len() == 0 && plen > 0;
    let final_splits: Vec<IntegerSplit> = if use_synth {
        let nn: usize = if plen < 64 {
            plen
        } else {
            64
        };
        let mut sy: Vec<IntegerSplit> = Vec::new();
        let mut t: usize = 0;
        while t < nn
            invariant
                0 <= t <= nn,
                nn == vstd::math::min(pm.len() as int, 64),
                plen == prefix@.len(),
                pm == ints(prefix@),
                forall|u: int| 0 <= u < prefix@.len() ==> #[trigger] prefix@[u] != i32::MIN,
                sy@.len() == t,
                forall|u: int|
                    0 <= u < t ==> #[trigger] sy@[u]@ == synth_splits(pm)[u],
            decreases nn - t,
        {
            let x = prefix[t];
            proof {
                assert(pm[t as int] == x as int);
                assert(prefix@[t as int] != i32::MIN);
            }
            let a: i32 = if x < 0 {
                -x
            } else {
                x
            };
            let mut vars: Vec<i32> = Vec::new();
            vars.push(a);
            let mut row: Vec<i32> = Vec::new();
            row.push(2);
            let mut tgt: Vec<Vec<i32>> = Vec::new();
            tgt.push(row);
            let mut cs: Vec<IntegerSplitConstraint> = Vec::new();
            cs.push(IntegerSplitConstraint { kind: IntegerSplitKind::LessThan, target: tgt });
            let sp = IntegerSplit { vars, constraints: cs };
            proof {
                assert(sp@.vars =~= seq![crate::nums::iabs(pm[t as int])]);
                assert(sp@.constraints[0].target =~~= seq![seq![2int]]);
                assert(sp@.constraints =~~= seq![
                    ConstraintModel { kind: IntegerSplitKind::LessThan, target: seq![seq![2int]] },
                ]);
                assert(sp@ =~~= synth_splits(pm)[t as int]);
            }
            sy.push(sp);
            t = t + 1;
        }
        proof {
            assert(sy@.map_values(|s: IntegerSplit| s@) =~= synth_splits(pm));
        }
        sy
    } else {
        out
    };
    let ghost splits2 = if outm.len() == 0 && st0.prefix.len() > 0 {
        synth_splits(st0.prefix)
    } else {
        outm
    };
    proof {
        assert(st0.prefix == pm);
        assert(final_splits@.map_values(|s: IntegerSplit| s@) == splits2);
    }

    let ghost fspec = FormulaModel {
        splits: splits2,
        prefix: st0.prefix,
        matrix: st0.matrix,
        nr_of_variables: hv as int,
        nr_of_clauses: hc as int,
    };
    // the invariant checks, in the order the failure values are owed
    if hc as usize != matrix.len() {
        return Err(ParseError::ClauseCountMismatch);
    }
    if !check_matrix(&matrix, hv) {
        proof {
            assert(exists|i: int|
                0 <= i < vecs_model(matrix@).len() && !crate::types::clause_wf(
                    #[trigger] vecs_model(matrix@)[i],
                    hv as int,
                ));
            let bad = choose|i: int|
                0 <= i < vecs_model(matrix@).len() && !crate::types::clause_wf(
                    #[trigger] vecs_model(matrix@)[i],
                    hv as int,
                );
            assert(fspec.matrix[bad] == vecs_model(matrix@)[bad]);
            assert(!crate::types::clause_wf(fspec.matrix[bad], fspec.nr_of_variables));
            assert(!fspec.matrix_wf());
            assert(spec_postprocess(st0) == Err::<FormulaModel, ParseError>(
                ParseError::LiteralOutOfRange,
            ));
        }
        return Err(ParseError::LiteralOutOfRange);
    }
    if !check_all_splits_wf(&final_splits) {
        proof {
            assert(exists|k: int|
                #![trigger final_splits@[k]]
                0 <= k < final_splits@.len() && !final_splits@.map_values(
                    |s: IntegerSplit| s@,
                )[k].wf());
            let bad = choose|k: int|
                #![trigger final_splits@[k]]
                0 <= k < final_splits@.len() && !final_splits@.map_values(
                    |s: IntegerSplit| s@,
                )[k].wf();
            assert(splits2[bad] == final_splits@.map_values(|s: IntegerSplit| s@)[bad]);
            assert(!splits2[bad].wf());
            assert(!all_splits_wf(splits2));
            assert(st0.splits =~= sm0);
            assert(st0.prefix == pm);
            assert(infer_splits(st0.splits, st0.prefix, 0) == Ok::<Seq<SplitModel>, ParseError>(
                outm,
            ));
            assert(fspec.matrix_wf()) by {
                assert forall|i: int|
                    0 <= i < fspec.matrix.len() implies crate::types::clause_wf(
                    #[trigger] fspec.matrix[i],
                    fspec.nr_of_variables,
                ) by {
                    assert(fspec.matrix[i] == vecs_model(matrix@)[i]);
                }
            }
            assert(spec_postprocess(st0) == Err::<FormulaModel, ParseError>(
                ParseError::UnequalAlternatives,
            ));
        }
        return Err(ParseError::UnequalAlternatives);
    }
    if !check_cover(&final_splits, &prefix) {
        return Err(ParseError::SplitVarsNotPrefix);
    }
    if !check_single_block(&final_splits, &prefix) {
        return Err(ParseError::SplitAcrossBlocks);
    }
    if !check_prefix_wf(&prefix) {
        proof {
            assert(!fspec.prefix_wf());
            assert(spec_postprocess(st0) == Err::<FormulaModel, ParseError>(
                ParseError::BadQuantVar,
            ));
        }
        return Err(ParseError::BadQuantVar);
    }
    let f = Formula {
        splits: final_splits,
        prefix,
        matrix,
        nr_of_variables: hv,
        nr_of_clauses: hc,
    };
    proof {
        assert(f@.splits == splits2);
        assert(f@.prefix == pm);
        assert(f@.matrix == vecs_model(f.matrix@));
        assert(f@.prefix_wf());
        assert(f@.matrix_wf());
        assert(f@.splits_cover_prefix());
        assert(f@.splits_single_block());
        assert(f@.wf());
    }
    Ok(f)
}

/// Parses QDIMACS text extended with integer-split directives into a
/// formula, inferring split variables, synthesizing the default splitter
/// when none is declared, and checking every formula invariant; a
/// well-formed formula or the first error found.
#[verifier::rlimit(100)]
pub fn parse_qdimacs(qdimacs: &str) -> (r: Result<Formula, ParseError>)
    ensures
        match (r, spec_parse_qdimacs(qdimacs@)) {
            (Ok(f), Ok(m)) => f@ == m && f@.wf(),
            (Err(e1), Err(e2)) => e1 == e2,
            _ => false,
        },
{
    let toks = tokenize(qdimacs);
    let ghost tm = toks_model(toks@);
    let ghost init = ParseSt {
        hdr: None,
        prefix: Seq::empty(),
        matrix: Seq::empty(),
        splits: Seq::empty(),
    };
    let n = toks.len();
    let mut hdr: Option<(i32, i32)> = None;
    let mut prefix: Vec<i32> = Vec::new();
    let mut matrix: Vec<Vec<i32>> = Vec::new();
    let mut splits: Vec<IntegerSplit> = Vec::new();
    proof {
        assert(ParseSt {
            hdr: hdr_model(hdr),
            prefix: ints(prefix@),
            matrix: vecs_model(matrix@),
            splits: splits@.map_values(|s: IntegerSplit| s@),
        } =~~= init);
    }
    let mut j: usize = 0;
    while j < n
        invariant
            0 <= j <= n,
            n == toks@.len(),
            tm == toks_model(toks@),
            tm == spec_tokens(qdimacs@, Mode::LineStart),
            init == (ParseSt {
                hdr: None,
                prefix: Seq::<int>::empty(),
                matrix: Seq::<Seq<int>>::empty(),
                splits: Seq::<SplitModel>::empty(),
            }),
            forall|t: int| 0 <= t < prefix@.len() ==> #[trigger] prefix@[t] != i32::MIN,
            (match hdr {
                Some((a, b)) => a >= 0 && b >= 0,
                None => true,
            }),
            spec_parse_items(tm, 0, init) == spec_parse_items(
                tm,
                j as int,
                ParseSt {
                    hdr: hdr_model(hdr),
                    prefix: ints(prefix@),
                    matrix: vecs_model(matrix@),
                    splits: splits@.map_values(|s: IntegerSplit| s@),
                },
            ),
        decreases n - j,
    {
        let ghost cur_st = ParseSt {
            hdr: hdr_model(hdr),
            prefix: ints(prefix@),
            matrix: vecs_model(matrix@),
            splits: splits@.map_values(|s: IntegerSplit| s@),
        };
        let t = &toks[j];
        proof {
            assert(tm[j as int] == t@);
        }
        if str_eq(t.as_str(), "p") {
            match hdr {
                Some(_) => {
                    proof {
                        assert(spec_parse_items(tm, j as int, cur_st) == Err::<ParseSt, ParseError>(
                            ParseError::DuplicateHeader,
                        ));
                    }
                    return Err(ParseError::DuplicateHeader);
                },
                None => {
                },
            }
            if n - j <= 3 {
                proof {
                    assert(j as int + 3 >= tm.len());
                    assert(spec_parse_items(tm, j as int, cur_st) == Err::<ParseSt, ParseError>(
                        ParseError::BadHeader,
                    ));
                }
                return Err(ParseError::BadHeader);
            }
            let ok_cnf = str_eq(toks[j + 1].as_str(), "cnf");
            proof {
                assert(tm[j as int + 1] == toks@[j as int + 1]@);
                assert(tm[j as int + 2] == toks@[j as int + 2]@);
                assert(tm[j as int + 3] == toks@[j as int + 3]@);
            }
            if !ok_cnf {
                proof {
                    assert(spec_parse_items(tm, j as int, cur_st) == Err::<ParseSt, ParseError>(
                        ParseError::BadHeader,
                    ));
                }
                return Err(ParseError::BadHeader);
            }
            let v2 = classify_digits(&toks[j + 2]);
            let v3 = classify_digits(&toks[j + 3]);
            match (v2, v3) {
                (Some(a), Some(b)) => {
                    if a <= 0x7FFF_FFFFu64 && b <= 0x7FFF_FFFFu64 {
                        proof {
                            assert(digits_val(tm[j as int + 2]) == a);
                            assert(digits_val(tm[j as int + 3]) == b);
                        }
                        hdr = Some((a as i32, b as i32));
                        proof {
                            assert(ParseSt {
                                hdr: hdr_model(hdr),
                                prefix: ints(prefix@),
                                matrix: vecs_model(matrix@),
                                splits: splits@.map_values(|s: IntegerSplit| s@),
                            } =~~= ParseSt {
                                hdr: Some(
                                    (
                                        digits_val(tm[j as int + 2]) as int,
                                        digits_val(tm[j as int + 3]) as int,
                                    ),
                                ),
                                ..cur_st
                            });
                        }
                        j = j + 4;
                    } else {
                        proof {
                            if digits_val(tm[j as int + 2]) <= i32::MAX && digits_val(
                                tm[j as int + 3],
                            ) <= i32::MAX {
                                assert(a <= i32::MAX || b <= i32::MAX);
                            }
                            assert(spec_parse_items(tm, j as int, cur_st) == Err::<
                                ParseSt,
                                ParseError,
                            >(ParseError::BadHeader));
                        }
                        return Err(ParseError::BadHeader);
                    }
                },
                _ => {
                    proof {
                        assert(spec_parse_items(tm, j as int, cur_st) == Err::<ParseSt, ParseError>(
                            ParseError::BadHeader,
                        ));
                    }
                    return Err(ParseError::BadHeader);
                },
            }
        } else {
            let is_a = str_eq(t.as_str(), "a");
            let is_e = str_eq(t.as_str(), "e");
            if is_a || is_e {
                proof {
                    lemma_take_quant_vars_range(tm, j as int + 1);
                }
                match read_quant_vars(&toks, j + 1) {
                    Ok((vars, nj)) => {
                        if vars.len() == 0 {
                            proof {
                                assert(spec_parse_items(tm, j as int, cur_st) == Err::<
                                    ParseSt,
                                    ParseError,
                                >(ParseError::EmptyQuantBlock));
                            }
                            return Err(ParseError::EmptyQuantBlock);
                        }
                        proof {
                            assert forall|u: int| 0 <= u < vars@.len() implies 1 <= #[trigger] vars@[
                            u] by {
                                assert(ints(vars@)[u] == vars@[u] as int);
                            }
                        }
                        let ghost oldp = ints(prefix@);
                        push_entries(&mut prefix, &vars, is_e);
                        proof {
                            let entries = if is_e {
                                ints(vars@).map_values(|v: int| -v)
                            } else {
                                ints(vars@)
                            };
                            assert(ints(prefix@) =~= oldp + entries);
                            assert forall|u: int|
                                0 <= u < prefix@.len() implies #[trigger] prefix@[u]
                                != i32::MIN by {
                                assert(ints(prefix@)[u] == prefix@[u] as int);
                                if u < oldp.len() {
                                    assert(ints(prefix@)[u] == oldp[u]);
                                } else {
                                    assert(ints(prefix@)[u] == entries[u - oldp.len()]);
                                    assert(1 <= ints(vars@)[u - oldp.len()] <= i32::MAX);
                                }
                            }
                            assert(ParseSt {
                                hdr: hdr_model(hdr),
                                prefix: ints(prefix@),
                                matrix: vecs_model(matrix@),
                                splits: splits@.map_values(|s: IntegerSplit| s@),
                            } =~~= ParseSt { prefix: cur_st.prefix + entries, ..cur_st });
                        }
                        j = nj;
                    },
                    Err(e) => {
                        proof {
                            assert(spec_parse_items(tm, j as int, cur_st) == Err::<
                                ParseSt,
                                ParseError,
                            >(e));
                        }
                        return Err(e);
                    },
                }
            } else if str_eq(t.as_str(), "IS") {
                let (vars, j2) = read_is_vars(&toks, j + 1);
                match read_groups(&toks, j2) {
                    Ok((cs, nj)) => {
                        let sp = IntegerSplit { vars, constraints: cs };
                        proof {
                            let (svars, sj2) = take_is_vars(tm, j as int + 1);
                            assert(sp@ =~~= SplitModel {
                                vars: svars,
                                constraints: cs@.map_values(|c: IntegerSplitConstraint| c@),
                            });
                        }
                        let ghost spm = sp@;
                        splits.push(sp);
                        proof {
                            assert(splits@.map_values(|s: IntegerSplit| s@)
                                =~= cur_st.splits.push(spm));
                            assert(ParseSt {
                                hdr: hdr_model(hdr),
                                prefix: ints(prefix@),
                                matrix: vecs_model(matrix@),
                                splits: splits@.map_values(|s: IntegerSplit| s@),
                            } =~~= ParseSt { splits: cur_st.splits.push(spm), ..cur_st });
                        }
                        j = nj;
                    },
                    Err(e) => {
                        proof {
                            assert(spec_parse_items(tm, j as int, cur_st) == Err::<
                                ParseSt,
                                ParseError,
                            >(e));
                        }
                        return Err(e);
                    },
                }
            } else {
                match read_clause_lits(&toks, j) {
                    Ok((lits, nj)) => {
                        if lits.len() == 0 {
                            proof {
                                assert(spec_parse_items(tm, j as int, cur_st) == Err::<
                                    ParseSt,
                                    ParseError,
                                >(ParseError::EmptyClause));
                            }
                            return Err(ParseError::EmptyClause);
                        }
                        let ghost lm = ints(lits@);
                        proof {
                            crate::nums::lemma_vecs_model_push(matrix@, lits);
                        }
                        matrix.push(lits);
                        proof {
                            assert(ParseSt {
                                hdr: hdr_model(hdr),
                                prefix: ints(prefix@),
                                matrix: vecs_model(matrix@),
                                splits: splits@.map_values(|s: IntegerSplit| s@),
                            } =~~= ParseSt { matrix: cur_st.matrix.push(lm), ..cur_st });
                        }
                        j = nj;
                    },
                    Err(e) => {
                        proof {
                            assert(spec_parse_items(tm, j as int, cur_st) == Err::<
                                ParseSt,
                                ParseError,
                            >(e));
                        }
                        return Err(e);
                    },
                }
            }
        }
    }
    proof {
        assert(spec_parse_items(tm, n as int, ParseSt {
            hdr: hdr_model(hdr),
            prefix: ints(prefix@),
            matrix: vecs_model(matrix@),
            splits: splits@.map_values(|s: IntegerSplit| s@),
        }) is Ok);
    }
    match hdr {
        None => {
            return Err(ParseError::MissingHeader);
        },
        Some((hv, hc)) => postprocess(hv, hc, prefix, matrix, splits),
    }
}

} // verus!
