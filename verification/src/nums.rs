//! Small numeric helpers: powers of two, bit extraction, the unsigned value
//! encoded by a vector of signed literals, and decimal rendering and reading.

use vstd::arithmetic::div_mod::lemma_div_denominator;
use vstd::arithmetic::power2::{
    lemma2_to64, lemma_pow2_pos, lemma_pow2_strictly_increases, lemma_pow2_unfold, pow2,
};
use vstd::prelude::*;

verus! {

/// The mathematical absolute value.
pub open spec fn iabs(x: int) -> int {
    if x < 0 {
        -x
    } else {
        x
    }
}

/// A `Seq<i32>` as a sequence of mathematical integers.
pub open spec fn ints(s: Seq<i32>) -> Seq<int> {
    s.map_values(|x: i32| x as int)
}

/// A sequence of `Vec<i32>` as a sequence of sequences of mathematical
/// integers.
pub open spec fn vecs_model(s: Seq<Vec<i32>>) -> Seq<Seq<int>> {
    s.map_values(|v: Vec<i32>| ints(v@))
}

pub proof fn lemma_ints_push(s: Seq<i32>, x: i32)
    ensures
        ints(s.push(x)) =~= ints(s).push(x as int),
{
}

pub proof fn lemma_vecs_model_push(s: Seq<Vec<i32>>, v: Vec<i32>)
    ensures
        vecs_model(s.push(v)) =~= vecs_model(s).push(ints(v@)),
{
}

/// Bit `j` of `n`, counting from the least significant bit.
pub open spec fn nbit(n: nat, j: nat) -> bool {
    (n / pow2(j)) % 2 == 1
}

/// The unsigned integer encoded by a vector of signed literals, most
/// significant position first: a positive literal contributes a 1-bit.
pub open spec fn bits_to_num(v: Seq<int>) -> nat
    decreases v.len(),
{
    if v.len() == 0 {
        0
    } else {
        2 * bits_to_num(v.drop_last()) + (if v.last() > 0 {
            1nat
        } else {
            0nat
        })
    }
}

/// The unsigned integer encoded by a row of 0/1 entries, most significant
/// position first.
pub open spec fn row_to_num(v: Seq<int>) -> nat
    decreases v.len(),
{
    if v.len() == 0 {
        0
    } else {
        2 * row_to_num(v.drop_last()) + (if v.last() == 1 {
            1nat
        } else {
            0nat
        })
    }
}

/// The assumption vector for enumeration index `idx` over `vars`, most
/// significant bit on the first variable: position `j` carries `vars[j]`
/// when bit `len - 1 - j` of `idx` is set, and `-vars[j]` otherwise.
pub open spec fn assum_vec(vars: Seq<int>, idx: nat) -> Seq<int> {
    Seq::new(
        vars.len(),
        |j: int|
            if nbit(idx, (vars.len() - 1 - j) as nat) {
                vars[j]
            } else {
                -vars[j]
            },
    )
}

/// The assumption vector with the least significant bit on the first
/// variable, as the naive prefix expansion emits it.
pub open spec fn lsb_vec(vars: Seq<int>, idx: nat) -> Seq<int> {
    Seq::new(
        vars.len(),
        |j: int|
            if nbit(idx, j as nat) {
                vars[j]
            } else {
                -vars[j]
            },
    )
}

pub proof fn lemma_bits_to_num_bound(v: Seq<int>)
    ensures
        bits_to_num(v) < pow2(v.len()),
    decreases v.len(),
{
    if v.len() == 0 {
        assert(pow2(0) == 1) by {
            lemma2_to64();
        }
    } else {
        lemma_bits_to_num_bound(v.drop_last());
        lemma_pow2_unfold(v.len());
    }
}

pub proof fn lemma_row_to_num_bound(v: Seq<int>)
    ensures
        row_to_num(v) < pow2(v.len()),
    decreases v.len(),
{
    if v.len() == 0 {
        assert(pow2(0) == 1) by {
            lemma2_to64();
        }
    } else {
        lemma_row_to_num_bound(v.drop_last());
        lemma_pow2_unfold(v.len());
    }
}

/// Dropping the last position of an assumption vector is the assumption
/// vector of the halved index over the remaining variables.
pub proof fn lemma_assum_vec_halve(vars: Seq<int>, idx: nat)
    requires
        vars.len() >= 1,
    ensures
        assum_vec(vars, idx).drop_last() =~= assum_vec(vars.drop_last(), idx / 2),
        assum_vec(vars, idx).last() == (if nbit(idx, 0) {
            vars.last()
        } else {
            -vars.last()
        }),
{
    let l = vars.len() as int;
    assert forall|j: int| 0 <= j < l - 1 implies assum_vec(vars, idx).drop_last()[j] == assum_vec(
        vars.drop_last(),
        idx / 2,
    )[j] by {
        let b1 = (l - 1 - j) as nat;
        let b2 = (l - 2 - j) as nat;
        lemma_pow2_pos(b2);
        lemma_pow2_unfold(b1);
        lemma_div_denominator(idx as int, 2, pow2(b2) as int);
        assert(idx / pow2(b1) == (idx / 2) / pow2(b2));
    }
}

/// The unsigned value encoded by `assum_vec(vars, idx)` is `idx` itself,
/// whenever `idx` is in range and the variables are positive.
pub proof fn lemma_assum_vec_value(vars: Seq<int>, idx: nat)
    requires
        forall|j: int| 0 <= j < vars.len() ==> #[trigger] vars[j] > 0,
        idx < pow2(vars.len()),
    ensures
        bits_to_num(assum_vec(vars, idx)) == idx,
    decreases vars.len(),
{
    if vars.len() == 0 {
        assert(pow2(0) == 1) by {
            lemma2_to64();
        }
    } else {
        lemma_assum_vec_halve(vars, idx);
        lemma_pow2_unfold(vars.len());
        assert(idx / 2 < pow2((vars.len() - 1) as nat));
        lemma_assum_vec_value(vars.drop_last(), idx / 2);
        assert(pow2(0) == 1) by {
            lemma2_to64();
        }
        assert(nbit(idx, 0) == (idx % 2 == 1));
        assert(bits_to_num(assum_vec(vars, idx)) == 2 * (idx / 2) + (if idx % 2 == 1 {
            1nat
        } else {
            0nat
        }));
    }
}

/// 2 to the power `e`, as a machine word.
pub fn pow2_u64(e: u64) -> (r: u64)
    requires
        e <= 63,
    ensures
        r == pow2(e as nat),
{
    proof {
        lemma2_to64();
    }
    let mut r: u64 = 1;
    let mut i: u64 = 0;
    while i < e
        invariant
            i <= e,
            e <= 63,
            r == pow2(i as nat),
        decreases e - i,
    {
        proof {
            lemma_pow2_unfold((i + 1) as nat);
            if i + 1 < 64 {
                lemma_pow2_strictly_increases((i + 1) as nat, 64);
            }
            lemma_pow2_64_value();
        }
        r = r * 2;
        i = i + 1;
    }
    r
}

pub proof fn lemma_pow2_64_value()
    ensures
        pow2(64) == 0x10000000000000000,
{
    vstd::arithmetic::power2::lemma2_to64_rest();
}

/// Bit `j` of `n`, executable.
pub fn nbit_u64(n: u64, j: u64) -> (r: bool)
    requires
        j <= 63,
    ensures
        r == nbit(n as nat, j as nat),
{
    let p = pow2_u64(j);
    proof {
        lemma_pow2_pos(j as nat);
    }
    (n / p) % 2 == 1
}

/// The decimal digits of `n`, most significant first.
pub open spec fn dec_str(n: nat) -> Seq<char>
    decreases n,
{
    if n < 10 {
        seq![digit_char(n)]
    } else {
        dec_str(n / 10).push(digit_char(n % 10))
    }
}

/// The character for a single decimal digit.
pub open spec fn digit_char(d: nat) -> char {
    if d == 0 {
        '0'
    } else if d == 1 {
        '1'
    } else if d == 2 {
        '2'
    } else if d == 3 {
        '3'
    } else if d == 4 {
        '4'
    } else if d == 5 {
        '5'
    } else if d == 6 {
        '6'
    } else if d == 7 {
        '7'
    } else if d == 8 {
        '8'
    } else {
        '9'
    }
}

/// The decimal rendering of a possibly negative integer.
pub open spec fn int_str(v: int) -> Seq<char> {
    if v < 0 {
        seq!['-'] + dec_str((-v) as nat)
    } else {
        dec_str(v as nat)
    }
}

fn digit_str(d: u64) -> (r: &'static str)
    requires
        d <= 9,
    ensures
        r@ =~= seq![digit_char(d as nat)],
{
    proof {
        reveal_strlit("0");
        reveal_strlit("1");
        reveal_strlit("2");
        reveal_strlit("3");
        reveal_strlit("4");
        reveal_strlit("5");
        reveal_strlit("6");
        reveal_strlit("7");
        reveal_strlit("8");
        reveal_strlit("9");
    }
    if d == 0 {
        "0"
    } else if d == 1 {
        "1"
    } else if d == 2 {
        "2"
    } else if d == 3 {
        "3"
    } else if d == 4 {
        "4"
    } else if d == 5 {
        "5"
    } else if d == 6 {
        "6"
    } else if d == 7 {
        "7"
    } else if d == 8 {
        "8"
    } else {
        "9"
    }
}

/// Renders `n` in decimal.
pub fn u64_to_string(n: u64) -> (s: String)
    ensures
        s@ == dec_str(n as nat),
    decreases n,
{
    if n < 10 {
        let d = digit_str(n);
        String::from_str(d)
    } else {
        let s = u64_to_string(n / 10);
        let d = digit_str(n % 10);
        let r = s.concat(d);
        proof {
            assert(r@ =~= dec_str((n / 10) as nat).push(digit_char((n % 10) as nat)));
        }
        r
    }
}

/// Renders a signed 32-bit integer in decimal, with a leading minus sign
/// when it is negative.
pub fn i32_to_string(v: i32) -> (s: String)
    ensures
        s@ == int_str(v as int),
{
    if v < 0 {
        let m: u64 = (-(v as i64)) as u64;
        let tail = u64_to_string(m);
        let head = String::from_str("-");
        let r = head.concat(tail.as_str());
        proof {
            reveal_strlit("-");
            assert(r@ =~= seq!['-'] + dec_str((-(v as int)) as nat));
        }
        r
    } else {
        u64_to_string(v as u64)
    }
}

/// The sign of a non-zero number: `1` for positive, `-1` for negative.
pub fn sign(n: i32) -> (r: i32)
    requires
        n != 0,
    ensures
        r == (if n > 0 {
            1int
        } else {
            -1int
        }),
{
    if n > 0 {
        1
    } else {
        -1
    }
}

/// Is `c` a decimal digit?
pub open spec fn is_digit(c: char) -> bool {
    48 <= c as u32 <= 57
}

/// The value of a decimal digit character.
pub open spec fn digit_val(c: char) -> nat {
    (c as u32 - 48) as nat
}

/// The value of a sequence of decimal digit characters, most significant
/// first.
pub open spec fn digits_val(s: Seq<char>) -> nat
    decreases s.len(),
{
    if s.len() == 0 {
        0
    } else {
        10 * digits_val(s.drop_last()) + digit_val(s.last())
    }
}

/// Rendering a number in decimal and reading the digits back yields the
/// number itself: the numeric core of the serializer/parser round trip.
pub proof fn lemma_dec_str_value(n: nat)
    ensures
        is_digits(dec_str(n)),
        digits_val(dec_str(n)) == n,
    decreases n,
{
    if n < 10 {
        let s = dec_str(n);
        assert(s =~= seq![digit_char(n)]);
        assert(s.drop_last() =~= Seq::<char>::empty());
        assert(digits_val(s) == 10 * digits_val(Seq::<char>::empty()) + digit_val(digit_char(n)));
        assert(digit_val(digit_char(n)) == n);
        assert(is_digit(digit_char(n)));
    } else {
        lemma_dec_str_value(n / 10);
        let s = dec_str(n);
        assert(s == dec_str(n / 10).push(digit_char(n % 10)));
        assert(s.drop_last() =~= dec_str(n / 10));
        assert(s.last() == digit_char(n % 10));
        assert(digit_val(digit_char(n % 10)) == n % 10);
        assert(digits_val(s) == 10 * (n / 10) + n % 10);
        assert forall|i: int| 0 <= i < s.len() implies is_digit(#[trigger] s[i]) by {
            if i < s.len() - 1 {
                assert(s[i] == dec_str(n / 10)[i]);
            }
        }
    }
}

/// Is `s` a non-empty run of decimal digits?
pub open spec fn is_digits(s: Seq<char>) -> bool {
    s.len() >= 1 && forall|i: int| 0 <= i < s.len() ==> is_digit(#[trigger] s[i])
}

/// Is `s` a decimal integer with an optional leading minus sign?
pub open spec fn is_num_tok(s: Seq<char>) -> bool {
    if s.len() >= 1 && s[0] == '-' {
        is_digits(s.skip(1))
    } else {
        is_digits(s)
    }
}

/// The value of a decimal integer token with an optional leading minus sign.
pub open spec fn num_val(s: Seq<char>) -> int {
    if s.len() >= 1 && s[0] == '-' {
        -(digits_val(s.skip(1)) as int)
    } else {
        digits_val(s) as int
    }
}

/// Reads a run of decimal digits, saturating at `u64::MAX`; `None` when
/// `s` is not a non-empty run of digits.
pub fn digits_of_str(s: &str) -> (r: Option<u64>)
    ensures
        match r {
            Some(v) => is_digits(s@) && v == min_u64(digits_val(s@)),
            None => !is_digits(s@),
        },
{
    let n = s.unicode_len();
    if n == 0 {
        return None;
    }
    let mut acc: u64 = 0;
    let mut i: usize = 0;
    while i < n
        invariant
            0 <= i <= n,
            n == s@.len(),
            forall|k: int| 0 <= k < i ==> is_digit(#[trigger] s@[k]),
            acc == min_u64(digits_val(s@.take(i as int))),
        decreases n - i,
    {
        let c = s.get_char(i);
        let u = c as u32;
        if u < 48 || u > 57 {
            return None;
        }
        let d: u64 = (u - 48) as u64;
        proof {
            assert(s@.take(i + 1).drop_last() =~= s@.take(i as int));
            assert(digits_val(s@.take(i + 1)) == 10 * digits_val(s@.take(i as int)) + digit_val(
                c,
            ));
        }
        if acc > (u64::MAX - d) / 10 {
            proof {
                lemma_sat_mul_add(digits_val(s@.take(i as int)), acc, d);
            }
            acc = u64::MAX;
        } else {
            proof {
                lemma_fit_mul_add(digits_val(s@.take(i as int)), acc, d);
            }
            acc = acc * 10 + d;
        }
        i = i + 1;
    }
    proof {
        assert(s@.take(n as int) =~= s@);
    }
    Some(acc)
}

/// `v` clamped into the range of `u64`.
pub open spec fn min_u64(v: nat) -> nat {
    if v > u64::MAX {
        u64::MAX as nat
    } else {
        v
    }
}

pub proof fn lemma_sat_mul_add(v: nat, acc: u64, d: u64)
    requires
        acc == min_u64(v),
        d <= 9,
        acc > (u64::MAX - d) / 10,
    ensures
        min_u64((10 * v + d) as nat) == u64::MAX,
{
    assert(10 * (acc as nat) + d > u64::MAX) by (nonlinear_arith)
        requires
            acc > (u64::MAX - d) / 10,
            d <= 9,
    ;
    if v > u64::MAX {
        assert(10 * v + d > u64::MAX);
    } else {
        assert(10 * v + d > u64::MAX);
    }
}

pub proof fn lemma_fit_mul_add(v: nat, acc: u64, d: u64)
    requires
        acc == min_u64(v),
        d <= 9,
        acc <= (u64::MAX - d) / 10,
    ensures
        10 * v + d <= u64::MAX,
        acc * 10 + d == min_u64((10 * v + d) as nat),
{
    assert(10 * (acc as nat) + d <= u64::MAX) by (nonlinear_arith)
        requires
            acc <= (u64::MAX - d) / 10,
            d <= 9,
    ;
    if v > u64::MAX {
        assert(10 * v + d > 10 * (u64::MAX as nat)) by (nonlinear_arith)
            requires
                v > u64::MAX,
        ;
        assert(false);
    }
}

/// Reads a signed decimal token into an `i32`; `None` when the token is
/// malformed or its value does not fit.
pub fn parse_i32(s: &str) -> (r: Option<i32>)
    ensures
        match r {
            Some(v) => is_num_tok(s@) && v == num_val(s@) && i32::MIN <= num_val(s@)
                <= i32::MAX,
            None => !(is_num_tok(s@) && i32::MIN <= num_val(s@) <= i32::MAX),
        },
{
    let n = s.unicode_len();
    if n >= 1 && s.get_char(0) == '-' {
        let (_, tail) = split_first_char(s);
        match digits_of_str(tail) {
            Some(v) => {
                if v <= 0x8000_0000u64 {
                    proof {
                        if digits_val(s@.skip(1)) > u64::MAX {
                            assert(min_u64(digits_val(s@.skip(1))) == u64::MAX as nat);
                        }
                    }
                    Some((-(v as i64)) as i32)
                } else {
                    proof {
                        assert(digits_val(s@.skip(1)) >= v);
                    }
                    None
                }
            },
            None => None,
        }
    } else {
        match digits_of_str(s) {
            Some(v) => {
                if v <= 0x7FFF_FFFFu64 {
                    Some(v as i32)
                } else {
                    proof {
                        assert(digits_val(s@) >= v);
                    }
                    None
                }
            },
            None => None,
        }
    }
}

/// Is the character a decimal digit, executable.
pub fn is_digit_char(c: char) -> (r: bool)
    ensures
        r == is_digit(c),
{
    let u = c as u32;
    48 <= u && u <= 57
}

/// Compares two string slices character by character.
pub fn str_eq(a: &str, b: &str) -> (r: bool)
    ensures
        r == (a@ == b@),
{
    let n = a.unicode_len();
    if n != b.unicode_len() {
        return false;
    }
    let mut i: usize = 0;
    while i < n
        invariant
            0 <= i <= n,
            n == a@.len() == b@.len(),
            forall|t: int| 0 <= t < i ==> a@[t] == #[trigger] b@[t],
        decreases n - i,
    {
        if a.get_char(i) != b.get_char(i) {
            return false;
        }
        i = i + 1;
    }
    proof {
        assert(a@ =~= b@);
    }
    true
}

/// Splits the first character off a non-empty string slice.
fn split_first_char(s: &str) -> (r: (char, &str))
    requires
        s@.len() >= 1,
    ensures
        r.0 == s@[0],
        r.1@ == s@.skip(1),
{
    let c = s.get_char(0);
    let rest = s.substring_char(1, s.unicode_len());
    proof {
        assert(rest@ =~= s@.skip(1));
    }
    (c, rest)
}

} // verus!
