//! The solver-log reader: scans the line-oriented log of the benchmarking
//! harness for the exit-status and wall-time probes and yields one
//! [`SolverResult`]. Later matches overwrite earlier ones; a log with no
//! matches yields a timeout with zero wall time.

use crate::nums::{digit_val, is_digit, is_digit_char, min_u64, str_eq};
use crate::types::{SolverResult, SolverReturnCode};
use vstd::prelude::*;

verus! {

/// The whitespace class of the wall-time probe.
pub open spec fn is_ws(c: char) -> bool {
    c == ' ' || c == '\t' || c == '\n' || c == '\r' || c == '\x0b' || c == '\x0c'
}

/// The index of the first newline at or after `pos`, or the length when
/// none follows.
pub open spec fn find_nl(t: Seq<char>, pos: int) -> int
    decreases t.len() - pos,
{
    if pos < 0 || pos >= t.len() {
        t.len() as int
    } else if t[pos] == '\n' {
        pos
    } else {
        find_nl(t, pos + 1)
    }
}

proof fn lemma_find_nl_props(t: Seq<char>, pos: int)
    requires
        0 <= pos <= t.len(),
    ensures
        pos <= find_nl(t, pos) <= t.len(),
        find_nl(t, pos) < t.len() ==> t[find_nl(t, pos)] == '\n',
        forall|j: int| pos <= j < find_nl(t, pos) ==> t[j] != '\n',
    decreases t.len() - pos,
{
    if pos < t.len() && t[pos] != '\n' {
        lemma_find_nl_props(t, pos + 1);
    }
}

/// A line with one trailing carriage return removed, the way a buffered
/// line reader hands lines out.
pub open spec fn strip_cr(s: Seq<char>) -> Seq<char> {
    if s.len() > 0 && s.last() == '\r' {
        s.drop_last()
    } else {
        s
    }
}

/// The lines of the text from position `pos` on, split at newlines.
pub open spec fn lines_from(t: Seq<char>, pos: int) -> Seq<Seq<char>>
    decreases t.len() - pos,
    via lines_from_decreases
{
    if pos < 0 || pos >= t.len() {
        Seq::empty()
    } else {
        let k = find_nl(t, pos);
        let line = strip_cr(t.subrange(pos, k));
        if k >= t.len() {
            seq![line]
        } else {
            seq![line] + lines_from(t, k + 1)
        }
    }
}

#[via_fn]
proof fn lines_from_decreases(t: Seq<char>, pos: int) {
    if !(pos < 0 || pos >= t.len()) {
        lemma_find_nl_props(t, pos);
    }
}

/// The lines of the whole text.
pub open spec fn lines_of(t: Seq<char>) -> Seq<Seq<char>> {
    lines_from(t, 0)
}

/// Does the pattern occur at position `i` of the line?
pub open spec fn lit_match(line: Seq<char>, i: int, pat: Seq<char>) -> bool {
    &&& 0 <= i
    &&& i + pat.len() <= line.len()
    &&& forall|j: int| 0 <= j < pat.len() ==> line[i + j] == #[trigger] pat[j]
}

/// The literal part of the exit-status probe.
pub open spec fn exit_pat() -> Seq<char> {
    "Command exited with non-zero status "@
}

/// The literal start of the wall-time probe.
pub open spec fn time_pat() -> Seq<char> {
    "[runlim] real:"@
}

/// Does the whole exit-status probe match at `i`: the literal followed by
/// at least one digit?
pub open spec fn exit_match_at(line: Seq<char>, i: int) -> bool {
    &&& lit_match(line, i, exit_pat())
    &&& i + exit_pat().len() < line.len()
    &&& is_digit(line[i + exit_pat().len()])
}

/// The position of the leftmost exit-status match at or after `pos`, or
/// `-1` when none exists.
pub open spec fn find_exit(line: Seq<char>, pos: int) -> int
    decreases line.len() - pos,
{
    if pos < 0 || pos >= line.len() || pos + exit_pat().len() > line.len() {
        -1
    } else if exit_match_at(line, pos) {
        pos
    } else {
        find_exit(line, pos + 1)
    }
}

/// The maximal run of digits starting at `pos`.
pub open spec fn digit_run(line: Seq<char>, pos: int) -> Seq<char>
    decreases line.len() - pos,
{
    if 0 <= pos < line.len() && is_digit(line[pos]) {
        seq![line[pos]] + digit_run(line, pos + 1)
    } else {
        Seq::empty()
    }
}

proof fn lemma_digit_run_props(line: Seq<char>, pos: int)
    requires
        0 <= pos <= line.len(),
    ensures
        pos + digit_run(line, pos).len() <= line.len(),
        forall|j: int|
            0 <= j < digit_run(line, pos).len() ==> #[trigger] digit_run(line, pos)[j] == line[pos
                + j] && is_digit(line[pos + j]),
        pos + digit_run(line, pos).len() == line.len() || !is_digit(
            line[pos + digit_run(line, pos).len()],
        ),
    decreases line.len() - pos,
{
    if pos < line.len() && is_digit(line[pos]) {
        lemma_digit_run_props(line, pos + 1);
        let r = digit_run(line, pos);
        assert forall|j: int| 0 <= j < r.len() implies #[trigger] r[j] == line[pos + j]
            && is_digit(line[pos + j]) by {
            if j > 0 {
                assert(r[j] == digit_run(line, pos + 1)[j - 1]);
            }
        }
    }
}

/// The verdict named by a captured exit status: `10` is SAT, `20` is
/// UNSAT, anything else a timeout.
pub open spec fn code_of(digits: Seq<char>) -> SolverReturnCode {
    if digits == "10"@ {
        SolverReturnCode::Sat
    } else if digits == "20"@ {
        SolverReturnCode::Unsat
    } else {
        SolverReturnCode::Timeout
    }
}

/// What the exit-status probe reads out of one line.
pub open spec fn exit_code_of(line: Seq<char>) -> Option<SolverReturnCode> {
    let i = find_exit(line, 0);
    if i == -1 {
        Option::None
    } else {
        Option::Some(code_of(digit_run(line, i + exit_pat().len())))
    }
}

/// The first non-whitespace position at or after `pos`.
pub open spec fn skip_ws(line: Seq<char>, pos: int) -> int
    decreases line.len() - pos,
{
    if pos < 0 || pos >= line.len() {
        line.len() as int
    } else if is_ws(line[pos]) {
        skip_ws(line, pos + 1)
    } else {
        pos
    }
}

proof fn lemma_skip_ws_props(line: Seq<char>, pos: int)
    requires
        0 <= pos <= line.len(),
    ensures
        pos <= skip_ws(line, pos) <= line.len(),
        skip_ws(line, pos) < line.len() ==> !is_ws(line[skip_ws(line, pos)]),
        forall|j: int| pos <= j < skip_ws(line, pos) ==> is_ws(line[j]),
    decreases line.len() - pos,
{
    if pos < line.len() && is_ws(line[pos]) {
        lemma_skip_ws_props(line, pos + 1);
    }
}

/// Does the wall-time probe match the line: the literal at the start,
/// optional whitespace, then at least one digit?
pub open spec fn time_match(line: Seq<char>) -> bool {
    &&& lit_match(line, 0, time_pat())
    &&& skip_ws(line, time_pat().len() as int) < line.len()
    &&& is_digit(line[skip_ws(line, time_pat().len() as int)])
}

/// The value of a decimal digit run, most significant first.
pub open spec fn run_val(digits: Seq<char>) -> nat
    decreases digits.len(),
{
    if digits.len() == 0 {
        0
    } else {
        10 * run_val(digits.drop_last()) + digit_val(digits.last())
    }
}

/// The first three fractional digits as milliseconds; missing digits
/// count as zero, further digits are truncated.
pub open spec fn frac_millis(frac: Seq<char>) -> nat {
    let d0: nat = if frac.len() > 0 {
        digit_val(frac[0])
    } else {
        0
    };
    let d1: nat = if frac.len() > 1 {
        digit_val(frac[1])
    } else {
        0
    };
    let d2: nat = if frac.len() > 2 {
        digit_val(frac[2])
    } else {
        0
    };
    100 * d0 + 10 * d1 + d2
}

/// The fractional digit run of the matched wall time: the digits after a
/// dot that directly follows the integer part, empty when absent.
pub open spec fn time_frac(line: Seq<char>, int_end: int) -> Seq<char> {
    if int_end + 1 < line.len() && line[int_end] == '.' && is_digit(line[int_end + 1]) {
        digit_run(line, int_end + 1)
    } else {
        Seq::empty()
    }
}

/// What the wall-time probe reads out of one line, in milliseconds.
pub open spec fn time_millis_of(line: Seq<char>) -> Option<nat> {
    if time_match(line) {
        let d0 = skip_ws(line, time_pat().len() as int);
        let digits = digit_run(line, d0);
        let frac = time_frac(line, d0 + digits.len());
        Option::Some(run_val(digits) * 1000 + frac_millis(frac))
    } else {
        Option::None
    }
}

/// The verdict after scanning all lines: the last match wins, a log
/// without one is a timeout.
pub open spec fn scan_code(lines: Seq<Seq<char>>) -> SolverReturnCode
    decreases lines.len(),
{
    if lines.len() == 0 {
        SolverReturnCode::Timeout
    } else {
        match exit_code_of(lines.last()) {
            Option::Some(c) => c,
            Option::None => scan_code(lines.drop_last()),
        }
    }
}

/// The wall time after scanning all lines: the last match wins, a log
/// without one reports zero.
pub open spec fn scan_millis(lines: Seq<Seq<char>>) -> nat
    decreases lines.len(),
{
    if lines.len() == 0 {
        0
    } else {
        match time_millis_of(lines.last()) {
            Option::Some(v) => v,
            Option::None => scan_millis(lines.drop_last()),
        }
    }
}

/// The whitespace class of the wall-time probe, executable.
fn is_ws_char(c: char) -> (r: bool)
    ensures
        r == is_ws(c),
{
    c == ' ' || c == '\t' || c == '\n' || c == '\r' || c == '\x0b' || c == '\x0c'
}

/// Splits the text into lines as the log reader sees them.
fn split_lines(text: &str) -> (r: Vec<String>)
    ensures
        r@.map_values(|l: String| l@) == lines_of(text@),
{
    let t = text;
    let n = t.unicode_len();
    let mut out: Vec<String> = Vec::new();
    let mut pos: usize = 0;
    let mut done = false;
    while pos < n && !done
        invariant
            0 <= pos <= n,
            n == t@.len(),
            !done ==> lines_of(t@) =~= out@.map_values(|l: String| l@) + lines_from(
                t@,
                pos as int,
            ),
            done ==> lines_of(t@) =~= out@.map_values(|l: String| l@),
        decreases n - pos + (if done { 0int } else { 1int }),
    {
        proof {
            lemma_find_nl_props(t@, pos as int);
        }
        let mut k: usize = pos;
        while k < n && t.get_char(k) != '\n'
            invariant
                pos <= k <= n,
                n == t@.len(),
                find_nl(t@, pos as int) == find_nl(t@, k as int),
                forall|j: int| pos <= j < k ==> t@[j] != '\n',
            decreases n - k,
        {
            k = k + 1;
        }
        proof {
            assert(find_nl(t@, pos as int) == k as int);
        }
        let mut end = k;
        if end > pos && t.get_char(end - 1) == '\r' {
            end = end - 1;
        }
        let piece = t.substring_char(pos, end);
        let line = String::from_str(piece);
        proof {
            assert(line@ =~= strip_cr(t@.subrange(pos as int, k as int)));
        }
        let ghost prev = out@;
        out.push(line);
        proof {
            assert(out@.map_values(|l: String| l@) =~= prev.map_values(|l: String| l@).push(
                strip_cr(t@.subrange(pos as int, k as int)),
            ));
            if k as int >= t@.len() {
                assert(lines_from(t@, pos as int) =~= seq![
                    strip_cr(t@.subrange(pos as int, k as int)),
                ]);
            } else {
                assert(lines_from(t@, pos as int) =~= seq![
                    strip_cr(t@.subrange(pos as int, k as int)),
                ] + lines_from(t@, k as int + 1));
            }
        }
        if k < n {
            pos = k + 1;
        } else {
            done = true;
        }
    }
    proof {
        if !done {
            assert(lines_from(t@, pos as int) =~= Seq::<Seq<char>>::empty());
        }
    }
    out
}

/// Reads the exit-status probe out of one line: the leftmost occurrence
/// of the literal followed by digits decides.
fn probe_exit(line: &str) -> (r: Option<SolverReturnCode>)
    ensures
        r == exit_code_of(line@),
{
    let n = line.unicode_len();
    let pat = "Command exited with non-zero status ";
    let pl = pat.unicode_len();
    proof {
        assert(pat@ == exit_pat());
        reveal_strlit("Command exited with non-zero status ");
        assert(exit_pat().len() == 36);
    }
    if pl > n {
        proof {
            assert(find_exit(line@, 0) == -1);
        }
        return None;
    }
    let mut i: usize = 0;
    while i <= n - pl
        invariant
            0 <= i <= n - pl + 1,
            pl == 36,
            pl <= n,
            n == line@.len(),
            pl == exit_pat().len(),
            pat@ == exit_pat(),
            find_exit(line@, 0) == find_exit(line@, i as int),
        decreases n - i,
    {
        let mut j: usize = 0;
        let mut ok = true;
        while j < pl && ok
            invariant
                0 <= j <= pl,
                pl == exit_pat().len(),
                i + pl <= n,
                n == line@.len(),
                pat@ == exit_pat(),
                ok ==> (forall|u: int| 0 <= u < j ==> line@[i + u] == #[trigger] exit_pat()[u]),
                !ok ==> !lit_match(line@, i as int, exit_pat()),
            decreases pl - j + (if ok { 1int } else { 0int }),
        {
            let c = line.get_char(i + j);
            let p = pat.get_char(j);
            if c != p {
                proof {
                    assert(line@[i as int + j as int] != exit_pat()[j as int]);
                    assert(!lit_match(line@, i as int, exit_pat()));
                }
                ok = false;
            } else {
                j = j + 1;
            }
        }
        let digit_here = if ok && i + pl < n {
            let d = line.get_char(i + pl);
            let u = d as u32;
            48 <= u && u <= 57
        } else {
            false
        };
        if ok && digit_here {
            proof {
                assert(lit_match(line@, i as int, exit_pat()));
                assert(exit_match_at(line@, i as int));
                assert(find_exit(line@, i as int) == i as int);
            }
            // capture the digit run after the literal
            let d0 = i + pl;
            proof {
                lemma_digit_run_props(line@, d0 as int);
            }
            let mut dend = d0;
            while dend < n && is_digit_char(line.get_char(dend))
                invariant
                    d0 <= dend <= n,
                    n == line@.len(),
                    forall|u: int| d0 <= u < dend ==> is_digit(#[trigger] line@[u]),
                    dend - d0 <= digit_run(line@, d0 as int).len(),
                decreases n - dend,
            {
                proof {
                    lemma_run_extends(line@, d0 as int, dend as int + 1);
                }
                dend = dend + 1;
            }
            proof {
                lemma_digit_run_props(line@, d0 as int);
                assert(dend - d0 == digit_run(line@, d0 as int).len()) by {
                    if dend < n && (dend - d0) < digit_run(line@, d0 as int).len() {
                        assert(digit_run(line@, d0 as int)[dend - d0] == line@[dend as int]);
                        assert(is_digit(line@[dend as int]));
                    }
                }
                assert(digit_run(line@, d0 as int) =~= line@.subrange(d0 as int, dend as int));
            }
            let cap = line.substring_char(d0, dend);
            if str_eq(cap, "10") {
                return Some(SolverReturnCode::Sat);
            } else if str_eq(cap, "20") {
                return Some(SolverReturnCode::Unsat);
            } else {
                return Some(SolverReturnCode::Timeout);
            }
        }
        proof {
            assert(!exit_match_at(line@, i as int)) by {
                if exit_match_at(line@, i as int) {
                    if !ok {
                        let u = choose|u: int|
                            0 <= u < pl && line@[i + u] != #[trigger] exit_pat()[u];
                        assert(false);
                    } else {
                        assert(i + pl < n && is_digit(line@[i as int + pl as int]));
                    }
                }
            }
        }
        i = i + 1;
    }
    proof {
        assert(find_exit(line@, i as int) == -1);
    }
    None
}

/// If all of `line[d0..e]` are digits and `e` is at most the end of the
/// digit run at `d0`, then positions below `e` stay inside the run.
proof fn lemma_run_extends(line: Seq<char>, d0: int, e: int)
    requires
        0 <= d0 <= e <= line.len(),
        forall|u: int| d0 <= u < e ==> is_digit(#[trigger] line[u]),
    ensures
        e - d0 <= digit_run(line, d0).len(),
    decreases e - d0,
{
    if e > d0 {
        lemma_run_extends(line, d0 + 1, e);
        assert(is_digit(line[d0]));
    }
}

/// Reads the wall-time probe out of one line, in milliseconds, clamped
/// into a machine word.
fn probe_time(line: &str) -> (r: Option<u64>)
    ensures
        match time_millis_of(line@) {
            Option::Some(v) => r == Option::Some(min_u64(v) as u64),
            Option::None => r.is_none(),
        },
{
    let n = line.unicode_len();
    let pat = "[runlim] real:";
    let pl = pat.unicode_len();
    proof {
        assert(pat@ == time_pat());
    }
    if n < pl {
        return None;
    }
    let mut j: usize = 0;
    while j < pl
        invariant
            0 <= j <= pl,
            pl == time_pat().len() <= n,
            n == line@.len(),
            pat@ == time_pat(),
            forall|u: int| 0 <= u < j ==> line@[u] == #[trigger] time_pat()[u],
        decreases pl - j,
    {
        if line.get_char(j) != pat.get_char(j) {
            proof {
                assert(!lit_match(line@, 0, time_pat()));
            }
            return None;
        }
        j = j + 1;
    }
    proof {
        assert(lit_match(line@, 0, time_pat()));
        lemma_skip_ws_props(line@, pl as int);
    }
    // skip whitespace
    let mut p: usize = pl;
    while p < n && is_ws_char(line.get_char(p))
        invariant
            pl <= p <= n,
            n == line@.len(),
            skip_ws(line@, pl as int) == skip_ws(line@, p as int),
            forall|u: int| pl <= u < p ==> is_ws(#[trigger] line@[u]),
        decreases n - p,
    {
        p = p + 1;
    }
    proof {
        assert(skip_ws(line@, pl as int) == p as int);
    }
    if p >= n {
        proof {
            assert(!time_match(line@));
        }
        return None;
    }
    let c0 = line.get_char(p);
    let u0 = c0 as u32;
    if !(48 <= u0 && u0 <= 57) {
        proof {
            assert(!time_match(line@));
        }
        return None;
    }
    proof {
        assert(time_match(line@));
        lemma_digit_run_props(line@, p as int);
    }
    // integer part, saturating
    let mut acc: u64 = 0;
    let mut dend: usize = p;
    proof {
        assert(line@.subrange(p as int, p as int) =~= Seq::<char>::empty());
    }
    while dend < n && is_digit_char(line.get_char(dend))
        invariant
            p <= dend <= n,
            n == line@.len(),
            forall|u: int| p <= u < dend ==> is_digit(#[trigger] line@[u]),
            dend - p <= digit_run(line@, p as int).len(),
            acc == min_u64(run_val(line@.subrange(p as int, dend as int))),
        decreases n - dend,
    {
        let c = line.get_char(dend);
        let u = c as u32;
        let d: u64 = (u - 48) as u64;
        proof {
            lemma_run_extends(line@, p as int, dend as int + 1);
            assert(line@.subrange(p as int, dend as int + 1).drop_last() =~= line@.subrange(
                p as int,
                dend as int,
            ));
            assert(run_val(line@.subrange(p as int, dend as int + 1)) == 10 * run_val(
                line@.subrange(p as int, dend as int),
            ) + digit_val(c));
        }
        if acc > (u64::MAX - d) / 10 {
            proof {
                crate::nums::lemma_sat_mul_add(
                    run_val(line@.subrange(p as int, dend as int)),
                    acc,
                    d,
                );
            }
            acc = u64::MAX;
        } else {
            proof {
                crate::nums::lemma_fit_mul_add(
                    run_val(line@.subrange(p as int, dend as int)),
                    acc,
                    d,
                );
            }
            acc = acc * 10 + d;
        }
        dend = dend + 1;
    }
    proof {
        lemma_digit_run_props(line@, p as int);
        assert(dend - p == digit_run(line@, p as int).len()) by {
            if dend < n && (dend - p) < digit_run(line@, p as int).len() {
                assert(digit_run(line@, p as int)[dend - p] == line@[dend as int]);
                assert(is_digit(line@[dend as int]));
            }
        }
        assert(digit_run(line@, p as int) =~= line@.subrange(p as int, dend as int));
    }
    // fractional part: up to three digits after a dot
    let mut frac: u64 = 0;
    let ghost fseq = time_frac(line@, dend as int);
    if dend < n && dend + 1 < n && line.get_char(dend) == '.' {
        let c1 = line.get_char(dend + 1);
        let u1 = c1 as u32;
        if 48 <= u1 && u1 <= 57 {
            proof {
                assert(fseq == digit_run(line@, dend as int + 1));
                lemma_digit_run_props(line@, dend as int + 1);
                assert(fseq[0] == line@[dend as int + 1]);
            }
            frac = ((u1 - 48) as u64) * 100;
            if dend + 2 < n {
                let c2 = line.get_char(dend + 2);
                let u2 = c2 as u32;
                if 48 <= u2 && u2 <= 57 {
                    proof {
                        lemma_run_extends(line@, dend as int + 1, dend as int + 3);
                        assert(fseq[1] == line@[dend as int + 2]);
                    }
                    frac = frac + ((u2 - 48) as u64) * 10;
                    if dend + 3 < n {
                        let c3 = line.get_char(dend + 3);
                        let u3 = c3 as u32;
                        if 48 <= u3 && u3 <= 57 {
                            proof {
                                lemma_run_extends(line@, dend as int + 1, dend as int + 4);
                                assert(fseq[2] == line@[dend as int + 3]);
                            }
                            frac = frac + (u3 - 48) as u64;
                        } else {
                            proof {
                                lemma_frac_short(line@, dend as int, 2);
                            }
                        }
                    } else {
                        proof {
                            lemma_frac_short(line@, dend as int, 2);
                        }
                    }
                } else {
                    proof {
                        lemma_frac_short(line@, dend as int, 1);
                    }
                }
            } else {
                proof {
                    lemma_frac_short(line@, dend as int, 1);
                }
            }
            proof {
                assert(frac == frac_millis(fseq));
            }
        } else {
            proof {
                assert(fseq =~= Seq::<char>::empty());
                assert(frac == frac_millis(fseq));
            }
        }
    } else {
        proof {
            if dend as int + 1 < line@.len() && line@[dend as int] == '.' {
                assert(!is_digit(line@[dend as int + 1]));
            }
            assert(fseq =~= Seq::<char>::empty());
            assert(frac == frac_millis(fseq));
        }
    }
    // combine, clamped into u64
    proof {
        lemma_total_clamp(run_val(digit_run(line@, p as int)), acc, frac);
    }
    let total: u128 = (acc as u128) * 1000 + (frac as u128);
    if total > u64::MAX as u128 {
        Some(u64::MAX)
    } else {
        Some(total as u64)
    }
}

/// If the digit run after the dot has length at least `k` but the
/// character after its first `k` digits is not a digit, the run has
/// exactly `k` digits.
proof fn lemma_frac_short(line: Seq<char>, int_end: int, k: int)
    requires
        0 <= int_end,
        int_end + 1 < line.len(),
        line[int_end] == '.',
        is_digit(line[int_end + 1]),
        1 <= k <= 3,
        int_end + 1 + k <= line.len(),
        forall|u: int| int_end + 1 <= u < int_end + 1 + k ==> is_digit(#[trigger] line[u]),
        int_end + 1 + k >= line.len() || !is_digit(line[int_end + 1 + k]),
    ensures
        time_frac(line, int_end).len() == k,
        forall|j: int|
            0 <= j < k ==> #[trigger] time_frac(line, int_end)[j] == line[int_end + 1 + j],
{
    lemma_digit_run_props(line, int_end + 1);
    lemma_run_extends(line, int_end + 1, int_end + 1 + k);
    let run = digit_run(line, int_end + 1);
    assert(time_frac(line, int_end) == run);
    if run.len() > k {
        assert(run[k] == line[int_end + 1 + k]);
        assert(is_digit(line[int_end + 1 + k]));
        assert(int_end + 1 + k < line.len());
        assert(false);
    }
    assert(run.len() == k);
    assert forall|j: int| 0 <= j < k implies #[trigger] time_frac(line, int_end)[j] == line[int_end
        + 1 + j] by {
        assert(run[j] == line[int_end + 1 + j]);
    }
}

proof fn lemma_total_clamp(v: nat, acc: u64, frac: u64)
    requires
        acc == min_u64(v),
        frac <= 999,
    ensures
        (acc as u128) * 1000 + frac <= u128::MAX,
        (if (acc as u128) * 1000 + (frac as u128) > u64::MAX as u128 {
            u64::MAX as nat
        } else {
            ((acc as u128) * 1000 + (frac as u128)) as nat
        }) == min_u64((v * 1000 + frac) as nat),
{
    assert((acc as u128) * 1000 <= (u64::MAX as u128) * 1000) by (nonlinear_arith)
        requires
            acc <= u64::MAX,
    ;
    assert((u64::MAX as u128) * 1000 + 999 <= u128::MAX) by (nonlinear_arith);
    if v > u64::MAX {
        assert(acc == u64::MAX);
        assert(v * 1000 + frac >= v > u64::MAX) by (nonlinear_arith)
            requires
                v > u64::MAX,
        ;
        assert((acc as u128) * 1000 + (frac as u128) >= acc as u128);
        assert((u64::MAX as u128) * 1000 > u64::MAX as u128) by (nonlinear_arith);
    } else {
        assert(acc == v);
        if (acc as u128) * 1000 + (frac as u128) > u64::MAX as u128 {
            assert(v * 1000 + frac > u64::MAX);
        } else {
            assert(v * 1000 + frac <= u64::MAX);
        }
    }
}

/// Scans a whole log text for the exit-status and wall-time probes and
/// yields the solver result under the given run name. Later matches
/// overwrite earlier ones; a log without matches reports a timeout with
/// zero wall time.
pub fn extract_result_from_log(text: &str, name: &str) -> (r: SolverResult)
    ensures
        r@.code == scan_code(lines_of(text@)),
        r@.millis == min_u64(scan_millis(lines_of(text@))),
        r@.name == name@,
{
    let lines = split_lines(text);
    let ghost lm = lines_of(text@);
    let n = lines.len();
    let mut code = SolverReturnCode::Timeout;
    let mut millis: u64 = 0;
    let mut i: usize = 0;
    proof {
        assert(lm.take(0) =~= Seq::<Seq<char>>::empty());
    }
    while i < n
        invariant
            0 <= i <= n,
            n == lines@.len(),
            lm == lines@.map_values(|l: String| l@),
            lm.len() == n,
            code == scan_code(lm.take(i as int)),
            millis == min_u64(scan_millis(lm.take(i as int))),
        decreases n - i,
    {
        let line = &lines[i];
        proof {
            assert(lm[i as int] == lines@[i as int]@);
            assert(lm.take(i + 1).drop_last() =~= lm.take(i as int));
            assert(lm.take(i + 1).last() == lm[i as int]);
        }
        match probe_exit(line.as_str()) {
            Some(c) => {
                code = c;
            },
            None => {
            },
        }
        match probe_time(line.as_str()) {
            Some(v) => {
                millis = v;
            },
            None => {
            },
        }
        i = i + 1;
    }
    proof {
        assert(lm.take(n as int) =~= lm);
    }
    SolverResult { wall_millis: millis, result: code, name: String::from_str(name) }
}

} // verus!
