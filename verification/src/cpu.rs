//! CPU counter parsing and usage computation. The counter source is a
//! line-oriented text where the line beginning with the token `cpu` carries
//! at least four whitespace-separated cumulative tick counters — user, nice,
//! system and idle, in that order; further fields are ignored. A counter
//! field that is not a valid number degrades to zero rather than failing,
//! while a `cpu` line with fewer than five fields is a hard read failure.

use crate::digits::{all_digits, digit_val, val_of};
use vstd::prelude::*;

verus! {

/// ASCII whitespace, as the counter-line fields are separated by it.
pub open spec fn is_ws(b: u8) -> bool {
    b == 32 || b == 9 || b == 11 || b == 12 || b == 13
}

/// First index at or after `i` holding a newline, or the end.
pub open spec fn find_nl(s: Seq<u8>, i: int) -> int
    decreases s.len() - i,
{
    if i < 0 || i >= s.len() {
        s.len() as int
    } else if s[i] == 10 {
        i
    } else {
        find_nl(s, i + 1)
    }
}

/// First index at or after `i` holding a non-whitespace byte, or the end.
pub open spec fn skip_ws(l: Seq<u8>, i: int) -> int
    decreases l.len() - i,
{
    if i < 0 || i >= l.len() {
        l.len() as int
    } else if is_ws(l[i]) {
        skip_ws(l, i + 1)
    } else {
        i
    }
}

/// First index at or after `i` holding a whitespace byte, or the end.
pub open spec fn tok_end(l: Seq<u8>, i: int) -> int
    decreases l.len() - i,
{
    if i < 0 || i >= l.len() {
        l.len() as int
    } else if is_ws(l[i]) {
        i
    } else {
        tok_end(l, i + 1)
    }
}

/// `tok_end` never moves backwards.
pub proof fn lemma_tok_end_bounds(l: Seq<u8>, i: int)
    requires
        0 <= i <= l.len(),
    ensures
        i <= tok_end(l, i) <= l.len(),
    decreases l.len() - i,
{
    if i < l.len() && !is_ws(l[i]) {
        lemma_tok_end_bounds(l, i + 1);
    }
}

/// The whitespace-separated tokens of `l` from position `i` on, in order.
pub open spec fn spec_tokens(l: Seq<u8>, i: int) -> Seq<Seq<u8>>
    decreases l.len() - i,
{
    if i < 0 || i >= l.len() {
        Seq::<Seq<u8>>::empty()
    } else if is_ws(l[i]) {
        spec_tokens(l, i + 1)
    } else {
        proof {
            lemma_tok_end_bounds(l, i + 1);
        }
        seq![l.subrange(i, tok_end(l, i))] + spec_tokens(l, tok_end(l, i))
    }
}

/// The value of one counter field: an optional plus sign and decimal
/// digits. Anything else, or a value beyond `u64`, degrades to zero.
pub open spec fn parse_u64_or_zero(t: Seq<u8>) -> u64 {
    let core = if t.len() >= 1 && t[0] == 43 {
        t.drop_first()
    } else {
        t
    };
    if core.len() == 0 || !all_digits(core) || val_of(core) > u64::MAX {
        0u64
    } else {
        val_of(core) as u64
    }
}

/// The line starting at `i`, up to the next newline, a trailing carriage
/// return stripped.
pub open spec fn line_of(s: Seq<u8>, i: int) -> Seq<u8> {
    let raw = s.subrange(i, find_nl(s, i));
    if raw.len() >= 1 && raw.last() == 13 {
        raw.drop_last()
    } else {
        raw
    }
}

/// Whether a line is the aggregate counter line: it begins with `cpu` and a
/// space.
pub open spec fn is_cpu_line(l: Seq<u8>) -> bool {
    l.len() >= 4 && l[0] == 99 && l[1] == 112 && l[2] == 117 && l[3] == 32
}

/// What the counter line yields: the total of the first four counters and
/// the idle counter, or nothing when fields are missing or the total
/// overflows.
pub open spec fn cpu_line_result(l: Seq<u8>) -> Option<(u64, u64)> {
    let ts = spec_tokens(l, 0);
    if ts.len() < 5 {
        None
    } else {
        let user = parse_u64_or_zero(ts[1]);
        let nice = parse_u64_or_zero(ts[2]);
        let system = parse_u64_or_zero(ts[3]);
        let idle = parse_u64_or_zero(ts[4]);
        if user + nice + system + idle > u64::MAX {
            None
        } else {
            Some(((user + nice + system + idle) as u64, idle))
        }
    }
}

/// What reading the counter text owes: the result of the first `cpu` line,
/// or nothing when no such line exists.
pub open spec fn spec_read_proc_stat(s: Seq<u8>, i: int) -> Option<(u64, u64)>
    decreases s.len() - i,
{
    if i < 0 || i >= s.len() {
        None
    } else if is_cpu_line(line_of(s, i)) {
        cpu_line_result(line_of(s, i))
    } else {
        proof {
            lemma_find_nl_bounds(s, i);
        }
        if find_nl(s, i) + 1 >= s.len() {
            None
        } else {
            spec_read_proc_stat(s, find_nl(s, i) + 1)
        }
    }
}

/// `find_nl` never moves backwards.
pub proof fn lemma_find_nl_bounds(s: Seq<u8>, i: int)
    requires
        0 <= i <= s.len(),
    ensures
        i <= find_nl(s, i) <= s.len(),
    decreases s.len() - i,
{
    if i < s.len() && s[i] != 10 {
        lemma_find_nl_bounds(s, i + 1);
    }
}

/// Finds the next newline at or after `from`.
#[verifier::loop_isolation(false)]
fn find_newline(s: &Vec<u8>, from: usize) -> (e: usize)
    requires
        from <= s@.len(),
    ensures
        e as int == find_nl(s@, from as int),
        from <= e <= s@.len(),
{
    let n: usize = s.len();
    let mut j: usize = from;
    while j < n && s[j] != 10
        invariant
            from <= j <= n,
            find_nl(s@, from as int) == find_nl(s@, j as int),
        decreases n - j,
    {
        j += 1;
    }
    j
}

/// Finds the next token in `s` between `p` and `le`; `l` is the line, which
/// spans `ls..le` in `s`. Yields the token's bounds, or nothing when only
/// whitespace is left, and relates both outcomes to the line's token list.
#[verifier::loop_isolation(false)]
fn next_token(
    s: &Vec<u8>,
    p: usize,
    le: usize,
    Ghost(l): Ghost<Seq<u8>>,
    Ghost(ls): Ghost<int>,
) -> (r: Option<(usize, usize)>)
    requires
        0 <= ls <= p as int <= le as int,
        le <= s@.len(),
        l == s@.subrange(ls, le as int),
    ensures
        r matches Some(qe) ==> p <= qe.0 && qe.0 < qe.1 <= le && spec_tokens(l, p - ls) == seq![
            l.subrange(qe.0 - ls, qe.1 - ls),
        ] + spec_tokens(l, qe.1 - ls),
        r is None ==> spec_tokens(l, p - ls) == Seq::<Seq<u8>>::empty(),
{
    proof {
        assert(l.len() == le - ls);
        assert(forall|k: int| 0 <= k < l.len() ==> l[k] == s@[ls + k]);
    }
    let mut q: usize = p;
    while q < le && (s[q] == 32 || s[q] == 9 || s[q] == 11 || s[q] == 12 || s[q] == 13)
        invariant
            p <= q <= le,
            spec_tokens(l, p - ls) == spec_tokens(l, q - ls),
        decreases le - q,
    {
        proof {
            assert(is_ws(l[q - ls]));
        }
        q += 1;
    }
    if q >= le {
        proof {
            assert(q == le);
            assert(spec_tokens(l, q - ls) == Seq::<Seq<u8>>::empty());
        }
        return None;
    }
    proof {
        assert(!is_ws(l[q - ls]));
    }
    let mut e: usize = q + 1;
    proof {
        assert(tok_end(l, q - ls) == tok_end(l, q + 1 - ls));
    }
    while e < le && !(s[e] == 32 || s[e] == 9 || s[e] == 11 || s[e] == 12 || s[e] == 13)
        invariant
            q < e <= le,
            tok_end(l, q - ls) == tok_end(l, e - ls),
        decreases le - e,
    {
        proof {
            assert(!is_ws(l[e - ls]));
            assert(tok_end(l, e - ls) == tok_end(l, e + 1 - ls));
        }
        e += 1;
    }
    proof {
        if e == le {
            assert(tok_end(l, e - ls) == l.len());
        } else {
            assert(is_ws(l[e - ls]));
            assert(tok_end(l, e - ls) == e - ls);
        }
        assert(tok_end(l, q - ls) == e - ls);
        assert(spec_tokens(l, q - ls) == seq![l.subrange(q - ls, e - ls)] + spec_tokens(
            l,
            e - ls,
        ));
    }
    Some((q, e))
}

/// Parses one counter field between `from` and `to`: optional plus sign and
/// decimal digits; anything else, or a value beyond `u64`, yields zero.
#[verifier::loop_isolation(false)]
fn parse_field(s: &Vec<u8>, from: usize, to: usize) -> (r: u64)
    requires
        from <= to <= s@.len(),
    ensures
        r == parse_u64_or_zero(s@.subrange(from as int, to as int)),
{
    let ghost t = s@.subrange(from as int, to as int);
    let mut p: usize = from;
    if p < to && s[p] == 43 {
        p += 1;
    }
    let ghost core: Seq<u8> = if t.len() >= 1 && t[0] == 43 {
        t.drop_first()
    } else {
        t
    };
    proof {
        assert(core =~= s@.subrange(p as int, to as int));
    }
    if p >= to {
        return 0;
    }
    let mut acc: u64 = 0;
    let mut j: usize = p;
    while j < to
        invariant
            p <= j <= to,
            forall|k: int| 0 <= k < j - p ==> crate::digits::is_digit(#[trigger] core[k]),
            acc == val_of(core.take(j - p)),
        decreases to - j,
    {
        let b: u8 = s[j];
        proof {
            assert(core[j - p] == s@[j as int]);
        }
        if b < 48 || b > 57 {
            proof {
                assert(!all_digits(core));
            }
            return 0;
        }
        let dg: u64 = (b - 48) as u64;
        proof {
            crate::digits::lemma_val_of_step(core, j - p);
            assert(digit_val(core[j - p]) == dg as nat);
        }
        if acc > (u64::MAX - dg) / 10 {
            proof {
                assert(acc * 10 + dg > u64::MAX) by (nonlinear_arith)
                    requires
                        acc > (u64::MAX - dg) / 10,
                        dg <= 9,
                ;
                crate::digits::lemma_val_of_prefix(core, j - p + 1);
                assert(val_of(core) > u64::MAX);
            }
            return 0;
        }
        proof {
            assert(acc * 10 + dg <= u64::MAX) by (nonlinear_arith)
                requires
                    acc <= (u64::MAX - dg) / 10,
                    dg <= 9,
            ;
        }
        acc = acc * 10 + dg;
        j += 1;
    }
    proof {
        assert(core.take(to - p) =~= core);
        assert(all_digits(core));
        assert(val_of(core) == acc);
    }
    acc
}

/// Reads the cumulative counters out of counter-file content: finds the
/// first line beginning with `cpu` and a space, splits it on whitespace,
/// and returns the sum of the first four counter fields together with the
/// fourth (idle). A missing `cpu` line, fewer than five fields on it, or a
/// total beyond `u64` yield nothing; a malformed single field counts as
/// zero.
#[verifier::loop_isolation(false)]
#[verifier::rlimit(100)]
pub fn read_proc_stat(content: &Vec<u8>) -> (r: Option<(u64, u64)>)
    ensures
        r == spec_read_proc_stat(content@, 0),
{
    let n: usize = content.len();
    let mut i: usize = 0;
    loop
        invariant
            i <= n,
            n == content@.len(),
            spec_read_proc_stat(content@, 0) == spec_read_proc_stat(content@, i as int),
        decreases n - i,
    {
        if i >= n {
            return None;
        }
        let e: usize = find_newline(content, i);
        let le: usize = if e > i && content[e - 1] == 13 {
            e - 1
        } else {
            e
        };
        let ghost l = line_of(content@, i as int);
        proof {
            assert(content@.subrange(i as int, find_nl(content@, i as int)).len() == e - i);
            if e > i && content@[e - 1] == 13 {
                assert(l =~= content@.subrange(i as int, le as int));
            } else {
                assert(l =~= content@.subrange(i as int, le as int));
            }
            assert(forall|k: int| 0 <= k < l.len() ==> l[k] == content@[i + k]);
        }
        proof {
            assert(le >= i);
        }
        let cpu_line: bool = le - i >= 4 && content[i] == 99 && content[i + 1] == 112 && content[i
            + 2] == 117 && content[i + 3] == 32;
        proof {
            assert(l.len() == le - i);
            assert(cpu_line == is_cpu_line(l));
        }
        if cpu_line {
            let ghost ts = spec_tokens(l, 0);
            proof {
                assert(spec_read_proc_stat(content@, i as int) == cpu_line_result(l));
            }
            let t0 = next_token(content, i, le, Ghost(l), Ghost(i as int));
            if t0.is_none() {
                proof {
                    assert(ts.len() == 0);
                }
                return None;
            }
            let (_q0, e0) = t0.unwrap();
            let t1 = next_token(content, e0, le, Ghost(l), Ghost(i as int));
            if t1.is_none() {
                proof {
                    assert(ts.len() == 1);
                }
                return None;
            }
            let (q1, e1) = t1.unwrap();
            let ghost tok1 = l.subrange(q1 - i, e1 - i);
            let t2 = next_token(content, e1, le, Ghost(l), Ghost(i as int));
            if t2.is_none() {
                proof {
                    assert(ts.len() == 2);
                }
                return None;
            }
            let (q2, e2) = t2.unwrap();
            let ghost tok2 = l.subrange(q2 - i, e2 - i);
            let t3 = next_token(content, e2, le, Ghost(l), Ghost(i as int));
            if t3.is_none() {
                proof {
                    assert(ts.len() == 3);
                }
                return None;
            }
            let (q3, e3) = t3.unwrap();
            let ghost tok3 = l.subrange(q3 - i, e3 - i);
            let t4 = next_token(content, e3, le, Ghost(l), Ghost(i as int));
            if t4.is_none() {
                proof {
                    assert(ts.len() == 4);
                }
                return None;
            }
            let (q4, e4) = t4.unwrap();
            let ghost tok4 = l.subrange(q4 - i, e4 - i);
            proof {
                assert(ts.len() >= 5);
                assert(ts[1] == tok1);
                assert(ts[2] == tok2);
                assert(ts[3] == tok3);
                assert(ts[4] == tok4);
                assert(tok1 =~= content@.subrange(q1 as int, e1 as int));
                assert(tok2 =~= content@.subrange(q2 as int, e2 as int));
                assert(tok3 =~= content@.subrange(q3 as int, e3 as int));
                assert(tok4 =~= content@.subrange(q4 as int, e4 as int));
            }
            let user = parse_field(content, q1, e1);
            let nice = parse_field(content, q2, e2);
            let system = parse_field(content, q3, e3);
            let idle = parse_field(content, q4, e4);
            let total128: u128 = user as u128 + nice as u128 + system as u128 + idle as u128;
            if total128 > u64::MAX as u128 {
                return None;
            }
            return Some((total128 as u64, idle));
        } else {
            if e >= n {
                return None;
            }
            i = e + 1;
        }
    }
}

/// The usage a pair of counter deltas owes, in thousandths of a percent:
/// the nearest integer to `100000 * (dt - di) / dt`, or zero when the total
/// delta is zero, so a stalled counter never divides by zero.
pub open spec fn spec_usage(dt: u64, di: u64) -> int {
    if dt == 0 {
        0
    } else {
        (200000 * (dt - di) + dt) / (2 * dt)
    }
}

/// Computes the CPU usage percentage, in thousandths, from the total and
/// idle counter deltas.
pub fn compute_usage(delta_total: u64, delta_idle: u64) -> (r: i64)
    requires
        delta_idle <= delta_total,
    ensures
        r == spec_usage(delta_total, delta_idle),
        0 <= r <= 100000,
{
    if delta_total == 0 {
        0
    } else {
        let d: u128 = (delta_total - delta_idle) as u128;
        let t: u128 = delta_total as u128;
        let q: u128 = (200000 * d + t) / (2 * t);
        proof {
            assert(q <= 100000) by (nonlinear_arith)
                requires
                    q == (200000 * d + t) / (2 * t),
                    d <= t,
                    t >= 1,
            ;
        }
        q as i64
    }
}

} // verus!
