//! Bounded history mutation: each run appends the newest sample and drops
//! the oldest entries until at most the configured maximum remain, so the
//! history behaves as a sliding window over the appended samples.

use vstd::prelude::*;

verus! {

/// The bounded window: the last `n` entries of `s`, or all of them when the
/// sequence is short enough.
pub open spec fn spec_trim(s: Seq<i64>, n: int) -> Seq<i64> {
    if s.len() <= n {
        s
    } else {
        s.skip(s.len() - n)
    }
}

/// One run's history mutation: appends the new sample, then drops the
/// oldest entries so that at most `max_len` remain, preserving the order of
/// the survivors.
#[verifier::loop_isolation(false)]
pub fn push_trimmed(hist: &mut Vec<i64>, value: i64, max_len: usize)
    requires
        max_len >= 1,
    ensures
        final(hist)@ == spec_trim(old(hist)@.push(value), max_len as int),
        final(hist)@.len() <= max_len,
{
    hist.push(value);
    let len: usize = hist.len();
    if len > max_len {
        let start: usize = len - max_len;
        let mut out: Vec<i64> = Vec::new();
        let mut q: usize = 0;
        while q < max_len
            invariant
                q <= max_len,
                out@ =~= hist@.subrange(start as int, start as int + q),
            decreases max_len - q,
        {
            out.push(hist[start + q]);
            q += 1;
        }
        proof {
            assert(out@ =~= hist@.skip(hist@.len() - max_len));
        }
        *hist = out;
    }
}

/// Repeatedly appending samples with trimming at bound `n`.
pub open spec fn run_appends(h: Seq<i64>, ws: Seq<i64>, n: int) -> Seq<i64>
    decreases ws.len(),
{
    if ws.len() == 0 {
        h
    } else {
        run_appends(spec_trim(h.push(ws[0]), n), ws.drop_first(), n)
    }
}

/// Trimming early never changes the final window.
proof fn lemma_trim_compose(a: Seq<i64>, b: Seq<i64>, n: int)
    requires
        n >= 1,
    ensures
        spec_trim(spec_trim(a, n) + b, n) =~= spec_trim(a + b, n),
{
    let ta = spec_trim(a, n);
    if a.len() <= n {
        assert(ta + b =~= a + b);
    } else {
        let lhs = spec_trim(ta + b, n);
        let rhs = spec_trim(a + b, n);
        assert(ta.len() == n);
        if b.len() == 0 {
            assert(ta + b =~= ta);
            assert(a + b =~= a);
        } else {
            assert(lhs =~= (ta + b).skip(b.len() as int));
            assert(rhs =~= (a + b).skip(a.len() + b.len() - n));
            assert forall|i: int| 0 <= i < n implies lhs[i] == rhs[i] by {
                assert(lhs[i] == (ta + b)[b.len() + i]);
                assert(rhs[i] == (a + b)[a.len() + b.len() - n + i]);
                if b.len() + i < n {
                    assert((ta + b)[b.len() + i] == ta[b.len() + i]);
                    assert(ta[b.len() + i] == a[a.len() - n + b.len() + i]);
                    assert((a + b)[a.len() + b.len() - n + i] == a[a.len() + b.len() - n + i]);
                } else {
                    assert((ta + b)[b.len() + i] == b[b.len() + i - n]);
                    assert((a + b)[a.len() + b.len() - n + i] == b[b.len() - n + i]);
                }
            }
            assert(lhs =~= rhs);
        }
    }
}

/// Appending one at a time with trimming gives the window of everything.
proof fn lemma_run_appends_trim(h: Seq<i64>, ws: Seq<i64>, n: int)
    requires
        n >= 1,
        ws.len() >= 1,
    ensures
        run_appends(h, ws, n) =~= spec_trim(h + ws, n),
    decreases ws.len(),
{
    let step = spec_trim(h.push(ws[0]), n);
    assert(run_appends(h, ws, n) == run_appends(step, ws.drop_first(), n));
    if ws.len() == 1 {
        assert(ws.drop_first().len() == 0);
        assert(run_appends(step, ws.drop_first(), n) == step);
        assert(h.push(ws[0]) =~= h + ws);
    } else {
        lemma_run_appends_trim(step, ws.drop_first(), n);
        lemma_trim_compose(h.push(ws[0]), ws.drop_first(), n);
        assert(h.push(ws[0]) + ws.drop_first() =~= h + ws);
        assert(run_appends(step, ws.drop_first(), n) =~= spec_trim(step + ws.drop_first(), n));
        assert(spec_trim(step + ws.drop_first(), n) =~= spec_trim(h.push(ws[0]) + ws.drop_first(), n));
    }
}

/// Appending `M >= N` samples one at a time to any starting history, with
/// trimming at bound `N` after each append, leaves exactly the last `N`
/// appended samples, in their original order.
pub proof fn lemma_history_window(h: Seq<i64>, ws: Seq<i64>, n: int)
    requires
        n >= 1,
        ws.len() >= n,
    ensures
        run_appends(h, ws, n).len() == n,
        run_appends(h, ws, n) =~= ws.skip(ws.len() - n),
{
    lemma_run_appends_trim(h, ws, n);
    let all = h + ws;
    if all.len() <= n {
        assert(h.len() == 0);
        assert(ws.len() == n);
        assert(spec_trim(all, n) =~= ws.skip(0));
    } else {
        assert forall|i: int| 0 <= i < n implies spec_trim(all, n)[i] == ws.skip(
            ws.len() - n,
        )[i] by {
            assert(spec_trim(all, n)[i] == all[all.len() - n + i]);
            assert(all[h.len() + (ws.len() - n + i)] == ws[ws.len() - n + i]);
        }
    }
}

} // verus!
