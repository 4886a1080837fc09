//! Sparkline rendering: a deterministic, pure mapping from a sequence of
//! fixed-point samples to a string of intensity-ordered block glyphs.
//!
//! Each sample is normalized against the minimum and maximum of the sequence
//! and quantized to one of eight glyph levels by nearest-integer rounding
//! (ties round up, i.e. away from zero for these non-negative ratios). When
//! all samples are equal the range falls back to one unit, so every sample
//! normalizes to the lowest level.

use vstd::prelude::*;

verus! {

/// Number of quantization levels in the glyph alphabet.
pub const GLYPH_COUNT: usize = 8;

/// The glyph for quantization level `i`, lowest intensity first.
/// Levels outside `0..8` never arise; they are clamped here for totality.
pub open spec fn glyph(i: int) -> char {
    if i <= 0 {
        '\u{2581}'
    } else if i == 1 {
        '\u{2582}'
    } else if i == 2 {
        '\u{2583}'
    } else if i == 3 {
        '\u{2584}'
    } else if i == 4 {
        '\u{2585}'
    } else if i == 5 {
        '\u{2586}'
    } else if i == 6 {
        '\u{2587}'
    } else {
        '\u{2588}'
    }
}

/// Minimum value of a non-empty sequence of samples.
pub open spec fn seq_min(s: Seq<i64>) -> int
    recommends
        s.len() > 0,
    decreases s.len(),
{
    if s.len() <= 1 {
        s[0] as int
    } else {
        let m = seq_min(s.drop_last());
        if (s.last() as int) < m {
            s.last() as int
        } else {
            m
        }
    }
}

/// Maximum value of a non-empty sequence of samples.
pub open spec fn seq_max(s: Seq<i64>) -> int
    recommends
        s.len() > 0,
    decreases s.len(),
{
    if s.len() <= 1 {
        s[0] as int
    } else {
        let m = seq_max(s.drop_last());
        if (s.last() as int) > m {
            s.last() as int
        } else {
            m
        }
    }
}

/// Quantization level for value `v` within `[mn, mx]`: the nearest integer to
/// `7 * (v - mn) / (mx - mn)`, with the all-equal case mapping to level 0.
pub open spec fn glyph_index(v: int, mn: int, mx: int) -> int {
    if mx <= mn {
        0
    } else {
        (14 * (v - mn) + (mx - mn)) / (2 * (mx - mn))
    }
}

/// The sparkline owed for a sequence of samples: one glyph per sample, in
/// the original order, each quantized against the sequence's min and max.
pub open spec fn spec_spark(s: Seq<i64>) -> Seq<char> {
    Seq::new(s.len(), |i: int| glyph(glyph_index(s[i] as int, seq_min(s), seq_max(s))))
}

/// The minimum and maximum are attained in the sequence and bound every
/// element.
pub proof fn lemma_min_max(s: Seq<i64>)
    requires
        s.len() > 0,
    ensures
        forall|i: int| 0 <= i < s.len() ==> seq_min(s) <= #[trigger] (s[i] as int) <= seq_max(s),
        exists|i: int| 0 <= i < s.len() && s[i] as int == seq_min(s),
        exists|i: int| 0 <= i < s.len() && s[i] as int == seq_max(s),
    decreases s.len(),
{
    if s.len() == 1 {
        assert(s[0] as int == seq_min(s));
        assert(s[0] as int == seq_max(s));
    } else {
        let d = s.drop_last();
        lemma_min_max(d);
        assert(forall|i: int| 0 <= i < d.len() ==> s[i] == #[trigger] d[i]);
        assert forall|i: int| 0 <= i < s.len() implies seq_min(s) <= #[trigger] (s[i] as int)
            <= seq_max(s) by {
            if i < d.len() {
                assert(seq_min(d) <= d[i] as int <= seq_max(d));
            }
        }
        let jn = choose|i: int| 0 <= i < d.len() && d[i] as int == seq_min(d);
        let jx = choose|i: int| 0 <= i < d.len() && d[i] as int == seq_max(d);
        if (s.last() as int) < seq_min(d) {
            assert(s[s.len() - 1] as int == seq_min(s));
        } else {
            assert(s[jn] as int == seq_min(s));
        }
        if (s.last() as int) > seq_max(d) {
            assert(s[s.len() - 1] as int == seq_max(s));
        } else {
            assert(s[jx] as int == seq_max(s));
        }
    }
}

/// The quantization level always lies in `0..8` when `mn <= v <= mx`.
proof fn lemma_index_range(v: int, mn: int, mx: int)
    requires
        mn <= v <= mx,
    ensures
        0 <= glyph_index(v, mn, mx) <= 7,
{
    if mx > mn {
        let d = v - mn;
        let r = mx - mn;
        assert(0 <= (14 * d + r) / (2 * r) <= 7) by (nonlinear_arith)
            requires
                0 <= d <= r,
                r >= 1,
        ;
    }
}

/// The lowest sample quantizes to level 0 and the highest to level 7
/// whenever the range is non-degenerate.
proof fn lemma_index_extremes(mn: int, mx: int)
    requires
        mn < mx,
    ensures
        glyph_index(mn, mn, mx) == 0,
        glyph_index(mx, mn, mx) == 7,
{
    let r = mx - mn;
    assert(r / (2 * r) == 0) by (nonlinear_arith)
        requires
            r >= 1,
    ;
    assert((14 * r + r) / (2 * r) == 7) by (nonlinear_arith)
        requires
            r >= 1,
    ;
}

/// Renders the sample sequence as its sparkline: one glyph per sample in
/// chronological order, so the output length equals the input length, and
/// an empty history renders as the empty string.
pub fn make_sparkline(data: &Vec<i64>) -> (r: String)
    ensures
        r@ == spec_spark(data@),
        r@.len() == data@.len(),
{
    let n = data.len();
    let mut out = String::new();
    if n == 0 {
        return out;
    }
    let mut mn: i64 = data[0];
    let mut mx: i64 = data[0];
    let mut i: usize = 1;
    while i < n
        invariant
            1 <= i <= n,
            n == data@.len(),
            mn as int == seq_min(data@.take(i as int)),
            mx as int == seq_max(data@.take(i as int)),
        decreases n - i,
    {
        let v = data[i];
        proof {
            assert(data@.take(i as int + 1).drop_last() =~= data@.take(i as int));
            assert(data@.take(i as int + 1).last() == data@[i as int]);
        }
        if v < mn {
            mn = v;
        }
        if v > mx {
            mx = v;
        }
        i += 1;
    }
    proof {
        assert(data@.take(n as int) =~= data@);
        lemma_min_max(data@);
    }
    let mut k: usize = 0;
    while k < n
        invariant
            0 <= k <= n,
            n == data@.len(),
            mn as int == seq_min(data@),
            mx as int == seq_max(data@),
            out@ =~= spec_spark(data@).take(k as int),
        decreases n - k,
    {
        let v = data[k];
        proof {
            lemma_min_max(data@);
            lemma_index_range(v as int, mn as int, mx as int);
        }
        let idx: u8 = if mx <= mn {
            0
        } else {
            let d: i128 = (v as i128) - (mn as i128);
            let w: i128 = (mx as i128) - (mn as i128);
            let q: i128 = (14 * d + w) / (2 * w);
            q as u8
        };
        let g: &'static str = if idx == 0 {
            "\u{2581}"
        } else if idx == 1 {
            "\u{2582}"
        } else if idx == 2 {
            "\u{2583}"
        } else if idx == 3 {
            "\u{2584}"
        } else if idx == 4 {
            "\u{2585}"
        } else if idx == 5 {
            "\u{2586}"
        } else if idx == 6 {
            "\u{2587}"
        } else {
            "\u{2588}"
        };
        proof {
            reveal_strlit("\u{2581}");
            reveal_strlit("\u{2582}");
            reveal_strlit("\u{2583}");
            reveal_strlit("\u{2584}");
            reveal_strlit("\u{2585}");
            reveal_strlit("\u{2586}");
            reveal_strlit("\u{2587}");
            reveal_strlit("\u{2588}");
            assert(g@ =~= seq![glyph(glyph_index(data@[k as int] as int, seq_min(data@), seq_max(data@)))]);
            assert(spec_spark(data@).take(k as int + 1) =~= spec_spark(data@).take(k as int) + g@);
        }
        out.append(g);
        k += 1;
    }
    proof {
        assert(spec_spark(data@).take(n as int) =~= spec_spark(data@));
    }
    out
}

/// A single sample always renders as exactly the lowest-intensity glyph,
/// whatever its value.
pub proof fn lemma_spark_single(v: i64)
    ensures
        spec_spark(seq![v]) =~= seq!['\u{2581}'],
{
    let s = seq![v];
    assert(seq_min(s) == v as int);
    assert(seq_max(s) == v as int);
}

/// When not all samples are equal, every sample equal to the minimum renders
/// as the lowest glyph and every sample equal to the maximum as the highest.
pub proof fn lemma_spark_extremes(s: Seq<i64>, i: int)
    requires
        0 <= i < s.len(),
        !(forall|j: int, k: int|
            0 <= j < s.len() && 0 <= k < s.len() ==> #[trigger] s[j] == #[trigger] s[k]),
    ensures
        s[i] as int == seq_min(s) ==> spec_spark(s)[i] == glyph(0),
        s[i] as int == seq_max(s) ==> spec_spark(s)[i] == glyph(7),
{
    lemma_min_max(s);
    let (j, k) = choose|j: int, k: int|
        0 <= j < s.len() && 0 <= k < s.len() && s[j] != s[k];
    assert(seq_min(s) < seq_max(s)) by {
        if seq_min(s) == seq_max(s) {
            assert(s[j] as int == seq_min(s));
            assert(s[k] as int == seq_min(s));
        }
    }
    lemma_index_extremes(seq_min(s), seq_max(s));
}

/// Index `j` is hit by the index mapping `p`.
pub open spec fn in_image(p: Seq<int>, j: int) -> bool {
    exists|i: int| 0 <= i < p.len() && #[trigger] p[i] == j
}

/// Rendering is order-preserving: permuting the samples permutes the output
/// glyphs identically, position for position.
pub proof fn lemma_spark_permutation(s: Seq<i64>, t: Seq<i64>, p: Seq<int>)
    requires
        t.len() == s.len(),
        p.len() == s.len(),
        forall|i: int| 0 <= i < p.len() ==> 0 <= #[trigger] p[i] < s.len(),
        forall|j: int| 0 <= j < s.len() ==> #[trigger] in_image(p, j),
        forall|i: int| 0 <= i < t.len() ==> #[trigger] t[i] == s[p[i]],
    ensures
        forall|i: int| 0 <= i < t.len() ==> #[trigger] spec_spark(t)[i] == spec_spark(s)[p[i]],
{
    if s.len() > 0 {
        lemma_min_max(s);
        lemma_min_max(t);
        assert(seq_min(s) == seq_min(t)) by {
            let a = choose|i: int| 0 <= i < t.len() && t[i] as int == seq_min(t);
            assert(seq_min(s) <= s[p[a]] as int);
            let b = choose|i: int| 0 <= i < s.len() && s[i] as int == seq_min(s);
            assert(in_image(p, b));
            let c = choose|i: int| 0 <= i < p.len() && p[i] == b;
            assert(seq_min(t) <= t[c] as int);
        }
        assert(seq_max(s) == seq_max(t)) by {
            let a = choose|i: int| 0 <= i < t.len() && t[i] as int == seq_max(t);
            assert(s[p[a]] as int <= seq_max(s));
            let b = choose|i: int| 0 <= i < s.len() && s[i] as int == seq_max(s);
            assert(in_image(p, b));
            let c = choose|i: int| 0 <= i < p.len() && p[i] == b;
            assert(t[c] as int <= seq_max(t));
        }
    }
}

} // verus!
