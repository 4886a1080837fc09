//! History file codec: the persisted representation of a sample history is a
//! JSON array of decimal numbers, e.g. `[1.000,2.500]`, one number per
//! sample, each with exactly three fractional digits (the fixed-point
//! precision). Serialization and parsing are exact inverses; content that is
//! not a serialized history parses as the empty history, never as an error.

use crate::digits::{
    digit_byte, digit_val, digits_of, is_digit, lemma_digits_of_injective, lemma_digits_of_wf,
    lemma_val_of_digits_of, lemma_val_of_prefix, lemma_val_of_step, push_digits, val_of,
};
use vstd::math::abs;
use vstd::prelude::*;

verus! {

/// Largest integer part that any `i64` fixed-point sample can have.
pub const MAX_INT_PART: u64 = 9223372036854775;

/// The three fractional digit bytes of `f`, zero-padded, for `f < 1000`.
pub open spec fn pad3(f: nat) -> Seq<u8> {
    seq![
        digit_byte((f / 100) as int),
        digit_byte(((f / 10) % 10) as int),
        digit_byte((f % 10) as int),
    ]
}

/// The serialized form of one sample: optional minus sign, the integer part
/// without leading zeros, a dot, and exactly three fractional digits.
pub open spec fn spec_num(v: i64) -> Seq<u8> {
    let a = abs(v as int);
    (if v < 0 {
        seq![45u8]
    } else {
        Seq::<u8>::empty()
    }) + digits_of((a / 1000) as nat) + seq![46u8] + pad3((a % 1000) as nat)
}

/// The comma-separated number list of a history.
pub open spec fn spec_items(s: Seq<i64>) -> Seq<u8>
    decreases s.len(),
{
    if s.len() == 0 {
        Seq::<u8>::empty()
    } else if s.len() == 1 {
        spec_num(s[0])
    } else {
        spec_num(s[0]) + seq![44u8] + spec_items(s.drop_first())
    }
}

/// The serialized form of a whole history: the number list in brackets.
pub open spec fn spec_ser(s: Seq<i64>) -> Seq<u8> {
    seq![91u8] + spec_items(s) + seq![93u8]
}

/// What loading owes for file content: the unique history whose serialized
/// form is the content, or the empty history when there is none.
pub open spec fn spec_parse(s: Seq<u8>) -> Seq<i64> {
    if exists|vs: Seq<i64>| spec_ser(vs) == s {
        choose|vs: Seq<i64>| spec_ser(vs) == s
    } else {
        Seq::<i64>::empty()
    }
}

/// Shape of a serialized number: it is at least five bytes, it holds neither
/// comma nor bracket, and it starts with a minus sign exactly for negative
/// samples and with a digit otherwise.
pub proof fn lemma_num_wf(v: i64)
    ensures
        spec_num(v).len() >= 5,
        forall|i: int|
            0 <= i < spec_num(v).len() ==> (is_digit(#[trigger] spec_num(v)[i]) || spec_num(v)[i]
                == 45 || spec_num(v)[i] == 46),
        v < 0 ==> spec_num(v)[0] == 45,
        v >= 0 ==> is_digit(spec_num(v)[0]),
{
    let a = abs(v as int);
    lemma_digits_of_wf((a / 1000) as nat);
}

/// The number list of a non-empty history is non-empty; of an empty one,
/// empty.
pub proof fn lemma_items_len(s: Seq<i64>)
    ensures
        s.len() == 0 ==> spec_items(s).len() == 0,
        s.len() >= 1 ==> spec_items(s).len() >= 5,
{
    if s.len() >= 1 {
        lemma_num_wf(s[0]);
    }
}

/// Serialized numbers are injective.
proof fn lemma_num_injective(v1: i64, v2: i64)
    requires
        spec_num(v1) == spec_num(v2),
    ensures
        v1 == v2,
{
    let a1 = abs(v1 as int);
    let a2 = abs(v2 as int);
    let d1 = digits_of((a1 / 1000) as nat);
    let d2 = digits_of((a2 / 1000) as nat);
    lemma_digits_of_wf((a1 / 1000) as nat);
    lemma_digits_of_wf((a2 / 1000) as nat);
    lemma_num_wf(v1);
    lemma_num_wf(v2);
    assert((v1 < 0) == (v2 < 0)) by {
        if v1 < 0 && v2 >= 0 {
            assert(spec_num(v1)[0] == 45);
            assert(is_digit(spec_num(v2)[0]));
        }
        if v2 < 0 && v1 >= 0 {
            assert(spec_num(v2)[0] == 45);
            assert(is_digit(spec_num(v1)[0]));
        }
    }
    let sg: int = if v1 < 0 {
        1
    } else {
        0
    };
    // Both serialized numbers are sign + digits + '.' + three digits; the
    // digit runs must have equal length, else one side has a digit where the
    // other has the dot.
    let n1 = spec_num(v1);
    assert(n1.len() == sg + d1.len() + 4);
    assert(n1.len() == sg + d2.len() + 4);
    assert(d1.len() == d2.len()) by {
        if d1.len() < d2.len() {
            assert(n1[sg + d1.len()] == 46);
            assert(n1[sg + d1.len()] == d2[d1.len() as int]);
            assert(is_digit(d2[d1.len() as int]));
        }
        if d2.len() < d1.len() {
            assert(n1[sg + d2.len()] == d1[d2.len() as int]);
            assert(spec_num(v2)[sg + d2.len()] == 46);
            assert(is_digit(d1[d2.len() as int]));
        }
    }
    assert(d1 =~= d2) by {
        assert(forall|i: int| 0 <= i < d1.len() ==> #[trigger] d1[i] == n1[sg + i]);
        assert(forall|i: int| 0 <= i < d2.len() ==> #[trigger] d2[i] == n1[sg + i]);
    }
    lemma_digits_of_injective((a1 / 1000) as nat, (a2 / 1000) as nat);
    let f1 = (a1 % 1000) as nat;
    let f2 = (a2 % 1000) as nat;
    assert(pad3(f1) =~= pad3(f2)) by {
        let base = sg + d1.len() + 1;
        assert(forall|i: int| 0 <= i < 3 ==> #[trigger] pad3(f1)[i] == n1[base + i]);
        assert(forall|i: int| 0 <= i < 3 ==> #[trigger] pad3(f2)[i] == n1[base + i]);
    }
    assert(f1 == f2) by {
        assert(digit_val(pad3(f1)[0]) == f1 / 100);
        assert(digit_val(pad3(f1)[1]) == (f1 / 10) % 10);
        assert(digit_val(pad3(f1)[2]) == f1 % 10);
        assert(digit_val(pad3(f2)[0]) == f2 / 100);
        assert(digit_val(pad3(f2)[1]) == (f2 / 10) % 10);
        assert(digit_val(pad3(f2)[2]) == f2 % 10);
        lemma_pad3_val(f1);
        lemma_pad3_val(f2);
    }
    assert(a1 == a2);
    assert(v1 == v2);
}

/// A number below one thousand is recovered from its three padded digits.
proof fn lemma_pad3_val(f: nat)
    requires
        f < 1000,
    ensures
        100 * (f / 100) + 10 * ((f / 10) % 10) + f % 10 == f,
{
    assert(100 * (f / 100) + 10 * ((f / 10) % 10) + f % 10 == f) by (nonlinear_arith)
        requires
            f < 1000,
    ;
}

/// Number lists are injective.
proof fn lemma_items_injective(a: Seq<i64>, b: Seq<i64>)
    requires
        spec_items(a) == spec_items(b),
    ensures
        a =~= b,
    decreases a.len(),
{
    lemma_items_len(a);
    lemma_items_len(b);
    if a.len() == 0 || b.len() == 0 {
        assert(a.len() == 0 && b.len() == 0);
    } else {
        let la = spec_num(a[0]).len();
        let lb = spec_num(b[0]).len();
        lemma_num_wf(a[0]);
        lemma_num_wf(b[0]);
        let ia = spec_items(a);
        let ib = spec_items(b);
        // The first comma must sit at the same offset on both sides, so the
        // leading numbers coincide.
        assert(la == lb || a[0] == b[0]) by {
            if la < lb {
                if a.len() >= 2 {
                    assert(ia[la as int] == (spec_num(a[0]) + seq![44u8] + spec_items(
                        a.drop_first(),
                    ))[la as int]);
                    assert(ia[la as int] == 44);
                    if b.len() >= 2 {
                        assert(ib[la as int] == (spec_num(b[0]) + seq![44u8] + spec_items(
                            b.drop_first(),
                        ))[la as int]);
                    }
                    assert(ib[la as int] == spec_num(b[0])[la as int]);
                } else {
                    // items(a) is exactly the first number, shorter than b's.
                    assert(ia.len() == la);
                    if b.len() >= 2 {
                        assert(ib.len() > lb);
                    } else {
                        assert(ib.len() == lb);
                    }
                }
            }
            if lb < la {
                if b.len() >= 2 {
                    assert(ib[lb as int] == (spec_num(b[0]) + seq![44u8] + spec_items(
                        b.drop_first(),
                    ))[lb as int]);
                    assert(ib[lb as int] == 44);
                    if a.len() >= 2 {
                        assert(ia[lb as int] == (spec_num(a[0]) + seq![44u8] + spec_items(
                            a.drop_first(),
                        ))[lb as int]);
                    }
                    assert(ia[lb as int] == spec_num(a[0])[lb as int]);
                } else {
                    assert(ib.len() == lb);
                    if a.len() >= 2 {
                        assert(ia.len() > la);
                    } else {
                        assert(ia.len() == la);
                    }
                }
            }
        }
        assert(la == lb) by {
            if a[0] == b[0] {
            }
        }
        assert(spec_num(a[0]) =~= spec_num(b[0])) by {
            assert forall|i: int| 0 <= i < la implies spec_num(a[0])[i] == spec_num(b[0])[i] by {
                if a.len() >= 2 {
                    assert(ia[i] == (spec_num(a[0]) + seq![44u8] + spec_items(a.drop_first()))[i]);
                }
                assert(ia[i] == spec_num(a[0])[i]);
                if b.len() >= 2 {
                    assert(ib[i] == (spec_num(b[0]) + seq![44u8] + spec_items(b.drop_first()))[i]);
                }
                assert(ib[i] == spec_num(b[0])[i]);
            }
        }
        lemma_num_injective(a[0], b[0]);
        if a.len() == 1 && b.len() == 1 {
            assert(a =~= b);
        } else if a.len() >= 2 && b.len() >= 2 {
            assert(spec_items(a.drop_first()) =~= spec_items(b.drop_first())) by {
                let ra = spec_items(a.drop_first());
                let rb = spec_items(b.drop_first());
                assert(ia.len() == la + 1 + ra.len());
                assert(ib.len() == lb + 1 + rb.len());
                assert(ra.len() == rb.len());
                assert forall|i: int| 0 <= i < ra.len() implies ra[i] == rb[i] by {
                    assert(ia[la + 1 + i] == (spec_num(a[0]) + seq![44u8] + ra)[la + 1 + i]);
                    assert((spec_num(a[0]) + seq![44u8] + ra)[la + 1 + i] == ra[i]);
                    assert(ib[lb + 1 + i] == (spec_num(b[0]) + seq![44u8] + rb)[lb + 1 + i]);
                    assert((spec_num(b[0]) + seq![44u8] + rb)[lb + 1 + i] == rb[i]);
                }
            }
            lemma_items_injective(a.drop_first(), b.drop_first());
            assert forall|i: int| 0 <= i < a.len() implies a[i] == b[i] by {
                if i > 0 {
                    assert(a.drop_first()[i - 1] == a[i]);
                    assert(b.drop_first()[i - 1] == b[i]);
                }
            }
            assert(a =~= b);
        } else {
            // One list has a single number, the other more: their lengths
            // cannot match.
            if a.len() == 1 {
                assert(ia.len() == la);
                assert(ib.len() >= lb + 1 + 5) by {
                    lemma_items_len(b.drop_first());
                }
            } else {
                assert(ib.len() == lb);
                assert(ia.len() >= la + 1 + 5) by {
                    lemma_items_len(a.drop_first());
                }
            }
            assert(false);
        }
    }
}

/// Serialization is injective: distinct histories have distinct files.
pub proof fn lemma_ser_injective(a: Seq<i64>, b: Seq<i64>)
    requires
        spec_ser(a) == spec_ser(b),
    ensures
        a =~= b,
{
    assert(spec_items(a) =~= spec_items(b)) by {
        let sa = spec_ser(a);
        assert(spec_items(a).len() == sa.len() - 2);
        assert(spec_items(b).len() == sa.len() - 2);
        assert(forall|i: int|
            0 <= i < spec_items(a).len() ==> #[trigger] spec_items(a)[i] == sa[i + 1]);
        assert(forall|i: int|
            0 <= i < spec_items(b).len() ==> #[trigger] spec_items(b)[i] == sa[i + 1]);
    }
    lemma_items_injective(a, b);
}

/// Content that is not bracketed like an array parses as the empty
/// history.
pub proof fn lemma_parse_non_array(s: Seq<u8>)
    requires
        s.len() < 2 || s[0] != 91 || s[s.len() - 1] != 93,
    ensures
        spec_parse(s) == Seq::<i64>::empty(),
{
    if exists|vs: Seq<i64>| spec_ser(vs) == s {
        let vs = choose|vs: Seq<i64>| spec_ser(vs) == s;
        assert(s.len() == 2 + spec_items(vs).len());
        assert(s[0] == (seq![91u8] + spec_items(vs) + seq![93u8])[0]);
        assert(s[s.len() - 1] == (seq![91u8] + spec_items(vs) + seq![93u8])[s.len() - 1]);
        assert(false);
    }
}

/// Saving and then loading a history yields it back unchanged.
pub proof fn lemma_round_trip(vs: Seq<i64>)
    ensures
        spec_parse(spec_ser(vs)) == vs,
{
    let s = spec_ser(vs);
    assert(exists|x: Seq<i64>| spec_ser(x) == s);
    let c = choose|x: Seq<i64>| spec_ser(x) == s;
    lemma_ser_injective(c, vs);
}

/// Extending a number list appends a comma (when it was non-empty) and the
/// new number.
proof fn lemma_items_push(t: Seq<i64>, x: i64)
    ensures
        spec_items(t.push(x)) =~= spec_items(t) + (if t.len() == 0 {
            Seq::<u8>::empty()
        } else {
            seq![44u8]
        }) + spec_num(x),
    decreases t.len(),
{
    let u = t.push(x);
    if t.len() == 0 {
        assert(u.len() == 1);
        assert(u[0] == x);
    } else if t.len() == 1 {
        assert(u.drop_first() =~= seq![x]);
        assert(spec_items(u.drop_first()) == spec_num(x));
    } else {
        assert(u.drop_first() =~= t.drop_first().push(x));
        lemma_items_push(t.drop_first(), x);
    }
}

/// Appends the serialized form of one sample to `out`.
fn write_num(out: &mut Vec<u8>, v: i64)
    ensures
        final(out)@ == old(out)@ + spec_num(v),
{
    let a: u64 = if v < 0 {
        let m: i128 = -(v as i128);
        m as u64
    } else {
        v as u64
    };
    proof {
        assert(a as int == abs(v as int));
    }
    if v < 0 {
        out.push(45);
    }
    push_digits(out, a / 1000);
    out.push(46);
    let f: u64 = a % 1000;
    out.push(48 + (f / 100) as u8);
    out.push(48 + ((f / 10) % 10) as u8);
    out.push(48 + (f % 10) as u8);
    proof {
        assert(out@ =~= old(out)@ + spec_num(v));
    }
}

/// Serializes a history for persistence; [`spec_parse`] recovers it exactly.
pub fn serialize_history(hist: &Vec<i64>) -> (r: Vec<u8>)
    ensures
        r@ == spec_ser(hist@),
{
    let mut out: Vec<u8> = Vec::new();
    out.push(91);
    let n = hist.len();
    let mut k: usize = 0;
    while k < n
        invariant
            k <= n,
            n == hist@.len(),
            out@ =~= seq![91u8] + spec_items(hist@.take(k as int)),
        decreases n - k,
    {
        if k > 0 {
            out.push(44);
        }
        write_num(&mut out, hist[k]);
        proof {
            lemma_items_push(hist@.take(k as int), hist@[k as int]);
            assert(hist@.take(k as int).push(hist@[k as int]) =~= hist@.take(k as int + 1));
            assert(out@ =~= seq![91u8] + spec_items(hist@.take(k as int + 1)));
        }
        k += 1;
    }
    out.push(93);
    proof {
        assert(hist@.take(n as int) =~= hist@);
        assert(out@ =~= spec_ser(hist@));
    }
    out
}

/// Length of the sign part of a serialized sample.
pub open spec fn sign_len(v: i64) -> int {
    if v < 0 {
        1
    } else {
        0
    }
}

/// The integer-part digit string of a serialized sample.
pub open spec fn int_digits(v: i64) -> Seq<u8> {
    digits_of((abs(v as int) / 1000) as nat)
}

/// The fractional part of a sample, in thousandths.
pub open spec fn frac_of(v: i64) -> nat {
    (abs(v as int) % 1000) as nat
}

/// Byte-level layout of a serialized sample.
proof fn lemma_num_index(v: i64)
    ensures
        spec_num(v).len() == sign_len(v) + int_digits(v).len() + 4,
        v < 0 ==> spec_num(v)[0] == 45,
        forall|k: int|
            0 <= k < int_digits(v).len() ==> #[trigger] spec_num(v)[sign_len(v) + k]
                == int_digits(v)[k],
        spec_num(v)[sign_len(v) + int_digits(v).len()] == 46,
        spec_num(v)[sign_len(v) + int_digits(v).len() + 1] == digit_byte((frac_of(v) / 100) as int),
        spec_num(v)[sign_len(v) + int_digits(v).len() + 2] == digit_byte(
            ((frac_of(v) / 10) % 10) as int,
        ),
        spec_num(v)[sign_len(v) + int_digits(v).len() + 3] == digit_byte((frac_of(v) % 10) as int),
{
    let sgn: Seq<u8> = if v < 0 {
        seq![45u8]
    } else {
        Seq::<u8>::empty()
    };
    let d = int_digits(v);
    let p3 = pad3(frac_of(v));
    let sg = sign_len(v);
    assert(spec_num(v) == sgn + d + seq![46u8] + p3);
    assert forall|k: int| 0 <= k < d.len() implies spec_num(v)[sg + k] == d[k] by {
        assert((sgn + d + seq![46u8] + p3)[sg + k] == (sgn + d + seq![46u8])[sg + k]);
        assert((sgn + d + seq![46u8])[sg + k] == (sgn + d)[sg + k]);
        assert((sgn + d)[sg + k] == d[k]);
    }
    assert((sgn + d + seq![46u8] + p3)[sg + d.len()] == (sgn + d + seq![46u8])[sg + d.len()]);
    assert((sgn + d + seq![46u8])[sg + d.len()] == 46);
    assert((sgn + d + seq![46u8] + p3)[sg + d.len() + 1] == p3[0]);
    assert((sgn + d + seq![46u8] + p3)[sg + d.len() + 2] == p3[1]);
    assert((sgn + d + seq![46u8] + p3)[sg + d.len() + 3] == p3[2]);
    if v < 0 {
        assert(spec_num(v)[0] == (sgn + d + seq![46u8] + p3)[0]);
    }
}

/// Splitting a number list after the first `m` numbers exposes the comma.
proof fn lemma_items_split(vs: Seq<i64>, m: int)
    requires
        1 <= m < vs.len(),
    ensures
        spec_items(vs) =~= spec_items(vs.take(m)) + seq![44u8] + spec_items(vs.skip(m)),
    decreases m,
{
    if m == 1 {
        assert(vs.take(1) =~= seq![vs[0]]);
        assert(vs.skip(1) =~= vs.drop_first());
        assert(spec_items(vs.take(1)) == spec_num(vs[0]));
    } else {
        let t = vs.drop_first();
        lemma_items_split(t, m - 1);
        assert(t.take(m - 1) =~= vs.take(m).drop_first());
        assert(t.skip(m - 1) =~= vs.skip(m));
        assert(vs.take(m).len() == m);
        assert(spec_items(vs.take(m)) == spec_num(vs.take(m)[0]) + seq![44u8] + spec_items(
            vs.take(m).drop_first(),
        ));
        assert(vs.take(m)[0] == vs[0]);
        assert(spec_items(vs) == spec_num(vs[0]) + seq![44u8] + spec_items(t));
        assert(spec_items(t) == spec_items(vs.take(m).drop_first()) + seq![44u8] + spec_items(
            vs.skip(m),
        ));
    }
}

/// A serialized sample for `v` sits at offset `i` of `s`.
pub open spec fn num_at(s: Seq<u8>, i: int, v: i64) -> bool {
    &&& 0 <= i
    &&& i + spec_num(v).len() <= s.len()
    &&& s.subrange(i, i + spec_num(v).len() as int) == spec_num(v)
}

/// Where the `k`-th number of a serialized history starts and what follows
/// it: a comma before every further number, the closing bracket after the
/// last.
proof fn lemma_parse_position(vs: Seq<i64>, k: int)
    requires
        0 <= k < vs.len(),
    ensures
        ({
            let i = 1 + spec_items(vs.take(k)).len() + (if k == 0 {
                0int
            } else {
                1int
            });
            let p = i + spec_num(vs[k]).len();
            &&& num_at(spec_ser(vs), i, vs[k])
            &&& p == 1 + spec_items(vs.take(k + 1)).len()
            &&& (k + 1 < vs.len() ==> spec_ser(vs)[p] == 44 && p < spec_ser(vs).len() - 1)
            &&& (k + 1 == vs.len() ==> p == spec_ser(vs).len() - 1 && spec_ser(vs)[p] == 93)
        }),
{
    let sc = spec_ser(vs);
    let nm = spec_num(vs[k]);
    let ln = nm.len() as int;
    let bpre = spec_items(vs.take(k)) + (if k == 0 {
        Seq::<u8>::empty()
    } else {
        seq![44u8]
    });
    let i = 1 + bpre.len() as int;
    let p = i + ln;
    lemma_items_push(vs.take(k), vs[k]);
    assert(vs.take(k).push(vs[k]) =~= vs.take(k + 1));
    let a = spec_items(vs.take(k + 1));
    assert(a =~= bpre + nm);
    assert(p == 1 + a.len());
    lemma_num_wf(vs[k]);
    if k + 1 == vs.len() {
        assert(vs.take(k + 1) =~= vs);
        assert(spec_items(vs) =~= bpre + nm);
        assert(sc.len() == 2 + spec_items(vs).len());
        assert(p == sc.len() - 1);
        assert(sc[p] == (seq![91u8] + spec_items(vs) + seq![93u8])[p]);
        assert(sc[p] == 93);
        assert forall|q: int| 0 <= q < ln implies sc.subrange(i, i + ln)[q] == nm[q] by {
            assert(sc.subrange(i, i + ln)[q] == sc[i + q]);
            assert(sc[i + q] == (seq![91u8] + spec_items(vs) + seq![93u8])[i + q]);
            assert((seq![91u8] + spec_items(vs) + seq![93u8])[i + q] == (seq![91u8] + spec_items(
                vs,
            ))[i + q]);
            assert((seq![91u8] + spec_items(vs))[i + q] == spec_items(vs)[i + q - 1]);
            assert(spec_items(vs)[i - 1 + q] == (bpre + nm)[i - 1 + q]);
            assert((bpre + nm)[i - 1 + q] == nm[q]);
        }
        assert(sc.subrange(i, i + ln) =~= nm);
    } else {
        lemma_items_split(vs, k + 1);
        let rest = spec_items(vs.skip(k + 1));
        lemma_items_len(vs.skip(k + 1));
        assert(vs.skip(k + 1).len() >= 1);
        assert(rest.len() >= 5);
        assert(spec_items(vs) =~= a + seq![44u8] + rest);
        assert(sc.len() == 2 + spec_items(vs).len());
        assert(p + 1 + rest.len() == sc.len() - 1);
        assert(p < sc.len() - 1);
        assert(sc[p] == (seq![91u8] + spec_items(vs) + seq![93u8])[p]);
        assert((seq![91u8] + spec_items(vs) + seq![93u8])[p] == (seq![91u8] + spec_items(vs))[p]);
        assert((seq![91u8] + spec_items(vs))[p] == spec_items(vs)[p - 1]);
        assert(spec_items(vs)[p - 1] == (a + seq![44u8] + rest)[p - 1]);
        assert((a + seq![44u8] + rest)[p - 1] == (a + seq![44u8])[p - 1]);
        assert((a + seq![44u8])[p - 1] == 44);
        assert forall|q: int| 0 <= q < ln implies sc.subrange(i, i + ln)[q] == nm[q] by {
            assert(sc.subrange(i, i + ln)[q] == sc[i + q]);
            assert(sc[i + q] == (seq![91u8] + spec_items(vs) + seq![93u8])[i + q]);
            assert((seq![91u8] + spec_items(vs) + seq![93u8])[i + q] == (seq![91u8] + spec_items(
                vs,
            ))[i + q]);
            assert((seq![91u8] + spec_items(vs))[i + q] == spec_items(vs)[i + q - 1]);
            assert(spec_items(vs)[i - 1 + q] == (a + seq![44u8] + rest)[i - 1 + q]);
            assert((a + seq![44u8] + rest)[i - 1 + q] == (a + seq![44u8])[i - 1 + q]);
            assert((a + seq![44u8])[i - 1 + q] == a[i - 1 + q]);
            assert(a[i - 1 + q] == (bpre + nm)[i - 1 + q]);
            assert((bpre + nm)[i - 1 + q] == nm[q]);
        }
        assert(sc.subrange(i, i + ln) =~= nm);
    }
}

/// Scans one serialized number starting at offset `i`. When the ghost target
/// says that the serialized form of `v` sits there, the scan is guaranteed to
/// succeed with exactly `v` and to consume exactly its bytes.
#[verifier::loop_isolation(false)]
fn scan_num(s: &Vec<u8>, i: usize, Ghost(tv): Ghost<Option<i64>>) -> (r: Option<(i64, usize)>)
    requires
        i <= s@.len(),
        tv matches Some(v) ==> num_at(s@, i as int, v),
    ensures
        tv matches Some(v) ==> r == Some((v, (i + spec_num(v).len()) as usize)),
        r matches Some(p) ==> i < p.1 <= s@.len(),
{
    let n: usize = s.len();
    let ghost wf = tv.is_some();
    let ghost v: i64 = if wf {
        tv.unwrap()
    } else {
        0
    };
    let ghost a: nat = abs(v as int) as nat;
    let ghost ip: nat = (a / 1000) as nat;
    let ghost d: Seq<u8> = int_digits(v);
    let ghost nv: Seq<u8> = spec_num(v);
    proof {
        if wf {
            lemma_digits_of_wf(ip);
            lemma_num_index(v);
            lemma_val_of_digits_of(ip);
            assert forall|q: int| 0 <= q < nv.len() implies s@[i + q] == nv[q] by {
                assert(s@.subrange(i as int, i + nv.len() as int)[q] == s@[i + q]);
            }
            assert(ip <= MAX_INT_PART) by {
                assert(a <= 9223372036854775808int);
            }
        }
    }
    let mut j: usize = i;
    let mut neg: bool = false;
    if j < n && s[j] == 45 {
        neg = true;
        j += 1;
    }
    proof {
        if wf {
            if v < 0 {
                assert(s@[i as int] == 45);
            } else {
                assert(is_digit(nv[0]));
                assert(s@[i as int] != 45);
            }
            assert(neg == (v < 0));
            assert(j == i + sign_len(v));
        }
    }
    let ghost start = j;
    let ghost sg: int = if neg {
        1int
    } else {
        0int
    };
    let mut acc: u64 = 0;
    let mut cnt: usize = 0;
    while j < n && 48 <= s[j] && s[j] <= 57
        invariant
            start <= j <= n,
            j - start == cnt,
            acc <= MAX_INT_PART,
            wf ==> cnt <= d.len() && acc == val_of(d.take(cnt as int)),
        decreases n - j,
    {
        proof {
            if wf {
                if cnt == d.len() {
                    assert(s@[j as int] == nv[sg + d.len()]);
                    assert(s@[j as int] == 46);
                    assert(false);
                }
                assert(s@[j as int] == nv[sg + cnt]);
                assert(nv[sg + cnt] == d[cnt as int]);
                lemma_val_of_step(d, cnt as int);
                lemma_val_of_prefix(d, cnt as int + 1);
            }
        }
        let dg: u8 = s[j] - 48;
        let t: u64 = acc * 10 + (dg as u64);
        proof {
            if wf {
                assert(digit_val(d[cnt as int]) == dg as nat);
                assert(t == val_of(d.take(cnt as int + 1)));
                assert(t <= ip);
            }
        }
        if t > MAX_INT_PART {
            proof {
                if wf {
                    assert(false);
                }
            }
            return None;
        }
        acc = t;
        j += 1;
        cnt += 1;
    }
    proof {
        if wf {
            if cnt < d.len() {
                assert(s@[j as int] == nv[sg + cnt]);
                assert(nv[sg + cnt] == d[cnt as int]);
                assert(is_digit(d[cnt as int]));
                assert(j < n);
                assert(false);
            }
            assert(d.take(cnt as int) =~= d);
            assert(acc == ip);
        }
    }
    if cnt == 0 {
        proof {
            if wf {
                assert(d.len() >= 1);
                assert(false);
            }
        }
        return None;
    }
    if j >= n {
        proof {
            if wf {
                assert(j as int == i + sg + d.len());
                assert(i + nv.len() <= n);
                assert(false);
            }
        }
        return None;
    }
    let dot: u8 = s[j];
    if dot != 46 {
        proof {
            if wf {
                assert(s@[j as int] == nv[sg + d.len()]);
                assert(false);
            }
        }
        return None;
    }
    j += 1;
    if n - j < 3 {
        proof {
            if wf {
                assert(i + nv.len() <= n);
                assert(false);
            }
        }
        return None;
    }
    let c1: u8 = s[j];
    let c2: u8 = s[j + 1];
    let c3: u8 = s[j + 2];
    if c1 < 48 || c1 > 57 || c2 < 48 || c2 > 57 || c3 < 48 || c3 > 57 {
        proof {
            if wf {
                assert(s@[j as int] == nv[sg + d.len() + 1]);
                assert(s@[j + 1] == nv[sg + d.len() + 2]);
                assert(s@[j + 2] == nv[sg + d.len() + 3]);
                assert(false);
            }
        }
        return None;
    }
    let f: u64 = ((c1 - 48) as u64) * 100 + ((c2 - 48) as u64) * 10 + ((c3 - 48) as u64);
    j += 3;
    proof {
        if wf {
            assert(s@[j - 3] == nv[sg + d.len() + 1]);
            assert(s@[j - 2] == nv[sg + d.len() + 2]);
            assert(s@[j - 1] == nv[sg + d.len() + 3]);
            let fr = frac_of(v);
            assert(c1 as int == 48 + fr / 100);
            assert(c2 as int == 48 + (fr / 10) % 10);
            assert(c3 as int == 48 + fr % 10);
            lemma_pad3_val(fr);
            assert(f as nat == fr);
            assert(j as int == i + nv.len());
        }
    }
    let m: u64 = acc * 1000 + f;
    proof {
        if wf {
            assert(m as int == ip * 1000 + frac_of(v));
            assert(a == (a / 1000) * 1000 + a % 1000);
            assert(m as int == a);
        }
    }
    if neg {
        if m > 9223372036854775808u64 {
            proof {
                if wf {
                    assert(false);
                }
            }
            return None;
        }
        let val: i64 = if m == 9223372036854775808u64 {
            i64::MIN
        } else {
            -(m as i64)
        };
        proof {
            if wf {
                assert(val == v);
            }
        }
        Some((val, j))
    } else {
        if m > 9223372036854775807u64 {
            proof {
                if wf {
                    assert(v >= 0);
                    assert(a == v as int);
                    assert(false);
                }
            }
            return None;
        }
        proof {
            if wf {
                assert(m as i64 == v);
            }
        }
        Some((m as i64, j))
    }
}

/// Byte-for-byte comparison of two buffers.
#[verifier::loop_isolation(false)]
fn eq_bytes(a: &Vec<u8>, b: &Vec<u8>) -> (r: bool)
    ensures
        r == (a@ == b@),
{
    if a.len() != b.len() {
        return false;
    }
    let mut i: usize = 0;
    while i < a.len()
        invariant
            i <= a.len(),
            forall|q: int| 0 <= q < i ==> a@[q] == b@[q],
        decreases a.len() - i,
    {
        if a[i] != b[i] {
            return false;
        }
        i += 1;
    }
    proof {
        assert(a@ =~= b@);
    }
    true
}

/// Parses persisted file content back into a history. Exactly the serialized
/// histories parse back (to the history they serialize); any other content
/// yields the empty history, never an error.
#[verifier::loop_isolation(false)]
pub fn parse_history(content: &Vec<u8>) -> (r: Vec<i64>)
    ensures
        r@ == spec_parse(content@),
{
    let ghost sc = content@;
    let ghost wf = exists|x: Seq<i64>| spec_ser(x) == sc;
    let ghost vs: Seq<i64> = if wf {
        choose|x: Seq<i64>| spec_ser(x) == sc
    } else {
        Seq::<i64>::empty()
    };
    proof {
        if wf {
            lemma_items_len(vs);
        }
    }
    let n: usize = content.len();
    if n < 2 {
        proof {
            if wf {
                assert(sc.len() == 2 + spec_items(vs).len());
                assert(false);
            }
        }
        return Vec::new();
    }
    if content[0] != 91 || content[n - 1] != 93 {
        proof {
            if wf {
                assert(sc[0] == (seq![91u8] + spec_items(vs) + seq![93u8])[0]);
                assert(sc[sc.len() - 1] == (seq![91u8] + spec_items(vs) + seq![93u8])[sc.len()
                    - 1]);
                assert(false);
            }
        }
        return Vec::new();
    }
    if n == 2 {
        proof {
            assert(spec_ser(Seq::<i64>::empty()) =~= sc);
            let c = choose|x: Seq<i64>| spec_ser(x) == sc;
            lemma_ser_injective(c, Seq::<i64>::empty());
        }
        return Vec::new();
    }
    proof {
        if wf {
            if vs.len() == 0 {
                assert(sc.len() == 2);
                assert(false);
            }
        }
    }
    let mut out: Vec<i64> = Vec::new();
    let mut i: usize = 1;
    loop
        invariant
            1 <= i <= n,
            wf ==> out@.len() < vs.len() && out@ =~= vs.take(out@.len() as int) && i as int == 1
                + spec_items(vs.take(out@.len() as int)).len() + (if out@.len() == 0 {
                0int
            } else {
                1int
            }),
        decreases n - i,
    {
        let ghost k = out@.len() as int;
        proof {
            if wf {
                lemma_parse_position(vs, k);
            }
        }
        let ghost tv: Option<i64> = if wf {
            Some(vs[k])
        } else {
            None
        };
        let res = scan_num(content, i, Ghost(tv));
        match res {
            None => {
                proof {
                    if wf {
                        assert(false);
                    }
                }
                return Vec::new();
            },
            Some((v, ni)) => {
                let ghost p = i + spec_num(vs[k]).len();
                out.push(v);
                i = ni;
                proof {
                    if wf {
                        assert(v == vs[k]);
                        assert(i as int == p);
                        assert(out@ =~= vs.take(k + 1));
                    }
                }
                if i >= n {
                    proof {
                        if wf {
                            assert(false);
                        }
                    }
                    return Vec::new();
                }
                let b: u8 = content[i];
                if b == 93 {
                    if i == n - 1 {
                        let re = serialize_history(&out);
                        if eq_bytes(&re, content) {
                            proof {
                                assert(spec_ser(out@) == sc);
                                let c = choose|x: Seq<i64>| spec_ser(x) == sc;
                                lemma_ser_injective(c, out@);
                            }
                            return out;
                        } else {
                            proof {
                                if wf {
                                    assert(sc[p] == 93);
                                    if k + 1 < vs.len() {
                                        assert(sc[p] == 44);
                                        assert(false);
                                    }
                                    assert(vs.take(k + 1) =~= vs);
                                    assert(re@ == sc);
                                    assert(false);
                                }
                            }
                            return Vec::new();
                        }
                    } else {
                        proof {
                            if wf {
                                if k + 1 < vs.len() {
                                    assert(sc[p] == 44);
                                } else {
                                    assert(p == sc.len() - 1);
                                }
                                assert(false);
                            }
                        }
                        return Vec::new();
                    }
                } else if b == 44 {
                    i += 1;
                    proof {
                        if wf {
                            if k + 1 == vs.len() {
                                assert(sc[p] == 93);
                                assert(false);
                            }
                        }
                    }
                } else {
                    proof {
                        if wf {
                            if k + 1 < vs.len() {
                                assert(sc[p] == 44);
                            } else {
                                assert(sc[p] == 93);
                            }
                            assert(false);
                        }
                    }
                    return Vec::new();
                }
            },
        }
    }
}

} // verus!
