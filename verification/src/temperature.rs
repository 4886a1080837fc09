//! Temperature extraction and averaging. The sensor tool reports a nested
//! structure — chips, labeled groups, and leaf fields; every numeric field
//! whose key starts with `temp` and ends with `_input` is a raw reading in
//! degrees, and the sample is their unweighted arithmetic mean.

use vstd::prelude::*;

verus! {

/// One leaf sensor field: its key and its numeric reading in thousandths of
/// a degree. Fields without a numeric reading carry no temperature and have
/// no counterpart here.
pub struct SensorField {
    pub key: String,
    pub milli: i64,
}

/// One labeled group of sensor fields, e.g. a core.
pub struct SensorLabel {
    pub fields: Vec<SensorField>,
}

/// One sensor chip: its labeled groups.
pub struct SensorChip {
    pub labels: Vec<SensorLabel>,
}

/// Whether a key names a raw temperature reading: it starts with `temp`
/// and ends with `_input`.
pub open spec fn key_matches(k: Seq<char>) -> bool {
    &&& k.len() >= 6
    &&& k[0] == 't'
    &&& k[1] == 'e'
    &&& k[2] == 'm'
    &&& k[3] == 'p'
    &&& k[k.len() - 6] == '_'
    &&& k[k.len() - 5] == 'i'
    &&& k[k.len() - 4] == 'n'
    &&& k[k.len() - 3] == 'p'
    &&& k[k.len() - 2] == 'u'
    &&& k[k.len() - 1] == 't'
}

/// The readings owed by one labeled group, in field order.
pub open spec fn spec_label_temps(fs: Seq<SensorField>) -> Seq<i64>
    decreases fs.len(),
{
    if fs.len() == 0 {
        Seq::<i64>::empty()
    } else {
        spec_label_temps(fs.drop_last()) + (if key_matches(fs.last().key@) {
            seq![fs.last().milli]
        } else {
            Seq::<i64>::empty()
        })
    }
}

/// The readings owed by one chip, group by group.
pub open spec fn spec_chip_temps(ls: Seq<SensorLabel>) -> Seq<i64>
    decreases ls.len(),
{
    if ls.len() == 0 {
        Seq::<i64>::empty()
    } else {
        spec_chip_temps(ls.drop_last()) + spec_label_temps(ls.last().fields@)
    }
}

/// The readings owed by a whole report, chip by chip.
pub open spec fn spec_extract(cs: Seq<SensorChip>) -> Seq<i64>
    decreases cs.len(),
{
    if cs.len() == 0 {
        Seq::<i64>::empty()
    } else {
        spec_extract(cs.drop_last()) + spec_chip_temps(cs.last().labels@)
    }
}

/// Whether this key names a raw temperature reading.
fn key_matches_exec(k: &String) -> (r: bool)
    ensures
        r == key_matches(k@),
{
    let ks: &str = k.as_str();
    let n: usize = ks.unicode_len();
    if n < 6 {
        return false;
    }
    ks.get_char(0) == 't' && ks.get_char(1) == 'e' && ks.get_char(2) == 'm' && ks.get_char(3)
        == 'p' && ks.get_char(n - 6) == '_' && ks.get_char(n - 5) == 'i' && ks.get_char(n - 4)
        == 'n' && ks.get_char(n - 3) == 'p' && ks.get_char(n - 2) == 'u' && ks.get_char(n - 1)
        == 't'
}

/// Collects every reading whose key starts with `temp` and ends with
/// `_input`, walking chips, groups and fields in order.
#[verifier::loop_isolation(false)]
pub fn extract_temperatures(chips: &Vec<SensorChip>) -> (r: Vec<i64>)
    ensures
        r@ == spec_extract(chips@),
{
    let mut out: Vec<i64> = Vec::new();
    let mut c: usize = 0;
    while c < chips.len()
        invariant
            c <= chips@.len(),
            out@ =~= spec_extract(chips@.take(c as int)),
        decreases chips@.len() - c,
    {
        let chip: &SensorChip = &chips[c];
        let mut lb: usize = 0;
        while lb < chip.labels.len()
            invariant
                lb <= chip.labels@.len(),
                chip == chips[c as int],
                out@ =~= spec_extract(chips@.take(c as int)) + spec_chip_temps(
                    chip.labels@.take(lb as int),
                ),
            decreases chip.labels@.len() - lb,
        {
            let label: &SensorLabel = &chip.labels[lb];
            let mut f: usize = 0;
            while f < label.fields.len()
                invariant
                    f <= label.fields@.len(),
                    chip == chips[c as int],
                    label == chip.labels[lb as int],
                    lb < chip.labels@.len(),
                    out@ =~= spec_extract(chips@.take(c as int)) + spec_chip_temps(
                        chip.labels@.take(lb as int),
                    ) + spec_label_temps(label.fields@.take(f as int)),
                decreases label.fields@.len() - f,
            {
                let field: &SensorField = &label.fields[f];
                proof {
                    assert(label.fields@.take(f as int + 1).drop_last() =~= label.fields@.take(
                        f as int,
                    ));
                    assert(label.fields@.take(f as int + 1).last() == label.fields@[f as int]);
                }
                if key_matches_exec(&field.key) {
                    out.push(field.milli);
                }
                f += 1;
            }
            proof {
                assert(label.fields@.take(label.fields@.len() as int) =~= label.fields@);
                assert(chip.labels@.take(lb as int + 1).drop_last() =~= chip.labels@.take(
                    lb as int,
                ));
                assert(chip.labels@.take(lb as int + 1).last() == chip.labels@[lb as int]);
            }
            lb += 1;
        }
        proof {
            assert(chip.labels@.take(chip.labels@.len() as int) =~= chip.labels@);
            assert(chips@.take(c as int + 1).drop_last() =~= chips@.take(c as int));
            assert(chips@.take(c as int + 1).last() == chips@[c as int]);
        }
        c += 1;
    }
    proof {
        assert(chips@.take(chips@.len() as int) =~= chips@);
    }
    out
}

/// The sum of a sequence of samples.
pub open spec fn spec_sum(s: Seq<i64>) -> int
    decreases s.len(),
{
    if s.len() == 0 {
        0
    } else {
        spec_sum(s.drop_last()) + s.last()
    }
}

/// The unweighted mean of a non-empty sequence, rounded to the nearest
/// thousandth, ties away from zero.
pub open spec fn spec_avg(s: Seq<i64>) -> int
    recommends
        s.len() > 0,
{
    let t = spec_sum(s);
    let n = s.len() as int;
    if t >= 0 {
        (2 * t + n) / (2 * n)
    } else {
        -((2 * (-t) + n) / (2 * n))
    }
}

/// The sum of `k` samples lies within `k` times the sample bounds.
proof fn lemma_sum_bounds(s: Seq<i64>)
    ensures
        -(s.len() * 0x8000000000000000) <= spec_sum(s) <= s.len() * 0x7fffffffffffffff,
    decreases s.len(),
{
    if s.len() > 0 {
        lemma_sum_bounds(s.drop_last());
    }
}

/// The mean of a non-empty sample sequence, or nothing for an empty one —
/// the caller treats that as a sampling failure.
#[verifier::loop_isolation(false)]
pub fn average_temperature(temps: &Vec<i64>) -> (r: Option<i64>)
    ensures
        (temps@.len() == 0) == (r is None),
        r matches Some(a) ==> a == spec_avg(temps@),
{
    let n: usize = temps.len();
    if n == 0 {
        return None;
    }
    let mut acc: i128 = 0;
    let mut k: usize = 0;
    while k < n
        invariant
            k <= n,
            acc == spec_sum(temps@.take(k as int)),
            -((k as int) * 0x8000000000000000) <= acc <= (k as int) * 0x7fffffffffffffff,
        decreases n - k,
    {
        proof {
            assert(temps@.take(k as int + 1).drop_last() =~= temps@.take(k as int));
            assert(temps@.take(k as int + 1).last() == temps@[k as int]);
        }
        acc = acc + (temps[k] as i128);
        k += 1;
    }
    proof {
        assert(temps@.take(n as int) =~= temps@);
    }
    let nn: u128 = n as u128;
    if acc >= 0 {
        let t: u128 = acc as u128;
        proof {
            assert(t <= nn * 0x7fffffffffffffff);
            assert(2 * t + nn < 0x100000000000000000000000000000000) by (nonlinear_arith)
                requires
                    t <= nn * 0x7fffffffffffffff,
                    nn < 0x10000000000000000,
                    nn >= 1,
            ;
        }
        let q: u128 = (2 * t + nn) / (2 * nn);
        proof {
            assert(q <= 0x7fffffffffffffff) by (nonlinear_arith)
                requires
                    q == (2 * t + nn) / (2 * nn),
                    t <= nn * 0x7fffffffffffffff,
                    nn >= 1,
            ;
        }
        Some(q as i64)
    } else {
        let t: u128 = (-acc) as u128;
        proof {
            assert(t <= nn * 0x8000000000000000);
            assert(2 * t + nn <= 0xffffffffffffffffffffffffffffffff) by (nonlinear_arith)
                requires
                    t <= nn * 0x8000000000000000,
                    nn < 0x10000000000000000,
                    nn >= 1,
            ;
        }
        let q: u128 = (2 * t + nn) / (2 * nn);
        proof {
            assert(q <= 0x8000000000000000) by (nonlinear_arith)
                requires
                    q == (2 * t + nn) / (2 * nn),
                    t <= nn * 0x8000000000000000,
                    nn >= 1,
            ;
        }
        let a: i64 = if q == 0x8000000000000000 {
            i64::MIN
        } else {
            -(q as i64)
        };
        Some(a)
    }
}

/// The icon owed for an average temperature, from coolest to hottest band.
pub open spec fn spec_icon(v: i64) -> Seq<char> {
    if v < 25000 {
        "\u{f2cb}"@
    } else if v < 35000 {
        "\u{f2ca}"@
    } else if v < 65000 {
        "\u{f2c9}"@
    } else if v < 75000 {
        "\u{f2c8}"@
    } else {
        "\u{f2c7}"@
    }
}

/// Selects the thermometer icon for an average temperature in thousandths
/// of a degree.
pub fn icon_for(avg_milli: i64) -> (r: &'static str)
    ensures
        r@ == spec_icon(avg_milli),
{
    if avg_milli < 25000 {
        "\u{f2cb}"
    } else if avg_milli < 35000 {
        "\u{f2ca}"
    } else if avg_milli < 65000 {
        "\u{f2c9}"
    } else if avg_milli < 75000 {
        "\u{f2c8}"
    } else {
        "\u{f2c7}"
    }
}

} // verus!
