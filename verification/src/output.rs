//! Status-line text: fixed-point values formatted to one decimal place and
//! the one-line output each monitor owes the bar host.

use vstd::math::abs;
use vstd::prelude::*;
use crate::temperature::spec_icon;
use crate::temperature::icon_for;

verus! {

/// The character for digit value `d`; values outside `0..10` never arise.
pub open spec fn digit_char(d: int) -> char {
    if d <= 0 {
        '0'
    } else if d == 1 {
        '1'
    } else if d == 2 {
        '2'
    } else if d == 3 {
        '3'
    } else if d == 4 {
        '4'
    } else if d == 5 {
        '5'
    } else if d == 6 {
        '6'
    } else if d == 7 {
        '7'
    } else if d == 8 {
        '8'
    } else {
        '9'
    }
}

/// The decimal digit characters of `n`, most significant first.
pub open spec fn char_digits(n: nat) -> Seq<char>
    decreases n,
{
    if n < 10 {
        seq![digit_char(n as int)]
    } else {
        char_digits(n / 10).push(digit_char((n % 10) as int))
    }
}

/// A fixed-point value formatted to one decimal place: the thousandths are
/// rounded to tenths, ties away from zero, with a minus sign for negative
/// values.
pub open spec fn spec_format_milli(v: i64) -> Seq<char> {
    let a = abs(v as int);
    let d = ((a + 50) / 100) as nat;
    (if v < 0 {
        seq!['-']
    } else {
        Seq::<char>::empty()
    }) + char_digits(d / 10) + seq!['.'] + seq![digit_char((d % 10) as int)]
}

/// Appends one digit character.
fn push_digit_char(out: &mut String, d: u8)
    requires
        d < 10,
    ensures
        final(out)@ == old(out)@ + seq![digit_char(d as int)],
{
    proof {
        reveal_strlit("0");
        reveal_strlit("1");
        reveal_strlit("2");
        reveal_strlit("3");
        reveal_strlit("4");
        reveal_strlit("5");
        reveal_strlit("6");
        reveal_strlit("7");
        reveal_strlit("8");
        reveal_strlit("9");
    }
    if d == 0 {
        out.append("0");
    } else if d == 1 {
        out.append("1");
    } else if d == 2 {
        out.append("2");
    } else if d == 3 {
        out.append("3");
    } else if d == 4 {
        out.append("4");
    } else if d == 5 {
        out.append("5");
    } else if d == 6 {
        out.append("6");
    } else if d == 7 {
        out.append("7");
    } else if d == 8 {
        out.append("8");
    } else {
        out.append("9");
    }
    proof {
        assert(out@ =~= old(out)@ + seq![digit_char(d as int)]);
    }
}

/// Appends the decimal digit characters of `n`.
fn push_uint_chars(out: &mut String, n: u64)
    ensures
        final(out)@ == old(out)@ + char_digits(n as nat),
    decreases n,
{
    if n < 10 {
        push_digit_char(out, n as u8);
        proof {
            assert(out@ =~= old(out)@ + char_digits(n as nat));
        }
    } else {
        push_uint_chars(out, n / 10);
        push_digit_char(out, (n % 10) as u8);
        proof {
            assert(out@ =~= old(out)@ + char_digits(n as nat));
        }
    }
}

/// Formats a fixed-point sample to one decimal place, as the status line
/// shows it.
pub fn format_milli(v: i64) -> (r: String)
    ensures
        r@ == spec_format_milli(v),
{
    let a: u64 = if v < 0 {
        let m: i128 = -(v as i128);
        m as u64
    } else {
        v as u64
    };
    proof {
        assert(a as int == abs(v as int));
    }
    let d: u64 = (a + 50) / 100;
    let mut out = String::new();
    if v < 0 {
        proof {
            reveal_strlit("-");
        }
        out.append("-");
    }
    push_uint_chars(&mut out, d / 10);
    proof {
        reveal_strlit(".");
    }
    out.append(".");
    push_digit_char(&mut out, (d % 10) as u8);
    proof {
        assert(out@ =~= spec_format_milli(v));
    }
    out
}

/// The CPU monitor's status line: the usage percentage to one decimal
/// place, a percent sign, and the sparkline.
pub fn cpu_status_line(usage_milli: i64, spark: &str) -> (r: String)
    ensures
        r@ == spec_format_milli(usage_milli) + "% "@ + spark@,
{
    let mut out = format_milli(usage_milli);
    out.append("% ");
    out.append(spark);
    out
}

/// The temperature monitor's status line: the band icon, the average in
/// degrees to one decimal place, the unit, and the sparkline.
pub fn temperature_status_line(avg_milli: i64, spark: &str) -> (r: String)
    ensures
        r@ == spec_icon(avg_milli) + " "@ + spec_format_milli(avg_milli) + "\u{b0}C "@ + spark@,
{
    let icon: &'static str = icon_for(avg_milli);
    let mut out = icon.to_owned();
    out.append(" ");
    let num = format_milli(avg_milli);
    out.append(num.as_str());
    out.append("\u{b0}C ");
    out.append(spark);
    out
}

} // verus!
