//! Decimal digit strings over ASCII bytes: the shared ground for the history
//! file codec and the counter-line parser.

use vstd::prelude::*;

verus! {

/// ASCII decimal digit.
pub open spec fn is_digit(b: u8) -> bool {
    48 <= b <= 57
}

/// The ASCII byte for digit value `d`.
pub open spec fn digit_byte(d: int) -> u8
    recommends
        0 <= d <= 9,
{
    (48 + d) as u8
}

/// The digit value of an ASCII byte; non-digits count as zero.
pub open spec fn digit_val(b: u8) -> nat {
    if is_digit(b) {
        (b - 48) as nat
    } else {
        0
    }
}

/// The decimal digit string of `n`, most significant digit first, with no
/// leading zeros (zero itself is the single byte `"0"`).
pub open spec fn digits_of(n: nat) -> Seq<u8>
    decreases n,
{
    if n < 10 {
        seq![digit_byte(n as int)]
    } else {
        digits_of(n / 10).push(digit_byte((n % 10) as int))
    }
}

/// The value of a digit string, read most significant digit first.
pub open spec fn val_of(s: Seq<u8>) -> nat
    decreases s.len(),
{
    if s.len() == 0 {
        0
    } else {
        val_of(s.drop_last()) * 10 + digit_val(s.last())
    }
}

/// Every byte of the string is an ASCII digit.
pub open spec fn all_digits(s: Seq<u8>) -> bool {
    forall|i: int| 0 <= i < s.len() ==> is_digit(#[trigger] s[i])
}

/// A digit string is non-empty and consists of digits only.
pub proof fn lemma_digits_of_wf(n: nat)
    ensures
        digits_of(n).len() >= 1,
        all_digits(digits_of(n)),
    decreases n,
{
    if n >= 10 {
        lemma_digits_of_wf(n / 10);
    }
}

/// Reading back the digit string of `n` yields `n`.
pub proof fn lemma_val_of_digits_of(n: nat)
    ensures
        val_of(digits_of(n)) == n,
    decreases n,
{
    if n < 10 {
        assert(digits_of(n).drop_last() =~= Seq::<u8>::empty());
        assert(digits_of(n).last() == digit_byte(n as int));
        assert(digit_byte(n as int) == 48 + n);
        assert(digit_val(digit_byte(n as int)) == n);
        assert(val_of(Seq::<u8>::empty()) == 0);
        assert(val_of(digits_of(n)) == val_of(digits_of(n).drop_last()) * 10 + digit_val(
            digits_of(n).last(),
        ));
    } else {
        lemma_val_of_digits_of(n / 10);
        assert(digits_of(n).drop_last() =~= digits_of(n / 10));
        assert(digits_of(n).last() == digit_byte((n % 10) as int));
        assert(digit_byte((n % 10) as int) == 48 + n % 10);
        assert(digit_val(digit_byte((n % 10) as int)) == n % 10);
        assert(val_of(digits_of(n)) == (n / 10) * 10 + n % 10);
    }
}

/// Digit strings are injective: equal strings mean equal numbers.
pub proof fn lemma_digits_of_injective(m: nat, n: nat)
    requires
        digits_of(m) == digits_of(n),
    ensures
        m == n,
{
    lemma_val_of_digits_of(m);
    lemma_val_of_digits_of(n);
}

/// A prefix of a digit string never exceeds the whole string's value.
pub proof fn lemma_val_of_prefix(s: Seq<u8>, j: int)
    requires
        0 <= j <= s.len(),
    ensures
        val_of(s.take(j)) <= val_of(s),
    decreases s.len(),
{
    if j == s.len() {
        assert(s.take(j) =~= s);
    } else {
        lemma_val_of_prefix(s.drop_last(), j);
        assert(s.take(j) =~= s.drop_last().take(j));
    }
}

/// Appending one digit multiplies the value by ten and adds the digit.
pub proof fn lemma_val_of_step(s: Seq<u8>, j: int)
    requires
        0 <= j < s.len(),
    ensures
        val_of(s.take(j + 1)) == val_of(s.take(j)) * 10 + digit_val(s[j]),
{
    assert(s.take(j + 1).drop_last() =~= s.take(j));
    assert(s.take(j + 1).last() == s[j]);
}

/// Appends the decimal digit string of `n` to `out`.
pub fn push_digits(out: &mut Vec<u8>, n: u64)
    ensures
        final(out)@ == old(out)@ + digits_of(n as nat),
    decreases n,
{
    if n < 10 {
        out.push(48 + n as u8);
        proof {
            assert(out@ =~= old(out)@ + digits_of(n as nat));
        }
    } else {
        push_digits(out, n / 10);
        out.push(48 + (n % 10) as u8);
        proof {
            assert(out@ =~= old(out)@ + digits_of(n as nat));
        }
    }
}

} // verus!
