//! Writing numbers in decimal, such that reading them back gives the number.

use crate::text::{all_digits, digits_value, is_digit, push_char, signed_of, unsigned_of};
use vstd::prelude::*;

verus! {

/// The digit that stands for `d`, a number below ten.
pub open spec fn digit_char(d: nat) -> char {
    ('0' as int + d) as char
}

/// The decimal digits of `n`, without leading zeros.
pub open spec fn decimal(n: nat) -> Seq<char>
    decreases n,
{
    if n < 10 {
        seq![digit_char(n)]
    } else {
        decimal(n / 10).push(digit_char(n % 10))
    }
}

/// The decimal digits of `v`, behind a `-` where it is negative.
pub open spec fn signed_decimal(v: int) -> Seq<char> {
    if v < 0 {
        seq!['-'] + decimal((-v) as nat)
    } else {
        decimal(v as nat)
    }
}

/// The digits of a number are digits, at least one, and spell the number.
pub proof fn lemma_decimal(n: nat)
    ensures
        decimal(n).len() > 0,
        all_digits(decimal(n)),
        digits_value(decimal(n)) == n,
    decreases n,
{
    if n < 10 {
        let s = decimal(n);
        assert(s.drop_last() =~= Seq::<char>::empty());
        assert(digits_value(s.drop_last()) == 0);
        assert(is_digit(s[0]));
    } else {
        lemma_decimal(n / 10);
        let s = decimal(n);
        let head = decimal(n / 10);
        assert(s.drop_last() =~= head);
        assert(is_digit(s.last()));
        assert forall|i: int| 0 <= i < s.len() implies is_digit(#[trigger] s[i]) by {
            if i < head.len() {
                assert(s[i] == head[i]);
            }
        }
    }
}

/// A number written in decimal reads back as itself, wherever it fits.
pub proof fn lemma_unsigned_round_trip(n: nat, max: nat)
    requires
        n <= max,
    ensures
        unsigned_of(decimal(n), max) == Some(n),
{
    lemma_decimal(n);
    assert(is_digit(decimal(n)[0]));
}

/// A signed number written in decimal reads back as itself, wherever it
/// fits, and holds nothing but digits behind its sign.
pub proof fn lemma_signed_round_trip(v: int, min: int, max: int)
    requires
        min <= v <= max,
    ensures
        signed_of(signed_decimal(v), min, max) == Some(v),
        signed_decimal(v).len() > 0,
        forall|i: int|
            0 <= i < signed_decimal(v).len() ==> is_digit(#[trigger] signed_decimal(v)[i])
                || signed_decimal(v)[i] == '-',
{
    if v < 0 {
        lemma_decimal((-v) as nat);
        let s = signed_decimal(v);
        assert(s.skip(1) =~= decimal((-v) as nat));
        assert forall|i: int| 0 <= i < s.len() implies is_digit(#[trigger] s[i]) || s[i] == '-' by {
            if i > 0 {
                assert(s[i] == decimal((-v) as nat)[i - 1]);
            }
        }
    } else {
        lemma_decimal(v as nat);
        assert(is_digit(decimal(v as nat)[0]));
    }
}

/// Appends `n` in decimal to `out`.
pub fn push_unsigned(out: &mut String, n: u64)
    ensures
        final(out)@ == old(out)@ + decimal(n as nat),
    decreases n,
{
    if n >= 10 {
        push_unsigned(out, n / 10);
    }
    let digit = (n % 10) as u8;
    push_char(out, (0x30u8 + digit) as char);
    assert(out@ =~= old(out)@ + decimal(n as nat));
}

/// Appends `v` in decimal to `out`, behind a `-` where it is negative.
pub fn push_signed(out: &mut String, v: i64)
    ensures
        final(out)@ == old(out)@ + signed_decimal(v as int),
{
    if v < 0 {
        push_char(out, '-');
        let magnitude: u64 = ((-(v + 1)) as u64) + 1;
        push_unsigned(out, magnitude);
        assert(out@ =~= old(out)@ + signed_decimal(v as int));
    } else {
        push_unsigned(out, v as u64);
    }
}

/// `n` in decimal.
pub fn unsigned_text(n: u64) -> (res: String)
    ensures
        res@ == decimal(n as nat),
{
    let mut res = String::new();
    push_unsigned(&mut res, n);
    assert(res@ =~= decimal(n as nat));
    res
}

/// `v` in decimal, behind a `-` where it is negative.
pub fn signed_text(v: i64) -> (res: String)
    ensures
        res@ == signed_decimal(v as int),
{
    let mut res = String::new();
    push_signed(&mut res, v);
    assert(res@ =~= signed_decimal(v as int));
    res
}

} // verus!
