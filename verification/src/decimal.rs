//! Decimal numbers as text.

use vstd::prelude::*;

use crate::chars;

verus! {

/// The digit of a number below ten.
pub open spec fn digit_char(d: int) -> char {
    ('0' as int + d) as char
}

/// The digits of a number, without leading zeros.
pub open spec fn decimal(n: nat) -> Seq<char>
    decreases n,
{
    if n < 10 {
        seq![digit_char(n as int)]
    } else {
        decimal(n / 10).push(digit_char((n % 10) as int))
    }
}

/// The digits of a number, filled up with zeros to `width`.
pub open spec fn padded(n: nat, width: nat) -> Seq<char> {
    if decimal(n).len() < width {
        Seq::new((width - decimal(n).len()) as nat, |i: int| '0') + decimal(n)
    } else {
        decimal(n)
    }
}

/// The number that digits stand for.
pub open spec fn value(s: Seq<char>) -> int
    decreases s.len(),
{
    if s.len() == 0 {
        0
    } else {
        value(s.drop_last()) * 10 + (s.last() as int - '0' as int)
    }
}

/// All characters are digits.
pub open spec fn all_digits(s: Seq<char>) -> bool {
    forall|i: int| 0 <= i < s.len() ==> chars::is_digit(#[trigger] s[i])
}

fn char_of(d: u64) -> (c: char)
    requires
        d < 10,
    ensures
        c == digit_char(d as int),
{
    if d == 0 {
        '0'
    } else if d == 1 {
        '1'
    } else if d == 2 {
        '2'
    } else if d == 3 {
        '3'
    } else if d == 4 {
        '4'
    } else if d == 5 {
        '5'
    } else if d == 6 {
        '6'
    } else if d == 7 {
        '7'
    } else if d == 8 {
        '8'
    } else {
        '9'
    }
}

fn write_decimal(n: u64) -> (s: Vec<char>)
    ensures
        s@ == decimal(n as nat),
    decreases n,
{
    if n < 10 {
        let mut s: Vec<char> = Vec::new();
        s.push(char_of(n));
        assert(s@ =~= decimal(n as nat));
        s
    } else {
        let mut s = write_decimal(n / 10);
        s.push(char_of(n % 10));
        s
    }
}

/// Writes a number at the end of `out`, filled up with zeros to `width`.
pub fn write_padded(out: &mut Vec<char>, n: u64, width: usize)
    ensures
        final(out)@ == old(out)@ + padded(n as nat, width as nat),
{
    let ghost before = out@;
    let digits = write_decimal(n);
    let mut have: usize = digits.len();
    while have < width
        invariant
            digits.len() <= have,
            have <= width || have == digits.len(),
            out@ == before + Seq::new((have - digits.len()) as nat, |i: int| '0'),
        decreases width - have,
    {
        out.push('0');
        have = have + 1;
        assert(out@ =~= before + Seq::new((have - digits.len()) as nat, |i: int| '0'));
    }
    chars::append_from(out, &digits, 0);
    assert(digits@.skip(0) =~= digits@);
    assert(out@ =~= before + padded(n as nat, width as nat));
}

proof fn lemma_decimal(n: nat)
    ensures
        all_digits(decimal(n)),
        decimal(n).len() > 0,
        value(decimal(n)) == n,
    decreases n,
{
    if n < 10 {
        assert(decimal(n).drop_last() =~= Seq::empty());
        assert(value(Seq::<char>::empty()) == 0);
    } else {
        lemma_decimal(n / 10);
        assert(decimal(n).drop_last() =~= decimal(n / 10));
    }
}

proof fn lemma_leading_zeros(k: nat, s: Seq<char>)
    ensures
        value(Seq::new(k, |i: int| '0') + s) == value(s),
    decreases k + s.len(),
{
    let zeros = Seq::new(k, |i: int| '0');
    let all = zeros + s;
    if s.len() > 0 {
        lemma_leading_zeros(k, s.drop_last());
        assert(all.drop_last() =~= zeros + s.drop_last());
    } else if k > 0 {
        lemma_leading_zeros((k - 1) as nat, s);
        assert(all.drop_last() =~= Seq::new((k - 1) as nat, |i: int| '0') + s);
    } else {
        assert(all =~= s);
    }
}

/// Filled up or not, the digits of a number stand for it.
pub proof fn law_padded_stands_for_number(n: nat, width: nat)
    ensures
        all_digits(padded(n, width)),
        padded(n, width).len() >= width,
        value(padded(n, width)) == n,
{
    lemma_decimal(n);
    if decimal(n).len() < width {
        let k = (width - decimal(n).len()) as nat;
        lemma_leading_zeros(k, decimal(n));
        assert forall|i: int| 0 <= i < padded(n, width).len() implies chars::is_digit(#[trigger] padded(n, width)[i]) by {
            if i >= k {
                assert(padded(n, width)[i] == decimal(n)[i - k]);
            }
        }
    }
}

/// A number has at least one digit.
pub proof fn lemma_padded_is_some(n: nat, width: nat)
    ensures
        padded(n, width).len() > 0,
{
    lemma_decimal(n);
}

/// More digits stand for a number that is no smaller.
pub proof fn lemma_value_grows(digits: Seq<char>, k: int)
    requires
        all_digits(digits),
        0 <= k <= digits.len(),
    ensures
        0 <= value(digits.take(k)) <= value(digits),
    decreases digits.len() - k,
{
    lemma_value_nonnegative(digits.take(k));
    if k < digits.len() {
        lemma_value_grows(digits, k + 1);
        let longer = digits.take(k + 1);
        assert(longer.drop_last() =~= digits.take(k));
        assert(longer.last() == digits[k]);
    } else {
        assert(digits.take(k) =~= digits);
    }
}

proof fn lemma_value_nonnegative(digits: Seq<char>)
    requires
        all_digits(digits),
    ensures
        0 <= value(digits),
    decreases digits.len(),
{
    if digits.len() > 0 {
        assert(all_digits(digits.drop_last()));
        assert(chars::is_digit(digits[digits.len() - 1]));
        lemma_value_nonnegative(digits.drop_last());
    }
}

} // verus!
