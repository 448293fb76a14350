//! Building text one character at a time.

use vstd::prelude::*;

verus! {

/// Appends `c` to `s` with `String::push`.
#[verifier::external_body]
pub(crate) fn push_char(s: &mut String, c: char)
    ensures
        final(s)@ == old(s)@.push(c),
{
    s.push(c);
}

/// The ASCII digit for `d < 10`.
pub open spec fn digit_char(d: int) -> char {
    if d == 0 { '0' }
    else if d == 1 { '1' }
    else if d == 2 { '2' }
    else if d == 3 { '3' }
    else if d == 4 { '4' }
    else if d == 5 { '5' }
    else if d == 6 { '6' }
    else if d == 7 { '7' }
    else if d == 8 { '8' }
    else { '9' }
}

/// The decimal digits of a natural number, most significant first.
pub open spec fn nat_digits(n: nat) -> Seq<char>
    decreases n,
{
    if n < 10 {
        seq![digit_char(n as int)]
    } else {
        nat_digits(n / 10).push(digit_char((n % 10) as int))
    }
}

/// The decimal text of an integer, with a leading '-' when negative.
pub open spec fn decimal_text(x: int) -> Seq<char> {
    if x < 0 {
        seq!['-'] + nat_digits((-x) as nat)
    } else {
        nat_digits(x as nat)
    }
}

fn digit_of(d: u8) -> (c: char)
    requires
        d < 10,
    ensures
        c == digit_char(d as int),
{
    match d {
        0 => '0',
        1 => '1',
        2 => '2',
        3 => '3',
        4 => '4',
        5 => '5',
        6 => '6',
        7 => '7',
        8 => '8',
        _ => '9',
    }
}

fn push_nat_digits(s: &mut String, n: u32)
    ensures
        final(s)@ == old(s)@ + nat_digits(n as nat),
    decreases n,
{
    if n < 10 {
        push_char(s, digit_of(n as u8));
        assert(final(s)@ =~= old(s)@ + nat_digits(n as nat));
    } else {
        push_nat_digits(s, n / 10);
        push_char(s, digit_of((n % 10) as u8));
        assert(final(s)@ =~= old(s)@ + nat_digits(n as nat));
    }
}

/// Appends the decimal text of `x`.
pub fn push_decimal(s: &mut String, x: i32)
    ensures
        final(s)@ == old(s)@ + decimal_text(x as int),
{
    if x < 0 {
        push_char(s, '-');
        let m: u32 = (-(x as i64)) as u32;
        push_nat_digits(s, m);
        assert(final(s)@ =~= old(s)@ + decimal_text(x as int));
    } else {
        push_nat_digits(s, x as u32);
    }
}

} // verus!
