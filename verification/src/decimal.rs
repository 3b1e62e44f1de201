//! The counter written in decimal digits.

use vstd::prelude::*;
use vstd::string::*;

verus! {

/// The digit for `d`.
pub open spec fn digit(d: nat) -> char
    recommends
        d < 10,
{
    ('0' as nat + d) as char
}

/// The decimal digits of `n`, most significant first, without leading zeros.
pub open spec fn decimal(n: nat) -> Seq<char>
    decreases n,
{
    if n < 10 {
        seq![digit(n)]
    } else {
        decimal(n / 10).push(digit(n % 10))
    }
}

/// Appends the digit for `d`.
fn push_digit(text: &mut String, d: u32)
    requires
        d < 10,
    ensures
        final(text)@ == old(text)@.push(digit(d as nat)),
{
    let digits = "0123456789";
    proof {
        reveal_strlit("0123456789");
    }
    let one = digits.substring_ascii(d as usize, d as usize + 1);
    assert(one@ =~= seq![digit(d as nat)]);
    text.append(one);
}

/// Writes `number` in decimal.
pub fn num2decimal(number: u32) -> (result: String)
    ensures
        result@ == decimal(number as nat),
    decreases number,
{
    if number < 10 {
        let mut result = String::new();
        push_digit(&mut result, number);
        return result;
    }
    let mut result = num2decimal(number / 10);
    push_digit(&mut result, number % 10);
    result
}

} // verus!
