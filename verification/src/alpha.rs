//! The letters-only counter: bijective numeration in base 26 over `A`..`Z`.

use vstd::prelude::*;
use vstd::string::*;

verus! {

/// Number of letters in the alphabet.
pub const MODULO: u32 = 26;

/// The letter that stands `d` places after `A`.
pub open spec fn letter(d: nat) -> char
    recommends
        d < 26,
{
    ('A' as nat + d) as char
}

/// The letters of `n`: one letter below 26, otherwise the letters of
/// `n / 26 - 1` followed by the letter of `n % 26`.
pub open spec fn alpha(n: nat) -> Seq<char>
    decreases n,
{
    if n < 26 {
        seq![letter(n)]
    } else {
        alpha((n / 26 - 1) as nat).push(letter(n % 26))
    }
}

/// Whether `s` is a non-empty word over `A`..`Z`.
pub open spec fn is_word(s: Seq<char>) -> bool {
    &&& s.len() > 0
    &&& forall|i: int| 0 <= i < s.len() ==> 'A' <= #[trigger] s[i] <= 'Z'
}

/// The number that the word `s` stands for: what `alpha` maps to `s`.
pub open spec fn alpha_value(s: Seq<char>) -> nat
    decreases s.len(),
{
    if s.len() == 0 {
        0
    } else if s.len() == 1 {
        (s[0] as nat - 'A' as nat) as nat
    } else {
        (alpha_value(s.drop_last()) + 1) * 26 + (s.last() as nat - 'A' as nat) as nat
    }
}

/// The letters of a number are a non-empty word over `A`..`Z`; there is one
/// letter exactly for the numbers below 26, and one more than for
/// `n / 26 - 1` for the others.
pub proof fn lemma_alpha_is_word(n: nat)
    ensures
        is_word(alpha(n)),
        n < 26 <==> alpha(n).len() == 1,
        n >= 26 ==> alpha(n).len() == alpha((n / 26 - 1) as nat).len() + 1,
    decreases n,
{
    if n >= 26 {
        lemma_alpha_is_word((n / 26 - 1) as nat);
    }
}

/// Reading the letters of `n` back gives `n`.
pub proof fn lemma_alpha_value_of_alpha(n: nat)
    ensures
        alpha_value(alpha(n)) == n,
    decreases n,
{
    if n >= 26 {
        let high = (n / 26 - 1) as nat;
        lemma_alpha_is_word(high);
        lemma_alpha_value_of_alpha(high);
        assert(alpha(n).drop_last() =~= alpha(high));
    }
}

/// Two different numbers never have the same letters.
pub proof fn lemma_alpha_injective(n1: nat, n2: nat)
    requires
        n1 != n2,
    ensures
        alpha(n1) != alpha(n2),
{
    lemma_alpha_value_of_alpha(n1);
    lemma_alpha_value_of_alpha(n2);
}

/// Every non-empty word over `A`..`Z` is the letters of exactly the number
/// that it stands for.
pub proof fn lemma_alpha_onto(s: Seq<char>)
    requires
        is_word(s),
    ensures
        alpha(alpha_value(s)) == s,
    decreases s.len(),
{
    if s.len() == 1 {
        assert(alpha(alpha_value(s)) =~= s);
    } else {
        let init = s.drop_last();
        lemma_alpha_onto(init);
        let d = (s.last() as nat - 'A' as nat) as nat;
        let v = alpha_value(s);
        assert(v == (alpha_value(init) + 1) * 26 + d);
        assert(v / 26 == alpha_value(init) + 1 && v % 26 == d) by (nonlinear_arith)
            requires
                v == (alpha_value(init) + 1) * 26 + d,
                d < 26,
        ;
        assert(alpha(v) =~= s);
    }
}

/// The smallest number with `k` letters: 0, 26, 702, ..
pub open spec fn first_with_len(k: nat) -> nat
    decreases k,
{
    if k <= 1 {
        0
    } else {
        26 * (first_with_len((k - 1) as nat) + 1)
    }
}

/// The numbers with `k` letters are those from the smallest with `k` letters
/// up to the smallest with one letter more: 0 to 25 have one, 26 to 701 two.
pub proof fn lemma_alpha_len(n: nat, k: nat)
    requires
        k >= 1,
    ensures
        alpha(n).len() == k <==> first_with_len(k) <= n < first_with_len(k + 1),
    decreases n,
{
    lemma_alpha_is_word(n);
    reveal_with_fuel(first_with_len, 3);
    if n >= 26 && k >= 2 {
        lemma_alpha_len((n / 26 - 1) as nat, (k - 1) as nat);
    }
}

/// The number of letters never shrinks as the number grows.
pub proof fn lemma_alpha_len_monotonic(n1: nat, n2: nat)
    requires
        n1 <= n2,
    ensures
        alpha(n1).len() <= alpha(n2).len(),
    decreases n2,
{
    lemma_alpha_is_word(n1);
    lemma_alpha_is_word(n2);
    if n1 >= 26 {
        lemma_alpha_len_monotonic((n1 / 26 - 1) as nat, (n2 / 26 - 1) as nat);
    }
}

/// Appends the letter that stands `d` places after `A`.
fn push_letter(text: &mut String, d: u32)
    requires
        d < 26,
    ensures
        final(text)@ == old(text)@.push(letter(d as nat)),
{
    let alphabet = "ABCDEFGHIJKLMNOPQRSTUVWXYZ";
    proof {
        reveal_strlit("ABCDEFGHIJKLMNOPQRSTUVWXYZ");
    }
    let one = alphabet.substring_ascii(d as usize, d as usize + 1);
    assert(one@ =~= seq![letter(d as nat)]);
    text.append(one);
}

/// Writes `number` in letters.
pub fn num2alpha(number: u32) -> (result: String)
    ensures
        result@ == alpha(number as nat),
    decreases number,
{
    if number < MODULO {
        let mut result = String::new();
        push_letter(&mut result, number);
        return result;
    }
    let mut result = num2alpha(number / MODULO - 1);
    push_letter(&mut result, number % MODULO);
    result
}

} // verus!
