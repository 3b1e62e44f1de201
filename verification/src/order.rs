//! How the order of the numbers shows in the order of their letters.

use vstd::prelude::*;
use crate::alpha::{alpha, lemma_alpha_is_word, lemma_alpha_len_monotonic};

verus! {

/// `a` comes before `b` in dictionary order, and position `i` decides it:
/// the two agree before `i`, and there either `a` has ended while `b` goes
/// on, or `a` holds the smaller character.
pub open spec fn precedes_at(a: Seq<char>, b: Seq<char>, i: int) -> bool {
    &&& 0 <= i <= a.len()
    &&& i < b.len()
    &&& forall|k: int| 0 <= k < i ==> a[k] == b[k]
    &&& i < a.len() ==> a[i] < b[i]
}

/// `a` comes strictly before `b` in dictionary order, the order in which
/// strings compare.
pub open spec fn lex_lt(a: Seq<char>, b: Seq<char>) -> bool {
    exists|i: int| precedes_at(a, b, i)
}

/// `a` comes strictly before `b` when shorter strings go first and strings
/// of one length go in dictionary order.
pub open spec fn shortlex_lt(a: Seq<char>, b: Seq<char>) -> bool {
    a.len() < b.len() || (a.len() == b.len() && lex_lt(a, b))
}

/// The number whose letters are the first `k` letters of `n`; `n` itself
/// where it has no more than `k` letters.
pub open spec fn leading(n: nat, k: nat) -> nat
    decreases n,
{
    if n < 26 || alpha(n).len() <= k {
        n
    } else {
        leading((n / 26 - 1) as nat, k)
    }
}

/// The letters of `leading(n, k)` are the first `k` letters of `n`.
pub proof fn lemma_leading_letters(n: nat, k: nat)
    requires
        1 <= k <= alpha(n).len(),
    ensures
        alpha(leading(n, k)) == alpha(n).subrange(0, k as int),
    decreases n,
{
    lemma_alpha_is_word(n);
    if n < 26 || alpha(n).len() <= k {
        assert(alpha(n).subrange(0, k as int) =~= alpha(n));
    } else {
        let high = (n / 26 - 1) as nat;
        lemma_leading_letters(high, k);
        assert(alpha(n).subrange(0, k as int) =~= alpha(high).subrange(0, k as int));
    }
}

/// Of two numbers with equally many letters, the smaller one's letters come
/// first in dictionary order, and a position inside both decides it.
pub proof fn lemma_order_same_length(n1: nat, n2: nat) -> (i: int)
    requires
        n1 < n2,
        alpha(n1).len() == alpha(n2).len(),
    ensures
        precedes_at(alpha(n1), alpha(n2), i),
        i < alpha(n1).len(),
        lex_lt(alpha(n1), alpha(n2)),
    decreases n2,
{
    lemma_alpha_is_word(n1);
    lemma_alpha_is_word(n2);
    if n2 < 26 {
        assert(precedes_at(alpha(n1), alpha(n2), 0));
        0
    } else {
        let h1 = (n1 / 26 - 1) as nat;
        let h2 = (n2 / 26 - 1) as nat;
        if h1 == h2 {
            let i = alpha(h1).len() as int;
            assert(precedes_at(alpha(n1), alpha(n2), i));
            i
        } else {
            let i = lemma_order_same_length(h1, h2);
            assert(precedes_at(alpha(n1), alpha(n2), i));
            i
        }
    }
}

/// A smaller number's letters come first when shorter strings go before
/// longer ones: `Z` before `AA`, `ZZ` before `AAA`.
pub proof fn lemma_order_shortlex(n1: nat, n2: nat)
    requires
        n1 < n2,
    ensures
        shortlex_lt(alpha(n1), alpha(n2)),
{
    lemma_alpha_len_monotonic(n1, n2);
    if alpha(n1).len() == alpha(n2).len() {
        lemma_order_same_length(n1, n2);
    }
}

/// A smaller number's letters come first in dictionary order whenever the
/// smaller number is not above the one that the larger number's leading
/// letters stand for. This holds of every two numbers with equally many
/// letters.
pub proof fn lemma_order_lexicographic(n1: nat, n2: nat)
    requires
        n1 < n2,
        n1 <= leading(n2, alpha(n1).len()),
    ensures
        lex_lt(alpha(n1), alpha(n2)),
{
    let k = alpha(n1).len();
    let m = leading(n2, k);
    lemma_alpha_is_word(n1);
    lemma_alpha_len_monotonic(n1, n2);
    lemma_leading_letters(n2, k);
    if n1 == m {
        assert(precedes_at(alpha(n1), alpha(n2), k as int));
    } else {
        let i = lemma_order_same_length(n1, m);
        assert(precedes_at(alpha(n1), alpha(n2), i));
    }
}

/// Where the smaller number is above the one that the larger number's
/// leading letters stand for, dictionary order turns the two around: the
/// larger number's letters come first.
pub proof fn lemma_order_reversed(n1: nat, n2: nat)
    requires
        n1 < n2,
        n1 > leading(n2, alpha(n1).len()),
    ensures
        lex_lt(alpha(n2), alpha(n1)),
        !lex_lt(alpha(n1), alpha(n2)),
{
    let k = alpha(n1).len();
    let m = leading(n2, k);
    lemma_alpha_is_word(n1);
    lemma_alpha_len_monotonic(n1, n2);
    lemma_leading_letters(n2, k);
    let j = lemma_order_same_length(m, n1);
    assert(precedes_at(alpha(n2), alpha(n1), j));
    assert forall|i: int| !precedes_at(alpha(n1), alpha(n2), i) by {
        if precedes_at(alpha(n1), alpha(n2), i) {
            if i < j {
                assert(alpha(m)[i] == alpha(n1)[i]);
            } else if i > j {
                assert(alpha(n1)[j] == alpha(n2)[j]);
            }
        }
    }
}

} // verus!
