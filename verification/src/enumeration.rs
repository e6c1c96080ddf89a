//! The walk through the combinations of truth values, read as a count
//! down in binary: the first variable is the highest digit, `true` is 1.

use vstd::prelude::*;
use vstd::arithmetic::power2::{lemma2_to64, lemma_pow2_unfold, pow2};
use crate::var_values::{lemma_last_true, some_true, successor, uniform};

verus! {

/// The number that `values` spells in binary, the first value being the
/// highest digit.
pub open spec fn number(values: Seq<bool>) -> nat
    decreases values.len(),
{
    if values.len() == 0 {
        0
    } else {
        2 * number(values.drop_last()) + if values.last() {
            1nat
        } else {
            0nat
        }
    }
}

/// The combination that is reached from `values` in `k` steps.
pub open spec fn after(values: Seq<bool>, k: nat) -> Seq<bool>
    decreases k,
{
    if k == 0 {
        values
    } else {
        successor(after(values, (k - 1) as nat))
    }
}

/// A combination of `n` values spells a number below 2^n; all `true`
/// spells 2^n - 1, and only all `false` spells 0.
pub proof fn lemma_number(values: Seq<bool>)
    ensures
        number(values) < pow2(values.len()),
        values == uniform(values.len(), true) ==> number(values) + 1 == pow2(values.len()),
        some_true(values) <==> number(values) > 0,
    decreases values.len(),
{
    let n = values.len();
    if n == 0 {
        lemma2_to64();
    } else {
        let rest = values.drop_last();
        lemma_number(rest);
        lemma_pow2_unfold(n);
        if values == uniform(n, true) {
            assert(rest =~= uniform((n - 1) as nat, true));
        }
        if some_true(values) {
            let i = choose|i: int| 0 <= i < values.len() && values[i];
            if i < n - 1 {
                assert(rest[i]);
            }
        }
    }
}

/// Two combinations of one length that spell the same number are the
/// same.
pub proof fn lemma_number_injective(a: Seq<bool>, b: Seq<bool>)
    requires
        a.len() == b.len(),
        number(a) == number(b),
    ensures
        a == b,
    decreases a.len(),
{
    if a.len() != 0 {
        lemma_number_injective(a.drop_last(), b.drop_last());
        assert(a =~= a.drop_last().push(a.last()));
    }
}

/// A step counts down by one; from all `false` it leads back to all
/// `true`.
pub proof fn lemma_successor(values: Seq<bool>)
    ensures
        successor(values).len() == values.len(),
        some_true(values) ==> number(successor(values)) + 1 == number(values),
        !some_true(values) ==> successor(values) == uniform(values.len(), true),
    decreases values.len(),
{
    let n = values.len();
    lemma_last_true(values);
    if n != 0 {
        let rest = values.drop_last();
        lemma_successor(rest);
        lemma_last_true(rest);
        if values.last() {
            assert(successor(values).drop_last() =~= rest);
        } else {
            assert(successor(values).drop_last() =~= successor(rest));
        }
    }
}

/// `k` steps count down by `k`, as long as there is that much to count.
pub proof fn lemma_after(values: Seq<bool>, k: nat)
    requires
        k <= number(values),
    ensures
        after(values, k).len() == values.len(),
        number(after(values, k)) + k == number(values),
    decreases k,
{
    if k != 0 {
        let before = after(values, (k - 1) as nat);
        lemma_after(values, (k - 1) as nat);
        lemma_number(before);
        lemma_successor(before);
    }
}

} // verus!
