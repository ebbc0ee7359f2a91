//! Membership and the counting of occurrences in a sequence.

use vstd::prelude::*;

verus! {

/// Some place of `s` holds the index `i`.
pub open spec fn holds(s: Seq<usize>, i: int) -> bool {
    exists|k: int| 0 <= k < s.len() && #[trigger] s[k] as int == i
}

/// The number of places of `s` that hold `x`.
pub open spec fn tally<T>(s: Seq<T>, x: T) -> nat
    decreases s.len(),
{
    if s.len() == 0 {
        0
    } else {
        tally(s.drop_last(), x) + if s.last() == x {
            1nat
        } else {
            0nat
        }
    }
}

/// Writing `y` over place `i` takes one occurrence of the old value away
/// and adds one of `y`.
pub proof fn lemma_tally_update<T>(s: Seq<T>, i: int, y: T, x: T)
    requires
        0 <= i < s.len(),
    ensures
        tally(s.update(i, y), x) + (if s[i] == x {
            1nat
        } else {
            0nat
        }) == tally(s, x) + (if y == x {
            1nat
        } else {
            0nat
        }),
    decreases s.len(),
{
    if i == s.len() - 1 {
        assert(s.update(i, y).drop_last() =~= s.drop_last());
    } else {
        assert(s.update(i, y).drop_last() =~= s.drop_last().update(i, y));
        lemma_tally_update(s.drop_last(), i, y, x);
    }
}

/// A beginning of `s` holds `x` no more often than `s` does.
pub proof fn lemma_tally_prefix<T>(s: Seq<T>, k: int, x: T)
    requires
        0 <= k <= s.len(),
    ensures
        tally(s.take(k), x) <= tally(s, x),
    decreases s.len(),
{
    if k == s.len() {
        assert(s.take(k) =~= s);
    } else {
        assert(s.drop_last().take(k) =~= s.take(k));
        lemma_tally_prefix(s.drop_last(), k, x);
    }
}

/// Where the count is positive, some place holds `x`.
pub proof fn lemma_tally_positive<T>(s: Seq<T>, x: T)
    requires
        tally(s, x) > 0,
    ensures
        exists|i: int| 0 <= i < s.len() && s[i] == x,
    decreases s.len(),
{
    if s.last() == x {
        assert(s[s.len() - 1] == x);
    } else {
        lemma_tally_positive(s.drop_last(), x);
        let i = choose|i: int| 0 <= i < s.drop_last().len() && s.drop_last()[i] == x;
        assert(s[i] == x);
    }
}

} // verus!
