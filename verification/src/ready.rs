//! The ready set: the transactions that can be selected, kept as a binary
//! heap with the best of them at its root.

use crate::graph::has_zero_weight;
use crate::pool::{distinct_ids, Pool};
use crate::schedule::{
    lemma_outranks_asymmetric, lemma_outranks_total, lemma_outranks_transitive, outranks,
};
use crate::tally::holds;
use crate::transaction::TxView;
use vstd::prelude::*;

verus! {

/// The place above place `i` of a heap.
pub open spec fn parent_of(i: int) -> int {
    (i - 1) / 2
}

/// The transaction at place `i` does not outrank the one above it.
pub open spec fn below_parent(pool: Seq<TxView>, items: Seq<usize>, i: int) -> bool {
    !outranks(pool[items[i] as int], pool[items[parent_of(i)] as int])
}

/// No transaction of the heap outranks the one above it.
pub open spec fn heap_ordered(pool: Seq<TxView>, items: Seq<usize>) -> bool {
    forall|i: int| 0 < i < items.len() ==> #[trigger] below_parent(pool, items, i)
}

/// Every place holds a transaction of a pool of `n`.
pub open spec fn within(items: Seq<usize>, n: nat) -> bool {
    forall|q: int| 0 <= q < items.len() ==> (#[trigger] items[q]) < n
}

/// No transaction stands at two places.
pub open spec fn no_repeat(items: Seq<usize>) -> bool {
    forall|q: int, r: int|
        0 <= q < r < items.len() ==> (#[trigger] items[q]) != (#[trigger] items[r])
}

/// The two sequences hold the same transactions.
pub open spec fn same_members(a: Seq<usize>, b: Seq<usize>) -> bool {
    forall|c: int|
        #![trigger holds(a, c)]
        #![trigger holds(b, c)]
        holds(a, c) <==> holds(b, c)
}

/// The pool has positive weights and distinct identifiers, so that its
/// transactions are in a strict order.
pub open spec fn ordered_pool(pool: Seq<TxView>) -> bool {
    !has_zero_weight(pool) && distinct_ids(pool)
}

/// `items` with the transactions at places `i` and `j` exchanged.
pub open spec fn exchanged(items: Seq<usize>, i: int, j: int) -> Seq<usize> {
    items.update(i, items[j]).update(j, items[i])
}

/// What is not outranked by a transaction that a third does not outrank
/// does not outrank the third.
proof fn lemma_not_outranked_chain(pool: Seq<TxView>, a: int, b: int, c: int)
    requires
        ordered_pool(pool),
        0 <= a < pool.len(),
        0 <= b < pool.len(),
        0 <= c < pool.len(),
        !outranks(pool[a], pool[b]),
        !outranks(pool[b], pool[c]),
    ensures
        !outranks(pool[a], pool[c]),
{
    if a != b && b != c && outranks(pool[a], pool[c]) {
        assert(pool[a].weight > 0 && pool[b].weight > 0 && pool[c].weight > 0);
        if a < b {
            assert(pool[a].id != pool[b].id);
        } else {
            assert(pool[b].id != pool[a].id);
        }
        lemma_outranks_total(pool[a], pool[b]);
        lemma_outranks_transitive(pool[b], pool[a], pool[c]);
    }
}

/// No transaction of a heap outranks the one at the root.
proof fn lemma_root_is_best(pool: Seq<TxView>, items: Seq<usize>, i: int)
    requires
        ordered_pool(pool),
        within(items, pool.len()),
        heap_ordered(pool, items),
        0 <= i < items.len(),
    ensures
        !outranks(pool[items[i] as int], pool[items[0] as int]),
    decreases i,
{
    if i == 0 {
        lemma_outranks_asymmetric(pool[items[0] as int], pool[items[0] as int]);
    } else {
        assert(below_parent(pool, items, i));
        lemma_root_is_best(pool, items, parent_of(i));
        lemma_not_outranked_chain(
            pool,
            items[i] as int,
            items[parent_of(i)] as int,
            items[0] as int,
        );
    }
}

/// An exchange keeps the transactions, their number and their being
/// different.
proof fn lemma_exchange_keeps_members(items: Seq<usize>, i: int, j: int, n: nat)
    requires
        0 <= i < items.len(),
        0 <= j < items.len(),
    ensures
        same_members(exchanged(items, i, j), items),
        within(items, n) ==> within(exchanged(items, i, j), n),
        no_repeat(items) ==> no_repeat(exchanged(items, i, j)),
{
    let after = exchanged(items, i, j);
    assert forall|c: int| holds(after, c) <==> holds(items, c) by {
        if holds(after, c) {
            let k = choose|k: int| 0 <= k < after.len() && #[trigger] after[k] as int == c;
            let back = if k == i {
                j
            } else if k == j {
                i
            } else {
                k
            };
            assert(items[back] as int == c);
        }
        if holds(items, c) {
            let k = choose|k: int| 0 <= k < items.len() && #[trigger] items[k] as int == c;
            let to = if k == i {
                j
            } else if k == j {
                i
            } else {
                k
            };
            assert(after[to] as int == c);
        }
    }
    if no_repeat(items) {
        assert forall|q: int, r: int| 0 <= q < r < after.len() implies (#[trigger] after[q]) != (
        #[trigger] after[r]) by {
            let q0 = if q == i {
                j
            } else if q == j {
                i
            } else {
                q
            };
            let r0 = if r == i {
                j
            } else if r == j {
                i
            } else {
                r
            };
            assert(after[q] == items[q0] && after[r] == items[r0]);
            if q0 < r0 {
                assert(items[q0] != items[r0]);
            } else {
                assert(items[r0] != items[q0]);
            }
        }
    }
}

/// The heap is in order but for place `at`, which may outrank the places
/// above it; the places below `at` do not outrank the place above it.
pub open spec fn ordered_but_above(pool: Seq<TxView>, items: Seq<usize>, at: int) -> bool {
    &&& forall|k: int| 0 < k < items.len() && k != at ==> #[trigger] below_parent(pool, items, k)
    &&& at > 0 ==> forall|k: int|
        0 < k < items.len() && #[trigger] parent_of(k) == at ==> !outranks(
            pool[items[k] as int],
            pool[items[parent_of(at)] as int],
        )
}

/// The heap is in order but for the places below place `at`, which may
/// outrank it; they do not outrank the place above `at`.
pub open spec fn ordered_but_below(pool: Seq<TxView>, items: Seq<usize>, at: int) -> bool {
    &&& forall|k: int|
        0 < k < items.len() && parent_of(k) != at ==> #[trigger] below_parent(pool, items, k)
    &&& at > 0 ==> forall|k: int|
        0 < k < items.len() && #[trigger] parent_of(k) == at ==> !outranks(
            pool[items[k] as int],
            pool[items[parent_of(at)] as int],
        )
}

impl Pool {
    /// Exchanges the transactions at places `i` and `j`.
    fn exchange(heap: &mut Vec<usize>, i: usize, j: usize)
        requires
            i < old(heap).len(),
            j < old(heap).len(),
        ensures
            final(heap)@ == exchanged(old(heap)@, i as int, j as int),
    {
        let a = heap[i];
        let b = heap[j];
        heap.set(i, b);
        heap.set(j, a);
    }

    /// Lets the transaction at place `start` rise to its place.
    fn sift_up(&self, heap: &mut Vec<usize>, start: usize)
        requires
            self.wf(),
            within(old(heap)@, self@.len()),
            start < old(heap).len(),
            ordered_but_above(self@, old(heap)@, start as int),
        ensures
            heap_ordered(self@, final(heap)@),
            final(heap).len() == old(heap).len(),
            same_members(final(heap)@, old(heap)@),
            within(final(heap)@, self@.len()),
            no_repeat(old(heap)@) ==> no_repeat(final(heap)@),
    {
        let ghost pool = self@;
        let mut i: usize = start;
        while i > 0 && self.outranks_at(heap[i], heap[(i - 1) / 2])
            invariant
                self.wf(),
                pool == self@,
                i < heap.len(),
                heap.len() == old(heap).len(),
                within(heap@, pool.len()),
                ordered_but_above(pool, heap@, i as int),
                same_members(heap@, old(heap)@),
                no_repeat(old(heap)@) ==> no_repeat(heap@),
            decreases i,
        {
            let p: usize = (i - 1) / 2;
            let ghost before = heap@;
            Self::exchange(heap, i, p);
            proof {
                lemma_exchange_keeps_members(before, i as int, p as int, pool.len());
                let x = before[i as int] as int;
                let y = before[p as int] as int;
                lemma_outranks_asymmetric(pool[x], pool[y]);
                assert forall|k: int| 0 < k < heap.len() && k != p implies #[trigger] below_parent(
                    pool,
                    heap@,
                    k,
                ) by {
                    if k == i {
                    } else if parent_of(k) == p {
                        assert(below_parent(pool, before, k));
                        if outranks(pool[before[k] as int], pool[x]) {
                            assert(pool[before[k] as int].weight > 0 && pool[x].weight > 0
                                && pool[y].weight > 0);
                            lemma_outranks_transitive(pool[before[k] as int], pool[x], pool[y]);
                        }
                    } else if parent_of(k) == i {
                    } else {
                        assert(below_parent(pool, before, k));
                    }
                }
                if p > 0 {
                    assert(below_parent(pool, before, p as int));
                    assert forall|k: int|
                        0 < k < heap.len() && #[trigger] parent_of(k) == p implies !outranks(
                        pool[heap@[k] as int],
                        pool[heap@[parent_of(p as int)] as int],
                    ) by {
                        if k != i {
                            assert(below_parent(pool, before, k));
                            lemma_not_outranked_chain(
                                pool,
                                before[k] as int,
                                y,
                                before[parent_of(p as int)] as int,
                            );
                        }
                    }
                }
            }
            i = p;
        }
        proof {
            assert forall|k: int| 0 < k < heap.len() implies #[trigger] below_parent(pool, heap@, k) by {}
        }
    }

    /// Lets the transaction at place `start` sink to its place.
    fn sift_down(&self, heap: &mut Vec<usize>, start: usize)
        requires
            self.wf(),
            within(old(heap)@, self@.len()),
            start < old(heap).len(),
            ordered_but_below(self@, old(heap)@, start as int),
        ensures
            heap_ordered(self@, final(heap)@),
            final(heap).len() == old(heap).len(),
            same_members(final(heap)@, old(heap)@),
            within(final(heap)@, self@.len()),
            no_repeat(old(heap)@) ==> no_repeat(final(heap)@),
    {
        let ghost pool = self@;
        let len = heap.len();
        let mut i: usize = start;
        let mut settled = false;
        while !settled && i < len / 2
            invariant
                self.wf(),
                pool == self@,
                i < heap.len(),
                len == heap.len(),
                heap.len() == old(heap).len(),
                within(heap@, pool.len()),
                !settled ==> ordered_but_below(pool, heap@, i as int),
                settled ==> heap_ordered(pool, heap@),
                same_members(heap@, old(heap)@),
                no_repeat(old(heap)@) ==> no_repeat(heap@),
            decreases len - i, (if settled {
                0int
            } else {
                1int
            }),
        {
            let left: usize = 2 * i + 1;
            let right: usize = left + 1;
            let child: usize = if right < len && self.outranks_at(heap[right], heap[left]) {
                right
            } else {
                left
            };
            let ghost before = heap@;
            let ghost x = before[i as int] as int;
            let ghost y = before[child as int] as int;
            proof {
                if right < len {
                    lemma_outranks_asymmetric(
                        pool[before[right as int] as int],
                        pool[before[left as int] as int],
                    );
                }
            }
            if self.outranks_at(heap[child], heap[i]) {
                Self::exchange(heap, i, child);
                proof {
                    lemma_exchange_keeps_members(before, i as int, child as int, pool.len());
                    lemma_outranks_asymmetric(pool[y], pool[x]);
                    assert forall|k: int|
                        0 < k < heap.len() && parent_of(k) != child implies #[trigger] below_parent(
                        pool,
                        heap@,
                        k,
                    ) by {
                        if k == child {
                        } else if parent_of(k) == i {
                            assert(k == left || k == right);
                        } else if k == i {
                            assert(parent_of(child as int) == i);
                        } else {
                            assert(below_parent(pool, before, k));
                        }
                    }
                    assert forall|k: int|
                        0 < k < heap.len() && #[trigger] parent_of(k) == child implies !outranks(
                        pool[heap@[k] as int],
                        pool[heap@[parent_of(child as int)] as int],
                    ) by {
                        assert(below_parent(pool, before, k));
                    }
                }
                i = child;
            } else {
                proof {
                    assert forall|k: int| 0 < k < heap.len() implies #[trigger] below_parent(
                        pool,
                        heap@,
                        k,
                    ) by {
                        if parent_of(k) == i {
                            assert(k == left || k == right);
                            if k != child {
                                lemma_not_outranked_chain(pool, before[k] as int, y, x);
                            }
                        }
                    }
                }
                settled = true;
            }
        }
        proof {
            if !settled {
                assert forall|k: int| 0 < k < heap.len() implies #[trigger] below_parent(
                    pool,
                    heap@,
                    k,
                ) by {
                    assert(parent_of(k) != i);
                }
            }
        }
    }

    /// Puts transaction `x` into the ready heap.
    pub(crate) fn heap_push(&self, heap: &mut Vec<usize>, x: usize)
        requires
            self.wf(),
            x < self@.len(),
            within(old(heap)@, self@.len()),
            heap_ordered(self@, old(heap)@),
        ensures
            heap_ordered(self@, final(heap)@),
            within(final(heap)@, self@.len()),
            final(heap).len() == old(heap).len() + 1,
            forall|c: int| #[trigger] holds(final(heap)@, c) <==> holds(old(heap)@, c) || c == x,
            no_repeat(old(heap)@) && !holds(old(heap)@, x as int) ==> no_repeat(final(heap)@),
    {
        let ghost pool = self@;
        let ghost before = heap@;
        heap.push(x);
        let ghost longer = heap@;
        proof {
            assert forall|k: int| 0 < k < longer.len() && k != before.len() implies #[trigger] below_parent(
                pool,
                longer,
                k,
            ) by {
                assert(below_parent(pool, before, k));
            }
            assert forall|c: int| holds(longer, c) <==> holds(before, c) || c == x by {
                if holds(before, c) {
                    let k = choose|k: int| 0 <= k < before.len() && #[trigger] before[k] as int == c;
                    assert(longer[k] as int == c);
                }
                if c == x {
                    assert(longer[before.len() as int] as int == c);
                }
                if holds(longer, c) && c != x {
                    let k = choose|k: int| 0 <= k < longer.len() && #[trigger] longer[k] as int == c;
                    assert(before[k] as int == c);
                }
            }
            if no_repeat(before) && !holds(before, x as int) {
                assert forall|q: int, r: int| 0 <= q < r < longer.len() implies (
                #[trigger] longer[q]) != (#[trigger] longer[r]) by {
                    if r < before.len() {
                        assert(before[q] != before[r]);
                    } else {
                        assert(before[q] as int != x);
                    }
                }
            }
        }
        self.sift_up(heap, heap.len() - 1);
    }

    /// Takes the best transaction out of the ready heap.
    pub(crate) fn heap_pop(&self, heap: &mut Vec<usize>) -> (best: usize)
        requires
            self.wf(),
            old(heap).len() > 0,
            within(old(heap)@, self@.len()),
            heap_ordered(self@, old(heap)@),
            no_repeat(old(heap)@),
        ensures
            holds(old(heap)@, best as int),
            forall|q: int|
                0 <= q < old(heap).len() ==> !outranks(
                    self@[(#[trigger] old(heap)@[q]) as int],
                    self@[best as int],
                ),
            heap_ordered(self@, final(heap)@),
            within(final(heap)@, self@.len()),
            no_repeat(final(heap)@),
            final(heap).len() == old(heap).len() - 1,
            forall|c: int| #[trigger] holds(final(heap)@, c) <==> holds(old(heap)@, c) && c != best,
    {
        let ghost pool = self@;
        let ghost before = heap@;
        let last = heap.len() - 1;
        let best = heap[0];
        proof {
            assert(before[0] as int == best);
            assert forall|q: int| 0 <= q < before.len() implies !outranks(
                pool[(#[trigger] before[q]) as int],
                pool[best as int],
            ) by {
                lemma_root_is_best(pool, before, q);
            }
        }
        Self::exchange(heap, 0, last);
        let ghost turned = heap@;
        proof {
            lemma_exchange_keeps_members(before, 0, last as int, pool.len());
        }
        let removed = heap.pop();
        let ghost shorter = heap@;
        proof {
            assert(shorter =~= turned.take(last as int));
            assert forall|c: int| holds(shorter, c) <==> holds(before, c) && c != best by {
                if holds(shorter, c) {
                    let k = choose|k: int| 0 <= k < shorter.len() && #[trigger] shorter[k] as int == c;
                    assert(turned[k] as int == c);
                    assert(turned[k] != turned[last as int]);
                    assert(holds(turned, c));
                }
                if holds(before, c) && c != best {
                    assert(holds(turned, c));
                    let k = choose|k: int| 0 <= k < turned.len() && #[trigger] turned[k] as int == c;
                    assert(shorter[k] as int == c);
                }
            }
            assert forall|q: int, r: int| 0 <= q < r < shorter.len() implies (
            #[trigger] shorter[q]) != (#[trigger] shorter[r]) by {
                assert(turned[q] != turned[r]);
            }
            assert forall|q: int| 0 <= q < shorter.len() implies (#[trigger] shorter[q]) < pool.len() by {
                assert(turned[q] < pool.len());
            }
        }
        if heap.len() > 0 {
            proof {
                assert forall|k: int|
                    0 < k < shorter.len() && parent_of(k) != 0 implies #[trigger] below_parent(
                    pool,
                    shorter,
                    k,
                ) by {
                    assert(below_parent(pool, before, k));
                }
            }
            self.sift_down(heap, 0);
            proof {
                assert forall|c: int| holds(heap@, c) <==> holds(before, c) && c != best by {
                    assert(holds(heap@, c) <==> holds(shorter, c));
                }
            }
        }
        best
    }
}

} // verus!
