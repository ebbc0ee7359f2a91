//! Cycle detection: a depth-first traversal that marks a record as being
//! visited while its parents are explored. It ends either with a record that
//! depends on itself, or with a ranking of all records.
//!
//! The traversal keeps its own stack, so that a long chain of parents costs
//! memory on the heap and not depth of calls.

use crate::graph::{depends, is_chain, is_ranking, on_cycle};
use crate::pool::linked;
use crate::ready::no_repeat;
use crate::tally::{holds, lemma_tally_update, tally};
use crate::transaction::TxView;
use vstd::prelude::*;

verus! {

/// The mark of a record that the traversal has not reached.
pub const UNSEEN: u8 = 0;

/// The mark of a record whose parents are being explored.
pub const VISITING: u8 = 1;

/// The mark of a record whose ancestors have all been explored.
pub const DONE: u8 = 2;

/// The records of a stack, by their places in the pool.
pub open spec fn places(stack: Seq<usize>) -> Seq<int> {
    Seq::new(stack.len(), |i: int| stack[i] as int)
}

/// The state of a traversal: the records being visited are those of the
/// stack, each of which names the next among its parents; the records that
/// are done have only parents that are done, of lower rank; and every rank
/// given so far is below `next`.
pub open spec fn traversal(
    pool: Seq<TxView>,
    marks: Seq<u8>,
    stack: Seq<usize>,
    rank: Seq<nat>,
    next: nat,
) -> bool {
    &&& marks.len() == pool.len()
    &&& rank.len() == pool.len()
    &&& forall|i: int| 0 <= i < marks.len() ==> #[trigger] marks[i] <= DONE
    &&& forall|k: int|
        0 <= k < stack.len() ==> (#[trigger] stack[k]) < pool.len() && marks[stack[k] as int]
            == VISITING
    &&& no_repeat(stack)
    &&& forall|i: int| 0 <= i < marks.len() && #[trigger] marks[i] == VISITING ==> holds(stack, i)
    &&& is_chain(pool, places(stack))
    &&& forall|i: int, j: int|
        0 <= i < marks.len() && marks[i] == DONE && #[trigger] depends(pool, i, j) ==> marks[j]
            == DONE && rank[j] < rank[i]
    &&& forall|i: int| 0 <= i < marks.len() && marks[i] == DONE ==> #[trigger] rank[i] < next
}

/// Link `m` of the record at place `i` of the stack is explored: the
/// record that it names is done, or is the next of the stack.
pub open spec fn explored(
    links: Seq<Vec<usize>>,
    marks: Seq<u8>,
    stack: Seq<usize>,
    i: int,
    m: int,
) -> bool {
    let parent = links[stack[i] as int]@[m];
    marks[parent as int] == DONE || (i + 1 < stack.len() && parent == stack[i + 1])
}

/// How far the parents of the records of the stack are explored: the links
/// before the cursor of each, of which the last leads to the next record of
/// the stack.
pub open spec fn progress(
    links: Seq<Vec<usize>>,
    marks: Seq<u8>,
    stack: Seq<usize>,
    cursor: Seq<usize>,
) -> bool {
    &&& cursor.len() == stack.len()
    &&& forall|i: int| 0 <= i < stack.len() ==> (#[trigger] cursor[i]) <= links[stack[i] as int]@.len()
    &&& forall|i: int, m: int|
        0 <= i < stack.len() && 0 <= m < cursor[i] ==> #[trigger] explored(links, marks, stack, i, m)
}

/// A record that is being visited and is named as a parent by the last
/// record of the stack depends on itself.
proof fn lemma_back_edge_closes_cycle(
    pool: Seq<TxView>,
    marks: Seq<u8>,
    stack: Seq<usize>,
    rank: Seq<nat>,
    next: nat,
    p: int,
)
    requires
        traversal(pool, marks, stack, rank, next),
        stack.len() > 0,
        0 <= p < pool.len(),
        marks[p] == VISITING,
        depends(pool, stack.last() as int, p),
    ensures
        on_cycle(pool, p),
{
    let path = places(stack);
    assert(holds(stack, p));
    let m = choose|m: int| 0 <= m < stack.len() && #[trigger] stack[m] as int == p;
    let cycle = path.subrange(m, path.len() as int).push(p);
    assert forall|k: int| 0 <= k < cycle.len() - 1 implies depends(
        pool,
        #[trigger] cycle[k],
        cycle[k + 1],
    ) by {
        if k < cycle.len() - 2 {
            assert(cycle[k] == path[m + k]);
            assert(cycle[k + 1] == path[m + k + 1]);
            assert(depends(pool, path[m + k], path[m + k + 1]));
        } else {
            assert(cycle[k] == path.last());
        }
    }
    assert(cycle[0] == p);
    assert(cycle.last() == p);
    assert(is_chain(pool, cycle));
}

/// Reaching the unseen record `p` from the top of the stack, or as the
/// first record of an empty stack, keeps the state of the traversal.
proof fn lemma_enter(
    pool: Seq<TxView>,
    links: Seq<Vec<usize>>,
    marks: Seq<u8>,
    stack: Seq<usize>,
    cursor: Seq<usize>,
    rank: Seq<nat>,
    next: nat,
    p: usize,
)
    requires
        linked(pool, links),
        traversal(pool, marks, stack, rank, next),
        progress(links, marks, stack, cursor),
        p < pool.len(),
        marks[p as int] == UNSEEN,
        stack.len() > 0 ==> cursor.last() < links[stack.last() as int]@.len()
            && links[stack.last() as int]@[cursor.last() as int] == p,
    ensures
        traversal(pool, marks.update(p as int, VISITING), stack.push(p), rank, next),
        progress(
            links,
            marks.update(p as int, VISITING),
            stack.push(p),
            (if stack.len() > 0 {
                cursor.update(cursor.len() - 1, (cursor.last() + 1) as usize)
            } else {
                cursor
            }).push(0),
        ),
        tally(marks.update(p as int, VISITING), UNSEEN) < tally(marks, UNSEEN),
{
    let after = marks.update(p as int, VISITING);
    let deeper = stack.push(p);
    let moved = (if stack.len() > 0 {
        cursor.update(cursor.len() - 1, (cursor.last() + 1) as usize)
    } else {
        cursor
    }).push(0);
    let top = stack.len() - 1;
    lemma_tally_update(marks, p as int, VISITING, UNSEEN);
    assert forall|q: int, r: int| 0 <= q < r < deeper.len() implies (#[trigger] deeper[q]) != (
    #[trigger] deeper[r]) by {
        if r < stack.len() {
            assert(stack[q] != stack[r]);
        } else {
            assert(marks[stack[q] as int] == VISITING);
        }
    }
    assert forall|i: int| 0 <= i < after.len() && #[trigger] after[i] == VISITING implies holds(
        deeper,
        i,
    ) by {
        if i == p {
            assert(deeper[stack.len() as int] as int == i);
        } else {
            assert(holds(stack, i));
            let m = choose|m: int| 0 <= m < stack.len() && #[trigger] stack[m] as int == i;
            assert(deeper[m] as int == i);
        }
    }
    assert forall|k: int| 0 <= k < places(deeper).len() - 1 implies depends(
        pool,
        #[trigger] places(deeper)[k],
        places(deeper)[k + 1],
    ) by {
        if k < top {
            assert(depends(pool, places(stack)[k], places(stack)[k + 1]));
        } else {
            assert(depends(pool, stack[top] as int, links[stack[top] as int]@[cursor[top] as int] as int));
        }
    }
    assert forall|i: int, m: int| 0 <= i < deeper.len() && 0 <= m < moved[i] implies #[trigger] explored(
        links,
        after,
        deeper,
        i,
        m,
    ) by {
        if i < stack.len() {
            if i == top && m == cursor[top] {
            } else {
                assert(explored(links, marks, stack, i, m));
            }
        }
    }
}

/// Leaving the record at the top of the stack, all of whose parents are
/// explored, keeps the state of the traversal and gives the record the next
/// rank.
proof fn lemma_leave(
    pool: Seq<TxView>,
    links: Seq<Vec<usize>>,
    marks: Seq<u8>,
    stack: Seq<usize>,
    cursor: Seq<usize>,
    rank: Seq<nat>,
    next: nat,
)
    requires
        linked(pool, links),
        traversal(pool, marks, stack, rank, next),
        progress(links, marks, stack, cursor),
        stack.len() > 0,
        cursor.last() == links[stack.last() as int]@.len(),
    ensures
        traversal(
            pool,
            marks.update(stack.last() as int, DONE),
            stack.drop_last(),
            rank.update(stack.last() as int, next),
            next + 1,
        ),
        progress(links, marks.update(stack.last() as int, DONE), stack.drop_last(), cursor.drop_last()),
        tally(marks.update(stack.last() as int, DONE), UNSEEN) == tally(marks, UNSEEN),
        tally(marks.update(stack.last() as int, DONE), VISITING) < tally(marks, VISITING),
{
    let top = stack.len() - 1;
    let v = stack[top] as int;
    let after = marks.update(v, DONE);
    let ranked = rank.update(v, next);
    let shorter = stack.drop_last();
    lemma_tally_update(marks, v, DONE, UNSEEN);
    lemma_tally_update(marks, v, DONE, VISITING);
    assert forall|k: int| 0 <= k < shorter.len() implies (#[trigger] shorter[k]) < pool.len()
        && after[shorter[k] as int] == VISITING by {
        assert(stack[k] != stack[top]);
    }
    assert forall|q: int, r: int| 0 <= q < r < shorter.len() implies (#[trigger] shorter[q]) != (
    #[trigger] shorter[r]) by {
        assert(stack[q] != stack[r]);
    }
    assert forall|i: int| 0 <= i < after.len() && #[trigger] after[i] == VISITING implies holds(
        shorter,
        i,
    ) by {
        assert(holds(stack, i));
        let m = choose|m: int| 0 <= m < stack.len() && #[trigger] stack[m] as int == i;
        assert(shorter[m] as int == i);
    }
    assert forall|k: int| 0 <= k < places(shorter).len() - 1 implies depends(
        pool,
        #[trigger] places(shorter)[k],
        places(shorter)[k + 1],
    ) by {
        assert(depends(pool, places(stack)[k], places(stack)[k + 1]));
    }
    assert forall|i: int, j: int|
        0 <= i < after.len() && after[i] == DONE && #[trigger] depends(pool, i, j) implies after[j]
        == DONE && ranked[j] < ranked[i] by {
        if i == v {
            assert(holds(links[v]@, j));
            let m = choose|m: int| 0 <= m < links[v]@.len() && #[trigger] links[v]@[m] as int == j;
            assert(explored(links, marks, stack, top, m));
            assert(rank[j] < next);
        }
    }
    assert forall|i: int| 0 <= i < after.len() && after[i] == DONE implies #[trigger] ranked[i] < next
        + 1 by {
        if i != v {
            assert(rank[i] < next);
        }
    }
    assert forall|i: int, m: int|
        0 <= i < shorter.len() && 0 <= m < cursor.drop_last()[i] implies #[trigger] explored(
        links,
        after,
        shorter,
        i,
        m,
    ) by {
        assert(explored(links, marks, stack, i, m));
    }
}

/// Looks for a record that depends on itself. Returns one, or else a
/// ranking of the pool, which shows that there is none.
pub(crate) fn find_cycle(links: &Vec<Vec<usize>>, Ghost(pool): Ghost<Seq<TxView>>) -> (r: (
    Option<usize>,
    Ghost<Seq<nat>>,
))
    requires
        linked(pool, links@),
    ensures
        match r.0 {
            Some(c) => c < pool.len() && on_cycle(pool, c as int),
            None => is_ranking(pool, r.1@),
        },
{
    let n = links.len();
    let mut marks: Vec<u8> = Vec::new();
    let mut i: usize = 0;
    while i < n
        invariant
            i <= n,
            marks.len() == i,
            forall|j: int| 0 <= j < i ==> #[trigger] marks[j] == UNSEEN,
        decreases n - i,
    {
        marks.push(UNSEEN);
        i = i + 1;
    }
    let mut stack: Vec<usize> = Vec::new();
    let mut cursor: Vec<usize> = Vec::new();
    let ghost mut rank: Seq<nat> = Seq::new(n as nat, |j: int| 0nat);
    let ghost mut next: nat = 0;
    let mut root: usize = 0;
    while root < n
        invariant
            root <= n,
            n == pool.len(),
            linked(pool, links@),
            stack.len() == 0,
            traversal(pool, marks@, stack@, rank, next),
            progress(links@, marks@, stack@, cursor@),
            forall|j: int| 0 <= j < root ==> #[trigger] marks[j] != UNSEEN,
        decreases n - root,
    {
        if marks[root] == UNSEEN {
            proof {
                lemma_enter(pool, links@, marks@, stack@, cursor@, rank, next, root);
            }
            marks.set(root, VISITING);
            stack.push(root);
            cursor.push(0);
            while stack.len() > 0
                invariant
                    root < n,
                    n == pool.len(),
                    linked(pool, links@),
                    traversal(pool, marks@, stack@, rank, next),
                    progress(links@, marks@, stack@, cursor@),
                    forall|j: int| 0 <= j <= root ==> #[trigger] marks[j] != UNSEEN,
                decreases
                        tally(marks@, UNSEEN),
                        tally(marks@, VISITING),
                        (if stack.len() > 0 {
                            links[stack@.last() as int]@.len() - cursor@.last()
                        } else {
                            0
                        }),
            {
                let top = stack.len() - 1;
                let v = stack[top];
                let k = cursor[top];
                if k < links[v].len() {
                    let p = links[v][k];
                    assert(depends(pool, v as int, links[v as int]@[k as int] as int));
                    let mark = marks[p];
                    if mark == VISITING {
                        proof {
                            lemma_back_edge_closes_cycle(pool, marks@, stack@, rank, next, p as int);
                        }
                        return (Some(p), Ghost(rank));
                    }
                    if mark == UNSEEN {
                        proof {
                            lemma_enter(pool, links@, marks@, stack@, cursor@, rank, next, p);
                        }
                        cursor.set(top, k + 1);
                        marks.set(p, VISITING);
                        stack.push(p);
                        cursor.push(0);
                    } else {
                        let ghost before = cursor@;
                        cursor.set(top, k + 1);
                        proof {
                            assert forall|i: int, m: int|
                                0 <= i < stack.len() && 0 <= m < cursor[i] implies #[trigger] explored(
                                links@,
                                marks@,
                                stack@,
                                i,
                                m,
                            ) by {
                                if i == top && m == k {
                                } else {
                                    assert(explored(links@, marks@, stack@, i, m));
                                    assert(m < before[i]);
                                }
                            }
                        }
                    }
                } else {
                    proof {
                        lemma_leave(pool, links@, marks@, stack@, cursor@, rank, next);
                        rank = rank.update(v as int, next);
                        next = next + 1;
                    }
                    marks.set(v, DONE);
                    stack.pop();
                    cursor.pop();
                }
            }
        }
        root = root + 1;
    }
    proof {
        assert forall|a: int, b: int| #[trigger] depends(pool, a, b) implies rank[b] < rank[a] by {
            assert(marks[a] != UNSEEN);
            if marks[a] == VISITING {
                assert(holds(stack@, a));
            }
            assert(marks[a] == DONE);
        }
    }
    (None, Ghost(rank))
}

} // verus!
