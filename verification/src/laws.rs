//! What holds of every block sequence.

use crate::error::AssemblyError;
use crate::graph::{
    admissible, depends, first_dangling, first_duplicate, has_cycle, has_dangling, has_duplicate,
    has_zero_weight, is_chain, known, on_cycle,
};
use crate::pool::{
    build_outcome, distinct_ids, lemma_distinct_ids, lemma_rejection_excludes_admission,
    rejection, Pool,
};
use crate::schedule::{
    block_weight, complete, concat, cut_late, greedy, is_assembly, lemma_outranks_total, outranks,
    packed, pays_more, ready, selected,
};
use crate::tally::holds;
use crate::transaction::TxView;
use vstd::prelude::*;

verus! {

/// The number of transactions in the blocks before block `b`.
pub open spec fn start_of(blocks: Seq<Seq<usize>>, b: int) -> int {
    concat(blocks.take(b)).len() as int
}

/// Place `k` of block `b` holds transaction `i`.
pub open spec fn member_at(blocks: Seq<Seq<usize>>, b: int, k: int, i: int) -> bool {
    &&& 0 <= b < blocks.len()
    &&& 0 <= k < blocks[b].len()
    &&& blocks[b][k] as int == i
}

/// The transactions that are placed before place `k` of block `b`.
pub open spec fn placed_before(blocks: Seq<Seq<usize>>, b: int, k: int) -> Seq<usize> {
    concat(blocks).take(start_of(blocks, b) + k)
}

proof fn lemma_start_step(blocks: Seq<Seq<usize>>, b: int)
    requires
        0 <= b < blocks.len(),
    ensures
        start_of(blocks, b + 1) == start_of(blocks, b) + blocks[b].len(),
{
    assert(blocks.take(b + 1).drop_last() =~= blocks.take(b));
    assert(blocks.take(b + 1).last() == blocks[b]);
}

proof fn lemma_start_monotonic(blocks: Seq<Seq<usize>>, a: int, b: int)
    requires
        0 <= a <= b <= blocks.len(),
    ensures
        start_of(blocks, a) <= start_of(blocks, b),
    decreases b - a,
{
    if a < b {
        lemma_start_step(blocks, b - 1);
        lemma_start_monotonic(blocks, a, b - 1);
    }
}

proof fn lemma_start_end(blocks: Seq<Seq<usize>>)
    ensures
        start_of(blocks, blocks.len() as int) == concat(blocks).len(),
{
    assert(blocks.take(blocks.len() as int) =~= blocks);
}

/// Place `k` of block `b` is place `start_of(blocks, b) + k` of the whole.
proof fn lemma_concat_index(blocks: Seq<Seq<usize>>, b: int, k: int)
    requires
        0 <= b < blocks.len(),
        0 <= k < blocks[b].len(),
    ensures
        0 <= start_of(blocks, b) + k < concat(blocks).len(),
        concat(blocks)[start_of(blocks, b) + k] == blocks[b][k],
    decreases blocks.len(),
{
    if b == blocks.len() - 1 {
        assert(blocks.take(b) =~= blocks.drop_last());
    } else {
        lemma_concat_index(blocks.drop_last(), b, k);
        assert(blocks.drop_last().take(b) =~= blocks.take(b));
    }
}

/// Place `p` of the whole is place `k` of block `b`.
spec fn located(blocks: Seq<Seq<usize>>, b: int, k: int, p: int) -> bool {
    &&& 0 <= b < blocks.len()
    &&& 0 <= k < blocks[b].len()
    &&& start_of(blocks, b) + k == p
}

proof fn lemma_position_exists(blocks: Seq<Seq<usize>>, p: int)
    requires
        0 <= p < concat(blocks).len(),
    ensures
        exists|b: int, k: int| #[trigger] located(blocks, b, k, p),
    decreases blocks.len(),
{
    let front = blocks.drop_last();
    if p >= concat(front).len() {
        let b = blocks.len() - 1;
        assert(blocks.take(b) =~= front);
        assert(located(blocks, b, p - concat(front).len(), p));
    } else {
        lemma_position_exists(front, p);
        let (b, k) = choose|b: int, k: int| #[trigger] located(front, b, k, p);
        assert(front.take(b) =~= blocks.take(b));
        assert(located(blocks, b, k, p));
    }
}

/// Two places of different blocks, or different places of one block, are
/// different places of the whole, in the same order.
proof fn lemma_places_ordered(blocks: Seq<Seq<usize>>, b1: int, k1: int, b2: int, k2: int)
    requires
        0 <= b1 < blocks.len(),
        0 <= k1 < blocks[b1].len(),
        0 <= b2 < blocks.len(),
        0 <= k2 < blocks[b2].len(),
        start_of(blocks, b1) + k1 < start_of(blocks, b2) + k2,
    ensures
        b1 < b2 || (b1 == b2 && k1 < k2),
{
    if b1 > b2 {
        lemma_start_step(blocks, b2);
        lemma_start_monotonic(blocks, b2 + 1, b1);
    }
}

/// No transaction stands at two places of a greedy order.
proof fn lemma_no_repeat(pool: Seq<TxView>, order: Seq<usize>, k1: int, k2: int)
    requires
        greedy(pool, order),
        0 <= k1 < k2 < order.len(),
    ensures
        order[k1] != order[k2],
{
    assert(selected(pool, order, k2));
    assert(order.take(k2)[k1] == order[k1]);
}

/// Weight bound: the weights of the members of a block sum to the budget at
/// most, unless the block has a single member that is heavier than the
/// budget by itself.
pub proof fn lemma_weight_bound(
    pool: Seq<TxView>,
    max_block_weight: nat,
    blocks: Seq<Seq<usize>>,
    b: int,
)
    requires
        is_assembly(pool, max_block_weight, blocks),
        0 <= b < blocks.len(),
    ensures
        blocks[b].len() > 0,
        block_weight(pool, blocks[b]) <= max_block_weight || (blocks[b].len() == 1
            && pool[blocks[b][0] as int].weight > max_block_weight),
{
    let block = blocks[b];
    if block.len() == 1 {
        assert(block.drop_last() =~= Seq::<usize>::empty());
        assert(block_weight(pool, block.drop_last()) == 0);
    }
}

/// Every member of a block is a transaction of the pool.
pub proof fn lemma_members_are_of_pool(
    pool: Seq<TxView>,
    max_block_weight: nat,
    blocks: Seq<Seq<usize>>,
    b: int,
    k: int,
)
    requires
        is_assembly(pool, max_block_weight, blocks),
        0 <= b < blocks.len(),
        0 <= k < blocks[b].len(),
    ensures
        blocks[b][k] < pool.len(),
{
    lemma_concat_index(blocks, b, k);
    assert(selected(pool, concat(blocks), start_of(blocks, b) + k));
}

/// Completeness: every transaction of the pool stands at exactly one place
/// of exactly one block.
pub proof fn lemma_exactly_once(
    pool: Seq<TxView>,
    max_block_weight: nat,
    blocks: Seq<Seq<usize>>,
    i: int,
)
    requires
        is_assembly(pool, max_block_weight, blocks),
        0 <= i < pool.len(),
    ensures
        exists|b: int, k: int| #[trigger] member_at(blocks, b, k, i),
        forall|b1: int, k1: int, b2: int, k2: int|
            #[trigger] member_at(blocks, b1, k1, i) && #[trigger] member_at(blocks, b2, k2, i) ==> b1
                == b2 && k1 == k2,
{
    let order = concat(blocks);
    assert(holds(order, i));
    let p = choose|p: int| 0 <= p < order.len() && #[trigger] order[p] as int == i;
    lemma_position_exists(blocks, p);
    let (b, k) = choose|b: int, k: int| #[trigger] located(blocks, b, k, p);
    lemma_concat_index(blocks, b, k);
    assert(member_at(blocks, b, k, i));
    assert forall|b1: int, k1: int, b2: int, k2: int|
        #[trigger] member_at(blocks, b1, k1, i) && #[trigger] member_at(
            blocks,
            b2,
            k2,
            i,
        ) implies b1 == b2 && k1 == k2 by {
        lemma_concat_index(blocks, b1, k1);
        lemma_concat_index(blocks, b2, k2);
        let at_first = start_of(blocks, b1) + k1;
        let at_second = start_of(blocks, b2) + k2;
        if at_first < at_second {
            lemma_no_repeat(pool, order, at_first, at_second);
        } else if at_second < at_first {
            lemma_no_repeat(pool, order, at_second, at_first);
        } else if b1 < b2 {
            lemma_start_step(blocks, b1);
            lemma_start_monotonic(blocks, b1 + 1, b2);
        } else if b2 < b1 {
            lemma_start_step(blocks, b2);
            lemma_start_monotonic(blocks, b2 + 1, b1);
        }
    }
}

/// Dependency order: a parent that the pool holds stands in an earlier
/// block than the transaction that names it, or at an earlier place of the
/// same block.
pub proof fn lemma_dependency_order(
    pool: Seq<TxView>,
    max_block_weight: nat,
    blocks: Seq<Seq<usize>>,
    child_block: int,
    child_place: int,
    parent_block: int,
    parent_place: int,
)
    requires
        is_assembly(pool, max_block_weight, blocks),
        0 <= child_block < blocks.len(),
        0 <= child_place < blocks[child_block].len(),
        0 <= parent_block < blocks.len(),
        0 <= parent_place < blocks[parent_block].len(),
        depends(
            pool,
            blocks[child_block][child_place] as int,
            blocks[parent_block][parent_place] as int,
        ),
    ensures
        parent_block < child_block || (parent_block == child_block && parent_place < child_place),
{
    let order = concat(blocks);
    lemma_concat_index(blocks, child_block, child_place);
    lemma_concat_index(blocks, parent_block, parent_place);
    let pc = start_of(blocks, child_block) + child_place;
    let pp = start_of(blocks, parent_block) + parent_place;
    assert(selected(pool, order, pc));
    let before = order.take(pc);
    assert(holds(before, order[pp] as int));
    let q = choose|q: int| 0 <= q < before.len() && #[trigger] before[q] as int == order[pp] as int;
    assert(order[q] == order[pp]);
    if q < pp {
        lemma_no_repeat(pool, order, q, pp);
    } else if pp < q {
        lemma_no_repeat(pool, order, pp, q);
    }
    lemma_places_ordered(blocks, parent_block, parent_place, child_block, child_place);
}

/// Greedy priority: where a transaction of a block pays a strictly higher
/// fee rate than one placed before it in that block, it was not ready when
/// the earlier one was selected: one of its parents was not placed then.
pub proof fn lemma_greedy_priority(
    pool: Seq<TxView>,
    max_block_weight: nat,
    blocks: Seq<Seq<usize>>,
    b: int,
    earlier: int,
    later: int,
)
    requires
        is_assembly(pool, max_block_weight, blocks),
        0 <= b < blocks.len(),
        0 <= earlier < later < blocks[b].len(),
        pays_more(pool[blocks[b][later] as int], pool[blocks[b][earlier] as int]),
    ensures
        exists|j: int| #[trigger]
            depends(pool, blocks[b][later] as int, j) && !holds(placed_before(blocks, b, earlier), j),
{
    let order = concat(blocks);
    lemma_concat_index(blocks, b, earlier);
    lemma_concat_index(blocks, b, later);
    let pe = start_of(blocks, b) + earlier;
    let pl = start_of(blocks, b) + later;
    let before = order.take(pe);
    let x = blocks[b][later] as int;
    assert(selected(pool, order, pe));
    assert(selected(pool, order, pl));
    assert(outranks(pool[x], pool[order[pe] as int]));
    assert(!ready(pool, before, x));
    if holds(before, x) {
        let q = choose|q: int| 0 <= q < before.len() && #[trigger] before[q] as int == x;
        assert(order[q] == order[pl]);
        lemma_no_repeat(pool, order, q, pl);
    }
}

/// Two greedy orders of one pool agree as far as both reach.
proof fn lemma_prefixes_agree(pool: Seq<TxView>, first: Seq<usize>, second: Seq<usize>, k: int)
    requires
        distinct_ids(pool),
        greedy(pool, first),
        greedy(pool, second),
        0 <= k <= first.len(),
        k <= second.len(),
    ensures
        first.take(k) == second.take(k),
    decreases k,
{
    if k == 0 {
        assert(first.take(0) =~= second.take(0));
    } else {
        lemma_prefixes_agree(pool, first, second, k - 1);
        let x = first[k - 1] as int;
        let y = second[k - 1] as int;
        assert(selected(pool, first, k - 1));
        assert(selected(pool, second, k - 1));
        assert(ready(pool, first.take(k - 1), y));
        assert(ready(pool, second.take(k - 1), x));
        if x != y {
            if x < y {
                assert(pool[x].id != pool[y].id);
            } else {
                assert(pool[y].id != pool[x].id);
            }
            lemma_outranks_total(pool[x], pool[y]);
        }
        assert(first.take(k) =~= first.take(k - 1).push(first[k - 1]));
        assert(second.take(k) =~= second.take(k - 1).push(second[k - 1]));
    }
}

/// A pool has one greedy order that is complete.
proof fn lemma_orders_agree(pool: Seq<TxView>, first: Seq<usize>, second: Seq<usize>)
    requires
        distinct_ids(pool),
        greedy(pool, first),
        greedy(pool, second),
        complete(pool, first),
        complete(pool, second),
    ensures
        first == second,
{
    if first.len() < second.len() {
        let k = first.len() as int;
        lemma_prefixes_agree(pool, first, second, k);
        assert(first.take(k) =~= first);
        assert(selected(pool, second, k));
        assert(holds(first, second[k] as int));
    } else if second.len() < first.len() {
        let k = second.len() as int;
        lemma_prefixes_agree(pool, first, second, k);
        assert(second.take(k) =~= second);
        assert(selected(pool, first, k));
        assert(holds(second, first[k] as int));
    } else {
        let k = first.len() as int;
        lemma_prefixes_agree(pool, first, second, k);
        assert(first.take(k) =~= first);
        assert(second.take(k) =~= second);
    }
}

/// The weight of the beginning of a block is at most that of the block.
proof fn lemma_block_weight_prefix(pool: Seq<TxView>, block: Seq<usize>, k: int)
    requires
        0 <= k <= block.len(),
    ensures
        block_weight(pool, block.take(k)) <= block_weight(pool, block),
    decreases block.len(),
{
    if k == block.len() {
        assert(block.take(k) =~= block);
    } else {
        assert(block.drop_last().take(k) =~= block.take(k));
        lemma_block_weight_prefix(pool, block.drop_last(), k);
    }
}

/// Of two packings of one order that agree on the blocks before block
/// `i`, the first does not end block `i` before the second does.
proof fn lemma_block_not_shorter(
    pool: Seq<TxView>,
    max_block_weight: nat,
    first: Seq<Seq<usize>>,
    second: Seq<Seq<usize>>,
    i: int,
)
    requires
        packed(pool, max_block_weight, first),
        packed(pool, max_block_weight, second),
        concat(first) == concat(second),
        0 <= i < first.len(),
        i < second.len(),
        first.take(i) == second.take(i),
    ensures
        first[i].len() >= second[i].len(),
{
    let short = first[i];
    let long = second[i];
    if short.len() < long.len() {
        let n = short.len() as int;
        lemma_concat_index(second, i, n);
        lemma_start_step(first, i);
        lemma_start_end(first);
        lemma_start_monotonic(first, i + 1, first.len() as int);
        assert(i + 1 < first.len());
        lemma_concat_index(first, i + 1, 0);
        assert(first[i + 1][0] == long[n]);
        assert(cut_late(pool, max_block_weight, first, i + 1));
        assert forall|k: int| 0 <= k < n implies short[k] == long.take(n)[k] by {
            lemma_concat_index(first, i, k);
            lemma_concat_index(second, i, k);
        }
        assert(short =~= long.take(n));
        assert(long.take(n + 1).drop_last() =~= long.take(n));
        assert(long.take(n + 1).last() == long[n]);
        lemma_block_weight_prefix(pool, long, n + 1);
        assert(block_weight(pool, second[i]) > max_block_weight);
    }
}

/// Two packings of one order agree as far as both reach.
proof fn lemma_blocks_agree(
    pool: Seq<TxView>,
    max_block_weight: nat,
    first: Seq<Seq<usize>>,
    second: Seq<Seq<usize>>,
    m: int,
)
    requires
        packed(pool, max_block_weight, first),
        packed(pool, max_block_weight, second),
        concat(first) == concat(second),
        0 <= m <= first.len(),
        m <= second.len(),
    ensures
        first.take(m) == second.take(m),
    decreases m,
{
    if m == 0 {
        assert(first.take(0) =~= second.take(0));
    } else {
        let i = m - 1;
        lemma_blocks_agree(pool, max_block_weight, first, second, i);
        lemma_block_not_shorter(pool, max_block_weight, first, second, i);
        lemma_block_not_shorter(pool, max_block_weight, second, first, i);
        assert forall|k: int| 0 <= k < first[i].len() implies first[i][k] == second[i][k] by {
            lemma_concat_index(first, i, k);
            lemma_concat_index(second, i, k);
        }
        assert(first[i] =~= second[i]);
        assert(first.take(m) =~= first.take(i).push(first[i]));
        assert(second.take(m) =~= second.take(i).push(second[i]));
    }
}

/// Determinism: a pool has one block sequence under a weight budget. Two
/// runs on the same records and the same budget give the same blocks.
pub proof fn lemma_assembly_unique(
    pool: Seq<TxView>,
    max_block_weight: nat,
    first: Seq<Seq<usize>>,
    second: Seq<Seq<usize>>,
)
    requires
        !has_duplicate(pool),
        is_assembly(pool, max_block_weight, first),
        is_assembly(pool, max_block_weight, second),
    ensures
        first == second,
{
    lemma_distinct_ids(pool);
    lemma_orders_agree(pool, concat(first), concat(second));
    let m = if first.len() <= second.len() {
        first.len() as int
    } else {
        second.len() as int
    };
    lemma_blocks_agree(pool, max_block_weight, first, second, m);
    lemma_start_end(first);
    lemma_start_end(second);
    if first.len() < second.len() {
        assert(first.take(m) =~= first);
        lemma_concat_index(second, m, 0);
    } else if second.len() < first.len() {
        assert(second.take(m) =~= second);
        lemma_concat_index(first, m, 0);
    } else {
        assert(first.take(m) =~= first);
        assert(second.take(m) =~= second);
    }
}

/// Two records that name each other as parents depend on themselves.
pub proof fn lemma_mutual_parents_cycle(pool: Seq<TxView>, a: int, b: int)
    requires
        depends(pool, a, b),
        depends(pool, b, a),
    ensures
        on_cycle(pool, a),
        on_cycle(pool, b),
        has_cycle(pool),
{
    let there = seq![a, b, a];
    assert(is_chain(pool, there));
    assert(there[0] == a && there.last() == a);
    let back = seq![b, a, b];
    assert(is_chain(pool, back));
    assert(back[0] == b && back.last() == b);
}

/// Cycle rejection: records among which one depends on itself give no pool,
/// and the failure names the cycle unless an earlier check has failed: a
/// weight of zero, an identifier that occurs twice, or a parent that the
/// pool does not hold while such parents are not ignored.
pub proof fn lemma_cycle_is_rejected(
    pool: Seq<TxView>,
    ignore_unknown_parents: bool,
    r: Result<Pool, AssemblyError>,
)
    requires
        build_outcome(pool, ignore_unknown_parents, r),
        has_cycle(pool),
    ensures
        r is Err,
        !has_zero_weight(pool) && !has_duplicate(pool) && (ignore_unknown_parents || !has_dangling(
            pool,
        )) ==> r->Err_0 is CyclicDependency,
{
    if r is Err {
        lemma_rejection_excludes_admission(pool, ignore_unknown_parents, r->Err_0);
    }
}

/// Records are given a pool just where they are admissible.
pub proof fn lemma_built_iff_admissible(
    pool: Seq<TxView>,
    ignore_unknown_parents: bool,
    r: Result<Pool, AssemblyError>,
)
    requires
        build_outcome(pool, ignore_unknown_parents, r),
    ensures
        r is Ok <==> admissible(pool, ignore_unknown_parents),
{
    match r {
        Ok(_) => {},
        Err(e) => {
            lemma_rejection_excludes_admission(pool, ignore_unknown_parents, e);
        },
    }
}

/// The same records are refused for the same reason: two failures are of
/// the same kind, and name the same identifiers where the failure is an
/// identifier that occurs twice or a parent that the pool does not hold.
pub proof fn lemma_failure_is_determined(
    pool: Seq<TxView>,
    ignore_unknown_parents: bool,
    first: AssemblyError,
    second: AssemblyError,
)
    requires
        rejection(pool, ignore_unknown_parents, first),
        rejection(pool, ignore_unknown_parents, second),
    ensures
        match (first, second) {
            (AssemblyError::ParseError { field: f1 }, AssemblyError::ParseError { field: f2 }) => f1
                == f2,
            (AssemblyError::DuplicateId { id: id1 }, AssemblyError::DuplicateId { id: id2 }) => id1@
                == id2@,
            (
                AssemblyError::DanglingParent { id: id1, missing_parent: parent1 },
                AssemblyError::DanglingParent { id: id2, missing_parent: parent2 },
            ) => id1@ == id2@ && parent1@ == parent2@,
            (
                AssemblyError::CyclicDependency { .. },
                AssemblyError::CyclicDependency { .. },
            ) => true,
            _ => false,
        },
{
    lemma_rejection_excludes_admission(pool, ignore_unknown_parents, first);
    lemma_rejection_excludes_admission(pool, ignore_unknown_parents, second);
    match (first, second) {
        (AssemblyError::DuplicateId { id: id1 }, AssemblyError::DuplicateId { id: id2 }) => {
            let j1 = choose|j: int| #[trigger] first_duplicate(pool, j) && pool[j].id == id1@;
            let j2 = choose|j: int| #[trigger] first_duplicate(pool, j) && pool[j].id == id2@;
            if j1 < j2 {
                let i = choose|i: int| 0 <= i < j1 && (#[trigger] pool[i]).id == pool[j1].id;
                assert(pool[i].id != pool[j1].id);
            } else if j2 < j1 {
                let i = choose|i: int| 0 <= i < j2 && (#[trigger] pool[i]).id == pool[j2].id;
                assert(pool[i].id != pool[j2].id);
            }
        },
        (
            AssemblyError::DanglingParent { id: id1, missing_parent: parent1 },
            AssemblyError::DanglingParent { id: id2, missing_parent: parent2 },
        ) => {
            let (i1, k1) = choose|i: int, k: int| #[trigger]
                first_dangling(pool, i, k) && pool[i].id == id1@ && pool[i].parents[k] == parent1@;
            let (i2, k2) = choose|i: int, k: int| #[trigger]
                first_dangling(pool, i, k) && pool[i].id == id2@ && pool[i].parents[k] == parent2@;
            if i1 < i2 {
                assert(known(pool, pool[i1].parents[k1]));
            } else if i2 < i1 {
                assert(known(pool, pool[i2].parents[k2]));
            } else if k1 < k2 {
                assert(known(pool, pool[i2].parents[k1]));
            } else if k2 < k1 {
                assert(known(pool, pool[i1].parents[k2]));
            }
        },
        _ => {},
    }
}

} // verus!
