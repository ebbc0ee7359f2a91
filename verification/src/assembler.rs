//! The block assembler: it selects, again and again, the best transaction
//! whose parents are placed, and starts a new block where the weight budget
//! would be exceeded.

use crate::graph::{depends, is_ranking};
use crate::pool::{linked, Pool};
use crate::ready::{heap_ordered, no_repeat, within};
use crate::schedule::{
    block_weight, complete, concat, cut_late, greedy, is_assembly, outranks, packed, ready,
    selected,
};
use crate::tally::{holds, lemma_tally_positive, lemma_tally_prefix, lemma_tally_update, tally};
use crate::text::is_lex_less;
use crate::transaction::TxView;
use vstd::prelude::*;

verus! {

/// The blocks as sequences.
pub open spec fn rows(blocks: Seq<Vec<usize>>) -> Seq<Seq<usize>> {
    Seq::new(blocks.len(), |b: int| blocks[b]@)
}

/// The number of places of `row` that name a transaction not yet placed.
pub open spec fn pending(row: Seq<usize>, placed: Seq<bool>) -> nat
    decreases row.len(),
{
    if row.len() == 0 {
        0
    } else {
        pending(row.drop_last(), placed) + if placed[row.last() as int] {
            0nat
        } else {
            1nat
        }
    }
}

proof fn lemma_pending_zero(row: Seq<usize>, placed: Seq<bool>)
    ensures
        pending(row, placed) == 0 <==> forall|k: int|
            0 <= k < row.len() ==> placed[#[trigger] row[k] as int],
    decreases row.len(),
{
    if row.len() > 0 {
        lemma_pending_zero(row.drop_last(), placed);
        if pending(row, placed) == 0 {
            assert forall|k: int| 0 <= k < row.len() implies placed[#[trigger] row[k] as int] by {
                if k < row.len() - 1 {
                    assert(row.drop_last()[k] == row[k]);
                }
            }
        } else if placed[row.last() as int] {
            let k = choose|k: int|
                0 <= k < row.drop_last().len() && !placed[#[trigger] row.drop_last()[k] as int];
            assert(row[k] == row.drop_last()[k]);
        }
    }
}

proof fn lemma_pending_none_placed(row: Seq<usize>, placed: Seq<bool>)
    requires
        forall|k: int| 0 <= k < row.len() ==> !placed[#[trigger] row[k] as int],
    ensures
        pending(row, placed) == row.len(),
    decreases row.len(),
{
    if row.len() > 0 {
        assert forall|k: int| 0 <= k < row.drop_last().len() implies !placed[(
        #[trigger] row.drop_last()[k]) as int] by {
            assert(row.drop_last()[k] == row[k]);
        }
        lemma_pending_none_placed(row.drop_last(), placed);
    }
}

/// Placing `t` takes as many places out of the count as name `t`.
proof fn lemma_pending_place(row: Seq<usize>, placed: Seq<bool>, t: usize)
    requires
        t < placed.len(),
        !placed[t as int],
        forall|k: int| 0 <= k < row.len() ==> #[trigger] row[k] < placed.len(),
    ensures
        pending(row, placed.update(t as int, true)) + tally(row, t) == pending(row, placed),
    decreases row.len(),
{
    if row.len() > 0 {
        assert forall|k: int| 0 <= k < row.drop_last().len() implies #[trigger] row.drop_last()[k]
            < placed.len() by {
            assert(row.drop_last()[k] == row[k]);
        }
        assert(row.last() == row[row.len() - 1]);
        lemma_pending_place(row.drop_last(), placed, t);
    }
}

/// `placed` marks just the transactions of `order`.
pub open spec fn follows(placed: Seq<bool>, order: Seq<usize>) -> bool {
    forall|c: int| 0 <= c < placed.len() ==> (#[trigger] placed[c] <==> holds(order, c))
}

/// Every parent link of a placed transaction names a placed transaction.
pub open spec fn parents_first(links: Seq<Vec<usize>>, placed: Seq<bool>) -> bool {
    forall|c: int, k: int|
        0 <= c < links.len() && placed[c] && 0 <= k < links[c]@.len() ==> placed[(
        #[trigger] links[c]@[k]) as int]
}

/// A transaction that is not placed is ready just where none of its links
/// is pending.
proof fn lemma_ready_iff_none_pending(
    pool: Seq<TxView>,
    links: Seq<Vec<usize>>,
    placed: Seq<bool>,
    order: Seq<usize>,
    c: int,
)
    requires
        linked(pool, links),
        placed.len() == pool.len(),
        follows(placed, order),
        0 <= c < pool.len(),
        !placed[c],
    ensures
        ready(pool, order, c) <==> pending(links[c]@, placed) == 0,
{
    let row = links[c]@;
    lemma_pending_zero(row, placed);
    if pending(row, placed) == 0 {
        assert forall|j: int| #[trigger] depends(pool, c, j) implies holds(order, j) by {
            assert(holds(row, j));
            let k = choose|k: int| 0 <= k < row.len() && row[k] as int == j;
            assert(placed[row[k] as int]);
        }
    }
    if ready(pool, order, c) {
        assert forall|k: int| 0 <= k < row.len() implies placed[#[trigger] row[k] as int] by {
            assert(depends(pool, c, links[c]@[k] as int));
        }
    }
}

/// While a transaction is left over, some transaction is ready.
proof fn lemma_left_over_has_ready(pool: Seq<TxView>, rank: Seq<nat>, done: Seq<usize>, c: int)
    requires
        is_ranking(pool, rank),
        0 <= c < pool.len(),
        !holds(done, c),
    ensures
        exists|r: int| ready(pool, done, r),
    decreases rank[c],
{
    if !ready(pool, done, c) {
        let j = choose|j: int| #[trigger] depends(pool, c, j) && !holds(done, j);
        lemma_left_over_has_ready(pool, rank, done, j);
    }
}

/// The bookkeeping of a run. For every transaction that is not placed,
/// `in_degree` counts its links that were pending under `basis`; the ready
/// set holds, once each, just the transactions that are not placed and
/// whose count is zero.
pub open spec fn tracking(
    links: Seq<Vec<usize>>,
    placed: Seq<bool>,
    basis: Seq<bool>,
    in_degree: Seq<usize>,
    ready_set: Seq<usize>,
) -> bool {
    &&& placed.len() == links.len()
    &&& basis.len() == links.len()
    &&& in_degree.len() == links.len()
    &&& forall|c: int|
        0 <= c < links.len() && !placed[c] ==> #[trigger] in_degree[c] == pending(links[c]@, basis)
    &&& within(ready_set, links.len())
    &&& no_repeat(ready_set)
    &&& forall|c: int| #[trigger] holds(ready_set, c) ==> !placed[c] && in_degree[c] == 0
    &&& forall|c: int|
        0 <= c < links.len() && !placed[c] && #[trigger] in_degree[c] == 0 ==> holds(ready_set, c)
}

impl Pool {
    /// Whether the transaction at place `a` is selected before the one at
    /// place `b` where both are ready.
    pub fn outranks_at(&self, a: usize, b: usize) -> (r: bool)
        requires
            self.wf(),
            a < self@.len(),
            b < self@.len(),
        ensures
            r == outranks(self@[a as int], self@[b as int]),
    {
        let x = &self.records[a];
        let y = &self.records[b];
        assert(x.fee * y.weight <= 0xffff_ffff_ffff_ffff * 0xffff_ffff) by (nonlinear_arith)
            requires
                x.fee <= 0xffff_ffff_ffff_ffff,
                y.weight <= 0xffff_ffff,
        ;
        assert(y.fee * x.weight <= 0xffff_ffff_ffff_ffff * 0xffff_ffff) by (nonlinear_arith)
            requires
                y.fee <= 0xffff_ffff_ffff_ffff,
                x.weight <= 0xffff_ffff,
        ;
        let left: u128 = (x.fee as u128) * (y.weight as u128);
        let right: u128 = (y.fee as u128) * (x.weight as u128);
        left > right || (left == right && is_lex_less(&self.ids[a], &self.ids[b]))
    }

    /// After `t` is placed: every transaction that names `t` has one
    /// pending link less for each place where it does, and joins the ready
    /// set when none is left.
    fn release(
        &self,
        placed: &Vec<bool>,
        t: usize,
        in_degree: &mut Vec<usize>,
        ready_set: &mut Vec<usize>,
    )
        requires
            self.wf(),
            t < self@.len(),
            placed[t as int],
            tracking(
                self.links@,
                placed@,
                placed@.update(t as int, false),
                old(in_degree)@,
                old(ready_set)@,
            ),
            parents_first(self.links@, placed@.update(t as int, false)),
            heap_ordered(self@, old(ready_set)@),
        ensures
            tracking(self.links@, placed@, placed@, final(in_degree)@, final(ready_set)@),
            heap_ordered(self@, final(ready_set)@),
    {
        let n = self.links.len();
        let ghost pool = self@;
        let ghost basis = placed@.update(t as int, false);
        let ghost kids = self.children[t as int]@;
        assert(basis.update(t as int, true) =~= placed@);
        let mut e: usize = 0;
        assert(kids.take(0) =~= Seq::<usize>::empty());
        while e < self.children[t].len()
            invariant
                self.wf(),
                pool == self@,
                n == self.links.len(),
                t < n,
                placed[t as int],
                placed.len() == n,
                in_degree.len() == n,
                basis == placed@.update(t as int, false),
                basis.update(t as int, true) == placed@,
                parents_first(self.links@, basis),
                kids == self.children[t as int]@,
                e <= kids.len(),
                forall|d: int|
                    0 <= d < n && !placed[d] ==> #[trigger] in_degree[d] + tally(
                        kids.take(e as int),
                        d as usize,
                    ) == pending(self.links[d]@, basis),
                within(ready_set@, n as nat),
                no_repeat(ready_set@),
                heap_ordered(pool, ready_set@),
                forall|d: int| #[trigger] holds(ready_set@, d) ==> !placed[d] && in_degree[d] == 0,
                forall|d: int|
                    0 <= d < n && !placed[d] && #[trigger] in_degree[d] == 0 ==> holds(ready_set@, d),
            decreases kids.len() - e,
        {
            let c = self.children[t][e];
            let ghost degrees = in_degree@;
            let ghost waiting = ready_set@;
            proof {
                assert(within(self.children[t as int]@, n as nat));
                assert(kids.take(e + 1).drop_last() =~= kids.take(e as int));
                assert(kids.take(e + 1).last() == c);
                lemma_tally_prefix(kids, e + 1, c);
                assert(tally(kids, c) == tally(self.links[c as int]@, t));
                lemma_tally_positive(self.links[c as int]@, t);
                let k = choose|k: int|
                    0 <= k < self.links[c as int]@.len() && self.links[c as int]@[k] == t;
                assert(depends(pool, c as int, self.links[c as int]@[k] as int));
                assert(self.rank@[t as int] < self.rank@[c as int]);
                assert(!basis[self.links[c as int]@[k] as int]);
                assert(!placed[c as int]);
                assert forall|m: int| 0 <= m < self.links[c as int]@.len() implies (
                #[trigger] self.links[c as int]@[m]) < basis.len() by {
                    assert(depends(pool, c as int, self.links[c as int]@[m] as int));
                }
                lemma_pending_place(self.links[c as int]@, basis, t);
            }
            let d = in_degree[c] - 1;
            in_degree.set(c, d);
            proof {
                if holds(waiting, c as int) {
                    assert(degrees[c as int] == 0);
                }
            }
            if d == 0 {
                self.heap_push(ready_set, c);
            }
            proof {
                assert forall|x: int| #[trigger] holds(ready_set@, x) implies !placed[x] && in_degree[x]
                    == 0 by {
                    if x != c {
                        assert(holds(waiting, x));
                    }
                }
                assert forall|x: int|
                    0 <= x < n && !placed[x] && #[trigger] in_degree[x] == 0 implies holds(
                    ready_set@,
                    x,
                ) by {
                    if x != c {
                        assert(degrees[x] == 0);
                        assert(holds(waiting, x));
                    }
                }
                assert forall|x: int| 0 <= x < n && !placed[x] implies #[trigger] in_degree[x] + tally(
                    kids.take(e + 1),
                    x as usize,
                ) == pending(self.links[x]@, basis) by {
                    assert(degrees[x] + tally(kids.take(e as int), x as usize) == pending(
                        self.links[x]@,
                        basis,
                    ));
                }
            }
            e = e + 1;
        }
        proof {
            assert(kids.take(kids.len() as int) =~= kids);
            assert forall|x: int| 0 <= x < n && !placed[x] implies #[trigger] in_degree[x] == pending(
                self.links[x]@,
                placed@,
            ) by {
                assert(in_degree[x] + tally(kids.take(kids.len() as int), x as usize) == pending(
                    self.links[x]@,
                    basis,
                ));
                assert(tally(self.children[t as int]@, x as usize) == tally(self.links[x]@, t));
                assert forall|m: int| 0 <= m < self.links[x]@.len() implies #[trigger] self.links[x]@[m]
                    < basis.len() by {
                    assert(depends(pool, x, self.links[x]@[m] as int));
                }
                lemma_pending_place(self.links[x]@, basis, t);
            }
        }
    }
}

/// Taking the best transaction out of the ready set extends a greedy order
/// by it, and leaves a ready set that holds what was ready before.
proof fn lemma_choice(
    pool: Seq<TxView>,
    links: Seq<Vec<usize>>,
    placed: Seq<bool>,
    in_degree: Seq<usize>,
    waiting: Seq<usize>,
    rest: Seq<usize>,
    order: Seq<usize>,
    t: usize,
)
    requires
        linked(pool, links),
        tracking(links, placed, placed, in_degree, waiting),
        follows(placed, order),
        greedy(pool, order),
        holds(waiting, t as int),
        forall|q: int|
            0 <= q < waiting.len() ==> !outranks(pool[(#[trigger] waiting[q]) as int], pool[t as int]),
        within(rest, links.len()),
        no_repeat(rest),
        forall|c: int| #[trigger] holds(rest, c) <==> holds(waiting, c) && c != t,
        parents_first(links, placed),
    ensures
        greedy(pool, order.push(t)),
        follows(placed.update(t as int, true), order.push(t)),
        tracking(links, placed.update(t as int, true), placed, in_degree, rest),
        tally(placed.update(t as int, true), false) + 1 == tally(placed, false),
        parents_first(links, placed.update(t as int, true)),
{
    let longer = order.push(t);
    let marked = placed.update(t as int, true);
    lemma_ready_iff_none_pending(pool, links, placed, order, t as int);
    lemma_pending_zero(links[t as int]@, placed);
    assert forall|j: int| #[trigger] ready(pool, order, j) implies !outranks(pool[j], pool[t as int]) by {
        lemma_ready_iff_none_pending(pool, links, placed, order, j);
        assert(in_degree[j] == 0);
        assert(holds(waiting, j));
        let q = choose|q: int| 0 <= q < waiting.len() && #[trigger] waiting[q] as int == j;
        assert(!outranks(pool[waiting[q] as int], pool[t as int]));
    }
    assert(longer.take(order.len() as int) =~= order);
    assert(selected(pool, longer, order.len() as int));
    assert forall|k: int| 0 <= k < longer.len() implies #[trigger] selected(pool, longer, k) by {
        if k < order.len() {
            assert(selected(pool, order, k));
            assert(longer.take(k) =~= order.take(k));
        }
    }
    lemma_tally_update(placed, t as int, true, false);
    assert forall|c: int| 0 <= c < marked.len() implies (#[trigger] marked[c] <==> holds(longer, c)) by {
        if c == t {
            assert(longer[order.len() as int] as int == c);
        } else if placed[c] {
            let k = choose|k: int| 0 <= k < order.len() && #[trigger] order[k] as int == c;
            assert(longer[k] as int == c);
        } else if holds(longer, c) {
            let k = choose|k: int| 0 <= k < longer.len() && #[trigger] longer[k] as int == c;
            assert(order[k] as int == c);
        }
    }
    assert forall|c: int| #[trigger] holds(rest, c) implies !marked[c] && in_degree[c] == 0 by {
        assert(holds(waiting, c));
    }
    assert forall|c: int|
        0 <= c < links.len() && !marked[c] && #[trigger] in_degree[c] == 0 implies holds(rest, c) by {
        assert(holds(waiting, c));
    }
}

/// When the ready set is empty, every transaction is placed.
proof fn lemma_all_placed(
    pool: Seq<TxView>,
    links: Seq<Vec<usize>>,
    rank: Seq<nat>,
    placed: Seq<bool>,
    in_degree: Seq<usize>,
    waiting: Seq<usize>,
    order: Seq<usize>,
)
    requires
        linked(pool, links),
        is_ranking(pool, rank),
        tracking(links, placed, placed, in_degree, waiting),
        follows(placed, order),
        waiting.len() == 0,
    ensures
        complete(pool, order),
{
    assert forall|c: int| 0 <= c < pool.len() implies #[trigger] holds(order, c) by {
        if !holds(order, c) {
            lemma_left_over_has_ready(pool, rank, order, c);
            let r = choose|r: int| ready(pool, order, r);
            lemma_ready_iff_none_pending(pool, links, placed, order, r);
            assert(in_degree[r] == 0);
            assert(holds(waiting, r));
        }
    }
}

/// The blocks under construction: those that are closed, and the one that
/// is being filled, with its weight.
pub(crate) struct Packer {
    pub(crate) blocks: Vec<Vec<usize>>,
    pub(crate) current: Vec<usize>,
    pub(crate) weight_used: u64,
}

impl Packer {
    /// The transactions placed so far, in order.
    pub(crate) open spec fn order(&self) -> Seq<usize> {
        concat(rows(self.blocks@)) + self.current@
    }

    /// The closed blocks are packed, and the block being filled continues
    /// them: it is empty only at the start, it stays within the budget
    /// unless it has a single member, and its first member would not have
    /// fitted in the block before it.
    pub(crate) open spec fn filling(&self, pool: Seq<TxView>, max_block_weight: nat) -> bool {
        &&& packed(pool, max_block_weight, rows(self.blocks@))
        &&& forall|k: int| 0 <= k < self.current@.len() ==> (#[trigger] self.current@[k]) < pool.len()
        &&& self.weight_used == block_weight(pool, self.current@)
        &&& self.weight_used <= max_block_weight || self.current@.len() == 1
        &&& self.weight_used <= u32::MAX
        &&& self.current@.len() == 0 ==> self.blocks@.len() == 0
        &&& self.blocks@.len() > 0 ==> block_weight(pool, self.blocks@.last()@)
            + pool[self.current@[0] as int].weight > max_block_weight
    }

    /// A packer that has placed nothing.
    pub(crate) fn new() -> (p: Packer)
        ensures
            p.order() == Seq::<usize>::empty(),
            forall|pool: Seq<TxView>, max_block_weight: nat| p.filling(pool, max_block_weight),
    {
        let p = Packer { blocks: Vec::new(), current: Vec::new(), weight_used: 0 };
        assert(p.order() =~= Seq::<usize>::empty());
        assert forall|pool: Seq<TxView>, max_block_weight: nat| p.filling(pool, max_block_weight) by {
            assert(rows(p.blocks@) =~= Seq::<Seq<usize>>::empty());
        }
        p
    }

    /// Places transaction `t` of weight `weight`: in the block being
    /// filled where it fits or where that block is empty, else in a new
    /// one.
    pub(crate) fn place(
        self,
        t: usize,
        weight: u32,
        max_block_weight: u32,
        Ghost(pool): Ghost<Seq<TxView>>,
    ) -> (p: Packer)
        requires
            self.filling(pool, max_block_weight as nat),
            t < pool.len(),
            weight == pool[t as int].weight,
        ensures
            p.filling(pool, max_block_weight as nat),
            p.order() == self.order().push(t),
    {
        let ghost before = self.order();
        let Packer { mut blocks, mut current, mut weight_used } = self;
        if weight_used + weight as u64 > max_block_weight as u64 && current.len() > 0 {
            let ghost closed = rows(blocks@);
            let ghost full = current@;
            blocks.push(current);
            current = Vec::new();
            weight_used = 0;
            proof {
                assert(rows(blocks@) =~= closed.push(full));
                assert(rows(blocks@).drop_last() =~= closed);
                assert(concat(rows(blocks@)) =~= concat(closed) + full);
                assert(concat(rows(blocks@)) + current@ =~= before);
                assert forall|b: int| 0 < b < rows(blocks@).len() implies #[trigger] cut_late(
                    pool,
                    max_block_weight as nat,
                    rows(blocks@),
                    b,
                ) by {
                    if b < closed.len() {
                        assert(cut_late(pool, max_block_weight as nat, closed, b));
                    }
                }
            }
        }
        let ghost members = current@;
        assert(weight_used == block_weight(pool, members));
        current.push(t);
        weight_used = weight_used + weight as u64;
        let p = Packer { blocks, current, weight_used };
        proof {
            assert(p.current@.drop_last() =~= members);
            assert(p.current@.last() == t);
            assert(p.order() =~= before.push(t));
        }
        p
    }

    /// Closes the block being filled and gives the blocks.
    pub(crate) fn finish(
        self,
        Ghost(pool): Ghost<Seq<TxView>>,
        Ghost(max_block_weight): Ghost<nat>,
    ) -> (blocks: Vec<Vec<usize>>)
        requires
            self.filling(pool, max_block_weight),
        ensures
            packed(pool, max_block_weight, rows(blocks@)),
            concat(rows(blocks@)) == self.order(),
    {
        let ghost before = self.order();
        let Packer { mut blocks, current, weight_used } = self;
        if current.len() > 0 {
            let ghost closed = rows(blocks@);
            let ghost full = current@;
            blocks.push(current);
            proof {
                assert(rows(blocks@) =~= closed.push(full));
                assert(rows(blocks@).drop_last() =~= closed);
                assert(concat(rows(blocks@)) =~= before);
                assert forall|b: int| 0 < b < rows(blocks@).len() implies #[trigger] cut_late(
                    pool,
                    max_block_weight as nat,
                    rows(blocks@),
                    b,
                ) by {
                    if b < closed.len() {
                        assert(cut_late(pool, max_block_weight as nat, closed, b));
                    }
                }
            }
        } else {
            assert(concat(rows(blocks@)) =~= before);
        }
        blocks
    }
}

impl Pool {
    /// Cuts the pool into blocks of at most `max_block_weight`. A
    /// transaction that is heavier than the budget stands alone in a block.
    pub fn assemble(&self, max_block_weight: u32) -> (blocks: Vec<Vec<usize>>)
        requires
            self.wf(),
        ensures
            is_assembly(self@, max_block_weight as nat, rows(blocks@)),
    {
        let n = self.records.len();
        let ghost pool = self@;
        let mut placed: Vec<bool> = Vec::new();
        let mut in_degree: Vec<usize> = Vec::new();
        let mut ready_set: Vec<usize> = Vec::new();
        let mut i: usize = 0;
        while i < n
            invariant
                self.wf(),
                pool == self@,
                n == pool.len(),
                i <= n,
                placed.len() == i,
                in_degree.len() == i,
                tally(placed@, false) == i,
                forall|c: int| 0 <= c < i ==> !(#[trigger] placed[c]),
                forall|c: int| 0 <= c < i ==> #[trigger] in_degree[c] == self.links[c]@.len(),
                within(ready_set@, i as nat),
                no_repeat(ready_set@),
                heap_ordered(pool, ready_set@),
                forall|c: int| #[trigger] holds(ready_set@, c) ==> in_degree[c] == 0,
                forall|c: int| 0 <= c < i && #[trigger] in_degree[c] == 0 ==> holds(ready_set@, c),
            decreases n - i,
        {
            let ghost waiting = ready_set@;
            let ghost flags = placed@;
            placed.push(false);
            assert(placed@.drop_last() =~= flags);
            let d = self.links[i].len();
            in_degree.push(d);
            if d == 0 {
                proof {
                    if holds(waiting, i as int) {
                        let q = choose|q: int| 0 <= q < waiting.len() && #[trigger] waiting[q] as int == i;
                        assert(waiting[q] < i);
                    }
                }
                self.heap_push(&mut ready_set, i);
            }
            proof {
                assert forall|c: int| #[trigger] holds(ready_set@, c) implies in_degree[c] == 0 by {
                    if c != i {
                        assert(holds(waiting, c));
                        let q = choose|q: int| 0 <= q < waiting.len() && #[trigger] waiting[q] as int == c;
                        assert(waiting[q] < i);
                    }
                }
                assert forall|q: int| 0 <= q < ready_set.len() implies (#[trigger] ready_set[q]) < i
                    + 1 by {
                    let c = ready_set[q] as int;
                    assert(holds(ready_set@, c));
                    if c != i {
                        assert(holds(waiting, c));
                        let r = choose|r: int| 0 <= r < waiting.len() && #[trigger] waiting[r] as int == c;
                        assert(waiting[r] < i);
                    }
                }
                assert forall|c: int| 0 <= c < i + 1 && #[trigger] in_degree[c] == 0 implies holds(
                    ready_set@,
                    c,
                ) by {
                    if c < i {
                        assert(holds(waiting, c));
                    }
                }
            }
            i = i + 1;
        }
        let mut packer = Packer::new();
        proof {
            assert forall|c: int| 0 <= c < n implies #[trigger] in_degree[c] == pending(
                self.links[c]@,
                placed@,
            ) by {
                assert forall|k: int| 0 <= k < self.links[c]@.len() implies !placed[(
                #[trigger] self.links[c]@[k]) as int] by {
                    assert(depends(pool, c, self.links[c]@[k] as int));
                }
                lemma_pending_none_placed(self.links[c]@, placed@);
            }
            assert forall|c: int| #[trigger] holds(ready_set@, c) implies !placed[c] && in_degree[c]
                == 0 by {
                let q = choose|q: int| 0 <= q < ready_set.len() && #[trigger] ready_set[q] as int == c;
                assert(ready_set[q] < n);
            }
        }
        while ready_set.len() > 0
            invariant
                self.wf(),
                pool == self@,
                n == pool.len(),
                tracking(self.links@, placed@, placed@, in_degree@, ready_set@),
                parents_first(self.links@, placed@),
                heap_ordered(pool, ready_set@),
                follows(placed@, packer.order()),
                greedy(pool, packer.order()),
                packer.filling(pool, max_block_weight as nat),
            decreases tally(placed@, false),
        {
            let ghost waiting = ready_set@;
            let ghost flags = placed@;
            let ghost order = packer.order();
            let t = self.heap_pop(&mut ready_set);
            proof {
                lemma_choice(pool, self.links@, flags, in_degree@, waiting, ready_set@, order, t);
            }
            packer = packer.place(t, self.records[t].weight, max_block_weight, Ghost(pool));
            placed.set(t, true);
            assert(placed@.update(t as int, false) =~= flags);
            self.release(&placed, t, &mut in_degree, &mut ready_set);
        }
        proof {
            lemma_all_placed(
                pool,
                self.links@,
                self.rank@,
                placed@,
                in_degree@,
                ready_set@,
                packer.order(),
            );
        }
        packer.finish(Ghost(pool), Ghost(max_block_weight as nat))
    }
}

} // verus!
