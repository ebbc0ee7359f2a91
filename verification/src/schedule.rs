//! What a block sequence must be: the order in which transactions are
//! selected, and how that order is cut into blocks.
//!
//! Transactions are named by their place in the pool.

use crate::graph::depends;
use crate::tally::holds;
use crate::text::{
    chars_of, is_lex_less, lemma_lex_less_asymmetric, lemma_lex_less_total,
    lemma_lex_less_transitive, lex_less,
};
use crate::transaction::{Transaction, TxView};
use vstd::prelude::*;

verus! {

/// Transaction `i` can be selected once the transactions of `done` are
/// placed: it is not among them, and every parent of it that the pool holds
/// is.
pub open spec fn ready(pool: Seq<TxView>, done: Seq<usize>, i: int) -> bool {
    &&& 0 <= i < pool.len()
    &&& !holds(done, i)
    &&& forall|j: int| #[trigger] depends(pool, i, j) ==> holds(done, j)
}

/// `a` is selected before `b` where both are ready: its fee rate, the
/// fee divided by the weight as an exact fraction, is higher, or the rates
/// are equal and its identifier comes first.
pub open spec fn outranks(a: TxView, b: TxView) -> bool {
    ||| a.fee * b.weight > b.fee * a.weight
    ||| (a.fee * b.weight == b.fee * a.weight && lex_less(a.id, b.id))
}

/// The fee rate of `a` is strictly higher than that of `b`.
pub open spec fn pays_more(a: TxView, b: TxView) -> bool {
    a.fee * b.weight > b.fee * a.weight
}

/// Place `k` of `order` holds the transaction that is ready after the
/// `k` before it and that no other ready transaction outranks.
pub open spec fn selected(pool: Seq<TxView>, order: Seq<usize>, k: int) -> bool {
    &&& ready(pool, order.take(k), order[k] as int)
    &&& forall|j: int| #[trigger]
        ready(pool, order.take(k), j) ==> !outranks(pool[j], pool[order[k] as int])
}

/// Every place of `order` holds the best transaction that was ready then.
pub open spec fn greedy(pool: Seq<TxView>, order: Seq<usize>) -> bool {
    forall|k: int| 0 <= k < order.len() ==> #[trigger] selected(pool, order, k)
}

/// Every transaction of the pool is in `order`.
pub open spec fn complete(pool: Seq<TxView>, order: Seq<usize>) -> bool {
    forall|i: int| 0 <= i < pool.len() ==> #[trigger] holds(order, i)
}

/// The blocks one after the other.
pub open spec fn concat(blocks: Seq<Seq<usize>>) -> Seq<usize>
    decreases blocks.len(),
{
    if blocks.len() == 0 {
        Seq::empty()
    } else {
        concat(blocks.drop_last()) + blocks.last()
    }
}

/// The sum of the weights of the members of a block.
pub open spec fn block_weight(pool: Seq<TxView>, block: Seq<usize>) -> nat
    decreases block.len(),
{
    if block.len() == 0 {
        0
    } else {
        block_weight(pool, block.drop_last()) + pool[block.last() as int].weight
    }
}

/// The first member of block `b` would not have fitted in the block before
/// it.
pub open spec fn cut_late(
    pool: Seq<TxView>,
    max_block_weight: nat,
    blocks: Seq<Seq<usize>>,
    b: int,
) -> bool {
    block_weight(pool, blocks[b - 1]) + pool[blocks[b][0] as int].weight > max_block_weight
}

/// The blocks are cut as late as the weight budget allows: no block is
/// empty; a block stays within the budget unless it has a single member;
/// and the first member of a block would not have fitted in the block
/// before it.
pub open spec fn packed(pool: Seq<TxView>, max_block_weight: nat, blocks: Seq<Seq<usize>>) -> bool {
    &&& forall|b: int| 0 <= b < blocks.len() ==> (#[trigger] blocks[b]).len() > 0
    &&& forall|b: int|
        0 <= b < blocks.len() ==> block_weight(pool, #[trigger] blocks[b]) <= max_block_weight
            || blocks[b].len() == 1
    &&& forall|b: int| 0 < b < blocks.len() ==> #[trigger] cut_late(pool, max_block_weight, blocks, b)
}

/// `blocks` is the block sequence of the pool under the weight budget.
pub open spec fn is_assembly(
    pool: Seq<TxView>,
    max_block_weight: nat,
    blocks: Seq<Seq<usize>>,
) -> bool {
    &&& greedy(pool, concat(blocks))
    &&& complete(pool, concat(blocks))
    &&& packed(pool, max_block_weight, blocks)
}

/// Of two transactions at most one outranks the other.
pub proof fn lemma_outranks_asymmetric(a: TxView, b: TxView)
    ensures
        !(outranks(a, b) && outranks(b, a)),
{
    lemma_lex_less_asymmetric(a.id, b.id);
}

/// Among transactions of positive weight, what outranks a transaction
/// outranks all that it outranks.
pub proof fn lemma_outranks_transitive(a: TxView, b: TxView, c: TxView)
    requires
        a.weight > 0,
        b.weight > 0,
        c.weight > 0,
        outranks(a, b),
        outranks(b, c),
    ensures
        outranks(a, c),
{
    let (fa, wa) = (a.fee as int, a.weight as int);
    let (fb, wb) = (b.fee as int, b.weight as int);
    let (fc, wc) = (c.fee as int, c.weight as int);
    assert(fa * wc >= fc * wa && ((fa * wb > fb * wa || fb * wc > fc * wb) ==> fa * wc > fc * wa))
        by (nonlinear_arith)
        requires
            fa * wb >= fb * wa,
            fb * wc >= fc * wb,
            wa > 0,
            wb > 0,
            wc > 0,
            fa >= 0,
            fb >= 0,
            fc >= 0,
    {
        assert((fa * wb) * wc >= (fb * wa) * wc);
        assert((fb * wc) * wa >= (fc * wb) * wa);
        assert((fa * wb) * wc == (fa * wc) * wb);
        assert((fb * wa) * wc == (fb * wc) * wa);
        assert((fc * wb) * wa == (fc * wa) * wb);
        assert((fa * wc) * wb >= (fc * wa) * wb);
        if fa * wb > fb * wa {
            assert((fa * wb) * wc > (fb * wa) * wc);
        }
        if fb * wc > fc * wb {
            assert((fb * wc) * wa > (fc * wb) * wa);
        }
    }
    if fa * wb == fb * wa && fb * wc == fc * wb {
        lemma_lex_less_transitive(a.id, b.id, c.id);
    }
}

/// Of two transactions with different identifiers one outranks the other.
pub proof fn lemma_outranks_total(a: TxView, b: TxView)
    requires
        a.id != b.id,
    ensures
        outranks(a, b) || outranks(b, a),
{
    lemma_lex_less_total(a.id, b.id);
}

impl Transaction {
    /// Whether this transaction is selected before `other` where both are
    /// ready.
    pub fn outranks(&self, other: &Transaction) -> (r: bool)
        ensures
            r == outranks(self@, other@),
    {
        assert(self.fee * other.weight <= 0xffff_ffff_ffff_ffff * 0xffff_ffff) by (nonlinear_arith)
            requires
                self.fee <= 0xffff_ffff_ffff_ffff,
                other.weight <= 0xffff_ffff,
        ;
        assert(other.fee * self.weight <= 0xffff_ffff_ffff_ffff * 0xffff_ffff) by (nonlinear_arith)
            requires
                other.fee <= 0xffff_ffff_ffff_ffff,
                self.weight <= 0xffff_ffff,
        ;
        let left: u128 = (self.fee as u128) * (other.weight as u128);
        let right: u128 = (other.fee as u128) * (self.weight as u128);
        if left != right {
            left > right
        } else {
            let mine = chars_of(self.txid.as_str());
            let theirs = chars_of(other.txid.as_str());
            is_lex_less(&mine, &theirs)
        }
    }
}

} // verus!
