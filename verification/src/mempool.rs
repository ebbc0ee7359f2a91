//! The mempool of one run: the lines of candidate transactions go in, the
//! block sequence comes out.

use crate::assembler::rows;
use crate::error::AssemblyError;
use crate::graph::admissible;
use crate::laws::lemma_members_are_of_pool;
use crate::pool::{rejection, views, Pool};
use crate::schedule::is_assembly;
use crate::transaction::{parse_record, texts, ParseField, Transaction, TxView};
use vstd::prelude::*;

verus! {

/// The weight budget of a block unless another is set.
pub const MAX_BLOCK_TX_WEIGHT: u32 = 4_000_000;

/// The candidate transactions of one source, the options of the run, and,
/// after loading, the block sequence.
#[derive(Debug)]
pub struct Mempool {
    /// The records in the order of the input.
    pub txs: Vec<Transaction>,
    /// Where the lines come from.
    pub uri: String,
    /// The blocks, each with its records in the order of selection.
    pub blocks: Vec<Vec<Transaction>>,
    /// The blocks again, each record named by its place in `txs`.
    pub layout: Vec<Vec<usize>>,
    /// The weight budget of a block.
    pub max_block_weight: u32,
    /// Whether a parent that no record has counts as confirmed.
    pub ignore_unknown_parents: bool,
}

/// What the lines denote together: the records of all of them, or the
/// failure of the first line that denotes none.
pub open spec fn parse_all(lines: Seq<Seq<char>>) -> Result<Seq<TxView>, ParseField>
    decreases lines.len(),
{
    if lines.len() == 0 {
        Ok(Seq::empty())
    } else {
        match parse_all(lines.drop_last()) {
            Err(field) => Err(field),
            Ok(pool) => match parse_record(lines.last()) {
                Err(field) => Err(field),
                Ok(t) => Ok(pool.push(t)),
            },
        }
    }
}

/// The lines fail as soon as a beginning of them fails.
pub proof fn lemma_parse_all_prefix(lines: Seq<Seq<char>>, k: int)
    requires
        0 <= k <= lines.len(),
        parse_all(lines.take(k)) is Err,
    ensures
        parse_all(lines) == parse_all(lines.take(k)),
    decreases lines.len(),
{
    if k == lines.len() {
        assert(lines.take(k) =~= lines);
    } else {
        assert(lines.drop_last().take(k) =~= lines.take(k));
        lemma_parse_all_prefix(lines.drop_last(), k);
    }
}

/// The records of each block.
pub open spec fn block_views(blocks: Seq<Vec<Transaction>>) -> Seq<Seq<TxView>> {
    Seq::new(blocks.len(), |b: int| views(blocks[b]@))
}

/// The records that a layout names.
pub open spec fn records_of(pool: Seq<TxView>, layout: Seq<Seq<usize>>) -> Seq<Seq<TxView>> {
    Seq::new(layout.len(), |b: int| Seq::new(layout[b].len(), |k: int| pool[layout[b][k] as int]))
}

impl Mempool {
    /// What loading `lines` into `self` gives. A line that denotes no
    /// record fails the run with its field. Records that are not admissible
    /// fail it with the reason. Else the result holds the records, their
    /// block sequence under the weight budget, and the options unchanged.
    pub open spec fn load_outcome(self, lines: Seq<Seq<char>>, r: Result<Mempool, AssemblyError>) -> bool {
        match parse_all(lines) {
            Err(field) => r == Err::<Mempool, AssemblyError>(AssemblyError::ParseError { field }),
            Ok(pool) => match r {
                Ok(loaded) => {
                    &&& admissible(pool, self.ignore_unknown_parents)
                    &&& views(loaded.txs@) == pool
                    &&& is_assembly(pool, self.max_block_weight as nat, rows(loaded.layout@))
                    &&& block_views(loaded.blocks@) == records_of(pool, rows(loaded.layout@))
                    &&& loaded.uri@ == self.uri@
                    &&& loaded.max_block_weight == self.max_block_weight
                    &&& loaded.ignore_unknown_parents == self.ignore_unknown_parents
                },
                Err(e) => rejection(pool, self.ignore_unknown_parents, e),
            },
        }
    }

    /// An empty mempool for the source `uri`, with the default options.
    pub fn new(uri: &str) -> (m: Mempool)
        ensures
            m.uri@ == uri@,
            m.txs@.len() == 0,
            m.blocks@.len() == 0,
            m.layout@.len() == 0,
            m.max_block_weight == MAX_BLOCK_TX_WEIGHT,
            !m.ignore_unknown_parents,
    {
        Mempool {
            txs: Vec::new(),
            uri: uri.to_owned(),
            blocks: Vec::new(),
            layout: Vec::new(),
            max_block_weight: MAX_BLOCK_TX_WEIGHT,
            ignore_unknown_parents: false,
        }
    }

    /// The same mempool with the weight budget `max_block_weight`.
    pub fn with_max_block_weight(self, max_block_weight: u32) -> (m: Mempool)
        ensures
            m == (Mempool { max_block_weight, ..self }),
    {
        Mempool { max_block_weight, ..self }
    }

    /// The same mempool, with unknown parents ignored or not.
    pub fn with_ignore_unknown_parents(self, ignore_unknown_parents: bool) -> (m: Mempool)
        ensures
            m == (Mempool { ignore_unknown_parents, ..self }),
    {
        Mempool { ignore_unknown_parents, ..self }
    }

    /// Decodes the lines, checks the records as a whole and cuts them into
    /// blocks.
    pub fn load_mempool(self, lines: &Vec<String>) -> (r: Result<Mempool, AssemblyError>)
        ensures
            self.load_outcome(texts(lines@), r),
    {
        let ghost all = texts(lines@);
        let mut records: Vec<Transaction> = Vec::new();
        let mut k: usize = 0;
        assert(all.take(0) =~= Seq::<Seq<char>>::empty());
        assert(views(records@) =~= Seq::<TxView>::empty());
        while k < lines.len()
            invariant
                k <= lines.len(),
                all == texts(lines@),
                parse_all(all.take(k as int)) == Ok::<Seq<TxView>, ParseField>(views(records@)),
            decreases lines.len() - k,
        {
            let ghost before = views(records@);
            proof {
                assert(all.take(k + 1).drop_last() =~= all.take(k as int));
                assert(all.take(k + 1).last() == lines[k as int]@);
            }
            match Transaction::parser(lines[k].as_str()) {
                Err(field) => {
                    proof {
                        lemma_parse_all_prefix(all, k + 1);
                    }
                    return Err(AssemblyError::ParseError { field });
                },
                Ok(t) => {
                    records.push(t);
                    assert(views(records@) =~= before.push(t@));
                },
            }
            k = k + 1;
        }
        assert(all.take(lines.len() as int) =~= all);
        let pool = match Pool::build(records, self.ignore_unknown_parents) {
            Err(e) => {
                return Err(e);
            },
            Ok(pool) => pool,
        };
        let layout = pool.assemble(self.max_block_weight);
        proof {
            assert forall|b: int, k: int| 0 <= b < layout.len() && 0 <= k < layout[b]@.len() implies (
            #[trigger] layout[b]@[k]) < pool@.len() by {
                lemma_members_are_of_pool(
                    pool@,
                    self.max_block_weight as nat,
                    rows(layout@),
                    b,
                    k,
                );
            }
        }
        let blocks = pool.records_in(&layout);
        Ok(
            Mempool {
                txs: pool.into_records(),
                uri: self.uri,
                blocks,
                layout,
                max_block_weight: self.max_block_weight,
                ignore_unknown_parents: self.ignore_unknown_parents,
            },
        )
    }
}

impl Pool {
    /// The records of the pool, in the order of the input.
    pub fn into_records(self) -> (records: Vec<Transaction>)
        ensures
            views(records@) == self@,
    {
        self.records
    }

    /// Copies of the records that a layout names.
    pub fn records_in(&self, layout: &Vec<Vec<usize>>) -> (blocks: Vec<Vec<Transaction>>)
        requires
            forall|b: int, k: int|
                0 <= b < layout.len() && 0 <= k < layout[b]@.len() ==> (#[trigger] layout[b]@[k])
                    < self@.len(),
        ensures
            block_views(blocks@) == records_of(self@, rows(layout@)),
    {
        let mut blocks: Vec<Vec<Transaction>> = Vec::new();
        let mut b: usize = 0;
        while b < layout.len()
            invariant
                b <= layout.len(),
                blocks.len() == b,
                forall|c: int, k: int|
                    0 <= c < layout.len() && 0 <= k < layout[c]@.len() ==> (#[trigger] layout[c]@[k])
                        < self@.len(),
                forall|c: int|
                    0 <= c < b ==> views((#[trigger] blocks[c])@) == records_of(self@, rows(layout@))[c],
            decreases layout.len() - b,
        {
            let mut block: Vec<Transaction> = Vec::new();
            let mut k: usize = 0;
            while k < layout[b].len()
                invariant
                    b < layout.len(),
                    k <= layout[b as int]@.len(),
                    block.len() == k,
                    forall|j: int|
                        0 <= j < layout[b as int]@.len() ==> (#[trigger] layout[b as int]@[j]) < self@.len(),
                    forall|j: int|
                        0 <= j < k ==> (#[trigger] block[j])@ == self@[layout[b as int]@[j] as int],
                decreases layout[b as int]@.len() - k,
            {
                block.push(self.records[layout[b][k]].duplicate());
                k = k + 1;
            }
            assert(views(block@) =~= records_of(self@, rows(layout@))[b as int]);
            blocks.push(block);
            b = b + 1;
        }
        assert(block_views(blocks@) =~= records_of(self@, rows(layout@)));
        blocks
    }
}

} // verus!
