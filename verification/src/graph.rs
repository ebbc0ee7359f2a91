//! The dependency relation of a candidate pool: known identifiers, chains,
//! cycles and rankings.

use crate::transaction::TxView;
use vstd::prelude::*;

verus! {

/// Some record of the pool has the identifier `id`.
pub open spec fn known(pool: Seq<TxView>, id: Seq<char>) -> bool {
    exists|j: int| 0 <= j < pool.len() && (#[trigger] pool[j]).id == id
}

/// Record `i` names record `j` among its parents.
pub open spec fn depends(pool: Seq<TxView>, i: int, j: int) -> bool {
    &&& 0 <= i < pool.len()
    &&& 0 <= j < pool.len()
    &&& pool[i].parents.contains(pool[j].id)
}

/// Each record of `path` names the next one among its parents.
pub open spec fn is_chain(pool: Seq<TxView>, path: Seq<int>) -> bool {
    forall|k: int| 0 <= k < path.len() - 1 ==> depends(pool, #[trigger] path[k], path[k + 1])
}

/// Record `v` depends on itself, directly or through other records.
pub open spec fn on_cycle(pool: Seq<TxView>, v: int) -> bool {
    exists|path: Seq<int>|
        path.len() >= 2 && path[0] == v && path.last() == v && #[trigger] is_chain(pool, path)
}

/// Some record depends on itself.
pub open spec fn has_cycle(pool: Seq<TxView>) -> bool {
    exists|v: int| on_cycle(pool, v)
}

/// Some record has weight zero.
pub open spec fn has_zero_weight(pool: Seq<TxView>) -> bool {
    exists|i: int| 0 <= i < pool.len() && (#[trigger] pool[i]).weight == 0
}

/// Two records of the pool have the identifier `id`.
pub open spec fn duplicated(pool: Seq<TxView>, id: Seq<char>) -> bool {
    exists|i: int, j: int|
        0 <= i < j < pool.len() && (#[trigger] pool[i]).id == id && (#[trigger] pool[j]).id == id
}

/// Record `j` is the first, in the order of the input, whose identifier an
/// earlier record has too.
pub open spec fn first_duplicate(pool: Seq<TxView>, j: int) -> bool {
    &&& 0 <= j < pool.len()
    &&& exists|i: int| 0 <= i < j && (#[trigger] pool[i]).id == pool[j].id
    &&& forall|a: int, b: int|
        0 <= a < b < j ==> (#[trigger] pool[a]).id != (#[trigger] pool[b]).id
}

/// Some identifier occurs twice.
pub open spec fn has_duplicate(pool: Seq<TxView>) -> bool {
    exists|id: Seq<char>| duplicated(pool, id)
}

/// The record with identifier `id` names `parent`, which no record of the
/// pool has.
pub open spec fn dangling(pool: Seq<TxView>, id: Seq<char>, parent: Seq<char>) -> bool {
    exists|i: int|
        0 <= i < pool.len() && (#[trigger] pool[i]).id == id && pool[i].parents.contains(parent)
            && !known(pool, parent)
}

/// Place `k` of the parent list of record `i` is the first, in the order of
/// the input, that names a parent that no record of the pool has.
pub open spec fn first_dangling(pool: Seq<TxView>, i: int, k: int) -> bool {
    &&& 0 <= i < pool.len()
    &&& 0 <= k < pool[i].parents.len()
    &&& !known(pool, pool[i].parents[k])
    &&& forall|m: int| 0 <= m < k ==> known(pool, #[trigger] pool[i].parents[m])
    &&& forall|a: int, m: int|
        0 <= a < i && 0 <= m < pool[a].parents.len() ==> known(pool, #[trigger] pool[a].parents[m])
}

/// Some record names a parent that no record of the pool has.
pub open spec fn has_dangling(pool: Seq<TxView>) -> bool {
    exists|id: Seq<char>, parent: Seq<char>| dangling(pool, id, parent)
}

/// A pool that can be assembled: every weight is positive, no identifier
/// occurs twice, every parent is a record of the pool unless unknown parents
/// are ignored, and no record depends on itself.
pub open spec fn admissible(pool: Seq<TxView>, ignore_unknown_parents: bool) -> bool {
    &&& !has_zero_weight(pool)
    &&& !has_duplicate(pool)
    &&& ignore_unknown_parents || !has_dangling(pool)
    &&& !has_cycle(pool)
}

/// `rank` gives every record a number above those of its parents.
pub open spec fn is_ranking(pool: Seq<TxView>, rank: Seq<nat>) -> bool {
    &&& rank.len() == pool.len()
    &&& forall|i: int, j: int| #[trigger] depends(pool, i, j) ==> rank[j] < rank[i]
}

/// Along a chain the ranks fall.
proof fn lemma_chain_descends(pool: Seq<TxView>, rank: Seq<nat>, path: Seq<int>, k: int)
    requires
        is_ranking(pool, rank),
        is_chain(pool, path),
        1 <= k < path.len(),
    ensures
        rank[path[k]] < rank[path[0]],
    decreases k,
{
    assert(depends(pool, path[k - 1], path[k]));
    if k > 1 {
        lemma_chain_descends(pool, rank, path, k - 1);
    }
}

/// A pool that has a ranking has no cycle.
pub proof fn lemma_ranking_excludes_cycles(pool: Seq<TxView>, rank: Seq<nat>)
    requires
        is_ranking(pool, rank),
    ensures
        !has_cycle(pool),
{
    assert forall|v: int| !on_cycle(pool, v) by {
        if on_cycle(pool, v) {
            let path = choose|path: Seq<int>|
                path.len() >= 2 && path[0] == v && path.last() == v && #[trigger] is_chain(
                    pool,
                    path,
                );
            lemma_chain_descends(pool, rank, path, path.len() - 1);
        }
    }
}

} // verus!
