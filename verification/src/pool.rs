//! The candidate pool: the records of one run, checked as a whole.

use crate::cycle::find_cycle;
use crate::error::AssemblyError;
use crate::graph::{
    admissible, dangling, depends, duplicated, first_dangling, first_duplicate, has_cycle,
    has_dangling, has_duplicate, has_zero_weight, is_ranking, known,
    lemma_ranking_excludes_cycles, on_cycle,
};
use crate::ready::within;
use crate::tally::{holds, tally};
use crate::text::chars_of;
use crate::transaction::{texts, ParseField, Transaction, TxView};
use vstd::prelude::*;

verus! {

/// The views of a list of records.
pub open spec fn views(records: Seq<Transaction>) -> Seq<TxView> {
    Seq::new(records.len(), |i: int| records[i]@)
}

/// `links` holds, for each record, the indices of the parents that the pool
/// holds: one entry for each place in the record's parent list that names a
/// record of the pool.
pub open spec fn linked(pool: Seq<TxView>, links: Seq<Vec<usize>>) -> bool {
    &&& links.len() == pool.len()
    &&& forall|i: int, k: int|
        0 <= i < links.len() && 0 <= k < links[i]@.len() ==> depends(
            pool,
            i,
            #[trigger] links[i]@[k] as int,
        )
    &&& forall|i: int, j: int| #[trigger] depends(pool, i, j) ==> holds(links[i]@, j)
}

/// `children` holds, for each record, the records that name it among their
/// parents: one entry for each place of a parent list that names it.
pub open spec fn indexed(links: Seq<Vec<usize>>, children: Seq<Vec<usize>>) -> bool {
    &&& children.len() == links.len()
    &&& forall|j: int| 0 <= j < children.len() ==> within(#[trigger] children[j]@, links.len())
    &&& forall|j: usize, c: usize|
        j < links.len() && c < links.len() ==> #[trigger] tally(children[j as int]@, c) == tally(
            links[c as int]@,
            j,
        )
}

/// A checked pool of candidate transactions, with its readiness index: the
/// parents and the children of each record, by their places in the pool.
pub struct Pool {
    pub(crate) records: Vec<Transaction>,
    pub(crate) ids: Vec<Vec<char>>,
    pub(crate) links: Vec<Vec<usize>>,
    pub(crate) children: Vec<Vec<usize>>,
    pub(crate) rank: Ghost<Seq<nat>>,
}

impl View for Pool {
    type V = Seq<TxView>;

    open(crate) spec fn view(&self) -> Seq<TxView> {
        views(self.records@)
    }
}

/// No two records have the same identifier.
pub open spec fn distinct_ids(pool: Seq<TxView>) -> bool {
    forall|i: int, j: int| 0 <= i < j < pool.len() ==> (#[trigger] pool[i]).id != (#[trigger] pool[j]).id
}

/// The identifiers are distinct just where none is duplicated.
pub proof fn lemma_distinct_ids(pool: Seq<TxView>)
    ensures
        distinct_ids(pool) <==> !has_duplicate(pool),
{
    if !distinct_ids(pool) {
        let (i, j) = choose|i: int, j: int|
            0 <= i < j < pool.len() && (#[trigger] pool[i]).id == (#[trigger] pool[j]).id;
        assert(duplicated(pool, pool[i].id));
    }
}

impl Pool {
    /// The pool is what `build` makes: its records are admissible and its
    /// index of parents agrees with them.
    pub open(crate) spec fn wf(&self) -> bool {
        &&& self.ids.len() == self@.len()
        &&& forall|i: int| 0 <= i < self.ids.len() ==> (#[trigger] self.ids[i])@ == self@[i].id
        &&& linked(self@, self.links@)
        &&& indexed(self.links@, self.children@)
        &&& is_ranking(self@, self.rank@)
        &&& !has_zero_weight(self@)
        &&& distinct_ids(self@)
    }

    /// The number of records.
    pub fn len(&self) -> (n: usize)
        ensures
            n == self@.len(),
    {
        self.records.len()
    }

    /// The place of the record with the identifier `id`, if the pool holds
    /// one.
    pub fn find(&self, id: &str) -> (r: Option<usize>)
        requires
            self.wf(),
        ensures
            match r {
                Some(j) => j < self@.len() && self@[j as int].id == id@,
                None => !known(self@, id@),
            },
    {
        let key = id.to_owned();
        index_of_id(&self.records, &key, self.records.len())
    }

    /// The record at place `i` of the input.
    pub fn get(&self, i: usize) -> (t: &Transaction)
        requires
            i < self@.len(),
        ensures
            t@ == self@[i as int],
    {
        &self.records[i]
    }
}

/// The index of the first record of weight zero.
fn find_zero_weight(records: &Vec<Transaction>) -> (r: Option<usize>)
    ensures
        r is None <==> !has_zero_weight(views(records@)),
{
    let mut i: usize = 0;
    while i < records.len()
        invariant
            i <= records.len(),
            forall|j: int| 0 <= j < i ==> (#[trigger] views(records@)[j]).weight != 0,
        decreases records.len() - i,
    {
        if records[i].weight == 0 {
            assert(views(records@)[i as int].weight == 0);
            return Some(i);
        }
        i = i + 1;
    }
    None
}

/// The index of the first record with the identifier `id`.
fn index_of_id(records: &Vec<Transaction>, id: &String, below: usize) -> (r: Option<usize>)
    requires
        below <= records.len(),
    ensures
        match r {
            Some(j) => j < below && views(records@)[j as int].id == id@,
            None => forall|j: int| 0 <= j < below ==> (#[trigger] views(records@)[j]).id != id@,
        },
{
    let mut j: usize = 0;
    while j < below
        invariant
            j <= below <= records.len(),
            forall|m: int| 0 <= m < j ==> (#[trigger] views(records@)[m]).id != id@,
        decreases below - j,
    {
        if records[j].txid == *id {
            return Some(j);
        }
        j = j + 1;
    }
    None
}

/// The index of the first record whose identifier an earlier record has
/// too.
fn find_duplicate(records: &Vec<Transaction>) -> (r: Option<usize>)
    ensures
        match r {
            Some(j) => first_duplicate(views(records@), j as int),
            None => distinct_ids(views(records@)),
        },
{
    let ghost pool = views(records@);
    let mut j: usize = 0;
    while j < records.len()
        invariant
            j <= records.len(),
            pool == views(records@),
            forall|a: int, b: int| 0 <= a < b < j ==> (#[trigger] pool[a]).id != (#[trigger] pool[b]).id,
        decreases records.len() - j,
    {
        match index_of_id(records, &records[j].txid, j) {
            Some(i) => {
                assert(pool[i as int].id == pool[j as int].id);
                return Some(j);
            },
            None => {},
        }
        j = j + 1;
    }
    None
}

/// The indices of the parents of record `i` that the pool holds, or the
/// place in its parent list of one that the pool does not hold.
fn resolve_parents(records: &Vec<Transaction>, i: usize, ignore_unknown_parents: bool) -> (r: Result<
    Vec<usize>,
    usize,
>)
    requires
        i < records.len(),
        distinct_ids(views(records@)),
    ensures
        match r {
            Ok(row) => {
                &&& forall|k: int|
                    0 <= k < row@.len() ==> depends(views(records@), i as int, #[trigger] row@[k] as int)
                &&& forall|j: int| #[trigger]
                    depends(views(records@), i as int, j) ==> holds(row@, j)
                &&& !ignore_unknown_parents ==> forall|k: int|
                    0 <= k < views(records@)[i as int].parents.len() ==> known(
                        views(records@),
                        #[trigger] views(records@)[i as int].parents[k],
                    )
            },
            Err(k) => {
                &&& !ignore_unknown_parents
                &&& k < views(records@)[i as int].parents.len()
                &&& !known(views(records@), views(records@)[i as int].parents[k as int])
                &&& forall|m: int|
                    0 <= m < k ==> known(
                        views(records@),
                        #[trigger] views(records@)[i as int].parents[m],
                    )
            },
        },
{
    let ghost pool = views(records@);
    let ghost parents = pool[i as int].parents;
    let mut row: Vec<usize> = Vec::new();
    let mut k: usize = 0;
    while k < records[i].parent_txids.len()
        invariant
            i < records.len(),
            pool == views(records@),
            distinct_ids(pool),
            parents == pool[i as int].parents,
            parents == texts(records[i as int].parent_txids@),
            k <= parents.len(),
            forall|m: int| 0 <= m < row@.len() ==> depends(pool, i as int, #[trigger] row@[m] as int),
            forall|j: int, m: int|
                0 <= j < pool.len() && 0 <= m < k && (#[trigger] parents[m]) == (
                #[trigger] pool[j]).id ==> holds(row@, j),
            !ignore_unknown_parents ==> forall|m: int|
                0 <= m < k ==> known(pool, #[trigger] parents[m]),
        decreases parents.len() - k,
    {
        let ghost before = row@;
        match index_of_id(records, &records[i].parent_txids[k], records.len()) {
            Some(j) => {
                row.push(j);
                proof {
                    assert(parents[k as int] == pool[j as int].id);
                    assert(known(pool, parents[k as int]));
                    assert(depends(pool, i as int, j as int));
                    assert(row@[before.len() as int] == j);
                    assert forall|j2: int, m: int|
                        0 <= j2 < pool.len() && 0 <= m < k + 1 && (#[trigger] parents[m]) == (
                        #[trigger] pool[j2]).id implies holds(row@, j2) by {
                        if m < k {
                            assert(holds(before, j2));
                            let at = choose|at: int| 0 <= at < before.len() && before[at] as int == j2;
                            assert(row@[at] as int == j2);
                        } else {
                            assert(pool[j2].id == pool[j as int].id);
                            assert(j2 == j);
                            assert(row@[before.len() as int] == j);
                        }
                    }
                }
            },
            None => {
                proof {
                    assert(!known(pool, parents[k as int]));
                }
                if !ignore_unknown_parents {
                    return Err(k);
                }
            },
        }
        k = k + 1;
    }
    proof {
        assert forall|j: int| #[trigger] depends(pool, i as int, j) implies holds(row@, j) by {
            let m = choose|m: int| 0 <= m < parents.len() && parents[m] == pool[j].id;
            assert(parents[m] == pool[j].id);
        }
    }
    Ok(row)
}

/// The part of the parent links of record `d` that is indexed when the
/// links of the records before `c` and the first `k` links of record `c`
/// are.
pub open spec fn indexed_part(links: Seq<Vec<usize>>, c: int, k: int, d: int) -> Seq<usize> {
    if d < c {
        links[d]@
    } else if d == c {
        links[d]@.take(k)
    } else {
        Seq::empty()
    }
}

/// The children of each record: the index of the parent links, turned
/// round.
fn index_children(links: &Vec<Vec<usize>>, Ghost(pool): Ghost<Seq<TxView>>) -> (children: Vec<
    Vec<usize>,
>)
    requires
        linked(pool, links@),
    ensures
        indexed(links@, children@),
{
    let n = links.len();
    let mut children: Vec<Vec<usize>> = Vec::new();
    let mut j: usize = 0;
    while j < n
        invariant
            j <= n,
            children.len() == j,
            forall|i: int| 0 <= i < j ==> (#[trigger] children[i])@.len() == 0,
        decreases n - j,
    {
        children.push(Vec::new());
        j = j + 1;
    }
    let mut c: usize = 0;
    while c < n
        invariant
            c <= n,
            n == links.len(),
            linked(pool, links@),
            children.len() == n,
            forall|i: int| 0 <= i < n ==> within(#[trigger] children[i]@, n as nat),
            forall|i: usize, d: usize|
                i < n && d < n ==> #[trigger] tally(children[i as int]@, d) == tally(
                    indexed_part(links@, c as int, 0, d as int),
                    i,
                ),
        decreases n - c,
    {
        let mut k: usize = 0;
        while k < links[c].len()
            invariant
                c < n,
                n == links.len(),
                linked(pool, links@),
                k <= links[c as int]@.len(),
                children.len() == n,
                forall|i: int| 0 <= i < n ==> within(#[trigger] children[i]@, n as nat),
                forall|i: usize, d: usize|
                    i < n && d < n ==> #[trigger] tally(children[i as int]@, d) == tally(
                        indexed_part(links@, c as int, k as int, d as int),
                        i,
                    ),
            decreases links[c as int]@.len() - k,
        {
            let parent = links[c][k];
            assert(depends(pool, c as int, links[c as int]@[k as int] as int));
            let ghost before = children@;
            children[parent].push(c);
            proof {
                assert(children[parent as int]@.drop_last() =~= before[parent as int]@);
                assert(links[c as int]@.take(k + 1).drop_last() =~= links[c as int]@.take(k as int));
                assert forall|i: usize, d: usize| i < n && d < n implies #[trigger] tally(
                    children[i as int]@,
                    d,
                ) == tally(indexed_part(links@, c as int, k + 1, d as int), i) by {
                    assert(tally(before[i as int]@, d) == tally(
                        indexed_part(links@, c as int, k as int, d as int),
                        i,
                    ));
                    if i != parent {
                        assert(children[i as int] == before[i as int]);
                    }
                }
                assert forall|i: int| 0 <= i < n implies within(#[trigger] children[i]@, n as nat) by {
                    if i != parent {
                        assert(children[i] == before[i]);
                    } else {
                        assert(within(before[i]@, n as nat));
                        assert forall|q: int| 0 <= q < children[i]@.len() implies (
                        #[trigger] children[i]@[q]) < n by {
                            if q < before[i]@.len() {
                                assert(children[i]@[q] == before[i]@[q]);
                            }
                        }
                    }
                }
            }
            k = k + 1;
        }
        proof {
            assert forall|i: usize, d: usize| i < n && d < n implies #[trigger] tally(
                children[i as int]@,
                d,
            ) == tally(indexed_part(links@, c + 1, 0, d as int), i) by {
                assert(tally(children[i as int]@, d) == tally(
                    indexed_part(links@, c as int, links[c as int]@.len() as int, d as int),
                    i,
                ));
                if d == c {
                    assert(links[c as int]@.take(links[c as int]@.len() as int) =~= links[c as int]@);
                } else if d == c + 1 {
                    assert(links[d as int]@.take(0) =~= Seq::<usize>::empty());
                }
            }
        }
        c = c + 1;
    }
    children
}

/// Why the records `pool` are refused. The first of these failures that
/// applies is the one reported: a weight of zero; an identifier that occurs
/// twice, reported for the first record that repeats one; a parent that the
/// pool does not hold (unless such parents are ignored), reported for the
/// first place that names one; a record that depends on itself.
pub open spec fn rejection(pool: Seq<TxView>, ignore_unknown_parents: bool, e: AssemblyError) -> bool {
    match e {
        AssemblyError::ParseError { field } => {
            &&& field == ParseField::InvalidWeight
            &&& has_zero_weight(pool)
        },
        AssemblyError::DuplicateId { id } => {
            &&& !has_zero_weight(pool)
            &&& exists|j: int| #[trigger] first_duplicate(pool, j) && pool[j].id == id@
        },
        AssemblyError::DanglingParent { id, missing_parent } => {
            &&& !has_zero_weight(pool)
            &&& !has_duplicate(pool)
            &&& !ignore_unknown_parents
            &&& exists|i: int, k: int| #[trigger]
                first_dangling(pool, i, k) && pool[i].id == id@ && pool[i].parents[k]
                    == missing_parent@
        },
        AssemblyError::CyclicDependency { offending_id } => {
            &&& !has_zero_weight(pool)
            &&& !has_duplicate(pool)
            &&& ignore_unknown_parents || !has_dangling(pool)
            &&& exists|v: int|
                0 <= v < pool.len() && (#[trigger] pool[v]).id == offending_id@ && on_cycle(pool, v)
        },
        AssemblyError::UnresolvedDependencyCycle => false,
    }
}

/// What `build` owes for the records `pool`: a pool of just these records
/// where they are admissible, and else the reason why they are refused.
pub open spec fn build_outcome(
    pool: Seq<TxView>,
    ignore_unknown_parents: bool,
    r: Result<Pool, AssemblyError>,
) -> bool {
    match r {
        Ok(built) => built.wf() && built@ == pool && admissible(pool, ignore_unknown_parents),
        Err(e) => rejection(pool, ignore_unknown_parents, e),
    }
}

/// Records that are refused are not admissible, for the reason that the
/// failure names.
pub proof fn lemma_rejection_excludes_admission(
    pool: Seq<TxView>,
    ignore_unknown_parents: bool,
    e: AssemblyError,
)
    requires
        rejection(pool, ignore_unknown_parents, e),
    ensures
        !admissible(pool, ignore_unknown_parents),
        e is ParseError ==> has_zero_weight(pool),
        e is DuplicateId ==> has_duplicate(pool),
        e is DanglingParent ==> has_dangling(pool) && !ignore_unknown_parents,
        e is CyclicDependency ==> has_cycle(pool),
{
    match e {
        AssemblyError::DuplicateId { id } => {
            let j = choose|j: int| #[trigger] first_duplicate(pool, j) && pool[j].id == id@;
            let i = choose|i: int| 0 <= i < j && (#[trigger] pool[i]).id == pool[j].id;
            assert(duplicated(pool, id@));
        },
        AssemblyError::DanglingParent { id, missing_parent } => {
            let (i, k) = choose|i: int, k: int| #[trigger]
                first_dangling(pool, i, k) && pool[i].id == id@ && pool[i].parents[k]
                    == missing_parent@;
            assert(pool[i].parents.contains(missing_parent@));
            assert(dangling(pool, id@, missing_parent@));
        },
        AssemblyError::CyclicDependency { offending_id } => {
            let v = choose|v: int|
                0 <= v < pool.len() && (#[trigger] pool[v]).id == offending_id@ && on_cycle(pool, v);
            assert(on_cycle(pool, v));
        },
        _ => {},
    }
}

impl Pool {
    /// Checks the records of one run as a whole and indexes their parents.
    pub fn build(records: Vec<Transaction>, ignore_unknown_parents: bool) -> (r: Result<
        Pool,
        AssemblyError,
    >)
        ensures
            build_outcome(views(records@), ignore_unknown_parents, r),
    {
        let ghost pool = views(records@);
        if find_zero_weight(&records).is_some() {
            return Err(AssemblyError::ParseError { field: ParseField::InvalidWeight });
        }
        match find_duplicate(&records) {
            Some(j) => {
                let id = records[j].txid.clone();
                return Err(AssemblyError::DuplicateId { id });
            },
            None => {},
        }
        proof {
            lemma_distinct_ids(pool);
        }
        let n = records.len();
        let mut links: Vec<Vec<usize>> = Vec::new();
        let mut ids: Vec<Vec<char>> = Vec::new();
        let mut i: usize = 0;
        while i < n
            invariant
                i <= n,
                n == records.len(),
                pool == views(records@),
                distinct_ids(pool),
                !has_zero_weight(pool),
                !has_duplicate(pool),
                links.len() == i,
                ids.len() == i,
                forall|a: int| 0 <= a < i ==> (#[trigger] ids[a])@ == pool[a].id,
                forall|a: int, k: int|
                    0 <= a < i && 0 <= k < links[a]@.len() ==> depends(
                        pool,
                        a,
                        #[trigger] links[a]@[k] as int,
                    ),
                forall|a: int, j: int|
                    0 <= a < i && #[trigger] depends(pool, a, j) ==> holds(links[a]@, j),
                !ignore_unknown_parents ==> forall|a: int, k: int|
                    0 <= a < i && 0 <= k < pool[a].parents.len() ==> known(
                        pool,
                        #[trigger] pool[a].parents[k],
                    ),
            decreases n - i,
        {
            match resolve_parents(&records, i, ignore_unknown_parents) {
                Err(k) => {
                    let id = records[i].txid.clone();
                    let missing_parent = records[i].parent_txids[k].clone();
                    proof {
                        assert(pool[i as int].parents[k as int] == missing_parent@);
                        assert(pool[i as int].id == id@);
                        assert(first_dangling(pool, i as int, k as int));
                    }
                    return Err(AssemblyError::DanglingParent { id, missing_parent });
                },
                Ok(row) => {
                    links.push(row);
                },
            }
            ids.push(chars_of(records[i].txid.as_str()));
            i = i + 1;
        }
        proof {
            assert(linked(pool, links@));
            if !ignore_unknown_parents {
                assert forall|id: Seq<char>, parent: Seq<char>| !dangling(pool, id, parent) by {
                    if dangling(pool, id, parent) {
                        let a = choose|a: int|
                            0 <= a < pool.len() && (#[trigger] pool[a]).id == id
                                && pool[a].parents.contains(parent) && !known(pool, parent);
                        let k = choose|k: int|
                            0 <= k < pool[a].parents.len() && pool[a].parents[k] == parent;
                        assert(known(pool, pool[a].parents[k]));
                    }
                }
            }
        }
        let found = find_cycle(&links, Ghost(pool));
        match found.0 {
            Some(c) => {
                let offending_id = records[c].txid.clone();
                proof {
                    assert(pool[c as int].id == offending_id@);
                }
                Err(AssemblyError::CyclicDependency { offending_id })
            },
            None => {
                proof {
                    lemma_ranking_excludes_cycles(pool, found.1@);
                }
                let children = index_children(&links, Ghost(pool));
                Ok(Pool { records, ids, links, children, rank: found.1 })
            },
        }
    }
}

} // verus!
