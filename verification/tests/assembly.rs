use btc_toolkit::error::AssemblyError;
use btc_toolkit::mempool::{Mempool, MAX_BLOCK_TX_WEIGHT};
use btc_toolkit::pool::Pool;
use btc_toolkit::transaction::{ParseField, Transaction};

fn tx(id: &str, fee: u64, weight: u32, parents: &[&str]) -> Transaction {
    Transaction {
        txid: id.to_string(),
        fee,
        weight,
        parent_txids: parents.iter().map(|p| p.to_string()).collect(),
    }
}

fn ids(pool: &Pool, blocks: &[Vec<usize>]) -> Vec<Vec<String>> {
    blocks
        .iter()
        .map(|b| b.iter().map(|&i| pool.get(i).txid.clone()).collect())
        .collect()
}

fn names(blocks: &[&[&str]]) -> Vec<Vec<String>> {
    blocks
        .iter()
        .map(|b| b.iter().map(|s| s.to_string()).collect())
        .collect()
}

fn lines(text: &[&str]) -> Vec<String> {
    text.iter().map(|s| s.to_string()).collect()
}

fn block_ids(m: &Mempool) -> Vec<Vec<String>> {
    m.blocks
        .iter()
        .map(|b| b.iter().map(|t| t.txid.clone()).collect())
        .collect()
}

#[test]
fn scenario_three_transactions_two_blocks() {
    let records = vec![
        tx("A", 500, 100, &[]),
        tx("B", 300, 100, &["A"]),
        tx("C", 1000, 100, &[]),
    ];
    let pool = Pool::build(records, false).unwrap();
    let blocks = pool.assemble(250);
    assert_eq!(blocks, vec![vec![2usize, 0], vec![1]]);
    assert_eq!(ids(&pool, &blocks), names(&[&["C", "A"], &["B"]]));
}

#[test]
fn scenario_from_lines() {
    let m = Mempool::new("mempool.csv")
        .with_max_block_weight(250)
        .load_mempool(&lines(&["A,500,100,", "B,300,100,A", "C,1000,100"]))
        .unwrap();
    assert_eq!(block_ids(&m), names(&[&["C", "A"], &["B"]]));
    assert_eq!(m.layout, vec![vec![2usize, 0], vec![1]]);
    assert_eq!(m.txs.len(), 3);
    assert_eq!(m.txs[1], tx("B", 300, 100, &["A"]));
    assert_eq!(m.uri, "mempool.csv");
}

#[test]
fn new_mempool_has_default_options() {
    let m = Mempool::new("mempool.csv");
    assert_eq!(m.uri, "mempool.csv");
    assert_eq!(m.max_block_weight, 4_000_000);
    assert_eq!(MAX_BLOCK_TX_WEIGHT, 4_000_000);
    assert!(!m.ignore_unknown_parents);
    assert!(m.txs.is_empty());
    assert!(m.blocks.is_empty());
}

#[test]
fn mutual_parents_are_rejected() {
    let records = vec![tx("A", 1, 1, &["B"]), tx("B", 1, 1, &["A"])];
    match Pool::build(records, false) {
        Err(AssemblyError::CyclicDependency { offending_id }) => {
            assert!(offending_id == "A" || offending_id == "B");
        }
        _ => panic!("a cycle must be rejected"),
    }
    let r = Mempool::new("x").load_mempool(&lines(&["A,1,1,B", "B,1,1,A"]));
    assert!(matches!(r, Err(AssemblyError::CyclicDependency { .. })));
}

#[test]
fn longer_cycle_behind_a_chain_is_rejected() {
    let records = vec![
        tx("root", 1, 1, &[]),
        tx("a", 1, 1, &["root", "c"]),
        tx("b", 1, 1, &["a"]),
        tx("c", 1, 1, &["b"]),
        tx("leaf", 1, 1, &["c"]),
    ];
    match Pool::build(records, false) {
        Err(AssemblyError::CyclicDependency { offending_id }) => {
            assert!(["a", "b", "c"].contains(&offending_id.as_str()));
        }
        _ => panic!("a cycle must be rejected"),
    }
}

#[test]
fn self_parent_is_a_cycle_in_a_pool() {
    let r = Pool::build(vec![tx("A", 1, 1, &["A"])], false);
    assert!(matches!(r, Err(AssemblyError::CyclicDependency { offending_id }) if offending_id == "A"));
}

#[test]
fn duplicate_id_is_rejected() {
    let records = vec![tx("A", 1, 1, &[]), tx("B", 1, 1, &[]), tx("A", 2, 2, &[])];
    assert_eq!(
        Pool::build(records, false).err(),
        Some(AssemblyError::DuplicateId { id: "A".to_string() })
    );
}

#[test]
fn dangling_parent_is_rejected_by_default() {
    let records = vec![tx("A", 1, 1, &[]), tx("B", 1, 1, &["A", "Z"])];
    assert_eq!(
        Pool::build(records, false).err(),
        Some(AssemblyError::DanglingParent {
            id: "B".to_string(),
            missing_parent: "Z".to_string()
        })
    );
}

#[test]
fn first_duplicate_and_first_dangling_are_reported() {
    let records = vec![
        tx("A", 1, 1, &[]),
        tx("B", 1, 1, &[]),
        tx("C", 1, 1, &[]),
        tx("B", 1, 1, &[]),
        tx("A", 1, 1, &[]),
    ];
    assert_eq!(
        Pool::build(records, false).err(),
        Some(AssemblyError::DuplicateId { id: "B".to_string() })
    );
    let records = vec![
        tx("A", 1, 1, &[]),
        tx("B", 1, 1, &["A", "Y", "X"]),
        tx("C", 1, 1, &["W"]),
    ];
    assert_eq!(
        Pool::build(records, false).err(),
        Some(AssemblyError::DanglingParent {
            id: "B".to_string(),
            missing_parent: "Y".to_string()
        })
    );
}

#[test]
fn dangling_parent_can_be_ignored() {
    let records = vec![tx("A", 1, 1, &[]), tx("B", 5, 1, &["A", "Z"])];
    let pool = Pool::build(records, true).unwrap();
    assert_eq!(pool.assemble(10), vec![vec![0usize, 1]]);
    let m = Mempool::new("x")
        .with_ignore_unknown_parents(true)
        .load_mempool(&lines(&["B,5,1,A;Z", "A,1,1"]))
        .unwrap();
    assert_eq!(block_ids(&m), names(&[&["A", "B"]]));
}

#[test]
fn zero_weight_record_is_rejected() {
    let r = Pool::build(vec![tx("A", 1, 0, &[])], false);
    assert_eq!(
        r.err(),
        Some(AssemblyError::ParseError { field: ParseField::InvalidWeight })
    );
}

#[test]
fn failures_come_in_a_fixed_order() {
    // zero weight before duplicate before dangling before cycle
    let records = vec![tx("A", 1, 1, &["A", "Z"]), tx("A", 1, 0, &[])];
    assert_eq!(
        Pool::build(records, false).err(),
        Some(AssemblyError::ParseError { field: ParseField::InvalidWeight })
    );
    let records = vec![tx("A", 1, 1, &["A", "Z"]), tx("A", 1, 1, &[])];
    assert_eq!(
        Pool::build(records, false).err(),
        Some(AssemblyError::DuplicateId { id: "A".to_string() })
    );
    let records = vec![tx("A", 1, 1, &["A", "Z"])];
    assert_eq!(
        Pool::build(records, false).err(),
        Some(AssemblyError::DanglingParent {
            id: "A".to_string(),
            missing_parent: "Z".to_string()
        })
    );
    let records = vec![tx("A", 1, 1, &["A", "Z"])];
    assert_eq!(
        Pool::build(records, true).err(),
        Some(AssemblyError::CyclicDependency { offending_id: "A".to_string() })
    );
}

#[test]
fn pool_finds_records_by_identifier() {
    let pool = Pool::build(sample(), false).unwrap();
    assert_eq!(pool.len(), 8);
    assert_eq!(pool.find("t0"), Some(0));
    assert_eq!(pool.find("t7"), Some(7));
    assert_eq!(pool.find("t8"), None);
    assert_eq!(pool.find(""), None);
    assert_eq!(pool.get(3).txid, "t3");
    assert_eq!(pool.get(3).parent_txids, vec!["t2".to_string(), "t0".to_string()]);
}

#[test]
fn empty_pool_gives_no_block() {
    let pool = Pool::build(Vec::new(), false).unwrap();
    assert_eq!(pool.len(), 0);
    assert_eq!(pool.assemble(100), Vec::<Vec<usize>>::new());
    let m = Mempool::new("x").load_mempool(&Vec::new()).unwrap();
    assert!(m.blocks.is_empty());
}

#[test]
fn oversize_transaction_stands_alone() {
    let records = vec![
        tx("small", 10, 10, &[]),
        tx("huge", 100_000, 1000, &[]),
        tx("tiny", 1, 10, &[]),
    ];
    let pool = Pool::build(records, false).unwrap();
    // rates: huge 100, small 1, tiny 0.1
    assert_eq!(pool.assemble(100), vec![vec![1usize], vec![0, 2]]);
}

#[test]
fn oversize_transaction_closes_the_block_before_it() {
    let records = vec![tx("first", 100, 10, &[]), tx("huge", 1000, 1000, &[]), tx("last", 1, 10, &[])];
    let pool = Pool::build(records, false).unwrap();
    // rates: first 10, huge 1, last 0.1
    assert_eq!(pool.assemble(100), vec![vec![0usize], vec![1], vec![2]]);
}

#[test]
fn block_is_filled_to_the_budget_exactly() {
    let records = vec![tx("a", 30, 100, &[]), tx("b", 20, 100, &[]), tx("c", 10, 100, &[])];
    let pool = Pool::build(records, false).unwrap();
    assert_eq!(pool.assemble(200), vec![vec![0usize, 1], vec![2]]);
    assert_eq!(pool.assemble(199), vec![vec![0usize], vec![1], vec![2]]);
    assert_eq!(pool.assemble(300), vec![vec![0usize, 1, 2]]);
    assert_eq!(pool.assemble(0), vec![vec![0usize], vec![1], vec![2]]);
}

#[test]
fn fee_rate_is_compared_exactly() {
    // 1/3 against 333333333333/1000000000000: the fraction decides, not a rounded quotient.
    let records = vec![
        tx("third", 1, 3, &[]),
        tx("almost", 333_333_333, 1_000_000_000, &[]),
        tx("more", 333_333_334, 1_000_000_000, &[]),
    ];
    let pool = Pool::build(records, false).unwrap();
    assert_eq!(pool.assemble(u32::MAX), vec![vec![2usize, 0, 1]]);
    assert!(pool.outranks_at(0, 1));
    assert!(!pool.outranks_at(1, 0));
    assert!(pool.outranks_at(2, 0));
}

#[test]
fn integer_quotients_that_tie_do_not_tie_here() {
    // 5/2 and 4/2 both floor to 2; the exact rate puts 5/2 first.
    let records = vec![tx("a", 4, 2, &[]), tx("b", 5, 2, &[])];
    let pool = Pool::build(records, false).unwrap();
    assert_eq!(pool.assemble(100), vec![vec![1usize, 0]]);
}

#[test]
fn equal_rates_go_by_identifier() {
    let records = vec![
        tx("b", 2, 2, &[]),
        tx("ab", 3, 3, &[]),
        tx("a", 1, 1, &[]),
        tx("B", 5, 5, &[]),
    ];
    let pool = Pool::build(records, false).unwrap();
    assert_eq!(ids(&pool, &pool.assemble(100)), names(&[&["B", "a", "ab", "b"]]));
    assert!(pool.outranks_at(2, 1));
    assert!(!pool.outranks_at(1, 2));
    assert!(!pool.outranks_at(1, 1));
}

#[test]
fn large_fees_and_weights_do_not_overflow() {
    let records = vec![
        tx("x", u64::MAX, u32::MAX, &[]),
        tx("y", u64::MAX, u32::MAX - 1, &[]),
        tx("z", u64::MAX - 1, u32::MAX, &[]),
    ];
    let pool = Pool::build(records, false).unwrap();
    assert_eq!(
        ids(&pool, &pool.assemble(u32::MAX)),
        names(&[&["y"], &["x"], &["z"]])
    );
}

#[test]
fn child_waits_for_all_its_parents() {
    let records = vec![
        tx("child", 1_000_000, 1, &["pa", "pb"]),
        tx("pa", 2, 1, &[]),
        tx("pb", 1, 1, &["pa"]),
        tx("other", 3, 2, &[]),
    ];
    let pool = Pool::build(records, false).unwrap();
    assert_eq!(
        ids(&pool, &pool.assemble(100)),
        names(&[&["pa", "other", "pb", "child"]])
    );
}

#[test]
fn parent_named_twice_counts_once_for_readiness() {
    let records = vec![tx("c", 9, 1, &["p", "p", "p"]), tx("p", 1, 1, &[])];
    let pool = Pool::build(records, false).unwrap();
    assert_eq!(pool.assemble(100), vec![vec![1usize, 0]]);
}

#[test]
fn dependency_order_holds_across_blocks() {
    let records = vec![
        tx("a", 1, 60, &[]),
        tx("b", 100, 60, &["a"]),
        tx("c", 50, 60, &["b"]),
        tx("d", 70, 60, &[]),
    ];
    let pool = Pool::build(records, false).unwrap();
    let blocks = pool.assemble(100);
    assert_eq!(ids(&pool, &blocks), names(&[&["d"], &["a"], &["b"], &["c"]]));
    let flat: Vec<usize> = blocks.iter().flatten().copied().collect();
    for (at, &i) in flat.iter().enumerate() {
        for p in &pool.get(i).parent_txids {
            let j = (0..pool.len()).find(|&j| &pool.get(j).txid == p).unwrap();
            assert!(flat.iter().position(|&x| x == j).unwrap() < at);
        }
    }
}

fn sample() -> Vec<Transaction> {
    vec![
        tx("t0", 120, 40, &[]),
        tx("t1", 900, 90, &["t0"]),
        tx("t2", 50, 10, &[]),
        tx("t3", 75, 15, &["t2", "t0"]),
        tx("t4", 10, 100, &[]),
        tx("t5", 500, 250, &["t4"]),
        tx("t6", 33, 11, &["t5", "t3"]),
        tx("t7", 64, 8, &["t1"]),
    ]
}

#[test]
fn every_transaction_is_placed_exactly_once() {
    let pool = Pool::build(sample(), false).unwrap();
    for max in [0u32, 50, 100, 200, 1000] {
        let blocks = pool.assemble(max);
        let mut seen: Vec<usize> = blocks.iter().flatten().copied().collect();
        seen.sort();
        assert_eq!(seen, (0..pool.len()).collect::<Vec<_>>());
        assert!(blocks.iter().all(|b| !b.is_empty()));
    }
}

#[test]
fn every_block_respects_the_budget_or_is_a_single_oversize() {
    let pool = Pool::build(sample(), false).unwrap();
    for max in [0u32, 50, 100, 200, 1000] {
        for block in pool.assemble(max) {
            let total: u64 = block.iter().map(|&i| pool.get(i).weight as u64).sum();
            assert!(total <= max as u64 || block.len() == 1);
        }
    }
}

#[test]
fn repeated_runs_give_the_same_blocks() {
    let first = Pool::build(sample(), false).unwrap().assemble(200);
    let second = Pool::build(sample(), false).unwrap().assemble(200);
    assert_eq!(first, second);
    assert_eq!(first, vec![vec![2usize, 0, 1, 7, 3], vec![4], vec![5], vec![6]]);
}

#[test]
fn later_higher_rate_means_it_was_blocked() {
    let pool = Pool::build(sample(), false).unwrap();
    let blocks = pool.assemble(1000);
    let flat: Vec<usize> = blocks.iter().flatten().copied().collect();
    for a in 0..flat.len() {
        for b in a + 1..flat.len() {
            let (e, l) = (pool.get(flat[a]), pool.get(flat[b]));
            if (l.fee as u128) * (e.weight as u128) > (e.fee as u128) * (l.weight as u128) {
                let blocked = l.parent_txids.iter().any(|p| {
                    !flat[..a].iter().any(|&x| &pool.get(x).txid == p)
                });
                assert!(blocked);
            }
        }
    }
}

struct Lcg(u64);

impl Lcg {
    fn next(&mut self, below: u64) -> u64 {
        self.0 = self.0.wrapping_mul(6364136223846793005).wrapping_add(1442695040888963407);
        (self.0 >> 33) % below
    }
}

fn better(a: &Transaction, b: &Transaction) -> bool {
    let left = (a.fee as u128) * (b.weight as u128);
    let right = (b.fee as u128) * (a.weight as u128);
    left > right || (left == right && a.txid < b.txid)
}

// Selection by plain search: the best of the ready transactions, again and again.
fn blocks_by_search(records: &[Transaction], max: u32) -> Vec<Vec<usize>> {
    let mut placed = vec![false; records.len()];
    let mut blocks: Vec<Vec<usize>> = Vec::new();
    let mut current: Vec<usize> = Vec::new();
    let mut used: u64 = 0;
    loop {
        let mut best: Option<usize> = None;
        for (i, t) in records.iter().enumerate() {
            let ready = !placed[i]
                && t.parent_txids.iter().all(|p| {
                    records
                        .iter()
                        .position(|r| &r.txid == p)
                        .map_or(true, |j| placed[j])
                });
            if ready && best.map_or(true, |b| better(t, &records[b])) {
                best = Some(i);
            }
        }
        let Some(t) = best else { break };
        let w = records[t].weight as u64;
        if used + w > max as u64 && !current.is_empty() {
            blocks.push(std::mem::take(&mut current));
            used = 0;
        }
        current.push(t);
        used += w;
        placed[t] = true;
    }
    if !current.is_empty() {
        blocks.push(current);
    }
    blocks
}

fn random_pool(seed: u64, n: usize, unknown: bool) -> Vec<Transaction> {
    let mut rng = Lcg(seed);
    let mut records: Vec<Transaction> = Vec::new();
    for i in 0..n {
        let mut parents: Vec<String> = Vec::new();
        if i > 0 {
            for _ in 0..rng.next(4) {
                parents.push(format!("tx{}", rng.next(i as u64)));
            }
        }
        if unknown && rng.next(5) == 0 {
            parents.push(format!("gone{}", i));
        }
        records.push(Transaction {
            txid: format!("tx{}", i),
            fee: rng.next(50) * 10,
            weight: 1 + rng.next(40) as u32,
            parent_txids: parents,
        });
    }
    // the order of the input is not the order of the dependencies
    for i in (1..n).rev() {
        let j = rng.next(i as u64 + 1) as usize;
        records.swap(i, j);
    }
    records
}

#[test]
fn agrees_with_selection_by_search() {
    for seed in 0..40u64 {
        let n = 5 + (seed as usize * 7) % 120;
        let records = random_pool(seed, n, false);
        let pool = Pool::build(records.clone(), false).unwrap();
        for max in [1u32, 37, 100, 1000] {
            assert_eq!(pool.assemble(max), blocks_by_search(&records, max), "seed {}", seed);
        }
    }
}

#[test]
fn agrees_with_selection_by_search_when_parents_are_unknown() {
    for seed in 100..120u64 {
        let records = random_pool(seed, 60, true);
        assert!(matches!(
            Pool::build(records.clone(), false),
            Err(AssemblyError::DanglingParent { .. })
        ));
        let pool = Pool::build(records.clone(), true).unwrap();
        assert_eq!(pool.assemble(90), blocks_by_search(&records, 90), "seed {}", seed);
    }
}

#[test]
fn independent_transactions_come_out_sorted() {
    let mut rng = Lcg(7);
    let records: Vec<Transaction> = (0..2000)
        .map(|i| Transaction {
            txid: format!("{:x}", rng.next(1 << 40) * 4096 + i),
            fee: rng.next(1000),
            weight: 1 + rng.next(100) as u32,
            parent_txids: vec![],
        })
        .collect();
    let pool = Pool::build(records.clone(), false).unwrap();
    let blocks = pool.assemble(u32::MAX);
    assert_eq!(blocks.len(), 1);
    let mut expected: Vec<usize> = (0..records.len()).collect();
    expected.sort_by(|&a, &b| {
        if better(&records[a], &records[b]) {
            std::cmp::Ordering::Less
        } else if better(&records[b], &records[a]) {
            std::cmp::Ordering::Greater
        } else {
            std::cmp::Ordering::Equal
        }
    });
    assert_eq!(blocks[0], expected);
}

#[test]
fn long_chain_is_placed_in_order() {
    let n = 3000usize;
    let records: Vec<Transaction> = (0..n)
        .map(|i| Transaction {
            txid: format!("c{}", i),
            fee: i as u64,
            weight: 1,
            parent_txids: if i + 1 < n { vec![format!("c{}", i + 1)] } else { vec![] },
        })
        .collect();
    let pool = Pool::build(records, false).unwrap();
    let blocks = pool.assemble(1000);
    assert_eq!(blocks.len(), 3);
    let flat: Vec<usize> = blocks.into_iter().flatten().collect();
    assert_eq!(flat, (0..n).rev().collect::<Vec<_>>());
}

#[test]
fn long_chain_that_closes_is_rejected() {
    let n = 3000usize;
    let records: Vec<Transaction> = (0..n)
        .map(|i| Transaction {
            txid: format!("c{}", i),
            fee: 1,
            weight: 1,
            parent_txids: vec![format!("c{}", (i + 1) % n)],
        })
        .collect();
    assert!(matches!(
        Pool::build(records, false),
        Err(AssemblyError::CyclicDependency { .. })
    ));
}
