use btc_toolkit::error::AssemblyError;
use btc_toolkit::mempool::Mempool;
use btc_toolkit::transaction::{ParseField, Transaction};

fn tx(id: &str, fee: u64, weight: u32, parents: &[&str]) -> Transaction {
    Transaction {
        txid: id.to_string(),
        fee,
        weight,
        parent_txids: parents.iter().map(|p| p.to_string()).collect(),
    }
}

#[test]
fn parses_a_full_line() {
    assert_eq!(
        Transaction::parser("abc,452,1620,pa;pb"),
        Ok(tx("abc", 452, 1620, &["pa", "pb"]))
    );
}

#[test]
fn parses_a_line_without_parents() {
    assert_eq!(Transaction::parser("abc,452,1620"), Ok(tx("abc", 452, 1620, &[])));
    assert_eq!(Transaction::parser("abc,452,1620,"), Ok(tx("abc", 452, 1620, &[])));
    assert_eq!(Transaction::parser("abc,452,1620,   "), Ok(tx("abc", 452, 1620, &[])));
}

#[test]
fn trims_white_space_around_fields() {
    assert_eq!(
        Transaction::parser("  abc \t, 452 ,\u{a0}1620\u{3000}, pa ;  pb  "),
        Ok(tx("abc", 452, 1620, &["pa", "pb"]))
    );
    assert_eq!(Transaction::parser("a b,1,1"), Ok(tx("a b", 1, 1, &[])));
}

#[test]
fn skips_empty_pieces_of_the_parent_list() {
    assert_eq!(Transaction::parser("a,1,1,;pa;;pb;"), Ok(tx("a", 1, 1, &["pa", "pb"])));
}

#[test]
fn ignores_fields_after_the_fourth() {
    assert_eq!(Transaction::parser("a,1,1,p,extra,more"), Ok(tx("a", 1, 1, &["p"])));
}

#[test]
fn accepts_plus_sign_and_leading_zeros() {
    assert_eq!(Transaction::parser("a,+7,007"), Ok(tx("a", 7, 7, &[])));
    assert_eq!(Transaction::parser("a,0,1"), Ok(tx("a", 0, 1, &[])));
}

#[test]
fn accepts_the_largest_numbers() {
    assert_eq!(
        Transaction::parser("a,18446744073709551615,4294967295"),
        Ok(tx("a", u64::MAX, u32::MAX, &[]))
    );
}

#[test]
fn missing_id_is_reported() {
    assert_eq!(Transaction::parser(""), Err(ParseField::MissingId));
    assert_eq!(Transaction::parser("   "), Err(ParseField::MissingId));
    assert_eq!(Transaction::parser(" ,1,1"), Err(ParseField::MissingId));
    assert_eq!(Transaction::parser(",x,y"), Err(ParseField::MissingId));
}

#[test]
fn invalid_fee_is_reported() {
    for line in [
        "a",
        "a,",
        "a,,1",
        "a,-1,1",
        "a,1.5,1",
        "a,12x,1",
        "a,1 2,1",
        "a,+,1",
        "a,++1,1",
        "a,18446744073709551616,1",
        "a,99999999999999999999999999,1",
        "a,0x10,1",
    ] {
        assert_eq!(Transaction::parser(line), Err(ParseField::InvalidFee), "{}", line);
    }
}

#[test]
fn invalid_weight_is_reported() {
    for line in [
        "a,1",
        "a,1,",
        "a,1,0",
        "a,1,000",
        "a,1,-5",
        "a,1,w",
        "a,1,4294967296",
        "a,1,1e3",
    ] {
        assert_eq!(Transaction::parser(line), Err(ParseField::InvalidWeight), "{}", line);
    }
}

#[test]
fn malformed_parent_list_is_reported() {
    assert_eq!(Transaction::parser("a,1,1,p; ;q"), Err(ParseField::MalformedParentList));
    assert_eq!(Transaction::parser("a,1,1,p;a"), Err(ParseField::MalformedParentList));
    assert_eq!(Transaction::parser("a,1,1, a "), Err(ParseField::MalformedParentList));
}

#[test]
fn first_failing_field_names_the_error() {
    assert_eq!(Transaction::parser(",x,0,a; ;"), Err(ParseField::MissingId));
    assert_eq!(Transaction::parser("a,x,0, ; "), Err(ParseField::InvalidFee));
    assert_eq!(Transaction::parser("a,1,0,p; ;"), Err(ParseField::InvalidWeight));
}

#[test]
fn first_failing_line_ends_the_run() {
    let lines: Vec<String> = ["a,1,1", "b,x,1", ",1,1"].iter().map(|s| s.to_string()).collect();
    assert_eq!(
        Mempool::new("x").load_mempool(&lines).err(),
        Some(AssemblyError::ParseError { field: ParseField::InvalidFee })
    );
    let lines: Vec<String> = ["a,1,1", "", "b,1,1"].iter().map(|s| s.to_string()).collect();
    assert_eq!(
        Mempool::new("x").load_mempool(&lines).err(),
        Some(AssemblyError::ParseError { field: ParseField::MissingId })
    );
}

#[test]
fn duplicate_is_a_copy() {
    let t = tx("abc", 452, 1620, &["pa", "pb"]);
    assert_eq!(t.duplicate(), t);
}
