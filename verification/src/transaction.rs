//! The transaction record and the decoding of one line of text into it.

use crate::text::{
    chars_of, parse_unsigned, split, split_windows, trim, trim_window, unsigned_decimal,
    windows_text,
};
use vstd::prelude::*;
use vstd::string::StrSliceExecFns;

verus! {

/// One candidate transaction.
#[derive(Debug, PartialEq, Eq, Clone)]
pub struct Transaction {
    pub txid: String,
    pub fee: u64,
    pub weight: u32,
    pub parent_txids: Vec<String>,
}

/// What a transaction record holds, as mathematical values.
pub struct TxView {
    pub id: Seq<char>,
    pub fee: nat,
    pub weight: nat,
    pub parents: Seq<Seq<char>>,
}

/// The field of a line that could not be decoded.
#[derive(Debug, Clone, Copy, PartialEq, Eq)]
pub enum ParseField {
    MissingId,
    InvalidFee,
    InvalidWeight,
    MalformedParentList,
}

/// The character sequences of a list of strings.
pub open spec fn texts(v: Seq<String>) -> Seq<Seq<char>> {
    Seq::new(v.len(), |i: int| v[i]@)
}

impl View for Transaction {
    type V = TxView;

    open spec fn view(&self) -> TxView {
        TxView {
            id: self.txid@,
            fee: self.fee as nat,
            weight: self.weight as nat,
            parents: texts(self.parent_txids@),
        }
    }
}

/// The parent identifiers that the pieces of a parent list give: an empty
/// piece gives none, a piece of white space only makes the list malformed,
/// and any other piece gives its text without the white space around it.
pub open spec fn parent_ids(pieces: Seq<Seq<char>>) -> Option<Seq<Seq<char>>>
    decreases pieces.len(),
{
    if pieces.len() == 0 {
        Some(Seq::empty())
    } else {
        match parent_ids(pieces.drop_last()) {
            None => None,
            Some(ids) => {
                let piece = pieces.last();
                if piece.len() == 0 {
                    Some(ids)
                } else if trim(piece).len() == 0 {
                    None
                } else {
                    Some(ids.push(trim(piece)))
                }
            },
        }
    }
}

/// The parent identifiers of a record whose fields are `fields`: none where
/// the line has no fourth field, else those of that field's pieces between
/// semicolons.
pub open spec fn parents_of_fields(fields: Seq<Seq<char>>) -> Option<Seq<Seq<char>>> {
    if fields.len() < 4 {
        Some(Seq::empty())
    } else {
        parent_ids(split(trim(fields[3]), ';'))
    }
}

/// What one line denotes. Its fields stand between commas, in the order
/// identifier, fee, weight, parent list, each taken without the white space
/// around it; fields after the fourth are not read. The first field that
/// fails names the error: an empty identifier, a fee that is no decimal
/// number of 64 bits, a weight that is no decimal number of 32 bits or is
/// zero, a parent list with a blank piece or with the record's own
/// identifier.
pub open spec fn parse_record(line: Seq<char>) -> Result<TxView, ParseField> {
    let fields = split(line, ',');
    let id = trim(fields[0]);
    if id.len() == 0 {
        Err(ParseField::MissingId)
    } else if fields.len() < 2 {
        Err(ParseField::InvalidFee)
    } else {
        match unsigned_decimal(trim(fields[1]), u64::MAX as nat) {
            None => Err(ParseField::InvalidFee),
            Some(fee) => {
                if fields.len() < 3 {
                    Err(ParseField::InvalidWeight)
                } else {
                    match unsigned_decimal(trim(fields[2]), u32::MAX as nat) {
                        None => Err(ParseField::InvalidWeight),
                        Some(weight) => {
                            if weight == 0 {
                                Err(ParseField::InvalidWeight)
                            } else {
                                match parents_of_fields(fields) {
                                    None => Err(ParseField::MalformedParentList),
                                    Some(parents) => {
                                        if parents.contains(id) {
                                            Err(ParseField::MalformedParentList)
                                        } else {
                                            Ok(TxView { id, fee, weight, parents })
                                        }
                                    },
                                }
                            }
                        },
                    }
                }
            },
        }
    }
}

/// The parent identifiers in the window `[lo, hi)` of a line, which holds
/// the fourth field without the white space around it. `None` where the list
/// is malformed.
fn parse_parents(line: &str, v: &Vec<char>, lo: usize, hi: usize) -> (r: Option<Vec<String>>)
    requires
        v@ == line@,
        lo <= hi <= v.len(),
    ensures
        match parent_ids(split(v@.subrange(lo as int, hi as int), ';')) {
            Some(ids) => r is Some && texts(r->Some_0@) == ids,
            None => r is None,
        },
{
    let pieces = split_windows(v, lo, hi, ';');
    let ghost all = split(v@.subrange(lo as int, hi as int), ';');
    let mut out: Vec<String> = Vec::new();
    let mut k: usize = 0;
    assert(all.take(0) =~= Seq::<Seq<char>>::empty());
    assert(texts(out@) =~= Seq::<Seq<char>>::empty());
    while k < pieces.len()
        invariant
            k <= pieces.len(),
            v@ == line@,
            hi <= v.len(),
            all == windows_text(v@, pieces@),
            all == split(v@.subrange(lo as int, hi as int), ';'),
            forall|j: int| 0 <= j < pieces.len() ==> lo <= (#[trigger] pieces[j]).0 <= pieces[j].1 <= hi,
            parent_ids(all.take(k as int)) == Some(texts(out@)),
        decreases pieces.len() - k,
    {
        let (a, b) = pieces[k];
        let ghost piece = v@.subrange(a as int, b as int);
        proof {
            assert(all.take(k + 1).drop_last() =~= all.take(k as int));
            assert(all.take(k + 1).last() == piece);
        }
        if a < b {
            let (ta, tb) = trim_window(v, a, b);
            if ta == tb {
                proof {
                    assert(trim(piece).len() == 0);
                    assert(parent_ids(all.take(k + 1)) is None);
                    lemma_parent_ids_prefix_none(all, k + 1);
                }
                return None;
            }
            let id = line.substring_char(ta, tb).to_owned();
            let ghost before = out@;
            out.push(id);
            assert(texts(out@) =~= texts(before).push(trim(piece)));
        }
        k = k + 1;
    }
    assert(all.take(pieces.len() as int) =~= all);
    Some(out)
}

/// A list of pieces is malformed as soon as one of its beginnings is.
pub proof fn lemma_parent_ids_prefix_none(pieces: Seq<Seq<char>>, k: int)
    requires
        0 <= k <= pieces.len(),
        parent_ids(pieces.take(k)) is None,
    ensures
        parent_ids(pieces) is None,
    decreases pieces.len(),
{
    if k == pieces.len() {
        assert(pieces.take(k) =~= pieces);
    } else {
        assert(pieces.drop_last().take(k) =~= pieces.take(k));
        lemma_parent_ids_prefix_none(pieces.drop_last(), k);
    }
}

/// No parent identifier of a well-formed list is empty.
pub proof fn lemma_parent_ids_not_empty(pieces: Seq<Seq<char>>)
    requires
        parent_ids(pieces) is Some,
    ensures
        forall|k: int|
            0 <= k < parent_ids(pieces)->Some_0.len() ==> (#[trigger] parent_ids(pieces)->Some_0[k]).len()
                > 0,
    decreases pieces.len(),
{
    if pieces.len() > 0 {
        lemma_parent_ids_not_empty(pieces.drop_last());
    }
}

/// A record that a line denotes is well formed: it has an identifier, its
/// fee and weight fit in 64 and 32 bits, its weight is positive, and its
/// parents are named by identifiers other than its own.
pub proof fn lemma_parsed_record_is_well_formed(line: Seq<char>)
    requires
        parse_record(line) is Ok,
    ensures
        ({
            let t = parse_record(line)->Ok_0;
            &&& t.id.len() > 0
            &&& t.fee <= u64::MAX
            &&& 0 < t.weight <= u32::MAX
            &&& !t.parents.contains(t.id)
            &&& forall|k: int| 0 <= k < t.parents.len() ==> (#[trigger] t.parents[k]).len() > 0
        }),
{
    let fields = split(line, ',');
    if fields.len() >= 4 {
        lemma_parent_ids_not_empty(split(trim(fields[3]), ';'));
    }
}

/// Whether `ids` holds a string equal to `id`.
fn holds_id(ids: &Vec<String>, id: &String) -> (r: bool)
    ensures
        r == texts(ids@).contains(id@),
{
    let mut k: usize = 0;
    while k < ids.len()
        invariant
            k <= ids.len(),
            forall|j: int| 0 <= j < k ==> texts(ids@)[j] != id@,
        decreases ids.len() - k,
    {
        if ids[k] == *id {
            assert(texts(ids@)[k as int] == id@);
            return true;
        }
        k = k + 1;
    }
    false
}

impl Transaction {
    /// Decodes one line of the form `id, fee, weight, parent;parent;...`.
    pub fn parser(value: &str) -> (r: Result<Transaction, ParseField>)
        ensures
            match parse_record(value@) {
                Ok(t) => r is Ok && r->Ok_0@ == t,
                Err(e) => r == Err::<Transaction, ParseField>(e),
            },
    {
        let v = chars_of(value);
        let fields = split_windows(&v, 0, v.len(), ',');
        let ghost all = split(value@, ',');
        proof {
            assert(v@.subrange(0, v.len() as int) =~= value@);
            assert(all == windows_text(v@, fields@));
        }
        let (ia, ib) = trim_window(&v, fields[0].0, fields[0].1);
        assert(v@.subrange(ia as int, ib as int) == trim(all[0]));
        if ia == ib {
            return Err(ParseField::MissingId);
        }
        if fields.len() < 2 {
            return Err(ParseField::InvalidFee);
        }
        let (fa, fb) = trim_window(&v, fields[1].0, fields[1].1);
        assert(v@.subrange(fa as int, fb as int) == trim(all[1]));
        let fee: u64 = match parse_unsigned(&v, fa, fb, u64::MAX) {
            None => {
                return Err(ParseField::InvalidFee);
            },
            Some(n) => n,
        };
        if fields.len() < 3 {
            return Err(ParseField::InvalidWeight);
        }
        let (wa, wb) = trim_window(&v, fields[2].0, fields[2].1);
        assert(v@.subrange(wa as int, wb as int) == trim(all[2]));
        let weight: u32 = match parse_unsigned(&v, wa, wb, 0xffff_ffff) {
            None => {
                return Err(ParseField::InvalidWeight);
            },
            Some(n) => n as u32,
        };
        if weight == 0 {
            return Err(ParseField::InvalidWeight);
        }
        let txid = value.substring_char(ia, ib).to_owned();
        let parent_txids: Vec<String> = if fields.len() < 4 {
            let none: Vec<String> = Vec::new();
            assert(texts(none@) =~= Seq::<Seq<char>>::empty());
            none
        } else {
            let (pa, pb) = trim_window(&v, fields[3].0, fields[3].1);
            assert(v@.subrange(pa as int, pb as int) == trim(all[3]));
            match parse_parents(value, &v, pa, pb) {
                None => {
                    return Err(ParseField::MalformedParentList);
                },
                Some(ids) => ids,
            }
        };
        if holds_id(&parent_txids, &txid) {
            return Err(ParseField::MalformedParentList);
        }
        Ok(Transaction { txid, fee, weight, parent_txids })
    }
}

/// A copy of a list of strings.
pub fn copy_strings(list: &Vec<String>) -> (out: Vec<String>)
    ensures
        texts(out@) == texts(list@),
{
    let mut out: Vec<String> = Vec::new();
    let mut k: usize = 0;
    while k < list.len()
        invariant
            k <= list.len(),
            out.len() == k,
            forall|j: int| 0 <= j < k ==> (#[trigger] out[j])@ == list[j]@,
        decreases list.len() - k,
    {
        out.push(list[k].clone());
        k = k + 1;
    }
    assert(texts(out@) =~= texts(list@));
    out
}

impl Transaction {
    /// A copy of the record.
    pub fn duplicate(&self) -> (t: Transaction)
        ensures
            t@ == self@,
    {
        Transaction {
            txid: self.txid.clone(),
            fee: self.fee,
            weight: self.weight,
            parent_txids: copy_strings(&self.parent_txids),
        }
    }
}

} // verus!
