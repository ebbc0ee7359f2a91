//! Base58 text and the Base58Check layout: a prefix, a payload and four
//! checksum bytes.

use crate::digest::{sha256, sha256_digest};
use crate::text::{chars_of, find_sep, find_window, lemma_find_sep_bounds};
use vstd::prelude::*;
use vstd::string::StrSliceExecFns;
use vstd::string::StringExecFns;

verus! {

/// The 58 symbols, in the order of their values.
pub const ALPHABET: &'static str = "123456789ABCDEFGHJKLMNPQRSTUVWXYZabcdefghijkmnopqrstuvwxyz";

/// The symbols as a sequence.
pub open spec fn alphabet() -> Seq<char> {
    "123456789ABCDEFGHJKLMNPQRSTUVWXYZabcdefghijkmnopqrstuvwxyz"@
}

proof fn lemma_alphabet()
    ensures
        alphabet().len() == 58,
        ALPHABET@ == alphabet(),
        vstd::string::is_ascii(ALPHABET),
        alphabet()[0] == '1',
{
    reveal_strlit("123456789ABCDEFGHJKLMNPQRSTUVWXYZabcdefghijkmnopqrstuvwxyz");
    assert(vstd::utf8::is_ascii_chars(alphabet()));
}

/// The number that the bytes write, the first byte counting most.
pub open spec fn be_value(bytes: Seq<u8>) -> nat
    decreases bytes.len(),
{
    if bytes.len() == 0 {
        0
    } else {
        be_value(bytes.drop_last()) * 256 + bytes.last() as nat
    }
}

/// The first index at or after `from` that does not hold `x`, or the length
/// of `s`.
pub open spec fn run_end<T>(s: Seq<T>, x: T, from: int) -> int
    decreases s.len() - from,
{
    if 0 <= from < s.len() && s[from] == x {
        run_end(s, x, from + 1)
    } else {
        from
    }
}

/// The number of places at the start of `s` that hold `x`.
pub open spec fn leading<T>(s: Seq<T>, x: T) -> nat {
    run_end(s, x, 0) as nat
}

/// `count` times the value `x`.
pub open spec fn repeat<T>(x: T, count: nat) -> Seq<T> {
    Seq::new(count, |i: int| x)
}

/// The digits of `n` to the base 58, the first counting most; none for zero.
pub open spec fn digits58(n: nat) -> Seq<u8>
    decreases n,
{
    if n == 0 {
        Seq::empty()
    } else {
        digits58(n / 58).push((n % 58) as u8)
    }
}

/// The symbols of a sequence of digits.
pub open spec fn symbols(digits: Seq<u8>) -> Seq<char> {
    Seq::new(digits.len(), |i: int| alphabet()[digits[i] as int])
}

/// The Base58 text of `bytes`: a `1` for each zero byte at the start, then
/// the number that the bytes write, to the base 58.
pub open spec fn base58_text(bytes: Seq<u8>) -> Seq<char> {
    repeat('1', leading(bytes, 0u8)) + symbols(digits58(be_value(bytes)))
}

/// `s` from its last place to its first.
pub open spec fn flipped<T>(s: Seq<T>) -> Seq<T> {
    Seq::new(s.len(), |i: int| s[s.len() - 1 - i])
}

proof fn lemma_be_value_zero(bytes: Seq<u8>)
    ensures
        be_value(bytes) == 0 <==> forall|i: int| 0 <= i < bytes.len() ==> bytes[i] == 0,
    decreases bytes.len(),
{
    if bytes.len() > 0 {
        lemma_be_value_zero(bytes.drop_last());
        if be_value(bytes) == 0 {
            assert forall|i: int| 0 <= i < bytes.len() implies bytes[i] == 0 by {
                if i < bytes.len() - 1 {
                    assert(bytes.drop_last()[i] == bytes[i]);
                }
            }
        } else if bytes.last() == 0 {
            let i = choose|i: int| 0 <= i < bytes.drop_last().len() && bytes.drop_last()[i] != 0;
            assert(bytes[i] != 0);
        }
    }
}

/// Whether every byte is zero.
fn is_zero(num: &Vec<u8>) -> (r: bool)
    ensures
        r == (be_value(num@) == 0),
{
    let mut i: usize = 0;
    while i < num.len()
        invariant
            i <= num.len(),
            forall|j: int| 0 <= j < i ==> num[j] == 0,
        decreases num.len() - i,
    {
        if num[i] != 0 {
            proof {
                lemma_be_value_zero(num@);
            }
            return false;
        }
        i = i + 1;
    }
    proof {
        lemma_be_value_zero(num@);
    }
    true
}

/// Divides the number that `num` writes by 58 and returns the remainder.
fn divide_by_58(num: &mut Vec<u8>) -> (rem: u8)
    ensures
        final(num).len() == old(num).len(),
        be_value(old(num)@) == be_value(final(num)@) * 58 + rem,
        rem < 58,
{
    let ghost start = num@;
    let mut rem: u32 = 0;
    let mut i: usize = 0;
    assert(num@.take(0) =~= start.take(0));
    while i < num.len()
        invariant
            i <= num.len(),
            num.len() == start.len(),
            rem < 58,
            be_value(start.take(i as int)) == be_value(num@.take(i as int)) * 58 + rem,
            forall|j: int| i <= j < num.len() ==> num[j] == start[j],
        decreases num.len() - i,
    {
        let acc: u32 = rem * 256 + num[i] as u32;
        let ghost before = num@;
        num.set(i, (acc / 58) as u8);
        rem = acc % 58;
        proof {
            assert(start.take(i + 1).drop_last() =~= start.take(i as int));
            assert(num@.take(i + 1).drop_last() =~= before.take(i as int));
            assert(num@.take(i + 1).last() == (acc / 58) as u8);
            assert(start.take(i + 1).last() == start[i as int]);
        }
        i = i + 1;
    }
    assert(num@.take(num.len() as int) =~= num@);
    assert(start.take(num.len() as int) =~= start);
    rem as u8
}

/// Appends the symbol of the digit `d`.
fn push_symbol(out: &mut String, d: u8)
    requires
        d < 58,
    ensures
        final(out)@ == old(out)@.push(alphabet()[d as int]),
{
    proof {
        lemma_alphabet();
    }
    let piece = ALPHABET.substring_ascii(d as usize, d as usize + 1);
    assert(piece@ =~= seq![alphabet()[d as int]]);
    out.append(piece);
    assert(out@ =~= old(out)@.push(alphabet()[d as int]));
}

/// The Base58 text of the bytes.
pub fn to_base58(base58_bytes: &[u8]) -> (text: String)
    ensures
        text@ == base58_text(base58_bytes@),
{
    let ghost bytes = base58_bytes@;
    let mut out = String::new();
    let mut num: Vec<u8> = Vec::new();
    let mut i: usize = 0;
    while i < base58_bytes.len()
        invariant
            i <= base58_bytes.len(),
            num@ == base58_bytes@.take(i as int),
        decreases base58_bytes.len() - i,
    {
        num.push(base58_bytes[i]);
        assert(num@ =~= base58_bytes@.take(i + 1));
        i = i + 1;
    }
    assert(base58_bytes@.take(base58_bytes.len() as int) =~= bytes);
    let mut z: usize = 0;
    assert(out@ =~= repeat('1', 0));
    while z < base58_bytes.len() && base58_bytes[z] == 0
        invariant
            z <= base58_bytes.len(),
            bytes == base58_bytes@,
            run_end(bytes, 0u8, 0) == run_end(bytes, 0u8, z as int),
            out@ == repeat('1', z as nat),
        decreases base58_bytes.len() - z,
    {
        proof {
            reveal_strlit("1");
        }
        out.append("1");
        assert(out@ =~= repeat('1', (z + 1) as nat));
        z = z + 1;
    }
    let mut digits: Vec<u8> = Vec::new();
    assert(digits58(be_value(bytes)) =~= digits58(be_value(num@)) + flipped(digits@));
    while !is_zero(&num)
        invariant
            digits58(be_value(bytes)) == digits58(be_value(num@)) + flipped(digits@),
            forall|j: int| 0 <= j < digits.len() ==> digits[j] < 58,
        decreases be_value(num@),
    {
        let ghost value = be_value(num@);
        let ghost found = digits@;
        let rem = divide_by_58(&mut num);
        digits.push(rem);
        proof {
            let quotient = be_value(num@);
            assert(value / 58 == quotient && value % 58 == rem as nat);
            assert(flipped(digits@) =~= seq![rem] + flipped(found));
            assert(digits58(value) == digits58(quotient).push(rem));
            assert(digits58(quotient).push(rem) + flipped(found) =~= digits58(quotient) + flipped(
                digits@,
            ));
        }
    }
    let ghost ones = out@;
    let mut j: usize = digits.len();
    assert(symbols(flipped(digits@)).take(0) =~= Seq::<char>::empty());
    assert(out@ =~= ones + symbols(flipped(digits@)).take(0));
    while j > 0
        invariant
            j <= digits.len(),
            forall|k: int| 0 <= k < digits.len() ==> digits[k] < 58,
            out@ == ones + symbols(flipped(digits@)).take(digits.len() - j),
        decreases j,
    {
        push_symbol(&mut out, digits[j - 1]);
        j = j - 1;
        assert(out@ =~= ones + symbols(flipped(digits@)).take(digits.len() - j));
    }
    proof {
        assert(symbols(flipped(digits@)).take(digits.len() as int) =~= symbols(flipped(digits@)));
        assert(digits58(be_value(num@)) =~= Seq::<u8>::empty());
        assert(digits58(be_value(bytes)) =~= flipped(digits@));
    }
    out
}

/// The value of a symbol: its place in the alphabet, or 58 for a character
/// that is no symbol.
pub open spec fn symbol_value(c: char) -> nat {
    find_sep(alphabet(), c, 0) as nat
}

/// Every character of `text` is a symbol.
pub open spec fn is_base58(text: Seq<char>) -> bool {
    forall|i: int| 0 <= i < text.len() ==> symbol_value(#[trigger] text[i]) < 58
}

/// The number that the symbols write, the first counting most.
pub open spec fn value58(text: Seq<char>) -> nat
    decreases text.len(),
{
    if text.len() == 0 {
        0
    } else {
        value58(text.drop_last()) * 58 + symbol_value(text.last())
    }
}

/// The bytes of `n`, the first counting most; none for zero.
pub open spec fn be_bytes(n: nat) -> Seq<u8>
    decreases n,
{
    if n == 0 {
        Seq::empty()
    } else {
        be_bytes(n / 256).push((n % 256) as u8)
    }
}

/// The bytes that a Base58 text stands for: a zero byte for each `1` at
/// the start, then the bytes of the number that the symbols write.
pub open spec fn base58_bytes(text: Seq<char>) -> Seq<u8> {
    repeat(0u8, leading(text, '1')) + be_bytes(value58(text))
}

/// The number that the bytes write, the first byte counting least.
pub open spec fn le_value(bytes: Seq<u8>) -> nat
    decreases bytes.len(),
{
    if bytes.len() == 0 {
        0
    } else {
        bytes[0] as nat + 256 * le_value(bytes.skip(1))
    }
}

/// The number that the bytes write before a number `tail` that counts
/// more than all of them.
pub open spec fn le_value_before(bytes: Seq<u8>, tail: nat) -> nat
    decreases bytes.len(),
{
    if bytes.len() == 0 {
        tail
    } else {
        bytes[0] as nat + 256 * le_value_before(bytes.skip(1), tail)
    }
}

proof fn lemma_le_value_before_nothing(bytes: Seq<u8>)
    ensures
        le_value_before(bytes, 0) == le_value(bytes),
    decreases bytes.len(),
{
    if bytes.len() > 0 {
        lemma_le_value_before_nothing(bytes.skip(1));
    }
}

proof fn lemma_le_value_before_push(bytes: Seq<u8>, x: u8, tail: nat)
    ensures
        le_value_before(bytes.push(x), tail) == le_value_before(bytes, x as nat + 256 * tail),
    decreases bytes.len(),
{
    let longer = bytes.push(x);
    if bytes.len() == 0 {
        assert(longer.skip(1) =~= Seq::<u8>::empty());
        assert(le_value_before(longer.skip(1), tail) == tail);
        assert(le_value_before(longer, tail) == longer[0] as nat + 256 * le_value_before(
            longer.skip(1),
            tail,
        ));
    } else {
        assert(longer.skip(1) =~= bytes.skip(1).push(x));
        lemma_le_value_before_push(bytes.skip(1), x, tail);
        assert(le_value_before(longer, tail) == longer[0] as nat + 256 * le_value_before(
            longer.skip(1),
            tail,
        ));
    }
}

/// The last byte, which counts most, is not zero.
pub open spec fn is_trimmed(bytes: Seq<u8>) -> bool {
    bytes.len() > 0 ==> bytes.last() != 0
}

proof fn lemma_trimmed_value_positive(bytes: Seq<u8>)
    requires
        is_trimmed(bytes),
        bytes.len() > 0,
    ensures
        le_value(bytes) > 0,
    decreases bytes.len(),
{
    if bytes.len() > 1 {
        assert(bytes.skip(1).last() == bytes.last());
        lemma_trimmed_value_positive(bytes.skip(1));
    }
}

proof fn lemma_flipped_is_be_bytes(bytes: Seq<u8>)
    requires
        is_trimmed(bytes),
    ensures
        flipped(bytes) == be_bytes(le_value(bytes)),
    decreases bytes.len(),
{
    if bytes.len() == 0 {
        assert(flipped(bytes) =~= be_bytes(0));
    } else {
        lemma_trimmed_value_positive(bytes);
        let rest = bytes.skip(1);
        if rest.len() > 0 {
            assert(rest.last() == bytes.last());
        }
        lemma_flipped_is_be_bytes(rest);
        let n = le_value(bytes);
        assert(n / 256 == le_value(rest) && n % 256 == bytes[0] as nat);
        assert(flipped(bytes) =~= flipped(rest).push(bytes[0]));
    }
}

/// Multiplies the number that `num` writes, the first byte counting least,
/// by 58 and adds `d`.
fn times_58_plus(num: &mut Vec<u8>, d: u8)
    requires
        d < 58,
        is_trimmed(old(num)@),
    ensures
        le_value(final(num)@) == le_value(old(num)@) * 58 + d,
        is_trimmed(final(num)@),
{
    let ghost start = num@;
    let mut carry: u32 = d as u32;
    let mut i: usize = 0;
    proof {
        assert(start.skip(0) =~= start);
        assert(num@.take(0) =~= Seq::<u8>::empty());
    }
    while i < num.len()
        invariant
            i <= num.len(),
            num.len() == start.len(),
            carry < 58,
            le_value_before(num@.take(i as int), carry as nat + 58 * le_value(start.skip(i as int)))
                == 58 * le_value(start) + d,
            forall|j: int| i <= j < num.len() ==> num[j] == start[j],
            i > 0 && carry == 0 && start[i - 1] != 0 ==> num[i - 1] != 0,
        decreases num.len() - i,
    {
        let t: u32 = num[i] as u32 * 58 + carry;
        let ghost before = num@;
        let ghost pending = carry as nat;
        num.set(i, (t % 256) as u8);
        carry = t / 256;
        proof {
            let rest = le_value(start.skip(i + 1));
            assert(start.skip(i as int).skip(1) =~= start.skip(i + 1));
            assert(le_value(start.skip(i as int)) == start[i as int] as nat + 256 * rest);
            assert(num@.take(i + 1) =~= before.take(i as int).push((t % 256) as u8));
            lemma_le_value_before_push(
                before.take(i as int),
                (t % 256) as u8,
                carry as nat + 58 * rest,
            );
            assert((t % 256) as nat + 256 * (carry as nat + 58 * rest) == pending + 58 * le_value(
                start.skip(i as int),
            ));
        }
        i = i + 1;
    }
    proof {
        assert(num@.take(num.len() as int) =~= num@);
        assert(start.skip(num.len() as int) =~= Seq::<u8>::empty());
    }
    let ghost body = num@;
    if carry > 0 {
        num.push(carry as u8);
        proof {
            lemma_le_value_before_push(body, carry as u8, 0);
            lemma_le_value_before_nothing(num@);
        }
    } else {
        proof {
            lemma_le_value_before_nothing(num@);
        }
    }
}

/// Whether every character of the text is a symbol.
pub fn is_base58_text(text: &str) -> (r: bool)
    ensures
        r == is_base58(text@),
{
    let chars = chars_of(text);
    let symbols = chars_of(ALPHABET);
    proof {
        lemma_alphabet();
        assert(symbols@.subrange(0, 58) =~= alphabet());
    }
    let mut i: usize = 0;
    while i < chars.len()
        invariant
            i <= chars.len(),
            chars@ == text@,
            symbols@.len() == 58,
            symbols@.subrange(0, 58) == alphabet(),
            forall|j: int| 0 <= j < i ==> symbol_value(#[trigger] text@[j]) < 58,
        decreases chars.len() - i,
    {
        let d = find_window(&symbols, 0, 58, chars[i]);
        if d >= 58 {
            assert(symbol_value(text@[i as int]) >= 58);
            return false;
        }
        i = i + 1;
    }
    true
}

/// The bytes that a Base58 text stands for.
pub fn from_base58(base58_str: &str) -> (bytes: Vec<u8>)
    requires
        is_base58(base58_str@),
    ensures
        bytes@ == base58_bytes(base58_str@),
{
    let chars = chars_of(base58_str);
    let symbols = chars_of(ALPHABET);
    let ghost text = base58_str@;
    proof {
        lemma_alphabet();
        assert(symbols@.subrange(0, 58) =~= alphabet());
    }
    let mut outcome: Vec<u8> = Vec::new();
    let mut z: usize = 0;
    assert(outcome@ =~= repeat(0u8, 0));
    while z < chars.len() && chars[z] == '1'
        invariant
            z <= chars.len(),
            chars@ == text,
            run_end(text, '1', 0) == run_end(text, '1', z as int),
            outcome@ == repeat(0u8, z as nat),
        decreases chars.len() - z,
    {
        outcome.push(0);
        assert(outcome@ =~= repeat(0u8, (z + 1) as nat));
        z = z + 1;
    }
    let mut num: Vec<u8> = Vec::new();
    let mut i: usize = 0;
    assert(text.take(0) =~= Seq::<char>::empty());
    while i < chars.len()
        invariant
            i <= chars.len(),
            chars@ == text,
            is_base58(text),
            symbols@.len() == 58,
            symbols@.subrange(0, 58) == alphabet(),
            is_trimmed(num@),
            le_value(num@) == value58(text.take(i as int)),
        decreases chars.len() - i,
    {
        let d = find_window(&symbols, 0, 58, chars[i]);
        proof {
            assert(symbol_value(text[i as int]) < 58);
            assert(text.take(i + 1).drop_last() =~= text.take(i as int));
            assert(text.take(i + 1).last() == text[i as int]);
        }
        times_58_plus(&mut num, d as u8);
        i = i + 1;
    }
    proof {
        assert(text.take(chars.len() as int) =~= text);
        lemma_flipped_is_be_bytes(num@);
    }
    let ghost zeros = outcome@;
    let mut j: usize = num.len();
    assert(outcome@ =~= zeros + flipped(num@).take(0));
    while j > 0
        invariant
            j <= num.len(),
            outcome@ == zeros + flipped(num@).take(num.len() - j),
        decreases j,
    {
        outcome.push(num[j - 1]);
        j = j - 1;
        assert(outcome@ =~= zeros + flipped(num@).take(num.len() - j));
    }
    assert(flipped(num@).take(num.len() as int) =~= flipped(num@));
    outcome
}

/// The parts of a Base58Check value.
#[derive(Debug, Default)]
pub struct Base58Check {
    pub prefix: Vec<u8>,
    pub payload: Vec<u8>,
    pub checksum: Vec<u8>,
}

/// The checksum of a prefix and a payload: the first four bytes of the
/// SHA-256 digest of the SHA-256 digest of the two, one after the other.
pub open spec fn checksum_of(prefix: Seq<u8>, payload: Seq<u8>) -> Seq<u8> {
    sha256_digest(sha256_digest(prefix + payload)).take(4)
}

/// Appends the bytes of `more` to `to`.
fn append_bytes(to: &mut Vec<u8>, more: &[u8])
    ensures
        final(to)@ == old(to)@ + more@,
{
    let mut i: usize = 0;
    assert(to@ =~= old(to)@ + more@.take(0));
    while i < more.len()
        invariant
            i <= more.len(),
            to@ == old(to)@ + more@.take(i as int),
        decreases more.len() - i,
    {
        to.push(more[i]);
        assert(to@ =~= old(to)@ + more@.take(i + 1));
        i = i + 1;
    }
    assert(more@.take(more.len() as int) =~= more@);
}

impl Base58Check {
    /// A value without prefix, payload and checksum.
    pub fn new() -> (r: Self)
        ensures
            r.prefix@.len() == 0,
            r.payload@.len() == 0,
            r.checksum@.len() == 0,
    {
        Base58Check { prefix: Vec::new(), payload: Vec::new(), checksum: Vec::new() }
    }

    /// Appends `prefix` to the prefix.
    pub fn add_prefix(self, prefix: &[u8]) -> (r: Self)
        ensures
            r.prefix@ == self.prefix@ + prefix@,
            r.payload@ == self.payload@,
            r.checksum@ == self.checksum@,
    {
        let mut r = self;
        append_bytes(&mut r.prefix, prefix);
        r
    }

    /// Appends `payload` to the payload.
    pub fn add_payload(self, payload: &[u8]) -> (r: Self)
        ensures
            r.prefix@ == self.prefix@,
            r.payload@ == self.payload@ + payload@,
            r.checksum@ == self.checksum@,
    {
        let mut r = self;
        append_bytes(&mut r.payload, payload);
        r
    }

    /// Appends the checksum of the prefix and the payload to the checksum.
    pub fn calc_checksum(self) -> (r: Self)
        ensures
            r.prefix@ == self.prefix@,
            r.payload@ == self.payload@,
            r.checksum@ == self.checksum@ + checksum_of(self.prefix@, self.payload@),
    {
        let mut r = self;
        let mut data: Vec<u8> = Vec::new();
        append_bytes(&mut data, r.prefix.as_slice());
        append_bytes(&mut data, r.payload.as_slice());
        assert(data@ =~= r.prefix@ + r.payload@);
        let first_hash = sha256(data.as_slice());
        let double_hash = sha256(first_hash.as_slice());
        let mut i: usize = 0;
        assert(double_hash@.take(0) =~= Seq::<u8>::empty());
        assert(r.checksum@ =~= self.checksum@ + double_hash@.take(0));
        while i < 4
            invariant
                i <= 4,
                r.prefix@ == self.prefix@,
                r.payload@ == self.payload@,
                r.checksum@ == self.checksum@ + double_hash@.take(i as int),
            decreases 4 - i,
        {
            r.checksum.push(double_hash[i]);
            assert(r.checksum@ =~= self.checksum@ + double_hash@.take(i + 1));
            i = i + 1;
        }
        r
    }

    /// The prefix, the payload and the checksum, one after the other.
    pub fn build(self) -> (outcome: Vec<u8>)
        ensures
            outcome@ == self.prefix@ + self.payload@ + self.checksum@,
    {
        let mut outcome: Vec<u8> = Vec::new();
        append_bytes(&mut outcome, self.prefix.as_slice());
        append_bytes(&mut outcome, self.payload.as_slice());
        append_bytes(&mut outcome, self.checksum.as_slice());
        assert(outcome@ =~= self.prefix@ + self.payload@ + self.checksum@);
        outcome
    }
}

/// The symbols stand in the alphabet in rising order, so none occurs twice.
proof fn lemma_alphabet_rises(i: int, j: int)
    requires
        0 <= i < j < 58,
    ensures
        alphabet()[i] < alphabet()[j],
    decreases j - i,
{
    reveal_strlit("123456789ABCDEFGHJKLMNPQRSTUVWXYZabcdefghijkmnopqrstuvwxyz");
    assert(forall|k: int| 0 <= k < 57 ==> #[trigger] alphabet()[k] < alphabet()[k + 1]);
    if i + 1 < j {
        lemma_alphabet_rises(i, j - 1);
    }
}

/// The value of the symbol of a digit is the digit.
proof fn lemma_symbol_value(d: int)
    requires
        0 <= d < 58,
    ensures
        symbol_value(alphabet()[d]) == d,
{
    lemma_alphabet();
    lemma_find_sep_bounds(alphabet(), alphabet()[d], 0);
    let found = find_sep(alphabet(), alphabet()[d], 0);
    if found < d {
        lemma_alphabet_rises(found, d);
    }
}

proof fn lemma_digits58_range(n: nat)
    ensures
        forall|i: int| 0 <= i < digits58(n).len() ==> #[trigger] digits58(n)[i] < 58,
        n > 0 ==> digits58(n).len() > 0 && digits58(n)[0] != 0,
    decreases n,
{
    if n > 0 {
        lemma_digits58_range(n / 58);
        let front = digits58(n / 58);
        let last = (n % 58) as u8;
        assert(digits58(n) == front.push(last));
        assert forall|i: int| 0 <= i < digits58(n).len() implies #[trigger] digits58(n)[i] < 58 by {
            if i < front.len() {
                assert(digits58(n)[i] == front[i]);
            }
        }
        if n / 58 > 0 {
            assert(digits58(n)[0] == front[0]);
        } else {
            assert(front.len() == 0);
            assert(digits58(n)[0] == last);
        }
    }
}

proof fn lemma_value58_of_digits(n: nat)
    ensures
        value58(symbols(digits58(n))) == n,
    decreases n,
{
    if n == 0 {
        assert(symbols(digits58(0)) =~= Seq::<char>::empty());
    } else {
        lemma_value58_of_digits(n / 58);
        let front = digits58(n / 58);
        let last = (n % 58) as u8;
        assert(symbols(front.push(last)).drop_last() =~= symbols(front));
        lemma_symbol_value(last as int);
    }
}

proof fn lemma_value58_after_ones(count: nat, rest: Seq<char>)
    ensures
        value58(repeat('1', count) + rest) == value58(rest),
    decreases rest.len(), count,
{
    let text = repeat('1', count) + rest;
    if rest.len() > 0 {
        assert(text.drop_last() =~= repeat('1', count) + rest.drop_last());
        lemma_value58_after_ones(count, rest.drop_last());
    } else if count > 0 {
        lemma_alphabet();
        lemma_symbol_value(0);
        assert(text.drop_last() =~= repeat('1', (count - 1) as nat) + rest);
        lemma_value58_after_ones((count - 1) as nat, rest);
    } else {
        assert(text =~= rest);
    }
}

/// What the end of the run at the start of `s` is: every place before it
/// holds `x`, and it is the length of `s` or holds something else.
proof fn lemma_run_end_is<T>(s: Seq<T>, x: T, from: int, end: int)
    requires
        0 <= from <= end <= s.len(),
        forall|i: int| from <= i < end ==> s[i] == x,
        end < s.len() ==> s[end] != x,
    ensures
        run_end(s, x, from) == end,
    decreases end - from,
{
    if from < end {
        lemma_run_end_is(s, x, from + 1, end);
    }
}

proof fn lemma_run_end_holds<T>(s: Seq<T>, x: T, from: int)
    requires
        0 <= from <= s.len(),
    ensures
        from <= run_end(s, x, from) <= s.len(),
        forall|i: int| from <= i < run_end(s, x, from) ==> s[i] == x,
        run_end(s, x, from) < s.len() ==> s[run_end(s, x, from)] != x,
    decreases s.len() - from,
{
    if from < s.len() && s[from] == x {
        lemma_run_end_holds(s, x, from + 1);
    }
}

/// The bytes of the number that `bytes` write are `bytes` without the zero
/// bytes at the start.
proof fn lemma_be_bytes_of_value(bytes: Seq<u8>)
    ensures
        be_bytes(be_value(bytes)) == bytes.skip(leading(bytes, 0u8) as int),
    decreases bytes.len(),
{
    lemma_run_end_holds(bytes, 0u8, 0);
    lemma_be_value_zero(bytes);
    let zeros = leading(bytes, 0u8) as int;
    if be_value(bytes) == 0 {
        assert(zeros == bytes.len());
        assert(bytes.skip(zeros) =~= be_bytes(0));
    } else {
        let front = bytes.drop_last();
        lemma_be_bytes_of_value(front);
        lemma_run_end_holds(front, 0u8, 0);
        lemma_be_value_zero(front);
        let before = leading(front, 0u8) as int;
        if before < front.len() {
            assert(front[before] == bytes[before]);
        }
        assert forall|i: int| 0 <= i < before implies bytes[i] == 0u8 by {
            assert(front[i] == bytes[i]);
        }
        lemma_run_end_is(bytes, 0u8, 0, before);
        let n = be_value(bytes);
        assert(n / 256 == be_value(front) && n % 256 == bytes.last() as nat);
        assert(bytes.skip(zeros) =~= front.skip(before).push(bytes.last()));
    }
}

/// Round trip: the Base58 text of bytes is made of symbols, and stands for
/// just these bytes.
pub proof fn lemma_base58_round_trip(bytes: Seq<u8>)
    ensures
        is_base58(base58_text(bytes)),
        base58_bytes(base58_text(bytes)) == bytes,
{
    lemma_alphabet();
    let zeros = leading(bytes, 0u8);
    let n = be_value(bytes);
    let digits = digits58(n);
    let text = base58_text(bytes);
    lemma_digits58_range(n);
    lemma_symbol_value(0);
    assert forall|i: int| 0 <= i < text.len() implies symbol_value(#[trigger] text[i]) < 58 by {
        if i >= zeros {
            lemma_symbol_value(digits[i - zeros] as int);
        }
    }
    assert forall|i: int| 0 <= i < zeros implies text[i] == '1' by {}
    if zeros < text.len() {
        lemma_symbol_value(digits[0] as int);
        assert(text[zeros as int] == alphabet()[digits[0] as int]);
    }
    lemma_run_end_is(text, '1', 0, zeros as int);
    lemma_value58_after_ones(zeros, symbols(digits));
    lemma_value58_of_digits(n);
    lemma_be_bytes_of_value(bytes);
    lemma_run_end_holds(bytes, 0u8, 0);
    assert(repeat(0u8, zeros) + bytes.skip(zeros as int) =~= bytes);
}

/// The values of the symbols of a text.
pub open spec fn symbol_values(text: Seq<char>) -> Seq<u8> {
    Seq::new(text.len(), |i: int| symbol_value(text[i]) as u8)
}

proof fn lemma_be_bytes_range(n: nat)
    ensures
        n > 0 ==> be_bytes(n).len() > 0 && be_bytes(n)[0] != 0,
    decreases n,
{
    if n > 0 {
        lemma_be_bytes_range(n / 256);
        let front = be_bytes(n / 256);
        let last = (n % 256) as u8;
        assert(be_bytes(n) == front.push(last));
        if n / 256 > 0 {
            assert(be_bytes(n)[0] == front[0]);
        } else {
            assert(front.len() == 0);
            assert(be_bytes(n)[0] == last);
        }
    }
}

proof fn lemma_be_value_of_bytes(n: nat)
    ensures
        be_value(be_bytes(n)) == n,
    decreases n,
{
    if n > 0 {
        lemma_be_value_of_bytes(n / 256);
        assert(be_bytes(n).drop_last() =~= be_bytes(n / 256));
    }
}

proof fn lemma_be_value_after_zeros(count: nat, rest: Seq<u8>)
    ensures
        be_value(repeat(0u8, count) + rest) == be_value(rest),
    decreases rest.len(), count,
{
    let bytes = repeat(0u8, count) + rest;
    if rest.len() > 0 {
        assert(bytes.drop_last() =~= repeat(0u8, count) + rest.drop_last());
        lemma_be_value_after_zeros(count, rest.drop_last());
    } else if count > 0 {
        assert(bytes.drop_last() =~= repeat(0u8, (count - 1) as nat) + rest);
        lemma_be_value_after_zeros((count - 1) as nat, rest);
    } else {
        assert(bytes =~= rest);
    }
}

/// A text of symbols that does not begin with the symbol of zero writes a
/// number whose digits are the values of its symbols.
proof fn lemma_digits58_of_value(text: Seq<char>)
    requires
        is_base58(text),
        text.len() > 0 ==> symbol_value(text[0]) != 0,
    ensures
        digits58(value58(text)) == symbol_values(text),
        text.len() > 0 ==> value58(text) > 0,
    decreases text.len(),
{
    if text.len() == 0 {
        assert(symbol_values(text) =~= Seq::<u8>::empty());
    } else {
        let front = text.drop_last();
        let d = symbol_value(text.last());
        assert(symbol_value(text[text.len() - 1]) < 58);
        assert forall|i: int| 0 <= i < front.len() implies symbol_value(#[trigger] front[i]) < 58 by {
            assert(front[i] == text[i]);
        }
        if front.len() > 0 {
            assert(front[0] == text[0]);
        }
        lemma_digits58_of_value(front);
        let n = value58(text);
        assert(n == value58(front) * 58 + d);
        assert(n / 58 == value58(front) && n % 58 == d);
        assert(symbol_values(text) =~= symbol_values(front).push(d as u8));
    }
}

/// Round trip: the bytes that a text of symbols stands for have this text
/// as their Base58 text.
pub proof fn lemma_base58_round_trip_text(text: Seq<char>)
    requires
        is_base58(text),
    ensures
        base58_text(base58_bytes(text)) == text,
{
    lemma_alphabet();
    lemma_symbol_value(0);
    lemma_run_end_holds(text, '1', 0);
    let ones = leading(text, '1');
    let rest = text.skip(ones as int);
    let n = value58(text);
    let bytes = base58_bytes(text);
    assert(text =~= repeat('1', ones) + rest);
    lemma_value58_after_ones(ones, rest);
    lemma_be_bytes_range(n);
    assert forall|i: int| 0 <= i < ones implies bytes[i] == 0u8 by {}
    if ones < bytes.len() {
        assert(bytes[ones as int] == be_bytes(n)[0]);
    }
    lemma_run_end_is(bytes, 0u8, 0, ones as int);
    lemma_be_value_after_zeros(ones, be_bytes(n));
    lemma_be_value_of_bytes(n);
    assert forall|i: int| 0 <= i < rest.len() implies symbol_value(#[trigger] rest[i]) < 58 by {
        assert(rest[i] == text[ones + i]);
    }
    if rest.len() > 0 {
        assert(rest[0] == text[ones as int]);
        lemma_find_sep_bounds(alphabet(), rest[0], 0);
    }
    lemma_digits58_of_value(rest);
    assert forall|i: int| 0 <= i < rest.len() implies alphabet()[symbol_values(rest)[i] as int]
        == rest[i] by {
        lemma_find_sep_bounds(alphabet(), rest[i], 0);
    }
    assert(symbols(symbol_values(rest)) =~= rest);
}

} // verus!
