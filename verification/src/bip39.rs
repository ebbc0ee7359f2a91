//! Mnemonic phrases: random bytes and a checksum byte are cut into words
//! of eleven bits, each of which selects a word of a word list; a seed is
//! derived from a phrase and a passphrase.

use crate::digest::{pbkdf2_sha512, pbkdf2_sha512_key, sha256, sha256_digest};
use crate::entropy::Entropy;
use crate::text::{chars_of, trim, trim_window};
use crate::transaction::texts;
use vstd::arithmetic::power2::{lemma2_to64, lemma_pow2_strictly_increases, lemma_pow2_unfold, pow2};
use vstd::prelude::*;
use vstd::string::StrSliceExecFns;
use vstd::string::StringExecFns;
use vstd::utf8::encode_utf8;

verus! {

/// The number of rounds of the key derivation.
pub const ITERATION_COUNT: u32 = 2048;

/// What the salt of the key derivation begins with.
pub const SALT_PREFIX: &'static str = "mnemonic";

/// `std::io::Error`, of which nothing is read here: the seed functions
/// name it as the error that they never return.
#[verifier::external_type_specification]
#[verifier::external_body]
pub struct ExIoError(std::io::Error);

/// The state of a generator: the word indices computed so far, the bytes
/// that they were last computed from, and the place of the word list.
#[derive(Debug, Default)]
pub struct Bip39Generator {
    pub mnemonic_index: Vec<u16>,
    pub appended: Vec<u8>,
    pub path: String,
}

/// Bit `p` of the bytes, the highest bit of the first byte being bit 0.
pub open spec fn bit_at(bytes: Seq<u8>, p: int) -> bool {
    (bytes[p / 8] >> ((7 - p % 8) as u8)) & 1u8 == 1u8
}

/// The number that the `count` bits from bit `start` on write, the first
/// counting most.
pub open spec fn bits_value(bytes: Seq<u8>, start: int, count: nat) -> nat
    decreases count,
{
    if count == 0 {
        0
    } else {
        2 * bits_value(bytes, start, (count - 1) as nat) + if bit_at(bytes, start + count - 1) {
            1nat
        } else {
            0nat
        }
    }
}

/// The word indices of the bytes: the values of the groups of eleven bits,
/// as many as are complete.
pub open spec fn word_indices(bytes: Seq<u8>) -> Seq<u16> {
    Seq::new((bytes.len() * 8 / 11) as nat, |c: int| bits_value(bytes, 11 * c, 11) as u16)
}

/// The checksum byte of the random bytes: the first byte of their SHA-256
/// digest, shifted right by one bit for each four of them.
pub open spec fn checksum_byte(entropy: Seq<u8>) -> u8 {
    sha256_digest(entropy)[0] >> ((entropy.len() / 4) as u8)
}

/// The random bytes and, after them, their checksum byte.
pub open spec fn with_checksum(entropy: Seq<u8>) -> Seq<u8> {
    entropy.push(checksum_byte(entropy))
}

/// The words one after the other, a space after each.
pub open spec fn spaced(words: Seq<Seq<char>>) -> Seq<char>
    decreases words.len(),
{
    if words.len() == 0 {
        Seq::empty()
    } else {
        spaced(words.drop_last()) + words.last() + seq![' ']
    }
}

/// The words that the indices select.
pub open spec fn selected_words(wordlist: Seq<Seq<char>>, indices: Seq<u16>) -> Seq<Seq<char>> {
    Seq::new(indices.len(), |i: int| wordlist[indices[i] as int])
}

/// The phrase of the indices: their words with a space between them,
/// without white space at its ends.
pub open spec fn phrase(wordlist: Seq<Seq<char>>, indices: Seq<u16>) -> Seq<char> {
    trim(spaced(selected_words(wordlist, indices)))
}

/// The seed of a phrase and a passphrase: the key that PBKDF2 derives from
/// the phrase, with a salt made of the salt prefix and the passphrase.
pub open spec fn seed_of(mnemonic: Seq<char>, passphrase: Seq<char>) -> Seq<u8> {
    pbkdf2_sha512_key(
        encode_utf8(mnemonic),
        encode_utf8("mnemonic"@ + passphrase),
        ITERATION_COUNT,
    )
}

/// A number of `count` bits is below two to the power `count`.
pub proof fn lemma_bits_value_bound(bytes: Seq<u8>, start: int, count: nat)
    ensures
        bits_value(bytes, start, count) < pow2(count),
    decreases count,
{
    if count == 0 {
        lemma2_to64();
    } else {
        lemma_bits_value_bound(bytes, start, (count - 1) as nat);
        lemma_pow2_unfold(count);
    }
}

/// Every word index is below 2048.
pub proof fn lemma_word_indices_bound(bytes: Seq<u8>, c: int)
    requires
        0 <= c < word_indices(bytes).len(),
    ensures
        word_indices(bytes)[c] < 2048,
        word_indices(bytes)[c] == bits_value(bytes, 11 * c, 11),
{
    lemma_bits_value_bound(bytes, 11 * c, 11);
    lemma2_to64();
}

impl Bip39Generator {
    /// A generator for the word list at `path_to_wordlist`.
    pub fn new(path_to_wordlist: &str) -> (g: Self)
        ensures
            g.path@ == path_to_wordlist@,
            g.mnemonic_index@.len() == 0,
            g.appended@.len() == 0,
    {
        Bip39Generator {
            mnemonic_index: Vec::new(),
            appended: Vec::new(),
            path: path_to_wordlist.to_owned(),
        }
    }

    /// The seed of a phrase without a passphrase.
    pub fn insecure_seed(mnemonic: &str) -> (r: Result<Vec<u8>, std::io::Error>)
        ensures
            r is Ok,
            r->Ok_0@ == seed_of(mnemonic@, Seq::empty()),
    {
        Self::seed(mnemonic, None)
    }

    /// The seed of a phrase with a passphrase.
    pub fn secure_seed(mnemonic: &str, passphrase: &str) -> (r: Result<Vec<u8>, std::io::Error>)
        ensures
            r is Ok,
            r->Ok_0@ == seed_of(mnemonic@, passphrase@),
    {
        Self::seed(mnemonic, Some(passphrase))
    }

    /// The seed of a phrase and, where there is one, a passphrase.
    pub fn seed(mnemonic: &str, passphrase: Option<&str>) -> (r: Result<Vec<u8>, std::io::Error>)
        ensures
            r is Ok,
            r->Ok_0@ == seed_of(
                mnemonic@,
                match passphrase {
                    Some(p) => p@,
                    None => Seq::empty(),
                },
            ),
    {
        let salt = match passphrase {
            Some(passphrase_required) => String::from_str(SALT_PREFIX).concat(passphrase_required),
            None => {
                let plain = String::from_str(SALT_PREFIX);
                assert(plain@ =~= "mnemonic"@ + Seq::<char>::empty());
                plain
            },
        };
        let wallet_seed = pbkdf2_sha512(
            mnemonic.as_bytes(),
            salt.as_str().as_bytes(),
            ITERATION_COUNT,
        );
        let mut out: Vec<u8> = Vec::new();
        let mut i: usize = 0;
        while i < 64
            invariant
                i <= 64,
                out@ == wallet_seed@.take(i as int),
            decreases 64 - i,
        {
            out.push(wallet_seed[i]);
            assert(out@ =~= wallet_seed@.take(i + 1));
            i = i + 1;
        }
        assert(wallet_seed@.take(64) =~= wallet_seed@);
        Ok(out)
    }

    /// Keeps the random bytes with their checksum byte after them.
    pub fn generate_checksum<const N: usize>(&mut self, entropy: [u8; N])
        requires
            N < 32,
        ensures
            final(self).appended@ == with_checksum(entropy@),
            final(self).mnemonic_index == old(self).mnemonic_index,
            final(self).path == old(self).path,
    {
        let entropy_hash = sha256(entropy.as_slice());
        let bits_of_checksum: u8 = (N / 4) as u8;
        let significant: u8 = entropy_hash[0] >> bits_of_checksum;
        let mut appended: Vec<u8> = Vec::new();
        let mut i: usize = 0;
        while i < N
            invariant
                i <= N,
                appended@ == entropy@.take(i as int),
            decreases N - i,
        {
            appended.push(entropy[i]);
            assert(appended@ =~= entropy@.take(i + 1));
            i = i + 1;
        }
        assert(entropy@.take(N as int) =~= entropy@);
        appended.push(significant);
        self.appended = appended;
    }

    /// Appends the word indices of the kept bytes to the indices.
    pub fn compute(&mut self)
        ensures
            final(self).mnemonic_index@ == old(self).mnemonic_index@ + word_indices(old(self).appended@),
            forall|i: int|
                old(self).mnemonic_index@.len() <= i < final(self).mnemonic_index@.len() ==> (
                #[trigger] final(self).mnemonic_index@[i]) < 2048,
            final(self).appended == old(self).appended,
            final(self).path == old(self).path,
    {
        let ghost bytes = self.appended@;
        let ghost before = self.mnemonic_index@;
        let len = self.appended.len();
        let chunks: usize = len / 11 * 8 + len % 11 * 8 / 11;
        assert(chunks == len * 8 / 11);
        let mut byte: usize = 0;
        let mut offset: u8 = 0;
        let mut c: usize = 0;
        assert(self.mnemonic_index@ =~= before + word_indices(bytes).take(0));
        while c < chunks
            invariant
                c <= chunks,
                chunks == word_indices(bytes).len(),
                chunks == bytes.len() * 8 / 11,
                bytes == self.appended@,
                self.appended == old(self).appended,
                self.path == old(self).path,
                offset < 8,
                byte * 8 + offset == 11 * c,
                self.mnemonic_index@ == before + word_indices(bytes).take(c as int),
            decreases chunks - c,
        {
            let mut value: u16 = 0;
            let mut i: usize = 0;
            proof {
                lemma2_to64();
            }
            while i < 11
                invariant
                    i <= 11,
                    c < chunks,
                    chunks == bytes.len() * 8 / 11,
                    bytes == self.appended@,
                    offset < 8,
                    byte * 8 + offset == 11 * c + i,
                    value == bits_value(bytes, 11 * c, i as nat),
                    value < pow2(i as nat),
                decreases 11 - i,
            {
                proof {
                    lemma2_to64();
                    lemma_pow2_unfold((i + 1) as nat);
                    if i < 10 {
                        lemma_pow2_strictly_increases(i as nat, 10);
                    }
                }
                let bit = (self.appended[byte] >> (7 - offset)) & 1u8 == 1u8;
                assert(bit == bit_at(bytes, 11 * c + i));
                value = value * 2 + if bit {
                    1
                } else {
                    0
                };
                if offset == 7 {
                    assert(byte < self.appended.len());
                    offset = 0;
                    byte = byte + 1;
                } else {
                    offset = offset + 1;
                }
                i = i + 1;
            }
            self.mnemonic_index.push(value);
            proof {
                assert(word_indices(bytes)[c as int] == value);
                assert(self.mnemonic_index@ =~= before + word_indices(bytes).take(c + 1));
            }
            c = c + 1;
        }
        proof {
            assert(word_indices(bytes).take(chunks as int) =~= word_indices(bytes));
            assert forall|i: int| before.len() <= i < self.mnemonic_index@.len() implies (
            #[trigger] self.mnemonic_index@[i]) < 2048 by {
                lemma_word_indices_bound(bytes, i - before.len());
            }
        }
    }

    /// The phrase of the word indices.
    pub fn words(&self, wordlist: &Vec<String>) -> (text: String)
        requires
            forall|i: int|
                0 <= i < self.mnemonic_index@.len() ==> (#[trigger] self.mnemonic_index@[i])
                    < wordlist@.len(),
        ensures
            text@ == phrase(texts(wordlist@), self.mnemonic_index@),
    {
        let ghost words = selected_words(texts(wordlist@), self.mnemonic_index@);
        let mut line = String::new();
        let mut i: usize = 0;
        assert(words.take(0) =~= Seq::<Seq<char>>::empty());
        while i < self.mnemonic_index.len()
            invariant
                i <= self.mnemonic_index.len(),
                words == selected_words(texts(wordlist@), self.mnemonic_index@),
                forall|j: int|
                    0 <= j < self.mnemonic_index@.len() ==> (#[trigger] self.mnemonic_index@[j])
                        < wordlist@.len(),
                line@ == spaced(words.take(i as int)),
            decreases self.mnemonic_index.len() - i,
        {
            let ghost shown = line@;
            let line_number = self.mnemonic_index[i] as usize;
            line.append(wordlist[line_number].as_str());
            proof {
                reveal_strlit(" ");
            }
            line.append(" ");
            proof {
                assert(words.take(i + 1).drop_last() =~= words.take(i as int));
                assert(words.take(i + 1).last() == wordlist@[line_number as int]@);
                assert(line@ =~= shown + wordlist@[line_number as int]@ + seq![' ']);
            }
            i = i + 1;
        }
        assert(words.take(self.mnemonic_index.len() as int) =~= words);
        let chars = chars_of(line.as_str());
        let (a, b) = trim_window(&chars, 0, chars.len());
        assert(chars@.subrange(0, chars.len() as int) =~= line@);
        line.as_str().substring_char(a, b).to_owned()
    }

    /// The phrase for the random bytes `entropy`: keeps them with their
    /// checksum byte, appends their word indices, and gives the phrase of
    /// all the indices.
    pub fn mnemonic_of<const N: usize>(&mut self, entropy: [u8; N], wordlist: &Vec<String>) -> (text:
        String)
        requires
            N < 32,
            wordlist@.len() >= 2048,
            forall|i: int|
                0 <= i < old(self).mnemonic_index@.len() ==> (#[trigger] old(self).mnemonic_index@[i])
                    < wordlist@.len(),
        ensures
            final(self).appended@ == with_checksum(entropy@),
            final(self).mnemonic_index@ == old(self).mnemonic_index@ + word_indices(
                with_checksum(entropy@),
            ),
            final(self).path == old(self).path,
            forall|i: int|
                0 <= i < final(self).mnemonic_index@.len() ==> (
                #[trigger] final(self).mnemonic_index@[i]) < wordlist@.len(),
            text@ == phrase(texts(wordlist@), final(self).mnemonic_index@),
    {
        self.generate_checksum::<N>(entropy);
        self.compute();
        self.words(wordlist)
    }

    /// A phrase for `N` fresh random bytes, or `None` where the operating
    /// system gives none.
    pub fn mnemonic<const N: usize>(&mut self, wordlist: &Vec<String>) -> (r: Option<String>)
        requires
            N < 32,
            wordlist@.len() >= 2048,
            forall|i: int|
                0 <= i < old(self).mnemonic_index@.len() ==> (#[trigger] old(self).mnemonic_index@[i])
                    < wordlist@.len(),
        ensures
            match r {
                Some(text) => exists|entropy: [u8; N]|
                    {
                        &&& final(self).appended@ == #[trigger] with_checksum(entropy@)
                        &&& final(self).mnemonic_index@ == old(self).mnemonic_index@ + word_indices(
                            with_checksum(entropy@),
                        )
                        &&& text@ == phrase(texts(wordlist@), final(self).mnemonic_index@)
                    },
                None => *final(self) == *old(self),
            },
            final(self).path == old(self).path,
            forall|i: int|
                0 <= i < final(self).mnemonic_index@.len() ==> (
                #[trigger] final(self).mnemonic_index@[i]) < wordlist@.len(),
    {
        match Entropy::<N>::generate() {
            Some(entropy) => {
                let text = self.mnemonic_of::<N>(entropy.0, wordlist);
                assert(self.appended@ == with_checksum(entropy.0@));
                Some(text)
            },
            None => None,
        }
    }
}

} // verus!
