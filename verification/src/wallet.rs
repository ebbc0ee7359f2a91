//! The record of a wallet: two addresses and a secret key.

use crate::digest::{blake3, blake3_digest};
use vstd::prelude::*;
use vstd::string::StrSliceExecFns;
use vstd::string::StringExecFns;

verus! {

/// The bytes of a secret key.
pub type Byte32Array = [u8; 32];

/// The sixteen hexadecimal digits, in the order of their values.
pub const HEX_DIGITS: &'static str = "0123456789abcdef";

/// The digits as a sequence.
pub open spec fn hex_digits() -> Seq<char> {
    "0123456789abcdef"@
}

/// The bytes in lowercase hexadecimal: two digits for each byte, the high
/// half first.
pub open spec fn hex_lower(bytes: Seq<u8>) -> Seq<char> {
    Seq::new(
        2 * bytes.len(),
        |i: int|
            if i % 2 == 0 {
                hex_digits()[bytes[i / 2] as int / 16]
            } else {
                hex_digits()[bytes[i / 2] as int % 16]
            },
    )
}

/// The bytes in lowercase hexadecimal.
pub fn to_hex_lower(bytes: &[u8]) -> (text: String)
    ensures
        text@ == hex_lower(bytes@),
{
    proof {
        reveal_strlit("0123456789abcdef");
        assert(vstd::utf8::is_ascii_chars(hex_digits()));
    }
    let mut text = String::new();
    let mut i: usize = 0;
    assert(text@ =~= hex_lower(bytes@.take(0)));
    while i < bytes.len()
        invariant
            i <= bytes.len(),
            vstd::string::is_ascii(HEX_DIGITS),
            HEX_DIGITS@ == hex_digits(),
            hex_digits().len() == 16,
            text@ == hex_lower(bytes@.take(i as int)),
        decreases bytes.len() - i,
    {
        let high = (bytes[i] / 16) as usize;
        let low = (bytes[i] % 16) as usize;
        let ghost shown = text@;
        let first = HEX_DIGITS.substring_ascii(high, high + 1);
        text.append(first);
        let second = HEX_DIGITS.substring_ascii(low, low + 1);
        text.append(second);
        assert(text@ =~= hex_lower(bytes@.take(i + 1))) by {
            assert(first@ =~= seq![hex_digits()[high as int]]);
            assert(second@ =~= seq![hex_digits()[low as int]]);
            assert(text@ =~= shown.push(hex_digits()[high as int]).push(hex_digits()[low as int]));
        }
        i = i + 1;
    }
    assert(bytes@.take(bytes.len() as int) =~= bytes@);
    text
}

/// A wallet as it is kept on disk.
pub struct WalletLoader {
    pub p2pkh_address: String,
    pub secret_key_bytes: Byte32Array,
    pub faucet_address: String,
}

impl WalletLoader {
    /// A record of these three values.
    pub fn new(p2pkh_address: String, secret_key_bytes: Byte32Array, faucet_address: String) -> (w:
        Self)
        ensures
            w.p2pkh_address == p2pkh_address,
            w.secret_key_bytes == secret_key_bytes,
            w.faucet_address == faucet_address,
    {
        WalletLoader { p2pkh_address, secret_key_bytes, faucet_address }
    }

    /// The wallet's own address.
    pub fn p2pkh_address(&self) -> (r: &str)
        ensures
            r@ == self.p2pkh_address@,
    {
        self.p2pkh_address.as_str()
    }

    /// The secret key.
    pub fn secret_key_bytes(&self) -> (r: &Byte32Array)
        ensures
            *r == self.secret_key_bytes,
    {
        &self.secret_key_bytes
    }

    /// The address that coins are returned to.
    pub fn faucet_address(&self) -> (r: &str)
        ensures
            r@ == self.faucet_address@,
    {
        self.faucet_address.as_str()
    }

    /// What stands for the secret key where the record is shown: the
    /// BLAKE3 hash of the key, in lowercase hexadecimal.
    pub fn secret_key_hash(&self) -> (text: String)
        ensures
            text@ == hex_lower(blake3_digest(self.secret_key_bytes@)),
    {
        let hash = blake3(self.secret_key_bytes.as_slice());
        to_hex_lower(hash.as_slice())
    }
}

} // verus!
