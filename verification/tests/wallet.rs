use btc_toolkit::wallet::{to_hex_lower, Byte32Array, WalletLoader, HEX_DIGITS};

fn sample() -> WalletLoader {
    let key: Byte32Array = core::array::from_fn(|i| i as u8);
    WalletLoader::new("mqx7S1".to_string(), key, "tb1ql7".to_string())
}

#[test]
fn getters_return_the_fields() {
    let w = sample();
    assert_eq!(w.p2pkh_address(), "mqx7S1");
    assert_eq!(w.faucet_address(), "tb1ql7");
    let key: Byte32Array = core::array::from_fn(|i| i as u8);
    assert_eq!(w.secret_key_bytes(), &key);
}

#[test]
fn hex_is_lowercase_high_half_first() {
    assert_eq!(HEX_DIGITS, "0123456789abcdef");
    assert_eq!(to_hex_lower(&[]), "");
    assert_eq!(to_hex_lower(&[0x00, 0xff, 0x1a, 0xa1, 0x09, 0x90]), "00ff1aa10990");
}

#[test]
fn secret_key_is_shown_as_its_hash() {
    let w = sample();
    let shown = w.secret_key_hash();
    assert_eq!(shown, blake3::hash(w.secret_key_bytes()).to_hex().to_string());
    assert_eq!(shown.len(), 64);
    assert_ne!(shown, to_hex_lower(w.secret_key_bytes()));
}

#[test]
fn hash_of_the_zero_key() {
    let w = WalletLoader::new(String::new(), [0u8; 32], String::new());
    assert_eq!(w.secret_key_hash(), blake3::hash(&[0u8; 32]).to_hex().to_string());
    assert_ne!(w.secret_key_hash(), sample().secret_key_hash());
}
