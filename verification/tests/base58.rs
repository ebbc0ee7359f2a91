use btc_toolkit::base58::{from_base58, is_base58_text, to_base58, Base58Check, ALPHABET};

fn unhex(s: &str) -> Vec<u8> {
    (0..s.len() / 2)
        .map(|i| u8::from_str_radix(&s[2 * i..2 * i + 2], 16).unwrap())
        .collect()
}

#[test]
fn encodes_known_values() {
    assert_eq!(to_base58(&[]), "");
    assert_eq!(to_base58(&[0]), "1");
    assert_eq!(to_base58(&[0, 0, 0, 0]), "1111");
    assert_eq!(to_base58(&[0, 1]), "12");
    assert_eq!(to_base58(&[57]), "z");
    assert_eq!(to_base58(&[58]), "21");
    assert_eq!(to_base58(&[0xff]), "5Q");
    assert_eq!(to_base58(b"Hello World!"), "2NEpo7TZRRrLZSi2U");
    assert_eq!(
        to_base58(b"The quick brown fox jumps over the lazy dog."),
        "USm3fpXnKG5EUBx2ndxBDMPVciP5hGey2Jh4NDv6gmeo1LkMeiKrLJUUBk6Z"
    );
}

#[test]
fn encodes_a_mutable_slice() {
    let mut bytes = vec![0u8, 0, 0, 0, 1, 2, 3, 4];
    assert_eq!(to_base58(&mut bytes), "11112VfUX");
}

#[test]
fn decodes_known_values() {
    assert_eq!(from_base58(""), Vec::<u8>::new());
    assert_eq!(from_base58("1"), vec![0]);
    assert_eq!(from_base58("1111"), vec![0, 0, 0, 0]);
    assert_eq!(from_base58("12"), vec![0, 1]);
    assert_eq!(from_base58("21"), vec![58]);
    assert_eq!(from_base58("211"), vec![0x0d, 0x24]);
    assert_eq!(from_base58("5Q"), vec![0xff]);
    assert_eq!(from_base58("2NEpo7TZRRrLZSi2U"), b"Hello World!".to_vec());
}

#[test]
fn values_beyond_a_machine_word_are_exact() {
    let bytes = unhex("00010966776006953d5567439e5e39f86a0d273beed61967f6");
    assert_eq!(to_base58(&bytes), "16UwLL9Risc3QfPqBUvKofHmBQ7wMtjvM");
    assert_eq!(from_base58("16UwLL9Risc3QfPqBUvKofHmBQ7wMtjvM"), bytes);
}

#[test]
fn tells_base58_text_from_other_text() {
    assert!(is_base58_text(""));
    assert!(is_base58_text(ALPHABET));
    for bad in ["0", "O", "I", "l", "1 2", "abc+", "é"] {
        assert!(!is_base58_text(bad), "{}", bad);
    }
}

#[test]
fn agrees_with_the_bitcoin_crate() {
    let mut state: u64 = 0x2545_f491_4f6c_dd1d;
    for round in 0..300usize {
        let len = round % 40;
        let zeros = round % 4;
        let mut bytes = vec![0u8; zeros];
        for _ in 0..len {
            state ^= state << 13;
            state ^= state >> 7;
            state ^= state << 17;
            bytes.push((state >> 24) as u8);
        }
        let text = to_base58(&bytes);
        assert_eq!(text, bitcoin::base58::encode(&bytes));
        assert!(is_base58_text(&text));
        assert_eq!(from_base58(&text), bytes);
        assert_eq!(from_base58(&text), bitcoin::base58::decode(&text).unwrap());
    }
}

#[test]
fn new_base58check_is_empty() {
    let b = Base58Check::new();
    assert!(b.prefix.is_empty() && b.payload.is_empty() && b.checksum.is_empty());
    assert_eq!(b.build(), Vec::<u8>::new());
}

#[test]
fn builder_appends_its_parts() {
    let b = Base58Check::new()
        .add_prefix(&[1, 2])
        .add_payload(&[3])
        .add_prefix(&[4])
        .add_payload(&[5, 6]);
    assert_eq!(b.prefix, vec![1, 2, 4]);
    assert_eq!(b.payload, vec![3, 5, 6]);
    assert!(b.checksum.is_empty());
    assert_eq!(b.build(), vec![1, 2, 4, 3, 5, 6]);
}

#[test]
fn checksum_is_the_start_of_the_double_digest() {
    let payload = unhex("010966776006953d5567439e5e39f86a0d273bee");
    let b = Base58Check::new().add_prefix(&[0]).add_payload(&payload).calc_checksum();
    assert_eq!(b.checksum, unhex("d61967f6"));
    let bytes = b.build();
    assert_eq!(bytes, unhex("00010966776006953d5567439e5e39f86a0d273beed61967f6"));
    assert_eq!(to_base58(&bytes), "16UwLL9Risc3QfPqBUvKofHmBQ7wMtjvM");
}

#[test]
fn checksum_of_nothing() {
    // SHA-256 twice of the empty input begins with 5d f6 e0 e2.
    let b = Base58Check::new().calc_checksum();
    assert_eq!(b.checksum, unhex("5df6e0e2"));
    let twice = b.calc_checksum();
    assert_eq!(twice.checksum, unhex("5df6e0e25df6e0e2"));
}

#[test]
fn checksum_reads_prefix_then_payload() {
    let a = Base58Check::new().add_prefix(&[1, 2]).add_payload(&[3]).calc_checksum();
    let b = Base58Check::new().add_prefix(&[1]).add_payload(&[2, 3]).calc_checksum();
    let c = Base58Check::new().add_prefix(&[3]).add_payload(&[1, 2]).calc_checksum();
    assert_eq!(a.checksum, b.checksum);
    assert_ne!(a.checksum, c.checksum);
    assert_eq!(a.checksum.len(), 4);
}

#[test]
fn prefix_payload_checksum_as_in_the_program() {
    let key = [0xde, 0xad, 0xbe, 0xef];
    let bytes = Base58Check::new()
        .add_prefix(&[0u8, 0, 0, 0])
        .add_payload(&key)
        .calc_checksum()
        .build();
    assert_eq!(bytes.len(), 12);
    let text = to_base58(&bytes);
    assert_eq!(text, bitcoin::base58::encode(&bytes));
    assert_eq!(from_base58(&text), bitcoin::base58::decode(&text).unwrap());
}
