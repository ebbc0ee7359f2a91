use btc_toolkit::bip39::{Bip39Generator, ITERATION_COUNT, SALT_PREFIX};
use btc_toolkit::entropy::Entropy;
use sha2::Digest;

fn hex(bytes: &[u8]) -> String {
    bytes.iter().map(|b| format!("{:02x}", b)).collect()
}

fn wordlist() -> Vec<String> {
    (0..2048).map(|i| format!("w{}", i)).collect()
}

// Bits first, then groups of eleven.
fn indices_by_bits(bytes: &[u8]) -> Vec<u16> {
    let mut bits = vec![];
    for &byte in bytes {
        for i in (0..8).rev() {
            bits.push((byte >> i) & 1u8 == 1);
        }
    }
    let mut out = vec![];
    for chunk in bits.chunks(11) {
        if chunk.len() == 11 {
            let mut value: u16 = 0;
            for (i, &bit) in chunk.iter().enumerate() {
                if bit {
                    value |= 1u16 << (10 - i);
                }
            }
            out.push(value);
        }
    }
    out
}

const ABANDON: &str =
    "abandon abandon abandon abandon abandon abandon abandon abandon abandon abandon abandon about";

#[test]
fn constants() {
    assert_eq!(ITERATION_COUNT, 2048);
    assert_eq!(SALT_PREFIX, "mnemonic");
}

#[test]
fn new_generator_is_empty() {
    let g = Bip39Generator::new("english.txt");
    assert_eq!(g.path, "english.txt");
    assert!(g.mnemonic_index.is_empty());
    assert!(g.appended.is_empty());
}

#[test]
fn insecure_seed_of_a_known_phrase() {
    let seed = Bip39Generator::insecure_seed(ABANDON).unwrap();
    assert_eq!(
        hex(&seed),
        "5eb00bbddcf069084889a8ab9155568165f5c453ccb85e70811aaed6f6da5fc1\
         9a5ac40b389cd370d086206dec8aa6c43daea6690f20ad3d8d48b2d2ce9e38e4"
    );
}

#[test]
fn secure_seed_of_a_known_phrase() {
    let seed = Bip39Generator::secure_seed(ABANDON, "TREZOR").unwrap();
    assert_eq!(
        hex(&seed),
        "c55257c360c07c72029aebc1b53c05ed0362ada38ead3e3e9efa3708e5349553\
         1f09a6987599d18264c1e1c92f2cf141630c7a3c4ab7c81b2f001698e7463b04"
    );
}

#[test]
fn seeds_agree_with_the_key_derivation() {
    for (phrase, pass) in [("", ""), ("a b c", "x"), ("zoo wrong", "pässwörd"), (ABANDON, "BitCoin_iZ_Awesome")] {
        let mut expected = [0u8; 64];
        let salt = format!("mnemonic{}", pass);
        pbkdf2::pbkdf2_hmac::<sha2::Sha512>(phrase.as_bytes(), salt.as_bytes(), 2048, &mut expected);
        assert_eq!(Bip39Generator::secure_seed(phrase, pass).unwrap(), expected.to_vec());
        assert_eq!(Bip39Generator::seed(phrase, Some(pass)).unwrap(), expected.to_vec());
    }
    assert_eq!(
        Bip39Generator::insecure_seed(ABANDON).unwrap(),
        Bip39Generator::secure_seed(ABANDON, "").unwrap()
    );
    assert_eq!(
        Bip39Generator::insecure_seed(ABANDON).unwrap(),
        Bip39Generator::seed(ABANDON, None).unwrap()
    );
    assert_ne!(
        Bip39Generator::insecure_seed(ABANDON).unwrap(),
        Bip39Generator::secure_seed(ABANDON, "x").unwrap()
    );
}

#[test]
fn seed_generation_succeeds() {
    let insecure_seed = Bip39Generator::insecure_seed(ABANDON);
    let secure_seed = Bip39Generator::secure_seed(ABANDON, "BitCoin_iZ_Awesome");
    assert!(secure_seed.is_ok());
    assert!(insecure_seed.is_ok());
    assert_eq!(secure_seed.unwrap().len(), 64);
}

#[test]
fn compute_reads_groups_of_eleven_bits() {
    let mut g = Bip39Generator::new("x");
    g.appended = vec![0xff, 0xe0];
    g.compute();
    assert_eq!(g.mnemonic_index, vec![2047]);

    let mut g = Bip39Generator::new("x");
    g.appended = vec![0x00, 0x20, 0x04, 0x00, 0x80, 0x10, 0x02, 0x00, 0x40, 0x08, 0x01];
    g.compute();
    assert_eq!(g.mnemonic_index, vec![1; 8]);

    let mut g = Bip39Generator::new("x");
    g.appended = vec![0x80, 0x00];
    g.compute();
    assert_eq!(g.mnemonic_index, vec![1024]);
}

#[test]
fn compute_needs_eleven_bits_for_a_word() {
    for bytes in [vec![], vec![0xffu8]] {
        let mut g = Bip39Generator::new("x");
        g.appended = bytes;
        g.compute();
        assert!(g.mnemonic_index.is_empty());
    }
}

#[test]
fn compute_appends_to_what_is_there() {
    let mut g = Bip39Generator::new("x");
    g.appended = vec![0xff, 0xe0];
    g.compute();
    g.compute();
    assert_eq!(g.mnemonic_index, vec![2047, 2047]);
    assert_eq!(g.appended, vec![0xff, 0xe0]);
}

#[test]
fn compute_agrees_with_the_bits() {
    let mut state: u32 = 12345;
    for len in 0..60usize {
        let bytes: Vec<u8> = (0..len)
            .map(|_| {
                state = state.wrapping_mul(1664525).wrapping_add(1013904223);
                (state >> 16) as u8
            })
            .collect();
        let mut g = Bip39Generator::new("x");
        g.appended = bytes.clone();
        g.compute();
        assert_eq!(g.mnemonic_index, indices_by_bits(&bytes));
        assert_eq!(g.mnemonic_index.len(), len * 8 / 11);
    }
}

#[test]
fn checksum_byte_follows_the_random_bytes() {
    // SHA-256 of sixteen zero bytes begins with 0x37.
    let mut g = Bip39Generator::new("x");
    g.generate_checksum::<16>([0u8; 16]);
    let mut expected = vec![0u8; 16];
    expected.push(0x37 >> 4);
    assert_eq!(g.appended, expected);
    assert!(g.mnemonic_index.is_empty());

    // SHA-256 of the empty input begins with 0xe3; no bit is shifted out.
    let mut g = Bip39Generator::new("x");
    g.generate_checksum::<0>([]);
    assert_eq!(g.appended, vec![0xe3]);
}

#[test]
fn checksum_byte_agrees_with_the_digest() {
    let entropy: [u8; 24] = core::array::from_fn(|i| (i * 7 + 3) as u8);
    let mut g = Bip39Generator::new("x");
    g.generate_checksum::<24>(entropy);
    let digest = sha2::Sha256::digest(entropy);
    let mut expected = entropy.to_vec();
    expected.push(digest[0] >> 6);
    assert_eq!(g.appended, expected);
}

#[test]
fn words_are_joined_by_single_spaces() {
    let list = wordlist();
    let mut g = Bip39Generator::new("x");
    assert_eq!(g.words(&list), "");
    g.mnemonic_index = vec![0, 2047, 7];
    assert_eq!(g.words(&list), "w0 w2047 w7");
}

#[test]
fn phrase_is_trimmed_at_both_ends() {
    let list: Vec<String> = vec![" first".to_string(), "mid dle".to_string(), "last \t".to_string(), " ".to_string()];
    let mut g = Bip39Generator::new("x");
    g.mnemonic_index = vec![0, 1, 2, 3];
    assert_eq!(g.words(&list), "first mid dle last");
}

#[test]
fn mnemonic_of_zero_entropy() {
    let list = wordlist();
    let mut g = Bip39Generator::new("x");
    let text = g.mnemonic_of::<16>([0u8; 16], &list);
    assert_eq!(text, vec!["w0"; 12].join(" "));
    assert_eq!(g.mnemonic_index, vec![0u16; 12]);
}

#[test]
fn mnemonic_of_given_entropy_agrees_with_the_bits() {
    let list = wordlist();
    let entropy: [u8; 20] = core::array::from_fn(|i| (255 - i * 11) as u8);
    let mut g = Bip39Generator::new("x");
    let text = g.mnemonic_of::<20>(entropy, &list);
    let mut bytes = entropy.to_vec();
    bytes.push(sha2::Sha256::digest(entropy)[0] >> 5);
    let expected: Vec<String> = indices_by_bits(&bytes).iter().map(|i| format!("w{}", i)).collect();
    assert_eq!(expected.len(), 15);
    assert_eq!(text, expected.join(" "));
}

#[test]
fn mnemonic_of_fresh_entropy_has_twelve_words() {
    let list = wordlist();
    let mut g = Bip39Generator::new("x");
    let text = g.mnemonic::<16>(&list).unwrap();
    let words: Vec<&str> = text.split(' ').collect();
    assert_eq!(words.len(), 12);
    assert!(words.iter().all(|w| list.iter().any(|l| l == w)));
    assert_eq!(g.appended.len(), 17);
    assert_eq!(g.mnemonic_index, indices_by_bits(&g.appended));
    assert!(Bip39Generator::insecure_seed(&text).is_ok());
}

#[test]
fn entropy_has_the_length_asked_for() {
    let a = Entropy::<4>::generate().unwrap();
    assert_eq!(a.0.len(), 4);
    let b = Entropy::<32>::generate().unwrap();
    let c = Entropy::<32>::generate().unwrap();
    assert_eq!(b.0.len(), 32);
    assert_ne!(b, c);
    assert_eq!(Entropy::<0>::generate().unwrap().0.len(), 0);
}
