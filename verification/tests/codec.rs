use alfis_core::bytes::Bytes;
use alfis_core::commons::{to_hex, from_hex, check_domain, get_domain_zone, ascii_lowercase,
    random_string};
use alfis_core::hashing::{hash_identity, hash_difficulty, check_public_key_strength};
use alfis_core::keys::Keystore;
use alfis_core::transaction::{Transaction, tx_from_text};
use alfis_core::block::Block;
use alfis_core::constants::KEYSTORE_DIFFICULTY;

fn keystore(tag: u8) -> Keystore {
    let mut i: u32 = 0;
    loop {
        let mut seed = vec![0u8; 32];
        seed[0] = tag;
        seed[1] = (i & 0xff) as u8;
        seed[2] = ((i >> 8) & 0xff) as u8;
        let ks = Keystore::from_secret(Bytes::from_vec(seed)).unwrap();
        if check_public_key_strength(&ks.get_public(), KEYSTORE_DIFFICULTY) {
            return ks;
        }
        i += 1;
    }
}

#[test]
fn test_check_domain() {
    assert!(check_domain("abc0", false));
    assert!(!check_domain("ab.c", false));
    assert!(check_domain("a.b.c", true));
    assert!(!check_domain("ab..c", true));
    assert!(check_domain("a-b.c", true));
    assert!(!check_domain("a--b.c", true));
    assert!(check_domain("a-0-b.c", true));
    assert!(!check_domain("-ab.c", true));
    assert!(!check_domain("ab.c-", true));
    assert!(!check_domain(".ab.c", true));
    assert!(!check_domain("ab.c-", true));
}

#[test]
fn hex_encoding_round_trip() {
    assert_eq!(to_hex(&[0xDE, 0xAD, 0x01]), "DEAD01");
    assert_eq!(to_hex(&[]), "");
    assert_eq!(from_hex("DEAD01").unwrap(), vec![0xDE, 0xAD, 0x01]);
    assert_eq!(from_hex("dead01").unwrap(), vec![0xDE, 0xAD, 0x01]);
    assert!(from_hex("xz").is_none());
    assert!(from_hex("ABC").is_none());
    assert_eq!(from_hex("").unwrap(), Vec::<u8>::new());
}

#[test]
fn transaction_text_round_trip() {
    let tx = Transaction {
        identity: Bytes::from_bytes(&[0xAB, 0xCD]),
        confirmation: Bytes::from_bytes(&[]),
        class: String::from("domain"),
        data: String::from("{\"zone\":\"alfis\",\"records\":[1;2=3]}"),
        pub_key: Bytes::from_bytes(&[0x01, 0x02]),
    };
    let text = tx.to_text();
    assert_eq!(
        text,
        "class=domain;confirmation=;identity=ABCD;pub_key=0102;data={\"zone\":\"alfis\",\"records\":[1;2=3]}"
    );
    let back = tx_from_text(text.as_str()).unwrap();
    assert!(back == tx);
    assert!(tx_from_text("not a transaction").is_none());
}

#[test]
fn block_bytes_round_trip() {
    let ks = keystore(1);
    let tx = Transaction {
        identity: hash_identity("bob.alfis"),
        confirmation: Bytes::default(),
        class: String::from("domain"),
        data: String::from("{\"zone\":\"alfis\"}"),
        pub_key: ks.get_public(),
    };
    let mut block = Block::new(Some(tx), ks.get_public(), Bytes::from_bytes(&[9; 32]), 4);
    block.index = 2;
    block.timestamp = 1600000777;
    block.nonce = 42;
    block.random = 7;
    block.hash = block.content_hash();
    block.signature = ks.sign(&block.as_bytes());
    let bytes = block.serialize();
    let back = Block::deserialize(&bytes).unwrap();
    assert_eq!(back.index, block.index);
    assert_eq!(back.timestamp, block.timestamp);
    assert_eq!(back.nonce, block.nonce);
    assert!(back.hash == block.hash);
    assert!(back.content_hash() == block.content_hash());
    assert!(back.transaction.is_some());
    assert!(Block::deserialize(&bytes[..bytes.len() - 1]).is_none());

    let locker = Block::new(None, ks.get_public(), Bytes::default(), 4);
    let locker_back = Block::deserialize(&locker.serialize()).unwrap();
    assert!(locker_back.transaction.is_none());
    assert!(locker_back.content_hash() == locker.content_hash());
}

#[test]
fn tail_u64_reads_last_bytes() {
    let b = Bytes::from_bytes(&[0xFF, 1, 2, 3, 4, 5, 6, 7, 8]);
    assert_eq!(b.get_tail_u64(), 0x0102030405060708);
    let short = Bytes::from_bytes(&[1, 2]);
    assert_eq!(short.get_tail_u64(), 0x0102);
    assert_eq!(Bytes::default().get_tail_u64(), 0);
}

#[test]
fn leading_zero_bits_values() {
    assert_eq!(hash_difficulty(&[]), 0);
    assert_eq!(hash_difficulty(&[0xFF, 0]), 0);
    assert_eq!(hash_difficulty(&[0, 0, 0b0001_0000]), 19);
    assert_eq!(hash_difficulty(&[0, 0, 0]), 24);
}

#[test]
fn lowercase_and_zone_helpers() {
    assert_eq!(ascii_lowercase("AbC.Zone"), "abc.zone");
    assert_eq!(ascii_lowercase("x!Y"), "x!y");
    assert_eq!(get_domain_zone("bob.alfis"), "alfis");
    assert_eq!(get_domain_zone("alfis"), "alfis");
    assert_eq!(get_domain_zone("a.b.c"), "c");
    assert_eq!(get_domain_zone("dot.at.end."), "");
}

#[test]
fn random_string_has_length_and_charset() {
    let s = random_string(16);
    assert_eq!(s.chars().count(), 16);
    for c in s.chars() {
        assert!(c.is_ascii_alphanumeric() || c == '!' || c == '?');
    }
    assert_eq!(random_string(0), "");
}

#[test]
fn signatures_and_hashes_detect_tampering() {
    let ks = keystore(2);
    let mut block = Block::new(None, ks.get_public(), Bytes::default(), 1);
    block.index = 1;
    block.timestamp = 1600000000;
    block.hash = block.content_hash();
    block.signature = ks.sign(&block.as_bytes());
    assert!(block.check_hash());
    assert!(block.check_signature());

    let mut wrong_sig = block.clone();
    let mut sig = Vec::new();
    sig.extend_from_slice(wrong_sig.signature.as_slice());
    sig[0] ^= 1;
    wrong_sig.signature = Bytes::from_vec(sig);
    assert!(!wrong_sig.check_signature());

    let mut wrong_body = block.clone();
    wrong_body.nonce += 1;
    assert!(!wrong_body.check_hash());
    assert!(!wrong_body.check_signature());

    assert!(hash_identity("a") != hash_identity("b"));
}

#[test]
fn identity_binds_name_and_confirmation() {
    let tx = Transaction {
        identity: hash_identity("bob.alfis"),
        confirmation: Bytes::default(),
        class: String::from("domain"),
        data: String::new(),
        pub_key: Bytes::from_bytes(&[1]),
    };
    assert!(tx.check_identity("bob.alfis"));
    assert!(!tx.check_identity("alice.alfis"));
}
