use acrostic_storage::block::{Block, Transaction, TransactionData, TransactionType};
use acrostic_storage::codec::{decode_transaction, encode_transaction};
use acrostic_storage::crypto::{decrypt, encrypt, generate_keypair, hash_of, sign, verify};
use acrostic_storage::storage::BlockchainStorage;

fn record(
    key: &str,
    value: Vec<u8>,
    transaction_type: TransactionType,
    timestamp: i64,
) -> Transaction {
    Transaction {
        transaction_type,
        data: TransactionData {
            key: key.to_string(),
            value,
            metadata: Vec::new(),
        },
        timestamp,
        signature: Vec::new(),
        public_key: Vec::new(),
    }
}

fn empty_ledger() -> BlockchainStorage {
    BlockchainStorage::new(Vec::new(), Vec::new())
}

#[test]
fn hash_is_32_bytes_and_deterministic() {
    let a = hash_of(&vec![1u8, 2, 3]);
    let b = hash_of(&vec![1u8, 2, 3]);
    assert_eq!(a.as_bytes().len(), 32);
    assert_eq!(a.as_bytes(), b.as_bytes());
    let c = hash_of(&vec![1u8, 2, 4]);
    assert_ne!(a.as_bytes(), c.as_bytes());
    let e = hash_of(&Vec::new());
    assert_eq!(e.as_bytes().len(), 32);
    assert_ne!(e.as_bytes(), &Vec::<u8>::new());
}

#[test]
fn sign_verify_round_trip() {
    let kp = generate_keypair();
    let msg = b"hello ledger".to_vec();
    let sig = sign(&msg, &kp);
    assert_eq!(sig.len(), 64);
    assert!(verify(&msg, &sig, kp.public_key()));
}

#[test]
fn verify_rejects_changed_message() {
    let kp = generate_keypair();
    let msg = b"original".to_vec();
    let sig = sign(&msg, &kp);
    let other = b"originam".to_vec();
    assert!(!verify(&other, &sig, kp.public_key()));
}

#[test]
fn verify_rejects_other_key() {
    let kp1 = generate_keypair();
    let kp2 = generate_keypair();
    let msg = b"message".to_vec();
    let sig = sign(&msg, &kp1);
    assert!(!verify(&msg, &sig, kp2.public_key()));
}

#[test]
fn verify_rejects_malformed_inputs() {
    let kp = generate_keypair();
    let msg = b"message".to_vec();
    assert!(!verify(&msg, &vec![0u8; 10], kp.public_key()));
    let sig = sign(&msg, &kp);
    assert!(!verify(&msg, &sig, &vec![0u8; 5]));
}

#[test]
fn encrypt_decrypt_are_identity() {
    let data = vec![5u8, 6, 7, 8];
    let key = vec![1u8; 32];
    let enc = encrypt(&data, &key);
    assert_eq!(enc, data);
    let dec = decrypt(&enc, &key).expect("decrypt is total");
    assert_eq!(dec, data);
}

#[test]
fn codec_round_trip_plain() {
    let tx = record("user-1", vec![1, 2, 3], TransactionType::StoreToken, 42);
    let bytes = encode_transaction(&tx);
    let back = decode_transaction(&bytes).expect("canonical encoding decodes");
    assert_eq!(back.data.key, "user-1");
    assert_eq!(back.data.value, vec![1, 2, 3]);
    assert_eq!(back.timestamp, 42);
    assert!(matches!(back.transaction_type, TransactionType::StoreToken));
    assert!(back.data.metadata.is_empty());
}

#[test]
fn codec_round_trip_with_metadata_and_negative_time() {
    let mut tx = record("k", vec![9], TransactionType::UpdateCache, -12345);
    tx.data.metadata.push(("origin".to_string(), "sync".to_string()));
    tx.data.metadata.push(("note".to_string(), String::new()));
    tx.signature = vec![7u8; 64];
    tx.public_key = vec![8u8; 32];
    let bytes = encode_transaction(&tx);
    let back = decode_transaction(&bytes).expect("canonical encoding decodes");
    assert_eq!(back.timestamp, -12345);
    assert_eq!(back.data.metadata.len(), 2);
    assert_eq!(back.data.metadata[0].0, "origin");
    assert_eq!(back.data.metadata[0].1, "sync");
    assert_eq!(back.data.metadata[1].0, "note");
    assert_eq!(back.data.metadata[1].1, "");
    assert_eq!(back.signature, vec![7u8; 64]);
    assert_eq!(back.public_key, vec![8u8; 32]);
}

#[test]
fn codec_rejects_garbage() {
    assert!(decode_transaction(&Vec::new()).is_none());
    assert!(decode_transaction(&vec![0xffu8; 4]).is_none());
    let tx = record("a", vec![1], TransactionType::StoreCache, 7);
    let mut bytes = encode_transaction(&tx);
    bytes.push(0);
    assert!(decode_transaction(&bytes).is_none(), "trailing byte rejected");
    let mut truncated = encode_transaction(&tx);
    truncated.pop();
    assert!(decode_transaction(&truncated).is_none(), "truncation rejected");
    let mut bad_tag = encode_transaction(&tx);
    bad_tag[0] = 6;
    assert!(decode_transaction(&bad_tag).is_none(), "unknown tag rejected");
}

#[test]
fn type_codes_round_trip() {
    for code in 0u32..6 {
        let t = TransactionType::from_code(code).expect("assigned code");
        assert_eq!(t.code(), code);
    }
    assert!(TransactionType::from_code(6).is_none());
    assert!(TransactionType::from_code(u32::MAX).is_none());
}

#[test]
fn empty_block_hash_is_stable() {
    let prev = hash_of(&Vec::new());
    let b1 = Block::new(prev.clone(), 0, Vec::new());
    let b2 = Block::new(prev.clone(), 0, Vec::new());
    assert_eq!(b1.header.merkle_root, b2.header.merkle_root);
    assert_eq!(b1.header.version, 1);
    assert_eq!(b1.header.height, 0);
    assert!(b1.header.validator_signature.is_none());
    assert!(b1.transactions.is_empty());
}

#[test]
fn merkle_root_is_deterministic_for_equal_batches() {
    let prev = hash_of(&Vec::new());
    let txs1 = vec![record("a", vec![1], TransactionType::StoreToken, 5)];
    let txs2 = vec![record("a", vec![1], TransactionType::StoreToken, 5)];
    let b1 = Block::new(prev.clone(), 3, txs1);
    let b2 = Block::new(prev.clone(), 3, txs2);
    assert_eq!(b1.header.merkle_root, b2.header.merkle_root);
    let b3 = Block::new(prev, 3, vec![record("a", vec![2], TransactionType::StoreToken, 5)]);
    assert_ne!(b1.header.merkle_root, b3.header.merkle_root);
}

#[test]
fn append_query_round_trip() {
    let mut ledger = empty_ledger();
    let tx = record("A", vec![1, 2, 3], TransactionType::StoreToken, 100);
    ledger.append_at(&tx, 1_000).expect("append succeeds");
    let got = ledger
        .get_latest_for_key("A", &TransactionType::StoreToken)
        .expect("scan succeeds")
        .expect("record found");
    assert_eq!(got.data.value, vec![1, 2, 3]);
    assert_eq!(got.data.key, "A");
    assert_eq!(got.timestamp, 100);
}

#[test]
fn latest_wins() {
    let mut ledger = empty_ledger();
    let tx1 = record("A", vec![1], TransactionType::StoreCache, 100);
    let tx2 = record("A", vec![2], TransactionType::StoreCache, 200);
    ledger.append_at(&tx1, 1_000).expect("append succeeds");
    ledger.append_at(&tx2, 2_000).expect("append succeeds");
    let got = ledger
        .get_latest_for_key("A", &TransactionType::StoreCache)
        .expect("scan succeeds")
        .expect("record found");
    assert_eq!(got.data.value, vec![2]);
}

#[test]
fn latest_wins_regardless_of_append_order() {
    let mut ledger = empty_ledger();
    let newer = record("A", vec![2], TransactionType::StoreCache, 200);
    let older = record("A", vec![1], TransactionType::StoreCache, 100);
    ledger.append_at(&newer, 1_000).expect("append succeeds");
    ledger.append_at(&older, 2_000).expect("append succeeds");
    let got = ledger
        .get_latest_for_key("A", &TransactionType::StoreCache)
        .expect("scan succeeds")
        .expect("record found");
    assert_eq!(got.data.value, vec![2]);
}

#[test]
fn type_isolation() {
    let mut ledger = empty_ledger();
    let tx = record("A", vec![1], TransactionType::StoreToken, 100);
    ledger.append_at(&tx, 1_000).expect("append succeeds");
    let got = ledger
        .get_latest_for_key("A", &TransactionType::StoreCache)
        .expect("scan succeeds");
    assert!(got.is_none());
}

#[test]
fn prefix_isolation() {
    let mut ledger = empty_ledger();
    let tx = record("AB", vec![1], TransactionType::StoreToken, 100);
    ledger.append_at(&tx, 1_000).expect("append succeeds");
    let got = ledger
        .get_latest_for_key("A", &TransactionType::StoreToken)
        .expect("scan succeeds");
    assert!(got.is_none());
    let present = ledger
        .get_latest_for_key("AB", &TransactionType::StoreToken)
        .expect("scan succeeds");
    assert!(present.is_some());
}

#[test]
fn corruption_tolerance() {
    let corrupt_key = b"tx:A:500".to_vec();
    let corrupt = (corrupt_key, vec![0xde, 0xad, 0xbe, 0xef]);
    let mut ledger = BlockchainStorage::new(Vec::new(), vec![corrupt]);
    let tx1 = record("A", vec![1], TransactionType::StoreToken, 100);
    let tx2 = record("A", vec![2], TransactionType::StoreToken, 200);
    ledger.append_at(&tx1, 1_000).expect("append succeeds");
    ledger.append_at(&tx2, 2_000).expect("append succeeds");
    let got = ledger
        .get_latest_for_key("A", &TransactionType::StoreToken)
        .expect("scan does not fail on a corrupt record")
        .expect("latest valid record found");
    assert_eq!(got.data.value, vec![2]);
}

#[test]
fn equal_timestamps_prefer_greatest_composite_key() {
    // Two decodable records with equal timestamps, replayed in an order
    // that differs from composite-key order: the scan's winner is the
    // record under the lexicographically greatest key ("tx:A:9" beats
    // "tx:A:10", since the byte '9' exceeds '1').
    let under_9 = encode_transaction(&record("A", vec![9], TransactionType::StoreToken, 100));
    let under_10 = encode_transaction(&record("A", vec![10], TransactionType::StoreToken, 100));
    let ledger = BlockchainStorage::new(
        Vec::new(),
        vec![(b"tx:A:9".to_vec(), under_9), (b"tx:A:10".to_vec(), under_10)],
    );
    let got = ledger
        .get_latest_for_key("A", &TransactionType::StoreToken)
        .expect("scan succeeds")
        .expect("record found");
    assert_eq!(got.data.value, vec![9]);
}

#[test]
fn head_is_read_from_blocks_store() {
    let ledger = empty_ledger();
    assert!(ledger.head_hash_bytes().is_none());
    let with_head = BlockchainStorage::new(
        vec![(b"HEAD".to_vec(), vec![9u8; 32])],
        Vec::new(),
    );
    assert_eq!(with_head.head_hash_bytes().as_ref().unwrap(), &vec![9u8; 32]);
}

#[test]
fn same_key_same_millisecond_overwrites() {
    let mut ledger = empty_ledger();
    let tx1 = record("A", vec![1], TransactionType::StoreToken, 100);
    let tx2 = record("A", vec![2], TransactionType::StoreToken, 100);
    ledger.append_at(&tx1, 1_000).expect("append succeeds");
    ledger.append_at(&tx2, 1_000).expect("append succeeds");
    let got = ledger
        .get_latest_for_key("A", &TransactionType::StoreToken)
        .expect("scan succeeds")
        .expect("record found");
    assert_eq!(got.data.value, vec![2]);
}

#[test]
fn add_transaction_uses_current_time() {
    let mut ledger = empty_ledger();
    let tx = record("now", vec![4, 5], TransactionType::UpdateToken, 123);
    ledger.add_transaction(tx).expect("append succeeds");
    let got = ledger
        .get_latest_for_key("now", &TransactionType::UpdateToken)
        .expect("scan succeeds")
        .expect("record found");
    assert_eq!(got.data.value, vec![4, 5]);
}

#[test]
fn store_and_retrieve_record() {
    let mut ledger = empty_ledger();
    ledger
        .store_record("token-7".to_string(), vec![42, 43], TransactionType::StoreToken)
        .expect("store succeeds");
    let got = ledger
        .retrieve_record("token-7", &TransactionType::StoreToken)
        .expect("record found");
    assert_eq!(got, vec![42, 43]);
    assert!(ledger.retrieve_record("token-8", &TransactionType::StoreToken).is_none());
    assert!(ledger.retrieve_record("token-7", &TransactionType::StoreCache).is_none());
}
