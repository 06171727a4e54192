use minichain::block::{
    compute_block_hash, genesis_prev_text, mine_block, validate_candidate, Block, ConsensusError,
    MINING_DIFFICULTY,
};
use sha2::Digest;

#[test]
fn genesis_text_matches_direct_hash() {
    // the SHA-256 hex digest of the fixed seed string, computed directly
    let direct = hex::encode(sha2::Sha256::digest(b"first_block"));
    assert_eq!(genesis_prev_text(), direct);
    assert_eq!(
        genesis_prev_text(),
        "f0ffbc260f7d021a119758f1b169b507f754ab47135c75a45f0d48d154363e12"
    );
}

#[test]
fn block_hash_matches_direct_computation() {
    let prev = genesis_prev_text();
    let h = compute_block_hash(0, &String::from("t1$t2"), 1234, 7, &prev);
    let input = format!("{}{}{}{}{}", 0, "t1$t2", 1234, 7, prev);
    let direct = hex::encode(sha2::Sha256::digest(input.as_bytes()));
    assert_eq!(h, direct);
}

#[test]
fn mining_finds_a_sealing_block() {
    let chain: Vec<Block> = Vec::new();
    let b = mine_block(&chain, String::from("a$b$c$d$e"), 42).expect("difficulty 1 must be met");
    assert_eq!(b.index, 0);
    assert_eq!(b.payload, "a$b$c$d$e");
    assert_eq!(b.timestamp, 42);
    let hash_text = String::from_utf8(b.hash.clone()).unwrap();
    assert!(hash_text.starts_with(&"0".repeat(MINING_DIFFICULTY)));
    assert_eq!(
        String::from_utf8(b.prev_hash.clone()).unwrap(),
        genesis_prev_text()
    );
    assert!(validate_candidate(&chain, &b).is_ok());
}

#[test]
fn validation_names_each_failure() {
    let chain: Vec<Block> = Vec::new();
    let good = mine_block(&chain, String::from("p"), 1).unwrap();

    let mut wrong_index = good.duplicate();
    wrong_index.index = 3;
    assert_eq!(
        validate_candidate(&chain, &wrong_index).unwrap_err(),
        ConsensusError::IndexMismatch
    );

    let mut wrong_prev = good.duplicate();
    wrong_prev.prev_hash = vec![b'0'; 64];
    assert_eq!(
        validate_candidate(&chain, &wrong_prev).unwrap_err(),
        ConsensusError::BrokenChain
    );

    let mut wrong_hash = good.duplicate();
    wrong_hash.hash = vec![b'0'; 64];
    assert_eq!(
        validate_candidate(&chain, &wrong_hash).unwrap_err(),
        ConsensusError::BadProofOfWork
    );

    assert!(validate_candidate(&chain, &good).is_ok());
}

#[test]
fn chain_links_across_two_blocks() {
    let mut chain: Vec<Block> = Vec::new();
    let b0 = mine_block(&chain, String::from("one"), 1).unwrap();
    chain.push(b0);
    let b1 = mine_block(&chain, String::from("two"), 2).unwrap();
    assert_eq!(b1.index, 1);
    assert_eq!(b1.prev_hash, chain[0].hash);
    assert!(validate_candidate(&chain, &b1).is_ok());
    // the same block cannot be appended twice: its index no longer matches
    chain.push(b1.duplicate());
    assert_eq!(
        validate_candidate(&chain, &b1).unwrap_err(),
        ConsensusError::IndexMismatch
    );
}

#[test]
fn block_wire_text_round_trip() {
    let chain: Vec<Block> = Vec::new();
    let b = mine_block(&chain, String::from("m1$m2"), 99).unwrap();
    let text = b.to_wire_text();
    let back = Block::from_wire_text(&text).expect("must parse");
    assert_eq!(back.index, b.index);
    assert_eq!(back.payload, b.payload);
    assert_eq!(back.timestamp, b.timestamp);
    assert_eq!(back.nonce, b.nonce);
    assert_eq!(back.prev_hash, b.prev_hash);
    assert_eq!(back.hash, b.hash);
}

#[test]
fn block_wire_text_round_trip_with_separators_in_payload() {
    let b = Block {
        index: 2,
        payload: String::from("odd;payload:with;marks"),
        timestamp: 5,
        nonce: 8,
        prev_hash: b"aa".to_vec(),
        hash: b"bb".to_vec(),
    };
    let text = b.to_wire_text();
    let back = Block::from_wire_text(&text).expect("must parse");
    assert_eq!(back.payload, "odd;payload:with;marks");
    assert_eq!(back.nonce, 8);
    assert_eq!(back.hash, b"bb".to_vec());
}

#[test]
fn block_parse_rejects_malformed_text() {
    assert!(Block::from_wire_text("").is_err());
    assert!(Block::from_wire_text("id:x;prev_hash:a;timestamp:1;payload:p;nonce:1;hash:h").is_err());
    assert!(Block::from_wire_text("id:1;timestamp:1;payload:p;nonce:1;hash:h").is_err());
}

#[test]
fn block_new_leaves_placeholder_hash() {
    let b = Block::new(3, String::from("p"), 9, 1, vec![b'a'; 64]);
    assert_eq!(b.index, 3);
    assert_eq!(b.hash, vec![0u8; 16]);
}
