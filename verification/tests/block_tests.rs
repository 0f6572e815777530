use blockchain_graphs::block::Block;

#[test]
fn test_block_creation() {
    let block = Block::new(
        "previous_hash".to_string(),
        "test data".to_string(),
        "test_graph".to_string(),
        1,
        vec![],
    );

    assert_eq!(block.height, 1);
    assert_eq!(block.graph_id, "test_graph");
    assert!(block.is_valid());
}

#[test]
fn test_genesis_block() {
    let genesis = Block::genesis("test_graph".to_string());

    assert_eq!(genesis.height, 0);
    assert_eq!(genesis.previous_hash, "0");
    assert!(genesis.is_valid());
}

#[test]
fn test_mining() {
    let mut block = Block::new(
        "prev".to_string(),
        "data".to_string(),
        "graph".to_string(),
        1,
        vec![],
    );

    block.mine_block(2);
    assert!(block.hash.starts_with("00"));
    assert!(block.is_valid());
}

#[test]
fn test_fingerprint_is_hex_of_digest() {
    let block = Block::new(
        "prev".to_string(),
        "data".to_string(),
        "graph".to_string(),
        1,
        vec![],
    );

    // SHA-256 digests render as exactly 64 lowercase hex characters.
    assert_eq!(block.hash.len(), 64);
    assert!(block.hash.chars().all(|c| c.is_ascii_hexdigit() && !c.is_ascii_uppercase()));
}

#[test]
fn test_fingerprint_covers_every_field() {
    let base = Block::new(
        "prev".to_string(),
        "data".to_string(),
        "graph".to_string(),
        1,
        vec![],
    );
    let mut other = base.clone();
    other.nonce = base.nonce + 1;
    // A changed nonce must change the recomputed fingerprint.
    assert_ne!(base.calculate_hash(), other.calculate_hash());
    assert!(!other.is_valid());

    let with_refs = Block::new(
        "prev".to_string(),
        "data".to_string(),
        "graph".to_string(),
        1,
        vec!["a".to_string(), "b".to_string()],
    );
    assert_ne!(base.hash, with_refs.hash);
}

#[test]
fn test_difficulty_check() {
    let mut block = Block::new(
        "prev".to_string(),
        "data".to_string(),
        "graph".to_string(),
        1,
        vec![],
    );
    block.hash = "00ab".to_string();
    assert!(block.has_valid_difficulty(0));
    assert!(block.has_valid_difficulty(1));
    assert!(block.has_valid_difficulty(2));
    assert!(!block.has_valid_difficulty(3));
    assert!(!block.has_valid_difficulty(5));
}

#[test]
fn test_fingerprint_matches_reference_digest() {
    // The fingerprint must be the lowercase hex SHA-256 of the exact
    // concatenation: previous hash, timestamp, payload, nonce, height,
    // graph id, cross-references joined by commas. Computed here
    // independently, byte for byte.
    let block = Block::new(
        "prev".to_string(),
        "payload-β".to_string(),
        "graph".to_string(),
        1,
        vec!["r1".to_string(), "r2".to_string()],
    );
    let content = format!(
        "{}{}{}{}{}{}{}",
        block.previous_hash,
        block.timestamp,
        block.data,
        block.nonce,
        block.height,
        block.graph_id,
        block.cross_references.join(",")
    );
    let expected = hex::encode(<sha2::Sha256 as sha2::Digest>::digest(content.as_bytes()));
    assert_eq!(block.hash, expected);
    assert_eq!(block.calculate_hash(), expected);
}
