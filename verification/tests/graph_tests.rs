use blockchain_graphs::block::Block;
use blockchain_graphs::graph::{BlockchainGraph, GraphType, LedgerError};

#[test]
fn test_graph_creation() {
    let graph = BlockchainGraph::new(
        "test_graph".to_string(),
        GraphType::Transaction,
        "Test blockchain".to_string(),
        2,
    );

    assert_eq!(graph.id, "test_graph");
    assert_eq!(graph.chain.len(), 1);
    assert!(graph.is_valid());
}

#[test]
fn test_add_block() {
    let mut graph = BlockchainGraph::new(
        "test_graph".to_string(),
        GraphType::Transaction,
        "Test".to_string(),
        2,
    );

    let latest = graph.get_latest_block().unwrap();
    let block = Block::new(
        latest.hash.clone(),
        "test data".to_string(),
        "test_graph".to_string(),
        1,
        vec![],
    );

    let result = graph.add_block(block);
    assert!(result.is_ok());
    assert_eq!(graph.chain.len(), 2);
}

#[test]
fn graph_test_invalid_previous_hash() {
    let mut graph = BlockchainGraph::new(
        "test_graph".to_string(),
        GraphType::Transaction,
        "Test".to_string(),
        2,
    );

    let block = Block::new(
        "wrong_hash".to_string(),
        "test data".to_string(),
        "test_graph".to_string(),
        1,
        vec![],
    );

    let result = graph.add_block(block);
    assert!(result.is_err());
}

#[test]
fn test_broken_link_named_and_chain_unchanged() {
    let mut graph = BlockchainGraph::new(
        "tx".to_string(),
        GraphType::Transaction,
        "Test".to_string(),
        2,
    );
    let len_before = graph.chain.len();

    let block = Block::new(
        "deadbeef".to_string(),
        "payload".to_string(),
        "tx".to_string(),
        1,
        vec![],
    );
    let result = graph.add_block(block);
    assert_eq!(result.unwrap_err(), LedgerError::BrokenLink);
    assert_eq!(graph.chain.len(), len_before);
    assert!(graph.is_valid());
}

#[test]
fn test_height_mismatch() {
    let mut graph = BlockchainGraph::new(
        "tx".to_string(),
        GraphType::Transaction,
        "Test".to_string(),
        2,
    );
    let latest_hash = graph.get_latest_block().unwrap().hash.clone();

    let block = Block::new(latest_hash, "payload".to_string(), "tx".to_string(), 5, vec![]);
    let result = graph.add_block(block);
    assert_eq!(result.unwrap_err(), LedgerError::HeightMismatch);
    assert_eq!(graph.chain.len(), 1);
}

#[test]
fn test_corrupt_seal() {
    let mut graph = BlockchainGraph::new(
        "tx".to_string(),
        GraphType::Transaction,
        "Test".to_string(),
        2,
    );
    let latest_hash = graph.get_latest_block().unwrap().hash.clone();

    // A candidate whose stale fingerprint already meets the difficulty:
    // sealing leaves it alone and the content re-check must catch it.
    let mut block = Block::new(latest_hash, "payload".to_string(), "tx".to_string(), 1, vec![]);
    block.hash = "00".to_string();
    let result = graph.add_block(block);
    assert_eq!(result.unwrap_err(), LedgerError::CorruptSeal);
    assert_eq!(graph.chain.len(), 1);
}

#[test]
fn test_sealed_chain_scenario() {
    // Create ledger "tx" at difficulty 2: the root fingerprint has two
    // leading zero hex digits.
    let mut graph = BlockchainGraph::new(
        "tx".to_string(),
        GraphType::Transaction,
        "transactions".to_string(),
        2,
    );
    let root_hash = graph.get_latest_block().unwrap().hash.clone();
    assert!(root_hash.starts_with("00"));

    // Append a payload: height 1, linked to the root, sealed at two zeros.
    let candidate = Block::new(
        root_hash.clone(),
        "A→B:100".to_string(),
        "tx".to_string(),
        1,
        vec![],
    );
    let sealed = graph.add_block(candidate).unwrap();
    assert_eq!(sealed.height, 1);
    assert_eq!(sealed.previous_hash, root_hash);
    assert!(sealed.hash.starts_with("00"));
    assert!(graph.is_valid());

    // A deliberate wrong link fails with BrokenLink; the length stays 2.
    let bad = Block::new(
        "deadbeef".to_string(),
        "oops".to_string(),
        "tx".to_string(),
        2,
        vec![],
    );
    assert_eq!(graph.add_block(bad).unwrap_err(), LedgerError::BrokenLink);
    assert_eq!(graph.chain.len(), 2);
}

#[test]
fn test_integrity_after_appends() {
    let mut graph = BlockchainGraph::new(
        "tx".to_string(),
        GraphType::Transaction,
        "Test".to_string(),
        1,
    );
    for i in 0..3u64 {
        let latest = graph.get_latest_block().unwrap();
        let block = Block::new(
            latest.hash.clone(),
            format!("payload {}", i),
            "tx".to_string(),
            latest.height + 1,
            vec![],
        );
        assert!(graph.add_block(block).is_ok());
        assert!(graph.is_valid());
    }
    assert_eq!(graph.get_chain_length(), 4);
}

#[test]
fn test_cross_references() {
    let mut graph1 = BlockchainGraph::new(
        "graph1".to_string(),
        GraphType::Transaction,
        "Graph 1".to_string(),
        2,
    );

    let mut graph2 = BlockchainGraph::new(
        "graph2".to_string(),
        GraphType::Identity,
        "Graph 2".to_string(),
        2,
    );

    let latest1 = graph1.get_latest_block().unwrap();
    let block1 = Block::new(
        latest1.hash.clone(),
        "Block in graph1".to_string(),
        "graph1".to_string(),
        1,
        vec![],
    );
    let sealed1 = graph1.add_block(block1).unwrap();

    let latest2 = graph2.get_latest_block().unwrap();
    let block2 = Block::new(
        latest2.hash.clone(),
        "Block in graph2".to_string(),
        "graph2".to_string(),
        1,
        vec![sealed1.hash.clone()],
    );
    graph2.add_block(block2).unwrap();

    let graphs = vec![graph1.clone(), graph2.clone()];
    assert!(graph2.validate_cross_references(&graphs).is_ok());
    // The referencing ledger with no references at all passes trivially.
    assert!(graph1.validate_cross_references(&graphs).is_ok());
}

#[test]
fn test_cross_reference_self_exclusion() {
    // A fingerprint present only in the referencing ledger's own chain does
    // not resolve: the search deliberately skips the ledger itself.
    let mut graph = BlockchainGraph::new(
        "solo".to_string(),
        GraphType::Audit,
        "Self-referencing".to_string(),
        1,
    );
    let own_root_hash = graph.get_latest_block().unwrap().hash.clone();
    let latest = graph.get_latest_block().unwrap();
    let block = Block::new(
        latest.hash.clone(),
        "references itself".to_string(),
        "solo".to_string(),
        1,
        vec![own_root_hash.clone()],
    );
    graph.add_block(block).unwrap();

    let graphs = vec![graph.clone()];
    let err = graph.validate_cross_references(&graphs).unwrap_err();
    assert_eq!(err.reference, own_root_hash);
}

#[test]
fn test_empty_reference_is_absent() {
    let mut graph = BlockchainGraph::new(
        "tx".to_string(),
        GraphType::Transaction,
        "Test".to_string(),
        1,
    );
    let latest = graph.get_latest_block().unwrap();
    let block = Block::new(
        latest.hash.clone(),
        "payload".to_string(),
        "tx".to_string(),
        1,
        vec!["".to_string()],
    );
    graph.add_block(block).unwrap();

    let graphs = vec![graph.clone()];
    assert!(graph.validate_cross_references(&graphs).is_ok());
}

#[test]
fn test_graph_type_codes() {
    assert_eq!(GraphType::from_i32(0), GraphType::Transaction);
    assert_eq!(GraphType::from_i32(1), GraphType::Identity);
    assert_eq!(GraphType::from_i32(2), GraphType::Asset);
    assert_eq!(GraphType::from_i32(3), GraphType::Audit);
    assert_eq!(GraphType::from_i32(4), GraphType::Custom);
    assert_eq!(GraphType::from_i32(99), GraphType::Custom);
    assert_eq!(GraphType::Asset.to_i32(), 2);
    assert_eq!(GraphType::from_i32(GraphType::Audit.to_i32()), GraphType::Audit);
}

#[test]
fn test_load_blocks_replaces_chain() {
    let mut graph = BlockchainGraph::new(
        "tx".to_string(),
        GraphType::Transaction,
        "Test".to_string(),
        2,
    );
    let root = graph.get_latest_block().unwrap().clone();
    graph.load_blocks(vec![root.clone(), root.clone(), root.clone()]);
    assert_eq!(graph.get_chain_length(), 3);
    // A chain of three identical root copies breaks the linkage invariant.
    assert!(!graph.is_valid());
}
