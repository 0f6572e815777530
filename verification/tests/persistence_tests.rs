use blockchain_graphs::block::Block;
use blockchain_graphs::graph::{BlockchainGraph, GraphType};
use blockchain_graphs::codec::{encode_block, encode_graph_meta, encode_id_list};
use blockchain_graphs::keys::{block_key, graph_key, graph_list_key, latest_block_key};
use blockchain_graphs::repository::{BlockchainRepositoryImpl, RepoError};
use blockchain_graphs::store::{InMemoryStore, Store};

#[test]
fn test_store_operations() {
    let mut store = InMemoryStore::new();

    store.put("test_key", b"test_value".to_vec()).unwrap();
    assert_eq!(store.get("test_key").unwrap(), Some(b"test_value".to_vec()));

    assert!(store.has_key("test_key").unwrap());
    assert!(!store.has_key("non_existent").unwrap());

    store.delete("test_key").unwrap();
    assert!(!store.has_key("test_key").unwrap());

    store.put("k", b"one".to_vec()).unwrap();
    store.put("k", b"two".to_vec()).unwrap();
    assert_eq!(store.get("k").unwrap(), Some(b"two".to_vec()));
}

#[test]
fn test_persistence() {
    let mut repo = BlockchainRepositoryImpl::new(InMemoryStore::new());

    let graph = BlockchainGraph::new(
        "test_persist".to_string(),
        GraphType::Transaction,
        "Persistence test".to_string(),
        2,
    );

    repo.save_graph(&graph).unwrap();

    let genesis = graph.get_latest_block().unwrap();
    repo.save_block("test_persist", genesis).unwrap();

    let loaded_graph = repo.get_graph("test_persist").unwrap();
    assert!(loaded_graph.is_some());

    let loaded = loaded_graph.unwrap();
    assert_eq!(loaded.id, "test_persist");
    assert_eq!(loaded.get_chain_length(), 1);
}

#[test]
fn test_reload_round_trip() {
    // Persist a ledger and its blocks, then reload through a repository
    // with a cold cache: the chain must come back identical.
    let mut graph = BlockchainGraph::new(
        "rt".to_string(),
        GraphType::Asset,
        "Round trip".to_string(),
        1,
    );
    for i in 0..2u64 {
        let latest = graph.get_latest_block().unwrap();
        let block = Block::new(
            latest.hash.clone(),
            format!("entry {}", i),
            "rt".to_string(),
            latest.height + 1,
            vec!["other".to_string()],
        );
        graph.add_block(block).unwrap();
    }

    // Write the records straight into a cold store, exactly as the
    // repository would, and reload through a repository with an empty
    // cache: this exercises the store path, not the cache.
    let mut store = InMemoryStore::new();
    for block in &graph.chain {
        store.put(block_key("rt", block.height).as_str(), encode_block(block)).unwrap();
    }
    let latest_height = graph.get_latest_block().unwrap().height;
    store
        .put(latest_block_key("rt").as_str(), latest_height.to_le_bytes().to_vec())
        .unwrap();
    store.put(graph_key("rt").as_str(), encode_graph_meta(&graph)).unwrap();
    store
        .put(graph_list_key().as_str(), encode_id_list(&vec!["rt".to_string()]))
        .unwrap();

    let mut repo = BlockchainRepositoryImpl::new(store);
    let reloaded = repo.get_graph("rt").unwrap().unwrap();
    assert_eq!(reloaded.get_chain_length(), graph.get_chain_length());
    for (a, b) in reloaded.chain.iter().zip(graph.chain.iter()) {
        assert_eq!(a.hash, b.hash);
        assert_eq!(a.previous_hash, b.previous_hash);
        assert_eq!(a.height, b.height);
        assert_eq!(a.timestamp, b.timestamp);
        assert_eq!(a.data, b.data);
        assert_eq!(a.nonce, b.nonce);
        assert_eq!(a.graph_id, b.graph_id);
        assert_eq!(a.cross_references, b.cross_references);
    }
    assert!(reloaded.is_valid());
}

#[test]
fn test_block_retrieval() {
    let mut repo = BlockchainRepositoryImpl::new(InMemoryStore::new());

    let graph_id = "test_retrieval";
    let block = Block::genesis(graph_id.to_string());
    let hash = block.hash.clone();

    repo.save_block(graph_id, &block).unwrap();

    let retrieved = repo.get_block(graph_id, &hash).unwrap();
    assert!(retrieved.is_some());
    assert_eq!(retrieved.unwrap().hash, hash);

    let latest = repo.get_latest_block(graph_id).unwrap();
    assert!(latest.is_some());
    assert_eq!(latest.unwrap().hash, hash);

    let by_height = repo.get_block_by_height(graph_id, 0).unwrap();
    assert!(by_height.is_some());
    assert_eq!(by_height.unwrap().hash, hash);
}

#[test]
fn test_multiple_graphs() {
    let mut repo = BlockchainRepositoryImpl::new(InMemoryStore::new());

    let graph1 = BlockchainGraph::new(
        "graph1".to_string(),
        GraphType::Transaction,
        "First graph".to_string(),
        2,
    );

    let graph2 = BlockchainGraph::new(
        "graph2".to_string(),
        GraphType::Identity,
        "Second graph".to_string(),
        2,
    );

    repo.save_graph(&graph1).unwrap();
    repo.save_graph(&graph2).unwrap();

    let graphs = repo.list_graphs().unwrap();
    assert_eq!(graphs.len(), 2);

    assert!(repo.graph_exists("graph1").unwrap());
    assert!(repo.graph_exists("graph2").unwrap());
    assert!(!repo.graph_exists("nonexistent").unwrap());
}

#[test]
fn test_block_range() {
    let mut repo = BlockchainRepositoryImpl::new(InMemoryStore::new());

    let graph_id = "test_range";

    for i in 0..5u64 {
        let block = Block::new(
            if i == 0 { "0".to_string() } else { format!("prev_{}", i) },
            format!("Block {}", i),
            graph_id.to_string(),
            i,
            vec![],
        );
        repo.save_block(graph_id, &block).unwrap();
    }

    let blocks = repo.get_blocks_range(graph_id, 1, 3).unwrap();
    assert_eq!(blocks.len(), 3);
    assert_eq!(blocks[0].height, 1);
    assert_eq!(blocks[1].height, 2);
    assert_eq!(blocks[2].height, 3);
}

#[test]
fn test_range_skips_missing_heights() {
    let mut repo = BlockchainRepositoryImpl::new(InMemoryStore::new());
    for i in [0u64, 2, 4] {
        let block = Block::new(
            format!("prev_{}", i),
            format!("Block {}", i),
            "gaps".to_string(),
            i,
            vec![],
        );
        repo.save_block("gaps", &block).unwrap();
    }
    let blocks = repo.get_blocks_range("gaps", 0, 4).unwrap();
    assert_eq!(blocks.len(), 3);
    assert_eq!(blocks[0].height, 0);
    assert_eq!(blocks[1].height, 2);
    assert_eq!(blocks[2].height, 4);
}

#[test]
fn test_corrupt_record() {
    let mut store = InMemoryStore::new();
    let key = block_key("bad", 0);
    store.put(key.as_str(), vec![1, 2, 3]).unwrap();
    let repo = BlockchainRepositoryImpl::new(store);
    assert_eq!(repo.get_block_by_height("bad", 0).unwrap_err(), RepoError::CorruptRecord);
}

#[test]
fn test_create_and_persist_graph() {
    let mut repository = BlockchainRepositoryImpl::new(InMemoryStore::new());

    let graph_id = "test_graph".to_string();
    let graph = BlockchainGraph::new(
        graph_id.clone(),
        GraphType::Transaction,
        "Test Graph Description".to_string(),
        2,
    );

    println!("Created graph: {:?}", graph.id);

    if let Some(genesis) = graph.get_latest_block() {
        repository.save_block(&graph_id, genesis).expect("Failed to save genesis block");
    }

    repository.save_graph(&graph).expect("Failed to save graph");

    let exists = repository.graph_exists(&graph_id).expect("Failed to check existence");
    assert!(exists, "Graph should exist after saving");

    let retrieved_graph = repository.get_graph(&graph_id).expect("Failed to retrieve graph");
    assert!(retrieved_graph.is_some(), "Should retrieve the saved graph");

    let retrieved = retrieved_graph.unwrap();
    assert_eq!(retrieved.id, graph_id);
    assert_eq!(retrieved.get_chain_length(), 1);

    let genesis_retrieved = repository.get_latest_block(&graph_id).expect(
        "Failed to get latest block",
    );
    assert!(genesis_retrieved.is_some(), "Should retrieve genesis block");
}

#[test]
fn test_list_graphs() {
    let mut repository = BlockchainRepositoryImpl::new(InMemoryStore::new());

    for i in 0..3 {
        let graph_id = format!("graph_{}", i);
        let graph = BlockchainGraph::new(
            graph_id.clone(),
            GraphType::Transaction,
            format!("Graph {}", i),
            2,
        );

        if let Some(genesis) = graph.get_latest_block() {
            repository.save_block(&graph_id, genesis).unwrap();
        }

        repository.save_graph(&graph).unwrap();
    }

    let graphs = repository.list_graphs().expect("Failed to list graphs");
    assert_eq!(graphs.len(), 3, "Should have 3 graphs");
}
