use blockchain_graphs::graph::GraphType;
use blockchain_graphs::repository::BlockchainRepositoryImpl;
use blockchain_graphs::service::{BlockchainServiceImpl, ServiceError};
use blockchain_graphs::store::InMemoryStore;
use blockchain_graphs::use_cases::{AddBlockUseCase, VerifyGraphsUseCase};
use blockchain_graphs::validation::ValidationService;

fn fresh_service() -> BlockchainServiceImpl<InMemoryStore> {
    BlockchainServiceImpl::new(BlockchainRepositoryImpl::new(InMemoryStore::new()))
}

#[test]
fn test_validation_service() {
    let graph = blockchain_graphs::graph::BlockchainGraph::new(
        "test".to_string(),
        GraphType::Transaction,
        "Test".to_string(),
        2,
    );

    let service = ValidationService::new();
    let result = service.validate_graph(&graph);
    assert!(result);
}

#[test]
fn test_block_creation_and_validation() {
    let mut service = fresh_service();
    let info = service
        .handle_create_graph("test".to_string(), 0, "Test graph".to_string())
        .unwrap();
    assert_eq!(info.total_blocks, 1);

    let first = service
        .handle_add_block("test", "First block".to_string(), vec![])
        .unwrap();
    assert_eq!(first.height, 1);
    assert!(service.handle_verify_graph("test").unwrap());

    let second = service
        .handle_add_block("test", "Second block".to_string(), vec![])
        .unwrap();
    assert_eq!(second.height, 2);
    assert_eq!(second.previous_hash, first.hash);
    assert!(service.handle_verify_graph("test").unwrap());

    let stats = service.handle_get_graph_info("test").unwrap();
    assert_eq!(stats.total_blocks, 3);
    assert!(stats.is_valid);
    assert_eq!(stats.latest_hash, second.hash);
}

#[test]
fn integration_tests_test_invalid_previous_hash() {
    let mut service = fresh_service();
    assert!(matches!(
        service.handle_add_block("missing", "data".to_string(), vec![]),
        Err(ServiceError::GraphNotFound)
    ));
}

#[test]
fn test_create_graph_conflict() {
    let mut service = fresh_service();
    service
        .handle_create_graph("tx".to_string(), 0, "first".to_string())
        .unwrap();
    let again = service.handle_create_graph("tx".to_string(), 0, "second".to_string());
    assert!(matches!(again, Err(ServiceError::GraphAlreadyExists)));
}

#[test]
fn test_created_root_is_sealed() {
    let mut service = fresh_service();
    service
        .handle_create_graph("tx".to_string(), 0, "transactions".to_string())
        .unwrap();
    let root = service.handle_get_latest_block("tx").unwrap().unwrap();
    assert_eq!(root.height, 0);
    assert_eq!(root.previous_hash, "0");
    assert!(root.hash.starts_with("00"));
    assert!(root.is_valid());
}

#[test]
fn test_cross_validate_two_ledgers() {
    // Two ledgers; a block appended to the second carries a reference to a
    // block of the first, and the whole registry cross-validates.
    let mut service = fresh_service();
    service
        .handle_create_graph("tx".to_string(), 0, "transactions".to_string())
        .unwrap();
    service
        .handle_create_graph("id".to_string(), 1, "identity".to_string())
        .unwrap();

    let b1 = service
        .handle_add_block("tx", "B1".to_string(), vec![])
        .unwrap();
    let b2 = service
        .handle_add_block("id", "B2".to_string(), vec![b1.hash.clone()])
        .unwrap();
    assert_eq!(b2.height, 1);

    let outcome = service.handle_cross_validate();
    assert!(outcome.all_valid);
    assert_eq!(outcome.statuses.len(), 2);
    assert!(outcome.statuses.iter().all(|(_, ok)| *ok));
}

#[test]
fn test_cross_validate_detects_missing_reference() {
    let mut service = fresh_service();
    service
        .handle_create_graph("tx".to_string(), 0, "transactions".to_string())
        .unwrap();
    service
        .handle_add_block("tx", "payload".to_string(), vec!["feedface".to_string()])
        .unwrap();

    let outcome = service.handle_cross_validate();
    assert!(!outcome.all_valid);
    // The per-ledger integrity statuses themselves still pass.
    assert!(outcome.statuses.iter().all(|(_, ok)| *ok));
}

#[test]
fn test_service_block_range() {
    // Heights 0..=4 exist; the range [1, 3] returns exactly 1, 2, 3 in order.
    let mut service = fresh_service();
    service
        .handle_create_graph("tx".to_string(), 0, "transactions".to_string())
        .unwrap();
    for i in 0..4 {
        service
            .handle_add_block("tx", format!("payload {}", i), vec![])
            .unwrap();
    }
    let blocks = service.handle_get_block_range("tx", 1, 3).unwrap();
    assert_eq!(blocks.len(), 3);
    assert_eq!(blocks[0].height, 1);
    assert_eq!(blocks[1].height, 2);
    assert_eq!(blocks[2].height, 3);
}

#[test]
fn test_service_get_block_by_hash() {
    let mut service = fresh_service();
    service
        .handle_create_graph("tx".to_string(), 0, "transactions".to_string())
        .unwrap();
    let sealed = service
        .handle_add_block("tx", "find me".to_string(), vec![])
        .unwrap();
    let found = service.handle_get_block("tx", sealed.hash.as_str()).unwrap().unwrap();
    assert_eq!(found.data, "find me");
    assert!(service.handle_get_block("tx", "0000missing").unwrap().is_none());
}

#[test]
fn test_initialize_reloads_registry() {
    let mut repo = BlockchainRepositoryImpl::new(InMemoryStore::new());
    let graph = blockchain_graphs::graph::BlockchainGraph::new(
        "persisted".to_string(),
        GraphType::Audit,
        "Audit trail".to_string(),
        1,
    );
    repo.save_block("persisted", graph.get_latest_block().unwrap()).unwrap();
    repo.save_graph(&graph).unwrap();

    let mut service = BlockchainServiceImpl::new(repo);
    service.initialize().unwrap();
    let listed = service.handle_list_graphs();
    assert_eq!(listed.len(), 1);
    assert_eq!(listed[0].graph_id, "persisted");
    assert_eq!(listed[0].total_blocks, 1);
}

#[test]
fn test_add_block_use_case() {
    let mut use_case = AddBlockUseCase::new(BlockchainRepositoryImpl::new(InMemoryStore::new()));
    let first = use_case
        .execute("raw".to_string(), "first".to_string(), vec![])
        .unwrap();
    assert_eq!(first.height, 0);
    assert_eq!(first.previous_hash, "0");
    let second = use_case
        .execute("raw".to_string(), "second".to_string(), vec![])
        .unwrap();
    assert_eq!(second.height, 1);
    assert_eq!(second.previous_hash, first.hash);
}

#[test]
fn test_verify_graphs_use_case() {
    let mut repo = BlockchainRepositoryImpl::new(InMemoryStore::new());
    let graph = blockchain_graphs::graph::BlockchainGraph::new(
        "tx".to_string(),
        GraphType::Transaction,
        "transactions".to_string(),
        1,
    );
    repo.save_block("tx", graph.get_latest_block().unwrap()).unwrap();
    repo.save_graph(&graph).unwrap();

    let mut use_case = VerifyGraphsUseCase::new(repo);
    let results = use_case.execute().unwrap();
    assert_eq!(results.len(), 1);
    assert_eq!(results[0].0, "tx");
    assert!(results[0].1);
}
