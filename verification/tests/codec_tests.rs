use blockchain_graphs::block::Block;
use blockchain_graphs::codec::{
    decode_block, decode_graph_meta, decode_id_list, encode_block, encode_graph_meta,
    encode_id_list,
};
use blockchain_graphs::graph::{BlockchainGraph, GraphType};
use blockchain_graphs::keys::{block_key, block_hash_key, graph_key, graph_list_key, latest_block_key};
use blockchain_graphs::settings::Settings;

#[test]
fn test_block_codec_round_trip() {
    let block = Block::new(
        "prev".to_string(),
        "payload with ünïcode".to_string(),
        "graph".to_string(),
        7,
        vec!["ref1".to_string(), "".to_string(), "ref3".to_string()],
    );
    let bytes = encode_block(&block);
    let decoded = decode_block(&bytes).unwrap();
    assert_eq!(decoded.hash, block.hash);
    assert_eq!(decoded.previous_hash, block.previous_hash);
    assert_eq!(decoded.timestamp, block.timestamp);
    assert_eq!(decoded.data, block.data);
    assert_eq!(decoded.nonce, block.nonce);
    assert_eq!(decoded.height, block.height);
    assert_eq!(decoded.graph_id, block.graph_id);
    assert_eq!(decoded.cross_references, block.cross_references);
}

#[test]
fn test_block_codec_rejects_garbage() {
    assert!(decode_block(&vec![]).is_none());
    assert!(decode_block(&vec![0xff; 4]).is_none());
    let block = Block::genesis("g".to_string());
    let mut bytes = encode_block(&block);
    bytes.push(0);
    // Trailing bytes are an error.
    assert!(decode_block(&bytes).is_none());
}

#[test]
fn test_graph_meta_codec_round_trip() {
    let graph = BlockchainGraph::new(
        "meta".to_string(),
        GraphType::Custom,
        "descriptor only".to_string(),
        3,
    );
    let bytes = encode_graph_meta(&graph);
    let decoded = decode_graph_meta(&bytes).unwrap();
    assert_eq!(decoded.id, graph.id);
    assert_eq!(decoded.graph_type, graph.graph_type);
    assert_eq!(decoded.description, graph.description);
    assert_eq!(decoded.created_at, graph.created_at);
    assert_eq!(decoded.difficulty, graph.difficulty);
    // The chain is never part of the record.
    assert_eq!(decoded.chain.len(), 0);
}

#[test]
fn test_id_list_codec_round_trip() {
    let ids = vec!["a".to_string(), "second".to_string(), "".to_string()];
    let bytes = encode_id_list(&ids);
    assert_eq!(decode_id_list(&bytes).unwrap(), ids);
    assert!(decode_id_list(&vec![9]).is_none());
}

#[test]
fn test_key_schema() {
    assert_eq!(block_key("tx", 7), "block:tx:00000000000000000007");
    assert_eq!(block_key("tx", 0), "block:tx:00000000000000000000");
    assert_eq!(
        block_key("tx", u64::MAX),
        "block:tx:18446744073709551615"
    );
    assert_eq!(block_hash_key("tx", "abcd"), "block_hash:tx:abcd");
    assert_eq!(latest_block_key("tx"), "latest:tx");
    assert_eq!(graph_key("tx"), "graph:tx");
    assert_eq!(graph_list_key(), "graph_list");
}

#[test]
fn test_default_settings() {
    let settings = Settings::default();
    assert_eq!(settings.server.host, "0.0.0.0");
    assert_eq!(settings.server.port, 50051);
    assert_eq!(settings.blockchain.default_difficulty, 2);
    assert_eq!(settings.blockchain.max_block_size, 1024 * 1024);
    assert_eq!(settings.storage.data_dir, "./data/blockchain");
    assert_eq!(settings.server_address(), "0.0.0.0:50051");
}
