//! Ledger validation as a fixed, ordered list of independent checks: chain
//! linkage, content hashes, and proof-of-work difficulty. New checks are
//! added by extending the list, not by replacing it.

use vstd::prelude::*;

use crate::block::{spec_content_hash, spec_has_difficulty, BlockView};
use crate::graph::{chain_sealed, BlockchainGraph};

verus! {

/// Every block after the root links to its predecessor's fingerprint at the
/// predecessor's height plus one (the root itself carries no predecessor to
/// check here).
pub open spec fn spec_links_ok(chain: Seq<BlockView>) -> bool {
    forall|i: int|
        1 <= i < chain.len() ==> (#[trigger] chain[i]).previous_hash == chain[i - 1].hash
            && chain[i].height == chain[i - 1].height + 1
}

/// Every block's stored fingerprint equals its content hash.
pub open spec fn spec_hashes_ok(chain: Seq<BlockView>) -> bool {
    forall|i: int| 0 <= i < chain.len() ==> (#[trigger] chain[i]).hash == spec_content_hash(chain[i])
}

/// Every block's fingerprint meets the difficulty.
pub open spec fn spec_difficulty_ok(chain: Seq<BlockView>, difficulty: nat) -> bool {
    forall|i: int|
        0 <= i < chain.len() ==> spec_has_difficulty((#[trigger] chain[i]).hash, difficulty)
}

fn check_chain_integrity(graph: &BlockchainGraph) -> (r: bool)
    ensures
        r == spec_links_ok(graph@.chain),
{
    let mut i: usize = 1;
    while i < graph.chain.len()
        invariant
            1 <= i,
            i <= graph.chain.len() || graph.chain.len() == 0,
            forall|k: int|
                1 <= k < i && k < graph@.chain.len() ==> (#[trigger] graph@.chain[k]).previous_hash
                    == graph@.chain[k - 1].hash && graph@.chain[k].height == graph@.chain[k
                    - 1].height + 1,
        decreases graph.chain.len() - i,
    {
        let current = &graph.chain[i];
        let previous = &graph.chain[i - 1];
        proof {
            assert(current@ == graph@.chain[i as int]);
            assert(previous@ == graph@.chain[i - 1]);
        }
        if !(current.previous_hash == previous.hash) {
            return false;
        }
        if !(current.height != 0 && current.height - 1 == previous.height) {
            return false;
        }
        i += 1;
    }
    true
}

fn check_block_hashes(graph: &BlockchainGraph) -> (r: bool)
    ensures
        r == spec_hashes_ok(graph@.chain),
{
    let mut i: usize = 0;
    while i < graph.chain.len()
        invariant
            i <= graph.chain.len(),
            forall|k: int|
                0 <= k < i ==> (#[trigger] graph@.chain[k]).hash == spec_content_hash(
                    graph@.chain[k],
                ),
        decreases graph.chain.len() - i,
    {
        let block = &graph.chain[i];
        proof {
            assert(block@ == graph@.chain[i as int]);
        }
        if !block.is_valid() {
            return false;
        }
        i += 1;
    }
    true
}

fn check_difficulty(graph: &BlockchainGraph) -> (r: bool)
    ensures
        r == spec_difficulty_ok(graph@.chain, graph@.difficulty),
{
    let mut i: usize = 0;
    while i < graph.chain.len()
        invariant
            i <= graph.chain.len(),
            forall|k: int|
                0 <= k < i ==> spec_has_difficulty(
                    (#[trigger] graph@.chain[k]).hash,
                    graph@.difficulty,
                ),
        decreases graph.chain.len() - i,
    {
        let block = &graph.chain[i];
        proof {
            assert(block@ == graph@.chain[i as int]);
        }
        if !block.has_valid_difficulty(graph.difficulty) {
            return false;
        }
        i += 1;
    }
    true
}

/// Runs the fixed list of per-ledger checks, in order, and reports whether
/// all of them pass.
pub struct ValidationService {}

impl ValidationService {
    /// A validation service with the full list of checks.
    pub fn new() -> (r: ValidationService) {
        ValidationService {  }
    }

    /// Validates one ledger against every check: linkage, content hashes,
    /// difficulty. Exactly the conjunction of the three.
    pub fn validate_graph(&self, graph: &BlockchainGraph) -> (r: bool)
        ensures
            r == (spec_links_ok(graph@.chain) && spec_hashes_ok(graph@.chain)
                && spec_difficulty_ok(graph@.chain, graph@.difficulty)),
    {
        if !check_chain_integrity(graph) {
            return false;
        }
        if !check_block_hashes(graph) {
            return false;
        }
        if !check_difficulty(graph) {
            return false;
        }
        true
    }
}

/// The hash and difficulty checks together are exactly the sealing
/// invariant of the chain.
pub proof fn lemma_checks_cover_sealing(chain: Seq<BlockView>, difficulty: nat)
    ensures
        (spec_hashes_ok(chain) && spec_difficulty_ok(chain, difficulty)) == chain_sealed(
            chain,
            difficulty,
        ),
{
}

} // verus!
