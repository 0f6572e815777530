//! Self-contained operations over a repository: appending a raw candidate
//! block and verifying every stored ledger with its cross-references.

use vstd::prelude::*;

use crate::block::{spec_content_hash, Block, BlockView};
use crate::graph::{cross_refs_ok, BlockchainGraph, GraphView, LedgerError};
use crate::keys::spec_graph_list_key;
use crate::repository::{
    after_save_block, latest_block_of, listed_graphs, partial_block_write,
    BlockchainRepositoryImpl, RepoError,
};
use crate::codec::dec_id_list;
use crate::service::ServiceError;
use crate::store::Store;
use vstd::string::StringExecFns;
use crate::validation::{spec_difficulty_ok, spec_hashes_ok, spec_links_ok, ValidationService};

verus! {

/// Builds a block on top of a ledger's latest stored block and persists it,
/// without sealing it against any difficulty: the candidate keeps nonce
/// zero. Appends that must respect a ledger's proof-of-work go through the
/// registry service instead.
pub struct AddBlockUseCase<S: Store> {
    repository: BlockchainRepositoryImpl<S>,
}

impl<S: Store> AddBlockUseCase<S> {
    /// The current store contents.
    pub closed spec fn contents(self) -> Map<Seq<char>, Seq<u8>> {
        self.repository.contents()
    }

    /// A use case over `repository`.
    pub fn new(repository: BlockchainRepositoryImpl<S>) -> (r: AddBlockUseCase<S>)
        ensures
            r.contents() == repository.contents(),
    {
        AddBlockUseCase { repository }
    }

    /// Builds the next candidate block for `graph_id` (linking to the
    /// latest stored block, or to the root marker for an empty ledger) and
    /// persists it.
    pub fn execute(&mut self, graph_id: String, data: String, cross_references: Vec<String>) -> (r:
        Result<Block, ServiceError>)
        ensures
            ({
                let m = old(self).contents();
                match r {
                    Ok(b) => {
                        &&& b@.hash == spec_content_hash(b@)
                        &&& b@.nonce == 0
                        &&& b@.data == data@
                        &&& b@.graph_id == graph_id@
                        &&& b@.cross_references == cross_references.deep_view()
                        &&& match latest_block_of(m, graph_id@) {
                            Some(latest) => b@.previous_hash == latest.hash && b@.height
                                == latest.height + 1,
                            None => b@.previous_hash == "0"@ && b@.height == 0,
                        }
                        &&& final(self).contents() == after_save_block(m, graph_id@, b@)
                    },
                    Err(ServiceError::Validation(e)) => {
                        &&& e == LedgerError::HeightMismatch
                        &&& final(self).contents() == m
                        &&& match latest_block_of(m, graph_id@) {
                            Some(latest) => latest.height == u64::MAX,
                            None => false,
                        }
                    },
                    Err(ServiceError::Persistence(e)) => exists|b: BlockView|
                        {
                            &&& b.graph_id == graph_id@
                            &&& #[trigger] partial_block_write(
                                m,
                                final(self).contents(),
                                graph_id@,
                                b,
                            )
                        },
                    Err(e) => false,
                }
            }),
    {
        let (previous_hash, height): (String, u64) = match self.repository.get_latest_block(
            graph_id.as_str(),
        ) {
            Ok(Some(latest)) => {
                if latest.height == u64::MAX {
                    proof {
                        assert(latest_block_of(old(self).contents(), graph_id@) == Some(latest@));
                    }
                    return Err(ServiceError::Validation(LedgerError::HeightMismatch));
                }
                (latest.hash, latest.height + 1)
            },
            Ok(None) => (String::from_str("0"), 0),
            Err(e) => {
                proof {
                    lemma_unwritten_witness(old(self).contents(), graph_id@);
                }
                return Err(ServiceError::Persistence(e));
            },
        };
        let block = Block::new(previous_hash, data, graph_id.clone(), height, cross_references);
        match self.repository.save_block(graph_id.as_str(), &block) {
            Ok(_) => Ok(block),
            Err(_) => {
                proof {
                    assert(partial_block_write(
                        old(self).contents(),
                        self.contents(),
                        graph_id@,
                        block@,
                    ));
                }
                Err(ServiceError::Persistence(RepoError::Store))
            },
        }
    }
}

proof fn lemma_unwritten_witness(m: Map<Seq<char>, Seq<u8>>, id: Seq<char>)
    ensures
        exists|b: BlockView|
            b.graph_id == id && #[trigger] partial_block_write(m, m, id, b),
{
    let b = BlockView {
        hash: Seq::empty(),
        previous_hash: Seq::empty(),
        timestamp: 0,
        data: Seq::empty(),
        nonce: 0,
        height: 0,
        graph_id: id,
        cross_references: Seq::empty(),
    };
    assert(partial_block_write(m, m, id, b));
}

/// Every per-ledger verdict of a verify-all run: ledger id, and whether the
/// ledger passes every per-ledger check and every cross-reference resolves.
pub open spec fn verify_results_match(gs: Seq<GraphView>, out: Seq<(String, bool)>) -> bool {
    &&& out.len() == gs.len()
    &&& forall|i: int|
        0 <= i < gs.len() ==> (#[trigger] out[i]).0@ == gs[i].id && out[i].1 == (spec_links_ok(
            gs[i].chain,
        ) && spec_hashes_ok(gs[i].chain) && spec_difficulty_ok(gs[i].chain, gs[i].difficulty)
            && cross_refs_ok(gs[i], gs))
}

/// Validates every graph of `graphs` in place: the fixed per-ledger checks,
/// then the cross-reference search across the whole collection.
pub fn validate_all(validation: &ValidationService, graphs: &Vec<BlockchainGraph>) -> (r: Vec<
    (String, bool),
>)
    ensures
        verify_results_match(graphs.deep_view(), r@),
{
    let ghost dv = graphs.deep_view();
    let mut out: Vec<(String, bool)> = Vec::new();
    let mut i: usize = 0;
    while i < graphs.len()
        invariant
            i <= graphs.len(),
            dv == graphs.deep_view(),
            out@.len() == i,
            forall|k: int|
                0 <= k < i ==> (#[trigger] out@[k]).0@ == dv[k].id && out@[k].1 == (spec_links_ok(
                    dv[k].chain,
                ) && spec_hashes_ok(dv[k].chain) && spec_difficulty_ok(dv[k].chain, dv[k].difficulty)
                    && cross_refs_ok(dv[k], dv)),
        decreases graphs.len() - i,
    {
        let graph = &graphs[i];
        proof {
            assert(graph@ == dv[i as int]);
        }
        let checks_ok = validation.validate_graph(graph);
        let cross_ok = match graph.validate_cross_references(graphs) {
            Ok(_) => true,
            Err(_) => false,
        };
        out.push((graph.id.clone(), checks_ok && cross_ok));
        i += 1;
    }
    out
}

/// Loads every stored ledger and validates each one, including its
/// cross-references against all the others.
pub struct VerifyGraphsUseCase<S: Store> {
    repository: BlockchainRepositoryImpl<S>,
    validation_service: ValidationService,
}

impl<S: Store> VerifyGraphsUseCase<S> {
    /// The current store contents.
    pub closed spec fn contents(self) -> Map<Seq<char>, Seq<u8>> {
        self.repository.contents()
    }

    /// The repository's read cache, in insertion order.
    pub closed spec fn repo_cache_seq(self) -> Seq<GraphView> {
        self.repository.cache_seq()
    }

    /// A use case over `repository`, with the full list of checks.
    pub fn new(repository: BlockchainRepositoryImpl<S>) -> (r: VerifyGraphsUseCase<S>)
        ensures
            r.contents() == repository.contents(),
    {
        VerifyGraphsUseCase { repository, validation_service: ValidationService::new() }
    }

    /// Loads every listed ledger and reports, per ledger, whether it passes
    /// every check and every cross-reference resolves: the verdicts are
    /// exactly the validation outcome of the ledgers the registry list
    /// yields, in list order.
    pub fn execute(&mut self) -> (r: Result<Vec<(String, bool)>, RepoError>)
        ensures
            final(self).contents() == old(self).contents(),
            ({
                let m = old(self).contents();
                let lk = spec_graph_list_key();
                match r {
                    Ok(l) => {
                        &&& (!m.contains_key(lk) ==> l@.len() == 0)
                        &&& (m.contains_key(lk) ==> dec_id_list(m[lk]) is Some
                            && verify_results_match(
                            listed_graphs(old(self).repo_cache_seq(), m, dec_id_list(m[lk])->0),
                            l@,
                        ))
                    },
                    Err(e) => true,
                }
            }),
    {
        let graphs = match self.repository.list_graphs() {
            Ok(gs) => gs,
            Err(e) => {
                return Err(e);
            },
        };
        let results = validate_all(&self.validation_service, &graphs);
        proof {
            assert(verify_results_match(graphs.deep_view(), results@));
        }
        Ok(results)
    }
}

} // verus!
