//! The ledger registry and its operations: a process-wide collection of live,
//! fully hydrated ledgers, loaded once at startup and then read by query
//! operations and mutated by create/append operations.
//!
//! Access discipline: every mutating operation takes the service exclusively
//! (`&mut self`), every read operation shares it (`&self`). An embedding
//! program that serves concurrent requests wraps the service in one
//! registry-wide reader-writer lock and maps shared acquisitions to `&self`
//! calls and exclusive acquisitions to `&mut self` calls, which preserves
//! exactly this discipline.
//!
//! Durability discipline: an append seals and extends the in-memory chain
//! first, then persists; if persistence fails, the in-memory append is rolled
//! back before the error is reported, so the live registry never diverges
//! from the store.

use vstd::bytes::spec_u64_from_le_bytes;
use vstd::prelude::*;

use crate::block::{some_nonce_works, spec_content_hash, spec_has_difficulty, Block, BlockView};
use crate::graph::{
    cross_refs_ok, spec_graph_type_from_i32, spec_graph_type_to_i32, BlockchainGraph, GraphType,
    GraphView, LedgerError,
};
use crate::keys::{
    spec_block_hash_key, spec_block_key, spec_graph_key, spec_graph_list_key, spec_latest_key,
};
use crate::codec::dec_id_list;
use crate::repository::{
    after_save_block, after_save_blocks, cached_in, dec_block_at, lemma_cached_in_id,
    lemma_cached_push, lemma_cached_update, lemma_store_round_trip, listed_graphs, loaded_range,
    loads_to, partial_block_write, partial_create_write, range_ok, some_record_corrupt,
    BlockchainRepositoryImpl, RepoError,
};
use crate::store::{str_eq, Store};

verus! {

/// The proof-of-work difficulty newly created ledgers are sealed against.
pub const DEFAULT_DIFFICULTY: usize = 2;

/// A structured operation failure; never an unrecoverable fault.
#[derive(Debug, Clone, Copy, PartialEq, Eq, Structural)]
pub enum ServiceError {
    /// The target ledger is not in the registry (append) or store (create).
    GraphNotFound,
    /// A ledger with this id already exists in the store.
    GraphAlreadyExists,
    /// The append was rejected by the ledger's own validation.
    Validation(LedgerError),
    /// The store failed or held a malformed record.
    Persistence(RepoError),
}

/// A full ledger report: descriptor, chain statistics and integrity.
#[derive(Debug)]
pub struct GraphInfo {
    pub graph_id: String,
    pub graph_type: i32,
    pub total_blocks: u64,
    pub latest_hash: String,
    pub created_at: i64,
    pub is_valid: bool,
    pub description: String,
}

/// One line of a ledger listing.
#[derive(Debug)]
pub struct GraphSummary {
    pub graph_id: String,
    pub graph_type: i32,
    pub total_blocks: u64,
    pub description: String,
}

/// The result of validating every ledger and every cross-reference.
#[derive(Debug)]
pub struct CrossValidateOutcome {
    /// Every ledger passes its integrity check and every cross-reference
    /// resolves.
    pub all_valid: bool,
    /// Per-ledger integrity, in registry order.
    pub statuses: Vec<(String, bool)>,
}

/// The ledger registry and the operations the service surface exposes.
pub struct BlockchainServiceImpl<S: Store> {
    repository: BlockchainRepositoryImpl<S>,
    graphs: Vec<BlockchainGraph>,
}

impl<S: Store> BlockchainServiceImpl<S> {
    /// The live registry, in insertion order.
    pub closed spec fn registry(self) -> Seq<GraphView> {
        self.graphs.deep_view()
    }

    /// The first registry entry under `id`, if any.
    pub open spec fn in_registry(self, id: Seq<char>) -> Option<GraphView> {
        cached_in(self.registry(), id)
    }

    /// The current store contents.
    pub closed spec fn contents(self) -> Map<Seq<char>, Seq<u8>> {
        self.repository.contents()
    }

    /// What the repository's read cache holds under `id`.
    pub closed spec fn repo_cached(self, id: Seq<char>) -> Option<GraphView> {
        self.repository.cached(id)
    }

    /// The repository's read cache, in insertion order.
    pub closed spec fn repo_cache_seq(self) -> Seq<GraphView> {
        self.repository.cache_seq()
    }

    /// A service over `repository`, with an empty registry.
    pub fn new(repository: BlockchainRepositoryImpl<S>) -> (r: BlockchainServiceImpl<S>)
        ensures
            r.contents() == repository.contents(),
            forall|id: Seq<char>| r.in_registry(id) is None,
    {
        let r = BlockchainServiceImpl { repository, graphs: Vec::new() };
        proof {
            assert(r.graphs.deep_view() =~= Seq::<GraphView>::empty());
        }
        r
    }

    /// Loads every ledger the store lists into the registry. No requests are
    /// served before this completes.
    pub fn initialize(&mut self) -> (r: Result<(), RepoError>)
        ensures
            final(self).contents() == old(self).contents(),
            forall|id2: Seq<char>|
                #![trigger final(self).repo_cached(id2)]
                final(self).repo_cached(id2) == old(self).repo_cached(id2) || (old(
                    self,
                ).repo_cached(id2) is None && final(self).repo_cached(id2) is Some && loads_to(
                    old(self).contents(),
                    id2,
                    final(self).repo_cached(id2)->0,
                )),
            r is Err ==> final(self).registry() == old(self).registry(),
            (r matches Err(e) && e == RepoError::CorruptRecord) ==> ({
                let m = old(self).contents();
                let lk = spec_graph_list_key();
                &&& m.contains_key(lk)
                &&& (dec_id_list(m[lk]) is None || exists|k: int|
                    0 <= k < dec_id_list(m[lk])->0.len() && some_record_corrupt(
                        m,
                        #[trigger] dec_id_list(m[lk])->0[k],
                    ))
            }),
            r is Ok ==> ({
                let m = old(self).contents();
                let lk = spec_graph_list_key();
                &&& (!m.contains_key(lk) ==> final(self).registry().len() == 0)
                &&& (m.contains_key(lk) ==> dec_id_list(m[lk]) is Some && final(self).registry()
                    == listed_graphs(old(self).repo_cache_seq(), m, dec_id_list(m[lk])->0))
            }),
            r is Ok ==> forall|i: int|
                0 <= i < final(self).registry().len() ==> {
                    let g = #[trigger] final(self).registry()[i];
                    old(self).repo_cached(g.id) == Some(g) || loads_to(
                        old(self).contents(),
                        g.id,
                        g,
                    )
                },
    {
        match self.repository.list_graphs() {
            Ok(graphs) => {
                self.graphs = graphs;
                Ok(())
            },
            Err(e) => Err(e),
        }
    }

    fn registry_find(&self, id: &str) -> (r: Option<usize>)
        ensures
            match r {
                Some(i) => {
                    &&& i < self.registry().len()
                    &&& self.registry()[i as int].id == id@
                    &&& forall|j: int| 0 <= j < i ==> self.registry()[j].id != id@
                    &&& self.in_registry(id@) == Some(self.registry()[i as int])
                },
                None => self.in_registry(id@) is None,
            },
    {
        let ghost dv = self.graphs.deep_view();
        let mut i: usize = 0;
        proof {
            assert(dv.skip(0) =~= dv);
        }
        while i < self.graphs.len()
            invariant
                i <= self.graphs.len(),
                dv == self.graphs.deep_view(),
                cached_in(dv, id@) == cached_in(dv.skip(i as int), id@),
                forall|j: int| 0 <= j < i ==> dv[j].id != id@,
            decreases self.graphs.len() - i,
        {
            let entry = &self.graphs[i];
            proof {
                assert(dv.skip(i as int)[0] == dv[i as int]);
                assert(entry@ == dv[i as int]);
            }
            if str_eq(entry.id.as_str(), id) {
                return Some(i);
            }
            proof {
                assert(dv.skip(i as int).drop_first() =~= dv.skip(i + 1));
            }
            i += 1;
        }
        proof {
            assert(dv.skip(self.graphs.len() as int) =~= Seq::<GraphView>::empty());
        }
        None
    }

    /// Creates a ledger: fails if the id already exists in the store;
    /// otherwise builds and seals a root block, persists it, persists the
    /// descriptor, and inserts the ledger into the registry — all under the
    /// same exclusive acquisition. On success the store rehydrates the id to
    /// exactly the registered ledger.
    #[verifier::rlimit(100)]
    pub fn handle_create_graph(
        &mut self,
        graph_id: String,
        graph_type: i32,
        description: String,
    ) -> (r: Result<GraphInfo, ServiceError>)
        ensures
            ({
                let id = graph_id@;
                match r {
                    Ok(info) => {
                        &&& !old(self).contents().contains_key(spec_graph_key(id))
                        &&& match final(self).in_registry(id) {
                            Some(g) => {
                                &&& g.id == id
                                &&& g.graph_type == spec_graph_type_from_i32(graph_type as int)
                                &&& g.description == description@
                                &&& g.difficulty == DEFAULT_DIFFICULTY
                                &&& g.chain.len() == 1
                                &&& g.chain[0].previous_hash == "0"@
                                &&& g.chain[0].height == 0
                                &&& g.chain[0].graph_id == id
                                &&& g.chain[0].hash == spec_content_hash(g.chain[0])
                                &&& spec_has_difficulty(g.chain[0].hash, DEFAULT_DIFFICULTY as nat)
                                    ==> g.wf()
                                &&& loads_to(final(self).contents(), id, g)
                                &&& info.graph_id@ == id
                                &&& info.graph_type as int == spec_graph_type_to_i32(g.graph_type)
                                &&& info.total_blocks == 1
                                &&& info.description@ == description@
                            },
                            None => false,
                        }
                        &&& forall|id2: Seq<char>|
                            id2 != id ==> final(self).in_registry(id2) == old(self).in_registry(
                                id2,
                            )
                    },
                    Err(ServiceError::GraphAlreadyExists) => {
                        &&& old(self).contents().contains_key(spec_graph_key(id))
                        &&& final(self).registry() == old(self).registry()
                        &&& final(self).contents() == old(self).contents()
                    },
                    Err(ServiceError::Persistence(e)) => {
                        &&& final(self).registry() == old(self).registry()
                        &&& exists|root: BlockView, meta: Seq<u8>|
                            {
                                &&& root.graph_id == id
                                &&& root.height == 0
                                &&& root.previous_hash == "0"@
                                &&& #[trigger] partial_create_write(
                                    old(self).contents(),
                                    final(self).contents(),
                                    id,
                                    root,
                                    meta,
                                )
                            }
                    },
                    Err(e) => false,
                }
            }),
    {
        match self.repository.graph_exists(graph_id.as_str()) {
            Ok(true) => {
                return Err(ServiceError::GraphAlreadyExists);
            },
            Ok(false) => {},
            Err(e) => {
                proof {
                    let root = BlockView {
                        hash: Seq::empty(),
                        previous_hash: "0"@,
                        timestamp: 0,
                        data: Seq::empty(),
                        nonce: 0,
                        height: 0,
                        graph_id: graph_id@,
                        cross_references: Seq::empty(),
                    };
                    assert(partial_create_write(
                        old(self).contents(),
                        self.contents(),
                        graph_id@,
                        root,
                        Seq::<u8>::empty(),
                    ));
                }
                return Err(ServiceError::Persistence(e));
            },
        }
        let gt = GraphType::from_i32(graph_type);
        let graph = BlockchainGraph::new(
            graph_id.clone(),
            gt,
            description,
            DEFAULT_DIFFICULTY,
        );
        match graph.get_latest_block() {
            Some(genesis) => {
                match self.repository.save_block(graph_id.as_str(), genesis) {
                    Ok(_) => {},
                    Err(_) => {
                        proof {
                            assert(partial_create_write(
                                old(self).contents(),
                                self.contents(),
                                graph_id@,
                                graph@.chain[0],
                                Seq::<u8>::empty(),
                            ));
                        }
                        return Err(ServiceError::Persistence(RepoError::Store));
                    },
                }
            },
            None => {},
        }
        match self.repository.save_graph(&graph) {
            Ok(_) => {},
            Err(e) => {
                proof {
                    assert(self.contents() == after_save_block(
                        old(self).contents(),
                        graph_id@,
                        graph@.chain[0],
                    ) || self.contents() == after_save_block(
                        old(self).contents(),
                        graph_id@,
                        graph@.chain[0],
                    ).insert(spec_graph_key(graph_id@), crate::codec::enc_graph_meta(graph@)));
                    assert(partial_create_write(
                        old(self).contents(),
                        self.contents(),
                        graph_id@,
                        graph@.chain[0],
                        crate::codec::enc_graph_meta(graph@),
                    ));
                }
                return Err(ServiceError::Persistence(e));
            },
        }
        proof {
            let m0 = old(self).contents();
            let gv = graph@;
            let lk = crate::keys::spec_graph_list_key();
            assert(gv.chain.len() == 1);
            assert(crate::graph::chain_linked(gv.chain));
            assert forall|i: int|
                0 <= i < gv.chain.len() implies crate::codec::block_encodable(
                #[trigger] gv.chain[i],
            ) by {
                assert(gv.chain[i] == gv.chain[0]);
            }
            assert(after_save_blocks(m0, gv.id, gv.chain, 0) == m0);
            assert(after_save_blocks(m0, gv.id, gv.chain, 1) == after_save_block(
                m0,
                gv.id,
                gv.chain[0],
            ));
            crate::keys::lemma_block_key_families_disjoint(gv.id, gv.chain[0].height, gv.id, gv.chain[0].hash);
            crate::keys::lemma_other_key_families_disjoint(gv.id, gv.chain[0].hash, gv.id);
            if !m0.contains_key(lk) {
                lemma_store_round_trip(m0, gv, crate::codec::enc_str_list(seq![gv.id]));
            } else {
                let ids = crate::codec::dec_id_list(m0[lk])->0;
                lemma_store_round_trip(m0, gv, crate::codec::enc_str_list(ids.push(gv.id)));
            }
        }
        let latest_hash = match graph.get_latest_block() {
            Some(b) => b.hash.clone(),
            None => String::new(),
        };
        let is_valid = graph.is_valid();
        let info = GraphInfo {
            graph_id: graph.id.clone(),
            graph_type: graph.graph_type.to_i32(),
            total_blocks: graph.get_chain_length(),
            latest_hash,
            created_at: graph.created_at,
            is_valid,
            description: graph.description.clone(),
        };
        self.registry_insert(graph);
        Ok(info)
    }

    fn registry_insert(&mut self, graph: BlockchainGraph)
        ensures
            final(self).repository == old(self).repository,
            final(self).in_registry(graph@.id) == Some(graph@),
            forall|id2: Seq<char>|
                id2 != graph@.id ==> final(self).in_registry(id2) == old(self).in_registry(id2),
    {
        let ghost dv = old(self).graphs.deep_view();
        let ghost gv = graph@;
        match self.registry_find(graph.id.as_str()) {
            Some(i) => {
                self.graphs.remove(i);
                self.graphs.insert(i, graph);
                proof {
                    assert(self.graphs.deep_view() =~= dv.update(i as int, gv));
                    assert forall|id2: Seq<char>| true implies #[trigger] cached_in(
                        self.graphs.deep_view(),
                        id2,
                    ) == if id2 == gv.id {
                        Some(gv)
                    } else {
                        cached_in(dv, id2)
                    } by {
                        lemma_cached_update(dv, i as int, gv, id2);
                    }
                }
            },
            None => {
                self.graphs.push(graph);
                proof {
                    assert(self.graphs.deep_view() =~= dv.push(gv));
                    assert forall|id2: Seq<char>| true implies #[trigger] cached_in(
                        self.graphs.deep_view(),
                        id2,
                    ) == if id2 == gv.id {
                        Some(gv)
                    } else {
                        cached_in(dv, id2)
                    } by {
                        lemma_cached_push(dv, gv, id2);
                        if cached_in(dv, id2) is Some {
                            lemma_cached_in_id(dv, id2);
                        }
                    }
                }
            },
        }
    }

    /// Appends a payload to a ledger: builds a candidate on top of the
    /// latest block, lets the ledger seal and validate it, persists the
    /// sealed block, and returns it. If persistence fails, the in-memory
    /// append is rolled back, so the registry and the store stay consistent.
    pub fn handle_add_block(
        &mut self,
        graph_id: &str,
        data: String,
        cross_references: Vec<String>,
    ) -> (r: Result<Block, ServiceError>)
        ensures
            ({
                let id = graph_id@;
                match r {
                    Ok(sealed) => {
                        &&& old(self).in_registry(id) is Some
                        &&& ({
                            let g0 = old(self).in_registry(id)->0;
                            &&& sealed@.hash == spec_content_hash(sealed@)
                            &&& spec_has_difficulty(sealed@.hash, g0.difficulty)
                            &&& sealed@.data == data@
                            &&& sealed@.graph_id == id
                            &&& sealed@.cross_references == cross_references.deep_view()
                            &&& (g0.chain.len() > 0 ==> sealed@.previous_hash
                                == g0.chain.last().hash && sealed@.height == g0.chain.last().height
                                + 1)
                            &&& (g0.chain.len() == 0 ==> sealed@.previous_hash == "0"@
                                && sealed@.height == 0)
                            &&& final(self).in_registry(id) == Some(
                                GraphView { chain: g0.chain.push(sealed@), ..g0 },
                            )
                            &&& (g0.wf() && g0.chain.len() > 0 ==> (final(self).in_registry(
                                id,
                            )->0).wf())
                            &&& final(self).contents() == after_save_block(
                                old(self).contents(),
                                id,
                                sealed@,
                            )
                        })
                        &&& forall|id2: Seq<char>|
                            id2 != id ==> final(self).in_registry(id2) == old(self).in_registry(
                                id2,
                            )
                    },
                    Err(ServiceError::GraphNotFound) => {
                        &&& old(self).in_registry(id) is None
                        &&& final(self).registry() == old(self).registry()
                        &&& final(self).contents() == old(self).contents()
                    },
                    Err(ServiceError::Validation(e)) => {
                        &&& old(self).in_registry(id) is Some
                        &&& (e == LedgerError::DifficultyUnmet || e == LedgerError::HeightMismatch)
                        &&& (e == LedgerError::HeightMismatch ==> ({
                            let g0 = old(self).in_registry(id)->0;
                            g0.chain.len() > 0 && g0.chain.last().height == u64::MAX
                        }))
                        &&& (e == LedgerError::DifficultyUnmet ==> ({
                            let g0 = old(self).in_registry(id)->0;
                            exists|cand: BlockView|
                                {
                                    &&& cand.graph_id == id
                                    &&& cand.data == data@
                                    &&& cand.cross_references == cross_references.deep_view()
                                    &&& (g0.chain.len() > 0 ==> cand.previous_hash
                                        == g0.chain.last().hash && cand.height
                                        == g0.chain.last().height + 1)
                                    &&& (g0.chain.len() == 0 ==> cand.previous_hash == "0"@
                                        && cand.height == 0)
                                    &&& !(#[trigger] some_nonce_works(cand, g0.difficulty))
                                }
                        }))
                        &&& final(self).in_registry(id) == old(self).in_registry(id)
                        &&& (forall|id2: Seq<char>|
                            id2 != id ==> final(self).in_registry(id2) == old(self).in_registry(
                                id2,
                            ))
                        &&& final(self).contents() == old(self).contents()
                    },
                    Err(ServiceError::Persistence(e)) => {
                        &&& old(self).in_registry(id) is Some
                        &&& final(self).in_registry(id) == old(self).in_registry(id)
                        &&& (forall|id2: Seq<char>|
                            id2 != id ==> final(self).in_registry(id2) == old(self).in_registry(
                                id2,
                            ))
                        &&& exists|b: BlockView|
                            {
                                &&& b.graph_id == id
                                &&& b.data == data@
                                &&& b.cross_references == cross_references.deep_view()
                                &&& #[trigger] partial_block_write(
                                    old(self).contents(),
                                    final(self).contents(),
                                    id,
                                    b,
                                )
                            }
                    },
                    Err(e) => false,
                }
            }),
    {
        let idx = match self.registry_find(graph_id) {
            Some(i) => i,
            None => {
                return Err(ServiceError::GraphNotFound);
            },
        };
        let ghost reg0 = self.graphs.deep_view();
        let ghost g0 = reg0[idx as int];
        let mut graph = self.graphs.remove(idx);
        proof {
            assert(graph@ == g0);
        }
        let (previous_hash, height): (String, u64) = match graph.get_latest_block() {
            Some(latest) => {
                if latest.height == u64::MAX {
                    self.graphs.insert(idx, graph);
                    proof {
                        assert(self.graphs.deep_view() =~= reg0);
                    }
                    return Err(ServiceError::Validation(LedgerError::HeightMismatch));
                }
                (latest.hash.clone(), latest.height + 1)
            },
            None => (String::from_str("0"), 0),
        };
        let block = Block::new(
            previous_hash,
            data,
            graph_id.to_owned(),
            height,
            cross_references,
        );
        let ghost candv = block@;
        let sealed = match graph.add_block(block) {
            Ok(b) => b,
            Err(e) => {
                self.graphs.insert(idx, graph);
                proof {
                    assert(self.graphs.deep_view() =~= reg0);
                    assert(e == LedgerError::DifficultyUnmet);
                    assert(!some_nonce_works(candv, g0.difficulty));
                }
                return Err(ServiceError::Validation(e));
            },
        };
        match self.repository.save_block(graph_id, &sealed) {
            Ok(_) => {},
            Err(_) => {
                // Roll the in-memory append back: the registry must never
                // report a block the store will not replay.
                let ghost before_pop = graph.chain.deep_view();
                proof {
                    assert(before_pop == g0.chain.push(sealed@));
                }
                graph.chain.pop();
                proof {
                    assert(graph.chain@.len() == before_pop.len() - 1);
                    assert forall|k: int| 0 <= k < graph.chain@.len() implies #[trigger] graph.chain.deep_view()[k] == g0.chain[k] by {
                        assert(graph.chain.deep_view()[k] == graph.chain@[k]@);
                        assert(before_pop[k] == g0.chain.push(sealed@)[k]);
                    }
                    assert(graph.chain.deep_view() =~= g0.chain);
                    assert(graph@ == g0);
                }
                self.graphs.insert(idx, graph);
                proof {
                    assert(self.graphs.deep_view() =~= reg0);
                    assert(sealed@.graph_id == graph_id@);
                    assert(partial_block_write(
                        old(self).contents(),
                        self.contents(),
                        graph_id@,
                        sealed@,
                    ));
                }
                return Err(ServiceError::Persistence(RepoError::Store));
            },
        }
        self.graphs.insert(idx, graph);
        proof {
            let dv = self.graphs.deep_view();
            assert(dv =~= reg0.update(idx as int, dv[idx as int]));
            assert forall|id2: Seq<char>| true implies #[trigger] cached_in(dv, id2) == if id2
                == g0.id {
                Some(dv[idx as int])
            } else {
                cached_in(reg0, id2)
            } by {
                lemma_cached_update(reg0, idx as int, dv[idx as int], id2);
            }
        }
        Ok(sealed)
    }

    /// Reports a ledger's descriptor, chain statistics and integrity, or
    /// none when the id is not registered.
    pub fn handle_get_graph_info(&self, graph_id: &str) -> (r: Option<GraphInfo>)
        ensures
            match r {
                Some(info) => match self.in_registry(graph_id@) {
                    Some(g) => {
                        &&& info.graph_id@ == g.id
                        &&& info.graph_type as int == spec_graph_type_to_i32(g.graph_type)
                        &&& info.total_blocks == g.chain.len()
                        &&& (g.chain.len() > 0 ==> info.latest_hash@ == g.chain.last().hash)
                        &&& (g.chain.len() == 0 ==> info.latest_hash@ == Seq::<char>::empty())
                        &&& info.created_at == g.created_at
                        &&& info.is_valid == g.wf()
                        &&& info.description@ == g.description
                    },
                    None => false,
                },
                None => self.in_registry(graph_id@) is None,
            },
    {
        let idx = match self.registry_find(graph_id) {
            Some(i) => i,
            None => {
                return None;
            },
        };
        let graph = &self.graphs[idx];
        proof {
            assert(graph@ == self.registry()[idx as int]);
        }
        let latest_hash = match graph.get_latest_block() {
            Some(b) => b.hash.clone(),
            None => String::new(),
        };
        let is_valid = graph.is_valid();
        Some(
            GraphInfo {
                graph_id: graph.id.clone(),
                graph_type: graph.graph_type.to_i32(),
                total_blocks: graph.get_chain_length(),
                latest_hash,
                created_at: graph.created_at,
                is_valid,
                description: graph.description.clone(),
            },
        )
    }

    /// Re-checks one ledger's chain invariants, or none when the id is not
    /// registered.
    pub fn handle_verify_graph(&self, graph_id: &str) -> (r: Option<bool>)
        ensures
            match r {
                Some(b) => self.in_registry(graph_id@) is Some && b == (self.in_registry(
                    graph_id@,
                )->0).wf(),
                None => self.in_registry(graph_id@) is None,
            },
    {
        let idx = match self.registry_find(graph_id) {
            Some(i) => i,
            None => {
                return None;
            },
        };
        let graph = &self.graphs[idx];
        proof {
            assert(graph@ == self.registry()[idx as int]);
        }
        Some(graph.is_valid())
    }

    /// Validates every ledger's chain invariants and every cross-reference
    /// across the registry.
    pub fn handle_cross_validate(&self) -> (r: CrossValidateOutcome)
        ensures
            r.statuses.len() == self.registry().len(),
            forall|i: int|
                0 <= i < self.registry().len() ==> (#[trigger] r.statuses@[i]).0@
                    == self.registry()[i].id && r.statuses@[i].1 == self.registry()[i].wf(),
            r.all_valid == ((forall|i: int|
                0 <= i < self.registry().len() ==> (#[trigger] self.registry()[i]).wf()) && (forall|
                i: int,
            |
                0 <= i < self.registry().len() ==> cross_refs_ok(
                    #[trigger] self.registry()[i],
                    self.registry(),
                ))),
    {
        let ghost reg = self.registry();
        let mut statuses: Vec<(String, bool)> = Vec::new();
        let mut all_valid = true;
        let mut i: usize = 0;
        while i < self.graphs.len()
            invariant
                i <= self.graphs.len(),
                reg == self.registry(),
                statuses@.len() == i,
                forall|k: int|
                    0 <= k < i ==> (#[trigger] statuses@[k]).0@ == reg[k].id && statuses@[k].1
                        == reg[k].wf(),
                all_valid == forall|k: int| 0 <= k < i ==> (#[trigger] reg[k]).wf(),
            decreases self.graphs.len() - i,
        {
            let graph = &self.graphs[i];
            proof {
                assert(graph@ == reg[i as int]);
            }
            let is_valid = graph.is_valid();
            statuses.push((graph.id.clone(), is_valid));
            if !is_valid {
                all_valid = false;
            }
            i += 1;
        }
        let mut j: usize = 0;
        while j < self.graphs.len()
            invariant
                j <= self.graphs.len(),
                reg == self.registry(),
                statuses@.len() == reg.len(),
                forall|k: int|
                    0 <= k < reg.len() ==> (#[trigger] statuses@[k]).0@ == reg[k].id
                        && statuses@[k].1 == reg[k].wf(),
                all_valid == ((forall|k: int| 0 <= k < reg.len() ==> (#[trigger] reg[k]).wf()) && (
                forall|k: int| 0 <= k < j ==> cross_refs_ok(#[trigger] reg[k], reg))),
            decreases self.graphs.len() - j,
        {
            let graph = &self.graphs[j];
            proof {
                assert(graph@ == reg[j as int]);
            }
            match graph.validate_cross_references(&self.graphs) {
                Ok(_) => {},
                Err(_) => {
                    all_valid = false;
                },
            }
            j += 1;
        }
        CrossValidateOutcome { all_valid, statuses }
    }

    /// Lists every registered ledger: id, category, block count and
    /// description, in registry order.
    pub fn handle_list_graphs(&self) -> (r: Vec<GraphSummary>)
        ensures
            r@.len() == self.registry().len(),
            forall|i: int|
                0 <= i < self.registry().len() ==> {
                    let s = #[trigger] r@[i];
                    &&& s.graph_id@ == self.registry()[i].id
                    &&& s.graph_type as int == spec_graph_type_to_i32(self.registry()[i].graph_type)
                    &&& s.total_blocks == self.registry()[i].chain.len()
                    &&& s.description@ == self.registry()[i].description
                },
    {
        let ghost reg = self.registry();
        let mut out: Vec<GraphSummary> = Vec::new();
        let mut i: usize = 0;
        while i < self.graphs.len()
            invariant
                i <= self.graphs.len(),
                reg == self.registry(),
                out@.len() == i,
                forall|k: int|
                    0 <= k < i ==> {
                        let s = #[trigger] out@[k];
                        &&& s.graph_id@ == reg[k].id
                        &&& s.graph_type as int == spec_graph_type_to_i32(reg[k].graph_type)
                        &&& s.total_blocks == reg[k].chain.len()
                        &&& s.description@ == reg[k].description
                    },
            decreases self.graphs.len() - i,
        {
            let graph = &self.graphs[i];
            proof {
                assert(graph@ == reg[i as int]);
            }
            out.push(
                GraphSummary {
                    graph_id: graph.id.clone(),
                    graph_type: graph.graph_type.to_i32(),
                    total_blocks: graph.get_chain_length(),
                    description: graph.description.clone(),
                },
            );
            i += 1;
        }
        out
    }

    /// Reads a block by fingerprint, straight from the store's fingerprint
    /// index. Returns the block the index leads to, none when the index
    /// entry or the block is absent, and an error when the store fails or a
    /// record is malformed.
    pub fn handle_get_block(&self, graph_id: &str, hash: &str) -> (r: Result<
        Option<Block>,
        RepoError,
    >)
        ensures
            ({
                let m = self.contents();
                let hk = spec_block_hash_key(graph_id@, hash@);
                match r {
                    Ok(Some(b)) => dec_block_at(m, graph_id@, hk) == Some(b@),
                    Ok(None) => !m.contains_key(hk) || (m[hk].len() == 8 && !m.contains_key(
                        spec_block_key(graph_id@, spec_u64_from_le_bytes(m[hk]) as nat),
                    )),
                    Err(RepoError::CorruptRecord) => m.contains_key(hk) && dec_block_at(
                        m,
                        graph_id@,
                        hk,
                    ) is None,
                    Err(RepoError::Store) => true,
                }
            }),
    {
        self.repository.get_block(graph_id, hash)
    }

    /// Reads the latest block of a ledger from the store's latest-height
    /// pointer. Returns the block the pointer leads to, none when the
    /// pointer or the block is absent, and an error when the store fails or
    /// a record is malformed.
    pub fn handle_get_latest_block(&self, graph_id: &str) -> (r: Result<Option<Block>, RepoError>)
        ensures
            ({
                let m = self.contents();
                let lk = spec_latest_key(graph_id@);
                match r {
                    Ok(Some(b)) => dec_block_at(m, graph_id@, lk) == Some(b@),
                    Ok(None) => !m.contains_key(lk) || (m[lk].len() == 8 && !m.contains_key(
                        spec_block_key(graph_id@, spec_u64_from_le_bytes(m[lk]) as nat),
                    )),
                    Err(RepoError::CorruptRecord) => m.contains_key(lk) && dec_block_at(
                        m,
                        graph_id@,
                        lk,
                    ) is None,
                    Err(RepoError::Store) => true,
                }
            }),
    {
        self.repository.get_latest_block(graph_id)
    }

    /// Reads the stored blocks at heights `start..=end`, in order, skipping
    /// heights with no record.
    pub fn handle_get_block_range(&self, graph_id: &str, start: u64, end: u64) -> (r: Result<
        Vec<Block>,
        RepoError,
    >)
        ensures
            match r {
                Ok(l) => l.deep_view() == loaded_range(
                    self.contents(),
                    graph_id@,
                    start as nat,
                    end as nat,
                ) && range_ok(self.contents(), graph_id@, start as nat, end as nat),
                Err(RepoError::CorruptRecord) => !range_ok(
                    self.contents(),
                    graph_id@,
                    start as nat,
                    end as nat,
                ),
                Err(RepoError::Store) => true,
            },
    {
        self.repository.get_blocks_range(graph_id, start, end)
    }
}

} // verus!
