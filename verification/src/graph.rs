//! A ledger ("graph"): one category-scoped, append-only hash chain.
//!
//! The chain invariants: the root block links to the reserved previous hash
//! `"0"` at height zero, every later block links to its predecessor's
//! fingerprint at the predecessor's height plus one, and every block's
//! fingerprint both equals its content hash and meets the ledger's
//! difficulty. A ledger grows only by validated, sealed appends.

use vstd::prelude::*;
use vstd::string::StringExecFns;

use crate::block::{
    lemma_some_nonce_works_same_fields, same_unsealed_fields, some_nonce_works, spec_content_hash,
    spec_has_difficulty, Block, BlockView,
};
use crate::hashing::now_timestamp;

verus! {

/// The category of data a ledger is dedicated to.
#[derive(Debug, Clone, Copy, PartialEq, Eq, Hash, Structural)]
pub enum GraphType {
    Transaction,
    Identity,
    Asset,
    Audit,
    Custom,
}

pub open spec fn spec_graph_type_from_i32(value: int) -> GraphType {
    if value == 0 {
        GraphType::Transaction
    } else if value == 1 {
        GraphType::Identity
    } else if value == 2 {
        GraphType::Asset
    } else if value == 3 {
        GraphType::Audit
    } else {
        GraphType::Custom
    }
}

pub open spec fn spec_graph_type_to_i32(t: GraphType) -> int {
    match t {
        GraphType::Transaction => 0,
        GraphType::Identity => 1,
        GraphType::Asset => 2,
        GraphType::Audit => 3,
        GraphType::Custom => 4,
    }
}

impl GraphType {
    /// Decodes a wire-format discriminant; unknown values map to `Custom`.
    pub fn from_i32(value: i32) -> (r: GraphType)
        ensures
            r == spec_graph_type_from_i32(value as int),
    {
        match value {
            0 => GraphType::Transaction,
            1 => GraphType::Identity,
            2 => GraphType::Asset,
            3 => GraphType::Audit,
            _ => GraphType::Custom,
        }
    }

    /// Encodes the category as its wire-format discriminant.
    pub fn to_i32(&self) -> (r: i32)
        ensures
            r as int == spec_graph_type_to_i32(*self),
    {
        match self {
            GraphType::Transaction => 0,
            GraphType::Identity => 1,
            GraphType::Asset => 2,
            GraphType::Audit => 3,
            GraphType::Custom => 4,
        }
    }
}

/// Why an append was rejected. Validation failures are data, never faults.
#[derive(Debug, Clone, Copy, PartialEq, Eq, Structural)]
pub enum LedgerError {
    /// The candidate's previous hash does not equal the latest fingerprint.
    BrokenLink,
    /// The candidate's height is not the latest height plus one.
    HeightMismatch,
    /// The candidate arrived with a stale fingerprint that already met the
    /// difficulty, so sealing left it alone and the content check failed.
    CorruptSeal,
    /// The sealed fingerprint does not meet the ledger's difficulty.
    DifficultyUnmet,
}

/// A cross-ledger reference that resolves to no block in any other ledger.
#[derive(Debug)]
pub struct ReferenceError {
    /// The fingerprint that was not found.
    pub reference: String,
}

/// The mathematical content of a ledger.
pub ghost struct GraphView {
    pub id: Seq<char>,
    pub graph_type: GraphType,
    pub description: Seq<char>,
    pub created_at: int,
    pub difficulty: nat,
    pub chain: Seq<BlockView>,
}

/// Structural chain invariants: the root block uses the reserved previous
/// hash `"0"` at height zero, and each later block links to its
/// predecessor's fingerprint at the predecessor's height plus one.
pub open spec fn chain_linked(chain: Seq<BlockView>) -> bool {
    &&& chain.len() > 0 ==> chain[0].previous_hash == "0"@ && chain[0].height == 0
    &&& forall|i: int|
        1 <= i < chain.len() ==> (#[trigger] chain[i]).previous_hash == chain[i - 1].hash
            && chain[i].height == chain[i - 1].height + 1
}

/// Sealing invariants: every block's fingerprint equals its content hash and
/// meets the difficulty.
pub open spec fn chain_sealed(chain: Seq<BlockView>, difficulty: nat) -> bool {
    forall|i: int|
        0 <= i < chain.len() ==> (#[trigger] chain[i]).hash == spec_content_hash(chain[i])
            && spec_has_difficulty(chain[i].hash, difficulty)
}

impl GraphView {
    /// All chain invariants of the ledger.
    pub open spec fn wf(self) -> bool {
        chain_linked(self.chain) && chain_sealed(self.chain, self.difficulty)
    }
}

/// Is there a block with fingerprint `h` in `chain`?
pub open spec fn chain_contains_hash(chain: Seq<BlockView>, h: Seq<char>) -> bool {
    exists|b: int| 0 <= b < chain.len() && (#[trigger] chain[b]).hash == h
}

/// Is `r` the fingerprint of a block in some ledger other than `self_id`?
/// The referencing ledger's own chain is deliberately excluded: a
/// cross-reference must point across categories.
pub open spec fn ref_found_in_others(
    graphs: Seq<GraphView>,
    self_id: Seq<char>,
    r: Seq<char>,
) -> bool {
    exists|g: int|
        0 <= g < graphs.len() && (#[trigger] graphs[g]).id != self_id && chain_contains_hash(
            graphs[g].chain,
            r,
        )
}

/// Every non-empty cross-reference of `v` resolves in some other ledger.
pub open spec fn cross_refs_ok(v: GraphView, graphs: Seq<GraphView>) -> bool {
    forall|i: int, j: int|
        0 <= i < v.chain.len() && 0 <= j < v.chain[i].cross_references.len() ==> {
            let r = #[trigger] v.chain[i].cross_references[j];
            r.len() == 0 || ref_found_in_others(graphs, v.id, r)
        }
}

/// Every block of a well-formed ledger is sealed: its fingerprint equals
/// its content hash and meets the ledger's difficulty.
pub proof fn lemma_sealed_blocks_verify(g: GraphView, i: int)
    requires
        g.wf(),
        0 <= i < g.chain.len(),
    ensures
        g.chain[i].hash == spec_content_hash(g.chain[i]),
        spec_has_difficulty(g.chain[i].hash, g.difficulty),
{
}

/// A non-empty cross-reference that no *other* ledger's chain contains
/// never resolves, even when the referencing ledger's own chain contains
/// it: resolution excludes the referencing ledger on purpose, because a
/// cross-reference must point across categories.
pub proof fn lemma_cross_reference_self_excluded(
    v: GraphView,
    graphs: Seq<GraphView>,
    i: int,
    j: int,
)
    requires
        0 <= i < v.chain.len(),
        0 <= j < v.chain[i].cross_references.len(),
        v.chain[i].cross_references[j].len() > 0,
        forall|g: int|
            0 <= g < graphs.len() && (#[trigger] graphs[g]).id != v.id ==> !chain_contains_hash(
                graphs[g].chain,
                v.chain[i].cross_references[j],
            ),
    ensures
        !cross_refs_ok(v, graphs),
{
    assert(!ref_found_in_others(graphs, v.id, v.chain[i].cross_references[j]));
}

/// One ledger: its descriptor and its in-memory chain. The chain is held
/// in memory only; the persistence schema stores blocks and the descriptor
/// separately and rehydrates the chain on load.
#[derive(Debug)]
pub struct BlockchainGraph {
    pub id: String,
    pub graph_type: GraphType,
    pub description: String,
    pub created_at: i64,
    pub difficulty: usize,
    pub chain: Vec<Block>,
}

impl View for BlockchainGraph {
    type V = GraphView;

    open spec fn view(&self) -> GraphView {
        GraphView {
            id: self.id@,
            graph_type: self.graph_type,
            description: self.description@,
            created_at: self.created_at as int,
            difficulty: self.difficulty as nat,
            chain: self.chain.deep_view(),
        }
    }
}

impl DeepView for BlockchainGraph {
    type V = GraphView;

    open spec fn deep_view(&self) -> GraphView {
        self.view()
    }
}

impl Clone for BlockchainGraph {
    fn clone(&self) -> (r: Self)
        ensures
            r@ == self@,
    {
        let chain = self.chain.clone();
        proof {
            assert(chain.deep_view() =~= self.chain.deep_view());
        }
        BlockchainGraph {
            id: self.id.clone(),
            graph_type: self.graph_type,
            description: self.description.clone(),
            created_at: self.created_at,
            difficulty: self.difficulty,
            chain,
        }
    }
}

impl BlockchainGraph {
    /// Creates a ledger with a sealed root block. The root is mined against
    /// `difficulty`; because sealing success is probabilistic, the chain
    /// invariants are promised under the (practically certain) condition that
    /// the root's fingerprint meets the difficulty.
    pub fn new(id: String, graph_type: GraphType, description: String, difficulty: usize) -> (r:
        BlockchainGraph)
        ensures
            r@.id == id@,
            r@.graph_type == graph_type,
            r@.description == description@,
            r@.difficulty == difficulty as nat,
            r@.chain.len() == 1,
            r@.chain[0].previous_hash == "0"@,
            r@.chain[0].height == 0,
            r@.chain[0].graph_id == id@,
            r@.chain[0].data == "Genesis Block"@,
            r@.chain[0].cross_references == Seq::<Seq<char>>::empty(),
            r@.chain[0].hash == spec_content_hash(r@.chain[0]),
            spec_has_difficulty(r@.chain[0].hash, difficulty as nat) || !some_nonce_works(
                r@.chain[0],
                difficulty as nat,
            ),
            spec_has_difficulty(r@.chain[0].hash, difficulty as nat) ==> r@.wf(),
    {
        let mut genesis = Block::genesis(id.clone());
        let ghost unsealed = genesis@;
        genesis.mine_block(difficulty);
        proof {
            lemma_some_nonce_works_same_fields(unsealed, genesis@, difficulty as nat);
        }
        let mut chain: Vec<Block> = Vec::new();
        chain.push(genesis);
        let created_at = now_timestamp();
        let graph = BlockchainGraph { id, graph_type, description, created_at, difficulty, chain };
        graph
    }

    /// Appends a candidate block. Linkage and height are validated against
    /// the latest block, the candidate is sealed against the ledger's
    /// difficulty (the ledger, not the caller, is authoritative for
    /// proof-of-work), and the seal is re-verified before the chain grows.
    /// On any failure the chain is unchanged.
    pub fn add_block(&mut self, block: Block) -> (r: Result<Block, LedgerError>)
        ensures
            ({
                let pre = old(self)@;
                let cand = block@;
                let link_err = pre.chain.len() > 0 && cand.previous_hash != pre.chain.last().hash;
                let height_err = pre.chain.len() > 0 && cand.height != pre.chain.last().height + 1;
                let stale = spec_has_difficulty(cand.hash, pre.difficulty) && cand.hash
                    != spec_content_hash(cand);
                match r {
                    Ok(sealed) => {
                        &&& !link_err
                        &&& !height_err
                        &&& !stale
                        &&& sealed@.hash == spec_content_hash(sealed@)
                        &&& spec_has_difficulty(sealed@.hash, pre.difficulty)
                        &&& same_unsealed_fields(cand, sealed@)
                        &&& final(self)@.chain == pre.chain.push(sealed@)
                        &&& final(self)@.id == pre.id
                        &&& final(self)@.graph_type == pre.graph_type
                        &&& final(self)@.description == pre.description
                        &&& final(self)@.created_at == pre.created_at
                        &&& final(self)@.difficulty == pre.difficulty
                    },
                    Err(e) => {
                        &&& final(self)@ == pre
                        &&& ((e == LedgerError::BrokenLink && link_err) || (e
                            == LedgerError::HeightMismatch && !link_err && height_err) || (e
                            == LedgerError::CorruptSeal && !link_err && !height_err && stale) || (e
                            == LedgerError::DifficultyUnmet && !link_err && !height_err && !stale
                            && !some_nonce_works(cand, pre.difficulty)))
                    },
                }
            }),
            old(self)@.wf() && old(self)@.chain.len() > 0 && r is Ok ==> final(self)@.wf(),
    {
        let ghost cand = block@;
        let mut block = block;
        if self.chain.len() > 0 {
            let last = &self.chain[self.chain.len() - 1];
            if !(block.previous_hash == last.hash) {
                return Err(LedgerError::BrokenLink);
            }
            if !(block.height != 0 && block.height - 1 == last.height) {
                return Err(LedgerError::HeightMismatch);
            }
        }
        block.mine_block(self.difficulty);
        if !block.is_valid() {
            return Err(LedgerError::CorruptSeal);
        }
        if !block.has_valid_difficulty(self.difficulty) {
            proof {
                assert(!some_nonce_works(cand, self.difficulty as nat));
            }
            return Err(LedgerError::DifficultyUnmet);
        }
        let sealed = block.clone();
        self.chain.push(block);
        proof {
            assert(final(self)@.chain =~= old(self)@.chain.push(sealed@));
        }
        Ok(sealed)
    }

    /// The latest (most recently appended) block, or none for an empty chain.
    pub fn get_latest_block(&self) -> (r: Option<&Block>)
        ensures
            match r {
                Some(b) => self@.chain.len() > 0 && b@ == self@.chain.last(),
                None => self@.chain.len() == 0,
            },
    {
        if self.chain.len() == 0 {
            None
        } else {
            Some(&self.chain[self.chain.len() - 1])
        }
    }

    /// Re-checks every chain invariant across the whole chain: content hash,
    /// difficulty, root marker, linkage and height increments.
    pub fn is_valid(&self) -> (r: bool)
        ensures
            r == self@.wf(),
    {
        let root_marker = String::from_str("0");
        let mut i: usize = 0;
        while i < self.chain.len()
            invariant
                i <= self.chain.len(),
                root_marker@ == "0"@,
                forall|k: int|
                    0 <= k < i ==> (#[trigger] self@.chain[k]).hash == spec_content_hash(
                        self@.chain[k],
                    ) && spec_has_difficulty(self@.chain[k].hash, self@.difficulty),
                i > 0 ==> self@.chain[0].previous_hash == "0"@ && self@.chain[0].height == 0,
                forall|k: int|
                    1 <= k < i ==> (#[trigger] self@.chain[k]).previous_hash == self@.chain[k
                        - 1].hash && self@.chain[k].height == self@.chain[k - 1].height + 1,
            decreases self.chain.len() - i,
        {
            let current = &self.chain[i];
            proof {
                assert(current@ == self@.chain[i as int]);
            }
            if !current.is_valid() {
                proof {
                    assert(!chain_sealed(self@.chain, self@.difficulty));
                }
                return false;
            }
            if !current.has_valid_difficulty(self.difficulty) {
                proof {
                    assert(!chain_sealed(self@.chain, self@.difficulty));
                }
                return false;
            }
            if i == 0 {
                if !(current.previous_hash == root_marker) {
                    return false;
                }
                if current.height != 0 {
                    return false;
                }
            } else {
                let previous = &self.chain[i - 1];
                if !(current.previous_hash == previous.hash) {
                    return false;
                }
                if !(current.height != 0 && current.height - 1 == previous.height) {
                    return false;
                }
            }
            i += 1;
        }
        true
    }

    /// Replaces the in-memory chain wholesale. Used only during rehydration
    /// from storage; the caller is trusted to supply a previously validated
    /// sequence.
    pub fn load_blocks(&mut self, blocks: Vec<Block>)
        ensures
            final(self)@.chain == blocks.deep_view(),
            final(self)@.id == old(self)@.id,
            final(self)@.graph_type == old(self)@.graph_type,
            final(self)@.description == old(self)@.description,
            final(self)@.created_at == old(self)@.created_at,
            final(self)@.difficulty == old(self)@.difficulty,
    {
        self.chain = blocks;
    }

    /// The number of blocks in the chain.
    pub fn get_chain_length(&self) -> (r: u64)
        ensures
            r == self@.chain.len(),
    {
        self.chain.len() as u64
    }

    /// Checks that every non-empty cross-reference recorded in this ledger
    /// resolves to a block in some *other* ledger of `other_graphs`. The
    /// ledger's own chain is excluded from the search on purpose:
    /// cross-references encode links across categories. An empty reference is
    /// treated as absent. On failure the missing fingerprint named is the
    /// first unresolved one in chain-then-reference order.
    pub fn validate_cross_references(&self, other_graphs: &Vec<BlockchainGraph>) -> (r: Result<
        (),
        ReferenceError,
    >)
        ensures
            ({
                let graphs = other_graphs.deep_view();
                match r {
                    Ok(_) => cross_refs_ok(self@, graphs),
                    Err(e) => {
                        &&& !cross_refs_ok(self@, graphs)
                        &&& e.reference@.len() > 0
                        &&& !ref_found_in_others(graphs, self@.id, e.reference@)
                        &&& exists|i: int, j: int|
                            {
                                &&& 0 <= i < self@.chain.len()
                                &&& 0 <= j < self@.chain[i].cross_references.len()
                                &&& (#[trigger] self@.chain[i].cross_references[j]) == e.reference@
                                &&& forall|i2: int, j2: int|
                                    #![trigger self@.chain[i2].cross_references[j2]]
                                    (0 <= i2 < i || (i2 == i && 0 <= j2 < j)) && 0 <= i2
                                        < self@.chain.len() && 0 <= j2 < self@.chain[
                                        i2
                                    ].cross_references.len() ==> {
                                        let r2 = self@.chain[i2].cross_references[j2];
                                        r2.len() == 0 || ref_found_in_others(graphs, self@.id, r2)
                                    }
                            }
                    },
                }
            }),
    {
        let ghost graphs = other_graphs.deep_view();
        let mut i: usize = 0;
        while i < self.chain.len()
            invariant
                i <= self.chain.len(),
                graphs == other_graphs.deep_view(),
                forall|i2: int, j2: int|
                    0 <= i2 < i && 0 <= j2 < self@.chain[i2].cross_references.len() ==> {
                        let r2 = #[trigger] self@.chain[i2].cross_references[j2];
                        r2.len() == 0 || ref_found_in_others(graphs, self@.id, r2)
                    },
            decreases self.chain.len() - i,
        {
            let block = &self.chain[i];
            let mut j: usize = 0;
            while j < block.cross_references.len()
                invariant
                    i < self.chain.len(),
                    j <= block.cross_references.len(),
                    block == &self.chain[i as int],
                    graphs == other_graphs.deep_view(),
                    forall|i2: int, j2: int|
                        0 <= i2 < i && 0 <= j2 < self@.chain[i2].cross_references.len() ==> {
                            let r2 = #[trigger] self@.chain[i2].cross_references[j2];
                            r2.len() == 0 || ref_found_in_others(graphs, self@.id, r2)
                        },
                    forall|j2: int|
                        0 <= j2 < j ==> {
                            let r2 = #[trigger] self@.chain[i as int].cross_references[j2];
                            r2.len() == 0 || ref_found_in_others(graphs, self@.id, r2)
                        },
                decreases block.cross_references.len() - j,
            {
                let cross_ref = &block.cross_references[j];
                let mut found = false;
                let mut g: usize = 0;
                while g < other_graphs.len() && !found
                    invariant
                        g <= other_graphs.len(),
                        graphs == other_graphs.deep_view(),
                        found ==> ref_found_in_others(graphs, self@.id, cross_ref@),
                        !found ==> forall|g2: int|
                            0 <= g2 < g ==> (#[trigger] graphs[g2]).id == self@.id
                                || !chain_contains_hash(graphs[g2].chain, cross_ref@),
                    decreases other_graphs.len() - g,
                {
                    let graph = &other_graphs[g];
                    if !(graph.id == self.id) {
                        let mut b: usize = 0;
                        while b < graph.chain.len() && !found
                            invariant
                                b <= graph.chain.len(),
                                g < other_graphs.len(),
                                graph == &other_graphs[g as int],
                                graphs == other_graphs.deep_view(),
                                graph@.id != self@.id,
                                found ==> chain_contains_hash(graphs[g as int].chain, cross_ref@),
                                !found ==> forall|b2: int|
                                    0 <= b2 < b ==> (#[trigger] graphs[g as int].chain[b2]).hash
                                        != cross_ref@,
                            decreases graph.chain.len() - b,
                        {
                            let candidate = &graph.chain[b];
                            proof {
                                assert(candidate@ == graphs[g as int].chain[b as int]);
                            }
                            if candidate.hash == *cross_ref {
                                found = true;
                                proof {
                                    assert(chain_contains_hash(
                                        graphs[g as int].chain,
                                        cross_ref@,
                                    ));
                                }
                            }
                            b += 1;
                        }
                    }
                    g += 1;
                }
                if !found && cross_ref.as_str().unicode_len() > 0 {
                    proof {
                        assert(self@.chain[i as int].cross_references[j as int] == cross_ref@);
                        assert(!ref_found_in_others(graphs, self@.id, cross_ref@));
                        assert(!cross_refs_ok(self@, graphs));
                        assert forall|i2: int, j2: int|
                            #![trigger self@.chain[i2].cross_references[j2]]
                            (0 <= i2 < i || (i2 == i && 0 <= j2 < j)) && 0 <= i2
                                < self@.chain.len() && 0 <= j2 < self@.chain[
                                i2
                            ].cross_references.len() implies {
                            let r2 = self@.chain[i2].cross_references[j2];
                            r2.len() == 0 || ref_found_in_others(graphs, self@.id, r2)
                        } by {
                            if i2 == i as int {
                                let r2m = self@.chain[i as int].cross_references[j2];
                                assert(r2m.len() == 0 || ref_found_in_others(
                                    graphs,
                                    self@.id,
                                    r2m,
                                ));
                            }
                        }
                    }
                    return Err(ReferenceError { reference: cross_ref.clone() });
                }
                j += 1;
            }
            i += 1;
        }
        Ok(())
    }
}

} // verus!
