//! The repository: maps ledgers and blocks onto the key-value store using
//! the schema of `keys`, keeps the fingerprint and latest-height indices up
//! to date, rehydrates whole ledgers from flat records, and fronts the store
//! with an in-process read cache of fully hydrated ledgers.

use vstd::bytes::spec_u64_from_le_bytes;
use vstd::bytes::u64_to_le_bytes;
use vstd::prelude::*;

use crate::block::{Block, BlockView};
use crate::codec::{
    block_encodable, dec_block, dec_graph_meta, dec_id_list, decode_block, decode_graph_meta,
    decode_id_list, enc_block, enc_graph_meta, enc_str_list, enc_u64, encode_block,
    encode_graph_meta, encode_id_list, lemma_dec_block_enc, lemma_dec_graph_meta_enc,
    meta_encodable,
};
use crate::graph::{BlockchainGraph, GraphView};
use crate::keys::{
    block_hash_key, block_key, graph_key, graph_list_key, latest_block_key, spec_block_hash_key,
    spec_block_key, spec_graph_key, spec_graph_list_key, spec_latest_key,
};
use crate::store::{str_eq, Store, StoreError};

verus! {

/// Why a repository operation failed: the store itself failed, or a stored
/// record would not decode.
#[derive(Debug, Clone, Copy, PartialEq, Eq, Structural)]
pub enum RepoError {
    /// The underlying store reported an I/O failure.
    Store,
    /// A stored record (block, descriptor, height pointer or id list) was
    /// malformed.
    CorruptRecord,
}

/// Is the block slot of `id` at height `h` either absent or decodable?
pub open spec fn block_slot_ok(m: Map<Seq<char>, Seq<u8>>, id: Seq<char>, h: nat) -> bool {
    m.contains_key(spec_block_key(id, h)) ==> dec_block(m[spec_block_key(id, h)]) is Some
}

/// All block slots of `id` in `[lo, hi]` are absent or decodable.
pub open spec fn range_ok(m: Map<Seq<char>, Seq<u8>>, id: Seq<char>, lo: nat, hi: nat) -> bool {
    forall|h: nat| lo <= h <= hi ==> block_slot_ok(m, id, h)
}

/// The blocks stored for `id` at heights `lo..=hi`, in height order, absent
/// heights skipped (undecodable slots contribute nothing here; `range_ok`
/// rules them out where it matters).
pub open spec fn loaded_range(m: Map<Seq<char>, Seq<u8>>, id: Seq<char>, lo: nat, hi: nat) -> Seq<
    BlockView,
>
    decreases hi + 1 - lo,
{
    if lo > hi {
        Seq::empty()
    } else {
        let head: Seq<BlockView> = if m.contains_key(spec_block_key(id, lo)) {
            match dec_block(m[spec_block_key(id, lo)]) {
                Some(b) => seq![b],
                None => Seq::empty(),
            }
        } else {
            Seq::empty()
        };
        head + loaded_range(m, id, lo + 1, hi)
    }
}

/// The block an eight-byte height pointer stored under `ptr_key` leads to,
/// for ledger `id`: the pointer names a height, whose slot must hold a
/// decodable record.
pub open spec fn dec_block_at(m: Map<Seq<char>, Seq<u8>>, id: Seq<char>, ptr_key: Seq<char>) -> Option<
    BlockView,
> {
    if m.contains_key(ptr_key) && m[ptr_key].len() == 8 {
        let h = spec_u64_from_le_bytes(m[ptr_key]) as nat;
        if m.contains_key(spec_block_key(id, h)) {
            dec_block(m[spec_block_key(id, h)])
        } else {
            None
        }
    } else {
        None
    }
}

/// The latest block the latest-height pointer of `id` leads to.
pub open spec fn latest_block_of(m: Map<Seq<char>, Seq<u8>>, id: Seq<char>) -> Option<BlockView> {
    dec_block_at(m, id, spec_latest_key(id))
}

/// The store `m` rehydrates ledger `id` to exactly `g`: the descriptor key
/// decodes to `g`'s descriptor with id `id`, and the chain is the stored
/// range from height zero up to the height of the block the latest pointer
/// leads to (or empty when the pointer leads nowhere).
pub open spec fn loads_to(m: Map<Seq<char>, Seq<u8>>, id: Seq<char>, g: GraphView) -> bool {
    &&& g.id == id
    &&& m.contains_key(spec_graph_key(id))
    &&& dec_graph_meta(m[spec_graph_key(id)]) == Some(GraphView { chain: Seq::empty(), ..g })
    &&& match latest_block_of(m, id) {
        Some(latest) => range_ok(m, id, 0, latest.height) && g.chain == loaded_range(
            m,
            id,
            0,
            latest.height,
        ),
        None => g.chain == Seq::<BlockView>::empty(),
    }
}

/// Some stored record of ledger `id` is malformed: the descriptor fails to
/// decode or names another id, the latest-height pointer is not eight
/// bytes, the block slot the pointer names fails to decode, or a block slot
/// the rehydration scan reads fails to decode.
pub open spec fn some_record_corrupt(m: Map<Seq<char>, Seq<u8>>, id: Seq<char>) -> bool {
    ||| (m.contains_key(spec_graph_key(id)) && match dec_graph_meta(m[spec_graph_key(id)]) {
        Some(g) => g.id != id,
        None => true,
    })
    ||| (m.contains_key(spec_latest_key(id)) && m[spec_latest_key(id)].len() != 8)
    ||| (m.contains_key(spec_latest_key(id)) && m[spec_latest_key(id)].len() == 8 && ({
        let h = spec_u64_from_le_bytes(m[spec_latest_key(id)]) as nat;
        m.contains_key(spec_block_key(id, h)) && dec_block(m[spec_block_key(id, h)]) is None
    }))
    ||| match latest_block_of(m, id) {
        Some(latest) => !range_ok(m, id, 0, latest.height),
        None => false,
    }
}

/// The first cache entry whose id is `id`.
pub open spec fn cached_in(c: Seq<GraphView>, id: Seq<char>) -> Option<GraphView>
    decreases c.len(),
{
    if c.len() == 0 {
        None
    } else if c[0].id == id {
        Some(c[0])
    } else {
        cached_in(c.drop_first(), id)
    }
}

pub(crate) proof fn lemma_cached_update(c: Seq<GraphView>, i: int, g: GraphView, id2: Seq<char>)
    requires
        0 <= i < c.len(),
        c[i].id == g.id,
        forall|j: int| 0 <= j < i ==> c[j].id != g.id,
    ensures
        cached_in(c.update(i, g), id2) == if id2 == g.id {
            Some(g)
        } else {
            cached_in(c, id2)
        },
    decreases c.len(),
{
    if i == 0 {
        assert(c.update(0, g)[0] == g);
        if id2 != g.id {
            assert(c.update(0, g).drop_first() =~= c.drop_first());
        }
    } else {
        assert(c.update(i, g)[0] == c[0]);
        assert(c[0].id != g.id);
        if c[0].id == id2 {
        } else {
            assert(c.update(i, g).drop_first() =~= c.drop_first().update(i - 1, g));
            lemma_cached_update(c.drop_first(), i - 1, g, id2);
        }
    }
}

pub(crate) proof fn lemma_cached_push(c: Seq<GraphView>, g: GraphView, id2: Seq<char>)
    ensures
        cached_in(c.push(g), id2) == if cached_in(c, id2) is Some {
            cached_in(c, id2)
        } else if id2 == g.id {
            Some(g)
        } else {
            None
        },
    decreases c.len(),
{
    if c.len() == 0 {
        assert(c.push(g)[0] == g);
        if id2 != g.id {
            assert(c.push(g).drop_first() =~= Seq::<GraphView>::empty());
        }
    } else {
        assert(c.push(g)[0] == c[0]);
        if c[0].id != id2 {
            assert(c.push(g).drop_first() =~= c.drop_first().push(g));
            lemma_cached_push(c.drop_first(), g, id2);
        }
    }
}

/// A store rehydrates an id to at most one ledger: the descriptor record
/// fixes every field but the chain, and the latest pointer fixes the chain.
pub proof fn lemma_loads_to_unique(m: Map<Seq<char>, Seq<u8>>, id: Seq<char>, a: GraphView, b: GraphView)
    requires
        loads_to(m, id, a),
        loads_to(m, id, b),
    ensures
        a == b,
{
    assert(GraphView { chain: Seq::empty(), ..a } == GraphView { chain: Seq::empty(), ..b });
    assert(a.graph_type == b.graph_type);
    assert(a.description == b.description);
    assert(a.created_at == b.created_at);
    assert(a.difficulty == b.difficulty);
    assert(a.chain == b.chain);
}

/// What a registry listing yields for one id, against cache `c` and store
/// contents `m`: the cached ledger, else the one the store rehydrates, else
/// nothing (ids named in the list but missing from the store are skipped).
pub open spec fn listed_one(
    c: Seq<GraphView>,
    m: Map<Seq<char>, Seq<u8>>,
    id: Seq<char>,
) -> Seq<GraphView> {
    match cached_in(c, id) {
        Some(g) => seq![g],
        None => {
            if exists|g: GraphView| loads_to(m, id, g) {
                seq![choose|g: GraphView| loads_to(m, id, g)]
            } else {
                Seq::empty()
            }
        },
    }
}

/// Everything a registry listing yields for `ids`, in list order.
pub open spec fn listed_graphs(
    c: Seq<GraphView>,
    m: Map<Seq<char>, Seq<u8>>,
    ids: Seq<Seq<char>>,
) -> Seq<GraphView>
    decreases ids.len(),
{
    if ids.len() == 0 {
        Seq::empty()
    } else {
        listed_one(c, m, ids[0]) + listed_graphs(c, m, ids.drop_first())
    }
}

proof fn lemma_listed_graphs_push(
    c: Seq<GraphView>,
    m: Map<Seq<char>, Seq<u8>>,
    ids: Seq<Seq<char>>,
    x: Seq<char>,
)
    ensures
        listed_graphs(c, m, ids.push(x)) == listed_graphs(c, m, ids) + listed_one(c, m, x),
    decreases ids.len(),
{
    if ids.len() == 0 {
        assert(ids.push(x)[0] == x);
        assert(ids.push(x).drop_first() =~= Seq::<Seq<char>>::empty());
        assert(listed_graphs(c, m, Seq::<Seq<char>>::empty()) =~= Seq::<GraphView>::empty());
        assert(listed_one(c, m, x) + Seq::<GraphView>::empty() =~= listed_one(c, m, x));
        assert(Seq::<GraphView>::empty() + listed_one(c, m, x) =~= listed_one(c, m, x));
    } else {
        lemma_listed_graphs_push(c, m, ids.drop_first(), x);
        assert(ids.push(x)[0] == ids[0]);
        assert(ids.push(x).drop_first() =~= ids.drop_first().push(x));
        assert(listed_one(c, m, ids[0]) + (listed_graphs(c, m, ids.drop_first()) + listed_one(
            c,
            m,
            x,
        )) =~= (listed_one(c, m, ids[0]) + listed_graphs(c, m, ids.drop_first())) + listed_one(
            c,
            m,
            x,
        ));
    }
}

/// Repository over an abstract store. Mutating operations take the
/// repository exclusively; the embedding program serializes access exactly
/// as the registry's shared/exclusive policy prescribes.
pub struct BlockchainRepositoryImpl<S: Store> {
    db: S,
    cache: Vec<BlockchainGraph>,
}

impl<S: Store> BlockchainRepositoryImpl<S> {
    /// The current store contents.
    pub closed spec fn contents(self) -> Map<Seq<char>, Seq<u8>> {
        self.db.contents()
    }

    /// The current cache, in insertion order.
    pub closed spec fn cache_seq(self) -> Seq<GraphView> {
        self.cache.deep_view()
    }

    /// The cached ledger under `id`, if any.
    pub open spec fn cached(self, id: Seq<char>) -> Option<GraphView> {
        cached_in(self.cache_seq(), id)
    }

    /// A repository over `db`, with an empty cache.
    pub fn new(db: S) -> (r: BlockchainRepositoryImpl<S>)
        ensures
            r.contents() == db.contents(),
            forall|id: Seq<char>| r.cached(id) is None,
    {
        let r = BlockchainRepositoryImpl { db, cache: Vec::new() };
        proof {
            assert(r.cache.deep_view() =~= Seq::<GraphView>::empty());
        }
        r
    }

    fn cache_get(&self, id: &str) -> (r: Option<BlockchainGraph>)
        ensures
            match r {
                Some(g) => self.cached(id@) == Some(g@),
                None => self.cached(id@) is None,
            },
    {
        let ghost dv = self.cache.deep_view();
        let mut i: usize = 0;
        proof {
            assert(dv.skip(0) =~= dv);
        }
        while i < self.cache.len()
            invariant
                i <= self.cache.len(),
                dv == self.cache.deep_view(),
                cached_in(dv, id@) == cached_in(dv.skip(i as int), id@),
            decreases self.cache.len() - i,
        {
            let entry = &self.cache[i];
            proof {
                assert(dv.skip(i as int)[0] == dv[i as int]);
                assert(entry@ == dv[i as int]);
            }
            if str_eq(entry.id.as_str(), id) {
                let out = entry.clone();
                return Some(out);
            }
            proof {
                assert(dv.skip(i as int).drop_first() =~= dv.skip(i + 1));
            }
            i += 1;
        }
        proof {
            assert(dv.skip(self.cache.len() as int) =~= Seq::<GraphView>::empty());
        }
        None
    }

    fn cache_insert(&mut self, graph: BlockchainGraph)
        ensures
            final(self).contents() == old(self).contents(),
            final(self).cached(graph@.id) == Some(graph@),
            forall|id2: Seq<char>|
                id2 != graph@.id ==> final(self).cached(id2) == old(self).cached(id2),
    {
        let ghost dv = old(self).cache.deep_view();
        let ghost gv = graph@;
        let mut i: usize = 0;
        while i < self.cache.len()
            invariant
                i <= self.cache.len(),
                *self == *old(self),
                dv == self.cache.deep_view(),
                gv == graph@,
                forall|j: int| 0 <= j < i ==> dv[j].id != gv.id,
            decreases self.cache.len() - i,
        {
            let entry = &self.cache[i];
            proof {
                assert(entry@ == dv[i as int]);
            }
            if str_eq(entry.id.as_str(), graph.id.as_str()) {
                self.cache.remove(i);
                self.cache.insert(i, graph);
                proof {
                    assert(self.cache.deep_view() =~= dv.update(i as int, gv));
                    assert forall|id2: Seq<char>| true implies #[trigger] cached_in(
                        self.cache.deep_view(),
                        id2,
                    ) == if id2 == gv.id {
                        Some(gv)
                    } else {
                        cached_in(dv, id2)
                    } by {
                        lemma_cached_update(dv, i as int, gv, id2);
                    }
                }
                return ;
            }
            i += 1;
        }
        self.cache.push(graph);
        proof {
            assert(self.cache.deep_view() =~= dv.push(gv));
            assert forall|id2: Seq<char>| true implies #[trigger] cached_in(
                self.cache.deep_view(),
                id2,
            ) == if id2 == gv.id {
                Some(gv)
            } else {
                cached_in(dv, id2)
            } by {
                lemma_cached_push(dv, gv, id2);
                if cached_in(dv, id2) is Some {
                    let ghost c = dv;
                    assert(exists|j: int| 0 <= j < c.len() && c[j].id == id2) by {
                        lemma_cached_in_witness(c, id2);
                    }
                    if id2 == gv.id {
                        let j = choose|j: int| 0 <= j < c.len() && c[j].id == id2;
                        assert(false);
                    }
                }
            }
        }
    }

    /// Persists one sealed block: the primary record, the fingerprint index
    /// entry, and the latest-height pointer, as three separate puts in that
    /// order (not atomic as a unit; each put is idempotent and safe to
    /// retry). The cache is not touched.
    pub fn save_block(&mut self, graph_id: &str, block: &Block) -> (r: Result<(), StoreError>)
        ensures
            final(self).cache_seq() == old(self).cache_seq(),
            block_encodable(block@),
            ({
                let m0 = old(self).contents();
                let bk = spec_block_key(graph_id@, block@.height);
                let hk = spec_block_hash_key(graph_id@, block@.hash);
                let lk = spec_latest_key(graph_id@);
                let m1 = m0.insert(bk, enc_block(block@));
                let m2 = m1.insert(hk, enc_u64((block@.height as u64)));
                let m3 = m2.insert(lk, enc_u64((block@.height as u64)));
                match r {
                    Ok(_) => final(self).contents() == m3,
                    Err(_) => final(self).contents() == m0 || final(self).contents() == m1
                        || final(self).contents() == m2,
                }
            }),
    {
        let serialized = encode_block(block);
        let bkey = block_key(graph_id, block.height);
        match self.db.put(bkey.as_str(), serialized) {
            Ok(_) => {},
            Err(e) => {
                return Err(e);
            },
        }
        let height_bytes = u64_to_le_bytes(block.height);
        let hkey = block_hash_key(graph_id, block.hash.as_str());
        match self.db.put(hkey.as_str(), height_bytes) {
            Ok(_) => {},
            Err(e) => {
                return Err(e);
            },
        }
        let height_bytes2 = u64_to_le_bytes(block.height);
        let lkey = latest_block_key(graph_id);
        match self.db.put(lkey.as_str(), height_bytes2) {
            Ok(_) => {},
            Err(e) => {
                return Err(e);
            },
        }
        Ok(())
    }

    /// Reads the block of `graph_id` stored at `height`, if any. Absence is
    /// a normal outcome; an undecodable record is an error.
    pub fn get_block_by_height(&self, graph_id: &str, height: u64) -> (r: Result<
        Option<Block>,
        RepoError,
    >)
        ensures
            ({
                let m = self.contents();
                let bk = spec_block_key(graph_id@, height as nat);
                match r {
                    Ok(Some(b)) => m.contains_key(bk) && dec_block(m[bk]) == Some(b@),
                    Ok(None) => !m.contains_key(bk),
                    Err(RepoError::CorruptRecord) => m.contains_key(bk) && dec_block(m[bk])
                        is None,
                    Err(RepoError::Store) => true,
                }
            }),
    {
        let bkey = block_key(graph_id, height);
        match self.db.get(bkey.as_str()) {
            Ok(Some(data)) => match decode_block(&data) {
                Some(b) => Ok(Some(b)),
                None => Err(RepoError::CorruptRecord),
            },
            Ok(None) => Ok(None),
            Err(_) => Err(RepoError::Store),
        }
    }

    /// Reads a block of `graph_id` by fingerprint, going through the
    /// fingerprint index. Absence of either the index entry or the block is
    /// a normal outcome.
    pub fn get_block(&self, graph_id: &str, hash: &str) -> (r: Result<Option<Block>, RepoError>)
        ensures
            ({
                let m = self.contents();
                let hk = spec_block_hash_key(graph_id@, hash@);
                match r {
                    Ok(Some(b)) => {
                        &&& m.contains_key(hk)
                        &&& m[hk].len() == 8
                        &&& ({
                            let bk = spec_block_key(
                                graph_id@,
                                spec_u64_from_le_bytes(m[hk]) as nat,
                            );
                            m.contains_key(bk) && dec_block(m[bk]) == Some(b@)
                        })
                    },
                    Ok(None) => !m.contains_key(hk) || (m[hk].len() == 8 && !m.contains_key(
                        spec_block_key(graph_id@, spec_u64_from_le_bytes(m[hk]) as nat),
                    )),
                    Err(RepoError::CorruptRecord) => m.contains_key(hk) && (m[hk].len() != 8 || ({
                        let bk = spec_block_key(graph_id@, spec_u64_from_le_bytes(m[hk]) as nat);
                        m.contains_key(bk) && dec_block(m[bk]) is None
                    })),
                    Err(RepoError::Store) => true,
                }
            }),
    {
        let hkey = block_hash_key(graph_id, hash);
        match self.db.get(hkey.as_str()) {
            Ok(Some(height_bytes)) => {
                if height_bytes.len() != 8 {
                    return Err(RepoError::CorruptRecord);
                }
                let height = vstd::bytes::u64_from_le_bytes(height_bytes.as_slice());
                self.get_block_by_height(graph_id, height)
            },
            Ok(None) => Ok(None),
            Err(_) => Err(RepoError::Store),
        }
    }

    /// Reads the latest block of `graph_id`, going through the latest-height
    /// pointer.
    pub fn get_latest_block(&self, graph_id: &str) -> (r: Result<Option<Block>, RepoError>)
        ensures
            ({
                let m = self.contents();
                let lk = spec_latest_key(graph_id@);
                match r {
                    Ok(Some(b)) => {
                        &&& m.contains_key(lk)
                        &&& m[lk].len() == 8
                        &&& ({
                            let bk = spec_block_key(
                                graph_id@,
                                spec_u64_from_le_bytes(m[lk]) as nat,
                            );
                            m.contains_key(bk) && dec_block(m[bk]) == Some(b@)
                        })
                    },
                    Ok(None) => !m.contains_key(lk) || (m[lk].len() == 8 && !m.contains_key(
                        spec_block_key(graph_id@, spec_u64_from_le_bytes(m[lk]) as nat),
                    )),
                    Err(RepoError::CorruptRecord) => m.contains_key(lk) && (m[lk].len() != 8 || ({
                        let bk = spec_block_key(graph_id@, spec_u64_from_le_bytes(m[lk]) as nat);
                        m.contains_key(bk) && dec_block(m[bk]) is None
                    })),
                    Err(RepoError::Store) => true,
                }
            }),
    {
        let lkey = latest_block_key(graph_id);
        match self.db.get(lkey.as_str()) {
            Ok(Some(height_bytes)) => {
                if height_bytes.len() != 8 {
                    return Err(RepoError::CorruptRecord);
                }
                let height = vstd::bytes::u64_from_le_bytes(height_bytes.as_slice());
                self.get_block_by_height(graph_id, height)
            },
            Ok(None) => Ok(None),
            Err(_) => Err(RepoError::Store),
        }
    }

    /// Reads the blocks of `graph_id` at heights `start..=end`, in order,
    /// skipping heights with no stored record.
    pub fn get_blocks_range(&self, graph_id: &str, start: u64, end: u64) -> (r: Result<
        Vec<Block>,
        RepoError,
    >)
        ensures
            ({
                let m = self.contents();
                match r {
                    Ok(l) => {
                        &&& l.deep_view() == loaded_range(m, graph_id@, start as nat, end as nat)
                        &&& range_ok(m, graph_id@, start as nat, end as nat)
                    },
                    Err(RepoError::CorruptRecord) => !range_ok(
                        m,
                        graph_id@,
                        start as nat,
                        end as nat,
                    ),
                    Err(RepoError::Store) => true,
                }
            }),
    {
        let ghost m = self.contents();
        let mut blocks: Vec<Block> = Vec::new();
        if start > end {
            proof {
                assert(blocks.deep_view() =~= Seq::<BlockView>::empty());
            }
            return Ok(blocks);
        }
        let mut h = start;
        proof {
            assert(blocks.deep_view() =~= Seq::<BlockView>::empty());
            assert(Seq::<BlockView>::empty() + loaded_range(m, graph_id@, start as nat, end as nat)
                =~= loaded_range(m, graph_id@, start as nat, end as nat));
        }
        loop
            invariant_except_break
                start <= h <= end,
                forall|h2: nat| start <= h2 < h ==> block_slot_ok(m, graph_id@, h2),
                loaded_range(m, graph_id@, start as nat, end as nat) == blocks.deep_view()
                    + loaded_range(m, graph_id@, h as nat, end as nat),
            invariant
                m == self.contents(),
            ensures
                forall|h2: nat| start <= h2 <= end ==> block_slot_ok(m, graph_id@, h2),
                blocks.deep_view() == loaded_range(m, graph_id@, start as nat, end as nat),
            decreases end - h,
        {
            match self.get_block_by_height(graph_id, h) {
                Ok(Some(b)) => {
                    let ghost before = blocks.deep_view();
                    blocks.push(b);
                    proof {
                        assert(blocks.deep_view() =~= before.push(b@));
                        assert(loaded_range(m, graph_id@, h as nat, end as nat) == seq![b@]
                            + loaded_range(m, graph_id@, h as nat + 1, end as nat));
                        assert(before + (seq![b@] + loaded_range(
                            m,
                            graph_id@,
                            h as nat + 1,
                            end as nat,
                        )) =~= before.push(b@) + loaded_range(m, graph_id@, h as nat + 1, end as nat));
                    }
                },
                Ok(None) => {
                    proof {
                        assert(loaded_range(m, graph_id@, h as nat, end as nat) =~= Seq::<
                            BlockView,
                        >::empty() + loaded_range(m, graph_id@, h as nat + 1, end as nat));
                        assert(Seq::<BlockView>::empty() + loaded_range(
                            m,
                            graph_id@,
                            h as nat + 1,
                            end as nat,
                        ) =~= loaded_range(m, graph_id@, h as nat + 1, end as nat));
                    }
                },
                Err(RepoError::CorruptRecord) => {
                    proof {
                        assert(!block_slot_ok(m, graph_id@, h as nat));
                    }
                    return Err(RepoError::CorruptRecord);
                },
                Err(RepoError::Store) => {
                    return Err(RepoError::Store);
                },
            }
            proof {
                assert(loaded_range(m, graph_id@, start as nat, end as nat) == blocks.deep_view()
                    + loaded_range(m, graph_id@, h as nat + 1, end as nat));
                assert(forall|h2: nat| start <= h2 <= h ==> block_slot_ok(m, graph_id@, h2));
            }
            if h == end {
                proof {
                    assert(loaded_range(m, graph_id@, h as nat + 1, end as nat) =~= Seq::<
                        BlockView,
                    >::empty());
                    assert(blocks.deep_view() + Seq::<BlockView>::empty() =~= blocks.deep_view());
                }
                break ;
            }
            h = h + 1;
        }
        Ok(blocks)
    }

    /// A cache refresh carries across later store-only steps: any state with
    /// the same cache still holds the refreshed ledger and preserves every
    /// other id.
    proof fn lemma_cache_refresh_carries(pre: Self, cur: Self, base: Self, gv: GraphView)
        requires
            cur.cache_seq() == pre.cache_seq(),
            pre.cached(gv.id) == Some(gv),
            forall|id2: Seq<char>| id2 != gv.id ==> pre.cached(id2) == base.cached(id2),
        ensures
            cur.cached(gv.id) == Some(gv),
            forall|id2: Seq<char>| id2 != gv.id ==> cur.cached(id2) == base.cached(id2),
    {
        assert forall|id2: Seq<char>|
            id2 != gv.id implies cur.cached(id2) == base.cached(id2) by {
            assert(pre.cached(id2) == base.cached(id2));
        }
    }

    /// Persists a ledger descriptor: writes the descriptor record, refreshes
    /// the cache with the ledger exactly as passed (chain included), then
    /// appends the id to the registry list if it is not yet there
    /// (read-modify-write; not atomic with the descriptor write). An
    /// undecodable registry list is reported as `CorruptRecord` rather than
    /// silently reset, so a corrupted registry can never silently drop
    /// ledgers.
    pub fn save_graph(&mut self, graph: &BlockchainGraph) -> (r: Result<(), RepoError>)
        ensures
            meta_encodable(graph@),
            ({
                let m0 = old(self).contents();
                let gk = spec_graph_key(graph@.id);
                let lk = spec_graph_list_key();
                let m1 = m0.insert(gk, enc_graph_meta(graph@));
                let cache_updated = final(self).cached(graph@.id) == Some(graph@) && (forall|
                    id2: Seq<char>,
                |
                    id2 != graph@.id ==> final(self).cached(id2) == old(self).cached(id2));
                match r {
                    Ok(_) => {
                        &&& cache_updated
                        &&& if !m0.contains_key(lk) {
                            final(self).contents() == m1.insert(
                                lk,
                                enc_str_list(seq![graph@.id]),
                            )
                        } else {
                            match dec_id_list(m0[lk]) {
                                Some(ids) => {
                                    if ids.contains(graph@.id) {
                                        final(self).contents() == m1
                                    } else {
                                        final(self).contents() == m1.insert(
                                            lk,
                                            enc_str_list(ids.push(graph@.id)),
                                        )
                                    }
                                },
                                None => false,
                            }
                        }
                    },
                    Err(RepoError::Store) => {
                        ||| final(self).contents() == m0 && final(self).cache_seq() == old(
                            self,
                        ).cache_seq()
                        ||| final(self).contents() == m1 && cache_updated
                    },
                    Err(RepoError::CorruptRecord) => {
                        &&& final(self).contents() == m1
                        &&& cache_updated
                        &&& m0.contains_key(lk)
                        &&& dec_id_list(m0[lk]) is None
                    },
                }
            }),
    {
        proof {
            crate::keys::lemma_other_key_families_disjoint(graph@.id, graph@.id, graph@.id);
        }
        let serialized = encode_graph_meta(graph);
        let gkey = graph_key(graph.id.as_str());
        match self.db.put(gkey.as_str(), serialized) {
            Ok(_) => {},
            Err(_) => {
                return Err(RepoError::Store);
            },
        }
        let copy = graph.clone();
        self.cache_insert(copy);
        let ghost s2 = *self;
        proof {
            assert(s2.cached(graph@.id) == Some(graph@));
        }
        let lkey = graph_list_key();
        let current = match self.db.get(lkey.as_str()) {
            Ok(c) => c,
            Err(_) => {
        proof {
            Self::lemma_cache_refresh_carries(s2, *self, *old(self), graph@);
        }
                return Err(RepoError::Store);
            },
        };
        let mut graph_ids: Vec<String>;
        match current {
            Some(bytes) => {
                match decode_id_list(&bytes) {
                    Some(ids) => {
                        graph_ids = ids;
                    },
                    None => {
        proof {
            Self::lemma_cache_refresh_carries(s2, *self, *old(self), graph@);
        }
                        return Err(RepoError::CorruptRecord);
                    },
                }
            },
            None => {
                graph_ids = Vec::new();
                proof {
                    assert(graph_ids.deep_view() =~= Seq::<Seq<char>>::empty());
                }
            },
        }
        let ghost ids0 = graph_ids.deep_view();
        let mut found = false;
        let mut i: usize = 0;
        while i < graph_ids.len()
            invariant
                i <= graph_ids.len(),
                ids0 == graph_ids.deep_view(),
                found <==> exists|j: int| 0 <= j < i && ids0[j] == graph@.id,
            decreases graph_ids.len() - i,
        {
            proof {
                assert(ids0[i as int] == graph_ids@[i as int]@);
            }
            if str_eq(graph_ids[i].as_str(), graph.id.as_str()) {
                found = true;
                proof {
                    assert(ids0[i as int] == graph@.id);
                }
            }
            i += 1;
        }
        proof {
            assert(found <==> ids0.contains(graph@.id));
        }
        if !found {
            graph_ids.push(graph.id.clone());
            proof {
                assert(graph_ids.deep_view() =~= ids0.push(graph@.id));
            }
            let serialized_list = encode_id_list(&graph_ids);
            match self.db.put(lkey.as_str(), serialized_list) {
                Ok(_) => {},
                Err(_) => {
        proof {
            Self::lemma_cache_refresh_carries(s2, *self, *old(self), graph@);
        }
                    return Err(RepoError::Store);
                },
            }
            proof {
                assert(seq![graph@.id] =~= Seq::<Seq<char>>::empty().push(graph@.id));
            }
        }
        proof {
            Self::lemma_cache_refresh_carries(s2, *self, *old(self), graph@);
        }
        Ok(())
    }

    /// Reads a whole ledger: the cache first (a deep copy of the cached
    /// ledger, never a shared view); on a miss, the descriptor record, then
    /// the chain rebuilt from height zero up to the latest block, and the
    /// cache refreshed with the result. A descriptor stored under a key that
    /// does not match its own id field is corrupt.
    pub fn get_graph(&mut self, graph_id: &str) -> (r: Result<Option<BlockchainGraph>, RepoError>)
        ensures
            final(self).contents() == old(self).contents(),
            ({
                let m = old(self).contents();
                let id = graph_id@;
                match r {
                    Ok(Some(g)) => (old(self).cached(id) == Some(g@) && final(self).cache_seq()
                        == old(self).cache_seq()) || (old(self).cached(id) is None && loads_to(
                        m,
                        id,
                        g@,
                    ) && final(self).cached(id) == Some(g@) && (forall|id2: Seq<char>|
                        id2 != id ==> final(self).cached(id2) == old(self).cached(id2))),
                    Ok(None) => {
                        &&& old(self).cached(id) is None
                        &&& !m.contains_key(spec_graph_key(id))
                        &&& final(self).cache_seq() == old(self).cache_seq()
                    },
                    Err(e) => {
                        &&& old(self).cached(id) is None
                        &&& final(self).cache_seq() == old(self).cache_seq()
                        &&& (e == RepoError::CorruptRecord ==> some_record_corrupt(m, id))
                    },
                }
            }),
    {
        match self.cache_get(graph_id) {
            Some(g) => {
                return Ok(Some(g));
            },
            None => {},
        }
        let gkey = graph_key(graph_id);
        let data = match self.db.get(gkey.as_str()) {
            Ok(Some(d)) => d,
            Ok(None) => {
                return Ok(None);
            },
            Err(_) => {
                return Err(RepoError::Store);
            },
        };
        let mut g = match decode_graph_meta(&data) {
            Some(g) => g,
            None => {
                proof {
                    assert(some_record_corrupt(self.contents(), graph_id@));
                }
                return Err(RepoError::CorruptRecord);
            },
        };
        if !str_eq(g.id.as_str(), graph_id) {
            proof {
                assert(some_record_corrupt(self.contents(), graph_id@));
            }
            return Err(RepoError::CorruptRecord);
        }
        match self.get_latest_block(graph_id) {
            Ok(Some(latest)) => {
                let blocks = match self.get_blocks_range(graph_id, 0, latest.height) {
                    Ok(b) => b,
                    Err(e) => {
                        proof {
                            if e == RepoError::CorruptRecord {
                                assert(latest_block_of(self.contents(), graph_id@) == Some(
                                    latest@,
                                ));
                                assert(some_record_corrupt(self.contents(), graph_id@));
                            }
                        }
                        return Err(e);
                    },
                };
                g.load_blocks(blocks);
            },
            Ok(None) => {},
            Err(e) => {
                proof {
                    if e == RepoError::CorruptRecord {
                        assert(some_record_corrupt(self.contents(), graph_id@));
                    }
                }
                return Err(e);
            },
        }
        let out = g.clone();
        self.cache_insert(g);
        Ok(Some(out))
    }

    /// Reads the registry list and loads every ledger it names, warming the
    /// whole cache; ids named in the list but missing from the store are
    /// silently skipped. An undecodable list is reported as `CorruptRecord`.
    pub fn list_graphs(&mut self) -> (r: Result<Vec<BlockchainGraph>, RepoError>)
        ensures
            final(self).contents() == old(self).contents(),
            forall|id2: Seq<char>|
                #![trigger final(self).cached(id2)]
                final(self).cached(id2) == old(self).cached(id2) || (old(self).cached(id2) is None
                    && final(self).cached(id2) is Some && loads_to(
                    old(self).contents(),
                    id2,
                    final(self).cached(id2)->0,
                )),
            ({
                let m = old(self).contents();
                let lk = spec_graph_list_key();
                match r {
                    Ok(l) => {
                        &&& (!m.contains_key(lk) ==> l@.len() == 0)
                        &&& (m.contains_key(lk) ==> dec_id_list(m[lk]) is Some && l.deep_view()
                            == listed_graphs(old(self).cache_seq(), m, dec_id_list(m[lk])->0))
                        &&& (forall|i: int|
                            0 <= i < l.deep_view().len() ==> {
                                let g = #[trigger] l.deep_view()[i];
                                old(self).cached(g.id) == Some(g) || loads_to(m, g.id, g)
                            })
                    },
                    Err(e) => e == RepoError::Store || ({
                        &&& m.contains_key(lk)
                        &&& (dec_id_list(m[lk]) is None || exists|k: int|
                            0 <= k < dec_id_list(m[lk])->0.len() && some_record_corrupt(
                                m,
                                #[trigger] dec_id_list(m[lk])->0[k],
                            ))
                    }),
                }
            }),
    {
        let ghost m = self.contents();
        let lkey = graph_list_key();
        let current = match self.db.get(lkey.as_str()) {
            Ok(c) => c,
            Err(_) => {
                return Err(RepoError::Store);
            },
        };
        let mut graphs: Vec<BlockchainGraph> = Vec::new();
        let graph_ids: Vec<String> = match current {
            Some(bytes) => {
                match decode_id_list(&bytes) {
                    Some(ids) => ids,
                    None => {
                        return Err(RepoError::CorruptRecord);
                    },
                }
            },
            None => {
                proof {
                    assert(graphs.deep_view() =~= Seq::<GraphView>::empty());
                }
                return Ok(graphs);
            },
        };
        let ghost ids0 = graph_ids.deep_view();
        proof {
            assert(listed_graphs(old(self).cache_seq(), m, ids0.take(0)) =~= Seq::<
                GraphView,
            >::empty());
        }
        let mut i: usize = 0;
        while i < graph_ids.len()
            invariant
                i <= graph_ids.len(),
                m == self.contents(),
                m == old(self).contents(),
                ids0 == graph_ids.deep_view(),
                m.contains_key(spec_graph_list_key()),
                dec_id_list(m[spec_graph_list_key()]) == Some(ids0),
                graphs.deep_view() == listed_graphs(old(self).cache_seq(), m, ids0.take(i as int)),
                forall|id2: Seq<char>|
                    #![trigger self.cached(id2)]
                    self.cached(id2) == old(self).cached(id2) || (old(self).cached(id2) is None
                        && self.cached(id2) is Some && loads_to(m, id2, self.cached(id2)->0)),
                forall|k: int|
                    0 <= k < graphs.deep_view().len() ==> {
                        let g = #[trigger] graphs.deep_view()[k];
                        old(self).cached(g.id) == Some(g) || loads_to(m, g.id, g)
                    },
            decreases graph_ids.len() - i,
        {
            let id_ref = &graph_ids[i];
            let ghost pre = *self;
            let ghost idv = id_ref@;
            proof {
                assert(ids0[i as int] == graph_ids@[i as int]@);
                lemma_listed_graphs_push(old(self).cache_seq(), m, ids0.take(i as int), idv);
                assert(ids0.take(i as int).push(idv) =~= ids0.take(i + 1));
            }
            match self.get_graph(id_ref.as_str()) {
                Ok(Some(graph)) => {
                    let ghost before = graphs.deep_view();
                    let ghost gv = graph@;
                    proof {
                        if pre.cached(idv) == Some(gv) && self.cache_seq() == pre.cache_seq() {
                            lemma_cached_in_id(pre.cache_seq(), idv);
                            assert(gv.id == idv);
                            assert(pre.cached(gv.id) == old(self).cached(gv.id) || (old(
                                self,
                            ).cached(gv.id) is None && pre.cached(gv.id) is Some && loads_to(
                                m,
                                gv.id,
                                pre.cached(gv.id)->0,
                            )));
                            assert forall|id2: Seq<char>| true implies #[trigger] self.cached(id2)
                                == pre.cached(id2) by {
                                assert(self.cache_seq() == pre.cache_seq());
                            }
                        } else {
                            assert(loads_to(m, idv, gv));
                            assert(gv.id == idv);
                            assert forall|id2: Seq<char>|
                                id2 != idv implies #[trigger] self.cached(id2) == pre.cached(
                                id2,
                            ) by {}
                        }
                        assert(old(self).cached(gv.id) == Some(gv) || loads_to(m, gv.id, gv));
                        if cached_in(old(self).cache_seq(), idv) is Some {
                            assert(old(self).cached(idv) == Some(gv));
                            assert(listed_one(old(self).cache_seq(), m, idv) == seq![gv]);
                        } else {
                            assert(loads_to(m, idv, gv));
                            let g2 = choose|g: GraphView| loads_to(m, idv, g);
                            lemma_loads_to_unique(m, idv, g2, gv);
                            assert(listed_one(old(self).cache_seq(), m, idv) == seq![gv]);
                        }
                        assert forall|id2: Seq<char>|
                            true implies #[trigger] self.cached(id2) == old(self).cached(id2) || (
                        old(self).cached(id2) is None && self.cached(id2) is Some && loads_to(
                            m,
                            id2,
                            self.cached(id2)->0,
                        )) by {
                            assert(pre.cached(id2) == old(self).cached(id2) || (old(self).cached(
                                id2,
                            ) is None && pre.cached(id2) is Some && loads_to(
                                m,
                                id2,
                                pre.cached(id2)->0,
                            )));
                        }
                    }
                    graphs.push(graph);
                    proof {
                        assert(graphs.deep_view() =~= before.push(gv));
                        assert(before.push(gv) =~= before + seq![gv]);
                        assert(graphs.deep_view() =~= listed_graphs(
                            old(self).cache_seq(),
                            m,
                            ids0.take(i + 1),
                        ));
                    }
                },
                Ok(None) => {
                    proof {
                        assert forall|id2: Seq<char>| true implies #[trigger] self.cached(id2)
                            == pre.cached(id2) by {
                            assert(self.cache_seq() == pre.cache_seq());
                        }
                        assert(pre.cached(idv) is None);
                        assert(cached_in(old(self).cache_seq(), idv) is None);
                        assert forall|g: GraphView| !(#[trigger] loads_to(m, idv, g)) by {
                            assert(!m.contains_key(spec_graph_key(idv)));
                        }
                        assert(listed_one(old(self).cache_seq(), m, idv) =~= Seq::<
                            GraphView,
                        >::empty());
                        assert(graphs.deep_view() + Seq::<GraphView>::empty()
                            =~= graphs.deep_view());
                        assert(graphs.deep_view() =~= listed_graphs(
                            old(self).cache_seq(),
                            m,
                            ids0.take(i + 1),
                        ));
                    }
                },
                Err(e) => {
                    proof {
                        assert forall|id2: Seq<char>| true implies #[trigger] self.cached(id2)
                            == pre.cached(id2) by {
                            assert(self.cache_seq() == pre.cache_seq());
                        }
                        if e == RepoError::CorruptRecord {
                            assert(some_record_corrupt(m, ids0[i as int]));
                            assert(0 <= i < dec_id_list(m[spec_graph_list_key()])->0.len()
                                && some_record_corrupt(
                                m,
                                dec_id_list(m[spec_graph_list_key()])->0[i as int],
                            ));
                        }
                    }
                    return Err(e);
                },
            }
            i += 1;
        }
        proof {
            assert(ids0.take(graph_ids@.len() as int) =~= ids0);
        }
        Ok(graphs)
    }

    /// Does a ledger descriptor for `graph_id` exist in the store? Checks
    /// the descriptor key only.
    pub fn graph_exists(&self, graph_id: &str) -> (r: Result<bool, RepoError>)
        ensures
            match r {
                Ok(b) => b == self.contents().contains_key(spec_graph_key(graph_id@)),
                Err(e) => e == RepoError::Store,
            },
    {
        let gkey = graph_key(graph_id);
        match self.db.has_key(gkey.as_str()) {
            Ok(b) => Ok(b),
            Err(_) => Err(RepoError::Store),
        }
    }
}

/// The store contents after `save_block` persists `b` for ledger `id`:
/// the primary record, the fingerprint index entry, and the latest-height
/// pointer, in that order (exactly `save_block`'s effect on success).
pub open spec fn after_save_block(m: Map<Seq<char>, Seq<u8>>, id: Seq<char>, b: BlockView) -> Map<
    Seq<char>,
    Seq<u8>,
> {
    m.insert(spec_block_key(id, b.height), enc_block(b)).insert(
        spec_block_hash_key(id, b.hash),
        enc_u64(b.height as u64),
    ).insert(spec_latest_key(id), enc_u64(b.height as u64))
}

/// The store contents part-way through `save_block`'s three writes for
/// block `b` of ledger `id`, or before any of them: the states a failed
/// persistence can leave behind.
pub open spec fn partial_block_write(
    m0: Map<Seq<char>, Seq<u8>>,
    mf: Map<Seq<char>, Seq<u8>>,
    id: Seq<char>,
    b: BlockView,
) -> bool {
    ||| mf == m0
    ||| mf == m0.insert(spec_block_key(id, b.height), enc_block(b))
    ||| mf == m0.insert(spec_block_key(id, b.height), enc_block(b)).insert(
        spec_block_hash_key(id, b.hash),
        enc_u64(b.height as u64),
    )
}

/// The store contents at any stage a failed ledger creation can leave
/// behind: none, part or all of the root block's three writes, or those
/// plus a descriptor record.
pub open spec fn partial_create_write(
    m0: Map<Seq<char>, Seq<u8>>,
    mf: Map<Seq<char>, Seq<u8>>,
    id: Seq<char>,
    root: BlockView,
    meta: Seq<u8>,
) -> bool {
    ||| partial_block_write(m0, mf, id, root)
    ||| mf == after_save_block(m0, id, root)
    ||| mf == after_save_block(m0, id, root).insert(spec_graph_key(id), meta)
}

/// The store contents after the first `k` blocks of `chain` are persisted in
/// order.
pub open spec fn after_save_blocks(
    m: Map<Seq<char>, Seq<u8>>,
    id: Seq<char>,
    chain: Seq<BlockView>,
    k: nat,
) -> Map<Seq<char>, Seq<u8>>
    decreases k,
{
    if k == 0 {
        m
    } else {
        after_save_block(after_save_blocks(m, id, chain, (k - 1) as nat), id, chain[k - 1])
    }
}

/// In a linked chain the height of every block is its position.
pub proof fn lemma_chain_linked_heights(chain: Seq<BlockView>, i: int)
    requires
        crate::graph::chain_linked(chain),
        0 <= i < chain.len(),
    ensures
        chain[i].height == i,
    decreases i,
{
    if i > 0 {
        lemma_chain_linked_heights(chain, i - 1);
    }
}

#[verifier::rlimit(50)]
proof fn lemma_after_saves_slots(m0: Map<Seq<char>, Seq<u8>>, id: Seq<char>, chain: Seq<BlockView>, k: nat)
    requires
        crate::graph::chain_linked(chain),
        k <= chain.len(),
        chain.len() <= 0x1_0000_0000_0000_0000,
    ensures
        forall|h: nat|
            h < k ==> (#[trigger] after_save_blocks(m0, id, chain, k).contains_key(
                spec_block_key(id, h),
            )) && after_save_blocks(m0, id, chain, k)[spec_block_key(id, h)] == enc_block(
                chain[h as int],
            ),
        k >= 1 ==> after_save_blocks(m0, id, chain, k).contains_key(spec_latest_key(id))
            && after_save_blocks(m0, id, chain, k)[spec_latest_key(id)] == enc_u64(
            ((k - 1) as u64),
        ),
    decreases k,
{
    if k >= 1 {
        lemma_after_saves_slots(m0, id, chain, (k - 1) as nat);
        let prev = after_save_blocks(m0, id, chain, (k - 1) as nat);
        let cur = after_save_blocks(m0, id, chain, k);
        let b = chain[k - 1];
        assert(cur == after_save_block(prev, id, b));
        lemma_chain_linked_heights(chain, k - 1);
        assert(b.height == k - 1);
        crate::keys::lemma_block_key_families_disjoint(id, b.height, id, b.hash);
        crate::keys::lemma_other_key_families_disjoint(id, b.hash, id);
        assert forall|h: nat| h < k implies (#[trigger] cur.contains_key(spec_block_key(id, h)))
            && cur[spec_block_key(id, h)] == enc_block(chain[h as int]) by {
            crate::keys::lemma_block_key_families_disjoint(id, h, id, b.hash);
            if h < (k - 1) as nat {
                crate::keys::lemma_block_key_injective(id, h, b.height);
                assert(after_save_blocks(m0, id, chain, (k - 1) as nat).contains_key(
                    spec_block_key(id, h),
                ));
                assert(after_save_blocks(m0, id, chain, (k - 1) as nat)[spec_block_key(id, h)]
                    == enc_block(chain[h as int]));
            }
        }
        assert((k - 1) as u64 == b.height as u64);
    }
}

/// The persistence round trip: persist every block of a linked chain in
/// order, then persist the ledger descriptor (and afterwards any value for
/// the registry list); the store then rehydrates the ledger's id to exactly
/// the ledger that was saved, whatever the store held before.
#[verifier::rlimit(60)]
pub proof fn lemma_store_round_trip(m0: Map<Seq<char>, Seq<u8>>, g: GraphView, l: Seq<u8>)
    requires
        crate::graph::chain_linked(g.chain),
        1 <= g.chain.len() <= 0x1_0000_0000_0000_0000,
        meta_encodable(g),
        forall|i: int| 0 <= i < g.chain.len() ==> block_encodable(#[trigger] g.chain[i]),
    ensures
        ({
            let saved = after_save_blocks(m0, g.id, g.chain, g.chain.len()).insert(
                spec_graph_key(g.id),
                enc_graph_meta(g),
            );
            loads_to(saved, g.id, g) && loads_to(
                saved.insert(spec_graph_list_key(), l),
                g.id,
                g,
            )
        }),
{
    let n = g.chain.len();
    let m1 = after_save_blocks(m0, g.id, g.chain, n);
    let saved = m1.insert(spec_graph_key(g.id), enc_graph_meta(g));
    let saved2 = saved.insert(spec_graph_list_key(), l);
    lemma_after_saves_slots(m0, g.id, g.chain, n);
    crate::keys::lemma_other_key_families_disjoint(g.id, g.id, g.id);
    vstd::bytes::lemma_auto_spec_u64_to_from_le_bytes();
    lemma_dec_graph_meta_enc(g);
    lemma_chain_linked_heights(g.chain, n - 1);
    // The latest pointer names height n - 1, whose slot decodes to the last
    // block of the chain.
    assert(saved[spec_latest_key(g.id)] == enc_u64(((n - 1) as u64)));
    assert(spec_u64_from_le_bytes(enc_u64(((n - 1) as u64))) == (n - 1) as u64);
    assert forall|h: nat| h < n implies saved.contains_key(
        #[trigger] spec_block_key(g.id, h),
    ) && saved2.contains_key(spec_block_key(g.id, h)) && dec_block(
        saved[spec_block_key(g.id, h)],
    ) == Some(g.chain[h as int]) && dec_block(saved2[spec_block_key(g.id, h)]) == Some(
        g.chain[h as int],
    ) by {
        crate::keys::lemma_block_key_families_disjoint(g.id, h, g.id, g.id);
        lemma_dec_block_enc(g.chain[h as int]);
    }
    let latest = g.chain[n - 1];
    assert(latest_block_of(saved, g.id) == Some(latest));
    assert(latest_block_of(saved2, g.id) == Some(latest));
    assert(latest.height == n - 1);
    lemma_loaded_range_dense(saved, g.id, g.chain, 0);
    lemma_loaded_range_dense(saved2, g.id, g.chain, 0);
    assert(g.chain.skip(0) =~= g.chain);
    assert forall|h: nat| 0 <= h <= latest.height implies block_slot_ok(saved, g.id, h)
        && block_slot_ok(saved2, g.id, h) by {
        assert(0 <= h < n);
    }
}

proof fn lemma_loaded_range_dense(
    m: Map<Seq<char>, Seq<u8>>,
    id: Seq<char>,
    chain: Seq<BlockView>,
    lo: nat,
)
    requires
        1 <= chain.len() <= 0x1_0000_0000_0000_0000,
        lo < chain.len(),
        forall|h: nat|
            h < chain.len() ==> (m.contains_key(#[trigger] spec_block_key(id, h))) && dec_block(
                m[spec_block_key(id, h)],
            ) == Some(chain[h as int]),
    ensures
        loaded_range(m, id, lo, (chain.len() - 1) as nat) == chain.skip(lo as int),
    decreases chain.len() - lo,
{
    let hi = (chain.len() - 1) as nat;
    assert(m.contains_key(spec_block_key(id, lo)));
    if lo < hi {
        lemma_loaded_range_dense(m, id, chain, lo + 1);
        assert(loaded_range(m, id, lo, hi) == seq![chain[lo as int]] + loaded_range(
            m,
            id,
            lo + 1,
            hi,
        ));
        assert(seq![chain[lo as int]] + chain.skip(lo as int + 1) =~= chain.skip(lo as int));
    } else {
        assert(loaded_range(m, id, lo + 1, hi) =~= Seq::<BlockView>::empty());
        assert(loaded_range(m, id, lo, hi) == seq![chain[lo as int]] + Seq::<BlockView>::empty());
        assert(seq![chain[lo as int]] + Seq::<BlockView>::empty() =~= chain.skip(lo as int));
    }
}

pub(crate) proof fn lemma_cached_in_id(c: Seq<GraphView>, id: Seq<char>)
    requires
        cached_in(c, id) is Some,
    ensures
        (cached_in(c, id)->0).id == id,
    decreases c.len(),
{
    if c.len() > 0 && c[0].id != id {
        lemma_cached_in_id(c.drop_first(), id);
    }
}

proof fn lemma_cached_in_witness(c: Seq<GraphView>, id: Seq<char>)
    requires
        cached_in(c, id) is Some,
    ensures
        exists|j: int| 0 <= j < c.len() && c[j].id == id,
    decreases c.len(),
{
    if c.len() > 0 {
        if c[0].id == id {
            assert(c[0].id == id);
        } else {
            lemma_cached_in_witness(c.drop_first(), id);
            let j = choose|j: int| 0 <= j < c.drop_first().len() && c.drop_first()[j].id == id;
            assert(c[j + 1].id == id);
        }
    }
}

} // verus!
