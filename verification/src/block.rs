//! A single block: an immutable, hash-identified entry in one ledger.
//!
//! The fingerprint (`hash`) of a block is the lowercase hex rendering of the
//! SHA-256 digest of the concatenation, in this fixed order, of:
//! previous hash, timestamp, payload, nonce, height, owning graph id, and the
//! cross-references joined by commas. Sealing (mining) searches for a nonce
//! that gives the fingerprint the required number of leading zero hex digits.

use vstd::prelude::*;
use vstd::string::StrSliceExecFns;
use vstd::string::StringExecFns;

use crate::digits::{dec_digits, dec_int_digits, i64_to_string, u64_to_string};
use crate::hashing::{hex_of, now_timestamp, sha256, sha256_of, hex_encode};

verus! {

/// The mathematical content of a block.
pub ghost struct BlockView {
    pub hash: Seq<char>,
    pub previous_hash: Seq<char>,
    pub timestamp: int,
    pub data: Seq<char>,
    pub nonce: nat,
    pub height: nat,
    pub graph_id: Seq<char>,
    pub cross_references: Seq<Seq<char>>,
}

/// One block of a ledger. Sealed blocks are immutable by convention: only
/// `mine_block` mutates one, and only before it enters a chain.
#[derive(Debug)]
pub struct Block {
    pub hash: String,
    pub previous_hash: String,
    pub timestamp: i64,
    pub data: String,
    pub nonce: u64,
    pub height: u64,
    pub graph_id: String,
    pub cross_references: Vec<String>,
}

impl View for Block {
    type V = BlockView;

    open spec fn view(&self) -> BlockView {
        BlockView {
            hash: self.hash@,
            previous_hash: self.previous_hash@,
            timestamp: self.timestamp as int,
            data: self.data@,
            nonce: self.nonce as nat,
            height: self.height as nat,
            graph_id: self.graph_id@,
            cross_references: self.cross_references.deep_view(),
        }
    }
}

impl DeepView for Block {
    type V = BlockView;

    open spec fn deep_view(&self) -> BlockView {
        self.view()
    }
}

/// Cross-references joined by a single comma, the separator the hash input
/// uses (commas cannot occur inside a fingerprint).
pub open spec fn join_refs(refs: Seq<Seq<char>>) -> Seq<char>
    decreases refs.len(),
{
    if refs.len() == 0 {
        Seq::empty()
    } else if refs.len() == 1 {
        refs[0]
    } else {
        refs[0] + seq![','] + join_refs(refs.drop_first())
    }
}

proof fn lemma_join_refs_push(s: Seq<Seq<char>>, x: Seq<char>)
    ensures
        join_refs(s.push(x)) == if s.len() == 0 {
            x
        } else {
            join_refs(s) + seq![','] + x
        },
    decreases s.len(),
{
    if s.len() == 0 {
        assert(join_refs(s.push(x)) == s.push(x)[0]);
        assert(s.push(x)[0] == x);
    } else if s.len() == 1 {
        let t = s.push(x);
        assert(t.drop_first() =~= seq![x]);
        assert(join_refs(seq![x]) == seq![x][0]);
        assert(seq![x][0] == x);
        assert(join_refs(t) == t[0] + seq![','] + join_refs(t.drop_first()));
        assert(t[0] == s[0]);
        assert(join_refs(s) == s[0]);
    } else {
        lemma_join_refs_push(s.drop_first(), x);
        assert(s.push(x).drop_first() =~= s.drop_first().push(x));
        assert(join_refs(s.push(x)) == s[0] + seq![','] + (join_refs(s.drop_first()) + seq![',']
            + x));
        assert(s[0] + seq![','] + (join_refs(s.drop_first()) + seq![','] + x) =~= (s[0] + seq![',']
            + join_refs(s.drop_first())) + seq![','] + x);
        assert(join_refs(s) == s[0] + seq![','] + join_refs(s.drop_first()));
    }
}

fn join_cross_references(refs: &Vec<String>) -> (r: String)
    ensures
        r@ == join_refs(refs.deep_view()),
{
    let mut acc = String::new();
    let mut i: usize = 0;
    while i < refs.len()
        invariant
            i <= refs.len(),
            acc@ == join_refs(refs.deep_view().take(i as int)),
        decreases refs.len() - i,
    {
        if i > 0 {
            acc.append(",");
        }
        acc.append(refs[i].as_str());
        proof {
            reveal_strlit(",");
            assert(","@ =~= seq![',']);
            let dv = refs.deep_view();
            lemma_join_refs_push(dv.take(i as int), dv[i as int]);
            assert(dv.take(i as int).push(dv[i as int]) =~= dv.take(i + 1));
            assert(dv[i as int] == refs@[i as int]@);
        }
        i += 1;
    }
    proof {
        assert(refs.deep_view().take(refs.len() as int) =~= refs.deep_view());
    }
    acc
}

/// The exact character sequence a block's fingerprint digests.
pub open spec fn hash_input(b: BlockView) -> Seq<char> {
    b.previous_hash + dec_int_digits(b.timestamp) + b.data + dec_digits(b.nonce) + dec_digits(
        b.height,
    ) + b.graph_id + join_refs(b.cross_references)
}

/// The fingerprint that a block's fields determine: lowercase hex of the
/// SHA-256 digest of the UTF-8 bytes of `hash_input`. The `hash` field itself
/// is not part of the input.
pub open spec fn spec_content_hash(b: BlockView) -> Seq<char> {
    hex_of(sha256_of(vstd::utf8::encode_utf8(hash_input(b))))
}

/// The leading-zero requirement proof-of-work imposes: the first `difficulty`
/// characters of the fingerprint are `'0'`.
pub open spec fn spec_has_difficulty(hash: Seq<char>, difficulty: nat) -> bool {
    &&& difficulty <= hash.len()
    &&& forall|i: int| 0 <= i < difficulty ==> hash[i] == '0'
}

/// The fields of `b` that sealing never changes agree with those of `a`.
pub open spec fn same_unsealed_fields(a: BlockView, b: BlockView) -> bool {
    &&& a.previous_hash == b.previous_hash
    &&& a.timestamp == b.timestamp
    &&& a.data == b.data
    &&& a.height == b.height
    &&& a.graph_id == b.graph_id
    &&& a.cross_references == b.cross_references
}

/// The block with its nonce replaced: what the sealing search ranges over.
pub open spec fn with_nonce(b: BlockView, n: u64) -> BlockView {
    BlockView { nonce: n as nat, ..b }
}

/// Some nonce value gives the block's fields a content hash with the
/// required number of leading zeros. When no nonce does, sealing cannot
/// succeed, whatever it tries.
pub open spec fn some_nonce_works(b: BlockView, difficulty: nat) -> bool {
    exists|n: u64|
        spec_has_difficulty(spec_content_hash(#[trigger] with_nonce(b, n)), difficulty)
}

/// The content hash reads only the unsealed fields and the nonce, never the
/// stored fingerprint.
pub proof fn lemma_content_hash_nonce_only(a: BlockView, b: BlockView)
    requires
        same_unsealed_fields(a, b),
        a.nonce == b.nonce,
    ensures
        spec_content_hash(a) == spec_content_hash(b),
{
    assert(hash_input(a) == hash_input(b));
}

/// Whether any nonce works depends only on the fields sealing never
/// changes.
pub proof fn lemma_some_nonce_works_same_fields(a: BlockView, b: BlockView, difficulty: nat)
    requires
        same_unsealed_fields(a, b),
    ensures
        some_nonce_works(a, difficulty) == some_nonce_works(b, difficulty),
{
    if some_nonce_works(a, difficulty) {
        let n = choose|n: u64|
            spec_has_difficulty(spec_content_hash(#[trigger] with_nonce(a, n)), difficulty);
        lemma_content_hash_nonce_only(with_nonce(a, n), with_nonce(b, n));
        assert(spec_has_difficulty(spec_content_hash(with_nonce(b, n)), difficulty));
    }
    if some_nonce_works(b, difficulty) {
        let n = choose|n: u64|
            spec_has_difficulty(spec_content_hash(#[trigger] with_nonce(b, n)), difficulty);
        lemma_content_hash_nonce_only(with_nonce(a, n), with_nonce(b, n));
        assert(spec_has_difficulty(spec_content_hash(with_nonce(a, n)), difficulty));
    }
}

impl Clone for Block {
    fn clone(&self) -> (r: Self)
        ensures
            r@ == self@,
    {
        let refs = self.cross_references.clone();
        proof {
            assert(self.cross_references@ =~= refs@);
            assert(self.cross_references.deep_view() =~= refs.deep_view());
        }
        Block {
            hash: self.hash.clone(),
            previous_hash: self.previous_hash.clone(),
            timestamp: self.timestamp,
            data: self.data.clone(),
            nonce: self.nonce,
            height: self.height,
            graph_id: self.graph_id.clone(),
            cross_references: refs,
        }
    }
}

impl Block {
    /// Builds a candidate block: nonce zero, fingerprint computed at once from
    /// the fields. The timestamp is read from the wall clock and is otherwise
    /// unconstrained. The candidate is not yet sealed against any difficulty.
    pub fn new(
        previous_hash: String,
        data: String,
        graph_id: String,
        height: u64,
        cross_references: Vec<String>,
    ) -> (r: Block)
        ensures
            r@.previous_hash == previous_hash@,
            r@.data == data@,
            r@.graph_id == graph_id@,
            r@.height == height as nat,
            r@.cross_references == cross_references.deep_view(),
            r@.nonce == 0,
            r@.hash == spec_content_hash(r@),
            r@.hash.len() == 64,
    {
        let timestamp = now_timestamp();
        let mut block = Block {
            hash: String::new(),
            previous_hash,
            timestamp,
            data,
            nonce: 0,
            height,
            graph_id,
            cross_references,
        };
        let h = block.calculate_hash();
        block.hash = h;
        block
    }

    /// Builds the root (genesis) candidate of a ledger: previous hash `"0"`,
    /// a fixed marker payload, height zero, no cross-references.
    pub fn genesis(graph_id: String) -> (r: Block)
        ensures
            r@.previous_hash == "0"@,
            r@.data == "Genesis Block"@,
            r@.graph_id == graph_id@,
            r@.height == 0,
            r@.cross_references == Seq::<Seq<char>>::empty(),
            r@.nonce == 0,
            r@.hash == spec_content_hash(r@),
            r@.hash.len() == 64,
    {
        let refs: Vec<String> = Vec::new();
        proof {
            assert(refs.deep_view() =~= Seq::<Seq<char>>::empty());
        }
        Block::new("0".to_owned(), "Genesis Block".to_owned(), graph_id, 0, refs)
    }

    /// Recomputes the fingerprint the block's current fields determine:
    /// always 64 characters, two hex digits for each of the digest's 32
    /// bytes.
    pub fn calculate_hash(&self) -> (r: String)
        ensures
            r@ == spec_content_hash(self@),
            r@.len() == 64,
    {
        let mut content = self.previous_hash.clone();
        content.append(i64_to_string(self.timestamp).as_str());
        content.append(self.data.as_str());
        content.append(u64_to_string(self.nonce).as_str());
        content.append(u64_to_string(self.height).as_str());
        content.append(self.graph_id.as_str());
        let joined = join_cross_references(&self.cross_references);
        content.append(joined.as_str());
        assert(content@ == hash_input(self@));
        let digest = sha256(content.as_str().as_bytes());
        proof {
            crate::hashing::lemma_hex_of_len(digest@);
        }
        hex_encode(digest.as_slice())
    }

    /// Does the stored fingerprint equal the one the fields determine?
    pub fn is_valid(&self) -> (r: bool)
        ensures
            r == (self@.hash == spec_content_hash(self@)),
    {
        let computed = self.calculate_hash();
        self.hash == computed
    }

    /// Does the stored fingerprint start with `difficulty` zero digits?
    pub fn has_valid_difficulty(&self, difficulty: usize) -> (r: bool)
        ensures
            r == spec_has_difficulty(self@.hash, difficulty as nat),
    {
        let len = self.hash.as_str().unicode_len();
        if len < difficulty {
            return false;
        }
        let mut i: usize = 0;
        while i < difficulty
            invariant
                i <= difficulty,
                difficulty <= self@.hash.len(),
                forall|j: int| 0 <= j < i ==> self@.hash[j] == '0',
            decreases difficulty - i,
        {
            if self.hash.as_str().get_char(i) != '0' {
                return false;
            }
            i += 1;
        }
        true
    }

    /// Seals the block: increments the nonce (wrapping around on
    /// exhaustion) and recomputes the fingerprint until it has `difficulty`
    /// leading zero digits. The search tries every nonce value once, in
    /// order — the values above the starting nonce first, then from zero
    /// back up to it — so the nonce kept is the first qualifying one in that
    /// order, and success is owed whenever some nonce can work; the search
    /// gives up only when no nonce in the whole space works, an event
    /// unreachable in practice and one that `add_block` turns into a
    /// structured error. If the stored fingerprint already meets the
    /// difficulty the block is left untouched, even when that fingerprint is
    /// stale; `add_block` re-checks content validity afterwards for exactly
    /// that reason.
    pub fn mine_block(&mut self, difficulty: usize)
        ensures
            same_unsealed_fields(old(self)@, final(self)@),
            final(self)@ == old(self)@ || final(self)@.hash == spec_content_hash(final(self)@),
            !spec_has_difficulty(old(self)@.hash, difficulty as nat) ==> final(self)@.hash
                == spec_content_hash(final(self)@),
            spec_has_difficulty(old(self)@.hash, difficulty as nat) ==> final(self)@ == old(
                self,
            )@,
            spec_has_difficulty(final(self)@.hash, difficulty as nat) || !some_nonce_works(
                old(self)@,
                difficulty as nat,
            ),
            (!spec_has_difficulty(old(self)@.hash, difficulty as nat) && final(self)@.nonce > old(
                self,
            )@.nonce) ==> forall|n: u64|
                old(self)@.nonce < n < final(self)@.nonce ==> !spec_has_difficulty(
                    spec_content_hash(#[trigger] with_nonce(old(self)@, n)),
                    difficulty as nat,
                ),
            (!spec_has_difficulty(old(self)@.hash, difficulty as nat) && final(self)@.nonce <= old(
                self,
            )@.nonce) ==> forall|n: u64|
                (n > old(self)@.nonce || n < final(self)@.nonce) ==> !spec_has_difficulty(
                    spec_content_hash(#[trigger] with_nonce(old(self)@, n)),
                    difficulty as nat,
                ),
    {
        if self.has_valid_difficulty(difficulty) {
            return ;
        }
        let start = self.nonce;
        // First leg: every nonce above the starting one, in order.
        while self.nonce < u64::MAX
            invariant
                same_unsealed_fields(old(self)@, self@),
                !spec_has_difficulty(old(self)@.hash, difficulty as nat),
                start == old(self)@.nonce,
                self.nonce >= start,
                self@ == old(self)@ || self@.hash == spec_content_hash(self@),
                forall|n: u64|
                    start < n <= self.nonce ==> !spec_has_difficulty(
                        spec_content_hash(#[trigger] with_nonce(old(self)@, n)),
                        difficulty as nat,
                    ),
            decreases u64::MAX - self.nonce,
        {
            self.nonce = self.nonce + 1;
            let h = self.calculate_hash();
            self.hash = h;
            if self.has_valid_difficulty(difficulty) {
                return ;
            }
            proof {
                lemma_content_hash_nonce_only(with_nonce(old(self)@, self.nonce), self@);
            }
        }
        // Second leg: wrap around and climb back to the starting nonce, so
        // every value of the nonce space is tried exactly once.
        self.nonce = 0;
        let h0 = self.calculate_hash();
        self.hash = h0;
        if self.has_valid_difficulty(difficulty) {
            return ;
        }
        proof {
            lemma_content_hash_nonce_only(with_nonce(old(self)@, 0), self@);
        }
        while self.nonce < start
            invariant
                same_unsealed_fields(old(self)@, self@),
                !spec_has_difficulty(old(self)@.hash, difficulty as nat),
                start == old(self)@.nonce,
                self.nonce <= start,
                self@.hash == spec_content_hash(self@),
                forall|n: u64|
                    n > start ==> !spec_has_difficulty(
                        spec_content_hash(#[trigger] with_nonce(old(self)@, n)),
                        difficulty as nat,
                    ),
                forall|n: u64|
                    n <= self.nonce ==> !spec_has_difficulty(
                        spec_content_hash(#[trigger] with_nonce(old(self)@, n)),
                        difficulty as nat,
                    ),
            decreases start - self.nonce,
        {
            self.nonce = self.nonce + 1;
            let h = self.calculate_hash();
            self.hash = h;
            if self.has_valid_difficulty(difficulty) {
                return ;
            }
            proof {
                lemma_content_hash_nonce_only(with_nonce(old(self)@, self.nonce), self@);
            }
        }
        // The whole nonce space failed: no seal exists for these fields.
        proof {
            assert forall|n: u64|
                !spec_has_difficulty(
                    spec_content_hash(#[trigger] with_nonce(old(self)@, n)),
                    difficulty as nat,
                ) by {
                if n > start {
                } else {
                }
            }
            assert(!some_nonce_works(old(self)@, difficulty as nat));
        }
    }
}

} // verus!
