//! Store-internal record formats for blocks, ledger descriptors and the
//! ledger id list, with proofs that decoding inverts encoding.
//!
//! Every record is a length-prefixed concatenation of fields: integers as
//! eight little-endian bytes (signed values as a sign byte plus magnitude),
//! strings as a byte count followed by their UTF-8 bytes, lists as an element
//! count followed by the elements. The format is free to differ from any
//! other encoding as long as it round-trips exactly and is stable across
//! restarts; the lemmas here prove the round trip.

use vstd::prelude::*;
use vstd::bytes::{
    spec_u64_from_le_bytes, spec_u64_to_le_bytes, lemma_auto_spec_u64_to_from_le_bytes,
    u64_from_le_bytes, u64_to_le_bytes,
};
use vstd::slice::{slice_index_get, slice_subrange, slice_to_vec};
use vstd::string::StrSliceExecFns;
use vstd::utf8::{
    decode_utf8, encode_utf8, encode_utf8_decode_utf8, encode_utf8_valid_utf8, valid_utf8,
};

use crate::block::{Block, BlockView};
use crate::graph::{spec_graph_type_from_i32, BlockchainGraph, GraphType, GraphView};

verus! {

/// Relies on std's `String::from_utf8`: succeeds exactly on valid UTF-8,
/// yielding the string those bytes encode.
#[verifier::external_type_specification]
#[verifier::external_body]
pub struct ExFromUtf8Error(std::string::FromUtf8Error);

pub assume_specification[ String::from_utf8 ](bytes: Vec<u8>) -> (r: Result<
    String,
    std::string::FromUtf8Error,
>)
    ensures
        match r {
            Ok(s) => valid_utf8(bytes@) && s@ == decode_utf8(bytes@),
            Err(_) => !valid_utf8(bytes@),
        },
;

// ---------------------------------------------------------------------------
// The formats, as functions on mathematical values.
// ---------------------------------------------------------------------------
pub open spec fn enc_u64(x: u64) -> Seq<u8> {
    spec_u64_to_le_bytes(x)
}

pub open spec fn enc_i64(x: int) -> Seq<u8> {
    if x >= 0 {
        seq![0u8] + spec_u64_to_le_bytes(x as u64)
    } else {
        seq![1u8] + spec_u64_to_le_bytes((-x) as u64)
    }
}

pub open spec fn enc_str(s: Seq<char>) -> Seq<u8> {
    enc_u64(encode_utf8(s).len() as u64) + encode_utf8(s)
}

pub open spec fn enc_strs(l: Seq<Seq<char>>) -> Seq<u8>
    decreases l.len(),
{
    if l.len() == 0 {
        Seq::empty()
    } else {
        enc_str(l[0]) + enc_strs(l.drop_first())
    }
}

pub open spec fn enc_str_list(l: Seq<Seq<char>>) -> Seq<u8> {
    enc_u64(l.len() as u64) + enc_strs(l)
}

/// The one-byte category tag of a ledger descriptor.
pub open spec fn graph_type_tag(t: GraphType) -> u8 {
    match t {
        GraphType::Transaction => 0u8,
        GraphType::Identity => 1u8,
        GraphType::Asset => 2u8,
        GraphType::Audit => 3u8,
        GraphType::Custom => 4u8,
    }
}

pub open spec fn enc_block(b: BlockView) -> Seq<u8> {
    enc_str(b.hash) + enc_str(b.previous_hash) + enc_i64(b.timestamp) + enc_str(b.data) + enc_u64(
        b.nonce as u64,
    ) + enc_u64(b.height as u64) + enc_str(b.graph_id) + enc_str_list(b.cross_references)
}

/// A ledger descriptor: everything but the chain, which is never serialized.
pub open spec fn enc_graph_meta(g: GraphView) -> Seq<u8> {
    enc_str(g.id) + seq![graph_type_tag(g.graph_type)] + enc_str(g.description) + enc_i64(
        g.created_at,
    ) + enc_u64(g.difficulty as u64)
}

// Bounds under which a value is representable in the format. Values taken
// from live data always satisfy them; the exec encoders establish them.
pub open spec fn str_encodable(s: Seq<char>) -> bool {
    encode_utf8(s).len() < 0x1_0000_0000_0000_0000
}

pub open spec fn str_list_encodable(l: Seq<Seq<char>>) -> bool {
    &&& l.len() < 0x1_0000_0000_0000_0000
    &&& forall|i: int| 0 <= i < l.len() ==> str_encodable(#[trigger] l[i])
}

pub open spec fn block_encodable(b: BlockView) -> bool {
    &&& str_encodable(b.hash)
    &&& str_encodable(b.previous_hash)
    &&& i64::MIN <= b.timestamp <= i64::MAX
    &&& str_encodable(b.data)
    &&& b.nonce < 0x1_0000_0000_0000_0000
    &&& b.height < 0x1_0000_0000_0000_0000
    &&& str_encodable(b.graph_id)
    &&& str_list_encodable(b.cross_references)
}

pub open spec fn meta_encodable(g: GraphView) -> bool {
    &&& str_encodable(g.id)
    &&& str_encodable(g.description)
    &&& i64::MIN <= g.created_at <= i64::MAX
    &&& g.difficulty <= usize::MAX as nat
}

// ---------------------------------------------------------------------------
// The decoders, as functions on byte sequences. Each consumes a prefix and
// yields the decoded value and the remaining suffix.
// ---------------------------------------------------------------------------
pub open spec fn dec_u64(s: Seq<u8>) -> Option<(u64, Seq<u8>)> {
    if s.len() >= 8 {
        Some((spec_u64_from_le_bytes(s.take(8)), s.skip(8)))
    } else {
        None
    }
}

pub open spec fn dec_i64(s: Seq<u8>) -> Option<(int, Seq<u8>)> {
    if s.len() < 1 {
        None
    } else {
        match dec_u64(s.skip(1)) {
            Some((m, rest)) => {
                if s[0] == 0u8 {
                    if m <= i64::MAX as u64 {
                        Some((m as int, rest))
                    } else {
                        None
                    }
                } else if s[0] == 1u8 {
                    if 1 <= m <= 0x8000_0000_0000_0000u64 {
                        Some((-(m as int), rest))
                    } else {
                        None
                    }
                } else {
                    None
                }
            },
            None => None,
        }
    }
}

pub open spec fn dec_str(s: Seq<u8>) -> Option<(Seq<char>, Seq<u8>)> {
    match dec_u64(s) {
        Some((n, rest)) => {
            if rest.len() >= n {
                let b = rest.take(n as int);
                if valid_utf8(b) {
                    Some((decode_utf8(b), rest.skip(n as int)))
                } else {
                    None
                }
            } else {
                None
            }
        },
        None => None,
    }
}

pub open spec fn dec_strs(k: nat, s: Seq<u8>) -> Option<(Seq<Seq<char>>, Seq<u8>)>
    decreases k,
{
    if k == 0 {
        Some((Seq::empty(), s))
    } else {
        match dec_str(s) {
            Some((c, rest)) => match dec_strs((k - 1) as nat, rest) {
                Some((l, rest2)) => Some((seq![c] + l, rest2)),
                None => None,
            },
            None => None,
        }
    }
}

pub open spec fn dec_str_list(s: Seq<u8>) -> Option<(Seq<Seq<char>>, Seq<u8>)> {
    match dec_u64(s) {
        Some((k, rest)) => dec_strs(k as nat, rest),
        None => None,
    }
}

/// Decodes a whole block record; trailing bytes are an error.
pub open spec fn dec_block(s: Seq<u8>) -> Option<BlockView> {
    match dec_str(s) {
        Some((hash, s1)) => match dec_str(s1) {
            Some((previous_hash, s2)) => match dec_i64(s2) {
                Some((timestamp, s3)) => match dec_str(s3) {
                    Some((data, s4)) => match dec_u64(s4) {
                        Some((nonce, s5)) => match dec_u64(s5) {
                            Some((height, s6)) => match dec_str(s6) {
                                Some((graph_id, s7)) => match dec_str_list(s7) {
                                    Some((cross_references, s8)) => {
                                        if s8.len() == 0 {
                                            Some(
                                                BlockView {
                                                    hash,
                                                    previous_hash,
                                                    timestamp,
                                                    data,
                                                    nonce: nonce as nat,
                                                    height: height as nat,
                                                    graph_id,
                                                    cross_references,
                                                },
                                            )
                                        } else {
                                            None
                                        }
                                    },
                                    None => None,
                                },
                                None => None,
                            },
                            None => None,
                        },
                        None => None,
                    },
                    None => None,
                },
                None => None,
            },
            None => None,
        },
        None => None,
    }
}

/// Decodes a ledger descriptor; the chain is not part of the record and
/// comes back empty, to be rehydrated from the block records.
pub open spec fn dec_graph_meta(s: Seq<u8>) -> Option<GraphView> {
    match dec_str(s) {
        Some((id, s1)) => {
            if s1.len() < 1 {
                None
            } else {
                let graph_type = spec_graph_type_from_i32(s1[0] as int);
                match dec_str(s1.skip(1)) {
                    Some((description, s2)) => match dec_i64(s2) {
                        Some((created_at, s3)) => match dec_u64(s3) {
                            Some((difficulty, s4)) => {
                                if s4.len() == 0 && difficulty <= usize::MAX as u64 {
                                    Some(
                                        GraphView {
                                            id,
                                            graph_type,
                                            description,
                                            created_at,
                                            difficulty: difficulty as nat,
                                            chain: Seq::empty(),
                                        },
                                    )
                                } else {
                                    None
                                }
                            },
                            None => None,
                        },
                        None => None,
                    },
                    None => None,
                }
            }
        },
        None => None,
    }
}

/// Decodes the ledger id list; trailing bytes are an error.
pub open spec fn dec_id_list(s: Seq<u8>) -> Option<Seq<Seq<char>>> {
    match dec_str_list(s) {
        Some((l, rest)) => {
            if rest.len() == 0 {
                Some(l)
            } else {
                None
            }
        },
        None => None,
    }
}

// ---------------------------------------------------------------------------
// Round trips: decoding inverts encoding.
// ---------------------------------------------------------------------------
pub proof fn lemma_dec_u64_enc(x: u64, rest: Seq<u8>)
    ensures
        dec_u64(enc_u64(x) + rest) == Some((x, rest)),
{
    lemma_auto_spec_u64_to_from_le_bytes();
    assert((enc_u64(x) + rest).take(8) =~= enc_u64(x));
    assert((enc_u64(x) + rest).skip(8) =~= rest);
}

pub proof fn lemma_dec_i64_enc(x: int, rest: Seq<u8>)
    requires
        i64::MIN <= x <= i64::MAX,
    ensures
        dec_i64(enc_i64(x) + rest) == Some((x, rest)),
{
    lemma_auto_spec_u64_to_from_le_bytes();
    let s = enc_i64(x) + rest;
    if x >= 0 {
        assert(s[0] == 0u8);
        assert(s.skip(1) =~= spec_u64_to_le_bytes(x as u64) + rest);
        lemma_dec_u64_enc(x as u64, rest);
    } else {
        assert(s[0] == 1u8);
        assert(s.skip(1) =~= spec_u64_to_le_bytes((-x) as u64) + rest);
        lemma_dec_u64_enc((-x) as u64, rest);
    }
}

pub proof fn lemma_dec_str_enc(s: Seq<char>, rest: Seq<u8>)
    requires
        str_encodable(s),
    ensures
        dec_str(enc_str(s) + rest) == Some((s, rest)),
{
    let bytes = encode_utf8(s);
    let n = bytes.len() as u64;
    assert(enc_str(s) + rest =~= enc_u64(n) + (bytes + rest));
    lemma_dec_u64_enc(n, bytes + rest);
    assert((bytes + rest).take(n as int) =~= bytes);
    assert((bytes + rest).skip(n as int) =~= rest);
    encode_utf8_valid_utf8(s);
    encode_utf8_decode_utf8(s);
}

pub proof fn lemma_dec_strs_enc(l: Seq<Seq<char>>, rest: Seq<u8>)
    requires
        forall|i: int| 0 <= i < l.len() ==> str_encodable(#[trigger] l[i]),
    ensures
        dec_strs(l.len(), enc_strs(l) + rest) == Some((l, rest)),
    decreases l.len(),
{
    if l.len() == 0 {
        assert(enc_strs(l) + rest =~= rest);
        assert(dec_strs(0, rest) == Some((Seq::<Seq<char>>::empty(), rest)));
        assert(l =~= Seq::<Seq<char>>::empty());
    } else {
        let tail = l.drop_first();
        assert(enc_strs(l) + rest =~= enc_str(l[0]) + (enc_strs(tail) + rest));
        lemma_dec_str_enc(l[0], enc_strs(tail) + rest);
        assert(forall|i: int| 0 <= i < tail.len() ==> str_encodable(#[trigger] tail[i]));
        lemma_dec_strs_enc(tail, rest);
        assert(seq![l[0]] + tail =~= l);
    }
}

pub proof fn lemma_dec_str_list_enc(l: Seq<Seq<char>>, rest: Seq<u8>)
    requires
        str_list_encodable(l),
    ensures
        dec_str_list(enc_str_list(l) + rest) == Some((l, rest)),
{
    assert(enc_str_list(l) + rest =~= enc_u64(l.len() as u64) + (enc_strs(l) + rest));
    lemma_dec_u64_enc(l.len() as u64, enc_strs(l) + rest);
    lemma_dec_strs_enc(l, rest);
}

/// Decoding a block record yields exactly the block that was encoded.
pub proof fn lemma_dec_block_enc(b: BlockView)
    requires
        block_encodable(b),
    ensures
        dec_block(enc_block(b)) == Some(b),
{
    let e8 = enc_str_list(b.cross_references);
    let e7 = enc_str(b.graph_id);
    let e6 = enc_u64(b.height as u64);
    let e5 = enc_u64(b.nonce as u64);
    let e4 = enc_str(b.data);
    let e3 = enc_i64(b.timestamp);
    let e2 = enc_str(b.previous_hash);
    let e1 = enc_str(b.hash);
    let r8 = Seq::<u8>::empty();
    let r7 = e8 + r8;
    let r6 = e7 + r7;
    let r5 = e6 + r6;
    let r4 = e5 + r5;
    let r3 = e4 + r4;
    let r2 = e3 + r3;
    let r1 = e2 + r2;
    assert(enc_block(b) =~= e1 + r1);
    lemma_dec_str_enc(b.hash, r1);
    assert(r1 =~= e2 + r2);
    lemma_dec_str_enc(b.previous_hash, r2);
    assert(r2 =~= e3 + r3);
    lemma_dec_i64_enc(b.timestamp, r3);
    assert(r3 =~= e4 + r4);
    lemma_dec_str_enc(b.data, r4);
    assert(r4 =~= e5 + r5);
    lemma_dec_u64_enc(b.nonce as u64, r5);
    assert(r5 =~= e6 + r6);
    lemma_dec_u64_enc(b.height as u64, r6);
    assert(r6 =~= e7 + r7);
    lemma_dec_str_enc(b.graph_id, r7);
    assert(r7 =~= e8 + r8);
    lemma_dec_str_list_enc(b.cross_references, r8);
}

/// Decoding a descriptor record yields the descriptor that was encoded, with
/// an empty chain.
pub proof fn lemma_dec_graph_meta_enc(g: GraphView)
    requires
        meta_encodable(g),
    ensures
        dec_graph_meta(enc_graph_meta(g)) == Some(
            GraphView { chain: Seq::empty(), ..g },
        ),
{
    let e5 = enc_u64(g.difficulty as u64);
    let e4 = enc_i64(g.created_at);
    let e3 = enc_str(g.description);
    let e2 = seq![graph_type_tag(g.graph_type)];
    let e1 = enc_str(g.id);
    let r5 = Seq::<u8>::empty();
    let r4 = e5 + r5;
    let r3 = e4 + r4;
    let r2 = e3 + r3;
    let r1 = e2 + r2;
    assert(enc_graph_meta(g) =~= e1 + r1);
    lemma_dec_str_enc(g.id, r1);
    assert(r1[0] == graph_type_tag(g.graph_type));
    assert(spec_graph_type_from_i32(graph_type_tag(g.graph_type) as int) == g.graph_type);
    assert(r1.skip(1) =~= e3 + r3);
    lemma_dec_str_enc(g.description, r3);
    assert(r3 =~= e4 + r4);
    lemma_dec_i64_enc(g.created_at, r4);
    assert(r4 =~= e5 + r5);
    lemma_dec_u64_enc(g.difficulty as u64, r5);
}

/// Decoding the id list record yields the list that was encoded.
pub proof fn lemma_dec_id_list_enc(l: Seq<Seq<char>>)
    requires
        str_list_encodable(l),
    ensures
        dec_id_list(enc_str_list(l)) == Some(l),
{
    assert(enc_str_list(l) =~= enc_str_list(l) + Seq::<u8>::empty());
    lemma_dec_str_list_enc(l, Seq::<u8>::empty());
}

proof fn lemma_enc_strs_push(l: Seq<Seq<char>>, x: Seq<char>)
    ensures
        enc_strs(l.push(x)) == enc_strs(l) + enc_str(x),
    decreases l.len(),
{
    if l.len() == 0 {
        assert(l.push(x)[0] == x);
        assert(l.push(x).drop_first() =~= Seq::<Seq<char>>::empty());
        assert(enc_strs(Seq::<Seq<char>>::empty()) =~= Seq::<u8>::empty());
        assert(enc_strs(l.push(x)) =~= enc_str(x) + Seq::<u8>::empty());
        assert(enc_str(x) + Seq::<u8>::empty() =~= enc_str(x));
        assert(enc_strs(l) + enc_str(x) =~= enc_str(x));
    } else {
        lemma_enc_strs_push(l.drop_first(), x);
        assert(l.push(x).drop_first() =~= l.drop_first().push(x));
        assert(l.push(x)[0] == l[0]);
        assert(enc_str(l[0]) + (enc_strs(l.drop_first()) + enc_str(x)) =~= (enc_str(l[0])
            + enc_strs(l.drop_first())) + enc_str(x));
    }
}

// ---------------------------------------------------------------------------
// Executable encoders.
// ---------------------------------------------------------------------------
fn append_bytes(out: &mut Vec<u8>, add: &[u8])
    ensures
        final(out)@ == old(out)@ + add@,
{
    proof {
        assert(old(out)@ + add@.take(0) =~= old(out)@);
    }
    let mut i: usize = 0;
    while i < add.len()
        invariant
            i <= add@.len(),
            out@ == old(out)@ + add@.take(i as int),
        decreases add@.len() - i,
    {
        out.push(*slice_index_get(add, i));
        proof {
            assert(old(out)@ + add@.take(i as int) + seq![add@[i as int]] =~= old(out)@ + add@.take(
                i + 1,
            ));
        }
        i += 1;
    }
    proof {
        assert(old(out)@ + add@.take(add@.len() as int) =~= old(out)@ + add@);
    }
}

fn encode_u64_into(out: &mut Vec<u8>, x: u64)
    ensures
        final(out)@ == old(out)@ + enc_u64(x),
{
    let b = u64_to_le_bytes(x);
    append_bytes(out, b.as_slice());
}

fn encode_i64_into(out: &mut Vec<u8>, x: i64)
    ensures
        final(out)@ == old(out)@ + enc_i64(x as int),
{
    if x >= 0 {
        out.push(0u8);
        encode_u64_into(out, x as u64);
        proof {
            assert(old(out)@ + seq![0u8] + enc_u64(x as u64) =~= old(out)@ + enc_i64(x as int));
        }
    } else {
        let mag: u64 = ((-(x + 1)) as u64) + 1;
        assert(mag as int == -(x as int));
        out.push(1u8);
        encode_u64_into(out, mag);
        proof {
            assert(old(out)@ + seq![1u8] + enc_u64(mag) =~= old(out)@ + enc_i64(x as int));
        }
    }
}

fn encode_str_into(out: &mut Vec<u8>, s: &String)
    ensures
        final(out)@ == old(out)@ + enc_str(s@),
        str_encodable(s@),
{
    let bv = s.as_str().as_bytes_vec();
    encode_u64_into(out, bv.len() as u64);
    append_bytes(out, bv.as_slice());
    proof {
        assert(old(out)@ + enc_u64(encode_utf8(s@).len() as u64) + encode_utf8(s@) =~= old(out)@
            + enc_str(s@));
    }
}

fn encode_str_list_into(out: &mut Vec<u8>, l: &Vec<String>)
    ensures
        final(out)@ == old(out)@ + enc_str_list(l.deep_view()),
        str_list_encodable(l.deep_view()),
{
    encode_u64_into(out, l.len() as u64);
    let ghost base = old(out)@ + enc_u64(l@.len() as u64);
    proof {
        assert(enc_strs(l.deep_view().take(0)) =~= Seq::<u8>::empty());
        assert(base + Seq::<u8>::empty() =~= base);
    }
    let mut i: usize = 0;
    while i < l.len()
        invariant
            i <= l@.len(),
            out@ == base + enc_strs(l.deep_view().take(i as int)),
            forall|j: int| 0 <= j < i ==> str_encodable(#[trigger] l.deep_view()[j]),
        decreases l@.len() - i,
    {
        encode_str_into(out, &l[i]);
        proof {
            let dv = l.deep_view();
            lemma_enc_strs_push(dv.take(i as int), dv[i as int]);
            assert(dv.take(i as int).push(dv[i as int]) =~= dv.take(i + 1));
            assert(base + enc_strs(dv.take(i as int)) + enc_str(dv[i as int]) =~= base + (enc_strs(
                dv.take(i as int),
            ) + enc_str(dv[i as int])));
        }
        i += 1;
    }
    proof {
        assert(l.deep_view().take(l@.len() as int) =~= l.deep_view());
        assert(base + enc_strs(l.deep_view()) =~= old(out)@ + enc_str_list(l.deep_view()));
    }
}

fn graph_type_tag_exec(t: GraphType) -> (r: u8)
    ensures
        r == graph_type_tag(t),
{
    match t {
        GraphType::Transaction => 0,
        GraphType::Identity => 1,
        GraphType::Asset => 2,
        GraphType::Audit => 3,
        GraphType::Custom => 4,
    }
}

/// Serializes a block record.
pub fn encode_block(b: &Block) -> (r: Vec<u8>)
    ensures
        r@ == enc_block(b@),
        block_encodable(b@),
{
    let mut out: Vec<u8> = Vec::new();
    encode_str_into(&mut out, &b.hash);
    encode_str_into(&mut out, &b.previous_hash);
    encode_i64_into(&mut out, b.timestamp);
    encode_str_into(&mut out, &b.data);
    encode_u64_into(&mut out, b.nonce);
    encode_u64_into(&mut out, b.height);
    encode_str_into(&mut out, &b.graph_id);
    encode_str_list_into(&mut out, &b.cross_references);
    proof {
        assert(out@ =~= enc_block(b@));
    }
    out
}

/// Serializes a ledger descriptor (the chain is never serialized).
pub fn encode_graph_meta(g: &BlockchainGraph) -> (r: Vec<u8>)
    ensures
        r@ == enc_graph_meta(g@),
        meta_encodable(g@),
{
    let mut out: Vec<u8> = Vec::new();
    encode_str_into(&mut out, &g.id);
    out.push(graph_type_tag_exec(g.graph_type));
    encode_str_into(&mut out, &g.description);
    encode_i64_into(&mut out, g.created_at);
    encode_u64_into(&mut out, g.difficulty as u64);
    proof {
        assert(out@ =~= enc_graph_meta(g@));
    }
    out
}

/// Serializes the ledger id list.
pub fn encode_id_list(l: &Vec<String>) -> (r: Vec<u8>)
    ensures
        r@ == enc_str_list(l.deep_view()),
        str_list_encodable(l.deep_view()),
{
    let mut out: Vec<u8> = Vec::new();
    encode_str_list_into(&mut out, l);
    proof {
        assert(out@ =~= enc_str_list(l.deep_view()));
    }
    out
}

// ---------------------------------------------------------------------------
// Executable decoders. Each mirrors its specification decoder exactly.
// ---------------------------------------------------------------------------
fn read_u64(bytes: &[u8], pos: usize) -> (r: Option<(u64, usize)>)
    requires
        pos <= bytes@.len(),
    ensures
        match r {
            Some(p) => pos <= p.1 <= bytes@.len() && dec_u64(bytes@.skip(pos as int)) == Some(
                (p.0, bytes@.skip(p.1 as int)),
            ),
            None => dec_u64(bytes@.skip(pos as int)) is None,
        },
{
    if bytes.len() - pos >= 8 {
        let sub = slice_subrange(bytes, pos, pos + 8);
        let x = u64_from_le_bytes(sub);
        proof {
            assert(bytes@.skip(pos as int).take(8) =~= bytes@.subrange(pos as int, pos + 8));
            assert(bytes@.skip(pos as int).skip(8) =~= bytes@.skip(pos + 8));
        }
        Some((x, pos + 8))
    } else {
        None
    }
}

fn read_i64(bytes: &[u8], pos: usize) -> (r: Option<(i64, usize)>)
    requires
        pos <= bytes@.len(),
    ensures
        match r {
            Some(p) => pos <= p.1 <= bytes@.len() && dec_i64(bytes@.skip(pos as int)) == Some(
                (p.0 as int, bytes@.skip(p.1 as int)),
            ),
            None => dec_i64(bytes@.skip(pos as int)) is None,
        },
{
    if bytes.len() - pos >= 1 {
        let sign = *slice_index_get(bytes, pos);
        proof {
            assert(bytes@.skip(pos as int)[0] == bytes@[pos as int]);
            assert(bytes@.skip(pos as int).skip(1) =~= bytes@.skip(pos + 1));
        }
        match read_u64(bytes, pos + 1) {
            Some((m, p2)) => {
                if sign == 0 {
                    if m <= 0x7fff_ffff_ffff_ffffu64 {
                        Some((m as i64, p2))
                    } else {
                        None
                    }
                } else if sign == 1 {
                    if 1 <= m && m <= 0x8000_0000_0000_0000u64 {
                        let x: i64 = if m == 0x8000_0000_0000_0000u64 {
                            i64::MIN
                        } else {
                            -(m as i64)
                        };
                        Some((x, p2))
                    } else {
                        None
                    }
                } else {
                    None
                }
            },
            None => None,
        }
    } else {
        None
    }
}

fn read_str(bytes: &[u8], pos: usize) -> (r: Option<(String, usize)>)
    requires
        pos <= bytes@.len(),
    ensures
        match r {
            Some(p) => pos <= p.1 <= bytes@.len() && dec_str(bytes@.skip(pos as int)) == Some(
                (p.0@, bytes@.skip(p.1 as int)),
            ),
            None => dec_str(bytes@.skip(pos as int)) is None,
        },
{
    match read_u64(bytes, pos) {
        Some((n, p1)) => {
            if n <= (bytes.len() - p1) as u64 {
                let end = p1 + (n as usize);
                let sub = slice_subrange(bytes, p1, end);
                let v = slice_to_vec(sub);
                proof {
                    assert(bytes@.skip(p1 as int).take(n as int) =~= bytes@.subrange(
                        p1 as int,
                        end as int,
                    ));
                    assert(bytes@.skip(p1 as int).skip(n as int) =~= bytes@.skip(end as int));
                }
                match String::from_utf8(v) {
                    Ok(s) => Some((s, end)),
                    Err(_) => None,
                }
            } else {
                None
            }
        },
        None => None,
    }
}

fn read_str_list(bytes: &[u8], pos: usize) -> (r: Option<(Vec<String>, usize)>)
    requires
        pos <= bytes@.len(),
    ensures
        match r {
            Some(p) => pos <= p.1 <= bytes@.len() && dec_str_list(bytes@.skip(pos as int)) == Some(
                (p.0.deep_view(), bytes@.skip(p.1 as int)),
            ),
            None => dec_str_list(bytes@.skip(pos as int)) is None,
        },
{
    match read_u64(bytes, pos) {
        Some((k, p1)) => {
            let mut acc: Vec<String> = Vec::new();
            let mut p = p1;
            let mut i: u64 = 0;
            proof {
                assert(acc.deep_view() =~= Seq::<Seq<char>>::empty());
            }
            while i < k
                invariant
                    i <= k,
                    pos <= p <= bytes@.len(),
                    acc.deep_view().len() == i,
                    dec_u64(bytes@.skip(pos as int)) == Some((k, bytes@.skip(p1 as int))),
                    match dec_strs((k - i) as nat, bytes@.skip(p as int)) {
                        Some(q) => dec_strs(k as nat, bytes@.skip(p1 as int)) == Some(
                            ((acc.deep_view() + q.0), q.1),
                        ),
                        None => dec_strs(k as nat, bytes@.skip(p1 as int)) is None,
                    },
                decreases k - i,
            {
                match read_str(bytes, p) {
                    Some((s, p2)) => {
                        proof {
                            let tail = dec_strs((k - i - 1) as nat, bytes@.skip(p2 as int));
                            if tail is Some {
                                let q = tail->0;
                                assert(dec_strs((k - i) as nat, bytes@.skip(p as int)) == Some(
                                    ((seq![s@] + q.0), q.1),
                                ));
                                assert(acc.deep_view() + (seq![s@] + q.0) =~= (acc.deep_view().push(
                                    s@,
                                )) + q.0);
                            } else {
                                assert(dec_strs((k - i) as nat, bytes@.skip(p as int)) is None);
                            }
                        }
                        let ghost old_acc = acc.deep_view();
                        acc.push(s);
                        proof {
                            assert(acc.deep_view() =~= old_acc.push(s@));
                        }
                        p = p2;
                        i = i + 1;
                    },
                    None => {
                        proof {
                            assert((k - i) as nat != 0);
                            assert(dec_strs((k - i) as nat, bytes@.skip(p as int)) is None);
                            assert(dec_strs(k as nat, bytes@.skip(p1 as int)) is None);
                            assert(dec_u64(bytes@.skip(pos as int)) == Some(
                                (k, bytes@.skip(p1 as int)),
                            ));
                            assert(dec_str_list(bytes@.skip(pos as int)) is None);
                        }
                        return None;
                    },
                }
            }
            proof {
                assert(dec_strs(0, bytes@.skip(p as int)) == Some(
                    (Seq::<Seq<char>>::empty(), bytes@.skip(p as int)),
                ));
                assert(acc.deep_view() + Seq::<Seq<char>>::empty() =~= acc.deep_view());
            }
            Some((acc, p))
        },
        None => None,
    }
}

/// Deserializes a block record; `None` on any malformed or trailing bytes.
pub fn decode_block(bytes: &Vec<u8>) -> (r: Option<Block>)
    ensures
        match r {
            Some(b) => dec_block(bytes@) == Some(b@),
            None => dec_block(bytes@) is None,
        },
{
    let s = bytes.as_slice();
    proof {
        assert(s@.skip(0) =~= bytes@);
    }
    let (hash, p1) = match read_str(s, 0) {
        Some(x) => x,
        None => {
            return None;
        },
    };
    let (previous_hash, p2) = match read_str(s, p1) {
        Some(x) => x,
        None => {
            return None;
        },
    };
    let (timestamp, p3) = match read_i64(s, p2) {
        Some(x) => x,
        None => {
            return None;
        },
    };
    let (data, p4) = match read_str(s, p3) {
        Some(x) => x,
        None => {
            return None;
        },
    };
    let (nonce, p5) = match read_u64(s, p4) {
        Some(x) => x,
        None => {
            return None;
        },
    };
    let (height, p6) = match read_u64(s, p5) {
        Some(x) => x,
        None => {
            return None;
        },
    };
    let (graph_id, p7) = match read_str(s, p6) {
        Some(x) => x,
        None => {
            return None;
        },
    };
    let (cross_references, p8) = match read_str_list(s, p7) {
        Some(x) => x,
        None => {
            return None;
        },
    };
    if p8 != bytes.len() {
        proof {
            assert(bytes@.skip(p8 as int).len() != 0);
        }
        return None;
    }
    proof {
        assert(bytes@.skip(p8 as int).len() == 0);
    }
    Some(Block { hash, previous_hash, timestamp, data, nonce, height, graph_id, cross_references })
}

/// Deserializes a ledger descriptor; the chain comes back empty, to be
/// rehydrated from the block records.
pub fn decode_graph_meta(bytes: &Vec<u8>) -> (r: Option<BlockchainGraph>)
    ensures
        match r {
            Some(g) => dec_graph_meta(bytes@) == Some(g@) && g@.chain == Seq::<BlockView>::empty(),
            None => dec_graph_meta(bytes@) is None,
        },
{
    let s = bytes.as_slice();
    proof {
        assert(s@.skip(0) =~= bytes@);
    }
    let (id, p1) = match read_str(s, 0) {
        Some(x) => x,
        None => {
            return None;
        },
    };
    if bytes.len() - p1 < 1 {
        return None;
    }
    let tag = *slice_index_get(s, p1);
    let graph_type = GraphType::from_i32(tag as i32);
    proof {
        assert(bytes@.skip(p1 as int)[0] == bytes@[p1 as int]);
        assert(bytes@.skip(p1 as int).skip(1) =~= bytes@.skip(p1 + 1));
    }
    let (description, p2) = match read_str(s, p1 + 1) {
        Some(x) => x,
        None => {
            return None;
        },
    };
    let (created_at, p3) = match read_i64(s, p2) {
        Some(x) => x,
        None => {
            return None;
        },
    };
    let (difficulty, p4) = match read_u64(s, p3) {
        Some(x) => x,
        None => {
            return None;
        },
    };
    if p4 != bytes.len() {
        proof {
            assert(bytes@.skip(p4 as int).len() != 0);
        }
        return None;
    }
    if difficulty > usize::MAX as u64 {
        return None;
    }
    proof {
        assert(bytes@.skip(p4 as int).len() == 0);
    }
    let graph = BlockchainGraph {
        id,
        graph_type,
        description,
        created_at,
        difficulty: difficulty as usize,
        chain: Vec::new(),
    };
    proof {
        assert(graph.chain.deep_view() =~= Seq::<BlockView>::empty());
    }
    Some(graph)
}

/// Deserializes the ledger id list; `None` on malformed or trailing bytes.
pub fn decode_id_list(bytes: &Vec<u8>) -> (r: Option<Vec<String>>)
    ensures
        match r {
            Some(l) => dec_id_list(bytes@) == Some(l.deep_view()),
            None => dec_id_list(bytes@) is None,
        },
{
    let s = bytes.as_slice();
    proof {
        assert(s@.skip(0) =~= bytes@);
    }
    match read_str_list(s, 0) {
        Some((l, p)) => {
            if p == bytes.len() {
                proof {
                    assert(bytes@.skip(p as int).len() == 0);
                }
                Some(l)
            } else {
                proof {
                    assert(bytes@.skip(p as int).len() != 0);
                }
                None
            }
        },
        None => None,
    }
}

} // verus!
