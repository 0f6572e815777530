//! The persistent key schema: how ledger and block entities map onto keys of
//! the flat key-value store.
//!
//! Key families (shown as text): `block:{id}:{height, zero-padded to 20
//! digits}` for the primary block record, `block_hash:{id}:{fingerprint}` for
//! the fingerprint index, `latest:{id}` for the latest-height pointer,
//! `graph:{id}` for the ledger descriptor, and `graph_list` for the registry
//! enumeration. The lemmas at the bottom show the facts rehydration depends
//! on: block keys of one ledger are injective in the height, and the families
//! never collide with one another.

use vstd::prelude::*;
use vstd::string::StrSliceExecFns;
use vstd::string::StringExecFns;

use crate::digits::{dec_digits, digit_char, u64_to_string};

verus! {

/// `count` zero characters.
pub open spec fn zeros(count: nat) -> Seq<char> {
    Seq::new(count, |i: int| '0')
}

/// The height segment of a block key: the decimal digits of `h`, left-padded
/// with zeros to 20 characters (every `u64` has at most 20 digits).
pub open spec fn padded_height(h: nat) -> Seq<char> {
    if dec_digits(h).len() >= 20 {
        dec_digits(h)
    } else {
        zeros((20 - dec_digits(h).len()) as nat) + dec_digits(h)
    }
}

pub open spec fn spec_block_key(id: Seq<char>, h: nat) -> Seq<char> {
    "block:"@ + id + ":"@ + padded_height(h)
}

pub open spec fn spec_block_hash_key(id: Seq<char>, hash: Seq<char>) -> Seq<char> {
    "block_hash:"@ + id + ":"@ + hash
}

pub open spec fn spec_latest_key(id: Seq<char>) -> Seq<char> {
    "latest:"@ + id
}

pub open spec fn spec_graph_key(id: Seq<char>) -> Seq<char> {
    "graph:"@ + id
}

pub open spec fn spec_graph_list_key() -> Seq<char> {
    "graph_list"@
}

/// Builds the primary block key for `id` at height `h`.
pub fn block_key(id: &str, h: u64) -> (r: String)
    ensures
        r@ == spec_block_key(id@, h as nat),
{
    let mut out = String::from_str("block:");
    out.append(id);
    out.append(":");
    let digits = u64_to_string(h);
    let ndigits = digits.as_str().unicode_len();
    let mut pad: usize = 0;
    proof {
        assert(out@ + zeros(0) =~= out@);
    }
    while ndigits < 20 && pad < 20 - ndigits
        invariant
            ndigits == dec_digits(h as nat).len(),
            ndigits < 20 ==> pad <= 20 - ndigits,
            ndigits >= 20 ==> pad == 0,
            out@ == "block:"@ + id@ + ":"@ + zeros(pad as nat),
        decreases 20 - pad,
    {
        out.append("0");
        proof {
            reveal_strlit("0");
            assert("0"@ =~= seq!['0']);
            assert(zeros(pad as nat) + seq!['0'] =~= zeros((pad + 1) as nat));
            assert(("block:"@ + id@ + ":"@ + zeros(pad as nat)) + seq!['0'] =~= "block:"@ + id@
                + ":"@ + (zeros(pad as nat) + seq!['0']));
        }
        pad += 1;
    }
    out.append(digits.as_str());
    proof {
        assert(("block:"@ + id@ + ":"@ + zeros(pad as nat)) + dec_digits(h as nat) =~= "block:"@
            + id@ + ":"@ + (zeros(pad as nat) + dec_digits(h as nat)));
        if dec_digits(h as nat).len() >= 20 {
            assert(zeros(0) + dec_digits(h as nat) =~= dec_digits(h as nat));
        } else {
            assert(pad == 20 - ndigits);
        }
        assert(out@ =~= spec_block_key(id@, h as nat));
    }
    out
}

/// Builds the fingerprint index key.
pub fn block_hash_key(id: &str, hash: &str) -> (r: String)
    ensures
        r@ == spec_block_hash_key(id@, hash@),
{
    let mut out = String::from_str("block_hash:");
    out.append(id);
    out.append(":");
    out.append(hash);
    out
}

/// Builds the latest-height pointer key.
pub fn latest_block_key(id: &str) -> (r: String)
    ensures
        r@ == spec_latest_key(id@),
{
    let mut out = String::from_str("latest:");
    out.append(id);
    out
}

/// Builds the ledger descriptor key.
pub fn graph_key(id: &str) -> (r: String)
    ensures
        r@ == spec_graph_key(id@),
{
    let mut out = String::from_str("graph:");
    out.append(id);
    out
}

/// Builds the registry enumeration key.
pub fn graph_list_key() -> (r: String)
    ensures
        r@ == spec_graph_list_key(),
{
    String::from_str("graph_list")
}

// ---------------------------------------------------------------------------
// Injectivity of the height segment: the decimal value a digit string
// denotes, and proofs that rendering and padding preserve it.
// ---------------------------------------------------------------------------
/// The digit value of one character (ten cases; non-digits count as zero,
/// which the lemmas below never rely on).
pub open spec fn digit_val(c: char) -> nat {
    if c == '0' {
        0
    } else if c == '1' {
        1
    } else if c == '2' {
        2
    } else if c == '3' {
        3
    } else if c == '4' {
        4
    } else if c == '5' {
        5
    } else if c == '6' {
        6
    } else if c == '7' {
        7
    } else if c == '8' {
        8
    } else if c == '9' {
        9
    } else {
        0
    }
}

/// The value a digit string denotes, most significant digit first.
pub open spec fn digits_val(s: Seq<char>) -> nat
    decreases s.len(),
{
    if s.len() == 0 {
        0
    } else {
        digits_val(s.drop_last()) * 10 + digit_val(s.last())
    }
}

proof fn lemma_digits_val_dec(n: nat)
    ensures
        digits_val(dec_digits(n)) == n,
    decreases n,
{
    if n < 10 {
        assert(dec_digits(n) == seq![digit_char(n)]);
        assert(dec_digits(n).drop_last() =~= Seq::<char>::empty());
        assert(digits_val(Seq::<char>::empty()) == 0);
        assert(seq![digit_char(n)].last() == digit_char(n));
        assert(digits_val(dec_digits(n)) == digits_val(Seq::<char>::empty()) * 10 + digit_val(
            digit_char(n),
        ));
        assert(digit_val(digit_char(n)) == n);
    } else {
        lemma_digits_val_dec(n / 10);
        assert(dec_digits(n) == dec_digits(n / 10).push(digit_char(n % 10)));
        assert(dec_digits(n).drop_last() =~= dec_digits(n / 10));
        assert(dec_digits(n).last() == digit_char(n % 10));
        assert(digits_val(dec_digits(n)) == digits_val(dec_digits(n / 10)) * 10 + digit_val(
            dec_digits(n).last(),
        ));
        assert(digit_val(digit_char(n % 10)) == n % 10);
        assert((n / 10) * 10 + n % 10 == n) by (nonlinear_arith);
    }
}

proof fn lemma_digits_val_zeros(k: nat)
    ensures
        digits_val(zeros(k)) == 0,
    decreases k,
{
    if k > 0 {
        lemma_digits_val_zeros((k - 1) as nat);
        assert(zeros(k).drop_last() =~= zeros((k - 1) as nat));
        assert(zeros(k).last() == '0');
    }
}

proof fn lemma_digits_val_zero_prefix(k: nat, s: Seq<char>)
    ensures
        digits_val(zeros(k) + s) == digits_val(s),
    decreases s.len(),
{
    if s.len() == 0 {
        assert(zeros(k) + s =~= zeros(k));
        lemma_digits_val_zeros(k);
    } else {
        lemma_digits_val_zero_prefix(k, s.drop_last());
        assert((zeros(k) + s).drop_last() =~= zeros(k) + s.drop_last());
        assert((zeros(k) + s).last() == s.last());
    }
}

/// Padding preserves the denoted value, so block keys are injective in the
/// height.
pub proof fn lemma_padded_height_val(h: nat)
    ensures
        digits_val(padded_height(h)) == h,
{
    lemma_digits_val_dec(h);
    if dec_digits(h).len() < 20 {
        lemma_digits_val_zero_prefix((20 - dec_digits(h).len()) as nat, dec_digits(h));
    }
}

/// Distinct heights give distinct block keys for the same ledger.
pub proof fn lemma_block_key_injective(id: Seq<char>, h1: nat, h2: nat)
    requires
        h1 != h2,
    ensures
        spec_block_key(id, h1) != spec_block_key(id, h2),
{
    if spec_block_key(id, h1) == spec_block_key(id, h2) {
        reveal_strlit("block:");
        reveal_strlit(":");
        let p = "block:"@ + id + ":"@;
        assert(spec_block_key(id, h1) =~= p + padded_height(h1));
        assert(spec_block_key(id, h2) =~= p + padded_height(h2));
        assert(padded_height(h1).len() == padded_height(h2).len()) by {
            assert((p + padded_height(h1)).len() == (p + padded_height(h2)).len());
        }
        assert(padded_height(h1) =~= padded_height(h2)) by {
            assert(forall|i: int|
                0 <= i < padded_height(h1).len() ==> (p + padded_height(h1))[p.len() + i]
                    == padded_height(h1)[i] && (p + padded_height(h2))[p.len() + i]
                    == padded_height(h2)[i]);
        }
        lemma_padded_height_val(h1);
        lemma_padded_height_val(h2);
        assert(false);
    }
}

// ---------------------------------------------------------------------------
// The key families never collide: each pair differs at index 0 or index 5.
// ---------------------------------------------------------------------------
/// A block key never equals a fingerprint-index key, a latest-height key, a
/// descriptor key, or the registry key, whatever the ids and contents.
pub proof fn lemma_block_key_families_disjoint(
    id1: Seq<char>,
    h: nat,
    id2: Seq<char>,
    hash: Seq<char>,
)
    ensures
        spec_block_key(id1, h) != spec_block_hash_key(id2, hash),
        spec_block_key(id1, h) != spec_latest_key(id2),
        spec_block_key(id1, h) != spec_graph_key(id2),
        spec_block_key(id1, h) != spec_graph_list_key(),
{
    reveal_strlit("block:");
    reveal_strlit("block_hash:");
    reveal_strlit("latest:");
    reveal_strlit("graph:");
    reveal_strlit("graph_list");
    assert(spec_block_key(id1, h)[5] == ':');
    assert(spec_block_hash_key(id2, hash)[5] == '_');
    assert(spec_block_key(id1, h)[0] == 'b');
    assert(spec_latest_key(id2)[0] == 'l');
    assert(spec_graph_key(id2)[0] == 'g');
    assert(spec_graph_list_key()[0] == 'g');
}

/// The non-block key families never collide with one another (for any ids):
/// fingerprint-index, latest-height, descriptor, and registry keys are
/// pairwise distinct.
pub proof fn lemma_other_key_families_disjoint(id1: Seq<char>, hash: Seq<char>, id2: Seq<char>)
    ensures
        spec_block_hash_key(id1, hash) != spec_latest_key(id2),
        spec_block_hash_key(id1, hash) != spec_graph_key(id2),
        spec_block_hash_key(id1, hash) != spec_graph_list_key(),
        spec_latest_key(id1) != spec_graph_key(id2),
        spec_latest_key(id1) != spec_graph_list_key(),
        spec_graph_key(id1) != spec_graph_list_key(),
{
    reveal_strlit("block_hash:");
    reveal_strlit("latest:");
    reveal_strlit("graph:");
    reveal_strlit("graph_list");
    assert(spec_block_hash_key(id1, hash)[0] == 'b');
    assert(spec_latest_key(id1)[0] == 'l');
    assert(spec_latest_key(id2)[0] == 'l');
    assert(spec_graph_key(id1)[0] == 'g');
    assert(spec_graph_key(id2)[0] == 'g');
    assert(spec_graph_key(id2)[5] == ':');
    assert(spec_graph_list_key()[5] == '_');
    assert(spec_graph_key(id1)[5] == ':');
}

} // verus!
