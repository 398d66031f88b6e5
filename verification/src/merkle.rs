use vstd::prelude::*;

use sha2::{Digest, Sha256};

use crate::types::{
    le_bytes, lemma_le_bytes_len, push_u128_le, push_u32_le, user_id_bytes, user_id_to_bytes,
    Currency, Symbol, UserId,
};

verus! {

/// Key discriminator of an (account, currency) cell.
pub const ACCOUNT_KEY: u8 = 0;

/// Key discriminator of an order-book aggregate cell.
pub const ORDERBOOK_KEY: u8 = 1;

/// A 256-bit word: a hash digest or a packed pair of 128-bit values.
#[derive(Debug, PartialEq, Eq, Clone)]
pub struct Hash256 {
    pub bytes: Vec<u8>,
}

pub open spec fn h256_wf(h: Hash256) -> bool {
    h.bytes@.len() == 32
}

/// Every byte zero: the canonical absent value of a tree cell.
pub open spec fn all_zero(s: Seq<u8>) -> bool {
    forall|i: int| 0 <= i < s.len() ==> s[i] == 0u8
}

impl Hash256 {
    /// An exact copy of this word.
    pub fn dup(&self) -> (r: Hash256)
        ensures
            r.bytes@ == self.bytes@,
    {
        let mut bytes: Vec<u8> = Vec::new();
        let mut i: usize = 0;
        while i < self.bytes.len()
            invariant
                i <= self.bytes@.len(),
                bytes@ == self.bytes@.subrange(0, i as int),
            decreases self.bytes@.len() - i,
        {
            bytes.push(self.bytes[i]);
            proof {
                assert(bytes@ =~= self.bytes@.subrange(0, i + 1));
            }
            i = i + 1;
        }
        proof {
            assert(bytes@ =~= self.bytes@);
        }
        Hash256 { bytes }
    }
}

/// The 256-bit value of a state cell: `a` little-endian in the low
/// half, `b` little-endian in the high half.
pub open spec fn u128x2_bytes(a: u128, b: u128) -> Seq<u8> {
    le_bytes(a as int, 16) + le_bytes(b as int, 16)
}

/// Packs two 128-bit scaled integers into one 256-bit word.
pub fn u128le_to_h256(a: u128, b: u128) -> (r: Hash256)
    ensures
        r.bytes@ == u128x2_bytes(a, b),
        h256_wf(r),
{
    let mut bytes: Vec<u8> = Vec::new();
    push_u128_le(&mut bytes, a);
    push_u128_le(&mut bytes, b);
    proof {
        lemma_le_bytes_len(a as int, 16);
        lemma_le_bytes_len(b as int, 16);
        assert(bytes@ =~= u128x2_bytes(a, b));
    }
    Hash256 { bytes }
}

/// One state-cell transition handed to the prover: the typed byte key
/// and the cell value before and after.
#[derive(Debug, PartialEq, Eq, Clone)]
pub struct MerkleLeaf {
    pub key: Vec<u8>,
    pub old_v: Hash256,
    pub new_v: Hash256,
}

pub open spec fn leaf_wf(l: MerkleLeaf) -> bool {
    h256_wf(l.old_v) && h256_wf(l.new_v)
}

/// The 37-byte key of an (account, currency) cell: one discriminator
/// byte, the 32-byte account id, the currency little-endian.
pub open spec fn account_key_bytes(u: UserId, c: Currency) -> Seq<u8> {
    seq![ACCOUNT_KEY] + user_id_bytes(u) + le_bytes(c as int, 4)
}

/// The 9-byte key of an order-book cell: one discriminator byte, then
/// base and quote currency little-endian.
pub open spec fn orderbook_key_bytes(s: Symbol) -> Seq<u8> {
    seq![ORDERBOOK_KEY] + le_bytes(s.0 as int, 4) + le_bytes(s.1 as int, 4)
}

pub open spec fn is_account_leaf(
    l: MerkleLeaf,
    u: UserId,
    c: Currency,
    old_available: u128,
    old_frozen: u128,
    new_available: u128,
    new_frozen: u128,
) -> bool {
    &&& l.key@ == account_key_bytes(u, c)
    &&& l.old_v.bytes@ == u128x2_bytes(old_available, old_frozen)
    &&& l.new_v.bytes@ == u128x2_bytes(new_available, new_frozen)
}

pub open spec fn is_orderbook_leaf(
    l: MerkleLeaf,
    s: Symbol,
    old_ask_size: u128,
    old_bid_size: u128,
    new_ask_size: u128,
    new_bid_size: u128,
) -> bool {
    &&& l.key@ == orderbook_key_bytes(s)
    &&& l.old_v.bytes@ == u128x2_bytes(old_ask_size, old_bid_size)
    &&& l.new_v.bytes@ == u128x2_bytes(new_ask_size, new_bid_size)
}

/// The state-cell transition of one (account, currency) balance.
pub fn new_account_merkle_leaf(
    user_id: &UserId,
    currency: Currency,
    old_available: u128,
    old_frozen: u128,
    new_available: u128,
    new_frozen: u128,
) -> (r: MerkleLeaf)
    ensures
        is_account_leaf(r, *user_id, currency, old_available, old_frozen, new_available, new_frozen),
        leaf_wf(r),
{
    let mut key: Vec<u8> = Vec::new();
    key.push(ACCOUNT_KEY);
    let user_bytes = user_id_to_bytes(user_id);
    let mut i: usize = 0;
    while i < user_bytes.len()
        invariant
            i <= user_bytes@.len(),
            key@ == seq![ACCOUNT_KEY] + user_bytes@.subrange(0, i as int),
        decreases user_bytes@.len() - i,
    {
        key.push(user_bytes[i]);
        proof {
            assert(key@ =~= seq![ACCOUNT_KEY] + user_bytes@.subrange(0, i + 1));
        }
        i = i + 1;
    }
    push_u32_le(&mut key, currency);
    proof {
        assert(user_bytes@.subrange(0, user_bytes@.len() as int) =~= user_bytes@);
        assert(key@ =~= account_key_bytes(*user_id, currency));
    }
    MerkleLeaf {
        key,
        old_v: u128le_to_h256(old_available, old_frozen),
        new_v: u128le_to_h256(new_available, new_frozen),
    }
}

/// The state-cell transition of one order book's aggregate sizes.
pub fn new_orderbook_merkle_leaf(
    symbol: Symbol,
    old_ask_size: u128,
    old_bid_size: u128,
    new_ask_size: u128,
    new_bid_size: u128,
) -> (r: MerkleLeaf)
    ensures
        is_orderbook_leaf(r, symbol, old_ask_size, old_bid_size, new_ask_size, new_bid_size),
        leaf_wf(r),
{
    let mut key: Vec<u8> = Vec::new();
    key.push(ORDERBOOK_KEY);
    push_u32_le(&mut key, symbol.0);
    push_u32_le(&mut key, symbol.1);
    proof {
        assert(key@ =~= orderbook_key_bytes(symbol));
    }
    MerkleLeaf {
        key,
        old_v: u128le_to_h256(old_ask_size, old_bid_size),
        new_v: u128le_to_h256(new_ask_size, new_bid_size),
    }
}

/// The SHA-256 digest of a byte string: a pure function of its input.
pub uninterp spec fn sha256_of(data: Seq<u8>) -> Seq<u8>;

/// Relies on sha2::Sha256::digest: the 32-byte SHA-256 digest,
/// determined by the input bytes alone.
#[verifier::external_body]
pub fn sha256(data: &Vec<u8>) -> (r: Hash256)
    ensures
        r.bytes@ == sha256_of(data@),
        r.bytes@.len() == 32,
{
    Hash256 { bytes: Sha256::digest(data.as_slice()).to_vec() }
}

} // verus!
