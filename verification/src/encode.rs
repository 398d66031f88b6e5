use vstd::prelude::*;

use blake2b_rs::Blake2bBuilder;

use crate::merkle::{all_zero, h256_wf, Hash256};
use crate::orderbook::AskOrBid;
use crate::types::{
    le_bytes, push_all, push_u32_le, push_u64_le, user_id_bytes, user_id_to_bytes, Currency,
    OrderId, Symbol, UserId,
};

verus! {

/// A non-negative fixed-point decimal: `mantissa` scaled down by
/// `scale` decimal places.
#[derive(Debug, PartialEq, Eq, Clone, Copy, Structural)]
pub struct Dec {
    pub mantissa: u128,
    pub scale: u32,
}

/// The reduced form: trailing fractional zeros stripped, so that
/// equal values share one representation.
pub open spec fn dec_norm(m: nat, s: nat) -> (nat, nat)
    decreases s,
{
    if s == 0 || m % 10 != 0 {
        (m, s)
    } else {
        dec_norm(m / 10, (s - 1) as nat)
    }
}

/// The decimal digits of `m`, most significant first.
pub open spec fn digits(m: nat) -> Seq<u8>
    decreases m,
{
    if m < 10 {
        seq![(48 + m) as u8]
    } else {
        digits(m / 10) + seq![(48 + m % 10) as u8]
    }
}

/// The lowest `s` decimal digits of `m`, zero padded, most
/// significant first.
pub open spec fn frac_digits(m: nat, s: nat) -> Seq<u8>
    decreases s,
{
    if s == 0 {
        Seq::empty()
    } else {
        frac_digits(m / 10, (s - 1) as nat) + seq![(48 + m % 10) as u8]
    }
}

/// `m` with its lowest `s` decimal digits cut off.
pub open spec fn int_part(m: nat, s: nat) -> nat
    decreases s,
{
    if s == 0 {
        m
    } else {
        int_part(m / 10, (s - 1) as nat)
    }
}

/// The canonical shortest decimal string of a value: reduce, then
/// write the integer part, and the stripped fraction after a point if
/// any of it is left.  This string is part of the wire format: it
/// feeds a hash, so it must come out byte-identical on every node.
pub open spec fn dec_str(m: nat, s: nat) -> Seq<u8> {
    let norm = dec_norm(m, s);
    if norm.1 == 0 {
        digits(norm.0)
    } else {
        digits(int_part(norm.0, norm.1)) + seq![46u8] + frac_digits(norm.0, norm.1)
    }
}

fn push_digits(out: &mut Vec<u8>, m: u128)
    ensures
        final(out)@ == old(out)@ + digits(m as nat),
    decreases m,
{
    if m < 10 {
        let d: u8 = (m % 10) as u8;
        out.push(48 + d);
        proof {
            assert(out@ =~= old(out)@ + digits(m as nat));
        }
    } else {
        push_digits(out, m / 10);
        let d: u8 = (m % 10) as u8;
        out.push(48 + d);
        proof {
            assert(out@ =~= old(out)@ + digits(m as nat));
        }
    }
}

fn push_frac_digits(out: &mut Vec<u8>, m: u128, s: u32)
    ensures
        final(out)@ == old(out)@ + frac_digits(m as nat, s as nat),
    decreases s,
{
    if s > 0 {
        push_frac_digits(out, m / 10, s - 1);
        let d: u8 = (m % 10) as u8;
        out.push(48 + d);
        proof {
            assert(out@ =~= old(out)@ + frac_digits(m as nat, s as nat));
        }
    } else {
        proof {
            assert(out@ =~= old(out)@ + frac_digits(m as nat, 0));
        }
    }
}

/// The canonical shortest decimal string of `d`, as bytes.
pub fn dec_str_bytes(d: Dec) -> (r: Vec<u8>)
    ensures
        r@ == dec_str(d.mantissa as nat, d.scale as nat),
{
    let mut m: u128 = d.mantissa;
    let mut s: u32 = d.scale;
    while s > 0 && m % 10 == 0
        invariant
            dec_norm(d.mantissa as nat, d.scale as nat) == dec_norm(m as nat, s as nat),
        decreases s,
    {
        m = m / 10;
        s = s - 1;
    }
    proof {
        assert(dec_norm(m as nat, s as nat) == (m as nat, s as nat));
    }
    let mut out: Vec<u8> = Vec::new();
    if s == 0 {
        push_digits(&mut out, m);
    } else {
        let ip = int_part_exec(m, s);
        push_digits(&mut out, ip);
        out.push(46);
        push_frac_digits(&mut out, m, s);
    }
    out
}

fn int_part_exec(m: u128, s: u32) -> (r: u128)
    ensures
        r == int_part(m as nat, s as nat),
{
    let mut x: u128 = m;
    let mut i: u32 = 0;
    while i < s
        invariant
            i <= s,
            int_part(m as nat, s as nat) == int_part(x as nat, (s - i) as nat),
        decreases s - i,
    {
        x = x / 10;
        i = i + 1;
    }
    x
}

/// The 32-byte Blake2b digest, with the state tree's personalization,
/// of a byte string: a pure function of its input.
pub uninterp spec fn blake2b256_of(data: Seq<u8>) -> Seq<u8>;

/// Relies on blake2b_rs (Blake2bBuilder, update, finalize): the
/// 32-byte Blake2b digest under the tree's personalization,
/// determined by the input bytes alone.
#[verifier::external_body]
fn blake2b256(data: &Vec<u8>) -> (r: Hash256)
    ensures
        r.bytes@ == blake2b256_of(data@),
        r.bytes@.len() == 32,
{
    let mut buf = [0u8; 32];
    let mut hasher = Blake2bBuilder::new(32).personal(b"sparsemerkletree").key(&[]).build();
    hasher.update(data.as_slice());
    hasher.finalize(&mut buf);
    Hash256 { bytes: buf.to_vec() }
}

/// The all-zero 256-bit word, standing for an empty cell.
fn zero_h256() -> (r: Hash256)
    ensures
        all_zero(r.bytes@),
        h256_wf(r),
{
    let bytes = vec![0u8; 32];
    Hash256 { bytes }
}

/// The input hashed for a tape cell: the canonical strings of the
/// resting size and the best price, concatenated.
pub open spec fn tape_value_input(size: Dec, best: Dec) -> Seq<u8> {
    dec_str(size.mantissa as nat, size.scale as nat) + dec_str(best.mantissa as nat, best.scale as nat)
}

/// Hash-stable value of one side's tape cell: zero when nothing
/// rests, else the digest of the canonical size and best-price
/// strings.
#[allow(non_snake_case)]
pub fn genTapeValue(size: Dec, best: Dec) -> (r: Hash256)
    ensures
        size.mantissa == 0 ==> all_zero(r.bytes@),
        size.mantissa != 0 ==> r.bytes@ == blake2b256_of(tape_value_input(size, best)),
        h256_wf(r),
{
    if size.mantissa == 0 {
        return zero_h256();
    }
    let mut data = dec_str_bytes(size);
    let best_bytes = dec_str_bytes(best);
    push_all(&mut data, &best_bytes);
    blake2b256(&data)
}

/// The input hashed for an order cell: owner, canonical amount and
/// price strings, and the side tag offset by two, little-endian.
pub open spec fn order_value_input(owner: UserId, amount: Dec, price: Dec, ask_or_bid: AskOrBid) -> Seq<
    u8,
> {
    user_id_bytes(owner) + dec_str(amount.mantissa as nat, amount.scale as nat) + dec_str(
        price.mantissa as nat,
        price.scale as nat,
    ) + le_bytes(if ask_or_bid == AskOrBid::Ask { 2int } else { 3int }, 4)
}

/// Hash-stable value of one resting order's cell.
#[allow(non_snake_case)]
pub fn genOrderValue(owner: &UserId, amount: Dec, price: Dec, ask_or_bid: AskOrBid) -> (r: Hash256)
    ensures
        r.bytes@ == blake2b256_of(order_value_input(*owner, amount, price, ask_or_bid)),
        h256_wf(r),
{
    let mut data = user_id_to_bytes(owner);
    let amount_bytes = dec_str_bytes(amount);
    push_all(&mut data, &amount_bytes);
    let price_bytes = dec_str_bytes(price);
    push_all(&mut data, &price_bytes);
    push_u32_le(&mut data, ask_or_bid.as_u32() + 2);
    blake2b256(&data)
}

/// The input hashed for an account cell: the canonical strings of the
/// tradable and frozen balances, concatenated.
pub open spec fn account_value_input(tradable: Dec, frozen: Dec) -> Seq<u8> {
    dec_str(tradable.mantissa as nat, tradable.scale as nat) + dec_str(
        frozen.mantissa as nat,
        frozen.scale as nat,
    )
}

/// Hash-stable value of one account's balance cell: zero when both
/// parts are zero, so an emptied account and a never-touched one
/// cannot be told apart.
#[allow(non_snake_case)]
pub fn genAccountValue(tradable: Dec, frozen: Dec) -> (r: Hash256)
    ensures
        tradable.mantissa == 0 && frozen.mantissa == 0 ==> all_zero(r.bytes@),
        !(tradable.mantissa == 0 && frozen.mantissa == 0) ==> r.bytes@ == blake2b256_of(
            account_value_input(tradable, frozen),
        ),
        h256_wf(r),
{
    if tradable.mantissa == 0 && frozen.mantissa == 0 {
        return zero_h256();
    }
    let mut data = dec_str_bytes(tradable);
    let frozen_bytes = dec_str_bytes(frozen);
    push_all(&mut data, &frozen_bytes);
    blake2b256(&data)
}

/// The trie key of one side's tape cell: the symbol hash rehashed
/// with the side tag offset by two.
pub fn gen_symbol_key(symbol: Symbol, ask_or_bid: AskOrBid) -> (r: Hash256)
    ensures
        r.bytes@ == blake2b256_of(
            blake2b256_of(le_bytes(symbol.0 as int, 4) + le_bytes(symbol.1 as int, 4)) + le_bytes(
                if ask_or_bid == AskOrBid::Ask {
                    2int
                } else {
                    3int
                },
                4,
            ),
        ),
        h256_wf(r),
{
    let mut sym_bytes: Vec<u8> = Vec::new();
    push_u32_le(&mut sym_bytes, symbol.0);
    push_u32_le(&mut sym_bytes, symbol.1);
    let symbol_hash = blake2b256(&sym_bytes);
    let mut data = symbol_hash.dup();
    push_u32_le(&mut data.bytes, ask_or_bid.as_u32() + 2);
    blake2b256(&data.bytes)
}

/// The trie key of one account's balance cell.
pub fn gen_account_key(address: &UserId, currency: Currency) -> (r: Hash256)
    ensures
        r.bytes@ == blake2b256_of(user_id_bytes(*address) + le_bytes(currency as int, 4)),
        h256_wf(r),
{
    let mut data = user_id_to_bytes(address);
    push_u32_le(&mut data, currency);
    blake2b256(&data)
}

/// The trie key of one resting order's cell.
pub fn gen_order_id_key(id: OrderId) -> (r: Hash256)
    ensures
        r.bytes@ == blake2b256_of(le_bytes(id as int, 8)),
        h256_wf(r),
{
    let mut data: Vec<u8> = Vec::new();
    push_u64_le(&mut data, id);
    blake2b256(&data)
}

} // verus!
