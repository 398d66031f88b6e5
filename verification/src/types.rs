use vstd::prelude::*;

verus! {

/// Scaled integer representing a price at the quote currency's fixed
/// decimal scale.  All prices inside one order book share that scale,
/// so plain integer comparison is exact.
pub type Price = u128;

/// Scaled integer representing an amount at the base currency's fixed
/// decimal scale.
pub type Amount = u128;

/// Numeric identifier of a currency.
pub type Currency = u32;

/// Identifier of an order, unique within one order book.
pub type OrderId = u64;

/// A trading pair: base currency and quote currency.
#[derive(Debug, PartialEq, Eq, Clone, Copy, Structural)]
pub struct Symbol(pub Currency, pub Currency);

/// A 32-byte account identifier, stored as two 128-bit halves in
/// big-endian order: `hi` holds the first 16 bytes, `lo` the last 16.
#[derive(Debug, PartialEq, Eq, Clone, Copy, Structural)]
pub struct UserId {
    pub hi: u128,
    pub lo: u128,
}

/// The lifecycle state of an order reported in a match outcome.
#[derive(Debug, PartialEq, Eq, Clone, Copy, Structural)]
pub enum State {
    Submitted,
    Canceled,
    Filled,
    PartialFilled,
    ConditionalCanceled,
}

/// Whether a match-outcome record describes the incoming order or a
/// resting one.
#[derive(Debug, PartialEq, Eq, Clone, Copy, Structural)]
pub enum Role {
    Taker,
    Maker,
}

/// The `n` little-endian base-256 digits of `x`.
pub open spec fn le_bytes(x: int, n: nat) -> Seq<u8>
    decreases n,
{
    if n == 0 {
        Seq::empty()
    } else {
        seq![(x % 256) as u8] + le_bytes(x / 256, (n - 1) as nat)
    }
}

/// The `n` big-endian base-256 digits of `x`.
pub open spec fn be_bytes(x: int, n: nat) -> Seq<u8>
    decreases n,
{
    if n == 0 {
        Seq::empty()
    } else {
        be_bytes(x / 256, (n - 1) as nat) + seq![(x % 256) as u8]
    }
}

/// The canonical 32-byte form of an account identifier.
pub open spec fn user_id_bytes(u: UserId) -> Seq<u8> {
    be_bytes(u.hi as int, 16) + be_bytes(u.lo as int, 16)
}

impl UserId {
    /// The identifier whose last eight bytes are `v` in big-endian
    /// order and whose other bytes are zero.
    pub fn from_low_u64_be(v: u64) -> (r: UserId)
        ensures
            r == (UserId { hi: 0u128, lo: v as u128 }),
    {
        UserId { hi: 0u128, lo: v as u128 }
    }
}

impl State {
    /// The wire index of this state.
    pub fn as_u32(self) -> (r: u32)
        ensures
            r == (match self {
                State::Submitted => 0u32,
                State::Canceled => 1u32,
                State::Filled => 2u32,
                State::PartialFilled => 3u32,
                State::ConditionalCanceled => 4u32,
            }),
    {
        match self {
            State::Submitted => 0,
            State::Canceled => 1,
            State::Filled => 2,
            State::PartialFilled => 3,
            State::ConditionalCanceled => 4,
        }
    }
}

impl Role {
    /// The wire index of this role.
    pub fn as_u32(self) -> (r: u32)
        ensures
            r == (match self {
                Role::Maker => 0u32,
                Role::Taker => 1u32,
            }),
    {
        match self {
            Role::Maker => 0,
            Role::Taker => 1,
        }
    }
}

/// Appends the `n` little-endian base-256 digits of `x` to `out`.
fn push_le_bytes(out: &mut Vec<u8>, x: u128, n: usize)
    ensures
        final(out)@ == old(out)@ + le_bytes(x as int, n as nat),
{
    let mut cur: u128 = x;
    let mut i: usize = 0;
    while i < n
        invariant
            i <= n,
            le_bytes(x as int, n as nat) == out@.subrange(old(out)@.len() as int, out@.len() as int)
                + le_bytes(cur as int, (n - i) as nat),
            out@.len() == old(out)@.len() + i,
            out@.subrange(0, old(out)@.len() as int) == old(out)@,
        decreases n - i,
    {
        let ghost prev = out@;
        let b: u8 = (cur % 256) as u8;
        out.push(b);
        proof {
            assert(out@.subrange(0, old(out)@.len() as int) =~= old(out)@);
            assert(out@.subrange(old(out)@.len() as int, out@.len() as int) =~= prev.subrange(
                old(out)@.len() as int,
                prev.len() as int,
            ) + seq![b]);
            assert(le_bytes(cur as int, (n - i) as nat) == seq![b] + le_bytes(
                cur as int / 256,
                (n - i - 1) as nat,
            ));
            assert(prev.subrange(old(out)@.len() as int, prev.len() as int) + le_bytes(
                cur as int,
                (n - i) as nat,
            ) =~= out@.subrange(old(out)@.len() as int, out@.len() as int) + le_bytes(
                cur as int / 256,
                (n - i - 1) as nat,
            ));
        }
        cur = cur / 256;
        i = i + 1;
    }
    proof {
        assert(le_bytes(cur as int, 0) =~= Seq::<u8>::empty());
        assert(out@ =~= out@.subrange(0, old(out)@.len() as int) + out@.subrange(
            old(out)@.len() as int,
            out@.len() as int,
        ));
        assert(out@ =~= old(out)@ + le_bytes(x as int, n as nat));
    }
}

/// Appends the `n` big-endian base-256 digits of `x` to `out`.
fn push_be_bytes(out: &mut Vec<u8>, x: u128, n: usize)
    ensures
        final(out)@ == old(out)@ + be_bytes(x as int, n as nat),
{
    let mut cur: u128 = x;
    let mut i: usize = 0;
    let mut tail: Vec<u8> = Vec::new();
    while i < n
        invariant
            i <= n,
            be_bytes(x as int, n as nat) == be_bytes(cur as int, (n - i) as nat) + tail@,
            tail@.len() == i,
        decreases n - i,
    {
        let ghost prev = tail@;
        let b: u8 = (cur % 256) as u8;
        tail.insert(0, b);
        proof {
            assert(tail@ =~= seq![b] + prev);
            assert(be_bytes(cur as int, (n - i) as nat) == be_bytes(
                cur as int / 256,
                (n - i - 1) as nat,
            ) + seq![b]);
            assert(be_bytes(cur as int / 256, (n - i - 1) as nat) + tail@ =~= be_bytes(
                cur as int,
                (n - i) as nat,
            ) + prev);
        }
        cur = cur / 256;
        i = i + 1;
    }
    proof {
        assert(be_bytes(cur as int, 0) + tail@ =~= tail@);
    }
    let mut j: usize = 0;
    let m: usize = tail.len();
    while j < m
        invariant
            j <= m,
            m == tail@.len(),
            tail@ == be_bytes(x as int, n as nat),
            out@ == old(out)@ + tail@.subrange(0, j as int),
        decreases m - j,
    {
        let b: u8 = tail[j];
        out.push(b);
        proof {
            assert(out@ =~= old(out)@ + tail@.subrange(0, j + 1));
        }
        j = j + 1;
    }
    proof {
        assert(tail@.subrange(0, m as int) =~= tail@);
    }
}

/// The 32 canonical bytes of an account identifier, big-endian.
pub fn user_id_to_bytes(u: &UserId) -> (r: Vec<u8>)
    ensures
        r@ == user_id_bytes(*u),
        r@.len() == 32,
{
    let mut out: Vec<u8> = Vec::new();
    push_be_bytes(&mut out, u.hi, 16);
    push_be_bytes(&mut out, u.lo, 16);
    proof {
        lemma_be_bytes_len(u.hi as int, 16);
        lemma_be_bytes_len(u.lo as int, 16);
    }
    out
}

/// Appends the four little-endian bytes of `x` to `out`.
pub fn push_u32_le(out: &mut Vec<u8>, x: u32)
    ensures
        final(out)@ == old(out)@ + le_bytes(x as int, 4),
{
    push_le_bytes(out, x as u128, 4);
}

/// Appends the eight little-endian bytes of `x` to `out`.
pub fn push_u64_le(out: &mut Vec<u8>, x: u64)
    ensures
        final(out)@ == old(out)@ + le_bytes(x as int, 8),
{
    push_le_bytes(out, x as u128, 8);
}

/// Appends the sixteen little-endian bytes of `x` to `out`.
pub fn push_u128_le(out: &mut Vec<u8>, x: u128)
    ensures
        final(out)@ == old(out)@ + le_bytes(x as int, 16),
{
    push_le_bytes(out, x, 16);
}

/// Appends every byte of `src` to `out`.
pub fn push_all(out: &mut Vec<u8>, src: &Vec<u8>)
    ensures
        final(out)@ == old(out)@ + src@,
{
    let mut i: usize = 0;
    while i < src.len()
        invariant
            i <= src@.len(),
            out@ == old(out)@ + src@.subrange(0, i as int),
        decreases src@.len() - i,
    {
        out.push(src[i]);
        proof {
            assert(out@ =~= old(out)@ + src@.subrange(0, i + 1));
        }
        i = i + 1;
    }
    proof {
        assert(out@ =~= old(out)@ + src@);
    }
}

pub proof fn lemma_le_bytes_len(x: int, n: nat)
    ensures
        le_bytes(x, n).len() == n,
    decreases n,
{
    if n > 0 {
        lemma_le_bytes_len(x / 256, (n - 1) as nat);
    }
}

pub proof fn lemma_be_bytes_len(x: int, n: nat)
    ensures
        be_bytes(x, n).len() == n,
    decreases n,
{
    if n > 0 {
        lemma_be_bytes_len(x / 256, (n - 1) as nat);
    }
}

} // verus!
