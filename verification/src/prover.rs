use vstd::prelude::*;

use crate::merkle::{
    all_zero, is_account_leaf, is_orderbook_leaf, leaf_wf, new_account_merkle_leaf,
    new_orderbook_merkle_leaf, sha256, sha256_of, Hash256, MerkleLeaf,
};
use crate::orderbook::{side_total, AskOrBid, OrderBook};
use crate::smt::{
    compiled_of, keys_bytes, pair_key_bytes, pairs_bytes, proof_built_over, proof_compile,
    smt_contents, smt_merkle_proof, smt_root, smt_root_of, smt_update, GlobalStates, TreeError,
};
use crate::types::{Amount, Currency, Role, Symbol, UserId};

verus! {

/// One account's holding in one currency.
#[derive(Debug, PartialEq, Eq, Clone, Copy, Structural)]
pub struct Balance {
    pub available: Amount,
    pub frozen: Amount,
}

/// The cleared outcome of one fill for one party: its balances after
/// the fill, and the deltas (as magnitudes) the fill applied to them.
#[derive(Debug, PartialEq, Eq, Clone, Copy, Structural)]
pub struct Output {
    pub event_id: u64,
    pub order_id: u64,
    pub user_id: UserId,
    pub symbol: Symbol,
    pub role: Role,
    pub ask_or_bid: AskOrBid,
    pub base_available: Amount,
    pub base_frozen: Amount,
    pub quote_available: Amount,
    pub quote_frozen: Amount,
    pub base_delta: Amount,
    pub quote_delta: Amount,
    pub base_charge: Amount,
    pub quote_charge: Amount,
}

/// A balance-mutation command: deposit or withdraw.
#[derive(Debug, PartialEq, Eq, Clone)]
pub struct AssetsCmd {
    pub user_id: UserId,
    pub currency: Currency,
    pub nonce_or_block_number: u32,
    pub signature_or_hash: Vec<u8>,
}

/// The replayable record of one state transition, handed downstream
/// for publication and on-chain anchoring.
#[derive(Debug, PartialEq, Eq, Clone)]
pub struct Proof {
    pub event_id: u64,
    pub user_id: UserId,
    pub nonce: u32,
    pub signature: Vec<u8>,
    pub cmd: Vec<u8>,
    pub leaves: Vec<MerkleLeaf>,
    pub proof_of_exists: Vec<u8>,
    pub proof_of_cmd: Vec<u8>,
    pub root: Hash256,
}

/// Turns matcher outcomes and balance mutations into proof records.
pub struct Prover {}

/// The reconstructed old balances fit the machine words they are
/// computed in: the upstream clearing step guarantees this for every
/// output it emits.
pub open spec fn output_wf(o: Output) -> bool {
    if o.ask_or_bid == AskOrBid::Ask {
        &&& o.base_frozen + o.base_delta <= u128::MAX
        &&& o.quote_available + o.quote_charge <= u128::MAX
        &&& o.quote_available + o.quote_charge >= o.quote_delta
    } else {
        &&& o.base_available + o.base_charge <= u128::MAX
        &&& o.base_available + o.base_charge >= o.base_delta
        &&& o.quote_frozen + o.quote_delta <= u128::MAX
    }
}

/// The maker's base-currency balance before its fill, reconstructed
/// by reversing the fill's delta against the post-fill balance.
pub open spec fn spec_old_base(o: Output) -> (u128, u128) {
    if o.ask_or_bid == AskOrBid::Ask {
        (o.base_available, (o.base_frozen + o.base_delta) as u128)
    } else {
        ((o.base_available + o.base_charge - o.base_delta) as u128, o.base_frozen)
    }
}

/// The maker's quote-currency balance before its fill.
pub open spec fn spec_old_quote(o: Output) -> (u128, u128) {
    if o.ask_or_bid == AskOrBid::Ask {
        ((o.quote_available + o.quote_charge - o.quote_delta) as u128, o.quote_frozen)
    } else {
        (o.quote_available, (o.quote_frozen + o.quote_delta) as u128)
    }
}

/// One leaf applied to the tree's leaf map: the value is written at
/// the hashed key; an all-zero value deletes the cell.
pub open spec fn apply_leaf(m: Map<Seq<u8>, Seq<u8>>, l: MerkleLeaf) -> Map<Seq<u8>, Seq<u8>> {
    if all_zero(l.new_v.bytes@) {
        m.remove(sha256_of(l.key@))
    } else {
        m.insert(sha256_of(l.key@), l.new_v.bytes@)
    }
}

/// The (hashed key, old value) pairs the before-proof is compiled
/// against.
pub open spec fn old_pairs_of(s: Seq<MerkleLeaf>) -> Seq<(Seq<u8>, Seq<u8>)> {
    s.map(|i: int, l: MerkleLeaf| (sha256_of(l.key@), l.old_v.bytes@))
}

/// The (hashed key, new value) pairs the after-proof is compiled
/// against.
pub open spec fn new_pairs_of(s: Seq<MerkleLeaf>) -> Seq<(Seq<u8>, Seq<u8>)> {
    s.map(|i: int, l: MerkleLeaf| (sha256_of(l.key@), l.new_v.bytes@))
}

/// A whole leaf list applied in order.
pub open spec fn apply_leaves(m: Map<Seq<u8>, Seq<u8>>, s: Seq<MerkleLeaf>) -> Map<Seq<u8>, Seq<u8>>
    decreases s.len(),
{
    if s.len() == 0 {
        m
    } else {
        apply_leaves(apply_leaf(m, s[0]), s.drop_first())
    }
}

pub proof fn lemma_apply_leaves_push(m: Map<Seq<u8>, Seq<u8>>, s: Seq<MerkleLeaf>, l: MerkleLeaf)
    ensures
        apply_leaves(m, s.push(l)) == apply_leaf(apply_leaves(m, s), l),
    decreases s.len(),
{
    if s.len() == 0 {
        assert(s.push(l)[0] == l);
        assert(s.push(l).drop_first() =~= Seq::<MerkleLeaf>::empty());
        assert(apply_leaves(m, s.push(l)) == apply_leaves(
            apply_leaf(m, l),
            Seq::<MerkleLeaf>::empty(),
        ));
        assert(apply_leaves(apply_leaf(m, l), Seq::<MerkleLeaf>::empty()) == apply_leaf(m, l));
        assert(apply_leaves(m, s) == m);
    } else {
        lemma_apply_leaves_push(apply_leaf(m, s[0]), s.drop_first(), l);
        assert(s.push(l)[0] == s[0]);
        assert(s.push(l).drop_first() =~= s.drop_first().push(l));
        assert(apply_leaves(m, s.push(l)) == apply_leaves(
            apply_leaf(m, s[0]),
            s.drop_first().push(l),
        ));
        assert(apply_leaves(m, s) == apply_leaves(apply_leaf(m, s[0]), s.drop_first()));
    }
}

/// Root determinism: the leaf map after a replay, and with it the
/// root, depend only on the starting leaf map and the ordered leaf
/// sequence, never on when or where the replay runs.
pub proof fn lemma_root_determinism(
    m1: Map<Seq<u8>, Seq<u8>>,
    m2: Map<Seq<u8>, Seq<u8>>,
    l1: Seq<MerkleLeaf>,
    l2: Seq<MerkleLeaf>,
)
    requires
        m1 == m2,
        l1 == l2,
    ensures
        apply_leaves(m1, l1) == apply_leaves(m2, l2),
        smt_root_of(apply_leaves(m1, l1)) == smt_root_of(apply_leaves(m2, l2)),
{
}

/// The trie-key byte strings one trade command touches, in leaf
/// order: the order book's cell, then each party's base and quote
/// cells, makers first and the taker (the last output) last.
pub open spec fn trade_cell_keys(outputs: Seq<Output>, sym: Symbol) -> Seq<Seq<u8>> {
    Seq::new(
        (3 + 2 * (outputs.len() - 1)) as nat,
        |k: int|
            if k == 0 {
                crate::merkle::orderbook_key_bytes(sym)
            } else {
                crate::merkle::account_key_bytes(
                    outputs[(k - 1) / 2].user_id,
                    if (k - 1) % 2 == 0 {
                        sym.0
                    } else {
                        sym.1
                    },
                )
            },
    )
}

/// Exact byte equality of two words.
fn bytes_eq(a: &Vec<u8>, b: &Vec<u8>) -> (r: bool)
    ensures
        r == (a@ == b@),
{
    if a.len() != b.len() {
        return false;
    }
    let mut i: usize = 0;
    while i < a.len()
        invariant
            i <= a@.len(),
            a@.len() == b@.len(),
            forall|j: int| 0 <= j < i ==> a@[j] == b@[j],
        decreases a@.len() - i,
    {
        if a[i] != b[i] {
            return false;
        }
        i = i + 1;
    }
    proof {
        assert(a@ =~= b@);
    }
    true
}

/// Reads a multiproof of the leaves' old values, applies every new
/// value to the tree, and reads a multiproof of the new values.
/// Rejects a leaf list that touches one cell twice.
fn gen_proofs(merkle_tree: &mut GlobalStates, leaves: &Vec<MerkleLeaf>) -> (r: Result<
    (Vec<u8>, Vec<u8>),
    TreeError,
>)
    requires
        leaves@.len() > 0,
        forall|i: int| 0 <= i < leaves@.len() ==> leaf_wf(#[trigger] leaves@[i]),
    ensures
        r is Ok <==> !(exists|i: int, j: int|
            0 <= i < j < leaves@.len() && sha256_of((#[trigger] leaves@[i]).key@) == sha256_of(
                (#[trigger] leaves@[j]).key@,
            )),
        r matches Ok(prs) ==> {
            &&& smt_contents(*final(merkle_tree)) == apply_leaves(
                smt_contents(*old(merkle_tree)),
                leaves@,
            )
            &&& prs.0@ == compiled_of(smt_contents(*old(merkle_tree)), old_pairs_of(leaves@))
            &&& prs.1@ == compiled_of(
                apply_leaves(smt_contents(*old(merkle_tree)), leaves@),
                new_pairs_of(leaves@),
            )
        },
        r is Err ==> smt_contents(*final(merkle_tree)) == smt_contents(*old(merkle_tree)),
{
    let mut keys: Vec<Hash256> = Vec::new();
    let mut i: usize = 0;
    while i < leaves.len()
        invariant
            i <= leaves@.len(),
            keys@.len() == i,
            forall|j: int|
                0 <= j < i ==> (#[trigger] keys@[j]).bytes@ == sha256_of(leaves@[j].key@)
                    && keys@[j].bytes@.len() == 32,
        decreases leaves@.len() - i,
    {
        let k = sha256(&leaves[i].key);
        keys.push(k);
        i = i + 1;
    }
    // distinct trie keys: a command touching one cell twice cannot be
    // proved in one multiproof
    let mut i2: usize = 0;
    while i2 < keys.len()
        invariant
            i2 <= keys@.len(),
            keys@.len() == leaves@.len(),
            forall|j: int|
                0 <= j < keys@.len() ==> (#[trigger] keys@[j]).bytes@ == sha256_of(
                    leaves@[j].key@,
                ),
            forall|p: int, q: int|
                0 <= p < i2 && p < q < keys@.len() ==> (#[trigger] keys@[p]).bytes@ != (
                #[trigger] keys@[q]).bytes@,
        decreases keys@.len() - i2,
    {
        let mut j2: usize = i2 + 1;
        while j2 < keys.len()
            invariant
                i2 < j2 <= keys@.len() || (i2 + 1 == j2 && j2 > keys@.len()),
                i2 < keys@.len(),
                keys@.len() == leaves@.len(),
                forall|j: int|
                    0 <= j < keys@.len() ==> (#[trigger] keys@[j]).bytes@ == sha256_of(
                        leaves@[j].key@,
                    ),
                forall|q: int|
                    i2 < q < j2 ==> (#[trigger] keys@[q]).bytes@ != keys@[i2 as int].bytes@,
            decreases keys@.len() - j2,
        {
            if bytes_eq(&keys[i2].bytes, &keys[j2].bytes) {
                proof {
                    assert(sha256_of(leaves@[i2 as int].key@) == sha256_of(
                        leaves@[j2 as int].key@,
                    ));
                }
                return Err(TreeError::DuplicateKey);
            }
            j2 = j2 + 1;
        }
        i2 = i2 + 1;
    }
    proof {
        assert forall|p: int, q: int|
            0 <= p < q < leaves@.len() implies sha256_of((#[trigger] leaves@[p]).key@) != sha256_of(
            (#[trigger] leaves@[q]).key@,
        ) by {
            assert(keys@[p].bytes@ != keys@[q].bytes@);
        }
    }
    let mut pairs_old: Vec<(Hash256, Hash256)> = Vec::new();
    i = 0;
    while i < leaves.len()
        invariant
            i <= leaves@.len(),
            pairs_old@.len() == i,
            forall|p: int, q: int|
                0 <= p < q < leaves@.len() ==> sha256_of((#[trigger] leaves@[p]).key@) != sha256_of(
                    (#[trigger] leaves@[q]).key@,
                ),
            keys@.len() == leaves@.len(),
            forall|j: int|
                0 <= j < keys@.len() ==> (#[trigger] keys@[j]).bytes@ == sha256_of(leaves@[j].key@)
                    && keys@[j].bytes@.len() == 32,
            forall|j: int| 0 <= j < leaves@.len() ==> leaf_wf(#[trigger] leaves@[j]),
            forall|j: int|
                0 <= j < i ==> (#[trigger] pairs_old@[j]).0.bytes@ == sha256_of(leaves@[j].key@)
                    && pairs_old@[j].1.bytes@ == leaves@[j].old_v.bytes@
                    && pairs_old@[j].0.bytes@.len() == 32 && pairs_old@[j].1.bytes@.len() == 32,
        decreases leaves@.len() - i,
    {
        pairs_old.push((keys[i].dup(), leaves[i].old_v.dup()));
        i = i + 1;
    }
    let ghost m0 = smt_contents(*merkle_tree);
    let poe = smt_merkle_proof(merkle_tree, &keys);
    proof {
        assert(pair_key_bytes(pairs_old@) =~= keys_bytes(keys@));
        assert(proof_built_over(poe, m0, pair_key_bytes(pairs_old@)));
        assert(pairs_bytes(pairs_old@) =~= old_pairs_of(leaves@));
    }
    let pr0 = proof_compile(poe, &pairs_old);
    i = 0;
    while i < leaves.len()
        invariant
            i <= leaves@.len(),
            keys@.len() == leaves@.len(),
            forall|j: int|
                0 <= j < keys@.len() ==> (#[trigger] keys@[j]).bytes@ == sha256_of(leaves@[j].key@)
                    && keys@[j].bytes@.len() == 32,
            forall|j: int| 0 <= j < leaves@.len() ==> leaf_wf(#[trigger] leaves@[j]),
            forall|p: int, q: int|
                0 <= p < q < leaves@.len() ==> sha256_of((#[trigger] leaves@[p]).key@) != sha256_of(
                    (#[trigger] leaves@[q]).key@,
                ),
            smt_contents(*merkle_tree) == apply_leaves(m0, leaves@.subrange(0, i as int)),
        decreases leaves@.len() - i,
    {
        let ghost applied = leaves@.subrange(0, i as int);
        smt_update(merkle_tree, &keys[i], &leaves[i].new_v);
        proof {
            lemma_apply_leaves_push(m0, applied, leaves@[i as int]);
            assert(leaves@.subrange(0, i + 1) =~= applied.push(leaves@[i as int]));
        }
        i = i + 1;
    }
    proof {
        assert(leaves@.subrange(0, leaves@.len() as int) =~= leaves@);
    }
    let mut pairs_new: Vec<(Hash256, Hash256)> = Vec::new();
    i = 0;
    while i < leaves.len()
        invariant
            i <= leaves@.len(),
            pairs_new@.len() == i,
            forall|p: int, q: int|
                0 <= p < q < leaves@.len() ==> sha256_of((#[trigger] leaves@[p]).key@) != sha256_of(
                    (#[trigger] leaves@[q]).key@,
                ),

            keys@.len() == leaves@.len(),
            forall|j: int|
                0 <= j < keys@.len() ==> (#[trigger] keys@[j]).bytes@ == sha256_of(leaves@[j].key@)
                    && keys@[j].bytes@.len() == 32,
            forall|j: int| 0 <= j < leaves@.len() ==> leaf_wf(#[trigger] leaves@[j]),
            forall|j: int|
                0 <= j < i ==> (#[trigger] pairs_new@[j]).0.bytes@ == sha256_of(leaves@[j].key@)
                    && pairs_new@[j].1.bytes@ == leaves@[j].new_v.bytes@
                    && pairs_new@[j].0.bytes@.len() == 32 && pairs_new@[j].1.bytes@.len() == 32,
        decreases leaves@.len() - i,
    {
        pairs_new.push((keys[i].dup(), leaves[i].new_v.dup()));
        i = i + 1;
    }
    let ghost m1 = smt_contents(*merkle_tree);
    let poc = smt_merkle_proof(merkle_tree, &keys);
    proof {
        assert(pair_key_bytes(pairs_new@) =~= keys_bytes(keys@));
        assert(proof_built_over(poc, m1, pair_key_bytes(pairs_new@)));
        assert(pairs_bytes(pairs_new@) =~= new_pairs_of(leaves@));
    }
    let pr1 = proof_compile(poc, &pairs_new);
    Ok((pr0, pr1))
}

impl Prover {
    pub fn new() -> (r: Prover)
        ensures
            r == (Prover {  }),
    {
        Prover {  }
    }

    /// Builds and applies the full leaf list of one trade: the order
    /// book's aggregate cell first, then each maker's base and quote
    /// cells in match order, then the taker's base and quote cells.
    /// The makers' old balances are reconstructed by reversing their
    /// deltas; the taker's come from the snapshot taken before the
    /// match.  A proof-layer failure is fatal to the command: the
    /// caller must stop rather than continue without a proof.
    pub fn prove_trade_cmd(
        &self,
        book: &OrderBook,
        merkle_tree: &mut GlobalStates,
        nonce: u32,
        signature: Vec<u8>,
        encoded_cmd: Vec<u8>,
        ask_size_before: Amount,
        bid_size_before: Amount,
        taker_base_before: &Balance,
        taker_quote_before: &Balance,
        outputs: &Vec<Output>,
    ) -> (r: Result<Proof, TreeError>)
        requires
            book.wf(),
            outputs@.len() >= 1,
            outputs@.last().role == Role::Taker,
            forall|i: int| 0 <= i < outputs@.len() - 1 ==> (#[trigger] outputs@[i]).role == Role::Maker,
            forall|i: int| 0 <= i < outputs@.len() - 1 ==> output_wf(#[trigger] outputs@[i]),
        ensures
            ({
                let n = outputs@.len() - 1;
                let taker = outputs@.last();
                let sym = taker.symbol;
                r matches Ok(p) ==> {
                    &&& p.leaves@.len() == 3 + 2 * n
                    &&& is_orderbook_leaf(
                        p.leaves@[0],
                        sym,
                        ask_size_before,
                        bid_size_before,
                        side_total(book.asks@) as u128,
                        side_total(book.bids@) as u128,
                    )
                    &&& forall|i: int|
                        0 <= i < n ==> is_account_leaf(
                            p.leaves@[1 + 2 * i],
                            (#[trigger] outputs@[i]).user_id,
                            sym.0,
                            spec_old_base(outputs@[i]).0,
                            spec_old_base(outputs@[i]).1,
                            outputs@[i].base_available,
                            outputs@[i].base_frozen,
                        ) && is_account_leaf(
                            p.leaves@[2 + 2 * i],
                            outputs@[i].user_id,
                            sym.1,
                            spec_old_quote(outputs@[i]).0,
                            spec_old_quote(outputs@[i]).1,
                            outputs@[i].quote_available,
                            outputs@[i].quote_frozen,
                        )
                    &&& is_account_leaf(
                        p.leaves@[1 + 2 * n],
                        taker.user_id,
                        sym.0,
                        taker_base_before.available,
                        taker_base_before.frozen,
                        taker.base_available,
                        taker.base_frozen,
                    )
                    &&& is_account_leaf(
                        p.leaves@[2 + 2 * n],
                        taker.user_id,
                        sym.1,
                        taker_quote_before.available,
                        taker_quote_before.frozen,
                        taker.quote_available,
                        taker.quote_frozen,
                    )
                    &&& smt_contents(*final(merkle_tree)) == apply_leaves(
                        smt_contents(*old(merkle_tree)),
                        p.leaves@,
                    )
                    &&& p.root.bytes@ == smt_root_of(smt_contents(*final(merkle_tree)))
                    &&& p.proof_of_exists@ == compiled_of(
                        smt_contents(*old(merkle_tree)),
                        old_pairs_of(p.leaves@),
                    )
                    &&& p.proof_of_cmd@ == compiled_of(
                        smt_contents(*final(merkle_tree)),
                        new_pairs_of(p.leaves@),
                    )
                    &&& p.event_id == taker.event_id
                    &&& p.user_id == taker.user_id
                    &&& p.nonce == nonce
                    &&& p.signature@ == signature@
                    &&& p.cmd@ == encoded_cmd@
                }
            }),
            ({
                let ck = trade_cell_keys(outputs@, outputs@.last().symbol);
                r is Ok <==> !(exists|p: int, q: int|
                    0 <= p < q < ck.len() && sha256_of(#[trigger] ck[p]) == sha256_of(
                        #[trigger] ck[q],
                    ))
            }),
            r is Err ==> smt_contents(*final(merkle_tree)) == smt_contents(*old(merkle_tree)),
    {
        let taker = outputs[outputs.len() - 1];
        let symbol = taker.symbol;
        let sizes = book.size();
        let mut leaves: Vec<MerkleLeaf> = Vec::new();
        leaves.push(
            new_orderbook_merkle_leaf(symbol, ask_size_before, bid_size_before, sizes.0, sizes.1),
        );
        let n = outputs.len() - 1;
        let mut i: usize = 0;
        while i < n
            invariant
                n == outputs@.len() - 1,
                i <= n,
                forall|j: int|
                    0 <= j < outputs@.len() - 1 ==> output_wf(#[trigger] outputs@[j]),
                leaves@.len() == 1 + 2 * i,
                is_orderbook_leaf(
                    leaves@[0],
                    symbol,
                    ask_size_before,
                    bid_size_before,
                    sizes.0,
                    sizes.1,
                ),
                forall|j: int|
                    0 <= j < i ==> is_account_leaf(
                        leaves@[1 + 2 * j],
                        (#[trigger] outputs@[j]).user_id,
                        symbol.0,
                        spec_old_base(outputs@[j]).0,
                        spec_old_base(outputs@[j]).1,
                        outputs@[j].base_available,
                        outputs@[j].base_frozen,
                    ) && is_account_leaf(
                        leaves@[2 + 2 * j],
                        outputs@[j].user_id,
                        symbol.1,
                        spec_old_quote(outputs@[j]).0,
                        spec_old_quote(outputs@[j]).1,
                        outputs@[j].quote_available,
                        outputs@[j].quote_frozen,
                    ),
                forall|j: int| 0 <= j < leaves@.len() ==> leaf_wf(#[trigger] leaves@[j]),
            decreases n - i,
        {
            let o = outputs[i];
            let base_leaf = match o.ask_or_bid {
                AskOrBid::Ask => new_account_merkle_leaf(
                    &o.user_id,
                    symbol.0,
                    o.base_available,
                    o.base_frozen + o.base_delta,
                    o.base_available,
                    o.base_frozen,
                ),
                AskOrBid::Bid => new_account_merkle_leaf(
                    &o.user_id,
                    symbol.0,
                    o.base_available + o.base_charge - o.base_delta,
                    o.base_frozen,
                    o.base_available,
                    o.base_frozen,
                ),
            };
            leaves.push(base_leaf);
            let quote_leaf = match o.ask_or_bid {
                AskOrBid::Ask => new_account_merkle_leaf(
                    &o.user_id,
                    symbol.1,
                    o.quote_available + o.quote_charge - o.quote_delta,
                    o.quote_frozen,
                    o.quote_available,
                    o.quote_frozen,
                ),
                AskOrBid::Bid => new_account_merkle_leaf(
                    &o.user_id,
                    symbol.1,
                    o.quote_available,
                    o.quote_frozen + o.quote_delta,
                    o.quote_available,
                    o.quote_frozen,
                ),
            };
            leaves.push(quote_leaf);
            i = i + 1;
        }
        leaves.push(
            new_account_merkle_leaf(
                &taker.user_id,
                symbol.0,
                taker_base_before.available,
                taker_base_before.frozen,
                taker.base_available,
                taker.base_frozen,
            ),
        );
        leaves.push(
            new_account_merkle_leaf(
                &taker.user_id,
                symbol.1,
                taker_quote_before.available,
                taker_quote_before.frozen,
                taker.quote_available,
                taker.quote_frozen,
            ),
        );
        proof {
            let ck = trade_cell_keys(outputs@, symbol);
            assert(ck.len() == leaves@.len());
            assert forall|k: int| 0 <= k < leaves@.len() implies (#[trigger] leaves@[k]).key@
                == ck[k] by {
                if k >= 1 {
                    let j = (k - 1) / 2;
                    if k < 1 + 2 * (outputs@.len() - 1) {
                        if (k - 1) % 2 == 0 {
                            assert(k == 1 + 2 * j);
                            assert(leaves@[k].key@ == crate::merkle::account_key_bytes(
                                outputs@[j].user_id,
                                symbol.0,
                            ));
                        } else {
                            assert(k == 2 + 2 * j);
                            assert(leaves@[k].key@ == crate::merkle::account_key_bytes(
                                outputs@[j].user_id,
                                symbol.1,
                            ));
                        }
                    } else {
                        assert(j == outputs@.len() - 1);
                        assert(outputs@[j] == taker);
                    }
                }
            }
            // a collision among the leaves' keys is a collision among
            // the command's cell keys, and the other way round
            assert forall|p: int, q: int|
                0 <= p < q < ck.len() && sha256_of(#[trigger] ck[p]) == sha256_of(
                    #[trigger] ck[q],
                ) implies sha256_of(leaves@[p].key@) == sha256_of(leaves@[q].key@) by {}
            assert forall|p: int, q: int|
                0 <= p < q < leaves@.len() && sha256_of((#[trigger] leaves@[p]).key@) == sha256_of(
                    (#[trigger] leaves@[q]).key@,
                ) implies sha256_of(ck[p]) == sha256_of(ck[q]) by {}
        }
        match gen_proofs(merkle_tree, &leaves) {
            Ok(prs) => {
                let root = smt_root(merkle_tree);
                Ok(
                    Proof {
                        event_id: taker.event_id,
                        user_id: taker.user_id,
                        nonce,
                        signature,
                        cmd: encoded_cmd,
                        leaves,
                        proof_of_exists: prs.0,
                        proof_of_cmd: prs.1,
                        root,
                    },
                )
            },
            Err(e) => Err(e),
        }
    }

    /// The single-leaf specialization for a pure balance mutation:
    /// one account cell moves from its snapshot before the command to
    /// its balance after it.
    pub fn prove_assets_cmd(
        &self,
        merkle_tree: &mut GlobalStates,
        event_id: u64,
        cmd: AssetsCmd,
        encoded_cmd: Vec<u8>,
        account_before: &Balance,
        account_after: &Balance,
    ) -> (r: Result<Proof, TreeError>)
        ensures
            r matches Ok(p) ==> {
                &&& p.leaves@.len() == 1
                &&& is_account_leaf(
                    p.leaves@[0],
                    cmd.user_id,
                    cmd.currency,
                    account_before.available,
                    account_before.frozen,
                    account_after.available,
                    account_after.frozen,
                )
                &&& smt_contents(*final(merkle_tree)) == apply_leaves(
                    smt_contents(*old(merkle_tree)),
                    p.leaves@,
                )
                &&& p.root.bytes@ == smt_root_of(smt_contents(*final(merkle_tree)))
                &&& p.proof_of_exists@ == compiled_of(
                    smt_contents(*old(merkle_tree)),
                    old_pairs_of(p.leaves@),
                )
                &&& p.proof_of_cmd@ == compiled_of(
                    smt_contents(*final(merkle_tree)),
                    new_pairs_of(p.leaves@),
                )
                &&& p.event_id == event_id
                &&& p.user_id == cmd.user_id
                &&& p.nonce == cmd.nonce_or_block_number
                &&& p.signature@ == cmd.signature_or_hash@
                &&& p.cmd@ == encoded_cmd@
            },
            r is Ok,
    {
        let mut leaves: Vec<MerkleLeaf> = Vec::new();
        leaves.push(
            new_account_merkle_leaf(
                &cmd.user_id,
                cmd.currency,
                account_before.available,
                account_before.frozen,
                account_after.available,
                account_after.frozen,
            ),
        );
        match gen_proofs(merkle_tree, &leaves) {
            Ok(prs) => {
                let root = smt_root(merkle_tree);
                Ok(
                    Proof {
                        event_id,
                        user_id: cmd.user_id,
                        nonce: cmd.nonce_or_block_number,
                        signature: cmd.signature_or_hash,
                        cmd: encoded_cmd,
                        leaves,
                        proof_of_exists: prs.0,
                        proof_of_cmd: prs.1,
                        root,
                    },
                )
            },
            Err(e) => Err(e),
        }
    }
}

} // verus!
