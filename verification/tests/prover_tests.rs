use galois_core::matcher::execute_limit;
use galois_core::merkle::{new_account_merkle_leaf, new_orderbook_merkle_leaf, sha256, u128le_to_h256};
use galois_core::orderbook::{AskOrBid, OrderBook};
use galois_core::prover::{AssetsCmd, Balance, Output, Prover};
use galois_core::smt::{smt_new, smt_root, smt_update};
use galois_core::types::{Role, Symbol, UserId};

fn user(n: u64) -> UserId {
    UserId::from_low_u64_be(n)
}

#[test]
fn test_u128_packing() {
    let h = u128le_to_h256(1, 2);
    let mut expected = vec![0u8; 32];
    expected[0] = 1;
    expected[16] = 2;
    assert_eq!(expected, h.bytes);

    let h = u128le_to_h256(0x0102, 0);
    assert_eq!(2, h.bytes[0]);
    assert_eq!(1, h.bytes[1]);
    assert_eq!(vec![0u8; 30], h.bytes[2..].to_vec());
}

#[test]
fn test_account_leaf_layout() {
    let leaf = new_account_merkle_leaf(&user(1), 7, 3, 4, 5, 6);
    assert_eq!(37, leaf.key.len());
    assert_eq!(0, leaf.key[0]);
    // 32-byte account id: big-endian, so 31 zero bytes then 1
    assert_eq!(vec![0u8; 31], leaf.key[1..32].to_vec());
    assert_eq!(1, leaf.key[32]);
    // currency 7 little-endian
    assert_eq!(vec![7, 0, 0, 0], leaf.key[33..].to_vec());
    assert_eq!(u128le_to_h256(3, 4), leaf.old_v);
    assert_eq!(u128le_to_h256(5, 6), leaf.new_v);
}

#[test]
fn test_orderbook_leaf_layout() {
    let leaf = new_orderbook_merkle_leaf(Symbol(1, 2), 10, 20, 30, 40);
    assert_eq!(vec![1u8, 1, 0, 0, 0, 2, 0, 0, 0], leaf.key);
    assert_eq!(u128le_to_h256(10, 20), leaf.old_v);
    assert_eq!(u128le_to_h256(30, 40), leaf.new_v);
}

#[test]
fn test_sha256_known_vector() {
    let digest = sha256(&b"abc".to_vec());
    let expected: Vec<u8> = vec![
        0xba, 0x78, 0x16, 0xbf, 0x8f, 0x01, 0xcf, 0xea, 0x41, 0x41, 0x40, 0xde, 0x5d, 0xae, 0x22,
        0x23, 0xb0, 0x03, 0x61, 0xa3, 0x96, 0x17, 0x7a, 0x9c, 0xb4, 0x10, 0xff, 0x61, 0xf2, 0x00,
        0x15, 0xad,
    ];
    assert_eq!(expected, digest.bytes);
}

#[test]
fn test_root_updates_and_zero_deletes() {
    let mut tree = smt_new();
    let empty_root = smt_root(&tree).bytes;
    assert_eq!(vec![0u8; 32], empty_root);

    let key = sha256(&vec![1, 2, 3]);
    let value = u128le_to_h256(5, 0);
    smt_update(&mut tree, &key, &value);
    let root = smt_root(&tree).bytes;
    assert_ne!(empty_root, root);

    // writing the all-zero value deletes the cell again
    let zero = u128le_to_h256(0, 0);
    smt_update(&mut tree, &key, &zero);
    assert_eq!(empty_root, smt_root(&tree).bytes);
}

#[test]
fn test_root_determinism() {
    let mut t1 = smt_new();
    let mut t2 = smt_new();
    for i in 0..10u8 {
        let key = sha256(&vec![i]);
        let value = u128le_to_h256(i as u128 + 1, 2 * i as u128);
        smt_update(&mut t1, &key, &value);
        smt_update(&mut t2, &key, &value);
    }
    assert_eq!(smt_root(&t1).bytes, smt_root(&t2).bytes);
}

fn maker_output(sym: Symbol) -> Output {
    // an ask maker: sold 100 base from frozen, earned 10 quote minus a
    // charge of 1
    Output {
        event_id: 7,
        order_id: 1001,
        user_id: user(1),
        symbol: sym,
        role: Role::Maker,
        ask_or_bid: AskOrBid::Ask,
        base_available: 0,
        base_frozen: 0,
        quote_available: 9,
        quote_frozen: 0,
        base_delta: 100,
        quote_delta: 10,
        base_charge: 0,
        quote_charge: 1,
    }
}

fn taker_output(sym: Symbol) -> Output {
    Output {
        event_id: 7,
        order_id: 1002,
        user_id: user(2),
        symbol: sym,
        role: Role::Taker,
        ask_or_bid: AskOrBid::Bid,
        base_available: 100,
        base_frozen: 0,
        quote_available: 0,
        quote_frozen: 0,
        base_delta: 100,
        quote_delta: 10,
        base_charge: 0,
        quote_charge: 0,
    }
}

#[test]
fn test_prove_trade_cmd_leaf_order() {
    let prover = Prover::new();
    let sym = Symbol(1, 2);
    let mut book = OrderBook::new(5, 1, 1, 1, 1, 1, true, true);
    // the ask rested, then a bid consumed it entirely
    execute_limit(&mut book, user(1), 1001, 10, 100, AskOrBid::Ask);
    execute_limit(&mut book, user(2), 1002, 10, 100, AskOrBid::Bid);
    assert_eq!((0, 0), book.size());

    let outputs = vec![maker_output(sym), taker_output(sym)];
    let taker_base_before = Balance { available: 0, frozen: 0 };
    let taker_quote_before = Balance { available: 10, frozen: 0 };
    let mut tree = smt_new();
    let proof = prover
        .prove_trade_cmd(
            &book,
            &mut tree,
            5,
            vec![0xAA],
            vec![0xBB],
            100,
            0,
            &taker_base_before,
            &taker_quote_before,
            &outputs,
        )
        .unwrap();

    // book leaf, maker base, maker quote, taker base, taker quote
    assert_eq!(5, proof.leaves.len());
    assert_eq!(new_orderbook_merkle_leaf(sym, 100, 0, 0, 0), proof.leaves[0]);
    // ask maker: base frozen was 100 before the fill
    assert_eq!(
        new_account_merkle_leaf(&user(1), 1, 0, 100, 0, 0),
        proof.leaves[1]
    );
    // ask maker: earned 10 quote, charged 1
    assert_eq!(
        new_account_merkle_leaf(&user(1), 2, 0, 0, 9, 0),
        proof.leaves[2]
    );
    assert_eq!(
        new_account_merkle_leaf(&user(2), 1, 0, 0, 100, 0),
        proof.leaves[3]
    );
    assert_eq!(
        new_account_merkle_leaf(&user(2), 2, 10, 0, 0, 0),
        proof.leaves[4]
    );
    assert_eq!(7, proof.event_id);
    assert_eq!(user(2), proof.user_id);
    assert_eq!(5, proof.nonce);
    assert_eq!(vec![0xAA], proof.signature);
    assert_eq!(vec![0xBB], proof.cmd);
    assert_eq!(smt_root(&tree).bytes, proof.root.bytes);
    assert!(!proof.proof_of_exists.is_empty());
    assert!(!proof.proof_of_cmd.is_empty());

    // replaying the same command on a fresh tree reproduces the root
    let mut tree2 = smt_new();
    let proof2 = prover
        .prove_trade_cmd(
            &book,
            &mut tree2,
            5,
            vec![0xAA],
            vec![0xBB],
            100,
            0,
            &taker_base_before,
            &taker_quote_before,
            &outputs,
        )
        .unwrap();
    assert_eq!(proof.root, proof2.root);
    assert_eq!(proof.proof_of_exists, proof2.proof_of_exists);
    assert_eq!(proof.proof_of_cmd, proof2.proof_of_cmd);
}

#[test]
fn test_prove_trade_cmd_duplicate_cell_rejected() {
    // two maker records for the same user touch the same account
    // cells twice, which one multiproof cannot cover
    let prover = Prover::new();
    let sym = Symbol(1, 2);
    let book = OrderBook::new(5, 1, 1, 1, 1, 1, true, true);
    let outputs = vec![maker_output(sym), maker_output(sym), taker_output(sym)];
    let mut tree = smt_new();
    let r = prover.prove_trade_cmd(
        &book,
        &mut tree,
        5,
        vec![],
        vec![],
        0,
        0,
        &Balance { available: 0, frozen: 0 },
        &Balance { available: 10, frozen: 0 },
        &outputs,
    );
    assert_eq!(Err(galois_core::smt::TreeError::DuplicateKey), r);
    // the tree was left untouched
    assert_eq!(vec![0u8; 32], smt_root(&tree).bytes);
}

#[test]
fn test_prove_assets_cmd() {
    let prover = Prover::new();
    let cmd = AssetsCmd {
        user_id: user(3),
        currency: 1,
        nonce_or_block_number: 11,
        signature_or_hash: vec![1, 2, 3],
    };
    let before = Balance { available: 0, frozen: 0 };
    let after = Balance { available: 500, frozen: 0 };
    let mut tree = smt_new();
    let proof = prover
        .prove_assets_cmd(&mut tree, 42, cmd.clone(), vec![9], &before, &after)
        .unwrap();
    assert_eq!(1, proof.leaves.len());
    assert_eq!(
        new_account_merkle_leaf(&user(3), 1, 0, 0, 500, 0),
        proof.leaves[0]
    );
    assert_eq!(42, proof.event_id);
    assert_eq!(user(3), proof.user_id);
    assert_eq!(11, proof.nonce);
    assert_eq!(vec![1, 2, 3], proof.signature);
    assert_eq!(smt_root(&tree).bytes, proof.root.bytes);
}
