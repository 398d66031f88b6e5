use blake2b_rs::Blake2bBuilder;
use galois_core::encode::{
    dec_str_bytes, genAccountValue, genOrderValue, genTapeValue, gen_account_key, gen_order_id_key,
    gen_symbol_key, Dec,
};
use galois_core::orderbook::AskOrBid;
use galois_core::types::{Symbol, UserId};

fn dec(mantissa: u128, scale: u32) -> Dec {
    Dec { mantissa, scale }
}

fn blake2b_ref(data: &[u8]) -> Vec<u8> {
    let mut buf = [0u8; 32];
    let mut hasher = Blake2bBuilder::new(32)
        .personal(b"sparsemerkletree")
        .key(&[])
        .build();
    hasher.update(data);
    hasher.finalize(&mut buf);
    buf.to_vec()
}

fn user1_bytes() -> Vec<u8> {
    let mut b = vec![0u8; 32];
    b[31] = 1;
    b
}

#[test]
fn test_canonical_decimal_strings() {
    assert_eq!(b"0.1".to_vec(), dec_str_bytes(dec(1, 1)));
    assert_eq!(b"100".to_vec(), dec_str_bytes(dec(100, 0)));
    // trailing fractional zeros are stripped
    assert_eq!(b"12".to_vec(), dec_str_bytes(dec(1200, 2)));
    assert_eq!(b"1.05".to_vec(), dec_str_bytes(dec(105, 2)));
    assert_eq!(b"0".to_vec(), dec_str_bytes(dec(0, 5)));
    assert_eq!(b"123.456".to_vec(), dec_str_bytes(dec(123456, 3)));
    assert_eq!(b"0.001".to_vec(), dec_str_bytes(dec(1, 3)));
}

#[test]
fn test_tape_value() {
    // size 100, best 0.1 hash the bytes of "100" then "0.1"
    let h = genTapeValue(dec(100, 0), dec(1, 1));
    assert_eq!(blake2b_ref(b"1000.1"), h.bytes);
    // an empty side is the canonical zero value
    let h = genTapeValue(dec(0, 0), dec(1, 1));
    assert_eq!(vec![0u8; 32], h.bytes);
}

#[test]
fn test_account_value() {
    let h = genAccountValue(dec(5, 1), dec(0, 0));
    assert_eq!(blake2b_ref(b"0.50"), h.bytes);
    let h = genAccountValue(dec(0, 2), dec(0, 0));
    assert_eq!(vec![0u8; 32], h.bytes);
}

#[test]
fn test_order_value() {
    let h = genOrderValue(&UserId::from_low_u64_be(1), dec(100, 0), dec(1, 1), AskOrBid::Bid);
    let mut input = user1_bytes();
    input.extend_from_slice(b"100");
    input.extend_from_slice(b"0.1");
    input.extend_from_slice(&3u32.to_le_bytes());
    assert_eq!(blake2b_ref(&input), h.bytes);
}

#[test]
fn test_trie_keys() {
    let h = gen_order_id_key(1);
    assert_eq!(blake2b_ref(&1u64.to_le_bytes()), h.bytes);

    let h = gen_account_key(&UserId::from_low_u64_be(1), 2);
    let mut input = user1_bytes();
    input.extend_from_slice(&2u32.to_le_bytes());
    assert_eq!(blake2b_ref(&input), h.bytes);

    let h = gen_symbol_key(Symbol(1, 2), AskOrBid::Ask);
    let mut sym = Vec::new();
    sym.extend_from_slice(&1u32.to_le_bytes());
    sym.extend_from_slice(&2u32.to_le_bytes());
    let mut input = blake2b_ref(&sym);
    input.extend_from_slice(&2u32.to_le_bytes());
    assert_eq!(blake2b_ref(&input), h.bytes);
}
