use galois_core::matcher::{cancel, execute_limit, Maker, Taker};
use galois_core::orderbook::{AskOrBid, OrderBook};
use galois_core::types::{State, UserId};

// Prices are scaled integers at the quote scale: 0.1 is written 10,
// 0.08 is 8, and so on.  Amounts are scaled at the base scale.

fn new_book() -> OrderBook {
    OrderBook::new(5, 1, 1, 1, 1, 1, true, true)
}

#[test]
pub fn test_best() {
    let mut book = new_book();

    let price = 10;
    let amount = 100;
    let mr = execute_limit(
        &mut book,
        UserId::from_low_u64_be(1),
        1001,
        price,
        amount,
        AskOrBid::Bid,
    );
    assert_eq!(State::Submitted, mr.taker.state);
    assert!(mr.maker.is_empty());
    assert_eq!(10, book.get_best_if_match(AskOrBid::Ask, 10).unwrap().0);
    // best bid = 0.1, now ask with 0.11, no matches
    assert!(book.get_best_if_match(AskOrBid::Ask, 11).is_none());
    // best bid = 0.1, now ask with 0.09, matches
    assert!(book.get_best_if_match(AskOrBid::Ask, 9).is_some());
    assert_eq!(100, book.get_best_if_match(AskOrBid::Ask, 10).unwrap().1);
    assert!(book.indices.contains_key(&1001));
}

#[test]
pub fn test_trade() {
    let mut book = new_book();

    let price = 10;
    let amount = 100;
    let mr = execute_limit(
        &mut book,
        UserId::from_low_u64_be(1),
        1001,
        price,
        amount,
        AskOrBid::Bid,
    );
    assert_eq!(State::Submitted, mr.taker.state);
    assert!(mr.maker.is_empty());

    let price = 10;
    let amount = 1000;
    let mr = execute_limit(
        &mut book,
        UserId::from_low_u64_be(1),
        1002,
        price,
        amount,
        AskOrBid::Bid,
    );
    assert_eq!(State::Submitted, mr.taker.state);
    assert!(mr.maker.is_empty());

    let price = 8;
    let amount = 200;
    let mr = execute_limit(
        &mut book,
        UserId::from_low_u64_be(2),
        1003,
        price,
        amount,
        AskOrBid::Ask,
    );
    assert_eq!(State::Filled, mr.taker.state);
    assert!(!mr.maker.is_empty());
    assert!(!book.indices.contains_key(&1001));
    assert!(book.indices.contains_key(&1002));
    assert!(!book.indices.contains_key(&1003));
    assert_eq!(
        &Maker::maker_filled(UserId::from_low_u64_be(1), 1001, 10, 100),
        mr.maker.first().unwrap()
    );
    assert_eq!(
        &Maker::maker_so_far(UserId::from_low_u64_be(1), 1002, 10, 100),
        mr.maker.get(1).unwrap()
    );
    assert_eq!(
        Taker::taker_filled(UserId::from_low_u64_be(2), 1003, price, AskOrBid::Ask),
        mr.taker
    );
    assert_eq!(10, book.get_best_if_match(AskOrBid::Ask, 10).unwrap().0);
    assert_eq!(900, book.get_best_if_match(AskOrBid::Ask, 10).unwrap().1);

    let price = 12;
    let amount = 100;
    let mr = execute_limit(
        &mut book,
        UserId::from_low_u64_be(2),
        1004,
        price,
        amount,
        AskOrBid::Ask,
    );
    assert_eq!(State::Submitted, mr.taker.state);
    assert!(book.get_best_if_match(AskOrBid::Bid, 11).is_none());
    assert_eq!(12, book.get_best_if_match(AskOrBid::Bid, 12).unwrap().0);
    assert_eq!(100, book.get_best_if_match(AskOrBid::Bid, 12).unwrap().1);
    assert!(book.indices.contains_key(&1004));

    let mr = cancel(&mut book, 1002);
    let price = 10;
    let unfilled = 900;
    assert_eq!(
        Taker::cancel(UserId::from_low_u64_be(1), 1002, price, unfilled, AskOrBid::Bid),
        mr.unwrap().taker
    );
    assert!(!book.indices.contains_key(&1002));
    assert!(book.bids.is_empty());

    let price = 12;
    let unfilled = 100;
    let mr = cancel(&mut book, 1004);
    assert!(mr.is_some());
    assert_eq!(
        Taker::cancel(UserId::from_low_u64_be(2), 1004, price, unfilled, AskOrBid::Ask),
        mr.unwrap().taker
    );
    assert!(!book.indices.contains_key(&1004));
    assert!(book.asks.is_empty());

    let mr = cancel(&mut book, 1004);
    assert!(mr.is_none());
    assert!(!book.indices.contains_key(&1004));
    assert!(book.asks.is_empty());

    let mr = cancel(&mut book, 1004);
    assert!(mr.is_none());
    assert!(!book.indices.contains_key(&1004));
    assert!(book.asks.is_empty());
}

#[test]
pub fn test_self_trade_on_best() {
    let mut book = new_book();

    let price = 10;
    let amount = 100;
    execute_limit(
        &mut book,
        UserId::from_low_u64_be(1),
        1001,
        price,
        amount,
        AskOrBid::Bid,
    );
    let mr = execute_limit(
        &mut book,
        UserId::from_low_u64_be(1),
        1002,
        price,
        amount,
        AskOrBid::Ask,
    );
    assert_eq!(mr.taker.state, State::ConditionalCanceled);
    assert!(mr.maker.is_empty());
    assert!(book.find_order(1001).is_some());
    assert!(book.find_order(1002).is_none());
}

#[test]
pub fn test_self_trade_on_second_position() {
    let mut book = new_book();

    let price = 10;
    let amount = 100;
    execute_limit(
        &mut book,
        UserId::from_low_u64_be(2),
        1001,
        price,
        amount,
        AskOrBid::Bid,
    );
    execute_limit(
        &mut book,
        UserId::from_low_u64_be(1),
        1002,
        price,
        amount,
        AskOrBid::Bid,
    );
    let mr = execute_limit(
        &mut book,
        UserId::from_low_u64_be(1),
        1003,
        price,
        amount * 2,
        AskOrBid::Ask,
    );
    assert_eq!(mr.taker.state, State::ConditionalCanceled);
    assert_eq!(mr.taker.unfilled, amount);
    assert_eq!(mr.maker.len(), 1);
    assert_eq!(mr.maker[0].filled, amount);
    assert!(book.find_order(1001).is_none());
    assert!(book.find_order(1002).is_some());
    assert!(book.find_order(1003).is_none());
}

#[test]
pub fn test_order_replay() {
    let mut book = new_book();

    let price = 10;
    let amount = 100;
    let mr = execute_limit(
        &mut book,
        UserId::from_low_u64_be(1),
        1001,
        price,
        amount,
        AskOrBid::Bid,
    );
    assert!(book.find_order(1001).is_some());
    assert_eq!(State::Submitted, mr.taker.state);
    assert!(mr.maker.is_empty());
}

// Price-time priority: of two resting orders at one price, the one
// inserted first is matched first.
#[test]
pub fn test_price_time_priority() {
    let mut book = new_book();
    execute_limit(&mut book, UserId::from_low_u64_be(1), 1, 10, 50, AskOrBid::Bid);
    execute_limit(&mut book, UserId::from_low_u64_be(2), 2, 10, 60, AskOrBid::Bid);
    let mr = execute_limit(&mut book, UserId::from_low_u64_be(3), 3, 10, 70, AskOrBid::Ask);
    assert_eq!(State::Filled, mr.taker.state);
    assert_eq!(2, mr.maker.len());
    assert_eq!(1, mr.maker[0].order_id);
    assert_eq!(State::Filled, mr.maker[0].state);
    assert_eq!(50, mr.maker[0].filled);
    assert_eq!(2, mr.maker[1].order_id);
    assert_eq!(State::PartialFilled, mr.maker[1].state);
    assert_eq!(20, mr.maker[1].filled);
}

// Crossing correctness: a bid matches exactly when the best ask is at
// or below its price.
#[test]
pub fn test_crossing() {
    let mut book = new_book();
    execute_limit(&mut book, UserId::from_low_u64_be(1), 1, 10, 100, AskOrBid::Ask);
    // bid below the best ask rests
    let mr = execute_limit(&mut book, UserId::from_low_u64_be(2), 2, 9, 100, AskOrBid::Bid);
    assert_eq!(State::Submitted, mr.taker.state);
    assert!(mr.maker.is_empty());
    // bid at the best ask matches
    let mr = execute_limit(&mut book, UserId::from_low_u64_be(2), 3, 10, 100, AskOrBid::Bid);
    assert_eq!(State::Filled, mr.taker.state);
    assert_eq!(1, mr.maker.len());
}

// Conservation: the makers' fills add up to what the taker lost,
// across several pages.
#[test]
pub fn test_conservation() {
    let mut book = new_book();
    execute_limit(&mut book, UserId::from_low_u64_be(1), 1, 10, 100, AskOrBid::Bid);
    execute_limit(&mut book, UserId::from_low_u64_be(2), 2, 9, 40, AskOrBid::Bid);
    let mr = execute_limit(&mut book, UserId::from_low_u64_be(3), 3, 9, 500, AskOrBid::Ask);
    let total: u128 = mr.maker.iter().map(|m| m.filled).sum();
    assert_eq!(total, 500 - mr.taker.unfilled);
    assert_eq!(140, total);
    assert_eq!(State::PartialFilled, mr.taker.state);
    // the remainder rests on the ask side
    assert_eq!(Some(360), book.find_order(3).map(|o| o.unfilled));
}

// The worked submission sequence: an empty book takes a bid, reports
// it resting, and a crossing ask then consumes the bid side oldest
// first and ends filled.
#[test]
pub fn test_submit_then_fill() {
    let mut book = new_book();
    let mr = execute_limit(&mut book, UserId::from_low_u64_be(1), 1001, 10, 100, AskOrBid::Bid);
    assert_eq!(State::Submitted, mr.taker.state);
    assert!(mr.maker.is_empty());
    let best = book.get_best_if_match(AskOrBid::Ask, 10).unwrap();
    assert_eq!((10, 100), best);
    execute_limit(&mut book, UserId::from_low_u64_be(1), 1002, 9, 150, AskOrBid::Bid);
    let mr = execute_limit(&mut book, UserId::from_low_u64_be(2), 1003, 8, 200, AskOrBid::Ask);
    assert_eq!(State::Filled, mr.taker.state);
    assert_eq!(0, mr.taker.unfilled);
    assert_eq!(2, mr.maker.len());
    assert_eq!(1001, mr.maker[0].order_id);
    assert_eq!(100, mr.maker[0].filled);
    assert_eq!(1002, mr.maker[1].order_id);
    assert_eq!(100, mr.maker[1].filled);
    assert!(!book.indices.contains_key(&1001));
}

#[test]
pub fn test_state_and_role_indices() {
    assert_eq!(0, State::Submitted.as_u32());
    assert_eq!(1, State::Canceled.as_u32());
    assert_eq!(2, State::Filled.as_u32());
    assert_eq!(3, State::PartialFilled.as_u32());
    assert_eq!(4, State::ConditionalCanceled.as_u32());
    assert_eq!(0, galois_core::types::Role::Maker.as_u32());
    assert_eq!(1, galois_core::types::Role::Taker.as_u32());
}
