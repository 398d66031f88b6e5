use vstd::prelude::*;

use crate::orderbook::{
    page_has_id, page_wf, pop_page, push_page, side_has_id, side_insert_rel, side_pages_wf,
    side_total, sum_unfilled, AskOrBid, Order, OrderBook, OrderPage,
};
use crate::types::{Amount, OrderId, Price, State, UserId};

verus! {

broadcast use vstd::std_specs::hash::group_hash_axioms;

/// The incoming order's record in a match outcome.
#[derive(Debug, PartialEq, Eq, Clone, Copy, Structural)]
pub struct Taker {
    pub user_id: UserId,
    pub order_id: OrderId,
    pub price: Price,
    pub unfilled: Amount,
    pub ask_or_bid: AskOrBid,
    pub state: State,
}

impl Taker {
    pub fn taker(order: Order, ask_or_bid: AskOrBid, state: State) -> (r: Taker)
        ensures
            r == (Taker {
                user_id: order.user,
                order_id: order.id,
                price: order.price,
                unfilled: order.unfilled,
                ask_or_bid,
                state,
            }),
    {
        Taker {
            user_id: order.user,
            order_id: order.id,
            price: order.price,
            unfilled: order.unfilled,
            ask_or_bid,
            state,
        }
    }

    pub fn taker_filled(user_id: UserId, order_id: OrderId, price: Price, ask_or_bid: AskOrBid) -> (r:
        Taker)
        ensures
            r == (Taker { user_id, order_id, price, unfilled: 0u128, ask_or_bid, state: State::Filled }),
    {
        Taker { user_id, order_id, price, unfilled: 0, ask_or_bid, state: State::Filled }
    }

    pub fn taker_placed(
        user_id: UserId,
        order_id: OrderId,
        price: Price,
        unfilled: Amount,
        ask_or_bid: AskOrBid,
    ) -> (r: Taker)
        ensures
            r == (Taker { user_id, order_id, price, unfilled, ask_or_bid, state: State::PartialFilled }),
    {
        Taker { user_id, order_id, price, unfilled, ask_or_bid, state: State::PartialFilled }
    }

    pub fn cancel(
        user_id: UserId,
        order_id: OrderId,
        price: Price,
        unfilled: Amount,
        ask_or_bid: AskOrBid,
    ) -> (r: Taker)
        ensures
            r == (Taker { user_id, order_id, price, unfilled, ask_or_bid, state: State::Canceled }),
    {
        Taker { user_id, order_id, price, unfilled, ask_or_bid, state: State::Canceled }
    }
}

/// One resting order's record in a match outcome: how much of it the
/// incoming order consumed, and whether that finished it.
#[derive(Debug, PartialEq, Eq, Clone, Copy, Structural)]
pub struct Maker {
    pub user_id: UserId,
    pub order_id: OrderId,
    pub price: Price,
    pub filled: Amount,
    pub state: State,
}

impl Maker {
    pub fn maker_filled(user_id: UserId, order_id: OrderId, price: Price, filled: Amount) -> (r:
        Maker)
        ensures
            r == (Maker { user_id, order_id, price, filled, state: State::Filled }),
    {
        Maker { user_id, order_id, price, filled, state: State::Filled }
    }

    pub fn maker_so_far(user_id: UserId, order_id: OrderId, price: Price, filled: Amount) -> (r:
        Maker)
        ensures
            r == (Maker { user_id, order_id, price, filled, state: State::PartialFilled }),
    {
        Maker { user_id, order_id, price, filled, state: State::PartialFilled }
    }
}

/// The sole output of one matching operation: the taker's outcome and
/// the consumed makers, oldest first.
#[derive(Debug, PartialEq, Eq, Clone)]
pub struct Match {
    pub maker: Vec<Maker>,
    pub taker: Taker,
}

/// Sum of the filled amounts of a sequence of maker records.
pub open spec fn sum_filled(s: Seq<Maker>) -> int
    decreases s.len(),
{
    if s.len() == 0 {
        0
    } else {
        s[0].filled + sum_filled(s.drop_first())
    }
}

/// A maker at `maker_price` can be hit by an incoming order of side
/// `incoming` limited at `price`.
pub open spec fn price_crosses(incoming: AskOrBid, price: Price, maker_price: Price) -> bool {
    if incoming == AskOrBid::Bid {
        maker_price <= price
    } else {
        maker_price >= price
    }
}

/// What one FIFO walk of a page does: consume resting orders oldest
/// first until the taker is filled, the page is empty, or the oldest
/// belongs to the taker's owner (a self-trade).  Yields the maker
/// records, the surviving orders, the taker's remainder, and the
/// self-trade flag.
pub open spec fn spec_take(orders: Seq<Order>, taker: Order) -> (Seq<Maker>, Seq<Order>, Order, bool)
    decreases orders.len(),
{
    if taker.unfilled == 0 || orders.len() == 0 {
        (Seq::<Maker>::empty(), orders, taker, false)
    } else if orders[0].user == taker.user {
        (Seq::<Maker>::empty(), orders, taker, true)
    } else if taker.unfilled >= orders[0].unfilled {
        let m = Maker {
            user_id: orders[0].user,
            order_id: orders[0].id,
            price: orders[0].price,
            filled: orders[0].unfilled,
            state: State::Filled,
        };
        let t2 = Order {
            id: taker.id,
            user: taker.user,
            price: taker.price,
            unfilled: (taker.unfilled - orders[0].unfilled) as u128,
        };
        let rest = spec_take(orders.drop_first(), t2);
        (seq![m] + rest.0, rest.1, rest.2, rest.3)
    } else {
        let m = Maker {
            user_id: orders[0].user,
            order_id: orders[0].id,
            price: orders[0].price,
            filled: taker.unfilled,
            state: State::PartialFilled,
        };
        let reduced = Order {
            id: orders[0].id,
            user: orders[0].user,
            price: orders[0].price,
            unfilled: (orders[0].unfilled - taker.unfilled) as u128,
        };
        (
            seq![m],
            seq![reduced] + orders.drop_first(),
            Order { id: taker.id, user: taker.user, price: taker.price, unfilled: 0u128 },
            false,
        )
    }
}

/// Conservation at page level: what the makers gained is exactly what
/// the taker lost, and exactly what left the page.
pub proof fn lemma_take_conservation(orders: Seq<Order>, taker: Order)
    ensures
        ({
            let st = spec_take(orders, taker);
            &&& st.2.unfilled <= taker.unfilled
            &&& sum_filled(st.0) == taker.unfilled - st.2.unfilled
            &&& sum_unfilled(st.1) == sum_unfilled(orders) - sum_filled(st.0)
            &&& st.2.id == taker.id && st.2.user == taker.user && st.2.price == taker.price
        }),
    decreases orders.len(),
{
    let st = spec_take(orders, taker);
    if taker.unfilled == 0 || orders.len() == 0 {
        assert(sum_filled(Seq::<Maker>::empty()) == 0);
    } else if orders[0].user == taker.user {
        assert(sum_filled(Seq::<Maker>::empty()) == 0);
    } else if taker.unfilled >= orders[0].unfilled {
        let t2 = Order {
            id: taker.id,
            user: taker.user,
            price: taker.price,
            unfilled: (taker.unfilled - orders[0].unfilled) as u128,
        };
        lemma_take_conservation(orders.drop_first(), t2);
        let rest = spec_take(orders.drop_first(), t2);
        let m0 = Maker {
            user_id: orders[0].user,
            order_id: orders[0].id,
            price: orders[0].price,
            filled: orders[0].unfilled,
            state: State::Filled,
        };
        assert(st == (seq![m0] + rest.0, rest.1, rest.2, rest.3));
        assert(st.0.drop_first() =~= rest.0);
        assert(sum_filled(st.0) == st.0[0].filled + sum_filled(st.0.drop_first()));
    } else {
        let reduced = Order {
            id: orders[0].id,
            user: orders[0].user,
            price: orders[0].price,
            unfilled: (orders[0].unfilled - taker.unfilled) as u128,
        };
        assert(st.0.drop_first() =~= Seq::<Maker>::empty());
        assert(sum_filled(st.0) == st.0[0].filled + sum_filled(st.0.drop_first()));
        assert(st.1.drop_first() =~= orders.drop_first());
        assert(sum_unfilled(st.1) == reduced.unfilled + sum_unfilled(orders.drop_first()));
    }
}

/// Price-time priority within a page: the makers are exactly the
/// oldest orders, in arrival order; an earlier resting order is fully
/// consumed before a later one is touched.
pub proof fn lemma_take_fifo(orders: Seq<Order>, taker: Order)
    requires
        forall|j: int| 0 <= j < orders.len() ==> (#[trigger] orders[j]).unfilled > 0,
    ensures
        ({
            let st = spec_take(orders, taker);
            let k = st.0.len() as int;
            &&& 0 <= k <= orders.len()
            &&& forall|i: int|
                0 <= i < k ==> (#[trigger] st.0[i]).order_id == orders[i].id && st.0[i].user_id
                    == orders[i].user && st.0[i].price == orders[i].price && st.0[i].filled > 0
                    && st.0[i].filled <= orders[i].unfilled && (st.0[i].state == State::Filled
                    || st.0[i].state == State::PartialFilled)
            &&& forall|i: int|
                0 <= i < k - 1 ==> (#[trigger] st.0[i]).state == State::Filled && st.0[i].filled
                    == orders[i].unfilled
            &&& (k > 0 && st.0[k - 1].state == State::PartialFilled ==> st.1.len() == orders.len()
                - k + 1 && st.1[0] == (Order {
                id: orders[k - 1].id,
                user: orders[k - 1].user,
                price: orders[k - 1].price,
                unfilled: (orders[k - 1].unfilled - st.0[k - 1].filled) as u128,
            }) && st.0[k - 1].filled < orders[k - 1].unfilled && (forall|j: int|
                1 <= j < st.1.len() ==> #[trigger] st.1[j] == orders[k - 1 + j]) && st.2.unfilled
                == 0)
            &&& (!(k > 0 && st.0[k - 1].state == State::PartialFilled) ==> st.1 == orders.skip(k)
                && (forall|i: int|
                0 <= i < k ==> (#[trigger] st.0[i]).state == State::Filled && st.0[i].filled
                    == orders[i].unfilled))
        }),
    decreases orders.len(),
{
    let st = spec_take(orders, taker);
    let k = st.0.len() as int;
    if taker.unfilled == 0 || orders.len() == 0 || orders[0].user == taker.user {
        assert(st.1 =~= orders.skip(0));
    } else if taker.unfilled >= orders[0].unfilled {
        let t2 = Order {
            id: taker.id,
            user: taker.user,
            price: taker.price,
            unfilled: (taker.unfilled - orders[0].unfilled) as u128,
        };
        assert forall|j: int| 0 <= j < orders.drop_first().len() implies (
        #[trigger] orders.drop_first()[j]).unfilled > 0 by {
            assert(orders.drop_first()[j] == orders[j + 1]);
        }
        lemma_take_fifo(orders.drop_first(), t2);
        let rest = spec_take(orders.drop_first(), t2);
        let m0 = Maker {
            user_id: orders[0].user,
            order_id: orders[0].id,
            price: orders[0].price,
            filled: orders[0].unfilled,
            state: State::Filled,
        };
        assert(st == (seq![m0] + rest.0, rest.1, rest.2, rest.3));
        let kr = rest.0.len() as int;
        assert(k == kr + 1);
        assert forall|i: int| 0 <= i < k implies (#[trigger] st.0[i]).order_id == orders[i].id
            && st.0[i].user_id == orders[i].user && st.0[i].price == orders[i].price
            && st.0[i].filled > 0 && st.0[i].filled <= orders[i].unfilled && (st.0[i].state
            == State::Filled || st.0[i].state == State::PartialFilled) by {
            if i > 0 {
                assert(st.0[i] == rest.0[i - 1]);
                assert(orders.drop_first()[i - 1] == orders[i]);
            }
        }
        assert forall|i: int| 0 <= i < k - 1 implies (#[trigger] st.0[i]).state == State::Filled
            && st.0[i].filled == orders[i].unfilled by {
            if i > 0 {
                assert(st.0[i] == rest.0[i - 1]);
                assert(orders.drop_first()[i - 1] == orders[i]);
            }
        }
        if k > 0 && st.0[k - 1].state == State::PartialFilled {
            assert(kr > 0 && rest.0[kr - 1].state == State::PartialFilled);
            assert(st.1[0] == rest.1[0]);
            assert(orders.drop_first()[kr - 1] == orders[k - 1]);
            assert forall|j: int| 1 <= j < st.1.len() implies #[trigger] st.1[j] == orders[k - 1
                + j] by {
                assert(st.1[j] == rest.1[j]);
                assert(rest.1[j] == orders.drop_first()[kr - 1 + j]);
                assert(orders.drop_first()[kr - 1 + j] == orders[k - 1 + j]);
            }
        } else {
            assert(st.1 == rest.1);
            if !(kr > 0 && rest.0[kr - 1].state == State::PartialFilled) {
                assert(rest.1 == orders.drop_first().skip(kr));
                assert(orders.drop_first().skip(kr) =~= orders.skip(k));
            } else {
                assert(st.0[k - 1] == rest.0[kr - 1]);
                assert(false);
            }
        }
    } else {
        assert(k == 1);
        assert(st.0[0].state == State::PartialFilled);
        assert(st.1.len() == orders.len());
        assert(st.1[0] == (Order {
            id: orders[0].id,
            user: orders[0].user,
            price: orders[0].price,
            unfilled: (orders[0].unfilled - st.0[0].filled) as u128,
        }));
        assert forall|j: int| 1 <= j < st.1.len() implies #[trigger] st.1[j] == orders[j] by {
            assert(st.1[j] == orders.drop_first()[j - 1]);
        }
    }
}

/// Self-trade containment: no maker ever belongs to the taker's
/// owner, and when the walk stops on a self-trade, it stops exactly
/// at the oldest surviving order, which the taker owns.
pub proof fn lemma_take_self_trade(orders: Seq<Order>, taker: Order)
    ensures
        ({
            let st = spec_take(orders, taker);
            &&& forall|i: int| 0 <= i < st.0.len() ==> (#[trigger] st.0[i]).user_id != taker.user
            &&& (st.3 ==> st.0.len() < orders.len() && orders[st.0.len() as int].user == taker.user
                && st.1 == orders.skip(st.0.len() as int) && st.2.unfilled > 0)
            &&& (!st.3 && st.2.unfilled > 0 ==> st.1.len() == 0)
        }),
    decreases orders.len(),
{
    let st = spec_take(orders, taker);
    if taker.unfilled == 0 || orders.len() == 0 {
        assert(st.1 =~= orders.skip(0));
    } else if orders[0].user == taker.user {
        assert(st.1 =~= orders.skip(0));
    } else if taker.unfilled >= orders[0].unfilled {
        let t2 = Order {
            id: taker.id,
            user: taker.user,
            price: taker.price,
            unfilled: (taker.unfilled - orders[0].unfilled) as u128,
        };
        lemma_take_self_trade(orders.drop_first(), t2);
        let rest = spec_take(orders.drop_first(), t2);
        let m0 = Maker {
            user_id: orders[0].user,
            order_id: orders[0].id,
            price: orders[0].price,
            filled: orders[0].unfilled,
            state: State::Filled,
        };
        assert(st == (seq![m0] + rest.0, rest.1, rest.2, rest.3));
        assert forall|i: int| 0 <= i < st.0.len() implies (#[trigger] st.0[i]).user_id
            != taker.user by {
            if i > 0 {
                assert(st.0[i] == rest.0[i - 1]);
            }
        }
        if st.3 {
            assert(rest.3);
            let kr = rest.0.len() as int;
            assert(orders.drop_first()[kr] == orders[kr + 1]);
            assert(rest.1 == orders.drop_first().skip(kr));
            assert(orders.drop_first().skip(kr) =~= orders.skip(kr + 1));
        }
    }
}

/// Exact executable mirror of `spec_take` over the raw order queue.
fn take_rec(orders: &mut Vec<Order>, taker: &mut Order) -> (r: (Vec<Maker>, bool))
    ensures
        ({
            let st = spec_take(old(orders)@, *old(taker));
            &&& r.0@ == st.0
            &&& final(orders)@ == st.1
            &&& *final(taker) == st.2
            &&& r.1 == st.3
        }),
    decreases old(orders)@.len(),
{
    if taker.unfilled == 0 || orders.len() == 0 {
        return (Vec::new(), false);
    }
    let oldest = orders[0];
    if oldest.user == taker.user {
        return (Vec::new(), true);
    }
    if taker.unfilled >= oldest.unfilled {
        let _consumed = orders.remove(0);
        taker.unfilled = taker.unfilled - oldest.unfilled;
        let m = Maker::maker_filled(oldest.user, oldest.id, oldest.price, oldest.unfilled);
        proof {
            assert(orders@ =~= old(orders)@.drop_first());
        }
        let ghost o_mid = orders@;
        let ghost t_mid = *taker;
        let (mut ms, self_traded) = take_rec(orders, taker);
        ms.insert(0, m);
        proof {
            let st = spec_take(old(orders)@, *old(taker));
            let rest = spec_take(o_mid, t_mid);
            assert(st == (seq![m] + rest.0, rest.1, rest.2, rest.3));
            assert(ms@ =~= seq![m] + rest.0);
        }
        (ms, self_traded)
    } else {
        let fill = taker.unfilled;
        let reduced = Order {
            id: oldest.id,
            user: oldest.user,
            price: oldest.price,
            unfilled: oldest.unfilled - fill,
        };
        let _consumed = orders.remove(0);
        orders.insert(0, reduced);
        taker.unfilled = 0;
        let m = Maker::maker_so_far(oldest.user, oldest.id, oldest.price, fill);
        let mut ms: Vec<Maker> = Vec::new();
        ms.push(m);
        proof {
            let st = spec_take(old(orders)@, *old(taker));
            assert(orders@ =~= seq![reduced] + old(orders)@.drop_first());
            assert(ms@ =~= seq![m]);
            assert(st.0 =~= seq![m]);
        }
        (ms, false)
    }
}

/// What matching an incoming order against the whole opposing side
/// does: walk the crossing pages best (last) first, each page oldest
/// order first, until the order is filled, nothing crosses, or a
/// self-trade stops it.  Yields the maker records, the taker's
/// remainder, the self-trade flag, how many pages were fully
/// consumed, and the surviving orders of the deepest page reached.
pub open spec fn spec_match(opp: Seq<OrderPage>, incoming: AskOrBid, taker: Order) -> (
    Seq<Maker>,
    Order,
    bool,
    int,
    Seq<Order>,
)
    decreases opp.len(),
{
    if opp.len() == 0 || taker.unfilled == 0 || !price_crosses(
        incoming,
        taker.price,
        opp.last().price,
    ) {
        (
            Seq::<Maker>::empty(),
            taker,
            false,
            0int,
            if opp.len() == 0 {
                Seq::<Order>::empty()
            } else {
                opp.last().orders@
            },
        )
    } else {
        let st = spec_take(opp.last().orders@, taker);
        if st.1.len() == 0 {
            let rest = spec_match(opp.drop_last(), incoming, st.2);
            (st.0 + rest.0, rest.1, rest.2, rest.3 + 1, rest.4)
        } else {
            (st.0, st.2, st.3, 0int, st.1)
        }
    }
}

/// Price priority across the whole match: every maker crosses the
/// taker's limit, none is the taker's own, and the makers come best
/// price first - nondecreasing prices for an incoming bid,
/// nonincreasing for an incoming ask.
pub proof fn lemma_match_makers(opp: Seq<OrderPage>, incoming: AskOrBid, taker: Order)
    requires
        side_pages_wf(opp, incoming.spec_opposite()),
    ensures
        ({
            let sm = spec_match(opp, incoming, taker);
            &&& forall|i: int|
                0 <= i < sm.0.len() ==> price_crosses(incoming, taker.price, (#[trigger] sm.0[i]).price)
                    && sm.0[i].user_id != taker.user
            &&& forall|i: int|
                0 <= i < sm.0.len() && opp.len() > 0 ==> (if incoming == AskOrBid::Bid {
                    (#[trigger] sm.0[i]).price >= opp.last().price
                } else {
                    (#[trigger] sm.0[i]).price <= opp.last().price
                })
            &&& forall|i: int, j: int|
                0 <= i < j < sm.0.len() ==> (if incoming == AskOrBid::Bid {
                    (#[trigger] sm.0[i]).price <= (#[trigger] sm.0[j]).price
                } else {
                    (#[trigger] sm.0[i]).price >= (#[trigger] sm.0[j]).price
                })
        }),
    decreases opp.len(),
{
    let sm = spec_match(opp, incoming, taker);
    if opp.len() == 0 || taker.unfilled == 0 || !price_crosses(
        incoming,
        taker.price,
        opp.last().price,
    ) {
    } else {
        let last = opp.last();
        let st = spec_take(last.orders@, taker);
        assert(page_wf(last));
        lemma_take_fifo(last.orders@, taker);
        lemma_take_self_trade(last.orders@, taker);
        lemma_take_conservation(last.orders@, taker);
        assert forall|i: int| 0 <= i < st.0.len() implies (#[trigger] st.0[i]).price
            == last.price && st.0[i].user_id != taker.user by {
            assert(st.0[i].price == last.orders@[i].price);
        }
        if st.1.len() == 0 {
            let dl = opp.drop_last();
            assert forall|i1: int, i2: int| 0 <= i1 < i2 < dl.len() implies
                crate::orderbook::price_before(
                incoming.spec_opposite(),
                (#[trigger] dl[i1]).price,
                (#[trigger] dl[i2]).price,
            ) by {
                assert(dl[i1] == opp[i1] && dl[i2] == opp[i2]);
            }
            assert forall|i: int| 0 <= i < dl.len() implies page_wf(#[trigger] dl[i]) by {
                assert(dl[i] == opp[i]);
            }
            assert forall|i1: int, j1: int, i2: int, j2: int|
                0 <= i1 < dl.len() && 0 <= j1 < dl[i1].orders@.len() && 0 <= i2 < dl.len() && 0
                    <= j2 < dl[i2].orders@.len() && !(i1 == i2 && j1 == j2) implies (
            #[trigger] dl[i1].orders@[j1]).id != (#[trigger] dl[i2].orders@[j2]).id by {
                assert(dl[i1].orders@[j1] == opp[i1].orders@[j1]);
                assert(dl[i2].orders@[j2] == opp[i2].orders@[j2]);
            }
            crate::orderbook::lemma_side_total_drop_last(opp);
            crate::orderbook::lemma_side_total_nonneg(dl);
            assert(side_pages_wf(dl, incoming.spec_opposite()));
            lemma_match_makers(dl, incoming, st.2);
            let rest = spec_match(dl, incoming, st.2);
            let m0 = Maker {
                user_id: last.orders@[0].user,
                order_id: last.orders@[0].id,
                price: last.orders@[0].price,
                filled: last.orders@[0].unfilled,
                state: State::Filled,
            };
            assert(sm.0 == st.0 + rest.0);
            assert(st.2.user == taker.user && st.2.price == taker.price);
            // deeper pages sit at strictly worse prices
            if dl.len() > 0 {
                assert(crate::orderbook::price_before(
                    incoming.spec_opposite(),
                    opp[opp.len() - 2].price,
                    last.price,
                ));
                assert(dl.last() == opp[opp.len() - 2]);
            }
            assert forall|i: int| 0 <= i < sm.0.len() implies price_crosses(
                incoming,
                taker.price,
                (#[trigger] sm.0[i]).price,
            ) && sm.0[i].user_id != taker.user by {
                if i < st.0.len() {
                    assert(sm.0[i] == st.0[i]);
                } else {
                    assert(sm.0[i] == rest.0[i - st.0.len()]);
                }
            }
            assert forall|i: int| 0 <= i < sm.0.len() implies (if incoming == AskOrBid::Bid {
                (#[trigger] sm.0[i]).price >= opp.last().price
            } else {
                (#[trigger] sm.0[i]).price <= opp.last().price
            }) by {
                if i < st.0.len() {
                    assert(sm.0[i] == st.0[i]);
                } else {
                    assert(sm.0[i] == rest.0[i - st.0.len()]);
                }
            }
            assert forall|i: int, j: int| 0 <= i < j < sm.0.len() implies (if incoming
                == AskOrBid::Bid {
                (#[trigger] sm.0[i]).price <= (#[trigger] sm.0[j]).price
            } else {
                (#[trigger] sm.0[i]).price >= (#[trigger] sm.0[j]).price
            }) by {
                if j < st.0.len() {
                    assert(sm.0[i] == st.0[i] && sm.0[j] == st.0[j]);
                } else if i >= st.0.len() {
                    assert(sm.0[i] == rest.0[i - st.0.len()]);
                    assert(sm.0[j] == rest.0[j - st.0.len()]);
                } else {
                    assert(sm.0[i] == st.0[i]);
                    assert(sm.0[j] == rest.0[j - st.0.len()]);
                }
            }
        } else {
        }
    }
}

/// Self-trade containment at book level: when matching stops on a
/// self-trade, the taker still has a remainder, and the blocking
/// order - the oldest surviving order of the deepest page reached -
/// belongs to the taker's owner and stays in the book.
pub proof fn lemma_match_self_trade(opp: Seq<OrderPage>, incoming: AskOrBid, taker: Order)
    ensures
        ({
            let sm = spec_match(opp, incoming, taker);
            sm.2 ==> sm.4.len() > 0 && sm.4[0].user == taker.user && sm.1.unfilled > 0
        }),
    decreases opp.len(),
{
    let sm = spec_match(opp, incoming, taker);
    if opp.len() == 0 || taker.unfilled == 0 || !price_crosses(
        incoming,
        taker.price,
        opp.last().price,
    ) {
    } else {
        let st = spec_take(opp.last().orders@, taker);
        lemma_take_self_trade(opp.last().orders@, taker);
        lemma_take_conservation(opp.last().orders@, taker);
        if st.1.len() == 0 {
            let rest = spec_match(opp.drop_last(), incoming, st.2);
            assert(sm == (st.0 + rest.0, rest.1, rest.2, rest.3 + 1, rest.4));
            lemma_match_self_trade(opp.drop_last(), incoming, st.2);
        } else {
            assert(sm == (st.0, st.2, st.3, 0int, st.1));
            if st.3 {
                assert(st.1 == opp.last().orders@.skip(st.0.len() as int));
                assert(st.1[0] == opp.last().orders@[st.0.len() as int]);
            }
        }
    }
}

pub proof fn lemma_sum_filled_nonneg(s: Seq<Maker>)
    ensures
        sum_filled(s) >= 0,
    decreases s.len(),
{
    if s.len() > 0 {
        lemma_sum_filled_nonneg(s.drop_first());
    }
}

pub proof fn lemma_sum_filled_concat(a: Seq<Maker>, b: Seq<Maker>)
    ensures
        sum_filled(a + b) == sum_filled(a) + sum_filled(b),
    decreases a.len(),
{
    if a.len() == 0 {
        assert(a + b =~= b);
    } else {
        lemma_sum_filled_concat(a.drop_first(), b);
        assert((a + b).drop_first() =~= a.drop_first() + b);
        assert(sum_filled(a + b) == (a + b)[0].filled + sum_filled((a + b).drop_first()));
    }
}

/// FIFO walk of one page by the incoming order: consumes the oldest
/// orders first, keeps the page aggregate in step, and stops early on
/// a self-trade.
pub fn take(page: &mut OrderPage, taker: &mut Order) -> (r: (Vec<Maker>, bool))
    requires
        page_wf(*old(page)),
    ensures
        ({
            let st = spec_take(old(page).orders@, *old(taker));
            &&& r.0@ == st.0
            &&& final(page).orders@ == st.1
            &&& final(page).price == old(page).price
            &&& final(page).amount == sum_unfilled(st.1)
            &&& *final(taker) == st.2
            &&& r.1 == st.3
        }),
{
    let ghost orders0 = page.orders@;
    let ghost taker0 = *taker;
    let before = taker.unfilled;
    let (makers, self_traded) = take_rec(&mut page.orders, taker);
    proof {
        lemma_take_conservation(orders0, taker0);
        let st = spec_take(orders0, taker0);
        crate::orderbook::lemma_sum_unfilled_nonneg(st.1);
    }
    page.amount = page.amount - (before - taker.unfilled);
    (makers, self_traded)
}

/// Matches the incoming order against the single best crossing page:
/// pops it, walks it oldest-first, restores what survives, and drops
/// fully consumed makers from the id index.
#[verifier::rlimit(100)]
fn match_best_page(book: &mut OrderBook, order: &mut Order, ask_or_bid: AskOrBid) -> (r: (
    Vec<Maker>,
    bool,
))
    requires
        old(book).wf(),
        old(order).unfilled > 0,
        !old(book).has_id(old(order).id),
        old(book).crosses(ask_or_bid, old(order).price),
    ensures
        final(book).wf(),
        final(book).cfg() == old(book).cfg(),
        final(book).side_seq(ask_or_bid) == old(book).side_seq(ask_or_bid),
        ({
            let opp = ask_or_bid.spec_opposite();
            let st = spec_take(old(book).side_seq(opp).last().orders@, *old(order));
            &&& r.0@ == st.0
            &&& *final(order) == st.2
            &&& r.1 == st.3
        }),
        final(order).id == old(order).id && final(order).user == old(order).user
            && final(order).price == old(order).price,
        final(order).unfilled <= old(order).unfilled,
        sum_filled(r.0@) == old(order).unfilled - final(order).unfilled,
        r.0@.len() > 0 || r.1,
        forall|i: int|
            0 <= i < r.0@.len() ==> (#[trigger] r.0@[i]).user_id != old(order).user
                && r.0@[i].filled > 0 && (r.0@[i].state == State::Filled || r.0@[i].state
                == State::PartialFilled) && r.0@[i].price == old(book).side_seq(
                ask_or_bid.spec_opposite(),
            ).last().price,
        forall|i: int| 0 <= i < r.0@.len() - 1 ==> (#[trigger] r.0@[i]).state == State::Filled,
        r.0@.len() > 0 && r.0@.last().state == State::PartialFilled ==> final(order).unfilled == 0,
        forall|i: int|
            0 <= i < r.0@.len() && (#[trigger] r.0@[i]).state == State::Filled ==> !final(book).has_id(r.0@[i].order_id),
        !final(book).has_id(old(order).id),
        side_total(final(book).side_seq(ask_or_bid.spec_opposite())) == side_total(
            old(book).side_seq(ask_or_bid.spec_opposite()),
        ) - sum_filled(r.0@),
        r.1 ==> final(order).unfilled > 0,
        ({
            let opp = ask_or_bid.spec_opposite();
            let st = spec_take(old(book).side_seq(opp).last().orders@, *old(order));
            let pre = old(book).side_seq(opp);
            let post = final(book).side_seq(opp);
            &&& (st.1.len() == 0 ==> post == pre.drop_last())
            &&& (st.1.len() > 0 ==> post.len() == pre.len() && (forall|i: int|
                0 <= i < pre.len() - 1 ==> #[trigger] post[i] == pre[i]) && post.last().price
                == pre.last().price && post.last().orders@ == st.1 && post.last().amount
                == sum_unfilled(st.1))
        }),
        forall|id: OrderId|
            #[trigger] side_has_id(final(book).side_seq(ask_or_bid.spec_opposite()), id)
                ==> side_has_id(old(book).side_seq(ask_or_bid.spec_opposite()), id),
        final(book).side_seq(ask_or_bid.spec_opposite()).len() <= old(book).side_seq(
            ask_or_bid.spec_opposite(),
        ).len(),
        !r.1 && final(order).unfilled > 0 ==> final(book).side_seq(
            ask_or_bid.spec_opposite(),
        ).len() < old(book).side_seq(ask_or_bid.spec_opposite()).len(),
{
    let ghost b0 = *old(book);
    let ghost opp = ask_or_bid.spec_opposite();
    let mut page = match ask_or_bid {
        AskOrBid::Bid => pop_page(&mut book.asks, AskOrBid::Ask),
        AskOrBid::Ask => pop_page(&mut book.bids, AskOrBid::Bid),
    };
    let ghost side1 = book.side_seq(opp);
    let ghost page0 = page;
    let ghost order0 = *order;
    let (traded, self_traded) = take(&mut page, order);
    let ghost st = spec_take(page0.orders@, order0);
    let ghost k = st.0.len() as int;
    let ghost kf = if k > 0 && st.0[k - 1].state == State::PartialFilled {
        k - 1
    } else {
        k
    };
    proof {
        lemma_take_conservation(page0.orders@, order0);
        lemma_take_fifo(page0.orders@, order0);
        lemma_take_self_trade(page0.orders@, order0);
        crate::orderbook::lemma_sum_unfilled_nonneg(st.1);
        lemma_sum_filled_nonneg(st.0);
        // every surviving order is one of the old page's, from
        // position kf on, with price and positivity carried over
        assert forall|j: int| 0 <= j < st.1.len() implies (#[trigger] st.1[j]).price
            == page0.price && st.1[j].unfilled > 0 && st.1[j].id == page0.orders@[kf + j].id by {
            if k > 0 && st.0[k - 1].state == State::PartialFilled {
                if j == 0 {
                    assert(st.1[0].id == page0.orders@[k - 1].id);
                } else {
                    assert(st.1[j] == page0.orders@[k - 1 + j]);
                }
            } else {
                assert(st.1 == page0.orders@.skip(k));
                assert(st.1[j] == page0.orders@[k + j]);
            }
        }
        assert(st.1.len() == page0.orders@.len() - kf);
        // a maker is fully filled exactly when it stands before kf
        assert forall|i: int| 0 <= i < k implies ((#[trigger] st.0[i]).state == State::Filled
            <==> i < kf) by {}
        // progress: the walk yields a maker or stops on a self-trade
        if st.0.len() == 0 && !st.3 {
            assert(st.1 == page0.orders@);
            assert(page0.orders@.len() > 0);
            assert(order0.unfilled > 0);
            assert(page0.orders@[0].user != order0.user || st.3);
            assert(false);
        }
    }
    let pushed_back = page.orders.len() > 0;
    if pushed_back {
        proof {
            // the surviving page is well formed and disjoint from the rest
            assert(page_wf(page));
            assert forall|j1: int, j2: int|
                0 <= j1 < page.orders@.len() && 0 <= j2 < page.orders@.len() && j1 != j2 implies (
            #[trigger] page.orders@[j1]).id != (#[trigger] page.orders@[j2]).id by {
                assert(page.orders@[j1].id == page0.orders@[kf + j1].id);
                assert(page.orders@[j2].id == page0.orders@[kf + j2].id);
            }
            assert forall|id: OrderId| #[trigger] page_has_id(page, id) implies page_has_id(
                page0,
                id,
            ) && !side_has_id(side1, id) by {
                let j = choose|j: int|
                    0 <= j < page.orders@.len() && (#[trigger] page.orders@[j]).id == id;
                assert(page0.orders@[kf + j].id == id);
                assert(page_has_id(page0, id));
            }
        }
        match ask_or_bid {
            AskOrBid::Bid => push_page(&mut book.asks, page, AskOrBid::Ask),
            AskOrBid::Ask => push_page(&mut book.bids, page, AskOrBid::Bid),
        }
    }
    let ghost side2 = book.side_seq(opp);
    let ghost idx0 = book.indices@;
    let ghost asks2 = book.asks@;
    let ghost bids2 = book.bids@;
    // fully filled makers leave the id index
    let mut t: usize = 0;
    while t < traded.len()
        invariant
            t <= traded@.len(),
            traded@ == st.0,
            forall|id: OrderId|
                #[trigger] book.indices@.contains_key(id) <==> idx0.contains_key(id) && !(exists|
                    i: int,
                |
                    0 <= i < t && (#[trigger] traded@[i]).state == State::Filled
                        && traded@[i].order_id == id),
            forall|id: OrderId|
                #[trigger] book.indices@.contains_key(id) ==> book.indices@[id] == idx0[id],
            book.asks@ == asks2,
            book.bids@ == bids2,
            book.cfg() == b0.cfg(),
        decreases traded@.len() - t,
    {
        let is_filled_maker = traded[t].state == State::Filled;
        let ghost pre = book.indices@;
        if is_filled_maker {
            book.indices.remove(&traded[t].order_id);
        }
        proof {
            assert forall|id: OrderId| #[trigger]
                book.indices@.contains_key(id) <==> idx0.contains_key(id) && !(exists|i: int|
                    0 <= i < t + 1 && (#[trigger] traded@[i]).state == State::Filled
                        && traded@[i].order_id == id) by {
                if book.indices@.contains_key(id) {
                    assert(pre.contains_key(id));
                    if exists|i: int|
                        0 <= i < t + 1 && (#[trigger] traded@[i]).state == State::Filled
                            && traded@[i].order_id == id {
                        let i = choose|i: int|
                            0 <= i < t + 1 && (#[trigger] traded@[i]).state == State::Filled
                                && traded@[i].order_id == id;
                        assert(i == t);
                        assert(false);
                    }
                }
                if idx0.contains_key(id) && !(exists|i: int|
                    0 <= i < t + 1 && (#[trigger] traded@[i]).state == State::Filled
                        && traded@[i].order_id == id) {
                    assert(!(exists|i: int|
                        0 <= i < t && (#[trigger] traded@[i]).state == State::Filled
                            && traded@[i].order_id == id));
                    assert(pre.contains_key(id));
                    if is_filled_maker {
                        assert(traded@[t as int].state == State::Filled);
                        assert(traded@[t as int].order_id != id);
                    }
                }
            }
        }
        t = t + 1;
    }
    proof {
        let b2 = *book;
        let own0 = b0.side_seq(ask_or_bid);
        let opp0 = b0.side_seq(opp);
        // page ids split into the consumed prefix and the survivors
        assert forall|id: OrderId| #[trigger] page_has_id(page0, id) implies (exists|p: int|
            0 <= p < kf && (#[trigger] page0.orders@[p]).id == id) || (st.1.len() > 0
            && page_has_id(b2.side_seq(opp).last(), id)) by {
            let j = choose|j: int|
                0 <= j < page0.orders@.len() && (#[trigger] page0.orders@[j]).id == id;
            if j < kf {
                assert(page0.orders@[j].id == id);
            } else {
                assert(st.1[j - kf].id == page0.orders@[j].id);
                assert(b2.side_seq(opp).last().orders@[j - kf].id == id);
                assert(page_has_id(b2.side_seq(opp).last(), id));
            }
        }
        // the id sets of the new book only shrink
        assert forall|id: OrderId| #[trigger] side_has_id(b2.side_seq(opp), id) implies side_has_id(
            opp0,
            id,
        ) by {
            if pushed_back {
                if page_has_id(b2.side_seq(opp).last(), id) {
                    let j = choose|j: int| 0 <= j < st.1.len() && (#[trigger] st.1[j]).id == id;
                    assert(page0.orders@[kf + j].id == id);
                    assert(page_has_id(page0, id));
                }
            }
        }
        // a consumed id is nowhere in the new book
        assert forall|p: int| 0 <= p < kf implies !side_has_id(
            b2.side_seq(opp),
            (#[trigger] page0.orders@[p]).id,
        ) && !side_has_id(own0, page0.orders@[p].id) by {
            let id = page0.orders@[p].id;
            assert(page_has_id(page0, id));
            assert(side_has_id(opp0, id));
            if side_has_id(b2.side_seq(opp), id) {
                if pushed_back && page_has_id(b2.side_seq(opp).last(), id) {
                    let j = choose|j: int| 0 <= j < st.1.len() && (#[trigger] st.1[j]).id == id;
                    assert(page0.orders@[kf + j].id == id);
                    assert(false);
                }
                assert(side_has_id(side1, id));
                assert(false);
            }
            if side_has_id(own0, id) {
                assert(b0.indices@.contains_key(id));
                if b0.indices@[id] == AskOrBid::Ask {
                    assert(!side_has_id(b0.bids@, id));
                    assert(false);
                } else {
                    assert(!side_has_id(b0.asks@, id));
                    assert(false);
                }
            }
        }
        // rebuild the index invariant
        assert forall|id: OrderId| #[trigger]
            b2.indices@.contains_key(id) <==> side_has_id(b2.asks@, id) || side_has_id(
                b2.bids@,
                id,
            ) by {
            let consumed = exists|i: int|
                0 <= i < st.0.len() && (#[trigger] st.0[i]).state == State::Filled
                    && st.0[i].order_id == id;
            assert(b2.indices@.contains_key(id) <==> b0.indices@.contains_key(id) && !consumed);
            if b2.indices@.contains_key(id) {
                assert(side_has_id(own0, id) || side_has_id(opp0, id));
                if side_has_id(opp0, id) {
                    if page_has_id(page0, id) {
                        let j = choose|j: int|
                            0 <= j < page0.orders@.len() && (#[trigger] page0.orders@[j]).id == id;
                        if j < kf {
                            assert(st.0[j].state == State::Filled && st.0[j].order_id == id);
                            assert(false);
                        } else {
                            assert(st.1[j - kf].id == page0.orders@[j].id);
                            assert(page_has_id(b2.side_seq(opp).last(), id));
                            assert(side_has_id(b2.side_seq(opp), id));
                        }
                    } else {
                        assert(side_has_id(side1, id));
                        assert(side_has_id(b2.side_seq(opp), id));
                    }
                }
            }
            if side_has_id(b2.asks@, id) || side_has_id(b2.bids@, id) {
                assert(side_has_id(own0, id) || side_has_id(opp0, id));
                assert(b0.indices@.contains_key(id));
                if exists|i: int|
                    0 <= i < st.0.len() && (#[trigger] st.0[i]).state == State::Filled
                        && st.0[i].order_id == id {
                    let i = choose|i: int|
                        0 <= i < st.0.len() && (#[trigger] st.0[i]).state == State::Filled
                            && st.0[i].order_id == id;
                    assert(i < kf && page0.orders@[i].id == id);
                    assert(!side_has_id(b2.side_seq(opp), id));
                    assert(!side_has_id(own0, id));
                    assert(false);
                }
            }
        }
        assert forall|id: OrderId|
            b2.indices@.contains_key(id) && #[trigger] b2.indices@[id]
                == AskOrBid::Ask implies !side_has_id(b2.bids@, id) by {
            assert(b0.indices@.contains_key(id) && b0.indices@[id] == AskOrBid::Ask);
            assert(!side_has_id(b0.bids@, id));
            if side_has_id(b2.bids@, id) {
                if b2.bids@ != b0.bids@ {
                    assert(side_has_id(b2.side_seq(opp), id));
                    assert(side_has_id(opp0, id));
                }
                assert(false);
            }
        }
        assert forall|id: OrderId|
            b2.indices@.contains_key(id) && #[trigger] b2.indices@[id]
                == AskOrBid::Bid implies !side_has_id(b2.asks@, id) by {
            assert(b0.indices@.contains_key(id) && b0.indices@[id] == AskOrBid::Bid);
            assert(!side_has_id(b0.asks@, id));
            if side_has_id(b2.asks@, id) {
                if b2.asks@ != b0.asks@ {
                    assert(side_has_id(b2.side_seq(opp), id));
                    assert(side_has_id(opp0, id));
                }
                assert(false);
            }
        }
        assert(b2.wf());
        // the incoming order's own id never rested anywhere
        assert(!b2.has_id(order0.id));
        // totals
        if pushed_back {
            assert(side_total(side2) == side_total(side1) + sum_unfilled(st.1));
        } else {
            assert(sum_unfilled(st.1) == 0);
        }
        assert(side_total(side2) == side_total(opp0) - sum_filled(st.0));
        // every maker is somebody else's resting order at the page price
        assert forall|i: int| 0 <= i < st.0.len() implies (#[trigger] st.0[i]).user_id
            != order0.user && st.0[i].filled > 0 && (st.0[i].state == State::Filled || st.0[i].state
            == State::PartialFilled) && st.0[i].price == page0.price by {
            assert(st.0[i].price == page0.orders@[i].price);
        }
        // fully consumed makers are gone from the whole book
        assert forall|i: int|
            0 <= i < st.0.len() && (#[trigger] st.0[i]).state
                == State::Filled implies !b2.has_id(st.0[i].order_id) by {
            assert(i < kf);
            assert(page0.orders@[i].id == st.0[i].order_id);
        }
        // a surviving page keeps the side length; a consumed one shortens it
        if !st.3 && st.2.unfilled > 0 {
            assert(st.1.len() == 0);
            assert(!pushed_back);
        }
    }
    (traded, self_traded)
}

/// Matches an incoming limit order against the book: it consumes
/// crossing pages best-first and oldest-first, stops early on a
/// self-trade, and rests whatever crossing could not fill.
#[verifier::rlimit(100)]
pub fn execute_limit(
    book: &mut OrderBook,
    user_id: UserId,
    order_id: OrderId,
    price: Price,
    amount: Amount,
    ask_or_bid: AskOrBid,
) -> (r: Match)
    requires
        old(book).wf(),
        !old(book).has_id(order_id),
        side_total(old(book).side_seq(ask_or_bid)) + amount <= u128::MAX,
    ensures
        final(book).wf(),
        final(book).cfg() == old(book).cfg(),
        r.taker.user_id == user_id && r.taker.order_id == order_id && r.taker.price == price
            && r.taker.ask_or_bid == ask_or_bid,
        r.taker.unfilled <= amount,
        sum_filled(r.maker@) == amount - r.taker.unfilled,
        forall|i: int|
            0 <= i < r.maker@.len() ==> (#[trigger] r.maker@[i]).user_id != user_id
                && r.maker@[i].filled > 0 && (r.maker@[i].state == State::Filled
                || r.maker@[i].state == State::PartialFilled) && price_crosses(
                ask_or_bid,
                price,
                r.maker@[i].price,
            ),
        forall|i: int| 0 <= i < r.maker@.len() - 1 ==> (#[trigger] r.maker@[i]).state == State::Filled,
        r.taker.state == State::Filled <==> r.taker.unfilled == 0,
        amount > 0 ==> (r.taker.state == State::Submitted <==> !old(book).crosses(
            ask_or_bid,
            price,
        )),
        r.taker.state == State::Submitted ==> r.maker@.len() == 0 && r.taker.unfilled == amount,
        r.taker.state == State::PartialFilled ==> r.maker@.len() > 0 && r.taker.unfilled > 0,
        r.taker.state == State::Submitted || r.taker.state == State::PartialFilled
            || r.taker.state == State::Filled || r.taker.state == State::ConditionalCanceled,
        (r.taker.state == State::Submitted || r.taker.state == State::PartialFilled) <==> final(book).has_id(order_id),
        final(book).has_id(order_id) ==> final(book).has_order(
            Order { id: order_id, user: user_id, price, unfilled: r.taker.unfilled },
        ),
        r.taker.state == State::ConditionalCanceled ==> r.taker.unfilled > 0,
        forall|i: int|
            0 <= i < r.maker@.len() && (#[trigger] r.maker@[i]).state == State::Filled
                ==> !final(book).has_id(r.maker@[i].order_id),
        side_total(final(book).side_seq(ask_or_bid.spec_opposite())) == side_total(
            old(book).side_seq(ask_or_bid.spec_opposite()),
        ) - sum_filled(r.maker@),
        side_total(final(book).side_seq(ask_or_bid)) == side_total(
            old(book).side_seq(ask_or_bid),
        ) + (if final(book).has_id(order_id) {
            r.taker.unfilled as int
        } else {
            0
        }),
        amount == 0 ==> r.taker.state == State::Filled && r.maker@.len() == 0 && *final(book)
            == *old(book),
        ({
            let t0 = Order { id: order_id, user: user_id, price, unfilled: amount };
            let opp0 = old(book).side_seq(ask_or_bid.spec_opposite());
            let sm = spec_match(opp0, ask_or_bid, t0);
            let fopp = final(book).side_seq(ask_or_bid.spec_opposite());
            let n = opp0.len() - sm.3;
            &&& r.maker@ == sm.0
            &&& r.taker.unfilled == sm.1.unfilled
            &&& (r.taker.state == State::ConditionalCanceled <==> sm.2)
            &&& fopp.len() == n
            &&& (forall|i: int| 0 <= i < n - 1 ==> #[trigger] fopp[i] == opp0[i])
            &&& (n > 0 ==> fopp[n - 1].price == opp0[n - 1].price && fopp[n - 1].orders@ == sm.4
                && fopp[n - 1].amount == sum_unfilled(sm.4))
        }),
        final(book).has_id(order_id) ==> side_insert_rel(
            old(book).side_seq(ask_or_bid),
            final(book).side_seq(ask_or_bid),
            Order { id: order_id, user: user_id, price, unfilled: r.taker.unfilled },
        ),
        !final(book).has_id(order_id) ==> final(book).side_seq(ask_or_bid) == old(book).side_seq(
            ask_or_bid,
        ),
        forall|i: int, j: int|
            0 <= i < j < r.maker@.len() ==> (if ask_or_bid == AskOrBid::Bid {
                (#[trigger] r.maker@[i]).price <= (#[trigger] r.maker@[j]).price
            } else {
                (#[trigger] r.maker@[i]).price >= (#[trigger] r.maker@[j]).price
            }),
{
    let mut makers: Vec<Maker> = Vec::new();
    let mut order = Order::new(order_id, user_id, price, amount);
    let ghost opp = ask_or_bid.spec_opposite();
    let ghost t0 = order;
    let ghost opp0g = book.side_seq(opp);
    proof {
        assert(Seq::<Maker>::empty() + spec_match(opp0g, ask_or_bid, t0).0 =~= spec_match(
            opp0g,
            ask_or_bid,
            t0,
        ).0);
    }
    loop
        invariant
            book.wf(),
            book.cfg() == old(book).cfg(),
            order.id == order_id && order.user == user_id && order.price == price,
            order.unfilled <= amount,
            sum_filled(makers@) == amount - order.unfilled,
            !book.has_id(order_id),
            book.side_seq(ask_or_bid) == old(book).side_seq(ask_or_bid),
            side_total(old(book).side_seq(ask_or_bid)) + amount <= u128::MAX,
            side_total(book.side_seq(opp)) == side_total(old(book).side_seq(opp)) - sum_filled(
                makers@,
            ),
            makers@.len() == 0 ==> *book == *old(book) && order.unfilled == amount,
            makers@.len() > 0 ==> old(book).crosses(ask_or_bid, price),
            forall|i: int|
                0 <= i < makers@.len() ==> (#[trigger] makers@[i]).user_id != user_id
                    && makers@[i].filled > 0 && (makers@[i].state == State::Filled
                    || makers@[i].state == State::PartialFilled) && price_crosses(
                    ask_or_bid,
                    price,
                    makers@[i].price,
                ),
            forall|i: int|
                0 <= i < makers@.len() - 1 ==> (#[trigger] makers@[i]).state == State::Filled,
            makers@.len() > 0 && makers@.last().state == State::PartialFilled ==> order.unfilled
                == 0,
            forall|i: int|
                0 <= i < makers@.len() && (#[trigger] makers@[i]).state == State::Filled
                    ==> !book.has_id(makers@[i].order_id),
            forall|i: int| 0 <= i < makers@.len() ==> (#[trigger] makers@[i]).order_id != order_id,
            opp == ask_or_bid.spec_opposite(),
            t0 == (Order { id: order_id, user: user_id, price, unfilled: amount }),
            opp0g == old(book).side_seq(opp),
            side_pages_wf(opp0g, opp),
            book.side_seq(opp).len() <= opp0g.len(),
            forall|i: int|
                0 <= i < book.side_seq(opp).len() - 1 ==> #[trigger] book.side_seq(opp)[i]
                    == opp0g[i],
            book.side_seq(opp).len() > 0 ==> book.side_seq(opp).last().price
                == opp0g[book.side_seq(opp).len() - 1].price,
            ({
                let sm0 = spec_match(opp0g, ask_or_bid, t0);
                let smc = spec_match(book.side_seq(opp), ask_or_bid, order);
                &&& sm0.0 == makers@ + smc.0
                &&& sm0.1 == smc.1
                &&& sm0.2 == smc.2
                &&& sm0.3 == (opp0g.len() - book.side_seq(opp).len()) + smc.3
                &&& sm0.4 == smc.4
            }),
        decreases 2 * book.side_seq(opp).len() + (if order.unfilled > 0 {
            1int
        } else {
            0int
        }),
    {
        if order.is_filled() {
            proof {
                lemma_sum_filled_nonneg(makers@);
                if makers@.len() > 0 {
                    lemma_sum_filled_nonneg(makers@.drop_first());
                    assert(sum_filled(makers@) == makers@[0].filled + sum_filled(
                        makers@.drop_first(),
                    ));
                    assert(sum_filled(makers@) > 0);
                }
            }
            proof {
                let sm0 = spec_match(opp0g, ask_or_bid, t0);
                let cur = book.side_seq(opp);
                let smc = spec_match(cur, ask_or_bid, order);
                assert(smc == (
                    Seq::<Maker>::empty(),
                    order,
                    false,
                    0int,
                    if cur.len() == 0 {
                        Seq::<Order>::empty()
                    } else {
                        cur.last().orders@
                    },
                ));
                assert(makers@ + smc.0 =~= makers@);
                assert(makers@ == sm0.0);
                lemma_match_makers(opp0g, ask_or_bid, t0);
                if cur.len() > 0 {
                    assert(page_wf(cur[cur.len() - 1]));
                }
            }
            return Match { maker: makers, taker: Taker::taker(order, ask_or_bid, State::Filled) };
        }
        let best = book.get_best_if_match(ask_or_bid, order.price);
        if best.is_none() {
            proof {
                let sm0 = spec_match(opp0g, ask_or_bid, t0);
                let cur = book.side_seq(opp);
                let smc = spec_match(cur, ask_or_bid, order);
                assert(smc == (
                    Seq::<Maker>::empty(),
                    order,
                    false,
                    0int,
                    if cur.len() == 0 {
                        Seq::<Order>::empty()
                    } else {
                        cur.last().orders@
                    },
                ));
                assert(makers@ + smc.0 =~= makers@);
                assert(makers@ == sm0.0);
                lemma_match_makers(opp0g, ask_or_bid, t0);
                if cur.len() > 0 {
                    assert(page_wf(cur[cur.len() - 1]));
                }
            }
            book.insert(order, ask_or_bid);
            if makers.len() == 0 {
                return Match {
                    maker: makers,
                    taker: Taker::taker(order, ask_or_bid, State::Submitted),
                };
            } else {
                return Match {
                    maker: makers,
                    taker: Taker::taker(order, ask_or_bid, State::PartialFilled),
                };
            }
        }
        let ghost b_pre = *book;
        let ghost order_pre = order;
        let (mut traded, self_traded) = match_best_page(book, &mut order, ask_or_bid);
        let ghost makers_before = makers@;
        let ghost traded_seq = traded@;
        makers.append(&mut traded);
        proof {
            lemma_sum_filled_concat(makers_before, traded_seq);
            assert(makers@ == makers_before + traded_seq);
            assert forall|i: int| 0 <= i < makers@.len() implies (#[trigger] makers@[i]).user_id
                != user_id && makers@[i].filled > 0 && (makers@[i].state == State::Filled
                || makers@[i].state == State::PartialFilled) && price_crosses(
                ask_or_bid,
                price,
                makers@[i].price,
            ) by {
                if i < makers_before.len() {
                    assert(makers@[i] == makers_before[i]);
                } else {
                    assert(makers@[i].price == b_pre.side_seq(opp).last().price);
                }
            }
            assert forall|i: int| 0 <= i < makers@.len() - 1 implies (#[trigger] makers@[i]).state
                == State::Filled by {
                if i < makers_before.len() {
                    assert(makers@[i] == makers_before[i]);
                    if i == makers_before.len() - 1 {
                        assert(order_pre.unfilled > 0);
                    }
                }
            }
            assert forall|i: int|
                0 <= i < makers@.len() && (#[trigger] makers@[i]).state
                    == State::Filled implies !book.has_id(makers@[i].order_id) by {
                if i < makers_before.len() {
                    assert(makers@[i] == makers_before[i]);
                    assert(!b_pre.has_id(makers_before[i].order_id));
                    if book.has_id(makers@[i].order_id) {
                        assert(side_has_id(b_pre.side_seq(ask_or_bid), makers@[i].order_id)
                            || side_has_id(book.side_seq(opp), makers@[i].order_id));
                        assert(side_has_id(b_pre.side_seq(opp), makers@[i].order_id));
                    }
                }
            }
            // no maker carries the incoming order's id
            lemma_take_fifo(b_pre.side_seq(opp).last().orders@, order_pre);
            assert forall|i: int| 0 <= i < makers@.len() implies (#[trigger] makers@[i]).order_id
                != order_id by {
                if i < makers_before.len() {
                    assert(makers@[i] == makers_before[i]);
                } else {
                    let page0 = b_pre.side_seq(opp).last();
                    let j = i - makers_before.len();
                    assert(makers@[i] == traded_seq[j]);
                    assert(traded_seq[j].order_id == page0.orders@[j].id);
                    assert(page_has_id(page0, page0.orders@[j].id));
                    assert(side_has_id(b_pre.side_seq(opp), page0.orders@[j].id));
                    assert(b_pre.has_id(page0.orders@[j].id));
                }
            }
            // carry the whole-match decomposition one page forward
            let cur_pre = b_pre.side_seq(opp);
            let cur_post = book.side_seq(opp);
            let st = spec_take(cur_pre.last().orders@, order_pre);
            let sm0 = spec_match(opp0g, ask_or_bid, t0);
            let smc_pre = spec_match(cur_pre, ask_or_bid, order_pre);
            lemma_take_self_trade(cur_pre.last().orders@, order_pre);
            assert(price_crosses(ask_or_bid, order_pre.price, cur_pre.last().price));
            if st.1.len() == 0 {
                let rest = spec_match(cur_pre.drop_last(), ask_or_bid, st.2);
                assert(smc_pre == (st.0 + rest.0, rest.1, rest.2, rest.3 + 1, rest.4));
                assert(cur_post == cur_pre.drop_last());
                assert(makers@ + rest.0 =~= makers_before + (st.0 + rest.0));
                assert forall|i: int| 0 <= i < cur_post.len() - 1 implies #[trigger] cur_post[i]
                    == opp0g[i] by {
                    assert(cur_post[i] == cur_pre[i]);
                }
                assert(cur_post.len() > 0 ==> cur_post.last() == cur_pre[cur_post.len() - 1]);
            } else {
                assert(smc_pre == (st.0, st.2, st.3, 0int, st.1));
                assert(cur_post.len() == cur_pre.len());
                assert(cur_post.last().orders@ == st.1);
                assert forall|i: int| 0 <= i < cur_post.len() - 1 implies #[trigger] cur_post[i]
                    == opp0g[i] by {
                    assert(cur_post[i] == cur_pre[i]);
                }
                if !self_traded {
                    assert(order.unfilled == 0);
                    let smc_post = spec_match(cur_post, ask_or_bid, order);
                    assert(smc_post == (
                        Seq::<Maker>::empty(),
                        order,
                        false,
                        0int,
                        cur_post.last().orders@,
                    ));
                    assert(makers@ + smc_post.0 =~= makers_before + st.0);
                }
            }
        }
        if self_traded {
            proof {
                lemma_sum_filled_nonneg(makers@);
                let sm0 = spec_match(opp0g, ask_or_bid, t0);
                let cur = book.side_seq(opp);
                let st = spec_take(b_pre.side_seq(opp).last().orders@, order_pre);
                lemma_take_self_trade(b_pre.side_seq(opp).last().orders@, order_pre);
                assert(st.1.len() > 0);
                assert(makers@ == sm0.0) by {
                    assert(sm0.0 == makers_before + spec_match(
                        b_pre.side_seq(opp),
                        ask_or_bid,
                        order_pre,
                    ).0);
                }
                lemma_match_makers(opp0g, ask_or_bid, t0);
                assert(page_wf(cur[cur.len() - 1]));
            }
            return Match {
                taker: Taker::taker(order, ask_or_bid, State::ConditionalCanceled),
                maker: makers,
            };
        }
    }
}

/// What `cancel` promises: the relation between the book before, the
/// book after, and the returned record.
pub open spec fn cancel_post(b0: OrderBook, b1: OrderBook, order_id: OrderId, r: Option<Match>) -> bool {
    match r {
        None => b1 == b0 && !b0.has_id(order_id),
        Some(m) => {
            &&& b0.has_id(order_id)
            &&& !b1.has_id(order_id)
            &&& m.maker@.len() == 0
            &&& m.taker.order_id == order_id
            &&& m.taker.state == State::Canceled
            &&& b0.has_order(
                Order {
                    id: order_id,
                    user: m.taker.user_id,
                    price: m.taker.price,
                    unfilled: m.taker.unfilled,
                },
            )
            &&& forall|id: OrderId| id != order_id ==> (#[trigger] b1.has_id(id) <==> b0.has_id(id))
            &&& b1.indices@ == b0.indices@.remove(order_id)
            &&& b1.cfg() == b0.cfg()
            &&& side_total(b1.side_seq(m.taker.ask_or_bid)) == side_total(
                b0.side_seq(m.taker.ask_or_bid),
            ) - m.taker.unfilled
            &&& b1.side_seq(m.taker.ask_or_bid.spec_opposite()) == b0.side_seq(
                m.taker.ask_or_bid.spec_opposite(),
            )
        },
    }
}

/// Cancels a resting order: takes it out of the book and reports its
/// last state.  Cancelling an unknown or already-resolved id is a
/// no-op that returns `None`.
pub fn cancel(orderbook: &mut OrderBook, order_id: OrderId) -> (r: Option<Match>)
    requires
        old(orderbook).wf(),
    ensures
        final(orderbook).wf(),
        cancel_post(*old(orderbook), *final(orderbook), order_id, r),
{
    match orderbook.remove(order_id) {
        Some((order, from)) => Some(
            Match { maker: Vec::new(), taker: Taker::taker(order, from, State::Canceled) },
        ),
        None => None,
    }
}

/// Cancelling the same id twice: the first successful cancel removes
/// it, so the second call returns `None` and leaves the book exactly
/// as the first left it.
pub proof fn lemma_cancel_idempotent(
    b0: OrderBook,
    b1: OrderBook,
    b2: OrderBook,
    order_id: OrderId,
    r1: Option<Match>,
    r2: Option<Match>,
)
    requires
        cancel_post(b0, b1, order_id, r1),
        cancel_post(b1, b2, order_id, r2),
        r1 is Some,
    ensures
        r2 is None,
        b2 == b1,
{
}

} // verus!
