use vstd::prelude::*;

use std::collections::HashMap;

use crate::types::{Amount, OrderId, Price, UserId};

verus! {

broadcast use vstd::std_specs::hash::group_hash_axioms;

/// Which side of the book an order rests on, or which side an
/// incoming order attacks from.
#[derive(Debug, PartialEq, Eq, Clone, Copy, Structural)]
pub enum AskOrBid {
    Ask,
    Bid,
}

impl AskOrBid {
    /// The opposite side: the side an incoming order matches against.
    pub open spec fn spec_opposite(self) -> AskOrBid {
        if self == AskOrBid::Ask {
            AskOrBid::Bid
        } else {
            AskOrBid::Ask
        }
    }

    /// The wire index of this side.
    pub fn as_u32(self) -> (r: u32)
        ensures
            r == (if self == AskOrBid::Ask {
                0u32
            } else {
                1u32
            }),
    {
        match self {
            AskOrBid::Ask => 0,
            AskOrBid::Bid => 1,
        }
    }

    pub fn opposite(self) -> (r: AskOrBid)
        ensures
            r == self.spec_opposite(),
    {
        match self {
            AskOrBid::Ask => AskOrBid::Bid,
            AskOrBid::Bid => AskOrBid::Ask,
        }
    }
}

/// One resting limit order.  `id`, `user` and `price` are fixed for
/// the order's lifetime; `unfilled` shrinks as the order is matched.
#[derive(Debug, PartialEq, Eq, Clone, Copy, Structural)]
pub struct Order {
    pub id: OrderId,
    pub user: UserId,
    pub price: Price,
    pub unfilled: Amount,
}

impl Order {
    pub fn new(id: OrderId, user: UserId, price: Price, amount: Amount) -> (r: Order)
        ensures
            r == (Order { id, user, price, unfilled: amount }),
    {
        Order { id, user, price, unfilled: amount }
    }

    /// An order leaves the book the moment nothing of it is left.
    pub fn is_filled(&self) -> (r: bool)
        ensures
            r == (self.unfilled == 0),
    {
        self.unfilled == 0
    }

    /// Records a fill of `amount` against this order.
    pub fn fill(&mut self, amount: Amount)
        requires
            amount <= old(self).unfilled,
        ensures
            *final(self) == (Order { unfilled: (old(self).unfilled - amount) as u128, ..*old(self) }),
    {
        self.unfilled = self.unfilled - amount;
    }
}

/// All resting orders at one exact price on one side, oldest first,
/// with the running aggregate of their unfilled amounts.
#[derive(Debug, PartialEq, Eq, Clone)]
pub struct OrderPage {
    pub price: Price,
    pub amount: Amount,
    pub orders: Vec<Order>,
}

/// Sum of the unfilled amounts of a sequence of orders.
pub open spec fn sum_unfilled(s: Seq<Order>) -> int
    decreases s.len(),
{
    if s.len() == 0 {
        0
    } else {
        s[0].unfilled + sum_unfilled(s.drop_first())
    }
}

/// Sum of the aggregate amounts of a sequence of pages.
pub open spec fn side_total(s: Seq<OrderPage>) -> int
    decreases s.len(),
{
    if s.len() == 0 {
        0
    } else {
        s[0].amount + side_total(s.drop_first())
    }
}

/// A well-formed page: non-empty, aggregate equal to the sum of its
/// orders, every order priced at the page's price with something left.
pub open spec fn page_wf(p: OrderPage) -> bool {
    &&& p.orders@.len() > 0
    &&& p.amount == sum_unfilled(p.orders@)
    &&& forall|j: int|
        0 <= j < p.orders@.len() ==> (#[trigger] p.orders@[j]).price == p.price
            && p.orders@[j].unfilled > 0
}

/// In the stored direction, earlier pages are farther from the best:
/// asks are stored with prices strictly descending (best ask, the
/// lowest price, sits last), bids strictly ascending (best bid last).
pub open spec fn price_before(side: AskOrBid, a: Price, b: Price) -> bool {
    if side == AskOrBid::Ask {
        a > b
    } else {
        a < b
    }
}

pub open spec fn prices_sorted(s: Seq<OrderPage>, side: AskOrBid) -> bool {
    forall|i: int, j: int|
        0 <= i < j < s.len() ==> price_before(side, (#[trigger] s[i]).price, (#[trigger] s[j]).price)
}

pub open spec fn page_has_id(p: OrderPage, id: OrderId) -> bool {
    exists|j: int| 0 <= j < p.orders@.len() && (#[trigger] p.orders@[j]).id == id
}

pub open spec fn side_has_id(s: Seq<OrderPage>, id: OrderId) -> bool {
    exists|i: int| 0 <= i < s.len() && page_has_id(#[trigger] s[i], id)
}

pub open spec fn side_has_order(s: Seq<OrderPage>, o: Order) -> bool {
    exists|i: int, j: int|
        0 <= i < s.len() && 0 <= j < s[i].orders@.len() && (#[trigger] s[i].orders@[j]) == o
}

/// No order id occurs twice on one side.
pub open spec fn side_ids_unique(s: Seq<OrderPage>) -> bool {
    forall|i1: int, j1: int, i2: int, j2: int|
        0 <= i1 < s.len() && 0 <= j1 < s[i1].orders@.len() && 0 <= i2 < s.len() && 0 <= j2
            < s[i2].orders@.len() && !(i1 == i2 && j1 == j2) ==> (#[trigger] s[i1].orders@[j1]).id
            != (#[trigger] s[i2].orders@[j2]).id
}

pub open spec fn side_pages_wf(s: Seq<OrderPage>, side: AskOrBid) -> bool {
    &&& prices_sorted(s, side)
    &&& forall|i: int| 0 <= i < s.len() ==> page_wf(#[trigger] s[i])
    &&& side_ids_unique(s)
    &&& side_total(s) <= u128::MAX
}

/// One order book: two price-ordered sides plus the id index.
pub struct OrderBook {
    pub asks: Vec<OrderPage>,
    pub bids: Vec<OrderPage>,
    pub indices: HashMap<OrderId, AskOrBid>,
    pub base_scale: u32,
    pub quote_scale: u32,
    pub taker_fee: Amount,
    pub maker_fee: Amount,
    pub min_amount: Amount,
    pub min_vol: Amount,
    pub enable_market_order: bool,
    pub open: bool,
}

impl OrderBook {
    pub open spec fn side_seq(&self, side: AskOrBid) -> Seq<OrderPage> {
        if side == AskOrBid::Ask {
            self.asks@
        } else {
            self.bids@
        }
    }

    pub open spec fn has_id(&self, id: OrderId) -> bool {
        side_has_id(self.asks@, id) || side_has_id(self.bids@, id)
    }

    pub open spec fn has_order(&self, o: Order) -> bool {
        side_has_order(self.asks@, o) || side_has_order(self.bids@, o)
    }

    /// Every index entry points at the side that really holds the
    /// order, and every resting order is indexed.
    pub open spec fn index_consistent(&self) -> bool {
        &&& forall|id: OrderId|
            #[trigger] self.indices@.contains_key(id) <==> side_has_id(self.asks@, id)
                || side_has_id(self.bids@, id)
        &&& forall|id: OrderId|
            self.indices@.contains_key(id) && #[trigger] self.indices@[id] == AskOrBid::Ask
                ==> !side_has_id(self.bids@, id)
        &&& forall|id: OrderId|
            self.indices@.contains_key(id) && #[trigger] self.indices@[id] == AskOrBid::Bid
                ==> !side_has_id(self.asks@, id)
    }

    pub open spec fn wf(&self) -> bool {
        &&& side_pages_wf(self.asks@, AskOrBid::Ask)
        &&& side_pages_wf(self.bids@, AskOrBid::Bid)
        &&& self.index_consistent()
    }

    /// The incoming side's crossing condition: a bid at `price`
    /// crosses iff the best (lowest, last) ask is at most `price`; an
    /// ask crosses iff the best (highest, last) bid is at least
    /// `price`.
    pub open spec fn crosses(&self, incoming: AskOrBid, price: Price) -> bool {
        if incoming == AskOrBid::Bid {
            self.asks@.len() > 0 && self.asks@.last().price <= price
        } else {
            self.bids@.len() > 0 && self.bids@.last().price >= price
        }
    }

    pub fn new(
        base_scale: u32,
        quote_scale: u32,
        taker_fee: Amount,
        maker_fee: Amount,
        min_amount: Amount,
        min_vol: Amount,
        enable_market_order: bool,
        open: bool,
    ) -> (r: OrderBook)
        ensures
            r.wf(),
            r.asks@.len() == 0,
            r.bids@.len() == 0,
            r.indices@ == Map::<OrderId, AskOrBid>::empty(),
            r.base_scale == base_scale,
            r.quote_scale == quote_scale,
            r.taker_fee == taker_fee,
            r.maker_fee == maker_fee,
            r.min_amount == min_amount,
            r.min_vol == min_vol,
            r.enable_market_order == enable_market_order,
            r.open == open,
    {
        OrderBook {
            asks: Vec::new(),
            bids: Vec::new(),
            indices: HashMap::new(),
            base_scale,
            quote_scale,
            taker_fee,
            maker_fee,
            min_amount,
            min_vol,
            enable_market_order,
            open,
        }
    }

    /// The best opposing price and its page aggregate, when the
    /// incoming order at `price` crosses it; `None` otherwise.
    pub fn get_best_if_match(&self, incoming: AskOrBid, price: Price) -> (r: Option<(Price, Amount)>)
        ensures
            r is Some <==> self.crosses(incoming, price),
            r is Some ==> {
                let opp = self.side_seq(if incoming == AskOrBid::Bid {
                    AskOrBid::Ask
                } else {
                    AskOrBid::Bid
                });
                r->0 == (opp.last().price, opp.last().amount)
            },
    {
        match incoming {
            AskOrBid::Bid => {
                if self.asks.len() > 0 {
                    let p = &self.asks[self.asks.len() - 1];
                    if p.price <= price {
                        Some((p.price, p.amount))
                    } else {
                        None
                    }
                } else {
                    None
                }
            },
            AskOrBid::Ask => {
                if self.bids.len() > 0 {
                    let p = &self.bids[self.bids.len() - 1];
                    if p.price >= price {
                        Some((p.price, p.amount))
                    } else {
                        None
                    }
                } else {
                    None
                }
            },
        }
    }

    /// The configuration of the book, which no operation changes.
    pub open spec fn cfg(&self) -> (u32, u32, Amount, Amount, Amount, Amount, bool, bool) {
        (
            self.base_scale,
            self.quote_scale,
            self.taker_fee,
            self.maker_fee,
            self.min_amount,
            self.min_vol,
            self.enable_market_order,
            self.open,
        )
    }

    /// Rests a new order on its side, appending it to the page at its
    /// price or opening a new page, and indexes its id.
    pub fn insert(&mut self, order: Order, ask_or_bid: AskOrBid)
        requires
            old(self).wf(),
            order.unfilled > 0,
            !old(self).has_id(order.id),
            side_total(old(self).side_seq(ask_or_bid)) + order.unfilled <= u128::MAX,
        ensures
            final(self).wf(),
            final(self).cfg() == old(self).cfg(),
            side_insert_rel(
                old(self).side_seq(ask_or_bid),
                final(self).side_seq(ask_or_bid),
                order,
            ),
            final(self).side_seq(ask_or_bid.spec_opposite()) == old(self).side_seq(
                ask_or_bid.spec_opposite(),
            ),
            final(self).indices@ == old(self).indices@.insert(order.id, ask_or_bid),
            side_total(final(self).side_seq(ask_or_bid)) == side_total(
                old(self).side_seq(ask_or_bid),
            ) + order.unfilled,
            forall|id: OrderId|
                #[trigger] final(self).has_id(id) <==> old(self).has_id(id) || id == order.id,
            forall|o: Order|
                #[trigger] final(self).has_order(o) <==> old(self).has_order(o) || o == order,
    {
        let ghost b0 = *self;
        match ask_or_bid {
            AskOrBid::Ask => side_insert(&mut self.asks, AskOrBid::Ask, order),
            AskOrBid::Bid => side_insert(&mut self.bids, AskOrBid::Bid, order),
        }
        self.indices.insert(order.id, ask_or_bid);
        proof {
            let b1 = *self;
            assert forall|id: OrderId| #[trigger]
                b1.indices@.contains_key(id) <==> side_has_id(b1.asks@, id) || side_has_id(
                    b1.bids@,
                    id,
                ) by {
                assert(b1.indices@.contains_key(id) <==> b0.indices@.contains_key(id) || id
                    == order.id);
            }
            assert forall|id: OrderId|
                b1.indices@.contains_key(id) && #[trigger] b1.indices@[id]
                    == AskOrBid::Ask implies !side_has_id(b1.bids@, id) by {
                if id != order.id {
                    assert(b1.indices@[id] == b0.indices@[id]);
                    assert(b0.indices@.contains_key(id));
                }
            }
            assert forall|id: OrderId|
                b1.indices@.contains_key(id) && #[trigger] b1.indices@[id]
                    == AskOrBid::Bid implies !side_has_id(b1.asks@, id) by {
                if id != order.id {
                    assert(b1.indices@[id] == b0.indices@[id]);
                    assert(b0.indices@.contains_key(id));
                }
            }
        }
    }

    /// Takes the order `order_id` out of the book: out of its page,
    /// which dies when it empties, and out of the index.  Removing an
    /// unknown id changes nothing and returns `None`.
    pub fn remove(&mut self, order_id: OrderId) -> (r: Option<(Order, AskOrBid)>)
        requires
            old(self).wf(),
        ensures
            final(self).wf(),
            final(self).cfg() == old(self).cfg(),
            r is None ==> *final(self) == *old(self) && !old(self).has_id(order_id),
            r is Some ==> ({
                let o = (r->0).0;
                let from = (r->0).1;
                &&& o.id == order_id
                &&& old(self).has_order(o)
                &&& old(self).has_id(order_id)
                &&& !final(self).has_id(order_id)
                &&& final(self).indices@ == old(self).indices@.remove(order_id)
                &&& (forall|id: OrderId|
                    id != order_id ==> (#[trigger] final(self).has_id(id) <==> old(self).has_id(
                        id,
                    )))
                &&& (forall|o2: Order|
                    o2.id != order_id ==> (#[trigger] final(self).has_order(o2)
                        <==> old(self).has_order(o2)))
                &&& side_total(final(self).side_seq(from)) == side_total(old(self).side_seq(from))
                    - o.unfilled
                &&& final(self).side_seq(from.spec_opposite()) == old(self).side_seq(
                    from.spec_opposite(),
                )
            }),
    {
        let ghost b0 = *self;
        let from = match self.indices.get(&order_id) {
            None => {
                return None;
            },
            Some(side) => *side,
        };
        let removed = match from {
            AskOrBid::Ask => side_remove(&mut self.asks, AskOrBid::Ask, order_id),
            AskOrBid::Bid => side_remove(&mut self.bids, AskOrBid::Bid, order_id),
        };
        match removed {
            None => {
                proof {
                    assert(b0.indices@.contains_key(order_id));
                    assert(false);
                }
                None
            },
            Some(o) => {
                self.indices.remove(&order_id);
                proof {
                    let b1 = *self;
                    assert forall|id: OrderId| #[trigger]
                        b1.indices@.contains_key(id) <==> side_has_id(b1.asks@, id) || side_has_id(
                            b1.bids@,
                            id,
                        ) by {
                        assert(b1.indices@.contains_key(id) <==> b0.indices@.contains_key(id) && id
                            != order_id);
                        if id != order_id {
                            assert(side_has_id(b1.asks@, id) <==> side_has_id(b0.asks@, id));
                            assert(side_has_id(b1.bids@, id) <==> side_has_id(b0.bids@, id));
                        }
                    }
                    assert forall|id: OrderId|
                        b1.indices@.contains_key(id) && #[trigger] b1.indices@[id]
                            == AskOrBid::Ask implies !side_has_id(b1.bids@, id) by {
                        assert(id != order_id);
                        assert(b1.indices@[id] == b0.indices@[id]);
                        assert(b0.indices@.contains_key(id));
                    }
                    assert forall|id: OrderId|
                        b1.indices@.contains_key(id) && #[trigger] b1.indices@[id]
                            == AskOrBid::Bid implies !side_has_id(b1.asks@, id) by {
                        assert(id != order_id);
                        assert(b1.indices@[id] == b0.indices@[id]);
                        assert(b0.indices@.contains_key(id));
                    }
                }
                Some((o, from))
            },
        }
    }

    /// The resting order with this id, if any.
    pub fn find_order(&self, order_id: OrderId) -> (r: Option<Order>)
        requires
            self.wf(),
        ensures
            match r {
                Some(o) => o.id == order_id && self.has_order(o) && self.has_id(order_id),
                None => !self.has_id(order_id),
            },
    {
        match side_find(&self.asks, order_id) {
            Some((k, j)) => {
                let o = self.asks[k].orders[j];
                proof {
                    assert(side_has_order(self.asks@, o));
                    assert(page_has_id(self.asks@[k as int], order_id));
                }
                Some(o)
            },
            None => {
                match side_find(&self.bids, order_id) {
                    Some((k, j)) => {
                        let o = self.bids[k].orders[j];
                        proof {
                            assert(side_has_order(self.bids@, o));
                            assert(page_has_id(self.bids@[k as int], order_id));
                        }
                        Some(o)
                    },
                    None => None,
                }
            },
        }
    }

    /// The aggregate unfilled size resting on each side, asks first.
    pub fn size(&self) -> (r: (Amount, Amount))
        requires
            self.wf(),
        ensures
            r.0 == side_total(self.asks@),
            r.1 == side_total(self.bids@),
    {
        let a = sum_side(&self.asks);
        let b = sum_side(&self.bids);
        (a, b)
    }
}

/// Adds up the page aggregates of one side.
fn sum_side(side: &Vec<OrderPage>) -> (r: Amount)
    requires
        side_total(side@) <= u128::MAX,
    ensures
        r == side_total(side@),
{
    proof {
        lemma_side_total_nonneg(side@);
    }
    let mut total: u128 = 0;
    let mut i: usize = 0;
    while i < side.len()
        invariant
            i <= side@.len(),
            side_total(side@) <= u128::MAX,
            total == side_total(side@.subrange(0, i as int)),
        decreases side@.len() - i,
    {
        proof {
            lemma_side_total_split(side@, i as int);
            lemma_side_total_nonneg(side@.subrange(i as int, side@.len() as int));
            lemma_side_total_nonneg(side@.subrange(0, i as int));
            assert(side@.subrange(i as int, side@.len() as int)[0] == side@[i as int]);
            assert(side_total(side@.subrange(i as int, side@.len() as int)) == side@[i as int].amount
                + side_total(side@.subrange(i as int, side@.len() as int).drop_first()));
            lemma_side_total_nonneg(side@.subrange(i as int, side@.len() as int).drop_first());
            lemma_side_total_split(side@, i + 1);
            assert(side@.subrange(0, i + 1).drop_last() =~= side@.subrange(0, i as int));
            lemma_side_total_drop_last(side@.subrange(0, i + 1));
        }
        total = total + side[i].amount;
        i = i + 1;
    }
    proof {
        assert(side@.subrange(0, side@.len() as int) =~= side@);
    }
    total
}

/// How one side changes when a new order is inserted: either it is
/// appended, youngest, to the page already at its price, or a fresh
/// single-order page appears at its sorted position.
pub open spec fn side_insert_rel(s0: Seq<OrderPage>, s1: Seq<OrderPage>, o: Order) -> bool {
    ||| (exists|k: int|
        0 <= k < s0.len() && (#[trigger] s0[k]).price == o.price && s1.len() == s0.len() && (forall|
            i: int,
        |
            0 <= i < s0.len() && i != k ==> s1[i] == #[trigger] s0[i]) && s1[k].price == o.price
            && s1[k].orders@ == s0[k].orders@.push(o) && s1[k].amount == s0[k].amount + o.unfilled)
    ||| (exists|k: int|
        0 <= k <= s0.len() && s1.len() == s0.len() + 1 && (forall|i: int|
            0 <= i < k ==> s1[i] == #[trigger] s0[i]) && (forall|i: int|
            k < i < s1.len() ==> #[trigger] s1[i] == s0[i - 1]) && (#[trigger] s1[k]).price
            == o.price && s1[k].orders@ == seq![o] && s1[k].amount == o.unfilled && !(exists|i: int|
            0 <= i < s0.len() && (#[trigger] s0[i]).price == o.price))
}

/// A mutable view of the page at position `i`.
fn page_at_mut(side: &mut Vec<OrderPage>, i: usize) -> (p: &mut OrderPage)
    requires
        i < old(side)@.len(),
    ensures
        *p == old(side)@[i as int],
        final(side)@ == old(side)@.update(i as int, *final(p)),
{
    &mut side[i]
}

/// Executable form of `price_before`.
fn price_comes_before(side: AskOrBid, a: Price, b: Price) -> (r: bool)
    ensures
        r == price_before(side, a, b),
{
    match side {
        AskOrBid::Ask => a > b,
        AskOrBid::Bid => a < b,
    }
}

/// The sorted position for a page of price `price`: the first index
/// whose page does not come strictly before it.
fn side_insert_pos(side: &Vec<OrderPage>, sorted_as: AskOrBid, price: Price) -> (k: usize)
    requires
        prices_sorted(side@, sorted_as),
    ensures
        k <= side@.len(),
        forall|i: int| 0 <= i < k ==> price_before(sorted_as, (#[trigger] side@[i]).price, price),
        k < side@.len() ==> !price_before(sorted_as, side@[k as int].price, price),
{
    let mut k: usize = 0;
    while k < side.len() && price_comes_before(sorted_as, side[k].price, price)
        invariant
            k <= side@.len(),
            forall|i: int|
                0 <= i < k ==> price_before(sorted_as, (#[trigger] side@[i]).price, price),
        decreases side@.len() - k,
    {
        k = k + 1;
    }
    k
}

/// Inserts a new resting order into one side, preserving price order
/// and arrival order within its page.
#[verifier::rlimit(100)]
fn side_insert(side: &mut Vec<OrderPage>, sorted_as: AskOrBid, order: Order)
    requires
        side_pages_wf(old(side)@, sorted_as),
        order.unfilled > 0,
        !side_has_id(old(side)@, order.id),
        side_total(old(side)@) + order.unfilled <= u128::MAX,
    ensures
        side_pages_wf(final(side)@, sorted_as),
        side_insert_rel(old(side)@, final(side)@, order),
        side_total(final(side)@) == side_total(old(side)@) + order.unfilled,
        forall|id: OrderId|
            #[trigger] side_has_id(final(side)@, id) <==> side_has_id(old(side)@, id) || id
                == order.id,
        forall|o: Order|
            #[trigger] side_has_order(final(side)@, o) <==> side_has_order(old(side)@, o) || o
                == order,
{
    let ghost s0 = side@;
    let k = side_insert_pos(side, sorted_as, order.price);
    if k < side.len() && side[k].price == order.price {
        proof {
            lemma_side_total_bound(s0, k as int);
            lemma_side_total_nonneg(s0);
        }
        let ghost oldpage = side@[k as int];
        let pg = page_at_mut(side, k);
        pg.orders.push(order);
        pg.amount = pg.amount + order.unfilled;
        proof {
            let s1 = side@;
            let newpage = s1[k as int];
            assert(s1 == s0.update(k as int, newpage));
            assert(newpage.orders@ == oldpage.orders@.push(order));
            lemma_sum_unfilled_push(oldpage.orders@, order);
            assert(page_wf(newpage));
            lemma_side_total_update(s0, k as int, newpage);
            // price order is untouched
            assert forall|i: int, j: int| 0 <= i < j < s1.len() implies price_before(
                sorted_as,
                (#[trigger] s1[i]).price,
                (#[trigger] s1[j]).price,
            ) by {
                assert(s1[i].price == s0[i].price);
                assert(s1[j].price == s0[j].price);
            }
            // membership
            assert forall|id: OrderId| #[trigger]
                side_has_id(s1, id) <==> side_has_id(s0, id) || id == order.id by {
                if side_has_id(s1, id) {
                    let i = choose|i: int| 0 <= i < s1.len() && page_has_id(#[trigger] s1[i], id);
                    let j = choose|j: int|
                        0 <= j < s1[i].orders@.len() && (#[trigger] s1[i].orders@[j]).id == id;
                    if i == k {
                        if j < oldpage.orders@.len() {
                            assert(s0[i].orders@[j].id == id);
                            assert(page_has_id(s0[i], id));
                            assert(side_has_id(s0, id));
                        } else {
                            assert(s1[i].orders@[j] == order);
                        }
                    } else {
                        assert(s0[i].orders@[j].id == id);
                        assert(page_has_id(s0[i], id));
                        assert(side_has_id(s0, id));
                    }
                }
                if side_has_id(s0, id) {
                    let i = choose|i: int| 0 <= i < s0.len() && page_has_id(#[trigger] s0[i], id);
                    let j = choose|j: int|
                        0 <= j < s0[i].orders@.len() && (#[trigger] s0[i].orders@[j]).id == id;
                    assert(s1[i].orders@[j].id == id);
                    assert(page_has_id(s1[i], id));
                    assert(side_has_id(s1, id));
                }
                if id == order.id {
                    assert(s1[k as int].orders@[oldpage.orders@.len() as int].id == id);
                    assert(page_has_id(s1[k as int], id));
                    assert(side_has_id(s1, id));
                }
            }
            assert forall|o: Order| #[trigger]
                side_has_order(s1, o) <==> side_has_order(s0, o) || o == order by {
                if side_has_order(s1, o) {
                    let (i, j) = choose|i: int, j: int|
                        0 <= i < s1.len() && 0 <= j < s1[i].orders@.len() && (#[trigger] s1[i].orders@[j])
                            == o;
                    if i == k && j == oldpage.orders@.len() {
                        assert(o == order);
                    } else {
                        assert(s0[i].orders@[j] == o);
                        assert(side_has_order(s0, o));
                    }
                }
                if side_has_order(s0, o) {
                    let (i, j) = choose|i: int, j: int|
                        0 <= i < s0.len() && 0 <= j < s0[i].orders@.len() && (#[trigger] s0[i].orders@[j])
                            == o;
                    assert(s1[i].orders@[j] == o);
                    assert(side_has_order(s1, o));
                }
                if o == order {
                    assert(s1[k as int].orders@[oldpage.orders@.len() as int] == o);
                    assert(side_has_order(s1, o));
                }
            }
            // id uniqueness
            assert forall|i1: int, j1: int, i2: int, j2: int|
                0 <= i1 < s1.len() && 0 <= j1 < s1[i1].orders@.len() && 0 <= i2 < s1.len() && 0
                    <= j2 < s1[i2].orders@.len() && !(i1 == i2 && j1 == j2) implies (
            #[trigger] s1[i1].orders@[j1]).id != (#[trigger] s1[i2].orders@[j2]).id by {
                let new1 = i1 == k && j1 == oldpage.orders@.len();
                let new2 = i2 == k && j2 == oldpage.orders@.len();
                if new1 && !new2 {
                    assert(s1[i2].orders@[j2] == s0[i2].orders@[j2]);
                    if s0[i2].orders@[j2].id == order.id {
                        assert(page_has_id(s0[i2], order.id));
                        assert(side_has_id(s0, order.id));
                    }
                } else if !new1 && new2 {
                    assert(s1[i1].orders@[j1] == s0[i1].orders@[j1]);
                    if s0[i1].orders@[j1].id == order.id {
                        assert(page_has_id(s0[i1], order.id));
                        assert(side_has_id(s0, order.id));
                    }
                } else if !new1 && !new2 {
                    assert(s1[i1].orders@[j1] == s0[i1].orders@[j1]);
                    assert(s1[i2].orders@[j2] == s0[i2].orders@[j2]);
                }
            }
            assert forall|i: int| 0 <= i < s0.len() && i != (k as int) implies s1[i] == #[trigger] s0[i] by {}
            assert((k as int) < s0.len() && s0[k as int].price == order.price
                && s1.len() == s0.len() && s1[k as int].price == order.price
                && s1[k as int].orders@ == s0[k as int].orders@.push(order)
                && s1[k as int].amount == s0[k as int].amount + order.unfilled);
            assert(side_insert_rel(s0, s1, order));
        }
    } else {
        let mut orders: Vec<Order> = Vec::new();
        orders.push(order);
        let page = OrderPage { price: order.price, amount: order.unfilled, orders };
        side.insert(k, page);
        proof {
            let s1 = side@;
            assert(s1 == s0.insert(k as int, page));
            assert(page.orders@ =~= seq![order]);
            assert(sum_unfilled(page.orders@) == order.unfilled + sum_unfilled(
                page.orders@.drop_first(),
            ));
            assert(page.orders@.drop_first() =~= Seq::<Order>::empty());
            assert(page_wf(page));
            lemma_side_total_insert(s0, k as int, page);
            // every price at position k or later in s0 comes strictly after
            assert forall|i: int| k <= i < s0.len() implies price_before(
                sorted_as,
                order.price,
                (#[trigger] s0[i]).price,
            ) by {
                assert(!price_before(sorted_as, s0[k as int].price, order.price));
                assert(s0[k as int].price != order.price);
                if i > k {
                    assert(price_before(sorted_as, s0[k as int].price, s0[i].price));
                }
            }
            assert forall|i: int, j: int| 0 <= i < j < s1.len() implies price_before(
                sorted_as,
                (#[trigger] s1[i]).price,
                (#[trigger] s1[j]).price,
            ) by {
                if j < k {
                    assert(s1[i] == s0[i] && s1[j] == s0[j]);
                } else if i > k {
                    assert(s1[i] == s0[i - 1] && s1[j] == s0[j - 1]);
                } else if i < k && j == k {
                    assert(s1[i] == s0[i]);
                } else if i == k {
                    assert(s1[j] == s0[j - 1]);
                } else {
                    assert(i < k && j > k);
                    assert(s1[i] == s0[i] && s1[j] == s0[j - 1]);
                    assert(price_before(sorted_as, s0[i].price, order.price));
                    assert(price_before(sorted_as, order.price, s0[j - 1].price));
                }
            }
            assert forall|id: OrderId| #[trigger]
                side_has_id(s1, id) <==> side_has_id(s0, id) || id == order.id by {
                if side_has_id(s1, id) {
                    let i = choose|i: int| 0 <= i < s1.len() && page_has_id(#[trigger] s1[i], id);
                    let j = choose|j: int|
                        0 <= j < s1[i].orders@.len() && (#[trigger] s1[i].orders@[j]).id == id;
                    if i == k {
                        assert(s1[i].orders@[j] == order);
                    } else if i < k {
                        assert(s0[i].orders@[j].id == id);
                        assert(page_has_id(s0[i], id));
                        assert(side_has_id(s0, id));
                    } else {
                        assert(s0[i - 1].orders@[j].id == id);
                        assert(page_has_id(s0[i - 1], id));
                        assert(side_has_id(s0, id));
                    }
                }
                if side_has_id(s0, id) {
                    let i = choose|i: int| 0 <= i < s0.len() && page_has_id(#[trigger] s0[i], id);
                    let j = choose|j: int|
                        0 <= j < s0[i].orders@.len() && (#[trigger] s0[i].orders@[j]).id == id;
                    let i1 = if i < k {
                        i
                    } else {
                        i + 1
                    };
                    assert(s1[i1].orders@[j].id == id);
                    assert(page_has_id(s1[i1], id));
                    assert(side_has_id(s1, id));
                }
                if id == order.id {
                    assert(s1[k as int].orders@[0].id == id);
                    assert(page_has_id(s1[k as int], id));
                    assert(side_has_id(s1, id));
                }
            }
            assert forall|o: Order| #[trigger]
                side_has_order(s1, o) <==> side_has_order(s0, o) || o == order by {
                if side_has_order(s1, o) {
                    let (i, j) = choose|i: int, j: int|
                        0 <= i < s1.len() && 0 <= j < s1[i].orders@.len() && (#[trigger] s1[i].orders@[j])
                            == o;
                    if i == k {
                        assert(o == order);
                    } else if i < k {
                        assert(s0[i].orders@[j] == o);
                        assert(side_has_order(s0, o));
                    } else {
                        assert(s0[i - 1].orders@[j] == o);
                        assert(side_has_order(s0, o));
                    }
                }
                if side_has_order(s0, o) {
                    let (i, j) = choose|i: int, j: int|
                        0 <= i < s0.len() && 0 <= j < s0[i].orders@.len() && (#[trigger] s0[i].orders@[j])
                            == o;
                    let i1 = if i < k {
                        i
                    } else {
                        i + 1
                    };
                    assert(s1[i1].orders@[j] == o);
                    assert(side_has_order(s1, o));
                }
                if o == order {
                    assert(s1[k as int].orders@[0] == o);
                    assert(side_has_order(s1, o));
                }
            }
            assert forall|i1: int, j1: int, i2: int, j2: int|
                0 <= i1 < s1.len() && 0 <= j1 < s1[i1].orders@.len() && 0 <= i2 < s1.len() && 0
                    <= j2 < s1[i2].orders@.len() && !(i1 == i2 && j1 == j2) implies (
            #[trigger] s1[i1].orders@[j1]).id != (#[trigger] s1[i2].orders@[j2]).id by {
                let o1 = if i1 < k {
                    i1
                } else {
                    i1 - 1
                };
                let o2 = if i2 < k {
                    i2
                } else {
                    i2 - 1
                };
                if i1 == k && i2 != k {
                    assert(s1[i2].orders@[j2] == s0[o2].orders@[j2]);
                    if s0[o2].orders@[j2].id == order.id {
                        assert(page_has_id(s0[o2], order.id));
                        assert(side_has_id(s0, order.id));
                    }
                } else if i1 != k && i2 == k {
                    assert(s1[i1].orders@[j1] == s0[o1].orders@[j1]);
                    if s0[o1].orders@[j1].id == order.id {
                        assert(page_has_id(s0[o1], order.id));
                        assert(side_has_id(s0, order.id));
                    }
                } else if i1 != k && i2 != k {
                    assert(s1[i1].orders@[j1] == s0[o1].orders@[j1]);
                    assert(s1[i2].orders@[j2] == s0[o2].orders@[j2]);
                    assert(!(o1 == o2 && j1 == j2));
                }
            }
            assert forall|i: int| 0 <= i && i < (k as int) implies s1[i] == #[trigger] s0[i] by {}
            assert forall|i: int| (k as int) < i && i < s1.len() implies #[trigger] s1[i] == s0[i - 1] by {}
            assert forall|i: int| 0 <= i < s0.len() implies (#[trigger] s0[i]).price
                != order.price by {
                if i < k {
                    assert(price_before(sorted_as, s0[i].price, order.price));
                } else {
                    assert(price_before(sorted_as, order.price, s0[i].price));
                }
            }
            assert((k as int) <= s0.len() && s1.len() == s0.len() + 1 && s1[k as int].price
                == order.price && s1[k as int].orders@ == seq![order] && s1[k as int].amount
                == order.unfilled);
            assert(side_insert_rel(s0, s1, order));
        }
    }
}

/// No order id occurs twice within one page.
pub open spec fn page_ids_unique(p: OrderPage) -> bool {
    forall|j1: int, j2: int|
        0 <= j1 < p.orders@.len() && 0 <= j2 < p.orders@.len() && j1 != j2 ==> (
        #[trigger] p.orders@[j1]).id != (#[trigger] p.orders@[j2]).id
}

pub open spec fn page_has_order(p: OrderPage, o: Order) -> bool {
    exists|j: int| 0 <= j < p.orders@.len() && (#[trigger] p.orders@[j]) == o
}

/// The position of `order_id` inside one page, if it rests there.
fn page_find(p: &OrderPage, order_id: OrderId) -> (r: Option<usize>)
    ensures
        match r {
            Some(j) => (j as int) < p.orders@.len() && p.orders@[j as int].id == order_id,
            None => !page_has_id(*p, order_id),
        },
{
    let mut j: usize = 0;
    while j < p.orders.len()
        invariant
            j <= p.orders@.len(),
            forall|i: int| 0 <= i < j ==> (#[trigger] p.orders@[i]).id != order_id,
        decreases p.orders@.len() - j,
    {
        if p.orders[j].id == order_id {
            return Some(j);
        }
        j = j + 1;
    }
    None
}

/// The page and position of `order_id` on one side, if it rests there.
fn side_find(side: &Vec<OrderPage>, order_id: OrderId) -> (r: Option<(usize, usize)>)
    ensures
        match r {
            Some(kj) => (kj.0 as int) < side@.len() && (kj.1 as int)
                < side@[kj.0 as int].orders@.len() && side@[kj.0 as int].orders@[kj.1 as int].id
                == order_id,
            None => !side_has_id(side@, order_id),
        },
{
    let mut k: usize = 0;
    while k < side.len()
        invariant
            k <= side@.len(),
            forall|i: int| 0 <= i < k ==> !page_has_id(#[trigger] side@[i], order_id),
        decreases side@.len() - k,
    {
        match page_find(&side[k], order_id) {
            Some(j) => {
                return Some((k, j));
            },
            None => {},
        }
        k = k + 1;
    }
    None
}

/// Removes the order `order_id` from one side, dropping its page if
/// it was the only order there.
#[verifier::rlimit(100)]
fn side_remove(side: &mut Vec<OrderPage>, sorted_as: AskOrBid, order_id: OrderId) -> (r: Option<
    Order,
>)
    requires
        side_pages_wf(old(side)@, sorted_as),
    ensures
        side_pages_wf(final(side)@, sorted_as),
        match r {
            None => final(side)@ == old(side)@ && !side_has_id(old(side)@, order_id),
            Some(o) => o.id == order_id && side_has_order(old(side)@, o) && !side_has_id(
                final(side)@,
                order_id,
            ) && side_total(final(side)@) == side_total(old(side)@) - o.unfilled && (forall|
                id: OrderId,
            |
                id != order_id ==> (#[trigger] side_has_id(final(side)@, id) <==> side_has_id(
                    old(side)@,
                    id,
                ))) && (forall|o2: Order|
                o2.id != order_id ==> (#[trigger] side_has_order(final(side)@, o2)
                    <==> side_has_order(old(side)@, o2))),
        },
{
    let ghost s0 = side@;
    let loc = side_find(side, order_id);
    match loc {
        None => None,
        Some((k, j)) => {
            let o = side[k].orders[j];
            proof {
                assert(side_has_order(s0, o));
            }
            if side[k].orders.len() == 1 {
                let _dead = side.remove(k);
                proof {
                    let s1 = side@;
                    assert(s1 == s0.remove(k as int));
                    lemma_side_total_remove(s0, k as int);
                    let pg = s0[k as int];
                    assert(pg.orders@.drop_first() =~= Seq::<Order>::empty());
                    assert(sum_unfilled(pg.orders@) == pg.orders@[0].unfilled + sum_unfilled(
                        pg.orders@.drop_first(),
                    ));
                    assert(pg.amount == o.unfilled);
                    assert forall|i: int| 0 <= i < s1.len() implies page_wf(#[trigger] s1[i])
                        && s1[i] == (if i < k as int {
                        s0[i]
                    } else {
                        s0[i + 1]
                    }) by {}
                    assert forall|i1: int, i2: int| 0 <= i1 < i2 < s1.len() implies price_before(
                        sorted_as,
                        (#[trigger] s1[i1]).price,
                        (#[trigger] s1[i2]).price,
                    ) by {
                        let m1 = if i1 < k as int {
                            i1
                        } else {
                            i1 + 1
                        };
                        let m2 = if i2 < k as int {
                            i2
                        } else {
                            i2 + 1
                        };
                        assert(s1[i1] == s0[m1] && s1[i2] == s0[m2]);
                    }
                    assert forall|i1: int, j1: int, i2: int, j2: int|
                        0 <= i1 < s1.len() && 0 <= j1 < s1[i1].orders@.len() && 0 <= i2 < s1.len()
                            && 0 <= j2 < s1[i2].orders@.len() && !(i1 == i2 && j1 == j2) implies (
                    #[trigger] s1[i1].orders@[j1]).id != (#[trigger] s1[i2].orders@[j2]).id by {
                        let m1 = if i1 < k as int {
                            i1
                        } else {
                            i1 + 1
                        };
                        let m2 = if i2 < k as int {
                            i2
                        } else {
                            i2 + 1
                        };
                        assert(s1[i1].orders@[j1] == s0[m1].orders@[j1]);
                        assert(s1[i2].orders@[j2] == s0[m2].orders@[j2]);
                    }
                    assert forall|id: OrderId| id != order_id implies (#[trigger] side_has_id(
                        s1,
                        id,
                    ) <==> side_has_id(s0, id)) by {
                        if side_has_id(s1, id) {
                            let i = choose|i: int|
                                0 <= i < s1.len() && page_has_id(#[trigger] s1[i], id);
                            let m = if i < k as int {
                                i
                            } else {
                                i + 1
                            };
                            assert(page_has_id(s0[m], id));
                            assert(side_has_id(s0, id));
                        }
                        if side_has_id(s0, id) {
                            let i = choose|i: int|
                                0 <= i < s0.len() && page_has_id(#[trigger] s0[i], id);
                            if i == k as int {
                                let jj = choose|jj: int|
                                    0 <= jj < s0[i].orders@.len() && (#[trigger] s0[i].orders@[jj]).id
                                        == id;
                                assert(jj == 0);
                                assert(false);
                            } else {
                                let m = if i < k as int {
                                    i
                                } else {
                                    i - 1
                                };
                                assert(s1[m] == s0[i]);
                                assert(side_has_id(s1, id));
                            }
                        }
                    }
                    assert forall|o2: Order| o2.id != order_id implies (#[trigger] side_has_order(
                        s1,
                        o2,
                    ) <==> side_has_order(s0, o2)) by {
                        if side_has_order(s1, o2) {
                            let (i, jj) = choose|i: int, jj: int|
                                0 <= i < s1.len() && 0 <= jj < s1[i].orders@.len() && (
                                #[trigger] s1[i].orders@[jj]) == o2;
                            let m = if i < k as int {
                                i
                            } else {
                                i + 1
                            };
                            assert(s0[m].orders@[jj] == o2);
                            assert(side_has_order(s0, o2));
                        }
                        if side_has_order(s0, o2) {
                            let (i, jj) = choose|i: int, jj: int|
                                0 <= i < s0.len() && 0 <= jj < s0[i].orders@.len() && (
                                #[trigger] s0[i].orders@[jj]) == o2;
                            if i == k as int {
                                assert(jj == 0);
                                assert(false);
                            } else {
                                let m = if i < k as int {
                                    i
                                } else {
                                    i - 1
                                };
                                assert(s1[m].orders@[jj] == o2);
                                assert(side_has_order(s1, o2));
                            }
                        }
                    }
                    assert forall|id: OrderId| side_has_id(s1, id) implies id != order_id by {
                        let i = choose|i: int| 0 <= i < s1.len() && page_has_id(#[trigger] s1[i], id);
                        let jj = choose|jj: int|
                            0 <= jj < s1[i].orders@.len() && (#[trigger] s1[i].orders@[jj]).id == id;
                        let m = if i < k as int {
                            i
                        } else {
                            i + 1
                        };
                        assert(s1[i].orders@[jj] == s0[m].orders@[jj]);
                        assert(!(m == k as int && jj == 0));
                        assert(s0[m].orders@[jj].id != s0[k as int].orders@[0].id);
                    }
                }
                Some(o)
            } else {
                let ghost pg0 = side@[k as int];
                proof {
                    lemma_sum_unfilled_bound(pg0.orders@, j as int);
                    lemma_sum_unfilled_remove(pg0.orders@, j as int);
                }
                let pg = page_at_mut(side, k);
                let removed = pg.orders.remove(j);
                pg.amount = pg.amount - removed.unfilled;
                proof {
                    let s1 = side@;
                    let pg1 = s1[k as int];
                    assert(s1 == s0.update(k as int, pg1));
                    assert(pg1.orders@ == pg0.orders@.remove(j as int));
                    lemma_side_total_update(s0, k as int, pg1);
                    assert forall|jj: int| 0 <= jj < pg1.orders@.len() implies (
                    #[trigger] pg1.orders@[jj]).price == pg1.price && pg1.orders@[jj].unfilled
                        > 0 by {
                        let m = if jj < j as int {
                            jj
                        } else {
                            jj + 1
                        };
                        assert(pg1.orders@[jj] == pg0.orders@[m]);
                    }
                    assert(page_wf(pg1));
                    assert forall|i1: int, i2: int| 0 <= i1 < i2 < s1.len() implies price_before(
                        sorted_as,
                        (#[trigger] s1[i1]).price,
                        (#[trigger] s1[i2]).price,
                    ) by {
                        assert(s1[i1].price == s0[i1].price && s1[i2].price == s0[i2].price);
                    }
                    assert forall|i1: int, j1: int, i2: int, j2: int|
                        0 <= i1 < s1.len() && 0 <= j1 < s1[i1].orders@.len() && 0 <= i2 < s1.len()
                            && 0 <= j2 < s1[i2].orders@.len() && !(i1 == i2 && j1 == j2) implies (
                    #[trigger] s1[i1].orders@[j1]).id != (#[trigger] s1[i2].orders@[j2]).id by {
                        let m1 = if i1 != k as int || j1 < j as int {
                            j1
                        } else {
                            j1 + 1
                        };
                        let m2 = if i2 != k as int || j2 < j as int {
                            j2
                        } else {
                            j2 + 1
                        };
                        assert(s1[i1].orders@[j1] == s0[i1].orders@[m1]);
                        assert(s1[i2].orders@[j2] == s0[i2].orders@[m2]);
                        assert(!(i1 == i2 && m1 == m2));
                    }
                    assert forall|id: OrderId| id != order_id implies (#[trigger] side_has_id(
                        s1,
                        id,
                    ) <==> side_has_id(s0, id)) by {
                        if side_has_id(s1, id) {
                            let i = choose|i: int|
                                0 <= i < s1.len() && page_has_id(#[trigger] s1[i], id);
                            let jj = choose|jj: int|
                                0 <= jj < s1[i].orders@.len() && (#[trigger] s1[i].orders@[jj]).id
                                    == id;
                            let m = if i != k as int || jj < j as int {
                                jj
                            } else {
                                jj + 1
                            };
                            assert(s0[i].orders@[m].id == id);
                            assert(page_has_id(s0[i], id));
                            assert(side_has_id(s0, id));
                        }
                        if side_has_id(s0, id) {
                            let i = choose|i: int|
                                0 <= i < s0.len() && page_has_id(#[trigger] s0[i], id);
                            let jj = choose|jj: int|
                                0 <= jj < s0[i].orders@.len() && (#[trigger] s0[i].orders@[jj]).id
                                    == id;
                            if i == k as int {
                                assert(jj != j as int);
                                let m = if jj < j as int {
                                    jj
                                } else {
                                    jj - 1
                                };
                                assert(s1[i].orders@[m].id == id);
                                assert(page_has_id(s1[i], id));
                                assert(side_has_id(s1, id));
                            } else {
                                assert(s1[i] == s0[i]);
                                assert(side_has_id(s1, id));
                            }
                        }
                    }
                    assert forall|o2: Order| o2.id != order_id implies (#[trigger] side_has_order(
                        s1,
                        o2,
                    ) <==> side_has_order(s0, o2)) by {
                        if side_has_order(s1, o2) {
                            let (i, jj) = choose|i: int, jj: int|
                                0 <= i < s1.len() && 0 <= jj < s1[i].orders@.len() && (
                                #[trigger] s1[i].orders@[jj]) == o2;
                            let m = if i != k as int || jj < j as int {
                                jj
                            } else {
                                jj + 1
                            };
                            assert(s0[i].orders@[m] == o2);
                            assert(side_has_order(s0, o2));
                        }
                        if side_has_order(s0, o2) {
                            let (i, jj) = choose|i: int, jj: int|
                                0 <= i < s0.len() && 0 <= jj < s0[i].orders@.len() && (
                                #[trigger] s0[i].orders@[jj]) == o2;
                            if i == k as int {
                                assert(jj != j as int);
                                let m = if jj < j as int {
                                    jj
                                } else {
                                    jj - 1
                                };
                                assert(s1[i].orders@[m] == o2);
                                assert(side_has_order(s1, o2));
                            } else {
                                assert(s1[i].orders@[jj] == o2);
                                assert(side_has_order(s1, o2));
                            }
                        }
                    }
                    assert forall|id: OrderId| side_has_id(s1, id) implies id != order_id by {
                        let i = choose|i: int| 0 <= i < s1.len() && page_has_id(#[trigger] s1[i], id);
                        let jj = choose|jj: int|
                            0 <= jj < s1[i].orders@.len() && (#[trigger] s1[i].orders@[jj]).id == id;
                        let m = if i != k as int || jj < j as int {
                            jj
                        } else {
                            jj + 1
                        };
                        assert(s1[i].orders@[jj] == s0[i].orders@[m]);
                        assert(!(i == k as int && m == j as int));
                        assert(s0[i].orders@[m].id != s0[k as int].orders@[j as int].id);
                    }
                }
                Some(removed)
            }
        },
    }
}

pub proof fn lemma_sum_unfilled_nonneg(s: Seq<Order>)
    ensures
        sum_unfilled(s) >= 0,
    decreases s.len(),
{
    if s.len() > 0 {
        lemma_sum_unfilled_nonneg(s.drop_first());
    }
}

pub proof fn lemma_side_total_nonneg(s: Seq<OrderPage>)
    ensures
        side_total(s) >= 0,
    decreases s.len(),
{
    if s.len() > 0 {
        lemma_side_total_nonneg(s.drop_first());
    }
}

/// side_total splits around any index.
pub proof fn lemma_side_total_split(s: Seq<OrderPage>, k: int)
    requires
        0 <= k <= s.len(),
    ensures
        side_total(s) == side_total(s.subrange(0, k)) + side_total(s.subrange(k, s.len() as int)),
    decreases k,
{
    if k == 0 {
        assert(s.subrange(0, 0) =~= Seq::<OrderPage>::empty());
        assert(s.subrange(0, s.len() as int) =~= s);
    } else {
        assert(s.len() > 0);
        lemma_side_total_split(s.drop_first(), k - 1);
        assert(s.subrange(0, k).drop_first() =~= s.drop_first().subrange(0, k - 1));
        assert(s.subrange(k, s.len() as int) =~= s.drop_first().subrange(
            k - 1,
            s.drop_first().len() as int,
        ));
        assert(side_total(s.subrange(0, k)) == s[0].amount + side_total(
            s.subrange(0, k).drop_first(),
        ));
    }
}

pub proof fn lemma_side_total_drop_last(s: Seq<OrderPage>)
    requires
        s.len() > 0,
    ensures
        side_total(s) == side_total(s.drop_last()) + s.last().amount,
{
    lemma_side_total_split(s, s.len() - 1);
    assert(s.subrange(0, s.len() - 1) =~= s.drop_last());
    let tail = s.subrange(s.len() - 1, s.len() as int);
    assert(tail.len() == 1 && tail[0] == s.last());
    assert(tail.drop_first() =~= Seq::<OrderPage>::empty());
    assert(side_total(tail) == tail[0].amount + side_total(tail.drop_first()));
    assert(side_total(Seq::<OrderPage>::empty()) == 0);
}

/// Sum of unfilled splits around any index.
pub proof fn lemma_sum_unfilled_split(s: Seq<Order>, k: int)
    requires
        0 <= k <= s.len(),
    ensures
        sum_unfilled(s) == sum_unfilled(s.subrange(0, k)) + sum_unfilled(
            s.subrange(k, s.len() as int),
        ),
    decreases k,
{
    if k == 0 {
        assert(s.subrange(0, 0) =~= Seq::<Order>::empty());
        assert(s.subrange(0, s.len() as int) =~= s);
    } else {
        assert(s.len() > 0);
        lemma_sum_unfilled_split(s.drop_first(), k - 1);
        assert(s.subrange(0, k).drop_first() =~= s.drop_first().subrange(0, k - 1));
        assert(s.subrange(k, s.len() as int) =~= s.drop_first().subrange(
            k - 1,
            s.drop_first().len() as int,
        ));
        assert(sum_unfilled(s.subrange(0, k)) == s[0].unfilled + sum_unfilled(
            s.subrange(0, k).drop_first(),
        ));
    }
}

pub proof fn lemma_sum_unfilled_push(s: Seq<Order>, o: Order)
    ensures
        sum_unfilled(s.push(o)) == sum_unfilled(s) + o.unfilled,
{
    lemma_sum_unfilled_split(s.push(o), s.len() as int);
    assert(s.push(o).subrange(0, s.len() as int) =~= s);
    let tail = s.push(o).subrange(s.len() as int, s.len() as int + 1);
    assert(tail.len() == 1 && tail[0] == o);
    assert(tail.drop_first() =~= Seq::<Order>::empty());
    assert(sum_unfilled(tail) == tail[0].unfilled + sum_unfilled(tail.drop_first()));
    assert(sum_unfilled(Seq::<Order>::empty()) == 0);
}

/// Removing the order at position `j` lowers the sum by its unfilled.
pub proof fn lemma_sum_unfilled_remove(s: Seq<Order>, j: int)
    requires
        0 <= j < s.len(),
    ensures
        sum_unfilled(s.remove(j)) == sum_unfilled(s) - s[j].unfilled,
{
    lemma_sum_unfilled_split(s, j);
    lemma_sum_unfilled_split(s.remove(j), j);
    assert(s.remove(j).subrange(0, j) =~= s.subrange(0, j));
    assert(s.remove(j).subrange(j, s.remove(j).len() as int) =~= s.subrange(j + 1, s.len() as int));
    let tail = s.subrange(j, s.len() as int);
    assert(tail[0] == s[j]);
    assert(sum_unfilled(tail) == s[j].unfilled + sum_unfilled(tail.drop_first()));
    assert(tail.drop_first() =~= s.subrange(j + 1, s.len() as int));
}

/// Every single amount is at most the whole sum.
pub proof fn lemma_sum_unfilled_bound(s: Seq<Order>, j: int)
    requires
        0 <= j < s.len(),
    ensures
        s[j].unfilled <= sum_unfilled(s),
{
    lemma_sum_unfilled_remove(s, j);
    lemma_sum_unfilled_nonneg(s.remove(j));
}

/// side_total split into the part before `k`, the page at `k`, and
/// the part after.
pub proof fn lemma_side_total_decompose(s: Seq<OrderPage>, k: int)
    requires
        0 <= k < s.len(),
    ensures
        side_total(s) == side_total(s.subrange(0, k)) + s[k].amount + side_total(
            s.subrange(k + 1, s.len() as int),
        ),
{
    lemma_side_total_split(s, k);
    let tail = s.subrange(k, s.len() as int);
    assert(tail[0] == s[k]);
    assert(side_total(tail) == tail[0].amount + side_total(tail.drop_first()));
    assert(tail.drop_first() =~= s.subrange(k + 1, s.len() as int));
}

pub proof fn lemma_side_total_update(s: Seq<OrderPage>, k: int, p: OrderPage)
    requires
        0 <= k < s.len(),
    ensures
        side_total(s.update(k, p)) == side_total(s) - s[k].amount + p.amount,
{
    lemma_side_total_decompose(s, k);
    lemma_side_total_decompose(s.update(k, p), k);
    assert(s.update(k, p).subrange(0, k) =~= s.subrange(0, k));
    assert(s.update(k, p).subrange(k + 1, s.len() as int) =~= s.subrange(k + 1, s.len() as int));
}

pub proof fn lemma_side_total_insert(s: Seq<OrderPage>, k: int, p: OrderPage)
    requires
        0 <= k <= s.len(),
    ensures
        side_total(s.insert(k, p)) == side_total(s) + p.amount,
{
    let s1 = s.insert(k, p);
    lemma_side_total_decompose(s1, k);
    assert(s1.subrange(0, k) =~= s.subrange(0, k));
    assert(s1.subrange(k + 1, s1.len() as int) =~= s.subrange(k, s.len() as int));
    lemma_side_total_split(s, k);
}

pub proof fn lemma_side_total_remove(s: Seq<OrderPage>, k: int)
    requires
        0 <= k < s.len(),
    ensures
        side_total(s.remove(k)) == side_total(s) - s[k].amount,
{
    let s1 = s.remove(k);
    lemma_side_total_decompose(s, k);
    lemma_side_total_split(s1, k);
    assert(s1.subrange(0, k) =~= s.subrange(0, k));
    assert(s1.subrange(k, s1.len() as int) =~= s.subrange(k + 1, s.len() as int));
}

/// A side that holds no order id holds no page at all: every page is
/// non-empty, so its oldest order's id would be in the side.
pub proof fn lemma_no_ids_no_pages(s: Seq<OrderPage>, side: AskOrBid)
    requires
        side_pages_wf(s, side),
        forall|id: OrderId| !side_has_id(s, id),
    ensures
        s.len() == 0,
{
    if s.len() > 0 {
        assert(page_wf(s[0]));
        let id = s[0].orders@[0].id;
        assert(page_has_id(s[0], id));
        assert(side_has_id(s, id));
        assert(false);
    }
}

/// A side whose aggregate is zero holds no page: every page's
/// aggregate is the sum of positive unfilled amounts.
pub proof fn lemma_zero_total_no_pages(s: Seq<OrderPage>, side: AskOrBid)
    requires
        side_pages_wf(s, side),
        side_total(s) == 0,
    ensures
        s.len() == 0,
{
    if s.len() > 0 {
        assert(page_wf(s[0]));
        lemma_sum_unfilled_bound(s[0].orders@, 0);
        lemma_side_total_bound(s, 0);
        assert(false);
    }
}

pub proof fn lemma_side_total_push(s: Seq<OrderPage>, p: OrderPage)
    ensures
        side_total(s.push(p)) == side_total(s) + p.amount,
{
    lemma_side_total_drop_last(s.push(p));
    assert(s.push(p).drop_last() =~= s);
}

/// Taking the best (last) page off one side keeps it well formed and
/// splits its ids and orders off exactly.
pub(crate) fn pop_page(side: &mut Vec<OrderPage>, sorted_as: AskOrBid) -> (r: OrderPage)
    requires
        side_pages_wf(old(side)@, sorted_as),
        old(side)@.len() > 0,
    ensures
        final(side)@ == old(side)@.drop_last(),
        r == old(side)@.last(),
        page_wf(r),
        page_ids_unique(r),
        side_pages_wf(final(side)@, sorted_as),
        side_total(final(side)@) == side_total(old(side)@) - r.amount,
        forall|i: int|
            0 <= i < final(side)@.len() ==> price_before(
                sorted_as,
                (#[trigger] final(side)@[i]).price,
                r.price,
            ),
        forall|id: OrderId|
            #[trigger] side_has_id(old(side)@, id) <==> side_has_id(final(side)@, id)
                || page_has_id(r, id),
        forall|id: OrderId| #[trigger] page_has_id(r, id) ==> !side_has_id(final(side)@, id),
        forall|o: Order|
            #[trigger] side_has_order(old(side)@, o) <==> side_has_order(final(side)@, o)
                || page_has_order(r, o),
{
    let ghost s0 = side@;
    let r = match side.pop() {
        Some(p) => p,
        None => {
            proof {
                assert(false);
            }
            loop
                invariant
                    false,
                decreases 0int,
            {
            }
        },
    };
    proof {
        let s1 = side@;
        let n = s0.len() - 1;
        assert(s1 =~= s0.drop_last());
        lemma_side_total_drop_last(s0);
        assert forall|id: OrderId| #[trigger]
            side_has_id(s0, id) <==> side_has_id(s1, id) || page_has_id(r, id) by {
            if side_has_id(s0, id) {
                let i = choose|i: int| 0 <= i < s0.len() && page_has_id(#[trigger] s0[i], id);
                if i == n {
                    assert(page_has_id(r, id));
                } else {
                    assert(s1[i] == s0[i]);
                    assert(side_has_id(s1, id));
                }
            }
            if side_has_id(s1, id) {
                let i = choose|i: int| 0 <= i < s1.len() && page_has_id(#[trigger] s1[i], id);
                assert(s0[i] == s1[i]);
                assert(side_has_id(s0, id));
            }
            if page_has_id(r, id) {
                assert(page_has_id(s0[n], id));
                assert(side_has_id(s0, id));
            }
        }
        assert forall|id: OrderId| #[trigger]
            page_has_id(r, id) implies !side_has_id(s1, id) by {
            let j = choose|j: int| 0 <= j < r.orders@.len() && (#[trigger] r.orders@[j]).id == id;
            if side_has_id(s1, id) {
                let i = choose|i: int| 0 <= i < s1.len() && page_has_id(#[trigger] s1[i], id);
                let jj = choose|jj: int|
                    0 <= jj < s1[i].orders@.len() && (#[trigger] s1[i].orders@[jj]).id == id;
                assert(s0[i].orders@[jj].id == s0[n].orders@[j].id);
                assert(false);
            }
        }
        assert forall|o: Order| #[trigger]
            side_has_order(s0, o) <==> side_has_order(s1, o) || page_has_order(r, o) by {
            if side_has_order(s0, o) {
                let (i, j) = choose|i: int, j: int|
                    0 <= i < s0.len() && 0 <= j < s0[i].orders@.len() && (#[trigger] s0[i].orders@[j])
                        == o;
                if i == n {
                    assert(page_has_order(r, o));
                } else {
                    assert(s1[i].orders@[j] == o);
                    assert(side_has_order(s1, o));
                }
            }
            if side_has_order(s1, o) {
                let (i, j) = choose|i: int, j: int|
                    0 <= i < s1.len() && 0 <= j < s1[i].orders@.len() && (#[trigger] s1[i].orders@[j])
                        == o;
                assert(s0[i].orders@[j] == o);
                assert(side_has_order(s0, o));
            }
            if page_has_order(r, o) {
                let j = choose|j: int| 0 <= j < r.orders@.len() && (#[trigger] r.orders@[j]) == o;
                assert(s0[n].orders@[j] == o);
                assert(side_has_order(s0, o));
            }
        }
    }
    r
}

/// Puts a page back as the new best (last) page of one side.
pub(crate) fn push_page(side: &mut Vec<OrderPage>, page: OrderPage, sorted_as: AskOrBid)
    requires
        side_pages_wf(old(side)@, sorted_as),
        page_wf(page),
        page_ids_unique(page),
        forall|i: int|
            0 <= i < old(side)@.len() ==> price_before(
                sorted_as,
                (#[trigger] old(side)@[i]).price,
                page.price,
            ),
        forall|id: OrderId| #[trigger] page_has_id(page, id) ==> !side_has_id(old(side)@, id),
        side_total(old(side)@) + page.amount <= u128::MAX,
    ensures
        final(side)@ == old(side)@.push(page),
        side_pages_wf(final(side)@, sorted_as),
        side_total(final(side)@) == side_total(old(side)@) + page.amount,
        forall|id: OrderId|
            #[trigger] side_has_id(final(side)@, id) <==> side_has_id(old(side)@, id)
                || page_has_id(page, id),
        forall|o: Order|
            #[trigger] side_has_order(final(side)@, o) <==> side_has_order(old(side)@, o)
                || page_has_order(page, o),
{
    let ghost s0 = side@;
    side.push(page);
    proof {
        let s1 = side@;
        let n = s0.len() as int;
        lemma_side_total_push(s0, page);
        assert forall|i1: int, i2: int| 0 <= i1 < i2 < s1.len() implies price_before(
            sorted_as,
            (#[trigger] s1[i1]).price,
            (#[trigger] s1[i2]).price,
        ) by {
            if i2 < n {
                assert(s1[i1] == s0[i1] && s1[i2] == s0[i2]);
            } else {
                assert(s1[i1] == s0[i1] && s1[i2] == page);
            }
        }
        assert forall|i1: int, j1: int, i2: int, j2: int|
            0 <= i1 < s1.len() && 0 <= j1 < s1[i1].orders@.len() && 0 <= i2 < s1.len() && 0 <= j2
                < s1[i2].orders@.len() && !(i1 == i2 && j1 == j2) implies (
        #[trigger] s1[i1].orders@[j1]).id != (#[trigger] s1[i2].orders@[j2]).id by {
            if i1 == n && i2 == n {
                assert(page.orders@[j1].id != page.orders@[j2].id);
            } else if i1 == n {
                assert(s1[i2].orders@[j2] == s0[i2].orders@[j2]);
                if s0[i2].orders@[j2].id == page.orders@[j1].id {
                    assert(page_has_id(page, page.orders@[j1].id));
                    assert(page_has_id(s0[i2], page.orders@[j1].id));
                    assert(side_has_id(s0, page.orders@[j1].id));
                }
            } else if i2 == n {
                assert(s1[i1].orders@[j1] == s0[i1].orders@[j1]);
                if s0[i1].orders@[j1].id == page.orders@[j2].id {
                    assert(page_has_id(page, page.orders@[j2].id));
                    assert(page_has_id(s0[i1], page.orders@[j2].id));
                    assert(side_has_id(s0, page.orders@[j2].id));
                }
            } else {
                assert(s1[i1].orders@[j1] == s0[i1].orders@[j1]);
                assert(s1[i2].orders@[j2] == s0[i2].orders@[j2]);
            }
        }
        assert forall|id: OrderId| #[trigger]
            side_has_id(s1, id) <==> side_has_id(s0, id) || page_has_id(page, id) by {
            if side_has_id(s1, id) {
                let i = choose|i: int| 0 <= i < s1.len() && page_has_id(#[trigger] s1[i], id);
                if i == n {
                    assert(page_has_id(page, id));
                } else {
                    assert(s0[i] == s1[i]);
                    assert(side_has_id(s0, id));
                }
            }
            if side_has_id(s0, id) {
                let i = choose|i: int| 0 <= i < s0.len() && page_has_id(#[trigger] s0[i], id);
                assert(s1[i] == s0[i]);
                assert(side_has_id(s1, id));
            }
            if page_has_id(page, id) {
                assert(page_has_id(s1[n], id));
                assert(side_has_id(s1, id));
            }
        }
        assert forall|o: Order| #[trigger]
            side_has_order(s1, o) <==> side_has_order(s0, o) || page_has_order(page, o) by {
            if side_has_order(s1, o) {
                let (i, j) = choose|i: int, j: int|
                    0 <= i < s1.len() && 0 <= j < s1[i].orders@.len() && (#[trigger] s1[i].orders@[j])
                        == o;
                if i == n {
                    assert(page_has_order(page, o));
                } else {
                    assert(s0[i].orders@[j] == o);
                    assert(side_has_order(s0, o));
                }
            }
            if side_has_order(s0, o) {
                let (i, j) = choose|i: int, j: int|
                    0 <= i < s0.len() && 0 <= j < s0[i].orders@.len() && (#[trigger] s0[i].orders@[j])
                        == o;
                assert(s1[i].orders@[j] == o);
                assert(side_has_order(s1, o));
            }
            if page_has_order(page, o) {
                let j = choose|j: int| 0 <= j < page.orders@.len() && (#[trigger] page.orders@[j]) == o;
                assert(s1[n].orders@[j] == o);
                assert(side_has_order(s1, o));
            }
        }
    }
}

pub proof fn lemma_side_total_bound(s: Seq<OrderPage>, k: int)
    requires
        0 <= k < s.len(),
    ensures
        s[k].amount <= side_total(s),
{
    lemma_side_total_split(s, k);
    lemma_side_total_nonneg(s.subrange(0, k));
    let tail = s.subrange(k, s.len() as int);
    assert(tail[0] == s[k]);
    assert(side_total(tail) == s[k].amount + side_total(tail.drop_first()));
    lemma_side_total_nonneg(tail.drop_first());
}

} // verus!
