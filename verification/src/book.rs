//! The per-market order book: two priority-ordered sides of Active orders.
//!
//! Bids are kept best-first by descending price, asks by ascending price;
//! ties on price go to the earlier `created_at`, and ties on both to the
//! smaller `order_id`. The ordering is strict and total over orders with
//! distinct ids, which makes matching deterministic.

use vstd::prelude::*;

verus! {

use crate::errors::CLOBError;
use crate::order::{Order, OrderStatus, Side, crosses};

/// Strict priority of `a` over `b` on the bid side: higher price first,
/// then earlier time, then smaller id.
pub open spec fn bid_prior(a: Order, b: Order) -> bool {
    ||| a.price > b.price
    ||| (a.price == b.price && a.created_at < b.created_at)
    ||| (a.price == b.price && a.created_at == b.created_at && a.order_id < b.order_id)
}

/// Strict priority of `a` over `b` on the ask side: lower price first,
/// then earlier time, then smaller id.
pub open spec fn ask_prior(a: Order, b: Order) -> bool {
    ||| a.price < b.price
    ||| (a.price == b.price && a.created_at < b.created_at)
    ||| (a.price == b.price && a.created_at == b.created_at && a.order_id < b.order_id)
}

/// Whether some order of `s` carries the id `order_id`.
pub open spec fn has_id(s: Seq<Order>, order_id: u64) -> bool {
    exists|i: int| 0 <= i < s.len() && (#[trigger] s[i]).order_id == order_id
}

/// The book of one market's Active orders, both sides kept best-first.
pub struct OrderBook {
    pub bids: Vec<Order>,
    pub asks: Vec<Order>,
}

impl OrderBook {
    /// Both sides are strictly sorted by their priority order.
    pub open spec fn sorted(self) -> bool {
        &&& forall|i: int, j: int|
            0 <= i < j < self.bids@.len() ==> bid_prior(self.bids@[i], self.bids@[j])
        &&& forall|i: int, j: int|
            0 <= i < j < self.asks@.len() ==> ask_prior(self.asks@[i], self.asks@[j])
    }

    /// Every order rests on its proper side, is Active and well formed, and
    /// belongs to the market `market_id`.
    pub open spec fn for_market(self, market_id: u64) -> bool {
        &&& forall|i: int|
            0 <= i < self.bids@.len() ==> ((#[trigger] self.bids@[i]).wf()
                && self.bids@[i].status == OrderStatus::Active && self.bids@[i].side == Side::Buy
                && self.bids@[i].market_id == market_id)
        &&& forall|i: int|
            0 <= i < self.asks@.len() ==> ((#[trigger] self.asks@[i]).wf()
                && self.asks@[i].status == OrderStatus::Active && self.asks@[i].side == Side::Sell
                && self.asks@[i].market_id == market_id)
    }

    /// No two orders of the book, across both sides, share an id.
    pub open spec fn ids_unique(self) -> bool {
        &&& forall|i: int, j: int|
            0 <= i < j < self.bids@.len() ==> (#[trigger] self.bids@[i]).order_id != (
            #[trigger] self.bids@[j]).order_id
        &&& forall|i: int, j: int|
            0 <= i < j < self.asks@.len() ==> (#[trigger] self.asks@[i]).order_id != (
            #[trigger] self.asks@[j]).order_id
        &&& forall|i: int, j: int|
            0 <= i < self.bids@.len() && 0 <= j < self.asks@.len() ==> (
            #[trigger] self.bids@[i]).order_id != (#[trigger] self.asks@[j]).order_id
    }

    /// Well-formedness of the whole book for the market `market_id`.
    pub open spec fn wf(self, market_id: u64) -> bool {
        &&& self.sorted()
        &&& self.for_market(market_id)
        &&& self.ids_unique()
    }

    /// Whether an order with the id rests anywhere in the book.
    pub open spec fn has_order(self, order_id: u64) -> bool {
        has_id(self.bids@, order_id) || has_id(self.asks@, order_id)
    }

    /// Whether some resting order carries this id but an owner other than
    /// `requester`.
    pub open spec fn owner_mismatch(self, order_id: u64, requester: u64) -> bool {
        ||| exists|i: int|
            0 <= i < self.bids@.len() && (#[trigger] self.bids@[i]).order_id == order_id
                && self.bids@[i].owner != requester
        ||| exists|i: int|
            0 <= i < self.asks@.len() && (#[trigger] self.asks@[i]).order_id == order_id
                && self.asks@[i].owner != requester
    }

    /// Every order in the book was created at or before `t`.
    pub open spec fn times_below(self, t: u64) -> bool {
        &&& forall|i: int| 0 <= i < self.bids@.len() ==> (#[trigger] self.bids@[i]).created_at <= t
        &&& forall|i: int| 0 <= i < self.asks@.len() ==> (#[trigger] self.asks@[i]).created_at <= t
    }

    /// Every id in the book is below `n`.
    pub open spec fn ids_below(self, n: u64) -> bool {
        &&& forall|i: int| 0 <= i < self.bids@.len() ==> (#[trigger] self.bids@[i]).order_id < n
        &&& forall|i: int| 0 <= i < self.asks@.len() ==> (#[trigger] self.asks@[i]).order_id < n
    }

    /// Whether the opposite side's best price crosses an incoming order's
    /// limit.
    pub open spec fn spec_crossable(self, incoming_side: Side, incoming_price: u64) -> bool {
        match incoming_side {
            Side::Buy => self.asks@.len() > 0 && crosses(
                Side::Buy,
                incoming_price,
                self.asks@[0].price,
            ),
            Side::Sell => self.bids@.len() > 0 && crosses(
                Side::Sell,
                incoming_price,
                self.bids@[0].price,
            ),
        }
    }

    /// An empty book.
    pub fn new() -> (r: OrderBook)
        ensures
            r.bids@.len() == 0,
            r.asks@.len() == 0,
            forall|market_id: u64| r.wf(market_id),
    {
        OrderBook { bids: Vec::new(), asks: Vec::new() }
    }

    /// The top-priority bid: the order every other bid yields to.
    pub fn best_bid(&self) -> (r: Option<Order>)
        requires
            self.sorted(),
        ensures
            r is Some <==> self.bids@.len() > 0,
            r matches Some(o) ==> o == self.bids@[0] && forall|i: int|
                1 <= i < self.bids@.len() ==> bid_prior(o, #[trigger] self.bids@[i]),
    {
        if self.bids.len() > 0 {
            Some(self.bids[0])
        } else {
            None
        }
    }

    /// The top-priority ask: the order every other ask yields to.
    pub fn best_ask(&self) -> (r: Option<Order>)
        requires
            self.sorted(),
        ensures
            r is Some <==> self.asks@.len() > 0,
            r matches Some(o) ==> o == self.asks@[0] && forall|i: int|
                1 <= i < self.asks@.len() ==> ask_prior(o, #[trigger] self.asks@[i]),
    {
        if self.asks.len() > 0 {
            Some(self.asks[0])
        } else {
            None
        }
    }

    /// Whether the opposite side's best price crosses the incoming limit.
    pub fn peek_crossable(&self, incoming_side: Side, incoming_price: u64) -> (r: bool)
        ensures
            r == self.spec_crossable(incoming_side, incoming_price),
    {
        match incoming_side {
            Side::Buy => self.asks.len() > 0 && self.asks[0].price <= incoming_price,
            Side::Sell => self.bids.len() > 0 && self.bids[0].price >= incoming_price,
        }
    }

    /// Where the order with `order_id` rests: its side and position, if any.
    pub fn position_of(&self, order_id: u64) -> (r: Option<(bool, usize)>)
        ensures
            match r {
                Some((is_bid, i)) => if is_bid {
                    i < self.bids@.len() && self.bids@[i as int].order_id == order_id
                } else {
                    i < self.asks@.len() && self.asks@[i as int].order_id == order_id
                },
                None => !self.has_order(order_id),
            },
    {
        let mut i: usize = 0;
        while i < self.bids.len()
            invariant
                i <= self.bids@.len(),
                forall|j: int| 0 <= j < i ==> (#[trigger] self.bids@[j]).order_id != order_id,
            decreases self.bids@.len() - i,
        {
            if self.bids[i].order_id == order_id {
                return Some((true, i));
            }
            i = i + 1;
        }
        let mut k: usize = 0;
        while k < self.asks.len()
            invariant
                k <= self.asks@.len(),
                forall|j: int| 0 <= j < k ==> (#[trigger] self.asks@[j]).order_id != order_id,
                forall|j: int| 0 <= j < self.bids@.len() ==> (#[trigger] self.bids@[j]).order_id
                    != order_id,
            decreases self.asks@.len() - k,
        {
            if self.asks[k].order_id == order_id {
                return Some((false, k));
            }
            k = k + 1;
        }
        None
    }

    /// Adds an Active order at its priority position on its side; fails
    /// with `DuplicateOrder`, changing nothing, when the id is already in
    /// the book.
    #[verifier::rlimit(50)]
    pub fn insert(&mut self, order: Order) -> (r: Result<(), CLOBError>)
        requires
            old(self).wf(order.market_id),
            order.wf(),
            order.status == OrderStatus::Active,
        ensures
            final(self).wf(order.market_id),
            r is Ok <==> !old(self).has_order(order.order_id),
            r is Ok ==> final(self).has_order(order.order_id),
            forall|t: u64|
                old(self).times_below(t) && order.created_at <= t ==> #[trigger] final(self).times_below(t),
            forall|id: u64|
                #[trigger] final(self).has_order(id) ==> (old(self).has_order(id) || id
                    == order.order_id),
            r is Err ==> *final(self) == *old(self) && r == Err::<(), CLOBError>(
                CLOBError::DuplicateOrder,
            ),
            r is Ok ==> match order.side {
                Side::Buy => final(self).asks@ == old(self).asks@ && exists|k: int|
                    0 <= k <= old(self).bids@.len() && final(self).bids@ == old(self).bids@.insert(k, order),
                Side::Sell => final(self).bids@ == old(self).bids@ && exists|k: int|
                    0 <= k <= old(self).asks@.len() && final(self).asks@ == old(self).asks@.insert(k, order),
            },
    {
        if self.position_of(order.order_id).is_some() {
            return Err(CLOBError::DuplicateOrder);
        }
        let ghost mid = order.market_id;
        match order.side {
            Side::Buy => {
                let mut k: usize = 0;
                while k < self.bids.len() && !exec_bid_prior(&order, &self.bids[k])
                    invariant
                        k <= self.bids@.len(),
                        forall|j: int| 0 <= j < k ==> !bid_prior(order, #[trigger] self.bids@[j]),
                    decreases self.bids@.len() - k,
                {
                    k = k + 1;
                }
                let ghost s0 = self.bids@;
                proof {
                    assert forall|j: int| 0 <= j < k implies bid_prior(#[trigger] s0[j], order) by {
                        assert(s0[j].order_id != order.order_id);
                    }
                }
                let ghost prior_at_k = k < s0.len() && bid_prior(order, s0[k as int]);
                self.bids.insert(k, order);
                proof {
                    s0.insert_ensures(k as int, order);
                    assert(self.bids@ == s0.insert(k as int, order));
                    assert forall|i: int|
                        0 <= i < self.bids@.len() implies #[trigger] self.bids@[i] == (if i < k {
                        s0[i]
                    } else if i == k {
                        order
                    } else {
                        s0[i - 1]
                    }) by {
                        if i > k {
                            assert(s0.insert(k as int, order)[(i - 1) + 1] == s0[i - 1]);
                        }
                    }
                    assert forall|i: int, j: int|
                        0 <= i < j < self.bids@.len() implies bid_prior(
                        self.bids@[i],
                        self.bids@[j],
                    ) by {
                        if j == k {
                            assert(bid_prior(s0[i], order));
                        } else if j > k && i == k {
                            assert(prior_at_k);
                            if j - 1 > k {
                                assert(bid_prior(s0[k as int], s0[j - 1]));
                            }
                        }
                    }
                    assert(self.bids@[k as int] == order);
                    assert(has_id(self.bids@, order.order_id));
                    assert forall|id: u64|
                        #[trigger] self.has_order(id) implies (old(self).has_order(id) || id
                            == order.order_id) by {
                        if has_id(self.bids@, id) && id != order.order_id {
                            let j = choose|j: int|
                                0 <= j < self.bids@.len() && (
                                #[trigger] self.bids@[j]).order_id == id;
                            if j < k {
                                assert(s0[j].order_id == id);
                            } else {
                                assert(s0[j - 1].order_id == id);
                            }
                            assert(has_id(s0, id));
                        }
                    }
                    assert forall|tb: u64|
                        old(self).times_below(tb) && order.created_at <= tb implies #[trigger] self.times_below(tb) by {
                        assert forall|i: int|
                            0 <= i < self.bids@.len() implies (
                            #[trigger] self.bids@[i]).created_at <= tb by {
                            if i > k {
                                assert(s0.insert(k as int, order)[(i - 1) + 1] == s0[i - 1]);
                            }
                        }
                    }
                }
                Ok(())
            },
            Side::Sell => {
                let mut k: usize = 0;
                while k < self.asks.len() && !exec_ask_prior(&order, &self.asks[k])
                    invariant
                        k <= self.asks@.len(),
                        forall|j: int| 0 <= j < k ==> !ask_prior(order, #[trigger] self.asks@[j]),
                    decreases self.asks@.len() - k,
                {
                    k = k + 1;
                }
                let ghost s0 = self.asks@;
                proof {
                    assert forall|j: int| 0 <= j < k implies ask_prior(#[trigger] s0[j], order) by {
                        assert(s0[j].order_id != order.order_id);
                    }
                }
                let ghost prior_at_k = k < s0.len() && ask_prior(order, s0[k as int]);
                self.asks.insert(k, order);
                proof {
                    s0.insert_ensures(k as int, order);
                    assert(self.asks@ == s0.insert(k as int, order));
                    assert forall|i: int|
                        0 <= i < self.asks@.len() implies #[trigger] self.asks@[i] == (if i < k {
                        s0[i]
                    } else if i == k {
                        order
                    } else {
                        s0[i - 1]
                    }) by {
                        if i > k {
                            assert(s0.insert(k as int, order)[(i - 1) + 1] == s0[i - 1]);
                        }
                    }
                    assert forall|i: int, j: int|
                        0 <= i < j < self.asks@.len() implies ask_prior(
                        self.asks@[i],
                        self.asks@[j],
                    ) by {
                        if j == k {
                            assert(ask_prior(s0[i], order));
                        } else if j > k && i == k {
                            assert(prior_at_k);
                            if j - 1 > k {
                                assert(ask_prior(s0[k as int], s0[j - 1]));
                            }
                        }
                    }
                    assert(self.asks@[k as int] == order);
                    assert(has_id(self.asks@, order.order_id));
                    assert forall|id: u64|
                        #[trigger] self.has_order(id) implies (old(self).has_order(id) || id
                            == order.order_id) by {
                        if has_id(self.asks@, id) && id != order.order_id {
                            let j = choose|j: int|
                                0 <= j < self.asks@.len() && (
                                #[trigger] self.asks@[j]).order_id == id;
                            if j < k {
                                assert(s0[j].order_id == id);
                            } else {
                                assert(s0[j - 1].order_id == id);
                            }
                            assert(has_id(s0, id));
                        }
                    }
                    assert forall|tb: u64|
                        old(self).times_below(tb) && order.created_at <= tb implies #[trigger] self.times_below(tb) by {
                        assert forall|i: int|
                            0 <= i < self.asks@.len() implies (
                            #[trigger] self.asks@[i]).created_at <= tb by {
                            if i > k {
                                assert(s0.insert(k as int, order)[(i - 1) + 1] == s0[i - 1]);
                            }
                        }
                    }
                }
                Ok(())
            },
        }
    }

    /// Removes and returns the top-priority bid.
    pub fn pop_best_bid(&mut self) -> (r: Order)
        requires
            old(self).bids@.len() > 0,
        ensures
            r == old(self).bids@[0],
            final(self).bids@ == old(self).bids@.drop_first(),
            final(self).asks@ == old(self).asks@,
            forall|market_id: u64|
                old(self).wf(market_id) ==> #[trigger] final(self).wf(market_id),
            forall|id: u64| #[trigger] final(self).has_order(id) ==> old(self).has_order(id),
            forall|t: u64| old(self).times_below(t) ==> #[trigger] final(self).times_below(t),
    {
        let ghost s0 = self.bids@;
        let o = self.bids.remove(0);
        proof {
            s0.remove_ensures(0);
            assert(self.bids@ == s0.remove(0));
            assert(s0.remove(0) =~= s0.drop_first());
            assert forall|id: u64| #[trigger] self.has_order(id) implies old(self).has_order(id) by {
                if has_id(self.bids@, id) {
                    let j = choose|j: int|
                        0 <= j < self.bids@.len() && (#[trigger] self.bids@[j]).order_id == id;
                    assert(s0[j + 1] == self.bids@[j]);
                }
            }
            assert forall|t: u64| old(self).times_below(t) implies #[trigger] self.times_below(
                t,
            ) by {
                assert forall|j: int|
                    0 <= j < self.bids@.len() implies (#[trigger] self.bids@[j]).created_at
                    <= t by {
                    assert(s0[j + 1] == self.bids@[j]);
                }
            }
        }
        o
    }

    /// Removes and returns the top-priority ask.
    pub fn pop_best_ask(&mut self) -> (r: Order)
        requires
            old(self).asks@.len() > 0,
        ensures
            r == old(self).asks@[0],
            final(self).asks@ == old(self).asks@.drop_first(),
            final(self).bids@ == old(self).bids@,
            forall|market_id: u64|
                old(self).wf(market_id) ==> #[trigger] final(self).wf(market_id),
            forall|id: u64| #[trigger] final(self).has_order(id) ==> old(self).has_order(id),
            forall|t: u64| old(self).times_below(t) ==> #[trigger] final(self).times_below(t),
    {
        let ghost s0 = self.asks@;
        let o = self.asks.remove(0);
        proof {
            s0.remove_ensures(0);
            assert(self.asks@ == s0.remove(0));
            assert(s0.remove(0) =~= s0.drop_first());
            assert forall|id: u64| #[trigger] self.has_order(id) implies old(self).has_order(id) by {
                if has_id(self.asks@, id) {
                    let j = choose|j: int|
                        0 <= j < self.asks@.len() && (#[trigger] self.asks@[j]).order_id == id;
                    assert(s0[j + 1] == self.asks@[j]);
                }
            }
            assert forall|t: u64| old(self).times_below(t) implies #[trigger] self.times_below(
                t,
            ) by {
                assert forall|j: int|
                    0 <= j < self.asks@.len() implies (#[trigger] self.asks@[j]).created_at
                    <= t by {
                    assert(s0[j + 1] == self.asks@[j]);
                }
            }
        }
        o
    }

    /// Replaces the top-priority bid with a copy whose fill has advanced;
    /// identity and priority fields must be unchanged.
    pub fn set_best_bid(&mut self, o: Order)
        requires
            old(self).bids@.len() > 0,
            o.wf(),
            o.status == OrderStatus::Active,
            o.price == old(self).bids@[0].price,
            o.created_at == old(self).bids@[0].created_at,
            o.order_id == old(self).bids@[0].order_id,
            o.side == old(self).bids@[0].side,
            o.market_id == old(self).bids@[0].market_id,
        ensures
            final(self).bids@ == old(self).bids@.update(0, o),
            final(self).asks@ == old(self).asks@,
            forall|market_id: u64|
                old(self).wf(market_id) ==> #[trigger] final(self).wf(market_id),
            forall|id: u64| #[trigger] final(self).has_order(id) ==> old(self).has_order(id),
            forall|t: u64| old(self).times_below(t) ==> #[trigger] final(self).times_below(t),
    {
        let ghost s0 = self.bids@;
        self.bids.set(0, o);
        proof {
            assert forall|market_id: u64|
                old(self).wf(market_id) implies #[trigger] self.wf(market_id) by {
                if old(self).wf(market_id) {
                    assert forall|i: int, j: int|
                        0 <= i < j < self.bids@.len() implies bid_prior(
                        self.bids@[i],
                        self.bids@[j],
                    ) by {
                        assert(s0[j] == self.bids@[j]);
                        if i == 0 {
                            assert(bid_prior(s0[0], s0[j]));
                        } else {
                            assert(s0[i] == self.bids@[i]);
                        }
                    }
                    assert forall|i: int|
                        0 <= i < self.bids@.len() implies ((#[trigger] self.bids@[i]).wf()
                        && self.bids@[i].status == OrderStatus::Active
                        && self.bids@[i].side == old(self).bids@[i].side
                        && self.bids@[i].market_id == market_id) by {
                        if i != 0 {
                            assert(s0[i] == self.bids@[i]);
                        }
                    }
                }
            }
            assert forall|id: u64| #[trigger] self.has_order(id) implies old(self).has_order(id) by {
                if has_id(self.bids@, id) {
                    let j = choose|j: int|
                        0 <= j < self.bids@.len() && (#[trigger] self.bids@[j]).order_id == id;
                    assert(old(self).bids@[j].order_id == id);
                }
            }
            assert forall|t: u64| old(self).times_below(t) implies #[trigger] self.times_below(
                t,
            ) by {
                assert forall|j: int|
                    0 <= j < self.bids@.len() implies (#[trigger] self.bids@[j]).created_at
                    <= t by {
                    if j != 0 {
                        assert(s0[j] == self.bids@[j]);
                    }
                }
            }
        }
    }

    /// Replaces the top-priority ask with a copy whose fill has advanced;
    /// identity and priority fields must be unchanged.
    pub fn set_best_ask(&mut self, o: Order)
        requires
            old(self).asks@.len() > 0,
            o.wf(),
            o.status == OrderStatus::Active,
            o.price == old(self).asks@[0].price,
            o.created_at == old(self).asks@[0].created_at,
            o.order_id == old(self).asks@[0].order_id,
            o.side == old(self).asks@[0].side,
            o.market_id == old(self).asks@[0].market_id,
        ensures
            final(self).asks@ == old(self).asks@.update(0, o),
            final(self).bids@ == old(self).bids@,
            forall|market_id: u64|
                old(self).wf(market_id) ==> #[trigger] final(self).wf(market_id),
            forall|id: u64| #[trigger] final(self).has_order(id) ==> old(self).has_order(id),
            forall|t: u64| old(self).times_below(t) ==> #[trigger] final(self).times_below(t),
    {
        let ghost s0 = self.asks@;
        self.asks.set(0, o);
        proof {
            assert forall|market_id: u64|
                old(self).wf(market_id) implies #[trigger] self.wf(market_id) by {
                if old(self).wf(market_id) {
                    assert forall|i: int, j: int|
                        0 <= i < j < self.asks@.len() implies ask_prior(
                        self.asks@[i],
                        self.asks@[j],
                    ) by {
                        assert(s0[j] == self.asks@[j]);
                        if i == 0 {
                            assert(ask_prior(s0[0], s0[j]));
                        } else {
                            assert(s0[i] == self.asks@[i]);
                        }
                    }
                    assert forall|i: int|
                        0 <= i < self.asks@.len() implies ((#[trigger] self.asks@[i]).wf()
                        && self.asks@[i].status == OrderStatus::Active
                        && self.asks@[i].side == old(self).asks@[i].side
                        && self.asks@[i].market_id == market_id) by {
                        if i != 0 {
                            assert(s0[i] == self.asks@[i]);
                        }
                    }
                }
            }
            assert forall|id: u64| #[trigger] self.has_order(id) implies old(self).has_order(id) by {
                if has_id(self.asks@, id) {
                    let j = choose|j: int|
                        0 <= j < self.asks@.len() && (#[trigger] self.asks@[j]).order_id == id;
                    assert(old(self).asks@[j].order_id == id);
                }
            }
            assert forall|t: u64| old(self).times_below(t) implies #[trigger] self.times_below(
                t,
            ) by {
                assert forall|j: int|
                    0 <= j < self.asks@.len() implies (#[trigger] self.asks@[j]).created_at
                    <= t by {
                    if j != 0 {
                        assert(s0[j] == self.asks@[j]);
                    }
                }
            }
        }
    }

    /// Removes the order with `order_id` from the book; fails with
    /// `NotFound`, changing nothing, when no such order rests here.
    pub fn remove(&mut self, order_id: u64) -> (r: Result<Order, CLOBError>)
        ensures
            forall|market_id: u64|
                old(self).wf(market_id) ==> #[trigger] final(self).wf(market_id),
            r is Ok <==> old(self).has_order(order_id),
            r is Err ==> *final(self) == *old(self) && r == Err::<Order, CLOBError>(
                CLOBError::NotFound,
            ),
            r matches Ok(o) ==> o.order_id == order_id && ((exists|i: int|
                0 <= i < old(self).bids@.len() && old(self).bids@[i] == o && final(self).bids@ == old(self).bids@.remove(i) && final(self).asks@ == old(self).asks@)
                || (exists|i: int|
                0 <= i < old(self).asks@.len() && old(self).asks@[i] == o && final(self).asks@ == old(self).asks@.remove(i) && final(self).bids@ == old(self).bids@)),
    {
        match self.position_of(order_id) {
            None => Err(CLOBError::NotFound),
            Some((is_bid, i)) => {
                if is_bid {
                    let ghost s0 = self.bids@;
                    let o = self.bids.remove(i);
                    proof {
                        s0.remove_ensures(i as int);
                        assert(self.bids@ == s0.remove(i as int));
                    }
                    Ok(o)
                } else {
                    let ghost s0 = self.asks@;
                    let o = self.asks.remove(i);
                    proof {
                        s0.remove_ensures(i as int);
                        assert(self.asks@ == s0.remove(i as int));
                    }
                    Ok(o)
                }
            },
        }
    }
}

/// An id resting in a book bounded by `n` is itself below `n`.
pub proof fn lemma_has_order_below(b: OrderBook, id: u64, n: u64)
    requires
        b.ids_below(n),
        b.has_order(id),
    ensures
        id < n,
{
    if has_id(b.bids@, id) {
        let j = choose|j: int| 0 <= j < b.bids@.len() && (#[trigger] b.bids@[j]).order_id == id;
        assert(b.bids@[j].order_id < n);
    } else {
        let j = choose|j: int| 0 <= j < b.asks@.len() && (#[trigger] b.asks@[j]).order_id == id;
        assert(b.asks@[j].order_id < n);
    }
}

/// A book whose ids all come from a book bounded by `n`, plus possibly one
/// fresh id below `n`, is itself bounded by `n`.
pub proof fn lemma_ids_below_transfer(b: OrderBook, b0: OrderBook, extra: u64, n: u64)
    requires
        forall|id: u64| #[trigger] b.has_order(id) ==> (b0.has_order(id) || id == extra),
        b0.ids_below(n),
        extra < n,
    ensures
        b.ids_below(n),
{
    assert forall|i: int| 0 <= i < b.bids@.len() implies (#[trigger] b.bids@[i]).order_id < n by {
        assert(has_id(b.bids@, b.bids@[i].order_id));
        assert(b.has_order(b.bids@[i].order_id));
        if b0.has_order(b.bids@[i].order_id) {
            if has_id(b0.bids@, b.bids@[i].order_id) {
                let j = choose|j: int|
                    0 <= j < b0.bids@.len() && (#[trigger] b0.bids@[j]).order_id == b.bids@[
                        i
                    ].order_id;
                assert(b0.bids@[j].order_id < n);
            } else {
                let j = choose|j: int|
                    0 <= j < b0.asks@.len() && (#[trigger] b0.asks@[j]).order_id == b.bids@[
                        i
                    ].order_id;
                assert(b0.asks@[j].order_id < n);
            }
        }
    }
    assert forall|i: int| 0 <= i < b.asks@.len() implies (#[trigger] b.asks@[i]).order_id < n by {
        assert(has_id(b.asks@, b.asks@[i].order_id));
        assert(b.has_order(b.asks@[i].order_id));
        if b0.has_order(b.asks@[i].order_id) {
            if has_id(b0.bids@, b.asks@[i].order_id) {
                let j = choose|j: int|
                    0 <= j < b0.bids@.len() && (#[trigger] b0.bids@[j]).order_id == b.asks@[
                        i
                    ].order_id;
                assert(b0.bids@[j].order_id < n);
            } else {
                let j = choose|j: int|
                    0 <= j < b0.asks@.len() && (#[trigger] b0.asks@[j]).order_id == b.asks@[
                        i
                    ].order_id;
                assert(b0.asks@[j].order_id < n);
            }
        }
    }
}

/// Executable form of `bid_prior`.
pub fn exec_bid_prior(a: &Order, b: &Order) -> (r: bool)
    ensures
        r == bid_prior(*a, *b),
{
    a.price > b.price || (a.price == b.price && a.created_at < b.created_at) || (a.price == b.price
        && a.created_at == b.created_at && a.order_id < b.order_id)
}

/// Executable form of `ask_prior`.
pub fn exec_ask_prior(a: &Order, b: &Order) -> (r: bool)
    ensures
        r == ask_prior(*a, *b),
{
    a.price < b.price || (a.price == b.price && a.created_at < b.created_at) || (a.price == b.price
        && a.created_at == b.created_at && a.order_id < b.order_id)
}

} // verus!
