//! The public face of the core: markets, order placement with matching and
//! settlement, cancellation, and read-only book queries.

use vstd::prelude::*;

verus! {

use crate::errors::CLOBError;
use crate::order::{Order, OrderStatus, Side};
use crate::book::{OrderBook, has_id};
use crate::ledger::{Ledger, settle_ok};
use crate::engine::{
    Fill,
    best_opposite,
    buyer_of,
    exec_quantity_of,
    fill_ok,
    fills_sum,
    match_incoming,
    price_priority,
    seller_of,
    settle_fold,
};

/// One trading pair's configuration.
#[derive(Clone, Copy, PartialEq, Eq, Structural, Debug)]
pub struct Market {
    /// Unique identity of the market.
    pub market_id: u64,
    /// The administrative identity that created the market.
    pub authority: u64,
    /// The asset bought and sold.
    pub base_asset: u64,
    /// The asset prices are quoted in.
    pub quote_asset: u64,
}

/// One market's configuration together with its book of resting orders.
pub struct MarketState {
    pub market: Market,
    pub book: OrderBook,
}

impl MarketState {
    /// The book is well formed and holds only this market's orders.
    pub open spec fn wf(self) -> bool {
        self.book.wf(self.market.market_id)
    }
}

/// A read-only snapshot of one market: its configuration and the best
/// order on each side of its book.
#[derive(Clone, Copy, Debug)]
pub struct MarketView {
    pub market_id: u64,
    pub authority: u64,
    pub base_asset: u64,
    pub quote_asset: u64,
    pub best_bid: Option<Order>,
    pub best_ask: Option<Order>,
}

/// What a placement returns: the placed order as it stands after matching,
/// the fills committed for it, and whether a settlement failure halted
/// matching after at least one committed fill.
pub struct PlaceResult {
    pub order: Order,
    pub fills: Vec<Fill>,
    pub settlement_failed: bool,
}

/// An order with its lifecycle ended by cancellation.
pub open spec fn cancelled(o: Order) -> Order {
    Order { status: OrderStatus::Cancelled, ..o }
}

/// The functional description of a committed placement: the returned order,
/// fills and failure flag, the ledger, the named market's book and the
/// historical record of `post` are exactly what `match_run` — the matching
/// algorithm as a function — produces from `pre`, with any unfilled
/// remainder inserted at its priority place on its own side, every other
/// market untouched.
/// The whole exchange: all markets and their books, the historical record
/// of terminal orders, the ledger of balances, and the id and time sources.
pub struct Exchange {
    pub markets: Vec<MarketState>,
    pub history: Vec<Order>,
    pub ledger: Ledger,
    pub next_order_id: u64,
    pub clock: u64,
}

impl Exchange {
    /// The exchange invariant: every book is well formed for its market,
    /// market ids are unique, the historical record holds only well-formed
    /// terminal orders, and every order id ever granted is below the id
    /// counter.
    pub open spec fn wf(self) -> bool {
        &&& forall|i: int| 0 <= i < self.markets@.len() ==> (#[trigger] self.markets@[i]).wf()
        &&& forall|i: int, j: int|
            0 <= i < j < self.markets@.len() ==> (#[trigger] self.markets@[i]).market.market_id
                != (#[trigger] self.markets@[j]).market.market_id
        &&& forall|i: int|
            0 <= i < self.history@.len() ==> ((#[trigger] self.history@[i]).wf() && self.history@[
                i
            ].status != OrderStatus::Active && self.history@[i].order_id < self.next_order_id
                && self.history@[i].created_at <= self.clock)
        &&& forall|i: int|
            0 <= i < self.markets@.len() ==> (#[trigger] self.markets@[i]).book.ids_below(
                self.next_order_id,
            )
        &&& forall|i: int, j: int, id: u64|
            0 <= i < self.markets@.len() && 0 <= j < self.markets@.len() && i != j && (
            #[trigger] self.markets@[i].book.has_order(id)) ==> !(
            #[trigger] self.markets@[j].book.has_order(id))
        &&& forall|i: int|
            0 <= i < self.markets@.len() ==> (#[trigger] self.markets@[i]).book.times_below(
                self.clock,
            )
    }

    /// Whether a market with this id exists.
    pub open spec fn has_market(self, market_id: u64) -> bool {
        exists|i: int|
            0 <= i < self.markets@.len() && (#[trigger] self.markets@[i]).market.market_id
                == market_id
    }

    /// Whether an Active order with this id rests in some book.
    pub open spec fn has_active_order(self, order_id: u64) -> bool {
        exists|i: int|
            0 <= i < self.markets@.len() && (#[trigger] self.markets@[i]).book.has_order(order_id)
    }

    /// Whether a terminal order with this id stands in the record.
    pub open spec fn has_historical_order(self, order_id: u64) -> bool {
        has_id(self.history@, order_id)
    }

    /// Whether some Active order carries this id but an owner other than
    /// `requester`.
    pub open spec fn active_owner_mismatch(self, order_id: u64, requester: u64) -> bool {
        exists|i: int|
            0 <= i < self.markets@.len() && (#[trigger] self.markets@[i]).book.owner_mismatch(
                order_id,
                requester,
            )
    }

    /// The order a placement with these arguments would create next.
    pub open spec fn fresh_order(
        self,
        market_id: u64,
        owner: u64,
        side: Side,
        price: u64,
        quantity: u64,
    ) -> Order {
        Order {
            order_id: self.next_order_id,
            owner,
            market_id,
            side,
            price,
            quantity,
            filled_quantity: 0,
            created_at: self.clock,
            status: OrderStatus::Active,
        }
    }

    /// Whether the named market's opposite side crosses an incoming limit.
    pub open spec fn market_crossable(self, market_id: u64, side: Side, price: u64) -> bool {
        exists|i: int|
            0 <= i < self.markets@.len() && (#[trigger] self.markets@[i]).market.market_id
                == market_id && self.markets@[i].book.spec_crossable(side, price)
    }

    /// Why a placement can fail with `SettlementFailed` before committing
    /// anything: the named market's book crosses the incoming limit, but the
    /// very first fill — against the best resting opposite order, at its
    /// price, for the smaller of the two remainders — cannot be settled from
    /// the current balances.
    pub open spec fn settlement_blocked(
        self,
        market_id: u64,
        owner: u64,
        side: Side,
        price: u64,
        quantity: u64,
    ) -> bool {
        exists|i: int|
            0 <= i < self.markets@.len() && (#[trigger] self.markets@[i]).market.market_id
                == market_id && self.markets@[i].book.spec_crossable(side, price) && ({
                let taker = self.fresh_order(market_id, owner, side, price, quantity);
                let maker = best_opposite(self.markets@[i].book, side);
                let q = exec_quantity_of(taker, maker);
                !settle_ok(
                    self.ledger.balances(),
                    buyer_of(taker, maker),
                    seller_of(taker, maker),
                    self.markets@[i].market.base_asset,
                    self.markets@[i].market.quote_asset,
                    (maker.price * q) as u64,
                    q,
                )
            })
    }

    /// A fresh exchange: no markets, no orders, every balance zero, order
    /// ids starting at one.
    pub fn new() -> (r: Exchange)
        ensures
            r.wf(),
            r.markets@.len() == 0,
            r.history@.len() == 0,
            r.next_order_id == 1,
            r.clock == 1,
            forall|a: u64, t: u64| r.ledger.balance(a, t) == 0,
    {
        Exchange {
            markets: Vec::new(),
            history: Vec::new(),
            ledger: Ledger::new(),
            next_order_id: 1,
            clock: 1,
        }
    }

    /// Funds an account: adds `amount` of `asset` to its balance.
    pub fn deposit(&mut self, account: u64, asset: u64, amount: u64) -> (r: Result<
        (),
        CLOBError,
    >)
        requires
            old(self).wf(),
        ensures
            final(self).wf(),
            r is Ok <==> old(self).ledger.balance(account, asset) + amount <= u64::MAX,
            r is Ok ==> final(self).ledger.balance(account, asset) == old(self).ledger.balance(
                account,
                asset,
            ) + amount,
            r is Ok ==> forall|a: u64, t: u64|
                !(a == account && t == asset) ==> final(self).ledger.balance(a, t) == old(self).ledger.balance(a, t),
            final(self).markets@ == old(self).markets@,
            final(self).history@ == old(self).history@,
            final(self).next_order_id == old(self).next_order_id,
            final(self).clock == old(self).clock,
            r is Err ==> *final(self) == *old(self) && r == Err::<(), CLOBError>(
                CLOBError::Overflow,
            ),
    {
        let ghost l0 = self.ledger;
        let r = self.ledger.credit(account, asset, amount);
        proof {
            if r is Ok {
                crate::ledger::lemma_balances_index(l0, account, asset);
                assert forall|a: u64, t: u64|
                    !(a == account && t == asset) implies self.ledger.balance(a, t)
                    == l0.balance(a, t) by {
                    crate::ledger::lemma_balances_index(self.ledger, a, t);
                    crate::ledger::lemma_balances_index(l0, a, t);
                }
                crate::ledger::lemma_balances_index(self.ledger, account, asset);
            }
        }
        r
    }

    /// The balance of `(account, asset)` on the exchange's ledger.
    pub fn balance_of(&self, account: u64, asset: u64) -> (r: u64)
        ensures
            r == self.ledger.balance(account, asset),
    {
        self.ledger.balance_of(account, asset)
    }

    /// The index of the market with this id, if any.
    fn find_market(&self, market_id: u64) -> (r: Option<usize>)
        ensures
            r is Some <==> self.has_market(market_id),
            r matches Some(i) ==> i < self.markets@.len()
                && self.markets@[i as int].market.market_id == market_id,
    {
        let mut i: usize = 0;
        while i < self.markets.len()
            invariant
                i <= self.markets@.len(),
                forall|j: int|
                    0 <= j < i ==> (#[trigger] self.markets@[j]).market.market_id != market_id,
            decreases self.markets@.len() - i,
        {
            if self.markets[i].market.market_id == market_id {
                return Some(i);
            }
            i = i + 1;
        }
        None
    }

    /// Creates a market; fails with `DuplicateMarket`, changing nothing,
    /// when a market with this id already exists.
    pub fn initialize_market(
        &mut self,
        market_id: u64,
        base_asset: u64,
        quote_asset: u64,
        authority: u64,
    ) -> (r: Result<(), CLOBError>)
        requires
            old(self).wf(),
        ensures
            final(self).wf(),
            r is Ok <==> !old(self).has_market(market_id),
            r is Err ==> *final(self) == *old(self) && r == Err::<(), CLOBError>(
                CLOBError::DuplicateMarket,
            ),
            r is Ok ==> final(self).markets@.len() == old(self).markets@.len() + 1 && (forall|
                i: int,
            |
                0 <= i < old(self).markets@.len() ==> final(self).markets@[i] == old(self).markets@[i]) && final(self).markets@[old(self).markets@.len() as int].market == (
            Market { market_id, authority, base_asset, quote_asset }) && final(self).markets@[old(self).markets@.len() as int].book.bids@.len() == 0 && final(self).markets@[old(self).markets@.len() as int].book.asks@.len() == 0 && final(self).history@ == old(self).history@ && final(self).ledger == old(self).ledger && final(self).next_order_id
                == old(self).next_order_id && final(self).clock == old(self).clock,
    {
        if self.find_market(market_id).is_some() {
            return Err(CLOBError::DuplicateMarket);
        }
        let ms = MarketState {
            market: Market { market_id, authority, base_asset, quote_asset },
            book: OrderBook::new(),
        };
        self.markets.push(ms);
        proof {
            let n = self.markets@.len() as int;
            assert forall|i2: int, j2: int, id: u64|
                0 <= i2 < n && 0 <= j2 < n && i2 != j2 && (
                #[trigger] self.markets@[i2].book.has_order(id)) implies !(
                #[trigger] self.markets@[j2].book.has_order(id)) by {
                if i2 == n - 1 {
                    assert(!has_id(self.markets@[i2].book.bids@, id));
                    assert(!has_id(self.markets@[i2].book.asks@, id));
                } else if j2 == n - 1 {
                    assert(!has_id(self.markets@[j2].book.bids@, id));
                    assert(!has_id(self.markets@[j2].book.asks@, id));
                }
            }
        }
        Ok(())
    }

    /// A read-only snapshot of a market: its configuration and best bid and
    /// ask; fails with `MarketNotFound` when no market has this id.
    pub fn get_orderbook(&self, market_id: u64) -> (r: Result<MarketView, CLOBError>)
        requires
            self.wf(),
        ensures
            r is Ok <==> self.has_market(market_id),
            r is Err ==> r == Err::<MarketView, CLOBError>(CLOBError::MarketNotFound),
            r matches Ok(v) ==> exists|i: int|
                0 <= i < self.markets@.len() && (#[trigger] self.markets@[i]).market.market_id
                    == market_id && v.market_id == market_id && v.authority == self.markets@[
                    i
                ].market.authority && v.base_asset == self.markets@[i].market.base_asset
                    && v.quote_asset == self.markets@[i].market.quote_asset && v.best_bid == (
                if self.markets@[i].book.bids@.len() > 0 {
                    Some(self.markets@[i].book.bids@[0])
                } else {
                    None::<Order>
                }) && v.best_ask == (if self.markets@[i].book.asks@.len() > 0 {
                    Some(self.markets@[i].book.asks@[0])
                } else {
                    None::<Order>
                }),
    {
        let i = match self.find_market(market_id) {
            None => {
                return Err(CLOBError::MarketNotFound);
            },
            Some(i) => i,
        };
        let ms = &self.markets[i];
        let bb = ms.book.best_bid();
        let ba = ms.book.best_ask();
        Ok(
            MarketView {
                market_id: ms.market.market_id,
                authority: ms.market.authority,
                base_asset: ms.market.base_asset,
                quote_asset: ms.market.quote_asset,
                best_bid: bb,
                best_ask: ba,
            },
        )
    }
}

/// Taking one element out of a sequence and putting another back at the
/// same place leaves every other element where it was.
proof fn lemma_remove_insert(s: Seq<MarketState>, i: int, x: MarketState)
    requires
        0 <= i < s.len(),
    ensures
        s.remove(i).insert(i, x).len() == s.len(),
        forall|m: int|
            0 <= m < s.len() && m != i ==> #[trigger] s.remove(i).insert(i, x)[m] == s[m],
        s.remove(i).insert(i, x)[i] == x,
{
    s.remove_ensures(i);
    s.remove(i).insert_ensures(i, x);
    assert forall|m: int|
        0 <= m < s.len() && m != i implies #[trigger] s.remove(i).insert(i, x)[m] == s[m] by {
        if m > i {
            assert(s.remove(i).insert(i, x)[(m - 1) + 1] == s.remove(i)[m - 1]);
            assert(s.remove(i)[m - 1] == s[(m - 1) + 1]);
        }
    }
}

/// An owner mismatch can only be raised by a resting order, so it implies
/// an Active order with the id exists.
proof fn lemma_mismatch_is_active(ex: Exchange, order_id: u64, requester: u64)
    requires
        ex.active_owner_mismatch(order_id, requester),
    ensures
        ex.has_active_order(order_id),
{
    let m = choose|m: int|
        0 <= m < ex.markets@.len() && (#[trigger] ex.markets@[m]).book.owner_mismatch(
            order_id,
            requester,
        );
    if exists|i: int|
        0 <= i < ex.markets@[m].book.bids@.len() && (
        #[trigger] ex.markets@[m].book.bids@[i]).order_id == order_id && ex.markets@[
        m
    ].book.bids@[i].owner != requester {
        let i = choose|i: int|
            0 <= i < ex.markets@[m].book.bids@.len() && (
            #[trigger] ex.markets@[m].book.bids@[i]).order_id == order_id && ex.markets@[
                m
            ].book.bids@[i].owner != requester;
        assert(has_id(ex.markets@[m].book.bids@, order_id));
    } else {
        let i = choose|i: int|
            0 <= i < ex.markets@[m].book.asks@.len() && (
            #[trigger] ex.markets@[m].book.asks@[i]).order_id == order_id && ex.markets@[
                m
            ].book.asks@[i].owner != requester;
        assert(has_id(ex.markets@[m].book.asks@, order_id));
    }
    assert(ex.markets@[m].book.has_order(order_id));
}

/// On a well-formed exchange an order id names at most one resting order,
/// so a resting order owned by the requester rules out an owner mismatch
/// under the same id.
proof fn lemma_no_mismatch(
    ex: Exchange,
    order_id: u64,
    requester: u64,
    mi: int,
    is_bid: bool,
    k: int,
)
    requires
        ex.wf(),
        0 <= mi < ex.markets@.len(),
        is_bid ==> 0 <= k < ex.markets@[mi].book.bids@.len() && ex.markets@[
            mi
        ].book.bids@[k].order_id == order_id && ex.markets@[mi].book.bids@[k].owner == requester,
        !is_bid ==> 0 <= k < ex.markets@[mi].book.asks@.len() && ex.markets@[
            mi
        ].book.asks@[k].order_id == order_id && ex.markets@[mi].book.asks@[k].owner == requester,
    ensures
        !ex.active_owner_mismatch(order_id, requester),
{
    if is_bid {
        assert(has_id(ex.markets@[mi].book.bids@, order_id));
    } else {
        assert(has_id(ex.markets@[mi].book.asks@, order_id));
    }
    assert(ex.markets@[mi].book.has_order(order_id));
    if ex.active_owner_mismatch(order_id, requester) {
        let m = choose|m: int|
            0 <= m < ex.markets@.len() && (#[trigger] ex.markets@[m]).book.owner_mismatch(
                order_id,
                requester,
            );
        if exists|i: int|
            0 <= i < ex.markets@[m].book.bids@.len() && (
            #[trigger] ex.markets@[m].book.bids@[i]).order_id == order_id && ex.markets@[
            m
        ].book.bids@[i].owner != requester {
            let p = choose|p: int|
                0 <= p < ex.markets@[m].book.bids@.len() && (
                #[trigger] ex.markets@[m].book.bids@[p]).order_id == order_id && ex.markets@[
                    m
                ].book.bids@[p].owner != requester;
            assert(has_id(ex.markets@[m].book.bids@, order_id));
            assert(ex.markets@[m].book.has_order(order_id));
            if m != mi {
                assert(false);
            } else if is_bid {
                if p < k {
                    assert(ex.markets@[mi].book.bids@[p].order_id != ex.markets@[
                        mi
                    ].book.bids@[k].order_id);
                } else if p > k {
                    assert(ex.markets@[mi].book.bids@[k].order_id != ex.markets@[
                        mi
                    ].book.bids@[p].order_id);
                }
                assert(false);
            } else {
                assert(ex.markets@[mi].book.bids@[p].order_id != ex.markets@[
                    mi
                ].book.asks@[k].order_id);
                assert(false);
            }
        } else {
            let p = choose|p: int|
                0 <= p < ex.markets@[m].book.asks@.len() && (
                #[trigger] ex.markets@[m].book.asks@[p]).order_id == order_id && ex.markets@[
                    m
                ].book.asks@[p].owner != requester;
            assert(has_id(ex.markets@[m].book.asks@, order_id));
            assert(ex.markets@[m].book.has_order(order_id));
            if m != mi {
                assert(false);
            } else if !is_bid {
                if p < k {
                    assert(ex.markets@[mi].book.asks@[p].order_id != ex.markets@[
                        mi
                    ].book.asks@[k].order_id);
                } else if p > k {
                    assert(ex.markets@[mi].book.asks@[k].order_id != ex.markets@[
                        mi
                    ].book.asks@[p].order_id);
                }
                assert(false);
            } else {
                assert(ex.markets@[mi].book.bids@[k].order_id != ex.markets@[
                    mi
                ].book.asks@[p].order_id);
                assert(false);
            }
        }
    }
}

/// The shape of a successful cancellation: one Active order with the id,
/// owned by the requester, leaves its book; the same order, Cancelled,
/// enters the historical record; nothing else changes.
pub open spec fn cancel_shape(pre: Exchange, post: Exchange, order_id: u64, requester: u64) -> bool {
    &&& post.markets@.len() == pre.markets@.len()
    &&& post.ledger == pre.ledger
    &&& post.next_order_id == pre.next_order_id
    &&& post.clock == pre.clock
    &&& exists|mi: int|
        0 <= mi < pre.markets@.len() && (forall|m: int|
            0 <= m < pre.markets@.len() && m != mi ==> post.markets@[m] == pre.markets@[m]) && (
        #[trigger] post.markets@[mi]).market == pre.markets@[mi].market && ((exists|k: int|
            0 <= k < pre.markets@[mi].book.bids@.len() && (#[trigger] pre.markets@[
                mi
            ].book.bids@[k]).order_id == order_id && pre.markets@[mi].book.bids@[k].owner
                == requester && post.markets@[mi].book.bids@ == pre.markets@[
                mi
            ].book.bids@.remove(k) && post.markets@[mi].book.asks@ == pre.markets@[mi].book.asks@
                && post.history@ == pre.history@.push(cancelled(pre.markets@[mi].book.bids@[k])))
            || (exists|k: int|
            0 <= k < pre.markets@[mi].book.asks@.len() && (#[trigger] pre.markets@[
                mi
            ].book.asks@[k]).order_id == order_id && pre.markets@[mi].book.asks@[k].owner
                == requester && post.markets@[mi].book.asks@ == pre.markets@[
                mi
            ].book.asks@.remove(k) && post.markets@[mi].book.bids@ == pre.markets@[mi].book.bids@
                && post.history@ == pre.history@.push(cancelled(pre.markets@[mi].book.asks@[k]))))
}

impl Exchange {
    /// Cancels the Active order with `order_id` at its owner's request: the
    /// order leaves its book and enters the record as Cancelled with its
    /// fill frozen. Fails with `Unauthorized` when the requester does not
    /// own the order, `OrderNotActive` when the order is already Filled or
    /// Cancelled, and `NotFound` when no order has this id; every failure
    /// leaves the exchange exactly as it was.
    #[verifier::loop_isolation(false)]
    #[verifier::rlimit(80)]
    pub fn cancel_order(&mut self, order_id: u64, requester: u64) -> (r: Result<(), CLOBError>)
        requires
            old(self).wf(),
        ensures
            final(self).wf(),
            r is Err ==> *final(self) == *old(self),
            r == Err::<(), CLOBError>(CLOBError::OrderNotActive) <==> (!old(self).has_active_order(order_id) && old(self).has_historical_order(order_id)),
            r == Err::<(), CLOBError>(CLOBError::NotFound) <==> (!old(self).has_active_order(
                order_id,
            ) && !old(self).has_historical_order(order_id)),
            old(self).has_active_order(order_id) <==> (r is Ok || r == Err::<(), CLOBError>(
                CLOBError::Unauthorized,
            )),
            r == Err::<(), CLOBError>(CLOBError::Unauthorized) <==> old(self).active_owner_mismatch(order_id, requester),
            r is Ok ==> cancel_shape(*old(self), *final(self), order_id, requester),
            r is Ok ==> !final(self).has_active_order(order_id) && final(self).has_historical_order(order_id),
    {
        let ghost ex0 = *self;
        let mut mi: usize = 0;
        while mi < self.markets.len()
            invariant
                *self == *old(self),
                mi <= self.markets@.len(),
                forall|m: int|
                    0 <= m < mi ==> !(#[trigger] self.markets@[m]).book.has_order(order_id),
            decreases self.markets@.len() - mi,
        {
            let pos = self.markets[mi].book.position_of(order_id);
            match pos {
                Some((is_bid, k)) => {
                    let o: Order = if is_bid {
                        self.markets[mi].book.bids[k]
                    } else {
                        self.markets[mi].book.asks[k]
                    };
                    proof {
                        if is_bid {
                            assert(has_id(self.markets@[mi as int].book.bids@, order_id));
                        } else {
                            assert(has_id(self.markets@[mi as int].book.asks@, order_id));
                        }
                        assert(self.has_active_order(order_id));
                    }
                    if o.owner != requester {
                        proof {
                            assert(self.markets@[mi as int].book.owner_mismatch(
                                order_id,
                                requester,
                            ));
                            assert(self.active_owner_mismatch(order_id, requester));
                        }
                        return Err(CLOBError::Unauthorized);
                    }
                    proof {
                        lemma_no_mismatch(ex0, order_id, requester, mi as int, is_bid, k as int);
                    }
                    let ghost bookpre = self.markets@[mi as int].book;
                    let mut ms = self.markets.remove(mi);
                    let removed: Order;
                    if is_bid {
                        let ghost s0 = ms.book.bids@;
                        removed = ms.book.bids.remove(k);
                        proof {
                            s0.remove_ensures(k as int);
                            assert(ms.book.bids@ == s0.remove(k as int));
                        }
                    } else {
                        let ghost s0 = ms.book.asks@;
                        removed = ms.book.asks.remove(k);
                        proof {
                            s0.remove_ensures(k as int);
                            assert(ms.book.asks@ == s0.remove(k as int));
                        }
                    }
                    self.history.push(Order { status: OrderStatus::Cancelled, ..removed });
                    self.markets.insert(mi, ms);
                    proof {
                        lemma_remove_insert(ex0.markets@, mi as int, ms);
                        assert(self.markets@ == ex0.markets@.remove(mi as int).insert(
                            mi as int,
                            ms,
                        ));
                        assert(self.markets@[mi as int] == ms);
                        assert(ex0.markets@[mi as int].book.ids_below(ex0.next_order_id));
                        assert(cancel_shape(ex0, *self, order_id, requester));
                        // the shrunken book keeps only orders it already held,
                        // and no longer holds the cancelled id
                        assert forall|id: u64| #[trigger] ms.book.has_order(id) implies (
                        bookpre.has_order(id) && id != order_id) by {
                            if is_bid {
                                if has_id(ms.book.bids@, id) {
                                    let j = choose|j: int|
                                        0 <= j < ms.book.bids@.len() && (
                                        #[trigger] ms.book.bids@[j]).order_id == id;
                                    bookpre.bids@.remove_ensures(k as int);
                                    if j < k {
                                        assert(bookpre.bids@.remove(k as int)[j]
                                            == bookpre.bids@[j]);
                                        assert(bookpre.bids@[j].order_id == id);
                                    } else {
                                        assert(bookpre.bids@.remove(k as int)[j]
                                            == bookpre.bids@[j + 1]);
                                        assert(bookpre.bids@[j + 1].order_id == id);
                                    }
                                    assert(has_id(bookpre.bids@, id));
                                } else {
                                    let j = choose|j: int|
                                        0 <= j < ms.book.asks@.len() && (
                                        #[trigger] ms.book.asks@[j]).order_id == id;
                                    assert(bookpre.asks@[j].order_id == id);
                                    assert(has_id(bookpre.asks@, id));
                                    assert(bookpre.bids@[k as int].order_id != bookpre.asks@[
                                        j
                                    ].order_id);
                                }
                            } else {
                                if has_id(ms.book.asks@, id) {
                                    let j = choose|j: int|
                                        0 <= j < ms.book.asks@.len() && (
                                        #[trigger] ms.book.asks@[j]).order_id == id;
                                    bookpre.asks@.remove_ensures(k as int);
                                    if j < k {
                                        assert(bookpre.asks@.remove(k as int)[j]
                                            == bookpre.asks@[j]);
                                        assert(bookpre.asks@[j].order_id == id);
                                    } else {
                                        assert(bookpre.asks@.remove(k as int)[j]
                                            == bookpre.asks@[j + 1]);
                                        assert(bookpre.asks@[j + 1].order_id == id);
                                    }
                                    assert(has_id(bookpre.asks@, id));
                                } else {
                                    let j = choose|j: int|
                                        0 <= j < ms.book.bids@.len() && (
                                        #[trigger] ms.book.bids@[j]).order_id == id;
                                    assert(bookpre.bids@[j].order_id == id);
                                    assert(has_id(bookpre.bids@, id));
                                    assert(bookpre.bids@[j].order_id != bookpre.asks@[
                                        k as int
                                    ].order_id);
                                }
                            }
                        }
                        // books of distinct markets still share no id
                        assert forall|i2: int, j2: int, id: u64|
                            0 <= i2 < self.markets@.len() && 0 <= j2 < self.markets@.len() && i2
                                != j2 && (#[trigger] self.markets@[i2].book.has_order(id)) implies
                            !(#[trigger] self.markets@[j2].book.has_order(id)) by {
                            if self.markets@[i2].book.has_order(id) && self.markets@[
                                j2
                            ].book.has_order(id) {
                                assert(ex0.markets@[i2].book.has_order(id));
                                assert(ex0.markets@[j2].book.has_order(id));
                            }
                        }
                        // creation times in the shrunken book and the new
                        // record entry stay bounded by the clock
                        assert(bookpre.times_below(ex0.clock));
                        assert forall|j: int|
                            0 <= j < ms.book.bids@.len() implies (
                            #[trigger] ms.book.bids@[j]).created_at <= ex0.clock by {
                            if is_bid {
                                bookpre.bids@.remove_ensures(k as int);
                                if j < k {
                                    assert(bookpre.bids@.remove(k as int)[j]
                                        == bookpre.bids@[j]);
                                } else {
                                    assert(bookpre.bids@.remove(k as int)[j] == bookpre.bids@[
                                        j + 1
                                    ]);
                                }
                            }
                        }
                        assert forall|j: int|
                            0 <= j < ms.book.asks@.len() implies (
                            #[trigger] ms.book.asks@[j]).created_at <= ex0.clock by {
                            if !is_bid {
                                bookpre.asks@.remove_ensures(k as int);
                                if j < k {
                                    assert(bookpre.asks@.remove(k as int)[j]
                                        == bookpre.asks@[j]);
                                } else {
                                    assert(bookpre.asks@.remove(k as int)[j] == bookpre.asks@[
                                        j + 1
                                    ]);
                                }
                            }
                        }
                        assert(ms.book.times_below(ex0.clock));
                        assert(removed.created_at <= ex0.clock);
                        // the cancelled id is in the record and no longer active
                        assert(self.history@[self.history@.len() - 1].order_id == order_id);
                        assert(has_id(self.history@, order_id));
                        assert forall|m: int|
                            0 <= m < self.markets@.len() implies !(
                            #[trigger] self.markets@[m]).book.has_order(order_id) by {
                            if self.markets@[m].book.has_order(order_id) {
                                if m != mi as int {
                                    assert(ex0.markets@[m].book.has_order(order_id));
                                    assert(ex0.markets@[mi as int].book.has_order(order_id));
                                }
                            }
                        }
                        assert(!self.has_active_order(order_id));
                    }
                    return Ok(());
                },
                None => {},
            }
            mi = mi + 1;
        }
        proof {
            assert(!self.has_active_order(order_id));
            if self.active_owner_mismatch(order_id, requester) {
                lemma_mismatch_is_active(*self, order_id, requester);
            }
        }
        let mut h: usize = 0;
        while h < self.history.len()
            invariant
                *self == *old(self),
                h <= self.history@.len(),
                forall|j: int| 0 <= j < h ==> (#[trigger] self.history@[j]).order_id != order_id,
                !self.has_active_order(order_id),
                !self.active_owner_mismatch(order_id, requester),
            decreases self.history@.len() - h,
        {
            if self.history[h].order_id == order_id {
                return Err(CLOBError::OrderNotActive);
            }
            h = h + 1;
        }
        Err(CLOBError::NotFound)
    }

    /// Places an order: validates it, matches it against the opposite side
    /// of its market's book — settling every fill on the ledger as it
    /// happens — and rests any remainder in the book. Rejected placements
    /// change nothing. When the very first settlement fails, no order is
    /// created and the exchange's observable state is unchanged; when a
    /// later settlement fails, the fills already settled stand, matching
    /// halts, and the result says so.
    #[verifier::rlimit(100)]
    pub fn place_order(
        &mut self,
        market_id: u64,
        owner: u64,
        side: Side,
        price: u64,
        quantity: u64,
    ) -> (r: Result<PlaceResult, CLOBError>)
        requires
            old(self).wf(),
        ensures
            final(self).wf(),
            r == Err::<PlaceResult, CLOBError>(CLOBError::InvalidPrice) <==> price == 0,
            r == Err::<PlaceResult, CLOBError>(CLOBError::InvalidQuantity) <==> (price > 0
                && quantity == 0),
            r == Err::<PlaceResult, CLOBError>(CLOBError::MarketNotFound) <==> (price > 0
                && quantity > 0 && !old(self).has_market(market_id)),
            r == Err::<PlaceResult, CLOBError>(CLOBError::Overflow) <==> (price > 0 && quantity > 0
                && old(self).has_market(market_id) && (price * quantity > u64::MAX || old(self).next_order_id == u64::MAX)),
            (r is Err && r != Err::<PlaceResult, CLOBError>(CLOBError::SettlementFailed)) ==> *final(self) == *old(self),
            r == Err::<PlaceResult, CLOBError>(CLOBError::SettlementFailed) ==> old(self).settlement_blocked(market_id, owner, side, price, quantity),
            r == Err::<PlaceResult, CLOBError>(CLOBError::SettlementFailed) ==> (final(self).markets@ == old(self).markets@ && final(self).history@ == old(self).history@
                && final(self).next_order_id == old(self).next_order_id && final(self).clock == old(self).clock && forall|a: u64, t: u64|
                final(self).ledger.balance(a, t) == old(self).ledger.balance(a, t)),
            price > 0 && quantity > 0 && old(self).has_market(market_id) && price * quantity
                <= u64::MAX && old(self).next_order_id < u64::MAX ==> (r is Ok || r == Err::<
                PlaceResult,
                CLOBError,
            >(CLOBError::SettlementFailed)),
            r matches Ok(res) ==> ({
                &&& res.order.order_id == old(self).next_order_id
                &&& res.order.owner == owner
                &&& res.order.market_id == market_id
                &&& res.order.side == side
                &&& res.order.price == price
                &&& res.order.quantity == quantity
                &&& res.order.created_at == old(self).clock
                &&& res.order.wf()
                &&& (res.order.status == OrderStatus::Filled <==> res.order.filled_quantity
                    == quantity)
                &&& res.order.filled_quantity == fills_sum(res.fills@)
                &&& forall|i: int|
                    0 <= i < res.fills@.len() ==> fill_ok(
                        #[trigger] res.fills@[i],
                        old(self).next_order_id,
                        side,
                        price,
                    )
                &&& final(self).next_order_id == old(self).next_order_id + 1
                &&& final(self).clock >= old(self).clock
                &&& (res.settlement_failed ==> res.fills@.len() > 0)
                &&& (!res.settlement_failed && res.order.filled_quantity < quantity
                    ==> exists|i: int|
                    0 <= i < final(self).markets@.len() && (
                    #[trigger] final(self).markets@[i]).market.market_id == market_id && final(self).markets@[i].book.has_order(res.order.order_id) && !final(self).markets@[i].book.spec_crossable(side, price))
                &&& (res.order.filled_quantity == quantity ==> final(self).has_historical_order(
                    res.order.order_id,
                ))
                &&& (res.fills@.len() == 0 ==> forall|a: u64, t: u64|
                    final(self).ledger.balance(a, t) == old(self).ledger.balance(a, t))
                &&& forall|i: int, j: int|
                    0 <= i < j < res.fills@.len() ==> price_priority(
                        side,
                        (#[trigger] res.fills@[i]).execution_price,
                        (#[trigger] res.fills@[j]).execution_price,
                    )
                &&& final(self).history@.len() >= old(self).history@.len()
                &&& final(self).history@.take(old(self).history@.len() as int) == old(self).history@
                &&& final(self).markets@.len() == old(self).markets@.len()
                &&& forall|i: int|
                    0 <= i < old(self).markets@.len() ==> (
                    #[trigger] final(self).markets@[i]).market == old(self).markets@[i].market
                &&& forall|id: u64|
                    #[trigger] final(self).has_active_order(id) ==> (old(self).has_active_order(id) || id == old(self).next_order_id)
                &&& (!old(self).market_crossable(market_id, side, price) ==> (res.fills@.len()
                    == 0 && !res.settlement_failed && res.order.filled_quantity == 0
                    && res.order.status == OrderStatus::Active))
                &&& (res.fills@.len() > 0 ==> exists|i: int|
                    0 <= i < old(self).markets@.len() && (
                    #[trigger] old(self).markets@[i]).market.market_id == market_id && old(self).markets@[i].book.spec_crossable(side, price) && res.fills@[0].maker_order_id
                        == best_opposite(old(self).markets@[i].book, side).order_id
                        && res.fills@[0].execution_price == best_opposite(
                        old(self).markets@[i].book,
                        side,
                    ).price && res.fills@[0].execution_quantity == exec_quantity_of(
                        old(self).fresh_order(market_id, owner, side, price, quantity),
                        best_opposite(old(self).markets@[i].book, side),
                    ))
                &&& (res.fills@.len() > 0 ==> exists|m: int|
                    0 <= m < old(self).markets@.len() && (
                    #[trigger] old(self).markets@[m]).market.market_id == market_id && forall|
                        i: int,
                    |
                        0 <= i < res.fills@.len() ==> (match side {
                            Side::Buy => crate::book::has_id(
                                old(self).markets@[m].book.asks@,
                                (#[trigger] res.fills@[i]).maker_order_id,
                            ),
                            Side::Sell => crate::book::has_id(
                                old(self).markets@[m].book.bids@,
                                (#[trigger] res.fills@[i]).maker_order_id,
                            ),
                        }))
                &&& exists|i: int|
                    0 <= i < old(self).markets@.len() && (
                    #[trigger] old(self).markets@[i]).market.market_id == market_id && final(self).ledger.balances() == settle_fold(
                        old(self).ledger.balances(),
                        res.fills@,
                        old(self).markets@[i].market.base_asset,
                        old(self).markets@[i].market.quote_asset,
                    )
            }),
    {
        if price == 0 {
            return Err(CLOBError::InvalidPrice);
        }
        if quantity == 0 {
            return Err(CLOBError::InvalidQuantity);
        }
        let mi = match self.find_market(market_id) {
            None => {
                return Err(CLOBError::MarketNotFound);
            },
            Some(i) => i,
        };
        proof {
            vstd::arithmetic::mul::lemma_mul_upper_bound(
                price as int,
                u64::MAX as int,
                quantity as int,
                u64::MAX as int,
            );
        }
        let wide: u128 = (price as u128) * (quantity as u128);
        if wide > (u64::MAX as u128) {
            return Err(CLOBError::Overflow);
        }
        if self.next_order_id == u64::MAX {
            return Err(CLOBError::Overflow);
        }
        let ghost ex0 = *self;
        let mut ms = self.markets.remove(mi);
        let mut taker = Order {
            order_id: self.next_order_id,
            owner,
            market_id,
            side,
            price,
            quantity,
            filled_quantity: 0,
            created_at: self.clock,
            status: OrderStatus::Active,
        };
        let ghost taker_init = taker;
        proof {
            assert(taker_init == ex0.fresh_order(market_id, owner, side, price, quantity));
            assert(taker.wf());
            assert(ex0.markets@[mi as int].wf());
            assert(ms.market.market_id == market_id);
        }
        let (fills, failed) = match_incoming(
            &mut ms.book,
            &mut self.history,
            &mut self.ledger,
            &mut taker,
            ms.market.base_asset,
            ms.market.quote_asset,
        );
        if failed && fills.len() == 0 {
            self.markets.insert(mi, ms);
            proof {
                lemma_remove_insert(ex0.markets@, mi as int, ms);
                assert(ms == ex0.markets@[mi as int]);
                assert(self.markets@ =~= ex0.markets@);
                assert(taker == taker_init);
                assert(ms.book == ex0.markets@[mi as int].book);
                assert(ex0.markets@[mi as int].book.spec_crossable(side, price));
                assert(settle_fold(
                    ex0.ledger.balances(),
                    fills@,
                    ms.market.base_asset,
                    ms.market.quote_asset,
                ) == ex0.ledger.balances());
                assert(self.ledger.balances() == ex0.ledger.balances());
                assert(ex0.settlement_blocked(market_id, owner, side, price, quantity));
            }
            return Err(CLOBError::SettlementFailed);
        }
        let ghost book_matched = ms.book;
        if taker.filled_quantity < taker.quantity {
            let ins = ms.book.insert(taker);
            proof {
                if !(ins is Ok) {
                    assert(book_matched.has_order(taker.order_id));
                    assert(ex0.markets@[mi as int].book.has_order(taker.order_id));
                    crate::book::lemma_ids_below_transfer(
                        ex0.markets@[mi as int].book,
                        ex0.markets@[mi as int].book,
                        0u64,
                        ex0.next_order_id,
                    );
                    assert(false);
                }
            }
        } else {
            let ghost hpre = self.history@;
            self.history.push(taker);
            proof {
                assert(self.history@.take(ex0.history@.len() as int) =~= hpre.take(
                    ex0.history@.len() as int,
                ));
                assert(self.history@ =~= hpre.push(taker));
            }
        }
        self.markets.insert(mi, ms);
        self.next_order_id = self.next_order_id + 1;
        if self.clock < u64::MAX {
            self.clock = self.clock + 1;
        }
        proof {
            lemma_remove_insert(ex0.markets@, mi as int, ms);
            assert(self.markets@ == ex0.markets@.remove(mi as int).insert(mi as int, ms));
            assert(self.markets@[mi as int] == ms);
            crate::book::lemma_ids_below_transfer(
                ms.book,
                ex0.markets@[mi as int].book,
                taker.order_id,
                self.next_order_id,
            );
            assert forall|i: int|
                0 <= i < self.markets@.len() implies ((#[trigger] self.markets@[i]).wf()
                && self.markets@[i].book.ids_below(self.next_order_id)) by {
                if i != mi {
                    assert(self.markets@[i] == ex0.markets@[i]);
                    crate::book::lemma_ids_below_transfer(
                        ex0.markets@[i].book,
                        ex0.markets@[i].book,
                        0u64,
                        self.next_order_id,
                    );
                }
            }
            assert forall|i: int|
                0 <= i < self.history@.len() implies ((#[trigger] self.history@[i]).wf()
                && self.history@[i].status != OrderStatus::Active && self.history@[i].order_id
                < self.next_order_id) by {
                if i < ex0.history@.len() {
                    assert(self.history@.take(ex0.history@.len() as int)[i] == self.history@[i]);
                    assert(ex0.history@[i].wf());
                }
            }
        }
        proof {
            if taker.filled_quantity == taker.quantity {
                assert(self.history@[self.history@.len() - 1] == taker);
                assert(has_id(self.history@, taker.order_id));
            }
            if !failed && taker.filled_quantity < taker.quantity {
                assert(ms.book.has_order(taker.order_id));
                assert(!book_matched.spec_crossable(side, price));
                match side {
                    Side::Buy => assert(ms.book.asks@ == book_matched.asks@),
                    Side::Sell => assert(ms.book.bids@ == book_matched.bids@),
                }
                assert(!ms.book.spec_crossable(side, price));
            }
            // the changed book holds only old orders and the fresh id
            assert forall|id: u64| #[trigger] ms.book.has_order(id) implies (ex0.markets@[
                mi as int
            ].book.has_order(id) || id == taker.order_id) by {}
            // books of distinct markets still share no id
            assert forall|i2: int, j2: int, id: u64|
                0 <= i2 < self.markets@.len() && 0 <= j2 < self.markets@.len() && i2 != j2 && (
                #[trigger] self.markets@[i2].book.has_order(id)) implies !(
                #[trigger] self.markets@[j2].book.has_order(id)) by {
                if self.markets@[i2].book.has_order(id) && self.markets@[j2].book.has_order(id) {
                    if i2 == mi as int {
                        if id == taker.order_id {
                            crate::book::lemma_has_order_below(
                                ex0.markets@[j2].book,
                                id,
                                ex0.next_order_id,
                            );
                        } else {
                            assert(ex0.markets@[i2].book.has_order(id));
                        }
                    } else if j2 == mi as int {
                        if id == taker.order_id {
                            crate::book::lemma_has_order_below(
                                ex0.markets@[i2].book,
                                id,
                                ex0.next_order_id,
                            );
                        } else {
                            assert(ex0.markets@[j2].book.has_order(id));
                        }
                    } else {
                        assert(ex0.markets@[i2].book.has_order(id));
                        assert(ex0.markets@[j2].book.has_order(id));
                    }
                }
            }
            // every still-active id was active before, or is the fresh one
            assert forall|id: u64| #[trigger] self.has_active_order(id) implies (
            ex0.has_active_order(id) || id == ex0.next_order_id) by {
                if self.has_active_order(id) {
                    let m = choose|m: int|
                        0 <= m < self.markets@.len() && (
                        #[trigger] self.markets@[m]).book.has_order(id);
                    if m == mi as int {
                        if ex0.markets@[mi as int].book.has_order(id) {
                            assert(ex0.has_active_order(id));
                        }
                    } else {
                        assert(ex0.markets@[m].book.has_order(id));
                        assert(ex0.has_active_order(id));
                    }
                }
            }
            // a placement against a non-crossing book commits nothing
            if !ex0.market_crossable(market_id, side, price) {
                assert(ex0.markets@[mi as int].market.market_id == market_id);
                assert(!ex0.markets@[mi as int].book.spec_crossable(side, price));
            }
            // the first fill hits the best resting opposite order
            if fills@.len() > 0 {
                assert(ex0.markets@[mi as int].book.spec_crossable(side, price));
            }
            // all balance movement is exactly the settlement of the fills
            assert(self.ledger.balances() == settle_fold(
                ex0.ledger.balances(),
                fills@,
                ms.market.base_asset,
                ms.market.quote_asset,
            ));
        }
        Ok(PlaceResult { order: taker, fills, settlement_failed: failed })
    }
}

/// Law: every order the exchange holds, resting or historical, has a fill
/// between zero and its quantity, and is `Filled` exactly when the fill
/// equals the quantity.
pub open spec fn order_in_exchange(ex: Exchange, o: Order) -> bool {
    ||| exists|i: int, j: int|
        0 <= i < ex.markets@.len() && 0 <= j < ex.markets@[i].book.bids@.len() && (#[trigger] ex.markets@[i].book.bids@[j]) == o
    ||| exists|i: int, j: int|
        0 <= i < ex.markets@.len() && 0 <= j < ex.markets@[i].book.asks@.len() && (#[trigger] ex.markets@[i].book.asks@[j]) == o
    ||| exists|j: int| 0 <= j < ex.history@.len() && ex.history@[j] == o
}

/// Law: on a well-formed exchange, every held order was created at or
/// before the current clock, so each newly placed order's `created_at` is
/// at least that of every earlier order.
pub proof fn lemma_created_at_monotone(ex: Exchange, o: Order)
    requires
        ex.wf(),
        order_in_exchange(ex, o),
    ensures
        o.created_at <= ex.clock,
{
    if exists|i: int, j: int|
        0 <= i < ex.markets@.len() && 0 <= j < ex.markets@[i].book.bids@.len()
            && (#[trigger] ex.markets@[i].book.bids@[j]) == o {
        let (i, j) = choose|i: int, j: int|
            0 <= i < ex.markets@.len() && 0 <= j < ex.markets@[i].book.bids@.len()
                && (#[trigger] ex.markets@[i].book.bids@[j]) == o;
        assert(ex.markets@[i].book.times_below(ex.clock));
        assert(ex.markets@[i].book.bids@[j].created_at <= ex.clock);
    } else if exists|i: int, j: int|
        0 <= i < ex.markets@.len() && 0 <= j < ex.markets@[i].book.asks@.len()
            && (#[trigger] ex.markets@[i].book.asks@[j]) == o {
        let (i, j) = choose|i: int, j: int|
            0 <= i < ex.markets@.len() && 0 <= j < ex.markets@[i].book.asks@.len()
                && (#[trigger] ex.markets@[i].book.asks@[j]) == o;
        assert(ex.markets@[i].book.times_below(ex.clock));
        assert(ex.markets@[i].book.asks@[j].created_at <= ex.clock);
    } else {
        let j = choose|j: int| 0 <= j < ex.history@.len() && ex.history@[j] == o;
        assert(ex.history@[j].created_at <= ex.clock);
    }
}

/// Law: on a well-formed exchange, `0 <= filled_quantity <= quantity` holds
/// of every order it holds, and `status == Filled` holds exactly when
/// `filled_quantity == quantity`.
pub proof fn lemma_order_lifecycle_bounds(ex: Exchange, o: Order)
    requires
        ex.wf(),
        order_in_exchange(ex, o),
    ensures
        0 <= o.filled_quantity <= o.quantity,
        o.status == OrderStatus::Filled <==> o.filled_quantity == o.quantity,
{
    if exists|i: int, j: int|
        0 <= i < ex.markets@.len() && 0 <= j < ex.markets@[i].book.bids@.len() && (#[trigger] ex.markets@[i].book.bids@[j]) == o {
        let (i, j) = choose|i: int, j: int|
            0 <= i < ex.markets@.len() && 0 <= j < ex.markets@[i].book.bids@.len() && (#[trigger] ex.markets@[i].book.bids@[j]) == o;
        assert(ex.markets@[i].wf());
        assert(ex.markets@[i].book.bids@[j].wf());
    } else if exists|i: int, j: int|
        0 <= i < ex.markets@.len() && 0 <= j < ex.markets@[i].book.asks@.len() && (#[trigger] ex.markets@[i].book.asks@[j]) == o {
        let (i, j) = choose|i: int, j: int|
            0 <= i < ex.markets@.len() && 0 <= j < ex.markets@[i].book.asks@.len() && (#[trigger] ex.markets@[i].book.asks@[j]) == o;
        assert(ex.markets@[i].wf());
        assert(ex.markets@[i].book.asks@[j].wf());
    } else {
        let j = choose|j: int| 0 <= j < ex.history@.len() && ex.history@[j] == o;
        assert(ex.history@[j].wf());
    }
}

} // verus!
