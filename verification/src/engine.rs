//! The matching engine: crossing an incoming order against the opposite
//! side of the book, settling each fill on the ledger as it happens.

use vstd::prelude::*;

verus! {

use crate::errors::CLOBError;
use crate::order::{Order, OrderStatus, Side, crosses, apply_fill};
use crate::book::OrderBook;
use crate::ledger::{Ledger, settle_ok, settle_map};

/// One atomic match event between an incoming (taker) order and a resting
/// (maker) order. The execution price is the maker's posted price.
#[derive(Clone, Copy, PartialEq, Eq, Structural, Debug)]
pub struct Fill {
    pub taker_order_id: u64,
    pub maker_order_id: u64,
    pub execution_price: u64,
    pub execution_quantity: u64,
    /// The party that received base and paid quote in this fill.
    pub buyer: u64,
    /// The party that paid base and received quote in this fill.
    pub seller: u64,
}

/// The total base quantity executed by a run of fills.
pub open spec fn fills_sum(s: Seq<Fill>) -> int
    decreases s.len(),
{
    if s.len() == 0 {
        0
    } else {
        fills_sum(s.drop_last()) + s.last().execution_quantity
    }
}

/// What every fill emitted for one incoming order satisfies: it names the
/// taker, it executes a positive quantity, and its execution price crosses
/// the taker's limit.
pub open spec fn fill_ok(f: Fill, taker_order_id: u64, side: Side, limit_price: u64) -> bool {
    &&& f.taker_order_id == taker_order_id
    &&& f.execution_quantity > 0
    &&& crosses(side, limit_price, f.execution_price)
}

/// Price priority between two fills of one incoming order: the earlier
/// fill's execution price is at least as good for the taker — no cheaper
/// ask (for a Buy) or higher bid (for a Sell) appears later in the run.
pub open spec fn price_priority(side: Side, earlier_price: u64, later_price: u64) -> bool {
    match side {
        Side::Buy => earlier_price <= later_price,
        Side::Sell => earlier_price >= later_price,
    }
}

/// The order the next match would execute against: the top of the side
/// opposite the incoming order.
pub open spec fn best_opposite(b: OrderBook, incoming_side: Side) -> Order {
    match incoming_side {
        Side::Buy => b.asks@[0],
        Side::Sell => b.bids@[0],
    }
}

/// The balances after settling a run of fills in order, each at its own
/// execution price and between its own parties, starting from `m`.
pub open spec fn settle_fold(
    m: Map<(u64, u64), u64>,
    fills: Seq<Fill>,
    base_asset: u64,
    quote_asset: u64,
) -> Map<(u64, u64), u64>
    decreases fills.len(),
{
    if fills.len() == 0 {
        m
    } else {
        let f = fills.last();
        settle_map(
            settle_fold(m, fills.drop_last(), base_asset, quote_asset),
            f.buyer,
            f.seller,
            base_asset,
            quote_asset,
            (f.execution_price * f.execution_quantity) as u64,
            f.execution_quantity,
        )
    }
}

/// The complete outcome of matching one incoming order: the fills emitted
/// in order, the opposite side as it remains, the incoming order as it
/// stands, the balances, whether a settlement failure halted the run, and
/// the fully filled makers in the order they left the book.
pub struct MatchRun {
    pub fills: Seq<Fill>,
    pub rest: Seq<Order>,
    pub taker: Order,
    pub balances: Map<(u64, u64), u64>,
    pub halted: bool,
    pub done: Seq<Order>,
}

/// The matching algorithm itself, as a function: cross the incoming order
/// against the front of the priority-sorted opposite side `opp`, settling
/// each fill from `m`, until the order is filled, nothing crosses, or a
/// settlement fails. Each step takes the smaller of the two remainders at
/// the resting order's price; a fully consumed maker is dropped from the
/// side, a partially consumed one stays at its place with its fill advanced.
pub open spec fn match_run(
    opp: Seq<Order>,
    taker: Order,
    m: Map<(u64, u64), u64>,
    base_asset: u64,
    quote_asset: u64,
) -> MatchRun
    decreases opp.len(),
{
    if taker.filled_quantity == taker.quantity || opp.len() == 0 || !crosses(
        taker.side,
        taker.price,
        opp[0].price,
    ) {
        MatchRun {
            fills: Seq::empty(),
            rest: opp,
            taker,
            balances: m,
            halted: false,
            done: Seq::empty(),
        }
    } else {
        let maker = opp[0];
        let q = exec_quantity_of(taker, maker);
        let amount = (maker.price * q) as u64;
        let b = buyer_of(taker, maker);
        let s = seller_of(taker, maker);
        if !settle_ok(m, b, s, base_asset, quote_asset, amount, q) {
            MatchRun {
                fills: Seq::empty(),
                rest: opp,
                taker,
                balances: m,
                halted: true,
                done: Seq::empty(),
            }
        } else {
            let f = Fill {
                taker_order_id: taker.order_id,
                maker_order_id: maker.order_id,
                execution_price: maker.price,
                execution_quantity: q,
                buyer: b,
                seller: s,
            };
            let m2 = settle_map(m, b, s, base_asset, quote_asset, amount, q);
            let taker2 = apply_fill(taker, q);
            let maker2 = apply_fill(maker, q);
            if maker2.filled_quantity == maker2.quantity {
                let tail = match_run(opp.drop_first(), taker2, m2, base_asset, quote_asset);
                MatchRun {
                    fills: seq![f] + tail.fills,
                    rest: tail.rest,
                    taker: tail.taker,
                    balances: tail.balances,
                    halted: tail.halted,
                    done: seq![maker2] + tail.done,
                }
            } else {
                MatchRun {
                    fills: seq![f],
                    rest: opp.update(0, maker2),
                    taker: taker2,
                    balances: m2,
                    halted: false,
                    done: Seq::empty(),
                }
            }
        }
    }
}

/// The quantity one match executes: the smaller of the two remainders.
pub open spec fn exec_quantity_of(taker: Order, maker: Order) -> u64 {
    if taker.remaining() <= maker.remaining() {
        (taker.quantity - taker.filled_quantity) as u64
    } else {
        (maker.quantity - maker.filled_quantity) as u64
    }
}

/// The party that receives base and pays quote in a match.
pub open spec fn buyer_of(taker: Order, maker: Order) -> u64 {
    if taker.side == Side::Buy {
        taker.owner
    } else {
        maker.owner
    }
}

/// The party that pays base and receives quote in a match.
pub open spec fn seller_of(taker: Order, maker: Order) -> u64 {
    if taker.side == Side::Buy {
        maker.owner
    } else {
        taker.owner
    }
}

/// Executes one fill between a crossing taker and maker: settles the value
/// exchange on the ledger at the maker's price, then advances both orders'
/// fills. When settlement fails, nothing changes anywhere.
pub fn fill_order(
    ledger: &mut Ledger,
    taker: &mut Order,
    maker: &mut Order,
    base_asset: u64,
    quote_asset: u64,
) -> (r: Result<Fill, CLOBError>)
    requires
        old(taker).wf(),
        old(maker).wf(),
        old(taker).status == OrderStatus::Active,
        old(maker).status == OrderStatus::Active,
        old(maker).side == old(taker).side.spec_opposite(),
        crosses(old(taker).side, old(taker).price, old(maker).price),
    ensures
        ({
            let q = exec_quantity_of(*old(taker), *old(maker));
            let amount = (old(maker).price * q) as u64;
            let b = buyer_of(*old(taker), *old(maker));
            let s = seller_of(*old(taker), *old(maker));
            &&& (r is Ok <==> settle_ok(
                old(ledger).balances(),
                b,
                s,
                base_asset,
                quote_asset,
                amount,
                q,
            ))
            &&& (r matches Ok(f) ==> f == (Fill {
                taker_order_id: old(taker).order_id,
                maker_order_id: old(maker).order_id,
                execution_price: old(maker).price,
                execution_quantity: q,
                buyer: b,
                seller: s,
            }) && *final(taker) == apply_fill(*old(taker), q) && *final(maker) == apply_fill(
                *old(maker),
                q,
            ) && final(ledger).balances() == settle_map(
                old(ledger).balances(),
                b,
                s,
                base_asset,
                quote_asset,
                amount,
                q,
            ) && final(taker).wf() && final(maker).wf() && q > 0)
            &&& (r is Err ==> r == Err::<Fill, CLOBError>(CLOBError::SettlementFailed) && *final(taker) == *old(taker) && *final(maker) == *old(maker) && forall|a: u64, t: u64|
                final(ledger).balance(a, t) == old(ledger).balance(a, t))
        }),
{
    let taker_rem = taker.remaining_quantity();
    let maker_rem = maker.remaining_quantity();
    let q: u64 = if taker_rem <= maker_rem {
        taker_rem
    } else {
        maker_rem
    };
    proof {
        assert(maker.price * q <= maker.price * maker.quantity) by (nonlinear_arith)
            requires
                q <= maker.quantity,
                maker.price >= 0,
        ;
    }
    let amount: u64 = maker.price * q;
    let buyer: u64 = if taker.side == Side::Buy {
        taker.owner
    } else {
        maker.owner
    };
    let seller: u64 = if taker.side == Side::Buy {
        maker.owner
    } else {
        taker.owner
    };
    match ledger.settle_fill(buyer, seller, base_asset, quote_asset, maker.price, q) {
        Err(_) => Err(CLOBError::SettlementFailed),
        Ok(()) => {
            let f = Fill {
                taker_order_id: taker.order_id,
                maker_order_id: maker.order_id,
                execution_price: maker.price,
                execution_quantity: q,
                buyer,
                seller,
            };
            taker.filled_quantity = taker.filled_quantity + q;
            if taker.filled_quantity == taker.quantity {
                taker.status = OrderStatus::Filled;
            }
            maker.filled_quantity = maker.filled_quantity + q;
            if maker.filled_quantity == maker.quantity {
                maker.status = OrderStatus::Filled;
            }
            Ok(f)
        },
    }
}

/// Matches an incoming order against the opposite side of the book until it
/// is filled, nothing crosses any more, or a settlement fails. Fully filled
/// makers leave the book and enter `history`; a partially filled maker stays
/// at the top of its side with its fill advanced. The second component of
/// the result says whether a settlement failure halted the loop.
#[verifier::rlimit(100)]
pub fn match_incoming(
    book: &mut OrderBook,
    history: &mut Vec<Order>,
    ledger: &mut Ledger,
    taker: &mut Order,
    base_asset: u64,
    quote_asset: u64,
) -> (out: (Vec<Fill>, bool))
    requires
        old(book).wf(old(taker).market_id),
        old(taker).wf(),
        old(taker).status == OrderStatus::Active,
    ensures
        final(book).wf(old(taker).market_id),
        final(taker).order_id == old(taker).order_id,
        final(taker).owner == old(taker).owner,
        final(taker).market_id == old(taker).market_id,
        final(taker).side == old(taker).side,
        final(taker).price == old(taker).price,
        final(taker).quantity == old(taker).quantity,
        final(taker).created_at == old(taker).created_at,
        final(taker).wf(),
        final(taker).status == OrderStatus::Active || final(taker).status == OrderStatus::Filled,
        final(taker).filled_quantity >= old(taker).filled_quantity,
        fills_sum(out.0@) == final(taker).filled_quantity - old(taker).filled_quantity,
        forall|i: int|
            0 <= i < out.0@.len() ==> fill_ok(
                #[trigger] out.0@[i],
                old(taker).order_id,
                old(taker).side,
                old(taker).price,
            ),
        !out.1 && final(taker).filled_quantity < final(taker).quantity ==> !final(book).spec_crossable(old(taker).side, old(taker).price),
        forall|i: int, j: int|
            0 <= i < j < out.0@.len() ==> price_priority(
                old(taker).side,
                (#[trigger] out.0@[i]).execution_price,
                (#[trigger] out.0@[j]).execution_price,
            ),
        out.0@.len() > 0 ==> (match old(taker).side {
            Side::Buy => old(book).asks@.len() > 0 && out.0@[0].maker_order_id == old(
                book,
            ).asks@[0].order_id && out.0@[0].execution_price == old(book).asks@[0].price,
            Side::Sell => old(book).bids@.len() > 0 && out.0@[0].maker_order_id == old(
                book,
            ).bids@[0].order_id && out.0@[0].execution_price == old(book).bids@[0].price,
        }) && out.0@[0].execution_quantity == exec_quantity_of(
            *old(taker),
            best_opposite(*old(book), old(taker).side),
        ),
        final(ledger).balances() == settle_fold(
            old(ledger).balances(),
            out.0@,
            base_asset,
            quote_asset,
        ),
        (out.1 || out.0@.len() > 0) ==> old(book).spec_crossable(
            old(taker).side,
            old(taker).price,
        ),
        !old(book).spec_crossable(old(taker).side, old(taker).price) ==> (out.0@.len() == 0
            && !out.1 && *final(taker) == *old(taker)),
        out.1 ==> ({
            let top = best_opposite(*final(book), old(taker).side);
            let q = exec_quantity_of(*final(taker), top);
            &&& final(book).spec_crossable(old(taker).side, old(taker).price)
            &&& final(taker).filled_quantity < final(taker).quantity
            &&& !settle_ok(
                final(ledger).balances(),
                buyer_of(*final(taker), top),
                seller_of(*final(taker), top),
                base_asset,
                quote_asset,
                (top.price * q) as u64,
                q,
            )
        }),
        forall|id: u64| #[trigger] final(book).has_order(id) ==> old(book).has_order(id),
        final(history)@.len() >= old(history)@.len(),
        final(history)@.take(old(history)@.len() as int) == old(history)@,
        forall|i: int|
            old(history)@.len() <= i < final(history)@.len() ==> ((
            #[trigger] final(history)@[i]).wf() && final(history)@[i].status == OrderStatus::Filled
                && old(book).has_order(final(history)@[i].order_id)),
        forall|t: u64|
            #[trigger] old(book).times_below(t) ==> (final(book).times_below(t) && forall|i: int|
                old(history)@.len() <= i < final(history)@.len() ==> (
                #[trigger] final(history)@[i]).created_at <= t),
        forall|i: int|
            0 <= i < out.0@.len() ==> (match old(taker).side {
                Side::Buy => crate::book::has_id(
                    old(book).asks@,
                    (#[trigger] out.0@[i]).maker_order_id,
                ),
                Side::Sell => crate::book::has_id(
                    old(book).bids@,
                    (#[trigger] out.0@[i]).maker_order_id,
                ),
            }),
        out.0@.len() == 0 ==> *final(book) == *old(book) && final(history)@ == old(history)@
            && final(taker).filled_quantity == old(taker).filled_quantity && *final(taker) == *old(taker) && forall|a: u64, t: u64| final(ledger).balance(a, t) == old(ledger).balance(a, t),
        ({
            let r0 = match_run(
                match old(taker).side {
                    Side::Buy => old(book).asks@,
                    Side::Sell => old(book).bids@,
                },
                *old(taker),
                old(ledger).balances(),
                base_asset,
                quote_asset,
            );
            &&& out.0@ == r0.fills
            &&& *final(taker) == r0.taker
            &&& final(ledger).balances() == r0.balances
            &&& out.1 == r0.halted
            &&& final(history)@ == old(history)@ + r0.done
            &&& (match old(taker).side {
                Side::Buy => final(book).asks@ == r0.rest && final(book).bids@ == old(
                    book,
                ).bids@,
                Side::Sell => final(book).bids@ == r0.rest && final(book).asks@ == old(
                    book,
                ).asks@,
            })
        }),
{
    let mut fills: Vec<Fill> = Vec::new();
    let mut failed: bool = false;
    let ghost t0 = *taker;
    let ghost b0 = *book;
    let ghost h0 = history@;
    let ghost opp0 = match t0.side {
        Side::Buy => b0.asks@,
        Side::Sell => b0.bids@,
    };
    let ghost m0 = ledger.balances();
    let ghost r0 = match_run(opp0, t0, m0, base_asset, quote_asset);
    proof {
        let rc0 = match_run(opp0, t0, m0, base_asset, quote_asset);
        assert(history@.skip(h0.len() as int) =~= Seq::<Order>::empty());
        assert(fills@ + rc0.fills =~= rc0.fills);
        assert(history@.skip(h0.len() as int) + rc0.done =~= rc0.done);
    }
    while taker.filled_quantity < taker.quantity && !failed && book.peek_crossable(
        taker.side,
        taker.price,
    )
        invariant
            book.wf(t0.market_id),
            taker.order_id == t0.order_id,
            taker.owner == t0.owner,
            taker.market_id == t0.market_id,
            taker.side == t0.side,
            taker.price == t0.price,
            taker.quantity == t0.quantity,
            taker.created_at == t0.created_at,
            taker.wf(),
            taker.status == OrderStatus::Active || taker.status == OrderStatus::Filled,
            taker.filled_quantity >= t0.filled_quantity,
            fills_sum(fills@) == taker.filled_quantity - t0.filled_quantity,
            forall|i: int|
                0 <= i < fills@.len() ==> fill_ok(
                    #[trigger] fills@[i],
                    t0.order_id,
                    t0.side,
                    t0.price,
                ),
            forall|id: u64| #[trigger] book.has_order(id) ==> b0.has_order(id),
            history@.len() >= h0.len(),
            history@.take(h0.len() as int) == h0,
            forall|i: int|
                h0.len() <= i < history@.len() ==> ((#[trigger] history@[i]).wf()
                    && history@[i].status == OrderStatus::Filled && b0.has_order(
                    history@[i].order_id,
                )),
            forall|t: u64|
                #[trigger] b0.times_below(t) ==> (book.times_below(t) && forall|i: int|
                    h0.len() <= i < history@.len() ==> (#[trigger] history@[i]).created_at <= t),
            t0.side == Side::Buy ==> forall|id: u64|
                #[trigger] crate::book::has_id(book.asks@, id) ==> crate::book::has_id(
                    b0.asks@,
                    id,
                ),
            t0.side == Side::Sell ==> forall|id: u64|
                #[trigger] crate::book::has_id(book.bids@, id) ==> crate::book::has_id(
                    b0.bids@,
                    id,
                ),
            forall|i: int|
                0 <= i < fills@.len() ==> (match t0.side {
                    Side::Buy => crate::book::has_id(
                        b0.asks@,
                        (#[trigger] fills@[i]).maker_order_id,
                    ),
                    Side::Sell => crate::book::has_id(
                        b0.bids@,
                        (#[trigger] fills@[i]).maker_order_id,
                    ),
                }),
            fills@.len() == 0 ==> *book == b0 && history@ == h0 && taker.filled_quantity
                == t0.filled_quantity && *taker == t0 && forall|a: u64, t: u64|
                ledger.balance(a, t) == old(ledger).balance(a, t),
            forall|i: int, j: int|
                0 <= i < j < fills@.len() ==> price_priority(
                    t0.side,
                    (#[trigger] fills@[i]).execution_price,
                    (#[trigger] fills@[j]).execution_price,
                ),
            fills@.len() > 0 ==> (match t0.side {
                Side::Buy => book.asks@.len() > 0 ==> fills@.last().execution_price
                    <= book.asks@[0].price,
                Side::Sell => book.bids@.len() > 0 ==> fills@.last().execution_price
                    >= book.bids@[0].price,
            }),
            fills@.len() > 0 ==> (match t0.side {
                Side::Buy => b0.asks@.len() > 0 && fills@[0].maker_order_id == b0.asks@[
                    0
                ].order_id && fills@[0].execution_price == b0.asks@[0].price,
                Side::Sell => b0.bids@.len() > 0 && fills@[0].maker_order_id == b0.bids@[
                    0
                ].order_id && fills@[0].execution_price == b0.bids@[0].price,
            }) && fills@[0].execution_quantity == exec_quantity_of(
                t0,
                best_opposite(b0, t0.side),
            ),
            ledger.balances() == settle_fold(
                old(ledger).balances(),
                fills@,
                base_asset,
                quote_asset,
            ),
            (failed || fills@.len() > 0) ==> b0.spec_crossable(t0.side, t0.price),
            failed ==> ({
                let top = best_opposite(*book, t0.side);
                let q = exec_quantity_of(*taker, top);
                &&& book.spec_crossable(t0.side, t0.price)
                &&& taker.filled_quantity < taker.quantity
                &&& !settle_ok(
                    ledger.balances(),
                    buyer_of(*taker, top),
                    seller_of(*taker, top),
                    base_asset,
                    quote_asset,
                    (top.price * q) as u64,
                    q,
                )
            }),
            opp0 == (match t0.side {
                Side::Buy => b0.asks@,
                Side::Sell => b0.bids@,
            }),
            m0 == old(ledger).balances(),
            r0 == match_run(opp0, t0, m0, base_asset, quote_asset),
            (match t0.side {
                Side::Buy => book.bids@ == b0.bids@,
                Side::Sell => book.asks@ == b0.asks@,
            }),
            ({
                let cur = (match t0.side {
                    Side::Buy => book.asks@,
                    Side::Sell => book.bids@,
                });
                let rc = match_run(cur, *taker, ledger.balances(), base_asset, quote_asset);
                &&& r0.fills == fills@ + rc.fills
                &&& r0.rest == rc.rest
                &&& r0.taker == rc.taker
                &&& r0.balances == rc.balances
                &&& r0.halted == rc.halted
                &&& r0.done == history@.skip(h0.len() as int) + rc.done
            }),
        decreases (taker.quantity - taker.filled_quantity) + (if failed {
            0int
        } else {
            1int
        }),
    {
        let maker_opt = match taker.side {
            Side::Buy => book.best_ask(),
            Side::Sell => book.best_bid(),
        };
        let mut maker = maker_opt.unwrap();
        let ghost maker0 = maker;
        let ghost bcur = *book;
        let ghost tpre = *taker;
        let ghost cur_pre = match t0.side {
            Side::Buy => bcur.asks@,
            Side::Sell => bcur.bids@,
        };
        proof {
            match taker.side {
                Side::Buy => {
                    assert(book.asks@[0].order_id == maker0.order_id);
                    assert(crate::book::has_id(book.asks@, maker0.order_id));
                },
                Side::Sell => {
                    assert(book.bids@[0].order_id == maker0.order_id);
                    assert(crate::book::has_id(book.bids@, maker0.order_id));
                },
            }
            assert(book.has_order(maker0.order_id));
        }
        let ghost lpre = *ledger;
        match fill_order(ledger, taker, &mut maker, base_asset, quote_asset) {
            Err(_) => {
                proof {
                    assert forall|kk: (u64, u64)| #[trigger] ledger.balances()[kk]
                        == lpre.balances()[kk] by {
                        crate::ledger::lemma_balances_index(*ledger, kk.0, kk.1);
                        crate::ledger::lemma_balances_index(lpre, kk.0, kk.1);
                    }
                    assert(ledger.balances() =~= lpre.balances());
                    assert(maker0 == best_opposite(*book, t0.side));
                }
                failed = true;
            },
            Ok(f) => {
                let ghost fills0 = fills@;
                fills.push(f);
                proof {
                    assert(fills@.drop_last() =~= fills0);
                    assert(fills@.last() == f);
                    assert(lpre.balances() == settle_fold(
                        old(ledger).balances(),
                        fills0,
                        base_asset,
                        quote_asset,
                    ));
                    assert(ledger.balances() == settle_fold(
                        old(ledger).balances(),
                        fills@,
                        base_asset,
                        quote_asset,
                    ));
                    if fills0.len() == 0 {
                        assert(maker0 == best_opposite(b0, t0.side));
                    }
                }
                if maker.filled_quantity == maker.quantity {
                    match taker.side {
                        Side::Buy => {
                            let ghost apre = book.asks@;
                            let _ = book.pop_best_ask();
                            proof {
                                if book.asks@.len() > 0 {
                                    assert(book.asks@[0] == apre[1]);
                                    assert(crate::book::ask_prior(apre[0], apre[1]));
                                }
                                assert forall|id: u64|
                                    #[trigger] crate::book::has_id(book.asks@, id) implies
                                    crate::book::has_id(apre, id) by {
                                    if crate::book::has_id(book.asks@, id) {
                                        let j = choose|j: int|
                                            0 <= j < book.asks@.len() && (
                                            #[trigger] book.asks@[j]).order_id == id;
                                        assert(apre[j + 1] == book.asks@[j]);
                                    }
                                }
                            }
                        },
                        Side::Sell => {
                            let ghost bpre = book.bids@;
                            let _ = book.pop_best_bid();
                            proof {
                                if book.bids@.len() > 0 {
                                    assert(book.bids@[0] == bpre[1]);
                                    assert(crate::book::bid_prior(bpre[0], bpre[1]));
                                }
                                assert forall|id: u64|
                                    #[trigger] crate::book::has_id(book.bids@, id) implies
                                    crate::book::has_id(bpre, id) by {
                                    if crate::book::has_id(book.bids@, id) {
                                        let j = choose|j: int|
                                            0 <= j < book.bids@.len() && (
                                            #[trigger] book.bids@[j]).order_id == id;
                                        assert(bpre[j + 1] == book.bids@[j]);
                                    }
                                }
                            }
                        },
                    }
                    let ghost hpre = history@;
                    history.push(maker);
                    proof {
                        assert(history@.take(h0.len() as int) =~= hpre.take(h0.len() as int));
                        assert forall|t: u64| #[trigger] b0.times_below(t) implies (
                        book.times_below(t) && forall|i: int|
                            h0.len() <= i < history@.len() ==> (
                            #[trigger] history@[i]).created_at <= t) by {
                            assert(maker.created_at == maker0.created_at);
                        }
                        // one unfolding of the matching function mirrors this step
                        let q = f.execution_quantity;
                        let m2 = settle_map(
                            lpre.balances(),
                            f.buyer,
                            f.seller,
                            base_asset,
                            quote_asset,
                            (maker0.price * q) as u64,
                            q,
                        );
                        let tail = match_run(
                            cur_pre.drop_first(),
                            apply_fill(tpre, q),
                            m2,
                            base_asset,
                            quote_asset,
                        );
                        assert(cur_pre[0] == maker0);
                        assert(crosses(t0.side, t0.price, cur_pre[0].price));
                        assert(match_run(cur_pre, tpre, lpre.balances(), base_asset, quote_asset)
                            == (MatchRun {
                            fills: seq![f] + tail.fills,
                            rest: tail.rest,
                            taker: tail.taker,
                            balances: tail.balances,
                            halted: tail.halted,
                            done: seq![apply_fill(maker0, q)] + tail.done,
                        }));
                        assert(fills@ =~= fills0.push(f));
                        assert(fills0 + (seq![f] + tail.fills) =~= fills0.push(f) + tail.fills);
                        assert(history@.skip(h0.len() as int) =~= hpre.skip(
                            h0.len() as int,
                        ).push(maker));
                        assert(hpre.skip(h0.len() as int) + (seq![apply_fill(maker0, q)]
                            + tail.done) =~= hpre.skip(h0.len() as int).push(maker) + tail.done);
                    }
                } else {
                    proof {
                        let q = f.execution_quantity;
                        let m2 = settle_map(
                            lpre.balances(),
                            f.buyer,
                            f.seller,
                            base_asset,
                            quote_asset,
                            (maker0.price * q) as u64,
                            q,
                        );
                        assert(cur_pre[0] == maker0);
                        assert(crosses(t0.side, t0.price, cur_pre[0].price));
                        assert(apply_fill(tpre, q).filled_quantity == tpre.quantity);
                        assert(match_run(cur_pre, tpre, lpre.balances(), base_asset, quote_asset)
                            == (MatchRun {
                            fills: seq![f],
                            rest: cur_pre.update(0, apply_fill(maker0, q)),
                            taker: apply_fill(tpre, q),
                            balances: m2,
                            halted: false,
                            done: Seq::<Order>::empty(),
                        }));
                        let rc2 = match_run(
                            cur_pre.update(0, apply_fill(maker0, q)),
                            apply_fill(tpre, q),
                            m2,
                            base_asset,
                            quote_asset,
                        );
                        assert(rc2 == (MatchRun {
                            fills: Seq::<Fill>::empty(),
                            rest: cur_pre.update(0, apply_fill(maker0, q)),
                            taker: apply_fill(tpre, q),
                            balances: m2,
                            halted: false,
                            done: Seq::<Order>::empty(),
                        }));
                        assert(fills0 + seq![f] =~= fills0.push(f));
                        assert(fills@ =~= fills0.push(f));
                        assert(fills@ + rc2.fills =~= fills@);
                        assert(history@.skip(h0.len() as int) + rc2.done =~= history@.skip(
                            h0.len() as int,
                        ));
                    }
                    match taker.side {
                        Side::Buy => {
                            book.set_best_ask(maker);
                            proof {
                                assert forall|id: u64|
                                    #[trigger] crate::book::has_id(book.asks@, id) implies
                                    crate::book::has_id(bcur.asks@, id) by {
                                    if crate::book::has_id(book.asks@, id) {
                                        let j = choose|j: int|
                                            0 <= j < book.asks@.len() && (
                                            #[trigger] book.asks@[j]).order_id == id;
                                        assert(bcur.asks@[j].order_id == id);
                                    }
                                }
                            }
                        },
                        Side::Sell => {
                            book.set_best_bid(maker);
                            proof {
                                assert forall|id: u64|
                                    #[trigger] crate::book::has_id(book.bids@, id) implies
                                    crate::book::has_id(bcur.bids@, id) by {
                                    if crate::book::has_id(book.bids@, id) {
                                        let j = choose|j: int|
                                            0 <= j < book.bids@.len() && (
                                            #[trigger] book.bids@[j]).order_id == id;
                                        assert(bcur.bids@[j].order_id == id);
                                    }
                                }
                            }
                        },
                    }
                }
            },
        }
    }
    proof {
        let cur = match t0.side {
            Side::Buy => book.asks@,
            Side::Sell => book.bids@,
        };
        let rc = match_run(cur, *taker, ledger.balances(), base_asset, quote_asset);
        if failed {
            assert(cur.len() > 0 && crosses(t0.side, t0.price, cur[0].price));
            assert(cur[0] == best_opposite(*book, t0.side));
            assert(rc == (MatchRun {
                fills: Seq::<Fill>::empty(),
                rest: cur,
                taker: *taker,
                balances: ledger.balances(),
                halted: true,
                done: Seq::<Order>::empty(),
            }));
        } else {
            assert(rc == (MatchRun {
                fills: Seq::<Fill>::empty(),
                rest: cur,
                taker: *taker,
                balances: ledger.balances(),
                halted: false,
                done: Seq::<Order>::empty(),
            }));
        }
        assert(fills@ + rc.fills =~= fills@);
        assert(history@.skip(h0.len() as int) + rc.done =~= history@.skip(h0.len() as int));
        assert(history@ =~= history@.take(h0.len() as int) + history@.skip(h0.len() as int));
    }
    (fills, failed)
}

} // verus!
