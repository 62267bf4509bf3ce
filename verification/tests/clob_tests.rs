use clob::{CLOBError, Exchange, Ledger, Order, OrderBook, OrderStatus, Side};

const BASE: u64 = 1;
const QUOTE: u64 = 2;

fn market(ex: &mut Exchange) {
    ex.initialize_market(7, BASE, QUOTE, 999).unwrap();
}

#[test]
fn initialize_market_and_duplicate() {
    let mut ex = Exchange::new();
    assert_eq!(ex.initialize_market(7, BASE, QUOTE, 999), Ok(()));
    assert_eq!(
        ex.initialize_market(7, 3, 4, 1000),
        Err(CLOBError::DuplicateMarket)
    );
    let v = ex.get_orderbook(7).unwrap();
    assert_eq!(v.market_id, 7);
    assert_eq!(v.base_asset, BASE);
    assert_eq!(v.quote_asset, QUOTE);
    assert_eq!(v.authority, 999);
    assert!(v.best_bid.is_none());
    assert!(v.best_ask.is_none());
}

#[test]
fn query_unknown_market() {
    let ex = Exchange::new();
    assert!(matches!(ex.get_orderbook(5), Err(CLOBError::MarketNotFound)));
}

#[test]
fn place_validation_errors() {
    let mut ex = Exchange::new();
    market(&mut ex);
    assert!(matches!(
        ex.place_order(7, 10, Side::Buy, 0, 5),
        Err(CLOBError::InvalidPrice)
    ));
    assert!(matches!(
        ex.place_order(7, 10, Side::Buy, 100, 0),
        Err(CLOBError::InvalidQuantity)
    ));
    assert!(matches!(
        ex.place_order(8, 10, Side::Buy, 100, 5),
        Err(CLOBError::MarketNotFound)
    ));
}

#[test]
fn overflow_guard_creates_no_order() {
    let mut ex = Exchange::new();
    market(&mut ex);
    let r = ex.place_order(7, 10, Side::Buy, u64::MAX, 2);
    assert!(matches!(r, Err(CLOBError::Overflow)));
    // no order record was created anywhere
    assert_eq!(ex.cancel_order(1, 10), Err(CLOBError::NotFound));
    let v = ex.get_orderbook(7).unwrap();
    assert!(v.best_bid.is_none());
}

#[test]
fn largest_product_is_accepted() {
    let mut ex = Exchange::new();
    market(&mut ex);
    // price * quantity == u64::MAX exactly is within the supported range
    let res = ex.place_order(7, 10, Side::Buy, u64::MAX, 1).unwrap();
    assert_eq!(res.order.status, OrderStatus::Active);
    assert_eq!(res.order.price, u64::MAX);
}

#[test]
fn end_to_end_scenario() {
    let mut ex = Exchange::new();
    market(&mut ex);
    ex.deposit(10, QUOTE, 10_000).unwrap();
    ex.deposit(20, BASE, 100).unwrap();
    ex.deposit(30, BASE, 100).unwrap();

    // Buy order 1: price 100, quantity 10 -> rests Active, filled 0
    let r1 = ex.place_order(7, 10, Side::Buy, 100, 10).unwrap();
    assert_eq!(r1.order.order_id, 1);
    assert_eq!(r1.order.status, OrderStatus::Active);
    assert_eq!(r1.order.filled_quantity, 0);
    assert!(r1.fills.is_empty());

    // Sell order 2: price 100, quantity 4 -> matches at once, order 2 Filled
    let r2 = ex.place_order(7, 20, Side::Sell, 100, 4).unwrap();
    assert_eq!(r2.order.order_id, 2);
    assert_eq!(r2.order.status, OrderStatus::Filled);
    assert_eq!(r2.order.filled_quantity, 4);
    assert_eq!(r2.fills.len(), 1);
    assert_eq!(r2.fills[0].taker_order_id, 2);
    assert_eq!(r2.fills[0].maker_order_id, 1);
    assert_eq!(r2.fills[0].execution_price, 100);
    assert_eq!(r2.fills[0].execution_quantity, 4);
    assert_eq!(r2.fills[0].buyer, 10);
    assert_eq!(r2.fills[0].seller, 20);
    // order 1 now partially filled but still the best bid
    let v = ex.get_orderbook(7).unwrap();
    let bb = v.best_bid.unwrap();
    assert_eq!(bb.order_id, 1);
    assert_eq!(bb.filled_quantity, 4);
    assert_eq!(bb.status, OrderStatus::Active);

    // Sell order 3: price 100, quantity 6 -> fills order 1 completely
    let r3 = ex.place_order(7, 30, Side::Sell, 100, 6).unwrap();
    assert_eq!(r3.order.order_id, 3);
    assert_eq!(r3.order.status, OrderStatus::Filled);
    assert_eq!(r3.order.filled_quantity, 6);
    assert_eq!(r3.fills.len(), 1);
    assert_eq!(r3.fills[0].execution_price, 100);
    assert_eq!(r3.fills[0].execution_quantity, 6);
    let v = ex.get_orderbook(7).unwrap();
    assert!(v.best_bid.is_none());

    // balanced settlement across the whole run: 10 base for 1000 quote
    assert_eq!(ex.balance_of(10, QUOTE), 10_000 - 1000);
    assert_eq!(ex.balance_of(10, BASE), 10);
    assert_eq!(ex.balance_of(20, QUOTE), 400);
    assert_eq!(ex.balance_of(20, BASE), 96);
    assert_eq!(ex.balance_of(30, QUOTE), 600);
    assert_eq!(ex.balance_of(30, BASE), 94);
}

#[test]
fn price_time_priority() {
    let mut ex = Exchange::new();
    market(&mut ex);
    ex.deposit(11, QUOTE, 10_000).unwrap();
    ex.deposit(12, QUOTE, 10_000).unwrap();
    ex.deposit(13, BASE, 100).unwrap();

    // bid 1 arrives first at price 100, bid 2 later at price 101
    let r1 = ex.place_order(7, 11, Side::Buy, 100, 10).unwrap();
    let r2 = ex.place_order(7, 12, Side::Buy, 101, 3).unwrap();
    assert_eq!(r1.order.order_id, 1);
    assert_eq!(r2.order.order_id, 2);

    // an incoming sell at 100 crosses both, but takes the higher bid first
    let r3 = ex.place_order(7, 13, Side::Sell, 100, 5).unwrap();
    assert_eq!(r3.fills.len(), 2);
    assert_eq!(r3.fills[0].maker_order_id, 2);
    assert_eq!(r3.fills[0].execution_price, 101);
    assert_eq!(r3.fills[0].execution_quantity, 3);
    assert_eq!(r3.fills[1].maker_order_id, 1);
    assert_eq!(r3.fills[1].execution_price, 100);
    assert_eq!(r3.fills[1].execution_quantity, 2);
    assert_eq!(r3.fills[0].buyer, 12);
    assert_eq!(r3.fills[0].seller, 13);
    assert_eq!(r3.fills[1].buyer, 11);
    assert_eq!(r3.fills[1].seller, 13);
    assert_eq!(r3.order.status, OrderStatus::Filled);
    // maker prices were paid: 3 * 101 + 2 * 100
    assert_eq!(ex.balance_of(13, QUOTE), 303 + 200);
}

#[test]
fn time_priority_on_equal_price() {
    let mut ex = Exchange::new();
    market(&mut ex);
    ex.place_order(7, 11, Side::Buy, 100, 5).unwrap();
    ex.place_order(7, 12, Side::Buy, 100, 5).unwrap();
    let v = ex.get_orderbook(7).unwrap();
    // the earlier order keeps the top of the book
    assert_eq!(v.best_bid.unwrap().order_id, 1);
}

#[test]
fn cancel_paths_and_idempotent_rejection() {
    let mut ex = Exchange::new();
    market(&mut ex);
    ex.deposit(10, QUOTE, 10_000).unwrap();
    ex.deposit(20, BASE, 100).unwrap();

    let r1 = ex.place_order(7, 10, Side::Buy, 100, 10).unwrap();
    assert_eq!(r1.order.order_id, 1);

    // wrong requester: rejected, order still resting
    assert_eq!(ex.cancel_order(1, 77), Err(CLOBError::Unauthorized));
    assert_eq!(ex.get_orderbook(7).unwrap().best_bid.unwrap().order_id, 1);

    // owner cancels: order leaves the book, record keeps it as Cancelled
    assert_eq!(ex.cancel_order(1, 10), Ok(()));
    assert!(ex.get_orderbook(7).unwrap().best_bid.is_none());

    // cancelling a Cancelled order again is rejected and changes nothing
    assert_eq!(ex.cancel_order(1, 10), Err(CLOBError::OrderNotActive));
    assert_eq!(ex.cancel_order(1, 10), Err(CLOBError::OrderNotActive));

    // a fully Filled order is rejected the same way
    let r2 = ex.place_order(7, 10, Side::Buy, 100, 4).unwrap();
    assert_eq!(r2.order.order_id, 2);
    let r3 = ex.place_order(7, 20, Side::Sell, 100, 4).unwrap();
    assert_eq!(r3.order.status, OrderStatus::Filled);
    assert_eq!(ex.cancel_order(2, 10), Err(CLOBError::OrderNotActive));
    assert_eq!(ex.cancel_order(3, 20), Err(CLOBError::OrderNotActive));

    // an id never granted
    assert_eq!(ex.cancel_order(99, 10), Err(CLOBError::NotFound));
}

#[test]
fn settlement_atomicity_on_failed_base_leg() {
    let mut ex = Exchange::new();
    market(&mut ex);
    // the buyer can pay the quote leg, but the seller holds no base at all,
    // so the base leg fails after the quote leg succeeded
    ex.deposit(10, QUOTE, 1_000).unwrap();
    let r1 = ex.place_order(7, 10, Side::Buy, 10, 5).unwrap();
    assert_eq!(r1.order.order_id, 1);

    let r2 = ex.place_order(7, 20, Side::Sell, 10, 5);
    assert!(matches!(r2, Err(CLOBError::SettlementFailed)));

    // neither leg is retained
    assert_eq!(ex.balance_of(10, QUOTE), 1_000);
    assert_eq!(ex.balance_of(10, BASE), 0);
    assert_eq!(ex.balance_of(20, QUOTE), 0);
    assert_eq!(ex.balance_of(20, BASE), 0);
    // the resting order is untouched and no order was created for the sell
    let bb = ex.get_orderbook(7).unwrap().best_bid.unwrap();
    assert_eq!(bb.order_id, 1);
    assert_eq!(bb.filled_quantity, 0);
    assert_eq!(ex.cancel_order(2, 20), Err(CLOBError::NotFound));
}

#[test]
fn settlement_failure_after_committed_fill_halts_matching() {
    let mut ex = Exchange::new();
    market(&mut ex);
    ex.deposit(11, QUOTE, 10_000).unwrap(); // solvent buyer
    ex.deposit(13, BASE, 100).unwrap(); // seller

    // bid 1 (solvent, better price), bid 2 (insolvent)
    ex.place_order(7, 11, Side::Buy, 100, 2).unwrap();
    ex.place_order(7, 12, Side::Buy, 90, 2).unwrap();

    // the sell crosses both; the first fill settles, the second cannot
    let r3 = ex.place_order(7, 13, Side::Sell, 80, 4).unwrap();
    assert!(r3.settlement_failed);
    assert_eq!(r3.fills.len(), 1);
    assert_eq!(r3.fills[0].maker_order_id, 1);
    assert_eq!(r3.fills[0].execution_price, 100);
    assert_eq!(r3.fills[0].execution_quantity, 2);
    assert_eq!(r3.order.filled_quantity, 2);
    assert_eq!(r3.order.status, OrderStatus::Active);

    // the committed fill stands; the failing fill left no trace
    assert_eq!(ex.balance_of(11, QUOTE), 10_000 - 200);
    assert_eq!(ex.balance_of(11, BASE), 2);
    assert_eq!(ex.balance_of(13, QUOTE), 200);
    assert_eq!(ex.balance_of(13, BASE), 98);
    assert_eq!(ex.balance_of(12, QUOTE), 0);
    assert_eq!(ex.balance_of(12, BASE), 0);
}

#[test]
fn non_crossing_orders_rest() {
    let mut ex = Exchange::new();
    market(&mut ex);
    ex.place_order(7, 10, Side::Buy, 90, 5).unwrap();
    let r2 = ex.place_order(7, 20, Side::Sell, 100, 5).unwrap();
    // ask priced above the best bid does not cross
    assert!(r2.fills.is_empty());
    assert_eq!(r2.order.status, OrderStatus::Active);
    let v = ex.get_orderbook(7).unwrap();
    assert_eq!(v.best_bid.unwrap().order_id, 1);
    assert_eq!(v.best_ask.unwrap().order_id, 2);
}

#[test]
fn deposit_and_balances() {
    let mut ex = Exchange::new();
    assert_eq!(ex.balance_of(5, BASE), 0);
    ex.deposit(5, BASE, 42).unwrap();
    ex.deposit(5, BASE, 8).unwrap();
    assert_eq!(ex.balance_of(5, BASE), 50);
    assert_eq!(ex.deposit(5, BASE, u64::MAX), Err(CLOBError::Overflow));
    assert_eq!(ex.balance_of(5, BASE), 50);
}

#[test]
fn ledger_settlement_is_zero_sum() {
    let mut l = Ledger::new();
    l.credit(1, QUOTE, 500).unwrap();
    l.credit(2, BASE, 30).unwrap();
    // buyer 1 pays 7 * 20 = 140 quote, receives 20 base
    l.settle_fill(1, 2, BASE, QUOTE, 7, 20).unwrap();
    assert_eq!(l.balance_of(1, QUOTE), 360);
    assert_eq!(l.balance_of(2, QUOTE), 140);
    assert_eq!(l.balance_of(2, BASE), 10);
    assert_eq!(l.balance_of(1, BASE), 20);
    // each asset's total is conserved
    assert_eq!(l.balance_of(1, QUOTE) + l.balance_of(2, QUOTE), 500);
    assert_eq!(l.balance_of(1, BASE) + l.balance_of(2, BASE), 30);
}

#[test]
fn ledger_failed_settlement_changes_nothing() {
    let mut l = Ledger::new();
    l.credit(1, QUOTE, 100).unwrap();
    l.credit(2, BASE, 3).unwrap();
    // the buyer cannot pay 7 * 20 = 140 quote
    let r = l.settle_fill(1, 2, BASE, QUOTE, 7, 20);
    assert_eq!(r, Err(CLOBError::SettlementFailed));
    assert_eq!(l.balance_of(1, QUOTE), 100);
    assert_eq!(l.balance_of(2, BASE), 3);
    assert_eq!(l.balance_of(2, QUOTE), 0);
    assert_eq!(l.balance_of(1, BASE), 0);
}

#[test]
fn ledger_debit_requires_funds() {
    let mut l = Ledger::new();
    l.credit(1, BASE, 10).unwrap();
    assert_eq!(l.debit(1, BASE, 11), Err(CLOBError::InsufficientFunds));
    assert_eq!(l.debit(1, BASE, 10), Ok(()));
    assert_eq!(l.balance_of(1, BASE), 0);
}

#[test]
fn book_rejects_duplicate_ids() {
    let mut book = OrderBook::new();
    let o = Order {
        order_id: 4,
        owner: 1,
        market_id: 7,
        side: Side::Buy,
        price: 10,
        quantity: 5,
        filled_quantity: 0,
        created_at: 1,
        status: OrderStatus::Active,
    };
    assert_eq!(book.insert(o), Ok(()));
    let again = Order { created_at: 2, ..o };
    assert_eq!(book.insert(again), Err(CLOBError::DuplicateOrder));
}

#[test]
fn book_priority_and_removal() {
    let mut book = OrderBook::new();
    let mk = |id: u64, price: u64, t: u64| Order {
        order_id: id,
        owner: 1,
        market_id: 7,
        side: Side::Sell,
        price,
        quantity: 5,
        filled_quantity: 0,
        created_at: t,
        status: OrderStatus::Active,
    };
    book.insert(mk(1, 105, 1)).unwrap();
    book.insert(mk(2, 101, 2)).unwrap();
    book.insert(mk(3, 101, 3)).unwrap();
    // lowest price first; earlier arrival wins the tie
    assert_eq!(book.best_ask().unwrap().order_id, 2);
    assert!(book.peek_crossable(Side::Buy, 101));
    assert!(!book.peek_crossable(Side::Buy, 100));
    book.remove(2).unwrap();
    assert_eq!(book.best_ask().unwrap().order_id, 3);
    assert!(matches!(book.remove(9), Err(CLOBError::NotFound)));
}

#[test]
fn side_names() {
    assert_eq!(Side::Buy.as_ref(), "Buy");
    assert_eq!(Side::Sell.as_ref(), "Sell");
}
