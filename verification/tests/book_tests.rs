//! Behavioural tests of the order book: matching, resting, cancellation,
//! rejection, and the book-level invariants on concrete scenarios.

use order_book::Fill;
use order_book::Order;
use order_book::OrderBook;
use order_book::Side;
use order_book::SubmitError;

fn buy(id: u64, price: u64, quantity: u64) -> Order {
    Order { id, price, quantity, side: Side::Buy }
}

fn sell(id: u64, price: u64, quantity: u64) -> Order {
    Order { id, price, quantity, side: Side::Sell }
}

fn fill(matched_id: u64, volume: u64, price: u64) -> Fill {
    Fill { matched_id, volume, price }
}

#[test]
fn empty_book() {
    let book = OrderBook::new();
    assert!(book.bids().is_empty());
    assert!(book.asks().is_empty());
    assert_eq!(book.last_match_id(), 0);
    assert_eq!(book.order_count(), 0);
    assert!(!book.contains(1));
}

#[test]
fn worked_example_scenario() {
    // book empty; Buy id=1 @100 x10 rests with no fills; Buy id=2 @100 x5
    // rests behind id=1; Sell id=3 @99 x12 fills id=1 for 10 @100 and id=2
    // for 2 @100, rests nothing, and leaves id=2 with remaining=3.
    let mut book = OrderBook::new();
    let f1 = book.add_order(buy(1, 100, 10)).unwrap();
    assert!(f1.is_empty());
    let f2 = book.add_order(buy(2, 100, 5)).unwrap();
    assert!(f2.is_empty());
    assert_eq!(book.bids().len(), 2);
    assert_eq!(book.bids()[0].id, 1);
    assert_eq!(book.bids()[1].id, 2);

    let f3 = book.add_order(sell(3, 99, 12)).unwrap();
    assert_eq!(f3, vec![fill(1, 10, 100), fill(2, 2, 100)]);
    assert_eq!(book.bids().len(), 1);
    assert_eq!(book.bids()[0].id, 2);
    assert_eq!(book.bids()[0].quantity, 3);
    assert!(book.asks().is_empty());
    assert!(!book.contains(1));
    assert!(!book.contains(3));
}

#[test]
fn price_time_priority_same_price() {
    // two same-price resting orders: the earlier one is consumed in full
    // before the later one is touched
    let mut book = OrderBook::new();
    book.add_order(sell(1, 50, 4)).unwrap();
    book.add_order(sell(2, 50, 4)).unwrap();
    let fills = book.add_order(buy(3, 50, 6)).unwrap();
    assert_eq!(fills, vec![fill(1, 4, 50), fill(2, 2, 50)]);
    assert_eq!(book.asks().len(), 1);
    assert_eq!(book.asks()[0].id, 2);
    assert_eq!(book.asks()[0].quantity, 2);
}

#[test]
fn better_price_beats_earlier_arrival() {
    // price priority comes before arrival: the cheaper ask trades first even
    // though it arrived later
    let mut book = OrderBook::new();
    book.add_order(sell(1, 55, 3)).unwrap();
    book.add_order(sell(2, 52, 3)).unwrap();
    let fills = book.add_order(buy(3, 60, 4)).unwrap();
    assert_eq!(fills, vec![fill(1, 3, 52), fill(2, 1, 55)]);
    assert_eq!(book.asks().len(), 1);
    assert_eq!(book.asks()[0].id, 1);
    assert_eq!(book.asks()[0].quantity, 2);
}

#[test]
fn no_crossed_book_after_submits() {
    let mut book = OrderBook::new();
    book.add_order(buy(1, 100, 10)).unwrap();
    book.add_order(sell(2, 105, 5)).unwrap();
    book.add_order(buy(3, 103, 2)).unwrap();
    book.add_order(sell(4, 101, 1)).unwrap();
    book.add_order(buy(5, 99, 7)).unwrap();
    book.add_order(sell(6, 104, 2)).unwrap();
    let best_bid = book.bids().first().map(|o| o.price);
    let best_ask = book.asks().first().map(|o| o.price);
    if let (Some(b), Some(a)) = (best_bid, best_ask) {
        assert!(b < a);
    }
    // and each side is sorted best-first throughout
    for w in book.bids().windows(2) {
        assert!(w[0].price >= w[1].price);
    }
    for w in book.asks().windows(2) {
        assert!(w[0].price <= w[1].price);
    }
}

#[test]
fn conservation_of_quantity() {
    let mut book = OrderBook::new();
    book.add_order(sell(1, 10, 3)).unwrap();
    book.add_order(sell(2, 11, 4)).unwrap();
    book.add_order(sell(3, 12, 5)).unwrap();
    let before = 9;
    let fills = book.add_order(buy(4, 11, before)).unwrap();
    let traded: u64 = fills.iter().map(|f| f.volume).sum();
    let after: u64 = book
        .bids()
        .iter()
        .find(|o| o.id == 4)
        .map(|o| o.quantity)
        .unwrap_or(0);
    assert_eq!(before, traded + after);
    assert_eq!(traded, 7);
    assert_eq!(after, 2);
    // the touched resting orders are fully consumed
    assert!(!book.contains(1));
    assert!(!book.contains(2));
    // the untouched ask keeps its full quantity
    assert_eq!(book.asks().len(), 1);
    assert_eq!(book.asks()[0].id, 3);
    assert_eq!(book.asks()[0].quantity, 5);
}

#[test]
fn non_crossing_order_rests_unchanged() {
    // a buy priced below every resting ask produces zero fills and rests at
    // its full quantity
    let mut book = OrderBook::new();
    book.add_order(sell(1, 100, 5)).unwrap();
    let fills = book.add_order(buy(2, 99, 8)).unwrap();
    assert!(fills.is_empty());
    assert_eq!(book.bids().len(), 1);
    assert_eq!(book.bids()[0].id, 2);
    assert_eq!(book.bids()[0].quantity, 8);
    assert_eq!(book.asks().len(), 1);
    assert_eq!(book.asks()[0].quantity, 5);
    assert_eq!(book.last_match_id(), 0);
}

#[test]
fn exact_full_match_rests_nothing() {
    let mut book = OrderBook::new();
    book.add_order(buy(1, 70, 6)).unwrap();
    let fills = book.add_order(sell(2, 70, 6)).unwrap();
    assert_eq!(fills, vec![fill(1, 6, 70)]);
    assert!(book.bids().is_empty());
    assert!(book.asks().is_empty());
    assert!(!book.contains(1));
    assert!(!book.contains(2));
}

#[test]
fn match_walks_several_price_levels() {
    let mut book = OrderBook::new();
    book.add_order(buy(1, 101, 7)).unwrap();
    book.add_order(buy(2, 100, 10)).unwrap();
    book.add_order(buy(3, 100, 5)).unwrap();
    let fills = book.add_order(sell(4, 99, 18)).unwrap();
    assert_eq!(fills, vec![fill(1, 7, 101), fill(2, 10, 100), fill(3, 1, 100)]);
    assert_eq!(book.bids().len(), 1);
    assert_eq!(book.bids()[0].id, 3);
    assert_eq!(book.bids()[0].quantity, 4);
    assert!(book.asks().is_empty());
    assert_eq!(book.last_match_id(), 3);
}

#[test]
fn match_ids_continue_across_submits() {
    let mut book = OrderBook::new();
    book.add_order(buy(1, 10, 1)).unwrap();
    let f1 = book.add_order(sell(2, 10, 1)).unwrap();
    assert_eq!(f1[0].matched_id, 1);
    book.add_order(buy(3, 10, 1)).unwrap();
    let f2 = book.add_order(sell(4, 10, 1)).unwrap();
    assert_eq!(f2[0].matched_id, 2);
    assert_eq!(book.last_match_id(), 2);
}

#[test]
fn trade_price_is_resting_price() {
    // the aggressor never improves on the resting side's price
    let mut book = OrderBook::new();
    book.add_order(sell(1, 90, 2)).unwrap();
    let fills = book.add_order(buy(2, 95, 2)).unwrap();
    assert_eq!(fills, vec![fill(1, 2, 90)]);
}

#[test]
fn cancel_removes_exactly_one_order() {
    let mut book = OrderBook::new();
    book.add_order(buy(1, 100, 10)).unwrap();
    book.add_order(buy(2, 100, 5)).unwrap();
    book.add_order(buy(3, 99, 4)).unwrap();
    book.add_order(sell(4, 105, 2)).unwrap();

    let removed = book.remove_order(2).unwrap();
    assert_eq!(removed.id, 2);
    assert_eq!(removed.quantity, 5);
    assert_eq!(removed.price, 100);

    // siblings at the same and other price levels are untouched
    assert_eq!(book.bids().len(), 2);
    assert_eq!(book.bids()[0].id, 1);
    assert_eq!(book.bids()[0].quantity, 10);
    assert_eq!(book.bids()[1].id, 3);
    assert_eq!(book.bids()[1].quantity, 4);
    assert_eq!(book.asks().len(), 1);
    assert_eq!(book.asks()[0].id, 4);
    assert!(!book.contains(2));
}

#[test]
fn cancel_reports_remaining_quantity() {
    let mut book = OrderBook::new();
    book.add_order(buy(1, 100, 10)).unwrap();
    book.add_order(sell(2, 100, 4)).unwrap();
    let removed = book.remove_order(1).unwrap();
    assert_eq!(removed.quantity, 6);
}

#[test]
fn cancel_unknown_id_changes_nothing() {
    let mut book = OrderBook::new();
    book.add_order(buy(1, 100, 10)).unwrap();
    assert!(book.remove_order(9).is_none());
    assert_eq!(book.bids().len(), 1);
    assert_eq!(book.bids()[0].id, 1);
    assert_eq!(book.bids()[0].quantity, 10);
    assert!(book.asks().is_empty());
}

#[test]
fn cancel_from_ask_side() {
    let mut book = OrderBook::new();
    book.add_order(sell(1, 101, 3)).unwrap();
    book.add_order(sell(2, 102, 4)).unwrap();
    let removed = book.remove_order(1).unwrap();
    assert_eq!(removed.id, 1);
    assert_eq!(book.asks().len(), 1);
    assert_eq!(book.asks()[0].id, 2);
}

#[test]
fn zero_quantity_rejected() {
    let mut book = OrderBook::new();
    book.add_order(buy(1, 100, 5)).unwrap();
    let r = book.add_order(buy(2, 100, 0));
    assert_eq!(r, Err(SubmitError::ZeroQuantity));
    assert_eq!(book.bids().len(), 1);
    assert!(!book.contains(2));
}

#[test]
fn zero_price_rejected() {
    let mut book = OrderBook::new();
    let r = book.add_order(sell(1, 0, 5));
    assert_eq!(r, Err(SubmitError::ZeroPrice));
    assert!(book.asks().is_empty());
}

#[test]
fn duplicate_id_rejected() {
    let mut book = OrderBook::new();
    book.add_order(buy(1, 100, 5)).unwrap();
    let r = book.add_order(sell(1, 105, 3));
    assert_eq!(r, Err(SubmitError::DuplicateId));
    assert_eq!(book.bids().len(), 1);
    assert!(book.asks().is_empty());
    // after the resting order is gone, the id may be used again
    book.remove_order(1).unwrap();
    assert!(book.add_order(sell(1, 105, 3)).is_ok());
}

#[test]
fn fully_filled_id_may_be_reused() {
    let mut book = OrderBook::new();
    book.add_order(buy(1, 100, 5)).unwrap();
    book.add_order(sell(2, 100, 5)).unwrap();
    assert!(book.add_order(buy(2, 90, 1)).is_ok());
}

#[test]
fn snapshot_orders_each_side_best_first() {
    let mut book = OrderBook::new();
    book.add_order(buy(1, 98, 1)).unwrap();
    book.add_order(buy(2, 100, 1)).unwrap();
    book.add_order(buy(3, 99, 1)).unwrap();
    book.add_order(sell(4, 103, 1)).unwrap();
    book.add_order(sell(5, 101, 1)).unwrap();
    book.add_order(sell(6, 102, 1)).unwrap();
    let bid_prices: Vec<u64> = book.bids().iter().map(|o| o.price).collect();
    let ask_prices: Vec<u64> = book.asks().iter().map(|o| o.price).collect();
    assert_eq!(bid_prices, vec![100, 99, 98]);
    assert_eq!(ask_prices, vec![101, 102, 103]);
}

#[test]
fn partial_fill_keeps_front_position() {
    // a partially consumed resting order stays at the front of its level
    let mut book = OrderBook::new();
    book.add_order(sell(1, 50, 10)).unwrap();
    book.add_order(sell(2, 50, 10)).unwrap();
    book.add_order(buy(3, 50, 4)).unwrap();
    assert_eq!(book.asks()[0].id, 1);
    assert_eq!(book.asks()[0].quantity, 6);
    let fills = book.add_order(buy(4, 50, 8)).unwrap();
    assert_eq!(fills, vec![fill(2, 6, 50), fill(3, 2, 50)]);
    assert_eq!(book.asks()[0].id, 2);
    assert_eq!(book.asks()[0].quantity, 8);
}

#[test]
fn snapshot_is_read_only_copy() {
    let mut book = OrderBook::new();
    book.add_order(buy(1, 100, 2)).unwrap();
    book.add_order(sell(2, 110, 3)).unwrap();
    let (bids, asks) = book.snapshot();
    assert_eq!(bids, *book.bids());
    assert_eq!(asks, *book.asks());
    // mutating the copies leaves the book untouched
    let mut bids_copy = bids;
    bids_copy.clear();
    assert_eq!(book.bids().len(), 1);
    assert_eq!(book.bids()[0].id, 1);
}
