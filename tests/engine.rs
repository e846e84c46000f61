use clob_engine::callback::{Callback, CbType, FillFlags, RejectReason};
use clob_engine::comparable_price::ComparablePrice;
use clob_engine::order::BookOrder;
use clob_engine::order_book::OrderBook;
use clob_engine::order_tracker::OrderTracker;
use clob_engine::types::{OC_ALL_OR_NONE, OC_FILL_OR_KILL, OC_IMMEDIATE_OR_CANCEL, OC_NO_CONDITIONS};

fn limit(user: u64, id: u64, is_buy: bool, qty: u64, price: u64) -> BookOrder {
    BookOrder::new(id, user, is_buy, price, 0, qty, false, false)
}

fn kinds(cbs: &[Callback]) -> Vec<CbType> {
    cbs.iter().map(|c| c.cb_type).collect()
}

fn fills(cbs: &[Callback]) -> Vec<(u64, u64, u64, u64)> {
    cbs.iter()
        .filter(|c| c.cb_type == CbType::OrderFill)
        .map(|c| (c.order.unwrap().order_id, c.matched_order.unwrap().order_id, c.quantity, c.price))
        .collect()
}

#[test]
fn price_time_priority() {
    let mut book = OrderBook::new("XYZ".to_string());
    book.add(limit(1, 1, true, 100, 10), OC_NO_CONDITIONS);
    book.add(limit(2, 2, true, 100, 10), OC_NO_CONDITIONS);
    book.add(limit(3, 3, true, 50, 11), OC_NO_CONDITIONS);
    book.take_callbacks();
    let matched = book.add(limit(4, 4, false, 120, 9), OC_NO_CONDITIONS);
    assert!(matched);
    let cbs = book.take_callbacks();
    assert_eq!(fills(&cbs), vec![(4, 3, 50, 11), (4, 1, 70, 10)]);
    assert_eq!(cbs[0].cb_type, CbType::OrderAccept);
    assert_eq!(cbs[0].quantity, 120);
    assert_eq!(book.level_prices(true), vec![10]);
    assert_eq!(book.find_order(&limit(2, 2, true, 100, 10)).map(|t| t.open_qty), Some(100));
    assert_eq!(book.find_order(&limit(1, 1, true, 100, 10)).map(|t| t.open_qty), Some(30));
    assert!(book.find_order(&limit(3, 3, true, 50, 11)).is_none());
    assert!(book.asks.is_empty());
    assert_eq!(book.market_price(), 10);
    assert_eq!(book.total_qty_at_level(true, 10), 130);
}

#[test]
fn self_trade_prevention() {
    let mut book = OrderBook::new("XYZ".to_string());
    book.add(limit(1, 1, true, 100, 10), OC_NO_CONDITIONS);
    book.take_callbacks();
    let matched = book.add(limit(1, 2, false, 100, 10), OC_NO_CONDITIONS);
    assert!(!matched);
    let cbs = book.take_callbacks();
    assert_eq!(kinds(&cbs), vec![CbType::OrderAccept, CbType::OrderCancel, CbType::BookUpdate]);
    assert_eq!(cbs[1].quantity, 0);
    assert_eq!(cbs[1].order.unwrap().order_id, 2);
    assert_eq!(book.find_order(&limit(1, 1, true, 100, 10)).map(|t| t.open_qty), Some(100));
    assert!(book.asks.is_empty());
}

#[test]
fn ioc_leftover_is_canceled() {
    let mut book = OrderBook::new("XYZ".to_string());
    book.add(limit(1, 1, false, 50, 10), OC_NO_CONDITIONS);
    book.take_callbacks();
    book.add(limit(2, 2, true, 100, 10), OC_IMMEDIATE_OR_CANCEL);
    let cbs = book.take_callbacks();
    assert_eq!(kinds(&cbs), vec![CbType::OrderAccept, CbType::OrderFill, CbType::OrderCancel, CbType::BookUpdate]);
    assert_eq!(fills(&cbs), vec![(2, 1, 50, 10)]);
    assert_eq!(cbs[1].flags, FillFlags::MatchedFilled.bits());
    assert_eq!(cbs[2].quantity, 0);
    assert!(book.bids.is_empty());
    assert!(book.asks.is_empty());
}

#[test]
fn replace_at_same_price_loses_priority() {
    let mut book = OrderBook::new("XYZ".to_string());
    let o1 = limit(1, 1, true, 100, 10);
    book.add(o1, OC_NO_CONDITIONS);
    book.add(limit(2, 2, true, 100, 10), OC_NO_CONDITIONS);
    book.take_callbacks();
    book.replace(&o1, 0, 10);
    let cbs = book.take_callbacks();
    assert_eq!(kinds(&cbs), vec![CbType::OrderReplace, CbType::BookUpdate]);
    assert_eq!((cbs[0].quantity, cbs[0].delta, cbs[0].price), (100, 0, 10));
    book.add(limit(3, 3, false, 150, 10), OC_NO_CONDITIONS);
    let cbs = book.take_callbacks();
    assert_eq!(fills(&cbs), vec![(3, 2, 100, 10), (3, 1, 50, 10)]);
}

#[test]
fn stop_order_triggers_and_trades() {
    let mut book = OrderBook::new("XYZ".to_string());
    let stop = BookOrder::new(2, 2, true, 12, 11, 50, false, false);
    book.add(stop, OC_NO_CONDITIONS);
    let cbs = book.take_callbacks();
    assert_eq!(kinds(&cbs), vec![CbType::OrderAcceptStop, CbType::BookUpdate]);
    assert_eq!(book.stop_bids.len(), 1);
    book.add(limit(3, 3, false, 100, 11), OC_NO_CONDITIONS);
    book.add(limit(4, 4, true, 10, 11), OC_NO_CONDITIONS);
    let cbs = book.take_callbacks();
    let ks = kinds(&cbs);
    let trigger_at = ks.iter().position(|k| *k == CbType::OrderTriggerStop).unwrap();
    assert_eq!(cbs[trigger_at].order.unwrap().order_id, 2);
    assert_eq!(fills(&cbs), vec![(4, 3, 10, 11), (2, 3, 50, 11)]);
    assert!(book.stop_bids.is_empty());
    assert_eq!(book.market_price(), 11);
    assert_eq!(book.total_qty_at_level(false, 11), 40);
}

#[test]
fn replace_of_filled_order_is_rejected() {
    let mut book = OrderBook::new("XYZ".to_string());
    let o1 = limit(1, 1, false, 50, 10);
    book.add(o1, OC_NO_CONDITIONS);
    book.add(limit(2, 2, true, 50, 10), OC_NO_CONDITIONS);
    book.take_callbacks();
    let matched = book.replace(&o1, 10, 0);
    assert!(!matched);
    let cbs = book.take_callbacks();
    assert_eq!(kinds(&cbs), vec![CbType::OrderReplaceReject]);
    assert_eq!(cbs[0].reject_reason, Some(RejectReason::NotFound));
    assert_eq!(cbs[0].reject_reason.unwrap().text(), "not found");
}

#[test]
fn zero_size_is_rejected() {
    let mut book = OrderBook::new("XYZ".to_string());
    assert!(!book.add(limit(1, 1, true, 0, 10), OC_NO_CONDITIONS));
    let cbs = book.take_callbacks();
    assert_eq!(kinds(&cbs), vec![CbType::OrderReject]);
    assert_eq!(cbs[0].reject_reason.unwrap().text(), "size must be positive");
    assert!(book.bids.is_empty());
}

#[test]
fn cancel_of_unknown_order_is_rejected() {
    let mut book = OrderBook::new("XYZ".to_string());
    book.cancel(&limit(1, 1, true, 10, 10));
    let cbs = book.take_callbacks();
    assert_eq!(kinds(&cbs), vec![CbType::OrderCancelReject]);
    assert_eq!(cbs[0].reject_reason, Some(RejectReason::NotFound));
}

#[test]
fn add_then_cancel_restores_the_book() {
    let mut book = OrderBook::new("XYZ".to_string());
    book.add(limit(1, 1, true, 10, 9), OC_NO_CONDITIONS);
    book.add(limit(2, 2, false, 10, 12), OC_NO_CONDITIONS);
    let bids_before = book.bids.iter().map(|t| (t.order.order_id, t.open_qty)).collect::<Vec<_>>();
    let o = limit(3, 3, true, 25, 10);
    book.add(o, OC_NO_CONDITIONS);
    assert!(book.find_order(&o).is_some());
    book.take_callbacks();
    book.cancel(&o);
    let cbs = book.take_callbacks();
    assert_eq!(kinds(&cbs), vec![CbType::OrderCancel, CbType::BookUpdate]);
    assert_eq!(cbs[0].quantity, 25);
    assert!(book.find_order(&o).is_none());
    let bids_after = book.bids.iter().map(|t| (t.order.order_id, t.open_qty)).collect::<Vec<_>>();
    assert_eq!(bids_before, bids_after);
}

#[test]
fn cancel_of_waiting_stop() {
    let mut book = OrderBook::new("XYZ".to_string());
    let stop = BookOrder::new(5, 1, false, 8, 9, 10, false, false);
    book.add(stop, OC_NO_CONDITIONS);
    book.take_callbacks();
    book.cancel(&stop);
    let cbs = book.take_callbacks();
    assert_eq!(kinds(&cbs), vec![CbType::OrderCancelStop, CbType::BookUpdate]);
    assert!(book.stop_asks.is_empty());
}

#[test]
fn setting_the_same_market_price_twice_triggers_once() {
    let mut book = OrderBook::new("XYZ".to_string());
    book.add(BookOrder::new(1, 1, true, 20, 15, 10, false, false), OC_NO_CONDITIONS);
    book.add(BookOrder::new(2, 2, true, 20, 25, 10, false, false), OC_NO_CONDITIONS);
    book.take_callbacks();
    book.set_market_price(16);
    let cbs = book.take_callbacks();
    assert_eq!(kinds(&cbs)[0], CbType::OrderTriggerStop);
    assert_eq!(cbs.iter().filter(|c| c.cb_type == CbType::OrderTriggerStop).count(), 1);
    assert_eq!(book.stop_bids.len(), 1);
    book.set_market_price(16);
    assert!(book.take_callbacks().is_empty());
    assert_eq!(book.stop_bids.len(), 1);
    assert_eq!(book.market_price(), 16);
}

#[test]
fn market_price_follows_the_last_fill() {
    let mut book = OrderBook::new("XYZ".to_string());
    assert_eq!(book.market_price(), 0);
    book.add(limit(1, 1, false, 10, 10), OC_NO_CONDITIONS);
    book.add(limit(2, 2, false, 10, 11), OC_NO_CONDITIONS);
    book.add(limit(3, 3, true, 15, 11), OC_NO_CONDITIONS);
    assert_eq!(book.market_price(), 11);
    let cbs = book.take_callbacks();
    for c in cbs.iter().filter(|c| c.cb_type == CbType::OrderFill) {
        assert_eq!(c.price, c.matched_order.unwrap().price);
    }
}

#[test]
fn book_is_not_crossed_after_matching() {
    let mut book = OrderBook::new("XYZ".to_string());
    book.add(limit(1, 1, false, 10, 10), OC_NO_CONDITIONS);
    book.add(limit(2, 2, true, 30, 12), OC_NO_CONDITIONS);
    book.add(limit(3, 3, false, 5, 13), OC_NO_CONDITIONS);
    let best_bid = book.bids[0].order.price;
    let best_ask = book.asks[0].order.price;
    assert!(best_bid < best_ask);
    assert_eq!((best_bid, best_ask), (12, 13));
}

#[test]
fn fills_of_one_inbound_stay_within_its_quantity() {
    let mut book = OrderBook::new("XYZ".to_string());
    for id in 1..=5u64 {
        book.add(limit(id, id, false, 40, 10), OC_NO_CONDITIONS);
    }
    book.take_callbacks();
    book.add(limit(9, 9, true, 130, 10), OC_NO_CONDITIONS);
    let cbs = book.take_callbacks();
    let total: u64 = cbs.iter().filter(|c| c.cb_type == CbType::OrderFill).map(|c| c.quantity).sum();
    assert_eq!(total, 130);
    assert_eq!(cbs[0].quantity, 130);
    assert_eq!(book.total_qty_at_level(false, 10), 70);
}

#[test]
fn all_or_none_inbound_fills_whole_or_not_at_all() {
    let mut book = OrderBook::new("XYZ".to_string());
    book.add(limit(1, 1, false, 30, 10), OC_NO_CONDITIONS);
    book.take_callbacks();
    assert!(!book.add(limit(2, 2, true, 50, 10), OC_FILL_OR_KILL));
    let cbs = book.take_callbacks();
    assert_eq!(kinds(&cbs), vec![CbType::OrderAccept, CbType::OrderCancel, CbType::BookUpdate]);
    assert_eq!(book.total_qty_at_level(false, 10), 30);
    assert!(book.add(limit(3, 3, true, 30, 10), OC_ALL_OR_NONE));
    assert!(book.asks.is_empty());
}

#[test]
fn resting_all_or_none_is_passed_over() {
    let mut book = OrderBook::new("XYZ".to_string());
    book.add(limit(1, 1, false, 50, 10), OC_ALL_OR_NONE);
    book.add(limit(2, 2, false, 20, 10), OC_NO_CONDITIONS);
    book.take_callbacks();
    book.add(limit(3, 3, true, 20, 10), OC_NO_CONDITIONS);
    let cbs = book.take_callbacks();
    assert_eq!(fills(&cbs), vec![(3, 2, 20, 10)]);
    assert_eq!(cbs[1].flags, FillFlags::BothFilled.bits());
    assert_eq!(book.total_qty_at_level(false, 10), 50);
}

#[test]
fn maker_limit_cancels_the_rest() {
    let mut book = OrderBook::new("XYZ".to_string());
    for id in 1..=25u64 {
        book.add(limit(100 + id, id, true, 1, 10), OC_NO_CONDITIONS);
    }
    book.take_callbacks();
    book.add(limit(1, 99, false, 30, 10), OC_NO_CONDITIONS);
    let cbs = book.take_callbacks();
    assert_eq!(fills(&cbs).len(), 20);
    assert_eq!(cbs[21].cb_type, CbType::OrderCancel);
    assert_eq!(book.total_qty_at_level(true, 10), 5);
    assert!(book.asks.is_empty());
}

#[test]
fn replace_down_to_nothing_cancels() {
    let mut book = OrderBook::new("XYZ".to_string());
    let o = limit(1, 1, true, 40, 10);
    book.add(o, OC_NO_CONDITIONS);
    book.take_callbacks();
    assert!(!book.replace(&o, -100, 0));
    let cbs = book.take_callbacks();
    assert_eq!(kinds(&cbs), vec![CbType::OrderReplace, CbType::OrderCancel, CbType::BookUpdate]);
    assert_eq!(cbs[0].delta, -40);
    assert!(book.bids.is_empty());
}

#[test]
fn replace_to_crossing_price_trades() {
    let mut book = OrderBook::new("XYZ".to_string());
    let o = limit(1, 1, true, 40, 9);
    book.add(o, OC_NO_CONDITIONS);
    book.add(limit(2, 2, false, 10, 11), OC_NO_CONDITIONS);
    book.take_callbacks();
    assert!(book.replace(&o, 5, 11));
    let cbs = book.take_callbacks();
    assert_eq!(fills(&cbs), vec![(1, 2, 10, 11)]);
    assert_eq!(book.find_order(&o).map(|t| (t.open_qty, t.order.price)), Some((35, 11)));
}

#[test]
fn level_prices_are_distinct_best_first() {
    let mut book = OrderBook::new("XYZ".to_string());
    for (id, p) in [(1u64, 10u64), (2, 12), (3, 10), (4, 11), (5, 12)] {
        book.add(limit(id, id, false, 5, p), OC_NO_CONDITIONS);
    }
    assert_eq!(book.level_prices(false), vec![10, 11, 12]);
    assert_eq!(book.total_qty_at_level(false, 12), 10);
}

#[test]
fn comparable_price_orders_best_first() {
    let bid10 = ComparablePrice::new(true, 10);
    assert!(bid10.matches(9));
    assert!(bid10.matches(10));
    assert!(!bid10.matches(11));
    assert!(bid10.matches(0));
    let ask10 = ComparablePrice::new(false, 10);
    assert!(ask10.matches(11));
    assert!(!ask10.matches(9));
    assert!(ComparablePrice::new(true, 11) < bid10);
    assert!(ComparablePrice::new(false, 9) < ask10);
    assert!(ComparablePrice::new(true, 0) < ComparablePrice::new(true, 50));
    assert!(ComparablePrice::new(false, 0).is_market());
}

#[test]
fn tracker_accounting() {
    let o = BookOrder::new(1, 1, true, 10, 0, 100, true, false);
    let mut t = OrderTracker::new(o, OC_IMMEDIATE_OR_CANCEL);
    assert!(t.all_or_none());
    assert!(t.immediate_or_cancel());
    assert_eq!(t.reserve(30), 70);
    assert_eq!(t.open_qty(), 70);
    assert_eq!(t.filled_qty(), 0);
    assert_eq!(t.reserve(-30), 100);
    assert!(t.fill(150).is_err());
    assert!(t.fill(40).is_ok());
    assert_eq!(t.filled_qty(), 40);
    assert!(t.change_qty(-70).is_err());
    assert!(t.change_qty(-60).is_ok());
    assert!(t.filled());
}

#[test]
fn largest_quantities_sum_past_u64() {
    let mut book = OrderBook::new("XYZ".to_string());
    book.add(limit(1, 1, true, u64::MAX, 10), OC_NO_CONDITIONS);
    book.add(limit(2, 2, true, u64::MAX, 10), OC_NO_CONDITIONS);
    assert_eq!(book.total_qty_at_level(true, 10), 2 * (u64::MAX as u128));
    book.add(limit(3, 3, false, u64::MAX, 10), OC_NO_CONDITIONS);
    assert_eq!(book.total_qty_at_level(true, 10), u64::MAX as u128);
    assert_eq!(book.find_order(&limit(2, 2, true, u64::MAX, 10)).map(|t| t.open_qty), Some(u64::MAX));
}

#[test]
fn market_order_takes_any_price() {
    let mut book = OrderBook::new("XYZ".to_string());
    book.add(limit(1, 1, false, 10, 50), OC_NO_CONDITIONS);
    book.add(limit(2, 2, false, 10, 60), OC_NO_CONDITIONS);
    assert!(book.add(limit(3, 3, true, 15, 0), OC_IMMEDIATE_OR_CANCEL));
    let cbs = book.take_callbacks();
    assert_eq!(fills(&cbs), vec![(3, 1, 10, 50), (3, 2, 5, 60)]);
    assert_eq!(book.market_price(), 60);
}

#[test]
fn stop_that_has_already_triggered_is_submitted_at_once() {
    let mut book = OrderBook::new("XYZ".to_string());
    book.set_market_price(20);
    book.add(limit(1, 1, false, 10, 21), OC_NO_CONDITIONS);
    book.take_callbacks();
    book.add(BookOrder::new(2, 2, true, 21, 15, 10, false, false), OC_NO_CONDITIONS);
    let cbs = book.take_callbacks();
    assert_eq!(kinds(&cbs), vec![CbType::OrderAccept, CbType::OrderFill, CbType::BookUpdate]);
    assert!(book.stop_bids.is_empty());
}

#[test]
fn replace_to_zero_leaves_other_orders() {
    let mut book = OrderBook::new("XYZ".to_string());
    let o = limit(1, 1, true, 40, 10);
    book.add(limit(2, 2, true, 30, 10), OC_NO_CONDITIONS);
    book.add(o, OC_NO_CONDITIONS);
    book.add(limit(3, 3, true, 20, 9), OC_NO_CONDITIONS);
    book.replace(&o, -40, 0);
    assert!(book.find_order(&o).is_none());
    let left: Vec<(u64, u64)> = book.bids.iter().map(|t| (t.order.order_id, t.open_qty)).collect();
    assert_eq!(left, vec![(2, 30), (3, 20)]);
}

#[test]
fn market_price_zero_triggers_sell_stops() {
    let mut book = OrderBook::new("XYZ".to_string());
    book.add(BookOrder::new(1, 1, false, 5, 8, 10, false, false), OC_NO_CONDITIONS);
    book.take_callbacks();
    book.set_market_price(0);
    let cbs = book.take_callbacks();
    assert_eq!(cbs[0].cb_type, CbType::OrderTriggerStop);
    assert!(book.stop_asks.is_empty());
}
