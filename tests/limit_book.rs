use clob_engine::matching_engine::{execute_limit, Maker, State, Taker, MAX_MAKERS};
use clob_engine::order::{Order, Side};
use clob_engine::orderbook::{Level, OrderBook};

#[test]
pub fn test_self_trade_on_best() {
    let mut book = OrderBook::new(1);
    let price = 1;
    let amount = 1000;
    execute_limit(&mut book, 1, price, amount, Side::Bid);
    let mr = execute_limit(&mut book, 1, price, amount, Side::Ask);
    assert_eq!(2, mr.taker.order_id);
    assert_eq!(mr.taker.state, State::ConditionallyCanceled);
    assert!(mr.maker.is_empty());
}

#[test]
fn limit_order_rests_when_nothing_matches() {
    let mut book = OrderBook::new(0);
    let mr = execute_limit(&mut book, 7, 10, 5, Side::Bid);
    assert_eq!(mr.taker.state, State::Placed);
    assert_eq!(mr.taker.unfilled, 5);
    assert_eq!(book.get_best_bid(), Some(10));
    assert_eq!(book.get_best_ask(), None);
    assert_eq!(book.get_page_size(&10), Some(5));
    assert_eq!(book.order_id_to_price.get(&1), Some(&10));
    assert_eq!(mr.page_delta.get(&10), Some(&(0, 5)));
}

#[test]
fn taker_fills_best_price_first_then_rests() {
    let mut book = OrderBook::new(0);
    execute_limit(&mut book, 1, 12, 30, Side::Ask);
    execute_limit(&mut book, 2, 11, 20, Side::Ask);
    let mr = execute_limit(&mut book, 3, 12, 70, Side::Bid);
    assert_eq!(mr.taker.state, State::PartiallyFilled);
    assert_eq!(mr.taker.order_id, 3);
    assert_eq!(mr.taker.unfilled, 20);
    assert_eq!(
        mr.maker,
        vec![
            Maker { user_id: 2, order_id: 2, price: 11, filled: 20, state: State::Filled },
            Maker { user_id: 1, order_id: 1, price: 12, filled: 30, state: State::Filled },
        ]
    );
    assert_eq!(book.get_best_ask(), None);
    assert_eq!(book.get_best_bid(), Some(12));
    assert_eq!(book.price, 12);
    assert_eq!(mr.page_delta.get(&11), Some(&(20, 0)));
    assert_eq!(mr.page_delta.get(&12), Some(&(30, 20)));
    assert_eq!(book.order_id_to_price.get(&1), None);
    assert_eq!(book.order_id_to_price.get(&3), Some(&12));
}

#[test]
fn partial_maker_fill_keeps_its_place() {
    let mut book = OrderBook::new(0);
    execute_limit(&mut book, 1, 10, 50, Side::Ask);
    execute_limit(&mut book, 2, 10, 50, Side::Ask);
    let mr = execute_limit(&mut book, 3, 10, 20, Side::Bid);
    assert_eq!(mr.taker.state, State::Filled);
    assert_eq!(mr.maker, vec![Maker { user_id: 1, order_id: 1, price: 10, filled: 20, state: State::PartiallyFilled }]);
    assert_eq!(book.asks[0].amount, 80);
    assert_eq!(book.asks[0].front().map(|(k, o)| (k, o.unfilled_amount)), Some((1, 30)));
    let mr = execute_limit(&mut book, 4, 10, 40, Side::Bid);
    assert_eq!(mr.maker[0], Maker { user_id: 1, order_id: 1, price: 10, filled: 30, state: State::Filled });
    assert_eq!(mr.maker[1], Maker { user_id: 2, order_id: 2, price: 10, filled: 10, state: State::PartiallyFilled });
}

#[test]
fn taker_stops_after_the_maker_limit() {
    let mut book = OrderBook::new(0);
    for u in 0..25u64 {
        execute_limit(&mut book, 100 + u, 10, 1, Side::Bid);
    }
    let mr = execute_limit(&mut book, 1, 10, 30, Side::Ask);
    assert_eq!(mr.maker.len(), MAX_MAKERS as usize);
    assert_eq!(mr.taker.state, State::ConditionallyCanceled);
    assert_eq!(mr.taker.unfilled, 10);
    assert_eq!(book.get_page_size(&10), Some(5));
    assert_eq!(book.get_best_ask(), None);
}

#[test]
fn ask_does_not_trade_below_its_price() {
    let mut book = OrderBook::new(0);
    execute_limit(&mut book, 1, 9, 10, Side::Bid);
    let mr = execute_limit(&mut book, 2, 10, 10, Side::Ask);
    assert_eq!(mr.taker.state, State::Placed);
    assert_eq!(book.get_best_bid(), Some(9));
    assert_eq!(book.get_best_ask(), Some(10));
    assert_eq!(book.get_page_size(&10), Some(10));
    assert_eq!(book.get_page_size(&9), Some(10));
    assert_eq!(book.get_page_size(&8), None);
}

#[test]
fn zero_amount_is_filled_at_once() {
    let mut book = OrderBook::new(0);
    let mr = execute_limit(&mut book, 1, 10, 0, Side::Bid);
    assert_eq!(mr.taker.state, State::Filled);
    assert!(mr.maker.is_empty());
    assert_eq!(book.get_best_bid(), None);
}

#[test]
fn level_keeps_orders_in_arrival_order() {
    let mut level = Level::insert_level(Order::new(1, 1, 10, 5));
    level.push_order(Order::new(2, 2, 10, 7));
    assert_eq!(level.amount, 12);
    assert!(!level.is_empty());
    assert_eq!(level.front().map(|(k, _)| k), Some(1));
    let (k, o) = level.pop_front();
    assert_eq!((k, o.unfilled_amount), (1, 5));
    level.decr_size(&5);
    assert_eq!(level.amount, 7);
    level.fill_front(3);
    level.decr_size(&3);
    assert_eq!(level.front().map(|(k, o)| (k, o.unfilled_amount)), Some((2, 4)));
    let _ = level.pop_front();
    assert!(level.is_empty());
}

#[test]
fn order_and_taker_helpers() {
    let mut o = Order::new(1, 2, 3, 10);
    assert!(!o.is_filled());
    o.fill(10);
    assert!(o.is_filled());
    assert_eq!(Taker::taker_filled(1, 2, 3, Side::Bid).state, State::Filled);
    assert_eq!(Taker::taker_placed(1, 2, 3, 4, Side::Ask).state, State::PartiallyFilled);
    assert_eq!(Taker::cancel(1, 2, 3, 4, Side::Ask).state, State::Canceled);
    assert_eq!(State::ConditionallyCanceled.code(), 4);
    assert_eq!(clob_engine::matching_engine::Role::Taker.code(), 1);
    let role: u32 = clob_engine::matching_engine::Role::Maker.into();
    assert_eq!(role, 0);
    let state: u8 = State::PartiallyFilled.into();
    assert_eq!(state, 3);
    let state: u32 = State::Filled.into();
    assert_eq!(state, 2);
    let mut book = OrderBook::new(0);
    assert_eq!(book.incr_then_fetch_order_id(), 1);
    assert_eq!(book.incr_then_fetch_order_id(), 2);
}

#[test]
fn price_time_priority_in_the_limit_book() {
    let mut book = OrderBook::new(0);
    execute_limit(&mut book, 1, 10, 100, Side::Bid);
    execute_limit(&mut book, 2, 10, 100, Side::Bid);
    execute_limit(&mut book, 3, 11, 50, Side::Bid);
    let mr = execute_limit(&mut book, 4, 9, 120, Side::Ask);
    assert_eq!(
        mr.maker,
        vec![
            Maker { user_id: 3, order_id: 3, price: 11, filled: 50, state: State::Filled },
            Maker { user_id: 1, order_id: 1, price: 10, filled: 70, state: State::PartiallyFilled },
        ]
    );
    assert_eq!(mr.taker.state, State::Filled);
    assert_eq!(book.get_page_size(&10), Some(130));
    assert_eq!(book.get_best_ask(), None);
    assert_eq!(book.price, 10);
}

#[test]
fn placing_under_a_larger_id_moves_the_counter() {
    let mut book = OrderBook::new(0);
    book.place_order(Order::new(1, 50, 10, 5), Side::Bid);
    assert_eq!(book.id, 50);
    let mr = execute_limit(&mut book, 2, 12, 5, Side::Bid);
    assert_eq!(mr.taker.order_id, 51);
}
