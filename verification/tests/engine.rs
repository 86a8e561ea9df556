use venue_core::Engine;
use venue_core::LevelOrderBook;
use venue_core::Order;
use venue_core::OrderBook;
use venue_core::OrderStatus;
use venue_core::Side;
use venue_core::VectorOrderBook;
use venue_core::VenueError;

// Prices are in hundredths of the quote unit: 100.00 is written 10000.

#[test]
fn order_book() {
    let mut book: VectorOrderBook = VectorOrderBook::new();
    let order1 = Order::new(1, Side::Buy, 50, 10000);
    let order2 = Order::new(2, Side::Buy, 100, 9900);
    let order3 = Order::new(3, Side::Sell, 50, 10100);
    let order4 = Order::new(4, Side::Sell, 50, 10200);
    book.add_bid_order(order1);
    book.add_bid_order(order2);
    book.add_ask_order(order3);
    book.add_ask_order(order4);
    assert_eq!(book.best_bid(), Some(10000));
    assert_eq!(book.best_ask(), Some(10100));
}

#[test]
fn engine() {
    let mut n = Engine::<VectorOrderBook>::new();
    n.add_order("Buy", 50, 10000).unwrap();
    n.add_order("Buy", 100, 9900).unwrap();
    n.add_order("Sell", 50, 10100).unwrap();
    n.add_order("Sell", 50, 10200).unwrap();
    // best bid 100.00 < best ask 101.00: nothing crosses
    assert_eq!(n.match_orders(), Err(VenueError::NoMatch));
}

#[test]
fn best_prices_follow_inserts() {
    let mut n = Engine::<VectorOrderBook>::new();
    n.add_order("Buy", 10, 9900).unwrap();
    n.add_order("Buy", 10, 10100).unwrap();
    n.add_order("Buy", 10, 10000).unwrap();
    n.add_order("Sell", 10, 10900).unwrap();
    n.add_order("Sell", 10, 10700).unwrap();
    n.add_order("Sell", 10, 10800).unwrap();
    assert_eq!(n.book.best_bid(), Some(10100));
    assert_eq!(n.book.best_ask(), Some(10700));
    let (bids, asks) = n.get_book();
    assert_eq!(bids[0].price, 10100);
    assert_eq!(bids[1].price, 10000);
    assert_eq!(bids[2].price, 9900);
    assert_eq!(asks[0].price, 10700);
    assert_eq!(asks[1].price, 10800);
    assert_eq!(asks[2].price, 10900);
    // padding beyond the three real orders is all zeros
    assert_eq!(bids[3].quantity, 0);
    assert_eq!(asks[9].price, 0);
}

#[test]
fn partial_fill_keeps_remainder() {
    let mut n = Engine::<VectorOrderBook>::new();
    let bid = n.add_order("Buy", 100, 9900).unwrap();
    let ask = n.add_order("Sell", 50, 9900).unwrap();
    // one match: 50 at the resting ask's price 99.00
    assert_eq!(n.match_orders(), Ok((50, 9900)));
    // the ask is gone, the bid rests with the remainder
    assert_eq!(n.get_execution_status(ask), Ok(OrderStatus::Filled));
    assert_eq!(n.get_execution_status(bid), Ok(OrderStatus::New));
    let (bids, asks) = n.get_book();
    assert_eq!(bids[0].quantity, 50);
    assert_eq!(bids[0].price, 9900);
    assert_eq!(asks[0].quantity, 0);
}

#[test]
fn no_cross_no_match() {
    let mut n = Engine::<VectorOrderBook>::new();
    n.add_order("Buy", 10, 9900).unwrap();
    n.add_order("Sell", 10, 10100).unwrap();
    for _ in 0..5 {
        assert_eq!(n.match_orders(), Err(VenueError::NoMatch));
    }
    // both orders still rest untouched
    let (bids, asks) = n.get_book();
    assert_eq!(bids[0].quantity, 10);
    assert_eq!(asks[0].quantity, 10);
}

#[test]
fn full_consumption_removes_both() {
    let mut n = Engine::<VectorOrderBook>::new();
    let bid = n.add_order("Buy", 50, 10000).unwrap();
    let ask = n.add_order("Sell", 50, 9900).unwrap();
    // crossed: executes at the resting ask's price
    assert_eq!(n.match_orders(), Ok((50, 9900)));
    let (bids, asks) = n.get_book();
    assert_eq!(bids[0].quantity, 0);
    assert_eq!(asks[0].quantity, 0);
    assert_eq!(n.get_execution_status(bid), Ok(OrderStatus::Filled));
    assert_eq!(n.get_execution_status(ask), Ok(OrderStatus::Filled));
    assert_eq!(n.match_orders(), Err(VenueError::NoMatch));
}

#[test]
fn ids_are_sequential_and_never_reused() {
    let mut n = Engine::<VectorOrderBook>::new();
    for i in 1..=5u64 {
        let id = n.add_order("Buy", 10, 9900).unwrap();
        assert_eq!(id, i);
    }
    n.cancel_order(3).unwrap();
    assert_eq!(n.add_order("Sell", 10, 10100).unwrap(), 6);
    let bid = 1;
    n.amend_order(bid, 20, 9800).unwrap();
    assert_eq!(n.add_order("Sell", 10, 10200).unwrap(), 7);
}

#[test]
fn invalid_side_is_rejected() {
    let mut n = Engine::<VectorOrderBook>::new();
    assert_eq!(n.add_order("buy", 10, 9900), Err(VenueError::InvalidSide));
    assert_eq!(n.add_order("", 10, 9900), Err(VenueError::InvalidSide));
    assert_eq!(n.add_order("Sel", 10, 9900), Err(VenueError::InvalidSide));
}

#[test]
fn status_partition() {
    let mut n = Engine::<VectorOrderBook>::new();
    let resting = n.add_order("Buy", 10, 10000).unwrap();
    let filled_bid = n.add_order("Buy", 5, 10100).unwrap();
    let filled_ask = n.add_order("Sell", 5, 10100).unwrap();
    n.match_orders().unwrap();
    let canceled = n.add_order("Sell", 7, 10300).unwrap();
    n.cancel_order(canceled).unwrap();
    assert_eq!(n.get_execution_status(resting), Ok(OrderStatus::New));
    assert_eq!(n.get_execution_status(filled_bid), Ok(OrderStatus::Filled));
    assert_eq!(n.get_execution_status(filled_ask), Ok(OrderStatus::Filled));
    // a canceled id leaves no trace, like one that never existed
    assert_eq!(n.get_execution_status(canceled), Ok(OrderStatus::Rejected));
    assert_eq!(n.get_execution_status(999), Ok(OrderStatus::Rejected));
}

#[test]
fn amend_moves_and_requeues() {
    let mut n = Engine::<VectorOrderBook>::new();
    let a = n.add_order("Buy", 10, 10000).unwrap();
    let b = n.add_order("Buy", 20, 10000).unwrap();
    // amend the earlier order to the same price: it loses time priority
    n.amend_order(a, 15, 10000).unwrap();
    let (bids, _) = n.get_book();
    assert_eq!(bids[0].id, b);
    assert_eq!(bids[1].id, a);
    assert_eq!(bids[1].quantity, 15);
    // amending an unknown id fails on both sides
    assert_eq!(n.amend_order(99, 1, 100), Err(VenueError::NotFound));
    assert_eq!(n.cancel_order(99), Err(VenueError::NotFound));
}

#[test]
fn fifo_at_equal_price() {
    let mut n = Engine::<VectorOrderBook>::new();
    let first = n.add_order("Buy", 1, 10000).unwrap();
    let second = n.add_order("Buy", 2, 10000).unwrap();
    let third = n.add_order("Buy", 3, 10000).unwrap();
    let (bids, _) = n.get_book();
    assert_eq!(bids[0].id, first);
    assert_eq!(bids[1].id, second);
    assert_eq!(bids[2].id, third);
}

#[test]
fn volume_aggregates_both_sides() {
    let mut n = Engine::<VectorOrderBook>::new();
    n.add_order("Buy", 10, 10000).unwrap();
    n.add_order("Buy", 15, 10000).unwrap();
    n.add_order("Sell", 20, 10000).unwrap();
    n.add_order("Sell", 9, 10100).unwrap();
    // 100.00 is crossed here, but volume is a pure query
    assert_eq!(n.get_volume_at_limit(10000), 45);
    assert_eq!(n.get_volume_at_limit(10100), 9);
    assert_eq!(n.get_volume_at_limit(12300), 0);
}

#[test]
fn volume_saturates_at_the_integer_limit() {
    let mut n = Engine::<VectorOrderBook>::new();
    n.add_order("Buy", u64::MAX, 10000).unwrap();
    n.add_order("Buy", 7, 10000).unwrap();
    assert_eq!(n.get_volume_at_limit(10000), u64::MAX);
}

#[test]
fn mid_price_rounds_down() {
    let mut n = Engine::<VectorOrderBook>::new();
    assert_eq!(n.get_market_price(), Err(VenueError::NoPrice));
    n.add_order("Buy", 10, 10000).unwrap();
    assert_eq!(n.get_market_price(), Err(VenueError::NoPrice));
    n.add_order("Sell", 10, 10100).unwrap();
    assert_eq!(n.get_market_price(), Ok(10050));
    n.add_order("Sell", 10, 10001).unwrap();
    // (10000 + 10001) / 2 lands on a half: rounded down
    assert_eq!(n.get_market_price(), Ok(10000));
}

#[test]
fn trade_history_caps_at_ten_newest_first() {
    let mut n = Engine::<VectorOrderBook>::new();
    for i in 0..12u64 {
        n.add_order("Buy", 10 + i, 10000).unwrap();
        n.add_order("Sell", 10 + i, 10000).unwrap();
        let (q, p) = n.match_orders().unwrap();
        assert_eq!(q, 10 + i);
        assert_eq!(p, 10000);
    }
    let recent = n.get_trade_history();
    assert_eq!(recent.len(), 10);
    // exactly the ten most recent, newest first, no padding
    for k in 0..10u64 {
        assert_eq!(recent[k as usize].quantity, 21 - k);
        assert_eq!(recent[k as usize].price, 10000);
    }
}

#[test]
fn trade_history_pads_when_short() {
    let mut n = Engine::<VectorOrderBook>::new();
    n.add_order("Buy", 50, 10000).unwrap();
    n.add_order("Sell", 50, 10000).unwrap();
    n.match_orders().unwrap();
    let recent = n.get_trade_history();
    assert_eq!(recent.len(), 10);
    assert_eq!(recent[0].quantity, 50);
    assert_eq!(recent[0].price, 10000);
    for k in 1..10 {
        assert_eq!(recent[k].quantity, 0);
        assert_eq!(recent[k].price, 0);
        assert_eq!(recent[k].timestamp, 0);
    }
}

#[test]
fn status_line_text() {
    let mut n = Engine::<VectorOrderBook>::new();
    let bid = n.add_order("Buy", 50, 10000).unwrap();
    assert_eq!(n.get_order_status(bid).unwrap(), "New -- Buy 50 @ 100 (1)");
    let ask = n.add_order("Sell", 7, 12345).unwrap();
    assert_eq!(n.get_order_status(ask).unwrap(), "New -- Sell 7 @ 123.45 (2)");
    let third = n.add_order("Buy", 9, 9950).unwrap();
    assert_eq!(n.get_order_status(third).unwrap(), "New -- Buy 9 @ 99.5 (3)");
    n.add_order("Buy", 7, 12345).unwrap();
    n.match_orders().unwrap();
    assert_eq!(n.get_order_status(ask).unwrap(), "Filled");
    assert_eq!(n.get_order_status(99), Err(VenueError::NotFound));
}

// The same behavior must hold of both book realizations: the scenarios
// below replay the core properties against the price-level strategy.

fn property_suite<T: OrderBook>() {
    // price-time ordering and fifo at equal prices
    let mut n = Engine::<T>::new();
    let first = n.add_order("Buy", 1, 10000).unwrap();
    let second = n.add_order("Buy", 2, 10000).unwrap();
    n.add_order("Buy", 3, 10100).unwrap();
    n.add_order("Sell", 4, 10700).unwrap();
    n.add_order("Sell", 5, 10600).unwrap();
    let (bids, asks) = n.get_book();
    assert_eq!(bids[0].price, 10100);
    assert_eq!(bids[1].id, first);
    assert_eq!(bids[2].id, second);
    assert_eq!(asks[0].price, 10600);
    // volume aggregation
    assert_eq!(n.get_volume_at_limit(10000), 3);
    // matching: the remainder rests, the smaller side leaves
    let mut n = Engine::<T>::new();
    let bid = n.add_order("Buy", 100, 9900).unwrap();
    let ask = n.add_order("Sell", 50, 9900).unwrap();
    assert_eq!(n.match_orders(), Ok((50, 9900)));
    assert_eq!(n.get_execution_status(ask), Ok(OrderStatus::Filled));
    assert_eq!(n.get_execution_status(bid), Ok(OrderStatus::New));
    let (bids, _) = n.get_book();
    assert_eq!(bids[0].quantity, 50);
    // no cross, no match
    let mut n = Engine::<T>::new();
    n.add_order("Buy", 10, 9900).unwrap();
    n.add_order("Sell", 10, 10100).unwrap();
    assert_eq!(n.match_orders(), Err(VenueError::NoMatch));
    assert_eq!(n.match_orders(), Err(VenueError::NoMatch));
    // full consumption
    let mut n = Engine::<T>::new();
    n.add_order("Buy", 50, 10000).unwrap();
    n.add_order("Sell", 50, 10000).unwrap();
    assert_eq!(n.match_orders(), Ok((50, 10000)));
    let (bids, asks) = n.get_book();
    assert_eq!(bids[0].quantity, 0);
    assert_eq!(asks[0].quantity, 0);
    // id monotonicity, amend and cancel
    let mut n = Engine::<T>::new();
    for i in 1..=4u64 {
        assert_eq!(n.add_order("Buy", 10, 9000 + 100 * i).unwrap(), i);
    }
    n.cancel_order(2).unwrap();
    assert_eq!(n.add_order("Sell", 10, 9900).unwrap(), 5);
    n.amend_order(1, 20, 9100).unwrap();
    assert_eq!(n.cancel_order(99), Err(VenueError::NotFound));
    assert_eq!(n.get_execution_status(2), Ok(OrderStatus::Rejected));
    // history capping
    let mut n = Engine::<T>::new();
    for i in 0..12u64 {
        n.add_order("Buy", 10 + i, 10000).unwrap();
        n.add_order("Sell", 10 + i, 10000).unwrap();
        n.match_orders().unwrap();
    }
    let recent = n.get_trade_history();
    assert_eq!(recent.len(), 10);
    for k in 0..10u64 {
        assert_eq!(recent[k as usize].quantity, 21 - k);
    }
    // mid price
    let mut n = Engine::<T>::new();
    n.add_order("Buy", 10, 10000).unwrap();
    n.add_order("Sell", 10, 10100).unwrap();
    assert_eq!(n.get_market_price(), Ok(10050));
}

#[test]
fn properties_hold_of_the_level_book() {
    property_suite::<LevelOrderBook>();
}

#[test]
fn properties_hold_of_the_vector_book() {
    property_suite::<VectorOrderBook>();
}

#[test]
fn level_book_queries() {
    let mut book: LevelOrderBook = LevelOrderBook::new();
    book.add_bid_order(Order::new(1, Side::Buy, 50, 10000));
    book.add_bid_order(Order::new(2, Side::Buy, 100, 10000));
    book.add_bid_order(Order::new(3, Side::Buy, 25, 9900));
    book.add_ask_order(Order::new(4, Side::Sell, 10, 10100));
    assert_eq!(book.best_bid(), Some(10000));
    assert_eq!(book.best_ask(), Some(10100));
    assert_eq!(book.get_volume_at_limit(10000), 150);
    let found = book.get_order_by_id(2).unwrap();
    assert_eq!(found.quantity, 100);
    assert_eq!(book.get_order_by_id(9), Err(VenueError::NotFound));
    // removal inside a level keeps the rest of the queue
    book.remove_bid_order(1).unwrap();
    let bids = book.get_bids();
    assert_eq!(bids[0].id, 2);
    assert_eq!(bids[1].id, 3);
}

#[test]
fn execution_price_is_the_resting_asks() {
    let mut n = Engine::<VectorOrderBook>::new();
    n.add_order("Sell", 10, 9800).unwrap();
    // the aggressor bids higher and is filled at the resting ask's price
    n.add_order("Buy", 10, 10000).unwrap();
    assert_eq!(n.match_orders(), Ok((10, 9800)));
}
