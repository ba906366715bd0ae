use limitbook::{BookError, Num, OrderBook, OrderSide, Tick};

fn tick_size() -> Num {
    Num::from_scaled(1, 2) // 0.01
}

fn num(whole: i64) -> Num {
    Num::from_int(whole)
}

#[test]
fn test_add_limit_order() {
    let mut book = OrderBook::new(tick_size()).expect("tick spacing must be positive"); // 0.01 tick size

    // Add a buy order
    let (order_id, fills) = book
        .add_limit_order(
            OrderSide::Buy,
            num(100), // Price
            num(10),  // 10 units
        )
        .expect("invalid order");

    assert!(fills.is_empty()); // No fills yet as book was empty
    assert_eq!(book.bid_level_count(), 1); // One price level
    assert_eq!(book.ask_level_count(), 0); // No asks

    // Verify the order is in the book at the right price
    let tick = Tick::new(num(100), tick_size()).expect("invalid tick");
    assert_eq!(book.level_order_count(OrderSide::Buy, &tick), Some(1));
    assert_eq!(book.level_total_volume(OrderSide::Buy, &tick), Some(num(10)));

    // Verify the order location index
    assert!(book.contains_order(order_id));
    let (side, stored_level) = book.order_location(order_id).unwrap();
    assert_eq!(side, OrderSide::Buy);
    assert_eq!(stored_level, num(100));
    assert_eq!(book.open_order_count(), 1);

    // Verify total volumes
    assert_eq!(book.total_bid_volume(), num(10));
    assert_eq!(book.total_ask_volume(), num(0));

    // Add a sell order and check both sides
    let (_sell_id, _) = book
        .add_limit_order(OrderSide::Sell, num(101), num(20))
        .expect("invalid order");

    assert_eq!(book.total_bid_volume(), num(10));
    assert_eq!(book.total_ask_volume(), num(20));
}

#[test]
fn test_add_limit_order_with_fills() {
    let mut book = OrderBook::new(tick_size()).expect("tick spacing must be positive");

    // Create initial book state with some asks
    let (sell_id1, _) = book
        .add_limit_order(OrderSide::Sell, num(100), num(50))
        .expect("invalid order"); // Best price
    let (sell_id2, _) = book
        .add_limit_order(OrderSide::Sell, num(100), num(25))
        .expect("invalid order"); // Same price, later time
    let (sell_id3, _) = book
        .add_limit_order(OrderSide::Sell, num(101), num(75))
        .expect("invalid order"); // Worse price

    // Verify initial state
    assert_eq!(book.total_ask_volume(), num(150));

    // Add a limit buy that crosses the book
    let (buy_id, fills) = book
        .add_limit_order(
            OrderSide::Buy,
            num(101), // Willing to pay up to 101.00
            num(100), // Want 100 units
        )
        .expect("invalid order");

    // Should get same fills as market order test
    assert_eq!(fills.len(), 3);

    // First fill should be earliest order at best price
    assert_eq!(fills[0].quantity, num(50));
    assert_eq!(fills[0].price, num(100));
    assert_eq!(fills[0].maker_order_id, sell_id1);
    assert_eq!(fills[0].taker_order_id, buy_id);

    // Second fill should be next order at same price
    assert_eq!(fills[1].quantity, num(25));
    assert_eq!(fills[1].price, num(100));
    assert_eq!(fills[1].maker_order_id, sell_id2);
    assert_eq!(fills[1].taker_order_id, buy_id);

    // Third fill should be partial fill at worse price
    assert_eq!(fills[2].quantity, num(25));
    assert_eq!(fills[2].price, num(101));
    assert_eq!(fills[2].maker_order_id, sell_id3);
    assert_eq!(fills[2].taker_order_id, buy_id);

    // Verify book state after fills
    assert_eq!(book.total_ask_volume(), num(50)); // 75 - 25 = 50 remaining at 101.00
    assert!(!book.contains_order(sell_id1)); // Fully filled orders should be removed
    assert!(!book.contains_order(sell_id2));
    assert!(book.contains_order(sell_id3)); // Partially filled order should remain

    // Add a limit buy that doesn't cross
    let (buy_id2, fills2) = book
        .add_limit_order(
            OrderSide::Buy,
            num(99), // Below best ask
            num(25),
        )
        .expect("invalid order");

    // Should get no fills
    assert!(fills2.is_empty());
    assert_eq!(book.total_bid_volume(), num(25)); // Should rest in book
    assert!(book.contains_order(buy_id2));
}

#[test]
fn test_cancel_limit_order() {
    let mut book = OrderBook::new(tick_size()).expect("tick spacing must be positive");

    // Add a few orders to create a known state
    let (buy_id1, _) = book
        .add_limit_order(OrderSide::Buy, num(100), num(10))
        .expect("invalid order");
    let (buy_id2, _) = book
        .add_limit_order(OrderSide::Buy, num(100), num(20))
        .expect("invalid order"); // same tick level
    let (_sell_id1, _) = book
        .add_limit_order(OrderSide::Sell, num(101), num(15))
        .expect("invalid order");

    // Initial state verification
    assert_eq!(book.bid_level_count(), 1); // one tick level
    let tick = Tick::new(num(100), tick_size()).expect("invalid tick");
    assert_eq!(book.level_order_count(OrderSide::Buy, &tick), Some(2));
    assert_eq!(book.level_total_volume(OrderSide::Buy, &tick), Some(num(30)));
    assert_eq!(book.total_bid_volume(), num(30));
    assert_eq!(book.total_ask_volume(), num(15));

    // Cancel first buy order
    let result = book.cancel_limit_order(buy_id1);
    assert!(result.is_ok());

    // Verify state after first cancel
    assert_eq!(book.level_order_count(OrderSide::Buy, &tick), Some(1));
    assert_eq!(book.level_total_volume(OrderSide::Buy, &tick), Some(num(20)));
    assert!(!book.contains_order(buy_id1));
    assert_eq!(book.total_bid_volume(), num(20)); // Decreased by 10
    assert_eq!(book.total_ask_volume(), num(15)); // Unchanged

    // Cancel second buy order
    let result = book.cancel_limit_order(buy_id2);
    assert!(result.is_ok());

    // Verify tick level is removed when empty
    assert_eq!(book.level_order_count(OrderSide::Buy, &tick), None);
    assert!(!book.contains_order(buy_id2));
    assert_eq!(book.total_bid_volume(), num(0)); // All bids cancelled
    assert_eq!(book.total_ask_volume(), num(15)); // Asks unchanged

    // Error cases
    let result = book.cancel_limit_order(999); // non-existent order
    assert!(result.is_err());

    let result = book.cancel_limit_order(buy_id1); // already cancelled order
    assert!(result.is_err());

    // Verify totals unchanged after failed cancels
    assert_eq!(book.total_bid_volume(), num(0));
    assert_eq!(book.total_ask_volume(), num(15));
}

#[test]
fn test_market_order_price_time_priority() {
    let mut book = OrderBook::new(tick_size()).expect("tick spacing must be positive");

    // Create ask book with multiple price levels and times
    let (sell_id1, _) = book
        .add_limit_order(OrderSide::Sell, num(100), num(50))
        .expect("invalid order"); // Best price
    let (sell_id2, _) = book
        .add_limit_order(OrderSide::Sell, num(100), num(25))
        .expect("invalid order"); // Same price, later time
    let (sell_id3, _) = book
        .add_limit_order(OrderSide::Sell, num(101), num(75))
        .expect("invalid order"); // Worse price

    // Verify initial state
    assert_eq!(book.total_ask_volume(), num(150));

    // Execute market buy for 100 units
    let fills = book
        .execute_market_order(OrderSide::Buy, num(100))
        .expect("Market order should execute");

    // Should get 3 fills
    assert_eq!(fills.len(), 3);

    // First fill should be earliest order at best price
    assert_eq!(fills[0].quantity, num(50));
    assert_eq!(fills[0].price, num(100));
    assert_eq!(fills[0].maker_order_id, sell_id1);

    // Second fill should be next order at same price
    assert_eq!(fills[1].quantity, num(25));
    assert_eq!(fills[1].price, num(100));
    assert_eq!(fills[1].maker_order_id, sell_id2);

    // Third fill should be partial fill at worse price
    assert_eq!(fills[2].quantity, num(25));
    assert_eq!(fills[2].price, num(101));
    assert_eq!(fills[2].maker_order_id, sell_id3);

    // Verify book state after fills
    assert_eq!(book.total_ask_volume(), num(50)); // 75 - 25 = 50 remaining
    assert!(!book.contains_order(sell_id1)); // Fully filled orders should be removed
    assert!(!book.contains_order(sell_id2));
    assert!(book.contains_order(sell_id3)); // Partially filled order should remain
}

#[test]
fn test_price_helpers() {
    let mut book = OrderBook::new(tick_size()).expect("tick spacing must be positive");

    // Empty book
    assert_eq!(book.best_bid(), None);
    assert_eq!(book.best_ask(), None);
    assert_eq!(book.spread(), None);

    // Add some orders
    book.add_limit_order(OrderSide::Buy, num(100), num(10))
        .expect("invalid order");
    book.add_limit_order(OrderSide::Buy, num(99), num(20))
        .expect("invalid order");
    book.add_limit_order(OrderSide::Sell, num(101), num(15))
        .expect("invalid order");
    book.add_limit_order(OrderSide::Sell, num(102), num(25))
        .expect("invalid order");

    // Check prices
    assert_eq!(book.best_bid(), Some(num(100)));
    assert_eq!(book.best_ask(), Some(num(101)));
    assert_eq!(book.spread(), Some(num(1)));

    // Check volumes
    assert_eq!(book.best_bid_volume(), Some(num(10)));
    assert_eq!(book.best_ask_volume(), Some(num(15)));

    // Check best prices tuple
    let (bid, ask) = book.best_prices();
    assert_eq!(bid, Some(num(100)));
    assert_eq!(ask, Some(num(101)));
}

#[test]
fn test_invalid_inputs_leave_book_unchanged() {
    assert_eq!(
        OrderBook::new(num(0)).unwrap_err(),
        BookError::InvalidTickSize
    );
    assert_eq!(
        OrderBook::new(num(-1)).unwrap_err(),
        BookError::InvalidTickSize
    );

    let mut book = OrderBook::new(tick_size()).expect("tick spacing must be positive");
    book.add_limit_order(OrderSide::Buy, num(100), num(10))
        .expect("invalid order");

    assert_eq!(
        book.add_limit_order(OrderSide::Buy, num(0), num(10))
            .unwrap_err(),
        BookError::InvalidPrice
    );
    assert_eq!(
        book.add_limit_order(OrderSide::Sell, num(-3), num(10))
            .unwrap_err(),
        BookError::InvalidPrice
    );
    assert_eq!(
        book.add_limit_order(OrderSide::Buy, num(100), num(0))
            .unwrap_err(),
        BookError::InvalidQuantity
    );
    assert_eq!(
        book.add_limit_order(OrderSide::Sell, num(100), num(-7))
            .unwrap_err(),
        BookError::InvalidQuantity
    );

    // price is validated before quantity
    assert_eq!(
        book.add_limit_order(OrderSide::Buy, num(0), num(0))
            .unwrap_err(),
        BookError::InvalidPrice
    );

    // no state change after any rejected input
    assert_eq!(book.total_bid_volume(), num(10));
    assert_eq!(book.total_ask_volume(), num(0));
    assert_eq!(book.open_order_count(), 1);
    assert_eq!(book.best_bid(), Some(num(100)));
}

#[test]
fn test_market_order_insufficient_liquidity() {
    let mut book = OrderBook::new(tick_size()).expect("tick spacing must be positive");
    book.add_limit_order(OrderSide::Sell, num(100), num(30))
        .expect("invalid order");

    let err = book
        .execute_market_order(OrderSide::Buy, num(31))
        .unwrap_err();
    assert_eq!(err, BookError::InsufficientLiquidity);

    // the failed order left everything in place and consumed no id
    assert_eq!(book.total_ask_volume(), num(30));
    let (next_id, _) = book
        .add_limit_order(OrderSide::Buy, num(99), num(1))
        .expect("invalid order");
    assert_eq!(next_id, 1);
}

#[test]
fn test_market_order_consumes_side_exactly() {
    let mut book = OrderBook::new(tick_size()).expect("tick spacing must be positive");
    book.add_limit_order(OrderSide::Sell, num(100), num(40))
        .expect("invalid order");
    book.add_limit_order(OrderSide::Sell, num(101), num(60))
        .expect("invalid order");

    // quantity equal to the whole opposite side empties it
    let fills = book
        .execute_market_order(OrderSide::Buy, num(100))
        .expect("Market order should execute");
    let filled: i128 = fills.iter().map(|f| f.quantity.units()).sum();
    assert_eq!(filled, num(100).units());
    assert_eq!(book.total_ask_volume(), num(0));
    assert_eq!(book.ask_level_count(), 0);
    assert_eq!(book.best_ask(), None);
}

#[test]
fn test_add_then_cancel_restores_book() {
    let mut book = OrderBook::new(tick_size()).expect("tick spacing must be positive");
    book.add_limit_order(OrderSide::Sell, num(105), num(5))
        .expect("invalid order");

    let bid_before = book.total_bid_volume();
    let ask_before = book.total_ask_volume();
    let open_before = book.open_order_count();

    // a non-crossing add followed by a cancel of the returned id
    let (id, fills) = book
        .add_limit_order(OrderSide::Buy, num(100), num(10))
        .expect("invalid order");
    assert!(fills.is_empty());
    book.cancel_limit_order(id).expect("order should rest");

    assert_eq!(book.total_bid_volume(), bid_before);
    assert_eq!(book.total_ask_volume(), ask_before);
    assert_eq!(book.open_order_count(), open_before);
    assert_eq!(book.bid_level_count(), 0);
}

#[test]
fn test_add_limit_tick_price_normalization() {
    let mut book = OrderBook::new(tick_size()).expect("tick spacing must be positive");

    // 100.012 rests at 100.01 and 100.017 rests at 100.02
    book.add_limit_order(OrderSide::Buy, Num::from_scaled(100012, 3), num(5))
        .expect("invalid order");
    book.add_limit_order(OrderSide::Buy, Num::from_scaled(100017, 3), num(5))
        .expect("invalid order");

    assert_eq!(book.bid_level_count(), 2);
    assert_eq!(book.best_bid(), Some(Num::from_scaled(10002, 2)));
    let low = Tick::new(Num::from_scaled(10001, 2), tick_size()).expect("invalid tick");
    let high = Tick::new(Num::from_scaled(10002, 2), tick_size()).expect("invalid tick");
    assert_eq!(book.level_total_volume(OrderSide::Buy, &low), Some(num(5)));
    assert_eq!(book.level_total_volume(OrderSide::Buy, &high), Some(num(5)));
}

#[test]
fn test_sell_limit_crosses_bids() {
    let mut book = OrderBook::new(tick_size()).expect("tick spacing must be positive");
    let (bid_id, _) = book
        .add_limit_order(OrderSide::Buy, num(100), num(10))
        .expect("invalid order");

    // a sell priced exactly at the best bid matches inclusively
    let (sell_id, fills) = book
        .add_limit_order(OrderSide::Sell, num(100), num(4))
        .expect("invalid order");
    assert_eq!(fills.len(), 1);
    assert_eq!(fills[0].quantity, num(4));
    assert_eq!(fills[0].price, num(100));
    assert_eq!(fills[0].maker_order_id, bid_id);
    assert_eq!(fills[0].taker_order_id, sell_id);
    assert_eq!(book.total_bid_volume(), num(6));
    assert!(!book.contains_order(sell_id)); // fully filled takers never rest
}
