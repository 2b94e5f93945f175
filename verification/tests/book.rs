use order_book::book::{Order, OrderBook, OrderError, Trade};

fn assert_sides_sorted_and_settled(book: &OrderBook) {
    for w in book.buy_orders.windows(2) {
        assert!(
            w[0].price > w[1].price || (w[0].price == w[1].price && w[0].timestamp <= w[1].timestamp)
        );
    }
    for w in book.sell_orders.windows(2) {
        assert!(
            w[0].price < w[1].price || (w[0].price == w[1].price && w[0].timestamp <= w[1].timestamp)
        );
    }
    if !book.buy_orders.is_empty() && !book.sell_orders.is_empty() {
        assert!(book.buy_orders[0].price < book.sell_orders[0].price);
    }
}

#[test]
fn construction_without_quote_uses_default_price() {
    let book = OrderBook::new(None);
    assert_eq!(book.current_price, 457_000_000);
    assert_eq!(book.next_order_id, 1);
    assert!(book.buy_orders.is_empty());
    assert!(book.sell_orders.is_empty());
}

#[test]
fn construction_with_quote_uses_it() {
    let book = OrderBook::new(Some(123_456));
    assert_eq!(book.current_price, 123_456);
}

#[test]
fn construction_with_zero_quote_falls_back() {
    let book = OrderBook::new(Some(0));
    assert_eq!(book.current_price, 457_000_000);
}

#[test]
fn scenario_no_trade_when_best_buy_below_best_sell() {
    let mut book = OrderBook::new(None);
    // buy 45700.0 x 1.0, buy 45650.0 x 2.5, sell 45710.0 x 1.0
    assert!(book.submit(457_000_000, 10_000, true, 1).unwrap().is_empty());
    assert!(book.submit(456_500_000, 25_000, true, 2).unwrap().is_empty());
    assert!(book.submit(457_100_000, 10_000, false, 2).unwrap().is_empty());
    assert_eq!(book.buy_orders.len(), 2);
    assert_eq!(book.sell_orders.len(), 1);
    assert_eq!(book.buy_orders[0].id, 1);
    assert_eq!(book.buy_orders[0].price, 457_000_000);
    assert_sides_sorted_and_settled(&book);
}

#[test]
fn scenario_partial_fill_of_resting_buy() {
    let mut book = OrderBook::new(None);
    book.submit(457_000_000, 10_000, true, 1).unwrap();
    book.submit(456_500_000, 25_000, true, 2).unwrap();
    book.submit(457_100_000, 10_000, false, 2).unwrap();
    // sell 45690.0 x 0.6 crosses the best buy: one trade at the sell's
    // price for 0.6, the buy keeps 0.4, the sell is consumed.
    let trades = book.submit(456_900_000, 6_000, false, 3).unwrap();
    assert_eq!(
        trades,
        vec![Trade { buy_id: 1, sell_id: 4, price: 456_900_000, quantity: 6_000 }]
    );
    assert_eq!(book.buy_orders.len(), 2);
    assert_eq!(book.buy_orders[0].id, 1);
    assert_eq!(book.buy_orders[0].quantity, 4_000);
    assert_eq!(book.sell_orders.len(), 1);
    assert_eq!(book.sell_orders[0].price, 457_100_000);
    assert_sides_sorted_and_settled(&book);
}

#[test]
fn scenario_exact_fill_empties_both_sides() {
    let mut book = OrderBook::new(None);
    // buy 100 x 5 then sell 100 x 5: one trade of 5 at 100, book empty.
    assert!(book.submit(1_000_000, 50_000, true, 1).unwrap().is_empty());
    let trades = book.submit(1_000_000, 50_000, false, 2).unwrap();
    assert_eq!(
        trades,
        vec![Trade { buy_id: 1, sell_id: 2, price: 1_000_000, quantity: 50_000 }]
    );
    assert!(book.buy_orders.is_empty());
    assert!(book.sell_orders.is_empty());
}

#[test]
fn modify_unknown_id_reports_and_leaves_book_unchanged() {
    let mut book = OrderBook::new(None);
    book.submit(457_000_000, 10_000, true, 1).unwrap();
    book.submit(457_100_000, 20_000, false, 2).unwrap();
    let buys_before = book.buy_orders.clone();
    let sells_before = book.sell_orders.clone();
    let result = book.modify(999, 5_000);
    assert_eq!(result, Err(OrderError::UnknownOrderId));
    assert_eq!(book.buy_orders, buys_before);
    assert_eq!(book.sell_orders, sells_before);
    assert_eq!(book.next_order_id, 3);
    assert_eq!(book.current_price, 457_000_000);
}

#[test]
fn modify_overwrites_quantity_in_place() {
    let mut book = OrderBook::new(None);
    book.submit(457_000_000, 10_000, true, 1).unwrap();
    book.submit(457_100_000, 20_000, false, 2).unwrap();
    assert_eq!(book.modify(2, 7_500), Ok(()));
    assert_eq!(book.sell_orders[0].quantity, 7_500);
    assert_eq!(book.sell_orders[0].price, 457_100_000);
    // quantity does not affect priority and triggers no matching pass
    assert_eq!(book.buy_orders[0].quantity, 10_000);
}

#[test]
fn modify_rejects_zero_quantity() {
    let mut book = OrderBook::new(None);
    book.submit(457_000_000, 10_000, true, 1).unwrap();
    assert_eq!(book.modify(1, 0), Err(OrderError::InvalidOrder));
    assert_eq!(book.buy_orders[0].quantity, 10_000);
}

#[test]
fn submit_rejects_zero_price_and_zero_quantity() {
    let mut book = OrderBook::new(None);
    assert_eq!(
        book.submit(0, 10_000, true, 1),
        Err(OrderError::InvalidOrder)
    );
    assert_eq!(
        book.submit(457_000_000, 0, false, 1),
        Err(OrderError::InvalidOrder)
    );
    assert!(book.buy_orders.is_empty());
    assert!(book.sell_orders.is_empty());
    assert_eq!(book.next_order_id, 1);
}

#[test]
fn non_crossing_submission_leaves_opposite_side_unchanged() {
    let mut book = OrderBook::new(None);
    book.submit(457_000_000, 10_000, true, 1).unwrap();
    book.submit(457_100_000, 20_000, false, 2).unwrap();
    let sells_before = book.sell_orders.clone();
    // a buy below the best sell rests without touching the sells
    let trades = book.submit(457_050_000, 5_000, true, 3).unwrap();
    assert!(trades.is_empty());
    assert_eq!(book.sell_orders, sells_before);
    assert_eq!(book.buy_orders[0].id, 3);
    assert_sides_sorted_and_settled(&book);
}

#[test]
fn conservation_over_a_matching_pass() {
    let mut book = OrderBook::new(None);
    book.submit(457_000_000, 10_000, true, 1).unwrap();
    book.submit(456_900_000, 30_000, true, 2).unwrap();
    book.submit(457_100_000, 20_000, false, 3).unwrap();
    let buys_before: u64 = book.buy_orders.iter().map(|o| o.quantity).sum();
    let sells_before: u64 = book.sell_orders.iter().map(|o| o.quantity).sum();
    // a deep sell sweeps both buys and rests with the remainder
    let trades = book.submit(456_800_000, 35_000, false, 4).unwrap();
    let traded: u64 = trades.iter().map(|t| t.quantity).sum();
    let buys_after: u64 = book.buy_orders.iter().map(|o| o.quantity).sum();
    let sells_after: u64 = book.sell_orders.iter().map(|o| o.quantity).sum();
    assert_eq!(traded, 35_000);
    assert_eq!(buys_before - buys_after, traded);
    assert_eq!(sells_before + 35_000 - sells_after, traded);
    assert_sides_sorted_and_settled(&book);
}

#[test]
fn price_time_priority_orders_equal_prices_by_timestamp() {
    let mut book = OrderBook::new(None);
    book.submit(457_000_000, 10_000, true, 5).unwrap();
    book.submit(457_000_000, 20_000, true, 3).unwrap();
    book.submit(457_000_000, 30_000, true, 4).unwrap();
    let stamps: Vec<u64> = book.buy_orders.iter().map(|o| o.timestamp).collect();
    assert_eq!(stamps, vec![3, 4, 5]);
    // among equal price and timestamp, the earlier submission keeps its place
    book.submit(457_000_000, 40_000, true, 3).unwrap();
    assert_eq!(book.buy_orders[0].quantity, 20_000);
    assert_eq!(book.buy_orders[1].quantity, 40_000);
}

#[test]
fn matching_sweeps_multiple_levels() {
    let mut book = OrderBook::new(None);
    book.submit(457_000_000, 10_000, false, 1).unwrap();
    book.submit(456_900_000, 10_000, false, 2).unwrap();
    // a big buy at 45700 takes the 45690 level first, then the 45700 one
    let trades = book.submit(457_000_000, 15_000, true, 3).unwrap();
    assert_eq!(trades.len(), 2);
    assert_eq!(trades[0], Trade { buy_id: 3, sell_id: 2, price: 456_900_000, quantity: 10_000 });
    assert_eq!(trades[1], Trade { buy_id: 3, sell_id: 1, price: 457_000_000, quantity: 5_000 });
    assert!(book.buy_orders.is_empty());
    assert_eq!(book.sell_orders.len(), 1);
    assert_eq!(book.sell_orders[0].quantity, 5_000);
}

#[test]
fn sell_side_breaks_price_ties_by_timestamp() {
    let mut book = OrderBook::new(None);
    book.submit(457_100_000, 10_000, false, 9).unwrap();
    book.submit(457_100_000, 20_000, false, 4).unwrap();
    book.submit(457_050_000, 30_000, false, 6).unwrap();
    let keys: Vec<(u64, u64)> = book
        .sell_orders
        .iter()
        .map(|o| (o.price, o.timestamp))
        .collect();
    assert_eq!(
        keys,
        vec![(457_050_000, 6), (457_100_000, 4), (457_100_000, 9)]
    );
}

#[test]
fn ids_are_unique_and_monotone_across_sides() {
    let mut book = OrderBook::new(None);
    book.submit(457_000_000, 10_000, true, 1).unwrap();
    book.submit(457_100_000, 10_000, false, 2).unwrap();
    book.submit(456_900_000, 10_000, true, 3).unwrap();
    let mut ids: Vec<u64> = book
        .buy_orders
        .iter()
        .chain(book.sell_orders.iter())
        .map(|o: &Order| o.id)
        .collect();
    ids.sort();
    assert_eq!(ids, vec![1, 2, 3]);
    assert_eq!(book.next_order_id, 4);
}
