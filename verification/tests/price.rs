use order_book::book::OrderBook;
use order_book::gen::create_bulk_orders;
use order_book::price::{parse_price_fixed, reference_price_from_text};

#[test]
fn parses_integer_prices() {
    assert_eq!(parse_price_fixed(b"45700"), Some(457_000_000));
    assert_eq!(parse_price_fixed(b"1"), Some(10_000));
    assert_eq!(parse_price_fixed(b"100"), Some(1_000_000));
}

#[test]
fn parses_fractional_prices() {
    assert_eq!(parse_price_fixed(b"45700.5"), Some(457_005_000));
    assert_eq!(parse_price_fixed(b"0.1"), Some(1_000));
    assert_eq!(parse_price_fixed(b"0.0001"), Some(1));
    assert_eq!(parse_price_fixed(b"2.25"), Some(22_500));
}

#[test]
fn truncates_beyond_four_fractional_digits() {
    assert_eq!(parse_price_fixed(b"45700.12345678"), Some(457_001_234));
    assert_eq!(parse_price_fixed(b"1.99999"), Some(19_999));
}

#[test]
fn rejects_zero_and_malformed_text() {
    assert_eq!(parse_price_fixed(b"0"), None);
    assert_eq!(parse_price_fixed(b"0.0000"), None);
    assert_eq!(parse_price_fixed(b""), None);
    assert_eq!(parse_price_fixed(b"."), None);
    assert_eq!(parse_price_fixed(b".5"), None);
    assert_eq!(parse_price_fixed(b"1."), None);
    assert_eq!(parse_price_fixed(b"1.2.3"), None);
    assert_eq!(parse_price_fixed(b"-3"), None);
    assert_eq!(parse_price_fixed(b"+3"), None);
    assert_eq!(parse_price_fixed(b"1e3"), None);
    assert_eq!(parse_price_fixed(b"abc"), None);
    assert_eq!(parse_price_fixed(b"45 700"), None);
    assert_eq!(parse_price_fixed(b"999999999999999"), None);
    // a value that only has digits beyond the fourth fractional place
    // truncates to zero and is unusable as a price
    assert_eq!(parse_price_fixed(b"0.00009"), None);
}

#[test]
fn extracts_the_matching_symbol_from_a_ticker_listing() {
    let text = "[{\"symbol\":\"ETHUSDT\",\"price\":\"2345.67\"},\
                {\"symbol\":\"BTCUSDT\",\"price\":\"45701.5\"}]";
    assert_eq!(
        reference_price_from_text(text, "BTCUSDT"),
        Some(457_015_000)
    );
    assert_eq!(
        reference_price_from_text(text, "ETHUSDT"),
        Some(23_456_700)
    );
}

#[test]
fn quote_extraction_fails_softly_on_wrong_shapes() {
    assert_eq!(reference_price_from_text("", "BTCUSDT"), None);
    assert_eq!(reference_price_from_text("not json", "BTCUSDT"), None);
    assert_eq!(reference_price_from_text("{}", "BTCUSDT"), None);
    assert_eq!(reference_price_from_text("[]", "BTCUSDT"), None);
    let no_price = "[{\"symbol\":\"BTCUSDT\"}]";
    assert_eq!(reference_price_from_text(no_price, "BTCUSDT"), None);
    let numeric_price = "[{\"symbol\":\"BTCUSDT\",\"price\":45701.5}]";
    assert_eq!(reference_price_from_text(numeric_price, "BTCUSDT"), None);
    let bad_price = "[{\"symbol\":\"BTCUSDT\",\"price\":\"n/a\"}]";
    assert_eq!(reference_price_from_text(bad_price, "BTCUSDT"), None);
    let wrong_symbol = "[{\"symbol\":\"BTCUSDT\",\"price\":\"45701.5\"}]";
    assert_eq!(reference_price_from_text(wrong_symbol, "DOGEUSDT"), None);
}

#[test]
fn bulk_orders_rest_in_priority_order_and_never_cross() {
    let mut book = OrderBook::new(None);
    let trades = create_bulk_orders(&mut book, 50);
    assert_eq!(book.next_order_id, 51);
    for t in &trades {
        assert!(t.quantity > 0 && t.price > 0);
    }
    let resting: u64 = book
        .buy_orders
        .iter()
        .chain(book.sell_orders.iter())
        .map(|o| o.quantity)
        .sum();
    let traded: u64 = trades.iter().map(|t| t.quantity).sum();
    let submitted = resting + 2 * traded;
    assert!((1_000 * 50..50_000 * 50).contains(&submitted));
    for o in book.buy_orders.iter().chain(book.sell_orders.iter()) {
        assert!(o.price >= 456_000_000 && o.price <= 457_990_000);
        assert!(o.quantity >= 1 && o.quantity < 50_000);
    }
    for w in book.buy_orders.windows(2) {
        assert!(
            w[0].price > w[1].price || (w[0].price == w[1].price && w[0].timestamp <= w[1].timestamp)
        );
    }
    for w in book.sell_orders.windows(2) {
        assert!(
            w[0].price < w[1].price || (w[0].price == w[1].price && w[0].timestamp <= w[1].timestamp)
        );
    }
    if !book.buy_orders.is_empty() && !book.sell_orders.is_empty() {
        assert!(book.buy_orders[0].price < book.sell_orders[0].price);
    }
}
