use rust_order_execution_engine::types::PRICE_SCALE;
use rust_order_execution_engine::{Order, OrderBook, OrderStatus, OrderType, Side};

fn limit(side: Side, quantity: u64, price: u64, client: &str) -> Order {
    Order::new_limit("BTCUSD".to_string(), side, quantity, price * PRICE_SCALE, client.to_string())
}

#[test]
fn test_order_book_creation() {
    let book = OrderBook::new("BTCUSD".to_string());
    assert_eq!(book.depth(), 0);
}

#[test]
fn test_add_orders() {
    let mut book = OrderBook::new("BTCUSD".to_string());
    assert!(book.add_order(limit(Side::Buy, 10, 50000, "client1")));
    assert!(book.add_order(limit(Side::Sell, 5, 50100, "client2")));
    assert_eq!(book.depth(), 2);
    assert_eq!(book.best_bid(), Some(50000 * PRICE_SCALE));
    assert_eq!(book.best_ask(), Some(50100 * PRICE_SCALE));
}

#[test]
fn mod_test_order_matching() {
    let mut book = OrderBook::new("BTCUSD".to_string());
    book.add_order(limit(Side::Buy, 10, 50000, "client1"));
    book.add_order(limit(Side::Sell, 5, 49900, "client2"));
    let trades = book.match_orders();
    assert_eq!(trades.len(), 1);
    assert_eq!(trades[0].quantity, 5);
    // The resting bid sets the price.
    assert_eq!(trades[0].price, 50000 * PRICE_SCALE);
}

#[test]
fn test_order_creation() {
    let order = limit(Side::Buy, 100, 50000, "order1");
    assert_eq!(order.symbol, "BTCUSD");
    assert_eq!(order.quantity, 100);
    assert_eq!(order.price, Some(50000 * PRICE_SCALE));
    assert_eq!(order.order_type, OrderType::Limit);
    assert_eq!(order.status, OrderStatus::Pending);
    assert_eq!(order.filled_quantity, 0);
}

#[test]
fn integration_tests_test_order_matching() {
    let mut book = OrderBook::new("BTCUSD".to_string());
    book.add_order(limit(Side::Buy, 100, 50000, "buy1"));
    book.add_order(limit(Side::Sell, 100, 50000, "sell1"));
    let trades = book.match_orders();
    assert_eq!(trades.len(), 1);
    assert_eq!(trades[0].quantity, 100);
    assert_eq!(trades[0].price, 50000 * PRICE_SCALE);
}

#[test]
fn test_partial_fill() {
    let mut book = OrderBook::new("BTCUSD".to_string());
    let buy = limit(Side::Buy, 100, 50000, "buy1");
    let buy_id = buy.id;
    book.add_order(buy);
    book.add_order(limit(Side::Sell, 50, 50000, "sell1"));
    let trades = book.match_orders();
    assert_eq!(trades.len(), 1);
    assert_eq!(trades[0].quantity, 50);
    assert_eq!(book.depth(), 1);
    let rest = book.cancel_order(buy_id).unwrap();
    assert_eq!(rest.remaining_quantity(), 50);
}

#[test]
fn test_market_order() {
    let mut book = OrderBook::new("BTCUSD".to_string());
    book.add_order(limit(Side::Sell, 100, 50000, "limit1"));
    let market = Order::new_market("BTCUSD".to_string(), Side::Buy, 100, "market1".to_string());
    let (order, trades) = book.execute_market(market);
    assert_eq!(trades.len(), 1);
    assert_eq!(trades[0].quantity, 100);
    assert_eq!(order.status, OrderStatus::Filled);
    assert_eq!(book.depth(), 0);
}

#[test]
fn test_order_book_depth() {
    let mut book = OrderBook::new("BTCUSD".to_string());
    for i in 0..5u64 {
        book.add_order(limit(Side::Buy, 100, 50000 - i * 10, &format!("buy{}", i)));
        book.add_order(limit(Side::Sell, 100, 50100 + i * 10, &format!("sell{}", i)));
    }
    assert_eq!(book.depth(), 10);
    assert_eq!(book.best_bid(), Some(50000 * PRICE_SCALE));
    assert_eq!(book.best_ask(), Some(50100 * PRICE_SCALE));
    assert!(book.match_orders().is_empty());
}

#[test]
fn test_cancel_order() {
    let mut book = OrderBook::new("BTCUSD".to_string());
    let order = limit(Side::Buy, 100, 50000, "order1");
    let id = order.id;
    book.add_order(order);
    assert_eq!(book.depth(), 1);
    let cancelled = book.cancel_order(id).unwrap();
    assert_eq!(cancelled.status, OrderStatus::Cancelled);
    assert_eq!(book.depth(), 0);
    assert_eq!(book.best_bid(), None);
}

#[test]
fn add_refuses_market_and_unpriced_orders() {
    let mut book = OrderBook::new("BTCUSD".to_string());
    let market = Order::new_market("BTCUSD".to_string(), Side::Buy, 10, "c".to_string());
    assert!(!book.add_order(market));
    let mut unpriced = limit(Side::Buy, 10, 50000, "c");
    unpriced.price = None;
    assert!(!book.add_order(unpriced));
    assert!(!book.add_order(limit(Side::Buy, 0, 50000, "c")));
    assert_eq!(book.depth(), 0);
}

#[test]
fn sweep_multiple_levels_on_book() {
    let mut book = OrderBook::new("BTCUSD".to_string());
    book.add_order(limit(Side::Sell, 5, 50100, "a1"));
    book.add_order(limit(Side::Sell, 5, 50200, "a2"));
    let third = limit(Side::Sell, 5, 50300, "a3");
    let third_id = third.id;
    book.add_order(third);
    book.add_order(limit(Side::Buy, 12, 50300, "b"));
    let trades = book.match_orders();
    let got: Vec<(u64, u64)> = trades.iter().map(|t| (t.quantity, t.price)).collect();
    assert_eq!(
        got,
        vec![(5, 50100 * PRICE_SCALE), (5, 50200 * PRICE_SCALE), (2, 50300 * PRICE_SCALE)]
    );
    assert_eq!(book.best_ask(), Some(50300 * PRICE_SCALE));
    assert_eq!(book.best_bid(), None);
    let rest = book.cancel_order(third_id).unwrap();
    assert_eq!(rest.remaining_quantity(), 3);
    assert_eq!(rest.filled_quantity, 2);
}

#[test]
fn trade_price_is_resting_ask_for_incoming_buy() {
    let mut book = OrderBook::new("BTCUSD".to_string());
    book.add_order(limit(Side::Sell, 5, 49900, "s"));
    book.add_order(limit(Side::Buy, 5, 50000, "b"));
    let trades = book.match_orders();
    assert_eq!(trades.len(), 1);
    assert_eq!(trades[0].price, 49900 * PRICE_SCALE);
}

#[test]
fn market_sell_with_remainder_is_cancelled() {
    let mut book = OrderBook::new("BTCUSD".to_string());
    book.add_order(limit(Side::Buy, 3, 50000, "b1"));
    book.add_order(limit(Side::Buy, 2, 49000, "b2"));
    let market = Order::new_market("BTCUSD".to_string(), Side::Sell, 10, "m".to_string());
    let (order, trades) = book.execute_market(market);
    let got: Vec<(u64, u64)> = trades.iter().map(|t| (t.quantity, t.price)).collect();
    assert_eq!(got, vec![(3, 50000 * PRICE_SCALE), (2, 49000 * PRICE_SCALE)]);
    assert_eq!(order.status, OrderStatus::Cancelled);
    assert_eq!(order.filled_quantity, 5);
    assert_eq!(book.depth(), 0);
}

#[test]
fn fills_conserve_quantity() {
    let mut book = OrderBook::new("BTCUSD".to_string());
    let buy = limit(Side::Buy, 10, 50000, "b");
    let sell = limit(Side::Sell, 4, 50000, "s");
    let (buy_id, sell_id) = (buy.id, sell.id);
    book.add_order(buy);
    book.add_order(sell);
    let trades = book.match_orders();
    assert_eq!(trades.len(), 1);
    assert_eq!(trades[0].buy_order_id, buy_id);
    assert_eq!(trades[0].sell_order_id, sell_id);
    let rest = book.cancel_order(buy_id).unwrap();
    // 4 filled on the buy and the whole 4 of the sell: 8 = 2 * 4.
    assert_eq!(rest.filled_quantity + 4, 2 * trades[0].quantity);
    assert_eq!(rest.remaining_quantity(), 6);
}

#[test]
fn order_helpers() {
    let mut o = limit(Side::Sell, 10, 1, "c");
    assert_eq!(o.remaining_quantity(), 10);
    assert!(!o.is_fully_filled());
    o.filled_quantity = 10;
    assert_eq!(o.remaining_quantity(), 0);
    assert!(o.is_fully_filled());
    assert_eq!(Side::Buy.label(), "BUY");
    assert_eq!(Side::Sell.label(), "SELL");
}
