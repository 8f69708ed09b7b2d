use rust_order_execution_engine::types::PRICE_SCALE;
use rust_order_execution_engine::{
    EngineCommand, EngineError, ExecutionEngine, ExecutionMetrics, Order, OrderType, Side, Trade,
};

fn limit(side: Side, quantity: u64, price: u64, client: &str) -> Order {
    Order::new_limit("BTCUSD".to_string(), side, quantity, price * PRICE_SCALE, client.to_string())
}

fn running_engine() -> ExecutionEngine {
    let mut engine = ExecutionEngine::new();
    engine.start();
    engine
}

fn submit(engine: &mut ExecutionEngine, order: Order) -> Vec<Trade> {
    engine.submit_order(order).unwrap()
}

fn peek(engine: &ExecutionEngine) -> (Option<u64>, Option<u64>, usize) {
    engine.get_order_book(&"BTCUSD".to_string()).unwrap()
}

#[test]
fn test_engine_lifecycle() {
    let mut engine = running_engine();
    assert!(engine.is_running());
    let metrics = engine.get_metrics();
    assert_eq!(metrics.total_orders, 0);
    engine.stop();
    assert!(!engine.is_running());
}

#[test]
fn test_submit_order() {
    let mut engine = running_engine();
    let result = engine.submit_order(limit(Side::Buy, 10, 50000, "client1"));
    assert!(result.is_ok());
    assert_eq!(engine.get_metrics().total_orders, 1);
}

#[test]
fn test_order_matching_integration() {
    let mut engine = running_engine();
    assert!(submit(&mut engine, limit(Side::Buy, 10, 50000, "client1")).is_empty());
    let trades = submit(&mut engine, limit(Side::Sell, 5, 49900, "client2"));
    assert_eq!(trades.len(), 1);
    let metrics = engine.get_metrics();
    assert_eq!(metrics.total_orders, 2);
    assert_eq!(metrics.total_trades, 1);
}

#[test]
fn exact_match() {
    let mut engine = running_engine();
    let buy = limit(Side::Buy, 10, 50000, "a");
    let sell = limit(Side::Sell, 10, 50000, "b");
    let (buy_id, sell_id) = (buy.id, sell.id);
    submit(&mut engine, buy);
    let trades = submit(&mut engine, sell);
    assert_eq!(trades.len(), 1);
    assert_eq!(trades[0].quantity, 10);
    assert_eq!(trades[0].price, 50000 * PRICE_SCALE);
    assert_eq!(trades[0].buy_order_id, buy_id);
    assert_eq!(trades[0].sell_order_id, sell_id);
    assert_eq!(peek(&engine), (None, None, 0));
}

#[test]
fn partial_fill_then_rest() {
    let mut engine = running_engine();
    let buy = limit(Side::Buy, 10, 50000, "a");
    let buy_id = buy.id;
    submit(&mut engine, buy);
    let trades = submit(&mut engine, limit(Side::Sell, 4, 49900, "b"));
    assert_eq!(trades.len(), 1);
    assert_eq!(trades[0].quantity, 4);
    assert_eq!(trades[0].price, 50000 * PRICE_SCALE);
    assert_eq!(peek(&engine), (Some(50000 * PRICE_SCALE), None, 1));
    assert_eq!(engine.cancel_order(buy_id, "BTCUSD".to_string()).unwrap(), true);
}

#[test]
fn price_time_priority() {
    let mut engine = running_engine();
    let a = limit(Side::Buy, 5, 50000, "A");
    let b = limit(Side::Buy, 5, 50000, "B");
    let (a_id, b_id) = (a.id, b.id);
    submit(&mut engine, a);
    submit(&mut engine, b);
    let trades = submit(&mut engine, limit(Side::Sell, 5, 50000, "S"));
    assert_eq!(trades.len(), 1);
    assert_eq!(trades[0].buy_order_id, a_id);
    assert_eq!(peek(&engine), (Some(50000 * PRICE_SCALE), None, 1));
    // B still rests, whole.
    assert_eq!(engine.cancel_order(b_id, "BTCUSD".to_string()).unwrap(), true);
}

#[test]
fn no_cross() {
    let mut engine = running_engine();
    assert!(submit(&mut engine, limit(Side::Buy, 10, 49000, "a")).is_empty());
    assert!(submit(&mut engine, limit(Side::Sell, 10, 51000, "b")).is_empty());
    let (bid, ask, depth) = peek(&engine);
    assert_eq!(bid, Some(49000 * PRICE_SCALE));
    assert_eq!(ask, Some(51000 * PRICE_SCALE));
    assert_eq!(depth, 2);
    assert!(bid.unwrap() < ask.unwrap());
}

#[test]
fn cancel_head_twice() {
    let mut engine = running_engine();
    let x = limit(Side::Buy, 10, 50000, "a");
    let x_id = x.id;
    submit(&mut engine, x);
    assert_eq!(engine.cancel_order(x_id, "BTCUSD".to_string()).unwrap(), true);
    assert_eq!(peek(&engine), (None, None, 0));
    assert_eq!(engine.get_metrics().cancelled_orders, 1);
    assert_eq!(engine.cancel_order(x_id, "BTCUSD".to_string()).unwrap(), false);
    assert_eq!(engine.get_metrics().cancelled_orders, 1);
}

#[test]
fn cancel_on_unknown_symbol_changes_nothing() {
    let mut engine = running_engine();
    assert_eq!(engine.cancel_order(7, "ETHUSD".to_string()).unwrap(), false);
    assert_eq!(engine.get_metrics().cancelled_orders, 0);
    assert!(engine.get_order_book(&"ETHUSD".to_string()).is_none());
}

#[test]
fn sweep_multiple_levels() {
    let mut engine = running_engine();
    submit(&mut engine, limit(Side::Sell, 5, 50100, "a1"));
    submit(&mut engine, limit(Side::Sell, 5, 50200, "a2"));
    submit(&mut engine, limit(Side::Sell, 5, 50300, "a3"));
    let trades = submit(&mut engine, limit(Side::Buy, 12, 50300, "b"));
    let got: Vec<(u64, u64)> = trades.iter().map(|t| (t.quantity, t.price)).collect();
    assert_eq!(
        got,
        vec![(5, 50100 * PRICE_SCALE), (5, 50200 * PRICE_SCALE), (2, 50300 * PRICE_SCALE)]
    );
    assert_eq!(peek(&engine), (None, Some(50300 * PRICE_SCALE), 1));
    let m = engine.get_metrics();
    assert_eq!(m.total_trades, 3);
    assert_eq!(m.filled_orders, 1);
    let notional = 5 * 50100 * PRICE_SCALE + 5 * 50200 * PRICE_SCALE + 2 * 50300 * PRICE_SCALE;
    assert_eq!(m.total_notional, notional as u128);
}

#[test]
fn market_order_sweeps_and_discards_remainder() {
    let mut engine = running_engine();
    submit(&mut engine, limit(Side::Sell, 3, 50100, "a1"));
    let market = Order::new_market("BTCUSD".to_string(), Side::Buy, 5, "m".to_string());
    let trades = submit(&mut engine, market);
    assert_eq!(trades.len(), 1);
    assert_eq!(trades[0].quantity, 3);
    assert_eq!(trades[0].price, 50100 * PRICE_SCALE);
    assert_eq!(peek(&engine), (None, None, 0));
    assert_eq!(engine.get_metrics().total_orders, 2);
}

#[test]
fn invalid_orders_are_rejected() {
    let mut engine = running_engine();
    assert!(submit(&mut engine, limit(Side::Buy, 0, 50000, "z")).is_empty());
    let mut unpriced = limit(Side::Buy, 10, 50000, "u");
    unpriced.price = None;
    assert!(submit(&mut engine, unpriced).is_empty());
    let mut stop = limit(Side::Buy, 10, 50000, "s");
    stop.order_type = OrderType::StopLoss;
    assert!(submit(&mut engine, stop).is_empty());
    // A market order for a symbol with no book.
    let market = Order::new_market("ETHUSD".to_string(), Side::Buy, 5, "m".to_string());
    assert!(submit(&mut engine, market).is_empty());
    let m = engine.get_metrics();
    assert_eq!(m.rejected_orders, 4);
    assert_eq!(m.total_orders, 0);
    assert!(engine.get_order_book(&"BTCUSD".to_string()).is_none());
}

#[test]
fn counters_never_decrease() {
    let mut engine = running_engine();
    let mut last = engine.get_metrics();
    let mut ids = Vec::new();
    for i in 0..6u64 {
        let side = if i % 2 == 0 { Side::Buy } else { Side::Sell };
        let o = limit(side, 3 + i, 50000 + (i % 3) * 10, "c");
        ids.push(o.id);
        submit(&mut engine, o);
        let m = engine.get_metrics();
        assert!(m.total_orders >= last.total_orders && m.total_trades >= last.total_trades);
        assert!(m.filled_orders >= last.filled_orders && m.total_notional >= last.total_notional);
        last = m;
    }
    for id in ids {
        engine.cancel_order(id, "BTCUSD".to_string()).unwrap();
        let m = engine.get_metrics();
        assert!(m.cancelled_orders >= last.cancelled_orders && m.total_orders == last.total_orders);
        last = m;
    }
    let (bid, ask, _) = peek(&engine);
    if let (Some(b), Some(a)) = (bid, ask) {
        assert!(b < a);
    }
}

#[test]
fn latency_percentiles() {
    let mut engine = running_engine();
    let empty: ExecutionMetrics = engine.get_metrics();
    assert_eq!((empty.avg_latency_micros, empty.p50_latency_micros), (0, 0));
    for v in [50u64, 10, 40, 30, 20, 100, 90, 80, 70, 60] {
        engine.record_latency(v);
    }
    let m = engine.get_metrics();
    assert_eq!(m.avg_latency_micros, 55);
    assert_eq!(m.p50_latency_micros, 60);
    assert_eq!(m.p95_latency_micros, 100);
    assert_eq!(m.p99_latency_micros, 100);
    assert!(m.p50_latency_micros <= m.p95_latency_micros);
    assert!(m.p95_latency_micros <= m.p99_latency_micros);
}

#[test]
fn latency_buffer_keeps_latest_samples() {
    let mut engine = running_engine();
    let cap = rust_order_execution_engine::engine::LATENCY_SAMPLE_CAPACITY;
    for _ in 0..cap {
        engine.record_latency(1);
    }
    for _ in 0..cap {
        engine.record_latency(3);
    }
    let m = engine.get_metrics();
    assert_eq!(m.avg_latency_micros, 3);
    assert_eq!(m.p50_latency_micros, 3);
}

#[test]
fn shutdown_finality() {
    let mut engine = running_engine();
    engine.stop();
    assert!(matches!(
        engine.submit_order(limit(Side::Buy, 1, 50000, "a")),
        Err(EngineError::EngineStopped)
    ));
    assert!(matches!(
        engine.cancel_order(1, "BTCUSD".to_string()),
        Err(EngineError::EngineStopped)
    ));
    assert_eq!(engine.get_metrics().total_orders, 0);
}

#[test]
fn command_step() {
    let mut engine = running_engine();
    let (trades, go_on) = engine.process_command(EngineCommand::NewOrder(limit(Side::Buy, 2, 10, "a")));
    assert!(trades.is_empty() && go_on);
    let (trades, go_on) = engine.process_command(EngineCommand::NewOrder(limit(Side::Sell, 2, 10, "b")));
    assert_eq!(trades.len(), 1);
    assert!(go_on);
    let (trades, go_on) = engine.process_command(EngineCommand::Shutdown);
    assert!(trades.is_empty() && !go_on);
    assert!(!engine.is_running());
}
