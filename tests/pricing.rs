use stock_exchange::generator::{active_update_stock_price, passive_tick, passive_update_stock_price};
use stock_exchange::manager::OrderBookManager;
use stock_exchange::models::{Order, OrderType, Stock, Trade};
use stock_exchange::pricing::{
    algorithm_1, algorithm_2, algorithm_3, algorithm_4, algorithm_5, algorithm_6, algorithm_7,
    algorithm_trade, clamp_price, passive_price,
};

fn order(id: &str, side: OrderType, quantity: u32, price: u64, timestamp: u64) -> Order {
    Order {
        id: id.to_string(),
        stock_symbol: "AAA".to_string(),
        order_type: side,
        quantity,
        price,
        timestamp,
        partial_fill: true,
    }
}

fn trade(symbol: &str, quantity: u32, price: u64) -> Trade {
    Trade {
        buy_order_id: "b".to_string(),
        sell_order_id: "s".to_string(),
        stock_symbol: symbol.to_string(),
        quantity,
        price,
        timestamp: 0,
    }
}

#[test]
fn active_price_update_on_trade() {
    // 100 · (1 + (50 · 5 / 100) · 0.01) = 102.5
    assert_eq!(algorithm_trade(&trade("BBB", 50, 1_050_000), 1_000_000), Some(1_025_000));
    let stocks = vec![
        Stock { symbol: "AAA".to_string(), price: 500_000 },
        Stock { symbol: "BBB".to_string(), price: 1_000_000 },
    ];
    let s = active_update_stock_price(&stocks, &trade("BBB", 50, 1_050_000)).unwrap();
    assert_eq!(s.symbol, "BBB");
    assert_eq!(s.price, 1_025_000);
    assert!(active_update_stock_price(&stocks, &trade("CCC", 50, 1_050_000)).is_none());
}

#[test]
fn active_price_falls_and_floors() {
    // 100 · (1 + (10 · −2 / 100) · 0.01) = 99.8
    assert_eq!(algorithm_trade(&trade("A", 10, 980_000), 1_000_000), Some(998_000));
    // A huge sell-off far below the price floors at one tick.
    assert_eq!(algorithm_trade(&trade("A", 1_000_000, 1), 1_000_000), Some(1));
    // A trade at the current price changes nothing.
    assert_eq!(algorithm_trade(&trade("A", 77, 1_234_567), 1_234_567), Some(1_234_567));
    // Large prices are published as they come.
    assert_eq!(algorithm_trade(&trade("A", 100, 2_000_000_000_000), 1_000_000_000_000), Some(2_000_000_000_000));
    let high = 5_000_000_000_000_000u64;
    assert_eq!(algorithm_trade(&trade("A", 42, high), high), Some(high));
    // Only a price that does not fit in a u64 of ticks is not published.
    assert_eq!(algorithm_trade(&trade("A", u32::MAX, u64::MAX), u64::MAX / 2), None);
}

#[test]
fn published_prices_are_rounded_and_floored() {
    assert_eq!(clamp_price(150, 100), Some(2));
    assert_eq!(clamp_price(149, 100), Some(1));
    assert_eq!(clamp_price(250, 100), Some(3));
    assert_eq!(clamp_price(12_345_678, 100), Some(123_457));
    assert_eq!(clamp_price(0, 7), Some(1));
    assert_eq!(clamp_price(-5_000_000, 100), Some(1));
    assert_eq!(clamp_price(1, 3), Some(1));
    assert_eq!(clamp_price(2_000_000_000_000, 1), Some(2_000_000_000_000));
    assert_eq!(clamp_price(u64::MAX as i128 * 10, 10), Some(u64::MAX));
    assert_eq!(clamp_price(u64::MAX as i128 * 10 + 5, 10), None);
}

#[test]
fn signals_on_a_small_book() {
    let buys = vec![order("b1", OrderType::Buy, 10, 1_010_000, 998)];
    let sells = vec![order("s1", OrderType::Sell, 5, 1_020_000, 900)];
    assert_eq!(algorithm_1(&buys, &sells), 5);
    assert_eq!(algorithm_2(&buys, &sells), 0);
    assert_eq!(algorithm_3(&buys, &sells), 5);
    assert_eq!(algorithm_4(&buys, &sells), 1);
    assert_eq!(algorithm_5(&buys, &sells, 1000), 1);
    assert_eq!(algorithm_6(&buys, &sells), -10_000);
    // mean of 1.00005, 1, 1.001, 1.0013333, 1.01, 0.999 is 1.00189722
    assert_eq!(passive_price(1_000_000, &buys, &sells, 1000), Some(1_001_897));
}

#[test]
fn signals_on_deeper_book() {
    let buys: Vec<Order> = (0..6)
        .map(|i| order(&format!("b{}", i), OrderType::Buy, 10 * (i + 1), 1_000_000 - 1000 * i as u64, 50))
        .collect();
    let sells: Vec<Order> = (0..3)
        .map(|i| order(&format!("s{}", i), OrderType::Sell, 7, 1_010_000 + 1000 * i as u64, 40 + i as u64))
        .collect();
    // 210 shares bid, 21 offered
    assert_eq!(algorithm_1(&buys, &sells), 189);
    assert_eq!(algorithm_2(&buys, &sells), 3);
    // top fifth: 2 bids (10 + 20), 1 ask (7)
    assert_eq!(algorithm_3(&buys, &sells), 23);
    // book mean 231 / 9: bids 30, 40, 50, 60 are large
    assert_eq!(algorithm_4(&buys, &sells), 4);
    // at time 46: bids at 50 are recent; asks at 41, 42 are recent
    assert_eq!(algorithm_5(&buys, &sells, 46), 4);
    assert_eq!(algorithm_6(&buys, &sells), -10_000);
}

#[test]
fn empty_side_counts_as_zero_price() {
    let buys = vec![order("b1", OrderType::Buy, 4, 1_000_000, 0)];
    let sells: Vec<Order> = Vec::new();
    assert_eq!(algorithm_6(&buys, &sells), 1_000_000);
    assert_eq!(algorithm_6(&sells, &buys), -1_000_000);
    assert_eq!(algorithm_6(&sells, &sells), 0);
    assert_eq!(algorithm_2(&sells, &sells), 0);
    // An empty book leaves the price as it is.
    assert_eq!(passive_price(1_234_567, &sells, &sells, 0), Some(1_234_567));
}

#[test]
fn passive_price_for_large_prices() {
    let none: Vec<Order> = Vec::new();
    assert_eq!(passive_price(2_000_000_000_000, &none, &none, 0), Some(2_000_000_000_000));
    assert_eq!(passive_price(u64::MAX, &none, &none, 0), Some(u64::MAX));
    // m2 = 1.01 lifts the mean above 1: at u64::MAX ticks the result no longer fits.
    let buys = vec![order("b1", OrderType::Buy, 1, 0, 0)];
    assert_eq!(passive_price(u64::MAX, &buys, &none, 0), None);
}

#[test]
fn large_orders_exceed_the_book_mean() {
    let buys = vec![order("b1", OrderType::Buy, 10, 1, 0), order("b2", OrderType::Buy, 10, 1, 0)];
    let none: Vec<Order> = Vec::new();
    assert_eq!(algorithm_4(&buys, &none), 0);
    // book mean 13: the 20-share ask and the 15-share bid are large
    let buys = vec![order("b1", OrderType::Buy, 15, 1, 0), order("b2", OrderType::Buy, 5, 1, 0)];
    let sells = vec![order("s1", OrderType::Sell, 20, 2, 0), order("s2", OrderType::Sell, 12, 2, 0)];
    assert_eq!(algorithm_4(&buys, &sells), 0);
    let sells = vec![order("s1", OrderType::Sell, 20, 2, 0), order("s2", OrderType::Sell, 14, 2, 0)];
    // book mean 13.5: 15, 20 and 14 are large
    assert_eq!(algorithm_4(&buys, &sells), -1);
}

#[test]
fn sector_static_performance() {
    assert_eq!(algorithm_7(&"Technology".to_string()), 200);
    assert_eq!(algorithm_7(&"Finance".to_string()), -100);
    assert_eq!(algorithm_7(&"Healthcare".to_string()), 300);
    assert_eq!(algorithm_7(&"Consumer Goods".to_string()), 100);
    assert_eq!(algorithm_7(&"Energy".to_string()), -200);
    assert_eq!(algorithm_7(&"Real Estate".to_string()), 200);
    assert_eq!(algorithm_7(&"Utilities".to_string()), 100);
    assert_eq!(algorithm_7(&"Communication".to_string()), 0);
}

#[test]
fn passive_pass_over_all_books() {
    let mut m = OrderBookManager::new();
    let mut o = order("b1", OrderType::Buy, 10, 1_010_000, 998);
    m.handle_order(o.clone());
    o.id = "s1".to_string();
    o.order_type = OrderType::Sell;
    o.quantity = 5;
    o.price = 1_020_000;
    o.timestamp = 900;
    m.handle_order(o);
    let mut x = order("x1", OrderType::Buy, 3, 500_000, 0);
    x.stock_symbol = "XYZ".to_string();
    m.handle_order(x);
    // XYZ has no quote, so only AAA is priced.
    let stocks = vec![Stock { symbol: "AAA".to_string(), price: 1_000_000 }];
    let ups = passive_update_stock_price(&m, &stocks, 1000);
    assert_eq!(ups.len(), 1);
    assert_eq!(ups[0].symbol, "AAA");
    assert_eq!(ups[0].price, 1_001_897);
}

#[test]
fn passive_tick_reads_the_clock() {
    // Orders stamped at the epoch are long past the momentum window now.
    let mut m = OrderBookManager::new();
    m.handle_order(order("b1", OrderType::Buy, 1, 900_000, 0));
    let stocks = vec![Stock { symbol: "AAA".to_string(), price: 1_000_000 }];
    let ups = passive_tick(&m, &stocks);
    assert_eq!(ups.len(), 1);
    // m1 = 1.00001, m2 = 1.01, m3 = 1.0002, m4 = 1, m5 = 1, m6 = 1.09:
    // the mean is 1.01670167, so the price is 101.6702
    assert_eq!(ups[0].price, 1_016_702);
}
