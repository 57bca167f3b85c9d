use stock_exchange::book::OrderBook;
use stock_exchange::generator::passive_update_stock_price;
use stock_exchange::manager::OrderBookManager;
use stock_exchange::models::{Order, OrderType, Stock, Trade};

fn order(id: &str, symbol: &str, side: OrderType, quantity: u32, price: u64, timestamp: u64) -> Order {
    Order {
        id: id.to_string(),
        stock_symbol: symbol.to_string(),
        order_type: side,
        quantity,
        price,
        timestamp,
        partial_fill: true,
    }
}

fn prices(orders: &[Order]) -> Vec<u64> {
    orders.iter().map(|o| o.price).collect()
}

fn quantities(orders: &[Order]) -> Vec<u32> {
    orders.iter().map(|o| o.quantity).collect()
}

fn book<'a>(m: &'a OrderBookManager, symbol: &str) -> &'a OrderBook {
    m.books.iter().find(|b| b.symbol == symbol).expect("book exists")
}

#[test]
fn simple_cross_resting_buy_sets_price() {
    let mut m = OrderBookManager::new();
    let t1 = m.handle_order(order("b1", "AAA", OrderType::Buy, 10, 1_010_000, 1));
    assert!(t1.is_empty());
    let t2 = m.handle_order(order("s1", "AAA", OrderType::Sell, 10, 990_000, 2));
    assert_eq!(t2.len(), 1);
    let t: &Trade = &t2[0];
    assert_eq!(t.quantity, 10);
    assert_eq!(t.price, 1_010_000);
    assert_eq!(t.buy_order_id, "b1");
    assert_eq!(t.sell_order_id, "s1");
    assert_eq!(t.stock_symbol, "AAA");
    assert_eq!(t.timestamp, 2);
    let b = book(&m, "AAA");
    assert!(b.buys.is_empty());
    assert!(b.sells.is_empty());

    // A passive tick on an empty book leaves the price as it is.
    let stocks = vec![Stock { symbol: "AAA".to_string(), price: 1_000_000 }];
    let updates = passive_update_stock_price(&m, &stocks, 10);
    assert_eq!(updates.len(), 1);
    assert_eq!(updates[0].symbol, "AAA");
    assert_eq!(updates[0].price, 1_000_000);
}

#[test]
fn partial_fill_aggressor_larger() {
    let mut m = OrderBookManager::new();
    assert!(m.handle_order(order("s1", "AAA", OrderType::Sell, 5, 1_000_000, 1)).is_empty());
    let trades = m.handle_order(order("b1", "AAA", OrderType::Buy, 12, 1_000_000, 2));
    assert_eq!(trades.len(), 1);
    assert_eq!(trades[0].quantity, 5);
    assert_eq!(trades[0].price, 1_000_000);
    let b = book(&m, "AAA");
    assert_eq!(b.buys.len(), 1);
    assert_eq!(b.buys[0].id, "b1");
    assert_eq!(b.buys[0].quantity, 7);
    assert!(b.sells.is_empty());
}

#[test]
fn multi_level_sweep() {
    let mut m = OrderBookManager::new();
    m.handle_order(order("s1", "AAA", OrderType::Sell, 3, 1_000_000, 1));
    m.handle_order(order("s2", "AAA", OrderType::Sell, 4, 1_010_000, 2));
    m.handle_order(order("s3", "AAA", OrderType::Sell, 5, 1_020_000, 3));
    let trades = m.handle_order(order("b1", "AAA", OrderType::Buy, 10, 1_030_000, 4));
    assert_eq!(trades.iter().map(|t| t.quantity).collect::<Vec<_>>(), vec![3, 4, 3]);
    assert_eq!(trades.iter().map(|t| t.price).collect::<Vec<_>>(), vec![1_000_000, 1_010_000, 1_020_000]);
    let b = book(&m, "AAA");
    assert!(b.buys.is_empty());
    assert_eq!(b.sells.len(), 1);
    assert_eq!(b.sells[0].id, "s3");
    assert_eq!(b.sells[0].quantity, 2);
    assert_eq!(b.sells[0].price, 1_020_000);
}

#[test]
fn fifo_at_equal_price() {
    let mut m = OrderBookManager::new();
    m.handle_order(order("s1", "AAA", OrderType::Sell, 5, 1_000_000, 100));
    m.handle_order(order("s2", "AAA", OrderType::Sell, 5, 1_000_000, 101));
    let trades = m.handle_order(order("b1", "AAA", OrderType::Buy, 5, 1_000_000, 102));
    assert_eq!(trades.len(), 1);
    assert_eq!(trades[0].sell_order_id, "s1");
    let b = book(&m, "AAA");
    assert_eq!(b.sells.len(), 1);
    assert_eq!(b.sells[0].id, "s2");
    assert_eq!(b.sells[0].quantity, 5);
}

#[test]
fn inserts_keep_both_sides_sorted() {
    let mut b = OrderBook::new("AAA".to_string());
    let bids = [1_000_000u64, 1_020_000, 990_000, 1_020_000, 1_010_000];
    let asks = [1_100_000u64, 1_050_000, 1_200_000, 1_050_000];
    for (i, p) in bids.iter().enumerate() {
        b.insert(order(&format!("b{}", i), "AAA", OrderType::Buy, 1, *p, i as u64));
        assert!(b.buys.windows(2).all(|w| w[0].price >= w[1].price));
    }
    for (i, p) in asks.iter().enumerate() {
        b.insert(order(&format!("a{}", i), "AAA", OrderType::Sell, 1, *p, i as u64));
        assert!(b.sells.windows(2).all(|w| w[0].price <= w[1].price));
    }
    assert_eq!(prices(&b.buys), vec![1_020_000, 1_020_000, 1_010_000, 1_000_000, 990_000]);
    // Equal prices keep arrival order.
    assert_eq!(b.buys[0].id, "b1");
    assert_eq!(b.buys[1].id, "b3");
    assert_eq!(prices(&b.sells), vec![1_050_000, 1_050_000, 1_100_000, 1_200_000]);
    assert_eq!(b.sells[0].id, "a1");
    assert_eq!(b.sells[1].id, "a3");
    assert_eq!(b.aggressor, Some(OrderType::Sell));
}

#[test]
fn book_uncrossed_after_each_order() {
    let mut m = OrderBookManager::new();
    let flow = [
        (OrderType::Buy, 7u32, 1_000_000u64),
        (OrderType::Sell, 3, 1_010_000),
        (OrderType::Sell, 9, 990_000),
        (OrderType::Buy, 20, 1_020_000),
        (OrderType::Sell, 4, 1_015_000),
        (OrderType::Buy, 2, 1_015_000),
    ];
    for (i, (side, q, p)) in flow.iter().enumerate() {
        m.handle_order(order(&format!("o{}", i), "AAA", *side, *q, *p, i as u64));
        let b = book(&m, "AAA");
        if let (Some(bid), Some(ask)) = (b.buys.first(), b.sells.first()) {
            assert!(bid.price < ask.price);
        }
    }
}

#[test]
fn match_conserves_quantity() {
    let mut b = OrderBook::new("AAA".to_string());
    b.insert(order("s1", "AAA", OrderType::Sell, 8, 1_000_000, 1));
    b.insert(order("s2", "AAA", OrderType::Sell, 2, 1_010_000, 2));
    b.insert(order("b1", "AAA", OrderType::Buy, 5, 1_010_000, 3));
    let buy_before: u32 = b.buys.iter().map(|o| o.quantity).sum();
    let sell_before: u32 = b.sells.iter().map(|o| o.quantity).sum();
    let t = b.match_top().expect("crossed");
    assert_eq!(t.quantity, 5);
    let buy_after: u32 = b.buys.iter().map(|o| o.quantity).sum();
    let sell_after: u32 = b.sells.iter().map(|o| o.quantity).sum();
    assert_eq!(buy_before, buy_after + t.quantity);
    assert_eq!(sell_before, sell_after + t.quantity);
    assert_eq!(quantities(&b.sells), vec![3, 2]);
    assert!(b.buys.is_empty());
    assert!(b.match_top().is_none());
}

#[test]
fn trade_price_is_resting_price() {
    // A sell rests, then a buy arrives: the sell's price.
    let mut b = OrderBook::new("AAA".to_string());
    b.insert(order("s1", "AAA", OrderType::Sell, 5, 990_000, 1));
    b.insert(order("b1", "AAA", OrderType::Buy, 5, 1_010_000, 2));
    assert_eq!(b.match_top().unwrap().price, 990_000);
    // A buy rests, then a sell arrives: the buy's price.
    let mut b = OrderBook::new("AAA".to_string());
    b.insert(order("b1", "AAA", OrderType::Buy, 5, 1_010_000, 1));
    b.insert(order("s1", "AAA", OrderType::Sell, 5, 990_000, 2));
    let t = b.match_top().unwrap();
    assert_eq!(t.price, 1_010_000);
    assert_eq!(t.timestamp, 2);
}

#[test]
fn uncrossed_book_does_not_match() {
    let mut m = OrderBookManager::new();
    assert!(m.process_order(&"AAA".to_string()).is_none());
    m.add_to_orderbook(order("b1", "AAA", OrderType::Buy, 5, 990_000, 1));
    m.add_to_orderbook(order("s1", "AAA", OrderType::Sell, 5, 1_000_000, 2));
    assert!(m.process_order(&"AAA".to_string()).is_none());
    m.add_to_orderbook(order("b2", "AAA", OrderType::Buy, 2, 1_000_000, 3));
    let t = m.process_order(&"AAA".to_string()).unwrap();
    assert_eq!(t.quantity, 2);
    assert_eq!(t.buy_order_id, "b2");
    assert_eq!(t.price, 1_000_000);
    assert!(m.process_order(&"AAA".to_string()).is_none());
}

#[test]
fn books_of_other_symbols_untouched() {
    let mut m = OrderBookManager::new();
    m.handle_order(order("b1", "AAA", OrderType::Buy, 5, 1_000_000, 1));
    m.handle_order(order("s1", "BBB", OrderType::Sell, 5, 900_000, 2));
    assert_eq!(m.books.len(), 2);
    assert_eq!(book(&m, "AAA").buys.len(), 1);
    assert_eq!(book(&m, "BBB").sells.len(), 1);
    assert_eq!(OrderType::Buy.name(), "Buy");
    assert_eq!(OrderType::Sell.name(), "Sell");
}
