use vstd::prelude::*;

verus! {

/// Number of ticks in one unit of currency: prices carry four decimals.
pub const TICKS_PER_UNIT: u64 = 10000;

/// Side of an order.
#[derive(Clone, Copy, Debug, PartialEq, Eq, Structural)]
pub enum OrderType {
    Buy,
    Sell,
}

impl OrderType {
    /// The side's name, as it is written in messages.
    pub fn name(&self) -> (r: &'static str)
        ensures
            r@ == (match *self {
                OrderType::Buy => "Buy"@,
                OrderType::Sell => "Sell"@,
            }),
    {
        match self {
            OrderType::Buy => "Buy",
            OrderType::Sell => "Sell",
        }
    }
}

/// A limit order. `price` is in ticks of 0.0001; `timestamp` is in Unix seconds.
#[derive(Clone, Debug)]
pub struct Order {
    pub id: String,
    pub stock_symbol: String,
    pub order_type: OrderType,
    pub quantity: u32,
    pub price: u64,
    pub timestamp: u64,
    pub partial_fill: bool,
}

/// A completed match between a buy and a sell order. `price` is in ticks.
#[derive(Clone, Debug)]
pub struct Trade {
    pub buy_order_id: String,
    pub sell_order_id: String,
    pub stock_symbol: String,
    pub quantity: u32,
    pub price: u64,
    pub timestamp: u64,
}

/// A quoted price for a symbol, in ticks.
#[derive(Clone, Debug)]
pub struct Stock {
    pub symbol: String,
    pub price: u64,
}

} // verus!
