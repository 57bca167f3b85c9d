use vstd::prelude::*;

use crate::book::OrderBook;
use crate::manager::OrderBookManager;
use crate::models::{Stock, Trade};
use crate::pricing::{active_num, algorithm_trade, passive_outcome, passive_price, published};
use crate::sector::{price_in, price_of};

verus! {

/// What a sequence of quotes says: each symbol with its price.
pub open spec fn quotes(s: Seq<Stock>) -> Seq<(Seq<char>, u64)> {
    s.map_values(|x: Stock| (x.symbol@, x.price))
}

/// The prices that one passive pass publishes for the first `k` books, in
/// book order: every book whose symbol is quoted in `stocks` and whose
/// passive outcome is a price.
pub open spec fn passive_updates(books: Seq<OrderBook>, stocks: Seq<Stock>, now: int, k: int) -> Seq<(Seq<char>, u64)>
    decreases k,
{
    if k <= 0 {
        Seq::empty()
    } else {
        let prev = passive_updates(books, stocks, now, k - 1);
        let b = books[k - 1];
        match price_in(stocks, b.symbol@) {
            Some(p) => match passive_outcome(p as int, b.buys@, b.sells@, now) {
                Some(q) => prev.push((b.symbol@, q)),
                None => prev,
            },
            None => prev,
        }
    }
}

/// One passive pass at time `now`: a new price for every symbol that has a
/// book and a quote in `stocks`, from the state of its book.
pub fn passive_update_stock_price(manager: &OrderBookManager, stocks: &Vec<Stock>, now: i64) -> (r: Vec<Stock>)
    ensures
        quotes(r@) == passive_updates(manager.books@, stocks@, now as int, manager.books@.len() as int),
{
    let mut out: Vec<Stock> = Vec::new();
    let mut i: usize = 0;
    while i < manager.books.len()
        invariant
            i <= manager.books@.len(),
            quotes(out@) == passive_updates(manager.books@, stocks@, now as int, i as int),
        decreases manager.books@.len() - i,
    {
        let book = &manager.books[i];
        match price_of(stocks, &book.symbol) {
            Some(p) => {
                match passive_price(p, &book.buys, &book.sells, now) {
                    Some(q) => {
                        let st = Stock { symbol: book.symbol.clone(), price: q };
                        let ghost before = out@;
                        out.push(st);
                        assert(quotes(out@) =~= quotes(before).push((book.symbol@, q)));
                    },
                    None => {},
                }
            },
            None => {},
        }
        i = i + 1;
    }
    out
}

/// Relies on chrono's `Local::now().timestamp()`: the current time in Unix
/// seconds. Nothing is assumed of the value.
#[verifier::external_body]
fn now_seconds() -> (r: i64) {
    chrono::Local::now().timestamp()
}

/// One passive pass at the current time (see `passive_update_stock_price`).
pub fn passive_tick(manager: &OrderBookManager, stocks: &Vec<Stock>) -> (r: Vec<Stock>)
    ensures
        exists|now: i64|
            quotes(r@) == #[trigger] passive_updates(manager.books@, stocks@, now as int, manager.books@.len() as int),
{
    let now = now_seconds();
    passive_update_stock_price(manager, stocks, now)
}

/// The price that `trade` publishes for its symbol, from the symbol's quote
/// in `stocks`; `None` where the symbol has no quote or the new price does
/// not fit in a `u64` of ticks.
pub fn active_update_stock_price(stocks: &Vec<Stock>, trade: &Trade) -> (r: Option<Stock>)
    ensures
        match price_in(stocks@, trade.stock_symbol@) {
            None => r.is_none(),
            Some(p) => match published(active_num(p as int, trade.quantity as int, trade.price as int), 100) {
                None => r.is_none(),
                Some(q) => r matches Some(s) && s.symbol@ == trade.stock_symbol@ && s.price == q,
            },
        },
{
    match price_of(stocks, &trade.stock_symbol) {
        None => None,
        Some(p) => match algorithm_trade(trade, p) {
            None => None,
            Some(q) => Some(Stock { symbol: trade.stock_symbol.clone(), price: q }),
        },
    }
}

} // verus!
