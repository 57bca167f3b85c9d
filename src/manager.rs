use vstd::prelude::*;

use crate::book::{
    asks_with, bids_with, crossed, drain, fill_front, max_u64, min_u32, qty_total, resting_price,
    trades_view, lemma_fill_front_total, OrderBook,
};
use crate::models::{Order, OrderType, Trade};

verus! {

/// Total quantity of a sequence of trades.
pub open spec fn traded_total(ts: Seq<Trade>) -> int
    decreases ts.len(),
{
    if ts.len() == 0 {
        0
    } else {
        traded_total(ts.drop_last()) + ts.last().quantity
    }
}

/// Owns the order books of all symbols, at most one book per symbol.
pub struct OrderBookManager {
    pub books: Vec<OrderBook>,
}

impl OrderBookManager {
    pub open spec fn wf(&self) -> bool {
        &&& forall|i: int| 0 <= i < self.books@.len() ==> (#[trigger] self.books@[i]).wf()
        &&& forall|i: int, j: int|
            0 <= i < j < self.books@.len() ==> self.books@[i].symbol@ != self.books@[j].symbol@
    }

    pub open spec fn has_book(&self, sym: Seq<char>) -> bool {
        exists|i: int| 0 <= i < self.books@.len() && self.books@[i].symbol@ == sym
    }

    pub open spec fn book_index(&self, sym: Seq<char>) -> int {
        choose|i: int| 0 <= i < self.books@.len() && self.books@[i].symbol@ == sym
    }

    /// The resting bids of `sym`; none where it has no book yet.
    pub open spec fn bids_of(&self, sym: Seq<char>) -> Seq<Order> {
        if self.has_book(sym) {
            self.books@[self.book_index(sym)].buys@
        } else {
            Seq::empty()
        }
    }

    /// The resting asks of `sym`; none where it has no book yet.
    pub open spec fn asks_of(&self, sym: Seq<char>) -> Seq<Order> {
        if self.has_book(sym) {
            self.books@[self.book_index(sym)].sells@
        } else {
            Seq::empty()
        }
    }

    /// The side of the last order inserted for `sym`.
    pub open spec fn aggressor_of(&self, sym: Seq<char>) -> Option<OrderType> {
        if self.has_book(sym) {
            self.books@[self.book_index(sym)].aggressor
        } else {
            None
        }
    }

    /// The books of every symbol but `sym` are the same in `self` and `other`.
    pub open spec fn same_except(&self, other: &OrderBookManager, sym: Seq<char>) -> bool {
        forall|s: Seq<char>|
            s != sym ==> {
                &&& #[trigger] self.has_book(s) == other.has_book(s)
                &&& self.bids_of(s) == other.bids_of(s)
                &&& self.asks_of(s) == other.asks_of(s)
                &&& self.aggressor_of(s) == other.aggressor_of(s)
            }
    }

    proof fn lemma_index(&self, sym: Seq<char>, i: int)
        requires
            self.wf(),
            0 <= i < self.books@.len(),
            self.books@[i].symbol@ == sym,
        ensures
            self.has_book(sym),
            self.book_index(sym) == i,
    {
        let k = self.book_index(sym);
        assert(0 <= k < self.books@.len() && self.books@[k].symbol@ == sym);
        if k < i {
        } else if i < k {
        }
    }

    /// A manager without any book.
    pub fn new() -> (r: OrderBookManager)
        ensures
            r.wf(),
            forall|s: Seq<char>| !r.has_book(s),
    {
        OrderBookManager { books: Vec::new() }
    }

    fn find(&self, symbol: &String) -> (r: Option<usize>)
        requires
            self.wf(),
        ensures
            r matches Some(i) ==> i < self.books@.len() && self.books@[i as int].symbol@ == symbol@
                && self.has_book(symbol@) && self.book_index(symbol@) == i,
            r.is_none() ==> !self.has_book(symbol@),
    {
        let mut i: usize = 0;
        while i < self.books.len()
            invariant
                self.wf(),
                i <= self.books@.len(),
                forall|j: int| 0 <= j < i ==> self.books@[j].symbol@ != symbol@,
            decreases self.books@.len() - i,
        {
            if self.books[i].symbol == *symbol {
                proof {
                    self.lemma_index(symbol@, i as int);
                }
                return Some(i);
            }
            i = i + 1;
        }
        None
    }

    /// After `books[idx]` alone changed, keeping its symbol and its
    /// well-formedness, the manager is well-formed and the other symbols'
    /// books are unchanged.
    proof fn lemma_frame(&self, old_self: &OrderBookManager, idx: int)
        requires
            old_self.wf(),
            self.books@[idx].wf(),
            0 <= idx < old_self.books@.len(),
            self.books@.len() == old_self.books@.len(),
            self.books@[idx].symbol == old_self.books@[idx].symbol,
            forall|j: int| 0 <= j < self.books@.len() && j != idx ==> self.books@[j] == old_self.books@[j],
        ensures
            self.wf(),
            self.same_except(old_self, old_self.books@[idx].symbol@),
            self.has_book(old_self.books@[idx].symbol@),
            self.book_index(old_self.books@[idx].symbol@) == idx,
    {
        assert forall|i: int| 0 <= i < self.books@.len() implies (#[trigger] self.books@[i]).wf() by {
            if i != idx {
                assert(self.books@[i] == old_self.books@[i]);
            }
        }
        assert forall|i: int, j: int| 0 <= i < j < self.books@.len() implies self.books@[i].symbol@
            != self.books@[j].symbol@ by {
            assert(self.books@[i].symbol == old_self.books@[i].symbol);
            assert(self.books@[j].symbol == old_self.books@[j].symbol);
        }
        let sym = old_self.books@[idx].symbol@;
        self.lemma_index(sym, idx);
        assert forall|s: Seq<char>| s != sym implies {
            &&& #[trigger] self.has_book(s) == old_self.has_book(s)
            &&& self.bids_of(s) == old_self.bids_of(s)
            &&& self.asks_of(s) == old_self.asks_of(s)
            &&& self.aggressor_of(s) == old_self.aggressor_of(s)
        } by {
            if old_self.has_book(s) {
                let k = old_self.book_index(s);
                old_self.lemma_index(s, k);
                self.lemma_index(s, k);
            }
            if self.has_book(s) {
                let k = self.book_index(s);
                self.lemma_index(s, k);
                old_self.lemma_index(s, k);
            }
        }
    }

    /// Places `order` in the book of its symbol, which is created empty
    /// where it does not exist yet. Every other book stays as it was.
    pub fn add_to_orderbook(&mut self, order: Order)
        requires
            old(self).wf(),
            order.quantity > 0,
        ensures
            final(self).wf(),
            final(self).has_book(order.stock_symbol@),
            final(self).aggressor_of(order.stock_symbol@) == Some(order.order_type),
            order.order_type == OrderType::Buy ==> {
                &&& final(self).bids_of(order.stock_symbol@) == bids_with(old(self).bids_of(order.stock_symbol@), order)
                &&& final(self).asks_of(order.stock_symbol@) == old(self).asks_of(order.stock_symbol@)
            },
            order.order_type == OrderType::Sell ==> {
                &&& final(self).asks_of(order.stock_symbol@) == asks_with(old(self).asks_of(order.stock_symbol@), order)
                &&& final(self).bids_of(order.stock_symbol@) == old(self).bids_of(order.stock_symbol@)
            },
            final(self).same_except(old(self), order.stock_symbol@),
    {
        let ghost sym = order.stock_symbol@;
        let found = self.find(&order.stock_symbol);
        let idx: usize = match found {
            Some(i) => i,
            None => {
                let ghost before = *self;
                let book = OrderBook::new(order.stock_symbol.clone());
                self.books.push(book);
                proof {
                    let n = before.books@.len() as int;
                    assert forall|i: int| 0 <= i < self.books@.len() implies (#[trigger] self.books@[i]).wf() by {
                        if i < n {
                            assert(self.books@[i] == before.books@[i]);
                        }
                    }
                    assert forall|s: Seq<char>| s != sym implies {
                        &&& #[trigger] self.has_book(s) == before.has_book(s)
                        &&& self.bids_of(s) == before.bids_of(s)
                        &&& self.asks_of(s) == before.asks_of(s)
                        &&& self.aggressor_of(s) == before.aggressor_of(s)
                    } by {
                        if before.has_book(s) {
                            let k = before.book_index(s);
                            before.lemma_index(s, k);
                            assert(self.books@[k] == before.books@[k]);
                            self.lemma_index(s, k);
                        }
                        if self.has_book(s) {
                            let k = self.book_index(s);
                            self.lemma_index(s, k);
                            if k < n {
                                assert(self.books@[k] == before.books@[k]);
                                before.lemma_index(s, k);
                            }
                        }
                    }
                    self.lemma_index(sym, n);
                }
                self.books.len() - 1
            },
        };
        let ghost mid = *self;
        self.books[idx].insert(order);
        proof {
            self.lemma_frame(&mid, idx as int);
            assert forall|s: Seq<char>| s != sym implies {
                &&& #[trigger] self.has_book(s) == old(self).has_book(s)
                &&& self.bids_of(s) == old(self).bids_of(s)
                &&& self.asks_of(s) == old(self).asks_of(s)
                &&& self.aggressor_of(s) == old(self).aggressor_of(s)
            } by {
                assert(mid.has_book(s) == self.has_book(s));
            }
        }
    }

    /// Matches the best bid and ask of `symbol` once, if they cross
    /// (see `OrderBook::match_top`). Every other book stays as it was.
    pub fn process_order(&mut self, symbol: &String) -> (r: Option<Trade>)
        requires
            old(self).wf(),
        ensures
            final(self).wf(),
            final(self).same_except(old(self), symbol@),
            final(self).has_book(symbol@) == old(self).has_book(symbol@),
            final(self).aggressor_of(symbol@) == old(self).aggressor_of(symbol@),
            r.is_none() <==> !crossed(old(self).bids_of(symbol@), old(self).asks_of(symbol@)),
            r.is_none() ==> final(self).bids_of(symbol@) == old(self).bids_of(symbol@)
                && final(self).asks_of(symbol@) == old(self).asks_of(symbol@),
            r matches Some(t) ==> {
                let buys = old(self).bids_of(symbol@);
                let sells = old(self).asks_of(symbol@);
                let q = min_u32(buys[0].quantity, sells[0].quantity);
                &&& t.buy_order_id@ == buys[0].id@
                &&& t.sell_order_id@ == sells[0].id@
                &&& t.stock_symbol@ == symbol@
                &&& t.quantity == q
                &&& t.price == resting_price(buys, sells, old(self).aggressor_of(symbol@))
                &&& t.timestamp == max_u64(buys[0].timestamp, sells[0].timestamp)
                &&& final(self).bids_of(symbol@) == fill_front(buys, q)
                &&& final(self).asks_of(symbol@) == fill_front(sells, q)
            },
    {
        match self.find(symbol) {
            None => None,
            Some(idx) => {
                let ghost mid = *self;
                let r = self.books[idx].match_top();
                proof {
                    self.lemma_frame(&mid, idx as int);
                }
                r
            },
        }
    }

    /// Runs one incoming order through its book: inserts it, then matches
    /// until the book no longer crosses, and returns the trades in the
    /// order they were made.
    pub fn handle_order(&mut self, order: Order) -> (trades: Vec<Trade>)
        requires
            old(self).wf(),
            order.quantity > 0,
        ensures
            final(self).wf(),
            final(self).same_except(old(self), order.stock_symbol@),
            final(self).has_book(order.stock_symbol@),
            !crossed(final(self).bids_of(order.stock_symbol@), final(self).asks_of(order.stock_symbol@)),
            forall|i: int| 0 <= i < trades@.len() ==> (#[trigger] trades@[i]).stock_symbol@ == order.stock_symbol@,
            ({
                let sym = order.stock_symbol@;
                let bids0 = if order.order_type == OrderType::Buy {
                    bids_with(old(self).bids_of(sym), order)
                } else {
                    old(self).bids_of(sym)
                };
                let asks0 = if order.order_type == OrderType::Sell {
                    asks_with(old(self).asks_of(sym), order)
                } else {
                    old(self).asks_of(sym)
                };
                let d = drain(bids0, asks0, Some(order.order_type));
                &&& trades_view(trades@) == d.0
                &&& final(self).bids_of(sym) == d.1
                &&& final(self).asks_of(sym) == d.2
                &&& final(self).aggressor_of(sym) == Some(order.order_type)
                &&& qty_total(bids0) == qty_total(final(self).bids_of(sym)) + traded_total(trades@)
                &&& qty_total(asks0) == qty_total(final(self).asks_of(sym)) + traded_total(trades@)
            }),
    {
        let ghost sym = order.stock_symbol@;
        let symbol = order.stock_symbol.clone();
        self.add_to_orderbook(order);
        let ghost start = *self;
        let mut trades: Vec<Trade> = Vec::new();
        proof {
            assert(trades_view(trades@) =~= Seq::empty());
            assert(trades_view(trades@) + drain(self.bids_of(sym), self.asks_of(sym), start.aggressor_of(sym)).0
                =~= drain(self.bids_of(sym), self.asks_of(sym), start.aggressor_of(sym)).0);
        }
        loop
            invariant
                self.wf(),
                symbol@ == sym,
                self.same_except(old(self), sym),
                self.has_book(sym),
                forall|i: int| 0 <= i < trades@.len() ==> (#[trigger] trades@[i]).stock_symbol@ == sym,
                qty_total(start.bids_of(sym)) == qty_total(self.bids_of(sym)) + traded_total(trades@),
                qty_total(start.asks_of(sym)) == qty_total(self.asks_of(sym)) + traded_total(trades@),
                self.aggressor_of(sym) == start.aggressor_of(sym),
                ({
                    let d0 = drain(start.bids_of(sym), start.asks_of(sym), start.aggressor_of(sym));
                    let d = drain(self.bids_of(sym), self.asks_of(sym), start.aggressor_of(sym));
                    &&& d0.0 == trades_view(trades@) + d.0
                    &&& d0.1 == d.1
                    &&& d0.2 == d.2
                }),
            ensures
                self.wf(),
                self.same_except(old(self), sym),
                self.has_book(sym),
                !crossed(self.bids_of(sym), self.asks_of(sym)),
                forall|i: int| 0 <= i < trades@.len() ==> (#[trigger] trades@[i]).stock_symbol@ == sym,
                qty_total(start.bids_of(sym)) == qty_total(self.bids_of(sym)) + traded_total(trades@),
                qty_total(start.asks_of(sym)) == qty_total(self.asks_of(sym)) + traded_total(trades@),
                self.aggressor_of(sym) == start.aggressor_of(sym),
                trades_view(trades@) == drain(start.bids_of(sym), start.asks_of(sym), start.aggressor_of(sym)).0,
                self.bids_of(sym) == drain(start.bids_of(sym), start.asks_of(sym), start.aggressor_of(sym)).1,
                self.asks_of(sym) == drain(start.bids_of(sym), start.asks_of(sym), start.aggressor_of(sym)).2,
            decreases self.bids_of(sym).len() + self.asks_of(sym).len(),
        {
            let ghost before = *self;
            match self.process_order(&symbol) {
                None => {
                    break;
                },
                Some(t) => {
                    proof {
                        let buys = before.bids_of(sym);
                        let sells = before.asks_of(sym);
                        let q = t.quantity;
                        lemma_fill_front_total(buys, q);
                        lemma_fill_front_total(sells, q);
                        let ts = trades@.push(t);
                        assert(ts.drop_last() =~= trades@);
                        let ag = start.aggressor_of(sym);
                        let rest = drain(self.bids_of(sym), self.asks_of(sym), ag);
                        assert(trades_view(ts) =~= trades_view(trades@).push(
                            (t.buy_order_id@, t.sell_order_id@, t.quantity, t.price, t.timestamp),
                        ));
                        assert(trades_view(ts) + rest.0 =~= trades_view(trades@) + drain(buys, sells, ag).0);
                        assert forall|s: Seq<char>| s != sym implies {
                            &&& #[trigger] self.has_book(s) == old(self).has_book(s)
                            &&& self.bids_of(s) == old(self).bids_of(s)
                            &&& self.asks_of(s) == old(self).asks_of(s)
                            &&& self.aggressor_of(s) == old(self).aggressor_of(s)
                        } by {
                            assert(before.has_book(s) == self.has_book(s));
                        }
                    }
                    trades.push(t);
                },
            }
        }
        trades
    }
}

} // verus!
