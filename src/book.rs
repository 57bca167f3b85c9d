use vstd::prelude::*;

use crate::models::{Order, OrderType, Trade};

verus! {

/// Bids are ordered best first: prices never rise along the sequence.
pub open spec fn bids_sorted(s: Seq<Order>) -> bool {
    forall|i: int, j: int| 0 <= i < j < s.len() ==> s[i].price >= s[j].price
}

/// Asks are ordered best first: prices never fall along the sequence.
pub open spec fn asks_sorted(s: Seq<Order>) -> bool {
    forall|i: int, j: int| 0 <= i < j < s.len() ==> s[i].price <= s[j].price
}

/// Every resting order still has shares outstanding.
pub open spec fn all_positive(s: Seq<Order>) -> bool {
    forall|i: int| 0 <= i < s.len() ==> s[i].quantity > 0
}

/// Number of shares in the first `k` orders of `s`.
pub open spec fn qty_prefix(s: Seq<Order>, k: int) -> int
    decreases k,
{
    if k <= 0 {
        0
    } else {
        qty_prefix(s, k - 1) + s[k - 1].quantity
    }
}

/// Total number of shares in a sequence of orders.
pub open spec fn qty_total(s: Seq<Order>) -> int {
    qty_prefix(s, s.len() as int)
}

/// Where a new bid at `price` goes, searching from `i`: before the first
/// resting bid with a strictly lower price, so that equal prices keep
/// their arrival order.
pub open spec fn bid_slot_from(s: Seq<Order>, price: u64, i: int) -> int
    decreases s.len() - i,
{
    if i < 0 || i >= s.len() || s[i].price < price {
        i
    } else {
        bid_slot_from(s, price, i + 1)
    }
}

pub open spec fn bid_slot(s: Seq<Order>, price: u64) -> int {
    bid_slot_from(s, price, 0)
}

/// Where a new ask at `price` goes, searching from `i`: before the first
/// resting ask with a strictly higher price.
pub open spec fn ask_slot_from(s: Seq<Order>, price: u64, i: int) -> int
    decreases s.len() - i,
{
    if i < 0 || i >= s.len() || s[i].price > price {
        i
    } else {
        ask_slot_from(s, price, i + 1)
    }
}

pub open spec fn ask_slot(s: Seq<Order>, price: u64) -> int {
    ask_slot_from(s, price, 0)
}

/// The bids after inserting `o` at its place.
pub open spec fn bids_with(s: Seq<Order>, o: Order) -> Seq<Order> {
    s.insert(bid_slot(s, o.price), o)
}

/// The asks after inserting `o` at its place.
pub open spec fn asks_with(s: Seq<Order>, o: Order) -> Seq<Order> {
    s.insert(ask_slot(s, o.price), o)
}

/// The book is crossed: the best bid reaches the best ask.
pub open spec fn crossed(buys: Seq<Order>, sells: Seq<Order>) -> bool {
    buys.len() > 0 && sells.len() > 0 && buys[0].price >= sells[0].price
}

/// `s` with `q` shares taken from its first order, which leaves once it
/// has none left.
pub open spec fn fill_front(s: Seq<Order>, q: u32) -> Seq<Order> {
    if s[0].quantity > q {
        s.update(0, Order { quantity: (s[0].quantity - q) as u32, ..s[0] })
    } else {
        s.subrange(1, s.len() as int)
    }
}

/// The price at which the two best orders trade: that of the resting side,
/// the side opposite to the most recently inserted order.
pub open spec fn resting_price(buys: Seq<Order>, sells: Seq<Order>, aggressor: Option<OrderType>) -> u64 {
    match aggressor {
        Some(OrderType::Sell) => buys[0].price,
        _ => sells[0].price,
    }
}

pub open spec fn min_u32(a: u32, b: u32) -> u32 {
    if a <= b { a } else { b }
}

pub open spec fn max_u64(a: u64, b: u64) -> u64 {
    if a >= b { a } else { b }
}

/// What a trade records besides its symbol, as plain values: the buy and
/// sell order ids, the quantity, the price and the timestamp.
pub open spec fn trade_view(t: Trade) -> (Seq<char>, Seq<char>, u32, u64, u64) {
    (t.buy_order_id@, t.sell_order_id@, t.quantity, t.price, t.timestamp)
}

pub open spec fn trades_view(ts: Seq<Trade>) -> Seq<(Seq<char>, Seq<char>, u32, u64, u64)> {
    ts.map_values(|t: Trade| trade_view(t))
}

/// Matching bids `b` against asks `s` until they no longer cross, with
/// `aggressor` the side of the last insert: the trades made, in order, and
/// the bids and asks left.
pub open spec fn drain(b: Seq<Order>, s: Seq<Order>, aggressor: Option<OrderType>) -> (
    Seq<(Seq<char>, Seq<char>, u32, u64, u64)>,
    Seq<Order>,
    Seq<Order>,
)
    decreases b.len() + s.len(),
{
    if !crossed(b, s) {
        (Seq::empty(), b, s)
    } else {
        let q = min_u32(b[0].quantity, s[0].quantity);
        let t = (b[0].id@, s[0].id@, q, resting_price(b, s, aggressor), max_u64(b[0].timestamp, s[0].timestamp));
        let rest = drain(fill_front(b, q), fill_front(s, q), aggressor);
        (seq![t] + rest.0, rest.1, rest.2)
    }
}

/// The order book of one symbol.
///
/// `buys` holds the resting bids, highest price first; `sells` the resting
/// asks, lowest price first; equal prices keep arrival order. `aggressor`
/// is the side of the most recently inserted order, `None` while nothing
/// has been inserted.
pub struct OrderBook {
    pub symbol: String,
    pub buys: Vec<Order>,
    pub sells: Vec<Order>,
    pub aggressor: Option<OrderType>,
}

impl OrderBook {
    pub open spec fn wf(&self) -> bool {
        &&& bids_sorted(self.buys@)
        &&& asks_sorted(self.sells@)
        &&& all_positive(self.buys@)
        &&& all_positive(self.sells@)
        &&& forall|i: int| 0 <= i < self.buys@.len() ==> self.buys@[i].order_type == OrderType::Buy
        &&& forall|i: int| 0 <= i < self.sells@.len() ==> self.sells@[i].order_type == OrderType::Sell
        &&& self.aggressor.is_none() ==> self.buys@.len() == 0 && self.sells@.len() == 0
    }

    /// An empty book for `symbol`.
    pub fn new(symbol: String) -> (r: OrderBook)
        ensures
            r.wf(),
            r.symbol@ == symbol@,
            r.buys@.len() == 0,
            r.sells@.len() == 0,
            r.aggressor.is_none(),
    {
        OrderBook { symbol, buys: Vec::new(), sells: Vec::new(), aggressor: None }
    }

    /// Places `order` on its side of the book, behind every resting order
    /// at the same or a better price. The order becomes the aggressor.
    pub fn insert(&mut self, order: Order)
        requires
            old(self).wf(),
            order.quantity > 0,
        ensures
            final(self).wf(),
            final(self).symbol == old(self).symbol,
            final(self).aggressor == Some(order.order_type),
            order.order_type == OrderType::Buy ==> {
                &&& final(self).buys@ == bids_with(old(self).buys@, order)
                &&& final(self).sells@ == old(self).sells@
            },
            order.order_type == OrderType::Sell ==> {
                &&& final(self).sells@ == asks_with(old(self).sells@, order)
                &&& final(self).buys@ == old(self).buys@
            },
    {
        let side = order.order_type;
        let price = order.price;
        match side {
            OrderType::Buy => {
                let mut i: usize = 0;
                while i < self.buys.len() && self.buys[i].price >= price
                    invariant
                        i <= self.buys@.len(),
                        bid_slot_from(self.buys@, price, 0) == bid_slot_from(self.buys@, price, i as int),
                    decreases self.buys@.len() - i,
                {
                    i = i + 1;
                }
                proof {
                    lemma_bid_slot(self.buys@, price);
                    lemma_bids_insert(self.buys@, order);
                }
                self.buys.insert(i, order);
            },
            OrderType::Sell => {
                let mut i: usize = 0;
                while i < self.sells.len() && self.sells[i].price <= price
                    invariant
                        i <= self.sells@.len(),
                        ask_slot_from(self.sells@, price, 0) == ask_slot_from(self.sells@, price, i as int),
                    decreases self.sells@.len() - i,
                {
                    i = i + 1;
                }
                proof {
                    lemma_ask_slot(self.sells@, price);
                    lemma_asks_insert(self.sells@, order);
                }
                self.sells.insert(i, order);
            },
        }
        self.aggressor = Some(side);
    }

    /// Matches the best bid against the best ask once, if they cross.
    ///
    /// The trade takes the smaller of the two quantities, the resting side's
    /// price and the later of the two timestamps; each of the two orders
    /// loses that quantity and leaves the book when nothing is left of it.
    pub fn match_top(&mut self) -> (r: Option<Trade>)
        requires
            old(self).wf(),
        ensures
            final(self).wf(),
            final(self).symbol == old(self).symbol,
            final(self).aggressor == old(self).aggressor,
            r.is_none() <==> !crossed(old(self).buys@, old(self).sells@),
            r.is_none() ==> final(self).buys@ == old(self).buys@ && final(self).sells@ == old(self).sells@,
            r matches Some(t) ==> {
                let b = old(self).buys@[0];
                let a = old(self).sells@[0];
                let q = min_u32(b.quantity, a.quantity);
                &&& t.buy_order_id@ == b.id@
                &&& t.sell_order_id@ == a.id@
                &&& t.stock_symbol@ == old(self).symbol@
                &&& t.quantity == q
                &&& t.price == resting_price(old(self).buys@, old(self).sells@, old(self).aggressor)
                &&& t.timestamp == max_u64(b.timestamp, a.timestamp)
                &&& final(self).buys@ == fill_front(old(self).buys@, q)
                &&& final(self).sells@ == fill_front(old(self).sells@, q)
            },
    {
        if self.buys.len() == 0 || self.sells.len() == 0 {
            return None;
        }
        if self.buys[0].price < self.sells[0].price {
            return None;
        }
        let b_qty = self.buys[0].quantity;
        let a_qty = self.sells[0].quantity;
        let q = if b_qty <= a_qty { b_qty } else { a_qty };
        let price = match self.aggressor {
            Some(OrderType::Sell) => self.buys[0].price,
            _ => self.sells[0].price,
        };
        let b_ts = self.buys[0].timestamp;
        let a_ts = self.sells[0].timestamp;
        let trade = Trade {
            buy_order_id: self.buys[0].id.clone(),
            sell_order_id: self.sells[0].id.clone(),
            stock_symbol: self.symbol.clone(),
            quantity: q,
            price,
            timestamp: if b_ts >= a_ts { b_ts } else { a_ts },
        };
        let ghost old_buys = self.buys@;
        let ghost old_sells = self.sells@;
        if b_qty > q {
            self.buys[0].quantity = b_qty - q;
            assert(self.buys@ =~= fill_front(old_buys, q));
        } else {
            self.buys.remove(0);
            assert(self.buys@ =~= fill_front(old_buys, q));
        }
        if a_qty > q {
            self.sells[0].quantity = a_qty - q;
            assert(self.sells@ =~= fill_front(old_sells, q));
        } else {
            self.sells.remove(0);
            assert(self.sells@ =~= fill_front(old_sells, q));
        }
        Some(trade)
    }
}

/// The slot of a bid lies in the sequence's bounds; in a sorted sequence,
/// everything before it is priced at least `price`, everything from it on
/// strictly below.
pub proof fn lemma_bid_slot(s: Seq<Order>, price: u64)
    ensures
        0 <= bid_slot(s, price) <= s.len(),
        forall|i: int| 0 <= i < bid_slot(s, price) ==> s[i].price >= price,
        bids_sorted(s) ==> forall|i: int| bid_slot(s, price) <= i < s.len() ==> s[i].price < price,
{
    lemma_bid_slot_from(s, price, 0);
}

proof fn lemma_bid_slot_from(s: Seq<Order>, price: u64, k: int)
    requires
        0 <= k <= s.len(),
        forall|i: int| 0 <= i < k ==> s[i].price >= price,
    ensures
        k <= bid_slot_from(s, price, k) <= s.len(),
        forall|i: int| 0 <= i < bid_slot_from(s, price, k) ==> s[i].price >= price,
        bids_sorted(s) ==> forall|i: int| bid_slot_from(s, price, k) <= i < s.len() ==> s[i].price < price,
    decreases s.len() - k,
{
    if k < s.len() && s[k].price >= price {
        lemma_bid_slot_from(s, price, k + 1);
    }
}

/// Mirror of `lemma_bid_slot` for asks.
pub proof fn lemma_ask_slot(s: Seq<Order>, price: u64)
    ensures
        0 <= ask_slot(s, price) <= s.len(),
        forall|i: int| 0 <= i < ask_slot(s, price) ==> s[i].price <= price,
        asks_sorted(s) ==> forall|i: int| ask_slot(s, price) <= i < s.len() ==> s[i].price > price,
{
    lemma_ask_slot_from(s, price, 0);
}

proof fn lemma_ask_slot_from(s: Seq<Order>, price: u64, k: int)
    requires
        0 <= k <= s.len(),
        forall|i: int| 0 <= i < k ==> s[i].price <= price,
    ensures
        k <= ask_slot_from(s, price, k) <= s.len(),
        forall|i: int| 0 <= i < ask_slot_from(s, price, k) ==> s[i].price <= price,
        asks_sorted(s) ==> forall|i: int| ask_slot_from(s, price, k) <= i < s.len() ==> s[i].price > price,
    decreases s.len() - k,
{
    if k < s.len() && s[k].price <= price {
        lemma_ask_slot_from(s, price, k + 1);
    }
}

/// Inserting a bid at its slot keeps the bids sorted.
pub proof fn lemma_bids_insert(s: Seq<Order>, o: Order)
    requires
        bids_sorted(s),
    ensures
        bids_sorted(bids_with(s, o)),
        bids_with(s, o).len() == s.len() + 1,
{
    lemma_bid_slot(s, o.price);
    let k = bid_slot(s, o.price);
    let t = bids_with(s, o);
    assert forall|i: int, j: int| 0 <= i < j < t.len() implies t[i].price >= t[j].price by {
        if j < k {
        } else if j == k {
        } else if i < k {
        } else if i == k {
        } else {
        }
    }
}

/// Inserting an ask at its slot keeps the asks sorted.
pub proof fn lemma_asks_insert(s: Seq<Order>, o: Order)
    requires
        asks_sorted(s),
    ensures
        asks_sorted(asks_with(s, o)),
        asks_with(s, o).len() == s.len() + 1,
{
    lemma_ask_slot(s, o.price);
    let k = ask_slot(s, o.price);
    let t = asks_with(s, o);
    assert forall|i: int, j: int| 0 <= i < j < t.len() implies t[i].price <= t[j].price by {
        if j < k {
        } else if j == k {
        } else if i < k {
        } else if i == k {
        } else {
        }
    }
}

/// Taking `q` shares from the first order, where it has at least that many,
/// removes exactly `q` shares from the sequence.
pub proof fn lemma_fill_front_total(s: Seq<Order>, q: u32)
    requires
        s.len() > 0,
        q <= s[0].quantity,
    ensures
        qty_total(s) == qty_total(fill_front(s, q)) + q,
{
    let f = fill_front(s, q);
    lemma_qty_front(s, s.len() as int);
    if s[0].quantity > q {
        lemma_qty_front(f, f.len() as int);
        assert(f.subrange(1, f.len() as int) =~= s.subrange(1, s.len() as int));
    }
}

/// The shares of the first `k` orders are those of the first order plus
/// those of the next `k - 1`.
pub proof fn lemma_qty_front(s: Seq<Order>, k: int)
    requires
        1 <= k <= s.len(),
    ensures
        qty_prefix(s, k) == s[0].quantity + qty_prefix(s.subrange(1, s.len() as int), k - 1),
    decreases k,
{
    let t = s.subrange(1, s.len() as int);
    if k > 1 {
        lemma_qty_front(s, k - 1);
        assert(t[k - 2] == s[k - 1]);
    } else {
        assert(qty_prefix(s, 0) == 0);
        assert(qty_prefix(t, 0) == 0);
    }
}

/// One match conserves quantity: on each side, and for each of the two
/// orders that cross, what there was before equals what is left plus the
/// quantity traded.
pub proof fn law_match_conserves_quantity(buys: Seq<Order>, sells: Seq<Order>)
    requires
        crossed(buys, sells),
    ensures
        ({
            let q = min_u32(buys[0].quantity, sells[0].quantity);
            let nb = fill_front(buys, q);
            let ns = fill_front(sells, q);
            &&& qty_total(buys) == qty_total(nb) + q
            &&& qty_total(sells) == qty_total(ns) + q
            &&& buys[0].quantity == q + (if buys[0].quantity > q { nb[0].quantity } else { 0 })
            &&& sells[0].quantity == q + (if sells[0].quantity > q { ns[0].quantity } else { 0 })
        }),
{
    let q = min_u32(buys[0].quantity, sells[0].quantity);
    lemma_fill_front_total(buys, q);
    lemma_fill_front_total(sells, q);
}

/// A trade's price is that of the resting best order, so it lies between
/// the best ask and the best bid.
pub proof fn law_trade_price_between(buys: Seq<Order>, sells: Seq<Order>, aggressor: Option<OrderType>)
    requires
        crossed(buys, sells),
    ensures
        sells[0].price <= resting_price(buys, sells, aggressor) <= buys[0].price,
        aggressor == Some(OrderType::Buy) ==> resting_price(buys, sells, aggressor) == sells[0].price,
        aggressor == Some(OrderType::Sell) ==> resting_price(buys, sells, aggressor) == buys[0].price,
{
}

/// Inserting into a book keeps both sides in price order.
pub proof fn law_insert_keeps_order(buys: Seq<Order>, sells: Seq<Order>, o: Order)
    requires
        bids_sorted(buys),
        asks_sorted(sells),
    ensures
        bids_sorted(bids_with(buys, o)),
        asks_sorted(asks_with(sells, o)),
{
    lemma_bids_insert(buys, o);
    lemma_asks_insert(sells, o);
}

/// Matching until no cross leaves the book uncrossed: the best bid is
/// strictly below the best ask whenever both sides hold orders.
pub proof fn law_drain_uncrossed(b: Seq<Order>, s: Seq<Order>, aggressor: Option<OrderType>)
    ensures
        !crossed(drain(b, s, aggressor).1, drain(b, s, aggressor).2),
    decreases b.len() + s.len(),
{
    if crossed(b, s) {
        let q = min_u32(b[0].quantity, s[0].quantity);
        law_drain_uncrossed(fill_front(b, q), fill_front(s, q), aggressor);
    }
}

/// Matching keeps prices in order on both sides.
pub proof fn law_drain_keeps_order(b: Seq<Order>, s: Seq<Order>, aggressor: Option<OrderType>)
    requires
        bids_sorted(b),
        asks_sorted(s),
    ensures
        bids_sorted(drain(b, s, aggressor).1),
        asks_sorted(drain(b, s, aggressor).2),
    decreases b.len() + s.len(),
{
    if crossed(b, s) {
        let q = min_u32(b[0].quantity, s[0].quantity);
        let nb = fill_front(b, q);
        let ns = fill_front(s, q);
        assert(bids_sorted(nb)) by {
            if b[0].quantity <= q {
                assert forall|i: int, j: int| 0 <= i < j < nb.len() implies nb[i].price >= nb[j].price by {
                    assert(nb[i] == b[i + 1] && nb[j] == b[j + 1]);
                }
            }
        }
        assert(asks_sorted(ns)) by {
            if s[0].quantity <= q {
                assert forall|i: int, j: int| 0 <= i < j < ns.len() implies ns[i].price <= ns[j].price by {
                    assert(ns[i] == s[i + 1] && ns[j] == s[j + 1]);
                }
            }
        }
        law_drain_keeps_order(nb, ns, aggressor);
    }
}

} // verus!
