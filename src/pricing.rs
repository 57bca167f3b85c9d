use vstd::prelude::*;

use crate::book::{qty_prefix, qty_total};
use crate::models::{Order, Trade};

verus! {

/// The largest size of a term of the exact passive sum (`i128::MAX / 32`,
/// that is 2^122 − 1); beyond it the sum could leave `i128` range.
pub const TERM_LIMIT: i128 = 0x3ff_ffff_ffff_ffff_ffff_ffff_ffff_ffff;

/// An order counts as recent when it is at most this many seconds old.
pub const RECENT_WINDOW: i64 = 5;

/// `num / den` rounded to the nearest integer, halves away from zero.
pub open spec fn round_div(num: int, den: int) -> int {
    if num >= 0 {
        (2 * num + den) / (2 * den)
    } else {
        -((2 * -num + den) / (2 * den))
    }
}

/// A raw price of `num / den` ticks as it is published: rounded to a whole
/// tick (four decimals), and at least one tick.
pub open spec fn clamp_ticks(num: int, den: int) -> int {
    let r = round_div(num, den);
    if r < 1 {
        1
    } else {
        r
    }
}

/// The price published for a raw price of `num / den` ticks; `None` only
/// where that many ticks do not fit in a `u64`.
pub open spec fn published(num: int, den: int) -> Option<u64> {
    if clamp_ticks(num, den) <= u64::MAX {
        Some(clamp_ticks(num, den) as u64)
    } else {
        None
    }
}

/// Rounds a raw price of `num / den` ticks to the price that is published.
pub fn clamp_price(num: i128, den: i128) -> (r: Option<u64>)
    requires
        0 < den <= i128::MAX / 4,
        -(i128::MAX / 4) <= num <= i128::MAX / 4,
    ensures
        r == published(num as int, den as int),
        r matches Some(p) ==> p >= 1,
{
    if num <= 0 {
        assert(round_div(num as int, den as int) <= 0) by (nonlinear_arith)
            requires
                num <= 0,
                den > 0,
        {
            if num < 0 {
                assert((2 * -num + den) / (2 * den) >= 0);
            } else {
                assert((den as int) / (2 * den) == 0);
            }
        }
        return Some(1);
    }
    let r = (2 * num + den) / (2 * den);
    if r < 1 {
        Some(1)
    } else if r > u64::MAX as i128 {
        None
    } else {
        Some(r as u64)
    }
}

/// Every published price is a whole number of ticks (four decimals), at
/// least one tick, and every raw price that rounds to a `u64` is published.
pub proof fn law_published_price_floor(num: int, den: int)
    requires
        den > 0,
    ensures
        published(num, den) matches Some(p) ==> p >= 1 && p == clamp_ticks(num, den),
        clamp_ticks(num, den) >= 1,
        clamp_ticks(num, den) <= u64::MAX ==> published(num, den) == Some(clamp_ticks(num, den) as u64),
{
}

// ---------------------------------------------------------------------------
// Trade-driven (active) pricing

/// The raw price after a trade, times 100: the price moves by one percent
/// of `quantity · (trade price − price) / price`, that is
/// `price · (1 + quantity · (trade price − price) / price · 0.01)`.
pub open spec fn active_num(price: int, quantity: int, trade_price: int) -> int {
    100 * price + quantity * (trade_price - price)
}

/// The price published after `trade`, from the current `stock_price`:
/// `clamp4(price · (1 + quantity · (trade price − price) / price · 0.01))`.
pub fn algorithm_trade(trade: &Trade, stock_price: u64) -> (r: Option<u64>)
    ensures
        r == published(active_num(stock_price as int, trade.quantity as int, trade.price as int), 100),
{
    let q = trade.quantity as i128;
    let diff = trade.price as i128 - stock_price as i128;
    assert(-0x1_0000_0000_0000_0000 * 0x1_0000_0000 <= q * diff <= 0x1_0000_0000_0000_0000 * 0x1_0000_0000)
        by (nonlinear_arith)
        requires
            0 <= q < 0x1_0000_0000,
            -0x1_0000_0000_0000_0000 < diff < 0x1_0000_0000_0000_0000,
    ;
    let num = 100 * (stock_price as i128) + q * diff;
    clamp_price(num, 100)
}

// ---------------------------------------------------------------------------
// Book-driven (passive) pricing

/// Share imbalance: all shares bid minus all shares offered.
pub open spec fn share_imbalance(b: Seq<Order>, s: Seq<Order>) -> int {
    qty_total(b) - qty_total(s)
}

/// How many orders make up the top fifth of a side of `n` orders, rounded up.
pub open spec fn depth_count(n: int) -> int {
    (n + 4) / 5
}

/// Depth imbalance: shares in the top fifth of the bids minus those in the
/// top fifth of the asks.
pub open spec fn depth_imbalance(b: Seq<Order>, s: Seq<Order>) -> int {
    qty_prefix(b, depth_count(b.len() as int)) - qty_prefix(s, depth_count(s.len() as int))
}

/// Number of orders among the first `k` of `s` that are larger than the
/// mean order size `total / n` of a book of `n` orders holding `total`
/// shares, that is with `quantity · n > total`.
pub open spec fn large_count(s: Seq<Order>, total: int, n: int, k: int) -> int
    decreases k,
{
    if k <= 0 {
        0
    } else {
        large_count(s, total, n, k - 1) + if s[k - 1].quantity * n > total { 1int } else { 0int }
    }
}

/// Iceberg imbalance: bids minus asks that exceed the mean order size of the
/// whole book.
pub open spec fn iceberg_imbalance(b: Seq<Order>, s: Seq<Order>) -> int {
    let total = qty_total(b) + qty_total(s);
    let n = (b.len() + s.len()) as int;
    large_count(b, total, n, b.len() as int) - large_count(s, total, n, s.len() as int)
}

/// Number of orders among the first `k` of `s` that are at most
/// `RECENT_WINDOW` seconds old at time `now`.
pub open spec fn recent_count(s: Seq<Order>, now: int, k: int) -> int
    decreases k,
{
    if k <= 0 {
        0
    } else {
        recent_count(s, now, k - 1) + if now - s[k - 1].timestamp <= RECENT_WINDOW { 1int } else { 0int }
    }
}

/// Momentum imbalance: recent bids minus recent asks.
pub open spec fn momentum_imbalance(b: Seq<Order>, s: Seq<Order>, now: int) -> int {
    recent_count(b, now, b.len() as int) - recent_count(s, now, s.len() as int)
}

/// Price of the best order of a side; 0 for an empty side.
pub open spec fn best_price(s: Seq<Order>) -> int {
    if s.len() == 0 {
        0
    } else {
        s[0].price as int
    }
}

/// Skew gap: best bid minus best ask.
pub open spec fn skew_gap(b: Seq<Order>, s: Seq<Order>) -> int {
    best_price(b) - best_price(s)
}

/// The count of orders of the book, or 1 for an empty book.
pub open spec fn book_size(b: Seq<Order>, s: Seq<Order>) -> int {
    if b.len() + s.len() == 0 {
        1
    } else {
        (b.len() + s.len()) as int
    }
}

/// The raw passive price times `passive_den`.
///
/// The new price is `price · (m1 + … + m6) / 6`, with the multipliers
/// `m1 = 1 + share_imbalance / 100 · 0.001`,
/// `m2 = 1 + (bids − asks) / (bids + asks) · 0.01` (1 for an empty book),
/// `m3 = 1 + depth_imbalance / 50 · 0.01`,
/// `m4 = 1 + iceberg_imbalance / 15 · 0.02`,
/// `m5 = 1 + momentum_imbalance / 10 · 0.1` and
/// `m6 = 1 + (skew_gap / price · 100) / 10 · 0.01`.
/// Over the common denominator `1800000 · n` (n from `book_size`) that is
/// the sum below.
pub open spec fn passive_num(price: int, b: Seq<Order>, s: Seq<Order>, now: int) -> int {
    let n = book_size(b, s);
    1800000 * n * price + 3 * n * price * share_imbalance(b, s) + 3000 * price * (b.len() - s.len())
        + 60 * n * price * depth_imbalance(b, s) + 400 * n * price * iceberg_imbalance(b, s)
        + 3000 * n * price * momentum_imbalance(b, s, now) + 30000 * n * skew_gap(b, s)
}

pub open spec fn passive_den(b: Seq<Order>, s: Seq<Order>) -> int {
    1800000 * book_size(b, s)
}

/// A term of the exact passive sum stays within `TERM_LIMIT` in size.
pub open spec fn term_fits(t: int) -> bool {
    -TERM_LIMIT <= t <= TERM_LIMIT
}

/// Every term of `passive_num` stays within `TERM_LIMIT`, so that the sum
/// and its rounding are computed exactly in `i128`.
pub open spec fn passive_fits(price: int, b: Seq<Order>, s: Seq<Order>, now: int) -> bool {
    let n = book_size(b, s);
    &&& term_fits(1800000 * n * price)
    &&& term_fits(3 * n * price * share_imbalance(b, s))
    &&& term_fits(3000 * price * (b.len() - s.len()))
    &&& term_fits(60 * n * price * depth_imbalance(b, s))
    &&& term_fits(400 * n * price * iceberg_imbalance(b, s))
    &&& term_fits(3000 * n * price * momentum_imbalance(b, s, now))
    &&& term_fits(30000 * n * skew_gap(b, s))
}

/// What passive pricing publishes for a symbol at `price` with bids `b` and
/// asks `s` at time `now`: the rounded new price, `None` (no update) only
/// where a term of the exact sum leaves `i128` range (`passive_fits`) or
/// the result does not fit in a `u64`.
pub open spec fn passive_outcome(price: int, b: Seq<Order>, s: Seq<Order>, now: int) -> Option<u64> {
    if passive_fits(price, b, s, now) {
        published(passive_num(price, b, s, now), passive_den(b, s))
    } else {
        None
    }
}

/// Shares in the first `k` orders.
fn shares_in_first(orders: &Vec<Order>, k: usize) -> (r: u128)
    requires
        k <= orders@.len(),
    ensures
        r == qty_prefix(orders@, k as int),
        r <= (k as int) * 0xFFFF_FFFF,
        r < 0x1_0000_0000_0000_0000_0000_0000,
{
    let mut sum: u128 = 0;
    let mut i: usize = 0;
    while i < k
        invariant
            i <= k,
            k <= orders@.len(),
            sum == qty_prefix(orders@, i as int),
            sum <= (i as int) * 0xFFFF_FFFF,
        decreases k - i,
    {
        assert((i as int) * 0xFFFF_FFFF <= 0xFFFF_FFFF_FFFF_FFFF * 0xFFFF_FFFF) by (nonlinear_arith)
            requires
                i <= 0xFFFF_FFFF_FFFF_FFFF,
        ;
        sum = sum + orders[i].quantity as u128;
        i = i + 1;
    }
    assert((k as int) * 0xFFFF_FFFF < 0x1_0000_0000_0000_0000_0000_0000) by (nonlinear_arith)
        requires
            k <= 0xFFFF_FFFF_FFFF_FFFF,
    ;
    sum
}

/// Signal 1: all shares bid minus all shares offered. Its multiplier is
/// `1 + r / 100 · 0.001`.
pub fn algorithm_1(buys: &Vec<Order>, sells: &Vec<Order>) -> (r: i128)
    ensures
        r == share_imbalance(buys@, sells@),
        -0x1_0000_0000_0000_0000_0000_0000 < r < 0x1_0000_0000_0000_0000_0000_0000,
{
    let tb = shares_in_first(buys, buys.len());
    let ts = shares_in_first(sells, sells.len());
    tb as i128 - ts as i128
}

/// Signal 2: number of bids minus number of asks. Its multiplier is
/// `1 + r / (bids + asks) · 0.01`, and 1 for an empty book.
pub fn algorithm_2(buys: &Vec<Order>, sells: &Vec<Order>) -> (r: i128)
    ensures
        r == buys@.len() - sells@.len(),
{
    buys.len() as i128 - sells.len() as i128
}

/// Signal 3: shares in the top fifth (rounded up) of the bids minus those in
/// the top fifth of the asks. Its multiplier is `1 + r / 50 · 0.01`.
pub fn algorithm_3(buys: &Vec<Order>, sells: &Vec<Order>) -> (r: i128)
    ensures
        r == depth_imbalance(buys@, sells@),
        -0x1_0000_0000_0000_0000_0000_0000 < r < 0x1_0000_0000_0000_0000_0000_0000,
{
    let kb = buys.len() / 5 + if buys.len() % 5 == 0 { 0 } else { 1 };
    let ks = sells.len() / 5 + if sells.len() % 5 == 0 { 0 } else { 1 };
    assert(kb == depth_count(buys@.len() as int) && kb <= buys@.len());
    assert(ks == depth_count(sells@.len() as int) && ks <= sells@.len());
    let tb = shares_in_first(buys, kb);
    let ts = shares_in_first(sells, ks);
    tb as i128 - ts as i128
}

/// Number of orders larger than the mean order size `total / n`.
fn count_large(orders: &Vec<Order>, total: u128, n: u128) -> (r: usize)
    requires
        n <= 0x2_0000_0000_0000_0000,
    ensures
        r == large_count(orders@, total as int, n as int, orders@.len() as int),
        r <= orders@.len(),
{
    let mut c: usize = 0;
    let mut i: usize = 0;
    while i < orders.len()
        invariant
            i <= orders@.len(),
            n <= 0x2_0000_0000_0000_0000,
            c == large_count(orders@, total as int, n as int, i as int),
            c <= i,
        decreases orders@.len() - i,
    {
        let q = orders[i].quantity as u128;
        assert(q * n <= 0xFFFF_FFFF * 0x2_0000_0000_0000_0000) by (nonlinear_arith)
            requires
                q <= 0xFFFF_FFFF,
                n <= 0x2_0000_0000_0000_0000,
        ;
        if q * n > total {
            c = c + 1;
        }
        i = i + 1;
    }
    c
}

/// Signal 4: large bids minus large asks, where an order is large when it
/// has more shares than the mean order size of the whole book. Its
/// multiplier is `1 + r / 15 · 0.02`.
pub fn algorithm_4(buys: &Vec<Order>, sells: &Vec<Order>) -> (r: i128)
    ensures
        r == iceberg_imbalance(buys@, sells@),
        -(sells@.len() as int) <= r <= buys@.len(),
{
    let total = shares_in_first(buys, buys.len()) + shares_in_first(sells, sells.len());
    let n = buys.len() as u128 + sells.len() as u128;
    let cb = count_large(buys, total, n);
    let cs = count_large(sells, total, n);
    cb as i128 - cs as i128
}

/// Number of orders at most `RECENT_WINDOW` seconds old at time `now`.
fn count_recent(orders: &Vec<Order>, now: i64) -> (r: usize)
    ensures
        r == recent_count(orders@, now as int, orders@.len() as int),
        r <= orders@.len(),
{
    let mut c: usize = 0;
    let mut i: usize = 0;
    while i < orders.len()
        invariant
            i <= orders@.len(),
            c == recent_count(orders@, now as int, i as int),
            c <= i,
        decreases orders@.len() - i,
    {
        if (now as i128) - (orders[i].timestamp as i128) <= RECENT_WINDOW as i128 {
            c = c + 1;
        }
        i = i + 1;
    }
    c
}

/// Signal 5: recent bids minus recent asks. Its multiplier is
/// `1 + r / 10 · 0.1`.
pub fn algorithm_5(buys: &Vec<Order>, sells: &Vec<Order>, now: i64) -> (r: i128)
    ensures
        r == momentum_imbalance(buys@, sells@, now as int),
        -(sells@.len() as int) <= r <= buys@.len(),
{
    let cb = count_recent(buys, now);
    let cs = count_recent(sells, now);
    cb as i128 - cs as i128
}

/// Signal 6: best bid minus best ask, each 0 where its side is empty. The
/// skewness is `r / price · 100` percent, and its multiplier
/// `1 + skewness / 10 · 0.01`.
pub fn algorithm_6(buys: &Vec<Order>, sells: &Vec<Order>) -> (r: i128)
    ensures
        r == skew_gap(buys@, sells@),
{
    let hb: i128 = if buys.len() == 0 { 0 } else { buys[0].price as i128 };
    let ls: i128 = if sells.len() == 0 { 0 } else { sells[0].price as i128 };
    hb - ls
}

/// `a · b`, where it stays within `TERM_LIMIT` in size.
fn mul_within(a: i128, b: i128) -> (r: Option<i128>)
    requires
        -TERM_LIMIT <= a <= TERM_LIMIT,
        -0x10_0000_0000_0000_0000_0000_0000 <= b <= 0x10_0000_0000_0000_0000_0000_0000,
    ensures
        r == (if term_fits(a * b) { Some((a * b) as i128) } else { None::<i128> }),
{
    if a == 0 || b == 0 {
        assert(a * b == 0) by (nonlinear_arith)
            requires
                a == 0 || b == 0,
        ;
        return Some(0);
    }
    let aa: i128 = if a < 0 { -a } else { a };
    let bb: i128 = if b < 0 { -b } else { b };
    let lim = TERM_LIMIT;
    let qt = lim / aa;
    proof {
        vstd::arithmetic::div_mod::lemma_fundamental_div_mod(lim as int, aa as int);
        vstd::arithmetic::div_mod::lemma_mod_pos_bound(lim as int, aa as int);
        assert(aa * bb == (if a * b >= 0 { a * b } else { -(a * b) })) by (nonlinear_arith)
            requires
                aa == (if a < 0 { -a } else { a as int }),
                bb == (if b < 0 { -b } else { b as int }),
        ;
    }
    if bb > qt {
        assert(aa * bb > lim) by (nonlinear_arith)
            requires
                bb >= qt + 1,
                aa >= 1,
                lim == aa * qt + lim % aa,
                lim % aa < aa,
        ;
        None
    } else {
        assert(aa * bb <= lim) by (nonlinear_arith)
            requires
                0 <= bb <= qt,
                aa >= 1,
                lim == aa * qt + lim % aa,
                lim % aa >= 0,
        ;
        Some(a * b)
    }
}

/// `a · b · c`, where it stays within `TERM_LIMIT` in size.
fn term(a: i128, b: i128, c: i128) -> (r: Option<i128>)
    requires
        -0x10_0000_0000_0000_0000_0000_0000 <= a <= 0x10_0000_0000_0000_0000_0000_0000,
        -0x10_0000_0000_0000_0000_0000_0000 <= b <= 0x10_0000_0000_0000_0000_0000_0000,
        -0x10_0000_0000_0000_0000_0000_0000 <= c <= 0x10_0000_0000_0000_0000_0000_0000,
    ensures
        r == (if term_fits(a * b * c) { Some((a * b * c) as i128) } else { None::<i128> }),
{
    if c == 0 {
        assert(a * b * c == 0) by (nonlinear_arith)
            requires
                c == 0,
        ;
        return Some(0);
    }
    match mul_within(a, b) {
        None => {
            assert(!term_fits(a * b * c)) by (nonlinear_arith)
                requires
                    !term_fits(a * b),
                    c != 0,
            ;
            None
        },
        Some(ab) => mul_within(ab, c),
    }
}

/// Passive pricing of one symbol: the price published for a symbol quoted
/// at `price` whose book holds `buys` and `sells`, at time `now`, or `None`
/// where no update is made (see `passive_outcome`).
pub fn passive_price(price: u64, buys: &Vec<Order>, sells: &Vec<Order>, now: i64) -> (r: Option<u64>)
    ensures
        r == passive_outcome(price as int, buys@, sells@, now as int),
{
    let i1 = algorithm_1(buys, sells);
    let i2 = algorithm_2(buys, sells);
    let i3 = algorithm_3(buys, sells);
    let i4 = algorithm_4(buys, sells);
    let i5 = algorithm_5(buys, sells, now);
    let i6 = algorithm_6(buys, sells);
    let total = buys.len() as i128 + sells.len() as i128;
    let n: i128 = if total == 0 { 1 } else { total };
    let p = price as i128;
    let t0 = match term(1800000, n, p) {
        Some(t) => t,
        None => return None,
    };
    let t1 = match term(3 * n, p, i1) {
        Some(t) => t,
        None => return None,
    };
    let t2 = match term(3000, p, i2) {
        Some(t) => t,
        None => return None,
    };
    let t3 = match term(60 * n, p, i3) {
        Some(t) => t,
        None => return None,
    };
    let t4 = match term(400 * n, p, i4) {
        Some(t) => t,
        None => return None,
    };
    let t5 = match term(3000 * n, p, i5) {
        Some(t) => t,
        None => return None,
    };
    let t6 = match term(30000, n, i6) {
        Some(t) => t,
        None => return None,
    };
    proof {
        assert(n == book_size(buys@, sells@));
        assert(30000 * n * i6 == 30000 * (n as int) * skew_gap(buys@, sells@));
    }
    let num = t0 + t1 + t2 + t3 + t4 + t5 + t6;
    clamp_price(num, 1800000 * n)
}

// ---------------------------------------------------------------------------
// Static sector performance

/// Static performance of a sector, in hundredths of a percent: its
/// multiplier is `1 + r / 10000`. A sector that is not listed (such as
/// "Communication") has none, and its multiplier is 1.
pub open spec fn sector_performance(sector: Seq<char>) -> int {
    if sector == "Technology"@ {
        200
    } else if sector == "Finance"@ {
        -100
    } else if sector == "Healthcare"@ {
        300
    } else if sector == "Consumer Goods"@ {
        100
    } else if sector == "Energy"@ {
        -200
    } else if sector == "Real Estate"@ {
        200
    } else if sector == "Utilities"@ {
        100
    } else {
        0
    }
}

fn is_named(sector: &String, name: &str) -> (r: bool)
    ensures
        r == (sector@ == name@),
{
    let n = name.to_string();
    proof {
        vstd::string::to_string_from_display_ensures_for_str(name, n);
    }
    *sector == n
}

/// Signal 7: the static performance of `sector` (see `sector_performance`).
pub fn algorithm_7(sector: &String) -> (r: i64)
    ensures
        r == sector_performance(sector@),
{
    if is_named(sector, "Technology") {
        200
    } else if is_named(sector, "Finance") {
        -100
    } else if is_named(sector, "Healthcare") {
        300
    } else if is_named(sector, "Consumer Goods") {
        100
    } else if is_named(sector, "Energy") {
        -200
    } else if is_named(sector, "Real Estate") {
        200
    } else if is_named(sector, "Utilities") {
        100
    } else {
        0
    }
}

} // verus!
