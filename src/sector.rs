use vstd::prelude::*;

use rand::Rng;

use crate::models::Stock;
use crate::pricing::{clamp_price, published};

verus! {

/// The most symbols that sector tracking reads from the sector map.
pub const MAX_SECTOR_SYMBOLS: usize = 65536;

/// A sector moves when its mean price changes by more than this many
/// ten-millionths of the previous mean (0.02564 %).
pub const SECTOR_THRESHOLD: u128 = 2564;

/// A price up to which every rise of less than 10 % still fits in a `u64`
/// of ticks (`u64::MAX / 1.1` is about 1.68e19). Falls always fit.
pub const MAX_RISING_PRICE: u64 = 16000000000000000000;

/// Scale of a co-movement factor: a draw of `FACTOR_SCALE` leaves the price
/// as it is.
pub const FACTOR_SCALE: u64 = 1000000;

/// The price quoted for `sym` in `stocks`, searching from `i`: the first
/// quote wins.
pub open spec fn price_in_from(stocks: Seq<Stock>, sym: Seq<char>, i: int) -> Option<u64>
    decreases stocks.len() - i,
{
    if i < 0 || i >= stocks.len() {
        None
    } else if stocks[i].symbol@ == sym {
        Some(stocks[i].price)
    } else {
        price_in_from(stocks, sym, i + 1)
    }
}

pub open spec fn price_in(stocks: Seq<Stock>, sym: Seq<char>) -> Option<u64> {
    price_in_from(stocks, sym, 0)
}

/// The price quoted for `symbol`, if any.
pub fn price_of(stocks: &Vec<Stock>, symbol: &String) -> (r: Option<u64>)
    ensures
        r == price_in(stocks@, symbol@),
{
    let mut i: usize = 0;
    while i < stocks.len()
        invariant
            i <= stocks@.len(),
            price_in_from(stocks@, symbol@, 0) == price_in_from(stocks@, symbol@, i as int),
        decreases stocks@.len() - i,
    {
        if stocks[i].symbol == *symbol {
            return Some(stocks[i].price);
        }
        i = i + 1;
    }
    None
}

/// Sum of the quoted prices of the symbols of `sector` among the first `k`
/// entries of the sector map.
pub open spec fn sector_sum(pairs: Seq<(String, String)>, stocks: Seq<Stock>, sector: Seq<char>, k: int) -> int
    decreases k,
{
    if k <= 0 {
        0
    } else {
        sector_sum(pairs, stocks, sector, k - 1) + if pairs[k - 1].1@ == sector {
            match price_in(stocks, pairs[k - 1].0@) {
                Some(p) => p as int,
                None => 0int,
            }
        } else {
            0int
        }
    }
}

/// Number of quoted symbols of `sector` among the first `k` entries of the
/// sector map.
pub open spec fn sector_count(pairs: Seq<(String, String)>, stocks: Seq<Stock>, sector: Seq<char>, k: int) -> int
    decreases k,
{
    if k <= 0 {
        0
    } else {
        sector_count(pairs, stocks, sector, k - 1) + if pairs[k - 1].1@ == sector
            && price_in(stocks, pairs[k - 1].0@).is_some() {
            1int
        } else {
            0int
        }
    }
}

/// The mean price of a sector, as the exact fraction `sum / count`.
pub struct SectorMean {
    pub sum: u128,
    pub count: u64,
}

impl SectorMean {
    pub open spec fn wf(&self) -> bool {
        &&& self.count <= MAX_SECTOR_SYMBOLS
        &&& self.sum <= (self.count as int) * 0xFFFF_FFFF_FFFF_FFFF
    }
}

/// The mean of the quoted prices of the symbols that the sector map
/// `pairs` (symbol, sector) puts in `sector`.
pub fn sector_mean(pairs: &Vec<(String, String)>, stocks: &Vec<Stock>, sector: &String) -> (r: SectorMean)
    requires
        pairs@.len() <= MAX_SECTOR_SYMBOLS,
    ensures
        r.wf(),
        r.sum == sector_sum(pairs@, stocks@, sector@, pairs@.len() as int),
        r.count == sector_count(pairs@, stocks@, sector@, pairs@.len() as int),
{
    let mut sum: u128 = 0;
    let mut count: u64 = 0;
    let mut i: usize = 0;
    while i < pairs.len()
        invariant
            i <= pairs@.len() <= MAX_SECTOR_SYMBOLS,
            sum == sector_sum(pairs@, stocks@, sector@, i as int),
            count == sector_count(pairs@, stocks@, sector@, i as int),
            count <= i,
            sum <= (count as int) * 0xFFFF_FFFF_FFFF_FFFF,
        decreases pairs@.len() - i,
    {
        if pairs[i].1 == *sector {
            match price_of(stocks, &pairs[i].0) {
                Some(p) => {
                    assert((count as int) * 0xFFFF_FFFF_FFFF_FFFF <= 0x10000 * 0xFFFF_FFFF_FFFF_FFFF)
                        by (nonlinear_arith)
                        requires
                            count <= 0x10000,
                    ;
                    sum = sum + p as u128;
                    count = count + 1;
                },
                None => {},
            }
        }
        i = i + 1;
    }
    SectorMean { sum, count }
}

/// The sector's mean moved by more than the threshold, relative to the
/// old mean. A sector without quoted symbols has no mean and never moves.
pub open spec fn deviates(old: SectorMean, new: SectorMean) -> bool {
    let a = new.sum * old.count;
    let b = old.sum * new.count;
    let d = if a >= b { a - b } else { b - a };
    &&& old.count > 0
    &&& new.count > 0
    &&& d * 10000000 > SECTOR_THRESHOLD * b
}

/// The new mean is above the old one.
pub open spec fn rises(old: SectorMean, new: SectorMean) -> bool {
    new.sum * old.count > old.sum * new.count
}

/// Whether a sector moved from `old` to `new`: `Some(true)` when it rose by
/// more than the threshold, `Some(false)` when it fell by more, else `None`.
pub fn sector_direction(old: &SectorMean, new: &SectorMean) -> (r: Option<bool>)
    requires
        old.wf(),
        new.wf(),
    ensures
        r.is_some() <==> deviates(*old, *new),
        r matches Some(up) ==> up == rises(*old, *new),
{
    if old.count == 0 || new.count == 0 {
        return None;
    }
    proof {
        lemma_mean_products(*old, *new);
    }
    let a = new.sum * old.count as u128;
    let b = old.sum * new.count as u128;
    let d = if a >= b { a - b } else { b - a };
    if d * 10000000 > SECTOR_THRESHOLD * b {
        Some(a > b)
    } else {
        None
    }
}

proof fn lemma_mean_products(old: SectorMean, new: SectorMean)
    requires
        old.wf(),
        new.wf(),
    ensures
        new.sum * old.count <= 0x1_0000_0000_0000_0000_0000_0000,
        old.sum * new.count <= 0x1_0000_0000_0000_0000_0000_0000,
{
    assert(new.sum * old.count <= 0x1_0000_0000_0000_0000_0000_0000) by (nonlinear_arith)
        requires
            new.sum <= 0x10000 * 0xFFFF_FFFF_FFFF_FFFF,
            old.count <= 0x10000,
    ;
    assert(old.sum * new.count <= 0x1_0000_0000_0000_0000_0000_0000) by (nonlinear_arith)
        requires
            old.sum <= 0x10000 * 0xFFFF_FFFF_FFFF_FFFF,
            new.count <= 0x10000,
    ;
}

/// The range that a co-movement factor is drawn from: `[1.00, 1.10)` for a
/// rising sector, `[0.90, 1.00)` for a falling one, in `FACTOR_SCALE` units.
pub open spec fn factor_low(up: bool) -> int {
    if up { 1000000 } else { 900000 }
}

pub open spec fn factor_high(up: bool) -> int {
    if up { 1100000 } else { 1000000 }
}

/// The price published for `price` moved by the factor `draw / FACTOR_SCALE`.
pub open spec fn moved_price(price: int, draw: int) -> Option<u64> {
    published(price * draw, FACTOR_SCALE as int)
}

/// `q` is what `price` may become when its sector moves in direction `up`.
pub open spec fn co_moved(price: u64, up: bool, q: u64) -> bool {
    exists|d: int| factor_low(up) <= d < factor_high(up) && #[trigger] moved_price(price as int, d) == Some(q)
}

/// The price published for `price` moved by the factor
/// `draw / FACTOR_SCALE`; `None` only where it does not fit in a `u64`.
pub fn co_move_price(price: u64, draw: u64) -> (r: Option<u64>)
    requires
        draw <= 2 * FACTOR_SCALE,
    ensures
        r == moved_price(price as int, draw as int),
        draw < 1000000 ==> r.is_some(),
        price <= MAX_RISING_PRICE && draw < 1100000 ==> r.is_some(),
{
    let ghost pd = (price as int) * (draw as int);
    assert(pd <= 0xFFFF_FFFF_FFFF_FFFF * 2000000) by (nonlinear_arith)
        requires
            draw <= 2000000,
            pd == (price as int) * (draw as int),
    ;
    if draw < 1000000 {
        assert(2 * pd + 1000000 < 2000000 * (price as int + 1)) by (nonlinear_arith)
            requires
                draw <= 999999,
                pd == (price as int) * (draw as int),
        ;
        assert((2 * pd + 1000000) / 2000000 <= price) by (nonlinear_arith)
            requires
                0 <= 2 * pd + 1000000 < 2000000 * (price as int + 1),
        ;
    }
    if price <= MAX_RISING_PRICE && draw < 1100000 {
        assert(2 * pd + 1000000 < 2000000 * 0xFFFF_FFFF_FFFF_FFFF) by (nonlinear_arith)
            requires
                price <= 16000000000000000000,
                draw <= 1099999,
                pd == (price as int) * (draw as int),
        ;
        assert((2 * pd + 1000000) / 2000000 <= 0xFFFF_FFFF_FFFF_FFFF) by (nonlinear_arith)
            requires
                0 <= 2 * pd + 1000000 < 2000000 * 0xFFFF_FFFF_FFFF_FFFF,
        ;
    }
    clamp_price(price as i128 * draw as i128, FACTOR_SCALE as i128)
}

/// Relies on rand's `thread_rng().gen_range(lo..hi)`: a value drawn from
/// `[lo, hi)`. It panics on an empty range, which `requires` rules out.
#[verifier::external_body]
fn draw_between(lo: u64, hi: u64) -> (r: u64)
    requires
        lo < hi,
    ensures
        lo <= r < hi,
{
    rand::thread_rng().gen_range(lo..hi)
}

/// Moves `price` by a factor drawn at random from the range for direction
/// `up`.
pub fn co_move(price: u64, up: bool) -> (r: Option<u64>)
    ensures
        r matches Some(q) ==> co_moved(price, up, q),
        !up || price <= MAX_RISING_PRICE ==> r.is_some(),
{
    let lo: u64 = if up { 1000000 } else { 900000 };
    let hi: u64 = if up { 1100000 } else { 1000000 };
    let d = draw_between(lo, hi);
    let r = co_move_price(price, d);
    proof {
        if let Some(q) = r {
            assert(factor_low(up) <= d < factor_high(up) && moved_price(price as int, d as int) == Some(q));
        }
    }
    r
}

/// `s` is an update that a move of `sector` in direction `up` may produce:
/// the sector map puts `s.symbol` in `sector`, and `s.price` is what its
/// quoted price may become.
pub open spec fn update_of(pairs: Seq<(String, String)>, stocks: Seq<Stock>, sector: Seq<char>, up: bool, s: Stock) -> bool {
    exists|j: int|
        0 <= j < pairs.len() && #[trigger] pairs[j].0@ == s.symbol@ && pairs[j].1@ == sector && match price_in(
            stocks,
            s.symbol@,
        ) {
            Some(p) => co_moved(p, up, s.price),
            None => false,
        }
}

/// Appends to `out` a moved price for every quoted symbol of `sector` that
/// `out` has no update for yet.
fn push_sector_updates(
    pairs: &Vec<(String, String)>,
    stocks: &Vec<Stock>,
    sector: &String,
    up: bool,
    out: &mut Vec<Stock>,
)
    requires
        distinct_symbols(old(out)@),
    ensures
        distinct_symbols(final(out)@),
        final(out)@.len() >= old(out)@.len(),
        forall|k: int| 0 <= k < old(out)@.len() ==> final(out)@[k] == old(out)@[k],
        forall|k: int|
            old(out)@.len() <= k < final(out)@.len() ==> update_of(pairs@, stocks@, sector@, up, #[trigger] final(out)@[k]),
        forall|j: int|
            0 <= j < pairs@.len() && (#[trigger] pairs@[j]).1@ == sector@ && movable(stocks@, pairs@[j].0@, up)
                ==> has_update_for(final(out)@, 0, pairs@[j].0@),
{
    let ghost start = out@;
    let mut i: usize = 0;
    while i < pairs.len()
        invariant
            i <= pairs@.len(),
            out@.len() >= start.len(),
            forall|k: int| 0 <= k < start.len() ==> out@[k] == start[k],
            forall|k: int| start.len() <= k < out@.len() ==> update_of(pairs@, stocks@, sector@, up, #[trigger] out@[k]),
            forall|j: int|
                0 <= j < i && (#[trigger] pairs@[j]).1@ == sector@ && movable(stocks@, pairs@[j].0@, up)
                    ==> has_update_for(out@, 0, pairs@[j].0@),
            distinct_symbols(out@),
        decreases pairs@.len() - i,
    {
        if pairs[i].1 == *sector && !has_symbol(out, &pairs[i].0) {
            match price_of(stocks, &pairs[i].0) {
                Some(p) => {
                    match co_move(p, up) {
                        Some(q) => {
                            let st = Stock { symbol: pairs[i].0.clone(), price: q };
                            assert(pairs@[i as int].0@ == st.symbol@);
                            let ghost before = out@;
                            out.push(st);
                            assert forall|k: int| start.len() <= k < out@.len() implies update_of(
                                pairs@,
                                stocks@,
                                sector@,
                                up,
                                #[trigger] out@[k],
                            ) by {
                                if k < before.len() {
                                    assert(out@[k] == before[k]);
                                }
                            }
                            proof {
                                lemma_has_update_push(before, 0, st);
                                assert forall|a: int, b: int| 0 <= a < b < out@.len() implies out@[a].symbol@
                                    != out@[b].symbol@ by {
                                    if b == before.len() {
                                        assert(out@[a] == before[a]);
                                    } else {
                                        assert(out@[a] == before[a] && out@[b] == before[b]);
                                    }
                                }
                            }
                        },
                        None => {},
                    }
                },
                None => {},
            }
        }
        i = i + 1;
    }
}

/// `sym` has a quote whose move in direction `up` always fits in a `u64`.
pub open spec fn movable(stocks: Seq<Stock>, sym: Seq<char>, up: bool) -> bool {
    price_in(stocks, sym) matches Some(p) && (up ==> p <= MAX_RISING_PRICE)
}

/// No two entries of `out` are for the same symbol.
pub open spec fn distinct_symbols(out: Seq<Stock>) -> bool {
    forall|a: int, b: int| 0 <= a < b < out.len() ==> out[a].symbol@ != out[b].symbol@
}

/// Whether `out` already holds an update of `symbol`.
fn has_symbol(out: &Vec<Stock>, symbol: &String) -> (r: bool)
    ensures
        r == has_update_for(out@, 0, symbol@),
{
    let mut k: usize = 0;
    while k < out.len()
        invariant
            k <= out@.len(),
            forall|a: int| 0 <= a < k ==> out@[a].symbol@ != symbol@,
        decreases out@.len() - k,
    {
        if out[k].symbol == *symbol {
            assert(out@[k as int].symbol@ == symbol@);
            return true;
        }
        k = k + 1;
    }
    false
}

/// Some entry of `out` from index `from` on is an update of `sym`.
pub open spec fn has_update_for(out: Seq<Stock>, from: int, sym: Seq<char>) -> bool {
    exists|k: int| from <= k < out.len() && (#[trigger] out[k]).symbol@ == sym
}

proof fn lemma_has_update_push(out: Seq<Stock>, from: int, s: Stock)
    requires
        0 <= from <= out.len(),
    ensures
        has_update_for(out.push(s), from, s.symbol@),
        forall|x: Seq<char>| has_update_for(out, from, x) ==> #[trigger] has_update_for(out.push(s), from, x),
{
    let t = out.push(s);
    assert(t[out.len() as int] == s);
    assert forall|x: Seq<char>| has_update_for(out, from, x) implies #[trigger] has_update_for(t, from, x) by {
        let k = choose|k: int| from <= k < out.len() && (#[trigger] out[k]).symbol@ == x;
        assert(t[k] == out[k]);
    }
}

/// An extension of `out` that keeps its first `n` entries keeps their updates.
proof fn lemma_has_update_extend(out: Seq<Stock>, ext: Seq<Stock>, n: int)
    requires
        0 <= n <= out.len() <= ext.len(),
        forall|k: int| 0 <= k < out.len() ==> ext[k] == out[k],
    ensures
        forall|x: Seq<char>| has_update_for(out, n, x) ==> #[trigger] has_update_for(ext, n, x),
{
    assert forall|x: Seq<char>| has_update_for(out, n, x) implies #[trigger] has_update_for(ext, n, x) by {
        let k = choose|k: int| n <= k < out.len() && (#[trigger] out[k]).symbol@ == x;
        assert(ext[k] == out[k]);
    }
}

/// Some entry of the sector map puts a symbol in `sector`.
pub open spec fn names_sector(pairs: Seq<(String, String)>, sector: Seq<char>) -> bool {
    exists|j: int| 0 <= j < pairs.len() && (#[trigger] pairs[j]).1@ == sector
}

/// `name` is among `names`.
pub open spec fn has_name(names: Seq<String>, name: Seq<char>) -> bool {
    exists|a: int| 0 <= a < names.len() && (#[trigger] names[a])@ == name
}

proof fn lemma_names_sector(pairs: Seq<(String, String)>, j: int)
    requires
        0 <= j < pairs.len(),
    ensures
        names_sector(pairs, pairs[j].1@),
{
}

proof fn lemma_has_name_push(names: Seq<String>, n: String)
    ensures
        has_name(names.push(n), n@),
        forall|x: Seq<char>| has_name(names, x) ==> #[trigger] has_name(names.push(n), x),
{
    let t = names.push(n);
    assert(t[names.len() as int] == n);
    assert forall|x: Seq<char>| has_name(names, x) implies #[trigger] has_name(t, x) by {
        let a = choose|a: int| 0 <= a < names.len() && (#[trigger] names[a])@ == x;
        assert(t[a] == names[a]);
    }
}

/// Sector co-movement state: the sectors tracked, each once, and their
/// means at the previous pass (none before the first pass).
pub struct SectorTracker {
    pub sectors: Vec<String>,
    pub last: Vec<SectorMean>,
}

impl SectorTracker {
    pub open spec fn wf(&self) -> bool {
        &&& self.last@.len() == 0 || self.last@.len() == self.sectors@.len()
        &&& forall|i: int| 0 <= i < self.last@.len() ==> (#[trigger] self.last@[i]).wf()
        &&& forall|i: int, j: int| 0 <= i < j < self.sectors@.len() ==> self.sectors@[i]@ != self.sectors@[j]@
    }

    /// An update that this pass may publish: a move of a sector that
    /// deviated from its previous mean, in the direction it moved.
    pub open spec fn pass_update(
        &self,
        new_means: Seq<SectorMean>,
        pairs: Seq<(String, String)>,
        stocks: Seq<Stock>,
        s: Stock,
    ) -> bool {
        exists|i: int|
            0 <= i < self.sectors@.len() && deviates(self.last@[i], new_means[i]) && update_of(
                pairs,
                stocks,
                (#[trigger] self.sectors@[i])@,
                rises(self.last@[i], new_means[i]),
                s,
            )
    }

    /// Tracks each sector that the sector map `pairs` (symbol, sector)
    /// names, once, in order of first appearance.
    pub fn new(pairs: &Vec<(String, String)>) -> (r: SectorTracker)
        ensures
            r.wf(),
            r.last@.len() == 0,
            forall|i: int, j: int| 0 <= i < j < r.sectors@.len() ==> r.sectors@[i]@ != r.sectors@[j]@,
            forall|i: int| 0 <= i < r.sectors@.len() ==> names_sector(pairs@, #[trigger] r.sectors@[i]@),
            forall|j: int| 0 <= j < pairs@.len() ==> has_name(r.sectors@, #[trigger] pairs@[j].1@),
    {
        let mut sectors: Vec<String> = Vec::new();
        let mut j: usize = 0;
        while j < pairs.len()
            invariant
                j <= pairs@.len(),
                forall|a: int, b: int| 0 <= a < b < sectors@.len() ==> sectors@[a]@ != sectors@[b]@,
                forall|a: int| 0 <= a < sectors@.len() ==> names_sector(pairs@, #[trigger] sectors@[a]@),
                forall|k: int| 0 <= k < j ==> has_name(sectors@, #[trigger] pairs@[k].1@),
            decreases pairs@.len() - j,
        {
            let mut a: usize = 0;
            let mut seen = false;
            while a < sectors.len()
                invariant
                    a <= sectors@.len(),
                    j < pairs@.len(),
                    seen ==> has_name(sectors@, pairs@[j as int].1@),
                    !seen ==> forall|b: int| 0 <= b < a ==> sectors@[b]@ != pairs@[j as int].1@,
                decreases sectors@.len() - a,
            {
                if sectors[a] == pairs[j].1 {
                    seen = true;
                }
                a = a + 1;
            }
            if !seen {
                let ghost before = sectors@;
                let name = pairs[j].1.clone();
                proof {
                    lemma_names_sector(pairs@, j as int);
                    lemma_has_name_push(before, name);
                }
                sectors.push(name);
                proof {
                    assert(sectors@ == before.push(name));
                    assert forall|a: int| 0 <= a < sectors@.len() implies names_sector(pairs@, #[trigger] sectors@[a]@) by {
                        if a < before.len() {
                            assert(sectors@[a] == before[a]);
                        }
                    }
                }
            }
            j = j + 1;
        }
        SectorTracker { sectors, last: Vec::new() }
    }

    /// One pass of sector co-movement. Computes each sector's mean from
    /// `stocks`; on every pass but the first, moves the price of each quoted
    /// symbol of each sector whose mean deviated from the previous pass, up
    /// by a factor from `[1.00, 1.10)` where the mean rose and down by one
    /// from `[0.90, 1.00)` where it fell. Returns the moved prices, and
    /// keeps the new means for the next pass.
    pub fn step(&mut self, pairs: &Vec<(String, String)>, stocks: &Vec<Stock>) -> (r: Vec<Stock>)
        requires
            old(self).wf(),
            pairs@.len() <= MAX_SECTOR_SYMBOLS,
        ensures
            final(self).wf(),
            final(self).sectors == old(self).sectors,
            final(self).last@.len() == old(self).sectors@.len(),
            forall|i: int|
                0 <= i < final(self).last@.len() ==> {
                    &&& (#[trigger] final(self).last@[i]).sum == sector_sum(pairs@, stocks@, old(self).sectors@[i]@, pairs@.len() as int)
                    &&& final(self).last@[i].count == sector_count(pairs@, stocks@, old(self).sectors@[i]@, pairs@.len() as int)
                },
            old(self).last@.len() == 0 ==> r@.len() == 0,
            distinct_symbols(r@),
            forall|k: int| 0 <= k < r@.len() ==> old(self).pass_update(final(self).last@, pairs@, stocks@, #[trigger] r@[k]),
            old(self).last@.len() > 0 ==> forall|i: int, j: int|
                0 <= i < old(self).sectors@.len() && 0 <= j < pairs@.len() && deviates(
                    old(self).last@[i],
                    final(self).last@[i],
                ) && (#[trigger] pairs@[j]).1@ == (#[trigger] old(self).sectors@[i])@ && movable(
                    stocks@,
                    pairs@[j].0@,
                    rises(old(self).last@[i], final(self).last@[i]),
                ) ==> has_update_for(r@, 0, pairs@[j].0@),
    {
        let mut means: Vec<SectorMean> = Vec::new();
        let mut i: usize = 0;
        while i < self.sectors.len()
            invariant
                i <= self.sectors@.len(),
                pairs@.len() <= MAX_SECTOR_SYMBOLS,
                means@.len() == i,
                forall|a: int|
                    0 <= a < i ==> {
                        &&& (#[trigger] means@[a]).wf()
                        &&& means@[a].sum == sector_sum(pairs@, stocks@, self.sectors@[a]@, pairs@.len() as int)
                        &&& means@[a].count == sector_count(pairs@, stocks@, self.sectors@[a]@, pairs@.len() as int)
                    },
            decreases self.sectors@.len() - i,
        {
            let m = sector_mean(pairs, stocks, &self.sectors[i]);
            means.push(m);
            i = i + 1;
        }
        let mut out: Vec<Stock> = Vec::new();
        if self.last.len() == self.sectors.len() && self.last.len() > 0 {
            let mut i: usize = 0;
            while i < self.sectors.len()
                invariant
                    self.wf(),
                    self.last@.len() == self.sectors@.len(),
                    i <= self.sectors@.len(),
                    means@.len() == self.sectors@.len(),
                    forall|a: int| 0 <= a < means@.len() ==> (#[trigger] means@[a]).wf(),
                    forall|k: int| 0 <= k < out@.len() ==> self.pass_update(means@, pairs@, stocks@, #[trigger] out@[k]),
                    forall|a: int, j: int|
                        0 <= a < i && 0 <= j < pairs@.len() && deviates(self.last@[a], means@[a])
                            && (#[trigger] pairs@[j]).1@ == (#[trigger] self.sectors@[a])@ && movable(
                            stocks@,
                            pairs@[j].0@,
                            rises(self.last@[a], means@[a]),
                        ) ==> has_update_for(out@, 0, pairs@[j].0@),
                    distinct_symbols(out@),
                decreases self.sectors@.len() - i,
            {
                match sector_direction(&self.last[i], &means[i]) {
                    Some(up) => {
                        let ghost before = out@;
                        push_sector_updates(pairs, stocks, &self.sectors[i], up, &mut out);
                        proof {
                            assert forall|k: int| 0 <= k < out@.len() implies self.pass_update(
                                means@,
                                pairs@,
                                stocks@,
                                #[trigger] out@[k],
                            ) by {
                                if k < before.len() {
                                    assert(out@[k] == before[k]);
                                } else {
                                    assert(update_of(pairs@, stocks@, self.sectors@[i as int]@, up, out@[k]));
                                }
                            }
                            lemma_has_update_extend(before, out@, 0);
                        }
                    },
                    None => {},
                }
                i = i + 1;
            }
        }
        self.last = means;
        out
    }
}

} // verus!
