//! Decimal text of prices, as the key-value store keeps them: an integer
//! part, then optionally a point and one to four fractional digits
//! ("100", "102.5", "99.1234"). Prices are in ticks of 0.0001.

use vstd::prelude::*;

verus! {

pub open spec fn is_digit(c: u8) -> bool {
    48 <= c <= 57
}

pub open spec fn all_digits(s: Seq<u8>) -> bool {
    forall|i: int| 0 <= i < s.len() ==> is_digit(#[trigger] s[i])
}

/// The number that a sequence of decimal digits names.
pub open spec fn digits_value(s: Seq<u8>) -> int
    decreases s.len(),
{
    if s.len() == 0 {
        0
    } else {
        10 * digits_value(s.drop_last()) + (s.last() - 48)
    }
}

/// Index of the first decimal point at or after `i`, or the length.
pub open spec fn point_from(s: Seq<u8>, i: int) -> int
    decreases s.len() - i,
{
    if i < 0 || i >= s.len() || s[i] == 46 {
        i
    } else {
        point_from(s, i + 1)
    }
}

pub open spec fn point_at(s: Seq<u8>) -> int {
    point_from(s, 0)
}

pub open spec fn int_part(s: Seq<u8>) -> Seq<u8> {
    s.subrange(0, point_at(s))
}

/// The digits after the point; none where there is no point.
pub open spec fn frac_part(s: Seq<u8>) -> Seq<u8> {
    if point_at(s) < s.len() {
        s.subrange(point_at(s) + 1, s.len() as int)
    } else {
        Seq::empty()
    }
}

/// `s` is a well-formed price text.
pub open spec fn valid_price_text(s: Seq<u8>) -> bool {
    &&& int_part(s).len() >= 1
    &&& all_digits(int_part(s))
    &&& all_digits(frac_part(s))
    &&& point_at(s) < s.len() ==> 1 <= frac_part(s).len() <= 4
}

pub open spec fn pow10(n: int) -> int
    decreases n,
{
    if n <= 0 {
        1
    } else {
        10 * pow10(n - 1)
    }
}

/// The ticks that a well-formed price text names.
pub open spec fn text_ticks(s: Seq<u8>) -> int {
    digits_value(int_part(s)) * 10000 + digits_value(frac_part(s)) * pow10(4 - frac_part(s).len())
}

/// The price that a text names, where it is well-formed and fits in `u64`.
pub open spec fn price_of_text(s: Seq<u8>) -> Option<u64> {
    if valid_price_text(s) && text_ticks(s) <= u64::MAX {
        Some(text_ticks(s) as u64)
    } else {
        None
    }
}

/// The decimal digits of `n`, without leading zeros ("0" for zero).
pub open spec fn digits_of(n: nat) -> Seq<u8>
    decreases n,
{
    if n < 10 {
        seq![(48 + n) as u8]
    } else {
        digits_of(n / 10).push((48 + n % 10) as u8)
    }
}

/// The four fractional digits of `f` ticks.
pub open spec fn frac_digits(f: nat) -> Seq<u8> {
    seq![
        (48 + f / 1000 % 10) as u8,
        (48 + f / 100 % 10) as u8,
        (48 + f / 10 % 10) as u8,
        (48 + f % 10) as u8,
    ]
}

/// The text of a price: its integer part, a point, and four decimals.
pub open spec fn price_text(ticks: u64) -> Seq<u8> {
    digits_of((ticks / 10000) as nat) + seq![46u8] + frac_digits((ticks % 10000) as nat)
}

proof fn lemma_digits_prefix_le(s: Seq<u8>, j: int, k: int)
    requires
        0 <= j <= k <= s.len(),
        all_digits(s.subrange(0, k)),
    ensures
        digits_value(s.subrange(0, j)) <= digits_value(s.subrange(0, k)),
    decreases k - j,
{
    if j < k {
        let t = s.subrange(0, k);
        assert(t.drop_last() =~= s.subrange(0, k - 1));
        assert(is_digit(t[k - 1]));
        assert(all_digits(s.subrange(0, k - 1))) by {
            assert forall|i: int| 0 <= i < k - 1 implies is_digit(#[trigger] s.subrange(0, k - 1)[i]) by {
                assert(s.subrange(0, k - 1)[i] == t[i]);
            }
        }
        lemma_digits_nonneg(s.subrange(0, k - 1));
        lemma_digits_prefix_le(s, j, k - 1);
    }
}

proof fn lemma_digits_nonneg(s: Seq<u8>)
    requires
        all_digits(s),
    ensures
        digits_value(s) >= 0,
    decreases s.len(),
{
    if s.len() > 0 {
        assert(all_digits(s.drop_last())) by {
            assert forall|i: int| 0 <= i < s.len() - 1 implies is_digit(#[trigger] s.drop_last()[i]) by {
                assert(s.drop_last()[i] == s[i]);
            }
        }
        assert(is_digit(s[s.len() - 1]));
        lemma_digits_nonneg(s.drop_last());
    }
}

/// Reads the digits `text[from..to]`, or `None` where one is not a digit or
/// their value exceeds `bound`.
fn read_digits(text: &[u8], from: usize, to: usize, bound: u64) -> (r: Option<u64>)
    requires
        from <= to <= text@.len(),
        bound <= 0x0FFF_FFFF_FFFF_FFFF,
    ensures
        r matches Some(v) ==> all_digits(text@.subrange(from as int, to as int)) && v == digits_value(
            text@.subrange(from as int, to as int),
        ) && v <= bound,
        r.is_none() ==> !all_digits(text@.subrange(from as int, to as int)) || digits_value(
            text@.subrange(from as int, to as int),
        ) > bound,
{
    let mut acc: u64 = 0;
    let mut i: usize = from;
    while i < to
        invariant
            from <= i <= to <= text@.len(),
            bound <= 0x0FFF_FFFF_FFFF_FFFF,
            all_digits(text@.subrange(from as int, i as int)),
            acc == digits_value(text@.subrange(from as int, i as int)),
            acc <= bound,
        decreases to - i,
    {
        let c = text[i];
        let ghost s = text@.subrange(from as int, i as int + 1);
        assert(s.drop_last() =~= text@.subrange(from as int, i as int));
        if c < 48 || c > 57 {
            assert(!all_digits(text@.subrange(from as int, to as int))) by {
                assert(text@.subrange(from as int, to as int)[i - from] == c);
            }
            return None;
        }
        assert(all_digits(s)) by {
            assert forall|k: int| 0 <= k < s.len() implies is_digit(#[trigger] s[k]) by {
                if k < s.len() - 1 {
                    assert(s[k] == text@.subrange(from as int, i as int)[k]);
                }
            }
        }
        let next = acc * 10 + (c - 48) as u64;
        if next > bound {
            proof {
                let whole = text@.subrange(from as int, to as int);
                if all_digits(whole) {
                    assert(whole.subrange(0, i - from + 1) =~= s);
                    lemma_digits_prefix_le(whole, i - from + 1, whole.len() as int);
                    assert(whole.subrange(0, whole.len() as int) =~= whole);
                }
            }
            return None;
        }
        acc = next;
        i = i + 1;
    }
    Some(acc)
}

/// The price that a decimal text names (see `price_of_text`).
pub fn parse_price(text: &[u8]) -> (r: Option<u64>)
    ensures
        r == price_of_text(text@),
{
    let n = text.len();
    let mut p: usize = 0;
    while p < n && text[p] != 46
        invariant
            p <= n == text@.len(),
            point_from(text@, 0) == point_from(text@, p as int),
        decreases n - p,
    {
        p = p + 1;
    }
    assert(point_at(text@) == p);
    if p == 0 {
        return None;
    }
    // A whole part above this leaves the price above `u64::MAX`.
    let whole = match read_digits(text, 0, p, 1844674407370955) {
        Some(v) => v,
        None => {
            proof {
                let ip = int_part(text@);
                if valid_price_text(text@) {
                    assert(ip =~= text@.subrange(0, p as int));
                    lemma_digits_nonneg(frac_part(text@));
                    lemma_pow10_pos(4 - frac_part(text@).len());
                    assert(digits_value(frac_part(text@)) * pow10(4 - frac_part(text@).len()) >= 0)
                        by (nonlinear_arith)
                        requires
                            digits_value(frac_part(text@)) >= 0,
                            pow10(4 - frac_part(text@).len()) >= 1,
                    ;
                }
            }
            return None;
        },
    };
    let mut frac: u64 = 0;
    let mut scale: u64 = 10000;
    if p < n {
        let flen = n - p - 1;
        scale = 1;
        if flen == 0 || flen > 4 {
            return None;
        }
        frac = match read_digits(text, p + 1, n, 9999) {
            Some(v) => v,
            None => {
                proof {
                    assert(frac_part(text@) =~= text@.subrange(p + 1, n as int));
                    lemma_frac_bound(frac_part(text@));
                }
                return None;
            },
        };
        scale = if flen == 1 { 1000 } else if flen == 2 { 100 } else if flen == 3 { 10 } else { 1 };
        proof {
            assert(frac_part(text@) =~= text@.subrange(p + 1, n as int));
            reveal_with_fuel(pow10, 4);
        }
    } else {
        proof {
            assert(frac_part(text@) =~= Seq::<u8>::empty());
            assert(all_digits(frac_part(text@)));
        }
    }
    proof {
        assert(int_part(text@) =~= text@.subrange(0, p as int));
        assert(scale == pow10(4 - frac_part(text@).len())) by {
            reveal_with_fuel(pow10, 5);
        }
    }
    assert(frac * scale <= 9999 * 10000) by (nonlinear_arith)
        requires
            frac <= 9999,
            scale <= 10000,
    ;
    let total: u128 = whole as u128 * 10000 + frac as u128 * scale as u128;
    if total > u64::MAX as u128 {
        None
    } else {
        Some(total as u64)
    }
}

proof fn lemma_pow10_pos(n: int)
    ensures
        pow10(n) >= 1,
    decreases n,
{
    if n > 0 {
        lemma_pow10_pos(n - 1);
    }
}

proof fn lemma_frac_bound(s: Seq<u8>)
    requires
        s.len() <= 4,
    ensures
        all_digits(s) ==> digits_value(s) <= 9999,
{
    if all_digits(s) {
        lemma_digits_small(s);
        reveal_with_fuel(pow10, 5);
    }
}

proof fn lemma_digits_small(s: Seq<u8>)
    requires
        all_digits(s),
        s.len() <= 4,
    ensures
        digits_value(s) <= pow10(s.len() as int) - 1,
    decreases s.len(),
{
    lemma_digits_nonneg(s);
    if s.len() > 0 {
        assert(all_digits(s.drop_last())) by {
            assert forall|i: int| 0 <= i < s.len() - 1 implies is_digit(#[trigger] s.drop_last()[i]) by {
                assert(s.drop_last()[i] == s[i]);
            }
        }
        assert(is_digit(s[s.len() - 1]));
        lemma_digits_small(s.drop_last());
    }
    reveal_with_fuel(pow10, 5);
}

fn push_digits(n: u64, out: &mut Vec<u8>)
    ensures
        final(out)@ == old(out)@ + digits_of(n as nat),
    decreases n,
{
    let ghost start = out@;
    if n >= 10 {
        push_digits(n / 10, out);
    }
    out.push((48 + n % 10) as u8);
    proof {
        if n >= 10 {
            assert(out@ =~= start + digits_of((n / 10) as nat).push((48 + n % 10) as u8));
        } else {
            assert(out@ =~= start + seq![(48 + n) as u8]);
        }
    }
}

/// The text of a price, with four decimals (see `price_text`).
pub fn format_price(ticks: u64) -> (r: Vec<u8>)
    ensures
        r@ == price_text(ticks),
{
    let mut out: Vec<u8> = Vec::new();
    push_digits(ticks / 10000, &mut out);
    out.push(46);
    let f = ticks % 10000;
    out.push((48 + f / 1000 % 10) as u8);
    out.push((48 + f / 100 % 10) as u8);
    out.push((48 + f / 10 % 10) as u8);
    out.push((48 + f % 10) as u8);
    assert(out@ =~= price_text(ticks));
    out
}

proof fn lemma_digits_of(n: nat)
    ensures
        digits_of(n).len() >= 1,
        all_digits(digits_of(n)),
        digits_value(digits_of(n)) == n,
    decreases n,
{
    let d = digits_of(n);
    if n >= 10 {
        lemma_digits_of(n / 10);
        assert(d.drop_last() =~= digits_of(n / 10));
        assert(d.last() == (48 + n % 10) as u8);
        assert(n == 10 * (n / 10) + n % 10);
        assert forall|i: int| 0 <= i < d.len() implies is_digit(#[trigger] d[i]) by {
            if i < d.len() - 1 {
                assert(d[i] == digits_of(n / 10)[i]);
            }
        }
    } else {
        assert(d.drop_last() =~= Seq::<u8>::empty());
        assert(d.last() == (48 + n) as u8);
        assert(digits_value(d.drop_last()) == 0);
    }
}

proof fn lemma_point_skip(s: Seq<u8>, i: int, k: int)
    requires
        0 <= i <= k <= s.len(),
        forall|j: int| i <= j < k ==> s[j] != 46,
    ensures
        point_from(s, i) == point_from(s, k),
    decreases k - i,
{
    if i < k {
        lemma_point_skip(s, i + 1, k);
    }
}

/// Reading back the text of a price gives the price.
pub proof fn law_price_text_round_trip(ticks: u64)
    ensures
        price_of_text(price_text(ticks)) == Some(ticks),
{
    let q = (ticks / 10000) as nat;
    let f = (ticks % 10000) as nat;
    let d = digits_of(q);
    let f4 = frac_digits(f);
    let s = price_text(ticks);
    lemma_digits_of(q);
    let n = d.len() as int;
    assert forall|j: int| 0 <= j < n implies s[j] != 46 by {
        assert(s[j] == d[j]);
        assert(is_digit(d[j]));
    }
    lemma_point_skip(s, 0, n);
    assert(s[n] == 46);
    assert(point_at(s) == n);
    assert(int_part(s) =~= d);
    assert(frac_part(s) =~= f4);
    assert(all_digits(f4));
    let a = f / 1000 % 10;
    let b = f / 100 % 10;
    let c = f / 10 % 10;
    let e = f % 10;
    assert(f4.drop_last().drop_last().drop_last().drop_last() =~= Seq::<u8>::empty());
    assert(digits_value(f4) == 10 * (10 * (10 * a + b) + c) + e) by {
        reveal_with_fuel(digits_value, 5);
        assert(f4.drop_last() =~= seq![(48 + a) as u8, (48 + b) as u8, (48 + c) as u8]);
        assert(f4.drop_last().drop_last() =~= seq![(48 + a) as u8, (48 + b) as u8]);
        assert(f4.drop_last().drop_last().drop_last() =~= seq![(48 + a) as u8]);
    }
    assert(10 * (10 * (10 * a + b) + c) + e == f) by (nonlinear_arith)
        requires
            f < 10000,
            a == f / 1000 % 10,
            b == f / 100 % 10,
            c == f / 10 % 10,
            e == f % 10,
    ;
    assert(pow10(0) == 1);
    assert(q * 10000 + f == ticks);
}

} // verus!
