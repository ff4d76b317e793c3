//! Deterministic synthetic insider trading histories.

use vstd::prelude::*;
use vstd::relations::{sorted_by, total_ordering};
use vstd::std_specs::bits::u64_leading_zeros;
use vstd::wrapping::u64_specs;
use crate::date::{lemma_day_number_bounds, spec_days_later, Date};
use crate::io::{default_id, trade_text, trade_texts};
use crate::text::write_int;
use crate::trade::{Side, Trade};

verus! {

/// The SplitMix64 state after one step.
pub open spec fn rng_advance(s: u64) -> u64 {
    u64_specs::wrapping_add(s, 0x9E37_79B9_7F4A_7C15)
}

/// The SplitMix64 output for an advanced state.
pub open spec fn rng_mix(z: u64) -> u64 {
    let a = u64_specs::wrapping_mul(z ^ (z >> 30u64), 0xBF58_476D_1CE4_E5B9);
    let b = u64_specs::wrapping_mul(a ^ (a >> 27u64), 0x94D0_49BB_1331_11EB);
    b ^ (b >> 31u64)
}

/// The draw in `lo..=hi` that `range` makes from state `s`.
#[verifier::opaque]
pub open spec fn draw(s: u64, lo: u64, hi: u64) -> u64 {
    (lo + rng_mix(rng_advance(s)) % ((hi - lo + 1) as u64)) as u64
}

/// A `range` call on these bounds runs: `lo <= hi` and the width fits `u64`.
pub open spec fn range_ok(lo: int, hi: int) -> bool {
    0 <= lo <= hi && hi - lo < u64::MAX
}

/// The state after `k` steps from `s`.
pub open spec fn rng_after(s: u64, k: nat) -> u64
    decreases k,
{
    if k == 0 {
        s
    } else {
        rng_advance(rng_after(s, (k - 1) as nat))
    }
}

/// SplitMix64: tiny, seedable, and good enough for test data.
#[derive(Clone, Debug)]
pub struct Rng(u64);

impl View for Rng {
    type V = u64;

    closed spec fn view(&self) -> u64 {
        self.0
    }
}

impl Rng {
    pub fn new(seed: u64) -> (r: Rng)
        ensures
            r@ == seed,
    {
        Rng(seed)
    }

    pub fn next_u64(&mut self) -> (r: u64)
        ensures
            final(self)@ == rng_advance(old(self)@),
            r == rng_mix(final(self)@),
    {
        self.0 = self.0.wrapping_add(0x9E37_79B9_7F4A_7C15);
        let mut z = self.0;
        z = (z ^ (z >> 30u64)).wrapping_mul(0xBF58_476D_1CE4_E5B9);
        z = (z ^ (z >> 27u64)).wrapping_mul(0x94D0_49BB_1331_11EB);
        z ^ (z >> 31u64)
    }

    /// Uniform in `lo..=hi`.
    pub fn range(&mut self, lo: u64, hi: u64) -> (r: u64)
        requires
            range_ok(lo as int, hi as int),
        ensures
            final(self)@ == rng_advance(old(self)@),
            r == draw(old(self)@, lo, hi),
            lo <= r <= hi,
    {
        let x = self.next_u64();
        proof {
            reveal(draw);
        }
        lo + x % (hi - lo + 1)
    }
}

#[derive(Clone, Debug)]
pub struct HistoryConfig {
    pub trades: usize,
    /// Share counts are drawn log-uniformly from `1..=max_shares`.
    pub max_shares: u64,
    /// Calendar days the history spans.
    pub span_days: u32,
    /// First trading day.
    pub start: Date,
    /// Starting price in ticks.
    pub start_price: i64,
    /// Largest daily price move in ticks (uniform in ±this).
    pub daily_move: i64,
}

impl Default for HistoryConfig {
    fn default() -> (r: HistoryConfig)
        ensures
            r.trades == 50,
            r.max_shares == 10_000,
            r.span_days == 730,
            r.start == (Date { year: 2020, month: 1, day: 2 }),
            r.start_price == 500_000,
            r.daily_move == 5_000,
    {
        HistoryConfig {
            trades: 50,
            max_shares: 10_000,
            span_days: 730,
            start: Date { year: 2020, month: 1, day: 2 },
            start_price: 500_000,
            daily_move: 5_000,
        }
    }
}

/// The order the drawn days are sorted by.
pub open spec fn day_le() -> spec_fn(u64, u64) -> bool {
    |a: u64, b: u64| a <= b
}

/// The days drawn, in draw order: `k` draws in `0..span` from state `s`.
pub open spec fn raw_days(s: u64, span: u64, k: nat) -> Seq<u64>
    decreases k,
{
    if k == 0 {
        seq![]
    } else {
        raw_days(s, span, (k - 1) as nat).push(draw(rng_after(s, (k - 1) as nat), 0, (span - 1) as u64))
    }
}

/// The number of days a history spans: at least one.
pub open spec fn span_of(c: HistoryConfig) -> u64 {
    if c.span_days >= 1 {
        c.span_days as u64
    } else {
        1
    }
}

/// The trading days of a history, in order.
pub open spec fn history_days(seed: u64, c: HistoryConfig) -> Seq<u64> {
    raw_days(seed, span_of(c), c.trades as nat).sort_by(day_le())
}

/// One day's price step, from state `s`: the new price, or `None` where the
/// arithmetic overflows.
pub open spec fn price_step(s: u64, dm: i64, price: i64) -> Option<i64> {
    let hi = 2 * (dm as u64) as int;
    if !(hi <= u64::MAX && range_ok(0, hi)) {
        None
    } else {
        let step = (draw(s, 0, hi as u64) as i64) - dm;
        if !(i64::MIN <= step <= i64::MAX && i64::MIN <= price + step <= i64::MAX) {
            None
        } else if price + step >= 1 {
            Some((price + step) as i64)
        } else {
            Some(1)
        }
    }
}

/// The state and price once the price has walked from day `pd` to day `d`.
pub open spec fn price_walk(s: u64, dm: i64, price: i64, pd: u64, d: u64) -> Option<(u64, i64)>
    decreases d - pd,
{
    if pd >= d {
        Some((s, price))
    } else {
        match price_step(s, dm, price) {
            None => None,
            Some(p) => price_walk(rng_advance(s), dm, p, (pd + 1) as u64, d),
        }
    }
}

/// `1 + floor(log2(max(m, 1)))`: the bit length of the largest share count.
pub open spec fn max_bits(m: u64) -> int {
    64 - u64_leading_zeros(if m >= 1 {
        m
    } else {
        1
    })
}

/// Rust's `/ 2` on an `i64`, rounding toward zero.
pub open spec fn half_toward_zero(x: i64) -> int {
    if x >= 0 {
        x / 2
    } else {
        -((-x) / 2)
    }
}

/// The trade at index `i` on day `d`, drawn from state `s` with the day's
/// price `price` and the side of the run so far: the state after it, its side
/// and the trade; `None` where the arithmetic overflows.
pub open spec fn trade_at(s: u64, c: HistoryConfig, i: int, d: u64, price: i64, side: Side) -> Option<
    (u64, Side, (Seq<char>, Date, Side, u64, i64)),
> {
    let redraw = i == 0 || draw(s, 0, 2) == 0;
    let s2 = if i == 0 {
        s
    } else {
        rng_advance(s)
    };
    let side1 = if redraw {
        if draw(s2, 0, 1) == 0 {
            Side::Buy
        } else {
            Side::Sell
        }
    } else {
        side
    };
    let s3 = if redraw {
        rng_advance(s2)
    } else {
        s2
    };
    let mb = max_bits(c.max_shares);
    let bits = draw(s3, 1, mb as u64);
    let s4 = rng_advance(s3);
    let m = if c.max_shares >= 1 {
        c.max_shares
    } else {
        1
    };
    let full = if bits < 64 {
        ((1u64 << bits) - 1) as u64
    } else {
        0
    };
    let lo = 1u64 << ((bits - 1) as u64);
    let hi = if full <= m {
        full
    } else {
        m
    };
    let dm = c.daily_move;
    if !(1 <= mb <= 64 && bits < 64 && range_ok(lo as int, hi as int) && range_ok(0, dm as u64 as int)) {
        None
    } else {
        let shares = draw(s4, lo, hi);
        let s5 = rng_advance(s4);
        let x = draw(s5, 0, dm as u64) as i64;
        let s6 = rng_advance(s5);
        let intraday = x - half_toward_zero(dm);
        if !(i64::MIN <= intraday <= i64::MAX && i64::MIN <= price + intraday <= i64::MAX) {
            None
        } else {
            let p = if price + intraday >= 1 {
                (price + intraday) as i64
            } else {
                1
            };
            Some((s6, side1, (default_id(i), spec_days_later(c.start, d as int), side1, shares, p)))
        }
    }
}

/// The trades from index `i` on, given the RNG state, the price on day `pd`
/// and the side of the run so far; `None` where the arithmetic overflows.
pub open spec fn walk(
    s: u64,
    c: HistoryConfig,
    days: Seq<u64>,
    i: int,
    price: i64,
    pd: u64,
    side: Side,
) -> Option<Seq<(Seq<char>, Date, Side, u64, i64)>>
    decreases days.len() - i,
{
    if i < 0 || i >= days.len() {
        Some(seq![])
    } else {
        let d = days[i];
        match price_walk(s, c.daily_move, price, pd, d) {
            None => None,
            Some(w) => match trade_at(w.0, c, i, d, w.1, side) {
                None => None,
                Some(x) => {
                    let npd = if pd >= d {
                        pd
                    } else {
                        d
                    };
                    match walk(x.0, c, days, i + 1, w.1, npd, x.1) {
                        None => None,
                        Some(rest) => Some(seq![x.2] + rest),
                    }
                },
            },
        }
    }
}

/// The history `history` gives for `seed` and `c`, or `None` where its
/// arithmetic overflows.
pub open spec fn spec_history(seed: u64, c: HistoryConfig) -> Option<Seq<(Seq<char>, Date, Side, u64, i64)>> {
    walk(
        rng_after(seed, c.trades as nat),
        c,
        history_days(seed, c),
        0,
        c.start_price,
        0,
        Side::Buy,
    )
}

proof fn lemma_day_le_total()
    ensures
        total_ordering(day_le()),
{
}

/// Two increasing lists of days merged into one.
fn merge_days(a: &Vec<u64>, b: &Vec<u64>) -> (r: Vec<u64>)
    requires
        sorted_by(a@, day_le()),
        sorted_by(b@, day_le()),
    ensures
        sorted_by(r@, day_le()),
        r@.to_multiset() == a@.to_multiset().add(b@.to_multiset()),
{
    broadcast use vstd::multiset::group_multiset_axioms;
    broadcast use vstd::seq_lib::group_to_multiset_ensures;

    let mut out: Vec<u64> = Vec::new();
    let mut i: usize = 0;
    let mut j: usize = 0;
    while i < a.len() || j < b.len()
        invariant
            i <= a.len(),
            j <= b.len(),
            sorted_by(a@, day_le()),
            sorted_by(b@, day_le()),
            sorted_by(out@, day_le()),
            out@.len() == i + j,
            out@.to_multiset() == a@.take(i as int).to_multiset().add(b@.take(j as int).to_multiset()),
            out@.len() > 0 && i < a.len() ==> out@.last() <= a@[i as int],
            out@.len() > 0 && j < b.len() ==> out@.last() <= b@[j as int],
        decreases a.len() + b.len() - i - j,
    {
        let ghost before = out@;
        let ghost i0 = i as int;
        let ghost j0 = j as int;
        let x = if j >= b.len() || (i < a.len() && a[i] <= b[j]) {
            let x = a[i];
            assert(a@.take(i + 1) =~= a@.take(i as int).push(x));
            i = i + 1;
            if i < a.len() {
                assert((day_le())(a@[i - 1], a@[i as int]));
            }
            x
        } else {
            let x = b[j];
            assert(b@.take(j + 1) =~= b@.take(j as int).push(x));
            j = j + 1;
            if j < b.len() {
                assert((day_le())(b@[j - 1], b@[j as int]));
            }
            x
        };
        out.push(x);
        proof {
            assert(out@ == before.push(x));
            vstd::seq_lib::to_multiset_build(before, x);
            vstd::seq_lib::to_multiset_build(a@.take(i0), x);
            vstd::seq_lib::to_multiset_build(b@.take(j0), x);
            if i as int == i0 + 1 {
                assert(a@.take(i as int) == a@.take(i0).push(x));
                assert(b@.take(j as int) == b@.take(j0));
            } else {
                assert(b@.take(j as int) == b@.take(j0).push(x));
                assert(a@.take(i as int) == a@.take(i0));
            }
            assert(out@.to_multiset() =~= a@.take(i as int).to_multiset().add(b@.take(j as int).to_multiset()));
            assert forall|p: int, q: int| 0 <= p < q < out@.len() implies #[trigger] (day_le())(
                out@[p],
                out@[q],
            ) by {
                if q < before.len() {
                    assert((day_le())(before[p], before[q]));
                } else if p < before.len() - 1 {
                    assert((day_le())(before[p], before[before.len() - 1]));
                }
            }
        }
    }
    proof {
        assert(a@.take(a.len() as int) =~= a@);
        assert(b@.take(b.len() as int) =~= b@);
    }
    out
}

/// The days `v[lo..hi]`, in increasing order.
fn sort_days_range(v: &Vec<u64>, lo: usize, hi: usize) -> (r: Vec<u64>)
    requires
        lo <= hi <= v.len(),
    ensures
        sorted_by(r@, day_le()),
        r@.to_multiset() == v@.subrange(lo as int, hi as int).to_multiset(),
    decreases hi - lo,
{
    broadcast use vstd::multiset::group_multiset_axioms;
    broadcast use vstd::seq_lib::group_to_multiset_ensures;

    if hi - lo <= 1 {
        let mut out: Vec<u64> = Vec::new();
        if hi > lo {
            out.push(v[lo]);
            assert(out@ =~= v@.subrange(lo as int, hi as int));
        } else {
            assert(out@ =~= v@.subrange(lo as int, hi as int));
        }
        return out;
    }
    let mid = lo + (hi - lo) / 2;
    let left = sort_days_range(v, lo, mid);
    let right = sort_days_range(v, mid, hi);
    proof {
        assert(v@.subrange(lo as int, hi as int) =~= v@.subrange(lo as int, mid as int) + v@.subrange(
            mid as int,
            hi as int,
        ));
        vstd::seq_lib::lemma_multiset_commutative(
            v@.subrange(lo as int, mid as int),
            v@.subrange(mid as int, hi as int),
        );
    }
    merge_days(&left, &right)
}

/// `v` sorted in increasing order.
fn sorted_days(v: &Vec<u64>) -> (r: Vec<u64>)
    ensures
        r@ == v@.sort_by(day_le()),
{
    let out = sort_days_range(v, 0, v.len());
    proof {
        assert(v@.subrange(0, v.len() as int) =~= v@);
        lemma_day_le_total();
        v@.lemma_sort_by_ensures(day_le());
        vstd::seq_lib::lemma_sorted_unique(out@, v@.sort_by(day_le()), day_le());
    }
    out
}

/// Walks the price from day `pd` to day `d`; `None` where the arithmetic overflows.
fn walk_price(rng: &mut Rng, dm: i64, start_price: i64, pd: u64, d: u64) -> (r: Option<(i64, u64)>)
    ensures
        r is None <==> price_walk(old(rng)@, dm, start_price, pd, d) is None,
        r matches Some(x) ==> {
            let w = price_walk(old(rng)@, dm, start_price, pd, d)->0;
            &&& final(rng)@ == w.0
            &&& x.0 == w.1
            &&& x.1 == (if pd >= d {
                pd
            } else {
                d
            })
        },
{
    let ghost s0 = rng@;
    let mut price = start_price;
    let mut price_day = pd;
    while price_day < d
        invariant
            old(rng)@ == s0,
            price_walk(rng@, dm, price, price_day, d) == price_walk(s0, dm, start_price, pd, d),
            pd <= price_day,
            pd < d ==> price_day <= d,
            pd >= d ==> price_day == pd,
        decreases d - price_day,
    {
        let ghost s = rng@;
        let ghost p0 = price;
        let dmu = dm as u64;
        if dmu > 9223372036854775807 {
            assert(price_step(s, dm, p0) is None);
            assert(price_walk(s, dm, p0, price_day, d) is None);
            return None;
        }
        let hi = 2 * dmu;
        let r = rng.range(0, hi);
        let step = r as i64 as i128 - dm as i128;
        if step < -9223372036854775808 || step > 9223372036854775807 {
            assert(price_step(s, dm, p0) is None);
            assert(price_walk(s, dm, p0, price_day, d) is None);
            return None;
        }
        let moved = price as i128 + step;
        if moved < -9223372036854775808 || moved > 9223372036854775807 {
            assert(price_step(s, dm, p0) is None);
            assert(price_walk(s, dm, p0, price_day, d) is None);
            return None;
        }
        price = if moved >= 1 {
            moved as i64
        } else {
            1
        };
        assert(price_step(s, dm, p0) == Some(price));
        assert(price_walk(s, dm, p0, price_day, d) == price_walk(rng@, dm, price, (price_day + 1) as u64, d));
        price_day = price_day + 1;
    }
    Some((price, price_day))
}

/// Draws the trade at index `i` on day `d`; `None` where the arithmetic overflows.
fn make_trade(
    rng: &mut Rng,
    config: &HistoryConfig,
    i: usize,
    d: u64,
    price: i64,
    side: Side,
    m: u64,
    mb: u64,
    start_day: i64,
) -> (r: Option<(Trade, Side)>)
    requires
        m == (if config.max_shares >= 1 {
            config.max_shares
        } else {
            1
        }),
        mb as int == max_bits(config.max_shares),
        start_day == config.start.spec_day_number(),
        -(1i64 << 42) <= start_day <= (1i64 << 42),
        d < 0x1_0000_0000,
        i < usize::MAX,
    ensures
        r is None <==> trade_at(old(rng)@, *config, i as int, d, price, side) is None,
        r matches Some(t) ==> {
            let x = trade_at(old(rng)@, *config, i as int, d, price, side)->0;
            &&& final(rng)@ == x.0
            &&& t.1 == x.1
            &&& trade_text(t.0) == x.2
        },
{
    let ghost s1 = rng@;
    let redraw = if i == 0 {
        true
    } else {
        rng.range(0, 2) == 0
    };
    let mut side = side;
    if redraw {
        side = if rng.range(0, 1) == 0 {
            Side::Buy
        } else {
            Side::Sell
        };
    }
    if mb < 1 || mb > 64 {
        return None;
    }
    let bits = rng.range(1, mb);
    if bits >= 64 {
        return None;
    }
    let full: u64 = if bits < 64 {
        assert((1u64 << bits) >= 1) by (bit_vector)
            requires
                bits < 64,
        ;
        (1u64 << bits) - 1
    } else {
        0
    };
    let lo = 1u64 << (bits - 1);
    let hi = if full <= m {
        full
    } else {
        m
    };
    if hi < lo || hi - lo == u64::MAX {
        return None;
    }
    let dm = config.daily_move;
    let dmu = dm as u64;
    if dmu == u64::MAX {
        return None;
    }
    let shares = rng.range(lo, hi);
    let x = rng.range(0, dmu) as i64;
    let intraday = x as i128 - (dm / 2) as i128;
    if intraday < -9223372036854775808 || intraday > 9223372036854775807 {
        return None;
    }
    let moved = price as i128 + intraday;
    if moved < -9223372036854775808 || moved > 9223372036854775807 {
        return None;
    }
    let value = if moved >= 1 {
        moved as i64
    } else {
        1
    };
    let mut id = String::from_str("T");
    write_int(&mut id, i as i128 + 1);
    let date = Date::from_day_number(start_day + d as i64);
    Some((Trade { id, date, side, shares, price: value }, side))
}

/// Every drawn day falls inside the span.
proof fn lemma_raw_days_below(s: u64, span: u64, k: nat)
    requires
        span >= 1,
    ensures
        raw_days(s, span, k).len() == k,
        forall|j: int| 0 <= j < k ==> #[trigger] raw_days(s, span, k)[j] < span,
    decreases k,
{
    if k > 0 {
        lemma_raw_days_below(s, span, (k - 1) as nat);
        let prev = raw_days(s, span, (k - 1) as nat);
        let st = rng_after(s, (k - 1) as nat);
        let x = rng_mix(rng_advance(st));
        assert(((span - 1 - 0 + 1) as u64) == span);
        assert(x % span < span);
        assert(draw(st, 0, (span - 1) as u64) == x % span) by {
            reveal(draw);
        }
        assert forall|j: int| 0 <= j < k implies #[trigger] raw_days(s, span, k)[j] < span by {
            if j < k - 1 {
                assert(raw_days(s, span, k)[j] == prev[j]);
            }
        }
    }
}

/// The trading days, in order, and the generator after drawing them.
fn draw_days(seed: u64, config: &HistoryConfig) -> (r: (Vec<u64>, Rng))
    ensures
        r.0@ == history_days(seed, *config),
        r.1@ == rng_after(seed, config.trades as nat),
        r.0@.len() == config.trades,
        forall|j: int| 0 <= j < r.0@.len() ==> #[trigger] r.0@[j] < 0x1_0000_0000,
{
    let ghost c = *config;
    let mut rng = Rng::new(seed);
    let span: u64 = if config.span_days >= 1 {
        config.span_days as u64
    } else {
        1
    };
    let mut raw: Vec<u64> = Vec::new();
    let mut k: usize = 0;
    while k < config.trades
        invariant
            k <= config.trades,
            span == span_of(c),
            span >= 1,
            c == *config,
            raw@ == raw_days(seed, span, k as nat),
            rng@ == rng_after(seed, k as nat),
        decreases config.trades - k,
    {
        let d = rng.range(0, span - 1);
        raw.push(d);
        k = k + 1;
    }
    let days = sorted_days(&raw);
    proof {
        lemma_raw_days_below(seed, span, c.trades as nat);
        lemma_day_le_total();
        raw@.lemma_sort_by_ensures(day_le());
        assert(raw@.to_multiset().len() == days@.to_multiset().len());
        raw@.to_multiset_ensures();
        days@.to_multiset_ensures();
        assert forall|j: int| 0 <= j < days@.len() implies #[trigger] days@[j] < 0x1_0000_0000 by {
            assert(days@.contains(days@[j]));
            assert(raw@.contains(days@[j]));
            let q = choose|q: int| 0 <= q < raw@.len() && raw@[q] == days@[j];
            assert(raw@[q] < span);
        }
    }
    (days, rng)
}

/// A random-walk share price with trades on random days. Insiders tend to
/// trade in runs (a series of sales under a plan, a burst of purchases), so the
/// side is only re-drawn for one trade in three.
pub fn history(seed: u64, config: &HistoryConfig) -> (r: Vec<Trade>)
    requires
        spec_history(seed, *config) is Some,
    ensures
        trade_texts(r@) == spec_history(seed, *config)->0,
{
    match try_history(seed, config) {
        Some(trades) => trades,
        None => Vec::new(),
    }
}

/// The history `history` gives, or `None` for a configuration on which its
/// arithmetic overflows.
pub fn try_history(seed: u64, config: &HistoryConfig) -> (r: Option<Vec<Trade>>)
    ensures
        r is None <==> spec_history(seed, *config) is None,
        r matches Some(v) ==> trade_texts(v@) == spec_history(seed, *config)->0,
{
    let ghost c = *config;
    let (days, rng) = draw_days(seed, config);
    let mut rng = rng;
    let start_day = config.start.day_number();
    proof {
        lemma_day_number_bounds(config.start);
    }
    let dm = config.daily_move;
    let mut price = config.start_price;
    let mut price_day: u64 = 0;
    let mut side = Side::Buy;
    let m: u64 = if config.max_shares >= 1 {
        config.max_shares
    } else {
        1
    };
    let lz = m.leading_zeros();
    proof {
        vstd::std_specs::bits::axiom_u64_leading_zeros(m);
    }
    let mb: u64 = 64 - lz as u64;
    let ghost whole = spec_history(seed, c);
    let mut trades: Vec<Trade> = Vec::new();
    assert(trade_texts(trades@) =~= seq![]);
    assert(seq![] + walk(rng@, c, days@, 0, price, price_day, side)->0 =~= walk(rng@, c, days@, 0, price, price_day, side)->0);
    let mut i: usize = 0;
    while i < days.len()
        invariant
            c == *config,
            days@ == history_days(seed, c),
            forall|j: int| 0 <= j < days@.len() ==> #[trigger] days@[j] < 0x1_0000_0000,
            i <= days.len(),
            days@.len() == c.trades,
            start_day == c.start.spec_day_number(),
            -(1i64 << 42) <= start_day <= (1i64 << 42),
            dm == c.daily_move,
            m == (if c.max_shares >= 1 {
                c.max_shares
            } else {
                1
            }),
            mb as int == max_bits(c.max_shares),
            whole == spec_history(seed, c),
            whole is None <==> walk(rng@, c, days@, i as int, price, price_day, side) is None,
            whole is Some ==> whole->0 == trade_texts(trades@) + walk(rng@, c, days@, i as int, price, price_day, side)->0,
        decreases days.len() - i,
    {
        let d = days[i];
        let (p1, pd1) = match walk_price(&mut rng, dm, price, price_day, d) {
            Some(x) => x,
            None => {
                return None;
            },
        };
        let (t, side1) = match make_trade(&mut rng, config, i, d, p1, side, m, mb, start_day) {
            Some(x) => x,
            None => {
                return None;
            },
        };
        let ghost before = trade_texts(trades@);
        let ghost tt = trade_text(t);
        trades.push(t);
        assert(trade_texts(trades@) =~= before.push(tt));
        price = p1;
        price_day = pd1;
        side = side1;
        i = i + 1;
        assert(whole is Some ==> whole->0 =~= trade_texts(trades@) + walk(rng@, c, days@, i as int, price, price_day, side)->0);
    }
    Some(trades)
}

} // verus!
