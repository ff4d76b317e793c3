//! Transactions, prices in integer ticks, and matched pairs.

use vstd::prelude::*;
use vstd::string::*;
use crate::date::{spec_within, within, Date, WindowRule};
use crate::text::{
    all_digits, debug_str, debug_text, decimal, digit_value, digits_value, find_char, int_text, is_digit, is_white,
    lemma_decimal, lemma_pad_zeros, trim_end, trim_start,
    lemma_digits_value_bound, lemma_digits_value_prefix, lemma_pow10_add, lemma_pow10_monotone, lemma_pow10_positive, pad_zeros, pow10,
    pow10_i128, push_char, res_view, str_chars, str_trim, trim, trim_zeros_end, write_decimal,
    write_int,
};

verus! {

#[derive(Clone, Copy, Debug, PartialEq, Eq, Structural)]
pub enum Side {
    Buy,
    Sell,
}

/// Largest accepted price in ticks. Keeps every intermediate potential in the
/// solver far away from `i64` overflow.
pub const MAX_PRICE_TICKS: i64 = 1_000_000_000_000;

/// Largest accepted share count for one trade.
pub const MAX_SHARES: u64 = 1_000_000_000_000;

/// Largest accepted number of trades in one history.
pub const MAX_TRADES: usize = 1_000_000;

#[derive(Clone, Debug, PartialEq, Eq)]
pub struct Trade {
    pub id: String,
    pub date: Date,
    pub side: Side,
    pub shares: u64,
    /// Price per share in integer ticks (for example 1 tick = $0.0001).
    pub price: i64,
}

/// A purchase matched against a sale. `purchase` and `sale` index into the trade slice.
#[derive(Clone, Debug, PartialEq, Eq, Structural)]
pub struct MatchedPair {
    pub purchase: usize,
    pub sale: usize,
    pub shares: u64,
    /// `shares * (sale price - purchase price)` in ticks.
    pub profit: i128,
}

/// Shares of trade `i` that `pairs` match, as purchase and as sale.
pub open spec fn shares_matched(pairs: Seq<MatchedPair>, i: int) -> int
    decreases pairs.len(),
{
    if pairs.len() == 0 {
        0
    } else {
        let q = pairs.last();
        shares_matched(pairs.drop_last(), i) + (if q.purchase == i { q.shares as int } else { 0 })
            + (if q.sale == i { q.shares as int } else { 0 })
    }
}

/// The sum of the profits that `pairs` claim.
pub open spec fn claimed_profit(pairs: Seq<MatchedPair>) -> int
    decreases pairs.len(),
{
    if pairs.len() == 0 {
        0
    } else {
        claimed_profit(pairs.drop_last()) + pairs.last().profit
    }
}

/// A trade within the limits the solver relies on.
pub open spec fn trade_in_limits(t: Trade) -> bool {
    1 <= t.shares <= MAX_SHARES && 0 <= t.price <= MAX_PRICE_TICKS
}

/// The message for the first trade at or after `i` that breaks the limits.
pub open spec fn first_limit_problem(ts: Seq<Trade>, i: int) -> Option<Seq<char>>
    decreases ts.len() - i,
{
    if i < 0 || i >= ts.len() {
        None
    } else if !(1 <= ts[i].shares <= MAX_SHARES) {
        Some("trade "@ + ts[i].id@ + ": shares must be in 1..=1000000000000"@)
    } else if !(0 <= ts[i].price <= MAX_PRICE_TICKS) {
        Some("trade "@ + ts[i].id@ + ": price must be in 0..=1000000000000 ticks"@)
    } else {
        first_limit_problem(ts, i + 1)
    }
}

/// What `validate` gives for a history.
pub open spec fn spec_validate(ts: Seq<Trade>) -> Result<(), Seq<char>> {
    if ts.len() > MAX_TRADES {
        Err(int_text(ts.len() as int) + " trades exceeds the limit of 1000000"@)
    } else {
        match first_limit_problem(ts, 0) {
            Some(m) => Err(m),
            None => Ok(()),
        }
    }
}

/// A history the solver accepts.
pub open spec fn trades_in_limits(ts: Seq<Trade>) -> bool {
    ts.len() <= MAX_TRADES && forall|i: int| 0 <= i < ts.len() ==> trade_in_limits(#[trigger] ts[i])
}

proof fn lemma_first_limit_problem_none(ts: Seq<Trade>, i: int)
    requires
        0 <= i <= ts.len(),
    ensures
        first_limit_problem(ts, i) is None <==> forall|j: int|
            i <= j < ts.len() ==> trade_in_limits(#[trigger] ts[j]),
    decreases ts.len() - i,
{
    if i < ts.len() {
        lemma_first_limit_problem_none(ts, i + 1);
    }
}

/// `validate` accepts exactly the histories within the limits.
pub proof fn law_validate_accepts_limits(ts: Seq<Trade>)
    ensures
        spec_validate(ts) is Ok <==> trades_in_limits(ts),
{
    lemma_first_limit_problem_none(ts, 0);
}

/// Checks the limits the solver relies on.
pub fn validate(trades: &[Trade]) -> (r: Result<(), String>)
    ensures
        res_view(r) == spec_validate(trades@),
        r is Ok <==> trades_in_limits(trades@),
{
    proof {
        law_validate_accepts_limits(trades@);
    }
    if trades.len() > MAX_TRADES {
        let mut e = String::new();
        write_int(&mut e, trades.len() as i128);
        e.append(" trades exceeds the limit of 1000000");
        return Err(e);
    }
    let mut i: usize = 0;
    while i < trades.len()
        invariant
            i <= trades.len() <= MAX_TRADES,
            first_limit_problem(trades@, 0) == first_limit_problem(trades@, i as int),
        decreases trades.len() - i,
    {
        let t = &trades[i];
        if t.shares == 0 || t.shares > MAX_SHARES {
            let mut e = String::from_str("trade ");
            e.append(t.id.as_str());
            e.append(": shares must be in 1..=1000000000000");
            assert(e@ =~= "trade "@ + trades@[i as int].id@ + ": shares must be in 1..=1000000000000"@);
            return Err(e);
        }
        if t.price < 0 || t.price > MAX_PRICE_TICKS {
            let mut e = String::from_str("trade ");
            e.append(t.id.as_str());
            e.append(": price must be in 0..=1000000000000 ticks");
            assert(e@ =~= "trade "@ + trades@[i as int].id@
                + ": price must be in 0..=1000000000000 ticks"@);
            return Err(e);
        }
        i = i + 1;
    }
    Ok(())
}

/// Per-share profit if `purchase` and `sale` may be matched and the sale price
/// is strictly higher; `None` otherwise.
pub open spec fn spec_pair_gain<R: WindowRule + ?Sized>(
    rule: &R,
    purchase: Trade,
    sale: Trade,
) -> Option<int> {
    if purchase.side == Side::Buy && sale.side == Side::Sell && sale.price > purchase.price
        && spec_within(rule, purchase.date, sale.date) {
        Some(sale.price - purchase.price)
    } else {
        None
    }
}

/// The gain of a matchable pair fits in `i64`.
pub open spec fn gain_fits<R: WindowRule + ?Sized>(rule: &R, purchase: Trade, sale: Trade) -> bool {
    spec_pair_gain(rule, purchase, sale) matches Some(g) ==> g <= i64::MAX
}

/// Per-share profit if `purchase` and `sale` may be matched and the sale price
/// is strictly higher; `None` otherwise.
pub fn pair_gain<R: WindowRule + ?Sized>(rule: &R, purchase: &Trade, sale: &Trade) -> (r: Option<
    i64,
>)
    requires
        gain_fits(rule, *purchase, *sale),
    ensures
        r matches Some(g) ==> spec_pair_gain(rule, *purchase, *sale) == Some(g as int),
        r is None <==> spec_pair_gain(rule, *purchase, *sale) is None,
{
    if purchase.side != Side::Buy || sale.side != Side::Sell {
        return None;
    }
    if sale.price <= purchase.price || !within(rule, purchase.date, sale.date) {
        return None;
    }
    Some(sale.price - purchase.price)
}

/// The digits before the first `.` of a price.
pub open spec fn price_int_part(t: Seq<char>) -> Seq<char> {
    t.subrange(0, find_char(t, '.', 0))
}

/// The text after the first `.` of a price (empty when there is none).
pub open spec fn price_frac_part(t: Seq<char>) -> Seq<char> {
    let p = find_char(t, '.', 0);
    if p < t.len() {
        t.subrange(p + 1, t.len() as int)
    } else {
        Seq::empty()
    }
}

/// `t` is a non-negative decimal number: digits, optionally a `.` and more digits.
pub open spec fn price_well_formed(t: Seq<char>) -> bool {
    let i = price_int_part(t);
    let f = price_frac_part(t);
    &&& i.len() > 0
    &&& all_digits(i)
    &&& (f.len() == 0 || all_digits(f))
    &&& !(t.len() > 0 && t.last() == '.')
}

/// The significant decimal places of a price: its fraction without trailing zeros.
pub open spec fn price_places(t: Seq<char>) -> Seq<char> {
    trim_zeros_end(price_frac_part(t))
}

/// The number of ticks a well-formed price names, at `decimals` places per unit.
pub open spec fn price_ticks(t: Seq<char>, decimals: nat) -> int {
    let places = price_places(t);
    (digits_value(price_int_part(t)) * pow10(decimals) + digits_value(places) * pow10(
        (decimals - places.len()) as nat,
    )) as int
}

/// `parse_price` gets as far as scaling by `10^decimals`.
pub open spec fn price_reaches_scale(s: Seq<char>, decimals: nat) -> bool {
    let t = trim(s);
    price_well_formed(t) && price_places(t).len() <= decimals
}

/// What `parse_price` gives for the text `s`.
pub open spec fn spec_parse_price(s: Seq<char>, decimals: nat) -> Result<i64, Seq<char>> {
    let t = trim(s);
    if !price_well_formed(t) {
        Err("price "@ + debug_text(t) + " is not a non-negative decimal number"@)
    } else if price_places(t).len() > decimals {
        Err("price "@ + debug_text(t) + " has more than "@ + int_text(decimals as int)
            + " decimal places"@)
    } else if price_ticks(t, decimals) <= MAX_PRICE_TICKS {
        Ok(price_ticks(t, decimals) as i64)
    } else {
        Err("price "@ + debug_text(t) + " is too large"@)
    }
}

/// Whether the characters `v[from..to]` are all ASCII digits.
fn all_digits_in(v: &Vec<char>, from: usize, to: usize) -> (r: bool)
    requires
        from <= to <= v.len(),
    ensures
        r == all_digits(v@.subrange(from as int, to as int)),
{
    let mut i = from;
    while i < to
        invariant
            from <= i <= to <= v.len(),
            all_digits(v@.subrange(from as int, i as int)),
        decreases to - i,
    {
        if !(48 <= v[i] as u32 && v[i] as u32 <= 57) {
            assert(v@.subrange(from as int, to as int)[i - from] == v@[i as int]);
            return false;
        }
        assert(v@.subrange(from as int, i + 1) =~= v@.subrange(from as int, i as int).push(
            v@[i as int],
        ));
        i = i + 1;
    }
    true
}

/// The number spelled by the digits `v[from..to]` when it is at most `limit`.
fn digits_value_upto(v: &Vec<char>, from: usize, to: usize, limit: i128) -> (r: Option<i128>)
    requires
        from <= to <= v.len(),
        all_digits(v@.subrange(from as int, to as int)),
        0 <= limit <= i128::MAX / 10 - 10,
    ensures
        r matches Some(x) ==> x == digits_value(v@.subrange(from as int, to as int)),
        r is None <==> digits_value(v@.subrange(from as int, to as int)) > limit,
{
    let ghost w = v@.subrange(from as int, to as int);
    let mut acc: i128 = 0;
    let mut i = from;
    while i < to
        invariant
            from <= i <= to <= v.len(),
            w == v@.subrange(from as int, to as int),
            all_digits(w),
            0 <= limit <= i128::MAX / 10 - 10,
            acc == digits_value(w.subrange(0, (i - from) as int)),
            acc <= limit,
        decreases to - i,
    {
        assert(w.subrange(0, (i - from) as int) =~= w.subrange(0, (i + 1 - from) as int).drop_last());
        assert(w[i - from] == v@[i as int]);
        acc = acc * 10 + (v[i] as u32 - 48) as i128;
        i = i + 1;
        if acc > limit {
            proof {
                lemma_digits_value_prefix(w, (i - from) as int, w.len() as int);
                assert(w.subrange(0, w.len() as int) =~= w);
            }
            return None;
        }
    }
    assert(w.subrange(0, (to - from) as int) =~= w);
    Some(acc)
}

/// The number spelled by at most 38 digits `v[from..to]`.
fn digits_value_short(v: &Vec<char>, from: usize, to: usize) -> (r: i128)
    requires
        from <= to <= v.len(),
        to - from <= 38,
        all_digits(v@.subrange(from as int, to as int)),
    ensures
        r == digits_value(v@.subrange(from as int, to as int)),
{
    let ghost w = v@.subrange(from as int, to as int);
    let mut acc: i128 = 0;
    let mut i = from;
    proof {
        reveal_with_fuel(pow10, 39);
    }
    while i < to
        invariant
            from <= i <= to <= v.len(),
            to - from <= 38,
            w == v@.subrange(from as int, to as int),
            all_digits(w),
            acc == digits_value(w.subrange(0, (i - from) as int)),
            pow10(38) == 100000000000000000000000000000000000000,
        decreases to - i,
    {
        let ghost pre = w.subrange(0, (i - from) as int);
        assert(pre =~= w.subrange(0, (i + 1 - from) as int).drop_last());
        assert(w[i - from] == v@[i as int]);
        proof {
            assert(all_digits(pre));
            lemma_digits_value_bound(pre);
            lemma_pow10_monotone(pre.len(), 37);
            assert(pow10(38) == 10 * pow10(37));
        }
        acc = acc * 10 + (v[i] as u32 - 48) as i128;
        i = i + 1;
    }
    assert(w.subrange(0, (to - from) as int) =~= w);
    acc
}

/// Parses a decimal price such as `12.5` into ticks with `decimals` fractional digits.
/// Rejects prices that are not an exact number of ticks rather than rounding.
#[verifier::spinoff_prover]
#[verifier::rlimit(60)]
pub fn parse_price(s: &str, decimals: u32) -> (r: Result<i64, String>)
    requires
        price_reaches_scale(s@, decimals as nat) ==> decimals <= 38,
    ensures
        res_view(r) == spec_parse_price(s@, decimals as nat),
{
    let ts = str_trim(s);
    let v = str_chars(ts);
    let ghost t = v@;
    let n = v.len();
    let mut p: usize = 0;
    while p < n && v[p] != '.'
        invariant
            p <= n == v.len(),
            t == v@,
            find_char(t, '.', 0) == find_char(t, '.', p as int),
        decreases n - p,
    {
        p = p + 1;
    }
    assert(find_char(t, '.', p as int) == p);
    let frac_start = if p < n {
        p + 1
    } else {
        n
    };
    assert(price_int_part(t) =~= v@.subrange(0, p as int));
    assert(price_frac_part(t) =~= v@.subrange(frac_start as int, n as int));
    let int_ok = p > 0 && all_digits_in(&v, 0, p);
    let frac_ok = all_digits_in(&v, frac_start, n);
    let ends_dot = n > 0 && v[n - 1] == '.';
    if !int_ok || !frac_ok || ends_dot {
        let mut e = String::from_str("price ");
        let q = debug_str(ts);
        e.append(q.as_str());
        e.append(" is not a non-negative decimal number");
        return Err(e);
    }
    let ghost f = v@.subrange(frac_start as int, n as int);
    let mut q: usize = n;
    assert(f.subrange(0, (n - frac_start) as int) =~= f);
    while q > frac_start && v[q - 1] == '0'
        invariant
            frac_start <= q <= n == v.len(),
            f == v@.subrange(frac_start as int, n as int),
            trim_zeros_end(f) == trim_zeros_end(f.subrange(0, (q - frac_start) as int)),
        decreases q,
    {
        assert(f.subrange(0, (q - frac_start) as int).drop_last() =~= f.subrange(
            0,
            (q - 1 - frac_start) as int,
        ));
        q = q - 1;
    }
    let ghost places = v@.subrange(frac_start as int, q as int);
    assert(f.subrange(0, (q - frac_start) as int) =~= places);
    assert(price_places(t) == places);
    let nplaces: usize = q - frac_start;
    if nplaces as u64 > decimals as u64 {
        let mut e = String::from_str("price ");
        let qs = debug_str(ts);
        e.append(qs.as_str());
        e.append(" has more than ");
        write_int(&mut e, decimals as i128);
        e.append(" decimal places");
        return Err(e);
    }
    let scale = pow10_i128(decimals);
    proof {
        lemma_pow10_positive(decimals as nat);
        lemma_pow10_positive((decimals - nplaces) as nat);
        lemma_pow10_add(nplaces as nat, (decimals - nplaces) as nat);
        assert(all_digits(places)) by {
            assert forall|j: int| 0 <= j < places.len() implies crate::text::is_digit(
                #[trigger] places[j],
            ) by {
                assert(places[j] == f[j]);
            }
        }
        lemma_digits_value_bound(places);
        lemma_pow10_monotone(nplaces as nat, 38);
        reveal_with_fuel(pow10, 39);
    }
    let too_large = {
        let mut e = String::from_str("price ");
        let qs = debug_str(ts);
        e.append(qs.as_str());
        e.append(" is too large");
        e
    };
    let whole = match digits_value_upto(&v, 0, p, MAX_PRICE_TICKS as i128) {
        Some(w) => w,
        None => {
            proof {
                assert(digits_value(price_int_part(t)) * pow10(decimals as nat) >= digits_value(
                    price_int_part(t),
                )) by (nonlinear_arith)
                    requires
                        pow10(decimals as nat) >= 1,
                ;
                assert(digits_value(places) * pow10((decimals - nplaces) as nat) >= 0)
                    by (nonlinear_arith);
            }
            return Err(too_large);
        },
    };
    let places_value = digits_value_short(&v, frac_start, q);
    let low = pow10_i128(decimals - nplaces as u32);
    proof {
        assert(places_value * low < pow10(nplaces as nat) * low) by (nonlinear_arith)
            requires
                places_value < pow10(nplaces as nat),
                low >= 1,
        ;
        lemma_pow10_monotone(decimals as nat, 38);
    }
    let frac = places_value * low;
    let ticks = match whole.checked_mul(scale) {
        Some(x) => match x.checked_add(frac) {
            Some(y) => y,
            None => {
                return Err(too_large);
            },
        },
        None => {
            assert(places_value * pow10((decimals - nplaces) as nat) >= 0) by (nonlinear_arith)
                requires places_value >= 0, pow10((decimals - nplaces) as nat) >= 1;
            return Err(too_large);
        },
    };
    if ticks > MAX_PRICE_TICKS as i128 {
        return Err(too_large);
    }
    Ok(ticks as i64)
}

/// The text `format_ticks` gives: the amount in units with `decimals` places.
pub open spec fn spec_format_ticks(ticks: int, decimals: nat) -> Seq<char> {
    if decimals == 0 {
        int_text(ticks)
    } else {
        let a: int = if ticks < 0 { -ticks } else { ticks };
        let scale: int = pow10(decimals) as int;
        (if ticks < 0 { "-"@ } else { Seq::<char>::empty() }) + decimal((a / scale) as nat) + "."@
            + pad_zeros(decimal((a % scale) as nat), decimals)
    }
}

/// Looking for `c` from `i` in `a + b` stops at the end of `a` when `a` has no
/// `c` from `i` on and `b` starts with it.
proof fn lemma_find_after(a: Seq<char>, b: Seq<char>, c: char, i: int)
    requires
        0 <= i <= a.len(),
        forall|k: int| i <= k < a.len() ==> a[k] != c,
        b.len() > 0,
        b[0] == c,
    ensures
        find_char(a + b, c, i) == a.len(),
    decreases a.len() - i,
{
    if i < a.len() {
        lemma_find_after(a, b, c, i + 1);
    } else {
        assert((a + b)[i] == b[0]);
    }
}

/// Looking for `c` from `i` in text without it runs to the end.
proof fn lemma_find_none(t: Seq<char>, c: char, i: int)
    requires
        0 <= i <= t.len(),
        forall|k: int| i <= k < t.len() ==> t[k] != c,
    ensures
        find_char(t, c, i) == t.len(),
    decreases t.len() - i,
{
    if i < t.len() {
        lemma_find_none(t, c, i + 1);
    }
}

/// Dropping trailing zeros divides what digits spell by ten for each zero.
proof fn lemma_trim_zeros_value(s: Seq<char>)
    requires
        all_digits(s),
    ensures
        trim_zeros_end(s).len() <= s.len(),
        all_digits(trim_zeros_end(s)),
        digits_value(trim_zeros_end(s)) * pow10((s.len() - trim_zeros_end(s).len()) as nat)
            == digits_value(s),
    decreases s.len(),
{
    let z = trim_zeros_end(s);
    if s.len() > 0 && s.last() == '0' {
        let s1 = s.drop_last();
        assert(all_digits(s1));
        lemma_trim_zeros_value(s1);
        assert(z == trim_zeros_end(s1));
        let k = (s1.len() - z.len()) as nat;
        let k1 = (s.len() - z.len()) as nat;
        assert(k1 == k + 1);
        assert(pow10(k1) == 10 * pow10(k));
        assert(digits_value(s) == digits_value(s1) * 10 + digit_value(s.last()));
        assert(digit_value(s.last()) == 0);
        assert(digits_value(z) * pow10(k) == digits_value(s1));
        assert(digits_value(z) * (10 * pow10(k)) == 10 * (digits_value(z) * pow10(k))) by (nonlinear_arith);
        assert(digits_value(z) * pow10(k1) == digits_value(s));
        assert(trim_zeros_end(s) == z);
    } else {
        assert(z == s);
        assert(pow10(0) == 1);
        assert((s.len() - z.len()) as nat == 0);
        assert(digits_value(z) * pow10((s.len() - z.len()) as nat) == digits_value(s));
    }
}

/// A number below `10^k` takes at most `k` digits.
proof fn lemma_decimal_len(n: nat, k: nat)
    requires
        k >= 1,
        n < pow10(k),
    ensures
        decimal(n).len() <= k,
    decreases n,
{
    if n >= 10 {
        if k == 1 {
            assert(pow10(1) == 10 * pow10(0));
            assert(false);
        }
        let k1 = (k - 1) as nat;
        assert(pow10(k) == 10 * pow10(k1));
        assert(n / 10 < pow10(k1)) by (nonlinear_arith)
            requires
                n < 10 * pow10(k1),
        ;
        lemma_decimal_len(n / 10, k1);
    }
}

/// Reading back the text `format_ticks` gives for a price in range gives the
/// same number of ticks.
pub proof fn law_price_text_round_trip(p: i64, dec: nat)
    requires
        0 <= p <= MAX_PRICE_TICKS,
    ensures
        spec_parse_price(spec_format_ticks(p as int, dec), dec) == Ok::<i64, Seq<char>>(p),
{
    let t = spec_format_ticks(p as int, dec);
    lemma_decimal(p as nat);
    if dec == 0 {
        assert(t == decimal(p as nat));
        assert(!is_white(t[0]));
        assert(!is_white(t.last()));
        assert(trim(t) == t);
        lemma_find_none(t, '.', 0);
        assert(price_int_part(t) =~= t);
        assert(price_frac_part(t) =~= Seq::<char>::empty());
        assert(trim_zeros_end(Seq::<char>::empty()) =~= Seq::<char>::empty());
        assert(digits_value(Seq::<char>::empty()) == 0);
        assert(pow10(0) == 1);
        assert(pow10(dec) == 1);
        assert(price_places(t) =~= Seq::<char>::empty());
        assert(digits_value(price_int_part(t)) == p);
        assert(price_ticks(t, dec) == p);
    } else {
        let scale = pow10(dec);
        lemma_pow10_positive(dec);
        let q = (p as int / scale as int) as nat;
        let r = (p as int % scale as int) as nat;
        assert(p == scale * q + r && r < scale) by (nonlinear_arith)
            requires
                scale >= 1,
                p >= 0,
                q == p as int / scale as int,
                r == p as int % scale as int,
        ;
        lemma_decimal(q);
        lemma_decimal(r);
        lemma_decimal_len(r, dec);
        lemma_pad_zeros(decimal(r), dec);
        let a = decimal(q);
        let f = pad_zeros(decimal(r), dec);
        reveal_strlit(".");
        assert(t =~= a + "."@ + f);
        assert(!is_white(t[0])) by {
            assert(t[0] == a[0]);
        }
        assert(!is_white(t.last())) by {
            assert(t.last() == f.last());
            assert(is_digit(f[f.len() - 1]));
        }
        assert(trim(t) == t);
        assert(forall|k: int| 0 <= k < a.len() ==> a[k] != '.') by {
            assert forall|k: int| 0 <= k < a.len() implies a[k] != '.' by {
                assert(is_digit(a[k]));
            }
        }
        assert(t =~= a + ("."@ + f));
        lemma_find_after(a, "."@ + f, '.', 0);
        assert(price_int_part(t) =~= a);
        assert(price_frac_part(t) =~= f);
        lemma_trim_zeros_value(f);
        let z = trim_zeros_end(f);
        assert(price_places(t) == z);
        assert(digits_value(z) * pow10((dec - z.len()) as nat) == r);
        assert(price_ticks(t, dec) == q * scale + r);
        assert(q * scale == scale * q) by (nonlinear_arith);
    }
}

/// The text of a price in range: digits with at most one `.`, starting and
/// ending with a digit.
pub proof fn lemma_format_ticks_chars(p: i64, dec: nat)
    requires
        0 <= p <= MAX_PRICE_TICKS,
    ensures
        spec_format_ticks(p as int, dec).len() > 0,
        is_digit(spec_format_ticks(p as int, dec)[0]),
        is_digit(spec_format_ticks(p as int, dec).last()),
        forall|k: int|
            0 <= k < spec_format_ticks(p as int, dec).len() ==> is_digit(
                #[trigger] spec_format_ticks(p as int, dec)[k],
            ) || spec_format_ticks(p as int, dec)[k] == '.',
{
    let t = spec_format_ticks(p as int, dec);
    lemma_decimal(p as nat);
    if dec > 0 {
        let scale = pow10(dec);
        lemma_pow10_positive(dec);
        let q = (p as int / scale as int) as nat;
        let r = (p as int % scale as int) as nat;
        assert(r < scale) by (nonlinear_arith)
            requires
                scale >= 1,
                r == p as int % scale as int,
        ;
        lemma_decimal(q);
        lemma_decimal(r);
        lemma_decimal_len(r, dec);
        lemma_pad_zeros(decimal(r), dec);
        let a = decimal(q);
        let f = pad_zeros(decimal(r), dec);
        reveal_strlit(".");
        assert(t =~= a + "."@ + f);
        assert(t[0] == a[0]);
        assert(t.last() == f[f.len() - 1]);
        assert forall|k: int| 0 <= k < t.len() implies is_digit(#[trigger] t[k]) || t[k] == '.' by {
            if k < a.len() {
                assert(t[k] == a[k]);
            } else if k > a.len() {
                assert(t[k] == f[k - a.len() - 1]);
            }
        }
    }
}

/// A price written as digits `i`, then, when `f` is not empty, a `.` and the
/// digits `f` (at most `dec` of them), is worth `i * 10^dec + f * 10^(dec - |f|)`
/// ticks: accepted when that is at most `MAX_PRICE_TICKS`, refused otherwise.
/// A whole number is scaled like one written with a fraction.
pub proof fn law_price_value(i: Seq<char>, f: Seq<char>, dec: nat)
    requires
        i.len() > 0,
        all_digits(i),
        all_digits(f),
        f.len() <= dec,
    ensures
        ({
            let t = if f.len() == 0 { i } else { i + "."@ + f };
            let v = digits_value(i) * pow10(dec) + digits_value(f) * pow10((dec - f.len()) as nat);
            &&& v <= MAX_PRICE_TICKS ==> spec_parse_price(t, dec) == Ok::<i64, Seq<char>>(v as i64)
            &&& v > MAX_PRICE_TICKS ==> spec_parse_price(t, dec) is Err
        }),
{
    let t = if f.len() == 0 { i } else { i + "."@ + f };
    reveal_strlit(".");
    assert(is_digit(i[0]));
    assert(!is_white(t[0])) by {
        assert(t[0] == i[0]);
    }
    if f.len() == 0 {
        assert(!is_white(t.last())) by {
            assert(is_digit(i[i.len() - 1]));
        }
        assert(trim_start(t) == t);
        assert(trim_end(t) == t);
        assert forall|k: int| 0 <= k < t.len() implies t[k] != '.' by {
            assert(is_digit(t[k]));
        }
        lemma_find_none(t, '.', 0);
        assert(price_int_part(t) =~= i);
        assert(price_frac_part(t) =~= f);
    } else {
        assert(t.last() == f.last());
        assert(is_digit(f[f.len() - 1]));
        assert(trim_start(t) == t);
        assert(trim_end(t) == t);
        assert forall|k: int| 0 <= k < i.len() implies i[k] != '.' by {
            assert(is_digit(i[k]));
        }
        assert(t =~= i + ("."@ + f));
        lemma_find_after(i, "."@ + f, '.', 0);
        assert(price_int_part(t) =~= i);
        assert(price_frac_part(t) =~= f);
    }
    assert(price_well_formed(t));
    lemma_trim_zeros_value(f);
    let z = trim_zeros_end(f);
    assert(price_places(t) == z);
    let a = (dec - f.len()) as nat;
    let b = (f.len() - z.len()) as nat;
    assert((dec - z.len()) as nat == a + b);
    lemma_pow10_add(b, a);
    assert(digits_value(z) * pow10(a + b) == digits_value(f) * pow10(a)) by (nonlinear_arith)
        requires
            pow10(b) * pow10(a) == pow10(a + b),
            digits_value(z) * pow10(b) == digits_value(f),
    ;
    assert(price_ticks(t, dec) == digits_value(i) * pow10(dec) + digits_value(f) * pow10(a));
}

/// A whole number is accepted with a `.0` after it exactly when it is accepted
/// without, and then worth the same number of ticks.
pub proof fn law_price_whole_number(i: Seq<char>, dec: nat)
    requires
        i.len() > 0,
        all_digits(i),
    ensures
        spec_parse_price(i + "."@ + "0"@, dec) is Ok <==> spec_parse_price(i, dec) is Ok,
        spec_parse_price(i, dec) is Ok ==> spec_parse_price(i + "."@ + "0"@, dec) == spec_parse_price(i, dec),
{
    reveal_strlit(".");
    reveal_strlit("0");
    let z = "0"@;
    assert(z =~= seq!['0']);
    assert(all_digits(z));
    assert(trim_zeros_end(Seq::<char>::empty()) =~= Seq::<char>::empty());
    assert(trim_zeros_end(z) =~= Seq::<char>::empty()) by {
        assert(z.len() > 0 && z.last() == '0');
        assert(z.drop_last() =~= Seq::<char>::empty());
    }
    let t = i + "."@ + z;
    assert(t.last() == '0');
    assert(!is_white(t[0])) by {
        assert(t[0] == i[0]);
        assert(is_digit(i[0]));
    }
    assert(trim_start(t) == t);
    assert(trim_end(t) == t);
    assert forall|k: int| 0 <= k < i.len() implies i[k] != '.' by {
        assert(is_digit(i[k]));
    }
    assert(t =~= i + ("."@ + z));
    lemma_find_after(i, "."@ + z, '.', 0);
    assert(price_int_part(t) =~= i);
    assert(price_frac_part(t) =~= z);
    assert(price_places(t) =~= Seq::<char>::empty());
    assert(!is_white(i.last())) by {
        assert(is_digit(i[i.len() - 1]));
    }
    assert(trim_start(i) == i);
    assert(trim_end(i) == i);
    assert forall|k: int| 0 <= k < i.len() implies i[k] != '.' by {
        assert(is_digit(i[k]));
    }
    lemma_find_none(i, '.', 0);
    assert(price_int_part(i) =~= i);
    assert(price_frac_part(i) =~= Seq::<char>::empty());
    assert(trim_zeros_end(Seq::<char>::empty()) =~= Seq::<char>::empty());
    assert(price_places(i) =~= Seq::<char>::empty());
    assert(price_ticks(t, dec) == price_ticks(i, dec));
}

/// Where the first `c` from `i` on stands: none before it, and `c` there
/// unless it is the end.
proof fn lemma_find_char_facts(t: Seq<char>, c: char, i: int)
    requires
        0 <= i <= t.len(),
    ensures
        i <= find_char(t, c, i) <= t.len(),
        forall|k: int| i <= k < find_char(t, c, i) ==> t[k] != c,
        find_char(t, c, i) < t.len() ==> t[find_char(t, c, i)] == c,
    decreases t.len() - i,
{
    if i < t.len() && t[i] != c {
        lemma_find_char_facts(t, c, i + 1);
    }
}

/// Adding a zero at the end of a price's fraction (or a `.0` to a whole
/// number) changes neither whether it is accepted nor what it is worth.
pub proof fn law_price_trailing_zero(i: Seq<char>, f: Seq<char>, dec: nat)
    requires
        i.len() > 0,
        all_digits(i),
        all_digits(f),
    ensures
        ({
            let t1 = if f.len() == 0 { i } else { i + "."@ + f };
            let t2 = i + "."@ + f.push('0');
            &&& spec_parse_price(t2, dec) is Ok <==> spec_parse_price(t1, dec) is Ok
            &&& spec_parse_price(t1, dec) is Ok ==> spec_parse_price(t2, dec) == spec_parse_price(t1, dec)
        }),
{
    reveal_strlit(".");
    let t1 = if f.len() == 0 { i } else { i + "."@ + f };
    let g = f.push('0');
    let t2 = i + "."@ + g;
    assert(all_digits(g));
    assert forall|k: int| 0 <= k < i.len() implies i[k] != '.' by {
        assert(is_digit(i[k]));
    }
    assert(is_digit(i[0]));
    assert(!is_white(t2[0])) by {
        assert(t2[0] == i[0]);
    }
    assert(t2.last() == '0');
    assert(trim_start(t2) == t2);
    assert(trim_end(t2) == t2);
    assert(t2 =~= i + ("."@ + g));
    lemma_find_after(i, "."@ + g, '.', 0);
    assert(price_int_part(t2) =~= i);
    assert(price_frac_part(t2) =~= g);
    assert(g.drop_last() =~= f);
    assert(trim_zeros_end(g) == trim_zeros_end(f));
    assert(!is_white(t1[0])) by {
        assert(t1[0] == i[0]);
    }
    if f.len() == 0 {
        assert(!is_white(t1.last())) by {
            assert(is_digit(i[i.len() - 1]));
        }
        assert(trim_start(t1) == t1);
        assert(trim_end(t1) == t1);
        assert forall|k: int| 0 <= k < t1.len() implies t1[k] != '.' by {
            assert(is_digit(t1[k]));
        }
        lemma_find_none(t1, '.', 0);
        assert(price_int_part(t1) =~= i);
        assert(price_frac_part(t1) =~= f);
    } else {
        assert(t1.last() == f.last());
        assert(is_digit(f[f.len() - 1]));
        assert(trim_start(t1) == t1);
        assert(trim_end(t1) == t1);
        assert(t1 =~= i + ("."@ + f));
        lemma_find_after(i, "."@ + f, '.', 0);
        assert(price_int_part(t1) =~= i);
        assert(price_frac_part(t1) =~= f);
    }
    assert(price_places(t1) == price_places(t2));
    assert(price_well_formed(t1) && price_well_formed(t2));
    assert(price_ticks(t1, dec) == price_ticks(t2, dec));
}

/// A price is refused when, after trimming, it is empty, starts or ends with
/// a `.`, holds two `.`, or holds a character that is neither a digit nor `.`.
pub proof fn law_price_refuses_malformed(s: Seq<char>, dec: nat)
    ensures
        ({
            let t = trim(s);
            ||| t.len() == 0
            ||| t[0] == '.'
            ||| t.last() == '.'
            ||| (exists|a: int, b: int| 0 <= a < b < t.len() && t[a] == '.' && t[b] == '.')
            ||| (exists|k: int| 0 <= k < t.len() && !is_digit(t[k]) && t[k] != '.')
        }) ==> spec_parse_price(s, dec) is Err,
{
    let t = trim(s);
    lemma_find_char_facts(t, '.', 0);
    let p = find_char(t, '.', 0);
    if t.len() > 0 && t[0] == '.' {
        assert(p == 0);
        assert(price_int_part(t).len() == 0);
    }
    if exists|a: int, b: int| 0 <= a < b < t.len() && t[a] == '.' && t[b] == '.' {
        let (a, b) = choose|a: int, b: int| 0 <= a < b < t.len() && t[a] == '.' && t[b] == '.';
        assert(p <= a);
        assert(p < t.len());
        let f = price_frac_part(t);
        assert(f[b - p - 1] == t[b]);
        assert(!is_digit(f[b - p - 1]));
        assert(f.len() > 0);
    }
    if exists|k: int| 0 <= k < t.len() && !is_digit(t[k]) && t[k] != '.' {
        let k = choose|k: int| 0 <= k < t.len() && !is_digit(t[k]) && t[k] != '.';
        if k < p {
            assert(price_int_part(t)[k] == t[k]);
        } else {
            assert(k > p);
            let f = price_frac_part(t);
            assert(f[k - p - 1] == t[k]);
            assert(f.len() > 0);
        }
    }
}

/// Formats ticks back to a decimal string with `decimals` fractional digits.
pub fn format_ticks(ticks: i128, decimals: u32) -> (r: String)
    requires
        decimals == 0 || (decimals <= 38 && ticks != i128::MIN),
    ensures
        r@ == spec_format_ticks(ticks as int, decimals as nat),
{
    let mut out = String::new();
    if decimals == 0 {
        write_int(&mut out, ticks);
        return out;
    }
    let scale = pow10_i128(decimals);
    proof {
        lemma_pow10_positive(decimals as nat);
    }
    if ticks < 0 {
        out.append("-");
    }
    let abs: i128 = if ticks < 0 {
        -ticks
    } else {
        ticks
    };
    write_decimal(&mut out, (abs / scale) as u128);
    out.append(".");
    crate::text::write_padded(&mut out, abs % scale, decimals as usize);
    assert(out@ =~= spec_format_ticks(ticks as int, decimals as nat));
    out
}

} // verus!
