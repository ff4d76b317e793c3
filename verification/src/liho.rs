//! The spreadsheet baseline: lowest-in, highest-out.
//!
//! Purchases are taken cheapest first. Each one is matched against the
//! highest-priced sales still available inside its window, as many shares as
//! possible, before moving on. Ties break by date and then by input order.

use vstd::prelude::*;
use crate::date::{date_before, date_lt, spec_within, WindowRule};
use crate::duality::{
    dual_covers, dual_feasible, exact_pair, feasible_matching, law_verified_total_is_optimal,
    law_weak_duality, lemma_claimed_is_value, pair_matchable,
};
use crate::solver::{dates_ok, dual_value, solution_ok, Solution};
use crate::trade::{
    claimed_profit, gain_fits, pair_gain, shares_matched, spec_pair_gain, trade_in_limits,
    trades_in_limits, MatchedPair, Side, Trade, MAX_PRICE_TICKS, MAX_SHARES, MAX_TRADES,
};
use crate::verify::{pair_value, pairs_value, spec_verify};

verus! {

#[derive(Clone, Debug, PartialEq, Eq)]
pub struct GreedyResult {
    pub pairs: Vec<MatchedPair>,
    pub total: i128,
}

/// The price by which LIHO ranks a trade: purchases cheapest first, sales
/// dearest first.
pub open spec fn rank_price(t: Trade) -> int {
    if t.side == Side::Buy {
        t.price as int
    } else {
        -t.price
    }
}

/// LIHO takes trade `a` before trade `b`: by rank price, then date, then input order.
pub open spec fn taken_before(ts: Seq<Trade>, a: int, b: int) -> bool {
    let x = ts[a];
    let y = ts[b];
    ||| rank_price(x) < rank_price(y)
    ||| rank_price(x) == rank_price(y) && date_lt(x.date, y.date)
    ||| rank_price(x) == rank_price(y) && x.date == y.date && a < b
}

/// Each entry of `idx` is taken before every later one.
pub open spec fn taken_in_order(ts: Seq<Trade>, idx: Seq<usize>) -> bool {
    forall|j: int, k: int|
        0 <= j < k < idx.len() ==> #[trigger] taken_before(ts, idx[j] as int, idx[k] as int)
}

/// `idx` lists every trade of `side`, and nothing else, in the order LIHO takes them.
pub open spec fn is_order(ts: Seq<Trade>, side: Side, idx: Seq<usize>) -> bool {
    &&& forall|k: int| 0 <= k < idx.len() ==> #[trigger] idx[k] < ts.len() && ts[idx[k] as int].side == side
    &&& forall|i: usize| i < ts.len() && ts[i as int].side == side ==> #[trigger] idx.contains(i)
    &&& taken_in_order(ts, idx)
}

/// The order in which LIHO takes the trades of `side`.
pub open spec fn liho_order(ts: Seq<Trade>, side: Side) -> Seq<usize> {
    choose|idx: Seq<usize>| is_order(ts, side, idx)
}

/// Two lists in LIHO order with the same entries are the same list.
proof fn lemma_taken_in_order_unique(ts: Seq<Trade>, a: Seq<usize>, b: Seq<usize>)
    requires
        taken_in_order(ts, a),
        taken_in_order(ts, b),
        forall|x: usize| a.contains(x) <==> b.contains(x),
    ensures
        a =~= b,
    decreases a.len(),
{
    if a.len() == 0 {
        if b.len() > 0 {
            assert(b.contains(b[0]));
        }
    } else {
        assert(a.contains(a[0]));
        assert(b.contains(a[0]));
        let m = choose|m: int| 0 <= m < b.len() && b[m] == a[0];
        assert(b.contains(b[0]));
        assert(a.contains(b[0]));
        let k = choose|k: int| 0 <= k < a.len() && a[k] == b[0];
        if a[0] != b[0] {
            assert(taken_before(ts, a[0] as int, a[k] as int));
            assert(taken_before(ts, b[0] as int, b[m] as int));
        }
        let a1 = a.drop_first();
        let b1 = b.drop_first();
        assert forall|j: int, l: int| 0 <= j < l < a1.len() implies #[trigger] taken_before(
            ts,
            a1[j] as int,
            a1[l] as int,
        ) by {
            assert(taken_before(ts, a[j + 1] as int, a[l + 1] as int));
        }
        assert forall|j: int, l: int| 0 <= j < l < b1.len() implies #[trigger] taken_before(
            ts,
            b1[j] as int,
            b1[l] as int,
        ) by {
            assert(taken_before(ts, b[j + 1] as int, b[l + 1] as int));
        }
        assert forall|x: usize| a1.contains(x) <==> b1.contains(x) by {
            if a1.contains(x) {
                let j = choose|j: int| 0 <= j < a1.len() && a1[j] == x;
                assert(a[j + 1] == x);
                assert(taken_before(ts, a[0] as int, a[j + 1] as int));
                assert(a.contains(x));
                assert(b.contains(x));
                let l = choose|l: int| 0 <= l < b.len() && b[l] == x;
                assert(l != 0);
                assert(b1[l - 1] == x);
            }
            if b1.contains(x) {
                let j = choose|j: int| 0 <= j < b1.len() && b1[j] == x;
                assert(b[j + 1] == x);
                assert(taken_before(ts, b[0] as int, b[j + 1] as int));
                assert(b.contains(x));
                assert(a.contains(x));
                let l = choose|l: int| 0 <= l < a.len() && a[l] == x;
                assert(l != 0);
                assert(a1[l - 1] == x);
            }
        }
        lemma_taken_in_order_unique(ts, a1, b1);
        assert(a =~= seq![a[0]] + a1);
        assert(b =~= seq![b[0]] + b1);
    }
}

/// There is one LIHO order per side, and `liho_order` is it.
proof fn lemma_order_is_liho_order(ts: Seq<Trade>, side: Side, idx: Seq<usize>)
    requires
        is_order(ts, side, idx),
    ensures
        liho_order(ts, side) == idx,
{
    let o = liho_order(ts, side);
    assert(is_order(ts, side, o));
    assert forall|x: usize| o.contains(x) <==> idx.contains(x) by {
        if o.contains(x) {
            let j = choose|j: int| 0 <= j < o.len() && o[j] == x;
            assert(o[j] < ts.len() && ts[o[j] as int].side == side);
        }
        if idx.contains(x) {
            let j = choose|j: int| 0 <= j < idx.len() && idx[j] == x;
            assert(idx[j] < ts.len() && ts[idx[j] as int].side == side);
        }
    }
    lemma_taken_in_order_unique(ts, o, idx);
}

/// Whether LIHO takes trade `a` before trade `b`.
fn takes_first(trades: &[Trade], a: usize, b: usize) -> (r: bool)
    requires
        a < trades.len(),
        b < trades.len(),
    ensures
        r == taken_before(trades@, a as int, b as int),
{
    let x = &trades[a];
    let y = &trades[b];
    let rx: i128 = if x.side == Side::Buy {
        x.price as i128
    } else {
        -(x.price as i128)
    };
    let ry: i128 = if y.side == Side::Buy {
        y.price as i128
    } else {
        -(y.price as i128)
    };
    rx < ry || (rx == ry && date_before(x.date, y.date)) || (rx == ry && x.date == y.date && a < b)
}

/// Two different trades: one of them is taken before the other.
proof fn lemma_taken_total(ts: Seq<Trade>, a: int, b: int)
    requires
        a != b,
    ensures
        taken_before(ts, a, b) || taken_before(ts, b, a),
{
    let x = ts[a].date;
    let y = ts[b].date;
    if !date_lt(x, y) && !date_lt(y, x) {
        assert(x == y);
    }
}

/// Two lists in LIHO order with no entry in common, merged into one in LIHO order.
fn merge_order(trades: &[Trade], a: &Vec<usize>, b: &Vec<usize>) -> (r: Vec<usize>)
    requires
        forall|k: int| 0 <= k < a@.len() ==> #[trigger] a@[k] < trades@.len(),
        forall|k: int| 0 <= k < b@.len() ==> #[trigger] b@[k] < trades@.len(),
        taken_in_order(trades@, a@),
        taken_in_order(trades@, b@),
        forall|x: usize| #[trigger] a@.contains(x) ==> !b@.contains(x),
    ensures
        forall|k: int| 0 <= k < r@.len() ==> #[trigger] r@[k] < trades@.len(),
        taken_in_order(trades@, r@),
        forall|x: usize| #[trigger] r@.contains(x) <==> a@.contains(x) || b@.contains(x),
{
    let ghost ts = trades@;
    let mut out: Vec<usize> = Vec::new();
    let mut i: usize = 0;
    let mut j: usize = 0;
    while i < a.len() || j < b.len()
        invariant
            ts == trades@,
            i <= a.len(),
            j <= b.len(),
            out@.len() == i + j,
            forall|k: int| 0 <= k < a@.len() ==> #[trigger] a@[k] < ts.len(),
            forall|k: int| 0 <= k < b@.len() ==> #[trigger] b@[k] < ts.len(),
            forall|k: int| 0 <= k < out@.len() ==> #[trigger] out@[k] < ts.len(),
            taken_in_order(ts, a@),
            taken_in_order(ts, b@),
            forall|x: usize| #[trigger] a@.contains(x) ==> !b@.contains(x),
            taken_in_order(ts, out@),
            forall|x: usize|
                #[trigger] out@.contains(x) <==> a@.take(i as int).contains(x) || b@.take(j as int).contains(x),
            out@.len() > 0 && i < a.len() ==> taken_before(ts, out@.last() as int, a@[i as int] as int),
            out@.len() > 0 && j < b.len() ==> taken_before(ts, out@.last() as int, b@[j as int] as int),
        decreases a.len() + b.len() - i - j,
    {
        let ghost before = out@;
        let ghost i0 = i as int;
        let ghost j0 = j as int;
        let take_a = j >= b.len() || (i < a.len() && takes_first(trades, a[i], b[j]));
        let y = if take_a {
            a[i]
        } else {
            b[j]
        };
        if take_a {
            i = i + 1;
        } else {
            j = j + 1;
        }
        out.push(y);
        proof {
            assert(out@ == before.push(y));
            if take_a {
                assert(a@.take(i as int) =~= a@.take(i0).push(y));
                assert(b@.take(j as int) == b@.take(j0));
                if i < a.len() {
                    assert(taken_before(ts, a@[i0] as int, a@[i as int] as int));
                }
            } else {
                assert(b@.take(j as int) =~= b@.take(j0).push(y));
                assert(a@.take(i as int) == a@.take(i0));
                if j < b.len() {
                    assert(taken_before(ts, b@[j0] as int, b@[j as int] as int));
                }
                if i0 < a.len() {
                    assert(a@.contains(a@[i0]));
                    assert(b@.contains(y));
                    assert(a@[i0] != y);
                    lemma_taken_total(ts, a@[i0] as int, y as int);
                }
            }
            assert forall|p: int, q: int| 0 <= p < q < out@.len() implies #[trigger] taken_before(
                ts,
                out@[p] as int,
                out@[q] as int,
            ) by {
                if q < before.len() {
                    assert(taken_before(ts, before[p] as int, before[q] as int));
                } else if p < before.len() - 1 {
                    assert(taken_before(ts, before[p] as int, before[before.len() - 1] as int));
                }
            }
            assert forall|x: usize|
                #[trigger] out@.contains(x) <==> a@.take(i as int).contains(x) || b@.take(j as int).contains(x) by {
                if out@.contains(x) && x != y {
                    let k = choose|k: int| 0 <= k < out@.len() && out@[k] == x;
                    assert(before[k] == x);
                    assert(before.contains(x));
                }
                if before.contains(x) {
                    let k = choose|k: int| 0 <= k < before.len() && before[k] == x;
                    assert(out@[k] == x);
                }
                if x == y {
                    assert(out@[before.len() as int] == y);
                }
                if take_a {
                    if a@.take(i as int).contains(x) && x != y {
                        let k = choose|k: int| 0 <= k < i && a@.take(i as int)[k] == x;
                        assert(a@.take(i0)[k] == x);
                    }
                    if a@.take(i0).contains(x) {
                        let k = choose|k: int| 0 <= k < i0 && a@.take(i0)[k] == x;
                        assert(a@.take(i as int)[k] == x);
                    }
                    if x == y {
                        assert(a@.take(i as int)[i0] == y);
                    }
                } else {
                    if b@.take(j as int).contains(x) && x != y {
                        let k = choose|k: int| 0 <= k < j && b@.take(j as int)[k] == x;
                        assert(b@.take(j0)[k] == x);
                    }
                    if b@.take(j0).contains(x) {
                        let k = choose|k: int| 0 <= k < j0 && b@.take(j0)[k] == x;
                        assert(b@.take(j as int)[k] == x);
                    }
                    if x == y {
                        assert(b@.take(j as int)[j0] == y);
                    }
                }
            }
        }
    }
    proof {
        assert(a@.take(a.len() as int) =~= a@);
        assert(b@.take(b.len() as int) =~= b@);
    }
    out
}

/// The entries `c[lo..hi]` of an increasing list of trade positions, in LIHO order.
fn sort_order(trades: &[Trade], c: &Vec<usize>, lo: usize, hi: usize) -> (r: Vec<usize>)
    requires
        lo <= hi <= c.len(),
        forall|k: int| 0 <= k < c@.len() ==> #[trigger] c@[k] < trades@.len(),
        forall|p: int, q: int| 0 <= p < q < c@.len() ==> #[trigger] c@[p] < #[trigger] c@[q],
    ensures
        forall|k: int| 0 <= k < r@.len() ==> #[trigger] r@[k] < trades@.len(),
        taken_in_order(trades@, r@),
        forall|x: usize| #[trigger] r@.contains(x) <==> c@.subrange(lo as int, hi as int).contains(x),
    decreases hi - lo,
{
    if hi - lo <= 1 {
        let mut out: Vec<usize> = Vec::new();
        if hi > lo {
            out.push(c[lo]);
        }
        assert(out@ =~= c@.subrange(lo as int, hi as int));
        return out;
    }
    let mid = lo + (hi - lo) / 2;
    let left = sort_order(trades, c, lo, mid);
    let right = sort_order(trades, c, mid, hi);
    assert forall|x: usize| #[trigger] left@.contains(x) implies !right@.contains(x) by {
        if left@.contains(x) && right@.contains(x) {
            assert(c@.subrange(lo as int, mid as int).contains(x));
            assert(c@.subrange(mid as int, hi as int).contains(x));
            let p = choose|p: int| 0 <= p < mid - lo && c@.subrange(lo as int, mid as int)[p] == x;
            let q = choose|q: int| 0 <= q < hi - mid && c@.subrange(mid as int, hi as int)[q] == x;
            assert(c@[lo + p] == x);
            assert(c@[mid + q] == x);
            assert(c@[lo + p] < c@[mid + q]);
        }
    }
    let r = merge_order(trades, &left, &right);
    assert forall|x: usize| #[trigger] r@.contains(x) <==> c@.subrange(lo as int, hi as int).contains(x) by {
        let whole = c@.subrange(lo as int, hi as int);
        let l = c@.subrange(lo as int, mid as int);
        let h = c@.subrange(mid as int, hi as int);
        if whole.contains(x) {
            let k = choose|k: int| 0 <= k < whole.len() && whole[k] == x;
            if k < mid - lo {
                assert(l[k] == x);
            } else {
                assert(h[k - (mid - lo)] == x);
            }
        }
        if l.contains(x) {
            let k = choose|k: int| 0 <= k < l.len() && l[k] == x;
            assert(whole[k] == x);
        }
        if h.contains(x) {
            let k = choose|k: int| 0 <= k < h.len() && h[k] == x;
            assert(whole[k + (mid - lo)] == x);
        }
    }
    r
}

/// The trades of `side` in the order LIHO takes them.
fn side_order(trades: &[Trade], side: Side) -> (idx: Vec<usize>)
    ensures
        is_order(trades@, side, idx@),
{
    let ghost ts = trades@;
    let mut c: Vec<usize> = Vec::new();
    let mut i: usize = 0;
    while i < trades.len()
        invariant
            ts == trades@,
            i <= trades.len(),
            forall|k: int| 0 <= k < c@.len() ==> #[trigger] c@[k] < i && ts[c@[k] as int].side == side,
            forall|p: int, q: int| 0 <= p < q < c@.len() ==> #[trigger] c@[p] < #[trigger] c@[q],
            forall|j: usize| j < i && ts[j as int].side == side ==> #[trigger] c@.contains(j),
        decreases trades.len() - i,
    {
        if trades[i].side == side {
            let ghost before = c@;
            c.push(i);
            assert forall|j: usize| j < i + 1 && ts[j as int].side == side implies #[trigger] c@.contains(j) by {
                if j == i {
                    assert(c@[before.len() as int] == i);
                } else {
                    assert(before.contains(j));
                    let k = choose|k: int| 0 <= k < before.len() && before[k] == j;
                    assert(c@ == before.push(i));
                    assert(c@[k] == j);
                }
            }
        }
        i = i + 1;
    }
    let idx = sort_order(trades, &c, 0, c.len());
    assert(c@.subrange(0, c@.len() as int) =~= c@);
    assert forall|k: int| 0 <= k < idx@.len() implies #[trigger] idx@[k] < ts.len() && ts[idx@[k] as int].side == side by {
        assert(idx@.contains(idx@[k]));
        assert(c@.contains(idx@[k]));
        let p = choose|p: int| 0 <= p < c@.len() && c@[p] == idx@[k];
    }
    assert forall|j: usize| j < ts.len() && ts[j as int].side == side implies #[trigger] idx@.contains(j) by {
        assert(c@.contains(j));
    }
    idx
}

/// Shares still unmatched per trade, and the pairs made so far.
pub type LihoState = (Seq<u64>, Seq<MatchedPair>);

/// Before any matching: every trade has all its shares left.
pub open spec fn liho_initial(ts: Seq<Trade>) -> LihoState {
    (Seq::new(ts.len(), |i: int| ts[i].shares), Seq::empty())
}

/// Offer sale `s` to purchase `p`: if both have shares left and the pair is
/// matchable, match as many shares as both have.
pub open spec fn liho_step<R: WindowRule + ?Sized>(
    ts: Seq<Trade>,
    rule: &R,
    st: LihoState,
    p: usize,
    s: usize,
) -> LihoState {
    let left = st.0;
    if !(p < ts.len() && s < ts.len()) || left[p as int] == 0 || left[s as int] == 0 {
        st
    } else {
        match spec_pair_gain(rule, ts[p as int], ts[s as int]) {
            None => st,
            Some(g) => {
                let x = if left[p as int] <= left[s as int] {
                    left[p as int]
                } else {
                    left[s as int]
                };
                (
                    left.update(p as int, (left[p as int] - x) as u64).update(
                        s as int,
                        (left[s as int] - x) as u64,
                    ),
                    st.1.push(
                        MatchedPair {
                            purchase: p,
                            sale: s,
                            shares: x,
                            profit: (x * g) as i128,
                        },
                    ),
                )
            },
        }
    }
}

/// Offer the first `j` sales of `sells`, in order, to purchase `p`.
pub open spec fn liho_row<R: WindowRule + ?Sized>(
    ts: Seq<Trade>,
    rule: &R,
    st: LihoState,
    p: usize,
    sells: Seq<usize>,
    j: int,
) -> LihoState
    decreases j,
{
    if j <= 0 {
        st
    } else {
        liho_step(ts, rule, liho_row(ts, rule, st, p, sells, j - 1), p, sells[j - 1])
    }
}

/// Match the first `i` purchases of `buys`, in order, each against all of `sells`.
pub open spec fn liho_run<R: WindowRule + ?Sized>(
    ts: Seq<Trade>,
    rule: &R,
    buys: Seq<usize>,
    sells: Seq<usize>,
    i: int,
) -> LihoState
    decreases i,
{
    if i <= 0 {
        liho_initial(ts)
    } else {
        liho_row(
            ts,
            rule,
            liho_run(ts, rule, buys, sells, i - 1),
            buys[i - 1],
            sells,
            sells.len() as int,
        )
    }
}

/// Where LIHO stands after the first `i` purchases and, for purchase `i`, the
/// first `j` sales.
pub open spec fn liho_state<R: WindowRule + ?Sized>(ts: Seq<Trade>, rule: &R, i: int, j: int) -> LihoState {
    let buys = liho_order(ts, Side::Buy);
    let sells = liho_order(ts, Side::Sell);
    liho_row(ts, rule, liho_run(ts, rule, buys, sells, i), buys[i], sells, j)
}

/// The pairs LIHO reports, in the order it makes them.
pub open spec fn liho_pairs<R: WindowRule + ?Sized>(ts: Seq<Trade>, rule: &R) -> Seq<MatchedPair> {
    let buys = liho_order(ts, Side::Buy);
    let sells = liho_order(ts, Side::Sell);
    liho_run(ts, rule, buys, sells, buys.len() as int).1
}

/// Offering sale `s` to purchase `p` in state `st` computes a gain only when
/// both have shares left, and that gain fits in `i64`.
pub open spec fn step_fits<R: WindowRule + ?Sized>(ts: Seq<Trade>, rule: &R, st: LihoState, p: usize, s: usize) -> bool {
    p < ts.len() && s < ts.len() && st.0[p as int] > 0 && st.0[s as int] > 0 ==> gain_fits(
        rule,
        ts[p as int],
        ts[s as int],
    )
}

/// The first `j` offers of purchase `p`'s row from `st` compute gains that fit.
pub open spec fn steps_fit<R: WindowRule + ?Sized>(
    ts: Seq<Trade>,
    rule: &R,
    st: LihoState,
    p: usize,
    sells: Seq<usize>,
    j: int,
) -> bool {
    forall|l: int|
        #![trigger liho_row(ts, rule, st, p, sells, l)]
        0 <= l < j ==> step_fits(ts, rule, liho_row(ts, rule, st, p, sells, l), p, sells[l])
}

/// The rows of the first `i` purchases compute gains that fit.
pub open spec fn runs_fit<R: WindowRule + ?Sized>(
    ts: Seq<Trade>,
    rule: &R,
    buys: Seq<usize>,
    sells: Seq<usize>,
    i: int,
) -> bool {
    forall|k: int|
        #![trigger liho_run(ts, rule, buys, sells, k)]
        0 <= k < i ==> steps_fit(ts, rule, liho_run(ts, rule, buys, sells, k), buys[k], sells, sells.len() as int)
}

/// Every gain LIHO computes fits in `i64` and every running total it forms
/// fits in `i128`.
pub open spec fn liho_fits<R: WindowRule + ?Sized>(ts: Seq<Trade>, rule: &R) -> bool {
    &&& runs_fit(
        ts,
        rule,
        liho_order(ts, Side::Buy),
        liho_order(ts, Side::Sell),
        liho_order(ts, Side::Buy).len() as int,
    )
    &&& forall|i: int, j: int|
        0 <= i < liho_order(ts, Side::Buy).len() && 0 <= j <= liho_order(ts, Side::Sell).len()
            ==> #[trigger] claimed_profit(liho_state(ts, rule, i, j).1) <= i128::MAX
}

/// The bookkeeping LIHO keeps: shares left plus shares matched is each
/// trade's shares, and every pair is matchable, non-empty and earns its profit.
pub open spec fn state_ok<R: WindowRule + ?Sized>(ts: Seq<Trade>, rule: &R, st: LihoState) -> bool {
    &&& st.0.len() == ts.len()
    &&& forall|i: int| 0 <= i < ts.len() ==> #[trigger] shares_matched(st.1, i) + st.0[i] == ts[i].shares
    &&& forall|k: int|
        0 <= k < st.1.len() ==> pair_matchable(ts, rule, #[trigger] st.1[k]) && st.1[k].profit
            == pair_value(ts, rule, st.1[k]) && st.1[k].shares > 0
}

pub open spec fn gains_fit<R: WindowRule + ?Sized>(ts: Seq<Trade>, rule: &R) -> bool {
    forall|p: int, s: int|
        0 <= p < ts.len() && 0 <= s < ts.len() ==> gain_fits(rule, #[trigger] ts[p], #[trigger] ts[s])
}

proof fn lemma_initial_ok<R: WindowRule + ?Sized>(ts: Seq<Trade>, rule: &R)
    ensures
        state_ok(ts, rule, liho_initial(ts)),
{
    assert forall|i: int| 0 <= i < ts.len() implies #[trigger] shares_matched(liho_initial(ts).1, i)
        + liho_initial(ts).0[i] == ts[i].shares by {
    }
}

/// When every gain fits, so does every gain LIHO computes.
proof fn lemma_gains_runs_fit<R: WindowRule + ?Sized>(ts: Seq<Trade>, rule: &R, buys: Seq<usize>, sells: Seq<usize>, i: int)
    requires
        gains_fit(ts, rule),
    ensures
        runs_fit(ts, rule, buys, sells, i),
{
    assert forall|k: int| 0 <= k < i implies #[trigger] steps_fit(
        ts,
        rule,
        liho_run(ts, rule, buys, sells, k),
        buys[k],
        sells,
        sells.len() as int,
    ) by {
        let st = liho_run(ts, rule, buys, sells, k);
        assert forall|l: int| 0 <= l < sells.len() implies step_fits(
            ts,
            rule,
            #[trigger] liho_row(ts, rule, st, buys[k], sells, l),
            buys[k],
            sells[l],
        ) by {
            if buys[k] < ts.len() && sells[l] < ts.len() {
                assert(gain_fits(rule, ts[buys[k] as int], ts[sells[l] as int]));
            }
        }
    }
}

proof fn lemma_step_ok<R: WindowRule + ?Sized>(ts: Seq<Trade>, rule: &R, st: LihoState, p: usize, s: usize)
    requires
        state_ok(ts, rule, st),
        step_fits(ts, rule, st, p, s),
    ensures
        state_ok(ts, rule, liho_step(ts, rule, st, p, s)),
{
    let left = st.0;
    if !(p < ts.len() && s < ts.len()) || left[p as int] == 0 || left[s as int] == 0 {
    } else if let Some(g) = spec_pair_gain(rule, ts[p as int], ts[s as int]) {
        let x = if left[p as int] <= left[s as int] {
            left[p as int]
        } else {
            left[s as int]
        };
        let nx = liho_step(ts, rule, st, p, s);
        let q = MatchedPair { purchase: p, sale: s, shares: x, profit: (x * g) as i128 };
        assert(gain_fits(rule, ts[p as int], ts[s as int]));
        assert(0 < x * g <= u64::MAX * i64::MAX) by (nonlinear_arith)
            requires
                0 < x <= u64::MAX,
                0 < g <= i64::MAX,
        ;
        assert(nx.1 == st.1.push(q));
        assert(nx.1.drop_last() =~= st.1);
        assert(nx.1.last() == q);
        assert(p != s);
        assert(q.profit == x * g);
        assert forall|i: int| 0 <= i < ts.len() implies #[trigger] shares_matched(nx.1, i) + nx.0[i]
            == ts[i].shares by {
            assert(shares_matched(st.1, i) + st.0[i] == ts[i].shares);
            assert(shares_matched(nx.1, i) == shares_matched(st.1, i) + (if p == i {
                x as int
            } else {
                0
            }) + (if s == i {
                x as int
            } else {
                0
            }));
            if i == p {
                assert(nx.0[i] == left[p as int] - x);
            } else if i == s {
                assert(nx.0[i] == left[s as int] - x);
            } else {
                assert(nx.0[i] == left[i]);
            }
        }
        assert(pair_matchable(ts, rule, q));
        assert(pair_value(ts, rule, q) == x * g);
        assert forall|k: int| 0 <= k < nx.1.len() implies pair_matchable(ts, rule, #[trigger] nx.1[k])
            && nx.1[k].profit == pair_value(ts, rule, nx.1[k]) && nx.1[k].shares > 0 by {
            if k < st.1.len() {
                assert(nx.1[k] == st.1[k]);
            } else {
                assert(nx.1[k] == q);
            }
        }
    }
}

proof fn lemma_row_ok<R: WindowRule + ?Sized>(
    ts: Seq<Trade>,
    rule: &R,
    st: LihoState,
    p: usize,
    sells: Seq<usize>,
    j: int,
)
    requires
        state_ok(ts, rule, st),
        steps_fit(ts, rule, st, p, sells, j),
    ensures
        state_ok(ts, rule, liho_row(ts, rule, st, p, sells, j)),
    decreases j,
{
    if j > 0 {
        assert(step_fits(ts, rule, liho_row(ts, rule, st, p, sells, j - 1), p, sells[j - 1]));
        lemma_row_ok(ts, rule, st, p, sells, j - 1);
        lemma_step_ok(ts, rule, liho_row(ts, rule, st, p, sells, j - 1), p, sells[j - 1]);
    }
}

proof fn lemma_run_ok<R: WindowRule + ?Sized>(
    ts: Seq<Trade>,
    rule: &R,
    buys: Seq<usize>,
    sells: Seq<usize>,
    i: int,
)
    requires
        runs_fit(ts, rule, buys, sells, i),
    ensures
        state_ok(ts, rule, liho_run(ts, rule, buys, sells, i)),
    decreases i,
{
    if i <= 0 {
        lemma_initial_ok(ts, rule);
    } else {
        assert(steps_fit(
            ts,
            rule,
            liho_run(ts, rule, buys, sells, i - 1),
            buys[i - 1],
            sells,
            sells.len() as int,
        ));
        lemma_run_ok(ts, rule, buys, sells, i - 1);
        lemma_row_ok(
            ts,
            rule,
            liho_run(ts, rule, buys, sells, i - 1),
            buys[i - 1],
            sells,
            sells.len() as int,
        );
    }
}

/// Sound bookkeeping makes the pairs a feasible matching that earns what it claims.
proof fn lemma_ok_is_feasible<R: WindowRule + ?Sized>(ts: Seq<Trade>, rule: &R, st: LihoState)
    requires
        state_ok(ts, rule, st),
    ensures
        feasible_matching(ts, rule, st.1),
        claimed_profit(st.1) == pairs_value(ts, rule, st.1),
{
    assert forall|i: int| 0 <= i < ts.len() implies #[trigger] shares_matched(st.1, i) <= ts[i].shares by {
        assert(shares_matched(st.1, i) + st.0[i] == ts[i].shares);
    }
    assert forall|k: int| 0 <= k < st.1.len() implies #[trigger] pair_matchable(ts, rule, st.1[k]) by {
    }
    assert forall|j: int| 0 <= j < st.1.len() implies (#[trigger] st.1[j]).profit == pair_value(
        ts,
        rule,
        st.1[j],
    ) by {
    }
    lemma_claimed_is_value(ts, rule, st.1);
}

/// Once purchase `p` has no shares left, the rest of its row changes nothing.
proof fn lemma_row_stuck<R: WindowRule + ?Sized>(
    ts: Seq<Trade>,
    rule: &R,
    st: LihoState,
    p: usize,
    sells: Seq<usize>,
    j: int,
    k: int,
)
    requires
        0 <= j <= k,
        liho_row(ts, rule, st, p, sells, j).0[p as int] == 0,
    ensures
        liho_row(ts, rule, st, p, sells, k) == liho_row(ts, rule, st, p, sells, j),
    decreases k - j,
{
    if k > j {
        lemma_row_stuck(ts, rule, st, p, sells, j, k - 1);
    }
}

/// The greedy baseline: purchases cheapest first, each matched against the
/// dearest sales still available inside its window.
pub fn lowest_in_highest_out<R: WindowRule + ?Sized>(trades: &[Trade], rule: &R) -> (r: GreedyResult)
    requires
        liho_fits(trades@, rule),
    ensures
        r.pairs@ == liho_pairs(trades@, rule),
        r.total == claimed_profit(r.pairs@),
        r.total == pairs_value(trades@, rule, r.pairs@),
        feasible_matching(trades@, rule, r.pairs@),
        forall|k: int| 0 <= k < r.pairs@.len() ==> #[trigger] exact_pair(trades@, rule, r.pairs@[k]),
        trades_in_limits(trades@) && window_open(trades@, rule) ==> forall|m: Seq<MatchedPair>|
            #[trigger] feasible_matching(trades@, rule, m) ==> pairs_value(trades@, rule, m) <= r.total,
{
    let ghost ts = trades@;
    let buys = side_order(trades, Side::Buy);
    let sells = side_order(trades, Side::Sell);
    proof {
        lemma_order_is_liho_order(ts, Side::Buy, buys@);
        lemma_order_is_liho_order(ts, Side::Sell, sells@);
    }
    let ghost bs = buys@;
    let ghost ss = sells@;
    let n = trades.len();
    let mut left: Vec<u64> = Vec::new();
    let mut i: usize = 0;
    while i < n
        invariant
            n == trades.len(),
            ts == trades@,
            i <= n,
            left@ =~= liho_initial(ts).0.subrange(0, i as int),
        decreases n - i,
    {
        left.push(trades[i].shares);
        i = i + 1;
    }
    assert(left@ =~= liho_initial(ts).0);
    let mut pairs: Vec<MatchedPair> = Vec::new();
    let mut total: i128 = 0;
    proof {
        lemma_initial_ok(ts, rule);
    }
    let mut bi: usize = 0;
    while bi < buys.len()
        invariant
            n == trades.len(),
            ts == trades@,
            bs == buys@,
            ss == sells@,
            bs == liho_order(ts, Side::Buy),
            ss == liho_order(ts, Side::Sell),
            is_order(ts, Side::Buy, bs),
            is_order(ts, Side::Sell, ss),
            liho_fits(ts, rule),
            bi <= bs.len(),
            (left@, pairs@) == liho_run(ts, rule, bs, ss, bi as int),
            total == claimed_profit(pairs@),
            0 <= total,
        decreases bs.len() - bi,
    {
        let p = buys[bi];
        let ghost start = (left@, pairs@);
        let mut sj: usize = 0;
        while sj < sells.len()
            invariant
                n == trades.len(),
                ts == trades@,
                bs == buys@,
                ss == sells@,
                bs == liho_order(ts, Side::Buy),
                ss == liho_order(ts, Side::Sell),
                is_order(ts, Side::Buy, bs),
                is_order(ts, Side::Sell, ss),
                liho_fits(ts, rule),
                bi < bs.len(),
                p == bs[bi as int],
                p < n,
                start == liho_run(ts, rule, bs, ss, bi as int),
                sj <= ss.len(),
                (left@, pairs@) == liho_row(ts, rule, start, p, ss, sj as int),
                total == claimed_profit(pairs@),
                0 <= total,
            ensures
                (left@, pairs@) == liho_row(ts, rule, start, p, ss, ss.len() as int),
                total == claimed_profit(pairs@),
                0 <= total,
            decreases ss.len() - sj,
        {
            proof {
                assert(steps_fit(ts, rule, start, p, ss, ss.len() as int));
                lemma_run_ok(ts, rule, bs, ss, bi as int);
                lemma_row_ok(ts, rule, start, p, ss, sj as int);
            }
            if left[p] == 0 {
                proof {
                    lemma_row_stuck(ts, rule, start, p, ss, sj as int, ss.len() as int);
                }
                break;
            }
            let s = sells[sj];
            assert(s < n);
            let ghost before = (left@, pairs@);
            if left[s] != 0 {
                assert(step_fits(ts, rule, liho_row(ts, rule, start, p, ss, sj as int), p, ss[sj as int]));
                assert(gain_fits(rule, ts[p as int], ts[s as int]));
                match pair_gain(rule, &trades[p], &trades[s]) {
                    Some(gain) => {
                        let shares = if left[p] <= left[s] {
                            left[p]
                        } else {
                            left[s]
                        };
                        let lp = left[p] - shares;
                        left.set(p, lp);
                        let ls = left[s] - shares;
                        left.set(s, ls);
                        assert(0 < shares * gain <= u64::MAX * i64::MAX) by (nonlinear_arith)
                            requires
                                0 < shares <= u64::MAX,
                                0 < gain <= i64::MAX,
                        ;
                        let profit = shares as i128 * gain as i128;
                        let ghost after = liho_row(ts, rule, start, p, ss, sj + 1);
                        assert(after == liho_state(ts, rule, bi as int, sj + 1));
                        assert(claimed_profit(after.1) <= i128::MAX);
                        pairs.push(MatchedPair { purchase: p, sale: s, shares, profit });
                        assert(pairs@.drop_last() == before.1);
                        total = total + profit;
                        assert(left@ =~= after.0);
                        assert(pairs@ =~= after.1);
                    },
                    None => {},
                }
            }
            sj = sj + 1;
        }
        bi = bi + 1;
    }
    proof {
        lemma_run_ok(ts, rule, bs, ss, bs.len() as int);
        let fin = liho_run(ts, rule, bs, ss, bs.len() as int);
        lemma_ok_is_feasible(ts, rule, fin);
        assert forall|k: int| 0 <= k < fin.1.len() implies #[trigger] exact_pair(ts, rule, fin.1[k]) by {
            assert(pair_matchable(ts, rule, fin.1[k]));
        }
        if trades_in_limits(ts) && window_open(ts, rule) {
            assert forall|m: Seq<MatchedPair>| #[trigger] feasible_matching(ts, rule, m) implies pairs_value(
                ts,
                rule,
                m,
            ) <= pairs_value(ts, rule, fin.1) by {
                lemma_liho_optimal(ts, rule, m);
            }
        }
    }
    GreedyResult { pairs, total }
}

/// Within the solver's limits LIHO never overflows.
pub proof fn law_liho_fits_within_limits<R: WindowRule + ?Sized>(ts: Seq<Trade>, rule: &R)
    requires
        trades_in_limits(ts),
    ensures
        liho_fits(ts, rule),
{
    assert forall|p: int, s: int| 0 <= p < ts.len() && 0 <= s < ts.len() implies gain_fits(
        rule,
        #[trigger] ts[p],
        #[trigger] ts[s],
    ) by {
        assert(trade_in_limits(ts[p]));
        assert(trade_in_limits(ts[s]));
    }
    let n = ts.len() as int;
    let duals = Seq::new(ts.len(), |i: int| MAX_PRICE_TICKS);
    assert forall|p: int, s: int| 0 <= p < ts.len() && 0 <= s < ts.len() implies #[trigger] dual_covers(
        ts,
        rule,
        duals,
        p,
        s,
    ) by {
        assert(trade_in_limits(ts[p]));
        assert(trade_in_limits(ts[s]));
    }
    assert(dual_feasible(ts, rule, duals));
    lemma_bounded_dual_value(ts, duals, n);
    let buys = liho_order(ts, Side::Buy);
    let sells = liho_order(ts, Side::Sell);
    lemma_gains_runs_fit(ts, rule, buys, sells, buys.len() as int);
    assert forall|i: int, j: int|
        0 <= i < buys.len() && 0 <= j <= sells.len() implies #[trigger] claimed_profit(
        liho_state(ts, rule, i, j).1,
    ) <= i128::MAX by {
        lemma_gains_runs_fit(ts, rule, buys, sells, i);
        lemma_run_ok(ts, rule, buys, sells, i);
        assert(steps_fit(ts, rule, liho_run(ts, rule, buys, sells, i), buys[i], sells, sells.len() as int));
        lemma_row_ok(ts, rule, liho_run(ts, rule, buys, sells, i), buys[i], sells, j);
        let st = liho_state(ts, rule, i, j);
        lemma_ok_is_feasible(ts, rule, st);
        law_weak_duality(ts, rule, duals, st.1);
    }
}

/// The dual objective of a constant dual of `MAX_PRICE_TICKS` stays far inside `i128`.
proof fn lemma_bounded_dual_value(ts: Seq<Trade>, duals: Seq<i64>, k: int)
    requires
        0 <= k <= ts.len() <= MAX_TRADES,
        duals.len() == ts.len(),
        forall|i: int| 0 <= i < ts.len() ==> trade_in_limits(#[trigger] ts[i]),
        forall|i: int| 0 <= i < duals.len() ==> #[trigger] duals[i] == MAX_PRICE_TICKS,
    ensures
        dual_value(ts, duals, k) <= k * (MAX_SHARES * MAX_PRICE_TICKS),
    decreases k,
{
    if k > 0 {
        lemma_bounded_dual_value(ts, duals, k - 1);
        assert(trade_in_limits(ts[k - 1]));
        let sh = ts[k - 1].shares as int;
        assert(sh * duals[k - 1] <= MAX_SHARES * MAX_PRICE_TICKS) by (nonlinear_arith)
            requires
                0 <= sh <= MAX_SHARES,
                duals[k - 1] == MAX_PRICE_TICKS,
        ;
    }
}

/// LIHO never earns more than a total that `verify` accepts: it is a feasible
/// matching, and a verified total is the optimum.
pub proof fn law_liho_below_verified_total<R: WindowRule + ?Sized>(
    ts: Seq<Trade>,
    rule: &R,
    pairs: Seq<MatchedPair>,
    claimed: i128,
    duals: Seq<i64>,
)
    requires
        spec_verify(ts, rule, pairs, claimed, duals) is Ok,
        gains_fit(ts, rule),
    ensures
        pairs_value(ts, rule, liho_pairs(ts, rule)) <= spec_verify(ts, rule, pairs, claimed, duals)->Ok_0,
{
    let buys = liho_order(ts, Side::Buy);
    let sells = liho_order(ts, Side::Sell);
    lemma_gains_runs_fit(ts, rule, buys, sells, buys.len() as int);
    lemma_run_ok(ts, rule, buys, sells, buys.len() as int);
    lemma_ok_is_feasible(ts, rule, liho_run(ts, rule, buys, sells, buys.len() as int));
    law_verified_total_is_optimal(ts, rule, pairs, claimed, duals, liho_pairs(ts, rule));
}

/// LIHO never earns more than the total `solve` reports for the same trades.
pub proof fn law_liho_below_solution<R: WindowRule + ?Sized>(ts: Seq<Trade>, rule: &R, sol: Solution)
    requires
        solution_ok(ts, rule, sol),
        dates_ok(ts, rule),
        gains_fit(ts, rule),
    ensures
        pairs_value(ts, rule, liho_pairs(ts, rule)) <= sol.total,
{
    law_liho_below_verified_total(ts, rule, sol.pairs@, sol.total, sol.certificate.duals@);
}

/// Every purchase and every sale of `ts` fall inside each other's window.
pub open spec fn window_open<R: WindowRule + ?Sized>(ts: Seq<Trade>, rule: &R) -> bool {
    forall|p: int, s: int|
        0 <= p < ts.len() && 0 <= s < ts.len() && ts[p].side == Side::Buy && ts[s].side == Side::Sell
            ==> #[trigger] spec_within(rule, ts[p].date, ts[s].date)
}

/// The price order LIHO keeps, after the first `i` purchases of `buys`: a
/// handled purchase with shares left prices at or above every sale with shares
/// left; every sale with shares left prices at or below every matched sale; every
/// purchase with shares left prices at or above every matched purchase; every
/// matched purchase prices at or below every matched sale and every purchase
/// still to come.
pub open spec fn greedy_shape(ts: Seq<Trade>, buys: Seq<usize>, st: LihoState, i: int) -> bool {
    let left = st.0;
    let pairs = st.1;
    &&& forall|k: int, s: int|
        #![trigger left[buys[k] as int], left[s]]
        0 <= k < i && 0 <= s < ts.len() && ts[s].side == Side::Sell && left[buys[k] as int] > 0 && left[s] > 0
            ==> ts[s].price <= ts[buys[k] as int].price
    &&& forall|q: int, s: int|
        #![trigger pairs[q], left[s]]
        0 <= q < pairs.len() && 0 <= s < ts.len() && ts[s].side == Side::Sell && left[s] > 0 ==> ts[s].price
            <= ts[pairs[q].sale as int].price
    &&& forall|q: int, b: int|
        #![trigger pairs[q], left[b]]
        0 <= q < pairs.len() && 0 <= b < ts.len() && ts[b].side == Side::Buy && left[b] > 0
            ==> ts[pairs[q].purchase as int].price <= ts[b].price
    &&& forall|q1: int, q2: int|
        #![trigger pairs[q1], pairs[q2]]
        0 <= q1 < pairs.len() && 0 <= q2 < pairs.len() ==> ts[pairs[q1].purchase as int].price
            <= ts[pairs[q2].sale as int].price
    &&& forall|q: int, k: int|
        #![trigger pairs[q], buys[k]]
        0 <= q < pairs.len() && i <= k < buys.len() ==> ts[pairs[q].purchase as int].price
            <= ts[buys[k] as int].price
}

/// While purchase `b` still has shares, every sale among the first `j` of
/// `sells` with shares left prices at or below it.
pub open spec fn row_shape(ts: Seq<Trade>, sells: Seq<usize>, st: LihoState, b: usize, j: int) -> bool {
    st.0[b as int] > 0 ==> forall|l: int|
        0 <= l < j && #[trigger] st.0[sells[l] as int] > 0 ==> ts[sells[l] as int].price <= ts[b as int].price
}

/// Purchases come cheapest first and sales dearest first.
proof fn lemma_order_prices(ts: Seq<Trade>, side: Side, idx: Seq<usize>, j: int, k: int)
    requires
        is_order(ts, side, idx),
        0 <= j <= k < idx.len(),
    ensures
        side == Side::Buy ==> ts[idx[j] as int].price <= ts[idx[k] as int].price,
        side == Side::Sell ==> ts[idx[j] as int].price >= ts[idx[k] as int].price,
{
    if j < k {
        assert(taken_before(ts, idx[j] as int, idx[k] as int));
        assert(idx[j] < ts.len() && ts[idx[j] as int].side == side);
        assert(idx[k] < ts.len() && ts[idx[k] as int].side == side);
    }
}

/// Every trade of `side` has a place in its LIHO order.
proof fn lemma_order_place(ts: Seq<Trade>, side: Side, idx: Seq<usize>, x: int) -> (l: int)
    requires
        is_order(ts, side, idx),
        0 <= x < ts.len(),
        x <= usize::MAX,
        ts[x].side == side,
    ensures
        0 <= l < idx.len(),
        idx[l] == x,
{
    assert(ts[(x as usize) as int].side == side);
    assert(idx.contains(x as usize));
    choose|l: int| 0 <= l < idx.len() && idx[l] == x as usize
}

/// One offer keeps the price order and only ever lowers the shares left.
proof fn lemma_step_shape<R: WindowRule + ?Sized>(
    ts: Seq<Trade>,
    rule: &R,
    buys: Seq<usize>,
    sells: Seq<usize>,
    st: LihoState,
    i: int,
    j: int,
)
    requires
        window_open(ts, rule),
        gains_fit(ts, rule),
        ts.len() <= usize::MAX,
        is_order(ts, Side::Buy, buys),
        is_order(ts, Side::Sell, sells),
        0 <= i < buys.len(),
        0 <= j < sells.len(),
        state_ok(ts, rule, st),
        greedy_shape(ts, buys, st, i),
        row_shape(ts, sells, st, buys[i], j),
    ensures
        ({
            let nx = liho_step(ts, rule, st, buys[i], sells[j]);
            &&& greedy_shape(ts, buys, nx, i)
            &&& row_shape(ts, sells, nx, buys[i], j + 1)
            &&& state_ok(ts, rule, nx)
            &&& forall|x: int| 0 <= x < ts.len() ==> #[trigger] nx.0[x] <= st.0[x]
        }),
{
    let b = buys[i];
    let s = sells[j];
    let left = st.0;
    let nx = liho_step(ts, rule, st, b, s);
    if b < ts.len() && s < ts.len() {
        assert(gain_fits(rule, ts[b as int], ts[s as int]));
    }
    lemma_step_ok(ts, rule, st, b, s);
    assert(b < ts.len() && ts[b as int].side == Side::Buy);
    assert(s < ts.len() && ts[s as int].side == Side::Sell);
    assert(spec_within(rule, ts[b as int].date, ts[s as int].date));
    if left[b as int] == 0 || left[s as int] == 0 || spec_pair_gain(rule, ts[b as int], ts[s as int]) is None {
        assert(nx == st);
    } else {
        let g = spec_pair_gain(rule, ts[b as int], ts[s as int])->0;
        let x = if left[b as int] <= left[s as int] {
            left[b as int]
        } else {
            left[s as int]
        };
        let q = MatchedPair { purchase: b, sale: s, shares: x, profit: (x * g) as i128 };
        let pairs = st.1;
        let np = nx.1;
        let nl = nx.0;
        assert(np == pairs.push(q));
        assert(ts[b as int].price < ts[s as int].price);
        assert forall|y: int| 0 <= y < ts.len() implies #[trigger] nl[y] <= left[y] by {
        }
        // Shares left only fall, so the handled purchases keep their order.
        assert forall|k: int, t: int|
            #![trigger nl[buys[k] as int], nl[t]]
            0 <= k < i && 0 <= t < ts.len() && ts[t].side == Side::Sell && nl[buys[k] as int] > 0 && nl[t] > 0
                implies ts[t].price <= ts[buys[k] as int].price by {
            assert(nl[buys[k] as int] <= left[buys[k] as int]);
            assert(nl[t] <= left[t]);
            assert(left[buys[k] as int] > 0 && left[t] > 0);
        }
        assert forall|r: int, t: int|
            #![trigger np[r], nl[t]]
            0 <= r < np.len() && 0 <= t < ts.len() && ts[t].side == Side::Sell && nl[t] > 0 implies ts[t].price
                <= ts[np[r].sale as int].price by {
            assert(nl[t] <= left[t]);
            if r < pairs.len() {
                assert(np[r] == pairs[r]);
                assert(left[t] > 0);
            } else {
                let l = lemma_order_place(ts, Side::Sell, sells, t);
                if l < j {
                    assert(left[sells[l] as int] > 0);
                } else {
                    lemma_order_prices(ts, Side::Sell, sells, j, l);
                }
            }
        }
        assert forall|r: int, c: int|
            #![trigger np[r], nl[c]]
            0 <= r < np.len() && 0 <= c < ts.len() && ts[c].side == Side::Buy && nl[c] > 0 implies ts[np[r].purchase as int].price
                <= ts[c].price by {
            assert(nl[c] <= left[c]);
            if r < pairs.len() {
                assert(np[r] == pairs[r]);
                assert(left[c] > 0);
            } else {
                let k = lemma_order_place(ts, Side::Buy, buys, c);
                if k < i {
                    assert(left[buys[k] as int] > 0 && left[s as int] > 0);
                } else {
                    lemma_order_prices(ts, Side::Buy, buys, i, k);
                }
            }
        }
        assert forall|r1: int, r2: int|
            #![trigger np[r1], np[r2]]
            0 <= r1 < np.len() && 0 <= r2 < np.len() implies ts[np[r1].purchase as int].price
                <= ts[np[r2].sale as int].price by {
            if r1 < pairs.len() && r2 < pairs.len() {
                assert(np[r1] == pairs[r1] && np[r2] == pairs[r2]);
            } else if r1 < pairs.len() {
                assert(np[r1] == pairs[r1]);
                assert(ts[pairs[r1].purchase as int].price <= ts[buys[i] as int].price);
            } else if r2 < pairs.len() {
                assert(np[r2] == pairs[r2]);
                assert(left[s as int] > 0);
                assert(ts[s as int].price <= ts[pairs[r2].sale as int].price);
            }
        }
        assert forall|r: int, k: int|
            #![trigger np[r], buys[k]]
            0 <= r < np.len() && i <= k < buys.len() implies ts[np[r].purchase as int].price
                <= ts[buys[k] as int].price by {
            if r < pairs.len() {
                assert(np[r] == pairs[r]);
            } else {
                lemma_order_prices(ts, Side::Buy, buys, i, k);
            }
        }
        assert forall|l: int| 0 <= l < j + 1 && #[trigger] nl[sells[l] as int] > 0 && nl[b as int] > 0 implies ts[sells[l] as int].price
            <= ts[b as int].price by {
            if l < j {
                assert(nl[sells[l] as int] <= left[sells[l] as int]);
                assert(left[b as int] > 0);
            }
        }
    }
}

/// A whole row keeps the price order, and leaves the purchase, if it still has
/// shares, priced at or above every sale with shares left.
proof fn lemma_row_shape<R: WindowRule + ?Sized>(
    ts: Seq<Trade>,
    rule: &R,
    buys: Seq<usize>,
    sells: Seq<usize>,
    st: LihoState,
    i: int,
    j: int,
)
    requires
        window_open(ts, rule),
        gains_fit(ts, rule),
        ts.len() <= usize::MAX,
        is_order(ts, Side::Buy, buys),
        is_order(ts, Side::Sell, sells),
        0 <= i < buys.len(),
        0 <= j <= sells.len(),
        state_ok(ts, rule, st),
        greedy_shape(ts, buys, st, i),
    ensures
        ({
            let nx = liho_row(ts, rule, st, buys[i], sells, j);
            &&& greedy_shape(ts, buys, nx, i)
            &&& row_shape(ts, sells, nx, buys[i], j)
            &&& state_ok(ts, rule, nx)
        }),
    decreases j,
{
    if j > 0 {
        lemma_row_shape(ts, rule, buys, sells, st, i, j - 1);
        lemma_step_shape(ts, rule, buys, sells, liho_row(ts, rule, st, buys[i], sells, j - 1), i, j - 1);
    }
}

/// After the first `i` purchases LIHO keeps the price order.
proof fn lemma_run_shape<R: WindowRule + ?Sized>(
    ts: Seq<Trade>,
    rule: &R,
    buys: Seq<usize>,
    sells: Seq<usize>,
    i: int,
)
    requires
        window_open(ts, rule),
        gains_fit(ts, rule),
        ts.len() <= usize::MAX,
        is_order(ts, Side::Buy, buys),
        is_order(ts, Side::Sell, sells),
        0 <= i <= buys.len(),
    ensures
        greedy_shape(ts, buys, liho_run(ts, rule, buys, sells, i), i),
        state_ok(ts, rule, liho_run(ts, rule, buys, sells, i)),
    decreases i,
{
    if i == 0 {
        lemma_initial_ok(ts, rule);
    } else {
        lemma_run_shape(ts, rule, buys, sells, i - 1);
        let st = liho_run(ts, rule, buys, sells, i - 1);
        lemma_row_shape(ts, rule, buys, sells, st, i - 1, sells.len() as int);
        let nx = liho_run(ts, rule, buys, sells, i);
        let left = nx.0;
        assert forall|k: int, t: int|
            #![trigger left[buys[k] as int], left[t]]
            0 <= k < i && 0 <= t < ts.len() && ts[t].side == Side::Sell && left[buys[k] as int] > 0 && left[t] > 0
                implies ts[t].price <= ts[buys[k] as int].price by {
            if k == i - 1 {
                let l = lemma_order_place(ts, Side::Sell, sells, t);
                assert(left[sells[l] as int] > 0);
            }
        }
    }
}

/// The largest price among the sales below `c` with shares left, and zero.
pub open spec fn max_open_sale(ts: Seq<Trade>, left: Seq<u64>, c: int) -> int
    decreases c,
{
    if c <= 0 {
        0
    } else {
        let m = max_open_sale(ts, left, c - 1);
        if ts[c - 1].side == Side::Sell && left[c - 1] > 0 && ts[c - 1].price > m {
            ts[c - 1].price as int
        } else {
            m
        }
    }
}

/// The largest purchase price among the first `c` pairs, and zero.
pub open spec fn max_matched_purchase(ts: Seq<Trade>, pairs: Seq<MatchedPair>, c: int) -> int
    decreases c,
{
    if c <= 0 {
        0
    } else {
        let m = max_matched_purchase(ts, pairs, c - 1);
        if ts[pairs[c - 1].purchase as int].price > m {
            ts[pairs[c - 1].purchase as int].price as int
        } else {
            m
        }
    }
}

proof fn lemma_max_open_sale(ts: Seq<Trade>, left: Seq<u64>, c: int, u: int)
    requires
        0 <= c <= ts.len(),
        0 <= u,
        forall|t: int| 0 <= t < c && ts[t].side == Side::Sell && #[trigger] left[t] > 0 ==> ts[t].price <= u,
    ensures
        max_open_sale(ts, left, c) <= u,
        forall|t: int| 0 <= t < c && ts[t].side == Side::Sell && #[trigger] left[t] > 0 ==> ts[t].price
            <= max_open_sale(ts, left, c),
        max_open_sale(ts, left, c) >= 0,
    decreases c,
{
    if c > 0 {
        lemma_max_open_sale(ts, left, c - 1, u);
    }
}

proof fn lemma_max_matched_purchase(ts: Seq<Trade>, pairs: Seq<MatchedPair>, c: int, u: int)
    requires
        0 <= c <= pairs.len(),
        0 <= u,
        forall|q: int| 0 <= q < c ==> ts[(#[trigger] pairs[q]).purchase as int].price <= u,
    ensures
        max_matched_purchase(ts, pairs, c) <= u,
        forall|q: int| 0 <= q < c ==> ts[(#[trigger] pairs[q]).purchase as int].price <= max_matched_purchase(
            ts,
            pairs,
            c,
        ),
        max_matched_purchase(ts, pairs, c) >= 0,
    decreases c,
{
    if c > 0 {
        lemma_max_matched_purchase(ts, pairs, c - 1, u);
    }
}

/// The price LIHO's result straddles: no matched purchase and no sale with
/// shares left prices above it, no matched sale and no purchase with shares
/// left prices below it.
pub open spec fn threshold(ts: Seq<Trade>, st: LihoState) -> int {
    let a = max_open_sale(ts, st.0, ts.len() as int);
    let b = max_matched_purchase(ts, st.1, st.1.len() as int);
    if a >= b {
        a
    } else {
        b
    }
}

/// The certificate for LIHO's result: what a purchase sits below the threshold,
/// what a sale sits above it, per share.
pub open spec fn threshold_duals(ts: Seq<Trade>, theta: int) -> Seq<i64> {
    Seq::new(
        ts.len(),
        |i: int|
            if ts[i].side == Side::Buy {
                if theta > ts[i].price {
                    (theta - ts[i].price) as i64
                } else {
                    0
                }
            } else {
                if ts[i].price > theta {
                    (ts[i].price - theta) as i64
                } else {
                    0
                }
            },
    )
}

/// When every purchase may pair with every sale, LIHO's matching is optimal:
/// the threshold certificate verifies it.
proof fn lemma_liho_optimal<R: WindowRule + ?Sized>(ts: Seq<Trade>, rule: &R, other: Seq<MatchedPair>)
    requires
        trades_in_limits(ts),
        window_open(ts, rule),
        is_order(ts, Side::Buy, liho_order(ts, Side::Buy)),
        is_order(ts, Side::Sell, liho_order(ts, Side::Sell)),
        feasible_matching(ts, rule, other),
    ensures
        pairs_value(ts, rule, other) <= pairs_value(ts, rule, liho_pairs(ts, rule)),
{
    let n = ts.len() as int;
    let buys = liho_order(ts, Side::Buy);
    let sells = liho_order(ts, Side::Sell);
    law_liho_fits_within_limits(ts, rule);
    assert(gains_fit(ts, rule));
    lemma_run_shape(ts, rule, buys, sells, buys.len() as int);
    let st = liho_run(ts, rule, buys, sells, buys.len() as int);
    let left = st.0;
    let pairs = st.1;
    assert(pairs == liho_pairs(ts, rule));
    lemma_ok_is_feasible(ts, rule, st);
    // Every pair is exact and earns a positive profit.
    assert forall|k: int| 0 <= k < pairs.len() implies #[trigger] exact_pair(ts, rule, pairs[k])
        && pairs[k].profit >= 0 by {
        let q = pairs[k];
        assert(pair_matchable(ts, rule, q));
        let g = spec_pair_gain(rule, ts[q.purchase as int], ts[q.sale as int])->0;
        assert(q.shares * g >= 0) by (nonlinear_arith)
            requires
                g > 0,
        ;
    }
    crate::io::lemma_claimed_nonneg(pairs);
    let c = claimed_profit(pairs);
    if buys.len() > 0 {
        assert(liho_state(ts, rule, buys.len() - 1, sells.len() as int) == st);
    }
    assert(c <= i128::MAX);
    let theta = threshold(ts, st);
    let mos = max_open_sale(ts, left, n);
    let mmp = max_matched_purchase(ts, pairs, pairs.len() as int);
    assert forall|i: int| 0 <= i < n implies 0 <= (#[trigger] ts[i]).price <= MAX_PRICE_TICKS by {
        assert(trade_in_limits(ts[i]));
    }
    lemma_max_open_sale(ts, left, n, MAX_PRICE_TICKS as int);
    lemma_max_matched_purchase(ts, pairs, pairs.len() as int, MAX_PRICE_TICKS as int);
    // The threshold lies below every matched sale and every purchase with shares left.
    assert forall|q: int| 0 <= q < pairs.len() implies theta <= ts[(#[trigger] pairs[q]).sale as int].price by {
        let u = ts[pairs[q].sale as int].price as int;
        assert(pair_matchable(ts, rule, pairs[q]));
        assert forall|t: int| 0 <= t < n && ts[t].side == Side::Sell && #[trigger] left[t] > 0 implies ts[t].price
            <= u by {
            assert(ts[t].price <= ts[pairs[q].sale as int].price);
        }
        lemma_max_open_sale(ts, left, n, u);
        assert forall|r: int| 0 <= r < pairs.len() implies ts[(#[trigger] pairs[r]).purchase as int].price
            <= u by {
            assert(ts[pairs[r].purchase as int].price <= ts[pairs[q].sale as int].price);
        }
        lemma_max_matched_purchase(ts, pairs, pairs.len() as int, u);
    }
    assert forall|b: int| 0 <= b < n && ts[b].side == Side::Buy && #[trigger] left[b] > 0 implies theta
        <= ts[b].price by {
        let u = ts[b].price as int;
        let k = lemma_order_place(ts, Side::Buy, buys, b);
        assert forall|t: int| 0 <= t < n && ts[t].side == Side::Sell && #[trigger] left[t] > 0 implies ts[t].price
            <= u by {
            assert(left[buys[k] as int] > 0);
        }
        lemma_max_open_sale(ts, left, n, u);
        assert forall|r: int| 0 <= r < pairs.len() implies ts[(#[trigger] pairs[r]).purchase as int].price
            <= u by {
            assert(left[b] > 0);
        }
        lemma_max_matched_purchase(ts, pairs, pairs.len() as int, u);
    }
    let duals = threshold_duals(ts, theta);
    assert(0 <= theta <= MAX_PRICE_TICKS);
    assert forall|i: int| 0 <= i < duals.len() implies #[trigger] duals[i] >= 0 by {
    }
    assert forall|p: int, t: int| 0 <= p < n && 0 <= t < n implies #[trigger] dual_covers(ts, rule, duals, p, t) by {
    }
    assert(dual_feasible(ts, rule, duals));
    assert forall|k: int| 0 <= k < pairs.len() implies #[trigger] crate::duality::pair_tight(ts, duals, pairs[k]) by {
        let q = pairs[k];
        assert(pair_matchable(ts, rule, q));
        assert(ts[q.purchase as int].price <= mmp);
        assert(theta <= ts[q.sale as int].price);
    }
    assert forall|i: int| 0 <= i < n && duals[i] > 0 implies #[trigger] shares_matched(pairs, i) == ts[i].shares by {
        assert(shares_matched(pairs, i) + left[i] == ts[i].shares);
        if left[i] > 0 {
            if ts[i].side == Side::Buy {
                assert(theta <= ts[i].price);
            } else {
                assert(ts[i].price <= mos);
            }
        }
    }
    crate::duality::law_complementary_slackness_verifies(ts, rule, pairs, c as i128, duals);
    law_verified_total_is_optimal(ts, rule, pairs, c as i128, duals, other);
}

} // verus!
