//! Why a verified certificate proves optimality: LP weak duality over the
//! matchings of a trade history.

use vstd::prelude::*;
use crate::date::WindowRule;
use crate::solver::{dates_ok, dual_value, law_days_within_is_within, solution_ok, solver_pair_ok, Solution};
use crate::trade::{claimed_profit, shares_matched, spec_pair_gain, MatchedPair, Side, Trade};
use crate::verify::{
    first_infeasible, first_infeasible_in_row, first_negative_dual, first_overmatched,
    first_pair_problem, first_slack_pair, first_slack_trade, infeasible_at, pair_problem, pair_value,
    pairs_value, spec_verify, Violation,
};

verus! {

/// Pair `q` joins a purchase and a sale of `ts` that may be matched at a profit.
pub open spec fn pair_matchable<R: WindowRule + ?Sized>(ts: Seq<Trade>, rule: &R, q: MatchedPair) -> bool {
    &&& q.purchase < ts.len()
    &&& q.sale < ts.len()
    &&& spec_pair_gain(rule, ts[q.purchase as int], ts[q.sale as int]) is Some
}

/// `m` is a feasible matching of `ts`: every pair is matchable and no trade is
/// matched beyond its shares.
pub open spec fn feasible_matching<R: WindowRule + ?Sized>(
    ts: Seq<Trade>,
    rule: &R,
    m: Seq<MatchedPair>,
) -> bool {
    &&& forall|k: int| 0 <= k < m.len() ==> #[trigger] pair_matchable(ts, rule, m[k])
    &&& forall|i: int| 0 <= i < ts.len() ==> #[trigger] shares_matched(m, i) <= ts[i].shares
}

/// The duals of pair `q` add up to at least its gain.
spec fn pair_covered<R: WindowRule + ?Sized>(ts: Seq<Trade>, rule: &R, duals: Seq<i64>, q: MatchedPair) -> bool {
    &&& pair_matchable(ts, rule, q)
    &&& spec_pair_gain(rule, ts[q.purchase as int], ts[q.sale as int])->0 <= duals[q.purchase as int]
        + duals[q.sale as int]
}

/// `sum(shares * (dual of purchase + dual of sale))` over the pairs of `m`.
pub open spec fn dual_cover(duals: Seq<i64>, m: Seq<MatchedPair>) -> int
    decreases m.len(),
{
    if m.len() == 0 {
        0
    } else {
        let q = m.last();
        dual_cover(duals, m.drop_last()) + q.shares * (duals[q.purchase as int] + duals[q.sale as int])
    }
}

/// `sum(dual * shares matched)` over the first `k` trades.
pub open spec fn weighted_matched(duals: Seq<i64>, m: Seq<MatchedPair>, k: int) -> int
    decreases k,
{
    if k <= 0 {
        0
    } else {
        weighted_matched(duals, m, k - 1) + duals[k - 1] * shares_matched(m, k - 1)
    }
}

proof fn lemma_row_feasible<R: WindowRule + ?Sized>(
    ts: Seq<Trade>,
    rule: &R,
    duals: Seq<i64>,
    p: int,
    s: int,
)
    requires
        0 <= s <= ts.len(),
        first_infeasible_in_row(ts, rule, duals, p, s) is None,
    ensures
        forall|t: int| s <= t < ts.len() ==> #[trigger] infeasible_at(ts, rule, duals, p, t) is None,
    decreases ts.len() - s,
{
    if s < ts.len() {
        lemma_row_feasible(ts, rule, duals, p, s + 1);
    }
}

proof fn lemma_all_feasible<R: WindowRule + ?Sized>(ts: Seq<Trade>, rule: &R, duals: Seq<i64>, p: int)
    requires
        0 <= p <= ts.len(),
        first_infeasible(ts, rule, duals, p) is None,
    ensures
        forall|a: int, t: int|
            p <= a < ts.len() && 0 <= t < ts.len() ==> #[trigger] infeasible_at(ts, rule, duals, a, t) is None,
    decreases ts.len() - p,
{
    if p < ts.len() {
        lemma_row_feasible(ts, rule, duals, p, 0);
        lemma_all_feasible(ts, rule, duals, p + 1);
    }
}

proof fn lemma_no_negative(ds: Seq<i64>, i: int)
    requires
        0 <= i <= ds.len(),
        first_negative_dual(ds, i) is None,
    ensures
        forall|j: int| i <= j < ds.len() ==> ds[j] >= 0,
    decreases ds.len() - i,
{
    if i < ds.len() {
        lemma_no_negative(ds, i + 1);
    }
}

proof fn lemma_no_pair_problem<R: WindowRule + ?Sized>(
    ts: Seq<Trade>,
    rule: &R,
    pairs: Seq<MatchedPair>,
    k: int,
)
    requires
        0 <= k <= pairs.len(),
        first_pair_problem(ts, rule, pairs, k) is None,
    ensures
        forall|j: int| k <= j < pairs.len() ==> #[trigger] pair_problem(ts, rule, pairs, j) is None,
    decreases pairs.len() - k,
{
    if k < pairs.len() {
        lemma_no_pair_problem(ts, rule, pairs, k + 1);
    }
}

proof fn lemma_not_overmatched(ts: Seq<Trade>, pairs: Seq<MatchedPair>, i: int)
    requires
        0 <= i <= ts.len(),
        first_overmatched(ts, pairs, i) is None,
    ensures
        forall|j: int| i <= j < ts.len() ==> #[trigger] shares_matched(pairs, j) <= ts[j].shares,
    decreases ts.len() - i,
{
    if i < ts.len() {
        lemma_not_overmatched(ts, pairs, i + 1);
    }
}

/// Pairs that each claim what they earn claim in sum what they earn.
pub(crate) proof fn lemma_claimed_is_value<R: WindowRule + ?Sized>(ts: Seq<Trade>, rule: &R, pairs: Seq<MatchedPair>)
    requires
        forall|j: int| 0 <= j < pairs.len() ==> (#[trigger] pairs[j]).profit == pair_value(ts, rule, pairs[j]),
    ensures
        claimed_profit(pairs) == pairs_value(ts, rule, pairs),
    decreases pairs.len(),
{
    if pairs.len() > 0 {
        let init = pairs.drop_last();
        assert forall|j: int| 0 <= j < init.len() implies (#[trigger] init[j]).profit == pair_value(
            ts,
            rule,
            init[j],
        ) by {
            assert(init[j] == pairs[j]);
        }
        lemma_claimed_is_value(ts, rule, init);
        assert(pairs[pairs.len() - 1] == pairs.last());
    }
}

/// Pairs without a problem are matchable and claim what they earn.
proof fn lemma_unproblematic_pairs<R: WindowRule + ?Sized>(ts: Seq<Trade>, rule: &R, pairs: Seq<MatchedPair>)
    requires
        forall|j: int| 0 <= j < pairs.len() ==> #[trigger] pair_problem(ts, rule, pairs, j) is None,
    ensures
        claimed_profit(pairs) == pairs_value(ts, rule, pairs),
        forall|j: int| 0 <= j < pairs.len() ==> #[trigger] pair_matchable(ts, rule, pairs[j]),
{
    assert forall|j: int| 0 <= j < pairs.len() implies (#[trigger] pairs[j]).profit == pair_value(
        ts,
        rule,
        pairs[j],
    ) && pair_matchable(ts, rule, pairs[j]) by {
        assert(pair_problem(ts, rule, pairs, j) is None);
    }
    lemma_claimed_is_value(ts, rule, pairs);
}

/// Each pair earns at most what its duals charge for it.
proof fn lemma_value_below_cover<R: WindowRule + ?Sized>(
    ts: Seq<Trade>,
    rule: &R,
    duals: Seq<i64>,
    m: Seq<MatchedPair>,
)
    requires
        forall|k: int| 0 <= k < m.len() ==> #[trigger] pair_covered(ts, rule, duals, m[k]),
    ensures
        pairs_value(ts, rule, m) <= dual_cover(duals, m),
    decreases m.len(),
{
    if m.len() > 0 {
        let init = m.drop_last();
        assert forall|k: int| 0 <= k < init.len() implies #[trigger] pair_covered(ts, rule, duals, init[k]) by {
            assert(init[k] == m[k]);
            assert(pair_covered(ts, rule, duals, m[k]));
        }
        lemma_value_below_cover(ts, rule, duals, init);
        let q = m.last();
        assert(pair_covered(ts, rule, duals, m[m.len() - 1]));
        let g = spec_pair_gain(rule, ts[q.purchase as int], ts[q.sale as int])->0;
        let c = duals[q.purchase as int] + duals[q.sale as int];
        assert(pair_value(ts, rule, q) == q.shares * g);
        assert(q.shares * g <= q.shares * c) by (nonlinear_arith)
            requires
                g <= c,
                q.shares >= 0,
        ;
    }
}

/// Adding one pair to a matching adds its charge to the weighted sum.
proof fn lemma_weighted_step(duals: Seq<i64>, m: Seq<MatchedPair>, k: int)
    requires
        m.len() > 0,
        0 <= k,
    ensures
        weighted_matched(duals, m, k) == weighted_matched(duals, m.drop_last(), k) + (if m.last().purchase
            < k {
            duals[m.last().purchase as int] * m.last().shares
        } else {
            0
        }) + (if m.last().sale < k {
            duals[m.last().sale as int] * m.last().shares
        } else {
            0
        }),
    decreases k,
{
    if k > 0 {
        lemma_weighted_step(duals, m, k - 1);
        let q = m.last();
        let d = duals[k - 1];
        let a = shares_matched(m.drop_last(), k - 1);
        let x = if q.purchase == k - 1 {
            q.shares as int
        } else {
            0
        };
        let y = if q.sale == k - 1 {
            q.shares as int
        } else {
            0
        };
        assert(shares_matched(m, k - 1) == a + x + y);
        assert(d * (a + x + y) == d * a + d * x + d * y) by (nonlinear_arith);
    }
}

/// Charging each pair its duals is charging each trade its dual per matched share.
pub(crate) proof fn lemma_cover_regroups(duals: Seq<i64>, m: Seq<MatchedPair>, n: int)
    requires
        0 <= n,
        forall|k: int| 0 <= k < m.len() ==> (#[trigger] m[k]).purchase < n && m[k].sale < n,
    ensures
        dual_cover(duals, m) == weighted_matched(duals, m, n),
    decreases m.len(),
{
    if m.len() == 0 {
        assert(weighted_matched(duals, m, n) == 0) by {
            lemma_weighted_empty(duals, m, n);
        }
    } else {
        let init = m.drop_last();
        assert forall|k: int| 0 <= k < init.len() implies (#[trigger] init[k]).purchase < n && init[k].sale
            < n by {
            assert(init[k] == m[k]);
        }
        lemma_cover_regroups(duals, init, n);
        lemma_weighted_step(duals, m, n);
        let q = m.last();
        assert(m[m.len() - 1] == q);
        let dp = duals[q.purchase as int];
        let ds = duals[q.sale as int];
        assert(q.shares * (dp + ds) == dp * q.shares + ds * q.shares) by (nonlinear_arith);
    }
}

proof fn lemma_weighted_empty(duals: Seq<i64>, m: Seq<MatchedPair>, k: int)
    requires
        m.len() == 0,
    ensures
        weighted_matched(duals, m, k) == 0,
    decreases k,
{
    if k > 0 {
        lemma_weighted_empty(duals, m, k - 1);
        assert(shares_matched(m, k - 1) == 0);
    }
}

/// With non-negative duals, charging matched shares costs at most charging all shares.
proof fn lemma_weighted_below_dual(ts: Seq<Trade>, duals: Seq<i64>, m: Seq<MatchedPair>, k: int)
    requires
        0 <= k <= ts.len(),
        k <= duals.len(),
        forall|i: int| 0 <= i < k ==> duals[i] >= 0,
        forall|i: int| 0 <= i < k ==> #[trigger] shares_matched(m, i) <= ts[i].shares,
    ensures
        weighted_matched(duals, m, k) <= dual_value(ts, duals, k),
    decreases k,
{
    if k > 0 {
        lemma_weighted_below_dual(ts, duals, m, k - 1);
        let d = duals[k - 1];
        let a = shares_matched(m, k - 1);
        let s = ts[k - 1].shares as int;
        assert(a <= s);
        assert(d * a <= s * d) by (nonlinear_arith)
            requires
                d >= 0,
                a <= s,
        ;
    }
}

/// A matching and certificate that `verify` accepts: the matching is feasible
/// and earns exactly the verified total, which is the claimed total.
pub proof fn law_verified_matching_is_feasible<R: WindowRule + ?Sized>(
    ts: Seq<Trade>,
    rule: &R,
    pairs: Seq<MatchedPair>,
    claimed: i128,
    duals: Seq<i64>,
)
    requires
        spec_verify(ts, rule, pairs, claimed, duals) is Ok,
    ensures
        feasible_matching(ts, rule, pairs),
        spec_verify(ts, rule, pairs, claimed, duals)->Ok_0 == claimed,
        pairs_value(ts, rule, pairs) == claimed,
{
    lemma_no_pair_problem(ts, rule, pairs, 0);
    lemma_unproblematic_pairs(ts, rule, pairs);
    lemma_not_overmatched(ts, pairs, 0);
}

/// Non-negative duals, one per trade, that cover the gain of every matchable
/// purchase and sale.
pub open spec fn dual_feasible<R: WindowRule + ?Sized>(ts: Seq<Trade>, rule: &R, duals: Seq<i64>) -> bool {
    &&& duals.len() == ts.len()
    &&& forall|i: int| 0 <= i < duals.len() ==> #[trigger] duals[i] >= 0
    &&& forall|p: int, s: int|
        0 <= p < ts.len() && 0 <= s < ts.len() ==> #[trigger] dual_covers(ts, rule, duals, p, s)
}

/// If purchase `p` and sale `s` are matchable, their duals add up to at least the gain.
pub open spec fn dual_covers<R: WindowRule + ?Sized>(
    ts: Seq<Trade>,
    rule: &R,
    duals: Seq<i64>,
    p: int,
    s: int,
) -> bool {
    spec_pair_gain(rule, ts[p], ts[s]) matches Some(g) ==> g <= duals[p] + duals[s]
}

/// Weak duality: no feasible matching earns more than the dual objective of a
/// feasible certificate.
pub proof fn law_weak_duality<R: WindowRule + ?Sized>(
    ts: Seq<Trade>,
    rule: &R,
    duals: Seq<i64>,
    m: Seq<MatchedPair>,
)
    requires
        dual_feasible(ts, rule, duals),
        feasible_matching(ts, rule, m),
    ensures
        pairs_value(ts, rule, m) <= dual_value(ts, duals, ts.len() as int),
{
    let n = ts.len() as int;
    assert forall|k: int| 0 <= k < m.len() implies #[trigger] pair_covered(ts, rule, duals, m[k]) by {
        let q = m[k];
        assert(pair_matchable(ts, rule, q));
        assert(dual_covers(ts, rule, duals, q.purchase as int, q.sale as int));
    }
    lemma_value_below_cover(ts, rule, duals, m);
    assert forall|k: int| 0 <= k < m.len() implies (#[trigger] m[k]).purchase < n && m[k].sale < n by {
        assert(pair_matchable(ts, rule, m[k]));
    }
    lemma_cover_regroups(duals, m, n);
    lemma_weighted_below_dual(ts, duals, m, n);
}

/// A certificate that `verify` accepts is dual feasible.
pub proof fn law_verified_certificate_is_feasible<R: WindowRule + ?Sized>(
    ts: Seq<Trade>,
    rule: &R,
    pairs: Seq<MatchedPair>,
    claimed: i128,
    duals: Seq<i64>,
)
    requires
        spec_verify(ts, rule, pairs, claimed, duals) is Ok,
    ensures
        dual_feasible(ts, rule, duals),
        dual_value(ts, duals, ts.len() as int) == claimed,
{
    lemma_no_negative(duals, 0);
    lemma_all_feasible(ts, rule, duals, 0);
    assert forall|p: int, s: int| 0 <= p < ts.len() && 0 <= s < ts.len() implies #[trigger] dual_covers(
        ts,
        rule,
        duals,
        p,
        s,
    ) by {
        assert(infeasible_at(ts, rule, duals, p, s) is None);
    }
}

/// When `verify` accepts a matching and certificate, no feasible matching of
/// the same trades earns more than the verified total.
pub proof fn law_verified_total_is_optimal<R: WindowRule + ?Sized>(
    ts: Seq<Trade>,
    rule: &R,
    pairs: Seq<MatchedPair>,
    claimed: i128,
    duals: Seq<i64>,
    other: Seq<MatchedPair>,
)
    requires
        spec_verify(ts, rule, pairs, claimed, duals) is Ok,
        feasible_matching(ts, rule, other),
    ensures
        pairs_value(ts, rule, other) <= spec_verify(ts, rule, pairs, claimed, duals)->Ok_0,
{
    law_verified_matching_is_feasible(ts, rule, pairs, claimed, duals);
    law_verified_certificate_is_feasible(ts, rule, pairs, claimed, duals);
    law_weak_duality(ts, rule, duals, other);
}

/// What `solve` returns on trades with valid dates and valid window ends is a
/// feasible matching that earns exactly its reported total.
pub proof fn law_solution_is_feasible<R: WindowRule + ?Sized>(ts: Seq<Trade>, rule: &R, sol: Solution)
    requires
        solution_ok(ts, rule, sol),
        dates_ok(ts, rule),
    ensures
        feasible_matching(ts, rule, sol.pairs@),
        pairs_value(ts, rule, sol.pairs@) == sol.total,
{
    let m = sol.pairs@;
    assert forall|k: int| 0 <= k < m.len() implies pair_matchable(ts, rule, #[trigger] m[k])
        && m[k].profit == pair_value(ts, rule, m[k]) by {
        let q = m[k];
        assert(solver_pair_ok(ts, rule, q));
        let p = ts[q.purchase as int];
        let s = ts[q.sale as int];
        law_days_within_is_within(rule, p.date, s.date);
    }
    lemma_claimed_is_value(ts, rule, m);
}

/// Two matchings that `verify` accepts for the same trades earn the same
/// total: the verified optimum does not depend on how it was found.
pub proof fn law_verified_totals_agree<R: WindowRule + ?Sized>(
    ts: Seq<Trade>,
    rule: &R,
    pairs1: Seq<MatchedPair>,
    claimed1: i128,
    duals1: Seq<i64>,
    pairs2: Seq<MatchedPair>,
    claimed2: i128,
    duals2: Seq<i64>,
)
    requires
        spec_verify(ts, rule, pairs1, claimed1, duals1) is Ok,
        spec_verify(ts, rule, pairs2, claimed2, duals2) is Ok,
    ensures
        spec_verify(ts, rule, pairs1, claimed1, duals1)->Ok_0 == spec_verify(
            ts,
            rule,
            pairs2,
            claimed2,
            duals2,
        )->Ok_0,
{
    law_verified_matching_is_feasible(ts, rule, pairs1, claimed1, duals1);
    law_verified_matching_is_feasible(ts, rule, pairs2, claimed2, duals2);
    law_verified_total_is_optimal(ts, rule, pairs1, claimed1, duals1, pairs2);
    law_verified_total_is_optimal(ts, rule, pairs2, claimed2, duals2, pairs1);
}

/// Two histories that pair up alike: the same number of trades, and every
/// purchase and sale are matchable in one exactly when they are in the other,
/// for the same gain.
pub open spec fn same_gains<R: WindowRule + ?Sized>(ts: Seq<Trade>, us: Seq<Trade>, rule: &R) -> bool {
    &&& ts.len() == us.len()
    &&& forall|p: int, s: int|
        0 <= p < ts.len() && 0 <= s < ts.len() ==> #[trigger] spec_pair_gain(rule, ts[p], ts[s])
            == spec_pair_gain(rule, us[p], us[s])
}

/// A matching earns the same in histories that pair up alike.
proof fn lemma_value_same_gains<R: WindowRule + ?Sized>(
    ts: Seq<Trade>,
    us: Seq<Trade>,
    rule: &R,
    m: Seq<MatchedPair>,
)
    requires
        same_gains(ts, us, rule),
    ensures
        pairs_value(ts, rule, m) == pairs_value(us, rule, m),
        forall|k: int|
            0 <= k < m.len() ==> pair_matchable(ts, rule, #[trigger] m[k]) == pair_matchable(us, rule, m[k]),
    decreases m.len(),
{
    if m.len() > 0 {
        lemma_value_same_gains(ts, us, rule, m.drop_last());
        let q = m.last();
        if q.purchase < ts.len() && q.sale < ts.len() {
            assert(spec_pair_gain(rule, ts[q.purchase as int], ts[q.sale as int]) == spec_pair_gain(
                rule,
                us[q.purchase as int],
                us[q.sale as int],
            ));
        }
        assert forall|k: int| 0 <= k < m.len() implies pair_matchable(ts, rule, #[trigger] m[k])
            == pair_matchable(us, rule, m[k]) by {
            let r = m[k];
            if r.purchase < ts.len() && r.sale < ts.len() {
                assert(spec_pair_gain(rule, ts[r.purchase as int], ts[r.sale as int]) == spec_pair_gain(
                    rule,
                    us[r.purchase as int],
                    us[r.sale as int],
                ));
            }
        }
    }
}

/// Histories that pair up alike, with the same share counts, have the same
/// verified optimum.
pub proof fn law_same_gains_same_optimum<R: WindowRule + ?Sized>(
    ts: Seq<Trade>,
    us: Seq<Trade>,
    rule: &R,
    pairs1: Seq<MatchedPair>,
    claimed1: i128,
    duals1: Seq<i64>,
    pairs2: Seq<MatchedPair>,
    claimed2: i128,
    duals2: Seq<i64>,
)
    requires
        same_gains(ts, us, rule),
        forall|i: int| 0 <= i < ts.len() ==> (#[trigger] ts[i]).shares == us[i].shares,
        spec_verify(ts, rule, pairs1, claimed1, duals1) is Ok,
        spec_verify(us, rule, pairs2, claimed2, duals2) is Ok,
    ensures
        spec_verify(ts, rule, pairs1, claimed1, duals1)->Ok_0 == spec_verify(
            us,
            rule,
            pairs2,
            claimed2,
            duals2,
        )->Ok_0,
{
    law_verified_matching_is_feasible(ts, rule, pairs1, claimed1, duals1);
    law_verified_matching_is_feasible(us, rule, pairs2, claimed2, duals2);
    lemma_value_same_gains(ts, us, rule, pairs1);
    lemma_value_same_gains(ts, us, rule, pairs2);
    assert forall|i: int| 0 <= i < us.len() implies #[trigger] shares_matched(pairs1, i) <= us[i].shares by {
        assert(ts[i].shares == us[i].shares);
    }
    assert forall|k: int| 0 <= k < pairs1.len() implies #[trigger] pair_matchable(us, rule, pairs1[k]) by {
        assert(pair_matchable(ts, rule, pairs1[k]));
    }
    law_verified_total_is_optimal(us, rule, pairs2, claimed2, duals2, pairs1);
    assert forall|i: int| 0 <= i < ts.len() implies #[trigger] shares_matched(pairs2, i) <= ts[i].shares by {
        assert(ts[i].shares == us[i].shares);
    }
    assert forall|k: int| 0 <= k < pairs2.len() implies #[trigger] pair_matchable(ts, rule, pairs2[k]) by {
        assert(pair_matchable(us, rule, pairs2[k]));
    }
    law_verified_total_is_optimal(ts, rule, pairs1, claimed1, duals1, pairs2);
}

/// Every trade of `ts` with its price moved by `shift`.
pub open spec fn shift_prices(ts: Seq<Trade>, shift: int) -> Seq<Trade> {
    Seq::new(
        ts.len(),
        |i: int| Trade { price: (ts[i].price + shift) as i64, ..ts[i] },
    )
}

/// Shifting every price by the same amount leaves the verified optimum unchanged.
pub proof fn law_shifting_prices_keeps_the_optimum<R: WindowRule + ?Sized>(
    ts: Seq<Trade>,
    shift: int,
    rule: &R,
    pairs1: Seq<MatchedPair>,
    claimed1: i128,
    duals1: Seq<i64>,
    pairs2: Seq<MatchedPair>,
    claimed2: i128,
    duals2: Seq<i64>,
)
    requires
        forall|i: int| 0 <= i < ts.len() ==> i64::MIN <= (#[trigger] ts[i]).price + shift <= i64::MAX,
        spec_verify(ts, rule, pairs1, claimed1, duals1) is Ok,
        spec_verify(shift_prices(ts, shift), rule, pairs2, claimed2, duals2) is Ok,
    ensures
        spec_verify(ts, rule, pairs1, claimed1, duals1)->Ok_0 == spec_verify(
            shift_prices(ts, shift),
            rule,
            pairs2,
            claimed2,
            duals2,
        )->Ok_0,
{
    let us = shift_prices(ts, shift);
    assert forall|p: int, s: int| 0 <= p < ts.len() && 0 <= s < ts.len() implies #[trigger] spec_pair_gain(
        rule,
        ts[p],
        ts[s],
    ) == spec_pair_gain(rule, us[p], us[s]) by {
        assert(i64::MIN <= ts[p].price + shift <= i64::MAX);
        assert(i64::MIN <= ts[s].price + shift <= i64::MAX);
    }
    law_same_gains_same_optimum(ts, us, rule, pairs1, claimed1, duals1, pairs2, claimed2, duals2);
}

/// `ts` with `extra` appended: the matchings of `ts` stay feasible and earn the same.
proof fn lemma_matching_survives_extra<R: WindowRule + ?Sized>(
    ts: Seq<Trade>,
    extra: Trade,
    rule: &R,
    m: Seq<MatchedPair>,
)
    requires
        feasible_matching(ts, rule, m),
    ensures
        feasible_matching(ts.push(extra), rule, m),
        pairs_value(ts.push(extra), rule, m) == pairs_value(ts, rule, m),
    decreases m.len(),
{
    let us = ts.push(extra);
    if m.len() > 0 {
        let init = m.drop_last();
        assert forall|k: int| 0 <= k < init.len() implies #[trigger] pair_matchable(ts, rule, init[k]) by {
            assert(init[k] == m[k]);
            assert(pair_matchable(ts, rule, m[k]));
        }
        assert forall|k: int| 0 <= k < m.len() implies (#[trigger] m[k]).purchase < ts.len() && m[k].sale
            < ts.len() by {
            assert(pair_matchable(ts, rule, m[k]));
        }
        lemma_shares_matched_prefix(m);
        assert forall|i: int| 0 <= i < ts.len() implies #[trigger] shares_matched(init, i) <= ts[i].shares by {
            assert(shares_matched(m, i) <= ts[i].shares);
        }
        lemma_matching_survives_extra(ts, extra, rule, init);
        assert(pair_matchable(ts, rule, m[m.len() - 1]));
    }
    assert forall|k: int| 0 <= k < m.len() implies #[trigger] pair_matchable(us, rule, m[k]) by {
        assert(pair_matchable(ts, rule, m[k]));
    }
    assert forall|k: int| 0 <= k < m.len() implies (#[trigger] m[k]).purchase < ts.len() && m[k].sale
        < ts.len() by {
        assert(pair_matchable(ts, rule, m[k]));
    }
    lemma_shares_matched_bounded(m, ts.len() as int);
    assert forall|i: int| 0 <= i < us.len() implies #[trigger] shares_matched(m, i) <= us[i].shares by {
        if i < ts.len() {
            assert(shares_matched(m, i) <= ts[i].shares);
        }
    }
}

/// Shares matched never go negative, and nothing is matched on a trade no pair names.
proof fn lemma_shares_matched_bounded(m: Seq<MatchedPair>, n: int)
    requires
        forall|k: int| 0 <= k < m.len() ==> (#[trigger] m[k]).purchase < n && m[k].sale < n,
    ensures
        forall|i: int| i >= n ==> #[trigger] shares_matched(m, i) == 0,
    decreases m.len(),
{
    if m.len() > 0 {
        let init = m.drop_last();
        assert forall|k: int| 0 <= k < init.len() implies (#[trigger] init[k]).purchase < n && init[k].sale
            < n by {
            assert(init[k] == m[k]);
        }
        lemma_shares_matched_bounded(init, n);
        let q = m.last();
        assert(m[m.len() - 1] == q);
        assert forall|i: int| i >= n implies #[trigger] shares_matched(m, i) == 0 by {
            assert(shares_matched(init, i) == 0);
        }
    }
}

/// Dropping the last pair never raises the shares matched on a trade.
proof fn lemma_shares_matched_prefix(m: Seq<MatchedPair>)
    requires
        m.len() > 0,
    ensures
        forall|i: int| #[trigger] shares_matched(m.drop_last(), i) <= shares_matched(m, i),
{
}

/// Adding a trade never lowers the verified optimum.
pub proof fn law_adding_a_trade_never_lowers_the_optimum<R: WindowRule + ?Sized>(
    ts: Seq<Trade>,
    extra: Trade,
    rule: &R,
    pairs1: Seq<MatchedPair>,
    claimed1: i128,
    duals1: Seq<i64>,
    pairs2: Seq<MatchedPair>,
    claimed2: i128,
    duals2: Seq<i64>,
)
    requires
        spec_verify(ts, rule, pairs1, claimed1, duals1) is Ok,
        spec_verify(ts.push(extra), rule, pairs2, claimed2, duals2) is Ok,
    ensures
        spec_verify(ts, rule, pairs1, claimed1, duals1)->Ok_0 <= spec_verify(
            ts.push(extra),
            rule,
            pairs2,
            claimed2,
            duals2,
        )->Ok_0,
{
    law_verified_matching_is_feasible(ts, rule, pairs1, claimed1, duals1);
    lemma_matching_survives_extra(ts, extra, rule, pairs1);
    law_verified_total_is_optimal(ts.push(extra), rule, pairs2, claimed2, duals2, pairs1);
}

/// Every trade of `ts` with its share count multiplied by `k`.
pub open spec fn scale_shares(ts: Seq<Trade>, k: int) -> Seq<Trade> {
    Seq::new(ts.len(), |i: int| Trade { shares: (ts[i].shares * k) as u64, ..ts[i] })
}

/// Every pair of `m` with its shares and profit multiplied by `k`.
pub open spec fn scale_pairs(m: Seq<MatchedPair>, k: int) -> Seq<MatchedPair> {
    Seq::new(
        m.len(),
        |j: int| MatchedPair { shares: (m[j].shares * k) as u64, profit: (m[j].profit * k) as i128, ..m[j] },
    )
}

proof fn lemma_scaled_matching<R: WindowRule + ?Sized>(
    ts: Seq<Trade>,
    k: int,
    rule: &R,
    m: Seq<MatchedPair>,
)
    requires
        k >= 1,
        forall|j: int| 0 <= j < m.len() ==> (#[trigger] m[j]).shares * k <= u64::MAX,
    ensures
        forall|i: int| #[trigger] shares_matched(scale_pairs(m, k), i) == shares_matched(m, i) * k,
        pairs_value(scale_shares(ts, k), rule, scale_pairs(m, k)) == pairs_value(ts, rule, m) * k,
    decreases m.len(),
{
    let sm = scale_pairs(m, k);
    let us = scale_shares(ts, k);
    if m.len() > 0 {
        let init = m.drop_last();
        assert forall|j: int| 0 <= j < init.len() implies (#[trigger] init[j]).shares * k <= u64::MAX by {
            assert(init[j] == m[j]);
        }
        lemma_scaled_matching(ts, k, rule, init);
        assert(scale_pairs(init, k) =~= sm.drop_last());
        let q = m.last();
        assert(m[m.len() - 1] == q);
        assert(q.shares * k <= u64::MAX);
        assert(sm.last().shares == q.shares * k);
        assert(sm.last().purchase == q.purchase && sm.last().sale == q.sale);
        assert forall|i: int| #[trigger] shares_matched(sm, i) == shares_matched(m, i) * k by {
            assert(shares_matched(scale_pairs(init, k), i) == shares_matched(init, i) * k);
            let a = shares_matched(init, i);
            let x = if q.purchase == i {
                q.shares as int
            } else {
                0
            };
            let y = if q.sale == i {
                q.shares as int
            } else {
                0
            };
            assert((a + x + y) * k == a * k + x * k + y * k) by (nonlinear_arith);
        }
        if q.purchase < ts.len() && q.sale < ts.len() {
            assert(spec_pair_gain(rule, ts[q.purchase as int], ts[q.sale as int]) == spec_pair_gain(
                rule,
                us[q.purchase as int],
                us[q.sale as int],
            ));
            if let Some(g) = spec_pair_gain(rule, ts[q.purchase as int], ts[q.sale as int]) {
                assert((q.shares * k) * g == (q.shares * g) * k) by (nonlinear_arith);
            }
        }
        let v0 = pairs_value(ts, rule, init);
        let w = pair_value(ts, rule, q);
        assert((v0 + w) * k == v0 * k + w * k) by (nonlinear_arith);
    }
}

proof fn lemma_scaled_dual_value(ts: Seq<Trade>, k: int, duals: Seq<i64>, j: int)
    requires
        k >= 1,
        0 <= j <= ts.len(),
        forall|i: int| 0 <= i < ts.len() ==> (#[trigger] ts[i]).shares * k <= u64::MAX,
    ensures
        dual_value(scale_shares(ts, k), duals, j) == dual_value(ts, duals, j) * k,
    decreases j,
{
    if j > 0 {
        lemma_scaled_dual_value(ts, k, duals, j - 1);
        let sh = ts[j - 1].shares as int;
        assert(sh * k <= u64::MAX);
        let d = duals[j - 1] as int;
        let v0 = dual_value(ts, duals, j - 1);
        assert((sh * k) * d == (sh * d) * k) by (nonlinear_arith);
        assert((v0 + sh * d) * k == v0 * k + (sh * d) * k) by (nonlinear_arith);
    }
}

/// Multiplying every share count by `k` multiplies the verified optimum by `k`.
pub proof fn law_scaling_shares_scales_the_optimum<R: WindowRule + ?Sized>(
    ts: Seq<Trade>,
    k: int,
    rule: &R,
    pairs1: Seq<MatchedPair>,
    claimed1: i128,
    duals1: Seq<i64>,
    pairs2: Seq<MatchedPair>,
    claimed2: i128,
    duals2: Seq<i64>,
)
    requires
        k >= 1,
        forall|i: int| 0 <= i < ts.len() ==> (#[trigger] ts[i]).shares * k <= u64::MAX,
        spec_verify(ts, rule, pairs1, claimed1, duals1) is Ok,
        spec_verify(scale_shares(ts, k), rule, pairs2, claimed2, duals2) is Ok,
    ensures
        spec_verify(scale_shares(ts, k), rule, pairs2, claimed2, duals2)->Ok_0 == spec_verify(
            ts,
            rule,
            pairs1,
            claimed1,
            duals1,
        )->Ok_0 * k,
{
    let us = scale_shares(ts, k);
    let n = ts.len() as int;
    law_verified_matching_is_feasible(ts, rule, pairs1, claimed1, duals1);
    law_verified_certificate_is_feasible(ts, rule, pairs1, claimed1, duals1);
    law_verified_matching_is_feasible(us, rule, pairs2, claimed2, duals2);
    assert forall|p: int, s: int| 0 <= p < ts.len() && 0 <= s < ts.len() implies #[trigger] spec_pair_gain(
        rule,
        ts[p],
        ts[s],
    ) == spec_pair_gain(rule, us[p], us[s]) by {
    }
    // The scaled optimum is at least `k` times the unscaled one: scale its matching.
    assert forall|j: int| 0 <= j < pairs1.len() implies (#[trigger] pairs1[j]).shares * k <= u64::MAX by {
        let q = pairs1[j];
        assert(pair_matchable(ts, rule, q));
        lemma_pair_within_purchase(pairs1, j);
        assert(shares_matched(pairs1, q.purchase as int) <= ts[q.purchase as int].shares);
        assert(q.shares * k <= ts[q.purchase as int].shares * k) by (nonlinear_arith)
            requires
                q.shares <= ts[q.purchase as int].shares,
                k >= 1,
        ;
    }
    lemma_scaled_matching(ts, k, rule, pairs1);
    let sm = scale_pairs(pairs1, k);
    assert forall|j: int| 0 <= j < sm.len() implies #[trigger] pair_matchable(us, rule, sm[j]) by {
        assert(pair_matchable(ts, rule, pairs1[j]));
    }
    assert forall|i: int| 0 <= i < us.len() implies #[trigger] shares_matched(sm, i) <= us[i].shares by {
        let a = shares_matched(pairs1, i);
        assert(a <= ts[i].shares);
        assert(a * k <= ts[i].shares * k) by (nonlinear_arith)
            requires
                a <= ts[i].shares,
                k >= 1,
        ;
    }
    law_verified_total_is_optimal(us, rule, pairs2, claimed2, duals2, sm);
    // And at most `k` times: the unscaled certificate still covers every pair.
    assert forall|p: int, s: int| 0 <= p < us.len() && 0 <= s < us.len() implies #[trigger] dual_covers(
        us,
        rule,
        duals1,
        p,
        s,
    ) by {
        assert(dual_covers(ts, rule, duals1, p, s));
    }
    law_weak_duality(us, rule, duals1, pairs2);
    lemma_scaled_dual_value(ts, k, duals1, n);
}

/// A pair's shares count towards the shares matched on its purchase and on its sale.
proof fn lemma_pair_within_purchase(m: Seq<MatchedPair>, j: int)
    requires
        0 <= j < m.len(),
    ensures
        m[j].shares <= shares_matched(m, m[j].purchase as int),
        m[j].shares <= shares_matched(m, m[j].sale as int),
    decreases m.len(),
{
    if j < m.len() - 1 {
        lemma_pair_within_purchase(m.drop_last(), j);
        assert(m.drop_last()[j] == m[j]);
    }
    lemma_shares_matched_nonneg(m.drop_last(), m[j].purchase as int);
    lemma_shares_matched_nonneg(m.drop_last(), m[j].sale as int);
}

/// No pair that `solve` reports matches more shares than either of its trades has.
pub proof fn law_solution_pairs_within_trades<R: WindowRule + ?Sized>(ts: Seq<Trade>, rule: &R, sol: Solution)
    requires
        solution_ok(ts, rule, sol),
    ensures
        forall|k: int|
            0 <= k < sol.pairs@.len() ==> (#[trigger] sol.pairs@[k]).shares <= ts[sol.pairs@[k].purchase as int].shares
                && sol.pairs@[k].shares <= ts[sol.pairs@[k].sale as int].shares,
{
    let m = sol.pairs@;
    assert forall|k: int| 0 <= k < m.len() implies (#[trigger] m[k]).shares <= ts[m[k].purchase as int].shares
        && m[k].shares <= ts[m[k].sale as int].shares by {
        assert(solver_pair_ok(ts, rule, m[k]));
        lemma_pair_within_purchase(m, k);
        assert(shares_matched(m, m[k].purchase as int) <= ts[m[k].purchase as int].shares);
        assert(shares_matched(m, m[k].sale as int) <= ts[m[k].sale as int].shares);
    }
}

proof fn lemma_shares_matched_nonneg(m: Seq<MatchedPair>, i: int)
    ensures
        shares_matched(m, i) >= 0,
    decreases m.len(),
{
    if m.len() > 0 {
        lemma_shares_matched_nonneg(m.drop_last(), i);
    }
}

/// Pair `q` joins a matchable purchase and sale, matches some shares, and
/// claims exactly what those shares earn.
pub open spec fn exact_pair<R: WindowRule + ?Sized>(ts: Seq<Trade>, rule: &R, q: MatchedPair) -> bool {
    &&& pair_matchable(ts, rule, q)
    &&& q.shares > 0
    &&& q.profit == q.shares * spec_pair_gain(rule, ts[q.purchase as int], ts[q.sale as int])->0
}

/// The duals of pair `q`'s purchase and sale add up to exactly its price gain.
pub open spec fn pair_tight(ts: Seq<Trade>, duals: Seq<i64>, q: MatchedPair) -> bool {
    duals[q.purchase as int] + duals[q.sale as int] == ts[q.sale as int].price - ts[q.purchase as int].price
}

proof fn lemma_no_first_pair_problem<R: WindowRule + ?Sized>(
    ts: Seq<Trade>,
    rule: &R,
    pairs: Seq<MatchedPair>,
    k: int,
)
    requires
        0 <= k <= pairs.len(),
        forall|j: int| 0 <= j < pairs.len() ==> #[trigger] exact_pair(ts, rule, pairs[j]),
    ensures
        first_pair_problem(ts, rule, pairs, k) is None,
    decreases pairs.len() - k,
{
    if k < pairs.len() {
        assert(exact_pair(ts, rule, pairs[k]));
        lemma_no_first_pair_problem(ts, rule, pairs, k + 1);
    }
}

proof fn lemma_no_first_overmatched(ts: Seq<Trade>, pairs: Seq<MatchedPair>, i: int)
    requires
        0 <= i <= ts.len(),
        forall|j: int| 0 <= j < ts.len() ==> #[trigger] shares_matched(pairs, j) <= ts[j].shares,
    ensures
        first_overmatched(ts, pairs, i) is None,
    decreases ts.len() - i,
{
    if i < ts.len() {
        assert(shares_matched(pairs, i) <= ts[i].shares);
        lemma_no_first_overmatched(ts, pairs, i + 1);
    }
}

proof fn lemma_no_first_negative(ds: Seq<i64>, i: int)
    requires
        0 <= i <= ds.len(),
        forall|j: int| 0 <= j < ds.len() ==> #[trigger] ds[j] >= 0,
    ensures
        first_negative_dual(ds, i) is None,
    decreases ds.len() - i,
{
    if i < ds.len() {
        assert(ds[i] >= 0);
        lemma_no_first_negative(ds, i + 1);
    }
}

proof fn lemma_no_infeasible_in_row<R: WindowRule + ?Sized>(
    ts: Seq<Trade>,
    rule: &R,
    duals: Seq<i64>,
    p: int,
    s: int,
)
    requires
        dual_feasible(ts, rule, duals),
        0 <= p < ts.len(),
        0 <= s <= ts.len(),
    ensures
        first_infeasible_in_row(ts, rule, duals, p, s) is None,
    decreases ts.len() - s,
{
    if s < ts.len() {
        assert(dual_covers(ts, rule, duals, p, s));
        lemma_no_infeasible_in_row(ts, rule, duals, p, s + 1);
    }
}

proof fn lemma_no_infeasible<R: WindowRule + ?Sized>(ts: Seq<Trade>, rule: &R, duals: Seq<i64>, p: int)
    requires
        dual_feasible(ts, rule, duals),
        0 <= p <= ts.len(),
    ensures
        first_infeasible(ts, rule, duals, p) is None,
    decreases ts.len() - p,
{
    if p < ts.len() {
        lemma_no_infeasible_in_row(ts, rule, duals, p, 0);
        lemma_no_infeasible(ts, rule, duals, p + 1);
    }
}

proof fn lemma_no_slack_pair(ts: Seq<Trade>, duals: Seq<i64>, pairs: Seq<MatchedPair>, k: int)
    requires
        0 <= k <= pairs.len(),
        forall|j: int| 0 <= j < pairs.len() ==> #[trigger] pair_tight(ts, duals, pairs[j]),
    ensures
        first_slack_pair(ts, duals, pairs, k) is None,
    decreases pairs.len() - k,
{
    if k < pairs.len() {
        assert(pair_tight(ts, duals, pairs[k]));
        lemma_no_slack_pair(ts, duals, pairs, k + 1);
    }
}

proof fn lemma_no_slack_trade(ts: Seq<Trade>, duals: Seq<i64>, pairs: Seq<MatchedPair>, i: int)
    requires
        0 <= i <= ts.len(),
        duals.len() == ts.len(),
        forall|j: int|
            0 <= j < ts.len() && duals[j] > 0 ==> #[trigger] shares_matched(pairs, j) == ts[j].shares,
    ensures
        first_slack_trade(ts, duals, pairs, i) is None,
    decreases ts.len() - i,
{
    if i < ts.len() {
        if duals[i] > 0 {
            assert(shares_matched(pairs, i) == ts[i].shares);
        }
        lemma_no_slack_trade(ts, duals, pairs, i + 1);
    }
}

/// Exact pairs whose duals are tight claim in sum what their duals charge.
proof fn lemma_profit_is_cover<R: WindowRule + ?Sized>(
    ts: Seq<Trade>,
    rule: &R,
    duals: Seq<i64>,
    pairs: Seq<MatchedPair>,
)
    requires
        forall|j: int| 0 <= j < pairs.len() ==> #[trigger] exact_pair(ts, rule, pairs[j]),
        forall|j: int| 0 <= j < pairs.len() ==> #[trigger] pair_tight(ts, duals, pairs[j]),
    ensures
        claimed_profit(pairs) == dual_cover(duals, pairs),
    decreases pairs.len(),
{
    if pairs.len() > 0 {
        let init = pairs.drop_last();
        assert forall|j: int| 0 <= j < init.len() implies #[trigger] exact_pair(ts, rule, init[j])
            && pair_tight(ts, duals, init[j]) by {
            assert(init[j] == pairs[j]);
            assert(exact_pair(ts, rule, pairs[j]));
            assert(pair_tight(ts, duals, pairs[j]));
        }
        lemma_profit_is_cover(ts, rule, duals, init);
        assert(exact_pair(ts, rule, pairs[pairs.len() - 1]));
        assert(pair_tight(ts, duals, pairs[pairs.len() - 1]));
    }
}

/// With every trade of positive dual fully matched, charging matched shares
/// is charging all shares.
proof fn lemma_weighted_is_dual(ts: Seq<Trade>, duals: Seq<i64>, m: Seq<MatchedPair>, k: int)
    requires
        0 <= k <= ts.len(),
        duals.len() == ts.len(),
        forall|j: int| 0 <= j < ts.len() ==> #[trigger] duals[j] >= 0,
        forall|j: int|
            0 <= j < ts.len() && duals[j] > 0 ==> #[trigger] shares_matched(m, j) == ts[j].shares,
    ensures
        weighted_matched(duals, m, k) == dual_value(ts, duals, k),
    decreases k,
{
    if k > 0 {
        lemma_weighted_is_dual(ts, duals, m, k - 1);
        let d = duals[k - 1];
        let a = shares_matched(m, k - 1);
        let s = ts[k - 1].shares as int;
        assert(d >= 0);
        if d > 0 {
            assert(a == s);
        }
        assert(d * a == s * d) by (nonlinear_arith)
            requires
                d == 0 || a == s,
        ;
    }
}

/// Complementary slackness is what `verify` checks: exact pairs within the
/// trades' shares, and a feasible certificate under which every matched pair
/// is tight and every trade with a positive dual is fully matched, are
/// accepted with the claimed total.
pub proof fn law_complementary_slackness_verifies<R: WindowRule + ?Sized>(
    ts: Seq<Trade>,
    rule: &R,
    pairs: Seq<MatchedPair>,
    claimed: i128,
    duals: Seq<i64>,
)
    requires
        forall|k: int| 0 <= k < pairs.len() ==> #[trigger] exact_pair(ts, rule, pairs[k]),
        forall|i: int| 0 <= i < ts.len() ==> #[trigger] shares_matched(pairs, i) <= ts[i].shares,
        claimed == claimed_profit(pairs),
        dual_feasible(ts, rule, duals),
        forall|k: int| 0 <= k < pairs.len() ==> #[trigger] pair_tight(ts, duals, pairs[k]),
        forall|i: int|
            0 <= i < ts.len() && duals[i] > 0 ==> #[trigger] shares_matched(pairs, i) == ts[i].shares,
    ensures
        spec_verify(ts, rule, pairs, claimed, duals) == Ok::<int, Violation>(claimed as int),
{
    let n = ts.len() as int;
    lemma_no_first_pair_problem(ts, rule, pairs, 0);
    lemma_no_first_overmatched(ts, pairs, 0);
    lemma_no_first_negative(duals, 0);
    lemma_no_infeasible(ts, rule, duals, 0);
    lemma_no_slack_pair(ts, duals, pairs, 0);
    lemma_no_slack_trade(ts, duals, pairs, 0);
    lemma_profit_is_cover(ts, rule, duals, pairs);
    assert forall|k: int| 0 <= k < pairs.len() implies (#[trigger] pairs[k]).purchase < n && pairs[k].sale
        < n by {
        assert(exact_pair(ts, rule, pairs[k]));
    }
    lemma_cover_regroups(duals, pairs, n);
    lemma_weighted_is_dual(ts, duals, pairs, n);
}

/// On trades with valid dates and valid window ends, what `solve` reports is
/// optimal: no feasible matching of the same trades earns more.
pub proof fn law_solution_is_optimal<R: WindowRule + ?Sized>(
    ts: Seq<Trade>,
    rule: &R,
    sol: Solution,
    other: Seq<MatchedPair>,
)
    requires
        solution_ok(ts, rule, sol),
        dates_ok(ts, rule),
        feasible_matching(ts, rule, other),
    ensures
        pairs_value(ts, rule, other) <= sol.total,
{
    law_verified_total_is_optimal(ts, rule, sol.pairs@, sol.total, sol.certificate.duals@, other);
}

/// Any two solutions `solve` returns for the same trades (with or without
/// capacity scaling) report the same total.
pub proof fn law_solutions_agree<R: WindowRule + ?Sized>(ts: Seq<Trade>, rule: &R, sol1: Solution, sol2: Solution)
    requires
        solution_ok(ts, rule, sol1),
        solution_ok(ts, rule, sol2),
        dates_ok(ts, rule),
    ensures
        sol1.total == sol2.total,
{
    law_verified_totals_agree(
        ts,
        rule,
        sol1.pairs@,
        sol1.total,
        sol1.certificate.duals@,
        sol2.pairs@,
        sol2.total,
        sol2.certificate.duals@,
    );
}

/// Adding a trade never lowers the total `solve` reports.
pub proof fn law_solve_adding_a_trade_never_lowers_the_total<R: WindowRule + ?Sized>(
    ts: Seq<Trade>,
    extra: Trade,
    rule: &R,
    sol1: Solution,
    sol2: Solution,
)
    requires
        solution_ok(ts, rule, sol1),
        solution_ok(ts.push(extra), rule, sol2),
        dates_ok(ts.push(extra), rule),
    ensures
        sol1.total <= sol2.total,
{
    assert(dates_ok(ts, rule)) by {
        assert forall|i: int| 0 <= i < ts.len() implies (#[trigger] ts[i]).date.is_valid()
            && rule.spec_window_end(ts[i].date).is_valid() by {
            assert(ts.push(extra)[i] == ts[i]);
        }
    }
    law_adding_a_trade_never_lowers_the_optimum(
        ts,
        extra,
        rule,
        sol1.pairs@,
        sol1.total,
        sol1.certificate.duals@,
        sol2.pairs@,
        sol2.total,
        sol2.certificate.duals@,
    );
}

/// Shifting every price by the same amount leaves the total `solve` reports unchanged.
pub proof fn law_solve_shifting_prices_keeps_the_total<R: WindowRule + ?Sized>(
    ts: Seq<Trade>,
    shift: int,
    rule: &R,
    sol1: Solution,
    sol2: Solution,
)
    requires
        forall|i: int| 0 <= i < ts.len() ==> i64::MIN <= (#[trigger] ts[i]).price + shift <= i64::MAX,
        solution_ok(ts, rule, sol1),
        solution_ok(shift_prices(ts, shift), rule, sol2),
        dates_ok(ts, rule),
    ensures
        sol1.total == sol2.total,
{
    let us = shift_prices(ts, shift);
    assert(dates_ok(us, rule)) by {
        assert forall|i: int| 0 <= i < us.len() implies (#[trigger] us[i]).date.is_valid()
            && rule.spec_window_end(us[i].date).is_valid() by {
            assert(us[i].date == ts[i].date);
        }
    }
    law_shifting_prices_keeps_the_optimum(
        ts,
        shift,
        rule,
        sol1.pairs@,
        sol1.total,
        sol1.certificate.duals@,
        sol2.pairs@,
        sol2.total,
        sol2.certificate.duals@,
    );
}

/// Multiplying every share count by `k` multiplies the total `solve` reports by `k`.
pub proof fn law_solve_scaling_shares_scales_the_total<R: WindowRule + ?Sized>(
    ts: Seq<Trade>,
    k: int,
    rule: &R,
    sol1: Solution,
    sol2: Solution,
)
    requires
        k >= 1,
        forall|i: int| 0 <= i < ts.len() ==> (#[trigger] ts[i]).shares * k <= u64::MAX,
        solution_ok(ts, rule, sol1),
        solution_ok(scale_shares(ts, k), rule, sol2),
        dates_ok(ts, rule),
    ensures
        sol2.total == sol1.total * k,
{
    let us = scale_shares(ts, k);
    assert(dates_ok(us, rule)) by {
        assert forall|i: int| 0 <= i < us.len() implies (#[trigger] us[i]).date.is_valid()
            && rule.spec_window_end(us[i].date).is_valid() by {
            assert(us[i].date == ts[i].date);
        }
    }
    law_scaling_shares_scales_the_optimum(
        ts,
        k,
        rule,
        sol1.pairs@,
        sol1.total,
        sol1.certificate.duals@,
        sol2.pairs@,
        sol2.total,
        sol2.certificate.duals@,
    );
}

} // verus!
