//! Independent optimality check.
//!
//! This module does not look at the solver's network or potentials. It
//! recomputes which pairs are matchable directly from the trades and the
//! window rule, then checks a claimed matching and dual prices against the LP
//!
//! ```text
//! maximise   sum gain(p,s) * x(p,s)
//! subject to sum_s x(p,s) <= shares(p),  sum_p x(p,s) <= shares(s),  x >= 0
//! ```
//!
//! and its dual (`u_p, v_s >= 0`, `u_p + v_s >= gain(p,s)`). A primal-feasible
//! matching and a dual-feasible certificate with equal objectives are both
//! optimal; that equality is exactly complementary slackness.

use vstd::prelude::*;
use crate::date::{Date, WindowRule, date_before, spec_within};
use crate::text::{int_text, write_decimal, write_int};
use crate::solver::{dual_value, dual_value_fits, min_len, Certificate};
use crate::trade::{
    claimed_profit, pair_gain, shares_matched, spec_pair_gain, MatchedPair, Side, Trade,
};

verus! {

#[derive(Clone, Debug, PartialEq, Eq, Structural)]
pub enum Violation {
    CertificateLength { expected: usize, found: usize },
    BadIndex { pair: usize },
    NotMatchable { pair: usize },
    ZeroShares { pair: usize },
    WrongProfit { pair: usize, claimed: i128, actual: i128 },
    Overmatched { trade: usize, matched: u128, available: u64 },
    NegativeDual { trade: usize },
    DualInfeasible { purchase: usize, sale: usize, gain: i64, dual_sum: i128 },
    SlackPair { pair: usize, gain: i64, dual_sum: i128 },
    SlackTrade { trade: usize, dual: i64, matched: u128, available: u64 },
    TotalMismatch { claimed: i128, actual: i128 },
    DualityGap { primal: i128, dual: i128 },
}

impl Violation {
    /// The message `to_string` gives.
    pub open spec fn spec_text(self) -> Seq<char> {
        match self {
            Violation::CertificateLength { expected, found } => "certificate has "@ + int_text(
                found as int,
            ) + " duals, expected "@ + int_text(expected as int),
            Violation::BadIndex { pair } => "pair "@ + int_text(pair as int)
                + " does not join a purchase to a sale"@,
            Violation::NotMatchable { pair } => "pair "@ + int_text(pair as int)
                + " is outside the window or not profitable"@,
            Violation::ZeroShares { pair } => "pair "@ + int_text(pair as int) + " matches zero shares"@,
            Violation::WrongProfit { pair, claimed, actual } => "pair "@ + int_text(pair as int)
                + " claims profit "@ + int_text(claimed as int) + ", actual "@ + int_text(actual as int),
            Violation::Overmatched { trade, matched, available } => "trade "@ + int_text(trade as int)
                + " matched "@ + int_text(matched as int) + " shares but has "@ + int_text(
                available as int,
            ),
            Violation::NegativeDual { trade } => "trade "@ + int_text(trade as int)
                + " has a negative dual"@,
            Violation::DualInfeasible { purchase, sale, gain, dual_sum } => "duals of purchase "@
                + int_text(purchase as int) + " and sale "@ + int_text(sale as int) + " sum to "@
                + int_text(dual_sum as int) + " < gain "@ + int_text(gain as int),
            Violation::SlackPair { pair, gain, dual_sum } => "pair "@ + int_text(pair as int)
                + " is matched but its duals sum to "@ + int_text(dual_sum as int) + ", not gain "@
                + int_text(gain as int),
            Violation::SlackTrade { trade, dual, matched, available } => "trade "@ + int_text(
                trade as int,
            ) + " has dual "@ + int_text(dual as int) + " > 0 but only "@ + int_text(matched as int)
                + " of "@ + int_text(available as int) + " shares matched"@,
            Violation::TotalMismatch { claimed, actual } => "claimed total "@ + int_text(claimed as int)
                + " but pairs sum to "@ + int_text(actual as int),
            Violation::DualityGap { primal, dual } => "matching profit "@ + int_text(primal as int)
                + " is below the dual bound "@ + int_text(dual as int),
        }
    }

    /// A one-line description of what failed.
    pub fn to_string(&self) -> (r: String)
        ensures
            r@ == self.spec_text(),
    {
        let mut out = String::new();
        match self {
            Violation::CertificateLength { expected, found } => {
                out.append("certificate has ");
                write_int(&mut out, *found as i128);
                out.append(" duals, expected ");
                write_int(&mut out, *expected as i128);
            },
            Violation::BadIndex { pair } => {
                out.append("pair ");
                write_int(&mut out, *pair as i128);
                out.append(" does not join a purchase to a sale");
            },
            Violation::NotMatchable { pair } => {
                out.append("pair ");
                write_int(&mut out, *pair as i128);
                out.append(" is outside the window or not profitable");
            },
            Violation::ZeroShares { pair } => {
                out.append("pair ");
                write_int(&mut out, *pair as i128);
                out.append(" matches zero shares");
            },
            Violation::WrongProfit { pair, claimed, actual } => {
                out.append("pair ");
                write_int(&mut out, *pair as i128);
                out.append(" claims profit ");
                write_int(&mut out, *claimed);
                out.append(", actual ");
                write_int(&mut out, *actual);
            },
            Violation::Overmatched { trade, matched, available } => {
                out.append("trade ");
                write_int(&mut out, *trade as i128);
                out.append(" matched ");
                write_decimal(&mut out, *matched);
                out.append(" shares but has ");
                write_int(&mut out, *available as i128);
            },
            Violation::NegativeDual { trade } => {
                out.append("trade ");
                write_int(&mut out, *trade as i128);
                out.append(" has a negative dual");
            },
            Violation::DualInfeasible { purchase, sale, gain, dual_sum } => {
                out.append("duals of purchase ");
                write_int(&mut out, *purchase as i128);
                out.append(" and sale ");
                write_int(&mut out, *sale as i128);
                out.append(" sum to ");
                write_int(&mut out, *dual_sum);
                out.append(" < gain ");
                write_int(&mut out, *gain as i128);
            },
            Violation::SlackPair { pair, gain, dual_sum } => {
                out.append("pair ");
                write_int(&mut out, *pair as i128);
                out.append(" is matched but its duals sum to ");
                write_int(&mut out, *dual_sum);
                out.append(", not gain ");
                write_int(&mut out, *gain as i128);
            },
            Violation::SlackTrade { trade, dual, matched, available } => {
                out.append("trade ");
                write_int(&mut out, *trade as i128);
                out.append(" has dual ");
                write_int(&mut out, *dual as i128);
                out.append(" > 0 but only ");
                write_decimal(&mut out, *matched);
                out.append(" of ");
                write_int(&mut out, *available as i128);
                out.append(" shares matched");
            },
            Violation::TotalMismatch { claimed, actual } => {
                out.append("claimed total ");
                write_int(&mut out, *claimed);
                out.append(" but pairs sum to ");
                write_int(&mut out, *actual);
            },
            Violation::DualityGap { primal, dual } => {
                out.append("matching profit ");
                write_int(&mut out, *primal);
                out.append(" is below the dual bound ");
                write_int(&mut out, *dual);
            },
        }
        assert(out@ =~= self.spec_text());
        out
    }
}

/// What is wrong with pair `k` on its own, if anything.
pub open spec fn pair_problem<R: WindowRule + ?Sized>(
    ts: Seq<Trade>,
    rule: &R,
    pairs: Seq<MatchedPair>,
    k: int,
) -> Option<Violation> {
    let q = pairs[k];
    if q.purchase >= ts.len() || q.sale >= ts.len() {
        Some(Violation::BadIndex { pair: k as usize })
    } else if ts[q.purchase as int].side != Side::Buy || ts[q.sale as int].side != Side::Sell {
        Some(Violation::BadIndex { pair: k as usize })
    } else {
        match spec_pair_gain(rule, ts[q.purchase as int], ts[q.sale as int]) {
            None => Some(Violation::NotMatchable { pair: k as usize }),
            Some(g) => if q.shares == 0 {
                Some(Violation::ZeroShares { pair: k as usize })
            } else if q.shares * g != q.profit {
                Some(
                    Violation::WrongProfit {
                        pair: k as usize,
                        claimed: q.profit,
                        actual: (q.shares * g) as i128,
                    },
                )
            } else {
                None
            },
        }
    }
}

/// The problem of the first pair at or after `k` that has one.
pub open spec fn first_pair_problem<R: WindowRule + ?Sized>(
    ts: Seq<Trade>,
    rule: &R,
    pairs: Seq<MatchedPair>,
    k: int,
) -> Option<Violation>
    decreases pairs.len() - k,
{
    if k < 0 || k >= pairs.len() {
        None
    } else {
        match pair_problem(ts, rule, pairs, k) {
            Some(v) => Some(v),
            None => first_pair_problem(ts, rule, pairs, k + 1),
        }
    }
}

/// The first trade at or after `i` matched beyond its shares.
pub open spec fn first_overmatched(ts: Seq<Trade>, pairs: Seq<MatchedPair>, i: int) -> Option<
    Violation,
>
    decreases ts.len() - i,
{
    if i < 0 || i >= ts.len() {
        None
    } else if shares_matched(pairs, i) > ts[i].shares {
        Some(
            Violation::Overmatched {
                trade: i as usize,
                matched: shares_matched(pairs, i) as u128,
                available: ts[i].shares,
            },
        )
    } else {
        first_overmatched(ts, pairs, i + 1)
    }
}

/// The first negative dual at or after `i`.
pub open spec fn first_negative_dual(duals: Seq<i64>, i: int) -> Option<Violation>
    decreases duals.len() - i,
{
    if i < 0 || i >= duals.len() {
        None
    } else if duals[i] < 0 {
        Some(Violation::NegativeDual { trade: i as usize })
    } else {
        first_negative_dual(duals, i + 1)
    }
}

/// Purchase `p` and sale `s` are matchable but their duals fall short of the gain.
pub open spec fn infeasible_at<R: WindowRule + ?Sized>(
    ts: Seq<Trade>,
    rule: &R,
    duals: Seq<i64>,
    p: int,
    s: int,
) -> Option<Violation> {
    if ts[p].side == Side::Buy && ts[s].side == Side::Sell {
        match spec_pair_gain(rule, ts[p], ts[s]) {
            Some(g) => if duals[p] + duals[s] < g {
                Some(
                    Violation::DualInfeasible {
                        purchase: p as usize,
                        sale: s as usize,
                        gain: g as i64,
                        dual_sum: (duals[p] + duals[s]) as i128,
                    },
                )
            } else {
                None
            },
            None => None,
        }
    } else {
        None
    }
}

/// The first dual-infeasible pair `(p, s')` with `s' >= s`.
pub open spec fn first_infeasible_in_row<R: WindowRule + ?Sized>(
    ts: Seq<Trade>,
    rule: &R,
    duals: Seq<i64>,
    p: int,
    s: int,
) -> Option<Violation>
    decreases ts.len() - s,
{
    if s < 0 || s >= ts.len() {
        None
    } else {
        match infeasible_at(ts, rule, duals, p, s) {
            Some(v) => Some(v),
            None => first_infeasible_in_row(ts, rule, duals, p, s + 1),
        }
    }
}

/// The first dual-infeasible pair whose purchase is at or after `p`.
pub open spec fn first_infeasible<R: WindowRule + ?Sized>(
    ts: Seq<Trade>,
    rule: &R,
    duals: Seq<i64>,
    p: int,
) -> Option<Violation>
    decreases ts.len() - p,
{
    if p < 0 || p >= ts.len() {
        None
    } else {
        match first_infeasible_in_row(ts, rule, duals, p, 0) {
            Some(v) => Some(v),
            None => first_infeasible(ts, rule, duals, p + 1),
        }
    }
}

/// The first matched pair at or after `k` whose duals do not add up to its gain.
pub open spec fn first_slack_pair(
    ts: Seq<Trade>,
    duals: Seq<i64>,
    pairs: Seq<MatchedPair>,
    k: int,
) -> Option<Violation>
    decreases pairs.len() - k,
{
    if k < 0 || k >= pairs.len() {
        None
    } else {
        let q = pairs[k];
        let gain = ts[q.sale as int].price - ts[q.purchase as int].price;
        let dual_sum = duals[q.purchase as int] + duals[q.sale as int];
        if dual_sum != gain {
            Some(
                Violation::SlackPair {
                    pair: k as usize,
                    gain: gain as i64,
                    dual_sum: dual_sum as i128,
                },
            )
        } else {
            first_slack_pair(ts, duals, pairs, k + 1)
        }
    }
}

/// The first trade at or after `i` with a positive dual that is not fully matched.
pub open spec fn first_slack_trade(
    ts: Seq<Trade>,
    duals: Seq<i64>,
    pairs: Seq<MatchedPair>,
    i: int,
) -> Option<Violation>
    decreases ts.len() - i,
{
    if i < 0 || i >= ts.len() {
        None
    } else if duals[i] > 0 && shares_matched(pairs, i) != ts[i].shares {
        Some(
            Violation::SlackTrade {
                trade: i as usize,
                dual: duals[i],
                matched: shares_matched(pairs, i) as u128,
                available: ts[i].shares,
            },
        )
    } else {
        first_slack_trade(ts, duals, pairs, i + 1)
    }
}

/// What `verify` gives: the first violation in the order of the checks, or the
/// verified total.
pub open spec fn spec_verify<R: WindowRule + ?Sized>(
    ts: Seq<Trade>,
    rule: &R,
    pairs: Seq<MatchedPair>,
    claimed: i128,
    duals: Seq<i64>,
) -> Result<int, Violation> {
    let primal = claimed_profit(pairs);
    let dual = dual_value(ts, duals, ts.len() as int);
    if duals.len() != ts.len() {
        Err(Violation::CertificateLength { expected: ts.len() as usize, found: duals.len() as usize })
    } else if first_pair_problem(ts, rule, pairs, 0) is Some {
        Err(first_pair_problem(ts, rule, pairs, 0)->0)
    } else if first_overmatched(ts, pairs, 0) is Some {
        Err(first_overmatched(ts, pairs, 0)->0)
    } else if primal != claimed {
        Err(Violation::TotalMismatch { claimed, actual: primal as i128 })
    } else if first_negative_dual(duals, 0) is Some {
        Err(first_negative_dual(duals, 0)->0)
    } else if first_infeasible(ts, rule, duals, 0) is Some {
        Err(first_infeasible(ts, rule, duals, 0)->0)
    } else if first_slack_pair(ts, duals, pairs, 0) is Some {
        Err(first_slack_pair(ts, duals, pairs, 0)->0)
    } else if first_slack_trade(ts, duals, pairs, 0) is Some {
        Err(first_slack_trade(ts, duals, pairs, 0)->0)
    } else if primal != dual {
        Err(Violation::DualityGap { primal: primal as i128, dual: dual as i128 })
    } else {
        Ok(primal)
    }
}

/// What pair `q` earns if it is a matchable purchase and sale, else nothing.
pub open spec fn pair_value<R: WindowRule + ?Sized>(ts: Seq<Trade>, rule: &R, q: MatchedPair) -> int {
    if q.purchase < ts.len() && q.sale < ts.len() {
        match spec_pair_gain(rule, ts[q.purchase as int], ts[q.sale as int]) {
            Some(g) => q.shares * g,
            None => 0,
        }
    } else {
        0
    }
}

pub open spec fn pairs_value<R: WindowRule + ?Sized>(ts: Seq<Trade>, rule: &R, pairs: Seq<MatchedPair>) -> int
    decreases pairs.len(),
{
    if pairs.len() == 0 {
        0
    } else {
        pairs_value(ts, rule, pairs.drop_last()) + pair_value(ts, rule, pairs.last())
    }
}

/// The pair checks from pair `k` on stay in range: every gain computed before
/// the first failing pair fits in `i64`, and every running total of the
/// accepted pairs' profits fits in `i128`.
pub open spec fn pairs_fit<R: WindowRule + ?Sized>(ts: Seq<Trade>, rule: &R, pairs: Seq<MatchedPair>, k: int) -> bool
    decreases pairs.len() - k,
{
    if k < 0 || k >= pairs.len() {
        true
    } else {
        let q = pairs[k];
        if q.purchase >= ts.len() || q.sale >= ts.len() {
            true
        } else if ts[q.purchase as int].side != Side::Buy || ts[q.sale as int].side != Side::Sell {
            true
        } else {
            match spec_pair_gain(rule, ts[q.purchase as int], ts[q.sale as int]) {
                None => true,
                Some(g) => if g > i64::MAX {
                    false
                } else if pair_problem(ts, rule, pairs, k) is Some {
                    true
                } else {
                    claimed_profit(pairs.subrange(0, k + 1)) <= i128::MAX && pairs_fit(ts, rule, pairs, k + 1)
                },
            }
        }
    }
}

/// The dual check of purchase `p` against sales `s..` computes no gain
/// beyond `i64` before it finds a shortfall.
pub open spec fn row_fits<R: WindowRule + ?Sized>(ts: Seq<Trade>, rule: &R, duals: Seq<i64>, p: int, s: int) -> bool
    decreases ts.len() - s,
{
    if s < 0 || s >= ts.len() {
        true
    } else if ts[p].side == Side::Buy && ts[s].side == Side::Sell && spec_pair_gain(rule, ts[p], ts[s]) is Some
        && spec_pair_gain(rule, ts[p], ts[s])->0 > i64::MAX {
        false
    } else if infeasible_at(ts, rule, duals, p, s) is Some {
        true
    } else {
        row_fits(ts, rule, duals, p, s + 1)
    }
}

/// The dual checks of purchases `p..` compute no gain beyond `i64` before
/// they find a shortfall.
pub open spec fn scan_fits<R: WindowRule + ?Sized>(ts: Seq<Trade>, rule: &R, duals: Seq<i64>, p: int) -> bool
    decreases ts.len() - p,
{
    if p < 0 || p >= ts.len() {
        true
    } else {
        row_fits(ts, rule, duals, p, 0) && (first_infeasible_in_row(ts, rule, duals, p, 0) is None
            ==> scan_fits(ts, rule, duals, p + 1))
    }
}

/// `verify` stays in range on these inputs: the gains and running totals it
/// computes at each stage it reaches fit their integer types.
pub open spec fn verify_fits<R: WindowRule + ?Sized>(
    ts: Seq<Trade>,
    rule: &R,
    pairs: Seq<MatchedPair>,
    claimed: i128,
    duals: Seq<i64>,
) -> bool {
    let checked = duals.len() == ts.len() && first_pair_problem(ts, rule, pairs, 0) is None
        && first_overmatched(ts, pairs, 0) is None && claimed_profit(pairs) == claimed
        && first_negative_dual(duals, 0) is None;
    &&& duals.len() == ts.len() ==> pairs_fit(ts, rule, pairs, 0)
    &&& checked ==> scan_fits(ts, rule, duals, 0)
    &&& checked && first_infeasible(ts, rule, duals, 0) is None && first_slack_pair(ts, duals, pairs, 0) is None
        && first_slack_trade(ts, duals, pairs, 0) is None ==> dual_value(ts, duals, ts.len() as int)
        <= i128::MAX
}

proof fn lemma_pairs_fit_from<R: WindowRule + ?Sized>(ts: Seq<Trade>, rule: &R, pairs: Seq<MatchedPair>, k: int)
    requires
        0 <= k <= pairs.len(),
        forall|p: int, s: int|
            0 <= p < ts.len() && 0 <= s < ts.len() ==> crate::trade::gain_fits(rule, #[trigger] ts[p], #[trigger] ts[s]),
        forall|j: int| 0 <= j <= pairs.len() ==> #[trigger] claimed_profit(pairs.subrange(0, j)) <= i128::MAX,
    ensures
        pairs_fit(ts, rule, pairs, k),
    decreases pairs.len() - k,
{
    if k < pairs.len() {
        lemma_pairs_fit_from(ts, rule, pairs, k + 1);
        assert(claimed_profit(pairs.subrange(0, k + 1)) <= i128::MAX);
        let q = pairs[k];
        if q.purchase < ts.len() && q.sale < ts.len() {
            assert(crate::trade::gain_fits(rule, ts[q.purchase as int], ts[q.sale as int]));
        }
    }
}

proof fn lemma_row_fits_from<R: WindowRule + ?Sized>(ts: Seq<Trade>, rule: &R, duals: Seq<i64>, p: int, s: int)
    requires
        0 <= p < ts.len(),
        0 <= s <= ts.len(),
        forall|a: int, b: int|
            0 <= a < ts.len() && 0 <= b < ts.len() ==> crate::trade::gain_fits(rule, #[trigger] ts[a], #[trigger] ts[b]),
    ensures
        row_fits(ts, rule, duals, p, s),
    decreases ts.len() - s,
{
    if s < ts.len() {
        lemma_row_fits_from(ts, rule, duals, p, s + 1);
        assert(crate::trade::gain_fits(rule, ts[p], ts[s]));
    }
}

proof fn lemma_scan_fits_from<R: WindowRule + ?Sized>(ts: Seq<Trade>, rule: &R, duals: Seq<i64>, p: int)
    requires
        0 <= p <= ts.len(),
        forall|a: int, b: int|
            0 <= a < ts.len() && 0 <= b < ts.len() ==> crate::trade::gain_fits(rule, #[trigger] ts[a], #[trigger] ts[b]),
    ensures
        scan_fits(ts, rule, duals, p),
    decreases ts.len() - p,
{
    if p < ts.len() {
        lemma_row_fits_from(ts, rule, duals, p, 0);
        lemma_scan_fits_from(ts, rule, duals, p + 1);
    }
}

/// Gains that all fit, running totals of the claimed profits that fit, and a
/// dual objective that fits keep `verify` in range.
pub(crate) proof fn lemma_verify_fits<R: WindowRule + ?Sized>(
    ts: Seq<Trade>,
    rule: &R,
    pairs: Seq<MatchedPair>,
    claimed: i128,
    duals: Seq<i64>,
)
    requires
        forall|p: int, s: int|
            0 <= p < ts.len() && 0 <= s < ts.len() ==> crate::trade::gain_fits(rule, #[trigger] ts[p], #[trigger] ts[s]),
        forall|j: int| 0 <= j <= pairs.len() ==> #[trigger] claimed_profit(pairs.subrange(0, j)) <= i128::MAX,
        dual_value(ts, duals, ts.len() as int) <= i128::MAX,
    ensures
        verify_fits(ts, rule, pairs, claimed, duals),
{
    lemma_pairs_fit_from(ts, rule, pairs, 0);
    lemma_scan_fits_from(ts, rule, duals, 0);
}

/// Accepted pairs keep their gains in `i64`.
proof fn lemma_pairs_fit_gains<R: WindowRule + ?Sized>(ts: Seq<Trade>, rule: &R, pairs: Seq<MatchedPair>, k: int)
    requires
        0 <= k <= pairs.len(),
        pairs_fit(ts, rule, pairs, k),
        forall|j: int| 0 <= j < pairs.len() ==> #[trigger] pair_problem(ts, rule, pairs, j) is None,
    ensures
        forall|j: int|
            k <= j < pairs.len() ==> crate::trade::gain_fits(
                rule,
                #[trigger] ts[pairs[j].purchase as int],
                ts[pairs[j].sale as int],
            ),
    decreases pairs.len() - k,
{
    if k < pairs.len() {
        assert(pair_problem(ts, rule, pairs, k) is None);
        lemma_pairs_fit_gains(ts, rule, pairs, k + 1);
    }
}

proof fn lemma_pairs_value_nonneg<R: WindowRule + ?Sized>(ts: Seq<Trade>, rule: &R, pairs: Seq<MatchedPair>)
    ensures
        pairs_value(ts, rule, pairs) >= 0,
    decreases pairs.len(),
{
    if pairs.len() > 0 {
        lemma_pairs_value_nonneg(ts, rule, pairs.drop_last());
        let q = pairs.last();
        if q.purchase < ts.len() && q.sale < ts.len() {
            if let Some(g) = spec_pair_gain(rule, ts[q.purchase as int], ts[q.sale as int]) {
                assert(q.shares * g >= 0) by (nonlinear_arith)
                    requires
                        g > 0,
                ;
            }
        }
    }
}

/// Shares matched per trade by pairs that each join two different trades.
proof fn lemma_matched_bound(pairs: Seq<MatchedPair>, i: int)
    requires
        forall|k: int| 0 <= k < pairs.len() ==> (#[trigger] pairs[k]).purchase != pairs[k].sale,
    ensures
        0 <= shares_matched(pairs, i) <= pairs.len() * (u64::MAX as int),
    decreases pairs.len(),
{
    if pairs.len() > 0 {
        assert(pairs.last().purchase != pairs.last().sale);
        assert forall|k: int| 0 <= k < pairs.drop_last().len() implies (#[trigger] pairs.drop_last()[k]).purchase
            != pairs.drop_last()[k].sale by {
            assert(pairs.drop_last()[k] == pairs[k]);
        }
        lemma_matched_bound(pairs.drop_last(), i);
    }
}

proof fn lemma_no_negative_dual(ds: Seq<i64>, i: int)
    requires
        0 <= i <= ds.len(),
        first_negative_dual(ds, i) is None,
    ensures
        forall|j: int| i <= j < ds.len() ==> ds[j] >= 0,
    decreases ds.len() - i,
{
    if i < ds.len() {
        lemma_no_negative_dual(ds, i + 1);
    }
}

/// With non-negative duals the partial dual objectives grow with `k`.
proof fn lemma_dual_value_grows(ts: Seq<Trade>, ds: Seq<i64>, j: int, k: int)
    requires
        0 <= j <= k <= ts.len(),
        k <= ds.len(),
        forall|i: int| 0 <= i < ds.len() ==> ds[i] >= 0,
    ensures
        0 <= dual_value(ts, ds, j) <= dual_value(ts, ds, k),
    decreases k,
{
    if j < k {
        lemma_dual_value_grows(ts, ds, j, k - 1);
        assert(ts[k - 1].shares * ds[k - 1] >= 0) by (nonlinear_arith)
            requires
                ds[k - 1] >= 0,
        ;
    } else if k > 0 {
        lemma_dual_value_grows(ts, ds, 0, k - 1);
        assert(ts[k - 1].shares * ds[k - 1] >= 0) by (nonlinear_arith)
            requires
                ds[k - 1] >= 0,
        ;
    }
}

/// Verifies that `pairs` is a feasible matching with total `claimed_total`
/// and that `certificate` proves no matching can earn more.
/// Returns the verified total.
pub fn verify<R: WindowRule + ?Sized>(
    trades: &[Trade],
    rule: &R,
    pairs: &[MatchedPair],
    claimed_total: i128,
    certificate: &Certificate,
) -> (r: Result<i128, Violation>)
    requires
        verify_fits(trades@, rule, pairs@, claimed_total, certificate.duals@),
    ensures
        match r {
            Ok(v) => spec_verify(trades@, rule, pairs@, claimed_total, certificate.duals@) == Ok::<
                int,
                Violation,
            >(v as int),
            Err(e) => spec_verify(trades@, rule, pairs@, claimed_total, certificate.duals@) == Err::<
                int,
                Violation,
            >(e),
        },
{
    let ghost ts = trades@;
    let ghost ps = pairs@;
    let ghost ds = certificate.duals@;
    let n = trades.len();
    if certificate.duals.len() != n {
        return Err(Violation::CertificateLength { expected: n, found: certificate.duals.len() });
    }
    let mut matched: Vec<u128> = Vec::new();
    for i in 0..n
        invariant
            matched@.len() == i,
            forall|j: int| 0 <= j < i ==> matched@[j] == 0,
    {
        matched.push(0);
    }
    let mut primal: i128 = 0;
    proof {
        lemma_pairs_value_nonneg(ts, rule, ps);
    }
    for k in 0..pairs.len()
        invariant
            n == trades.len(),
            ts == trades@,
            ps == pairs@,
            ds == certificate.duals@,
            ds.len() == n,
            verify_fits(ts, rule, ps, claimed_total, ds),
            matched@.len() == n,
            forall|i: int| 0 <= i < n ==> #[trigger] matched@[i] == shares_matched(ps.subrange(0, k as int), i),
            primal == claimed_profit(ps.subrange(0, k as int)),
            primal == pairs_value(ts, rule, ps.subrange(0, k as int)),
            first_pair_problem(ts, rule, ps, 0) == first_pair_problem(ts, rule, ps, k as int),
            forall|j: int| 0 <= j < k ==> #[trigger] pair_problem(ts, rule, ps, j) is None,
            pairs_fit(ts, rule, ps, k as int),
    {
        let pair = &pairs[k];
        if pair.purchase >= n || pair.sale >= n {
            return Err(Violation::BadIndex { pair: k });
        }
        let p = &trades[pair.purchase];
        let s = &trades[pair.sale];
        if p.side != Side::Buy || s.side != Side::Sell {
            return Err(Violation::BadIndex { pair: k });
        }
        assert(crate::trade::gain_fits(rule, ts[pair.purchase as int], ts[pair.sale as int]));
        let gain = match pair_gain(rule, p, s) {
            Some(g) => g,
            None => {
                return Err(Violation::NotMatchable { pair: k });
            },
        };
        if pair.shares == 0 {
            return Err(Violation::ZeroShares { pair: k });
        }
        assert(0 <= pair.shares * gain <= u64::MAX * i64::MAX) by (nonlinear_arith)
            requires
                0 < gain <= i64::MAX,
                0 < pair.shares <= u64::MAX,
        ;
        let actual = pair.shares as i128 * gain as i128;
        if actual != pair.profit {
            return Err(Violation::WrongProfit { pair: k, claimed: pair.profit, actual });
        }
        let ghost pre = ps.subrange(0, k as int);
        let ghost post = ps.subrange(0, k + 1);
        assert(post.drop_last() =~= pre);
        assert(pair_problem(ts, rule, ps, k as int) is None);
        proof {
            assert forall|j: int| 0 <= j < post.len() implies (#[trigger] post[j]).purchase != post[j].sale by {
                assert(post[j] == ps[j]);
                assert(pair_problem(ts, rule, ps, j) is None);
            }
            lemma_matched_bound(post, pair.purchase as int);
            lemma_matched_bound(post, pair.sale as int);
            assert(post.last() == *pair);
            assert(claimed_profit(post) == claimed_profit(pre) + pair.profit);
            assert(claimed_profit(post) <= i128::MAX);
            assert(post.len() * (u64::MAX as int) <= u128::MAX) by (nonlinear_arith)
                requires
                    post.len() <= usize::MAX,
                    usize::MAX <= u64::MAX,
            ;
        }
        let ghost m0 = matched@;
        let mp = matched[pair.purchase] + pair.shares as u128;
        matched.set(pair.purchase, mp);
        let ms = matched[pair.sale] + pair.shares as u128;
        matched.set(pair.sale, ms);
        primal = primal + actual;
        assert forall|i: int| 0 <= i < n implies #[trigger] matched@[i] == shares_matched(post, i) by {
            assert(m0[i] == shares_matched(pre, i));
        }
        assert forall|j: int| 0 <= j < k + 1 implies #[trigger] pair_problem(ts, rule, ps, j) is None by {
        }
    }
    assert(ps.subrange(0, ps.len() as int) =~= ps);
    assert(first_pair_problem(ts, rule, ps, 0) is None);
    for i in 0..n
        invariant
            n == trades.len(),
            ts == trades@,
            ps == pairs@,
            matched@.len() == n,
            forall|j: int| 0 <= j < n ==> #[trigger] matched@[j] == shares_matched(ps, j),
            first_overmatched(ts, ps, 0) == first_overmatched(ts, ps, i as int),
            first_pair_problem(ts, rule, ps, 0) is None,
            forall|j: int| 0 <= j < ps.len() ==> #[trigger] pair_problem(ts, rule, ps, j) is None,
            ds == certificate.duals@,
            ds.len() == n,
    {
        assert(matched@[i as int] == shares_matched(ps, i as int));
        if matched[i] > trades[i].shares as u128 {
            return Err(
                Violation::Overmatched { trade: i, matched: matched[i], available: trades[i].shares },
            );
        }
    }
    if primal != claimed_total {
        return Err(Violation::TotalMismatch { claimed: claimed_total, actual: primal });
    }
    for i in 0..n
        invariant
            n == trades.len(),
            ts == trades@,
            ps == pairs@,
            ds == certificate.duals@,
            ds.len() == n,
            verify_fits(ts, rule, ps, claimed_total, ds),
            first_pair_problem(ts, rule, ps, 0) is None,
            forall|j: int| 0 <= j < ps.len() ==> #[trigger] pair_problem(ts, rule, ps, j) is None,
            first_overmatched(ts, ps, 0) is None,
            claimed_profit(ps) == claimed_total,
            primal == claimed_total,
            matched@.len() == n,
            forall|j: int| 0 <= j < n ==> #[trigger] matched@[j] == shares_matched(ps, j),
            first_negative_dual(ds, 0) == first_negative_dual(ds, i as int),
    {
        if certificate.duals[i] < 0 {
            return Err(Violation::NegativeDual { trade: i });
        }
    }
    let mut window_end: Vec<Date> = Vec::new();
    for i in 0..n
        invariant
            n == trades.len(),
            ts == trades@,
            ps == pairs@,
            ds == certificate.duals@,
            ds.len() == n,
            verify_fits(ts, rule, ps, claimed_total, ds),
            first_pair_problem(ts, rule, ps, 0) is None,
            forall|j: int| 0 <= j < ps.len() ==> #[trigger] pair_problem(ts, rule, ps, j) is None,
            first_overmatched(ts, ps, 0) is None,
            claimed_profit(ps) == claimed_total,
            primal == claimed_total,
            matched@.len() == n,
            forall|j: int| 0 <= j < n ==> #[trigger] matched@[j] == shares_matched(ps, j),
            first_negative_dual(ds, 0) is None,
            window_end@.len() == i,
            forall|j: int| 0 <= j < i ==> #[trigger] window_end@[j] == rule.spec_window_end(ts[j].date),
    {
        window_end.push(rule.window_end(trades[i].date));
    }
    for pi in 0..n
        invariant
            n == trades.len(),
            ts == trades@,
            ps == pairs@,
            ds == certificate.duals@,
            ds.len() == n,
            verify_fits(ts, rule, ps, claimed_total, ds),
            first_pair_problem(ts, rule, ps, 0) is None,
            forall|j: int| 0 <= j < ps.len() ==> #[trigger] pair_problem(ts, rule, ps, j) is None,
            first_overmatched(ts, ps, 0) is None,
            claimed_profit(ps) == claimed_total,
            primal == claimed_total,
            matched@.len() == n,
            forall|j: int| 0 <= j < n ==> #[trigger] matched@[j] == shares_matched(ps, j),
            first_negative_dual(ds, 0) is None,
            window_end@.len() == n,
            forall|j: int| 0 <= j < n ==> #[trigger] window_end@[j] == rule.spec_window_end(ts[j].date),
            first_infeasible(ts, rule, ds, 0) == first_infeasible(ts, rule, ds, pi as int),
            scan_fits(ts, rule, ds, pi as int),
    {
        for si in 0..n
            invariant
                n == trades.len(),
                ts == trades@,
                ps == pairs@,
                ds == certificate.duals@,
                ds.len() == n,
                verify_fits(ts, rule, ps, claimed_total, ds),
                first_pair_problem(ts, rule, ps, 0) is None,
                forall|j: int| 0 <= j < ps.len() ==> #[trigger] pair_problem(ts, rule, ps, j) is None,
                first_overmatched(ts, ps, 0) is None,
                claimed_profit(ps) == claimed_total,
                primal == claimed_total,
                matched@.len() == n,
                forall|j: int| 0 <= j < n ==> #[trigger] matched@[j] == shares_matched(ps, j),
                first_negative_dual(ds, 0) is None,
                window_end@.len() == n,
                forall|j: int| 0 <= j < n ==> #[trigger] window_end@[j] == rule.spec_window_end(ts[j].date),
                pi < n,
                first_infeasible(ts, rule, ds, 0) == first_infeasible(ts, rule, ds, pi as int),
                first_infeasible_in_row(ts, rule, ds, pi as int, 0) == first_infeasible_in_row(
                    ts,
                    rule,
                    ds,
                    pi as int,
                    si as int,
                ),
                scan_fits(ts, rule, ds, pi as int),
                row_fits(ts, rule, ds, pi as int, si as int),
        {
            if trades[pi].side == Side::Buy && trades[si].side == Side::Sell {
                let p = &trades[pi];
                let s = &trades[si];
                let in_window = if !date_before(s.date, p.date) {
                    date_before(s.date, window_end[pi])
                } else {
                    date_before(p.date, window_end[si])
                };
                assert(in_window == spec_within(rule, p.date, s.date));
                if in_window && s.price > p.price {
                    assert(crate::trade::gain_fits(rule, ts[pi as int], ts[si as int]));
                    let gain = s.price - p.price;
                    let dual_sum = certificate.duals[pi] as i128 + certificate.duals[si] as i128;
                    if dual_sum < gain as i128 {
                        return Err(
                            Violation::DualInfeasible { purchase: pi, sale: si, gain, dual_sum },
                        );
                    }
                }
            }
        }
    }
    proof {
        lemma_pairs_fit_gains(ts, rule, ps, 0);
    }
    for k in 0..pairs.len()
        invariant
            n == trades.len(),
            ts == trades@,
            ps == pairs@,
            ds == certificate.duals@,
            ds.len() == n,
            verify_fits(ts, rule, ps, claimed_total, ds),
            first_pair_problem(ts, rule, ps, 0) is None,
            forall|j: int| 0 <= j < ps.len() ==> #[trigger] pair_problem(ts, rule, ps, j) is None,
            forall|j: int|
                0 <= j < ps.len() ==> crate::trade::gain_fits(
                    rule,
                    #[trigger] ts[ps[j].purchase as int],
                    ts[ps[j].sale as int],
                ),
            first_overmatched(ts, ps, 0) is None,
            claimed_profit(ps) == claimed_total,
            primal == claimed_total,
            matched@.len() == n,
            forall|j: int| 0 <= j < n ==> #[trigger] matched@[j] == shares_matched(ps, j),
            first_negative_dual(ds, 0) is None,
            first_infeasible(ts, rule, ds, 0) is None,
            first_slack_pair(ts, ds, ps, 0) == first_slack_pair(ts, ds, ps, k as int),
    {
        let pair = &pairs[k];
        assert(pair_problem(ts, rule, ps, k as int) is None);
        assert(crate::trade::gain_fits(rule, ts[pair.purchase as int], ts[pair.sale as int]));
        let gain = trades[pair.sale].price - trades[pair.purchase].price;
        let dual_sum = certificate.duals[pair.purchase] as i128 + certificate.duals[pair.sale] as i128;
        if dual_sum != gain as i128 {
            return Err(Violation::SlackPair { pair: k, gain, dual_sum });
        }
    }
    for i in 0..n
        invariant
            n == trades.len(),
            ts == trades@,
            ps == pairs@,
            ds == certificate.duals@,
            ds.len() == n,
            verify_fits(ts, rule, ps, claimed_total, ds),
            first_pair_problem(ts, rule, ps, 0) is None,
            forall|j: int| 0 <= j < ps.len() ==> #[trigger] pair_problem(ts, rule, ps, j) is None,
            first_overmatched(ts, ps, 0) is None,
            claimed_profit(ps) == claimed_total,
            primal == claimed_total,
            matched@.len() == n,
            forall|j: int| 0 <= j < n ==> #[trigger] matched@[j] == shares_matched(ps, j),
            first_negative_dual(ds, 0) is None,
            first_infeasible(ts, rule, ds, 0) is None,
            first_slack_pair(ts, ds, ps, 0) is None,
            first_slack_trade(ts, ds, ps, 0) == first_slack_trade(ts, ds, ps, i as int),
    {
        let dual = certificate.duals[i];
        assert(matched@[i as int] == shares_matched(ps, i as int));
        if dual > 0 && matched[i] != trades[i].shares as u128 {
            return Err(
                Violation::SlackTrade { trade: i, dual, matched: matched[i], available: trades[i].shares },
            );
        }
    }
    proof {
        lemma_no_negative_dual(ds, 0);
        assert forall|k: int| 0 <= k <= ts.len() && k <= ds.len() implies i128::MIN <= #[trigger] dual_value(ts, ds, k) <= i128::MAX by {
            lemma_dual_value_grows(ts, ds, k, n as int);
        }
    }
    let dual = certificate.dual_objective(trades);
    if primal != dual {
        return Err(Violation::DualityGap { primal, dual });
    }
    Ok(primal)
}

} // verus!
