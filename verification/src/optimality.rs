//! What `solve`'s final residual network proves: the certificate built from
//! its potentials verifies (complementary slackness read off the residual
//! arcs), the final flow is a circulation, and the largest capacity is the
//! top capacity of the trades.

use vstd::prelude::*;
use crate::date::WindowRule;
use crate::duality::{dual_covers, dual_feasible, exact_pair, law_complementary_slackness_verifies, pair_tight};
use crate::solver::{
    arc_balanced, arc_net, arc_optimal, balanced_caps, cap_sum, conserved, count_side, dates_ok, day_matchable,
    delta_optimal, dual_from, flow_from, flow_to, has_pair_arc, law_days_within_is_within, layout_ok,
    lemma_fixed_arc_net, lemma_net_in_pairs, lemma_net_in_single, lemma_pair_flow_sides, net_in, node_conserved,
    pair_arc_ok, pair_from, partner, sink_arc, solver_pair_ok, source_arc, tail_of, cap_max, largest_shares,
    side_shares, top_capacity,
};
use crate::trade::{claimed_profit, shares_matched, spec_pair_gain, MatchedPair, Side, Trade};
use crate::verify::{spec_verify, Violation};

verus! {

/// Flow on arcs `lo..hi`: each arc's flow is its reverse residual capacity.
pub open spec fn flow_sum(cap: Seq<i64>, lo: int, hi: int) -> int
    decreases hi - lo,
{
    if hi <= lo {
        0
    } else {
        flow_sum(cap, lo, hi - 1) + cap[2 * (hi - 1) + 1]
    }
}

/// The residual network `to`, `cost` is the one built from `arcs`.
pub open spec fn net_of(arcs: Seq<(usize, usize, i64, i64)>, to: Seq<u32>, cost: Seq<i64>) -> bool {
    &&& to.len() == 2 * arcs.len()
    &&& cost.len() == 2 * arcs.len()
    &&& forall|k: int|
        0 <= k < arcs.len() ==> {
            &&& to[2 * k] == (#[trigger] arcs[k]).1
            &&& to[2 * k + 1] == arcs[k].0
            &&& cost[2 * k] == arcs[k].3
            &&& cost[2 * k + 1] == -arcs[k].3
        }
}

/// An arc with residual capacity has no negative reduced cost, in either direction.
proof fn lemma_arc_costs(
    arcs: Seq<(usize, usize, i64, i64)>,
    to: Seq<u32>,
    cost: Seq<i64>,
    cap: Seq<i64>,
    pot: Seq<i64>,
    k: int,
)
    requires
        net_of(arcs, to, cost),
        cap.len() == to.len(),
        delta_optimal(to, cap, cost, pot, 1),
        0 <= k < arcs.len(),
    ensures
        cap[2 * k] >= 1 ==> arcs[k].3 + pot[arcs[k].0 as int] - pot[arcs[k].1 as int] >= 0,
        cap[2 * k + 1] >= 1 ==> -arcs[k].3 + pot[arcs[k].1 as int] - pot[arcs[k].0 as int] >= 0,
{
    assert(to[2 * k] == arcs[k].1);
    assert(partner(2 * k) == 2 * k + 1);
    assert(partner(2 * k + 1) == 2 * k);
    assert(tail_of(to, 2 * k) == arcs[k].0);
    assert(tail_of(to, 2 * k + 1) == arcs[k].1);
    assert(arc_optimal(to, cap, cost, pot, 1, 2 * k));
    assert(arc_optimal(to, cap, cost, pot, 1, 2 * k + 1));
}

pub(crate) proof fn lemma_count_side_monotone(ts: Seq<Trade>, side: Side, i: int, j: int)
    requires
        0 <= i <= j <= ts.len(),
    ensures
        count_side(ts, side, i) <= count_side(ts, side, j),
        i < j && ts[i].side == side ==> count_side(ts, side, i) < count_side(ts, side, j),
    decreases j - i,
{
    if i < j {
        lemma_count_side_monotone(ts, side, i, j - 1);
        if i < j - 1 {
            lemma_count_side_monotone(ts, side, i, i + 1);
        }
    }
}

/// The source arc of purchase `p` is arc `count_side(Buy, p)`.
pub(crate) proof fn lemma_source_arc_of<R: WindowRule + ?Sized>(
    ts: Seq<Trade>,
    rule: &R,
    arcs: Seq<(usize, usize, i64, i64)>,
    nb: int,
    first: int,
    ends: Seq<(usize, usize)>,
    p: int,
)
    requires
        layout_ok(ts, rule, arcs, nb, first, ends),
        nb == count_side(ts, Side::Buy, ts.len() as int),
        0 <= p < ts.len(),
        ts[p].side == Side::Buy,
    ensures
        ({
            let k = count_side(ts, Side::Buy, p) as int;
            &&& 0 <= k < nb
            &&& arcs[k].0 == 0
            &&& arcs[k].1 == p + 2
            &&& arcs[k].2 == ts[p].shares
            &&& arcs[k].3 == 0
        }),
{
    let k = count_side(ts, Side::Buy, p) as int;
    lemma_count_side_monotone(ts, Side::Buy, p, ts.len() as int);
    assert(source_arc(ts, arcs, k));
    let b = arcs[k].1 - 2;
    if b < p {
        lemma_count_side_monotone(ts, Side::Buy, b, p);
    } else if b > p {
        lemma_count_side_monotone(ts, Side::Buy, p, b);
    }
}

/// The sink arc of sale `s` is arc `nb + count_side(Sell, s)`.
pub(crate) proof fn lemma_sink_arc_of<R: WindowRule + ?Sized>(
    ts: Seq<Trade>,
    rule: &R,
    arcs: Seq<(usize, usize, i64, i64)>,
    nb: int,
    first: int,
    ends: Seq<(usize, usize)>,
    s: int,
)
    requires
        layout_ok(ts, rule, arcs, nb, first, ends),
        first - 1 - nb == count_side(ts, Side::Sell, ts.len() as int),
        0 <= s < ts.len(),
        ts[s].side == Side::Sell,
    ensures
        ({
            let k = nb + count_side(ts, Side::Sell, s) as int;
            &&& nb <= k < first - 1
            &&& arcs[k].0 == s + 2
            &&& arcs[k].1 == 1
            &&& arcs[k].2 == ts[s].shares
            &&& arcs[k].3 == 0
        }),
{
    let k = nb + count_side(ts, Side::Sell, s) as int;
    lemma_count_side_monotone(ts, Side::Sell, s, ts.len() as int);
    assert(sink_arc(ts, arcs, nb, k));
    let b = arcs[k].0 - 2;
    if b < s {
        lemma_count_side_monotone(ts, Side::Sell, b, s);
    } else if b > s {
        lemma_count_side_monotone(ts, Side::Sell, s, b);
    }
}

/// With nothing left at trade `i`, its own source (or sink) arc carries exactly
/// what its pair arcs carry.
proof fn lemma_trade_flow<R: WindowRule + ?Sized>(
    ts: Seq<Trade>,
    rule: &R,
    arcs: Seq<(usize, usize, i64, i64)>,
    cap: Seq<i64>,
    nb: int,
    first: int,
    ends: Seq<(usize, usize)>,
    i: int,
)
    requires
        layout_ok(ts, rule, arcs, nb, first, ends),
        balanced_caps(cap, arcs),
        nb == count_side(ts, Side::Buy, ts.len() as int),
        first - 1 - nb == count_side(ts, Side::Sell, ts.len() as int),
        0 <= i < ts.len(),
        net_in(arcs, cap, i + 2, arcs.len() as int) == 0,
    ensures
        ts[i].side == Side::Buy ==> {
            &&& cap[2 * (count_side(ts, Side::Buy, i) as int) + 1] == flow_from(cap, first, ends, i, ends.len() as int)
            &&& flow_to(cap, first, ends, i, ends.len() as int) == 0
        },
        ts[i].side == Side::Sell ==> {
            &&& cap[2 * (nb + count_side(ts, Side::Sell, i)) + 1] == flow_to(cap, first, ends, i, ends.len() as int)
            &&& flow_from(cap, first, ends, i, ends.len() as int) == 0
        },
{
    lemma_net_in_pairs(ts, rule, arcs, cap, first, ends, i, ends.len() as int);
    lemma_pair_flow_sides(ts, rule, arcs, cap, first, ends, i, ends.len() as int);
    let k0 = if ts[i].side == Side::Buy {
        count_side(ts, Side::Buy, i) as int
    } else {
        nb + count_side(ts, Side::Sell, i)
    };
    assert forall|k: int| 0 <= k < first && k != k0 implies #[trigger] arc_net(arcs, cap, i + 2, k) == 0 by {
        lemma_fixed_arc_net(ts, rule, arcs, cap, nb, first, ends, i, k);
    }
    lemma_net_in_single(arcs, cap, i + 2, k0, first);
    if ts[i].side == Side::Buy {
        lemma_source_arc_of(ts, rule, arcs, nb, first, ends, i);
    } else {
        lemma_sink_arc_of(ts, rule, arcs, nb, first, ends, i);
    }
}

/// One pair arc's flow is at most what its purchase sends and its sale receives.
proof fn lemma_pair_flow_within(
    cap: Seq<i64>,
    arcs: Seq<(usize, usize, i64, i64)>,
    first: int,
    ends: Seq<(usize, usize)>,
    j: int,
    big: int,
)
    requires
        balanced_caps(cap, arcs),
        0 <= first,
        arcs.len() == first + ends.len(),
        0 <= j < big <= ends.len(),
    ensures
        cap[2 * (first + j) + 1] <= flow_from(cap, first, ends, ends[j].0 as int, big),
        cap[2 * (first + j) + 1] <= flow_to(cap, first, ends, ends[j].1 as int, big),
        0 <= flow_from(cap, first, ends, ends[j].0 as int, big),
        0 <= flow_to(cap, first, ends, ends[j].1 as int, big),
    decreases big,
{
    assert(arc_balanced(cap, arcs, first + big - 1));
    if j < big - 1 {
        lemma_pair_flow_within(cap, arcs, first, ends, j, big - 1);
    } else {
        lemma_flows_nonneg(cap, arcs, first, ends, ends[j].0 as int, ends[j].1 as int, big - 1);
    }
}

proof fn lemma_flows_nonneg(
    cap: Seq<i64>,
    arcs: Seq<(usize, usize, i64, i64)>,
    first: int,
    ends: Seq<(usize, usize)>,
    p: int,
    s: int,
    big: int,
)
    requires
        balanced_caps(cap, arcs),
        0 <= first,
        arcs.len() == first + ends.len(),
        0 <= big <= ends.len(),
    ensures
        0 <= flow_from(cap, first, ends, p, big),
        0 <= flow_to(cap, first, ends, s, big),
    decreases big,
{
    if big > 0 {
        assert(arc_balanced(cap, arcs, first + big - 1));
        lemma_flows_nonneg(cap, arcs, first, ends, p, s, big - 1);
    }
}

/// What the source and the sink receive: the return arc brings to the source
/// what the source arcs take away, and takes from the sink what the sink arcs bring.
proof fn lemma_terminal_flows<R: WindowRule + ?Sized>(
    ts: Seq<Trade>,
    rule: &R,
    arcs: Seq<(usize, usize, i64, i64)>,
    cap: Seq<i64>,
    nb: int,
    first: int,
    ends: Seq<(usize, usize)>,
    k: int,
)
    requires
        layout_ok(ts, rule, arcs, nb, first, ends),
        0 <= k <= arcs.len(),
    ensures
        net_in(arcs, cap, 0, k) == (if k >= first { cap[2 * (first - 1) + 1] as int } else { 0 })
            - flow_sum(cap, 0, if k < nb { k } else { nb }),
        net_in(arcs, cap, 1, k) == flow_sum(cap, nb, if k < nb { nb } else if k < first - 1 { k } else { first - 1 })
            - (if k >= first { cap[2 * (first - 1) + 1] as int } else { 0 }),
    decreases k,
{
    if k > 0 {
        lemma_terminal_flows(ts, rule, arcs, cap, nb, first, ends, k - 1);
        let j = k - 1;
        if j < nb {
            assert(source_arc(ts, arcs, j));
        } else if j < first - 1 {
            assert(sink_arc(ts, arcs, nb, j));
        } else if j >= first {
            assert(pair_arc_ok(ts, rule, arcs, first, ends, j - first));
        }
    }
}

/// Flows of arcs `lo..hi` are each at most the arc's capacity.
proof fn lemma_flow_sum_bound(arcs: Seq<(usize, usize, i64, i64)>, cap: Seq<i64>, lo: int, hi: int)
    requires
        balanced_caps(cap, arcs),
        0 <= lo <= hi <= arcs.len(),
    ensures
        0 <= flow_sum(cap, lo, hi) <= cap_sum(arcs, lo, hi),
    decreases hi - lo,
{
    if hi > lo {
        lemma_flow_sum_bound(arcs, cap, lo, hi - 1);
        assert(arc_balanced(cap, arcs, hi - 1));
    }
}

/// One arc's flow is at most the flow of a range that holds it.
proof fn lemma_flow_sum_term(arcs: Seq<(usize, usize, i64, i64)>, cap: Seq<i64>, lo: int, hi: int, k: int)
    requires
        balanced_caps(cap, arcs),
        0 <= lo <= k < hi <= arcs.len(),
    ensures
        cap[2 * k + 1] <= flow_sum(cap, lo, hi),
    decreases hi - lo,
{
    if k < hi - 1 {
        lemma_flow_sum_term(arcs, cap, lo, hi - 1, k);
        assert(arc_balanced(cap, arcs, hi - 1));
    } else {
        lemma_flow_sum_bound(arcs, cap, lo, hi - 1);
    }
}

/// The state `solve` ends in: the network for `ts` with capacities `cap`, every
/// node balanced, and no residual arc of negative reduced cost under `pot`.
pub open spec fn settled<R: WindowRule + ?Sized>(
    ts: Seq<Trade>,
    rule: &R,
    arcs: Seq<(usize, usize, i64, i64)>,
    nb: int,
    first: int,
    ends: Seq<(usize, usize)>,
    to: Seq<u32>,
    cost: Seq<i64>,
    cap: Seq<i64>,
    pot: Seq<i64>,
) -> bool {
    &&& layout_ok(ts, rule, arcs, nb, first, ends)
    &&& nb == count_side(ts, Side::Buy, ts.len() as int)
    &&& first - 1 - nb == count_side(ts, Side::Sell, ts.len() as int)
    &&& arcs[first - 1].2 == (if cap_sum(arcs, 0, nb) <= cap_sum(arcs, nb, first - 1) {
        cap_sum(arcs, 0, nb)
    } else {
        cap_sum(arcs, nb, first - 1)
    }) + 1
    &&& balanced_caps(cap, arcs)
    &&& net_of(arcs, to, cost)
    &&& cap.len() == to.len()
    &&& delta_optimal(to, cap, cost, pot, 1)
    &&& pot.len() == ts.len() + 2
    &&& forall|v: int| 0 <= v < ts.len() + 2 ==> #[trigger] net_in(arcs, cap, v, arcs.len() as int) == 0
}

/// The return arc never fills up, so the sink sits no lower than the source;
/// when it carries flow they sit level.
proof fn lemma_back_arc<R: WindowRule + ?Sized>(
    ts: Seq<Trade>,
    rule: &R,
    arcs: Seq<(usize, usize, i64, i64)>,
    nb: int,
    first: int,
    ends: Seq<(usize, usize)>,
    to: Seq<u32>,
    cost: Seq<i64>,
    cap: Seq<i64>,
    pot: Seq<i64>,
)
    requires
        settled(ts, rule, arcs, nb, first, ends, to, cost, cap, pot),
    ensures
        pot[1] >= pot[0],
        cap[2 * (first - 1) + 1] == flow_sum(cap, 0, nb),
        cap[2 * (first - 1) + 1] >= 1 ==> pot[0] >= pot[1],
{
    let len = arcs.len() as int;
    lemma_terminal_flows(ts, rule, arcs, cap, nb, first, ends, len);
    assert(net_in(arcs, cap, 0, len) == 0);
    assert(net_in(arcs, cap, 1, len) == 0);
    lemma_flow_sum_bound(arcs, cap, 0, nb);
    lemma_flow_sum_bound(arcs, cap, nb, first - 1);
    assert(arc_balanced(cap, arcs, first - 1));
    lemma_arc_costs(arcs, to, cost, cap, pot, first - 1);
}

/// What the potentials say of trade `i`: a purchase sits no lower than the
/// source once it sends flow, and is fully matched once it sits higher; a sale
/// sits no higher than the sink once it receives flow, and is fully matched
/// once it sits lower.
proof fn lemma_trade_level<R: WindowRule + ?Sized>(
    ts: Seq<Trade>,
    rule: &R,
    arcs: Seq<(usize, usize, i64, i64)>,
    nb: int,
    first: int,
    ends: Seq<(usize, usize)>,
    to: Seq<u32>,
    cost: Seq<i64>,
    cap: Seq<i64>,
    pot: Seq<i64>,
    i: int,
)
    requires
        settled(ts, rule, arcs, nb, first, ends, to, cost, cap, pot),
        0 <= i < ts.len(),
    ensures
        ts[i].side == Side::Buy ==> {
            let f = flow_from(cap, first, ends, i, ends.len() as int);
            &&& flow_to(cap, first, ends, i, ends.len() as int) == 0
            &&& 0 <= f <= ts[i].shares
            &&& pot[i + 2] > pot[0] ==> f == ts[i].shares
            &&& f >= 1 ==> pot[i + 2] >= pot[0]
            &&& f <= flow_sum(cap, 0, nb)
        },
        ts[i].side == Side::Sell ==> {
            let f = flow_to(cap, first, ends, i, ends.len() as int);
            &&& flow_from(cap, first, ends, i, ends.len() as int) == 0
            &&& 0 <= f <= ts[i].shares
            &&& pot[1] > pot[i + 2] ==> f == ts[i].shares
            &&& f >= 1 ==> pot[1] >= pot[i + 2]
        },
{
    assert(net_in(arcs, cap, i + 2, arcs.len() as int) == 0);
    lemma_trade_flow(ts, rule, arcs, cap, nb, first, ends, i);
    if ts[i].side == Side::Buy {
        lemma_source_arc_of(ts, rule, arcs, nb, first, ends, i);
        let k = count_side(ts, Side::Buy, i) as int;
        assert(arc_balanced(cap, arcs, k));
        lemma_arc_costs(arcs, to, cost, cap, pot, k);
        lemma_flow_sum_term(arcs, cap, 0, nb, k);
    } else {
        lemma_sink_arc_of(ts, rule, arcs, nb, first, ends, i);
        let k = nb + count_side(ts, Side::Sell, i);
        assert(arc_balanced(cap, arcs, k));
        lemma_arc_costs(arcs, to, cost, cap, pot, k);
    }
}

/// A pair arc never fills up, so its purchase sits at least its gain above its
/// sale; when it carries flow, exactly its gain, with the purchase no lower
/// than the source, the sale no higher than the sink, and flow on the return arc.
proof fn lemma_pair_level<R: WindowRule + ?Sized>(
    ts: Seq<Trade>,
    rule: &R,
    arcs: Seq<(usize, usize, i64, i64)>,
    nb: int,
    first: int,
    ends: Seq<(usize, usize)>,
    to: Seq<u32>,
    cost: Seq<i64>,
    cap: Seq<i64>,
    pot: Seq<i64>,
    j: int,
)
    requires
        settled(ts, rule, arcs, nb, first, ends, to, cost, cap, pot),
        0 <= j < ends.len(),
    ensures
        ({
            let p = ends[j].0 as int;
            let s = ends[j].1 as int;
            let g = ts[s].price - ts[p].price;
            &&& pot[p + 2] - pot[s + 2] >= g
            &&& cap[2 * (first + j) + 1] >= 1 ==> {
                &&& pot[p + 2] - pot[s + 2] == g
                &&& pot[p + 2] >= pot[0]
                &&& pot[1] >= pot[s + 2]
                &&& flow_sum(cap, 0, nb) >= 1
            }
        }),
{
    let p = ends[j].0 as int;
    let s = ends[j].1 as int;
    assert(pair_arc_ok(ts, rule, arcs, first, ends, j));
    lemma_pair_flow_within(cap, arcs, first, ends, j, ends.len() as int);
    lemma_trade_level(ts, rule, arcs, nb, first, ends, to, cost, cap, pot, p);
    lemma_trade_level(ts, rule, arcs, nb, first, ends, to, cost, cap, pot, s);
    assert(arc_balanced(cap, arcs, first + j));
    lemma_arc_costs(arcs, to, cost, cap, pot, first + j);
}

/// The pairs and duals that `solve` reads off its final network pass `verify`:
/// the potentials make the duals feasible, every reported pair tight, and every
/// trade with a positive dual fully matched.
pub proof fn lemma_certificate_verifies<R: WindowRule + ?Sized>(
    ts: Seq<Trade>,
    rule: &R,
    arcs: Seq<(usize, usize, i64, i64)>,
    nb: int,
    first: int,
    ends: Seq<(usize, usize)>,
    to: Seq<u32>,
    cost: Seq<i64>,
    cap: Seq<i64>,
    pot: Seq<i64>,
    pairs: Seq<MatchedPair>,
    src: Seq<int>,
    claimed: i128,
    duals: Seq<i64>,
)
    requires
        settled(ts, rule, arcs, nb, first, ends, to, cost, cap, pot),
        dates_ok(ts, rule),
        ts.len() <= usize::MAX,
        forall|a: int, b: int|
            0 <= a < ts.len() && 0 <= b < ts.len() && #[trigger] day_matchable(rule, ts[a], ts[b])
                ==> has_pair_arc(ends, a, b),
        src.len() == pairs.len(),
        forall|k: int| 0 <= k < pairs.len() ==> #[trigger] solver_pair_ok(ts, rule, pairs[k]),
        forall|k: int|
            0 <= k < pairs.len() ==> #[trigger] pair_from(ends, first, cap, pairs, src, ends.len() as int, k),
        forall|i: int|
            0 <= i < ts.len() ==> #[trigger] shares_matched(pairs, i) == flow_from(
                cap,
                first,
                ends,
                i,
                ends.len() as int,
            ) + flow_to(cap, first, ends, i, ends.len() as int),
        claimed == claimed_profit(pairs),
        duals.len() == ts.len(),
        forall|i: int| 0 <= i < ts.len() ==> #[trigger] duals[i] as int == dual_from(ts, pot, i),
    ensures
        spec_verify(ts, rule, pairs, claimed, duals) == Ok::<int, Violation>(claimed as int),
{
    let n = ts.len() as int;
    lemma_back_arc(ts, rule, arcs, nb, first, ends, to, cost, cap, pot);
    assert forall|k: int| 0 <= k < pairs.len() implies #[trigger] exact_pair(ts, rule, pairs[k]) by {
        let q = pairs[k];
        assert(solver_pair_ok(ts, rule, q));
        law_days_within_is_within(rule, ts[q.purchase as int].date, ts[q.sale as int].date);
    }
    assert forall|i: int| 0 <= i < n implies #[trigger] shares_matched(pairs, i) <= ts[i].shares
        && (duals[i] > 0 ==> shares_matched(pairs, i) == ts[i].shares) by {
        lemma_trade_level(ts, rule, arcs, nb, first, ends, to, cost, cap, pot, i);
    }
    assert forall|i: int| 0 <= i < duals.len() implies #[trigger] duals[i] >= 0 by {
        assert(duals[i] as int == dual_from(ts, pot, i));
    }
    assert forall|p: int, s: int| 0 <= p < n && 0 <= s < n implies #[trigger] dual_covers(ts, rule, duals, p, s) by {
        if spec_pair_gain(rule, ts[p], ts[s]) is Some {
            law_days_within_is_within(rule, ts[p].date, ts[s].date);
            assert(day_matchable(rule, ts[p], ts[s]));
            assert(has_pair_arc(ends, p, s));
            let j = choose|j: int| 0 <= j < ends.len() && ends[j] == (p as usize, s as usize);
            assert(ends[j].0 as int == p && ends[j].1 as int == s);
            lemma_pair_level(ts, rule, arcs, nb, first, ends, to, cost, cap, pot, j);
            assert(duals[p] as int == dual_from(ts, pot, p));
            assert(duals[s] as int == dual_from(ts, pot, s));
        }
    }
    assert(dual_feasible(ts, rule, duals));
    assert forall|k: int| 0 <= k < pairs.len() implies #[trigger] pair_tight(ts, duals, pairs[k]) by {
        let q = pairs[k];
        assert(pair_from(ends, first, cap, pairs, src, ends.len() as int, k));
        assert(solver_pair_ok(ts, rule, q));
        let j = src[k];
        lemma_pair_level(ts, rule, arcs, nb, first, ends, to, cost, cap, pot, j);
        assert(duals[q.purchase as int] as int == dual_from(ts, pot, q.purchase as int));
        assert(duals[q.sale as int] as int == dual_from(ts, pot, q.sale as int));
    }
    law_complementary_slackness_verifies(ts, rule, pairs, claimed, duals);
}

/// `x` marks a set of nodes that holds every node with excess at least
/// `delta`, no node with deficit at least `delta`, and the head of every
/// residual arc of capacity at least `delta` whose tail it holds.
pub open spec fn closed_cut(
    to: Seq<u32>,
    cap: Seq<i64>,
    excess: Seq<i64>,
    delta: int,
    nodes: int,
    x: Seq<bool>,
) -> bool {
    &&& x.len() == nodes
    &&& forall|v: int| 0 <= v < nodes && excess[v] >= delta ==> #[trigger] x[v]
    &&& forall|v: int| 0 <= v < nodes && #[trigger] x[v] ==> excess[v] > -delta
    &&& forall|a: int|
        0 <= a < to.len() && #[trigger] cap[a] >= delta && x[tail_of(to, a)] ==> x[to[a] as int]
}

/// Node `v` is marked in `x`.
pub open spec fn marked(x: Seq<bool>, v: int) -> bool {
    0 <= v < x.len() && x[v]
}

/// Net flow into the marked nodes below `vc`, over the first `k` arcs.
pub open spec fn cut_sum(arcs: Seq<(usize, usize, i64, i64)>, cap: Seq<i64>, x: Seq<bool>, vc: int, k: int) -> int
    decreases vc,
{
    if vc <= 0 {
        0
    } else {
        cut_sum(arcs, cap, x, vc - 1, k) + (if marked(x, vc - 1) { net_in(arcs, cap, vc - 1, k) } else { 0 })
    }
}

/// What arc `j` adds to the net flow into the marked nodes below `vc`.
pub open spec fn cut_arc(arcs: Seq<(usize, usize, i64, i64)>, cap: Seq<i64>, x: Seq<bool>, vc: int, j: int) -> int
    decreases vc,
{
    if vc <= 0 {
        0
    } else {
        cut_arc(arcs, cap, x, vc - 1, j) + (if marked(x, vc - 1) { arc_net(arcs, cap, vc - 1, j) } else { 0 })
    }
}

/// The flow of the first `k` arcs into the marked set, less the flow out of it.
pub open spec fn crossing(arcs: Seq<(usize, usize, i64, i64)>, cap: Seq<i64>, x: Seq<bool>, k: int) -> int
    decreases k,
{
    if k <= 0 {
        0
    } else {
        let j = k - 1;
        let f = cap[2 * j + 1] as int;
        crossing(arcs, cap, x, j) + (if marked(x, arcs[j].1 as int) { f } else { 0 }) - (if marked(
            x,
            arcs[j].0 as int,
        ) {
            f
        } else {
            0
        })
    }
}

/// The excess of the marked nodes below `vc`.
pub open spec fn marked_excess(excess: Seq<i64>, x: Seq<bool>, vc: int) -> int
    decreases vc,
{
    if vc <= 0 {
        0
    } else {
        marked_excess(excess, x, vc - 1) + (if marked(x, vc - 1) { excess[vc - 1] as int } else { 0 })
    }
}

/// Below `vc`, arc `j` adds its flow for a marked head and takes it for a marked tail.
proof fn lemma_cut_arc_below(arcs: Seq<(usize, usize, i64, i64)>, cap: Seq<i64>, x: Seq<bool>, vc: int, j: int)
    requires
        0 <= vc,
        0 <= j < arcs.len(),
        arcs[j].0 != arcs[j].1,
    ensures
        cut_arc(arcs, cap, x, vc, j) == (if marked(x, arcs[j].1 as int) && arcs[j].1 < vc {
            cap[2 * j + 1] as int
        } else {
            0
        }) - (if marked(x, arcs[j].0 as int) && arcs[j].0 < vc {
            cap[2 * j + 1] as int
        } else {
            0
        }),
    decreases vc,
{
    if vc > 0 {
        lemma_cut_arc_below(arcs, cap, x, vc - 1, j);
    }
}

proof fn lemma_cut_step(arcs: Seq<(usize, usize, i64, i64)>, cap: Seq<i64>, x: Seq<bool>, vc: int, k: int)
    requires
        0 <= vc,
        1 <= k,
    ensures
        cut_sum(arcs, cap, x, vc, k) == cut_sum(arcs, cap, x, vc, k - 1) + cut_arc(arcs, cap, x, vc, k - 1),
    decreases vc,
{
    if vc > 0 {
        lemma_cut_step(arcs, cap, x, vc - 1, k);
    }
}

proof fn lemma_cut_none(arcs: Seq<(usize, usize, i64, i64)>, cap: Seq<i64>, x: Seq<bool>, vc: int)
    requires
        0 <= vc,
    ensures
        cut_sum(arcs, cap, x, vc, 0) == 0,
    decreases vc,
{
    if vc > 0 {
        lemma_cut_none(arcs, cap, x, vc - 1);
    }
}

/// The net flow into a set of nodes is what crosses into it less what crosses out.
proof fn lemma_cut_sum(arcs: Seq<(usize, usize, i64, i64)>, cap: Seq<i64>, x: Seq<bool>, vc: int, k: int)
    requires
        0 <= vc,
        0 <= k <= arcs.len(),
        forall|j: int|
            0 <= j < arcs.len() ==> (#[trigger] arcs[j]).0 != arcs[j].1 && arcs[j].0 < vc && arcs[j].1 < vc,
    ensures
        cut_sum(arcs, cap, x, vc, k) == crossing(arcs, cap, x, k),
    decreases k,
{
    if k == 0 {
        lemma_cut_none(arcs, cap, x, vc);
    } else {
        lemma_cut_sum(arcs, cap, x, vc, k - 1);
        lemma_cut_step(arcs, cap, x, vc, k);
        assert(arcs[k - 1].0 != arcs[k - 1].1);
        lemma_cut_arc_below(arcs, cap, x, vc, k - 1);
    }
}

proof fn lemma_marked_excess(
    arcs: Seq<(usize, usize, i64, i64)>,
    cap: Seq<i64>,
    excess: Seq<i64>,
    x: Seq<bool>,
    nodes: int,
    vc: int,
)
    requires
        conserved(arcs, cap, excess, nodes),
        0 <= vc <= nodes,
    ensures
        marked_excess(excess, x, vc) == cut_sum(arcs, cap, x, vc, arcs.len() as int),
    decreases vc,
{
    if vc > 0 {
        lemma_marked_excess(arcs, cap, excess, x, nodes, vc - 1);
        assert(node_conserved(arcs, cap, excess, vc - 1));
    }
}

/// No flow crosses into a closed set, so nothing more enters it than leaves it.
proof fn lemma_crossing_nonpos(
    arcs: Seq<(usize, usize, i64, i64)>,
    to: Seq<u32>,
    cap: Seq<i64>,
    excess: Seq<i64>,
    nodes: int,
    x: Seq<bool>,
    k: int,
)
    requires
        0 <= k <= arcs.len(),
        to.len() == 2 * arcs.len(),
        forall|j: int|
            0 <= j < arcs.len() ==> to[2 * j] == (#[trigger] arcs[j]).1 && to[2 * j + 1] == arcs[j].0
                && arcs[j].0 < nodes && arcs[j].1 < nodes,
        balanced_caps(cap, arcs),
        closed_cut(to, cap, excess, 1, nodes, x),
    ensures
        crossing(arcs, cap, x, k) <= 0,
    decreases k,
{
    if k > 0 {
        lemma_crossing_nonpos(arcs, to, cap, excess, nodes, x, k - 1);
        let j = k - 1;
        assert(arc_balanced(cap, arcs, j));
        let h = arcs[j].1 as int;
        let t = arcs[j].0 as int;
        if marked(x, h) && !marked(x, t) && cap[2 * j + 1] >= 1 {
            assert(partner(2 * j + 1) == 2 * j);
            assert(tail_of(to, 2 * j + 1) == h);
            assert(x[to[2 * j + 1] as int]);
        }
    }
}

proof fn lemma_crossing_all(arcs: Seq<(usize, usize, i64, i64)>, cap: Seq<i64>, x: Seq<bool>, nodes: int, k: int)
    requires
        0 <= k <= arcs.len(),
        x.len() == nodes,
        forall|v: int| 0 <= v < nodes ==> #[trigger] x[v],
        forall|j: int| 0 <= j < arcs.len() ==> (#[trigger] arcs[j]).0 < nodes && arcs[j].1 < nodes,
    ensures
        crossing(arcs, cap, x, k) == 0,
    decreases k,
{
    if k > 0 {
        lemma_crossing_all(arcs, cap, x, nodes, k - 1);
        assert(arcs[k - 1].0 < nodes && arcs[k - 1].1 < nodes);
        assert(x[arcs[k - 1].0 as int] && x[arcs[k - 1].1 as int]);
    }
}

proof fn lemma_marked_excess_nonneg(excess: Seq<i64>, x: Seq<bool>, vc: int, w: int)
    requires
        0 <= vc <= x.len(),
        forall|v: int| 0 <= v < x.len() && #[trigger] x[v] ==> excess[v] >= 0,
    ensures
        marked_excess(excess, x, vc) >= 0,
        0 <= w < vc && x[w] ==> marked_excess(excess, x, vc) >= excess[w],
    decreases vc,
{
    if vc > 0 {
        lemma_marked_excess_nonneg(excess, x, vc - 1, w);
        if x[vc - 1] {
            assert(excess[vc - 1] >= 0);
        }
    }
}

proof fn lemma_zero_sum(excess: Seq<i64>, x: Seq<bool>, vc: int)
    requires
        0 <= vc <= x.len(),
        forall|v: int| 0 <= v < x.len() ==> #[trigger] x[v],
        forall|v: int| 0 <= v < x.len() ==> excess[v] <= 0,
    ensures
        marked_excess(excess, x, vc) <= 0,
        marked_excess(excess, x, vc) == 0 ==> forall|v: int| 0 <= v < vc ==> excess[v] == 0,
    decreases vc,
{
    if vc > 0 {
        lemma_zero_sum(excess, x, vc - 1);
        assert(x[vc - 1]);
        assert(excess[vc - 1] <= 0);
    }
}

/// When a search at `delta == 1` finds no node with a deficit, every excess is
/// zero: the flow is a circulation.
pub proof fn lemma_closed_cut_balances(
    arcs: Seq<(usize, usize, i64, i64)>,
    to: Seq<u32>,
    cap: Seq<i64>,
    excess: Seq<i64>,
    nodes: int,
    x: Seq<bool>,
)
    requires
        to.len() == 2 * arcs.len(),
        forall|j: int|
            0 <= j < arcs.len() ==> to[2 * j] == (#[trigger] arcs[j]).1 && to[2 * j + 1] == arcs[j].0
                && arcs[j].0 < nodes && arcs[j].1 < nodes && arcs[j].0 != arcs[j].1,
        balanced_caps(cap, arcs),
        excess.len() == nodes,
        conserved(arcs, cap, excess, nodes),
        closed_cut(to, cap, excess, 1, nodes, x),
    ensures
        forall|v: int| 0 <= v < nodes ==> excess[v] == 0,
{
    let m = arcs.len() as int;
    assert forall|j: int| 0 <= j < arcs.len() implies (#[trigger] arcs[j]).0 != arcs[j].1 && arcs[j].0 < nodes
        && arcs[j].1 < nodes by {
    }
    lemma_marked_excess(arcs, cap, excess, x, nodes, nodes);
    lemma_cut_sum(arcs, cap, x, nodes, m);
    lemma_crossing_nonpos(arcs, to, cap, excess, nodes, x, m);
    assert forall|v: int| 0 <= v < nodes implies excess[v] <= 0 by {
        lemma_marked_excess_nonneg(excess, x, nodes, v);
    }
    let all = Seq::new(nodes as nat, |v: int| true);
    lemma_marked_excess(arcs, cap, excess, all, nodes, nodes);
    lemma_cut_sum(arcs, cap, all, nodes, m);
    lemma_crossing_all(arcs, cap, all, nodes, m);
    lemma_zero_sum(excess, all, nodes);
}

proof fn lemma_cap_max(arcs: Seq<(usize, usize, i64, i64)>, k: int, u: int)
    requires
        0 <= k <= arcs.len(),
        1 <= u,
        forall|j: int| 0 <= j < k ==> (#[trigger] arcs[j]).2 <= u,
    ensures
        cap_max(arcs, k) <= u,
        forall|j: int| 0 <= j < k ==> (#[trigger] arcs[j]).2 <= cap_max(arcs, k),
        1 <= cap_max(arcs, k),
    decreases k,
{
    if k > 0 {
        lemma_cap_max(arcs, k - 1, u);
    }
}

proof fn lemma_largest_shares(ts: Seq<Trade>, i: int, u: int)
    requires
        0 <= i <= ts.len(),
        0 <= u,
        forall|j: int| 0 <= j < i ==> (#[trigger] ts[j]).shares <= u,
    ensures
        largest_shares(ts, i) <= u,
        forall|j: int| 0 <= j < i ==> (#[trigger] ts[j]).shares <= largest_shares(ts, i),
        0 <= largest_shares(ts, i),
    decreases i,
{
    if i > 0 {
        lemma_largest_shares(ts, i - 1, u);
    }
}

proof fn lemma_side_shares_member(ts: Seq<Trade>, side: Side, i: int, j: int)
    requires
        0 <= j < i <= ts.len(),
        ts[j].side == side,
    ensures
        ts[j].shares <= side_shares(ts, side, i),
    decreases i,
{
    lemma_side_shares_nonneg(ts, side, i - 1);
    if j < i - 1 {
        lemma_side_shares_member(ts, side, i - 1, j);
    }
}

proof fn lemma_side_shares_nonneg(ts: Seq<Trade>, side: Side, i: int)
    ensures
        0 <= side_shares(ts, side, i),
    decreases i,
{
    if i > 0 {
        lemma_side_shares_nonneg(ts, side, i - 1);
    }
}

/// The largest capacity of the network for `ts` is its top capacity.
pub(crate) proof fn lemma_cap_max_is_top<R: WindowRule + ?Sized>(
    ts: Seq<Trade>,
    rule: &R,
    arcs: Seq<(usize, usize, i64, i64)>,
    nb: int,
    first: int,
    ends: Seq<(usize, usize)>,
)
    requires
        layout_ok(ts, rule, arcs, nb, first, ends),
        nb == count_side(ts, Side::Buy, ts.len() as int),
        first - 1 - nb == count_side(ts, Side::Sell, ts.len() as int),
        arcs[first - 1].2 == (if cap_sum(arcs, 0, nb) <= cap_sum(arcs, nb, first - 1) {
            cap_sum(arcs, 0, nb)
        } else {
            cap_sum(arcs, nb, first - 1)
        }) + 1,
        cap_sum(arcs, 0, nb) == side_shares(ts, Side::Buy, ts.len() as int),
        cap_sum(arcs, nb, first - 1) == side_shares(ts, Side::Sell, ts.len() as int),
    ensures
        cap_max(arcs, arcs.len() as int) == top_capacity(ts),
{
    let n = ts.len() as int;
    let top = top_capacity(ts);
    let b = side_shares(ts, Side::Buy, n);
    let s = side_shares(ts, Side::Sell, n);
    lemma_side_shares_nonneg(ts, Side::Buy, n);
    lemma_side_shares_nonneg(ts, Side::Sell, n);
    lemma_largest_shares(ts, n, u64::MAX as int);
    let len = arcs.len() as int;
    assert forall|k: int| 0 <= k < len implies (#[trigger] arcs[k]).2 <= top by {
        if k < nb {
            assert(source_arc(ts, arcs, k));
        } else if k < first - 1 {
            assert(sink_arc(ts, arcs, nb, k));
        } else if k >= first {
            assert(pair_arc_ok(ts, rule, arcs, first, ends, k - first));
            let p = ends[k - first].0 as int;
            let q = ends[k - first].1 as int;
            lemma_side_shares_member(ts, Side::Buy, n, p);
            lemma_side_shares_member(ts, Side::Sell, n, q);
        }
    }
    lemma_cap_max(arcs, len, top);
    assert forall|j: int| 0 <= j < n implies (#[trigger] ts[j]).shares <= cap_max(arcs, len) by {
        if ts[j].side == Side::Buy {
            lemma_source_arc_of(ts, rule, arcs, nb, first, ends, j);
        } else {
            lemma_sink_arc_of(ts, rule, arcs, nb, first, ends, j);
        }
    }
    lemma_largest_shares(ts, n, cap_max(arcs, len));
}

} // verus!
