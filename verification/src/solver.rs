//! Maximum-profit matching as a min-cost circulation.
//!
//! Network: source `S`, sink `T`, one node per trade.
//! `S -> purchase` (capacity = shares, cost 0), `purchase -> sale` (cost = -gain),
//! `sale -> T` (capacity = shares, cost 0) and a return arc `T -> S` (cost 0).
//! A minimum-cost circulation is a maximum-profit matching; routing no flow is
//! always allowed, so unprofitable pairs are simply left unmatched.
//!
//! The algorithm is capacity-scaling successive shortest paths
//! (Ahuja, Magnanti & Orlin, section 10.2) with Johnson potentials so every
//! shortest-path search is a Dijkstra over non-negative reduced costs.

use vstd::prelude::*;
use vstd::string::*;
use crate::date::{law_day_number_order, spec_within, Date, WindowRule};
use crate::heap::{key_le, MinHeap};
use crate::trade::{
    claimed_profit, shares_matched, spec_validate, trades_in_limits, validate, MatchedPair, Side,
    Trade, MAX_PRICE_TICKS, MAX_SHARES, MAX_TRADES,
};
use crate::text::res_view;
use crate::optimality::{
    closed_cut, lemma_cap_max_is_top, lemma_certificate_verifies, lemma_closed_cut_balances, settled,
};
use crate::verify::{spec_verify, Violation};

verus! {

broadcast use vstd::multiset::group_multiset_axioms;

/// Whether to run the capacity-scaling phases or a single phase with Δ = 1
/// (plain successive shortest paths from a pseudo-flow).
#[derive(Clone, Copy, Debug, PartialEq, Eq, Structural)]
pub enum Scaling {
    On,
    Off,
}

/// Dual prices proving optimality: one non-negative per-share value for every
/// trade (`u_p` for purchases, `v_s` for sales), indexed like the trade slice.
///
/// Feasibility: `u_p + v_s >= gain(p, s)` for every matchable pair. By weak
/// duality any matching's profit is at most `sum(shares * dual)`, so a matching
/// whose profit equals that bound is optimal.
#[derive(Clone, Debug, PartialEq, Eq)]
pub struct Certificate {
    pub duals: Vec<i64>,
}

/// `sum(shares * dual)` over the first `k` trades.
pub open spec fn dual_value(ts: Seq<Trade>, duals: Seq<i64>, k: int) -> int
    decreases k,
{
    if k <= 0 {
        0
    } else {
        dual_value(ts, duals, k - 1) + ts[k - 1].shares * duals[k - 1]
    }
}

/// Every partial sum of the dual objective fits in `i128`.
pub open spec fn dual_value_fits(ts: Seq<Trade>, duals: Seq<i64>) -> bool {
    forall|k: int|
        0 <= k <= ts.len() && k <= duals.len() ==> i128::MIN <= #[trigger] dual_value(ts, duals, k)
            <= i128::MAX
}

pub open spec fn min_len(a: int, b: int) -> int {
    if a <= b {
        a
    } else {
        b
    }
}

impl Certificate {
    /// `sum(shares * dual)` over the trades that have a dual.
    pub fn dual_objective(&self, trades: &[Trade]) -> (r: i128)
        requires
            dual_value_fits(trades@, self.duals@),
        ensures
            r == dual_value(trades@, self.duals@, min_len(trades@.len() as int, self.duals@.len() as int)),
    {
        let n = if trades.len() <= self.duals.len() {
            trades.len()
        } else {
            self.duals.len()
        };
        let mut acc: i128 = 0;
        let mut i: usize = 0;
        while i < n
            invariant
                i <= n,
                n <= trades.len(),
                n <= self.duals.len(),
                n == min_len(trades@.len() as int, self.duals@.len() as int),
                dual_value_fits(trades@, self.duals@),
                acc == dual_value(trades@, self.duals@, i as int),
            decreases n - i,
        {
            assert(i128::MIN <= dual_value(trades@, self.duals@, (i + 1) as int) <= i128::MAX);
            assert(dual_value(trades@, self.duals@, (i + 1) as int) == acc + trades@[i as int].shares
                * self.duals@[i as int]);
            let sh = trades[i].shares as i128;
            let du = self.duals[i] as i128;
            assert(i128::MIN <= sh * du <= i128::MAX) by (nonlinear_arith)
                requires
                    0 <= sh <= u64::MAX,
                    i64::MIN <= du <= i64::MAX,
            ;
            acc = acc + sh * du;
            i = i + 1;
        }
        acc
    }
}

#[derive(Clone, Copy, Debug, Default, PartialEq, Eq, Structural)]
pub struct SolveStats {
    pub pair_arcs: usize,
    pub phases: u32,
    /// Augmenting paths taken, counted up to `u64::MAX`.
    pub augmentations: u64,
}

#[derive(Clone, Debug, PartialEq, Eq)]
pub struct Solution {
    pub pairs: Vec<MatchedPair>,
    pub total: i128,
    pub certificate: Certificate,
    pub stats: SolveStats,
}

const SOURCE: usize = 0;

const SINK: usize = 1;

/// The residual arc paired with `a`: arc `2k` is the k-th arc added, `2k + 1` its reverse.
pub open spec fn partner(a: int) -> int {
    if a % 2 == 0 {
        a + 1
    } else {
        a - 1
    }
}

fn partner_of(a: usize) -> (r: usize)
    requires
        a < usize::MAX,
    ensures
        r == partner(a as int),
{
    if a % 2 == 0 {
        a + 1
    } else {
        a - 1
    }
}

/// Residual network. Arc `2k` is the k-th arc added, arc `2k + 1` its reverse;
/// `adj[u]` lists, in the order they were added, the residual arcs that leave `u`.
struct Network {
    adj: Vec<Vec<u32>>,
    to: Vec<u32>,
    cap: Vec<i64>,
    cost: Vec<i64>,
}

/// Every arc's residual capacity and that of its reverse add up to its capacity.
pub open spec fn balanced_caps(cap: Seq<i64>, arcs: Seq<(usize, usize, i64, i64)>) -> bool {
    forall|k: int| 0 <= k < arcs.len() ==> #[trigger] arc_balanced(cap, arcs, k)
}

pub open spec fn arc_balanced(cap: Seq<i64>, arcs: Seq<(usize, usize, i64, i64)>, k: int) -> bool {
    &&& cap[2 * k] >= 0
    &&& cap[2 * k + 1] >= 0
    &&& cap[2 * k] + cap[2 * k + 1] == arcs[k].2
}

/// Capacity of residual arc `a` before any flow: the arc's own capacity going forward, none back.
pub open spec fn initial_cap(arcs: Seq<(usize, usize, i64, i64)>, a: int) -> i64 {
    if a % 2 == 0 {
        arcs[a / 2].2
    } else {
        0
    }
}

pub open spec fn initial_caps(arcs: Seq<(usize, usize, i64, i64)>) -> Seq<i64> {
    Seq::new(2 * arcs.len(), |a: int| initial_cap(arcs, a))
}

proof fn lemma_fresh_caps(cap: Seq<i64>, arcs: Seq<(usize, usize, i64, i64)>)
    requires
        forall|j: int| 0 <= j < arcs.len() ==> (#[trigger] arcs[j]).2 >= 0,
        cap == initial_caps(arcs),
    ensures
        balanced_caps(cap, arcs),
{
    assert forall|k: int| 0 <= k < arcs.len() implies #[trigger] arc_balanced(cap, arcs, k) by {
        assert(arcs[k].2 >= 0);
        assert(cap[2 * k] == initial_cap(arcs, 2 * k));
        assert(cap[2 * k + 1] == initial_cap(arcs, 2 * k + 1));
    }
}

/// Residual arc `a` is among the arcs listed for its tail.
pub open spec fn listed(adj: Seq<Vec<u32>>, to: Seq<u32>, a: int) -> bool {
    adj[tail_of(to, a)]@.contains(a as u32)
}

/// `arcs` joins nodes below `nodes`, has negatable costs, and is few enough for `u32` arc ids.
pub open spec fn arcs_fit(arcs: Seq<(usize, usize, i64, i64)>, nodes: nat) -> bool {
    &&& nodes <= u32::MAX
    &&& 2 * arcs.len() < u32::MAX
    &&& forall|k: int|
        0 <= k < arcs.len() ==> (#[trigger] arcs[k]).0 < nodes && arcs[k].1 < nodes && arcs[k].3
            > i64::MIN && arcs[k].0 != arcs[k].1
}

impl Network {
    /// Heads, costs and adjacency are those of `arcs` over `nodes` nodes.
    spec fn shaped(&self, arcs: Seq<(usize, usize, i64, i64)>, nodes: nat) -> bool {
        &&& arcs_fit(arcs, nodes)
        &&& self.to@.len() == 2 * arcs.len()
        &&& self.cap@.len() == 2 * arcs.len()
        &&& self.cost@.len() == 2 * arcs.len()
        &&& self.adj@.len() == nodes
        &&& forall|a: int| 0 <= a < 2 * arcs.len() ==> (#[trigger] self.to@[a]) < nodes
        &&& forall|k: int|
            0 <= k < arcs.len() ==> {
                &&& self.to@[2 * k] == (#[trigger] arcs[k]).1
                &&& self.to@[2 * k + 1] == arcs[k].0
                &&& self.cost@[2 * k] == arcs[k].3
                &&& self.cost@[2 * k + 1] == -arcs[k].3
            }
        &&& forall|u: int, i: int|
            0 <= u < nodes && 0 <= i < self.adj@[u]@.len() ==> {
                &&& (#[trigger] self.adj@[u]@[i]) < 2 * arcs.len()
                &&& self.to@[partner(self.adj@[u]@[i] as int)] == u
            }
        &&& forall|a: int| 0 <= a < 2 * arcs.len() ==> #[trigger] listed(self.adj@, self.to@, a)
    }

    /// Every arc's residual capacity and that of its reverse add up to its capacity.
    spec fn caps_ok(&self, arcs: Seq<(usize, usize, i64, i64)>) -> bool {
        balanced_caps(self.cap@, arcs)
    }

    fn build(nodes: usize, arcs: &Vec<(usize, usize, i64, i64)>) -> (net: Network)
        requires
            arcs_fit(arcs@, nodes as nat),
            forall|k: int| 0 <= k < arcs@.len() ==> (#[trigger] arcs@[k]).2 >= 0,
        ensures
            net.shaped(arcs@, nodes as nat),
            net.caps_ok(arcs@),
            net.cap@ =~= initial_caps(arcs@),
            forall|u: int, i: int, j: int|
                0 <= u < nodes && 0 <= i < j < net.adj@[u]@.len() ==> #[trigger] net.adj@[u]@[i]
                    < #[trigger] net.adj@[u]@[j],
    {
        let mut to: Vec<u32> = Vec::new();
        let mut cap: Vec<i64> = Vec::new();
        let mut cost: Vec<i64> = Vec::new();
        let mut adj: Vec<Vec<u32>> = Vec::new();
        for u in 0..nodes
            invariant
                adj@.len() == u,
                forall|w: int| 0 <= w < u ==> (#[trigger] adj@[w])@.len() == 0,
        {
            adj.push(Vec::new());
        }
        for k in 0..arcs.len()
            invariant
                arcs_fit(arcs@, nodes as nat),
                forall|j: int| 0 <= j < arcs@.len() ==> (#[trigger] arcs@[j]).2 >= 0,
                to@.len() == 2 * k,
                cap@.len() == 2 * k,
                cost@.len() == 2 * k,
                adj@.len() == nodes,
                forall|j: int|
                    0 <= j < k ==> {
                        &&& to@[2 * j] == (#[trigger] arcs@[j]).1
                        &&& to@[2 * j + 1] == arcs@[j].0
                        &&& cost@[2 * j] == arcs@[j].3
                        &&& cost@[2 * j + 1] == -arcs@[j].3
                    },
                forall|a: int| 0 <= a < 2 * k ==> #[trigger] cap@[a] == initial_cap(arcs@, a),
                forall|a: int| 0 <= a < 2 * k ==> (#[trigger] to@[a]) < nodes,
                forall|u: int, i: int|
                    0 <= u < nodes && 0 <= i < adj@[u]@.len() ==> {
                        &&& (#[trigger] adj@[u]@[i]) < 2 * k
                        &&& to@[partner(adj@[u]@[i] as int)] == u
                    },
                forall|a: int| 0 <= a < 2 * k ==> #[trigger] listed(adj@, to@, a),
                forall|x: int, i: int, j: int|
                    0 <= x < nodes && 0 <= i < j < adj@[x]@.len() ==> #[trigger] adj@[x]@[i]
                        < #[trigger] adj@[x]@[j],
        {
            let (u, v, c, w) = arcs[k];
            assert(arcs@[k as int].0 < nodes && arcs@[k as int].1 < nodes);
            let ghost to0 = to@;
            let ghost adj0 = adj@;
            to.push(v as u32);
            to.push(u as u32);
            cap.push(c);
            cap.push(0);
            cost.push(w);
            cost.push(-w);
            let ghost before = adj@;
            adj[u].push((2 * k) as u32);
            let ghost mid = adj@;
            adj[v].push((2 * k + 1) as u32);
            proof {
                assert forall|a: int| 0 <= a < 2 * (k + 1) implies #[trigger] listed(adj@, to@, a) by {
                    let x = tail_of(to@, a);
                    if a == 2 * k {
                        assert(x == u);
                        assert(adj@[x]@[adj@[x]@.len() - 1 - (if u == v { 1int } else { 0int })] == a as u32);
                    } else if a == 2 * k + 1 {
                        assert(x == v);
                        assert(adj@[x]@[adj@[x]@.len() - 1] == a as u32);
                    } else {
                        assert(listed(adj0, to0, a));
                        assert(tail_of(to0, a) == x);
                        let i = choose|i: int| 0 <= i < before[x]@.len() && before[x]@[i] == a as u32;
                        assert(mid[x]@[i] == a as u32);
                        assert(adj@[x]@[i] == a as u32);
                    }
                }
                assert forall|x: int, i: int|
                    0 <= x < nodes && 0 <= i < adj@[x]@.len() implies {
                        &&& (#[trigger] adj@[x]@[i]) < 2 * (k + 1)
                        &&& to@[partner(adj@[x]@[i] as int)] == x
                    } by {
                    if x == v && i == adj@[x]@.len() - 1 {
                    } else {
                        assert(adj@[x]@[i] == mid[x]@[i]);
                        if x == u && i == mid[x]@.len() - 1 {
                        } else {
                            assert(mid[x]@[i] == before[x]@[i]);
                        }
                    }
                }
                assert forall|x: int, i: int, j: int|
                    0 <= x < nodes && 0 <= i < j < adj@[x]@.len() implies #[trigger] adj@[x]@[i]
                        < #[trigger] adj@[x]@[j] by {
                    let lv = adj@[x]@.len();
                    if x == v && j == lv - 1 {
                        if x == u && i == lv - 2 {
                            assert(adj@[x]@[i] == (2 * k) as u32);
                        } else {
                            assert(adj@[x]@[i] == mid[x]@[i]);
                            if x == u && i == mid[x]@.len() - 1 {
                            } else {
                                assert(mid[x]@[i] == before[x]@[i]);
                                assert(before[x]@[i] < 2 * k);
                            }
                        }
                    } else {
                        assert(adj@[x]@[j] == mid[x]@[j]);
                        assert(adj@[x]@[i] == mid[x]@[i]);
                        if x == u && j == mid[x]@.len() - 1 {
                            assert(mid[x]@[i] == before[x]@[i]);
                            assert(before[x]@[i] < 2 * k);
                        } else {
                            assert(mid[x]@[j] == before[x]@[j]);
                            assert(mid[x]@[i] == before[x]@[i]);
                        }
                    }
                }
            }
        }
        assert(cap@ =~= initial_caps(arcs@));
        proof {
            lemma_fresh_caps(cap@, arcs@);
        }
        Network { adj, to, cap, cost }
    }
}

/// `Σ max(e, 0)` over `e`: the flow still waiting to leave nodes with excess.
pub open spec fn pos_excess(e: Seq<i64>) -> int
    decreases e.len(),
{
    if e.len() == 0 {
        0
    } else {
        pos_excess(e.drop_last()) + (if e.last() > 0 { e.last() as int } else { 0int })
    }
}

proof fn lemma_pos_excess_update(e: Seq<i64>, i: int, x: i64)
    requires
        0 <= i < e.len(),
    ensures
        pos_excess(e.update(i, x)) == pos_excess(e) - (if e[i] > 0 { e[i] as int } else { 0int })
            + (if x > 0 { x as int } else { 0int }),
    decreases e.len(),
{
    if i < e.len() - 1 {
        lemma_pos_excess_update(e.drop_last(), i, x);
        assert(e.update(i, x).drop_last() =~= e.drop_last().update(i, x));
    } else {
        assert(e.update(i, x).drop_last() =~= e.drop_last());
    }
}

proof fn lemma_pos_excess_nonneg(e: Seq<i64>)
    ensures
        pos_excess(e) >= 0,
    decreases e.len(),
{
    if e.len() > 0 {
        lemma_pos_excess_nonneg(e.drop_last());
    }
}

/// Number of entries of `s` that differ from `x`.
pub open spec fn count_other(s: Seq<u64>, x: u64) -> nat
    decreases s.len(),
{
    if s.len() == 0 {
        0
    } else {
        count_other(s.drop_last(), x) + (if s.last() != x { 1nat } else { 0nat })
    }
}

proof fn lemma_count_other_mark(s: Seq<u64>, i: int, x: u64)
    requires
        0 <= i < s.len(),
        s[i] != x,
    ensures
        count_other(s.update(i, x), x) + 1 == count_other(s, x),
    decreases s.len(),
{
    if i < s.len() - 1 {
        lemma_count_other_mark(s.drop_last(), i, x);
        assert(s.update(i, x).drop_last() =~= s.drop_last().update(i, x));
    } else {
        assert(s.update(i, x).drop_last() =~= s.drop_last());
    }
}

/// Scratch state of the shortest-path searches.
struct Search {
    dist: Vec<i64>,
    pred: Vec<u32>,
    stamp: Vec<u64>,
    settled: Vec<u64>,
    id: u64,
    heap: MinHeap,
    order: Vec<u32>,
}

/// The tail of residual arc `a`.
pub open spec fn tail_of(to: Seq<u32>, a: int) -> int {
    to[partner(a)] as int
}

impl Search {
    /// What the current search knows of node `v`: a node reached with no
    /// predecessor had excess, and a predecessor arc enters `v` with capacity
    /// at least `delta` from a node reached in the same search.
    spec fn node_ok(&self, net: &Network, m: int, excess: Seq<i64>, delta: i64, v: int) -> bool {
        &&& self.settled@[v] == self.id ==> self.stamp@[v] == self.id
        &&& self.stamp@[v] == self.id && self.pred@[v] == u32::MAX ==> excess[v] >= delta
        &&& self.stamp@[v] == self.id && self.pred@[v] != u32::MAX ==> {
            &&& self.pred@[v] < m
            &&& net.to@[self.pred@[v] as int] == v
            &&& net.cap@[self.pred@[v] as int] >= delta
            &&& self.stamp@[tail_of(net.to@, self.pred@[v] as int)] == self.id
        }
    }

    spec fn ok(&self, net: &Network, m: int, nodes: int, excess: Seq<i64>, delta: i64) -> bool {
        &&& self.dist@.len() == nodes
        &&& self.pred@.len() == nodes
        &&& self.stamp@.len() == nodes
        &&& self.settled@.len() == nodes
        &&& self.heap.wf()
        &&& forall|x: (i64, u32)|
            self.heap.contents().contains(x) ==> x.1 < nodes && self.stamp@[x.1 as int] == self.id
        &&& forall|i: int| 0 <= i < self.order@.len() ==> (#[trigger] self.order@[i]) < nodes
        &&& forall|v: int| 0 <= v < nodes ==> #[trigger] self.node_ok(net, m, excess, delta, v)
    }

    /// Every stamp is from the current search or an earlier one.
    spec fn stamps_past(&self) -> bool {
        &&& forall|v: int| 0 <= v < self.stamp@.len() ==> #[trigger] self.stamp@[v] <= self.id
        &&& forall|v: int| 0 <= v < self.settled@.len() ==> #[trigger] self.settled@[v] <= self.id
    }

    spec fn sized(&self, nodes: int) -> bool {
        &&& self.dist@.len() == nodes
        &&& self.pred@.len() == nodes
        &&& self.stamp@.len() == nodes
        &&& self.settled@.len() == nodes
        &&& self.heap.wf()
    }
}

/// The reduced cost of residual arc `a` under potentials `pot`.
pub open spec fn reduced_cost(to: Seq<u32>, cost: Seq<i64>, pot: Seq<i64>, a: int) -> int {
    cost[a] + pot[tail_of(to, a)] - pot[to[a] as int]
}

/// Residual arc `a`, if it has capacity at least `delta`, has no negative reduced cost.
pub open spec fn arc_optimal(to: Seq<u32>, cap: Seq<i64>, cost: Seq<i64>, pot: Seq<i64>, delta: int, a: int) -> bool {
    cap[a] >= delta ==> reduced_cost(to, cost, pot, a) >= 0
}

/// No residual arc with capacity at least `delta` has negative reduced cost.
pub open spec fn delta_optimal(to: Seq<u32>, cap: Seq<i64>, cost: Seq<i64>, pot: Seq<i64>, delta: int) -> bool {
    forall|a: int| 0 <= a < to.len() ==> #[trigger] arc_optimal(to, cap, cost, pot, delta, a)
}

impl Network {
    /// An arc and its reverse have opposite reduced costs.
    proof fn lemma_partner_cost(&self, arcs: Seq<(usize, usize, i64, i64)>, pot: Seq<i64>, a: int)
        requires
            self.shaped(arcs, self.adj@.len() as nat),
            0 <= a < 2 * arcs.len(),
        ensures
            0 <= partner(a) < 2 * arcs.len(),
            partner(partner(a)) == a,
            tail_of(self.to@, partner(a)) == self.to@[a] as int,
            self.to@[partner(a)] as int == tail_of(self.to@, a),
            reduced_cost(self.to@, self.cost@, pot, partner(a)) == -reduced_cost(
                self.to@,
                self.cost@,
                pot,
                a,
            ),
    {
        let k = a / 2;
        assert(self.to@[2 * k] == arcs[k].1);
        assert(self.cost@[2 * k + 1] == -arcs[k].3);
    }
}

/// The error the flow computation itself can give: a potential, distance or
/// excess would leave `i64`.
pub open spec fn solver_failure(e: Seq<char>) -> bool {
    e == "solver arithmetic out of range"@
}

fn out_of_range() -> (e: String)
    ensures
        e@ == "solver arithmetic out of range"@,
{
    String::from_str("solver arithmetic out of range")
}

/// `a + b + c - d` when it fits in `i64`.
fn reduced(a: i64, b: i64, c: i64, d: i64) -> (r: Option<i64>)
    ensures
        r matches Some(x) ==> x == a + b + c - d,
        r is None ==> !(i64::MIN <= a + b + c - d <= i64::MAX),
{
    let x: i128 = a as i128 + b as i128 + c as i128 - d as i128;
    if x < i64::MIN as i128 || x > i64::MAX as i128 {
        None
    } else {
        Some(x as i64)
    }
}

/// Where node `x` stands in the list of settled nodes.
spec fn pos(order: Seq<u32>, x: int) -> int {
    choose|i: int| 0 <= i < order.len() && order[i] == x as u32
}

/// Settling one more node leaves the others where they stood and puts it last.
proof fn lemma_pos_push(order: Seq<u32>, u: u32, x: int)
    requires
        forall|i: int, j: int| 0 <= i < j < order.len() ==> order[i] != order[j],
        !order.contains(u),
        0 <= x <= u32::MAX,
        order.contains(x as u32) || x == u,
    ensures
        x == u ==> pos(order.push(u), x) == order.len(),
        x != u ==> pos(order.push(u), x) == pos(order, x),
        0 <= pos(order.push(u), x) < order.len() + 1,
        order.push(u)[pos(order.push(u), x)] == x as u32,
{
    let o2 = order.push(u);
    if x == u {
        assert(o2[order.len() as int] == x as u32);
        let i = pos(o2, x);
        if i < order.len() {
            assert(order[i] == u);
            assert(order.contains(u));
        }
    } else {
        let k = choose|k: int| 0 <= k < order.len() && order[k] == x as u32;
        assert(o2[k] == x as u32);
        let i = pos(o2, x);
        let j = pos(order, x);
        assert(i < order.len());
        assert(order[i] == x as u32);
        assert(order[j] == x as u32);
    }
}

impl Search {
    /// Every settled node with a predecessor was settled after that
    /// predecessor's tail.
    spec fn ranked(&self, net: &Network, nodes: int) -> bool {
        forall|v: int|
            0 <= v < nodes && #[trigger] self.done(v) && self.pred@[v] != u32::MAX ==> pos(
                self.order@,
                tail_of(net.to@, self.pred@[v] as int),
            ) < pos(self.order@, v)
    }

    /// Node `v` was reached in the current search.
    spec fn seen(&self, v: int) -> bool {
        self.stamp@[v] == self.id
    }

    /// The nodes reached in the current search, as marks.
    spec fn seen_set(&self, nodes: int) -> Seq<bool> {
        Seq::new(nodes as nat, |v: int| self.seen(v))
    }

    /// Node `v` was settled in the current search.
    spec fn done(&self, v: int) -> bool {
        self.settled@[v] == self.id
    }

    /// The predecessor arc of a reached node leaves a settled node.
    spec fn pred_settled(&self, net: &Network, v: int) -> bool {
        self.seen(v) && self.pred@[v] != u32::MAX ==> self.done(tail_of(net.to@, self.pred@[v] as int))
    }

    /// Node `v` was reached but not settled.
    spec fn waiting(&self, v: int) -> bool {
        self.seen(v) && !self.done(v)
    }

    /// Distances follow reduced costs: a source sits at distance 0, and a node
    /// reached along its predecessor arc sits at the distance of that arc's
    /// settled tail plus the arc's reduced cost.
    spec fn node_tight(&self, net: &Network, pot: Seq<i64>, v: int) -> bool {
        &&& self.seen(v) && self.pred@[v] == u32::MAX ==> self.dist@[v] == 0
        &&& self.seen(v) && self.pred@[v] != u32::MAX ==> {
            &&& self.done(tail_of(net.to@, self.pred@[v] as int))
            &&& self.dist@[v] == self.dist@[tail_of(net.to@, self.pred@[v] as int)] + reduced_cost(
                net.to@,
                net.cost@,
                pot,
                self.pred@[v] as int,
            )
        }
    }

    /// Arc `a`, if it has capacity at least `delta`, leads to a reached node no
    /// farther than its tail's distance plus its reduced cost.
    spec fn arc_relaxed(&self, net: &Network, pot: Seq<i64>, delta: i64, a: int) -> bool {
        net.cap@[a] >= delta ==> {
            &&& self.seen(net.to@[a] as int)
            &&& self.dist@[net.to@[a] as int] <= self.dist@[tail_of(net.to@, a)] + reduced_cost(
                net.to@,
                net.cost@,
                pot,
                a,
            )
        }
    }

    /// The arcs at positions below `upto` in the list of `x` are relaxed.
    spec fn relaxed(&self, net: &Network, pot: Seq<i64>, delta: i64, x: int, upto: int) -> bool {
        forall|i: int| 0 <= i < upto ==> #[trigger] self.arc_relaxed(net, pot, delta, net.adj@[x]@[i] as int)
    }

    /// `order` lists the settled nodes, each once.
    spec fn order_ok(&self, nodes: int) -> bool {
        &&& forall|i: int, j: int| 0 <= i < j < self.order@.len() ==> self.order@[i] != self.order@[j]
        &&& forall|v: int| 0 <= v < nodes ==> (#[trigger] self.done(v) <==> self.order@.contains(v as u32))
    }

    /// What a Dijkstra search keeps at level `lo` (the last key taken from the
    /// heap), node `u` having its arcs relaxed up to position `upto` and every
    /// other settled node all of them.
    spec fn dijkstra(&self, net: &Network, pot: Seq<i64>, nodes: int, delta: i64, lo: int, u: int, upto: int) -> bool {
        &&& forall|v: int| 0 <= v < nodes ==> #[trigger] self.node_tight(net, pot, v)
        &&& forall|x: (i64, u32)|
            #[trigger] self.heap.contents().contains(x) ==> x.0 >= self.dist@[x.1 as int] && x.0 >= lo
        &&& forall|v: int|
            0 <= v < nodes && #[trigger] self.waiting(v) ==> self.heap.contents().contains(
                (self.dist@[v], v as u32),
            )
        &&& forall|v: int| 0 <= v < nodes && #[trigger] self.done(v) ==> self.dist@[v] <= lo
        &&& forall|x: int|
            #![trigger self.done(x)]
            0 <= x < nodes && self.done(x) && x != u ==> self.relaxed(net, pot, delta, x, net.adj@[x]@.len() as int)
        &&& 0 <= u < nodes ==> self.relaxed(net, pot, delta, u, upto)
        &&& self.order_ok(nodes)
    }
}

/// One Dijkstra search over reduced costs from every node with excess at least
/// `delta`, through arcs with residual capacity at least `delta`. Returns the
/// first settled node whose deficit is at least `delta`, if any.
fn find_target(
    sr: &mut Search,
    net: &Network,
    Ghost(arcs): Ghost<Seq<(usize, usize, i64, i64)>>,
    nodes: usize,
    excess: &Vec<i64>,
    pot: &Vec<i64>,
    delta: i64,
) -> (r: Result<Option<usize>, String>)
    requires
        net.shaped(arcs, nodes as nat),
        old(sr).sized(nodes as int),
        old(sr).stamps_past(),
        excess@.len() == nodes,
        pot@.len() == nodes,
        delta >= 1,
        delta_optimal(net.to@, net.cap@, net.cost@, pot@, delta as int),
    ensures
        final(sr).sized(nodes as int),
        final(sr).stamps_past(),
        r matches Ok(Some(t)) ==> {
            &&& t < nodes
            &&& final(sr).ok(net, 2 * arcs.len() as int, nodes as int, excess@, delta)
            &&& final(sr).stamp@[t as int] == final(sr).id
            &&& excess@[t as int] <= -delta
            &&& final(sr).done(t as int)
            &&& final(sr).dijkstra(net, pot@, nodes as int, delta, final(sr).dist@[t as int] as int, t as int, 0)
            &&& final(sr).ranked(net, nodes as int)
        },
        r matches Ok(None) ==> closed_cut(
            net.to@,
            net.cap@,
            excess@,
            delta as int,
            nodes as int,
            final(sr).seen_set(nodes as int),
        ),
        r matches Err(e) ==> solver_failure(e@),
{
    if sr.id == u64::MAX {
        for v in 0..nodes
            invariant
                sr.sized(nodes as int),
                sr.id == u64::MAX,
                forall|w: int| 0 <= w < v ==> sr.stamp@[w] == 0 && sr.settled@[w] == 0,
        {
            sr.stamp.set(v, 0);
            sr.settled.set(v, 0);
        }
        sr.id = 0;
        assert(sr.stamps_past());
    }
    assert(sr.stamps_past() && sr.id < u64::MAX);
    let id = sr.id + 1;
    sr.id = id;
    sr.heap.clear();
    sr.order.clear();
    let ghost m: int = 2 * arcs.len() as int;
    for v in 0..nodes
        invariant
            net.shaped(arcs, nodes as nat),
            m == 2 * arcs.len(),
            sr.sized(nodes as int),
            sr.stamps_past(),
            sr.id == id,
            excess@.len() == nodes,
            pot@.len() == nodes,
            delta >= 1,
            sr.order@.len() == 0,
            forall|x: (i64, u32)|
                sr.heap.contents().contains(x) ==> x.1 < nodes && sr.stamp@[x.1 as int] == id,
            forall|w: int| 0 <= w < nodes ==> #[trigger] sr.node_ok(net, m, excess@, delta, w),
            forall|w: int| v <= w < nodes ==> sr.stamp@[w] < id && sr.settled@[w] < id,
            forall|w: int| 0 <= w < nodes ==> sr.settled@[w] < id,
            forall|w: int| 0 <= w < nodes && #[trigger] sr.seen(w) ==> sr.pred@[w] == u32::MAX && sr.dist@[w] == 0,
            forall|x: (i64, u32)|
                #[trigger] sr.heap.contents().contains(x) ==> x.0 >= sr.dist@[x.1 as int] && x.0 >= 0,
            forall|w: int|
                0 <= w < nodes && #[trigger] sr.waiting(w) ==> sr.heap.contents().contains(
                    (sr.dist@[w], w as u32),
                ),
            forall|w: int| 0 <= w < v && #[trigger] excess@[w] >= delta ==> sr.seen(w),
    {
        if excess[v] >= delta {
            let ghost prev = *sr;
            sr.stamp.set(v, id);
            sr.dist.set(v, 0);
            sr.pred.set(v, u32::MAX);
            sr.heap.push((0, v as u32));
            assert forall|w: int| 0 <= w < nodes implies #[trigger] sr.node_ok(
                net,
                m,
                excess@,
                delta,
                w,
            ) by {
                assert(prev.node_ok(net, m, excess@, delta, w));
                if w == v {
                    assert(sr.stamp@[w] == id);
                    assert(sr.pred@[w] == u32::MAX);
                    assert(excess@[w] >= delta);
                    assert(sr.settled@[w] == prev.settled@[w]);
                } else {
                    assert(sr.stamp@[w] == prev.stamp@[w]);
                    assert(sr.pred@[w] == prev.pred@[w]);
                    assert(sr.settled@[w] == prev.settled@[w]);
                    if sr.stamp@[w] == id && sr.pred@[w] != u32::MAX {
                        let t = tail_of(net.to@, sr.pred@[w] as int);
                        assert(prev.stamp@[t] == id);
                        assert(sr.stamp@[t] == id);
                    }
                }
            }
            assert forall|x: (i64, u32)| sr.heap.contents().contains(x) implies x.1 < nodes
                && sr.stamp@[x.1 as int] == id by {
                if x != (0i64, v as u32) {
                    assert(prev.heap.contents().contains(x));
                }
            }
            assert forall|w: int| 0 <= w < nodes && #[trigger] sr.seen(w) implies sr.pred@[w] == u32::MAX && sr.dist@[w] == 0 by {
                if w != v {
                    assert(prev.seen(w));
                }
            }
            assert forall|x: (i64, u32)| #[trigger] sr.heap.contents().contains(x) implies x.0 >= sr.dist@[x.1 as int]
                && x.0 >= 0 by {
                if x != (0i64, v as u32) {
                    assert(prev.heap.contents().contains(x));
                    assert(x.1 != v);
                }
            }
            assert forall|w: int| 0 <= w < nodes && #[trigger] sr.waiting(w) implies sr.heap.contents().contains(
                (sr.dist@[w], w as u32),
            ) by {
                if w != v {
                    assert(prev.waiting(w));
                    assert(prev.heap.contents().contains((prev.dist@[w], w as u32)));
                }
            }
        }
    }
    if sr.heap.len() == 0 {
        proof {
            sr.heap.lemma_size();
            assert forall|w: int| 0 <= w < nodes implies !#[trigger] sr.seen(w) by {
                if sr.seen(w) {
                    assert(sr.settled@[w] < id);
                    assert(sr.waiting(w));
                    assert(sr.heap.contents().contains((sr.dist@[w], w as u32)));
                }
            }
            let x = sr.seen_set(nodes as int);
            assert forall|w: int| 0 <= w < nodes && excess@[w] >= delta implies #[trigger] x[w] by {
                assert(sr.seen(w));
            }
            assert forall|w: int| 0 <= w < nodes && #[trigger] x[w] implies excess@[w] > -delta by {
                assert(sr.seen(w));
            }
            assert forall|a: int|
                0 <= a < net.to@.len() && #[trigger] net.cap@[a] >= delta && x[tail_of(net.to@, a)] implies x[net.to@[a] as int] by {
                let t = tail_of(net.to@, a);
                assert(0 <= partner(a) < net.to@.len());
                assert(t < nodes);
                assert(sr.seen(t));
            }
        }
        return Ok(None);
    }
    let mut target: Option<usize> = None;
    let ghost mut lo: int = 0;
    assert forall|w: int| 0 <= w < nodes implies #[trigger] sr.node_tight(net, pot@, w) by {
        if sr.seen(w) {
            assert(sr.pred@[w] == u32::MAX);
        }
    }
    assert forall|w: int| 0 <= w < nodes && #[trigger] sr.done(w) implies sr.dist@[w] <= lo by {
        assert(sr.settled@[w] < id);
    }
    assert forall|x: int| #![trigger sr.done(x)] 0 <= x < nodes && sr.done(x) && x != nodes implies sr.relaxed(net, pot@, delta, x, net.adj@[x]@.len() as int) by {
        assert(sr.settled@[x] < id);
    }
    assert(sr.order_ok(nodes as int)) by {
        assert forall|w: int| 0 <= w < nodes implies (#[trigger] sr.done(w) <==> sr.order@.contains(w as u32)) by {
            assert(sr.settled@[w] < id);
        }
    }
    assert forall|w: int| 0 <= w < nodes && #[trigger] sr.done(w) && sr.pred@[w] != u32::MAX implies pos(
        sr.order@,
        tail_of(net.to@, sr.pred@[w] as int),
    ) < pos(sr.order@, w) by {
        assert(sr.settled@[w] < id);
    }
    loop
        invariant_except_break
            target is None,
            sr.dijkstra(net, pot@, nodes as int, delta, lo, nodes as int, 0),
            forall|w: int| 0 <= w < nodes && #[trigger] sr.done(w) ==> excess@[w] > -delta,
        invariant
            forall|w: int| 0 <= w < nodes && #[trigger] excess@[w] >= delta ==> sr.seen(w),
            sr.ranked(net, nodes as int),
            net.shaped(arcs, nodes as nat),
            m == 2 * arcs.len(),
            sr.sized(nodes as int),
            sr.stamps_past(),
            sr.id == id,
            excess@.len() == nodes,
            pot@.len() == nodes,
            delta >= 1,
            delta_optimal(net.to@, net.cap@, net.cost@, pot@, delta as int),
            sr.ok(net, m, nodes as int, excess@, delta),
        ensures
            target matches Some(t) ==> {
                &&& t < nodes
                &&& sr.stamp@[t as int] == id
                &&& excess@[t as int] <= -delta
                &&& sr.done(t as int)
                &&& sr.dist@[t as int] == lo
                &&& sr.dijkstra(net, pot@, nodes as int, delta, lo, t as int, 0)
            },
            target is None ==> closed_cut(
                net.to@,
                net.cap@,
                excess@,
                delta as int,
                nodes as int,
                sr.seen_set(nodes as int),
            ),
        decreases count_other(sr.settled@, id), sr.heap.size(),
    {
        let ghost settled_before = sr.settled@;
        let ghost size_before = sr.heap.size();
        let ghost c0 = sr.heap.contents();
        let ghost before_pop = *sr;
        let popped = sr.heap.pop();
        proof {
            if let Some(x) = popped {
                assert(c0 == sr.heap.contents().insert(x));
            }
            assert forall|y: (i64, u32)| sr.heap.contents().contains(y) implies y.1 < nodes
                && sr.stamp@[y.1 as int] == id by {
                assert(c0.contains(y));
            }
            assert forall|w: int| 0 <= w < nodes implies #[trigger] sr.node_ok(
                net,
                m,
                excess@,
                delta,
                w,
            ) by {
                assert(before_pop.node_ok(net, m, excess@, delta, w));
            }
        }
        let (d, uu) = match popped {
            None => {
                proof {
                    before_pop.heap.lemma_size();
                    let x = sr.seen_set(nodes as int);
                    assert forall|w: int| 0 <= w < nodes && #[trigger] sr.seen(w) implies sr.done(w) by {
                        if !sr.done(w) {
                            assert(before_pop.waiting(w));
                            assert(c0.contains((sr.dist@[w], w as u32)));
                        }
                    }
                    assert forall|w: int| 0 <= w < nodes && excess@[w] >= delta implies #[trigger] x[w] by {
                        assert(sr.seen(w));
                    }
                    assert forall|w: int| 0 <= w < nodes && #[trigger] x[w] implies excess@[w] > -delta by {
                        assert(sr.seen(w));
                        assert(before_pop.done(w));
                    }
                    assert forall|a: int|
                        0 <= a < net.to@.len() && #[trigger] net.cap@[a] >= delta && x[tail_of(net.to@, a)] implies x[net.to@[a] as int] by {
                        let t = tail_of(net.to@, a);
                        assert(0 <= partner(a) < net.to@.len());
                        assert(t < nodes);
                        assert(sr.seen(t));
                        assert(before_pop.done(t));
                        assert(before_pop.relaxed(net, pot@, delta, t, net.adj@[t]@.len() as int));
                        assert(listed(net.adj@, net.to@, a));
                        let i = choose|i: int| 0 <= i < net.adj@[t]@.len() && net.adj@[t]@[i] == a as u32;
                        assert(before_pop.arc_relaxed(net, pot@, delta, net.adj@[t]@[i] as int));
                        assert(net.to@[a] < nodes);
                    }
                    assert forall|w: int| 0 <= w < nodes && #[trigger] sr.done(w) && sr.pred@[w] != u32::MAX implies pos(
                        sr.order@,
                        tail_of(net.to@, sr.pred@[w] as int),
                    ) < pos(sr.order@, w) by {
                        assert(before_pop.done(w));
                    }
                }
                break;
            },
            Some(x) => x,
        };
        assert(sr.heap.size() < size_before);
        assert(c0.contains((d, uu)));
        proof {
            assert(before_pop.dijkstra(net, pot@, nodes as int, delta, lo, nodes as int, 0));
            assert(d >= lo);
            lo = d as int;
            assert forall|w: int| 0 <= w < nodes implies #[trigger] sr.node_tight(net, pot@, w) by {
                assert(before_pop.node_tight(net, pot@, w));
            }
            assert forall|y: (i64, u32)| #[trigger] sr.heap.contents().contains(y) implies y.0 >= sr.dist@[y.1 as int]
                && y.0 >= lo by {
                assert(c0.contains(y));
                assert(key_le((d, uu), y));
            }
            assert forall|w: int| 0 <= w < nodes && #[trigger] sr.waiting(w) && w != uu implies sr.heap.contents().contains(
                (sr.dist@[w], w as u32),
            ) by {
                assert(before_pop.waiting(w));
                assert(c0.contains((sr.dist@[w], w as u32)));
            }
            assert forall|w: int| 0 <= w < nodes && #[trigger] sr.done(w) implies sr.dist@[w] <= lo by {
                assert(before_pop.done(w));
            }
            assert(sr.order_ok(nodes as int)) by {
                assert(before_pop.order_ok(nodes as int));
                assert forall|w: int| 0 <= w < nodes implies (#[trigger] sr.done(w) <==> sr.order@.contains(w as u32)) by {
                    assert(before_pop.done(w) <==> before_pop.order@.contains(w as u32));
                }
            }
            assert forall|w: int| 0 <= w < nodes && #[trigger] sr.done(w) && sr.pred@[w] != u32::MAX implies pos(
                sr.order@,
                tail_of(net.to@, sr.pred@[w] as int),
            ) < pos(sr.order@, w) by {
                assert(before_pop.done(w));
            }
            assert forall|x: int| #![trigger sr.done(x)] 0 <= x < nodes && sr.done(x) implies sr.relaxed(net, pot@, delta, x, net.adj@[x]@.len() as int) by {
                assert(before_pop.done(x));
                assert(before_pop.relaxed(net, pot@, delta, x, net.adj@[x]@.len() as int));
                assert forall|i: int| 0 <= i < net.adj@[x]@.len() implies #[trigger] sr.arc_relaxed(net, pot@, delta, net.adj@[x]@[i] as int) by {
                    assert(before_pop.arc_relaxed(net, pot@, delta, net.adj@[x]@[i] as int));
                }
            }
        }
        let u = uu as usize;
        if sr.settled[u] == id || d > sr.dist[u] {
            proof {
                assert forall|w: int| 0 <= w < nodes && #[trigger] sr.waiting(w) implies sr.heap.contents().contains(
                    (sr.dist@[w], w as u32),
                ) by {
                    assert(before_pop.waiting(w));
                    assert(c0.contains((sr.dist@[w], w as u32)));
                    if w == u {
                        assert((sr.dist@[w], w as u32) != (d, uu));
                    }
                }
                assert forall|w: int| 0 <= w < nodes && #[trigger] sr.done(w) implies excess@[w] > -delta by {
                    assert(before_pop.done(w));
                }
                assert forall|w: int| 0 <= w < nodes && #[trigger] sr.done(w) && sr.pred@[w] != u32::MAX implies pos(
                    sr.order@,
                    tail_of(net.to@, sr.pred@[w] as int),
                ) < pos(sr.order@, w) by {
                    assert(before_pop.done(w));
                }
            }
            continue;
        }
        assert(d == sr.dist@[u as int]);
        let ghost prev = *sr;
        sr.settled.set(u, id);
        sr.order.push(u as u32);
        proof {
            lemma_count_other_mark(settled_before, u as int, id);
            assert forall|w: int| 0 <= w < nodes implies #[trigger] sr.node_ok(
                net,
                m,
                excess@,
                delta,
                w,
            ) by {
                assert(prev.node_ok(net, m, excess@, delta, w));
                if w == u {
                }
            }
            assert forall|w: int| 0 <= w < nodes implies #[trigger] sr.node_tight(net, pot@, w) by {
                assert(prev.node_tight(net, pot@, w));
                assert(sr.seen(w) == prev.seen(w));
                assert(sr.dist@ == prev.dist@);
                if sr.seen(w) && sr.pred@[w] != u32::MAX {
                    assert(prev.node_ok(net, m, excess@, delta, w));
                    let b = sr.pred@[w] as int;
                    assert(b < m);
                    let t = tail_of(net.to@, b);
                    assert(0 <= partner(b) < m);
                    assert(t < nodes);
                    assert(prev.done(t));
                    assert(sr.done(t));
                }
            }
            assert forall|w: int| 0 <= w < nodes && #[trigger] sr.waiting(w) implies sr.heap.contents().contains(
                (sr.dist@[w], w as u32),
            ) by {
                assert(prev.waiting(w));
            }
            assert forall|w: int| 0 <= w < nodes && #[trigger] sr.done(w) implies sr.dist@[w] <= lo by {
                if w != u {
                    assert(prev.done(w));
                }
            }
            assert forall|x: int| #![trigger sr.done(x)] 0 <= x < nodes && sr.done(x) && x != u implies sr.relaxed(net, pot@, delta, x, net.adj@[x]@.len() as int) by {
                assert(prev.done(x));
                assert(prev.relaxed(net, pot@, delta, x, net.adj@[x]@.len() as int));
                assert forall|i: int| 0 <= i < net.adj@[x]@.len() implies #[trigger] sr.arc_relaxed(net, pot@, delta, net.adj@[x]@[i] as int) by {
                    assert(prev.arc_relaxed(net, pot@, delta, net.adj@[x]@[i] as int));
                }
            }
            assert(sr.order_ok(nodes as int)) by {
                assert(prev.order_ok(nodes as int));
                assert(!prev.order@.contains(u as u32)) by {
                    assert(!prev.done(u as int));
                }
                assert forall|i: int, j: int| 0 <= i < j < sr.order@.len() implies sr.order@[i] != sr.order@[j] by {
                    if j == sr.order@.len() - 1 {
                        assert(prev.order@[i] != u as u32) by {
                            assert(prev.order@.contains(prev.order@[i]));
                        }
                    }
                }
                assert forall|w: int| 0 <= w < nodes implies (#[trigger] sr.done(w) <==> sr.order@.contains(w as u32)) by {
                    if w != u {
                        assert(prev.done(w) <==> prev.order@.contains(w as u32));
                        if prev.order@.contains(w as u32) {
                            let i = choose|i: int| 0 <= i < prev.order@.len() && prev.order@[i] == w as u32;
                            assert(sr.order@[i] == w as u32);
                        }
                        if sr.order@.contains(w as u32) {
                            let i = choose|i: int| 0 <= i < sr.order@.len() && sr.order@[i] == w as u32;
                            assert(i < prev.order@.len());
                            assert(prev.order@[i] == w as u32);
                        }
                    } else {
                        assert(sr.order@[sr.order@.len() - 1] == u as u32);
                    }
                }
            }
        }
        proof {
            assert(prev.order_ok(nodes as int));
            assert(!prev.order@.contains(u as u32)) by {
                assert(!prev.done(u as int));
            }
            assert(sr.order@ == prev.order@.push(u as u32));
            assert forall|w: int| 0 <= w < nodes && #[trigger] sr.done(w) && sr.pred@[w] != u32::MAX implies pos(
                sr.order@,
                tail_of(net.to@, sr.pred@[w] as int),
            ) < pos(sr.order@, w) by {
                let b = sr.pred@[w] as int;
                assert(prev.node_ok(net, m, excess@, delta, w));
                assert(prev.node_tight(net, pot@, w));
                let tl = tail_of(net.to@, b);
                assert(0 <= partner(b) < m);
                assert(tl < nodes);
                assert(prev.done(tl));
                assert(prev.order@.contains(tl as u32));
                lemma_pos_push(prev.order@, u as u32, tl);
                if w == u {
                    lemma_pos_push(prev.order@, u as u32, w);
                } else {
                    assert(prev.done(w));
                    assert(prev.order@.contains(w as u32));
                    lemma_pos_push(prev.order@, u as u32, w);
                }
            }
        }
        if excess[u] <= -delta {
            target = Some(u);
            break;
        }
        assert forall|w: int| 0 <= w < nodes && #[trigger] sr.done(w) implies excess@[w] > -delta by {
            if w != u {
                assert(before_pop.done(w));
            }
        }
        let nb = net.adj[u].len();
        for i in 0..nb
            invariant
                net.shaped(arcs, nodes as nat),
                m == 2 * arcs.len(),
                u < nodes,
                nb == net.adj@[u as int]@.len(),
                sr.sized(nodes as int),
                sr.stamps_past(),
                sr.id == id,
                sr.stamp@[u as int] == id,
                sr.done(u as int),
                sr.dist@[u as int] == d,
                d == lo,
                excess@.len() == nodes,
                pot@.len() == nodes,
                delta >= 1,
                delta_optimal(net.to@, net.cap@, net.cost@, pot@, delta as int),
                sr.ok(net, m, nodes as int, excess@, delta),
                sr.dijkstra(net, pot@, nodes as int, delta, lo, u as int, i as int),
                count_other(sr.settled@, id) < count_other(settled_before, id),
                forall|w: int| 0 <= w < nodes && #[trigger] excess@[w] >= delta ==> sr.seen(w),
                forall|w: int| 0 <= w < nodes && #[trigger] sr.done(w) ==> excess@[w] > -delta,
                sr.ranked(net, nodes as int),
        {
            let a = net.adj[u][i] as usize;
            assert(a < m && tail_of(net.to@, a as int) == u);
            let v = net.to[a] as usize;
            let ghost prev2 = *sr;
            let nd = if net.cap[a] < delta {
                0
            } else {
                match reduced(d, net.cost[a], pot[u], pot[v]) {
                    Some(x) => x,
                    None => {
                        return Err(out_of_range());
                    },
                }
            };
            if net.cap[a] >= delta {
                assert(arc_optimal(net.to@, net.cap@, net.cost@, pot@, delta as int, a as int));
                assert(nd == sr.dist@[u as int] + reduced_cost(net.to@, net.cost@, pot@, a as int));
            }
            if net.cap[a] >= delta && (sr.stamp[v] != id || nd < sr.dist[v]) {
                assert(v < nodes);
                assert(!sr.done(v as int)) by {
                    if sr.done(v as int) {
                        assert(sr.node_ok(net, m, excess@, delta, v as int));
                        assert(sr.stamp@[v as int] == id);
                        assert(sr.dist@[v as int] <= lo);
                        assert(nd >= d);
                    }
                }
                assert(v != u) by {
                    let k = a as int / 2;
                    assert(net.to@[2 * k] == arcs[k].1 && net.to@[2 * k + 1] == arcs[k].0);
                    assert(arcs[k].0 != arcs[k].1);
                }
                sr.stamp.set(v, id);
                sr.dist.set(v, nd);
                sr.pred.set(v, a as u32);
                sr.heap.push((nd, v as u32));
                proof {
                    assert forall|w: int| 0 <= w < nodes implies #[trigger] sr.node_ok(
                        net,
                        m,
                        excess@,
                        delta,
                        w,
                    ) by {
                        assert(prev2.node_ok(net, m, excess@, delta, w));
                        if w != v && sr.stamp@[w] == id && sr.pred@[w] != u32::MAX {
                            let t = tail_of(net.to@, sr.pred@[w] as int);
                            assert(prev2.stamp@[t] == id);
                        }
                    }
                    assert forall|x: (i64, u32)| sr.heap.contents().contains(x) implies x.1 < nodes
                        && sr.stamp@[x.1 as int] == id by {
                        if x != (nd, v as u32) {
                            assert(prev2.heap.contents().contains(x));
                        }
                    }
                    assert forall|w: int| 0 <= w < nodes implies #[trigger] sr.node_tight(net, pot@, w) by {
                        assert(prev2.node_tight(net, pot@, w));
                        if w == v {
                            assert(sr.pred@[w] == a as u32);
                            assert(sr.pred@[w] as int == a as int);
                            assert(tail_of(net.to@, a as int) == u);
                            assert(sr.dist@[u as int] == d);
                            assert(sr.done(u as int));
                            assert(sr.dist@[w] == nd);
                        } else {
                            assert(sr.seen(w) == prev2.seen(w));
                            assert(sr.pred@[w] == prev2.pred@[w]);
                            assert(sr.dist@[w] == prev2.dist@[w]);
                            if sr.seen(w) && sr.pred@[w] != u32::MAX {
                                assert(prev2.node_ok(net, m, excess@, delta, w));
                                let b = sr.pred@[w] as int;
                                let t = tail_of(net.to@, b);
                                assert(0 <= partner(b) < m);
                                assert(t < nodes);
                                assert(prev2.done(t));
                                assert(t != v);
                                assert(sr.dist@[t] == prev2.dist@[t]);
                                assert(sr.done(t));
                            }
                        }
                    }
                    assert forall|x: (i64, u32)| #[trigger] sr.heap.contents().contains(x) implies x.0 >= sr.dist@[x.1 as int]
                        && x.0 >= lo by {
                        if x != (nd, v as u32) {
                            assert(prev2.heap.contents().contains(x));
                        }
                    }
                    assert forall|w: int| 0 <= w < nodes && #[trigger] sr.waiting(w) implies sr.heap.contents().contains(
                        (sr.dist@[w], w as u32),
                    ) by {
                        if w != v {
                            assert(prev2.waiting(w));
                        }
                    }
                    assert forall|w: int| 0 <= w < nodes && #[trigger] sr.done(w) implies sr.dist@[w] <= lo by {
                        assert(prev2.done(w));
                    }
                    assert forall|x: int| #![trigger sr.done(x)] 0 <= x < nodes && sr.done(x) && x != u implies sr.relaxed(net, pot@, delta, x, net.adj@[x]@.len() as int) by {
                        assert(prev2.done(x));
                        assert(prev2.relaxed(net, pot@, delta, x, net.adj@[x]@.len() as int));
                        assert forall|j: int| 0 <= j < net.adj@[x]@.len() implies #[trigger] sr.arc_relaxed(net, pot@, delta, net.adj@[x]@[j] as int) by {
                            assert(prev2.arc_relaxed(net, pot@, delta, net.adj@[x]@[j] as int));
                        }
                    }
                    assert forall|j: int| 0 <= j < i + 1 implies #[trigger] sr.arc_relaxed(net, pot@, delta, net.adj@[u as int]@[j] as int) by {
                        if j < i {
                            assert(prev2.arc_relaxed(net, pot@, delta, net.adj@[u as int]@[j] as int));
                        }
                    }
                    assert(sr.order_ok(nodes as int)) by {
                        assert(prev2.order_ok(nodes as int));
                        assert forall|w: int| 0 <= w < nodes implies (#[trigger] sr.done(w) <==> sr.order@.contains(w as u32)) by {
                            assert(prev2.done(w) <==> prev2.order@.contains(w as u32));
                        }
                    }
                    assert forall|w: int| 0 <= w < nodes && #[trigger] sr.done(w) implies excess@[w] > -delta by {
                        assert(prev2.done(w));
                    }
                    assert forall|w: int| 0 <= w < nodes && #[trigger] excess@[w] >= delta implies sr.seen(w) by {
                        if w != v {
                            assert(prev2.seen(w));
                        }
                    }
                    assert forall|w: int| 0 <= w < nodes && #[trigger] sr.done(w) && sr.pred@[w] != u32::MAX implies pos(
                        sr.order@,
                        tail_of(net.to@, sr.pred@[w] as int),
                    ) < pos(sr.order@, w) by {
                        assert(prev2.done(w));
                        assert(w != v);
                    }
                }
            } else {
                proof {
                    assert forall|j: int| 0 <= j < i + 1 implies #[trigger] sr.arc_relaxed(net, pot@, delta, net.adj@[u as int]@[j] as int) by {
                    }
                }
            }
        }
    }
    Ok(target)
}

/// Raises each potential settled before the target by its distance minus the
/// target's distance (Johnson's update, shifted so untouched nodes keep theirs).
fn shift_potentials(pot: &mut Vec<i64>, sr: &Search, nodes: usize, t: usize) -> (r: Result<
    (),
    String,
>)
    requires
        old(pot)@.len() == nodes,
        sr.dist@.len() == nodes,
        sr.settled@.len() == nodes,
        t < nodes,
        nodes <= u32::MAX,
        forall|i: int| 0 <= i < sr.order@.len() ==> (#[trigger] sr.order@[i]) < nodes,
        sr.order_ok(nodes as int),
    ensures
        final(pot)@.len() == nodes,
        r is Ok ==> forall|x: int| 0 <= x < nodes ==> #[trigger] final(pot)@[x] == old(pot)@[x] + shift_of(sr, sr.dist@[t as int] as int, x),
        r matches Err(e) ==> solver_failure(e@),
{
    let bound = sr.dist[t];
    let ghost p0 = pot@;
    for i in 0..sr.order.len()
        invariant
            pot@.len() == nodes,
            p0.len() == nodes,
            sr.dist@.len() == nodes,
            sr.settled@.len() == nodes,
            bound == sr.dist@[t as int],
            nodes <= u32::MAX,
            forall|i: int| 0 <= i < sr.order@.len() ==> (#[trigger] sr.order@[i]) < nodes,
            sr.order_ok(nodes as int),
            forall|x: int| 0 <= x < nodes ==> #[trigger] pot@[x] == p0[x] + (if sr.order@.subrange(0, i as int).contains(x as u32) && sr.dist@[x] < bound {
                sr.dist@[x] - bound
            } else {
                0
            }),
    {
        let v = sr.order[i] as usize;
        let ghost before = pot@;
        let ghost o1 = sr.order@.subrange(0, i + 1);
        let ghost o0 = sr.order@.subrange(0, i as int);
        assert forall|x: int| 0 <= x < nodes implies (#[trigger] o1.contains(x as u32) <==> (o0.contains(x as u32) || x == v)) by {
            if o1.contains(x as u32) {
                let j = choose|j: int| 0 <= j < o1.len() && o1[j] == x as u32;
                if j < i {
                    assert(o0[j] == x as u32);
                } else {
                    assert(o1[j] == v as u32);
                }
            }
            if o0.contains(x as u32) {
                let j = choose|j: int| 0 <= j < o0.len() && o0[j] == x as u32;
                assert(o1[j] == x as u32);
            }
            if x == v {
                assert(o1[i as int] == x as u32);
            }
        }
        assert(!o0.contains(v as u32)) by {
            if o0.contains(v as u32) {
                let j = choose|j: int| 0 <= j < o0.len() && o0[j] == v as u32;
                assert(sr.order@[j] == sr.order@[i as int]);
            }
        }
        if sr.dist[v] < bound {
            let x = match reduced(pot[v], sr.dist[v], 0, bound) {
                Some(x) => x,
                None => {
                    return Err(out_of_range());
                },
            };
            pot.set(v, x);
        }
    }
    assert(sr.order@.subrange(0, sr.order@.len() as int) =~= sr.order@);
    assert forall|x: int| 0 <= x < nodes implies #[trigger] pot@[x] == p0[x] + shift_of(sr, bound as int, x) by {
        assert(sr.done(x) <==> sr.order@.contains(x as u32));
    }
    Ok(())
}

/// How far `shift_potentials` moves the potential of `x`: a node settled
/// closer than `bound` moves by its distance less `bound`, any other not at all.
spec fn shift_of(sr: &Search, bound: int, x: int) -> int {
    if sr.done(x) && sr.dist@[x] < bound {
        sr.dist@[x] - bound
    } else {
        0
    }
}

/// After the search that settled `t` and the potential shift, no arc with
/// capacity at least `delta` has negative reduced cost, and every predecessor
/// arc of a settled node has reduced cost zero.
proof fn lemma_shift_keeps_optimal(
    sr: &Search,
    net: &Network,
    arcs: Seq<(usize, usize, i64, i64)>,
    nodes: int,
    excess: Seq<i64>,
    pot: Seq<i64>,
    pot2: Seq<i64>,
    delta: i64,
    t: int,
)
    requires
        net.shaped(arcs, nodes as nat),
        sr.sized(nodes),
        pot.len() == nodes,
        pot2.len() == nodes,
        0 <= t < nodes,
        delta >= 1,
        delta_optimal(net.to@, net.cap@, net.cost@, pot, delta as int),
        sr.ok(net, 2 * arcs.len() as int, nodes, excess, delta),
        sr.done(t),
        sr.dijkstra(net, pot, nodes, delta, sr.dist@[t] as int, t, 0),
        forall|x: int| 0 <= x < nodes ==> #[trigger] pot2[x] == pot[x] + shift_of(sr, sr.dist@[t] as int, x),
    ensures
        delta_optimal(net.to@, net.cap@, net.cost@, pot2, delta as int),
        forall|v: int|
            0 <= v < nodes && sr.done(v) && sr.pred@[v] != u32::MAX ==> #[trigger] reduced_cost(
                net.to@,
                net.cost@,
                pot2,
                sr.pred@[v] as int,
            ) == 0,
{
    let m = 2 * arcs.len() as int;
    let bound = sr.dist@[t] as int;
    assert forall|a: int| 0 <= a < net.to@.len() implies #[trigger] arc_optimal(net.to@, net.cap@, net.cost@, pot2, delta as int, a) by {
        if net.cap@[a] >= delta {
            assert(arc_optimal(net.to@, net.cap@, net.cost@, pot, delta as int, a));
            let u = tail_of(net.to@, a);
            let v = net.to@[a] as int;
            assert(0 <= partner(a) < m);
            assert(0 <= u < nodes && 0 <= v < nodes);
            let rc = reduced_cost(net.to@, net.cost@, pot, a);
            assert(reduced_cost(net.to@, net.cost@, pot2, a) == rc + shift_of(sr, bound, u) - shift_of(sr, bound, v));
            if shift_of(sr, bound, u) != 0 {
                assert(sr.done(u) && sr.dist@[u] < bound);
                assert(u != t);
                assert(listed(net.adj@, net.to@, a));
                let i = choose|i: int| 0 <= i < net.adj@[u]@.len() && net.adj@[u]@[i] == a as u32;
                assert(sr.relaxed(net, pot, delta, u, net.adj@[u]@.len() as int));
                assert(sr.arc_relaxed(net, pot, delta, net.adj@[u]@[i] as int));
                assert(sr.seen(v) && sr.dist@[v] <= sr.dist@[u] + rc);
                if !sr.done(v) {
                    assert(sr.waiting(v));
                    assert(sr.heap.contents().contains((sr.dist@[v], v as u32)));
                }
            }
        }
    }
    assert forall|v: int|
        0 <= v < nodes && sr.done(v) && sr.pred@[v] != u32::MAX implies #[trigger] reduced_cost(
            net.to@,
            net.cost@,
            pot2,
            sr.pred@[v] as int,
        ) == 0 by {
        assert(sr.node_tight(net, pot, v));
        assert(sr.node_ok(net, m, excess, delta, v));
        let b = sr.pred@[v] as int;
        let u = tail_of(net.to@, b);
        assert(0 <= partner(b) < m);
        assert(0 <= u < nodes);
        assert(net.to@[b] as int == v);
        assert(sr.done(u));
        assert(sr.dist@[v] <= bound && sr.dist@[u] <= bound);
        assert(reduced_cost(net.to@, net.cost@, pot2, b) == reduced_cost(net.to@, net.cost@, pot, b) + shift_of(sr, bound, u) - shift_of(sr, bound, v));
    }
}

/// Net flow into `v` over the first `k` arcs; an arc's flow is its reverse residual capacity.
pub open spec fn net_in(arcs: Seq<(usize, usize, i64, i64)>, cap: Seq<i64>, v: int, k: int) -> int
    decreases k,
{
    if k <= 0 {
        0
    } else {
        net_in(arcs, cap, v, k - 1) + arc_net(arcs, cap, v, k - 1)
    }
}

/// What arc `j` adds to the net flow into `v`.
pub open spec fn arc_net(arcs: Seq<(usize, usize, i64, i64)>, cap: Seq<i64>, v: int, j: int) -> int {
    (if arcs[j].1 == v { cap[2 * j + 1] as int } else { 0int }) - (if arcs[j].0 == v {
        cap[2 * j + 1] as int
    } else {
        0int
    })
}

/// The excess of `v` is the net flow into it.
pub open spec fn node_conserved(
    arcs: Seq<(usize, usize, i64, i64)>,
    cap: Seq<i64>,
    excess: Seq<i64>,
    v: int,
) -> bool {
    excess[v] == net_in(arcs, cap, v, arcs.len() as int)
}

pub open spec fn conserved(
    arcs: Seq<(usize, usize, i64, i64)>,
    cap: Seq<i64>,
    excess: Seq<i64>,
    nodes: int,
) -> bool {
    forall|v: int| 0 <= v < nodes ==> #[trigger] node_conserved(arcs, cap, excess, v)
}

/// The capacities after moving `x` units along residual arc `a`.
pub open spec fn pushed(cap: Seq<i64>, a: int, x: int) -> Seq<i64> {
    cap.update(a, (cap[a] - x) as i64).update(partner(a), (cap[partner(a)] + x) as i64)
}

/// Moving `x` units along residual arc `a` adds `x` to the net flow into its
/// head and takes `x` from that into its tail.
proof fn lemma_net_in_push(
    arcs: Seq<(usize, usize, i64, i64)>,
    cap: Seq<i64>,
    a: int,
    x: int,
    v: int,
    k: int,
)
    requires
        0 <= a < 2 * arcs.len(),
        cap.len() == 2 * arcs.len(),
        i64::MIN <= cap[a] - x <= i64::MAX,
        i64::MIN <= cap[partner(a)] + x <= i64::MAX,
        0 <= k <= arcs.len(),
    ensures
        net_in(arcs, pushed(cap, a, x), v, k) == net_in(arcs, cap, v, k) + (if a / 2 < k {
            (if (if a % 2 == 0 { arcs[a / 2].1 } else { arcs[a / 2].0 }) == v { x } else { 0 })
                - (if (if a % 2 == 0 { arcs[a / 2].0 } else { arcs[a / 2].1 }) == v { x } else { 0 })
        } else {
            0
        }),
    decreases k,
{
    if k > 0 {
        lemma_net_in_push(arcs, cap, a, x, v, k - 1);
        let c2 = pushed(cap, a, x);
        let j = k - 1;
        if j != a / 2 {
            assert(c2[2 * j + 1] == cap[2 * j + 1]);
        } else {
            if a % 2 == 0 {
                assert(partner(a) == 2 * j + 1);
                assert(c2[2 * j + 1] == cap[2 * j + 1] + x);
            } else {
                assert(a == 2 * j + 1);
                assert(c2[2 * j + 1] == cap[2 * j + 1] - x);
            }
        }
    }
}

/// Moving `x` units along residual arc `a` and the same amount of excess from its
/// tail to its head keeps every excess equal to the net flow in.
proof fn lemma_conserved_after_push(
    arcs: Seq<(usize, usize, i64, i64)>,
    cap: Seq<i64>,
    excess: Seq<i64>,
    nodes: int,
    a: int,
    x: int,
)
    requires
        arcs_fit(arcs, nodes as nat),
        0 <= a < 2 * arcs.len(),
        cap.len() == 2 * arcs.len(),
        excess.len() == nodes,
        i64::MIN <= cap[a] - x <= i64::MAX,
        i64::MIN <= cap[partner(a)] + x <= i64::MAX,
        conserved(arcs, cap, excess, nodes),
        ({
            let j = a / 2;
            let h = if a % 2 == 0 { arcs[j].1 } else { arcs[j].0 };
            let t = if a % 2 == 0 { arcs[j].0 } else { arcs[j].1 };
            &&& i64::MIN <= excess[t as int] - x <= i64::MAX
            &&& i64::MIN <= excess[h as int] + x <= i64::MAX
        }),
    ensures
        ({
            let j = a / 2;
            let h = (if a % 2 == 0 { arcs[j].1 } else { arcs[j].0 }) as int;
            let t = (if a % 2 == 0 { arcs[j].0 } else { arcs[j].1 }) as int;
            conserved(
                arcs,
                pushed(cap, a, x),
                excess.update(t, (excess[t] - x) as i64).update(h, (excess[h] + x) as i64),
                nodes,
            )
        }),
{
    let j = a / 2;
    assert(0 <= j < arcs.len());
    let aj = arcs[j];
    let h = (if a % 2 == 0 { arcs[j].1 } else { arcs[j].0 }) as int;
    let t = (if a % 2 == 0 { arcs[j].0 } else { arcs[j].1 }) as int;
    let e2 = excess.update(t, (excess[t] - x) as i64).update(h, (excess[h] + x) as i64);
    assert forall|v: int| 0 <= v < nodes implies #[trigger] node_conserved(
        arcs,
        pushed(cap, a, x),
        e2,
        v,
    ) by {
        assert(node_conserved(arcs, cap, excess, v));
        lemma_net_in_push(arcs, cap, a, x, v, arcs.len() as int);
    }
}

impl Network {
    /// Moves `x` units along residual arc `a`.
    fn push_units(&mut self, Ghost(arcs): Ghost<Seq<(usize, usize, i64, i64)>>, a: usize, x: i64)
        requires
            old(self).shaped(arcs, old(self).adj@.len() as nat),
            old(self).caps_ok(arcs),
            a < 2 * arcs.len(),
            0 <= x <= old(self).cap@[a as int],
        ensures
            final(self).cap@ == pushed(old(self).cap@, a as int, x as int),
            final(self).to@ == old(self).to@,
            final(self).cost@ == old(self).cost@,
            final(self).adj@ == old(self).adj@,
            final(self).shaped(arcs, old(self).adj@.len() as nat),
            final(self).caps_ok(arcs),
    {
        let p = partner_of(a);
        let j = a / 2;
        assert(arc_balanced(self.cap@, arcs, j as int));
        let ca = self.cap[a];
        let cp = self.cap[p];
        self.cap.set(a, ca - x);
        self.cap.set(p, cp + x);
        let ghost c2 = self.cap@;
        assert forall|k: int| 0 <= k < arcs.len() implies #[trigger] arc_balanced(c2, arcs, k) by {
            assert(arc_balanced(old(self).cap@, arcs, k));
        }
    }
}

/// Saturates every arc with capacity at least `delta` and negative reduced
/// cost, so the `delta`-residual network of the new phase has none.
fn saturate(
    net: &mut Network,
    Ghost(arcs): Ghost<Seq<(usize, usize, i64, i64)>>,
    nodes: usize,
    excess: &mut Vec<i64>,
    pot: &Vec<i64>,
    delta: i64,
) -> (r: Result<(), String>)
    requires
        old(net).shaped(arcs, nodes as nat),
        old(net).caps_ok(arcs),
        old(excess)@.len() == nodes,
        pot@.len() == nodes,
        conserved(arcs, old(net).cap@, old(excess)@, nodes as int),
        delta >= 1,
    ensures
        r matches Err(e) ==> solver_failure(e@),
        r is Ok ==> {
            &&& final(net).shaped(arcs, nodes as nat)
            &&& final(net).caps_ok(arcs)
            &&& final(excess)@.len() == nodes
            &&& conserved(arcs, final(net).cap@, final(excess)@, nodes as int)
            &&& final(net).adj@ == old(net).adj@
            &&& final(net).to@ == old(net).to@
            &&& final(net).cost@ == old(net).cost@
            &&& delta_optimal(final(net).to@, final(net).cap@, final(net).cost@, pot@, delta as int)
        },
{
    let m = net.to.len();
    for a in 0..m
        invariant
            m == net.to@.len() == 2 * arcs.len(),
            net.shaped(arcs, nodes as nat),
            net.caps_ok(arcs),
            excess@.len() == nodes,
            pot@.len() == nodes,
            conserved(arcs, net.cap@, excess@, nodes as int),
            net.adj@ == old(net).adj@,
            net.to@ == old(net).to@,
            net.cost@ == old(net).cost@,
            delta >= 1,
            forall|b: int| 0 <= b < a ==> #[trigger] arc_optimal(net.to@, net.cap@, net.cost@, pot@, delta as int, b),
    {
        let p = partner_of(a);
        let ghost j: int = a as int / 2;
        assert(net.to@[2 * j] == arcs[j].1 && net.to@[2 * j + 1] == arcs[j].0);
        let u = net.to[p] as usize;
        let v = net.to[a] as usize;
        if net.cap[a] >= delta {
            let rc: i128 = net.cost[a] as i128 + pot[u] as i128 - pot[v] as i128;
            if rc < 0 {
                let amount = net.cap[a];
                let eu = match excess[u].checked_sub(amount) {
                    Some(x) => x,
                    None => {
                        return Err(out_of_range());
                    },
                };
                let ev = match excess[v].checked_add(amount) {
                    Some(x) => x,
                    None => {
                        return Err(out_of_range());
                    },
                };
                assert(arc_balanced(net.cap@, arcs, j));
                proof {
                    lemma_conserved_after_push(arcs, net.cap@, excess@, nodes as int, a as int, amount as int);
                    net.lemma_partner_cost(arcs, pot@, a as int);
                }
                let ghost c0 = net.cap@;
                net.push_units(Ghost(arcs), a, amount);
                excess.set(u, eu);
                excess.set(v, ev);
                assert(rc == reduced_cost(net.to@, net.cost@, pot@, a as int));
                assert forall|b: int| 0 <= b < a + 1 implies #[trigger] arc_optimal(net.to@, net.cap@, net.cost@, pot@, delta as int, b) by {
                    if b == a {
                        assert(net.cap@[b] == 0);
                    } else if b == partner(a as int) {
                        assert(reduced_cost(net.to@, net.cost@, pot@, b) > 0);
                    } else {
                        assert(net.cap@[b] == c0[b]);
                        assert(arc_optimal(net.to@, c0, net.cost@, pot@, delta as int, b));
                    }
                }
            }
        }
    }
    Ok(())
}

/// The node one step back along the predecessor arc of `v`.
pub open spec fn back(to: Seq<u32>, pred: Seq<u32>, v: int) -> int {
    tail_of(to, pred[v] as int)
}

/// Step `i` of `chain` follows a predecessor arc back.
pub open spec fn chain_step(to: Seq<u32>, pred: Seq<u32>, chain: Seq<int>, i: int) -> bool {
    pred[chain[i]] != u32::MAX && chain[i + 1] == back(to, pred, chain[i])
}

/// The predecessor arc of step `i` of `chain` is an arc into that node.
pub open spec fn arc_into(to: Seq<u32>, pred: Seq<u32>, chain: Seq<int>, m: int, i: int) -> bool {
    pred[chain[i]] < m && to[pred[chain[i]] as int] == chain[i]
}

/// `chain` follows predecessor arcs back from its first node.
pub open spec fn is_chain(to: Seq<u32>, pred: Seq<u32>, chain: Seq<int>) -> bool {
    &&& chain.len() >= 1
    &&& forall|i: int| 0 <= i < chain.len() - 1 ==> #[trigger] chain_step(to, pred, chain, i)
}

proof fn lemma_chain_shift(to: Seq<u32>, pred: Seq<u32>, chain: Seq<int>, i: int, j: int, k: int)
    requires
        is_chain(to, pred, chain),
        0 <= i < j,
        j + k < chain.len(),
        k >= 0,
        chain[i] == chain[j],
    ensures
        chain[i + k] == chain[j + k],
    decreases k,
{
    if k > 0 {
        lemma_chain_shift(to, pred, chain, i, j, k - 1);
        assert(chain_step(to, pred, chain, i + k - 1));
        assert(chain_step(to, pred, chain, j + k - 1));
    }
}

/// A chain that ends at a node without predecessor never repeats a node.
proof fn lemma_chain_distinct(to: Seq<u32>, pred: Seq<u32>, chain: Seq<int>)
    requires
        is_chain(to, pred, chain),
        pred[chain.last()] == u32::MAX,
    ensures
        forall|i: int, j: int| 0 <= i < j < chain.len() ==> chain[i] != chain[j],
{
    assert forall|i: int, j: int| 0 <= i < j < chain.len() implies chain[i] != chain[j] by {
        if chain[i] == chain[j] {
            let k = chain.len() - 1 - j;
            lemma_chain_shift(to, pred, chain, i, j, k);
            assert(chain_step(to, pred, chain, i + k));
        }
    }
}

/// Excess equals net inflow once `x` more units reach `t` and `x` fewer leave `w`.
pub open spec fn node_conserved_but(
    arcs: Seq<(usize, usize, i64, i64)>,
    cap: Seq<i64>,
    excess: Seq<i64>,
    t: int,
    w: int,
    x: int,
    v: int,
) -> bool {
    excess[v] + (if v == t { x } else { 0 }) - (if v == w { x } else { 0 }) == net_in(
        arcs,
        cap,
        v,
        arcs.len() as int,
    )
}

/// Sends `x` units back along the predecessor arcs from `t` to a node with
/// excess; `x` is the least of the deficit of `t`, the excess there and the
/// capacities of the arcs in between.
fn augment(
    net: &mut Network,
    Ghost(arcs): Ghost<Seq<(usize, usize, i64, i64)>>,
    nodes: usize,
    excess: &mut Vec<i64>,
    sr: &Search,
    t: usize,
    delta: i64,
    Ghost(pot): Ghost<Seq<i64>>,
) -> (r: Result<(), String>)
    requires
        old(net).shaped(arcs, nodes as nat),
        old(net).caps_ok(arcs),
        old(excess)@.len() == nodes,
        conserved(arcs, old(net).cap@, old(excess)@, nodes as int),
        sr.sized(nodes as int),
        sr.ok(old(net), 2 * arcs.len() as int, nodes as int, old(excess)@, delta),
        t < nodes,
        sr.stamp@[t as int] == sr.id,
        old(excess)@[t as int] <= -delta,
        delta >= 1,
        pot.len() == nodes,
        delta_optimal(old(net).to@, old(net).cap@, old(net).cost@, pot, delta as int),
        sr.done(t as int),
        sr.order_ok(nodes as int),
        sr.ranked(old(net), nodes as int),
        forall|v: int| 0 <= v < nodes ==> #[trigger] sr.pred_settled(old(net), v),
        forall|v: int|
            0 <= v < nodes && sr.done(v) && sr.pred@[v] != u32::MAX ==> #[trigger] reduced_cost(
                old(net).to@,
                old(net).cost@,
                pot,
                sr.pred@[v] as int,
            ) == 0,
    ensures
        r matches Err(e) ==> solver_failure(e@),
        r is Ok ==> {
            &&& final(net).shaped(arcs, nodes as nat)
            &&& final(net).caps_ok(arcs)
            &&& final(excess)@.len() == nodes
            &&& conserved(arcs, final(net).cap@, final(excess)@, nodes as int)
            &&& final(net).adj@ == old(net).adj@
            &&& pos_excess(final(excess)@) < pos_excess(old(excess)@)
            &&& final(net).to@ == old(net).to@
            &&& final(net).cost@ == old(net).cost@
            &&& delta_optimal(final(net).to@, final(net).cap@, final(net).cost@, pot, delta as int)
        },
{
    let ghost m: int = 2 * arcs.len() as int;
    let ghost to = net.to@;
    let ghost pred = sr.pred@;
    assert(sr.node_ok(net, m, excess@, delta, t as int));
    let mut amount: i64 = match 0i64.checked_sub(excess[t]) {
        Some(x) => x,
        None => {
            return Err(out_of_range());
        },
    };
    let mut v = t;
    let ghost mut chain: Seq<int> = seq![t as int];
    proof {
        assert(sr.order@.contains(t as u32));
    }
    while sr.pred[v] != u32::MAX
        invariant
            net.shaped(arcs, nodes as nat),
            m == 2 * arcs.len(),
            to == net.to@,
            pred == sr.pred@,
            sr.sized(nodes as int),
            sr.ok(net, m, nodes as int, excess@, delta),
            sr.order_ok(nodes as int),
            sr.ranked(net, nodes as int),
            v < nodes,
            0 <= pos(sr.order@, v as int),
            is_chain(to, pred, chain),
            chain[0] == t,
            chain.last() == v,
            amount >= delta,
            amount <= -excess@[t as int],
            forall|i: int| 0 <= i < chain.len() ==> 0 <= #[trigger] chain[i] < nodes && sr.stamp@[chain[i]] == sr.id,
            forall|i: int| 0 <= i < chain.len() ==> #[trigger] sr.done(chain[i]),
            forall|v: int| 0 <= v < nodes ==> #[trigger] sr.pred_settled(net, v),
            forall|i: int|
                0 <= i < chain.len() - 1 ==> #[trigger] net.cap@[pred[chain[i]] as int] >= amount,
            forall|i: int| 0 <= i < chain.len() - 1 ==> #[trigger] arc_into(to, pred, chain, m, i),
        decreases pos(sr.order@, v as int),
    {
        assert(sr.node_ok(net, m, excess@, delta, v as int));
        let a = sr.pred[v] as usize;
        if net.cap[a] < amount {
            amount = net.cap[a];
        }
        let p = partner_of(a);
        let ghost prev = chain;
        let ghost v0 = v as int;
        v = net.to[p] as usize;
        proof {
            assert(sr.pred_settled(net, prev.last()));
            assert(sr.done(v0));
            assert(sr.done(v as int));
            assert(sr.order@.contains(v as u32));
            assert(pos(sr.order@, v as int) < pos(sr.order@, v0));
            chain = chain.push(v as int);
            assert forall|i: int| 0 <= i < chain.len() implies #[trigger] sr.done(chain[i]) by {
                if i < prev.len() {
                    assert(chain[i] == prev[i]);
                }
            }
            assert forall|i: int| 0 <= i < chain.len() - 1 implies #[trigger] chain_step(to, pred, chain, i) by {
                if i < prev.len() - 1 {
                    assert(chain_step(to, pred, prev, i));
                }
            }
            assert forall|i: int| 0 <= i < chain.len() - 1 implies #[trigger] arc_into(to, pred, chain, m, i) by {
                if i < prev.len() - 1 {
                    assert(arc_into(to, pred, prev, m, i));
                }
            }
        }
    }
    assert(sr.node_ok(net, m, excess@, delta, v as int));
    if excess[v] < amount {
        amount = excess[v];
    }
    let s = v;
    proof {
        lemma_chain_distinct(to, pred, chain);
        if s == t {
            assert(chain.len() == 1) by {
                if chain.len() > 1 {
                    assert(chain[0] != chain[chain.len() - 1]);
                }
            }
        }
    }
    assert(s != t);
    let ghost e0 = excess@;
    let ghost c0 = net.cap@;
    let mut w = t;
    let ghost mut idx: int = 0;
    assert forall|x: int| 0 <= x < nodes implies #[trigger] node_conserved_but(
        arcs,
        net.cap@,
        e0,
        t as int,
        w as int,
        amount as int,
        x,
    ) by {
        assert(node_conserved(arcs, c0, e0, x));
    }
    while sr.pred[w] != u32::MAX
        invariant
            net.shaped(arcs, nodes as nat),
            net.caps_ok(arcs),
            net.adj@ == old(net).adj@,
            m == 2 * arcs.len(),
            to == net.to@,
            pred == sr.pred@,
            sr.sized(nodes as int),
            excess@ == e0,
            is_chain(to, pred, chain),
            forall|i: int, j: int| 0 <= i < j < chain.len() ==> chain[i] != chain[j],
            pred[chain.last()] == u32::MAX,
            forall|i: int| 0 <= i < chain.len() ==> 0 <= #[trigger] chain[i] < nodes,
            0 <= idx < chain.len(),
            w == chain[idx],
            amount >= 1,
            amount <= e0[s as int],
            amount <= -e0[t as int],
            s == chain.last(),
            s != t,
            s < nodes,
            t < nodes,
            forall|i: int| 0 <= i < chain.len() - 1 ==> #[trigger] arc_into(to, pred, chain, m, i),
            forall|i: int|
                idx <= i < chain.len() - 1 ==> #[trigger] net.cap@[pred[chain[i]] as int] >= amount,
            forall|i: int| 0 <= i < chain.len() ==> #[trigger] sr.done(chain[i]),
            pot.len() == nodes,
            net.cost@ == old(net).cost@,
            delta_optimal(net.to@, net.cap@, net.cost@, pot, delta as int),
            forall|v: int|
                0 <= v < nodes && sr.done(v) && sr.pred@[v] != u32::MAX ==> #[trigger] reduced_cost(
                    net.to@,
                    net.cost@,
                    pot,
                    sr.pred@[v] as int,
                ) == 0,
            forall|x: int|
                0 <= x < nodes ==> #[trigger] node_conserved_but(
                    arcs,
                    net.cap@,
                    e0,
                    t as int,
                    w as int,
                    amount as int,
                    x,
                ),
        decreases chain.len() - idx,
    {
        let a = sr.pred[w] as usize;
        assert(idx < chain.len() - 1) by {
            if idx == chain.len() - 1 {
                assert(pred[chain.last()] == u32::MAX);
            }
        }
        assert(chain_step(to, pred, chain, idx));
        assert(arc_into(to, pred, chain, m, idx));
        let ghost cap_before = net.cap@;
        let ghost w_before = w as int;
        proof {
            let j = a as int / 2;
            assert(to[2 * j] == arcs[j].1 && to[2 * j + 1] == arcs[j].0);
            assert forall|x: int| 0 <= x < nodes implies #[trigger] node_conserved_but(
                arcs,
                pushed(cap_before, a as int, amount as int),
                e0,
                t as int,
                tail_of(to, a as int),
                amount as int,
                x,
            ) by {
                assert(node_conserved_but(arcs, cap_before, e0, t as int, w_before, amount as int, x));
                assert(arc_balanced(cap_before, arcs, j));
                lemma_net_in_push(arcs, cap_before, a as int, amount as int, x, arcs.len() as int);
            }
        }
        proof {
            net.lemma_partner_cost(arcs, pot, a as int);
            assert(sr.done(chain[idx]));
            assert(reduced_cost(net.to@, net.cost@, pot, a as int) == 0);
        }
        net.push_units(Ghost(arcs), a, amount);
        proof {
            assert forall|b: int| 0 <= b < net.to@.len() implies #[trigger] arc_optimal(net.to@, net.cap@, net.cost@, pot, delta as int, b) by {
                if b != a && b != partner(a as int) {
                    assert(net.cap@[b] == cap_before[b]);
                    assert(arc_optimal(net.to@, cap_before, net.cost@, pot, delta as int, b));
                } else if b == a {
                    assert(arc_optimal(net.to@, cap_before, net.cost@, pot, delta as int, b));
                }
            }
        }
        let p = partner_of(a);
        w = net.to[p] as usize;
        proof {
            assert forall|i: int|
                idx + 1 <= i < chain.len() - 1 implies #[trigger] net.cap@[pred[chain[i]] as int]
                >= amount by {
                assert(cap_before[pred[chain[i]] as int] >= amount);
                assert(arc_into(to, pred, chain, m, i));
                assert(chain[i] != chain[idx]);
                let b = pred[chain[i]] as int;
                assert(b != a);
                if b == partner(a as int) {
                    assert(cap_before[a as int] >= amount);
                    assert(arc_balanced(cap_before, arcs, a as int / 2));
                    assert(net.cap@[b] == cap_before[b] + amount);
                } else {
                    assert(net.cap@[b] == cap_before[b]);
                }
            }
            idx = idx + 1;
        }
    }
    assert(w == s) by {
        if idx < chain.len() - 1 {
            assert(chain_step(to, pred, chain, idx));
        }
    }
    let es = excess[s] - amount;
    let et = excess[t] + amount;
    excess.set(s, es);
    excess.set(t, et);
    proof {
        let e1 = excess@;
        assert forall|x: int| 0 <= x < nodes implies #[trigger] node_conserved(
            arcs,
            net.cap@,
            e1,
            x,
        ) by {
            assert(node_conserved_but(arcs, net.cap@, e0, t as int, s as int, amount as int, x));
        }
        lemma_pos_excess_update(e0, s as int, es);
        lemma_pos_excess_update(e0.update(s as int, es), t as int, et);
        assert(e1 == e0.update(s as int, es).update(t as int, et));
    }
    Ok(())
}

/// Trades on dates `a` and `b` (in either order) fall inside `rule`'s window,
/// compared by day numbers.
pub open spec fn days_within<R: WindowRule + ?Sized>(rule: &R, a: Date, b: Date) -> bool {
    let da = a.spec_day_number();
    let db = b.spec_day_number();
    if da <= db {
        db < rule.spec_window_end(a).spec_day_number()
    } else {
        da < rule.spec_window_end(b).spec_day_number()
    }
}

/// On valid dates whose window ends are valid, comparing day numbers decides
/// the window exactly as comparing the dates does.
pub proof fn law_days_within_is_within<R: WindowRule + ?Sized>(rule: &R, a: Date, b: Date)
    requires
        a.is_valid(),
        b.is_valid(),
        rule.spec_window_end(a).is_valid(),
        rule.spec_window_end(b).is_valid(),
    ensures
        days_within(rule, a, b) == spec_within(rule, a, b),
{
    law_day_number_order(a, b);
    law_day_number_order(b, a);
    law_day_number_order(b, rule.spec_window_end(a));
    law_day_number_order(a, rule.spec_window_end(b));
}

/// Every trade's date and the end of its window are real calendar dates.
pub open spec fn dates_ok<R: WindowRule + ?Sized>(ts: Seq<Trade>, rule: &R) -> bool {
    forall|i: int|
        0 <= i < ts.len() ==> (#[trigger] ts[i]).date.is_valid() && rule.spec_window_end(ts[i].date).is_valid()
}

/// The solver may match purchase `p` with sale `s`.
pub open spec fn day_matchable<R: WindowRule + ?Sized>(rule: &R, p: Trade, s: Trade) -> bool {
    &&& p.side == Side::Buy
    &&& s.side == Side::Sell
    &&& s.price > p.price
    &&& days_within(rule, p.date, s.date)
}

/// A pair the solver may report: a matchable purchase and sale, some shares,
/// and the profit those shares earn.
pub open spec fn solver_pair_ok<R: WindowRule + ?Sized>(ts: Seq<Trade>, rule: &R, q: MatchedPair) -> bool {
    &&& q.purchase < ts.len()
    &&& q.sale < ts.len()
    &&& day_matchable(rule, ts[q.purchase as int], ts[q.sale as int])
    &&& q.shares > 0
    &&& q.profit == q.shares * (ts[q.sale as int].price - ts[q.purchase as int].price)
}

/// Sales before index `s` that the solver may match with purchase `p`.
pub open spec fn row_count<R: WindowRule + ?Sized>(ts: Seq<Trade>, rule: &R, p: int, s: int) -> nat
    decreases s,
{
    if s <= 0 {
        0
    } else {
        row_count(ts, rule, p, s - 1) + (if day_matchable(rule, ts[p], ts[s - 1]) {
            1nat
        } else {
            0nat
        })
    }
}

/// Matchable pairs whose purchase index is below `p`.
pub open spec fn matchable_pairs<R: WindowRule + ?Sized>(ts: Seq<Trade>, rule: &R, p: int) -> nat
    decreases p,
{
    if p <= 0 {
        0
    } else {
        matchable_pairs(ts, rule, p - 1) + row_count(ts, rule, p - 1, ts.len() as int)
    }
}

/// What `solve` promises of a solution it returns.
pub open spec fn solution_ok<R: WindowRule + ?Sized>(ts: Seq<Trade>, rule: &R, sol: Solution) -> bool {
    &&& trades_in_limits(ts)
    &&& forall|k: int| 0 <= k < sol.pairs@.len() ==> #[trigger] solver_pair_ok(ts, rule, sol.pairs@[k])
    &&& sol.total == claimed_profit(sol.pairs@)
    &&& forall|i: int| 0 <= i < ts.len() ==> #[trigger] shares_matched(sol.pairs@, i) <= ts[i].shares
    &&& sol.certificate.duals@.len() == ts.len()
    &&& forall|i: int| 0 <= i < ts.len() ==> #[trigger] sol.certificate.duals@[i] >= 0
    &&& sol.stats.pair_arcs == matchable_pairs(ts, rule, ts.len() as int)
    &&& dates_ok(ts, rule) ==> spec_verify(ts, rule, sol.pairs@, sol.total, sol.certificate.duals@)
        == Ok::<int, Violation>(sol.total as int)
}

proof fn lemma_initial_net_in(arcs: Seq<(usize, usize, i64, i64)>, v: int, k: int)
    requires
        0 <= k <= arcs.len(),
    ensures
        net_in(arcs, initial_caps(arcs), v, k) == 0,
    decreases k,
{
    if k > 0 {
        lemma_initial_net_in(arcs, v, k - 1);
        assert(initial_caps(arcs)[2 * (k - 1) + 1] == 0);
    }
}

fn filled<T: Copy>(n: usize, x: T) -> (v: Vec<T>)
    ensures
        v@ == Seq::new(n as nat, |i: int| x),
{
    let mut v: Vec<T> = Vec::new();
    for i in 0..n
        invariant
            v@ == Seq::new(i as nat, |j: int| x),
    {
        v.push(x);
        assert(v@ =~= Seq::new((i + 1) as nat, |j: int| x));
    }
    v
}

/// The arcs of the network built for `ts`, in the order `solve` adds them:
/// one from the source to each purchase, one from each sale to the sink, the
/// return arc, then one for each matchable pair.
pub open spec fn arcs_ok(arcs: Seq<(usize, usize, i64, i64)>, nodes: nat) -> bool {
    forall|k: int|
        0 <= k < arcs.len() ==> {
            &&& (#[trigger] arcs[k]).0 < nodes
            &&& arcs[k].1 < nodes
            &&& arcs[k].0 != arcs[k].1
            &&& arcs[k].2 >= 0
            &&& arcs[k].3 > i64::MIN
        }
}

/// Pair arc `j` joins the pair `ends[j]`, which the solver may match.
pub open spec fn pair_arc_ok<R: WindowRule + ?Sized>(
    ts: Seq<Trade>,
    rule: &R,
    arcs: Seq<(usize, usize, i64, i64)>,
    first: int,
    ends: Seq<(usize, usize)>,
    j: int,
) -> bool {
    let (p, s) = ends[j];
    &&& p < ts.len()
    &&& s < ts.len()
    &&& day_matchable(rule, ts[p as int], ts[s as int])
    &&& first + j < arcs.len()
    &&& arcs[first + j].0 == p + 2
    &&& arcs[first + j].1 == s + 2
    &&& arcs[first + j].2 == (if ts[p as int].shares <= ts[s as int].shares {
        ts[p as int].shares
    } else {
        ts[s as int].shares
    }) + 1
    &&& arcs[first + j].3 == -(ts[s as int].price - ts[p as int].price)
}

/// Trades of side `side` before index `i`.
pub open spec fn count_side(ts: Seq<Trade>, side: Side, i: int) -> nat
    decreases i,
{
    if i <= 0 {
        0
    } else {
        count_side(ts, side, i - 1) + (if ts[i - 1].side == side { 1nat } else { 0nat })
    }
}

/// Every trade is a purchase or a sale.
proof fn lemma_sides_count(ts: Seq<Trade>, i: int)
    requires
        0 <= i,
    ensures
        count_side(ts, Side::Buy, i) + count_side(ts, Side::Sell, i) == i,
    decreases i,
{
    if i > 0 {
        lemma_sides_count(ts, i - 1);
    }
}

/// The network for `ts` would need more arcs than residual arc ids can number:
/// one per trade, the return arc, and one per matchable pair.
pub open spec fn too_many_pairs<R: WindowRule + ?Sized>(ts: Seq<Trade>, rule: &R) -> bool {
    ts.len() + 1 + matchable_pairs(ts, rule, ts.len() as int) >= 2147483647
}

/// Arc `k` runs from the source to a purchase: the `k`-th purchase, with its shares as capacity.
pub open spec fn source_arc(ts: Seq<Trade>, arcs: Seq<(usize, usize, i64, i64)>, k: int) -> bool {
    let b = arcs[k].1 - 2;
    &&& arcs[k].0 == 0
    &&& 0 <= b < ts.len()
    &&& ts[b].side == Side::Buy
    &&& count_side(ts, Side::Buy, b) == k
    &&& arcs[k].2 == ts[b].shares
    &&& arcs[k].3 == 0
}

/// Arc `k` runs from a sale to the sink: the `(k - first)`-th sale, with its shares as capacity.
pub open spec fn sink_arc(ts: Seq<Trade>, arcs: Seq<(usize, usize, i64, i64)>, first: int, k: int) -> bool {
    let b = arcs[k].0 - 2;
    &&& arcs[k].1 == 1
    &&& 0 <= b < ts.len()
    &&& ts[b].side == Side::Sell
    &&& first + count_side(ts, Side::Sell, b) == k
    &&& arcs[k].2 == ts[b].shares
    &&& arcs[k].3 == 0
}

/// The arcs of the network for `ts`: source arcs, sink arcs, the return arc, then pair arcs.
pub open spec fn layout_ok<R: WindowRule + ?Sized>(
    ts: Seq<Trade>,
    rule: &R,
    arcs: Seq<(usize, usize, i64, i64)>,
    nb: int,
    first: int,
    ends: Seq<(usize, usize)>,
) -> bool {
    &&& 0 <= nb < first
    &&& arcs.len() == first + ends.len()
    &&& forall|k: int| 0 <= k < nb ==> #[trigger] source_arc(ts, arcs, k)
    &&& forall|k: int| nb <= k < first - 1 ==> #[trigger] sink_arc(ts, arcs, nb, k)
    &&& arcs[first - 1].0 == 1 && arcs[first - 1].1 == 0 && arcs[first - 1].3 == 0
    &&& forall|j: int| 0 <= j < ends.len() ==> #[trigger] pair_arc_ok(ts, rule, arcs, first, ends, j)
}

/// Flow on the pair arcs before `j` whose purchase is trade `i`.
pub open spec fn flow_from(cap: Seq<i64>, first: int, ends: Seq<(usize, usize)>, i: int, j: int) -> int
    decreases j,
{
    if j <= 0 {
        0
    } else {
        flow_from(cap, first, ends, i, j - 1) + (if ends[j - 1].0 == i {
            cap[2 * (first + j - 1) + 1] as int
        } else {
            0int
        })
    }
}

/// Flow on the pair arcs before `j` whose sale is trade `i`.
pub open spec fn flow_to(cap: Seq<i64>, first: int, ends: Seq<(usize, usize)>, i: int, j: int) -> int
    decreases j,
{
    if j <= 0 {
        0
    } else {
        flow_to(cap, first, ends, i, j - 1) + (if ends[j - 1].1 == i {
            cap[2 * (first + j - 1) + 1] as int
        } else {
            0int
        })
    }
}

/// A sum of arc terms that vanish except at `k0` is that one term.
pub(crate) proof fn lemma_net_in_single(
    arcs: Seq<(usize, usize, i64, i64)>,
    cap: Seq<i64>,
    v: int,
    k0: int,
    f: int,
)
    requires
        0 <= f <= arcs.len(),
        forall|k: int| 0 <= k < f && k != k0 ==> #[trigger] arc_net(arcs, cap, v, k) == 0,
    ensures
        net_in(arcs, cap, v, f) == (if 0 <= k0 < f { arc_net(arcs, cap, v, k0) } else { 0 }),
    decreases f,
{
    if f > 0 {
        lemma_net_in_single(arcs, cap, v, k0, f - 1);
    }
}

/// Over the pair arcs, trade `i` gains the flow into it and loses the flow out of it.
pub(crate) proof fn lemma_net_in_pairs<R: WindowRule + ?Sized>(
    ts: Seq<Trade>,
    rule: &R,
    arcs: Seq<(usize, usize, i64, i64)>,
    cap: Seq<i64>,
    first: int,
    ends: Seq<(usize, usize)>,
    i: int,
    j: int,
)
    requires
        0 <= first,
        arcs.len() == first + ends.len(),
        forall|q: int| 0 <= q < ends.len() ==> #[trigger] pair_arc_ok(ts, rule, arcs, first, ends, q),
        0 <= j <= ends.len(),
        0 <= i,
    ensures
        net_in(arcs, cap, i + 2, first + j) == net_in(arcs, cap, i + 2, first) + flow_to(
            cap,
            first,
            ends,
            i,
            j,
        ) - flow_from(cap, first, ends, i, j),
    decreases j,
{
    if j > 0 {
        lemma_net_in_pairs(ts, rule, arcs, cap, first, ends, i, j - 1);
        assert(pair_arc_ok(ts, rule, arcs, first, ends, j - 1));
    }
}

/// How a source, sink or return arc `k` changes the net flow into trade `i`:
/// only the trade's own source (purchase) or sink (sale) arc touches it.
pub(crate) proof fn lemma_fixed_arc_net<R: WindowRule + ?Sized>(
    ts: Seq<Trade>,
    rule: &R,
    arcs: Seq<(usize, usize, i64, i64)>,
    cap: Seq<i64>,
    nb: int,
    first: int,
    ends: Seq<(usize, usize)>,
    i: int,
    k: int,
)
    requires
        layout_ok(ts, rule, arcs, nb, first, ends),
        balanced_caps(cap, arcs),
        0 <= i < ts.len(),
        0 <= k < first,
    ensures
        ts[i].side == Side::Buy ==> {
            &&& 0 <= arc_net(arcs, cap, i + 2, k) <= ts[i].shares
            &&& k != count_side(ts, Side::Buy, i) ==> arc_net(arcs, cap, i + 2, k) == 0
        },
        ts[i].side == Side::Sell ==> {
            &&& -(ts[i].shares as int) <= arc_net(arcs, cap, i + 2, k) <= 0
            &&& k != nb + count_side(ts, Side::Sell, i) ==> arc_net(arcs, cap, i + 2, k) == 0
        },
{
    assert(arc_balanced(cap, arcs, k));
    if k < nb {
        assert(source_arc(ts, arcs, k));
    } else if k < first - 1 {
        assert(sink_arc(ts, arcs, nb, k));
    }
}

/// Pair arcs run from purchases to sales, so a purchase has no flow in from
/// them and a sale no flow out.
pub(crate) proof fn lemma_pair_flow_sides<R: WindowRule + ?Sized>(
    ts: Seq<Trade>,
    rule: &R,
    arcs: Seq<(usize, usize, i64, i64)>,
    cap: Seq<i64>,
    first: int,
    ends: Seq<(usize, usize)>,
    i: int,
    j: int,
)
    requires
        forall|q: int| 0 <= q < ends.len() ==> #[trigger] pair_arc_ok(ts, rule, arcs, first, ends, q),
        0 <= i < ts.len(),
        0 <= j <= ends.len(),
    ensures
        ts[i].side == Side::Buy ==> flow_to(cap, first, ends, i, j) == 0,
        ts[i].side == Side::Sell ==> flow_from(cap, first, ends, i, j) == 0,
    decreases j,
{
    if j > 0 {
        lemma_pair_flow_sides(ts, rule, arcs, cap, first, ends, i, j - 1);
        assert(pair_arc_ok(ts, rule, arcs, first, ends, j - 1));
    }
}

/// With no excess left at trade `i`, the flow it carries on pair arcs is at
/// most its shares.
proof fn lemma_trade_flow_bound<R: WindowRule + ?Sized>(
    ts: Seq<Trade>,
    rule: &R,
    arcs: Seq<(usize, usize, i64, i64)>,
    cap: Seq<i64>,
    nb: int,
    first: int,
    ends: Seq<(usize, usize)>,
    i: int,
)
    requires
        layout_ok(ts, rule, arcs, nb, first, ends),
        balanced_caps(cap, arcs),
        0 <= i < ts.len(),
        net_in(arcs, cap, i + 2, arcs.len() as int) == 0,
    ensures
        flow_from(cap, first, ends, i, ends.len() as int) + flow_to(
            cap,
            first,
            ends,
            i,
            ends.len() as int,
        ) <= ts[i].shares,
{
    lemma_net_in_pairs(ts, rule, arcs, cap, first, ends, i, ends.len() as int);
    lemma_pair_flow_sides(ts, rule, arcs, cap, first, ends, i, ends.len() as int);
    let k0 = if ts[i].side == Side::Buy {
        count_side(ts, Side::Buy, i) as int
    } else {
        nb + count_side(ts, Side::Sell, i)
    };
    assert forall|k: int| 0 <= k < first && k != k0 implies #[trigger] arc_net(arcs, cap, i + 2, k) == 0 by {
        lemma_fixed_arc_net(ts, rule, arcs, cap, nb, first, ends, i, k);
    }
    lemma_net_in_single(arcs, cap, i + 2, k0, first);
    if 0 <= k0 < first {
        lemma_fixed_arc_net(ts, rule, arcs, cap, nb, first, ends, i, k0);
    }
}

/// Shares of the trades of side `side` before index `i`.
pub open spec fn side_shares(ts: Seq<Trade>, side: Side, i: int) -> int
    decreases i,
{
    if i <= 0 {
        0
    } else {
        side_shares(ts, side, i - 1) + (if ts[i - 1].side == side { ts[i - 1].shares as int } else { 0 })
    }
}

/// The capacities of arcs `lo..hi`, added up.
pub open spec fn cap_sum(arcs: Seq<(usize, usize, i64, i64)>, lo: int, hi: int) -> int
    decreases hi - lo,
{
    if hi <= lo {
        0
    } else {
        cap_sum(arcs, lo, hi - 1) + arcs[hi - 1].2
    }
}

proof fn lemma_cap_sum_same(a: Seq<(usize, usize, i64, i64)>, b: Seq<(usize, usize, i64, i64)>, lo: int, hi: int)
    requires
        0 <= lo,
        hi <= a.len(),
        hi <= b.len(),
        forall|k: int| lo <= k < hi ==> a[k] == b[k],
    ensures
        cap_sum(a, lo, hi) == cap_sum(b, lo, hi),
    decreases hi - lo,
{
    if hi > lo {
        lemma_cap_sum_same(a, b, lo, hi - 1);
    }
}

/// The exponent of the largest power of two at most `x` (zero below two).
pub open spec fn top_bit(x: int) -> nat
    decreases x,
{
    if x < 2 {
        0
    } else {
        1 + top_bit(x / 2)
    }
}

/// The largest share count among the first `i` trades, or zero.
pub open spec fn largest_shares(ts: Seq<Trade>, i: int) -> int
    decreases i,
{
    if i <= 0 {
        0
    } else {
        let m = largest_shares(ts, i - 1);
        if ts[i - 1].shares > m {
            ts[i - 1].shares as int
        } else {
            m
        }
    }
}

/// The largest capacity in the network for `ts`: a trade's shares or the
/// return arc's, one above the smaller side's total.
pub open spec fn top_capacity(ts: Seq<Trade>) -> int {
    let n = ts.len() as int;
    let b = side_shares(ts, Side::Buy, n);
    let s = side_shares(ts, Side::Sell, n);
    let r = (if b <= s {
        b
    } else {
        s
    }) + 1;
    if largest_shares(ts, n) > r {
        largest_shares(ts, n)
    } else {
        r
    }
}

/// The phases `solve` runs: with scaling, one for each power of two from the
/// largest at most the top capacity down to one; without, a single one.
pub open spec fn phase_count(ts: Seq<Trade>, scaling: Scaling) -> nat {
    if scaling == Scaling::On {
        1 + top_bit(top_capacity(ts))
    } else {
        1
    }
}

/// The largest of one and the capacities of the first `k` arcs.
pub open spec fn cap_max(arcs: Seq<(usize, usize, i64, i64)>, k: int) -> int
    decreases k,
{
    if k <= 0 {
        1
    } else {
        let m = cap_max(arcs, k - 1);
        if arcs[k - 1].2 > m {
            arcs[k - 1].2 as int
        } else {
            m
        }
    }
}

/// A power of two `2^e` with `2^e <= x < 2^(e+1)` has exponent `top_bit(x)`.
proof fn lemma_top_bit(x: int, e: nat)
    requires
        vstd::arithmetic::power2::pow2(e) <= x < 2 * vstd::arithmetic::power2::pow2(e),
    ensures
        top_bit(x) == e,
    decreases e,
{
    if e == 0 {
        vstd::arithmetic::power2::lemma2_to64();
    } else {
        vstd::arithmetic::power2::lemma_pow2_unfold(e);
        lemma_top_bit(x / 2, (e - 1) as nat);
    }
}

/// The pair `(p, s)` has an arc.
pub open spec fn has_pair_arc(ends: Seq<(usize, usize)>, p: int, s: int) -> bool {
    exists|j: int| 0 <= j < ends.len() && ends[j] == (p as usize, s as usize)
}

/// Pair `k` of the result comes from pair arc `src[k]` (before arc `j`), and
/// carries that arc's flow.
pub open spec fn pair_from(
    ends: Seq<(usize, usize)>,
    first: int,
    cap: Seq<i64>,
    pairs: Seq<MatchedPair>,
    src: Seq<int>,
    j: int,
    k: int,
) -> bool {
    &&& 0 <= src[k] < j
    &&& pairs[k].purchase == ends[src[k]].0
    &&& pairs[k].sale == ends[src[k]].1
    &&& pairs[k].shares == cap[2 * (first + src[k]) + 1]
    &&& pairs[k].shares >= 1
}

/// The dual `solve` reports for trade `i` from the final potentials: what a
/// purchase's node sits above the source, or the sink above a sale's node,
/// and never below zero.
pub open spec fn dual_from(ts: Seq<Trade>, pot: Seq<i64>, i: int) -> int {
    let x = if ts[i].side == Side::Buy {
        pot[i + 2] - pot[0]
    } else {
        pot[1] - pot[i + 2]
    };
    if x > 0 {
        x
    } else {
        0
    }
}

/// `day[j]` and `end[j]` are the day numbers of trade `j` and of its window end.
pub open spec fn day_info<R: WindowRule + ?Sized>(
    ts: Seq<Trade>,
    rule: &R,
    day: Seq<i64>,
    end: Seq<i64>,
    j: int,
) -> bool {
    &&& day[j] == ts[j].date.spec_day_number()
    &&& end[j] == rule.spec_window_end(ts[j].date).spec_day_number()
}

/// Finds a matching of purchases to sales with the largest total profit.
pub fn solve<R: WindowRule + ?Sized>(trades: &[Trade], rule: &R, scaling: Scaling) -> (r: Result<
    Solution,
    String,
>)
    ensures
        spec_validate(trades@) matches Err(e) ==> res_view(r) == Err::<Solution, Seq<char>>(e),
        spec_validate(trades@) is Ok && too_many_pairs(trades@, rule) ==> res_view(r) == Err::<
            Solution,
            Seq<char>,
        >("too many matchable pairs"@),
        r matches Err(e) ==> (spec_validate(trades@) is Ok && !too_many_pairs(trades@, rule) ==> solver_failure(
            e@,
        )),
        r matches Ok(sol) ==> solution_ok(trades@, rule, sol),
        r matches Ok(sol) ==> sol.stats.phases == phase_count(trades@, scaling),
{
    match validate(trades) {
        Ok(()) => {},
        Err(e) => {
            return Err(e);
        },
    }
    proof {
        crate::trade::law_validate_accepts_limits(trades@);
    }
    let n = trades.len();
    let nodes = n + 2;
    let ghost ts = trades@;
    let mut day: Vec<i64> = Vec::new();
    let mut end: Vec<i64> = Vec::new();
    for i in 0..n
        invariant
            n == trades.len(),
            day@.len() == i,
            end@.len() == i,
            forall|j: int| 0 <= j < i ==> #[trigger] day_info(trades@, rule, day@, end@, j),
    {
        let ghost d0 = day@;
        let ghost e0 = end@;
        day.push(trades[i].date.day_number());
        end.push(rule.window_end(trades[i].date).day_number());
        assert forall|j: int| 0 <= j < i + 1 implies #[trigger] day_info(trades@, rule, day@, end@, j) by {
            if j < i {
                assert(day_info(trades@, rule, d0, e0, j));
            }
        }
    }
    let mut arcs: Vec<(usize, usize, i64, i64)> = Vec::new();
    let mut buy_total: i64 = 0;
    let mut sell_total: i64 = 0;
    for p in 0..n
        invariant
            n == trades.len(),
            nodes == n + 2,
            trades_in_limits(trades@),
            arcs_ok(arcs@, nodes as nat),
            0 <= buy_total <= p * MAX_SHARES,
            buy_total == side_shares(trades@, Side::Buy, p as int),
            buy_total == cap_sum(arcs@, 0, arcs@.len() as int),
            arcs@.len() == count_side(trades@, Side::Buy, p as int),
            forall|k: int| 0 <= k < arcs@.len() ==> #[trigger] source_arc(trades@, arcs@, k),
    {
        if trades[p].side == Side::Buy {
            assert(crate::trade::trade_in_limits(trades@[p as int]));
            let ghost before = arcs@;
            arcs.push((SOURCE, p + 2, trades[p].shares as i64, 0));
            buy_total = buy_total + trades[p].shares as i64;
            proof {
                lemma_cap_sum_same(before, arcs@, 0, before.len() as int);
            }
            assert forall|k: int| 0 <= k < arcs@.len() implies #[trigger] source_arc(trades@, arcs@, k) by {
                if k < before.len() {
                    assert(source_arc(trades@, before, k));
                }
            }
        }
    }
    let nb = arcs.len();
    for q in 0..n
        invariant
            n == trades.len(),
            nodes == n + 2,
            trades_in_limits(trades@),
            arcs_ok(arcs@, nodes as nat),
            0 <= sell_total <= q * MAX_SHARES,
            sell_total == side_shares(trades@, Side::Sell, q as int),
            sell_total == cap_sum(arcs@, nb as int, arcs@.len() as int),
            buy_total == cap_sum(arcs@, 0, nb as int),
            nb <= arcs@.len(),
            nb == count_side(trades@, Side::Buy, n as int),
            arcs@.len() == nb + count_side(trades@, Side::Sell, q as int),
            forall|k: int| 0 <= k < nb ==> #[trigger] source_arc(trades@, arcs@, k),
            forall|k: int| nb <= k < arcs@.len() ==> #[trigger] sink_arc(trades@, arcs@, nb as int, k),
    {
        if trades[q].side == Side::Sell {
            assert(crate::trade::trade_in_limits(trades@[q as int]));
            let ghost before = arcs@;
            arcs.push((q + 2, SINK, trades[q].shares as i64, 0));
            sell_total = sell_total + trades[q].shares as i64;
            proof {
                lemma_cap_sum_same(before, arcs@, nb as int, before.len() as int);
                lemma_cap_sum_same(before, arcs@, 0, nb as int);
            }
            assert forall|k: int| 0 <= k < nb implies #[trigger] source_arc(trades@, arcs@, k) by {
                assert(source_arc(trades@, before, k));
            }
            assert forall|k: int| nb <= k < arcs@.len() implies #[trigger] sink_arc(trades@, arcs@, nb as int, k) by {
                if k < before.len() {
                    assert(sink_arc(trades@, before, nb as int, k));
                }
            }
        }
    }
    let back_cap = if buy_total <= sell_total {
        buy_total
    } else {
        sell_total
    } + 1;
    let ghost pre_back = arcs@;
    arcs.push((SINK, SOURCE, back_cap, 0));
    let first_pair_arc = arcs.len();
    let ghost base = arcs@;
    proof {
        lemma_cap_sum_same(pre_back, base, 0, nb as int);
        lemma_cap_sum_same(pre_back, base, nb as int, pre_back.len() as int);
    }
    assert(base[first_pair_arc - 1].2 == (if cap_sum(base, 0, nb as int) <= cap_sum(base, nb as int, first_pair_arc - 1) {
        cap_sum(base, 0, nb as int)
    } else {
        cap_sum(base, nb as int, first_pair_arc - 1)
    }) + 1);
    assert(first_pair_arc - 1 - nb == count_side(trades@, Side::Sell, n as int));
    assert forall|k: int| 0 <= k < nb implies #[trigger] source_arc(trades@, base, k) by {
        assert(base[k] == pre_back[k]);
        assert(source_arc(trades@, pre_back, k));
    }
    assert forall|k: int| nb <= k < first_pair_arc - 1 implies #[trigger] sink_arc(trades@, base, nb as int, k) by {
        assert(base[k] == pre_back[k]);
        assert(sink_arc(trades@, pre_back, nb as int, k));
    }
    let mut pair_ends: Vec<(usize, usize)> = Vec::new();
    for p in 0..n
        invariant
            n == trades.len(),
            nodes == n + 2,
            day@.len() == n,
            end@.len() == n,
            forall|j: int| 0 <= j < n ==> #[trigger] day_info(trades@, rule, day@, end@, j),
            trades_in_limits(trades@),
            arcs_ok(arcs@, nodes as nat),
            arcs@.len() == first_pair_arc + pair_ends@.len(),
            forall|j: int| 0 <= j < pair_ends@.len() ==> #[trigger] pair_arc_ok(trades@, rule, arcs@, first_pair_arc as int, pair_ends@, j),
            pair_ends@.len() == matchable_pairs(trades@, rule, p as int),
            forall|a: int, b: int|
                0 <= a < p && 0 <= b < n && #[trigger] day_matchable(rule, trades@[a], trades@[b]) ==> has_pair_arc(
                    pair_ends@,
                    a,
                    b,
                ),
            arcs@.subrange(0, first_pair_arc as int) == base,
            first_pair_arc == base.len(),
            nb < first_pair_arc,
            base[first_pair_arc - 1].0 == 1 && base[first_pair_arc - 1].1 == 0,
            forall|k: int| 0 <= k < nb ==> #[trigger] source_arc(trades@, base, k),
            forall|k: int| nb <= k < first_pair_arc - 1 ==> #[trigger] sink_arc(trades@, base, nb as int, k),
    {
        for q in 0..n
            invariant
                n == trades.len(),
                nodes == n + 2,
                p < n,
                day@.len() == n,
                end@.len() == n,
                forall|j: int| 0 <= j < n ==> #[trigger] day_info(trades@, rule, day@, end@, j),
                trades_in_limits(trades@),
                arcs_ok(arcs@, nodes as nat),
                arcs@.len() == first_pair_arc + pair_ends@.len(),
                forall|j: int| 0 <= j < pair_ends@.len() ==> #[trigger] pair_arc_ok(trades@, rule, arcs@, first_pair_arc as int, pair_ends@, j),
                pair_ends@.len() == matchable_pairs(trades@, rule, p as int) + row_count(trades@, rule, p as int, q as int),
                forall|a: int, b: int|
                    0 <= a < p && 0 <= b < n && #[trigger] day_matchable(rule, trades@[a], trades@[b]) ==> has_pair_arc(
                        pair_ends@,
                        a,
                        b,
                    ),
                forall|b: int|
                    0 <= b < q && #[trigger] day_matchable(rule, trades@[p as int], trades@[b]) ==> has_pair_arc(
                        pair_ends@,
                        p as int,
                        b,
                    ),
                arcs@.subrange(0, first_pair_arc as int) == base,
            first_pair_arc == base.len(),
            nb < first_pair_arc,
            base[first_pair_arc - 1].0 == 1 && base[first_pair_arc - 1].1 == 0,
            forall|k: int| 0 <= k < nb ==> #[trigger] source_arc(trades@, base, k),
            forall|k: int| nb <= k < first_pair_arc - 1 ==> #[trigger] sink_arc(trades@, base, nb as int, k),
        {
            if trades[p].side == Side::Buy && trades[q].side == Side::Sell {
                assert(day_info(trades@, rule, day@, end@, p as int));
                assert(day_info(trades@, rule, day@, end@, q as int));
                let in_window = if day[p] <= day[q] {
                    day[q] < end[p]
                } else {
                    day[p] < end[q]
                };
                if in_window && trades[q].price > trades[p].price {
                    assert(crate::trade::trade_in_limits(trades@[p as int]));
                    assert(crate::trade::trade_in_limits(trades@[q as int]));
                    let sp = trades[p].shares;
                    let sq = trades[q].shares;
                    let c: i64 = (if sp <= sq {
                        sp
                    } else {
                        sq
                    }) as i64 + 1;
                    let gain = trades[q].price - trades[p].price;
                    let ghost old_arcs = arcs@;
                    let ghost old_ends = pair_ends@;
                    arcs.push((p + 2, q + 2, c, -gain));
                    pair_ends.push((p, q));
                    assert(arcs@.subrange(0, first_pair_arc as int) =~= old_arcs.subrange(0, first_pair_arc as int));
                    assert forall|j: int| 0 <= j < pair_ends@.len() implies #[trigger] pair_arc_ok(trades@, rule, arcs@, first_pair_arc as int, pair_ends@, j) by {
                        if j < old_ends.len() {
                            assert(pair_arc_ok(trades@, rule, old_arcs, first_pair_arc as int, old_ends, j));
                        }
                    }
                    assert forall|a: int, b: int| #![trigger has_pair_arc(pair_ends@, a, b)] has_pair_arc(old_ends, a, b) implies has_pair_arc(pair_ends@, a, b) by {
                        let j = choose|j: int| 0 <= j < old_ends.len() && old_ends[j] == (a as usize, b as usize);
                        assert(pair_ends@[j] == old_ends[j]);
                    }
                    assert(pair_ends@[pair_ends@.len() - 1] == (p, q));
                    assert(has_pair_arc(pair_ends@, p as int, q as int));
                }
            }
        }
    }
    let ghost ga0 = arcs@;
    assert(layout_ok(trades@, rule, ga0, nb as int, first_pair_arc as int, pair_ends@)) by {
        assert forall|k: int| 0 <= k < nb implies #[trigger] source_arc(trades@, ga0, k) by {
            assert(ga0[k] == base[k]);
            assert(source_arc(trades@, base, k));
        }
        assert forall|k: int| nb <= k < first_pair_arc - 1 implies #[trigger] sink_arc(trades@, ga0, nb as int, k) by {
            assert(ga0[k] == base[k]);
            assert(sink_arc(trades@, base, nb as int, k));
        }
        assert(ga0[first_pair_arc - 1] == base[first_pair_arc - 1]);
    }
    proof {
        lemma_sides_count(trades@, n as int);
    }
    assert(arcs.len() == n + 1 + matchable_pairs(trades@, rule, n as int));
    if arcs.len() >= 2147483647 {
        return Err(String::from_str("too many matchable pairs"));
    }
    let ghost ga = arcs@;
    assert(arcs_fit(ga, nodes as nat)) by {
        assert forall|k: int| 0 <= k < ga.len() implies (#[trigger] ga[k]).0 < nodes && ga[k].1
            < nodes && ga[k].3 > i64::MIN && ga[k].0 != ga[k].1 by {
            assert(arcs_ok(ga, nodes as nat));
        }
    }
    let mut net = Network::build(nodes, &arcs);
    let mut max_cap: i64 = 1;
    for k in 0..arcs.len()
        invariant
            max_cap == cap_max(arcs@, k as int),
    {
        if arcs[k].2 > max_cap {
            max_cap = arcs[k].2;
        }
    }
    assert(max_cap == cap_max(ga, ga.len() as int));
    proof {
        lemma_cap_sum_same(base, ga, 0, nb as int);
        lemma_cap_sum_same(base, ga, nb as int, first_pair_arc - 1);
        assert(ga[first_pair_arc - 1] == base[first_pair_arc - 1]);
        lemma_cap_max_is_top(trades@, rule, ga, nb as int, first_pair_arc as int, pair_ends@);
        vstd::arithmetic::power2::lemma2_to64();
        vstd::arithmetic::power2::lemma2_to64_rest();
    }
    let mut delta: i64 = 1;
    let ghost mut e: nat = 0;
    if scaling == Scaling::On {
        while delta <= max_cap / 2
            invariant
                1 <= delta <= max_cap,
                delta == vstd::arithmetic::power2::pow2(e),
            decreases max_cap - delta,
        {
            proof {
                vstd::arithmetic::power2::lemma_pow2_unfold(e + 1);
                e = e + 1;
            }
            delta = delta * 2;
        }
        proof {
            lemma_top_bit(max_cap as int, e);
        }
    }
    let ghost e0: nat = e;
    assert(e0 == (if scaling == Scaling::On {
        top_bit(top_capacity(trades@))
    } else {
        0
    }));
    assert(e0 <= 62) by {
        if e0 > 62 {
            vstd::arithmetic::power2::lemma2_to64_rest();
            if e0 > 63 {
                vstd::arithmetic::power2::lemma_pow2_strictly_increases(63, e0);
            }
        }
    }
    let mut excess: Vec<i64> = filled(nodes, 0i64);
    let mut pot: Vec<i64> = filled(nodes, 0i64);
    let mut sr = Search {
        dist: filled(nodes, 0i64),
        pred: filled(nodes, u32::MAX),
        stamp: filled(nodes, 0u64),
        settled: filled(nodes, 0u64),
        id: 0,
        heap: MinHeap::new(),
        order: Vec::new(),
    };
    let mut stats = SolveStats { pair_arcs: pair_ends.len(), phases: 0, augmentations: 0 };
    assert(conserved(ga, net.cap@, excess@, nodes as int)) by {
        assert forall|v: int| 0 <= v < nodes implies #[trigger] node_conserved(ga, net.cap@, excess@, v) by {
            lemma_initial_net_in(ga, v, ga.len() as int);
        }
    }
    loop
        invariant_except_break
            stats.phases == e0 - e,
        invariant
            ga == arcs@,
            spec_validate(trades@) is Ok,
            !too_many_pairs(trades@, rule),
            layout_ok(trades@, rule, ga, nb as int, first_pair_arc as int, pair_ends@),
            stats.pair_arcs == matchable_pairs(trades@, rule, n as int),
            n == trades.len(),
            nodes == n + 2,
            net.shaped(ga, nodes as nat),
            net.caps_ok(ga),
            excess@.len() == nodes,
            pot@.len() == nodes,
            conserved(ga, net.cap@, excess@, nodes as int),
            sr.sized(nodes as int),
            sr.stamps_past(),
            delta >= 1,
            delta == vstd::arithmetic::power2::pow2(e),
            e <= e0 <= 62,
        ensures
            delta_optimal(net.to@, net.cap@, net.cost@, pot@, 1),
            forall|v: int| 0 <= v < nodes ==> excess@[v] == 0,
            stats.phases == e0 + 1,
        decreases delta,
    {
        stats.phases = stats.phases + 1;
        match saturate(&mut net, Ghost(ga), nodes, &mut excess, &pot, delta) {
            Ok(()) => {},
            Err(e) => {
                return Err(e);
            },
        }
        proof {
            lemma_pos_excess_nonneg(excess@);
        }
        loop
            invariant
                ga == arcs@,
                spec_validate(trades@) is Ok,
                !too_many_pairs(trades@, rule),
                layout_ok(trades@, rule, ga, nb as int, first_pair_arc as int, pair_ends@),
                stats.pair_arcs == matchable_pairs(trades@, rule, n as int),
                n == trades.len(),
                nodes == n + 2,
                net.shaped(ga, nodes as nat),
                net.caps_ok(ga),
                excess@.len() == nodes,
                pot@.len() == nodes,
                conserved(ga, net.cap@, excess@, nodes as int),
                sr.sized(nodes as int),
                sr.stamps_past(),
                delta >= 1,
                pos_excess(excess@) >= 0,
                delta_optimal(net.to@, net.cap@, net.cost@, pot@, delta as int),
                stats.phases == e0 - e + 1,
            ensures
                closed_cut(net.to@, net.cap@, excess@, delta as int, nodes as int, sr.seen_set(nodes as int)),
            decreases pos_excess(excess@),
        {
            let target = match find_target(&mut sr, &net, Ghost(ga), nodes, &excess, &pot, delta) {
                Ok(x) => x,
                Err(e) => {
                    return Err(e);
                },
            };
            let t = match target {
                None => {
                    break;
                },
                Some(t) => t,
            };
            let ghost pot_before = pot@;
            proof {
                assert(sr.order_ok(nodes as int));
                assert forall|i: int| 0 <= i < sr.order@.len() implies (#[trigger] sr.order@[i]) < nodes by {
                    assert(sr.ok(&net, 2 * ga.len() as int, nodes as int, excess@, delta));
                }
            }
            match shift_potentials(&mut pot, &sr, nodes, t) {
                Ok(()) => {},
                Err(e) => {
                    return Err(e);
                },
            }
            proof {
                lemma_shift_keeps_optimal(&sr, &net, ga, nodes as int, excess@, pot_before, pot@, delta, t as int);
                assert forall|v: int| 0 <= v < nodes implies #[trigger] sr.pred_settled(&net, v) by {
                    assert(sr.node_tight(&net, pot_before, v));
                }
            }
            match augment(&mut net, Ghost(ga), nodes, &mut excess, &sr, t, delta, Ghost(pot@)) {
                Ok(()) => {},
                Err(e) => {
                    return Err(e);
                },
            }
            proof {
                lemma_pos_excess_nonneg(excess@);
            }
            if stats.augmentations < u64::MAX {
                stats.augmentations = stats.augmentations + 1;
            }
        }
        if delta == 1 {
            proof {
                if e > 0 {
                    vstd::arithmetic::power2::lemma_pow2_strictly_increases(0, e);
                    vstd::arithmetic::power2::lemma2_to64();
                }
                assert forall|j: int| 0 <= j < ga.len() implies net.to@[2 * j] == (#[trigger] ga[j]).1
                    && net.to@[2 * j + 1] == ga[j].0 && ga[j].0 < nodes && ga[j].1 < nodes && ga[j].0 != ga[j].1 by {
                    assert(arcs_fit(ga, nodes as nat));
                }
                lemma_closed_cut_balances(ga, net.to@, net.cap@, excess@, nodes as int, sr.seen_set(nodes as int));
            }
            break;
        }
        proof {
            if e == 0 {
                vstd::arithmetic::power2::lemma2_to64();
            }
            vstd::arithmetic::power2::lemma_pow2_unfold(e);
            e = (e - 1) as nat;
        }
        delta = delta / 2;
    }
    let ghost fin = net.cap@;
    proof {
        assert forall|i: int| 0 <= i < n implies flow_from(fin, first_pair_arc as int, pair_ends@, i, pair_ends@.len() as int) + flow_to(fin, first_pair_arc as int, pair_ends@, i, pair_ends@.len() as int) <= trades@[i].shares by {
            assert(node_conserved(ga, fin, excess@, i + 2));
            assert(excess@[i + 2] == 0);
            lemma_trade_flow_bound(trades@, rule, ga, fin, nb as int, first_pair_arc as int, pair_ends@, i);
        }
    }
    let mut pairs: Vec<MatchedPair> = Vec::new();
    let mut total: i128 = 0;
    let ghost mut src: Seq<int> = seq![];
    let mut j: usize = 0;
    while j < pair_ends.len()
        invariant
            j <= pair_ends@.len(),
            ga == arcs@,
            net.caps_ok(ga),
            net.shaped(ga, nodes as nat),
            ga.len() == first_pair_arc + pair_ends@.len(),
            forall|i: int| 0 <= i < pair_ends@.len() ==> #[trigger] pair_arc_ok(trades@, rule, ga, first_pair_arc as int, pair_ends@, i),
            trades_in_limits(trades@),
            n == trades.len(),
            total == claimed_profit(pairs@),
            0 <= total <= j * 1000000000001000000000000,
            fin == net.cap@,
            forall|i: int| 0 <= i < n ==> #[trigger] shares_matched(pairs@, i) == flow_from(fin, first_pair_arc as int, pair_ends@, i, j as int) + flow_to(fin, first_pair_arc as int, pair_ends@, i, j as int),
            forall|k: int| 0 <= k < pairs@.len() ==> #[trigger] solver_pair_ok(trades@, rule, pairs@[k]),
            src.len() == pairs@.len(),
            forall|k: int| 0 <= k < pairs@.len() ==> #[trigger] pair_from(pair_ends@, first_pair_arc as int, fin, pairs@, src, j as int, k),
        decreases pair_ends@.len() - j,
    {
        let (p, q) = pair_ends[j];
        assert(pair_arc_ok(trades@, rule, ga, first_pair_arc as int, pair_ends@, j as int));
        let k = first_pair_arc + j;
        assert(arc_balanced(net.cap@, ga, k as int));
        let flow = arcs[k].2 - net.cap[2 * k];
        if flow > 0 {
            assert(crate::trade::trade_in_limits(trades@[p as int]));
            assert(crate::trade::trade_in_limits(trades@[q as int]));
            let gain = trades[q].price - trades[p].price;
            assert(0 <= flow * gain <= 1000000000001000000000000) by (nonlinear_arith)
                requires
                    0 < flow <= 1000000000001,
                    0 < gain <= 1000000000000,
            ;
            let profit = flow as i128 * gain as i128;
            let ghost old_pairs = pairs@;
            total = total + profit;
            pairs.push(MatchedPair { purchase: p, sale: q, shares: flow as u64, profit });
            assert(pairs@.drop_last() == old_pairs);
            assert forall|i: int| 0 <= i < pairs@.len() implies #[trigger] solver_pair_ok(trades@, rule, pairs@[i]) by {
                if i < old_pairs.len() {
                    assert(solver_pair_ok(trades@, rule, old_pairs[i]));
                }
            }
            let ghost old_src = src;
            proof {
                src = src.push(j as int);
                assert forall|i: int| 0 <= i < pairs@.len() implies #[trigger] pair_from(pair_ends@, first_pair_arc as int, fin, pairs@, src, j + 1, i) by {
                    if i < old_pairs.len() {
                        assert(pair_from(pair_ends@, first_pair_arc as int, fin, old_pairs, old_src, j as int, i));
                        assert(pairs@[i] == old_pairs[i]);
                    }
                }
            }
            assert forall|i: int| 0 <= i < n implies #[trigger] shares_matched(pairs@, i) == flow_from(fin, first_pair_arc as int, pair_ends@, i, j + 1) + flow_to(fin, first_pair_arc as int, pair_ends@, i, j + 1) by {
                assert(shares_matched(old_pairs, i) == flow_from(fin, first_pair_arc as int, pair_ends@, i, j as int) + flow_to(fin, first_pair_arc as int, pair_ends@, i, j as int));
            }
        } else {
            assert forall|i: int| 0 <= i < n implies #[trigger] shares_matched(pairs@, i) == flow_from(fin, first_pair_arc as int, pair_ends@, i, j + 1) + flow_to(fin, first_pair_arc as int, pair_ends@, i, j + 1) by {
                assert(shares_matched(pairs@, i) == flow_from(fin, first_pair_arc as int, pair_ends@, i, j as int) + flow_to(fin, first_pair_arc as int, pair_ends@, i, j as int));
            }
            assert forall|i: int| 0 <= i < pairs@.len() implies #[trigger] pair_from(pair_ends@, first_pair_arc as int, fin, pairs@, src, j + 1, i) by {
                assert(pair_from(pair_ends@, first_pair_arc as int, fin, pairs@, src, j as int, i));
            }
        }
        j = j + 1;
    }
    let mut duals: Vec<i64> = Vec::new();
    for i in 0..n
        invariant
            n == trades.len(),
            nodes == n + 2,
            spec_validate(trades@) is Ok,
            pot@.len() == nodes,
            !too_many_pairs(trades@, rule),
            duals@.len() == i,
            forall|k: int| 0 <= k < i ==> #[trigger] duals@[k] >= 0,
            forall|k: int| 0 <= k < i ==> #[trigger] duals@[k] as int == dual_from(trades@, pot@, k),
    {
        let x = match trades[i].side {
            Side::Buy => reduced(pot[i + 2], 0, 0, pot[SOURCE]),
            Side::Sell => reduced(pot[SINK], 0, 0, pot[i + 2]),
        };
        let x = match x {
            Some(x) => x,
            None => {
                return Err(out_of_range());
            },
        };
        duals.push(if x > 0 {
            x
        } else {
            0
        });
    }
    proof {
        if dates_ok(trades@, rule) {
            assert forall|v: int| 0 <= v < nodes implies #[trigger] net_in(ga, fin, v, ga.len() as int) == 0 by {
                assert(node_conserved(ga, fin, excess@, v));
            }
            lemma_cap_sum_same(base, ga, 0, nb as int);
            lemma_cap_sum_same(base, ga, nb as int, first_pair_arc - 1);
            assert(ga[first_pair_arc - 1] == base[first_pair_arc - 1]);
            assert(settled(
                trades@,
                rule,
                ga,
                nb as int,
                first_pair_arc as int,
                pair_ends@,
                net.to@,
                net.cost@,
                fin,
                pot@,
            ));
            lemma_certificate_verifies(
                trades@,
                rule,
                ga,
                nb as int,
                first_pair_arc as int,
                pair_ends@,
                net.to@,
                net.cost@,
                fin,
                pot@,
                pairs@,
                src,
                total,
                duals@,
            );
        }
    }
    Ok(Solution { pairs, total, certificate: Certificate { duals }, stats })
}

} // verus!
