use shortswing::generate::Rng;
use shortswing::{solve, verify, within, Date, DayCount, Scaling, Side, SixCalendarMonths, Trade, WindowRule};

/// A small random instance: dates cluster within about a year so that the
/// six-month boundary cuts through many pairs.
fn small_instance(rng: &mut Rng, max_trades: u64, max_shares: u64) -> Vec<Trade> {
    let n = rng.range(0, max_trades) as usize;
    let base = Date::new(2023, 6, 30).unwrap().day_number();
    (0..n)
        .map(|i| Trade {
            id: format!("T{i}"),
            date: Date::from_day_number(base + rng.range(0, 400) as i64),
            side: if rng.range(0, 1) == 0 { Side::Buy } else { Side::Sell },
            shares: rng.range(1, max_shares),
            price: rng.range(1, 12) as i64,
        })
        .collect()
}

/// Best total over every integer matching from pair `k` on.
fn best_from(k: usize, pairs: &[(usize, usize, i128)], left: &mut Vec<u64>) -> i128 {
    if k == pairs.len() {
        return 0;
    }
    let (p, s, gain) = pairs[k];
    let most = left[p].min(left[s]);
    let mut best = i128::MIN;
    for x in 0..=most {
        left[p] -= x;
        left[s] -= x;
        best = best.max(x as i128 * gain + best_from(k + 1, pairs, left));
        left[p] += x;
        left[s] += x;
    }
    best
}

/// Best total over every integer matching, found by enumerating the number of
/// shares on each in-window purchase/sale pair. Unprofitable pairs are
/// enumerated too; the oracle does not share the solver's pruning.
fn brute_force<R: WindowRule + ?Sized>(trades: &[Trade], rule: &R) -> i128 {
    let mut pairs = Vec::new();
    for (p, bt) in trades.iter().enumerate() {
        for (s, st) in trades.iter().enumerate() {
            if bt.side == Side::Buy && st.side == Side::Sell && within(rule, bt.date, st.date) {
                pairs.push((p, s, st.price as i128 - bt.price as i128));
            }
        }
    }
    let mut left: Vec<u64> = trades.iter().map(|t| t.shares).collect();
    best_from(0, &pairs, &mut left)
}

fn check_against_brute_force<R: WindowRule + ?Sized>(rule: &R, seed: u64, instances: usize) {
    let mut rng = Rng::new(seed);
    let mut nonzero = 0;
    for case in 0..instances {
        let trades = small_instance(&mut rng, 6, 5);
        let expected = brute_force(&trades, rule);
        for scaling in [Scaling::On, Scaling::Off] {
            let sol = solve(&trades, rule, scaling).unwrap();
            assert_eq!(sol.total, expected, "case {case} {scaling:?}: {trades:#?}");
            let checked = verify(&trades, rule, &sol.pairs, sol.total, &sol.certificate);
            assert_eq!(checked, Ok(expected), "case {case} {scaling:?}: {trades:#?}");
        }
        if expected > 0 {
            nonzero += 1;
        }
    }
    // Guards against a generator that only produces trivial instances.
    assert!(nonzero > instances / 5, "only {nonzero} of {instances} instances had profit");
}

#[test]
fn six_month_rule_matches_brute_force_on_5000_instances() {
    check_against_brute_force(&SixCalendarMonths, 0x5EED, 5000);
}

#[test]
fn day_count_rule_matches_brute_force_on_2000_instances() {
    check_against_brute_force(&DayCount { days: 90 }, 42, 2000);
}

#[test]
fn larger_shares_match_brute_force() {
    // Share counts up to 40 exercise several scaling phases on the same oracle.
    let mut rng = Rng::new(7);
    for case in 0..300 {
        let trades = small_instance(&mut rng, 5, 40);
        let expected = brute_force(&trades, &SixCalendarMonths);
        let sol = solve(&trades, &SixCalendarMonths, Scaling::On).unwrap();
        assert_eq!(sol.total, expected, "case {case}: {trades:#?}");
    }
}
