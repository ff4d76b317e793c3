use shortswing::generate::{history, HistoryConfig, Rng};
use shortswing::trade::validate;
use shortswing::{
    lowest_in_highest_out, solve, verify, within, Date, DayCount, MatchedPair, Scaling, Side, SixCalendarMonths,
    Trade,
};

fn trade(id: &str, date: &str, side: Side, shares: u64, price: i64) -> Trade {
    Trade { id: id.to_string(), date: Date::parse(date).unwrap(), side, shares, price }
}

fn counterexample() -> Vec<Trade> {
    vec![
        trade("S1", "2024-01-02", Side::Sell, 100, 140_000),
        trade("B1", "2024-03-01", Side::Buy, 100, 100_000),
        trade("S2", "2024-06-03", Side::Sell, 100, 200_000),
        trade("B2", "2024-11-01", Side::Buy, 100, 120_000),
        trade("S3", "2024-12-16", Side::Sell, 50, 130_000),
    ]
}

fn verified_total(trades: &[Trade]) -> i128 {
    let sol = solve(trades, &SixCalendarMonths, Scaling::On).unwrap();
    verify(trades, &SixCalendarMonths, &sol.pairs, sol.total, &sol.certificate).unwrap()
}

#[test]
fn a_verified_total_beats_every_hand_made_matching() {
    let trades = counterexample();
    let sol = solve(&trades, &SixCalendarMonths, Scaling::On).unwrap();
    let best = verify(&trades, &SixCalendarMonths, &sol.pairs, sol.total, &sol.certificate).unwrap();
    // B1 -> S2 for 100 shares and B2 -> S3 for 50: feasible, and below the optimum.
    let hand = [
        MatchedPair { purchase: 1, sale: 2, shares: 100, profit: 10_000_000 },
        MatchedPair { purchase: 3, sale: 4, shares: 50, profit: 500_000 },
    ];
    let hand_total: i128 = hand.iter().map(|p| p.profit).sum();
    assert_eq!(hand_total, 10_500_000);
    assert!(hand_total <= best);
    assert_eq!(best, 12_000_000);
}

#[test]
fn scaling_and_plain_totals_agree_on_histories() {
    for seed in 100..110 {
        let config = HistoryConfig { trades: 60, ..HistoryConfig::default() };
        let trades = history(seed, &config);
        let on = solve(&trades, &SixCalendarMonths, Scaling::On).unwrap();
        let off = solve(&trades, &SixCalendarMonths, Scaling::Off).unwrap();
        assert_eq!(on.total, off.total, "seed {seed}");
        let greedy = lowest_in_highest_out(&trades, &SixCalendarMonths);
        assert!(greedy.total <= on.total, "seed {seed}");
    }
}

#[test]
fn adding_a_trade_never_lowers_the_verified_total() {
    let trades = counterexample();
    let before = verified_total(&trades);
    let mut more = trades.clone();
    more.push(trade("S4", "2024-12-20", Side::Sell, 100, 150_000));
    let after = verified_total(&more);
    assert!(after >= before);
    // B1 now takes S2 at 10.00 a share and B2 sells its 100 shares as S4 at 3.00 a share.
    assert_eq!(after, 13_000_000);
}

#[test]
fn shifting_prices_keeps_the_verified_total() {
    let trades = counterexample();
    let shifted: Vec<Trade> = trades.iter().map(|t| Trade { price: t.price + 77_777, ..t.clone() }).collect();
    assert_eq!(verified_total(&shifted), verified_total(&trades));
}

#[test]
fn scaling_shares_scales_the_verified_total() {
    let trades = counterexample();
    let scaled: Vec<Trade> = trades.iter().map(|t| Trade { shares: t.shares * 3, ..t.clone() }).collect();
    assert_eq!(verified_total(&scaled), 3 * verified_total(&trades));
}

#[test]
fn solver_pairs_stay_within_both_trades() {
    let mut rng = Rng::new(5);
    for _ in 0..50 {
        let n = rng.range(1, 12) as usize;
        let base = Date::new(2024, 1, 1).unwrap().day_number();
        let trades: Vec<Trade> = (0..n)
            .map(|i| Trade {
                id: format!("X{i}"),
                date: Date::from_day_number(base + rng.range(0, 300) as i64),
                side: if rng.range(0, 1) == 0 { Side::Buy } else { Side::Sell },
                shares: rng.range(1, 20),
                price: rng.range(1, 30) as i64,
            })
            .collect();
        let sol = solve(&trades, &SixCalendarMonths, Scaling::On).unwrap();
        let mut used = vec![0u64; n];
        for p in &sol.pairs {
            assert!(p.shares <= trades[p.purchase].shares.min(trades[p.sale].shares));
            used[p.purchase] += p.shares;
            used[p.sale] += p.shares;
        }
        for (u, t) in used.iter().zip(&trades) {
            assert!(*u <= t.shares);
        }
        assert_eq!(sol.pairs.iter().map(|p| p.profit).sum::<i128>(), sol.total);
        assert_eq!(sol.stats.pair_arcs, count_matchable(&trades));
    }
}

fn count_matchable(trades: &[Trade]) -> usize {
    let mut k = 0;
    for p in trades {
        for s in trades {
            if p.side == Side::Buy && s.side == Side::Sell && s.price > p.price && within(&SixCalendarMonths, p.date, s.date) {
                k += 1;
            }
        }
    }
    k
}

#[test]
fn window_is_symmetric_and_same_day_matches() {
    let rule = SixCalendarMonths;
    let a = Date::parse("2024-01-31").unwrap();
    let b = Date::parse("2024-07-30").unwrap();
    let c = Date::parse("2024-07-31").unwrap();
    assert_eq!(within(&rule, a, b), within(&rule, b, a));
    assert_eq!(within(&rule, a, c), within(&rule, c, a));
    assert!(within(&rule, a, a));
    let days = DayCount { days: 1 };
    assert!(within(&days, a, a));
    assert!(!within(&days, a, Date::parse("2024-02-01").unwrap()));
}

#[test]
fn day_numbers_follow_date_order() {
    let earlier = Date::parse("1999-12-31").unwrap();
    let later = Date::parse("2000-01-01").unwrap();
    assert_eq!(later.day_number() - earlier.day_number(), 1);
    assert_eq!(Date::from_day_number(later.day_number()), later);
}

#[test]
fn validate_reports_each_limit() {
    let ok = vec![trade("A", "2024-01-01", Side::Buy, 1, 1)];
    assert_eq!(validate(&ok), Ok(()));
    let zero = vec![trade("Z", "2024-01-01", Side::Buy, 0, 1)];
    assert_eq!(validate(&zero), Err("trade Z: shares must be in 1..=1000000000000".to_string()));
    let negative = vec![trade("N", "2024-01-01", Side::Buy, 1, -1)];
    assert_eq!(validate(&negative), Err("trade N: price must be in 0..=1000000000000 ticks".to_string()));
    assert!(solve(&zero, &SixCalendarMonths, Scaling::On).is_err());
}

#[test]
fn liho_matching_is_feasible_and_claims_its_profit() {
    let trades = counterexample();
    let greedy = lowest_in_highest_out(&trades, &SixCalendarMonths);
    let pairs: Vec<(usize, usize, u64, i128)> =
        greedy.pairs.iter().map(|p| (p.purchase, p.sale, p.shares, p.profit)).collect();
    assert_eq!(pairs, vec![(1, 2, 100, 10_000_000), (3, 4, 50, 500_000)]);
    assert_eq!(greedy.total, 10_500_000);
}

#[test]
fn liho_is_optimal_when_every_pair_is_in_window() {
    let trades = vec![
        trade("B1", "2024-01-02", Side::Buy, 300, 100_000),
        trade("S1", "2024-01-03", Side::Sell, 100, 200_000),
        trade("B2", "2024-01-04", Side::Buy, 200, 120_000),
        trade("S2", "2024-01-05", Side::Sell, 250, 110_000),
        trade("S3", "2024-01-06", Side::Sell, 150, 150_000),
        trade("B3", "2024-01-07", Side::Buy, 50, 180_000),
    ];
    let rule = SixCalendarMonths;
    let greedy = lowest_in_highest_out(&trades, &rule);
    let sol = solve(&trades, &rule, Scaling::On).unwrap();
    assert_eq!(greedy.total, sol.total);
    assert_eq!(greedy.total, 100 * 100_000 + 150 * 50_000 + 50 * 10_000);
}

#[test]
fn phases_follow_the_largest_capacity() {
    let trades = counterexample();
    // Buys hold 200 shares, sales 250: the return arc carries 201, so scaling
    // starts at 128 and halves down to 1.
    let on = solve(&trades, &SixCalendarMonths, Scaling::On).unwrap();
    assert_eq!(on.stats.phases, 8);
    let off = solve(&trades, &SixCalendarMonths, Scaling::Off).unwrap();
    assert_eq!(off.stats.phases, 1);
    assert_eq!(on.stats.pair_arcs, 4);
}

#[test]
fn date_text_reads_back_as_the_same_date() {
    for text in ["2024-02-29", "0001-01-01", "9999-12-31", "2023-07-04"] {
        let d = Date::parse(text).unwrap();
        let shown = d.to_string();
        assert_eq!(shown, text);
        assert_eq!(Date::parse(&shown), Ok(d));
    }
    let d = Date::new(812, 3, 9).unwrap();
    assert_eq!(d.to_string(), "0812-03-09");
    assert_eq!(Date::parse(&d.to_string()), Ok(d));
}
