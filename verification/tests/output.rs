use shortswing::generate::{history, try_history, HistoryConfig, Rng};
use shortswing::io::{json_string, match_report, parse_csv, report_json, write_csv};
use shortswing::trade::{format_ticks, parse_price};
use shortswing::{lowest_in_highest_out, solve, verify, Date, Scaling, Side, SixCalendarMonths, Trade, Violation};

const COUNTEREXAMPLE_CSV: &str = "id,date,side,shares,price
S1,2024-01-02,sell,100,14.00
B1,2024-03-01,buy,100,10.00
S2,2024-06-03,sell,100,20.00
B2,2024-11-01,buy,100,12.00
S3,2024-12-16,sell,50,13.00
";

const COUNTEREXAMPLE_REPORT: &str = r#"{
  "window_rule": "six-calendar-months",
  "tick_decimals": 4,
  "pairs": [
    {"purchase_id": "B1", "purchase_date": "2024-03-01", "purchase_price": "10.0000", "sale_id": "S1", "sale_date": "2024-01-02", "sale_price": "14.0000", "shares": 100, "profit": "400.0000"},
    {"purchase_id": "B2", "purchase_date": "2024-11-01", "purchase_price": "12.0000", "sale_id": "S2", "sale_date": "2024-06-03", "sale_price": "20.0000", "shares": 100, "profit": "800.0000"}
  ],
  "total_profit": "1200.0000",
  "certificate": {
    "duals_per_share": [
      {"id": "S1", "side": "sell", "shares": 100, "dual": "1.0000"},
      {"id": "B1", "side": "buy", "shares": 100, "dual": "3.0000"},
      {"id": "S2", "side": "sell", "shares": 100, "dual": "7.0000"},
      {"id": "B2", "side": "buy", "shares": 100, "dual": "1.0000"},
      {"id": "S3", "side": "sell", "shares": 50, "dual": "0.0000"}
    ],
    "dual_objective": "1200.0000",
    "verified": true
  },
  "liho": {
    "pairs": [
      {"purchase_id": "B1", "purchase_date": "2024-03-01", "purchase_price": "10.0000", "sale_id": "S2", "sale_date": "2024-06-03", "sale_price": "20.0000", "shares": 100, "profit": "1000.0000"},
      {"purchase_id": "B2", "purchase_date": "2024-11-01", "purchase_price": "12.0000", "sale_id": "S3", "sale_date": "2024-12-16", "sale_price": "13.0000", "shares": 50, "profit": "50.0000"}
    ],
    "total_profit": "1050.0000"
  },
  "liho_shortfall": "150.0000"
}
"#;

#[test]
fn report_on_the_counterexample_matches_the_documented_output() {
    let trades = parse_csv(COUNTEREXAMPLE_CSV, 4).unwrap();
    let rule = SixCalendarMonths;
    let solution = solve(&trades, &rule, Scaling::On).unwrap();
    let verified = verify(&trades, &rule, &solution.pairs, solution.total, &solution.certificate).map_err(|v| v.to_string());
    let greedy = lowest_in_highest_out(&trades, &rule);
    let report = report_json(&trades, &rule, 4, &solution, &verified, &greedy);
    assert_eq!(report, COUNTEREXAMPLE_REPORT);
}

#[test]
fn match_report_renders_the_documented_output() {
    let trades = parse_csv(COUNTEREXAMPLE_CSV, 4).unwrap();
    let m = match_report(&trades, &SixCalendarMonths, 4, Scaling::On).unwrap();
    assert!(m.verified);
    assert_eq!(m.text, COUNTEREXAMPLE_REPORT);
    assert_eq!(m.solution.total, 12_000_000);
    assert_eq!(m.greedy.total, 10_500_000);
}

#[test]
fn match_report_passes_on_validation_errors() {
    let bad = vec![Trade { id: "Z".to_string(), date: Date::parse("2024-01-02").unwrap(), side: Side::Buy, shares: 0, price: 1 }];
    let err = match_report(&bad, &SixCalendarMonths, 4, Scaling::On).err().unwrap();
    assert_eq!(err, "trade Z: shares must be in 1..=1000000000000");
}

#[test]
fn reports_print_at_the_widest_scale() {
    let trades = parse_csv(COUNTEREXAMPLE_CSV, 4).unwrap();
    let rule = SixCalendarMonths;
    let solution = solve(&trades, &rule, Scaling::On).unwrap();
    let verified = verify(&trades, &rule, &solution.pairs, solution.total, &solution.certificate).map_err(|v| v.to_string());
    let greedy = lowest_in_highest_out(&trades, &rule);
    let report = report_json(&trades, &rule, 38, &solution, &verified, &greedy);
    assert!(report.contains("\"total_profit\": \"0.00000000000000000000000000000012000000\""));
    assert!(report.contains("\"tick_decimals\": 38"));
}

#[test]
fn report_names_a_failed_verification() {
    let trades = parse_csv(COUNTEREXAMPLE_CSV, 4).unwrap();
    let rule = SixCalendarMonths;
    let solution = solve(&trades, &rule, Scaling::On).unwrap();
    let greedy = lowest_in_highest_out(&trades, &rule);
    let failed: Result<i128, String> = Err("bad \"dual\"".to_string());
    let report = report_json(&trades, &rule, 4, &solution, &failed, &greedy);
    assert!(report.contains("    \"verified\": false,\n    \"violation\": \"bad \\\"dual\\\"\"\n  },"));
}

#[test]
fn generated_history_matches_the_documented_sample() {
    let config = HistoryConfig { trades: 6, ..HistoryConfig::default() };
    let csv = write_csv(&history(7, &config), 4);
    assert_eq!(
        csv,
        "id,date,side,shares,price\n\
         T1,2020-03-26,buy,9,52.1271\n\
         T2,2020-06-06,sell,937,54.0342\n\
         T3,2020-12-10,sell,152,52.8445\n\
         T4,2021-01-13,sell,163,52.3225\n\
         T5,2021-06-19,sell,6446,57.2936\n\
         T6,2021-11-07,sell,467,58.2343\n"
    );
}

#[test]
fn checked_history_agrees_with_history() {
    let config = HistoryConfig { trades: 6, ..HistoryConfig::default() };
    assert_eq!(try_history(7, &config), Some(history(7, &config)));
    let empty = HistoryConfig { trades: 0, ..HistoryConfig::default() };
    assert_eq!(try_history(7, &empty), Some(Vec::new()));
}

#[test]
fn checked_history_refuses_an_overflowing_move() {
    let config = HistoryConfig { trades: 3, daily_move: -1, ..HistoryConfig::default() };
    assert_eq!(try_history(7, &config), None);
}

#[test]
fn generated_histories_are_sorted_and_in_range() {
    let config = HistoryConfig { trades: 200, max_shares: 1_000, span_days: 100, ..HistoryConfig::default() };
    let a = history(3, &config);
    let b = history(3, &config);
    assert_eq!(a, b);
    assert_eq!(a.len(), 200);
    let start = config.start.day_number();
    for (i, t) in a.iter().enumerate() {
        assert_eq!(t.id, format!("T{}", i + 1));
        let day = t.date.day_number() - start;
        assert!((0..100).contains(&day));
        assert!(t.shares >= 1 && t.shares <= 1_000);
        assert!(t.price >= 1);
        if i > 0 {
            assert!(a[i - 1].date.day_number() <= t.date.day_number());
        }
    }
}

#[test]
fn splitmix_matches_its_reference_values() {
    let mut rng = Rng::new(0);
    assert_eq!(rng.next_u64(), 0xE220_A839_7B1D_CDAF);
    assert_eq!(rng.next_u64(), 0x6E78_9E6A_A1B9_65F4);
    let mut r = Rng::new(42);
    for _ in 0..1000 {
        let x = r.range(10, 20);
        assert!((10..=20).contains(&x));
    }
}

#[test]
fn default_history_config_is_documented() {
    let c = HistoryConfig::default();
    assert_eq!(c.trades, 50);
    assert_eq!(c.max_shares, 10_000);
    assert_eq!(c.span_days, 730);
    assert_eq!(c.start, Date::new(2020, 1, 2).unwrap());
    assert_eq!(c.start_price, 500_000);
    assert_eq!(c.daily_move, 5_000);
}

#[test]
fn ticks_format_with_fixed_places() {
    assert_eq!(format_ticks(12_500, 4), "1.2500");
    assert_eq!(format_ticks(-1, 4), "-0.0001");
    assert_eq!(format_ticks(-12, 0), "-12");
    assert_eq!(format_ticks(7, 2), "0.07");
    assert_eq!(format_ticks(123_456_789, 3), "123456.789");
}

#[test]
fn prices_are_trimmed_before_parsing() {
    assert_eq!(parse_price("  12.5\t", 4), Ok(125_000));
    assert_eq!(parse_price("1.2", 1), Ok(12));
    assert_eq!(parse_price("abc", 4), Err("price \"abc\" is not a non-negative decimal number".to_string()));
    assert_eq!(parse_price("1.25", 1), Err("price \"1.25\" has more than 1 decimal places".to_string()));
    assert_eq!(parse_price("100000000.00001", 5), Err("price \"100000000.00001\" is too large".to_string()));
}

#[test]
fn json_strings_are_escaped() {
    assert_eq!(json_string("plain"), "\"plain\"");
    assert_eq!(json_string("a\"b\\c"), "\"a\\\"b\\\\c\"");
    assert_eq!(json_string("x\ny\rz\t"), "\"x\\ny\\rz\\t\"");
    assert_eq!(json_string("\u{1}\u{1f}"), "\"\\u0001\\u001f\"");
    assert_eq!(json_string("é"), "\"é\"");
}

#[test]
fn csv_round_trips_through_write_and_parse() {
    let trades = vec![
        Trade { id: "A".to_string(), date: Date::new(2024, 2, 29).unwrap(), side: Side::Buy, shares: 3, price: 12_345 },
        Trade { id: "B".to_string(), date: Date::new(2024, 3, 1).unwrap(), side: Side::Sell, shares: 4, price: 7 },
    ];
    let csv = write_csv(&trades, 4);
    assert_eq!(csv, "id,date,side,shares,price\nA,2024-02-29,buy,3,1.2345\nB,2024-03-01,sell,4,0.0007\n");
    assert_eq!(parse_csv(&csv, 4).unwrap(), trades);
}

#[test]
fn csv_errors_name_the_line_and_the_problem() {
    let err = |csv: &str| parse_csv(csv, 4).unwrap_err();
    assert_eq!(err(""), "CSV is empty");
    assert_eq!(err("# only a comment\n\n"), "CSV is empty");
    assert_eq!(err("date,side,shares\n2024-02-01,buy,1\n"), "CSV header has no \"price\" column");
    assert_eq!(err("side,shares,price\n"), "CSV header has no \"date\" column");
    assert_eq!(err("date,side,shares,price\n2024-02-30,buy,1,1\n"), "line 2: day 30 does not exist in 2024-02");
    assert_eq!(err("date,side,shares,price\n2024-02-01,hold,1,1\n"), "line 2: side \"hold\" is not buy or sell");
    assert_eq!(err("date,side,shares,price\n2024-02-01,buy,1\n"), "line 2: expected 4 fields, found 3");
    assert_eq!(err("date,side,shares,price\n\n2024-02-01,buy,x,1\n"), "line 3: shares \"x\" is not a whole number");
    assert_eq!(
        err("date,side,shares,price\n2024-02-01,buy,1,1.00001\n"),
        "line 2: price \"1.00001\" has more than 4 decimal places"
    );
    assert_eq!(
        err("id,date,side,shares,price\nA,2024-02-01,buy,1,1\nA,2024-02-02,sell,1,2\n"),
        "line 3: trade id \"A\" appears more than once"
    );
    assert_eq!(
        err("id,date,side,shares,price\nA,2024-02-01,buy,1,1\n# note\n\nB,2024-02-02,sell,1,2\nA,2024-02-03,sell,1,2\n"),
        "line 6: trade id \"A\" appears more than once"
    );
    assert_eq!(err("date,side,shares,price\n2024-02-01,buy,0,1\n"), "line 2: shares must be at least 1");
}

#[test]
fn csv_accepts_crlf_plus_signs_and_any_column_order() {
    let csv = "Price,SHARES,id,Side,date\r\n1,+7,X,purchase,2024-02-01\r\n2,3,Y,S,2024-02-02";
    let trades = parse_csv(csv, 0).unwrap();
    assert_eq!(trades.len(), 2);
    assert_eq!(trades[0].id, "X");
    assert_eq!(trades[0].shares, 7);
    assert_eq!(trades[0].side, Side::Buy);
    assert_eq!(trades[1].side, Side::Sell);
    assert_eq!(trades[1].price, 2);
}

#[test]
fn violations_read_as_sentences() {
    assert_eq!(
        Violation::CertificateLength { expected: 5, found: 3 }.to_string(),
        "certificate has 3 duals, expected 5"
    );
    assert_eq!(Violation::BadIndex { pair: 0 }.to_string(), "pair 0 does not join a purchase to a sale");
    assert_eq!(Violation::NotMatchable { pair: 2 }.to_string(), "pair 2 is outside the window or not profitable");
    assert_eq!(Violation::ZeroShares { pair: 1 }.to_string(), "pair 1 matches zero shares");
    assert_eq!(
        Violation::WrongProfit { pair: 0, claimed: -5, actual: 6 }.to_string(),
        "pair 0 claims profit -5, actual 6"
    );
    assert_eq!(
        Violation::Overmatched { trade: 4, matched: 101, available: 100 }.to_string(),
        "trade 4 matched 101 shares but has 100"
    );
    assert_eq!(Violation::NegativeDual { trade: 3 }.to_string(), "trade 3 has a negative dual");
    assert_eq!(
        Violation::DualInfeasible { purchase: 1, sale: 2, gain: 10, dual_sum: 9 }.to_string(),
        "duals of purchase 1 and sale 2 sum to 9 < gain 10"
    );
    assert_eq!(
        Violation::SlackPair { pair: 0, gain: 4, dual_sum: 5 }.to_string(),
        "pair 0 is matched but its duals sum to 5, not gain 4"
    );
    assert_eq!(
        Violation::SlackTrade { trade: 4, dual: 1, matched: 0, available: 50 }.to_string(),
        "trade 4 has dual 1 > 0 but only 0 of 50 shares matched"
    );
    assert_eq!(
        Violation::TotalMismatch { claimed: 10, actual: 9 }.to_string(),
        "claimed total 10 but pairs sum to 9"
    );
    assert_eq!(
        Violation::DualityGap { primal: 0, dual: 500 }.to_string(),
        "matching profit 0 is below the dual bound 500"
    );
}

#[test]
fn dates_print_zero_padded() {
    assert_eq!(Date::new(7, 3, 4).unwrap().to_string(), "0007-03-04");
    assert_eq!(Date::parse(" 2024-12-31 ").unwrap().to_string(), "2024-12-31");
    assert_eq!(Date::new(2024, 2, 30), Err("day 30 does not exist in 2024-02".to_string()));
    assert_eq!(Date::new(0, 1, 1), Err("year 0 out of range 1..=9999".to_string()));
    assert_eq!(Date::new(2024, 13, 1), Err("month 13 out of range".to_string()));
}

#[test]
fn written_csv_reads_back_as_the_same_trades() {
    let config = HistoryConfig { trades: 40, ..HistoryConfig::default() };
    for seed in [1u64, 7, 2024] {
        let trades = history(seed, &config);
        for decimals in [0u32, 2, 4] {
            let csv = write_csv(&trades, decimals);
            assert_eq!(parse_csv(&csv, decimals), Ok(trades.clone()));
        }
    }
    let own = vec![Trade {
        id: "lot-7 a".to_string(),
        date: Date::parse("0999-02-28").unwrap(),
        side: Side::Sell,
        shares: 1_000_000_000_000,
        price: 1_000_000_000_000,
    }];
    assert_eq!(parse_csv(&write_csv(&own, 4), 4), Ok(own));
}
