use shortswing::io::parse_csv;
use shortswing::trade::{format_ticks, parse_price};

#[test]
fn price_parsing_is_exact() {
    assert_eq!(parse_price("12.5", 4), Ok(125_000));
    assert_eq!(parse_price("0.0001", 4), Ok(1));
    assert_eq!(parse_price("7", 0), Ok(7));
    assert_eq!(parse_price("3.10000", 2), Ok(310));
    assert!(parse_price("-1", 4).is_err());
    assert!(parse_price("1.", 4).is_err());
    assert!(parse_price(".5", 4).is_err());
    assert!(parse_price("1e3", 4).is_err());
    assert!(parse_price("99999999999999999999", 4).is_err());
}

#[test]
fn csv_quoted_fields_comments_and_default_ids() {
    let csv = "# exported\n\"Date\",\"Side\",\"Shares\",\"Price\"\n\n\"2024-02-01\",\"B\",\"5\",\"1.25\"\n2024-02-02,sale,5,2\n";
    let trades = parse_csv(csv, 4).unwrap();
    assert_eq!(trades.len(), 2);
    assert_eq!(trades[0].id, "T1");
    assert_eq!(trades[1].id, "T2");
    assert_eq!(trades[0].price, 12_500);
}

#[test]
fn formatted_prices_read_back_as_the_same_ticks() {
    for (ticks, decimals) in [(0i64, 0u32), (7, 0), (125_000, 4), (1, 4), (310, 2), (1_000_000_000_000, 4), (5, 38)] {
        let text = format_ticks(ticks as i128, decimals);
        assert_eq!(parse_price(&text, decimals), Ok(ticks));
    }
    assert_eq!(format_ticks(125_000, 4), "12.5000");
}
