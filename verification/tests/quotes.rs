use carteira::decimal::Decimal;
use carteira::models::Asset;
use carteira::quotes::{
    enrich_assets_with_quotes, normalize_tickers, quote_for, quote_request_url, quotes_from_results,
    try_enrich_assets_with_quotes, Quote,
};

fn dec(mantissa: i128, scale: u32) -> Decimal {
    Decimal::from_parts(mantissa, scale).unwrap()
}

fn asset(ticker: &str, quantity: Decimal, average_price: Decimal) -> Asset {
    Asset {
        ticker: ticker.to_string(),
        quantity,
        average_price,
        current_price: None,
        profit_loss: None,
        profit_loss_pct: None,
    }
}

#[test]
fn tickers_are_upper_cased_sorted_and_unique() {
    let tickers = vec!["petr4".to_string(), "AAPL".to_string(), "aapl".to_string(), "Vale3".to_string()];
    assert_eq!(normalize_tickers(&tickers), vec!["AAPL".to_string(), "PETR4".to_string(), "VALE3".to_string()]);
    assert!(normalize_tickers(&[]).is_empty());
}

#[test]
fn request_address_joins_symbols() {
    let tickers = vec!["petr4".to_string(), "aapl".to_string()];
    assert_eq!(
        quote_request_url(&tickers, "SECRET-REDACTED"),
        Some("https://brapi.dev/api/quote/AAPL,PETR4?token=SECRET-REDACTED".to_string())
    );
    assert_eq!(quote_request_url(&tickers, ""), None);
    assert_eq!(quote_request_url(&[], "tok"), None);
}

#[test]
fn answer_keeps_priced_symbols_and_later_ones_win() {
    let results = vec![
        ("petr4".to_string(), Some(dec(3050, 2))),
        ("AAPL".to_string(), None),
        ("PETR4".to_string(), Some(dec(31, 0))),
        ("vale3".to_string(), Some(dec(60, 0))),
    ];
    let table = quotes_from_results(results);
    assert_eq!(table.len(), 2);
    assert_eq!(quote_for(&table, "PETR4"), Some(dec(31, 0)));
    assert_eq!(quote_for(&table, "VALE3"), Some(dec(60, 0)));
    assert_eq!(quote_for(&table, "AAPL"), None);
    assert_eq!(quote_for(&table, "petr4"), None);
}

#[test]
fn positions_are_valued_at_their_quotes() {
    let assets = vec![asset("aapl", dec(10, 0), dec(100, 0)), asset("MSFT", dec(2, 0), dec(50, 0))];
    let quotes = vec![Quote { ticker: "AAPL".to_string(), price: dec(110, 0) }];
    let (valued, current, pl, pct) = enrich_assets_with_quotes(assets, dec(1100, 0), &quotes);
    // AAPL: 10 * 110 = 1100, cost 1000, +100 = +10%
    assert_eq!(valued[0].current_price, Some(dec(110, 0)));
    assert_eq!(valued[0].profit_loss, Some(dec(100, 0)));
    assert_eq!(valued[0].profit_loss_pct, Some(dec(10, 0)));
    // MSFT has no quote: kept as is, counted at cost (100)
    assert_eq!(valued[1].current_price, None);
    assert_eq!(valued[1].profit_loss, None);
    assert_eq!(current, dec(1200, 0));
    assert_eq!(pl, dec(100, 0));
    // 100 / 1100 * 100
    let expected = rust_decimal::Decimal::from(100) / rust_decimal::Decimal::from(1100) * rust_decimal::Decimal::from(100);
    assert_eq!(rust_decimal::Decimal::from_i128_with_scale(pct.mantissa(), pct.scale()), expected);
}

#[test]
fn nothing_invested_gives_zero_percentages() {
    let assets = vec![asset("FREE", dec(1, 0), dec(0, 0))];
    let quotes = vec![Quote { ticker: "FREE".to_string(), price: dec(5, 0) }];
    let (valued, current, pl, pct) = try_enrich_assets_with_quotes(assets, Decimal::zero(), &quotes).unwrap();
    assert_eq!(valued[0].profit_loss_pct, Some(Decimal::zero()));
    assert_eq!(current, dec(5, 0));
    assert_eq!(pl, dec(5, 0));
    assert_eq!(pct, Decimal::zero());
    let huge = Decimal::from_parts(79_228_162_514_264_337_593_543_950_335, 0).unwrap();
    let assets = vec![asset("X", huge, huge)];
    assert!(try_enrich_assets_with_quotes(assets, Decimal::zero(), &[]).is_none());
}
