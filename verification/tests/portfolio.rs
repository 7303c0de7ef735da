use carteira::decimal::Decimal;
use carteira::history::sort_by_date;
use carteira::models::{Asset, Timestamp, Transaction, TransactionType};
use carteira::portfolio::{check_new_transaction, insufficient_balance_message, Portfolio, TransactionRejection};

fn dec(mantissa: i128, scale: u32) -> Decimal {
    Decimal::from_parts(mantissa, scale).unwrap()
}

fn to_rust(d: &Decimal) -> rust_decimal::Decimal {
    rust_decimal::Decimal::from_i128_with_scale(d.mantissa(), d.scale())
}

fn days_ago(days: i64) -> Timestamp {
    let t = chrono::Utc::now() - chrono::Duration::days(days);
    Timestamp { secs: t.timestamp(), nanos: t.timestamp_subsec_nanos() }
}

fn tx(ticker: &str, kind: TransactionType, quantity: Decimal, unit_price: Decimal, date: Timestamp) -> Transaction {
    Transaction {
        id: uuid::Uuid::new_v4().as_u128(),
        user_id: 7,
        ticker: ticker.to_string(),
        transaction_type: kind,
        quantity,
        unit_price,
        date,
    }
}

#[test]
fn test_calculate_portfolio() {
    let user_id = uuid::Uuid::new_v4().as_u128();
    let t1 = Transaction {
        id: uuid::Uuid::new_v4().as_u128(),
        user_id,
        ticker: "AAPL".to_string(),
        transaction_type: TransactionType::Buy,
        quantity: dec(10, 0),
        unit_price: dec(1500, 1),
        date: days_ago(2),
    };
    let t2 = Transaction {
        id: uuid::Uuid::new_v4().as_u128(),
        user_id,
        ticker: "AAPL".to_string(),
        transaction_type: TransactionType::Buy,
        quantity: dec(5, 0),
        unit_price: dec(1600, 1),
        date: days_ago(1),
    };

    let (assets, _, total_invested) = Portfolio::calculate(vec![t1, t2]);

    assert_eq!(assets.len(), 1);
    assert_eq!(assets[0].ticker, "AAPL");
    assert_eq!(assets[0].quantity, dec(15, 0));
    // ((10 * 150) + (5 * 160)) / 15 = 2300 / 15
    assert_eq!(
        to_rust(&assets[0].average_price),
        rust_decimal::Decimal::from(2300) / rust_decimal::Decimal::from(15)
    );
    assert_eq!(total_invested, dec(2300, 0));
}

#[test]
fn test_has_sufficient_balance() {
    let user_id = uuid::Uuid::new_v4().as_u128();
    let transactions = vec![Transaction {
        id: uuid::Uuid::new_v4().as_u128(),
        user_id,
        ticker: "AAPL".to_string(),
        transaction_type: TransactionType::Buy,
        quantity: dec(10, 0),
        unit_price: dec(1500, 1),
        date: days_ago(0),
    }];

    assert!(Portfolio::has_sufficient_balance(&transactions, "AAPL", dec(5, 0)));
    assert!(Portfolio::has_sufficient_balance(&transactions, "AAPL", dec(10, 0)));
    assert!(!Portfolio::has_sufficient_balance(&transactions, "AAPL", dec(15, 0)));
}

#[test]
fn calculation_applies_transactions_oldest_first() {
    // Given newest first: the sale must still come after the purchase.
    let sell = tx("PETR4", TransactionType::Sell, dec(4, 0), dec(30, 0), days_ago(1));
    let buy = tx("PETR4", TransactionType::Buy, dec(10, 0), dec(20, 0), days_ago(3));
    let (assets, ordered, total) = Portfolio::calculate(vec![sell, buy]);
    assert_eq!(ordered[0].transaction_type, TransactionType::Buy);
    assert_eq!(ordered[1].transaction_type, TransactionType::Sell);
    assert_eq!(assets.len(), 1);
    assert_eq!(assets[0].quantity, dec(6, 0));
    // a sale keeps the average price
    assert_eq!(assets[0].average_price, dec(20, 0));
    assert_eq!(total, dec(120, 0));
}

#[test]
fn selling_more_than_held_empties_the_position() {
    let buy = tx("VALE3", TransactionType::Buy, dec(3, 0), dec(50, 0), days_ago(2));
    let sell = tx("VALE3", TransactionType::Sell, dec(5, 0), dec(60, 0), days_ago(1));
    let (assets, ordered, total) = Portfolio::calculate(vec![buy, sell]);
    assert!(assets.is_empty());
    assert_eq!(ordered.len(), 2);
    assert_eq!(total, Decimal::zero());
}

#[test]
fn positions_are_listed_by_ticker_and_keep_their_own_history() {
    let a = tx("MSFT", TransactionType::Buy, dec(2, 0), dec(300, 0), days_ago(5));
    let b = tx("AAPL", TransactionType::Buy, dec(1, 0), dec(100, 0), days_ago(4));
    let c = tx("MSFT", TransactionType::Buy, dec(2, 0), dec(400, 0), days_ago(3));
    let d = tx("AAPL", TransactionType::Sell, dec(1, 0), dec(120, 0), days_ago(2));
    let e = tx("BBAS3", TransactionType::Buy, dec(10, 0), dec(255, 1), days_ago(1));
    let (assets, _, total) = Portfolio::calculate(vec![a, b, c, d, e]);
    let tickers: Vec<&str> = assets.iter().map(|x| x.ticker.as_str()).collect();
    assert_eq!(tickers, vec!["BBAS3", "MSFT"]);
    assert_eq!(assets[1].quantity, dec(4, 0));
    assert_eq!(assets[1].average_price, dec(350, 0));
    assert_eq!(assets[0].average_price, dec(255, 1));
    assert!(assets.iter().all(|x| x.current_price.is_none() && x.profit_loss.is_none()));
    // 10 * 25.5 + 4 * 350
    assert_eq!(total, dec(1655, 0));

    let msft_only = vec![
        tx("MSFT", TransactionType::Buy, dec(2, 0), dec(300, 0), days_ago(5)),
        tx("MSFT", TransactionType::Buy, dec(2, 0), dec(400, 0), days_ago(3)),
    ];
    let (alone, _, _) = Portfolio::calculate(msft_only);
    assert_eq!(alone[0].quantity, assets[1].quantity);
    assert_eq!(alone[0].average_price, assets[1].average_price);
}

#[test]
fn empty_history_has_nothing_invested() {
    let (assets, ordered, total) = Portfolio::calculate(Vec::new());
    assert!(assets.is_empty());
    assert!(ordered.is_empty());
    assert_eq!(total, Decimal::zero());
    let p = Portfolio::new();
    assert!(p.assets.is_empty() && p.transactions.is_empty());
}

#[test]
fn overflowing_history_is_refused() {
    let huge = Decimal::from_parts(79_228_162_514_264_337_593_543_950_335, 0).unwrap();
    let t1 = tx("X", TransactionType::Buy, huge, huge, days_ago(1));
    assert!(Portfolio::try_calculate(vec![t1]).is_none());
    let t2 = tx("X", TransactionType::Buy, huge, dec(1, 0), days_ago(2));
    let t3 = tx("x", TransactionType::Buy, huge, dec(1, 0), days_ago(1));
    assert_eq!(Portfolio::try_has_sufficient_balance(&[t2, t3], "X", dec(1, 0)), None);
}

#[test]
fn balance_ignores_ascii_case_of_tickers() {
    let txs = vec![
        tx("aapl", TransactionType::Buy, dec(10, 0), dec(1, 0), days_ago(3)),
        tx("AAPL", TransactionType::Sell, dec(4, 0), dec(1, 0), days_ago(2)),
        tx("MSFT", TransactionType::Buy, dec(100, 0), dec(1, 0), days_ago(1)),
    ];
    assert_eq!(to_rust(&Portfolio::try_balance(&txs, "Aapl").unwrap()), rust_decimal::Decimal::from(6));
    assert!(Portfolio::has_sufficient_balance(&txs, "AaPl", dec(6, 0)));
    assert!(!Portfolio::has_sufficient_balance(&txs, "AAPL", dec(61, 1)));
    assert_eq!(Portfolio::try_has_sufficient_balance(&txs, "PETR4", dec(1, 0)), Some(false));
}

#[test]
fn sales_need_balance_and_tickers_are_recorded_in_upper_case() {
    let txs = vec![tx("AAPL", TransactionType::Buy, dec(10, 0), dec(1, 0), days_ago(1))];
    assert_eq!(check_new_transaction(&txs, "aapl", TransactionType::Sell, dec(10, 0)), Ok("AAPL".to_string()));
    assert_eq!(
        check_new_transaction(&txs, "aapl", TransactionType::Sell, dec(11, 0)),
        Err(TransactionRejection::InsufficientBalance)
    );
    assert_eq!(check_new_transaction(&txs, "petr4", TransactionType::Buy, dec(1, 0)), Ok("PETR4".to_string()));
    assert_eq!(insufficient_balance_message("petr4"), "Saldo insuficiente de PETR4 para venda.");
}

#[test]
fn newest_first_ordering_is_stable() {
    let same = days_ago(1);
    let mut a = tx("A", TransactionType::Buy, dec(1, 0), dec(1, 0), same);
    a.id = 1;
    let mut b = tx("B", TransactionType::Buy, dec(1, 0), dec(1, 0), days_ago(2));
    b.id = 2;
    let mut c = tx("C", TransactionType::Buy, dec(1, 0), dec(1, 0), same);
    c.id = 3;
    let newest = sort_by_date(vec![b.clone(), a.clone(), c.clone()], true);
    let ids: Vec<u128> = newest.iter().map(|t| t.id).collect();
    assert_eq!(ids, vec![1, 3, 2]);
    let oldest = sort_by_date(vec![a, b, c], false);
    let ids: Vec<u128> = oldest.iter().map(|t| t.id).collect();
    assert_eq!(ids, vec![2, 1, 3]);
}

#[test]
fn transaction_helpers() {
    let buy = tx("A", TransactionType::Buy, dec(1, 0), dec(1, 0), days_ago(0));
    let sell = tx("A", TransactionType::Sell, dec(1, 0), dec(1, 0), days_ago(0));
    assert!(buy.is_buy());
    assert!(!sell.is_buy());
    assert_eq!(buy.transaction_type_str(), "COMPRA");
    assert_eq!(sell.transaction_type_str(), "VENDA");
    let fresh = Asset::new("ITUB4");
    assert_eq!(fresh.ticker, "ITUB4");
    assert_eq!(fresh.quantity, Decimal::zero());
    assert_eq!(fresh.average_price, Decimal::zero());
    assert!(fresh.current_price.is_none());

    let stored = Transaction::from_stored(1, 2, "A".to_string(), TransactionType::Buy, "12.50", "oops", days_ago(0));
    assert_eq!(to_rust(&stored.quantity), rust_decimal::Decimal::new(1250, 2));
    assert_eq!(stored.unit_price, Decimal::zero());
}

#[test]
fn stored_amounts_read_back_as_the_same_amounts() {
    let t = tx("PETR4", TransactionType::Sell, dec(1_234_567, 4), dec(-79_228_162_514_264_337_593_543_950_335, 28), days_ago(3));
    let (quantity, unit_price) = t.stored_amounts();
    assert_eq!(quantity, "123.4567");
    let back = Transaction::from_stored(t.id, t.user_id, t.ticker.clone(), t.transaction_type, &quantity, &unit_price, t.date);
    assert_eq!(back.id, t.id);
    assert_eq!(back.user_id, t.user_id);
    assert_eq!(back.ticker, t.ticker);
    assert_eq!(back.transaction_type, t.transaction_type);
    assert_eq!(back.date, t.date);
    assert_eq!(back.quantity.mantissa(), t.quantity.mantissa());
    assert_eq!(back.quantity.scale(), t.quantity.scale());
    assert_eq!(back.unit_price.mantissa(), t.unit_price.mantissa());
    assert_eq!(back.unit_price.scale(), t.unit_price.scale());
    let unreadable = Transaction::from_stored(1, 2, "X".to_string(), TransactionType::Buy, "abc", "", t.date);
    assert!(unreadable.quantity == Decimal::zero());
    assert!(unreadable.unit_price == Decimal::zero());
}

#[test]
fn input_order_does_not_change_the_consolidation() {
    let a = tx("AAPL", TransactionType::Buy, dec(10, 0), dec(150, 0), days_ago(5));
    let b = tx("MSFT", TransactionType::Buy, dec(3, 0), dec(300, 0), days_ago(4));
    let c = tx("AAPL", TransactionType::Sell, dec(4, 0), dec(170, 0), days_ago(3));
    let d = tx("AAPL", TransactionType::Buy, dec(6, 0), dec(160, 0), days_ago(2));
    let (assets1, sorted1, total1) = Portfolio::calculate(vec![a.clone(), b.clone(), c.clone(), d.clone()]);
    let (assets2, sorted2, total2) = Portfolio::calculate(vec![d, c, b, a]);
    assert_eq!(assets1.len(), assets2.len());
    for (x, y) in assets1.iter().zip(assets2.iter()) {
        assert_eq!(x.ticker, y.ticker);
        assert_eq!(to_rust(&x.quantity), to_rust(&y.quantity));
        assert_eq!(to_rust(&x.average_price), to_rust(&y.average_price));
    }
    let ids1: Vec<u128> = sorted1.iter().map(|t| t.id).collect();
    let ids2: Vec<u128> = sorted2.iter().map(|t| t.id).collect();
    assert_eq!(ids1, ids2);
    assert_eq!(to_rust(&total1), to_rust(&total2));
}

#[test]
fn quantities_that_are_not_positive_are_refused() {
    let none: Vec<Transaction> = Vec::new();
    assert_eq!(
        check_new_transaction(&none, "aapl", TransactionType::Buy, dec(-1, 0)),
        Err(TransactionRejection::NonPositiveQuantity)
    );
    assert_eq!(
        check_new_transaction(&none, "aapl", TransactionType::Buy, dec(0, 2)),
        Err(TransactionRejection::NonPositiveQuantity)
    );
    assert_eq!(
        check_new_transaction(&none, "aapl", TransactionType::Sell, dec(-5, 1)),
        Err(TransactionRejection::NonPositiveQuantity)
    );
    assert_eq!(check_new_transaction(&none, "aapl", TransactionType::Buy, dec(1, 28)), Ok("AAPL".to_string()));
}
