use triangular_arbitrage_bot::market_analyzer::{analyze_ticker, TickerOutcome};
use triangular_arbitrage_bot::scaled_decimals::SCALE;
use triangular_arbitrage_bot::triangle_calculator::Triangle;
use triangular_arbitrage_bot::websocket::OrderTicker;

fn ticker(symbol: &str, bid: u128, ask: u128) -> OrderTicker {
    OrderTicker {
        update_id: 1,
        symbol: symbol.to_string(),
        bid_price: bid,
        bid_qty: SCALE,
        ask_price: ask,
        ask_qty: SCALE,
    }
}

fn triangle(fee: u128) -> Triangle {
    Triangle::new(
        ["BTCUSDT".to_string(), "ETHBTC".to_string(), "ETHUSDT".to_string()],
        fee,
    )
}

#[test]
fn new_triangle_holds_no_prices() {
    let t = triangle(1_000_000);
    assert_eq!(t.symbol_a(), "BTCUSDT");
    assert_eq!(t.symbol_b(), "ETHBTC");
    assert_eq!(t.symbol_c(), "ETHUSDT");
    assert_eq!(t.prices(), (0, 0, 0));
    assert_eq!(t.fee_ratio(), 999_000_000);
    assert_eq!(t.ab_reciprocal(), 0);
    assert_eq!(t.calculate_opportunity(), Err(false));
}

#[test]
fn tickers_set_ask_for_buying_legs_and_bid_for_selling_leg() {
    let mut t = triangle(1_000_000);
    assert_eq!(t.process_ticker(&ticker("BTCUSDT", 59_999 * SCALE, 60_000 * SCALE)), Ok(true));
    assert_eq!(t.process_ticker(&ticker("ETHBTC", 49_000_000, 50_000_000)), Ok(true));
    assert_eq!(t.process_ticker(&ticker("ETHUSDT", 3_100 * SCALE, 3_101 * SCALE)), Ok(true));
    assert_eq!(t.prices(), (60_000 * SCALE, 50_000_000, 3_100 * SCALE));
    assert_eq!(t.ab_reciprocal(), 333_333);
}

#[test]
fn repeated_or_foreign_ticker_changes_nothing() {
    let mut t = triangle(1_000_000);
    let order = ticker("BTCUSDT", 1, 60_000 * SCALE);
    assert_eq!(t.process_ticker(&order), Ok(true));
    let before = (t.prices(), t.ab_reciprocal());
    assert_eq!(t.process_ticker(&order), Err(false));
    assert_eq!((t.prices(), t.ab_reciprocal()), before);
    assert_eq!(t.process_ticker(&ticker("XRPUSDT", 5, 6)), Err(false));
    assert_eq!((t.prices(), t.ab_reciprocal()), before);
}

#[test]
fn reciprocal_follows_buying_prices() {
    let mut t = triangle(0);
    t.process_ticker(&ticker("BTCUSDT", 0, 2 * SCALE)).unwrap();
    assert_eq!(t.ab_reciprocal(), 0);
    t.process_ticker(&ticker("ETHBTC", 0, 4 * SCALE)).unwrap();
    assert_eq!(t.ab_reciprocal(), 125_000_000);
    t.process_ticker(&ticker("ETHUSDT", 9 * SCALE, 0)).unwrap();
    assert_eq!(t.ab_reciprocal(), 125_000_000);
    // a product that truncates to zero keeps the last reciprocal
    t.process_ticker(&ticker("ETHBTC", 0, 0)).unwrap();
    assert_eq!(t.prices(), (2 * SCALE, 0, 9 * SCALE));
    assert_eq!(t.ab_reciprocal(), 125_000_000);
}

#[test]
fn profitable_loop_is_reported_net_of_fees() {
    let mut t = triangle(1_000_000);
    t.process_ticker(&ticker("BTCUSDT", 0, 60_000 * SCALE)).unwrap();
    t.process_ticker(&ticker("ETHBTC", 0, 50_000_000)).unwrap();
    t.process_ticker(&ticker("ETHUSDT", 3_100 * SCALE, 0)).unwrap();
    assert_eq!(t.calculate_opportunity(), Ok(1_030_235_402));
    t.process_ticker(&ticker("ETHUSDT", 2_900 * SCALE, 0)).unwrap();
    assert_eq!(t.calculate_opportunity(), Err(false));
}

#[test]
fn full_fee_never_pays() {
    let mut t = triangle(SCALE);
    assert_eq!(t.fee_ratio(), 0);
    t.process_ticker(&ticker("BTCUSDT", 0, SCALE)).unwrap();
    t.process_ticker(&ticker("ETHBTC", 0, SCALE)).unwrap();
    t.process_ticker(&ticker("ETHUSDT", 1_000 * SCALE, 0)).unwrap();
    assert_eq!(t.calculate_opportunity(), Err(false));
}

#[test]
fn higher_sell_price_never_lowers_return() {
    let mut t = triangle(1_000_000);
    t.process_ticker(&ticker("BTCUSDT", 0, 60_000 * SCALE)).unwrap();
    t.process_ticker(&ticker("ETHBTC", 0, 50_000_000)).unwrap();
    let mut last = 0;
    for c in [3_050u128, 3_080, 3_100, 3_200] {
        t.process_ticker(&ticker("ETHUSDT", c * SCALE, 0)).unwrap();
        let net = t.calculate_opportunity().unwrap_or(0);
        assert!(net >= last);
        last = net;
    }
    assert!(last > SCALE);
}

#[test]
fn analysis_reports_each_outcome() {
    let mut t = triangle(1_000_000);
    assert_eq!(analyze_ticker(&mut t, &ticker("XRPUSDT", 1, 1)), TickerOutcome::Ignored);
    assert_eq!(analyze_ticker(&mut t, &ticker("BTCUSDT", 0, 60_000 * SCALE)), TickerOutcome::Updated);
    assert_eq!(analyze_ticker(&mut t, &ticker("ETHBTC", 0, 50_000_000)), TickerOutcome::Updated);
    assert_eq!(
        analyze_ticker(&mut t, &ticker("ETHUSDT", 3_100 * SCALE, 0)),
        TickerOutcome::Opportunity(1_030_235_402)
    );
    assert_eq!(analyze_ticker(&mut t, &ticker("ETHUSDT", 3_100 * SCALE, 0)), TickerOutcome::Ignored);
    assert_eq!(analyze_ticker(&mut t, &ticker("ETHUSDT", 2_900 * SCALE, 0)), TickerOutcome::Updated);
}

#[test]
fn analysis_reports_overflow_without_changing_the_triangle() {
    let mut t = triangle(1_000_000);
    analyze_ticker(&mut t, &ticker("ETHBTC", 0, 50_000_000));
    let before = t.prices();
    assert_eq!(analyze_ticker(&mut t, &ticker("BTCUSDT", 0, u128::MAX)), TickerOutcome::Overflow);
    assert_eq!(t.prices(), before);
}

#[test]
fn without_fee_net_return_is_gross_return() {
    let mut t = triangle(0);
    assert_eq!(t.fee_ratio(), SCALE);
    t.process_ticker(&ticker("BTCUSDT", 0, 2 * SCALE)).unwrap();
    t.process_ticker(&ticker("ETHBTC", 0, 4 * SCALE)).unwrap();
    t.process_ticker(&ticker("ETHUSDT", 10 * SCALE, 0)).unwrap();
    assert_eq!(t.calculate_opportunity(), Ok(1_250_000_000));
}
