use triangular_arbitrage_bot::config::{fee_is_readable, get_fee, get_pairs_for_triangle_arbitrage};

#[test]
fn pairs_are_the_first_three_pieces() {
    let pairs = get_pairs_for_triangle_arbitrage("BTCUSDT,ETHBTC,ETHUSDT");
    assert_eq!(pairs, ["BTCUSDT".to_string(), "ETHBTC".to_string(), "ETHUSDT".to_string()]);
}

#[test]
fn missing_pairs_are_empty() {
    let pairs = get_pairs_for_triangle_arbitrage("BTCUSDT,ETHBTC");
    assert_eq!(pairs, ["BTCUSDT".to_string(), "ETHBTC".to_string(), String::new()]);
    let pairs = get_pairs_for_triangle_arbitrage("");
    assert_eq!(pairs, [String::new(), String::new(), String::new()]);
}

#[test]
fn extra_pairs_are_dropped_and_empty_pieces_kept() {
    let pairs = get_pairs_for_triangle_arbitrage("A,B,C,D");
    assert_eq!(pairs, ["A".to_string(), "B".to_string(), "C".to_string()]);
    let pairs = get_pairs_for_triangle_arbitrage(",X,");
    assert_eq!(pairs, [String::new(), "X".to_string(), String::new()]);
    let pairs = get_pairs_for_triangle_arbitrage("BTC USDT ,é");
    assert_eq!(pairs, ["BTC USDT ".to_string(), "é".to_string(), String::new()]);
}

#[test]
fn fee_reads_as_u128() {
    assert_eq!(get_fee("1000000"), 1_000_000);
    assert_eq!(get_fee("+75"), 75);
    assert_eq!(get_fee("0"), 0);
    assert_eq!(get_fee("340282366920938463463374607431768211455"), u128::MAX);
    assert!(fee_is_readable("1000000"));
    assert!(fee_is_readable("+75"));
}

#[test]
fn unreadable_fee_is_refused() {
    assert!(!fee_is_readable(""));
    assert!(!fee_is_readable("+"));
    assert!(!fee_is_readable("-1"));
    assert!(!fee_is_readable("0.1"));
    assert!(!fee_is_readable(" 5"));
    assert!(!fee_is_readable("340282366920938463463374607431768211456"));
}
