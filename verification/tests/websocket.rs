use triangular_arbitrage_bot::websocket::{
    endpoint_url, fill_pair_slots, stream_action, stream_url, EndpointError, RetryDelay,
    StreamAction, StreamEvent, WsFrame, MAX_RETRY_SECS,
};

fn pairs() -> [String; 3] {
    ["BTCUSDT".to_string(), "ETHBTC".to_string(), "ETHUSDT".to_string()]
}

#[test]
fn stream_url_fills_placeholders_with_lowercase_pairs() {
    let url = stream_url(
        "wss://stream.binance.com:9443/stream?streams=pair@bookTicker/pair@bookTicker/pair@bookTicker",
        &pairs(),
    );
    assert_eq!(
        url,
        "wss://stream.binance.com:9443/stream?streams=btcusdt@bookTicker/ethbtc@bookTicker/ethusdt@bookTicker"
    );
}

#[test]
fn stream_url_fills_extra_placeholders_with_nothing() {
    let url = stream_url("pair/pair/pair/pair/pairpair", &pairs());
    assert_eq!(url, "btcusdt/ethbtc/ethusdt//");
    let url = stream_url("ws://127.0.0.1:9001", &pairs());
    assert_eq!(url, "ws://127.0.0.1:9001");
    let url = stream_url("ppairrpaipair", &pairs());
    assert_eq!(url, "pbtcusdtrpaiethbtc");
}

#[test]
fn fill_pair_slots_joins_pieces() {
    let pieces = vec!["a-".to_string(), "-b-".to_string(), "-c".to_string()];
    assert_eq!(fill_pair_slots(&pieces, &pairs()), "a-btcusdt-b-ethbtc-c");
    let pieces: Vec<String> = vec![];
    assert_eq!(fill_pair_slots(&pieces, &pairs()), "");
    let pieces = vec!["only".to_string()];
    assert_eq!(fill_pair_slots(&pieces, &pairs()), "only");
}

#[test]
fn endpoint_url_parses_or_refuses() {
    let url = endpoint_url("ws://127.0.0.1:9001").unwrap();
    assert_eq!(url.as_str(), "ws://127.0.0.1:9001/");
    assert_eq!(endpoint_url("not a url").unwrap_err(), EndpointError::InvalidUrl);
}

#[test]
fn retry_delay_doubles_up_to_a_minute() {
    let mut delay = RetryDelay::new();
    let mut seen = vec![delay.secs()];
    for _ in 0..8 {
        delay.after_wait();
        seen.push(delay.secs());
    }
    assert_eq!(seen, vec![1, 2, 4, 8, 16, 32, 60, 60, 60]);
    delay.on_connected();
    assert_eq!(delay.secs(), 1);
    assert_eq!(MAX_RETRY_SECS, 60);
}

#[test]
fn stream_actions_follow_events() {
    assert_eq!(stream_action(StreamEvent::Frame(WsFrame::Text)), StreamAction::Publish);
    assert_eq!(stream_action(StreamEvent::Frame(WsFrame::Ping)), StreamAction::ReplyPong);
    assert_eq!(stream_action(StreamEvent::Frame(WsFrame::Close)), StreamAction::Stop);
    assert_eq!(stream_action(StreamEvent::Frame(WsFrame::Binary)), StreamAction::Continue);
    assert_eq!(stream_action(StreamEvent::Frame(WsFrame::Pong)), StreamAction::Continue);
    assert_eq!(stream_action(StreamEvent::Frame(WsFrame::Raw)), StreamAction::Continue);
    assert_eq!(stream_action(StreamEvent::ReadError), StreamAction::Stop);
    assert_eq!(stream_action(StreamEvent::Ended), StreamAction::Stop);
    assert_eq!(stream_action(StreamEvent::PongFailed), StreamAction::Stop);
    assert_eq!(stream_action(StreamEvent::Shutdown), StreamAction::Stop);
}
