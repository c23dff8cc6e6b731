use exchange_tracker::binance;
use exchange_tracker::bitstamp;
use exchange_tracker::config::BinanceConfig;
use exchange_tracker::config::BitstampConfig;
use exchange_tracker::decimal::parse_decimal;
use exchange_tracker::Exchange;
use exchange_tracker::TrackerError;
use exchange_tracker::UpdateAction;
use exchange_tracker::WsFrame;

fn binance_sub(symbol: &str) -> binance::BinanceSubscriber {
    binance::BinanceSubscriber::new(BinanceConfig { symbol: symbol.to_string() }).unwrap()
}

fn bitstamp_sub(symbol: &str) -> bitstamp::BitstampSubscriber {
    bitstamp::BitstampSubscriber::new(BitstampConfig { symbol: symbol.to_string() }).unwrap()
}

#[test]
fn binance_depth_url_lowercases_symbol() {
    let sub = binance_sub("ETHBTC");
    assert_eq!(sub.depth_url(), "wss://stream.binance.com:9443/ws/ethbtc@depth10@100ms");
}

#[test]
fn bitstamp_subscribe_payload_lowercases_symbol() {
    let sub = bitstamp_sub("ETHBTC");
    assert_eq!(
        sub.subscribe_payload(),
        r#"{"event":"bts:subscribe","data":{"channel":"order_book_ethbtc"}}"#
    );
}

#[test]
fn binance_check_config_decides() {
    let sub = binance_sub("ETHBTC");
    let listing = r#"{"symbols":[{"symbol":"BTCUSDT"},{"symbol":"ETHBTC"}]}"#;
    assert!(sub.check_config(listing).is_ok());

    let other = binance_sub("DOGEBTC");
    match other.check_config(listing) {
        Err(TrackerError::Config(msg)) => assert!(msg.contains("DOGEBTC")),
        _ => panic!("expected a Config error"),
    }

    match sub.check_config("not json") {
        Err(TrackerError::Other(_)) => {},
        _ => panic!("expected an Other error"),
    }
}

#[test]
fn bitstamp_check_config_decides() {
    let sub = bitstamp_sub("ETHBTC");
    let listing = r#"[{"url_symbol":"ethbtc"},{"url_symbol":"btcusd"}]"#;
    assert!(sub.check_config(listing).is_ok());

    let other = bitstamp_sub("DOGEBTC");
    match other.check_config(listing) {
        Err(TrackerError::Config(_)) => {},
        _ => panic!("expected a Config error"),
    }

    match sub.check_config("{}") {
        Err(TrackerError::Other(_)) => {},
        _ => panic!("expected an Other error"),
    }
}

#[test]
fn binance_state_machine_transitions() {
    let mut sub = binance_sub("ETHBTC");
    assert_eq!(sub.status, binance::ConnectionStatus::Disconnected);
    assert_eq!(sub.process_step(), binance::Step::Establish);
    sub.on_connected();
    assert_eq!(sub.status, binance::ConnectionStatus::Updating);
    assert_eq!(sub.process_step(), binance::Step::Receive);
    sub.on_disconnect();
    assert_eq!(sub.status, binance::ConnectionStatus::Disconnected);
}

#[test]
fn bitstamp_state_machine_transitions() {
    let mut sub = bitstamp_sub("ETHBTC");
    assert_eq!(sub.process_step(), bitstamp::Step::Establish);
    sub.on_connected();
    assert_eq!(sub.status, bitstamp::ConnectionStatus::Connected);
    assert_eq!(sub.process_step(), bitstamp::Step::Subscribe);
    sub.on_subscribe_sent();
    assert_eq!(sub.status, bitstamp::ConnectionStatus::SubscribtionSent);
    assert_eq!(sub.process_step(), bitstamp::Step::AwaitAck);
    sub.on_subscribed();
    assert_eq!(sub.status, bitstamp::ConnectionStatus::Updating);
    assert_eq!(sub.process_step(), bitstamp::Step::Receive);
    sub.on_disconnect();
    assert_eq!(sub.status, bitstamp::ConnectionStatus::Disconnected);
}

#[test]
fn binance_rcv_update_echoes_ping() {
    let mut sub = binance_sub("ETHBTC");
    match sub.rcv_update(WsFrame::Ping(vec![1, 2, 3]), 0).unwrap() {
        UpdateAction::Pong(p) => assert_eq!(p, vec![1, 2, 3]),
        _ => panic!("expected a pong"),
    }
}

#[test]
fn binance_rcv_update_discards_empty_and_non_text() {
    let mut sub = binance_sub("ETHBTC");
    // Non-text (non-ping) frames and empty frames are discarded.
    assert!(matches!(sub.rcv_update(WsFrame::Other, 0).unwrap(), UpdateAction::Ignore));
    assert!(matches!(
        sub.rcv_update(WsFrame::Text(String::new()), 0).unwrap(),
        UpdateAction::Ignore
    ));
    // A malformed depth payload is still a fatal error.
    match sub.rcv_update(WsFrame::Text("not json".to_string()), 0) {
        Err(TrackerError::Other(_)) => {},
        _ => panic!("expected an Other error"),
    }
}

#[test]
fn binance_rcv_update_forwards_changes_only() {
    let mut sub = binance_sub("ETHBTC");
    let m1 = r#"{"lastUpdateId":1,"bids":[["9.2","1.0"]],"asks":[["10.2","1.5"]]}"#;
    // The first book is always forwarded, normalized and numbered.
    match sub.rcv_update(WsFrame::Text(m1.to_string()), 100).unwrap() {
        UpdateAction::Forward(ob) => {
            assert_eq!(ob.exchange, Exchange::Binance);
            assert_eq!(ob.bids.len(), 1);
            assert_eq!(ob.bids[0].price, parse_decimal("9.2").unwrap());
            assert_eq!(ob.bids[0].id, 100);
            assert_eq!(ob.bids[0].exchange, Exchange::Binance);
            assert_eq!(ob.asks[0].id, 101);
            assert_eq!(ob.asks[0].quantity, parse_decimal("1.5").unwrap());
        },
        _ => panic!("expected a forward"),
    }
    // The same levels with a new update id are suppressed.
    let m2 = r#"{"lastUpdateId":2,"bids":[["9.2","1.0"]],"asks":[["10.2","1.5"]]}"#;
    match sub.rcv_update(WsFrame::Text(m2.to_string()), 120).unwrap() {
        UpdateAction::Ignore => {},
        _ => panic!("expected a suppressed update"),
    }
    // A changed book is forwarded again.
    let m3 = r#"{"lastUpdateId":3,"bids":[["9.3","1.0"]],"asks":[["10.2","1.5"]]}"#;
    match sub.rcv_update(WsFrame::Text(m3.to_string()), 140).unwrap() {
        UpdateAction::Forward(ob) => {
            assert_eq!(ob.bids[0].price, parse_decimal("9.3").unwrap());
            assert_eq!(ob.bids[0].id, 140);
        },
        _ => panic!("expected a forward"),
    }
}

#[test]
fn bitstamp_rcv_update_flow() {
    let mut sub = bitstamp_sub("ETHBTC");
    // Pings are echoed, non-text and empty frames ignored.
    match sub.rcv_update(WsFrame::Ping(vec![7]), 0).unwrap() {
        UpdateAction::Pong(p) => assert_eq!(p, vec![7]),
        _ => panic!("expected a pong"),
    }
    assert!(matches!(sub.rcv_update(WsFrame::Other, 0).unwrap(), UpdateAction::Ignore));
    assert!(matches!(
        sub.rcv_update(WsFrame::Text(String::new()), 0).unwrap(),
        UpdateAction::Ignore
    ));

    // An update without data is an invalid event sequence.
    let hb = r#"{"event":"bts:heartbeat","channel":"c"}"#;
    match sub.rcv_update(WsFrame::Text(hb.to_string()), 0) {
        Err(TrackerError::Other(_)) => {},
        _ => panic!("expected an Other error"),
    }

    // A book update is normalized and forwarded, bids numbered first.
    let m1 = r#"{"event":"data","channel":"order_book_ethbtc","data":{"timestamp":"1","microtimestamp":"2","bids":[["9.1","1.2"]],"asks":[["10.1","1.0"]]}}"#;
    match sub.rcv_update(WsFrame::Text(m1.to_string()), 200).unwrap() {
        UpdateAction::Forward(ob) => {
            assert_eq!(ob.exchange, Exchange::Bitstamp);
            assert_eq!(ob.bids[0].id, 200);
            assert_eq!(ob.asks[0].id, 201);
            assert_eq!(ob.bids[0].exchange, Exchange::Bitstamp);
        },
        _ => panic!("expected a forward"),
    }
    // The same book with fresh timestamps is suppressed.
    let m2 = r#"{"event":"data","channel":"order_book_ethbtc","data":{"timestamp":"8","microtimestamp":"9","bids":[["9.1","1.2"]],"asks":[["10.1","1.0"]]}}"#;
    assert!(matches!(
        sub.rcv_update(WsFrame::Text(m2.to_string()), 220).unwrap(),
        UpdateAction::Ignore
    ));
}

#[test]
fn bitstamp_subscription_ack() {
    let sub = bitstamp_sub("ETHBTC");
    let ok = r#"{"event":"bts:subscription_succeeded","channel":"order_book_ethbtc"}"#;
    assert!(sub.rcv_subscription_info(&WsFrame::Text(ok.to_string())).is_ok());

    let bad = r#"{"event":"bts:error","channel":"order_book_ethbtc"}"#;
    match sub.rcv_subscription_info(&WsFrame::Text(bad.to_string())) {
        Err(TrackerError::Other(_)) => {},
        _ => panic!("expected an Other error"),
    }
    match sub.rcv_subscription_info(&WsFrame::Other) {
        Err(TrackerError::Other(_)) => {},
        _ => panic!("expected an Other error"),
    }
}

#[test]
fn reconnect_keeps_change_detection() {
    // Scenario: the socket drops and the connector reconnects; an
    // unchanged book after the reconnect is not forwarded again.
    let mut sub = binance_sub("ETHBTC");
    let m1 = r#"{"lastUpdateId":1,"bids":[["9.2","1.0"]],"asks":[["10.2","1.5"]]}"#;
    assert!(matches!(
        sub.rcv_update(WsFrame::Text(m1.to_string()), 0).unwrap(),
        UpdateAction::Forward(_)
    ));
    sub.on_disconnect();
    sub.on_connected();
    let m2 = r#"{"lastUpdateId":2,"bids":[["9.2","1.0"]],"asks":[["10.2","1.5"]]}"#;
    assert!(matches!(
        sub.rcv_update(WsFrame::Text(m2.to_string()), 20).unwrap(),
        UpdateAction::Ignore
    ));
}

#[test]
fn tracker_error_from_string() {
    let e = TrackerError::from("boom".to_string());
    match e {
        TrackerError::Other(msg) => assert_eq!(msg, "boom"),
        _ => panic!("expected an Other error"),
    }
}

#[test]
fn exchange_names_and_indexes() {
    assert_eq!(Exchange::Binance.name(), "Binance");
    assert_eq!(Exchange::Bitstamp.name(), "Bitstamp");
    assert_eq!(Exchange::Binance.index(), 0);
    assert_eq!(Exchange::Bitstamp.index(), 1);
    assert_eq!(exchange_tracker::EXCHANGE_COUNT, 2);
}

#[test]
fn endpoints_are_fixed() {
    assert_eq!(binance::info_endpoint(), "https://api.binance.com/api/v3/exchangeInfo");
    assert_eq!(bitstamp::info_endpoint(), "https://www.bitstamp.net/api/v2/trading-pairs-info/");
    assert_eq!(bitstamp::ex_endpoint(), "wss://ws.bitstamp.net");
}

#[test]
fn summary_default_is_empty() {
    let s = exchange_tracker::server::Summary::default();
    assert_eq!(s.spread, 0);
    assert!(s.bids.is_empty());
    assert!(s.asks.is_empty());
}
