use exchange_tracker::binance;
use exchange_tracker::bitstamp;
use exchange_tracker::decimal::format_decimal;
use exchange_tracker::decimal::parse_decimal;
use exchange_tracker::decimal::SCALE;

#[test]
fn decimal_whole_numbers() {
    assert_eq!(parse_decimal("0"), Some(0));
    assert_eq!(parse_decimal("1"), Some(SCALE));
    assert_eq!(parse_decimal("42"), Some(42 * SCALE));
    assert_eq!(parse_decimal("007"), Some(7 * SCALE));
}

#[test]
fn decimal_fractions() {
    assert_eq!(parse_decimal("10.1"), Some(1_010_000_000));
    assert_eq!(parse_decimal("0.00000001"), Some(1));
    assert_eq!(parse_decimal("0.1"), Some(10_000_000));
    assert_eq!(parse_decimal("9.2"), Some(920_000_000));
    // Digits beyond the eighth fractional place are dropped.
    assert_eq!(parse_decimal("1.234567891"), Some(123_456_789));
    assert_eq!(parse_decimal("0.000000009"), Some(0));
}

#[test]
fn decimal_rejects_malformed() {
    assert_eq!(parse_decimal(""), None);
    assert_eq!(parse_decimal("."), None);
    assert_eq!(parse_decimal("1."), None);
    assert_eq!(parse_decimal(".5"), None);
    assert_eq!(parse_decimal("1.2.3"), None);
    assert_eq!(parse_decimal("-1"), None);
    assert_eq!(parse_decimal("1e5"), None);
    assert_eq!(parse_decimal("12a"), None);
    assert_eq!(parse_decimal(" 1"), None);
}

#[test]
fn decimal_rejects_overflow() {
    // Values past u64::MAX at the fixed scale are rejected.
    assert_eq!(parse_decimal("99999999999999999999"), None);
    assert_eq!(parse_decimal("184467440738"), None);
    assert_eq!(parse_decimal("184467440737"), Some(184_467_440_737 * SCALE));
}

#[test]
fn binance_depth_parses() {
    let text = r#"{"lastUpdateId":160,"bids":[["0.0024","10"],["0.0022","5"]],"asks":[["0.0026","100"]]}"#;
    let book = binance::api::parse_depth(text).unwrap();
    assert_eq!(book.last_update_id, 160);
    assert_eq!(book.bids.len(), 2);
    assert_eq!(book.bids[0].price, parse_decimal("0.0024").unwrap());
    assert_eq!(book.bids[0].quantity, 10 * SCALE);
    assert_eq!(book.bids[1].price, parse_decimal("0.0022").unwrap());
    assert_eq!(book.asks.len(), 1);
    assert_eq!(book.asks[0].quantity, 100 * SCALE);
}

#[test]
fn binance_depth_field_order_and_unknowns() {
    let text = r#" { "asks" : [] , "extra" : {"x": [1, true, null]} , "bids" : [["1.5","2"]] , "lastUpdateId" : 7 } "#;
    let book = binance::api::parse_depth(text).unwrap();
    assert_eq!(book.last_update_id, 7);
    assert_eq!(book.asks.len(), 0);
    assert_eq!(book.bids.len(), 1);
    assert_eq!(book.bids[0].price, parse_decimal("1.5").unwrap());
}

#[test]
fn binance_depth_rejects_bad_input() {
    // missing field
    assert!(binance::api::parse_depth(r#"{"bids":[],"asks":[]}"#).is_none());
    // wrong type
    assert!(binance::api::parse_depth(r#"{"lastUpdateId":"x","bids":[],"asks":[]}"#).is_none());
    // malformed price
    assert!(
        binance::api::parse_depth(r#"{"lastUpdateId":1,"bids":[["a","1"]],"asks":[]}"#).is_none()
    );
    // malformed JSON
    assert!(binance::api::parse_depth(r#"{"lastUpdateId":1,"bids":[["1","1"]]"#).is_none());
    // trailing garbage
    assert!(
        binance::api::parse_depth(r#"{"lastUpdateId":1,"bids":[],"asks":[]} x"#).is_none()
    );
    assert!(binance::api::parse_depth("").is_none());
}

#[test]
fn binance_info_parses() {
    let text = r#"{"timezone":"UTC","symbols":[{"symbol":"ETHBTC","status":"TRADING"},{"symbol":"LTCBTC"}]}"#;
    let info = binance::api::parse_info(text).unwrap();
    assert_eq!(info.symbols.len(), 2);
    assert_eq!(info.symbols[0].symbol, "ETHBTC");
    assert_eq!(info.symbols[1].symbol, "LTCBTC");

    let empty = binance::api::parse_info(r#"{"symbols":[]}"#).unwrap();
    assert_eq!(empty.symbols.len(), 0);

    assert!(binance::api::parse_info(r#"{"notsymbols":[]}"#).is_none());
    assert!(binance::api::parse_info(r#"{"symbols":[{"status":"TRADING"}]}"#).is_none());
}

#[test]
fn binance_changed_detects_differences() {
    let a = binance::api::parse_depth(
        r#"{"lastUpdateId":1,"bids":[["1.0","2"]],"asks":[["2.0","3"]]}"#,
    )
    .unwrap();
    let b = binance::api::parse_depth(
        r#"{"lastUpdateId":9,"bids":[["1.0","2"]],"asks":[["2.0","3"]]}"#,
    )
    .unwrap();
    let c = binance::api::parse_depth(
        r#"{"lastUpdateId":1,"bids":[["1.0","2.5"]],"asks":[["2.0","3"]]}"#,
    )
    .unwrap();
    // Same levels, different update id: unchanged.
    assert!(!a.changed(&b));
    assert!(a.changed(&c));
}

#[test]
fn bitstamp_update_parses() {
    let text = r#"{"event":"data","channel":"order_book_ethbtc","data":{"timestamp":"1712","microtimestamp":"1712000","bids":[["9.1","1.2"]],"asks":[["10.1","1.0"]]}}"#;
    let up = bitstamp::api::parse_update(text).unwrap();
    assert_eq!(up.event, "data");
    assert_eq!(up.channel, "order_book_ethbtc");
    let book = up.data.unwrap();
    assert_eq!(book.timestamp, "1712");
    assert_eq!(book.microtimestamp, "1712000");
    assert_eq!(book.bids[0].price, parse_decimal("9.1").unwrap());
    assert_eq!(book.asks[0].quantity, SCALE);
}

#[test]
fn bitstamp_update_without_data() {
    let up =
        bitstamp::api::parse_update(r#"{"event":"hb","channel":"c"}"#).unwrap();
    assert!(up.data.is_none());
    let up2 = bitstamp::api::parse_update(r#"{"event":"hb","channel":"c","data":null}"#)
        .unwrap();
    assert!(up2.data.is_none());
    // An object without the book fields is an error, not "no data".
    assert!(
        bitstamp::api::parse_update(r#"{"event":"hb","channel":"c","data":{}}"#).is_none()
    );
    // Missing event or channel is an error.
    assert!(bitstamp::api::parse_update(r#"{"channel":"c"}"#).is_none());
    assert!(bitstamp::api::parse_update(r#"{"event":"hb"}"#).is_none());
}

#[test]
fn bitstamp_subs_parses() {
    let sub = bitstamp::api::parse_subs(
        r#"{"event":"bts:subscription_succeeded","channel":"order_book_ethbtc"}"#,
    )
    .unwrap();
    assert_eq!(sub.event, "bts:subscription_succeeded");
    assert_eq!(sub.channel, "order_book_ethbtc");
    assert!(bitstamp::api::parse_subs("[1,2]").is_none());
}

#[test]
fn bitstamp_pairs_info_parses() {
    let text = r#"[{"name":"ETH/BTC","url_symbol":"ethbtc"},{"url_symbol":"btcusd"}]"#;
    let info = bitstamp::api::parse_pairs_info(text).unwrap();
    assert_eq!(info.len(), 2);
    assert_eq!(info[0].url_symbol, "ethbtc");
    assert_eq!(info[1].url_symbol, "btcusd");

    let empty = bitstamp::api::parse_pairs_info("[]").unwrap();
    assert!(empty.is_empty());

    assert!(bitstamp::api::parse_pairs_info(r#"[{"name":"x"}]"#).is_none());
    assert!(bitstamp::api::parse_pairs_info(r#"{"url_symbol":"x"}"#).is_none());
}

#[test]
fn bitstamp_changed_detects_differences() {
    let a = bitstamp::api::parse_update(
        r#"{"event":"data","channel":"c","data":{"timestamp":"1","microtimestamp":"2","bids":[["1.0","2"]],"asks":[]}}"#,
    )
    .unwrap()
    .data
    .unwrap();
    let b = bitstamp::api::parse_update(
        r#"{"event":"data","channel":"c","data":{"timestamp":"9","microtimestamp":"8","bids":[["1.0","2"]],"asks":[]}}"#,
    )
    .unwrap()
    .data
    .unwrap();
    let c = bitstamp::api::parse_update(
        r#"{"event":"data","channel":"c","data":{"timestamp":"1","microtimestamp":"2","bids":[],"asks":[]}}"#,
    )
    .unwrap()
    .data
    .unwrap();
    // Same levels, different timestamps: unchanged.
    assert!(!a.changed(&b));
    assert!(a.changed(&c));
}

#[test]
fn subscribe_request_wire_form() {
    let req = bitstamp::api::SubscribeRequest::new("ethbtc");
    assert_eq!(
        req.to_json(),
        r#"{"event":"bts:subscribe","data":{"channel":"order_book_ethbtc"}}"#
    );
}

#[test]
fn strings_must_not_escape() {
    // The supported subset rejects escape sequences rather than decoding
    // them; such a message counts as malformed.
    assert!(bitstamp::api::parse_subs(r#"{"event":"a\"b","channel":"c"}"#).is_none());
}

#[test]
fn decimal_formats() {
    assert_eq!(format_decimal(0), "0");
    assert_eq!(format_decimal(SCALE), "1");
    assert_eq!(format_decimal(1_010_000_000), "10.1");
    assert_eq!(format_decimal(1), "0.00000001");
    assert_eq!(format_decimal(123_456_789), "1.23456789");
    assert_eq!(format_decimal(90_000_000), "0.9");
    assert_eq!(format_decimal(1_020_000), "0.0102");
}

#[test]
fn decimal_round_trips() {
    for v in [0u64, 1, 7, SCALE, SCALE + 1, 90_000_000, 1_010_000_000, u64::MAX] {
        let s = format_decimal(v);
        assert_eq!(parse_decimal(&s), Some(v), "value {} printed as {}", v, s);
    }
}
