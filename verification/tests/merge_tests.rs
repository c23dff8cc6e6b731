use exchange_tracker::decimal::parse_decimal;
use exchange_tracker::decimal::SCALE;
use exchange_tracker::exchange_listener::ExchangeListener;
use exchange_tracker::Exchange;
use exchange_tracker::Order;
use exchange_tracker::OrderBook;

fn dec(s: &str) -> u64 {
    parse_decimal(s).expect("well-formed decimal")
}

fn order(price: &str, quantity: &str, id: u64, exchange: Exchange) -> Order {
    Order { price: dec(price), quantity: dec(quantity), id, exchange }
}

#[test]
fn test_megre() {
    let book1 = OrderBook { exchange: Exchange::Bitstamp, bids: vec![], asks: vec![] };

    let book2 = OrderBook { exchange: Exchange::Binance, bids: vec![], asks: vec![] };

    let mut books = vec![book1, book2];

    assert!(ExchangeListener::merge(&books).is_err());

    books[0].asks.push(order("10.1", "1.0", 1, Exchange::Bitstamp));
    books[0].asks.push(order("11.1", "2.0", 2, Exchange::Bitstamp));
    books[0].asks.push(order("12.1", "3.0", 3, Exchange::Bitstamp));

    books[0].bids.push(order("9.1", "1.2", 4, Exchange::Bitstamp));
    books[0].bids.push(order("8.1", "77.0", 5, Exchange::Bitstamp));
    books[0].bids.push(order("7.1", "3.0", 6, Exchange::Bitstamp));

    books[1].asks.push(order("10.2", "1.0", 7, Exchange::Binance));
    books[1].asks.push(order("11.0", "2.0", 8, Exchange::Binance));
    books[1].asks.push(order("12.1", "5.0", 9, Exchange::Binance));

    books[1].bids.push(order("9.2", "1.0", 10, Exchange::Binance));
    books[1].bids.push(order("8.1", "1.0", 11, Exchange::Binance));
    books[1].bids.push(order("0.1", "3.0", 12, Exchange::Binance));

    let merged = ExchangeListener::merge(&books).unwrap();

    assert_eq!(merged.spread, dec("0.9") as i128);
    assert!(merged.bids[0].exchange.name() == "Binance");
    assert_eq!(merged.bids[0].amount, dec("1.0"));
    assert!(merged.bids[1].exchange.name() == "Bitstamp");
    assert_eq!(merged.bids[1].amount, dec("1.2"));
    assert!(merged.bids[2].exchange.name() == "Bitstamp");
    assert_eq!(merged.bids[2].amount, dec("77.0"));
    assert_eq!(merged.bids[3].amount, dec("1.0"));
}

// The worked example in full: the top of the merged bids, the merged asks,
// and the exact spread.
#[test]
fn worked_example_full() {
    let mut bitstamp = OrderBook { exchange: Exchange::Bitstamp, bids: vec![], asks: vec![] };
    let mut binance = OrderBook { exchange: Exchange::Binance, bids: vec![], asks: vec![] };

    bitstamp.asks.push(order("10.1", "1.0", 1, Exchange::Bitstamp));
    bitstamp.asks.push(order("11.1", "2.0", 2, Exchange::Bitstamp));
    bitstamp.asks.push(order("12.1", "3.0", 3, Exchange::Bitstamp));
    bitstamp.bids.push(order("9.1", "1.2", 4, Exchange::Bitstamp));
    bitstamp.bids.push(order("8.1", "77.0", 5, Exchange::Bitstamp));
    bitstamp.bids.push(order("7.1", "3.0", 6, Exchange::Bitstamp));

    binance.asks.push(order("10.2", "1.0", 7, Exchange::Binance));
    binance.asks.push(order("11.0", "2.0", 8, Exchange::Binance));
    binance.asks.push(order("12.1", "5.0", 9, Exchange::Binance));
    binance.bids.push(order("9.2", "1.0", 10, Exchange::Binance));
    binance.bids.push(order("8.1", "1.0", 11, Exchange::Binance));
    binance.bids.push(order("0.1", "3.0", 12, Exchange::Binance));

    let books = vec![bitstamp, binance];
    let merged = ExchangeListener::merge(&books).unwrap();

    // spread = 10.1 - 9.2 = 0.9, exactly.
    assert_eq!(merged.spread, (dec("10.1") as i128) - (dec("9.2") as i128));
    assert_eq!(merged.spread, 9 * (SCALE as i128) / 10);

    // Merged bids, best first. The tie at 8.1 goes to the higher quantity.
    let expect_bids = [
        (Exchange::Binance, "9.2", "1.0"),
        (Exchange::Bitstamp, "9.1", "1.2"),
        (Exchange::Bitstamp, "8.1", "77.0"),
        (Exchange::Binance, "8.1", "1.0"),
        (Exchange::Bitstamp, "7.1", "3.0"),
        (Exchange::Binance, "0.1", "3.0"),
    ];
    assert_eq!(merged.bids.len(), 6);
    for (level, (ex, price, amount)) in merged.bids.iter().zip(expect_bids.iter()) {
        assert_eq!(level.exchange, *ex);
        assert_eq!(level.price, dec(price));
        assert_eq!(level.amount, dec(amount));
    }

    // Merged asks, best (lowest) first; the 12.1 tie goes to quantity 5.0.
    let expect_asks = [
        (Exchange::Bitstamp, "10.1", "1.0"),
        (Exchange::Binance, "10.2", "1.0"),
        (Exchange::Binance, "11.0", "2.0"),
        (Exchange::Bitstamp, "11.1", "2.0"),
        (Exchange::Binance, "12.1", "5.0"),
        (Exchange::Bitstamp, "12.1", "3.0"),
    ];
    assert_eq!(merged.asks.len(), 6);
    for (level, (ex, price, amount)) in merged.asks.iter().zip(expect_asks.iter()) {
        assert_eq!(level.exchange, *ex);
        assert_eq!(level.price, dec(price));
        assert_eq!(level.amount, dec(amount));
    }
}

// Scenario: both books empty. The merge reports the undefined spread and a
// listener publishes nothing.
#[test]
fn empty_books_publish_nothing() {
    let books = vec![
        OrderBook { exchange: Exchange::Bitstamp, bids: vec![], asks: vec![] },
        OrderBook { exchange: Exchange::Binance, bids: vec![], asks: vec![] },
    ];
    assert!(ExchangeListener::merge(&books).is_err());

    let mut listener = ExchangeListener::new();
    let empty = OrderBook { exchange: Exchange::Binance, bids: vec![], asks: vec![] };
    assert!(listener.on_book(empty).is_none());
    assert!(listener.last_summary.is_none());
}

// Scenario: one side per venue. The merge succeeds, the spread spans the
// venues, and each side is drawn from exactly one source.
#[test]
fn single_side_books() {
    let bitstamp = OrderBook {
        exchange: Exchange::Bitstamp,
        bids: vec![
            order("9.1", "1.2", 1, Exchange::Bitstamp),
            order("8.1", "2.0", 2, Exchange::Bitstamp),
        ],
        asks: vec![],
    };
    let binance = OrderBook {
        exchange: Exchange::Binance,
        bids: vec![],
        asks: vec![
            order("10.2", "1.0", 3, Exchange::Binance),
            order("11.0", "2.0", 4, Exchange::Binance),
        ],
    };
    let books = vec![bitstamp, binance];
    let merged = ExchangeListener::merge(&books).unwrap();

    assert_eq!(merged.spread, (dec("10.2") as i128) - (dec("9.1") as i128));
    assert!(merged.bids.iter().all(|l| l.exchange == Exchange::Bitstamp));
    assert!(merged.asks.iter().all(|l| l.exchange == Exchange::Binance));
    assert_eq!(merged.bids.len(), 2);
    assert_eq!(merged.asks.len(), 2);
}

// Determinism: merging value-equal inputs twice gives value-equal outputs.
#[test]
fn merge_is_deterministic() {
    let books = vec![
        OrderBook {
            exchange: Exchange::Bitstamp,
            bids: vec![order("9.1", "1.2", 1, Exchange::Bitstamp)],
            asks: vec![order("10.1", "1.0", 2, Exchange::Bitstamp)],
        },
        OrderBook {
            exchange: Exchange::Binance,
            bids: vec![order("9.2", "1.0", 3, Exchange::Binance)],
            asks: vec![order("10.2", "1.0", 4, Exchange::Binance)],
        },
    ];
    let m1 = ExchangeListener::merge(&books).unwrap();
    let m2 = ExchangeListener::merge(&books).unwrap();
    assert!(m1 == m2);
}

// Tie-break: equal price and quantity resolved by the smaller sequence,
// and swapping the order of the input books does not change the result.
#[test]
fn tie_break_by_sequence_and_swap() {
    let a = OrderBook {
        exchange: Exchange::Bitstamp,
        bids: vec![order("9.1", "1.0", 7, Exchange::Bitstamp)],
        asks: vec![order("10.1", "1.0", 8, Exchange::Bitstamp)],
    };
    let b = OrderBook {
        exchange: Exchange::Binance,
        bids: vec![order("9.1", "1.0", 3, Exchange::Binance)],
        asks: vec![order("10.1", "1.0", 4, Exchange::Binance)],
    };

    let m1 = ExchangeListener::merge(&vec![a.clone(), b.clone()]).unwrap();
    // Equal price and quantity on both sides: Binance wins with the
    // smaller sequence numbers.
    assert_eq!(m1.bids[0].exchange, Exchange::Binance);
    assert_eq!(m1.bids[1].exchange, Exchange::Bitstamp);
    assert_eq!(m1.asks[0].exchange, Exchange::Binance);

    let m2 = ExchangeListener::merge(&vec![b, a]).unwrap();
    assert!(m1 == m2);
}

// The comparator itself: price first, then quantity, then age.
#[test]
fn better_ordering() {
    let cheap = order("9.0", "5.0", 1, Exchange::Binance);
    let dear = order("10.0", "1.0", 2, Exchange::Binance);
    assert!(dear.better(&cheap, true));
    assert!(!cheap.better(&dear, true));
    assert!(cheap.better(&dear, false));
    assert!(!dear.better(&cheap, false));

    let small = order("10.0", "1.0", 3, Exchange::Binance);
    let big = order("10.0", "2.0", 4, Exchange::Binance);
    assert!(big.better(&small, true));
    assert!(big.better(&small, false));

    let old = order("10.0", "1.0", 5, Exchange::Binance);
    let new = order("10.0", "1.0", 6, Exchange::Bitstamp);
    assert!(old.better(&new, true));
    assert!(old.better(&new, false));
    assert!(!new.better(&old, true));
}

// Suppression: two consecutive identical inputs produce at most one
// publish.
#[test]
fn suppression_on_identical_input() {
    let book = OrderBook {
        exchange: Exchange::Binance,
        bids: vec![order("9.2", "1.0", 1, Exchange::Binance)],
        asks: vec![order("10.2", "1.0", 2, Exchange::Binance)],
    };
    let mut listener = ExchangeListener::new();
    let first = listener.on_book(book.clone());
    assert!(first.is_some());
    let second = listener.on_book(book.clone());
    assert!(second.is_none());

    // A changed book publishes again.
    let changed = OrderBook {
        exchange: Exchange::Binance,
        bids: vec![order("9.3", "1.0", 3, Exchange::Binance)],
        asks: vec![order("10.2", "1.0", 4, Exchange::Binance)],
    };
    assert!(listener.on_book(changed).is_some());
}

// No cross-contamination: every level names the exchange of the order it
// came from.
#[test]
fn levels_keep_their_exchange() {
    let books = vec![
        OrderBook {
            exchange: Exchange::Bitstamp,
            bids: vec![order("9.1", "1.0", 1, Exchange::Bitstamp)],
            asks: vec![order("10.1", "1.0", 2, Exchange::Bitstamp)],
        },
        OrderBook {
            exchange: Exchange::Binance,
            bids: vec![order("9.2", "1.0", 3, Exchange::Binance)],
            asks: vec![order("10.2", "1.0", 4, Exchange::Binance)],
        },
    ];
    let merged = ExchangeListener::merge(&books).unwrap();
    assert_eq!(merged.bids[0].exchange, Exchange::Binance);
    assert_eq!(merged.bids[1].exchange, Exchange::Bitstamp);
    assert_eq!(merged.asks[0].exchange, Exchange::Bitstamp);
    assert_eq!(merged.asks[1].exchange, Exchange::Binance);
}

// Depth: never more than MAX_DEPTH levels per side.
#[test]
fn merge_truncates_to_depth() {
    let mut bids = Vec::new();
    let mut asks = Vec::new();
    for i in 0..9u64 {
        bids.push(Order {
            price: dec("9.0") - i * SCALE / 10,
            quantity: SCALE,
            id: i,
            exchange: Exchange::Bitstamp,
        });
        asks.push(Order {
            price: dec("10.0") + i * SCALE / 10,
            quantity: SCALE,
            id: 100 + i,
            exchange: Exchange::Bitstamp,
        });
    }
    let bitstamp = OrderBook { exchange: Exchange::Bitstamp, bids, asks };
    let binance = OrderBook {
        exchange: Exchange::Binance,
        bids: vec![order("9.05", "1.0", 50, Exchange::Binance)],
        asks: vec![order("10.05", "1.0", 51, Exchange::Binance)],
    };
    let merged = ExchangeListener::merge(&vec![bitstamp, binance]).unwrap();
    assert_eq!(merged.bids.len(), 10);
    assert_eq!(merged.asks.len(), 10);
    assert_eq!(merged.bids[0].exchange, Exchange::Binance);
    assert_eq!(merged.asks[1].exchange, Exchange::Binance);
}

// The wire rendering of a summary is exact decimal text.
#[test]
fn summary_json_line() {
    let books = vec![
        OrderBook {
            exchange: Exchange::Bitstamp,
            bids: vec![order("9.1", "1.2", 1, Exchange::Bitstamp)],
            asks: vec![order("10.1", "1.0", 2, Exchange::Bitstamp)],
        },
        OrderBook {
            exchange: Exchange::Binance,
            bids: vec![order("9.2", "1.0", 3, Exchange::Binance)],
            asks: vec![],
        },
    ];
    let merged = ExchangeListener::merge(&books).unwrap();
    let expected = "{\"spread\":0.9,\"bids\":[{\"exchange\":\"Binance\",\"price\":9.2,\"amount\":1},{\"exchange\":\"Bitstamp\",\"price\":9.1,\"amount\":1.2}],\"asks\":[{\"exchange\":\"Bitstamp\",\"price\":10.1,\"amount\":1}]}";
    assert_eq!(merged.to_json(), expected);

    // A crossed market gives a negative spread.
    let crossed = vec![
        OrderBook {
            exchange: Exchange::Bitstamp,
            bids: vec![order("10.5", "1.0", 4, Exchange::Bitstamp)],
            asks: vec![order("10.1", "1.0", 5, Exchange::Bitstamp)],
        },
        OrderBook { exchange: Exchange::Binance, bids: vec![], asks: vec![] },
    ];
    let m2 = ExchangeListener::merge(&crossed).unwrap();
    assert_eq!(m2.spread, -(dec("0.4") as i128));
    assert!(m2.to_json().starts_with(r#"{"spread":-0.4,"#));
}
