//! Core of a cross-exchange order-book tracker.
//!
//! Connectors feed normalized books from each exchange into a merger, which
//! keeps the newest book per exchange and recomputes a consolidated top-N
//! view (a `Summary`) on every input, publishing it only when it changed.
//! The I/O shell (sockets, HTTP, channels) lives outside this crate; the
//! data model, the message grammars and the merge logic live here.

pub mod binance;
pub mod bitstamp;
pub mod config;
pub mod decimal;
pub mod exchange_listener;
pub mod json;
pub mod server;
pub mod strutil;

use vstd::prelude::*;

verus! {

/// Error classes of the tracker.
///
/// `Cnnection` errors are transient and recovered by reconnecting;
/// `Config` and `Other` errors are fatal and surface to the supervisor.
#[derive(Debug, Clone)]
pub enum TrackerError {
    Cnnection(String),
    Config(String),
    Other(String),
}

impl From<String> for TrackerError {
    fn from(s: String) -> (r: Self) {
        TrackerError::Other(s)
    }
}

impl vstd::std_specs::convert::FromSpecImpl<String> for TrackerError {
    open spec fn obeys_from_spec() -> bool {
        true
    }

    open spec fn from_spec(s: String) -> Self {
        TrackerError::Other(s)
    }
}

/// The exchanges a book can come from.
#[derive(PartialEq, Eq, Structural, Debug, Clone, Copy)]
pub enum Exchange {
    Binance,
    Bitstamp,
}

/// How many exchanges there are; per-exchange arrays have this length.
pub const EXCHANGE_COUNT: usize = 2;

impl Exchange {
    /// Dense index of this exchange, used into per-source arrays.
    pub open spec fn spec_index(self) -> int {
        match self {
            Exchange::Binance => 0,
            Exchange::Bitstamp => 1,
        }
    }

    pub fn index(&self) -> (i: usize)
        ensures
            i == self.spec_index(),
            i < EXCHANGE_COUNT,
    {
        match self {
            Exchange::Binance => 0,
            Exchange::Bitstamp => 1,
        }
    }

    /// The stringified identifier, as it appears in published levels.
    pub open spec fn spec_name(self) -> Seq<char> {
        match self {
            Exchange::Binance => "Binance"@,
            Exchange::Bitstamp => "Bitstamp"@,
        }
    }

    pub fn name(&self) -> (r: &'static str)
        ensures
            r@ == self.spec_name(),
    {
        match self {
            Exchange::Binance => "Binance",
            Exchange::Bitstamp => "Bitstamp",
        }
    }
}

/// Generalized order data.
///
/// Prices and quantities are fixed-point decimals scaled by `decimal::SCALE`;
/// `id` is the process-wide arrival sequence number, assigned at
/// normalization time and unique across all orders of a run.
#[derive(PartialEq, Eq, Structural, Debug, Clone, Copy)]
pub struct Order {
    pub price: u64,
    pub quantity: u64,
    pub id: u64,
    pub exchange: Exchange,
}

/// The deterministic total preference order on orders.
///
/// Primary: price (higher wins for bids, lower wins for asks); tie on price:
/// higher quantity wins; tie on both: the older order (smaller `id`) wins.
pub open spec fn spec_better(a: Order, b: Order, bids: bool) -> bool {
    if a.price != b.price {
        if bids {
            a.price > b.price
        } else {
            a.price < b.price
        }
    } else if a.quantity != b.quantity {
        a.quantity > b.quantity
    } else {
        a.id < b.id
    }
}

impl Order {
    /// Whether `self` is preferred over `other` on the given side.
    pub fn better(&self, other: &Order, bids: bool) -> (r: bool)
        ensures
            r == spec_better(*self, *other, bids),
    {
        // Compare prices
        if bids {
            if self.price > other.price {
                return true;
            } else if self.price < other.price {
                return false;
            }
        } else if self.price < other.price {
            return true;
        } else if self.price > other.price {
            return false;
        }

        // If prices are equal compare quantities
        if self.quantity > other.quantity {
            return true;
        } else if self.quantity < other.quantity {
            return false;
        }

        // If quantities are equal, better = older (smaller id)
        self.id < other.id
    }
}

/// Ghost shape of an `OrderBook`.
pub struct BookV {
    pub exchange: Exchange,
    pub bids: Seq<Order>,
    pub asks: Seq<Order>,
}

/// Generalized order book data: the newest top-N snapshot from one exchange.
#[derive(Debug, Clone)]
pub struct OrderBook {
    pub exchange: Exchange,
    pub bids: Vec<Order>,
    pub asks: Vec<Order>,
}

impl View for OrderBook {
    type V = BookV;

    open spec fn view(&self) -> BookV {
        BookV { exchange: self.exchange, bids: self.bids@, asks: self.asks@ }
    }
}

impl Default for OrderBook {
    /// An empty book, attributed to an arbitrary fixed exchange.
    fn default() -> (r: Self)
        ensures
            r@.bids.len() == 0,
            r@.asks.len() == 0,
            r@.exchange == Exchange::Binance,
    {
        Self { exchange: Exchange::Binance, bids: Vec::new(), asks: Vec::new() }
    }
}

/// As many raw levels as fit within depth.
pub open spec fn depth_clip(n: int) -> int {
    if n <= exchange_listener::MAX_DEPTH {
        n
    } else {
        exchange_listener::MAX_DEPTH as int
    }
}

/// The canonical book a raw Binance snapshot becomes: both sides
/// truncated to depth, tagged with the exchange, and given fresh sequence
/// numbers `seq_base, seq_base+1, ...`, bids first.
pub open spec fn spec_from_binance(b: binance::api::RawBookV, seq_base: u64) -> BookV {
    let nb = depth_clip(b.bids.len() as int);
    let na = depth_clip(b.asks.len() as int);
    BookV {
        exchange: Exchange::Binance,
        bids: Seq::new(
            nb as nat,
            |i: int|
                Order {
                    price: b.bids[i].price,
                    quantity: b.bids[i].quantity,
                    id: (seq_base + i) as u64,
                    exchange: Exchange::Binance,
                },
        ),
        asks: Seq::new(
            na as nat,
            |j: int|
                Order {
                    price: b.asks[j].price,
                    quantity: b.asks[j].quantity,
                    id: (seq_base + nb + j) as u64,
                    exchange: Exchange::Binance,
                },
        ),
    }
}

/// The canonical book a raw Bitstamp snapshot becomes; as for Binance.
pub open spec fn spec_from_bitstamp(b: bitstamp::api::RawBookV, seq_base: u64) -> BookV {
    let nb = depth_clip(b.bids.len() as int);
    let na = depth_clip(b.asks.len() as int);
    BookV {
        exchange: Exchange::Bitstamp,
        bids: Seq::new(
            nb as nat,
            |i: int|
                Order {
                    price: b.bids[i].price,
                    quantity: b.bids[i].quantity,
                    id: (seq_base + i) as u64,
                    exchange: Exchange::Bitstamp,
                },
        ),
        asks: Seq::new(
            na as nat,
            |j: int|
                Order {
                    price: b.asks[j].price,
                    quantity: b.asks[j].quantity,
                    id: (seq_base + nb + j) as u64,
                    exchange: Exchange::Bitstamp,
                },
        ),
    }
}

/// Room one normalization needs in the sequence counter: both sides of
/// one book, truncated to depth.
pub const SEQ_SPAN: u64 = 20;

impl OrderBook {
    /// Normalize a raw Binance snapshot.
    pub fn from_binance(book: &binance::api::OrderBook, seq_base: u64) -> (r: OrderBook)
        requires
            seq_base <= u64::MAX - SEQ_SPAN,
        ensures
            r@ == spec_from_binance(book@, seq_base),
    {
        let nb = if book.bids.len() <= exchange_listener::MAX_DEPTH {
            book.bids.len()
        } else {
            exchange_listener::MAX_DEPTH
        };
        let na = if book.asks.len() <= exchange_listener::MAX_DEPTH {
            book.asks.len()
        } else {
            exchange_listener::MAX_DEPTH
        };
        let mut bids: Vec<Order> = Vec::new();
        let mut i: usize = 0;
        while i < nb
            invariant
                0 <= i <= nb <= book.bids@.len(),
                nb == depth_clip(book.bids@.len() as int),
                seq_base <= u64::MAX - SEQ_SPAN,
                bids@ =~= spec_from_binance(book@, seq_base).bids.take(i as int),
            decreases nb - i,
        {
            let o = book.bids[i];
            bids.push(
                Order {
                    price: o.price,
                    quantity: o.quantity,
                    id: seq_base + (i as u64),
                    exchange: Exchange::Binance,
                },
            );
            proof {
                assert(bids@ =~= spec_from_binance(book@, seq_base).bids.take(i + 1));
            }
            i = i + 1;
        }
        let mut asks: Vec<Order> = Vec::new();
        let mut j: usize = 0;
        while j < na
            invariant
                0 <= j <= na <= book.asks@.len(),
                na == depth_clip(book.asks@.len() as int),
                nb == depth_clip(book.bids@.len() as int),
                nb <= exchange_listener::MAX_DEPTH,
                seq_base <= u64::MAX - SEQ_SPAN,
                asks@ =~= spec_from_binance(book@, seq_base).asks.take(j as int),
            decreases na - j,
        {
            let o = book.asks[j];
            asks.push(
                Order {
                    price: o.price,
                    quantity: o.quantity,
                    id: seq_base + (nb as u64) + (j as u64),
                    exchange: Exchange::Binance,
                },
            );
            proof {
                assert(asks@ =~= spec_from_binance(book@, seq_base).asks.take(j + 1));
            }
            j = j + 1;
        }
        let r = OrderBook { exchange: Exchange::Binance, bids, asks };
        proof {
            assert(r@.bids =~= spec_from_binance(book@, seq_base).bids);
            assert(r@.asks =~= spec_from_binance(book@, seq_base).asks);
        }
        r
    }

    /// Normalize a raw Bitstamp snapshot.
    pub fn from_bitstamp(book: &bitstamp::api::OrderBook, seq_base: u64) -> (r: OrderBook)
        requires
            seq_base <= u64::MAX - SEQ_SPAN,
        ensures
            r@ == spec_from_bitstamp(book@, seq_base),
    {
        let nb = if book.bids.len() <= exchange_listener::MAX_DEPTH {
            book.bids.len()
        } else {
            exchange_listener::MAX_DEPTH
        };
        let na = if book.asks.len() <= exchange_listener::MAX_DEPTH {
            book.asks.len()
        } else {
            exchange_listener::MAX_DEPTH
        };
        let mut bids: Vec<Order> = Vec::new();
        let mut i: usize = 0;
        while i < nb
            invariant
                0 <= i <= nb <= book.bids@.len(),
                nb == depth_clip(book.bids@.len() as int),
                seq_base <= u64::MAX - SEQ_SPAN,
                bids@ =~= spec_from_bitstamp(book@, seq_base).bids.take(i as int),
            decreases nb - i,
        {
            let o = book.bids[i];
            bids.push(
                Order {
                    price: o.price,
                    quantity: o.quantity,
                    id: seq_base + (i as u64),
                    exchange: Exchange::Bitstamp,
                },
            );
            proof {
                assert(bids@ =~= spec_from_bitstamp(book@, seq_base).bids.take(i + 1));
            }
            i = i + 1;
        }
        let mut asks: Vec<Order> = Vec::new();
        let mut j: usize = 0;
        while j < na
            invariant
                0 <= j <= na <= book.asks@.len(),
                na == depth_clip(book.asks@.len() as int),
                nb == depth_clip(book.bids@.len() as int),
                nb <= exchange_listener::MAX_DEPTH,
                seq_base <= u64::MAX - SEQ_SPAN,
                asks@ =~= spec_from_bitstamp(book@, seq_base).asks.take(j as int),
            decreases na - j,
        {
            let o = book.asks[j];
            asks.push(
                Order {
                    price: o.price,
                    quantity: o.quantity,
                    id: seq_base + (nb as u64) + (j as u64),
                    exchange: Exchange::Bitstamp,
                },
            );
            proof {
                assert(asks@ =~= spec_from_bitstamp(book@, seq_base).asks.take(j + 1));
            }
            j = j + 1;
        }
        let r = OrderBook { exchange: Exchange::Bitstamp, bids, asks };
        proof {
            assert(r@.bids =~= spec_from_bitstamp(book@, seq_base).bids);
            assert(r@.asks =~= spec_from_bitstamp(book@, seq_base).asks);
        }
        r
    }
}

/// A websocket frame as the shell hands it to a connector: a ping with
/// its payload, a text frame, or anything else.
#[derive(Debug, Clone)]
pub enum WsFrame {
    Ping(Vec<u8>),
    Text(String),
    Other,
}

/// What a connector asks the shell to do with a received frame.
#[derive(Debug)]
pub enum UpdateAction {
    Pong(Vec<u8>),
    Forward(OrderBook),
    Ignore,
}

} // verus!
