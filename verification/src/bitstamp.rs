//! Bitstamp connector: the connection state machine and its decisions.
//!
//! Bitstamp is a subscribe-model exchange: after the websocket is open, a
//! `bts:subscribe` request names the order-book channel, the server must
//! acknowledge with a `subscription_succeeded` event, and only then do
//! book updates flow. The shell owns the socket and the HTTP client;
//! every decision is made here, on plain values.

pub mod api;

use vstd::prelude::*;

use crate::config::BitstampConfig;
use crate::strutil::lower_of;
use crate::strutil::spec_contains;
use crate::OrderBook;
use crate::TrackerError;
use crate::UpdateAction;
use crate::WsFrame;
use crate::SEQ_SPAN;

verus! {

/// The websocket endpoint of the live feed.
pub fn ex_endpoint() -> (r: &'static str)
    ensures
        r@ == "wss://ws.bitstamp.net"@,
{
    "wss://ws.bitstamp.net"
}

/// The trading-pairs endpoint queried to validate the configured symbol.
pub fn info_endpoint() -> (r: &'static str)
    ensures
        r@ == "https://www.bitstamp.net/api/v2/trading-pairs-info/"@,
{
    "https://www.bitstamp.net/api/v2/trading-pairs-info/"
}

/// Connection lifecycle: connect, subscribe, await the ack, then update.
#[derive(PartialEq, Eq, Structural, Debug, Clone, Copy)]
pub enum ConnectionStatus {
    Disconnected,
    Connected,
    SubscribtionSent,
    Updating,
}

/// What the shell must do next for this connector.
#[derive(PartialEq, Eq, Structural, Debug, Clone, Copy)]
pub enum Step {
    Establish,
    Subscribe,
    AwaitAck,
    Receive,
}

pub struct BitstampSubscriber {
    pub cfg: BitstampConfig,
    pub status: ConnectionStatus,
    pub last_book: Option<api::OrderBook>,
}

impl BitstampSubscriber {
    /// A fresh connector: disconnected, nothing forwarded yet.
    pub fn new(cfg: BitstampConfig) -> (r: Result<Self, String>)
        ensures
            match r {
                Ok(s) => {
                    &&& s.status == ConnectionStatus::Disconnected
                    &&& s.last_book is None
                    &&& s.cfg.symbol@ == cfg.symbol@
                },
                Err(_) => false,
            },
    {
        Ok(Self { cfg, status: ConnectionStatus::Disconnected, last_book: None })
    }

    /// What to run in the current state.
    pub fn process_step(&self) -> (r: Step)
        ensures
            r == (match self.status {
                ConnectionStatus::Disconnected => Step::Establish,
                ConnectionStatus::Connected => Step::Subscribe,
                ConnectionStatus::SubscribtionSent => Step::AwaitAck,
                ConnectionStatus::Updating => Step::Receive,
            }),
    {
        match self.status {
            ConnectionStatus::Disconnected => Step::Establish,
            ConnectionStatus::Connected => Step::Subscribe,
            ConnectionStatus::SubscribtionSent => Step::AwaitAck,
            ConnectionStatus::Updating => Step::Receive,
        }
    }

    /// The websocket is open: ready to subscribe.
    pub fn on_connected(&mut self)
        ensures
            final(self).status == ConnectionStatus::Connected,
            final(self).cfg == old(self).cfg,
            final(self).last_book == old(self).last_book,
    {
        self.status = ConnectionStatus::Connected;
    }

    /// The subscription request is on the wire: await its ack.
    pub fn on_subscribe_sent(&mut self)
        ensures
            final(self).status == ConnectionStatus::SubscribtionSent,
            final(self).cfg == old(self).cfg,
            final(self).last_book == old(self).last_book,
    {
        self.status = ConnectionStatus::SubscribtionSent;
    }

    /// The channel is subscribed: move to the steady state.
    pub fn on_subscribed(&mut self)
        ensures
            final(self).status == ConnectionStatus::Updating,
            final(self).cfg == old(self).cfg,
            final(self).last_book == old(self).last_book,
    {
        self.status = ConnectionStatus::Updating;
    }

    /// A connection-class failure: fall back to disconnected. The last
    /// forwarded book is kept, so an unchanged feed is not re-forwarded
    /// after the reconnect.
    pub fn on_disconnect(&mut self)
        ensures
            final(self).status == ConnectionStatus::Disconnected,
            final(self).cfg == old(self).cfg,
            final(self).last_book == old(self).last_book,
    {
        self.status = ConnectionStatus::Disconnected;
    }

    /// The subscription request for the configured symbol, as JSON text:
    /// the channel is `order_book_` plus the lowercased symbol.
    pub fn subscribe_payload(&self) -> (r: String)
        ensures
            r@ == "{\"event\":\""@ + "bts:subscribe"@ + "\",\"data\":{\"channel\":\""@ + (
            "order_book_"@ + lower_of(self.cfg.symbol@)) + "\"}}"@,
    {
        let low = crate::strutil::to_lowercase(self.cfg.symbol.as_str());
        let req = api::SubscribeRequest::new(low.as_str());
        req.to_json()
    }

    /// Decide on the trading-pairs listing: parse it and require the
    /// lowercased configured symbol to be among the url symbols. A parse
    /// failure is an `Other` error; an absent symbol is a fatal `Config`
    /// error.
    pub fn check_config(&self, info_text: &str) -> (r: Result<(), TrackerError>)
        ensures
            match api::spec_pairs_info(info_text@) {
                None => (match r {
                    Err(TrackerError::Other(_)) => true,
                    _ => false,
                }),
                Some(syms) => {
                    if syms.contains(lower_of(self.cfg.symbol@)) {
                        r is Ok
                    } else {
                        match r {
                            Err(TrackerError::Config(_)) => true,
                            _ => false,
                        }
                    }
                },
            },
    {
        let info = match api::parse_pairs_info(info_text) {
            Some(info) => info,
            None => {
                return Err(TrackerError::Other(String::from_str("Info response parse error")));
            },
        };
        let low = crate::strutil::to_lowercase(self.cfg.symbol.as_str());
        let ghost syms: Seq<Seq<char>> = Seq::new(info@.len(), |i: int| info@[i].url_symbol@);
        let mut k: usize = 0;
        while k < info.len()
            invariant
                0 <= k <= info@.len(),
                api::spec_pairs_info(info_text@) == Some(syms),
                syms == Seq::new(info@.len(), |i: int| info@[i].url_symbol@),
                low@ == lower_of(self.cfg.symbol@),
                forall|q: int| 0 <= q < k ==> syms[q] != low@,
            decreases info@.len() - k,
        {
            if crate::json::str_eq(info[k].url_symbol.as_str(), low.as_str()) {
                proof {
                    assert(syms[k as int] == low@);
                    assert(syms.contains(low@));
                }
                return Ok(());
            }
            k = k + 1;
        }
        proof {
            assert(!syms.contains(low@));
        }
        let mut msg = String::from_str("Invalid symbol ");
        msg.append(self.cfg.symbol.as_str());
        Err(TrackerError::Config(msg))
    }

    /// Decide on the frame received after subscribing: it must be a text
    /// frame whose event names `subscription_succeeded`; anything else is
    /// a fatal `Other` error.
    pub fn rcv_subscription_info(&self, msg: &WsFrame) -> (r: Result<(), TrackerError>)
        ensures
            match msg {
                WsFrame::Text(t) => match api::spec_subs(t@) {
                    Some(sub) => {
                        if spec_contains(sub.event, "subscription_succeeded"@) {
                            r is Ok
                        } else {
                            match r {
                                Err(TrackerError::Other(_)) => true,
                                _ => false,
                            }
                        }
                    },
                    None => (match r {
                        Err(TrackerError::Other(_)) => true,
                        _ => false,
                    }),
                },
                _ => (match r {
                    Err(TrackerError::Other(_)) => true,
                    _ => false,
                }),
            },
    {
        let t = match msg {
            WsFrame::Text(t) => t,
            _ => {
                return Err(TrackerError::Other(String::from_str("Recieved msg is not a string")));
            },
        };
        let sub = match api::parse_subs(t.as_str()) {
            Some(sub) => sub,
            None => {
                return Err(
                    TrackerError::Other(String::from_str("Subscription response parse error")),
                );
            },
        };
        if crate::strutil::str_contains(sub.event.as_str(), "subscription_succeeded") {
            Ok(())
        } else {
            Err(TrackerError::Other(String::from_str("Invalid subscription response")))
        }
    }

    /// Decide on one frame of the book channel: echo pings, ignore empty
    /// and non-text frames, parse updates, and forward the normalized
    /// book exactly when it differs from the last forwarded one. An
    /// update without book data is a fatal `Other` error.
    pub fn rcv_update(&mut self, msg: WsFrame, seq_base: u64) -> (r: Result<
        UpdateAction,
        TrackerError,
    >)
        requires
            seq_base <= u64::MAX - SEQ_SPAN,
        ensures
            final(self).cfg == old(self).cfg,
            final(self).status == old(self).status,
            match msg {
                WsFrame::Ping(d) => (match r {
                    Ok(UpdateAction::Pong(p)) => p@ == d@,
                    _ => false,
                }) && final(self).last_book == old(self).last_book,
                WsFrame::Other => (match r {
                    Ok(UpdateAction::Ignore) => true,
                    _ => false,
                }) && final(self).last_book == old(self).last_book,
                WsFrame::Text(t) => {
                    if t@.len() == 0 {
                        (match r {
                            Ok(UpdateAction::Ignore) => true,
                            _ => false,
                        }) && final(self).last_book == old(self).last_book
                    } else {
                        match api::spec_update(t@) {
                            None => (match r {
                                Err(TrackerError::Other(_)) => true,
                                _ => false,
                            }) && final(self).last_book == old(self).last_book,
                            Some(up) => match up.data {
                                None => (match r {
                                    Err(TrackerError::Other(_)) => true,
                                    _ => false,
                                }) && final(self).last_book == old(self).last_book,
                                Some(bk) => {
                                    let fwd = match old(self).last_book {
                                        None => true,
                                        Some(lb) => lb@.bids != bk.bids || lb@.asks != bk.asks,
                                    };
                                    if fwd {
                                        &&& (match r {
                                            Ok(UpdateAction::Forward(ob)) => ob@
                                                == crate::spec_from_bitstamp(bk, seq_base),
                                            _ => false,
                                        })
                                        &&& (match final(self).last_book {
                                            Some(nb) => nb@ == bk,
                                            None => false,
                                        })
                                    } else {
                                        (match r {
                                            Ok(UpdateAction::Ignore) => true,
                                            _ => false,
                                        }) && final(self).last_book == old(self).last_book
                                    }
                                },
                            },
                        }
                    }
                },
            },
    {
        match msg {
            WsFrame::Ping(d) => Ok(UpdateAction::Pong(d)),
            WsFrame::Other => Ok(UpdateAction::Ignore),
            WsFrame::Text(t) => {
                if t.as_str().unicode_len() == 0 {
                    return Ok(UpdateAction::Ignore);
                }
                let up = match api::parse_update(t.as_str()) {
                    Some(up) => up,
                    None => {
                        return Err(
                            TrackerError::Other(String::from_str("Update info parse error")),
                        );
                    },
                };
                let book = match up.data {
                    Some(book) => book,
                    None => {
                        return Err(
                            TrackerError::Other(String::from_str("Invalid event sequence")),
                        );
                    },
                };
                let fwd = match &self.last_book {
                    Some(u) => book.changed(u),
                    None => true,
                };
                if fwd {
                    let ob = OrderBook::from_bitstamp(&book, seq_base);
                    self.last_book = Some(book);
                    Ok(UpdateAction::Forward(ob))
                } else {
                    Ok(UpdateAction::Ignore)
                }
            },
        }
    }
}

} // verus!
