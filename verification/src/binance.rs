//! Binance connector: the connection state machine and its decisions.
//!
//! Binance is a push-model exchange: after the websocket is open, depth
//! snapshots arrive without a subscription step. The shell owns the
//! socket and the HTTP client; every decision — symbol validation,
//! ping/pong, parsing, change-detection, state transitions — is made
//! here, on plain values.

pub mod api;

use vstd::prelude::*;

use crate::config::BinanceConfig;
use crate::strutil::lower_of;
use crate::OrderBook;
use crate::TrackerError;
use crate::UpdateAction;
use crate::WsFrame;
use crate::SEQ_SPAN;

verus! {

/// The instruments endpoint queried to validate the configured symbol.
pub fn info_endpoint() -> (r: &'static str)
    ensures
        r@ == "https://api.binance.com/api/v3/exchangeInfo"@,
{
    "https://api.binance.com/api/v3/exchangeInfo"
}

/// Connection lifecycle: connect straight into the update stream.
#[derive(PartialEq, Eq, Structural, Debug, Clone, Copy)]
pub enum ConnectionStatus {
    Disconnected,
    Updating,
}

/// What the shell must do next for this connector.
#[derive(PartialEq, Eq, Structural, Debug, Clone, Copy)]
pub enum Step {
    Establish,
    Receive,
}

pub struct BinanceSubscriber {
    pub cfg: BinanceConfig,
    pub status: ConnectionStatus,
    pub last_book: Option<api::OrderBook>,
}

impl BinanceSubscriber {
    /// A fresh connector: disconnected, nothing forwarded yet.
    pub fn new(cfg: BinanceConfig) -> (r: Result<Self, String>)
        ensures
            match r {
                Ok(s) => {
                    &&& s.status == ConnectionStatus::Disconnected
                    &&& s.last_book is None
                    &&& s.cfg.symbol@ == cfg.symbol@
                },
                Err(_) => false,
            },
    {
        Ok(Self { cfg, status: ConnectionStatus::Disconnected, last_book: None })
    }

    /// The websocket URL of the depth stream for the configured symbol.
    pub fn depth_url(&self) -> (r: String)
        ensures
            r@ == "wss://stream.binance.com:9443/ws/"@ + lower_of(self.cfg.symbol@)
                + "@depth10@100ms"@,
    {
        let mut u = String::from_str("wss://stream.binance.com:9443/ws/");
        let low = crate::strutil::to_lowercase(self.cfg.symbol.as_str());
        u.append(low.as_str());
        u.append("@depth10@100ms");
        u
    }

    /// What to run in the current state: establish the session, or read
    /// the next frame.
    pub fn process_step(&self) -> (r: Step)
        ensures
            r == (match self.status {
                ConnectionStatus::Disconnected => Step::Establish,
                ConnectionStatus::Updating => Step::Receive,
            }),
    {
        match self.status {
            ConnectionStatus::Disconnected => Step::Establish,
            ConnectionStatus::Updating => Step::Receive,
        }
    }

    /// The websocket is open: move to the steady state.
    pub fn on_connected(&mut self)
        ensures
            final(self).status == ConnectionStatus::Updating,
            final(self).cfg == old(self).cfg,
            final(self).last_book == old(self).last_book,
    {
        self.status = ConnectionStatus::Updating;
    }

    /// A connection-class failure: fall back to disconnected. The last
    /// forwarded book is kept, so an unchanged feed is not re-forwarded
    /// after the reconnect.
    pub fn on_disconnect(&mut self)
        ensures
            final(self).status == ConnectionStatus::Disconnected,
            final(self).cfg == old(self).cfg,
            final(self).last_book == old(self).last_book,
    {
        self.status = ConnectionStatus::Disconnected;
    }

    /// Decide on the instruments listing: parse it and require the
    /// configured symbol to be among the exchange's symbols. A parse
    /// failure is an `Other` error; an absent symbol is a fatal `Config`
    /// error.
    pub fn check_config(&self, info_text: &str) -> (r: Result<(), TrackerError>)
        ensures
            match api::spec_info(info_text@) {
                None => (match r {
                    Err(TrackerError::Other(_)) => true,
                    _ => false,
                }),
                Some(syms) => {
                    if syms.contains(self.cfg.symbol@) {
                        r is Ok
                    } else {
                        match r {
                            Err(TrackerError::Config(_)) => true,
                            _ => false,
                        }
                    }
                },
            },
    {
        let info = match api::parse_info(info_text) {
            Some(info) => info,
            None => {
                return Err(TrackerError::Other(String::from_str("Info response parse error")));
            },
        };
        let mut k: usize = 0;
        while k < info.symbols.len()
            invariant
                0 <= k <= info.symbols@.len(),
                api::spec_info(info_text@) == Some(info@),
                forall|q: int| 0 <= q < k ==> info@[q] != self.cfg.symbol@,
            decreases info.symbols@.len() - k,
        {
            if crate::json::str_eq(info.symbols[k].symbol.as_str(), self.cfg.symbol.as_str()) {
                proof {
                    assert(info@[k as int] == self.cfg.symbol@);
                    assert(info@.contains(self.cfg.symbol@));
                }
                return Ok(());
            }
            k = k + 1;
        }
        proof {
            assert(!info@.contains(self.cfg.symbol@));
        }
        let mut msg = String::from_str("Invalid symbol ");
        msg.append(self.cfg.symbol.as_str());
        Err(TrackerError::Config(msg))
    }

    /// Decide on one frame of the depth stream: echo pings, discard empty
    /// and non-text frames, parse depth snapshots, and forward the
    /// normalized book exactly when it differs from the last forwarded
    /// one.
    pub fn rcv_update(&mut self, msg: WsFrame, seq_base: u64) -> (r: Result<
        UpdateAction,
        TrackerError,
    >)
        requires
            seq_base <= u64::MAX - SEQ_SPAN,
        ensures
            final(self).cfg == old(self).cfg,
            final(self).status == old(self).status,
            match msg {
                WsFrame::Ping(d) => (match r {
                    Ok(UpdateAction::Pong(p)) => p@ == d@,
                    _ => false,
                }) && final(self).last_book == old(self).last_book,
                WsFrame::Other => (match r {
                    Ok(UpdateAction::Ignore) => true,
                    _ => false,
                }) && final(self).last_book == old(self).last_book,
                WsFrame::Text(t) => {
                    if t@.len() == 0 {
                        (match r {
                            Ok(UpdateAction::Ignore) => true,
                            _ => false,
                        }) && final(self).last_book == old(self).last_book
                    } else {
                        match api::spec_depth(t@) {
                            None => (match r {
                                Err(TrackerError::Other(_)) => true,
                                _ => false,
                            }) && final(self).last_book == old(self).last_book,
                            Some(bk) => {
                                let fwd = match old(self).last_book {
                                    None => true,
                                    Some(lb) => lb@.bids != bk.bids || lb@.asks != bk.asks,
                                };
                                if fwd {
                                    &&& (match r {
                                        Ok(UpdateAction::Forward(ob)) => ob@
                                            == crate::spec_from_binance(bk, seq_base),
                                        _ => false,
                                    })
                                    &&& (match final(self).last_book {
                                        Some(nb) => nb@ == bk,
                                        None => false,
                                    })
                                } else {
                                    (match r {
                                        Ok(UpdateAction::Ignore) => true,
                                        _ => false,
                                    }) && final(self).last_book == old(self).last_book
                                }
                            },
                        }
                    }
                },
            },
    {
        match msg {
            WsFrame::Ping(d) => Ok(UpdateAction::Pong(d)),
            WsFrame::Other => Ok(UpdateAction::Ignore),
            WsFrame::Text(t) => {
                if t.as_str().unicode_len() == 0 {
                    return Ok(UpdateAction::Ignore);
                }
                let book = match api::parse_depth(t.as_str()) {
                    Some(book) => book,
                    None => {
                        return Err(
                            TrackerError::Other(String::from_str("Update msg parse error")),
                        );
                    },
                };
                let fwd = match &self.last_book {
                    Some(u) => book.changed(u),
                    None => true,
                };
                if fwd {
                    let ob = OrderBook::from_binance(&book, seq_base);
                    self.last_book = Some(book);
                    Ok(UpdateAction::Forward(ob))
                } else {
                    Ok(UpdateAction::Ignore)
                }
            },
        }
    }
}

} // verus!
