//! Bitstamp message shapes and their parsers.
//!
//! The live order book channel is entered with a `bts:subscribe` request;
//! the server acknowledges with an event naming `subscription_succeeded`
//! and then sends `{"event": ..., "channel": ..., "data": {"timestamp":
//! ..., "microtimestamp": ..., "bids": [["p","q"],...], "asks": [...]}}`.
//! The trading-pairs endpoint answers an array of `{"url_symbol": ...}`.

use vstd::prelude::*;

use crate::json::spec_find_field;
use crate::json::spec_match_lit;
use crate::json::spec_pair_array;
use crate::json::spec_scan_string;
use crate::json::spec_skip_value;
use crate::json::spec_skip_ws;
use crate::json::spec_str_field_list;

verus! {

/// The channel-subscription request sent after connecting.
#[derive(Debug)]
pub struct SubscribeRequest {
    pub event: String,
    pub data: SubscribeData,
}

#[derive(Debug)]
pub struct SubscribeData {
    pub channel: String,
}

impl SubscribeRequest {
    /// The subscription request for the order-book channel of `symbol`.
    pub fn new(symbol: &str) -> (r: Self)
        ensures
            r.event@ == "bts:subscribe"@,
            r.data.channel@ == "order_book_"@ + symbol@,
    {
        let mut channel = String::from_str("order_book_");
        channel.append(symbol);
        Self { event: String::from_str("bts:subscribe"), data: SubscribeData { channel } }
    }

    /// The request as the JSON text put on the wire.
    pub fn to_json(&self) -> (r: String)
        ensures
            r@ == "{\"event\":\""@ + self.event@ + "\",\"data\":{\"channel\":\""@
                + self.data.channel@ + "\"}}"@,
    {
        let mut out = String::from_str("{\"event\":\"");
        out.append(self.event.as_str());
        out.append("\",\"data\":{\"channel\":\"");
        out.append(self.data.channel.as_str());
        out.append("\"}}");
        out
    }
}

/// One entry of the trading-pairs listing.
#[derive(Debug, Clone)]
pub struct TraidingPairInfo {
    pub url_symbol: String,
}

/// A raw depth level, prices and quantities already scaled.
#[derive(PartialEq, Eq, Structural, Debug, Clone, Copy)]
pub struct Order {
    pub price: u64,
    pub quantity: u64,
}

/// Ghost shape of a raw Bitstamp book.
pub struct RawBookV {
    pub timestamp: Seq<char>,
    pub microtimestamp: Seq<char>,
    pub bids: Seq<Order>,
    pub asks: Seq<Order>,
}

/// A book snapshot exactly as the feed sent it (after number parsing).
#[derive(Debug, Clone)]
pub struct OrderBook {
    pub timestamp: String,
    pub microtimestamp: String,
    pub bids: Vec<Order>,
    pub asks: Vec<Order>,
}

impl View for OrderBook {
    type V = RawBookV;

    open spec fn view(&self) -> RawBookV {
        RawBookV {
            timestamp: self.timestamp@,
            microtimestamp: self.microtimestamp@,
            bids: self.bids@,
            asks: self.asks@,
        }
    }
}

/// Element-wise equality of two raw sides.
fn orders_eq(a: &Vec<Order>, b: &Vec<Order>) -> (r: bool)
    ensures
        r == (a@ == b@),
{
    if a.len() != b.len() {
        return false;
    }
    let mut k: usize = 0;
    while k < a.len()
        invariant
            0 <= k <= a@.len() == b@.len(),
            forall|q: int| 0 <= q < k ==> a@[q] == b@[q],
        decreases a@.len() - k,
    {
        if a[k] != b[k] {
            return false;
        }
        k = k + 1;
    }
    proof {
        assert(a@ =~= b@);
    }
    true
}

impl OrderBook {
    /// Whether this snapshot differs from `other` in any level.
    pub fn changed(&self, other: &Self) -> (r: bool)
        ensures
            r == (self@.bids != other@.bids || self@.asks != other@.asks),
    {
        !orders_eq(&self.bids, &other.bids) || !orders_eq(&self.asks, &other.asks)
    }
}

/// Ghost shape of an update message.
pub struct UpdateV {
    pub event: Seq<char>,
    pub channel: Seq<char>,
    pub data: Option<RawBookV>,
}

/// An update frame: an event name, a channel, and (for book updates) the
/// book itself.
#[derive(Debug, Clone)]
pub struct UpdateMsg {
    pub event: String,
    pub channel: String,
    pub data: Option<OrderBook>,
}

impl View for UpdateMsg {
    type V = UpdateV;

    open spec fn view(&self) -> UpdateV {
        UpdateV {
            event: self.event@,
            channel: self.channel@,
            data: match self.data {
                Some(b) => Some(b@),
                None => None,
            },
        }
    }
}

/// Ghost shape of a subscription acknowledgement.
pub struct SubsV {
    pub event: Seq<char>,
    pub channel: Seq<char>,
}

/// A subscription acknowledgement frame.
#[derive(Debug, Clone)]
pub struct SubsMsg {
    pub event: String,
    pub channel: String,
}

impl View for SubsMsg {
    type V = SubsV;

    open spec fn view(&self) -> SubsV {
        SubsV { event: self.event@, channel: self.channel@ }
    }
}

/// Raw levels from scaled (price, quantity) pairs.
pub open spec fn orders_of_pairs(ps: Seq<(u64, u64)>) -> Seq<Order> {
    ps.map_values(|p: (u64, u64)| Order { price: p.0, quantity: p.1 })
}

/// Orders from parsed pairs.
fn to_orders(ps: &Vec<(u64, u64)>) -> (r: Vec<Order>)
    ensures
        r@ == orders_of_pairs(ps@),
{
    let mut r: Vec<Order> = Vec::new();
    let mut k: usize = 0;
    while k < ps.len()
        invariant
            0 <= k <= ps@.len(),
            r@ =~= orders_of_pairs(ps@.take(k as int)),
        decreases ps@.len() - k,
    {
        let p = ps[k];
        r.push(Order { price: p.0, quantity: p.1 });
        proof {
            assert(ps@.take(k + 1).drop_last() =~= ps@.take(k as int));
            assert(r@ =~= orders_of_pairs(ps@.take(k + 1)));
        }
        k = k + 1;
    }
    proof {
        assert(ps@.take(ps@.len() as int) =~= ps@);
    }
    r
}

/// The string value of member `key` of the object whose `{` stands just
/// before `k`.
pub open spec fn spec_str_field(s: Seq<char>, k: int, key: Seq<char>) -> Option<Seq<char>> {
    match spec_find_field(s, k, key) {
        None => None,
        Some(p) => match spec_scan_string(s, spec_skip_ws(s, p)) {
            Some((content, _)) => Some(content),
            None => None,
        },
    }
}

/// Exec twin of `spec_str_field`.
fn str_field(s: &str, k: usize, key: &str) -> (r: Option<String>)
    requires
        k <= s@.len(),
    ensures
        match r {
            Some(t) => spec_str_field(s@, k as int, key@) == Some(t@),
            None => spec_str_field(s@, k as int, key@) is None,
        },
{
    match crate::json::find_field(s, k, key) {
        None => None,
        Some(p) => {
            let pw = crate::json::skip_ws(s, p);
            match crate::json::scan_string(s, pw) {
                Some((t, _)) => Some(t),
                None => None,
            }
        },
    }
}

/// What a book object at value position `p` denotes: `timestamp` and
/// `microtimestamp` strings and `bids`/`asks` pair arrays, unknown members
/// ignored.
pub open spec fn spec_book_at(s: Seq<char>, p: int) -> Option<RawBookV> {
    let bw = spec_skip_ws(s, p);
    if !(0 <= bw < s.len() && s[bw] == '{') {
        None
    } else {
        let ts = spec_str_field(s, bw + 1, "timestamp"@);
        let ms = spec_str_field(s, bw + 1, "microtimestamp"@);
        let bv = match spec_find_field(s, bw + 1, "bids"@) {
            Some(q) => match spec_pair_array(s, q) {
                Some((v, _)) => Some(v),
                None => None,
            },
            None => None,
        };
        let av = match spec_find_field(s, bw + 1, "asks"@) {
            Some(q) => match spec_pair_array(s, q) {
                Some((v, _)) => Some(v),
                None => None,
            },
            None => None,
        };
        match (ts, ms, bv, av) {
            (Some(t), Some(m), Some(b), Some(a)) => Some(
                RawBookV {
                    timestamp: t,
                    microtimestamp: m,
                    bids: orders_of_pairs(b),
                    asks: orders_of_pairs(a),
                },
            ),
            _ => None,
        }
    }
}

/// Exec twin of `spec_book_at`.
fn book_at(s: &str, p: usize) -> (r: Option<OrderBook>)
    requires
        p <= s@.len(),
    ensures
        match r {
            Some(b) => spec_book_at(s@, p as int) == Some(b@),
            None => spec_book_at(s@, p as int) is None,
        },
{
    let n = s.unicode_len();
    let bw = crate::json::skip_ws(s, p);
    if bw >= n || s.get_char(bw) != '{' {
        return None;
    }
    let ts = match str_field(s, bw + 1, "timestamp") {
        Some(t) => t,
        None => {
            return None;
        },
    };
    let ms = match str_field(s, bw + 1, "microtimestamp") {
        Some(t) => t,
        None => {
            return None;
        },
    };
    let bv = match crate::json::find_field(s, bw + 1, "bids") {
        Some(q) => match crate::json::scan_pair_array(s, q) {
            Some((v, _)) => v,
            None => {
                return None;
            },
        },
        None => {
            return None;
        },
    };
    let av = match crate::json::find_field(s, bw + 1, "asks") {
        Some(q) => match crate::json::scan_pair_array(s, q) {
            Some((v, _)) => v,
            None => {
                return None;
            },
        },
        None => {
            return None;
        },
    };
    Some(
        OrderBook {
            timestamp: ts,
            microtimestamp: ms,
            bids: to_orders(&bv),
            asks: to_orders(&av),
        },
    )
}

/// Whether the whole text is a single well-formed value of the supported
/// subset whose first character (after whitespace) is `c`.
pub open spec fn spec_doc_with(s: Seq<char>, c: char) -> bool {
    let doc_ok = match spec_skip_value(s, 0) {
        Some(e) => spec_skip_ws(s, e) == s.len(),
        None => false,
    };
    let w = spec_skip_ws(s, 0);
    doc_ok && 0 <= w < s.len() && s[w] == c
}

/// What an update message denotes. `event` and `channel` are required;
/// `data` may be absent or `null` (no book), else it must be a book.
pub open spec fn spec_update(s: Seq<char>) -> Option<UpdateV> {
    let w = spec_skip_ws(s, 0);
    if !spec_doc_with(s, '{') {
        None
    } else {
        let ev = spec_str_field(s, w + 1, "event"@);
        let ch = spec_str_field(s, w + 1, "channel"@);
        let data = match spec_find_field(s, w + 1, "data"@) {
            None => Some(None::<RawBookV>),
            Some(p) => {
                if spec_match_lit(s, spec_skip_ws(s, p), "null"@) {
                    Some(None::<RawBookV>)
                } else {
                    match spec_book_at(s, p) {
                        Some(b) => Some(Some(b)),
                        None => None,
                    }
                }
            },
        };
        match (ev, ch, data) {
            (Some(e), Some(c), Some(d)) => Some(UpdateV { event: e, channel: c, data: d }),
            _ => None,
        }
    }
}

/// Parse an update message.
pub fn parse_update(s: &str) -> (r: Option<UpdateMsg>)
    ensures
        match r {
            Some(m) => spec_update(s@) == Some(m@),
            None => spec_update(s@) is None,
        },
{
    let n = s.unicode_len();
    match crate::json::skip_value(s, 0) {
        None => {
            return None;
        },
        Some(e) => {
            if crate::json::skip_ws(s, e) != n {
                return None;
            }
        },
    }
    let w = crate::json::skip_ws(s, 0);
    if w >= n || s.get_char(w) != '{' {
        return None;
    }
    let ev = match str_field(s, w + 1, "event") {
        Some(t) => t,
        None => {
            return None;
        },
    };
    let ch = match str_field(s, w + 1, "channel") {
        Some(t) => t,
        None => {
            return None;
        },
    };
    let data = match crate::json::find_field(s, w + 1, "data") {
        None => None,
        Some(p) => {
            let pw = crate::json::skip_ws(s, p);
            proof {
                reveal_strlit("null");
            }
            if crate::json::match_lit(s, pw, "null") {
                None
            } else {
                match book_at(s, p) {
                    Some(b) => Some(b),
                    None => {
                        return None;
                    },
                }
            }
        },
    };
    Some(UpdateMsg { event: ev, channel: ch, data })
}

/// What a subscription acknowledgement denotes: `event` and `channel`.
pub open spec fn spec_subs(s: Seq<char>) -> Option<SubsV> {
    let w = spec_skip_ws(s, 0);
    if !spec_doc_with(s, '{') {
        None
    } else {
        match (spec_str_field(s, w + 1, "event"@), spec_str_field(s, w + 1, "channel"@)) {
            (Some(e), Some(c)) => Some(SubsV { event: e, channel: c }),
            _ => None,
        }
    }
}

/// Parse a subscription acknowledgement.
pub fn parse_subs(s: &str) -> (r: Option<SubsMsg>)
    ensures
        match r {
            Some(m) => spec_subs(s@) == Some(m@),
            None => spec_subs(s@) is None,
        },
{
    let n = s.unicode_len();
    match crate::json::skip_value(s, 0) {
        None => {
            return None;
        },
        Some(e) => {
            if crate::json::skip_ws(s, e) != n {
                return None;
            }
        },
    }
    let w = crate::json::skip_ws(s, 0);
    if w >= n || s.get_char(w) != '{' {
        return None;
    }
    let ev = match str_field(s, w + 1, "event") {
        Some(t) => t,
        None => {
            return None;
        },
    };
    let ch = match str_field(s, w + 1, "channel") {
        Some(t) => t,
        None => {
            return None;
        },
    };
    Some(SubsMsg { event: ev, channel: ch })
}

/// What the trading-pairs listing denotes: the url symbols in order.
pub open spec fn spec_pairs_info(s: Seq<char>) -> Option<Seq<Seq<char>>> {
    let w = spec_skip_ws(s, 0);
    if !spec_doc_with(s, '[') {
        None
    } else {
        let w1 = spec_skip_ws(s, w + 1);
        if 0 <= w1 < s.len() && s[w1] == ']' {
            Some(Seq::empty())
        } else {
            match spec_str_field_list(s, w + 1, "url_symbol"@) {
                Some((syms, _)) => Some(syms),
                None => None,
            }
        }
    }
}

/// Parse the trading-pairs listing.
pub fn parse_pairs_info(s: &str) -> (r: Option<Vec<TraidingPairInfo>>)
    ensures
        match r {
            Some(v) => spec_pairs_info(s@) == Some(
                Seq::new(v@.len(), |i: int| v@[i].url_symbol@),
            ),
            None => spec_pairs_info(s@) is None,
        },
{
    let n = s.unicode_len();
    match crate::json::skip_value(s, 0) {
        None => {
            return None;
        },
        Some(e) => {
            if crate::json::skip_ws(s, e) != n {
                return None;
            }
        },
    }
    let w = crate::json::skip_ws(s, 0);
    if w >= n || s.get_char(w) != '[' {
        return None;
    }
    let w1 = crate::json::skip_ws(s, w + 1);
    if w1 < n && s.get_char(w1) == ']' {
        let out: Vec<TraidingPairInfo> = Vec::new();
        proof {
            assert(Seq::new(out@.len(), |i: int| out@[i].url_symbol@) =~= Seq::<
                Seq<char>,
            >::empty());
        }
        return Some(out);
    }
    let syms = match crate::json::str_field_list(s, w + 1, "url_symbol") {
        Some((v, _)) => v,
        None => {
            return None;
        },
    };
    let mut out: Vec<TraidingPairInfo> = Vec::new();
    let mut k: usize = 0;
    while k < syms.len()
        invariant
            0 <= k <= syms@.len(),
            out@.len() == k,
            forall|q: int| 0 <= q < k ==> out@[q].url_symbol@ == syms.deep_view()[q],
        decreases syms@.len() - k,
    {
        let sym = syms[k].clone();
        proof {
            assert(sym@ == syms.deep_view()[k as int]);
        }
        out.push(TraidingPairInfo { url_symbol: sym });
        k = k + 1;
    }
    proof {
        assert(Seq::new(out@.len(), |i: int| out@[i].url_symbol@) =~= syms.deep_view());
    }
    Some(out)
}

} // verus!
