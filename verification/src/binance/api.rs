//! Binance message shapes and their parsers.
//!
//! Depth messages are `{"lastUpdateId": n, "bids": [["p","q"],...],
//! "asks": [...]}` with decimal strings; the instruments endpoint answers
//! `{"symbols": [{"symbol": "..."}, ...]}`.

use vstd::prelude::*;

use crate::json::spec_find_field;
use crate::json::spec_pair_array;
use crate::json::spec_scan_u64;
use crate::json::spec_skip_value;
use crate::json::spec_skip_ws;
use crate::json::spec_str_field_list;

verus! {

/// A raw depth level, prices and quantities already scaled.
#[derive(PartialEq, Eq, Structural, Debug, Clone, Copy)]
pub struct Order {
    pub price: u64,
    pub quantity: u64,
}

/// Ghost shape of a raw Binance book.
pub struct RawBookV {
    pub last_update_id: u64,
    pub bids: Seq<Order>,
    pub asks: Seq<Order>,
}

/// A depth snapshot exactly as the feed sent it (after number parsing).
#[derive(Debug, Clone)]
pub struct OrderBook {
    pub last_update_id: u64,
    pub bids: Vec<Order>,
    pub asks: Vec<Order>,
}

impl View for OrderBook {
    type V = RawBookV;

    open spec fn view(&self) -> RawBookV {
        RawBookV {
            last_update_id: self.last_update_id,
            bids: self.bids@,
            asks: self.asks@,
        }
    }
}

/// Element-wise equality of two raw sides.
fn orders_eq(a: &Vec<Order>, b: &Vec<Order>) -> (r: bool)
    ensures
        r == (a@ == b@),
{
    if a.len() != b.len() {
        return false;
    }
    let mut k: usize = 0;
    while k < a.len()
        invariant
            0 <= k <= a@.len() == b@.len(),
            forall|q: int| 0 <= q < k ==> a@[q] == b@[q],
        decreases a@.len() - k,
    {
        if a[k] != b[k] {
            return false;
        }
        k = k + 1;
    }
    proof {
        assert(a@ =~= b@);
    }
    true
}

impl OrderBook {
    /// Whether this snapshot differs from `other` in any level.
    pub fn changed(&self, other: &Self) -> (r: bool)
        ensures
            r == (self@.bids != other@.bids || self@.asks != other@.asks),
    {
        !orders_eq(&self.bids, &other.bids) || !orders_eq(&self.asks, &other.asks)
    }
}

/// One entry of the instruments listing.
#[derive(Debug, Clone)]
pub struct SymbolInfo {
    pub symbol: String,
}

/// The instruments listing: the traded symbols.
#[derive(Debug, Clone)]
pub struct InfoResponse {
    pub symbols: Vec<SymbolInfo>,
}

impl View for InfoResponse {
    type V = Seq<Seq<char>>;

    open spec fn view(&self) -> Seq<Seq<char>> {
        Seq::new(self.symbols@.len(), |i: int| self.symbols@[i].symbol@)
    }
}

/// Raw levels from scaled (price, quantity) pairs.
pub open spec fn orders_of_pairs(ps: Seq<(u64, u64)>) -> Seq<Order> {
    ps.map_values(|p: (u64, u64)| Order { price: p.0, quantity: p.1 })
}

/// Orders from parsed pairs.
fn to_orders(ps: &Vec<(u64, u64)>) -> (r: Vec<Order>)
    ensures
        r@ == orders_of_pairs(ps@),
{
    let mut r: Vec<Order> = Vec::new();
    let mut k: usize = 0;
    while k < ps.len()
        invariant
            0 <= k <= ps@.len(),
            r@ =~= orders_of_pairs(ps@.take(k as int)),
        decreases ps@.len() - k,
    {
        let p = ps[k];
        r.push(Order { price: p.0, quantity: p.1 });
        proof {
            assert(ps@.take(k + 1).drop_last() =~= ps@.take(k as int));
            assert(r@ =~= orders_of_pairs(ps@.take(k + 1)));
        }
        k = k + 1;
    }
    proof {
        assert(ps@.take(ps@.len() as int) =~= ps@);
    }
    r
}

/// What a depth message denotes: the document must be one well-formed
/// object carrying `lastUpdateId`, `bids` and `asks` of the right types;
/// unknown members are ignored.
pub open spec fn spec_depth(s: Seq<char>) -> Option<RawBookV> {
    let doc_ok = match spec_skip_value(s, 0) {
        Some(e) => spec_skip_ws(s, e) == s.len(),
        None => false,
    };
    let w = spec_skip_ws(s, 0);
    if !doc_ok || !(0 <= w < s.len() && s[w] == '{') {
        None
    } else {
        let lu = match spec_find_field(s, w + 1, "lastUpdateId"@) {
            Some(p) => match spec_scan_u64(s, spec_skip_ws(s, p)) {
                Some((v, _)) => Some(v),
                None => None,
            },
            None => None,
        };
        let bv = match spec_find_field(s, w + 1, "bids"@) {
            Some(p) => match spec_pair_array(s, p) {
                Some((v, _)) => Some(v),
                None => None,
            },
            None => None,
        };
        let av = match spec_find_field(s, w + 1, "asks"@) {
            Some(p) => match spec_pair_array(s, p) {
                Some((v, _)) => Some(v),
                None => None,
            },
            None => None,
        };
        match (lu, bv, av) {
            (Some(l), Some(b), Some(a)) => Some(
                RawBookV {
                    last_update_id: l,
                    bids: orders_of_pairs(b),
                    asks: orders_of_pairs(a),
                },
            ),
            _ => None,
        }
    }
}

/// Parse a depth message.
pub fn parse_depth(s: &str) -> (r: Option<OrderBook>)
    ensures
        match r {
            Some(b) => spec_depth(s@) == Some(b@),
            None => spec_depth(s@) is None,
        },
{
    let n = s.unicode_len();
    match crate::json::skip_value(s, 0) {
        None => {
            return None;
        },
        Some(e) => {
            if crate::json::skip_ws(s, e) != n {
                return None;
            }
        },
    }
    let w = crate::json::skip_ws(s, 0);
    if w >= n || s.get_char(w) != '{' {
        return None;
    }
    let lu = match crate::json::find_field(s, w + 1, "lastUpdateId") {
        Some(p) => {
            let pw = crate::json::skip_ws(s, p);
            match crate::json::scan_u64(s, pw) {
                Some((v, _)) => v,
                None => {
                    return None;
                },
            }
        },
        None => {
            return None;
        },
    };
    let bv = match crate::json::find_field(s, w + 1, "bids") {
        Some(p) => match crate::json::scan_pair_array(s, p) {
            Some((v, _)) => v,
            None => {
                return None;
            },
        },
        None => {
            return None;
        },
    };
    let av = match crate::json::find_field(s, w + 1, "asks") {
        Some(p) => match crate::json::scan_pair_array(s, p) {
            Some((v, _)) => v,
            None => {
                return None;
            },
        },
        None => {
            return None;
        },
    };
    Some(OrderBook { last_update_id: lu, bids: to_orders(&bv), asks: to_orders(&av) })
}

/// What the instruments listing denotes: the symbols in order.
pub open spec fn spec_info(s: Seq<char>) -> Option<Seq<Seq<char>>> {
    let doc_ok = match spec_skip_value(s, 0) {
        Some(e) => spec_skip_ws(s, e) == s.len(),
        None => false,
    };
    let w = spec_skip_ws(s, 0);
    if !doc_ok || !(0 <= w < s.len() && s[w] == '{') {
        None
    } else {
        match spec_find_field(s, w + 1, "symbols"@) {
            None => None,
            Some(p) => {
                let pw = spec_skip_ws(s, p);
                if !(0 <= pw < s.len() && s[pw] == '[') {
                    None
                } else {
                    let pw1 = spec_skip_ws(s, pw + 1);
                    if 0 <= pw1 < s.len() && s[pw1] == ']' {
                        Some(Seq::empty())
                    } else {
                        match spec_str_field_list(s, pw + 1, "symbol"@) {
                            Some((syms, _)) => Some(syms),
                            None => None,
                        }
                    }
                }
            },
        }
    }
}

/// Parse the instruments listing.
pub fn parse_info(s: &str) -> (r: Option<InfoResponse>)
    ensures
        match r {
            Some(ir) => spec_info(s@) == Some(ir@),
            None => spec_info(s@) is None,
        },
{
    let n = s.unicode_len();
    match crate::json::skip_value(s, 0) {
        None => {
            return None;
        },
        Some(e) => {
            if crate::json::skip_ws(s, e) != n {
                return None;
            }
        },
    }
    let w = crate::json::skip_ws(s, 0);
    if w >= n || s.get_char(w) != '{' {
        return None;
    }
    let p = match crate::json::find_field(s, w + 1, "symbols") {
        Some(p) => p,
        None => {
            return None;
        },
    };
    let pw = crate::json::skip_ws(s, p);
    if pw >= n || s.get_char(pw) != '[' {
        return None;
    }
    let pw1 = crate::json::skip_ws(s, pw + 1);
    if pw1 < n && s.get_char(pw1) == ']' {
        let ir = InfoResponse { symbols: Vec::new() };
        proof {
            assert(ir@ =~= Seq::<Seq<char>>::empty());
        }
        return Some(ir);
    }
    let syms = match crate::json::str_field_list(s, pw + 1, "symbol") {
        Some((v, _)) => v,
        None => {
            return None;
        },
    };
    let mut out: Vec<SymbolInfo> = Vec::new();
    let mut k: usize = 0;
    while k < syms.len()
        invariant
            0 <= k <= syms@.len(),
            out@.len() == k,
            forall|q: int| 0 <= q < k ==> out@[q].symbol@ == syms.deep_view()[q],
        decreases syms@.len() - k,
    {
        let sym = syms[k].clone();
        proof {
            assert(sym@ == syms.deep_view()[k as int]);
        }
        out.push(SymbolInfo { symbol: sym });
        k = k + 1;
    }
    let ir = InfoResponse { symbols: out };
    proof {
        assert(ir@ =~= syms.deep_view());
    }
    Some(ir)
}

} // verus!
