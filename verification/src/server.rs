//! The published artifact: consolidated summaries.
//!
//! A `Summary` is what subscribers receive: the spread and the best levels
//! of both sides across all exchanges. The RPC transport around it lives
//! in the shell; the value and its equality (which drives publish
//! suppression) are defined here.

use vstd::prelude::*;

use crate::decimal::dec_str;
use crate::Exchange;

verus! {

/// One consolidated level: where it came from and its price and size.
#[derive(PartialEq, Eq, Structural, Debug, Clone, Copy)]
pub struct Level {
    pub exchange: Exchange,
    pub price: u64,
    pub amount: u64,
}

/// Ghost shape of a `Summary`.
pub struct SummaryV {
    pub spread: i128,
    pub bids: Seq<Level>,
    pub asks: Seq<Level>,
}

/// The consolidated top-of-book view that gets published.
#[derive(Debug)]
pub struct Summary {
    pub spread: i128,
    pub bids: Vec<Level>,
    pub asks: Vec<Level>,
}

impl View for Summary {
    type V = SummaryV;

    open spec fn view(&self) -> SummaryV {
        SummaryV { spread: self.spread, bids: self.bids@, asks: self.asks@ }
    }
}

impl Default for Summary {
    /// The initial value of the broadcast slot: no levels, zero spread.
    fn default() -> (r: Self)
        ensures
            r@.spread == 0,
            r@.bids.len() == 0,
            r@.asks.len() == 0,
    {
        Self { spread: 0, bids: Vec::new(), asks: Vec::new() }
    }
}

/// Element-wise equality of two level lists.
fn levels_eq(a: &Vec<Level>, b: &Vec<Level>) -> (r: bool)
    ensures
        r == (a@ == b@),
{
    if a.len() != b.len() {
        return false;
    }
    let mut k: usize = 0;
    while k < a.len()
        invariant
            0 <= k <= a@.len() == b@.len(),
            forall|q: int| 0 <= q < k ==> a@[q] == b@[q],
        decreases a@.len() - k,
    {
        if a[k] != b[k] {
            return false;
        }
        k = k + 1;
    }
    proof {
        assert(a@ =~= b@);
    }
    true
}

impl PartialEq for Summary {
    /// Value equality over `(spread, bids, asks)`; this is the equality
    /// that decides publish-versus-suppress.
    fn eq(&self, other: &Self) -> (r: bool) {
        self.spread == other.spread && levels_eq(&self.bids, &other.bids) && levels_eq(
            &self.asks,
            &other.asks,
        )
    }
}

impl vstd::std_specs::cmp::PartialEqSpecImpl for Summary {
    open spec fn obeys_eq_spec() -> bool {
        true
    }

    open spec fn eq_spec(&self, other: &Self) -> bool {
        self@.spread == other@.spread && self@.bids == other@.bids && self@.asks == other@.asks
    }
}

/// The JSON text of one level.
pub open spec fn spec_level_json(l: Level) -> Seq<char> {
    "{\"exchange\":\""@ + l.exchange.spec_name() + "\",\"price\":"@ + dec_str(l.price)
        + ",\"amount\":"@ + dec_str(l.amount) + "}"@
}

/// The comma-joined JSON texts of a level list.
pub open spec fn spec_levels_json(ls: Seq<Level>) -> Seq<char>
    decreases ls.len(),
{
    if ls.len() == 0 {
        Seq::empty()
    } else if ls.len() == 1 {
        spec_level_json(ls[0])
    } else {
        spec_levels_json(ls.drop_last()) + ","@ + spec_level_json(ls.last())
    }
}

/// The JSON text of a spread, negative values with a leading minus.
pub open spec fn spec_spread_json(sp: int) -> Seq<char> {
    if sp < 0 {
        "-"@ + dec_str((-sp) as u64)
    } else {
        dec_str(sp as u64)
    }
}

/// The JSON text of a whole summary.
pub open spec fn spec_summary_json(s: SummaryV) -> Seq<char> {
    "{\"spread\":"@ + spec_spread_json(s.spread as int) + ",\"bids\":["@ + spec_levels_json(s.bids)
        + "],\"asks\":["@ + spec_levels_json(s.asks) + "]}"@
}

/// One level as JSON.
fn level_json(l: &Level) -> (r: String)
    ensures
        r@ == spec_level_json(*l),
{
    let mut out = String::from_str("{\"exchange\":\"");
    out.append(l.exchange.name());
    out.append("\",\"price\":");
    let price = crate::decimal::format_decimal(l.price);
    out.append(price.as_str());
    out.append(",\"amount\":");
    let amount = crate::decimal::format_decimal(l.amount);
    out.append(amount.as_str());
    out.append("}");
    out
}

/// A level list as comma-joined JSON.
fn levels_json(ls: &Vec<Level>) -> (r: String)
    ensures
        r@ == spec_levels_json(ls@),
{
    let mut out = String::new();
    let mut k: usize = 0;
    while k < ls.len()
        invariant
            0 <= k <= ls@.len(),
            out@ == spec_levels_json(ls@.take(k as int)),
        decreases ls@.len() - k,
    {
        if k > 0 {
            out.append(",");
        }
        let lj = level_json(&ls[k]);
        out.append(lj.as_str());
        proof {
            let pre = ls@.take(k + 1);
            assert(pre.drop_last() =~= ls@.take(k as int));
            assert(pre.last() == ls@[k as int]);
            if k == 0 {
                assert(out@ =~= spec_levels_json(pre));
            } else {
                assert(out@ =~= spec_levels_json(pre.drop_last()) + ","@ + spec_level_json(
                    pre.last(),
                ));
            }
        }
        k = k + 1;
    }
    proof {
        assert(ls@.take(ls@.len() as int) =~= ls@);
    }
    out
}

impl Summary {
    /// The summary as one JSON text, prices and sizes rendered as exact
    /// decimals. The spread's magnitude must be renderable, which every
    /// merged summary satisfies (both best prices fit in a `u64`).
    pub fn to_json(&self) -> (r: String)
        requires
            -(u64::MAX as int) <= self.spread <= u64::MAX as int,
        ensures
            r@ == spec_summary_json(self@),
    {
        let mut out = String::from_str("{\"spread\":");
        if self.spread < 0 {
            out.append("-");
            let sp = crate::decimal::format_decimal((-self.spread) as u64);
            out.append(sp.as_str());
        } else {
            let sp = crate::decimal::format_decimal(self.spread as u64);
            out.append(sp.as_str());
        }
        out.append(",\"bids\":[");
        let bids = levels_json(&self.bids);
        out.append(bids.as_str());
        out.append("],\"asks\":[");
        let asks = levels_json(&self.asks);
        out.append(asks.as_str());
        out.append("]}");
        proof {
            assert(out@ =~= spec_summary_json(self@));
        }
        out
    }
}

impl Clone for Summary {
    /// A value copy; the clone is equal to the original.
    fn clone(&self) -> (r: Self)
        ensures
            r@ == self@,
    {
        let mut bids: Vec<Level> = Vec::new();
        let mut k: usize = 0;
        while k < self.bids.len()
            invariant
                0 <= k <= self.bids@.len(),
                bids@ =~= self.bids@.take(k as int),
            decreases self.bids@.len() - k,
        {
            bids.push(self.bids[k]);
            k = k + 1;
        }
        let mut asks: Vec<Level> = Vec::new();
        let mut k2: usize = 0;
        while k2 < self.asks.len()
            invariant
                0 <= k2 <= self.asks@.len(),
                asks@ =~= self.asks@.take(k2 as int),
            decreases self.asks@.len() - k2,
        {
            asks.push(self.asks[k2]);
            k2 = k2 + 1;
        }
        proof {
            assert(bids@ =~= self.bids@);
            assert(asks@ =~= self.asks@);
        }
        Summary { spread: self.spread, bids, asks }
    }
}

} // verus!
