//! The merger: k-way selection of the consolidated top-N.
//!
//! The listener keeps the newest book per exchange. On every input it
//! recomputes the consolidated view: for each side, repeatedly take the
//! best remaining order across all sources under the deterministic
//! comparator (`spec_better`), up to `MAX_DEPTH` levels. The result is
//! published only when it differs from the last published value.
//!
//! The selection is specified by `spec_select` (the picked orders) and
//! `spec_curs_after` (how far each source has been consumed after a given
//! number of picks); `merge` is proved to return exactly that selection.

use vstd::prelude::*;

use crate::server::Level;
use crate::server::Summary;
use crate::server::SummaryV;
use crate::spec_better;
use crate::BookV;
use crate::Order;
use crate::OrderBook;
use crate::EXCHANGE_COUNT;

verus! {

/// Maximum asks and bids size in Summary data.
pub const MAX_DEPTH: usize = 10;

/// The chosen sides of the books.
pub open spec fn sides_of(books: Seq<BookV>, bids: bool) -> Seq<Seq<Order>> {
    books.map_values(|b: BookV| if bids { b.bids } else { b.asks })
}

/// Views of a vector of books.
pub open spec fn books_view(books: Seq<OrderBook>) -> Seq<BookV> {
    books.map_values(|b: OrderBook| b@)
}

/// Cursor vector validity: one cursor per source, each within its side.
pub open spec fn curs_ok(sides: Seq<Seq<Order>>, curs: Seq<int>) -> bool {
    curs.len() == sides.len() && forall|i: int|
        0 <= i < curs.len() ==> 0 <= #[trigger] curs[i] <= sides[i].len()
}

/// Whether source `i` still has an unconsumed order.
pub open spec fn has_cur(sides: Seq<Seq<Order>>, curs: Seq<int>, i: int) -> bool {
    0 <= i < sides.len() && 0 <= curs[i] < sides[i].len()
}

/// The order source `i`'s cursor points at.
pub open spec fn cur_ord(sides: Seq<Seq<Order>>, curs: Seq<int>, i: int) -> Order {
    sides[i][curs[i]]
}

/// The best source among the first `n`, scanning upward; a later source
/// replaces the front-runner only when strictly better.
pub open spec fn spec_pick_upto(
    sides: Seq<Seq<Order>>,
    curs: Seq<int>,
    bids: bool,
    n: nat,
) -> Option<int>
    decreases n,
{
    if n == 0 {
        None
    } else {
        let prev = spec_pick_upto(sides, curs, bids, (n - 1) as nat);
        let i = n - 1;
        if has_cur(sides, curs, i) {
            match prev {
                None => Some(i as int),
                Some(b) => {
                    if spec_better(cur_ord(sides, curs, i), cur_ord(sides, curs, b), bids) {
                        Some(i as int)
                    } else {
                        Some(b)
                    }
                },
            }
        } else {
            prev
        }
    }
}

/// The source the next level is drawn from, if any side has orders left.
pub open spec fn spec_pick(sides: Seq<Seq<Order>>, curs: Seq<int>, bids: bool) -> Option<int> {
    spec_pick_upto(sides, curs, bids, sides.len() as nat)
}

/// Cursors after consuming source `b` once.
pub open spec fn advance(curs: Seq<int>, b: int) -> Seq<int> {
    curs.update(b, curs[b] + 1)
}

/// The orders selected by up to `fuel` greedy picks.
pub open spec fn spec_select(
    sides: Seq<Seq<Order>>,
    curs: Seq<int>,
    bids: bool,
    fuel: nat,
) -> Seq<Order>
    decreases fuel,
{
    if fuel == 0 {
        Seq::empty()
    } else {
        match spec_pick(sides, curs, bids) {
            None => Seq::empty(),
            Some(b) => seq![cur_ord(sides, curs, b)] + spec_select(
                sides,
                advance(curs, b),
                bids,
                (fuel - 1) as nat,
            ),
        }
    }
}

/// Cursor positions after `j` picks.
pub open spec fn spec_curs_after(
    sides: Seq<Seq<Order>>,
    curs: Seq<int>,
    bids: bool,
    j: nat,
) -> Seq<int>
    decreases j,
{
    if j == 0 {
        curs
    } else {
        match spec_pick(sides, curs, bids) {
            None => curs,
            Some(b) => spec_curs_after(sides, advance(curs, b), bids, (j - 1) as nat),
        }
    }
}

/// Basic facts about a pick: it has an order, and validity is kept by
/// advancing it.
proof fn lemma_pick_upto_has(sides: Seq<Seq<Order>>, curs: Seq<int>, bids: bool, n: nat)
    requires
        n <= sides.len(),
    ensures
        match spec_pick_upto(sides, curs, bids, n) {
            Some(b) => 0 <= b < n && has_cur(sides, curs, b),
            None => forall|i: int| 0 <= i < n ==> !has_cur(sides, curs, i),
        },
    decreases n,
{
    if n > 0 {
        lemma_pick_upto_has(sides, curs, bids, (n - 1) as nat);
    }
}

proof fn lemma_pick_has(sides: Seq<Seq<Order>>, curs: Seq<int>, bids: bool)
    ensures
        match spec_pick(sides, curs, bids) {
            Some(b) => 0 <= b < sides.len() && has_cur(sides, curs, b),
            None => forall|i: int| 0 <= i < sides.len() ==> !has_cur(sides, curs, i),
        },
{
    lemma_pick_upto_has(sides, curs, bids, sides.len() as nat);
}

/// How one more unit of fuel extends the selection: nothing once the
/// selection has stalled; otherwise the pick at the current cursors.
proof fn lemma_select_step(sides: Seq<Seq<Order>>, curs: Seq<int>, bids: bool, k: nat)
    ensures
        ({
            let sel = spec_select(sides, curs, bids, k);
            let ca = spec_curs_after(sides, curs, bids, k);
            &&& sel.len() <= k
            &&& (sel.len() < k ==> spec_select(sides, curs, bids, (k + 1) as nat) == sel
                && spec_curs_after(sides, curs, bids, (k + 1) as nat) == ca)
            &&& (sel.len() == k ==> match spec_pick(sides, ca, bids) {
                Some(b) => spec_select(sides, curs, bids, (k + 1) as nat) == sel.push(
                    cur_ord(sides, ca, b),
                ) && spec_curs_after(sides, curs, bids, (k + 1) as nat) == advance(ca, b),
                None => spec_select(sides, curs, bids, (k + 1) as nat) == sel
                    && spec_curs_after(sides, curs, bids, (k + 1) as nat) == ca,
            })
        }),
    decreases k,
{
    let sel = spec_select(sides, curs, bids, k);
    let ca = spec_curs_after(sides, curs, bids, k);
    if k == 0 {
        match spec_pick(sides, curs, bids) {
            None => {
                assert(spec_select(sides, curs, bids, 1) =~= sel);
            },
            Some(b) => {
                assert(spec_select(sides, advance(curs, b), bids, 0) =~= Seq::<Order>::empty());
                assert(spec_select(sides, curs, bids, 1) =~= sel.push(cur_ord(sides, curs, b)));
                assert(spec_curs_after(sides, advance(curs, b), bids, 0) == advance(curs, b));
                assert(spec_curs_after(sides, curs, bids, 1) == advance(curs, b));
            },
        }
    } else {
        match spec_pick(sides, curs, bids) {
            None => {
                assert(spec_select(sides, curs, bids, (k + 1) as nat) =~= Seq::<Order>::empty());
                assert(sel =~= Seq::<Order>::empty());
                assert(spec_curs_after(sides, curs, bids, (k + 1) as nat) == curs);
            },
            Some(b) => {
                let curs1 = advance(curs, b);
                lemma_select_step(sides, curs1, bids, (k - 1) as nat);
                let sel1 = spec_select(sides, curs1, bids, (k - 1) as nat);
                let o = cur_ord(sides, curs, b);
                assert(sel == seq![o] + sel1);
                assert(spec_select(sides, curs, bids, (k + 1) as nat) == seq![o] + spec_select(
                    sides,
                    curs1,
                    bids,
                    k,
                ));
                assert(ca == spec_curs_after(sides, curs1, bids, (k - 1) as nat));
                assert(spec_curs_after(sides, curs, bids, (k + 1) as nat) == spec_curs_after(
                    sides,
                    curs1,
                    bids,
                    k,
                ));
                if sel1.len() < (k - 1) as nat {
                    assert(sel.len() < k);
                    assert(spec_select(sides, curs1, bids, k) == sel1);
                } else {
                    assert(sel.len() == k);
                    match spec_pick(sides, spec_curs_after(sides, curs1, bids, (k - 1) as nat),
                        bids) {
                        Some(b2) => {
                            assert(spec_select(sides, curs1, bids, k) == sel1.push(
                                cur_ord(sides, ca, b2),
                            ));
                            assert(seq![o] + sel1.push(cur_ord(sides, ca, b2)) =~= (seq![o]
                                + sel1).push(cur_ord(sides, ca, b2)));
                            assert(spec_curs_after(sides, curs1, bids, k) == advance(ca, b2));
                        },
                        None => {
                            assert(spec_select(sides, curs1, bids, k) == sel1);
                        },
                    }
                }
            },
        }
    }
}

/// The published level an order becomes.
pub open spec fn level_of(o: Order) -> Level {
    Level { exchange: o.exchange, price: o.price, amount: o.quantity }
}

pub open spec fn levels_of(s: Seq<Order>) -> Seq<Level> {
    s.map_values(|o: Order| level_of(o))
}

/// All cursors at the start.
pub open spec fn zero_curs(n: nat) -> Seq<int> {
    Seq::new(n, |i: int| 0)
}

/// Cursor views of the per-source positions.
pub open spec fn curs_of(iters: Seq<usize>) -> Seq<int> {
    iters.map_values(|u: usize| u as int)
}

/// The merged side: the greedy top-`MAX_DEPTH` selection over all books.
pub open spec fn merged_side(books: Seq<BookV>, bids: bool) -> Seq<Order> {
    spec_select(sides_of(books, bids), zero_curs(books.len()), bids, MAX_DEPTH as nat)
}

pub open spec fn merged_bids(books: Seq<BookV>) -> Seq<Order> {
    merged_side(books, true)
}

pub open spec fn merged_asks(books: Seq<BookV>) -> Seq<Order> {
    merged_side(books, false)
}

/// What `merge` returns: with at least one level on each side, the summary
/// of the merged sides with its exact spread; otherwise nothing (spread
/// undefined).
pub open spec fn merge_post(books: Seq<BookV>, r: Option<SummaryV>) -> bool {
    let mb = merged_bids(books);
    let ma = merged_asks(books);
    match r {
        Some(sm) => {
            &&& mb.len() > 0
            &&& ma.len() > 0
            &&& sm.bids == levels_of(mb)
            &&& sm.asks == levels_of(ma)
            &&& sm.spread == ma[0].price - mb[0].price
        },
        None => mb.len() == 0 || ma.len() == 0,
    }
}

/// Once the selection stops short of its fuel, more fuel changes nothing.
proof fn lemma_select_stall(
    sides: Seq<Seq<Order>>,
    curs: Seq<int>,
    bids: bool,
    k: nat,
    m: nat,
)
    requires
        spec_select(sides, curs, bids, k).len() < k,
        k <= m,
    ensures
        spec_select(sides, curs, bids, m) == spec_select(sides, curs, bids, k),
        spec_curs_after(sides, curs, bids, m) == spec_curs_after(sides, curs, bids, k),
    decreases m - k,
{
    if k < m {
        lemma_select_step(sides, curs, bids, k);
        lemma_select_stall(sides, curs, bids, (k + 1) as nat, m);
    }
}

/// One greedy side selection, as published levels.
fn select_levels(books: &Vec<OrderBook>, bids: bool) -> (out: Vec<Level>)
    ensures
        out@ == levels_of(merged_side(books_view(books@), bids)),
{
    let ghost bv = books_view(books@);
    let ghost sides = sides_of(bv, bids);
    let ghost curs0 = zero_curs(books@.len() as nat);
    let n = books.len();

    let mut iters: Vec<usize> = Vec::new();
    let mut z: usize = 0;
    while z < n
        invariant
            iters@.len() == z <= n,
            forall|q: int| 0 <= q < z ==> iters@[q] == 0,
        decreases n - z,
    {
        iters.push(0);
        z = z + 1;
    }
    proof {
        assert(curs_of(iters@) =~= curs0);
    }

    let mut out: Vec<Level> = Vec::new();
    let mut count: usize = 0;
    while count < MAX_DEPTH
        invariant
            n == books@.len(),
            bv == books_view(books@),
            sides == sides_of(bv, bids),
            sides.len() == n,
            curs0 == zero_curs(books@.len() as nat),
            iters@.len() == n,
            count <= MAX_DEPTH,
            out@.len() == count,
            curs_of(iters@) == spec_curs_after(sides, curs0, bids, count as nat),
            curs_ok(sides, curs_of(iters@)),
            spec_select(sides, curs0, bids, count as nat).len() == count,
            out@ == levels_of(spec_select(sides, curs0, bids, count as nat)),
        ensures
            out@ == levels_of(merged_side(bv, bids)),
        decreases MAX_DEPTH - count,
    {
        let ghost curs = curs_of(iters@);
        // Scan all sources for the best remaining order.
        let mut best: Option<usize> = None;
        let mut i: usize = 0;
        while i < n
            invariant
                0 <= i <= n == books@.len(),
                bv == books_view(books@),
                sides == sides_of(bv, bids),
                sides.len() == n,
                iters@.len() == n,
                curs == curs_of(iters@),
                curs_ok(sides, curs),
                match best {
                    Some(b) => {
                        &&& b < n
                        &&& spec_pick_upto(sides, curs, bids, i as nat) == Some(b as int)
                        &&& has_cur(sides, curs, b as int)
                    },
                    None => spec_pick_upto(sides, curs, bids, i as nat) is None,
                },
            decreases n - i,
        {
            let it = iters[i];
            let side_len = if bids {
                books[i].bids.len()
            } else {
                books[i].asks.len()
            };
            proof {
                assert(bv[i as int] == books@[i as int]@);
                assert(sides[i as int] == if bids {
                    bv[i as int].bids
                } else {
                    bv[i as int].asks
                });
            }
            if it < side_len {
                let ord = if bids {
                    books[i].bids[it]
                } else {
                    books[i].asks[it]
                };
                proof {
                    assert(ord == cur_ord(sides, curs, i as int));
                }
                match best {
                    None => {
                        best = Some(i);
                    },
                    Some(b) => {
                        let bit = iters[b];
                        let bord = if bids {
                            books[b].bids[bit]
                        } else {
                            books[b].asks[bit]
                        };
                        proof {
                            assert(bv[b as int] == books@[b as int]@);
                            assert(sides[b as int] == if bids {
                                bv[b as int].bids
                            } else {
                                bv[b as int].asks
                            });
                            assert(bord == cur_ord(sides, curs, b as int));
                        }
                        if ord.better(&bord, bids) {
                            best = Some(i);
                        }
                    },
                }
            }
            i = i + 1;
        }
        match best {
            None => {
                // No source has orders left: the selection has stalled.
                proof {
                    lemma_select_step(sides, curs0, bids, count as nat);
                    lemma_select_stall(sides, curs0, bids, (count + 1) as nat, MAX_DEPTH as nat);
                }
                break ;
            },
            Some(b) => {
                let it = iters[b];
                proof {
                    assert(bv[b as int] == books@[b as int]@);
                    assert(sides[b as int] == if bids {
                        bv[b as int].bids
                    } else {
                        bv[b as int].asks
                    });
                }
                let side_len = if bids {
                    books[b].bids.len()
                } else {
                    books[b].asks.len()
                };
                assert(it < side_len);
                let ord = if bids {
                    books[b].bids[it]
                } else {
                    books[b].asks[it]
                };
                proof {
                    assert(ord == cur_ord(sides, curs, b as int));
                }
                let ghost prev_out = out@;
                out.push(Level { exchange: ord.exchange, price: ord.price, amount: ord.quantity });
                iters[b] = it + 1;
                proof {
                    lemma_select_step(sides, curs0, bids, count as nat);
                    let sel1 = spec_select(sides, curs0, bids, (count + 1) as nat);
                    assert(sel1 == spec_select(sides, curs0, bids, count as nat).push(ord));
                    assert(levels_of(sel1) =~= prev_out.push(level_of(ord)));
                    assert(out@ == levels_of(sel1));
                    assert(curs_of(iters@) =~= advance(curs, b as int));
                    assert(spec_curs_after(sides, curs0, bids, (count + 1) as nat) == advance(
                        curs,
                        b as int,
                    ));
                }
                count = count + 1;
            },
        }
    }
    out
}

/// Whether merging `books` yields a summary at all: both sides must end
/// up non-empty.
pub open spec fn spec_merge_defined(books: Seq<BookV>) -> bool {
    merged_bids(books).len() > 0 && merged_asks(books).len() > 0
}

/// The summary the merged books denote, when `spec_merge_defined` holds.
pub open spec fn spec_summary(books: Seq<BookV>) -> SummaryV {
    SummaryV {
        spread: (merged_asks(books)[0].price - merged_bids(books)[0].price) as i128,
        bids: levels_of(merged_bids(books)),
        asks: levels_of(merged_asks(books)),
    }
}

/// The publish decision on one input: the new merged summary, unless the
/// merge is undefined or the value equals the last published one.
pub open spec fn spec_publish(books: Seq<BookV>, last: Option<SummaryV>) -> Option<SummaryV> {
    if spec_merge_defined(books) {
        let sm = spec_summary(books);
        if last == Some(sm) {
            None
        } else {
            Some(sm)
        }
    } else {
        None
    }
}

/// The merger's state: the newest book per exchange and the last summary
/// it published.
pub struct ExchangeListener {
    pub books: Vec<OrderBook>,
    pub last_summary: Option<Summary>,
}

impl ExchangeListener {
    /// Listener state validity: one book slot per exchange.
    pub open spec fn wf(self) -> bool {
        self.books@.len() == EXCHANGE_COUNT
    }

    /// A fresh listener: empty books, nothing published yet.
    pub fn new() -> (r: Self)
        ensures
            r.wf(),
            r.last_summary is None,
            forall|i: int|
                0 <= i < r.books@.len() ==> (#[trigger] r.books@[i])@.bids.len() == 0
                    && r.books@[i]@.asks.len() == 0,
    {
        let mut books: Vec<OrderBook> = Vec::new();
        books.push(OrderBook::default());
        books.push(OrderBook::default());
        Self { books, last_summary: None }
    }

    /// Merges partial order books into a summary: the consolidated top-N
    /// of both sides and their spread, or "spread undefined" when a side
    /// is empty.
    pub fn merge(books: &Vec<OrderBook>) -> (r: Result<Summary, String>)
        ensures
            match r {
                Ok(sm) => merge_post(books_view(books@), Some(sm@)),
                Err(e) => merge_post(books_view(books@), None) && e@ == "Spread undefined"@,
            },
    {
        let bids = select_levels(books, true);
        let asks = select_levels(books, false);

        if asks.len() > 0 && bids.len() > 0 {
            let spread: i128 = asks[0].price as i128 - bids[0].price as i128;
            proof {
                let mb = merged_bids(books_view(books@));
                let ma = merged_asks(books_view(books@));
                assert(asks@[0] == level_of(ma[0]));
                assert(bids@[0] == level_of(mb[0]));
            }
            Ok(Summary { asks, bids, spread })
        } else {
            Err(String::from_str("Spread undefined"))
        }
    }

    /// Feed one normalized book: overwrite its exchange's slot, re-merge,
    /// and hand back the summary to publish, if any.
    pub fn on_book(&mut self, book: OrderBook) -> (r: Option<Summary>)
        requires
            old(self).wf(),
        ensures
            final(self).wf(),
            final(self).books@ == old(self).books@.update(book.exchange.spec_index(), book),
            ({
                let nb = books_view(final(self).books@);
                let lastv = match old(self).last_summary {
                    Some(s) => Some(s@),
                    None => None::<SummaryV>,
                };
                match spec_publish(nb, lastv) {
                    Some(sm) => {
                        &&& (match r {
                            Some(s) => s@ == sm,
                            None => false,
                        })
                        &&& (match final(self).last_summary {
                            Some(s) => s@ == sm,
                            None => false,
                        })
                    },
                    None => r is None && final(self).last_summary == old(self).last_summary,
                }
            }),
    {
        let idx = book.exchange.index();
        self.books[idx] = book;
        let ghost nb = books_view(self.books@);
        match Self::merge(&self.books) {
            Ok(v) => {
                proof {
                    assert(v@ == spec_summary(nb));
                }
                let send = match &self.last_summary {
                    Some(last) => *last != v,
                    None => true,
                };
                if send {
                    let out = v.clone();
                    self.last_summary = Some(v);
                    Some(out)
                } else {
                    None
                }
            },
            Err(_e) => None,
        }
    }
}

/// A source book as the data model requires it: bids strictly descending
/// and asks strictly ascending by price, each side within depth.
pub open spec fn book_wf(b: BookV) -> bool {
    &&& forall|p: int, q: int|
        0 <= p < q < b.bids.len() ==> (#[trigger] b.bids[p]).price > (#[trigger] b.bids[q]).price
    &&& forall|p: int, q: int|
        0 <= p < q < b.asks.len() ==> (#[trigger] b.asks[p]).price < (#[trigger] b.asks[q]).price
    &&& b.bids.len() <= MAX_DEPTH
    &&& b.asks.len() <= MAX_DEPTH
}

/// A side is ordered best-first: a later order is never preferred over an
/// earlier one.
pub open spec fn side_sorted(side: Seq<Order>, bids: bool) -> bool {
    forall|p: int, q: int|
        0 <= p < q < side.len() ==> !spec_better(#[trigger] side[q], #[trigger] side[p], bids)
}

pub open spec fn sides_sorted(sides: Seq<Seq<Order>>, bids: bool) -> bool {
    forall|i: int| 0 <= i < sides.len() ==> side_sorted(#[trigger] sides[i], bids)
}

/// "Preferred" is transitive.
proof fn lemma_better_trans(a: Order, b: Order, c: Order, bids: bool)
    requires
        spec_better(a, b, bids),
        spec_better(b, c, bids),
    ensures
        spec_better(a, c, bids),
{
}

/// "Not preferred" is transitive: the comparator is a total preorder.
proof fn lemma_not_better_trans(a: Order, b: Order, c: Order, bids: bool)
    requires
        !spec_better(a, b, bids),
        !spec_better(b, c, bids),
    ensures
        !spec_better(a, c, bids),
{
}

/// The picked source's head is not worse than any other source's head.
proof fn lemma_pick_upto_best(sides: Seq<Seq<Order>>, curs: Seq<int>, bids: bool, n: nat)
    requires
        n <= sides.len(),
    ensures
        match spec_pick_upto(sides, curs, bids, n) {
            Some(b) => forall|i: int|
                0 <= i < n && has_cur(sides, curs, i) ==> !spec_better(
                    cur_ord(sides, curs, i),
                    cur_ord(sides, curs, b),
                    bids,
                ),
            None => true,
        },
    decreases n,
{
    if n > 0 {
        lemma_pick_upto_best(sides, curs, bids, (n - 1) as nat);
        lemma_pick_upto_has(sides, curs, bids, (n - 1) as nat);
        let prev = spec_pick_upto(sides, curs, bids, (n - 1) as nat);
        let last = n - 1;
        if has_cur(sides, curs, last) {
            match prev {
                None => {},
                Some(pb) => {
                    if spec_better(cur_ord(sides, curs, last), cur_ord(sides, curs, pb), bids) {
                        // The new head beats the old front-runner, hence
                        // everything the front-runner was not worse than.
                        assert forall|i: int| 0 <= i < n && has_cur(sides, curs, i) implies
                            !spec_better(
                                cur_ord(sides, curs, i),
                                cur_ord(sides, curs, last),
                                bids,
                            ) by {
                            if i < n - 1 && spec_better(
                                cur_ord(sides, curs, i),
                                cur_ord(sides, curs, last),
                                bids,
                            ) {
                                lemma_better_trans(
                                    cur_ord(sides, curs, i),
                                    cur_ord(sides, curs, last),
                                    cur_ord(sides, curs, pb),
                                    bids,
                                );
                            }
                        }
                    }
                },
            }
        }
    }
}

/// The pick is the best remaining order over all sources, heads and
/// tails alike, when every side is sorted best-first.
proof fn lemma_pick_best(sides: Seq<Seq<Order>>, curs: Seq<int>, bids: bool)
    requires
        curs_ok(sides, curs),
        sides_sorted(sides, bids),
    ensures
        match spec_pick(sides, curs, bids) {
            Some(b) => forall|i: int, k: int|
                0 <= i < sides.len() && curs[i] <= k < sides[i].len() ==> !spec_better(
                    #[trigger] sides[i][k],
                    cur_ord(sides, curs, b),
                    bids,
                ),
            None => true,
        },
{
    lemma_pick_upto_best(sides, curs, bids, sides.len() as nat);
    lemma_pick_has(sides, curs, bids);
    match spec_pick(sides, curs, bids) {
        Some(b) => {
            assert forall|i: int, k: int|
                0 <= i < sides.len() && curs[i] <= k < sides[i].len() implies !spec_better(
                sides[i][k],
                cur_ord(sides, curs, b),
                bids,
            ) by {
                assert(has_cur(sides, curs, i));
                assert(!spec_better(cur_ord(sides, curs, i), cur_ord(sides, curs, b), bids));
                if k > curs[i] {
                    assert(!spec_better(sides[i][k], sides[i][curs[i]], bids));
                    lemma_not_better_trans(
                        sides[i][k],
                        cur_ord(sides, curs, i),
                        cur_ord(sides, curs, b),
                        bids,
                    );
                }
            }
        },
        None => {},
    }
}

/// No remaining order beats the `j`-th selected one.
proof fn lemma_select_best_at(
    sides: Seq<Seq<Order>>,
    curs: Seq<int>,
    bids: bool,
    fuel: nat,
    j: int,
    i: int,
    k: int,
)
    requires
        curs_ok(sides, curs),
        sides_sorted(sides, bids),
        0 <= j < spec_select(sides, curs, bids, fuel).len(),
        0 <= i < sides.len(),
        spec_curs_after(sides, curs, bids, j as nat)[i] <= k < sides[i].len(),
    ensures
        !spec_better(sides[i][k], spec_select(sides, curs, bids, fuel)[j], bids),
    decreases j,
{
    lemma_pick_has(sides, curs, bids);
    lemma_pick_best(sides, curs, bids);
    match spec_pick(sides, curs, bids) {
        None => {
            assert(spec_select(sides, curs, bids, fuel).len() == 0);
        },
        Some(b) => {
            let curs1 = advance(curs, b);
            assert(curs_ok(sides, curs1));
            if j == 0 {
                assert(spec_select(sides, curs, bids, fuel)[0] == cur_ord(sides, curs, b));
                assert(spec_curs_after(sides, curs, bids, 0) == curs);
            } else {
                assert(spec_select(sides, curs, bids, fuel)[j] == spec_select(
                    sides,
                    curs1,
                    bids,
                    (fuel - 1) as nat,
                )[j - 1]);
                assert(spec_curs_after(sides, curs, bids, j as nat) == spec_curs_after(
                    sides,
                    curs1,
                    bids,
                    (j - 1) as nat,
                ));
                lemma_select_best_at(sides, curs1, bids, (fuel - 1) as nat, j - 1, i, k);
            }
        },
    }
}

/// Merge correctness: for well-formed source books, each merged level is
/// a best remaining order at the moment it was emitted. "Remaining" is
/// every source order not consumed by the earlier levels:
/// `spec_curs_after(..., j)` names how far each source was consumed by
/// levels `0..j`.
pub proof fn lemma_merge_correct(books: Seq<BookV>, bids: bool, j: int, i: int, k: int)
    requires
        forall|b: int| 0 <= b < books.len() ==> book_wf(#[trigger] books[b]),
        0 <= j < merged_side(books, bids).len(),
        0 <= i < books.len(),
        spec_curs_after(sides_of(books, bids), zero_curs(books.len()), bids, j as nat)[i] <= k,
        k < sides_of(books, bids)[i].len(),
    ensures
        !spec_better(sides_of(books, bids)[i][k], merged_side(books, bids)[j], bids),
{
    let sides = sides_of(books, bids);
    assert(sides_sorted(sides, bids)) by {
        assert forall|s: int| 0 <= s < sides.len() implies side_sorted(sides[s], bids) by {
            assert(book_wf(books[s]));
            assert(sides[s] == if bids {
                books[s].bids
            } else {
                books[s].asks
            });
        }
    }
    assert(curs_ok(sides, zero_curs(books.len())));
    lemma_select_best_at(sides, zero_curs(books.len()), bids, MAX_DEPTH as nat, j, i, k);
}

/// Determinism: the merge contract pins its result, so two results for
/// the same books are value-equal.
pub proof fn lemma_merge_deterministic(
    books: Seq<BookV>,
    r1: Option<SummaryV>,
    r2: Option<SummaryV>,
)
    requires
        merge_post(books, r1),
        merge_post(books, r2),
    ensures
        r1 == r2,
{
}

/// Tie-break: on equal price and equal quantity, the order with the
/// smaller sequence number wins, on either side.
pub proof fn lemma_tie_break(a: Order, b: Order, bids: bool)
    requires
        a.price == b.price,
        a.quantity == b.quantity,
    ensures
        spec_better(a, b, bids) <==> a.id < b.id,
{
}

/// Spread: whenever `merge` returns a summary, both sides are non-empty
/// and the spread is exactly best ask price minus best bid price.
pub proof fn lemma_spread(books: Seq<BookV>, sm: SummaryV)
    requires
        merge_post(books, Some(sm)),
    ensures
        sm.bids.len() > 0,
        sm.asks.len() > 0,
        sm.spread == sm.asks[0].price - sm.bids[0].price,
{
    assert(sm.asks[0] == level_of(merged_asks(books)[0]));
    assert(sm.bids[0] == level_of(merged_bids(books)[0]));
}

/// Each selected order is literally an order of one of the sides, at or
/// past that side's cursor.
proof fn lemma_select_source(sides: Seq<Seq<Order>>, curs: Seq<int>, bids: bool, fuel: nat, j: int)
    requires
        curs_ok(sides, curs),
        0 <= j < spec_select(sides, curs, bids, fuel).len(),
    ensures
        exists|i: int, k: int|
            0 <= i < sides.len() && curs[i] <= k < sides[i].len() && spec_select(
                sides,
                curs,
                bids,
                fuel,
            )[j] == #[trigger] sides[i][k],
    decreases j,
{
    lemma_pick_has(sides, curs, bids);
    match spec_pick(sides, curs, bids) {
        None => {
            assert(spec_select(sides, curs, bids, fuel).len() == 0);
        },
        Some(b) => {
            let curs1 = advance(curs, b);
            assert(curs_ok(sides, curs1));
            if j == 0 {
                assert(spec_select(sides, curs, bids, fuel)[0] == sides[b][curs[b]]);
            } else {
                assert(spec_select(sides, curs, bids, fuel)[j] == spec_select(
                    sides,
                    curs1,
                    bids,
                    (fuel - 1) as nat,
                )[j - 1]);
                lemma_select_source(sides, curs1, bids, (fuel - 1) as nat, j - 1);
                let (i, k): (int, int) = choose|i: int, k: int|
                    0 <= i < sides.len() && curs1[i] <= k < sides[i].len() && spec_select(
                        sides,
                        curs1,
                        bids,
                        (fuel - 1) as nat,
                    )[j - 1] == #[trigger] sides[i][k];
                assert(curs[i] <= k < sides[i].len() && spec_select(sides, curs, bids, fuel)[j]
                    == sides[i][k]);
            }
        },
    }
}

/// The selection is emitted best-first: a later pick never beats an
/// earlier one.
proof fn lemma_select_sorted_at(
    sides: Seq<Seq<Order>>,
    curs: Seq<int>,
    bids: bool,
    fuel: nat,
    j1: int,
    j2: int,
)
    requires
        curs_ok(sides, curs),
        sides_sorted(sides, bids),
        0 <= j1 < j2 < spec_select(sides, curs, bids, fuel).len(),
    ensures
        !spec_better(
            spec_select(sides, curs, bids, fuel)[j2],
            spec_select(sides, curs, bids, fuel)[j1],
            bids,
        ),
    decreases j1,
{
    lemma_pick_has(sides, curs, bids);
    lemma_pick_best(sides, curs, bids);
    match spec_pick(sides, curs, bids) {
        None => {
            assert(spec_select(sides, curs, bids, fuel).len() == 0);
        },
        Some(b) => {
            let curs1 = advance(curs, b);
            assert(curs_ok(sides, curs1));
            assert(spec_select(sides, curs, bids, fuel)[j2] == spec_select(
                sides,
                curs1,
                bids,
                (fuel - 1) as nat,
            )[j2 - 1]);
            if j1 == 0 {
                let o = spec_select(sides, curs, bids, fuel)[0];
                assert(o == cur_ord(sides, curs, b));
                lemma_select_source(sides, curs1, bids, (fuel - 1) as nat, j2 - 1);
                let (i, k): (int, int) = choose|i: int, k: int|
                    0 <= i < sides.len() && curs1[i] <= k < sides[i].len() && spec_select(
                        sides,
                        curs1,
                        bids,
                        (fuel - 1) as nat,
                    )[j2 - 1] == #[trigger] sides[i][k];
                assert(curs[i] <= k);
                assert(!spec_better(sides[i][k], o, bids));
            } else {
                assert(spec_select(sides, curs, bids, fuel)[j1] == spec_select(
                    sides,
                    curs1,
                    bids,
                    (fuel - 1) as nat,
                )[j1 - 1]);
                lemma_select_sorted_at(sides, curs1, bids, (fuel - 1) as nat, j1 - 1, j2 - 1);
            }
        },
    }
}

/// The sorted-sides hypothesis, from the book invariant.
proof fn lemma_books_sides_sorted(books: Seq<BookV>, bids: bool)
    requires
        forall|i: int| 0 <= i < books.len() ==> book_wf(#[trigger] books[i]),
    ensures
        sides_sorted(sides_of(books, bids), bids),
{
    let sides = sides_of(books, bids);
    assert forall|s: int| 0 <= s < sides.len() implies side_sorted(sides[s], bids) by {
        assert(book_wf(books[s]));
        assert(sides[s] == if bids {
            books[s].bids
        } else {
            books[s].asks
        });
    }
}

/// Tie-break, positionally: among well-formed books with source orders
/// `a` and `b` that tie on price and quantity, the older order (smaller
/// sequence number) is emitted first: wherever both appear in a merged
/// side, `a`'s level stands strictly before `b`'s.
pub proof fn lemma_tie_break_positional(
    books: Seq<BookV>,
    bids: bool,
    a: Order,
    b: Order,
    j1: int,
    j2: int,
)
    requires
        forall|i: int| 0 <= i < books.len() ==> book_wf(#[trigger] books[i]),
        a.price == b.price,
        a.quantity == b.quantity,
        a.id < b.id,
        0 <= j1 < merged_side(books, bids).len(),
        0 <= j2 < merged_side(books, bids).len(),
        merged_side(books, bids)[j1] == a,
        merged_side(books, bids)[j2] == b,
    ensures
        j1 < j2,
{
    lemma_tie_break(a, b, bids);
    if j2 < j1 {
        lemma_books_sides_sorted(books, bids);
        assert(curs_ok(sides_of(books, bids), zero_curs(books.len())));
        lemma_select_sorted_at(
            sides_of(books, bids),
            zero_curs(books.len()),
            bids,
            MAX_DEPTH as nat,
            j2,
            j1,
        );
    }
}

/// No cross-contamination: every merged level is one of the source
/// orders of that side, so its exchange tag is the tag of the order it
/// came from.
pub proof fn lemma_level_source(books: Seq<BookV>, bids: bool, j: int)
    requires
        0 <= j < merged_side(books, bids).len(),
    ensures
        exists|i: int, k: int|
            0 <= i < books.len() && 0 <= k < sides_of(books, bids)[i].len() && merged_side(
                books,
                bids,
            )[j] == #[trigger] sides_of(books, bids)[i][k] && levels_of(
                merged_side(books, bids),
            )[j].exchange == sides_of(books, bids)[i][k].exchange,
{
    let sides = sides_of(books, bids);
    assert(curs_ok(sides, zero_curs(books.len())));
    lemma_select_source(sides, zero_curs(books.len()), bids, MAX_DEPTH as nat, j);
    let (i, k): (int, int) = choose|i: int, k: int|
        0 <= i < sides.len() && 0 <= k < sides[i].len() && merged_side(books, bids)[j]
            == #[trigger] sides[i][k];
    assert(levels_of(merged_side(books, bids))[j] == level_of(merged_side(books, bids)[j]));
    assert(0 <= i < books.len() && 0 <= k < sides_of(books, bids)[i].len() && merged_side(
        books,
        bids,
    )[j] == sides_of(books, bids)[i][k] && levels_of(merged_side(books, bids))[j].exchange
        == sides_of(books, bids)[i][k].exchange);
}

/// `s` with the entries at `p` and `q` exchanged.
pub open spec fn swap_seq<T>(s: Seq<T>, p: int, q: int) -> Seq<T> {
    s.update(p, s[q]).update(q, s[p])
}

/// Where index `i` goes under the swap of `p` and `q`.
pub open spec fn swap_idx(i: int, p: int, q: int) -> int {
    if i == p {
        q
    } else if i == q {
        p
    } else {
        i
    }
}

/// Sequence numbers are unique across all orders of all sources.
pub open spec fn ids_distinct(sides: Seq<Seq<Order>>) -> bool {
    forall|i1: int, k1: int, i2: int, k2: int|
        0 <= i1 < sides.len() && 0 <= k1 < sides[i1].len() && 0 <= i2 < sides.len() && 0 <= k2
            < sides[i2].len() && (i1 != i2 || k1 != k2) ==> (#[trigger] sides[i1][k1]).id != (
        #[trigger] sides[i2][k2]).id
}

/// Two orders neither of which is preferred agree in every compared field.
proof fn lemma_not_better_antisym(a: Order, b: Order, bids: bool)
    requires
        !spec_better(a, b, bids),
        !spec_better(b, a, bids),
    ensures
        a.price == b.price,
        a.quantity == b.quantity,
        a.id == b.id,
{
}

/// The pick of the swapped sources is the same order, at the swapped
/// index, and advancing it keeps the swap correspondence.
proof fn lemma_pick_swap(sides: Seq<Seq<Order>>, curs: Seq<int>, bids: bool, p: int, q: int)
    requires
        curs_ok(sides, curs),
        ids_distinct(sides),
        0 <= p < sides.len(),
        0 <= q < sides.len(),
    ensures
        ({
            let s2 = swap_seq(sides, p, q);
            let c2 = swap_seq(curs, p, q);
            match (spec_pick(sides, curs, bids), spec_pick(s2, c2, bids)) {
                (Some(b1), Some(b2)) => {
                    &&& b2 == swap_idx(b1, p, q)
                    &&& cur_ord(s2, c2, b2) == cur_ord(sides, curs, b1)
                    &&& swap_seq(advance(curs, b1), p, q) == advance(c2, b2)
                },
                (None, None) => true,
                _ => false,
            }
        }),
{
    let s2 = swap_seq(sides, p, q);
    let c2 = swap_seq(curs, p, q);
    lemma_pick_has(sides, curs, bids);
    lemma_pick_has(s2, c2, bids);
    lemma_pick_upto_best(sides, curs, bids, sides.len() as nat);
    lemma_pick_upto_best(s2, c2, bids, s2.len() as nat);
    assert(s2.len() == sides.len());
    // The swap correspondence of heads: source i of the swapped layout is
    // source swap_idx(i) of the original.
    assert forall|i: int| 0 <= i < s2.len() implies s2[i] == sides[swap_idx(i, p, q)] && c2[i]
        == curs[swap_idx(i, p, q)] by {}
    match (spec_pick(sides, curs, bids), spec_pick(s2, c2, bids)) {
        (Some(b1), Some(b2)) => {
            let ob1 = cur_ord(sides, curs, b1);
            let ob2 = cur_ord(s2, c2, b2);
            // ob2 is a head of the original layout at swap_idx(b2).
            let b2o = swap_idx(b2, p, q);
            assert(has_cur(sides, curs, b2o));
            assert(cur_ord(sides, curs, b2o) == ob2);
            // ob1 is a head of the swapped layout at swap_idx(b1).
            let b1s = swap_idx(b1, p, q);
            assert(has_cur(s2, c2, b1s));
            assert(cur_ord(s2, c2, b1s) == ob1);
            // Each pick is not worse than the other, so they agree.
            assert(!spec_better(ob2, ob1, bids));
            assert(!spec_better(ob1, ob2, bids));
            lemma_not_better_antisym(ob1, ob2, bids);
            if b1 != b2o {
                assert(sides[b1][curs[b1]].id != sides[b2o][curs[b2o]].id);
            }
            assert(b1 == b2o);
            assert(swap_seq(advance(curs, b1), p, q) =~= advance(c2, b2));
        },
        (Some(b1), None) => {
            assert(has_cur(s2, c2, swap_idx(b1, p, q)));
        },
        (None, Some(b2)) => {
            assert(has_cur(sides, curs, swap_idx(b2, p, q)));
        },
        (None, None) => {},
    }
}

/// The greedy selection is unchanged when two sources trade places.
proof fn lemma_select_swap(
    sides: Seq<Seq<Order>>,
    curs: Seq<int>,
    bids: bool,
    fuel: nat,
    p: int,
    q: int,
)
    requires
        curs_ok(sides, curs),
        ids_distinct(sides),
        0 <= p < sides.len(),
        0 <= q < sides.len(),
    ensures
        spec_select(swap_seq(sides, p, q), swap_seq(curs, p, q), bids, fuel) == spec_select(
            sides,
            curs,
            bids,
            fuel,
        ),
    decreases fuel,
{
    if fuel > 0 {
        let s2 = swap_seq(sides, p, q);
        let c2 = swap_seq(curs, p, q);
        lemma_pick_swap(sides, curs, bids, p, q);
        lemma_pick_has(sides, curs, bids);
        match spec_pick(sides, curs, bids) {
            None => {
                assert(spec_select(s2, c2, bids, fuel) =~= spec_select(sides, curs, bids, fuel));
            },
            Some(b1) => {
                let b2 = swap_idx(b1, p, q);
                let curs1 = advance(curs, b1);
                assert(curs_ok(sides, curs1));
                lemma_select_swap(sides, curs1, bids, (fuel - 1) as nat, p, q);
                assert(swap_seq(curs1, p, q) == advance(c2, b2));
                assert(spec_select(s2, c2, bids, fuel) == seq![cur_ord(s2, c2, b2)] + spec_select(
                    s2,
                    advance(c2, b2),
                    bids,
                    (fuel - 1) as nat,
                ));
            },
        }
    } else {
        assert(spec_select(swap_seq(sides, p, q), swap_seq(curs, p, q), bids, 0) =~= spec_select(
            sides,
            curs,
            bids,
            0,
        ));
    }
}

/// Order independence: with process-unique sequence numbers, swapping two
/// source books does not change the merged result of either side. (Every
/// reordering of the books is a chain of such swaps.)
pub proof fn lemma_merge_swap(books: Seq<BookV>, bids: bool, p: int, q: int)
    requires
        ids_distinct(sides_of(books, bids)),
        0 <= p < books.len(),
        0 <= q < books.len(),
    ensures
        merged_side(swap_seq(books, p, q), bids) == merged_side(books, bids),
{
    let sides = sides_of(books, bids);
    let books2 = swap_seq(books, p, q);
    assert(sides_of(books2, bids) =~= swap_seq(sides, p, q));
    assert(curs_ok(sides, zero_curs(books.len())));
    assert(swap_seq(zero_curs(books.len()), p, q) =~= zero_curs(books2.len()));
    lemma_select_swap(sides, zero_curs(books.len()), bids, MAX_DEPTH as nat, p, q);
}

/// Swapping two entries leaves a sequence's multiset unchanged.
proof fn lemma_swap_multiset<T>(s: Seq<T>, p: int, q: int)
    requires
        0 <= p < s.len(),
        0 <= q < s.len(),
    ensures
        swap_seq(s, p, q).to_multiset() == s.to_multiset(),
{
    broadcast use vstd::seq_lib::group_to_multiset_ensures;
    broadcast use vstd::multiset::group_multiset_axioms;

    if p == q {
        assert(swap_seq(s, p, q) =~= s);
    } else {
        let s1 = s.update(p, s[q]);
        assert(s.contains(s[p]));
        assert(s.contains(s[q]));
        assert(s1[q] == s[q]);
        assert(s1.to_multiset() == s.to_multiset().insert(s[q]).remove(s[p]));
        assert(swap_seq(s, p, q).to_multiset() == s1.to_multiset().insert(s[p]).remove(s[q]));
        assert forall|x: T|
            swap_seq(s, p, q).to_multiset().count(x) == s.to_multiset().count(x) by {
            assert(s.to_multiset().count(s[p]) > 0);
            assert(s.to_multiset().count(s[q]) > 0);
        }
        assert(swap_seq(s, p, q).to_multiset() =~= s.to_multiset());
    }
}

/// Distinct sequence numbers survive a reordering of the sources.
proof fn lemma_ids_distinct_swap(sides: Seq<Seq<Order>>, p: int, q: int)
    requires
        ids_distinct(sides),
        0 <= p < sides.len(),
        0 <= q < sides.len(),
    ensures
        ids_distinct(swap_seq(sides, p, q)),
{
    let s2 = swap_seq(sides, p, q);
    assert forall|i1: int, k1: int, i2: int, k2: int|
        0 <= i1 < s2.len() && 0 <= k1 < s2[i1].len() && 0 <= i2 < s2.len() && 0 <= k2
            < s2[i2].len() && (i1 != i2 || k1 != k2) implies (#[trigger] s2[i1][k1]).id != (
    #[trigger] s2[i2][k2]).id by {
        assert(s2[i1] == sides[swap_idx(i1, p, q)]);
        assert(s2[i2] == sides[swap_idx(i2, p, q)]);
        assert(i1 != i2 ==> swap_idx(i1, p, q) != swap_idx(i2, p, q));
    }
}

/// Any reordering is a chain of swaps: walk the target order, pulling
/// each book of `s2` into its place in `s1`.
proof fn lemma_merge_permutation_from(s1: Seq<BookV>, s2: Seq<BookV>, bids: bool, k: int)
    requires
        s1.len() == s2.len(),
        s1.to_multiset() == s2.to_multiset(),
        ids_distinct(sides_of(s1, bids)),
        0 <= k <= s1.len(),
        forall|i: int| 0 <= i < k ==> s1[i] == s2[i],
    ensures
        merged_side(s1, bids) == merged_side(s2, bids),
    decreases s1.len() - k,
{
    broadcast use vstd::seq_lib::group_to_multiset_ensures;
    broadcast use vstd::multiset::group_multiset_axioms;

    if k == s1.len() {
        assert(s1 =~= s2);
    } else {
        // The tails carry the same books.
        assert(s1 =~= s1.take(k) + s1.skip(k));
        assert(s2 =~= s2.take(k) + s2.skip(k));
        vstd::seq_lib::lemma_multiset_commutative(s1.take(k), s1.skip(k));
        vstd::seq_lib::lemma_multiset_commutative(s2.take(k), s2.skip(k));
        assert(s1.take(k) =~= s2.take(k));
        assert(s1.skip(k).to_multiset() =~= s2.skip(k).to_multiset()) by {
            assert forall|x: BookV|
                s1.skip(k).to_multiset().count(x) == s2.skip(k).to_multiset().count(x) by {
                assert(s1.to_multiset().count(x) == s1.take(k).to_multiset().count(x) + s1.skip(
                    k,
                ).to_multiset().count(x));
                assert(s2.to_multiset().count(x) == s2.take(k).to_multiset().count(x) + s2.skip(
                    k,
                ).to_multiset().count(x));
            }
        }
        // Find s2's next book in the unmatched tail of s1.
        assert(s2.skip(k)[0] == s2[k]);
        assert(s2.skip(k).contains(s2[k]));
        assert(s2.skip(k).to_multiset().count(s2[k]) > 0);
        assert(s1.skip(k).to_multiset().count(s2[k]) > 0);
        assert(s1.skip(k).contains(s2[k]));
        let j = choose|j: int| 0 <= j < s1.skip(k).len() && s1.skip(k)[j] == s2[k];
        let p = k + j;
        assert(s1[p] == s2[k]);
        if p == k {
            lemma_merge_permutation_from(s1, s2, bids, k + 1);
        } else {
            let s1b = swap_seq(s1, k, p);
            lemma_merge_swap(s1, bids, k, p);
            lemma_swap_multiset(s1, k, p);
            assert(sides_of(s1b, bids) =~= swap_seq(sides_of(s1, bids), k, p));
            lemma_ids_distinct_swap(sides_of(s1, bids), k, p);
            assert(forall|i: int| 0 <= i < k + 1 ==> s1b[i] == s2[i]);
            lemma_merge_permutation_from(s1b, s2, bids, k + 1);
        }
    }
}

/// Order independence in general: two book vectors holding the same books
/// (each a reordering of the other: equal as multisets) merge to the same
/// side, given process-unique sequence numbers.
pub proof fn lemma_merge_permutation(s1: Seq<BookV>, s2: Seq<BookV>, bids: bool)
    requires
        s1.to_multiset() == s2.to_multiset(),
        ids_distinct(sides_of(s1, bids)),
    ensures
        merged_side(s1, bids) == merged_side(s2, bids),
{
    broadcast use vstd::seq_lib::group_to_multiset_ensures;

    assert(s1.to_multiset().len() == s1.len());
    assert(s2.to_multiset().len() == s2.len());
    lemma_merge_permutation_from(s1, s2, bids, 0);
}

/// The whole merge result is order independent: book vectors holding the
/// same books yield the same summary, or the same "spread undefined"
/// outcome.
pub proof fn lemma_merge_result_permutation(
    s1: Seq<BookV>,
    s2: Seq<BookV>,
    r1: Option<SummaryV>,
    r2: Option<SummaryV>,
)
    requires
        s1.to_multiset() == s2.to_multiset(),
        ids_distinct(sides_of(s1, true)),
        ids_distinct(sides_of(s1, false)),
        merge_post(s1, r1),
        merge_post(s2, r2),
    ensures
        r1 == r2,
{
    lemma_merge_permutation(s1, s2, true);
    lemma_merge_permutation(s1, s2, false);
    lemma_merge_deterministic(s1, r1, r2);
}

/// Suppression: after a publish, feeding the identical book again never
/// publishes a second time.
pub proof fn lemma_suppression(books: Seq<BookV>, last: Option<SummaryV>, b: BookV, idx: int)
    requires
        0 <= idx < books.len(),
    ensures
        ({
            let books1 = books.update(idx, b);
            let p1 = spec_publish(books1, last);
            let last1 = if p1 is Some {
                p1
            } else {
                last
            };
            spec_publish(books1.update(idx, b), last1) is None
        }),
{
    let books1 = books.update(idx, b);
    assert(books1.update(idx, b) =~= books1);
}

} // verus!
