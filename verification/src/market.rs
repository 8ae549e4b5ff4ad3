//! The equilibrium matcher: given a fully sorted buy side (rates descending)
//! and sell side (rates ascending), walks the two cumulative-quantity curves
//! in lock-step, finds the crossing point, clears every matched order at one
//! uniform rate, and hands back the open remainders of both books.

use crate::orders::{OrderType, Price, RegisteredOrder};
use crate::sorted_vec_orders::{entries_ok, rate_le, sorted_side, SortedOrders};
use vstd::prelude::*;

verus! {

/// A fill produced by one auction: the source order, the uniform clearing
/// rate, and the filled quantity (the full order except at the boundary).
#[derive(Debug)]
pub struct Trade {
    pub order: RegisteredOrder,
    pub rate: Price,
    pub quantity: u32,
}

/// Everything one auction produces: the open remainders of both books, the
/// fills, the total volume, the uniform clearing rate (absent when nothing
/// crossed), and how many orders matched on each side.
pub struct MarketMatchResult {
    pub open_bids: SortedOrders,
    pub open_asks: SortedOrders,
    pub trades: Vec<Trade>,
    pub traded_volume: u64,
    pub traded_rate: Option<Price>,
    pub bids_matched: usize,
    pub asks_matched: usize,
}

/// Cumulative quantity of the first `n` orders of a side.
pub open spec fn qsum(s: Seq<RegisteredOrder>, n: int) -> int
    decreases n,
{
    if n <= 0 {
        0
    } else {
        qsum(s, n - 1) + s[n - 1].quantity
    }
}

proof fn lemma_qsum_nonneg(s: Seq<RegisteredOrder>, n: int)
    ensures
        qsum(s, n) >= 0,
    decreases n,
{
    if n > 0 {
        lemma_qsum_nonneg(s, n - 1);
    }
}

proof fn lemma_qsum_mono(s: Seq<RegisteredOrder>, m: int, n: int)
    requires
        m <= n,
    ensures
        qsum(s, m) <= qsum(s, n),
    decreases n - m,
{
    if m < n {
        lemma_qsum_mono(s, m, n - 1);
    }
}

/// The rate the walk currently bids: the last accepted buy's rate, or the
/// maximum before any buy was accepted.
pub open spec fn cur_bid(b: Seq<RegisteredOrder>, bn: int) -> int {
    if bn == 0 {
        i32::MAX as int
    } else {
        b[bn - 1].rate as int
    }
}

/// The rate the walk currently asks: the last accepted sell's rate, or the
/// minimum before any sell was accepted.
pub open spec fn cur_ask(a: Seq<RegisteredOrder>, an: int) -> int {
    if an == 0 {
        i32::MIN as int
    } else {
        a[an - 1].rate as int
    }
}

/// Whether the merged walk offers a buy next: the side whose next cumulative
/// quantity is strictly smaller advances, and a tie advances the sell.
pub open spec fn takes_buy(
    b: Seq<RegisteredOrder>,
    a: Seq<RegisteredOrder>,
    bn: int,
    an: int,
) -> bool {
    bn < b.len() && (an >= a.len() || qsum(b, bn + 1) < qsum(a, an + 1))
}

/// The equilibrium walk: starting from `bn` accepted buys and `an` accepted
/// sells, consume the merged cumulative-quantity stream while each element
/// still crosses, and return the accepted counts at the first failure.
pub open spec fn walk(b: Seq<RegisteredOrder>, a: Seq<RegisteredOrder>, bn: int, an: int) -> (
    int,
    int,
)
    decreases b.len() + a.len() - bn - an,
    when 0 <= bn <= b.len() && 0 <= an <= a.len()
{
    if takes_buy(b, a, bn, an) {
        if b[bn].rate >= cur_ask(a, an) {
            walk(b, a, bn + 1, an)
        } else {
            (bn, an)
        }
    } else if an < a.len() {
        if cur_bid(b, bn) >= a[an].rate {
            walk(b, a, bn, an + 1)
        } else {
            (bn, an)
        }
    } else {
        (bn, an)
    }
}

proof fn lemma_walk_bounds(b: Seq<RegisteredOrder>, a: Seq<RegisteredOrder>, bn: int, an: int)
    requires
        0 <= bn <= b.len(),
        0 <= an <= a.len(),
    ensures
        bn <= walk(b, a, bn, an).0 <= b.len(),
        an <= walk(b, a, bn, an).1 <= a.len(),
    decreases b.len() + a.len() - bn - an,
{
    if takes_buy(b, a, bn, an) {
        if b[bn].rate >= cur_ask(a, an) {
            lemma_walk_bounds(b, a, bn + 1, an);
        }
    } else if an < a.len() {
        if cur_bid(b, bn) >= a[an].rate {
            lemma_walk_bounds(b, a, bn, an + 1);
        }
    }
}

/// The clearing rate: the mean of the boundary bid and ask rates, truncated
/// toward zero as the source's integer division is.
pub open spec fn mid_rate(x: int, y: int) -> int {
    let s = x + y;
    if s >= 0 {
        s / 2
    } else {
        -((-s) / 2)
    }
}

/// Walking the longer side back down: starting from the boundary order at
/// `j` with `qsum(s, j + 1)` already accepted, drop whole orders while the
/// volume before the boundary still exceeds `target`.
pub open spec fn shrink_idx(s: Seq<RegisteredOrder>, j: int, target: int) -> int
    decreases j,
    when 0 <= j
{
    if 0 < j && qsum(s, j + 1) - s[j].quantity > target {
        shrink_idx(s, j - 1, target)
    } else {
        j
    }
}

/// One full-quantity trade at the clearing rate for each of the first `n`
/// orders of a side, in book order.
pub open spec fn whole_trades(s: Seq<RegisteredOrder>, n: int, rate: Price) -> Seq<Trade> {
    Seq::new(n as nat, |k: int| Trade { order: s[k], rate, quantity: s[k].quantity })
}

/// Total filled quantity of the trades whose source order lies on `side`.
pub open spec fn tsum(ts: Seq<Trade>, side: OrderType) -> int
    decreases ts.len(),
{
    if ts.len() == 0 {
        0
    } else {
        tsum(ts.drop_last(), side) + (if ts.last().order.order_type == side {
            ts.last().quantity as int
        } else {
            0
        })
    }
}

proof fn lemma_tsum_concat(x: Seq<Trade>, y: Seq<Trade>, side: OrderType)
    ensures
        tsum(x + y, side) == tsum(x, side) + tsum(y, side),
    decreases y.len(),
{
    if y.len() == 0 {
        assert(x + y =~= x);
    } else {
        assert((x + y).drop_last() =~= x + y.drop_last());
        lemma_tsum_concat(x, y.drop_last(), side);
    }
}

proof fn lemma_tsum_whole(
    s: Seq<RegisteredOrder>,
    n: int,
    rate: Price,
    tside: OrderType,
    oside: OrderType,
)
    requires
        0 <= n <= s.len(),
        oside != tside,
        forall|k: int| 0 <= k < n ==> (#[trigger] s[k]).order_type == tside,
    ensures
        tsum(whole_trades(s, n, rate), tside) == qsum(s, n),
        tsum(whole_trades(s, n, rate), oside) == 0,
    decreases n,
{
    if n > 0 {
        assert(whole_trades(s, n, rate).drop_last() =~= whole_trades(s, n - 1, rate));
        lemma_tsum_whole(s, n - 1, rate, tside, oside);
    }
}

/// The truncated mean of two values lies between them.
proof fn lemma_mid_range(x: int, y: int)
    requires
        x <= y,
    ensures
        x <= mid_rate(x, y) <= y,
{
    let s = x + y;
    if s >= 0 {
        assert(s == 2 * (s / 2) + (s % 2));
        assert(0 <= s % 2 < 2);
    } else {
        let t = -s;
        assert(t == 2 * (t / 2) + (t % 2));
        assert(0 <= t % 2 < 2);
    }
}

/// Computes the clearing rate of two boundary rates: their mean, truncated
/// toward zero.
fn mid_exec(x: Price, y: Price) -> (r: Price)
    ensures
        r as int == mid_rate(x as int, y as int),
{
    let s: i64 = x as i64 + y as i64;
    if s >= 0 {
        proof {
            assert(s as u64 as int == s as int);
            if x <= y {
                lemma_mid_range(x as int, y as int);
            } else {
                lemma_mid_range(y as int, x as int);
            }
        }
        ((s as u64) / 2) as i32
    } else {
        let t: u64 = (-s) as u64;
        proof {
            if x <= y {
                lemma_mid_range(x as int, y as int);
            } else {
                lemma_mid_range(y as int, x as int);
            }
        }
        (-((t / 2) as i64)) as i32
    }
}

/// Appends one full-quantity trade per drained order, in order, at the
/// clearing rate.
fn push_whole_trades(trades: &mut Vec<Trade>, drained: &Vec<RegisteredOrder>, rate: Price)
    ensures
        final(trades)@ == old(trades)@ + whole_trades(drained@, drained@.len() as int, rate),
{
    let n = drained.len();
    let mut k: usize = 0;
    while k < n
        invariant
            k <= n,
            n == drained@.len(),
            trades@ == old(trades)@ + whole_trades(drained@, k as int, rate),
        decreases n - k,
    {
        let o = drained[k];
        trades.push(Trade { order: o, rate, quantity: o.quantity });
        proof {
            assert(whole_trades(drained@, k + 1, rate) =~= whole_trades(drained@, k as int, rate)
                .push((Trade { order: drained@[k as int], rate, quantity: drained@[k as int].quantity })));
            assert(trades@ =~= old(trades)@ + whole_trades(drained@, k + 1, rate));
        }
        k = k + 1;
    }
    proof {
        assert(trades@ =~= old(trades)@ + whole_trades(drained@, n as int, rate));
    }
}

/// Along the walk, the current bid never falls below the current ask: each
/// accepted element crossed when it was accepted.
proof fn lemma_walk_cross(b: Seq<RegisteredOrder>, a: Seq<RegisteredOrder>, bn: int, an: int)
    requires
        0 <= bn <= b.len(),
        0 <= an <= a.len(),
        cur_bid(b, bn) >= cur_ask(a, an),
    ensures
        cur_bid(b, walk(b, a, bn, an).0) >= cur_ask(a, walk(b, a, bn, an).1),
    decreases b.len() + a.len() - bn - an,
{
    if takes_buy(b, a, bn, an) {
        if b[bn].rate >= cur_ask(a, an) {
            lemma_walk_cross(b, a, bn + 1, an);
        }
    } else if an < a.len() {
        if cur_bid(b, bn) >= a[an].rate {
            lemma_walk_cross(b, a, bn, an + 1);
        }
    }
}

/// Accepted counts of the walk over both books from the start.
pub open spec fn walk_counts(b: Seq<RegisteredOrder>, a: Seq<RegisteredOrder>) -> (int, int) {
    walk(b, a, 0, 0)
}

/// Whether the walk accepted at least one order on each side; only then can
/// a two-sided match form.
pub open spec fn crossing(b: Seq<RegisteredOrder>, a: Seq<RegisteredOrder>) -> bool {
    walk_counts(b, a).0 >= 1 && walk_counts(b, a).1 >= 1
}

/// Cumulative quantity of the accepted buys.
pub open spec fn bid_vol_of(b: Seq<RegisteredOrder>, a: Seq<RegisteredOrder>) -> int {
    qsum(b, walk_counts(b, a).0)
}

/// Cumulative quantity of the accepted sells.
pub open spec fn ask_vol_of(b: Seq<RegisteredOrder>, a: Seq<RegisteredOrder>) -> int {
    qsum(a, walk_counts(b, a).1)
}

/// The uniform clearing rate: the truncated mean of the last accepted bid
/// and ask rates.
pub open spec fn clearing_of(b: Seq<RegisteredOrder>, a: Seq<RegisteredOrder>) -> int {
    mid_rate(cur_bid(b, walk_counts(b, a).0), cur_ask(a, walk_counts(b, a).1))
}

/// How many whole buys are filled: when the buy side is the longer one, the
/// boundary walks back down to balance the volumes.
pub open spec fn bid_take_of(b: Seq<RegisteredOrder>, a: Seq<RegisteredOrder>) -> int {
    if bid_vol_of(b, a) > ask_vol_of(b, a) {
        shrink_idx(b, walk_counts(b, a).0 - 1, ask_vol_of(b, a))
    } else {
        walk_counts(b, a).0
    }
}

/// How many whole sells are filled; symmetric to `bid_take_of`.
pub open spec fn ask_take_of(b: Seq<RegisteredOrder>, a: Seq<RegisteredOrder>) -> int {
    if ask_vol_of(b, a) > bid_vol_of(b, a) {
        shrink_idx(a, walk_counts(b, a).1 - 1, bid_vol_of(b, a))
    } else {
        walk_counts(b, a).1
    }
}

/// The boundary trade, when the two cumulative volumes differ: the order at
/// the straddle is filled only for the portion that balances the books.
pub open spec fn partial_of(b: Seq<RegisteredOrder>, a: Seq<RegisteredOrder>) -> Seq<Trade> {
    let rate = clearing_of(b, a) as i32;
    if bid_vol_of(b, a) > ask_vol_of(b, a) {
        let j = bid_take_of(b, a);
        seq![
            (Trade {
                order: b[j],
                rate,
                quantity: (b[j].quantity + ask_vol_of(b, a) - qsum(b, j + 1)) as u32,
            }),
        ]
    } else if ask_vol_of(b, a) > bid_vol_of(b, a) {
        let j = ask_take_of(b, a);
        seq![
            (Trade {
                order: a[j],
                rate,
                quantity: (a[j].quantity + bid_vol_of(b, a) - qsum(a, j + 1)) as u32,
            }),
        ]
    } else {
        Seq::empty()
    }
}

/// Every fill of the auction: the boundary trade first (if any), then the
/// whole buys in book order, then the whole sells in book order.
pub open spec fn trades_of(b: Seq<RegisteredOrder>, a: Seq<RegisteredOrder>) -> Seq<Trade> {
    partial_of(b, a) + whole_trades(b, bid_take_of(b, a), clearing_of(b, a) as i32)
        + whole_trades(a, ask_take_of(b, a), clearing_of(b, a) as i32)
}

/// The traded volume: the smaller of the two accepted cumulative volumes.
pub open spec fn volume_of(b: Seq<RegisteredOrder>, a: Seq<RegisteredOrder>) -> int {
    if bid_vol_of(b, a) <= ask_vol_of(b, a) {
        bid_vol_of(b, a)
    } else {
        ask_vol_of(b, a)
    }
}

proof fn lemma_shrink_bounds(s: Seq<RegisteredOrder>, j: int, t: int)
    requires
        0 <= j,
    ensures
        0 <= shrink_idx(s, j, t) <= j,
    decreases j,
{
    if 0 < j && qsum(s, j + 1) - s[j].quantity > t {
        lemma_shrink_bounds(s, j - 1, t);
    }
}

/// Every fill clears at a rate no worse than the filled order quoted: a buy
/// order clears at or below its own rate, a sell order at or above it.
pub proof fn lemma_trades_within_quoted_rates(b: Seq<RegisteredOrder>, a: Seq<RegisteredOrder>)
    requires
        sorted_side(OrderType::Buy, b),
        sorted_side(OrderType::Sell, a),
        entries_ok(OrderType::Buy, b),
        entries_ok(OrderType::Sell, a),
        crossing(b, a),
    ensures
        forall|k: int|
            0 <= k < trades_of(b, a).len() ==> {
                let t = #[trigger] trades_of(b, a)[k];
                if t.order.order_type == OrderType::Buy {
                    t.order.rate >= clearing_of(b, a)
                } else {
                    t.order.rate <= clearing_of(b, a)
                }
            },
{
    let bn = walk_counts(b, a).0;
    let an = walk_counts(b, a).1;
    lemma_walk_bounds(b, a, 0, 0);
    lemma_walk_cross(b, a, 0, 0);
    lemma_mid_range(cur_ask(a, an), cur_bid(b, bn));
    lemma_shrink_bounds(b, bn - 1, ask_vol_of(b, a));
    lemma_shrink_bounds(a, an - 1, bid_vol_of(b, a));
    let pa = partial_of(b, a);
    let wb = whole_trades(b, bid_take_of(b, a), clearing_of(b, a) as i32);
    let wa = whole_trades(a, ask_take_of(b, a), clearing_of(b, a) as i32);
    assert forall|k: int| 0 <= k < trades_of(b, a).len() implies {
        let t = #[trigger] trades_of(b, a)[k];
        if t.order.order_type == OrderType::Buy {
            t.order.rate >= clearing_of(b, a)
        } else {
            t.order.rate <= clearing_of(b, a)
        }
    } by {
        let t = trades_of(b, a)[k];
        if k < pa.len() {
            if bid_vol_of(b, a) > ask_vol_of(b, a) {
                assert(t.order == b[bid_take_of(b, a)]);
                assert(rate_le(OrderType::Buy, b[bid_take_of(b, a)], b[bn - 1]));
            } else {
                assert(t.order == a[ask_take_of(b, a)]);
                assert(rate_le(OrderType::Sell, a[ask_take_of(b, a)], a[an - 1]));
            }
        } else if k < pa.len() + wb.len() {
            let i = k - pa.len();
            assert(t == wb[i]);
            assert(t.order == b[i]);
            assert(rate_le(OrderType::Buy, b[i], b[bn - 1]));
        } else {
            let i = k - pa.len() - wb.len();
            assert(t == wa[i]);
            assert(t.order == a[i]);
            assert(rate_le(OrderType::Sell, a[i], a[an - 1]));
        }
    }
}

/// No leftover crossing on the buy side: where the walk stopped on a bid
/// that no longer crossed the current ask, and the buy side was not the
/// longer one (so no accepted buy was put back), every open bid is priced at
/// or below the clearing rate. When the auction instead stops on a sell, or
/// puts accepted buys back to balance volumes, an open bid may exceed the
/// clearing rate.
pub proof fn lemma_open_bids_not_above_clearing(b: Seq<RegisteredOrder>, a: Seq<RegisteredOrder>)
    requires
        sorted_side(OrderType::Buy, b),
        crossing(b, a),
        takes_buy(b, a, walk_counts(b, a).0, walk_counts(b, a).1),
        b[walk_counts(b, a).0].rate < cur_ask(a, walk_counts(b, a).1),
        bid_vol_of(b, a) <= ask_vol_of(b, a),
    ensures
        forall|k: int|
            bid_take_of(b, a) <= k < b.len() ==> (#[trigger] b[k]).rate <= clearing_of(b, a),
{
    let bn = walk_counts(b, a).0;
    let an = walk_counts(b, a).1;
    lemma_walk_bounds(b, a, 0, 0);
    lemma_walk_cross(b, a, 0, 0);
    let bid_b = cur_bid(b, bn);
    let ask_b = cur_ask(a, an);
    lemma_mid_range(ask_b, bid_b);
    assert forall|k: int| bid_take_of(b, a) <= k < b.len() implies (#[trigger] b[k]).rate
        <= clearing_of(b, a) by {
        assert(rate_le(OrderType::Buy, b[bn as int], b[k]));
    }
}

/// No leftover crossing on the sell side: where the walk stopped on an ask
/// that no longer crossed the current bid, and the sell side was not the
/// longer one, every open ask is priced at or above the clearing rate.
pub proof fn lemma_open_asks_not_below_clearing(b: Seq<RegisteredOrder>, a: Seq<RegisteredOrder>)
    requires
        sorted_side(OrderType::Sell, a),
        crossing(b, a),
        !takes_buy(b, a, walk_counts(b, a).0, walk_counts(b, a).1),
        walk_counts(b, a).1 < a.len(),
        cur_bid(b, walk_counts(b, a).0) < a[walk_counts(b, a).1].rate,
        ask_vol_of(b, a) <= bid_vol_of(b, a),
    ensures
        forall|k: int|
            ask_take_of(b, a) <= k < a.len() ==> (#[trigger] a[k]).rate >= clearing_of(b, a),
{
    let bn = walk_counts(b, a).0;
    let an = walk_counts(b, a).1;
    lemma_walk_bounds(b, a, 0, 0);
    lemma_walk_cross(b, a, 0, 0);
    let bid_b = cur_bid(b, bn);
    let ask_b = cur_ask(a, an);
    lemma_mid_range(ask_b, bid_b);
    assert forall|k: int| ask_take_of(b, a) <= k < a.len() implies (#[trigger] a[k]).rate
        >= clearing_of(b, a) by {
        assert(rate_le(OrderType::Sell, a[an as int], a[k]));
    }
}

impl MarketMatchResult {
    /// The result of an auction in which nothing crossed: both books are
    /// handed back unchanged and there are no fills.
    fn no_trade(open_bids: SortedOrders, open_asks: SortedOrders) -> (r: Self)
        ensures
            r.open_bids == open_bids,
            r.open_asks == open_asks,
            r.trades@ == Seq::<Trade>::empty(),
            r.traded_volume == 0,
            r.traded_rate is None,
            r.bids_matched == 0,
            r.asks_matched == 0,
    {
        Self {
            open_bids,
            open_asks,
            trades: Vec::new(),
            traded_volume: 0,
            traded_rate: None,
            bids_matched: 0,
            asks_matched: 0,
        }
    }
}

/// Clears one auction. The walk advances whichever side has the smaller next
/// cumulative quantity (a tie advances the sell) while prices still cross;
/// everything accepted clears at the truncated mean of the two boundary
/// rates, the longer side is shrunk to conserve volume — at most one order
/// fills partially — and the remainders of both books are returned sorted.
pub fn market_match(bids: SortedOrders, asks: SortedOrders) -> (r: MarketMatchResult)
    requires
        bids.wf(),
        asks.wf(),
        bids.spec_side() == OrderType::Buy,
        asks.spec_side() == OrderType::Sell,
        qsum(bids@, bids@.len() as int) <= 0x8000_0000_0000_0000,
        qsum(asks@, asks@.len() as int) <= 0x8000_0000_0000_0000,
    ensures
        r.open_bids.wf(),
        r.open_asks.wf(),
        r.open_bids.spec_side() == OrderType::Buy,
        r.open_asks.spec_side() == OrderType::Sell,
        r.traded_rate is Some <==> crossing(bids@, asks@),
        !crossing(bids@, asks@) ==> r.open_bids@ == bids@ && r.open_asks@ == asks@ && r.trades@
            == Seq::<Trade>::empty() && r.traded_volume == 0 && r.bids_matched == 0
            && r.asks_matched == 0,
        crossing(bids@, asks@) ==> {
            &&& r.traded_rate == Some((clearing_of(bids@, asks@) as i32))
            &&& r.trades@ == trades_of(bids@, asks@)
            &&& r.open_bids@ == bids@.subrange(bid_take_of(bids@, asks@), bids@.len() as int)
            &&& r.open_asks@ == asks@.subrange(ask_take_of(bids@, asks@), asks@.len() as int)
            &&& r.traded_volume == volume_of(bids@, asks@)
            &&& r.bids_matched == bid_take_of(bids@, asks@) + (if bid_vol_of(bids@, asks@)
                > ask_vol_of(bids@, asks@) {
                1int
            } else {
                0int
            })
            &&& r.asks_matched == ask_take_of(bids@, asks@) + (if ask_vol_of(bids@, asks@)
                > bid_vol_of(bids@, asks@) {
                1int
            } else {
                0int
            })
        },
        tsum(r.trades@, OrderType::Buy) == r.traded_volume,
        tsum(r.trades@, OrderType::Sell) == r.traded_volume,
        forall|k: int|
            0 <= k < r.trades@.len() ==> r.traded_rate == Some((#[trigger] r.trades@[k]).rate),
        forall|k: int|
            0 <= k < r.trades@.len() ==> (#[trigger] r.trades@[k]).quantity
                <= r.trades@[k].order.quantity,
{
    let ghost b = bids@;
    let ghost a = asks@;
    let mut bids = bids;
    let mut asks = asks;
    let bids_len = bids.len();
    let asks_len = asks.len();
    let mut bn: usize = 0;
    let mut an: usize = 0;
    let mut bid_vol: u64 = 0;
    let mut ask_vol: u64 = 0;

    // Phase one: the equilibrium walk over the merged cumulative streams.
    loop
        invariant
            bids@ == b,
            asks@ == a,
            bids.wf(),
            asks.wf(),
            bids.spec_side() == OrderType::Buy,
            asks.spec_side() == OrderType::Sell,
            bn <= bids_len,
            an <= asks_len,
            bids_len == b.len(),
            asks_len == a.len(),
            bid_vol == qsum(b, bn as int),
            ask_vol == qsum(a, an as int),
            walk(b, a, bn as int, an as int) == walk(b, a, 0, 0),
            qsum(b, b.len() as int) <= 0x8000_0000_0000_0000,
            qsum(a, a.len() as int) <= 0x8000_0000_0000_0000,
        ensures
            walk(b, a, bn as int, an as int) == (bn as int, an as int),
        decreases bids_len - bn + asks_len - an,
    {
        let take_buy: bool;
        if bn >= bids_len {
            take_buy = false;
        } else if an >= asks_len {
            take_buy = true;
        } else {
            let bq = bids.order_at(bn).quantity as u64;
            let aq = asks.order_at(an).quantity as u64;
            proof {
                lemma_qsum_mono(b, bn + 1, b.len() as int);
                lemma_qsum_mono(a, an + 1, a.len() as int);
                lemma_qsum_nonneg(b, bn as int);
                lemma_qsum_nonneg(a, an as int);
            }
            take_buy = bid_vol + bq < ask_vol + aq;
        }
        proof {
            assert(take_buy == takes_buy(b, a, bn as int, an as int));
        }
        if take_buy {
            let r_ask: Price = if an == 0 {
                i32::MIN
            } else {
                asks.order_at(an - 1).rate
            };
            if bids.order_at(bn).rate >= r_ask {
                proof {
                    lemma_qsum_mono(b, bn + 1, b.len() as int);
                    lemma_qsum_nonneg(b, bn as int);
                    assert(walk(b, a, bn as int, an as int) == walk(b, a, bn + 1, an as int));
                }
                bid_vol = bid_vol + bids.order_at(bn).quantity as u64;
                bn = bn + 1;
            } else {
                proof {
                    assert(walk(b, a, bn as int, an as int) == (bn as int, an as int));
                }
                break;
            }
        } else if an < asks_len {
            let r_bid: Price = if bn == 0 {
                i32::MAX
            } else {
                bids.order_at(bn - 1).rate
            };
            if r_bid >= asks.order_at(an).rate {
                proof {
                    lemma_qsum_mono(a, an + 1, a.len() as int);
                    lemma_qsum_nonneg(a, an as int);
                    assert(walk(b, a, bn as int, an as int) == walk(b, a, bn as int, an + 1));
                }
                ask_vol = ask_vol + asks.order_at(an).quantity as u64;
                an = an + 1;
            } else {
                proof {
                    assert(walk(b, a, bn as int, an as int) == (bn as int, an as int));
                }
                break;
            }
        } else {
            proof {
                assert(walk(b, a, bn as int, an as int) == (bn as int, an as int));
            }
            break;
        }
    }

    if bn == 0 || an == 0 {
        proof {
            assert(tsum(Seq::<Trade>::empty(), OrderType::Buy) == 0);
            assert(tsum(Seq::<Trade>::empty(), OrderType::Sell) == 0);
        }
        return MarketMatchResult::no_trade(bids, asks);
    }

    // Phase two: the clearing rate at the boundary.
    let b_rate = bids.order_at(bn - 1).rate;
    let a_rate = asks.order_at(an - 1).rate;
    let rate = mid_exec(b_rate, a_rate);
    proof {
        assert(rate as int == clearing_of(b, a));
    }

    // Phase three: conserve volume by shrinking the longer side; the straddle
    // order fills only partially.
    let mut trades: Vec<Trade> = Vec::new();
    let bid_take: usize;
    let ask_take: usize;
    let bids_matched: usize;
    let asks_matched: usize;
    let traded_volume: u64;
    if bid_vol > ask_vol {
        let mut j: usize = bn - 1;
        let mut vol: u64 = bid_vol;
        loop
            invariant
                bids@ == b,
                bn <= bids_len,
                bids_len == b.len(),
                j < bn,
                vol == qsum(b, j + 1),
                vol > ask_vol,
                shrink_idx(b, j as int, ask_vol as int) == shrink_idx(
                    b,
                    bn - 1,
                    ask_vol as int,
                ),
            ensures
                j < bn,
                vol == qsum(b, j + 1),
                vol > ask_vol,
                j as int == shrink_idx(b, bn - 1, ask_vol as int),
                vol - b[j as int].quantity <= ask_vol,
            decreases j,
        {
            let q = bids.order_at(j).quantity as u64;
            proof {
                lemma_qsum_nonneg(b, j as int);
            }
            if vol - q <= ask_vol {
                proof {
                    assert(shrink_idx(b, j as int, ask_vol as int) == j as int);
                }
                break;
            }
            proof {
                assert(qsum(b, j as int) == vol - q);
                assert(j as int >= 1) by {
                    if j as int == 0 {
                        assert(qsum(b, 0) == 0);
                    }
                }
                assert(shrink_idx(b, j as int, ask_vol as int) == shrink_idx(
                    b,
                    j - 1,
                    ask_vol as int,
                ));
            }
            vol = vol - q;
            j = j - 1;
        }
        let boundary = *bids.order_at(j);
        proof {
            lemma_qsum_mono(a, an as int, a.len() as int);
        }
        let pq64: u64 = boundary.quantity as u64 + ask_vol - vol;
        proof {
            assert(pq64 < boundary.quantity as u64);
        }
        trades.push(Trade { order: boundary, rate, quantity: pq64 as u32 });
        bid_take = j;
        ask_take = an;
        bids_matched = j + 1;
        asks_matched = an;
        traded_volume = ask_vol;
        proof {
            assert(trades@ =~= partial_of(b, a));
        }
    } else if ask_vol > bid_vol {
        let mut j: usize = an - 1;
        let mut vol: u64 = ask_vol;
        loop
            invariant
                asks@ == a,
                an <= asks_len,
                asks_len == a.len(),
                j < an,
                vol == qsum(a, j + 1),
                vol > bid_vol,
                shrink_idx(a, j as int, bid_vol as int) == shrink_idx(
                    a,
                    an - 1,
                    bid_vol as int,
                ),
            ensures
                j < an,
                vol == qsum(a, j + 1),
                vol > bid_vol,
                j as int == shrink_idx(a, an - 1, bid_vol as int),
                vol - a[j as int].quantity <= bid_vol,
            decreases j,
        {
            let q = asks.order_at(j).quantity as u64;
            proof {
                lemma_qsum_nonneg(a, j as int);
            }
            if vol - q <= bid_vol {
                proof {
                    assert(shrink_idx(a, j as int, bid_vol as int) == j as int);
                }
                break;
            }
            proof {
                assert(qsum(a, j as int) == vol - q);
                assert(j as int >= 1) by {
                    if j as int == 0 {
                        assert(qsum(a, 0) == 0);
                    }
                }
                assert(shrink_idx(a, j as int, bid_vol as int) == shrink_idx(
                    a,
                    j - 1,
                    bid_vol as int,
                ));
            }
            vol = vol - q;
            j = j - 1;
        }
        let boundary = *asks.order_at(j);
        proof {
            lemma_qsum_mono(b, bn as int, b.len() as int);
        }
        let pq64: u64 = boundary.quantity as u64 + bid_vol - vol;
        proof {
            assert(pq64 < boundary.quantity as u64);
        }
        trades.push(Trade { order: boundary, rate, quantity: pq64 as u32 });
        bid_take = bn;
        ask_take = j;
        bids_matched = bn;
        asks_matched = j + 1;
        traded_volume = bid_vol;
        proof {
            assert(trades@ =~= partial_of(b, a));
        }
    } else {
        bid_take = bn;
        ask_take = an;
        bids_matched = bn;
        asks_matched = an;
        traded_volume = bid_vol;
        proof {
            assert(trades@ =~= partial_of(b, a));
        }
    }
    proof {
        assert(bid_take as int == bid_take_of(b, a));
        assert(ask_take as int == ask_take_of(b, a));
    }

    // Phase four: drain the filled prefixes and emit their whole-quantity
    // trades after the boundary trade.
    if bid_take > 0 {
        let drained = bids.drain_prefix(bid_take - 1);
        proof {
            assert(whole_trades(drained@, drained@.len() as int, rate) =~= whole_trades(
                b,
                bid_take as int,
                rate,
            ));
        }
        push_whole_trades(&mut trades, &drained, rate);
    } else {
        proof {
            assert(whole_trades(b, bid_take as int, rate) =~= Seq::<Trade>::empty());
            assert(trades@ =~= trades@ + whole_trades(b, bid_take as int, rate));
            assert(bids@ =~= b.subrange(bid_take as int, b.len() as int));
        }
    }
    if ask_take > 0 {
        let drained = asks.drain_prefix(ask_take - 1);
        proof {
            assert(whole_trades(drained@, drained@.len() as int, rate) =~= whole_trades(
                a,
                ask_take as int,
                rate,
            ));
        }
        push_whole_trades(&mut trades, &drained, rate);
    } else {
        proof {
            assert(whole_trades(a, ask_take as int, rate) =~= Seq::<Trade>::empty());
            assert(trades@ =~= trades@ + whole_trades(a, ask_take as int, rate));
            assert(asks@ =~= a.subrange(ask_take as int, a.len() as int));
        }
    }

    proof {
        let pa = partial_of(b, a);
        let wb = whole_trades(b, bid_take as int, rate);
        let wa = whole_trades(a, ask_take as int, rate);
        assert(trades@ =~= pa + wb + wa);
        lemma_tsum_concat(pa + wb, wa, OrderType::Buy);
        lemma_tsum_concat(pa, wb, OrderType::Buy);
        lemma_tsum_concat(pa + wb, wa, OrderType::Sell);
        lemma_tsum_concat(pa, wb, OrderType::Sell);
        lemma_tsum_whole(b, bid_take as int, rate, OrderType::Buy, OrderType::Sell);
        lemma_tsum_whole(a, ask_take as int, rate, OrderType::Sell, OrderType::Buy);
        assert(tsum(Seq::<Trade>::empty(), OrderType::Buy) == 0);
        assert(tsum(Seq::<Trade>::empty(), OrderType::Sell) == 0);
        if bid_vol > ask_vol {
            let j = bid_take as int;
            assert(pa.drop_last() =~= Seq::<Trade>::empty());
            assert(pa.last() == pa[0]);
            assert(qsum(b, j + 1) == qsum(b, j) + b[j].quantity);
            assert(0 <= b[j].quantity + ask_vol - qsum(b, j + 1) < 0x1_0000_0000);
            assert(pa[0].quantity == b[j].quantity + ask_vol - qsum(b, j + 1));
            assert(b[j].order_type == OrderType::Buy);
            assert(tsum(pa, OrderType::Buy) == b[j].quantity + ask_vol - qsum(b, j + 1));
            assert(tsum(pa, OrderType::Sell) == 0);
        } else if ask_vol > bid_vol {
            let j = ask_take as int;
            assert(pa.drop_last() =~= Seq::<Trade>::empty());
            assert(pa.last() == pa[0]);
            assert(qsum(a, j + 1) == qsum(a, j) + a[j].quantity);
            assert(0 <= a[j].quantity + bid_vol - qsum(a, j + 1) < 0x1_0000_0000);
            assert(pa[0].quantity == a[j].quantity + bid_vol - qsum(a, j + 1));
            assert(a[j].order_type == OrderType::Sell);
            assert(tsum(pa, OrderType::Sell) == a[j].quantity + bid_vol - qsum(a, j + 1));
            assert(tsum(pa, OrderType::Buy) == 0);
        } else {
            assert(pa =~= Seq::<Trade>::empty());
        }
        assert(tsum(trades@, OrderType::Buy) == traded_volume);
        assert(tsum(trades@, OrderType::Sell) == traded_volume);
        assert forall|k: int| 0 <= k < trades@.len() implies (#[trigger] trades@[k]).rate == rate
            && trades@[k].quantity <= trades@[k].order.quantity by {
            if k < pa.len() {
            } else if k < pa.len() + wb.len() {
                assert(trades@[k] == wb[k - pa.len()]);
            } else {
                assert(trades@[k] == wa[k - pa.len() - wb.len()]);
            }
        }
    }

    MarketMatchResult {
        open_bids: bids,
        open_asks: asks,
        trades,
        traded_volume,
        traded_rate: Some(rate),
        bids_matched,
        asks_matched,
    }
}

} // verus!
