//! Epoch-boundary decisions of the processing pipeline: when the driver
//! should flush its batches or run the auction, and how an auction's trades
//! are folded back into the registry.

use crate::market::Trade;
use crate::orders::{OrderId, RegisteredOrder, RegisteredOrders};
use vstd::prelude::*;

verus! {

/// What the driver should do after queueing one request.
#[derive(Debug, Clone, Copy, PartialEq, Eq, Structural)]
pub enum EpochStep {
    /// Keep collecting requests.
    Wait,
    /// Flush the add batches and the cancel set into the books.
    FlushBatches,
    /// Flush, then clear the market and start the next epoch.
    RunAuction,
}

/// The trigger rule: the auction runs once the epoch has elapsed; before
/// that, the books are refreshed whenever the combined add batches reach the
/// batch size.
pub fn epoch_step(batched: usize, elapsed_ns: u128, batch_size: usize, epoch_ns: u128) -> (r:
    EpochStep)
    ensures
        r == (if elapsed_ns >= epoch_ns {
            EpochStep::RunAuction
        } else if batched >= batch_size {
            EpochStep::FlushBatches
        } else {
            EpochStep::Wait
        }),
{
    if batched >= batch_size && elapsed_ns < epoch_ns {
        EpochStep::FlushBatches
    } else if elapsed_ns >= epoch_ns {
        EpochStep::RunAuction
    } else {
        EpochStep::Wait
    }
}

/// The registry after one trade is applied: a fully filled order leaves; a
/// partially filled one is rewritten, if still live, with the filled
/// quantity, as the driver keeps it.
pub open spec fn apply_trade(
    m: Map<OrderId, RegisteredOrder>,
    t: Trade,
) -> Map<OrderId, RegisteredOrder> {
    if t.quantity == t.order.quantity {
        m.remove(t.order.id)
    } else if m.contains_key(t.order.id) {
        m.insert(t.order.id, (RegisteredOrder { quantity: t.quantity, ..t.order }))
    } else {
        m
    }
}

/// The registry after a sequence of trades is applied in order.
pub open spec fn apply_trades_spec(
    m: Map<OrderId, RegisteredOrder>,
    ts: Seq<Trade>,
) -> Map<OrderId, RegisteredOrder>
    decreases ts.len(),
{
    if ts.len() == 0 {
        m
    } else {
        apply_trade(apply_trades_spec(m, ts.drop_last()), ts.last())
    }
}

/// Folds an auction's trades back into the registry: removes every fully
/// filled order and rewrites every partially filled one.
pub fn apply_trades(orders: &mut RegisteredOrders, trades: &Vec<Trade>)
    requires
        old(orders).wf(),
    ensures
        final(orders).wf(),
        final(orders)@ == apply_trades_spec(old(orders)@, trades@),
        forall|x: OrderId| old(orders).stale(x) ==> final(orders).stale(x),
{
    let n = trades.len();
    let mut i: usize = 0;
    while i < n
        invariant
            i <= n,
            n == trades@.len(),
            orders.wf(),
            orders@ == apply_trades_spec(old(orders)@, trades@.take(i as int)),
            forall|x: OrderId| old(orders).stale(x) ==> orders.stale(x),
        decreases n - i,
    {
        proof {
            assert(trades@.take(i + 1).drop_last() =~= trades@.take(i as int));
            assert(trades@.take(i + 1).last() == trades@[i as int]);
        }
        let ghost m_pre = orders@;
        let deal = &trades[i];
        if deal.quantity == deal.order.quantity {
            orders.remove_order(deal.order.id);
            proof {
                if !m_pre.contains_key(deal.order.id) {
                    assert(m_pre.remove(deal.order.id) =~= m_pre);
                }
            }
        } else {
            let mut order = deal.order;
            order.quantity = deal.quantity;
            orders.modify_order(order);
        }
        i = i + 1;
    }
    proof {
        assert(trades@.take(n as int) =~= trades@);
    }
}

} // verus!
