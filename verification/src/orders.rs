//! Order data model and the registered-order store: a stable-identity map
//! from generational handles to live orders.
//!
//! A handle (`OrderId`) names a slot together with the generation the slot
//! had when the order was registered. Removing an order bumps the slot's
//! generation, so a handle to a removed order can never alias a later
//! insertion into the same slot.

use nanorand::Rng;
use vstd::prelude::*;

verus! {

/// Price in minor currency units. Negative values are representable and
/// tolerated throughout the matcher.
pub type Price = i32;

/// Auction round in which an order was registered.
pub type Epoch = u16;

/// The side of the book an order belongs to.
#[derive(Debug, Clone, Copy, PartialEq, Eq, Structural)]
pub enum OrderType {
    Buy,
    Sell,
}

/// An order as submitted, before registration.
#[derive(Debug, Clone, Copy)]
pub struct Order {
    pub order_type: OrderType,
    pub rate: Price,
    pub quantity: u32,
}

/// How a raw 32-bit draw is squeezed into the half-open band
/// `[prices_min, prices_max)`.
pub open spec fn draw_price(raw: u32, prices_min: u32, prices_max: u32) -> int
    recommends
        prices_min < prices_max,
{
    raw % ((prices_max - prices_min) as u32) + prices_min
}

/// Declares nanorand's `WyRand` generator so that it can cross the order
/// synthesiser's signature; its state is opaque here.
#[verifier::external_type_specification]
#[verifier::external_body]
pub struct ExWyRand(nanorand::WyRand);

/// Relies on nanorand's `Rng::generate` for `bool`: a coin flip. Nothing can
/// be promised of a random value.
#[verifier::external_body]
fn draw_bool(rng: &mut nanorand::WyRand) -> bool {
    rng.generate::<bool>()
}

/// Relies on nanorand's `Rng::generate` for `u32`: a raw 32-bit draw.
/// Nothing can be promised of a random value.
#[verifier::external_body]
fn draw_u32(rng: &mut nanorand::WyRand) -> u32 {
    rng.generate::<u32>()
}

/// Relies on nanorand's `Rng::generate_range` over a half-open range: the
/// result lies in `[low, high)`, which is all its documentation promises.
#[verifier::external_body]
fn draw_range_u32(rng: &mut nanorand::WyRand, low: u32, high: u32) -> (r: u32)
    requires
        low < high,
    ensures
        low <= r < high,
{
    rng.generate_range::<u32, _>(low..high)
}

impl Order {
    /// Deterministic core of order synthesis: turns raw draws into an order.
    /// Buys are shifted below the drawn price by half the spread, sells above.
    pub fn from_draws(
        buy: bool,
        raw: u32,
        quantity: u32,
        prices_min: u32,
        prices_max: u32,
        buy_sell_dev: i32,
    ) -> (r: Order)
        requires
            prices_min < prices_max,
            prices_max <= i32::MAX,
            0 <= buy_sell_dev,
            prices_max + buy_sell_dev / 2 <= i32::MAX,
        ensures
            r.quantity == quantity,
            r.order_type == (if buy {
                OrderType::Buy
            } else {
                OrderType::Sell
            }),
            r.rate == draw_price(raw, prices_min, prices_max) + (if buy {
                -(buy_sell_dev / 2)
            } else {
                buy_sell_dev / 2
            }),
    {
        let price = (raw % (prices_max - prices_min) + prices_min) as i32;
        let half = (buy_sell_dev as u32 / 2) as i32;
        Order {
            order_type: if buy {
                OrderType::Buy
            } else {
                OrderType::Sell
            },
            rate: if buy {
                price - half
            } else {
                price + half
            },
            quantity,
        }
    }

    /// Synthesises a random order: a coin for the side, a price drawn from
    /// the configured band and skewed by half the spread, and a quantity in
    /// `[1, 1000)`.
    pub fn random(
        rng: &mut nanorand::WyRand,
        prices_min: u32,
        prices_max: u32,
        buy_sell_dev: i32,
    ) -> (r: Order)
        requires
            prices_min < prices_max,
            prices_max <= i32::MAX,
            0 <= buy_sell_dev,
            prices_max + buy_sell_dev / 2 <= i32::MAX,
        ensures
            1 <= r.quantity < 1000,
            prices_min - buy_sell_dev / 2 <= r.rate < prices_max + buy_sell_dev / 2,
    {
        let buy = draw_bool(rng);
        let raw = draw_u32(rng);
        let quantity = draw_range_u32(rng, 1, 1000);
        Order::from_draws(buy, raw, quantity, prices_min, prices_max, buy_sell_dev)
    }
}

/// A stable handle to a registered order: slot index plus the generation the
/// slot had at registration time.
#[derive(Debug, Clone, Copy, PartialEq, Eq, Hash, Structural)]
pub struct OrderId {
    idx: usize,
    generation: u64,
}

/// An order as stored by the registry, carrying its handle and epoch.
#[derive(Debug, Clone, Copy, PartialEq, Eq, Structural)]
pub struct RegisteredOrder {
    pub id: OrderId,
    pub epoch: Epoch,
    pub order_type: OrderType,
    pub rate: Price,
    pub quantity: u32,
}

impl RegisteredOrder {
    /// Builds the registered form of `order` under the given handle and epoch.
    #[inline]
    pub fn init_from_order(id: OrderId, epoch: Epoch, order: Order) -> (r: Self)
        ensures
            r == (RegisteredOrder {
                id,
                epoch,
                order_type: order.order_type,
                rate: order.rate,
                quantity: order.quantity,
            }),
    {
        Self { id, epoch, order_type: order.order_type, rate: order.rate, quantity: order.quantity }
    }
}

/// One storage slot: its current generation and, when occupied, the order.
struct Slot {
    generation: u64,
    value: Option<RegisteredOrder>,
}

/// The registered-order store: slots addressed by `OrderId`, a free list of
/// vacant slot indices, and the count of live orders.
pub struct RegisteredOrders {
    slots: Vec<Slot>,
    free: Vec<usize>,
    count: usize,
}

/// Number of occupied slots in a slot sequence.
spec fn count_occ(s: Seq<Slot>) -> nat
    decreases s.len(),
{
    if s.len() == 0 {
        0
    } else {
        count_occ(s.drop_last()) + (if s.last().value is Some {
            1nat
        } else {
            0nat
        })
    }
}

proof fn lemma_count_occ_le(s: Seq<Slot>)
    ensures
        count_occ(s) <= s.len(),
    decreases s.len(),
{
    if s.len() > 0 {
        lemma_count_occ_le(s.drop_last());
    }
}

proof fn lemma_count_occ_pos(s: Seq<Slot>, i: int)
    requires
        0 <= i < s.len(),
        s[i].value is Some,
    ensures
        count_occ(s) >= 1,
    decreases s.len(),
{
    if i < s.len() - 1 {
        lemma_count_occ_pos(s.drop_last(), i);
    }
}

proof fn lemma_count_occ_none_lt(s: Seq<Slot>, i: int)
    requires
        0 <= i < s.len(),
        s[i].value is None,
    ensures
        count_occ(s) < s.len(),
    decreases s.len(),
{
    if i < s.len() - 1 {
        lemma_count_occ_none_lt(s.drop_last(), i);
    } else {
        lemma_count_occ_le(s.drop_last());
    }
}

proof fn lemma_count_occ_update(s: Seq<Slot>, i: int, x: Slot)
    requires
        0 <= i < s.len(),
    ensures
        count_occ(s.update(i, x)) == count_occ(s) + (if x.value is Some {
            1int
        } else {
            0int
        }) - (if s[i].value is Some {
            1int
        } else {
            0int
        }),
    decreases s.len(),
{
    let t = s.update(i, x);
    if i == s.len() - 1 {
        assert(t.drop_last() =~= s.drop_last());
    } else {
        assert(t.drop_last() =~= s.drop_last().update(i, x));
        lemma_count_occ_update(s.drop_last(), i, x);
    }
}

proof fn lemma_count_occ_push(s: Seq<Slot>, x: Slot)
    ensures
        count_occ(s.push(x)) == count_occ(s) + (if x.value is Some {
            1nat
        } else {
            0nat
        }),
{
    assert(s.push(x).drop_last() =~= s);
}

impl View for RegisteredOrders {
    type V = Map<OrderId, RegisteredOrder>;

    /// The map of live orders: a handle resolves exactly when its slot still
    /// carries the generation it was issued with and is occupied.
    closed spec fn view(&self) -> Map<OrderId, RegisteredOrder> {
        Map::new(
            |id: OrderId| self.valid_key(id),
            |id: OrderId| self.slots@[id.idx as int].value.unwrap(),
        )
    }
}

impl RegisteredOrders {
    spec fn valid_key(&self, id: OrderId) -> bool {
        &&& id.idx < self.slots@.len()
        &&& self.slots@[id.idx as int].generation == id.generation
        &&& self.slots@[id.idx as int].value is Some
    }

    /// Number of live orders.
    pub closed spec fn spec_len(&self) -> nat {
        self.count as nat
    }

    /// A handle is stale when the store can never again resolve it: its
    /// slot's generation has moved past it, or the slot was retired at the
    /// final generation.
    pub closed spec fn stale(&self, id: OrderId) -> bool {
        id.idx < self.slots@.len() && {
            let s = self.slots@[id.idx as int];
            ||| id.generation < s.generation
            ||| (id.generation == s.generation && s.generation == u64::MAX && s.value is None)
        }
    }

    /// Internal consistency of the store.
    pub closed spec fn wf(&self) -> bool {
        &&& self.count == count_occ(self.slots@)
        &&& (forall|k: int|
            0 <= k < self.free@.len() ==> (#[trigger] self.free@[k]) < self.slots@.len()
                && self.slots@[self.free@[k] as int].value is None
                && self.slots@[self.free@[k] as int].generation < u64::MAX)
        &&& (forall|k1: int, k2: int|
            0 <= k1 < k2 < self.free@.len() ==> #[trigger] self.free@[k1] != #[trigger] self.free@[k2])
        &&& (forall|i: int|
            0 <= i < self.slots@.len() && (#[trigger] self.slots@[i]).value is Some
                ==> self.slots@[i].generation < u64::MAX)
        &&& (forall|i: int|
            0 <= i < self.slots@.len() && (#[trigger] self.slots@[i]).value is Some
                ==> self.slots@[i].value.unwrap().id == (OrderId {
                idx: i as usize,
                generation: self.slots@[i].generation,
            }))
    }

    /// An empty store.
    pub fn new() -> (r: Self)
        ensures
            r.wf(),
            r@ == Map::<OrderId, RegisteredOrder>::empty(),
            r.spec_len() == 0,
    {
        let r = RegisteredOrders { slots: Vec::new(), free: Vec::new(), count: 0 };
        proof {
            assert(r@ =~= Map::<OrderId, RegisteredOrder>::empty());
        }
        r
    }

    /// Number of live orders.
    pub fn len(&self) -> (r: usize)
        requires
            self.wf(),
        ensures
            r == self.spec_len(),
    {
        self.count
    }

    /// Whether the handle currently resolves to a live order.
    pub fn contains_key(&self, id: OrderId) -> (r: bool)
        requires
            self.wf(),
        ensures
            r == self@.contains_key(id),
    {
        id.idx < self.slots.len() && self.slots[id.idx].generation == id.generation
            && self.slots[id.idx].value.is_some()
    }

    /// Borrows the order a handle resolves to, if it is still live.
    pub fn get(&self, id: OrderId) -> (r: Option<&RegisteredOrder>)
        requires
            self.wf(),
        ensures
            match r {
                Some(o) => self@.contains_key(id) && *o == self@[id],
                None => !self@.contains_key(id),
            },
    {
        if id.idx < self.slots.len() && self.slots[id.idx].generation == id.generation {
            match &self.slots[id.idx].value {
                Some(o) => Some(o),
                None => None,
            }
        } else {
            None
        }
    }

    /// Registers `order`, issuing a fresh handle, and returns the handle.
    pub fn add_order(&mut self, order: Order, epoch: Epoch) -> (id: OrderId)
        requires
            old(self).wf(),
        ensures
            final(self).wf(),
            !old(self)@.contains_key(id),
            final(self)@ == old(self)@.insert(id, (RegisteredOrder {
                id,
                epoch,
                order_type: order.order_type,
                rate: order.rate,
                quantity: order.quantity,
            })),
            final(self).spec_len() == old(self).spec_len() + 1,
            forall|x: OrderId| old(self).stale(x) ==> final(self).stale(x),
            !final(self).stale(id),
    {
        let idx: usize;
        let generation: u64;
        match self.free.pop() {
            Some(f) => {
                idx = f;
                generation = self.slots[f].generation;
            }
            None => {
                idx = self.slots.len();
                generation = 0;
                self.slots.push(Slot { generation: 0, value: None });
                proof {
                    lemma_count_occ_push(old(self).slots@, (Slot { generation: 0, value: None }));
                }
            }
        }
        let id = OrderId { idx, generation };
        let reg = RegisteredOrder::init_from_order(id, epoch, order);
        proof {
            lemma_count_occ_none_lt(self.slots@, idx as int);
            lemma_count_occ_update(
                self.slots@,
                idx as int,
                (Slot { generation, value: Some(reg) }),
            );
        }
        proof {
            assert(self.count < self.slots.len());
        }
        self.slots[idx].value = Some(reg);
        self.count = self.count + 1;
        proof {
            assert(self@ =~= old(self)@.insert(id, reg));
        }
        id
    }

    /// Registers `order` and returns the stored record, handle included.
    pub fn add_get_order(&mut self, order: Order, epoch: Epoch) -> (r: RegisteredOrder)
        requires
            old(self).wf(),
        ensures
            final(self).wf(),
            r == (RegisteredOrder {
                id: r.id,
                epoch,
                order_type: order.order_type,
                rate: order.rate,
                quantity: order.quantity,
            }),
            !old(self)@.contains_key(r.id),
            final(self)@ == old(self)@.insert(r.id, r),
            final(self).spec_len() == old(self).spec_len() + 1,
            forall|x: OrderId| old(self).stale(x) ==> final(self).stale(x),
            !final(self).stale(r.id),
    {
        let id = self.add_order(order, epoch);
        RegisteredOrder::init_from_order(id, epoch, order)
    }

    /// Vacates slot `idx`, bumping its generation; the slot returns to the
    /// free list unless it has reached the final generation.
    fn remove_at(&mut self, idx: usize) -> (r: RegisteredOrder)
        requires
            old(self).wf(),
            idx < old(self).slots@.len(),
            old(self).slots@[idx as int].value is Some,
        ensures
            final(self).wf(),
            r == old(self).slots@[idx as int].value.unwrap(),
            r.id == (OrderId { idx, generation: old(self).slots@[idx as int].generation }),
            old(self)@.contains_key(r.id) && r == old(self)@[r.id],
            final(self)@ == old(self)@.remove(
                (OrderId { idx, generation: old(self).slots@[idx as int].generation }),
            ),
            final(self).spec_len() == old(self).spec_len() - 1,
            final(self).stale(
                (OrderId { idx, generation: old(self).slots@[idx as int].generation }),
            ),
            forall|x: OrderId| old(self).stale(x) ==> final(self).stale(x),
            final(self).slots@.len() == old(self).slots@.len(),
            forall|j: int|
                0 <= j < old(self).slots@.len() && j != idx ==> final(self).slots@[j]
                    == old(self).slots@[j],
    {
        let g = self.slots[idx].generation;
        let r = match self.slots[idx].value {
            Some(o) => o,
            None => unreached(),
        };
        proof {
            lemma_count_occ_pos(self.slots@, idx as int);
            lemma_count_occ_update(
                self.slots@,
                idx as int,
                (Slot { generation: (g + 1) as u64, value: None }),
            );
        }
        self.slots[idx].value = None;
        self.slots[idx].generation = g + 1;
        proof {
            assert(self.slots@ =~= old(self).slots@.update(
                idx as int,
                (Slot { generation: (g + 1) as u64, value: None }),
            ));
        }
        self.count = self.count - 1;
        if g + 1 < u64::MAX {
            self.free.push(idx);
        }
        proof {
            let removed = OrderId { idx, generation: g };
            assert(self@ =~= old(self)@.remove(removed));
        }
        r
    }

    /// Removes and returns the order a handle resolves to; stales the handle.
    pub fn remove_order(&mut self, id: OrderId) -> (r: Option<RegisteredOrder>)
        requires
            old(self).wf(),
        ensures
            final(self).wf(),
            forall|x: OrderId| old(self).stale(x) ==> final(self).stale(x),
            match r {
                Some(o) => old(self)@.contains_key(id) && o == old(self)@[id] && final(self)@
                    == old(self)@.remove(id) && final(self).spec_len() == old(self).spec_len() - 1
                    && final(self).stale(id),
                None => !old(self)@.contains_key(id) && *final(self) == *old(self),
            },
    {
        if id.idx < self.slots.len() && self.slots[id.idx].generation == id.generation
            && self.slots[id.idx].value.is_some() {
            Some(self.remove_at(id.idx))
        } else {
            None
        }
    }

    /// Overwrites the stored record for `order.id` if it is live; otherwise
    /// does nothing.
    pub fn modify_order(&mut self, order: RegisteredOrder)
        requires
            old(self).wf(),
        ensures
            final(self).wf(),
            final(self).spec_len() == old(self).spec_len(),
            forall|x: OrderId| old(self).stale(x) ==> final(self).stale(x),
            old(self)@.contains_key(order.id) ==> final(self)@ == old(self)@.insert(
                order.id,
                order,
            ),
            !old(self)@.contains_key(order.id) ==> *final(self) == *old(self),
    {
        let id = order.id;
        if id.idx < self.slots.len() && self.slots[id.idx].generation == id.generation
            && self.slots[id.idx].value.is_some() {
            proof {
                lemma_count_occ_update(
                    self.slots@,
                    id.idx as int,
                    (Slot { generation: id.generation, value: Some(order) }),
                );
            }
            self.slots[id.idx].value = Some(order);
            proof {
                assert(self@ =~= old(self)@.insert(order.id, order));
            }
        }
    }

    /// Drops every live order whose rate is not below `limit`.
    pub fn retain_rate_below(&mut self, limit: Price)
        requires
            old(self).wf(),
        ensures
            final(self).wf(),
            forall|x: OrderId| old(self).stale(x) ==> final(self).stale(x),
            final(self)@ == Map::<OrderId, RegisteredOrder>::new(
                |id: OrderId| old(self)@.contains_key(id) && old(self)@[id].rate < limit,
                |id: OrderId| old(self)@[id],
            ),
    {
        let n = self.slots.len();
        let mut i: usize = 0;
        while i < n
            invariant
                self.wf(),
                n == old(self).slots@.len(),
                self.slots@.len() == n,
                i <= n,
                forall|x: OrderId| old(self).stale(x) ==> self.stale(x),
                forall|id: OrderId|
                    self@.contains_key(id) <==> (old(self)@.contains_key(id) && (id.idx >= i
                        || old(self)@[id].rate < limit)),
                forall|id: OrderId| self@.contains_key(id) ==> self@[id] == old(self)@[id],
            decreases n - i,
        {
            let drop_it = match &self.slots[i].value {
                Some(o) => o.rate >= limit,
                None => false,
            };
            if drop_it {
                let _ = self.remove_at(i);
            }
            i = i + 1;
        }
        proof {
            assert(self@ =~= Map::<OrderId, RegisteredOrder>::new(
                |id: OrderId| old(self)@.contains_key(id) && old(self)@[id].rate < limit,
                |id: OrderId| old(self)@[id],
            ));
        }
    }
}

impl Default for RegisteredOrders {
    /// An empty store.
    fn default() -> (r: Self)
        ensures
            r.wf(),
            r@ == Map::<OrderId, RegisteredOrder>::empty(),
            r.spec_len() == 0,
    {
        Self::new()
    }
}

/// A batch of cancelled handles, collected between book flushes.
pub struct CancelSet {
    ids: Vec<OrderId>,
}

impl View for CancelSet {
    type V = Seq<OrderId>;

    closed spec fn view(&self) -> Seq<OrderId> {
        self.ids@
    }
}

impl CancelSet {
    /// An empty batch.
    pub fn new() -> (r: Self)
        ensures
            r@ == Seq::<OrderId>::empty(),
    {
        CancelSet { ids: Vec::new() }
    }

    /// Records one cancelled handle.
    pub fn insert(&mut self, id: OrderId)
        ensures
            final(self)@ == old(self)@.push(id),
    {
        self.ids.push(id);
    }

    /// Whether the handle was recorded in this batch.
    pub fn contains(&self, id: OrderId) -> (r: bool)
        ensures
            r == self@.contains(id),
    {
        let n = self.ids.len();
        let mut i: usize = 0;
        while i < n
            invariant
                i <= n,
                n == self.ids@.len(),
                forall|k: int| 0 <= k < i ==> self.ids@[k] != id,
            decreases n - i,
        {
            if self.ids[i] == id {
                proof {
                    assert(self@[i as int] == id);
                }
                return true;
            }
            i = i + 1;
        }
        false
    }

    /// Forgets every recorded handle.
    pub fn clear(&mut self)
        ensures
            final(self)@ == Seq::<OrderId>::empty(),
    {
        self.ids.clear();
    }

    /// Number of recorded handles.
    pub fn len(&self) -> (r: usize)
        ensures
            r == self@.len(),
    {
        self.ids.len()
    }
}

impl Default for CancelSet {
    /// An empty batch.
    fn default() -> (r: Self)
        ensures
            r@ == Seq::<OrderId>::empty(),
    {
        Self::new()
    }
}

/// A request as produced by a driver: cancel a live order, modify one in
/// place, or register a new one in the given epoch.
#[derive(Debug, Clone)]
pub enum OrderRequest {
    CancelOrder(OrderId),
    ModifyOrder(RegisteredOrder),
    AddOrder(Order, u16),
}

/// A stale handle never resolves: the store holds nothing under it.
pub proof fn lemma_stale_handle_yields_nothing(r: &RegisteredOrders, id: OrderId)
    requires
        r.stale(id),
    ensures
        !r@.contains_key(id),
{
}

/// Round-trip law: registering an order under a fresh handle and then
/// removing that handle restores the map of live orders, and a count that
/// went up by one and back down by one returns to its prior value.
pub proof fn lemma_insert_remove_round_trip(
    m0: Map<OrderId, RegisteredOrder>,
    id: OrderId,
    o: RegisteredOrder,
    n0: nat,
    n1: nat,
    n2: nat,
)
    requires
        !m0.contains_key(id),
        n1 == n0 + 1,
        n2 == n1 - 1,
    ensures
        m0.insert(id, o).remove(id) == m0,
        n2 == n0,
{
    assert(m0.insert(id, o).remove(id) =~= m0);
}

} // verus!
