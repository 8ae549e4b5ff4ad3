//! Price-sorted side books: one flat sequence of registered-order copies per
//! side, kept sorted in the side's direction (buys by rate descending, sells
//! ascending) across batch insertion and bulk cancellation.

use crate::orders::{CancelSet, OrderType, RegisteredOrder, RegisteredOrders};
use rayon::slice::ParallelSliceMut;
use vstd::prelude::*;

verus! {

/// Order between two book entries in the direction a side is kept sorted.
pub open spec fn rate_le(side: OrderType, a: RegisteredOrder, b: RegisteredOrder) -> bool {
    match side {
        OrderType::Buy => a.rate >= b.rate,
        OrderType::Sell => a.rate <= b.rate,
    }
}

/// The sequence is sorted in the side's direction.
pub open spec fn sorted_side(side: OrderType, s: Seq<RegisteredOrder>) -> bool {
    forall|i: int, j: int| 0 <= i <= j < s.len() ==> rate_le(side, #[trigger] s[i], #[trigger] s[j])
}

/// Every entry belongs to the side and carries a positive quantity.
pub open spec fn entries_ok(side: OrderType, s: Seq<RegisteredOrder>) -> bool {
    forall|k: int| 0 <= k < s.len() ==> (#[trigger] s[k]).order_type == side && s[k].quantity >= 1
}

/// The subsequence of `s` whose elements satisfy `pred`, in order.
pub open spec fn keep(pred: spec_fn(RegisteredOrder) -> bool, s: Seq<RegisteredOrder>) -> Seq<
    RegisteredOrder,
>
    decreases s.len(),
{
    if s.len() == 0 {
        Seq::empty()
    } else {
        let rest = keep(pred, s.drop_last());
        if pred(s.last()) {
            rest.push(s.last())
        } else {
            rest
        }
    }
}

/// Keeping a subsequence preserves membership, sortedness in either
/// direction, and the per-entry side conditions.
proof fn lemma_keep_props(pred: spec_fn(RegisteredOrder) -> bool, side: OrderType, s: Seq<
    RegisteredOrder,
>)
    ensures
        forall|x: RegisteredOrder| #[trigger] keep(pred, s).contains(x) ==> s.contains(x) && pred(
            x,
        ),
        sorted_side(side, s) ==> sorted_side(side, keep(pred, s)),
        entries_ok(side, s) ==> entries_ok(side, keep(pred, s)),
    decreases s.len(),
{
    if s.len() > 0 {
        let rest = keep(pred, s.drop_last());
        lemma_keep_props(pred, side, s.drop_last());
        assert forall|x: RegisteredOrder| #[trigger] keep(pred, s).contains(x) implies s.contains(x)
            && pred(x) by {
            if rest.contains(x) {
                let i = choose|i: int| 0 <= i < s.drop_last().len() && s.drop_last()[i] == x;
                assert(s[i] == x);
            } else {
                assert(s[s.len() - 1] == x);
            }
        }
        if sorted_side(side, s) {
            assert forall|i: int, j: int|
                0 <= i <= j < keep(pred, s).len() implies rate_le(
                side,
                #[trigger] keep(pred, s)[i],
                #[trigger] keep(pred, s)[j],
            ) by {
                let t = keep(pred, s);
                if pred(s.last()) && j == t.len() - 1 && i < j {
                    assert(rest.contains(t[i]));
                    let k = choose|k: int| 0 <= k < s.drop_last().len() && s.drop_last()[k] == t[i];
                    assert(s[k] == t[i]);
                    assert(rate_le(side, s[k], s[s.len() - 1]));
                }
            }
        }
        if entries_ok(side, s) {
            assert forall|k: int| 0 <= k < keep(pred, s).len() implies (#[trigger] keep(pred, s)[k]).order_type
                == side && keep(pred, s)[k].quantity >= 1 by {
                let t = keep(pred, s);
                assert(t.contains(t[k]));
                let m = choose|m: int| 0 <= m < s.len() && s[m] == t[k];
            }
        }
    }
}

/// A price-sorted book of registered-order copies for one side.
pub struct SortedOrders {
    order_type: OrderType,
    orders: Vec<RegisteredOrder>,
}

impl View for SortedOrders {
    type V = Seq<RegisteredOrder>;

    closed spec fn view(&self) -> Seq<RegisteredOrder> {
        self.orders@
    }
}

impl SortedOrders {
    /// The side this book is sorted for.
    pub closed spec fn spec_side(&self) -> OrderType {
        self.order_type
    }

    /// The book invariant: sorted in the side's direction, entries of the
    /// side with positive quantities.
    pub open spec fn wf(&self) -> bool {
        sorted_side(self.spec_side(), self@) && entries_ok(self.spec_side(), self@)
    }

    /// An empty book for the given side.
    pub fn new(order_type: OrderType) -> (r: Self)
        ensures
            r.wf(),
            r.spec_side() == order_type,
            r@ == Seq::<RegisteredOrder>::empty(),
    {
        SortedOrders { order_type, orders: Vec::new() }
    }

    /// The side this book is sorted for.
    pub fn side(&self) -> (r: OrderType)
        ensures
            r == self.spec_side(),
    {
        self.order_type
    }

    /// Number of open orders in the book.
    pub fn len(&self) -> (r: usize)
        ensures
            r == self@.len(),
    {
        self.orders.len()
    }

    /// The best-priced entry, if the book is not empty.
    pub fn first(&self) -> (r: Option<&RegisteredOrder>)
        ensures
            match r {
                Some(o) => self@.len() > 0 && *o == self@[0],
                None => self@.len() == 0,
            },
    {
        if self.orders.len() > 0 {
            Some(&self.orders[0])
        } else {
            None
        }
    }

    /// The entry at position `i`.
    pub fn order_at(&self, i: usize) -> (r: &RegisteredOrder)
        requires
            i < self@.len(),
        ensures
            *r == self@[i as int],
    {
        &self.orders[i]
    }

    /// All entries, best-priced first.
    pub fn entries(&self) -> (r: &Vec<RegisteredOrder>)
        ensures
            r@ == self@,
    {
        &self.orders
    }

    /// Removes and returns the worst-priced entry.
    pub fn pop(&mut self) -> (r: Option<RegisteredOrder>)
        requires
            old(self).wf(),
        ensures
            final(self).wf(),
            final(self).spec_side() == old(self).spec_side(),
            match r {
                Some(o) => old(self)@.len() > 0 && o == old(self)@.last() && final(self)@
                    == old(self)@.drop_last(),
                None => old(self)@.len() == 0 && final(self)@ == old(self)@,
            },
    {
        self.orders.pop()
    }

    /// Appends a batch and re-sorts the whole book in the side's direction
    /// with a parallel sort; the input buffer is emptied. The new book holds
    /// exactly the old entries plus the batch.
    pub fn add_batch(&mut self, new_orders: &mut Vec<RegisteredOrder>)
        requires
            old(self).wf(),
            entries_ok(old(self).spec_side(), old(new_orders)@),
        ensures
            final(self).wf(),
            final(self).spec_side() == old(self).spec_side(),
            final(new_orders)@ == Seq::<RegisteredOrder>::empty(),
            final(self)@.to_multiset() == old(self)@.to_multiset().add(
                old(new_orders)@.to_multiset(),
            ),
    {
        proof {
            vstd::seq_lib::lemma_multiset_commutative(old(self)@, old(new_orders)@);
        }
        self.orders.append(new_orders);
        match self.order_type {
            OrderType::Buy => par_sort_desc_by_rate(&mut self.orders),
            OrderType::Sell => par_sort_asc_by_rate(&mut self.orders),
        }
        proof {
            lemma_entries_ok_of_multiset(
                self.order_type,
                self.orders@,
                old(self)@,
                old(new_orders)@,
            );
        }
    }

    /// Merge variant used when a registry-backed liveness check is available:
    /// the batch is filtered to live orders and sorted, the current book is
    /// filtered to live orders, and the two streams are merged under the
    /// side's comparator. The input buffer is emptied.
    pub fn add_remove_batch(
        &mut self,
        new_orders: &mut Vec<RegisteredOrder>,
        orders: &RegisteredOrders,
    )
        requires
            old(self).wf(),
            orders.wf(),
            entries_ok(old(self).spec_side(), old(new_orders)@),
        ensures
            final(self).wf(),
            final(self).spec_side() == old(self).spec_side(),
            final(new_orders)@ == Seq::<RegisteredOrder>::empty(),
            final(self)@.to_multiset() == keep(
                |o: RegisteredOrder| orders@.contains_key(o.id),
                old(self)@,
            ).to_multiset().add(
                keep(|o: RegisteredOrder| orders@.contains_key(o.id), old(new_orders)@).to_multiset(),
            ),
            forall|k: int|
                0 <= k < final(self)@.len() ==> orders@.contains_key(
                    (#[trigger] final(self)@[k]).id,
                ),
    {
        let ghost pred = |o: RegisteredOrder| orders@.contains_key(o.id);
        let side = self.order_type;
        let mut incoming: Vec<RegisteredOrder> = Vec::new();
        core::mem::swap(new_orders, &mut incoming);
        let mut kept_new = filter_live(incoming, orders);
        proof {
            lemma_keep_props(pred, side, old(new_orders)@);
        }
        match side {
            OrderType::Buy => par_sort_desc_by_rate(&mut kept_new),
            OrderType::Sell => par_sort_asc_by_rate(&mut kept_new),
        }
        let mut cur: Vec<RegisteredOrder> = Vec::new();
        core::mem::swap(&mut self.orders, &mut cur);
        let kept_cur = filter_live(cur, orders);
        proof {
            lemma_keep_props(pred, side, old(self)@);
            lemma_entries_ok_perm(side, kept_new@, keep(pred, old(new_orders)@));
        }
        let merged = merge_side(side, kept_new, kept_cur);
        self.orders = merged;
        proof {
            broadcast use vstd::seq_lib::group_to_multiset_ensures;

            assert(self@.to_multiset() =~= keep(pred, old(self)@).to_multiset().add(
                keep(pred, old(new_orders)@).to_multiset(),
            ));
            lemma_entries_ok_of_multiset(
                side,
                self@,
                keep(pred, old(self)@),
                keep(pred, old(new_orders)@),
            );
            assert forall|k: int|
                0 <= k < self@.len() implies orders@.contains_key(
                (#[trigger] self@[k]).id,
            ) by {
                assert(self@.contains(self@[k]));
                assert(self@.to_multiset().count(self@[k]) > 0);
                if keep(pred, old(self)@).to_multiset().count(self@[k]) > 0 {
                    assert(keep(pred, old(self)@).contains(self@[k]));
                } else {
                    assert(keep(pred, old(new_orders)@).to_multiset().count(self@[k]) > 0);
                    assert(keep(pred, old(new_orders)@).contains(self@[k]));
                }
            }
        }
    }

    /// Merge variant keyed by a cancellation batch instead of the registry:
    /// entries whose handle is in the batch are dropped from both streams.
    /// Both input buffers are emptied.
    pub fn add_remove_hash_set_batch(
        &mut self,
        add: &mut Vec<RegisteredOrder>,
        remove: &mut CancelSet,
    )
        requires
            old(self).wf(),
            entries_ok(old(self).spec_side(), old(add)@),
        ensures
            final(self).wf(),
            final(self).spec_side() == old(self).spec_side(),
            final(add)@ == Seq::<RegisteredOrder>::empty(),
            final(remove)@ == Seq::<crate::orders::OrderId>::empty(),
            final(self)@.to_multiset() == keep(
                |o: RegisteredOrder| !old(remove)@.contains(o.id),
                old(self)@,
            ).to_multiset().add(
                keep(|o: RegisteredOrder| !old(remove)@.contains(o.id), old(add)@).to_multiset(),
            ),
    {
        let ghost pred = |o: RegisteredOrder| !old(remove)@.contains(o.id);
        let side = self.order_type;
        let mut incoming: Vec<RegisteredOrder> = Vec::new();
        core::mem::swap(add, &mut incoming);
        let mut kept_new = filter_not_cancelled(incoming, remove);
        proof {
            lemma_keep_props(pred, side, old(add)@);
        }
        match side {
            OrderType::Buy => par_sort_desc_by_rate(&mut kept_new),
            OrderType::Sell => par_sort_asc_by_rate(&mut kept_new),
        }
        let mut cur: Vec<RegisteredOrder> = Vec::new();
        core::mem::swap(&mut self.orders, &mut cur);
        let kept_cur = filter_not_cancelled(cur, remove);
        proof {
            lemma_keep_props(pred, side, old(self)@);
            lemma_entries_ok_perm(side, kept_new@, keep(pred, old(add)@));
        }
        let merged = merge_side(side, kept_new, kept_cur);
        self.orders = merged;
        remove.clear();
        proof {
            assert(self@.to_multiset() =~= keep(pred, old(self)@).to_multiset().add(
                keep(pred, old(add)@).to_multiset(),
            ));
            lemma_entries_ok_of_multiset(
                side,
                self@,
                keep(pred, old(self)@),
                keep(pred, old(add)@),
            );
        }
    }

    /// Retains only the entries whose handle is not in the cancellation
    /// batch, in place and in order.
    pub fn remove_batch(&mut self, cancel_ids: &CancelSet)
        requires
            old(self).wf(),
        ensures
            final(self).wf(),
            final(self).spec_side() == old(self).spec_side(),
            final(self)@ == keep(
                |o: RegisteredOrder| !cancel_ids@.contains(o.id),
                old(self)@,
            ),
    {
        let ghost pred = |o: RegisteredOrder| !cancel_ids@.contains(o.id);
        let mut cur: Vec<RegisteredOrder> = Vec::new();
        core::mem::swap(&mut self.orders, &mut cur);
        self.orders = filter_not_cancelled(cur, cancel_ids);
        proof {
            lemma_keep_props(pred, self.order_type, old(self)@);
        }
    }

    /// Removes the entries at positions `0 ..= upto` and returns them in
    /// order; the remainder stays in the book, still sorted.
    pub fn drain_prefix(&mut self, upto: usize) -> (out: Vec<RegisteredOrder>)
        requires
            old(self).wf(),
            upto < old(self)@.len(),
        ensures
            final(self).wf(),
            final(self).spec_side() == old(self).spec_side(),
            out@ == old(self)@.subrange(0, upto + 1),
            final(self)@ == old(self)@.subrange(upto + 1, old(self)@.len() as int),
    {
        proof {
            assert(upto < self.orders.len());
        }
        let mut tail = self.orders.split_off(upto + 1);
        core::mem::swap(&mut self.orders, &mut tail);
        tail
    }
}

/// Retains the entries whose handle is still live in the registry.
fn filter_live(v: Vec<RegisteredOrder>, reg: &RegisteredOrders) -> (out: Vec<RegisteredOrder>)
    requires
        reg.wf(),
    ensures
        out@ == keep(|o: RegisteredOrder| reg@.contains_key(o.id), v@),
{
    let mut out: Vec<RegisteredOrder> = Vec::new();
    let n = v.len();
    let mut i: usize = 0;
    while i < n
        invariant
            i <= n,
            n == v@.len(),
            reg.wf(),
            out@ == keep((|o: RegisteredOrder| reg@.contains_key(o.id)), v@.take(i as int)),
        decreases n - i,
    {
        proof {
            assert(v@.take(i + 1).drop_last() =~= v@.take(i as int));
            assert(v@.take(i + 1).last() == v@[i as int]);
        }
        let o = v[i];
        if reg.contains_key(o.id) {
            out.push(o);
        }
        i = i + 1;
    }
    proof {
        assert(v@.take(n as int) =~= v@);
    }
    out
}

/// Retains the entries whose handle is not in the cancellation batch.
fn filter_not_cancelled(v: Vec<RegisteredOrder>, cancels: &CancelSet) -> (out: Vec<
    RegisteredOrder,
>)
    ensures
        out@ == keep(|o: RegisteredOrder| !cancels@.contains(o.id), v@),
{
    let mut out: Vec<RegisteredOrder> = Vec::new();
    let n = v.len();
    let mut i: usize = 0;
    while i < n
        invariant
            i <= n,
            n == v@.len(),
            out@ == keep((|o: RegisteredOrder| !cancels@.contains(o.id)), v@.take(i as int)),
        decreases n - i,
    {
        proof {
            assert(v@.take(i + 1).drop_last() =~= v@.take(i as int));
            assert(v@.take(i + 1).last() == v@[i as int]);
        }
        let o = v[i];
        if !cancels.contains(o.id) {
            out.push(o);
        }
        i = i + 1;
    }
    proof {
        assert(v@.take(n as int) =~= v@);
    }
    out
}

/// Merges two sequences sorted in the side's direction into one sorted
/// sequence holding exactly the entries of both.
fn merge_side(side: OrderType, a: Vec<RegisteredOrder>, b: Vec<RegisteredOrder>) -> (out: Vec<
    RegisteredOrder,
>)
    requires
        sorted_side(side, a@),
        sorted_side(side, b@),
    ensures
        sorted_side(side, out@),
        out@.to_multiset() == a@.to_multiset().add(b@.to_multiset()),
{
    broadcast use vstd::seq_lib::group_to_multiset_ensures;

    let na = a.len();
    let nb = b.len();
    let mut out: Vec<RegisteredOrder> = Vec::new();
    let mut i: usize = 0;
    let mut j: usize = 0;
    while i < na || j < nb
        invariant
            i <= na,
            j <= nb,
            na == a@.len(),
            nb == b@.len(),
            sorted_side(side, a@),
            sorted_side(side, b@),
            sorted_side(side, out@),
            out@.len() == i + j,
            out@.to_multiset() == a@.take(i as int).to_multiset().add(
                b@.take(j as int).to_multiset(),
            ),
            forall|k: int|
                0 <= k < out@.len() && i < na ==> rate_le(side, #[trigger] out@[k], a@[i as int]),
            forall|k: int|
                0 <= k < out@.len() && j < nb ==> rate_le(side, #[trigger] out@[k], b@[j as int]),
        decreases na - i + nb - j,
    {
        let take_a: bool = if j >= nb {
            true
        } else if i >= na {
            false
        } else {
            match side {
                OrderType::Buy => a[i].rate >= b[j].rate,
                OrderType::Sell => a[i].rate <= b[j].rate,
            }
        };
        if take_a {
            let x = a[i];
            proof {
                broadcast use vstd::seq_lib::group_to_multiset_ensures;

                assert(a@.take(i + 1) =~= a@.take(i as int).push(x));
                assert(a@.take(i as int).push(x).to_multiset() =~= a@.take(
                    i as int,
                ).to_multiset().insert(x));
                assert(out@.push(x).to_multiset() =~= out@.to_multiset().insert(x));
                assert(out@.push(x).to_multiset() =~= a@.take(i + 1).to_multiset().add(
                    b@.take(j as int).to_multiset(),
                ));
            }
            out.push(x);
            i = i + 1;
        } else {
            let x = b[j];
            proof {
                broadcast use vstd::seq_lib::group_to_multiset_ensures;

                assert(b@.take(j + 1) =~= b@.take(j as int).push(x));
                assert(b@.take(j as int).push(x).to_multiset() =~= b@.take(
                    j as int,
                ).to_multiset().insert(x));
                assert(out@.push(x).to_multiset() =~= out@.to_multiset().insert(x));
                assert(out@.push(x).to_multiset() =~= a@.take(i as int).to_multiset().add(
                    b@.take(j + 1).to_multiset(),
                ));
            }
            out.push(x);
            j = j + 1;
        }
    }
    proof {
        assert(a@.take(na as int) =~= a@);
        assert(b@.take(nb as int) =~= b@);
    }
    out
}

/// A permutation of a side-clean sequence is side-clean.
proof fn lemma_entries_ok_perm(side: OrderType, s: Seq<RegisteredOrder>, a: Seq<RegisteredOrder>)
    requires
        s.to_multiset() == a.to_multiset(),
        entries_ok(side, a),
    ensures
        entries_ok(side, s),
{
    broadcast use vstd::seq_lib::group_to_multiset_ensures;

    assert forall|k: int| 0 <= k < s.len() implies (#[trigger] s[k]).order_type == side
        && s[k].quantity >= 1 by {
        assert(s.contains(s[k]));
        assert(s.to_multiset().count(s[k]) > 0);
        assert(a.contains(s[k]));
        let i = choose|i: int| 0 <= i < a.len() && a[i] == s[k];
    }
}

/// Entries drawn from two side-clean sequences are side-clean themselves.
proof fn lemma_entries_ok_of_multiset(
    side: OrderType,
    s: Seq<RegisteredOrder>,
    a: Seq<RegisteredOrder>,
    b: Seq<RegisteredOrder>,
)
    requires
        s.to_multiset() == a.to_multiset().add(b.to_multiset()),
        entries_ok(side, a),
        entries_ok(side, b),
    ensures
        entries_ok(side, s),
{
    broadcast use vstd::seq_lib::group_to_multiset_ensures;

    assert forall|k: int| 0 <= k < s.len() implies (#[trigger] s[k]).order_type == side
        && s[k].quantity >= 1 by {
        assert(s.contains(s[k]));
        assert(s.to_multiset().count(s[k]) > 0);
        if a.to_multiset().count(s[k]) > 0 {
            assert(a.contains(s[k]));
            let i = choose|i: int| 0 <= i < a.len() && a[i] == s[k];
        } else {
            assert(b.to_multiset().count(s[k]) > 0);
            assert(b.contains(s[k]));
            let i = choose|i: int| 0 <= i < b.len() && b[i] == s[k];
        }
    }
}

/// Relies on rayon's `par_sort_by`: a parallel merge sort by the given
/// comparator, leaving a permutation of the input; here by rate, highest
/// first.
#[verifier::external_body]
fn par_sort_desc_by_rate(v: &mut Vec<RegisteredOrder>)
    ensures
        final(v)@.to_multiset() == old(v)@.to_multiset(),
        sorted_side(OrderType::Buy, final(v)@),
{
    v.par_sort_by(|a, b| b.rate.cmp(&a.rate));
}

/// Relies on rayon's `par_sort_by`: a parallel merge sort by the given
/// comparator, leaving a permutation of the input; here by rate, lowest
/// first.
#[verifier::external_body]
fn par_sort_asc_by_rate(v: &mut Vec<RegisteredOrder>)
    ensures
        final(v)@.to_multiset() == old(v)@.to_multiset(),
        sorted_side(OrderType::Sell, final(v)@),
{
    v.par_sort_by(|a, b| a.rate.cmp(&b.rate));
}

} // verus!
