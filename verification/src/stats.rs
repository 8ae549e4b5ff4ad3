//! Per-epoch bookkeeping of the driver's progress: processing and period
//! times (in microseconds), and the per-period trade, add and cancel counts.

use vstd::prelude::*;

verus! {

/// One column per measurement, one row per completed period.
pub struct Stats {
    processing: Vec<u64>,
    period: Vec<u64>,
    number_trades: Vec<usize>,
    add_count: Vec<usize>,
    cancel_count: Vec<usize>,
}

impl Stats {
    /// Processing time of each period, in microseconds.
    pub closed spec fn spec_processing(&self) -> Seq<u64> {
        self.processing@
    }

    /// Total time of each period, in microseconds.
    pub closed spec fn spec_period(&self) -> Seq<u64> {
        self.period@
    }

    /// Number of trades cleared in each period.
    pub closed spec fn spec_number_trades(&self) -> Seq<usize> {
        self.number_trades@
    }

    /// Number of orders added in each period.
    pub closed spec fn spec_add_count(&self) -> Seq<usize> {
        self.add_count@
    }

    /// Number of orders cancelled in each period.
    pub closed spec fn spec_cancel_count(&self) -> Seq<usize> {
        self.cancel_count@
    }

    /// No periods recorded yet.
    pub fn new() -> (r: Self)
        ensures
            r.spec_processing() == Seq::<u64>::empty(),
            r.spec_period() == Seq::<u64>::empty(),
            r.spec_number_trades() == Seq::<usize>::empty(),
            r.spec_add_count() == Seq::<usize>::empty(),
            r.spec_cancel_count() == Seq::<usize>::empty(),
    {
        Stats {
            processing: Vec::new(),
            period: Vec::new(),
            number_trades: Vec::new(),
            add_count: Vec::new(),
            cancel_count: Vec::new(),
        }
    }

    /// Records one completed period.
    pub fn add_period(
        &mut self,
        processing: u64,
        period: u64,
        trades: usize,
        add_count: usize,
        cancel_count: usize,
    )
        ensures
            final(self).spec_processing() == old(self).spec_processing().push(processing),
            final(self).spec_period() == old(self).spec_period().push(period),
            final(self).spec_number_trades() == old(self).spec_number_trades().push(trades),
            final(self).spec_add_count() == old(self).spec_add_count().push(add_count),
            final(self).spec_cancel_count() == old(self).spec_cancel_count().push(cancel_count),
    {
        self.processing.push(processing);
        self.period.push(period);
        self.number_trades.push(trades);
        self.add_count.push(add_count);
        self.cancel_count.push(cancel_count);
    }

    /// Processing time of each period, in microseconds.
    pub fn processing_times(&self) -> (r: &Vec<u64>)
        ensures
            r@ == self.spec_processing(),
    {
        &self.processing
    }

    /// Total time of each period, in microseconds.
    pub fn period_times(&self) -> (r: &Vec<u64>)
        ensures
            r@ == self.spec_period(),
    {
        &self.period
    }

    /// Number of trades cleared in each period.
    pub fn trade_counts(&self) -> (r: &Vec<usize>)
        ensures
            r@ == self.spec_number_trades(),
    {
        &self.number_trades
    }

    /// Number of orders added in each period.
    pub fn add_counts(&self) -> (r: &Vec<usize>)
        ensures
            r@ == self.spec_add_count(),
    {
        &self.add_count
    }

    /// Number of orders cancelled in each period.
    pub fn cancel_counts(&self) -> (r: &Vec<usize>)
        ensures
            r@ == self.spec_cancel_count(),
    {
        &self.cancel_count
    }
}

impl Default for Stats {
    /// No periods recorded yet.
    fn default() -> (r: Self)
        ensures
            r.spec_processing() == Seq::<u64>::empty(),
            r.spec_period() == Seq::<u64>::empty(),
            r.spec_number_trades() == Seq::<usize>::empty(),
            r.spec_add_count() == Seq::<usize>::empty(),
            r.spec_cancel_count() == Seq::<usize>::empty(),
    {
        Self::new()
    }
}

} // verus!
