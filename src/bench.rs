//! The throughput monitor: counts stored inventories and closes a batch
//! once a configured number of them has been stored.

use vstd::prelude::*;

verus! {

/// A finished batch: how many items it held and the time from its first
/// item to its last, in the clock's units.
#[derive(Debug, Clone, PartialEq, Eq)]
pub struct BatchReport {
    pub items: usize,
    pub elapsed: u64,
}

/// Counts stored items in batches of `total_count`. `start_time` is the
/// clock reading at the first item of the current batch.
#[derive(Debug, Clone, PartialEq, Eq)]
pub struct Bencher {
    pub start_time: Option<u64>,
    pub total_count: usize,
    pub saved_count: usize,
}

impl Bencher {
    /// A batch size above zero; fewer items saved than that; a start time
    /// exactly while the batch has items.
    pub open spec fn wf(&self) -> bool {
        &&& 0 < self.total_count
        &&& self.saved_count < self.total_count
        &&& (self.saved_count == 0 <==> self.start_time is None)
    }

    /// The start of the current batch, were an item saved at `now`.
    pub open spec fn batch_start(&self, now: u64) -> u64 {
        match self.start_time {
            Some(t) => t,
            None => now,
        }
    }

    pub fn new(batch_size: usize) -> (r: Bencher)
        requires
            batch_size > 0,
        ensures
            r.wf(),
            r.total_count == batch_size,
            r.saved_count == 0,
    {
        Bencher { start_time: None, total_count: batch_size, saved_count: 0 }
    }

    /// Counts one stored item at clock reading `now`. The item that fills
    /// the batch closes it: its report comes back and the count and the
    /// start start over.
    pub fn save(&mut self, now: u64) -> (r: Option<BatchReport>)
        requires
            old(self).wf(),
            old(self).batch_start(now) <= now,
        ensures
            final(self).wf(),
            final(self).total_count == old(self).total_count,
            old(self).saved_count + 1 == old(self).total_count ==> {
                &&& r == Some(BatchReport { items: old(self).total_count, elapsed: (now - old(self).batch_start(now)) as u64 })
                &&& final(self).start_time is None
                &&& final(self).saved_count == 0
            },
            old(self).saved_count + 1 < old(self).total_count ==> {
                &&& r is None
                &&& final(self).start_time == Some(old(self).batch_start(now))
                &&& final(self).saved_count == old(self).saved_count + 1
            },
    {
        let start = match self.start_time {
            Some(t) => t,
            None => now,
        };
        self.start_time = Some(start);
        self.saved_count = self.saved_count + 1;
        if self.saved_count == self.total_count {
            let report = BatchReport { items: self.saved_count, elapsed: now - start };
            self.start_time = None;
            self.saved_count = 0;
            Some(report)
        } else {
            None
        }
    }
}

} // verus!
