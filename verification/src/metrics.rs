//! What a store reports of its work while it runs.

use std::sync::Arc;

use vstd::prelude::*;

verus! {

/// What an application does with the events of a store. What a collector makes
/// of an event is its own business.
pub trait MetricsCollector: Send + Sync {
    /// A block is about to be written.
    fn block_pending(&self);

    /// A block was written.
    fn block_written(&self);

    /// Writing a block failed.
    fn block_write_error(&self);

    /// A block was there already.
    fn block_ignored(&self);

    /// Blocks were dropped.
    fn blocks_dropped(&self, amount: u64);

    /// Bytes were sent.
    fn bytes_sent(&self, amount: usize);

    /// Bytes were received.
    fn bytes_received(&self, amount: usize);

    /// A blocking block-disk operation was submitted. Collectors that do not
    /// care for these need not say so.
    fn block_disk_op_started(&self) {
    }

    /// The blocking operation completed, successfully or not.
    fn block_disk_op_finished(&self) {
    }
}

/// A collector that does nothing.
#[derive(Debug)]
pub struct NoOpMetrics;

impl MetricsCollector for NoOpMetrics {
    fn block_pending(&self) {
    }

    fn block_written(&self) {
    }

    fn block_write_error(&self) {
    }

    fn block_ignored(&self) {
    }

    fn blocks_dropped(&self, _amount: u64) {
    }

    fn bytes_sent(&self, _amount: usize) {
    }

    fn bytes_received(&self, _amount: usize) {
    }
}

impl Default for NoOpMetrics {
    fn default() -> (metrics: Self)
        ensures
            metrics == NoOpMetrics,
    {
        NoOpMetrics
    }
}

/// A shared reference to a collector: every event goes to it.
pub struct SharedMetrics<M: MetricsCollector> {
    /// The collector.
    pub collector: Arc<M>,
}

impl<M: MetricsCollector> SharedMetrics<M> {
    /// Shares a collector.
    pub fn new(collector: Arc<M>) -> (metrics: Self)
        ensures
            metrics == (SharedMetrics { collector }),
    {
        SharedMetrics { collector }
    }

    /// A block is about to be written.
    pub fn block_pending(&self) {
        self.collector.block_pending();
    }

    /// A block was written.
    pub fn block_written(&self) {
        self.collector.block_written();
    }

    /// Writing a block failed.
    pub fn block_write_error(&self) {
        self.collector.block_write_error();
    }

    /// A block was there already.
    pub fn block_ignored(&self) {
        self.collector.block_ignored();
    }

    /// Blocks were dropped.
    pub fn blocks_dropped(&self, amount: u64) {
        self.collector.blocks_dropped(amount);
    }

    /// Bytes were sent.
    pub fn bytes_sent(&self, amount: usize) {
        self.collector.bytes_sent(amount);
    }

    /// Bytes were received.
    pub fn bytes_received(&self, amount: usize) {
        self.collector.bytes_received(amount);
    }

    /// A blocking block-disk operation was submitted.
    pub fn block_disk_op_started(&self) {
        self.collector.block_disk_op_started();
    }

    /// The blocking operation completed, successfully or not.
    pub fn block_disk_op_finished(&self) {
        self.collector.block_disk_op_finished();
    }
}

impl Default for SharedMetrics<NoOpMetrics> {
    /// A collector that does nothing.
    fn default() -> (metrics: Self)
        ensures
            *metrics.collector == NoOpMetrics,
    {
        SharedMetrics { collector: Arc::new(NoOpMetrics) }
    }
}

} // verus!
