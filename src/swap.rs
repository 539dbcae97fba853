use vstd::prelude::*;

use crate::deque::LFQueue;

verus! {

/// The room each queue of a fresh `SwapQueue` has before it first grows.
pub const SWAP_QUEUE_CAPACITY: usize = 10;

/// A pair of deques for an executor: one holds the work that waits, the
/// other the work that is being run.
pub struct SwapQueue<T> {
    waitq: LFQueue<T>,
    activeq: LFQueue<T>,
}

impl<T> SwapQueue<T> {
    /// The queue of waiting work.
    pub closed spec fn wait_queue(&self) -> LFQueue<T> {
        self.waitq
    }

    /// The queue of active work.
    pub closed spec fn active_queue(&self) -> LFQueue<T> {
        self.activeq
    }

    /// Two empty queues, each with `SWAP_QUEUE_CAPACITY` slots.
    pub fn new() -> (r: Self)
        ensures
            r.wait_queue().wf(),
            r.wait_queue()@ == Seq::<T>::empty(),
            r.wait_queue().capacity_spec() == SWAP_QUEUE_CAPACITY,
            r.active_queue().wf(),
            r.active_queue()@ == Seq::<T>::empty(),
            r.active_queue().capacity_spec() == SWAP_QUEUE_CAPACITY,
            r.wait_queue().top_spec() == 0,
            r.wait_queue().bottom_spec() == 0,
            r.active_queue().top_spec() == 0,
            r.active_queue().bottom_spec() == 0,
    {
        let waitq = LFQueue::new(SWAP_QUEUE_CAPACITY);
        let activeq = LFQueue::new(SWAP_QUEUE_CAPACITY);
        SwapQueue { waitq, activeq }
    }

    /// The queue of waiting work.
    pub fn waiting(&self) -> (r: &LFQueue<T>)
        ensures
            *r == self.wait_queue(),
    {
        &self.waitq
    }

    /// The queue of active work.
    pub fn active(&self) -> (r: &LFQueue<T>)
        ensures
            *r == self.active_queue(),
    {
        &self.activeq
    }
}

} // verus!
