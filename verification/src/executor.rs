//! The executor's decision logic: how the worker pool and queue sizes are
//! resolved, and how request admission is granted and released.  The
//! surrounding runtime owns the actual threads and channels; it consults
//! this state for every decision.

use vstd::prelude::*;

verus! {

/// Why the executor refused a request.
#[derive(Debug, PartialEq, Eq, Clone)]
pub enum Error {
    /// The admission queue is full.
    TooManyRequests,
}

/// How many queue slots one worker is worth when no queue size is chosen.
pub const DEFAULT_QUEUE_SIZE_TO_POOL_SIZE_RATIO: usize = 10;

/// The executor's configuration under construction.
pub struct ExecutorBuilder {
    pub read_only: bool,
    pub pool_size: Option<usize>,
    pub queue_size: Option<usize>,
}

impl ExecutorBuilder {
    /// A builder with nothing chosen: writable, sizes resolved later.
    pub fn new() -> (r: ExecutorBuilder)
        ensures
            !r.read_only,
            r.pool_size is None,
            r.queue_size is None,
    {
        ExecutorBuilder { read_only: false, pool_size: None, queue_size: None }
    }

    /// Choose whether mutating operations are rejected.
    pub fn read_only(self, read_only: bool) -> (r: ExecutorBuilder)
        ensures
            r.read_only == read_only,
            r.pool_size == self.pool_size,
            r.queue_size == self.queue_size,
    {
        ExecutorBuilder { read_only, ..self }
    }

    /// Choose the worker pool size; a queue size not yet chosen follows it.
    pub fn pool_size(self, pool_size: usize) -> (r: ExecutorBuilder)
        ensures
            r.read_only == self.read_only,
            r.pool_size == Some(pool_size),
            r.queue_size == if self.queue_size is None {
                Some(pool_size)
            } else {
                self.queue_size
            },
    {
        let queue_size = match self.queue_size {
            None => Some(pool_size),
            q => q,
        };
        ExecutorBuilder { pool_size: Some(pool_size), queue_size, ..self }
    }

    /// Choose the admission queue size.
    pub fn queue_size(self, queue_size: usize) -> (r: ExecutorBuilder)
        ensures
            r.read_only == self.read_only,
            r.pool_size == self.pool_size,
            r.queue_size == Some(queue_size),
    {
        ExecutorBuilder { queue_size: Some(queue_size), ..self }
    }

    /// The pool size this builder resolves to, given the machine's cores.
    pub open spec fn resolved_pool(&self, cores: usize) -> usize {
        match self.pool_size {
            Some(p) => p,
            None => cores,
        }
    }

    /// The queue size this builder resolves to: the chosen one, or ten slots
    /// per worker.
    pub open spec fn resolved_queue(&self, cores: usize) -> int {
        match self.queue_size {
            Some(q) => q as int,
            None => self.resolved_pool(cores) * DEFAULT_QUEUE_SIZE_TO_POOL_SIZE_RATIO,
        }
    }

    /// Resolve the pool and queue sizes against the number of cores the
    /// machine offers.
    pub fn resolve(&self, cores: usize) -> (r: (usize, usize))
        requires
            self.resolved_queue(cores) <= usize::MAX,
        ensures
            r.0 == self.resolved_pool(cores),
            r.1 == self.resolved_queue(cores),
    {
        let pool = match self.pool_size {
            Some(p) => p,
            None => cores,
        };
        let queue = match self.queue_size {
            Some(q) => q,
            None => pool * DEFAULT_QUEUE_SIZE_TO_POOL_SIZE_RATIO,
        };
        (pool, queue)
    }
}

/// Request admission: a bounded count of requests in flight.  A request is
/// admitted exactly when a slot is free, and never waits.
pub struct Admission {
    capacity: usize,
    in_flight: usize,
}

impl Admission {
    /// The bookkeeping invariant: no more requests in flight than slots.
    pub closed spec fn wf(&self) -> bool {
        self.in_flight <= self.capacity
    }

    /// How many slots there are.
    pub closed spec fn capacity(&self) -> usize {
        self.capacity
    }

    /// How many requests hold a slot.
    pub closed spec fn in_flight(&self) -> usize {
        self.in_flight
    }

    /// An admission queue with `capacity` slots, all free.
    pub fn new(capacity: usize) -> (r: Admission)
        ensures
            r.wf(),
            r.capacity() == capacity,
            r.in_flight() == 0,
    {
        Admission { capacity, in_flight: 0 }
    }

    /// Try to admit one request without waiting: succeeds exactly when a
    /// slot is free, so with the queue full the next request is refused.
    pub fn try_acquire(&mut self) -> (r: Result<(), Error>)
        requires
            old(self).wf(),
        ensures
            final(self).wf(),
            final(self).capacity() == old(self).capacity(),
            r is Ok <==> old(self).in_flight() < old(self).capacity(),
            r is Ok ==> final(self).in_flight() == old(self).in_flight() + 1,
            r is Err ==> final(self).in_flight() == old(self).in_flight() && (r matches Err(
                Error::TooManyRequests,
            )),
    {
        if self.in_flight < self.capacity {
            self.in_flight = self.in_flight + 1;
            Ok(())
        } else {
            Err(Error::TooManyRequests)
        }
    }

    /// Release the slot of a finished request.
    pub fn release(&mut self)
        requires
            old(self).wf(),
            old(self).in_flight() > 0,
        ensures
            final(self).wf(),
            final(self).capacity() == old(self).capacity(),
            final(self).in_flight() == old(self).in_flight() - 1,
    {
        self.in_flight = self.in_flight - 1;
    }
}

} // verus!
