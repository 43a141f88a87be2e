//! The queue in which errors wait until the controller asks for them.

use vstd::prelude::*;
use crate::error::Error;

verus! {

/// The queue after `error` was added to a queue that holds at most
/// `capacity` errors: the error is added at the end where there is room.
/// Where there is none, the error that was added last is replaced by
/// [`Error::QueueOverflow`], as IEEE 488.2 asks, and the number of errors
/// stays as it is.
pub open spec fn pushed(queue: Seq<Error>, capacity: nat, error: Error) -> Seq<Error> {
    if queue.len() < capacity {
        queue.push(error)
    } else if queue.len() > 0 {
        queue.update(queue.len() - 1, Error::QueueOverflow)
    } else {
        queue
    }
}

/// The queue after each of `errors` was added in its turn.
pub open spec fn pushed_all(queue: Seq<Error>, capacity: nat, errors: Seq<Error>) -> Seq<Error>
    decreases errors.len(),
{
    if errors.len() == 0 {
        queue
    } else {
        pushed(pushed_all(queue, capacity, errors.drop_last()), capacity, errors.last())
    }
}

/// An error queue stores the occurred errors until they are queried by the
/// user. It behaves as the SCPI standard asks: errors leave in the order in
/// which they came, and an overflow is marked in the queue.
///
/// A queue that is verified states what it holds and how much it can hold,
/// and its methods are proved against that. The bodies that the two
/// specification functions have here stand in for a queue that is not
/// verified, of which nothing is proved.
pub trait ErrorQueue: Default {
    /// The errors in the queue, the oldest first.
    open spec fn errors(&self) -> Seq<Error> {
        Seq::empty()
    }

    /// The number of errors that the queue can hold.
    open spec fn capacity(&self) -> nat {
        0
    }

    /// The number of errors currently stored in the error queue.
    fn error_count(&self) -> (r: usize)
        ensures
            r == self.errors().len(),
    ;

    /// Append a new error to the end of the error queue.
    ///
    /// In the event of a queue overflow, the most recent element in the
    /// queue is replaced by [`Error::QueueOverflow`].
    fn push_error(&mut self, error: Error)
        ensures
            final(self).capacity() == old(self).capacity(),
            final(self).errors() == pushed(old(self).errors(), old(self).capacity(), error),
    ;

    /// Get and remove the error in the front of the error queue. If the queue
    /// is empty, [`None`] is returned.
    fn pop_error(&mut self) -> (r: Option<Error>)
        ensures
            final(self).capacity() == old(self).capacity(),
            old(self).errors().len() == 0 ==> r is None && final(self).errors() == old(
                self,
            ).errors(),
            old(self).errors().len() > 0 ==> r == Some(old(self).errors().first())
                && final(self).errors() == old(self).errors().drop_first(),
    ;

    /// Clear the error queue.
    fn clear(&mut self)
        ensures
            final(self).capacity() == old(self).capacity(),
            final(self).errors().len() == 0,
    ;
}

/// An implementation of an [`ErrorQueue`] that holds a maximum of `N` errors.
pub struct StaticErrorQueue<const N: usize> {
    queue: Vec<Error>,
}

impl<const N: usize> StaticErrorQueue<N> {
    /// The errors in the queue, the oldest first.
    pub closed spec fn view(&self) -> Seq<Error> {
        self.queue@
    }

    /// The invariant of the queue: it holds no more than `N` errors. A new
    /// queue has it, and every method keeps it.
    pub open spec fn wf(&self) -> bool {
        self@.len() <= N
    }

    /// An empty queue.
    pub fn new() -> (r: StaticErrorQueue<N>)
        ensures
            r@.len() == 0,
            r.wf(),
    {
        StaticErrorQueue { queue: Vec::new() }
    }
}

impl<const N: usize> Default for StaticErrorQueue<N> {
    fn default() -> (r: StaticErrorQueue<N>)
        ensures
            r@.len() == 0,
            r.wf(),
    {
        StaticErrorQueue::new()
    }
}

impl<const N: usize> ErrorQueue for StaticErrorQueue<N> {
    open spec fn errors(&self) -> Seq<Error> {
        self@
    }

    open spec fn capacity(&self) -> nat {
        N as nat
    }

    fn error_count(&self) -> (r: usize) {
        self.queue.len()
    }

    fn push_error(&mut self, error: Error)
        ensures
            old(self).wf() ==> final(self).wf(),
    {
        let count = self.queue.len();
        if count < N {
            self.queue.push(error);
        } else if count > 0 {
            // The queue is full: the most recent error becomes a *queue
            // overflow* error, as specified in IEEE 488.2, 21.8.1.
            self.queue.set(count - 1, Error::QueueOverflow);
        }
    }

    fn pop_error(&mut self) -> (r: Option<Error>)
        ensures
            old(self).wf() ==> final(self).wf(),
    {
        if self.queue.len() == 0 {
            None
        } else {
            let error = self.queue.remove(0);
            assert(self.queue@ =~= old(self).queue@.drop_first());
            Some(error)
        }
    }

    fn clear(&mut self)
        ensures
            final(self).wf(),
    {
        self.queue.clear();
    }
}

/// Errors that are added to an empty queue with room for all of them are
/// in the queue in the order in which they came: they leave it first in,
/// first out.
pub proof fn lemma_queue_is_fifo(capacity: nat, errors: Seq<Error>)
    requires
        errors.len() <= capacity,
    ensures
        pushed_all(Seq::empty(), capacity, errors) == errors,
    decreases errors.len(),
{
    if errors.len() > 0 {
        lemma_queue_is_fifo(capacity, errors.drop_last());
        assert(errors.drop_last().push(errors.last()) =~= errors);
    } else {
        assert(errors =~= Seq::<Error>::empty());
    }
}

/// An error that is added to a full queue replaces the last error of the
/// queue by `QueueOverflow`. The number of errors stays as it is, and so do
/// the errors before the last.
pub proof fn lemma_overflow_replaces_last(queue: Seq<Error>, capacity: nat, error: Error)
    requires
        queue.len() == capacity,
        capacity > 0,
    ensures
        pushed(queue, capacity, error).len() == capacity,
        pushed(queue, capacity, error).last() == Error::QueueOverflow,
        pushed(queue, capacity, error).drop_last() == queue.drop_last(),
{
    assert(pushed(queue, capacity, error).drop_last() =~= queue.drop_last());
}

/// A queue never grows beyond its capacity.
pub proof fn lemma_queue_is_bounded(queue: Seq<Error>, capacity: nat, error: Error)
    requires
        queue.len() <= capacity,
    ensures
        pushed(queue, capacity, error).len() <= capacity,
        pushed(queue, capacity, error).len() >= queue.len(),
{
}

} // verus!
