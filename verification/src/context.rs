//! The state that the standard commands need: the error queue and the
//! status registers.

use vstd::prelude::*;
use crate::commands::{ErrorCommands, StandardCommands, StatusCommands};
use crate::error::Error;
use crate::error_queue::{pushed, ErrorQueue};
use crate::registers::StatusRegisters;

verus! {

/// The number of errors that the queue of a [`Context`] holds.
pub const MAX_ERRORS: usize = 10;

/// The outside type `heapless::Deque`, a double-ended queue of fixed
/// capacity.
#[verifier::external_type_specification]
#[verifier::external_body]
#[verifier::reject_recursive_types(T)]
pub struct ExDeque<T, const N: usize>(heapless::Deque<T, N>);

/// The errors that a deque holds, from its front to its back.
pub uninterp spec fn deque_items(deque: heapless::Deque<Error, MAX_ERRORS>) -> Seq<Error>;

/// `heapless::Deque::new`: a deque that holds nothing.
#[verifier::external_body]
fn new_deque() -> (r: heapless::Deque<Error, MAX_ERRORS>)
    ensures
        deque_items(r).len() == 0,
{
    heapless::Deque::new()
}

/// `heapless::Deque::len`: the number of items that the deque holds.
#[verifier::external_body]
fn deque_len(deque: &heapless::Deque<Error, MAX_ERRORS>) -> (r: usize)
    ensures
        r == deque_items(*deque).len(),
{
    deque.len()
}

/// `heapless::Deque::push_back`: a deque that is not full, which is one that
/// holds fewer items than its capacity, takes the item at its back. A full
/// deque stays as it is and hands the item back.
#[verifier::external_body]
fn deque_push_back(deque: &mut heapless::Deque<Error, MAX_ERRORS>, error: Error) -> (r: Result<
    (),
    Error,
>)
    ensures
        match r {
            Ok(_) => deque_items(*old(deque)).len() < MAX_ERRORS && deque_items(*final(deque))
                == deque_items(*old(deque)).push(error),
            Err(back) => deque_items(*old(deque)).len() == MAX_ERRORS && deque_items(*final(deque))
                == deque_items(*old(deque)) && back == error,
        },
{
    deque.push_back(error)
}

/// `heapless::Deque::pop_front`: the item at the front leaves the deque and
/// is returned. An empty deque stays as it is and gives nothing.
#[verifier::external_body]
fn deque_pop_front(deque: &mut heapless::Deque<Error, MAX_ERRORS>) -> (r: Option<Error>)
    ensures
        match r {
            Some(error) => deque_items(*old(deque)).len() > 0 && error == deque_items(
                *old(deque),
            ).first() && deque_items(*final(deque)) == deque_items(*old(deque)).drop_first(),
            None => deque_items(*old(deque)).len() == 0 && deque_items(*final(deque))
                == deque_items(*old(deque)),
        },
{
    deque.pop_front()
}

/// `heapless::Deque::pop_back`: the item at the back leaves the deque and is
/// returned. An empty deque stays as it is and gives nothing.
#[verifier::external_body]
fn deque_pop_back(deque: &mut heapless::Deque<Error, MAX_ERRORS>) -> (r: Option<Error>)
    ensures
        match r {
            Some(error) => deque_items(*old(deque)).len() > 0 && error == deque_items(
                *old(deque),
            ).last() && deque_items(*final(deque)) == deque_items(*old(deque)).drop_last(),
            None => deque_items(*old(deque)).len() == 0 && deque_items(*final(deque))
                == deque_items(*old(deque)),
        },
{
    deque.pop_back()
}

/// `heapless::Deque::clear`: every item leaves the deque.
#[verifier::external_body]
fn deque_clear(deque: &mut heapless::Deque<Error, MAX_ERRORS>)
    ensures
        deque_items(*final(deque)).len() == 0,
{
    deque.clear()
}

/// The [`ErrorQueue`] of a [`Context`]: at most [`MAX_ERRORS`] errors in a
/// deque of fixed capacity, which needs no allocator.
pub struct FixedErrorQueue {
    deque: heapless::Deque<Error, MAX_ERRORS>,
}

impl FixedErrorQueue {
    /// The errors in the queue, the oldest first.
    pub closed spec fn view(&self) -> Seq<Error> {
        deque_items(self.deque)
    }

    /// An empty queue.
    pub fn new() -> (r: FixedErrorQueue)
        ensures
            r@.len() == 0,
    {
        FixedErrorQueue { deque: new_deque() }
    }
}

impl Default for FixedErrorQueue {
    fn default() -> (r: FixedErrorQueue)
        ensures
            r@.len() == 0,
    {
        FixedErrorQueue::new()
    }
}

impl ErrorQueue for FixedErrorQueue {
    open spec fn errors(&self) -> Seq<Error> {
        self@
    }

    open spec fn capacity(&self) -> nat {
        MAX_ERRORS as nat
    }

    fn error_count(&self) -> (r: usize) {
        deque_len(&self.deque)
    }

    fn push_error(&mut self, error: Error) {
        let ghost before = self@;
        if deque_push_back(&mut self.deque, error).is_err() {
            // The queue is full: the most recent error makes room for a
            // *queue overflow* error, as specified in IEEE 488.2, 21.8.1.
            if deque_pop_back(&mut self.deque).is_some() {
                let _ = deque_push_back(&mut self.deque, Error::QueueOverflow);
                assert(self@ =~= before.update(before.len() - 1, Error::QueueOverflow));
            }
        }
    }

    fn pop_error(&mut self) -> (r: Option<Error>) {
        deque_pop_front(&mut self.deque)
    }

    fn clear(&mut self) {
        deque_clear(&mut self.deque);
    }
}

/// SCPI Context
///
/// The SCPI context contains the error queue and the status registers of
/// an interface. It answers the standard commands that ask for errors, for
/// the version and for the status.
pub struct Context {
    errors: FixedErrorQueue,
    registers: StatusRegisters,
}

impl Context {
    /// The errors in the queue, the oldest first.
    pub closed spec fn view(&self) -> Seq<Error> {
        self.errors@
    }

    /// A context with an empty queue, and with the registers of a device that
    /// was just switched on.
    pub fn new() -> (r: Context)
        ensures
            r@.len() == 0,
            r.registers().event_status@ == 0x80,
            r.registers().event_status_enable@ == 0xff,
            r.registers().status_byte_enable@ == 0xfc,
    {
        Context { errors: FixedErrorQueue::new(), registers: StatusRegisters::default() }
    }

    /// Takes the oldest error out of the queue.
    pub fn pop_error(&mut self) -> (r: Option<Error>)
        ensures
            final(self).registers() == old(self).registers(),
            old(self)@.len() == 0 ==> r is None && final(self)@ == old(self)@,
            old(self)@.len() > 0 ==> r == Some(old(self)@.first()) && final(self)@ == old(
                self,
            )@.drop_first(),
    {
        self.errors.pop_error()
    }

    /// Adds an error to the queue. In a full queue it replaces the error
    /// that was added last by `QueueOverflow`.
    pub fn push_error(&mut self, error: Error)
        ensures
            final(self).registers() == old(self).registers(),
            final(self)@ == pushed(old(self)@, MAX_ERRORS as nat, error),
    {
        self.errors.push_error(error);
    }
}

impl ErrorCommands for Context {
    type Queue = FixedErrorQueue;

    closed spec fn queue(&self) -> FixedErrorQueue {
        self.errors
    }

    fn error_queue(&mut self) -> (r: &mut FixedErrorQueue) {
        &mut self.errors
    }
}

impl StandardCommands for Context {

}

impl StatusCommands for Context {
    closed spec fn registers(&self) -> StatusRegisters {
        self.registers
    }

    fn status_registers(&mut self) -> (r: &mut StatusRegisters) {
        &mut self.registers
    }
}

} // verus!
