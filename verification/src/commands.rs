//! This module contains implementations of SCPI standard commands.

use vstd::prelude::*;
use crate::error::Error;
use crate::error_queue::{pushed, ErrorQueue};
use crate::interface::ErrorHandler;
use crate::registers::StatusRegisters;
use crate::response::Characters;
use crate::SCPI_STD_VERSION;

verus! {

/// What `SYSTem:ERRor:NEXT?` answers for the error at the front of the
/// queue: its number and its message, or `0` and an empty message where the
/// queue is empty.
pub open spec fn next_error_spec(errors: Seq<Error>) -> (int, Seq<char>) {
    if errors.len() > 0 {
        (errors.first().code(), errors.first().message_text())
    } else {
        (0, Seq::empty())
    }
}

/// Takes the error at the front of the queue, for `SYSTem:ERRor:NEXT?`.
pub fn next_error<Q: ErrorQueue>(queue: &mut Q) -> (r: (i16, &'static str))
    ensures
        (r.0 as int, r.1@) == next_error_spec(old(queue).errors()),
        final(queue).capacity() == old(queue).capacity(),
        final(queue).errors() == if old(queue).errors().len() > 0 {
            old(queue).errors().drop_first()
        } else {
            old(queue).errors()
        },
{
    match queue.pop_error() {
        Some(error) => (error.number(), error.message()),
        None => {
            proof {
                reveal_strlit("");
            }
            assert(""@ =~= Seq::<char>::empty());
            (0, "")
        },
    }
}

/// Error Commands
///
/// The [`ErrorCommands`] trait implements the standard SCPI commands used for
/// error management. The only requirement to implement this trait is to provide
/// an [`ErrorQueue`] via the [`ErrorCommands::error_queue()`] method.
///
/// # Implemented commands
///
/// * `SYSTem:ERRor:[NEXT]?`
/// * `SYSTem:ERRor:COUNt?`
///
/// An interface that is verified states which queue it holds, and its
/// `error_queue` is proved to hand out that queue. The body that the
/// specification function has here stands in for an interface that is not
/// verified, of which nothing is proved.
pub trait ErrorCommands {
    type Queue: ErrorQueue;

    /// The error queue of the interface.
    open spec fn queue(&self) -> Self::Queue {
        arbitrary()
    }

    /// The error queue of the interface, to read and to change.
    fn error_queue(&mut self) -> (r: &mut Self::Queue)
        ensures
            *r == old(self).queue(),
            final(self).queue() == *final(r),
    ;

    /// `SYSTem:ERRor:COUNt?`: the number of errors in the queue.
    fn system_error_count(&mut self) -> (r: Result<usize, Error>)
        ensures
            r == Ok::<usize, Error>(old(self).queue().errors().len() as usize),
            final(self).queue() == old(self).queue(),
    {
        Ok(self.error_queue().error_count())
    }

    /// `SYSTem:ERRor:[NEXT]?`: takes the oldest error out of the queue, and
    /// gives its number and its message, or `0` and no message where the
    /// queue is empty.
    fn system_error_next(&mut self) -> (r: Result<(i16, &'static str), Error>)
        ensures
            r is Ok,
            ({
                let (number, message) = r->Ok_0;
                (number as int, message@) == next_error_spec(old(self).queue().errors())
            }),
            final(self).queue().capacity() == old(self).queue().capacity(),
            final(self).queue().errors() == if old(self).queue().errors().len() > 0 {
                old(self).queue().errors().drop_first()
            } else {
                old(self).queue().errors()
            },
    {
        Ok(next_error(self.error_queue()))
    }
}

impl<I: ErrorCommands> ErrorHandler for I {
    /// Adds the error to the error queue.
    fn handle_error(&mut self, error: Error)
        ensures
            final(self).queue().capacity() == old(self).queue().capacity(),
            final(self).queue().errors() == pushed(
                old(self).queue().errors(),
                old(self).queue().capacity(),
                error,
            ),
    {
        self.error_queue().push_error(error);
    }
}

/// Standard Commands
///
/// # Implemented commands
///
/// * `SYSTem:VERSion?`
pub trait StandardCommands {
    /// `SYSTem:VERSion?`: the version of the standard.
    fn system_version(&mut self) -> (r: Result<Characters<'static>, Error>)
        ensures
            r == Ok::<Characters<'static>, Error>(Characters(SCPI_STD_VERSION)),
    {
        Ok(Characters(SCPI_STD_VERSION))
    }
}

/// Status Commands
///
/// # Implemented commands
/// * `*ESR?`
/// * `*ESE?`
/// * `*ESE`
/// * `*CLS`
/// * `*STB`
/// * `*SRE`
/// * `*SRE?`
/// * `*OPC?`
/// * `*OPC`
pub trait StatusCommands: ErrorCommands {
    /// The status registers of the interface.
    open spec fn registers(&self) -> StatusRegisters {
        arbitrary()
    }

    /// The status registers of the interface, to read and to change. The
    /// error queue stays as it is.
    fn status_registers(&mut self) -> (r: &mut StatusRegisters)
        ensures
            *r == old(self).registers(),
            final(self).registers() == *final(r),
            final(self).queue() == old(self).queue(),
    ;

    /// *OPC?
    ///
    /// Sets the operation complete bit, and tells that it is set.
    fn operation_complete(&mut self) -> (r: Result<bool, Error>)
        ensures
            r == Ok::<bool, Error>(true),
            final(self).registers().event_status@ == old(self).registers().event_status@ | 0x01,
            final(self).registers().event_status_enable == old(
                self,
            ).registers().event_status_enable,
            final(self).registers().status_byte_enable == old(self).registers().status_byte_enable,
            final(self).queue() == old(self).queue(),
    {
        Ok(self.status_registers().operation_complete())
    }

    /// *OPC
    ///
    /// Sets the operation complete bit.
    fn set_operation_complete(&mut self) -> (r: Result<(), Error>)
        ensures
            r is Ok,
            final(self).registers().event_status@ == old(self).registers().event_status@ | 0x01,
            final(self).registers().event_status_enable == old(
                self,
            ).registers().event_status_enable,
            final(self).registers().status_byte_enable == old(self).registers().status_byte_enable,
            final(self).queue() == old(self).queue(),
    {
        self.status_registers().set_operation_complete();
        Ok(())
    }

    /// *CLS
    ///
    /// Clears the event status register and the error queue.
    fn clear_event_status(&mut self) -> (r: Result<(), Error>)
        ensures
            r is Ok,
            final(self).queue().errors().len() == 0,
            final(self).queue().capacity() == old(self).queue().capacity(),
            final(self).registers().event_status@ == 0,
    {
        self.error_queue().clear();
        self.status_registers().clear_event_status();
        Ok(())
    }

    /// *ESE?
    ///
    /// Returns the event status enable register.
    fn event_status_enable(&mut self) -> (r: Result<u8, Error>)
        ensures
            r == Ok::<u8, Error>(old(self).registers().event_status_enable@),
            final(self).registers() == old(self).registers(),
            final(self).queue() == old(self).queue(),
    {
        Ok(self.status_registers().event_status_enable())
    }

    /// *ESE <value>
    ///
    /// Sets the event status enable register.
    fn set_event_status_enable(&mut self, value: u8) -> (r: Result<(), Error>)
        ensures
            r is Ok,
            final(self).registers().event_status_enable@ == value,
            final(self).registers().event_status == old(self).registers().event_status,
            final(self).registers().status_byte_enable == old(self).registers().status_byte_enable,
            final(self).queue() == old(self).queue(),
    {
        self.status_registers().set_event_status_enable(value);
        Ok(())
    }

    /// *ESR?
    ///
    /// Returns the enabled bits of the event status register, and clears
    /// the register.
    fn event_status_register(&mut self) -> (r: Result<u8, Error>)
        ensures
            r == Ok::<u8, Error>(
                old(self).registers().event_status@ & old(self).registers().event_status_enable@,
            ),
            final(self).registers().event_status@ == 0,
            final(self).registers().event_status_enable == old(
                self,
            ).registers().event_status_enable,
            final(self).registers().status_byte_enable == old(self).registers().status_byte_enable,
            final(self).queue() == old(self).queue(),
    {
        Ok(self.status_registers().event_status_register())
    }

    /// *STB?
    ///
    /// Returns the status byte register: it tells whether the error queue
    /// holds errors, and whether an enabled event is set. The error queue
    /// stays as it is.
    fn status_byte(&mut self) -> (r: Result<u8, Error>)
        ensures
            r == Ok::<u8, Error>(
                final(self).registers().status_byte_spec(old(self).queue().errors().len()),
            ),
            final(self).queue() == old(self).queue(),
    {
        let count = self.error_queue().error_count();
        Ok(self.status_registers().status_byte(count))
    }

    /// *SRE?
    ///
    /// Returns the status enable register.
    fn status_byte_enable(&mut self) -> (r: Result<u8, Error>)
        ensures
            r == Ok::<u8, Error>(old(self).registers().status_byte_enable@),
            final(self).registers() == old(self).registers(),
            final(self).queue() == old(self).queue(),
    {
        Ok(self.status_registers().status_byte_enable())
    }

    /// *SRE <value>
    ///
    /// Sets the status enable register.
    fn set_status_byte_enable(&mut self, value: u8) -> (r: Result<(), Error>)
        ensures
            r is Ok,
            final(self).registers().status_byte_enable@ == value,
            final(self).registers().event_status == old(self).registers().event_status,
            final(self).registers().event_status_enable == old(
                self,
            ).registers().event_status_enable,
            final(self).queue() == old(self).queue(),
    {
        self.status_registers().set_status_byte_enable(value);
        Ok(())
    }
}

} // verus!
