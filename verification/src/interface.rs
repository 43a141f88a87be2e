//! The interpreter: reads message units from the input, one after the other,
//! runs the command of each, and goes on behind a unit that failed.

use vstd::prelude::*;
use crate::error::Error;
use crate::parser::{
    lemma_resync_bounds, lemma_unit_ends, parse, parse_spec, reported, resync_spec, resynchronize,
    CallSpec, CommandCall, ParseError,
};
use crate::response::{appended, Write};
use crate::tree::{CommandId, NodeId, Tree};
use crate::value::Value;

verus! {

/// Receives the errors of the message units that failed.
pub trait ErrorHandler {
    fn handle_error(&mut self, error: Error);
}

/// What became of one message unit.
pub enum Outcome<'a> {
    /// The unit held nothing.
    Nothing,
    /// The unit holds a call, which is to be executed.
    Call(CommandCall<'a>),
    /// The unit is wrong, which is to be reported.
    Failed(Error),
}

/// What the interpreter does next with its input.
pub enum Step<'a> {
    /// The input is used up.
    Done,
    /// The input ends within a message unit. All of it waits for more.
    Wait,
    /// One message unit was read. The interpreter goes on with `rest`,
    /// and looks up the next header from `header`.
    Next { outcome: Outcome<'a>, rest: &'a [u8], header: NodeId },
}

/// The model of an [`Outcome`].
pub enum OutcomeSpec {
    Nothing,
    Call(CallSpec),
    Failed(Error),
}

/// The model of a [`Step`]: `used` is the number of bytes of the unit.
pub enum StepSpec {
    Done,
    Wait,
    Next { outcome: OutcomeSpec, used: int, header: NodeId },
}

impl<'a> View for Outcome<'a> {
    type V = OutcomeSpec;

    open spec fn view(&self) -> OutcomeSpec {
        match self {
            Outcome::Nothing => OutcomeSpec::Nothing,
            Outcome::Call(call) => OutcomeSpec::Call(call@),
            Outcome::Failed(error) => OutcomeSpec::Failed(*error),
        }
    }
}

/// What the interpreter does next with the input `s`, when it looks up
/// headers from `header`.
///
/// A unit that is incomplete makes it wait. A unit that is wrong is
/// reported and skipped up to the next semicolon or newline. After a
/// newline headers are looked up from the root again; after a semicolon
/// they are looked up from the node that the call before named as header,
/// if it named one.
pub open spec fn step_spec(tree: Tree, header: NodeId, s: Seq<u8>) -> StepSpec {
    if s.len() == 0 {
        StepSpec::Done
    } else {
        match parse_spec(tree, header, s) {
            Err(ParseError::Incomplete) => StepSpec::Wait,
            Err(e) => {
                let (used, line) = resync_spec(s);
                StepSpec::Next {
                    outcome: OutcomeSpec::Failed(reported(e)),
                    used,
                    header: if line {
                        0
                    } else {
                        header
                    },
                }
            },
            Ok((used, None)) => StepSpec::Next {
                outcome: OutcomeSpec::Nothing,
                used,
                header: if s[used - 1] == 0x0a {
                    0
                } else {
                    header
                },
            },
            Ok((used, Some(call))) => StepSpec::Next {
                outcome: OutcomeSpec::Call(call),
                used,
                header: if call.terminated {
                    0
                } else {
                    match call.header {
                        Some(h) => h,
                        None => header,
                    }
                },
            },
        }
    }
}

/// A step that reads a unit uses at least one byte of the input, and no
/// more than the input holds.
pub proof fn lemma_step_advances(tree: Tree, header: NodeId, s: Seq<u8>)
    requires
        step_spec(tree, header, s) is Next,
    ensures
        1 <= step_spec(tree, header, s)->used <= s.len(),
{
    match parse_spec(tree, header, s) {
        Ok(_) => {
            lemma_unit_ends(tree, header, s);
        },
        Err(_) => {
            lemma_resync_bounds(s);
        },
    }
}

/// The number of bytes that the interpreter uses of the input `s`: all
/// units up to the first that is incomplete.
pub open spec fn consumed_spec(tree: Tree, header: NodeId, s: Seq<u8>) -> int
    decreases s.len(),
{
    match step_spec(tree, header, s) {
        StepSpec::Next { used, header: next, .. } => if 0 < used <= s.len() {
            used + consumed_spec(tree, next, s.skip(used))
        } else {
            0
        },
        _ => 0,
    }
}

/// The node from which the interpreter looks up headers after the
/// input `s`.
pub open spec fn header_spec(tree: Tree, header: NodeId, s: Seq<u8>) -> NodeId
    decreases s.len(),
{
    match step_spec(tree, header, s) {
        StepSpec::Next { used, header: next, .. } => if 0 < used <= s.len() {
            header_spec(tree, next, s.skip(used))
        } else {
            header
        },
        _ => header,
    }
}

/// The outcomes of the units that the interpreter reads from the input
/// `s`, in their order.
pub open spec fn outcomes_spec(tree: Tree, header: NodeId, s: Seq<u8>) -> Seq<OutcomeSpec>
    decreases s.len(),
{
    match step_spec(tree, header, s) {
        StepSpec::Next { outcome, used, header: next } => if 0 < used <= s.len() {
            seq![outcome] + outcomes_spec(tree, next, s.skip(used))
        } else {
            Seq::empty()
        },
        _ => Seq::empty(),
    }
}

/// No handler runs for the input `s`: every unit of it holds nothing, fails,
/// or holds a call that is refused before its handler runs.
pub open spec fn quiet_spec(tree: Tree, header: NodeId, s: Seq<u8>) -> bool
    decreases s.len(),
{
    match step_spec(tree, header, s) {
        StepSpec::Next { outcome, used, header: next } => if 0 < used <= s.len() {
            &&& match outcome {
                OutcomeSpec::Call(call) => refusal(tree, call) is Some,
                _ => true,
            }
            &&& quiet_spec(tree, next, s.skip(used))
        } else {
            true
        },
        _ => true,
    }
}

/// The interpreter uses no more than the input holds.
pub proof fn lemma_consumed_bounds(tree: Tree, header: NodeId, s: Seq<u8>)
    ensures
        0 <= consumed_spec(tree, header, s) <= s.len(),
    decreases s.len(),
{
    match step_spec(tree, header, s) {
        StepSpec::Next { used, header: next, .. } => {
            if 0 < used <= s.len() {
                lemma_consumed_bounds(tree, next, s.skip(used));
            }
        },
        _ => {},
    }
}

/// Reads the next message unit, and decides what follows from it.
pub fn next_step<'a>(tree: &Tree, header: NodeId, input: &'a [u8]) -> (r: Step<'a>)
    ensures
        match r {
            Step::Done => step_spec(*tree, header, input@) is Done,
            Step::Wait => step_spec(*tree, header, input@) is Wait,
            Step::Next { outcome, rest, header: next } => match step_spec(*tree, header, input@) {
                StepSpec::Next { outcome: expected, used, header: h } => {
                    &&& outcome@ == expected
                    &&& 1 <= used <= input@.len()
                    &&& rest@ == input@.skip(used)
                    &&& next == h
                },
                _ => false,
            },
        },
{
    if input.len() == 0 {
        return Step::Done;
    }
    proof {
        if parse_spec(*tree, header, input@) is Ok {
            lemma_unit_ends(*tree, header, input@);
        }
        lemma_resync_bounds(input@);
    }
    match parse(tree, header, input) {
        Ok((rest, Some(call))) => {
            let next = if call.terminated {
                tree.root()
            } else {
                match call.header {
                    Some(h) => h,
                    None => header,
                }
            };
            Step::Next { outcome: Outcome::Call(call), rest, header: next }
        },
        Ok((rest, None)) => {
            let used = input.len() - rest.len();
            let next = if input[used - 1] == 0x0a {
                tree.root()
            } else {
                header
            };
            Step::Next { outcome: Outcome::Nothing, rest, header: next }
        },
        Err(ParseError::Incomplete) => Step::Wait,
        Err(error) => {
            // Continue with the rest of the input after a command terminator.
            let (rest, line) = resynchronize(input);
            let next = if line {
                tree.root()
            } else {
                header
            };
            Step::Next { outcome: Outcome::Failed(error.into_error()), rest, header: next }
        },
    }
}

/// The bytes end with a newline.
pub open spec fn ends_with_newline(written: Seq<u8>) -> bool {
    written.len() > 0 && written.last() == 0x0a
}

/// The sink holds what it held.
pub open spec fn same_sink<W: Write>(before: &W, after: &W) -> bool {
    after.written() == before.written() && after.limit() == before.limit()
}

/// What is returned for a command once its handler has returned: the error
/// of the handler or, behind the answer of a query, the newline that ends
/// the response.
pub fn conclude<W: Write>(result: Result<(), Error>, query: bool, response: &mut W) -> (r: Result<
    (),
    Error,
>)
    ensures
        match result {
            Err(e) => r == Err::<(), Error>(e) && same_sink(old(response), final(response)),
            Ok(_) => if query {
                &&& appended(
                    old(response).written(),
                    old(response).limit(),
                    final(response).written(),
                    final(response).limit(),
                    seq![0x0au8],
                    r,
                )
                &&& r is Ok ==> ends_with_newline(final(response).written())
            } else {
                r is Ok && same_sink(old(response), final(response))
            },
        },
{
    match result {
        Err(e) => Err(e),
        Ok(_) => {
            if query {
                assert(crate::response::char_byte('\n') == 0x0au8);
                response.write_char('\n')
            } else {
                Ok(())
            }
        },
    }
}

/// What stands in the way of a call before its handler runs: the node may
/// have no handler for a command or for a query, and the call may not have
/// as many arguments as the handler takes.
pub open spec fn refusal(tree: Tree, call: CallSpec) -> Option<Error> {
    match tree.handler(call.node, call.query) {
        None => Some(Error::UndefinedHeader),
        Some(_) => match tree.arity(call.node, call.query) {
            Some(arity) => if call.args.len() != arity {
                Some(Error::UnexpectedNumberOfParameters)
            } else {
                None
            },
            None => None,
        },
    }
}

/// Looks up the handler of a call, and checks the number of its arguments.
pub fn check_call(tree: &Tree, call: &CommandCall<'_>) -> (r: Result<CommandId, Error>)
    ensures
        match r {
            Ok(id) => refusal(*tree, call@) is None && tree.handler(call.node, call.query) == Some(
                id,
            ),
            Err(e) => refusal(*tree, call@) == Some(e),
        },
{
    match tree.handler_of(call.node, call.query) {
        None => Err(Error::UndefinedHeader),
        Some(id) => {
            match tree.arity_of(call.node, call.query) {
                Some(arity) => {
                    if call.arguments().len() != arity {
                        return Err(Error::UnexpectedNumberOfParameters);
                    }
                },
                None => {},
            }
            Ok(id)
        },
    }
}

/// A set of commands with their handlers.
pub trait Interface: ErrorHandler + Sized {
    /// Executes the command with the specified command id and the supplied
    /// arguments, and writes its answer to `response`.
    fn execute_command<W: Write>(
        &mut self,
        command_id: CommandId,
        args: &[Value<'_>],
        response: &mut W,
    ) -> Result<(), Error>;

    /// Executes a call: runs the handler that the tree holds for it, and
    /// ends the answer of a query with a newline.
    ///
    /// Where the node has no handler of the kind that is called, the
    /// result is `UndefinedHeader`. Where the call does not have as many
    /// arguments as the handler takes, it is
    /// `UnexpectedNumberOfParameters`. In both cases no handler runs and
    /// nothing is written. A query that succeeds leaves a newline at the end
    /// of what is written.
    fn execute<W: Write>(&mut self, tree: &Tree, call: &CommandCall<'_>, response: &mut W) -> (r:
        Result<(), Error>)
        ensures
            match refusal(*tree, call@) {
                Some(e) => r == Err::<(), Error>(e) && same_sink(old(response), final(response)),
                None => r is Ok && call.query ==> ends_with_newline(final(response).written()),
            },
    {
        match check_call(tree, call) {
            Err(e) => Err(e),
            Ok(command) => {
                let result = self.execute_command(command, call.arguments(), response);
                conclude(result, call.query, response)
            },
        }
    }

    /// Parses and executes the commands in the input buffer, looking up
    /// the first header from `header`.
    ///
    /// Returns what is left of the input, and the node from which the
    /// next header is to be looked up.
    fn run_from<'a, W: Write>(
        &mut self,
        tree: &Tree,
        header: NodeId,
        input: &'a [u8],
        response: &mut W,
    ) -> (r: (&'a [u8], NodeId))
        ensures
            0 <= consumed_spec(*tree, header, input@) <= input@.len(),
            r.0@ == input@.skip(consumed_spec(*tree, header, input@)),
            r.1 == header_spec(*tree, header, input@),
            quiet_spec(*tree, header, input@) ==> same_sink(old(response), final(response)),
            outcomes_spec(*tree, header, input@).len() == 0 ==> *final(self) == *old(self),
    {
        let mut rest = input;
        let mut from = header;
        let ghost written = response.written();
        let ghost limit = response.limit();
        assert(input@.skip(0) =~= input@);
        loop
            invariant
                rest@.len() <= input@.len(),
                quiet_spec(*tree, header, input@) ==> response.written() == written
                    && response.limit() == limit && quiet_spec(*tree, from, rest@),
                rest@.len() == input@.len() ==> *self == *old(self),
                rest@ == input@.skip(input@.len() - rest@.len()),
                consumed_spec(*tree, header, input@) == input@.len() - rest@.len() + consumed_spec(
                    *tree,
                    from,
                    rest@,
                ),
                header_spec(*tree, header, input@) == header_spec(*tree, from, rest@),
            ensures
                rest@.len() <= input@.len(),
                rest@ == input@.skip(input@.len() - rest@.len()),
                consumed_spec(*tree, header, input@) == input@.len() - rest@.len(),
                header_spec(*tree, header, input@) == from,
                quiet_spec(*tree, header, input@) ==> response.written() == written
                    && response.limit() == limit,
                rest@.len() == input@.len() ==> *self == *old(self),
            decreases rest@.len(),
        {
            let ghost done = input@.len() - rest@.len();
            match next_step(tree, from, rest) {
                Step::Done => {
                    break ;
                },
                Step::Wait => {
                    break ;
                },
                Step::Next { outcome, rest: after, header: next } => {
                    let ghost used = step_spec(*tree, from, rest@)->used;
                    assert(after@ =~= input@.skip(done + used)) by {
                        assert(input@.skip(done).skip(used) =~= input@.skip(done + used));
                    }
                    match outcome {
                        Outcome::Nothing => {},
                        Outcome::Call(call) => {
                            match self.execute(tree, &call, response) {
                                Ok(_) => {},
                                Err(error) => {
                                    self.handle_error(error);
                                },
                            }
                        },
                        Outcome::Failed(error) => {
                            self.handle_error(error);
                        },
                    }
                    rest = after;
                    from = next;
                },
            }
        }
        (rest, from)
    }

    /// Parses and executes the commands in the input buffer.
    ///
    /// The result is written to the response buffer. Any remaining input that
    /// was not parsed is returned: it is the start of a message unit that is
    /// not complete yet. A unit that fails is passed to the error handler,
    /// and the units behind it are executed all the same.
    fn run<'a, W: Write>(&mut self, tree: &Tree, input: &'a [u8], response: &mut W) -> (r: &'a [u8])
        ensures
            0 <= consumed_spec(*tree, 0, input@) <= input@.len(),
            r@ == input@.skip(consumed_spec(*tree, 0, input@)),
            quiet_spec(*tree, 0, input@) ==> same_sink(old(response), final(response)),
            outcomes_spec(*tree, 0, input@).len() == 0 ==> *final(self) == *old(self),
    {
        let (rest, _) = self.run_from(tree, tree.root(), input, response);
        rest
    }
}

} // verus!
