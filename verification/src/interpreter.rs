//! An interface together with its command tree and with the header from
//! which the next call is looked up.

use vstd::prelude::*;
use crate::error::Error;
use crate::interface::{
    consumed_spec, ends_with_newline, header_spec, outcomes_spec, quiet_spec, refusal, same_sink,
    Interface,
};
use crate::parser::CommandCall;
use crate::response::Write;
use crate::tree::{NodeId, Tree};

verus! {

/// Drives an interface: reads message units, runs their commands, and
/// remembers between two pieces of input from where the next header is to
/// be looked up.
pub struct Interpreter<I: Interface> {
    /// The handlers of the commands.
    pub interface: I,
    tree: Tree,
    current_node: NodeId,
}

impl<I: Interface> Interpreter<I> {
    /// The command tree.
    pub closed spec fn tree(&self) -> Tree {
        self.tree
    }

    /// The handlers of the commands.
    pub closed spec fn handlers(&self) -> I {
        self.interface
    }

    /// The node from which the next header is looked up.
    pub closed spec fn header(&self) -> NodeId {
        self.current_node
    }

    /// An interpreter that looks up the first header from the root.
    pub fn new(interface: I, tree: Tree) -> (r: Interpreter<I>)
        ensures
            r.tree() == tree,
            r.header() == 0,
            r.handlers() == interface,
    {
        Interpreter { interface, tree, current_node: 0 }
    }

    /// Makes the interpreter look up the next header from the root.
    pub fn reset(&mut self)
        ensures
            final(self).header() == 0,
            final(self).tree() == old(self).tree(),
            final(self).handlers() == old(self).handlers(),
    {
        self.current_node = self.tree.root();
    }

    /// Executes a call with the handlers of the interface.
    pub fn execute<W: Write>(&mut self, call: &CommandCall<'_>, response: &mut W) -> (r: Result<
        (),
        Error,
    >)
        ensures
            final(self).tree() == old(self).tree(),
            final(self).header() == old(self).header(),
            match refusal(old(self).tree(), call@) {
                Some(e) => r == Err::<(), Error>(e) && same_sink(old(response), final(response)),
                None => r is Ok && call.query ==> ends_with_newline(final(response).written()),
            },
    {
        self.interface.execute(&self.tree, call, response)
    }

    /// Parses and executes the commands in the input, and returns what is
    /// left of it: the start of a message unit that is not complete.
    pub fn parse_and_execute<'a, W: Write>(&mut self, input: &'a [u8], response: &mut W) -> (r:
        &'a [u8])
        ensures
            final(self).tree() == old(self).tree(),
            0 <= consumed_spec(old(self).tree(), old(self).header(), input@) <= input@.len(),
            r@ == input@.skip(consumed_spec(old(self).tree(), old(self).header(), input@)),
            final(self).header() == header_spec(old(self).tree(), old(self).header(), input@),
            quiet_spec(old(self).tree(), old(self).header(), input@) ==> same_sink(
                old(response),
                final(response),
            ),
            outcomes_spec(old(self).tree(), old(self).header(), input@).len() == 0
                ==> final(self).handlers() == old(self).handlers(),
    {
        let (rest, header) = self.interface.run_from(
            &self.tree,
            self.current_node,
            input,
            response,
        );
        self.current_node = header;
        rest
    }
}

} // verus!
