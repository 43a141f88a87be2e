//! A command interpreter for SCPI, the line-based instrument control protocol.
//!
//! The interpreter consumes raw bytes, recognizes command headers and typed
//! arguments, resolves a header against a command tree, and encodes what a
//! handler returns. This crate holds the protocol engine; handlers and the
//! transport belong to its user.

use vstd::prelude::*;

pub mod ascii;
pub mod buffer;
pub mod command;
pub mod commands;
pub mod context;
pub mod error;
pub mod error_queue;
pub mod interface;
pub mod interpreter;
pub mod parser;
pub mod registers;
pub mod registration;
pub mod response;
pub mod tokens;
pub mod tree;
pub mod value;

pub use commands::{ErrorCommands, StandardCommands, StatusCommands};
pub use context::{Context, FixedErrorQueue, MAX_ERRORS};
pub use error::Error;
pub use error_queue::{ErrorQueue, StaticErrorQueue};
pub use interface::{ErrorHandler, Interface};
pub use interpreter::Interpreter;
pub use response::{Arbitrary, Buffer, Characters, NotFinite, Response, Write};
pub use tree::{CommandId, Node, NodeId, Tree};
pub use value::Value;

verus! {

/// The version of the SCPI standard this crate implements.
pub const SCPI_STD_VERSION: &'static str = "1999.0";

/// The maximum number of arguments that can be passed to a command.
pub const MAX_ARGS: usize = 10;

} // verus!
