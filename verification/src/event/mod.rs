//! Event scripts: the bytecode, its blocks and the graph they form.

pub mod analysis;
pub mod block;
pub mod command;
pub mod expr;
pub mod laws;
pub mod opcodes;
pub mod reader;
pub mod script;
pub mod writer;

pub use block::{Block, BlockId, CodeBlock, DataBlock, Ip};
pub use command::{Command, Op, Terminator};
pub use expr::{Expr, SetExpr};
pub use script::Script;
