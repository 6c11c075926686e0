//! Stage files and their event scripts.
//!
//! A stage file holds fixed-size record tables and a bytecode stream of event
//! scripts. This crate parses and serializes both on in-memory byte buffers:
//! the tables as plain records, the bytecode as a graph of basic blocks that
//! can be edited and written back.
//!
//! - [`wire`]: fixed-width integers in big-endian and little-endian order.
//! - [`common`]: fixed-size records and sentinel-terminated lists of them.
//! - [`event`]: the script engine. Expressions, commands and the opcode
//!   table; the arena of blocks; the reader, which recovers the block graph
//!   from a stream; the writer, which lays a graph out as a stream; and
//!   questions about the graph.
//! - [`stage`]: the stage file as a whole.
//! - [`error`]: the error kinds.
//!
//! Every function states what it computes over plain mathematical values:
//! byte sequences, sequences of blocks, sets of offsets. The laws that tie
//! reading and writing together are proof functions next to the code.

pub mod common;
pub mod error;
pub mod event;
pub mod stage;
pub mod wire;
