//! Blocks and the identifiers that refer to them.

use crate::event::command::{Command, Terminator};
use vstd::prelude::*;

verus! {

/// An absolute byte offset into a bytecode stream. Offsets address blocks
/// only while a stream is decoded or encoded; the blocks of a finished
/// script refer to each other by [`BlockId`].
pub type Ip = u32;

/// Identifies a block within the script that allocated it. Two identifiers
/// of one script are equal exactly when they name the same block.
#[derive(Debug, Clone, Copy, PartialEq, Eq, Hash, Structural)]
pub struct BlockId {
    /// The position of the block in its script's arena.
    pub index: usize,
}

/// A run of commands that is entered at its first command only and left
/// through its terminator only.
#[derive(Debug, Clone, PartialEq, Eq)]
pub struct CodeBlock {
    /// The commands, in the order in which they run.
    pub commands: Vec<Command<BlockId>>,
    /// Where control goes behind the last command.
    pub terminator: Terminator<BlockId>,
}

/// Bytes that commands refer to, such as the text of a message. They are
/// kept as they are and never looked into.
#[derive(Debug, Clone, PartialEq, Eq)]
pub struct DataBlock {
    pub bytes: Vec<u8>,
}

/// What a script's arena holds under one identifier.
#[derive(Debug, Clone, PartialEq, Eq)]
pub enum Block {
    Code(CodeBlock),
    Data(DataBlock),
}

/// What a block holds, as plain mathematical values.
pub ghost enum BlockView {
    Code { commands: Seq<Command<BlockId>>, terminator: Terminator<BlockId> },
    Data { bytes: Seq<u8> },
}

impl View for CodeBlock {
    type V = BlockView;

    open spec fn view(&self) -> BlockView {
        BlockView::Code { commands: self.commands@, terminator: self.terminator }
    }
}

impl View for DataBlock {
    type V = BlockView;

    open spec fn view(&self) -> BlockView {
        BlockView::Data { bytes: self.bytes@ }
    }
}

impl View for Block {
    type V = BlockView;

    open spec fn view(&self) -> BlockView {
        match self {
            Block::Code(code) => code@,
            Block::Data(data) => data@,
        }
    }
}

impl CodeBlock {
    /// A block without commands that ends the event.
    pub fn new() -> (block: CodeBlock)
        ensures
            block@ == (BlockView::Code { commands: Seq::empty(), terminator: Terminator::End }),
    {
        CodeBlock { commands: Vec::new(), terminator: Terminator::End }
    }
}

impl Block {
    /// Whether the block holds commands.
    pub fn is_code(&self) -> (r: bool)
        ensures
            r == (self@ is Code),
    {
        match self {
            Block::Code(_) => true,
            Block::Data(_) => false,
        }
    }
}

} // verus!
