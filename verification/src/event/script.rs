//! The script: the arena that owns every block.

use crate::event::block::{Block, BlockId, BlockView, CodeBlock};
use crate::event::command::{spec_command_refs, spec_successors, Command, Terminator};
use vstd::prelude::*;

verus! {

/// All blocks of one file. Blocks are added and never removed, so an
/// identifier stays valid for as long as the script lives. Any number of
/// events may share blocks.
#[derive(Debug, Clone, PartialEq, Eq)]
pub struct Script {
    /// The blocks, each at the index that its identifier holds.
    pub blocks: Vec<Block>,
}

impl View for Script {
    type V = Seq<BlockView>;

    open spec fn view(&self) -> Seq<BlockView> {
        Seq::new(self.blocks@.len(), |i: int| self.blocks@[i]@)
    }
}

/// Whether `id` names a code block of `s`.
pub open spec fn spec_is_code(s: Seq<BlockView>, id: BlockId) -> bool {
    id.index < s.len() && s[id.index as int] is Code
}

/// Whether `id` names a data block of `s`.
pub open spec fn spec_is_data(s: Seq<BlockView>, id: BlockId) -> bool {
    id.index < s.len() && s[id.index as int] is Data
}

/// Whether what a command refers to exists in `s` and is of the right kind.
pub open spec fn spec_command_consistent(s: Seq<BlockView>, c: Command<BlockId>) -> bool {
    match c {
        Command::Call(id) => spec_is_code(s, id),
        Command::Msg(id) => spec_is_data(s, id),
        _ => true,
    }
}

/// Whether every block that a terminator names is a code block of `s`.
pub open spec fn spec_terminator_consistent(s: Seq<BlockView>, t: Terminator<BlockId>) -> bool {
    match t {
        Terminator::Fallthrough(id) => spec_is_code(s, id),
        Terminator::Jump(id) => spec_is_code(s, id),
        Terminator::Branch { condition, if_true, if_false } => spec_is_code(s, if_true)
            && spec_is_code(s, if_false),
        Terminator::Return => true,
        Terminator::End => true,
    }
}

/// Whether every reference of one block leads to a block of `s` of the
/// right kind.
pub open spec fn spec_block_consistent(s: Seq<BlockView>, block: BlockView) -> bool {
    match block {
        BlockView::Code { commands, terminator } => {
            &&& forall|k: int|
                0 <= k < commands.len() ==> spec_command_consistent(s, #[trigger] commands[k])
            &&& spec_terminator_consistent(s, terminator)
        },
        BlockView::Data { bytes } => true,
    }
}

/// Whether every reference in `s` leads to a block of `s` of the right
/// kind: jumps and calls to code, messages to data.
pub open spec fn spec_consistent(s: Seq<BlockView>) -> bool {
    forall|i: int| 0 <= i < s.len() ==> spec_block_consistent(s, #[trigger] s[i])
}

impl Script {
    /// A script without blocks.
    pub fn new() -> (script: Script)
        ensures
            script@ == Seq::<BlockView>::empty(),
    {
        let script = Script { blocks: Vec::new() };
        assert(script@ =~= Seq::<BlockView>::empty());
        script
    }

    /// How many blocks the script holds.
    pub fn len(&self) -> (n: usize)
        ensures
            n == self@.len(),
    {
        self.blocks.len()
    }

    /// Whether `id` names a block of this script.
    pub fn contains(&self, id: BlockId) -> (r: bool)
        ensures
            r == (id.index < self@.len()),
    {
        id.index < self.blocks.len()
    }

    /// Adds an empty code block that ends the event, and returns its
    /// identifier. The blocks that were there keep theirs.
    pub fn allocate(&mut self) -> (id: BlockId)
        ensures
            id.index == old(self)@.len(),
            final(self)@ == old(self)@.push(
                BlockView::Code { commands: Seq::empty(), terminator: Terminator::End },
            ),
    {
        let id = BlockId { index: self.blocks.len() };
        self.blocks.push(Block::Code(CodeBlock::new()));
        assert(self@ =~= old(self)@.push(
            BlockView::Code { commands: Seq::empty(), terminator: Terminator::End },
        ));
        id
    }

    /// Adds `block` and returns its identifier. The blocks that were there
    /// keep theirs.
    pub fn insert(&mut self, block: Block) -> (id: BlockId)
        ensures
            id.index == old(self)@.len(),
            final(self)@ == old(self)@.push(block@),
    {
        let id = BlockId { index: self.blocks.len() };
        self.blocks.push(block);
        assert(self@ =~= old(self)@.push(block@));
        id
    }

    /// The block that `id` names. The identifier must come from this script.
    pub fn get(&self, id: BlockId) -> (block: &Block)
        requires
            id.index < self@.len(),
        ensures
            block@ == self@[id.index as int],
    {
        &self.blocks[id.index]
    }

    /// The block that `id` names, for changing it in place. The identifier
    /// must come from this script. All other blocks stay as they are.
    pub fn get_mut(&mut self, id: BlockId) -> (block: &mut Block)
        requires
            id.index < old(self)@.len(),
        ensures
            block@ == old(self)@[id.index as int],
            final(self)@ == old(self)@.update(id.index as int, final(block)@),
    {
        &mut self.blocks[id.index]
    }

    /// Puts `block` in the place of the block that `id` names. The
    /// identifier must come from this script.
    pub fn replace(&mut self, id: BlockId, block: Block)
        requires
            id.index < old(self)@.len(),
        ensures
            final(self)@ == old(self)@.update(id.index as int, block@),
    {
        self.blocks[id.index] = block;
        assert(self@ =~= old(self)@.update(id.index as int, block@));
    }

    /// The identifiers of all blocks, in the order in which they were added.
    pub fn ids(&self) -> (ids: Vec<BlockId>)
        ensures
            ids@.len() == self@.len(),
            forall|i: int| 0 <= i < ids@.len() ==> (#[trigger] ids@[i]).index == i,
    {
        let mut ids: Vec<BlockId> = Vec::new();
        let mut i: usize = 0;
        while i < self.blocks.len()
            invariant
                i <= self.blocks@.len(),
                ids@.len() == i,
                forall|k: int| 0 <= k < ids@.len() ==> (#[trigger] ids@[k]).index == k,
            decreases self.blocks@.len() - i,
        {
            ids.push(BlockId { index: i });
            i += 1;
        }
        ids
    }
}

} // verus!
