//! Writing blocks back into a bytecode stream.
//!
//! A subroutine is written as the blocks that can be reached from its entry
//! and are not in the stream yet: first the code blocks in the order of
//! their discovery, then the data blocks. A block that falls through to the
//! block written right behind it, and is the only one to lead there, ends
//! without a jump; everywhere else a jump to the block's offset is written.

use crate::error::Error;
use crate::event::analysis::{
    incoming_counts, spec_clip, spec_discovery, spec_distinct_from, spec_edge, spec_incoming,
    spec_reachable, walk,
};
use crate::event::block::{Block, BlockId, BlockView, Ip};
use crate::event::command::{
    lemma_parse_op_advances, lemma_parse_written_command, lemma_parse_written_terminator,
    spec_command_bytes, spec_lower_command, spec_lower_commands, spec_lower_terminator,
    spec_offset_of, spec_parse_op, spec_run, spec_run_end, spec_terminator_bytes, write_command,
    write_terminator, Command, Op, Terminator,
};
use crate::event::reader::{spec_demanded, spec_fails_at, spec_leads, spec_trail};
use crate::event::script::{
    spec_block_consistent, spec_command_consistent, spec_consistent,
    spec_terminator_consistent, Script,
};
use crate::wire::{
    lemma_append_assoc, lemma_bytes_len, lemma_holds_appended, lemma_holds_behind_patch,
    lemma_holds_split, lemma_read_held_u32_le, put_bytes, put_u32_le, spec_bytes_u32_le,
    spec_holds_at, spec_patched,
};
use vstd::prelude::*;

verus! {

/// The bytes of a run of commands, one command after another, each block
/// they refer to written as its offset.
pub open spec fn spec_commands_bytes(commands: Seq<Command<BlockId>>, offsets: Seq<Ip>) -> Seq<u8>
    decreases commands.len(),
{
    if commands.len() == 0 {
        Seq::empty()
    } else {
        spec_commands_bytes(commands.drop_last(), offsets) + spec_command_bytes(
            spec_lower_command(commands.last(), offsets),
        )
    }
}

/// The bytes that end a code block. A block that falls through ends without
/// bytes where `inline` says that the next block follows it directly, and
/// with a jump to that block otherwise.
pub open spec fn spec_end_bytes(t: Terminator<BlockId>, offsets: Seq<Ip>, inline: bool) -> Seq<u8> {
    match t {
        Terminator::Fallthrough(id) => if inline {
            Seq::empty()
        } else {
            spec_terminator_bytes(Terminator::Jump(spec_offset_of(id, offsets)))
        },
        _ => spec_terminator_bytes(spec_lower_terminator(t, offsets)),
    }
}

/// The bytes that a block is stored as: a code block as its commands and
/// its end, a data block as its length in four little-endian bytes and its
/// payload.
pub open spec fn spec_block_bytes(block: BlockView, offsets: Seq<Ip>, inline: bool) -> Seq<u8> {
    match block {
        BlockView::Code { commands, terminator } => spec_commands_bytes(commands, offsets)
            + spec_end_bytes(terminator, offsets, inline),
        BlockView::Data { bytes } => spec_bytes_u32_le(bytes.len() as u32) + bytes,
    }
}

/// Whether two offset tables agree on every block that the command refers to.
pub open spec fn spec_command_agrees(c: Command<BlockId>, a: Seq<Ip>, b: Seq<Ip>) -> bool {
    match c {
        Command::Call(id) => spec_offset_of(id, a) == spec_offset_of(id, b),
        Command::Msg(id) => spec_offset_of(id, a) == spec_offset_of(id, b),
        _ => true,
    }
}

/// Whether two offset tables agree on every block that the terminator names.
pub open spec fn spec_terminator_agrees(t: Terminator<BlockId>, a: Seq<Ip>, b: Seq<Ip>) -> bool {
    match t {
        Terminator::Fallthrough(id) => spec_offset_of(id, a) == spec_offset_of(id, b),
        Terminator::Jump(id) => spec_offset_of(id, a) == spec_offset_of(id, b),
        Terminator::Branch { condition, if_true, if_false } => spec_offset_of(if_true, a)
            == spec_offset_of(if_true, b) && spec_offset_of(if_false, a) == spec_offset_of(
            if_false,
            b,
        ),
        _ => true,
    }
}

/// The bytes of a run of commands depend only on the offsets of the blocks
/// that the commands refer to, and their number on no offset at all.
pub proof fn lemma_commands_bytes_agree(commands: Seq<Command<BlockId>>, a: Seq<Ip>, b: Seq<Ip>)
    ensures
        spec_commands_bytes(commands, a).len() == spec_commands_bytes(commands, b).len(),
        (forall|k: int| 0 <= k < commands.len() ==> spec_command_agrees(#[trigger] commands[k], a, b))
            ==> spec_commands_bytes(commands, a) == spec_commands_bytes(commands, b),
    decreases commands.len(),
{
    if commands.len() > 0 {
        lemma_commands_bytes_agree(commands.drop_last(), a, b);
        let last = commands.last();
        lemma_bytes_len(0);
        match last {
            Command::Call(id) => {
                lemma_bytes_len(spec_offset_of(id, a) as int);
                lemma_bytes_len(spec_offset_of(id, b) as int);
            },
            Command::Msg(id) => {
                lemma_bytes_len(spec_offset_of(id, a) as int);
                lemma_bytes_len(spec_offset_of(id, b) as int);
            },
            _ => {},
        }
        if forall|k: int| 0 <= k < commands.len() ==> spec_command_agrees(#[trigger] commands[k], a, b) {
            assert(spec_command_agrees(commands[commands.len() - 1], a, b));
            assert forall|k: int| 0 <= k < commands.drop_last().len() implies spec_command_agrees(
                #[trigger] commands.drop_last()[k],
                a,
                b,
            ) by {
                assert(commands.drop_last()[k] == commands[k]);
            }
        }
    }
}

/// The bytes that end a block depend only on the offsets of the blocks that
/// the terminator names, and their number on no offset at all.
pub proof fn lemma_end_bytes_agree(t: Terminator<BlockId>, a: Seq<Ip>, b: Seq<Ip>, inline: bool)
    ensures
        spec_end_bytes(t, a, inline).len() == spec_end_bytes(t, b, inline).len(),
        spec_end_bytes(t, a, inline).len() <= spec_end_bytes(t, a, false).len(),
        spec_terminator_agrees(t, a, b) ==> spec_end_bytes(t, a, inline) == spec_end_bytes(
            t,
            b,
            inline,
        ),
{
    match t {
        Terminator::Fallthrough(id) => {
            lemma_bytes_len(spec_offset_of(id, a) as int);
            lemma_bytes_len(spec_offset_of(id, b) as int);
        },
        Terminator::Jump(id) => {
            lemma_bytes_len(spec_offset_of(id, a) as int);
            lemma_bytes_len(spec_offset_of(id, b) as int);
        },
        Terminator::Branch { condition, if_true, if_false } => {
            lemma_bytes_len(spec_offset_of(if_true, a) as int);
            lemma_bytes_len(spec_offset_of(if_true, b) as int);
            lemma_bytes_len(spec_offset_of(if_false, a) as int);
            lemma_bytes_len(spec_offset_of(if_false, b) as int);
        },
        _ => {},
    }
}

/// How many bytes a block takes at most: as many as it takes where it ends
/// with a jump of its own.
pub open spec fn spec_block_size(block: BlockView) -> nat {
    spec_block_bytes(block, Seq::empty(), false).len()
}

/// How many bytes the first `upto` blocks of a script take at most.
pub open spec fn spec_size_upto(s: Seq<BlockView>, upto: int) -> nat
    decreases upto,
{
    if upto <= 0 {
        0
    } else {
        spec_size_upto(s, upto - 1) + spec_block_size(s[upto - 1])
    }
}

/// How many bytes all blocks of a script take at most.
pub open spec fn spec_script_size(s: Seq<BlockView>) -> nat {
    spec_size_upto(s, s.len() as int)
}

/// How many bytes those of the first `upto` blocks take at most that
/// `placed` does not hold.
pub open spec fn spec_unplaced_size(s: Seq<BlockView>, placed: Seq<bool>, upto: int) -> nat
    decreases upto,
{
    if upto <= 0 {
        0
    } else {
        spec_unplaced_size(s, placed, upto - 1) + if placed[upto - 1] {
            0nat
        } else {
            spec_block_size(s[upto - 1])
        }
    }
}

/// Where nothing is placed, the unplaced blocks are all blocks.
pub proof fn lemma_unplaced_all(s: Seq<BlockView>, placed: Seq<bool>, upto: int)
    requires
        upto <= placed.len(),
        forall|i: int| 0 <= i < upto ==> !placed[i],
    ensures
        spec_unplaced_size(s, placed, upto) == spec_size_upto(s, upto),
    decreases upto,
{
    if upto > 0 {
        lemma_unplaced_all(s, placed, upto - 1);
    }
}

/// Placing a block takes its size away from the unplaced ones.
pub proof fn lemma_place(s: Seq<BlockView>, placed: Seq<bool>, upto: int, b: int)
    requires
        0 <= b < placed.len(),
        upto <= placed.len(),
        !placed[b],
    ensures
        spec_unplaced_size(s, placed.update(b, true), upto) + (if b < upto {
            spec_block_size(s[b])
        } else {
            0nat
        }) == spec_unplaced_size(s, placed, upto),
    decreases upto,
{
    if upto > 0 {
        lemma_place(s, placed, upto - 1, b);
    }
}

/// The number of bytes that a block takes does not depend on any offset, and
/// a block never takes more than where it ends with a jump of its own.
pub proof fn lemma_block_len(block: BlockView, offsets: Seq<Ip>, inline: bool)
    ensures
        spec_block_bytes(block, offsets, inline).len() <= spec_block_size(block),
        spec_block_bytes(block, offsets, false).len() == spec_block_size(block),
{
    match block {
        BlockView::Code { commands, terminator } => {
            lemma_commands_bytes_agree(commands, offsets, Seq::empty());
            lemma_end_bytes_agree(terminator, offsets, Seq::empty(), inline);
            lemma_end_bytes_agree(terminator, offsets, Seq::empty(), false);
        },
        BlockView::Data { bytes } => {},
    }
}

/// Appends the bytes of the block with index `b` to `out`.
fn emit_block(script: &Script, b: usize, offsets: &Vec<Ip>, inline: bool, out: &mut Vec<u8>)
    requires
        spec_consistent(script@),
        b < script@.len(),
        offsets@.len() == script@.len(),
        script@[b as int] matches BlockView::Data { bytes } ==> bytes.len() <= u32::MAX,
    ensures
        final(out)@ == old(out)@ + spec_block_bytes(script@[b as int], offsets@, inline),
{
    let ghost s = script@;
    let ghost start = out@;
    match &script.blocks[b] {
        Block::Data(data) => {
            assert(s[b as int] == data@);
            let len = data.bytes.len();
            put_u32_le(out, len as u32);
            put_bytes(out, data.bytes.as_slice());
            proof {
                lemma_append_assoc(start, spec_bytes_u32_le(len as u32), data.bytes@);
            }
        },
        Block::Code(code) => {
            assert(s[b as int] == code@);
            assert(spec_block_consistent(s, s[b as int]));
            let mut k: usize = 0;
            assert(code.commands@.subrange(0, 0) =~= Seq::<Command<BlockId>>::empty());
            assert(out@ =~= start + spec_commands_bytes(code.commands@.subrange(0, 0), offsets@));
            while k < code.commands.len()
                invariant
                    s == script@,
                    b < s.len(),
                    offsets@.len() == s.len(),
                    s[b as int] == code@,
                    spec_block_consistent(s, s[b as int]),
                    k <= code.commands@.len(),
                    out@ == start + spec_commands_bytes(
                        code.commands@.subrange(0, k as int),
                        offsets@,
                    ),
                decreases code.commands@.len() - k,
            {
                let ghost done = code.commands@.subrange(0, k as int);
                let ghost next = code.commands@.subrange(0, k + 1);
                proof {
                    let commands = s[b as int]->commands;
                    assert(commands == code.commands@);
                    assert(spec_command_consistent(s, commands[k as int]));
                    assert(next.drop_last() =~= done);
                    assert(next.last() == code.commands@[k as int]);
                    lemma_append_assoc(
                        start,
                        spec_commands_bytes(done, offsets@),
                        spec_command_bytes(spec_lower_command(code.commands@[k as int], offsets@)),
                    );
                }
                write_command(&code.commands[k], offsets, out);
                k += 1;
            }
            assert(code.commands@.subrange(0, k as int) =~= code.commands@);
            assert(spec_terminator_consistent(s, code.terminator));
            let ghost body = spec_commands_bytes(code.commands@, offsets@);
            match &code.terminator {
                Terminator::Fallthrough(id) => {
                    if !inline {
                        let jump = Terminator::Jump(*id);
                        write_terminator(&jump, offsets, out);
                    }
                },
                _ => {
                    write_terminator(&code.terminator, offsets, out);
                },
            }
            proof {
                lemma_append_assoc(start, body, spec_end_bytes(code.terminator, offsets@, inline));
                assert(out@ =~= start + body + spec_end_bytes(code.terminator, offsets@, inline));
            }
        },
    }
}

/// Whether the block at place `i` of `order` ends without a jump: it falls
/// through to the block at the next place, and no other reference leads
/// there.
pub open spec fn spec_inline(s: Seq<BlockView>, order: Seq<usize>, incoming: Seq<usize>, i: int) -> bool {
    match s[order[i] as int] {
        BlockView::Code { commands, terminator } => match terminator {
            Terminator::Fallthrough(id) => i + 1 < order.len() && order[i + 1] == id.index
                && incoming[id.index as int] < 2,
            _ => false,
        },
        BlockView::Data { bytes } => false,
    }
}

/// How many bytes the blocks of one kind take that stand at the first
/// `upto` places of `order`.
pub open spec fn spec_layout_len(
    s: Seq<BlockView>,
    order: Seq<usize>,
    incoming: Seq<usize>,
    code: bool,
    upto: int,
) -> nat
    decreases upto,
{
    if upto <= 0 {
        0
    } else {
        spec_layout_len(s, order, incoming, code, upto - 1) + if (s[order[upto - 1] as int] is Code)
            == code {
            spec_block_bytes(
                s[order[upto - 1] as int],
                Seq::empty(),
                spec_inline(s, order, incoming, upto - 1),
            ).len()
        } else {
            0nat
        }
    }
}

/// Where the block at place `i` of `order` is written in a stream that held
/// `base` bytes before: the code blocks come first, in their order, then
/// the data blocks.
pub open spec fn spec_position(
    s: Seq<BlockView>,
    order: Seq<usize>,
    incoming: Seq<usize>,
    base: int,
    i: int,
) -> int {
    if s[order[i] as int] is Code {
        base + spec_layout_len(s, order, incoming, true, i)
    } else {
        base + spec_layout_len(s, order, incoming, true, order.len() as int) + spec_layout_len(
            s,
            order,
            incoming,
            false,
            i,
        )
    }
}

/// The blocks at later places take no fewer bytes in all.
pub proof fn lemma_layout_len_grows(
    s: Seq<BlockView>,
    order: Seq<usize>,
    incoming: Seq<usize>,
    code: bool,
    i: int,
    j: int,
)
    requires
        i <= j,
    ensures
        spec_layout_len(s, order, incoming, code, i) <= spec_layout_len(s, order, incoming, code, j),
    decreases j - i,
{
    if i < j {
        lemma_layout_len_grows(s, order, incoming, code, i, j - 1);
    }
}

/// Whether the bytes of the block with index `b` stand in `out` at the
/// offset that `offsets` holds for it, every reference in them written as
/// the offset of the block referred to. Behind a block that falls through
/// stands either the block it leads to, provided that nothing else leads
/// there, or a jump to that block.
pub open spec fn spec_block_written(s: Seq<BlockView>, offsets: Seq<Ip>, out: Seq<u8>, b: int) -> bool {
    match s[b] {
        BlockView::Code { commands, terminator } => {
            let body = spec_commands_bytes(commands, offsets);
            let end = offsets[b] + body.len();
            &&& spec_holds_at(out, offsets[b] as int, body)
            &&& match terminator {
                Terminator::Fallthrough(id) => {
                    ||| (offsets[id.index as int] == end && spec_incoming(s, id.index as int) < 2)
                    ||| spec_holds_at(out, end, spec_end_bytes(terminator, offsets, false))
                },
                _ => spec_holds_at(out, end, spec_end_bytes(terminator, offsets, false)),
            }
        },
        BlockView::Data { bytes } => {
            &&& bytes.len() <= u32::MAX
            &&& spec_holds_at(out, offsets[b] as int, spec_block_bytes(s[b], offsets, false))
        },
    }
}

/// Whether every block that the block with index `b` refers to has an
/// offset.
pub open spec fn spec_refs_written(s: Seq<BlockView>, offsets: Seq<Ip>, b: int) -> bool {
    forall|y: int| #[trigger] spec_edge(s, b, y) ==> 0 <= y < offsets.len() && offsets[y] != 0
}

/// What stands in a stream still stands in a longer stream that starts
/// with it.
pub proof fn lemma_holds_prefix(short: Seq<u8>, long: Seq<u8>, at: int, part: Seq<u8>)
    requires
        short.len() <= long.len(),
        long.subrange(0, short.len() as int) == short,
        spec_holds_at(short, at, part),
    ensures
        spec_holds_at(long, at, part),
{
    assert(long.subrange(at, at + part.len()) =~= long.subrange(0, short.len() as int).subrange(
        at,
        at + part.len(),
    ));
}

/// A written block stays written when bytes in front of it are
/// overwritten.
pub proof fn lemma_written_behind_patch(
    s: Seq<BlockView>,
    offsets: Seq<Ip>,
    out: Seq<u8>,
    at: int,
    part: Seq<u8>,
    b: int,
)
    requires
        0 <= b < s.len(),
        0 <= at,
        at + part.len() <= out.len(),
        at + part.len() <= offsets[b],
        spec_block_written(s, offsets, out, b),
    ensures
        spec_block_written(s, offsets, spec_patched(out, at, part), b),
{
    match s[b] {
        BlockView::Code { commands, terminator } => {
            let body = spec_commands_bytes(commands, offsets);
            let end = offsets[b] + body.len();
            lemma_holds_behind_patch(out, at, part, offsets[b] as int, body);
            if spec_holds_at(out, end, spec_end_bytes(terminator, offsets, false)) {
                lemma_holds_behind_patch(
                    out,
                    at,
                    part,
                    end,
                    spec_end_bytes(terminator, offsets, false),
                );
            }
        },
        BlockView::Data { bytes } => {
            lemma_holds_behind_patch(
                out,
                at,
                part,
                offsets[b] as int,
                spec_block_bytes(s[b], offsets, false),
            );
        },
    }
}

/// A written block stays written when the stream grows at its end and the
/// offset table gains offsets for blocks that had none.
pub proof fn lemma_written_stays(
    s: Seq<BlockView>,
    offsets: Seq<Ip>,
    out: Seq<u8>,
    offsets2: Seq<Ip>,
    out2: Seq<u8>,
    b: int,
)
    requires
        0 <= b < s.len(),
        offsets.len() == s.len(),
        offsets2.len() == s.len(),
        offsets[b] != 0,
        spec_block_written(s, offsets, out, b),
        spec_refs_written(s, offsets, b),
        out.len() <= out2.len(),
        out2.subrange(0, out.len() as int) == out,
        forall|y: int| 0 <= y < s.len() && offsets[y] != 0 ==> offsets2[y] == offsets[y],
    ensures
        spec_block_written(s, offsets2, out2, b),
        spec_refs_written(s, offsets2, b),
{
    match s[b] {
        BlockView::Code { commands, terminator } => {
            assert forall|k: int| 0 <= k < commands.len() implies spec_command_agrees(
                #[trigger] commands[k],
                offsets,
                offsets2,
            ) by {
                match commands[k] {
                    Command::Call(id) => {
                        assert(spec_edge(s, b, id.index as int));
                    },
                    Command::Msg(id) => {
                        assert(spec_edge(s, b, id.index as int));
                    },
                    _ => {},
                }
            }
            lemma_commands_bytes_agree(commands, offsets, offsets2);
            match terminator {
                Terminator::Fallthrough(id) => {
                    assert(spec_edge(s, b, id.index as int));
                },
                Terminator::Jump(id) => {
                    assert(spec_edge(s, b, id.index as int));
                },
                Terminator::Branch { condition, if_true, if_false } => {
                    assert(spec_edge(s, b, if_true.index as int));
                    assert(spec_edge(s, b, if_false.index as int));
                },
                _ => {},
            }
            lemma_end_bytes_agree(terminator, offsets, offsets2, false);
            let body = spec_commands_bytes(commands, offsets);
            let end = offsets[b] + body.len();
            lemma_holds_prefix(out, out2, offsets[b] as int, body);
            if spec_holds_at(out, end, spec_end_bytes(terminator, offsets, false)) {
                lemma_holds_prefix(out, out2, end, spec_end_bytes(terminator, offsets, false));
            }
        },
        BlockView::Data { bytes } => {
            lemma_holds_prefix(out, out2, offsets[b] as int, spec_block_bytes(s[b], offsets, false));
        },
    }
}

/// Where the bytes of a block stand in a stream at the block's offset, the
/// block is written, provided that a block that ends without a jump is
/// followed by the block it leads to and that nothing else leads there.
pub proof fn lemma_held_written(
    s: Seq<BlockView>,
    offsets: Seq<Ip>,
    out: Seq<u8>,
    b: int,
    inline: bool,
)
    requires
        0 <= b < s.len(),
        spec_holds_at(out, offsets[b] as int, spec_block_bytes(s[b], offsets, inline)),
        s[b] matches BlockView::Data { bytes } ==> bytes.len() <= u32::MAX,
        inline ==> (s[b] matches BlockView::Code { commands, terminator } && (
        terminator matches Terminator::Fallthrough(id) && spec_incoming(s, id.index as int) < 2
            && offsets[id.index as int] == offsets[b] + spec_block_bytes(
            s[b],
            offsets,
            true,
        ).len())),
    ensures
        spec_block_written(s, offsets, out, b),
{
    match s[b] {
        BlockView::Code { commands, terminator } => {
            let body = spec_commands_bytes(commands, offsets);
            lemma_holds_split(out, offsets[b] as int, body, spec_end_bytes(terminator, offsets, inline));
            if inline {
                assert(spec_end_bytes(terminator, offsets, true) =~= Seq::<u8>::empty());
                assert(spec_block_bytes(s[b], offsets, true) =~= body);
            }
        },
        BlockView::Data { bytes } => {},
    }
}

/// The flags of the blocks that have an offset.
pub open spec fn spec_written_mask(offsets: Seq<Ip>) -> Seq<bool> {
    Seq::new(offsets.len(), |b: int| offsets[b] != 0)
}

/// The flags `placed` with those of the blocks set that stand at the first
/// `upto` places of `order`.
pub open spec fn spec_placed(placed: Seq<bool>, order: Seq<usize>, upto: int) -> Seq<bool> {
    Seq::new(placed.len(), |b: int| placed[b] || exists|j: int| 0 <= j < upto
        && #[trigger] order[j] == b)
}

/// Blocks that stand at different places of `order`, and were not placed
/// before, take no more bytes than all blocks that were not placed before;
/// what is left are the blocks that are still not placed.
pub proof fn lemma_layout_fits(
    s: Seq<BlockView>,
    placed: Seq<bool>,
    order: Seq<usize>,
    incoming: Seq<usize>,
    upto: int,
)
    requires
        0 <= upto <= order.len(),
        placed.len() == s.len(),
        spec_distinct_from(order, 0),
        forall|k: int| 0 <= k < order.len()
            ==> #[trigger] order[k] < s.len() && !placed[order[k] as int],
    ensures
        spec_layout_len(s, order, incoming, true, upto) + spec_layout_len(
            s,
            order,
            incoming,
            false,
            upto,
        ) + spec_unplaced_size(s, spec_placed(placed, order, upto), s.len() as int)
            <= spec_unplaced_size(s, placed, s.len() as int),
        upto < order.len() ==> spec_layout_len(s, order, incoming, true, upto) + spec_layout_len(
            s,
            order,
            incoming,
            false,
            upto,
        ) + spec_block_size(s[order[upto] as int]) <= spec_unplaced_size(s, placed, s.len() as int),
    decreases upto,
{
    let n = s.len();
    let now = spec_placed(placed, order, upto);
    if upto == 0 {
        assert(now =~= placed);
    } else {
        lemma_layout_fits(s, placed, order, incoming, upto - 1);
        let before = spec_placed(placed, order, upto - 1);
        let b = order[upto - 1] as int;
        assert(!before[b]) by {
            if before[b] {
                let j = choose|j: int| 0 <= j < upto - 1 && #[trigger] order[j] == b;
                assert(order[j] != order[upto - 1]);
            }
        }
        assert(now =~= before.update(b, true)) by {
            assert forall|x: int| 0 <= x < n implies now[x] == before.update(b, true)[x] by {
                if x == b {
                    assert(order[upto - 1] == b);
                } else if now[x] && !placed[x] {
                    let j = choose|j: int| 0 <= j < upto && #[trigger] order[j] == x;
                    assert(j < upto - 1);
                } else if before[x] && !placed[x] {
                    let j = choose|j: int| 0 <= j < upto - 1 && #[trigger] order[j] == x;
                }
            }
        }
        lemma_place(s, before, n as int, b);
        lemma_block_len(s[b], Seq::empty(), spec_inline(s, order, incoming, upto - 1));
    }
    if upto < order.len() {
        let b = order[upto] as int;
        assert(!now[b]) by {
            if now[b] {
                let j = choose|j: int| 0 <= j < upto && #[trigger] order[j] == b;
                assert(order[j] != order[upto]);
            }
        }
        lemma_place(s, now, n as int, b);
    }
}

/// Appends to `out` the blocks of one kind that `order` holds, in their
/// order: the code blocks where `code` is set, the data blocks otherwise.
fn emit_pass(
    script: &Script,
    order: &Vec<usize>,
    offsets: &Vec<Ip>,
    incoming: &Vec<usize>,
    code: bool,
    out: &mut Vec<u8>,
)
    requires
        spec_consistent(script@),
        offsets@.len() == script@.len(),
        incoming@.len() == script@.len(),
        forall|k: int| 0 <= k < order@.len() ==> #[trigger] order@[k] < script@.len(),
        forall|k: int|
            0 <= k < order@.len() ==> (script@[#[trigger] order@[k] as int] matches BlockView::Data {
                bytes,
            } ==> bytes.len() <= u32::MAX),
    ensures
        final(out)@.len() == old(out)@.len() + spec_layout_len(
            script@,
            order@,
            incoming@,
            code,
            order@.len() as int,
        ),
        final(out)@.subrange(0, old(out)@.len() as int) == old(out)@,
        forall|k: int|
            0 <= k < order@.len() && (script@[#[trigger] order@[k] as int] is Code) == code
                ==> spec_holds_at(
                final(out)@,
                (old(out)@.len() + spec_layout_len(script@, order@, incoming@, code, k)) as int,
                spec_block_bytes(
                    script@[order@[k] as int],
                    offsets@,
                    spec_inline(script@, order@, incoming@, k),
                ),
            ),
{
    let ghost s = script@;
    let ghost start = out@;
    let mut i: usize = 0;
    assert(out@.subrange(0, start.len() as int) =~= start);
    while i < order.len()
        invariant
            s == script@,
            spec_consistent(s),
            offsets@.len() == s.len(),
            incoming@.len() == s.len(),
            forall|k: int| 0 <= k < order@.len() ==> #[trigger] order@[k] < s.len(),
            forall|k: int|
                0 <= k < order@.len() ==> (s[#[trigger] order@[k] as int] matches BlockView::Data {
                    bytes,
                } ==> bytes.len() <= u32::MAX),
            i <= order@.len(),
            out@.len() == start.len() + spec_layout_len(s, order@, incoming@, code, i as int),
            out@.subrange(0, start.len() as int) == start,
            forall|k: int|
                0 <= k < i && (s[#[trigger] order@[k] as int] is Code) == code ==> spec_holds_at(
                    out@,
                    (start.len() + spec_layout_len(s, order@, incoming@, code, k)) as int,
                    spec_block_bytes(
                        s[order@[k] as int],
                        offsets@,
                        spec_inline(s, order@, incoming@, k),
                    ),
                ),
        decreases order@.len() - i,
    {
        let b = order[i];
        let ghost before = out@;
        let is_code = script.blocks[b].is_code();
        if is_code == code {
            let inline = match &script.blocks[b] {
                Block::Code(block) => match &block.terminator {
                    Terminator::Fallthrough(id) => i + 1 < order.len() && order[i + 1] == id.index
                        && id.index < incoming.len() && incoming[id.index] < 2,
                    _ => false,
                },
                Block::Data(_) => false,
            };
            proof {
                assert(spec_block_consistent(s, s[b as int]));
                assert(inline == spec_inline(s, order@, incoming@, i as int));
            }
            emit_block(script, b, offsets, inline, out);
            proof {
                let part = spec_block_bytes(s[b as int], offsets@, inline);
                lemma_block_len(s[b as int], offsets@, inline);
                lemma_block_len(s[b as int], Seq::empty(), inline);
                match s[b as int] {
                    BlockView::Code { commands, terminator } => {
                        lemma_commands_bytes_agree(commands, offsets@, Seq::empty());
                        lemma_end_bytes_agree(terminator, offsets@, Seq::empty(), inline);
                    },
                    BlockView::Data { bytes } => {},
                }
                lemma_holds_appended(before, part);
                assert(out@.subrange(0, start.len() as int) =~= before.subrange(
                    0,
                    start.len() as int,
                ));
            }
        }
        i += 1;
    }
}

/// The code blocks of `order`, the data blocks at its first `k` places and
/// the block at place `k` together take no more bytes than all blocks that
/// were not placed before.
pub proof fn lemma_tail_fits(
    s: Seq<BlockView>,
    placed: Seq<bool>,
    order: Seq<usize>,
    incoming: Seq<usize>,
    k: int,
)
    requires
        0 <= k < order.len(),
        placed.len() == s.len(),
        spec_distinct_from(order, 0),
        forall|j: int| 0 <= j < order.len()
            ==> #[trigger] order[j] < s.len() && !placed[order[j] as int],
        !(s[order[k] as int] is Code),
    ensures
        spec_layout_len(s, order, incoming, true, order.len() as int) + spec_layout_len(
            s,
            order,
            incoming,
            false,
            k,
        ) + spec_block_size(s[order[k] as int]) <= spec_unplaced_size(s, placed, s.len() as int),
{
    lemma_layout_fits(s, placed, order, incoming, order.len() as int);
    lemma_data_tail(s, order, incoming, k, order.len() as int);
}

/// Of the data blocks at the first `upto` places of `order`, those at the
/// first `k` places and the one at place `k` take no more bytes than all.
proof fn lemma_data_tail(
    s: Seq<BlockView>,
    order: Seq<usize>,
    incoming: Seq<usize>,
    k: int,
    upto: int,
)
    requires
        0 <= k < upto <= order.len(),
        !(s[order[k] as int] is Code),
    ensures
        spec_layout_len(s, order, incoming, false, k) + spec_block_size(s[order[k] as int])
            <= spec_layout_len(s, order, incoming, false, upto),
    decreases upto,
{
    if upto == k + 1 {
        assert(!spec_inline(s, order, incoming, k));
    } else {
        lemma_data_tail(s, order, incoming, k, upto - 1);
    }
}

/// Whether one of the blocks of one kind that `order` holds cannot be
/// placed in a stream in which the first of them starts at `start`: it
/// would start beyond the 32-bit range, or it is a data block too long for
/// its length field.
#[verifier::opaque]
pub open spec fn spec_pass_fails(
    s: Seq<BlockView>,
    order: Seq<usize>,
    incoming: Seq<usize>,
    code: bool,
    start: int,
) -> bool {
    exists|k: int|
        0 <= k < order.len() && (s[#[trigger] order[k] as int] is Code) == code && start
            + spec_layout_len(s, order, incoming, code, k) + spec_block_size(s[order[k] as int])
            > u32::MAX && (start + spec_layout_len(s, order, incoming, code, k) > u32::MAX || (
        s[order[k] as int] matches BlockView::Data { bytes } && bytes.len() > u32::MAX))
}

/// Finds out where each block of one kind that `order` holds will stand
/// in a stream in which the first of them starts at `start`, and notes
/// these offsets in `table`. Returns how many bytes the blocks take. An
/// offset that does not fit into 32 bits, or a data block too long for its
/// length field, is an error.
fn measure_pass(
    script: &Script,
    order: &Vec<usize>,
    offsets: &Vec<Ip>,
    incoming: &Vec<usize>,
    code: bool,
    start: usize,
    table: &mut Vec<Ip>,
) -> (r: Result<usize, Error>)
    requires
        spec_consistent(script@),
        offsets@.len() == script@.len(),
        incoming@.len() == script@.len(),
        old(table)@.len() == script@.len(),
        spec_distinct_from(order@, 0),
        forall|k: int| 0 <= k < order@.len() ==> #[trigger] order@[k] < script@.len(),
        0 < start <= u32::MAX,
    ensures
        final(table)@.len() == script@.len(),
        match r {
            Ok(len) => {
                &&& len == spec_layout_len(script@, order@, incoming@, code, order@.len() as int)
                &&& forall|k: int|
                    0 <= k < order@.len() && (script@[#[trigger] order@[k] as int] is Code) == code
                        ==> final(table)@[order@[k] as int] == start + spec_layout_len(
                        script@,
                        order@,
                        incoming@,
                        code,
                        k,
                    )
                &&& forall|k: int|
                    0 <= k < order@.len() && (script@[#[trigger] order@[k] as int] is Code) != code
                        ==> final(table)@[order@[k] as int] == old(table)@[order@[k] as int]
                &&& forall|b: int|
                    0 <= b < script@.len() && (forall|k: int|
                        0 <= k < order@.len() ==> #[trigger] order@[k] != b) ==> final(table)@[b]
                        == old(table)@[b]
                &&& !code ==> forall|k: int|
                    0 <= k < order@.len()
                        ==> (script@[#[trigger] order@[k] as int] matches BlockView::Data {
                        bytes,
                    } ==> bytes.len() <= u32::MAX)
            },
            Err(e) => e == Error::InvalidHeader && spec_pass_fails(
                script@,
                order@,
                incoming@,
                code,
                start as int,
            ),
        },
{
    let ghost s = script@;
    let mut scratch: Vec<u8> = Vec::new();
    let mut i: usize = 0;
    while i < order.len()
        invariant
            s == script@,
            spec_consistent(s),
            offsets@.len() == s.len(),
            incoming@.len() == s.len(),
            table@.len() == s.len(),
            old(table)@.len() == s.len(),
            spec_distinct_from(order@, 0),
            forall|k: int| 0 <= k < order@.len() ==> #[trigger] order@[k] < s.len(),
            0 < start <= u32::MAX,
            i <= order@.len(),
            scratch@.len() == spec_layout_len(s, order@, incoming@, code, i as int),
            forall|k: int|
                0 <= k < i && (s[#[trigger] order@[k] as int] is Code) == code
                    ==> table@[order@[k] as int]
                    == start + spec_layout_len(s, order@, incoming@, code, k),
            forall|k: int|
                0 <= k < order@.len() && (i <= k || (s[#[trigger] order@[k] as int] is Code) != code)
                    ==> table@[order@[k] as int] == old(table)@[order@[k] as int],
            forall|b: int|
                0 <= b < s.len() && (forall|k: int| 0 <= k < order@.len() ==> #[trigger] order@[k] != b)
                    ==> table@[b] == old(table)@[b],
            !code ==> forall|k: int|
                0 <= k < i ==> (s[#[trigger] order@[k] as int] matches BlockView::Data { bytes }
                    ==> bytes.len() <= u32::MAX),
        decreases order@.len() - i,
    {
        let b = order[i];
        let is_code = script.blocks[b].is_code();
        if is_code == code {
            let fits = match &script.blocks[b] {
                Block::Code(_) => true,
                Block::Data(data) => data.bytes.len() <= 0xffff_ffff,
            };
            if !fits || scratch.len() > 0xffff_ffff - start {
                proof {
                    reveal(spec_pass_fails);
                    lemma_block_len(s[b as int], Seq::empty(), false);
                    lemma_bytes_len(0);
                    assert((s[order@[i as int] as int] is Code) == code);
                }
                return Err(Error::InvalidHeader);
            }
            let inline = match &script.blocks[b] {
                Block::Code(block) => match &block.terminator {
                    Terminator::Fallthrough(id) => i + 1 < order.len() && order[i + 1] == id.index
                        && id.index < incoming.len() && incoming[id.index] < 2,
                    _ => false,
                },
                Block::Data(_) => false,
            };
            let ghost table_before = table@;
            table[b] = (start + scratch.len()) as u32;
            proof {
                assert(spec_block_consistent(s, s[b as int]));
                assert(inline == spec_inline(s, order@, incoming@, i as int));
                lemma_block_len(s[b as int], offsets@, inline);
                lemma_block_len(s[b as int], Seq::empty(), inline);
                match s[b as int] {
                    BlockView::Code { commands, terminator } => {
                        lemma_commands_bytes_agree(commands, offsets@, Seq::empty());
                        lemma_end_bytes_agree(terminator, offsets@, Seq::empty(), inline);
                    },
                    BlockView::Data { bytes } => {},
                }
                assert forall|k: int|
                    0 <= k < i && (s[#[trigger] order@[k] as int] is Code) == code
                        implies table@[order@[k] as int]
                    == start + spec_layout_len(s, order@, incoming@, code, k) by {
                    assert(order@[k] != order@[i as int]);
                }
                assert forall|k: int|
                    0 <= k < order@.len() && (i + 1 <= k || (s[#[trigger] order@[k] as int] is Code)
                        != code) implies table@[order@[k] as int] == old(table)@[order@[k] as int] by {
                    if k > i {
                        assert(order@[i as int] != order@[k]);
                    }
                }
            }
            emit_block(script, b, offsets, inline, &mut scratch);
        }
        i += 1;
    }
    Ok(scratch.len())
}

/// Whether the blocks of `order` cannot all be written into a stream that
/// holds `base` bytes: the data blocks would start beyond the 32-bit range,
/// or one of them would, or one is too long for its length field.
#[verifier::opaque]
pub open spec fn spec_overflows(s: Seq<BlockView>, order: Seq<usize>, incoming: Seq<usize>, base: int) -> bool {
    ||| base + spec_layout_len(s, order, incoming, true, order.len() as int) > u32::MAX
    ||| exists|k: int|
        0 <= k < order.len() && (s[#[trigger] order[k] as int] matches BlockView::Data { bytes } && (
        bytes.len() > u32::MAX || spec_position(s, order, incoming, base, k) > u32::MAX))
}

/// A block of one kind that would start beyond the 32-bit range makes the
/// plan too long, and so does a data block too long for its length field.
pub proof fn lemma_overflows(
    s: Seq<BlockView>,
    order: Seq<usize>,
    incoming: Seq<usize>,
    base: int,
    code: bool,
    k: int,
)
    requires
        0 <= k < order.len(),
        (s[order[k] as int] is Code) == code,
        (if code {
            base
        } else {
            base + spec_layout_len(s, order, incoming, true, order.len() as int)
        }) + spec_layout_len(s, order, incoming, code, k) > u32::MAX || (
        s[order[k] as int] matches BlockView::Data { bytes } && bytes.len() > u32::MAX),
    ensures
        spec_overflows(s, order, incoming, base),
{
    reveal(spec_overflows);
    if code {
        lemma_layout_len_grows(s, order, incoming, true, k, order.len() as int);
    } else {
        assert(s[order[k] as int] is Data);
    }
}

/// Where a block of a plan cannot be placed, the blocks that were not
/// placed before take more than the 32-bit range leaves, and the plan is
/// too long.
pub proof fn lemma_pass_fails(
    s: Seq<BlockView>,
    placed: Seq<bool>,
    order: Seq<usize>,
    incoming: Seq<usize>,
    base: int,
    code: bool,
)
    requires
        placed.len() == s.len(),
        spec_distinct_from(order, 0),
        forall|j: int| 0 <= j < order.len() ==> #[trigger] order[j] < s.len() && !placed[order[j] as int],
        spec_pass_fails(
            s,
            order,
            incoming,
            code,
            if code {
                base
            } else {
                base + spec_layout_len(s, order, incoming, true, order.len() as int)
            },
        ),
    ensures
        base + spec_unplaced_size(s, placed, s.len() as int) > u32::MAX,
        spec_overflows(s, order, incoming, base),
{
    reveal(spec_pass_fails);
    let start = if code {
        base
    } else {
        base + spec_layout_len(s, order, incoming, true, order.len() as int)
    };
    let k = choose|k: int|
        0 <= k < order.len() && (s[#[trigger] order[k] as int] is Code) == code && start
            + spec_layout_len(s, order, incoming, code, k) + spec_block_size(s[order[k] as int])
            > u32::MAX && (start + spec_layout_len(s, order, incoming, code, k) > u32::MAX || (
        s[order[k] as int] matches BlockView::Data { bytes } && bytes.len() > u32::MAX));
    if code {
        lemma_layout_fits(s, placed, order, incoming, k);
    } else {
        lemma_tail_fits(s, placed, order, incoming, k);
    }
    lemma_overflows(s, order, incoming, base, code, k);
}

/// Where the code blocks end beyond the 32-bit range, the plan is too
/// long.
pub proof fn lemma_overflows_code(s: Seq<BlockView>, order: Seq<usize>, incoming: Seq<usize>, base: int)
    requires
        base + spec_layout_len(s, order, incoming, true, order.len() as int) > u32::MAX,
    ensures
        spec_overflows(s, order, incoming, base),
{
    reveal(spec_overflows);
}

/// A plan whose data blocks all got an offset, none too long for its
/// length field, is not too long.
pub proof fn lemma_fits(
    s: Seq<BlockView>,
    order: Seq<usize>,
    incoming: Seq<usize>,
    base: int,
    table: Seq<Ip>,
)
    requires
        base + spec_layout_len(s, order, incoming, true, order.len() as int) <= u32::MAX,
        forall|k: int|
            0 <= k < order.len() && s[#[trigger] order[k] as int] is Data ==> table[order[k] as int]
                == spec_position(s, order, incoming, base, k) && s[order[k] as int]->bytes.len()
                <= u32::MAX,
    ensures
        !spec_overflows(s, order, incoming, base),
{
    reveal(spec_overflows);
}

/// Whether `order` and `table` are the plan for writing the subroutine at
/// `entry` into a stream of `base` bytes: `order` holds, once each, the
/// blocks that the subroutine needs and that had no offset, in the order
/// in which a depth-first walk from the entry meets them, and `table`
/// holds, besides the old offsets, the place of each of them.
pub open spec fn spec_planned(
    s: Seq<BlockView>,
    old_offsets: Seq<Ip>,
    incoming: Seq<usize>,
    base: int,
    entry: int,
    order: Seq<usize>,
    table: Seq<Ip>,
) -> bool {
    &&& order.len() > 0
    &&& order[0] == entry
    &&& order == spec_discovery(s, spec_written_mask(old_offsets), seq![entry as usize])
    &&& !spec_overflows(s, order, incoming, base)
    &&& spec_distinct_from(order, 0)
    &&& table.len() == s.len()
    &&& forall|k: int|
        0 <= k < order.len() ==> {
            let b = #[trigger] order[k];
            &&& b < s.len()
            &&& old_offsets[b as int] == 0
            &&& spec_reachable(s, set![entry], b as int)
            &&& table[b as int] == spec_position(s, order, incoming, base, k)
            &&& (s[b as int] matches BlockView::Data { bytes } ==> bytes.len() <= u32::MAX)
        }
    &&& forall|k: int, y: int|
        0 <= k < order.len() && #[trigger] spec_edge(s, order[k] as int, y) ==> 0 <= y < s.len() && (
        old_offsets[y] != 0 || exists|j: int| 0 <= j < order.len() && #[trigger] order[j] == y)
    &&& forall|b: int|
        0 <= b < s.len() && (forall|k: int| 0 <= k < order.len() ==> #[trigger] order[k] != b)
            ==> table[b] == old_offsets[b]
}

/// After both kinds of blocks of a plan were appended to the stream, every
/// block with an offset is written, the old ones as before.
pub proof fn lemma_plan_written(
    s: Seq<BlockView>,
    old_offsets: Seq<Ip>,
    old_out: Seq<u8>,
    incoming: Seq<usize>,
    entry: int,
    order: Seq<usize>,
    table: Seq<Ip>,
    mid_out: Seq<u8>,
    out: Seq<u8>,
)
    requires
        spec_consistent(s),
        old_offsets.len() == s.len(),
        incoming.len() == s.len(),
        old_out.len() > 0,
        forall|b: int| 0 <= b < s.len() ==> #[trigger] incoming[b] == spec_clip(spec_incoming(s, b)),
        forall|b: int|
            0 <= b < s.len() && #[trigger] old_offsets[b] != 0 ==> spec_block_written(
                s,
                old_offsets,
                old_out,
                b,
            ) && spec_refs_written(s, old_offsets, b),
        spec_planned(s, old_offsets, incoming, old_out.len() as int, entry, order, table),
        mid_out.len() == old_out.len() + spec_layout_len(s, order, incoming, true, order.len() as int),
        mid_out.subrange(0, old_out.len() as int) == old_out,
        forall|k: int|
            0 <= k < order.len() && (s[#[trigger] order[k] as int] is Code) ==> spec_holds_at(
                mid_out,
                (old_out.len() + spec_layout_len(s, order, incoming, true, k)) as int,
                spec_block_bytes(s[order[k] as int], table, spec_inline(s, order, incoming, k)),
            ),
        out.len() >= mid_out.len(),
        out.subrange(0, mid_out.len() as int) == mid_out,
        forall|k: int|
            0 <= k < order.len() && !(s[#[trigger] order[k] as int] is Code) ==> spec_holds_at(
                out,
                (mid_out.len() + spec_layout_len(s, order, incoming, false, k)) as int,
                spec_block_bytes(s[order[k] as int], table, spec_inline(s, order, incoming, k)),
            ),
    ensures
        out.subrange(0, old_out.len() as int) == old_out,
        forall|b: int|
            0 <= b < s.len() && #[trigger] table[b] != 0 ==> spec_block_written(s, table, out, b)
                && spec_refs_written(s, table, b),
        forall|b: int| 0 <= b < s.len() && old_offsets[b] != 0 ==> table[b] == old_offsets[b],
        forall|b: int|
            0 <= b < s.len() && old_offsets[b] == 0 && table[b] != 0 ==> table[b] >= old_out.len()
                && spec_reachable(s, set![entry], b),
{
    let n = s.len();
    let base = old_out.len() as int;
    assert(out.subrange(0, old_out.len() as int) =~= mid_out.subrange(0, old_out.len() as int));
    assert forall|b: int| 0 <= b < n && old_offsets[b] != 0 implies table[b] == old_offsets[b] by {
        assert forall|k: int| 0 <= k < order.len() implies #[trigger] order[k] != b by {}
    }
    assert forall|b: int| 0 <= b < n && old_offsets[b] == 0 && table[b] != 0 implies table[b]
        >= old_out.len() && spec_reachable(s, set![entry], b) by {
        if forall|k: int| 0 <= k < order.len() ==> #[trigger] order[k] != b {
            assert(table[b] == old_offsets[b]);
        }
        let k = choose|k: int| 0 <= k < order.len() && #[trigger] order[k] == b;
        assert(table[b] == spec_position(s, order, incoming, base, k));
    }
    assert forall|b: int| 0 <= b < n && #[trigger] table[b] != 0 implies spec_block_written(
        s,
        table,
        out,
        b,
    ) && spec_refs_written(s, table, b) by {
        if old_offsets[b] != 0 {
            lemma_written_stays(s, old_offsets, old_out, table, out, b);
        } else {
            if forall|k: int| 0 <= k < order.len() ==> #[trigger] order[k] != b {
                assert(table[b] == old_offsets[b]);
            }
            let k = choose|k: int| 0 <= k < order.len() && #[trigger] order[k] == b;
            lemma_new_written(s, old_offsets, incoming, base, entry, order, table, mid_out, out, k);
        }
    }
}

/// The block at place `k` of a plan is written once both kinds of blocks
/// were appended to the stream.
proof fn lemma_new_written(
    s: Seq<BlockView>,
    old_offsets: Seq<Ip>,
    incoming: Seq<usize>,
    base: int,
    entry: int,
    order: Seq<usize>,
    table: Seq<Ip>,
    mid_out: Seq<u8>,
    out: Seq<u8>,
    k: int,
)
    requires
        spec_consistent(s),
        old_offsets.len() == s.len(),
        incoming.len() == s.len(),
        base > 0,
        forall|b: int| 0 <= b < s.len() ==> #[trigger] incoming[b] == spec_clip(spec_incoming(s, b)),
        spec_planned(s, old_offsets, incoming, base, entry, order, table),
        0 <= k < order.len(),
        mid_out.len() == base + spec_layout_len(s, order, incoming, true, order.len() as int),
        out.len() >= mid_out.len(),
        out.subrange(0, mid_out.len() as int) == mid_out,
        (s[order[k] as int] is Code) ==> spec_holds_at(
            mid_out,
            (base + spec_layout_len(s, order, incoming, true, k)) as int,
            spec_block_bytes(s[order[k] as int], table, spec_inline(s, order, incoming, k)),
        ),
        !(s[order[k] as int] is Code) ==> spec_holds_at(
            out,
            (mid_out.len() + spec_layout_len(s, order, incoming, false, k)) as int,
            spec_block_bytes(s[order[k] as int], table, spec_inline(s, order, incoming, k)),
        ),
    ensures
        spec_block_written(s, table, out, order[k] as int),
        spec_refs_written(s, table, order[k] as int),
{
    let n = s.len();
    let b = order[k] as int;
    let inline = spec_inline(s, order, incoming, k);
    let part = spec_block_bytes(s[b], table, inline);
    assert(table[b] == spec_position(s, order, incoming, base, k));
    if s[b] is Code {
        lemma_holds_prefix(mid_out, out, table[b] as int, part);
        if inline {
            let next = order[k + 1] as int;
            assert(spec_block_consistent(s, s[b]));
            assert(s[next] is Code);
            assert(table[next] == spec_position(s, order, incoming, base, k + 1));
            lemma_block_len(s[b], table, true);
            match s[b] {
                BlockView::Code { commands, terminator } => {
                    lemma_commands_bytes_agree(commands, table, Seq::empty());
                    lemma_end_bytes_agree(terminator, table, Seq::empty(), true);
                },
                BlockView::Data { bytes } => {},
            }
            assert(incoming[next] == spec_clip(spec_incoming(s, next)));
        }
    }
    lemma_held_written(s, table, out, b, inline);
    assert forall|y: int| #[trigger] spec_edge(s, b, y) implies 0 <= y < n && table[y] != 0 by {
        assert(spec_edge(s, order[k] as int, y));
        if old_offsets[y] != 0 {
            assert forall|j: int| 0 <= j < order.len() implies #[trigger] order[j] != y by {}
        } else {
            let j = choose|j: int| 0 <= j < order.len() && #[trigger] order[j] == y;
            assert(table[order[j] as int] == spec_position(s, order, incoming, base, j));
        }
    }
}

/// The bytes of a written block end inside the stream.
pub proof fn lemma_stored_within(s: Seq<BlockView>, offsets: Seq<Ip>, out: Seq<u8>, b: int)
    requires
        0 <= b < s.len(),
        offsets.len() == s.len(),
        spec_block_written(s, offsets, out, b),
    ensures
        spec_stored_end(s, offsets, b) <= out.len(),
{
    match s[b] {
        BlockView::Code { commands, terminator } => {},
        BlockView::Data { bytes } => {
            lemma_bytes_len(bytes.len() as u32 as int);
        },
    }
}

/// Where a written block ends does not change when the offset table gains
/// offsets for blocks that had none.
pub proof fn lemma_stored_stays(s: Seq<BlockView>, offsets: Seq<Ip>, offsets2: Seq<Ip>, b: int)
    requires
        0 <= b < s.len(),
        offsets.len() == s.len(),
        offsets2.len() == s.len(),
        offsets[b] != 0,
        spec_refs_written(s, offsets, b),
        forall|y: int| 0 <= y < s.len() && offsets[y] != 0 ==> offsets2[y] == offsets[y],
    ensures
        spec_stored_end(s, offsets2, b) == spec_stored_end(s, offsets, b),
{
    match s[b] {
        BlockView::Code { commands, terminator } => {
            lemma_commands_bytes_agree(commands, offsets, offsets2);
            lemma_end_bytes_agree(terminator, offsets, offsets2, false);
            match terminator {
                Terminator::Fallthrough(id) => {
                    assert(spec_edge(s, b, id.index as int));
                },
                _ => {},
            }
        },
        BlockView::Data { bytes } => {},
    }
}

/// The block at place `k` of a plan ends no later than where the bytes
/// end that the plan gives it.
proof fn lemma_stored_bound(
    s: Seq<BlockView>,
    old_offsets: Seq<Ip>,
    incoming: Seq<usize>,
    base: int,
    entry: int,
    order: Seq<usize>,
    table: Seq<Ip>,
    k: int,
)
    requires
        spec_consistent(s),
        old_offsets.len() == s.len(),
        incoming.len() == s.len(),
        base > 0,
        forall|b: int| 0 <= b < s.len() ==> #[trigger] incoming[b] == spec_clip(spec_incoming(s, b)),
        spec_planned(s, old_offsets, incoming, base, entry, order, table),
        0 <= k < order.len(),
    ensures
        spec_stored_end(s, table, order[k] as int) <= table[order[k] as int] + spec_block_bytes(
            s[order[k] as int],
            Seq::empty(),
            spec_inline(s, order, incoming, k),
        ).len(),
        table[order[k] as int] == spec_position(s, order, incoming, base, k),
{
    let b = order[k] as int;
    assert(table[b] == spec_position(s, order, incoming, base, k));
    match s[b] {
        BlockView::Code { commands, terminator } => {
            lemma_commands_bytes_agree(commands, table, Seq::empty());
            lemma_end_bytes_agree(terminator, table, Seq::empty(), false);
            if spec_inline(s, order, incoming, k) {
                let next = order[k + 1] as int;
                assert(spec_block_consistent(s, s[b]));
                assert(s[next] is Code);
                assert(table[next] == spec_position(s, order, incoming, base, k + 1));
                assert(incoming[next] == spec_clip(spec_incoming(s, next)));
                assert(spec_runs_on(s, table, b));
            }
        },
        BlockView::Data { bytes } => {
            lemma_bytes_len(bytes.len() as u32 as int);
        },
    }
}

/// Two blocks with an offset lie apart after the blocks of a plan got
/// theirs.
proof fn lemma_pair_apart(
    s: Seq<BlockView>,
    old_offsets: Seq<Ip>,
    old_out: Seq<u8>,
    incoming: Seq<usize>,
    entry: int,
    order: Seq<usize>,
    table: Seq<Ip>,
    x: int,
    y: int,
)
    requires
        spec_consistent(s),
        old_offsets.len() == s.len(),
        incoming.len() == s.len(),
        old_out.len() > 0,
        forall|b: int| 0 <= b < s.len() ==> #[trigger] incoming[b] == spec_clip(spec_incoming(s, b)),
        forall|b: int|
            0 <= b < s.len() && #[trigger] old_offsets[b] != 0 ==> spec_block_written(
                s,
                old_offsets,
                old_out,
                b,
            ) && spec_refs_written(s, old_offsets, b),
        spec_stored_apart(s, old_offsets),
        spec_planned(s, old_offsets, incoming, old_out.len() as int, entry, order, table),
        0 <= x < s.len(),
        0 <= y < s.len(),
        x != y,
        table[x] != 0,
        table[y] != 0,
    ensures
        spec_stored_end(s, table, x) <= table[y] || spec_stored_end(s, table, y) <= table[x],
{
    let base = old_out.len() as int;
    let all = order.len() as int;
    assert forall|b: int| 0 <= b < s.len() && old_offsets[b] != 0 implies table[b] == old_offsets[b] by {
        assert forall|k: int| 0 <= k < order.len() implies #[trigger] order[k] != b by {}
    }
    if old_offsets[x] != 0 {
        lemma_stored_stays(s, old_offsets, table, x);
        lemma_stored_within(s, old_offsets, old_out, x);
    } else if forall|k: int| 0 <= k < order.len() ==> #[trigger] order[k] != x {
        assert(table[x] == old_offsets[x]);
    }
    if old_offsets[y] != 0 {
        lemma_stored_stays(s, old_offsets, table, y);
        lemma_stored_within(s, old_offsets, old_out, y);
    } else if forall|k: int| 0 <= k < order.len() ==> #[trigger] order[k] != y {
        assert(table[y] == old_offsets[y]);
    }
    if old_offsets[x] != 0 && old_offsets[y] != 0 {
        assert(spec_stored_end(s, old_offsets, x) <= old_offsets[y] || spec_stored_end(s, old_offsets, y)
            <= old_offsets[x]);
    } else if old_offsets[x] != 0 {
        let k = choose|k: int| 0 <= k < order.len() && #[trigger] order[k] == y;
        lemma_stored_bound(s, old_offsets, incoming, base, entry, order, table, k);
    } else if old_offsets[y] != 0 {
        let j = choose|j: int| 0 <= j < order.len() && #[trigger] order[j] == x;
        lemma_stored_bound(s, old_offsets, incoming, base, entry, order, table, j);
    } else {
        let j = choose|j: int| 0 <= j < order.len() && #[trigger] order[j] == x;
        let k = choose|k: int| 0 <= k < order.len() && #[trigger] order[k] == y;
        lemma_stored_bound(s, old_offsets, incoming, base, entry, order, table, j);
        lemma_stored_bound(s, old_offsets, incoming, base, entry, order, table, k);
        let x_code = s[x] is Code;
        let y_code = s[y] is Code;
        if x_code == y_code {
            if j < k {
                lemma_layout_len_grows(s, order, incoming, x_code, j + 1, k);
            } else {
                lemma_layout_len_grows(s, order, incoming, x_code, k + 1, j);
            }
        } else if x_code {
            lemma_layout_len_grows(s, order, incoming, true, j + 1, all);
        } else {
            lemma_layout_len_grows(s, order, incoming, true, k + 1, all);
        }
    }
}

/// After the blocks of a plan got their offsets, the written blocks still
/// lie apart: the new ones stand one behind the other, behind everything
/// that was in the stream.
pub proof fn lemma_plan_apart(
    s: Seq<BlockView>,
    old_offsets: Seq<Ip>,
    old_out: Seq<u8>,
    incoming: Seq<usize>,
    entry: int,
    order: Seq<usize>,
    table: Seq<Ip>,
)
    requires
        spec_consistent(s),
        old_offsets.len() == s.len(),
        incoming.len() == s.len(),
        old_out.len() > 0,
        forall|b: int| 0 <= b < s.len() ==> #[trigger] incoming[b] == spec_clip(spec_incoming(s, b)),
        forall|b: int|
            0 <= b < s.len() && #[trigger] old_offsets[b] != 0 ==> spec_block_written(
                s,
                old_offsets,
                old_out,
                b,
            ) && spec_refs_written(s, old_offsets, b),
        spec_stored_apart(s, old_offsets),
        spec_planned(s, old_offsets, incoming, old_out.len() as int, entry, order, table),
    ensures
        spec_stored_apart(s, table),
{
    assert forall|x: int, y: int|
        0 <= x < s.len() && 0 <= y < s.len() && x != y && table[x] != 0 && table[y] != 0 implies #[trigger] spec_stored_end(
        s,
        table,
        x,
    ) <= table[y] || #[trigger] spec_stored_end(s, table, y) <= table[x] by {
        lemma_pair_apart(s, old_offsets, old_out, incoming, entry, order, table, x, y);
    }
}

/// Plans the writing of the subroutine at `entry` into a stream that holds
/// `base` bytes: finds the blocks that it needs and that have no offset
/// yet, in the order of their discovery, and the offset of each. An offset
/// that does not fit into 32 bits is an error, and so is a data block too
/// long for its length field.
fn plan(
    script: &Script,
    offsets: &Vec<Ip>,
    incoming: &Vec<usize>,
    base: usize,
    entry: usize,
) -> (r: Result<(Vec<usize>, Vec<Ip>), Error>)
    requires
        spec_consistent(script@),
        offsets@.len() == script@.len(),
        incoming@.len() == script@.len(),
        entry < script@.len(),
        offsets@[entry as int] == 0,
        0 < base <= u32::MAX,
        forall|b: int, y: int|
            0 <= b < script@.len() && offsets@[b] != 0 && #[trigger] spec_edge(script@, b, y) ==> 0
                <= y < script@.len() && offsets@[y] != 0,
    ensures
        match r {
            Ok((order, table)) => {
                &&& spec_planned(
                    script@,
                    offsets@,
                    incoming@,
                    base as int,
                    entry as int,
                    order@,
                    table@,
                )
                &&& spec_layout_len(script@, order@, incoming@, true, order@.len() as int)
                    + spec_layout_len(script@, order@, incoming@, false, order@.len() as int)
                    + spec_unplaced_size(script@, spec_written_mask(table@), script@.len() as int)
                    <= spec_unplaced_size(
                    script@,
                    spec_written_mask(offsets@),
                    script@.len() as int,
                )
            },
            Err(e) => {
                &&& e == Error::InvalidHeader
                &&& base + spec_unplaced_size(
                    script@,
                    spec_written_mask(offsets@),
                    script@.len() as int,
                ) > u32::MAX
                &&& spec_overflows(
                    script@,
                    spec_discovery(script@, spec_written_mask(offsets@), seq![entry]),
                    incoming@,
                    base as int,
                )
            },
        },
{
    let ghost s = script@;
    let n = script.blocks.len();
    let mut seen: Vec<bool> = Vec::new();
    let mut table: Vec<Ip> = Vec::new();
    let mut i: usize = 0;
    while i < n
        invariant
            n == offsets@.len(),
            i <= n,
            seen@.len() == i,
            table@.len() == i,
            forall|j: int| 0 <= j < i ==> seen@[j] == (offsets@[j] != 0),
            forall|j: int| 0 <= j < i ==> table@[j] == offsets@[j],
        decreases n - i,
    {
        seen.push(offsets[i] != 0);
        table.push(offsets[i]);
        i += 1;
    }
    assert(table@ =~= offsets@);
    let ghost seen_before = seen@;
    let mut order: Vec<usize> = Vec::new();
    walk(script, &mut seen, entry, &mut order);
    let ghost ord = order@;
    proof {
        assert(seen_before =~= spec_written_mask(offsets@));
        assert(ord =~= spec_discovery(s, spec_written_mask(offsets@), seq![entry]));
    }
    let ghost inc = incoming@;
    let ghost mask = spec_written_mask(offsets@);
    proof {
        assert forall|k: int| 0 <= k < ord.len() implies #[trigger] ord[k] < s.len()
            && !mask[ord[k] as int] by {
            assert(!seen_before[ord[k] as int]);
        }
        lemma_layout_fits(s, mask, ord, inc, ord.len() as int);
    }
    let code_len = match measure_pass(script, &order, offsets, incoming, true, base, &mut table) {
        Ok(len) => len,
        Err(e) => {
            proof {
                lemma_pass_fails(s, mask, ord, inc, base as int, true);
            }
            return Err(e);
        },
    };
    if code_len > 0xffff_ffff - base {
        proof {
            lemma_overflows_code(s, ord, inc, base as int);
        }
        return Err(Error::InvalidHeader);
    }
    let ghost table_mid = table@;
    match measure_pass(script, &order, offsets, incoming, false, base + code_len, &mut table) {
        Ok(_) => {},
        Err(e) => {
            proof {
                lemma_pass_fails(s, mask, ord, inc, base as int, false);
            }
            return Err(e);
        },
    }
    proof {
        assert forall|k: int| 0 <= k < ord.len() implies {
            let b = #[trigger] ord[k];
            &&& b < s.len()
            &&& offsets@[b as int] == 0
            &&& spec_reachable(s, set![entry as int], b as int)
            &&& table@[b as int] == spec_position(s, ord, inc, base as int, k)
            &&& (s[b as int] matches BlockView::Data { bytes } ==> bytes.len() <= u32::MAX)
        } by {
            assert(!seen_before[ord[k] as int]);
            if s[ord[k] as int] is Code {
                assert(table_mid[ord[k] as int] == base + spec_layout_len(s, ord, inc, true, k));
            }
        }
        assert forall|k: int, y: int|
            0 <= k < ord.len() && #[trigger] spec_edge(s, ord[k] as int, y) implies 0 <= y < s.len()
            && (offsets@[y] != 0 || exists|j: int| 0 <= j < ord.len() && #[trigger] ord[j] == y) by {
            assert(seen@[y]);
            if !seen_before[y] {
                let j = choose|j: int| 0 <= j < ord.len() && #[trigger] ord[j] == y;
            }
        }
        assert forall|b: int|
            0 <= b < s.len() && (forall|k: int|
                0 <= k < ord.len() ==> #[trigger] ord[k] != b) implies table@[b] == offsets@[b] by {
            assert(table_mid[b] == offsets@[b]);
        }
        lemma_fits(s, ord, inc, base as int, table@);
        assert(spec_written_mask(table@) =~= spec_placed(mask, ord, ord.len() as int)) by {
            assert forall|b: int| 0 <= b < s.len() implies spec_written_mask(table@)[b]
                == spec_placed(mask, ord, ord.len() as int)[b] by {
                if exists|j: int| 0 <= j < ord.len() && #[trigger] ord[j] == b {
                    let j = choose|j: int| 0 <= j < ord.len() && #[trigger] ord[j] == b;
                    assert(table@[ord[j] as int] == spec_position(s, ord, inc, base as int, j));
                } else {
                    assert(table@[b] == offsets@[b]);
                }
            }
        }
    }
    Ok((order, table))
}

/// Writes subroutines of a script into a bytecode stream and remembers
/// where each block went.
pub struct ScriptWriter<'a> {
    /// The script whose blocks are written. It is only read.
    pub script: &'a Script,
    /// The stream. Offsets are positions in it.
    pub out: Vec<u8>,
    /// For each block the offset at which it was written, or `0` for a
    /// block that is not in the stream yet.
    pub offsets: Vec<Ip>,
    /// For each block the number of references that lead to it.
    pub incoming: Vec<usize>,
    /// How many bytes the stream held when the writer was made.
    pub base: usize,
}

impl<'a> ScriptWriter<'a> {
    /// Whether the writer's bookkeeping is sound: every block with an
    /// offset stands in the stream at that offset, and so does every block
    /// that it refers to; and the blocks in the stream lie apart.
    pub open spec fn wf(&self) -> bool {
        &&& spec_consistent(self.script@)
        &&& self.offsets@.len() == self.script@.len()
        &&& self.incoming@.len() == self.script@.len()
        &&& forall|b: int|
            0 <= b < self.script@.len() ==> #[trigger] self.incoming@[b] == spec_clip(
                spec_incoming(self.script@, b),
            )
        &&& forall|b: int|
            0 <= b < self.script@.len() && #[trigger] self.offsets@[b] != 0 ==> spec_block_written(
                self.script@,
                self.offsets@,
                self.out@,
                b,
            ) && spec_refs_written(self.script@, self.offsets@, b)
        &&& self.out@.len() + spec_unplaced_size(
            self.script@,
            spec_written_mask(self.offsets@),
            self.script@.len() as int,
        ) <= self.base + spec_script_size(self.script@)
        &&& spec_stored_apart(self.script@, self.offsets@)
    }

    /// Starts writing blocks of `script` at the end of `out`. Every
    /// reference in the script must lead to a block of the script and to
    /// one of the right kind.
    pub fn new(script: &'a Script, out: Vec<u8>) -> (writer: ScriptWriter<'a>)
        requires
            spec_consistent(script@),
        ensures
            writer.wf(),
            writer.script == script,
            writer.out@ == out@,
            writer.base == out@.len(),
            forall|b: int| 0 <= b < script@.len() ==> writer.offsets@[b] == 0,
    {
        let incoming = incoming_counts(script);
        let n = script.blocks.len();
        let mut offsets: Vec<Ip> = Vec::new();
        let mut i: usize = 0;
        while i < n
            invariant
                i <= n,
                offsets@.len() == i,
                forall|j: int| 0 <= j < i ==> offsets@[j] == 0,
            decreases n - i,
        {
            offsets.push(0);
            i += 1;
        }
        let base = out.len();
        proof {
            lemma_unplaced_all(script@, spec_written_mask(offsets@), script@.len() as int);
        }
        ScriptWriter { script, out, offsets, incoming, base }
    }

    /// Whether this state and `offset` are what writing the subroutine at
    /// `entry` made of the state `before`: the entry is a code block that
    /// stands at `offset`, which is not `0`; what was in the stream is
    /// still there, and so is every offset; and an entry that was in the
    /// stream already changed nothing.
    pub open spec fn spec_wrote(&self, before: &ScriptWriter<'a>, entry: BlockId, offset: Ip) -> bool {
        &&& self.wf()
        &&& self.script == before.script
        &&& self.base == before.base
        &&& self.out@.len() >= before.out@.len()
        &&& self.out@.subrange(0, before.out@.len() as int) == before.out@
        &&& forall|b: int|
            0 <= b < before.script@.len() && before.offsets@[b] != 0 ==> self.offsets@[b]
                == before.offsets@[b]
        &&& offset != 0
        &&& offset == self.offsets@[entry.index as int]
        &&& before.script@[entry.index as int] is Code
        &&& before.offsets@[entry.index as int] != 0 ==> self.out@ == before.out@ && self.offsets@
            == before.offsets@
        &&& before.offsets@[entry.index as int] == 0 ==> offset == before.out@.len()
        &&& before.offsets@[entry.index as int] == 0 ==> exists|order: Seq<usize>| #[trigger]
            Self::spec_laid_out(before, self, entry.index as int, order)
    }

    /// Whether this state came from `before` by appending the blocks of
    /// `order`, which are those that the subroutine at `entry` needs and
    /// that had no offset: first its code blocks, then its data blocks,
    /// one right behind the other and nothing else.
    pub open spec fn spec_laid_out(
        before: &ScriptWriter<'a>,
        after: &ScriptWriter<'a>,
        entry: int,
        order: Seq<usize>,
    ) -> bool {
        &&& spec_planned(
            before.script@,
            before.offsets@,
            before.incoming@,
            before.out@.len() as int,
            entry,
            order,
            after.offsets@,
        )
        &&& after.out@.len() == before.out@.len() + spec_layout_len(
            before.script@,
            order,
            before.incoming@,
            true,
            order.len() as int,
        ) + spec_layout_len(before.script@, order, before.incoming@, false, order.len() as int)
    }

    /// Writing the same subroutine twice gives the same offset both times,
    /// and the second time nothing is added to the stream: it holds the
    /// subroutine once.
    pub proof fn lemma_write_twice(
        a: &ScriptWriter<'a>,
        b: &ScriptWriter<'a>,
        c: &ScriptWriter<'a>,
        entry: BlockId,
        first: Ip,
        second: Ip,
    )
        requires
            entry.index < a.script@.len(),
            b.spec_wrote(a, entry, first),
            c.spec_wrote(b, entry, second),
        ensures
            first == second,
            c.out@ == b.out@,
            c.offsets@ == b.offsets@,
    {
    }

    /// Writes the subroutine that starts at `entry` and returns the offset
    /// of its first block. The identifier must come from the writer's
    /// script.
    ///
    /// An entry that is in the stream already is not written again: its
    /// offset is returned and the stream stays as it is. Otherwise every
    /// block that can be reached from the entry and is not in the stream yet
    /// is appended, the code blocks in front of the data blocks and each
    /// kind in the order in which a depth-first walk from the entry meets
    /// them, one right behind the other, and every reference is written as
    /// the offset of the block referred to.
    ///
    /// The offset `0` stands for "no event" and is never returned. Writing
    /// fails, and changes nothing, where the entry is a data block, where
    /// the stream is empty, so that the entry would get the offset `0`, or
    /// where a new block would start beyond the 32-bit range or a data
    /// block is too long for its length field, and only there; none of the
    /// last can happen where the stream that the writer started with and
    /// all blocks of the script together stay within that range.
    pub fn write_subroutine(&mut self, entry: BlockId) -> (r: Result<Ip, Error>)
        requires
            old(self).wf(),
            entry.index < old(self).script@.len(),
        ensures
            final(self).wf(),
            final(self).script == old(self).script,
            final(self).incoming == old(self).incoming,
            final(self).base == old(self).base,
            final(self).out@.len() >= old(self).out@.len(),
            final(self).out@.subrange(0, old(self).out@.len() as int) == old(self).out@,
            forall|b: int|
                0 <= b < old(self).script@.len() && old(self).offsets@[b] != 0
                    ==> final(self).offsets@[b] == old(self).offsets@[b],
            forall|b: int|
                0 <= b < old(self).script@.len() && old(self).offsets@[b] == 0
                    && final(self).offsets@[b] != 0 ==> final(self).offsets@[b] >= old(self).out@.len()
                    && spec_reachable(old(self).script@, set![entry.index as int], b),
            match r {
                Ok(offset) => final(self).spec_wrote(old(self), entry, offset),
                Err(e) => {
                    &&& e == Error::InvalidHeader
                    &&& final(self).out@ == old(self).out@
                    &&& final(self).offsets@ == old(self).offsets@
                    &&& {
                        ||| old(self).script@[entry.index as int] is Data
                        ||| old(self).offsets@[entry.index as int] == 0 && (old(self).out@.len() == 0
                            || old(self).base + spec_script_size(old(self).script@) > u32::MAX)
                    }
                    &&& {
                        ||| old(self).script@[entry.index as int] is Data
                        ||| old(self).offsets@[entry.index as int] == 0 && {
                            ||| old(self).out@.len() == 0
                            ||| old(self).out@.len() > u32::MAX
                            ||| spec_overflows(
                                old(self).script@,
                                spec_discovery(
                                    old(self).script@,
                                    spec_written_mask(old(self).offsets@),
                                    seq![entry.index],
                                ),
                                old(self).incoming@,
                                old(self).out@.len() as int,
                            )
                        }
                    }
                },
            },
    {
        let script = self.script;
        if !script.blocks[entry.index].is_code() {
            return Err(Error::InvalidHeader);
        }
        if self.offsets[entry.index] != 0 {
            assert(self.out@.subrange(0, self.out@.len() as int) =~= self.out@);
            return Ok(self.offsets[entry.index]);
        }
        let base = self.out.len();
        if base == 0 || base > 0xffff_ffff {
            return Err(Error::InvalidHeader);
        }
        let (order, table) = match plan(script, &self.offsets, &self.incoming, base, entry.index) {
            Ok(planned) => planned,
            Err(e) => {
                return Err(e);
            },
        };
        let ghost old_out = self.out@;
        let ghost old_offsets = self.offsets@;
        emit_pass(script, &order, &table, &self.incoming, true, &mut self.out);
        let ghost mid_out = self.out@;
        emit_pass(script, &order, &table, &self.incoming, false, &mut self.out);
        self.offsets = table;
        proof {
            lemma_plan_written(
                script@,
                old_offsets,
                old_out,
                self.incoming@,
                entry.index as int,
                order@,
                self.offsets@,
                mid_out,
                self.out@,
            );
            lemma_plan_apart(
                script@,
                old_offsets,
                old_out,
                self.incoming@,
                entry.index as int,
                order@,
                self.offsets@,
            );
            assert(order@[0] == entry.index);
            assert(self.offsets@[order@[0] as int] == spec_position(
                script@,
                order@,
                self.incoming@,
                old_out.len() as int,
                0,
            ));
            assert(Self::spec_laid_out(old(self), self, entry.index as int, order@));
        }
        Ok(self.offsets[entry.index])
    }

    /// The offset at which the block was written, if it was.
    pub fn offset_of(&self, id: BlockId) -> (r: Option<Ip>)
        requires
            self.wf(),
        ensures
            r == (if id.index < self.script@.len() && self.offsets@[id.index as int] != 0 {
                Some(self.offsets@[id.index as int])
            } else {
                None
            }),
    {
        if id.index < self.offsets.len() && self.offsets[id.index] != 0 {
            Some(self.offsets[id.index])
        } else {
            None
        }
    }

    /// How many bytes the stream holds.
    pub fn position(&self) -> (n: usize)
        ensures
            n == self.out@.len(),
    {
        self.out.len()
    }

    /// Ends the session and hands the stream back. Nothing is added to it:
    /// whoever called keeps the returned offsets in tables of their own.
    pub fn finish(self) -> (out: Vec<u8>)
        ensures
            out@ == self.out@,
    {
        self.out
    }
}

/// Whether a jump stands in the stream behind the commands of the block
/// with index `i`, which falls through.
pub open spec fn spec_jump_written(s: Seq<BlockView>, offsets: Seq<Ip>, out: Seq<u8>, i: int) -> bool {
    let end = offsets[i] + spec_commands_bytes(s[i]->commands, offsets).len();
    s[i]->terminator is Fallthrough && spec_holds_at(
        out,
        end,
        spec_end_bytes(s[i]->terminator, offsets, false),
    )
}

/// The commands that the stream holds from the offset of the written block
/// with index `i` up to the next transfer of control: the commands of the
/// block and, where the next block follows it without a jump, those of
/// the blocks that follow, each reference written as the offset of the
/// block referred to. At most `fuel` blocks are followed.
pub open spec fn spec_flat_written(
    s: Seq<BlockView>,
    offsets: Seq<Ip>,
    out: Seq<u8>,
    i: int,
    fuel: nat,
) -> Seq<Command<Ip>>
    decreases fuel,
{
    let own = spec_lower_commands(s[i]->commands, offsets);
    match s[i]->terminator {
        Terminator::Fallthrough(id) => if fuel > 0 && !spec_jump_written(s, offsets, out, i) {
            own + spec_flat_written(s, offsets, out, id.index as int, (fuel - 1) as nat)
        } else {
            own
        },
        _ => own,
    }
}

/// How control is transferred behind those commands: as the terminator of
/// the last block says, each block written as its offset, or by the jump
/// that was written for a block that falls through.
pub open spec fn spec_flat_written_end(
    s: Seq<BlockView>,
    offsets: Seq<Ip>,
    out: Seq<u8>,
    i: int,
    fuel: nat,
) -> Terminator<Ip>
    decreases fuel,
{
    match s[i]->terminator {
        Terminator::Fallthrough(id) => if spec_jump_written(s, offsets, out, i) {
            Terminator::Jump(spec_offset_of(id, offsets))
        } else if fuel > 0 {
            spec_flat_written_end(s, offsets, out, id.index as int, (fuel - 1) as nat)
        } else {
            spec_lower_terminator(s[i]->terminator, offsets)
        },
        t => spec_lower_terminator(t, offsets),
    }
}

/// Where the bytes of a run of commands stand at `at`, the stream holds
/// from `at` on these commands, each reference written as an offset, and
/// then what stands behind them.
pub proof fn lemma_commands_run(
    out: Seq<u8>,
    at: int,
    commands: Seq<Command<BlockId>>,
    offsets: Seq<Ip>,
)
    requires
        spec_holds_at(out, at, spec_commands_bytes(commands, offsets)),
    ensures
        ({
            let end = at + spec_commands_bytes(commands, offsets).len();
            &&& spec_run(out, at) == spec_lower_commands(commands, offsets) + spec_run(out, end)
            &&& spec_run_end(out, at) == spec_run_end(out, end)
            &&& commands.len() > 0 ==> at < end
        }),
    decreases commands.len(),
{
    let lowered = spec_lower_commands(commands, offsets);
    let end = at + spec_commands_bytes(commands, offsets).len();
    if commands.len() == 0 {
        assert(lowered + spec_run(out, end) =~= spec_run(out, end));
    } else {
        let front = commands.drop_last();
        let last = spec_lower_command(commands.last(), offsets);
        let front_bytes = spec_commands_bytes(front, offsets);
        lemma_holds_split(out, at, front_bytes, spec_command_bytes(last));
        lemma_commands_run(out, at, front, offsets);
        let mid = at + front_bytes.len();
        lemma_parse_written_command(out, mid, last);
        lemma_parse_op_advances(out, mid);
        assert(spec_run(out, mid) == seq![last] + spec_run(out, end));
        assert(spec_lower_commands(front, offsets) + (seq![last] + spec_run(out, end)) =~= lowered
            + spec_run(out, end));
    }
}

/// What the writer put into the stream is what it was given: from the
/// offset of a written block on, the stream holds the block's commands,
/// then those of the block that follows without a jump, and so on, and
/// behind them the instruction that transfers control as the block's
/// terminator says; the operands of every command and of that instruction
/// are the offsets of the blocks referred to. Blocks that fall through
/// must have a command.
pub proof fn lemma_written_is_run(
    s: Seq<BlockView>,
    offsets: Seq<Ip>,
    out: Seq<u8>,
    i: int,
    fuel: nat,
)
    requires
        spec_consistent(s),
        offsets.len() == s.len(),
        forall|b: int|
            0 <= b < s.len() && #[trigger] offsets[b] != 0 ==> spec_block_written(s, offsets, out, b)
                && spec_refs_written(s, offsets, b),
        forall|b: int|
            0 <= b < s.len() && (#[trigger] s[b]) is Code && s[b]->terminator is Fallthrough
                ==> s[b]->commands.len() > 0,
        0 <= i < s.len(),
        s[i] is Code,
        offsets[i] != 0,
        fuel >= out.len() - offsets[i],
    ensures
        spec_flat_written(s, offsets, out, i, fuel) == spec_run(out, offsets[i] as int),
        !(spec_flat_written_end(s, offsets, out, i, fuel) is Fallthrough),
        spec_parse_op(out, spec_run_end(out, offsets[i] as int)) matches Ok((op, _)) && op
            == Op::Control(spec_flat_written_end(s, offsets, out, i, fuel)),
    decreases fuel,
{
    let commands = s[i]->commands;
    let terminator = s[i]->terminator;
    let lowered = spec_lower_commands(commands, offsets);
    let at = offsets[i] as int;
    let end = at + spec_commands_bytes(commands, offsets).len();
    assert(spec_block_written(s, offsets, out, i));
    assert(spec_block_consistent(s, s[i]));
    lemma_commands_run(out, at, commands, offsets);
    match terminator {
        Terminator::Fallthrough(id) => {
            if spec_jump_written(s, offsets, out, i) {
                let jump = Terminator::Jump(spec_offset_of(id, offsets));
                lemma_parse_written_terminator(out, end, jump);
                lemma_parse_op_advances(out, end);
                assert(lowered + Seq::<Command<Ip>>::empty() =~= lowered);
            } else {
                assert(spec_edge(s, i, id.index as int));
                assert(s[i]->commands.len() > 0);
                lemma_written_is_run(s, offsets, out, id.index as int, (fuel - 1) as nat);
            }
        },
        t => {
            lemma_parse_written_terminator(out, end, spec_lower_terminator(t, offsets));
            lemma_parse_op_advances(out, end);
            assert(lowered + Seq::<Command<Ip>>::empty() =~= lowered);
        },
    }
}

/// Where the instruction at place `k` of the written block with index `b`
/// stands: behind the block's first `k` commands.
pub open spec fn spec_place(s: Seq<BlockView>, offsets: Seq<Ip>, b: int, k: int) -> int {
    offsets[b] + spec_commands_bytes(s[b]->commands.subrange(0, k), offsets).len()
}

/// Whether an instruction of a written code block stands at `at`: one of
/// the block's commands, or the instruction that ends it, unless the block
/// runs on into the next without one.
pub open spec fn spec_written_at(s: Seq<BlockView>, offsets: Seq<Ip>, out: Seq<u8>, at: int) -> bool {
    exists|b: int, k: int|
        0 <= b < s.len() && s[b] is Code && offsets[b] != 0 && 0 <= k <= s[b]->commands.len()
            && at == #[trigger] spec_place(s, offsets, b, k) && (k == s[b]->commands.len() ==> !(
        s[b]->terminator is Fallthrough) || spec_jump_written(s, offsets, out, b))
}

/// Where the bytes of a run of commands stand at `at`, the command at
/// place `k` is what the stream holds behind the first `k` commands, each
/// reference written as an offset.
pub proof fn lemma_command_at(
    out: Seq<u8>,
    at: int,
    commands: Seq<Command<BlockId>>,
    offsets: Seq<Ip>,
    k: int,
)
    requires
        spec_holds_at(out, at, spec_commands_bytes(commands, offsets)),
        0 <= k < commands.len(),
    ensures
        spec_parse_op(
            out,
            at + spec_commands_bytes(commands.subrange(0, k), offsets).len(),
        ) == Ok::<(Op<Ip>, int), Error>(
            (
                Op::Command(spec_lower_command(commands[k], offsets)),
                at + spec_commands_bytes(commands.subrange(0, k + 1), offsets).len(),
            ),
        ),
    decreases commands.len(),
{
    let front = commands.drop_last();
    let last = spec_lower_command(commands.last(), offsets);
    let front_bytes = spec_commands_bytes(front, offsets);
    lemma_holds_split(out, at, front_bytes, spec_command_bytes(last));
    if k < commands.len() - 1 {
        lemma_command_at(out, at, front, offsets, k);
        assert(front.subrange(0, k) =~= commands.subrange(0, k));
        assert(front.subrange(0, k + 1) =~= commands.subrange(0, k + 1));
    } else {
        assert(commands.subrange(0, k) =~= front);
        assert(commands.subrange(0, k + 1) =~= commands);
        lemma_parse_written_command(out, at + front_bytes.len(), last);
    }
}

/// The first instruction of a written code block stands where the block
/// starts. Blocks that fall through must have a command.
pub proof fn lemma_start_written(s: Seq<BlockView>, offsets: Seq<Ip>, out: Seq<u8>, b: int)
    requires
        0 <= b < s.len(),
        s[b] is Code,
        offsets[b] != 0,
        s[b]->terminator is Fallthrough ==> s[b]->commands.len() > 0,
    ensures
        spec_written_at(s, offsets, out, offsets[b] as int),
{
    assert(s[b]->commands.subrange(0, 0) =~= Seq::<Command<BlockId>>::empty());
    assert(spec_place(s, offsets, b, 0) == offsets[b]);
}

/// An instruction of a written block parses, the data block of a message
/// is there in full, and what the instruction leads to is an instruction of
/// a written block too. Blocks that fall through must have a command.
pub proof fn lemma_written_step(s: Seq<BlockView>, offsets: Seq<Ip>, out: Seq<u8>, at: int)
    requires
        spec_consistent(s),
        offsets.len() == s.len(),
        forall|b: int|
            0 <= b < s.len() && #[trigger] offsets[b] != 0 ==> spec_block_written(s, offsets, out, b)
                && spec_refs_written(s, offsets, b),
        forall|b: int|
            0 <= b < s.len() && (#[trigger] s[b]) is Code && s[b]->terminator is Fallthrough
                ==> s[b]->commands.len() > 0,
        spec_written_at(s, offsets, out, at),
    ensures
        forall|e: Error| !spec_fails_at(out, at, e),
        forall|to: int| spec_leads(out, at, to) ==> spec_written_at(s, offsets, out, to),
{
    let (b, k) = choose|b: int, k: int|
        0 <= b < s.len() && s[b] is Code && offsets[b] != 0 && 0 <= k <= s[b]->commands.len() && at
            == #[trigger] spec_place(s, offsets, b, k) && (k == s[b]->commands.len() ==> !(
        s[b]->terminator is Fallthrough) || spec_jump_written(s, offsets, out, b));
    let commands = s[b]->commands;
    let terminator = s[b]->terminator;
    let n = commands.len() as int;
    assert(spec_block_written(s, offsets, out, b));
    assert(spec_block_consistent(s, s[b]));
    assert(commands.subrange(0, n) =~= commands);
    let end = offsets[b] + spec_commands_bytes(commands, offsets).len();
    if k < n {
        lemma_command_at(out, offsets[b] as int, commands, offsets, k);
        let next = spec_place(s, offsets, b, k + 1);
        assert(spec_command_consistent(s, commands[k]));
        match commands[k] {
            Command::Msg(id) => {
                assert(spec_edge(s, b, id.index as int));
                let d = id.index as int;
                assert(spec_block_written(s, offsets, out, d));
                let bytes = s[d]->bytes;
                lemma_holds_split(out, offsets[d] as int, spec_bytes_u32_le(bytes.len() as u32), bytes);
                lemma_read_held_u32_le(out, offsets[d] as int, bytes.len() as u32);
            },
            _ => {},
        }
        assert forall|to: int| spec_leads(out, at, to) implies spec_written_at(s, offsets, out, to) by {
            if to == next {
                if k + 1 < n || !(terminator is Fallthrough) || spec_jump_written(s, offsets, out, b) {
                    assert(to == spec_place(s, offsets, b, k + 1));
                } else {
                    let t = terminator->Fallthrough_0;
                    assert(spec_edge(s, b, t.index as int));
                    assert(offsets[t.index as int] == end);
                    lemma_start_written(s, offsets, out, t.index as int);
                }
            } else {
                match commands[k] {
                    Command::Call(id) => {
                        assert(spec_edge(s, b, id.index as int));
                        lemma_start_written(s, offsets, out, id.index as int);
                    },
                    _ => {},
                }
            }
        }
    } else {
        match terminator {
            Terminator::Fallthrough(id) => {
                assert(spec_edge(s, b, id.index as int));
                let jump = Terminator::Jump(spec_offset_of(id, offsets));
                lemma_parse_written_terminator(out, end, jump);
                lemma_start_written(s, offsets, out, id.index as int);
            },
            Terminator::Jump(id) => {
                assert(spec_edge(s, b, id.index as int));
                lemma_parse_written_terminator(out, end, spec_lower_terminator(terminator, offsets));
                lemma_start_written(s, offsets, out, id.index as int);
            },
            Terminator::Branch { condition, if_true, if_false } => {
                assert(spec_edge(s, b, if_true.index as int));
                assert(spec_edge(s, b, if_false.index as int));
                lemma_parse_written_terminator(out, end, spec_lower_terminator(terminator, offsets));
                lemma_start_written(s, offsets, out, if_true.index as int);
                lemma_start_written(s, offsets, out, if_false.index as int);
            },
            t => {
                lemma_parse_written_terminator(out, end, spec_lower_terminator(t, offsets));
            },
        }
    }
}

/// What the writer put into the stream can be decoded: every instruction
/// that the written events lead to parses, and every data block of a
/// message is there in full. Blocks that fall through must have a command.
pub proof fn lemma_written_decodes(
    s: Seq<BlockView>,
    offsets: Seq<Ip>,
    out: Seq<u8>,
    roots: Set<int>,
    at: int,
    e: Error,
)
    requires
        spec_consistent(s),
        offsets.len() == s.len(),
        forall|b: int|
            0 <= b < s.len() && #[trigger] offsets[b] != 0 ==> spec_block_written(s, offsets, out, b)
                && spec_refs_written(s, offsets, b),
        forall|b: int|
            0 <= b < s.len() && (#[trigger] s[b]) is Code && s[b]->terminator is Fallthrough
                ==> s[b]->commands.len() > 0,
        forall|r: int| #[trigger]
            roots.contains(r) ==> exists|b: int|
                0 <= b < s.len() && s[b] is Code && #[trigger] offsets[b] != 0 && offsets[b] == r,
        spec_demanded(out, roots, at),
    ensures
        !spec_fails_at(out, at, e),
{
    let path = choose|path: Seq<int>| #[trigger]
        spec_trail(out, path) && roots.contains(path[0]) && path.last() == at;
    lemma_trail_written(s, offsets, out, roots, path, path.len() - 1);
    lemma_written_step(s, offsets, out, at);
}

/// Along a way from a written event, every offset holds an instruction of
/// a written block.
proof fn lemma_trail_written(
    s: Seq<BlockView>,
    offsets: Seq<Ip>,
    out: Seq<u8>,
    roots: Set<int>,
    path: Seq<int>,
    upto: int,
)
    requires
        spec_consistent(s),
        offsets.len() == s.len(),
        forall|b: int|
            0 <= b < s.len() && #[trigger] offsets[b] != 0 ==> spec_block_written(s, offsets, out, b)
                && spec_refs_written(s, offsets, b),
        forall|b: int|
            0 <= b < s.len() && (#[trigger] s[b]) is Code && s[b]->terminator is Fallthrough
                ==> s[b]->commands.len() > 0,
        forall|r: int| #[trigger]
            roots.contains(r) ==> exists|b: int|
                0 <= b < s.len() && s[b] is Code && #[trigger] offsets[b] != 0 && offsets[b] == r,
        spec_trail(out, path),
        roots.contains(path[0]),
        0 <= upto < path.len(),
    ensures
        spec_written_at(s, offsets, out, path[upto]),
    decreases upto,
{
    if upto == 0 {
        let b = choose|b: int|
            0 <= b < s.len() && s[b] is Code && #[trigger] offsets[b] != 0 && offsets[b] == path[0];
        lemma_start_written(s, offsets, out, b);
    } else {
        lemma_trail_written(s, offsets, out, roots, path, upto - 1);
        lemma_written_step(s, offsets, out, path[upto - 1]);
        assert(spec_leads(out, path[upto - 1], path[upto - 1 + 1]));
    }
}

/// Whether the written block with index `b` runs on into the block that
/// it falls through to: that block stands right behind its commands, and
/// nothing else leads there.
pub open spec fn spec_runs_on(s: Seq<BlockView>, offsets: Seq<Ip>, b: int) -> bool {
    s[b] matches BlockView::Code { commands, terminator } && (terminator matches Terminator::Fallthrough(id)
        && offsets[id.index as int] == offsets[b] + spec_commands_bytes(commands, offsets).len()
        && spec_incoming(s, id.index as int) < 2)
}

/// The offset behind the bytes of the written block with index `b`: behind
/// its commands where it runs on into the next block, else behind the
/// instruction that ends it; for a data block, behind its payload.
pub open spec fn spec_stored_end(s: Seq<BlockView>, offsets: Seq<Ip>, b: int) -> int {
    match s[b] {
        BlockView::Code { commands, terminator } => offsets[b] + spec_commands_bytes(commands, offsets).len()
            + if spec_runs_on(s, offsets, b) {
            0
        } else {
            spec_end_bytes(terminator, offsets, false).len() as int
        },
        BlockView::Data { bytes } => offsets[b] + 4 + bytes.len(),
    }
}

/// Whether the written blocks lie apart: of two blocks with an offset, one
/// ends where the other starts or in front of it.
pub open spec fn spec_stored_apart(s: Seq<BlockView>, offsets: Seq<Ip>) -> bool {
    forall|x: int, y: int|
        0 <= x < s.len() && 0 <= y < s.len() && x != y && offsets[x] != 0 && offsets[y] != 0
            ==> #[trigger] spec_stored_end(s, offsets, x) <= offsets[y] || #[trigger] spec_stored_end(
            s,
            offsets,
            y,
        ) <= offsets[x]
}

/// Whether `out` holds every block of `s` that has an offset, and each
/// block that falls through has a command.
pub open spec fn spec_stream_written(s: Seq<BlockView>, offsets: Seq<Ip>, out: Seq<u8>) -> bool {
    &&& spec_consistent(s)
    &&& offsets.len() == s.len()
    &&& forall|b: int|
        0 <= b < s.len() && #[trigger] offsets[b] != 0 ==> spec_block_written(s, offsets, out, b)
            && spec_refs_written(s, offsets, b)
    &&& forall|b: int|
        0 <= b < s.len() && (#[trigger] s[b]) is Code && s[b]->terminator is Fallthrough
            ==> s[b]->commands.len() > 0
}

/// The first commands of a run take no more bytes than the whole run.
pub proof fn lemma_prefix_fits(commands: Seq<Command<BlockId>>, offsets: Seq<Ip>, k: int)
    requires
        0 <= k <= commands.len(),
    ensures
        spec_commands_bytes(commands.subrange(0, k), offsets).len() <= spec_commands_bytes(
            commands,
            offsets,
        ).len(),
    decreases commands.len(),
{
    if k == commands.len() {
        assert(commands.subrange(0, k) =~= commands);
    } else {
        let front = commands.drop_last();
        assert(front.subrange(0, k) =~= commands.subrange(0, k));
        lemma_prefix_fits(front, offsets, k);
    }
}

/// An instruction of a written block stands inside the block's bytes, and
/// those inside the stream.
pub proof fn lemma_place_inside(s: Seq<BlockView>, offsets: Seq<Ip>, out: Seq<u8>, b: int, k: int)
    requires
        0 <= b < s.len(),
        offsets.len() == s.len(),
        s[b] is Code,
        offsets[b] != 0,
        spec_block_written(s, offsets, out, b),
        0 <= k <= s[b]->commands.len(),
        k == s[b]->commands.len() ==> !spec_runs_on(s, offsets, b),
    ensures
        offsets[b] <= spec_place(s, offsets, b, k) < spec_stored_end(s, offsets, b),
        k < s[b]->commands.len() ==> spec_place(s, offsets, b, k) < spec_place(s, offsets, b, k + 1)
            <= offsets[b] + spec_commands_bytes(s[b]->commands, offsets).len(),
        spec_stored_end(s, offsets, b) <= out.len(),
{
    let commands = s[b]->commands;
    let terminator = s[b]->terminator;
    let end = offsets[b] + spec_commands_bytes(commands, offsets).len();
    if k < commands.len() {
        lemma_command_at(out, offsets[b] as int, commands, offsets, k);
        lemma_parse_op_advances(out, spec_place(s, offsets, b, k));
        lemma_prefix_fits(commands, offsets, k + 1);
    } else {
        assert(commands.subrange(0, k) =~= commands);
    }
    if !spec_runs_on(s, offsets, b) {
        match terminator {
            Terminator::Fallthrough(id) => {
                lemma_parse_written_terminator(out, end, Terminator::Jump(spec_offset_of(id, offsets)));
            },
            t => {
                lemma_parse_written_terminator(out, end, spec_lower_terminator(t, offsets));
            },
        }
        lemma_parse_op_advances(out, end);
    }
}

/// Where an instruction of a written block stands, a written code block
/// holds that offset among its bytes.
pub proof fn lemma_written_inside(s: Seq<BlockView>, offsets: Seq<Ip>, out: Seq<u8>, at: int) -> (b: int)
    requires
        spec_stream_written(s, offsets, out),
        spec_written_at(s, offsets, out, at),
    ensures
        0 <= b < s.len(),
        s[b] is Code,
        offsets[b] != 0,
        offsets[b] <= at < spec_stored_end(s, offsets, b),
{
    let (b, k) = choose|b: int, k: int|
        0 <= b < s.len() && s[b] is Code && offsets[b] != 0 && 0 <= k <= s[b]->commands.len() && at
            == #[trigger] spec_place(s, offsets, b, k) && (k == s[b]->commands.len() ==> !(
        s[b]->terminator is Fallthrough) || spec_jump_written(s, offsets, out, b));
    assert(spec_block_written(s, offsets, out, b));
    assert(spec_block_consistent(s, s[b]));
    if k == s[b]->commands.len() && spec_runs_on(s, offsets, b) {
        let id = s[b]->terminator->Fallthrough_0;
        let t = id.index as int;
        assert(s[b]->commands.subrange(0, k) =~= s[b]->commands);
        assert(offsets[t] == at);
        assert(spec_block_written(s, offsets, out, t));
        assert(s[t]->commands.subrange(0, 0) =~= Seq::<Command<BlockId>>::empty());
        assert(spec_place(s, offsets, t, 0) == offsets[t]);
        lemma_place_inside(s, offsets, out, t, 0);
        t
    } else {
        lemma_place_inside(s, offsets, out, b, k);
        b
    }
}

/// Where a command stands at an instruction of a written block, it is a
/// command of that block, and it ends where the block's next instruction
/// starts.
pub proof fn lemma_written_command(s: Seq<BlockView>, offsets: Seq<Ip>, out: Seq<u8>, at: int) -> (r: (
    int,
    int,
))
    requires
        spec_stream_written(s, offsets, out),
        spec_written_at(s, offsets, out, at),
        spec_parse_op(out, at) matches Ok((op, _)) && op is Command,
    ensures
        0 <= r.0 < s.len(),
        s[r.0] is Code,
        offsets[r.0] != 0,
        0 <= r.1 < s[r.0]->commands.len(),
        at == spec_place(s, offsets, r.0, r.1),
        spec_parse_op(out, at) == Ok::<(Op<Ip>, int), Error>(
            (
                Op::Command(spec_lower_command(s[r.0]->commands[r.1], offsets)),
                spec_place(s, offsets, r.0, r.1 + 1),
            ),
        ),
{
    let (b, k) = choose|b: int, k: int|
        0 <= b < s.len() && s[b] is Code && offsets[b] != 0 && 0 <= k <= s[b]->commands.len() && at
            == #[trigger] spec_place(s, offsets, b, k) && (k == s[b]->commands.len() ==> !(
        s[b]->terminator is Fallthrough) || spec_jump_written(s, offsets, out, b));
    let commands = s[b]->commands;
    let end = offsets[b] + spec_commands_bytes(commands, offsets).len();
    assert(spec_block_written(s, offsets, out, b));
    if k == commands.len() {
        assert(commands.subrange(0, k) =~= commands);
        match s[b]->terminator {
            Terminator::Fallthrough(id) => {
                lemma_parse_written_terminator(out, end, Terminator::Jump(spec_offset_of(id, offsets)));
            },
            t => {
                lemma_parse_written_terminator(out, end, spec_lower_terminator(t, offsets));
            },
        }
        assert(false);
    }
    lemma_command_at(out, offsets[b] as int, commands, offsets, k);
    (b, k)
}

/// Every instruction that the written events lead to is an instruction of
/// a written block.
pub proof fn lemma_demanded_written(
    s: Seq<BlockView>,
    offsets: Seq<Ip>,
    out: Seq<u8>,
    roots: Set<int>,
    at: int,
)
    requires
        spec_stream_written(s, offsets, out),
        forall|r: int| #[trigger]
            roots.contains(r) ==> exists|b: int|
                0 <= b < s.len() && s[b] is Code && #[trigger] offsets[b] != 0 && offsets[b] == r,
        spec_demanded(out, roots, at),
    ensures
        spec_written_at(s, offsets, out, at),
{
    let path = choose|path: Seq<int>| #[trigger]
        spec_trail(out, path) && roots.contains(path[0]) && path.last() == at;
    lemma_trail_written(s, offsets, out, roots, path, path.len() - 1);
}

} // verus!
