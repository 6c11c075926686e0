//! What holds of writing and reading together.

use crate::error::Error;
use crate::event::analysis::{
    spec_command_targets, spec_edge, spec_path, spec_reachable, spec_terminator_targets,
};
use crate::event::block::{BlockId, BlockView, Ip};
use crate::event::command::{
    lemma_parse_op_advances, lemma_parse_written_terminator, spec_lower_command,
    spec_lower_commands, spec_lower_terminator, Command, Terminator,
};
use crate::event::reader::{
    lemma_cut, lemma_flat_is_run, lemma_target_starts, lemma_two_blocks, spec_block_ok,
    spec_collides, spec_command_ok, spec_data_demanded, spec_demanded, spec_fails_at, spec_flat,
    spec_flat_end, spec_inv, spec_jumps, spec_merges, spec_msg_at, spec_overlong_at,
    spec_parse_data, spec_runs_into, spec_settled, spec_starts, spec_targeted, ScriptReader,
    SpanView,
};
use crate::event::script::{spec_block_consistent, spec_command_consistent, spec_consistent};
use crate::event::writer::{
    lemma_command_at, lemma_demanded_written, lemma_place_inside, lemma_prefix_fits,
    lemma_written_command, lemma_written_inside, lemma_written_is_run, lemma_written_step,
    spec_block_written, spec_commands_bytes, spec_flat_written, spec_flat_written_end,
    spec_jump_written, spec_place, spec_refs_written, spec_stored_apart, spec_stored_end,
    spec_stream_written,
};
use crate::wire::{lemma_holds_split, lemma_read_held_u32_le, spec_bytes_u32_le};
use vstd::prelude::*;

verus! {

/// Decoding what was encoded gives the graph that was encoded.
///
/// Take a script `written`, of which the writer put blocks into the stream
/// `out` at `offsets`, and a script `read` that the reader decoded from
/// `out`, its blocks standing at `spans`. Then a decoded block that starts
/// at the offset of a written block runs the same commands up to the next
/// transfer of control, and control is transferred in the same way to the
/// same offsets. So the decoded graph has the shape of the written one,
/// with the offset of a written block for the start of a decoded one, up
/// to blocks that fall through: those may be cut differently, or end with
/// a jump. Identifiers and offsets need not be those of an earlier
/// decoding. Written blocks that fall through must have a command.
pub proof fn lemma_round_trip(
    out: Seq<u8>,
    written: Seq<BlockView>,
    offsets: Seq<Ip>,
    read: Seq<BlockView>,
    spans: Seq<SpanView>,
    covered: Set<int>,
    roots: Set<int>,
    b: int,
    i: int,
    fuel: nat,
)
    requires
        spec_consistent(written),
        offsets.len() == written.len(),
        forall|x: int|
            0 <= x < written.len() && #[trigger] offsets[x] != 0 ==> spec_block_written(
                written,
                offsets,
                out,
                x,
            ) && spec_refs_written(written, offsets, x),
        forall|x: int|
            0 <= x < written.len() && (#[trigger] written[x]) is Code
                && written[x]->terminator is Fallthrough ==> written[x]->commands.len() > 0,
        0 <= b < written.len(),
        written[b] is Code,
        offsets[b] != 0,
        spec_inv(out, read, spans, covered, roots, -1),
        forall|j: int| 0 <= j < read.len() ==> (#[trigger] spans[j]).closed,
        0 <= i < read.len(),
        read[i] is Code,
        spans[i].start == offsets[b],
        fuel >= out.len() - offsets[b],
    ensures
        spec_flat(read, spans, i, fuel) == spec_flat_written(written, offsets, out, b, fuel),
        spec_flat_end(read, spans, i, fuel) == spec_flat_written_end(
            written,
            offsets,
            out,
            b,
            fuel,
        ),
{
    lemma_flat_is_run(out, read, spans, covered, roots, i, fuel);
    lemma_written_is_run(written, offsets, out, b, fuel);
}

/// Two commands of one written block that stand at different places end
/// at different offsets.
proof fn lemma_places_differ(s: Seq<BlockView>, offsets: Seq<Ip>, out: Seq<u8>, b: int, j: int, k: int)
    requires
        spec_stream_written(s, offsets, out),
        0 <= b < s.len(),
        s[b] is Code,
        offsets[b] != 0,
        0 <= j < k < s[b]->commands.len(),
    ensures
        spec_place(s, offsets, b, j + 1) < spec_place(s, offsets, b, k + 1),
{
    let commands = s[b]->commands;
    assert(spec_block_written(s, offsets, out, b));
    lemma_place_inside(s, offsets, out, b, k);
    let front = commands.subrange(0, k);
    assert(front.subrange(0, j + 1) =~= commands.subrange(0, j + 1));
    lemma_prefix_fits(front, offsets, j + 1);
}

/// What the writer put into the stream is decoded without an error.
///
/// Take a stream that holds the written blocks of a script, lying apart
/// and within the 32-bit range, and events that start at written code
/// blocks. Then nothing that the events lead to is refused, for whatever
/// reason: every instruction parses, every message finds its data block,
/// no offset is both an instruction and a data block, and no two commands
/// end at the same offset. Written blocks that fall through must have a
/// command.
pub proof fn lemma_written_accepted(
    s: Seq<BlockView>,
    offsets: Seq<Ip>,
    out: Seq<u8>,
    roots: Set<int>,
    e: Error,
)
    requires
        spec_stream_written(s, offsets, out),
        spec_stored_apart(s, offsets),
        out.len() <= u32::MAX,
        forall|r: int| #[trigger]
            roots.contains(r) ==> exists|b: int|
                0 <= b < s.len() && s[b] is Code && #[trigger] offsets[b] != 0 && offsets[b] == r,
    ensures
        !ScriptReader::spec_refused(out, roots, e),
{
    assert forall|at: int| spec_demanded(out, roots, at) implies !#[trigger] spec_fails_at(out, at, e) by {
        lemma_demanded_written(s, offsets, out, roots, at);
        lemma_written_step(s, offsets, out, at);
    }
    assert forall|t: int| #[trigger] spec_demanded(out, roots, t) implies !spec_data_demanded(
        out,
        roots,
        t,
    ) by {
        if spec_data_demanded(out, roots, t) {
            let at = choose|at: int| spec_demanded(out, roots, at) && #[trigger] spec_msg_at(out, at, t);
            lemma_demanded_written(s, offsets, out, roots, at);
            let (b, k) = lemma_written_command(s, offsets, out, at);
            assert(spec_block_consistent(s, s[b]));
            match s[b]->commands[k] {
                Command::Msg(id) => {
                    let d = id.index as int;
                    assert(crate::event::analysis::spec_command_targets(s[b]->commands[k], d));
                    assert(crate::event::analysis::spec_edge(s, b, d));
                    assert(offsets[d] == t);
                    lemma_demanded_written(s, offsets, out, roots, t);
                    let c = lemma_written_inside(s, offsets, out, t);
                    assert(spec_stored_end(s, offsets, c) <= offsets[d] || spec_stored_end(s, offsets, d)
                        <= offsets[c]);
                },
                _ => {},
            }
        }
    }
    assert forall|at: int| #[trigger] spec_demanded(out, roots, at) implies !spec_overlong_at(out, at) by {
        lemma_parse_op_advances(out, at);
    }
    if spec_merges(out, roots) {
        let (x, y, n) = choose|x: int, y: int, n: int|
            x != y && spec_demanded(out, roots, x) && spec_demanded(out, roots, y)
                && #[trigger] spec_runs_into(out, x, n) && #[trigger] spec_runs_into(out, y, n);
        lemma_demanded_written(s, offsets, out, roots, x);
        lemma_demanded_written(s, offsets, out, roots, y);
        let (b1, k1) = lemma_written_command(s, offsets, out, x);
        let (b2, k2) = lemma_written_command(s, offsets, out, y);
        assert(spec_block_written(s, offsets, out, b1));
        assert(spec_block_written(s, offsets, out, b2));
        lemma_place_inside(s, offsets, out, b1, k1);
        lemma_place_inside(s, offsets, out, b2, k2);
        if b1 == b2 {
            if k1 < k2 {
                lemma_places_differ(s, offsets, out, b1, k1, k2);
            } else if k2 < k1 {
                lemma_places_differ(s, offsets, out, b1, k2, k1);
            }
        } else {
            assert(spec_stored_end(s, offsets, b1) <= offsets[b2] || spec_stored_end(s, offsets, b2)
                <= offsets[b1]);
        }
        assert(false);
    }
    assert(!spec_collides(out, roots));
}

/// Whether no code block of the script falls through: each ends with an
/// instruction of its own.
pub open spec fn spec_no_falls(s: Seq<BlockView>) -> bool {
    forall|b: int| 0 <= b < s.len() && (#[trigger] s[b]) is Code ==> !(s[b]->terminator is Fallthrough)
}

/// Whether `out` holds the written blocks of `s`, lying apart, none of
/// which falls through, and each of `roots` is the offset of a written
/// code block.
pub open spec fn spec_encoded(s: Seq<BlockView>, offsets: Seq<Ip>, out: Seq<u8>, roots: Set<int>) -> bool {
    &&& spec_stream_written(s, offsets, out)
    &&& spec_stored_apart(s, offsets)
    &&& spec_no_falls(s)
    &&& forall|r: int| #[trigger]
        roots.contains(r) ==> exists|b: int|
            0 <= b < s.len() && s[b] is Code && #[trigger] offsets[b] != 0 && offsets[b] == r
}

/// Where a block has to start in what was written, a written code block
/// stands.
pub proof fn lemma_targeted_written(
    s: Seq<BlockView>,
    offsets: Seq<Ip>,
    out: Seq<u8>,
    roots: Set<int>,
    t: int,
) -> (c: int)
    requires
        spec_encoded(s, offsets, out, roots),
        spec_targeted(out, roots, t),
    ensures
        0 <= c < s.len(),
        s[c] is Code,
        offsets[c] != 0,
        offsets[c] == t,
{
    if roots.contains(t) {
        choose|b: int| 0 <= b < s.len() && s[b] is Code && #[trigger] offsets[b] != 0 && offsets[b] == t
    } else {
        let at = choose|at: int| spec_demanded(out, roots, at) && #[trigger] spec_jumps(out, at, t);
        lemma_demanded_written(s, offsets, out, roots, at);
        let (b, k) = choose|b: int, k: int|
            0 <= b < s.len() && s[b] is Code && offsets[b] != 0 && 0 <= k <= s[b]->commands.len() && at
                == #[trigger] spec_place(s, offsets, b, k) && (k == s[b]->commands.len() ==> !(
            s[b]->terminator is Fallthrough) || spec_jump_written(s, offsets, out, b));
        let commands = s[b]->commands;
        let end = offsets[b] + spec_commands_bytes(commands, offsets).len();
        assert(spec_block_written(s, offsets, out, b));
        assert(spec_block_consistent(s, s[b]));
        if k < commands.len() {
            lemma_command_at(out, offsets[b] as int, commands, offsets, k);
            assert(spec_command_consistent(s, commands[k]));
            match commands[k] {
                Command::Call(id) => {
                    assert(spec_command_targets(commands[k], id.index as int));
                    assert(spec_edge(s, b, id.index as int));
                    id.index as int
                },
                _ => 0,
            }
        } else {
            assert(commands.subrange(0, k) =~= commands);
            lemma_parse_written_terminator(out, end, spec_lower_terminator(s[b]->terminator, offsets));
            match s[b]->terminator {
                Terminator::Jump(id) => {
                    assert(spec_edge(s, b, id.index as int));
                    id.index as int
                },
                Terminator::Branch { condition, if_true, if_false } => {
                    assert(spec_edge(s, b, if_true.index as int));
                    assert(spec_edge(s, b, if_false.index as int));
                    if offsets[if_true.index as int] == t {
                        if_true.index as int
                    } else {
                        if_false.index as int
                    }
                },
                _ => 0,
            }
        }
    }
}

/// Where a data block is asked for in what was written, a written data
/// block stands, and its payload is what the stream holds there.
pub proof fn lemma_message_written(
    s: Seq<BlockView>,
    offsets: Seq<Ip>,
    out: Seq<u8>,
    roots: Set<int>,
    t: int,
) -> (d: int)
    requires
        spec_encoded(s, offsets, out, roots),
        spec_data_demanded(out, roots, t),
    ensures
        0 <= d < s.len(),
        s[d] is Data,
        offsets[d] != 0,
        offsets[d] == t,
        spec_parse_data(out, t) == Some(s[d]->bytes),
{
    let at = choose|at: int| spec_demanded(out, roots, at) && #[trigger] spec_msg_at(out, at, t);
    lemma_demanded_written(s, offsets, out, roots, at);
    let (b, k) = lemma_written_command(s, offsets, out, at);
    assert(spec_block_consistent(s, s[b]));
    assert(spec_command_consistent(s, s[b]->commands[k]));
    match s[b]->commands[k] {
        Command::Msg(id) => {
            let d = id.index as int;
            assert(spec_command_targets(s[b]->commands[k], d));
            assert(spec_edge(s, b, d));
            assert(spec_block_written(s, offsets, out, d));
            let bytes = s[d]->bytes;
            lemma_holds_split(out, offsets[d] as int, spec_bytes_u32_le(bytes.len() as u32), bytes);
            lemma_read_held_u32_le(out, offsets[d] as int, bytes.len() as u32);
            assert(out.subrange(t + 4, t + 4 + bytes.len()) =~= bytes);
            d
        },
        _ => 0,
    }
}

/// A decoded block that starts where a written block stands holds the
/// first commands of that block, at the offsets at which they stand.
proof fn lemma_aligned(
    s: Seq<BlockView>,
    offsets: Seq<Ip>,
    out: Seq<u8>,
    roots: Set<int>,
    read: Seq<BlockView>,
    spans: Seq<SpanView>,
    b: int,
    i: int,
    k: int,
)
    requires
        spec_encoded(s, offsets, out, roots),
        spec_settled(out, roots, read, spans),
        0 <= b < s.len(),
        s[b] is Code,
        offsets[b] != 0,
        0 <= i < read.len(),
        read[i] is Code,
        spans[i].start == offsets[b],
        0 <= k <= read[i]->commands.len(),
    ensures
        k <= s[b]->commands.len(),
        (if k < read[i]->commands.len() {
            spans[i].addrs[k]
        } else {
            spans[i].end
        }) == spec_place(s, offsets, b, k),
        forall|j: int|
            0 <= j < k ==> spec_lower_command(#[trigger] read[i]->commands[j], spec_starts(spans))
                == spec_lower_command(s[b]->commands[j], offsets),
    decreases k,
{
    let covered = choose|covered: Set<int>| #[trigger] spec_inv(out, read, spans, covered, roots, -1);
    let commands = s[b]->commands;
    let end = offsets[b] + spec_commands_bytes(commands, offsets).len();
    assert(spec_block_ok(out, read, spans, i));
    assert(spec_block_written(s, offsets, out, b));
    if k == 0 {
        assert(commands.subrange(0, 0) =~= Seq::<Command<BlockId>>::empty());
    } else {
        lemma_aligned(s, offsets, out, roots, read, spans, b, i, k - 1);
        assert(spec_command_ok(out, read, spans[i], spec_starts(spans), read[i]->commands, k - 1));
        if k - 1 == commands.len() {
            assert(commands.subrange(0, k - 1) =~= commands);
            lemma_parse_written_terminator(out, end, spec_lower_terminator(s[b]->terminator, offsets));
            assert(false);
        }
        lemma_command_at(out, offsets[b] as int, commands, offsets, k - 1);
    }
}

/// Decoding gives back the code blocks that were encoded.
///
/// Take a script none of whose blocks falls through, written into `out`,
/// and a decoding of `out` from the offsets of written code blocks. Then a
/// decoded block that starts where a written code block stands is a code
/// block with the same commands that ends in the same way, each block
/// referred to written as the offset at which it stands.
pub proof fn lemma_code_round_trip(
    s: Seq<BlockView>,
    offsets: Seq<Ip>,
    out: Seq<u8>,
    roots: Set<int>,
    read: Seq<BlockView>,
    spans: Seq<SpanView>,
    b: int,
    i: int,
)
    requires
        spec_encoded(s, offsets, out, roots),
        spec_settled(out, roots, read, spans),
        0 <= b < s.len(),
        s[b] is Code,
        offsets[b] != 0,
        0 <= i < read.len(),
        spans[i].start == offsets[b],
    ensures
        read[i] is Code,
        spec_lower_commands(read[i]->commands, spec_starts(spans)) == spec_lower_commands(
            s[b]->commands,
            offsets,
        ),
        spec_lower_terminator(read[i]->terminator, spec_starts(spans)) == spec_lower_terminator(
            s[b]->terminator,
            offsets,
        ),
{
    let covered = choose|covered: Set<int>| #[trigger] spec_inv(out, read, spans, covered, roots, -1);
    let commands = s[b]->commands;
    let end = offsets[b] + spec_commands_bytes(commands, offsets).len();
    assert(spec_block_written(s, offsets, out, b));
    assert(spec_block_ok(out, read, spans, i));
    assert(spans[i].closed);
    assert(commands.subrange(0, 0) =~= Seq::<Command<BlockId>>::empty());
    lemma_place_inside(s, offsets, out, b, 0);
    if read[i] is Data {
        assert(spec_data_demanded(out, roots, spans[i].start as int));
        let d = lemma_message_written(s, offsets, out, roots, spans[i].start as int);
        assert(spec_block_written(s, offsets, out, d));
        assert(spec_stored_end(s, offsets, b) <= offsets[d] || spec_stored_end(s, offsets, d) <= offsets[b]);
        assert(false);
    }
    let n = read[i]->commands.len() as int;
    lemma_aligned(s, offsets, out, roots, read, spans, b, i, n);
    lemma_place_inside(s, offsets, out, b, n);
    if read[i]->terminator is Fallthrough {
        lemma_cut(out, roots, read, spans, i);
        let c = lemma_targeted_written(s, offsets, out, roots, spans[i].end as int);
        assert(spans[i].addrs[0] < spans[i].end);
        assert(spec_block_written(s, offsets, out, c));
        assert(s[c]->commands.subrange(0, 0) =~= Seq::<Command<BlockId>>::empty());
        lemma_place_inside(s, offsets, out, c, 0);
        assert(spec_stored_end(s, offsets, b) <= offsets[c] || spec_stored_end(s, offsets, c) <= offsets[b]);
        assert(false);
    }
    if n < commands.len() {
        lemma_command_at(out, offsets[b] as int, commands, offsets, n);
        assert(false);
    }
    assert(commands.subrange(0, n) =~= commands);
    lemma_parse_written_terminator(out, end, spec_lower_terminator(s[b]->terminator, offsets));
    assert(spec_lower_commands(read[i]->commands, spec_starts(spans)) =~= spec_lower_commands(
        commands,
        offsets,
    ));
}

/// Decoding gives back the data blocks that were encoded: a decoded block
/// that starts where a written data block stands is a data block with the
/// same payload.
pub proof fn lemma_data_round_trip(
    s: Seq<BlockView>,
    offsets: Seq<Ip>,
    out: Seq<u8>,
    roots: Set<int>,
    read: Seq<BlockView>,
    spans: Seq<SpanView>,
    d: int,
    i: int,
)
    requires
        spec_encoded(s, offsets, out, roots),
        spec_settled(out, roots, read, spans),
        0 <= d < s.len(),
        s[d] is Data,
        offsets[d] != 0,
        0 <= i < read.len(),
        spans[i].start == offsets[d],
    ensures
        read[i] is Data,
        read[i]->bytes == s[d]->bytes,
{
    let covered = choose|covered: Set<int>| #[trigger] spec_inv(out, read, spans, covered, roots, -1);
    assert(spec_block_written(s, offsets, out, d));
    assert(spec_block_ok(out, read, spans, i));
    if read[i] is Code {
        assert(spec_targeted(out, roots, spans[i].start as int));
        let c = lemma_targeted_written(s, offsets, out, roots, spans[i].start as int);
        assert(spec_block_written(s, offsets, out, c));
        assert(s[c]->commands.subrange(0, 0) =~= Seq::<Command<BlockId>>::empty());
        lemma_place_inside(s, offsets, out, c, 0);
        assert(spec_stored_end(s, offsets, c) <= offsets[d] || spec_stored_end(s, offsets, d) <= offsets[c]);
        assert(false);
    }
    assert(spec_data_demanded(out, roots, spans[i].start as int));
    let d2 = lemma_message_written(s, offsets, out, roots, spans[i].start as int);
    if d2 != d {
        assert(spec_stored_end(s, offsets, d2) <= offsets[d] || spec_stored_end(s, offsets, d) <= offsets[d2]);
    }
}

/// Nothing is decoded that was not encoded: every decoded block starts
/// where a written block of its kind stands.
pub proof fn lemma_read_was_written(
    s: Seq<BlockView>,
    offsets: Seq<Ip>,
    out: Seq<u8>,
    roots: Set<int>,
    read: Seq<BlockView>,
    spans: Seq<SpanView>,
    i: int,
) -> (b: int)
    requires
        spec_encoded(s, offsets, out, roots),
        spec_settled(out, roots, read, spans),
        0 <= i < read.len(),
    ensures
        0 <= b < s.len(),
        offsets[b] != 0,
        offsets[b] == spans[i].start,
        s[b] is Code <==> read[i] is Code,
{
    let covered = choose|covered: Set<int>| #[trigger] spec_inv(out, read, spans, covered, roots, -1);
    if read[i] is Code {
        assert(spec_targeted(out, roots, spans[i].start as int));
        lemma_targeted_written(s, offsets, out, roots, spans[i].start as int)
    } else {
        assert(spec_data_demanded(out, roots, spans[i].start as int));
        lemma_message_written(s, offsets, out, roots, spans[i].start as int)
    }
}

/// The written code blocks at which the events start.
pub open spec fn spec_written_entries(s: Seq<BlockView>, offsets: Seq<Ip>, roots: Set<int>) -> Set<int> {
    Set::new(|b: int| 0 <= b < s.len() && s[b] is Code && offsets[b] != 0 && roots.contains(offsets[b] as int))
}

/// A decoded block that stands for a written block refers to decoded
/// blocks that stand for the blocks that the written block refers to.
pub proof fn lemma_edge_read(
    s: Seq<BlockView>,
    offsets: Seq<Ip>,
    out: Seq<u8>,
    roots: Set<int>,
    read: Seq<BlockView>,
    spans: Seq<SpanView>,
    p: int,
    i: int,
    q: int,
) -> (j: int)
    requires
        spec_encoded(s, offsets, out, roots),
        spec_settled(out, roots, read, spans),
        0 <= p < s.len(),
        offsets[p] != 0,
        0 <= i < read.len(),
        spans[i].start == offsets[p],
        spec_edge(s, p, q),
    ensures
        0 <= q < s.len(),
        offsets[q] != 0,
        0 <= j < read.len(),
        spans[j].start == offsets[q],
        spec_edge(read, i, j),
{
    let covered = choose|covered: Set<int>| #[trigger] spec_inv(out, read, spans, covered, roots, -1);
    let starts = spec_starts(spans);
    assert(spec_refs_written(s, offsets, p));
    lemma_code_round_trip(s, offsets, out, roots, read, spans, p, i);
    assert(spec_block_ok(out, read, spans, i));
    assert(spans[i].closed);
    let commands = s[p]->commands;
    let mine = read[i]->commands;
    if spec_terminator_targets(s[p]->terminator, q) {
        match read[i]->terminator {
            Terminator::Jump(id) => id.index as int,
            Terminator::Branch { condition, if_true, if_false } => {
                if starts[if_true.index as int] == offsets[q] {
                    if_true.index as int
                } else {
                    if_false.index as int
                }
            },
            _ => 0,
        }
    } else {
        let k = choose|k: int| 0 <= k < commands.len() && spec_command_targets(#[trigger] commands[k], q);
        assert(spec_lower_commands(mine, starts).len() == spec_lower_commands(commands, offsets).len());
        assert(spec_lower_commands(mine, starts)[k] == spec_lower_commands(commands, offsets)[k]);
        assert(spec_command_ok(out, read, spans[i], starts, mine, k));
        match mine[k] {
            Command::Call(id) => {
                assert(spec_command_targets(mine[k], id.index as int));
                id.index as int
            },
            Command::Msg(id) => {
                assert(spec_command_targets(mine[k], id.index as int));
                id.index as int
            },
            _ => 0,
        }
    }
}

/// Along a way through the written script from a block at which an event
/// starts, every block has a decoded block that stands for it, and the
/// decoded blocks can be reached in the same way.
proof fn lemma_path_read(
    s: Seq<BlockView>,
    offsets: Seq<Ip>,
    out: Seq<u8>,
    roots: Set<int>,
    read: Seq<BlockView>,
    spans: Seq<SpanView>,
    path: Seq<int>,
    upto: int,
) -> (i: int)
    requires
        spec_encoded(s, offsets, out, roots),
        spec_settled(out, roots, read, spans),
        spec_path(s, path),
        spec_written_entries(s, offsets, roots).contains(path[0]),
        0 <= upto < path.len(),
    ensures
        0 <= path[upto] < s.len(),
        offsets[path[upto]] != 0,
        0 <= i < read.len(),
        spans[i].start == offsets[path[upto]],
    decreases upto,
{
    if upto == 0 {
        assert(spec_targeted(out, roots, offsets[path[0]] as int));
        lemma_target_starts(out, roots, read, spans, offsets[path[0]] as int)
    } else {
        let i = lemma_path_read(s, offsets, out, roots, read, spans, path, upto - 1);
        assert(spec_edge(s, path[upto - 1], path[upto - 1 + 1]));
        lemma_edge_read(s, offsets, out, roots, read, spans, path[upto - 1], i, path[upto])
    }
}

/// Everything that was encoded for the events is decoded: a written
/// block that can be reached from a block at which an event starts has a
/// decoded block that starts at its offset.
///
/// Together with the laws on code and data blocks this makes decoding the
/// inverse of encoding for scripts without blocks that fall through: the
/// decoded blocks and the written blocks that the events lead to stand at
/// the same offsets, one for one, with equal commands, equal payloads and
/// equal ends, every reference leading to the block at the same offset.
pub proof fn lemma_written_was_read(
    s: Seq<BlockView>,
    offsets: Seq<Ip>,
    out: Seq<u8>,
    roots: Set<int>,
    read: Seq<BlockView>,
    spans: Seq<SpanView>,
    q: int,
) -> (i: int)
    requires
        spec_encoded(s, offsets, out, roots),
        spec_settled(out, roots, read, spans),
        spec_reachable(s, spec_written_entries(s, offsets, roots), q),
    ensures
        0 <= q < s.len(),
        offsets[q] != 0,
        0 <= i < read.len(),
        spans[i].start == offsets[q],
{
    let path = choose|path: Seq<int>| #[trigger]
        spec_path(s, path) && spec_written_entries(s, offsets, roots).contains(path[0]) && path.last()
            == q;
    lemma_path_read(s, offsets, out, roots, read, spans, path, path.len() - 1)
}

/// Two blocks come back as two blocks. Take a script of two code blocks,
/// the first with one command and a jump to the second, the second with
/// one command and a return, neither command a call or a message; write
/// it, and decode what was written from the offset of the first block.
/// Then the decoding holds exactly two blocks: one with the first command
/// that jumps to the other, and the other with the second command, which
/// returns. Both can be reached from the first.
pub proof fn lemma_two_blocks_round_trip(
    s: Seq<BlockView>,
    offsets: Seq<Ip>,
    out: Seq<u8>,
    read: Seq<BlockView>,
    spans: Seq<SpanView>,
) -> (r: (int, int))
    requires
        spec_stream_written(s, offsets, out),
        s.len() == 2,
        s[0] is Code,
        s[1] is Code,
        s[0]->commands.len() == 1,
        s[1]->commands.len() == 1,
        !(s[0]->commands[0] is Call) && !(s[0]->commands[0] is Msg),
        !(s[1]->commands[0] is Call) && !(s[1]->commands[0] is Msg),
        s[0]->terminator matches Terminator::Jump(id) && id.index == 1,
        s[1]->terminator is Return,
        offsets[0] != 0,
        spec_settled(out, set![offsets[0] as int], read, spans),
    ensures
        read.len() == 2,
        0 <= r.0 < 2,
        0 <= r.1 < 2,
        r.0 != r.1,
        read[r.0] is Code,
        read[r.1] is Code,
        spec_lower_commands(read[r.0]->commands, spec_starts(spans)) == spec_lower_commands(
            s[0]->commands,
            offsets,
        ),
        read[r.0]->terminator matches Terminator::Jump(id) && id.index == r.1,
        spec_lower_commands(read[r.1]->commands, spec_starts(spans)) == spec_lower_commands(
            s[1]->commands,
            offsets,
        ),
        read[r.1]->terminator is Return,
        forall|x: int| 0 <= x < 2 ==> spec_reachable(read, set![r.0], x),
{
    let first = s[0]->commands;
    let second = s[1]->commands;
    assert(spec_terminator_targets(s[0]->terminator, 1));
    assert(spec_edge(s, 0, 1));
    assert(spec_refs_written(s, offsets, 0));
    assert(spec_block_written(s, offsets, out, 0));
    assert(spec_block_written(s, offsets, out, 1));
    assert(first.subrange(0, 0) =~= Seq::<Command<BlockId>>::empty());
    assert(first.subrange(0, 1) =~= first);
    assert(second.subrange(0, 0) =~= Seq::<Command<BlockId>>::empty());
    assert(second.subrange(0, 1) =~= second);
    lemma_command_at(out, offsets[0] as int, first, offsets, 0);
    lemma_command_at(out, offsets[1] as int, second, offsets, 0);
    let m = offsets[0] + spec_commands_bytes(first, offsets).len();
    let n = offsets[1] + spec_commands_bytes(second, offsets).len();
    lemma_parse_written_terminator(out, m, spec_lower_terminator(s[0]->terminator, offsets));
    lemma_parse_written_terminator(out, n, spec_lower_terminator(s[1]->terminator, offsets));
    let r = lemma_two_blocks(
        out,
        read,
        spans,
        offsets[0],
        spec_lower_command(first[0], offsets),
        m,
        offsets[1],
        spec_lower_command(second[0], offsets),
        n,
    );
    assert(spec_lower_commands(first, offsets) =~= seq![spec_lower_command(first[0], offsets)]);
    assert(spec_lower_commands(second, offsets) =~= seq![spec_lower_command(second[0], offsets)]);
    r
}

} // verus!
