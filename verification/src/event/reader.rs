//! Reading a bytecode stream into blocks.
//!
//! The reader follows the stream from each entry point. It keeps, for
//! every block, the offset at which the block starts and the offset of each
//! of its commands, so that a jump into the middle of a block that was read
//! before is answered by splitting that block: the commands in front of the
//! target keep the block's identity and fall through to a new block that
//! holds the rest.
//!
//! Blocks are cut in front of the events and of the targets of jumps,
//! branches and calls, and nowhere else, so the blocks depend on the stream
//! and the events alone, not on the order of reading. A stream in which two
//! runs of commands overlap out of step and then meet has no such cut, and
//! is refused.

use crate::error::Error;
use crate::event::analysis::{lemma_reach_root, lemma_reach_step, spec_edge, spec_reachable};
use crate::event::block::{Block, BlockId, BlockView, CodeBlock, DataBlock, Ip};
use crate::event::command::{
    lemma_parse_op_advances, read_op, spec_lower_command, spec_lower_commands,
    spec_lower_terminator, spec_offset_of, spec_parse_op, spec_run, spec_run_end, Command, Op,
    Terminator,
};
use crate::event::script::{
    spec_block_consistent, spec_command_consistent, spec_consistent, spec_is_code, spec_is_data,
    spec_terminator_consistent, Script,
};
use crate::wire::{get_u32_le, spec_get_u32_le};
use vstd::prelude::*;
use vstd::slice::slice_subrange;

verus! {

/// Where a block stands in the stream.
#[derive(Debug, Clone, PartialEq, Eq)]
pub struct Span {
    /// The offset of the block's first byte.
    pub start: Ip,
    /// The offset of each command of the block.
    pub addrs: Vec<Ip>,
    /// The offset behind the block's last command: where reading goes on,
    /// or where the instruction stands that ends the block.
    pub end: Ip,
    /// Whether the block's end is known.
    pub closed: bool,
}

/// Where a block stands in the stream, as plain mathematical values.
pub ghost struct SpanView {
    pub start: Ip,
    pub addrs: Seq<Ip>,
    pub end: Ip,
    pub closed: bool,
}

impl View for Span {
    type V = SpanView;

    open spec fn view(&self) -> SpanView {
        SpanView { start: self.start, addrs: self.addrs@, end: self.end, closed: self.closed }
    }
}

/// The offsets at which the blocks start, by block index.
pub open spec fn spec_starts(spans: Seq<SpanView>) -> Seq<Ip> {
    Seq::new(spans.len(), |i: int| spans[i].start)
}

/// The offset behind the command at place `k` of a block.
pub open spec fn spec_next_addr(span: SpanView, k: int) -> Ip {
    if k + 1 < span.addrs.len() {
        span.addrs[k + 1]
    } else {
        span.end
    }
}

/// The payload of the data block stored at `at`: a length in four
/// little-endian bytes, then as many bytes. `None` where the stream ends
/// too early.
pub open spec fn spec_parse_data(b: Seq<u8>, at: int) -> Option<Seq<u8>> {
    match spec_get_u32_le(b, at) {
        Some(len) => if at + 4 + len <= b.len() {
            Some(b.subrange(at + 4, at + 4 + len))
        } else {
            None
        },
        None => None,
    }
}

/// Whether the command at place `k` is what the stream holds at its
/// offset, and refers to blocks of the right kind.
pub open spec fn spec_command_ok(
    b: Seq<u8>,
    s: Seq<BlockView>,
    span: SpanView,
    starts: Seq<Ip>,
    commands: Seq<Command<BlockId>>,
    k: int,
) -> bool {
    &&& spec_command_consistent(s, commands[k])
    &&& spec_parse_op(b, span.addrs[k] as int) == Ok::<(Op<Ip>, int), Error>(
        (Op::Command(spec_lower_command(commands[k], starts)), spec_next_addr(span, k) as int),
    )
}

/// Whether the end of a closed block is what the stream holds: a block that
/// falls through is followed by the block it leads to, any other ends with
/// the instruction that stands behind its last command.
pub open spec fn spec_end_ok(
    b: Seq<u8>,
    s: Seq<BlockView>,
    span: SpanView,
    starts: Seq<Ip>,
    count: nat,
    t: Terminator<BlockId>,
) -> bool {
    match t {
        Terminator::Fallthrough(id) => count > 0 && spec_is_code(s, id) && starts[id.index as int]
            == span.end,
        _ => spec_terminator_consistent(s, t) && (spec_parse_op(b, span.end as int) matches Ok(
            (op, next),
        ) && op == Op::Control(spec_lower_terminator(t, starts)) && next <= u32::MAX),
    }
}

/// Whether the block with index `i` is what the stream holds at the
/// block's place.
pub open spec fn spec_block_ok(b: Seq<u8>, s: Seq<BlockView>, spans: Seq<SpanView>, i: int) -> bool {
    let span = spans[i];
    let starts = spec_starts(spans);
    match s[i] {
        BlockView::Code { commands, terminator } => {
            &&& span.addrs.len() == commands.len()
            &&& commands.len() > 0 ==> span.addrs[0] == span.start
            &&& commands.len() == 0 ==> span.end == span.start
            &&& forall|k: int|
                0 <= k < commands.len() ==> #[trigger] spec_command_ok(
                    b,
                    s,
                    span,
                    starts,
                    commands,
                    k,
                )
            &&& forall|j: int, k: int|
                0 <= j < k < commands.len() ==> #[trigger] span.addrs[j] < #[trigger] span.addrs[k]
            &&& forall|k: int| 0 <= k < commands.len() ==> #[trigger] span.addrs[k] < span.end
            &&& if span.closed {
                spec_end_ok(b, s, span, starts, commands.len(), terminator)
            } else {
                terminator == Terminator::<BlockId>::End
            }
        },
        BlockView::Data { bytes } => {
            &&& span.closed
            &&& span.addrs.len() == 0
            &&& spec_parse_data(b, span.start as int) == Some(bytes)
        },
    }
}

/// Whether an instruction of the block with index `i` was read at offset
/// `a`: one of its commands, or the instruction that ends it.
pub open spec fn spec_point_of(s: Seq<BlockView>, spans: Seq<SpanView>, i: int, a: int) -> bool {
    &&& s[i] is Code
    &&& {
        ||| exists|k: int| 0 <= k < spans[i].addrs.len() && #[trigger] spans[i].addrs[k] == a
        ||| spans[i].closed && !(s[i]->terminator is Fallthrough) && spans[i].end == a
    }
}

/// Whether the instruction at `from` leads to the offset `to`: a command
/// leads to the instruction behind it and to the subroutine that it calls,
/// a jump or a branch to its targets.
pub open spec fn spec_leads(b: Seq<u8>, from: int, to: int) -> bool {
    match spec_parse_op(b, from) {
        Ok((Op::Command(c), next)) => to == next || (c matches Command::Call(t) && to == t),
        Ok((Op::Control(Terminator::Jump(t)), _)) => to == t,
        Ok((Op::Control(Terminator::Branch { condition, if_true, if_false }), _)) => to == if_true
            || to == if_false,
        _ => false,
    }
}

/// Whether each offset of `path` is led to by the instruction at the
/// offset in front of it.
pub open spec fn spec_trail(b: Seq<u8>, path: Seq<int>) -> bool {
    &&& path.len() > 0
    &&& forall|i: int| 0 <= i < path.len() - 1 ==> spec_leads(b, #[trigger] path[i], path[i + 1])
}

/// Whether decoding the events at `roots` asks for the instruction at
/// `at`: it is one of the roots, or an instruction that is asked for leads
/// to it.
pub open spec fn spec_demanded(b: Seq<u8>, roots: Set<int>, at: int) -> bool {
    exists|path: Seq<int>| #[trigger]
        spec_trail(b, path) && roots.contains(path[0]) && path.last() == at
}

/// Whether the stream holds, at `at`, something that cannot be decoded,
/// for the reason `e`: an instruction that does not parse, or a message
/// whose data block is cut short.
pub open spec fn spec_fails_at(b: Seq<u8>, at: int, e: Error) -> bool {
    match spec_parse_op(b, at) {
        Err(e2) => e == e2,
        Ok((op, _)) => e == Error::TruncatedStream && (op matches Op::Command(Command::Msg(t))
            && spec_parse_data(b, t as int) is None),
    }
}

/// Whether the instruction at `at` shows the message stored at `t`.
pub open spec fn spec_msg_at(b: Seq<u8>, at: int, t: int) -> bool {
    spec_parse_op(b, at) matches Ok((Op::Command(Command::Msg(x)), _)) && x == t
}

/// Whether decoding the events at `roots` asks for a data block at `t`: an
/// instruction that is asked for shows the message stored there.
pub open spec fn spec_data_demanded(b: Seq<u8>, roots: Set<int>, t: int) -> bool {
    exists|at: int| spec_demanded(b, roots, at) && #[trigger] spec_msg_at(b, at, t)
}

/// Whether the instruction at `at` ends beyond the 32-bit range.
pub open spec fn spec_overlong_at(b: Seq<u8>, at: int) -> bool {
    spec_parse_op(b, at) matches Ok((_, end)) && end > u32::MAX
}

/// Whether the events at `roots` cannot be decoded because code and data
/// collide, because the stream is too long, or because instructions
/// overlap: an offset is asked for both as an instruction and as a data
/// block, an instruction that is asked for ends beyond the 32-bit range, or
/// two commands that are asked for end at the same offset.
pub open spec fn spec_collides(b: Seq<u8>, roots: Set<int>) -> bool {
    ||| exists|t: int| #[trigger] spec_demanded(b, roots, t) && spec_data_demanded(b, roots, t)
    ||| exists|at: int| #[trigger] spec_demanded(b, roots, at) && spec_overlong_at(b, at)
    ||| spec_merges(b, roots)
}

/// Whether the instruction at `from` jumps to `to` or calls it.
pub open spec fn spec_jumps(b: Seq<u8>, from: int, to: int) -> bool {
    match spec_parse_op(b, from) {
        Ok((Op::Command(Command::Call(t)), _)) => to == t,
        Ok((Op::Control(Terminator::Jump(t)), _)) => to == t,
        Ok((Op::Control(Terminator::Branch { condition, if_true, if_false }), _)) => to == if_true
            || to == if_false,
        _ => false,
    }
}

/// Whether a block has to start at `t`: an event starts there, or an
/// instruction that is asked for jumps there or calls it.
pub open spec fn spec_targeted(b: Seq<u8>, roots: Set<int>, t: int) -> bool {
    roots.contains(t) || exists|at: int| spec_demanded(b, roots, at) && #[trigger] spec_jumps(b, at, t)
}

/// Whether the instruction at `from` is a command and `to` is the offset
/// behind it.
pub open spec fn spec_runs_into(b: Seq<u8>, from: int, to: int) -> bool {
    spec_parse_op(b, from) matches Ok((Op::Command(_), next)) && next == to
}

/// Whether two different commands that are asked for end at the same
/// offset, so that one of them starts inside the other.
pub open spec fn spec_merges(b: Seq<u8>, roots: Set<int>) -> bool {
    exists|x: int, y: int, n: int|
        x != y && spec_demanded(b, roots, x) && spec_demanded(b, roots, y) && #[trigger] spec_runs_into(
            b,
            x,
            n,
        ) && #[trigger] spec_runs_into(b, y, n)
}

/// Whether the block with index `i` lays claim to the offset `a`: it
/// starts there, or one of its instructions was read there.
pub open spec fn spec_claims(s: Seq<BlockView>, spans: Seq<SpanView>, i: int, a: int) -> bool {
    spans[i].start == a || spec_point_of(s, spans, i, a)
}

/// Whether no instruction stands in two blocks: where one block starts or
/// was read, no other block was read.
pub open spec fn spec_single(s: Seq<BlockView>, spans: Seq<SpanView>) -> bool {
    forall|i: int, j: int, a: int|
        0 <= i < s.len() && 0 <= j < s.len() && i != j && #[trigger] spec_claims(s, spans, i, a)
            ==> !#[trigger] spec_point_of(s, spans, j, a)
}

/// Whether every code block starts where a block has to start: at an event
/// or at the target of a jump, a branch or a call.
pub open spec fn spec_starts_targeted(
    b: Seq<u8>,
    s: Seq<BlockView>,
    spans: Seq<SpanView>,
    roots: Set<int>,
) -> bool {
    forall|i: int|
        0 <= i < s.len() && s[i] is Code ==> spec_targeted(b, roots, (#[trigger] spans[i]).start as int)
}

/// Whether the block with index `i` is closed and falls through.
pub open spec fn spec_falls(s: Seq<BlockView>, spans: Seq<SpanView>, i: int) -> bool {
    spans[i].closed && s[i] is Code && s[i]->terminator is Fallthrough
}

/// Whether no two blocks fall through into the same block.
pub open spec fn spec_one_way(s: Seq<BlockView>, spans: Seq<SpanView>) -> bool {
    forall|i: int, j: int|
        0 <= i < s.len() && 0 <= j < s.len() && i != j && #[trigger] spec_falls(s, spans, i)
            && #[trigger] spec_falls(s, spans, j) ==> spans[i].end != spans[j].end
}

/// Whether the blocks are cut as the stream and the events demand: no
/// instruction stands in two blocks, a block starts only at an event or at
/// the target of a jump, a branch or a call, and no two blocks fall through
/// into the same block. A run of commands is then cut exactly in front of
/// the offsets at which a block has to start.
pub open spec fn spec_shape_inv(
    b: Seq<u8>,
    s: Seq<BlockView>,
    spans: Seq<SpanView>,
    roots: Set<int>,
) -> bool {
    &&& spec_single(s, spans)
    &&& spec_starts_targeted(b, s, spans, roots)
    &&& spec_one_way(s, spans)
}

/// Where a block has to start, it still has to when there are more roots.
pub proof fn lemma_targeted_more(b: Seq<u8>, few: Set<int>, many: Set<int>, t: int)
    requires
        spec_targeted(b, few, t),
        few.subset_of(many),
    ensures
        spec_targeted(b, many, t),
{
    if !few.contains(t) {
        let at = choose|at: int| spec_demanded(b, few, at) && #[trigger] spec_jumps(b, at, t);
        lemma_demanded_more(b, few, many, at);
    }
}

/// Where a block has to start, an instruction is asked for.
pub proof fn lemma_targeted_demanded(b: Seq<u8>, roots: Set<int>, t: int)
    requires
        spec_targeted(b, roots, t),
    ensures
        spec_demanded(b, roots, t),
{
    if roots.contains(t) {
        lemma_demanded_root(b, roots, t);
    } else {
        let at = choose|at: int| spec_demanded(b, roots, at) && #[trigger] spec_jumps(b, at, t);
        lemma_demanded_step(b, roots, at, t);
    }
}

/// A data block that is asked for stays asked for when there are more
/// roots.
pub proof fn lemma_data_demanded_more(b: Seq<u8>, few: Set<int>, many: Set<int>, t: int)
    requires
        spec_data_demanded(b, few, t),
        few.subset_of(many),
    ensures
        spec_data_demanded(b, many, t),
{
    let at = choose|at: int| spec_demanded(b, few, at) && #[trigger] spec_msg_at(b, at, t);
    lemma_demanded_more(b, few, many, at);
}

/// Whether no instruction was read where a data block starts.
pub open spec fn spec_apart(s: Seq<BlockView>, spans: Seq<SpanView>) -> bool {
    forall|i: int, j: int|
        0 <= i < s.len() && s[i] is Data && 0 <= j < s.len() ==> !#[trigger] spec_point_of(
            s,
            spans,
            j,
            spans[i].start as int,
        )
}

/// A root is asked for.
pub proof fn lemma_demanded_root(b: Seq<u8>, roots: Set<int>, root: int)
    requires
        roots.contains(root),
    ensures
        spec_demanded(b, roots, root),
{
    let path = seq![root];
    assert(spec_trail(b, path));
    assert(path[0] == root && path.last() == root);
}

/// What an instruction that is asked for leads to is asked for.
pub proof fn lemma_demanded_step(b: Seq<u8>, roots: Set<int>, from: int, to: int)
    requires
        spec_demanded(b, roots, from),
        spec_leads(b, from, to),
    ensures
        spec_demanded(b, roots, to),
{
    let path = choose|path: Seq<int>| #[trigger]
        spec_trail(b, path) && roots.contains(path[0]) && path.last() == from;
    let longer = path.push(to);
    assert forall|i: int| 0 <= i < longer.len() - 1 implies spec_leads(
        b,
        #[trigger] longer[i],
        longer[i + 1],
    ) by {
        if i < path.len() - 1 {
            assert(longer[i] == path[i] && longer[i + 1] == path[i + 1]);
        }
    }
    assert(spec_trail(b, longer));
    assert(longer[0] == path[0] && longer.last() == to);
}

/// What is asked for stays asked for when there are more roots.
pub proof fn lemma_demanded_more(b: Seq<u8>, few: Set<int>, many: Set<int>, at: int)
    requires
        spec_demanded(b, few, at),
        few.subset_of(many),
    ensures
        spec_demanded(b, many, at),
{
    let path = choose|path: Seq<int>| #[trigger]
        spec_trail(b, path) && few.contains(path[0]) && path.last() == at;
    assert(spec_trail(b, path) && many.contains(path[0]) && path.last() == at);
}

/// Whether every instruction of a block is asked for, and the offset where
/// the block ends.
pub open spec fn spec_block_demanded(b: Seq<u8>, roots: Set<int>, span: SpanView) -> bool {
    &&& forall|k: int|
        0 <= k < span.addrs.len() ==> spec_demanded(b, roots, #[trigger] span.addrs[k] as int)
    &&& spec_demanded(b, roots, span.end as int)
}

/// Whether nothing was read that was not asked for.
pub open spec fn spec_reach_inv(
    b: Seq<u8>,
    s: Seq<BlockView>,
    spans: Seq<SpanView>,
    roots: Set<int>,
) -> bool {
    &&& forall|i: int|
        0 <= i < s.len() && s[i] is Code ==> #[trigger] spec_block_demanded(b, roots, spans[i])
    &&& forall|i: int|
        0 <= i < s.len() && s[i] is Data ==> spec_data_demanded(
            b,
            roots,
            (#[trigger] spans[i]).start as int,
        )
}

/// Whether a code block starts at each root.
pub open spec fn spec_rooted(s: Seq<BlockView>, spans: Seq<SpanView>, roots: Set<int>) -> bool {
    forall|r: int| #[trigger]
        roots.contains(r) ==> exists|i: int|
            0 <= i < s.len() && (#[trigger] spans[i]).start == r && s[i] is Code
}

/// Whether the reader's state is sound, `current` being the index of the
/// block that is being read, or `-1` between two reads.
pub open spec fn spec_inv(
    b: Seq<u8>,
    s: Seq<BlockView>,
    spans: Seq<SpanView>,
    covered: Set<int>,
    roots: Set<int>,
    current: int,
) -> bool {
    &&& s.len() == spans.len()
    &&& forall|i: int| 0 <= i < s.len() ==> #[trigger] spec_block_ok(b, s, spans, i)
    &&& forall|i: int, j: int|
        0 <= i < j < spans.len() ==> #[trigger] spans[i].start != #[trigger] spans[j].start
    &&& covered.finite()
    &&& forall|a: int| #[trigger]
        covered.contains(a) ==> 0 <= a < b.len() && exists|i: int|
            0 <= i < s.len() && #[trigger] spec_point_of(s, spans, i, a)
    &&& forall|i: int|
        0 <= i < s.len() && !(#[trigger] spans[i]).closed && spans[i].addrs.len() == 0
            ==> !covered.contains(spans[i].start as int)
    &&& forall|i: int|
        0 <= i < s.len() && !(#[trigger] spans[i]).closed && i != current ==> spans[i].addrs.len()
            == 0
    &&& spec_reach_inv(b, s, spans, roots)
    &&& spec_apart(s, spans)
    &&& spec_shape_inv(b, s, spans, roots)
}

/// A block that is what the stream holds stays so when other blocks
/// change or are added, as long as every old block keeps its kind and its
/// start.
pub proof fn lemma_block_ok_frame(
    b: Seq<u8>,
    s: Seq<BlockView>,
    spans: Seq<SpanView>,
    s2: Seq<BlockView>,
    spans2: Seq<SpanView>,
    i: int,
)
    requires
        0 <= i < s.len(),
        s.len() == spans.len(),
        s2.len() == spans2.len(),
        s.len() <= s2.len(),
        s2[i] == s[i],
        spans2[i] == spans[i],
        forall|j: int|
            0 <= j < s.len() ==> (#[trigger] spans2[j]).start == spans[j].start && (s2[j] is Code
                <==> s[j] is Code),
        spec_block_ok(b, s, spans, i),
    ensures
        spec_block_ok(b, s2, spans2, i),
{
    let span = spans[i];
    let starts = spec_starts(spans);
    let starts2 = spec_starts(spans2);
    match s[i] {
        BlockView::Code { commands, terminator } => {
            assert forall|k: int| 0 <= k < commands.len() implies #[trigger] spec_command_ok(
                b,
                s2,
                span,
                starts2,
                commands,
                k,
            ) by {
                assert(spec_command_ok(b, s, span, starts, commands, k));
                match commands[k] {
                    Command::Call(id) => {
                        assert(spans2[id.index as int].start == spans[id.index as int].start);
                    },
                    Command::Msg(id) => {
                        assert(spans2[id.index as int].start == spans[id.index as int].start);
                    },
                    _ => {},
                }
            }
            if span.closed {
                lemma_end_ok_frame(b, s, spans, s2, spans2, span, commands.len(), terminator);
            }
        },
        BlockView::Data { bytes } => {},
    }
}

/// The end of a block that is what the stream holds stays so when blocks
/// change or are added, as long as every old block keeps its kind and its
/// start.
pub proof fn lemma_end_ok_frame(
    b: Seq<u8>,
    s: Seq<BlockView>,
    spans: Seq<SpanView>,
    s2: Seq<BlockView>,
    spans2: Seq<SpanView>,
    span: SpanView,
    count: nat,
    t: Terminator<BlockId>,
)
    requires
        s.len() == spans.len(),
        s2.len() == spans2.len(),
        s.len() <= s2.len(),
        forall|j: int|
            0 <= j < s.len() ==> (#[trigger] spans2[j]).start == spans[j].start && (s2[j] is Code
                <==> s[j] is Code),
        spec_end_ok(b, s, span, spec_starts(spans), count, t),
    ensures
        spec_end_ok(b, s2, span, spec_starts(spans2), count, t),
{
    match t {
        Terminator::Fallthrough(id) => {
            assert(spans2[id.index as int].start == spans[id.index as int].start);
        },
        Terminator::Jump(id) => {
            assert(spans2[id.index as int].start == spans[id.index as int].start);
        },
        Terminator::Branch { condition, if_true, if_false } => {
            assert(spans2[if_true.index as int].start == spans[if_true.index as int].start);
            assert(spans2[if_false.index as int].start == spans[if_false.index as int].start);
        },
        _ => {},
    }
}

/// The blocks after a block without commands was added.
pub open spec fn spec_with_pending(s: Seq<BlockView>) -> Seq<BlockView> {
    s.push(BlockView::Code { commands: Seq::empty(), terminator: Terminator::End })
}

/// The places after a block that starts at `t` and is not read yet was added.
pub open spec fn spec_spans_with_pending(spans: Seq<SpanView>, t: Ip) -> Seq<SpanView> {
    spans.push(SpanView { start: t, addrs: Seq::empty(), end: t, closed: false })
}

/// Adding a block at an offset where nothing was read, to be read later,
/// keeps the state sound.
pub proof fn lemma_pending_inv(
    b: Seq<u8>,
    s: Seq<BlockView>,
    spans: Seq<SpanView>,
    covered: Set<int>,
    roots: Set<int>,
    current: int,
    t: Ip,
)
    requires
        spec_inv(b, s, spans, covered, roots, current),
        current < s.len(),
        forall|j: int| 0 <= j < s.len() ==> (#[trigger] spans[j]).start != t,
        forall|j: int| 0 <= j < s.len() ==> !#[trigger] spec_point_of(s, spans, j, t as int),
        spec_demanded(b, roots, t as int),
        spec_targeted(b, roots, t as int),
    ensures
        spec_inv(b, spec_with_pending(s), spec_spans_with_pending(spans, t), covered, roots, current),
{
    let s2 = spec_with_pending(s);
    let spans2 = spec_spans_with_pending(spans, t);
    let n = s.len() as int;
    assert forall|i: int| 0 <= i < s2.len() implies #[trigger] spec_block_ok(b, s2, spans2, i) by {
        if i < n {
            assert(spec_block_ok(b, s, spans, i));
            lemma_block_ok_frame(b, s, spans, s2, spans2, i);
        }
    }
    assert forall|a: int| #[trigger] covered.contains(a) implies 0 <= a < b.len() && exists|i: int|
        0 <= i < s2.len() && #[trigger] spec_point_of(s2, spans2, i, a) by {
        let i = choose|i: int| 0 <= i < s.len() && #[trigger] spec_point_of(s, spans, i, a);
        lemma_point_frame(s, spans, s2, spans2, i, a);
    }
    assert(!covered.contains(t as int)) by {
        if covered.contains(t as int) {
            let i = choose|i: int| 0 <= i < s.len() && #[trigger] spec_point_of(s, spans, i, t as int);
        }
    }
    assert forall|i: int|
        0 <= i < s2.len() && !(#[trigger] spans2[i]).closed && spans2[i].addrs.len()
            == 0 implies !covered.contains(spans2[i].start as int) by {
        if i < n {
            assert(spans2[i] == spans[i]);
        }
    }
    assert forall|i: int|
        0 <= i < s2.len() && !(#[trigger] spans2[i]).closed && i != current implies spans2[i].addrs.len()
        == 0 by {
        if i < n {
            assert(spans2[i] == spans[i]);
        }
    }
    assert forall|i: int| 0 <= i < s2.len() && s2[i] is Code implies #[trigger] spec_block_demanded(
        b,
        roots,
        spans2[i],
    ) by {
        if i < n {
            assert(spec_block_demanded(b, roots, spans[i]));
        }
    }
    assert forall|i: int| 0 <= i < s2.len() && s2[i] is Data implies spec_data_demanded(
        b,
        roots,
        (#[trigger] spans2[i]).start as int,
    ) by {
        if i < n {
            assert(spans2[i] == spans[i]);
        }
    }
    assert forall|i: int, j: int|
        0 <= i < s2.len() && s2[i] is Data && 0 <= j < s2.len() implies !#[trigger] spec_point_of(
        s2,
        spans2,
        j,
        spans2[i].start as int,
    ) by {
        if j < n && spec_point_of(s2, spans2, j, spans2[i].start as int) {
            lemma_point_frame(s2, spans2, s, spans, j, spans2[i].start as int);
            assert(!spec_point_of(s, spans, j, spans[i].start as int));
        }
    }
    lemma_pending_shape(b, s, spans, roots, t);
}

/// An offset at which an instruction of a block was read stays one where
/// the block and its place stay as they are.
pub proof fn lemma_point_frame(
    s: Seq<BlockView>,
    spans: Seq<SpanView>,
    s2: Seq<BlockView>,
    spans2: Seq<SpanView>,
    i: int,
    a: int,
)
    requires
        spec_point_of(s, spans, i, a),
        s2[i] == s[i],
        spans2[i] == spans[i],
    ensures
        spec_point_of(s2, spans2, i, a),
{
    if exists|k: int| 0 <= k < spans[i].addrs.len() && #[trigger] spans[i].addrs[k] == a {
        let k = choose|k: int| 0 <= k < spans[i].addrs.len() && #[trigger] spans[i].addrs[k] == a;
        assert(spans2[i].addrs[k] == a);
    }
}

/// The places after a data block that starts at `t` was added.
pub open spec fn spec_spans_with_data(spans: Seq<SpanView>, t: Ip) -> Seq<SpanView> {
    spans.push(SpanView { start: t, addrs: Seq::empty(), end: t, closed: true })
}

/// Adding the data block that the stream holds at an offset where no block
/// starts keeps the state sound.
pub proof fn lemma_data_inv(
    b: Seq<u8>,
    s: Seq<BlockView>,
    spans: Seq<SpanView>,
    covered: Set<int>,
    roots: Set<int>,
    current: int,
    t: Ip,
    bytes: Seq<u8>,
)
    requires
        spec_inv(b, s, spans, covered, roots, current),
        current < s.len(),
        forall|j: int| 0 <= j < s.len() ==> (#[trigger] spans[j]).start != t,
        spec_parse_data(b, t as int) == Some(bytes),
        spec_data_demanded(b, roots, t as int),
        forall|j: int| 0 <= j < s.len() ==> !#[trigger] spec_point_of(s, spans, j, t as int),
    ensures
        spec_inv(
            b,
            s.push(BlockView::Data { bytes }),
            spec_spans_with_data(spans, t),
            covered,
            roots,
            current,
        ),
{
    let s2 = s.push(BlockView::Data { bytes });
    let spans2 = spec_spans_with_data(spans, t);
    let n = s.len() as int;
    assert forall|i: int| 0 <= i < s2.len() implies #[trigger] spec_block_ok(b, s2, spans2, i) by {
        if i < n {
            assert(spec_block_ok(b, s, spans, i));
            lemma_block_ok_frame(b, s, spans, s2, spans2, i);
        }
    }
    assert forall|a: int| #[trigger] covered.contains(a) implies 0 <= a < b.len() && exists|i: int|
        0 <= i < s2.len() && #[trigger] spec_point_of(s2, spans2, i, a) by {
        let i = choose|i: int| 0 <= i < s.len() && #[trigger] spec_point_of(s, spans, i, a);
        lemma_point_frame(s, spans, s2, spans2, i, a);
    }
    assert forall|i: int|
        0 <= i < s2.len() && !(#[trigger] spans2[i]).closed && spans2[i].addrs.len()
            == 0 implies !covered.contains(spans2[i].start as int) by {
        if i < n {
            assert(spans2[i] == spans[i]);
        }
    }
    assert forall|i: int|
        0 <= i < s2.len() && !(#[trigger] spans2[i]).closed && i != current implies spans2[i].addrs.len()
        == 0 by {
        if i < n {
            assert(spans2[i] == spans[i]);
        }
    }
    assert forall|i: int| 0 <= i < s2.len() && s2[i] is Code implies #[trigger] spec_block_demanded(
        b,
        roots,
        spans2[i],
    ) by {
        if i < n {
            assert(spec_block_demanded(b, roots, spans[i]));
        }
    }
    assert forall|i: int| 0 <= i < s2.len() && s2[i] is Data implies spec_data_demanded(
        b,
        roots,
        (#[trigger] spans2[i]).start as int,
    ) by {
        if i < n {
            assert(spans2[i] == spans[i]);
        }
    }
    assert forall|i: int, j: int|
        0 <= i < s2.len() && s2[i] is Data && 0 <= j < s2.len() implies !#[trigger] spec_point_of(
        s2,
        spans2,
        j,
        spans2[i].start as int,
    ) by {
        if j < n && spec_point_of(s2, spans2, j, spans2[i].start as int) {
            lemma_point_frame(s2, spans2, s, spans, j, spans2[i].start as int);
            if i < n {
                assert(!spec_point_of(s, spans, j, spans[i].start as int));
            }
        }
    }
    lemma_data_shape(b, s, spans, roots, t, bytes);
}

/// The blocks after a command was added to the block with index `cur`.
pub open spec fn spec_with_command(s: Seq<BlockView>, cur: int, c: Command<BlockId>) -> Seq<BlockView> {
    s.update(
        cur,
        BlockView::Code { commands: s[cur]->commands.push(c), terminator: s[cur]->terminator },
    )
}

/// The places after a command that stands at `at` and ends at `end` was
/// added to the block with index `cur`.
pub open spec fn spec_spans_with_command(spans: Seq<SpanView>, cur: int, at: Ip, end: Ip) -> Seq<
    SpanView,
> {
    spans.update(
        cur,
        SpanView {
            start: spans[cur].start,
            addrs: spans[cur].addrs.push(at),
            end,
            closed: spans[cur].closed,
        },
    )
}

/// Adding the command that the stream holds where the open block ends
/// keeps the state sound.
pub proof fn lemma_command_inv(
    b: Seq<u8>,
    s: Seq<BlockView>,
    spans: Seq<SpanView>,
    covered: Set<int>,
    roots: Set<int>,
    cur: int,
    c: Command<BlockId>,
    end: Ip,
)
    requires
        spec_inv(b, s, spans, covered, roots, cur),
        0 <= cur < s.len(),
        s[cur] is Code,
        !spans[cur].closed,
        spec_command_consistent(s, c),
        spec_parse_op(b, spans[cur].end as int) == Ok::<(Op<Ip>, int), Error>(
            (Op::Command(spec_lower_command(c, spec_starts(spans))), end as int),
        ),
        forall|j: int| 0 <= j < s.len() && j != cur ==> (#[trigger] spans[j]).start != spans[cur].end,
        spans[cur].addrs.len() > 0 ==> forall|j: int|
            0 <= j < s.len() ==> !#[trigger] spec_point_of(s, spans, j, spans[cur].end as int),
    ensures
        spec_inv(
            b,
            spec_with_command(s, cur, c),
            spec_spans_with_command(spans, cur, spans[cur].end, end),
            covered.insert(spans[cur].end as int),
            roots,
            cur,
        ),
{
    let at = spans[cur].end;
    let s2 = spec_with_command(s, cur, c);
    let spans2 = spec_spans_with_command(spans, cur, at, end);
    let n = s.len() as int;
    let starts = spec_starts(spans);
    let starts2 = spec_starts(spans2);
    assert(starts2 =~= starts);
    lemma_parse_op_advances(b, at as int);
    assert(spec_block_ok(b, s, spans, cur));
    assert forall|i: int| 0 <= i < s2.len() implies #[trigger] spec_block_ok(b, s2, spans2, i) by {
        assert(spec_block_ok(b, s, spans, i));
        if i != cur {
            lemma_block_ok_frame(b, s, spans, s2, spans2, i);
        } else {
            let commands = s[cur]->commands;
            let commands2 = s2[cur]->commands;
            let span = spans[cur];
            let span2 = spans2[cur];
            assert forall|k: int| 0 <= k < commands2.len() implies #[trigger] spec_command_ok(
                b,
                s2,
                span2,
                starts2,
                commands2,
                k,
            ) by {
                if k < commands.len() {
                    assert(spec_command_ok(b, s, span, starts, commands, k));
                    assert(commands2[k] == commands[k]);
                    assert(span2.addrs[k] == span.addrs[k]);
                }
            }
            assert forall|j: int, k: int| 0 <= j < k < commands2.len() implies #[trigger] span2.addrs[j]
                < #[trigger] span2.addrs[k] by {
                if k < commands.len() {
                    assert(span.addrs[j] < span.addrs[k]);
                } else {
                    assert(span.addrs[j] < span.end);
                }
            }
            assert forall|k: int| 0 <= k < commands2.len() implies #[trigger] span2.addrs[k]
                < span2.end by {
                if k < commands.len() {
                    assert(span.addrs[k] < span.end);
                }
            }
        }
    }
    assert forall|a: int| #[trigger] covered.insert(at as int).contains(a) implies 0 <= a < b.len()
        && exists|i: int| 0 <= i < s2.len() && #[trigger] spec_point_of(s2, spans2, i, a) by {
        if a == at {
            assert(spans2[cur].addrs[spans[cur].addrs.len() as int] == at);
            assert(spec_point_of(s2, spans2, cur, a));
        } else {
            let i = choose|i: int| 0 <= i < s.len() && #[trigger] spec_point_of(s, spans, i, a);
            if i != cur {
                lemma_point_frame(s, spans, s2, spans2, i, a);
            } else {
                let k = choose|k: int|
                    0 <= k < spans[i].addrs.len() && #[trigger] spans[i].addrs[k] == a;
                assert(spans2[i].addrs[k] == a);
                assert(spec_point_of(s2, spans2, i, a));
            }
        }
    }
    assert forall|i: int|
        0 <= i < s2.len() && !(#[trigger] spans2[i]).closed && spans2[i].addrs.len()
            == 0 implies !covered.insert(at as int).contains(spans2[i].start as int) by {
        assert(spans2[i] == spans[i]);
    }
    assert forall|i: int|
        0 <= i < s2.len() && !(#[trigger] spans2[i]).closed && i != cur implies spans2[i].addrs.len()
        == 0 by {
        assert(spans2[i] == spans[i]);
    }
    assert forall|i: int| 0 <= i < s2.len() && s2[i] is Code implies #[trigger] spec_block_demanded(
        b,
        roots,
        spans2[i],
    ) by {
        assert(spec_block_demanded(b, roots, spans[i]));
        if i == cur {
            lemma_demanded_step(b, roots, at as int, end as int);
            assert forall|k: int| 0 <= k < spans2[i].addrs.len() implies spec_demanded(
                b,
                roots,
                #[trigger] spans2[i].addrs[k] as int,
            ) by {
                if k < spans[i].addrs.len() {
                    assert(spans2[i].addrs[k] == spans[i].addrs[k]);
                }
            }
        }
    }
    assert forall|i: int| 0 <= i < s2.len() && s2[i] is Data implies spec_data_demanded(
        b,
        roots,
        (#[trigger] spans2[i]).start as int,
    ) by {
        assert(spans2[i] == spans[i]);
    }
    assert forall|i: int, j: int|
        0 <= i < s2.len() && s2[i] is Data && 0 <= j < s2.len() implies !#[trigger] spec_point_of(
        s2,
        spans2,
        j,
        spans2[i].start as int,
    ) by {
        let x = spans2[i].start as int;
        assert(spans2[i] == spans[i]);
        assert(!spec_point_of(s, spans, j, spans[i].start as int));
        if spec_point_of(s2, spans2, j, x) {
            if j != cur {
                lemma_point_frame(s2, spans2, s, spans, j, x);
            } else {
                let k = choose|k: int|
                    0 <= k < spans2[j].addrs.len() && #[trigger] spans2[j].addrs[k] == x;
                if k < spans[j].addrs.len() {
                    assert(spans[j].addrs[k] == x);
                }
            }
        }
    }
    lemma_grown_shape(b, s, spans, s2, spans2, roots, cur);
}

/// The blocks after the block with index `cur` got its terminator.
pub open spec fn spec_with_end(s: Seq<BlockView>, cur: int, t: Terminator<BlockId>) -> Seq<BlockView> {
    s.update(cur, BlockView::Code { commands: s[cur]->commands, terminator: t })
}

/// The places after the block with index `cur` was closed.
pub open spec fn spec_spans_closed(spans: Seq<SpanView>, cur: int) -> Seq<SpanView> {
    spans.update(
        cur,
        SpanView {
            start: spans[cur].start,
            addrs: spans[cur].addrs,
            end: spans[cur].end,
            closed: true,
        },
    )
}

/// Closing the open block with the instruction that the stream holds where
/// the block ends, or by falling through to the block that starts there,
/// keeps the state sound.
pub proof fn lemma_close_inv(
    b: Seq<u8>,
    s: Seq<BlockView>,
    spans: Seq<SpanView>,
    covered: Set<int>,
    roots: Set<int>,
    cur: int,
    t: Terminator<BlockId>,
)
    requires
        spec_inv(b, s, spans, covered, roots, cur),
        0 <= cur < s.len(),
        s[cur] is Code,
        !spans[cur].closed,
        spec_end_ok(b, s, spans[cur], spec_starts(spans), s[cur]->commands.len(), t),
        !(t is Fallthrough) ==> forall|j: int|
            0 <= j < s.len() && j != cur ==> (#[trigger] spans[j]).start != spans[cur].end,
        t is Fallthrough ==> forall|p: int|
            0 <= p < s.len() && p != cur && #[trigger] spec_falls(s, spans, p) ==> spans[p].end
                != spans[cur].end,
        !(t is Fallthrough) && spans[cur].addrs.len() > 0 ==> forall|j: int|
            0 <= j < s.len() ==> !#[trigger] spec_point_of(s, spans, j, spans[cur].end as int),
    ensures
        spec_inv(
            b,
            spec_with_end(s, cur, t),
            spec_spans_closed(spans, cur),
            if t is Fallthrough {
                covered
            } else {
                covered.insert(spans[cur].end as int)
            },
            roots,
            -1,
        ),
{
    let at = spans[cur].end;
    let s2 = spec_with_end(s, cur, t);
    let spans2 = spec_spans_closed(spans, cur);
    let covered2 = if t is Fallthrough {
        covered
    } else {
        covered.insert(at as int)
    };
    let starts = spec_starts(spans);
    let starts2 = spec_starts(spans2);
    assert(starts2 =~= starts);
    lemma_parse_op_advances(b, at as int);
    assert(spec_block_ok(b, s, spans, cur));
    assert forall|i: int| 0 <= i < s2.len() implies #[trigger] spec_block_ok(b, s2, spans2, i) by {
        assert(spec_block_ok(b, s, spans, i));
        if i != cur {
            lemma_block_ok_frame(b, s, spans, s2, spans2, i);
        } else {
            let commands = s[cur]->commands;
            let span = spans[cur];
            let span2 = spans2[cur];
            assert forall|k: int| 0 <= k < commands.len() implies #[trigger] spec_command_ok(
                b,
                s2,
                span2,
                starts2,
                commands,
                k,
            ) by {
                assert(spec_command_ok(b, s, span, starts, commands, k));
            }
            lemma_end_ok_frame(b, s, spans, s2, spans2, span, commands.len(), t);
        }
    }
    assert forall|a: int| #[trigger] covered2.contains(a) implies 0 <= a < b.len() && exists|i: int|
        0 <= i < s2.len() && #[trigger] spec_point_of(s2, spans2, i, a) by {
        if !covered.contains(a) {
            assert(spec_point_of(s2, spans2, cur, a));
        } else {
            let i = choose|i: int| 0 <= i < s.len() && #[trigger] spec_point_of(s, spans, i, a);
            if i != cur {
                lemma_point_frame(s, spans, s2, spans2, i, a);
            } else {
                let k = choose|k: int|
                    0 <= k < spans[i].addrs.len() && #[trigger] spans[i].addrs[k] == a;
                assert(spans2[i].addrs[k] == a);
                assert(spec_point_of(s2, spans2, i, a));
            }
        }
    }
    assert forall|i: int|
        0 <= i < s2.len() && !(#[trigger] spans2[i]).closed && spans2[i].addrs.len()
            == 0 implies !covered2.contains(spans2[i].start as int) by {
        assert(spans2[i] == spans[i]);
    }
    assert forall|i: int|
        0 <= i < s2.len() && !(#[trigger] spans2[i]).closed && i != -1 implies spans2[i].addrs.len()
        == 0 by {
        assert(spans2[i] == spans[i]);
    }
    assert forall|i: int| 0 <= i < s2.len() && s2[i] is Code implies #[trigger] spec_block_demanded(
        b,
        roots,
        spans2[i],
    ) by {
        assert(spec_block_demanded(b, roots, spans[i]));
    }
    assert forall|i: int| 0 <= i < s2.len() && s2[i] is Data implies spec_data_demanded(
        b,
        roots,
        (#[trigger] spans2[i]).start as int,
    ) by {
        assert(spans2[i] == spans[i]);
    }
    assert forall|i: int, j: int|
        0 <= i < s2.len() && s2[i] is Data && 0 <= j < s2.len() implies !#[trigger] spec_point_of(
        s2,
        spans2,
        j,
        spans2[i].start as int,
    ) by {
        let x = spans2[i].start as int;
        assert(spans2[i] == spans[i]);
        assert(!spec_point_of(s, spans, j, spans[i].start as int));
        if spec_point_of(s2, spans2, j, x) {
            if j != cur {
                lemma_point_frame(s2, spans2, s, spans, j, x);
            } else if exists|k: int|
                0 <= k < spans2[j].addrs.len() && #[trigger] spans2[j].addrs[k] == x {
                let k = choose|k: int|
                    0 <= k < spans2[j].addrs.len() && #[trigger] spans2[j].addrs[k] == x;
                assert(spans[j].addrs[k] == x);
            }
        }
    }
    if t is Fallthrough {
        lemma_fall_shape(b, s, spans, roots, cur, t);
    } else {
        lemma_grown_shape(b, s, spans, s2, spans2, roots, cur);
    }
}

/// The offset in front of the instruction at place `k` of a block: the
/// offset of a command, or of the instruction that ends the block.
pub open spec fn spec_split_at(span: SpanView, k: int) -> Ip {
    if k < span.addrs.len() {
        span.addrs[k]
    } else {
        span.end
    }
}

/// The blocks after the block with index `i` was split in front of the
/// instruction at place `k`: the block keeps its first `k` commands and
/// falls through to a new block, which holds the rest and ends as the
/// block did.
pub open spec fn spec_split_blocks(s: Seq<BlockView>, i: int, k: int) -> Seq<BlockView> {
    let commands = s[i]->commands;
    s.update(
        i,
        BlockView::Code {
            commands: commands.subrange(0, k),
            terminator: Terminator::Fallthrough(BlockId { index: s.len() as usize }),
        },
    ).push(
        BlockView::Code {
            commands: commands.subrange(k, commands.len() as int),
            terminator: s[i]->terminator,
        },
    )
}

/// The places after the block with index `i` was split in front of the
/// instruction at place `k`.
pub open spec fn spec_split_spans(spans: Seq<SpanView>, i: int, k: int) -> Seq<SpanView> {
    let span = spans[i];
    let t = spec_split_at(span, k);
    spans.update(
        i,
        SpanView { start: span.start, addrs: span.addrs.subrange(0, k), end: t, closed: true },
    ).push(
        SpanView {
            start: t,
            addrs: span.addrs.subrange(k, span.addrs.len() as int),
            end: span.end,
            closed: span.closed,
        },
    )
}

/// Splitting a block in front of one of its instructions keeps the state
/// sound. Where the block that is being read is split, reading goes on in
/// the new block.
pub proof fn lemma_split_inv(
    b: Seq<u8>,
    s: Seq<BlockView>,
    spans: Seq<SpanView>,
    covered: Set<int>,
    roots: Set<int>,
    current: int,
    i: int,
    k: int,
)
    requires
        spec_inv(b, s, spans, covered, roots, current),
        s.len() <= usize::MAX,
        0 <= i < s.len(),
        s[i] is Code,
        0 < k <= spans[i].addrs.len(),
        k == spans[i].addrs.len() ==> spans[i].closed && !(s[i]->terminator is Fallthrough),
        forall|j: int|
            0 <= j < s.len() ==> (#[trigger] spans[j]).start != spec_split_at(spans[i], k),
        spec_targeted(b, roots, spec_split_at(spans[i], k) as int),
    ensures
        spec_inv(
            b,
            spec_split_blocks(s, i, k),
            spec_split_spans(spans, i, k),
            covered,
            roots,
            if current == i {
                s.len() as int
            } else {
                current
            },
        ),
{
    let n = s.len() as int;
    let s2 = spec_split_blocks(s, i, k);
    let spans2 = spec_split_spans(spans, i, k);
    let current2 = if current == i {
        n
    } else {
        current
    };
    let span = spans[i];
    let t = spec_split_at(span, k);
    let commands = s[i]->commands;
    let terminator = s[i]->terminator;
    let len = commands.len() as int;
    let starts = spec_starts(spans);
    let starts2 = spec_starts(spans2);
    assert(spec_block_ok(b, s, spans, i));
    assert forall|j: int| 0 <= j < n implies (#[trigger] spans2[j]).start == spans[j].start && (
    s2[j] is Code <==> s[j] is Code) by {}
    assert forall|id: BlockId| id.index < n implies #[trigger] spec_offset_of(id, starts2)
        == spec_offset_of(id, starts) by {
        assert(spans2[id.index as int].start == spans[id.index as int].start);
    }
    assert forall|x: int| 0 <= x < s2.len() implies #[trigger] spec_block_ok(b, s2, spans2, x) by {
        if x < n && x != i {
            assert(spec_block_ok(b, s, spans, x));
            lemma_block_ok_frame(b, s, spans, s2, spans2, x);
        } else if x == i {
            let commands2 = s2[i]->commands;
            let span2 = spans2[i];
            assert forall|m: int| 0 <= m < commands2.len() implies #[trigger] spec_command_ok(
                b,
                s2,
                span2,
                starts2,
                commands2,
                m,
            ) by {
                assert(spec_command_ok(b, s, span, starts, commands, m));
                assert(commands2[m] == commands[m]);
                assert(span2.addrs[m] == span.addrs[m]);
                if m + 1 < k {
                    assert(span2.addrs[m + 1] == span.addrs[m + 1]);
                }
                match commands[m] {
                    Command::Call(id) => {
                        assert(spec_offset_of(id, starts2) == spec_offset_of(id, starts));
                    },
                    Command::Msg(id) => {
                        assert(spec_offset_of(id, starts2) == spec_offset_of(id, starts));
                    },
                    _ => {},
                }
            }
            assert forall|j: int, m: int| 0 <= j < m < commands2.len() implies #[trigger] span2.addrs[j]
                < #[trigger] span2.addrs[m] by {
                assert(span.addrs[j] < span.addrs[m]);
            }
            assert forall|m: int| 0 <= m < commands2.len() implies #[trigger] span2.addrs[m]
                < span2.end by {
                if k < len {
                    assert(span.addrs[m] < span.addrs[k]);
                } else {
                    assert(span.addrs[m] < span.end);
                }
            }
            assert(span2.addrs[0] == span.addrs[0]);
            assert(starts2[n] == t);
        } else {
            let commands3 = s2[n]->commands;
            let span3 = spans2[n];
            assert forall|m: int| 0 <= m < commands3.len() implies #[trigger] spec_command_ok(
                b,
                s2,
                span3,
                starts2,
                commands3,
                m,
            ) by {
                assert(spec_command_ok(b, s, span, starts, commands, k + m));
                assert(commands3[m] == commands[k + m]);
                assert(span3.addrs[m] == span.addrs[k + m]);
                if m + 1 < commands3.len() {
                    assert(span3.addrs[m + 1] == span.addrs[k + m + 1]);
                }
                match commands[k + m] {
                    Command::Call(id) => {
                        assert(spec_offset_of(id, starts2) == spec_offset_of(id, starts));
                    },
                    Command::Msg(id) => {
                        assert(spec_offset_of(id, starts2) == spec_offset_of(id, starts));
                    },
                    _ => {},
                }
            }
            assert forall|j: int, m: int| 0 <= j < m < commands3.len() implies #[trigger] span3.addrs[j]
                < #[trigger] span3.addrs[m] by {
                assert(span.addrs[k + j] < span.addrs[k + m]);
            }
            assert forall|m: int| 0 <= m < commands3.len() implies #[trigger] span3.addrs[m]
                < span3.end by {
                assert(span.addrs[k + m] < span.end);
            }
            if commands3.len() > 0 {
                assert(span3.addrs[0] == span.addrs[k]);
            }
            if span.closed {
                lemma_end_ok_frame(b, s, spans, s2, spans2, span, commands.len(), terminator);
            }
        }
    }
    assert forall|x: int, y: int| 0 <= x < y < spans2.len() implies #[trigger] spans2[x].start
        != #[trigger] spans2[y].start by {
        if y < n {
            assert(spans[x].start != spans[y].start);
        } else {
            assert(spans[x].start != t);
        }
    }
    assert forall|a: int| #[trigger] covered.contains(a) implies 0 <= a < b.len() && exists|x: int|
        0 <= x < s2.len() && #[trigger] spec_point_of(s2, spans2, x, a) by {
        let x = choose|x: int| 0 <= x < s.len() && #[trigger] spec_point_of(s, spans, x, a);
        if x != i {
            lemma_point_frame(s, spans, s2, spans2, x, a);
        } else if exists|m: int| 0 <= m < span.addrs.len() && #[trigger] span.addrs[m] == a {
            let m = choose|m: int| 0 <= m < span.addrs.len() && #[trigger] span.addrs[m] == a;
            if m < k {
                assert(spans2[i].addrs[m] == a);
                assert(spec_point_of(s2, spans2, i, a));
            } else {
                assert(spans2[n].addrs[m - k] == a);
                assert(spec_point_of(s2, spans2, n, a));
            }
        } else {
            assert(spec_point_of(s2, spans2, n, a));
        }
    }
    assert forall|x: int|
        0 <= x < s2.len() && !(#[trigger] spans2[x]).closed && spans2[x].addrs.len()
            == 0 implies !covered.contains(spans2[x].start as int) by {
        if x < n {
            assert(spans2[x] == spans[x]);
        }
    }
    assert forall|x: int|
        0 <= x < s2.len() && !(#[trigger] spans2[x]).closed && x != current2
            implies spans2[x].addrs.len()
        == 0 by {
        if x < n {
            assert(spans2[x] == spans[x]);
        } else {
            assert(!spans[i].closed);
        }
    }
    assert forall|x: int| 0 <= x < s2.len() && s2[x] is Code implies #[trigger] spec_block_demanded(
        b,
        roots,
        spans2[x],
    ) by {
        assert(spec_block_demanded(b, roots, spans[i]));
        if x < n && x != i {
            assert(spec_block_demanded(b, roots, spans[x]));
        } else if x == i {
            if k < len {
                assert(span.addrs[k] == t);
            }
            assert forall|m: int| 0 <= m < spans2[i].addrs.len() implies spec_demanded(
                b,
                roots,
                #[trigger] spans2[i].addrs[m] as int,
            ) by {
                assert(spans2[i].addrs[m] == span.addrs[m]);
            }
        } else {
            assert forall|m: int| 0 <= m < spans2[n].addrs.len() implies spec_demanded(
                b,
                roots,
                #[trigger] spans2[n].addrs[m] as int,
            ) by {
                assert(spans2[n].addrs[m] == span.addrs[k + m]);
            }
        }
    }
    assert forall|x: int| 0 <= x < s2.len() && s2[x] is Data implies spec_data_demanded(
        b,
        roots,
        (#[trigger] spans2[x]).start as int,
    ) by {
        assert(spans2[x] == spans[x]);
    }
    assert forall|d: int, j: int|
        0 <= d < s2.len() && s2[d] is Data && 0 <= j < s2.len() implies !#[trigger] spec_point_of(
        s2,
        spans2,
        j,
        spans2[d].start as int,
    ) by {
        let x = spans2[d].start as int;
        assert(spans2[d] == spans[d]);
        assert(!spec_point_of(s, spans, i, spans[d].start as int));
        if spec_point_of(s2, spans2, j, x) {
            if j < n && j != i {
                assert(!spec_point_of(s, spans, j, spans[d].start as int));
                lemma_point_frame(s2, spans2, s, spans, j, x);
            } else if j == i {
                let m = choose|m: int|
                    0 <= m < spans2[i].addrs.len() && #[trigger] spans2[i].addrs[m] == x;
                assert(span.addrs[m] == x);
            } else if exists|m: int|
                0 <= m < spans2[n].addrs.len() && #[trigger] spans2[n].addrs[m] == x {
                let m = choose|m: int|
                    0 <= m < spans2[n].addrs.len() && #[trigger] spans2[n].addrs[m] == x;
                assert(span.addrs[k + m] == x);
            }
        }
    }
    lemma_falls_elsewhere(b, s, spans, covered, roots, current, t);
    lemma_split_shape(b, s, spans, roots, i, k);
}

/// Whether every block of `s` is still there in `s2`, of the same kind and
/// at the same start. A block may have been split since; then it holds
/// the commands in front of the split.
pub open spec fn spec_extends(
    s: Seq<BlockView>,
    spans: Seq<SpanView>,
    s2: Seq<BlockView>,
    spans2: Seq<SpanView>,
) -> bool {
    &&& s.len() == spans.len()
    &&& s2.len() == spans2.len()
    &&& s.len() <= s2.len()
    &&& forall|j: int|
        0 <= j < s.len() ==> (#[trigger] spans2[j]).start == spans[j].start && (s2[j] is Code
            <==> s[j] is Code)
}

/// Whether a data block starts at `t`.
pub open spec fn spec_data_starts_at(s: Seq<BlockView>, spans: Seq<SpanView>, t: Ip) -> bool {
    exists|j: int| 0 <= j < s.len() && (#[trigger] spans[j]).start == t && s[j] is Data
}

/// Whether `t` is taken by code: a code block starts there, or an
/// instruction was read there.
pub open spec fn spec_code_at(s: Seq<BlockView>, spans: Seq<SpanView>, t: Ip) -> bool {
    ||| exists|j: int| 0 <= j < s.len() && (#[trigger] spans[j]).start == t && s[j] is Code
    ||| exists|j: int| 0 <= j < s.len() && #[trigger] spec_point_of(s, spans, j, t as int)
}

/// Whether reading cannot go on at `at` for the reason `e`: the
/// instruction there does not parse, or a message's data block is cut
/// short, with the parser's own error; or, as an invalid header, code and
/// data collide. They collide where a data block starts at `at`, where
/// the instruction ends beyond the 32-bit range, where it jumps to or
/// calls the start of a data block, and where it takes its message from
/// its own offset or from a place taken by code.
pub open spec fn spec_stuck_at(
    b: Seq<u8>,
    s: Seq<BlockView>,
    spans: Seq<SpanView>,
    at: Ip,
    e: Error,
) -> bool {
    match spec_parse_op(b, at as int) {
        Err(e2) => e == e2 || (e == Error::InvalidHeader && spec_data_starts_at(s, spans, at)),
        Ok((op, end)) => match e {
            Error::InvalidHeader => {
                ||| spec_data_starts_at(s, spans, at)
                ||| end > u32::MAX
                ||| match op {
                    Op::Command(Command::Call(t)) => spec_data_starts_at(s, spans, t),
                    Op::Command(Command::Msg(t)) => t == at || spec_code_at(s, spans, t),
                    Op::Control(Terminator::Jump(t)) => spec_data_starts_at(s, spans, t),
                    Op::Control(Terminator::Branch { condition, if_true, if_false }) => spec_data_starts_at(
                        s,
                        spans,
                        if_true,
                    ) || spec_data_starts_at(s, spans, if_false),
                    _ => false,
                }
            },
            Error::TruncatedStream => op matches Op::Command(Command::Msg(t)) && spec_parse_data(
                b,
                t as int,
            ) is None,
            _ => false,
        },
    }
}

/// No more offsets can be covered than the stream has bytes.
pub proof fn lemma_covered_bound(b: Seq<u8>, covered: Set<int>)
    requires
        forall|a: int| #[trigger] covered.contains(a) ==> 0 <= a < b.len(),
    ensures
        covered.finite(),
        covered.len() <= b.len(),
{
    vstd::set_lib::lemma_int_range(0, b.len() as int);
    assert(covered.subset_of(vstd::set_lib::set_int_range(0, b.len() as int)));
    vstd::set_lib::lemma_len_subset(covered, vstd::set_lib::set_int_range(0, b.len() as int));
}

/// After a target was looked up, still no block but the one that is being
/// read starts where reading stands: blocks keep their starts, and a new
/// block starts at the target, which is another offset.
pub proof fn lemma_others_elsewhere(
    s: Seq<BlockView>,
    spans: Seq<SpanView>,
    s2: Seq<BlockView>,
    spans2: Seq<SpanView>,
    cur: int,
    cur2: int,
    at: Ip,
    t: Ip,
    begun: bool,
)
    requires
        spec_extends(s, spans, s2, spans2),
        0 <= cur < s.len(),
        0 <= cur2 < s2.len(),
        begun == (spans[cur].addrs.len() > 0),
        forall|j: int| 0 <= j < s.len() && j != cur ==> (#[trigger] spans[j]).start != at,
        begun ==> spans[cur].start != at,
        !begun ==> spans[cur].start == at,
        begun ==> t != at,
        forall|j: int| s.len() <= j < s2.len() ==> (#[trigger] spans2[j]).start == t,
        (exists|j: int| 0 <= j < s.len() && (#[trigger] spans[j]).start == t) ==> s2 == s && spans2
            == spans,
        cur2 == cur || (begun && cur2 >= s.len()),
    ensures
        forall|j: int| 0 <= j < s2.len() && j != cur2 ==> (#[trigger] spans2[j]).start != at,
        (spans2[cur2].addrs.len() > 0) ==> spans2[cur2].start != at || cur2 == cur,
{
    assert forall|j: int| 0 <= j < s2.len() && j != cur2 implies (#[trigger] spans2[j]).start
        != at by {
        if j < s.len() {
            assert(spans2[j].start == spans[j].start);
        } else {
            assert(spans2[j].start == t);
            if !begun && t == at {
                assert(spans[cur].start == t);
            }
        }
    }
}

/// After a target other than `at` was looked up, still no instruction was
/// read at `at`: a split moves instructions to another block but reads
/// none, and a new block has none yet.
pub proof fn lemma_points_kept(
    b: Seq<u8>,
    s: Seq<BlockView>,
    spans: Seq<SpanView>,
    s2: Seq<BlockView>,
    spans2: Seq<SpanView>,
    covered: Set<int>,
    cur: int,
    t: Ip,
    at: Ip,
)
    requires
        s.len() == spans.len(),
        s2.len() == spans2.len(),
        forall|j: int| 0 <= j < s.len() ==> !#[trigger] spec_point_of(s, spans, j, at as int),
        forall|j: int| 0 <= j < s.len() ==> (#[trigger] spans[j]).start != at,
        t != at,
        spec_step(s, spans, s2, spans2, t),
    ensures
        forall|j: int| 0 <= j < s2.len() ==> !#[trigger] spec_point_of(s2, spans2, j, at as int),
{
    assert forall|j: int| 0 <= j < s2.len() implies !#[trigger] spec_point_of(
        s2,
        spans2,
        j,
        at as int,
    ) by {
        if spec_point_of(s2, spans2, j, at as int) {
            if s2 == s && spans2 == spans {
            } else if s2.len() == s.len() + 1 && s2 == spec_with_pending(s) && spans2
                == spec_spans_with_pending(spans, t) {
                if j < s.len() {
                    lemma_point_frame(s2, spans2, s, spans, j, at as int);
                }
            } else {
                let (i, k) = choose|i: int, k: int|
                    0 <= i < s.len() && s[i] is Code && 0 < k <= spans[i].addrs.len() && s2
                        == spec_split_blocks(s, i, k) && spans2 == #[trigger] spec_split_spans(
                        spans,
                        i,
                        k,
                    ) && spans[i].addrs.len() == s[i]->commands.len();
                let n = s.len() as int;
                if j != i && j != n {
                    lemma_point_frame(s2, spans2, s, spans, j, at as int);
                } else if j == i {
                    if exists|m: int|
                        0 <= m < spans2[i].addrs.len() && #[trigger] spans2[i].addrs[m] == at as int {
                        let m = choose|m: int|
                            0 <= m < spans2[i].addrs.len() && #[trigger] spans2[i].addrs[m]
                                == at as int;
                        assert(spans[i].addrs[m] == at);
                        assert(spec_point_of(s, spans, i, at as int));
                    }
                } else {
                    if exists|m: int|
                        0 <= m < spans2[n].addrs.len() && #[trigger] spans2[n].addrs[m] == at as int {
                        let m = choose|m: int|
                            0 <= m < spans2[n].addrs.len() && #[trigger] spans2[n].addrs[m]
                                == at as int;
                        assert(spans[i].addrs[k + m] == at);
                        assert(spec_point_of(s, spans, i, at as int));
                    } else {
                        assert(spec_point_of(s, spans, i, at as int));
                    }
                }
            }
        }
    }
}

/// Whether `s2` came from `s` by looking up the code block at `t`: nothing
/// changed, or a block that is read later was added at `t`, or a block was
/// split.
pub open spec fn spec_step(
    s: Seq<BlockView>,
    spans: Seq<SpanView>,
    s2: Seq<BlockView>,
    spans2: Seq<SpanView>,
    t: Ip,
) -> bool {
    ||| s2 == s && spans2 == spans
    ||| s2 == spec_with_pending(s) && spans2 == spec_spans_with_pending(spans, t)
    ||| exists|i: int, k: int|
        0 <= i < s.len() && s[i] is Code && 0 < k <= spans[i].addrs.len() && s2 == spec_split_blocks(
            s,
            i,
            k,
        ) && spans2 == #[trigger] spec_split_spans(spans, i, k) && spans[i].addrs.len()
            == s[i]->commands.len()
}

/// What is still there after two steps was still there after the first.
pub proof fn lemma_extends_trans(
    s: Seq<BlockView>,
    spans: Seq<SpanView>,
    s2: Seq<BlockView>,
    spans2: Seq<SpanView>,
    s3: Seq<BlockView>,
    spans3: Seq<SpanView>,
)
    requires
        spec_extends(s, spans, s2, spans2),
        spec_extends(s2, spans2, s3, spans3),
    ensures
        spec_extends(s, spans, s3, spans3),
{
    assert forall|j: int| 0 <= j < s.len() implies (#[trigger] spans3[j]).start == spans[j].start
        && (s3[j] is Code <==> s[j] is Code) by {
        assert(spans2[j].start == spans[j].start);
        assert(spans3[j].start == spans2[j].start);
    }
}

/// In a sound state every reference leads to a block of the script and to
/// one of the right kind.
pub proof fn lemma_inv_consistent(
    b: Seq<u8>,
    s: Seq<BlockView>,
    spans: Seq<SpanView>,
    covered: Set<int>,
    roots: Set<int>,
    current: int,
)
    requires
        spec_inv(b, s, spans, covered, roots, current),
    ensures
        spec_consistent(s),
{
    assert forall|i: int| 0 <= i < s.len() implies spec_block_consistent(s, #[trigger] s[i]) by {
        assert(spec_block_ok(b, s, spans, i));
        match s[i] {
            BlockView::Code { commands, terminator } => {
                assert forall|k: int| 0 <= k < commands.len() implies spec_command_consistent(
                    s,
                    #[trigger] commands[k],
                ) by {
                    assert(spec_command_ok(b, s, spans[i], spec_starts(spans), commands, k));
                }
            },
            BlockView::Data { bytes } => {},
        }
    }
}

/// The commands that run from the start of the block with index `i` until
/// control is transferred: the commands of the block and, where it falls
/// through, those of the blocks that follow, each reference written as the
/// offset at which the block referred to starts. At most `fuel` blocks are
/// followed.
pub open spec fn spec_flat(s: Seq<BlockView>, spans: Seq<SpanView>, i: int, fuel: nat) -> Seq<
    Command<Ip>,
>
    decreases fuel,
{
    let own = spec_lower_commands(s[i]->commands, spec_starts(spans));
    match s[i]->terminator {
        Terminator::Fallthrough(id) => if fuel > 0 {
            own + spec_flat(s, spans, id.index as int, (fuel - 1) as nat)
        } else {
            own
        },
        _ => own,
    }
}

/// How control is transferred at the end of the commands that run from the
/// start of the block with index `i`: the terminator of the last block that
/// is fallen through to, each block written as the offset at which it
/// starts.
pub open spec fn spec_flat_end(s: Seq<BlockView>, spans: Seq<SpanView>, i: int, fuel: nat) -> Terminator<
    Ip,
>
    decreases fuel,
{
    match s[i]->terminator {
        Terminator::Fallthrough(id) => if fuel > 0 {
            spec_flat_end(s, spans, id.index as int, (fuel - 1) as nat)
        } else {
            spec_lower_terminator(s[i]->terminator, spec_starts(spans))
        },
        t => spec_lower_terminator(t, spec_starts(spans)),
    }
}

/// From the command at place `k` of a block on, the stream holds the rest
/// of the block's commands and then what stands where the block ends.
pub proof fn lemma_block_run(b: Seq<u8>, s: Seq<BlockView>, spans: Seq<SpanView>, i: int, k: int)
    requires
        0 <= i < s.len(),
        s.len() == spans.len(),
        s[i] is Code,
        spec_block_ok(b, s, spans, i),
        0 <= k <= s[i]->commands.len(),
    ensures
        ({
            let lowered = spec_lower_commands(s[i]->commands, spec_starts(spans));
            let at = spec_split_at(spans[i], k) as int;
            &&& spec_run(b, at) == lowered.subrange(k, lowered.len() as int) + spec_run(
                b,
                spans[i].end as int,
            )
            &&& spec_run_end(b, at) == spec_run_end(b, spans[i].end as int)
        }),
    decreases s[i]->commands.len() - k,
{
    let commands = s[i]->commands;
    let lowered = spec_lower_commands(commands, spec_starts(spans));
    let span = spans[i];
    if k < commands.len() {
        lemma_block_run(b, s, spans, i, k + 1);
        assert(spec_command_ok(b, s, span, spec_starts(spans), commands, k));
        let at = span.addrs[k] as int;
        let next = spec_next_addr(span, k) as int;
        lemma_parse_op_advances(b, at);
        assert(next == spec_split_at(span, k + 1));
        assert(lowered[k] == spec_lower_command(commands[k], spec_starts(spans)));
        assert(lowered.subrange(k, lowered.len() as int) =~= seq![lowered[k]] + lowered.subrange(
            k + 1,
            lowered.len() as int,
        ));
        assert(seq![lowered[k]] + (lowered.subrange(k + 1, lowered.len() as int) + spec_run(
            b,
            span.end as int,
        )) =~= lowered.subrange(k, lowered.len() as int) + spec_run(b, span.end as int));
    } else {
        assert(lowered.subrange(k, lowered.len() as int) =~= Seq::<Command<Ip>>::empty());
        assert(Seq::<Command<Ip>>::empty() + spec_run(b, span.end as int) =~= spec_run(
            b,
            span.end as int,
        ));
    }
}

/// However the blocks were cut while decoding, the commands from the start
/// of a block up to the next transfer of control are those that the stream
/// holds from the block's offset on, and control is transferred as the
/// instruction behind them says. Both depend on the stream and the offset
/// alone: it does not matter in which order offsets were decoded, nor
/// which blocks were split on the way.
pub proof fn lemma_flat_is_run(
    b: Seq<u8>,
    s: Seq<BlockView>,
    spans: Seq<SpanView>,
    covered: Set<int>,
    roots: Set<int>,
    i: int,
    fuel: nat,
)
    requires
        spec_inv(b, s, spans, covered, roots, -1),
        forall|j: int| 0 <= j < s.len() ==> (#[trigger] spans[j]).closed,
        0 <= i < s.len(),
        s[i] is Code,
        fuel >= b.len() - spans[i].start,
    ensures
        spec_flat(s, spans, i, fuel) == spec_run(b, spans[i].start as int),
        !(spec_flat_end(s, spans, i, fuel) is Fallthrough),
        spec_parse_op(b, spec_run_end(b, spans[i].start as int)) matches Ok((op, _)) && op
            == Op::Control(spec_flat_end(s, spans, i, fuel)),
    decreases fuel,
{
    let span = spans[i];
    let commands = s[i]->commands;
    let lowered = spec_lower_commands(commands, spec_starts(spans));
    assert(spec_block_ok(b, s, spans, i));
    lemma_block_run(b, s, spans, i, 0);
    assert(spec_split_at(span, 0) == span.start);
    assert(lowered.subrange(0, lowered.len() as int) =~= lowered);
    match s[i]->terminator {
        Terminator::Fallthrough(id) => {
            let last = commands.len() - 1;
            assert(spec_command_ok(b, s, span, spec_starts(spans), commands, last));
            lemma_parse_op_advances(b, span.addrs[last] as int);
            assert(span.addrs[0] < span.end);
            assert(spec_block_ok(b, s, spans, id.index as int));
            lemma_flat_is_run(b, s, spans, covered, roots, id.index as int, (fuel - 1) as nat);
        },
        t => {
            lemma_parse_op_advances(b, span.end as int);
            assert(lowered + Seq::<Command<Ip>>::empty() =~= lowered);
        },
    }
}

/// A sound state stays sound when more offsets count as asked for.
pub proof fn lemma_inv_more_roots(
    b: Seq<u8>,
    s: Seq<BlockView>,
    spans: Seq<SpanView>,
    covered: Set<int>,
    few: Set<int>,
    many: Set<int>,
    current: int,
)
    requires
        spec_inv(b, s, spans, covered, few, current),
        few.subset_of(many),
    ensures
        spec_inv(b, s, spans, covered, many, current),
{
    assert forall|i: int| 0 <= i < s.len() && s[i] is Code implies #[trigger] spec_block_demanded(
        b,
        many,
        spans[i],
    ) by {
        assert(spec_block_demanded(b, few, spans[i]));
        assert forall|k: int| 0 <= k < spans[i].addrs.len() implies spec_demanded(
            b,
            many,
            #[trigger] spans[i].addrs[k] as int,
        ) by {
            lemma_demanded_more(b, few, many, spans[i].addrs[k] as int);
        }
        lemma_demanded_more(b, few, many, spans[i].end as int);
    }
    assert forall|i: int| 0 <= i < s.len() && s[i] is Data implies spec_data_demanded(
        b,
        many,
        (#[trigger] spans[i]).start as int,
    ) by {
        lemma_data_demanded_more(b, few, many, spans[i].start as int);
    }
    assert forall|i: int| 0 <= i < s.len() && s[i] is Code implies spec_targeted(
        b,
        many,
        (#[trigger] spans[i]).start as int,
    ) by {
        lemma_targeted_more(b, few, many, spans[i].start as int);
    }
}

/// In a state in which every block is read to its end, everything that
/// was asked for could be decoded: each instruction that an event leads to
/// parses, and each data block of a message is there in full.
pub proof fn lemma_complete_decodes(
    b: Seq<u8>,
    s: Seq<BlockView>,
    spans: Seq<SpanView>,
    covered: Set<int>,
    roots: Set<int>,
    at: int,
    e: Error,
)
    requires
        spec_inv(b, s, spans, covered, roots, -1),
        spec_rooted(s, spans, roots),
        forall|j: int| 0 <= j < s.len() ==> (#[trigger] spans[j]).closed,
        spec_demanded(b, roots, at),
    ensures
        !spec_fails_at(b, at, e),
{
    let path = choose|path: Seq<int>| #[trigger]
        spec_trail(b, path) && roots.contains(path[0]) && path.last() == at;
    lemma_trail_read(b, s, spans, covered, roots, path, path.len() - 1);
    let i = choose|i: int| 0 <= i < s.len() && #[trigger] spec_point_of(s, spans, i, at);
    lemma_point_parses(b, s, spans, covered, roots, i, at);
}

/// In a state in which every block is read to its end, code and data do
/// not collide: no offset is asked for both as an instruction and as a data
/// block, and no instruction that is asked for ends beyond the 32-bit
/// range.
pub proof fn lemma_complete_apart(
    b: Seq<u8>,
    s: Seq<BlockView>,
    spans: Seq<SpanView>,
    covered: Set<int>,
    roots: Set<int>,
)
    requires
        spec_inv(b, s, spans, covered, roots, -1),
        spec_rooted(s, spans, roots),
        forall|j: int| 0 <= j < s.len() ==> (#[trigger] spans[j]).closed,
    ensures
        !spec_collides(b, roots),
{
    assert forall|at: int| #[trigger] spec_demanded(b, roots, at) implies !spec_overlong_at(
        b,
        at,
    ) by {
        lemma_demanded_read(b, s, spans, covered, roots, at);
        let i = choose|i: int| 0 <= i < s.len() && #[trigger] spec_point_of(s, spans, i, at);
        assert(spec_block_ok(b, s, spans, i));
        if exists|k: int| 0 <= k < spans[i].addrs.len() && #[trigger] spans[i].addrs[k] == at {
            let k = choose|k: int| 0 <= k < spans[i].addrs.len() && #[trigger] spans[i].addrs[k] == at;
            assert(spec_command_ok(b, s, spans[i], spec_starts(spans), s[i]->commands, k));
        }
    }
    assert forall|t: int| #[trigger] spec_demanded(b, roots, t) implies !spec_data_demanded(
        b,
        roots,
        t,
    ) by {
        if spec_data_demanded(b, roots, t) {
            lemma_demanded_read(b, s, spans, covered, roots, t);
            let j = choose|j: int| 0 <= j < s.len() && #[trigger] spec_point_of(s, spans, j, t);
            let at = choose|at: int| spec_demanded(b, roots, at) && #[trigger] spec_msg_at(b, at, t);
            lemma_demanded_read(b, s, spans, covered, roots, at);
            let i = choose|i: int| 0 <= i < s.len() && #[trigger] spec_point_of(s, spans, i, at);
            assert(spec_block_ok(b, s, spans, i));
            assert(spans[i].closed);
            if exists|k: int| 0 <= k < spans[i].addrs.len() && #[trigger] spans[i].addrs[k] == at {
                let k = choose|k: int|
                    0 <= k < spans[i].addrs.len() && #[trigger] spans[i].addrs[k] == at;
                assert(spec_command_ok(b, s, spans[i], spec_starts(spans), s[i]->commands, k));
                match s[i]->commands[k] {
                    Command::Msg(id) => {
                        assert(spans[id.index as int].start == t);
                        assert(!spec_point_of(s, spans, j, spans[id.index as int].start as int));
                    },
                    _ => {},
                }
            }
        }
    }
    assert forall|x: int, y: int, n: int|
        x != y && spec_demanded(b, roots, x) && spec_demanded(b, roots, y) && #[trigger] spec_runs_into(
            b,
            x,
            n,
        ) && #[trigger] spec_runs_into(b, y, n) implies false by {
        lemma_no_merge(b, s, spans, covered, roots, x, y, n);
    }
}

/// Where the command at an offset of a block was read, the offset behind
/// it is the next instruction of the block, or where the block ends.
proof fn lemma_command_point(
    b: Seq<u8>,
    s: Seq<BlockView>,
    spans: Seq<SpanView>,
    covered: Set<int>,
    roots: Set<int>,
    i: int,
    x: int,
    n: int,
) -> (k: int)
    requires
        spec_inv(b, s, spans, covered, roots, -1),
        0 <= i < s.len(),
        spec_point_of(s, spans, i, x),
        spec_runs_into(b, x, n),
    ensures
        0 <= k < spans[i].addrs.len(),
        spans[i].addrs[k] == x,
        spec_next_addr(spans[i], k) == n,
        spans[i].addrs.len() == s[i]->commands.len(),
{
    assert(spec_block_ok(b, s, spans, i));
    let k = choose|k: int| 0 <= k < spans[i].addrs.len() && #[trigger] spans[i].addrs[k] == x;
    assert(spec_command_ok(b, s, spans[i], spec_starts(spans), s[i]->commands, k));
    k
}

/// In a state in which every block is read to its end, no two commands
/// that are asked for end at the same offset.
proof fn lemma_no_merge(
    b: Seq<u8>,
    s: Seq<BlockView>,
    spans: Seq<SpanView>,
    covered: Set<int>,
    roots: Set<int>,
    x: int,
    y: int,
    n: int,
)
    requires
        spec_inv(b, s, spans, covered, roots, -1),
        spec_rooted(s, spans, roots),
        forall|j: int| 0 <= j < s.len() ==> (#[trigger] spans[j]).closed,
        spec_demanded(b, roots, x),
        spec_demanded(b, roots, y),
        spec_runs_into(b, x, n),
        spec_runs_into(b, y, n),
    ensures
        x == y,
{
    if x == y {
        return ;
    }
    lemma_demanded_read(b, s, spans, covered, roots, x);
    lemma_demanded_read(b, s, spans, covered, roots, y);
    let i = choose|i: int| 0 <= i < s.len() && #[trigger] spec_point_of(s, spans, i, x);
    let j = choose|j: int| 0 <= j < s.len() && #[trigger] spec_point_of(s, spans, j, y);
    let k = lemma_command_point(b, s, spans, covered, roots, i, x, n);
    let m = lemma_command_point(b, s, spans, covered, roots, j, y, n);
    assert(spec_block_ok(b, s, spans, i));
    assert(spec_block_ok(b, s, spans, j));
    assert(spans[i].closed && spans[j].closed);
    let si = spans[i];
    let sj = spans[j];
    if i == j {
        if k < m {
            if k + 1 < m {
                assert(si.addrs[k + 1] < si.addrs[m]);
            }
            assert(si.addrs[m] < spec_next_addr(si, m)) by {
                if m + 1 < si.addrs.len() {
                    assert(si.addrs[m] < si.addrs[m + 1]);
                }
            }
        } else {
            if m + 1 < k {
                assert(si.addrs[m + 1] < si.addrs[k]);
            }
            assert(si.addrs[k] < spec_next_addr(si, k)) by {
                if k + 1 < si.addrs.len() {
                    assert(si.addrs[k] < si.addrs[k + 1]);
                }
            }
        }
    } else {
        lemma_end_claimed(b, s, spans, covered, roots, i, k, n);
        lemma_end_claimed(b, s, spans, covered, roots, j, m, n);
        // The offset is an instruction of one of the two blocks, or both
        // fall through there.
        if spec_point_of(s, spans, i, n) {
            if spec_point_of(s, spans, j, n) {
                assert(spec_claims(s, spans, i, n));
            } else {
                let id = s[j]->terminator->Fallthrough_0.index as int;
                assert(spans[id].start == n);
                assert(spec_claims(s, spans, id, n));
                if id == i {
                    assert(si.addrs[0] < si.end);
                    if k + 1 < si.addrs.len() {
                        assert(si.addrs[0] < si.addrs[k + 1]);
                    }
                }
            }
        } else if spec_point_of(s, spans, j, n) {
            let id = s[i]->terminator->Fallthrough_0.index as int;
            assert(spans[id].start == n);
            assert(spec_claims(s, spans, id, n));
            if id == j {
                assert(sj.addrs[0] < sj.end);
                if m + 1 < sj.addrs.len() {
                    assert(sj.addrs[0] < sj.addrs[m + 1]);
                }
            }
        } else {
            assert(spec_falls(s, spans, i) && spec_falls(s, spans, j));
        }
    }
}

/// The offset behind a command of a closed block is an instruction of the
/// block, or the block falls through there.
proof fn lemma_end_claimed(
    b: Seq<u8>,
    s: Seq<BlockView>,
    spans: Seq<SpanView>,
    covered: Set<int>,
    roots: Set<int>,
    i: int,
    k: int,
    n: int,
)
    requires
        spec_inv(b, s, spans, covered, roots, -1),
        0 <= i < s.len(),
        s[i] is Code,
        spans[i].closed,
        0 <= k < spans[i].addrs.len(),
        spec_next_addr(spans[i], k) == n,
    ensures
        spec_point_of(s, spans, i, n) || (spec_falls(s, spans, i) && spans[i].end == n),
{
    if k + 1 < spans[i].addrs.len() {
        assert(spans[i].addrs[k + 1] == n);
    }
}

/// In a state in which every block is read to its end, an instruction was
/// read at every offset that is asked for.
pub proof fn lemma_demanded_read(
    b: Seq<u8>,
    s: Seq<BlockView>,
    spans: Seq<SpanView>,
    covered: Set<int>,
    roots: Set<int>,
    at: int,
)
    requires
        spec_inv(b, s, spans, covered, roots, -1),
        spec_rooted(s, spans, roots),
        forall|j: int| 0 <= j < s.len() ==> (#[trigger] spans[j]).closed,
        spec_demanded(b, roots, at),
    ensures
        exists|i: int| 0 <= i < s.len() && #[trigger] spec_point_of(s, spans, i, at),
{
    let path = choose|path: Seq<int>| #[trigger]
        spec_trail(b, path) && roots.contains(path[0]) && path.last() == at;
    lemma_trail_read(b, s, spans, covered, roots, path, path.len() - 1);
}

/// What stands where code is, in a sound state, is asked for.
pub proof fn lemma_code_demanded(
    b: Seq<u8>,
    s: Seq<BlockView>,
    spans: Seq<SpanView>,
    covered: Set<int>,
    roots: Set<int>,
    current: int,
    t: Ip,
)
    requires
        spec_inv(b, s, spans, covered, roots, current),
        spec_code_at(s, spans, t),
    ensures
        spec_demanded(b, roots, t as int),
{
    if exists|j: int| 0 <= j < s.len() && (#[trigger] spans[j]).start == t && s[j] is Code {
        let j = choose|j: int| 0 <= j < s.len() && (#[trigger] spans[j]).start == t && s[j] is Code;
        assert(spec_block_ok(b, s, spans, j));
        assert(spec_block_demanded(b, roots, spans[j]));
        if spans[j].addrs.len() > 0 {
            assert(spans[j].addrs[0] == t);
        }
    } else {
        let j = choose|j: int| 0 <= j < s.len() && #[trigger] spec_point_of(s, spans, j, t as int);
        assert(spec_block_demanded(b, roots, spans[j]));
        if exists|k: int| 0 <= k < spans[j].addrs.len() && #[trigger] spans[j].addrs[k] == t as int {
            let k = choose|k: int|
                0 <= k < spans[j].addrs.len() && #[trigger] spans[j].addrs[k] == t as int;
        }
    }
}

/// Where a data block starts, in a sound state, a data block is asked for.
pub proof fn lemma_data_start_demanded(
    b: Seq<u8>,
    s: Seq<BlockView>,
    spans: Seq<SpanView>,
    covered: Set<int>,
    roots: Set<int>,
    current: int,
    t: Ip,
)
    requires
        spec_inv(b, s, spans, covered, roots, current),
        spec_data_starts_at(s, spans, t),
    ensures
        spec_data_demanded(b, roots, t as int),
{
    let j = choose|j: int| 0 <= j < s.len() && (#[trigger] spans[j]).start == t && s[j] is Data;
    assert(spec_data_demanded(b, roots, spans[j].start as int));
}

/// Where reading cannot go on at an offset that is asked for, because of
/// an invalid header, code and data collide.
pub proof fn lemma_stuck_collides(
    b: Seq<u8>,
    s: Seq<BlockView>,
    spans: Seq<SpanView>,
    covered: Set<int>,
    roots: Set<int>,
    current: int,
    at: Ip,
)
    requires
        spec_inv(b, s, spans, covered, roots, current),
        spec_demanded(b, roots, at as int),
        spec_stuck_at(b, s, spans, at, Error::InvalidHeader),
    ensures
        spec_collides(b, roots),
{
    if spec_data_starts_at(s, spans, at) {
        lemma_data_start_demanded(b, s, spans, covered, roots, current, at);
        assert(spec_demanded(b, roots, at as int) && spec_data_demanded(b, roots, at as int));
    } else {
        match spec_parse_op(b, at as int) {
            Ok((op, end)) => {
                if end > u32::MAX {
                    assert(spec_demanded(b, roots, at as int) && spec_overlong_at(b, at as int));
                } else {
                    match op {
                        Op::Command(Command::Call(t)) => {
                            lemma_demanded_step(b, roots, at as int, t as int);
                            lemma_data_start_demanded(b, s, spans, covered, roots, current, t);
                            assert(spec_demanded(b, roots, t as int) && spec_data_demanded(
                                b,
                                roots,
                                t as int,
                            ));
                        },
                        Op::Command(Command::Msg(t)) => {
                            assert(spec_msg_at(b, at as int, t as int));
                            if t != at {
                                lemma_code_demanded(b, s, spans, covered, roots, current, t);
                            }
                            assert(spec_demanded(b, roots, t as int) && spec_data_demanded(
                                b,
                                roots,
                                t as int,
                            ));
                        },
                        Op::Control(Terminator::Jump(t)) => {
                            lemma_demanded_step(b, roots, at as int, t as int);
                            lemma_data_start_demanded(b, s, spans, covered, roots, current, t);
                            assert(spec_demanded(b, roots, t as int) && spec_data_demanded(
                                b,
                                roots,
                                t as int,
                            ));
                        },
                        Op::Control(Terminator::Branch { condition, if_true, if_false }) => {
                            let t = if spec_data_starts_at(s, spans, if_true) {
                                if_true
                            } else {
                                if_false
                            };
                            lemma_demanded_step(b, roots, at as int, t as int);
                            lemma_data_start_demanded(b, s, spans, covered, roots, current, t);
                            assert(spec_demanded(b, roots, t as int) && spec_data_demanded(
                                b,
                                roots,
                                t as int,
                            ));
                        },
                        _ => {},
                    }
                }
            },
            Err(e) => {},
        }
    }
}

/// In a state in which every block is read to its end, an instruction was
/// read at the start of every code block.
proof fn lemma_start_read(
    b: Seq<u8>,
    s: Seq<BlockView>,
    spans: Seq<SpanView>,
    covered: Set<int>,
    roots: Set<int>,
    i: int,
)
    requires
        spec_inv(b, s, spans, covered, roots, -1),
        forall|j: int| 0 <= j < s.len() ==> (#[trigger] spans[j]).closed,
        0 <= i < s.len(),
        s[i] is Code,
    ensures
        spec_point_of(s, spans, i, spans[i].start as int),
{
    assert(spec_block_ok(b, s, spans, i));
    assert(spans[i].closed);
    if spans[i].addrs.len() > 0 {
        assert(spans[i].addrs[0] == spans[i].start);
    }
}

/// What was read at an offset of a block parses, what it leads to was
/// read too, and the data block of a message is there in full.
proof fn lemma_point_parses(
    b: Seq<u8>,
    s: Seq<BlockView>,
    spans: Seq<SpanView>,
    covered: Set<int>,
    roots: Set<int>,
    i: int,
    at: int,
)
    requires
        spec_inv(b, s, spans, covered, roots, -1),
        forall|j: int| 0 <= j < s.len() ==> (#[trigger] spans[j]).closed,
        0 <= i < s.len(),
        spec_point_of(s, spans, i, at),
    ensures
        forall|e: Error| !spec_fails_at(b, at, e),
        forall|to: int|
            spec_leads(b, at, to) ==> exists|j: int|
                0 <= j < s.len() && #[trigger] spec_point_of(s, spans, j, to),
{
    let span = spans[i];
    let commands = s[i]->commands;
    let starts = spec_starts(spans);
    assert(spec_block_ok(b, s, spans, i));
    assert(span.closed);
    if exists|k: int| 0 <= k < span.addrs.len() && #[trigger] span.addrs[k] == at {
        let k = choose|k: int| 0 <= k < span.addrs.len() && #[trigger] span.addrs[k] == at;
        assert(spec_command_ok(b, s, span, starts, commands, k));
        let next = spec_next_addr(span, k) as int;
        match commands[k] {
            Command::Msg(id) => {
                assert(spec_block_ok(b, s, spans, id.index as int));
            },
            _ => {},
        }
        assert forall|to: int| spec_leads(b, at, to) implies exists|j: int|
            0 <= j < s.len() && #[trigger] spec_point_of(s, spans, j, to) by {
            if to == next {
                if k + 1 < span.addrs.len() {
                    assert(span.addrs[k + 1] == to);
                    assert(spec_point_of(s, spans, i, to));
                } else {
                    match s[i]->terminator {
                        Terminator::Fallthrough(id) => {
                            lemma_start_read(b, s, spans, covered, roots, id.index as int);
                        },
                        _ => {
                            assert(spec_point_of(s, spans, i, to));
                        },
                    }
                }
            } else {
                match commands[k] {
                    Command::Call(id) => {
                        lemma_start_read(b, s, spans, covered, roots, id.index as int);
                    },
                    _ => {},
                }
            }
        }
    } else {
        assert forall|to: int| spec_leads(b, at, to) implies exists|j: int|
            0 <= j < s.len() && #[trigger] spec_point_of(s, spans, j, to) by {
            match s[i]->terminator {
                Terminator::Jump(id) => {
                    lemma_start_read(b, s, spans, covered, roots, id.index as int);
                },
                Terminator::Branch { condition, if_true, if_false } => {
                    lemma_start_read(b, s, spans, covered, roots, if_true.index as int);
                    lemma_start_read(b, s, spans, covered, roots, if_false.index as int);
                },
                _ => {},
            }
        }
    }
}

/// Along a way from a root, an instruction was read at every offset.
proof fn lemma_trail_read(
    b: Seq<u8>,
    s: Seq<BlockView>,
    spans: Seq<SpanView>,
    covered: Set<int>,
    roots: Set<int>,
    path: Seq<int>,
    upto: int,
)
    requires
        spec_inv(b, s, spans, covered, roots, -1),
        spec_rooted(s, spans, roots),
        forall|j: int| 0 <= j < s.len() ==> (#[trigger] spans[j]).closed,
        spec_trail(b, path),
        roots.contains(path[0]),
        0 <= upto < path.len(),
    ensures
        exists|i: int| 0 <= i < s.len() && #[trigger] spec_point_of(s, spans, i, path[upto]),
    decreases upto,
{
    if upto == 0 {
        let i = choose|i: int| 0 <= i < s.len() && (#[trigger] spans[i]).start == path[0]
            && s[i] is Code;
        lemma_start_read(b, s, spans, covered, roots, i);
    } else {
        lemma_trail_read(b, s, spans, covered, roots, path, upto - 1);
        let i = choose|i: int|
            0 <= i < s.len() && #[trigger] spec_point_of(s, spans, i, path[upto - 1]);
        lemma_point_parses(b, s, spans, covered, roots, i, path[upto - 1]);
        assert(spec_leads(b, path[upto - 1], path[upto - 1 + 1]));
    }
}

/// What cannot be decoded for some events cannot be decoded for more.
pub proof fn lemma_refused_more(b: Seq<u8>, few: Set<int>, many: Set<int>, e: Error)
    requires
        ScriptReader::spec_refused(b, few, e),
        few.subset_of(many),
    ensures
        ScriptReader::spec_refused(b, many, e),
{
    if e == Error::InvalidHeader {
        if exists|t: int| #[trigger] spec_demanded(b, few, t) && spec_data_demanded(b, few, t) {
            let t = choose|t: int| #[trigger] spec_demanded(b, few, t) && spec_data_demanded(b, few, t);
            lemma_demanded_more(b, few, many, t);
            lemma_data_demanded_more(b, few, many, t);
        } else if exists|at: int| #[trigger] spec_demanded(b, few, at) && spec_overlong_at(b, at) {
            let at = choose|at: int| #[trigger] spec_demanded(b, few, at) && spec_overlong_at(b, at);
            lemma_demanded_more(b, few, many, at);
        } else {
            let (x, y, n) = choose|x: int, y: int, n: int|
                x != y && spec_demanded(b, few, x) && spec_demanded(b, few, y)
                    && #[trigger] spec_runs_into(b, x, n) && #[trigger] spec_runs_into(b, y, n);
            lemma_demanded_more(b, few, many, x);
            lemma_demanded_more(b, few, many, y);
        }
    } else {
        let at = choose|at: int| spec_demanded(b, few, at) && #[trigger] spec_fails_at(b, at, e);
        lemma_demanded_more(b, few, many, at);
    }
}

/// Where no block starts, no block falls through into.
pub proof fn lemma_falls_elsewhere(
    b: Seq<u8>,
    s: Seq<BlockView>,
    spans: Seq<SpanView>,
    covered: Set<int>,
    roots: Set<int>,
    current: int,
    t: Ip,
)
    requires
        spec_inv(b, s, spans, covered, roots, current),
        forall|j: int| 0 <= j < s.len() ==> (#[trigger] spans[j]).start != t,
    ensures
        forall|p: int| 0 <= p < s.len() && #[trigger] spec_falls(s, spans, p) ==> spans[p].end != t,
{
    assert forall|p: int| 0 <= p < s.len() && #[trigger] spec_falls(s, spans, p) implies spans[p].end
        != t by {
        assert(spec_block_ok(b, s, spans, p));
        let id = s[p]->terminator->Fallthrough_0;
        assert(spans[id.index as int].start == spans[p].end);
    }
}

/// Adding a block that is read later, at an offset where a block has to
/// start and nothing was read, keeps the blocks cut as demanded.
pub proof fn lemma_pending_shape(
    b: Seq<u8>,
    s: Seq<BlockView>,
    spans: Seq<SpanView>,
    roots: Set<int>,
    t: Ip,
)
    requires
        s.len() == spans.len(),
        spec_shape_inv(b, s, spans, roots),
        forall|j: int| 0 <= j < s.len() ==> (#[trigger] spans[j]).start != t,
        forall|j: int| 0 <= j < s.len() ==> !#[trigger] spec_point_of(s, spans, j, t as int),
        spec_targeted(b, roots, t as int),
    ensures
        spec_shape_inv(b, spec_with_pending(s), spec_spans_with_pending(spans, t), roots),
{
    let s2 = spec_with_pending(s);
    let spans2 = spec_spans_with_pending(spans, t);
    let n = s.len() as int;
    assert forall|i: int, j: int, a: int|
        0 <= i < s2.len() && 0 <= j < s2.len() && i != j && #[trigger] spec_claims(
            s2,
            spans2,
            i,
            a,
        ) implies !#[trigger] spec_point_of(s2, spans2, j, a) by {
        if spec_point_of(s2, spans2, j, a) {
            lemma_point_frame(s2, spans2, s, spans, j, a);
            if i < n {
                if spec_point_of(s2, spans2, i, a) {
                    lemma_point_frame(s2, spans2, s, spans, i, a);
                }
                assert(spec_claims(s, spans, i, a));
            }
        }
    }
    assert forall|i: int, j: int|
        0 <= i < s2.len() && 0 <= j < s2.len() && i != j && #[trigger] spec_falls(s2, spans2, i)
            && #[trigger] spec_falls(s2, spans2, j) implies spans2[i].end != spans2[j].end by {
        assert(spec_falls(s, spans, i) && spec_falls(s, spans, j));
    }
    assert forall|i: int| 0 <= i < s2.len() && s2[i] is Code implies spec_targeted(
        b,
        roots,
        (#[trigger] spans2[i]).start as int,
    ) by {
        if i < n {
            assert(spans2[i] == spans[i]);
        }
    }
}

/// Adding a data block at an offset where nothing was read keeps the
/// blocks cut as demanded.
pub proof fn lemma_data_shape(
    b: Seq<u8>,
    s: Seq<BlockView>,
    spans: Seq<SpanView>,
    roots: Set<int>,
    t: Ip,
    bytes: Seq<u8>,
)
    requires
        s.len() == spans.len(),
        spec_shape_inv(b, s, spans, roots),
        forall|j: int| 0 <= j < s.len() ==> !#[trigger] spec_point_of(s, spans, j, t as int),
    ensures
        spec_shape_inv(b, s.push(BlockView::Data { bytes }), spec_spans_with_data(spans, t), roots),
{
    let s2 = s.push(BlockView::Data { bytes });
    let spans2 = spec_spans_with_data(spans, t);
    let n = s.len() as int;
    assert forall|i: int, j: int, a: int|
        0 <= i < s2.len() && 0 <= j < s2.len() && i != j && #[trigger] spec_claims(
            s2,
            spans2,
            i,
            a,
        ) implies !#[trigger] spec_point_of(s2, spans2, j, a) by {
        if spec_point_of(s2, spans2, j, a) {
            lemma_point_frame(s2, spans2, s, spans, j, a);
            if i < n {
                if spec_point_of(s2, spans2, i, a) {
                    lemma_point_frame(s2, spans2, s, spans, i, a);
                }
                assert(spec_claims(s, spans, i, a));
            }
        }
    }
    assert forall|i: int, j: int|
        0 <= i < s2.len() && 0 <= j < s2.len() && i != j && #[trigger] spec_falls(s2, spans2, i)
            && #[trigger] spec_falls(s2, spans2, j) implies spans2[i].end != spans2[j].end by {
        assert(spec_falls(s, spans, i) && spec_falls(s, spans, j));
    }
    assert forall|i: int| 0 <= i < s2.len() && s2[i] is Code implies spec_targeted(
        b,
        roots,
        (#[trigger] spans2[i]).start as int,
    ) by {
        assert(spans2[i] == spans[i]);
    }
}

/// Whether an instruction can be added to the open block with index `cur`
/// where the block ends, without standing in two blocks: no other block
/// starts there, and nothing was read there.
pub open spec fn spec_free_end(s: Seq<BlockView>, spans: Seq<SpanView>, cur: int) -> bool {
    let at = spans[cur].end;
    &&& forall|j: int| 0 <= j < s.len() && j != cur ==> (#[trigger] spans[j]).start != at
    &&& spans[cur].addrs.len() > 0 ==> forall|j: int|
        0 <= j < s.len() ==> !#[trigger] spec_point_of(s, spans, j, at as int)
    &&& spans[cur].addrs.len() == 0 ==> spans[cur].end == spans[cur].start
}

/// An offset at which the block with index `cur` is read after it got an
/// instruction where it ended was one before, or is where the block ended.
pub proof fn lemma_grown_point(
    s: Seq<BlockView>,
    spans: Seq<SpanView>,
    s2: Seq<BlockView>,
    spans2: Seq<SpanView>,
    cur: int,
    a: int,
)
    requires
        s[cur] is Code,
        s2[cur] is Code,
        !spans[cur].closed,
        spec_point_of(s2, spans2, cur, a),
        spans2[cur].addrs == spans[cur].addrs || spans2[cur].addrs == spans[cur].addrs.push(
            spans[cur].end,
        ),
        spans2[cur].closed ==> spans2[cur].end == spans[cur].end,
    ensures
        spec_point_of(s, spans, cur, a) || a == spans[cur].end,
{
    if exists|k: int| 0 <= k < spans2[cur].addrs.len() && #[trigger] spans2[cur].addrs[k] == a {
        let k = choose|k: int| 0 <= k < spans2[cur].addrs.len() && #[trigger] spans2[cur].addrs[k] == a;
        if k < spans[cur].addrs.len() {
            assert(spans[cur].addrs[k] == a);
        }
    }
}

/// Giving the open block an instruction where it ends, a command or the
/// one that closes it, keeps the blocks cut as demanded.
pub proof fn lemma_grown_shape(
    b: Seq<u8>,
    s: Seq<BlockView>,
    spans: Seq<SpanView>,
    s2: Seq<BlockView>,
    spans2: Seq<SpanView>,
    roots: Set<int>,
    cur: int,
)
    requires
        s.len() == spans.len(),
        s2.len() == s.len(),
        spans2.len() == s.len(),
        spec_shape_inv(b, s, spans, roots),
        0 <= cur < s.len(),
        s[cur] is Code,
        s2[cur] is Code,
        !spans[cur].closed,
        spec_free_end(s, spans, cur),
        forall|j: int| 0 <= j < s.len() && j != cur ==> s2[j] == s[j] && spans2[j] == spans[j],
        spans2[cur].start == spans[cur].start,
        spans2[cur].addrs == spans[cur].addrs || spans2[cur].addrs == spans[cur].addrs.push(
            spans[cur].end,
        ),
        spans2[cur].closed ==> spans2[cur].end == spans[cur].end && !(s2[cur]->terminator is Fallthrough),
    ensures
        spec_shape_inv(b, s2, spans2, roots),
{
    let at = spans[cur].end as int;
    assert forall|i: int, j: int, a: int|
        0 <= i < s2.len() && 0 <= j < s2.len() && i != j && #[trigger] spec_claims(
            s2,
            spans2,
            i,
            a,
        ) implies !#[trigger] spec_point_of(s2, spans2, j, a) by {
        if spec_point_of(s2, spans2, j, a) {
            if j == cur {
                lemma_grown_point(s, spans, s2, spans2, cur, a);
                if spec_point_of(s2, spans2, i, a) {
                    lemma_point_frame(s2, spans2, s, spans, i, a);
                }
                assert(spec_claims(s, spans, i, a));
                if !spec_point_of(s, spans, cur, a) {
                    if spans[cur].addrs.len() == 0 {
                        assert(spec_claims(s, spans, cur, a));
                        assert(spec_point_of(s, spans, i, a));
                    }
                }
            } else {
                lemma_point_frame(s2, spans2, s, spans, j, a);
                if i == cur {
                    if spec_point_of(s2, spans2, cur, a) {
                        lemma_grown_point(s, spans, s2, spans2, cur, a);
                    }
                    if !spec_claims(s, spans, cur, a) {
                        if spans[cur].addrs.len() == 0 {
                            assert(spec_claims(s, spans, cur, a));
                        }
                    }
                    assert(spec_claims(s, spans, cur, a));
                } else {
                    if spec_point_of(s2, spans2, i, a) {
                        lemma_point_frame(s2, spans2, s, spans, i, a);
                    }
                    assert(spec_claims(s, spans, i, a));
                }
            }
        }
    }
    assert forall|i: int, j: int|
        0 <= i < s2.len() && 0 <= j < s2.len() && i != j && #[trigger] spec_falls(s2, spans2, i)
            && #[trigger] spec_falls(s2, spans2, j) implies spans2[i].end != spans2[j].end by {
        assert(spec_falls(s, spans, i) && spec_falls(s, spans, j));
    }
    assert forall|i: int| 0 <= i < s2.len() && s2[i] is Code implies spec_targeted(
        b,
        roots,
        (#[trigger] spans2[i]).start as int,
    ) by {
        assert(spans2[i].start == spans[i].start);
        if i != cur {
            assert(s[i] is Code);
        }
    }
}

/// Closing the open block by letting it fall through into a block into
/// which no other block falls through keeps the blocks cut as demanded.
pub proof fn lemma_fall_shape(
    b: Seq<u8>,
    s: Seq<BlockView>,
    spans: Seq<SpanView>,
    roots: Set<int>,
    cur: int,
    t: Terminator<BlockId>,
)
    requires
        s.len() == spans.len(),
        spec_shape_inv(b, s, spans, roots),
        0 <= cur < s.len(),
        s[cur] is Code,
        !spans[cur].closed,
        t is Fallthrough,
        forall|p: int|
            0 <= p < s.len() && p != cur && #[trigger] spec_falls(s, spans, p) ==> spans[p].end
                != spans[cur].end,
    ensures
        spec_shape_inv(b, spec_with_end(s, cur, t), spec_spans_closed(spans, cur), roots),
{
    let s2 = spec_with_end(s, cur, t);
    let spans2 = spec_spans_closed(spans, cur);
    assert forall|i: int, a: int| 0 <= i < s2.len() && #[trigger] spec_point_of(
        s2,
        spans2,
        i,
        a,
    ) implies spec_point_of(s, spans, i, a) by {
        if i != cur {
            lemma_point_frame(s2, spans2, s, spans, i, a);
        } else {
            let k = choose|k: int| 0 <= k < spans2[i].addrs.len() && #[trigger] spans2[i].addrs[k] == a;
            assert(spans[i].addrs[k] == a);
        }
    }
    assert forall|i: int, j: int, a: int|
        0 <= i < s2.len() && 0 <= j < s2.len() && i != j && #[trigger] spec_claims(
            s2,
            spans2,
            i,
            a,
        ) implies !#[trigger] spec_point_of(s2, spans2, j, a) by {
        if spec_point_of(s2, spans2, j, a) {
            assert(spec_point_of(s, spans, j, a));
            if spec_point_of(s2, spans2, i, a) {
                assert(spec_point_of(s, spans, i, a));
            }
            assert(spec_claims(s, spans, i, a));
        }
    }
    assert forall|i: int, j: int|
        0 <= i < s2.len() && 0 <= j < s2.len() && i != j && #[trigger] spec_falls(s2, spans2, i)
            && #[trigger] spec_falls(s2, spans2, j) implies spans2[i].end != spans2[j].end by {
        if i != cur && j != cur {
            assert(spec_falls(s, spans, i) && spec_falls(s, spans, j));
        } else if i == cur {
            assert(spec_falls(s, spans, j));
        } else {
            assert(spec_falls(s, spans, i));
        }
    }
    assert forall|i: int| 0 <= i < s2.len() && s2[i] is Code implies spec_targeted(
        b,
        roots,
        (#[trigger] spans2[i]).start as int,
    ) by {
        assert(spans2[i].start == spans[i].start);
        if i != cur {
            assert(s[i] is Code);
        }
    }
}

/// Splitting a block in front of an instruction at which a block has to
/// start keeps the blocks cut as demanded.
pub proof fn lemma_split_shape(
    b: Seq<u8>,
    s: Seq<BlockView>,
    spans: Seq<SpanView>,
    roots: Set<int>,
    i: int,
    k: int,
)
    requires
        s.len() == spans.len(),
        s.len() <= usize::MAX,
        spec_shape_inv(b, s, spans, roots),
        0 <= i < s.len(),
        s[i] is Code,
        spans[i].addrs.len() == s[i]->commands.len(),
        0 < k <= spans[i].addrs.len(),
        spans[i].addrs[0] == spans[i].start,
        forall|x: int, y: int|
            0 <= x < y < spans[i].addrs.len() ==> #[trigger] spans[i].addrs[x] < #[trigger] spans[i].addrs[y],
        forall|x: int| 0 <= x < spans[i].addrs.len() ==> #[trigger] spans[i].addrs[x] < spans[i].end,
        k == spans[i].addrs.len() ==> spans[i].closed && !(s[i]->terminator is Fallthrough),
        forall|j: int|
            0 <= j < s.len() ==> (#[trigger] spans[j]).start != spec_split_at(spans[i], k),
        forall|p: int|
            0 <= p < s.len() && #[trigger] spec_falls(s, spans, p) ==> spans[p].end != spec_split_at(
                spans[i],
                k,
            ),
        spec_targeted(b, roots, spec_split_at(spans[i], k) as int),
    ensures
        spec_shape_inv(b, spec_split_blocks(s, i, k), spec_split_spans(spans, i, k), roots),
{
    let n = s.len() as int;
    let s2 = spec_split_blocks(s, i, k);
    let spans2 = spec_split_spans(spans, i, k);
    let span = spans[i];
    let t = spec_split_at(span, k);
    let len = span.addrs.len() as int;
    // What a block lays claim to after the split, it or the split block
    // laid claim to before.
    assert forall|x: int, a: int| 0 <= x < s2.len() && #[trigger] spec_point_of(
        s2,
        spans2,
        x,
        a,
    ) implies spec_point_of(s, spans, if x == n {
        i
    } else {
        x
    }, a) && (x == i ==> a < t) && (x == n ==> a >= t) by {
        if x != i && x != n {
            lemma_point_frame(s2, spans2, s, spans, x, a);
        } else if x == i {
            let m = choose|m: int| 0 <= m < spans2[i].addrs.len() && #[trigger] spans2[i].addrs[m] == a;
            assert(span.addrs[m] == a);
            if k < len {
                assert(span.addrs[m] < span.addrs[k]);
            }
        } else if exists|m: int| 0 <= m < spans2[n].addrs.len() && #[trigger] spans2[n].addrs[m] == a {
            let m = choose|m: int| 0 <= m < spans2[n].addrs.len() && #[trigger] spans2[n].addrs[m] == a;
            assert(span.addrs[k + m] == a);
            if m > 0 {
                assert(span.addrs[k] < span.addrs[k + m]);
            }
        } else {
            if k < len {
                assert(span.addrs[k] < span.end);
            }
        }
    }
    assert(spec_point_of(s, spans, i, t as int)) by {
        if k < len {
            assert(span.addrs[k] == t);
        }
    }
    assert forall|x: int, y: int, a: int|
        0 <= x < s2.len() && 0 <= y < s2.len() && x != y && #[trigger] spec_claims(
            s2,
            spans2,
            x,
            a,
        ) implies !#[trigger] spec_point_of(s2, spans2, y, a) by {
        if spec_point_of(s2, spans2, y, a) {
            let y0 = if y == n {
                i
            } else {
                y
            };
            let x0 = if x == n {
                i
            } else {
                x
            };
            assert(spec_point_of(s, spans, y0, a));
            if spec_point_of(s2, spans2, x, a) {
                assert(spec_point_of(s, spans, x0, a));
            }
            if x == n {
                assert(spec_claims(s, spans, i, a));
            } else {
                assert(spans2[x].start == spans[x].start);
                assert(spec_claims(s, spans, x, a));
            }
            if x0 != y0 {
                assert(spec_claims(s, spans, x0, a));
            } else if x == i {
                // The front part lies in front of the split, the rest behind.
                assert(a >= t);
                if spans2[i].start == a {
                    assert(span.addrs[0] == a);
                    if k < len {
                        assert(span.addrs[0] < span.addrs[k]);
                    }
                }
            } else {
                assert(a < t);
            }
        }
    }
    assert forall|x: int, y: int|
        0 <= x < s2.len() && 0 <= y < s2.len() && x != y && #[trigger] spec_falls(s2, spans2, x)
            && #[trigger] spec_falls(s2, spans2, y) implies spans2[x].end != spans2[y].end by {
        if x != i && x != n && y != i && y != n {
            assert(spec_falls(s, spans, x) && spec_falls(s, spans, y));
        } else if x == n || y == n {
            let other = if x == n {
                y
            } else {
                x
            };
            assert(spec_falls(s, spans, i));
            assert(k < len);
            assert(span.addrs[k] < span.end);
            if other != i {
                assert(spec_falls(s, spans, other));
            }
        } else {
            let other = if x == i {
                y
            } else {
                x
            };
            assert(spec_falls(s, spans, other));
        }
    }
    assert forall|x: int| 0 <= x < s2.len() && s2[x] is Code implies spec_targeted(
        b,
        roots,
        (#[trigger] spans2[x]).start as int,
    ) by {
        if x < n {
            assert(spans2[x].start == spans[x].start);
            assert(s[x] is Code);
        }
    }
}

/// Whether the open block with index `cur` has commands and ends where a
/// command of another block ends: the two runs meet, so that a command of
/// one starts inside a command of the other.
pub open spec fn spec_met(s: Seq<BlockView>, spans: Seq<SpanView>, cur: int) -> bool {
    &&& spans[cur].addrs.len() > 0
    &&& exists|j: int, k: int|
        0 <= j < s.len() && j != cur && s[j] is Code && 0 <= k < spans[j].addrs.len()
            && #[trigger] spec_next_addr(spans[j], k) == spans[cur].end
}

/// Whether the blocks with their places are what decoding the events at
/// `roots` from the stream gives when nothing is refused: the state is
/// sound, every block is read to its end, and a code block starts at each
/// root.
pub open spec fn spec_settled(
    b: Seq<u8>,
    roots: Set<int>,
    s: Seq<BlockView>,
    spans: Seq<SpanView>,
) -> bool {
    &&& exists|covered: Set<int>| #[trigger] spec_inv(b, s, spans, covered, roots, -1)
    &&& forall|i: int| 0 <= i < s.len() ==> (#[trigger] spans[i]).closed
    &&& spec_rooted(s, spans, roots)
}

/// Where a block has to start, a code block starts.
pub proof fn lemma_target_starts(
    b: Seq<u8>,
    roots: Set<int>,
    s: Seq<BlockView>,
    spans: Seq<SpanView>,
    t: int,
) -> (i: int)
    requires
        spec_settled(b, roots, s, spans),
        spec_targeted(b, roots, t),
    ensures
        0 <= i < s.len(),
        s[i] is Code,
        spans[i].start == t,
{
    let covered = choose|covered: Set<int>| #[trigger] spec_inv(b, s, spans, covered, roots, -1);
    if roots.contains(t) {
        choose|i: int| 0 <= i < s.len() && (#[trigger] spans[i]).start == t && s[i] is Code
    } else {
        let at = choose|at: int| spec_demanded(b, roots, at) && #[trigger] spec_jumps(b, at, t);
        lemma_demanded_read(b, s, spans, covered, roots, at);
        let p = choose|p: int| 0 <= p < s.len() && #[trigger] spec_point_of(s, spans, p, at);
        assert(spec_block_ok(b, s, spans, p));
        assert(spans[p].closed);
        if exists|k: int| 0 <= k < spans[p].addrs.len() && #[trigger] spans[p].addrs[k] == at {
            let k = choose|k: int| 0 <= k < spans[p].addrs.len() && #[trigger] spans[p].addrs[k] == at;
            assert(spec_command_ok(b, s, spans[p], spec_starts(spans), s[p]->commands, k));
            match s[p]->commands[k] {
                Command::Call(id) => id.index as int,
                _ => 0,
            }
        } else {
            match s[p]->terminator {
                Terminator::Jump(id) => id.index as int,
                Terminator::Branch { condition, if_true, if_false } => {
                    if spans[if_true.index as int].start == t {
                        if_true.index as int
                    } else {
                        if_false.index as int
                    }
                },
                _ => 0,
            }
        }
    }
}

/// Where a data block is asked for, a data block starts.
pub proof fn lemma_data_starts(
    b: Seq<u8>,
    roots: Set<int>,
    s: Seq<BlockView>,
    spans: Seq<SpanView>,
    t: int,
) -> (i: int)
    requires
        spec_settled(b, roots, s, spans),
        spec_data_demanded(b, roots, t),
    ensures
        0 <= i < s.len(),
        s[i] is Data,
        spans[i].start == t,
{
    let covered = choose|covered: Set<int>| #[trigger] spec_inv(b, s, spans, covered, roots, -1);
    let at = choose|at: int| spec_demanded(b, roots, at) && #[trigger] spec_msg_at(b, at, t);
    lemma_demanded_read(b, s, spans, covered, roots, at);
    let p = choose|p: int| 0 <= p < s.len() && #[trigger] spec_point_of(s, spans, p, at);
    assert(spec_block_ok(b, s, spans, p));
    assert(spans[p].closed);
    if exists|k: int| 0 <= k < spans[p].addrs.len() && #[trigger] spans[p].addrs[k] == at {
        let k = choose|k: int| 0 <= k < spans[p].addrs.len() && #[trigger] spans[p].addrs[k] == at;
        assert(spec_command_ok(b, s, spans[p], spec_starts(spans), s[p]->commands, k));
        match s[p]->commands[k] {
            Command::Msg(id) => id.index as int,
            _ => 0,
        }
    } else {
        0
    }
}

/// How the blocks are cut: inside a block no block has to start, and a
/// block falls through only where one has to start, into the block that
/// starts there. So a run of commands is cut in front of the events and of
/// the targets of jumps, branches and calls, and nowhere else: a target
/// inside a run that was read before splits it, the front part keeps its
/// commands and falls through, the rest goes to the block at the target.
pub proof fn lemma_cut(
    b: Seq<u8>,
    roots: Set<int>,
    s: Seq<BlockView>,
    spans: Seq<SpanView>,
    i: int,
)
    requires
        spec_settled(b, roots, s, spans),
        0 <= i < s.len(),
        s[i] is Code,
    ensures
        spec_targeted(b, roots, spans[i].start as int),
        forall|k: int|
            1 <= k < spans[i].addrs.len() ==> !spec_targeted(b, roots, #[trigger] spans[i].addrs[k] as int),
        s[i]->terminator matches Terminator::Fallthrough(id) ==> id.index != i && s[id.index as int] is Code
            && spans[id.index as int].start == spans[i].end && spec_targeted(b, roots, spans[i].end as int)
            && s[i]->commands.len() > 0,
        !(s[i]->terminator is Fallthrough) ==> !spec_runs_into(b, spans[i].end as int, spans[i].end as int)
            && (spec_parse_op(b, spans[i].end as int) matches Ok((op, _)) && op is Control),
{
    let covered = choose|covered: Set<int>| #[trigger] spec_inv(b, s, spans, covered, roots, -1);
    assert(spec_block_ok(b, s, spans, i));
    assert(spans[i].closed);
    assert forall|k: int| 1 <= k < spans[i].addrs.len() implies !spec_targeted(
        b,
        roots,
        #[trigger] spans[i].addrs[k] as int,
    ) by {
        if spec_targeted(b, roots, spans[i].addrs[k] as int) {
            let j = lemma_target_starts(b, roots, s, spans, spans[i].addrs[k] as int);
            assert(spans[i].addrs[0] < spans[i].addrs[k]);
            assert(spec_claims(s, spans, j, spans[i].addrs[k] as int));
            assert(spec_point_of(s, spans, i, spans[i].addrs[k] as int));
        }
    }
    match s[i]->terminator {
        Terminator::Fallthrough(id) => {
            assert(spans[i].addrs[0] < spans[i].end);
        },
        _ => {},
    }
}

/// The blocks are a function of the stream and the events. Take two
/// decodings of the same events from the same stream, in whatever order
/// and with whatever identifiers. Then a code block of the one and a block
/// of the other that start at the same offset hold the same commands at
/// the same offsets and end in the same way, each block they refer to
/// written as the offset at which it starts.
pub proof fn lemma_blocks_fixed(
    b: Seq<u8>,
    roots: Set<int>,
    s1: Seq<BlockView>,
    spans1: Seq<SpanView>,
    s2: Seq<BlockView>,
    spans2: Seq<SpanView>,
    i: int,
    j: int,
)
    requires
        spec_settled(b, roots, s1, spans1),
        spec_settled(b, roots, s2, spans2),
        0 <= i < s1.len(),
        0 <= j < s2.len(),
        s1[i] is Code,
        spans1[i].start == spans2[j].start,
    ensures
        s2[j] is Code,
        spans1[i].addrs == spans2[j].addrs,
        spans1[i].end == spans2[j].end,
        spec_lower_commands(s1[i]->commands, spec_starts(spans1)) == spec_lower_commands(
            s2[j]->commands,
            spec_starts(spans2),
        ),
        spec_lower_terminator(s1[i]->terminator, spec_starts(spans1)) == spec_lower_terminator(
            s2[j]->terminator,
            spec_starts(spans2),
        ),
{
    let c1 = choose|covered: Set<int>| #[trigger] spec_inv(b, s1, spans1, covered, roots, -1);
    let c2 = choose|covered: Set<int>| #[trigger] spec_inv(b, s2, spans2, covered, roots, -1);
    lemma_same_kind(b, roots, s1, spans1, s2, spans2, i, j);
    let n1 = spans1[i].addrs.len() as int;
    let n2 = spans2[j].addrs.len() as int;
    assert(spec_block_ok(b, s1, spans1, i));
    assert(spec_block_ok(b, s2, spans2, j));
    assert(spans1[i].closed && spans2[j].closed);
    if n1 > 0 {
        lemma_same_prefix(b, roots, s1, spans1, s2, spans2, i, j, n1 - 1);
    }
    if n2 > 0 {
        lemma_same_prefix(b, roots, s2, spans2, s1, spans1, j, i, n2 - 1);
    }
    assert(n1 == n2);
    assert forall|k: int| 0 <= k < n1 implies spans1[i].addrs[k] == spans2[j].addrs[k]
        && #[trigger] spec_lower_commands(s1[i]->commands, spec_starts(spans1))[k]
        == spec_lower_commands(s2[j]->commands, spec_starts(spans2))[k] by {
        lemma_same_prefix(b, roots, s1, spans1, s2, spans2, i, j, k);
    }
    assert forall|k: int| 0 <= k < n1 implies #[trigger] spans1[i].addrs[k] == spans2[j].addrs[k] by {
        lemma_same_prefix(b, roots, s1, spans1, s2, spans2, i, j, k);
    }
    assert(spans1[i].addrs =~= spans2[j].addrs);
    assert(spec_lower_commands(s1[i]->commands, spec_starts(spans1)) =~= spec_lower_commands(
        s2[j]->commands,
        spec_starts(spans2),
    ));
    lemma_same_end(b, roots, s1, spans1, s2, spans2, i, j);
    lemma_same_end(b, roots, s2, spans2, s1, spans1, j, i);
}

/// A code block of one decoding and a block of another that start at the
/// same offset are both code blocks.
proof fn lemma_same_kind(
    b: Seq<u8>,
    roots: Set<int>,
    s1: Seq<BlockView>,
    spans1: Seq<SpanView>,
    s2: Seq<BlockView>,
    spans2: Seq<SpanView>,
    i: int,
    j: int,
)
    requires
        spec_settled(b, roots, s1, spans1),
        spec_settled(b, roots, s2, spans2),
        0 <= i < s1.len(),
        0 <= j < s2.len(),
        s1[i] is Code,
        spans1[i].start == spans2[j].start,
    ensures
        s2[j] is Code,
{
    let c2 = choose|covered: Set<int>| #[trigger] spec_inv(b, s2, spans2, covered, roots, -1);
    if s2[j] is Data {
        let t = spans1[i].start as int;
        assert(spec_targeted(b, roots, t));
        lemma_targeted_demanded(b, roots, t);
        assert(spec_data_demanded(b, roots, spans2[j].start as int));
        lemma_complete_apart(b, s2, spans2, c2, roots);
    }
}

/// Two code blocks of two decodings that start at the same offset hold
/// the same command at each place of the first.
proof fn lemma_same_prefix(
    b: Seq<u8>,
    roots: Set<int>,
    s1: Seq<BlockView>,
    spans1: Seq<SpanView>,
    s2: Seq<BlockView>,
    spans2: Seq<SpanView>,
    i: int,
    j: int,
    k: int,
)
    requires
        spec_settled(b, roots, s1, spans1),
        spec_settled(b, roots, s2, spans2),
        0 <= i < s1.len(),
        0 <= j < s2.len(),
        s1[i] is Code,
        s2[j] is Code,
        spans1[i].start == spans2[j].start,
        0 <= k < spans1[i].addrs.len(),
    ensures
        k < spans2[j].addrs.len(),
        spans2[j].addrs[k] == spans1[i].addrs[k],
        spec_next_addr(spans2[j], k) == spec_next_addr(spans1[i], k),
        spec_lower_command(s1[i]->commands[k], spec_starts(spans1)) == spec_lower_command(
            s2[j]->commands[k],
            spec_starts(spans2),
        ),
        spans1[i].addrs.len() == s1[i]->commands.len(),
        spans2[j].addrs.len() == s2[j]->commands.len(),
    decreases k,
{
    let c1 = choose|covered: Set<int>| #[trigger] spec_inv(b, s1, spans1, covered, roots, -1);
    let c2 = choose|covered: Set<int>| #[trigger] spec_inv(b, s2, spans2, covered, roots, -1);
    let a = spans1[i].addrs[k] as int;
    assert(spec_block_ok(b, s1, spans1, i));
    assert(spec_block_ok(b, s2, spans2, j));
    assert(spans1[i].closed && spans2[j].closed);
    assert(spec_command_ok(b, s1, spans1[i], spec_starts(spans1), s1[i]->commands, k));
    if k > 0 {
        lemma_same_prefix(b, roots, s1, spans1, s2, spans2, i, j, k - 1);
        assert(spec_next_addr(spans1[i], k - 1) == a);
    }
    if k >= spans2[j].addrs.len() {
        // The second block ends where the first goes on.
        assert(spans2[j].end == a);
        match s2[j]->terminator {
            Terminator::Fallthrough(id) => {
                assert(spans2[id.index as int].start == a);
                assert(spec_targeted(b, roots, spans2[id.index as int].start as int));
                let other = lemma_target_starts(b, roots, s1, spans1, a);
                assert(spans1[i].addrs[0] < spans1[i].addrs[k]);
                assert(spec_claims(s1, spans1, other, a));
                assert(spec_point_of(s1, spans1, i, a));
            },
            _ => {},
        }
    }
    assert(spec_command_ok(b, s2, spans2[j], spec_starts(spans2), s2[j]->commands, k));
}

/// Two code blocks of two decodings that hold the same commands at the
/// same offsets end at the same offset, and where the first falls through
/// or transfers control, the second does the same.
proof fn lemma_same_end(
    b: Seq<u8>,
    roots: Set<int>,
    s1: Seq<BlockView>,
    spans1: Seq<SpanView>,
    s2: Seq<BlockView>,
    spans2: Seq<SpanView>,
    i: int,
    j: int,
)
    requires
        spec_settled(b, roots, s1, spans1),
        spec_settled(b, roots, s2, spans2),
        0 <= i < s1.len(),
        0 <= j < s2.len(),
        s1[i] is Code,
        s2[j] is Code,
        spans1[i].start == spans2[j].start,
        spans1[i].addrs.len() == spans2[j].addrs.len(),
    ensures
        spans1[i].end == spans2[j].end,
        s1[i]->terminator is Fallthrough ==> s2[j]->terminator is Fallthrough
            && spec_lower_terminator(s1[i]->terminator, spec_starts(spans1))
            == spec_lower_terminator(s2[j]->terminator, spec_starts(spans2)),
        !(s1[i]->terminator is Fallthrough) && !(s2[j]->terminator is Fallthrough)
            ==> spec_lower_terminator(s1[i]->terminator, spec_starts(spans1))
            == spec_lower_terminator(s2[j]->terminator, spec_starts(spans2)),
{
    let c1 = choose|covered: Set<int>| #[trigger] spec_inv(b, s1, spans1, covered, roots, -1);
    let c2 = choose|covered: Set<int>| #[trigger] spec_inv(b, s2, spans2, covered, roots, -1);
    let n = spans1[i].addrs.len() as int;
    assert(spec_block_ok(b, s1, spans1, i));
    assert(spec_block_ok(b, s2, spans2, j));
    assert(spans1[i].closed && spans2[j].closed);
    if n > 0 {
        lemma_same_prefix(b, roots, s1, spans1, s2, spans2, i, j, n - 1);
    }
    let end = spans1[i].end as int;
    match s1[i]->terminator {
        Terminator::Fallthrough(id) => {
            assert(spans1[id.index as int].start == end);
            if !(s2[j]->terminator is Fallthrough) {
                assert(spec_targeted(b, roots, spans1[id.index as int].start as int));
                let other = lemma_target_starts(b, roots, s2, spans2, end);
                assert(spans2[j].addrs[0] < spans2[j].end);
                assert(spec_claims(s2, spans2, other, end));
                assert(spec_point_of(s2, spans2, j, end));
            }
        },
        _ => {},
    }
}

/// Two decodings of the same events from the same stream hold the same
/// number of blocks: an event that is named twice, or decoded again, adds
/// no block, and no block is cut in one decoding and whole in the other.
pub proof fn lemma_count_fixed(
    b: Seq<u8>,
    roots: Set<int>,
    s1: Seq<BlockView>,
    spans1: Seq<SpanView>,
    s2: Seq<BlockView>,
    spans2: Seq<SpanView>,
)
    requires
        spec_settled(b, roots, s1, spans1),
        spec_settled(b, roots, s2, spans2),
    ensures
        s1.len() == s2.len(),
{
    let starts1 = spec_starts(spans1);
    let starts2 = spec_starts(spans2);
    lemma_starts_held(b, roots, s1, spans1, s2, spans2);
    lemma_starts_held(b, roots, s2, spans2, s1, spans1);
    assert(starts1.to_set() =~= starts2.to_set());
    lemma_starts_distinct(b, roots, s1, spans1);
    lemma_starts_distinct(b, roots, s2, spans2);
    starts1.unique_seq_to_set();
    starts2.unique_seq_to_set();
}

/// No two blocks of a decoding start at the same offset.
proof fn lemma_starts_distinct(b: Seq<u8>, roots: Set<int>, s: Seq<BlockView>, spans: Seq<SpanView>)
    requires
        spec_settled(b, roots, s, spans),
    ensures
        spec_starts(spans).no_duplicates(),
        spec_starts(spans).len() == s.len(),
{
    let starts = spec_starts(spans);
    assert forall|x: int, y: int| 0 <= x < starts.len() && 0 <= y < starts.len() && x != y implies starts[x]
        != starts[y] by {
        if x < y {
            assert(spans[x].start != spans[y].start);
        } else {
            assert(spans[y].start != spans[x].start);
        }
    }
}

/// Where a block of one decoding starts, a block of the other starts.
proof fn lemma_starts_held(
    b: Seq<u8>,
    roots: Set<int>,
    s1: Seq<BlockView>,
    spans1: Seq<SpanView>,
    s2: Seq<BlockView>,
    spans2: Seq<SpanView>,
)
    requires
        spec_settled(b, roots, s1, spans1),
        spec_settled(b, roots, s2, spans2),
    ensures
        forall|v: Ip| spec_starts(spans1).to_set().contains(v) ==> spec_starts(spans2).to_set().contains(v),
{
    let starts1 = spec_starts(spans1);
    let starts2 = spec_starts(spans2);
    let c1 = choose|covered: Set<int>| #[trigger] spec_inv(b, s1, spans1, covered, roots, -1);
    assert forall|v: Ip| starts1.to_set().contains(v) implies starts2.to_set().contains(v) by {
        let i = choose|i: int| 0 <= i < starts1.len() && starts1[i] == v;
        if s1[i] is Code {
            assert(spec_targeted(b, roots, spans1[i].start as int));
            let j = lemma_target_starts(b, roots, s2, spans2, v as int);
            assert(starts2[j] == v);
        } else {
            assert(spec_data_demanded(b, roots, spans1[i].start as int));
            let j = lemma_data_starts(b, roots, s2, spans2, v as int);
            assert(starts2[j] == v);
        }
    }
}

/// What runs from an offset does not depend on what else was decoded.
/// Take two decodings of one stream, of whatever events and in whatever
/// order. A code block of the one and a code block of the other that start
/// at the same offset run the same commands up to the next transfer of
/// control, and control is transferred there in the same way to the same
/// offsets. An event that jumps into the commands of another may cut a
/// block in two; what runs from the start of the block stays what it was.
pub proof fn lemma_runs_fixed(
    b: Seq<u8>,
    roots1: Set<int>,
    s1: Seq<BlockView>,
    spans1: Seq<SpanView>,
    roots2: Set<int>,
    s2: Seq<BlockView>,
    spans2: Seq<SpanView>,
    i: int,
    j: int,
    fuel: nat,
)
    requires
        spec_settled(b, roots1, s1, spans1),
        spec_settled(b, roots2, s2, spans2),
        0 <= i < s1.len(),
        0 <= j < s2.len(),
        s1[i] is Code,
        s2[j] is Code,
        spans1[i].start == spans2[j].start,
        fuel >= b.len() - spans1[i].start,
    ensures
        spec_flat(s1, spans1, i, fuel) == spec_flat(s2, spans2, j, fuel),
        spec_flat_end(s1, spans1, i, fuel) == spec_flat_end(s2, spans2, j, fuel),
{
    let c1 = choose|covered: Set<int>| #[trigger] spec_inv(b, s1, spans1, covered, roots1, -1);
    let c2 = choose|covered: Set<int>| #[trigger] spec_inv(b, s2, spans2, covered, roots2, -1);
    lemma_flat_is_run(b, s1, spans1, c1, roots1, i, fuel);
    lemma_flat_is_run(b, s2, spans2, c2, roots2, j, fuel);
}

/// The indices of the code blocks at which the events start.
pub open spec fn spec_entries(s: Seq<BlockView>, spans: Seq<SpanView>, roots: Set<int>) -> Set<int> {
    Set::new(|i: int| 0 <= i < s.len() && s[i] is Code && roots.contains(spans[i].start as int))
}

/// What an instruction of a block leads to is an instruction of the same
/// block or of a block that the block refers to.
proof fn lemma_step_edge(
    b: Seq<u8>,
    roots: Set<int>,
    s: Seq<BlockView>,
    spans: Seq<SpanView>,
    p: int,
    at: int,
    to: int,
) -> (q: int)
    requires
        spec_settled(b, roots, s, spans),
        0 <= p < s.len(),
        spec_point_of(s, spans, p, at),
        spec_leads(b, at, to),
    ensures
        0 <= q < s.len(),
        spec_point_of(s, spans, q, to),
        q == p || spec_edge(s, p, q),
{
    let covered = choose|covered: Set<int>| #[trigger] spec_inv(b, s, spans, covered, roots, -1);
    let span = spans[p];
    let commands = s[p]->commands;
    assert(spec_block_ok(b, s, spans, p));
    assert(span.closed);
    if exists|k: int| 0 <= k < span.addrs.len() && #[trigger] span.addrs[k] == at {
        let k = choose|k: int| 0 <= k < span.addrs.len() && #[trigger] span.addrs[k] == at;
        assert(spec_command_ok(b, s, span, spec_starts(spans), commands, k));
        if to == spec_next_addr(span, k) {
            if k + 1 < span.addrs.len() {
                assert(span.addrs[k + 1] == to);
                p
            } else {
                match s[p]->terminator {
                    Terminator::Fallthrough(id) => {
                        lemma_start_read(b, s, spans, covered, roots, id.index as int);
                        id.index as int
                    },
                    _ => p,
                }
            }
        } else {
            match commands[k] {
                Command::Call(id) => {
                    lemma_start_read(b, s, spans, covered, roots, id.index as int);
                    assert(crate::event::analysis::spec_command_targets(commands[k], id.index as int));
                    id.index as int
                },
                _ => p,
            }
        }
    } else {
        match s[p]->terminator {
            Terminator::Jump(id) => {
                lemma_start_read(b, s, spans, covered, roots, id.index as int);
                id.index as int
            },
            Terminator::Branch { condition, if_true, if_false } => {
                lemma_start_read(b, s, spans, covered, roots, if_true.index as int);
                lemma_start_read(b, s, spans, covered, roots, if_false.index as int);
                if spans[if_true.index as int].start == to {
                    if_true.index as int
                } else {
                    if_false.index as int
                }
            },
            _ => p,
        }
    }
}

/// Along a way from an event, every offset is an instruction of a block
/// that can be reached from the blocks at which the events start.
proof fn lemma_trail_reached(
    b: Seq<u8>,
    roots: Set<int>,
    s: Seq<BlockView>,
    spans: Seq<SpanView>,
    path: Seq<int>,
    upto: int,
) -> (p: int)
    requires
        spec_settled(b, roots, s, spans),
        spec_trail(b, path),
        roots.contains(path[0]),
        0 <= upto < path.len(),
    ensures
        0 <= p < s.len(),
        spec_point_of(s, spans, p, path[upto]),
        spec_reachable(s, spec_entries(s, spans, roots), p),
    decreases upto,
{
    let covered = choose|covered: Set<int>| #[trigger] spec_inv(b, s, spans, covered, roots, -1);
    let entries = spec_entries(s, spans, roots);
    if upto == 0 {
        let i = choose|i: int| 0 <= i < s.len() && (#[trigger] spans[i]).start == path[0] && s[i] is Code;
        lemma_start_read(b, s, spans, covered, roots, i);
        assert(entries.contains(i));
        lemma_reach_root(s, entries, i);
        i
    } else {
        let p = lemma_trail_reached(b, roots, s, spans, path, upto - 1);
        assert(spec_leads(b, path[upto - 1], path[upto - 1 + 1]));
        let q = lemma_step_edge(b, roots, s, spans, p, path[upto - 1], path[upto]);
        if q != p {
            lemma_reach_step(s, entries, p, q);
        }
        q
    }
}

/// Every block of a decoding can be reached, in the graph of the blocks,
/// from the blocks at which the events start: nothing that was decoded is
/// dead code.
pub proof fn lemma_all_reached(
    b: Seq<u8>,
    roots: Set<int>,
    s: Seq<BlockView>,
    spans: Seq<SpanView>,
    i: int,
)
    requires
        spec_settled(b, roots, s, spans),
        0 <= i < s.len(),
    ensures
        spec_reachable(s, spec_entries(s, spans, roots), i),
{
    let covered = choose|covered: Set<int>| #[trigger] spec_inv(b, s, spans, covered, roots, -1);
    let entries = spec_entries(s, spans, roots);
    if s[i] is Code {
        let t = spans[i].start as int;
        assert(spec_targeted(b, roots, spans[i].start as int));
        lemma_targeted_demanded(b, roots, t);
        let path = choose|path: Seq<int>| #[trigger]
            spec_trail(b, path) && roots.contains(path[0]) && path.last() == t;
        let p = lemma_trail_reached(b, roots, s, spans, path, path.len() - 1);
        lemma_start_read(b, s, spans, covered, roots, i);
        if p != i {
            assert(spec_claims(s, spans, i, t));
        }
    } else {
        let t = spans[i].start as int;
        assert(spec_data_demanded(b, roots, spans[i].start as int));
        let at = choose|at: int| spec_demanded(b, roots, at) && #[trigger] spec_msg_at(b, at, t);
        let path = choose|path: Seq<int>| #[trigger]
            spec_trail(b, path) && roots.contains(path[0]) && path.last() == at;
        let p = lemma_trail_reached(b, roots, s, spans, path, path.len() - 1);
        assert(spec_block_ok(b, s, spans, p));
        let k = choose|k: int| 0 <= k < spans[p].addrs.len() && #[trigger] spans[p].addrs[k] == at;
        assert(spec_command_ok(b, s, spans[p], spec_starts(spans), s[p]->commands, k));
        match s[p]->commands[k] {
            Command::Msg(id) => {
                let d = id.index as int;
                assert(spans[d].start == t);
                if d != i {
                    if d < i {
                        assert(spans[d].start != spans[i].start);
                    } else {
                        assert(spans[i].start != spans[d].start);
                    }
                }
                assert(crate::event::analysis::spec_command_targets(s[p]->commands[k], i));
                assert(spec_edge(s, p, i));
                lemma_reach_step(s, entries, p, i);
            },
            _ => {},
        }
    }
}

/// Whether the stream holds two short runs: at `a` the command `first` and
/// behind it, at `m`, a jump to `t`; at `t` the command `second` and behind
/// it, at `n`, a return. Neither command calls a subroutine or shows a
/// message.
pub open spec fn spec_two_runs(
    b: Seq<u8>,
    a: Ip,
    first: Command<Ip>,
    m: int,
    t: Ip,
    second: Command<Ip>,
    n: int,
) -> bool {
    &&& !(first is Call) && !(first is Msg)
    &&& !(second is Call) && !(second is Msg)
    &&& spec_parse_op(b, a as int) == Ok::<(Op<Ip>, int), Error>((Op::Command(first), m))
    &&& spec_parse_op(b, m) matches Ok((op, _)) && op == Op::<Ip>::Control(Terminator::Jump(t))
    &&& spec_parse_op(b, t as int) == Ok::<(Op<Ip>, int), Error>((Op::Command(second), n))
    &&& spec_parse_op(b, n) matches Ok((op, _)) && op == Op::<Ip>::Control(Terminator::Return)
}

/// From an event at the first of two short runs, a way leads to the four
/// instructions of the runs and to nothing else.
proof fn lemma_two_runs_trail(
    b: Seq<u8>,
    a: Ip,
    first: Command<Ip>,
    m: int,
    t: Ip,
    second: Command<Ip>,
    n: int,
    path: Seq<int>,
    upto: int,
)
    requires
        spec_two_runs(b, a, first, m, t, second, n),
        spec_trail(b, path),
        path[0] == a,
        0 <= upto < path.len(),
    ensures
        path[upto] == a || path[upto] == m || path[upto] == t || path[upto] == n,
    decreases upto,
{
    if upto > 0 {
        lemma_two_runs_trail(b, a, first, m, t, second, n, path, upto - 1);
        assert(spec_leads(b, path[upto - 1], path[upto - 1 + 1]));
    }
}

/// With an event at the first of two short runs, blocks have to start at
/// the two runs and nowhere else, and no data block is asked for.
proof fn lemma_two_runs_targets(
    b: Seq<u8>,
    a: Ip,
    first: Command<Ip>,
    m: int,
    t: Ip,
    second: Command<Ip>,
    n: int,
)
    requires
        spec_two_runs(b, a, first, m, t, second, n),
    ensures
        forall|x: int| #[trigger] spec_targeted(b, set![a as int], x) <==> x == a || x == t,
        forall|x: int| !#[trigger] spec_data_demanded(b, set![a as int], x),
        a != t,
{
    let roots = set![a as int];
    assert forall|x: int| spec_demanded(b, roots, x) implies x == a || x == m || x == t || x == n by {
        let path = choose|path: Seq<int>| #[trigger]
            spec_trail(b, path) && roots.contains(path[0]) && path.last() == x;
        lemma_two_runs_trail(b, a, first, m, t, second, n, path, path.len() - 1);
    }
    lemma_demanded_root(b, roots, a as int);
    lemma_demanded_step(b, roots, a as int, m);
    assert(spec_jumps(b, m, t as int));
    assert forall|x: int| #[trigger] spec_targeted(b, roots, x) implies x == a || x == t by {
        if !roots.contains(x) {
            let at = choose|at: int| spec_demanded(b, roots, at) && #[trigger] spec_jumps(b, at, x);
            assert(at == a || at == m || at == t || at == n);
        }
    }
    assert forall|x: int| !#[trigger] spec_data_demanded(b, roots, x) by {
        if spec_data_demanded(b, roots, x) {
            let at = choose|at: int| spec_demanded(b, roots, at) && #[trigger] spec_msg_at(b, at, x);
            assert(at == a || at == m || at == t || at == n);
        }
    }
}

/// A block that starts at a command behind which a block ends, and no block
/// has to start, holds that one command and ends there.
proof fn lemma_one_command(
    b: Seq<u8>,
    roots: Set<int>,
    s: Seq<BlockView>,
    spans: Seq<SpanView>,
    i: int,
    c: Command<Ip>,
    next: int,
)
    requires
        spec_settled(b, roots, s, spans),
        0 <= i < s.len(),
        s[i] is Code,
        spec_parse_op(b, spans[i].start as int) == Ok::<(Op<Ip>, int), Error>((Op::Command(c), next)),
        spec_parse_op(b, next) matches Ok((op, _)) && op is Control,
        !spec_targeted(b, roots, next),
    ensures
        spec_lower_commands(s[i]->commands, spec_starts(spans)) == seq![c],
        spans[i].end == next,
        spec_parse_op(b, next) matches Ok((op, _)) && op == Op::Control(
            spec_lower_terminator(s[i]->terminator, spec_starts(spans)),
        ),
        !(s[i]->terminator is Fallthrough),
{
    let starts = spec_starts(spans);
    let commands = s[i]->commands;
    assert(spec_block_ok(b, s, spans, i));
    assert(spans[i].closed);
    lemma_cut(b, roots, s, spans, i);
    if commands.len() == 0 {
        assert(!(s[i]->terminator is Fallthrough));
        assert(false);
    }
    assert(spec_command_ok(b, s, spans[i], starts, commands, 0));
    if commands.len() > 1 {
        assert(spec_command_ok(b, s, spans[i], starts, commands, 1));
        assert(false);
    }
    assert(spec_lower_commands(commands, starts) =~= seq![c]);
}

/// Two short runs give two blocks. Where the one event of a stream starts
/// at a command that is followed by a jump, and the jump leads to a command
/// that is followed by a return, every decoding holds exactly two blocks:
/// the block of the event with the first command, which ends with a jump to
/// the other block, and that block with the second command, which returns.
/// Both can be reached from the block of the event.
pub proof fn lemma_two_blocks(
    b: Seq<u8>,
    s: Seq<BlockView>,
    spans: Seq<SpanView>,
    a: Ip,
    first: Command<Ip>,
    m: int,
    t: Ip,
    second: Command<Ip>,
    n: int,
) -> (r: (int, int))
    requires
        spec_two_runs(b, a, first, m, t, second, n),
        spec_settled(b, set![a as int], s, spans),
    ensures
        s.len() == 2,
        0 <= r.0 < 2,
        0 <= r.1 < 2,
        r.0 != r.1,
        spans[r.0].start == a,
        spans[r.1].start == t,
        s[r.0] is Code,
        s[r.1] is Code,
        spec_lower_commands(s[r.0]->commands, spec_starts(spans)) == seq![first],
        s[r.0]->terminator matches Terminator::Jump(id) && id.index == r.1,
        spec_lower_commands(s[r.1]->commands, spec_starts(spans)) == seq![second],
        s[r.1]->terminator is Return,
        forall|x: int| 0 <= x < 2 ==> spec_reachable(s, set![r.0], x),
{
    let roots = set![a as int];
    let starts = spec_starts(spans);
    lemma_two_runs_targets(b, a, first, m, t, second, n);
    lemma_starts_distinct(b, roots, s, spans);
    assert(spec_targeted(b, roots, a as int));
    assert(spec_targeted(b, roots, t as int));
    let i = lemma_target_starts(b, roots, s, spans, a as int);
    let j = lemma_target_starts(b, roots, s, spans, t as int);
    assert(!spec_targeted(b, roots, m));
    assert(!spec_targeted(b, roots, n));
    lemma_one_command(b, roots, s, spans, i, first, m);
    lemma_one_command(b, roots, s, spans, j, second, n);
    assert(spec_block_ok(b, s, spans, i));
    assert(spans[i].closed);
    match s[i]->terminator {
        Terminator::Jump(id) => {
            assert(starts[id.index as int] == t);
            assert(starts[j] == t);
            assert(id.index == j);
        },
        _ => {},
    }
    assert(starts[i] == a && starts[j] == t);
    assert forall|x: int| 0 <= x < s.len() implies #[trigger] starts[x] == a || starts[x] == t by {
        if s[x] is Code {
            assert(spec_targeted(b, roots, spans[x].start as int));
        } else {
            assert(spec_data_demanded(b, roots, spans[x].start as int));
        }
    }
    if s.len() > 2 {
        assert(starts[0] == a || starts[0] == t);
        assert(starts[1] == a || starts[1] == t);
        assert(starts[2] == a || starts[2] == t);
    }
    assert(spec_entries(s, spans, roots) =~= set![i]) by {
        assert forall|x: int| spec_entries(s, spans, roots).contains(x) implies x == i by {
            assert(starts[x] == spans[x].start);
            assert(starts[i] == a);
        }
    }
    assert forall|x: int| 0 <= x < 2 implies spec_reachable(s, set![i], x) by {
        lemma_all_reached(b, roots, s, spans, x);
    }
    (i, j)
}

/// The index of the block that is being read, or `-1` for none.
pub open spec fn spec_current(cur: Option<usize>) -> int {
    match cur {
        Some(c) => c as int,
        None => -1,
    }
}

/// What a search for an offset among the blocks found.
#[derive(Debug, Clone, Copy, PartialEq, Eq, Structural)]
pub enum Found {
    /// The block with this index starts at the offset.
    Start(usize),
    /// The offset lies inside the block with this index, in front of the
    /// instruction at this place.
    Inside(usize, usize),
    /// No instruction was read at the offset, and no block starts there.
    Nowhere,
}

/// Decodes the events of one bytecode stream into one script.
pub struct ScriptReader<'a> {
    /// The stream. Offsets are positions in it.
    pub bytes: &'a [u8],
    /// The blocks read so far.
    pub script: Script,
    /// For each block, where it stands in the stream.
    pub spans: Vec<Span>,
    /// Every block in front of this index is closed.
    pub done: usize,
    /// The offsets at which an instruction was read.
    pub covered: Ghost<Set<int>>,
    /// The offsets that were asked for as events.
    pub roots: Ghost<Set<int>>,
}

impl<'a> ScriptReader<'a> {
    /// Where each block stands, as plain mathematical values.
    pub open spec fn spec_spans(&self) -> Seq<SpanView> {
        Seq::new(self.spans@.len(), |i: int| self.spans@[i]@)
    }

    /// Whether the reader's state is sound while the block with index
    /// `current` is being read.
    pub open spec fn inv(&self, current: int) -> bool {
        &&& spec_inv(self.bytes@, self.script@, self.spec_spans(), self.covered@, self.roots@, current)
        &&& self.done <= self.script@.len()
        &&& forall|i: int| 0 <= i < self.done ==> (#[trigger] self.spec_spans()[i]).closed
    }

    /// Whether the reader's state is sound between two reads: every block
    /// is what the stream holds at the block's place, no two blocks start
    /// at the same offset, and only blocks that were not read yet are open.
    pub open spec fn wf(&self) -> bool {
        &&& self.inv(-1)
        &&& spec_rooted(self.script@, self.spec_spans(), self.roots@)
    }

    /// Whether every block was read to its end.
    pub open spec fn spec_complete(&self) -> bool {
        &&& self.script@.len() == self.spans@.len()
        &&& forall|i: int| 0 <= i < self.script@.len() ==> (#[trigger] self.spec_spans()[i]).closed
    }

    /// Starts reading `bytes`. Nothing is read yet.
    pub fn new(bytes: &'a [u8]) -> (reader: ScriptReader<'a>)
        ensures
            reader.wf(),
            reader.spec_complete(),
            reader.bytes@ == bytes@,
            reader.script@.len() == 0,
            reader.roots@ == Set::<int>::empty(),
    {
        let reader = ScriptReader {
            bytes,
            script: Script::new(),
            spans: Vec::new(),
            done: 0,
            covered: Ghost(Set::empty()),
            roots: Ghost(Set::empty()),
        };
        reader
    }

    /// How many blocks were allocated so far.
    pub fn block_count(&self) -> (n: usize)
        ensures
            n == self.script@.len(),
    {
        self.script.len()
    }

    /// Adds a block and its place.
    fn push_block(&mut self, block: Block, span: Span)
        requires
            old(self).script@.len() == old(self).spans@.len(),
        ensures
            final(self).script@ == old(self).script@.push(block@),
            final(self).spec_spans() == old(self).spec_spans().push(span@),
            final(self).bytes == old(self).bytes,
            final(self).done == old(self).done,
            final(self).covered == old(self).covered,
            final(self).roots == old(self).roots,
    {
        self.script.blocks.push(block);
        self.spans.push(span);
        assert(self.script@ =~= old(self).script@.push(block@));
        assert(self.spec_spans() =~= old(self).spec_spans().push(span@));
    }

    /// Adds a command that stands at `at` and ends at `end` to the block
    /// with index `cur`.
    fn push_command(&mut self, cur: usize, c: Command<BlockId>, at: Ip, end: Ip)
        requires
            old(self).script@.len() == old(self).spans@.len(),
            cur < old(self).script@.len(),
            old(self).script@[cur as int] is Code,
        ensures
            final(self).script@ == spec_with_command(old(self).script@, cur as int, c),
            final(self).spec_spans() == spec_spans_with_command(
                old(self).spec_spans(),
                cur as int,
                at,
                end,
            ),
            final(self).bytes == old(self).bytes,
            final(self).done == old(self).done,
            final(self).roots == old(self).roots,
            final(self).covered@ == old(self).covered@.insert(at as int),
    {
        match &mut self.script.blocks[cur] {
            Block::Code(code) => {
                code.commands.push(c);
            },
            Block::Data(_) => {},
        }
        let span = &mut self.spans[cur];
        span.addrs.push(at);
        span.end = end;
        self.covered = Ghost(self.covered@.insert(at as int));
        assert(self.script@ =~= spec_with_command(old(self).script@, cur as int, c));
        assert(self.spec_spans() =~= spec_spans_with_command(
            old(self).spec_spans(),
            cur as int,
            at,
            end,
        ));
    }

    /// Gives the block with index `cur` its terminator and closes it.
    fn close(&mut self, cur: usize, t: Terminator<BlockId>)
        requires
            old(self).script@.len() == old(self).spans@.len(),
            cur < old(self).script@.len(),
            old(self).script@[cur as int] is Code,
        ensures
            final(self).script@ == spec_with_end(old(self).script@, cur as int, t),
            final(self).spec_spans() == spec_spans_closed(old(self).spec_spans(), cur as int),
            final(self).bytes == old(self).bytes,
            final(self).done == old(self).done,
            final(self).roots == old(self).roots,
            final(self).covered@ == (if t is Fallthrough {
                old(self).covered@
            } else {
                old(self).covered@.insert(old(self).spec_spans()[cur as int].end as int)
            }),
    {
        let ghost at = self.spec_spans()[cur as int].end;
        let ghost through = t is Fallthrough;
        match &mut self.script.blocks[cur] {
            Block::Code(code) => {
                code.terminator = t;
            },
            Block::Data(_) => {},
        }
        let span = &mut self.spans[cur];
        span.closed = true;
        self.covered = Ghost(
            if through {
                self.covered@
            } else {
                self.covered@.insert(at as int)
            },
        );
        assert(self.script@ =~= spec_with_end(old(self).script@, cur as int, t));
        assert(self.spec_spans() =~= spec_spans_closed(old(self).spec_spans(), cur as int));
    }

    /// Splits the block with index `i` in front of the instruction at
    /// place `k`. Returns the index of the new block.
    fn split(&mut self, i: usize, k: usize) -> (j: usize)
        requires
            old(self).script@.len() == old(self).spans@.len(),
            i < old(self).script@.len(),
            old(self).script@[i as int] is Code,
            k <= old(self).spec_spans()[i as int].addrs.len(),
            old(self).spec_spans()[i as int].addrs.len() == old(self).script@[i as int]->commands.len(),
        ensures
            j == old(self).script@.len(),
            final(self).script@ == spec_split_blocks(old(self).script@, i as int, k as int),
            final(self).spec_spans() == spec_split_spans(old(self).spec_spans(), i as int, k as int),
            final(self).bytes == old(self).bytes,
            final(self).done == old(self).done,
            final(self).covered == old(self).covered,
            final(self).roots == old(self).roots,
    {
        let j = self.script.blocks.len();
        let mut tail_commands: Vec<Command<BlockId>> = Vec::new();
        let mut terminator: Terminator<BlockId> = Terminator::Fallthrough(BlockId { index: j });
        match &mut self.script.blocks[i] {
            Block::Code(code) => {
                tail_commands = code.commands.split_off(k);
                core::mem::swap(&mut terminator, &mut code.terminator);
            },
            Block::Data(_) => {},
        }
        let span = &mut self.spans[i];
        let at = if k < span.addrs.len() {
            span.addrs[k]
        } else {
            span.end
        };
        let tail_addrs = span.addrs.split_off(k);
        let end = span.end;
        let closed = span.closed;
        span.end = at;
        span.closed = true;
        self.script.blocks.push(Block::Code(CodeBlock { commands: tail_commands, terminator }));
        self.spans.push(Span { start: at, addrs: tail_addrs, end, closed });
        assert(self.script@ =~= spec_split_blocks(old(self).script@, i as int, k as int));
        assert(self.spec_spans() =~= spec_split_spans(old(self).spec_spans(), i as int, k as int));
        j
    }

    /// Whether reading stopped with the error `e`: the state is sound,
    /// and the block that was being read is open at an offset where reading
    /// cannot go on for that reason, or, as an invalid header, where a
    /// command of another block ends too.
    pub open spec fn spec_halted(&self, e: Error) -> bool {
        exists|cur: int|
            0 <= cur < self.script@.len() && #[trigger] self.inv(cur) && !self.spec_spans()[cur].closed
                && (spec_stuck_at(
                self.bytes@,
                self.script@,
                self.spec_spans(),
                self.spec_spans()[cur].end,
                e,
            ) || (e == Error::InvalidHeader && spec_met(self.script@, self.spec_spans(), cur)))
    }

    /// Where reading stopped with an error other than an invalid header,
    /// something that was asked for cannot be decoded, for that reason.
    pub proof fn lemma_halted_fails(&self, e: Error)
        requires
            self.spec_halted(e),
            e != Error::InvalidHeader,
        ensures
            exists|at: int|
                spec_demanded(self.bytes@, self.roots@, at) && #[trigger] spec_fails_at(
                    self.bytes@,
                    at,
                    e,
                ),
    {
        let cur = choose|cur: int|
            0 <= cur < self.script@.len() && #[trigger] self.inv(cur) && !self.spec_spans()[cur].closed
                && (spec_stuck_at(
                self.bytes@,
                self.script@,
                self.spec_spans(),
                self.spec_spans()[cur].end,
                e,
            ) || (e == Error::InvalidHeader && spec_met(self.script@, self.spec_spans(), cur)));
        assert(spec_block_ok(self.bytes@, self.script@, self.spec_spans(), cur));
        assert(spec_block_demanded(self.bytes@, self.roots@, self.spec_spans()[cur]));
        assert(spec_fails_at(self.bytes@, self.spec_spans()[cur].end as int, e));
    }

    /// Where every event was decoded to its end, nothing of what the events
    /// lead to is refused: decoding an offset other than `0` succeeds
    /// exactly where nothing is.
    pub proof fn lemma_complete_accepts(&self, e: Error)
        requires
            self.wf(),
            self.spec_complete(),
        ensures
            !Self::spec_refused(self.bytes@, self.roots@, e),
    {
        lemma_complete_apart(
            self.bytes@,
            self.script@,
            self.spec_spans(),
            self.covered@,
            self.roots@,
        );
        assert forall|at: int| spec_demanded(self.bytes@, self.roots@, at)
            implies !#[trigger] spec_fails_at(
            self.bytes@,
            at,
            e,
        ) by {
            lemma_complete_decodes(
                self.bytes@,
                self.script@,
                self.spec_spans(),
                self.covered@,
                self.roots@,
                at,
                e,
            );
        }
    }

    /// Where reading stopped with an invalid header, code and data collide.
    pub proof fn lemma_halted_collides(&self)
        requires
            self.spec_halted(Error::InvalidHeader),
        ensures
            spec_collides(self.bytes@, self.roots@),
    {
        let cur = choose|cur: int|
            0 <= cur < self.script@.len() && #[trigger] self.inv(cur) && !self.spec_spans()[cur].closed
                && (spec_stuck_at(
                self.bytes@,
                self.script@,
                self.spec_spans(),
                self.spec_spans()[cur].end,
                Error::InvalidHeader,
            ) || spec_met(self.script@, self.spec_spans(), cur));
        let s = self.script@;
        let spans = self.spec_spans();
        assert(spec_block_ok(self.bytes@, s, spans, cur));
        assert(spec_block_demanded(self.bytes@, self.roots@, spans[cur]));
        if spec_stuck_at(self.bytes@, s, spans, spans[cur].end, Error::InvalidHeader) {
            lemma_stuck_collides(
                self.bytes@,
                s,
                spans,
                self.covered@,
                self.roots@,
                cur,
                spans[cur].end,
            );
        } else {
            let (j, k) = choose|j: int, k: int|
                0 <= j < s.len() && j != cur && s[j] is Code && 0 <= k < spans[j].addrs.len()
                    && #[trigger] spec_next_addr(spans[j], k) == spans[cur].end;
            let last = spans[cur].addrs.len() - 1;
            let x = spans[cur].addrs[last] as int;
            let y = spans[j].addrs[k] as int;
            let n = spans[cur].end as int;
            assert(spec_block_ok(self.bytes@, s, spans, j));
            assert(spec_block_demanded(self.bytes@, self.roots@, spans[j]));
            assert(spec_command_ok(
                self.bytes@,
                s,
                spans[cur],
                spec_starts(spans),
                s[cur]->commands,
                last,
            ));
            assert(spec_command_ok(self.bytes@, s, spans[j], spec_starts(spans), s[j]->commands, k));
            assert(spec_runs_into(self.bytes@, x, n));
            assert(spec_runs_into(self.bytes@, y, n));
            assert(spec_point_of(s, spans, cur, x));
            assert(spec_point_of(s, spans, j, y));
            if x == y {
                assert(spec_claims(s, spans, cur, x));
            }
            assert(spec_merges(self.bytes@, self.roots@));
        }
    }

    /// Whether decoding the events at `roots` cannot succeed, for the
    /// reason `e`: with an invalid header where code and data collide,
    /// otherwise where something that the events lead to cannot be decoded.
    pub open spec fn spec_refused(bytes: Seq<u8>, roots: Set<int>, e: Error) -> bool {
        if e == Error::InvalidHeader {
            spec_collides(bytes, roots)
        } else {
            exists|at: int| spec_demanded(bytes, roots, at) && #[trigger] spec_fails_at(bytes, at, e)
        }
    }

    /// Finds or makes the code block that starts at `t`: the block that
    /// starts there, or the rest of the block that is split at `t`, or a
    /// new block that is read later. `cur` is the block that is being read,
    /// if any; where that block is split, the new block takes its place.
    fn resolve_code(&mut self, t: Ip, cur: Option<usize>) -> (r: Result<(BlockId, Option<usize>), Error>)
        requires
            old(self).inv(spec_current(cur)),
            cur matches Some(c)
                ==> c < old(self).script@.len() && !old(self).spec_spans()[c as int].closed,
            spec_targeted(old(self).bytes@, old(self).roots@, t as int),
        ensures
            final(self).bytes == old(self).bytes,
            final(self).done == old(self).done,
            final(self).covered == old(self).covered,
            final(self).roots == old(self).roots,
            spec_extends(
                old(self).script@,
                old(self).spec_spans(),
                final(self).script@,
                final(self).spec_spans(),
            ),
            forall|j: int|
                old(self).script@.len() <= j < final(self).script@.len()
                    ==> (#[trigger] final(self).spec_spans()[j]).start == t,
            (exists|j: int|
                0 <= j < old(self).script@.len() && (#[trigger] old(self).spec_spans()[j]).start == t)
                ==> final(self).script@ == old(self).script@
                    && final(self).spec_spans() == old(self).spec_spans(),
            spec_step(
                old(self).script@,
                old(self).spec_spans(),
                final(self).script@,
                final(self).spec_spans(),
                t,
            ),
            forall|j: int|
                0 <= j < old(self).script@.len() && old(self).spec_spans()[j].closed ==> (
                #[trigger] final(self).spec_spans()[j]).closed,
            match r {
                Ok((id, cur2)) => {
                    &&& final(self).inv(spec_current(cur2))
                    &&& spec_is_code(final(self).script@, id)
                    &&& final(self).spec_spans()[id.index as int].start == t
                    &&& cur is None <==> cur2 is None
                    &&& cur matches Some(c) ==> {
                        let c2 = cur2->0;
                        &&& c2 < final(self).script@.len()
                        &&& !final(self).spec_spans()[c2 as int].closed
                        &&& final(self).spec_spans()[c2 as int].end
                            == old(self).spec_spans()[c as int].end
                        &&& (final(self).spec_spans()[c2 as int].addrs.len() > 0)
                            == (old(self).spec_spans()[c as int].addrs.len() > 0)
                        &&& c2 == c || (old(self).spec_spans()[c as int].addrs.len() > 0 && c2
                            >= old(self).script@.len() && final(self).spec_spans()[c as int].closed)
                    }
                },
                Err(e) => {
                    &&& e == Error::InvalidHeader
                    &&& final(self).script@ == old(self).script@
                    &&& final(self).spec_spans() == old(self).spec_spans()
                    &&& spec_data_starts_at(old(self).script@, old(self).spec_spans(), t)
                },
            },
    {
        let total = self.script.blocks.len();
        assert(self.script@.len() == total);
        proof {
            lemma_targeted_demanded(self.bytes@, self.roots@, t as int);
        }
        match self.find(t) {
            Found::Start(i) => {
                if self.script.blocks[i].is_code() {
                    Ok((BlockId { index: i }, cur))
                } else {
                    Err(Error::InvalidHeader)
                }
            },
            Found::Inside(i, k) => {
                proof {
                    assert(spec_block_ok(self.bytes@, self.script@, self.spec_spans(), i as int));
                    lemma_split_inv(
                        self.bytes@,
                        self.script@,
                        self.spec_spans(),
                        self.covered@,
                        self.roots@,
                        spec_current(cur),
                        i as int,
                        k as int,
                    );
                }
                let j = self.split(i, k);
                let cur2 = match cur {
                    Some(c) => if c == i {
                        Some(j)
                    } else {
                        Some(c)
                    },
                    None => None,
                };
                proof {
                    if cur == Some(i) {
                        assert(spec_block_ok(
                            old(self).bytes@,
                            old(self).script@,
                            old(self).spec_spans(),
                            i as int,
                        ));
                    }
                }
                Ok((BlockId { index: j }, cur2))
            },
            Found::Nowhere => {
                proof {
                    lemma_pending_inv(
                        self.bytes@,
                        self.script@,
                        self.spec_spans(),
                        self.covered@,
                        self.roots@,
                        spec_current(cur),
                        t,
                    );
                }
                let j = self.script.blocks.len();
                self.push_block(
                    Block::Code(CodeBlock::new()),
                    Span { start: t, addrs: Vec::new(), end: t, closed: false },
                );
                Ok((BlockId { index: j }, cur))
            },
        }
    }

    /// Finds or reads the data block that starts at `t`.
    fn resolve_data(&mut self, t: Ip, Ghost(current): Ghost<int>) -> (r: Result<BlockId, Error>)
        requires
            old(self).inv(current),
            current < old(self).script@.len(),
            spec_data_demanded(old(self).bytes@, old(self).roots@, t as int),
        ensures
            final(self).bytes == old(self).bytes,
            final(self).done == old(self).done,
            final(self).covered == old(self).covered,
            final(self).roots == old(self).roots,
            spec_extends(
                old(self).script@,
                old(self).spec_spans(),
                final(self).script@,
                final(self).spec_spans(),
            ),
            forall|j: int|
                0 <= j < old(self).script@.len() ==> #[trigger] final(self).spec_spans()[j]
                    == old(self).spec_spans()[j] && final(self).script@[j] == old(self).script@[j],
            forall|j: int|
                old(self).script@.len() <= j < final(self).script@.len()
                    ==> (#[trigger] final(self).spec_spans()[j]).start == t,
            match r {
                Ok(id) => {
                    &&& final(self).inv(current)
                    &&& spec_is_data(final(self).script@, id)
                    &&& final(self).spec_spans()[id.index as int].start == t
                },
                Err(e) => {
                    &&& final(self).script@ == old(self).script@
                    &&& final(self).spec_spans() == old(self).spec_spans()
                    &&& match e {
                        Error::InvalidHeader => spec_code_at(
                            old(self).script@,
                            old(self).spec_spans(),
                            t,
                        ),
                        Error::TruncatedStream => spec_parse_data(old(self).bytes@, t as int) is None,
                        _ => false,
                    }
                },
            },
    {
        match self.find(t) {
            Found::Start(i) => {
                if self.script.blocks[i].is_code() {
                    Err(Error::InvalidHeader)
                } else {
                    Ok(BlockId { index: i })
                }
            },
            Found::Inside(i, k) => {
                proof {
                    let span = self.spec_spans()[i as int];
                    if k < span.addrs.len() {
                        assert(span.addrs[k as int] == t);
                    }
                    assert(spec_point_of(self.script@, self.spec_spans(), i as int, t as int));
                }
                Err(Error::InvalidHeader)
            },
            Found::Nowhere => {
                let bytes = self.bytes;
                let len = match get_u32_le(bytes, t as usize) {
                    Some(len) => len,
                    None => {
                        return Err(Error::TruncatedStream);
                    },
                };
                let from = t as usize + 4;
                if bytes.len() - from < len as usize {
                    return Err(Error::TruncatedStream);
                }
                let payload = vstd::slice::slice_to_vec(
                    slice_subrange(bytes, from, from + len as usize),
                );
                proof {
                    lemma_data_inv(
                        self.bytes@,
                        self.script@,
                        self.spec_spans(),
                        self.covered@,
                        self.roots@,
                        current,
                        t,
                        payload@,
                    );
                }
                let j = self.script.blocks.len();
                self.push_block(
                    Block::Data(DataBlock { bytes: payload }),
                    Span { start: t, addrs: Vec::new(), end: t, closed: true },
                );
                Ok(BlockId { index: j })
            },
        }
    }

    /// Ends the block that is being read in front of the instruction at
    /// which reading stands, because that instruction is the target of a
    /// jump or a call of its own: the instruction starts a new block, which
    /// is read later, and the block falls through to it.
    fn split_here(&mut self, cur: usize)
        requires
            old(self).inv(cur as int),
            spec_targeted(
                old(self).bytes@,
                old(self).roots@,
                old(self).spec_spans()[cur as int].end as int,
            ),
            cur < old(self).script@.len(),
            !old(self).spec_spans()[cur as int].closed,
            old(self).spec_spans()[cur as int].addrs.len() > 0,
            forall|j: int|
                0 <= j < old(self).script@.len() ==> (#[trigger] old(self).spec_spans()[j]).start
                    != old(self).spec_spans()[cur as int].end,
            forall|j: int|
                0 <= j < old(self).script@.len() ==> !#[trigger] spec_point_of(
                    old(self).script@,
                    old(self).spec_spans(),
                    j,
                    old(self).spec_spans()[cur as int].end as int,
                ),
        ensures
            final(self).inv(-1),
            final(self).bytes == old(self).bytes,
            final(self).done == old(self).done,
            final(self).covered == old(self).covered,
            final(self).roots == old(self).roots,
            final(self).spec_spans()[cur as int].closed,
            spec_extends(
                old(self).script@,
                old(self).spec_spans(),
                final(self).script@,
                final(self).spec_spans(),
            ),
            forall|j: int|
                0 <= j < old(self).script@.len() && j != cur
                    ==> (#[trigger] final(self).spec_spans()[j]).closed
                        == old(self).spec_spans()[j].closed,
    {
        let at = self.spans[cur].end;
        assert(self.spec_spans()[cur as int] == self.spans@[cur as int]@);
        proof {
            assert(spec_block_ok(self.bytes@, self.script@, self.spec_spans(), cur as int));
            assert(spec_block_demanded(self.bytes@, self.roots@, self.spec_spans()[cur as int]));
            lemma_falls_elsewhere(
                self.bytes@,
                self.script@,
                self.spec_spans(),
                self.covered@,
                self.roots@,
                cur as int,
                at,
            );
            lemma_pending_inv(
                self.bytes@,
                self.script@,
                self.spec_spans(),
                self.covered@,
                self.roots@,
                cur as int,
                at,
            );
        }
        let j = self.script.blocks.len();
        let ghost first_s = self.script@;
        let ghost first_spans = self.spec_spans();
        self.push_block(
            Block::Code(CodeBlock::new()),
            Span { start: at, addrs: Vec::new(), end: at, closed: false },
        );
        let t = Terminator::Fallthrough(BlockId { index: j });
        proof {
            assert(spec_block_ok(self.bytes@, self.script@, self.spec_spans(), cur as int));
            assert forall|p: int|
                0 <= p < self.script@.len() && p != cur && #[trigger] spec_falls(
                    self.script@,
                    self.spec_spans(),
                    p,
                ) implies self.spec_spans()[p].end != at by {
                assert(self.spec_spans()[p] == first_spans[p]);
                assert(self.script@[p] == first_s[p]);
                assert(spec_falls(first_s, first_spans, p));
            }
            lemma_close_inv(self.bytes@, self.script@, self.spec_spans(), self.covered@, self.roots@, cur as int, t);
        }
        self.close(cur, t);
    }

    /// Whether this state came from `before` by reading on: the stream is
    /// the same, every block is still there, of the same kind and at the
    /// same start, and what was closed still is.
    pub open spec fn spec_kept(&self, before: &ScriptReader<'a>) -> bool {
        &&& self.bytes == before.bytes
        &&& self.done == before.done
        &&& self.roots == before.roots
        &&& spec_extends(before.script@, before.spec_spans(), self.script@, self.spec_spans())
        &&& forall|j: int|
            0 <= j < before.script@.len() && before.spec_spans()[j].closed ==> (
            #[trigger] self.spec_spans()[j]).closed
    }

    /// Reading on from a state that was reached by reading on only goes
    /// further.
    pub proof fn lemma_kept_trans(a: &ScriptReader<'a>, b: &ScriptReader<'a>, c: &ScriptReader<'a>)
        requires
            b.spec_kept(a),
            c.spec_kept(b),
        ensures
            c.spec_kept(a),
    {
        let (sa, pa) = (a.script@, a.spec_spans());
        let (sb, pb) = (b.script@, b.spec_spans());
        let (sc, pc) = (c.script@, c.spec_spans());
        assert(spec_extends(sa, pa, sb, pb));
        assert(spec_extends(sb, pb, sc, pc));
        assert forall|j: int| 0 <= j < sa.len() implies (#[trigger] pc[j]).start == pa[j].start && (
        sc[j] is Code <==> sa[j] is Code) by {
            assert(pb[j].start == pa[j].start);
            assert(sb[j] is Code <==> sa[j] is Code);
            assert(pc[j].start == pb[j].start);
            assert(sc[j] is Code <==> sb[j] is Code);
        }
        assert forall|j: int| 0 <= j < sa.len() && pa[j].closed implies (#[trigger] pc[j]).closed by {
            assert(pb[j].closed);
        }
    }

    /// Whether the block with index `cur` is open and an instruction can be
    /// read where it ends: no other block starts there, and nothing was
    /// read there.
    pub open spec fn spec_ready(&self, cur: int, begun: bool) -> bool {
        let at = self.spec_spans()[cur].end;
        &&& self.inv(cur)
        &&& 0 <= cur < self.script@.len()
        &&& !self.spec_spans()[cur].closed
        &&& begun == (self.spec_spans()[cur].addrs.len() > 0)
        &&& forall|j: int|
            0 <= j < self.script@.len() && j != cur ==> (#[trigger] self.spec_spans()[j]).start
                != at
        &&& begun ==> self.spec_spans()[cur].start != at
        &&& begun ==> forall|j: int|
            0 <= j < self.script@.len() ==> !#[trigger] spec_point_of(
                self.script@,
                self.spec_spans(),
                j,
                at as int,
            )
        &&& !self.covered@.contains(at as int)
    }

    /// Looks at the offset where the open block with index `cur` ends.
    /// Where another block starts there, the block is closed and falls
    /// through to that block. Where a command of another block ends there
    /// too, the two runs overlap, and reading stops. Returns whether the
    /// block was closed.
    fn approach(&mut self, cur: usize) -> (r: Result<bool, Error>)
        requires
            old(self).inv(cur as int),
            cur < old(self).script@.len(),
            !old(self).spec_spans()[cur as int].closed,
        ensures
            final(self).spec_kept(old(self)),
            final(self).covered == old(self).covered,
            final(self).roots == old(self).roots,
            match r {
                Ok(closed) => if closed {
                    &&& final(self).inv(-1)
                    &&& final(self).spec_spans()[cur as int].closed
                    &&& old(self).spec_spans()[cur as int].addrs.len() > 0
                } else {
                    &&& final(self).script@ == old(self).script@
                    &&& final(self).spec_spans() == old(self).spec_spans()
                    &&& final(self).spec_ready(
                        cur as int,
                        old(self).spec_spans()[cur as int].addrs.len() > 0,
                    )
                },
                Err(e) => final(self).spec_halted(e),
            },
    {
        let at = self.spans[cur].end;
        let begun = self.spans[cur].addrs.len() > 0;
        assert(self.spec_spans()[cur as int] == self.spans@[cur as int]@);
        proof {
            assert(spec_block_ok(self.bytes@, self.script@, self.spec_spans(), cur as int));
        }
        if begun {
            match self.find(at) {
                Found::Start(j) => {
                    if !self.script.blocks[j].is_code() {
                        proof {
                            assert(self.spec_spans()[j as int].start == at);
                            assert(spec_data_starts_at(self.script@, self.spec_spans(), at));
                            assert(self.inv(cur as int));
                        }
                        return Err(Error::InvalidHeader);
                    }
                    match self.falls_into(at, cur) {
                        Some(p) => {
                            proof {
                                let s = self.script@;
                                let spans = self.spec_spans();
                                assert(spec_block_ok(self.bytes@, s, spans, p as int));
                                let last = spans[p as int].addrs.len() - 1;
                                assert(spec_next_addr(spans[p as int], last) == at);
                                assert(spec_met(s, spans, cur as int));
                                assert(self.inv(cur as int));
                            }
                            return Err(Error::InvalidHeader);
                        },
                        None => {},
                    }
                    let t = Terminator::Fallthrough(BlockId { index: j });
                    proof {
                        lemma_close_inv(
                            self.bytes@,
                            self.script@,
                            self.spec_spans(),
                            self.covered@,
                            self.roots@,
                            cur as int,
                            t,
                        );
                    }
                    self.close(cur, t);
                    return Ok(true);
                },
                Found::Inside(j, m) => {
                    proof {
                        let s = self.script@;
                        let spans = self.spec_spans();
                        assert(j != cur) by {
                            if j == cur {
                                let span = spans[cur as int];
                                if m < span.addrs.len() {
                                    assert(span.addrs[m as int] < span.end);
                                }
                            }
                        }
                        assert(spec_next_addr(spans[j as int], m - 1) == at);
                        assert(spec_met(s, spans, cur as int));
                        assert(self.inv(cur as int));
                    }
                    return Err(Error::InvalidHeader);
                },
                Found::Nowhere => {},
            }
        }
        proof {
            assert(!self.covered@.contains(at as int)) by {
                if self.covered@.contains(at as int) {
                    let i = choose|i: int|
                        0 <= i < self.script@.len() && #[trigger] spec_point_of(
                            self.script@,
                            self.spec_spans(),
                            i,
                            at as int,
                        );
                    if !begun {
                        assert(false);
                    }
                }
            }
            assert forall|j: int| 0 <= j < self.script@.len() && j != cur implies (
            #[trigger] self.spec_spans()[j]).start != at by {
                if !begun {
                    if j < cur {
                        assert(self.spec_spans()[j].start != self.spec_spans()[cur as int].start);
                    } else {
                        assert(self.spec_spans()[cur as int].start != self.spec_spans()[j].start);
                    }
                }
            }
        }
        Ok(false)
    }

    /// Looks up the target `t` of the instruction that is being read in the
    /// block with index `cur`. Returns the target's block and the index of
    /// the block in which reading goes on.
    fn target(&mut self, t: Ip, cur: usize, Ghost(begun): Ghost<bool>) -> (r: Result<
        (BlockId, usize),
        Error,
    >)
        requires
            old(self).spec_ready(cur as int, begun),
            begun ==> t != old(self).spec_spans()[cur as int].end,
            spec_targeted(old(self).bytes@, old(self).roots@, t as int),
        ensures
            final(self).spec_kept(old(self)),
            final(self).covered == old(self).covered,
            final(self).roots == old(self).roots,
            match r {
                Ok((id, cur2)) => {
                    &&& final(self).spec_ready(cur2 as int, begun)
                    &&& final(self).spec_spans()[cur2 as int].end
                        == old(self).spec_spans()[cur as int].end
                    &&& spec_is_code(final(self).script@, id)
                    &&& final(self).spec_spans()[id.index as int].start == t
                    &&& cur2 == cur || final(self).spec_spans()[cur as int].closed
                },
                Err(e) => {
                    &&& e == Error::InvalidHeader
                    &&& final(self).script@ == old(self).script@
                    &&& final(self).spec_spans() == old(self).spec_spans()
                    &&& spec_data_starts_at(old(self).script@, old(self).spec_spans(), t)
                },
            },
    {
        let ghost at = self.spec_spans()[cur as int].end;
        let ghost before_s = self.script@;
        let ghost before_spans = self.spec_spans();
        proof {
            assert(spec_block_ok(self.bytes@, self.script@, self.spec_spans(), cur as int));
        }
        match self.resolve_code(t, Some(cur)) {
            Ok((id, cur2)) => {
                let cur2 = cur2.unwrap();
                proof {
                    lemma_others_elsewhere(
                        before_s,
                        before_spans,
                        self.script@,
                        self.spec_spans(),
                        cur as int,
                        cur2 as int,
                        at,
                        t,
                        begun,
                    );
                    if begun {
                        lemma_points_kept(
                            self.bytes@,
                            before_s,
                            before_spans,
                            self.script@,
                            self.spec_spans(),
                            self.covered@,
                            cur as int,
                            t,
                            at,
                        );
                    }
                    assert(spec_block_ok(self.bytes@, self.script@, self.spec_spans(), cur2 as int));
                }
                Ok((id, cur2))
            },
            Err(e) => Err(e),
        }
    }

    /// Looks up the data block at `t` that the command refers to which is
    /// being read in the block with index `cur`.
    fn data_target(&mut self, t: Ip, cur: usize, Ghost(begun): Ghost<bool>) -> (r: Result<
        BlockId,
        Error,
    >)
        requires
            old(self).spec_ready(cur as int, begun),
            t != old(self).spec_spans()[cur as int].end,
            spec_data_demanded(old(self).bytes@, old(self).roots@, t as int),
        ensures
            final(self).spec_kept(old(self)),
            final(self).covered == old(self).covered,
            match r {
                Ok(id) => {
                    &&& final(self).spec_ready(cur as int, begun)
                    &&& final(self).spec_spans()[cur as int] == old(self).spec_spans()[cur as int]
                    &&& final(self).script@[cur as int] == old(self).script@[cur as int]
                    &&& spec_is_data(final(self).script@, id)
                    &&& final(self).spec_spans()[id.index as int].start == t
                },
                Err(e) => {
                    &&& final(self).script@ == old(self).script@
                    &&& final(self).spec_spans() == old(self).spec_spans()
                    &&& final(self).inv(cur as int)
                    &&& match e {
                        Error::InvalidHeader => spec_code_at(
                            old(self).script@,
                            old(self).spec_spans(),
                            t,
                        ),
                        Error::TruncatedStream => spec_parse_data(old(self).bytes@, t as int) is None,
                        _ => false,
                    }
                },
            },
    {
        let ghost at = self.spec_spans()[cur as int].end;
        let ghost first_s = self.script@;
        let ghost first_spans = self.spec_spans();
        match self.resolve_data(t, Ghost(cur as int)) {
            Ok(id) => {
                proof {
                    let s = self.script@;
                    let spans = self.spec_spans();
                    assert(spans[cur as int] == first_spans[cur as int]);
                    assert forall|j: int| 0 <= j < s.len() && j != cur implies (#[trigger] spans[j]).start
                        != at by {
                        if j < first_s.len() {
                            assert(spans[j] == first_spans[j]);
                        }
                    }
                    if begun {
                        assert forall|j: int| 0 <= j < s.len() implies !#[trigger] spec_point_of(
                            s,
                            spans,
                            j,
                            at as int,
                        ) by {
                            if j < first_s.len() {
                                assert(spans[j] == first_spans[j]);
                                assert(s[j] == first_s[j]);
                                if spec_point_of(s, spans, j, at as int) {
                                    lemma_point_frame(s, spans, first_s, first_spans, j, at as int);
                                }
                            } else {
                                assert(spec_block_ok(self.bytes@, s, spans, j));
                            }
                        }
                    }
                }
                Ok(id)
            },
            Err(e) => Err(e),
        }
    }

    /// Takes the command `raw`, which the stream holds where the block
    /// with index `cur` ends, into that block. Returns the index of the
    /// block in which reading goes on, or nothing where the block was
    /// closed in front of the command: a command that calls its own offset
    /// starts a block of its own.
    fn take_command(
        &mut self,
        cur: usize,
        raw: Command<Ip>,
        end: Ip,
        Ghost(begun): Ghost<bool>,
    ) -> (r: Result<Option<usize>, Error>)
        requires
            old(self).spec_ready(cur as int, begun),
            spec_parse_op(old(self).bytes@, old(self).spec_spans()[cur as int].end as int) == Ok::<
                (Op<Ip>, int),
                Error,
            >((Op::Command(raw), end as int)),
        ensures
            final(self).spec_kept(old(self)),
            match r {
                Ok(Some(cur2)) => {
                    &&& final(self).inv(cur2 as int)
                    &&& cur2 < final(self).script@.len()
                    &&& !final(self).spec_spans()[cur2 as int].closed
                    &&& final(self).spec_spans()[cur2 as int].addrs.len() > 0
                    &&& final(self).covered@ == old(self).covered@.insert(
                        old(self).spec_spans()[cur as int].end as int,
                    )
                    &&& cur2 == cur || final(self).spec_spans()[cur as int].closed
                },
                Ok(None) => {
                    &&& final(self).inv(-1)
                    &&& final(self).spec_spans()[cur as int].closed
                    &&& final(self).covered == old(self).covered
                    &&& begun
                },
                Err(e) => final(self).spec_halted(e),
            },
    {
        let at = self.spans[cur].end;
        assert(self.spec_spans()[cur as int] == self.spans@[cur as int]@);
        let is_begun = self.spans[cur].addrs.len() > 0;
        let mut now = cur;
        let command: Command<BlockId> = match raw {
            Command::Assign(target, value) => Command::Assign(target, value),
            Command::Wait(frames) => Command::Wait(frames),
            Command::Call(t) => {
                if is_begun && t == at {
                    proof {
                        assert(spec_block_ok(self.bytes@, self.script@, self.spec_spans(), cur as int));
                        assert(self.script@[cur as int] is Code);
                        assert(spec_block_demanded(
                            self.bytes@,
                            self.roots@,
                            self.spec_spans()[cur as int],
                        ));
                        assert(spec_jumps(self.bytes@, at as int, at as int));
                    }
                    self.split_here(cur);
                    return Ok(None);
                }
                proof {
                    assert(spec_block_ok(self.bytes@, self.script@, self.spec_spans(), cur as int));
                    assert(self.script@[cur as int] is Code);
                    assert(spec_block_demanded(self.bytes@, self.roots@, self.spec_spans()[cur as int]));
                    assert(spec_jumps(self.bytes@, at as int, t as int));
                }
                match self.target(t, cur, Ghost(begun)) {
                    Ok((id, cur2)) => {
                        now = cur2;
                        Command::Call(id)
                    },
                    Err(e) => {
                        proof {
                            assert(self.inv(cur as int));
                        }
                        return Err(e);
                    },
                }
            },
            Command::Msg(t) => {
                if t == at {
                    proof {
                        assert(self.inv(cur as int));
                    }
                    return Err(Error::InvalidHeader);
                }
                proof {
                    assert(spec_block_ok(self.bytes@, self.script@, self.spec_spans(), cur as int));
                    assert(self.script@[cur as int] is Code);
                    assert(spec_block_demanded(self.bytes@, self.roots@, self.spec_spans()[cur as int]));
                    assert(spec_msg_at(self.bytes@, at as int, t as int));
                }
                match self.data_target(t, cur, Ghost(begun)) {
                    Ok(id) => Command::Msg(id),
                    Err(e) => {
                        proof {
                            assert(self.inv(cur as int));
                        }
                        return Err(e);
                    },
                }
            },
        };
        proof {
            assert(spec_block_ok(self.bytes@, self.script@, self.spec_spans(), now as int));
            assert(spec_lower_command(command, spec_starts(self.spec_spans())) == raw);
            assert(forall|j: int|
                0 <= j < self.script@.len() && j != now ==> (#[trigger] self.spec_spans()[j]).start
                    != at);
            lemma_command_inv(
                self.bytes@,
                self.script@,
                self.spec_spans(),
                self.covered@,
                self.roots@,
                now as int,
                command,
                end,
            );
        }
        let ghost last = *self;
        self.push_command(now, command, at, end);
        proof {
            assert(self.spec_kept(&last));
            Self::lemma_kept_trans(old(self), &last, self);
        }
        Ok(Some(now))
    }

    /// Closes the block with index `cur` with the instruction `raw`, which
    /// the stream holds where the block ends. An instruction that jumps to
    /// its own offset starts a block of its own; the block is then closed
    /// in front of it.
    fn take_control(&mut self, cur: usize, raw: Terminator<Ip>, Ghost(begun): Ghost<bool>) -> (r:
        Result<(), Error>)
        requires
            old(self).spec_ready(cur as int, begun),
            !(raw is Fallthrough),
            spec_parse_op(
                old(self).bytes@,
                old(self).spec_spans()[cur as int].end as int,
            ) matches Ok((op, next)) && op == Op::Control(raw) && next <= u32::MAX,
        ensures
            final(self).spec_kept(old(self)),
            match r {
                Ok(()) => {
                    &&& final(self).inv(-1)
                    &&& final(self).spec_spans()[cur as int].closed
                    &&& final(self).covered@ == old(self).covered@.insert(
                        old(self).spec_spans()[cur as int].end as int,
                    ) || (begun && final(self).covered == old(self).covered)
                },
                Err(e) => final(self).spec_halted(e),
            },
    {
        let at = self.spans[cur].end;
        assert(self.spec_spans()[cur as int] == self.spans@[cur as int]@);
        let is_begun = self.spans[cur].addrs.len() > 0;
        let mut now = cur;
        let terminator: Terminator<BlockId> = match raw {
            Terminator::Fallthrough(_) => Terminator::End,
            Terminator::Return => Terminator::Return,
            Terminator::End => Terminator::End,
            Terminator::Jump(t) => {
                if is_begun && t == at {
                    proof {
                        assert(spec_block_ok(self.bytes@, self.script@, self.spec_spans(), cur as int));
                        assert(self.script@[cur as int] is Code);
                        assert(spec_block_demanded(
                            self.bytes@,
                            self.roots@,
                            self.spec_spans()[cur as int],
                        ));
                        assert(spec_jumps(self.bytes@, at as int, at as int));
                    }
                    self.split_here(cur);
                    return Ok(());
                }
                proof {
                    assert(spec_block_ok(self.bytes@, self.script@, self.spec_spans(), cur as int));
                    assert(self.script@[cur as int] is Code);
                    assert(spec_block_demanded(self.bytes@, self.roots@, self.spec_spans()[cur as int]));
                    assert(spec_jumps(self.bytes@, at as int, t as int));
                }
                match self.target(t, cur, Ghost(begun)) {
                    Ok((id, cur2)) => {
                        now = cur2;
                        Terminator::Jump(id)
                    },
                    Err(e) => {
                        proof {
                            assert(self.inv(cur as int));
                        }
                        return Err(e);
                    },
                }
            },
            Terminator::Branch { condition, if_true, if_false } => {
                if is_begun && (if_true == at || if_false == at) {
                    proof {
                        assert(spec_block_ok(self.bytes@, self.script@, self.spec_spans(), cur as int));
                        assert(self.script@[cur as int] is Code);
                        assert(spec_block_demanded(
                            self.bytes@,
                            self.roots@,
                            self.spec_spans()[cur as int],
                        ));
                        assert(spec_jumps(self.bytes@, at as int, at as int));
                    }
                    self.split_here(cur);
                    return Ok(());
                }
                proof {
                    assert(spec_block_ok(self.bytes@, self.script@, self.spec_spans(), cur as int));
                    assert(self.script@[cur as int] is Code);
                    assert(spec_block_demanded(self.bytes@, self.roots@, self.spec_spans()[cur as int]));
                    assert(spec_jumps(self.bytes@, at as int, if_true as int));
                    assert(spec_jumps(self.bytes@, at as int, if_false as int));
                }
                let yes = match self.target(if_true, cur, Ghost(begun)) {
                    Ok((id, cur2)) => {
                        now = cur2;
                        id
                    },
                    Err(e) => {
                        proof {
                            assert(self.inv(cur as int));
                        }
                        return Err(e);
                    },
                };
                let ghost mid = *self;
                let no = match self.target(if_false, now, Ghost(begun)) {
                    Ok((id, cur2)) => {
                        now = cur2;
                        id
                    },
                    Err(e) => {
                        proof {
                            assert(self.inv(now as int));
                        }
                        return Err(e);
                    },
                };
                proof {
                    Self::lemma_kept_trans(old(self), &mid, self);
                }
                Terminator::Branch { condition, if_true: yes, if_false: no }
            },
        };
        proof {
            assert(spec_lower_terminator(terminator, spec_starts(self.spec_spans())) == raw);
            assert(spec_block_ok(self.bytes@, self.script@, self.spec_spans(), now as int));
            assert(forall|j: int|
                0 <= j < self.script@.len() && j != now ==> (#[trigger] self.spec_spans()[j]).start
                    != at);
            lemma_close_inv(
                self.bytes@,
                self.script@,
                self.spec_spans(),
                self.covered@,
                self.roots@,
                now as int,
                terminator,
            );
        }
        let ghost last = *self;
        self.close(now, terminator);
        proof {
            assert(self.spec_kept(&last));
            Self::lemma_kept_trans(old(self), &last, self);
        }
        Ok(())
    }

    /// Reads the open block with index `k` to its end, and with it every
    /// block that is split off from it on the way.
    fn decode_block(&mut self, k: usize) -> (r: Result<(), Error>)
        requires
            old(self).inv(-1),
            k < old(self).script@.len(),
            !old(self).spec_spans()[k as int].closed,
        ensures
            final(self).spec_kept(old(self)),
            match r {
                Ok(()) => {
                    &&& final(self).inv(-1)
                    &&& final(self).spec_spans()[k as int].closed
                    &&& final(self).covered@.len() > old(self).covered@.len()
                },
                Err(e) => final(self).spec_halted(e),
            },
    {
        let bytes = self.bytes;
        let mut cur = k;
        let ghost old_covered = self.covered@;
        loop
            invariant
                bytes == self.bytes,
                self.spec_kept(old(self)),
                old_covered == old(self).covered@,
                k < old(self).script@.len(),
                self.inv(cur as int),
                cur < self.script@.len(),
                !self.spec_spans()[cur as int].closed,
                cur == k || self.spec_spans()[k as int].closed,
                self.covered@.len() >= old_covered.len(),
                self.spec_spans()[cur as int].addrs.len() > 0 ==> self.covered@.len()
                    > old_covered.len(),
            decreases bytes@.len() - self.covered@.len(),
        {
            let ghost begun = self.spec_spans()[cur as int].addrs.len() > 0;
            let ghost before = *self;
            proof {
                lemma_covered_bound(bytes@, self.covered@);
            }
            let approached = self.approach(cur);
            proof {
                Self::lemma_kept_trans(old(self), &before, self);
            }
            match approached {
                Ok(true) => {
                    return Ok(());
                },
                Ok(false) => {},
                Err(e) => {
                    return Err(e);
                },
            }
            let at = self.spans[cur].end;
            assert(self.spec_spans()[cur as int] == self.spans@[cur as int]@);
            let (op, end) = match read_op(bytes, at as usize) {
                Ok(read) => read,
                Err(e) => {
                    proof {
                        assert(self.inv(cur as int));
                    }
                    return Err(e);
                },
            };
            if end > 0xffff_ffff {
                proof {
                    assert(self.inv(cur as int));
                }
                return Err(Error::InvalidHeader);
            }
            proof {
                lemma_covered_bound(bytes@, self.covered@.insert(at as int));
            }
            match op {
                Op::Command(raw) => {
                    let ghost mid = *self;
                    let taken = self.take_command(cur, raw, end as u32, Ghost(begun));
                    proof {
                        Self::lemma_kept_trans(old(self), &mid, self);
                    }
                    match taken {
                        Ok(Some(cur2)) => {
                            cur = cur2;
                        },
                        Ok(None) => {
                            return Ok(());
                        },
                        Err(e) => {
                            return Err(e);
                        },
                    }
                },
                Op::Control(raw) => {
                    let ghost mid = *self;
                    let taken = self.take_control(cur, raw, Ghost(begun));
                    proof {
                        Self::lemma_kept_trans(old(self), &mid, self);
                    }
                    return taken;
                },
            }
        }
    }

    /// Whether this state and the block `id` are what decoding the event
    /// at `offset` made of the state `before`: every block is read to its
    /// end, the block is a code block that starts at `offset`, the blocks
    /// that were there are still there, and an event that was decoded
    /// before changed nothing.
    pub open spec fn spec_read(&self, before: &ScriptReader<'a>, offset: Ip, id: BlockId) -> bool {
        &&& self.wf()
        &&& self.spec_complete()
        &&& self.bytes == before.bytes
        &&& self.roots@ == before.roots@.insert(offset as int)
        &&& spec_extends(before.script@, before.spec_spans(), self.script@, self.spec_spans())
        &&& offset != 0
        &&& spec_is_code(self.script@, id)
        &&& self.spec_spans()[id.index as int].start == offset
        &&& (before.spec_complete() && exists|j: int|
            0 <= j < before.script@.len() && (#[trigger] before.spec_spans()[j]).start == offset)
            ==> self.script@ == before.script@ && self.spec_spans() == before.spec_spans()
    }

    /// Decoding the same offset twice gives the same block both times, and
    /// the second time no block is added or changed.
    pub proof fn lemma_read_twice(
        a: &ScriptReader<'a>,
        b: &ScriptReader<'a>,
        c: &ScriptReader<'a>,
        offset: Ip,
        first: BlockId,
        second: BlockId,
    )
        requires
            b.spec_read(a, offset, first),
            c.spec_read(b, offset, second),
        ensures
            first == second,
            c.script@ == b.script@,
            c.spec_spans() == b.spec_spans(),
    {
        assert(b.spec_spans()[first.index as int].start == offset);
        assert(c.script@ == b.script@ && c.spec_spans() == b.spec_spans());
        let spans = c.spec_spans();
        if first.index != second.index {
            if first.index < second.index {
                assert(spans[first.index as int].start != spans[second.index as int].start);
            } else {
                assert(spans[second.index as int].start != spans[first.index as int].start);
            }
        }
    }

    /// Decodes the event that starts at `offset` and returns its first
    /// block. Every block that the event leads to is read, unless it was
    /// read before; a jump into a block that was read before splits that
    /// block at the target.
    ///
    /// An event that was decoded before is not read again: its block is
    /// returned, and no block is added or changed.
    ///
    /// The offset `0` stands for "no event" and is refused as an invalid
    /// header. Any other offset is decoded unless something that it leads
    /// to is refused: an instruction that does not parse or a data block
    /// that is cut short, with the parser's error; or, as an invalid
    /// header, a collision of code and data, an instruction that ends
    /// beyond the 32-bit range, or two commands that end at the same
    /// offset, one of them starting inside the other. After an error the
    /// blocks are still what the stream holds, but the block at which
    /// reading stopped stays open, and the session cannot go on.
    pub fn read_event(&mut self, offset: Ip) -> (r: Result<BlockId, Error>)
        requires
            old(self).wf(),
        ensures
            final(self).bytes == old(self).bytes,
            final(self).roots@.subset_of(old(self).roots@.insert(offset as int)),
            offset == 0 ==> r == Err::<BlockId, Error>(Error::InvalidHeader),
            spec_extends(
                old(self).script@,
                old(self).spec_spans(),
                final(self).script@,
                final(self).spec_spans(),
            ),
            match r {
                Ok(id) => final(self).spec_read(old(self), offset, id),
                Err(e) => {
                    &&& if offset == 0 {
                        e == Error::InvalidHeader
                    } else {
                        Self::spec_refused(
                            old(self).bytes@,
                            old(self).roots@.insert(offset as int),
                            e,
                        )
                    }
                    &&& exists|current: int| #[trigger] final(self).inv(current)
                },
            },
    {
        if offset == 0 {
            assert(self.inv(-1));
            return Err(Error::InvalidHeader);
        }
        proof {
            lemma_inv_more_roots(
                self.bytes@,
                self.script@,
                self.spec_spans(),
                self.covered@,
                self.roots@,
                self.roots@.insert(offset as int),
                -1,
            );
            lemma_demanded_root(self.bytes@, self.roots@.insert(offset as int), offset as int);
            assert(spec_targeted(self.bytes@, self.roots@.insert(offset as int), offset as int));
        }
        self.roots = Ghost(self.roots@.insert(offset as int));
        let id = match self.resolve_code(offset, None) {
            Ok((id, _)) => id,
            Err(e) => {
                proof {
                    lemma_data_start_demanded(
                        self.bytes@,
                        self.script@,
                        self.spec_spans(),
                        self.covered@,
                        self.roots@,
                        -1,
                        offset,
                    );
                    assert(spec_demanded(self.bytes@, self.roots@, offset as int)
                        && spec_data_demanded(self.bytes@, self.roots@, offset as int));
                    assert(self.inv(-1));
                }
                return Err(e);
            },
        };
        let ghost known = old(self).spec_complete() && exists|j: int|
            0 <= j < old(self).script@.len() && (#[trigger] old(self).spec_spans()[j]).start
                == offset;
        while self.done < self.script.blocks.len()
            invariant
                offset != 0,
                self.inv(-1),
                self.bytes == old(self).bytes,
                self.roots@ == old(self).roots@.insert(offset as int),
                spec_extends(
                    old(self).script@,
                    old(self).spec_spans(),
                    self.script@,
                    self.spec_spans(),
                ),
                spec_is_code(self.script@, id),
                self.spec_spans()[id.index as int].start == offset,
                known ==> self.script@ == old(self).script@
                    && self.spec_spans() == old(self).spec_spans(),
                known ==> old(self).spec_complete(),
            decreases self.bytes@.len() - self.covered@.len(), self.script@.len() - self.done,
        {
            let i = self.done;
            proof {
                lemma_covered_bound(self.bytes@, self.covered@);
            }
            assert(self.spec_spans()[i as int] == self.spans@[i as int]@);
            if !self.spans[i].closed {
                let ghost before = *self;
                let decoded = self.decode_block(i);
                proof {
                    lemma_extends_trans(
                        old(self).script@,
                        old(self).spec_spans(),
                        before.script@,
                        before.spec_spans(),
                        self.script@,
                        self.spec_spans(),
                    );
                    assert(self.spec_spans()[id.index as int].start
                        == before.spec_spans()[id.index as int].start);
                }
                match decoded {
                    Ok(()) => {},
                    Err(e) => {
                        proof {
                            if e == Error::InvalidHeader {
                                self.lemma_halted_collides();
                            } else {
                                self.lemma_halted_fails(e);
                            }
                        }
                        return Err(e);
                    },
                }
                proof {
                    lemma_covered_bound(self.bytes@, self.covered@);
                }
            }
            self.done = i + 1;
            proof {
                assert forall|j: int| 0 <= j < self.done
                    implies (#[trigger] self.spec_spans()[j]).closed by {}
            }
        }
        proof {
            assert forall|r: int| #[trigger] self.roots@.contains(r) implies exists|i: int|
                0 <= i < self.script@.len() && (#[trigger] self.spec_spans()[i]).start == r
                    && self.script@[i] is Code by {
                if r == offset {
                    assert(self.spec_spans()[id.index as int].start == r);
                } else {
                    let i = choose|i: int|
                        0 <= i < old(self).script@.len() && (#[trigger] old(self).spec_spans()[i]).start
                            == r && old(self).script@[i] is Code;
                    assert(self.spec_spans()[i].start == r);
                }
            }
        }
        Ok(id)
    }

    /// Ends the session and hands over the script. A session in which a
    /// block was left open, because reading stopped with an error, has no
    /// script to give: it is a truncated stream.
    pub fn finish(self) -> (r: Result<Script, Error>)
        ensures
            match r {
                Ok(script) => script@ == self.script@ && self.spec_complete() && (self.wf()
                    ==> spec_consistent(script@)),
                Err(e) => e == Error::TruncatedStream && !self.spec_complete(),
            },
    {
        let n = self.spans.len();
        if self.script.blocks.len() != n {
            return Err(Error::TruncatedStream);
        }
        let mut i: usize = 0;
        while i < n
            invariant
                n == self.spans@.len(),
                n == self.script@.len(),
                i <= n,
                forall|j: int| 0 <= j < i ==> (#[trigger] self.spec_spans()[j]).closed,
            decreases n - i,
        {
            assert(self.spec_spans()[i as int] == self.spans@[i as int]@);
            if !self.spans[i].closed {
                return Err(Error::TruncatedStream);
            }
            i += 1;
        }
        proof {
            if self.wf() {
                lemma_inv_consistent(
                    self.bytes@,
                    self.script@,
                    self.spec_spans(),
                    self.covered@,
                    self.roots@,
                    -1,
                );
            }
        }
        Ok(self.script)
    }

    /// Looks for a block other than `cur` that falls through into the
    /// block that starts at `at`.
    fn falls_into(&self, at: Ip, cur: usize) -> (r: Option<usize>)
        requires
            self.script@.len() == self.spans@.len(),
        ensures
            match r {
                Some(p) => p < self.script@.len() && p != cur && spec_falls(
                    self.script@,
                    self.spec_spans(),
                    p as int,
                ) && self.spec_spans()[p as int].end == at,
                None => forall|p: int|
                    0 <= p < self.script@.len() && p != cur && #[trigger] spec_falls(
                        self.script@,
                        self.spec_spans(),
                        p,
                    ) ==> self.spec_spans()[p].end != at,
            },
    {
        let n = self.spans.len();
        let mut p: usize = 0;
        while p < n
            invariant
                n == self.spans@.len(),
                n == self.script@.len(),
                p <= n,
                forall|q: int|
                    0 <= q < p && q != cur && #[trigger] spec_falls(self.script@, self.spec_spans(), q)
                        ==> self.spec_spans()[q].end != at,
            decreases n - p,
        {
            assert(self.spec_spans()[p as int] == self.spans@[p as int]@);
            if p != cur && self.spans[p].closed && self.spans[p].end == at {
                let falls = match &self.script.blocks[p] {
                    Block::Code(code) => match &code.terminator {
                        Terminator::Fallthrough(_) => true,
                        _ => false,
                    },
                    Block::Data(_) => false,
                };
                if falls {
                    return Some(p);
                }
            }
            p += 1;
        }
        None
    }

    /// Searches the blocks for the offset `t`.
    fn find(&self, t: Ip) -> (r: Found)
        requires
            self.script@.len() == self.spans@.len(),
            forall|i: int| 0 <= i < self.script@.len()
                ==> #[trigger] spec_block_ok(self.bytes@, self.script@, self.spec_spans(), i),
        ensures
            match r {
                Found::Start(i) => i < self.script@.len() && self.spec_spans()[i as int].start == t,
                Found::Inside(i, k) => {
                    let span = self.spec_spans()[i as int];
                    &&& i < self.script@.len()
                    &&& self.script@[i as int] is Code
                    &&& forall|j: int|
                        0 <= j < self.script@.len() ==> (#[trigger] self.spec_spans()[j]).start != t
                    &&& 0 < k <= span.addrs.len()
                    &&& if k < span.addrs.len() {
                        span.addrs[k as int] == t
                    } else {
                        span.closed && !(self.script@[i as int]->terminator is Fallthrough)
                            && span.end == t
                    }
                },
                Found::Nowhere => {
                    &&& forall|j: int|
                        0 <= j < self.script@.len() ==> (#[trigger] self.spec_spans()[j]).start != t
                    &&& forall|j: int|
                        0 <= j < self.script@.len() ==> !#[trigger] spec_point_of(
                            self.script@,
                            self.spec_spans(),
                            j,
                            t as int,
                        )
                },
            },
    {
        let n = self.spans.len();
        let ghost s = self.script@;
        let ghost spans = self.spec_spans();
        let mut i: usize = 0;
        while i < n
            invariant
                n == self.spans@.len(),
                n == self.script@.len(),
                spans == self.spec_spans(),
                i <= n,
                forall|j: int| 0 <= j < i ==> (#[trigger] spans[j]).start != t,
            decreases n - i,
        {
            if self.spans[i].start == t {
                assert(spans[i as int] == self.spans@[i as int]@);
                return Found::Start(i);
            }
            assert(spans[i as int] == self.spans@[i as int]@);
            i += 1;
        }
        let mut i: usize = 0;
        while i < n
            invariant
                n == self.spans@.len(),
                n == s.len(),
                s == self.script@,
                spans == self.spec_spans(),
                forall|i: int| 0 <= i < s.len() ==> #[trigger] spec_block_ok(self.bytes@, s, spans, i),
                i <= n,
                forall|j: int| 0 <= j < n ==> (#[trigger] spans[j]).start != t,
                forall|j: int| 0 <= j < i ==> !#[trigger] spec_point_of(s, spans, j, t as int),
            decreases n - i,
        {
            let span = &self.spans[i];
            assert(spans[i as int] == span@);
            assert(spec_block_ok(self.bytes@, s, spans, i as int));
            match &self.script.blocks[i] {
                Block::Data(_) => {},
                Block::Code(code) => {
                    assert(s[i as int] == code@);
                    assert(spans[i as int].start != t);
                    // Every instruction of a block stands behind its start
                    // and not behind its end.
                    if t < span.start || t > span.end {
                        proof {
                            assert forall|m: int|
                                0 <= m < span.addrs@.len() implies #[trigger] span.addrs@[m] != t by {
                                if m > 0 {
                                    assert(span.addrs@[0] < span.addrs@[m]);
                                }
                            }
                        }
                        i += 1;
                        continue;
                    }
                    let mut k: usize = 0;
                    while k < span.addrs.len()
                        invariant
                            n == s.len(),
                            s == self.script@,
                            spans == self.spec_spans(),
                            i < n,
                            spans[i as int] == span@,
                            s[i as int] is Code,
                            forall|j: int| 0 <= j < n ==> (#[trigger] spans[j]).start != t,
                            span.addrs@.len() > 0 ==> span.addrs@[0] != t,
                            k <= span.addrs@.len(),
                            forall|m: int| 0 <= m < k ==> #[trigger] span.addrs@[m] != t,
                        decreases span.addrs@.len() - k,
                    {
                        if span.addrs[k] == t {
                            return Found::Inside(i, k);
                        }
                        k += 1;
                    }
                    let control = match &code.terminator {
                        Terminator::Fallthrough(_) => false,
                        _ => true,
                    };
                    if span.closed && control && span.end == t {
                        return Found::Inside(i, span.addrs.len());
                    }
                },
            }
            i += 1;
        }
        Found::Nowhere
    }
}

} // verus!
