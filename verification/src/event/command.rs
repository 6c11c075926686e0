//! Commands and the ways a block can end, with their stored form.
//!
//! A command is stored as its opcode followed by what the opcode table says:
//! assignment targets, expressions, then offsets. Commands and terminators
//! are generic in what they point with: a byte offset ([`Ip`]) in the
//! stream, a [`BlockId`] in a script.

use crate::error::Error;
use crate::event::block::{BlockId, Ip};
use crate::event::expr::{
    lemma_parse_expr_advances, lemma_parse_written_expr, lemma_parse_written_set_expr, read_expr,
    read_set_expr, spec_expr_bytes, spec_parse_expr, spec_parse_set_expr, spec_set_expr_bytes,
    write_expr, write_set_expr, Expr, SetExpr,
};
use crate::event::opcodes::{
    lookup, spec_lookup, Opcode, OP_BRANCH, OP_CALL, OP_END, OP_GOTO, OP_MSG, OP_RETURN, OP_SET,
    OP_WAIT,
};
use crate::wire::{
    get_u32_le, get_u8, lemma_holds_split, lemma_read_held_u32_le, lemma_read_held_u8,
    put_u32_le, put_u8, spec_bytes_u32_le, spec_get_u32_le, spec_holds_at,
};
use vstd::prelude::*;

verus! {

/// A straight-line effect: it never transfers control out of its block.
#[derive(Debug, Clone, PartialEq, Eq)]
pub enum Command<P> {
    /// Assigns the value of the expression to the target.
    Assign(SetExpr, Expr),
    /// Waits for as many frames as the expression says.
    Wait(Expr),
    /// Runs the subroutine that starts with the code block and comes back.
    Call(P),
    /// Shows the message stored in the data block.
    Msg(P),
}

/// How control leaves a block.
#[derive(Debug, Clone, PartialEq, Eq)]
pub enum Terminator<P> {
    /// Control runs on into the block that stands right behind this one.
    Fallthrough(P),
    /// Control jumps to the block.
    Jump(P),
    /// Control jumps to `if_true` where the condition is not zero, to
    /// `if_false` where it is.
    Branch { condition: Expr, if_true: P, if_false: P },
    /// The subroutine hands control back to its caller.
    Return,
    /// The event ends.
    End,
}

/// One decoded instruction: a command, or what ends a block.
#[derive(Debug, Clone, PartialEq, Eq)]
pub enum Op<P> {
    Command(Command<P>),
    Control(Terminator<P>),
}

/// The bytes that a command is stored as.
pub open spec fn spec_command_bytes(c: Command<Ip>) -> Seq<u8> {
    match c {
        Command::Assign(target, value) => seq![OP_SET] + spec_set_expr_bytes(target)
            + spec_expr_bytes(value),
        Command::Wait(frames) => seq![OP_WAIT] + spec_expr_bytes(frames),
        Command::Call(ip) => seq![OP_CALL] + spec_bytes_u32_le(ip),
        Command::Msg(ip) => seq![OP_MSG] + spec_bytes_u32_le(ip),
    }
}

/// The bytes that the end of a block is stored as. Falling through takes no
/// bytes: the next block simply follows.
pub open spec fn spec_terminator_bytes(t: Terminator<Ip>) -> Seq<u8> {
    match t {
        Terminator::Fallthrough(_) => Seq::empty(),
        Terminator::Jump(ip) => seq![OP_GOTO] + spec_bytes_u32_le(ip),
        Terminator::Branch { condition, if_true, if_false } => seq![OP_BRANCH] + spec_expr_bytes(
            condition,
        ) + spec_bytes_u32_le(if_true) + spec_bytes_u32_le(if_false),
        Terminator::Return => seq![OP_RETURN],
        Terminator::End => seq![OP_END],
    }
}

/// The instruction that starts at `at` and the position behind it, or why
/// there is none: the stream ends before the opcode or inside an offset
/// (truncated stream), the opcode is not in the table (unknown opcode), or
/// an operand is no expression (invalid expression).
pub open spec fn spec_parse_op(b: Seq<u8>, at: int) -> Result<(Op<Ip>, int), Error> {
    if at < 0 || at >= b.len() {
        Err(Error::TruncatedStream)
    } else {
        match spec_lookup(b[at]) {
            None => Err(Error::UnknownOpcode),
            Some(Opcode::Return) => Ok((Op::Control(Terminator::Return), at + 1)),
            Some(Opcode::End) => Ok((Op::Control(Terminator::End), at + 1)),
            Some(Opcode::Goto) => match spec_get_u32_le(b, at + 1) {
                None => Err(Error::TruncatedStream),
                Some(ip) => Ok((Op::Control(Terminator::Jump(ip)), at + 5)),
            },
            Some(Opcode::Branch) => match spec_parse_expr(b, at + 1) {
                None => Err(Error::InvalidExpr),
                Some((condition, p)) => match (spec_get_u32_le(b, p), spec_get_u32_le(b, p + 4)) {
                    (Some(if_true), Some(if_false)) => Ok(
                        (Op::Control(Terminator::Branch { condition, if_true, if_false }), p + 8),
                    ),
                    _ => Err(Error::TruncatedStream),
                },
            },
            Some(Opcode::Assign) => match spec_parse_set_expr(b, at + 1) {
                None => Err(Error::InvalidExpr),
                Some((target, p)) => match spec_parse_expr(b, p) {
                    None => Err(Error::InvalidExpr),
                    Some((value, end)) => Ok((Op::Command(Command::Assign(target, value)), end)),
                },
            },
            Some(Opcode::Wait) => match spec_parse_expr(b, at + 1) {
                None => Err(Error::InvalidExpr),
                Some((frames, end)) => Ok((Op::Command(Command::Wait(frames)), end)),
            },
            Some(Opcode::Call) => match spec_get_u32_le(b, at + 1) {
                None => Err(Error::TruncatedStream),
                Some(ip) => Ok((Op::Command(Command::Call(ip)), at + 5)),
            },
            Some(Opcode::Msg) => match spec_get_u32_le(b, at + 1) {
                None => Err(Error::TruncatedStream),
                Some(ip) => Ok((Op::Command(Command::Msg(ip)), at + 5)),
            },
        }
    }
}

/// An instruction that parses ends behind its start and inside the stream.
pub proof fn lemma_parse_op_advances(b: Seq<u8>, at: int)
    ensures
        spec_parse_op(b, at) matches Ok((_, end)) ==> 0 <= at < end <= b.len(),
{
    if 0 <= at < b.len() {
        lemma_parse_expr_advances(b, at + 1);
        if let Some((_, p)) = spec_parse_expr(b, at + 1) {
            lemma_parse_expr_advances(b, p);
        }
        if b[at + 1] == crate::event::expr::TAG_VARIABLE || b[at + 1]
            == crate::event::expr::TAG_FLAG {
            lemma_parse_expr_advances(b, at + 2);
            if let Some((_, p)) = spec_parse_expr(b, at + 2) {
                lemma_parse_expr_advances(b, p);
            }
        }
    }
}

/// Where the bytes of a command stand at `at`, parsing there gives the
/// command back and ends right behind those bytes.
pub proof fn lemma_parse_written_command(b: Seq<u8>, at: int, c: Command<Ip>)
    requires
        spec_holds_at(b, at, spec_command_bytes(c)),
    ensures
        spec_parse_op(b, at) == Ok::<(Op<Ip>, int), Error>(
            (Op::Command(c), at + spec_command_bytes(c).len()),
        ),
{
    match c {
        Command::Assign(target, value) => {
            let head = seq![OP_SET] + spec_set_expr_bytes(target);
            lemma_holds_split(b, at, head, spec_expr_bytes(value));
            lemma_holds_split(b, at, seq![OP_SET], spec_set_expr_bytes(target));
            lemma_read_held_u8(b, at, OP_SET);
            lemma_parse_written_set_expr(b, at + 1, target);
            lemma_parse_written_expr(b, at + 1 + spec_set_expr_bytes(target).len(), value);
        },
        Command::Wait(frames) => {
            lemma_holds_split(b, at, seq![OP_WAIT], spec_expr_bytes(frames));
            lemma_read_held_u8(b, at, OP_WAIT);
            lemma_parse_written_expr(b, at + 1, frames);
        },
        Command::Call(ip) => {
            lemma_holds_split(b, at, seq![OP_CALL], spec_bytes_u32_le(ip));
            lemma_read_held_u8(b, at, OP_CALL);
            lemma_read_held_u32_le(b, at + 1, ip);
        },
        Command::Msg(ip) => {
            lemma_holds_split(b, at, seq![OP_MSG], spec_bytes_u32_le(ip));
            lemma_read_held_u8(b, at, OP_MSG);
            lemma_read_held_u32_le(b, at + 1, ip);
        },
    }
}

/// Where the bytes of a block's end stand at `at`, parsing there gives it
/// back and ends right behind those bytes. Falling through has no bytes and
/// is left out.
pub proof fn lemma_parse_written_terminator(b: Seq<u8>, at: int, t: Terminator<Ip>)
    requires
        !(t is Fallthrough),
        spec_holds_at(b, at, spec_terminator_bytes(t)),
    ensures
        spec_parse_op(b, at) == Ok::<(Op<Ip>, int), Error>(
            (Op::Control(t), at + spec_terminator_bytes(t).len()),
        ),
{
    match t {
        Terminator::Fallthrough(_) => {},
        Terminator::Jump(ip) => {
            lemma_holds_split(b, at, seq![OP_GOTO], spec_bytes_u32_le(ip));
            lemma_read_held_u8(b, at, OP_GOTO);
            lemma_read_held_u32_le(b, at + 1, ip);
        },
        Terminator::Branch { condition, if_true, if_false } => {
            let head2 = seq![OP_BRANCH] + spec_expr_bytes(condition) + spec_bytes_u32_le(if_true);
            let head1 = seq![OP_BRANCH] + spec_expr_bytes(condition);
            lemma_holds_split(b, at, head2, spec_bytes_u32_le(if_false));
            lemma_holds_split(b, at, head1, spec_bytes_u32_le(if_true));
            lemma_holds_split(b, at, seq![OP_BRANCH], spec_expr_bytes(condition));
            lemma_read_held_u8(b, at, OP_BRANCH);
            lemma_parse_written_expr(b, at + 1, condition);
            let p = at + 1 + spec_expr_bytes(condition).len();
            lemma_read_held_u32_le(b, p, if_true);
            lemma_read_held_u32_le(b, p + 4, if_false);
        },
        Terminator::Return => {
            lemma_read_held_u8(b, at, OP_RETURN);
        },
        Terminator::End => {
            lemma_read_held_u8(b, at, OP_END);
        },
    }
}

/// Reads the instruction that starts at `at`. Returns it with the position
/// behind it.
pub fn read_op(bytes: &[u8], at: usize) -> (r: Result<(Op<Ip>, usize), Error>)
    ensures
        match r {
            Ok((op, end)) => spec_parse_op(bytes@, at as int) == Ok::<(Op<Ip>, int), Error>(
                (op, end as int),
            ) && at < end <= bytes@.len(),
            Err(e) => spec_parse_op(bytes@, at as int) == Err::<(Op<Ip>, int), Error>(e),
        },
{
    proof {
        lemma_parse_op_advances(bytes@, at as int);
    }
    let code = match get_u8(bytes, at) {
        Some(code) => code,
        None => {
            return Err(Error::TruncatedStream);
        },
    };
    let opcode = match lookup(code) {
        Ok(opcode) => opcode,
        Err(e) => {
            return Err(e);
        },
    };
    match opcode {
        Opcode::Return => Ok((Op::Control(Terminator::Return), at + 1)),
        Opcode::End => Ok((Op::Control(Terminator::End), at + 1)),
        Opcode::Goto => match get_u32_le(bytes, at + 1) {
            None => Err(Error::TruncatedStream),
            Some(ip) => Ok((Op::Control(Terminator::Jump(ip)), at + 5)),
        },
        Opcode::Branch => match read_expr(bytes, at + 1) {
            Err(e) => Err(e),
            Ok((condition, p)) => {
                if bytes.len() - p < 8 {
                    return Err(Error::TruncatedStream);
                }
                match (get_u32_le(bytes, p), get_u32_le(bytes, p + 4)) {
                    (Some(if_true), Some(if_false)) => Ok(
                        (Op::Control(Terminator::Branch { condition, if_true, if_false }), p + 8),
                    ),
                    _ => Err(Error::TruncatedStream),
                }
            },
        },
        Opcode::Assign => match read_set_expr(bytes, at + 1) {
            Err(e) => Err(e),
            Ok((target, p)) => match read_expr(bytes, p) {
                Err(e) => Err(e),
                Ok((value, end)) => Ok((Op::Command(Command::Assign(target, value)), end)),
            },
        },
        Opcode::Wait => match read_expr(bytes, at + 1) {
            Err(e) => Err(e),
            Ok((frames, end)) => Ok((Op::Command(Command::Wait(frames)), end)),
        },
        Opcode::Call => match get_u32_le(bytes, at + 1) {
            None => Err(Error::TruncatedStream),
            Some(ip) => Ok((Op::Command(Command::Call(ip)), at + 5)),
        },
        Opcode::Msg => match get_u32_le(bytes, at + 1) {
            None => Err(Error::TruncatedStream),
            Some(ip) => Ok((Op::Command(Command::Msg(ip)), at + 5)),
        },
    }
}

/// The stream offset that a block identifier stands for where the block
/// with index `i` is stored at `offsets[i]`.
pub open spec fn spec_offset_of(id: BlockId, offsets: Seq<Ip>) -> Ip {
    offsets[id.index as int]
}

/// The command with each block identifier replaced by the block's offset.
pub open spec fn spec_lower_command(c: Command<BlockId>, offsets: Seq<Ip>) -> Command<Ip> {
    match c {
        Command::Assign(target, value) => Command::Assign(target, value),
        Command::Wait(frames) => Command::Wait(frames),
        Command::Call(id) => Command::Call(spec_offset_of(id, offsets)),
        Command::Msg(id) => Command::Msg(spec_offset_of(id, offsets)),
    }
}

/// The terminator with each block identifier replaced by the block's offset.
pub open spec fn spec_lower_terminator(t: Terminator<BlockId>, offsets: Seq<Ip>) -> Terminator<
    Ip,
> {
    match t {
        Terminator::Fallthrough(id) => Terminator::Fallthrough(spec_offset_of(id, offsets)),
        Terminator::Jump(id) => Terminator::Jump(spec_offset_of(id, offsets)),
        Terminator::Branch { condition, if_true, if_false } => Terminator::Branch {
            condition,
            if_true: spec_offset_of(if_true, offsets),
            if_false: spec_offset_of(if_false, offsets),
        },
        Terminator::Return => Terminator::Return,
        Terminator::End => Terminator::End,
    }
}

/// The blocks that a command refers to.
pub open spec fn spec_command_refs(c: Command<BlockId>) -> Seq<BlockId> {
    match c {
        Command::Assign(_, _) => Seq::empty(),
        Command::Wait(_) => Seq::empty(),
        Command::Call(id) => seq![id],
        Command::Msg(id) => seq![id],
    }
}

/// The blocks that control can pass to from a terminator, in order.
pub open spec fn spec_successors(t: Terminator<BlockId>) -> Seq<BlockId> {
    match t {
        Terminator::Fallthrough(id) => seq![id],
        Terminator::Jump(id) => seq![id],
        Terminator::Branch { condition, if_true, if_false } => seq![if_true, if_false],
        Terminator::Return => Seq::empty(),
        Terminator::End => Seq::empty(),
    }
}

/// Appends the bytes of a command to `out`, each block it refers to written
/// as the offset that `offsets` holds for it.
pub fn write_command(c: &Command<BlockId>, offsets: &Vec<Ip>, out: &mut Vec<u8>)
    requires
        forall|i: int|
            0 <= i < spec_command_refs(*c).len() ==> (#[trigger] spec_command_refs(*c)[i]).index
                < offsets@.len(),
    ensures
        final(out)@ == old(out)@ + spec_command_bytes(spec_lower_command(*c, offsets@)),
{
    match c {
        Command::Assign(target, value) => {
            put_u8(out, OP_SET);
            write_set_expr(target, out);
            write_expr(value, out);
        },
        Command::Wait(frames) => {
            put_u8(out, OP_WAIT);
            write_expr(frames, out);
        },
        Command::Call(id) => {
            assert(spec_command_refs(*c)[0] == *id);
            put_u8(out, OP_CALL);
            put_u32_le(out, offsets[id.index]);
        },
        Command::Msg(id) => {
            assert(spec_command_refs(*c)[0] == *id);
            put_u8(out, OP_MSG);
            put_u32_le(out, offsets[id.index]);
        },
    }
    assert(out@ =~= old(out)@ + spec_command_bytes(spec_lower_command(*c, offsets@)));
}

/// Appends the bytes of a block's end to `out`, each block it names written
/// as the offset that `offsets` holds for it. Falling through writes nothing.
pub fn write_terminator(t: &Terminator<BlockId>, offsets: &Vec<Ip>, out: &mut Vec<u8>)
    requires
        forall|i: int|
            0 <= i < spec_successors(*t).len() ==> (#[trigger] spec_successors(*t)[i]).index
                < offsets@.len(),
    ensures
        final(out)@ == old(out)@ + spec_terminator_bytes(spec_lower_terminator(*t, offsets@)),
{
    match t {
        Terminator::Fallthrough(_) => {},
        Terminator::Jump(id) => {
            assert(spec_successors(*t)[0] == *id);
            put_u8(out, OP_GOTO);
            put_u32_le(out, offsets[id.index]);
        },
        Terminator::Branch { condition, if_true, if_false } => {
            assert(spec_successors(*t)[0] == *if_true);
            assert(spec_successors(*t)[1] == *if_false);
            put_u8(out, OP_BRANCH);
            write_expr(condition, out);
            put_u32_le(out, offsets[if_true.index]);
            put_u32_le(out, offsets[if_false.index]);
        },
        Terminator::Return => {
            put_u8(out, OP_RETURN);
        },
        Terminator::End => {
            put_u8(out, OP_END);
        },
    }
    assert(out@ =~= old(out)@ + spec_terminator_bytes(spec_lower_terminator(*t, offsets@)));
}

/// The commands that stand in the stream from `at` on, one behind the
/// other, up to the first instruction that is no command.
pub open spec fn spec_run(b: Seq<u8>, at: int) -> Seq<Command<Ip>>
    decreases b.len() - at,
{
    match spec_parse_op(b, at) {
        Ok((Op::Command(c), next)) => if at < next <= b.len() {
            seq![c] + spec_run(b, next)
        } else {
            Seq::empty()
        },
        _ => Seq::empty(),
    }
}

/// The offset behind the commands that stand in the stream from `at` on:
/// where the first instruction stands that is no command.
pub open spec fn spec_run_end(b: Seq<u8>, at: int) -> int
    decreases b.len() - at,
{
    match spec_parse_op(b, at) {
        Ok((Op::Command(c), next)) => if at < next <= b.len() {
            spec_run_end(b, next)
        } else {
            at
        },
        _ => at,
    }
}

/// The commands with each block identifier replaced by the block's offset.
pub open spec fn spec_lower_commands(commands: Seq<Command<BlockId>>, offsets: Seq<Ip>) -> Seq<
    Command<Ip>,
> {
    Seq::new(commands.len(), |k: int| spec_lower_command(commands[k], offsets))
}

} // verus!
