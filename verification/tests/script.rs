use unplug::error::Error;
use unplug::event::analysis::{
    has_cycle, incoming_counts, is_consistent, reachable, unreachable_blocks, walk,
};
use unplug::event::block::{Block, BlockId, CodeBlock, DataBlock};
use unplug::event::command::{read_op, Command, Op, Terminator};
use unplug::event::expr::{
    arity, read_expr, read_set_expr, write_expr, write_set_expr, BinaryOp, Expr, SetExpr, UnaryOp,
};
use unplug::event::opcodes::{lookup, Opcode, Reference};
use unplug::event::reader::ScriptReader;
use unplug::event::script::Script;
use unplug::event::writer::ScriptWriter;

fn imm(n: i32) -> Expr {
    Expr::Imm(n)
}

fn var(n: i32) -> SetExpr {
    SetExpr::Variable(imm(n))
}

fn code(commands: Vec<Command<BlockId>>, terminator: Terminator<BlockId>) -> Block {
    Block::Code(CodeBlock { commands, terminator })
}

fn as_code(script: &Script, id: BlockId) -> &CodeBlock {
    match script.get(id) {
        Block::Code(code) => code,
        Block::Data(_) => panic!("expected a code block"),
    }
}

fn encode(script: &Script, entries: &[BlockId]) -> (Vec<u8>, Vec<u32>) {
    assert!(is_consistent(script));
    let mut writer = ScriptWriter::new(script, vec![0xee; 8]);
    let mut offsets = Vec::new();
    for &entry in entries {
        offsets.push(writer.write_subroutine(entry).unwrap());
    }
    (writer.finish(), offsets)
}

#[test]
fn opcode_table_lookup() {
    assert_eq!(lookup(0x01), Ok(Opcode::Return));
    assert_eq!(lookup(0x04), Ok(Opcode::Branch));
    assert_eq!(lookup(0x10), Ok(Opcode::Assign));
    assert_eq!(lookup(0x13), Ok(Opcode::Msg));
    assert_eq!(lookup(0x00), Err(Error::UnknownOpcode));
    assert_eq!(lookup(0xff), Err(Error::UnknownOpcode));
    for code in 0..=255u8 {
        if let Ok(op) = lookup(code) {
            assert_eq!(op.code(), code);
        }
    }
}

#[test]
fn opcode_shapes() {
    let shape = Opcode::Assign.shape();
    assert_eq!((shape.targets, shape.exprs, shape.jumps, shape.terminal), (1, 1, 0, false));
    let shape = Opcode::Branch.shape();
    assert_eq!((shape.targets, shape.exprs, shape.jumps, shape.terminal), (0, 1, 2, true));
    assert_eq!(Opcode::Msg.shape().reference, Reference::Data);
    assert_eq!(Opcode::Call.shape().reference, Reference::Code);
    assert_eq!(Opcode::Return.shape().reference, Reference::Nothing);
}

#[test]
fn expression_bytes() {
    let e = Expr::Binary(
        BinaryOp::Add,
        Box::new(Expr::Variable(Box::new(imm(3)))),
        Box::new(Expr::Unary(UnaryOp::Neg, Box::new(Expr::Function(7)))),
    );
    let mut out = Vec::new();
    write_expr(&e, &mut out);
    assert_eq!(out, vec![0x06, 0x22, 0x20, 0, 0, 0, 3, 0x11, 0x21, 7]);
    assert_eq!(read_expr(&out, 0), Ok((e, 10)));
}

#[test]
fn expression_literals_are_big_endian() {
    let mut out = Vec::new();
    write_expr(&imm(0x0102_0304), &mut out);
    assert_eq!(out, vec![0x20, 1, 2, 3, 4]);
    let mut out = Vec::new();
    write_expr(&imm(-2), &mut out);
    assert_eq!(out, vec![0x20, 0xff, 0xff, 0xff, 0xfe]);
}

#[test]
fn expression_round_trip() {
    let samples = vec![
        imm(0),
        imm(i32::MIN),
        Expr::Function(255),
        Expr::Flag(Box::new(imm(12))),
        Expr::Unary(UnaryOp::Not, Box::new(Expr::Flag(Box::new(imm(1))))),
        Expr::Binary(
            BinaryOp::BitXor,
            Box::new(Expr::Binary(BinaryOp::Equal, Box::new(imm(1)), Box::new(imm(2)))),
            Box::new(Expr::Binary(BinaryOp::Modulo, Box::new(imm(3)), Box::new(imm(4)))),
        ),
    ];
    for e in samples {
        let mut out = vec![0xaa, 0xbb];
        write_expr(&e, &mut out);
        let end = out.len();
        out.push(0xcc);
        assert_eq!(read_expr(&out, 2), Ok((e.clone(), end)));
    }
}

#[test]
fn invalid_expressions() {
    assert_eq!(read_expr(&[], 0), Err(Error::InvalidExpr));
    assert_eq!(read_expr(&[0x7f], 0), Err(Error::InvalidExpr));
    assert_eq!(read_expr(&[0x20, 0, 0, 0], 0), Err(Error::InvalidExpr));
    assert_eq!(read_expr(&[0x21], 0), Err(Error::InvalidExpr));
    assert_eq!(read_expr(&[0x06, 0x20, 0, 0, 0, 1], 0), Err(Error::InvalidExpr));
    assert_eq!(read_expr(&[0x10, 0x0e], 0), Err(Error::InvalidExpr));
    assert_eq!(read_set_expr(&[0x20, 0, 0, 0, 1], 0), Err(Error::InvalidExpr));
    assert_eq!(read_set_expr(&[0x23], 0), Err(Error::InvalidExpr));
}

#[test]
fn node_arity() {
    assert_eq!(arity(0x20), Some(0));
    assert_eq!(arity(0x21), Some(0));
    assert_eq!(arity(0x22), Some(1));
    assert_eq!(arity(0x10), Some(1));
    assert_eq!(arity(0x00), Some(2));
    assert_eq!(arity(0x0d), Some(2));
    assert_eq!(arity(0x0e), None);
    assert_eq!(arity(0xff), None);
}

#[test]
fn assignment_target_round_trip() {
    let target = SetExpr::Flag(Expr::Binary(BinaryOp::Add, Box::new(imm(1)), Box::new(imm(2))));
    let mut out = Vec::new();
    write_set_expr(&target, &mut out);
    assert_eq!(out[0], 0x23);
    assert_eq!(read_set_expr(&out, 0), Ok((target, out.len())));
}

#[test]
fn instruction_parsing() {
    let bytes = [0x03, 0x10, 0x00, 0x00, 0x00];
    assert_eq!(read_op(&bytes, 0), Ok((Op::Control(Terminator::Jump(0x10)), 5)));
    let bytes = [0x11, 0x20, 0, 0, 0, 9, 0x01];
    assert_eq!(read_op(&bytes, 0), Ok((Op::Command(Command::Wait(imm(9))), 6)));
    assert_eq!(read_op(&bytes, 6), Ok((Op::Control(Terminator::Return), 7)));
    assert_eq!(read_op(&bytes, 7), Err(Error::TruncatedStream));
    assert_eq!(read_op(&[0x55], 0), Err(Error::UnknownOpcode));
    assert_eq!(read_op(&[0x03, 1, 2], 0), Err(Error::TruncatedStream));
    assert_eq!(read_op(&[0x11, 0x99], 0), Err(Error::InvalidExpr));
    assert_eq!(read_op(&[0x04, 0x20, 0, 0, 0, 1, 1, 0, 0, 0, 2, 0, 0], 0), Err(Error::TruncatedStream));
}

#[test]
fn arena_basics() {
    let mut script = Script::new();
    assert_eq!(script.len(), 0);
    let a = script.allocate();
    let b = script.allocate();
    assert_ne!(a, b);
    assert_eq!(script.len(), 2);
    assert!(script.contains(a) && script.contains(b));
    assert!(!script.contains(BlockId { index: 2 }));
    assert_eq!(script.ids(), vec![a, b]);
    assert_eq!(*script.get(a), code(vec![], Terminator::End));
    *script.get_mut(a) = code(vec![Command::Wait(imm(1))], Terminator::Jump(b));
    assert_eq!(as_code(&script, a).terminator, Terminator::Jump(b));
    assert_eq!(*script.get(b), code(vec![], Terminator::End));
    script.replace(b, Block::Data(DataBlock { bytes: vec![1, 2, 3] }));
    assert!(!script.get(b).is_code());
    let c = script.insert(code(vec![], Terminator::Return));
    assert_eq!(c.index, 2);
}

#[test]
fn consistency_check() {
    let mut script = Script::new();
    let a = script.allocate();
    assert!(is_consistent(&script));
    script.replace(a, code(vec![], Terminator::Jump(BlockId { index: 5 })));
    assert!(!is_consistent(&script));
    script.replace(a, code(vec![Command::Msg(a)], Terminator::End));
    assert!(!is_consistent(&script));
    let d = script.insert(Block::Data(DataBlock { bytes: vec![] }));
    script.replace(a, code(vec![Command::Msg(d)], Terminator::End));
    assert!(is_consistent(&script));
    script.replace(a, code(vec![Command::Call(d)], Terminator::End));
    assert!(!is_consistent(&script));
    script.replace(a, code(vec![], Terminator::Fallthrough(d)));
    assert!(!is_consistent(&script));
}

#[test]
fn reachability_and_dead_code() {
    let mut script = Script::new();
    let a = script.allocate();
    let b = script.allocate();
    let c = script.allocate();
    let dead = script.allocate();
    let d = script.insert(Block::Data(DataBlock { bytes: vec![7] }));
    script.replace(a, code(vec![Command::Msg(d)], Terminator::Branch {
        condition: imm(1),
        if_true: b,
        if_false: c,
    }));
    script.replace(b, code(vec![], Terminator::Jump(a)));
    script.replace(c, code(vec![], Terminator::Return));
    script.replace(dead, code(vec![], Terminator::Jump(a)));
    assert_eq!(reachable(&script, &vec![a]), vec![true, true, true, false, true]);
    assert_eq!(reachable(&script, &vec![c]), vec![false, false, true, false, false]);
    assert_eq!(reachable(&script, &vec![]), vec![false; 5]);
    assert_eq!(unreachable_blocks(&script, &vec![a]), vec![dead]);
    assert_eq!(unreachable_blocks(&script, &vec![dead]), vec![]);
    assert_eq!(incoming_counts(&script), vec![2, 1, 1, 0, 1]);
}

#[test]
fn two_block_program_round_trip() {
    let mut script = Script::new();
    let one = script.allocate();
    let two = script.allocate();
    script.replace(one, code(vec![Command::Wait(imm(1))], Terminator::Jump(two)));
    script.replace(two, code(vec![Command::Assign(var(0), imm(5))], Terminator::Return));
    let (bytes, offsets) = encode(&script, &[one]);
    assert_eq!(offsets, vec![8]);

    let mut reader = ScriptReader::new(&bytes);
    let entry = reader.read_event(offsets[0]).unwrap();
    let decoded = reader.finish().unwrap();
    assert_eq!(decoded.len(), 2);
    let first = as_code(&decoded, entry);
    assert_eq!(first.commands, vec![Command::Wait(imm(1))]);
    let next = match first.terminator {
        Terminator::Jump(next) => next,
        _ => panic!("block 1 must end with a jump"),
    };
    assert_ne!(next, entry);
    let second = as_code(&decoded, next);
    assert_eq!(second.commands, vec![Command::Assign(var(0), imm(5))]);
    assert_eq!(second.terminator, Terminator::Return);
    assert!(is_consistent(&decoded));
    assert_eq!(unreachable_blocks(&decoded, &vec![entry]), vec![]);
}

#[test]
fn written_bytes_of_two_blocks() {
    let mut script = Script::new();
    let one = script.allocate();
    let two = script.allocate();
    script.replace(one, code(vec![Command::Wait(imm(1))], Terminator::Jump(two)));
    script.replace(two, code(vec![], Terminator::Return));
    let mut writer = ScriptWriter::new(&script, vec![0xee]);
    assert_eq!(writer.write_subroutine(one), Ok(1));
    assert_eq!(writer.offset_of(one), Some(1));
    assert_eq!(writer.offset_of(two), Some(12));
    assert_eq!(writer.position(), 13);
    let bytes = writer.finish();
    assert_eq!(bytes, vec![0xee, 0x11, 0x20, 0, 0, 0, 1, 0x03, 12, 0, 0, 0, 0x01]);
}

#[test]
fn decode_is_idempotent() {
    let mut script = Script::new();
    let one = script.allocate();
    let two = script.allocate();
    script.replace(one, code(vec![Command::Wait(imm(1))], Terminator::Jump(two)));
    script.replace(two, code(vec![], Terminator::Return));
    let (bytes, offsets) = encode(&script, &[one]);
    let mut reader = ScriptReader::new(&bytes);
    let first = reader.read_event(offsets[0]).unwrap();
    let count = reader.block_count();
    let second = reader.read_event(offsets[0]).unwrap();
    assert_eq!(first, second);
    assert_eq!(reader.block_count(), count);
}

#[test]
fn subroutines_are_written_once() {
    let mut script = Script::new();
    let one = script.allocate();
    script.replace(one, code(vec![Command::Wait(imm(1))], Terminator::Return));
    let mut single = ScriptWriter::new(&script, vec![0]);
    single.write_subroutine(one).unwrap();
    let single_len = single.finish().len();

    let mut writer = ScriptWriter::new(&script, vec![0]);
    let first = writer.write_subroutine(one).unwrap();
    let second = writer.write_subroutine(one).unwrap();
    assert_eq!(first, second);
    assert_eq!(writer.finish().len(), single_len);
}

#[test]
fn shared_blocks_are_written_once() {
    let mut script = Script::new();
    let a = script.allocate();
    let b = script.allocate();
    let shared = script.allocate();
    script.replace(a, code(vec![Command::Wait(imm(1))], Terminator::Jump(shared)));
    script.replace(b, code(vec![Command::Wait(imm(2))], Terminator::Jump(shared)));
    script.replace(shared, code(vec![], Terminator::End));
    let mut writer = ScriptWriter::new(&script, vec![0]);
    let first = writer.write_subroutine(a).unwrap();
    let at_shared = writer.offset_of(shared).unwrap();
    let before = writer.position();
    let second = writer.write_subroutine(b).unwrap();
    assert_ne!(first, second);
    assert_eq!(writer.offset_of(shared), Some(at_shared));
    // Only block b was added: a wait with one literal and a jump.
    assert_eq!(writer.position(), before + 6 + 5);
    assert_eq!(writer.write_subroutine(shared), Ok(at_shared));
}

#[test]
fn jump_into_a_block_splits_it() {
    // 8: wait 1; 14: wait 2; 20: wait 3; 26: return
    let mut bytes = vec![0xee; 8];
    for n in 1..=3u8 {
        bytes.extend_from_slice(&[0x11, 0x20, 0, 0, 0, n]);
    }
    bytes.push(0x01);

    let mut reader = ScriptReader::new(&bytes);
    let whole = reader.read_event(8).unwrap();
    assert_eq!(reader.block_count(), 1);
    let tail = reader.read_event(20).unwrap();
    assert_ne!(whole, tail);
    assert_eq!(reader.block_count(), 2);
    let split = reader.finish().unwrap();
    let head = as_code(&split, whole);
    assert_eq!(head.commands, vec![Command::Wait(imm(1)), Command::Wait(imm(2))]);
    assert_eq!(head.terminator, Terminator::Fallthrough(tail));
    let rest = as_code(&split, tail);
    assert_eq!(rest.commands, vec![Command::Wait(imm(3))]);
    assert_eq!(rest.terminator, Terminator::Return);

    // Decoding the inner offset alone gives the same block.
    let mut reader = ScriptReader::new(&bytes);
    let alone = reader.read_event(20).unwrap();
    let sole = reader.finish().unwrap();
    assert_eq!(as_code(&sole, alone).commands, rest.commands);
    assert_eq!(as_code(&sole, alone).terminator, Terminator::Return);

    // The other order gives the same shape.
    let mut reader = ScriptReader::new(&bytes);
    let tail = reader.read_event(20).unwrap();
    let whole = reader.read_event(8).unwrap();
    let other = reader.finish().unwrap();
    assert_eq!(as_code(&other, whole).commands, head.commands);
    assert_eq!(as_code(&other, whole).terminator, Terminator::Fallthrough(tail));
    assert_eq!(as_code(&other, tail).commands, rest.commands);
}

#[test]
fn jump_to_the_end_of_a_block_splits_off_its_terminator() {
    // 1: wait 1; 7: goto 1
    let bytes = vec![0xee, 0x11, 0x20, 0, 0, 0, 1, 0x03, 1, 0, 0, 0];
    let mut reader = ScriptReader::new(&bytes);
    let whole = reader.read_event(1).unwrap();
    let end = reader.read_event(7).unwrap();
    let script = reader.finish().unwrap();
    assert_eq!(as_code(&script, whole).commands, vec![Command::Wait(imm(1))]);
    assert_eq!(as_code(&script, whole).terminator, Terminator::Fallthrough(end));
    assert_eq!(as_code(&script, end).commands, vec![]);
    assert_eq!(as_code(&script, end).terminator, Terminator::Jump(whole));
}

#[test]
fn loop_into_the_block_being_read() {
    // 1: wait 1; 7: wait 2; 13: goto 7
    let bytes = vec![
        0xee, 0x11, 0x20, 0, 0, 0, 1, 0x11, 0x20, 0, 0, 0, 2, 0x03, 7, 0, 0, 0,
    ];
    let mut reader = ScriptReader::new(&bytes);
    let entry = reader.read_event(1).unwrap();
    let script = reader.finish().unwrap();
    assert_eq!(script.len(), 2);
    let head = as_code(&script, entry);
    assert_eq!(head.commands, vec![Command::Wait(imm(1))]);
    let body = match head.terminator {
        Terminator::Fallthrough(body) => body,
        _ => panic!("the head must fall through"),
    };
    assert_eq!(as_code(&script, body).commands, vec![Command::Wait(imm(2))]);
    assert_eq!(as_code(&script, body).terminator, Terminator::Jump(body));
}

#[test]
fn jump_to_itself_starts_a_block() {
    // 1: wait 1; 7: goto 7
    let bytes = vec![0xee, 0x11, 0x20, 0, 0, 0, 1, 0x03, 7, 0, 0, 0];
    let mut reader = ScriptReader::new(&bytes);
    let entry = reader.read_event(1).unwrap();
    let script = reader.finish().unwrap();
    assert_eq!(script.len(), 2);
    let spin = match as_code(&script, entry).terminator {
        Terminator::Fallthrough(spin) => spin,
        _ => panic!("the head must fall through"),
    };
    assert_eq!(as_code(&script, spin).commands, vec![]);
    assert_eq!(as_code(&script, spin).terminator, Terminator::Jump(spin));
}

#[test]
fn forward_branch_and_backward_jump() {
    let mut script = Script::new();
    let top = script.allocate();
    let body = script.allocate();
    let exit = script.allocate();
    script.replace(top, code(vec![Command::Wait(imm(1))], Terminator::Branch {
        condition: Expr::Flag(Box::new(imm(3))),
        if_true: body,
        if_false: exit,
    }));
    script.replace(body, code(vec![Command::Wait(imm(2))], Terminator::Jump(top)));
    script.replace(exit, code(vec![], Terminator::End));
    let mut writer = ScriptWriter::new(&script, vec![0xee; 4]);
    let start = writer.write_subroutine(top).unwrap();
    let at_body = writer.offset_of(body).unwrap();
    let at_exit = writer.offset_of(exit).unwrap();
    let bytes = writer.finish();
    assert_eq!(start, 4);

    // The operands in the stream are the offsets of the targets.
    let (op, end) = read_op(&bytes, 10).unwrap();
    assert_eq!(op, Op::Control(Terminator::Branch {
        condition: Expr::Flag(Box::new(imm(3))),
        if_true: at_body,
        if_false: at_exit,
    }));
    assert_eq!(end as u32, at_body);
    let (op, _) = read_op(&bytes, at_body as usize + 6).unwrap();
    assert_eq!(op, Op::Control(Terminator::Jump(start)));

    let mut reader = ScriptReader::new(&bytes);
    let entry = reader.read_event(start).unwrap();
    let decoded = reader.finish().unwrap();
    assert_eq!(decoded.len(), 3);
    let (yes, no) = match &as_code(&decoded, entry).terminator {
        Terminator::Branch { if_true, if_false, .. } => (*if_true, *if_false),
        _ => panic!("the entry must end with a branch"),
    };
    assert_eq!(as_code(&decoded, yes).commands, vec![Command::Wait(imm(2))]);
    assert_eq!(as_code(&decoded, yes).terminator, Terminator::Jump(entry));
    assert_eq!(as_code(&decoded, no).terminator, Terminator::End);
}

#[test]
fn calls_and_messages_round_trip() {
    let mut script = Script::new();
    let main = script.allocate();
    let sub = script.allocate();
    let text = script.insert(Block::Data(DataBlock { bytes: b"hello".to_vec() }));
    script.replace(main, code(vec![Command::Call(sub), Command::Msg(text)], Terminator::End));
    script.replace(sub, code(vec![Command::Msg(text)], Terminator::Return));
    let (bytes, offsets) = encode(&script, &[main]);

    let mut reader = ScriptReader::new(&bytes);
    let entry = reader.read_event(offsets[0]).unwrap();
    let decoded = reader.finish().unwrap();
    assert_eq!(decoded.len(), 3);
    let commands = &as_code(&decoded, entry).commands;
    let (called, shown) = match (&commands[0], &commands[1]) {
        (Command::Call(called), Command::Msg(shown)) => (*called, *shown),
        _ => panic!("expected a call and a message"),
    };
    assert_eq!(as_code(&decoded, called).commands, vec![Command::Msg(shown)]);
    assert_eq!(*decoded.get(shown), Block::Data(DataBlock { bytes: b"hello".to_vec() }));
}

#[test]
fn code_is_written_before_data() {
    let mut script = Script::new();
    let main = script.allocate();
    let text = script.insert(Block::Data(DataBlock { bytes: vec![1, 2, 3] }));
    let next = script.allocate();
    script.replace(main, code(vec![Command::Msg(text)], Terminator::Jump(next)));
    script.replace(next, code(vec![], Terminator::Return));
    let mut writer = ScriptWriter::new(&script, vec![0]);
    writer.write_subroutine(main).unwrap();
    let at_text = writer.offset_of(text).unwrap();
    let at_next = writer.offset_of(next).unwrap();
    assert!(at_next < at_text);
    let bytes = writer.finish();
    assert_eq!(&bytes[at_text as usize..], &[3, 0, 0, 0, 1, 2, 3]);
}

#[test]
fn fallthrough_is_inlined_for_a_single_predecessor() {
    let mut script = Script::new();
    let head = script.allocate();
    let tail = script.allocate();
    script.replace(head, code(vec![Command::Wait(imm(1))], Terminator::Fallthrough(tail)));
    script.replace(tail, code(vec![Command::Wait(imm(2))], Terminator::Return));
    let (bytes, offsets) = encode(&script, &[head]);
    // No jump between the two blocks.
    assert_eq!(bytes.len(), 8 + 6 + 6 + 1);

    let mut reader = ScriptReader::new(&bytes);
    let entry = reader.read_event(offsets[0]).unwrap();
    let decoded = reader.finish().unwrap();
    assert_eq!(decoded.len(), 1);
    assert_eq!(
        as_code(&decoded, entry).commands,
        vec![Command::Wait(imm(1)), Command::Wait(imm(2))]
    );
}

#[test]
fn fallthrough_to_a_shared_block_is_a_jump() {
    let mut script = Script::new();
    let head = script.allocate();
    let other = script.allocate();
    let tail = script.allocate();
    script.replace(head, code(vec![Command::Wait(imm(1))], Terminator::Fallthrough(tail)));
    script.replace(other, code(vec![], Terminator::Jump(tail)));
    script.replace(tail, code(vec![], Terminator::Return));
    assert_eq!(incoming_counts(&script), vec![0, 0, 2]);
    let mut writer = ScriptWriter::new(&script, vec![0]);
    let start = writer.write_subroutine(head).unwrap();
    let at_tail = writer.offset_of(tail).unwrap();
    let bytes = writer.finish();
    let (op, _) = read_op(&bytes, start as usize + 6).unwrap();
    assert_eq!(op, Op::Control(Terminator::Jump(at_tail)));
}

#[test]
fn offset_zero_is_refused() {
    let bytes = vec![0x01];
    let mut reader = ScriptReader::new(&bytes);
    assert_eq!(reader.read_event(0), Err(Error::InvalidHeader));
    assert_eq!(reader.block_count(), 0);

    let mut script = Script::new();
    let one = script.allocate();
    let mut writer = ScriptWriter::new(&script, Vec::new());
    assert_eq!(writer.write_subroutine(one), Err(Error::InvalidHeader));
    assert_eq!(writer.position(), 0);
}

#[test]
fn writing_a_data_block_as_an_event_is_refused() {
    let mut script = Script::new();
    let text = script.insert(Block::Data(DataBlock { bytes: vec![1] }));
    let mut writer = ScriptWriter::new(&script, vec![0]);
    assert_eq!(writer.write_subroutine(text), Err(Error::InvalidHeader));
}

#[test]
fn decode_errors() {
    // Unknown opcode.
    let bytes = vec![0xee, 0x77];
    let mut reader = ScriptReader::new(&bytes);
    assert_eq!(reader.read_event(1), Err(Error::UnknownOpcode));
    // The stream ends before the block does.
    let bytes = vec![0xee, 0x11, 0x20, 0, 0, 0, 1];
    let mut reader = ScriptReader::new(&bytes);
    assert_eq!(reader.read_event(1), Err(Error::TruncatedStream));
    assert_eq!(reader.finish(), Err(Error::TruncatedStream));
    // An operand that is no expression.
    let bytes = vec![0xee, 0x11, 0x99];
    let mut reader = ScriptReader::new(&bytes);
    assert_eq!(reader.read_event(1), Err(Error::InvalidExpr));
    // An offset behind the end.
    let bytes = vec![0xee];
    let mut reader = ScriptReader::new(&bytes);
    assert_eq!(reader.read_event(40), Err(Error::TruncatedStream));
    // A message whose data is cut short.
    let bytes = vec![0xee, 0x13, 7, 0, 0, 0, 0x01, 9, 0, 0, 0, 1];
    let mut reader = ScriptReader::new(&bytes);
    assert_eq!(reader.read_event(1), Err(Error::TruncatedStream));
    // A jump into a data block.
    let bytes = vec![0xee, 0x13, 11, 0, 0, 0, 0x03, 11, 0, 0, 0, 0, 0, 0, 0];
    let mut reader = ScriptReader::new(&bytes);
    assert_eq!(reader.read_event(1), Err(Error::InvalidHeader));
}

#[test]
fn error_messages() {
    assert_eq!(Error::InvalidHeader.message(), "invalid stage header");
    assert_eq!(Error::UnknownOpcode.message(), "unknown opcode");
    assert_eq!(Error::InvalidExpr.message(), "invalid expression");
    assert_eq!(Error::TruncatedStream.message(), "unexpected end of stream");
}

#[test]
fn loops_are_found() {
    let mut script = Script::new();
    let a = script.allocate();
    let b = script.allocate();
    let c = script.allocate();
    script.replace(a, code(vec![], Terminator::Jump(b)));
    script.replace(b, code(vec![], Terminator::Branch {
        condition: imm(1),
        if_true: c,
        if_false: a,
    }));
    script.replace(c, code(vec![], Terminator::Return));
    assert!(has_cycle(&script, &vec![a]));
    assert!(has_cycle(&script, &vec![b]));
    assert!(!has_cycle(&script, &vec![c]));
    assert!(!has_cycle(&script, &vec![]));
}

#[test]
fn straight_code_has_no_loop() {
    let mut script = Script::new();
    let a = script.allocate();
    let b = script.allocate();
    let c = script.allocate();
    let text = script.insert(Block::Data(DataBlock { bytes: vec![1] }));
    script.replace(a, code(vec![Command::Call(c), Command::Msg(text)], Terminator::Branch {
        condition: imm(1),
        if_true: b,
        if_false: c,
    }));
    script.replace(b, code(vec![Command::Msg(text)], Terminator::Fallthrough(c)));
    script.replace(c, code(vec![], Terminator::End));
    assert!(!has_cycle(&script, &vec![a, b, c]));
}

#[test]
fn a_loop_that_cannot_be_reached_does_not_count() {
    let mut script = Script::new();
    let a = script.allocate();
    let spin = script.allocate();
    script.replace(a, code(vec![], Terminator::End));
    script.replace(spin, code(vec![], Terminator::Jump(spin)));
    assert!(!has_cycle(&script, &vec![a]));
    assert!(has_cycle(&script, &vec![spin]));
}

#[test]
fn a_subroutine_that_calls_itself_is_a_loop() {
    let mut script = Script::new();
    let a = script.allocate();
    script.replace(a, code(vec![Command::Call(a)], Terminator::Return));
    assert!(has_cycle(&script, &vec![a]));
}

#[test]
fn blocks_are_discovered_depth_first() {
    let mut script = Script::new();
    let a = script.allocate();
    let b = script.allocate();
    let c = script.allocate();
    let d = script.allocate();
    let text = script.insert(Block::Data(DataBlock { bytes: vec![] }));
    script.replace(a, code(vec![Command::Msg(text)], Terminator::Branch {
        condition: imm(0),
        if_true: b,
        if_false: c,
    }));
    script.replace(b, code(vec![], Terminator::Jump(d)));
    script.replace(c, code(vec![], Terminator::Jump(d)));
    script.replace(d, code(vec![], Terminator::Return));
    let mut seen = vec![false; 5];
    let mut order = Vec::new();
    walk(&script, &mut seen, a.index, &mut order);
    assert_eq!(order, vec![a.index, b.index, d.index, c.index, text.index]);
    assert_eq!(seen, vec![true; 5]);
    // What was seen before is skipped.
    let mut seen = vec![false, true, false, false, false];
    let mut order = vec![9];
    walk(&script, &mut seen, a.index, &mut order);
    assert_eq!(order, vec![9, a.index, c.index, d.index, text.index]);
}

/// A small deterministic generator of pseudo-random numbers.
struct Lcg(u64);

impl Lcg {
    fn next(&mut self, bound: usize) -> usize {
        self.0 = self.0.wrapping_mul(6364136223846793005).wrapping_add(1442695040888963407);
        ((self.0 >> 33) as usize) % bound
    }
}

fn random_expr(rng: &mut Lcg, depth: usize) -> Expr {
    match if depth == 0 { rng.next(2) } else { rng.next(6) } {
        0 => Expr::Imm(rng.next(1 << 20) as i32 - (1 << 19)),
        1 => Expr::Function(rng.next(256) as u8),
        2 => Expr::Variable(Box::new(random_expr(rng, depth - 1))),
        3 => Expr::Flag(Box::new(random_expr(rng, depth - 1))),
        4 => Expr::Unary(
            if rng.next(2) == 0 { UnaryOp::Not } else { UnaryOp::Neg },
            Box::new(random_expr(rng, depth - 1)),
        ),
        _ => Expr::Binary(
            BinaryOp::from_tag(rng.next(14) as u8).unwrap(),
            Box::new(random_expr(rng, depth - 1)),
            Box::new(random_expr(rng, depth - 1)),
        ),
    }
}

fn random_script(rng: &mut Lcg, codes: usize, datas: usize) -> Script {
    let mut script = Script::new();
    for _ in 0..codes {
        script.allocate();
    }
    for i in 0..datas {
        script.insert(Block::Data(DataBlock { bytes: vec![i as u8; rng.next(5)] }));
    }
    for index in 0..codes {
        let mut commands = Vec::new();
        for _ in 0..rng.next(4) {
            commands.push(match rng.next(4) {
                0 => Command::Assign(
                    if rng.next(2) == 0 {
                        SetExpr::Variable(random_expr(rng, 2))
                    } else {
                        SetExpr::Flag(random_expr(rng, 2))
                    },
                    random_expr(rng, 3),
                ),
                1 => Command::Wait(random_expr(rng, 3)),
                2 => Command::Call(BlockId { index: rng.next(codes) }),
                _ => {
                    if datas > 0 {
                        Command::Msg(BlockId { index: codes + rng.next(datas) })
                    } else {
                        Command::Wait(Expr::Imm(0))
                    }
                },
            });
        }
        let terminator = match rng.next(4) {
            0 => Terminator::Jump(BlockId { index: rng.next(codes) }),
            1 => Terminator::Branch {
                condition: random_expr(rng, 2),
                if_true: BlockId { index: rng.next(codes) },
                if_false: BlockId { index: rng.next(codes) },
            },
            2 => Terminator::Return,
            _ => Terminator::End,
        };
        script.replace(BlockId { index }, code(commands, terminator));
    }
    script
}

/// Checks that the decoded block `read` is the written block `wrote`, and
/// with it everything that both lead to.
fn same_shape(
    written: &Script,
    wrote: BlockId,
    decoded: &Script,
    read: BlockId,
    pairs: &mut Vec<(BlockId, BlockId)>,
) {
    if let Some(&(_, known)) = pairs.iter().find(|(w, _)| *w == wrote) {
        assert_eq!(known, read);
        return;
    }
    assert!(pairs.iter().all(|(_, r)| *r != read));
    pairs.push((wrote, read));
    match (written.get(wrote), decoded.get(read)) {
        (Block::Data(a), Block::Data(b)) => assert_eq!(a, b),
        (Block::Code(a), Block::Code(b)) => {
            assert_eq!(a.commands.len(), b.commands.len());
            for (x, y) in a.commands.iter().zip(&b.commands) {
                match (x, y) {
                    (Command::Call(p), Command::Call(q)) => {
                        same_shape(written, *p, decoded, *q, pairs)
                    },
                    (Command::Msg(p), Command::Msg(q)) => {
                        same_shape(written, *p, decoded, *q, pairs)
                    },
                    _ => assert_eq!(x, y),
                }
            }
            match (&a.terminator, &b.terminator) {
                (Terminator::Jump(p), Terminator::Jump(q)) => {
                    same_shape(written, *p, decoded, *q, pairs)
                },
                (
                    Terminator::Branch { condition: c, if_true: p_then, if_false: p_else },
                    Terminator::Branch { condition: d, if_true: q_then, if_false: q_else },
                ) => {
                    assert_eq!(c, d);
                    same_shape(written, *p_then, decoded, *q_then, pairs);
                    same_shape(written, *p_else, decoded, *q_else, pairs);
                },
                (x, y) => assert_eq!(x, y),
            }
        },
        _ => panic!("a code block and a data block"),
    }
}

#[test]
fn random_graphs_round_trip() {
    let mut rng = Lcg(0x5eed);
    for round in 0..60 {
        let codes = 1 + rng.next(8);
        let datas = rng.next(3);
        let script = random_script(&mut rng, codes, datas);
        assert!(is_consistent(&script));
        let entries: Vec<BlockId> =
            (0..1 + rng.next(3)).map(|_| BlockId { index: rng.next(codes) }).collect();
        let (bytes, offsets) = encode(&script, &entries);

        let mut reader = ScriptReader::new(&bytes);
        let mut read = Vec::new();
        for &offset in &offsets {
            read.push(reader.read_event(offset).unwrap());
        }
        let decoded = reader.finish().unwrap();
        assert!(is_consistent(&decoded), "round {}", round);
        let mut pairs = Vec::new();
        for (&entry, &id) in entries.iter().zip(&read) {
            same_shape(&script, entry, &decoded, id, &mut pairs);
        }
        // Nothing but what the entries lead to was written or decoded.
        let live = reachable(&script, &entries);
        assert_eq!(pairs.len(), live.iter().filter(|&&b| b).count());
        assert_eq!(decoded.len(), pairs.len());
        assert_eq!(unreachable_blocks(&decoded, &read), vec![]);
        assert_eq!(has_cycle(&script, &entries), has_cycle(&decoded, &read));

        // Writing what was decoded gives the same stream.
        let (again, offsets_again) = encode(&decoded, &read);
        assert_eq!(offsets_again, offsets);
        assert_eq!(again, bytes);
    }
}

#[test]
fn decode_order_does_not_matter() {
    let mut rng = Lcg(7);
    for _ in 0..30 {
        let codes = 2 + rng.next(6);
        let script = random_script(&mut rng, codes, 1);
        let entries: Vec<BlockId> = (0..codes).map(|index| BlockId { index }).collect();
        let (bytes, offsets) = encode(&script, &entries);
        let mut forward = ScriptReader::new(&bytes);
        for &offset in &offsets {
            forward.read_event(offset).unwrap();
        }
        let mut backward = ScriptReader::new(&bytes);
        for &offset in offsets.iter().rev() {
            backward.read_event(offset).unwrap();
        }
        assert_eq!(forward.block_count(), backward.block_count());
        let forward_ids: Vec<BlockId> =
            offsets.iter().map(|&o| forward.read_event(o).unwrap()).collect();
        let backward_ids: Vec<BlockId> =
            offsets.iter().map(|&o| backward.read_event(o).unwrap()).collect();
        let first = forward.finish().unwrap();
        let second = backward.finish().unwrap();
        let mut pairs = Vec::new();
        for (&a, &b) in forward_ids.iter().zip(&backward_ids) {
            same_shape(&first, a, &second, b, &mut pairs);
        }
    }
}

#[test]
fn runs_that_meet_inside_a_command_are_refused() {
    // 1: wait with a literal, ends at 7; 7: return. The literal holds the
    // bytes of another wait, which starts at 3 and ends at 7 too.
    let bytes = vec![0xee, 0x11, 0x20, 0x11, 0x10, 0x21, 0x05, 0x01];
    let mut reader = ScriptReader::new(&bytes);
    assert!(reader.read_event(1).is_ok());
    assert_eq!(reader.read_event(3), Err(Error::InvalidHeader));
    // The other order is refused as well.
    let mut reader = ScriptReader::new(&bytes);
    assert!(reader.read_event(3).is_ok());
    assert_eq!(reader.read_event(1), Err(Error::InvalidHeader));
    // Each run alone is fine.
    let mut reader = ScriptReader::new(&bytes);
    let inner = reader.read_event(3).unwrap();
    let script = reader.finish().unwrap();
    assert_eq!(
        as_code(&script, inner).commands,
        vec![Command::Wait(Expr::Unary(UnaryOp::Not, Box::new(Expr::Function(5))))]
    );
}

#[test]
fn nothing_that_was_decoded_is_dead_code() {
    let mut script = Script::new();
    let a = script.allocate();
    let b = script.allocate();
    let c = script.allocate();
    let sub = script.allocate();
    let text = script.insert(Block::Data(DataBlock { bytes: vec![1, 2, 3] }));
    script.replace(a, code(vec![Command::Call(sub), Command::Msg(text)], Terminator::Branch {
        condition: imm(0),
        if_true: b,
        if_false: c,
    }));
    script.replace(b, code(vec![Command::Wait(imm(2))], Terminator::Jump(a)));
    script.replace(c, code(vec![], Terminator::End));
    script.replace(sub, code(vec![Command::Wait(imm(3))], Terminator::Return));
    let (bytes, offsets) = encode(&script, &[a, sub]);

    let mut reader = ScriptReader::new(&bytes);
    let first = reader.read_event(offsets[0]).unwrap();
    let second = reader.read_event(offsets[1]).unwrap();
    let decoded = reader.finish().unwrap();
    assert_eq!(decoded.len(), 5);
    assert_eq!(unreachable_blocks(&decoded, &vec![first, second]), vec![]);
    assert_eq!(unreachable_blocks(&decoded, &vec![first]), vec![]);
}

#[test]
fn written_blocks_stand_one_behind_the_other() {
    let mut script = Script::new();
    let a = script.allocate();
    let b = script.allocate();
    let text = script.insert(Block::Data(DataBlock { bytes: vec![9; 5] }));
    script.replace(a, code(vec![Command::Msg(text)], Terminator::Jump(b)));
    script.replace(b, code(vec![Command::Wait(imm(1))], Terminator::Return));
    let mut writer = ScriptWriter::new(&script, vec![0xee; 8]);
    assert_eq!(writer.write_subroutine(a), Ok(8));
    // A message and a jump, then a wait and a return, then the text.
    assert_eq!(writer.offset_of(a), Some(8));
    assert_eq!(writer.offset_of(b), Some(8 + 5 + 5));
    assert_eq!(writer.offset_of(text), Some(8 + 10 + 6 + 1));
    assert_eq!(writer.position(), 8 + 10 + 7 + 4 + 5);
    let bytes = writer.finish();

    let mut reader = ScriptReader::new(&bytes);
    let entry = reader.read_event(8).unwrap();
    let decoded = reader.finish().unwrap();
    assert_eq!(decoded.len(), 3);
    let first = as_code(&decoded, entry);
    let next = match first.terminator {
        Terminator::Jump(next) => next,
        _ => panic!("the first block must end with a jump"),
    };
    assert_eq!(as_code(&decoded, next).commands, vec![Command::Wait(imm(1))]);
    match first.commands[0] {
        Command::Msg(id) => assert_eq!(decoded.get(id), &Block::Data(DataBlock { bytes: vec![9; 5] })),
        _ => panic!("the first command must show the text"),
    }
}

#[test]
fn runs_that_meet_at_a_block_are_refused() {
    // At 1 a wait whose operand is a literal, at 3 a wait whose operand
    // starts inside that literal; both end at 7, where a block returns.
    let bytes = [0xee, 0x11, 0x20, 0x11, 0x10, 0x21, 0x05, 0x01];

    let mut reader = ScriptReader::new(&bytes);
    let end = reader.read_event(7).unwrap();
    let first = reader.read_event(1).unwrap();
    assert_eq!(as_code(&reader.script, first).terminator, Terminator::Fallthrough(end));
    assert_eq!(reader.read_event(3), Err(Error::InvalidHeader));

    let mut reader = ScriptReader::new(&bytes);
    let first = reader.read_event(1).unwrap();
    let end = reader.read_event(7).unwrap();
    assert_eq!(as_code(&reader.script, first).terminator, Terminator::Fallthrough(end));
    assert_eq!(as_code(&reader.script, end).terminator, Terminator::Return);
    assert_eq!(reader.read_event(3), Err(Error::InvalidHeader));

    let mut reader = ScriptReader::new(&bytes);
    let second = reader.read_event(3).unwrap();
    let end = reader.read_event(7).unwrap();
    assert_eq!(as_code(&reader.script, second).terminator, Terminator::Fallthrough(end));
    assert_eq!(reader.read_event(1), Err(Error::InvalidHeader));
}
