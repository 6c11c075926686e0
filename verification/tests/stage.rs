use unplug::common::{read_list, read_option_from, write_list, write_option_to, Record};
use unplug::error::Error;
use unplug::event::block::{Block, BlockId, CodeBlock, DataBlock};
use unplug::event::command::{Command, Terminator};
use unplug::event::expr::Expr;
use unplug::event::script::Script;
use unplug::stage::stage::{
    hook_from_raw, hook_to_raw, read_optional_list, read_tables, EventTable, Header,
    EXPECTED_OBJECTS_OFFSET, EXPECTED_SETTINGS_OFFSET, HEADER_SIZE, SETTINGS_SIZE,
};
use unplug::stage::{Actor, Object, Settings, Stage, Unk28, Unk2C};

fn settings() -> Settings {
    Settings {
        unk_00: -2,
        unk_04: 4,
        unk_05: 5,
        unk_06: -6,
        unk_08: 8,
        unk_09: 9,
        item_flags_base: 0x100,
        coin_flags_base: 0x200,
        dust_flags_base: 0x300,
        unk_10: 16,
        unk_12: -18,
    }
}

fn unk28(first: i32) -> Unk28 {
    Unk28 {
        unk_00: first,
        unk_04: 4,
        unk_08: 8,
        unk_0c: 12,
        unk_10: 16,
        unk_14: 20,
        unk_18: 24,
        unk_1c: 28,
        unk_20: 32,
        unk_24: 36,
        unk_28: 40,
        unk_2c: 44,
        unk_2e: -46,
        unk_30: 48,
    }
}

fn unk2c(first: i32) -> Unk2C {
    Unk2C {
        unk_00: first,
        unk_04: 4,
        unk_08: 8,
        unk_0c: 12,
        unk_10: 16,
        unk_14: 20,
        unk_18: 24,
        unk_1c: -28,
    }
}

fn object(id: i32, script: Option<BlockId>) -> Object {
    Object {
        id,
        x: 10,
        y: -20,
        z: 30,
        rotate_x: 1,
        rotate_y: 2,
        rotate_z: 3,
        scale_x: 100,
        scale_y: 100,
        scale_z: 100,
        data: 7,
        spawn_flag: 0,
        variant: 1,
        flags: 0x55,
        script,
    }
}

fn actor(id: i32) -> Actor {
    Actor { obj_index: 0, id, unk_08: 8, unk_0c: 12 }
}

fn header_bytes(fields: [u32; 13]) -> Vec<u8> {
    let mut bytes = Vec::new();
    for field in fields {
        bytes.extend_from_slice(&field.to_le_bytes());
    }
    bytes
}

fn code(commands: Vec<Command<BlockId>>, terminator: Terminator<BlockId>) -> Block {
    Block::Code(CodeBlock { commands, terminator })
}

#[test]
fn header_layout() {
    assert_eq!(HEADER_SIZE, 52);
    assert_eq!(SETTINGS_SIZE, 20);
    assert_eq!(EXPECTED_SETTINGS_OFFSET, 52);
    assert_eq!(EXPECTED_OBJECTS_OFFSET, 72);
    let bytes = header_bytes([52, 72, 300, 0, 400, 0, 0, 0, 500, 200, 0, 250, 0]);
    let header = Header::read_from(&bytes).unwrap();
    assert_eq!(header, Header {
        settings_offset: 52,
        objects_offset: 72,
        events_offset: 300,
        on_prologue: None,
        on_startup: Some(400),
        on_dead: None,
        on_pose: None,
        on_time_cycle: None,
        on_time_up: Some(500),
        actors_offset: 200,
        unk_28_offset: None,
        unk_2c_offset: Some(250),
        unk_30_offset: None,
    });
    let mut out = Vec::new();
    header.write_to(&mut out);
    assert_eq!(out, bytes);
}

#[test]
fn header_is_little_endian() {
    let mut header = Header::empty();
    header.events_offset = 0x0102_0304;
    let mut out = Vec::new();
    header.write_to(&mut out);
    assert_eq!(out.len(), 52);
    assert_eq!(&out[8..12], &[4, 3, 2, 1]);
    assert!(out[..8].iter().all(|&b| b == 0));
}

#[test]
fn header_with_wrong_offsets_is_invalid() {
    let bytes = header_bytes([51, 72, 0, 0, 0, 0, 0, 0, 0, 0, 0, 0, 0]);
    assert_eq!(Header::read_from(&bytes), Err(Error::InvalidHeader));
    let bytes = header_bytes([52, 73, 0, 0, 0, 0, 0, 0, 0, 0, 0, 0, 0]);
    assert_eq!(Header::read_from(&bytes), Err(Error::InvalidHeader));
    // The two offsets are looked at before the rest is read.
    assert_eq!(Header::read_from(&bytes[..8]), Err(Error::InvalidHeader));
}

#[test]
fn truncated_header() {
    let bytes = header_bytes([52, 72, 0, 0, 0, 0, 0, 0, 0, 0, 0, 0, 0]);
    assert_eq!(Header::read_from(&bytes[..7]), Err(Error::TruncatedStream));
    assert_eq!(Header::read_from(&bytes[..8]), Err(Error::TruncatedStream));
    assert_eq!(Header::read_from(&bytes[..51]), Err(Error::TruncatedStream));
    assert!(Header::read_from(&bytes).is_ok());
}

#[test]
fn hooks_use_zero_for_none() {
    assert_eq!(hook_from_raw(0), None);
    assert_eq!(hook_from_raw(7), Some(7));
    assert_eq!(hook_to_raw(None), 0);
    assert_eq!(hook_to_raw(Some(9)), 9);
}

#[test]
fn settings_bytes() {
    let mut out = vec![0xaa];
    settings().write_to(&mut out);
    assert_eq!(out, vec![
        0xaa, 0xff, 0xff, 0xff, 0xfe, 4, 5, 0xff, 0xfa, 8, 9, 0x01, 0x00, 0x02, 0x00, 0x03, 0x00,
        0x00, 0x10, 0xff, 0xee,
    ]);
    assert_eq!(Settings::read_from(&out, 1), Ok(settings()));
    assert_eq!(Settings::read_from(&out, 2), Err(Error::TruncatedStream));
    assert_eq!(Settings::read_from(&out, usize::MAX), Err(Error::TruncatedStream));
}

#[test]
fn event_table_bytes() {
    let table = EventTable { entry_points: vec![1, 0x0102_0304, 0] };
    let mut out = vec![0xaa];
    table.write_to(&mut out);
    assert_eq!(out, vec![
        0xaa, 1, 0, 0, 0, 4, 3, 2, 1, 0, 0, 0, 0, 0xff, 0xff, 0xff, 0xff,
    ]);
    assert_eq!(EventTable::read_from(&out, 1, 3), Ok(table));
    assert_eq!(EventTable::read_from(&out, 1, 0), Ok(EventTable { entry_points: vec![] }));
    // The closing `-1` is no entry: a table that is shorter than the
    // count is refused, and nothing behind the `-1` is taken for an entry.
    assert_eq!(EventTable::read_from(&out, 5, 3), Err(Error::InvalidHeader));
    assert_eq!(EventTable::read_from(&out, 5, 2), Ok(EventTable { entry_points: vec![0x0102_0304, 0] }));
    assert_eq!(EventTable::read_from(&out, 1, 5), Err(Error::TruncatedStream));
    assert_eq!(EventTable::read_from(&out, 100, 0), Err(Error::TruncatedStream));
    assert_eq!(EventTable::read_from(&out, 0, usize::MAX), Err(Error::TruncatedStream));
}

#[test]
fn record_sizes() {
    assert_eq!(Unk28::size(), 52);
    assert_eq!(Unk2C::size(), 32);
    assert_eq!(Object::size(), 56);
    assert_eq!(Actor::size(), 16);
}

#[test]
fn unk28_bytes() {
    let mut out = Vec::new();
    unk28(1).write_to(&mut out);
    assert_eq!(out.len(), 52);
    assert_eq!(&out[..8], &[0, 0, 0, 1, 0, 0, 0, 4]);
    assert_eq!(&out[44..], &[0, 44, 0xff, 0xd2, 0, 0, 0, 48]);
    assert_eq!(Unk28::read_from(&out, 0), unk28(1));
    assert_eq!(read_option_from::<Unk28>(&out, 0), Ok(Some(unk28(1))));
}

#[test]
fn unk2c_bytes() {
    let mut out = vec![0; 3];
    unk2c(-5).write_to(&mut out);
    assert_eq!(out.len(), 35);
    assert_eq!(&out[3..7], &[0xff, 0xff, 0xff, 0xfb]);
    assert_eq!(&out[31..], &[0xff, 0xff, 0xff, 0xe4]);
    assert_eq!(Unk2C::read_from(&out, 3), unk2c(-5));
}

#[test]
fn object_and_actor_bytes() {
    let mut out = Vec::new();
    object(3, Some(BlockId { index: 9 })).write_to(&mut out);
    assert_eq!(out.len(), 56);
    assert_eq!(&out[..12], &[0, 0, 0, 3, 0, 0, 0, 10, 0xff, 0xff, 0xff, 0xec]);
    // The event is not part of the record.
    assert_eq!(Object::read_from(&out, 0), object(3, None));
    let mut out = Vec::new();
    actor(2).write_to(&mut out);
    assert_eq!(out, vec![0, 0, 0, 0, 0, 0, 0, 2, 0, 0, 0, 8, 0, 0, 0, 12]);
    assert_eq!(Actor::read_from(&out, 0), actor(2));
}

#[test]
fn optional_records_use_the_sentinel() {
    let mut out = Vec::new();
    write_option_to::<Unk2C>(None, &mut out);
    assert_eq!(out, vec![0xff, 0xff, 0xff, 0xff]);
    assert_eq!(read_option_from::<Unk2C>(&out, 0), Ok(None));
    let record = unk2c(7);
    let mut out = Vec::new();
    write_option_to(Some(&record), &mut out);
    assert_eq!(read_option_from::<Unk2C>(&out, 0), Ok(Some(unk2c(7))));
    assert_eq!(read_option_from::<Unk2C>(&out[..31], 0), Err(Error::TruncatedStream));
    assert_eq!(read_option_from::<Unk2C>(&out[..3], 0), Err(Error::TruncatedStream));
    assert_eq!(read_option_from::<Unk2C>(&out, 40), Err(Error::TruncatedStream));
}

#[test]
fn list_ends_at_the_sentinel() {
    let items = vec![unk2c(1), unk2c(2), unk2c(3)];
    let mut out = vec![0xaa; 5];
    write_list(&items, &mut out);
    assert_eq!(out.len(), 5 + 3 * 32 + 4);
    assert_eq!(&out[out.len() - 4..], &[0xff; 4]);
    let end = out.len();
    // What stands behind the sentinel is not read.
    out.extend_from_slice(&[1, 2, 3]);
    assert_eq!(read_list::<Unk2C>(&out, 5), Ok((items, end)));
    assert_eq!(read_list::<Unk2C>(&out, 5 + 64), Ok((vec![unk2c(3)], end)));
    assert_eq!(read_list::<Unk2C>(&out, 5 + 96), Ok((vec![], end)));
}

#[test]
fn empty_list() {
    let mut out = Vec::new();
    write_list::<Unk28>(&vec![], &mut out);
    assert_eq!(out, vec![0xff; 4]);
    assert_eq!(read_list::<Unk28>(&out, 0), Ok((vec![], 4)));
}

#[test]
fn list_without_sentinel_is_truncated() {
    let items = vec![actor(1), actor(2)];
    let mut out = Vec::new();
    write_list(&items, &mut out);
    assert_eq!(read_list::<Actor>(&out[..out.len() - 1], 0), Err(Error::TruncatedStream));
    assert_eq!(read_list::<Actor>(&out[..20], 0), Err(Error::TruncatedStream));
    assert_eq!(read_list::<Actor>(&[], 0), Err(Error::TruncatedStream));
}

#[test]
fn optional_list() {
    let mut out = vec![0; 2];
    write_list(&vec![unk28(5)], &mut out);
    assert_eq!(read_optional_list::<Unk28>(&out, Some(2)), Ok(vec![unk28(5)]));
    assert_eq!(read_optional_list::<Unk28>(&out, None), Ok(vec![]));
    assert_eq!(read_optional_list::<Unk28>(&out, Some(100)), Err(Error::TruncatedStream));
}

fn sample_stage() -> Stage {
    let mut script = Script::new();
    let prologue = script.allocate();
    let shared = script.allocate();
    let talk = script.allocate();
    let text = script.insert(Block::Data(DataBlock { bytes: b"hi".to_vec() }));
    script.replace(prologue, code(vec![Command::Wait(Expr::Imm(1))], Terminator::Jump(shared)));
    script.replace(shared, code(vec![], Terminator::Return));
    script.replace(talk, code(vec![Command::Msg(text)], Terminator::Jump(shared)));
    Stage {
        objects: vec![object(1, None), object(2, Some(talk)), object(3, Some(talk))],
        actors: vec![actor(1)],
        script,
        on_prologue: Some(prologue),
        on_startup: None,
        on_dead: Some(shared),
        on_pose: None,
        on_time_cycle: None,
        on_time_up: None,
        settings: settings(),
        unk_28: vec![unk28(1), unk28(2)],
        unk_2c: vec![],
        unk_30: vec![unk28(3)],
    }
}

#[test]
fn stage_file_layout() {
    let stage = sample_stage();
    assert!(stage.is_valid());
    let mut out = Vec::new();
    stage.write_to(&mut out).unwrap();

    let header = Header::read_from(&out).unwrap();
    assert_eq!(header.settings_offset, 52);
    assert_eq!(header.objects_offset, 72);
    let events_at = 72 + 3 * 56 + 4;
    assert_eq!(header.events_offset, events_at);
    let actors_at = events_at + 3 * 4 + 4;
    assert_eq!(header.actors_offset, actors_at);
    let unk_28_at = actors_at + 16 + 4;
    assert_eq!(header.unk_28_offset, Some(unk_28_at));
    assert_eq!(header.unk_2c_offset, None);
    let unk_30_at = unk_28_at + 2 * 52 + 4;
    assert_eq!(header.unk_30_offset, Some(unk_30_at));
    let script_at = unk_30_at + 52 + 4;
    assert_eq!(header.on_prologue, Some(script_at));
    assert_eq!(header.on_startup, None);
    // The shared block was written with the prologue: a wait and a jump.
    assert_eq!(header.on_dead, Some(script_at + 6 + 5));
    assert_eq!(header.on_time_up, None);

    let tables = read_tables(&out).unwrap();
    assert_eq!(tables.settings, settings());
    assert_eq!(tables.objects, vec![object(1, None), object(2, None), object(3, None)]);
    assert_eq!(tables.events[0], 0);
    assert_ne!(tables.events[1], 0);
    // Both objects share one event, which was written once.
    assert_eq!(tables.events[1], tables.events[2]);
    assert_eq!(tables.actors, vec![actor(1)]);
    assert_eq!(tables.unk_28, stage.unk_28);
    assert_eq!(tables.unk_2c, vec![]);
    assert_eq!(tables.unk_30, stage.unk_30);
    assert_eq!(
        &out[events_at as usize + 12..events_at as usize + 16],
        &[0xff, 0xff, 0xff, 0xff]
    );
}

#[test]
fn stage_round_trip() {
    let stage = sample_stage();
    let mut out = Vec::new();
    stage.write_to(&mut out).unwrap();
    let read = Stage::read_from(&out).unwrap();
    assert!(read.is_valid());
    assert_eq!(read.settings, stage.settings);
    assert_eq!(read.actors, stage.actors);
    assert_eq!(read.unk_28, stage.unk_28);
    assert_eq!(read.unk_2c, stage.unk_2c);
    assert_eq!(read.unk_30, stage.unk_30);
    assert_eq!(read.objects.len(), 3);
    assert_eq!(read.objects[0], object(1, None));
    assert!(read.on_startup.is_none() && read.on_pose.is_none());
    assert!(read.on_time_cycle.is_none() && read.on_time_up.is_none());
    // The events that shared blocks still share them.
    let prologue = read.on_prologue.unwrap();
    let shared = read.on_dead.unwrap();
    let talk = read.objects[1].script.unwrap();
    assert_eq!(read.objects[2].script, Some(talk));
    assert_eq!(read.script.len(), 4);
    assert_eq!(
        *read.script.get(prologue),
        code(vec![Command::Wait(Expr::Imm(1))], Terminator::Jump(shared))
    );
    assert_eq!(*read.script.get(shared), code(vec![], Terminator::Return));
    let text = match read.script.get(talk) {
        Block::Code(block) => {
            assert_eq!(block.terminator, Terminator::Jump(shared));
            match &block.commands[..] {
                [Command::Msg(text)] => *text,
                _ => panic!("expected one message"),
            }
        },
        Block::Data(_) => panic!("expected code"),
    };
    assert_eq!(*read.script.get(text), Block::Data(DataBlock { bytes: b"hi".to_vec() }));

    // Writing what was read gives the same file.
    let mut again = Vec::new();
    read.write_to(&mut again).unwrap();
    assert_eq!(again, out);
}

#[test]
fn stage_without_events() {
    let stage = Stage {
        objects: vec![object(1, None)],
        actors: vec![],
        script: Script::new(),
        on_prologue: None,
        on_startup: None,
        on_dead: None,
        on_pose: None,
        on_time_cycle: None,
        on_time_up: None,
        settings: settings(),
        unk_28: vec![],
        unk_2c: vec![unk2c(9)],
        unk_30: vec![],
    };
    let mut out = Vec::new();
    stage.write_to(&mut out).unwrap();
    assert_eq!(out.len(), 52 + 20 + 56 + 4 + 4 + 4 + 4 + 32 + 4);
    let read = Stage::read_from(&out).unwrap();
    assert_eq!(read, stage);
}

#[test]
fn stage_errors() {
    let stage = sample_stage();
    let mut out = Vec::new();
    stage.write_to(&mut out).unwrap();
    assert_eq!(Stage::read_from(&out[..40]), Err(Error::TruncatedStream));
    assert_eq!(Stage::read_from(&out[..60]), Err(Error::TruncatedStream));
    assert_eq!(Stage::read_from(&out[..100]), Err(Error::TruncatedStream));
    assert_eq!(Stage::read_from(&out[..out.len() - 1]), Err(Error::TruncatedStream));
    let mut bad = out.clone();
    bad[0] = 51;
    assert_eq!(Stage::read_from(&bad), Err(Error::InvalidHeader));
    // An opcode that the table does not hold, where the prologue starts.
    let header = Header::read_from(&out).unwrap();
    let mut bad = out.clone();
    bad[header.on_prologue.unwrap() as usize] = 0x7f;
    assert_eq!(Stage::read_from(&bad), Err(Error::UnknownOpcode));
    // An operand that is no expression.
    let mut bad = out.clone();
    bad[header.on_prologue.unwrap() as usize + 1] = 0x7f;
    assert_eq!(Stage::read_from(&bad), Err(Error::InvalidExpr));
}

#[test]
fn stage_with_a_data_block_as_event_is_refused() {
    let mut stage = sample_stage();
    stage.on_pose = Some(BlockId { index: 3 });
    assert!(stage.is_valid());
    let mut out = Vec::new();
    assert_eq!(stage.write_to(&mut out), Err(Error::InvalidHeader));
}

#[test]
fn stage_validity() {
    let mut stage = sample_stage();
    stage.on_pose = Some(BlockId { index: 4 });
    assert!(!stage.is_valid());
    let mut stage = sample_stage();
    stage.objects[0].script = Some(BlockId { index: 99 });
    assert!(!stage.is_valid());
    let mut stage = sample_stage();
    stage.script.replace(BlockId { index: 1 }, code(vec![], Terminator::Jump(BlockId { index: 7 })));
    assert!(!stage.is_valid());
}

#[test]
fn event_table_shorter_than_the_count() {
    // Two entries, the closing -1, then more bytes.
    let mut bytes = Vec::new();
    EventTable { entry_points: vec![7, 9] }.write_to(&mut bytes);
    bytes.extend_from_slice(&[1, 0, 0, 0, 2, 0, 0, 0, 3, 0, 0, 0]);
    assert_eq!(EventTable::read_from(&bytes, 0, 2), Ok(EventTable { entry_points: vec![7, 9] }));
    assert_eq!(EventTable::read_from(&bytes, 0, 3), Err(Error::InvalidHeader));
    assert_eq!(EventTable::read_from(&bytes, 0, 5), Err(Error::InvalidHeader));
    assert_eq!(EventTable::read_from(&bytes, 0, 6), Err(Error::InvalidHeader));
    assert_eq!(EventTable::read_from(&bytes, 0, 7), Err(Error::TruncatedStream));
}

#[test]
fn stage_with_fewer_events_than_objects_is_refused() {
    let stage = sample_stage();
    let mut out = Vec::new();
    stage.write_to(&mut out).unwrap();
    let header = Header::read_from(&out).unwrap();
    // Put the closing -1 in the place of the last entry.
    let at = header.events_offset as usize + 8;
    out[at..at + 4].copy_from_slice(&[0xff; 4]);
    assert_eq!(Stage::read_from(&out), Err(Error::InvalidHeader));
}

#[test]
fn stage_file_ends_behind_the_last_block() {
    let stage = sample_stage();
    let mut out = Vec::new();
    stage.write_to(&mut out).unwrap();
    let header = Header::read_from(&out).unwrap();
    let script_at = header.on_prologue.unwrap() as usize;
    // The prologue with the shared block behind it, then the talk event
    // with its jump, then the text with its length.
    assert_eq!(out.len(), script_at + (6 + 5 + 1) + (5 + 5) + (4 + 2));
    let tables = read_tables(&out).unwrap();
    assert_eq!(tables.events[1] as usize, script_at + 12);
    assert_eq!(&out[out.len() - 6..], &[2, 0, 0, 0, b'h', b'i']);
}

#[test]
fn failed_write_leaves_the_tables_without_events() {
    let good = sample_stage();
    let mut written = Vec::new();
    good.write_to(&mut written).unwrap();
    let header = Header::read_from(&written).unwrap();
    let script_at = header.on_prologue.unwrap() as usize;
    let events_at = header.events_offset as usize;

    let mut stage = sample_stage();
    stage.on_pose = Some(BlockId { index: 3 });
    let mut out = Vec::new();
    assert_eq!(stage.write_to(&mut out), Err(Error::InvalidHeader));
    // The header holds only zeros, the event table no event.
    assert_eq!(&out[..52], &[0u8; 52][..]);
    assert_eq!(&out[events_at..events_at + 12], &[0u8; 12][..]);
    assert_eq!(&out[events_at + 12..events_at + 16], &[0xff, 0xff, 0xff, 0xff]);
    // Everything else of the tables is in its place.
    assert_eq!(&out[52..events_at], &written[52..events_at]);
    assert_eq!(&out[events_at + 16..script_at], &written[events_at + 16..script_at]);
    // The events in front of the one that failed were written.
    assert_eq!(out.len(), script_at + 12);
    assert_eq!(&out[script_at..], &written[script_at..script_at + 12]);
}

#[test]
fn first_event_that_fails_gives_the_error() {
    let stage = sample_stage();
    let mut out = Vec::new();
    stage.write_to(&mut out).unwrap();
    let header = Header::read_from(&out).unwrap();
    let tables = read_tables(&out).unwrap();
    let prologue = header.on_prologue.unwrap() as usize;
    let talk = tables.events[1] as usize;

    let mut late = out.clone();
    late[talk] = 0x7f;
    assert_eq!(Stage::read_from(&late), Err(Error::UnknownOpcode));

    let mut both = late.clone();
    both[prologue + 1] = 0x7f;
    assert_eq!(Stage::read_from(&both), Err(Error::InvalidExpr));

    let mut early = out.clone();
    early[prologue + 1] = 0x7f;
    assert_eq!(Stage::read_from(&early), Err(Error::InvalidExpr));
}

#[test]
fn reading_twice_gives_the_same_blocks() {
    let stage = sample_stage();
    let mut out = Vec::new();
    stage.write_to(&mut out).unwrap();
    let first = Stage::read_from(&out).unwrap();
    let second = Stage::read_from(&out).unwrap();
    assert_eq!(first.script.len(), second.script.len());
    assert_eq!(first, second);
    // What was read is written as the same file again.
    let mut again = Vec::new();
    first.write_to(&mut again).unwrap();
    assert_eq!(again, out);
}

#[test]
fn events_at_the_same_offset_share_their_block() {
    let mut stage = sample_stage();
    stage.on_startup = stage.on_prologue;
    stage.on_time_up = stage.on_dead;
    let mut out = Vec::new();
    stage.write_to(&mut out).unwrap();
    let header = Header::read_from(&out).unwrap();
    assert_eq!(header.on_startup, header.on_prologue);
    assert_eq!(header.on_time_up, header.on_dead);

    let mut plain = Vec::new();
    sample_stage().write_to(&mut plain).unwrap();
    assert_eq!(out.len(), plain.len());

    let read = Stage::read_from(&out).unwrap();
    assert_eq!(read.on_startup, read.on_prologue);
    assert_eq!(read.on_time_up, read.on_dead);
    assert_eq!(read.script.len(), Stage::read_from(&plain).unwrap().script.len());
}
