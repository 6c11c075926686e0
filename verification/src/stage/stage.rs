//! The stage header, the settings and the tables of a stage file.

use crate::common::{
    lemma_list_written, read_list, spec_list_bytes, spec_read_list, spec_stored_items,
    write_list, Record, NONE_SENTINEL,
};
use crate::error::Error;
use crate::event::block::{BlockId, BlockView};
use crate::event::laws::{
    lemma_code_round_trip, lemma_data_round_trip, lemma_round_trip, lemma_written_accepted,
    spec_encoded, spec_no_falls,
};
use crate::event::reader::{
    lemma_blocks_fixed, lemma_complete_apart, lemma_complete_decodes, lemma_count_fixed,
    lemma_inv_more_roots, lemma_refused_more, spec_demanded, spec_fails_at, spec_flat,
    spec_flat_end, spec_inv, spec_settled, spec_starts, ScriptReader, SpanView,
};
use crate::event::analysis::{is_consistent, spec_clip, spec_discovery, spec_incoming};
use crate::event::script::{spec_consistent, spec_is_code, Script};
use crate::event::command::{spec_lower_commands, spec_lower_terminator};
use crate::event::writer::{
    lemma_place_inside, lemma_written_behind_patch, spec_block_written, spec_flat_written,
    spec_flat_written_end, spec_layout_len, spec_overflows, spec_planned, spec_position,
    spec_refs_written, spec_script_size, spec_stored_apart, spec_stream_written,
    spec_written_mask, ScriptWriter,
};
use crate::stage::actor::Actor;
use crate::stage::object::Object;
use crate::wire::{
    get_u32_le, i16_be_at, i32_be_at, le_read_u32_into, le_write_u32_into, lemma_append_assoc,
    lemma_bytes_len, lemma_holds_split, lemma_read_held_i16_be, lemma_read_held_i32_be,
    lemma_read_held_u32_le, lemma_read_held_u8, lemma_read_held_words, patch, put_bytes,
    put_i16_be, put_i32_be, put_i32_le, put_u32_le, put_u8, spec_bytes_i16_be,
    spec_bytes_i32_be, spec_bytes_i32_le, spec_bytes_u32_le, spec_holds_at, spec_i16_be,
    spec_i32_be, spec_patched, spec_pattern16, spec_pattern32, spec_u32_le, spec_words_le,
    u32_le_at,
};
use vstd::prelude::*;
use vstd::slice::slice_subrange;

verus! {

/// The number of bytes of the header.
pub const HEADER_SIZE: u32 = 52;

/// The number of bytes of the settings.
pub const SETTINGS_SIZE: u32 = 20;

/// Where the settings stand in every stage file. Scripts refer to this
/// offset directly, so no other is accepted.
pub const EXPECTED_SETTINGS_OFFSET: u32 = 52;

/// Where the object table stands in every stage file. Scripts refer to this
/// offset directly, so no other is accepted.
pub const EXPECTED_OBJECTS_OFFSET: u32 = 72;

/// The optional offset that a stored header field stands for: `0` means
/// that nothing is there.
pub open spec fn spec_hook(raw: u32) -> Option<u32> {
    if raw == 0 {
        None
    } else {
        Some(raw)
    }
}

/// The header field that an optional offset is stored as.
pub open spec fn spec_hook_raw(hook: Option<u32>) -> u32 {
    match hook {
        Some(offset) => offset,
        None => 0,
    }
}

/// Turns a stored header field into an optional offset.
pub fn hook_from_raw(raw: u32) -> (hook: Option<u32>)
    ensures
        hook == spec_hook(raw),
        hook.is_none() <==> raw == 0,
{
    if raw == 0 {
        None
    } else {
        Some(raw)
    }
}

/// Turns an optional offset into the header field that stores it.
pub fn hook_to_raw(hook: Option<u32>) -> (raw: u32)
    ensures
        raw == spec_hook_raw(hook),
{
    match hook {
        Some(offset) => offset,
        None => 0,
    }
}

/// The header of a stage file: where each part of the file stands.
#[derive(Debug, Clone, PartialEq, Eq)]
pub struct Header {
    pub settings_offset: u32,
    pub objects_offset: u32,
    pub events_offset: u32,
    pub on_prologue: Option<u32>,
    pub on_startup: Option<u32>,
    pub on_dead: Option<u32>,
    pub on_pose: Option<u32>,
    pub on_time_cycle: Option<u32>,
    pub on_time_up: Option<u32>,
    pub actors_offset: u32,
    pub unk_28_offset: Option<u32>,
    pub unk_2c_offset: Option<u32>,
    pub unk_30_offset: Option<u32>,
}

/// The header that `bytes` start with, or why there is none: the first two
/// fields must be the expected offsets, and all 52 bytes must be there.
pub open spec fn spec_read_header(bytes: Seq<u8>) -> Result<Header, Error> {
    if bytes.len() < 8 {
        Err(Error::TruncatedStream)
    } else if spec_u32_le(bytes, 0) != EXPECTED_SETTINGS_OFFSET || spec_u32_le(bytes, 4)
        != EXPECTED_OBJECTS_OFFSET {
        Err(Error::InvalidHeader)
    } else if bytes.len() < HEADER_SIZE {
        Err(Error::TruncatedStream)
    } else {
        Ok(
            Header {
                settings_offset: spec_u32_le(bytes, 0),
                objects_offset: spec_u32_le(bytes, 4),
                events_offset: spec_u32_le(bytes, 8),
                on_prologue: spec_hook(spec_u32_le(bytes, 12)),
                on_startup: spec_hook(spec_u32_le(bytes, 16)),
                on_dead: spec_hook(spec_u32_le(bytes, 20)),
                on_pose: spec_hook(spec_u32_le(bytes, 24)),
                on_time_cycle: spec_hook(spec_u32_le(bytes, 28)),
                on_time_up: spec_hook(spec_u32_le(bytes, 32)),
                actors_offset: spec_u32_le(bytes, 36),
                unk_28_offset: spec_hook(spec_u32_le(bytes, 40)),
                unk_2c_offset: spec_hook(spec_u32_le(bytes, 44)),
                unk_30_offset: spec_hook(spec_u32_le(bytes, 48)),
            },
        )
    }
}

impl Header {
    /// Whether every optional offset that is there is not `0`, so that the
    /// header is read back as it is written.
    pub open spec fn wf(&self) -> bool {
        &&& self.on_prologue != Some(0u32)
        &&& self.on_startup != Some(0u32)
        &&& self.on_dead != Some(0u32)
        &&& self.on_pose != Some(0u32)
        &&& self.on_time_cycle != Some(0u32)
        &&& self.on_time_up != Some(0u32)
        &&& self.unk_28_offset != Some(0u32)
        &&& self.unk_2c_offset != Some(0u32)
        &&& self.unk_30_offset != Some(0u32)
    }

    /// A header with every field zero or absent.
    pub fn empty() -> (header: Header)
        ensures
            header == (Header {
                settings_offset: 0,
                objects_offset: 0,
                events_offset: 0,
                on_prologue: None,
                on_startup: None,
                on_dead: None,
                on_pose: None,
                on_time_cycle: None,
                on_time_up: None,
                actors_offset: 0,
                unk_28_offset: None,
                unk_2c_offset: None,
                unk_30_offset: None,
            }),
    {
        Header {
            settings_offset: 0,
            objects_offset: 0,
            events_offset: 0,
            on_prologue: None,
            on_startup: None,
            on_dead: None,
            on_pose: None,
            on_time_cycle: None,
            on_time_up: None,
            actors_offset: 0,
            unk_28_offset: None,
            unk_2c_offset: None,
            unk_30_offset: None,
        }
    }

    /// The 52 bytes that the header is stored as: thirteen little-endian
    /// 32-bit fields, an absent offset as `0`.
    pub open spec fn spec_bytes(&self) -> Seq<u8> {
        spec_bytes_u32_le(self.settings_offset) + spec_bytes_u32_le(self.objects_offset)
            + spec_bytes_u32_le(self.events_offset) + spec_bytes_u32_le(
            spec_hook_raw(self.on_prologue),
        ) + spec_bytes_u32_le(spec_hook_raw(self.on_startup)) + spec_bytes_u32_le(
            spec_hook_raw(self.on_dead),
        ) + spec_bytes_u32_le(spec_hook_raw(self.on_pose)) + spec_bytes_u32_le(
            spec_hook_raw(self.on_time_cycle),
        ) + spec_bytes_u32_le(spec_hook_raw(self.on_time_up)) + spec_bytes_u32_le(
            self.actors_offset,
        ) + spec_bytes_u32_le(spec_hook_raw(self.unk_28_offset)) + spec_bytes_u32_le(
            spec_hook_raw(self.unk_2c_offset),
        ) + spec_bytes_u32_le(spec_hook_raw(self.unk_30_offset))
    }

    /// Reads the header that `bytes` start with.
    pub fn read_from(bytes: &[u8]) -> (r: Result<Header, Error>)
        ensures
            r == spec_read_header(bytes@),
            r matches Ok(header) ==> header.wf(),
    {
        let settings_offset = match get_u32_le(bytes, 0) {
            Some(v) => v,
            None => {
                return Err(Error::TruncatedStream);
            },
        };
        let objects_offset = match get_u32_le(bytes, 4) {
            Some(v) => v,
            None => {
                return Err(Error::TruncatedStream);
            },
        };
        if settings_offset != EXPECTED_SETTINGS_OFFSET || objects_offset
            != EXPECTED_OBJECTS_OFFSET {
            return Err(Error::InvalidHeader);
        }
        if bytes.len() < 52 {
            return Err(Error::TruncatedStream);
        }
        Ok(
            Header {
                settings_offset,
                objects_offset,
                events_offset: u32_le_at(bytes, 8),
                on_prologue: hook_from_raw(u32_le_at(bytes, 12)),
                on_startup: hook_from_raw(u32_le_at(bytes, 16)),
                on_dead: hook_from_raw(u32_le_at(bytes, 20)),
                on_pose: hook_from_raw(u32_le_at(bytes, 24)),
                on_time_cycle: hook_from_raw(u32_le_at(bytes, 28)),
                on_time_up: hook_from_raw(u32_le_at(bytes, 32)),
                actors_offset: u32_le_at(bytes, 36),
                unk_28_offset: hook_from_raw(u32_le_at(bytes, 40)),
                unk_2c_offset: hook_from_raw(u32_le_at(bytes, 44)),
                unk_30_offset: hook_from_raw(u32_le_at(bytes, 48)),
            },
        )
    }

    /// Appends the header's 52 bytes to `out`.
    pub fn write_to(&self, out: &mut Vec<u8>)
        ensures
            final(out)@ == old(out)@ + self.spec_bytes(),
            self.spec_bytes().len() == HEADER_SIZE,
    {
        let ghost start = out@;
        put_u32_le(out, self.settings_offset);
        let ghost mut acc = spec_bytes_u32_le(self.settings_offset);
        put_u32_le(out, self.objects_offset);
        proof {
            lemma_append_assoc(start, acc, spec_bytes_u32_le(self.objects_offset));
            acc = acc + spec_bytes_u32_le(self.objects_offset);
        }
        put_u32_le(out, self.events_offset);
        proof {
            lemma_append_assoc(start, acc, spec_bytes_u32_le(self.events_offset));
            acc = acc + spec_bytes_u32_le(self.events_offset);
        }
        put_u32_le(out, hook_to_raw(self.on_prologue));
        proof {
            lemma_append_assoc(start, acc, spec_bytes_u32_le(spec_hook_raw(self.on_prologue)));
            acc = acc + spec_bytes_u32_le(spec_hook_raw(self.on_prologue));
        }
        put_u32_le(out, hook_to_raw(self.on_startup));
        proof {
            lemma_append_assoc(start, acc, spec_bytes_u32_le(spec_hook_raw(self.on_startup)));
            acc = acc + spec_bytes_u32_le(spec_hook_raw(self.on_startup));
        }
        put_u32_le(out, hook_to_raw(self.on_dead));
        proof {
            lemma_append_assoc(start, acc, spec_bytes_u32_le(spec_hook_raw(self.on_dead)));
            acc = acc + spec_bytes_u32_le(spec_hook_raw(self.on_dead));
        }
        put_u32_le(out, hook_to_raw(self.on_pose));
        proof {
            lemma_append_assoc(start, acc, spec_bytes_u32_le(spec_hook_raw(self.on_pose)));
            acc = acc + spec_bytes_u32_le(spec_hook_raw(self.on_pose));
        }
        put_u32_le(out, hook_to_raw(self.on_time_cycle));
        proof {
            lemma_append_assoc(start, acc, spec_bytes_u32_le(spec_hook_raw(self.on_time_cycle)));
            acc = acc + spec_bytes_u32_le(spec_hook_raw(self.on_time_cycle));
        }
        put_u32_le(out, hook_to_raw(self.on_time_up));
        proof {
            lemma_append_assoc(start, acc, spec_bytes_u32_le(spec_hook_raw(self.on_time_up)));
            acc = acc + spec_bytes_u32_le(spec_hook_raw(self.on_time_up));
        }
        put_u32_le(out, self.actors_offset);
        proof {
            lemma_append_assoc(start, acc, spec_bytes_u32_le(self.actors_offset));
            acc = acc + spec_bytes_u32_le(self.actors_offset);
        }
        put_u32_le(out, hook_to_raw(self.unk_28_offset));
        proof {
            lemma_append_assoc(start, acc, spec_bytes_u32_le(spec_hook_raw(self.unk_28_offset)));
            acc = acc + spec_bytes_u32_le(spec_hook_raw(self.unk_28_offset));
        }
        put_u32_le(out, hook_to_raw(self.unk_2c_offset));
        proof {
            lemma_append_assoc(start, acc, spec_bytes_u32_le(spec_hook_raw(self.unk_2c_offset)));
            acc = acc + spec_bytes_u32_le(spec_hook_raw(self.unk_2c_offset));
        }
        put_u32_le(out, hook_to_raw(self.unk_30_offset));
        proof {
            lemma_append_assoc(start, acc, spec_bytes_u32_le(spec_hook_raw(self.unk_30_offset)));
            acc = acc + spec_bytes_u32_le(spec_hook_raw(self.unk_30_offset));
        }
        assert(acc == self.spec_bytes());
    }
}

/// The settings of a stage. Only the three flag bases are understood.
#[derive(Debug, Clone, PartialEq, Eq)]
pub struct Settings {
    pub unk_00: i32,
    pub unk_04: u8,
    pub unk_05: u8,
    pub unk_06: i16,
    pub unk_08: u8,
    pub unk_09: u8,
    /// The first of the flags that record which items were taken.
    pub item_flags_base: i16,
    /// The first of the flags that record which coins were taken.
    pub coin_flags_base: i16,
    /// The first of the flags that record which dust was cleaned.
    pub dust_flags_base: i16,
    pub unk_10: i16,
    pub unk_12: i16,
}

/// The settings that the 20 bytes at `at` hold.
pub open spec fn spec_parse_settings(bytes: Seq<u8>, at: int) -> Settings {
    Settings {
        unk_00: spec_i32_be(bytes, at),
        unk_04: bytes[at + 4],
        unk_05: bytes[at + 5],
        unk_06: spec_i16_be(bytes, at + 6),
        unk_08: bytes[at + 8],
        unk_09: bytes[at + 9],
        item_flags_base: spec_i16_be(bytes, at + 10),
        coin_flags_base: spec_i16_be(bytes, at + 12),
        dust_flags_base: spec_i16_be(bytes, at + 14),
        unk_10: spec_i16_be(bytes, at + 16),
        unk_12: spec_i16_be(bytes, at + 18),
    }
}

/// The settings at `at`, or the error for a stream that ends too early.
pub open spec fn spec_read_settings(bytes: Seq<u8>, at: int) -> Result<Settings, Error> {
    if 0 <= at && at + SETTINGS_SIZE <= bytes.len() {
        Ok(spec_parse_settings(bytes, at))
    } else {
        Err(Error::TruncatedStream)
    }
}

impl Settings {
    /// The 20 bytes that the settings are stored as, every field big-endian.
    pub open spec fn spec_bytes(&self) -> Seq<u8> {
        spec_bytes_i32_be(self.unk_00) + seq![self.unk_04] + seq![self.unk_05]
            + spec_bytes_i16_be(self.unk_06) + seq![self.unk_08] + seq![self.unk_09]
            + spec_bytes_i16_be(self.item_flags_base) + spec_bytes_i16_be(self.coin_flags_base)
            + spec_bytes_i16_be(self.dust_flags_base) + spec_bytes_i16_be(self.unk_10)
            + spec_bytes_i16_be(self.unk_12)
    }

    /// Reads the settings at `at`.
    pub fn read_from(bytes: &[u8], at: usize) -> (r: Result<Settings, Error>)
        ensures
            r == spec_read_settings(bytes@, at as int),
    {
        if at > bytes.len() || bytes.len() - at < 20 {
            return Err(Error::TruncatedStream);
        }
        Ok(
            Settings {
                unk_00: i32_be_at(bytes, at),
                unk_04: bytes[at + 4],
                unk_05: bytes[at + 5],
                unk_06: i16_be_at(bytes, at + 6),
                unk_08: bytes[at + 8],
                unk_09: bytes[at + 9],
                item_flags_base: i16_be_at(bytes, at + 10),
                coin_flags_base: i16_be_at(bytes, at + 12),
                dust_flags_base: i16_be_at(bytes, at + 14),
                unk_10: i16_be_at(bytes, at + 16),
                unk_12: i16_be_at(bytes, at + 18),
            },
        )
    }

    /// Appends the settings' 20 bytes to `out`.
    pub fn write_to(&self, out: &mut Vec<u8>)
        ensures
            final(out)@ == old(out)@ + self.spec_bytes(),
            self.spec_bytes().len() == SETTINGS_SIZE,
    {
        let ghost start = out@;
        put_i32_be(out, self.unk_00);
        let ghost mut acc = spec_bytes_i32_be(self.unk_00);
        put_u8(out, self.unk_04);
        proof {
            lemma_append_assoc(start, acc, seq![self.unk_04]);
            acc = acc + seq![self.unk_04];
        }
        put_u8(out, self.unk_05);
        proof {
            lemma_append_assoc(start, acc, seq![self.unk_05]);
            acc = acc + seq![self.unk_05];
        }
        put_i16_be(out, self.unk_06);
        proof {
            lemma_append_assoc(start, acc, spec_bytes_i16_be(self.unk_06));
            acc = acc + spec_bytes_i16_be(self.unk_06);
        }
        put_u8(out, self.unk_08);
        proof {
            lemma_append_assoc(start, acc, seq![self.unk_08]);
            acc = acc + seq![self.unk_08];
        }
        put_u8(out, self.unk_09);
        proof {
            lemma_append_assoc(start, acc, seq![self.unk_09]);
            acc = acc + seq![self.unk_09];
        }
        put_i16_be(out, self.item_flags_base);
        proof {
            lemma_append_assoc(start, acc, spec_bytes_i16_be(self.item_flags_base));
            acc = acc + spec_bytes_i16_be(self.item_flags_base);
        }
        put_i16_be(out, self.coin_flags_base);
        proof {
            lemma_append_assoc(start, acc, spec_bytes_i16_be(self.coin_flags_base));
            acc = acc + spec_bytes_i16_be(self.coin_flags_base);
        }
        put_i16_be(out, self.dust_flags_base);
        proof {
            lemma_append_assoc(start, acc, spec_bytes_i16_be(self.dust_flags_base));
            acc = acc + spec_bytes_i16_be(self.dust_flags_base);
        }
        put_i16_be(out, self.unk_10);
        proof {
            lemma_append_assoc(start, acc, spec_bytes_i16_be(self.unk_10));
            acc = acc + spec_bytes_i16_be(self.unk_10);
        }
        put_i16_be(out, self.unk_12);
        proof {
            lemma_append_assoc(start, acc, spec_bytes_i16_be(self.unk_12));
            acc = acc + spec_bytes_i16_be(self.unk_12);
        }
        assert(acc == self.spec_bytes());
    }
}

/// The event table of a stage: for each object, the offset of the event
/// that belongs to it, or `0` for an object without one.
#[derive(Debug, Clone, PartialEq, Eq)]
pub struct EventTable {
    pub entry_points: Vec<u32>,
}

/// The `count` little-endian offsets that stand at `at`.
pub open spec fn spec_entry_points(bytes: Seq<u8>, at: int, count: nat) -> Seq<u32> {
    Seq::new(count, |i: int| spec_u32_le(bytes, at + 4 * i))
}

/// The bytes of an event table: its offsets, little-endian, and a closing `-1`.
pub open spec fn spec_event_table_bytes(entry_points: Seq<u32>) -> Seq<u8> {
    spec_words_le(entry_points) + spec_bytes_i32_le(-1i32)
}

/// The pattern of the `-1` that closes an event table.
pub const EVENTS_END: u32 = 0xffff_ffff;

/// The event table of `count` entries at `at`, or why there is none: the
/// stream ends inside it (truncated stream), or the closing `-1` stands
/// where one of the entries should, so that the table is shorter than the
/// object table says (invalid header).
pub open spec fn spec_read_event_table(bytes: Seq<u8>, at: int, count: nat) -> Result<
    Seq<u32>,
    Error,
> {
    if at + 4 * count > bytes.len() {
        Err(Error::TruncatedStream)
    } else if exists|i: int| 0 <= i < count && #[trigger] spec_u32_le(bytes, at + 4 * i) == EVENTS_END {
        Err(Error::InvalidHeader)
    } else {
        Ok(spec_entry_points(bytes, at, count))
    }
}

impl EventTable {
    /// Reads a table of `count` offsets at `at`. The count comes from the
    /// object table. The table ends in front of its closing `-1`: where
    /// that stands among the first `count` entries, the table is too short
    /// for the objects, and nothing behind the `-1` is taken for an entry.
    pub fn read_from(bytes: &[u8], at: usize, count: usize) -> (r: Result<EventTable, Error>)
        ensures
            match r {
                Ok(table) => spec_read_event_table(bytes@, at as int, count as nat) == Ok::<
                    Seq<u32>,
                    Error,
                >(table.entry_points@) && forall|i: int|
                    0 <= i < count ==> #[trigger] table.entry_points@[i] != EVENTS_END,
                Err(e) => spec_read_event_table(bytes@, at as int, count as nat) == Err::<
                    Seq<u32>,
                    Error,
                >(e),
            },
    {
        if at > bytes.len() || (bytes.len() - at) / 4 < count {
            return Err(Error::TruncatedStream);
        }
        let mut entry_points = vec![0u32; count];
        let src = slice_subrange(bytes, at, at + 4 * count);
        le_read_u32_into(src, &mut entry_points);
        assert(entry_points@ =~= spec_entry_points(bytes@, at as int, count as nat));
        let mut i: usize = 0;
        while i < count
            invariant
                i <= count,
                at + 4 * count <= bytes@.len(),
                entry_points@ == spec_entry_points(bytes@, at as int, count as nat),
                forall|k: int| 0 <= k < i ==> #[trigger] spec_u32_le(bytes@, at + 4 * k) != EVENTS_END,
            decreases count - i,
        {
            if entry_points[i] == EVENTS_END {
                assert(spec_u32_le(bytes@, at + 4 * i) == EVENTS_END);
                return Err(Error::InvalidHeader);
            }
            i += 1;
        }
        assert forall|k: int| 0 <= k < count implies #[trigger] entry_points@[k] != EVENTS_END by {
            assert(spec_u32_le(bytes@, at + 4 * k) != EVENTS_END);
        }
        Ok(EventTable { entry_points })
    }

    /// Appends the table's offsets and the closing `-1` to `out`.
    pub fn write_to(&self, out: &mut Vec<u8>)
        requires
            4 * self.entry_points@.len() <= usize::MAX,
        ensures
            final(out)@ == old(out)@ + spec_event_table_bytes(self.entry_points@),
    {
        let mut bytes = vec![0u8; self.entry_points.len() * 4];
        le_write_u32_into(self.entry_points.as_slice(), &mut bytes);
        put_bytes(out, bytes.as_slice());
        put_i32_le(out, -1);
        assert(out@ =~= old(out)@ + spec_event_table_bytes(self.entry_points@));
    }
}

/// A record of the first and of the third trailing table of a stage. What its fields mean is not known.
#[derive(Debug, Clone, PartialEq, Eq)]
pub struct Unk28 {
    pub unk_00: i32,
    pub unk_04: i32,
    pub unk_08: i32,
    pub unk_0c: i32,
    pub unk_10: i32,
    pub unk_14: i32,
    pub unk_18: i32,
    pub unk_1c: i32,
    pub unk_20: i32,
    pub unk_24: i32,
    pub unk_28: i32,
    pub unk_2c: i16,
    pub unk_2e: i16,
    pub unk_30: i32,
}

impl Record for Unk28 {
    open spec fn spec_size() -> nat {
        52
    }

    open spec fn spec_parse(bytes: Seq<u8>, at: int) -> Self {
        Unk28 {
            unk_00: spec_i32_be(bytes, at),
            unk_04: spec_i32_be(bytes, at + 4),
            unk_08: spec_i32_be(bytes, at + 8),
            unk_0c: spec_i32_be(bytes, at + 12),
            unk_10: spec_i32_be(bytes, at + 16),
            unk_14: spec_i32_be(bytes, at + 20),
            unk_18: spec_i32_be(bytes, at + 24),
            unk_1c: spec_i32_be(bytes, at + 28),
            unk_20: spec_i32_be(bytes, at + 32),
            unk_24: spec_i32_be(bytes, at + 36),
            unk_28: spec_i32_be(bytes, at + 40),
            unk_2c: spec_i16_be(bytes, at + 44),
            unk_2e: spec_i16_be(bytes, at + 46),
            unk_30: spec_i32_be(bytes, at + 48),
        }
    }

    open spec fn spec_bytes(&self) -> Seq<u8> {
        spec_bytes_i32_be(self.unk_00)
            + spec_bytes_i32_be(self.unk_04)
            + spec_bytes_i32_be(self.unk_08)
            + spec_bytes_i32_be(self.unk_0c)
            + spec_bytes_i32_be(self.unk_10)
            + spec_bytes_i32_be(self.unk_14)
            + spec_bytes_i32_be(self.unk_18)
            + spec_bytes_i32_be(self.unk_1c)
            + spec_bytes_i32_be(self.unk_20)
            + spec_bytes_i32_be(self.unk_24)
            + spec_bytes_i32_be(self.unk_28)
            + spec_bytes_i16_be(self.unk_2c)
            + spec_bytes_i16_be(self.unk_2e)
            + spec_bytes_i32_be(self.unk_30)
    }

    open spec fn spec_first(&self) -> i32 {
        self.unk_00
    }

    open spec fn spec_stored(&self) -> Self {
        *self
    }

    proof fn lemma_size_min() {
    }

    proof fn lemma_bytes_size(&self) {
        lemma_bytes_len(spec_pattern32(self.unk_00 as int));
        lemma_bytes_len(spec_pattern32(self.unk_04 as int));
        lemma_bytes_len(spec_pattern32(self.unk_08 as int));
        lemma_bytes_len(spec_pattern32(self.unk_0c as int));
        lemma_bytes_len(spec_pattern32(self.unk_10 as int));
        lemma_bytes_len(spec_pattern32(self.unk_14 as int));
        lemma_bytes_len(spec_pattern32(self.unk_18 as int));
        lemma_bytes_len(spec_pattern32(self.unk_1c as int));
        lemma_bytes_len(spec_pattern32(self.unk_20 as int));
        lemma_bytes_len(spec_pattern32(self.unk_24 as int));
        lemma_bytes_len(spec_pattern32(self.unk_28 as int));
        lemma_bytes_len(spec_pattern16(self.unk_2c as int));
        lemma_bytes_len(spec_pattern16(self.unk_2e as int));
        lemma_bytes_len(spec_pattern32(self.unk_30 as int));
    }

    proof fn lemma_parse_written(&self, bytes: Seq<u8>, at: int) {
        self.lemma_bytes_size();
        let seg0 = spec_bytes_i32_be(self.unk_00);
        let seg1 = seg0 + spec_bytes_i32_be(self.unk_04);
        let seg2 = seg1 + spec_bytes_i32_be(self.unk_08);
        let seg3 = seg2 + spec_bytes_i32_be(self.unk_0c);
        let seg4 = seg3 + spec_bytes_i32_be(self.unk_10);
        let seg5 = seg4 + spec_bytes_i32_be(self.unk_14);
        let seg6 = seg5 + spec_bytes_i32_be(self.unk_18);
        let seg7 = seg6 + spec_bytes_i32_be(self.unk_1c);
        let seg8 = seg7 + spec_bytes_i32_be(self.unk_20);
        let seg9 = seg8 + spec_bytes_i32_be(self.unk_24);
        let seg10 = seg9 + spec_bytes_i32_be(self.unk_28);
        let seg11 = seg10 + spec_bytes_i16_be(self.unk_2c);
        let seg12 = seg11 + spec_bytes_i16_be(self.unk_2e);
        let seg13 = seg12 + spec_bytes_i32_be(self.unk_30);
        lemma_holds_split(bytes, at, seg12, spec_bytes_i32_be(self.unk_30));
        lemma_holds_split(bytes, at, seg11, spec_bytes_i16_be(self.unk_2e));
        lemma_holds_split(bytes, at, seg10, spec_bytes_i16_be(self.unk_2c));
        lemma_holds_split(bytes, at, seg9, spec_bytes_i32_be(self.unk_28));
        lemma_holds_split(bytes, at, seg8, spec_bytes_i32_be(self.unk_24));
        lemma_holds_split(bytes, at, seg7, spec_bytes_i32_be(self.unk_20));
        lemma_holds_split(bytes, at, seg6, spec_bytes_i32_be(self.unk_1c));
        lemma_holds_split(bytes, at, seg5, spec_bytes_i32_be(self.unk_18));
        lemma_holds_split(bytes, at, seg4, spec_bytes_i32_be(self.unk_14));
        lemma_holds_split(bytes, at, seg3, spec_bytes_i32_be(self.unk_10));
        lemma_holds_split(bytes, at, seg2, spec_bytes_i32_be(self.unk_0c));
        lemma_holds_split(bytes, at, seg1, spec_bytes_i32_be(self.unk_08));
        lemma_holds_split(bytes, at, seg0, spec_bytes_i32_be(self.unk_04));
        lemma_read_held_i32_be(bytes, at, self.unk_00);
        lemma_read_held_i32_be(bytes, at + 4, self.unk_04);
        lemma_read_held_i32_be(bytes, at + 8, self.unk_08);
        lemma_read_held_i32_be(bytes, at + 12, self.unk_0c);
        lemma_read_held_i32_be(bytes, at + 16, self.unk_10);
        lemma_read_held_i32_be(bytes, at + 20, self.unk_14);
        lemma_read_held_i32_be(bytes, at + 24, self.unk_18);
        lemma_read_held_i32_be(bytes, at + 28, self.unk_1c);
        lemma_read_held_i32_be(bytes, at + 32, self.unk_20);
        lemma_read_held_i32_be(bytes, at + 36, self.unk_24);
        lemma_read_held_i32_be(bytes, at + 40, self.unk_28);
        lemma_read_held_i16_be(bytes, at + 44, self.unk_2c);
        lemma_read_held_i16_be(bytes, at + 46, self.unk_2e);
        lemma_read_held_i32_be(bytes, at + 48, self.unk_30);
    }

    fn size() -> (n: usize) {
        52
    }

    fn read_from(bytes: &[u8], at: usize) -> (r: Self) {
        let total = bytes.len();
        assert(at + Self::spec_size() <= total);
        Unk28 {
            unk_00: i32_be_at(bytes, at),
            unk_04: i32_be_at(bytes, at + 4),
            unk_08: i32_be_at(bytes, at + 8),
            unk_0c: i32_be_at(bytes, at + 12),
            unk_10: i32_be_at(bytes, at + 16),
            unk_14: i32_be_at(bytes, at + 20),
            unk_18: i32_be_at(bytes, at + 24),
            unk_1c: i32_be_at(bytes, at + 28),
            unk_20: i32_be_at(bytes, at + 32),
            unk_24: i32_be_at(bytes, at + 36),
            unk_28: i32_be_at(bytes, at + 40),
            unk_2c: i16_be_at(bytes, at + 44),
            unk_2e: i16_be_at(bytes, at + 46),
            unk_30: i32_be_at(bytes, at + 48),
        }
    }

    fn write_to(&self, out: &mut Vec<u8>) {
        let ghost start = out@;
        put_i32_be(out, self.unk_00);
        let ghost mut acc = spec_bytes_i32_be(self.unk_00);
        put_i32_be(out, self.unk_04);
        proof {
            lemma_append_assoc(start, acc, spec_bytes_i32_be(self.unk_04));
            acc = acc + spec_bytes_i32_be(self.unk_04);
        }
        put_i32_be(out, self.unk_08);
        proof {
            lemma_append_assoc(start, acc, spec_bytes_i32_be(self.unk_08));
            acc = acc + spec_bytes_i32_be(self.unk_08);
        }
        put_i32_be(out, self.unk_0c);
        proof {
            lemma_append_assoc(start, acc, spec_bytes_i32_be(self.unk_0c));
            acc = acc + spec_bytes_i32_be(self.unk_0c);
        }
        put_i32_be(out, self.unk_10);
        proof {
            lemma_append_assoc(start, acc, spec_bytes_i32_be(self.unk_10));
            acc = acc + spec_bytes_i32_be(self.unk_10);
        }
        put_i32_be(out, self.unk_14);
        proof {
            lemma_append_assoc(start, acc, spec_bytes_i32_be(self.unk_14));
            acc = acc + spec_bytes_i32_be(self.unk_14);
        }
        put_i32_be(out, self.unk_18);
        proof {
            lemma_append_assoc(start, acc, spec_bytes_i32_be(self.unk_18));
            acc = acc + spec_bytes_i32_be(self.unk_18);
        }
        put_i32_be(out, self.unk_1c);
        proof {
            lemma_append_assoc(start, acc, spec_bytes_i32_be(self.unk_1c));
            acc = acc + spec_bytes_i32_be(self.unk_1c);
        }
        put_i32_be(out, self.unk_20);
        proof {
            lemma_append_assoc(start, acc, spec_bytes_i32_be(self.unk_20));
            acc = acc + spec_bytes_i32_be(self.unk_20);
        }
        put_i32_be(out, self.unk_24);
        proof {
            lemma_append_assoc(start, acc, spec_bytes_i32_be(self.unk_24));
            acc = acc + spec_bytes_i32_be(self.unk_24);
        }
        put_i32_be(out, self.unk_28);
        proof {
            lemma_append_assoc(start, acc, spec_bytes_i32_be(self.unk_28));
            acc = acc + spec_bytes_i32_be(self.unk_28);
        }
        put_i16_be(out, self.unk_2c);
        proof {
            lemma_append_assoc(start, acc, spec_bytes_i16_be(self.unk_2c));
            acc = acc + spec_bytes_i16_be(self.unk_2c);
        }
        put_i16_be(out, self.unk_2e);
        proof {
            lemma_append_assoc(start, acc, spec_bytes_i16_be(self.unk_2e));
            acc = acc + spec_bytes_i16_be(self.unk_2e);
        }
        put_i32_be(out, self.unk_30);
        proof {
            lemma_append_assoc(start, acc, spec_bytes_i32_be(self.unk_30));
            acc = acc + spec_bytes_i32_be(self.unk_30);
        }
        assert(acc == self.spec_bytes());
    }
}

/// A record of the second trailing table of a stage. What its fields mean is not known.
#[derive(Debug, Clone, PartialEq, Eq)]
pub struct Unk2C {
    pub unk_00: i32,
    pub unk_04: i32,
    pub unk_08: i32,
    pub unk_0c: i32,
    pub unk_10: i32,
    pub unk_14: i32,
    pub unk_18: i32,
    pub unk_1c: i32,
}

impl Record for Unk2C {
    open spec fn spec_size() -> nat {
        32
    }

    open spec fn spec_parse(bytes: Seq<u8>, at: int) -> Self {
        Unk2C {
            unk_00: spec_i32_be(bytes, at),
            unk_04: spec_i32_be(bytes, at + 4),
            unk_08: spec_i32_be(bytes, at + 8),
            unk_0c: spec_i32_be(bytes, at + 12),
            unk_10: spec_i32_be(bytes, at + 16),
            unk_14: spec_i32_be(bytes, at + 20),
            unk_18: spec_i32_be(bytes, at + 24),
            unk_1c: spec_i32_be(bytes, at + 28),
        }
    }

    open spec fn spec_bytes(&self) -> Seq<u8> {
        spec_bytes_i32_be(self.unk_00)
            + spec_bytes_i32_be(self.unk_04)
            + spec_bytes_i32_be(self.unk_08)
            + spec_bytes_i32_be(self.unk_0c)
            + spec_bytes_i32_be(self.unk_10)
            + spec_bytes_i32_be(self.unk_14)
            + spec_bytes_i32_be(self.unk_18)
            + spec_bytes_i32_be(self.unk_1c)
    }

    open spec fn spec_first(&self) -> i32 {
        self.unk_00
    }

    open spec fn spec_stored(&self) -> Self {
        *self
    }

    proof fn lemma_size_min() {
    }

    proof fn lemma_bytes_size(&self) {
        lemma_bytes_len(spec_pattern32(self.unk_00 as int));
        lemma_bytes_len(spec_pattern32(self.unk_04 as int));
        lemma_bytes_len(spec_pattern32(self.unk_08 as int));
        lemma_bytes_len(spec_pattern32(self.unk_0c as int));
        lemma_bytes_len(spec_pattern32(self.unk_10 as int));
        lemma_bytes_len(spec_pattern32(self.unk_14 as int));
        lemma_bytes_len(spec_pattern32(self.unk_18 as int));
        lemma_bytes_len(spec_pattern32(self.unk_1c as int));
    }

    proof fn lemma_parse_written(&self, bytes: Seq<u8>, at: int) {
        self.lemma_bytes_size();
        let seg0 = spec_bytes_i32_be(self.unk_00);
        let seg1 = seg0 + spec_bytes_i32_be(self.unk_04);
        let seg2 = seg1 + spec_bytes_i32_be(self.unk_08);
        let seg3 = seg2 + spec_bytes_i32_be(self.unk_0c);
        let seg4 = seg3 + spec_bytes_i32_be(self.unk_10);
        let seg5 = seg4 + spec_bytes_i32_be(self.unk_14);
        let seg6 = seg5 + spec_bytes_i32_be(self.unk_18);
        let seg7 = seg6 + spec_bytes_i32_be(self.unk_1c);
        lemma_holds_split(bytes, at, seg6, spec_bytes_i32_be(self.unk_1c));
        lemma_holds_split(bytes, at, seg5, spec_bytes_i32_be(self.unk_18));
        lemma_holds_split(bytes, at, seg4, spec_bytes_i32_be(self.unk_14));
        lemma_holds_split(bytes, at, seg3, spec_bytes_i32_be(self.unk_10));
        lemma_holds_split(bytes, at, seg2, spec_bytes_i32_be(self.unk_0c));
        lemma_holds_split(bytes, at, seg1, spec_bytes_i32_be(self.unk_08));
        lemma_holds_split(bytes, at, seg0, spec_bytes_i32_be(self.unk_04));
        lemma_read_held_i32_be(bytes, at, self.unk_00);
        lemma_read_held_i32_be(bytes, at + 4, self.unk_04);
        lemma_read_held_i32_be(bytes, at + 8, self.unk_08);
        lemma_read_held_i32_be(bytes, at + 12, self.unk_0c);
        lemma_read_held_i32_be(bytes, at + 16, self.unk_10);
        lemma_read_held_i32_be(bytes, at + 20, self.unk_14);
        lemma_read_held_i32_be(bytes, at + 24, self.unk_18);
        lemma_read_held_i32_be(bytes, at + 28, self.unk_1c);
    }

    fn size() -> (n: usize) {
        32
    }

    fn read_from(bytes: &[u8], at: usize) -> (r: Self) {
        let total = bytes.len();
        assert(at + Self::spec_size() <= total);
        Unk2C {
            unk_00: i32_be_at(bytes, at),
            unk_04: i32_be_at(bytes, at + 4),
            unk_08: i32_be_at(bytes, at + 8),
            unk_0c: i32_be_at(bytes, at + 12),
            unk_10: i32_be_at(bytes, at + 16),
            unk_14: i32_be_at(bytes, at + 20),
            unk_18: i32_be_at(bytes, at + 24),
            unk_1c: i32_be_at(bytes, at + 28),
        }
    }

    fn write_to(&self, out: &mut Vec<u8>) {
        let ghost start = out@;
        put_i32_be(out, self.unk_00);
        let ghost mut acc = spec_bytes_i32_be(self.unk_00);
        put_i32_be(out, self.unk_04);
        proof {
            lemma_append_assoc(start, acc, spec_bytes_i32_be(self.unk_04));
            acc = acc + spec_bytes_i32_be(self.unk_04);
        }
        put_i32_be(out, self.unk_08);
        proof {
            lemma_append_assoc(start, acc, spec_bytes_i32_be(self.unk_08));
            acc = acc + spec_bytes_i32_be(self.unk_08);
        }
        put_i32_be(out, self.unk_0c);
        proof {
            lemma_append_assoc(start, acc, spec_bytes_i32_be(self.unk_0c));
            acc = acc + spec_bytes_i32_be(self.unk_0c);
        }
        put_i32_be(out, self.unk_10);
        proof {
            lemma_append_assoc(start, acc, spec_bytes_i32_be(self.unk_10));
            acc = acc + spec_bytes_i32_be(self.unk_10);
        }
        put_i32_be(out, self.unk_14);
        proof {
            lemma_append_assoc(start, acc, spec_bytes_i32_be(self.unk_14));
            acc = acc + spec_bytes_i32_be(self.unk_14);
        }
        put_i32_be(out, self.unk_18);
        proof {
            lemma_append_assoc(start, acc, spec_bytes_i32_be(self.unk_18));
            acc = acc + spec_bytes_i32_be(self.unk_18);
        }
        put_i32_be(out, self.unk_1c);
        proof {
            lemma_append_assoc(start, acc, spec_bytes_i32_be(self.unk_1c));
            acc = acc + spec_bytes_i32_be(self.unk_1c);
        }
        assert(acc == self.spec_bytes());
    }
}

/// A stage: its objects and actors, its settings and tables, and the
/// script that holds the events of the stage and of its objects.
#[derive(Debug, Clone, PartialEq, Eq)]
pub struct Stage {
    pub objects: Vec<Object>,
    pub actors: Vec<Actor>,
    pub script: Script,
    /// An event that runs when the stage begins loading.
    pub on_prologue: Option<BlockId>,
    /// An event that runs when the stage is finished loading and about to
    /// start.
    pub on_startup: Option<BlockId>,
    /// An event that runs when the player runs out of battery power.
    pub on_dead: Option<BlockId>,
    /// An event that runs when the player presses the pose button.
    pub on_pose: Option<BlockId>,
    /// An event that runs when the time of day cycles between day and night.
    pub on_time_cycle: Option<BlockId>,
    /// An event whose meaning is mostly unknown. Only one stage is known to
    /// set it, and nothing is known to trigger it. It is kept as it is
    /// found.
    pub on_time_up: Option<BlockId>,
    pub settings: Settings,
    pub unk_28: Vec<Unk28>,
    pub unk_2c: Vec<Unk2C>,
    pub unk_30: Vec<Unk28>,
}

/// The tables of a stage file, as they stand in the file.
#[derive(Debug, Clone, PartialEq, Eq)]
pub struct Tables {
    pub header: Header,
    pub settings: Settings,
    pub objects: Vec<Object>,
    pub events: Vec<u32>,
    pub actors: Vec<Actor>,
    pub unk_28: Vec<Unk28>,
    pub unk_2c: Vec<Unk2C>,
    pub unk_30: Vec<Unk28>,
}

impl View for Tables {
    type V = TablesView;

    open spec fn view(&self) -> TablesView {
        TablesView {
            header: self.header,
            settings: self.settings,
            objects: self.objects@,
            events: self.events@,
            actors: self.actors@,
            unk_28: self.unk_28@,
            unk_2c: self.unk_2c@,
            unk_30: self.unk_30@,
        }
    }
}

/// The tables of a stage file, as plain mathematical values.
pub ghost struct TablesView {
    pub header: Header,
    pub settings: Settings,
    pub objects: Seq<Object>,
    pub events: Seq<u32>,
    pub actors: Seq<Actor>,
    pub unk_28: Seq<Unk28>,
    pub unk_2c: Seq<Unk2C>,
    pub unk_30: Seq<Unk28>,
}

/// The list at an optional offset: the list that stands there, or the
/// empty list where there is no offset.
pub open spec fn spec_optional_list<T: Record>(bytes: Seq<u8>, offset: Option<u32>) -> Result<
    Seq<T>,
    Error,
> {
    match offset {
        Some(at) => match spec_read_list::<T>(bytes, at as int) {
            Ok((items, _)) => Ok(items),
            Err(e) => Err(e),
        },
        None => Ok(Seq::empty()),
    }
}

/// The tables that a stage file holds, or the first error met on the way
/// through the header, the settings, the objects, the event table, the
/// actors and the three trailing tables. The event table has one entry for
/// each object; none of them is the `-1` that closes the table.
pub open spec fn spec_read_tables(bytes: Seq<u8>) -> Result<TablesView, Error> {
    match spec_read_header(bytes) {
        Err(e) => Err(e),
        Ok(header) => match spec_read_settings(bytes, header.settings_offset as int) {
            Err(e) => Err(e),
            Ok(settings) => match spec_read_list::<Object>(bytes, header.objects_offset as int) {
                Err(e) => Err(e),
                Ok((objects, _)) => if let Err(e) = spec_read_event_table(
                    bytes,
                    header.events_offset as int,
                    objects.len(),
                ) {
                    Err(e)
                } else {
                    match spec_read_list::<Actor>(bytes, header.actors_offset as int) {
                        Err(e) => Err(e),
                        Ok((actors, _)) => match spec_optional_list::<Unk28>(
                            bytes,
                            header.unk_28_offset,
                        ) {
                            Err(e) => Err(e),
                            Ok(unk_28) => match spec_optional_list::<Unk2C>(
                                bytes,
                                header.unk_2c_offset,
                            ) {
                                Err(e) => Err(e),
                                Ok(unk_2c) => match spec_optional_list::<Unk28>(
                                    bytes,
                                    header.unk_30_offset,
                                ) {
                                    Err(e) => Err(e),
                                    Ok(unk_30) => Ok(
                                        TablesView {
                                            header,
                                            settings,
                                            objects,
                                            events: spec_entry_points(
                                                bytes,
                                                header.events_offset as int,
                                                objects.len(),
                                            ),
                                            actors,
                                            unk_28,
                                            unk_2c,
                                            unk_30,
                                        },
                                    ),
                                },
                            },
                        },
                    }
                },
            },
        },
    }
}

/// Whether decoding the events at `roots` can stop with the error `e`:
/// with an invalid header where code and data collide, otherwise where
/// something that the events lead to cannot be decoded for that reason.
pub open spec fn spec_script_error(b: Seq<u8>, roots: Set<int>, e: Error) -> bool {
    ScriptReader::spec_refused(b, roots, e)
}

/// The offsets of the events of a stage file: every offset but `0` that
/// the header gives for an event of the stage or the event table for an
/// event of an object.
pub open spec fn spec_event_roots(tables: TablesView) -> Set<int> {
    Set::new(
        |at: int|
            at != 0 && {
                ||| at == spec_hook_raw(tables.header.on_prologue)
                ||| at == spec_hook_raw(tables.header.on_startup)
                ||| at == spec_hook_raw(tables.header.on_dead)
                ||| at == spec_hook_raw(tables.header.on_pose)
                ||| at == spec_hook_raw(tables.header.on_time_cycle)
                ||| at == spec_hook_raw(tables.header.on_time_up)
                ||| exists|i: int| 0 <= i < tables.events.len() && #[trigger] tables.events[i] == at
            },
    )
}

/// The offsets that a stage file stores for its events, in the order in
/// which the events are decoded: the six events of the stage as the header
/// names them, then the events of the objects.
pub open spec fn spec_event_list(tables: TablesView) -> Seq<u32> {
    seq![
        spec_hook_raw(tables.header.on_prologue),
        spec_hook_raw(tables.header.on_startup),
        spec_hook_raw(tables.header.on_dead),
        spec_hook_raw(tables.header.on_pose),
        spec_hook_raw(tables.header.on_time_cycle),
        spec_hook_raw(tables.header.on_time_up),
    ] + tables.events
}

/// The offsets, other than `0`, of the first `k` events of `list`.
pub open spec fn spec_roots_upto(list: Seq<u32>, k: int) -> Set<int> {
    Set::new(|at: int| at != 0 && exists|i: int| 0 <= i < k && i < list.len() && #[trigger] list[i] == at)
}

/// Whether decoding the events of `list` in their order stops at place `k`
/// with the error `e`: nothing that the events in front of it lead to is
/// refused, and with the event at `k` something is, for the reason `e`.
pub open spec fn spec_stops_at(b: Seq<u8>, list: Seq<u32>, k: int, e: Error) -> bool {
    &&& 0 <= k < list.len()
    &&& forall|e2: Error| !#[trigger] spec_script_error(b, spec_roots_upto(list, k), e2)
    &&& spec_script_error(b, spec_roots_upto(list, k + 1), e)
}

/// The offsets of the first `k + 1` events are those of the first `k` and
/// that of the event at place `k`, unless it is `0`.
pub proof fn lemma_roots_next(list: Seq<u32>, k: int)
    requires
        0 <= k < list.len(),
    ensures
        spec_roots_upto(list, k + 1) == if list[k] != 0 {
            spec_roots_upto(list, k).insert(list[k] as int)
        } else {
            spec_roots_upto(list, k)
        },
        spec_roots_upto(list, 0) == Set::<int>::empty(),
{
    let next = if list[k] != 0 {
        spec_roots_upto(list, k).insert(list[k] as int)
    } else {
        spec_roots_upto(list, k)
    };
    assert forall|at: int| spec_roots_upto(list, k + 1).contains(at) implies next.contains(at) by {
        let i = choose|i: int| 0 <= i < k + 1 && i < list.len() && #[trigger] list[i] == at;
        if i < k {
            assert(spec_roots_upto(list, k).contains(at));
        }
    }
    assert forall|at: int| next.contains(at) implies spec_roots_upto(list, k + 1).contains(at) by {
        if spec_roots_upto(list, k).contains(at) {
            let i = choose|i: int| 0 <= i < k && i < list.len() && #[trigger] list[i] == at;
            assert(0 <= i < k + 1 && list[i] == at);
        } else {
            assert(list[k] == at);
        }
    }
    assert(spec_roots_upto(list, k + 1) =~= next);
    assert(spec_roots_upto(list, 0) =~= Set::<int>::empty());
}

/// The offsets of all events of a stage file are the offsets at which its
/// events are decoded.
pub proof fn lemma_roots_all(tables: TablesView)
    ensures
        spec_roots_upto(spec_event_list(tables), spec_event_list(tables).len() as int) == spec_event_roots(
            tables,
        ),
{
    let list = spec_event_list(tables);
    let all = spec_roots_upto(list, list.len() as int);
    assert forall|at: int| all.contains(at) implies spec_event_roots(tables).contains(at) by {
        let i = choose|i: int| 0 <= i < list.len() && i < list.len() && #[trigger] list[i] == at;
        if i >= 6 {
            assert(tables.events[i - 6] == at);
        }
    }
    assert forall|at: int| spec_event_roots(tables).contains(at) implies all.contains(at) by {
        if exists|i: int| 0 <= i < tables.events.len() && #[trigger] tables.events[i] == at {
            let i = choose|i: int| 0 <= i < tables.events.len() && #[trigger] tables.events[i] == at;
            assert(list[i + 6] == at);
        } else if at == list[0] {
        } else if at == list[1] {
        } else if at == list[2] {
        } else if at == list[3] {
        } else if at == list[4] {
        } else {
            assert(at == list[5]);
        }
    }
    assert(all =~= spec_event_roots(tables));
}

/// Whether the event `id` is what was decoded for the stored offset
/// `raw`: no event for `0`, else the code block that starts at that
/// offset.
pub open spec fn spec_event_of(
    s: Seq<BlockView>,
    spans: Seq<SpanView>,
    raw: u32,
    id: Option<BlockId>,
) -> bool {
    match id {
        None => raw == 0,
        Some(id) => raw != 0 && spec_is_code(s, id) && spans[id.index as int].start == raw,
    }
}

/// Whether `script` with its blocks at `spans` is what the stream holds:
/// every block was read to its end and is what stands at its place,
/// nothing was read but what the events at `roots` lead to, and the blocks
/// are cut where the stream and the events demand it.
pub open spec fn spec_decoded(
    b: Seq<u8>,
    s: Seq<BlockView>,
    spans: Seq<SpanView>,
    roots: Set<int>,
) -> bool {
    spec_settled(b, roots, s, spans)
}

/// What was decoded in full holds nothing that is refused: a stage file
/// whose tables can be read is read exactly where nothing of what its
/// events lead to is refused.
pub proof fn lemma_decoded_accepts(
    b: Seq<u8>,
    s: Seq<BlockView>,
    spans: Seq<SpanView>,
    roots: Set<int>,
    e: Error,
)
    requires
        spec_decoded(b, s, spans, roots),
    ensures
        !spec_script_error(b, roots, e),
{
    let covered = choose|covered: Set<int>| #[trigger] spec_inv(b, s, spans, covered, roots, -1);
    lemma_complete_apart(b, s, spans, covered, roots);
    assert forall|at: int| spec_demanded(b, roots, at) implies !#[trigger] spec_fails_at(
        b,
        at,
        e,
    ) by {
        lemma_complete_decodes(b, s, spans, covered, roots, at, e);
    }
}

impl Stage {
    /// Whether the stage is what the file `bytes` holds, its blocks standing
    /// at `spans`: the tables are those of the file, each event is the
    /// block decoded at the offset that the file gives for it, and an
    /// offset of `0` gave no event.
    pub open spec fn spec_read_as(&self, bytes: Seq<u8>, spans: Seq<SpanView>) -> bool {
        &&& spec_read_tables(bytes) matches Ok(tables) && {
            &&& self.settings == tables.settings
            &&& self.actors@ == tables.actors
            &&& self.unk_28@ == tables.unk_28
            &&& self.unk_2c@ == tables.unk_2c
            &&& self.unk_30@ == tables.unk_30
            &&& self.objects@.len() == tables.objects.len()
            &&& forall|i: int|
                0 <= i < self.objects@.len() ==> {
                    let object = #[trigger] self.objects@[i];
                    &&& object == (Object { script: object.script, ..tables.objects[i] })
                    &&& spec_event_of(self.script@, spans, tables.events[i], object.script)
                }
            &&& spec_event_of(
                self.script@,
                spans,
                spec_hook_raw(tables.header.on_prologue),
                self.on_prologue,
            )
            &&& spec_event_of(
                self.script@,
                spans,
                spec_hook_raw(tables.header.on_startup),
                self.on_startup,
            )
            &&& spec_event_of(self.script@, spans, spec_hook_raw(tables.header.on_dead), self.on_dead)
            &&& spec_event_of(self.script@, spans, spec_hook_raw(tables.header.on_pose), self.on_pose)
            &&& spec_event_of(
                self.script@,
                spans,
                spec_hook_raw(tables.header.on_time_cycle),
                self.on_time_cycle,
            )
            &&& spec_event_of(
                self.script@,
                spans,
                spec_hook_raw(tables.header.on_time_up),
                self.on_time_up,
            )
        }
        &&& spec_read_tables(bytes) matches Ok(tables) && spec_decoded(
            bytes,
            self.script@,
            spans,
            spec_event_roots(tables),
        )
        &&& spec_consistent(self.script@)
    }

    /// Reads a stage from the bytes of its file.
    ///
    /// The tables are read first, each at the offset that the header gives
    /// for it; then the events are decoded into one script: the six events
    /// of the stage, then the events of the objects in their order. An
    /// offset of `0` means that there is no event, and nothing is decoded
    /// for it. Where an event cannot be decoded, reading stops with the
    /// error of the first such event in that order.
    pub fn read_from(bytes: &[u8]) -> (r: Result<Stage, Error>)
        ensures
            match r {
                Ok(stage) => exists|spans: Seq<SpanView>| #[trigger] stage.spec_read_as(bytes@, spans),
                Err(e) => match spec_read_tables(bytes@) {
                    Err(e2) => e == e2,
                    Ok(tables) => spec_script_error(bytes@, spec_event_roots(tables), e) && exists|k: int| #[trigger]
                        spec_stops_at(bytes@, spec_event_list(tables), k, e),
                },
            },
    {
        let tables = match read_tables(bytes) {
            Ok(tables) => tables,
            Err(e) => {
                return Err(e);
            },
        };
        let ghost view = tables@;
        let Tables { header, settings, objects, events, actors, unk_28, unk_2c, unk_30 } = tables;
        let mut objects = objects;
        let ghost allowed = spec_event_roots(view);
        let ghost list = spec_event_list(view);
        let mut reader = ScriptReader::new(bytes);
        proof {
            lemma_roots_next(list, 0);
        }
        let (on_prologue, on_startup, on_dead, on_pose, on_time_cycle, on_time_up) =
            match read_hooks(&mut reader, &header, Ghost(allowed), Ghost(list)) {
            Ok(hooks) => hooks,
            Err(e) => {
                return Err(e);
            },
        };
        let mut i: usize = 0;
        while i < objects.len()
            invariant
                reader.wf(),
                reader.spec_complete(),
                reader.bytes@ == bytes@,
                reader.roots@.subset_of(allowed),
                reader.roots@ == spec_roots_upto(list, 6 + i),
                list == spec_event_list(view),
                allowed == spec_event_roots(view),
                spec_read_tables(bytes@) == Ok::<TablesView, Error>(view),
                i <= objects@.len(),
                objects@.len() == view.objects.len(),
                events@ == view.events,
                events@.len() == objects@.len(),
                forall|k: int|
                    0 <= k < objects@.len() ==> (#[trigger] objects@[k]) == (Object {
                        script: objects@[k].script,
                        ..view.objects[k]
                    }),
                forall|k: int|
                    0 <= k < i ==> spec_event_of(
                        reader.script@,
                        reader.spec_spans(),
                        events@[k],
                        (#[trigger] objects@[k]).script,
                    ),
                spec_hooks_of(
                    reader.script@,
                    reader.spec_spans(),
                    header,
                    on_prologue,
                    on_startup,
                    on_dead,
                    on_pose,
                    on_time_cycle,
                    on_time_up,
                ),
            decreases objects@.len() - i,
        {
            let ghost before_s = reader.script@;
            let ghost before_spans = reader.spec_spans();
            let ghost before_objects = objects@;
            proof {
                if events@[i as int] != 0 {
                    assert(view.events[i as int] == events@[i as int]);
                    assert(allowed.contains(events@[i as int] as int));
                }
                assert(list[6 + i] == events@[i as int]);
                lemma_roots_next(list, 6 + i);
            }
            let event = match read_hook(&mut reader, hook_from_raw(events[i]), Ghost(allowed)) {
                Ok(id) => id,
                Err(e) => {
                    assert(spec_stops_at(bytes@, list, 6 + i, e));
                    return Err(e);
                },
            };
            objects[i].script = event;
            proof {
                assert forall|k: int| 0 <= k < i + 1 implies spec_event_of(
                    reader.script@,
                    reader.spec_spans(),
                    events@[k],
                    (#[trigger] objects@[k]).script,
                ) by {
                    if k < i {
                        assert(objects@[k] == before_objects[k]);
                        lemma_event_kept(
                            before_s,
                            before_spans,
                            reader.script@,
                            reader.spec_spans(),
                            events@[k],
                            before_objects[k].script,
                        );
                    }
                }
                assert forall|k: int| 0 <= k < objects@.len() implies (#[trigger] objects@[k]) == (
                Object { script: objects@[k].script, ..view.objects[k] }) by {
                    if k != i {
                        assert(objects@[k] == before_objects[k]);
                    } else {
                        assert(before_objects[k] == (Object {
                            script: before_objects[k].script,
                            ..view.objects[k]
                        }));
                    }
                }
                lemma_hooks_kept(
                    before_s,
                    before_spans,
                    reader.script@,
                    reader.spec_spans(),
                    header,
                    on_prologue,
                    on_startup,
                    on_dead,
                    on_pose,
                    on_time_cycle,
                    on_time_up,
                );
            }
            i += 1;
        }
        let ghost spans = reader.spec_spans();
        let ghost covered = reader.covered@;
        let ghost roots = reader.roots@;
        let script = match reader.finish() {
            Ok(script) => script,
            Err(e) => {
                return Err(e);
            },
        };
        let stage = Stage {
            objects,
            actors,
            script,
            on_prologue,
            on_startup,
            on_dead,
            on_pose,
            on_time_cycle,
            on_time_up,
            settings,
            unk_28,
            unk_2c,
            unk_30,
        };
        proof {
            lemma_inv_more_roots(bytes@, stage.script@, spans, covered, roots, allowed, -1);
            assert(spec_inv(bytes@, stage.script@, spans, covered, allowed, -1));
            assert forall|r: int| #[trigger] allowed.contains(r) implies exists|k: int|
                0 <= k < stage.script@.len() && (#[trigger] spans[k]).start == r
                    && stage.script@[k] is Code by {
                if exists|k: int| 0 <= k < view.events.len() && #[trigger] view.events[k] == r {
                    let k = choose|k: int| 0 <= k < view.events.len() && #[trigger] view.events[k] == r;
                    assert(spec_event_of(stage.script@, spans, events@[k], stage.objects@[k].script));
                    let id = stage.objects@[k].script->0;
                    assert(spans[id.index as int].start == r);
                } else {
                    lemma_hook_rooted(
                        stage.script@,
                        spans,
                        header,
                        on_prologue,
                        on_startup,
                        on_dead,
                        on_pose,
                        on_time_cycle,
                        on_time_up,
                        r,
                    );
                }
            }
            assert(spec_decoded(bytes@, stage.script@, spans, allowed));
            assert(stage.spec_read_as(bytes@, spans));
        }
        Ok(stage)
    }
}

/// Reads the tables of a stage file, each at the offset that the header
/// gives for it.
pub fn read_tables(bytes: &[u8]) -> (r: Result<Tables, Error>)
    ensures
        match r {
            Ok(tables) => spec_read_tables(bytes@) == Ok::<TablesView, Error>(tables@)
                && tables.header.wf(),
            Err(e) => spec_read_tables(bytes@) == Err::<TablesView, Error>(e),
        },
{
    let header = match Header::read_from(bytes) {
        Ok(header) => header,
        Err(e) => {
            return Err(e);
        },
    };
    let settings = match Settings::read_from(bytes, header.settings_offset as usize) {
        Ok(settings) => settings,
        Err(e) => {
            return Err(e);
        },
    };
    let objects = match read_list::<Object>(bytes, header.objects_offset as usize) {
        Ok((objects, _)) => objects,
        Err(e) => {
            return Err(e);
        },
    };
    let events = match EventTable::read_from(bytes, header.events_offset as usize, objects.len()) {
        Ok(table) => table.entry_points,
        Err(e) => {
            return Err(e);
        },
    };
    let actors = match read_list::<Actor>(bytes, header.actors_offset as usize) {
        Ok((actors, _)) => actors,
        Err(e) => {
            return Err(e);
        },
    };
    let unk_28 = match read_optional_list::<Unk28>(bytes, header.unk_28_offset) {
        Ok(items) => items,
        Err(e) => {
            return Err(e);
        },
    };
    let unk_2c = match read_optional_list::<Unk2C>(bytes, header.unk_2c_offset) {
        Ok(items) => items,
        Err(e) => {
            return Err(e);
        },
    };
    let unk_30 = match read_optional_list::<Unk28>(bytes, header.unk_30_offset) {
        Ok(items) => items,
        Err(e) => {
            return Err(e);
        },
    };
    Ok(Tables { header, settings, objects, events, actors, unk_28, unk_2c, unk_30 })
}

/// Decodes the six events of a stage, in the order in which the header
/// names them.
fn read_hooks(
    reader: &mut ScriptReader,
    header: &Header,
    Ghost(allowed): Ghost<Set<int>>,
    Ghost(list): Ghost<Seq<u32>>,
) -> (r: Result<
    (
        Option<BlockId>,
        Option<BlockId>,
        Option<BlockId>,
        Option<BlockId>,
        Option<BlockId>,
        Option<BlockId>,
    ),
    Error,
>)
    requires
        old(reader).wf(),
        old(reader).spec_complete(),
        old(reader).roots@.subset_of(allowed),
        old(reader).roots@ == spec_roots_upto(list, 0),
        list.len() >= 6,
        list[0] == spec_hook_raw(header.on_prologue),
        list[1] == spec_hook_raw(header.on_startup),
        list[2] == spec_hook_raw(header.on_dead),
        list[3] == spec_hook_raw(header.on_pose),
        list[4] == spec_hook_raw(header.on_time_cycle),
        list[5] == spec_hook_raw(header.on_time_up),
        header.wf(),
        forall|raw: u32|
            raw != 0 && ({
                ||| raw == spec_hook_raw(header.on_prologue)
                ||| raw == spec_hook_raw(header.on_startup)
                ||| raw == spec_hook_raw(header.on_dead)
                ||| raw == spec_hook_raw(header.on_pose)
                ||| raw == spec_hook_raw(header.on_time_cycle)
                ||| raw == spec_hook_raw(header.on_time_up)
            }) ==> allowed.contains(raw as int),
    ensures
        final(reader).bytes == old(reader).bytes,
        match r {
            Ok(hooks) => {
                &&& final(reader).wf()
                &&& final(reader).spec_complete()
                &&& final(reader).roots@.subset_of(allowed)
                &&& final(reader).roots@ == spec_roots_upto(list, 6)
                &&& spec_hooks_of(
                    final(reader).script@,
                    final(reader).spec_spans(),
                    *header,
                    hooks.0,
                    hooks.1,
                    hooks.2,
                    hooks.3,
                    hooks.4,
                    hooks.5,
                )
            },
            Err(e) => spec_script_error(old(reader).bytes@, allowed, e) && exists|k: int| #[trigger]
                spec_stops_at(old(reader).bytes@, list, k, e),
        },
{
    proof {
        lemma_roots_next(list, 0);
        lemma_roots_next(list, 1);
        lemma_roots_next(list, 2);
        lemma_roots_next(list, 3);
        lemma_roots_next(list, 4);
        lemma_roots_next(list, 5);
    }
    let on_prologue = match read_hook(reader, header.on_prologue, Ghost(allowed)) {
        Ok(id) => id,
        Err(e) => {
            assert(spec_stops_at(reader.bytes@, list, 0, e));
            return Err(e);
        },
    };
    let ghost blocks1 = reader.script@;
    let ghost places1 = reader.spec_spans();
    let on_startup = match read_hook(reader, header.on_startup, Ghost(allowed)) {
        Ok(id) => id,
        Err(e) => {
            assert(spec_stops_at(reader.bytes@, list, 1, e));
            return Err(e);
        },
    };
    let ghost blocks2 = reader.script@;
    let ghost places2 = reader.spec_spans();
    let on_dead = match read_hook(reader, header.on_dead, Ghost(allowed)) {
        Ok(id) => id,
        Err(e) => {
            assert(spec_stops_at(reader.bytes@, list, 2, e));
            return Err(e);
        },
    };
    let ghost blocks3 = reader.script@;
    let ghost places3 = reader.spec_spans();
    let on_pose = match read_hook(reader, header.on_pose, Ghost(allowed)) {
        Ok(id) => id,
        Err(e) => {
            assert(spec_stops_at(reader.bytes@, list, 3, e));
            return Err(e);
        },
    };
    let ghost blocks4 = reader.script@;
    let ghost places4 = reader.spec_spans();
    let on_time_cycle = match read_hook(reader, header.on_time_cycle, Ghost(allowed)) {
        Ok(id) => id,
        Err(e) => {
            assert(spec_stops_at(reader.bytes@, list, 4, e));
            return Err(e);
        },
    };
    let ghost blocks5 = reader.script@;
    let ghost places5 = reader.spec_spans();
    let on_time_up = match read_hook(reader, header.on_time_up, Ghost(allowed)) {
        Ok(id) => id,
        Err(e) => {
            assert(spec_stops_at(reader.bytes@, list, 5, e));
            return Err(e);
        },
    };
    proof {
        let blocks6 = reader.script@;
        let places6 = reader.spec_spans();
        let raw = spec_hook_raw(header.on_prologue);
        lemma_event_kept(blocks1, places1, blocks2, places2, raw, on_prologue);
        lemma_event_kept(blocks2, places2, blocks3, places3, raw, on_prologue);
        lemma_event_kept(blocks3, places3, blocks4, places4, raw, on_prologue);
        lemma_event_kept(blocks4, places4, blocks5, places5, raw, on_prologue);
        lemma_event_kept(blocks5, places5, blocks6, places6, raw, on_prologue);
        let raw = spec_hook_raw(header.on_startup);
        lemma_event_kept(blocks2, places2, blocks3, places3, raw, on_startup);
        lemma_event_kept(blocks3, places3, blocks4, places4, raw, on_startup);
        lemma_event_kept(blocks4, places4, blocks5, places5, raw, on_startup);
        lemma_event_kept(blocks5, places5, blocks6, places6, raw, on_startup);
        let raw = spec_hook_raw(header.on_dead);
        lemma_event_kept(blocks3, places3, blocks4, places4, raw, on_dead);
        lemma_event_kept(blocks4, places4, blocks5, places5, raw, on_dead);
        lemma_event_kept(blocks5, places5, blocks6, places6, raw, on_dead);
        let raw = spec_hook_raw(header.on_pose);
        lemma_event_kept(blocks4, places4, blocks5, places5, raw, on_pose);
        lemma_event_kept(blocks5, places5, blocks6, places6, raw, on_pose);
        let raw = spec_hook_raw(header.on_time_cycle);
        lemma_event_kept(blocks5, places5, blocks6, places6, raw, on_time_cycle);
    }
    Ok((on_prologue, on_startup, on_dead, on_pose, on_time_cycle, on_time_up))
}

/// Whether the six events of a stage are what was decoded for the offsets
/// in the header.
pub open spec fn spec_hooks_of(
    s: Seq<BlockView>,
    spans: Seq<SpanView>,
    header: Header,
    on_prologue: Option<BlockId>,
    on_startup: Option<BlockId>,
    on_dead: Option<BlockId>,
    on_pose: Option<BlockId>,
    on_time_cycle: Option<BlockId>,
    on_time_up: Option<BlockId>,
) -> bool {
    &&& spec_event_of(s, spans, spec_hook_raw(header.on_prologue), on_prologue)
    &&& spec_event_of(s, spans, spec_hook_raw(header.on_startup), on_startup)
    &&& spec_event_of(s, spans, spec_hook_raw(header.on_dead), on_dead)
    &&& spec_event_of(s, spans, spec_hook_raw(header.on_pose), on_pose)
    &&& spec_event_of(s, spans, spec_hook_raw(header.on_time_cycle), on_time_cycle)
    &&& spec_event_of(s, spans, spec_hook_raw(header.on_time_up), on_time_up)
}

/// A code block starts at the offset that the header gives for an event.
pub proof fn lemma_hook_rooted(
    s: Seq<BlockView>,
    spans: Seq<SpanView>,
    header: Header,
    on_prologue: Option<BlockId>,
    on_startup: Option<BlockId>,
    on_dead: Option<BlockId>,
    on_pose: Option<BlockId>,
    on_time_cycle: Option<BlockId>,
    on_time_up: Option<BlockId>,
    r: int,
)
    requires
        spec_hooks_of(
            s,
            spans,
            header,
            on_prologue,
            on_startup,
            on_dead,
            on_pose,
            on_time_cycle,
            on_time_up,
        ),
        r != 0,
        ({
            ||| r == spec_hook_raw(header.on_prologue)
            ||| r == spec_hook_raw(header.on_startup)
            ||| r == spec_hook_raw(header.on_dead)
            ||| r == spec_hook_raw(header.on_pose)
            ||| r == spec_hook_raw(header.on_time_cycle)
            ||| r == spec_hook_raw(header.on_time_up)
        }),
    ensures
        exists|k: int| 0 <= k < s.len() && (#[trigger] spans[k]).start == r && s[k] is Code,
{
    let id = if r == spec_hook_raw(header.on_prologue) {
        on_prologue->0
    } else if r == spec_hook_raw(header.on_startup) {
        on_startup->0
    } else if r == spec_hook_raw(header.on_dead) {
        on_dead->0
    } else if r == spec_hook_raw(header.on_pose) {
        on_pose->0
    } else if r == spec_hook_raw(header.on_time_cycle) {
        on_time_cycle->0
    } else {
        on_time_up->0
    };
    assert(spans[id.index as int].start == r);
}

/// An event that was decoded stays what it is while more is decoded.
pub proof fn lemma_event_kept(
    s: Seq<BlockView>,
    spans: Seq<SpanView>,
    s2: Seq<BlockView>,
    spans2: Seq<SpanView>,
    raw: u32,
    id: Option<BlockId>,
)
    requires
        crate::event::reader::spec_extends(s, spans, s2, spans2),
        spec_event_of(s, spans, raw, id),
    ensures
        spec_event_of(s2, spans2, raw, id),
{
    if let Some(id) = id {
        assert(spans2[id.index as int].start == spans[id.index as int].start);
    }
}

/// The events of a stage stay what they are while more is decoded.
pub proof fn lemma_hooks_kept(
    s: Seq<BlockView>,
    spans: Seq<SpanView>,
    s2: Seq<BlockView>,
    spans2: Seq<SpanView>,
    header: Header,
    on_prologue: Option<BlockId>,
    on_startup: Option<BlockId>,
    on_dead: Option<BlockId>,
    on_pose: Option<BlockId>,
    on_time_cycle: Option<BlockId>,
    on_time_up: Option<BlockId>,
)
    requires
        crate::event::reader::spec_extends(s, spans, s2, spans2),
        spec_hooks_of(
            s,
            spans,
            header,
            on_prologue,
            on_startup,
            on_dead,
            on_pose,
            on_time_cycle,
            on_time_up,
        ),
    ensures
        spec_hooks_of(
            s2,
            spans2,
            header,
            on_prologue,
            on_startup,
            on_dead,
            on_pose,
            on_time_cycle,
            on_time_up,
        ),
{
    lemma_event_kept(s, spans, s2, spans2, spec_hook_raw(header.on_prologue), on_prologue);
    lemma_event_kept(s, spans, s2, spans2, spec_hook_raw(header.on_startup), on_startup);
    lemma_event_kept(s, spans, s2, spans2, spec_hook_raw(header.on_dead), on_dead);
    lemma_event_kept(s, spans, s2, spans2, spec_hook_raw(header.on_pose), on_pose);
    lemma_event_kept(s, spans, s2, spans2, spec_hook_raw(header.on_time_cycle), on_time_cycle);
    lemma_event_kept(s, spans, s2, spans2, spec_hook_raw(header.on_time_up), on_time_up);
}

/// Reads the list at an optional offset: the list that stands there, or
/// the empty list where there is no offset.
pub fn read_optional_list<T: Record>(bytes: &[u8], offset: Option<u32>) -> (r: Result<Vec<T>, Error>)
    ensures
        match r {
            Ok(items) => spec_optional_list::<T>(bytes@, offset) == Ok::<Seq<T>, Error>(items@),
            Err(e) => spec_optional_list::<T>(bytes@, offset) == Err::<Seq<T>, Error>(e),
        },
{
    match offset {
        Some(at) => match read_list::<T>(bytes, at as usize) {
            Ok((items, _)) => Ok(items),
            Err(e) => Err(e),
        },
        None => Ok(Vec::new()),
    }
}

/// Decodes the event at an optional offset. Nothing is decoded where there
/// is no offset.
fn read_hook(reader: &mut ScriptReader, hook: Option<u32>, Ghost(allowed): Ghost<Set<int>>) -> (r:
    Result<Option<BlockId>, Error>)
    requires
        old(reader).wf(),
        old(reader).spec_complete(),
        old(reader).roots@.subset_of(allowed),
        hook matches Some(offset) ==> offset != 0 && allowed.contains(offset as int),
    ensures
        final(reader).bytes == old(reader).bytes,
        crate::event::reader::spec_extends(
            old(reader).script@,
            old(reader).spec_spans(),
            final(reader).script@,
            final(reader).spec_spans(),
        ),
        match r {
            Ok(id) => {
                &&& final(reader).wf()
                &&& final(reader).spec_complete()
                &&& final(reader).roots@.subset_of(allowed)
                &&& final(reader).roots@ == if spec_hook_raw(hook) != 0 {
                    old(reader).roots@.insert(spec_hook_raw(hook) as int)
                } else {
                    old(reader).roots@
                }
                &&& spec_event_of(
                    final(reader).script@,
                    final(reader).spec_spans(),
                    spec_hook_raw(hook),
                    id,
                )
            },
            Err(e) => {
                &&& spec_script_error(old(reader).bytes@, allowed, e)
                &&& spec_hook_raw(hook) != 0
                &&& spec_script_error(
                    old(reader).bytes@,
                    old(reader).roots@.insert(spec_hook_raw(hook) as int),
                    e,
                )
                &&& forall|e2: Error| !#[trigger] spec_script_error(old(reader).bytes@, old(reader).roots@, e2)
            },
        },
{
    proof {
        assert forall|e2: Error| !#[trigger] spec_script_error(reader.bytes@, reader.roots@, e2) by {
            reader.lemma_complete_accepts(e2);
        }
    }
    match hook {
        Some(offset) => match reader.read_event(offset) {
            Ok(id) => Ok(Some(id)),
            Err(e) => {
                proof {
                    lemma_refused_more(
                        reader.bytes@,
                        old(reader).roots@.insert(offset as int),
                        allowed,
                        e,
                    );
                }
                Err(e)
            },
        },
        None => Ok(None),
    }
}

/// The bytes of a trailing table: nothing for an empty table, else the
/// list with its sentinel.
pub open spec fn spec_optional_bytes<T: Record>(items: Seq<T>) -> Seq<u8> {
    if items.len() == 0 {
        Seq::empty()
    } else {
        spec_list_bytes(items)
    }
}

/// An event table of `n` entries without an event.
pub open spec fn spec_no_events(n: nat) -> Seq<u32> {
    Seq::new(n, |i: int| 0u32)
}

/// A header with every field zero or absent.
pub open spec fn spec_empty_header() -> Header {
    Header {
        settings_offset: 0,
        objects_offset: 0,
        events_offset: 0,
        on_prologue: None,
        on_startup: None,
        on_dead: None,
        on_pose: None,
        on_time_cycle: None,
        on_time_up: None,
        actors_offset: 0,
        unk_28_offset: None,
        unk_2c_offset: None,
        unk_30_offset: None,
    }
}

/// The offset stored for an event: `0` for none, else the offset at which
/// the event's first block was written.
pub open spec fn spec_event_raw(offsets: Seq<u32>, event: Option<BlockId>) -> u32 {
    match event {
        None => 0,
        Some(id) => offsets[id.index as int],
    }
}

/// Whether an event is absent or names a block of the script.
pub open spec fn spec_event_valid(s: Seq<BlockView>, event: Option<BlockId>) -> bool {
    match event {
        None => true,
        Some(id) => id.index < s.len(),
    }
}

/// Whether an event names a data block, which cannot be run.
pub open spec fn spec_is_data_event(s: Seq<BlockView>, event: Option<BlockId>) -> bool {
    event matches Some(id) && s[id.index as int] is Data
}

/// Whether `raw` is the offset stored for an event that was written: `0`
/// for none, else the offset of the event's first block, which is not `0`.
pub open spec fn spec_event_written(offsets: Seq<u32>, event: Option<BlockId>, raw: u32) -> bool {
    raw == spec_event_raw(offsets, event) && (event is Some ==> raw != 0)
}

/// An event that was written stays written when more offsets are assigned.
pub proof fn lemma_event_written_kept(
    offsets: Seq<u32>,
    offsets2: Seq<u32>,
    event: Option<BlockId>,
    raw: u32,
)
    requires
        spec_event_written(offsets, event, raw),
        event matches Some(id) ==> id.index < offsets.len(),
        offsets.len() == offsets2.len(),
        forall|b: int| 0 <= b < offsets.len() && offsets[b] != 0 ==> offsets2[b] == offsets[b],
    ensures
        spec_event_written(offsets2, event, raw),
{
}

impl Stage {
    /// Whether the stage can be written: every reference in its script
    /// leads to a block of the script and to one of the right kind, and so
    /// does every event of the stage and of its objects.
    pub open spec fn wf(&self) -> bool {
        &&& spec_consistent(self.script@)
        &&& spec_event_valid(self.script@, self.on_prologue)
        &&& spec_event_valid(self.script@, self.on_startup)
        &&& spec_event_valid(self.script@, self.on_dead)
        &&& spec_event_valid(self.script@, self.on_pose)
        &&& spec_event_valid(self.script@, self.on_time_cycle)
        &&& spec_event_valid(self.script@, self.on_time_up)
        &&& forall|i: int|
            0 <= i < self.objects@.len() ==> spec_event_valid(
                self.script@,
                (#[trigger] self.objects@[i]).script,
            )
    }

    /// Whether an event of the stage or of one of its objects names a data
    /// block.
    pub open spec fn spec_has_data_event(&self) -> bool {
        ||| spec_is_data_event(self.script@, self.on_prologue)
        ||| spec_is_data_event(self.script@, self.on_startup)
        ||| spec_is_data_event(self.script@, self.on_dead)
        ||| spec_is_data_event(self.script@, self.on_pose)
        ||| spec_is_data_event(self.script@, self.on_time_cycle)
        ||| spec_is_data_event(self.script@, self.on_time_up)
        ||| exists|i: int|
            0 <= i < self.objects@.len() && spec_is_data_event(
                self.script@,
                (#[trigger] self.objects@[i]).script,
            )
    }

    /// Checks that the stage can be written.
    pub fn is_valid(&self) -> (r: bool)
        ensures
            r == self.wf(),
    {
        if !is_consistent(&self.script) {
            return false;
        }
        if !(event_valid(&self.script, self.on_prologue) && event_valid(
            &self.script,
            self.on_startup,
        ) && event_valid(&self.script, self.on_dead) && event_valid(&self.script, self.on_pose)
            && event_valid(&self.script, self.on_time_cycle) && event_valid(
            &self.script,
            self.on_time_up,
        )) {
            return false;
        }
        let mut i: usize = 0;
        while i < self.objects.len()
            invariant
                i <= self.objects@.len(),
                forall|k: int|
                    0 <= k < i ==> spec_event_valid(self.script@, (#[trigger] self.objects@[k]).script),
            decreases self.objects@.len() - i,
        {
            if !event_valid(&self.script, self.objects[i].script) {
                return false;
            }
            i += 1;
        }
        true
    }

    /// The bytes of the tables of the stage, from the start of the file up
    /// to the script, with the given header and event table.
    pub open spec fn spec_tables_bytes(&self, header: Header, events: Seq<u32>) -> Seq<u8> {
        header.spec_bytes() + self.settings.spec_bytes() + spec_list_bytes(self.objects@)
            + spec_event_table_bytes(events) + spec_list_bytes(self.actors@) + spec_optional_bytes(
            self.unk_28@,
        ) + spec_optional_bytes(self.unk_2c@) + spec_optional_bytes(self.unk_30@)
    }

    /// The bytes of the tables as they are written first: with a header
    /// that holds only zeros and an event table without an event.
    pub open spec fn spec_blank_tables(&self) -> Seq<u8> {
        self.spec_tables_bytes(spec_empty_header(), spec_no_events(self.objects@.len()))
    }

    /// Where the event table stands in the file.
    pub open spec fn spec_events_at(&self) -> int {
        EXPECTED_OBJECTS_OFFSET + spec_list_bytes(self.objects@).len()
    }

    /// Where the actors stand in the file.
    pub open spec fn spec_actors_at(&self) -> int {
        self.spec_events_at() + 4 * self.objects@.len() + 4
    }

    /// Where the first trailing table stands in the file, if it has records.
    pub open spec fn spec_unk_28_at(&self) -> int {
        self.spec_actors_at() + spec_list_bytes(self.actors@).len()
    }

    /// Where the second trailing table stands in the file, if it has records.
    pub open spec fn spec_unk_2c_at(&self) -> int {
        self.spec_unk_28_at() + spec_optional_bytes(self.unk_28@).len()
    }

    /// Where the third trailing table stands in the file, if it has records.
    pub open spec fn spec_unk_30_at(&self) -> int {
        self.spec_unk_2c_at() + spec_optional_bytes(self.unk_2c@).len()
    }

    /// Where the script starts in the file.
    pub open spec fn spec_script_at(&self) -> int {
        self.spec_unk_30_at() + spec_optional_bytes(self.unk_30@).len()
    }

    /// The header that says where the tables of the stage stand, without
    /// any event.
    pub open spec fn spec_table_header(&self) -> Header {
        Header {
            settings_offset: EXPECTED_SETTINGS_OFFSET,
            objects_offset: EXPECTED_OBJECTS_OFFSET,
            events_offset: self.spec_events_at() as u32,
            on_prologue: None,
            on_startup: None,
            on_dead: None,
            on_pose: None,
            on_time_cycle: None,
            on_time_up: None,
            actors_offset: self.spec_actors_at() as u32,
            unk_28_offset: if self.unk_28@.len() == 0 {
                None
            } else {
                Some(self.spec_unk_28_at() as u32)
            },
            unk_2c_offset: if self.unk_2c@.len() == 0 {
                None
            } else {
                Some(self.spec_unk_2c_at() as u32)
            },
            unk_30_offset: if self.unk_30@.len() == 0 {
                None
            } else {
                Some(self.spec_unk_30_at() as u32)
            },
        }
    }

    /// Whether `header` and `events` say where the events of the stage were
    /// written, `offsets` holding the offset of each written block.
    pub open spec fn spec_events_written(
        &self,
        offsets: Seq<u32>,
        header: Header,
        events: Seq<u32>,
    ) -> bool {
        &&& header.wf()
        &&& header == (Header {
            on_prologue: header.on_prologue,
            on_startup: header.on_startup,
            on_dead: header.on_dead,
            on_pose: header.on_pose,
            on_time_cycle: header.on_time_cycle,
            on_time_up: header.on_time_up,
            ..self.spec_table_header()
        })
        &&& spec_event_written(offsets, self.on_prologue, spec_hook_raw(header.on_prologue))
        &&& spec_event_written(offsets, self.on_startup, spec_hook_raw(header.on_startup))
        &&& spec_event_written(offsets, self.on_dead, spec_hook_raw(header.on_dead))
        &&& spec_event_written(offsets, self.on_pose, spec_hook_raw(header.on_pose))
        &&& spec_event_written(offsets, self.on_time_cycle, spec_hook_raw(header.on_time_cycle))
        &&& spec_event_written(offsets, self.on_time_up, spec_hook_raw(header.on_time_up))
        &&& events.len() == self.objects@.len()
        &&& forall|i: int|
            0 <= i < events.len() ==> spec_event_written(
                offsets,
                self.objects@[i].script,
                #[trigger] events[i],
            )
    }

    /// The events of the stage in the order in which they are written:
    /// the six events of the stage as the header names them, then the
    /// events of the objects.
    pub open spec fn spec_events_of(&self) -> Seq<Option<BlockId>> {
        seq![
            self.on_prologue,
            self.on_startup,
            self.on_dead,
            self.on_pose,
            self.on_time_cycle,
            self.on_time_up,
        ] + Seq::new(self.objects@.len(), |i: int| self.objects@[i].script)
    }

    /// Whether `states` tells how the script of the stage is laid out in
    /// its file: it starts right behind the tables with no block written,
    /// and each event in its turn appends the blocks that it needs and that
    /// are not written yet, one right behind the other. The last state
    /// holds the offset of every written block and the length of the file.
    pub open spec fn spec_laid_out(&self, states: Seq<(Seq<u32>, int)>) -> bool {
        &&& spec_steps(self.script@, states, self.spec_events_of())
        &&& states[0] == (Seq::new(self.script@.len(), |b: int| 0u32), self.spec_script_at())
    }

    /// Whether writing the script of the stage stops at the event at place
    /// `k`: the events in front of it are written, `states` telling how,
    /// and that event cannot be.
    pub open spec fn spec_stops_at(&self, states: Seq<(Seq<u32>, int)>, k: int) -> bool {
        &&& 0 <= k < self.spec_events_of().len()
        &&& spec_steps(self.script@, states, self.spec_events_of().subrange(0, k))
        &&& states[0] == (Seq::new(self.script@.len(), |b: int| 0u32), self.spec_script_at())
        &&& spec_event_stuck(self.script@, states[k], self.spec_events_of()[k])
    }

    /// Whether `out` is the file of the stage: the tables stand at the
    /// start, in their order, the header saying where each stands; behind
    /// them stands the script, each written block at its offset and no two
    /// of them in the same place; and the header and the event table hold
    /// the offset of each event, or `0` where there is none.
    pub open spec fn spec_written_as(
        &self,
        out: Seq<u8>,
        header: Header,
        events: Seq<u32>,
        offsets: Seq<u32>,
    ) -> bool {
        &&& self.spec_script_at() <= out.len()
        &&& out.subrange(0, self.spec_script_at()) == self.spec_tables_bytes(header, events)
        &&& self.spec_events_written(offsets, header, events)
        &&& offsets.len() == self.script@.len()
        &&& spec_stored_apart(self.script@, offsets)
        &&& forall|b: int|
            0 <= b < offsets.len() && #[trigger] offsets[b] != 0 ==> {
                &&& offsets[b] >= self.spec_script_at()
                &&& spec_block_written(self.script@, offsets, out, b)
                &&& spec_refs_written(self.script@, offsets, b)
            }
    }

    /// Writes the tables of the stage to the empty buffer `out`, with a
    /// header and an event table that hold nothing yet. Returns the header
    /// that says where the tables stand. A table that starts beyond the
    /// 32-bit range is an invalid header; `out` then holds the tables that
    /// stand in front of it.
    fn write_tables(&self, out: &mut Vec<u8>) -> (r: Result<Header, Error>)
        requires
            old(out)@.len() == 0,
        ensures
            match r {
                Ok(header) => {
                    &&& header == self.spec_table_header()
                    &&& header.wf()
                    &&& self.spec_unk_30_at() <= u32::MAX
                    &&& final(out)@ == self.spec_tables_bytes(
                        spec_empty_header(),
                        spec_no_events(self.objects@.len()),
                    )
                    &&& final(out)@.len() == self.spec_script_at()
                },
                Err(e) => {
                    &&& e == Error::InvalidHeader
                    &&& self.spec_unk_30_at() > u32::MAX
                    &&& final(out)@.len() <= self.spec_blank_tables().len()
                    &&& final(out)@ == self.spec_blank_tables().subrange(0, final(out)@.len() as int)
                },
            },
    {
        let ghost blank = self.spec_blank_tables();
        let mut header = Header::empty();
        header.write_to(out);
        header.settings_offset = EXPECTED_SETTINGS_OFFSET;
        self.settings.write_to(out);
        header.objects_offset = EXPECTED_OBJECTS_OFFSET;
        write_list(&self.objects, out);
        let n = self.objects.len();
        proof {
            lemma_bytes_len(0);
        }
        if out.len() > 0xffff_ffff || n > 0x3fff_fff0 {
            assert(out@ =~= blank.subrange(0, out@.len() as int));
            return Err(Error::InvalidHeader);
        }
        header.events_offset = out.len() as u32;
        let mut entry_points: Vec<u32> = Vec::new();
        let mut i: usize = 0;
        while i < n
            invariant
                i <= n,
                entry_points@.len() == i,
                forall|k: int| 0 <= k < i ==> entry_points@[k] == 0,
            decreases n - i,
        {
            entry_points.push(0);
            i += 1;
        }
        assert(entry_points@ =~= spec_no_events(n as nat));
        let events = EventTable { entry_points };
        events.write_to(out);
        proof {
            lemma_event_table_len(events.entry_points@);
        }
        if out.len() > 0xffff_ffff {
            assert(out@ =~= blank.subrange(0, out@.len() as int));
            return Err(Error::InvalidHeader);
        }
        header.actors_offset = out.len() as u32;
        write_list(&self.actors, out);
        if out.len() > 0xffff_ffff {
            assert(out@ =~= blank.subrange(0, out@.len() as int));
            return Err(Error::InvalidHeader);
        }
        if self.unk_28.len() > 0 {
            header.unk_28_offset = Some(out.len() as u32);
            write_list(&self.unk_28, out);
        }
        if out.len() > 0xffff_ffff {
            assert(out@ =~= blank.subrange(0, out@.len() as int));
            return Err(Error::InvalidHeader);
        }
        if self.unk_2c.len() > 0 {
            header.unk_2c_offset = Some(out.len() as u32);
            write_list(&self.unk_2c, out);
        }
        if out.len() > 0xffff_ffff {
            assert(out@ =~= blank.subrange(0, out@.len() as int));
            return Err(Error::InvalidHeader);
        }
        if self.unk_30.len() > 0 {
            header.unk_30_offset = Some(out.len() as u32);
            write_list(&self.unk_30, out);
        }
        proof {
            assert(out@ =~= self.spec_tables_bytes(
                spec_empty_header(),
                spec_no_events(self.objects@.len()),
            ));
        }
        Ok(header)
    }
}

/// How many bytes an event table takes: four for each entry and four for
/// the closing `-1`.
pub proof fn lemma_event_table_len(entry_points: Seq<u32>)
    ensures
        spec_event_table_bytes(entry_points).len() == 4 * entry_points.len() + 4,
{
    lemma_bytes_len(crate::wire::spec_pattern32(-1));
}

/// Checks that an event is absent or names a block of the script.
pub fn event_valid(script: &Script, event: Option<BlockId>) -> (r: bool)
    ensures
        r == spec_event_valid(script@, event),
{
    match event {
        None => true,
        Some(id) => script.contains(id),
    }
}

/// For each block of a script the number of references that lead to it, as
/// far as a machine word can hold it.
pub open spec fn spec_incoming_counts(s: Seq<BlockView>) -> Seq<usize> {
    Seq::new(s.len(), |b: int| spec_clip(spec_incoming(s, b)))
}

/// Whether writing `event` takes a stream of `before.1` bytes with the
/// offsets `before.0` to one of `after.1` bytes with the offsets `after.0`:
/// nothing changes where there is no event or where its block is in the
/// stream already; otherwise the blocks that the event needs and that had
/// no offset are appended, the event's block first and the code blocks in
/// front of the data blocks, one right behind the other.
#[verifier::opaque]
pub open spec fn spec_event_step(
    s: Seq<BlockView>,
    before: (Seq<u32>, int),
    event: Option<BlockId>,
    after: (Seq<u32>, int),
) -> bool {
    if event is Some && before.0[event->0.index as int] == 0 {
        exists|order: Seq<usize>| #[trigger]
            spec_planned(
                s,
                before.0,
                spec_incoming_counts(s),
                before.1,
                event->0.index as int,
                order,
                after.0,
            ) && after.1 == before.1 + spec_layout_len(
                s,
                order,
                spec_incoming_counts(s),
                true,
                order.len() as int,
            ) + spec_layout_len(s, order, spec_incoming_counts(s), false, order.len() as int)
    } else {
        after == before
    }
}

/// Whether `event` cannot be written into a stream of `before.1` bytes
/// with the offsets `before.0`: it names a data block, or its block is not
/// in the stream yet and a block that it needs would start beyond the
/// 32-bit range or is a data block too long for its length field.
pub open spec fn spec_event_stuck(s: Seq<BlockView>, before: (Seq<u32>, int), event: Option<BlockId>) -> bool {
    event matches Some(id) && (s[id.index as int] is Data || (before.0[id.index as int] == 0 && (
    before.1 > u32::MAX || spec_overflows(
        s,
        spec_discovery(s, spec_written_mask(before.0), seq![id.index]),
        spec_incoming_counts(s),
        before.1,
    ))))
}

/// Without an event nothing changes.
pub proof fn lemma_no_step(s: Seq<BlockView>, state: (Seq<u32>, int))
    ensures
        spec_event_step(s, state, None, state),
{
    reveal(spec_event_step);
}

/// What writing a subroutine made of the writer's state is the step of an
/// event that starts there.
pub proof fn lemma_wrote_step(before: &ScriptWriter, after: &ScriptWriter, entry: BlockId, offset: u32)
    requires
        before.incoming@ == spec_incoming_counts(before.script@),
        entry.index < before.offsets@.len(),
        before.offsets@[entry.index as int] != 0 ==> after.out@ == before.out@ && after.offsets@
            == before.offsets@,
        before.offsets@[entry.index as int] == 0 ==> exists|order: Seq<usize>| #[trigger]
            ScriptWriter::spec_laid_out(before, after, entry.index as int, order),
    ensures
        spec_event_step(
            before.script@,
            (before.offsets@, before.out@.len() as int),
            Some(entry),
            (after.offsets@, after.out@.len() as int),
        ),
{
    reveal(spec_event_step);
    let s = before.script@;
    let inc = spec_incoming_counts(s);
    let first = (before.offsets@, before.out@.len() as int);
    let second = (after.offsets@, after.out@.len() as int);
    if before.offsets@[entry.index as int] == 0 {
        let order = choose|order: Seq<usize>| #[trigger]
            ScriptWriter::spec_laid_out(before, after, entry.index as int, order);
        assert(spec_planned(s, first.0, inc, first.1, entry.index as int, order, second.0));
        assert(second.1 == first.1 + spec_layout_len(s, order, inc, true, order.len() as int)
            + spec_layout_len(s, order, inc, false, order.len() as int));
    } else {
        assert(second == first);
    }
}

/// Writing an event has one outcome, and an event that is written is not
/// one that cannot be: its block is a code block, and every block that it
/// needs got its place.
pub proof fn lemma_step_fixed(
    s: Seq<BlockView>,
    before: (Seq<u32>, int),
    event: Option<BlockId>,
    one: (Seq<u32>, int),
    other: (Seq<u32>, int),
)
    requires
        before.0.len() == s.len(),
        event matches Some(id) ==> id.index < s.len() && s[id.index as int] is Code,
        spec_event_step(s, before, event, one),
        spec_event_step(s, before, event, other),
    ensures
        one == other,
        one.0.len() == s.len(),
        !spec_event_stuck(s, before, event),
{
    reveal(spec_event_step);
    if event is Some && before.0[event->0.index as int] == 0 {
        let entry = event->0.index as int;
        let inc = spec_incoming_counts(s);
        let o1 = choose|order: Seq<usize>| #[trigger]
            spec_planned(s, before.0, inc, before.1, entry, order, one.0) && one.1 == before.1
                + spec_layout_len(s, order, inc, true, order.len() as int) + spec_layout_len(
                s,
                order,
                inc,
                false,
                order.len() as int,
            );
        let o2 = choose|order: Seq<usize>| #[trigger]
            spec_planned(s, before.0, inc, before.1, entry, order, other.0) && other.1 == before.1
                + spec_layout_len(s, order, inc, true, order.len() as int) + spec_layout_len(
                s,
                order,
                inc,
                false,
                order.len() as int,
            );
        assert(o1 == o2);
        assert forall|b: int| 0 <= b < s.len() implies one.0[b] == other.0[b] by {
            if exists|k: int| 0 <= k < o1.len() && #[trigger] o1[k] == b {
                let k = choose|k: int| 0 <= k < o1.len() && #[trigger] o1[k] == b;
                assert(one.0[o1[k] as int] == spec_position(s, o1, inc, before.1, k));
                assert(other.0[o1[k] as int] == spec_position(s, o1, inc, before.1, k));
            } else {
                assert(one.0[b] == before.0[b]);
                assert(other.0[b] == before.0[b]);
            }
        }
        assert(one.0 =~= other.0);
        assert(one.0[o1[0] as int] == spec_position(s, o1, inc, before.1, 0));
        assert(before.1 <= u32::MAX);
    }
}

/// Whether `states` holds the offsets and the length of the stream in
/// front of each of `events` and behind the last of them, the events
/// written in their order.
pub open spec fn spec_steps(
    s: Seq<BlockView>,
    states: Seq<(Seq<u32>, int)>,
    events: Seq<Option<BlockId>>,
) -> bool {
    &&& states.len() == events.len() + 1
    &&& forall|k: int|
        0 <= k < events.len() ==> spec_event_step(s, states[k], #[trigger] events[k], states[k + 1])
}

/// One more event written makes one more step.
pub proof fn lemma_steps_push(
    s: Seq<BlockView>,
    states: Seq<(Seq<u32>, int)>,
    events: Seq<Option<BlockId>>,
    event: Option<BlockId>,
    after: (Seq<u32>, int),
)
    requires
        spec_steps(s, states, events),
        spec_event_step(s, states.last(), event, after),
    ensures
        spec_steps(s, states.push(after), events.push(event)),
{
    let states2 = states.push(after);
    let events2 = events.push(event);
    assert forall|k: int| 0 <= k < events2.len() implies spec_event_step(
        s,
        states2[k],
        #[trigger] events2[k],
        states2[k + 1],
    ) by {
        if k < events.len() {
            assert(spec_event_step(s, states[k], events[k], states[k + 1]));
        }
    }
}

/// Whether the writer went on from a state in which the stream held
/// `base` bytes, `before`, and no block had an offset below `base`: the
/// stream still starts with those bytes, and still no block has.
#[verifier::opaque]
pub open spec fn spec_behind(writer: &ScriptWriter, before: Seq<u8>) -> bool {
    &&& writer.wf()
    &&& writer.base == before.len()
    &&& 0 < before.len() <= writer.out@.len()
    &&& writer.out@.subrange(0, before.len() as int) == before
    &&& forall|b: int|
        0 <= b < writer.offsets@.len() && #[trigger] writer.offsets@[b] != 0 ==> writer.offsets@[b]
            >= before.len()
}

/// Writes an event, if there is one, and returns the offset to store for
/// it: `0` for none.
fn write_hook(
    writer: &mut ScriptWriter,
    event: Option<BlockId>,
    Ghost(before): Ghost<Seq<u8>>,
    Ghost(script): Ghost<Seq<BlockView>>,
) -> (r: Result<u32, Error>)
    requires
        spec_behind(old(writer), before),
        old(writer).script@ == script,
        old(writer).offsets@.len() == script.len(),
        spec_event_valid(script, event),
    ensures
        final(writer).script == old(writer).script,
        final(writer).script@ == script,
        final(writer).offsets@.len() == script.len(),
        spec_behind(final(writer), before),
        match r {
            Ok(raw) => {
                &&& !spec_is_data_event(script, event)
                &&& spec_event_step(
                    script,
                    (old(writer).offsets@, old(writer).out@.len() as int),
                    event,
                    (final(writer).offsets@, final(writer).out@.len() as int),
                )
                &&& spec_event_written(final(writer).offsets@, event, raw)
                &&& forall|b: int|
                    0 <= b < script.len() && old(writer).offsets@[b] != 0 ==> final(writer).offsets@[b]
                        == old(writer).offsets@[b]
            },
            Err(e) => e == Error::InvalidHeader && (spec_is_data_event(script, event)
                || before.len() + spec_script_size(script) > u32::MAX) && spec_event_stuck(
                script,
                (old(writer).offsets@, old(writer).out@.len() as int),
                event,
            ) && final(writer).out@ == old(writer).out@ && final(writer).offsets@ == old(
                writer,
            ).offsets@,
        },
{
    reveal(spec_behind);
    proof {
        assert(writer.incoming@ =~= spec_incoming_counts(script));
    }
    match event {
        None => {
            proof {
                lemma_no_step(script, (writer.offsets@, writer.out@.len() as int));
            }
            Ok(0)
        },
        Some(id) => {
            let ghost old_out = writer.out@;
            match writer.write_subroutine(id) {
                Ok(offset) => {
                    proof {
                        assert(writer.out@.subrange(0, before.len() as int) =~= old_out.subrange(
                            0,
                            before.len() as int,
                        ));
                        assert(old(writer).incoming@ =~= spec_incoming_counts(script));
                        lemma_wrote_step(old(writer), writer, id, offset);
                    }
                    Ok(offset)
                },
                Err(e) => {
                    proof {
                        assert(writer.out@.subrange(0, before.len() as int) =~= old_out.subrange(
                            0,
                            before.len() as int,
                        ));
                    }
                    Err(e)
                },
            }
        },
    }
}

/// Where the tables of a file end, and what follows them, after the header
/// and the event table were overwritten: the new header and the new event
/// table stand in the place of the old ones, everything else is as it was.
pub proof fn lemma_patched_tables(
    h0: Seq<u8>,
    st: Seq<u8>,
    ob: Seq<u8>,
    e0: Seq<u8>,
    ac: Seq<u8>,
    u1: Seq<u8>,
    u2: Seq<u8>,
    u3: Seq<u8>,
    rest: Seq<u8>,
    h1: Seq<u8>,
    e1: Seq<u8>,
)
    requires
        h0.len() == h1.len(),
        e0.len() == e1.len(),
    ensures
        ({
            let old_tables = h0 + st + ob + e0 + ac + u1 + u2 + u3;
            let new_tables = h1 + st + ob + e1 + ac + u1 + u2 + u3;
            let out = old_tables + rest;
            let patched = spec_patched(
                spec_patched(out, 0, h1),
                (h0.len() + st.len() + ob.len()) as int,
                e1,
            );
            &&& patched.len() == out.len()
            &&& patched.subrange(0, old_tables.len() as int) == new_tables
            &&& new_tables.len() == old_tables.len()
        }),
{
    let old_tables = h0 + st + ob + e0 + ac + u1 + u2 + u3;
    let new_tables = h1 + st + ob + e1 + ac + u1 + u2 + u3;
    let out = old_tables + rest;
    let first = spec_patched(out, 0, h1);
    let patched = spec_patched(first, (h0.len() + st.len() + ob.len()) as int, e1);
    assert(first.len() == out.len());
    assert(patched.len() == out.len());
    assert(patched.subrange(0, old_tables.len() as int) =~= new_tables);
}

impl Stage {
    /// Writes the events of the stage: the six events of the stage in
    /// the order in which the header names them, then the events of the
    /// objects in their order. Returns the header with the offsets of the
    /// six events filled in, and the event table of the objects.
    fn write_events(&self, writer: &mut ScriptWriter, header: Header) -> (r: Result<
        (Header, Vec<u32>, Ghost<Seq<(Seq<u32>, int)>>),
        Error,
    >)
        requires
            self.wf(),
            old(writer).wf(),
            old(writer).script@ == self.script@,
            header == self.spec_table_header(),
            header.wf(),
            old(writer).base == old(writer).out@.len(),
            old(writer).out@.len() > 0,
            old(writer).out@.len() == self.spec_script_at(),
            forall|b: int| 0 <= b < old(writer).offsets@.len() ==> old(writer).offsets@[b] == 0,
        ensures
            final(writer).script == old(writer).script,
            spec_behind(final(writer), old(writer).out@),
            match r {
                Ok((header, events, states)) => {
                    &&& !self.spec_has_data_event()
                    &&& self.spec_events_written(final(writer).offsets@, header, events@)
                    &&& self.spec_laid_out(states@)
                    &&& states@.last() == (final(writer).offsets@, final(writer).out@.len() as int)
                },
                Err(e) => e == Error::InvalidHeader
                    && (self.spec_has_data_event()
                        || old(writer).out@.len() + spec_script_size(self.script@) > u32::MAX)
                    && exists|states: Seq<(Seq<u32>, int)>, k: int| #[trigger]
                        self.spec_stops_at(states, k) && states[k] == (
                            final(writer).offsets@,
                            final(writer).out@.len() as int,
                        ),
            },
    {
        let ghost before = writer.out@;
        assert(spec_behind(writer, before)) by {
            reveal(spec_behind);
            assert(writer.out@.subrange(0, before.len() as int) =~= before);
        }
        assert(writer.offsets@.len() == self.script@.len());
        let ghost mut states: Seq<(Seq<u32>, int)> = seq![(writer.offsets@, writer.out@.len() as int)];
        let ghost mut done: Seq<Option<BlockId>> = Seq::empty();
        let ghost all = self.spec_events_of();
        proof {
            assert(writer.offsets@ =~= Seq::new(self.script@.len(), |b: int| 0u32));
            assert(spec_steps(self.script@, states, done));
        }
        let mut header = header;
        let on_prologue = match write_hook(writer, self.on_prologue, Ghost(before), Ghost(self.script@)) {
            Ok(raw) => raw,
            Err(e) => {
                assert(spec_is_data_event(self.script@, self.on_prologue) ==> self.spec_has_data_event());
                assert(done =~= all.subrange(0, 0));
                assert(self.spec_stops_at(states, 0) && states[0] == (
                    writer.offsets@,
                    writer.out@.len() as int,
                ));
                return Err(e);
            },
        };
        let ghost offsets1 = writer.offsets@;
        proof {
            let after = (writer.offsets@, writer.out@.len() as int);
            lemma_steps_push(self.script@, states, done, self.on_prologue, after);
            states = states.push(after);
            done = done.push(self.on_prologue);
        }
        let on_startup = match write_hook(writer, self.on_startup, Ghost(before), Ghost(self.script@)) {
            Ok(raw) => raw,
            Err(e) => {
                assert(spec_is_data_event(self.script@, self.on_startup) ==> self.spec_has_data_event());
                assert(done =~= all.subrange(0, 1));
                assert(self.spec_stops_at(states, 1) && states[1] == (
                    writer.offsets@,
                    writer.out@.len() as int,
                ));
                return Err(e);
            },
        };
        let ghost offsets2 = writer.offsets@;
        proof {
            let after = (writer.offsets@, writer.out@.len() as int);
            lemma_steps_push(self.script@, states, done, self.on_startup, after);
            states = states.push(after);
            done = done.push(self.on_startup);
        }
        let on_dead = match write_hook(writer, self.on_dead, Ghost(before), Ghost(self.script@)) {
            Ok(raw) => raw,
            Err(e) => {
                assert(spec_is_data_event(self.script@, self.on_dead) ==> self.spec_has_data_event());
                assert(done =~= all.subrange(0, 2));
                assert(self.spec_stops_at(states, 2) && states[2] == (
                    writer.offsets@,
                    writer.out@.len() as int,
                ));
                return Err(e);
            },
        };
        let ghost offsets3 = writer.offsets@;
        proof {
            let after = (writer.offsets@, writer.out@.len() as int);
            lemma_steps_push(self.script@, states, done, self.on_dead, after);
            states = states.push(after);
            done = done.push(self.on_dead);
        }
        let on_pose = match write_hook(writer, self.on_pose, Ghost(before), Ghost(self.script@)) {
            Ok(raw) => raw,
            Err(e) => {
                assert(spec_is_data_event(self.script@, self.on_pose) ==> self.spec_has_data_event());
                assert(done =~= all.subrange(0, 3));
                assert(self.spec_stops_at(states, 3) && states[3] == (
                    writer.offsets@,
                    writer.out@.len() as int,
                ));
                return Err(e);
            },
        };
        let ghost offsets4 = writer.offsets@;
        proof {
            let after = (writer.offsets@, writer.out@.len() as int);
            lemma_steps_push(self.script@, states, done, self.on_pose, after);
            states = states.push(after);
            done = done.push(self.on_pose);
        }
        let on_time_cycle = match write_hook(writer, self.on_time_cycle, Ghost(before), Ghost(self.script@)) {
            Ok(raw) => raw,
            Err(e) => {
                assert(spec_is_data_event(self.script@, self.on_time_cycle) ==> self.spec_has_data_event());
                assert(done =~= all.subrange(0, 4));
                assert(self.spec_stops_at(states, 4) && states[4] == (
                    writer.offsets@,
                    writer.out@.len() as int,
                ));
                return Err(e);
            },
        };
        let ghost offsets5 = writer.offsets@;
        proof {
            let after = (writer.offsets@, writer.out@.len() as int);
            lemma_steps_push(self.script@, states, done, self.on_time_cycle, after);
            states = states.push(after);
            done = done.push(self.on_time_cycle);
        }
        let on_time_up = match write_hook(writer, self.on_time_up, Ghost(before), Ghost(self.script@)) {
            Ok(raw) => raw,
            Err(e) => {
                assert(spec_is_data_event(self.script@, self.on_time_up) ==> self.spec_has_data_event());
                assert(done =~= all.subrange(0, 5));
                assert(self.spec_stops_at(states, 5) && states[5] == (
                    writer.offsets@,
                    writer.out@.len() as int,
                ));
                return Err(e);
            },
        };
        let ghost offsets6 = writer.offsets@;
        proof {
            let after = (writer.offsets@, writer.out@.len() as int);
            lemma_steps_push(self.script@, states, done, self.on_time_up, after);
            states = states.push(after);
            done = done.push(self.on_time_up);
        }
        proof {
            lemma_event_written_kept(offsets1, offsets2, self.on_prologue, on_prologue);
            lemma_event_written_kept(offsets2, offsets3, self.on_prologue, on_prologue);
            lemma_event_written_kept(offsets3, offsets4, self.on_prologue, on_prologue);
            lemma_event_written_kept(offsets4, offsets5, self.on_prologue, on_prologue);
            lemma_event_written_kept(offsets5, offsets6, self.on_prologue, on_prologue);
            lemma_event_written_kept(offsets2, offsets3, self.on_startup, on_startup);
            lemma_event_written_kept(offsets3, offsets4, self.on_startup, on_startup);
            lemma_event_written_kept(offsets4, offsets5, self.on_startup, on_startup);
            lemma_event_written_kept(offsets5, offsets6, self.on_startup, on_startup);
            lemma_event_written_kept(offsets3, offsets4, self.on_dead, on_dead);
            lemma_event_written_kept(offsets4, offsets5, self.on_dead, on_dead);
            lemma_event_written_kept(offsets5, offsets6, self.on_dead, on_dead);
            lemma_event_written_kept(offsets4, offsets5, self.on_pose, on_pose);
            lemma_event_written_kept(offsets5, offsets6, self.on_pose, on_pose);
            lemma_event_written_kept(offsets5, offsets6, self.on_time_cycle, on_time_cycle);
        }
        header.on_prologue = hook_from_raw(on_prologue);
        header.on_startup = hook_from_raw(on_startup);
        header.on_dead = hook_from_raw(on_dead);
        header.on_pose = hook_from_raw(on_pose);
        header.on_time_cycle = hook_from_raw(on_time_cycle);
        header.on_time_up = hook_from_raw(on_time_up);
        let mut events: Vec<u32> = Vec::new();
        let mut i: usize = 0;
        while i < self.objects.len()
            invariant
                self.wf(),
                writer.script == old(writer).script,
                writer.script@ == self.script@,
                writer.offsets@.len() == self.script@.len(),
                before == old(writer).out@,
                spec_behind(writer, before),
                i <= self.objects@.len(),
                events@.len() == i,
                all == self.spec_events_of(),
                spec_steps(self.script@, states, done),
                states.last() == (writer.offsets@, writer.out@.len() as int),
                states[0] == (Seq::new(self.script@.len(), |b: int| 0u32), self.spec_script_at()),
                done.len() == 6 + i,
                forall|k: int| 0 <= k < 6 + i ==> done[k] == all[k],
                forall|k: int|
                    0 <= k < i ==> !spec_is_data_event(self.script@, (#[trigger] self.objects@[k]).script),
                forall|k: int|
                    0 <= k < i ==> spec_event_written(
                        writer.offsets@,
                        self.objects@[k].script,
                        #[trigger] events@[k],
                    ),
                spec_event_written(writer.offsets@, self.on_prologue, on_prologue),
                spec_event_written(writer.offsets@, self.on_startup, on_startup),
                spec_event_written(writer.offsets@, self.on_dead, on_dead),
                spec_event_written(writer.offsets@, self.on_pose, on_pose),
                spec_event_written(writer.offsets@, self.on_time_cycle, on_time_cycle),
                spec_event_written(writer.offsets@, self.on_time_up, on_time_up),
            decreases self.objects@.len() - i,
        {
            let ghost o_before = writer.offsets@;
            let ghost events_before = events@;
            let raw = match write_hook(writer, self.objects[i].script, Ghost(before), Ghost(self.script@)) {
                Ok(raw) => raw,
                Err(e) => {
                    assert(spec_is_data_event(self.script@, self.objects@[i as int].script)
                        ==> self.spec_has_data_event());
                    assert(done =~= all.subrange(0, 6 + i));
                    assert(all[6 + i] == self.objects@[i as int].script);
                    assert(self.spec_stops_at(states, 6 + i) && states[6 + i] == (
                        writer.offsets@,
                        writer.out@.len() as int,
                    ));
                    return Err(e);
                },
            };
            events.push(raw);
            proof {
                let after = (writer.offsets@, writer.out@.len() as int);
                lemma_steps_push(self.script@, states, done, self.objects@[i as int].script, after);
                states = states.push(after);
                done = done.push(self.objects@[i as int].script);
                assert(all[6 + i] == self.objects@[i as int].script);
                let o_after = writer.offsets@;
                lemma_event_written_kept(o_before, o_after, self.on_prologue, on_prologue);
                lemma_event_written_kept(o_before, o_after, self.on_startup, on_startup);
                lemma_event_written_kept(o_before, o_after, self.on_dead, on_dead);
                lemma_event_written_kept(o_before, o_after, self.on_pose, on_pose);
                lemma_event_written_kept(o_before, o_after, self.on_time_cycle, on_time_cycle);
                lemma_event_written_kept(o_before, o_after, self.on_time_up, on_time_up);
                assert forall|k: int| 0 <= k < i + 1 implies spec_event_written(
                    writer.offsets@,
                    self.objects@[k].script,
                    #[trigger] events@[k],
                ) by {
                    if k < i {
                        assert(events@[k] == events_before[k]);
                        lemma_event_written_kept(
                            o_before,
                            o_after,
                            self.objects@[k].script,
                            events_before[k],
                        );
                    }
                }
            }
            i += 1;
        }
        proof {
            assert(done =~= all);
        }
        Ok((header, events, Ghost(states)))
    }

    /// Writes the stage as a file to the empty buffer `out`: the tables,
    /// then the script, the header and the event table holding the offset
    /// of each event that was written. The script starts right behind the
    /// tables; each event in its turn appends the blocks that it needs and
    /// that are not in the file yet, so the file ends behind the last of
    /// them.
    ///
    /// Writing fails with an invalid header where a table starts beyond
    /// the 32-bit range, where an event names a data block, or where
    /// an offset in the script would not fit into 32 bits; the last cannot
    /// happen where the tables and all blocks of the script together stay
    /// within that range. The events are written in their order, and the
    /// first that cannot be written ends the writing. `out` then holds what
    /// was written up to there:
    /// where a table starts too far, the tables in front of it; otherwise
    /// all tables, with a header of zeros and an event table without an
    /// event, and behind them the blocks of the events that were written
    /// before the one that failed, and nothing else.
    pub fn write_to(&self, out: &mut Vec<u8>) -> (r: Result<(), Error>)
        requires
            self.wf(),
            old(out)@.len() == 0,
        ensures
            match r {
                Ok(()) => {
                    &&& self.spec_unk_30_at() <= u32::MAX
                    &&& !self.spec_has_data_event()
                    &&& exists|
                        header: Header,
                        events: Seq<u32>,
                        offsets: Seq<u32>,
                        states: Seq<(Seq<u32>, int)>,
                    |
                        #[trigger] self.spec_written_as(final(out)@, header, events, offsets)
                            && #[trigger] self.spec_laid_out(states) && states.last() == (
                            offsets,
                            final(out)@.len() as int,
                        )
                },
                Err(e) => {
                    &&& e == Error::InvalidHeader
                    &&& {
                        ||| self.spec_unk_30_at() > u32::MAX
                        ||| self.spec_has_data_event()
                        ||| self.spec_script_at() + spec_script_size(self.script@) > u32::MAX
                    }
                    &&& if self.spec_unk_30_at() > u32::MAX {
                        &&& final(out)@.len() <= self.spec_blank_tables().len()
                        &&& final(out)@ == self.spec_blank_tables().subrange(0, final(out)@.len() as int)
                    } else {
                        &&& final(out)@.len() >= self.spec_script_at()
                        &&& final(out)@.subrange(0, self.spec_script_at()) == self.spec_blank_tables()
                        &&& exists|states: Seq<(Seq<u32>, int)>, k: int| #[trigger]
                            self.spec_stops_at(states, k) && states[k].1 == final(out)@.len() && (
                            forall|b: int|
                                0 <= b < self.script@.len() && #[trigger] states[k].0[b] != 0
                                    ==> spec_block_written(self.script@, states[k].0, final(out)@, b))
                    }
                },
            },
    {
        let table_header = match self.write_tables(out) {
            Ok(header) => header,
            Err(e) => {
                return Err(e);
            },
        };
        let mut buf: Vec<u8> = Vec::new();
        core::mem::swap(&mut buf, out);
        let ghost tables0 = buf@;
        let mut writer = ScriptWriter::new(&self.script, buf);
        let (header, events, Ghost(states)) = match self.write_events(&mut writer, table_header) {
            Ok(written) => written,
            Err(e) => {
                proof {
                    reveal(spec_behind);
                }
                let mut buf = writer.finish();
                core::mem::swap(&mut buf, out);
                return Err(e);
            },
        };
        let ghost offsets = writer.offsets@;
        let ghost script = self.script@;
        reveal(spec_behind);
        assert(writer.wf());
        let mut buf = writer.finish();
        let ghost written = buf@;
        let mut head: Vec<u8> = Vec::new();
        header.write_to(&mut head);
        let table = EventTable { entry_points: events };
        let mut tail: Vec<u8> = Vec::new();
        proof {
            lemma_event_table_len(table.entry_points@);
            lemma_event_table_len(spec_no_events(self.objects@.len()));
            lemma_bytes_len(0);
        }
        table.write_to(&mut tail);
        assert(head@ =~= header.spec_bytes());
        assert(tail@ =~= spec_event_table_bytes(table.entry_points@));
        patch(&mut buf, 0, head.as_slice());
        patch(&mut buf, header.events_offset as usize, tail.as_slice());
        proof {
            let h0 = spec_empty_header().spec_bytes();
            let st = self.settings.spec_bytes();
            let ob = spec_list_bytes(self.objects@);
            let e0 = spec_event_table_bytes(spec_no_events(self.objects@.len()));
            let ac = spec_list_bytes(self.actors@);
            let u1 = spec_optional_bytes(self.unk_28@);
            let u2 = spec_optional_bytes(self.unk_2c@);
            let u3 = spec_optional_bytes(self.unk_30@);
            let rest = written.subrange(tables0.len() as int, written.len() as int);
            assert(written =~= tables0 + rest);
            lemma_patched_tables(h0, st, ob, e0, ac, u1, u2, u3, rest, head@, tail@);
            let first = spec_patched(written, 0, head@);
            assert forall|b: int| 0 <= b < offsets.len() && #[trigger] offsets[b] != 0 implies {
                &&& offsets[b] >= self.spec_script_at()
                &&& spec_block_written(script, offsets, buf@, b)
                &&& spec_refs_written(script, offsets, b)
            } by {
                lemma_written_behind_patch(script, offsets, written, 0, head@, b);
                lemma_written_behind_patch(
                    script,
                    offsets,
                    first,
                    header.events_offset as int,
                    tail@,
                    b,
                );
            }
            assert(self.spec_written_as(buf@, header, table.entry_points@, offsets));
            assert(states.last() == (offsets, buf@.len() as int));
        }
        core::mem::swap(&mut buf, out);
        Ok(())
    }
}

impl Header {
    /// A header that holds the expected offsets is read back as it was
    /// written.
    pub proof fn lemma_read_written(&self, bytes: Seq<u8>)
        requires
            spec_holds_at(bytes, 0, self.spec_bytes()),
            self.wf(),
            self.settings_offset == EXPECTED_SETTINGS_OFFSET,
            self.objects_offset == EXPECTED_OBJECTS_OFFSET,
        ensures
            spec_read_header(bytes) == Ok::<Header, Error>(*self),
            self.spec_bytes().len() == HEADER_SIZE,
    {
        lemma_bytes_len(self.settings_offset as int);
        lemma_bytes_len(self.objects_offset as int);
        lemma_bytes_len(self.events_offset as int);
        lemma_bytes_len(spec_hook_raw(self.on_prologue) as int);
        lemma_bytes_len(spec_hook_raw(self.on_startup) as int);
        lemma_bytes_len(spec_hook_raw(self.on_dead) as int);
        lemma_bytes_len(spec_hook_raw(self.on_pose) as int);
        lemma_bytes_len(spec_hook_raw(self.on_time_cycle) as int);
        lemma_bytes_len(spec_hook_raw(self.on_time_up) as int);
        lemma_bytes_len(self.actors_offset as int);
        lemma_bytes_len(spec_hook_raw(self.unk_28_offset) as int);
        lemma_bytes_len(spec_hook_raw(self.unk_2c_offset) as int);
        lemma_bytes_len(spec_hook_raw(self.unk_30_offset) as int);
        let run0 = spec_bytes_u32_le(self.settings_offset);
        let run1 = run0 + spec_bytes_u32_le(self.objects_offset);
        let run2 = run1 + spec_bytes_u32_le(self.events_offset);
        let run3 = run2 + spec_bytes_u32_le(spec_hook_raw(self.on_prologue));
        let run4 = run3 + spec_bytes_u32_le(spec_hook_raw(self.on_startup));
        let run5 = run4 + spec_bytes_u32_le(spec_hook_raw(self.on_dead));
        let run6 = run5 + spec_bytes_u32_le(spec_hook_raw(self.on_pose));
        let run7 = run6 + spec_bytes_u32_le(spec_hook_raw(self.on_time_cycle));
        let run8 = run7 + spec_bytes_u32_le(spec_hook_raw(self.on_time_up));
        let run9 = run8 + spec_bytes_u32_le(self.actors_offset);
        let run10 = run9 + spec_bytes_u32_le(spec_hook_raw(self.unk_28_offset));
        let run11 = run10 + spec_bytes_u32_le(spec_hook_raw(self.unk_2c_offset));
        let run12 = run11 + spec_bytes_u32_le(spec_hook_raw(self.unk_30_offset));
        lemma_holds_split(bytes, 0, run11, spec_bytes_u32_le(spec_hook_raw(self.unk_30_offset)));
        lemma_holds_split(bytes, 0, run10, spec_bytes_u32_le(spec_hook_raw(self.unk_2c_offset)));
        lemma_holds_split(bytes, 0, run9, spec_bytes_u32_le(spec_hook_raw(self.unk_28_offset)));
        lemma_holds_split(bytes, 0, run8, spec_bytes_u32_le(self.actors_offset));
        lemma_holds_split(bytes, 0, run7, spec_bytes_u32_le(spec_hook_raw(self.on_time_up)));
        lemma_holds_split(bytes, 0, run6, spec_bytes_u32_le(spec_hook_raw(self.on_time_cycle)));
        lemma_holds_split(bytes, 0, run5, spec_bytes_u32_le(spec_hook_raw(self.on_pose)));
        lemma_holds_split(bytes, 0, run4, spec_bytes_u32_le(spec_hook_raw(self.on_dead)));
        lemma_holds_split(bytes, 0, run3, spec_bytes_u32_le(spec_hook_raw(self.on_startup)));
        lemma_holds_split(bytes, 0, run2, spec_bytes_u32_le(spec_hook_raw(self.on_prologue)));
        lemma_holds_split(bytes, 0, run1, spec_bytes_u32_le(self.events_offset));
        lemma_holds_split(bytes, 0, run0, spec_bytes_u32_le(self.objects_offset));
        lemma_read_held_u32_le(bytes, 0, self.settings_offset);
        lemma_read_held_u32_le(bytes, 4, self.objects_offset);
        lemma_read_held_u32_le(bytes, 8, self.events_offset);
        lemma_read_held_u32_le(bytes, 12, spec_hook_raw(self.on_prologue));
        lemma_read_held_u32_le(bytes, 16, spec_hook_raw(self.on_startup));
        lemma_read_held_u32_le(bytes, 20, spec_hook_raw(self.on_dead));
        lemma_read_held_u32_le(bytes, 24, spec_hook_raw(self.on_pose));
        lemma_read_held_u32_le(bytes, 28, spec_hook_raw(self.on_time_cycle));
        lemma_read_held_u32_le(bytes, 32, spec_hook_raw(self.on_time_up));
        lemma_read_held_u32_le(bytes, 36, self.actors_offset);
        lemma_read_held_u32_le(bytes, 40, spec_hook_raw(self.unk_28_offset));
        lemma_read_held_u32_le(bytes, 44, spec_hook_raw(self.unk_2c_offset));
        lemma_read_held_u32_le(bytes, 48, spec_hook_raw(self.unk_30_offset));
    }
}

impl Settings {
    /// Settings are read back as they were written.
    pub proof fn lemma_read_written(&self, bytes: Seq<u8>, at: int)
        requires
            spec_holds_at(bytes, at, self.spec_bytes()),
        ensures
            spec_read_settings(bytes, at) == Ok::<Settings, Error>(*self),
            self.spec_bytes().len() == SETTINGS_SIZE,
    {
        lemma_bytes_len(spec_pattern32(self.unk_00 as int));
        lemma_bytes_len(spec_pattern16(self.unk_06 as int));
        lemma_bytes_len(spec_pattern16(self.item_flags_base as int));
        lemma_bytes_len(spec_pattern16(self.coin_flags_base as int));
        lemma_bytes_len(spec_pattern16(self.dust_flags_base as int));
        lemma_bytes_len(spec_pattern16(self.unk_10 as int));
        lemma_bytes_len(spec_pattern16(self.unk_12 as int));
        let run0 = spec_bytes_i32_be(self.unk_00);
        let run1 = run0 + seq![self.unk_04];
        let run2 = run1 + seq![self.unk_05];
        let run3 = run2 + spec_bytes_i16_be(self.unk_06);
        let run4 = run3 + seq![self.unk_08];
        let run5 = run4 + seq![self.unk_09];
        let run6 = run5 + spec_bytes_i16_be(self.item_flags_base);
        let run7 = run6 + spec_bytes_i16_be(self.coin_flags_base);
        let run8 = run7 + spec_bytes_i16_be(self.dust_flags_base);
        let run9 = run8 + spec_bytes_i16_be(self.unk_10);
        let run10 = run9 + spec_bytes_i16_be(self.unk_12);
        lemma_holds_split(bytes, at, run9, spec_bytes_i16_be(self.unk_12));
        lemma_holds_split(bytes, at, run8, spec_bytes_i16_be(self.unk_10));
        lemma_holds_split(bytes, at, run7, spec_bytes_i16_be(self.dust_flags_base));
        lemma_holds_split(bytes, at, run6, spec_bytes_i16_be(self.coin_flags_base));
        lemma_holds_split(bytes, at, run5, spec_bytes_i16_be(self.item_flags_base));
        lemma_holds_split(bytes, at, run4, seq![self.unk_09]);
        lemma_holds_split(bytes, at, run3, seq![self.unk_08]);
        lemma_holds_split(bytes, at, run2, spec_bytes_i16_be(self.unk_06));
        lemma_holds_split(bytes, at, run1, seq![self.unk_05]);
        lemma_holds_split(bytes, at, run0, seq![self.unk_04]);
        lemma_read_held_i32_be(bytes, at, self.unk_00);
        lemma_read_held_u8(bytes, at + 4, self.unk_04);
        lemma_read_held_u8(bytes, at + 5, self.unk_05);
        lemma_read_held_i16_be(bytes, at + 6, self.unk_06);
        lemma_read_held_u8(bytes, at + 8, self.unk_08);
        lemma_read_held_u8(bytes, at + 9, self.unk_09);
        lemma_read_held_i16_be(bytes, at + 10, self.item_flags_base);
        lemma_read_held_i16_be(bytes, at + 12, self.coin_flags_base);
        lemma_read_held_i16_be(bytes, at + 14, self.dust_flags_base);
        lemma_read_held_i16_be(bytes, at + 16, self.unk_10);
        lemma_read_held_i16_be(bytes, at + 18, self.unk_12);
    }
}

/// A trailing table is read back as it was written: nothing where there
/// is no offset, else the list that stands at the offset.
pub proof fn lemma_optional_read_back<T: Record>(
    bytes: Seq<u8>,
    at: int,
    items: Seq<T>,
    offset: Option<u32>,
)
    requires
        spec_holds_at(bytes, at, spec_optional_bytes(items)),
        forall|i: int| 0 <= i < items.len() ==> (#[trigger] items[i]).spec_first() != NONE_SENTINEL,
        offset == (if items.len() == 0 {
            None::<u32>
        } else {
            Some(at as u32)
        }),
        0 <= at <= u32::MAX,
    ensures
        spec_optional_list::<T>(bytes, offset) == Ok::<Seq<T>, Error>(spec_stored_items(items)),
{
    if items.len() == 0 {
        assert(spec_stored_items(items) =~= Seq::<T>::empty());
    } else {
        lemma_list_written::<T>(bytes, at, items);
    }
}

/// Where eight parts joined stand at the start of a stream, each part
/// stands behind the parts in front of it.
pub proof fn lemma_parts_held(
    out: Seq<u8>,
    hb: Seq<u8>,
    st: Seq<u8>,
    ob: Seq<u8>,
    eb: Seq<u8>,
    ac: Seq<u8>,
    u1: Seq<u8>,
    u2: Seq<u8>,
    u3: Seq<u8>,
)
    requires
        spec_holds_at(out, 0, hb + st + ob + eb + ac + u1 + u2 + u3),
    ensures
        spec_holds_at(out, 0, hb),
        spec_holds_at(out, hb.len() as int, st),
        spec_holds_at(out, (hb.len() + st.len()) as int, ob),
        spec_holds_at(out, (hb.len() + st.len() + ob.len()) as int, eb),
        spec_holds_at(out, (hb.len() + st.len() + ob.len() + eb.len()) as int, ac),
        spec_holds_at(out, (hb.len() + st.len() + ob.len() + eb.len() + ac.len()) as int, u1),
        spec_holds_at(
            out,
            (hb.len() + st.len() + ob.len() + eb.len() + ac.len() + u1.len()) as int,
            u2,
        ),
        spec_holds_at(
            out,
            (hb.len() + st.len() + ob.len() + eb.len() + ac.len() + u1.len() + u2.len()) as int,
            u3,
        ),
{
    lemma_holds_split(out, 0, hb + st + ob + eb + ac + u1 + u2, u3);
    lemma_holds_split(out, 0, hb + st + ob + eb + ac + u1, u2);
    lemma_holds_split(out, 0, hb + st + ob + eb + ac, u1);
    lemma_holds_split(out, 0, hb + st + ob + eb, ac);
    lemma_holds_split(out, 0, hb + st + ob, eb);
    lemma_holds_split(out, 0, hb + st, ob);
    lemma_holds_split(out, 0, hb, st);
}

impl Stage {
    /// Whether no record of the stage begins with the sentinel that ends a
    /// list. A record that does cannot be stored in a list.
    pub open spec fn spec_storable(&self) -> bool {
        &&& forall|i: int|
            0 <= i < self.objects@.len() ==> (#[trigger] self.objects@[i]).spec_first() != NONE_SENTINEL
        &&& forall|i: int|
            0 <= i < self.actors@.len() ==> (#[trigger] self.actors@[i]).spec_first() != NONE_SENTINEL
        &&& forall|i: int|
            0 <= i < self.unk_28@.len() ==> (#[trigger] self.unk_28@[i]).spec_first() != NONE_SENTINEL
        &&& forall|i: int|
            0 <= i < self.unk_2c@.len() ==> (#[trigger] self.unk_2c@[i]).spec_first() != NONE_SENTINEL
        &&& forall|i: int|
            0 <= i < self.unk_30@.len() ==> (#[trigger] self.unk_30@[i]).spec_first() != NONE_SENTINEL
    }

    /// The tables of a stage that was written are read back as they were
    /// written: the settings and all records as they are, the objects
    /// without their events, and the header and the event table as they
    /// stand in the file. No record may begin with the sentinel, and no
    /// event may stand at the offset whose pattern closes the event table.
    pub proof fn lemma_tables_read_back(
        &self,
        out: Seq<u8>,
        header: Header,
        events: Seq<u32>,
        offsets: Seq<u32>,
    )
        requires
            self.spec_written_as(out, header, events, offsets),
            self.spec_storable(),
            self.spec_unk_30_at() <= u32::MAX,
            forall|i: int| 0 <= i < events.len() ==> #[trigger] events[i] != EVENTS_END,
        ensures
            spec_read_tables(out) == Ok::<TablesView, Error>(
                TablesView {
                    header,
                    settings: self.settings,
                    objects: spec_stored_items(self.objects@),
                    events,
                    actors: spec_stored_items(self.actors@),
                    unk_28: spec_stored_items(self.unk_28@),
                    unk_2c: spec_stored_items(self.unk_2c@),
                    unk_30: spec_stored_items(self.unk_30@),
                },
            ),
    {
        let hb = header.spec_bytes();
        let st = self.settings.spec_bytes();
        let ob = spec_list_bytes(self.objects@);
        let eb = spec_event_table_bytes(events);
        let ac = spec_list_bytes(self.actors@);
        let u1 = spec_optional_bytes(self.unk_28@);
        let u2 = spec_optional_bytes(self.unk_2c@);
        let u3 = spec_optional_bytes(self.unk_30@);
        lemma_bytes_len(0);
        lemma_bytes_len(crate::wire::spec_pattern32(-1));
        lemma_event_table_len(events);
        assert(spec_holds_at(out, 0, self.spec_tables_bytes(header, events)));
        lemma_parts_held(out, hb, st, ob, eb, ac, u1, u2, u3);
        header.lemma_read_written(out);
        self.settings.lemma_read_written(out, hb.len() as int);
        assert(hb.len() == 52 && st.len() == 20);
        lemma_list_written::<Object>(out, 72, self.objects@);
        lemma_holds_split(out, self.spec_events_at(), spec_words_le(events), spec_bytes_i32_le(-1i32));
        assert(spec_entry_points(out, self.spec_events_at(), self.objects@.len()) =~= events) by {
            assert forall|i: int| 0 <= i < events.len() implies spec_entry_points(
                out,
                self.spec_events_at(),
                self.objects@.len(),
            )[i] == events[i] by {
                lemma_read_held_words(out, self.spec_events_at(), events, i);
            }
        }
        lemma_list_written::<Actor>(out, self.spec_actors_at(), self.actors@);
        lemma_optional_read_back::<Unk28>(
            out,
            self.spec_unk_28_at(),
            self.unk_28@,
            header.unk_28_offset,
        );
        lemma_optional_read_back::<Unk2C>(
            out,
            self.spec_unk_2c_at(),
            self.unk_2c@,
            header.unk_2c_offset,
        );
        lemma_optional_read_back::<Unk28>(
            out,
            self.spec_unk_30_at(),
            self.unk_30@,
            header.unk_30_offset,
        );
        assert(spec_read_header(out) == Ok::<Header, Error>(header));
        assert(spec_read_settings(out, header.settings_offset as int) == Ok::<Settings, Error>(
            self.settings,
        ));
        assert(spec_read_list::<Object>(out, header.objects_offset as int) is Ok);
        assert(header.events_offset == self.spec_events_at());
        assert(header.actors_offset == self.spec_actors_at());
        assert(header.events_offset + 4 * self.objects@.len() <= out.len());
        assert forall|i: int| 0 <= i < self.objects@.len() implies #[trigger] spec_u32_le(
            out,
            header.events_offset + 4 * i,
        ) != EVENTS_END by {
            lemma_read_held_words(out, self.spec_events_at(), events, i);
        }
        assert(spec_read_event_table(out, header.events_offset as int, self.objects@.len()) == Ok::<
            Seq<u32>,
            Error,
        >(events));
    }
}

impl Stage {
    /// Whether every block of the script that falls through has a command.
    pub open spec fn spec_runs_filled(&self) -> bool {
        forall|b: int|
            0 <= b < self.script@.len() && (#[trigger] self.script@[b]) is Code
                && self.script@[b]->terminator is Fallthrough ==> self.script@[b]->commands.len() > 0
    }

    /// An event that was written starts at a written code block.
    proof fn lemma_event_rooted(&self, offsets: Seq<u32>, event: Option<BlockId>, raw: u32)
        requires
            spec_event_valid(self.script@, event),
            !spec_is_data_event(self.script@, event),
            spec_event_written(offsets, event, raw),
            raw != 0,
        ensures
            exists|b: int|
                0 <= b < self.script@.len() && self.script@[b] is Code && #[trigger] offsets[b] != 0
                    && offsets[b] == raw,
    {
        let id = event->0;
        assert(offsets[id.index as int] != 0 && offsets[id.index as int] == raw);
    }

    /// A stage that was written is read back without an error.
    ///
    /// Take the file `out` of the stage, as writing leaves it, within the
    /// 32-bit range. Then its tables are read as they were written, with
    /// the header and the event table of the file, and nothing that the
    /// events lead to is refused: reading the file gives a stage. No record
    /// may begin with the sentinel, and blocks that fall through must have
    /// a command.
    pub proof fn lemma_written_accepted(
        &self,
        out: Seq<u8>,
        header: Header,
        events: Seq<u32>,
        offsets: Seq<u32>,
        e: Error,
    )
        requires
            self.wf(),
            !self.spec_has_data_event(),
            self.spec_unk_30_at() <= u32::MAX,
            self.spec_written_as(out, header, events, offsets),
            self.spec_storable(),
            self.spec_runs_filled(),
            out.len() <= u32::MAX,
        ensures
            spec_read_tables(out) matches Ok(tables) && tables.header == header && tables.events == events
                && tables.settings == self.settings && !spec_script_error(
                out,
                spec_event_roots(tables),
                e,
            ),
            spec_read_tables(out) matches Ok(tables) && forall|r: int| #[trigger]
                spec_event_roots(tables).contains(r) ==> exists|b: int|
                    0 <= b < self.script@.len() && self.script@[b] is Code && #[trigger] offsets[b] != 0
                        && offsets[b] == r,
    {
        let s = self.script@;
        assert(spec_stream_written(s, offsets, out));
        assert forall|i: int| 0 <= i < events.len() implies #[trigger] events[i] != EVENTS_END by {
            assert(spec_event_written(offsets, self.objects@[i].script, events[i]));
            assert(spec_event_valid(s, self.objects@[i].script));
            if let Some(id) = self.objects@[i].script {
                let b = id.index as int;
                assert(spec_is_data_event(s, self.objects@[i].script) ==> self.spec_has_data_event());
                assert(s[b]->commands.subrange(0, 0) =~= Seq::empty());
                lemma_place_inside(s, offsets, out, b, 0);
            }
        }
        self.lemma_tables_read_back(out, header, events, offsets);
        let tables = spec_read_tables(out)->Ok_0;
        let roots = spec_event_roots(tables);
        assert forall|r: int| #[trigger] roots.contains(r) implies exists|b: int|
            0 <= b < s.len() && s[b] is Code && #[trigger] offsets[b] != 0 && offsets[b] == r by {
            if exists|i: int| 0 <= i < events.len() && #[trigger] events[i] == r {
                let i = choose|i: int| 0 <= i < events.len() && #[trigger] events[i] == r;
                assert(spec_event_written(offsets, self.objects@[i].script, events[i]));
                assert(spec_event_valid(s, self.objects@[i].script));
                assert(spec_is_data_event(s, self.objects@[i].script) ==> self.spec_has_data_event());
                self.lemma_event_rooted(offsets, self.objects@[i].script, events[i]);
            } else if r == spec_hook_raw(header.on_prologue) {
                self.lemma_event_rooted(offsets, self.on_prologue, spec_hook_raw(header.on_prologue));
            } else if r == spec_hook_raw(header.on_startup) {
                self.lemma_event_rooted(offsets, self.on_startup, spec_hook_raw(header.on_startup));
            } else if r == spec_hook_raw(header.on_dead) {
                self.lemma_event_rooted(offsets, self.on_dead, spec_hook_raw(header.on_dead));
            } else if r == spec_hook_raw(header.on_pose) {
                self.lemma_event_rooted(offsets, self.on_pose, spec_hook_raw(header.on_pose));
            } else if r == spec_hook_raw(header.on_time_cycle) {
                self.lemma_event_rooted(offsets, self.on_time_cycle, spec_hook_raw(header.on_time_cycle));
            } else {
                self.lemma_event_rooted(offsets, self.on_time_up, spec_hook_raw(header.on_time_up));
            }
        }
        lemma_written_accepted(s, offsets, out, roots, e);
    }

    /// Reading what was written gives the stage that was written.
    ///
    /// Take the file `out` of this stage and a stage `read` that was read
    /// from it. Then `read` holds the settings of this stage, each event of
    /// `read` is the block decoded at the offset at which the same event of
    /// this stage was written, or absent where that is absent; and a block
    /// of `read` that starts at the offset of a written block runs the same
    /// commands up to the next transfer of control, which goes in the same
    /// way to the same offsets. No record may begin with the sentinel, and
    /// blocks that fall through must have a command.
    pub proof fn lemma_written_round_trip(
        &self,
        out: Seq<u8>,
        header: Header,
        events: Seq<u32>,
        offsets: Seq<u32>,
        read: &Stage,
        spans: Seq<SpanView>,
        b: int,
        i: int,
        fuel: nat,
    )
        requires
            self.wf(),
            !self.spec_has_data_event(),
            self.spec_unk_30_at() <= u32::MAX,
            self.spec_written_as(out, header, events, offsets),
            self.spec_storable(),
            self.spec_runs_filled(),
            out.len() <= u32::MAX,
            read.spec_read_as(out, spans),
            0 <= b < self.script@.len(),
            self.script@[b] is Code,
            offsets[b] != 0,
            0 <= i < read.script@.len(),
            read.script@[i] is Code,
            spans[i].start == offsets[b],
            fuel >= out.len() - offsets[b],
        ensures
            read.settings == self.settings,
            read.objects@.len() == self.objects@.len(),
            spec_event_of(read.script@, spans, spec_event_raw(offsets, self.on_prologue), read.on_prologue),
            spec_event_of(read.script@, spans, spec_event_raw(offsets, self.on_startup), read.on_startup),
            spec_event_of(read.script@, spans, spec_event_raw(offsets, self.on_dead), read.on_dead),
            spec_event_of(read.script@, spans, spec_event_raw(offsets, self.on_pose), read.on_pose),
            spec_event_of(
                read.script@,
                spans,
                spec_event_raw(offsets, self.on_time_cycle),
                read.on_time_cycle,
            ),
            spec_event_of(read.script@, spans, spec_event_raw(offsets, self.on_time_up), read.on_time_up),
            forall|k: int|
                0 <= k < self.objects@.len() ==> spec_event_of(
                    read.script@,
                    spans,
                    spec_event_raw(offsets, self.objects@[k].script),
                    (#[trigger] read.objects@[k]).script,
                ),
            spec_flat(read.script@, spans, i, fuel) == spec_flat_written(self.script@, offsets, out, b, fuel),
            spec_flat_end(read.script@, spans, i, fuel) == spec_flat_written_end(
                self.script@,
                offsets,
                out,
                b,
                fuel,
            ),
    {
        self.lemma_written_accepted(out, header, events, offsets, Error::InvalidHeader);
        let tables = spec_read_tables(out)->Ok_0;
        let roots = spec_event_roots(tables);
        let covered = choose|covered: Set<int>| #[trigger]
            spec_inv(out, read.script@, spans, covered, roots, -1);
        lemma_round_trip(out, self.script@, offsets, read.script@, spans, covered, roots, b, i, fuel);
        assert forall|k: int| 0 <= k < self.objects@.len() implies spec_event_of(
            read.script@,
            spans,
            spec_event_raw(offsets, self.objects@[k].script),
            (#[trigger] read.objects@[k]).script,
        ) by {
            assert(spec_event_written(offsets, self.objects@[k].script, events[k]));
        }
    }

    /// Reading what was written gives the blocks that were written.
    ///
    /// Take the file `out` of this stage, none of whose blocks falls
    /// through, and a stage `read` that was read from it. Then a block of
    /// `read` that starts where a written block stands is a block of the
    /// same kind: a code block with the same commands that ends in the
    /// same way, each block referred to written as the offset at which it
    /// stands, or a data block with the same payload. No record may begin
    /// with the sentinel.
    pub proof fn lemma_written_blocks_read(
        &self,
        out: Seq<u8>,
        header: Header,
        events: Seq<u32>,
        offsets: Seq<u32>,
        read: &Stage,
        spans: Seq<SpanView>,
        b: int,
        i: int,
    )
        requires
            self.wf(),
            !self.spec_has_data_event(),
            self.spec_unk_30_at() <= u32::MAX,
            self.spec_written_as(out, header, events, offsets),
            self.spec_storable(),
            spec_no_falls(self.script@),
            out.len() <= u32::MAX,
            read.spec_read_as(out, spans),
            0 <= b < self.script@.len(),
            offsets[b] != 0,
            0 <= i < read.script@.len(),
            spans[i].start == offsets[b],
        ensures
            match self.script@[b] {
                BlockView::Code { commands, terminator } => {
                    &&& read.script@[i] is Code
                    &&& spec_lower_commands(read.script@[i]->commands, spec_starts(spans))
                        == spec_lower_commands(commands, offsets)
                    &&& spec_lower_terminator(read.script@[i]->terminator, spec_starts(spans))
                        == spec_lower_terminator(terminator, offsets)
                },
                BlockView::Data { bytes } => read.script@[i] is Data && read.script@[i]->bytes == bytes,
            },
    {
        self.lemma_written_accepted(out, header, events, offsets, Error::InvalidHeader);
        let tables = spec_read_tables(out)->Ok_0;
        let roots = spec_event_roots(tables);
        assert(spec_encoded(self.script@, offsets, out, roots));
        if self.script@[b] is Code {
            lemma_code_round_trip(self.script@, offsets, out, roots, read.script@, spans, b, i);
        } else {
            lemma_data_round_trip(self.script@, offsets, out, roots, read.script@, spans, b, i);
        }
    }

    /// Events that are stored at the same offset are the same block: an
    /// offset that the file holds twice adds no block.
    pub proof fn lemma_same_offset_same_event(
        &self,
        bytes: Seq<u8>,
        spans: Seq<SpanView>,
        raw: u32,
        one: Option<BlockId>,
        other: Option<BlockId>,
    )
        requires
            self.spec_read_as(bytes, spans),
            spec_event_of(self.script@, spans, raw, one),
            spec_event_of(self.script@, spans, raw, other),
        ensures
            one == other,
    {
        if raw != 0 {
            let x = one->0.index as int;
            let y = other->0.index as int;
            if x < y {
                assert(spans[x].start != spans[y].start);
            } else if y < x {
                assert(spans[y].start != spans[x].start);
            }
        }
    }

    /// Two readings of one file give the same blocks: as many of them, and
    /// a code block of the one that starts where a block of the other
    /// starts holds the same commands and ends in the same way, each block
    /// referred to written as the offset at which it starts.
    pub proof fn lemma_read_fixed(
        &self,
        other: &Stage,
        bytes: Seq<u8>,
        spans: Seq<SpanView>,
        other_spans: Seq<SpanView>,
        i: int,
        j: int,
    )
        requires
            self.spec_read_as(bytes, spans),
            other.spec_read_as(bytes, other_spans),
            0 <= i < self.script@.len(),
            0 <= j < other.script@.len(),
            self.script@[i] is Code,
            spans[i].start == other_spans[j].start,
        ensures
            self.script@.len() == other.script@.len(),
            other.script@[j] is Code,
            spec_lower_commands(self.script@[i]->commands, spec_starts(spans)) == spec_lower_commands(
                other.script@[j]->commands,
                spec_starts(other_spans),
            ),
            spec_lower_terminator(self.script@[i]->terminator, spec_starts(spans))
                == spec_lower_terminator(other.script@[j]->terminator, spec_starts(other_spans)),
    {
        let tables = spec_read_tables(bytes)->Ok_0;
        let roots = spec_event_roots(tables);
        lemma_count_fixed(bytes, roots, self.script@, spans, other.script@, other_spans);
        lemma_blocks_fixed(bytes, roots, self.script@, spans, other.script@, other_spans, i, j);
    }
}

impl Stage {
    /// Every event of a stage that can be written names a code block of
    /// its script, if it names one.
    proof fn lemma_event_code(&self, k: int)
        requires
            self.wf(),
            !self.spec_has_data_event(),
            0 <= k < self.spec_events_of().len(),
        ensures
            self.spec_events_of()[k] matches Some(id) ==> id.index < self.script@.len()
                && self.script@[id.index as int] is Code,
    {
        let event = self.spec_events_of()[k];
        if k >= 6 {
            assert(event == self.objects@[k - 6].script);
            assert(spec_event_valid(self.script@, self.objects@[k - 6].script));
            assert(!spec_is_data_event(self.script@, self.objects@[k - 6].script));
        }
    }

    /// Two ways of writing the events of a stage agree as far as both go.
    proof fn lemma_states_fixed(
        &self,
        full: Seq<(Seq<u32>, int)>,
        part: Seq<(Seq<u32>, int)>,
        k: int,
        j: int,
    )
        requires
            self.wf(),
            !self.spec_has_data_event(),
            self.spec_laid_out(full),
            0 <= k < self.spec_events_of().len(),
            spec_steps(self.script@, part, self.spec_events_of().subrange(0, k)),
            part[0] == full[0],
            0 <= j <= k,
        ensures
            part[j] == full[j],
            full[j].0.len() == self.script@.len(),
        decreases j,
    {
        let all = self.spec_events_of();
        if j > 0 {
            self.lemma_states_fixed(full, part, k, j - 1);
            self.lemma_event_code(j - 1);
            assert(all.subrange(0, k)[j - 1] == all[j - 1]);
            assert(spec_event_step(self.script@, part[j - 1], all.subrange(0, k)[j - 1], part[j - 1 + 1]));
            assert(spec_event_step(self.script@, full[j - 1], all[j - 1], full[j - 1 + 1]));
            lemma_step_fixed(self.script@, full[j - 1], all[j - 1], full[j], part[j]);
        }
    }

    /// Writing a stage either lays out all its events or stops at one of
    /// them, never both: where the events can be laid out, none of them is
    /// one at which writing stops.
    pub proof fn lemma_laid_out_never_stops(
        &self,
        full: Seq<(Seq<u32>, int)>,
        part: Seq<(Seq<u32>, int)>,
        k: int,
    )
        requires
            self.wf(),
            !self.spec_has_data_event(),
            self.spec_laid_out(full),
        ensures
            !self.spec_stops_at(part, k),
    {
        if self.spec_stops_at(part, k) {
            let all = self.spec_events_of();
            self.lemma_states_fixed(full, part, k, k);
            self.lemma_event_code(k);
            assert(spec_event_step(self.script@, full[k], all[k], full[k + 1]));
            lemma_step_fixed(self.script@, full[k], all[k], full[k + 1], full[k + 1]);
        }
    }
}

} // verus!
