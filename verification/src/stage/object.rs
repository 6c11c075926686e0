//! Objects placed in a stage.

use crate::common::Record;
use crate::event::block::BlockId;
use crate::wire::{
    i32_be_at, lemma_append_assoc, lemma_bytes_len, lemma_holds_split, lemma_read_held_i32_be,
    put_i32_be, spec_bytes_i32_be, spec_i32_be, spec_pattern32,
};
use vstd::prelude::*;

verus! {

/// An object placed in a stage.
#[derive(Debug, Clone, PartialEq, Eq)]
pub struct Object {
    /// Which kind of object this is.
    pub id: i32,
    /// Position along the x axis.
    pub x: i32,
    /// Position along the y axis.
    pub y: i32,
    /// Position along the z axis.
    pub z: i32,
    /// Rotation about the x axis.
    pub rotate_x: i32,
    /// Rotation about the y axis.
    pub rotate_y: i32,
    /// Rotation about the z axis.
    pub rotate_z: i32,
    /// Scale along the x axis.
    pub scale_x: i32,
    /// Scale along the y axis.
    pub scale_y: i32,
    /// Scale along the z axis.
    pub scale_z: i32,
    /// A value whose meaning depends on the kind of object.
    pub data: i32,
    /// The flag that decides whether the object appears.
    pub spawn_flag: i32,
    /// The variant of the object's kind.
    pub variant: i32,
    /// Bits that describe how the object behaves.
    pub flags: i32,
    /// The event that runs when the player interacts with the object. It is
    /// not part of the stored record: the stage's event table holds its offset.
    pub script: Option<BlockId>,
}

impl Record for Object {
    open spec fn spec_size() -> nat {
        56
    }

    open spec fn spec_parse(bytes: Seq<u8>, at: int) -> Self {
        Object {
            id: spec_i32_be(bytes, at),
            x: spec_i32_be(bytes, at + 4),
            y: spec_i32_be(bytes, at + 8),
            z: spec_i32_be(bytes, at + 12),
            rotate_x: spec_i32_be(bytes, at + 16),
            rotate_y: spec_i32_be(bytes, at + 20),
            rotate_z: spec_i32_be(bytes, at + 24),
            scale_x: spec_i32_be(bytes, at + 28),
            scale_y: spec_i32_be(bytes, at + 32),
            scale_z: spec_i32_be(bytes, at + 36),
            data: spec_i32_be(bytes, at + 40),
            spawn_flag: spec_i32_be(bytes, at + 44),
            variant: spec_i32_be(bytes, at + 48),
            flags: spec_i32_be(bytes, at + 52),
            script: None,
        }
    }

    open spec fn spec_bytes(&self) -> Seq<u8> {
        spec_bytes_i32_be(self.id)
            + spec_bytes_i32_be(self.x)
            + spec_bytes_i32_be(self.y)
            + spec_bytes_i32_be(self.z)
            + spec_bytes_i32_be(self.rotate_x)
            + spec_bytes_i32_be(self.rotate_y)
            + spec_bytes_i32_be(self.rotate_z)
            + spec_bytes_i32_be(self.scale_x)
            + spec_bytes_i32_be(self.scale_y)
            + spec_bytes_i32_be(self.scale_z)
            + spec_bytes_i32_be(self.data)
            + spec_bytes_i32_be(self.spawn_flag)
            + spec_bytes_i32_be(self.variant)
            + spec_bytes_i32_be(self.flags)
    }

    open spec fn spec_first(&self) -> i32 {
        self.id
    }

    open spec fn spec_stored(&self) -> Self {
        Object { script: None, ..*self }
    }

    proof fn lemma_size_min() {
    }

    proof fn lemma_bytes_size(&self) {
        lemma_bytes_len(spec_pattern32(self.id as int));
        lemma_bytes_len(spec_pattern32(self.x as int));
        lemma_bytes_len(spec_pattern32(self.y as int));
        lemma_bytes_len(spec_pattern32(self.z as int));
        lemma_bytes_len(spec_pattern32(self.rotate_x as int));
        lemma_bytes_len(spec_pattern32(self.rotate_y as int));
        lemma_bytes_len(spec_pattern32(self.rotate_z as int));
        lemma_bytes_len(spec_pattern32(self.scale_x as int));
        lemma_bytes_len(spec_pattern32(self.scale_y as int));
        lemma_bytes_len(spec_pattern32(self.scale_z as int));
        lemma_bytes_len(spec_pattern32(self.data as int));
        lemma_bytes_len(spec_pattern32(self.spawn_flag as int));
        lemma_bytes_len(spec_pattern32(self.variant as int));
        lemma_bytes_len(spec_pattern32(self.flags as int));
    }

    proof fn lemma_parse_written(&self, bytes: Seq<u8>, at: int) {
        self.lemma_bytes_size();
        let seg0 = spec_bytes_i32_be(self.id);
        let seg1 = seg0 + spec_bytes_i32_be(self.x);
        let seg2 = seg1 + spec_bytes_i32_be(self.y);
        let seg3 = seg2 + spec_bytes_i32_be(self.z);
        let seg4 = seg3 + spec_bytes_i32_be(self.rotate_x);
        let seg5 = seg4 + spec_bytes_i32_be(self.rotate_y);
        let seg6 = seg5 + spec_bytes_i32_be(self.rotate_z);
        let seg7 = seg6 + spec_bytes_i32_be(self.scale_x);
        let seg8 = seg7 + spec_bytes_i32_be(self.scale_y);
        let seg9 = seg8 + spec_bytes_i32_be(self.scale_z);
        let seg10 = seg9 + spec_bytes_i32_be(self.data);
        let seg11 = seg10 + spec_bytes_i32_be(self.spawn_flag);
        let seg12 = seg11 + spec_bytes_i32_be(self.variant);
        let seg13 = seg12 + spec_bytes_i32_be(self.flags);
        lemma_holds_split(bytes, at, seg12, spec_bytes_i32_be(self.flags));
        lemma_holds_split(bytes, at, seg11, spec_bytes_i32_be(self.variant));
        lemma_holds_split(bytes, at, seg10, spec_bytes_i32_be(self.spawn_flag));
        lemma_holds_split(bytes, at, seg9, spec_bytes_i32_be(self.data));
        lemma_holds_split(bytes, at, seg8, spec_bytes_i32_be(self.scale_z));
        lemma_holds_split(bytes, at, seg7, spec_bytes_i32_be(self.scale_y));
        lemma_holds_split(bytes, at, seg6, spec_bytes_i32_be(self.scale_x));
        lemma_holds_split(bytes, at, seg5, spec_bytes_i32_be(self.rotate_z));
        lemma_holds_split(bytes, at, seg4, spec_bytes_i32_be(self.rotate_y));
        lemma_holds_split(bytes, at, seg3, spec_bytes_i32_be(self.rotate_x));
        lemma_holds_split(bytes, at, seg2, spec_bytes_i32_be(self.z));
        lemma_holds_split(bytes, at, seg1, spec_bytes_i32_be(self.y));
        lemma_holds_split(bytes, at, seg0, spec_bytes_i32_be(self.x));
        lemma_read_held_i32_be(bytes, at, self.id);
        lemma_read_held_i32_be(bytes, at + 4, self.x);
        lemma_read_held_i32_be(bytes, at + 8, self.y);
        lemma_read_held_i32_be(bytes, at + 12, self.z);
        lemma_read_held_i32_be(bytes, at + 16, self.rotate_x);
        lemma_read_held_i32_be(bytes, at + 20, self.rotate_y);
        lemma_read_held_i32_be(bytes, at + 24, self.rotate_z);
        lemma_read_held_i32_be(bytes, at + 28, self.scale_x);
        lemma_read_held_i32_be(bytes, at + 32, self.scale_y);
        lemma_read_held_i32_be(bytes, at + 36, self.scale_z);
        lemma_read_held_i32_be(bytes, at + 40, self.data);
        lemma_read_held_i32_be(bytes, at + 44, self.spawn_flag);
        lemma_read_held_i32_be(bytes, at + 48, self.variant);
        lemma_read_held_i32_be(bytes, at + 52, self.flags);
    }

    fn size() -> (n: usize) {
        56
    }

    fn read_from(bytes: &[u8], at: usize) -> (r: Self) {
        let total = bytes.len();
        assert(at + Self::spec_size() <= total);
        Object {
            id: i32_be_at(bytes, at),
            x: i32_be_at(bytes, at + 4),
            y: i32_be_at(bytes, at + 8),
            z: i32_be_at(bytes, at + 12),
            rotate_x: i32_be_at(bytes, at + 16),
            rotate_y: i32_be_at(bytes, at + 20),
            rotate_z: i32_be_at(bytes, at + 24),
            scale_x: i32_be_at(bytes, at + 28),
            scale_y: i32_be_at(bytes, at + 32),
            scale_z: i32_be_at(bytes, at + 36),
            data: i32_be_at(bytes, at + 40),
            spawn_flag: i32_be_at(bytes, at + 44),
            variant: i32_be_at(bytes, at + 48),
            flags: i32_be_at(bytes, at + 52),
            script: None,
        }
    }

    fn write_to(&self, out: &mut Vec<u8>) {
        let ghost start = out@;
        put_i32_be(out, self.id);
        let ghost mut acc = spec_bytes_i32_be(self.id);
        put_i32_be(out, self.x);
        proof {
            lemma_append_assoc(start, acc, spec_bytes_i32_be(self.x));
            acc = acc + spec_bytes_i32_be(self.x);
        }
        put_i32_be(out, self.y);
        proof {
            lemma_append_assoc(start, acc, spec_bytes_i32_be(self.y));
            acc = acc + spec_bytes_i32_be(self.y);
        }
        put_i32_be(out, self.z);
        proof {
            lemma_append_assoc(start, acc, spec_bytes_i32_be(self.z));
            acc = acc + spec_bytes_i32_be(self.z);
        }
        put_i32_be(out, self.rotate_x);
        proof {
            lemma_append_assoc(start, acc, spec_bytes_i32_be(self.rotate_x));
            acc = acc + spec_bytes_i32_be(self.rotate_x);
        }
        put_i32_be(out, self.rotate_y);
        proof {
            lemma_append_assoc(start, acc, spec_bytes_i32_be(self.rotate_y));
            acc = acc + spec_bytes_i32_be(self.rotate_y);
        }
        put_i32_be(out, self.rotate_z);
        proof {
            lemma_append_assoc(start, acc, spec_bytes_i32_be(self.rotate_z));
            acc = acc + spec_bytes_i32_be(self.rotate_z);
        }
        put_i32_be(out, self.scale_x);
        proof {
            lemma_append_assoc(start, acc, spec_bytes_i32_be(self.scale_x));
            acc = acc + spec_bytes_i32_be(self.scale_x);
        }
        put_i32_be(out, self.scale_y);
        proof {
            lemma_append_assoc(start, acc, spec_bytes_i32_be(self.scale_y));
            acc = acc + spec_bytes_i32_be(self.scale_y);
        }
        put_i32_be(out, self.scale_z);
        proof {
            lemma_append_assoc(start, acc, spec_bytes_i32_be(self.scale_z));
            acc = acc + spec_bytes_i32_be(self.scale_z);
        }
        put_i32_be(out, self.data);
        proof {
            lemma_append_assoc(start, acc, spec_bytes_i32_be(self.data));
            acc = acc + spec_bytes_i32_be(self.data);
        }
        put_i32_be(out, self.spawn_flag);
        proof {
            lemma_append_assoc(start, acc, spec_bytes_i32_be(self.spawn_flag));
            acc = acc + spec_bytes_i32_be(self.spawn_flag);
        }
        put_i32_be(out, self.variant);
        proof {
            lemma_append_assoc(start, acc, spec_bytes_i32_be(self.variant));
            acc = acc + spec_bytes_i32_be(self.variant);
        }
        put_i32_be(out, self.flags);
        proof {
            lemma_append_assoc(start, acc, spec_bytes_i32_be(self.flags));
            acc = acc + spec_bytes_i32_be(self.flags);
        }
        assert(acc == self.spec_bytes());
    }
}

} // verus!
