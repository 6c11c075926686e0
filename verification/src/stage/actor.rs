//! Actors of a stage.

use crate::common::Record;
use crate::wire::{
    i32_be_at, lemma_append_assoc, lemma_bytes_len, lemma_holds_split, lemma_read_held_i32_be,
    put_i32_be, spec_bytes_i32_be, spec_i32_be, spec_pattern32,
};
use vstd::prelude::*;

verus! {

/// An actor of a stage: an object that events can move and animate.
#[derive(Debug, Clone, PartialEq, Eq)]
pub struct Actor {
    /// The index of the object that the actor controls.
    pub obj_index: i32,
    /// Which kind of actor this is.
    pub id: i32,
    pub unk_08: i32,
    pub unk_0c: i32,
}

impl Record for Actor {
    open spec fn spec_size() -> nat {
        16
    }

    open spec fn spec_parse(bytes: Seq<u8>, at: int) -> Self {
        Actor {
            obj_index: spec_i32_be(bytes, at),
            id: spec_i32_be(bytes, at + 4),
            unk_08: spec_i32_be(bytes, at + 8),
            unk_0c: spec_i32_be(bytes, at + 12),
        }
    }

    open spec fn spec_bytes(&self) -> Seq<u8> {
        spec_bytes_i32_be(self.obj_index)
            + spec_bytes_i32_be(self.id)
            + spec_bytes_i32_be(self.unk_08)
            + spec_bytes_i32_be(self.unk_0c)
    }

    open spec fn spec_first(&self) -> i32 {
        self.obj_index
    }

    open spec fn spec_stored(&self) -> Self {
        *self
    }

    proof fn lemma_size_min() {
    }

    proof fn lemma_bytes_size(&self) {
        lemma_bytes_len(spec_pattern32(self.obj_index as int));
        lemma_bytes_len(spec_pattern32(self.id as int));
        lemma_bytes_len(spec_pattern32(self.unk_08 as int));
        lemma_bytes_len(spec_pattern32(self.unk_0c as int));
    }

    proof fn lemma_parse_written(&self, bytes: Seq<u8>, at: int) {
        self.lemma_bytes_size();
        let seg0 = spec_bytes_i32_be(self.obj_index);
        let seg1 = seg0 + spec_bytes_i32_be(self.id);
        let seg2 = seg1 + spec_bytes_i32_be(self.unk_08);
        let seg3 = seg2 + spec_bytes_i32_be(self.unk_0c);
        lemma_holds_split(bytes, at, seg2, spec_bytes_i32_be(self.unk_0c));
        lemma_holds_split(bytes, at, seg1, spec_bytes_i32_be(self.unk_08));
        lemma_holds_split(bytes, at, seg0, spec_bytes_i32_be(self.id));
        lemma_read_held_i32_be(bytes, at, self.obj_index);
        lemma_read_held_i32_be(bytes, at + 4, self.id);
        lemma_read_held_i32_be(bytes, at + 8, self.unk_08);
        lemma_read_held_i32_be(bytes, at + 12, self.unk_0c);
    }

    fn size() -> (n: usize) {
        16
    }

    fn read_from(bytes: &[u8], at: usize) -> (r: Self) {
        let total = bytes.len();
        assert(at + Self::spec_size() <= total);
        Actor {
            obj_index: i32_be_at(bytes, at),
            id: i32_be_at(bytes, at + 4),
            unk_08: i32_be_at(bytes, at + 8),
            unk_0c: i32_be_at(bytes, at + 12),
        }
    }

    fn write_to(&self, out: &mut Vec<u8>) {
        let ghost start = out@;
        put_i32_be(out, self.obj_index);
        let ghost mut acc = spec_bytes_i32_be(self.obj_index);
        put_i32_be(out, self.id);
        proof {
            lemma_append_assoc(start, acc, spec_bytes_i32_be(self.id));
            acc = acc + spec_bytes_i32_be(self.id);
        }
        put_i32_be(out, self.unk_08);
        proof {
            lemma_append_assoc(start, acc, spec_bytes_i32_be(self.unk_08));
            acc = acc + spec_bytes_i32_be(self.unk_08);
        }
        put_i32_be(out, self.unk_0c);
        proof {
            lemma_append_assoc(start, acc, spec_bytes_i32_be(self.unk_0c));
            acc = acc + spec_bytes_i32_be(self.unk_0c);
        }
        assert(acc == self.spec_bytes());
    }
}

} // verus!
