//! Fixed-width integers on the wire.
//!
//! The spec functions here say, in plain arithmetic, what value a run of bytes
//! stands for in big-endian and little-endian order and which bytes a value is
//! written as. The executable conversions are done by the `byteorder` crate;
//! the functions that call it are the only unverified code in this module.

use byteorder::{BigEndian, ByteOrder, LittleEndian};
use vstd::prelude::*;
use vstd::slice::slice_subrange;

verus! {

/// The unsigned value of the two bytes of `b` at `at`, most significant first.
pub open spec fn spec_u16_be(b: Seq<u8>, at: int) -> int
    recommends
        0 <= at,
        at + 2 <= b.len(),
{
    b[at] as int * 0x100 + b[at + 1] as int
}

/// The unsigned value of the four bytes of `b` at `at`, most significant first.
pub open spec fn spec_u32_be(b: Seq<u8>, at: int) -> int
    recommends
        0 <= at,
        at + 4 <= b.len(),
{
    b[at] as int * 0x100_0000 + b[at + 1] as int * 0x1_0000 + b[at + 2] as int * 0x100 + b[at
        + 3] as int
}

/// The unsigned value of the four bytes of `b` at `at`, least significant first.
pub open spec fn spec_u32_le(b: Seq<u8>, at: int) -> u32
    recommends
        0 <= at,
        at + 4 <= b.len(),
{
    (b[at + 3] as int * 0x100_0000 + b[at + 2] as int * 0x1_0000 + b[at + 1] as int * 0x100
        + b[at] as int) as u32
}

/// The two's-complement reading of a 16-bit pattern.
pub open spec fn spec_signed16(u: int) -> int {
    if u < 0x8000 {
        u
    } else {
        u - 0x1_0000
    }
}

/// The two's-complement reading of a 32-bit pattern.
pub open spec fn spec_signed32(u: int) -> int {
    if u < 0x8000_0000 {
        u
    } else {
        u - 0x1_0000_0000
    }
}

/// The 16-bit pattern of a signed value.
pub open spec fn spec_pattern16(n: int) -> int {
    if n < 0 {
        n + 0x1_0000
    } else {
        n
    }
}

/// The 32-bit pattern of a signed value.
pub open spec fn spec_pattern32(n: int) -> int {
    if n < 0 {
        n + 0x1_0000_0000
    } else {
        n
    }
}

/// The signed value of the two bytes of `b` at `at`, big-endian.
pub open spec fn spec_i16_be(b: Seq<u8>, at: int) -> i16 {
    spec_signed16(spec_u16_be(b, at)) as i16
}

/// The signed value of the four bytes of `b` at `at`, big-endian.
pub open spec fn spec_i32_be(b: Seq<u8>, at: int) -> i32 {
    spec_signed32(spec_u32_be(b, at)) as i32
}

/// The two bytes of a 16-bit pattern, most significant first.
#[verifier::opaque]
pub open spec fn spec_bytes16_be(u: int) -> Seq<u8> {
    seq![(u / 0x100 % 0x100) as u8, (u % 0x100) as u8]
}

/// The four bytes of a 32-bit pattern, most significant first.
#[verifier::opaque]
pub open spec fn spec_bytes32_be(u: int) -> Seq<u8> {
    seq![
        (u / 0x100_0000 % 0x100) as u8,
        (u / 0x1_0000 % 0x100) as u8,
        (u / 0x100 % 0x100) as u8,
        (u % 0x100) as u8,
    ]
}

/// The four bytes of a 32-bit pattern, least significant first.
#[verifier::opaque]
pub open spec fn spec_bytes32_le(u: int) -> Seq<u8> {
    seq![
        (u % 0x100) as u8,
        (u / 0x100 % 0x100) as u8,
        (u / 0x1_0000 % 0x100) as u8,
        (u / 0x100_0000 % 0x100) as u8,
    ]
}

/// The bytes that a signed 32-bit value is written as, big-endian.
pub open spec fn spec_bytes_i32_be(n: i32) -> Seq<u8> {
    spec_bytes32_be(spec_pattern32(n as int))
}

/// The bytes that a signed 16-bit value is written as, big-endian.
pub open spec fn spec_bytes_i16_be(n: i16) -> Seq<u8> {
    spec_bytes16_be(spec_pattern16(n as int))
}

/// The bytes that an unsigned 32-bit value is written as, little-endian.
pub open spec fn spec_bytes_u32_le(n: u32) -> Seq<u8> {
    spec_bytes32_le(n as int)
}

/// The bytes that a signed 32-bit value is written as, little-endian.
pub open spec fn spec_bytes_i32_le(n: i32) -> Seq<u8> {
    spec_bytes32_le(spec_pattern32(n as int))
}

/// The little-endian bytes of a sequence of 32-bit values, four per value.
pub open spec fn spec_words_le(words: Seq<u32>) -> Seq<u8> {
    Seq::new(4 * words.len(), |i: int| spec_bytes_u32_le(words[i / 4])[i % 4])
}

/// The 32-bit values that `bytes` holds in little-endian order, four bytes each.
pub open spec fn spec_read_words_le(bytes: Seq<u8>) -> Seq<u32> {
    Seq::new(bytes.len() / 4, |i: int| spec_u32_le(bytes, 4 * i))
}

/// How many bytes each fixed-width value is written as.
pub proof fn lemma_bytes_len(u: int)
    ensures
        spec_bytes16_be(u).len() == 2,
        spec_bytes32_be(u).len() == 4,
        spec_bytes32_le(u).len() == 4,
{
    reveal(spec_bytes16_be);
    reveal(spec_bytes32_be);
    reveal(spec_bytes32_le);
}

/// Whether the bytes of `part` stand in `b` at `at`.
pub open spec fn spec_holds_at(b: Seq<u8>, at: int, part: Seq<u8>) -> bool {
    &&& 0 <= at
    &&& at + part.len() <= b.len()
    &&& b.subrange(at, at + part.len()) == part
}

/// Where two parts joined stand at `at`, the first stands at `at` and the
/// second right behind it.
pub proof fn lemma_holds_split(b: Seq<u8>, at: int, first: Seq<u8>, second: Seq<u8>)
    requires
        spec_holds_at(b, at, first + second),
    ensures
        spec_holds_at(b, at, first),
        spec_holds_at(b, at + first.len(), second),
{
    let whole = b.subrange(at, at + (first + second).len());
    assert(b.subrange(at, at + first.len()) =~= whole.subrange(0, first.len() as int));
    assert(whole.subrange(0, first.len() as int) =~= first);
    assert(b.subrange(at + first.len(), at + first.len() + second.len()) =~= whole.subrange(
        first.len() as int,
        whole.len() as int,
    ));
    assert(whole.subrange(first.len() as int, whole.len() as int) =~= second);
}

/// Where a part stands at the end of what was there before, it stands at
/// that position; what stood in the old bytes still stands there.
pub proof fn lemma_holds_appended(before: Seq<u8>, part: Seq<u8>)
    ensures
        spec_holds_at(before + part, before.len() as int, part),
        forall|at: int, p: Seq<u8>| #[trigger]
            spec_holds_at(before, at, p) ==> spec_holds_at(before + part, at, p),
{
    assert((before + part).subrange(before.len() as int, (before.len() + part.len()) as int) =~= part);
    assert forall|at: int, p: Seq<u8>| #[trigger] spec_holds_at(before, at, p) implies spec_holds_at(
        before + part,
        at,
        p,
    ) by {
        assert((before + part).subrange(at, at + p.len()) =~= before.subrange(at, at + p.len()));
    }
}

/// A single byte that stands at `at` is the byte found there.
pub proof fn lemma_read_held_u8(b: Seq<u8>, at: int, n: u8)
    requires
        spec_holds_at(b, at, seq![n]),
    ensures
        at < b.len(),
        b[at] == n,
{
    assert(b.subrange(at, at + 1)[0] == n);
}

/// A signed 32-bit value whose big-endian bytes stand at `at` is read there.
pub proof fn lemma_read_held_i32_be(b: Seq<u8>, at: int, n: i32)
    requires
        spec_holds_at(b, at, spec_bytes_i32_be(n)),
    ensures
        spec_i32_be(b, at) == n,
        spec_bytes_i32_be(n).len() == 4,
        at + 4 <= b.len(),
{
    reveal(spec_bytes32_be);
    let part = spec_bytes_i32_be(n);
    let sub = b.subrange(at, at + 4);
    assert(sub[0] == part[0]);
    assert(sub[1] == part[1]);
    assert(sub[2] == part[2]);
    assert(sub[3] == part[3]);
    lemma_join32(spec_pattern32(n as int));
}

/// A signed 16-bit value whose big-endian bytes stand at `at` is read there.
pub proof fn lemma_read_held_i16_be(b: Seq<u8>, at: int, n: i16)
    requires
        spec_holds_at(b, at, spec_bytes_i16_be(n)),
    ensures
        spec_i16_be(b, at) == n,
        spec_bytes_i16_be(n).len() == 2,
        at + 2 <= b.len(),
{
    reveal(spec_bytes16_be);
    let part = spec_bytes_i16_be(n);
    let sub = b.subrange(at, at + 2);
    assert(sub[0] == part[0]);
    assert(sub[1] == part[1]);
}

/// An unsigned 32-bit value whose little-endian bytes stand at `at` is read
/// there.
pub proof fn lemma_read_held_u32_le(b: Seq<u8>, at: int, n: u32)
    requires
        spec_holds_at(b, at, spec_bytes_u32_le(n)),
    ensures
        spec_u32_le(b, at) == n,
        spec_bytes_u32_le(n).len() == 4,
        at + 4 <= b.len(),
{
    reveal(spec_bytes32_le);
    let part = spec_bytes_u32_le(n);
    let sub = b.subrange(at, at + 4);
    assert(sub[0] == part[0]);
    assert(sub[1] == part[1]);
    assert(sub[2] == part[2]);
    assert(sub[3] == part[3]);
    lemma_join32(n as int);
}

/// Where the little-endian bytes of some 32-bit values stand at `at`, each
/// value is read at its place.
pub proof fn lemma_read_held_words(b: Seq<u8>, at: int, words: Seq<u32>, i: int)
    requires
        spec_holds_at(b, at, spec_words_le(words)),
        0 <= i < words.len(),
    ensures
        spec_u32_le(b, at + 4 * i) == words[i],
        at + 4 * words.len() <= b.len(),
{
    reveal(spec_bytes32_le);
    let part = spec_words_le(words);
    let sub = b.subrange(at, at + part.len());
    let n = words[i];
    assert(sub[4 * i] == part[4 * i]);
    assert(sub[4 * i + 1] == part[4 * i + 1]);
    assert(sub[4 * i + 2] == part[4 * i + 2]);
    assert(sub[4 * i + 3] == part[4 * i + 3]);
    assert((4 * i) / 4 == i && (4 * i + 1) / 4 == i && (4 * i + 2) / 4 == i && (4 * i + 3) / 4 == i);
    assert((4 * i) % 4 == 0 && (4 * i + 1) % 4 == 1 && (4 * i + 2) % 4 == 2 && (4 * i + 3) % 4 == 3);
    lemma_join32(n as int);
}

/// The bytes of a 32-bit pattern put together again give the pattern.
proof fn lemma_join32(u: int)
    requires
        0 <= u < 0x1_0000_0000,
    ensures
        (u / 0x100_0000 % 0x100) * 0x100_0000 + (u / 0x1_0000 % 0x100) * 0x1_0000 + (u / 0x100
            % 0x100) * 0x100 + u % 0x100 == u,
{
}

/// `byteorder::ByteOrder::read_i32` for `BigEndian`: the first four bytes of
/// `buf`, most significant first, read as a two's-complement number. The
/// outside function panics on a shorter buffer, which `requires` rules out.
#[verifier::external_body]
pub(crate) fn be_read_i32(buf: &[u8]) -> (r: i32)
    requires
        buf@.len() >= 4,
    ensures
        r == spec_i32_be(buf@, 0),
{
    BigEndian::read_i32(buf)
}

/// `byteorder::ByteOrder::read_i16` for `BigEndian`: the first two bytes of
/// `buf`, most significant first, read as a two's-complement number. The
/// outside function panics on a shorter buffer, which `requires` rules out.
#[verifier::external_body]
pub(crate) fn be_read_i16(buf: &[u8]) -> (r: i16)
    requires
        buf@.len() >= 2,
    ensures
        r == spec_i16_be(buf@, 0),
{
    BigEndian::read_i16(buf)
}

/// `byteorder::ByteOrder::read_u32` for `LittleEndian`: the first four bytes
/// of `buf`, least significant first. The outside function panics on a
/// shorter buffer, which `requires` rules out.
#[verifier::external_body]
pub(crate) fn le_read_u32(buf: &[u8]) -> (r: u32)
    requires
        buf@.len() >= 4,
    ensures
        r == spec_u32_le(buf@, 0),
{
    LittleEndian::read_u32(buf)
}

/// `byteorder::ByteOrder::write_i32` for `BigEndian`: the four bytes of the
/// two's-complement pattern of `n`, most significant first.
#[verifier::external_body]
pub(crate) fn be_write_i32(n: i32) -> (out: [u8; 4])
    ensures
        out@ == spec_bytes_i32_be(n),
{
    let mut buf = [0u8; 4];
    BigEndian::write_i32(&mut buf, n);
    buf
}

/// `byteorder::ByteOrder::write_i16` for `BigEndian`: the two bytes of the
/// two's-complement pattern of `n`, most significant first.
#[verifier::external_body]
pub(crate) fn be_write_i16(n: i16) -> (out: [u8; 2])
    ensures
        out@ == spec_bytes_i16_be(n),
{
    let mut buf = [0u8; 2];
    BigEndian::write_i16(&mut buf, n);
    buf
}

/// `byteorder::ByteOrder::write_u32` for `LittleEndian`: the four bytes of
/// `n`, least significant first.
#[verifier::external_body]
pub(crate) fn le_write_u32(n: u32) -> (out: [u8; 4])
    ensures
        out@ == spec_bytes_u32_le(n),
{
    let mut buf = [0u8; 4];
    LittleEndian::write_u32(&mut buf, n);
    buf
}

/// `byteorder::ByteOrder::write_i32` for `LittleEndian`: the four bytes of the
/// two's-complement pattern of `n`, least significant first.
#[verifier::external_body]
pub(crate) fn le_write_i32(n: i32) -> (out: [u8; 4])
    ensures
        out@ == spec_bytes_i32_le(n),
{
    let mut buf = [0u8; 4];
    LittleEndian::write_i32(&mut buf, n);
    buf
}

/// `byteorder::ByteOrder::read_u32_into` for `LittleEndian`: fills `dst` with
/// the values that `src` holds, four bytes each, least significant first. The
/// outside function panics unless `src` is exactly four times as long as
/// `dst`, which `requires` demands.
#[verifier::external_body]
pub(crate) fn le_read_u32_into(src: &[u8], dst: &mut Vec<u32>)
    requires
        src@.len() == 4 * old(dst)@.len(),
    ensures
        final(dst)@ == spec_read_words_le(src@),
{
    LittleEndian::read_u32_into(src, dst)
}

/// `byteorder::ByteOrder::write_u32_into` for `LittleEndian`: fills `dst` with
/// the bytes of the values in `src`, four bytes each, least significant first.
/// The outside function panics unless `dst` is exactly four times as long as
/// `src`, which `requires` demands.
#[verifier::external_body]
pub(crate) fn le_write_u32_into(src: &[u32], dst: &mut Vec<u8>)
    requires
        old(dst)@.len() == 4 * src@.len(),
    ensures
        final(dst)@ == spec_words_le(src@),
{
    LittleEndian::write_u32_into(src, dst)
}

/// The signed 32-bit big-endian value at `at`, or `None` where fewer than four
/// bytes are left.
pub open spec fn spec_get_i32_be(bytes: Seq<u8>, at: int) -> Option<i32> {
    if 0 <= at && at + 4 <= bytes.len() {
        Some(spec_i32_be(bytes, at))
    } else {
        None
    }
}

/// The signed 16-bit big-endian value at `at`, or `None` where fewer than two
/// bytes are left.
pub open spec fn spec_get_i16_be(bytes: Seq<u8>, at: int) -> Option<i16> {
    if 0 <= at && at + 2 <= bytes.len() {
        Some(spec_i16_be(bytes, at))
    } else {
        None
    }
}

/// The unsigned 32-bit little-endian value at `at`, or `None` where fewer than
/// four bytes are left.
pub open spec fn spec_get_u32_le(bytes: Seq<u8>, at: int) -> Option<u32> {
    if 0 <= at && at + 4 <= bytes.len() {
        Some(spec_u32_le(bytes, at))
    } else {
        None
    }
}

/// The byte at `at`, or `None` past the end.
pub open spec fn spec_get_u8(bytes: Seq<u8>, at: int) -> Option<u8> {
    if 0 <= at < bytes.len() {
        Some(bytes[at])
    } else {
        None
    }
}

/// Reads the signed 32-bit big-endian value at `at`.
pub fn get_i32_be(bytes: &[u8], at: usize) -> (r: Option<i32>)
    ensures
        r == spec_get_i32_be(bytes@, at as int),
        bytes@.len() <= usize::MAX,
{
    if at <= bytes.len() && bytes.len() - at >= 4 {
        Some(be_read_i32(slice_subrange(bytes, at, at + 4)))
    } else {
        None
    }
}

/// Reads the signed 16-bit big-endian value at `at`.
pub fn get_i16_be(bytes: &[u8], at: usize) -> (r: Option<i16>)
    ensures
        r == spec_get_i16_be(bytes@, at as int),
        bytes@.len() <= usize::MAX,
{
    if at <= bytes.len() && bytes.len() - at >= 2 {
        Some(be_read_i16(slice_subrange(bytes, at, at + 2)))
    } else {
        None
    }
}

/// Reads the unsigned 32-bit little-endian value at `at`.
pub fn get_u32_le(bytes: &[u8], at: usize) -> (r: Option<u32>)
    ensures
        r == spec_get_u32_le(bytes@, at as int),
        bytes@.len() <= usize::MAX,
{
    if at <= bytes.len() && bytes.len() - at >= 4 {
        Some(le_read_u32(slice_subrange(bytes, at, at + 4)))
    } else {
        None
    }
}

/// Reads the byte at `at`.
pub fn get_u8(bytes: &[u8], at: usize) -> (r: Option<u8>)
    ensures
        r == spec_get_u8(bytes@, at as int),
        bytes@.len() <= usize::MAX,
{
    if at < bytes.len() {
        Some(bytes[at])
    } else {
        None
    }
}

/// The signed 32-bit big-endian value at `at`, which must lie inside `bytes`.
pub(crate) fn i32_be_at(bytes: &[u8], at: usize) -> (r: i32)
    requires
        at + 4 <= bytes@.len(),
    ensures
        r == spec_i32_be(bytes@, at as int),
{
    let len = bytes.len();
    assert(at + 4 <= len);
    be_read_i32(slice_subrange(bytes, at, at + 4))
}

/// The signed 16-bit big-endian value at `at`, which must lie inside `bytes`.
pub(crate) fn i16_be_at(bytes: &[u8], at: usize) -> (r: i16)
    requires
        at + 2 <= bytes@.len(),
    ensures
        r == spec_i16_be(bytes@, at as int),
{
    let len = bytes.len();
    assert(at + 2 <= len);
    be_read_i16(slice_subrange(bytes, at, at + 2))
}

/// The unsigned 32-bit little-endian value at `at`, which must lie inside `bytes`.
pub(crate) fn u32_le_at(bytes: &[u8], at: usize) -> (r: u32)
    requires
        at + 4 <= bytes@.len(),
    ensures
        r == spec_u32_le(bytes@, at as int),
{
    let len = bytes.len();
    assert(at + 4 <= len);
    le_read_u32(slice_subrange(bytes, at, at + 4))
}

/// Appending in two steps is appending the two parts joined.
pub proof fn lemma_append_assoc(a: Seq<u8>, b: Seq<u8>, c: Seq<u8>)
    ensures
        (a + b) + c == a + (b + c),
{
    assert((a + b) + c =~= a + (b + c));
}

/// Appends the bytes of `part` to `out`.
pub fn put_bytes(out: &mut Vec<u8>, part: &[u8])
    ensures
        final(out)@ == old(out)@ + part@,
{
    let mut i: usize = 0;
    while i < part.len()
        invariant
            i <= part@.len(),
            out@ == old(out)@ + part@.subrange(0, i as int),
        decreases part@.len() - i,
    {
        out.push(part[i]);
        i += 1;
        assert(out@ =~= old(out)@ + part@.subrange(0, i as int));
    }
    assert(part@.subrange(0, part@.len() as int) =~= part@);
}

/// Appends `n` as a signed 32-bit big-endian value.
pub fn put_i32_be(out: &mut Vec<u8>, n: i32)
    ensures
        final(out)@ == old(out)@ + spec_bytes_i32_be(n),
        spec_bytes_i32_be(n).len() == 4,
{
    proof {
        lemma_bytes_len(spec_pattern32(n as int));
    }
    let b = be_write_i32(n);
    put_bytes(out, vstd::array::array_as_slice(&b));
}

/// Appends `n` as a signed 16-bit big-endian value.
pub fn put_i16_be(out: &mut Vec<u8>, n: i16)
    ensures
        final(out)@ == old(out)@ + spec_bytes_i16_be(n),
        spec_bytes_i16_be(n).len() == 2,
{
    proof {
        lemma_bytes_len(spec_pattern16(n as int));
    }
    let b = be_write_i16(n);
    put_bytes(out, vstd::array::array_as_slice(&b));
}

/// Appends `n` as an unsigned 32-bit little-endian value.
pub fn put_u32_le(out: &mut Vec<u8>, n: u32)
    ensures
        final(out)@ == old(out)@ + spec_bytes_u32_le(n),
        spec_bytes_u32_le(n).len() == 4,
{
    proof {
        lemma_bytes_len(n as int);
    }
    let b = le_write_u32(n);
    put_bytes(out, vstd::array::array_as_slice(&b));
}

/// Appends `n` as a signed 32-bit little-endian value.
pub fn put_i32_le(out: &mut Vec<u8>, n: i32)
    ensures
        final(out)@ == old(out)@ + spec_bytes_i32_le(n),
        spec_bytes_i32_le(n).len() == 4,
{
    proof {
        lemma_bytes_len(spec_pattern32(n as int));
    }
    let b = le_write_i32(n);
    put_bytes(out, vstd::array::array_as_slice(&b));
}

/// Appends one byte.
pub fn put_u8(out: &mut Vec<u8>, n: u8)
    ensures
        final(out)@ == old(out)@ + seq![n],
{
    out.push(n);
    assert(out@ =~= old(out)@ + seq![n]);
}

/// The bytes of `out` with those from `at` on replaced by `part`, as far
/// as `part` reaches.
pub open spec fn spec_patched(out: Seq<u8>, at: int, part: Seq<u8>) -> Seq<u8> {
    out.subrange(0, at) + part + out.subrange(at + part.len(), out.len() as int)
}

/// Overwrites the bytes of `out` from `at` on with `part`, which must not
/// reach beyond the end of `out`.
pub fn patch(out: &mut Vec<u8>, at: usize, part: &[u8])
    requires
        at + part@.len() <= old(out)@.len(),
    ensures
        final(out)@ == spec_patched(old(out)@, at as int, part@),
        final(out)@.len() == old(out)@.len(),
{
    let total = out.len();
    let mut i: usize = 0;
    while i < part.len()
        invariant
            i <= part@.len(),
            total == out@.len(),
            at + part@.len() <= out@.len(),
            out@.len() == old(out)@.len(),
            out@ == spec_patched(old(out)@, at as int, part@.subrange(0, i as int)),
        decreases part@.len() - i,
    {
        out[at + i] = part[i];
        i += 1;
        assert(out@ =~= spec_patched(old(out)@, at as int, part@.subrange(0, i as int)));
    }
    assert(part@.subrange(0, part@.len() as int) =~= part@);
}

/// What stands in a stream behind a patch still stands there after it.
pub proof fn lemma_holds_behind_patch(out: Seq<u8>, at: int, part: Seq<u8>, p: int, held: Seq<u8>)
    requires
        0 <= at,
        at + part.len() <= out.len(),
        at + part.len() <= p,
        spec_holds_at(out, p, held),
    ensures
        spec_holds_at(spec_patched(out, at, part), p, held),
{
    assert(spec_patched(out, at, part).subrange(p, p + held.len()) =~= out.subrange(
        p,
        p + held.len(),
    ));
}

} // verus!
