//! Fixed-size records and the sentinel-terminated lists that hold them.
//!
//! A list is stored as its records one after another, followed by a single
//! big-endian `-1` where the next record's first field would stand.

use crate::error::Error;
use crate::wire::{
    get_i32_be, lemma_holds_split, lemma_read_held_i32_be, put_i32_be, spec_bytes_i32_be,
    spec_get_i32_be, spec_holds_at, spec_i32_be,
};
use vstd::prelude::*;

verus! {

/// The value that stands in place of a record's first field where no record
/// is present.
pub const NONE_SENTINEL: i32 = -1;

/// The record at `at`, `None` where the sentinel stands there, or the error
/// for a stream that ends too early.
pub open spec fn spec_read_option<T: Record>(bytes: Seq<u8>, at: int) -> Result<Option<T>, Error> {
    match spec_get_i32_be(bytes, at) {
        None => Err(Error::TruncatedStream),
        Some(first) => if first == NONE_SENTINEL {
            Ok(None)
        } else if at + T::spec_size() <= bytes.len() {
            Ok(Some(T::spec_parse(bytes, at)))
        } else {
            Err(Error::TruncatedStream)
        },
    }
}

/// The list that starts at `at`: its records and the position just behind
/// its sentinel, or the error for a stream that ends before the sentinel.
pub open spec fn spec_read_list<T: Record>(bytes: Seq<u8>, at: int) -> Result<(Seq<T>, int), Error>
    decreases bytes.len() - at,
{
    if T::spec_size() < 4 {
        Err(Error::TruncatedStream)
    } else {
        match spec_read_option::<T>(bytes, at) {
            Err(e) => Err(e),
            Ok(None) => Ok((Seq::empty(), at + 4)),
            Ok(Some(x)) => match spec_read_list::<T>(bytes, at + T::spec_size()) {
                Err(e) => Err(e),
                Ok((rest, end)) => Ok((seq![x] + rest, end)),
            },
        }
    }
}

/// The bytes of the records of `items`, one after another, without sentinel.
pub open spec fn spec_items_bytes<T: Record>(items: Seq<T>) -> Seq<u8>
    decreases items.len(),
{
    if items.len() == 0 {
        Seq::empty()
    } else {
        spec_items_bytes(items.drop_last()) + items.last().spec_bytes()
    }
}

/// The bytes of a list: its records, then the sentinel.
pub open spec fn spec_list_bytes<T: Record>(items: Seq<T>) -> Seq<u8> {
    spec_items_bytes(items) + spec_bytes_i32_be(NONE_SENTINEL)
}

/// A record of fixed size whose first field is a big-endian 32-bit value
/// that is never `-1` in a stored record.
pub trait Record: Sized {
    /// The number of bytes that one record takes.
    spec fn spec_size() -> nat;

    /// The record that the bytes at `at` hold.
    spec fn spec_parse(bytes: Seq<u8>, at: int) -> Self;

    /// The bytes that the record is stored as.
    spec fn spec_bytes(&self) -> Seq<u8>;

    /// The record's first field: the one that must not be the sentinel.
    spec fn spec_first(&self) -> i32;

    /// What of the record is stored: the record that is read back.
    spec fn spec_stored(&self) -> Self;

    /// A record takes at least the four bytes of its first field.
    proof fn lemma_size_min()
        ensures
            Self::spec_size() >= 4,
    ;

    /// A record takes as many bytes as its kind says.
    proof fn lemma_bytes_size(&self)
        ensures
            self.spec_bytes().len() == Self::spec_size(),
    ;

    /// Where the bytes of a record stand, its first field is read as the
    /// first four bytes and the record is read back as it was stored.
    proof fn lemma_parse_written(&self, bytes: Seq<u8>, at: int)
        requires
            spec_holds_at(bytes, at, self.spec_bytes()),
        ensures
            spec_i32_be(bytes, at) == self.spec_first(),
            Self::spec_parse(bytes, at) == self.spec_stored(),
    ;

    /// The number of bytes that one record takes.
    fn size() -> (n: usize)
        ensures
            n == Self::spec_size(),
            4 <= n <= 0x1000,
    ;

    /// Reads the record at `at`, which must lie inside `bytes`.
    fn read_from(bytes: &[u8], at: usize) -> (r: Self)
        requires
            at + Self::spec_size() <= bytes@.len(),
        ensures
            r == Self::spec_parse(bytes@, at as int),
    ;

    /// Appends the record's bytes to `out`.
    fn write_to(&self, out: &mut Vec<u8>)
        ensures
            final(out)@ == old(out)@ + self.spec_bytes(),
            self.spec_bytes().len() == Self::spec_size(),
    ;
}

/// Reads the record at `at`, or nothing where the sentinel stands there.
pub fn read_option_from<T: Record>(bytes: &[u8], at: usize) -> (r: Result<Option<T>, Error>)
    ensures
        r == spec_read_option::<T>(bytes@, at as int),
{
    match get_i32_be(bytes, at) {
        None => Err(Error::TruncatedStream),
        Some(first) => {
            if first == NONE_SENTINEL {
                Ok(None)
            } else if bytes.len() - at >= T::size() {
                Ok(Some(T::read_from(bytes, at)))
            } else {
                Err(Error::TruncatedStream)
            }
        },
    }
}

/// Appends the record's bytes to `out`, or the sentinel for `None`.
pub fn write_option_to<T: Record>(opt: Option<&T>, out: &mut Vec<u8>)
    ensures
        final(out)@ == old(out)@ + (match opt {
            Some(x) => x.spec_bytes(),
            None => spec_bytes_i32_be(NONE_SENTINEL),
        }),
{
    match opt {
        Some(x) => x.write_to(out),
        None => put_i32_be(out, NONE_SENTINEL),
    }
}

/// Reads the sentinel-terminated list at `at`. Returns its records and the
/// position just behind the sentinel.
pub fn read_list<T: Record>(bytes: &[u8], at: usize) -> (r: Result<(Vec<T>, usize), Error>)
    ensures
        match r {
            Ok((items, end)) => spec_read_list::<T>(bytes@, at as int) == Ok::<(Seq<T>, int), Error>(
                (items@, end as int),
            ),
            Err(e) => spec_read_list::<T>(bytes@, at as int) == Err::<(Seq<T>, int), Error>(e),
        },
{
    let mut items: Vec<T> = Vec::new();
    let mut pos: usize = at;
    let size = T::size();
    let total = bytes.len();
    loop
        invariant
            total == bytes@.len(),
            size == T::spec_size(),
            4 <= size <= 0x1000,
            at <= pos,
            spec_read_list::<T>(bytes@, at as int) == (match spec_read_list::<T>(
                bytes@,
                pos as int,
            ) {
                Err(e) => Err::<(Seq<T>, int), Error>(e),
                Ok((rest, end)) => Ok((items@ + rest, end)),
            }),
        decreases bytes@.len() - pos,
    {
        match read_option_from::<T>(bytes, pos) {
            Err(e) => {
                return Err(e);
            },
            Ok(None) => {
                assert(items@ + Seq::<T>::empty() =~= items@);
                return Ok((items, pos + 4));
            },
            Ok(Some(x)) => {
                proof {
                    let tail = spec_read_list::<T>(bytes@, pos + size);
                    if let Ok((rest, end)) = tail {
                        assert(items@ + (seq![x] + rest) =~= items@.push(x) + rest);
                    }
                }
                items.push(x);
                pos = pos + size;
            },
        }
    }
}

/// Appends the records of `items` and the closing sentinel to `out`.
pub fn write_list<T: Record>(items: &Vec<T>, out: &mut Vec<u8>)
    ensures
        final(out)@ == old(out)@ + spec_list_bytes(items@),
{
    let mut i: usize = 0;
    while i < items.len()
        invariant
            i <= items@.len(),
            out@ == old(out)@ + spec_items_bytes(items@.subrange(0, i as int)),
        decreases items@.len() - i,
    {
        items[i].write_to(out);
        proof {
            let before = items@.subrange(0, i as int);
            let now = items@.subrange(0, i + 1);
            assert(now.drop_last() =~= before);
            assert(now.last() == items@[i as int]);
            assert(out@ =~= old(out)@ + spec_items_bytes(now));
        }
        i += 1;
    }
    assert(items@.subrange(0, items@.len() as int) =~= items@);
    put_i32_be(out, NONE_SENTINEL);
    assert(out@ =~= old(out)@ + spec_list_bytes(items@));
}

/// A list decodes to exactly the records in front of its sentinel: the
/// record at place `i` is the one that stands `i` record sizes behind the
/// start of the list and does not begin with the sentinel, the sentinel
/// stands right behind the last record, and the list ends right behind the
/// sentinel.
pub proof fn lemma_list_decoded<T: Record>(bytes: Seq<u8>, at: int, i: int)
    requires
        spec_read_list::<T>(bytes, at) is Ok,
        0 <= i < spec_read_list::<T>(bytes, at)->Ok_0.0.len(),
    ensures
        ({
            let (items, end) = spec_read_list::<T>(bytes, at)->Ok_0;
            let size = T::spec_size() as int;
            &&& items[i] == T::spec_parse(bytes, at + i * size)
            &&& spec_get_i32_be(bytes, at + i * size) matches Some(first) && first != NONE_SENTINEL
            &&& at + (i + 1) * size <= bytes.len()
        }),
    decreases i,
{
    let size = T::spec_size() as int;
    if i > 0 {
        lemma_list_decoded::<T>(bytes, at + size, i - 1);
        assert((at + size) + (i - 1) * size == at + i * size) by (nonlinear_arith);
        assert((at + size) + ((i - 1) + 1) * size == at + (i + 1) * size) by (nonlinear_arith);
    } else {
        assert(at + 0 * size == at);
        assert(at + (0 + 1) * size == at + size) by (nonlinear_arith);
    }
}

/// A list ends with its sentinel: the sentinel stands right behind the
/// last record, the list ends right behind the sentinel and inside the
/// stream, and nothing behind that was looked at to find it.
pub proof fn lemma_list_end<T: Record>(bytes: Seq<u8>, at: int)
    requires
        spec_read_list::<T>(bytes, at) is Ok,
    ensures
        ({
            let (items, end) = spec_read_list::<T>(bytes, at)->Ok_0;
            let size = T::spec_size() as int;
            &&& end == at + items.len() * size + 4
            &&& spec_get_i32_be(bytes, end - 4) == Some(NONE_SENTINEL)
            &&& 0 <= at
            &&& end <= bytes.len()
        }),
    decreases bytes.len() - at,
{
    let size = T::spec_size() as int;
    match spec_read_option::<T>(bytes, at) {
        Ok(Some(x)) => {
            lemma_list_end::<T>(bytes, at + size);
            let (rest, end) = spec_read_list::<T>(bytes, at + size)->Ok_0;
            assert((at + size) + rest.len() * size == at + (rest.len() + 1) * size)
                by (nonlinear_arith);
        },
        _ => {
            assert(at + 0 * size + 4 == at + 4);
        },
    }
}

/// The records as they are read back: what of each is stored.
pub open spec fn spec_stored_items<T: Record>(items: Seq<T>) -> Seq<T> {
    Seq::new(items.len(), |i: int| items[i].spec_stored())
}

/// The bytes of some records are those of the first, then those of the
/// others.
pub proof fn lemma_items_bytes_front<T: Record>(items: Seq<T>)
    requires
        items.len() > 0,
    ensures
        spec_items_bytes(items) == items[0].spec_bytes() + spec_items_bytes(
            items.subrange(1, items.len() as int),
        ),
    decreases items.len(),
{
    let tail = items.subrange(1, items.len() as int);
    if items.len() == 1 {
        assert(items.drop_last() =~= Seq::<T>::empty());
        assert(tail =~= Seq::<T>::empty());
        assert(spec_items_bytes(items) =~= items[0].spec_bytes() + spec_items_bytes(tail));
    } else {
        lemma_items_bytes_front(items.drop_last());
        assert(items.drop_last().subrange(1, items.len() - 1) =~= tail.drop_last());
        assert(items.drop_last()[0] == items[0]);
        assert(tail.last() == items.last());
        assert(spec_items_bytes(items) =~= items[0].spec_bytes() + spec_items_bytes(tail));
    }
}

/// A list that was written decodes to exactly the records that were
/// written in front of its sentinel, each as it was stored, and ends right
/// behind the sentinel, whatever stands behind that: nothing there is
/// read. No record may begin with the sentinel.
pub proof fn lemma_list_written<T: Record>(bytes: Seq<u8>, at: int, items: Seq<T>)
    requires
        spec_holds_at(bytes, at, spec_list_bytes(items)),
        forall|i: int| 0 <= i < items.len() ==> (#[trigger] items[i]).spec_first() != NONE_SENTINEL,
    ensures
        spec_read_list::<T>(bytes, at) == Ok::<(Seq<T>, int), Error>(
            (spec_stored_items(items), at + spec_list_bytes(items).len()),
        ),
    decreases items.len(),
{
    let sentinel = spec_bytes_i32_be(NONE_SENTINEL);
    lemma_holds_split(bytes, at, spec_items_bytes(items), sentinel);
    T::lemma_size_min();
    if items.len() == 0 {
        lemma_read_held_i32_be(bytes, at, NONE_SENTINEL);
        assert(spec_stored_items(items) =~= Seq::<T>::empty());
        assert(spec_read_option::<T>(bytes, at) == Ok::<Option<T>, Error>(None));
    } else {
        let first = items[0];
        let tail = items.subrange(1, items.len() as int);
        lemma_items_bytes_front(items);
        first.lemma_bytes_size();
        let size = T::spec_size() as int;
        assert(spec_list_bytes(items) =~= first.spec_bytes() + spec_list_bytes(tail));
        lemma_holds_split(bytes, at, first.spec_bytes(), spec_list_bytes(tail));
        first.lemma_parse_written(bytes, at);
        assert forall|i: int| 0 <= i < tail.len() implies (#[trigger] tail[i]).spec_first()
            != NONE_SENTINEL by {
            assert(tail[i] == items[i + 1]);
        }
        lemma_list_written::<T>(bytes, at + size, tail);
        assert(seq![first.spec_stored()] + spec_stored_items(tail) =~= spec_stored_items(items));
        assert(spec_get_i32_be(bytes, at) == Some(first.spec_first()));
        assert(spec_read_option::<T>(bytes, at) == Ok::<Option<T>, Error>(
            Some(first.spec_stored()),
        ));
        assert(spec_list_bytes(items).len() == size + spec_list_bytes(tail).len());
    }
}

} // verus!
