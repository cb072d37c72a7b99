//! The read buffer, kept in `buf_redux::Buffer`, and the newline search of
//! `memchr`.

use buf_redux::Buffer;
use vstd::prelude::*;

verus! {

#[verifier::external_type_specification]
#[verifier::external_body]
pub struct ExBuffer(buf_redux::Buffer);

/// The bytes that `Buffer::buf` shows: read in and not yet consumed.
pub uninterp spec fn buffer_bytes(b: Buffer) -> Seq<u8>;

/// What `Buffer::capacity` returns.
pub uninterp spec fn buffer_capacity(b: Buffer) -> nat;

/// What `Buffer::usable_space` returns: the free space after the bytes, into
/// which the next copy goes.
pub uninterp spec fn buffer_room(b: Buffer) -> nat;

/// Relies on `Buffer::with_capacity`: an empty buffer of at least `cap` bytes,
/// all of them free at the tail. Allocating more than `isize::MAX` bytes panics.
#[verifier::external_body]
pub(crate) fn new_buffer(cap: usize) -> (r: Buffer)
    requires
        cap <= isize::MAX,
    ensures
        buffer_bytes(r) == Seq::<u8>::empty(),
        buffer_capacity(r) >= cap,
        buffer_room(r) == buffer_capacity(r),
{
    Buffer::with_capacity(cap)
}

/// Relies on `Buffer::buf`: the bytes read in and not yet consumed.
#[verifier::external_body]
pub(crate) fn bytes_of(b: &Buffer) -> (r: &[u8])
    ensures
        r@ == buffer_bytes(*b),
{
    b.buf()
}

/// Relies on `Buffer::capacity`, which is never below the bytes held and the
/// free tail together.
#[verifier::external_body]
pub(crate) fn capacity_of(b: &Buffer) -> (r: usize)
    ensures
        r == buffer_capacity(*b),
        r >= buffer_bytes(*b).len() + buffer_room(*b),
{
    b.capacity()
}

/// Relies on `Buffer::consume`: drops `amt` bytes from the front. Once
/// nothing is left, the whole capacity is free again.
#[verifier::external_body]
pub(crate) fn consume(b: &mut Buffer, amt: usize)
    requires
        amt <= buffer_bytes(*old(b)).len(),
    ensures
        buffer_bytes(*final(b)) == buffer_bytes(*old(b)).skip(amt as int),
        buffer_capacity(*final(b)) == buffer_capacity(*old(b)),
        buffer_bytes(*final(b)).len() == 0 ==> buffer_room(*final(b)) == buffer_capacity(
            *final(b),
        ),
{
    b.consume(amt)
}

/// Relies on `Buffer::make_room`: moves the bytes to the front, so that all
/// free space is at the tail.
#[verifier::external_body]
pub(crate) fn make_room(b: &mut Buffer)
    ensures
        buffer_bytes(*final(b)) == buffer_bytes(*old(b)),
        buffer_capacity(*final(b)) == buffer_capacity(*old(b)),
        buffer_room(*final(b)) == buffer_capacity(*old(b)) - buffer_bytes(*old(b)).len(),
{
    b.make_room()
}

/// Relies on `Buffer::reserve`: afterwards at least `additional` bytes are free
/// at the tail; the bytes are kept and the capacity does not shrink. It panics
/// where the capacity would overflow.
#[verifier::external_body]
pub(crate) fn reserve(b: &mut Buffer, additional: usize)
    requires
        buffer_capacity(*old(b)) + additional <= isize::MAX,
    ensures
        buffer_bytes(*final(b)) == buffer_bytes(*old(b)),
        buffer_capacity(*final(b)) >= buffer_capacity(*old(b)),
        buffer_room(*final(b)) >= additional,
        buffer_capacity(*final(b)) >= buffer_bytes(*final(b)).len() + buffer_room(*final(b)),
        buffer_bytes(*old(b)).len() + buffer_room(*old(b)) == buffer_capacity(*old(b))
            ==> buffer_bytes(*final(b)).len() + buffer_room(*final(b)) == buffer_capacity(
            *final(b),
        ),
{
    b.reserve(additional)
}

/// Relies on `Buffer::copy_from_slice`: copies as much of `src` as fits in the
/// free tail and returns how much that was.
#[verifier::external_body]
pub(crate) fn copy_in(b: &mut Buffer, src: &[u8]) -> (r: usize)
    ensures
        r as int == if src@.len() < buffer_room(*old(b)) {
            src@.len() as int
        } else {
            buffer_room(*old(b)) as int
        },
        buffer_bytes(*final(b)) == buffer_bytes(*old(b)) + src@.take(r as int),
        buffer_room(*final(b)) == buffer_room(*old(b)) - r,
        buffer_capacity(*final(b)) == buffer_capacity(*old(b)),
{
    b.copy_from_slice(src)
}

/// Relies on `memchr::memchr`: the index of the first `needle` in `haystack`.
pub assume_specification[ memchr::memchr ](needle: u8, haystack: &[u8]) -> (r: Option<usize>)
    ensures
        r matches Some(i) ==> i < haystack@.len() && haystack@[i as int] == needle && forall|
            j: int,
        |
            0 <= j < i ==> haystack@[j] != needle,
        r is None ==> forall|j: int| 0 <= j < haystack@.len() ==> haystack@[j] != needle,
;

} // verus!
