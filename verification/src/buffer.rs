//! The staging buffer shared by every state machine.
//!
//! The buffer itself is [`oval::Buffer`]. Its behaviour is not verified here:
//! each function below states, without proof, what the corresponding method of
//! the buffer does to the two regions a driver can observe, the committed data
//! and the free space behind it, and how the two relate to the capacity the
//! buffer was made with.

use vstd::prelude::*;

verus! {

/// `oval::Buffer`, made known so that it can stand in fields and signatures.
/// Nothing of its inside is visible.
#[verifier::external_type_specification]
#[verifier::external_body]
pub struct ExBuffer(oval::Buffer);

/// The committed bytes of a buffer, oldest first: what `oval::Buffer::data`
/// hands out.
pub uninterp spec fn buffer_data(buffer: oval::Buffer) -> Seq<u8>;

/// The bytes of the free region behind the committed data: what
/// `oval::Buffer::space` hands out.
pub uninterp spec fn buffer_space(buffer: oval::Buffer) -> Seq<u8>;

/// The capacity that a buffer was made with: what `oval::Buffer::capacity`
/// hands out. Data and free space lie in a memory of this size.
pub uninterp spec fn buffer_capacity(buffer: oval::Buffer) -> nat;

/// `oval::Buffer::with_capacity`: a buffer of the given capacity with no data
/// and `capacity` zeroed bytes of space.
#[verifier::external_body]
pub(crate) fn buffer_with_capacity(capacity: usize) -> (buffer: oval::Buffer)
    requires
        capacity <= isize::MAX,
    ensures
        buffer_data(buffer) == Seq::<u8>::empty(),
        buffer_space(buffer) == Seq::new(capacity as nat, |i: int| 0u8),
        buffer_capacity(buffer) == capacity,
{
    oval::Buffer::with_capacity(capacity)
}

/// `oval::Buffer::available_data`: the number of committed bytes.
#[verifier::external_body]
pub(crate) fn buffer_available_data(buffer: &oval::Buffer) -> (n: usize)
    ensures
        n == buffer_data(*buffer).len(),
{
    buffer.available_data()
}

/// `oval::Buffer::available_space`: the number of free bytes.
#[verifier::external_body]
pub(crate) fn buffer_available_space(buffer: &oval::Buffer) -> (n: usize)
    ensures
        n == buffer_space(*buffer).len(),
{
    buffer.available_space()
}

/// `oval::Buffer::data`: the committed bytes as a slice.
#[verifier::external_body]
pub(crate) fn buffer_data_slice(buffer: &oval::Buffer) -> (data: &[u8])
    ensures
        data@ == buffer_data(*buffer),
{
    buffer.data()
}

/// `oval::Buffer::space`: the free region as a mutable slice. Writing through
/// the slice changes the free region and nothing else; its length is fixed,
/// and so is the capacity.
#[verifier::external_body]
pub(crate) fn buffer_space_slice(buffer: &mut oval::Buffer) -> (space: &mut [u8])
    ensures
        space@ == buffer_space(*old(buffer)),
        final(space)@.len() == space@.len(),
        buffer_space(*final(buffer)) == final(space)@,
        buffer_data(*final(buffer)) == buffer_data(*old(buffer)),
        buffer_capacity(*final(buffer)) == buffer_capacity(*old(buffer)),
{
    buffer.space()
}

/// `oval::Buffer::fill`: commits the first `min(count, space)` bytes of the
/// free region, appending them to the data, and returns how many were
/// committed. The buffer may move its data to the front of its memory, so the
/// free region can be larger afterwards than what was left of it. Data and
/// free region together never take more than the capacity, which stays.
#[verifier::external_body]
pub(crate) fn buffer_fill(buffer: &mut oval::Buffer, count: usize) -> (n: usize)
    ensures
        n == if count <= buffer_space(*old(buffer)).len() {
            count as int
        } else {
            buffer_space(*old(buffer)).len() as int
        },
        buffer_data(*final(buffer)) == buffer_data(*old(buffer)) + buffer_space(
            *old(buffer),
        ).subrange(0, n as int),
        buffer_space(*final(buffer)).len() >= buffer_space(*old(buffer)).len() - n,
        buffer_capacity(*final(buffer)) == buffer_capacity(*old(buffer)),
        buffer_data(*final(buffer)).len() + buffer_space(*final(buffer)).len() <= buffer_capacity(
            *final(buffer),
        ),
{
    buffer.fill(count)
}

/// `oval::Buffer::consume`: discards the first `min(count, data)` committed
/// bytes and returns how many were discarded. The buffer moves its data to
/// the front of its memory once the data starts behind the first half of the
/// capacity, so the free region can be larger afterwards, and data and free
/// region together take at least the capacity less its half, rounded down,
/// and never more than the capacity, which stays.
#[verifier::external_body]
pub(crate) fn buffer_consume(buffer: &mut oval::Buffer, count: usize) -> (n: usize)
    ensures
        n == if count <= buffer_data(*old(buffer)).len() {
            count as int
        } else {
            buffer_data(*old(buffer)).len() as int
        },
        buffer_data(*final(buffer)) == buffer_data(*old(buffer)).skip(n as int),
        buffer_space(*final(buffer)).len() >= buffer_space(*old(buffer)).len(),
        buffer_capacity(*final(buffer)) == buffer_capacity(*old(buffer)),
        buffer_data(*final(buffer)).len() + buffer_space(*final(buffer)).len() <= buffer_capacity(
            *final(buffer),
        ),
        buffer_data(*final(buffer)).len() + buffer_space(*final(buffer)).len() >= buffer_capacity(
            *final(buffer),
        ) - buffer_capacity(*final(buffer)) / 2,
{
    buffer.consume(count)
}

/// `oval::Buffer::reset`: drops all committed bytes. The whole memory of the
/// buffer becomes free space, so the free region is as large as the
/// capacity, which stays, and gains at least the room of the dropped bytes.
#[verifier::external_body]
pub(crate) fn buffer_reset(buffer: &mut oval::Buffer)
    ensures
        buffer_data(*final(buffer)) == Seq::<u8>::empty(),
        buffer_space(*final(buffer)).len() >= buffer_data(*old(buffer)).len() + buffer_space(
            *old(buffer),
        ).len(),
        buffer_capacity(*final(buffer)) == buffer_capacity(*old(buffer)),
        buffer_space(*final(buffer)).len() == buffer_capacity(*final(buffer)),
{
    buffer.reset()
}

} // verus!
