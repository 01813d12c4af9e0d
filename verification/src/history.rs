//! The fixed-capacity history buffers of the filter stage, as `heapless`
//! provides them.
//!
//! A buffer is known to the verifier by two things: the slots it has filled,
//! in storage order, and the slot that the next write goes to.

use vstd::prelude::*;
use heapless::HistoryBuffer;

verus! {

/// `heapless::HistoryBuffer`, of which the verifier sees nothing but the two
/// names below.
#[verifier::external_type_specification]
#[verifier::external_body]
#[verifier::reject_recursive_types(T)]
pub struct ExHistoryBuffer<T, const N: usize>(HistoryBuffer<T, N>);

/// The filled slots of a sine history, in storage order.
pub uninterp spec fn sine_slots(buffer: HistoryBuffer<u32, 8>) -> Seq<u32>;

/// The slot that the next write to a sine history goes to.
pub uninterp spec fn sine_cursor(buffer: HistoryBuffer<u32, 8>) -> nat;

/// The filled slots of a square history, in storage order.
pub uninterp spec fn square_slots(buffer: HistoryBuffer<u32, 4>) -> Seq<u32>;

/// The slot that the next write to a square history goes to.
pub uninterp spec fn square_cursor(buffer: HistoryBuffer<u32, 4>) -> nat;

/// What holds of the slots and the cursor of every buffer: until the buffer
/// is full the cursor stands behind the last filled slot.
pub open spec fn ring_shape(slots: Seq<u32>, cursor: nat, capacity: nat) -> bool {
    &&& slots.len() <= capacity
    &&& cursor < capacity
    &&& slots.len() < capacity ==> cursor == slots.len()
}

/// The slots after a write: one more while there is room, else the slot at
/// the cursor overwritten.
pub open spec fn ring_written(slots: Seq<u32>, cursor: nat, capacity: nat, value: u32) -> Seq<
    u32,
> {
    if slots.len() < capacity {
        slots.push(value)
    } else {
        slots.update(cursor as int, value)
    }
}

/// The cursor after a write.
pub open spec fn ring_advanced(cursor: nat, capacity: nat) -> nat {
    if cursor + 1 == capacity {
        0
    } else {
        cursor + 1
    }
}

/// `HistoryBuffer::new`: an empty buffer whose first write goes to slot 0.
#[verifier::external_body]
pub(crate) fn sine_history_new() -> (buffer: HistoryBuffer<u32, 8>)
    ensures
        sine_slots(buffer) == Seq::<u32>::empty(),
        sine_cursor(buffer) == 0,
{
    HistoryBuffer::new()
}

/// `HistoryBuffer::write`: the value goes to the slot at the cursor, which
/// moves on by one and wraps at the capacity; the buffer grows by that
/// slot until it is full.
#[verifier::external_body]
pub(crate) fn sine_history_write(buffer: &mut HistoryBuffer<u32, 8>, value: u32)
    ensures
        ring_shape(sine_slots(*old(buffer)), sine_cursor(*old(buffer)), 8) ==> sine_slots(
            *final(buffer),
        ) == ring_written(sine_slots(*old(buffer)), sine_cursor(*old(buffer)), 8, value),
        ring_shape(sine_slots(*old(buffer)), sine_cursor(*old(buffer)), 8) ==> sine_cursor(
            *final(buffer),
        ) == ring_advanced(sine_cursor(*old(buffer)), 8),
{
    buffer.write(value)
}

/// `HistoryBuffer::as_slice`, copied out: the filled slots in storage order.
#[verifier::external_body]
pub(crate) fn sine_history_values(buffer: &HistoryBuffer<u32, 8>) -> (values: Vec<u32>)
    ensures
        values@ == sine_slots(*buffer),
{
    buffer.as_slice().to_vec()
}

/// `HistoryBuffer::new`: an empty buffer whose first write goes to slot 0.
#[verifier::external_body]
pub(crate) fn square_history_new() -> (buffer: HistoryBuffer<u32, 4>)
    ensures
        square_slots(buffer) == Seq::<u32>::empty(),
        square_cursor(buffer) == 0,
{
    HistoryBuffer::new()
}

/// `HistoryBuffer::write`: the value goes to the slot at the cursor, which
/// moves on by one and wraps at the capacity; the buffer grows by that
/// slot until it is full.
#[verifier::external_body]
pub(crate) fn square_history_write(buffer: &mut HistoryBuffer<u32, 4>, value: u32)
    ensures
        ring_shape(square_slots(*old(buffer)), square_cursor(*old(buffer)), 4) ==> square_slots(
            *final(buffer),
        ) == ring_written(square_slots(*old(buffer)), square_cursor(*old(buffer)), 4, value),
        ring_shape(square_slots(*old(buffer)), square_cursor(*old(buffer)), 4) ==> square_cursor(
            *final(buffer),
        ) == ring_advanced(square_cursor(*old(buffer)), 4),
{
    buffer.write(value)
}

/// `HistoryBuffer::as_slice`, copied out: the filled slots in storage order.
#[verifier::external_body]
pub(crate) fn square_history_values(buffer: &HistoryBuffer<u32, 4>) -> (values: Vec<u32>)
    ensures
        values@ == square_slots(*buffer),
{
    buffer.as_slice().to_vec()
}

} // verus!
