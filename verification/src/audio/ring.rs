//! The lock-free rings between the audio callback and the writer.
//!
//! The two ends live on different threads. Of the end at hand, what went through it so far is
//! known exactly; how much room or how much audio the other end has left for it is not.

use rtrb::{Consumer, Producer, RingBuffer};
use vstd::prelude::*;

verus! {

/// The writing end of a ring.
#[verifier::external_type_specification]
#[verifier::external_body]
#[verifier::reject_recursive_types(T)]
pub struct ExProducer<T>(rtrb::Producer<T>);

/// The reading end of a ring.
#[verifier::external_type_specification]
#[verifier::external_body]
#[verifier::reject_recursive_types(T)]
pub struct ExConsumer<T>(rtrb::Consumer<T>);

/// Every sample, as bits, that was put into a ring so far, in order.
pub uninterp spec fn samples_sent(p: Producer<u32>) -> Seq<u32>;

/// How many samples a ring was made to hold.
pub uninterp spec fn sample_room(p: Producer<u32>) -> nat;

/// Every sample, as bits, that was taken out of a ring so far, in order.
pub uninterp spec fn samples_received(c: Consumer<u32>) -> Seq<u32>;

/// How many samples the reading end has seen in the ring and not taken out yet. More may have
/// been put in since it last looked.
pub uninterp spec fn samples_known(c: Consumer<u32>) -> nat;

/// Every mark, as frame index and capture time, that was put into a ring so far, in order.
pub uninterp spec fn marks_sent(p: Producer<(u64, u128)>) -> Seq<(u64, u128)>;

/// How many marks a ring was made to hold.
pub uninterp spec fn mark_room(p: Producer<(u64, u128)>) -> nat;

/// Every mark that was taken out of a ring so far, in order.
pub uninterp spec fn marks_received(c: Consumer<(u64, u128)>) -> Seq<(u64, u128)>;

/// How often a mark was asked for so far and the ring turned out to be empty.
pub uninterp spec fn marks_run_dry(c: Consumer<(u64, u128)>) -> nat;

/// `RingBuffer::new` makes an empty ring of the given capacity. It allocates the whole of it,
/// which panics beyond the largest allocation there can be.
#[verifier::external_body]
pub(crate) fn sample_ring(capacity: usize) -> (r: (Producer<u32>, Consumer<u32>))
    requires
        capacity * 4 <= isize::MAX,
    ensures
        samples_sent(r.0) == Seq::<u32>::empty(),
        sample_room(r.0) == capacity,
        samples_received(r.1) == Seq::<u32>::empty(),
{
    RingBuffer::new(capacity)
}

/// `RingBuffer::new`, for marks, which take thirty-two bytes each.
#[verifier::external_body]
pub(crate) fn mark_ring(capacity: usize) -> (r: (Producer<(u64, u128)>, Consumer<(u64, u128)>))
    requires
        capacity * 32 <= isize::MAX,
    ensures
        marks_sent(r.0) == Seq::<(u64, u128)>::empty(),
        mark_room(r.0) == capacity,
        marks_received(r.1) == Seq::<(u64, u128)>::empty(),
        marks_run_dry(r.1) == 0,
{
    RingBuffer::new(capacity)
}

/// `Producer::push_entire_slice` puts all of the samples into the ring, in order, or none
/// where there is not enough room. There is enough while the ring could hold everything that
/// was ever put into it; beyond that it depends on how far the other end has come.
#[verifier::external_body]
pub(crate) fn send_samples(p: &mut Producer<u32>, samples: &Vec<u32>) -> (sent: bool)
    ensures
        sent ==> samples_sent(*final(p)) == samples_sent(*old(p)) + samples@,
        !sent ==> samples_sent(*final(p)) == samples_sent(*old(p)),
        sample_room(*final(p)) == sample_room(*old(p)),
        samples_sent(*old(p)).len() + samples@.len() <= sample_room(*old(p)) ==> sent,
        samples@.len() > sample_room(*old(p)) ==> !sent,
{
    p.push_entire_slice(samples.as_slice()).is_ok()
}

/// `Producer::push` puts a mark into the ring, unless it is full. It is not while the ring
/// could hold everything that was ever put into it.
#[verifier::external_body]
pub(crate) fn send_mark(p: &mut Producer<(u64, u128)>, mark: (u64, u128)) -> (sent: bool)
    ensures
        sent ==> marks_sent(*final(p)) == marks_sent(*old(p)).push(mark),
        !sent ==> marks_sent(*final(p)) == marks_sent(*old(p)),
        mark_room(*final(p)) == mark_room(*old(p)),
        marks_sent(*old(p)).len() < mark_room(*old(p)) ==> sent,
{
    p.push(mark).is_ok()
}

/// `Consumer::slots` looks how many samples can be taken out now, keeps that count and answers
/// it. Looking takes nothing out. Which number it is depends on the other end.
#[verifier::external_body]
pub(crate) fn samples_waiting(c: &mut Consumer<u32>) -> (n: usize)
    ensures
        samples_known(*final(c)) == n,
        samples_received(*final(c)) == samples_received(*old(c)),
{
    c.slots()
}

/// `Consumer::pop_partial_slice` takes samples out of the ring into the front of a buffer, in
/// order, as many as there are and fit, and leaves the rest of the buffer as it is. Here it is
/// given the first `most` places, and fills all of them where as many samples were seen
/// before. Beyond that it looks again, and how many there are depends on the other end.
#[verifier::external_body]
pub(crate) fn receive_samples(c: &mut Consumer<u32>, buffer: &mut Vec<u32>, most: usize) -> (n:
    usize)
    requires
        most <= old(buffer)@.len(),
    ensures
        n <= most,
        final(buffer)@.len() == old(buffer)@.len(),
        samples_received(*final(c)) == samples_received(*old(c)) + final(buffer)@.take(n as int),
        final(buffer)@.skip(n as int) == old(buffer)@.skip(n as int),
        most <= samples_known(*old(c)) ==> n == most && samples_known(*final(c)) == samples_known(
            *old(c),
        ) - n,
{
    c.pop_partial_slice(&mut buffer[..most]).0.len()
}

/// `Consumer::pop` takes the next mark out of the ring, or finds the ring empty. Which of the
/// two depends on the other end.
#[verifier::external_body]
pub(crate) fn receive_mark(c: &mut Consumer<(u64, u128)>) -> (r: Option<(u64, u128)>)
    ensures
        (match r {
            Some(mark) => marks_received(*final(c)) == marks_received(*old(c)).push(mark)
                && marks_run_dry(*final(c)) == marks_run_dry(*old(c)),
            None => marks_received(*final(c)) == marks_received(*old(c)) && marks_run_dry(
                *final(c),
            ) == marks_run_dry(*old(c)) + 1,
        }),
{
    c.pop().ok()
}

} // verus!
