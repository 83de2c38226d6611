//! The lock-free single-producer single-consumer queues (`rtrb`) that carry
//! filled slots between the audio thread and the processing thread, with a
//! record, on each end, of what passed through it.

use vstd::prelude::*;

verus! {

/// `rtrb::Producer`, the sending end of a ring buffer.
#[verifier::external_type_specification]
#[verifier::external_body]
#[verifier::reject_recursive_types(T)]
pub struct ExProducer<T>(rtrb::Producer<T>);

/// `rtrb::Consumer`, the receiving end of a ring buffer.
#[verifier::external_type_specification]
#[verifier::external_body]
#[verifier::reject_recursive_types(T)]
pub struct ExConsumer<T>(rtrb::Consumer<T>);

/// `rtrb::RingBuffer::new`: a queue of `capacity` slots, as its two ends.
/// Nothing is claimed of them. Like any allocation, reserving the slots
/// fails for a capacity beyond `isize::MAX` bytes; that is not modelled.
#[verifier::external_body]
fn ring_buffer<T>(capacity: usize) -> (rtrb::Producer<T>, rtrb::Consumer<T>) {
    rtrb::RingBuffer::new(capacity)
}

/// `rtrb::Producer::push`: the value goes into the queue, or, when the queue
/// is full, comes back unchanged as the error (`PushError::Full`). Which of
/// the two happens depends on the consuming thread and is not claimed.
#[verifier::external_body]
fn ring_push<T>(producer: &mut rtrb::Producer<T>, value: T) -> (r: Result<(), T>)
    ensures
        r matches Err(v) ==> v == value,
{
    match producer.push(value) {
        Ok(()) => Ok(()),
        Err(rtrb::PushError::Full(v)) => Err(v),
    }
}

/// `rtrb::Consumer::pop`, as an `Option`: the oldest value in the queue, or
/// `None` when it is empty. What it holds depends on the producing thread and
/// is not claimed.
#[verifier::external_body]
fn ring_pop<T>(consumer: &mut rtrb::Consumer<T>) -> Option<T> {
    consumer.pop().ok()
}

/// The sending end of a queue, with the capacity the queue was made with
/// and a record of every value handed to it and of those that it took in.
#[verifier::reject_recursive_types(T)]
pub struct Sender<T> {
    producer: rtrb::Producer<T>,
    capacity: Ghost<nat>,
    handed: Ghost<Seq<T>>,
    accepted: Ghost<Seq<T>>,
}

/// The receiving end of a queue, with the capacity the queue was made with,
/// a record of the result of every poll (`None` for an empty queue) and of
/// every value received.
#[verifier::reject_recursive_types(T)]
pub struct Receiver<T> {
    consumer: rtrb::Consumer<T>,
    capacity: Ghost<nat>,
    polls: Ghost<Seq<Option<T>>>,
    received: Ghost<Seq<T>>,
}

/// A queue of `capacity` slots, as its two ends, with nothing passed yet.
pub fn queue<T>(capacity: usize) -> (r: (Sender<T>, Receiver<T>))
    ensures
        r.0.capacity() == capacity,
        r.1.capacity() == capacity,
        r.0.handed() == Seq::<T>::empty(),
        r.0.accepted() == Seq::<T>::empty(),
        r.1.polls() == Seq::<Option<T>>::empty(),
        r.1.received() == Seq::<T>::empty(),
{
    let (producer, consumer) = ring_buffer(capacity);
    (
        Sender {
            producer,
            capacity: Ghost(capacity as nat),
            handed: Ghost(Seq::empty()),
            accepted: Ghost(Seq::empty()),
        },
        Receiver {
            consumer,
            capacity: Ghost(capacity as nat),
            polls: Ghost(Seq::empty()),
            received: Ghost(Seq::empty()),
        },
    )
}

impl<T> Sender<T> {
    /// The number of slots the queue was made with.
    pub closed spec fn capacity(&self) -> nat {
        self.capacity@
    }

    /// Every value handed to `push`, in order.
    pub closed spec fn handed(&self) -> Seq<T> {
        self.handed@
    }

    /// The values that `push` put into the queue, in order.
    pub closed spec fn accepted(&self) -> Seq<T> {
        self.accepted@
    }

    /// Put `value` into the queue; when it is full, get `value` back as the
    /// error. Either way the value is recorded as handed; it is recorded as
    /// taken in exactly when the push succeeded.
    pub fn push(&mut self, value: T) -> (r: Result<(), T>)
        ensures
            final(self).capacity() == old(self).capacity(),
            final(self).handed() == old(self).handed().push(value),
            r is Ok ==> final(self).accepted() == old(self).accepted().push(value),
            r matches Err(v) ==> v == value && final(self).accepted() == old(self).accepted(),
    {
        let ghost v = value;
        let r = ring_push(&mut self.producer, value);
        proof {
            self.handed@ = self.handed@.push(v);
            if r is Ok {
                self.accepted@ = self.accepted@.push(v);
            }
        }
        r
    }
}

impl<T> Receiver<T> {
    /// The number of slots the queue was made with.
    pub closed spec fn capacity(&self) -> nat {
        self.capacity@
    }

    /// The result of every poll of the queue, in order: the value taken
    /// out, or `None` where the queue was empty.
    pub closed spec fn polls(&self) -> Seq<Option<T>> {
        self.polls@
    }

    /// Every value received from the queue, in order.
    pub closed spec fn received(&self) -> Seq<T> {
        self.received@
    }

    /// Poll the queue: take the oldest value out of it, or `None` when it is
    /// empty. The result is recorded as a poll, and a value as received.
    pub fn pop(&mut self) -> (r: Option<T>)
        ensures
            final(self).capacity() == old(self).capacity(),
            final(self).polls() == old(self).polls().push(r),
            match r {
                Some(x) => final(self).received() == old(self).received().push(x),
                None => final(self).received() == old(self).received(),
            },
    {
        let r = ring_pop(&mut self.consumer);
        proof {
            self.polls@ = self.polls@.push(r);
            if r is Some {
                self.received@ = self.received@.push(r->0);
            }
        }
        r
    }
}

} // verus!
