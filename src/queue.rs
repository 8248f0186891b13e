//! The bounded queue of command records: a ring buffer of capacity ten that
//! drops its oldest record when a new one arrives while it is full.
use vstd::prelude::*;
use ringbuffer::{AllocRingBuffer, RingBuffer};
use crate::packet::{BlotPacket, PacketState, PacketView};

verus! {

/// How many records the queue holds at most.
pub const QUEUE_CAPACITY: usize = 10;

#[verifier::external_type_specification]
#[verifier::external_body]
#[verifier::reject_recursive_types(T)]
pub struct ExAllocRingBuffer<T>(AllocRingBuffer<T>);

/// The records in a ring buffer, oldest first.
pub uninterp spec fn ring_items(q: AllocRingBuffer<BlotPacket>) -> Seq<BlotPacket>;

/// The capacity that a ring buffer was made with.
pub uninterp spec fn ring_capacity(q: AllocRingBuffer<BlotPacket>) -> nat;

/// Relies on `AllocRingBuffer::new`: an empty buffer of the given capacity;
/// it panics on a capacity of zero.
#[verifier::external_body]
fn ring_new(capacity: usize) -> (r: AllocRingBuffer<BlotPacket>)
    requires
        capacity > 0,
    ensures
        ring_items(r) == Seq::<BlotPacket>::empty(),
        ring_capacity(r) == capacity,
{
    AllocRingBuffer::new(capacity)
}

/// Relies on `RingBuffer::enqueue` of `AllocRingBuffer`: the item goes to the
/// back, and when the buffer is full the front item leaves first.
#[verifier::external_body]
fn ring_push(q: &mut AllocRingBuffer<BlotPacket>, p: BlotPacket)
    ensures
        ring_capacity(*final(q)) == ring_capacity(*old(q)),
        ring_items(*old(q)).len() < ring_capacity(*old(q)) ==> ring_items(*final(q))
            == ring_items(*old(q)).push(p),
        ring_items(*old(q)).len() == ring_capacity(*old(q)) ==> ring_items(*final(q))
            == ring_items(*old(q)).drop_first().push(p),
{
    let _ = q.enqueue(p);
}

/// Relies on `RingBuffer::len` of `AllocRingBuffer`: the number of items held.
#[verifier::external_body]
fn ring_len(q: &AllocRingBuffer<BlotPacket>) -> (r: usize)
    ensures
        r == ring_items(*q).len(),
{
    q.len()
}

/// Relies on `Index<usize>` of `AllocRingBuffer`: below the length, position
/// `i` is the `i`-th oldest item.
#[verifier::external_body]
fn ring_get(q: &AllocRingBuffer<BlotPacket>, i: usize) -> (r: &BlotPacket)
    requires
        i < ring_items(*q).len(),
    ensures
        *r == ring_items(*q)[i as int],
{
    &q[i]
}

/// Relies on `IndexMut<usize>` of `AllocRingBuffer`: below the length,
/// position `i` is the `i`-th oldest item, and it alone is replaced.
#[verifier::external_body]
fn ring_set(q: &mut AllocRingBuffer<BlotPacket>, i: usize, p: BlotPacket)
    requires
        i < ring_items(*old(q)).len(),
    ensures
        ring_capacity(*final(q)) == ring_capacity(*old(q)),
        ring_items(*final(q)) == ring_items(*old(q)).update(i as int, p),
{
    q[i] = p;
}

/// The records of the queue, oldest first.
pub struct CommandQueue {
    ring: AllocRingBuffer<BlotPacket>,
}

/// The sequence after a ring push onto a queue of capacity ten.
pub open spec fn pushed(s: Seq<PacketView>, p: PacketView) -> Seq<PacketView> {
    if s.len() < QUEUE_CAPACITY {
        s.push(p)
    } else {
        s.drop_first().push(p)
    }
}

/// Pushing onto a full queue drops its oldest record, whatever that record's
/// state, keeps the rest in order, and puts the new record last.
pub proof fn lemma_full_push_evicts_oldest(s: Seq<PacketView>, p: PacketView)
    requires
        s.len() == QUEUE_CAPACITY,
    ensures
        pushed(s, p).len() == QUEUE_CAPACITY,
        forall|k: int| 0 <= k < QUEUE_CAPACITY - 1 ==> #[trigger] pushed(s, p)[k] == s[k + 1],
        pushed(s, p).last() == p,
{
}

/// Position `k` holds the first record of `s` with identity `id`.
pub open spec fn first_with_id(s: Seq<PacketView>, id: u128, k: int) -> bool {
    0 <= k < s.len() && s[k].id == id && forall|j: int| 0 <= j < k ==> s[j].id != id
}

impl View for CommandQueue {
    type V = Seq<PacketView>;

    closed spec fn view(&self) -> Seq<PacketView> {
        ring_items(self.ring).map_values(|p: BlotPacket| p@)
    }
}

impl CommandQueue {
    /// The ring was made with the queue's capacity.
    pub closed spec fn sized(&self) -> bool {
        ring_capacity(self.ring) == QUEUE_CAPACITY
    }

    /// At most ten records, each of which fits the frame layout.
    pub open spec fn wf(&self) -> bool {
        &&& self.sized()
        &&& self@.len() <= QUEUE_CAPACITY
        &&& forall|k: int| 0 <= k < self@.len() ==> (#[trigger] self@[k]).wf()
    }

    /// An empty queue.
    pub fn new() -> (r: CommandQueue)
        ensures
            r.wf(),
            r@ == Seq::<PacketView>::empty(),
    {
        let r = CommandQueue { ring: ring_new(QUEUE_CAPACITY) };
        assert(r@ =~= Seq::<PacketView>::empty());
        r
    }

    /// The number of records held.
    pub fn len(&self) -> (r: usize)
        ensures
            r == self@.len(),
    {
        ring_len(&self.ring)
    }

    /// Appends a record; when the queue is full its oldest record, whatever
    /// its state, is dropped to make room.
    pub fn push(&mut self, p: BlotPacket)
        requires
            old(self).wf(),
            p@.wf(),
        ensures
            final(self).wf(),
            final(self)@ == pushed(old(self)@, p@),
    {
        let ghost v = p@;
        ring_push(&mut self.ring, p);
        assert(self@ =~= pushed(old(self)@, v));
    }

    /// The record at position `i`, oldest first.
    pub(crate) fn at(&self, i: usize) -> (r: &BlotPacket)
        requires
            i < self@.len(),
        ensures
            r@ == self@[i as int],
    {
        ring_get(&self.ring, i)
    }

    /// Gives the record at position `i` a new index and state.
    pub(crate) fn mark(&mut self, i: usize, index: Option<u8>, state: PacketState)
        requires
            old(self).wf(),
            i < old(self)@.len(),
        ensures
            final(self).wf(),
            final(self)@ == old(self)@.update(i as int, old(self)@[i as int].with(index, state)),
    {
        let mut p = ring_get(&self.ring, i).duplicate();
        p.index = index;
        p.state = state;
        let ghost v = p@;
        ring_set(&mut self.ring, i, p);
        assert(self@ =~= old(self)@.update(i as int, v));
    }

    /// A copy of the first record with identity `id`, if any.
    pub fn find_by_identity(&self, id: u128) -> (r: Option<BlotPacket>)
        ensures
            r is None <==> forall|k: int| 0 <= k < self@.len() ==> self@[k].id != id,
            r matches Some(p) ==> exists|k: int| first_with_id(self@, id, k) && p@ == self@[k],
    {
        let n = self.len();
        let mut k: usize = 0;
        while k < n
            invariant
                n == self@.len(),
                k <= n,
                forall|j: int| 0 <= j < k ==> self@[j].id != id,
            decreases n - k,
        {
            let p = self.at(k);
            if p.id == id {
                assert(first_with_id(self@, id, k as int));
                return Some(p.duplicate());
            }
            k += 1;
        }
        None
    }

    /// The first record with identity `id`, once it is `Resolved`; `None`
    /// while it is not, or where no record has that identity.
    pub fn poll_resolved(&self, id: u128) -> (r: Option<BlotPacket>)
        ensures
            r is Some <==> exists|k: int| first_with_id(self@, id, k) && self@[k].state == PacketState::Resolved,
            r matches Some(p) ==> exists|k: int| first_with_id(self@, id, k) && p@ == self@[k],
    {
        match self.find_by_identity(id) {
            Some(p) => {
                proof {
                    assert forall|a: int, b: int| first_with_id(self@, id, a) && first_with_id(self@, id, b) implies a == b by {
                        if a < b {} else if b < a {}
                    }
                }
                if p.state == PacketState::Resolved {
                    Some(p)
                } else {
                    None
                }
            },
            None => None,
        }
    }
}

} // verus!
