//! The decisions of the driver loop. The loop itself, which owns the serial
//! port, reads inbound bytes into a buffer, hands each complete frame to
//! `CommandQueue::handle_frame`, and when none is waiting writes out the frames
//! that `CommandQueue::flush` returns.
use vstd::prelude::*;
use crate::codec::{copy_range, decode, decoded, encode, frame_of, CodecError, DELIMITER};
use crate::packet::{PacketState, PacketView};
use crate::message::{tag_of, Command};
use crate::queue::CommandQueue;

verus! {

/// Size of the cyclic sequence-index space.
pub const INDEX_SPACE: u8 = 9;

/// What an inbound frame led to, when it was not fatal.
#[derive(Clone, Copy, Debug, PartialEq, Eq, Structural)]
pub enum Inbound {
    /// The frame was malformed and has been dropped.
    Discarded,
    /// The acknowledgement resolved the record with this identity.
    Acknowledged(u128),
    /// No `Sent` record carries the acknowledged index.
    Unmatched(u8),
}

/// A condition after which the driver cannot go on.
#[derive(Debug)]
pub enum DriverError {
    /// The device sent a frame that is not an acknowledgement.
    UnexpectedMessage(String),
}

/// The message name is the acknowledgement's.
pub open spec fn is_ack(m: Seq<char>) -> bool {
    m == tag_of(Command::Acknowledge)
}

/// The index of the last record, oldest first, that is no longer `Queued`
/// (0 where it has none, or where there is no such record).
pub open spec fn last_assigned(s: Seq<PacketView>) -> u8
    decreases s.len(),
{
    if s.len() == 0 {
        0
    } else if s.last().state != PacketState::Queued {
        match s.last().index {
            Some(i) => i,
            None => 0,
        }
    } else {
        last_assigned(s.drop_last())
    }
}

/// How many of the first `j` records are `Queued`.
pub open spec fn queued_before(s: Seq<PacketView>, j: int) -> nat
    decreases j,
{
    if j <= 0 {
        0
    } else {
        queued_before(s, j - 1) + if s[j - 1].state == PacketState::Queued {
            1nat
        } else {
            0nat
        }
    }
}

/// Counting `Queued` records up to a later position gives no fewer.
proof fn lemma_queued_before_mono(s: Seq<PacketView>, a: int, b: int)
    requires
        0 <= a <= b,
    ensures
        queued_before(s, a) <= queued_before(s, b),
    decreases b,
{
    if a < b {
        lemma_queued_before_mono(s, a, b - 1);
    }
}

/// The index given to the `k`-th record (from 0) of a flush pass that
/// follows index `start`.
pub open spec fn index_for(start: u8, k: nat) -> u8 {
    ((start + 1 + k) % (INDEX_SPACE as int)) as u8
}

/// The index that the record at position `j` gets in a flush pass over `s`.
pub open spec fn flush_index(s: Seq<PacketView>, j: int) -> u8 {
    index_for(last_assigned(s), queued_before(s, j))
}

/// The records after a flush pass: each `Queued` one is `Sent` with its index.
pub open spec fn flushed(s: Seq<PacketView>) -> Seq<PacketView> {
    Seq::new(
        s.len(),
        |j: int|
            if s[j].state == PacketState::Queued {
                s[j].with(Some(flush_index(s, j)), PacketState::Sent)
            } else {
                s[j]
            },
    )
}

/// On a queue where nothing has been sent yet, a flush pass hands out the
/// indices 1, 2, ..., 8, 0, 1, ... in queue order.
pub proof fn lemma_fresh_indices_cycle(s: Seq<PacketView>)
    requires
        forall|k: int| 0 <= k < s.len() ==> (#[trigger] s[k]).state == PacketState::Queued,
    ensures
        forall|k: int|
            0 <= k < s.len() ==> (#[trigger] flushed(s)[k]).index == Some(
                ((k + 1) % (INDEX_SPACE as int)) as u8,
            ) && flushed(s)[k].state == PacketState::Sent,
{
    lemma_all_queued_last_assigned(s);
    assert forall|k: int| 0 <= k < s.len() implies (#[trigger] flushed(s)[k]).index == Some(
        ((k + 1) % (INDEX_SPACE as int)) as u8,
    ) && flushed(s)[k].state == PacketState::Sent by {
        lemma_all_queued_count(s, k);
    }
}

proof fn lemma_all_queued_last_assigned(s: Seq<PacketView>)
    requires
        forall|k: int| 0 <= k < s.len() ==> (#[trigger] s[k]).state == PacketState::Queued,
    ensures
        last_assigned(s) == 0,
    decreases s.len(),
{
    if s.len() > 0 {
        assert(s.last() == s[s.len() - 1]);
        assert forall|k: int| 0 <= k < s.drop_last().len() implies (#[trigger] s.drop_last()[k]).state
            == PacketState::Queued by {
            assert(s.drop_last()[k] == s[k]);
        }
        lemma_all_queued_last_assigned(s.drop_last());
    }
}

proof fn lemma_all_queued_count(s: Seq<PacketView>, j: int)
    requires
        0 <= j <= s.len(),
        forall|k: int| 0 <= k < s.len() ==> (#[trigger] s[k]).state == PacketState::Queued,
    ensures
        queued_before(s, j) == j,
    decreases j,
{
    if j > 0 {
        assert(s[j - 1].state == PacketState::Queued);
        lemma_all_queued_count(s, j - 1);
    }
}

/// Position `k` holds the first `Sent` record with index `i`.
pub open spec fn first_sent_with(s: Seq<PacketView>, i: u8, k: int) -> bool {
    &&& 0 <= k < s.len()
    &&& s[k].state == PacketState::Sent
    &&& s[k].index == Some(i)
    &&& forall|j: int| 0 <= j < k ==> !(s[j].state == PacketState::Sent && s[j].index == Some(i))
}

/// Splits off the first complete frame, delimiter included, from the bytes
/// read so far; the bytes after it stay in `buf`.
pub fn take_frame(buf: &mut Vec<u8>) -> (r: Option<Vec<u8>>)
    ensures
        r is None <==> forall|k: int| 0 <= k < old(buf)@.len() ==> old(buf)@[k] != DELIMITER,
        r is None ==> final(buf)@ == old(buf)@,
        r matches Some(f) ==> exists|k: int|
            0 <= k < old(buf)@.len() && old(buf)@[k] == DELIMITER && (forall|j: int|
                0 <= j < k ==> old(buf)@[j] != DELIMITER) && f@ == old(buf)@.subrange(0, k + 1)
                && final(buf)@ == old(buf)@.subrange(k + 1, old(buf)@.len() as int),
{
    let n = buf.len();
    let mut k: usize = 0;
    while k < n
        invariant
            n == buf@.len(),
            buf@ == old(buf)@,
            k <= n,
            forall|j: int| 0 <= j < k ==> buf@[j] != DELIMITER,
        decreases n - k,
    {
        if buf[k] == DELIMITER {
            let frame = copy_range(buf.as_slice(), 0, k + 1);
            let rest = copy_range(buf.as_slice(), k + 1, n);
            *buf = rest;
            return Some(frame);
        }
        k += 1;
    }
    None
}

impl CommandQueue {
    /// The index of the last record that is no longer `Queued`.
    fn last_assigned_index(&self) -> (r: u8)
        ensures
            r == last_assigned(self@),
    {
        let n = self.len();
        let mut k: usize = n;
        assert(self@.subrange(0, n as int) =~= self@);
        while k > 0
            invariant
                n == self@.len(),
                k <= n,
                last_assigned(self@.subrange(0, k as int)) == last_assigned(self@),
            decreases k,
        {
            let p = self.at(k - 1);
            assert(self@.subrange(0, k as int).last() == self@[k - 1]);
            if p.state != PacketState::Queued {
                return match p.index {
                    Some(i) => i,
                    None => 0,
                };
            }
            assert(self@.subrange(0, k as int).drop_last() =~= self@.subrange(0, k - 1));
            k -= 1;
        }
        0
    }

    /// One flush pass: every `Queued` record, oldest first, gets the next
    /// index after the last one assigned (wrapping in the index space), is
    /// encoded, and becomes `Sent`. Returns the frames in that order.
    pub fn flush(&mut self) -> (frames: Vec<Vec<u8>>)
        requires
            old(self).wf(),
        ensures
            final(self).wf(),
            final(self)@ == flushed(old(self)@),
            frames@.len() == queued_before(old(self)@, old(self)@.len() as int),
            forall|j: int|
                0 <= j < old(self)@.len() && old(self)@[j].state == PacketState::Queued ==> (
                #[trigger] frames@[queued_before(old(self)@, j) as int])@ == frame_of(
                    old(self)@[j].msg,
                    old(self)@[j].payload,
                    flush_index(old(self)@, j),
                ),
    {
        let ghost s = self@;
        let n = self.len();
        let start = self.last_assigned_index();
        let mut frames: Vec<Vec<u8>> = Vec::new();
        let mut count: usize = 0;
        let mut j: usize = 0;
        while j < n
            invariant
                self.wf(),
                s.len() == n == self@.len(),
                start == last_assigned(s),
                j <= n,
                count <= j,
                count == queued_before(s, j as int),
                frames@.len() == count,
                forall|t: int| 0 <= t < j ==> self@[t] == flushed(s)[t],
                forall|t: int| j <= t < n ==> self@[t] == s[t],
                forall|t: int|
                    0 <= t < j && s[t].state == PacketState::Queued ==> (
                    #[trigger] frames@[queued_before(s, t) as int])@ == frame_of(
                        s[t].msg,
                        s[t].payload,
                        flush_index(s, t),
                    ),
            decreases n - j,
        {
            let p = self.at(j);
            if p.state == PacketState::Queued {
                let index = ((start as u16 + 1 + count as u16) % (INDEX_SPACE as u16)) as u8;
                assert(index == flush_index(s, j as int));
                assert(self@[j as int].wf());
                let frame = match encode(p.msg.as_str(), p.payload.as_slice(), index) {
                    Ok(w) => w,
                    Err(_) => {
                        assert(false);
                        Vec::new()
                    },
                };
                frames.push(frame);
                self.mark(j, Some(index), PacketState::Sent);
                count += 1;
                proof {
                    assert forall|t: int| 0 <= t < j && s[t].state == PacketState::Queued implies
                        queued_before(s, t) < queued_before(s, j as int) by {
                        lemma_queued_before_mono(s, t + 1, j as int);
                    }
                }
            }
            j += 1;
        }
        assert(self@ =~= flushed(s));
        frames
    }

    /// Acts on one inbound wire frame. A malformed frame is discarded. An
    /// acknowledgement resolves the first `Sent` record with its index, or
    /// matches none. Any other message is an error. Only a resolution changes
    /// the queue.
    pub fn handle_frame(&mut self, wire: &[u8]) -> (r: Result<Inbound, DriverError>)
        requires
            old(self).wf(),
        ensures
            final(self).wf(),
            decoded(wire@) is None ==> r == Ok::<Inbound, DriverError>(Inbound::Discarded),
            decoded(wire@) is Some && !is_ack(decoded(wire@)->Some_0.0) ==> (r matches Err(
                DriverError::UnexpectedMessage(m),
            ) && m@ == decoded(wire@)->Some_0.0),
            decoded(wire@) is Some && is_ack(decoded(wire@)->Some_0.0) && (forall|k: int|
                !first_sent_with(old(self)@, decoded(wire@)->Some_0.2, k)) ==> r == Ok::<
                Inbound,
                DriverError,
            >(Inbound::Unmatched(decoded(wire@)->Some_0.2)),
            decoded(wire@) is Some && is_ack(decoded(wire@)->Some_0.0) ==> forall|k: int|
                first_sent_with(old(self)@, decoded(wire@)->Some_0.2, k) ==> r == Ok::<
                    Inbound,
                    DriverError,
                >(Inbound::Acknowledged(old(self)@[k].id)) && final(self)@ == old(self)@.update(
                    k,
                    old(self)@[k].with(Some(decoded(wire@)->Some_0.2), PacketState::Resolved),
                ),
            !(r matches Ok(Inbound::Acknowledged(_))) ==> final(self)@ == old(self)@,
    {
        let frame = match decode(wire) {
            Ok(f) => f,
            Err(_) => return Ok(Inbound::Discarded),
        };
        let found = Command::from_tag(frame.msg.as_str());
        match found {
            Some(Command::Acknowledge) => {},
            _ => {
                proof {
                    reveal_strlit("ack");
                    reveal_strlit("go");
                    reveal_strlit("motorsOn");
                    reveal_strlit("motorsOff");
                    reveal_strlit("moveTowardsOrigin");
                    reveal_strlit("setOrigin");
                    reveal_strlit("servo");
                    match found {
                        Some(c) => assert(tag_of(c).len() != tag_of(Command::Acknowledge).len()),
                        None => {},
                    }
                }
                return Err(DriverError::UnexpectedMessage(frame.msg));
            },
        }
        let i = frame.index;
        let n = self.len();
        let mut k: usize = 0;
        while k < n
            invariant
                n == self@.len(),
                self.wf(),
                self@ == old(self)@,
                decoded(wire@) == Some(frame@),
                is_ack(frame.msg@),
                i == frame.index,
                k <= n,
                forall|j: int|
                    0 <= j < k ==> !(self@[j].state == PacketState::Sent && self@[j].index == Some(i)),
            decreases n - k,
        {
            let p = self.at(k);
            if p.state == PacketState::Sent && p.index == Some(i) {
                let id = p.id;
                proof {
                    assert(first_sent_with(old(self)@, i, k as int));
                    assert forall|a: int| first_sent_with(old(self)@, i, a) implies a == k by {
                        if a < k {} else if a > k {}
                    }
                }
                self.mark(k, Some(i), PacketState::Resolved);
                return Ok(Inbound::Acknowledged(id));
            }
            k += 1;
        }
        Ok(Inbound::Unmatched(i))
    }
}

} // verus!
