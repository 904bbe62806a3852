//! The packets that wait to leave, in the order in which they will.
use crate::packet::ScheduledPacket;
use std::collections::VecDeque;
use vstd::prelude::*;

verus! {

/// No packet leaves before one that stands in front of it.
pub open spec fn sorted(packets: Seq<ScheduledPacket>) -> bool {
    forall|i: int, j: int|
        0 <= i < j < packets.len() ==> !(#[trigger] packets[j]).before(#[trigger] packets[i])
}

/// Where a packet goes: behind all in front that it does not leave before.
pub open spec fn place_of(packets: Seq<ScheduledPacket>, packet: ScheduledPacket) -> nat
    decreases packets.len(),
{
    if packets.len() == 0 || packet.before(packets[0]) {
        0
    } else {
        1 + place_of(packets.drop_first(), packet)
    }
}

/// How many packets are due: those in front whose time has come.
pub open spec fn due_count(packets: Seq<ScheduledPacket>, now: u128) -> nat
    decreases packets.len(),
{
    if packets.len() == 0 || packets[0].send_at > now {
        0
    } else {
        1 + due_count(packets.drop_first(), now)
    }
}

/// The place of a packet is the one that splits the queue.
pub proof fn lemma_place_of(packets: Seq<ScheduledPacket>, packet: ScheduledPacket, i: int)
    requires
        0 <= i <= packets.len(),
        forall|j: int| 0 <= j < i ==> !packet.before(#[trigger] packets[j]),
        i < packets.len() ==> packet.before(packets[i]),
    ensures
        place_of(packets, packet) == i,
    decreases packets.len(),
{
    if i > 0 {
        assert(!packet.before(packets[0]));
        let rest = packets.drop_first();
        assert forall|j: int| 0 <= j < i - 1 implies !packet.before(#[trigger] rest[j]) by {
            assert(rest[j] == packets[j + 1]);
        }
        lemma_place_of(rest, packet, i - 1);
    }
}

/// The place of a packet splits the queue.
pub proof fn lemma_place_splits(packets: Seq<ScheduledPacket>, packet: ScheduledPacket)
    ensures
        place_of(packets, packet) <= packets.len(),
        forall|i: int|
            0 <= i < place_of(packets, packet) ==> !packet.before(#[trigger] packets[i]),
        place_of(packets, packet) < packets.len() ==> packet.before(
            packets[place_of(packets, packet) as int],
        ),
    decreases packets.len(),
{
    if packets.len() > 0 && !packet.before(packets[0]) {
        let rest = packets.drop_first();
        lemma_place_splits(rest, packet);
        let p = place_of(packets, packet);
        assert forall|i: int| 0 <= i < p implies !packet.before(#[trigger] packets[i]) by {
            if i > 0 {
                assert(packets[i] == rest[i - 1]);
            }
        }
        assert(p < packets.len() ==> packets[p as int] == rest[p - 1]);
    }
}

/// The place of a packet keeps the queue in order.
pub proof fn lemma_insert_sorted(packets: Seq<ScheduledPacket>, packet: ScheduledPacket)
    requires
        sorted(packets),
    ensures
        place_of(packets, packet) <= packets.len(),
        sorted(packets.insert(place_of(packets, packet) as int, packet)),
{
    let p = place_of(packets, packet) as int;
    lemma_place_splits(packets, packet);
    let after = packets.insert(p, packet);
    assert forall|i: int, j: int| 0 <= i < j < after.len() implies !(#[trigger] after[j]).before(
        #[trigger] after[i],
    ) by {
        let i0 = if i < p {
            i
        } else {
            i - 1
        };
        let j0 = if j < p {
            j
        } else {
            j - 1
        };
        if i != p && j != p {
            assert(after[i] == packets[i0]);
            assert(after[j] == packets[j0]);
            assert(!packets[j0].before(packets[i0]));
        } else if i == p {
            assert(after[j] == packets[j0]);
            if j0 > p {
                assert(!packets[j0].before(packets[p]));
            }
        } else {
            assert(after[i] == packets[i0]);
        }
    }
}

/// What the count of due packets says.
pub proof fn lemma_due_count(packets: Seq<ScheduledPacket>, now: u128)
    ensures
        due_count(packets, now) <= packets.len(),
        forall|i: int| 0 <= i < due_count(packets, now) ==> (#[trigger] packets[i]).send_at <= now,
        due_count(packets, now) < packets.len() ==> packets[due_count(packets, now) as int].send_at
            > now,
        sorted(packets) ==> forall|i: int|
            due_count(packets, now) <= i < packets.len() ==> (#[trigger] packets[i]).send_at > now,
    decreases packets.len(),
{
    let n = due_count(packets, now);
    if packets.len() > 0 && packets[0].send_at <= now {
        let rest = packets.drop_first();
        lemma_due_count(rest, now);
        assert forall|i: int| 0 <= i < n implies (#[trigger] packets[i]).send_at <= now by {
            if i > 0 {
                assert(packets[i] == rest[i - 1]);
            }
        }
        assert(n < packets.len() ==> packets[n as int] == rest[n - 1]);
    }
    if sorted(packets) && n < packets.len() {
        assert forall|i: int| n <= i < packets.len() implies (#[trigger] packets[i]).send_at
            > now by {
            if i > n {
                assert(!packets[i].before(packets[n as int]));
            }
        }
    }
}

/// Packets that wait, the next one in front.
pub struct SendQueue {
    packets: VecDeque<ScheduledPacket>,
}

impl View for SendQueue {
    type V = Seq<ScheduledPacket>;

    closed spec fn view(&self) -> Seq<ScheduledPacket> {
        self.packets@
    }
}

impl SendQueue {
    pub open spec fn wf(self) -> bool {
        sorted(self@)
    }

    pub fn new() -> (queue: SendQueue)
        ensures
            queue@ == Seq::<ScheduledPacket>::empty(),
            queue.wf(),
    {
        SendQueue { packets: VecDeque::new() }
    }

    pub fn len(&self) -> (n: usize)
        ensures
            n == self@.len(),
    {
        self.packets.len()
    }

    /// When the next packet leaves.
    pub fn next_time(&self) -> (time: Option<u128>)
        ensures
            time == if self@.len() == 0 {
                None::<u128>
            } else {
                Some(self@[0].send_at)
            },
    {
        if self.packets.len() == 0 {
            None
        } else {
            Some(self.packets[0].send_at)
        }
    }

    /// Puts a packet in its place.
    pub fn push(&mut self, packet: ScheduledPacket)
        requires
            old(self).wf(),
        ensures
            final(self).wf(),
            final(self)@ == old(self)@.insert(place_of(old(self)@, packet) as int, packet),
            place_of(old(self)@, packet) <= old(self)@.len(),
    {
        let ghost packets = self.packets@;
        let mut low: usize = 0;
        let mut high: usize = self.packets.len();
        while low < high
            invariant
                self.packets@ == packets,
                sorted(packets),
                low <= high <= packets.len(),
                forall|j: int| 0 <= j < low ==> !packet.before(#[trigger] packets[j]),
                forall|j: int| high <= j < packets.len() ==> packet.before(#[trigger] packets[j]),
            decreases high - low,
        {
            let middle: usize = low + (high - low) / 2;
            if packet.is_before(&self.packets[middle]) {
                proof {
                    assert forall|j: int| middle <= j < packets.len() implies packet.before(
                        #[trigger] packets[j],
                    ) by {
                        if j > middle {
                            assert(!packets[j].before(packets[middle as int]));
                        }
                    }
                }
                high = middle;
            } else {
                proof {
                    assert forall|j: int| 0 <= j <= middle implies !packet.before(
                        #[trigger] packets[j],
                    ) by {
                        if j < middle {
                            assert(!packets[middle as int].before(packets[j]));
                        }
                    }
                }
                low = middle + 1;
            }
        }
        proof {
            lemma_place_of(packets, packet, low as int);
            lemma_insert_sorted(packets, packet);
        }
        self.packets.insert(low, packet);
    }

    /// Takes the packet in front.
    pub fn pop(&mut self) -> (packet: Option<ScheduledPacket>)
        requires
            old(self).wf(),
        ensures
            final(self).wf(),
            match packet {
                Some(packet) => old(self)@.len() > 0 && packet == old(self)@[0] && final(self)@
                    == old(self)@.drop_first(),
                None => old(self)@.len() == 0 && final(self)@ == old(self)@,
            },
    {
        proof {
            if self.packets@.len() > 0 {
                let rest = self.packets@.drop_first();
                assert(forall|i: int|
                    0 <= i < rest.len() ==> #[trigger] rest[i] == self.packets@[i + 1]);
            }
        }
        let packet = self.packets.pop_front();
        assert(packet is Some ==> self.packets@ =~= old(self)@.drop_first());
        packet
    }
}

/// In a queue that is in order no packet leaves later than one behind it, and
/// of those that leave at one time none has a greater number.
pub proof fn law_queues_are_in_order(queue: SendQueue, i: int, j: int)
    requires
        queue.wf(),
        0 <= i < j < queue@.len(),
    ensures
        queue@[i].send_at <= queue@[j].send_at,
        queue@[i].send_at == queue@[j].send_at ==> queue@[i].seq <= queue@[j].seq,
{
    assert(!queue@[j].before(queue@[i]));
}

/// A packet is put where those in front leave no later and those behind leave
/// later; all others stay as they are.
pub proof fn law_packets_are_put_in_their_place(queue: &mut SendQueue, packet: ScheduledPacket)
    requires
        old(queue).wf(),
        call_ensures(SendQueue::push, (queue, packet), ()),
    ensures
        exists|k: int|
            0 <= k <= old(queue)@.len() && final(queue)@ == #[trigger] old(queue)@.insert(k, packet)
                && (forall|i: int|
                0 <= i < k ==> (#[trigger] old(queue)@[i]).send_at < packet.send_at || (old(
                    queue,
                )@[i].send_at == packet.send_at && old(queue)@[i].seq <= packet.seq)) && (forall|
                i: int,
            |
                k <= i < old(queue)@.len() ==> (#[trigger] old(queue)@[i]).send_at > packet.send_at
                    || (old(queue)@[i].send_at == packet.send_at && old(queue)@[i].seq
                    > packet.seq)),
{
    let packets = old(queue)@;
    let k = place_of(packets, packet) as int;
    lemma_place_splits(packets, packet);
    assert forall|i: int| k <= i < packets.len() implies (#[trigger] packets[i]).send_at
        > packet.send_at || (packets[i].send_at == packet.send_at && packets[i].seq
        > packet.seq) by {
        if i > k {
            assert(!packets[i].before(packets[k]));
        }
    }
    assert(final(queue)@ == packets.insert(k, packet));
}

/// The packet that is taken out leaves no later than any that stays, and of
/// those that leave at one time it has the smallest number.
pub proof fn law_the_earliest_packet_is_taken(
    queue: &mut SendQueue,
    taken: Option<ScheduledPacket>,
    i: int,
)
    requires
        old(queue).wf(),
        call_ensures(SendQueue::pop, (queue,), taken),
    ensures
        taken is None <==> old(queue)@.len() == 0,
        taken is None ==> final(queue)@ == old(queue)@,
        taken matches Some(packet) ==> old(queue)@ == seq![packet] + final(queue)@,
        taken matches Some(packet) ==> (0 <= i < final(queue)@.len() ==> packet.send_at
            <= final(queue)@[i].send_at && (packet.send_at == final(queue)@[i].send_at ==> packet.seq
            <= final(queue)@[i].seq)),
{
    if old(queue)@.len() > 0 {
        assert(old(queue)@ =~= seq![old(queue)@[0]] + old(queue)@.drop_first());
        if 0 <= i < final(queue)@.len() {
            law_queues_are_in_order(*old(queue), 0, i + 1);
        }
    }
}

/// The next time is the earliest of all.
pub proof fn law_the_next_time_is_the_earliest(queue: SendQueue, time: Option<u128>, n: usize, i: int)
    requires
        queue.wf(),
        call_ensures(SendQueue::next_time, (&queue,), time),
        call_ensures(SendQueue::len, (&queue,), n),
    ensures
        n == queue@.len(),
        time is None <==> n == 0,
        time matches Some(t) ==> t == queue@[0].send_at && (0 <= i < n ==> t <= queue@[i].send_at),
{
    if 0 < i < queue@.len() {
        law_queues_are_in_order(queue, 0, i);
    }
}

/// A new queue is empty.
pub proof fn law_new_queues_are_empty(queue: SendQueue)
    requires
        call_ensures(SendQueue::new, (), queue),
    ensures
        queue@.len() == 0,
        queue.wf(),
{
}

} // verus!
