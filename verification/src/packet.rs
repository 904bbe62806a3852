//! Packets on their way, and the order in which they leave.
use crate::addr::SocketAddr;
use crate::types::{PacketAction, PacketDirection, PacketEvent, ProxySettings};
use std::cmp::Ordering;
use vstd::prelude::*;
use vstd::std_specs::cmp::{PartialEqSpecImpl, PartialOrdSpecImpl};

verus! {

/// Nanoseconds in a millisecond.
pub const NANOS_PER_MS: u128 = 1_000_000;

/// A packet as it came in, with the settings of that moment. Times are
/// nanoseconds since the proxy started.
pub struct ClientPacket {
    pub id: u64,
    pub data: Vec<u8>,
    pub src: SocketAddr,
    pub time_in_ms: u128,
    pub arrival: u128,
    pub settings: ProxySettings,
}

/// A packet with the place it goes to.
pub struct PacketJob {
    pub id: u64,
    pub data: Vec<u8>,
    pub src: SocketAddr,
    pub dest_addr: SocketAddr,
    pub time_in_ms: u128,
    pub arrival: u128,
    pub settings: ProxySettings,
    pub direction: PacketDirection,
}

impl ClientPacket {
    /// A packet that came in at the time `arrival`.
    pub fn received(
        id: u64,
        data: Vec<u8>,
        src: SocketAddr,
        arrival: u128,
        settings: ProxySettings,
    ) -> (packet: ClientPacket)
        ensures
            packet == (ClientPacket {
                id,
                data,
                src,
                time_in_ms: millis(arrival as nat) as u128,
                arrival,
                settings,
            }),
    {
        ClientPacket { id, data, src, time_in_ms: to_millis(arrival), arrival, settings }
    }
}

/// The number of the first packet.
pub const FIRST_PACKET_ID: u64 = 1;

/// Numbers the packets of both directions as they come in.
#[derive(Clone, Copy, Debug)]
pub struct PacketCounter {
    /// The number of the next packet.
    pub next: u64,
}

/// The number that follows; zero follows the greatest.
pub open spec fn following_id(id: u64) -> u64 {
    if id == u64::MAX {
        0
    } else {
        (id + 1) as u64
    }
}

impl PacketCounter {
    /// A counter before the first packet.
    pub fn new() -> (counter: PacketCounter)
        ensures
            counter.next == FIRST_PACKET_ID,
    {
        PacketCounter { next: FIRST_PACKET_ID }
    }

    /// Hands out the next number.
    pub fn next_id(&mut self) -> (id: u64)
        ensures
            id == old(self).next,
            final(self).next == following_id(id),
    {
        let id: u64 = self.next;
        self.next = id.wrapping_add(1);
        id
    }

    /// Takes in a packet that came at the time `arrival`: it gets the next
    /// number, and keeps the settings of that moment.
    pub fn receive(
        &mut self,
        data: Vec<u8>,
        src: SocketAddr,
        arrival: u128,
        settings: ProxySettings,
    ) -> (packet: ClientPacket)
        ensures
            packet == numbered_packet(old(self).next, Receipt { data, src, arrival, settings }),
            final(self).next == following_id(old(self).next),
    {
        let id: u64 = self.next_id();
        ClientPacket::received(id, data, src, arrival, settings)
    }
}

/// What comes in: the bytes, their sender, the time, and the settings of that
/// moment.
pub struct Receipt {
    pub data: Vec<u8>,
    pub src: SocketAddr,
    pub arrival: u128,
    pub settings: ProxySettings,
}

/// The packet that a receipt makes.
pub open spec fn numbered_packet(id: u64, receipt: Receipt) -> ClientPacket {
    ClientPacket {
        id,
        data: receipt.data,
        src: receipt.src,
        time_in_ms: millis(receipt.arrival as nat) as u128,
        arrival: receipt.arrival,
        settings: receipt.settings,
    }
}

/// The packets that receipts make, one after the other, on one counter that
/// stands at `next`.
pub open spec fn numbered_packets(next: u64, receipts: Seq<Receipt>) -> Seq<ClientPacket>
    decreases receipts.len(),
{
    if receipts.len() == 0 {
        Seq::empty()
    } else {
        seq![numbered_packet(next, receipts[0])] + numbered_packets(
            following_id(next),
            receipts.drop_first(),
        )
    }
}

/// Where the numbers do not run out, each packet has the number of the one
/// before it and one more, and is otherwise as it came in.
pub proof fn law_packets_are_numbered_in_turn(next: u64, receipts: Seq<Receipt>)
    requires
        next + receipts.len() <= u64::MAX + 1,
    ensures
        numbered_packets(next, receipts).len() == receipts.len(),
        forall|i: int|
            0 <= i < receipts.len() ==> #[trigger] numbered_packets(next, receipts)[i]
                == numbered_packet((next + i) as u64, receipts[i]),
    decreases receipts.len(),
{
    let packets = numbered_packets(next, receipts);
    if receipts.len() > 0 {
        let rest = receipts.drop_first();
        if rest.len() > 0 {
            law_packets_are_numbered_in_turn(following_id(next), rest);
        }
        let others = numbered_packets(following_id(next), rest);
        assert(packets == seq![numbered_packet(next, receipts[0])] + others);
        assert forall|i: int| 0 <= i < receipts.len() implies #[trigger] packets[i]
            == numbered_packet((next + i) as u64, receipts[i]) by {
            if i > 0 {
                assert(packets[i] == others[i - 1]);
                assert(rest[i - 1] == receipts[i]);
            }
        }
    }
}

/// From the first packet on, of both directions, the numbers start at one and
/// ascend, so that no two packets share one. Bytes, sender and settings of a
/// packet are those of its own receipt, whatever comes after.
pub proof fn law_packet_numbers_ascend(receipts: Seq<Receipt>, i: int, j: int)
    requires
        FIRST_PACKET_ID + receipts.len() <= u64::MAX + 1,
        0 <= i < receipts.len(),
        0 <= j < receipts.len(),
    ensures
        ({
            let packets = numbered_packets(FIRST_PACKET_ID, receipts);
            &&& packets.len() == receipts.len()
            &&& packets[0].id == 1
            &&& packets[i].id == 1 + i
            &&& packets[i].time_in_ms * 1_000_000 <= receipts[i].arrival < (packets[i].time_in_ms
                + 1) * 1_000_000
            &&& i < j ==> packets[i].id < packets[j].id
            &&& i != j ==> packets[i].id != packets[j].id
            &&& packets[i].data == receipts[i].data
            &&& packets[i].src == receipts[i].src
            &&& packets[i].arrival == receipts[i].arrival
            &&& packets[i].settings == receipts[i].settings
        }),
{
    law_packets_are_numbered_in_turn(FIRST_PACKET_ID, receipts);
}

impl PacketJob {
    /// The bytes of the packet.
    pub open spec fn size(self) -> usize {
        self.data@.len() as usize
    }
}

/// A packet with the time it leaves at.
pub struct ScheduledPacket {
    pub send_at: u128,
    pub seq: u64,
    pub job: PacketJob,
}

impl ScheduledPacket {
    /// `self` leaves before `other`: at an earlier time, or at the same time
    /// with a smaller number.
    pub open spec fn before(self, other: ScheduledPacket) -> bool {
        self.send_at < other.send_at || (self.send_at == other.send_at && self.seq < other.seq)
    }

    pub fn is_before(&self, other: &ScheduledPacket) -> (before: bool)
        ensures
            before == self.before(*other),
    {
        self.send_at < other.send_at || (self.send_at == other.send_at && self.seq < other.seq)
    }
}

impl PartialEqSpecImpl for ScheduledPacket {
    open spec fn obeys_eq_spec() -> bool {
        true
    }

    open spec fn eq_spec(&self, other: &ScheduledPacket) -> bool {
        self.send_at == other.send_at && self.seq == other.seq
    }
}

impl PartialEq for ScheduledPacket {
    fn eq(&self, other: &ScheduledPacket) -> (equal: bool) {
        self.send_at == other.send_at && self.seq == other.seq
    }
}

impl Eq for ScheduledPacket {

}

impl PartialOrdSpecImpl for ScheduledPacket {
    open spec fn obeys_partial_cmp_spec() -> bool {
        true
    }

    open spec fn partial_cmp_spec(&self, other: &ScheduledPacket) -> Option<Ordering> {
        if self.before(*other) {
            Some(Ordering::Less)
        } else if other.before(*self) {
            Some(Ordering::Greater)
        } else {
            Some(Ordering::Equal)
        }
    }
}

impl PartialOrd for ScheduledPacket {
    fn partial_cmp(&self, other: &ScheduledPacket) -> (order: Option<Ordering>) {
        if self.is_before(other) {
            Some(Ordering::Less)
        } else if other.is_before(self) {
            Some(Ordering::Greater)
        } else {
            Some(Ordering::Equal)
        }
    }
}

/// Whole milliseconds.
pub open spec fn millis(nanos: nat) -> nat {
    nanos / NANOS_PER_MS as nat
}

/// Nanoseconds in whole milliseconds.
pub fn to_millis(nanos: u128) -> (ms: u128)
    ensures
        ms == millis(nanos as nat),
{
    nanos / NANOS_PER_MS
}

/// The event of a packet that was not let through.
pub fn dropped_event(
    id: u64,
    direction: PacketDirection,
    time_in_ms: u128,
    size: usize,
    src: SocketAddr,
) -> (event: PacketEvent)
    ensures
        event == (PacketEvent {
            id,
            direction,
            time_in_ms,
            latency_ms: 0,
            time_out_ms: None,
            action: PacketAction::Dropped,
            size,
            src,
        }),
{
    PacketEvent {
        id,
        direction,
        time_in_ms,
        latency_ms: 0,
        time_out_ms: None,
        action: PacketAction::Dropped,
        size,
        src,
    }
}

/// The milliseconds between two times, none where the second is the earlier,
/// in the 64 low bits.
pub open spec fn delay_between(arrival: u128, now: u128) -> nat {
    millis(
        if now < arrival {
            0
        } else {
            (now - arrival) as nat
        },
    ) % 0x1_0000_0000_0000_0000
}

/// The event of a packet that was handed to its socket at `now`. It was sent
/// at `sent`, or not at all.
pub fn sent_event(job: &PacketJob, now: u128, sent: Option<u128>) -> (event: PacketEvent)
    ensures
        event.id == job.id,
        event.direction == job.direction,
        event.time_in_ms == job.time_in_ms,
        event.latency_ms == delay_between(job.arrival, now),
        event.size == job.data@.len(),
        event.src == job.src,
        match sent {
            Some(time) => event.action == PacketAction::Forwarded && event.time_out_ms == Some(
                millis(time as nat) as u128,
            ),
            None => event.action == PacketAction::Error && event.time_out_ms is None,
        },
{
    let waited: u128 = if now < job.arrival {
        0
    } else {
        now - job.arrival
    };
    let latency_ms: u64 = (to_millis(waited) % 0x1_0000_0000_0000_0000) as u64;
    let (action, time_out_ms) = match sent {
        Some(time) => (PacketAction::Forwarded, Some(to_millis(time))),
        None => (PacketAction::Error, None),
    };
    PacketEvent {
        id: job.id,
        direction: job.direction,
        time_in_ms: job.time_in_ms,
        latency_ms,
        time_out_ms,
        action,
        size: job.data.len(),
        src: job.src,
    }
}

/// A time in milliseconds has the nanoseconds that are left cut off.
pub proof fn law_milliseconds_are_cut_off(nanos: u128, ms: u128)
    requires
        call_ensures(to_millis, (nanos,), ms),
    ensures
        ms * 1_000_000 <= nanos < (ms + 1) * 1_000_000,
{
}

/// What is told of a packet that was handed on `now`: all that was known of
/// it, and the whole milliseconds since it arrived, as far as 64 bits hold
/// them. One that was sent has left at the whole millisecond of that time, one
/// that was not has not left.
pub proof fn law_sent_packets_are_told_exactly(
    job: PacketJob,
    now: u128,
    sent: Option<u128>,
    event: PacketEvent,
)
    requires
        call_ensures(sent_event, (&job, now, sent), event),
    ensures
        event.id == job.id,
        event.direction == job.direction,
        event.time_in_ms == job.time_in_ms,
        event.size == job.data@.len(),
        event.src == job.src,
        now <= job.arrival ==> event.latency_ms == 0,
        now >= job.arrival && now - job.arrival < 0x1_0000_0000_0000_0000 * 1_000_000
            ==> event.latency_ms * 1_000_000 <= now - job.arrival < (event.latency_ms + 1)
            * 1_000_000,
        now >= job.arrival ==> ((now - job.arrival) / 1_000_000 - event.latency_ms)
            % 0x1_0000_0000_0000_0000 == 0,
        sent is Some <==> event.action == PacketAction::Forwarded,
        sent is None <==> event.action == PacketAction::Error,
        sent is Some <==> event.time_out_ms is Some,
        sent matches Some(time) ==> event.time_out_ms->0 * 1_000_000 <= time && time < (
        event.time_out_ms->0 + 1) * 1_000_000,
{
}

/// What is told of a packet that was dropped: all that was known of it, and
/// that it never left.
pub proof fn law_dropped_packets_are_told_exactly(
    id: u64,
    direction: PacketDirection,
    time_in_ms: u128,
    size: usize,
    src: SocketAddr,
    event: PacketEvent,
)
    requires
        call_ensures(dropped_event, (id, direction, time_in_ms, size, src), event),
    ensures
        event.id == id,
        event.direction == direction,
        event.time_in_ms == time_in_ms,
        event.latency_ms == 0,
        event.time_out_ms is None,
        event.action == PacketAction::Dropped,
        event.size == size,
        event.src == src,
{
}

/// A packet that comes in keeps its bytes, its sender and the settings of that
/// moment, and its time is cut off to whole milliseconds.
pub proof fn law_received_packets_are_kept_whole(
    counter: &mut PacketCounter,
    data: Vec<u8>,
    src: SocketAddr,
    arrival: u128,
    settings: ProxySettings,
    packet: ClientPacket,
)
    requires
        call_ensures(PacketCounter::receive, (counter, data, src, arrival, settings), packet),
    ensures
        packet.id == old(counter).next,
        packet.data == data,
        packet.src == src,
        packet.arrival == arrival,
        packet.settings == settings,
        packet.time_in_ms * 1_000_000 <= arrival < (packet.time_in_ms + 1) * 1_000_000,
        old(counter).next < u64::MAX ==> final(counter).next == old(counter).next + 1,
        old(counter).next == u64::MAX ==> final(counter).next == 0,
{
}

/// The same, of a packet whose number is given.
pub proof fn law_numbered_packets_are_kept_whole(
    id: u64,
    data: Vec<u8>,
    src: SocketAddr,
    arrival: u128,
    settings: ProxySettings,
    packet: ClientPacket,
)
    requires
        call_ensures(ClientPacket::received, (id, data, src, arrival, settings), packet),
    ensures
        packet.id == id,
        packet.data == data,
        packet.src == src,
        packet.arrival == arrival,
        packet.settings == settings,
        packet.time_in_ms * 1_000_000 <= arrival < (packet.time_in_ms + 1) * 1_000_000,
{
}

/// The first number is one, and of two numbers in a row the second is one
/// more, unless there is none.
pub proof fn law_numbers_go_up_by_one(
    fresh: PacketCounter,
    first: &mut PacketCounter,
    a: u64,
    second: &mut PacketCounter,
    b: u64,
)
    requires
        call_ensures(PacketCounter::new, (), fresh),
        call_ensures(PacketCounter::next_id, (first,), a),
        *final(first) == *old(second),
        call_ensures(PacketCounter::next_id, (second,), b),
    ensures
        fresh.next == 1,
        *old(first) == fresh ==> a == 1,
        b == if a < u64::MAX {
            a + 1
        } else {
            0
        },
{
}

/// Of two packets the one with the earlier time leaves first, and at one time
/// the one with the smaller number.
pub proof fn law_packets_leave_by_time_and_number(
    a: ScheduledPacket,
    b: ScheduledPacket,
    first: bool,
    same: bool,
)
    requires
        call_ensures(ScheduledPacket::is_before, (&a, &b), first),
        call_ensures(ScheduledPacket::eq, (&a, &b), same),
    ensures
        a.send_at < b.send_at ==> first,
        a.send_at > b.send_at ==> !first,
        a.send_at == b.send_at ==> first == (a.seq < b.seq),
        same == (a.send_at == b.send_at && a.seq == b.seq),
{
}

/// The order of packets says the same.
pub proof fn law_packets_are_ordered_by_time_and_number(
    a: ScheduledPacket,
    b: ScheduledPacket,
    order: Option<Ordering>,
)
    requires
        call_ensures(ScheduledPacket::partial_cmp, (&a, &b), order),
    ensures
        order == Some(Ordering::Less) <==> a.send_at < b.send_at || (a.send_at == b.send_at && a.seq
            < b.seq),
        order == Some(Ordering::Greater) <==> a.send_at > b.send_at || (a.send_at == b.send_at
            && a.seq > b.seq),
        order == Some(Ordering::Equal) <==> a.send_at == b.send_at && a.seq == b.seq,
{
}

} // verus!
