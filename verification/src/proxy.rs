//! The clients of the proxy, and the events that are kept.
use crate::addr::SocketAddr;
use crate::packet::dropped_event;
use crate::types::{PacketAction, PacketDirection, PacketEvent, EVENT_BUFFER};
use std::collections::{HashMap, VecDeque};
use vstd::prelude::*;

verus! {

/// The greatest datagram that is taken in, in bytes.
pub const DATAGRAM_BUFFER: usize = 65_535;

/// The events that are kept of a history: the latest ones, the newest first.
pub open spec fn kept(history: Seq<PacketEvent>) -> Seq<PacketEvent> {
    let n: nat = if history.len() < EVENT_BUFFER {
        history.len()
    } else {
        EVENT_BUFFER as nat
    };
    Seq::new(n, |i: int| history[history.len() - 1 - i])
}

/// The events after one more: it stands in front, and where there is no room
/// the last one goes.
pub open spec fn with_event(events: Seq<PacketEvent>, event: PacketEvent) -> Seq<PacketEvent> {
    seq![event] + if events.len() >= EVENT_BUFFER {
        events.drop_last()
    } else {
        events
    }
}

/// Keeps an event.
pub fn push_event(events: &mut VecDeque<PacketEvent>, event: PacketEvent)
    ensures
        final(events)@ == with_event(old(events)@, event),
        old(events)@.len() <= EVENT_BUFFER ==> final(events)@.len() <= EVENT_BUFFER,
{
    if events.len() >= EVENT_BUFFER {
        events.pop_back();
    }
    events.push_front(event);
    assert(events@ =~= with_event(old(events)@, event));
}

/// From an empty start the buffer holds the latest events, the newest first:
/// one more event makes it hold the latest of the longer history.
pub proof fn law_buffer_keeps_the_newest(history: Seq<PacketEvent>, event: PacketEvent)
    ensures
        kept(Seq::empty()) == Seq::<PacketEvent>::empty(),
        with_event(kept(history), event) == kept(history.push(event)),
        kept(history).len() <= EVENT_BUFFER,
{
    assert(kept(Seq::empty()) =~= Seq::<PacketEvent>::empty());
    assert(with_event(kept(history), event) =~= kept(history.push(event)));
}

/// The number of an address: its octets and its port, put together.
pub open spec fn key_of(addr: SocketAddr) -> int {
    (((addr.ip.a * 256 + addr.ip.b) * 256 + addr.ip.c) * 256 + addr.ip.d) * 65536 + addr.port
}

/// Different addresses have different numbers.
pub proof fn law_keys_tell_addresses_apart(x: SocketAddr, y: SocketAddr)
    ensures
        0 <= key_of(x) <= u64::MAX,
        key_of(x) == key_of(y) ==> x == y,
{
    if key_of(x) == key_of(y) {
        let (x3, y3) = (x.ip.a * 256 + x.ip.b, y.ip.a * 256 + y.ip.b);
        let (x2, y2) = (x3 * 256 + x.ip.c, y3 * 256 + y.ip.c);
        let (x1, y1) = (x2 * 256 + x.ip.d, y2 * 256 + y.ip.d);
        lemma_last_digit(x1, x.port as int, y1, y.port as int, 65536);
        lemma_last_digit(x2, x.ip.d as int, y2, y.ip.d as int, 256);
        lemma_last_digit(x3, x.ip.c as int, y3, y.ip.c as int, 256);
        lemma_last_digit(x.ip.a as int, x.ip.b as int, y.ip.a as int, y.ip.b as int, 256);
    }
}

/// A number determines its last digit and the rest.
proof fn lemma_last_digit(a: int, r: int, b: int, t: int, base: int)
    requires
        0 <= r < base,
        0 <= t < base,
        a * base + r == b * base + t,
    ensures
        a == b,
        r == t,
{
    assert(a == b) by (nonlinear_arith)
        requires
            0 <= r < base,
            0 <= t < base,
            a * base + r == b * base + t,
    ;
}

fn key(addr: SocketAddr) -> (n: u64)
    ensures
        n == key_of(addr),
{
    let ip: u64 = ((addr.ip.a as u64 * 256 + addr.ip.b as u64) * 256 + addr.ip.c as u64) * 256
        + addr.ip.d as u64;
    ip * 65536 + addr.port as u64
}

/// What the proxy is told.
pub enum ProxyEvent {
    /// The signal to stop has changed, or its sender is gone.
    Signal { closed: bool, requested: bool },
    /// Nothing could be received.
    ReceiveFailed,
    /// A datagram came in.
    Datagram { src: SocketAddr },
    /// A way to the other side was to be opened for a client.
    Opened { src: SocketAddr, ok: bool },
    /// The packets of the client that wait are too many for one more.
    Refused { id: u64, time_in_ms: u128, size: usize, src: SocketAddr },
}

/// What is to be done for the proxy.
#[derive(PartialEq, Eq, Debug, Clone, Copy)]
pub enum ProxyAction {
    /// Wait for the next event.
    Wait,
    /// End the proxy.
    Stop,
    /// Open a way to the other side for the client that the datagram came from.
    Open,
    /// Hand the datagram to the client with this number.
    Enqueue { slot: usize },
    /// Keep an event, and wait.
    Log(PacketEvent),
}

/// The clients, numbered as they came.
pub struct ClientTable {
    slots: HashMap<u64, usize>,
    clients: Vec<SocketAddr>,
}

impl View for ClientTable {
    type V = Seq<SocketAddr>;

    closed spec fn view(&self) -> Seq<SocketAddr> {
        self.clients@
    }
}

impl ClientTable {
    /// No client has two numbers, and every client is found by its address.
    pub closed spec fn wf(self) -> bool {
        &&& self.clients@.no_duplicates()
        &&& forall|i: int|
            0 <= i < self.clients@.len() ==> {
                let n = key_of(#[trigger] self.clients@[i]) as u64;
                self.slots@.contains_key(n) && self.slots@[n] == i
            }
        &&& forall|n: u64| #[trigger]
            self.slots@.contains_key(n) ==> self.slots@[n] < self.clients@.len() && key_of(
                self.clients@[self.slots@[n] as int],
            ) == n
    }

    pub fn new() -> (table: ClientTable)
        ensures
            table.wf(),
            table@ == Seq::<SocketAddr>::empty(),
    {
        broadcast use vstd::std_specs::hash::group_hash_axioms;

        ClientTable { slots: HashMap::new(), clients: Vec::new() }
    }

    /// Two clients never share a number.
    pub proof fn law_clients_are_distinct(&self)
        requires
            self.wf(),
        ensures
            self@.no_duplicates(),
    {
    }

    /// The number of a client, where it has one.
    pub fn slot_of(&self, src: SocketAddr) -> (slot: Option<usize>)
        requires
            self.wf(),
        ensures
            match slot {
                Some(i) => i < self@.len() && self@[i as int] == src,
                None => !self@.contains(src),
            },
    {
        broadcast use vstd::std_specs::hash::group_hash_axioms;

        let n: u64 = key(src);
        match self.slots.get(&n) {
            Some(slot) => {
                proof {
                    law_keys_tell_addresses_apart(self.clients@[*slot as int], src);
                }
                Some(*slot)
            },
            None => {
                proof {
                    if self@.contains(src) {
                        let i = choose|i: int| 0 <= i < self@.len() && self@[i] == src;
                        assert(self.clients@[i] == src);
                    }
                }
                None
            },
        }
    }

    /// Gives a new client the next number.
    fn enter(&mut self, src: SocketAddr) -> (slot: usize)
        requires
            old(self).wf(),
            !old(self)@.contains(src),
        ensures
            final(self).wf(),
            final(self)@ == old(self)@.push(src),
            slot == old(self)@.len(),
    {
        broadcast use vstd::std_specs::hash::group_hash_axioms;

        let slot: usize = self.clients.len();
        let n: u64 = key(src);
        let ghost before = self.clients@;
        self.slots.insert(n, slot);
        self.clients.push(src);
        proof {
            let after = self.clients@;
            assert forall|i: int| 0 <= i < before.len() implies key_of(#[trigger] before[i])
                != n by {
                law_keys_tell_addresses_apart(before[i], src);
                assert(before[i] != src);
            }
            assert forall|i: int| 0 <= i < after.len() implies {
                let m = key_of(#[trigger] after[i]) as u64;
                self.slots@.contains_key(m) && self.slots@[m] == i
            } by {
                law_keys_tell_addresses_apart(after[i], src);
                if i < before.len() {
                    assert(after[i] == before[i]);
                }
            }
            assert forall|m: u64| #[trigger] self.slots@.contains_key(m) implies self.slots@[m]
                < after.len() && key_of(after[self.slots@[m] as int]) == m by {
                if m != n {
                    assert(old(self).slots@.contains_key(m));
                    assert(after[self.slots@[m] as int] == before[self.slots@[m] as int]);
                }
            }
        }
        slot
    }

    /// Tells the proxy an event, and says what to do. A client that is not
    /// known gets a number once a way is open for it; where none can be opened
    /// its datagram is given up.
    pub fn step(&mut self, event: ProxyEvent) -> (action: ProxyAction)
        requires
            old(self).wf(),
        ensures
            final(self).wf(),
            match event {
                ProxyEvent::Signal { closed, requested } => {
                    &&& final(self)@ == old(self)@
                    &&& action == if closed || requested {
                        ProxyAction::Stop
                    } else {
                        ProxyAction::Wait
                    }
                },
                ProxyEvent::ReceiveFailed => {
                    &&& final(self)@ == old(self)@
                    &&& action == ProxyAction::Wait
                },
                ProxyEvent::Datagram { src } => {
                    &&& final(self)@ == old(self)@
                    &&& if old(self)@.contains(src) {
                        action matches ProxyAction::Enqueue { slot } && slot < old(self)@.len()
                            && old(self)@[slot as int] == src
                    } else {
                        action == ProxyAction::Open
                    }
                },
                ProxyEvent::Opened { src, ok } => {
                    if !ok {
                        final(self)@ == old(self)@ && action == ProxyAction::Wait
                    } else {
                        &&& final(self)@ == if old(self)@.contains(src) {
                            old(self)@
                        } else {
                            old(self)@.push(src)
                        }
                        &&& action matches ProxyAction::Enqueue { slot } && slot < final(self)@.len()
                            && final(self)@[slot as int] == src
                    }
                },
                ProxyEvent::Refused { id, time_in_ms, size, src } => {
                    &&& final(self)@ == old(self)@
                    &&& action == ProxyAction::Log(
                        PacketEvent {
                            id,
                            direction: PacketDirection::InToOut,
                            time_in_ms,
                            latency_ms: 0,
                            time_out_ms: None,
                            action: PacketAction::Dropped,
                            size,
                            src,
                        },
                    )
                },
            },
    {
        match event {
            ProxyEvent::Signal { closed, requested } => if closed || requested {
                ProxyAction::Stop
            } else {
                ProxyAction::Wait
            },
            ProxyEvent::ReceiveFailed => ProxyAction::Wait,
            ProxyEvent::Datagram { src } => match self.slot_of(src) {
                Some(slot) => ProxyAction::Enqueue { slot },
                None => ProxyAction::Open,
            },
            ProxyEvent::Opened { src, ok } => {
                if !ok {
                    ProxyAction::Wait
                } else {
                    match self.slot_of(src) {
                        Some(slot) => ProxyAction::Enqueue { slot },
                        None => {
                            let slot: usize = self.enter(src);
                            ProxyAction::Enqueue { slot }
                        },
                    }
                }
            },
            ProxyEvent::Refused { id, time_in_ms, size, src } => ProxyAction::Log(
                dropped_event(id, PacketDirection::InToOut, time_in_ms, size, src),
            ),
        }
    }
}

/// A new event stands in front of those that were there. Of 2048 or more the
/// last one goes, and no other.
pub proof fn law_events_are_kept_newest_first(
    events: &mut VecDeque<PacketEvent>,
    event: PacketEvent,
)
    requires
        call_ensures(push_event, (events, event), ()),
    ensures
        final(events)@.len() == if old(events)@.len() < 2048 {
            old(events)@.len() + 1
        } else {
            old(events)@.len()
        },
        final(events)@[0] == event,
        forall|i: int|
            1 <= i < final(events)@.len() ==> #[trigger] final(events)@[i] == old(events)@[i - 1],
{
}

/// What is kept of a history are its latest 2048 events, the newest first.
pub proof fn law_history_is_kept_newest_first(history: Seq<PacketEvent>, i: int)
    ensures
        kept(history).len() == if history.len() < 2048 {
            history.len()
        } else {
            2048
        },
        0 <= i < kept(history).len() ==> kept(history)[i] == history[history.len() - 1 - i],
{
}

/// A client is known once a way was opened for it, and not before. Its
/// datagrams go to the number that it was given then.
pub proof fn law_a_client_keeps_its_number(
    opened: &mut ClientTable,
    src: SocketAddr,
    ok: bool,
    first: ProxyAction,
    later: &mut ClientTable,
    other: SocketAddr,
    second: ProxyAction,
)
    requires
        old(opened).wf(),
        call_ensures(ClientTable::step, (opened, ProxyEvent::Opened { src, ok }), first),
        *final(opened) == *old(later),
        call_ensures(ClientTable::step, (later, ProxyEvent::Datagram { src: other }), second),
    ensures
        !ok ==> first == ProxyAction::Wait && final(opened)@ == old(opened)@,
        ok ==> first is Enqueue,
        ok && other == src ==> second == first,
        ok && other != src ==> second != first,
        second == ProxyAction::Open <==> !(ok && other == src) && !old(opened)@.contains(other),
        second is Enqueue <==> second != ProxyAction::Open,
        final(later)@ == old(later)@,
{
    let before = old(opened)@;
    let after = final(opened)@;
    final(opened).law_clients_are_distinct();
    old(opened).law_clients_are_distinct();
    if ok {
        let slot = first->slot;
        assert(after[slot as int] == src);
        assert(after.contains(src));
        if before.contains(other) {
            let i = choose|i: int| 0 <= i < before.len() && before[i] == other;
            assert(after[i] == other);
        }
        if after.contains(other) && other != src {
            let i = choose|i: int| 0 <= i < after.len() && after[i] == other;
            assert(before[i] == other);
        }
    }
}

/// A client that is known keeps its number when others come.
pub proof fn law_numbers_of_clients_stay(
    before: &mut ClientTable,
    client: SocketAddr,
    first: ProxyAction,
    opened: &mut ClientTable,
    src: SocketAddr,
    ok: bool,
    action: ProxyAction,
    later: &mut ClientTable,
    second: ProxyAction,
)
    requires
        old(before).wf(),
        call_ensures(ClientTable::step, (before, ProxyEvent::Datagram { src: client }), first),
        first is Enqueue,
        *final(before) == *old(opened),
        call_ensures(ClientTable::step, (opened, ProxyEvent::Opened { src, ok }), action),
        *final(opened) == *old(later),
        call_ensures(ClientTable::step, (later, ProxyEvent::Datagram { src: client }), second),
    ensures
        second == first,
{
    let known = old(before)@;
    let after = final(opened)@;
    final(opened).law_clients_are_distinct();
    assert(known[first->slot as int] == client);
    assert(known.contains(client));
    assert(after[first->slot as int] == client);
    assert(after.contains(client));
}

/// Clients are numbered from zero, as they come.
pub proof fn law_clients_are_numbered_as_they_come(
    table: &mut ClientTable,
    src: SocketAddr,
    action: ProxyAction,
    fresh: ClientTable,
)
    requires
        old(table).wf(),
        !old(table)@.contains(src),
        call_ensures(ClientTable::step, (table, ProxyEvent::Opened { src, ok: true }), action),
        call_ensures(ClientTable::new, (), fresh),
    ensures
        action == (ProxyAction::Enqueue { slot: old(table)@.len() as usize }),
        final(table)@ == old(table)@.push(src),
        fresh@.len() == 0,
        fresh.wf(),
{
    final(table).law_clients_are_distinct();
    let after = final(table)@;
    assert(after[old(table)@.len() as int] == src);
    assert(after[action->slot as int] == src);
}

/// The number of a client is where it is found, and only one that is known has
/// a number.
pub proof fn law_clients_are_found(table: ClientTable, src: SocketAddr, slot: Option<usize>)
    requires
        table.wf(),
        call_ensures(ClientTable::slot_of, (&table, src), slot),
    ensures
        slot is Some <==> table@.contains(src),
        slot matches Some(i) ==> i < table@.len() && table@[i as int] == src,
{
}

/// The proxy stops exactly when a stop is asked for, or nobody is left to ask.
/// A failure to receive is passed over. A packet that found no room is told as
/// dropped, on its way in. None of these changes the clients.
pub proof fn law_the_proxy_does_what_it_is_told(
    table: &mut ClientTable,
    event: ProxyEvent,
    action: ProxyAction,
)
    requires
        old(table).wf(),
        call_ensures(ClientTable::step, (table, event), action),
    ensures
        event !is Opened ==> final(table)@ == old(table)@,
        action == ProxyAction::Stop <==> (event matches ProxyEvent::Signal { closed, requested } && (
        closed || requested)),
        event is ReceiveFailed ==> action == ProxyAction::Wait,
        action is Log <==> event is Refused,
        event matches ProxyEvent::Refused { id, time_in_ms, size, src } ==> (action matches ProxyAction::Log(
            told,
        ) && told.id == id && told.direction == PacketDirection::InToOut && told.time_in_ms
            == time_in_ms && told.latency_ms == 0 && told.time_out_ms is None && told.action
            == PacketAction::Dropped && told.size == size && told.src == src),
{
}

/// The greatest datagram has 65535 bytes.
pub proof fn law_datagrams_fit()
    ensures
        DATAGRAM_BUFFER == 65_535,
{
}

} // verus!
