use std::collections::VecDeque;
use udptoxy::blaster::{payload, report, target};
use udptoxy::proxy::{push_event, ClientTable, ProxyAction, ProxyEvent};
use udptoxy::types::{
    Ipv4Addr, PacketAction, PacketDirection, PacketEvent, SocketAddr, EVENT_BUFFER,
};

fn addr(last: u8, port: u16) -> SocketAddr {
    SocketAddr::new(Ipv4Addr::new(10, 0, 0, last), port)
}

fn event(id: u64) -> PacketEvent {
    PacketEvent {
        id,
        direction: PacketDirection::OutToIn,
        time_in_ms: 1,
        latency_ms: 2,
        time_out_ms: Some(3),
        action: PacketAction::Forwarded,
        size: 4,
        src: addr(1, 1),
    }
}

#[test]
fn keeps_the_newest_events() {
    let mut events = VecDeque::new();
    for id in 0..EVENT_BUFFER as u64 + 10 {
        push_event(&mut events, event(id));
    }
    assert_eq!(events.len(), EVENT_BUFFER);
    for (i, kept) in events.iter().enumerate() {
        assert_eq!(kept.id, EVENT_BUFFER as u64 + 9 - i as u64);
    }
}

#[test]
fn opens_a_client_once() {
    let mut table = ClientTable::new();
    assert_eq!(table.step(ProxyEvent::Datagram { src: addr(1, 1) }), ProxyAction::Open);
    assert_eq!(table.slot_of(addr(1, 1)), None);
    assert_eq!(table.step(ProxyEvent::Opened { src: addr(1, 1), ok: true }), ProxyAction::Enqueue { slot: 0 });
    assert_eq!(table.step(ProxyEvent::Datagram { src: addr(1, 1) }), ProxyAction::Enqueue { slot: 0 });
    assert_eq!(table.step(ProxyEvent::Datagram { src: addr(1, 2) }), ProxyAction::Open);
    assert_eq!(table.step(ProxyEvent::Opened { src: addr(1, 2), ok: true }), ProxyAction::Enqueue { slot: 1 });
    assert_eq!(table.step(ProxyEvent::Opened { src: addr(2, 1), ok: true }), ProxyAction::Enqueue { slot: 2 });
    assert_eq!(table.step(ProxyEvent::Opened { src: addr(1, 2), ok: true }), ProxyAction::Enqueue { slot: 1 });
    assert_eq!(table.slot_of(addr(2, 1)), Some(2));
}

#[test]
fn gives_up_a_datagram_without_a_way() {
    let mut table = ClientTable::new();
    assert_eq!(table.step(ProxyEvent::Opened { src: addr(1, 1), ok: false }), ProxyAction::Wait);
    assert_eq!(table.step(ProxyEvent::Datagram { src: addr(1, 1) }), ProxyAction::Open);
}

#[test]
fn logs_a_packet_that_found_no_room() {
    let mut table = ClientTable::new();
    let refused = ProxyEvent::Refused { id: 7, time_in_ms: 8, size: 9, src: addr(3, 3) };
    assert_eq!(
        table.step(refused),
        ProxyAction::Log(PacketEvent {
            id: 7,
            direction: PacketDirection::InToOut,
            time_in_ms: 8,
            latency_ms: 0,
            time_out_ms: None,
            action: PacketAction::Dropped,
            size: 9,
            src: addr(3, 3),
        })
    );
}

#[test]
fn stops_when_it_is_told() {
    let mut table = ClientTable::new();
    assert_eq!(table.step(ProxyEvent::Signal { closed: true, requested: false }), ProxyAction::Stop);
    assert_eq!(table.step(ProxyEvent::Signal { closed: false, requested: true }), ProxyAction::Stop);
    assert_eq!(table.step(ProxyEvent::Signal { closed: false, requested: false }), ProxyAction::Wait);
    assert_eq!(table.step(ProxyEvent::ReceiveFailed), ProxyAction::Wait);
}

#[test]
fn payloads_are_random() {
    let mut sizes = Vec::new();
    let mut nonzero = false;
    for _ in 0..2_000 {
        let data = payload();
        assert!((16..=256).contains(&data.len()));
        nonzero = nonzero || data.iter().any(|byte| *byte != 0);
        sizes.push(data.len());
    }
    sizes.sort();
    sizes.dedup();
    assert!(sizes.len() > 100);
    assert!(nonzero);
}

#[test]
fn reports_every_hundredth() {
    let to = target(9000);
    assert_eq!(report(99, &to), None);
    assert_eq!(report(100, &to), Some("sent 100 packets to 127.0.0.1:9000".to_string()));
    assert_eq!(report(101, &to), None);
}
